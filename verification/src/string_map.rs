//! An insertion-ordered map from strings to values, the ordered backing for
//! the path index, the score maps and the layered pattern caches. Keys are
//! unique; an insert of a present key replaces its value in place, so
//! iteration order is the order of first insertion.

use vstd::prelude::*;

use crate::text;

verus! {

broadcast use vstd::std_specs::vec::group_vec_axioms, vstd::seq::group_seq_axioms;

/// Index of the first entry with the given key, if any.
pub open spec fn seq_find<V>(s: Seq<(Seq<char>, V)>, key: Seq<char>) -> Option<int>
    decreases s.len(),
{
    if s.len() == 0 {
        None
    } else if s[0].0 == key {
        Some(0)
    } else {
        match seq_find(s.drop_first(), key) {
            Some(j) => Some(j + 1),
            None => None,
        }
    }
}

pub broadcast proof fn lemma_seq_find<V>(s: Seq<(Seq<char>, V)>, key: Seq<char>)
    ensures
        match #[trigger] seq_find(s, key) {
            Some(j) => 0 <= j < s.len() && s[j].0 == key && (forall|k: int|
                0 <= k < j ==> s[k].0 != key),
            None => forall|k: int| 0 <= k < s.len() ==> s[k].0 != key,
        },
    decreases s.len(),
{
    if s.len() > 0 && s[0].0 != key {
        lemma_seq_find(s.drop_first(), key);
        assert(forall|k: int| 1 <= k < s.len() ==> s[k] == s.drop_first()[k - 1]);
    }
}

/// Updating an entry's value moves no key: lookups are unchanged.
pub proof fn lemma_seq_find_update<V>(s: Seq<(Seq<char>, V)>, j: int, v: V, k: Seq<char>)
    requires
        0 <= j < s.len(),
    ensures
        seq_find(s.update(j, (s[j].0, v)), k) == seq_find(s, k),
    decreases s.len(),
{
    let u = s.update(j, (s[j].0, v));
    if s.len() > 0 {
        assert(u[0].0 == s[0].0);
        if s[0].0 != k {
            if j == 0 {
                assert(u.drop_first() =~= s.drop_first());
            } else {
                assert(u.drop_first() =~= s.drop_first().update(j - 1, (s[j].0, v)));
                assert(s.drop_first()[j - 1] == s[j]);
                lemma_seq_find_update(s.drop_first(), j - 1, v, k);
            }
        }
    }
}

/// Appending an entry leaves earlier lookups alone; a fresh key is found at
/// the end.
pub proof fn lemma_seq_find_push<V>(s: Seq<(Seq<char>, V)>, key: Seq<char>, v: V, k: Seq<char>)
    ensures
        seq_find(s.push((key, v)), k) == (match seq_find(s, k) {
            Some(j) => Some(j),
            None => if k == key {
                Some(s.len() as int)
            } else {
                None
            },
        }),
    decreases s.len(),
{
    let u = s.push((key, v));
    if s.len() == 0 {
        assert(u[0].0 == key);
        assert(u.drop_first() =~= Seq::<(Seq<char>, V)>::empty());
    } else {
        assert(u[0] == s[0]);
        if s[0].0 != k {
            assert(u.drop_first() =~= s.drop_first().push((key, v)));
            lemma_seq_find_push(s.drop_first(), key, v, k);
        }
    }
}

/// No key occurs twice.
pub open spec fn keys_unique<V>(s: Seq<(Seq<char>, V)>) -> bool {
    forall|i: int, j: int| 0 <= i < j < s.len() ==> s[i].0 != s[j].0
}

/// An insertion-ordered string-keyed map.
#[derive(Debug)]
pub struct StringMap<V> {
    entries: Vec<(String, V)>,
}

impl<V> View for StringMap<V> {
    type V = Seq<(Seq<char>, V)>;

    closed spec fn view(&self) -> Seq<(Seq<char>, V)> {
        Seq::new(self.entries@.len(), |i: int| (self.entries@[i].0@, self.entries@[i].1))
    }
}

impl<V> StringMap<V> {
    /// Keys never repeat.
    #[verifier::type_invariant]
    pub open spec fn wf(self) -> bool {
        keys_unique(self@)
    }

    /// An empty map.
    pub fn new() -> (r: Self)
        ensures
            r@ == Seq::<(Seq<char>, V)>::empty(),
    {
        let r = StringMap { entries: Vec::new() };
        proof {
            assert(r@ =~= Seq::<(Seq<char>, V)>::empty());
        }
        r
    }

    /// An empty map with room for about `capacity` entries.
    pub fn with_capacity(capacity: usize) -> (r: Self)
        ensures
            r@ == Seq::<(Seq<char>, V)>::empty(),
    {
        let _ = capacity;
        Self::new()
    }

    /// How many entries the map holds.
    pub fn len(&self) -> (r: usize)
        ensures
            r == self@.len(),
    {
        self.entries.len()
    }

    /// The position of `key`, by linear scan.
    fn find(&self, key: &str) -> (r: Option<usize>)
        ensures
            match r {
                Some(j) => seq_find(self@, key@) == Some(j as int),
                None => seq_find(self@, key@) is None,
            },
    {
        let n = self.entries.len();
        let mut j: usize = 0;
        let mut found = false;
        while j < n && !found
            invariant
                n == self.entries@.len(),
                n == self@.len(),
                j <= n,
                forall|i: int| 0 <= i < self@.len() ==> self@[i].0 == self.entries@[i].0@,
                found ==> j < n && self@[j as int].0 == key@ && (forall|k: int|
                    0 <= k < j ==> self@[k].0 != key@),
                !found ==> forall|k: int| 0 <= k < j ==> self@[k].0 != key@,
            decreases n - j + (if found { 0int } else { 1int }),
        {
            if text::str_eq(self.entries[j].0.as_str(), key) {
                found = true;
            } else {
                j = j + 1;
            }
        }
        proof {
            lemma_seq_find(self@, key@);
        }
        if found {
            Some(j)
        } else {
            None
        }
    }

    /// Look a key up.
    pub fn get(&self, key: &str) -> (r: Option<&V>)
        ensures
            match r {
                Some(v) => seq_find(self@, key@) matches Some(j) && *v == self@[j].1,
                None => seq_find(self@, key@) is None,
            },
    {
        proof {
            lemma_seq_find(self@, key@);
        }
        match self.find(key) {
            Some(j) => Some(&self.entries[j].1),
            None => None,
        }
    }

    /// Whether a key is present.
    pub fn contains_key(&self, key: &str) -> (r: bool)
        ensures
            r == (seq_find(self@, key@) is Some),
    {
        match self.find(key) {
            Some(_) => true,
            None => false,
        }
    }

    /// Insert a value: a present key keeps its place and its key string, only
    /// the value changes; an absent key is appended.
    pub fn insert(&mut self, key: String, value: V)
        ensures
            match seq_find(old(self)@, key@) {
                Some(j) => final(self)@ == old(self)@.update(j, (old(self)@[j].0, value)),
                None => final(self)@ == old(self)@.push((key@, value)),
            },
    {
        proof {
            use_type_invariant(&*self);
        }
        match self.find(key.as_str()) {
            Some(j) => {
                let ghost old_view = self@;
                proof {
                    lemma_seq_find(old_view, key@);
                }
                let mut tmp: Vec<(String, V)> = Vec::new();
                core::mem::swap(&mut self.entries, &mut tmp);
                let entry = &mut tmp[j];
                entry.1 = value;
                proof {
                    assert(Seq::new(tmp@.len(), |i: int| (tmp@[i].0@, tmp@[i].1)) =~= old_view
                        .update(j as int, (old_view[j as int].0, value)));
                }
                core::mem::swap(&mut self.entries, &mut tmp);
                proof {
                    assert(self@ =~= old_view.update(j as int, (old_view[j as int].0, value)));
                    assert(keys_unique(self@));
                }
            },
            None => {
                let ghost old_view = self@;
                let mut tmp: Vec<(String, V)> = Vec::new();
                core::mem::swap(&mut self.entries, &mut tmp);
                tmp.push((key, value));
                proof {
                    lemma_seq_find(old_view, key@);
                    assert(Seq::new(tmp@.len(), |i: int| (tmp@[i].0@, tmp@[i].1)) =~= old_view.push(
                        (key@, value),
                    ));
                }
                core::mem::swap(&mut self.entries, &mut tmp);
                proof {
                    assert(self@ =~= old_view.push((key@, value)));
                    assert(keys_unique(self@));
                }
            },
        }
    }

    /// Append an entry whose key is known to be absent.
    pub fn append(&mut self, key: String, value: V)
        requires
            seq_find(old(self)@, key@) is None,
        ensures
            final(self)@ == old(self)@.push((key@, value)),
    {
        proof {
            use_type_invariant(&*self);
            lemma_seq_find(self@, key@);
        }
        let ghost old_view = self@;
        let mut tmp: Vec<(String, V)> = Vec::new();
        core::mem::swap(&mut self.entries, &mut tmp);
        tmp.push((key, value));
        proof {
            assert(Seq::new(tmp@.len(), |i: int| (tmp@[i].0@, tmp@[i].1)) =~= old_view.push(
                (key@, value),
            ));
        }
        core::mem::swap(&mut self.entries, &mut tmp);
        proof {
            assert(self@ =~= old_view.push((key@, value)));
            assert(keys_unique(self@));
        }
    }

    /// Drop every entry.
    pub fn clear(&mut self)
        ensures
            final(self)@ == Seq::<(Seq<char>, V)>::empty(),
    {
        self.entries = Vec::new();
        proof {
            assert(self@ =~= Seq::<(Seq<char>, V)>::empty());
        }
    }

    /// The key of the entry at a position.
    pub fn key_at(&self, i: usize) -> (r: &String)
        requires
            i < self@.len(),
        ensures
            r@ == self@[i as int].0,
    {
        &self.entries[i].0
    }

    /// The value of the entry at a position.
    pub fn value_at(&self, i: usize) -> (r: &V)
        requires
            i < self@.len(),
        ensures
            *r == self@[i as int].1,
    {
        &self.entries[i].1
    }
}

impl<V: Copy> StringMap<V> {
    /// An entry-for-entry copy.
    pub fn duplicate(&self) -> (r: Self)
        ensures
            r@ == self@,
    {
        proof {
            use_type_invariant(self);
        }
        let mut entries: Vec<(String, V)> = Vec::new();
        let n = self.entries.len();
        let mut i: usize = 0;
        while i < n
            invariant
                n == self.entries@.len(),
                i <= n,
                entries@.len() == i,
                forall|k: int|
                    0 <= k < i ==> entries@[k].0@ == self.entries@[k].0@ && entries@[k].1
                        == self.entries@[k].1,
            decreases n - i,
        {
            entries.push((self.entries[i].0.clone(), self.entries[i].1));
            i = i + 1;
        }
        proof {
            assert(Seq::new(entries@.len(), |i: int| (entries@[i].0@, entries@[i].1)) =~= self@);
        }
        let r = StringMap { entries };
        proof {
            assert(r@ =~= self@);
        }
        r
    }
}

} // verus!
