//! The ordered tree of typed values that every other part of the crate works
//! on: null, booleans, strings, integers, arrays, and objects whose keys keep
//! their insertion order.

use vstd::prelude::*;

verus! {

broadcast use vstd::std_specs::vec::group_vec_axioms, vstd::seq::group_seq_axioms;

/// A document node. Objects are kept as an ordered list of key/value pairs so
/// that key order survives parsing, mutation and rendering.
#[derive(Debug, PartialEq, Eq)]
pub enum Value {
    Null,
    Bool(bool),
    String(String),
    Number(i64),
    Array(Vec<Value>),
    Object(Vec<(String, Value)>),
}

impl Value {
    /// The number of nodes in the tree rooted here; every node counts itself.
    pub open spec fn size(self) -> nat
        decreases self,
    {
        match self {
            Value::Array(items) => 1 + Self::seq_size(items@),
            Value::Object(entries) => 1 + Self::entry_seq_size(entries@),
            _ => 1,
        }
    }

    /// Total size of a sequence of nodes.
    pub open spec fn seq_size(items: Seq<Value>) -> nat
        decreases items,
    {
        if items.len() == 0 {
            0
        } else {
            items[0].size() + Self::seq_size(items.drop_first())
        }
    }

    /// Total size of a sequence of object entries.
    pub open spec fn entry_seq_size(entries: Seq<(String, Value)>) -> nat
        decreases entries,
    {
        if entries.len() == 0 {
            0
        } else {
            entries[0].1.size() + Self::entry_seq_size(entries.drop_first())
        }
    }
}

/// `sub` occurs somewhere inside `sup` (or is `sup` itself).
pub open spec fn subvalue(sub: Value, sup: Value) -> bool
    decreases sup,
{
    sup == sub || match sup {
        Value::Array(items) => exists|i: int|
            0 <= i < items@.len() && subvalue(sub, #[trigger] items@[i]),
        Value::Object(entries) => exists|i: int|
            0 <= i < entries@.len() && subvalue(sub, (#[trigger] entries@[i]).1),
        _ => false,
    }
}

/// Some string node inside `v` holds exactly this text.
pub open spec fn contains_string(v: Value, t: Seq<char>) -> bool
    decreases v,
{
    match v {
        Value::String(s) => s@ == t,
        Value::Array(items) => exists|i: int|
            0 <= i < items@.len() && contains_string(#[trigger] items@[i], t),
        Value::Object(entries) => exists|i: int|
            0 <= i < entries@.len() && contains_string((#[trigger] entries@[i]).1, t),
        _ => false,
    }
}

/// How many string nodes of `v` hold text outside `seen`.
pub open spec fn unseen_strings(v: Value, seen: Set<Seq<char>>) -> nat
    decreases v,
{
    match v {
        Value::String(s) => if seen.contains(s@) {
            0
        } else {
            1
        },
        Value::Array(items) => Value::seq_unseen(items@, seen),
        Value::Object(entries) => Value::entry_seq_unseen(entries@, seen),
        _ => 0,
    }
}

impl Value {
    /// Total unseen string count of a sequence of nodes.
    pub open spec fn seq_unseen(items: Seq<Value>, seen: Set<Seq<char>>) -> nat
        decreases items,
    {
        if items.len() == 0 {
            0
        } else {
            unseen_strings(items[0], seen) + Self::seq_unseen(items.drop_first(), seen)
        }
    }

    /// Total unseen string count of a sequence of object entries.
    pub open spec fn entry_seq_unseen(entries: Seq<(String, Value)>, seen: Set<Seq<char>>) -> nat
        decreases entries,
    {
        if entries.len() == 0 {
            0
        } else {
            unseen_strings(entries[0].1, seen) + Self::entry_seq_unseen(entries.drop_first(), seen)
        }
    }
}

/// A prefix never weighs more than its whole entry sequence.
pub proof fn lemma_entry_seq_size_take_le(entries: Seq<(String, Value)>, i: int)
    requires
        0 <= i <= entries.len(),
    ensures
        Value::entry_seq_size(entries.take(i)) <= Value::entry_seq_size(entries),
    decreases entries.len() - i,
{
    if i == entries.len() {
        assert(entries.take(i) =~= entries);
    } else {
        lemma_entry_seq_size_take_le(entries, i + 1);
        lemma_entry_seq_size_prefix_step(entries, i);
    }
}

proof fn lemma_entry_seq_size_prefix_step(entries: Seq<(String, Value)>, i: int)
    requires
        0 <= i < entries.len(),
    ensures
        Value::entry_seq_size(entries.take(i)) <= Value::entry_seq_size(entries.take(i + 1)),
    decreases i,
{
    if i == 0 {
        assert(entries.take(0) =~= Seq::<(String, Value)>::empty());
    } else {
        assert(entries.take(i).drop_first() =~= entries.drop_first().take(i - 1));
        assert(entries.take(i + 1).drop_first() =~= entries.drop_first().take(i));
        assert(entries.take(i)[0] == entries[0]);
        assert(entries.take(i + 1)[0] == entries[0]);
        lemma_entry_seq_size_prefix_step(entries.drop_first(), i - 1);
    }
}

/// One more element adds exactly its size to a prefix sum.
pub proof fn lemma_seq_size_take_succ(items: Seq<Value>, i: int)
    requires
        0 <= i < items.len(),
    ensures
        Value::seq_size(items.take(i + 1)) == Value::seq_size(items.take(i)) + items[i].size(),
    decreases i,
{
    if i == 0 {
        assert(items.take(0) =~= Seq::<Value>::empty());
        assert(items.take(1).drop_first() =~= Seq::<Value>::empty());
        assert(items.take(1)[0] == items[0]);
    } else {
        assert(items.take(i).drop_first() =~= items.drop_first().take(i - 1));
        assert(items.take(i + 1).drop_first() =~= items.drop_first().take(i));
        assert(items.take(i)[0] == items[0]);
        assert(items.take(i + 1)[0] == items[0]);
        assert(items.drop_first()[i - 1] == items[i]);
        lemma_seq_size_take_succ(items.drop_first(), i - 1);
    }
}

/// One more entry adds exactly its value's size to a prefix sum.
pub proof fn lemma_entry_seq_size_take_succ(entries: Seq<(String, Value)>, i: int)
    requires
        0 <= i < entries.len(),
    ensures
        Value::entry_seq_size(entries.take(i + 1)) == Value::entry_seq_size(entries.take(i))
            + entries[i].1.size(),
    decreases i,
{
    if i == 0 {
        assert(entries.take(0) =~= Seq::<(String, Value)>::empty());
        assert(entries.take(1).drop_first() =~= Seq::<(String, Value)>::empty());
        assert(entries.take(1)[0] == entries[0]);
    } else {
        assert(entries.take(i).drop_first() =~= entries.drop_first().take(i - 1));
        assert(entries.take(i + 1).drop_first() =~= entries.drop_first().take(i));
        assert(entries.take(i)[0] == entries[0]);
        assert(entries.take(i + 1)[0] == entries[0]);
        assert(entries.drop_first()[i - 1] == entries[i]);
        lemma_entry_seq_size_take_succ(entries.drop_first(), i - 1);
    }
}

/// The size of any element is at most the size of its sequence.
pub proof fn lemma_seq_size_bound(items: Seq<Value>, i: int)
    requires
        0 <= i < items.len(),
    ensures
        items[i].size() <= Value::seq_size(items),
    decreases items.len(),
{
    if i > 0 {
        lemma_seq_size_bound(items.drop_first(), i - 1);
    }
}

/// The size of any entry value is at most the size of its entry sequence.
pub proof fn lemma_entry_seq_size_bound(entries: Seq<(String, Value)>, i: int)
    requires
        0 <= i < entries.len(),
    ensures
        entries[i].1.size() <= Value::entry_seq_size(entries),
    decreases entries.len(),
{
    if i > 0 {
        lemma_entry_seq_size_bound(entries.drop_first(), i - 1);
    }
}

/// A subvalue is never larger than what holds it.
pub proof fn lemma_subvalue_size(sub: Value, sup: Value)
    requires
        subvalue(sub, sup),
    ensures
        sub.size() <= sup.size(),
    decreases sup,
{
    if sub != sup {
        match sup {
            Value::Array(items) => {
                let i = choose|i: int|
                    0 <= i < items@.len() && subvalue(sub, #[trigger] items@[i]);
                lemma_subvalue_size(sub, items@[i]);
                lemma_seq_size_bound(items@, i);
            },
            Value::Object(entries) => {
                let i = choose|i: int|
                    0 <= i < entries@.len() && subvalue(sub, (#[trigger] entries@[i]).1);
                lemma_subvalue_size(sub, entries@[i].1);
                lemma_entry_seq_size_bound(entries@, i);
            },
            _ => {},
        }
    }
}

/// A string node of a subvalue is a string node of the whole.
pub proof fn lemma_subvalue_contains_string(sub: Value, sup: Value, t: Seq<char>)
    requires
        subvalue(sub, sup),
        contains_string(sub, t),
    ensures
        contains_string(sup, t),
    decreases sup,
{
    if sub != sup {
        match sup {
            Value::Array(items) => {
                let i = choose|i: int|
                    0 <= i < items@.len() && subvalue(sub, #[trigger] items@[i]);
                lemma_subvalue_contains_string(sub, items@[i], t);
            },
            Value::Object(entries) => {
                let i = choose|i: int|
                    0 <= i < entries@.len() && subvalue(sub, (#[trigger] entries@[i]).1);
                lemma_subvalue_contains_string(sub, entries@[i].1, t);
            },
            _ => {},
        }
    }
}

/// Growing the seen set never raises the unseen count.
pub proof fn lemma_unseen_monotone(v: Value, seen: Set<Seq<char>>, bigger: Set<Seq<char>>)
    requires
        seen.subset_of(bigger),
    ensures
        unseen_strings(v, bigger) <= unseen_strings(v, seen),
    decreases v, 2int,
{
    match v {
        Value::Array(items) => {
            lemma_seq_unseen_monotone(items@, seen, bigger);
        },
        Value::Object(entries) => {
            lemma_entry_seq_unseen_monotone(entries@, seen, bigger);
        },
        _ => {},
    }
}

pub proof fn lemma_seq_unseen_monotone(
    items: Seq<Value>,
    seen: Set<Seq<char>>,
    bigger: Set<Seq<char>>,
)
    requires
        seen.subset_of(bigger),
    ensures
        Value::seq_unseen(items, bigger) <= Value::seq_unseen(items, seen),
    decreases items, 3int,
{
    if items.len() > 0 {
        lemma_unseen_monotone(items[0], seen, bigger);
        lemma_seq_unseen_monotone(items.drop_first(), seen, bigger);
    }
}

pub proof fn lemma_entry_seq_unseen_monotone(
    entries: Seq<(String, Value)>,
    seen: Set<Seq<char>>,
    bigger: Set<Seq<char>>,
)
    requires
        seen.subset_of(bigger),
    ensures
        Value::entry_seq_unseen(entries, bigger) <= Value::entry_seq_unseen(entries, seen),
    decreases entries, 3int,
{
    if entries.len() > 0 {
        lemma_unseen_monotone(entries[0].1, seen, bigger);
        lemma_entry_seq_unseen_monotone(entries.drop_first(), seen, bigger);
    }
}

/// Marking a text that some string node still holds strictly lowers the
/// unseen count.
pub proof fn lemma_unseen_insert(v: Value, seen: Set<Seq<char>>, t: Seq<char>)
    requires
        contains_string(v, t),
        !seen.contains(t),
    ensures
        unseen_strings(v, seen.insert(t)) < unseen_strings(v, seen),
    decreases v, 2int,
{
    match v {
        Value::String(s) => {},
        Value::Array(items) => {
            let i = choose|i: int|
                0 <= i < items@.len() && contains_string(#[trigger] items@[i], t);
            lemma_seq_unseen_insert(items@, seen, t, i);
        },
        Value::Object(entries) => {
            let i = choose|i: int|
                0 <= i < entries@.len() && contains_string((#[trigger] entries@[i]).1, t);
            lemma_entry_seq_unseen_insert(entries@, seen, t, i);
        },
        _ => {},
    }
}

pub proof fn lemma_seq_unseen_insert(
    items: Seq<Value>,
    seen: Set<Seq<char>>,
    t: Seq<char>,
    i: int,
)
    requires
        0 <= i < items.len(),
        contains_string(items[i], t),
        !seen.contains(t),
    ensures
        Value::seq_unseen(items, seen.insert(t)) < Value::seq_unseen(items, seen),
    decreases items, 3int,
{
    if i == 0 {
        lemma_unseen_insert(items[0], seen, t);
        lemma_seq_unseen_monotone(items.drop_first(), seen, seen.insert(t));
    } else {
        lemma_unseen_monotone(items[0], seen, seen.insert(t));
        lemma_seq_unseen_insert(items.drop_first(), seen, t, i - 1);
    }
}

pub proof fn lemma_entry_seq_unseen_insert(
    entries: Seq<(String, Value)>,
    seen: Set<Seq<char>>,
    t: Seq<char>,
    i: int,
)
    requires
        0 <= i < entries.len(),
        contains_string(entries[i].1, t),
        !seen.contains(t),
    ensures
        Value::entry_seq_unseen(entries, seen.insert(t)) < Value::entry_seq_unseen(entries, seen),
    decreases entries, 3int,
{
    if i == 0 {
        lemma_unseen_insert(entries[0].1, seen, t);
        lemma_entry_seq_unseen_monotone(entries.drop_first(), seen, seen.insert(t));
    } else {
        lemma_unseen_monotone(entries[0].1, seen, seen.insert(t));
        lemma_entry_seq_unseen_insert(entries.drop_first(), seen, t, i - 1);
    }
}

/// A document whose objects never repeat a key and never use an empty key:
/// exactly the trees whose indexed paths resolve back to their nodes.
pub open spec fn doc_wf(v: Value) -> bool
    decreases v,
{
    match v {
        Value::Array(items) => forall|i: int|
            0 <= i < items@.len() ==> doc_wf(#[trigger] items@[i]),
        Value::Object(entries) => {
            &&& forall|i: int, j: int|
                0 <= i < j < entries@.len() ==> (#[trigger] entries@[i]).0@ != (
                #[trigger] entries@[j]).0@
            &&& forall|i: int| 0 <= i < entries@.len() ==> (#[trigger] entries@[i]).0@.len() > 0
            &&& forall|i: int| 0 <= i < entries@.len() ==> doc_wf((#[trigger] entries@[i]).1)
        },
        _ => true,
    }
}

/// Containment of values is transitive.
pub proof fn lemma_subvalue_trans(a: Value, b: Value, c: Value)
    requires
        subvalue(a, b),
        subvalue(b, c),
    ensures
        subvalue(a, c),
    decreases c,
{
    if b != c {
        match c {
            Value::Array(items) => {
                let i = choose|i: int|
                    0 <= i < items@.len() && subvalue(b, #[trigger] items@[i]);
                lemma_subvalue_trans(a, b, items@[i]);
            },
            Value::Object(entries) => {
                let i = choose|i: int|
                    0 <= i < entries@.len() && subvalue(b, (#[trigger] entries@[i]).1);
                lemma_subvalue_trans(a, b, entries@[i].1);
            },
            _ => {},
        }
    }
}

/// Well-formedness descends to every contained value.
pub proof fn lemma_doc_wf_subvalue(sub: Value, sup: Value)
    requires
        doc_wf(sup),
        subvalue(sub, sup),
    ensures
        doc_wf(sub),
    decreases sup,
{
    if sub != sup {
        match sup {
            Value::Array(items) => {
                let i = choose|i: int|
                    0 <= i < items@.len() && subvalue(sub, #[trigger] items@[i]);
                lemma_doc_wf_subvalue(sub, items@[i]);
            },
            Value::Object(entries) => {
                let i = choose|i: int|
                    0 <= i < entries@.len() && subvalue(sub, (#[trigger] entries@[i]).1);
                lemma_doc_wf_subvalue(sub, entries@[i].1);
            },
            _ => {},
        }
    }
}

/// Structural equality of two trees: the same shapes, texts and numbers
/// throughout. This is what equality of documents means; it is coarser than
/// equality of the carrying values.
pub open spec fn eq_val(a: Value, b: Value) -> bool
    decreases a,
{
    match (a, b) {
        (Value::Null, Value::Null) => true,
        (Value::Bool(x), Value::Bool(y)) => x == y,
        (Value::String(x), Value::String(y)) => x@ == y@,
        (Value::Number(x), Value::Number(y)) => x == y,
        (Value::Array(x), Value::Array(y)) => x@.len() == y@.len() && (forall|i: int|
            0 <= i < x@.len() ==> eq_val(#[trigger] x@[i], y@[i])),
        (Value::Object(x), Value::Object(y)) => x@.len() == y@.len() && (forall|i: int|
            0 <= i < x@.len() ==> (#[trigger] x@[i]).0@ == y@[i].0@ && eq_val(x@[i].1, y@[i].1)),
        _ => false,
    }
}

impl Clone for Value {
    /// Deep copy, one node at a time: the copy is structurally equal to the
    /// source. (Equality of the values themselves is not expressible for the
    /// vector-carrying variants, since a vector is not pinned by its view.)
    fn clone(&self) -> (res: Self)
        ensures
            eq_val(res, *self),
        decreases self,
    {
        match self {
            Value::Null => Value::Null,
            Value::Bool(b) => Value::Bool(*b),
            Value::String(s) => Value::String(s.clone()),
            Value::Number(n) => Value::Number(*n),
            Value::Array(items) => {
                let mut copies: Vec<Value> = Vec::new();
                let mut i: usize = 0;
                while i < items.len()
                    invariant
                        *self == Value::Array(*items),
                        i <= items@.len(),
                        copies@.len() == i,
                        forall|j: int| 0 <= j < i ==> eq_val(#[trigger] copies@[j], items@[j]),
                    decreases items.len() - i,
                {
                    proof {
                        assert(decreases_to!(*self => self->Array_0));
                        assert(decreases_to!(self->Array_0 => self->Array_0@));
                        assert(decreases_to!(self->Array_0@ => self->Array_0@[i as int]));
                        assert(decreases_to!(*self => items@[i as int]));
                    }
                    copies.push(items[i].clone());
                    i = i + 1;
                }
                let res = Value::Array(copies);
                proof {
                    assert(eq_val(res, *self));
                }
                res
            },
            Value::Object(entries) => {
                let mut copies: Vec<(String, Value)> = Vec::new();
                let mut i: usize = 0;
                while i < entries.len()
                    invariant
                        *self == Value::Object(*entries),
                        i <= entries@.len(),
                        copies@.len() == i,
                        forall|j: int|
                            0 <= j < i ==> (#[trigger] copies@[j]).0@ == entries@[j].0@ && eq_val(
                                copies@[j].1,
                                entries@[j].1,
                            ),
                    decreases entries.len() - i,
                {
                    proof {
                        assert(decreases_to!(*self => self->Object_0));
                        assert(decreases_to!(self->Object_0 => self->Object_0@));
                        assert(decreases_to!(self->Object_0@ => self->Object_0@[i as int]));
                        assert(decreases_to!(self->Object_0@[i as int] => self->Object_0@[i as int].1));
                        assert(decreases_to!(*self => entries@[i as int].1));
                    }
                    copies.push((entries[i].0.clone(), entries[i].1.clone()));
                    i = i + 1;
                }
                let res = Value::Object(copies);
                proof {
                    assert(eq_val(res, *self));
                }
                res
            },
        }
    }
}

} // verus!
