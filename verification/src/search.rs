//! The search subsystem: the query parser, the scoring combinators, the
//! layered pattern cache and the ranked search entry point.

pub mod algs;
pub mod cache;
pub mod parser;

use vstd::prelude::*;

use crate::search::cache::SimpleStore;
use crate::string_map::StringMap;
use crate::value::Value;

verus! {

broadcast use vstd::std_specs::vec::group_vec_axioms, vstd::seq::group_seq_axioms;

/// The memo for one document state: the baseline score universe and one
/// layered store per leaf pattern kind.
#[derive(Debug)]
pub struct PatternCache {
    pub core: StringMap<i16>,
    pub exact: SimpleStore<StringMap<i16>>,
    pub prefix: SimpleStore<StringMap<i16>>,
    pub suffix: SimpleStore<StringMap<i16>>,
    pub fuzzy: SimpleStore<StringMap<i16>>,
}

impl PatternCache {
    /// An empty cache over an empty universe.
    pub fn new(capacity: usize) -> (r: Self)
        ensures
            r.core@ == Seq::<(Seq<char>, i16)>::empty(),
            r.exact.cache@ == Seq::<(Seq<char>, StringMap<i16>)>::empty(),
            r.prefix.cache@ == Seq::<(Seq<char>, StringMap<i16>)>::empty(),
            r.suffix.cache@ == Seq::<(Seq<char>, StringMap<i16>)>::empty(),
            r.fuzzy.cache@ == Seq::<(Seq<char>, StringMap<i16>)>::empty(),
            r.exact.capacity == capacity,
            r.prefix.capacity == capacity,
            r.suffix.capacity == capacity,
            r.fuzzy.capacity == capacity,
    {
        Self {
            core: StringMap::new(),
            exact: SimpleStore::new(capacity),
            prefix: SimpleStore::new(capacity),
            suffix: SimpleStore::new(capacity),
            fuzzy: SimpleStore::new(capacity),
        }
    }

    /// Install the universe for a fresh document state and drop every layered
    /// entry, since they were computed against the previous state.
    pub fn reset(&mut self, core: StringMap<i16>)
        ensures
            final(self).core@ == core@,
            final(self).exact.cache@ == Seq::<(Seq<char>, StringMap<i16>)>::empty(),
            final(self).prefix.cache@ == Seq::<(Seq<char>, StringMap<i16>)>::empty(),
            final(self).suffix.cache@ == Seq::<(Seq<char>, StringMap<i16>)>::empty(),
            final(self).fuzzy.cache@ == Seq::<(Seq<char>, StringMap<i16>)>::empty(),
            final(self).exact.capacity == old(self).exact.capacity,
            final(self).prefix.capacity == old(self).prefix.capacity,
            final(self).suffix.capacity == old(self).suffix.capacity,
            final(self).fuzzy.capacity == old(self).fuzzy.capacity,
    {
        self.core = core;

        self.exact.clear();
        self.prefix.clear();
        self.suffix.clear();
        self.fuzzy.clear();
    }
}

/// Insert a scored path into a descending row, after every entry that scores
/// at least as much: ties keep their earlier order.
pub open spec fn insert_desc(sorted: Seq<(Seq<char>, i16)>, x: (Seq<char>, i16)) -> Seq<
    (Seq<char>, i16),
>
    decreases sorted.len(),
{
    if sorted.len() == 0 {
        seq![x]
    } else if x.1 > sorted.last().1 {
        insert_desc(sorted.drop_last(), x).push(sorted.last())
    } else {
        sorted.push(x)
    }
}

/// The stable descending ordering of a score row.
pub open spec fn sort_rows(rows: Seq<(Seq<char>, i16)>) -> Seq<(Seq<char>, i16)>
    decreases rows.len(),
{
    if rows.len() == 0 {
        Seq::empty()
    } else {
        insert_desc(sort_rows(rows.drop_last()), rows.last())
    }
}

/// Just the keys of a row, in order.
pub open spec fn row_keys(rows: Seq<(Seq<char>, i16)>) -> Seq<Seq<char>> {
    Seq::new(rows.len(), |i: int| rows[i].0)
}

/// The model of a vector of scored paths.
pub open spec fn pairs_model(s: Seq<(String, i16)>) -> Seq<(Seq<char>, i16)> {
    Seq::new(s.len(), |i: int| (s[i].0@, s[i].1))
}

/// Inserting lands exactly at the boundary: everything after it scores less,
/// everything at or before it scores at least as much.
pub proof fn lemma_insert_desc_at(s: Seq<(Seq<char>, i16)>, x: (Seq<char>, i16), j: int)
    requires
        0 <= j <= s.len(),
        forall|k: int| j <= k < s.len() ==> (#[trigger] s[k]).1 < x.1,
        j > 0 ==> s[j - 1].1 >= x.1,
    ensures
        insert_desc(s, x) == s.take(j).push(x) + s.skip(j),
    decreases s.len(),
{
    if j == s.len() {
        if s.len() == 0 {
            assert(insert_desc(s, x) =~= s.take(j).push(x) + s.skip(j));
        } else {
            assert(s.last().1 >= x.1);
            assert(insert_desc(s, x) =~= s.take(j).push(x) + s.skip(j));
        }
    } else {
        assert(s[s.len() - 1].1 < x.1);
        assert(forall|k: int| j <= k < s.len() - 1 ==> (#[trigger] s.drop_last()[k]).1 < x.1);
        lemma_insert_desc_at(s.drop_last(), x, j);
        assert(s.drop_last().take(j) =~= s.take(j));
        assert(insert_desc(s, x) =~= s.take(j).push(x) + s.skip(j));
    }
}

/// Parse a query, score it, and hand back the matching paths, best first;
/// a query that does not tokenize yields no matches.
pub fn search(
    doc: &Value,
    cache: &mut PatternCache,
    deref_cache: &mut PatternCache,
    query: &str,
) -> (r: Vec<String>)
    ensures
        ({
            let p = parser::sp_parse(parser::spec_lex(query@)).0;
            let (row, c2, dc2) = algs::eval(
                p,
                algs::cache_model(*old(cache)),
                algs::cache_model(*old(deref_cache)),
                *doc,
            );
            r.deep_view() == row_keys(sort_rows(row)) && algs::cache_model(*final(cache)) == c2
                && algs::cache_model(*final(deref_cache)) == dc2
        }),
{
    let patterns = parser::parse_query(query);

    if let Ok(patterns) = patterns {
        let scored = algs::score(&patterns, cache, deref_cache, doc);
        let ghost row = scored@;
        let mut result: Vec<(String, i16)> = Vec::new();
        let n = scored.len();
        let mut i: usize = 0;
        proof {
            assert(pairs_model(result@) =~= sort_rows(row.take(0)));
        }
        while i < n
            invariant
                n == scored@.len(),
                row == scored@,
                i <= n,
                pairs_model(result@) == sort_rows(row.take(i as int)),
            decreases n - i,
        {
            proof {
                assert(row.take(i + 1).drop_last() =~= row.take(i as int));
                assert(row.take(i + 1).last() == row[i as int]);
            }
            let key = scored.key_at(i).clone();
            let val = *scored.value_at(i);
            let mut j = result.len();
            while j > 0 && result[j - 1].1 < val
                invariant
                    j <= result@.len(),
                    forall|k: int|
                        j <= k < result@.len() ==> (#[trigger] result@[k]).1 < val,
                decreases j,
            {
                j = j - 1;
            }
            let ghost before = pairs_model(result@);
            proof {
                assert(forall|k: int|
                    j <= k < before.len() ==> (#[trigger] before[k]).1 < val);
                if j > 0 {
                    assert(before[j - 1].1 == result@[j - 1].1);
                }
                lemma_insert_desc_at(before, (key@, val), j as int);
            }
            result.insert(j, (key, val));
            proof {
                assert(pairs_model(result@) =~= before.take(j as int).push((key@, val))
                    + before.skip(j as int));
            }
            i = i + 1;
        }
        proof {
            assert(row.take(n as int) =~= row);
        }
        let mut keys: Vec<String> = Vec::new();
        let m = result.len();
        let mut k: usize = 0;
        while k < m
            invariant
                m == result@.len(),
                k <= m,
                keys@.len() == k,
                keys.deep_view() == row_keys(pairs_model(result@)).take(k as int),
            decreases m - k,
        {
            let ghost prev = keys@;
            let ghost prev_dv = keys.deep_view();
            keys.push(result[k].0.clone());
            proof {
                assert forall|t: int| 0 <= t < keys@.len() implies #[trigger] keys.deep_view()[t]
                    == row_keys(pairs_model(result@)).take(k + 1)[t] by {
                    assert(keys.deep_view()[t] == keys@[t]@);
                    if t < k {
                        assert(keys@[t] == prev[t]);
                        assert(prev_dv[t] == prev[t]@);
                        assert(prev_dv[t] == row_keys(pairs_model(result@)).take(k as int)[t]);
                    }
                }
                assert(keys.deep_view() =~= row_keys(pairs_model(result@)).take(k + 1));
            }
            k = k + 1;
        }
        proof {
            assert(row_keys(pairs_model(result@)).take(m as int) =~= row_keys(
                pairs_model(result@),
            ));
        }
        keys
    } else {
        let keys: Vec<String> = Vec::new();
        keys
    }
}

} // verus!
