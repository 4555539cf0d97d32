//! The scoring engine: evaluates a parsed pattern against the path universe
//! (or, under a dereference, against the values the paths lead to) and
//! produces a score map per pattern, memoized per leaf kind.

pub mod fuzzy;

use vstd::prelude::*;

use vstd::string::StringSliceAdditionalSpecFns;

use crate::pointer;
use crate::search::cache;
use crate::search::parser::{pat_model, Operation, PatModel, Pattern};
use crate::search::PatternCache;
use crate::string_map::{seq_find, StringMap};
use crate::text;
use crate::value::Value;

verus! {

broadcast use vstd::std_specs::vec::group_vec_axioms, vstd::seq::group_seq_axioms;

/// A leaf scorer: how well a query matches one target string.
pub trait Algorithm {
    fn score(&self, target: &str, query: &str) -> i16;
}

/// One layer of the cache with each stored map abstracted to its entries.
pub open spec fn store_model(s: Seq<(Seq<char>, StringMap<i16>)>) -> Seq<
    (Seq<char>, Seq<(Seq<char>, i16)>),
> {
    Seq::new(s.len(), |i: int| (s[i].0, s[i].1@))
}

/// The whole state a scoring call reads and writes: the baseline universe
/// and the four layered stores.
pub struct CacheModel {
    pub core: Seq<(Seq<char>, i16)>,
    pub exact: Seq<(Seq<char>, Seq<(Seq<char>, i16)>)>,
    pub prefix: Seq<(Seq<char>, Seq<(Seq<char>, i16)>)>,
    pub suffix: Seq<(Seq<char>, Seq<(Seq<char>, i16)>)>,
    pub fuzzy: Seq<(Seq<char>, Seq<(Seq<char>, i16)>)>,
}

/// The model of a pattern cache.
pub open spec fn cache_model(c: PatternCache) -> CacheModel {
    CacheModel {
        core: c.core@,
        exact: store_model(c.exact.cache@),
        prefix: store_model(c.prefix.cache@),
        suffix: store_model(c.suffix.cache@),
        fuzzy: store_model(c.fuzzy.cache@),
    }
}

/// The score a row holds for a key; absent keys score zero.
pub open spec fn row_get(r: Seq<(Seq<char>, i16)>, k: Seq<char>) -> i16 {
    match seq_find(r, k) {
        Some(j) => r[j].1,
        None => 0,
    }
}

/// Storing a row under a pattern text: a present text keeps its place.
pub open spec fn store_set(
    s: Seq<(Seq<char>, Seq<(Seq<char>, i16)>)>,
    key: Seq<char>,
    row: Seq<(Seq<char>, i16)>,
) -> Seq<(Seq<char>, Seq<(Seq<char>, i16)>)> {
    match seq_find(s, key) {
        Some(j) => s.update(j, (s[j].0, row)),
        None => s.push((key, row)),
    }
}

/// The probe for a cheaper starting universe: for each shrink amount, first
/// the text with its last characters removed, then with its first characters
/// removed; the first hit wins, else the full baseline.
pub open spec fn probe(
    store: Seq<(Seq<char>, Seq<(Seq<char>, i16)>)>,
    core: Seq<(Seq<char>, i16)>,
    t: Seq<char>,
    idx: int,
) -> Seq<(Seq<char>, i16)>
    decreases t.len() - idx,
{
    if idx < 1 || idx >= t.len() {
        core
    } else {
        match seq_find(store, t.take(t.len() - idx)) {
            Some(j) => store[j].1,
            None => match seq_find(store, t.skip(idx)) {
                Some(j) => store[j].1,
                None => probe(store, core, t, idx + 1),
            },
        }
    }
}

/// The reduced universe a leaf is scored against.
pub open spec fn candidate(
    store: Seq<(Seq<char>, Seq<(Seq<char>, i16)>)>,
    core: Seq<(Seq<char>, i16)>,
    t: Seq<char>,
) -> Seq<(Seq<char>, i16)> {
    probe(store, core, t, 1)
}

/// The fixed score of a direct-match leaf: sixteen per byte of its text, in
/// the two's-complement arithmetic of the score type.
pub open spec fn leaf_const(t: Seq<char>) -> int {
    vstd::wrapping::i16_specs::signed_crop((vstd::utf8::encode_utf8(t).len() * 16) as int) as int
}

/// The scorer of an exact leaf against one string.
pub open spec fn scf_exact(t: Seq<char>) -> spec_fn(Seq<char>) -> int {
    |s: Seq<char>| if text::contains_seq(s, t) {
        leaf_const(t)
    } else {
        0
    }
}

/// The scorer of a prefix leaf against one string.
pub open spec fn scf_prefix(t: Seq<char>) -> spec_fn(Seq<char>) -> int {
    |s: Seq<char>| if text::starts_with_seq(s, t) {
        leaf_const(t)
    } else {
        0
    }
}

/// The scorer of a suffix leaf against one string.
pub open spec fn scf_suffix(t: Seq<char>) -> spec_fn(Seq<char>) -> int {
    |s: Seq<char>| if text::ends_with_seq(s, t) {
        leaf_const(t)
    } else {
        0
    }
}

/// The scorer of a fuzzy leaf against one string.
pub open spec fn scf_fuzzy(t: Seq<char>) -> spec_fn(Seq<char>) -> int {
    |s: Seq<char>| fuzzy::fuzzy_leaf(s, t)
}

/// Keep the keys a scorer accepts, in order, scored by it.
pub open spec fn filter_rows(rows: Seq<(Seq<char>, i16)>, f: spec_fn(Seq<char>) -> int) -> Seq<
    (Seq<char>, i16),
>
    decreases rows.len(),
{
    if rows.len() == 0 {
        Seq::empty()
    } else {
        let prev = filter_rows(rows.drop_last(), f);
        let k = rows.last().0;
        if f(k) > 0 {
            prev.push((k, f(k) as i16))
        } else {
            prev
        }
    }
}

/// Intersection with summed scores: a key stays when both sides score it
/// positively and the wrapped sum is positive.
pub open spec fn and_rows(l: Seq<(Seq<char>, i16)>, r: Seq<(Seq<char>, i16)>) -> Seq<
    (Seq<char>, i16),
>
    decreases l.len(),
{
    if l.len() == 0 {
        Seq::empty()
    } else {
        let prev = and_rows(l.drop_last(), r);
        let k = l.last().0;
        let lv = l.last().1;
        let rv = row_get(r, k);
        let sum = vstd::wrapping::i16_specs::wrapping_add(lv, rv);
        if lv > 0 && rv > 0 && sum > 0 {
            prev.push((k, sum))
        } else {
            prev
        }
    }
}

/// Union with per-key maximum: right-hand entries fold into the left map.
pub open spec fn or_rows(l: Seq<(Seq<char>, i16)>, r: Seq<(Seq<char>, i16)>) -> Seq<
    (Seq<char>, i16),
>
    decreases r.len(),
{
    if r.len() == 0 {
        l
    } else {
        let prev = or_rows(l, r.drop_last());
        let k = r.last().0;
        let rv = r.last().1;
        match seq_find(prev, k) {
            Some(j) => prev.update(
                j,
                (
                    prev[j].0,
                    if prev[j].1 >= rv {
                        prev[j].1
                    } else {
                        rv
                    },
                ),
            ),
            None => prev.push(
                (
                    k,
                    if 0 >= rv {
                        0
                    } else {
                        rv
                    },
                ),
            ),
        }
    }
}

/// The largest score in a row, and at least zero.
pub open spec fn rows_max(r: Seq<(Seq<char>, i16)>) -> i16
    decreases r.len(),
{
    if r.len() == 0 {
        0
    } else {
        let m = rows_max(r.drop_last());
        if r.last().1 > m {
            r.last().1
        } else {
            m
        }
    }
}

/// The complement: every universe key the scored row misses, all given the
/// largest score the scored row holds.
pub open spec fn negated_rows(core: Seq<(Seq<char>, i16)>, scored: Seq<(Seq<char>, i16)>) -> Seq<
    (Seq<char>, i16),
>
    decreases core.len(),
{
    if core.len() == 0 {
        Seq::empty()
    } else {
        let prev = negated_rows(core.drop_last(), scored);
        let k = core.last().0;
        if seq_find(scored, k) is None {
            prev.push((k, rows_max(scored)))
        } else {
            prev
        }
    }
}

/// The best a scorer does over the first `n` decimal indices.
pub open spec fn arr_max(n: int, f: spec_fn(Seq<char>) -> int) -> int
    decreases n,
{
    if n <= 0 {
        0
    } else {
        let m = arr_max(n - 1, f);
        if f(text::dec_digits(n - 1)) > m {
            f(text::dec_digits(n - 1))
        } else {
            m
        }
    }
}

/// The best a scorer does over an object's keys.
pub open spec fn keys_max(entries: Seq<(String, Value)>, f: spec_fn(Seq<char>) -> int) -> int
    decreases entries.len(),
{
    if entries.len() == 0 {
        0
    } else {
        let m = keys_max(entries.drop_last(), f);
        if f(entries.last().0@) > m {
            f(entries.last().0@)
        } else {
            m
        }
    }
}

/// How a scorer rates the value a node holds: strings by their content,
/// booleans and numbers by their rendering, containers by the best of their
/// immediate indices or keys, null not at all.
pub open spec fn node_score(node: Value, f: spec_fn(Seq<char>) -> int) -> int {
    match node {
        Value::String(s) => f(s@),
        Value::Bool(b) => f(text::bool_chars(b)),
        Value::Number(n) => f(text::dec_i64(n as int)),
        Value::Array(items) => arr_max(items@.len() as int, f),
        Value::Object(entries) => keys_max(entries@, f),
        Value::Null => 0,
    }
}

/// How a scorer rates the value a path leads to; a path that does not parse
/// or resolve contributes nothing.
pub open spec fn deref_score(doc: Value, key: Seq<char>, f: spec_fn(Seq<char>) -> int) -> int {
    match pointer::parse_pointer(key) {
        Some(toks) => match pointer::resolve(doc, toks) {
            Ok(node) => node_score(node, f),
            Err(_) => 0,
        },
        None => 0,
    }
}

/// The scorer a dereference applies to a path: its value's score.
pub open spec fn deref_scf(doc: Value, f: spec_fn(Seq<char>) -> int) -> spec_fn(Seq<char>) -> int {
    |k: Seq<char>| deref_score(doc, k, f)
}

/// One leaf evaluation against one layered store: a hit returns the stored
/// row; a miss scores the candidate universe and stores the result.
pub open spec fn eval_leaf(
    store: Seq<(Seq<char>, Seq<(Seq<char>, i16)>)>,
    core: Seq<(Seq<char>, i16)>,
    t: Seq<char>,
    f: spec_fn(Seq<char>) -> int,
) -> (Seq<(Seq<char>, i16)>, Seq<(Seq<char>, Seq<(Seq<char>, i16)>)>) {
    match seq_find(store, t) {
        Some(j) => (store[j].1, store),
        None => {
            let row = filter_rows(candidate(store, core, t), f);
            (row, store_set(store, t, row))
        },
    }
}

/// Evaluation in path mode: scores are over the path strings themselves, and
/// a dereference switches to value mode with its own cache.
pub open spec fn eval(p: PatModel, c: CacheModel, dc: CacheModel, doc: Value) -> (
    Seq<(Seq<char>, i16)>,
    CacheModel,
    CacheModel,
)
    decreases p,
{
    match p {
        PatModel::Group { op, left, right } => {
            let (lrow, c1, dc1) = eval(*left, c, dc, doc);
            let (rrow, c2, dc2) = eval(*right, c1, dc1, doc);
            (
                if op is And {
                    and_rows(lrow, rrow)
                } else {
                    or_rows(lrow, rrow)
                },
                c2,
                dc2,
            )
        },
        PatModel::Negated(inner) => {
            let (m, c1, dc1) = eval(*inner, c, dc, doc);
            (negated_rows(c1.core, m), c1, dc1)
        },
        PatModel::Exact(t) => {
            let (row, st) = eval_leaf(c.exact, c.core, t, scf_exact(t));
            (
                row,
                CacheModel { exact: st, core: c.core, prefix: c.prefix, suffix: c.suffix, fuzzy: c.fuzzy },
                dc,
            )
        },
        PatModel::Prefix(t) => {
            let (row, st) = eval_leaf(c.prefix, c.core, t, scf_prefix(t));
            (
                row,
                CacheModel { prefix: st, core: c.core, exact: c.exact, suffix: c.suffix, fuzzy: c.fuzzy },
                dc,
            )
        },
        PatModel::Suffix(t) => {
            let (row, st) = eval_leaf(c.suffix, c.core, t, scf_suffix(t));
            (
                row,
                CacheModel { suffix: st, core: c.core, exact: c.exact, prefix: c.prefix, fuzzy: c.fuzzy },
                dc,
            )
        },
        PatModel::Fuzzy(t) => {
            let (row, st) = eval_leaf(c.fuzzy, c.core, t, scf_fuzzy(t));
            (
                row,
                CacheModel { fuzzy: st, core: c.core, exact: c.exact, prefix: c.prefix, suffix: c.suffix },
                dc,
            )
        },
        PatModel::Deref(inner) => {
            let (row, dc1) = eval_deref(*inner, dc, doc);
            (row, c, dc1)
        },
    }
}

/// Evaluation in dereference mode: the same combinators, but each leaf is
/// scored against the value at each path, and a nested dereference matches
/// nothing.
pub open spec fn eval_deref(p: PatModel, dc: CacheModel, doc: Value) -> (
    Seq<(Seq<char>, i16)>,
    CacheModel,
)
    decreases p,
{
    match p {
        PatModel::Group { op, left, right } => {
            let (lrow, dc1) = eval_deref(*left, dc, doc);
            let (rrow, dc2) = eval_deref(*right, dc1, doc);
            (
                if op is And {
                    and_rows(lrow, rrow)
                } else {
                    or_rows(lrow, rrow)
                },
                dc2,
            )
        },
        PatModel::Negated(inner) => {
            let (m, dc1) = eval_deref(*inner, dc, doc);
            (negated_rows(dc1.core, m), dc1)
        },
        PatModel::Exact(t) => {
            let (row, st) = eval_leaf(dc.exact, dc.core, t, deref_scf(doc, scf_exact(t)));
            (
                row,
                CacheModel {
                    exact: st,
                    core: dc.core,
                    prefix: dc.prefix,
                    suffix: dc.suffix,
                    fuzzy: dc.fuzzy,
                },
            )
        },
        PatModel::Prefix(t) => {
            let (row, st) = eval_leaf(dc.prefix, dc.core, t, deref_scf(doc, scf_prefix(t)));
            (
                row,
                CacheModel {
                    prefix: st,
                    core: dc.core,
                    exact: dc.exact,
                    suffix: dc.suffix,
                    fuzzy: dc.fuzzy,
                },
            )
        },
        PatModel::Suffix(t) => {
            let (row, st) = eval_leaf(dc.suffix, dc.core, t, deref_scf(doc, scf_suffix(t)));
            (
                row,
                CacheModel {
                    suffix: st,
                    core: dc.core,
                    exact: dc.exact,
                    prefix: dc.prefix,
                    fuzzy: dc.fuzzy,
                },
            )
        },
        PatModel::Fuzzy(t) => {
            let (row, st) = eval_leaf(dc.fuzzy, dc.core, t, deref_scf(doc, scf_fuzzy(t)));
            (
                row,
                CacheModel {
                    fuzzy: st,
                    core: dc.core,
                    exact: dc.exact,
                    prefix: dc.prefix,
                    suffix: dc.suffix,
                },
            )
        },
        PatModel::Deref(_) => (Seq::empty(), dc),
    }
}

/// Which leaf kind is being scored.
#[derive(Clone, Copy)]
enum LeafKind {
    Exact,
    Prefix,
    Suffix,
    Fuzzy,
}

/// The scorer a leaf kind applies to one string.
spec fn kind_scf(kind: LeafKind, t: Seq<char>) -> spec_fn(Seq<char>) -> int {
    match kind {
        LeafKind::Exact => scf_exact(t),
        LeafKind::Prefix => scf_prefix(t),
        LeafKind::Suffix => scf_suffix(t),
        LeafKind::Fuzzy => scf_fuzzy(t),
    }
}

/// Finding a key ignores what the stored maps hold.
proof fn lemma_seq_find_model(s: Seq<(Seq<char>, StringMap<i16>)>, k: Seq<char>)
    ensures
        seq_find(store_model(s), k) == seq_find(s, k),
    decreases s.len(),
{
    if s.len() > 0 {
        lemma_seq_find_model(s.drop_first(), k);
        assert(store_model(s).drop_first() =~= store_model(s.drop_first()));
        assert(store_model(s)[0].0 == s[0].0);
    }
}

/// A key absent from a row is absent from any filtering of it.
proof fn lemma_filter_rows_absent(
    rows: Seq<(Seq<char>, i16)>,
    f: spec_fn(Seq<char>) -> int,
    k: Seq<char>,
)
    requires
        forall|j: int| 0 <= j < rows.len() ==> (#[trigger] rows[j]).0 != k,
    ensures
        seq_find(filter_rows(rows, f), k) is None,
    decreases rows.len(),
{
    crate::string_map::lemma_seq_find(filter_rows(rows, f), k);
    if rows.len() > 0 {
        lemma_filter_rows_absent(rows.drop_last(), f, k);
        crate::string_map::lemma_seq_find(filter_rows(rows.drop_last(), f), k);
    }
}

/// A key absent from the left side is absent from an intersection.
proof fn lemma_and_rows_absent(l: Seq<(Seq<char>, i16)>, r: Seq<(Seq<char>, i16)>, k: Seq<char>)
    requires
        forall|j: int| 0 <= j < l.len() ==> (#[trigger] l[j]).0 != k,
    ensures
        seq_find(and_rows(l, r), k) is None,
    decreases l.len(),
{
    crate::string_map::lemma_seq_find(and_rows(l, r), k);
    if l.len() > 0 {
        lemma_and_rows_absent(l.drop_last(), r, k);
        crate::string_map::lemma_seq_find(and_rows(l.drop_last(), r), k);
    }
}

/// A key absent from the universe is absent from a negation over it.
proof fn lemma_negated_rows_absent(
    core: Seq<(Seq<char>, i16)>,
    scored: Seq<(Seq<char>, i16)>,
    k: Seq<char>,
)
    requires
        forall|j: int| 0 <= j < core.len() ==> (#[trigger] core[j]).0 != k,
    ensures
        seq_find(negated_rows(core, scored), k) is None,
    decreases core.len(),
{
    crate::string_map::lemma_seq_find(negated_rows(core, scored), k);
    if core.len() > 0 {
        lemma_negated_rows_absent(core.drop_last(), scored, k);
        crate::string_map::lemma_seq_find(negated_rows(core.drop_last(), scored), k);
    }
}

/// The fixed score of a direct-match leaf, computed as the score type wraps.
fn leaf_const_exec(text: &str) -> (r: i16)
    ensures
        r as int == leaf_const(text@),
{
    let b = text.as_bytes().len();
    proof {
        assert(text.spec_bytes() == vstd::utf8::encode_utf8(text@));
    }
    let low = b % 4096;
    let v = low * 16;
    proof {
        assert(v == (b * 16) % 65536) by (nonlinear_arith)
            requires
                low == b % 4096,
                v == low * 16,
                b >= 0,
        ;
    }
    if v >= 32768 {
        ((v as i32) - 65536) as i16
    } else {
        v as i16
    }
}

/// One leaf kind scored against one target string.
fn leaf_score_one(kind: LeafKind, key: &str, text: &str) -> (r: i16)
    ensures
        r as int == kind_scf(kind, text@)(key@),
{
    match kind {
        LeafKind::Exact => {
            let c = leaf_const_exec(text);
            if text::str_contains(key, text) {
                c
            } else {
                0
            }
        },
        LeafKind::Prefix => {
            let c = leaf_const_exec(text);
            if text::str_starts_with(key, text) {
                c
            } else {
                0
            }
        },
        LeafKind::Suffix => {
            let c = leaf_const_exec(text);
            if text::str_ends_with(key, text) {
                c
            } else {
                0
            }
        },
        LeafKind::Fuzzy => {
            let alg = fuzzy::Fuzzy::default();
            alg.score(key, text)
        },
    }
}

/// One leaf kind scored against the value a path leads to.
fn deref_score_one(doc: &Value, key: &str, text: &str, kind: LeafKind) -> (r: i16)
    ensures
        r as int == deref_score(*doc, key@, kind_scf(kind, text@)),
{
    let ghost f = kind_scf(kind, text@);
    let pointer = match crate::pointer::ValuePointer::parse(key) {
        Ok(p) => p,
        Err(_) => {
            return 0;
        },
    };
    let node = match pointer.get(doc) {
        Ok(n) => n,
        Err(_) => {
            return 0;
        },
    };
    match node {
        Value::String(s) => leaf_score_one(kind, s.as_str(), text),
        Value::Bool(b) => {
            let rendered = text::bool_to_string(*b);
            leaf_score_one(kind, rendered.as_str(), text)
        },
        Value::Number(n) => {
            let rendered = text::i64_to_string(*n);
            leaf_score_one(kind, rendered.as_str(), text)
        },
        Value::Array(items) => {
            let len = items.len();
            let mut best: i16 = 0;
            let mut i: usize = 0;
            while i < len
                invariant
                    i <= len,
                    best as int == arr_max(i as int, f),
                    forall|s: Seq<char>| #[trigger] f(s) == kind_scf(kind, text@)(s),
                decreases len - i,
            {
                let rendered = text::usize_to_string(i);
                let sc = leaf_score_one(kind, rendered.as_str(), text);
                if sc > best {
                    best = sc;
                }
                i = i + 1;
            }
            best
        },
        Value::Object(entries) => {
            let len = entries.len();
            let mut best: i16 = 0;
            let mut i: usize = 0;
            while i < len
                invariant
                    len == entries@.len(),
                    i <= len,
                    best as int == keys_max(entries@.take(i as int), f),
                    forall|s: Seq<char>| #[trigger] f(s) == kind_scf(kind, text@)(s),
                decreases len - i,
            {
                proof {
                    assert(entries@.take(i + 1).drop_last() =~= entries@.take(i as int));
                    assert(entries@.take(i + 1).last() == entries@[i as int]);
                }
                let sc = leaf_score_one(kind, entries[i].0.as_str(), text);
                if sc > best {
                    best = sc;
                }
                i = i + 1;
            }
            proof {
                assert(entries@.take(len as int) =~= entries@);
            }
            best
        },
        Value::Null => 0,
    }
}

/// The cached row the probe picks: the first hit among the shrinking texts,
/// else the baseline.
fn pick_candidate<'a>(
    store: &'a cache::SimpleStore<StringMap<i16>>,
    core: &'a StringMap<i16>,
    text: &str,
) -> (r: &'a StringMap<i16>)
    ensures
        r@ == candidate(store_model(store.cache@), core@, text@),
{
    let tv = text::chars_vec(text);
    let n = tv.len();
    let mut idx: usize = 1;
    while idx < n
        invariant
            n == text@.len(),
            1 <= idx,
            candidate(store_model(store.cache@), core@, text@) == probe(
                store_model(store.cache@),
                core@,
                text@,
                idx as int,
            ),
        decreases n - idx,
    {
        let pre = text.substring_char(0, n - idx);
        proof {
            assert(pre@ =~= text@.take(n - idx));
            lemma_seq_find_model(store.cache@, pre@);
        }
        match store.get(pre) {
            Some(row) => {
                proof {
                    crate::string_map::lemma_seq_find(store.cache@, pre@);
                    let j = seq_find(store.cache@, pre@)->Some_0;
                    assert(seq_find(store_model(store.cache@), pre@) == Some(j));
                    assert(store_model(store.cache@)[j].1 == store.cache@[j].1@);
                    assert(text@.take(text@.len() - idx) == pre@);
                    assert(probe(store_model(store.cache@), core@, text@, idx as int)
                        == store_model(store.cache@)[j].1);
                }
                return row;
            },
            None => {},
        }
        let suf = text.substring_char(idx, n);
        proof {
            assert(suf@ =~= text@.skip(idx as int));
            lemma_seq_find_model(store.cache@, suf@);
        }
        match store.get(suf) {
            Some(row) => {
                proof {
                    crate::string_map::lemma_seq_find(store.cache@, suf@);
                    let j = seq_find(store.cache@, suf@)->Some_0;
                    assert(seq_find(store_model(store.cache@), suf@) == Some(j));
                    assert(store_model(store.cache@)[j].1 == store.cache@[j].1@);
                    assert(text@.skip(idx as int) == suf@);
                    assert(probe(store_model(store.cache@), core@, text@, idx as int)
                        == store_model(store.cache@)[j].1);
                }
                return row;
            },
            None => {},
        }
        idx = idx + 1;
    }
    core
}

/// Evaluate one leaf against one layered store: return the memoized row or
/// score the candidate universe and memoize the result.
fn leaf_eval(
    store: &mut cache::SimpleStore<StringMap<i16>>,
    core: &StringMap<i16>,
    text: &String,
    kind: LeafKind,
    doc_opt: Option<&Value>,
) -> (r: StringMap<i16>)
    ensures
        final(store).capacity == old(store).capacity,
        ({
            let f = match doc_opt {
                Some(doc) => deref_scf(*doc, kind_scf(kind, text@)),
                None => kind_scf(kind, text@),
            };
            let (row, st) = eval_leaf(store_model(old(store).cache@), core@, text@, f);
            r@ == row && store_model(final(store).cache@) == st
        }),
{
    let ghost f = match doc_opt {
        Some(doc) => deref_scf(*doc, kind_scf(kind, text@)),
        None => kind_scf(kind, text@),
    };
    proof {
        lemma_seq_find_model(store.cache@, text@);
    }
    let hit = match store.get(text.as_str()) {
        Some(existing) => Some(existing.duplicate()),
        None => None,
    };
    match hit {
        Some(row) => {
            proof {
                crate::string_map::lemma_seq_find(store.cache@, text@);
                let j = seq_find(store.cache@, text@)->Some_0;
                assert(store_model(store.cache@)[j].1 == store.cache@[j].1@);
            }
            return row;
        },
        None => {},
    }
    let cand = pick_candidate(&*store, core, text.as_str());
    proof {
        use_type_invariant(cand);
    }
    let mut result = StringMap::<i16>::new();
    let n = cand.len();
    let mut i: usize = 0;
    proof {
        assert(result@ =~= filter_rows(cand@.take(0), f));
    }
    while i < n
        invariant
            n == cand@.len(),
            i <= n,
            crate::string_map::keys_unique(cand@),
            result@ == filter_rows(cand@.take(i as int), f),
            f == (match doc_opt {
                Some(doc) => deref_scf(*doc, kind_scf(kind, text@)),
                None => kind_scf(kind, text@),
            }),
        decreases n - i,
    {
        proof {
            assert(cand@.take(i + 1).drop_last() =~= cand@.take(i as int));
            assert(cand@.take(i + 1).last() == cand@[i as int]);
        }
        let key = cand.key_at(i);
        let sc = match doc_opt {
            None => leaf_score_one(kind, key.as_str(), text.as_str()),
            Some(doc) => deref_score_one(doc, key.as_str(), text.as_str(), kind),
        };
        if sc > 0 {
            proof {
                assert(forall|j: int|
                    0 <= j < i ==> (#[trigger] cand@.take(i as int)[j]).0 != key@);
                lemma_filter_rows_absent(cand@.take(i as int), f, key@);
            }
            result.append(key.clone(), sc);
        }
        i = i + 1;
    }
    proof {
        assert(cand@.take(n as int) =~= cand@);
    }
    let ghost old_cache = store.cache@;
    let stored = result.duplicate();
    store.set(text.as_str(), stored);
    proof {
        crate::string_map::lemma_seq_find(old_cache, text@);
        assert(store_model(store.cache@) =~= store_model(old_cache).push((text@, result@)));
    }
    result
}

/// Intersect two score maps, summing the scores of shared keys.
fn and_exec(l: &StringMap<i16>, r: &StringMap<i16>) -> (res: StringMap<i16>)
    ensures
        res@ == and_rows(l@, r@),
{
    proof {
        use_type_invariant(l);
    }
    let mut result = StringMap::<i16>::new();
    let n = l.len();
    let mut i: usize = 0;
    proof {
        assert(result@ =~= and_rows(l@.take(0), r@));
    }
    while i < n
        invariant
            n == l@.len(),
            i <= n,
            crate::string_map::keys_unique(l@),
            result@ == and_rows(l@.take(i as int), r@),
        decreases n - i,
    {
        proof {
            assert(l@.take(i + 1).drop_last() =~= l@.take(i as int));
            assert(l@.take(i + 1).last() == l@[i as int]);
        }
        let key = l.key_at(i);
        let lv = *l.value_at(i);
        let rv = match r.get(key.as_str()) {
            Some(v) => *v,
            None => 0,
        };
        let sum = lv.wrapping_add(rv);
        if lv > 0 && rv > 0 && sum > 0 {
            proof {
                assert(forall|j: int|
                    0 <= j < i ==> (#[trigger] l@.take(i as int)[j]).0 != key@);
                lemma_and_rows_absent(l@.take(i as int), r@, key@);
            }
            result.append(key.clone(), sum);
        }
        i = i + 1;
    }
    proof {
        assert(l@.take(n as int) =~= l@);
    }
    result
}

/// Fold the right map into the left one, keeping each key's larger score.
fn or_exec(l: StringMap<i16>, r: &StringMap<i16>) -> (res: StringMap<i16>)
    ensures
        res@ == or_rows(l@, r@),
{
    let ghost l0 = l@;
    let mut result = l;
    let n = r.len();
    let mut i: usize = 0;
    proof {
        assert(or_rows(l0, r@.take(0)) == l0) by {
            assert(r@.take(0).len() == 0);
        }
    }
    while i < n
        invariant
            n == r@.len(),
            i <= n,
            result@ == or_rows(l0, r@.take(i as int)),
        decreases n - i,
    {
        proof {
            assert(r@.take(i + 1).drop_last() =~= r@.take(i as int));
            assert(r@.take(i + 1).last() == r@[i as int]);
        }
        let key = r.key_at(i);
        let rv = *r.value_at(i);
        let cur = match result.get(key.as_str()) {
            Some(v) => *v,
            None => 0,
        };
        let nv = if cur >= rv {
            cur
        } else {
            rv
        };
        result.insert(key.clone(), nv);
        i = i + 1;
    }
    proof {
        assert(r@.take(n as int) =~= r@);
    }
    result
}

/// The largest score a map holds, at least zero.
fn max_score_exec(scored: &StringMap<i16>) -> (m: i16)
    ensures
        m == rows_max(scored@),
{
    let n = scored.len();
    let mut best: i16 = 0;
    let mut i: usize = 0;
    while i < n
        invariant
            n == scored@.len(),
            i <= n,
            best == rows_max(scored@.take(i as int)),
        decreases n - i,
    {
        proof {
            assert(scored@.take(i + 1).drop_last() =~= scored@.take(i as int));
            assert(scored@.take(i + 1).last() == scored@[i as int]);
        }
        let v = *scored.value_at(i);
        if v > best {
            best = v;
        }
        i = i + 1;
    }
    proof {
        assert(scored@.take(n as int) =~= scored@);
    }
    best
}

/// The universe keys the scored map misses, all at its maximum score.
fn negated_exec(core: &StringMap<i16>, scored: &StringMap<i16>) -> (res: StringMap<i16>)
    ensures
        res@ == negated_rows(core@, scored@),
{
    proof {
        use_type_invariant(core);
    }
    let max_score = max_score_exec(scored);
    let mut result = StringMap::<i16>::new();
    let n = core.len();
    let mut i: usize = 0;
    proof {
        assert(result@ =~= negated_rows(core@.take(0), scored@));
    }
    while i < n
        invariant
            n == core@.len(),
            i <= n,
            max_score == rows_max(scored@),
            crate::string_map::keys_unique(core@),
            result@ == negated_rows(core@.take(i as int), scored@),
        decreases n - i,
    {
        proof {
            assert(core@.take(i + 1).drop_last() =~= core@.take(i as int));
            assert(core@.take(i + 1).last() == core@[i as int]);
        }
        let key = core.key_at(i);
        if !scored.contains_key(key.as_str()) {
            proof {
                assert(forall|j: int|
                    0 <= j < i ==> (#[trigger] core@.take(i as int)[j]).0 != key@);
                lemma_negated_rows_absent(core@.take(i as int), scored@, key@);
            }
            result.append(key.clone(), max_score);
        }
        i = i + 1;
    }
    proof {
        assert(core@.take(n as int) =~= core@);
    }
    result
}

/// Evaluate a pattern in dereference mode: leaves are scored against the
/// values the paths lead to, with the dereference cache; a nested
/// dereference matches nothing.
fn score_deref(pattern: &Pattern, deref_cache: &mut PatternCache, doc: &Value) -> (r: StringMap<
    i16,
>)
    ensures
        ({
            let (row, dc2) = eval_deref(pat_model(*pattern), cache_model(*old(deref_cache)), *doc);
            r@ == row && cache_model(*final(deref_cache)) == dc2
        }),
    decreases *pattern,
{
    match pattern {
        Pattern::Group { op, left, right } => {
            let left_score = score_deref(left, deref_cache, doc);
            let right_score = score_deref(right, deref_cache, doc);
            match op {
                Operation::And => and_exec(&left_score, &right_score),
                Operation::Or => or_exec(left_score, &right_score),
            }
        },
        Pattern::Negated(inner) => {
            let scored = score_deref(inner, deref_cache, doc);
            negated_exec(&deref_cache.core, &scored)
        },
        Pattern::Exact(text) => {
            let row = leaf_eval(
                &mut deref_cache.exact,
                &deref_cache.core,
                text,
                LeafKind::Exact,
                Some(doc),
            );
            row
        },
        Pattern::Prefix(text) => {
            let row = leaf_eval(
                &mut deref_cache.prefix,
                &deref_cache.core,
                text,
                LeafKind::Prefix,
                Some(doc),
            );
            row
        },
        Pattern::Suffix(text) => {
            let row = leaf_eval(
                &mut deref_cache.suffix,
                &deref_cache.core,
                text,
                LeafKind::Suffix,
                Some(doc),
            );
            row
        },
        Pattern::Fuzzy(text) => {
            let row = leaf_eval(
                &mut deref_cache.fuzzy,
                &deref_cache.core,
                text,
                LeafKind::Fuzzy,
                Some(doc),
            );
            row
        },
        Pattern::Deref(_) => {
            let r = StringMap::<i16>::new();
            proof {
                assert(r@ =~= Seq::<(Seq<char>, i16)>::empty());
            }
            r
        },
    }
}

/// Evaluate a pattern against the path universe: combinators combine their
/// operands' score maps, leaves are memoized per kind, and a dereference
/// switches to value mode with its own cache.
pub fn score(
    pattern: &Pattern,
    cache: &mut PatternCache,
    deref_cache: &mut PatternCache,
    doc: &Value,
) -> (r: StringMap<i16>)
    ensures
        ({
            let (row, c2, dc2) = eval(
                pat_model(*pattern),
                cache_model(*old(cache)),
                cache_model(*old(deref_cache)),
                *doc,
            );
            r@ == row && cache_model(*final(cache)) == c2 && cache_model(*final(deref_cache))
                == dc2
        }),
    decreases *pattern,
{
    match pattern {
        Pattern::Group { op, left, right } => {
            let left_score = score(left, cache, deref_cache, doc);
            let right_score = score(right, cache, deref_cache, doc);
            match op {
                Operation::And => and_exec(&left_score, &right_score),
                Operation::Or => or_exec(left_score, &right_score),
            }
        },
        Pattern::Negated(inner) => {
            let scored = score(inner, cache, deref_cache, doc);
            negated_exec(&cache.core, &scored)
        },
        Pattern::Exact(text) => {
            let row = leaf_eval(&mut cache.exact, &cache.core, text, LeafKind::Exact, None);
            row
        },
        Pattern::Prefix(text) => {
            let row = leaf_eval(&mut cache.prefix, &cache.core, text, LeafKind::Prefix, None);
            row
        },
        Pattern::Suffix(text) => {
            let row = leaf_eval(&mut cache.suffix, &cache.core, text, LeafKind::Suffix, None);
            row
        },
        Pattern::Fuzzy(text) => {
            let row = leaf_eval(&mut cache.fuzzy, &cache.core, text, LeafKind::Fuzzy, None);
            row
        },
        Pattern::Deref(inner) => score_deref(inner, deref_cache, doc),
    }
}

/// AND monotonicity: in a uniquely-keyed left map, a key in the
/// intersection is in both operands with a positive score, and carries
/// their wrapped sum.
pub proof fn lemma_and_rows_member(l: Seq<(Seq<char>, i16)>, r: Seq<(Seq<char>, i16)>, k: Seq<char>)
    requires
        crate::string_map::keys_unique(l),
    ensures
        match seq_find(and_rows(l, r), k) {
            Some(j) => {
                &&& seq_find(l, k) is Some
                &&& l[seq_find(l, k)->Some_0].1 > 0
                &&& row_get(r, k) > 0
                &&& and_rows(l, r)[j].1 == vstd::wrapping::i16_specs::wrapping_add(
                    l[seq_find(l, k)->Some_0].1,
                    row_get(r, k),
                )
                &&& l[seq_find(l, k)->Some_0].1 + row_get(r, k) <= i16::MAX ==> and_rows(l, r)[
                    j].1 == l[seq_find(l, k)->Some_0].1 + row_get(r, k)
            },
            None => !(seq_find(l, k) is Some && l[seq_find(l, k)->Some_0].1 > 0 && row_get(r, k)
                > 0 && vstd::wrapping::i16_specs::wrapping_add(
                l[seq_find(l, k)->Some_0].1,
                row_get(r, k),
            ) > 0),
        },
    decreases l.len(),
{
    crate::string_map::lemma_seq_find(l, k);
    if l.len() > 0 {
        assert(forall|x: int| 0 <= x < l.len() - 1 ==> l.drop_last()[x] == #[trigger] l[x]);
        assert(crate::string_map::keys_unique(l.drop_last()));
        lemma_and_rows_member(l.drop_last(), r, k);
        let prev = and_rows(l.drop_last(), r);
        crate::string_map::lemma_seq_find(prev, k);
        crate::string_map::lemma_seq_find(l.drop_last(), k);
        let kl = l.last().0;
        let lv = l.last().1;
        let rv = row_get(r, kl);
        let sum = vstd::wrapping::i16_specs::wrapping_add(lv, rv);
        if lv > 0 && rv > 0 && sum > 0 {
            crate::string_map::lemma_seq_find_push(prev, kl, sum, k);
            if k == kl {
                assert(seq_find(l.drop_last(), k) is None) by {
                    crate::string_map::lemma_seq_find(l.drop_last(), k);
                    if seq_find(l.drop_last(), k) is Some {
                        let j = seq_find(l.drop_last(), k)->Some_0;
                        assert(l[j].0 == k);
                        assert(l[l.len() - 1].0 == k);
                    }
                }
                assert(seq_find(prev, k) is None);
                assert(seq_find(l, k) == Some(l.len() - 1)) by {
                    crate::string_map::lemma_seq_find(l, k);
                    if seq_find(l, k)->Some_0 < l.len() - 1 {
                        assert(l[seq_find(l, k)->Some_0].0 == k);
                    }
                }
            } else {
                assert(seq_find(l, k) == seq_find(l.drop_last(), k)) by {
                    crate::string_map::lemma_seq_find(l, k);
                    if seq_find(l, k) is Some {
                        let j = seq_find(l, k)->Some_0;
                        assert(l[j].0 == k);
                        assert(j < l.len() - 1);
                    } else {
                        if seq_find(l.drop_last(), k) is Some {
                            let j = seq_find(l.drop_last(), k)->Some_0;
                            assert(l[j].0 == k);
                        }
                    }
                }
            }
        } else {
            if k == kl {
                assert(seq_find(l, k) == Some(l.len() - 1) || seq_find(l, k) is Some) by {
                    crate::string_map::lemma_seq_find(l, k);
                    assert(l[l.len() - 1].0 == k);
                }
                assert(seq_find(l, k) is Some);
                let j = seq_find(l, k)->Some_0;
                assert(l[j].0 == k);
                assert(j == l.len() - 1) by {
                    if j < l.len() - 1 {
                        assert(l[j].0 == l[l.len() - 1].0);
                    }
                }
                assert(seq_find(prev, k) is None) by {
                    lemma_and_rows_absent_keys(l.drop_last(), r, k);
                }
            } else {
                assert(seq_find(l, k) == seq_find(l.drop_last(), k)) by {
                    crate::string_map::lemma_seq_find(l, k);
                    if seq_find(l, k) is Some {
                        let j = seq_find(l, k)->Some_0;
                        assert(l[j].0 == k);
                        assert(j < l.len() - 1);
                    } else {
                        if seq_find(l.drop_last(), k) is Some {
                            let j = seq_find(l.drop_last(), k)->Some_0;
                            assert(l[j].0 == k);
                        }
                    }
                }
            }
        }
    }
}

/// A key absent from the left rows never enters an intersection.
proof fn lemma_and_rows_absent_keys(
    l: Seq<(Seq<char>, i16)>,
    r: Seq<(Seq<char>, i16)>,
    k: Seq<char>,
)
    requires
        forall|x: int| 0 <= x < l.len() ==> (#[trigger] l[x]).0 != k,
    ensures
        seq_find(and_rows(l, r), k) is None,
    decreases l.len(),
{
    crate::string_map::lemma_seq_find(and_rows(l, r), k);
    if l.len() > 0 {
        assert(forall|x: int| 0 <= x < l.len() - 1 ==> l.drop_last()[x] == #[trigger] l[x]);
        lemma_and_rows_absent_keys(l.drop_last(), r, k);
        crate::string_map::lemma_seq_find(and_rows(l.drop_last(), r), k);
        let prev = and_rows(l.drop_last(), r);
        let kl = l.last().0;
        let lv = l.last().1;
        let rv = row_get(r, kl);
        let sum = vstd::wrapping::i16_specs::wrapping_add(lv, rv);
        if lv > 0 && rv > 0 && sum > 0 {
            crate::string_map::lemma_seq_find_push(prev, kl, sum, k);
        }
    }
}

/// OR correctness: the union's key set is the union of the key sets, and
/// each key carries the larger of its two scores, absence counting as zero.
pub proof fn lemma_or_rows_member(l: Seq<(Seq<char>, i16)>, r: Seq<(Seq<char>, i16)>, k: Seq<char>)
    requires
        forall|x: int| 0 <= x < l.len() ==> (#[trigger] l[x]).1 >= 0,
        crate::string_map::keys_unique(r),
    ensures
        seq_find(or_rows(l, r), k) is Some <==> (seq_find(l, k) is Some || seq_find(r, k)
            is Some),
        seq_find(or_rows(l, r), k) matches Some(j) ==> or_rows(l, r)[j].1 == (
        if row_get(l, k) >= row_get(r, k) {
            row_get(l, k)
        } else {
            row_get(r, k)
        }),
    decreases r.len(),
{
    crate::string_map::lemma_seq_find(l, k);
    crate::string_map::lemma_seq_find(r, k);
    if r.len() == 0 {
        crate::string_map::lemma_seq_find(or_rows(l, r), k);
        if seq_find(l, k) is Some {
            let j = seq_find(l, k)->Some_0;
            assert(l[j].0 == k);
            assert(l[j].1 >= 0);
        }
    } else {
        assert(forall|x: int| 0 <= x < r.len() - 1 ==> r.drop_last()[x] == #[trigger] r[x]);
        assert(crate::string_map::keys_unique(r.drop_last()));
        lemma_or_rows_member(l, r.drop_last(), k);
        let prev = or_rows(l, r.drop_last());
        crate::string_map::lemma_seq_find(prev, k);
        crate::string_map::lemma_seq_find(r.drop_last(), k);
        let kr = r.last().0;
        let rv = r.last().1;
        lemma_or_rows_member(l, r.drop_last(), kr);
        crate::string_map::lemma_seq_find(prev, kr);
        if k == kr {
            assert(seq_find(r.drop_last(), k) is None) by {
                if seq_find(r.drop_last(), k) is Some {
                    let j = seq_find(r.drop_last(), k)->Some_0;
                    assert(r[j].0 == k);
                    assert(r[r.len() - 1].0 == k);
                }
            }
            assert(row_get(r.drop_last(), k) == 0);
            assert(seq_find(r, k) is Some && row_get(r, k) == rv) by {
                assert(r[r.len() - 1].0 == k);
                let j = seq_find(r, k)->Some_0;
                assert(r[j].0 == k);
                if j < r.len() - 1 {
                    assert(r[j].0 == r[r.len() - 1].0);
                }
            }
        } else {
            assert(row_get(r.drop_last(), k) == row_get(r, k) && seq_find(r, k) is Some
                <==> seq_find(r.drop_last(), k) is Some) by {
                if seq_find(r, k) is Some {
                    let j = seq_find(r, k)->Some_0;
                    assert(r[j].0 == k);
                    assert(j < r.len() - 1);
                } else {
                    if seq_find(r.drop_last(), k) is Some {
                        let j = seq_find(r.drop_last(), k)->Some_0;
                        assert(r[j].0 == k);
                    }
                }
            }
        }
        match seq_find(prev, kr) {
            Some(j) => {
                let nv = if prev[j].1 >= rv {
                    prev[j].1
                } else {
                    rv
                };
                crate::string_map::lemma_seq_find_update(prev, j, nv, k);
                assert(or_rows(l, r) == prev.update(j, (prev[j].0, nv)));
                if k == kr {
                    assert(seq_find(or_rows(l, r), k) == Some(j));
                    assert(or_rows(l, r)[j].1 == nv);
                    assert(prev[j].1 == (if row_get(l, k) >= 0 {
                        row_get(l, k)
                    } else {
                        0
                    }));
                } else {
                    if seq_find(prev, k) is Some {
                        let jj = seq_find(prev, k)->Some_0;
                        assert(jj != j) by {
                            assert(prev[j].0 == kr);
                            assert(prev[jj].0 == k);
                        }
                        assert(or_rows(l, r)[jj] == prev[jj]);
                    }
                }
            },
            None => {
                let nv = if 0 >= rv {
                    0
                } else {
                    rv
                };
                crate::string_map::lemma_seq_find_push(prev, kr, nv, k);
                if k == kr {
                    assert(seq_find(l, k) is None);
                    assert(row_get(l, k) == 0);
                    assert(or_rows(l, r)[prev.len() as int].1 == nv);
                }
            },
        }
    }
}

/// Negation completeness: the negated key set is exactly the universe less
/// the scored keys, each carrying the scored map's maximum.
pub proof fn lemma_negated_rows_member(
    core: Seq<(Seq<char>, i16)>,
    scored: Seq<(Seq<char>, i16)>,
    k: Seq<char>,
)
    ensures
        seq_find(negated_rows(core, scored), k) is Some <==> (seq_find(core, k) is Some
            && seq_find(scored, k) is None),
        seq_find(negated_rows(core, scored), k) matches Some(j) ==> negated_rows(core, scored)[
            j].1 == rows_max(scored),
    decreases core.len(),
{
    crate::string_map::lemma_seq_find(negated_rows(core, scored), k);
    crate::string_map::lemma_seq_find(core, k);
    if core.len() > 0 {
        lemma_negated_rows_member(core.drop_last(), scored, k);
        let prev = negated_rows(core.drop_last(), scored);
        crate::string_map::lemma_seq_find(prev, k);
        crate::string_map::lemma_seq_find(core.drop_last(), k);
        assert(forall|x: int|
            0 <= x < core.len() - 1 ==> core.drop_last()[x] == #[trigger] core[x]);
        let kc = core.last().0;
        if seq_find(scored, kc) is None {
            crate::string_map::lemma_seq_find_push(prev, kc, rows_max(scored), k);
        }
        assert(seq_find(core, k) is Some <==> (seq_find(core.drop_last(), k) is Some || k
            == kc)) by {
            if seq_find(core, k) is Some {
                let j = seq_find(core, k)->Some_0;
                assert(core[j].0 == k);
                if j < core.len() - 1 {
                    assert(core.drop_last()[j].0 == k);
                }
            } else {
                if seq_find(core.drop_last(), k) is Some {
                    let j = seq_find(core.drop_last(), k)->Some_0;
                    assert(core[j].0 == k);
                }
                assert(core[core.len() - 1].0 == kc);
            }
        }
    }
}

/// Each character encodes to between one and four bytes.
proof fn lemma_encode_len(s: Seq<char>)
    ensures
        s.len() <= vstd::utf8::encode_utf8(s).len() <= 4 * s.len(),
    decreases s.len(),
{
    if s.len() > 0 {
        lemma_encode_len(s.drop_first());
        assert(1 <= vstd::utf8::encode_scalar(s[0] as u32).len() <= 4);
    }
}

/// Filtering by a narrower scorer after a wider one is filtering by the
/// narrower one alone.
proof fn lemma_filter_filter(
    rows: Seq<(Seq<char>, i16)>,
    f: spec_fn(Seq<char>) -> int,
    g: spec_fn(Seq<char>) -> int,
)
    requires
        forall|k: Seq<char>| #[trigger] f(k) > 0 ==> g(k) > 0,
    ensures
        filter_rows(filter_rows(rows, g), f) == filter_rows(rows, f),
    decreases rows.len(),
{
    if rows.len() > 0 {
        lemma_filter_filter(rows.drop_last(), f, g);
        let inner_prev = filter_rows(rows.drop_last(), g);
        let k = rows.last().0;
        if g(k) > 0 {
            let pushed = inner_prev.push((k, g(k) as i16));
            assert(pushed.drop_last() =~= inner_prev);
            assert(pushed.last().0 == k);
        } else {
            assert(!(f(k) > 0));
        }
    }
}

/// A substring of a text contains every leading part of that text.
proof fn lemma_contains_take(k: Seq<char>, t: Seq<char>, m: int)
    requires
        text::contains_seq(k, t),
        0 <= m <= t.len(),
    ensures
        text::contains_seq(k, t.take(m)),
{
    let i = choose|i: int| text::match_at(k, t, i);
    assert(text::match_at(k, t.take(m), i)) by {
        assert(forall|x: int| 0 <= x < m ==> k[i + x] == #[trigger] t.take(m)[x]);
    }
}

/// A substring of a text contains every trailing part of that text.
proof fn lemma_contains_skip(k: Seq<char>, t: Seq<char>, m: int)
    requires
        text::contains_seq(k, t),
        0 <= m <= t.len(),
    ensures
        text::contains_seq(k, t.skip(m)),
{
    let i = choose|i: int| text::match_at(k, t, i);
    assert(text::match_at(k, t.skip(m), i + m)) by {
        assert(forall|x: int| 0 <= x < t.len() - m ==> k[i + m + x] == #[trigger] t.skip(m)[x]);
    }
}

/// The probed universe is invisible when every stored row is honest and the
/// text's scorer only narrows its shortened forms.
proof fn lemma_probe_equivalence(
    store: Seq<(Seq<char>, Seq<(Seq<char>, i16)>)>,
    core: Seq<(Seq<char>, i16)>,
    t: Seq<char>,
    fam: spec_fn(Seq<char>) -> spec_fn(Seq<char>) -> int,
    idx: int,
)
    requires
        forall|i: int|
            0 <= i < store.len() ==> (#[trigger] store[i]).1 == filter_rows(
                core,
                fam(store[i].0),
            ),
        forall|m: int, k: Seq<char>|
            1 <= m < t.len() ==> (#[trigger] fam(t)(k) > 0 ==> fam(#[trigger] t.take(
                t.len() - m,
            ))(k) > 0 && fam(t.skip(m))(k) > 0),
        1 <= idx,
    ensures
        filter_rows(probe(store, core, t, idx), fam(t)) == filter_rows(core, fam(t)),
    decreases t.len() - idx,
{
    if idx >= t.len() {
    } else {
        let pre = t.take(t.len() - idx);
        let suf = t.skip(idx);
        crate::string_map::lemma_seq_find(store, pre);
        crate::string_map::lemma_seq_find(store, suf);
        match seq_find(store, pre) {
            Some(j) => {
                assert(store[j].0 == pre);
                assert(forall|k: Seq<char>| #[trigger] fam(t)(k) > 0 ==> fam(pre)(k) > 0);
                lemma_filter_filter(core, fam(t), fam(pre));
            },
            None => match seq_find(store, suf) {
                Some(j) => {
                    assert(store[j].0 == suf);
                    assert(forall|k: Seq<char>| #[trigger] fam(t)(k) > 0 ==> fam(suf)(k) > 0);
                    lemma_filter_filter(core, fam(t), fam(suf));
                },
                None => {
                    lemma_probe_equivalence(store, core, t, fam, idx + 1);
                },
            },
        }
    }
}

/// Cache equivalence for an exact leaf: when every stored row is the honest
/// scoring of the current universe under its own text, and the pattern text
/// is of moderate length, the memoized evaluation returns exactly what
/// scoring the full universe would, so the cache changes no observable
/// result.
pub proof fn lemma_exact_cache_equivalence(
    store: Seq<(Seq<char>, Seq<(Seq<char>, i16)>)>,
    core: Seq<(Seq<char>, i16)>,
    t: Seq<char>,
)
    requires
        forall|i: int|
            0 <= i < store.len() ==> (#[trigger] store[i]).1 == filter_rows(
                core,
                scf_exact(store[i].0),
            ),
        64 * t.len() <= i16::MAX,
    ensures
        eval_leaf(store, core, t, scf_exact(t)).0 == filter_rows(core, scf_exact(t)),
{
    crate::string_map::lemma_seq_find(store, t);
    match seq_find(store, t) {
        Some(j) => {
            assert(store[j].0 == t);
        },
        None => {
            assert forall|m: int, k: Seq<char>|
                1 <= m < t.len() implies (#[trigger] scf_exact(t)(k) > 0 ==> scf_exact(
                #[trigger] t.take(t.len() - m),
            )(k) > 0 && scf_exact(t.skip(m))(k) > 0) by {
                if scf_exact(t)(k) > 0 {
                    lemma_contains_take(k, t, t.len() - m);
                    lemma_contains_skip(k, t, m);
                    lemma_encode_len(t.take(t.len() - m));
                    lemma_encode_len(t.skip(m));
                    lemma_encode_len(t);
                    assert(leaf_const(t.take(t.len() - m)) > 0) by {
                        let b = vstd::utf8::encode_utf8(t.take(t.len() - m)).len() as int;
                        assert(1 <= b <= 4 * t.len());
                        assert(16 * b <= 64 * t.len());
                        assert(vstd::wrapping::i16_specs::signed_crop(16 * b) == (16 * b) as i16)
                            by {
                            assert((16 * b) % 0x1_0000 == 16 * b);
                        }
                    }
                    assert(leaf_const(t.skip(m)) > 0) by {
                        let b = vstd::utf8::encode_utf8(t.skip(m)).len() as int;
                        assert(1 <= b <= 4 * t.len());
                        assert(16 * b <= 64 * t.len());
                        assert(vstd::wrapping::i16_specs::signed_crop(16 * b) == (16 * b) as i16)
                            by {
                            assert((16 * b) % 0x1_0000 == 16 * b);
                        }
                    }
                }
            }
            lemma_probe_equivalence(store, core, t, |x: Seq<char>| scf_exact(x), 1);
        },
    }
}

/// Cache equivalence for a fuzzy leaf: when every stored row is the honest
/// scoring of the current universe under its own text, the memoized
/// evaluation returns exactly what scoring the full universe would, so the
/// cache changes no observable result.
pub proof fn lemma_fuzzy_cache_equivalence(
    store: Seq<(Seq<char>, Seq<(Seq<char>, i16)>)>,
    core: Seq<(Seq<char>, i16)>,
    t: Seq<char>,
)
    requires
        forall|i: int|
            0 <= i < store.len() ==> (#[trigger] store[i]).1 == filter_rows(
                core,
                scf_fuzzy(store[i].0),
            ),
    ensures
        eval_leaf(store, core, t, scf_fuzzy(t)).0 == filter_rows(core, scf_fuzzy(t)),
{
    crate::string_map::lemma_seq_find(store, t);
    match seq_find(store, t) {
        Some(j) => {
            assert(store[j].0 == t);
        },
        None => {
            assert forall|m: int, k: Seq<char>|
                1 <= m < t.len() implies (#[trigger] scf_fuzzy(t)(k) > 0 ==> scf_fuzzy(
                #[trigger] t.take(t.len() - m),
            )(k) > 0 && scf_fuzzy(t.skip(m))(k) > 0) by {
                if fuzzy::fuzzy_leaf(k, t) > 0 {
                    lemma_encode_len(t);
                    assert(vstd::utf8::encode_utf8(t).len() >= 2);
                    assert((k.len() + 1) * (t.len() + 1) <= fuzzy::GRID_CELLS);
                    fuzzy::lemma_fuzzy_positive_subsequence(k, t);
                    crate::scoring::lemma_subseq_take(t, k, t.len() - m);
                    crate::scoring::lemma_subseq_skip(t, k, m);
                    lemma_fuzzy_narrow_positive(k, t, t.take(t.len() - m));
                    lemma_fuzzy_narrow_positive(k, t, t.skip(m));
                }
            }
            lemma_probe_equivalence(store, core, t, |x: Seq<char>| scf_fuzzy(x), 1);
        },
    }
}

/// A shortened form of a positively scored fuzzy text still scores its
/// target positively.
proof fn lemma_fuzzy_narrow_positive(k: Seq<char>, t: Seq<char>, sub: Seq<char>)
    requires
        crate::scoring::is_subseq_ci(sub, k),
        1 <= sub.len() < t.len(),
        (k.len() + 1) * (t.len() + 1) <= fuzzy::GRID_CELLS,
    ensures
        fuzzy::fuzzy_leaf(k, sub) > 0,
{
    lemma_encode_len(sub);
    if vstd::utf8::encode_utf8(sub).len() == 1 {
        assert(sub.len() == 1);
        crate::scoring::lemma_subseq_single_contains(sub, k);
    } else {
        assert((k.len() + 1) * (sub.len() + 1) <= fuzzy::GRID_CELLS) by (nonlinear_arith)
            requires
                sub.len() < t.len(),
                k.len() >= 0,
                (k.len() + 1) * (t.len() + 1) <= fuzzy::GRID_CELLS,
        ;
        crate::scoring::lemma_fuzzy_score_positive(k, sub);
    }
}

} // verus!
