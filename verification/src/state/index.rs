//! The path indexer: one stack-based walk of the document that yields every
//! addressable path with its immediate children, following `$ref` aliases
//! and guarding against reference cycles.

use vstd::prelude::*;

use crate::pointer;
use crate::string_map::{seq_find, StringMap};
use crate::text;
use crate::value::{subvalue, Value};

verus! {

broadcast use vstd::std_specs::vec::group_vec_axioms, vstd::seq::group_seq_axioms;

/// The path universe of a document: every reachable path mapped to its
/// immediate child paths, in traversal order.
pub struct Doc {
    pub root: String,
    pub adj_list: StringMap<Vec<String>>,
}

/// The key that redirects an object to another path.
pub open spec fn ref_key() -> Seq<char> {
    seq!['$', 'r', 'e', 'f']
}

/// A usable alias target: a path string that begins with the root sentinel,
/// parses, and resolves in the document.
pub open spec fn ref_target_ok(doc: Value, t: Seq<char>) -> bool {
    &&& t.len() > 0 && t[0] == '#'
    &&& pointer::parse_pointer(t) is Some
    &&& pointer::resolve(doc, pointer::parse_pointer(t)->Some_0) is Ok
}

/// The first usable alias among an object's entries, if any.
pub open spec fn first_ref(doc: Value, entries: Seq<(String, Value)>) -> Option<Seq<char>>
    decreases entries.len(),
{
    if entries.len() == 0 {
        None
    } else if entries[0].0@ == ref_key() && entries[0].1 is String && ref_target_ok(
        doc,
        entries[0].1->String_0@,
    ) {
        Some(entries[0].1->String_0@)
    } else {
        first_ref(doc, entries.drop_first())
    }
}

/// The child paths one node contributes under one path: an aliased object
/// has just its target, other containers expand entry by entry, scalars end
/// the walk.
pub open spec fn spec_children(doc: Value, node: Value, path: Seq<char>) -> Seq<Seq<char>> {
    match node {
        Value::Object(entries) => match first_ref(doc, entries@) {
            Some(target) => seq![target],
            None => Seq::new(
                entries@.len(),
                |i: int| path + seq!['/'] + text::esc(entries@[i].0@),
            ),
        },
        Value::Array(items) => Seq::new(
            items@.len(),
            |i: int| path + seq!['/'] + text::dec_digits(i),
        ),
        _ => Seq::empty(),
    }
}

/// Everything one node can put on the walk under one path: each entry's
/// child path, and the alias target when one is usable. The recorded
/// children are always among these, and so is every path the walk marks.
pub open spec fn expand_children(doc: Value, node: Value, path: Seq<char>) -> Seq<Seq<char>> {
    match node {
        Value::Object(entries) => Seq::new(
            entries@.len(),
            |i: int| path + seq!['/'] + text::esc(entries@[i].0@),
        ) + (match first_ref(doc, entries@) {
            Some(t) => seq![t],
            None => Seq::empty(),
        }),
        Value::Array(items) => Seq::new(
            items@.len(),
            |i: int| path + seq!['/'] + text::dec_digits(i),
        ),
        _ => Seq::empty(),
    }
}

/// The text `k` arises while expanding `node` under `path`.
pub open spec fn in_expansion(doc: Value, node: Value, path: Seq<char>, k: Seq<char>) -> bool {
    exists|y: int|
        0 <= y < expand_children(doc, node, path).len() && #[trigger] expand_children(
            doc,
            node,
            path,
        )[y] == k
}

/// The text `k` arises while expanding the node the indexed entry at `x`
/// resolves to.
pub open spec fn expanded_by(
    doc: Value,
    adj: Seq<(Seq<char>, Vec<String>)>,
    x: int,
    k: Seq<char>,
) -> bool {
    in_expansion(
        doc,
        pointer::resolve(doc, pointer::parse_pointer(adj[x].0)->Some_0)->Ok_0,
        adj[x].0,
        k,
    )
}

/// Every indexed path but the root arose while expanding some indexed node:
/// the index holds nothing the walk did not put there.
pub open spec fn adj_complete(doc: Value, adj: Seq<(Seq<char>, Vec<String>)>) -> bool {
    forall|i: int|
        0 <= i < adj.len() ==> (#[trigger] adj[i]).0 == seq!['#'] || exists|x: int|
            0 <= x < adj.len() && #[trigger] expanded_by(doc, adj, x, adj[i].0)
}

/// Every marked path but the root arose while expanding some indexed node.
pub open spec fn seen_arises(
    doc: Value,
    seen: Seq<(Seq<char>, bool)>,
    adj: Seq<(Seq<char>, Vec<String>)>,
) -> bool {
    forall|j: int|
        0 <= j < seen.len() ==> (#[trigger] seen[j]).0 == seq!['#'] || exists|x: int|
            0 <= x < adj.len() && #[trigger] expanded_by(doc, adj, x, seen[j].0)
}

/// Every marked path but the root arose from an indexed node or from the
/// node being expanded now.
pub open spec fn seen_arises_mid(
    doc: Value,
    seen: Seq<(Seq<char>, bool)>,
    adj: Seq<(Seq<char>, Vec<String>)>,
    node: Value,
    path: Seq<char>,
) -> bool {
    forall|j: int|
        0 <= j < seen.len() ==> (#[trigger] seen[j]).0 == seq!['#'] || in_expansion(
            doc,
            node,
            path,
            seen[j].0,
        ) || exists|x: int| 0 <= x < adj.len() && #[trigger] expanded_by(doc, adj, x, seen[j].0)
}

/// The texts marked as visited.
pub open spec fn seen_set(s: Seq<(Seq<char>, bool)>) -> Set<Seq<char>> {
    Set::new(|k: Seq<char>| seq_find(s, k) is Some)
}

/// The total size of the nodes waiting on the stack.
pub open spec fn stack_size(s: Seq<(&Value, String)>) -> nat
    decreases s.len(),
{
    if s.len() == 0 {
        0
    } else {
        stack_size(s.drop_last()) + s.last().0.size()
    }
}

/// Every waiting node lies in the document, is marked seen, and is not yet
/// indexed; no path waits twice.
pub open spec fn stack_wf(
    doc: Value,
    st: Seq<(&Value, String)>,
    seen: Seq<(Seq<char>, bool)>,
    adj: Seq<(Seq<char>, Vec<String>)>,
) -> bool {
    &&& forall|t: int| 0 <= t < st.len() ==> subvalue(*(#[trigger] st[t]).0, doc)
    &&& forall|t: int| 0 <= t < st.len() ==> seq_find(seen, (#[trigger] st[t]).1@) is Some
    &&& forall|t: int| 0 <= t < st.len() ==> seq_find(adj, (#[trigger] st[t]).1@) is None
    &&& forall|t1: int, t2: int|
        0 <= t1 < t2 < st.len() ==> (#[trigger] st[t1]).1@ != (#[trigger] st[t2]).1@
}

/// Every waiting path resolves to exactly the node waiting with it.
pub open spec fn stack_resolves(doc: Value, st: Seq<(&Value, String)>) -> bool {
    forall|t: int|
        0 <= t < st.len() ==> {
            &&& pointer::parse_pointer((#[trigger] st[t]).1@) is Some
            &&& pointer::resolve(doc, pointer::parse_pointer(st[t].1@)->Some_0) == Ok::<
                Value,
                pointer::PointerError,
            >(*st[t].0)
        }
}

/// Indexed paths are marked seen, and so is every child they list.
pub open spec fn adj_wf(seen: Seq<(Seq<char>, bool)>, adj: Seq<(Seq<char>, Vec<String>)>) -> bool {
    &&& forall|i: int| 0 <= i < adj.len() ==> seq_find(seen, (#[trigger] adj[i]).0) is Some
    &&& forall|i: int, j: int|
        0 <= i < adj.len() && 0 <= j < adj[i].1.deep_view().len() ==> seq_find(
            seen,
            #[trigger] adj[i].1.deep_view()[j],
        ) is Some
}

/// Every indexed path resolves, and lists exactly the children its node
/// contributes.
pub open spec fn adj_resolves(doc: Value, adj: Seq<(Seq<char>, Vec<String>)>) -> bool {
    forall|i: int|
        0 <= i < adj.len() ==> {
            &&& pointer::parse_pointer((#[trigger] adj[i]).0) is Some
            &&& pointer::resolve(doc, pointer::parse_pointer(adj[i].0)->Some_0) is Ok
            &&& adj[i].1.deep_view() == spec_children(
                doc,
                pointer::resolve(doc, pointer::parse_pointer(adj[i].0)->Some_0)->Ok_0,
                adj[i].0,
            )
        }
}

/// Every marked path is indexed, still waiting, or being expanded now.
pub open spec fn seen_covered_mid(
    seen: Seq<(Seq<char>, bool)>,
    adj: Seq<(Seq<char>, Vec<String>)>,
    st: Seq<(&Value, String)>,
    p: Seq<char>,
) -> bool {
    forall|k: Seq<char>|
        #[trigger] seq_find(seen, k) is Some ==> seq_find(adj, k) is Some || k == p || exists|
            t: int,
        |
            0 <= t < st.len() && (#[trigger] st[t]).1@ == k
}

/// Every marked path is indexed or still waiting.
pub open spec fn seen_covered(
    seen: Seq<(Seq<char>, bool)>,
    adj: Seq<(Seq<char>, Vec<String>)>,
    st: Seq<(&Value, String)>,
) -> bool {
    forall|k: Seq<char>|
        #[trigger] seq_find(seen, k) is Some ==> seq_find(adj, k) is Some || exists|t: int|
            0 <= t < st.len() && (#[trigger] st[t]).1@ == k
}

/// A path extended by an escaped object key.
fn child_path_key(path: &str, key: &str) -> (r: String)
    ensures
        r@ == path@ + seq!['/'] + text::esc(key@),
{
    let mut buf = text::chars_vec(path);
    buf.push('/');
    text::escape_into(key, &mut buf);
    proof {
        assert(buf@ =~= path@ + seq!['/'] + text::esc(key@));
    }
    text::string_from_chars(&buf)
}

/// A path extended by an array index.
fn child_path_index(path: &str, i: usize) -> (r: String)
    ensures
        r@ == path@ + seq!['/'] + text::dec_digits(i as int),
{
    let mut buf = text::chars_vec(path);
    buf.push('/');
    let digits = text::usize_to_string(i);
    let dv = text::chars_vec(digits.as_str());
    let mut k: usize = 0;
    while k < dv.len()
        invariant
            dv@ == text::dec_digits(i as int),
            k <= dv@.len(),
            buf@ == path@ + seq!['/'] + dv@.take(k as int),
        decreases dv@.len() - k,
    {
        buf.push(dv[k]);
        proof {
            assert(buf@ =~= path@ + seq!['/'] + dv@.take(k + 1));
        }
        k = k + 1;
    }
    proof {
        assert(dv@.take(dv@.len() as int) =~= dv@);
        assert(buf@ =~= path@ + seq!['/'] + text::dec_digits(i as int));
    }
    text::string_from_chars(&buf)
}

/// The first usable alias of an object: its entry position, the node its
/// target resolves to, and the target path itself.
fn find_ref<'a>(doc: &'a Value, entries: &Vec<(String, Value)>) -> (r: Option<
    (usize, &'a Value, String),
>)
    ensures
        match r {
            Some(p) => {
                &&& p.0 < entries@.len()
                &&& first_ref(*doc, entries@) == Some(p.2@)
                &&& ref_target_ok(*doc, p.2@)
                &&& pointer::resolve(*doc, pointer::parse_pointer(p.2@)->Some_0) == Ok::<
                    Value,
                    pointer::PointerError,
                >(*p.1)
                &&& entries@[p.0 as int].0@ == ref_key() && entries@[p.0 as int].1 is String
                    && entries@[p.0 as int].1->String_0@ == p.2@
                &&& forall|x: int|
                    0 <= x < p.0 ==> !((#[trigger] entries@[x]).0@ == ref_key()
                        && entries@[x].1 is String && ref_target_ok(
                        *doc,
                        entries@[x].1->String_0@,
                    ))
            },
            None => first_ref(*doc, entries@) is None,
        },
{
    let n = entries.len();
    let mut i: usize = 0;
    proof {
        assert(entries@.skip(0) =~= entries@);
    }
    while i < n
        invariant
            n == entries@.len(),
            i <= n,
            first_ref(*doc, entries@) == first_ref(*doc, entries@.skip(i as int)),
            forall|x: int|
                0 <= x < i ==> !((#[trigger] entries@[x]).0@ == ref_key() && entries@[x].1
                    is String && ref_target_ok(*doc, entries@[x].1->String_0@)),
        decreases n - i,
    {
        proof {
            assert(entries@.skip(i as int)[0] == entries@[i as int]);
            assert(entries@.skip(i as int).drop_first() =~= entries@.skip(i + 1));
        }
        let key = &entries[i].0;
        let is_ref = text::str_eq(key.as_str(), "$ref");
        proof {
            reveal_strlit("$ref");
            assert("$ref"@ =~= ref_key());
        }
        if is_ref {
            match &entries[i].1 {
                Value::String(target) => {
                    let tc = text::chars_vec(target.as_str());
                    if tc.len() > 0 && tc[0] == '#' {
                        match pointer::ValuePointer::parse(target.as_str()) {
                            Ok(ptr) => {
                                match ptr.get(doc) {
                                    Ok(node) => {
                                        proof {
                                            assert(entries@[i as int].0@ == ref_key());
                                            assert(entries@[i as int].1 is String);
                                            assert(ref_target_ok(
                                                *doc,
                                                entries@[i as int].1->String_0@,
                                            ));
                                            assert(first_ref(*doc, entries@.skip(i as int))
                                                == Some(entries@[i as int].1->String_0@));
                                        }
                                        return Some((i, node, target.clone()));
                                    },
                                    Err(_) => {},
                                }
                            },
                            Err(_) => {},
                        }
                    }
                },
                _ => {},
            }
        }
        proof {
            assert(!(entries@[i as int].0@ == ref_key() && entries@[i as int].1 is String
                && ref_target_ok(*doc, entries@[i as int].1->String_0@)));
        }
        i = i + 1;
    }
    proof {
        assert(entries@.skip(n as int).len() == 0);
    }
    None
}

impl Doc {
    /// Walk the document once and record every reachable path with its
    /// children. On a well-formed document every recorded path resolves, and
    /// its children are exactly what its node contributes; every child
    /// listed anywhere is itself recorded.
    pub fn build_from(doc: &Value) -> (r: Doc)
        ensures
            r.root@ == seq!['#'],
            seq_find(r.adj_list@, seq!['#']) is Some,
            crate::value::doc_wf(*doc) ==> adj_resolves(*doc, r.adj_list@),
            crate::value::doc_wf(*doc) ==> adj_complete(*doc, r.adj_list@),
            forall|i: int, j: int|
                0 <= i < r.adj_list@.len() && 0 <= j < r.adj_list@[i].1.deep_view().len()
                    ==> seq_find(r.adj_list@, #[trigger] r.adj_list@[i].1.deep_view()[j]) is Some,
    {
        let ghost d = *doc;
        let ghost kk = d.size() + 2;
        let mut adj_list: StringMap<Vec<String>> = StringMap::new();
        let mut seen: StringMap<bool> = StringMap::new();
        let mut stack: Vec<(&Value, String)> = Vec::new();
        let root: String = "#".to_owned();
        proof {
            reveal_strlit("#");
            assert(root@ =~= seq!['#']);
            crate::string_map::lemma_seq_find(seen@, root@);
        }
        seen.append(root.clone(), true);
        stack.push((doc, root.clone()));
        proof {
            assert(subvalue(d, d));
            assert(pointer::parse_pointer(seq!['#']) == Some(Seq::<Seq<char>>::empty())) by {
                assert(pointer::strip_hash(seq!['#']) =~= Seq::<char>::empty());
                assert(pointer::close_token(Seq::empty(), Seq::empty()) =~= Seq::<
                    Seq<char>,
                >::empty());
            }
            assert(pointer::resolve(d, Seq::<Seq<char>>::empty()) == Ok::<
                Value,
                pointer::PointerError,
            >(d));
            assert(seen_covered(seen@, adj_list@, stack@)) by {
                assert forall|k: Seq<char>| #[trigger] seq_find(seen@, k) is Some implies
                    seq_find(adj_list@, k) is Some || exists|t: int|
                    0 <= t < stack@.len() && (#[trigger] stack@[t]).1@ == k by {
                    crate::string_map::lemma_seq_find(seen@, k);
                    assert(k == root@);
                    assert(stack@[0].1@ == k);
                }
            }
            assert(seen_arises(d, seen@, adj_list@)) by {
                assert forall|j: int| 0 <= j < seen@.len() implies (#[trigger] seen@[j]).0
                    == seq!['#'] || exists|x: int|
                    0 <= x < adj_list@.len() && #[trigger] expanded_by(
                        d,
                        adj_list@,
                        x,
                        seen@[j].0,
                    ) by {
                    assert(seen@[j].0 == root@);
                }
            }
        }
        while stack.len() > 0
            invariant
                stack_wf(d, stack@, seen@, adj_list@),
                crate::value::doc_wf(d) ==> stack_resolves(d, stack@),
                crate::value::doc_wf(d) ==> adj_resolves(d, adj_list@),
                crate::value::doc_wf(d) ==> seen_arises(d, seen@, adj_list@),
                adj_wf(seen@, adj_list@),
                seen_covered(seen@, adj_list@, stack@),
                seq_find(seen@, seq!['#']) is Some,
                kk == d.size() + 2,
                *doc == d,
            decreases stack_size(stack@) + kk * crate::value::unseen_strings(d, seen_set(seen@)),
        {
            let ghost st_pre = stack@;
            let ghost seen_pre = seen@;
            let entry = match stack.pop() {
                Some(e) => e,
                None => {
                    proof {
                        assert(false);
                    }
                    (doc, String::new())
                },
            };
            let node: &Value = entry.0;
            let path: String = entry.1;
            proof {
                assert(st_pre.drop_last() =~= stack@);
                assert(st_pre.last() == (node, path));
                assert(stack_size(st_pre) == stack_size(stack@) + node.size());
                assert(node.size() >= 1);
                assert(subvalue(*node, d));
                assert(seq_find(adj_list@, path@) is None);
                assert(seq_find(seen@, path@) is Some);
                assert(forall|t: int|
                    0 <= t < stack@.len() ==> (#[trigger] stack@[t]).1@ != path@) by {
                    assert(forall|t: int|
                        0 <= t < stack@.len() ==> stack@[t] == st_pre[t]);
                }
                if crate::value::doc_wf(d) {
                    assert(seen_arises_mid(d, seen@, adj_list@, *node, path@)) by {
                        assert forall|j: int| 0 <= j < seen@.len() implies (#[trigger] seen@[
                            j]).0 == seq!['#'] || in_expansion(d, *node, path@, seen@[j].0)
                            || exists|x: int|
                            0 <= x < adj_list@.len() && #[trigger] expanded_by(
                                d,
                                adj_list@,
                                x,
                                seen@[j].0,
                            ) by {}
                    }
                }
                assert(seen_covered_mid(seen@, adj_list@, stack@, path@)) by {
                    assert forall|k: Seq<char>| #[trigger] seq_find(seen@, k) is Some implies
                        seq_find(adj_list@, k) is Some || k == path@ || exists|t: int|
                        0 <= t < stack@.len() && (#[trigger] stack@[t]).1@ == k by {
                        if seq_find(adj_list@, k) is None && k != path@ {
                            let t = choose|t: int|
                                0 <= t < st_pre.len() && (#[trigger] st_pre[t]).1@ == k;
                            assert(t < st_pre.len() - 1);
                            assert(stack@[t].1@ == k);
                        }
                    }
                }
            }
            let ghost st0 = stack@;
            let ghost ptoks = pointer::parse_pointer(path@)->Some_0;
            let mut children: Vec<String> = Vec::new();
            proof {
                assert(children.deep_view() =~= Seq::<Seq<char>>::empty());
            }
            match node {
                Value::Object(entries) => {
                    let ghost es = entries@;
                    proof {
                        assert(*node == Value::Object(*entries));
                        if crate::value::doc_wf(d) {
                            crate::value::lemma_doc_wf_subvalue(*node, d);
                        }
                    }
                    let found = find_ref(doc, entries);
                    let upto = match &found {
                        Some(t) => t.0,
                        None => entries.len(),
                    };
                    let mut i: usize = 0;
                    while i < upto
                        invariant
                            upto <= entries@.len(),
                            es == entries@,
                            *node == Value::Object(*entries),
                            subvalue(*node, d),
                            i <= upto,
                            stack_wf(d, stack@, seen@, adj_list@),
                            crate::value::doc_wf(d) ==> stack_resolves(d, stack@),
                            crate::value::doc_wf(d) ==> adj_resolves(d, adj_list@),
                            crate::value::doc_wf(d) ==> seen_arises_mid(
                                d,
                                seen@,
                                adj_list@,
                                *node,
                                path@,
                            ),
                            adj_wf(seen@, adj_list@),
                            seen_covered_mid(seen@, adj_list@, stack@, path@),
                            seq_find(seen@, seq!['#']) is Some,
                            seq_find(adj_list@, path@) is None,
                            seq_find(seen@, path@) is Some,
                            forall|t: int|
                                0 <= t < stack@.len() ==> (#[trigger] stack@[t]).1@ != path@,
                            crate::value::doc_wf(d) ==> (pointer::parse_pointer(path@) is Some
                                && pointer::resolve(d, ptoks) == Ok::<
                                Value,
                                pointer::PointerError,
                            >(*node) && ptoks == pointer::parse_pointer(path@)->Some_0),
                            crate::value::doc_wf(d) ==> crate::value::doc_wf(*node),
                            children.deep_view() == Seq::new(
                                i as nat,
                                |t: int| path@ + seq!['/'] + text::esc(es[t].0@),
                            ),
                            forall|j: int|
                                0 <= j < children.deep_view().len() ==> seq_find(
                                    seen@,
                                    #[trigger] children.deep_view()[j],
                                ) is Some,
                            stack_size(stack@) + kk * crate::value::unseen_strings(
                                d,
                                seen_set(seen@),
                            ) <= stack_size(st0) + Value::entry_seq_size(es.take(i as int)) + kk
                                * crate::value::unseen_strings(d, seen_set(seen_pre)),
                            kk == d.size() + 2,
                            *doc == d,
                        decreases upto - i,
                    {
                        proof {
                            assert(es.take(i + 1).drop_last() =~= es.take(i as int));
                            assert(es.take(i + 1).last() == es[i as int]);
                            assert(node->Object_0@ == es);
                            assert(subvalue(
                                node->Object_0@[i as int].1,
                                node->Object_0@[i as int].1,
                            ));
                            assert(subvalue(es[i as int].1, *node));
                            crate::value::lemma_subvalue_trans(es[i as int].1, *node, d);
                        }
                        let child_path = child_path_key(path.as_str(), entries[i].0.as_str());
                        let ghost prev_children = children.deep_view();
                        if !seen.contains_key(child_path.as_str()) {
                            proof {
                                crate::string_map::lemma_seq_find(seen@, child_path@);
                            }
                            let ghost old_seen = seen@;
                            let ghost old_stack = stack@;
                            seen.append(child_path.clone(), true);
                            stack.push((&entries[i].1, child_path.clone()));
                            proof {
                                assert(stack@.drop_last() =~= old_stack);
                                assert(stack@.last().1@ == child_path@);
                                assert(*stack@.last().0 == es[i as int].1);
                                assert(stack_size(stack@) == stack_size(old_stack) + es[
                                    i as int].1.size());
                                lemma_mark_and_push(
                                    d,
                                    old_seen,
                                    seen@,
                                    old_stack,
                                    stack@,
                                    adj_list@,
                                    path@,
                                    child_path@,
                                    es[i as int].1,
                                );
                                crate::value::lemma_entry_seq_size_take_succ(es, i as int);
                                if crate::value::doc_wf(d) {
                                    assert(crate::value::doc_wf(*node));
                                    assert(node->Object_0@ == es);
                                    assert(es[i as int].0@.len() > 0);
                                    pointer::lemma_parse_append_key(path@, es[i as int].0@);
                                    pointer::lemma_resolve_push(d, ptoks, es[i as int].0@);
                                    pointer::lemma_resolve_child_key(*node, i as int);
                                    assert(expand_children(d, *node, path@)[i as int]
                                        == child_path@);
                                    assert(0 <= i < expand_children(d, *node, path@).len());
                                    assert(seen_arises_mid(d, seen@, adj_list@, *node, path@)) by {
                                        assert forall|j: int| 0 <= j < seen@.len() implies (
                                        #[trigger] seen@[j]).0 == seq!['#'] || in_expansion(
                                            d,
                                            *node,
                                            path@,
                                            seen@[j].0,
                                        ) || exists|x: int|
                                            0 <= x < adj_list@.len() && #[trigger] expanded_by(
                                                d,
                                                adj_list@,
                                                x,
                                                seen@[j].0,
                                            ) by {
                                            if j < old_seen.len() {
                                                assert(seen@[j] == old_seen[j]);
                                            } else {
                                                assert(seen@[j].0 == child_path@);
                                                assert(in_expansion(d, *node, path@, seen@[j].0));
                                            }
                                        }
                                    }
                                }
                                assert(kk * crate::value::unseen_strings(d, seen_set(seen@)) <= kk
                                    * crate::value::unseen_strings(d, seen_set(old_seen)))
                                    by (nonlinear_arith)
                                    requires
                                        crate::value::unseen_strings(d, seen_set(seen@))
                                            <= crate::value::unseen_strings(
                                            d,
                                            seen_set(old_seen),
                                        ),
                                        kk >= 0,
                                ;
                            }
                        } else {
                            proof {
                                crate::value::lemma_entry_seq_size_take_succ(es, i as int);
                            }
                        }
                        children.push(child_path);
                        proof {
                            assert(children.deep_view() =~= prev_children.push(
                                path@ + seq!['/'] + text::esc(es[i as int].0@),
                            ));
                            assert(children.deep_view() =~= Seq::new(
                                (i + 1) as nat,
                                |t: int| path@ + seq!['/'] + text::esc(es[t].0@),
                            ));
                        }
                        i = i + 1;
                    }
                    match found {
                        Some(found) => {
                            let ref_node: &Value = found.1;
                            let target: String = found.2;
                            proof {
                                pointer::lemma_resolve_subvalue(
                                    d,
                                    pointer::parse_pointer(target@)->Some_0,
                                );
                                crate::value::lemma_subvalue_size(*ref_node, d);
                                crate::value::lemma_entry_seq_size_take_le(es, upto as int);
                                assert(Value::entry_seq_size(es) == node.size() - 1);
                            }
                            if !seen.contains_key(target.as_str()) {
                                proof {
                                    crate::string_map::lemma_seq_find(seen@, target@);
                                }
                                let ghost old_seen = seen@;
                                let ghost old_stack = stack@;
                                seen.append(target.clone(), true);
                                stack.push((ref_node, target.clone()));
                                proof {
                                    assert(stack@.drop_last() =~= old_stack);
                                    assert(stack@.last().1@ == target@);
                                    assert(*stack@.last().0 == *ref_node);
                                    assert(stack_size(stack@) == stack_size(old_stack)
                                        + ref_node.size());
                                    lemma_mark_and_push(
                                        d,
                                        old_seen,
                                        seen@,
                                        old_stack,
                                        stack@,
                                        adj_list@,
                                        path@,
                                        target@,
                                        *ref_node,
                                    );
                                    let je = found.0 as int;
                                    assert(es[je].1 is String && es[je].1->String_0@ == target@)
                                        by {
                                        assert(first_ref(d, es) == Some(target@));
                                        lemma_first_ref_index(d, es, je);
                                    }
                                    assert(crate::value::contains_string(es[je].1, target@));
                                    assert(node->Object_0@ == es);
                                    assert(subvalue(node->Object_0@[je].1, node->Object_0@[je].1));
                                    assert(subvalue(es[je].1, *node));
                                    crate::value::lemma_subvalue_trans(es[je].1, *node, d);
                                    crate::value::lemma_subvalue_contains_string(
                                        es[je].1,
                                        d,
                                        target@,
                                    );
                                    crate::value::lemma_unseen_insert(
                                        d,
                                        seen_set(old_seen),
                                        target@,
                                    );
                                    assert(kk * crate::value::unseen_strings(d, seen_set(seen@))
                                        + kk <= kk * crate::value::unseen_strings(
                                        d,
                                        seen_set(old_seen),
                                    )) by (nonlinear_arith)
                                        requires
                                            crate::value::unseen_strings(d, seen_set(seen@)) + 1
                                                <= crate::value::unseen_strings(
                                                d,
                                                seen_set(old_seen),
                                            ),
                                            kk >= 0,
                                    ;
                                    if crate::value::doc_wf(d) {
                                        assert(node->Object_0@ == es);
                                        assert(first_ref(d, es) == Some(target@));
                                        assert(expand_children(d, *node, path@)[es.len() as int]
                                            == target@);
                                        assert(0 <= es.len() < expand_children(
                                            d,
                                            *node,
                                            path@,
                                        ).len());
                                        assert(seen_arises_mid(d, seen@, adj_list@, *node, path@))
                                            by {
                                            assert forall|j: int| 0 <= j < seen@.len() implies (
                                            #[trigger] seen@[j]).0 == seq!['#'] || in_expansion(
                                                d,
                                                *node,
                                                path@,
                                                seen@[j].0,
                                            ) || exists|x: int|
                                                0 <= x < adj_list@.len() && #[trigger] expanded_by(
                                                    d,
                                                    adj_list@,
                                                    x,
                                                    seen@[j].0,
                                                ) by {
                                                if j < old_seen.len() {
                                                    assert(seen@[j] == old_seen[j]);
                                                } else {
                                                    assert(seen@[j].0 == target@);
                                                    assert(in_expansion(
                                                        d,
                                                        *node,
                                                        path@,
                                                        seen@[j].0,
                                                    ));
                                                }
                                            }
                                        }
                                    }
                                }
                            }
                            children = Vec::new();
                            children.push(target);
                            proof {
                                assert(children.deep_view() =~= seq![
                                    first_ref(d, es)->Some_0,
                                ]);
                                assert(children.deep_view() == spec_children(d, *node, path@));
                            }
                        },
                        None => {
                            proof {
                                assert(es.take(es.len() as int) =~= es);
                                assert(Value::entry_seq_size(es) == node.size() - 1);
                                assert(children.deep_view() =~= spec_children(d, *node, path@));
                            }
                        },
                    }
                },
                Value::Array(items) => {
                    let ghost its = items@;
                    proof {
                        assert(*node == Value::Array(*items));
                    }
                    let len = items.len();
                    let mut i: usize = 0;
                    while i < len
                        invariant
                            len == items@.len(),
                            its == items@,
                            *node == Value::Array(*items),
                            subvalue(*node, d),
                            i <= len,
                            stack_wf(d, stack@, seen@, adj_list@),
                            crate::value::doc_wf(d) ==> stack_resolves(d, stack@),
                            crate::value::doc_wf(d) ==> adj_resolves(d, adj_list@),
                            crate::value::doc_wf(d) ==> seen_arises_mid(
                                d,
                                seen@,
                                adj_list@,
                                *node,
                                path@,
                            ),
                            adj_wf(seen@, adj_list@),
                            seen_covered_mid(seen@, adj_list@, stack@, path@),
                            seq_find(seen@, seq!['#']) is Some,
                            seq_find(adj_list@, path@) is None,
                            seq_find(seen@, path@) is Some,
                            forall|t: int|
                                0 <= t < stack@.len() ==> (#[trigger] stack@[t]).1@ != path@,
                            crate::value::doc_wf(d) ==> (pointer::parse_pointer(path@) is Some
                                && pointer::resolve(d, ptoks) == Ok::<
                                Value,
                                pointer::PointerError,
                            >(*node) && ptoks == pointer::parse_pointer(path@)->Some_0),
                            children.deep_view() == Seq::new(
                                i as nat,
                                |t: int| path@ + seq!['/'] + text::dec_digits(t),
                            ),
                            forall|j: int|
                                0 <= j < children.deep_view().len() ==> seq_find(
                                    seen@,
                                    #[trigger] children.deep_view()[j],
                                ) is Some,
                            stack_size(stack@) + kk * crate::value::unseen_strings(
                                d,
                                seen_set(seen@),
                            ) <= stack_size(st0) + Value::seq_size(its.take(i as int)) + kk
                                * crate::value::unseen_strings(d, seen_set(seen_pre)),
                            kk == d.size() + 2,
                            *doc == d,
                        decreases len - i,
                    {
                        proof {
                            assert(its.take(i + 1).drop_last() =~= its.take(i as int));
                            assert(its.take(i + 1).last() == its[i as int]);
                            assert(node->Array_0@ == its);
                            assert(subvalue(node->Array_0@[i as int], node->Array_0@[i as int]));
                            assert(subvalue(its[i as int], *node));
                            crate::value::lemma_subvalue_trans(its[i as int], *node, d);
                        }
                        let child_path = child_path_index(path.as_str(), i);
                        let ghost prev_children = children.deep_view();
                        if !seen.contains_key(child_path.as_str()) {
                            proof {
                                crate::string_map::lemma_seq_find(seen@, child_path@);
                            }
                            let ghost old_seen = seen@;
                            let ghost old_stack = stack@;
                            seen.append(child_path.clone(), true);
                            stack.push((&items[i], child_path.clone()));
                            proof {
                                assert(stack@.drop_last() =~= old_stack);
                                assert(stack@.last().1@ == child_path@);
                                assert(*stack@.last().0 == its[i as int]);
                                assert(stack_size(stack@) == stack_size(old_stack) + its[
                                    i as int].size());
                                lemma_mark_and_push(
                                    d,
                                    old_seen,
                                    seen@,
                                    old_stack,
                                    stack@,
                                    adj_list@,
                                    path@,
                                    child_path@,
                                    its[i as int],
                                );
                                crate::value::lemma_seq_size_take_succ(its, i as int);
                                if crate::value::doc_wf(d) {
                                    pointer::lemma_parse_append_index(path@, i as int);
                                    pointer::lemma_resolve_push(
                                        d,
                                        ptoks,
                                        text::dec_digits(i as int),
                                    );
                                    pointer::lemma_resolve_child_index(*node, i as int);
                                    assert(node->Array_0@ == its);
                                    assert(expand_children(d, *node, path@)[i as int]
                                        == child_path@);
                                    assert(0 <= i < expand_children(d, *node, path@).len());
                                    assert(seen_arises_mid(d, seen@, adj_list@, *node, path@)) by {
                                        assert forall|j: int| 0 <= j < seen@.len() implies (
                                        #[trigger] seen@[j]).0 == seq!['#'] || in_expansion(
                                            d,
                                            *node,
                                            path@,
                                            seen@[j].0,
                                        ) || exists|x: int|
                                            0 <= x < adj_list@.len() && #[trigger] expanded_by(
                                                d,
                                                adj_list@,
                                                x,
                                                seen@[j].0,
                                            ) by {
                                            if j < old_seen.len() {
                                                assert(seen@[j] == old_seen[j]);
                                            } else {
                                                assert(seen@[j].0 == child_path@);
                                                assert(in_expansion(d, *node, path@, seen@[j].0));
                                            }
                                        }
                                    }
                                }
                                assert(kk * crate::value::unseen_strings(d, seen_set(seen@)) <= kk
                                    * crate::value::unseen_strings(d, seen_set(old_seen)))
                                    by (nonlinear_arith)
                                    requires
                                        crate::value::unseen_strings(d, seen_set(seen@))
                                            <= crate::value::unseen_strings(
                                            d,
                                            seen_set(old_seen),
                                        ),
                                        kk >= 0,
                                ;
                            }
                        } else {
                            proof {
                                crate::value::lemma_seq_size_take_succ(its, i as int);
                            }
                        }
                        children.push(child_path);
                        proof {
                            assert(children.deep_view() =~= prev_children.push(
                                path@ + seq!['/'] + text::dec_digits(i as int),
                            ));
                            assert(children.deep_view() =~= Seq::new(
                                (i + 1) as nat,
                                |t: int| path@ + seq!['/'] + text::dec_digits(t),
                            ));
                        }
                        i = i + 1;
                    }
                    proof {
                        assert(its.take(len as int) =~= its);
                        assert(Value::seq_size(its) == node.size() - 1);
                        assert(children.deep_view() =~= spec_children(d, *node, path@));
                    }
                },
                _ => {
                    proof {
                        assert(children.deep_view() =~= spec_children(d, *node, path@));
                    }
                },
            }
            proof {
                assert(stack_size(stack@) + kk * crate::value::unseen_strings(
                    d,
                    seen_set(seen@),
                ) < stack_size(st_pre) + kk * crate::value::unseen_strings(
                    d,
                    seen_set(seen_pre),
                ));
                crate::string_map::lemma_seq_find(adj_list@, path@);
            }
            let ghost old_adj = adj_list@;
            let ghost final_children = children.deep_view();
            adj_list.append(path.clone(), children);
            proof {
                assert(adj_list@ =~= old_adj.push((path@, adj_list@.last().1)));
                assert(adj_list@.last().0 == path@);
                assert(adj_list@.last().1.deep_view() == final_children);
                assert(stack_wf(d, stack@, seen@, adj_list@)) by {
                    assert forall|t: int|
                        0 <= t < stack@.len() implies seq_find(
                        adj_list@,
                        (#[trigger] stack@[t]).1@,
                    ) is None by {
                        crate::string_map::lemma_seq_find(adj_list@, stack@[t].1@);
                        crate::string_map::lemma_seq_find(old_adj, stack@[t].1@);
                    }
                }
                assert(adj_wf(seen@, adj_list@));
                if crate::value::doc_wf(d) {
                    assert(adj_resolves(d, adj_list@)) by {
                        assert forall|i: int| 0 <= i < adj_list@.len() implies {
                            &&& pointer::parse_pointer((#[trigger] adj_list@[i]).0) is Some
                            &&& pointer::resolve(
                                d,
                                pointer::parse_pointer(adj_list@[i].0)->Some_0,
                            ) is Ok
                            &&& adj_list@[i].1.deep_view() == spec_children(
                                d,
                                pointer::resolve(
                                    d,
                                    pointer::parse_pointer(adj_list@[i].0)->Some_0,
                                )->Ok_0,
                                adj_list@[i].0,
                            )
                        } by {
                            if i < old_adj.len() {
                                assert(adj_list@[i] == old_adj[i]);
                            }
                        }
                    }
                }
                assert(seen_covered(seen@, adj_list@, stack@)) by {
                    assert forall|k: Seq<char>| #[trigger] seq_find(seen@, k) is Some implies
                        seq_find(adj_list@, k) is Some || exists|t: int|
                        0 <= t < stack@.len() && (#[trigger] stack@[t]).1@ == k by {
                        crate::string_map::lemma_seq_find(adj_list@, k);
                        crate::string_map::lemma_seq_find(old_adj, k);
                        if seq_find(old_adj, k) is Some {
                            let j = seq_find(old_adj, k)->Some_0;
                            assert(old_adj[j].0 == k);
                            assert(adj_list@[j].0 == k);
                        } else if k == path@ {
                            assert(adj_list@[adj_list@.len() - 1].0 == k);
                        } else {
                            assert(seq_find(adj_list@, k) is Some || k == path@ || exists|t: int|
                                0 <= t < stack@.len() && (#[trigger] stack@[t]).1@ == k);
                        }
                    }
                }
                if crate::value::doc_wf(d) {
                    assert(seen_arises(d, seen@, adj_list@)) by {
                        let last = adj_list@.len() - 1;
                        assert(adj_list@[last].0 == path@);
                        assert(pointer::resolve(
                            d,
                            pointer::parse_pointer(adj_list@[last].0)->Some_0,
                        )->Ok_0 == *node);
                        assert forall|j: int| 0 <= j < seen@.len() implies (#[trigger] seen@[
                        j]).0 == seq!['#'] || exists|x: int|
                            0 <= x < adj_list@.len() && #[trigger] expanded_by(
                                d,
                                adj_list@,
                                x,
                                seen@[j].0,
                            ) by {
                            let k = seen@[j].0;
                            if k != seq!['#'] {
                                if in_expansion(d, *node, path@, k) {
                                    assert(expanded_by(d, adj_list@, last, k));
                                } else {
                                    let x = choose|x: int|
                                        0 <= x < old_adj.len() && #[trigger] expanded_by(
                                            d,
                                            old_adj,
                                            x,
                                            k,
                                        );
                                    assert(adj_list@[x] == old_adj[x]);
                                    assert(expanded_by(d, adj_list@, x, k)) by {
                                        let nodex = pointer::resolve(
                                            d,
                                            pointer::parse_pointer(old_adj[x].0)->Some_0,
                                        )->Ok_0;
                                        let y = choose|y: int|
                                            0 <= y < expand_children(
                                                d,
                                                nodex,
                                                old_adj[x].0,
                                            ).len() && #[trigger] expand_children(
                                                d,
                                                nodex,
                                                old_adj[x].0,
                                            )[y] == k;
                                        assert(expand_children(d, nodex, adj_list@[x].0)[y] == k);
                                    }
                                }
                            }
                        }
                    }
                }
            }
        }
        proof {
            crate::string_map::lemma_seq_find(adj_list@, seq!['#']);
            assert(seq_find(adj_list@, seq!['#']) is Some);
            if crate::value::doc_wf(d) {
                assert(adj_complete(d, adj_list@)) by {
                    assert forall|i: int| 0 <= i < adj_list@.len() implies (#[trigger] adj_list@[
                    i]).0 == seq!['#'] || exists|x: int|
                        0 <= x < adj_list@.len() && #[trigger] expanded_by(
                            d,
                            adj_list@,
                            x,
                            adj_list@[i].0,
                        ) by {
                        assert(seq_find(seen@, adj_list@[i].0) is Some);
                        crate::string_map::lemma_seq_find(seen@, adj_list@[i].0);
                        let j = seq_find(seen@, adj_list@[i].0)->Some_0;
                        assert(seen@[j].0 == adj_list@[i].0);
                    }
                }
            }
            assert forall|i: int, j: int|
                0 <= i < adj_list@.len() && 0 <= j < adj_list@[i].1.deep_view().len() implies
                seq_find(adj_list@, #[trigger] adj_list@[i].1.deep_view()[j]) is Some by {
                assert(seq_find(seen@, adj_list@[i].1.deep_view()[j]) is Some);
            }
        }
        Doc { adj_list, root }
    }
}

/// Marking a fresh path and pushing its node preserves the walk invariants.
proof fn lemma_mark_and_push(
    d: Value,
    old_seen: Seq<(Seq<char>, bool)>,
    new_seen: Seq<(Seq<char>, bool)>,
    old_stack: Seq<(&Value, String)>,
    new_stack: Seq<(&Value, String)>,
    adj: Seq<(Seq<char>, Vec<String>)>,
    path: Seq<char>,
    child: Seq<char>,
    child_node: Value,
)
    requires
        seq_find(old_seen, child) is None,
        new_seen == old_seen.push((child, true)),
        new_stack.drop_last() == old_stack,
        new_stack.len() == old_stack.len() + 1,
        new_stack.last().1@ == child,
        *new_stack.last().0 == child_node,
        subvalue(child_node, d),
        stack_wf(d, old_stack, old_seen, adj),
        adj_wf(old_seen, adj),
        seen_covered_mid(old_seen, adj, old_stack, path),
        seq_find(adj, path) is None,
        seq_find(old_seen, path) is Some,
        forall|t: int| 0 <= t < old_stack.len() ==> (#[trigger] old_stack[t]).1@ != path,
    ensures
        stack_wf(d, new_stack, new_seen, adj),
        adj_wf(new_seen, adj),
        seen_covered_mid(new_seen, adj, new_stack, path),
        seq_find(new_seen, path) is Some,
        seq_find(new_seen, child) is Some,
        forall|t: int| 0 <= t < new_stack.len() ==> (#[trigger] new_stack[t]).1@ != path,
        seen_set(new_seen) =~= seen_set(old_seen).insert(child),
        crate::value::unseen_strings(d, seen_set(new_seen)) <= crate::value::unseen_strings(
            d,
            seen_set(old_seen),
        ),
        forall|k: Seq<char>|
            #[trigger] seq_find(new_seen, k) is Some ==> seq_find(old_seen, k) is Some || k
                == child,
        forall|k: Seq<char>|
            #[trigger] seq_find(old_seen, k) is Some ==> seq_find(new_seen, k) is Some,
{
    crate::string_map::lemma_seq_find(old_seen, child);
    crate::string_map::lemma_seq_find(old_seen, path);
    assert forall|k: Seq<char>| #[trigger] seq_find(new_seen, k) is Some implies seq_find(
        old_seen,
        k,
    ) is Some || k == child by {
        crate::string_map::lemma_seq_find(new_seen, k);
        crate::string_map::lemma_seq_find(old_seen, k);
    }
    assert forall|k: Seq<char>| seq_find(old_seen, k) is Some || k == child implies #[trigger]
        seq_find(new_seen, k) is Some by {
        crate::string_map::lemma_seq_find(new_seen, k);
        crate::string_map::lemma_seq_find(old_seen, k);
        assert(new_seen[new_seen.len() - 1].0 == child);
        if k != child {
            let j = seq_find(old_seen, k)->Some_0;
            assert(old_seen[j].0 == k);
            assert(new_seen[j].0 == k);
        }
    }
    assert(seen_set(new_seen) =~= seen_set(old_seen).insert(child));
    crate::value::lemma_unseen_monotone(d, seen_set(old_seen), seen_set(new_seen));
    assert(forall|t: int|
        0 <= t < old_stack.len() ==> new_stack[t] == (#[trigger] old_stack[t]));
    assert(stack_wf(d, new_stack, new_seen, adj)) by {
        assert forall|t: int|
            0 <= t < new_stack.len() implies subvalue(*(#[trigger] new_stack[t]).0, d) by {
            if t < old_stack.len() {
                assert(new_stack[t] == old_stack[t]);
                assert(subvalue(*old_stack[t].0, d));
            } else {
                assert(*new_stack[t].0 == child_node);
            }
        }
        assert forall|t: int|
            0 <= t < new_stack.len() implies seq_find(
            new_seen,
            (#[trigger] new_stack[t]).1@,
        ) is Some by {
            if t < old_stack.len() {
                assert(new_stack[t] == old_stack[t]);
                assert(seq_find(old_seen, old_stack[t].1@) is Some);
            }
        }
        assert forall|t: int|
            0 <= t < new_stack.len() implies seq_find(adj, (#[trigger] new_stack[t]).1@)
            is None by {
            if t == old_stack.len() {
                crate::string_map::lemma_seq_find(adj, child);
                if seq_find(adj, child) is Some {
                    let j = seq_find(adj, child)->Some_0;
                    assert(adj[j].0 == child);
                    assert(seq_find(old_seen, adj[j].0) is Some);
                    assert(false);
                }
            } else {
                assert(new_stack[t] == old_stack[t]);
                assert(seq_find(adj, old_stack[t].1@) is None);
            }
        }
        assert forall|t1: int, t2: int|
            0 <= t1 < t2 < new_stack.len() implies (#[trigger] new_stack[t1]).1@ != (
        #[trigger] new_stack[t2]).1@ by {
            assert(new_stack[t1] == old_stack[t1]);
            if t2 == old_stack.len() {
                assert(seq_find(old_seen, old_stack[t1].1@) is Some);
                assert(new_stack[t2].1@ == child);
            } else {
                assert(new_stack[t2] == old_stack[t2]);
                assert(old_stack[t1].1@ != old_stack[t2].1@);
            }
        }
    }
    assert forall|t: int|
        0 <= t < new_stack.len() implies (#[trigger] new_stack[t]).1@ != path by {
        if t < old_stack.len() {
            assert(new_stack[t] == old_stack[t]);
            assert(old_stack[t].1@ != path);
        } else {
            assert(new_stack[t].1@ == child);
            if child == path {
                assert(seq_find(old_seen, path) is Some);
                assert(false);
            }
        }
    }
    assert(seen_covered_mid(new_seen, adj, new_stack, path)) by {
        assert forall|k: Seq<char>| #[trigger] seq_find(new_seen, k) is Some implies seq_find(
            adj,
            k,
        ) is Some || k == path || exists|t: int|
            0 <= t < new_stack.len() && (#[trigger] new_stack[t]).1@ == k by {
            if k == child {
                assert(new_stack[old_stack.len() as int].1@ == k);
            } else {
                assert(seq_find(old_seen, k) is Some);
                if seq_find(adj, k) is None && k != path {
                    let t = choose|t: int|
                        0 <= t < old_stack.len() && (#[trigger] old_stack[t]).1@ == k;
                    assert(new_stack[t].1@ == k);
                }
            }
        }
    }
}

/// Where `first_ref` finds a target at a known position, that entry is the
/// alias.
proof fn lemma_first_ref_index(doc: Value, entries: Seq<(String, Value)>, j: int)
    requires
        first_ref(doc, entries) is Some,
        0 <= j < entries.len(),
        forall|x: int|
            0 <= x < j ==> !((#[trigger] entries[x]).0@ == ref_key() && entries[x].1 is String
                && ref_target_ok(doc, entries[x].1->String_0@)),
        entries[j].0@ == ref_key() && entries[j].1 is String && ref_target_ok(
            doc,
            entries[j].1->String_0@,
        ),
    ensures
        entries[j].1->String_0@ == first_ref(doc, entries)->Some_0,
    decreases j,
{
    if j == 0 {
    } else {
        assert(forall|x: int|
            0 <= x < j - 1 ==> entries.drop_first()[x] == (#[trigger] entries[x + 1]));
        assert(entries.drop_first()[j - 1] == entries[j]);
        lemma_first_ref_index(doc, entries.drop_first(), j - 1);
    }
}

} // verus!
