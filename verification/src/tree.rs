//! Hierarchical reconstruction: a flat list of slash-separated entries
//! becomes a tree of path segments. A node may carry a value and children at
//! once — a key may both hold a value and prefix deeper keys — and an entry
//! whose stored value does not decode is skipped, never fatal.

use vstd::prelude::*;
use crate::codec::{decode_value, decoded_of};
use crate::entry::Entry;
use crate::keys::{
    join_path, lemma_lex_lt_irrefl, lemma_lex_lt_total, lemma_lex_lt_trans, lex_lt, path_of,
    slash_free, split_key, str_lt, wf_path,
};

verus! {

/// One segment of the namespace: an optional value owned by the key ending
/// here, and the children one segment deeper, keyed by segment name.
pub struct Node {
    pub value: Option<String>,
    pub children: Vec<(String, Node)>,
}

/// Child names are strictly ordered: unique and deterministic to walk.
pub open spec fn sorted_names(cs: Seq<(String, Node)>) -> bool {
    forall|i: int, j: int|
        0 <= i < j < cs.len() ==> lex_lt(#[trigger] cs[i].0@, #[trigger] cs[j].0@)
}

/// Well-formed tree: children sorted by name, names free of the separator,
/// every subtree well-formed.
pub open spec fn wf_node(n: Node) -> bool
    decreases n,
{
    &&& sorted_names(n.children@)
    &&& forall|i: int|
        0 <= i < n.children@.len() ==> slash_free(#[trigger] n.children@[i].0@)
    &&& forall|i: int| 0 <= i < n.children@.len() ==> wf_node(#[trigger] n.children@[i].1)
}

/// Whether some child bears the given segment name.
pub open spec fn has_child(cs: Seq<(String, Node)>, name: Seq<char>) -> bool {
    exists|i: int| 0 <= i < cs.len() && (#[trigger] cs[i].0)@ == name
}

/// The index of the child bearing the given name; unique when names are
/// distinct.
pub open spec fn child_index(cs: Seq<(String, Node)>, name: Seq<char>) -> int {
    choose|i: int| 0 <= i < cs.len() && (#[trigger] cs[i].0)@ == name
}

/// The value stored at a segment path below this node, if any: the node's
/// own value at the empty path, else the path followed one segment at a
/// time through the children.
pub open spec fn lookup(n: Node, p: Seq<Seq<char>>) -> Option<Seq<char>>
    decreases p.len(),
{
    if p.len() == 0 {
        match n.value {
            Some(v) => Some(v@),
            None => None,
        }
    } else if has_child(n.children@, p[0]) {
        lookup(n.children@[child_index(n.children@, p[0])].1, p.drop_first())
    } else {
        None
    }
}

/// The mathematical content of a tree: every segment path that ends at a
/// value, mapped to that value.
pub open spec fn node_map(n: Node) -> Map<Seq<Seq<char>>, Seq<char>> {
    Map::new(|p: Seq<Seq<char>>| lookup(n, p) is Some, |p: Seq<Seq<char>>| lookup(n, p)->0)
}

/// Sorted children never repeat a name.
pub proof fn lemma_sorted_distinct(cs: Seq<(String, Node)>)
    requires
        sorted_names(cs),
    ensures
        forall|i: int, j: int|
            0 <= i < cs.len() && 0 <= j < cs.len() && i != j ==> (#[trigger] cs[i].0)@ != (
            #[trigger] cs[j].0)@,
{
    assert forall|i: int, j: int|
        0 <= i < cs.len() && 0 <= j < cs.len() && i != j implies (cs[i].0)@ != (cs[j].0)@ by {
        if cs[i].0@ == cs[j].0@ {
            if i < j {
                assert(lex_lt(cs[i].0@, cs[j].0@));
            } else {
                assert(lex_lt(cs[j].0@, cs[i].0@));
            }
            lemma_lex_lt_irrefl(cs[i].0@);
        }
    }
}

/// With distinct names, `child_index` returns the one matching index.
pub proof fn lemma_child_index_is(cs: Seq<(String, Node)>, i: int)
    requires
        sorted_names(cs),
        0 <= i < cs.len(),
    ensures
        has_child(cs, cs[i].0@),
        child_index(cs, cs[i].0@) == i,
{
    lemma_sorted_distinct(cs);
    assert(has_child(cs, cs[i].0@));
    let j = child_index(cs, cs[i].0@);
    assert(0 <= j < cs.len() && cs[j].0@ == cs[i].0@);
}

/// Two non-empty sequences with the same head and the same tail are equal.
pub proof fn lemma_cons_eq(p: Seq<Seq<char>>, q: Seq<Seq<char>>)
    requires
        p.len() >= 1,
        q.len() >= 1,
        p[0] == q[0],
        p.drop_first() == q.drop_first(),
    ensures
        p == q,
{
    assert(p.drop_first().len() == p.len() - 1);
    assert(q.drop_first().len() == q.len() - 1);
    assert(p.drop_first().len() == q.drop_first().len());
    assert(p.len() == q.len());
    assert forall|k: int| 0 <= k < p.len() implies p[k] == q[k] by {
        if k > 0 {
            assert(p[k] == p.drop_first()[k - 1]);
            assert(q[k] == q.drop_first()[k - 1]);
        }
    }
    assert(p =~= q);
}

/// Builds the one-branch subtree holding `value` at the remaining segments
/// `segs[i..]`: its content is that single path and nothing else.
fn chain_for(segs: &Vec<String>, i: usize, value: String) -> (r: Node)
    requires
        i <= segs.len(),
        forall|j: int| 0 <= j < segs.deep_view().len() ==> slash_free(
            #[trigger] segs.deep_view()[j],
        ),
    ensures
        wf_node(r),
        forall|p: Seq<Seq<char>>| #[trigger] lookup(r, p) == (if p == segs.deep_view().skip(
            i as int,
        ) {
            Some(value@)
        } else {
            None::<Seq<char>>
        }),
        i < segs.len() ==> r.value is None,
    decreases segs.len() - i,
{
    let ghost dv = segs.deep_view();
    if i == segs.len() {
        let r = Node { value: Some(value), children: Vec::new() };
        proof {
            assert forall|p: Seq<Seq<char>>| #[trigger] lookup(r, p) == (if p == dv.skip(
                i as int,
            ) {
                Some(value@)
            } else {
                None::<Seq<char>>
            }) by {
                if p.len() == 0 {
                    assert(p =~= dv.skip(i as int));
                } else {
                    assert(!has_child(r.children@, p[0]));
                    assert(dv.skip(i as int).len() == 0);
                }
            }
        }
        r
    } else {
        let name = segs[i].clone();
        let child = chain_for(segs, i + 1, value);
        let mut cs: Vec<(String, Node)> = Vec::new();
        let ghost vv = value@;
        cs.push((name, child));
        let r = Node { value: None, children: cs };
        proof {
            assert(r.children@.len() == 1);
            assert(r.children@[0].0@ == dv[i as int]);
            assert(r.children@[0].1 == child);
            assert forall|p: Seq<Seq<char>>| #[trigger] lookup(r, p) == (if p == dv.skip(
                i as int,
            ) {
                Some(vv)
            } else {
                None::<Seq<char>>
            }) by {
                let rest = dv.skip(i + 1);
                let full = dv.skip(i as int);
                assert(full.len() == dv.len() - i >= 1);
                assert(full[0] == dv[i as int]);
                assert(full.drop_first() =~= rest);
                if p.len() == 0 {
                    assert(p != full);
                } else if p[0] == dv[i as int] {
                    lemma_child_index_is(r.children@, 0);
                    assert(lookup(r, p) == lookup(child, p.drop_first()));
                    if p.drop_first() == rest {
                        lemma_cons_eq(p, full);
                    } else {
                        assert(p != full) by {
                            if p == full {
                                assert(p.drop_first() == full.drop_first());
                            }
                        }
                    }
                } else {
                    assert(!has_child(r.children@, p[0]));
                    assert(p != full);
                }
            }
        }
        r
    }
}

/// Inserts `value` at the path `segs[i..]` below `n`, creating intermediate
/// nodes as needed: the tree's content gains (or replaces) exactly that one
/// binding.
pub fn insert_at(n: Node, segs: &Vec<String>, i: usize, value: String) -> (r: Node)
    requires
        wf_node(n),
        i <= segs.len(),
        forall|j: int| 0 <= j < segs.deep_view().len() ==> slash_free(
            #[trigger] segs.deep_view()[j],
        ),
    ensures
        wf_node(r),
        forall|p: Seq<Seq<char>>| #[trigger] lookup(r, p) == (if p == segs.deep_view().skip(
            i as int,
        ) {
            Some(value@)
        } else {
            lookup(n, p)
        }),
        i < segs.len() ==> r.value == n.value,
    decreases segs.len() - i,
{
    let ghost dv = segs.deep_view();
    let ghost n0 = n;
    let mut node = n;
    if i == segs.len() {
        node.value = Some(value);
        proof {
            assert forall|p: Seq<Seq<char>>| #[trigger] lookup(node, p) == (if p == dv.skip(
                i as int,
            ) {
                Some(value@)
            } else {
                lookup(n0, p)
            }) by {
                if p.len() == 0 {
                    assert(p =~= dv.skip(i as int));
                } else {
                    assert(dv.skip(i as int).len() == 0);
                    assert(node.children@ == n0.children@);
                }
            }
        }
        node
    } else {
        let ghost cs = node.children@;
        let ghost seg = dv[i as int];
        let clen = node.children.len();
        let mut j: usize = 0;
        while j < clen && str_lt(node.children[j].0.as_str(), segs[i].as_str())
            invariant
                j <= clen,
                clen == cs.len(),
                node.children@ == cs,
                seg == dv[i as int],
                i < segs.len(),
                dv == segs.deep_view(),
                forall|idx: int| 0 <= idx < j ==> lex_lt((#[trigger] cs[idx].0)@, seg),
            decreases clen - j,
        {
            j = j + 1;
        }
        proof {
            lemma_sorted_distinct(cs);
        }
        if j < clen && node.children[j].0 == segs[i] {
            // The segment already has a node: descend into it.
            let (cname, child) = node.children.remove(j);
            let child2 = insert_at(child, segs, i + 1, value);
            node.children.insert(j, (cname, child2));
            proof {
                assert(cname@ == seg);
                assert(node.children@ =~= cs.update(j as int, (cname, child2)));
                let cs2 = node.children@;
                assert(forall|idx: int|
                    0 <= idx < cs.len() ==> (#[trigger] cs2[idx].0)@ == cs[idx].0@);
                assert(forall|idx: int|
                    0 <= idx < cs.len() && idx != j ==> #[trigger] cs2[idx].1 == cs[idx].1);
                assert(cs2[j as int].1 == child2);
                assert(sorted_names(cs2));
                assert(wf_node(node)) by {
                    assert(forall|idx: int|
                        0 <= idx < cs2.len() ==> wf_node(#[trigger] cs2[idx].1));
                }
                let rest = dv.skip(i + 1);
                let full = dv.skip(i as int);
                assert(full.len() >= 1 && full[0] == seg);
                assert(full.drop_first() =~= rest);
                lemma_sorted_distinct(cs2);
                assert forall|p: Seq<Seq<char>>| #[trigger] lookup(node, p) == (if p == full {
                    Some(value@)
                } else {
                    lookup(n0, p)
                }) by {
                    if p.len() == 0 {
                        assert(p != full);
                        assert(node.value == n0.value);
                    } else if p[0] == seg {
                        lemma_child_index_is(cs2, j as int);
                        lemma_child_index_is(cs, j as int);
                        assert(lookup(node, p) == lookup(child2, p.drop_first()));
                        assert(lookup(n0, p) == lookup(child, p.drop_first()));
                        if p.drop_first() == rest {
                            lemma_cons_eq(p, full);
                        } else {
                            assert(p != full) by {
                                if p == full {
                                    assert(p.drop_first() == full.drop_first());
                                }
                            }
                        }
                    } else {
                        assert(p != full);
                        if has_child(cs, p[0]) {
                            let idx = child_index(cs, p[0]);
                            lemma_child_index_is(cs, idx);
                            assert(cs2[idx].0@ == p[0]);
                            lemma_child_index_is(cs2, idx);
                            assert(idx != j);
                            assert(lookup(node, p) == lookup(cs2[idx].1, p.drop_first()));
                            assert(lookup(n0, p) == lookup(cs[idx].1, p.drop_first()));
                        } else {
                            assert(!has_child(cs2, p[0])) by {
                                if has_child(cs2, p[0]) {
                                    let idx = child_index(cs2, p[0]);
                                    assert(cs[idx].0@ == p[0]);
                                }
                            }
                        }
                    }
                }
            }
            node
        } else {
            // No node for this segment yet: graft the remaining path here,
            // keeping the children ordered.
            proof {
                if j < clen {
                    assert(!lex_lt(cs[j as int].0@, seg));
                    assert(cs[j as int].0@ != seg);
                    lemma_lex_lt_total(cs[j as int].0@, seg);
                    assert(lex_lt(seg, cs[j as int].0@));
                }
                assert forall|idx: int| j <= idx < cs.len() implies lex_lt(
                    seg,
                    (#[trigger] cs[idx].0)@,
                ) by {
                    if idx > j {
                        assert(lex_lt(cs[j as int].0@, cs[idx].0@));
                        lemma_lex_lt_trans(seg, cs[j as int].0@, cs[idx].0@);
                    }
                }
                assert forall|idx: int| 0 <= idx < cs.len() implies (#[trigger] cs[idx].0)@
                    != seg by {
                    if idx < j {
                        if cs[idx].0@ == seg {
                            lemma_lex_lt_irrefl(seg);
                        }
                    } else {
                        if cs[idx].0@ == seg {
                            lemma_lex_lt_irrefl(seg);
                        }
                    }
                }
            }
            let sub = chain_for(segs, i + 1, value);
            let cname = segs[i].clone();
            node.children.insert(j, (cname, sub));
            proof {
                let cs2 = node.children@;
                assert(cs2 == cs.insert(j as int, (cname, sub)));
                cs.insert_ensures(j as int, (cname, sub));
                assert(cs2[j as int].0@ == seg && cs2[j as int].1 == sub);
                assert(forall|idx: int| 0 <= idx < j ==> #[trigger] cs2[idx] == cs[idx]);
                assert(forall|idx: int|
                    j < idx < cs2.len() ==> #[trigger] cs2[idx] == cs[idx - 1]);
                assert(sorted_names(cs2)) by {
                    assert forall|a: int, b: int| 0 <= a < b < cs2.len() implies lex_lt(
                        (#[trigger] cs2[a].0)@,
                        (#[trigger] cs2[b].0)@,
                    ) by {
                        if a < j && b < j {
                        } else if a < j && b == j {
                            assert(lex_lt(cs[a].0@, seg));
                        } else if a < j && b > j {
                            assert(lex_lt(cs[a].0@, cs[b - 1].0@));
                        } else if a == j {
                            assert(lex_lt(seg, cs[b - 1].0@));
                        } else {
                            assert(lex_lt(cs[a - 1].0@, cs[b - 1].0@));
                        }
                    }
                }
                assert(wf_node(node)) by {
                    assert(forall|idx: int|
                        0 <= idx < cs2.len() ==> slash_free((#[trigger] cs2[idx].0)@));
                    assert(forall|idx: int|
                        0 <= idx < cs2.len() ==> wf_node(#[trigger] cs2[idx].1));
                }
                let rest = dv.skip(i + 1);
                let full = dv.skip(i as int);
                assert(full.len() >= 1 && full[0] == seg);
                assert(full.drop_first() =~= rest);
                lemma_sorted_distinct(cs2);
                assert forall|p: Seq<Seq<char>>| #[trigger] lookup(node, p) == (if p == full {
                    Some(value@)
                } else {
                    lookup(n0, p)
                }) by {
                    if p.len() == 0 {
                        assert(p != full);
                        assert(node.value == n0.value);
                    } else if p[0] == seg {
                        lemma_child_index_is(cs2, j as int);
                        assert(lookup(node, p) == lookup(sub, p.drop_first()));
                        assert(!has_child(cs, p[0])) by {
                            if has_child(cs, p[0]) {
                                let idx = child_index(cs, p[0]);
                                assert(cs[idx].0@ == seg);
                            }
                        }
                        assert(lookup(n0, p) is None);
                        if p.drop_first() == rest {
                            lemma_cons_eq(p, full);
                        } else {
                            assert(p != full) by {
                                if p == full {
                                    assert(p.drop_first() == full.drop_first());
                                }
                            }
                        }
                    } else {
                        assert(p != full);
                        if has_child(cs, p[0]) {
                            let idx = child_index(cs, p[0]);
                            lemma_child_index_is(cs, idx);
                            let idx2: int = if idx < j {
                                idx
                            } else {
                                idx + 1
                            };
                            assert(cs2[idx2].0@ == p[0] && cs2[idx2].1 == cs[idx].1);
                            lemma_child_index_is(cs2, idx2);
                            assert(lookup(node, p) == lookup(cs2[idx2].1, p.drop_first()));
                            assert(lookup(n0, p) == lookup(cs[idx].1, p.drop_first()));
                        } else {
                            assert(!has_child(cs2, p[0])) by {
                                if has_child(cs2, p[0]) {
                                    let idx2 = child_index(cs2, p[0]);
                                    assert(cs2[idx2].0@ == p[0]);
                                    if idx2 < j {
                                        assert(cs[idx2].0@ == p[0]);
                                    } else if idx2 == j {
                                        assert(p[0] == seg);
                                    } else {
                                        assert(cs[idx2 - 1].0@ == p[0]);
                                    }
                                }
                            }
                        }
                    }
                }
            }
            node
        }
    }
}

/// Pointwise replacement of one binding, stated over the whole tree map.
pub proof fn lemma_node_map_insert(n1: Node, n2: Node, p0: Seq<Seq<char>>, v: Seq<char>)
    requires
        forall|p: Seq<Seq<char>>| #[trigger] lookup(n2, p) == (if p == p0 {
            Some(v)
        } else {
            lookup(n1, p)
        }),
    ensures
        node_map(n2) == node_map(n1).insert(p0, v),
{
    let lhs = node_map(n2);
    let rhs = node_map(n1).insert(p0, v);
    assert forall|p: Seq<Seq<char>>| lhs.dom().contains(p) <==> rhs.dom().contains(p) by {
        assert(lookup(n2, p) == (if p == p0 {
            Some(v)
        } else {
            lookup(n1, p)
        }));
    }
    assert forall|p: Seq<Seq<char>>| lhs.dom().contains(p) implies lhs[p] == rhs[p] by {
        assert(lookup(n2, p) == (if p == p0 {
            Some(v)
        } else {
            lookup(n1, p)
        }));
    }
    assert(lhs =~= rhs);
}

/// The flat mapping an entry list denotes, keyed by segment paths: later
/// entries overwrite earlier ones, and an entry whose stored value does not
/// decode contributes nothing.
pub open spec fn entries_path_map(es: Seq<Entry>) -> Map<Seq<Seq<char>>, Seq<char>>
    decreases es.len(),
{
    if es.len() == 0 {
        Map::empty()
    } else {
        let m = entries_path_map(es.drop_last());
        match decoded_of(es.last().value@) {
            Some(v) => m.insert(path_of(es.last().key@), v),
            None => m,
        }
    }
}

/// The flat mapping an entry list denotes, keyed by the keys themselves:
/// later entries overwrite earlier ones, and an entry whose stored value
/// does not decode contributes nothing.
pub open spec fn entries_flat_map(es: Seq<Entry>) -> Map<Seq<char>, Seq<char>>
    decreases es.len(),
{
    if es.len() == 0 {
        Map::empty()
    } else {
        let m = entries_flat_map(es.drop_last());
        match decoded_of(es.last().value@) {
            Some(v) => m.insert(es.last().key@, v),
            None => m,
        }
    }
}

/// Builds the path tree of an entry list: each key's segment path is walked
/// or created and the terminal node takes the decoded value. A duplicate
/// key's later entry wins; an entry whose value does not decode is skipped,
/// never fatal.
pub fn build_tree(entries: &Vec<Entry>) -> (r: Node)
    ensures
        wf_node(r),
        r.value is None,
        node_map(r) == entries_path_map(entries@),
{
    let mut root = Node { value: None, children: Vec::new() };
    proof {
        assert(forall|p: Seq<Seq<char>>| #[trigger] lookup(root, p) is None);
        assert(node_map(root) =~= entries_path_map(entries@.take(0)));
    }
    let n = entries.len();
    let mut idx: usize = 0;
    while idx < n
        invariant
            idx <= n,
            n == entries@.len(),
            wf_node(root),
            root.value is None,
            node_map(root) == entries_path_map(entries@.take(idx as int)),
        decreases n - idx,
    {
        let ghost pre = root;
        let ghost e = entries@[idx as int];
        proof {
            assert(entries@.take(idx + 1).drop_last() =~= entries@.take(idx as int));
            assert(entries@.take(idx + 1).last() == e);
        }
        match decode_value(entries[idx].value.as_str()) {
            Some(text) => {
                let ghost tv = text@;
                let segs = split_key(entries[idx].key.as_str());
                let ghost dv = segs.deep_view();
                proof {
                    assert(dv.skip(0) =~= dv);
                }
                root = insert_at(root, &segs, 0, text);
                proof {
                    assert forall|p: Seq<Seq<char>>| #[trigger] lookup(root, p) == (if p
                        == dv {
                        Some(tv)
                    } else {
                        lookup(pre, p)
                    }) by {
                        assert(lookup(root, p) == (if p == dv.skip(0) {
                            Some(tv)
                        } else {
                            lookup(pre, p)
                        }));
                    }
                    lemma_node_map_insert(pre, root, dv, tv);
                    assert(dv == path_of(e.key@));
                    assert(decoded_of(e.value@) == Some(tv));
                }
            },
            None => {
                proof {
                    assert(decoded_of(e.value@) is None);
                }
            },
        }
        idx = idx + 1;
    }
    proof {
        assert(entries@.take(n as int) =~= entries@);
    }
    root
}

/// The flat projection of a tree: every value-bearing segment path, keyed
/// by its joined key.
pub open spec fn flatten(n: Node) -> Map<Seq<char>, Seq<char>> {
    Map::new(
        |k: Seq<char>|
            exists|p: Seq<Seq<char>>|
                #![trigger join_path(p)]
                wf_path(p) && join_path(p) == k && lookup(n, p) is Some,
        |k: Seq<char>| lookup(n, path_of(k))->0,
    )
}

/// Every key has a segmentation: splitting is total.
pub proof fn lemma_path_exists(k: Seq<char>)
    ensures
        wf_path(path_of(k)),
        join_path(path_of(k)) == k,
    decreases k.len(),
{
    if slash_free(k) {
        let w = seq![k];
        assert(wf_path(w));
        assert(join_path(w) == k);
    } else {
        assert(k.len() >= 1);
        lemma_path_exists(k.drop_first());
        let w0 = path_of(k.drop_first());
        if k[0] == '/' {
            let w = seq![Seq::<char>::empty()] + w0;
            assert(w.len() == w0.len() + 1 >= 2);
            assert(w[0] == Seq::<char>::empty());
            assert(w.drop_first() =~= w0);
            assert(wf_path(w)) by {
                assert(forall|i: int| 1 <= i < w.len() ==> w[i] == w0[i - 1]);
            }
            assert(join_path(w) == w[0] + seq!['/'] + join_path(w0));
            assert(join_path(w) =~= k) by {
                assert(join_path(w).len() == 1 + k.drop_first().len());
                assert(join_path(w)[0] == '/');
                assert(forall|i: int|
                    1 <= i < k.len() ==> #[trigger] join_path(w)[i] == k.drop_first()[i - 1]);
                assert(forall|i: int| 1 <= i < k.len() ==> k.drop_first()[i - 1] == k[i]);
            }
        } else {
            let first = seq![k[0]] + w0[0];
            let w = w0.update(0, first);
            assert(w.len() == w0.len());
            assert(w[0] == first);
            assert(slash_free(first)) by {
                assert(forall|i: int| 1 <= i < first.len() ==> first[i] == w0[0][i - 1]);
            }
            assert(wf_path(w)) by {
                assert(forall|i: int| 1 <= i < w.len() ==> w[i] == w0[i]);
            }
            if w0.len() == 1 {
                assert(join_path(w0) == w0[0]);
                assert(join_path(w) == first);
                assert(join_path(w) =~= k) by {
                    assert(forall|i: int|
                        1 <= i < k.len() ==> first[i] == w0[0][i - 1] && w0[0][i - 1] == k[i]);
                }
            } else {
                assert(w.drop_first() =~= w0.drop_first());
                assert(join_path(w) == first + seq!['/'] + join_path(w0.drop_first()));
                assert(join_path(w0) == w0[0] + seq!['/'] + join_path(w0.drop_first()));
                assert(join_path(w) =~= k) by {
                    let tail = seq!['/'] + join_path(w0.drop_first());
                    assert(join_path(w0).len() == w0[0].len() + tail.len());
                    assert(join_path(w).len() == first.len() + tail.len());
                    assert(k.len() == 1 + join_path(w0).len());
                    assert forall|i: int| 0 <= i < k.len() implies join_path(w)[i] == k[i] by {
                        if i == 0 {
                            assert(join_path(w)[0] == first[0]);
                        } else if i < first.len() {
                            assert(join_path(w)[i] == first[i]);
                            assert(first[i] == w0[0][i - 1]);
                            assert(k[i] == k.drop_first()[i - 1]);
                            assert(k.drop_first()[i - 1] == join_path(w0)[i - 1]);
                            assert(join_path(w0)[i - 1] == w0[0][i - 1]);
                        } else {
                            assert(join_path(w)[i] == tail[i - first.len()]);
                            assert(k[i] == k.drop_first()[i - 1]);
                            assert(k.drop_first()[i - 1] == join_path(w0)[i - 1]);
                            assert(join_path(w0)[i - 1] == tail[i - 1 - w0[0].len()]);
                        }
                    }
                }
            }
        }
        assert(exists|segs: Seq<Seq<char>>| wf_path(segs) && join_path(segs) == k);
    }
}

/// The path-keyed and key-keyed renderings of an entry list carry the same
/// bindings, connected by joining and splitting.
pub proof fn lemma_entries_maps_correspond(es: Seq<Entry>)
    ensures
        forall|p: Seq<Seq<char>>| #[trigger] entries_path_map(es).dom().contains(p)
            ==> wf_path(p) && p == path_of(join_path(p)) && entries_flat_map(
            es,
        ).dom().contains(join_path(p)) && entries_flat_map(es)[join_path(p)]
            == entries_path_map(es)[p],
        forall|k: Seq<char>| #[trigger] entries_flat_map(es).dom().contains(k)
            ==> entries_path_map(es).dom().contains(path_of(k)) && join_path(path_of(k)) == k
            && entries_path_map(es)[path_of(k)] == entries_flat_map(es)[k],
    decreases es.len(),
{
    if es.len() > 0 {
        lemma_entries_maps_correspond(es.drop_last());
        let e = es.last();
        let m0 = entries_path_map(es.drop_last());
        let f0 = entries_flat_map(es.drop_last());
        let m = entries_path_map(es);
        let f = entries_flat_map(es);
        match decoded_of(e.value@) {
            None => {
                assert(m == m0);
                assert(f == f0);
            },
            Some(v) => {
                lemma_path_exists(e.key@);
                let ke = e.key@;
                let pe = path_of(ke);
                assert(join_path(pe) == ke);
                assert(path_of(join_path(pe)) == pe);
                assert(m == m0.insert(pe, v));
                assert(f == f0.insert(ke, v));
                assert forall|p: Seq<Seq<char>>| #[trigger] m.dom().contains(p) implies wf_path(
                    p,
                ) && p == path_of(join_path(p)) && f.dom().contains(join_path(p)) && f[join_path(
                    p,
                )] == m[p] by {
                    if p == pe {
                        assert(f.dom().contains(ke));
                        assert(f[ke] == v && m[pe] == v);
                    } else {
                        assert(m0.dom().contains(p));
                        assert(wf_path(p) && p == path_of(join_path(p)));
                        assert(f0.dom().contains(join_path(p)) && f0[join_path(p)] == m0[p]);
                        if join_path(p) == ke {
                            assert(p == path_of(ke));
                            assert(false);
                        }
                        assert(f.dom().contains(join_path(p)));
                        assert(f[join_path(p)] == f0[join_path(p)]);
                        assert(m[p] == m0[p]);
                    }
                }
                assert forall|k: Seq<char>| #[trigger] f.dom().contains(k) implies m.dom().contains(
                    path_of(k),
                ) && join_path(path_of(k)) == k && m[path_of(k)] == f[k] by {
                    if k == ke {
                        assert(m.dom().contains(pe));
                        assert(m[pe] == v && f[ke] == v);
                    } else {
                        assert(f0.dom().contains(k));
                        assert(m0.dom().contains(path_of(k)) && join_path(path_of(k)) == k
                            && m0[path_of(k)] == f0[k]);
                        if path_of(k) == pe {
                            assert(join_path(pe) == k);
                            assert(false);
                        }
                        assert(m.dom().contains(path_of(k)));
                        assert(m[path_of(k)] == m0[path_of(k)]);
                        assert(f[k] == f0[k]);
                    }
                }
            },
        }
    }
}

/// Flattening a tree that holds an entry list's path map yields exactly the
/// list's own flat key-to-value mapping — the invariant of the flat form:
/// `flatten(buildTree(entries)) == { entry.key: entry.value }`.
pub proof fn lemma_flatten_build(n: Node, es: Seq<Entry>)
    requires
        node_map(n) == entries_path_map(es),
    ensures
        flatten(n) == entries_flat_map(es),
{
    lemma_entries_maps_correspond(es);
    let f = flatten(n);
    let fe = entries_flat_map(es);
    let m = entries_path_map(es);
    assert forall|k: Seq<char>| f.dom().contains(k) implies fe.dom().contains(k) by {
        let p = choose|p: Seq<Seq<char>>|
            #![trigger join_path(p)]
            wf_path(p) && join_path(p) == k && lookup(n, p) is Some;
        assert(node_map(n).dom().contains(p));
        assert(fe.dom().contains(join_path(p)));
    }
    assert forall|k: Seq<char>| fe.dom().contains(k) implies f.dom().contains(k) by {
        let p = path_of(k);
        assert(m.dom().contains(p));
        assert(node_map(n).dom().contains(p));
        assert(lookup(n, p) is Some);
        assert(wf_path(p) && join_path(p) == k);
    }
    assert forall|k: Seq<char>| f.dom().contains(k) implies f[k] == fe[k] by {
        let p = path_of(k);
        assert(fe.dom().contains(k));
        assert(m.dom().contains(p) && join_path(p) == k);
        assert(node_map(n).dom().contains(p));
        assert(lookup(n, p) is Some);
        assert(f[k] == lookup(n, p)->0);
        assert(node_map(n)[p] == lookup(n, p)->0);
        assert(m[p] == fe[k]);
    }
    assert(f =~= fe);
}

/// What the key-keyed mapping holds at entry `i`'s key, when no later entry
/// reuses that key: exactly entry `i`'s decoded value.
pub proof fn lemma_entries_flat_at(es: Seq<Entry>, i: int)
    requires
        0 <= i < es.len(),
        decoded_of(es[i].value@) is Some,
        forall|j: int| i < j < es.len() ==> (#[trigger] es[j].key)@ != es[i].key@,
    ensures
        entries_flat_map(es).contains_pair(es[i].key@, decoded_of(es[i].value@)->0),
    decreases es.len(),
{
    if i == es.len() - 1 {
        assert(es.last() == es[i]);
    } else {
        assert(es.drop_last()[i] == es[i]);
        lemma_entries_flat_at(es.drop_last(), i);
        assert(es.last() == es[es.len() - 1]);
        assert(es.last().key@ != es[i].key@);
    }
}

/// The keys of the key-keyed mapping are exactly the keys of entries whose
/// values decode.
pub proof fn lemma_entries_flat_dom(es: Seq<Entry>)
    ensures
        forall|k: Seq<char>| #[trigger] entries_flat_map(es).dom().contains(k) <==> exists|i: int|
            0 <= i < es.len() && (#[trigger] es[i].key)@ == k && decoded_of(es[i].value@) is Some,
    decreases es.len(),
{
    if es.len() > 0 {
        lemma_entries_flat_dom(es.drop_last());
        let e = es.last();
        assert(e == es[es.len() - 1]);
        assert forall|k: Seq<char>| #[trigger] entries_flat_map(es).dom().contains(k) implies exists|
            i: int,
        | 0 <= i < es.len() && (#[trigger] es[i].key)@ == k && decoded_of(es[i].value@) is Some by {
            if decoded_of(e.value@) is Some && k == e.key@ {
                assert((es[es.len() - 1].key)@ == k);
            } else {
                assert(entries_flat_map(es.drop_last()).dom().contains(k));
                let i = choose|i: int|
                    0 <= i < es.drop_last().len() && (#[trigger] es.drop_last()[i].key)@ == k
                        && decoded_of(es.drop_last()[i].value@) is Some;
                assert((es[i].key)@ == k && decoded_of(es[i].value@) is Some);
            }
        }
        assert forall|k: Seq<char>|
            (exists|i: int|
                0 <= i < es.len() && (#[trigger] es[i].key)@ == k && decoded_of(
                    es[i].value@,
                ) is Some) implies #[trigger] entries_flat_map(es).dom().contains(k) by {
            let i = choose|i: int|
                0 <= i < es.len() && (#[trigger] es[i].key)@ == k && decoded_of(
                    es[i].value@,
                ) is Some;
            if i < es.len() - 1 {
                assert((es.drop_last()[i].key)@ == k && decoded_of(
                    es.drop_last()[i].value@,
                ) is Some);
                assert(entries_flat_map(es.drop_last()).dom().contains(k));
            }
        }
    }
}

/// With pairwise distinct keys, the key-keyed mapping has one key per entry
/// that decodes.
pub proof fn lemma_entries_flat_card(es: Seq<Entry>, bad: Set<int>)
    requires
        forall|i: int, j: int|
            0 <= i < j < es.len() ==> (#[trigger] es[i].key)@ != (#[trigger] es[j].key)@,
        forall|i: int|
            0 <= i < es.len() ==> (bad.contains(i) <==> decoded_of(
                (#[trigger] es[i]).value@,
            ) is None),
        bad.subset_of(Set::new(|i: int| 0 <= i < es.len())),
        bad.finite(),
    ensures
        entries_flat_map(es).dom().finite(),
        entries_flat_map(es).dom().len() + bad.len() == es.len(),
    decreases es.len(),
{
    let f = entries_flat_map(es);
    if es.len() == 0 {
        assert(f.dom() =~= Set::<Seq<char>>::empty());
        assert(bad =~= Set::<int>::empty());
    } else {
        let e = es.last();
        let n = es.len() - 1;
        let bad0 = bad.remove(n);
        assert(bad0.subset_of(Set::new(|i: int| 0 <= i < es.drop_last().len())));
        lemma_entries_flat_card(es.drop_last(), bad0);
        let f0 = entries_flat_map(es.drop_last());
        lemma_entries_flat_dom(es.drop_last());
        assert(e == es[n]);
        if decoded_of(e.value@) is Some {
            assert(!f0.dom().contains(e.key@)) by {
                if f0.dom().contains(e.key@) {
                    let i = choose|i: int|
                        0 <= i < es.drop_last().len() && (#[trigger] es.drop_last()[i].key)@
                            == e.key@ && decoded_of(es.drop_last()[i].value@) is Some;
                    assert((es[i].key)@ == (es[n].key)@);
                }
            }
            assert(f.dom() =~= f0.dom().insert(e.key@));
            assert(f.dom().len() == f0.dom().len() + 1);
            assert(!bad.contains(n));
            assert(bad0 =~= bad);
        } else {
            assert(f == f0);
            assert(bad.contains(n));
            assert(bad0.len() == bad.len() - 1);
        }
    }
}

/// Build tolerance: among distinct-keyed entries of which exactly one fails
/// to decode, the flattened tree misses exactly that entry's leaf; every
/// other entry's binding is present, and the tree carries exactly one value
/// fewer than there are entries.
pub proof fn lemma_build_tolerates_bad_value(n: Node, es: Seq<Entry>, b: int)
    requires
        node_map(n) == entries_path_map(es),
        forall|i: int, j: int|
            0 <= i < j < es.len() ==> (#[trigger] es[i].key)@ != (#[trigger] es[j].key)@,
        0 <= b < es.len(),
        decoded_of(es[b].value@) is None,
        forall|i: int|
            0 <= i < es.len() && i != b ==> decoded_of((#[trigger] es[i]).value@) is Some,
    ensures
        flatten(n).dom().finite(),
        flatten(n).dom().len() == es.len() - 1,
        !flatten(n).dom().contains(es[b].key@),
        forall|i: int|
            0 <= i < es.len() && i != b ==> flatten(n).contains_pair(
                (#[trigger] es[i].key)@,
                decoded_of(es[i].value@)->0,
            ),
{
    lemma_flatten_build(n, es);
    lemma_entries_flat_dom(es);
    let bad = Set::new(|i: int| i == b);
    assert(bad =~= Set::<int>::empty().insert(b));
    assert(bad.finite() && bad.len() == 1);
    lemma_entries_flat_card(es, bad);
    assert(!entries_flat_map(es).dom().contains(es[b].key@)) by {
        if entries_flat_map(es).dom().contains(es[b].key@) {
            let i = choose|i: int|
                0 <= i < es.len() && (#[trigger] es[i].key)@ == es[b].key@ && decoded_of(
                    es[i].value@,
                ) is Some;
            if i < b {
                assert((es[i].key)@ != (es[b].key)@);
            } else if i > b {
                assert((es[b].key)@ != (es[i].key)@);
            }
        }
    }
    assert forall|i: int| 0 <= i < es.len() && i != b implies flatten(n).contains_pair(
        (#[trigger] es[i].key)@,
        decoded_of(es[i].value@)->0,
    ) by {
        assert forall|j: int| i < j < es.len() implies (#[trigger] es[j].key)@ != es[i].key@ by {
            assert((es[i].key)@ != (es[j].key)@);
        }
        lemma_entries_flat_at(es, i);
    }
}

/// No data loss where a key prefixes a deeper key: both entries' bindings
/// survive flattening, so a node owning a value while carrying children is
/// a valid shape that round-trips.
pub proof fn lemma_no_data_loss(n: Node, es: Seq<Entry>, i: int, j: int)
    requires
        node_map(n) == entries_path_map(es),
        forall|a: int, b: int|
            0 <= a < b < es.len() ==> (#[trigger] es[a].key)@ != (#[trigger] es[b].key)@,
        0 <= i < es.len(),
        0 <= j < es.len(),
        i != j,
        decoded_of(es[i].value@) is Some,
        decoded_of(es[j].value@) is Some,
    ensures
        flatten(n).contains_pair((es[i].key)@, decoded_of(es[i].value@)->0),
        flatten(n).contains_pair((es[j].key)@, decoded_of(es[j].value@)->0),
{
    lemma_flatten_build(n, es);
    assert forall|b: int| i < b < es.len() implies (#[trigger] es[b].key)@ != es[i].key@ by {
        assert((es[i].key)@ != (es[b].key)@);
    }
    assert forall|b: int| j < b < es.len() implies (#[trigger] es[b].key)@ != es[j].key@ by {
        assert((es[j].key)@ != (es[b].key)@);
    }
    lemma_entries_flat_at(es, i);
    lemma_entries_flat_at(es, j);
}

} // verus!
