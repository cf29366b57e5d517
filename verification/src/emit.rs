//! Tree display: a pre-order walk that prints one line per node, indented
//! four columns per depth. The synthetic root is never printed; a node with
//! a value prints `name: value`; a bare grouping node prints `name:`; a node
//! with both prints its value line and its children, nothing twice. Children
//! are walked in stored (name) order, so the output is a pure function of
//! the tree.

use vstd::prelude::*;
use vstd::string::StringExecFns;
use crate::tree::Node;

verus! {

/// The lines one named subtree prints, at the given indentation.
pub open spec fn emit_node_spec(name: Seq<char>, n: Node, ind: Seq<char>) -> Seq<Seq<char>>
    decreases n, 1int,
{
    let own = match n.value {
        Some(v) => seq![ind + name + (": ")@ + v@],
        None => if name.len() > 0 {
            seq![ind + name + (":")@]
        } else {
            Seq::empty()
        },
    };
    own + emit_children_spec(n.children@, ind + ("    ")@)
}

/// The lines a child sequence prints, in order, at the given indentation.
pub open spec fn emit_children_spec(cs: Seq<(String, Node)>, ind: Seq<char>) -> Seq<Seq<char>>
    decreases cs, 0int,
{
    if cs.len() == 0 {
        Seq::empty()
    } else {
        emit_node_spec(cs[0].0@, cs[0].1, ind) + emit_children_spec(cs.drop_first(), ind)
    }
}

/// Splitting a child sequence splits its lines.
pub proof fn lemma_emit_children_concat(
    c1: Seq<(String, Node)>,
    c2: Seq<(String, Node)>,
    ind: Seq<char>,
)
    ensures
        emit_children_spec(c1 + c2, ind) == emit_children_spec(c1, ind) + emit_children_spec(
            c2,
            ind,
        ),
    decreases c1.len(),
{
    if c1.len() == 0 {
        assert(c1 + c2 =~= c2);
        assert(emit_children_spec(c1, ind) + emit_children_spec(c2, ind) =~= emit_children_spec(
            c2,
            ind,
        ));
    } else {
        assert((c1 + c2)[0] == c1[0]);
        assert((c1 + c2).len() > 0);
        assert((c1 + c2).drop_first() =~= c1.drop_first() + c2);
        lemma_emit_children_concat(c1.drop_first(), c2, ind);
        assert(emit_children_spec(c1 + c2, ind) =~= emit_children_spec(c1, ind)
            + emit_children_spec(c2, ind));
    }
}

/// Prints one named subtree into `out`.
fn emit_node(name: &String, n: &Node, ind: &String, out: &mut Vec<String>)
    ensures
        final(out).deep_view() == old(out).deep_view() + emit_node_spec(name@, *n, ind@),
    decreases n, 1nat,
{
    let ghost out0 = out.deep_view();
    match &n.value {
        Some(v) => {
            let mut line = String::new();
            line.append(ind.as_str());
            line.append(name.as_str());
            line.append(": ");
            line.append(v.as_str());
            out.push(line);
            proof {
                assert(out.deep_view() =~= out0 + seq![ind@ + name@ + (": ")@ + v@]);
            }
        },
        None => {
            if !name.as_str().is_empty() {
                let mut line = String::new();
                line.append(ind.as_str());
                line.append(name.as_str());
                line.append(":");
                out.push(line);
                proof {
                    assert(out.deep_view() =~= out0 + seq![ind@ + name@ + (":")@]);
                }
            } else {
                proof {
                    assert(out.deep_view() =~= out0 + Seq::<Seq<char>>::empty());
                }
            }
        },
    }
    let mut ind2 = String::new();
    ind2.append(ind.as_str());
    ind2.append("    ");
    emit_children(&n.children, &ind2, out);
    proof {
        assert(out.deep_view() =~= out0 + emit_node_spec(name@, *n, ind@));
    }
}

/// Prints a child sequence into `out`, in stored order.
fn emit_children(cs: &Vec<(String, Node)>, ind: &String, out: &mut Vec<String>)
    ensures
        final(out).deep_view() == old(out).deep_view() + emit_children_spec(cs@, ind@),
    decreases cs@, 0nat,
{
    let ghost out0 = out.deep_view();
    let n = cs.len();
    let mut j: usize = 0;
    while j < n
        invariant
            j <= n,
            n == cs@.len(),
            out.deep_view() == out0 + emit_children_spec(cs@.take(j as int), ind@),
        decreases n - j,
    {
        proof {
            let single = seq![cs@[j as int]];
            assert(cs@.take(j + 1) =~= cs@.take(j as int) + single);
            lemma_emit_children_concat(cs@.take(j as int), single, ind@);
            assert(single.len() == 1);
            assert(single[0] == cs@[j as int]);
            let e = single.drop_first();
            assert(e =~= Seq::<(String, Node)>::empty());
            assert(emit_children_spec(e, ind@) == Seq::<Seq<char>>::empty());
            assert(emit_children_spec(single, ind@) =~= emit_node_spec(
                cs@[j as int].0@,
                cs@[j as int].1,
                ind@,
            ));
        }
        emit_node(&cs[j].0, &cs[j].1, ind, out);
        j = j + 1;
    }
    proof {
        assert(cs@.take(n as int) =~= cs@);
    }
}

/// The display of a whole tree: the root's children and their
/// subtrees, one line per printed node. A pure function of the tree — equal
/// trees print equal lines — and, on a well-formed tree, children appear
/// sorted by name.
pub fn emit_tree(root: &Node) -> (lines: Vec<String>)
    ensures
        lines.deep_view() == emit_children_spec(root.children@, Seq::<char>::empty()),
{
    let mut out: Vec<String> = Vec::new();
    let ind = String::new();
    emit_children(&root.children, &ind, &mut out);
    proof {
        assert(out.deep_view() =~= emit_children_spec(root.children@, Seq::<char>::empty()));
    }
    out
}

} // verus!
