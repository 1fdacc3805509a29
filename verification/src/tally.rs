//! What a parse result holds: how many tree nodes, and how many bytes of token
//! texts.

use vstd::prelude::*;
use crate::lexer;
use crate::lexer::char_width;
use crate::output;
use crate::output::GSlot;
use crate::perf;
use crate::text::chars_of;
use crate::tree;
use crate::tree::{Child, ParseTree, Tree};
use crate::tree_builder::TreeOutputBuilder;

verus! {

/// How many bytes a text takes.
pub open spec fn text_bytes(s: Seq<char>) -> nat
    decreases s.len(),
{
    if s.len() == 0 {
        0
    } else {
        text_bytes(s.drop_last()) + lexer::width(s.last()) as nat
    }
}

/// How many trees are in a node, itself included.
pub open spec fn tree_nodes(n: tree::Node) -> nat
    decreases n,
{
    match n {
        tree::Node::Tree { data, children, meta } => 1 + nodes_of(children, children.len()),
        _ => 0,
    }
}

/// How many trees are in the first `k` nodes.
pub open spec fn nodes_of(ns: Seq<tree::Node>, k: nat) -> nat
    decreases ns, k,
{
    if k == 0 || k > ns.len() {
        0
    } else {
        nodes_of(ns, (k - 1) as nat) + tree_nodes(ns[k - 1])
    }
}

/// How many bytes the texts of the tokens in a node take.
pub open spec fn token_bytes(n: tree::Node) -> nat
    decreases n,
{
    match n {
        tree::Node::Tree { data, children, meta } => bytes_of(children, children.len()),
        tree::Node::Token(t) => text_bytes(t.value),
        tree::Node::Absent => 0,
    }
}

/// How many bytes the texts of the tokens in the first `k` nodes take.
pub open spec fn bytes_of(ns: Seq<tree::Node>, k: nat) -> nat
    decreases ns, k,
{
    if k == 0 || k > ns.len() {
        0
    } else {
        bytes_of(ns, (k - 1) as nat) + token_bytes(ns[k - 1])
    }
}

/// A count with the bytes of a text added.
pub fn count_text(s: &str, n: u64) -> (r: u64)
    ensures
        r == perf::counted(n, text_bytes(s@)),
{
    let cs = chars_of(s);
    let mut r: u64 = n;
    let mut i: usize = 0;
    proof {
        perf::lemma_counted_nothing(n);
        assert(cs@.take(0) =~= Seq::empty());
    }
    while i < cs.len()
        invariant
            i <= cs@.len(),
            r == perf::counted(n, text_bytes(cs@.take(i as int))),
        decreases cs.len() - i,
    {
        proof {
            assert(cs@.take(i + 1).drop_last() =~= cs@.take(i as int));
            perf::lemma_counted(
                n,
                text_bytes(cs@.take(i as int)),
                lexer::width(cs@[i as int]) as nat,
            );
        }
        r = perf::count(r, char_width(cs[i]) as u64);
        i = i + 1;
    }
    proof {
        assert(cs@.take(cs@.len() as int) =~= cs@);
    }
    r
}

fn count_child(c: &Child, n: (u64, u64)) -> (r: (u64, u64))
    ensures
        r.0 == perf::counted(n.0, tree_nodes(c@)),
        r.1 == perf::counted(n.1, token_bytes(c@)),
    decreases *c,
{
    proof {
        perf::lemma_counted_nothing(n.0);
        perf::lemma_counted_nothing(n.1);
    }
    match c {
        Child::Token(t) => (n.0, count_text(t.value.as_str(), n.1)),
        Child::Absent => n,
        Child::Tree(t) => count_tree(t, n),
    }
}

fn count_tree(t: &Tree, n: (u64, u64)) -> (r: (u64, u64))
    ensures
        r.0 == perf::counted(n.0, tree_nodes(t@)),
        r.1 == perf::counted(n.1, token_bytes(t@)),
    decreases *t,
{
    let ghost nodes = tree::child_nodes(t.children@);
    proof {
        tree::tree_node_children(*t);
        perf::lemma_counted_nothing(n.1);
    }
    let mut r: (u64, u64) = (perf::count(n.0, 1), n.1);
    let mut i: usize = 0;
    while i < t.children.len()
        invariant
            i <= t.children@.len(),
            nodes == tree::child_nodes(t.children@),
            r.0 == perf::counted(n.0, 1 + nodes_of(nodes, i as nat)),
            r.1 == perf::counted(n.1, bytes_of(nodes, i as nat)),
        decreases t.children.len() - i,
    {
        proof {
            assert(nodes[i as int] == t.children@[i as int]@);
            perf::lemma_counted(n.0, 1 + nodes_of(nodes, i as nat), tree_nodes(nodes[i as int]));
            perf::lemma_counted(n.1, bytes_of(nodes, i as nat), token_bytes(nodes[i as int]));
        }
        r = count_child(&t.children[i], r);
        i = i + 1;
    }
    r
}

/// The nodes that a position contributes.
pub open spec fn slot_values(s: output::GSlotModel<tree::Node>) -> Seq<tree::Node> {
    match s {
        output::GSlotModel::Value(e) => seq![e.value],
        output::GSlotModel::Inline(es) => Seq::new(es.len(), |i: int| es[i].value),
    }
}

/// How many trees are in the first `k` positions.
pub open spec fn slot_nodes(s: Seq<output::GSlotModel<tree::Node>>, k: nat) -> nat
    decreases k,
{
    if k == 0 {
        0
    } else {
        let ns = slot_values(s[k - 1]);
        slot_nodes(s, (k - 1) as nat) + nodes_of(ns, ns.len())
    }
}

/// How many bytes the texts of the tokens in the first `k` positions take.
pub open spec fn slot_bytes(s: Seq<output::GSlotModel<tree::Node>>, k: nat) -> nat
    decreases k,
{
    if k == 0 {
        0
    } else {
        let ns = slot_values(s[k - 1]);
        slot_bytes(s, (k - 1) as nat) + bytes_of(ns, ns.len())
    }
}

fn count_slot(s: &GSlot<Child>, n: (u64, u64)) -> (r: (u64, u64))
    ensures
        ({
            let ns = slot_values(output::gslot_model::<TreeOutputBuilder>(*s));
            r.0 == perf::counted(n.0, nodes_of(ns, ns.len())) && r.1 == perf::counted(
                n.1,
                bytes_of(ns, ns.len()),
            )
        }),
{
    let ghost ns = slot_values(output::gslot_model::<TreeOutputBuilder>(*s));
    match s {
        GSlot::Value(e) => {
            proof {
                assert(ns[0] == e.value@);
                reveal_with_fuel(nodes_of, 2);
                reveal_with_fuel(bytes_of, 2);
            }
            count_child(&e.value, n)
        },
        GSlot::Inline(es) => {
            let mut r: (u64, u64) = n;
            let mut i: usize = 0;
            proof {
                perf::lemma_counted_nothing(n.0);
                perf::lemma_counted_nothing(n.1);
            }
            while i < es.len()
                invariant
                    i <= es@.len(),
                    ns.len() == es@.len(),
                    ns == slot_values(
                        output::GSlotModel::Inline(output::elem_models::<TreeOutputBuilder>(es@)),
                    ),
                    r.0 == perf::counted(n.0, nodes_of(ns, i as nat)),
                    r.1 == perf::counted(n.1, bytes_of(ns, i as nat)),
                decreases es.len() - i,
            {
                proof {
                    assert(ns[i as int] == es@[i as int].value@);
                    perf::lemma_counted(n.0, nodes_of(ns, i as nat), tree_nodes(ns[i as int]));
                    perf::lemma_counted(n.1, bytes_of(ns, i as nat), token_bytes(ns[i as int]));
                }
                r = count_child(&es[i].value, r);
                i = i + 1;
            }
            r
        },
    }
}

/// Two counts, with the trees and the bytes of token texts of positions added.
pub fn count_slots(s: &Vec<GSlot<Child>>, n: (u64, u64)) -> (r: (u64, u64))
    ensures
        ({
            let ms = output::gslot_models::<TreeOutputBuilder>(s@);
            r.0 == perf::counted(n.0, slot_nodes(ms, ms.len())) && r.1 == perf::counted(
                n.1,
                slot_bytes(ms, ms.len()),
            )
        }),
{
    let ghost ms = output::gslot_models::<TreeOutputBuilder>(s@);
    let mut r: (u64, u64) = n;
    let mut i: usize = 0;
    proof {
        perf::lemma_counted_nothing(n.0);
        perf::lemma_counted_nothing(n.1);
    }
    while i < s.len()
        invariant
            i <= s@.len(),
            ms == output::gslot_models::<TreeOutputBuilder>(s@),
            r.0 == perf::counted(n.0, slot_nodes(ms, i as nat)),
            r.1 == perf::counted(n.1, slot_bytes(ms, i as nat)),
        decreases s.len() - i,
    {
        proof {
            let ns = slot_values(ms[i as int]);
            assert(ms[i as int] == output::gslot_model::<TreeOutputBuilder>(s@[i as int]));
            perf::lemma_counted(n.0, slot_nodes(ms, i as nat), nodes_of(ns, ns.len()));
            perf::lemma_counted(n.1, slot_bytes(ms, i as nat), bytes_of(ns, ns.len()));
        }
        r = count_slot(&s[i], r);
        i = i + 1;
    }
    r
}

/// Two counts, with the trees and the bytes of token texts of a parse result
/// added.
pub fn count_result(t: &ParseTree, n: (u64, u64)) -> (r: (u64, u64))
    ensures
        r.0 == perf::counted(n.0, tree_nodes(t@)),
        r.1 == perf::counted(n.1, token_bytes(t@)),
{
    proof {
        perf::lemma_counted_nothing(n.0);
        perf::lemma_counted_nothing(n.1);
    }
    match t {
        ParseTree::Token(k) => (n.0, count_text(k.value.as_str(), n.1)),
        ParseTree::Absent => n,
        ParseTree::Tree(k) => count_tree(k, n),
    }
}

} // verus!
