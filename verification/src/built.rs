//! What building the values of reductions amounts to: how many reductions, how many
//! tree nodes, and how many bytes of token texts.

use vstd::prelude::*;
use crate::perf;
use crate::perf::Counters;
use crate::symbols;
use crate::tally;
use crate::tally::count_text;
use crate::tree;
use crate::tree_builder;
use crate::tree_builder::{Slot, TreeOutputBuilder};

verus! {

/// Counts of what was built.
#[derive(Clone, Copy, PartialEq, Eq, Debug, Structural)]
pub struct Built {
    /// The reductions whose values were assembled.
    pub reductions: u64,
    /// The tree nodes made.
    pub nodes: u64,
    /// The bytes of the texts of the tokens kept.
    pub bytes: u64,
}

/// What building amounts to.
pub ghost struct Totals {
    pub reductions: nat,
    pub nodes: nat,
    pub bytes: nat,
}

/// Nothing built.
pub open spec fn nothing() -> Totals {
    Totals { reductions: 0, nodes: 0, bytes: 0 }
}

/// Both together.
pub open spec fn together(a: Totals, b: Totals) -> Totals {
    Totals {
        reductions: a.reductions + b.reductions,
        nodes: a.nodes + b.nodes,
        bytes: a.bytes + b.bytes,
    }
}

/// Counts with more added.
pub open spec fn with(b: Built, t: Totals) -> Built {
    Built {
        reductions: perf::counted(b.reductions, t.reductions),
        nodes: perf::counted(b.nodes, t.nodes),
        bytes: perf::counted(b.bytes, t.bytes),
    }
}

/// Counters with what was built.
pub open spec fn built_counted(c: Counters, t: Totals) -> Counters {
    Counters {
        semantic_reduce_calls: perf::counted(c.semantic_reduce_calls, t.reductions),
        tree_nodes_built: perf::counted(c.tree_nodes_built, t.nodes),
        token_value_string_bytes: perf::counted(c.token_value_string_bytes, t.bytes),
        ..c
    }
}

/// Adding twice is adding both together.
pub proof fn lemma_with(b: Built, t: Totals, u: Totals)
    ensures
        with(with(b, t), u) == with(b, together(t, u)),
{
    perf::lemma_counted(b.reductions, t.reductions, u.reductions);
    perf::lemma_counted(b.nodes, t.nodes, u.nodes);
    perf::lemma_counted(b.bytes, t.bytes, u.bytes);
}

/// Adding nothing changes nothing.
pub proof fn lemma_with_nothing(b: Built)
    ensures
        with(b, nothing()) == b,
{
    perf::lemma_counted_nothing(b.reductions);
    perf::lemma_counted_nothing(b.nodes);
    perf::lemma_counted_nothing(b.bytes);
}

/// Whether a reduction by `rule` to the given children makes a tree node: it does
/// unless they are spliced, or the only one takes its place.
pub open spec fn makes_node(rule: symbols::RuleModel, children: Seq<tree::Node>) -> bool {
    let all = children + tree_builder::trailing_absents(rule);
    !rule.transparent && !(rule.expand1 && rule.alias is None && all.len() == 1)
}

/// How many bytes the texts of the tokens take that `rule` keeps.
pub open spec fn kept_bytes(
    rule: symbols::RuleModel,
    slots: Seq<tree_builder::SlotModel>,
) -> nat
    decreases slots.len(),
{
    if slots.len() == 0 {
        0
    } else {
        kept_bytes(rule, slots.drop_last()) + match slots.last() {
            tree_builder::SlotModel::Value(tree::Node::Token(t)) => if symbols::keeps_token(
                rule,
                slots.len() - 1,
            ) {
                tally::text_bytes(t.value)
            } else {
                0
            },
            _ => 0,
        }
    }
}

/// What the reduction of the given slots by `rule` builds.
pub open spec fn reduction_built(
    rule: symbols::RuleModel,
    slots: Seq<tree_builder::SlotModel>,
) -> Totals {
    Totals {
        reductions: 1,
        nodes: if makes_node(rule, tree_builder::kept_children(rule, slots)) {
            1
        } else {
            0
        },
        bytes: kept_bytes(rule, slots),
    }
}

/// The smaller of a number and two.
spec fn up_to_two(n: nat) -> nat {
    if n < 2 {
        n
    } else {
        2
    }
}

fn add_up_to_two(a: usize, b: usize) -> (r: usize)
    ensures
        r == up_to_two((a + b) as nat),
{
    if a >= 2 || b >= 2 {
        2
    } else {
        a + b
    }
}

impl Built {
    /// Nothing built.
    pub fn new() -> (r: Built)
        ensures
            r == (Built { reductions: 0, nodes: 0, bytes: 0 }),
    {
        Built { reductions: 0, nodes: 0, bytes: 0 }
    }

    /// Adds what was built to counters.
    pub fn count(&self, c: &mut Counters)
        ensures
            *final(c) == built_counted(
                *old(c),
                Totals {
                    reductions: self.reductions as nat,
                    nodes: self.nodes as nat,
                    bytes: self.bytes as nat,
                },
            ),
    {
        c.semantic_reduce_calls = perf::count(c.semantic_reduce_calls, self.reductions);
        c.tree_nodes_built = perf::count(c.tree_nodes_built, self.nodes);
        c.token_value_string_bytes = perf::count(c.token_value_string_bytes, self.bytes);
    }
}

/// Adding counts adds what was counted.
pub proof fn lemma_counts(c: Counters, t: Totals)
    ensures
        ({
            let b = with(Built { reductions: 0, nodes: 0, bytes: 0 }, t);
            built_counted(
                c,
                Totals {
                    reductions: b.reductions as nat,
                    nodes: b.nodes as nat,
                    bytes: b.bytes as nat,
                },
            ) == built_counted(c, t)
        }),
{
    perf::lemma_counted_mod(c.semantic_reduce_calls, 0, t.reductions);
    perf::lemma_counted_mod(c.tree_nodes_built, 0, t.nodes);
    perf::lemma_counted_mod(c.token_value_string_bytes, 0, t.bytes);
}

/// What shaping the given children by `rule` builds.
pub open spec fn shape_built(rule: symbols::RuleModel, children: Seq<tree::Node>) -> Totals {
    Totals {
        reductions: 0,
        nodes: if makes_node(rule, children) {
            1
        } else {
            0
        },
        bytes: 0,
    }
}

impl<'g> TreeOutputBuilder<'g> {
    /// Counts what shaping `n` children by a rule builds.
    pub(crate) fn count_shape(&self, rule_idx: usize, n: usize, children: Ghost<Seq<tree::Node>>, b: Built)
        -> (r: Built)
        requires
            rule_idx < self.rules@.len(),
            n == children@.len(),
        ensures
            r == with(b, shape_built(self.models()[rule_idx as int], children@)),
    {
        let rule = &self.rules[rule_idx];
        let mut few: usize = add_up_to_two(n, rule.options.placeholder_count);
        few = add_up_to_two(few, self.nones_at(rule_idx, rule.expansion.len()));
        let node: u64 = if rule.transparent || (rule.options.expand1 && rule.alias.is_none() && few
            == 1) {
            0
        } else {
            1
        };
        proof {
            perf::lemma_counted_nothing(b.reductions);
            perf::lemma_counted_nothing(b.bytes);
        }
        Built { reductions: b.reductions, nodes: perf::count(b.nodes, node), bytes: b.bytes }
    }

    /// The value of a reduction of the given slots; what is built is counted.
    pub fn assemble_counted(&self, rule_idx: usize, child_values: Vec<Slot>, b: &mut Built) -> (r:
        Slot)
        requires
            rule_idx < self.rules@.len(),
        ensures
            r@ == tree_builder::assembled(
                self.models()[rule_idx as int],
                self.propagate_positions,
                tree_builder::slot_models(child_values@),
            ),
            *final(b) == with(
                *old(b),
                reduction_built(
                    self.models()[rule_idx as int],
                    tree_builder::slot_models(child_values@),
                ),
            ),
    {
        let ghost rule = self.models()[rule_idx as int];
        let ghost slots = tree_builder::slot_models(child_values@);
        let mut bytes: u64 = b.bytes;
        let mut few: usize = 0;
        let mut i: usize = 0;
        proof {
            perf::lemma_counted_nothing(b.bytes);
            perf::lemma_counted_nothing(b.nodes);
            assert(slots.take(0) =~= Seq::empty());
        }
        while i < child_values.len()
            invariant
                i <= child_values@.len(),
                rule_idx < self.rules@.len(),
                rule == self.models()[rule_idx as int],
                slots == tree_builder::slot_models(child_values@),
                bytes == perf::counted(b.bytes, kept_bytes(rule, slots.take(i as int))),
                few == up_to_two(tree_builder::kept_children(rule, slots.take(i as int)).len()),
            decreases child_values.len() - i,
        {
            let ghost before = slots.take(i as int);
            proof {
                assert(slots.take(i + 1).drop_last() =~= before);
                assert(slots.take(i + 1).last() == child_values@[i as int]@);
            }
            few = add_up_to_two(few, self.nones_at(rule_idx, i));
            match &child_values[i] {
                Slot::Token(t) => {
                    if self.keep_token(rule_idx, i) {
                        few = add_up_to_two(few, 1);
                        proof {
                            perf::lemma_counted(
                                b.bytes,
                                kept_bytes(rule, before),
                                tally::text_bytes(t@.value),
                            );
                        }
                        bytes = count_text(t.value.as_str(), bytes);
                    }
                },
                Slot::Tree(t) => {
                    few = add_up_to_two(few, 1);
                },
                Slot::Inline(cs) => {
                    few = add_up_to_two(few, cs.len());
                },
            }
            i = i + 1;
        }
        proof {
            assert(slots.take(slots.len() as int) =~= slots);
        }
        let rule_data = &self.rules[rule_idx];
        few = add_up_to_two(few, rule_data.options.placeholder_count);
        few = add_up_to_two(few, self.nones_at(rule_idx, rule_data.expansion.len()));
        let node: u64 = if rule_data.transparent || (rule_data.options.expand1
            && rule_data.alias.is_none() && few == 1) {
            0
        } else {
            1
        };
        *b = Built {
            reductions: perf::count(b.reductions, 1),
            nodes: perf::count(b.nodes, node),
            bytes,
        };
        self.assemble(rule_idx, child_values)
    }
}

} // verus!
