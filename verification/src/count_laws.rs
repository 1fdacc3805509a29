//! What counters count: the bytes of texts, and the nodes and tokens that reductions
//! bring into a tree.

use vstd::prelude::*;
use crate::built;
use crate::lex_laws;
use crate::lexer;
use crate::perf;
use crate::shape_laws;
use crate::symbols;
use crate::tally;
use crate::tree;
use crate::tree_builder;

verus! {

/// Counts add up, as long as they fit a machine word.
pub proof fn counts_add_up(n: u64, by: nat)
    requires
        n + by <= u64::MAX,
    ensures
        perf::counted(n, by) == n + by,
{
}

/// The bytes of a text are those of its UTF-8 form.
pub proof fn bytes_are_those_of_utf8(s: Seq<char>)
    ensures
        tally::text_bytes(s) == lex_laws::utf8_size(s),
    decreases s.len(),
{
    if s.len() > 0 {
        bytes_are_those_of_utf8(s.drop_last());
        lemma_width(s.last());
    }
}

proof fn lemma_width(c: char)
    ensures
        lexer::width(c) == lex_laws::utf8_len(c),
{
}

/// How many bytes the tokens take that a rule keeps, from position `from` on.
pub open spec fn token_sizes(
    rule: symbols::RuleModel,
    slots: Seq<tree_builder::SlotModel>,
    from: nat,
) -> nat
    decreases slots.len() - from,
{
    if from >= slots.len() {
        0
    } else {
        token_sizes(rule, slots, from + 1) + match slots[from as int] {
            tree_builder::SlotModel::Value(tree::Node::Token(t)) => if shape_laws::given(
                rule,
                from as int,
                slots[from as int],
            ).len() > 0 {
                lex_laws::utf8_size(t.value)
            } else {
                0
            },
            _ => 0,
        }
    }
}

proof fn lemma_token_sizes(
    rule: symbols::RuleModel,
    slots: Seq<tree_builder::SlotModel>,
    k: nat,
)
    requires
        k <= slots.len(),
    ensures
        built::kept_bytes(rule, slots.take(k as int)) + token_sizes(rule, slots, k)
            == token_sizes(rule, slots, 0),
    decreases k,
{
    let s = slots.take(k as int);
    if k > 0 {
        lemma_token_sizes(rule, slots, (k - 1) as nat);
        assert(s.drop_last() =~= slots.take((k - 1) as int));
        assert(s.last() == slots[k - 1]);
        if let tree_builder::SlotModel::Value(tree::Node::Token(t)) = s.last() {
            bytes_are_those_of_utf8(t.value);
        }
    }
}

/// A reduction counts as one, with the bytes of the tokens that it keeps. It counts a
/// node where it makes one, and none where its children are spliced or the only one
/// takes its place.
pub proof fn reductions_count_what_they_make(
    rule: symbols::RuleModel,
    propagate: bool,
    slots: Seq<tree_builder::SlotModel>,
)
    requires
        slots.len() == rule.expansion.len(),
    ensures
        ({
            let t = built::reduction_built(rule, slots);
            let v = tree_builder::assembled(rule, propagate, slots);
            let all = shape_laws::laid_out(rule, slots, 0);
            &&& t.reductions == 1
            &&& t.bytes == token_sizes(rule, slots, 0)
            &&& t.nodes <= 1
            &&& t.nodes == 1 ==> (v matches tree_builder::SlotModel::Value(
                tree::Node::Tree { data, children, meta },
            ) && data == rule.tree_name && children == all)
            &&& t.nodes == 0 ==> v is Inline || all.len() == 1 && v
                == tree_builder::SlotModel::Value(all[0])
        }),
{
    shape_laws::rules_shape_what_they_match(rule, propagate, slots);
    shape_laws::lemma_all_laid_out(rule, slots);
    lemma_token_sizes(rule, slots, slots.len());
    assert(slots.take(slots.len() as int) =~= slots);
}

} // verus!
