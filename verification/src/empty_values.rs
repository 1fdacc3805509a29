//! The values that nonterminals build when they derive the empty string.

use vstd::prelude::*;
use crate::bits;
use crate::bits::blank_row;
use crate::symbols;
use crate::symbols::{CompiledGrammar, SymbolId};
use crate::tree;
use crate::tree::{copy_children, copy_tree};
use crate::tree_builder;
use crate::tree_builder::{Slot, TreeOutputBuilder};

verus! {

/// Whether every symbol of an expansion is a nonterminal that is flagged.
pub open spec fn all_empty(e: Seq<SymbolId>, nt: nat, nulls: Seq<bool>) -> bool {
    forall|j: int|
        0 <= j < e.len() ==> nt <= (#[trigger] e[j]).ix() < nulls.len() && nulls[e[j].ix() as int]
}

/// Whether a rule lets `id` derive the empty string.
pub open spec fn empties_by(
    rule: symbols::RuleModel,
    nt: nat,
    nulls: Seq<bool>,
    id: SymbolId,
) -> bool {
    !rule.is_start && rule.origin == id && all_empty(rule.expansion, nt, nulls)
}

/// The rule, among the first `k`, by which `id` derives the empty string: of
/// those with the least priority the first.
pub open spec fn empty_rule(
    rules: Seq<symbols::RuleModel>,
    nt: nat,
    nulls: Seq<bool>,
    id: SymbolId,
    k: nat,
) -> Option<int>
    decreases k,
{
    if k == 0 {
        None
    } else {
        let prev = empty_rule(rules, nt, nulls, id, (k - 1) as nat);
        let r = rules[k - 1];
        if empties_by(r, nt, nulls, id) && match prev {
            None => true,
            Some(b) => r.priority < rules[b].priority,
        } {
            Some(k - 1)
        } else {
            prev
        }
    }
}

/// The value that `id` builds from nothing, with the values found so far
/// before and after. A nonterminal that is still being built counts as an
/// empty splice.
pub open spec fn empty_value(
    rules: Seq<symbols::RuleModel>,
    nt: nat,
    nulls: Seq<bool>,
    id: SymbolId,
    memo: Seq<Option<tree_builder::SlotModel>>,
    visiting: Seq<bool>,
) -> (tree_builder::SlotModel, Seq<Option<tree_builder::SlotModel>>)
    decreases bits::missing(visiting), 0nat, 0nat,
{
    if id.ix() >= memo.len() || id.ix() >= visiting.len() {
        (tree_builder::SlotModel::Inline(Seq::empty()), memo)
    } else if memo[id.ix() as int] is Some {
        (memo[id.ix() as int]->0, memo)
    } else if visiting[id.ix() as int] {
        (tree_builder::SlotModel::Inline(Seq::empty()), memo)
    } else {
        match empty_rule(rules, nt, nulls, id, rules.len()) {
            None => {
                let v = tree_builder::SlotModel::Inline(Seq::empty());
                (v, memo.update(id.ix() as int, Some(v)))
            },
            Some(ri) => {
                let inner = visiting.update(id.ix() as int, true);
                proof {
                    lemma_visit(visiting, id.ix() as int);
                }
                let (vs, m) = empty_values(
                    rules,
                    nt,
                    nulls,
                    rules[ri].expansion,
                    rules[ri].expansion.len(),
                    memo,
                    inner,
                );
                let v = tree_builder::assembled(rules[ri], false, vs);
                (v, m.update(id.ix() as int, Some(v)))
            },
        }
    }
}

/// The values that the first `k` symbols of an expansion build from nothing.
pub open spec fn empty_values(
    rules: Seq<symbols::RuleModel>,
    nt: nat,
    nulls: Seq<bool>,
    e: Seq<SymbolId>,
    k: nat,
    memo: Seq<Option<tree_builder::SlotModel>>,
    visiting: Seq<bool>,
) -> (Seq<tree_builder::SlotModel>, Seq<Option<tree_builder::SlotModel>>)
    decreases bits::missing(visiting), 1nat, k,
{
    if k == 0 {
        (Seq::empty(), memo)
    } else {
        let (vs, m) = empty_values(rules, nt, nulls, e, (k - 1) as nat, memo, visiting);
        let (v, m2) = empty_value(rules, nt, nulls, e[k - 1], m, visiting);
        (vs.push(v), m2)
    }
}

/// Marking one more nonterminal leaves fewer unmarked.
pub proof fn lemma_visit(s: Seq<bool>, i: int)
    requires
        0 <= i < s.len(),
        !s[i],
    ensures
        bits::missing(s.update(i, true)) < bits::missing(s),
{
    let t = s.update(i, true);
    assert(bits::row_le(s, t));
    assert(s[i] != t[i]);
    bits::lemma_missing_le(s, t);
}

/// The values of the flagged nonterminals below `k`, found in order.
pub open spec fn values_below(
    rules: Seq<symbols::RuleModel>,
    nt: nat,
    nulls: Seq<bool>,
    k: nat,
) -> Seq<Option<tree_builder::SlotModel>>
    decreases k,
{
    if k == 0 {
        Seq::new(nulls.len(), |i: int| None)
    } else {
        let m = values_below(rules, nt, nulls, (k - 1) as nat);
        if nulls[k - 1] {
            empty_value(
                rules,
                nt,
                nulls,
                SymbolId((k - 1) as u32),
                m,
                Seq::new(nulls.len(), |i: int| false),
            ).1
        } else {
            m
        }
    }
}

/// The contents of a table of values.
pub open spec fn memo_models(s: Seq<Option<Slot>>) -> Seq<Option<tree_builder::SlotModel>> {
    Seq::new(
        s.len(),
        |i: int|
            match s[i] {
                Some(v) => Some(v@),
                None => None,
            },
    )
}

/// A copy of a slot.
pub fn copy_slot(s: &Slot) -> (r: Slot)
    ensures
        r@ == s@,
{
    match s {
        Slot::Token(t) => Slot::Token(t.copy()),
        Slot::Tree(t) => Slot::Tree(copy_tree(t)),
        Slot::Inline(cs) => Slot::Inline(copy_children(cs)),
    }
}

fn is_all_empty(e: &Vec<SymbolId>, nt: usize, nulls: &Vec<bool>) -> (r: bool)
    ensures
        r == all_empty(e@, nt as nat, nulls@),
{
    let mut j: usize = 0;
    while j < e.len()
        invariant
            j <= e@.len(),
            forall|q: int|
                0 <= q < j ==> nt <= (#[trigger] e@[q]).ix() < nulls@.len()
                    && nulls@[e@[q].ix() as int],
        decreases e.len() - j,
    {
        let ix: usize = e[j].index();
        if ix < nt || ix >= nulls.len() || !nulls[ix] {
            proof {
                assert(!(nt <= e@[j as int].ix() < nulls@.len()
                    && nulls@[e@[j as int].ix() as int]));
            }
            return false;
        }
        j = j + 1;
    }
    true
}

fn choose_empty_rule(grammar: &CompiledGrammar, nulls: &Vec<bool>, id: SymbolId) -> (r: Option<
    usize,
>)
    ensures
        match r {
            Some(k) => k < grammar.rules@.len() && empty_rule(
                grammar.models(),
                grammar.terminal_count as nat,
                nulls@,
                id,
                grammar.rules@.len(),
            ) == Some(k as int),
            None => empty_rule(
                grammar.models(),
                grammar.terminal_count as nat,
                nulls@,
                id,
                grammar.rules@.len(),
            ) is None,
        },
{
    let ghost models = grammar.models();
    let ghost nt = grammar.terminal_count as nat;
    let mut best: Option<usize> = None;
    let mut k: usize = 0;
    while k < grammar.rules.len()
        invariant
            k <= grammar.rules@.len(),
            models == grammar.models(),
            nt == grammar.terminal_count,
            match best {
                Some(b) => b < k && empty_rule(models, nt, nulls@, id, k as nat) == Some(b as int),
                None => empty_rule(models, nt, nulls@, id, k as nat) is None,
            },
        decreases grammar.rules.len() - k,
    {
        let r = &grammar.rules[k];
        proof {
            assert(models[k as int] == r@);
        }
        if !r.is_start && r.origin == id && is_all_empty(
            &r.expansion,
            grammar.terminal_count,
            nulls,
        ) {
            let lighter = match best {
                None => true,
                Some(b) => {
                    proof {
                        assert(models[b as int] == grammar.rules@[b as int]@);
                    }
                    r.options.priority < grammar.rules[b].options.priority
                },
            };
            if lighter {
                best = Some(k);
            }
        }
        k = k + 1;
    }
    best
}

/// Builds the value of a nonterminal that derives the empty string.
fn eps_value(
    grammar: &CompiledGrammar,
    nulls: &Vec<bool>,
    id: SymbolId,
    memo: &mut Vec<Option<Slot>>,
    visiting: &mut Vec<bool>,
) -> (r: Slot)
    ensures
        final(visiting)@ == old(visiting)@,
        (r@, memo_models(final(memo)@)) == empty_value(
            grammar.models(),
            grammar.terminal_count as nat,
            nulls@,
            id,
            memo_models(old(memo)@),
            old(visiting)@,
        ),
    decreases bits::missing(old(visiting)@), 0nat,
{
    let ghost models = grammar.models();
    let ghost nt = grammar.terminal_count as nat;
    let ghost before = visiting@;
    let ghost memo0 = memo_models(memo@);
    let ix: usize = id.index();
    if ix >= memo.len() || ix >= visiting.len() {
        let r = Slot::Inline(Vec::new());
        proof {
            assert(r@ == tree_builder::SlotModel::Inline(Seq::empty())) by {
                assert(tree::child_nodes(Seq::empty()) =~= Seq::<tree::Node>::empty());
            }
        }
        return r;
    }
    proof {
        assert(memo0[ix as int] is Some == memo@[ix as int] is Some);
    }
    if let Some(v) = &memo[ix] {
        return copy_slot(v);
    }
    let empty = Slot::Inline(Vec::new());
    proof {
        assert(empty@ == tree_builder::SlotModel::Inline(Seq::empty())) by {
            assert(tree::child_nodes(Seq::empty()) =~= Seq::<tree::Node>::empty());
        }
    }
    if visiting[ix] {
        return empty;
    }
    let chosen = choose_empty_rule(grammar, nulls, id);
    match chosen {
        None => {
            memo.set(ix, Some(copy_slot(&empty)));
            proof {
                assert(memo_models(memo@) =~= memo0.update(ix as int, Some(empty@)));
            }
            empty
        },
        Some(ri) => {
            visiting.set(ix, true);
            let ghost inner = visiting@;
            proof {
                lemma_visit(before, ix as int);
                assert(models[ri as int] == grammar.rules@[ri as int]@);
            }
            let e = &grammar.rules[ri].expansion;
            let mut vs: Vec<Slot> = Vec::new();
            let mut k: usize = 0;
            proof {
                assert(tree_builder::slot_models(vs@) =~= Seq::empty());
            }
            while k < e.len()
                invariant
                    k <= e@.len(),
                    models == grammar.models(),
                    nt == grammar.terminal_count,
                    visiting@ == inner,
                    bits::missing(inner) < bits::missing(old(visiting)@),
                    memo@.len() == memo0.len(),
                    (tree_builder::slot_models(vs@), memo_models(memo@)) == empty_values(
                        models,
                        nt,
                        nulls@,
                        e@,
                        k as nat,
                        memo0,
                        inner,
                    ),
                decreases e.len() - k,
            {
                let ghost m1 = memo_models(memo@);
                let v = eps_value(grammar, nulls, e[k], memo, visiting);
                let ghost vs0 = vs@;
                proof {
                    lemma_memo_len(models, nt, nulls@, e@[k as int], m1, inner);
                    assert(memo_models(memo@).len() == m1.len());
                }
                vs.push(v);
                proof {
                    assert(tree_builder::slot_models(vs@) =~= tree_builder::slot_models(vs0).push(
                        v@,
                    ));
                }
                k = k + 1;
            }
            let builder = TreeOutputBuilder::new(&grammar.rules);
            let v = builder.assemble(ri, vs);
            visiting.set(ix, false);
            proof {
                assert(visiting@ =~= before);
            }
            let ghost m = memo_models(memo@);
            memo.set(ix, Some(copy_slot(&v)));
            proof {
                assert(memo_models(memo@) =~= m.update(ix as int, Some(v@)));
            }
            v
        },
    }
}

proof fn lemma_memo_len(
    rules: Seq<symbols::RuleModel>,
    nt: nat,
    nulls: Seq<bool>,
    id: SymbolId,
    memo: Seq<Option<tree_builder::SlotModel>>,
    visiting: Seq<bool>,
)
    ensures
        empty_value(rules, nt, nulls, id, memo, visiting).1.len() == memo.len(),
    decreases bits::missing(visiting), 0nat, 0nat,
{
    if id.ix() < memo.len() && id.ix() < visiting.len() && memo[id.ix() as int] is None
        && !visiting[id.ix() as int] {
        match empty_rule(rules, nt, nulls, id, rules.len()) {
            None => {},
            Some(ri) => {
                lemma_visit(visiting, id.ix() as int);
                lemma_memos_len(
                    rules,
                    nt,
                    nulls,
                    rules[ri].expansion,
                    rules[ri].expansion.len(),
                    memo,
                    visiting.update(id.ix() as int, true),
                );
            },
        }
    }
}

proof fn lemma_memos_len(
    rules: Seq<symbols::RuleModel>,
    nt: nat,
    nulls: Seq<bool>,
    e: Seq<SymbolId>,
    k: nat,
    memo: Seq<Option<tree_builder::SlotModel>>,
    visiting: Seq<bool>,
)
    ensures
        empty_values(rules, nt, nulls, e, k, memo, visiting).1.len() == memo.len(),
    decreases bits::missing(visiting), 1nat, k,
{
    if k > 0 {
        lemma_memos_len(rules, nt, nulls, e, (k - 1) as nat, memo, visiting);
        let m = empty_values(rules, nt, nulls, e, (k - 1) as nat, memo, visiting).1;
        lemma_memo_len(rules, nt, nulls, e[k - 1], m, visiting);
    }
}

/// Builds the values of all the nonterminals that derive the empty string.
pub fn compute_epsilon_values(grammar: &CompiledGrammar, nulls: &Vec<bool>) -> (r: Vec<
    Option<Slot>,
>)
    requires
        nulls@.len() <= u32::MAX,
    ensures
        memo_models(r@) == values_below(
            grammar.models(),
            grammar.terminal_count as nat,
            nulls@,
            nulls@.len(),
        ),
        r@.len() == nulls@.len(),
{
    let ghost models = grammar.models();
    let ghost nt = grammar.terminal_count as nat;
    let n: usize = nulls.len();
    let mut memo: Vec<Option<Slot>> = Vec::new();
    let mut i: usize = 0;
    while i < n
        invariant
            i <= n,
            memo@.len() == i,
            forall|q: int| 0 <= q < i ==> #[trigger] memo@[q] is None,
        decreases n - i,
    {
        memo.push(None);
        i = i + 1;
    }
    let mut visiting = blank_row(n);
    let mut k: usize = 0;
    proof {
        assert(memo_models(memo@) =~= Seq::new(nulls@.len(), |i: int| None));
        assert(visiting@ =~= Seq::new(nulls@.len(), |i: int| false));
    }
    while k < n
        invariant
            k <= n,
            n == nulls@.len(),
            n <= u32::MAX,
            memo@.len() == n,
            models == grammar.models(),
            nt == grammar.terminal_count,
            visiting@ == Seq::new(nulls@.len(), |i: int| false),
            memo_models(memo@) == values_below(models, nt, nulls@, k as nat),
        decreases n - k,
    {
        if nulls[k] {
            let ghost m = memo_models(memo@);
            let id = SymbolId(k as u32);
            let _v = eps_value(grammar, nulls, id, &mut memo, &mut visiting);
            proof {
                lemma_memo_len(models, nt, nulls@, id, m, visiting@);
                assert(memo_models(memo@).len() == n);
            }
        }
        k = k + 1;
    }
    memo
}

} // verus!
