//! A state reduces only on terminals that can follow what it reduces to.

use vstd::prelude::*;
use crate::analysis;
use crate::lalr_table;
use crate::lookahead;
use crate::lr0;
use crate::lr0::{Automaton, LR0Item};
use crate::symbols;
use crate::symbols::SymbolId;

verus! {

/// Whether symbol `x` stands at position `k` of rule `r`.
pub open spec fn stands_at(
    rules: Seq<symbols::RuleModel>,
    x: SymbolId,
    r: int,
    k: int,
) -> bool {
    0 <= r < rules.len() && 0 <= k < rules[r].expansion.len() && rules[r].expansion[k] == x
}

/// Whether terminal `t` can follow symbol `x`, by a chain of at most `n` steps: the end
/// of input follows the origin of a start rule; and where `x` stands in a rule, what
/// can begin the rest of the rule follows it, and, where that rest can be empty, what
/// follows the origin of the rule.
pub open spec fn can_follow(
    rules: Seq<symbols::RuleModel>,
    nt: nat,
    x: SymbolId,
    t: SymbolId,
    n: nat,
) -> bool
    decreases n,
{
    ||| t == SymbolId::end() && exists|r: int|
        0 <= r < rules.len() && (#[trigger] rules[r]).is_start && rules[r].origin == x
    ||| n > 0 && exists|r: int, k: int| #[trigger]
        stands_at(rules, x, r, k) && {
            let rest = rules[r].expansion.skip(k + 1);
            ||| analysis::first_of(rules, nt, rest, t)
            ||| analysis::all_nullable(rules, nt, rest) && can_follow(
                rules,
                nt,
                rules[r].origin,
                t,
                (n - 1) as nat,
            )
        }
}

proof fn lemma_follows(
    rules: Seq<symbols::RuleModel>,
    nt: nat,
    a: Automaton,
    s: int,
    it: LR0Item,
    t: SymbolId,
    n: nat,
)
    requires
        lookahead::follows_in(rules, nt, a, s, it, t, n),
        it.rule_idx < rules.len(),
    ensures
        can_follow(rules, nt, rules[it.rule_idx as int].origin, t, n),
    decreases n,
{
    let x = rules[it.rule_idx as int].origin;
    if rules[it.rule_idx as int].is_start && t == SymbolId::end() {
    } else if it.dot == 0 {
        let by = choose|by: LR0Item|
            a.items(s).contains(by) && #[trigger] lr0::expected(rules, by) == Some(x) && (
            analysis::first_of(rules, nt, lookahead::rest_of(rules, by), t)
                || (analysis::all_nullable(rules, nt, lookahead::rest_of(rules, by))
                && lookahead::follows_in(rules, nt, a, s, by, t, (n - 1) as nat)));
        let r = by.rule_idx as int;
        let k = by.dot as int;
        assert(stands_at(rules, x, r, k));
        if !analysis::first_of(rules, nt, lookahead::rest_of(rules, by), t) {
            lemma_follows(rules, nt, a, s, by, t, (n - 1) as nat);
        }
    } else {
        let back = lookahead::retreated(it);
        let p = choose|p: int|
            0 <= p < a.states@.len() && (#[trigger] a.items(p)).contains(back) && lr0::expected(
                rules,
                back,
            ) is Some && a.target(p, lr0::expected(rules, back)->0) is Some && a.target(
                p,
                lr0::expected(rules, back)->0,
            )->0 == s && lookahead::follows_in(rules, nt, a, p, back, t, (n - 1) as nat);
        lemma_follows(rules, nt, a, p, back, t, (n - 1) as nat);
        lemma_more(rules, nt, x, t, (n - 1) as nat);
    }
}

proof fn lemma_more(
    rules: Seq<symbols::RuleModel>,
    nt: nat,
    x: SymbolId,
    t: SymbolId,
    n: nat,
)
    requires
        can_follow(rules, nt, x, t, n),
    ensures
        can_follow(rules, nt, x, t, n + 1),
    decreases n,
{
    if !(t == SymbolId::end() && exists|r: int|
        0 <= r < rules.len() && (#[trigger] rules[r]).is_start && rules[r].origin == x) {
        let (r, k) = choose|r: int, k: int| #[trigger]
            stands_at(rules, x, r, k) && {
                let rest = rules[r].expansion.skip(k + 1);
                ||| analysis::first_of(rules, nt, rest, t)
                ||| analysis::all_nullable(rules, nt, rest) && can_follow(
                    rules,
                    nt,
                    rules[r].origin,
                    t,
                    (n - 1) as nat,
                )
            };
        let rest = rules[r].expansion.skip(k + 1);
        if !analysis::first_of(rules, nt, rest, t) {
            lemma_more(rules, nt, rules[r].origin, t, (n - 1) as nat);
        }
        assert(stands_at(rules, x, r, k));
    }
}

/// A state may reduce by a rule only on a terminal that can follow the origin of the
/// rule, and only where all of the rule has been read.
pub proof fn reductions_are_on_what_can_follow(
    rules: Seq<symbols::RuleModel>,
    nt: nat,
    a: Automaton,
    s: int,
    t: SymbolId,
    r: int,
) -> (n: nat)
    requires
        lalr_table::may_reduce(rules, nt, a, s, t, r),
        rules.len() <= usize::MAX,
        rules[r].expansion.len() <= usize::MAX,
    ensures
        can_follow(rules, nt, rules[r].origin, t, n),
        a.items(s).contains(
            LR0Item { rule_idx: r as usize, dot: rules[r].expansion.len() as usize },
        ),
        !rules[r].is_start,
{
    let it = lalr_table::end_item(rules, r);
    let n = choose|n: nat| #[trigger] lookahead::follows_in(rules, nt, a, s, it, t, n);
    lemma_follows(rules, nt, a, s, it, t, n);
    n
}

} // verus!
