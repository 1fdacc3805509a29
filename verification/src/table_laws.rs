//! How a table decides between moves and reductions, and which grammars are refused.

use vstd::prelude::*;
use crate::error::GrammarError;
use crate::lalr_complete;
use crate::lalr_stack;
use crate::lalr_table;
use crate::lalr_table::{Action, ParseTable};
use crate::lr0;
use crate::lr0::{Automaton, LR0Item};
use crate::symbols;
use crate::symbols::{CompiledGrammar, SymbolId};

verus! {

/// Whether two rules are the same but for their options.
pub open spec fn are_alike(rules: Seq<symbols::RuleModel>, q: int, r: int) -> bool {
    rules[r].expansion == rules[q].expansion && rules[r].origin == rules[q].origin
}

/// Whether rule `q` was written before rule `r`.
pub open spec fn is_earlier(rules: Seq<symbols::RuleModel>, q: int, r: int) -> bool {
    if rules[q].order == rules[r].order {
        q < r
    } else {
        rules[q].order < rules[r].order
    }
}

/// Whether state `s` can reduce by rule `r` on `t`, and by none like it that was
/// written earlier.
pub open spec fn leads(
    rules: Seq<symbols::RuleModel>,
    nt: nat,
    a: Automaton,
    s: int,
    t: SymbolId,
    r: int,
) -> bool {
    &&& lalr_table::may_reduce(rules, nt, a, s, t, r)
    &&& forall|q: int| #[trigger]
        lalr_table::may_reduce(rules, nt, a, s, t, q) && are_alike(rules, q, r) && q != r
            ==> is_earlier(rules, r, q)
}

/// Whether rule `q` gives way to rule `r`: one like it was written earlier, or one of
/// a lower priority leads the rules like `q`.
pub open spec fn gives_way(
    rules: Seq<symbols::RuleModel>,
    nt: nat,
    a: Automaton,
    s: int,
    t: SymbolId,
    q: int,
    r: int,
) -> bool {
    if are_alike(rules, q, r) {
        is_earlier(rules, r, q)
    } else {
        exists|e: int| #[trigger]
            leads(rules, nt, a, s, t, e) && are_alike(rules, e, q) && rules[e].priority
                < rules[r].priority
    }
}

/// Whether all other rules that state `s` can reduce by on `t` give way to rule `r`.
pub open spec fn prevails(
    rules: Seq<symbols::RuleModel>,
    nt: nat,
    a: Automaton,
    s: int,
    t: SymbolId,
    r: int,
) -> bool {
    &&& lalr_table::may_reduce(rules, nt, a, s, t, r)
    &&& forall|q: int| #[trigger]
        lalr_table::may_reduce(rules, nt, a, s, t, q) && q != r ==> gives_way(
            rules,
            nt,
            a,
            s,
            t,
            q,
            r,
        )
}

proof fn lemma_leads(
    rules: Seq<symbols::RuleModel>,
    nt: nat,
    a: Automaton,
    s: int,
    t: SymbolId,
    r: int,
)
    ensures
        leads(rules, nt, a, s, t, r) == lalr_table::represents(rules, nt, a, s, t, r),
{
    if lalr_table::represents(rules, nt, a, s, t, r) {
        assert forall|q: int| #[trigger]
            lalr_table::may_reduce(rules, nt, a, s, t, q) && are_alike(rules, q, r) && q
                != r implies is_earlier(rules, r, q) by {
            assert(!lalr_table::supersedes(rules, q, r));
        }
    }
    if leads(rules, nt, a, s, t, r) {
        assert forall|q: int| #[trigger]
            lalr_table::may_reduce(rules, nt, a, s, t, q) implies !lalr_table::supersedes(
            rules,
            q,
            r,
        ) by {
            if lalr_table::supersedes(rules, q, r) && q != r {
                assert(is_earlier(rules, r, q));
            }
        }
    }
}

proof fn lemma_prevails(
    rules: Seq<symbols::RuleModel>,
    nt: nat,
    a: Automaton,
    s: int,
    t: SymbolId,
    r: int,
)
    ensures
        prevails(rules, nt, a, s, t, r) == lalr_table::wins(rules, nt, a, s, t, r),
{
    lemma_leads(rules, nt, a, s, t, r);
    if lalr_table::wins(rules, nt, a, s, t, r) {
        assert forall|q: int| #[trigger]
            lalr_table::may_reduce(rules, nt, a, s, t, q) && q != r implies gives_way(
            rules,
            nt,
            a,
            s,
            t,
            q,
            r,
        ) by {
            if !are_alike(rules, q, r) {
                let e = lalr_complete::lemma_representative(rules, nt, a, s, t, q);
                lemma_leads(rules, nt, a, s, t, e);
                assert(e != r);
            }
        }
    }
    if prevails(rules, nt, a, s, t, r) {
        assert forall|q: int| #[trigger]
            lalr_table::may_reduce(rules, nt, a, s, t, q) && are_alike(rules, q, r) && q
                != r implies is_earlier(rules, r, q) by {
            assert(gives_way(rules, nt, a, s, t, q, r));
        }
        assert(leads(rules, nt, a, s, t, r));
        assert forall|q: int| #[trigger]
            lalr_table::represents(rules, nt, a, s, t, q) && q != r implies rules[q].priority
            < rules[r].priority by {
            lemma_leads(rules, nt, a, s, t, q);
            assert(lalr_table::may_reduce(rules, nt, a, s, t, q));
            assert(gives_way(rules, nt, a, s, t, q, r));
            if are_alike(rules, q, r) {
                assert(is_earlier(rules, r, q));
                assert(is_earlier(rules, q, r));
            } else {
                let e = choose|e: int| #[trigger]
                    leads(rules, nt, a, s, t, e) && are_alike(rules, e, q) && rules[e].priority
                        < rules[r].priority;
                if e != q {
                    assert(lalr_table::may_reduce(rules, nt, a, s, t, e));
                    assert(is_earlier(rules, q, e));
                    assert(is_earlier(rules, e, q));
                }
            }
        }
    }
}

/// Whether state `s` cannot decide what to do on `t`: it can reduce, and no rule
/// prevails, or, in strict mode, it can also move.
pub open spec fn is_undecided(
    rules: Seq<symbols::RuleModel>,
    nt: nat,
    a: Automaton,
    strict: bool,
    s: int,
    t: SymbolId,
) -> bool {
    &&& exists|r: int| lalr_table::may_reduce(rules, nt, a, s, t, r)
    &&& (strict && can_move(rules, a, s, t)) || forall|r: int| !prevails(rules, nt, a, s, t, r)
}

/// Whether state `s` moves on `t` without a reduction: by a transition, or, at the end
/// of input, because a start rule is complete.
pub open spec fn can_move(
    rules: Seq<symbols::RuleModel>,
    a: Automaton,
    s: int,
    t: SymbolId,
) -> bool {
    a.target(s, t) is Some || t == SymbolId::end() && is_done(rules, a, s)
}

/// Whether a start rule is complete in state `s`.
pub open spec fn is_done(rules: Seq<symbols::RuleModel>, a: Automaton, s: int) -> bool {
    exists|it: LR0Item| #[trigger]
        a.items(s).contains(it) && rules[it.rule_idx as int].is_start && lr0::complete(rules, it)
}

proof fn lemma_rivals_none(
    rules: Seq<symbols::RuleModel>,
    nt: nat,
    a: Automaton,
    s: int,
    t: SymbolId,
    n: nat,
)
    requires
        forall|r: int| !lalr_table::may_reduce(rules, nt, a, s, t, r),
    ensures
        lalr_table::rivals(rules, nt, a, s, t, n).len() == 0,
    decreases n,
{
    if n > 0 {
        lemma_rivals_none(rules, nt, a, s, t, (n - 1) as nat);
        assert(!lalr_table::may_reduce(rules, nt, a, s, t, n - 1));
    }
}

proof fn lemma_entry_conflict(
    infos: Seq<symbols::SymbolInfo>,
    rules: Seq<symbols::RuleModel>,
    nt: nat,
    a: Automaton,
    strict: bool,
    s: int,
    t: SymbolId,
)
    ensures
        lalr_table::entry_conflict(infos, rules, nt, a, strict, s, t) is Some == is_undecided(
            rules,
            nt,
            a,
            strict,
            s,
            t,
        ),
        lalr_table::shift_or_accept(rules, a, s, t) is Some == can_move(rules, a, s, t),
{
    assert forall|r: int| prevails(rules, nt, a, s, t, r) == #[trigger] lalr_table::wins(
        rules,
        nt,
        a,
        s,
        t,
        r,
    ) by {
        lemma_prevails(rules, nt, a, s, t, r);
    }
    assert(lalr_table::accepts_in(rules, a, s) == is_done(rules, a, s));
    if exists|r: int| lalr_table::may_reduce(rules, nt, a, s, t, r) {
        let r = choose|r: int| lalr_table::may_reduce(rules, nt, a, s, t, r);
        let q = lalr_complete::lemma_representative(rules, nt, a, s, t, r);
        lalr_complete::lemma_rivals_some(rules, nt, a, s, t, q, rules.len());
        if exists|w: int| lalr_table::wins(rules, nt, a, s, t, w) {
            let w = choose|w: int| lalr_table::wins(rules, nt, a, s, t, w);
            assert(prevails(rules, nt, a, s, t, w));
        } else {
            assert forall|r: int| !prevails(rules, nt, a, s, t, r) by {
                assert(!lalr_table::wins(rules, nt, a, s, t, r));
            }
        }
    } else {
        assert forall|r: int| !lalr_table::wins(rules, nt, a, s, t, r) by {
            assert(!lalr_table::may_reduce(rules, nt, a, s, t, r));
        }
        lemma_rivals_none(rules, nt, a, s, t, rules.len());
    }
}

proof fn lemma_some_state_conflict(
    infos: Seq<symbols::SymbolInfo>,
    rules: Seq<symbols::RuleModel>,
    nt: nat,
    a: Automaton,
    strict: bool,
    s: int,
    n: nat,
) -> (t: int)
    requires
        lalr_table::state_conflicts(infos, rules, nt, a, strict, s, n).len() > 0,
    ensures
        0 <= t < n,
        lalr_table::entry_conflict(infos, rules, nt, a, strict, s, SymbolId(t as u32)) is Some,
    decreases n,
{
    if lalr_table::entry_conflict(
        infos,
        rules,
        nt,
        a,
        strict,
        s,
        SymbolId((n - 1) as u32),
    ) is Some {
        n - 1
    } else {
        lemma_some_state_conflict(infos, rules, nt, a, strict, s, (n - 1) as nat)
    }
}

proof fn lemma_some_conflict(
    infos: Seq<symbols::SymbolInfo>,
    rules: Seq<symbols::RuleModel>,
    nt: nat,
    a: Automaton,
    strict: bool,
    m: nat,
) -> (s: int)
    requires
        lalr_table::conflicts(infos, rules, nt, a, strict, m).len() > 0,
    ensures
        0 <= s < m,
        lalr_table::state_conflicts(infos, rules, nt, a, strict, s, nt).len() > 0,
    decreases m,
{
    if lalr_table::state_conflicts(infos, rules, nt, a, strict, m - 1, nt).len() > 0 {
        m - 1
    } else {
        lemma_some_conflict(infos, rules, nt, a, strict, (m - 1) as nat)
    }
}

/// A grammar has no table exactly where some state cannot decide what to do on some
/// terminal.
pub proof fn undecided_grammars_are_refused(
    g: CompiledGrammar,
    strict: bool,
    a: Automaton,
    r: Result<ParseTable, GrammarError>,
)
    requires
        lalr_table::table_by(g, strict, a, r),
        g.terminal_count <= u32::MAX,
    ensures
        r is Err <==> exists|s: int, t: SymbolId|
            0 <= s < a.states@.len() && t.ix() < g.terminal_count && #[trigger] is_undecided(
                g.models(),
                g.terminal_count as nat,
                a,
                strict,
                s,
                t,
            ),
{
    let infos = g.symbols@;
    let rules = g.models();
    let nt = g.terminal_count as nat;
    if r is Err {
        let s = lemma_some_conflict(infos, rules, nt, a, strict, a.states@.len());
        let k = lemma_some_state_conflict(infos, rules, nt, a, strict, s, nt);
        let t = SymbolId(k as u32);
        lemma_entry_conflict(infos, rules, nt, a, strict, s, t);
        assert(is_undecided(rules, nt, a, strict, s, t));
    } else {
        assert forall|s: int, t: SymbolId|
            0 <= s < a.states@.len() && t.ix() < g.terminal_count implies
            !#[trigger] is_undecided(rules, nt, a, strict, s, t) by {
            lalr_complete::lemma_no_state_conflict(
                infos,
                rules,
                nt,
                a,
                strict,
                a.states@.len(),
                s,
            );
            lalr_complete::lemma_no_entry_conflict(
                infos,
                rules,
                nt,
                a,
                strict,
                s,
                nt,
                t.ix() as int,
            );
            assert(SymbolId(t.ix() as u32) == t);
            lemma_entry_conflict(infos, rules, nt, a, strict, s, t);
        }
    }
}

/// What a table does on a terminal: it moves where it can; otherwise it reduces by the
/// rule to which all others that it can reduce by give way; and it refuses a terminal
/// on which it can do neither.
pub proof fn tables_move_or_reduce_by_rank(
    g: CompiledGrammar,
    strict: bool,
    a: Automaton,
    table: ParseTable,
    s: int,
    t: SymbolId,
)
    requires
        lalr_table::table_by(g, strict, a, Ok(table)),
        0 <= s < a.states@.len(),
        t.ix() < g.terminal_count,
    ensures
        ({
            let rules = g.models();
            let nt = g.terminal_count as nat;
            match table.action_for(s, t) {
                Some(Action::Accept) => t == SymbolId::end() && is_done(rules, a, s),
                Some(Action::Shift(q)) => a.target(s, t) == Some(q) && !(t == SymbolId::end()
                    && is_done(rules, a, s)),
                Some(Action::Reduce(r)) => !can_move(rules, a, s, t) && prevails(
                    rules,
                    nt,
                    a,
                    s,
                    t,
                    r as int,
                ),
                None => !can_move(rules, a, s, t) && forall|r: int|
                    !#[trigger] lalr_table::may_reduce(rules, nt, a, s, t, r),
            }
        }),
{
    let infos = g.symbols@;
    let rules = g.models();
    let nt = g.terminal_count as nat;
    lalr_stack::lemma_action(table, a, s, t);
    lemma_entry_conflict(infos, rules, nt, a, strict, s, t);
    lalr_complete::lemma_no_state_conflict(infos, rules, nt, a, strict, a.states@.len(), s);
    lalr_complete::lemma_no_entry_conflict(infos, rules, nt, a, strict, s, nt, t.ix() as int);
    assert(SymbolId(t.ix() as u32) == t);
    assert(lalr_table::accepts_in(rules, a, s) == is_done(rules, a, s));
    assert(!is_undecided(rules, nt, a, strict, s, t));
    if !can_move(rules, a, s, t) {
        if exists|r: int| lalr_table::wins(rules, nt, a, s, t, r) {
            let r = choose|r: int| lalr_table::wins(rules, nt, a, s, t, r);
            lemma_prevails(rules, nt, a, s, t, r);
            assert(rules.len() == table.rules.len());
        } else {
            assert forall|r: int| !prevails(rules, nt, a, s, t, r) by {
                lemma_prevails(rules, nt, a, s, t, r);
            }
        }
    }
}

} // verus!
