//! What an LALR parse takes: a table without conflicts accepts every sentence.

use vstd::prelude::*;
use crate::analysis;
use crate::error;
use crate::error::GrammarError;
use crate::lalr;
use crate::lalr_laws;
use crate::lalr_stack;
use crate::lalr_table;
use crate::lalr_table::{Action, ParseTable};
use crate::lookahead;
use crate::lr0;
use crate::lr0::{Automaton, LR0Item};
use crate::output;
use crate::output::OutputBuilder;
use crate::symbols;
use crate::symbols::{CompiledGrammar, SymbolId};
use crate::token_source::PreLexed;
use crate::tree;
use crate::tree_builder::TreeOutputBuilder;

verus! {

// ---------------------------------------------------------------------------
// Derivation trees by size

/// Whether `s` derives the terminals `w` by a derivation tree of `n` nodes.
pub open spec fn derives_in(
    rules: Seq<symbols::RuleModel>,
    nt: nat,
    s: SymbolId,
    w: Seq<SymbolId>,
    n: nat,
) -> bool
    decreases n, 0nat,
{
    if s.ix() < nt {
        n == 1 && w == seq![s]
    } else {
        n > 0 && exists|r: int|
            0 <= r < rules.len() && (#[trigger] rules[r]).origin == s && derives_seq_in(
                rules,
                nt,
                rules[r].expansion,
                w,
                (n - 1) as nat,
            )
    }
}

/// Whether the symbols `syms`, one after the other, derive the terminals `w` by
/// derivation trees of `n` nodes in all.
pub open spec fn derives_seq_in(
    rules: Seq<symbols::RuleModel>,
    nt: nat,
    syms: Seq<SymbolId>,
    w: Seq<SymbolId>,
    n: nat,
) -> bool
    decreases n, syms.len(),
{
    if syms.len() == 0 {
        w.len() == 0 && n == 0
    } else {
        exists|k: int, m: nat|
            #[trigger] is_split(w, n, k, m) && derives_in(
                rules,
                nt,
                syms.last(),
                w.skip(k),
                m,
            ) && derives_seq_in(rules, nt, syms.drop_last(), w.take(k), (n - m) as nat)
    }
}

/// Whether terminals can be parted at `k`, and `n` nodes at `m`.
pub open spec fn is_split(w: Seq<SymbolId>, n: nat, k: int, m: nat) -> bool {
    0 <= k <= w.len() && m <= n
}

/// A tree of `n` nodes is no higher than `n`.
pub(crate) proof fn lemma_tree_height(
    rules: Seq<symbols::RuleModel>,
    nt: nat,
    s: SymbolId,
    w: Seq<SymbolId>,
    n: nat,
)
    requires
        derives_in(rules, nt, s, w, n),
    ensures
        analysis::derives_sym(rules, nt, s, w, n),
    decreases n, 0nat,
{
    if s.ix() >= nt {
        let r = choose|r: int|
            0 <= r < rules.len() && (#[trigger] rules[r]).origin == s && derives_seq_in(
                rules,
                nt,
                rules[r].expansion,
                w,
                (n - 1) as nat,
            );
        lemma_trees_height(rules, nt, rules[r].expansion, w, (n - 1) as nat);
    }
}

proof fn lemma_trees_height(
    rules: Seq<symbols::RuleModel>,
    nt: nat,
    syms: Seq<SymbolId>,
    w: Seq<SymbolId>,
    n: nat,
)
    requires
        derives_seq_in(rules, nt, syms, w, n),
    ensures
        analysis::derives_seq(rules, nt, syms, w, n),
    decreases n, syms.len(),
{
    if syms.len() > 0 {
        let (k, m) = choose|k: int, m: nat|
            #[trigger] is_split(w, n, k, m) && derives_in(rules, nt, syms.last(), w.skip(k), m)
                && derives_seq_in(rules, nt, syms.drop_last(), w.take(k), (n - m) as nat);
        lemma_tree_height(rules, nt, syms.last(), w.skip(k), m);
        analysis::lemma_derives_mono(rules, nt, syms.last(), w.skip(k), m, n);
        lemma_trees_height(rules, nt, syms.drop_last(), w.take(k), (n - m) as nat);
        analysis::lemma_derives_seq_mono(
            rules,
            nt,
            syms.drop_last(),
            w.take(k),
            (n - m) as nat,
            n,
        );
    }
}

/// What is derived is derived by a tree of some number of nodes.
pub proof fn derivation_has_a_size(
    rules: Seq<symbols::RuleModel>,
    nt: nat,
    s: SymbolId,
    w: Seq<SymbolId>,
)
    requires
        analysis::derives(rules, nt, s, w),
    ensures
        exists|n: nat| #[trigger] derives_in(rules, nt, s, w, n),
{
    let d = choose|d: nat| #[trigger] analysis::derives_sym(rules, nt, s, w, d);
    let n = lemma_sized(rules, nt, s, w, d);
    assert(derives_in(rules, nt, s, w, n));
}

proof fn lemma_sized(
    rules: Seq<symbols::RuleModel>,
    nt: nat,
    s: SymbolId,
    w: Seq<SymbolId>,
    d: nat,
) -> (n: nat)
    requires
        analysis::derives_sym(rules, nt, s, w, d),
    ensures
        derives_in(rules, nt, s, w, n),
    decreases d, 0nat,
{
    if s.ix() < nt {
        1
    } else {
        let r = choose|r: int|
            0 <= r < rules.len() && (#[trigger] rules[r]).origin == s && analysis::derives_seq(
                rules,
                nt,
                rules[r].expansion,
                w,
                (d - 1) as nat,
            );
        let m = lemma_all_sized(rules, nt, rules[r].expansion, w, (d - 1) as nat);
        assert(((m + 1) - 1) as nat == m);
        m + 1
    }
}

proof fn lemma_all_sized(
    rules: Seq<symbols::RuleModel>,
    nt: nat,
    syms: Seq<SymbolId>,
    w: Seq<SymbolId>,
    d: nat,
) -> (n: nat)
    requires
        analysis::derives_seq(rules, nt, syms, w, d),
    ensures
        derives_seq_in(rules, nt, syms, w, n),
    decreases d, syms.len(),
{
    if syms.len() == 0 {
        0
    } else {
        let k = choose|k: int|
            0 <= k <= w.len() && analysis::derives_sym(
                rules,
                nt,
                syms.last(),
                #[trigger] w.skip(k),
                d,
            ) && analysis::derives_seq(rules, nt, syms.drop_last(), w.take(k), d);
        let m = lemma_sized(rules, nt, syms.last(), w.skip(k), d);
        let f = lemma_all_sized(rules, nt, syms.drop_last(), w.take(k), d);
        let n = m + f;
        assert(is_split(w, n, k, m));
        assert((n - m) as nat == f);
        n
    }
}

/// What is derived begins with a first terminal of the symbol.
proof fn lemma_derives_first(
    rules: Seq<symbols::RuleModel>,
    nt: nat,
    s: SymbolId,
    w: Seq<SymbolId>,
    d: nat,
)
    requires
        analysis::derives_sym(rules, nt, s, w, d),
        w.len() > 0,
    ensures
        analysis::first_in(rules, nt, s, w[0], d),
    decreases d, 0nat,
{
    if s.ix() >= nt {
        let r = choose|r: int|
            0 <= r < rules.len() && (#[trigger] rules[r]).origin == s && analysis::derives_seq(
                rules,
                nt,
                rules[r].expansion,
                w,
                (d - 1) as nat,
            );
        let j = lemma_seq_first(rules, nt, rules[r].expansion, w, (d - 1) as nat);
        assert(analysis::first_in(rules, nt, rules[r].expansion[j], w[0], (d - 1) as nat));
    }
}

proof fn lemma_seq_first(
    rules: Seq<symbols::RuleModel>,
    nt: nat,
    syms: Seq<SymbolId>,
    w: Seq<SymbolId>,
    d: nat,
) -> (j: int)
    requires
        analysis::derives_seq(rules, nt, syms, w, d),
        w.len() > 0,
    ensures
        0 <= j < syms.len(),
        analysis::all_nullable(rules, nt, syms.take(j)),
        analysis::first_in(rules, nt, syms[j], w[0], d),
    decreases d, syms.len(),
{
    let k = choose|k: int|
        0 <= k <= w.len() && analysis::derives_sym(rules, nt, syms.last(), #[trigger] w.skip(k), d)
            && analysis::derives_seq(rules, nt, syms.drop_last(), w.take(k), d);
    let front = syms.drop_last();
    if k > 0 {
        assert(w.take(k)[0] == w[0]);
        let j = lemma_seq_first(rules, nt, front, w.take(k), d);
        assert(front.take(j) =~= syms.take(j));
        j
    } else {
        assert(w.take(k) =~= Seq::empty());
        assert(w.skip(k) =~= w);
        assert(analysis::derives_all(rules, nt, front, Seq::empty()));
        analysis::lemma_derives_all_nullable(rules, nt, front);
        lemma_derives_first(rules, nt, syms.last(), w, d);
        assert(syms.take(syms.len() - 1) =~= front);
        syms.len() - 1
    }
}

// ---------------------------------------------------------------------------
// Tables without conflicts

/// Whether two rules have the same origin and expansion.
pub open spec fn same_production(rules: Seq<symbols::RuleModel>, q: int, r: int) -> bool {
    rules[q].origin == rules[r].origin && rules[q].expansion == rules[r].expansion
}

/// Whether no entry of an automaton has more than one action: where a state may
/// reduce on a terminal it has no move on it, and reduces by one production.
pub open spec fn is_free_of_conflicts(
    rules: Seq<symbols::RuleModel>,
    nt: nat,
    a: Automaton,
) -> bool {
    &&& forall|s: int, t: SymbolId, r: int|
        0 <= s < a.states@.len() && t.ix() < nt && #[trigger] lalr_table::may_reduce(
            rules,
            nt,
            a,
            s,
            t,
            r,
        ) ==> lalr_table::shift_or_accept(rules, a, s, t) is None
    &&& forall|s: int, t: SymbolId, q: int, r: int|
        0 <= s < a.states@.len() && t.ix() < nt && #[trigger] lalr_table::may_reduce(
            rules,
            nt,
            a,
            s,
            t,
            q,
        ) && #[trigger] lalr_table::may_reduce(rules, nt, a, s, t, r) ==> same_production(
            rules,
            q,
            r,
        )
}

/// The rule among the first `n` by which a state reduces on a terminal, or a
/// negative number.
proof fn lemma_best(
    rules: Seq<symbols::RuleModel>,
    nt: nat,
    a: Automaton,
    s: int,
    t: SymbolId,
    n: nat,
) -> (q: int)
    requires
        is_free_of_conflicts(rules, nt, a),
        0 <= s < a.states@.len(),
        t.ix() < nt,
        n <= rules.len(),
    ensures
        q < 0 ==> forall|p: int| 0 <= p < n ==> !#[trigger] lalr_table::may_reduce(rules, nt, a, s, t, p),
        q >= 0 ==> q < n && lalr_table::may_reduce(rules, nt, a, s, t, q) && forall|p: int|
            0 <= p < n && #[trigger] lalr_table::may_reduce(rules, nt, a, s, t, p)
                ==> !lalr_table::supersedes(rules, p, q),
    decreases n,
{
    if n == 0 {
        -1
    } else {
        let b = lemma_best(rules, nt, a, s, t, (n - 1) as nat);
        let c = n - 1;
        if lalr_table::may_reduce(rules, nt, a, s, t, c) {
            if b < 0 || lalr_table::supersedes(rules, c, b) {
                assert forall|p: int|
                    0 <= p < n && #[trigger] lalr_table::may_reduce(
                        rules,
                        nt,
                        a,
                        s,
                        t,
                        p,
                    ) implies !lalr_table::supersedes(rules, p, c) by {
                    if p < c {
                        assert(!lalr_table::supersedes(rules, p, b));
                        assert(same_production(rules, p, b));
                    }
                }
                c
            } else {
                b
            }
        } else {
            b
        }
    }
}

/// Where a state may reduce, it reduces by a rule of that production.
proof fn lemma_reduces(
    table: ParseTable,
    a: Automaton,
    s: int,
    t: SymbolId,
    r: int,
) -> (q: usize)
    requires
        table.tabulates(a),
        is_free_of_conflicts(table.models(), table.n_terminals as nat, a),
        0 <= s < a.states@.len(),
        t.ix() < table.n_terminals,
        lalr_table::may_reduce(table.models(), table.n_terminals as nat, a, s, t, r),
    ensures
        table.action_for(s, t) == Some(Action::Reduce(q)),
        q < table.models().len(),
        same_production(table.models(), q as int, r),
{
    let rules = table.models();
    let nt = table.n_terminals as nat;
    let b = lemma_best(rules, nt, a, s, t, rules.len());
    assert(lalr_table::represents(rules, nt, a, s, t, b));
    assert(lalr_table::wins(rules, nt, a, s, t, b)) by {
        assert forall|q: int| #[trigger]
            lalr_table::represents(rules, nt, a, s, t, q) && q != b implies rules[q].priority
            < rules[b].priority by {
            assert(lalr_table::may_reduce(rules, nt, a, s, t, q));
            assert(lalr_table::may_reduce(rules, nt, a, s, t, b));
            assert(same_production(rules, q, b));
            assert(!lalr_table::supersedes(rules, b, q));
            assert(!lalr_table::supersedes(rules, q, b));
        }
    }
    let w = choose|w: int| lalr_table::wins(rules, nt, a, s, t, w);
    assert(lalr_table::wins(rules, nt, a, s, t, w));
    assert(lalr_table::may_reduce(rules, nt, a, s, t, w));
    assert(same_production(rules, w, r));
    lalr_stack::lemma_action(table, a, s, t);
    assert(table.rules@.len() == table.rules.len());
    w as usize
}

// ---------------------------------------------------------------------------
// Steps of a run

/// The stack and the terminals to come after one move or reduction.
pub open spec fn step(
    table: ParseTable,
    states: Seq<usize>,
    u: Seq<SymbolId>,
) -> Option<(Seq<usize>, Seq<SymbolId>)> {
    if u.len() == 0 {
        None
    } else {
        match table.action_for(states.last() as int, u[0]) {
            Some(Action::Shift(q)) => Some((states.push(q), u.drop_first())),
            Some(Action::Reduce(r)) => match lalr_stack::reduced_states(
                table,
                states,
                r as int,
            ) {
                Some(next) => Some((next, u)),
                None => None,
            },
            _ => None,
        }
    }
}

/// Whether `n` steps lead from one stack and terminals to come to others.
pub open spec fn reaches(
    table: ParseTable,
    states: Seq<usize>,
    u: Seq<SymbolId>,
    v: Seq<usize>,
    w: Seq<SymbolId>,
    n: nat,
) -> bool
    decreases n,
{
    if n == 0 {
        states == v && u == w
    } else {
        match step(table, states, u) {
            Some((next, rest)) => reaches(table, next, rest, v, w, (n - 1) as nat),
            None => false,
        }
    }
}

/// Steps after steps.
proof fn lemma_reaches_trans(
    table: ParseTable,
    s1: Seq<usize>,
    u1: Seq<SymbolId>,
    s2: Seq<usize>,
    u2: Seq<SymbolId>,
    s3: Seq<usize>,
    u3: Seq<SymbolId>,
    n: nat,
    m: nat,
)
    requires
        reaches(table, s1, u1, s2, u2, n),
        reaches(table, s2, u2, s3, u3, m),
    ensures
        reaches(table, s1, u1, s3, u3, n + m),
    decreases n,
{
    if n > 0 {
        let (next, rest) = step(table, s1, u1)->0;
        lemma_reaches_trans(table, next, rest, s2, u2, s3, u3, (n - 1) as nat, m);
        assert(((n + m) - 1) as nat == (n - 1) as nat + m);
    }
}

proof fn lemma_one_step(
    table: ParseTable,
    s1: Seq<usize>,
    u1: Seq<SymbolId>,
    s2: Seq<usize>,
    u2: Seq<SymbolId>,
)
    requires
        step(table, s1, u1) == Some((s2, u2)),
    ensures
        reaches(table, s1, u1, s2, u2, 1),
{
    assert(reaches(table, s2, u2, s2, u2, 0));
}

// ---------------------------------------------------------------------------
// Items along a run

/// The item of rule `r` with its dot at `d`.
pub open spec fn dotted(r: int, d: int) -> LR0Item {
    LR0Item { rule_idx: r as usize, dot: d as usize }
}

/// A state holds what its items predict.
proof fn lemma_state_closed(
    rules: Seq<symbols::RuleModel>,
    starts: Seq<(SymbolId, usize)>,
    a: Automaton,
    s: int,
    by: LR0Item,
    r: usize,
)
    requires
        a.wf(rules, starts),
        0 <= s < a.states@.len(),
        a.items(s).contains(by),
        r < rules.len(),
        lr0::expected(rules, by) == Some(rules[r as int].origin),
    ensures
        a.items(s).contains(LR0Item { rule_idx: r, dot: 0 }),
{
    assert(a.reached_state(s));
    assert(a.states@.len() == a.states.len());
    if exists|i: int| 0 <= i < a.start_states@.len() && #[trigger] a.start_states@[i] == s {
        let i = choose|i: int| 0 <= i < a.start_states@.len() && #[trigger] a.start_states@[i] == s;
        lr0::lemma_closure_closed(
            rules,
            set![LR0Item { rule_idx: starts[i].1, dot: 0 }],
            by,
            r,
        );
    } else {
        let (p, x) = choose|p: int, x: SymbolId|
            0 <= p < s && p < a.transitions@.len() && #[trigger] a.target(p, x) == Some(s as usize);
        assert(a.target(p, x) is Some);
        lr0::lemma_closure_closed(rules, lr0::moved(rules, a.items(p), x), by, r);
    }
}

/// The symbol that an item expects leads on to the advanced item.
proof fn lemma_moves_on(
    rules: Seq<symbols::RuleModel>,
    starts: Seq<(SymbolId, usize)>,
    a: Automaton,
    s: int,
    r: int,
    d: int,
)
    requires
        a.wf(rules, starts),
        0 <= s < a.states@.len(),
        0 <= r < rules.len() <= usize::MAX,
        0 <= d < rules[r].expansion.len() <= usize::MAX,
        a.items(s).contains(dotted(r, d)),
    ensures
        a.target(s, rules[r].expansion[d]) is Some,
        a.target(s, rules[r].expansion[d])->0 < a.states@.len(),
        a.items(a.target(s, rules[r].expansion[d])->0 as int).contains(dotted(r, d + 1)),
{
    let x = rules[r].expansion[d];
    let next = dotted(r, d + 1);
    let kernel = lr0::moved(rules, a.items(s), x);
    assert(LR0Item { rule_idx: next.rule_idx, dot: (next.dot - 1) as usize } == dotted(r, d));
    assert(kernel.contains(next));
    assert(a.target(s, x) is Some || a.target(s, x) is None);
    assert(lr0::predicted(rules, kernel, next, 0));
    assert(lr0::closure_of(rules, kernel).contains(next));
}

/// Whether `v` goes on from its state number `base` along the first `j` symbols
/// of rule `r`.
pub open spec fn is_trail(
    rules: Seq<symbols::RuleModel>,
    a: Automaton,
    v: Seq<usize>,
    base: int,
    r: int,
    j: int,
) -> bool {
    &&& v.len() == base + j + 1
    &&& forall|i: int|
        0 <= i <= j ==> (#[trigger] v[base + i]) < a.states@.len() && a.items(
            v[base + i] as int,
        ).contains(dotted(r, i))
    &&& forall|i: int|
        0 <= i < j ==> a.target((#[trigger] v[base + i]) as int, rules[r].expansion[i]) == Some(
            v[base + i + 1],
        )
}

/// A trail goes on over one more symbol.
pub(crate) proof fn lemma_trail_on(
    rules: Seq<symbols::RuleModel>,
    a: Automaton,
    u: Seq<usize>,
    base: int,
    r: int,
    j: int,
    q: usize,
)
    requires
        0 <= base,
        0 < j,
        is_trail(rules, a, u, base, r, j - 1),
        a.target(u.last() as int, rules[r].expansion[j - 1]) == Some(q),
        q < a.states@.len(),
        a.items(q as int).contains(dotted(r, j)),
    ensures
        is_trail(rules, a, u.push(q), base, r, j),
{
    let v = u.push(q);
    assert forall|i: int| 0 <= i <= j implies (#[trigger] v[base + i]) < a.states@.len()
        && a.items(v[base + i] as int).contains(dotted(r, i)) by {
        if i < j {
            assert(v[base + i] == u[base + i]);
        }
    }
    assert forall|i: int| 0 <= i < j implies a.target(
        (#[trigger] v[base + i]) as int,
        rules[r].expansion[i],
    ) == Some(v[base + i + 1]) by {
        assert(v[base + i] == u[base + i]);
        if i < j - 1 {
            assert(v[base + i + 1] == u[base + i + 1]);
        }
    }
}

/// What follows a rule follows it along its symbols.
proof fn lemma_trail_follows(
    rules: Seq<symbols::RuleModel>,
    nt: nat,
    a: Automaton,
    v: Seq<usize>,
    base: int,
    r: int,
    j: int,
    t: SymbolId,
    i: int,
)
    requires
        is_trail(rules, a, v, base, r, j),
        0 <= base,
        0 <= i <= j <= rules[r].expansion.len() <= usize::MAX,
        0 <= r < rules.len() <= usize::MAX,
        lookahead::follows(rules, nt, a, v[base] as int, dotted(r, 0), t),
    ensures
        lookahead::follows(rules, nt, a, v[base + i] as int, dotted(r, i), t),
    decreases i,
{
    if i > 0 {
        lemma_trail_follows(rules, nt, a, v, base, r, j, t, i - 1);
        let p = v[base + (i - 1)] as int;
        let it = dotted(r, i);
        let n = choose|n: nat| #[trigger]
            lookahead::follows_in(rules, nt, a, p, dotted(r, i - 1), t, n);
        assert(lookahead::retreated(it) == dotted(r, i - 1));
        assert(a.items(p).contains(lookahead::retreated(it)));
        assert(a.target(p, rules[r].expansion[i - 1]) == Some(v[base + (i - 1) + 1]));
        assert(base + (i - 1) + 1 == base + i);
        assert(lr0::expected(rules, lookahead::retreated(it)) == Some(rules[r].expansion[i - 1]));
        assert(((n + 1) - 1) as nat == n);
        assert(lookahead::follows_in(rules, nt, a, v[base + i] as int, it, t, n + 1));
    } else {
        assert(v[base + 0] == v[base]);
    }
}

/// Whether a terminal can come after a symbol in a state.
pub open spec fn can_follow(
    rules: Seq<symbols::RuleModel>,
    nt: nat,
    a: Automaton,
    s: int,
    x: SymbolId,
    t: SymbolId,
) -> bool {
    forall|r: int|
        0 <= r < rules.len() && (#[trigger] rules[r]).origin == x ==> lookahead::follows(
            rules,
            nt,
            a,
            s,
            dotted(r, 0),
            t,
        )
}

/// Whether a terminal can come after the first `j` symbols of rule `r`, begun
/// in state `s`.
pub open spec fn can_come(
    rules: Seq<symbols::RuleModel>,
    nt: nat,
    a: Automaton,
    s: int,
    r: int,
    j: int,
    t: SymbolId,
) -> bool {
    ||| analysis::first_of(rules, nt, rules[r].expansion.skip(j), t)
    ||| analysis::all_nullable(rules, nt, rules[r].expansion.skip(j)) && lookahead::follows(
        rules,
        nt,
        a,
        s,
        dotted(r, 0),
        t,
    )
}

/// A terminal that can come after the symbols of a rule can come after the last
/// of them.
pub(crate) proof fn lemma_can_follow(
    rules: Seq<symbols::RuleModel>,
    nt: nat,
    a: Automaton,
    v: Seq<usize>,
    base: int,
    r: int,
    j: int,
    t: SymbolId,
)
    requires
        is_trail(rules, a, v, base, r, j - 1),
        0 <= base,
        0 < j <= rules[r].expansion.len() <= usize::MAX,
        0 <= r < rules.len() <= usize::MAX,
        can_come(rules, nt, a, v[base] as int, r, j, t),
    ensures
        can_follow(rules, nt, a, v.last() as int, rules[r].expansion[j - 1], t),
{
    let s = v.last() as int;
    assert(v.last() == v[base + (j - 1)]);
    let by = dotted(r, j - 1);
    let x = rules[r].expansion[j - 1];
    assert(a.items(s).contains(by));
    assert(lr0::expected(rules, by) == Some(x));
    assert(lookahead::rest_of(rules, by) =~= rules[r].expansion.skip(j));
    assert forall|q: int| 0 <= q < rules.len() && (#[trigger] rules[q]).origin == x implies
        lookahead::follows(rules, nt, a, s, dotted(q, 0), t) by {
        let it = dotted(q, 0);
        if analysis::first_of(rules, nt, rules[r].expansion.skip(j), t) {
            assert(lookahead::follows_in(rules, nt, a, s, it, t, 1));
        } else {
            lemma_trail_follows(rules, nt, a, v, base, r, j - 1, t, j - 1);
            let n = choose|n: nat| #[trigger] lookahead::follows_in(rules, nt, a, s, by, t, n);
            assert(((n + 1) - 1) as nat == n);
            assert(lookahead::follows_in(rules, nt, a, s, it, t, n + 1));
        }
    }
}

/// What can come before the last of the symbols of a rule.
pub(crate) proof fn lemma_can_come(
    rules: Seq<symbols::RuleModel>,
    nt: nat,
    a: Automaton,
    s: int,
    r: int,
    j: int,
    w: Seq<SymbolId>,
    rest: Seq<SymbolId>,
)
    requires
        0 < j <= rules[r].expansion.len(),
        rest.len() > 0,
        analysis::derives(rules, nt, rules[r].expansion[j - 1], w),
        can_come(rules, nt, a, s, r, j, rest[0]),
    ensures
        can_come(rules, nt, a, s, r, j - 1, (w + rest)[0]),
{
    let e = rules[r].expansion;
    let x = e[j - 1];
    let tail = e.skip(j);
    let more = e.skip(j - 1);
    assert(more[0] == x);
    if w.len() > 0 {
        let d = choose|d: nat| #[trigger] analysis::derives_sym(rules, nt, x, w, d);
        lemma_derives_first(rules, nt, x, w, d);
        assert(more.take(0) =~= Seq::empty());
        assert(analysis::first(rules, nt, more[0], w[0]));
    } else {
        assert(w =~= Seq::empty());
        assert(analysis::nullable(rules, nt, x));
        assert(w + rest =~= rest);
        let t = rest[0];
        if analysis::first_of(rules, nt, tail, t) {
            let i = choose|i: int|
                0 <= i < tail.len() && analysis::all_nullable(rules, nt, tail.take(i))
                    && analysis::first(rules, nt, #[trigger] tail[i], t);
            assert(more[i + 1] == tail[i]);
            assert forall|q: int| 0 <= q < more.take(i + 1).len() implies analysis::nullable(
                rules,
                nt,
                #[trigger] more.take(i + 1)[q],
            ) by {
                if q > 0 {
                    assert(more.take(i + 1)[q] == tail.take(i)[q - 1]);
                }
            }
            assert(analysis::first(rules, nt, more[i + 1], t));
        } else {
            assert forall|q: int| 0 <= q < more.len() implies analysis::nullable(
                rules,
                nt,
                #[trigger] more[q],
            ) by {
                if q > 0 {
                    assert(more[q] == tail[q - 1]);
                }
            }
        }
    }
}

// ---------------------------------------------------------------------------
// A run over what a symbol derives

/// Whether a table is one that takes every sentence.
#[verifier::opaque]
pub open spec fn is_complete(table: ParseTable, a: Automaton) -> bool {
    &&& table.tabulates(a)
    &&& is_free_of_conflicts(table.models(), table.n_terminals as nat, a)
    &&& lalr_laws::end_is_reserved(table.models())
}

/// Whether all symbols are terminals.
pub open spec fn all_terminals(nt: nat, u: Seq<SymbolId>) -> bool {
    forall|i: int| 0 <= i < u.len() ==> (#[trigger] u[i]).ix() < nt
}

/// What is derived is terminals.
pub(crate) proof fn lemma_derived_terminals(
    rules: Seq<symbols::RuleModel>,
    nt: nat,
    s: SymbolId,
    w: Seq<SymbolId>,
    d: nat,
)
    requires
        analysis::derives_sym(rules, nt, s, w, d),
    ensures
        all_terminals(nt, w),
    decreases d, 0nat,
{
    if s.ix() >= nt {
        let r = choose|r: int|
            0 <= r < rules.len() && (#[trigger] rules[r]).origin == s && analysis::derives_seq(
                rules,
                nt,
                rules[r].expansion,
                w,
                (d - 1) as nat,
            );
        lemma_all_derived_terminals(rules, nt, rules[r].expansion, w, (d - 1) as nat);
    }
}

proof fn lemma_all_derived_terminals(
    rules: Seq<symbols::RuleModel>,
    nt: nat,
    syms: Seq<SymbolId>,
    w: Seq<SymbolId>,
    d: nat,
)
    requires
        analysis::derives_seq(rules, nt, syms, w, d),
    ensures
        all_terminals(nt, w),
    decreases d, syms.len(),
{
    if syms.len() > 0 {
        let k = choose|k: int|
            0 <= k <= w.len() && analysis::derives_sym(
                rules,
                nt,
                syms.last(),
                #[trigger] w.skip(k),
                d,
            ) && analysis::derives_seq(rules, nt, syms.drop_last(), w.take(k), d);
        lemma_derived_terminals(rules, nt, syms.last(), w.skip(k), d);
        lemma_all_derived_terminals(rules, nt, syms.drop_last(), w.take(k), d);
        assert forall|i: int| 0 <= i < w.len() implies (#[trigger] w[i]).ix() < nt by {
            if i < k {
                assert(w.take(k)[i] == w[i]);
            } else {
                assert(w.skip(k)[i - k] == w[i]);
            }
        }
    }
}

/// The sizes of the rules of a table.
pub(crate) proof fn lemma_rule_sizes(table: ParseTable)
    ensures
        table.models().len() <= usize::MAX,
        forall|r: int|
            0 <= r < table.models().len() ==> (#[trigger] table.models()[r]).expansion.len()
                <= usize::MAX,
{
    assert(table.rules@.len() == table.rules.len());
    assert forall|r: int| 0 <= r < table.models().len() implies (
    #[trigger] table.models()[r]).expansion.len() <= usize::MAX by {
        let v = table.rules@[r].expansion;
        assert(v@.len() == v.len());
    }
}

/// Where an item expects a symbol, the symbol leads on to the advanced item.
pub(crate) proof fn lemma_leads_on(
    table: ParseTable,
    a: Automaton,
    s: int,
    r: int,
    d: int,
) -> (q: usize)
    requires
        is_complete(table, a),
        0 <= s < a.states@.len(),
        0 <= r < table.models().len(),
        0 <= d < table.models()[r].expansion.len(),
        a.items(s).contains(dotted(r, d)),
    ensures
        a.target(s, table.models()[r].expansion[d]) == Some(q),
        q < a.states@.len(),
        a.items(q as int).contains(dotted(r, d + 1)),
{
    reveal(is_complete);
    lemma_rule_sizes(table);
    let rules = table.models();
    assert(rules[r].expansion.len() <= usize::MAX);
    lemma_moves_on(
        rules,
        lalr_table::start_rules(rules, table.starts@),
        a,
        s,
        r,
        d,
    );
    a.target(s, rules[r].expansion[d])->0
}

/// A terminal that an item expects is shifted.
pub(crate) proof fn lemma_shift_step(
    table: ParseTable,
    a: Automaton,
    states: Seq<usize>,
    r: int,
    d: int,
    q: usize,
    rest: Seq<SymbolId>,
)
    requires
        is_complete(table, a),
        states.len() > 0,
        states.last() < a.states@.len(),
        0 <= r < table.models().len(),
        0 <= d < table.models()[r].expansion.len(),
        table.models()[r].expansion[d].ix() < table.n_terminals,
        a.target(states.last() as int, table.models()[r].expansion[d]) == Some(q),
    ensures
        reaches(
            table,
            states,
            seq![table.models()[r].expansion[d]] + rest,
            states.push(q),
            rest,
            1,
        ),
        table.action_for(states.last() as int, table.models()[r].expansion[d]) == Some(
            Action::Shift(q),
        ),
{
    reveal(is_complete);
    let x = table.models()[r].expansion[d];
    let u = seq![x] + rest;
    assert(x != SymbolId::end());
    lalr_stack::lemma_action(table, a, states.last() as int, x);
    assert(u[0] == x);
    assert(u.drop_first() =~= rest);
    lemma_one_step(table, states, u, states.push(q), rest);
}

/// A rule of a symbol that an item expects is predicted.
pub(crate) proof fn lemma_predicts(
    table: ParseTable,
    a: Automaton,
    s: int,
    by: LR0Item,
    r: int,
)
    requires
        is_complete(table, a),
        0 <= s < a.states@.len(),
        a.items(s).contains(by),
        0 <= r < table.models().len(),
        lr0::expected(table.models(), by) == Some(table.models()[r].origin),
    ensures
        a.items(s).contains(dotted(r, 0)),
        !table.models()[r].is_start,
{
    reveal(is_complete);
    lemma_rule_sizes(table);
    let rules = table.models();
    lemma_state_closed(
        rules,
        lalr_table::start_rules(rules, table.starts@),
        a,
        s,
        by,
        r as usize,
    );
    if rules[r].is_start {
        assert(rules[by.rule_idx as int].expansion[by.dot as int] != rules[r].origin);
    }
}

/// A rule whose symbols have been taken is reduced.
pub(crate) proof fn lemma_reduce_step(
    table: ParseTable,
    a: Automaton,
    states: Seq<usize>,
    v: Seq<usize>,
    r: int,
    q: usize,
    rest: Seq<SymbolId>,
) -> (p: usize)
    requires
        is_complete(table, a),
        states.len() > 0,
        states.last() < a.states@.len(),
        0 <= r < table.models().len(),
        !table.models()[r].is_start,
        is_trail(
            table.models(),
            a,
            v,
            states.len() - 1,
            r,
            table.models()[r].expansion.len() as int,
        ),
        v.take(states.len() as int) == states,
        rest.len() > 0,
        rest[0].ix() < table.n_terminals,
        lookahead::follows(
            table.models(),
            table.n_terminals as nat,
            a,
            states.last() as int,
            dotted(r, 0),
            rest[0],
        ),
        a.target(states.last() as int, table.models()[r].origin) == Some(q),
    ensures
        reaches(table, v, rest, states.push(q), rest, 1),
        table.action_for(v.last() as int, rest[0]) == Some(Action::Reduce(p)),
        lalr_stack::reduced_states(table, v, p as int) == Some(states.push(q)),
        p < table.models().len(),
        same_production(table.models(), p as int, r),
{
    reveal(is_complete);
    lemma_rule_sizes(table);
    let rules = table.models();
    let nt = table.n_terminals as nat;
    let e = rules[r].expansion;
    let base = states.len() - 1;
    let top = v.last() as int;
    let t = rest[0];
    assert(v.last() == v[base + e.len()]);
    assert(v[base] == states.last()) by {
        assert(v.take(states.len() as int)[base] == v[base]);
    }
    lemma_trail_follows(rules, nt, a, v, base, r, e.len() as int, t, e.len() as int);
    assert(dotted(r, e.len() as int) == lalr_table::end_item(rules, r));
    assert(lalr_table::may_reduce(rules, nt, a, top, t, r));
    let p = lemma_reduces(table, a, top, t, r);
    lalr_stack::lemma_goto(table, a, states.last() as int, rules[r].origin);
    assert(v.take(v.len() - e.len()) =~= states) by {
        assert(v.take(states.len() as int) =~= states);
    }
    assert(lalr_stack::reduced_states(table, v, p as int) == Some(states.push(q)));
    lemma_one_step(table, v, rest, states.push(q), rest);
    p
}

/// A table without conflicts takes what a symbol derives, where the state
/// expects the symbol and the terminal behind can follow it.
proof fn lemma_takes_symbol(
    table: ParseTable,
    a: Automaton,
    states: Seq<usize>,
    x: SymbolId,
    by: LR0Item,
    w: Seq<SymbolId>,
    rest: Seq<SymbolId>,
    n: nat,
) -> (q: usize)
    requires
        is_complete(table, a),
        states.len() > 0,
        states.last() < a.states@.len(),
        a.items(states.last() as int).contains(by),
        lr0::expected(table.models(), by) == Some(x),
        derives_in(table.models(), table.n_terminals as nat, x, w, n),
        rest.len() > 0,
        all_terminals(table.n_terminals as nat, rest),
        can_follow(
            table.models(),
            table.n_terminals as nat,
            a,
            states.last() as int,
            x,
            rest[0],
        ),
    ensures
        a.target(states.last() as int, x) == Some(q),
        q < a.states@.len(),
        reaches(table, states, w + rest, states.push(q), rest, n),
    decreases n, 0nat,
{
    let rules = table.models();
    let nt = table.n_terminals as nat;
    let s = states.last() as int;
    assert(by == dotted(by.rule_idx as int, by.dot as int));
    let q = lemma_leads_on(table, a, s, by.rule_idx as int, by.dot as int);
    if x.ix() < nt {
        lemma_shift_step(table, a, states, by.rule_idx as int, by.dot as int, q, rest);
    } else {
        let r = choose|r: int|
            0 <= r < rules.len() && (#[trigger] rules[r]).origin == x && derives_seq_in(
                rules,
                nt,
                rules[r].expansion,
                w,
                (n - 1) as nat,
            );
        let e = rules[r].expansion;
        lemma_predicts(table, a, s, by, r);
        assert(e.take(e.len() as int) =~= e);
        assert(e.skip(e.len() as int) =~= Seq::empty());
        assert(can_come(rules, nt, a, s, r, e.len() as int, rest[0]));
        let v = lemma_takes_symbols(
            table,
            a,
            states,
            r,
            e.len() as int,
            w,
            rest,
            (n - 1) as nat,
        );
        let _p = lemma_reduce_step(table, a, states, v, r, q, rest);
        lemma_reaches_trans(
            table,
            states,
            w + rest,
            v,
            rest,
            states.push(q),
            rest,
            (n - 1) as nat,
            1,
        );
        assert((n - 1) as nat + 1 == n);
    }
    q
}

proof fn lemma_takes_symbols(
    table: ParseTable,
    a: Automaton,
    states: Seq<usize>,
    r: int,
    j: int,
    w: Seq<SymbolId>,
    rest: Seq<SymbolId>,
    n: nat,
) -> (v: Seq<usize>)
    requires
        is_complete(table, a),
        states.len() > 0,
        states.last() < a.states@.len(),
        0 <= r < table.models().len(),
        a.items(states.last() as int).contains(dotted(r, 0)),
        0 <= j <= table.models()[r].expansion.len(),
        derives_seq_in(
            table.models(),
            table.n_terminals as nat,
            table.models()[r].expansion.take(j),
            w,
            n,
        ),
        rest.len() > 0,
        all_terminals(table.n_terminals as nat, rest),
        can_come(
            table.models(),
            table.n_terminals as nat,
            a,
            states.last() as int,
            r,
            j,
            rest[0],
        ),
    ensures
        is_trail(table.models(), a, v, states.len() - 1, r, j),
        v.take(states.len() as int) == states,
        reaches(table, states, w + rest, v, rest, n),
    decreases n, j,
{
    let rules = table.models();
    let nt = table.n_terminals as nat;
    let base = states.len() - 1;
    let e = rules[r].expansion;
    let syms = e.take(j);
    lemma_rule_sizes(table);
    if j == 0 {
        assert(w + rest =~= rest);
        assert(states.take(states.len() as int) =~= states);
        states
    } else {
        let (k, m) = choose|k: int, m: nat|
            #[trigger] is_split(w, n, k, m) && derives_in(rules, nt, syms.last(), w.skip(k), m)
                && derives_seq_in(rules, nt, syms.drop_last(), w.take(k), (n - m) as nat);
        let x = e[j - 1];
        assert(syms.last() == x);
        assert(syms.drop_last() =~= e.take(j - 1));
        let back = w.skip(k);
        let after = back + rest;
        lemma_tree_height(rules, nt, x, back, m);
        lemma_derived_terminals(rules, nt, x, back, m);
        lemma_can_come(rules, nt, a, states.last() as int, r, j, back, rest);
        assert forall|i: int| 0 <= i < after.len() implies (#[trigger] after[i]).ix() < nt by {
            if i < back.len() {
                assert(after[i] == back[i]);
            } else {
                assert(after[i] == rest[i - back.len()]);
            }
        }
        let u = lemma_takes_symbols(
            table,
            a,
            states,
            r,
            j - 1,
            w.take(k),
            after,
            (n - m) as nat,
        );
        assert(u[base] == states.last()) by {
            assert(u.take(states.len() as int)[base] == u[base]);
        }
        lemma_can_follow(rules, nt, a, u, base, r, j, rest[0]);
        let by = dotted(r, j - 1);
        assert(u.last() == u[base + (j - 1)]);
        let q = lemma_takes_symbol(table, a, u, x, by, back, rest, m);
        let _q = lemma_leads_on(table, a, u.last() as int, r, j - 1);
        let v = u.push(q);
        assert(w.take(k) + after =~= w + rest);
        lemma_reaches_trans(
            table,
            states,
            w + rest,
            u,
            after,
            v,
            rest,
            (n - m) as nat,
            m,
        );
        assert((n - m) as nat + m == n);
        assert(v.take(states.len() as int) =~= states) by {
            assert(u.take(states.len() as int) =~= states);
        }
        lemma_trail_on(rules, a, u, base, r, j, q);
        v
    }
}

// ---------------------------------------------------------------------------
// A run over a sentence

/// Feeding a token runs through the steps up to the one that shifts it.
proof fn lemma_feeds<'i, B: OutputBuilder<'i>>(
    table: ParseTable,
    config: B::Config,
    input: Seq<char>,
    states: Seq<usize>,
    values: Seq<output::GSlotModel<B::Model>>,
    tok: tree::TokenModel,
    u: Seq<SymbolId>,
    v: Seq<usize>,
    n: nat,
    fuel: nat,
) -> (m: nat)
    requires
        u.len() > 1,
        u[0] == tok.type_id,
        reaches(table, states, u, v, seq![SymbolId::end()], n),
        n < fuel,
    ensures
        m <= n,
        ({
            let g = lalr::gfed::<B>(table, config, input, states, values, tok, fuel);
            &&& g.outcome is Shifted
            &&& reaches(table, g.states, u.drop_first(), v, seq![SymbolId::end()], m)
        }),
    decreases n,
{
    assert(n > 0);
    match table.action_for(states.last() as int, tok.type_id) {
        Some(Action::Reduce(r)) => {
            let next = lalr_stack::reduced_states(table, states, r as int)->0;
            lemma_feeds::<B>(
                table,
                config,
                input,
                next,
                lalr::greduced::<B>(table, config, values, r as int),
                tok,
                u,
                v,
                (n - 1) as nat,
                (fuel - 1) as nat,
            )
        },
        _ => (n - 1) as nat,
    }
}

/// Feeding the end of input runs through the remaining steps, and accepts.
proof fn lemma_ends<'i, B: OutputBuilder<'i>>(
    table: ParseTable,
    config: B::Config,
    input: Seq<char>,
    states: Seq<usize>,
    values: Seq<output::GSlotModel<B::Model>>,
    tok: tree::TokenModel,
    v: Seq<usize>,
    n: nat,
    fuel: nat,
)
    requires
        tok.type_id == SymbolId::end(),
        reaches(table, states, seq![SymbolId::end()], v, seq![SymbolId::end()], n),
        table.action_for(v.last() as int, SymbolId::end()) == Some(Action::Accept),
        n < fuel,
    ensures
        ({
            let g = lalr::gfed::<B>(table, config, input, states, values, tok, fuel);
            g.outcome is Accepted || g.outcome is NotSingle
        }),
    decreases n,
{
    if n > 0 {
        let u = seq![SymbolId::end()];
        match table.action_for(states.last() as int, tok.type_id) {
            Some(Action::Reduce(r)) => {
                let next = lalr_stack::reduced_states(table, states, r as int)->0;
                lemma_ends::<B>(
                    table,
                    config,
                    input,
                    next,
                    lalr::greduced::<B>(table, config, values, r as int),
                    tok,
                    v,
                    (n - 1) as nat,
                    (fuel - 1) as nat,
                );
            },
            Some(Action::Shift(q)) => {
                assert(u.drop_first() =~= Seq::empty());
                lemma_nothing_left(table, states.push(q), v, (n - 1) as nat);
            },
            _ => {},
        }
    }
}

/// Without terminals to come there is no step.
proof fn lemma_nothing_left(table: ParseTable, states: Seq<usize>, v: Seq<usize>, n: nat)
    ensures
        !reaches(table, states, Seq::empty(), v, seq![SymbolId::end()], n),
{
    assert(Seq::<SymbolId>::empty().len() != seq![SymbolId::end()].len());
}

/// The end of input, where the value of the start symbol is not a single one.
pub open spec fn not_single() -> error::ErrorModel {
    error::unexpected_eof_model(0, 0, Seq::empty())
}

/// A run over tokens whose steps lead to the end of input succeeds, unless the
/// value of the start symbol is not a single one.
proof fn lemma_runs<'i, B: OutputBuilder<'i>>(
    table: ParseTable,
    config: B::Config,
    input: Seq<char>,
    toks: Seq<tree::TokenModel>,
    states: Seq<usize>,
    values: Seq<output::GSlotModel<B::Model>>,
    v: Seq<usize>,
    n: nat,
    fuel: nat,
)
    requires
        reaches(
            table,
            states,
            lalr_laws::types_of(toks).push(SymbolId::end()),
            v,
            seq![SymbolId::end()],
            n,
        ),
        table.action_for(v.last() as int, SymbolId::end()) == Some(Action::Accept),
        n < lalr_stack::REDUCTION_LIMIT,
        toks.len() <= fuel,
    ensures
        ({
            let r = lalr::ran::<PreLexed, B>(table, config, input, toks, states, values, fuel);
            r is Ok || r == Err::<B::Model, error::ErrorModel>(not_single())
        }),
    decreases toks.len(),
{
    let limit = lalr_stack::REDUCTION_LIMIT as nat;
    let u = lalr_laws::types_of(toks).push(SymbolId::end());
    if toks.len() == 0 {
        assert(u =~= seq![SymbolId::end()]);
        lemma_ends::<B>(table, config, input, states, values, tree::end_token(), v, n, limit);
    } else {
        let tok = toks[0];
        assert(u[0] == tok.type_id);
        let m = lemma_feeds::<B>(
            table,
            config,
            input,
            states,
            values,
            tok,
            u,
            v,
            n,
            limit,
        );
        let g = lalr::gfed::<B>(table, config, input, states, values, tok, limit);
        let rest = toks.drop_first();
        assert(u.drop_first() =~= lalr_laws::types_of(rest).push(SymbolId::end()));
        lemma_runs::<B>(
            table,
            config,
            input,
            rest,
            g.states,
            g.values,
            v,
            m,
            (fuel - 1) as nat,
        );
    }
}

/// A tree has a node for every terminal.
proof fn lemma_tree_width(
    rules: Seq<symbols::RuleModel>,
    nt: nat,
    s: SymbolId,
    w: Seq<SymbolId>,
    n: nat,
)
    requires
        derives_in(rules, nt, s, w, n),
    ensures
        w.len() <= n,
    decreases n, 0nat,
{
    if s.ix() >= nt {
        let r = choose|r: int|
            0 <= r < rules.len() && (#[trigger] rules[r]).origin == s && derives_seq_in(
                rules,
                nt,
                rules[r].expansion,
                w,
                (n - 1) as nat,
            );
        lemma_trees_width(rules, nt, rules[r].expansion, w, (n - 1) as nat);
    }
}

proof fn lemma_trees_width(
    rules: Seq<symbols::RuleModel>,
    nt: nat,
    syms: Seq<SymbolId>,
    w: Seq<SymbolId>,
    n: nat,
)
    requires
        derives_seq_in(rules, nt, syms, w, n),
    ensures
        w.len() <= n,
    decreases n, syms.len(),
{
    if syms.len() > 0 {
        let (k, m) = choose|k: int, m: nat|
            #[trigger] is_split(w, n, k, m) && derives_in(rules, nt, syms.last(), w.skip(k), m)
                && derives_seq_in(rules, nt, syms.drop_last(), w.take(k), (n - m) as nat);
        lemma_tree_width(rules, nt, syms.last(), w.skip(k), m);
        lemma_trees_width(rules, nt, syms.drop_last(), w.take(k), (n - m) as nat);
    }
}

/// A start state expects its start symbol, behind which the end of input can come,
/// and accepts behind it.
pub(crate) proof fn lemma_start_expects(table: ParseTable, a: Automaton, i: int) -> (by: LR0Item)
    requires
        is_complete(table, a),
        table.tabulates(a),
        0 <= i < a.start_states@.len(),
    ensures
        ({
            let x = lalr_table::start_rules(table.models(), table.starts@)[i].0;
            let s = a.start_states@[i];
            &&& s < a.states@.len()
            &&& a.items(s as int).contains(by)
            &&& lr0::expected(table.models(), by) == Some(x)
            &&& can_follow(
                table.models(),
                table.n_terminals as nat,
                a,
                s as int,
                x,
                SymbolId::end(),
            )
            &&& a.target(s as int, x) matches Some(q) && table.action_for(
                q as int,
                SymbolId::end(),
            ) == Some(Action::Accept)
        }),
{
    let rules = table.models();
    let nt = table.n_terminals as nat;
    let (x, r) = lalr_table::start_rules(rules, table.starts@)[i];
    lemma_rule_sizes(table);
    lalr_stack::lemma_start_rules(rules, table.starts@, i);
    let s = a.start_states@[i];
    let end = SymbolId::end();
    let by = dotted(r as int, 0);
    let kernel = set![LR0Item { rule_idx: r, dot: 0 }];
    assert(a.items(s as int) == lr0::closure_of(rules, kernel));
    assert(lr0::predicted(rules, kernel, by, 0));
    assert(rules[r as int].expansion[0] == x);
    assert(lr0::expected(rules, by) == Some(x));
    assert(can_follow(rules, nt, a, s as int, x, end)) by {
        assert(lookahead::rest_of(rules, by) =~= Seq::empty());
        assert(lookahead::follows_in(rules, nt, a, s as int, by, end, 0));
        assert forall|p: int| 0 <= p < rules.len() && (#[trigger] rules[p]).origin == x implies
            lookahead::follows(rules, nt, a, s as int, dotted(p, 0), end) by {
            assert(lookahead::follows_in(rules, nt, a, s as int, dotted(p, 0), end, 1));
        }
    }
    let q = lemma_leads_on(table, a, s as int, r as int, 0);
    let done = dotted(r as int, 1);
    assert(a.items(q as int).contains(done));
    assert(lr0::complete(rules, done));
    assert(lalr_table::accepts_in(rules, a, q as int));
    lalr_stack::lemma_action(table, a, q as int, end);
    by
}

/// The steps over a sentence lead from a start state to one that accepts.
proof fn lemma_takes_sentence(
    table: ParseTable,
    a: Automaton,
    i: int,
    w: Seq<SymbolId>,
    n: nat,
) -> (q: usize)
    requires
        is_complete(table, a),
        table.tabulates(a),
        0 <= i < a.start_states@.len(),
        derives_in(
            table.models(),
            table.n_terminals as nat,
            lalr_table::start_rules(table.models(), table.starts@)[i].0,
            w,
            n,
        ),
    ensures
        reaches(
            table,
            seq![a.start_states@[i]],
            w.push(SymbolId::end()),
            seq![a.start_states@[i], q],
            seq![SymbolId::end()],
            n,
        ),
        table.action_for(q as int, SymbolId::end()) == Some(Action::Accept),
{
    let x = lalr_table::start_rules(table.models(), table.starts@)[i].0;
    let s = a.start_states@[i];
    let end = SymbolId::end();
    let by = lemma_start_expects(table, a, i);
    let states = seq![s];
    let rest = seq![end];
    let q = lemma_takes_symbol(table, a, states, x, by, w, rest, n);
    assert(w + rest =~= w.push(end));
    assert(states.push(q) =~= seq![s, q]);
    q
}

// ---------------------------------------------------------------------------
// Laws

/// A table without conflicts accepts every sentence, through any output
/// builder: the run succeeds, unless the value of the start symbol is not a
/// single one. The derivation has to be one that the limit on reductions
/// leaves room for.
pub proof fn sentence_is_accepted<'i, B: OutputBuilder<'i>>(
    table: ParseTable,
    a: Automaton,
    config: B::Config,
    input: Seq<char>,
    toks: Seq<tree::TokenModel>,
    start: Option<Seq<char>>,
    n: nat,
)
    requires
        table.tabulates(a),
        is_free_of_conflicts(table.models(), table.n_terminals as nat, a),
        lalr_laws::end_is_reserved(table.models()),
        lalr::initial(table, start) is Ok,
        derives_in(
            table.models(),
            table.n_terminals as nat,
            lalr::resolved_start(table.starts@, table.symbols@, start)->0,
            lalr_laws::types_of(toks),
            n,
        ),
        n < lalr_stack::REDUCTION_LIMIT,
    ensures
        ({
            let r = lalr::ran::<PreLexed, B>(
                table,
                config,
                input,
                toks,
                seq![lalr::initial(table, start)->Ok_0],
                Seq::empty(),
                lalr::TOKEN_LIMIT as nat,
            );
            r is Ok || r == Err::<B::Model, error::ErrorModel>(not_single())
        }),
{
    let rules = table.models();
    let nt = table.n_terminals as nat;
    let id = lalr::resolved_start(table.starts@, table.symbols@, start)->0;
    let s = lalr::initial(table, start)->Ok_0;
    let i = lalr_laws::lemma_start_index(table.start_states@, id);
    assert(table.start_states@[i] == (
        lalr_table::start_rules(rules, table.starts@)[i].0,
        a.start_states@[i],
    ));
    assert(is_complete(table, a)) by {
        reveal(is_complete);
    }
    let w = lalr_laws::types_of(toks);
    let q = lemma_takes_sentence(table, a, i, w, n);
    lemma_tree_width(rules, nt, id, w, n);
    lemma_runs::<B>(
        table,
        config,
        input,
        toks,
        seq![s],
        Seq::empty(),
        seq![s, q],
        n,
        lalr::TOKEN_LIMIT as nat,
    );
}

/// Whether all rules have the same priority.
pub open spec fn priorities_are_equal(rules: Seq<symbols::RuleModel>) -> bool {
    forall|q: int, r: int|
        0 <= q < rules.len() && 0 <= r < rules.len() ==> (#[trigger] rules[q]).priority == (
        #[trigger] rules[r]).priority
}

/// Among the rules of a production by which a state may reduce one comes first.
pub(crate) proof fn lemma_representative(
    rules: Seq<symbols::RuleModel>,
    nt: nat,
    a: Automaton,
    s: int,
    t: SymbolId,
    r: int,
) -> (q: int)
    requires
        lalr_table::may_reduce(rules, nt, a, s, t, r),
    ensures
        lalr_table::represents(rules, nt, a, s, t, q),
        same_production(rules, q, r),
    decreases rules[r].order, r,
{
    if lalr_table::represents(rules, nt, a, s, t, r) {
        r
    } else {
        let p = choose|p: int|
            #[trigger] lalr_table::may_reduce(rules, nt, a, s, t, p) && lalr_table::supersedes(
                rules,
                p,
                r,
            );
        lemma_representative(rules, nt, a, s, t, p)
    }
}

pub(crate) proof fn lemma_rivals_some(
    rules: Seq<symbols::RuleModel>,
    nt: nat,
    a: Automaton,
    s: int,
    t: SymbolId,
    q: int,
    n: nat,
)
    requires
        lalr_table::represents(rules, nt, a, s, t, q),
        q < n,
    ensures
        lalr_table::rivals(rules, nt, a, s, t, n).len() > 0,
    decreases n,
{
    if q < n - 1 {
        lemma_rivals_some(rules, nt, a, s, t, q, (n - 1) as nat);
    }
}

pub(crate) proof fn lemma_no_entry_conflict(
    infos: Seq<symbols::SymbolInfo>,
    rules: Seq<symbols::RuleModel>,
    nt: nat,
    a: Automaton,
    strict: bool,
    s: int,
    n: nat,
    k: int,
)
    requires
        lalr_table::state_conflicts(infos, rules, nt, a, strict, s, n).len() == 0,
        0 <= k < n,
    ensures
        lalr_table::entry_conflict(infos, rules, nt, a, strict, s, SymbolId(k as u32)) is None,
    decreases n,
{
    if k < n - 1 {
        lemma_no_entry_conflict(infos, rules, nt, a, strict, s, (n - 1) as nat, k);
    }
}

pub(crate) proof fn lemma_no_state_conflict(
    infos: Seq<symbols::SymbolInfo>,
    rules: Seq<symbols::RuleModel>,
    nt: nat,
    a: Automaton,
    strict: bool,
    m: nat,
    s: int,
)
    requires
        lalr_table::conflicts(infos, rules, nt, a, strict, m).len() == 0,
        0 <= s < m,
    ensures
        lalr_table::state_conflicts(infos, rules, nt, a, strict, s, nt).len() == 0,
    decreases m,
{
    if s < m - 1 {
        lemma_no_state_conflict(infos, rules, nt, a, strict, (m - 1) as nat, s);
    }
}

/// Where strict mode finds nothing wrong and no priority decides, an automaton
/// is free of conflicts.
pub proof fn strict_is_free_of_conflicts(
    infos: Seq<symbols::SymbolInfo>,
    rules: Seq<symbols::RuleModel>,
    nt: nat,
    a: Automaton,
)
    requires
        lalr_table::conflicts(infos, rules, nt, a, true, a.states@.len()).len() == 0,
        priorities_are_equal(rules),
    ensures
        is_free_of_conflicts(rules, nt, a),
{
    assert forall|s: int, t: SymbolId, r: int|
        0 <= s < a.states@.len() && t.ix() < nt && #[trigger] lalr_table::may_reduce(
            rules,
            nt,
            a,
            s,
            t,
            r,
        ) implies lalr_table::shift_or_accept(rules, a, s, t) is None by {
        let _w = lemma_winner(infos, rules, nt, a, s, t, r);
    }
    assert forall|s: int, t: SymbolId, q: int, r: int|
        0 <= s < a.states@.len() && t.ix() < nt && #[trigger] lalr_table::may_reduce(
            rules,
            nt,
            a,
            s,
            t,
            q,
        ) && #[trigger] lalr_table::may_reduce(rules, nt, a, s, t, r) implies same_production(
        rules,
        q,
        r,
    ) by {
        let w = lemma_winner(infos, rules, nt, a, s, t, r);
        let a1 = lemma_representative(rules, nt, a, s, t, q);
        let a2 = lemma_representative(rules, nt, a, s, t, r);
        assert(a1 == w) by {
            if a1 != w {
                assert(rules[a1].priority < rules[w].priority);
            }
        }
        assert(a2 == w) by {
            if a2 != w {
                assert(rules[a2].priority < rules[w].priority);
            }
        }
    }
}

proof fn lemma_winner(
    infos: Seq<symbols::SymbolInfo>,
    rules: Seq<symbols::RuleModel>,
    nt: nat,
    a: Automaton,
    s: int,
    t: SymbolId,
    r: int,
) -> (w: int)
    requires
        lalr_table::conflicts(infos, rules, nt, a, true, a.states@.len()).len() == 0,
        0 <= s < a.states@.len(),
        t.ix() < nt,
        lalr_table::may_reduce(rules, nt, a, s, t, r),
    ensures
        lalr_table::wins(rules, nt, a, s, t, w),
        lalr_table::shift_or_accept(rules, a, s, t) is None,
{
    lemma_no_state_conflict(infos, rules, nt, a, true, a.states@.len(), s);
    lemma_no_entry_conflict(infos, rules, nt, a, true, s, nt, t.ix() as int);
    assert(SymbolId(t.ix() as u32) == t);
    let q = lemma_representative(rules, nt, a, s, t, r);
    lemma_rivals_some(rules, nt, a, s, t, q, rules.len());
    choose|w: int| lalr_table::wins(rules, nt, a, s, t, w)
}

/// The table that strict mode builds for a grammar whose rules all have the
/// same priority parses every sentence of the grammar.
pub proof fn strict_table_parses_every_sentence(
    grammar: CompiledGrammar,
    table: ParseTable,
    toks: Seq<tree::TokenModel>,
    start: Option<Seq<char>>,
    n: nat,
)
    requires
        lalr_table::table_result(
            grammar,
            true,
            Ok::<ParseTable, GrammarError>(table),
        ),
        priorities_are_equal(grammar.models()),
        lalr_laws::end_is_reserved(grammar.models()),
        lalr::initial(table, start) is Ok,
        derives_in(
            grammar.models(),
            grammar.terminal_count as nat,
            lalr::resolved_start(table.starts@, table.symbols@, start)->0,
            lalr_laws::types_of(toks),
            n,
        ),
        n < lalr_stack::REDUCTION_LIMIT,
    ensures
        ({
            let r = lalr::parse_model::<PreLexed>(table, toks, start);
            r is Ok || r == Err::<tree::Node, error::ErrorModel>(not_single())
        }),
{
    let a = choose|a: Automaton|
        #[trigger] a.wf(
            grammar.models(),
            lalr_table::start_rules(grammar.models(), grammar.start@),
        ) && lalr_table::table_by(
            grammar,
            true,
            a,
            Ok::<ParseTable, GrammarError>(table),
        );
    strict_is_free_of_conflicts(
        grammar.symbols@,
        grammar.models(),
        grammar.terminal_count as nat,
        a,
    );
    sentence_is_accepted::<TreeOutputBuilder>(
        table,
        a,
        table.propagate_positions,
        ""@,
        toks,
        start,
        n,
    );
}

} // verus!
