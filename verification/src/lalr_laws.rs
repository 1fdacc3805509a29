//! What an LALR parse means: the token sequences that a table accepts are
//! derived by the grammar.

use vstd::prelude::*;
use crate::analysis;
use crate::lalr;
use crate::lalr_stack;
use crate::lalr_table;
use crate::lalr_table::{Action, ParseTable};
use crate::lr0;
use crate::lr0::{Automaton, LR0Item};
use crate::output::OutputBuilder;
use crate::output;
use crate::symbols;
use crate::symbols::SymbolId;
use crate::token_source::{PreLexed, TokenSource};
use crate::tree;
use crate::tree_builder::TreeOutputBuilder;

verus! {

/// The types of a list of tokens.
pub open spec fn types_of(toks: Seq<tree::TokenModel>) -> Seq<SymbolId> {
    Seq::new(toks.len(), |i: int| toks[i].type_id)
}

/// Whether no expansion mentions the end of input.
pub open spec fn end_is_reserved(rules: Seq<symbols::RuleModel>) -> bool {
    forall|q: int, j: int|
        0 <= q < rules.len() && 0 <= j < rules[q].expansion.len()
            ==> #[trigger] rules[q].expansion[j] != SymbolId::end()
}

/// Whether the symbols `xs` lead along the states and derive `consumed`.
pub open spec fn spells(
    table: ParseTable,
    a: Automaton,
    start: int,
    states: Seq<usize>,
    xs: Seq<SymbolId>,
    consumed: Seq<SymbolId>,
) -> bool {
    &&& lalr_stack::is_path(a, states)
    &&& 0 <= start < a.start_states@.len()
    &&& states[0] == a.start_states@[start]
    &&& xs.len() + 1 == states.len()
    &&& forall|k: int|
        0 <= k < xs.len() ==> a.target(states[k] as int, #[trigger] xs[k]) == Some(states[k + 1])
    &&& analysis::derives_all(table.models(), table.n_terminals as nat, xs, consumed)
}

/// What the concatenation of two lists of symbols derives splits between them.
proof fn lemma_split_concat(
    rules: Seq<symbols::RuleModel>,
    nt: nat,
    xs: Seq<SymbolId>,
    n: int,
    w: Seq<SymbolId>,
) -> (k: int)
    requires
        0 <= n <= xs.len(),
        analysis::derives_all(rules, nt, xs, w),
    ensures
        0 <= k <= w.len(),
        analysis::derives_all(rules, nt, xs.take(n), w.take(k)),
        analysis::derives_all(rules, nt, xs.skip(n), w.skip(k)),
    decreases xs.len(),
{
    if n == xs.len() {
        assert(xs.take(n) =~= xs);
        assert(w.take(w.len() as int) =~= w);
        assert(xs.skip(n) =~= Seq::empty());
        assert(w.skip(w.len() as int) =~= Seq::empty());
        analysis::lemma_derives_nothing(rules, nt);
        w.len() as int
    } else {
        let m = analysis::lemma_derives_split(rules, nt, xs, w);
        let k = lemma_split_concat(rules, nt, xs.drop_last(), n, w.take(m));
        assert(xs.drop_last().take(n) =~= xs.take(n));
        assert(w.take(m).take(k) =~= w.take(k));
        analysis::lemma_derives_push(
            rules,
            nt,
            xs.drop_last().skip(n),
            w.take(m).skip(k),
            xs.last(),
            w.skip(m),
        );
        assert(xs.drop_last().skip(n).push(xs.last()) =~= xs.skip(n));
        assert(w.take(m).skip(k) + w.skip(m) =~= w.skip(k));
        k
    }
}

/// The symbols on top of the stack are those that a complete item of the top
/// state has seen.
proof fn lemma_top_symbols(
    table: ParseTable,
    a: Automaton,
    start: int,
    states: Seq<usize>,
    xs: Seq<SymbolId>,
    consumed: Seq<SymbolId>,
    it: LR0Item,
)
    requires
        table.tabulates(a),
        spells(table, a, start, states, xs, consumed),
        a.items(states.last() as int).contains(it),
        lr0::item_ok(table.models(), it),
    ensures
        it.dot <= xs.len(),
        xs.skip(xs.len() - it.dot) == table.models()[it.rule_idx as int].expansion.take(
            it.dot as int,
        ),
        a.items(states[states.len() - 1 - it.dot] as int).contains(
            LR0Item { rule_idx: it.rule_idx, dot: 0 },
        ),
    decreases it.dot,
{
    let rules = table.models();
    let e = rules[it.rule_idx as int].expansion;
    lalr_stack::lemma_item_below(table, a, states, it, it.dot as nat);
    let n = xs.len() - it.dot;
    assert forall|k: int| 0 <= k < it.dot implies #[trigger] xs.skip(n)[k] == e.take(
        it.dot as int,
    )[k] by {
        let j = it.dot - 1 - k;
        lalr_stack::lemma_item_below(table, a, states, it, j as nat);
        let q = states[states.len() - 1 - j] as int;
        let p = states[states.len() - 2 - j] as int;
        let here = LR0Item { rule_idx: it.rule_idx, dot: (it.dot - j) as usize };
        let x = xs[xs.len() - 1 - j];
        assert(a.target(states[xs.len() - 1 - j] as int, x) == Some(states[xs.len() - j]));
        assert(a.target(p, x) == Some(q as usize));
        let kernel = lr0::moved(rules, a.items(p), x);
        assert(a.items(q) == lr0::closure_of(rules, kernel));
        lr0::lemma_closure_kernel(rules, kernel, here);
    }
    assert(xs.skip(n) =~= e.take(it.dot as int));
}

/// A start rule's first item stands in a start state only as that state's own.
proof fn lemma_fresh_start(table: ParseTable, a: Automaton, start: int, states: Seq<usize>, k: int, r: usize)
    requires
        table.tabulates(a),
        lalr_stack::is_path(a, states),
        0 <= start < a.start_states@.len(),
        states[0] == a.start_states@[start],
        0 <= k < states.len(),
        r < table.models().len(),
        table.models()[r as int].is_start,
        a.items(states[k] as int).contains(LR0Item { rule_idx: r, dot: 0 }),
    ensures
        k == 0,
        r == lalr_table::start_rules(table.models(), table.starts@)[start].1,
{
    let rules = table.models();
    let it = LR0Item { rule_idx: r, dot: 0 };
    let s = states[k] as int;
    if k == 0 {
        let kernel = set![
            LR0Item {
                rule_idx: lalr_table::start_rules(rules, table.starts@)[start].1,
                dot: 0,
            },
        ];
        assert(a.start_states@[start] == s);
        assert(a.items(s) == lr0::closure_of(rules, kernel));
        let n = choose|n: nat| #[trigger] lr0::predicted(rules, kernel, it, n);
        if !kernel.contains(it) {
            let by = choose|by: LR0Item|
                #[trigger] lr0::expected(rules, by) == Some(rules[r as int].origin)
                    && lr0::predicted(rules, kernel, by, (n - 1) as nat);
            assert(rules[by.rule_idx as int].expansion[by.dot as int] == rules[r as int].origin);
        }
    } else {
        assert(lalr_stack::leads(a, states[k - 1] as int, states[k] as int));
        let p = states[k - 1] as int;
        let x = choose|x: SymbolId| #[trigger] a.target(p, x) is Some && a.target(p, x)->0 == s;
        assert(a.target(p, x) is Some);
        let kernel = lr0::moved(rules, a.items(p), x);
        assert(a.items(s) == lr0::closure_of(rules, kernel));
        let n = choose|n: nat| #[trigger] lr0::predicted(rules, kernel, it, n);
        let by = choose|by: LR0Item|
            #[trigger] lr0::expected(rules, by) == Some(rules[r as int].origin) && lr0::predicted(
                rules,
                kernel,
                by,
                (n - 1) as nat,
            );
        assert(rules[by.rule_idx as int].expansion[by.dot as int] == rules[r as int].origin);
    }
}

/// A shift extends what the stack derives by the token.
pub proof fn lemma_shift_spells(
    table: ParseTable,
    a: Automaton,
    start: int,
    states: Seq<usize>,
    xs: Seq<SymbolId>,
    consumed: Seq<SymbolId>,
    t: SymbolId,
    q: usize,
)
    requires
        table.tabulates(a),
        spells(table, a, start, states, xs, consumed),
        table.action_for(states.last() as int, t) == Some(Action::Shift(q)),
    ensures
        t.ix() < table.n_terminals,
        spells(table, a, start, states.push(q), xs.push(t), consumed.push(t)),
{
    let rules = table.models();
    let nt = table.n_terminals as nat;
    lalr_stack::lemma_shift_ok(table, a, states, t, q);
    analysis::lemma_derives_terminal(rules, nt, t);
    analysis::lemma_derives_push(rules, nt, xs, consumed, t, seq![t]);
    assert(consumed + seq![t] =~= consumed.push(t));
    let ys = xs.push(t);
    let next = states.push(q);
    assert forall|k: int| 0 <= k < ys.len() implies a.target(next[k] as int, #[trigger] ys[k])
        == Some(next[k + 1]) by {
        if k < xs.len() {
            assert(a.target(states[k] as int, xs[k]) == Some(states[k + 1]));
        }
    }
}

/// Putting an origin in place of the expansion on top keeps what is derived.
proof fn lemma_reduce_derives(
    rules: Seq<symbols::RuleModel>,
    nt: nat,
    xs: Seq<SymbolId>,
    consumed: Seq<SymbolId>,
    r: int,
)
    requires
        0 <= r < rules.len(),
        rules[r].origin.ix() >= nt,
        rules[r].expansion.len() <= xs.len(),
        xs.skip(xs.len() - rules[r].expansion.len()) == rules[r].expansion,
        analysis::derives_all(rules, nt, xs, consumed),
    ensures
        analysis::derives_all(
            rules,
            nt,
            xs.take(xs.len() - rules[r].expansion.len()).push(rules[r].origin),
            consumed,
        ),
{
    let n = xs.len() - rules[r].expansion.len();
    let k = lemma_split_concat(rules, nt, xs, n, consumed);
    analysis::lemma_derives_rule(rules, nt, r, consumed.skip(k));
    analysis::lemma_derives_push(
        rules,
        nt,
        xs.take(n),
        consumed.take(k),
        rules[r].origin,
        consumed.skip(k),
    );
    assert(consumed.take(k) + consumed.skip(k) =~= consumed);
}

/// A reduction puts the origin in place of the expansion.
#[verifier::rlimit(60)]
#[verifier::spinoff_prover]
pub proof fn lemma_reduce_spells(
    table: ParseTable,
    a: Automaton,
    start: int,
    states: Seq<usize>,
    xs: Seq<SymbolId>,
    consumed: Seq<SymbolId>,
    t: SymbolId,
    r: usize,
) -> (ys: Seq<SymbolId>)
    requires
        table.tabulates(a),
        spells(table, a, start, states, xs, consumed),
        table.action_for(states.last() as int, t) == Some(Action::Reduce(r)),
    ensures
        lalr_stack::reduced_states(table, states, r as int) is Some,
        spells(
            table,
            a,
            start,
            lalr_stack::reduced_states(table, states, r as int)->0,
            ys,
            consumed,
        ),
        ({
            let rule = table.models()[r as int];
            let n = xs.len() - rule.expansion.len();
            &&& r < table.models().len()
            &&& rule.origin.ix() >= table.n_terminals
            &&& n >= 0
            &&& xs.skip(n) == rule.expansion
            &&& ys == xs.take(n).push(rule.origin)
        }),
{
    let rules = table.models();
    let nt = table.n_terminals as nat;
    lalr_stack::lemma_reduce_ok(table, a, states, t, r);
    let it = lalr_table::end_item(rules, r as int);
    let v = table.rules@[r as int].expansion;
    assert(v@.len() == v.len());
    let e = rules[r as int].expansion;
    lemma_top_symbols(table, a, start, states, xs, consumed, it);
    let n = xs.len() - e.len();
    assert(e.take(e.len() as int) =~= e);
    lemma_reduce_derives(rules, nt, xs, consumed, r as int);
    let ys = xs.take(n).push(rules[r as int].origin);
    let next = lalr_stack::reduced_states(table, states, r as int)->0;
    assert forall|j: int| 0 <= j < ys.len() implies a.target(next[j] as int, #[trigger] ys[j])
        == Some(next[j + 1]) by {
        if j < n {
            assert(a.target(states[j] as int, xs[j]) == Some(states[j + 1]));
        }
    }
    ys
}

/// Acceptance means that the start symbol derives what was consumed.
pub proof fn lemma_accept_derives(
    table: ParseTable,
    a: Automaton,
    start: int,
    states: Seq<usize>,
    xs: Seq<SymbolId>,
    consumed: Seq<SymbolId>,
    t: SymbolId,
)
    requires
        table.tabulates(a),
        spells(table, a, start, states, xs, consumed),
        table.action_for(states.last() as int, t) == Some(Action::Accept),
    ensures
        t == SymbolId::end(),
        xs == seq![lalr_table::start_rules(table.models(), table.starts@)[start].0],
        analysis::derives(
            table.models(),
            table.n_terminals as nat,
            lalr_table::start_rules(table.models(), table.starts@)[start].0,
            consumed,
        ),
{
    let rules = table.models();
    let nt = table.n_terminals as nat;
    let s = states.last() as int;
    lalr_stack::lemma_action(table, a, s, t);
    assert(lalr_table::accepts_in(rules, a, s));
    let it = choose|it: LR0Item| #[trigger]
        a.items(s).contains(it) && lr0::complete(rules, it) && rules[it.rule_idx as int].is_start;
    let p = choose|p: int| 0 <= p < a.states@[s]@.len() && a.states@[s]@[p] == it;
    assert(lr0::item_ok(rules, a.states@[s]@[p]));
    lemma_top_symbols(table, a, start, states, xs, consumed, it);
    let at = states.len() - 1 - it.dot;
    lemma_fresh_start(table, a, start, states, at, it.rule_idx);
    assert(table.rules@.len() == table.rules.len());
    lalr_stack::lemma_start_rules(rules, table.starts@, start);
    let id = lalr_table::start_rules(rules, table.starts@)[start].0;
    assert(rules[it.rule_idx as int].expansion == seq![id]);
    assert(xs.skip(0) =~= xs);
    assert(seq![id].take(1) =~= seq![id]);
    assert(xs =~= seq![id]);
    let k = analysis::lemma_derives_split(rules, nt, xs, consumed);
    let d = choose|d: nat|
        #[trigger] analysis::derives_seq(rules, nt, xs.drop_last(), consumed.take(k), d);
    assert(xs.drop_last() =~= Seq::empty());
    assert(consumed.take(k).len() == 0);
    assert(consumed.skip(k) =~= consumed);
}

/// What feeding a token keeps: a shifted token extends what the stack derives,
/// and acceptance means that the start symbol derives what was consumed.
proof fn lemma_feed_spells<'i, B: OutputBuilder<'i>>(
    table: ParseTable,
    a: Automaton,
    start: int,
    config: B::Config,
    input: Seq<char>,
    states: Seq<usize>,
    values: Seq<output::GSlotModel<B::Model>>,
    xs: Seq<SymbolId>,
    consumed: Seq<SymbolId>,
    tok: tree::TokenModel,
    fuel: nat,
) -> (ys: Seq<SymbolId>)
    requires
        table.tabulates(a),
        spells(table, a, start, states, xs, consumed),
    ensures
        ({
            let g = lalr::gfed::<B>(table, config, input, states, values, tok, fuel);
            &&& g.outcome is Shifted ==> spells(
                table,
                a,
                start,
                g.states,
                ys,
                consumed.push(tok.type_id),
            )
            &&& g.outcome is Accepted ==> tok.type_id == SymbolId::end() && analysis::derives(
                table.models(),
                table.n_terminals as nat,
                lalr_table::start_rules(table.models(), table.starts@)[start].0,
                consumed,
            )
        }),
    decreases fuel,
{
    if fuel == 0 {
        xs
    } else {
        match table.action_for(states.last() as int, tok.type_id) {
            Some(Action::Shift(q)) => {
                lemma_shift_spells(table, a, start, states, xs, consumed, tok.type_id, q);
                xs.push(tok.type_id)
            },
            Some(Action::Reduce(r)) => {
                let ys = lemma_reduce_spells(
                    table,
                    a,
                    start,
                    states,
                    xs,
                    consumed,
                    tok.type_id,
                    r,
                );
                lemma_feed_spells::<B>(
                    table,
                    a,
                    start,
                    config,
                    input,
                    lalr_stack::reduced_states(table, states, r as int)->0,
                    lalr::greduced::<B>(table, config, values, r as int),
                    ys,
                    consumed,
                    tok,
                    (fuel - 1) as nat,
                )
            },
            Some(Action::Accept) => {
                lemma_accept_derives(table, a, start, states, xs, consumed, tok.type_id);
                xs
            },
            None => xs,
        }
    }
}

proof fn lemma_run_sound<'i, B: OutputBuilder<'i>>(
    table: ParseTable,
    a: Automaton,
    start: int,
    config: B::Config,
    input: Seq<char>,
    toks: Seq<tree::TokenModel>,
    states: Seq<usize>,
    values: Seq<output::GSlotModel<B::Model>>,
    xs: Seq<SymbolId>,
    consumed: Seq<SymbolId>,
    fuel: nat,
) -> (n: int)
    requires
        table.tabulates(a),
        end_is_reserved(table.models()),
        spells(table, a, start, states, xs, consumed),
        lalr::ran::<PreLexed, B>(table, config, input, toks, states, values, fuel) is Ok,
    ensures
        0 <= n <= toks.len(),
        n < toks.len() ==> toks[n].type_id == SymbolId::end(),
        analysis::derives(
            table.models(),
            table.n_terminals as nat,
            lalr_table::start_rules(table.models(), table.starts@)[start].0,
            consumed + types_of(toks.take(n)),
        ),
    decreases fuel,
{
    let tok = if toks.len() > 0 {
        toks[0]
    } else {
        tree::end_token()
    };
    let limit = lalr_stack::REDUCTION_LIMIT as nat;
    let ys = lemma_feed_spells::<B>(
        table,
        a,
        start,
        config,
        input,
        states,
        values,
        xs,
        consumed,
        tok,
        limit,
    );
    let g = lalr::gfed::<B>(table, config, input, states, values, tok, limit);
    if g.outcome is Accepted {
        assert(types_of(toks.take(0)) =~= Seq::empty());
        assert(consumed + types_of(toks.take(0)) =~= consumed);
        0
    } else {
        let rest = PreLexed::advance_model(toks);
        let n = lemma_run_sound::<B>(
            table,
            a,
            start,
            config,
            input,
            rest,
            g.states,
            g.values,
            ys,
            consumed.push(tok.type_id),
            (fuel - 1) as nat,
        );
        if toks.len() > 0 {
            assert(consumed.push(tok.type_id) + types_of(rest.take(n)) =~= consumed + types_of(
                toks.take(n + 1),
            ));
            if n < rest.len() {
                assert(rest[n] == toks[n + 1]);
            }
            n + 1
        } else {
            lemma_end_not_shifted::<B>(table, a, config, input, states, values, tok, limit);
            0
        }
    }
}

/// The end of input is never shifted where no expansion mentions it.
pub proof fn lemma_end_not_shifted<'i, B: OutputBuilder<'i>>(
    table: ParseTable,
    a: Automaton,
    config: B::Config,
    input: Seq<char>,
    states: Seq<usize>,
    values: Seq<output::GSlotModel<B::Model>>,
    tok: tree::TokenModel,
    fuel: nat,
)
    requires
        table.tabulates(a),
        end_is_reserved(table.models()),
        lalr_stack::is_path(a, states),
        tok.type_id == SymbolId::end(),
    ensures
        !(lalr::gfed::<B>(table, config, input, states, values, tok, fuel).outcome is Shifted),
    decreases fuel,
{
    if fuel > 0 {
        let rules = table.models();
        let s = states.last() as int;
        match table.action_for(s, tok.type_id) {
            Some(Action::Shift(q)) => {
                lalr_stack::lemma_shift_ok(table, a, states, tok.type_id, q);
                let m = lr0::moved(rules, a.items(s), tok.type_id);
                assert(a.target(s, tok.type_id) is Some);
                assert(m != Set::<LR0Item>::empty());
                if forall|it: LR0Item| !m.contains(it) {
                    assert(m =~= Set::empty());
                }
                let it = choose|it: LR0Item| m.contains(it);
                let y = LR0Item { rule_idx: it.rule_idx, dot: (it.dot - 1) as usize };
                assert(rules[y.rule_idx as int].expansion[y.dot as int] == SymbolId::end());
            },
            Some(Action::Reduce(r)) => {
                lalr_stack::lemma_reduce_ok(table, a, states, tok.type_id, r);
                lemma_end_not_shifted::<B>(
                    table,
                    a,
                    config,
                    input,
                    lalr_stack::reduced_states(table, states, r as int)->0,
                    lalr::greduced::<B>(table, config, values, r as int),
                    tok,
                    (fuel - 1) as nat,
                );
            },
            _ => {},
        }
    }
}

/// Where the start state of a symbol is listed.
pub proof fn lemma_start_index(list: Seq<(SymbolId, usize)>, id: SymbolId) -> (i: int)
    requires
        lalr::start_state_in(list, id) is Some,
    ensures
        0 <= i < list.len(),
        list[i] == (id, lalr::start_state_in(list, id)->0),
    decreases list.len(),
{
    if list.last().0 == id {
        list.len() - 1
    } else {
        lemma_start_index(list.drop_last(), id)
    }
}

/// A parse through any output builder succeeds only on what the grammar
/// derives: the start symbol derives the tokens up to the end of input.
pub proof fn accepted_tokens_are_derived<'i, B: OutputBuilder<'i>>(
    table: ParseTable,
    config: B::Config,
    input: Seq<char>,
    toks: Seq<tree::TokenModel>,
    start: Option<Seq<char>>,
)
    requires
        table.wf(),
        end_is_reserved(table.models()),
        lalr::initial(table, start) is Ok,
        lalr::ran::<PreLexed, B>(
            table,
            config,
            input,
            toks,
            seq![lalr::initial(table, start)->Ok_0],
            Seq::empty(),
            lalr::TOKEN_LIMIT as nat,
        ) is Ok,
    ensures
        exists|n: int|
            0 <= n <= toks.len() && (n < toks.len() ==> toks[n].type_id == SymbolId::end())
                && analysis::derives(
                table.models(),
                table.n_terminals as nat,
                lalr::resolved_start(table.starts@, table.symbols@, start)->0,
                types_of(#[trigger] toks.take(n)),
            ),
{
    let a = lalr_stack::automaton(table);
    assert(table.tabulates(a));
    let rules = table.models();
    let nt = table.n_terminals as nat;
    let id = lalr::resolved_start(table.starts@, table.symbols@, start)->0;
    let s = lalr::initial(table, start)->Ok_0;
    let i = lemma_start_index(table.start_states@, id);
    assert(table.start_states@[i] == (
        lalr_table::start_rules(rules, table.starts@)[i].0,
        a.start_states@[i],
    ));
    let states = seq![s];
    assert(a.start_states@[i] == states[0]);
    analysis::lemma_derives_nothing(rules, nt);
    assert(spells(table, a, i, states, Seq::empty(), Seq::empty()));
    let n = lemma_run_sound::<B>(
        table,
        a,
        i,
        config,
        input,
        toks,
        states,
        Seq::empty(),
        Seq::empty(),
        Seq::empty(),
        lalr::TOKEN_LIMIT as nat,
    );
    assert(Seq::<SymbolId>::empty() + types_of(toks.take(n)) =~= types_of(toks.take(n)));
}

/// A tree comes only from a token list that the grammar derives.
pub proof fn parsed_tokens_are_derived(
    table: ParseTable,
    toks: Seq<tree::TokenModel>,
    start: Option<Seq<char>>,
)
    requires
        table.wf(),
        end_is_reserved(table.models()),
        lalr::parse_model::<PreLexed>(table, toks, start) is Ok,
    ensures
        exists|n: int|
            0 <= n <= toks.len() && (n < toks.len() ==> toks[n].type_id == SymbolId::end())
                && analysis::derives(
                table.models(),
                table.n_terminals as nat,
                lalr::resolved_start(table.starts@, table.symbols@, start)->0,
                types_of(#[trigger] toks.take(n)),
            ),
{
    accepted_tokens_are_derived::<TreeOutputBuilder>(
        table,
        table.propagate_positions,
        ""@,
        toks,
        start,
    );
}

} // verus!
