//! What the tree of an LALR parse means: it is the value of a derivation of the
//! tokens.

use vstd::prelude::*;
use crate::analysis;
use crate::derivation;
use crate::error;
use crate::lalr;
use crate::lalr_laws;
use crate::lalr_stack;
use crate::lalr_table;
use crate::lalr_table::{Action, ParseTable};
use crate::lr0::Automaton;
use crate::output;
use crate::output::GTag;
use crate::symbols::SymbolId;
use crate::token_source::{PreLexed, TokenSource};
use crate::tree;
use crate::tree_builder;
use crate::tree_builder::TreeOutputBuilder;

verus! {

/// The tree that a value stands for at the root: its node, or the only one that
/// it splices.
pub open spec fn root_of(v: tree_builder::SlotModel) -> Option<tree::Node> {
    match v {
        tree_builder::SlotModel::Value(n) => Some(n),
        tree_builder::SlotModel::Inline(ns) => if ns.len() == 1 {
            Some(ns[0])
        } else {
            None
        },
    }
}

/// Whether the values on the stack are those of derivations of the tokens by
/// the symbols `xs`.
pub open spec fn is_valued(
    table: ParseTable,
    xs: Seq<SymbolId>,
    toks: Seq<tree::TokenModel>,
    values: Seq<output::GSlotModel<tree::Node>>,
) -> bool {
    &&& forall|i: int| 0 <= i < values.len() ==> output::faithful_slot(#[trigger] values[i])
    &&& derivation::yields_all(
        table.models(),
        table.n_terminals as nat,
        table.propagate_positions,
        xs,
        toks,
        output::tree_slots(values),
    )
}

/// What a shift puts on the stack.
spec fn token_slot(tok: tree::TokenModel) -> output::GSlotModel<tree::Node> {
    output::GSlotModel::Value(
        output::ElemModel {
            value: tree::Node::Token(tok),
            meta: tree::token_meta(tok),
            tag: GTag::Token,
        },
    )
}

/// A shift puts the token's value on the stack.
proof fn lemma_shift_valued(
    table: ParseTable,
    xs: Seq<SymbolId>,
    toks: Seq<tree::TokenModel>,
    values: Seq<output::GSlotModel<tree::Node>>,
    tok: tree::TokenModel,
)
    requires
        is_valued(table, xs, toks, values),
        tok.type_id.ix() < table.n_terminals,
    ensures
        is_valued(
            table,
            xs.push(tok.type_id),
            toks.push(tok),
            values.push(token_slot(tok)),
        ),
        output::tree_slots(values.push(token_slot(tok))) == output::tree_slots(values).push(
            tree_builder::SlotModel::Value(tree::Node::Token(tok)),
        ),
{
    let rules = table.models();
    let nt = table.n_terminals as nat;
    let pp = table.propagate_positions;
    let e = token_slot(tok);
    let v = tree_builder::SlotModel::Value(tree::Node::Token(tok));
    derivation::lemma_yields_token(rules, nt, pp, tok);
    derivation::lemma_yields_push(
        rules,
        nt,
        pp,
        xs,
        toks,
        output::tree_slots(values),
        tok.type_id,
        seq![tok],
        v,
    );
    assert(toks + seq![tok] =~= toks.push(tok));
    assert(output::tree_slots(values.push(e)) =~= output::tree_slots(values).push(v));
    assert forall|i: int| 0 <= i < values.push(e).len() implies output::faithful_slot(
        #[trigger] values.push(e)[i],
    ) by {
        if i < values.len() {
            assert(output::faithful_slot(values[i]));
        }
    }
}

/// A reduction puts the value that the rule shapes on the stack.
proof fn lemma_reduce_valued(
    table: ParseTable,
    xs: Seq<SymbolId>,
    toks: Seq<tree::TokenModel>,
    values: Seq<output::GSlotModel<tree::Node>>,
    r: int,
)
    requires
        is_valued(table, xs, toks, values),
        0 <= r < table.models().len(),
        table.models()[r].origin.ix() >= table.n_terminals,
        table.models()[r].expansion.len() <= xs.len(),
        xs.skip(xs.len() - table.models()[r].expansion.len()) == table.models()[r].expansion,
    ensures
        is_valued(
            table,
            xs.take(xs.len() - table.models()[r].expansion.len()).push(
                table.models()[r].origin,
            ),
            toks,
            lalr::greduced::<TreeOutputBuilder>(table, table.propagate_positions, values, r),
        ),
        output::tree_slots(
            lalr::greduced::<TreeOutputBuilder>(table, table.propagate_positions, values, r),
        ) == lalr_stack::reduced_values(table, output::tree_slots(values), r),
{
    let rules = table.models();
    let nt = table.n_terminals as nat;
    let pp = table.propagate_positions;
    let n = xs.len() - rules[r].expansion.len();
    let slots = output::tree_slots(values);
    let k = derivation::lemma_yields_parts(rules, nt, pp, xs, n, toks, slots);
    let top = values.skip(n);
    assert(output::tree_slots(top) =~= slots.skip(n));
    assert forall|i: int| 0 <= i < top.len() implies output::faithful_slot(#[trigger] top[i]) by {
        assert(output::faithful_slot(values[n + i]));
    }
    let ctx = lalr::context_of(table);
    output::shaping_agrees(r as nat, top, ctx, pp);
    let made = output::reduced::<TreeOutputBuilder>(pp, r as nat, top, ctx, pp);
    derivation::lemma_yields_rule(rules, nt, pp, r, toks.skip(k), slots.skip(n));
    derivation::lemma_yields_push(
        rules,
        nt,
        pp,
        xs.take(n),
        toks.take(k),
        slots.take(n),
        rules[r].origin,
        toks.skip(k),
        output::tree_slot(made),
    );
    assert(toks.take(k) + toks.skip(k) =~= toks);
    let next = values.take(n).push(made);
    assert(output::tree_slots(next) =~= slots.take(n).push(output::tree_slot(made)));
    assert(next == lalr::greduced::<TreeOutputBuilder>(table, pp, values, r));
    assert forall|i: int| 0 <= i < next.len() implies output::faithful_slot(
        #[trigger] next[i],
    ) by {
        if i < n {
            assert(output::faithful_slot(values[i]));
        }
    }
}

/// The value of the start symbol is the tree.
proof fn lemma_accept_valued(
    table: ParseTable,
    id: SymbolId,
    toks: Seq<tree::TokenModel>,
    values: Seq<output::GSlotModel<tree::Node>>,
) -> (v: tree_builder::SlotModel)
    requires
        is_valued(table, seq![id], toks, values),
    ensures
        values.len() == 1,
        v == output::tree_slots(values).last(),
        derivation::yields(
            table.models(),
            table.n_terminals as nat,
            table.propagate_positions,
            id,
            toks,
            v,
        ),
        root_of(v) == output::accepted(values.last()),
{
    let rules = table.models();
    let nt = table.n_terminals as nat;
    let pp = table.propagate_positions;
    let slots = output::tree_slots(values);
    let xs = seq![id];
    derivation::lemma_yields_len(rules, nt, pp, xs, toks, slots);
    let k = derivation::lemma_yields_split(rules, nt, pp, xs, toks, slots);
    let d = choose|d: nat| #[trigger]
        derivation::yields_seq_in(
            rules,
            nt,
            pp,
            xs.drop_last(),
            toks.take(k),
            slots.drop_last(),
            d,
        );
    assert(xs.drop_last() =~= Seq::empty());
    assert(toks.take(k).len() == 0);
    assert(toks.skip(k) =~= toks);
    assert(output::faithful_slot(values[0]));
    slots.last()
}

/// The result of accepting a value.
pub open spec fn accepted_as(v: tree_builder::SlotModel) -> lalr_stack::Outcome {
    match tree_builder::root_node(v) {
        Some(n) => lalr_stack::Outcome::Accepted(n),
        None => lalr_stack::Outcome::Error(error::unexpected_eof_model(0, 0, Seq::empty())),
    }
}

/// What feeding a token keeps: a shifted token's value is on the stack, and the
/// tree of an accepted input is the value of a derivation. Assembling slots keeps
/// step.
pub(crate) proof fn lemma_feed_valued(
    table: ParseTable,
    a: Automaton,
    start: int,
    input: Seq<char>,
    states: Seq<usize>,
    values: Seq<output::GSlotModel<tree::Node>>,
    xs: Seq<SymbolId>,
    toks: Seq<tree::TokenModel>,
    tok: tree::TokenModel,
    fuel: nat,
) -> (ys: (Seq<SymbolId>, tree_builder::SlotModel))
    requires
        table.tabulates(a),
        lalr_laws::spells(table, a, start, states, xs, lalr_laws::types_of(toks)),
        is_valued(table, xs, toks, values),
    ensures
        ({
            let g = lalr::gfed::<TreeOutputBuilder>(
                table,
                table.propagate_positions,
                input,
                states,
                values,
                tok,
                fuel,
            );
            let f = lalr_stack::fed(table, states, output::tree_slots(values), tok, fuel);
            &&& g.outcome is Shifted ==> lalr_laws::spells(
                table,
                a,
                start,
                g.states,
                ys.0,
                lalr_laws::types_of(toks.push(tok)),
            ) && is_valued(table, ys.0, toks.push(tok), g.values) && f == (lalr_stack::Fed {
                outcome: lalr_stack::Outcome::Shifted,
                states: g.states,
                values: output::tree_slots(g.values),
            })
            &&& g.outcome matches lalr::GOutcome::Accepted(t) ==> f.outcome == accepted_as(ys.1)
                && tok.type_id == SymbolId::end() && derivation::yields(
                table.models(),
                table.n_terminals as nat,
                table.propagate_positions,
                lalr_table::start_rules(table.models(), table.starts@)[start].0,
                toks,
                ys.1,
            ) && root_of(ys.1) == Some(t)
        }),
    decreases fuel,
{
    let types = lalr_laws::types_of(toks);
    let nothing = tree_builder::SlotModel::Value(tree::Node::Absent);
    if fuel == 0 {
        (xs, nothing)
    } else {
        match table.action_for(states.last() as int, tok.type_id) {
            Some(Action::Shift(q)) => {
                lalr_laws::lemma_shift_spells(table, a, start, states, xs, types, tok.type_id, q);
                lemma_shift_valued(table, xs, toks, values, tok);
                assert(types.push(tok.type_id) =~= lalr_laws::types_of(toks.push(tok)));
                (xs.push(tok.type_id), nothing)
            },
            Some(Action::Reduce(r)) => {
                let ys = lalr_laws::lemma_reduce_spells(
                    table,
                    a,
                    start,
                    states,
                    xs,
                    types,
                    tok.type_id,
                    r,
                );
                lemma_reduce_valued(table, xs, toks, values, r as int);
                lemma_feed_valued(
                    table,
                    a,
                    start,
                    input,
                    lalr_stack::reduced_states(table, states, r as int)->0,
                    lalr::greduced::<TreeOutputBuilder>(
                        table,
                        table.propagate_positions,
                        values,
                        r as int,
                    ),
                    ys,
                    toks,
                    tok,
                    (fuel - 1) as nat,
                )
            },
            Some(Action::Accept) => {
                lalr_laws::lemma_accept_derives(
                    table,
                    a,
                    start,
                    states,
                    xs,
                    types,
                    tok.type_id,
                );
                let v = lemma_accept_valued(table, xs[0], toks, values);
                (xs, v)
            },
            None => (xs, nothing),
        }
    }
}

proof fn lemma_run_valued(
    table: ParseTable,
    a: Automaton,
    start: int,
    input: Seq<char>,
    toks: Seq<tree::TokenModel>,
    states: Seq<usize>,
    values: Seq<output::GSlotModel<tree::Node>>,
    xs: Seq<SymbolId>,
    done: Seq<tree::TokenModel>,
    fuel: nat,
) -> (r: (int, tree_builder::SlotModel))
    requires
        table.tabulates(a),
        lalr_laws::end_is_reserved(table.models()),
        lalr_laws::spells(table, a, start, states, xs, lalr_laws::types_of(done)),
        is_valued(table, xs, done, values),
        lalr::ran::<PreLexed, TreeOutputBuilder>(
            table,
            table.propagate_positions,
            input,
            toks,
            states,
            values,
            fuel,
        ) is Ok,
    ensures
        0 <= r.0 <= toks.len(),
        r.0 < toks.len() ==> toks[r.0].type_id == SymbolId::end(),
        derivation::yields(
            table.models(),
            table.n_terminals as nat,
            table.propagate_positions,
            lalr_table::start_rules(table.models(), table.starts@)[start].0,
            done + toks.take(r.0),
            r.1,
        ),
        root_of(r.1) == Some(
            lalr::ran::<PreLexed, TreeOutputBuilder>(
                table,
                table.propagate_positions,
                input,
                toks,
                states,
                values,
                fuel,
            )->Ok_0,
        ),
    decreases fuel,
{
    let tok = if toks.len() > 0 {
        toks[0]
    } else {
        tree::end_token()
    };
    let limit = lalr_stack::REDUCTION_LIMIT as nat;
    let pp = table.propagate_positions;
    let ys = lemma_feed_valued(table, a, start, input, states, values, xs, done, tok, limit);
    let g = lalr::gfed::<TreeOutputBuilder>(table, pp, input, states, values, tok, limit);
    if g.outcome is Accepted {
        assert(done + toks.take(0) =~= done);
        (0, ys.1)
    } else {
        let rest = PreLexed::advance_model(toks);
        let r = lemma_run_valued(
            table,
            a,
            start,
            input,
            rest,
            g.states,
            g.values,
            ys.0,
            done.push(tok),
            (fuel - 1) as nat,
        );
        if toks.len() > 0 {
            assert(done.push(tok) + rest.take(r.0) =~= done + toks.take(r.0 + 1));
            if r.0 < rest.len() {
                assert(rest[r.0] == toks[r.0 + 1]);
            }
            (r.0 + 1, r.1)
        } else {
            lalr_laws::lemma_end_not_shifted::<TreeOutputBuilder>(
                table,
                a,
                pp,
                input,
                states,
                values,
                tok,
                limit,
            );
            r
        }
    }
}

/// The stacks at the beginning of a parse; `i` is the number of the start symbol.
pub(crate) proof fn lemma_begun(table: ParseTable, start: Option<Seq<char>>) -> (i: int)
    requires
        table.wf(),
        lalr::initial(table, start) is Ok,
    ensures
        table.tabulates(lalr_stack::automaton(table)),
        lalr_laws::spells(
            table,
            lalr_stack::automaton(table),
            i,
            seq![lalr::initial(table, start)->Ok_0],
            Seq::empty(),
            lalr_laws::types_of(Seq::empty()),
        ),
        is_valued(table, Seq::empty(), Seq::empty(), Seq::empty()),
        (lalr::resolved_start(table.starts@, table.symbols@, start)->0).ix() >= table.n_terminals,
        lalr_table::start_rules(table.models(), table.starts@)[i].0 == lalr::resolved_start(
            table.starts@,
            table.symbols@,
            start,
        )->0,
{
    let a = lalr_stack::automaton(table);
    assert(table.tabulates(a));
    let rules = table.models();
    let nt = table.n_terminals as nat;
    let id = lalr::resolved_start(table.starts@, table.symbols@, start)->0;
    let s = lalr::initial(table, start)->Ok_0;
    assert(table.starts@.contains(id)) by {
        if start is None {
            assert(table.starts@[0] == id);
        }
    }
    let k = choose|k: int| 0 <= k < table.starts@.len() && table.starts@[k] == id;
    assert(table.n_terminals <= table.starts@[k].ix());
    let i = lalr_laws::lemma_start_index(table.start_states@, id);
    assert(table.start_states@[i] == (
        lalr_table::start_rules(rules, table.starts@)[i].0,
        a.start_states@[i],
    ));
    let states = seq![s];
    let values = Seq::<output::GSlotModel<tree::Node>>::empty();
    assert(a.start_states@[i] == states[0]);
    analysis::lemma_derives_nothing(rules, nt);
    assert(lalr_laws::types_of(Seq::empty()) =~= Seq::empty());
    derivation::lemma_yields_nothing(rules, nt, table.propagate_positions);
    assert(output::tree_slots(values) =~= Seq::empty());
    i
}

/// The tree of a parse is the value of a derivation, by the start symbol, of the
/// tokens up to the end of input.
pub proof fn tree_is_of_a_derivation(
    table: ParseTable,
    toks: Seq<tree::TokenModel>,
    start: Option<Seq<char>>,
) -> (r: (int, tree_builder::SlotModel))
    requires
        table.wf(),
        lalr_laws::end_is_reserved(table.models()),
        lalr::parse_model::<PreLexed>(table, toks, start) is Ok,
    ensures
        0 <= r.0 <= toks.len(),
        r.0 < toks.len() ==> toks[r.0].type_id == SymbolId::end(),
        derivation::yields(
            table.models(),
            table.n_terminals as nat,
            table.propagate_positions,
            lalr::resolved_start(table.starts@, table.symbols@, start)->0,
            toks.take(r.0),
            r.1,
        ),
        root_of(r.1) == Some(lalr::parse_model::<PreLexed>(table, toks, start)->Ok_0),
{
    let a = lalr_stack::automaton(table);
    let s = lalr::initial(table, start)->Ok_0;
    let i = lemma_begun(table, start);
    let none = Seq::<tree::TokenModel>::empty();
    let r = lemma_run_valued(
        table,
        a,
        i,
        ""@,
        toks,
        seq![s],
        Seq::empty(),
        Seq::empty(),
        none,
        lalr::TOKEN_LIMIT as nat,
    );
    assert(none + toks.take(r.0) =~= toks.take(r.0));
    r
}

/// The tokens that a run takes from a source before it ends.
pub open spec fn taken<S: TokenSource>(
    table: ParseTable,
    source: S::Content,
    states: Seq<usize>,
    values: Seq<output::GSlotModel<tree::Node>>,
    fuel: nat,
) -> Seq<tree::TokenModel>
    decreases fuel,
{
    let (next, got) = S::peek_model(source, states.last() as nat);
    match got {
        Err(_) => Seq::empty(),
        Ok(tok) => {
            let g = lalr::gfed::<TreeOutputBuilder>(
                table,
                table.propagate_positions,
                ""@,
                states,
                values,
                tok,
                lalr_stack::REDUCTION_LIMIT as nat,
            );
            if g.outcome is Shifted && fuel > 0 {
                seq![tok] + taken::<S>(
                    table,
                    S::advance_model(next),
                    g.states,
                    g.values,
                    (fuel - 1) as nat,
                )
            } else {
                Seq::empty()
            }
        },
    }
}

proof fn lemma_run_taken<S: TokenSource>(
    table: ParseTable,
    a: Automaton,
    start: int,
    source: S::Content,
    states: Seq<usize>,
    values: Seq<output::GSlotModel<tree::Node>>,
    xs: Seq<SymbolId>,
    done: Seq<tree::TokenModel>,
    fuel: nat,
) -> (v: tree_builder::SlotModel)
    requires
        table.tabulates(a),
        lalr_laws::spells(table, a, start, states, xs, lalr_laws::types_of(done)),
        is_valued(table, xs, done, values),
        lalr::ran::<S, TreeOutputBuilder>(
            table,
            table.propagate_positions,
            ""@,
            source,
            states,
            values,
            fuel,
        ) is Ok,
    ensures
        derivation::yields(
            table.models(),
            table.n_terminals as nat,
            table.propagate_positions,
            lalr_table::start_rules(table.models(), table.starts@)[start].0,
            done + taken::<S>(table, source, states, values, fuel),
            v,
        ),
        root_of(v) == Some(
            lalr::ran::<S, TreeOutputBuilder>(
                table,
                table.propagate_positions,
                ""@,
                source,
                states,
                values,
                fuel,
            )->Ok_0,
        ),
    decreases fuel,
{
    let (next, got) = S::peek_model(source, states.last() as nat);
    let tok = got->Ok_0;
    let limit = lalr_stack::REDUCTION_LIMIT as nat;
    let pp = table.propagate_positions;
    let ys = lemma_feed_valued(table, a, start, ""@, states, values, xs, done, tok, limit);
    let g = lalr::gfed::<TreeOutputBuilder>(table, pp, ""@, states, values, tok, limit);
    if g.outcome is Accepted {
        assert(done + taken::<S>(table, source, states, values, fuel) =~= done);
        ys.1
    } else {
        let rest = S::advance_model(next);
        let less = (fuel - 1) as nat;
        let v = lemma_run_taken::<S>(
            table,
            a,
            start,
            rest,
            g.states,
            g.values,
            ys.0,
            done.push(tok),
            less,
        );
        let more = taken::<S>(table, rest, g.states, g.values, less);
        assert(done.push(tok) + more =~= done + (seq![tok] + more));
        v
    }
}

/// The tree of a parse from any source is the value of a derivation, by the start
/// symbol, of the tokens that the parse takes from the source.
pub proof fn tree_is_of_the_tokens_taken<S: TokenSource>(
    table: ParseTable,
    source: S::Content,
    start: Option<Seq<char>>,
) -> (v: tree_builder::SlotModel)
    requires
        table.wf(),
        lalr::parse_model::<S>(table, source, start) is Ok,
    ensures
        derivation::yields(
            table.models(),
            table.n_terminals as nat,
            table.propagate_positions,
            lalr::resolved_start(table.starts@, table.symbols@, start)->0,
            taken::<S>(
                table,
                source,
                seq![lalr::initial(table, start)->Ok_0],
                Seq::empty(),
                lalr::TOKEN_LIMIT as nat,
            ),
            v,
        ),
        root_of(v) == Some(lalr::parse_model::<S>(table, source, start)->Ok_0),
{
    let i = lemma_begun(table, start);
    let none = Seq::<tree::TokenModel>::empty();
    let states = seq![lalr::initial(table, start)->Ok_0];
    let limit = lalr::TOKEN_LIMIT as nat;
    let v = lemma_run_taken::<S>(
        table,
        lalr_stack::automaton(table),
        i,
        source,
        states,
        Seq::empty(),
        Seq::empty(),
        none,
        limit,
    );
    let all = taken::<S>(table, source, states, Seq::empty(), limit);
    assert(none + all =~= all);
    v
}

} // verus!
