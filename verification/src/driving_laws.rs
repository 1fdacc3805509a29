//! What the ways to drive an LALR parse have in common: input without errors has
//! the same tree whether it is parsed at once, with recovery, or fed by hand.

use vstd::prelude::*;
use crate::derivation;
use crate::error;
use crate::interactive;
use crate::lalr;
use crate::lalr_laws;
use crate::lalr_stack;
use crate::lalr_table;
use crate::lalr_table::{Action, ParseTable};
use crate::lalr_trees;
use crate::lr0::Automaton;
use crate::lexer;
use crate::output;
use crate::recovery;
use crate::recovery::RecoveryHandler;
use crate::symbols;
use crate::symbols::SymbolId;
use crate::token_source::{PreLexed, TokenSource};
use crate::tree;
use crate::tree_builder;
use crate::tree_builder::TreeOutputBuilder;

verus! {

/// A start symbol that is not spliced is accepted with its tree.
pub(crate) proof fn lemma_accepted(
    table: ParseTable,
    s: SymbolId,
    toks: Seq<tree::TokenModel>,
    v: tree_builder::SlotModel,
    t: tree::Node,
)
    requires
        s.ix() >= table.n_terminals,
        derivation::is_solid(table.models(), s),
        derivation::yields(
            table.models(),
            table.n_terminals as nat,
            table.propagate_positions,
            s,
            toks,
            v,
        ),
        lalr_trees::root_of(v) == Some(t),
    ensures
        lalr_trees::accepted_as(v) == lalr_stack::Outcome::Accepted(t),
{
    derivation::lemma_solid_value(
        table.models(),
        table.n_terminals as nat,
        table.propagate_positions,
        s,
        toks,
        v,
    );
}

pub(crate) proof fn lemma_run_recovered<S: TokenSource, H: RecoveryHandler>(
    table: ParseTable,
    a: Automaton,
    start: int,
    input: Seq<char>,
    source: S::Content,
    states: Seq<usize>,
    values: Seq<output::GSlotModel<tree::Node>>,
    xs: Seq<SymbolId>,
    done: Seq<tree::TokenModel>,
    handler: H::Content,
    errors: Seq<error::ErrorModel>,
    fuel: nat,
)
    requires
        table.tabulates(a),
        lalr_laws::spells(table, a, start, states, xs, lalr_laws::types_of(done)),
        lalr_trees::is_valued(table, xs, done, values),
        ({
            let s = lalr_table::start_rules(table.models(), table.starts@)[start].0;
            s.ix() >= table.n_terminals && derivation::is_solid(table.models(), s)
        }),
        lalr::ran::<S, TreeOutputBuilder>(
            table,
            table.propagate_positions,
            input,
            source,
            states,
            values,
            fuel,
        ) is Ok,
    ensures
        recovery::recovered::<S, H>(
            table,
            source,
            handler,
            states,
            output::tree_slots(values),
            errors,
            fuel + 1,
        ) == (recovery::RecoveredModel {
            result: Ok(
                Some(
                    lalr::ran::<S, TreeOutputBuilder>(
                        table,
                        table.propagate_positions,
                        input,
                        source,
                        states,
                        values,
                        fuel,
                    )->Ok_0,
                ),
            ),
            errors,
            handler,
        }),
    decreases fuel,
{
    let (next, got) = S::peek_model(source, states.last() as nat);
    if let Ok(tok) = got {
        let limit = lalr_stack::REDUCTION_LIMIT as nat;
        let pp = table.propagate_positions;
        let ys = lalr_trees::lemma_feed_valued(
            table,
            a,
            start,
            input,
            states,
            values,
            xs,
            done,
            tok,
            limit,
        );
        let g = lalr::gfed::<TreeOutputBuilder>(table, pp, input, states, values, tok, limit);
        if let lalr::GOutcome::Accepted(t) = g.outcome {
            let s = lalr_table::start_rules(table.models(), table.starts@)[start].0;
            lemma_accepted(table, s, done, ys.1, t);
        } else {
            lemma_run_recovered::<S, H>(
                table,
                a,
                start,
                input,
                S::advance_model(next),
                g.states,
                g.values,
                ys.0,
                done.push(tok),
                handler,
                errors,
                (fuel - 1) as nat,
            );
            assert((fuel - 1) as nat + 1 == fuel);
        }
    }
}

/// A run that succeeds does so with room for one more token.
pub(crate) proof fn lemma_run_more<S: TokenSource>(
    table: ParseTable,
    input: Seq<char>,
    source: S::Content,
    states: Seq<usize>,
    values: Seq<output::GSlotModel<tree::Node>>,
    fuel: nat,
)
    requires
        lalr::ran::<S, TreeOutputBuilder>(
            table,
            table.propagate_positions,
            input,
            source,
            states,
            values,
            fuel,
        ) is Ok,
    ensures
        lalr::ran::<S, TreeOutputBuilder>(
            table,
            table.propagate_positions,
            input,
            source,
            states,
            values,
            fuel + 1,
        ) == lalr::ran::<S, TreeOutputBuilder>(
            table,
            table.propagate_positions,
            input,
            source,
            states,
            values,
            fuel,
        ),
    decreases fuel,
{
    let (next, got) = S::peek_model(source, states.last() as nat);
    if let Ok(tok) = got {
        let g = lalr::gfed::<TreeOutputBuilder>(
            table,
            table.propagate_positions,
            input,
            states,
            values,
            tok,
            lalr_stack::REDUCTION_LIMIT as nat,
        );
        if g.outcome is Shifted {
            lemma_run_more::<S>(
                table,
                input,
                S::advance_model(next),
                g.states,
                g.values,
                (fuel - 1) as nat,
            );
            assert((fuel - 1) as nat + 1 == fuel);
        }
    }
}

/// Whether a source parses to a tree, with fewer tokens than the limit.
pub open spec fn parses_to<S: TokenSource>(
    table: ParseTable,
    source: S::Content,
    start: Option<Seq<char>>,
    t: tree::Node,
) -> bool {
    &&& lalr::initial(table, start) is Ok
    &&& lalr::ran::<S, TreeOutputBuilder>(
        table,
        table.propagate_positions,
        ""@,
        source,
        seq![lalr::initial(table, start)->Ok_0],
        Seq::empty(),
        (lalr::TOKEN_LIMIT - 1) as nat,
    ) == Ok::<tree::Node, error::ErrorModel>(t)
}

/// Recovery changes nothing about input without errors: the tree is that of the
/// plain parse, whatever the source and the handler, and no error is added.
pub proof fn recovery_without_errors_is_parsing<S: TokenSource, H: RecoveryHandler>(
    table: ParseTable,
    source: S::Content,
    start: Option<Seq<char>>,
    handler: H::Content,
    errors: Seq<error::ErrorModel>,
    t: tree::Node,
)
    requires
        table.wf(),
        ({
            let s = lalr::resolved_start(table.starts@, table.symbols@, start)->0;
            derivation::is_solid(table.models(), s)
        }),
        parses_to::<S>(table, source, start, t),
    ensures
        lalr::parse_model::<S>(table, source, start) == Ok::<tree::Node, error::ErrorModel>(t),
        recovery::recover_model::<S, H>(table, source, start, handler, errors) == (
        recovery::RecoveredModel { result: Ok(Some(t)), errors, handler }),
{
    lemma_run_more::<S>(
        table,
        ""@,
        source,
        seq![lalr::initial(table, start)->Ok_0],
        Seq::empty(),
        (lalr::TOKEN_LIMIT - 1) as nat,
    );
    let i = lalr_trees::lemma_begun(table, start);
    let values = Seq::<output::GSlotModel<tree::Node>>::empty();
    assert(output::tree_slots(values) =~= Seq::empty());
    lemma_run_recovered::<S, H>(
        table,
        lalr_stack::automaton(table),
        i,
        ""@,
        source,
        seq![lalr::initial(table, start)->Ok_0],
        values,
        Seq::empty(),
        Seq::empty(),
        handler,
        errors,
        (lalr::TOKEN_LIMIT - 1) as nat,
    );
}

/// A text that lexes without an error is lexed alike with recovery.
proof fn lemma_lexed_recovered<H: RecoveryHandler>(
    m: lexer::LexerModel,
    table: ParseTable,
    text: Seq<char>,
    p: lexer::Place,
    so_far: recovery::LexPhase<H::Content>,
)
    requires
        lexer::lexed(m, text, p) is Ok,
    ensures
        recovery::lex_recovered::<H>(m, table, text, p, so_far) == (recovery::LexPhase {
            end: recovery::LexEnd::Done,
            tokens: so_far.tokens + lexer::lexed(m, text, p)->Ok_0,
            ..so_far
        }),
    decreases text.len() - p.pos,
{
    let ts = lexer::lexed(m, text, p)->Ok_0;
    if p.pos >= text.len() {
        assert(so_far.tokens.push(lexer::end_at(p)) =~= so_far.tokens + ts);
    } else {
        let t = lexer::next_token(m.plan, m.terminals, text, p)->0;
        let q = lexer::past(p, t.value);
        let rest = lexer::lexed(m, text, q)->Ok_0;
        if m.ignore.contains(t.type_id) {
            lemma_lexed_recovered::<H>(m, table, text, q, so_far);
        } else {
            let next = recovery::LexPhase { tokens: so_far.tokens.push(t), ..so_far };
            lemma_lexed_recovered::<H>(m, table, text, q, next);
            assert(so_far.tokens.push(t) + rest =~= so_far.tokens + (seq![t] + rest));
        }
    }
}

/// Where a text is lexed as a whole before it is parsed with recovery, and has no
/// error, the tree is that of the plain parse of its tokens, no error is added,
/// and the handler is left as it was.
pub proof fn recovery_of_a_clean_text_is_parsing<H: RecoveryHandler>(
    table: ParseTable,
    m: lexer::LexerModel,
    text: Seq<char>,
    start: Option<Seq<char>>,
    handler: H::Content,
    errors: Seq<error::ErrorModel>,
    t: tree::Node,
)
    requires
        table.wf(),
        ({
            let s = lalr::resolved_start(table.starts@, table.symbols@, start)->0;
            derivation::is_solid(table.models(), s)
        }),
        lexer::lexed(m, text, lexer::origin_place()) is Ok,
        parses_to::<PreLexed>(
            table,
            lexer::lexed(m, text, lexer::origin_place())->Ok_0,
            start,
            t,
        ),
    ensures
        recovery::basic_recovery::<H>(m, table, text, start, handler, errors) == (
        recovery::RecoveredModel { result: Ok(Some(t)), errors, handler }),
{
    let ts = lexer::lexed(m, text, lexer::origin_place())->Ok_0;
    recovery_without_errors_is_parsing::<PreLexed, H>(table, ts, start, handler, errors, t);
    if let Ok(s) = lalr::initial(table, start) {
        let none = Seq::<tree::TokenModel>::empty();
        lemma_lexed_recovered::<H>(
            m,
            table,
            text,
            lexer::origin_place(),
            recovery::LexPhase {
                end: recovery::LexEnd::Done,
                tokens: none,
                errors,
                handler,
                states: seq![s],
                values: Seq::empty(),
            },
        );
        assert(none + ts =~= ts);
    }
}

// ---------------------------------------------------------------------------
// Feeding by hand

/// The parse once tokens are fed one by one.
pub open spec fn driven_all(
    m: interactive::DrivenModel,
    toks: Seq<tree::TokenModel>,
) -> interactive::DrivenModel
    decreases toks.len(),
{
    if toks.len() == 0 {
        m
    } else {
        driven_all(interactive::driven(m, toks[0]).0, toks.drop_first())
    }
}

/// Whether the name of a token's type is that of its number.
pub open spec fn is_named(table: ParseTable, tok: tree::TokenModel) -> bool {
    symbols::id_of(table.symbols@, tok.type_) == Some(tok.type_id)
}

/// A token that is not shifted leads on by its type alone.
pub(crate) proof fn lemma_fed_by_type(
    table: ParseTable,
    states: Seq<usize>,
    values: Seq<tree_builder::SlotModel>,
    t: tree::TokenModel,
    u: tree::TokenModel,
    fuel: nat,
)
    requires
        t.type_id == u.type_id,
        !(lalr_stack::fed(table, states, values, t, fuel).outcome is Shifted),
    ensures
        lalr_stack::fed(table, states, values, u, fuel) == lalr_stack::fed(
            table,
            states,
            values,
            t,
            fuel,
        ),
    decreases fuel,
{
    if fuel > 0 {
        if let Some(Action::Reduce(r)) = table.action_for(states.last() as int, t.type_id) {
            if let Some(next) = lalr_stack::reduced_states(table, states, r as int) {
                lemma_fed_by_type(
                    table,
                    next,
                    lalr_stack::reduced_values(table, values, r as int),
                    t,
                    u,
                    (fuel - 1) as nat,
                );
            }
        }
    }
}

proof fn lemma_run_driven(
    table: ParseTable,
    a: Automaton,
    start: int,
    input: Seq<char>,
    toks: Seq<tree::TokenModel>,
    end: tree::TokenModel,
    values: Seq<output::GSlotModel<tree::Node>>,
    xs: Seq<SymbolId>,
    done: Seq<tree::TokenModel>,
    m: interactive::DrivenModel,
    fuel: nat,
)
    requires
        table.tabulates(a),
        lalr_laws::end_is_reserved(table.models()),
        lalr_laws::spells(table, a, start, m.states, xs, lalr_laws::types_of(done)),
        lalr_trees::is_valued(table, xs, done, values),
        ({
            let s = lalr_table::start_rules(table.models(), table.starts@)[start].0;
            s.ix() >= table.n_terminals && derivation::is_solid(table.models(), s)
        }),
        forall|i: int| 0 <= i < toks.len() ==> is_named(table, #[trigger] toks[i]),
        forall|i: int| 0 <= i < toks.len() ==> (#[trigger] toks[i]).type_id != SymbolId::end(),
        symbols::id_of(table.symbols@, end.type_) == Some(SymbolId::end()),
        m.table == table,
        m.values == output::tree_slots(values),
        m.result is None,
        lalr::ran::<PreLexed, TreeOutputBuilder>(
            table,
            table.propagate_positions,
            input,
            toks,
            m.states,
            values,
            fuel,
        ) is Ok,
    ensures
        interactive::driven(driven_all(m, toks), end).1 == Ok::<
            Option<tree::Node>,
            error::ErrorModel,
        >(
            Some(
                lalr::ran::<PreLexed, TreeOutputBuilder>(
                    table,
                    table.propagate_positions,
                    input,
                    toks,
                    m.states,
                    values,
                    fuel,
                )->Ok_0,
            ),
        ),
    decreases fuel,
{
    let tok = if toks.len() > 0 {
        toks[0]
    } else {
        tree::end_token()
    };
    let limit = lalr_stack::REDUCTION_LIMIT as nat;
    let pp = table.propagate_positions;
    let ys = lalr_trees::lemma_feed_valued(
        table,
        a,
        start,
        input,
        m.states,
        values,
        xs,
        done,
        tok,
        limit,
    );
    let g = lalr::gfed::<TreeOutputBuilder>(table, pp, input, m.states, values, tok, limit);
    if let lalr::GOutcome::Accepted(t) = g.outcome {
        let s = lalr_table::start_rules(table.models(), table.starts@)[start].0;
        lemma_accepted(table, s, done, ys.1, t);
        assert(toks.len() == 0);
        lemma_fed_by_type(
            table,
            m.states,
            m.values,
            tok,
            recovery::retyped(end, SymbolId::end()),
            limit,
        );
    } else {
        if toks.len() == 0 {
            lalr_laws::lemma_end_not_shifted::<TreeOutputBuilder>(
                table,
                a,
                pp,
                input,
                m.states,
                values,
                tok,
                limit,
            );
        }
        let rest = PreLexed::advance_model(toks);
        assert(rest =~= toks.drop_first());
        assert(is_named(table, toks[0]));
        assert(recovery::retyped(tok, tok.type_id) == tok);
        lemma_run_driven(
            table,
            a,
            start,
            input,
            rest,
            end,
            g.values,
            ys.0,
            done.push(tok),
            interactive::driven(m, tok).0,
            (fuel - 1) as nat,
        );
    }
}

/// Feeding the tokens of a parse one by one, and then the end of input, gives the
/// tree of the parse.
pub proof fn feeding_is_parsing(
    table: ParseTable,
    toks: Seq<tree::TokenModel>,
    end: tree::TokenModel,
    start: Option<Seq<char>>,
    m: interactive::DrivenModel,
    t: tree::Node,
)
    requires
        table.wf(),
        lalr_laws::end_is_reserved(table.models()),
        ({
            let s = lalr::resolved_start(table.starts@, table.symbols@, start)->0;
            derivation::is_solid(table.models(), s)
        }),
        forall|i: int| 0 <= i < toks.len() ==> is_named(table, #[trigger] toks[i]),
        forall|i: int| 0 <= i < toks.len() ==> (#[trigger] toks[i]).type_id != SymbolId::end(),
        symbols::id_of(table.symbols@, end.type_) == Some(SymbolId::end()),
        lalr::parse_model::<PreLexed>(table, toks, start) == Ok::<tree::Node, error::ErrorModel>(
            t,
        ),
        m == interactive::driven_start(
            table,
            m.lexer,
            lalr::initial(table, start)->Ok_0,
            m.text,
        ),
    ensures
        interactive::driven(driven_all(m, toks), end).1 == Ok::<
            Option<tree::Node>,
            error::ErrorModel,
        >(Some(t)),
{
    let i = lalr_trees::lemma_begun(table, start);
    let values = Seq::<output::GSlotModel<tree::Node>>::empty();
    assert(output::tree_slots(values) =~= Seq::empty());
    lemma_run_driven(
        table,
        lalr_stack::automaton(table),
        i,
        ""@,
        toks,
        end,
        values,
        Seq::empty(),
        Seq::empty(),
        m,
        lalr::TOKEN_LIMIT as nat,
    );
}

} // verus!
