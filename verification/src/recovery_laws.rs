//! What recovery does after an error: it goes on, or ends, as the handler says, and
//! tokens that a handler feeds count as if they had been in the input.

use vstd::prelude::*;
use crate::derivation;
use crate::driving_laws;
use crate::error;
use crate::error::RecoveryAction;
use crate::lalr;
use crate::lalr_laws;
use crate::lalr_stack;
use crate::lalr_table;
use crate::lalr_table::ParseTable;
use crate::lalr_trees;
use crate::lr0::Automaton;
use crate::output;
use crate::recovery;
use crate::recovery::RecoveryHandler;
use crate::symbols::SymbolId;
use crate::token_source;
use crate::token_source::{PreLexed, TokenSource};
use crate::tree;
use crate::tree_builder;
use crate::tree_builder::TreeOutputBuilder;

verus! {

// ---------------------------------------------------------------------------
// Errors are added behind those met before

/// What a run adds to the errors met before it does not depend on them.
pub proof fn errors_met_before_stay<S: TokenSource, H: RecoveryHandler>(
    table: ParseTable,
    source: S::Content,
    handler: H::Content,
    states: Seq<usize>,
    values: Seq<tree_builder::SlotModel>,
    errors: Seq<error::ErrorModel>,
    fuel: nat,
)
    ensures
        ({
            let r = recovery::recovered::<S, H>(
                table,
                source,
                handler,
                states,
                values,
                errors,
                fuel,
            );
            let q = recovery::recovered::<S, H>(
                table,
                source,
                handler,
                states,
                values,
                Seq::empty(),
                fuel,
            );
            &&& r.result == q.result
            &&& r.handler == q.handler
            &&& r.errors == errors + q.errors
        }),
    decreases fuel, 0nat,
{
    let none = Seq::<error::ErrorModel>::empty();
    assert(errors + none =~= errors);
    if fuel > 0 {
        let (next, got) = S::peek_model(source, states.last() as nat);
        match got {
            Err(token_source::SourceErrorModel::Postlex(_)) => {},
            Err(token_source::SourceErrorModel::Lex(f)) => {
                let err = recovery::bad_character(f);
                let (h, ctx, act) = H::answer(
                    handler,
                    table,
                    err,
                    recovery::RecoveryModel { states, values, fed_count: 0, accepted: None },
                );
                assert(errors.push(err) =~= errors + none.push(err));
                lemma_shifted::<S, H>(
                    table,
                    S::skip_model(next),
                    h,
                    ctx.states,
                    ctx.values,
                    errors,
                    err,
                    (fuel - 1) as nat,
                );
            },
            Ok(tok) => {
                let f = lalr_stack::fed(
                    table,
                    states,
                    values,
                    tok,
                    lalr_stack::REDUCTION_LIMIT as nat,
                );
                if f.outcome is Shifted {
                    errors_met_before_stay::<S, H>(
                        table,
                        S::advance_model(next),
                        handler,
                        f.states,
                        f.values,
                        errors,
                        (fuel - 1) as nat,
                    );
                } else if !(f.outcome is Accepted) && !(f.outcome is Error) {
                    let err = lalr::unexpected_model(table, f.states.last() as int, tok);
                    let (h, ctx, act) = H::answer(
                        handler,
                        table,
                        err,
                        recovery::RecoveryModel {
                            states: f.states,
                            values: f.values,
                            fed_count: 0,
                            accepted: None,
                        },
                    );
                    assert(errors.push(err) =~= errors + none.push(err));
                    let at_end = tok.type_id == SymbolId::end();
                    lemma_shifted::<S, H>(
                        table,
                        if at_end {
                            next
                        } else {
                            S::delete_model(S::advance_model(next))
                        },
                        h,
                        ctx.states,
                        ctx.values,
                        errors,
                        err,
                        (fuel - 1) as nat,
                    );
                }
            },
        }
    }
}

proof fn lemma_shifted<S: TokenSource, H: RecoveryHandler>(
    table: ParseTable,
    source: S::Content,
    handler: H::Content,
    states: Seq<usize>,
    values: Seq<tree_builder::SlotModel>,
    errors: Seq<error::ErrorModel>,
    err: error::ErrorModel,
    fuel: nat,
)
    ensures
        ({
            let r = recovery::recovered::<S, H>(
                table,
                source,
                handler,
                states,
                values,
                errors.push(err),
                fuel,
            );
            let q = recovery::recovered::<S, H>(
                table,
                source,
                handler,
                states,
                values,
                Seq::<error::ErrorModel>::empty().push(err),
                fuel,
            );
            &&& r.result == q.result
            &&& r.handler == q.handler
            &&& r.errors == errors + q.errors
        }),
    decreases fuel, 1nat,
{
    let one = Seq::<error::ErrorModel>::empty().push(err);
    let q = recovery::recovered::<S, H>(
        table,
        source,
        handler,
        states,
        values,
        Seq::empty(),
        fuel,
    );
    errors_met_before_stay::<S, H>(
        table,
        source,
        handler,
        states,
        values,
        errors.push(err),
        fuel,
    );
    errors_met_before_stay::<S, H>(table, source, handler, states, values, one, fuel);
    assert(errors.push(err) + q.errors =~= errors + (one + q.errors));
}

// ---------------------------------------------------------------------------
// What a handler decides

/// Whether a parser in given stacks has no use for a token.
pub open spec fn is_refused(
    table: ParseTable,
    states: Seq<usize>,
    values: Seq<tree_builder::SlotModel>,
    tok: tree::TokenModel,
) -> bool {
    let f = lalr_stack::fed(table, states, values, tok, lalr_stack::REDUCTION_LIMIT as nat);
    !(f.outcome is Shifted) && !(f.outcome is Accepted) && !(f.outcome is Error)
}

/// Whether a run reports an error, and then has the outcome of another run.
pub open spec fn goes_on_as<C>(
    r: recovery::RecoveredModel<C>,
    err: error::ErrorModel,
    rest: recovery::RecoveredModel<C>,
) -> bool {
    &&& r.result == rest.result
    &&& r.handler == rest.handler
    &&& r.errors == seq![err] + rest.errors
}

/// Whether a run reports an error and ends with nothing.
pub open spec fn ends_with_none<C>(
    r: recovery::RecoveredModel<C>,
    err: error::ErrorModel,
    handler: C,
) -> bool {
    &&& r.result == Ok::<Option<tree::Node>, error::ErrorModel>(None)
    &&& r.errors == seq![err]
    &&& r.handler == handler
}

/// A token that the parser has no use for is shown to the handler once, as an error.
/// A tree that the handler's tokens complete is the result. To stop ends the run, and
/// so does deleting the end of input, or resuming without a token fed. Otherwise the
/// run goes on from the stacks that the handler leaves: past the token, or, where a
/// token was fed at the end of input, at the end of input again.
pub proof fn handlers_decide<S: TokenSource, H: RecoveryHandler>(
    table: ParseTable,
    source: S::Content,
    handler: H::Content,
    states: Seq<usize>,
    values: Seq<tree_builder::SlotModel>,
    fuel: nat,
    next: S::Content,
    tok: tree::TokenModel,
)
    requires
        fuel > 0,
        S::peek_model(source, states.last() as nat) == (
            next,
            Ok::<tree::TokenModel, token_source::SourceErrorModel>(tok),
        ),
        is_refused(table, states, values, tok),
    ensures
        ({
            let r = recovery::recovered::<S, H>(
                table,
                source,
                handler,
                states,
                values,
                Seq::empty(),
                fuel,
            );
            let f = lalr_stack::fed(
                table,
                states,
                values,
                tok,
                lalr_stack::REDUCTION_LIMIT as nat,
            );
            let err = lalr::unexpected_model(table, f.states.last() as int, tok);
            let (h, ctx, act) = H::answer(
                handler,
                table,
                err,
                recovery::RecoveryModel {
                    states: f.states,
                    values: f.values,
                    fed_count: 0,
                    accepted: None,
                },
            );
            let past = recovery::recovered::<S, H>(
                table,
                S::delete_model(S::advance_model(next)),
                h,
                ctx.states,
                ctx.values,
                Seq::empty(),
                (fuel - 1) as nat,
            );
            let again = recovery::recovered::<S, H>(
                table,
                next,
                h,
                ctx.states,
                ctx.values,
                Seq::empty(),
                (fuel - 1) as nat,
            );
            match ctx.accepted {
                Some(t) => r.result == Ok::<Option<tree::Node>, error::ErrorModel>(Some(t))
                    && r.errors == seq![err] && r.handler == h,
                None => match act {
                    RecoveryAction::Stop => ends_with_none(r, err, h),
                    RecoveryAction::Delete => if tok.type_id == SymbolId::end() {
                        ends_with_none(r, err, h)
                    } else {
                        goes_on_as(r, err, past)
                    },
                    RecoveryAction::Resume => if ctx.fed_count == 0 {
                        ends_with_none(r, err, h)
                    } else if tok.type_id == SymbolId::end() {
                        goes_on_as(r, err, again)
                    } else {
                        goes_on_as(r, err, past)
                    },
                },
            }
        }),
{
    let none = Seq::<error::ErrorModel>::empty();
    let f = lalr_stack::fed(table, states, values, tok, lalr_stack::REDUCTION_LIMIT as nat);
    let err = lalr::unexpected_model(table, f.states.last() as int, tok);
    let (h, ctx, act) = H::answer(
        handler,
        table,
        err,
        recovery::RecoveryModel {
            states: f.states,
            values: f.values,
            fed_count: 0,
            accepted: None,
        },
    );
    assert(none.push(err) =~= seq![err]);
    errors_met_before_stay::<S, H>(
        table,
        S::delete_model(S::advance_model(next)),
        h,
        ctx.states,
        ctx.values,
        none.push(err),
        (fuel - 1) as nat,
    );
    errors_met_before_stay::<S, H>(
        table,
        next,
        h,
        ctx.states,
        ctx.values,
        none.push(err),
        (fuel - 1) as nat,
    );
}

/// A character that begins no token is shown to the handler once, as an error. A tree
/// that the handler's tokens complete is the result, to stop ends the run, and
/// otherwise the run goes on past that character.
pub proof fn handlers_see_bad_characters<S: TokenSource, H: RecoveryHandler>(
    table: ParseTable,
    source: S::Content,
    handler: H::Content,
    states: Seq<usize>,
    values: Seq<tree_builder::SlotModel>,
    fuel: nat,
    next: S::Content,
    bad: token_source::LexFailure,
)
    requires
        fuel > 0,
        S::peek_model(source, states.last() as nat) == (
            next,
            Err::<tree::TokenModel, token_source::SourceErrorModel>(
                token_source::SourceErrorModel::Lex(bad),
            ),
        ),
    ensures
        ({
            let r = recovery::recovered::<S, H>(
                table,
                source,
                handler,
                states,
                values,
                Seq::empty(),
                fuel,
            );
            let err = error::ErrorModel::UnexpectedCharacter {
                ch: bad.ch,
                line: bad.line,
                col: bad.col,
                pos: bad.pos,
                expected: "any token"@,
            };
            let (h, ctx, act) = H::answer(
                handler,
                table,
                err,
                recovery::RecoveryModel { states, values, fed_count: 0, accepted: None },
            );
            let past = recovery::recovered::<S, H>(
                table,
                S::skip_model(next),
                h,
                ctx.states,
                ctx.values,
                Seq::empty(),
                (fuel - 1) as nat,
            );
            match ctx.accepted {
                Some(t) => r.result == Ok::<Option<tree::Node>, error::ErrorModel>(Some(t))
                    && r.errors == seq![err] && r.handler == h,
                None => if act is Stop {
                    ends_with_none(r, err, h)
                } else {
                    goes_on_as(r, err, past)
                },
            }
        }),
{
    let none = Seq::<error::ErrorModel>::empty();
    let err = recovery::bad_character(bad);
    let (h, ctx, act) = H::answer(
        handler,
        table,
        err,
        recovery::RecoveryModel { states, values, fed_count: 0, accepted: None },
    );
    assert(none.push(err) =~= seq![err]);
    errors_met_before_stay::<S, H>(
        table,
        S::skip_model(next),
        h,
        ctx.states,
        ctx.values,
        none.push(err),
        (fuel - 1) as nat,
    );
}

/// What no handler sees: a token that is shifted is passed by, one that completes the
/// parse gives its tree, and an error in indentation or in completing the tree ends the
/// run. No error is added by any of these.
pub proof fn runs_go_by_the_table<S: TokenSource, H: RecoveryHandler>(
    table: ParseTable,
    source: S::Content,
    handler: H::Content,
    states: Seq<usize>,
    values: Seq<tree_builder::SlotModel>,
    fuel: nat,
)
    requires
        fuel > 0,
    ensures
        ({
            let (next, got) = S::peek_model(source, states.last() as nat);
            let r = recovery::recovered::<S, H>(
                table,
                source,
                handler,
                states,
                values,
                Seq::empty(),
                fuel,
            );
            &&& got matches Err(token_source::SourceErrorModel::Postlex(e)) ==> r.result == Err::<
                Option<tree::Node>,
                error::ErrorModel,
            >(e) && r.errors.len() == 0 && r.handler == handler
            &&& got matches Ok(tok) ==> {
                let f = lalr_stack::fed(
                    table,
                    states,
                    values,
                    tok,
                    lalr_stack::REDUCTION_LIMIT as nat,
                );
                match f.outcome {
                    lalr_stack::Outcome::Shifted => r == recovery::recovered::<S, H>(
                        table,
                        S::advance_model(next),
                        handler,
                        f.states,
                        f.values,
                        Seq::empty(),
                        (fuel - 1) as nat,
                    ),
                    lalr_stack::Outcome::Accepted(t) => r.result == Ok::<
                        Option<tree::Node>,
                        error::ErrorModel,
                    >(Some(t)) && r.errors.len() == 0 && r.handler == handler,
                    lalr_stack::Outcome::Error(e) => r.result == Err::<
                        Option<tree::Node>,
                        error::ErrorModel,
                    >(e) && r.errors.len() == 0 && r.handler == handler,
                    _ => true,
                }
            }
        }),
{
}

// ---------------------------------------------------------------------------
// Tokens that are fed count

/// The stacks that a parse reaches by tokens.
pub open spec fn reached(
    table: ParseTable,
    states: Seq<usize>,
    values: Seq<output::GSlotModel<tree::Node>>,
    toks: Seq<tree::TokenModel>,
) -> (Seq<usize>, Seq<output::GSlotModel<tree::Node>>)
    decreases toks.len(),
{
    if toks.len() == 0 {
        (states, values)
    } else {
        let g = lalr::gfed::<TreeOutputBuilder>(
            table,
            table.propagate_positions,
            ""@,
            states,
            values,
            toks[0],
            lalr_stack::REDUCTION_LIMIT as nat,
        );
        reached(table, g.states, g.values, toks.drop_first())
    }
}

/// What a handler's context is once tokens are fed to it.
pub open spec fn fed_to(
    table: ParseTable,
    ctx: recovery::RecoveryModel,
    toks: Seq<tree::TokenModel>,
) -> recovery::RecoveryModel
    decreases toks.len(),
{
    if toks.len() == 0 {
        ctx
    } else {
        fed_to(table, recovery::context_fed(table, ctx, toks[0]).0, toks.drop_first())
    }
}

/// A plain run over tokens.
spec fn plain(
    table: ParseTable,
    toks: Seq<tree::TokenModel>,
    states: Seq<usize>,
    values: Seq<output::GSlotModel<tree::Node>>,
    fuel: nat,
) -> Result<tree::Node, error::ErrorModel> {
    lalr::ran::<PreLexed, TreeOutputBuilder>(
        table,
        table.propagate_positions,
        ""@,
        toks,
        states,
        values,
        fuel,
    )
}

/// Whether stacks are those of a parse of tokens from a start symbol that is not
/// spliced.
spec fn are_stacks(
    table: ParseTable,
    a: Automaton,
    start: int,
    states: Seq<usize>,
    values: Seq<output::GSlotModel<tree::Node>>,
    xs: Seq<SymbolId>,
    done: Seq<tree::TokenModel>,
) -> bool {
    &&& table.tabulates(a)
    &&& lalr_laws::spells(table, a, start, states, xs, lalr_laws::types_of(done))
    &&& lalr_trees::is_valued(table, xs, done, values)
    &&& ({
        let s = lalr_table::start_rules(table.models(), table.starts@)[start].0;
        s.ix() >= table.n_terminals && derivation::is_solid(table.models(), s)
    })
}

/// A token of a plain run that succeeds, other than the end of input, is shifted.
proof fn lemma_step(
    table: ParseTable,
    a: Automaton,
    start: int,
    states: Seq<usize>,
    values: Seq<output::GSlotModel<tree::Node>>,
    xs: Seq<SymbolId>,
    done: Seq<tree::TokenModel>,
    toks: Seq<tree::TokenModel>,
    fuel: nat,
) -> (ys: Seq<SymbolId>)
    requires
        are_stacks(table, a, start, states, values, xs, done),
        toks.len() > 0,
        toks[0].type_id != SymbolId::end(),
        plain(table, toks, states, values, fuel) is Ok,
    ensures
        ({
            let limit = lalr_stack::REDUCTION_LIMIT as nat;
            let g = lalr::gfed::<TreeOutputBuilder>(
                table,
                table.propagate_positions,
                ""@,
                states,
                values,
                toks[0],
                limit,
            );
            let f = lalr_stack::fed(
                table,
                states,
                output::tree_slots(values),
                toks[0],
                limit,
            );
            &&& fuel > 0
            &&& are_stacks(table, a, start, g.states, g.values, ys, done.push(toks[0]))
            &&& f.outcome is Shifted
            &&& f.states == g.states
            &&& f.values == output::tree_slots(g.values)
            &&& plain(table, toks.drop_first(), g.states, g.values, (fuel - 1) as nat) == plain(
                table,
                toks,
                states,
                values,
                fuel,
            )
            &&& table.action_for(states.last() as int, toks[0].type_id) is Some
        }),
{
    let ys = lalr_trees::lemma_feed_valued(
        table,
        a,
        start,
        ""@,
        states,
        values,
        xs,
        done,
        toks[0],
        lalr_stack::REDUCTION_LIMIT as nat,
    );
    ys.0
}

/// Tokens that are fed to a handler's context are shifted as those of a plain run.
proof fn lemma_fed_to(
    table: ParseTable,
    a: Automaton,
    start: int,
    ctx: recovery::RecoveryModel,
    values: Seq<output::GSlotModel<tree::Node>>,
    xs: Seq<SymbolId>,
    done: Seq<tree::TokenModel>,
    more: Seq<tree::TokenModel>,
    rest: Seq<tree::TokenModel>,
    fuel: nat,
) -> (r: (Seq<output::GSlotModel<tree::Node>>, Seq<SymbolId>, Seq<tree::TokenModel>))
    requires
        are_stacks(table, a, start, ctx.states, values, xs, done),
        ctx.values == output::tree_slots(values),
        ctx.accepted is None,
        forall|i: int|
            0 <= i < more.len() ==> driving_laws::is_named(table, #[trigger] more[i])
                && more[i].type_id != SymbolId::end(),
        plain(table, more + rest, ctx.states, values, fuel) is Ok,
    ensures
        ({
            let c = fed_to(table, ctx, more);
            &&& fuel >= more.len()
            &&& c.accepted is None
            &&& more.len() > 0 || ctx.fed_count > 0 ==> c.fed_count > 0
            &&& c.values == output::tree_slots(r.0)
            &&& are_stacks(table, a, start, c.states, r.0, r.1, r.2)
            &&& plain(table, rest, c.states, r.0, (fuel - more.len()) as nat) == plain(
                table,
                more + rest,
                ctx.states,
                values,
                fuel,
            )
        }),
    decreases more.len(),
{
    if more.len() == 0 {
        assert(more + rest =~= rest);
        (values, xs, done)
    } else {
        let all = more + rest;
        let x = more[0];
        assert(all[0] == x);
        assert(driving_laws::is_named(table, more[0]));
        let ys = lemma_step(table, a, start, ctx.states, values, xs, done, all, fuel);
        let g = lalr::gfed::<TreeOutputBuilder>(
            table,
            table.propagate_positions,
            ""@,
            ctx.states,
            values,
            x,
            lalr_stack::REDUCTION_LIMIT as nat,
        );
        assert(recovery::retyped(x, x.type_id) == x);
        let next = recovery::context_fed(table, ctx, x).0;
        assert(next.states == g.states);
        let tail = more.drop_first();
        assert(all.drop_first() =~= tail + rest);
        assert forall|i: int| 0 <= i < tail.len() implies driving_laws::is_named(
            table,
            #[trigger] tail[i],
        ) && tail[i].type_id != SymbolId::end() by {
            assert(tail[i] == more[i + 1]);
        }
        lemma_fed_to(
            table,
            a,
            start,
            next,
            g.values,
            ys,
            done.push(x),
            tail,
            rest,
            (fuel - 1) as nat,
        )
    }
}

/// A token that is shifted is passed by.
proof fn lemma_passed<H: RecoveryHandler>(
    table: ParseTable,
    handler: H::Content,
    states: Seq<usize>,
    values: Seq<tree_builder::SlotModel>,
    toks: Seq<tree::TokenModel>,
    errors: Seq<error::ErrorModel>,
    fuel: nat,
)
    requires
        toks.len() > 0,
        fuel > 0,
        lalr_stack::fed(
            table,
            states,
            values,
            toks[0],
            lalr_stack::REDUCTION_LIMIT as nat,
        ).outcome is Shifted,
    ensures
        ({
            let f = lalr_stack::fed(
                table,
                states,
                values,
                toks[0],
                lalr_stack::REDUCTION_LIMIT as nat,
            );
            recovery::recovered::<PreLexed, H>(
                table,
                toks,
                handler,
                states,
                values,
                errors,
                fuel,
            ) == recovery::recovered::<PreLexed, H>(
                table,
                toks.drop_first(),
                handler,
                f.states,
                f.values,
                errors,
                (fuel - 1) as nat,
            )
        }),
{
}

/// A token for which the parser has no action, and for which the handler feeds tokens
/// and resumes, is dropped, unless it is the end of input.
proof fn lemma_resumed<H: RecoveryHandler>(
    table: ParseTable,
    handler: H::Content,
    after: H::Content,
    ctx: recovery::RecoveryModel,
    bad: tree::TokenModel,
    next: recovery::RecoveryModel,
    source: Seq<tree::TokenModel>,
    rest: Seq<tree::TokenModel>,
    errors: Seq<error::ErrorModel>,
    fuel: nat,
)
    requires
        is_mended(bad, source, rest),
        ctx.fed_count == 0,
        ctx.accepted is None,
        table.action_for(ctx.states.last() as int, bad.type_id) is None,
        H::answer(
            handler,
            table,
            lalr::unexpected_model(table, ctx.states.last() as int, bad),
            ctx,
        ) == (after, next, RecoveryAction::Resume),
        next.accepted is None,
        next.fed_count > 0,
    ensures
        recovery::recovered::<PreLexed, H>(
            table,
            source,
            handler,
            ctx.states,
            ctx.values,
            errors,
            fuel + 1,
        ) == recovery::recovered::<PreLexed, H>(
            table,
            rest,
            after,
            next.states,
            next.values,
            errors.push(lalr::unexpected_model(table, ctx.states.last() as int, bad)),
            fuel,
        ),
{
    let f = lalr_stack::fed(
        table,
        ctx.states,
        ctx.values,
        bad,
        lalr_stack::REDUCTION_LIMIT as nat,
    );
    assert(f.states == ctx.states && f.values == ctx.values);
    assert(ctx == recovery::RecoveryModel {
        states: f.states,
        values: f.values,
        fed_count: 0,
        accepted: None,
    });
    assert(PreLexed::peek_model(source, ctx.states.last() as nat) == (
        source,
        Ok::<tree::TokenModel, token_source::SourceErrorModel>(bad),
    ));
    if bad.type_id != SymbolId::end() {
        assert(source.drop_first() =~= rest);
    }
}

/// A run with recovery over `front` and then `source`, where the token behind `front`
/// is refused at once and the handler feeds `more` and resumes.
proof fn lemma_mended<H: RecoveryHandler>(
    table: ParseTable,
    a: Automaton,
    start: int,
    handler: H::Content,
    after: H::Content,
    states: Seq<usize>,
    values: Seq<output::GSlotModel<tree::Node>>,
    xs: Seq<SymbolId>,
    done: Seq<tree::TokenModel>,
    front: Seq<tree::TokenModel>,
    bad: tree::TokenModel,
    more: Seq<tree::TokenModel>,
    source: Seq<tree::TokenModel>,
    rest: Seq<tree::TokenModel>,
    errors: Seq<error::ErrorModel>,
    fuel: nat,
)
    requires
        are_stacks(table, a, start, states, values, xs, done),
        forall|i: int| 0 <= i < front.len() ==> (#[trigger] front[i]).type_id != SymbolId::end(),
        more.len() > 0,
        forall|i: int|
            0 <= i < more.len() ==> driving_laws::is_named(table, #[trigger] more[i])
                && more[i].type_id != SymbolId::end(),
        plain(table, front + (more + rest), states, values, fuel) is Ok,
        is_mended(bad, source, rest),
        ({
            let at = reached(table, states, values, front);
            let err = lalr::unexpected_model(table, at.0.last() as int, bad);
            let ctx = recovery::RecoveryModel {
                states: at.0,
                values: output::tree_slots(at.1),
                fed_count: 0,
                accepted: None,
            };
            &&& table.action_for(at.0.last() as int, bad.type_id) is None
            &&& H::answer(handler, table, err, ctx) == (
                after,
                fed_to(table, ctx, more),
                RecoveryAction::Resume,
            )
        }),
    ensures
        recovery::recovered::<PreLexed, H>(
            table,
            front + source,
            handler,
            states,
            output::tree_slots(values),
            errors,
            fuel + 1,
        ) == (recovery::RecoveredModel {
            result: Ok(
                Some(plain(table, front + (more + rest), states, values, fuel)->Ok_0),
            ),
            errors: errors.push(
                lalr::unexpected_model(
                    table,
                    reached(table, states, values, front).0.last() as int,
                    bad,
                ),
            ),
            handler: after,
        }),
    decreases front.len(),
{
    let all = front + (more + rest);
    if front.len() > 0 {
        assert(all[0] == front[0]);
        let ys = lemma_step(table, a, start, states, values, xs, done, all, fuel);
        let g = lalr::gfed::<TreeOutputBuilder>(
            table,
            table.propagate_positions,
            ""@,
            states,
            values,
            front[0],
            lalr_stack::REDUCTION_LIMIT as nat,
        );
        let tail = front.drop_first();
        assert(all.drop_first() =~= tail + (more + rest));
        assert((front + source)[0] == front[0]);
        assert((front + source).drop_first() =~= tail + source);
        assert forall|i: int| 0 <= i < tail.len() implies (#[trigger] tail[i]).type_id
            != SymbolId::end() by {
            assert(tail[i] == front[i + 1]);
        }
        lemma_mended::<H>(
            table,
            a,
            start,
            handler,
            after,
            g.states,
            g.values,
            ys,
            done.push(front[0]),
            tail,
            bad,
            more,
            source,
            rest,
            errors,
            (fuel - 1) as nat,
        );
        lemma_passed::<H>(
            table,
            handler,
            states,
            output::tree_slots(values),
            front + source,
            errors,
            fuel + 1,
        );
    } else {
        assert(all =~= more + rest);
        assert(front + source =~= source);
        let err = lalr::unexpected_model(table, states.last() as int, bad);
        let ctx = recovery::RecoveryModel {
            states,
            values: output::tree_slots(values),
            fed_count: 0,
            accepted: None,
        };
        let r = lemma_fed_to(table, a, start, ctx, values, xs, done, more, rest, fuel);
        let c = fed_to(table, ctx, more);
        let left = (fuel - more.len()) as nat;
        lemma_more_fuel(table, rest, c.states, r.0, left, (fuel - 1) as nat);
        driving_laws::lemma_run_recovered::<PreLexed, H>(
            table,
            a,
            start,
            ""@,
            rest,
            c.states,
            r.0,
            r.1,
            r.2,
            after,
            errors.push(err),
            (fuel - 1) as nat,
        );
        lemma_resumed::<H>(table, handler, after, ctx, bad, c, source, rest, errors, fuel);
    }
}

/// Whether `rest` is what a run goes on with once the refused token of `source` is
/// replaced: the end of input stays, and another token is dropped.
spec fn is_mended(
    bad: tree::TokenModel,
    source: Seq<tree::TokenModel>,
    rest: Seq<tree::TokenModel>,
) -> bool {
    if bad.type_id == SymbolId::end() {
        rest == source && (source.len() == 0 && bad == tree::end_token() || source.len() > 0
            && source[0] == bad)
    } else {
        source == seq![bad] + rest
    }
}

proof fn lemma_more_fuel(
    table: ParseTable,
    toks: Seq<tree::TokenModel>,
    states: Seq<usize>,
    values: Seq<output::GSlotModel<tree::Node>>,
    fuel: nat,
    more: nat,
)
    requires
        fuel <= more,
        plain(table, toks, states, values, fuel) is Ok,
    ensures
        plain(table, toks, states, values, more) == plain(table, toks, states, values, fuel),
    decreases more - fuel,
{
    if fuel < more {
        driving_laws::lemma_run_more::<PreLexed>(table, ""@, toks, states, values, fuel);
        lemma_more_fuel(table, toks, states, values, fuel + 1, more);
    }
}

/// Whether a handler answers the first error of an input, the token `bad` behind
/// `front`, by feeding `more` and resuming.
pub open spec fn mends<H: RecoveryHandler>(
    table: ParseTable,
    start: Option<Seq<char>>,
    handler: H::Content,
    after: H::Content,
    front: Seq<tree::TokenModel>,
    bad: tree::TokenModel,
    more: Seq<tree::TokenModel>,
) -> bool {
    let at = reached(
        table,
        seq![lalr::initial(table, start)->Ok_0],
        Seq::empty(),
        front,
    );
    let ctx = recovery::RecoveryModel {
        states: at.0,
        values: output::tree_slots(at.1),
        fed_count: 0,
        accepted: None,
    };
    &&& table.action_for(at.0.last() as int, bad.type_id) is None
    &&& H::answer(
        handler,
        table,
        lalr::unexpected_model(table, at.0.last() as int, bad),
        ctx,
    ) == (after, fed_to(table, ctx, more), RecoveryAction::Resume)
}

/// Where a handler feeds what is missing at the end of input and resumes, recovery
/// gives the tree of a plain parse of the tokens with those that were fed behind them,
/// and reports one error.
pub proof fn missing_tokens_are_made_up_for<H: RecoveryHandler>(
    table: ParseTable,
    start: Option<Seq<char>>,
    handler: H::Content,
    after: H::Content,
    front: Seq<tree::TokenModel>,
    more: Seq<tree::TokenModel>,
    errors: Seq<error::ErrorModel>,
    t: tree::Node,
)
    requires
        table.wf(),
        derivation::is_solid(
            table.models(),
            lalr::resolved_start(table.starts@, table.symbols@, start)->0,
        ),
        forall|i: int| 0 <= i < front.len() ==> (#[trigger] front[i]).type_id != SymbolId::end(),
        more.len() > 0,
        forall|i: int|
            0 <= i < more.len() ==> driving_laws::is_named(table, #[trigger] more[i])
                && more[i].type_id != SymbolId::end(),
        driving_laws::parses_to::<PreLexed>(table, front + more, start, t),
        mends::<H>(table, start, handler, after, front, tree::end_token(), more),
    ensures
        ({
            let r = recovery::recover_model::<PreLexed, H>(table, front, start, handler, errors);
            &&& r.result == Ok::<Option<tree::Node>, error::ErrorModel>(Some(t))
            &&& r.errors.len() == errors.len() + 1
            &&& r.errors.drop_last() == errors
            &&& r.handler == after
        }),
{
    let none = Seq::<tree::TokenModel>::empty();
    assert(front + more =~= front + (more + none));
    assert(front + none =~= front);
    lemma_whole::<H>(
        table,
        start,
        handler,
        after,
        front,
        tree::end_token(),
        more,
        none,
        none,
        errors,
        t,
    );
}

/// Where a handler feeds what should stand in place of a token and resumes, recovery
/// gives the tree of a plain parse of the tokens with those that were fed in its place,
/// and reports one error.
pub proof fn wrong_tokens_are_replaced<H: RecoveryHandler>(
    table: ParseTable,
    start: Option<Seq<char>>,
    handler: H::Content,
    after: H::Content,
    front: Seq<tree::TokenModel>,
    bad: tree::TokenModel,
    more: Seq<tree::TokenModel>,
    rest: Seq<tree::TokenModel>,
    errors: Seq<error::ErrorModel>,
    t: tree::Node,
)
    requires
        table.wf(),
        derivation::is_solid(
            table.models(),
            lalr::resolved_start(table.starts@, table.symbols@, start)->0,
        ),
        forall|i: int| 0 <= i < front.len() ==> (#[trigger] front[i]).type_id != SymbolId::end(),
        bad.type_id != SymbolId::end(),
        more.len() > 0,
        forall|i: int|
            0 <= i < more.len() ==> driving_laws::is_named(table, #[trigger] more[i])
                && more[i].type_id != SymbolId::end(),
        driving_laws::parses_to::<PreLexed>(table, front + (more + rest), start, t),
        mends::<H>(table, start, handler, after, front, bad, more),
    ensures
        ({
            let r = recovery::recover_model::<PreLexed, H>(
                table,
                front + (seq![bad] + rest),
                start,
                handler,
                errors,
            );
            &&& r.result == Ok::<Option<tree::Node>, error::ErrorModel>(Some(t))
            &&& r.errors.len() == errors.len() + 1
            &&& r.errors.drop_last() == errors
            &&& r.handler == after
        }),
{
    lemma_whole::<H>(
        table,
        start,
        handler,
        after,
        front,
        bad,
        more,
        seq![bad] + rest,
        rest,
        errors,
        t,
    );
}

proof fn lemma_whole<H: RecoveryHandler>(
    table: ParseTable,
    start: Option<Seq<char>>,
    handler: H::Content,
    after: H::Content,
    front: Seq<tree::TokenModel>,
    bad: tree::TokenModel,
    more: Seq<tree::TokenModel>,
    source: Seq<tree::TokenModel>,
    rest: Seq<tree::TokenModel>,
    errors: Seq<error::ErrorModel>,
    t: tree::Node,
)
    requires
        table.wf(),
        derivation::is_solid(
            table.models(),
            lalr::resolved_start(table.starts@, table.symbols@, start)->0,
        ),
        forall|i: int| 0 <= i < front.len() ==> (#[trigger] front[i]).type_id != SymbolId::end(),
        more.len() > 0,
        forall|i: int|
            0 <= i < more.len() ==> driving_laws::is_named(table, #[trigger] more[i])
                && more[i].type_id != SymbolId::end(),
        driving_laws::parses_to::<PreLexed>(table, front + (more + rest), start, t),
        is_mended(bad, source, rest),
        mends::<H>(table, start, handler, after, front, bad, more),
    ensures
        ({
            let r = recovery::recover_model::<PreLexed, H>(
                table,
                front + source,
                start,
                handler,
                errors,
            );
            &&& r.result == Ok::<Option<tree::Node>, error::ErrorModel>(Some(t))
            &&& r.errors.len() == errors.len() + 1
            &&& r.errors.drop_last() == errors
            &&& r.handler == after
        }),
{
    let i = lalr_trees::lemma_begun(table, start);
    let a = lalr_stack::automaton(table);
    let states = seq![lalr::initial(table, start)->Ok_0];
    let values = Seq::<output::GSlotModel<tree::Node>>::empty();
    let fuel = (lalr::TOKEN_LIMIT - 1) as nat;
    assert(output::tree_slots(values) =~= Seq::empty());
    lemma_mended::<H>(
        table,
        a,
        i,
        handler,
        after,
        states,
        values,
        Seq::empty(),
        Seq::empty(),
        front,
        bad,
        more,
        source,
        rest,
        errors,
        fuel,
    );
    assert(fuel + 1 == lalr::TOKEN_LIMIT);
    let err = lalr::unexpected_model(
        table,
        reached(table, states, values, front).0.last() as int,
        bad,
    );
    assert(errors.push(err).drop_last() =~= errors);
}

} // verus!
