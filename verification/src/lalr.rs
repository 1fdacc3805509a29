//! The LALR parser: running a table over a token source, into trees or through
//! an output builder, with or without recovery from errors.

use vstd::prelude::*;
use crate::error;
use crate::error::ParseError;
use crate::lalr_stack;
use crate::lalr_stack::ParserStack;
use crate::lalr_table;
use crate::lalr_table::{Action, ParseTable};
use crate::output;
use crate::output::{
    accept_value, shape_reduction, GElem, GSlot, GTag, OutputBuilder, OutputContext,
};
use crate::perf;
use crate::perf::Counters;
use crate::symbols;
use crate::symbols::{SymbolId, SymbolTable};
use crate::tally;
use crate::tally::{count_result, count_slots};
use crate::text;
use crate::text::{join, owned, sort_names};
use crate::token_source;
use crate::token_source::{LexFailure, PreLexed, SourceError, TokenSource};
use crate::tree;
use crate::tree::{Child, ParseTree, Token};
use crate::tree_builder;
use crate::tree_builder::{meta_from_token, TreeOutputBuilder};

verus! {

// ---------------------------------------------------------------------------
// Start symbols

/// The names of a list of symbols.
pub open spec fn names_of(infos: Seq<symbols::SymbolInfo>, ids: Seq<SymbolId>) -> Seq<Seq<char>> {
    Seq::new(ids.len(), |i: int| symbols::name_of(infos, ids[i]))
}

/// The start symbol that a request stands for: the only configured one where
/// none is named, else the configured one of that name.
pub open spec fn resolved_start(
    starts: Seq<SymbolId>,
    infos: Seq<symbols::SymbolInfo>,
    start: Option<Seq<char>>,
) -> Option<SymbolId> {
    match start {
        None => if starts.len() == 1 {
            Some(starts[0])
        } else {
            None
        },
        Some(name) => match symbols::id_of(infos, name) {
            Some(id) => if starts.contains(id) {
                Some(id)
            } else {
                None
            },
            None => None,
        },
    }
}

/// The content of an optional name.
pub open spec fn opt_text(s: Option<&str>) -> Option<Seq<char>> {
    match s {
        Some(t) => Some(t@),
        None => None,
    }
}

fn contains_id(v: &Vec<SymbolId>, x: SymbolId) -> (r: bool)
    ensures
        r == v@.contains(x),
{
    let mut i: usize = 0;
    while i < v.len()
        invariant
            i <= v.len(),
            forall|k: int| 0 <= k < i ==> #[trigger] v@[k] != x,
        decreases v.len() - i,
    {
        if v[i] == x {
            return true;
        }
        i = i + 1;
    }
    false
}

/// The names of a list of symbols.
pub fn symbol_names(symbols: &SymbolTable, ids: &Vec<SymbolId>) -> (r: Vec<String>)
    ensures
        text::texts(r@) == names_of(symbols@, ids@),
{
    let mut r: Vec<String> = Vec::new();
    let mut i: usize = 0;
    while i < ids.len()
        invariant
            i <= ids.len(),
            r@.len() == i,
            forall|k: int| 0 <= k < i ==> (#[trigger] r@[k])@ == symbols::name_of(symbols@, ids@[k]),
        decreases ids.len() - i,
    {
        r.push(symbols.name_owned(ids[i]));
        i = i + 1;
    }
    proof {
        assert(text::texts(r@) =~= names_of(symbols@, ids@));
    }
    r
}

/// Finds the start symbol that a request stands for; otherwise the error lists
/// the configured ones.
pub fn resolve_start(starts: &Vec<SymbolId>, symbols: &SymbolTable, start: Option<&str>) -> (r:
    Result<SymbolId, ParseError>)
    requires
        symbols@.len() <= symbols::UNSET_ID,
    ensures
        match r {
            Ok(id) => resolved_start(starts@, symbols@, opt_text(start)) == Some(id),
            Err(e) => resolved_start(starts@, symbols@, opt_text(start)) is None && e@
                == error::unexpected_eof_model(0, 0, names_of(symbols@, starts@)),
        },
{
    match start {
        None => {
            if starts.len() == 1 {
                return Ok(starts[0]);
            }
        },
        Some(name) => {
            if let Some(id) = symbols.id(name) {
                if contains_id(starts, id) {
                    return Ok(id);
                }
            }
        },
    }
    Err(ParseError::unexpected_eof(0, 0, symbol_names(symbols, starts)))
}

// ---------------------------------------------------------------------------
// The parser

/// The state that a start symbol begins in.
pub open spec fn start_state(table: ParseTable, id: SymbolId) -> Option<usize> {
    start_state_in(table.start_states@, id)
}

/// The last state listed for a start symbol.
pub open spec fn start_state_in(list: Seq<(SymbolId, usize)>, id: SymbolId) -> Option<usize>
    decreases list.len(),
{
    if list.len() == 0 {
        None
    } else if list.last().0 == id {
        Some(list.last().1)
    } else {
        start_state_in(list.drop_last(), id)
    }
}

/// The state that a parse begins in, or why it cannot begin.
pub open spec fn initial(table: ParseTable, start: Option<Seq<char>>) -> Result<
    usize,
    error::ErrorModel,
> {
    match resolved_start(table.starts@, table.symbols@, start) {
        Some(id) => match start_state(table, id) {
            Some(s) => Ok(s),
            None => Err(
                error::unexpected_eof_model(0, 0, seq!["no start rule configured"@]),
            ),
        },
        None => Err(error::unexpected_eof_model(0, 0, names_of(table.symbols@, table.starts@))),
    }
}

/// The names of the terminals that a state has an action for, in table order.
pub open spec fn expected_names(table: ParseTable, state: int) -> Seq<Seq<char>> {
    if 0 <= state < table.action@.len() {
        row_names(table.symbols@, table.action@[state]@)
    } else {
        Seq::empty()
    }
}

/// The names of the terminals of a row.
pub open spec fn row_names(infos: Seq<symbols::SymbolInfo>, row: Seq<(u32, Action)>) -> Seq<
    Seq<char>,
> {
    Seq::new(row.len(), |i: int| symbols::name_of(infos, SymbolId(row[i].0)))
}

/// The names of the entries of a row but for the end of input.
pub open spec fn lexed_names(infos: Seq<symbols::SymbolInfo>, row: Seq<(u32, Action)>) -> Seq<
    Seq<char>,
>
    decreases row.len(),
{
    if row.len() == 0 {
        Seq::empty()
    } else {
        let head = lexed_names(infos, row.drop_last());
        if row.last().0 == symbols::END_ID {
            head
        } else {
            head.push(symbols::name_of(infos, SymbolId(row.last().0)))
        }
    }
}

/// The report of a token that a state has no action for.
pub open spec fn unexpected_model(
    table: ParseTable,
    state: int,
    tok: tree::TokenModel,
) -> error::ErrorModel {
    error::unexpected_token_model(tok, expected_names(table, state))
}

/// The report of input that cannot be lexed in a state: it lists the terminals
/// that the state could take.
pub open spec fn lex_failure_model(
    table: ParseTable,
    state: int,
    f: LexFailure,
) -> error::ErrorModel {
    let allowed = if 0 <= state < table.action@.len() {
        text::sorted_texts(lexed_names(table.symbols@, table.action@[state]@))
    } else {
        Seq::empty()
    };
    error::ErrorModel::UnexpectedCharacter {
        ch: f.ch,
        line: f.line,
        col: f.col,
        pos: f.pos,
        expected: if allowed.len() == 0 {
            "<END-OF-FILE>"@
        } else {
            text::joined(allowed, ", "@)
        },
    }
}

/// A parser over an LALR(1) table.
pub struct LalrParser {
    pub table: ParseTable,
}

/// How many tokens one parse may take; no input of a real machine has as many.
pub const TOKEN_LIMIT: u64 = 0xffff_ffff_ffff_ffff;

/// The result of a run over a source through an output builder, from given
/// stacks.
pub open spec fn ran<'i, S: TokenSource, B: OutputBuilder<'i>>(
    table: ParseTable,
    config: B::Config,
    input: Seq<char>,
    source: S::Content,
    states: Seq<usize>,
    values: Seq<output::GSlotModel<B::Model>>,
    fuel: nat,
) -> Result<B::Model, error::ErrorModel>
    decreases fuel,
{
    let (next, got) = S::peek_model(source, states.last() as nat);
    match got {
        Err(token_source::SourceErrorModel::Lex(f)) => Err(
            lex_failure_model(table, states.last() as int, f),
        ),
        Err(token_source::SourceErrorModel::Postlex(e)) => Err(e),
        Ok(tok) => {
            let g = gfed::<B>(
                table,
                config,
                input,
                states,
                values,
                tok,
                lalr_stack::REDUCTION_LIMIT as nat,
            );
            match g.outcome {
                GOutcome::Shifted => if fuel == 0 {
                    Err(unexpected_model(table, g.states.last() as int, tok))
                } else {
                    ran::<S, B>(
                        table,
                        config,
                        input,
                        S::advance_model(next),
                        g.states,
                        g.values,
                        (fuel - 1) as nat,
                    )
                },
                GOutcome::Accepted(v) => Ok(v),
                GOutcome::NotSingle => Err(error::unexpected_eof_model(0, 0, Seq::empty())),
                GOutcome::NoAction => Err(unexpected_model(table, g.states.last() as int, tok)),
            }
        },
    }
}

/// How feeding a token through an output builder ended.
pub ghost enum GOutcome<M> {
    Shifted,
    Accepted(M),
    /// The start symbol's value is not a single one.
    NotSingle,
    NoAction,
}

/// How feeding a token through an output builder ended, and the stacks after.
pub ghost struct GFed<M> {
    pub outcome: GOutcome<M>,
    pub states: Seq<usize>,
    pub values: Seq<output::GSlotModel<M>>,
}

/// The context that a table's rules and symbols make.
pub open spec fn context_of(table: ParseTable) -> output::ContextModel {
    output::ContextModel { rules: table.models(), symbols: table.symbols@ }
}

/// The stack of values after a reduction by rule `r`.
pub open spec fn greduced<'i, B: OutputBuilder<'i>>(
    table: ParseTable,
    config: B::Config,
    values: Seq<output::GSlotModel<B::Model>>,
    r: int,
) -> Seq<output::GSlotModel<B::Model>> {
    let n = values.len() - table.models()[r].expansion.len();
    values.take(n).push(
        output::reduced::<B>(
            config,
            r as nat,
            values.skip(n),
            context_of(table),
            table.propagate_positions,
        ),
    )
}

/// Feeds one token through an output builder.
pub open spec fn gfed<'i, B: OutputBuilder<'i>>(
    table: ParseTable,
    config: B::Config,
    input: Seq<char>,
    states: Seq<usize>,
    values: Seq<output::GSlotModel<B::Model>>,
    tok: tree::TokenModel,
    fuel: nat,
) -> GFed<B::Model>
    decreases fuel,
{
    if fuel == 0 {
        GFed { outcome: GOutcome::NoAction, states, values }
    } else {
        match table.action_for(states.last() as int, tok.type_id) {
            Some(Action::Shift(q)) => GFed {
                outcome: GOutcome::Shifted,
                states: states.push(q),
                values: values.push(
                    output::GSlotModel::Value(
                        output::ElemModel {
                            value: B::token_model(config, tok, input, context_of(table)),
                            meta: tree::token_meta(tok),
                            tag: GTag::Token,
                        },
                    ),
                ),
            },
            Some(Action::Reduce(r)) => match lalr_stack::reduced_states(table, states, r as int) {
                Some(next) => gfed::<B>(
                    table,
                    config,
                    input,
                    next,
                    greduced::<B>(table, config, values, r as int),
                    tok,
                    (fuel - 1) as nat,
                ),
                None => GFed { outcome: GOutcome::NoAction, states, values },
            },
            Some(Action::Accept) => GFed {
                outcome: if values.len() == 0 {
                    GOutcome::NotSingle
                } else {
                    match output::accepted(values.last()) {
                        Some(v) => GOutcome::Accepted(v),
                        None => GOutcome::NotSingle,
                    }
                },
                states,
                values,
            },
            None => GFed { outcome: GOutcome::NoAction, states, values },
        }
    }
}

/// How many reductions come before a token is taken or refused.
pub open spec fn feed_reductions(
    table: ParseTable,
    states: Seq<usize>,
    t: SymbolId,
    fuel: nat,
) -> nat
    decreases fuel,
{
    if fuel == 0 {
        0
    } else {
        match table.action_for(states.last() as int, t) {
            Some(Action::Reduce(r)) => match lalr_stack::reduced_states(table, states, r as int) {
                Some(next) => 1 + feed_reductions(table, next, t, (fuel - 1) as nat),
                None => 0,
            },
            _ => 0,
        }
    }
}

/// How many reductions a run makes from given stacks.
pub open spec fn run_reductions<'i, S: TokenSource, B: OutputBuilder<'i>>(
    table: ParseTable,
    config: B::Config,
    input: Seq<char>,
    source: S::Content,
    states: Seq<usize>,
    values: Seq<output::GSlotModel<B::Model>>,
    fuel: nat,
) -> nat
    decreases fuel,
{
    let (next, got) = S::peek_model(source, states.last() as nat);
    match got {
        Err(_) => 0,
        Ok(tok) => {
            let limit = lalr_stack::REDUCTION_LIMIT as nat;
            let g = gfed::<B>(table, config, input, states, values, tok, limit);
            let here = feed_reductions(table, states, tok.type_id, limit);
            if g.outcome is Shifted && fuel > 0 {
                here + run_reductions::<S, B>(
                    table,
                    config,
                    input,
                    S::advance_model(next),
                    g.states,
                    g.values,
                    (fuel - 1) as nat,
                )
            } else {
                here
            }
        },
    }
}

/// The values that a run from given stacks leaves behind.
pub open spec fn run_left<'i, S: TokenSource, B: OutputBuilder<'i>>(
    table: ParseTable,
    config: B::Config,
    input: Seq<char>,
    source: S::Content,
    states: Seq<usize>,
    values: Seq<output::GSlotModel<B::Model>>,
    fuel: nat,
) -> Seq<output::GSlotModel<B::Model>>
    decreases fuel,
{
    let (next, got) = S::peek_model(source, states.last() as nat);
    match got {
        Err(_) => values,
        Ok(tok) => {
            let limit = lalr_stack::REDUCTION_LIMIT as nat;
            let g = gfed::<B>(table, config, input, states, values, tok, limit);
            if g.outcome is Shifted && fuel > 0 {
                run_left::<S, B>(
                    table,
                    config,
                    input,
                    S::advance_model(next),
                    g.states,
                    g.values,
                    (fuel - 1) as nat,
                )
            } else {
                g.values
            }
        },
    }
}

/// Counters with the work of a parse: a list of children is made for each
/// reduction by a rule; the trees and the bytes of token texts are counted in the
/// result, and, of a parse that fails, in the values that it leaves behind.
pub open spec fn parse_counted_as(
    c: Counters,
    reductions: nat,
    r: Result<tree::Node, error::ErrorModel>,
    left: Seq<output::GSlotModel<tree::Node>>,
) -> Counters {
    let (nodes, bytes) = match r {
        Ok(t) => (tally::tree_nodes(t), tally::token_bytes(t)),
        Err(_) => (tally::slot_nodes(left, left.len()), tally::slot_bytes(left, left.len())),
    };
    Counters {
        semantic_reduce_calls: perf::counted(c.semantic_reduce_calls, reductions),
        child_vec_allocs: perf::counted(c.child_vec_allocs, reductions),
        tree_nodes_built: perf::counted(c.tree_nodes_built, nodes),
        token_value_string_bytes: perf::counted(c.token_value_string_bytes, bytes),
        ..c
    }
}

/// How many reductions the parse of a source makes.
pub open spec fn parse_reductions<S: TokenSource>(
    table: ParseTable,
    source: S::Content,
    start: Option<Seq<char>>,
) -> nat {
    match initial(table, start) {
        Ok(s) => run_reductions::<S, TreeOutputBuilder>(
            table,
            table.propagate_positions,
            ""@,
            source,
            seq![s],
            Seq::empty(),
            TOKEN_LIMIT as nat,
        ),
        Err(_) => 0,
    }
}

/// The values that the parse of a source leaves behind.
pub open spec fn parse_left<S: TokenSource>(
    table: ParseTable,
    source: S::Content,
    start: Option<Seq<char>>,
) -> Seq<output::GSlotModel<tree::Node>> {
    match initial(table, start) {
        Ok(s) => run_left::<S, TreeOutputBuilder>(
            table,
            table.propagate_positions,
            ""@,
            source,
            seq![s],
            Seq::empty(),
            TOKEN_LIMIT as nat,
        ),
        Err(_) => Seq::empty(),
    }
}

/// How feeding a token through a builder ended.
enum GStep<V> {
    Shifted,
    Accepted(V),
    NotSingle,
    NoAction,
}

spec fn gstep_model<'i, B: OutputBuilder<'i>>(s: GStep<B::Value>) -> GOutcome<B::Model> {
    match s {
        GStep::Shifted => GOutcome::Shifted,
        GStep::Accepted(v) => GOutcome::Accepted(B::model(v)),
        GStep::NotSingle => GOutcome::NotSingle,
        GStep::NoAction => GOutcome::NoAction,
    }
}

/// Whether stacks belong to a run of `table`.
pub open spec fn stacks_ok(table: ParseTable, states: Seq<usize>, n_values: nat) -> bool {
    &&& table.wf()
    &&& lalr_stack::is_path(lalr_stack::automaton(table), states)
    &&& n_values + 1 == states.len()
}

#[verifier::rlimit(40)]
fn feed_through<'i, B: OutputBuilder<'i>>(
    table: &ParseTable,
    builder: &mut B,
    input: &'i str,
    states: &mut Vec<usize>,
    values: &mut Vec<GSlot<B::Value>>,
    token: &Token,
    reductions: &mut u64,
) -> (r: GStep<B::Value>)
    requires
        stacks_ok(*table, old(states)@, old(values)@.len()),
    ensures
        final(builder).config() == old(builder).config(),
        ({
            let g = gfed::<B>(
                *table,
                old(builder).config(),
                input@,
                old(states)@,
                output::gslot_models::<B>(old(values)@),
                token@,
                lalr_stack::REDUCTION_LIMIT as nat,
            );
            &&& gstep_model::<B>(r) == g.outcome
            &&& final(states)@ == g.states
            &&& !(r is Accepted) ==> output::gslot_models::<B>(final(values)@) == g.values
        }),
        r is Shifted ==> stacks_ok(*table, final(states)@, final(values)@.len()),
        final(states)@.len() > 0,
        *final(reductions) == perf::counted(
            *old(reductions),
            feed_reductions(
                *table,
                old(states)@,
                token@.type_id,
                lalr_stack::REDUCTION_LIMIT as nat,
            ),
        ),
{
    let ctx = OutputContext::new(&table.rules, &table.symbols);
    let ghost config = builder.config();
    let ghost a = lalr_stack::automaton(*table);
    let ghost want = gfed::<B>(
        *table,
        config,
        input@,
        states@,
        output::gslot_models::<B>(values@),
        token@,
        lalr_stack::REDUCTION_LIMIT as nat,
    );
    let mut fuel: u64 = lalr_stack::REDUCTION_LIMIT;
    let ghost all = perf::counted(
        *old(reductions),
        feed_reductions(
            *table,
            old(states)@,
            token@.type_id,
            lalr_stack::REDUCTION_LIMIT as nat,
        ),
    );
    while fuel > 0
        invariant
            all == perf::counted(
                *old(reductions),
                feed_reductions(
                    *table,
                    old(states)@,
                    token@.type_id,
                    lalr_stack::REDUCTION_LIMIT as nat,
                ),
            ),
            all == perf::counted(
                *reductions,
                feed_reductions(*table, states@, token@.type_id, fuel as nat),
            ),
            stacks_ok(*table, states@, values@.len()),
            a == lalr_stack::automaton(*table),
            table.tabulates(a),
            builder.config() == config,
            config == old(builder).config(),
            ctx@ == context_of(*table),
            ctx.rules == table.rules,
            want == gfed::<B>(
                *table,
                config,
                input@,
                old(states)@,
                output::gslot_models::<B>(old(values)@),
                token@,
                lalr_stack::REDUCTION_LIMIT as nat,
            ),
            want == gfed::<B>(
                *table,
                config,
                input@,
                states@,
                output::gslot_models::<B>(values@),
                token@,
                fuel as nat,
            ),
        decreases fuel,
    {
        let state: usize = states[states.len() - 1];
        let act = table.action_at(state, token.type_id);
        proof {
            perf::lemma_counted_nothing(*reductions);
        }
        match act {
            Some(Action::Shift(q)) => {
                proof {
                    lalr_stack::lemma_shift_ok(*table, a, states@, token@.type_id, q);
                }
                let meta = meta_from_token(token);
                let value = builder.token(token.copy(), input, &ctx);
                let ghost before = values@;
                states.push(q);
                let slot = GSlot::Value(GElem { value, meta, tag: GTag::Token });
                values.push(slot);
                proof {
                    assert(output::gslot_models::<B>(values@) =~= output::gslot_models::<B>(
                        before,
                    ).push(output::gslot_model::<B>(slot)));
                }
                return GStep::Shifted;
            },
            Some(Action::Reduce(r)) => {
                proof {
                    lalr_stack::lemma_reduce_ok(*table, a, states@, token@.type_id, r);
                }
                let rule = &table.rules[r];
                proof {
                    assert(table.models()[r as int] == rule@);
                }
                let len: usize = rule.expansion.len();
                let at: usize = values.len() - len;
                let ghost vals = output::gslot_models::<B>(values@);
                let child_slots = values.split_off(at);
                proof {
                    assert(output::gslot_models::<B>(child_slots@) =~= vals.skip(at as int));
                    assert(output::gslot_models::<B>(values@) =~= vals.take(at as int));
                }
                let keep: usize = states.len() - len;
                let ghost before_states = states@;
                states.truncate(keep);
                proof {
                    assert(states@ =~= before_states.take(keep as int));
                }
                let shaped = shape_reduction::<B>(
                    r,
                    child_slots,
                    builder,
                    &ctx,
                    table.propagate_positions,
                );
                let nt_index: u32 = (rule.origin.index() - table.n_terminals) as u32;
                let top: usize = states[states.len() - 1];
                match table.goto_at(top, nt_index) {
                    Some(q) => {
                        states.push(q);
                        proof {
                            perf::lemma_counted(
                                *reductions,
                                1,
                                feed_reductions(
                                    *table,
                                    states@,
                                    token@.type_id,
                                    (fuel - 1) as nat,
                                ),
                            );
                        }
                        *reductions = perf::count(*reductions, 1);
                        let ghost before = values@;
                        values.push(shaped);
                        proof {
                            assert(output::gslot_models::<B>(values@) =~= output::gslot_models::<
                                B,
                            >(before).push(output::gslot_model::<B>(shaped)));
                        }
                    },
                    None => {
                        proof {
                            assert(false);
                        }
                        return GStep::NoAction;
                    },
                }
            },
            Some(Action::Accept) => {
                let ghost vals = output::gslot_models::<B>(values@);
                let single = match values.last() {
                    Some(GSlot::Value(_)) => true,
                    Some(GSlot::Inline(es)) => es.len() == 1,
                    None => false,
                };
                if !single {
                    return GStep::NotSingle;
                }
                match values.pop() {
                    Some(slot) => {
                        proof {
                            assert(vals.last() == output::gslot_model::<B>(slot));
                        }
                        match accept_value::<B>(slot) {
                            Some(v) => {
                                return GStep::Accepted(v);
                            },
                            None => {
                                proof {
                                    assert(false);
                                }
                                return GStep::NotSingle;
                            },
                        }
                    },
                    None => {
                        return GStep::NotSingle;
                    },
                }
            },
            None => {
                return GStep::NoAction;
            },
        }
        fuel = fuel - 1;
    }
    proof {
        perf::lemma_counted_nothing(*reductions);
    }
    GStep::NoAction
}

/// The parse result that a tree node stands for.
fn child_to_parse_tree(c: Child) -> (r: ParseTree)
    ensures
        r@ == c@,
{
    match c {
        Child::Tree(t) => ParseTree::Tree(t),
        Child::Token(t) => ParseTree::Token(t),
        Child::Absent => ParseTree::Absent,
    }
}

/// The content of a parse result.
pub open spec fn parsed(r: Result<ParseTree, ParseError>) -> Result<
    tree::Node,
    error::ErrorModel,
> {
    match r {
        Ok(t) => Ok(t@),
        Err(e) => Err(e@),
    }
}

/// The result of parsing from a source into a tree.
pub open spec fn parse_model<S: TokenSource>(
    table: ParseTable,
    source: S::Content,
    start: Option<Seq<char>>,
) -> Result<tree::Node, error::ErrorModel> {
    match initial(table, start) {
        Ok(s) => ran::<S, TreeOutputBuilder>(
            table,
            table.propagate_positions,
            ""@,
            source,
            seq![s],
            Seq::empty(),
            TOKEN_LIMIT as nat,
        ),
        Err(e) => Err(e),
    }
}

proof fn lemma_start_state(table: ParseTable, list: Seq<(SymbolId, usize)>, id: SymbolId)
    requires
        table.wf(),
        list.len() <= table.start_states@.len(),
        list == table.start_states@.take(list.len() as int),
        start_state_in(list, id) is Some,
    ensures
        lalr_stack::is_path(
            lalr_stack::automaton(table),
            seq![start_state_in(list, id)->0],
        ),
    decreases list.len(),
{
    let a = lalr_stack::automaton(table);
    assert(table.tabulates(a));
    let n = list.len() - 1;
    if list.last().0 == id {
        assert(list[n] == table.start_states@[n]);
        assert(table.start_states@[n] == (
            lalr_table::start_rules(table.models(), table.starts@)[n].0,
            a.start_states@[n],
        ));
        let p = seq![start_state_in(list, id)->0];
        assert(a.start_states@[n] == p[0]);
    } else {
        assert(list.drop_last() =~= table.start_states@.take(n));
        lemma_start_state(table, list.drop_last(), id);
    }
}

impl LalrParser {
    /// A parser over the given table.
    pub fn new(table: ParseTable) -> (r: Self)
        ensures
            r.table == table,
    {
        LalrParser { table }
    }

    /// For each state the terminals that it has an action for.
    pub fn state_terminals(&self) -> (r: Vec<Vec<SymbolId>>)
        ensures
            r@.len() == self.table.action@.len(),
            forall|s: int|
                0 <= s < r@.len() ==> (#[trigger] r@[s])@ == Seq::new(
                    self.table.action@[s]@.len(),
                    |i: int| SymbolId(self.table.action@[s]@[i].0),
                ),
    {
        let mut r: Vec<Vec<SymbolId>> = Vec::new();
        let mut s: usize = 0;
        while s < self.table.action.len()
            invariant
                s <= self.table.action@.len(),
                r@.len() == s,
                forall|p: int|
                    0 <= p < s ==> (#[trigger] r@[p])@ == Seq::new(
                        self.table.action@[p]@.len(),
                        |i: int| SymbolId(self.table.action@[p]@[i].0),
                    ),
            decreases self.table.action.len() - s,
        {
            let row = &self.table.action[s];
            let mut ids: Vec<SymbolId> = Vec::new();
            let mut i: usize = 0;
            while i < row.len()
                invariant
                    i <= row.len(),
                    ids@.len() == i,
                    forall|k: int| 0 <= k < i ==> #[trigger] ids@[k] == SymbolId(row@[k].0),
                decreases row.len() - i,
            {
                ids.push(SymbolId(row[i].0));
                i = i + 1;
            }
            proof {
                assert(ids@ =~= Seq::new(row@.len(), |i: int| SymbolId(row@[i].0)));
            }
            r.push(ids);
            s = s + 1;
        }
        r
    }

    /// The state that a parse begins in.
    pub fn initial_state(&self, start: Option<&str>) -> (r: Result<usize, ParseError>)
        requires
            self.table.wf(),
        ensures
            match r {
                Ok(s) => initial(self.table, opt_text(start)) == Ok::<usize, error::ErrorModel>(s)
                    && stacks_ok(self.table, seq![s], 0),
                Err(e) => initial(self.table, opt_text(start)) == Err::<usize, error::ErrorModel>(
                    e@,
                ),
            },
    {
        proof {
            let a = lalr_stack::automaton(self.table);
            assert(self.table.tabulates(a));
        }
        let id = match resolve_start(&self.table.starts, &self.table.symbols, start) {
            Ok(id) => id,
            Err(e) => {
                return Err(e);
            },
        };
        let list = &self.table.start_states;
        let mut i: usize = list.len();
        proof {
            assert(list@.take(list@.len() as int) =~= list@);
        }
        while i > 0
            invariant
                i <= list@.len(),
                list == self.table.start_states,
                self.table.wf(),
                resolved_start(self.table.starts@, self.table.symbols@, opt_text(start)) == Some(
                    id,
                ),
                start_state(self.table, id) == start_state_in(list@.take(i as int), id),
            decreases i,
        {
            proof {
                assert(list@.take(i as int).drop_last() =~= list@.take(i - 1));
                assert(list@.take(i as int).last() == list@[i - 1]);
            }
            if list[i - 1].0 == id {
                proof {
                    lemma_start_state(self.table, list@.take(i as int), id);
                }
                return Ok(list[i - 1].1);
            }
            i = i - 1;
        }
        let mut expected: Vec<String> = Vec::new();
        expected.push(owned("no start rule configured"));
        proof {
            assert(text::texts(expected@) =~= seq!["no start rule configured"@]);
        }
        Err(ParseError::unexpected_eof(0, 0, expected))
    }

    fn expected_at(&self, state: usize) -> (r: Vec<String>)
        ensures
            text::texts(r@) == expected_names(self.table, state as int),
    {
        let mut r: Vec<String> = Vec::new();
        if state < self.table.action.len() {
            let row = &self.table.action[state];
            let mut i: usize = 0;
            while i < row.len()
                invariant
                    i <= row.len(),
                    r@.len() == i,
                    forall|k: int|
                        0 <= k < i ==> (#[trigger] r@[k])@ == symbols::name_of(
                            self.table.symbols@,
                            SymbolId(row@[k].0),
                        ),
                decreases row.len() - i,
            {
                r.push(self.table.symbols.name_owned(SymbolId(row[i].0)));
                i = i + 1;
            }
            proof {
                assert(text::texts(r@) =~= row_names(self.table.symbols@, row@));
            }
        } else {
            proof {
                assert(text::texts(r@) =~= Seq::empty());
            }
        }
        r
    }

    /// Reports a token that a state has no action for.
    pub fn unexpected(&self, state: usize, token: &Token) -> (r: ParseError)
        ensures
            r@ == unexpected_model(self.table, state as int, token@),
    {
        ParseError::unexpected_token(token, self.expected_at(state))
    }

    /// The stacks at the start of a parse.
    pub fn initial_stack(&self, start: Option<&str>) -> (r: Result<ParserStack, ParseError>)
        requires
            self.table.wf(),
        ensures
            match r {
                Ok(st) => st.wf(self.table) && initial(self.table, opt_text(start)) == Ok::<
                    usize,
                    error::ErrorModel,
                >(st.state_stack@[0]) && st.state_stack@.len() == 1 && st.values() == Seq::<
                    tree_builder::SlotModel,
                >::empty(),
                Err(e) => initial(self.table, opt_text(start)) == Err::<usize, error::ErrorModel>(
                    e@,
                ),
            },
    {
        match self.initial_state(start) {
            Ok(s) => Ok(ParserStack::new(s)),
            Err(e) => Err(e),
        }
    }

    /// Reports input that cannot be lexed in a state.
    pub fn lex_failure(&self, state: usize, f: LexFailure) -> (r: ParseError)
        ensures
            r@ == lex_failure_model(self.table, state as int, f),
    {
        let mut names: Vec<String> = Vec::new();
        proof {
            assert(text::texts(names@) =~= Seq::empty());
        }
        if state < self.table.action.len() {
            let row = &self.table.action[state];
            let mut i: usize = 0;
            proof {
                assert(row@.take(0) =~= Seq::empty());
            }
            while i < row.len()
                invariant
                    i <= row.len(),
                    text::texts(names@) == lexed_names(self.table.symbols@, row@.take(i as int)),
                decreases row.len() - i,
            {
                proof {
                    assert(row@.take(i + 1).drop_last() =~= row@.take(i as int));
                    assert(row@.take(i + 1).last() == row@[i as int]);
                }
                if row[i].0 != symbols::END_ID {
                    let ghost before = names@;
                    names.push(self.table.symbols.name_owned(SymbolId(row[i].0)));
                    proof {
                        assert(text::texts(names@) =~= text::texts(before).push(
                            symbols::name_of(self.table.symbols@, SymbolId(row@[i as int].0)),
                        ));
                    }
                }
                i = i + 1;
            }
            proof {
                assert(row@.take(row@.len() as int) =~= row@);
            }
        }
        let allowed = sort_names(names);
        proof {
            assert(text::texts(allowed@).len() == allowed@.len());
            if self.table.action@.len() <= state {
                assert(text::texts(allowed@) =~= Seq::empty());
            }
        }
        let expected = if allowed.len() == 0 {
            owned("<END-OF-FILE>")
        } else {
            join(&allowed, ", ")
        };
        ParseError::UnexpectedCharacter { ch: f.ch, line: f.line, col: f.col, pos: f.pos, expected }
    }

    /// Runs the table over a source through an output builder.
    pub fn run_into<'i, S: TokenSource, B: OutputBuilder<'i>>(
        &self,
        source: &mut S,
        start: Option<&str>,
        builder: &mut B,
        input: &'i str,
    ) -> (r: Result<B::Value, ParseError>)
        requires
            self.table.wf(),
            old(source).wf(),
        ensures
            match initial(self.table, opt_text(start)) {
                Err(e) => r matches Err(f) && f@ == e,
                Ok(s) => match (r, ran::<S, B>(
                    self.table,
                    old(builder).config(),
                    input@,
                    old(source).content(),
                    seq![s],
                    Seq::empty(),
                    TOKEN_LIMIT as nat,
                )) {
                    (Ok(v), Ok(m)) => B::model(v) == m,
                    (Err(f), Err(e)) => f@ == e,
                    _ => false,
                },
            },
            final(builder).config() == old(builder).config(),
    {
        let mut reductions: u64 = 0;
        let mut values: Vec<GSlot<B::Value>> = Vec::new();
        self.run_into_counted::<S, B>(source, start, builder, input, &mut reductions, &mut values)
    }

    /// The same; the reductions are counted, and where the run fails, `values` holds
    /// what it leaves behind.
    #[verifier::rlimit(40)]
    pub fn run_into_counted<'i, S: TokenSource, B: OutputBuilder<'i>>(
        &self,
        source: &mut S,
        start: Option<&str>,
        builder: &mut B,
        input: &'i str,
        reductions: &mut u64,
        values: &mut Vec<GSlot<B::Value>>,
    ) -> (r: Result<B::Value, ParseError>)
        requires
            self.table.wf(),
            old(source).wf(),
            old(values)@.len() == 0,
        ensures
            r is Err ==> output::gslot_models::<B>(final(values)@) == (match initial(
                self.table,
                opt_text(start),
            ) {
                Err(_) => Seq::empty(),
                Ok(s) => run_left::<S, B>(
                    self.table,
                    old(builder).config(),
                    input@,
                    old(source).content(),
                    seq![s],
                    Seq::empty(),
                    TOKEN_LIMIT as nat,
                ),
            }),
            match initial(self.table, opt_text(start)) {
                Err(e) => r matches Err(f) && f@ == e && *final(reductions) == *old(reductions),
                Ok(s) => (match (r, ran::<S, B>(
                    self.table,
                    old(builder).config(),
                    input@,
                    old(source).content(),
                    seq![s],
                    Seq::empty(),
                    TOKEN_LIMIT as nat,
                )) {
                    (Ok(v), Ok(m)) => B::model(v) == m,
                    (Err(f), Err(e)) => f@ == e,
                    _ => false,
                }) && *final(reductions) == perf::counted(
                    *old(reductions),
                    run_reductions::<S, B>(
                        self.table,
                        old(builder).config(),
                        input@,
                        old(source).content(),
                        seq![s],
                        Seq::empty(),
                        TOKEN_LIMIT as nat,
                    ),
                ),
            },
            final(builder).config() == old(builder).config(),
    {
        proof {
            assert(output::gslot_models::<B>(values@) =~= Seq::empty());
        }
        let first = match self.initial_state(start) {
            Ok(s) => s,
            Err(e) => {
                return Err(e);
            },
        };
        let mut states: Vec<usize> = Vec::new();
        states.push(first);
        let ghost config = builder.config();
        let ghost want = ran::<S, B>(
            self.table,
            config,
            input@,
            source.content(),
            seq![first],
            Seq::empty(),
            TOKEN_LIMIT as nat,
        );
        let ghost all = perf::counted(
            *reductions,
            run_reductions::<S, B>(
                self.table,
                config,
                input@,
                source.content(),
                seq![first],
                Seq::empty(),
                TOKEN_LIMIT as nat,
            ),
        );
        let ghost rest = run_left::<S, B>(
            self.table,
            config,
            input@,
            source.content(),
            seq![first],
            Seq::empty(),
            TOKEN_LIMIT as nat,
        );
        let mut fuel: u64 = TOKEN_LIMIT;
        proof {
            assert(states@ =~= seq![first]);
        }
        loop
            invariant
                rest == run_left::<S, B>(
                    self.table,
                    config,
                    input@,
                    old(source).content(),
                    seq![first],
                    Seq::empty(),
                    TOKEN_LIMIT as nat,
                ),
                rest == run_left::<S, B>(
                    self.table,
                    config,
                    input@,
                    source.content(),
                    states@,
                    output::gslot_models::<B>(values@),
                    fuel as nat,
                ),
                self.table.wf(),
                source.wf(),
                builder.config() == config,
                config == old(builder).config(),
                stacks_ok(self.table, states@, values@.len()),
                initial(self.table, opt_text(start)) == Ok::<usize, error::ErrorModel>(first),
                want == ran::<S, B>(
                    self.table,
                    config,
                    input@,
                    old(source).content(),
                    seq![first],
                    Seq::empty(),
                    TOKEN_LIMIT as nat,
                ),
                want == ran::<S, B>(
                    self.table,
                    config,
                    input@,
                    source.content(),
                    states@,
                    output::gslot_models::<B>(values@),
                    fuel as nat,
                ),
                all == perf::counted(
                    *old(reductions),
                    run_reductions::<S, B>(
                        self.table,
                        config,
                        input@,
                        old(source).content(),
                        seq![first],
                        Seq::empty(),
                        TOKEN_LIMIT as nat,
                    ),
                ),
                all == perf::counted(
                    *reductions,
                    run_reductions::<S, B>(
                        self.table,
                        config,
                        input@,
                        source.content(),
                        states@,
                        output::gslot_models::<B>(values@),
                        fuel as nat,
                    ),
                ),
            decreases fuel,
        {
            proof {
                perf::lemma_counted_nothing(*reductions);
            }
            let ghost made = *reductions;
            let ghost before = states@;
            let state: usize = states[states.len() - 1];
            let got = source.peek(state);
            let token = match got {
                Ok(t) => t,
                Err(SourceError::Lex(f)) => {
                    return Err(self.lex_failure(state, f));
                },
                Err(SourceError::Postlex(e)) => {
                    return Err(e);
                },
            };
            let step = feed_through::<B>(
                &self.table,
                builder,
                input,
                &mut states,
                values,
                &token,
                reductions,
            );
            let ghost here = feed_reductions(
                self.table,
                before,
                token@.type_id,
                lalr_stack::REDUCTION_LIMIT as nat,
            );
            match step {
                GStep::Shifted => {
                    if fuel == 0 {
                        return Err(self.unexpected(states[states.len() - 1], &token));
                    }
                    source.advance();
                    proof {
                        perf::lemma_counted(
                            made,
                            here,
                            run_reductions::<S, B>(
                                self.table,
                                config,
                                input@,
                                source.content(),
                                states@,
                                output::gslot_models::<B>(values@),
                                (fuel - 1) as nat,
                            ),
                        );
                    }
                },
                GStep::Accepted(v) => {
                    return Ok(v);
                },
                GStep::NotSingle => {
                    let none: Vec<String> = Vec::new();
                    proof {
                        assert(text::texts(none@) =~= Seq::empty());
                    }
                    return Err(ParseError::unexpected_eof(0, 0, none));
                },
                GStep::NoAction => {
                    return Err(self.unexpected(states[states.len() - 1], &token));
                },
            }
            fuel = fuel - 1;
        }
    }

    /// Runs the table over a source into a tree.
    pub fn run<S: TokenSource>(&self, source: &mut S, start: Option<&str>) -> (r: Result<
        ParseTree,
        ParseError,
    >)
        requires
            self.table.wf(),
            old(source).wf(),
        ensures
            parsed(r) == parse_model::<S>(self.table, old(source).content(), opt_text(start)),
    {
        let mut builder = TreeOutputBuilder::with_propagate_positions(
            &self.table.rules,
            self.table.propagate_positions,
        );
        match self.run_into::<S, TreeOutputBuilder>(source, start, &mut builder, "") {
            Ok(child) => Ok(child_to_parse_tree(child)),
            Err(e) => Err(e),
        }
    }

    /// Parses a list of tokens.
    pub fn parse(&self, tokens: Vec<Token>, start: Option<&str>) -> (r: Result<
        ParseTree,
        ParseError,
    >)
        requires
            self.table.wf(),
        ensures
            parsed(r) == parse_model::<PreLexed>(
                self.table,
                tree::token_models(tokens@),
                opt_text(start),
            ),
    {
        let mut source = PreLexed::new(tokens);
        self.run(&mut source, start)
    }

    /// The same; the work is counted.
    pub fn parse_counted(
        &self,
        tokens: Vec<Token>,
        start: Option<&str>,
        c: &mut Counters,
    ) -> (r: Result<ParseTree, ParseError>)
        requires
            self.table.wf(),
        ensures
            parsed(r) == parse_model::<PreLexed>(
                self.table,
                tree::token_models(tokens@),
                opt_text(start),
            ),
            *final(c) == parse_counted_as(
                *old(c),
                parse_reductions::<PreLexed>(
                    self.table,
                    tree::token_models(tokens@),
                    opt_text(start),
                ),
                parsed(r),
                parse_left::<PreLexed>(
                    self.table,
                    tree::token_models(tokens@),
                    opt_text(start),
                ),
            ),
    {
        let mut source = PreLexed::new(tokens);
        let mut builder = TreeOutputBuilder::with_propagate_positions(
            &self.table.rules,
            self.table.propagate_positions,
        );
        let mut reductions: u64 = 0;
        let mut left: Vec<GSlot<Child>> = Vec::new();
        proof {
            perf::lemma_counted_nothing(0);
            perf::lemma_counted_nothing(c.tree_nodes_built);
            perf::lemma_counted_nothing(c.token_value_string_bytes);
            perf::lemma_counted_nothing(c.semantic_reduce_calls);
            perf::lemma_counted_nothing(c.child_vec_allocs);
        }
        let r = match self.run_into_counted::<PreLexed, TreeOutputBuilder>(
            &mut source,
            start,
            &mut builder,
            "",
            &mut reductions,
            &mut left,
        ) {
            Ok(child) => Ok(child_to_parse_tree(child)),
            Err(e) => Err(e),
        };
        c.semantic_reduce_calls = perf::count(c.semantic_reduce_calls, reductions);
        c.child_vec_allocs = perf::count(c.child_vec_allocs, reductions);
        let so_far = (c.tree_nodes_built, c.token_value_string_bytes);
        let (nodes, bytes) = match &r {
            Ok(t) => count_result(t, so_far),
            Err(_) => count_slots(&left, so_far),
        };
        c.tree_nodes_built = nodes;
        c.token_value_string_bytes = bytes;
        proof {
            let n = parse_reductions::<PreLexed>(
                self.table,
                tree::token_models(tokens@),
                opt_text(start),
            );
            perf::lemma_counted_mod(old(c).semantic_reduce_calls, 0, n);
            perf::lemma_counted_mod(old(c).child_vec_allocs, 0, n);
        }
        r
    }
}

} // verus!
