//! Recovery from errors: a handler sees each error, may feed tokens of its own
//! and says how to go on.

use vstd::prelude::*;
use crate::error;
use crate::error::{ParseError, RecoveryAction};
use crate::lalr;
use crate::lalr::LalrParser;
use crate::lalr_stack;
use crate::lalr_stack::{Feed, ParserStack};
use crate::lalr_table::ParseTable;
use crate::lexer;
use crate::lexer::{bad_character_at, end_token_at, BasicLexer, Place};
use crate::symbols;
use crate::symbols::SymbolId;
use crate::text;
use crate::text::{chars_of, owned};
use crate::token_source;
use crate::token_source::{PreLexed, SourceError, TokenSource};
use crate::tree;
use crate::tree::{ParseTree, Token};
use crate::tree_builder;

verus! {

/// The mathematical content of a recovery context.
pub ghost struct RecoveryModel {
    pub states: Seq<usize>,
    pub values: Seq<tree_builder::SlotModel>,
    /// How many tokens the handler has fed.
    pub fed_count: usize,
    /// The tree that the handler's tokens completed, if they did.
    pub accepted: Option<tree::Node>,
}

/// A token under another interned type.
pub open spec fn retyped(tok: tree::TokenModel, id: SymbolId) -> tree::TokenModel {
    tree::TokenModel { type_id: id, ..tok }
}

/// A count plus one, but no more than a machine word holds.
pub open spec fn counted_up(n: usize) -> usize {
    if n < usize::MAX {
        (n + 1) as usize
    } else {
        n
    }
}

/// What feeding a handler's token does: a token that is not taken leaves the
/// context as it was.
pub open spec fn context_fed(
    table: ParseTable,
    ctx: RecoveryModel,
    tok: tree::TokenModel,
) -> (RecoveryModel, Result<Option<tree::Node>, error::ErrorModel>) {
    let names = lalr_stack::accepted_names(table, ctx.states);
    if ctx.accepted is Some {
        (ctx, Err(error::unexpected_token_keep_end_model(tok, Seq::empty())))
    } else {
        match symbols::id_of(table.symbols@, tok.type_) {
            None => (ctx, Err(error::unexpected_token_keep_end_model(tok, names))),
            Some(id) => {
                let t = retyped(tok, id);
                if id == SymbolId::end() || table.action_for(ctx.states.last() as int, id) is None {
                    (ctx, Err(error::unexpected_token_keep_end_model(tok, names)))
                } else {
                    let f = lalr_stack::fed(
                        table,
                        ctx.states,
                        ctx.values,
                        t,
                        lalr_stack::REDUCTION_LIMIT as nat,
                    );
                    match f.outcome {
                        lalr_stack::Outcome::Shifted => (
                            RecoveryModel {
                                states: f.states,
                                values: f.values,
                                fed_count: counted_up(ctx.fed_count),
                                accepted: None,
                            },
                            Ok(None),
                        ),
                        lalr_stack::Outcome::Accepted(n) => (
                            RecoveryModel {
                                states: f.states,
                                values: f.values,
                                fed_count: counted_up(ctx.fed_count),
                                accepted: Some(n),
                            },
                            Ok(Some(n)),
                        ),
                        lalr_stack::Outcome::Error(e) => (ctx, Err(e)),
                        _ => (ctx, Err(error::unexpected_token_keep_end_model(tok, names))),
                    }
                }
            },
        }
    }
}

/// What a handler works on: the parser's stacks at an error.
pub struct RecoveryContext<'a> {
    stack: ParserStack,
    table: &'a ParseTable,
    fed_count: usize,
    accepted_tree: Option<ParseTree>,
}

/// The content of an optional parse result.
pub open spec fn opt_tree(t: Option<ParseTree>) -> Option<tree::Node> {
    match t {
        Some(t) => Some(t@),
        None => None,
    }
}

/// The content of a handler's feed.
pub open spec fn feed_result(r: Result<Option<ParseTree>, ParseError>) -> Result<
    Option<tree::Node>,
    error::ErrorModel,
> {
    match r {
        Ok(t) => Ok(opt_tree(t)),
        Err(e) => Err(e@),
    }
}

impl<'a> RecoveryContext<'a> {
    /// The content of the recovering run.
    pub closed spec fn model(&self) -> RecoveryModel {
        RecoveryModel {
            states: self.stack.state_stack@,
            values: self.stack.values(),
            fed_count: self.fed_count,
            accepted: opt_tree(self.accepted_tree),
        }
    }

    /// The table that the run follows.
    pub closed spec fn table_of(&self) -> ParseTable {
        *self.table
    }

    /// Whether the stacks are those of a run of the table.
    pub closed spec fn wf(&self) -> bool {
        &&& self.stack.states_wf(*self.table)
        &&& self.accepted_tree is None ==> self.stack.wf(*self.table)
    }

    pub(crate) fn new(stack: ParserStack, table: &'a ParseTable) -> (r: Self)
        requires
            stack.wf(*table),
        ensures
            r.wf(),
            r.table_of() == *table,
            r.model() == (RecoveryModel {
                states: stack.state_stack@,
                values: stack.values(),
                fed_count: 0,
                accepted: None,
            }),
    {
        RecoveryContext { stack, table, fed_count: 0, accepted_tree: None }
    }

    /// How many tokens the handler has fed.
    pub fn fed_count(&self) -> (r: usize)
        ensures
            r == self.model().fed_count,
    {
        self.fed_count
    }

    /// The names of the terminals that the parser would take now.
    pub fn accepts(&self) -> (r: Vec<String>)
        requires
            self.wf(),
        ensures
            text::texts(r@) == lalr_stack::accepted_names(self.table_of(), self.model().states),
    {
        self.stack.accepts(self.table)
    }

    /// Feeds a token by the name of its type. A token that is not taken leaves
    /// the context as it was; the end of input cannot be fed.
    pub fn feed_token(&mut self, token: Token) -> (r: Result<Option<ParseTree>, ParseError>)
        requires
            old(self).wf(),
        ensures
            final(self).wf(),
            final(self).table_of() == old(self).table_of(),
            (final(self).model(), feed_result(r)) == context_fed(
                old(self).table_of(),
                old(self).model(),
                token@,
            ),
    {
        let ghost tok = token@;
        let none: Vec<String> = Vec::new();
        proof {
            assert(text::texts(none@) =~= Seq::empty());
            let a = lalr_stack::automaton(*self.table);
            assert(self.table.tabulates(a));
        }
        if self.accepted_tree.is_some() {
            return Err(ParseError::unexpected_token_keep_end(&token, none));
        }
        let mut token = token;
        match self.table.symbols.id(token.type_.as_str()) {
            Some(id) => {
                if id == SymbolId::end() {
                    let expected = self.accepts();
                    return Err(ParseError::unexpected_token_keep_end(&token, expected));
                }
                token.type_id = id;
            },
            None => {
                let expected = self.accepts();
                return Err(ParseError::unexpected_token_keep_end(&token, expected));
            },
        }
        let state: usize = self.stack.position();
        if self.table.action_at(state, token.type_id).is_none() {
            let expected = self.accepts();
            return Err(ParseError::unexpected_token_keep_end(&token, expected));
        }
        let snapshot = self.stack.copy();
        match self.stack.feed_token(self.table, &token) {
            Feed::Shifted => {
                if self.fed_count < usize::MAX {
                    self.fed_count = self.fed_count + 1;
                }
                Ok(None)
            },
            Feed::Accepted(t) => {
                if self.fed_count < usize::MAX {
                    self.fed_count = self.fed_count + 1;
                }
                let ret = t.copy();
                self.accepted_tree = Some(t);
                Ok(Some(ret))
            },
            Feed::Error(e) => {
                self.stack = snapshot;
                Err(e)
            },
            Feed::NoAction => {
                self.stack = snapshot;
                let expected = self.accepts();
                Err(ParseError::unexpected_token_keep_end(&token, expected))
            },
            Feed::Endless => {
                self.stack = snapshot;
                let expected = self.accepts();
                Err(ParseError::unexpected_token_keep_end(&token, expected))
            },
        }
    }

    /// Feeds a token of the given type and text.
    pub fn feed(&mut self, terminal: &str, value: &str) -> (r: Result<
        Option<ParseTree>,
        ParseError,
    >)
        requires
            old(self).wf(),
        ensures
            final(self).wf(),
            final(self).table_of() == old(self).table_of(),
            (final(self).model(), feed_result(r)) == context_fed(
                old(self).table_of(),
                old(self).model(),
                tree::bare_token(SymbolId::unset(), terminal@, value@),
            ),
    {
        self.feed_token(Token::new(terminal, value))
    }
}

/// Decides how a parse goes on after an error. What a handler does is a
/// function of its content, of the error and of the context.
pub trait RecoveryHandler: Sized {
    /// The mathematical content of the handler.
    type Content;

    spec fn content(&self) -> Self::Content;

    /// What the handler answers, and its content and the context after.
    spec fn answer(
        c: Self::Content,
        table: ParseTable,
        err: error::ErrorModel,
        ctx: RecoveryModel,
    ) -> (Self::Content, RecoveryModel, RecoveryAction);

    fn handle(&mut self, err: &ParseError, ctx: &mut RecoveryContext<'_>) -> (r: RecoveryAction)
        requires
            old(ctx).wf(),
        ensures
            final(ctx).wf(),
            final(ctx).table_of() == old(ctx).table_of(),
            (final(self).content(), final(ctx).model(), r) == Self::answer(
                old(self).content(),
                old(ctx).table_of(),
                err@,
                old(ctx).model(),
            ),
    ;
}

/// A handler that gives the same answer to every error and feeds nothing.
pub struct Always {
    pub action: RecoveryAction,
}

impl RecoveryHandler for Always {
    type Content = RecoveryAction;

    open spec fn content(&self) -> RecoveryAction {
        self.action
    }

    open spec fn answer(
        c: RecoveryAction,
        table: ParseTable,
        err: error::ErrorModel,
        ctx: RecoveryModel,
    ) -> (RecoveryAction, RecoveryModel, RecoveryAction) {
        (c, ctx, c)
    }

    fn handle(&mut self, _err: &ParseError, _ctx: &mut RecoveryContext<'_>) -> (r: RecoveryAction) {
        self.action
    }
}

/// The report of input that cannot be lexed while recovering.
pub open spec fn bad_character(f: token_source::LexFailure) -> error::ErrorModel {
    error::ErrorModel::UnexpectedCharacter {
        ch: f.ch,
        line: f.line,
        col: f.col,
        pos: f.pos,
        expected: "any token"@,
    }
}

/// How a recovering parse ended, the errors met, and the content of the handler
/// after it.
pub ghost struct RecoveredModel<C> {
    pub result: Result<Option<tree::Node>, error::ErrorModel>,
    pub errors: Seq<error::ErrorModel>,
    pub handler: C,
}

/// A recovering run from given stacks.
pub open spec fn recovered<S: TokenSource, H: RecoveryHandler>(
    table: ParseTable,
    source: S::Content,
    handler: H::Content,
    states: Seq<usize>,
    values: Seq<tree_builder::SlotModel>,
    errors: Seq<error::ErrorModel>,
    fuel: nat,
) -> RecoveredModel<H::Content>
    decreases fuel,
{
    if fuel == 0 {
        RecoveredModel { result: Ok(None), errors, handler }
    } else {
        let (next, got) = S::peek_model(source, states.last() as nat);
        match got {
            Err(token_source::SourceErrorModel::Postlex(e)) => RecoveredModel {
                result: Err(e),
                errors,
                handler,
            },
            Err(token_source::SourceErrorModel::Lex(f)) => {
                let err = bad_character(f);
                let (h, ctx, act) = H::answer(
                    handler,
                    table,
                    err,
                    RecoveryModel { states, values, fed_count: 0, accepted: None },
                );
                if ctx.accepted is Some {
                    RecoveredModel { result: Ok(ctx.accepted), errors: errors.push(err), handler: h }
                } else if act is Stop {
                    RecoveredModel { result: Ok(None), errors: errors.push(err), handler: h }
                } else {
                    recovered::<S, H>(
                        table,
                        S::skip_model(next),
                        h,
                        ctx.states,
                        ctx.values,
                        errors.push(err),
                        (fuel - 1) as nat,
                    )
                }
            },
            Ok(tok) => {
                let f = lalr_stack::fed(
                    table,
                    states,
                    values,
                    tok,
                    lalr_stack::REDUCTION_LIMIT as nat,
                );
                match f.outcome {
                    lalr_stack::Outcome::Shifted => recovered::<S, H>(
                        table,
                        S::advance_model(next),
                        handler,
                        f.states,
                        f.values,
                        errors,
                        (fuel - 1) as nat,
                    ),
                    lalr_stack::Outcome::Accepted(n) => RecoveredModel {
                        result: Ok(Some(n)),
                        errors,
                        handler,
                    },
                    lalr_stack::Outcome::Error(e) => RecoveredModel {
                        result: Err(e),
                        errors,
                        handler,
                    },
                    _ => {
                        let err = lalr::unexpected_model(table, f.states.last() as int, tok);
                        let (h, ctx, act) = H::answer(
                            handler,
                            table,
                            err,
                            RecoveryModel {
                                states: f.states,
                                values: f.values,
                                fed_count: 0,
                                accepted: None,
                            },
                        );
                        let at_end = tok.type_id == SymbolId::end();
                        if ctx.accepted is Some {
                            RecoveredModel { result: Ok(ctx.accepted), errors: errors.push(err), handler: h }
                        } else if act is Stop || (act is Delete && at_end) || (act is Resume
                            && ctx.fed_count == 0) {
                            RecoveredModel { result: Ok(None), errors: errors.push(err), handler: h }
                        } else {
                            recovered::<S, H>(
                                table,
                                if at_end {
                                    next
                                } else {
                                    S::delete_model(S::advance_model(next))
                                },
                                h,
                                ctx.states,
                                ctx.values,
                                errors.push(err),
                                (fuel - 1) as nat,
                            )
                        }
                    },
                }
            },
        }
    }
}

/// The contents of a list of errors.
pub open spec fn error_models(s: Seq<ParseError>) -> Seq<error::ErrorModel> {
    Seq::new(s.len(), |i: int| s[i]@)
}

/// The outcome of a recovering parse.
pub open spec fn recover_model<S: TokenSource, H: RecoveryHandler>(
    table: ParseTable,
    source: S::Content,
    start: Option<Seq<char>>,
    handler: H::Content,
    errors: Seq<error::ErrorModel>,
) -> RecoveredModel<H::Content> {
    match lalr::initial(table, start) {
        Ok(s) => recovered::<S, H>(
            table,
            source,
            handler,
            seq![s],
            Seq::empty(),
            errors,
            lalr::TOKEN_LIMIT as nat,
        ),
        Err(e) => RecoveredModel { result: Err(e), errors, handler },
    }
}

/// How the lexing of a text with recovery ended.
pub ghost enum LexEnd {
    /// At the end of the text.
    Done,
    /// At an error at which the handler stopped.
    Stopped,
    /// At an error at which the handler's tokens completed a tree.
    Accepted(tree::Node),
}

/// What the lexing of a text with recovery leaves: the tokens found, the errors
/// met, and the handler and the parser's stacks after them.
pub ghost struct LexPhase<C> {
    pub end: LexEnd,
    pub tokens: Seq<tree::TokenModel>,
    pub errors: Seq<error::ErrorModel>,
    pub handler: C,
    pub states: Seq<usize>,
    pub values: Seq<tree_builder::SlotModel>,
}

/// A text lexed from a place on: the handler sees each character that no
/// terminal begins with, and where it does not stop, the character is skipped.
pub open spec fn lex_recovered<H: RecoveryHandler>(
    m: lexer::LexerModel,
    table: ParseTable,
    text: Seq<char>,
    p: Place,
    so_far: LexPhase<H::Content>,
) -> LexPhase<H::Content>
    decreases text.len() - p.pos,
{
    if p.pos >= text.len() {
        LexPhase { end: LexEnd::Done, tokens: so_far.tokens.push(lexer::end_at(p)), ..so_far }
    } else {
        let found = lexer::next_token(m.plan, m.terminals, text, p);
        let q = match found {
            Some(t) => lexer::past(p, t.value),
            None => p,
        };
        if found is Some && p.pos < q.pos <= text.len() {
            let t = found->0;
            lex_recovered::<H>(
                m,
                table,
                text,
                q,
                if m.ignore.contains(t.type_id) {
                    so_far
                } else {
                    LexPhase { tokens: so_far.tokens.push(t), ..so_far }
                },
            )
        } else {
            let err = lexer::bad_char(text, p);
            let (h, ctx, act) = H::answer(
                so_far.handler,
                table,
                err,
                RecoveryModel {
                    states: so_far.states,
                    values: so_far.values,
                    fed_count: 0,
                    accepted: None,
                },
            );
            let next = LexPhase {
                end: so_far.end,
                tokens: so_far.tokens,
                errors: so_far.errors.push(err),
                handler: h,
                states: ctx.states,
                values: ctx.values,
            };
            if ctx.accepted is Some {
                LexPhase { end: LexEnd::Accepted(ctx.accepted->0), ..next }
            } else if act is Stop {
                LexPhase { end: LexEnd::Stopped, ..next }
            } else {
                let after = lexer::after(p, text[p.pos as int]);
                if after.pos <= p.pos {
                    next
                } else {
                    lex_recovered::<H>(m, table, text, after, next)
                }
            }
        }
    }
}

/// The outcome of a recovering parse once its text is lexed.
pub open spec fn after_lexing<H: RecoveryHandler>(
    table: ParseTable,
    l: LexPhase<H::Content>,
) -> RecoveredModel<H::Content> {
    match l.end {
        LexEnd::Done => recovered::<PreLexed, H>(
            table,
            l.tokens,
            l.handler,
            l.states,
            l.values,
            l.errors,
            lalr::TOKEN_LIMIT as nat,
        ),
        LexEnd::Stopped => RecoveredModel {
            result: Ok(None),
            errors: l.errors,
            handler: l.handler,
        },
        LexEnd::Accepted(n) => RecoveredModel {
            result: Ok(Some(n)),
            errors: l.errors,
            handler: l.handler,
        },
    }
}

/// The outcome of a recovering parse of a text that is lexed as a whole first.
pub open spec fn basic_recovery<H: RecoveryHandler>(
    m: lexer::LexerModel,
    table: ParseTable,
    text: Seq<char>,
    start: Option<Seq<char>>,
    handler: H::Content,
    errors: Seq<error::ErrorModel>,
) -> RecoveredModel<H::Content> {
    match lalr::initial(table, start) {
        Err(e) => RecoveredModel { result: Err(e), errors, handler },
        Ok(s) => {
            let l = lex_recovered::<H>(
                m,
                table,
                text,
                lexer::origin_place(),
                LexPhase {
                    end: LexEnd::Done,
                    tokens: Seq::empty(),
                    errors,
                    handler,
                    states: seq![s],
                    values: Seq::empty(),
                },
            );
            after_lexing::<H>(table, l)
        },
    }
}

impl LalrParser {
    /// Runs the table over a source; `on_error` decides after each error, and
    /// every error is added to `errors`.
    pub fn run_recovering<S: TokenSource, H: RecoveryHandler>(
        &self,
        source: &mut S,
        start: Option<&str>,
        on_error: &mut H,
        errors: &mut Vec<ParseError>,
    ) -> (r: Result<Option<ParseTree>, ParseError>)
        requires
            self.table.wf(),
            old(source).wf(),
        ensures
            (RecoveredModel {
                result: feed_result(r),
                errors: error_models(final(errors)@),
                handler: final(on_error).content(),
            })
                == recover_model::<S, H>(
                self.table,
                old(source).content(),
                lalr::opt_text(start),
                old(on_error).content(),
                error_models(old(errors)@),
            ),
    {
        let stack = match self.initial_stack(start) {
            Ok(st) => st,
            Err(e) => {
                return Err(e);
            },
        };
        proof {
            assert(stack.state_stack@ =~= seq![stack.state_stack@[0]]);
        }
        self.go_on_recovering(source, stack, on_error, errors)
    }

    /// Runs the table over a source from given stacks, with recovery.
    #[verifier::rlimit(60)]
    fn go_on_recovering<S: TokenSource, H: RecoveryHandler>(
        &self,
        source: &mut S,
        begun: ParserStack,
        on_error: &mut H,
        errors: &mut Vec<ParseError>,
    ) -> (r: Result<Option<ParseTree>, ParseError>)
        requires
            self.table.wf(),
            old(source).wf(),
            begun.wf(self.table),
        ensures
            (RecoveredModel {
                result: feed_result(r),
                errors: error_models(final(errors)@),
                handler: final(on_error).content(),
            }) == recovered::<S, H>(
                self.table,
                old(source).content(),
                old(on_error).content(),
                begun.state_stack@,
                begun.values(),
                error_models(old(errors)@),
                lalr::TOKEN_LIMIT as nat,
            ),
    {
        let ghost states = begun.state_stack@;
        let ghost values = begun.values();
        let mut stack = begun;
        let ghost want = recovered::<S, H>(
            self.table,
            source.content(),
            on_error.content(),
            stack.state_stack@,
            stack.values(),
            error_models(errors@),
            lalr::TOKEN_LIMIT as nat,
        );
        let mut fuel: u64 = lalr::TOKEN_LIMIT;
        while fuel > 0
            invariant
                self.table.wf(),
                source.wf(),
                stack.wf(self.table),
                states == begun.state_stack@,
                values == begun.values(),
                want == recovered::<S, H>(
                    self.table,
                    old(source).content(),
                    old(on_error).content(),
                    states,
                    values,
                    error_models(old(errors)@),
                    lalr::TOKEN_LIMIT as nat,
                ),
                want == recovered::<S, H>(
                    self.table,
                    source.content(),
                    on_error.content(),
                    stack.state_stack@,
                    stack.values(),
                    error_models(errors@),
                    fuel as nat,
                ),
            decreases fuel,
        {
            let got = source.peek(stack.position());
            let ghost errs = error_models(errors@);
            let token = match got {
                Ok(t) => t,
                Err(SourceError::Postlex(e)) => {
                    return Err(e);
                },
                Err(SourceError::Lex(f)) => {
                    let err = ParseError::UnexpectedCharacter {
                        ch: f.ch,
                        line: f.line,
                        col: f.col,
                        pos: f.pos,
                        expected: owned("any token"),
                    };
                    let mut ctx = RecoveryContext::new(stack, &self.table);
                    let act = on_error.handle(&err, &mut ctx);
                    let ghost after = ctx.model();
                    let ghost seen = err@;
                    errors.push(err);
                    proof {
                        assert(error_models(errors@) =~= errs.push(seen));
                    }
                    if let Some(t) = ctx.accepted_tree {
                        return Ok(Some(t));
                    }
                    if act == RecoveryAction::Stop {
                        return Ok(None);
                    }
                    stack = ctx.stack;
                    source.skip_char();
                    fuel = fuel - 1;
                    continue;
                },
            };
            match stack.feed_token(&self.table, &token) {
                Feed::Shifted => {
                    source.advance();
                },
                Feed::Accepted(t) => {
                    return Ok(Some(t));
                },
                Feed::Error(e) => {
                    return Err(e);
                },
                _ => {
                    let err = self.unexpected(stack.position(), &token);
                    let at_end = token.type_id == SymbolId::end();
                    let mut ctx = RecoveryContext::new(stack, &self.table);
                    let act = on_error.handle(&err, &mut ctx);
                    let fed: usize = ctx.fed_count();
                    let ghost seen = err@;
                    errors.push(err);
                    proof {
                        assert(error_models(errors@) =~= errs.push(seen));
                    }
                    if let Some(t) = ctx.accepted_tree {
                        return Ok(Some(t));
                    }
                    stack = ctx.stack;
                    match act {
                        RecoveryAction::Stop => {
                            return Ok(None);
                        },
                        RecoveryAction::Delete => {
                            if at_end {
                                return Ok(None);
                            }
                            source.advance();
                            source.on_delete();
                        },
                        RecoveryAction::Resume => {
                            if fed == 0 {
                                return Ok(None);
                            }
                            if !at_end {
                                source.advance();
                                source.on_delete();
                            }
                        },
                    }
                },
            }
            fuel = fuel - 1;
        }
        Ok(None)
    }

    /// Parses a list of tokens with recovery.
    pub fn parse_recovering<H: RecoveryHandler>(
        &self,
        tokens: Vec<Token>,
        start: Option<&str>,
        on_error: &mut H,
        errors: &mut Vec<ParseError>,
    ) -> (r: Result<Option<ParseTree>, ParseError>)
        requires
            self.table.wf(),
        ensures
            (RecoveredModel {
                result: feed_result(r),
                errors: error_models(final(errors)@),
                handler: final(on_error).content(),
            })
                == recover_model::<PreLexed, H>(
                self.table,
                tree::token_models(tokens@),
                lalr::opt_text(start),
                old(on_error).content(),
                error_models(old(errors)@),
            ),
    {
        let mut source = PreLexed::new(tokens);
        self.run_recovering(&mut source, start, on_error, errors)
    }

    /// Parses a text with recovery, trying all terminals everywhere. The text is
    /// lexed as a whole first, so that the handler sees every character that no
    /// terminal begins with before any token that does not fit.
    #[verifier::rlimit(40)]
    pub fn parse_basic_recovering<H: RecoveryHandler>(
        &self,
        text: &str,
        lexer: &BasicLexer,
        start: Option<&str>,
        on_error: &mut H,
        errors: &mut Vec<ParseError>,
    ) -> (r: Result<Option<ParseTree>, ParseError>)
        requires
            self.table.wf(),
        ensures
            (RecoveredModel {
                result: feed_result(r),
                errors: error_models(final(errors)@),
                handler: final(on_error).content(),
            }) == basic_recovery::<H>(
                lexer@,
                self.table,
                text@,
                lalr::opt_text(start),
                old(on_error).content(),
                error_models(old(errors)@),
            ),
    {
        let mut stack = match self.initial_stack(start) {
            Ok(st) => st,
            Err(e) => {
                return Err(e);
            },
        };
        proof {
            assert(stack.state_stack@ =~= seq![stack.state_stack@[0]]);
        }
        let chars = chars_of(text);
        let mut tokens: Vec<Token> = Vec::new();
        let mut p = Place::origin();
        let ghost first = LexPhase {
            end: LexEnd::Done,
            tokens: tree::token_models(tokens@),
            errors: error_models(errors@),
            handler: on_error.content(),
            states: stack.state_stack@,
            values: stack.values(),
        };
        proof {
            assert(tree::token_models(tokens@) =~= Seq::empty());
        }
        let ghost want = lex_recovered::<H>(lexer@, self.table, text@, p, first);
        while p.pos < chars.len()
            invariant
                self.table.wf(),
                chars@ == text@,
                p.pos <= chars@.len(),
                stack.wf(self.table),
                want == lex_recovered::<H>(
                    lexer@,
                    self.table,
                    text@,
                    p,
                    LexPhase {
                        end: LexEnd::Done,
                        tokens: tree::token_models(tokens@),
                        errors: error_models(errors@),
                        handler: on_error.content(),
                        states: stack.state_stack@,
                        values: stack.values(),
                    },
                ),
                basic_recovery::<H>(
                    lexer@,
                    self.table,
                    text@,
                    lalr::opt_text(start),
                    old(on_error).content(),
                    error_models(old(errors)@),
                ) == after_lexing::<H>(self.table, want),
            decreases chars.len() - p.pos,
        {
            let ghost found = tree::token_models(tokens@);
            let ghost errs = error_models(errors@);
            match lexer.next_token_at(&chars, p) {
                Some(t) => {
                    let q = p.walk(t.value.as_str());
                    let ghost tok = t@;
                    proof {
                        lexer::past_counts(p, t@.value);
                    }
                    if !lexer.is_ignored(t.type_id) {
                        tokens.push(t);
                        proof {
                            assert(tree::token_models(tokens@) =~= found.push(tok));
                        }
                    }
                    p = q;
                },
                None => {
                    let err = bad_character_at(&chars, p);
                    let mut ctx = RecoveryContext::new(stack, &self.table);
                    let act = on_error.handle(&err, &mut ctx);
                    let ghost seen = err@;
                    errors.push(err);
                    proof {
                        assert(error_models(errors@) =~= errs.push(seen));
                    }
                    if let Some(t) = ctx.accepted_tree {
                        return Ok(Some(t));
                    }
                    if act == RecoveryAction::Stop {
                        return Ok(None);
                    }
                    stack = ctx.stack;
                    p = p.step(chars[p.pos]);
                },
            }
        }
        let ghost found = tree::token_models(tokens@);
        tokens.push(end_token_at(p));
        proof {
            assert(tree::token_models(tokens@) =~= found.push(lexer::end_at(p)));
        }
        let mut source = PreLexed::new(tokens);
        self.go_on_recovering(&mut source, stack, on_error, errors)
    }
}

} // verus!
