//! Sources of tokens that lex on demand, with or without indentation tokens,
//! and the parses that they drive.

use vstd::prelude::*;
use crate::error;
use crate::error::ParseError;
use crate::lalr;
use crate::lalr::LalrParser;
use crate::lalr_table::ParseTable;
use crate::lexer;
use crate::lexer::{pull, BasicLexer, ContextualLexer, Place};
use crate::postlex;
use crate::postlex::{Indenter, IndenterStream};
use crate::recovery;
use crate::recovery::RecoveryHandler;
use crate::scanner;
use crate::scanner::Terminal;
use crate::symbols;
use crate::symbols::{SymbolId, SymbolTable};
use crate::text::chars_of;
use crate::token_source;
use crate::token_source::{LexFailure, SourceError, TokenSource};
use crate::tree;
use crate::tree::{ParseTree, Token};

verus! {

// ---------------------------------------------------------------------------
// Lexers

/// A lexer and how it is asked.
#[derive(Clone, Copy)]
pub enum LexerKind<'a> {
    /// All terminals are tried.
    Basic(&'a BasicLexer),
    /// Those are tried that the parser state admits, and then all.
    Contextual(&'a ContextualLexer),
}

/// The mathematical content of a lexer and how it is asked.
pub ghost enum KindModel {
    Basic(lexer::LexerModel),
    Contextual(lexer::ContextualModel),
}

impl<'a> View for LexerKind<'a> {
    type V = KindModel;

    open spec fn view(&self) -> KindModel {
        match *self {
            LexerKind::Basic(l) => KindModel::Basic(l@),
            LexerKind::Contextual(l) => KindModel::Contextual(l@),
        }
    }
}

/// The plans that are tried in a parser state.
pub open spec fn plans_for(m: KindModel, state: nat) -> Seq<scanner::PlanModel> {
    match m {
        KindModel::Basic(l) => seq![l.plan],
        KindModel::Contextual(l) => lexer::state_plan(l, state) + seq![l.root],
    }
}

/// The terminals of a lexer.
pub open spec fn kind_terminals(m: KindModel) -> Seq<Terminal> {
    match m {
        KindModel::Basic(l) => l.terminals,
        KindModel::Contextual(l) => l.terminals,
    }
}

/// What a lexer leaves out.
pub open spec fn kind_ignore(m: KindModel) -> Seq<SymbolId> {
    match m {
        KindModel::Basic(l) => l.ignore,
        KindModel::Contextual(l) => l.ignore,
    }
}

/// The next token from a place on, in a parser state.
pub open spec fn next_of(m: KindModel, state: nat, text: Seq<char>, p: Place) -> (
    Place,
    Result<tree::TokenModel, LexFailure>,
) {
    lexer::pulled(plans_for(m, state), kind_terminals(m), kind_ignore(m), text, p)
}

impl<'a> LexerKind<'a> {
    /// Pulls the next token from a place on.
    pub fn next(&self, state: usize, chars: &Vec<char>, p: Place) -> (r: (
        Place,
        Result<Token, LexFailure>,
    ))
        requires
            p.pos <= chars@.len(),
        ensures
            (r.0, lexer::pull_result(r.1)) == next_of(self@, state as nat, chars@, p),
            p.pos <= r.0.pos <= chars@.len(),
            r.1 is Err ==> r.0.pos < chars@.len(),
            r.1 matches Ok(t) ==> lexer::pull_fits(chars@, r.0, t@),
    {
        match *self {
            LexerKind::Basic(l) => {
                proof {
                    assert(seq![l.plan@] + Seq::<scanner::PlanModel>::empty() =~= seq![l.plan@]);
                }
                pull(Some(&l.plan), None, &l.terminals, &l.ignore, chars, p)
            },
            LexerKind::Contextual(l) => {
                let plan = l.plan_for(state);
                pull(plan, Some(&l.root), &l.terminals, &l.ignore, chars, p)
            },
        }
    }
}

// ---------------------------------------------------------------------------
// Lexing for the parser state

/// A source that lexes on demand, for the parser state that asks.
pub struct Contextual<'a> {
    lexer: LexerKind<'a>,
    chars: Vec<char>,
    place: Place,
    current: Option<Token>,
}

/// The mathematical content of such a source.
pub ghost struct LazyModel {
    pub lexer: KindModel,
    pub text: Seq<char>,
    pub place: Place,
    pub current: Option<tree::TokenModel>,
}

/// A source at the beginning of a text.
pub open spec fn lazy_start(lexer: KindModel, text: Seq<char>) -> LazyModel {
    LazyModel { lexer, text, place: lexer::origin_place(), current: None }
}

/// A look at the current token.
pub open spec fn lazy_peek(c: LazyModel, state: nat) -> (
    LazyModel,
    Result<tree::TokenModel, token_source::SourceErrorModel>,
) {
    match c.current {
        Some(t) => (c, Ok(t)),
        None => match next_of(c.lexer, state, c.text, c.place) {
            (p, Ok(t)) => (LazyModel { place: p, current: Some(t), ..c }, Ok(t)),
            (p, Err(f)) => (
                LazyModel { place: p, ..c },
                Err(token_source::SourceErrorModel::Lex(f)),
            ),
        },
    }
}

/// The current token consumed.
pub open spec fn lazy_advance(c: LazyModel) -> LazyModel {
    match c.current {
        Some(t) => LazyModel { place: lexer::past(c.place, t.value), current: None, ..c },
        None => c,
    }
}

/// One character skipped.
pub open spec fn lazy_skip(c: LazyModel) -> LazyModel {
    if c.place.pos < c.text.len() {
        LazyModel {
            place: lexer::after(c.place, c.text[c.place.pos as int]),
            current: None,
            ..c
        }
    } else {
        c
    }
}

impl<'a> Contextual<'a> {
    /// The content of the source.
    pub closed spec fn model(&self) -> LazyModel {
        LazyModel {
            lexer: self.lexer@,
            text: self.chars@,
            place: self.place,
            current: lexer::opt_token(self.current),
        }
    }

    /// Whether the source stands within its text.
    pub open spec fn in_range(&self) -> bool {
        let m = self.model();
        &&& m.place.pos <= m.text.len() <= usize::MAX
        &&& m.current matches Some(t) ==> lexer::pull_fits(m.text, m.place, t)
    }

    fn over(text: &str, lexer: LexerKind<'a>) -> (r: Self)
        ensures
            r.in_range(),
            r.model() == lazy_start(lexer@, text@),
    {
        let chars = chars_of(text);
        let n: usize = chars.len();
        Contextual { lexer, chars, place: Place::origin(), current: None }
    }

    /// A source that, where the parser state's terminals fail, tries all.
    pub fn new(text: &str, lexer: &'a ContextualLexer) -> (r: Self)
        ensures
            r.wf(),
            r.content() == lazy_start(KindModel::Contextual(lexer@), text@),
    {
        Contextual::over(text, LexerKind::Contextual(lexer))
    }

    /// A source that tries all terminals everywhere.
    pub fn basic(text: &str, lexer: &'a BasicLexer) -> (r: Self)
        ensures
            r.wf(),
            r.content() == lazy_start(KindModel::Basic(lexer@), text@),
    {
        Contextual::over(text, LexerKind::Basic(lexer))
    }
}

impl<'a> TokenSource for Contextual<'a> {
    type Content = LazyModel;

    open spec fn content(&self) -> LazyModel {
        self.model()
    }

    open spec fn wf(&self) -> bool {
        self.in_range()
    }

    open spec fn peek_model(c: LazyModel, state: nat) -> (
        LazyModel,
        Result<tree::TokenModel, token_source::SourceErrorModel>,
    ) {
        lazy_peek(c, state)
    }

    open spec fn advance_model(c: LazyModel) -> LazyModel {
        lazy_advance(c)
    }

    open spec fn skip_model(c: LazyModel) -> LazyModel {
        lazy_skip(c)
    }

    open spec fn delete_model(c: LazyModel) -> LazyModel {
        c
    }

    fn peek(&mut self, state: usize) -> (r: Result<Token, SourceError>) {
        if let Some(t) = &self.current {
            return Ok(t.copy());
        }
        let (p, r) = self.lexer.next(state, &self.chars, self.place);
        self.place = p;
        match r {
            Ok(t) => {
                let seen = t.copy();
                self.current = Some(t);
                Ok(seen)
            },
            Err(f) => Err(SourceError::Lex(f)),
        }
    }

    fn advance(&mut self) {
        let taken = match &self.current {
            Some(t) => Some(t.value.clone()),
            None => None,
        };
        if let Some(value) = taken {
            proof {
                reveal_strlit("");
                lexer::past_counts(self.place, value@);
            }
            self.place = self.place.walk(value.as_str());
            self.current = None;
        }
    }

    fn skip_char(&mut self) {
        if self.place.pos < self.chars.len() {
            self.place = self.place.step(self.chars[self.place.pos]);
            self.current = None;
        }
    }

    fn on_delete(&mut self) {
    }
}

// ---------------------------------------------------------------------------
// With indentation tokens

/// A source that lexes on demand and turns indentation into tokens. A token is
/// lexed only once all that came of earlier ones is consumed, so each is lexed
/// in the parser state in which it is met. The blocks that are open at the end
/// of input are closed before it.
pub struct PostlexContextual<'a> {
    inner: Contextual<'a>,
    stream: IndenterStream<'a>,
    current: Option<Token>,
    end_token: Option<Token>,
    finished: bool,
}

/// The mathematical content of such a source.
pub ghost struct IndentedModel {
    pub inner: LazyModel,
    pub context: postlex::IndentContext,
    pub state: postlex::IndentState,
    pub current: Option<tree::TokenModel>,
    pub end: Option<tree::TokenModel>,
    pub finished: bool,
}

/// A source at the beginning of a text.
pub open spec fn indented_start(
    inner: LazyModel,
    context: postlex::IndentContext,
) -> IndentedModel {
    IndentedModel {
        inner,
        context,
        state: postlex::indent_start(),
        current: None,
        end: None,
        finished: false,
    }
}

/// The first ready token handed out.
pub open spec fn handed_out(c: IndentedModel) -> (
    IndentedModel,
    Result<tree::TokenModel, token_source::SourceErrorModel>,
) {
    let t = c.state.out[0];
    (
        IndentedModel {
            state: postlex::IndentState { out: c.state.out.drop_first(), ..c.state },
            current: Some(t),
            ..c
        },
        Ok(t),
    )
}

/// What is handed out once the end of input is met: the ends of the blocks
/// that are open, and then the end of input.
pub open spec fn ended(c: IndentedModel, end: tree::TokenModel) -> (
    IndentedModel,
    Result<tree::TokenModel, token_source::SourceErrorModel>,
) {
    let closed = if c.finished {
        c
    } else {
        IndentedModel {
            state: postlex::all_closed(c.context, c.state),
            finished: true,
            ..c
        }
    };
    if closed.state.out.len() > 0 {
        handed_out(closed)
    } else {
        (IndentedModel { current: Some(end), ..closed }, Ok(end))
    }
}

/// A look at the current token.
pub open spec fn indented_peek(c: IndentedModel, state: nat) -> (
    IndentedModel,
    Result<tree::TokenModel, token_source::SourceErrorModel>,
)
    decreases c.inner.text.len() - c.inner.place.pos,
{
    if c.current is Some {
        (c, Ok(c.current->0))
    } else if c.state.out.len() > 0 {
        handed_out(c)
    } else if c.end is Some {
        ended(c, c.end->0)
    } else {
        match lazy_peek(c.inner, state) {
            (inner, Err(e)) => (IndentedModel { inner, ..c }, Err(e)),
            (seen, Ok(t)) => {
                let inner = lazy_advance(seen);
                if t.type_id == SymbolId::end() {
                    ended(IndentedModel { inner, end: Some(t), ..c }, t)
                } else {
                    let (st, err) = postlex::token_taken(c.context, c.state, t);
                    let next = IndentedModel { inner, state: st, ..c };
                    match err {
                        Some(e) => (next, Err(token_source::SourceErrorModel::Postlex(e))),
                        None => if c.inner.text == inner.text && c.inner.place.pos
                            < inner.place.pos <= inner.text.len() {
                            indented_peek(next, state)
                        } else {
                            (next, Ok(t))
                        },
                    }
                }
            },
        }
    }
}

impl<'a> PostlexContextual<'a> {
    /// The content of the source.
    pub closed spec fn model(&self) -> IndentedModel {
        IndentedModel {
            inner: self.inner.model(),
            context: self.stream.context(),
            state: self.stream.state(),
            current: lexer::opt_token(self.current),
            end: lexer::opt_token(self.end_token),
            finished: self.finished,
        }
    }

    /// Whether the parts of the source are in order.
    pub closed spec fn in_range(&self) -> bool {
        &&& self.inner.in_range()
        &&& self.stream.wf()
        &&& self.inner.model().current is None
    }

    fn over(inner: Contextual<'a>, stream: IndenterStream<'a>) -> (r: Self)
        requires
            inner.in_range(),
            inner.model().current is None,
            stream.wf(),
            stream.state() == postlex::indent_start(),
        ensures
            r.in_range(),
            r.model() == indented_start(inner.model(), stream.context()),
    {
        PostlexContextual { inner, stream, current: None, end_token: None, finished: false }
    }

    fn hand_out_end(&mut self, end: Token) -> (r: Token)
        requires
            old(self).in_range(),
            old(self).model().state.out.len() == 0,
            old(self).model().current is None,
        ensures
            final(self).in_range(),
            (final(self).model(), Ok::<tree::TokenModel, token_source::SourceErrorModel>(r@))
                == ended(old(self).model(), end@),
    {
        if !self.finished {
            self.stream.finish();
            self.finished = true;
        }
        if let Some(t) = self.stream.pop() {
            self.current = Some(t.copy());
            return t;
        }
        self.current = Some(end.copy());
        end
    }
}

impl<'a> TokenSource for PostlexContextual<'a> {
    type Content = IndentedModel;

    open spec fn content(&self) -> IndentedModel {
        self.model()
    }

    open spec fn wf(&self) -> bool {
        self.in_range()
    }

    open spec fn peek_model(c: IndentedModel, state: nat) -> (
        IndentedModel,
        Result<tree::TokenModel, token_source::SourceErrorModel>,
    ) {
        indented_peek(c, state)
    }

    open spec fn advance_model(c: IndentedModel) -> IndentedModel {
        IndentedModel { current: None, ..c }
    }

    /// Recovery begins indentation anew.
    open spec fn skip_model(c: IndentedModel) -> IndentedModel {
        IndentedModel { inner: lazy_skip(c.inner), state: postlex::indent_start(), ..c }
    }

    /// Recovery begins indentation anew.
    open spec fn delete_model(c: IndentedModel) -> IndentedModel {
        IndentedModel { state: postlex::indent_start(), ..c }
    }

    #[verifier::rlimit(30)]
    fn peek(&mut self, state: usize) -> (r: Result<Token, SourceError>) {
        if let Some(t) = &self.current {
            return Ok(t.copy());
        }
        let ghost want = indented_peek(self.model(), state as nat);
        loop
            invariant
                self.in_range(),
                self.model().current is None,
                want == indented_peek(old(self).model(), state as nat),
                want == indented_peek(self.model(), state as nat),
            decreases self.inner.model().text.len() - self.inner.model().place.pos,
        {
            let ghost before = self.model();
            if let Some(t) = self.stream.pop() {
                self.current = Some(t.copy());
                return Ok(t);
            }
            let end = match &self.end_token {
                Some(t) => Some(t.copy()),
                None => None,
            };
            if let Some(t) = end {
                return Ok(self.hand_out_end(t));
            }
            let t = match self.inner.peek(state) {
                Ok(t) => t,
                Err(e) => {
                    return Err(e);
                },
            };
            proof {
                let seen = self.inner.model();
                reveal_strlit("");
                assert(lexer::pull_fits(seen.text, seen.place, t@));
                lexer::lemma_pulled_on(
                    plans_for(before.inner.lexer, state as nat),
                    kind_terminals(before.inner.lexer),
                    kind_ignore(before.inner.lexer),
                    before.inner.text,
                    before.inner.place,
                );
                if lexer::token_fits(seen.text, seen.place, t@) {
                    lexer::past_counts(seen.place, t@.value);
                }
            }
            self.inner.advance();
            if t.type_id == SymbolId::end() {
                self.end_token = Some(t.copy());
                return Ok(self.hand_out_end(t));
            }
            let tok = t.copy();
            match self.stream.feed(tok) {
                Ok(_) => {},
                Err(e) => {
                    return Err(SourceError::Postlex(e));
                },
            }
        }
    }

    fn advance(&mut self) {
        self.current = None;
    }

    fn skip_char(&mut self) {
        self.inner.skip_char();
        self.stream.reset();
    }

    fn on_delete(&mut self) {
        self.stream.reset();
    }
}

/// The content of the result of making a source.
pub open spec fn source_result<'a>(r: Result<PostlexContextual<'a>, ParseError>) -> Result<
    IndentedModel,
    error::ErrorModel,
> {
    match r {
        Ok(s) => Ok(s.model()),
        Err(e) => Err(e@),
    }
}

/// A source over a text, unless a name of the indenter is not declared.
pub open spec fn indented_source(
    lexer: KindModel,
    text: Seq<char>,
    cfg: postlex::IndenterModel,
    infos: Seq<symbols::SymbolInfo>,
) -> Result<IndentedModel, error::ErrorModel> {
    match postlex::context_in(cfg, infos) {
        Ok(c) => Ok(indented_start(lazy_start(lexer, text), c)),
        Err(e) => Err(e),
    }
}

fn with_indentation<'a>(
    inner: Contextual<'a>,
    postlex: &'a Indenter,
    symbols: &SymbolTable,
) -> (r: Result<PostlexContextual<'a>, ParseError>)
    requires
        inner.in_range(),
        inner.model().current is None,
        symbols@.len() <= symbols::UNSET_ID,
    ensures
        r matches Ok(s) ==> s.wf(),
        source_result(r) == match postlex::context_in(postlex@, symbols@) {
            Ok(c) => Ok(indented_start(inner.model(), c)),
            Err(e) => Err(e),
        },
{
    match IndenterStream::new(postlex, symbols) {
        Ok(stream) => Ok(PostlexContextual::over(inner, stream)),
        Err(e) => Err(e),
    }
}

/// A source that tries the terminals that the parser state admits, and then all,
/// and turns indentation into tokens.
pub fn postlex_contextual_source<'a>(
    text: &str,
    lexer: &'a ContextualLexer,
    postlex: &'a Indenter,
    symbols: &SymbolTable,
) -> (r: Result<PostlexContextual<'a>, ParseError>)
    requires
        symbols@.len() <= symbols::UNSET_ID,
    ensures
        r matches Ok(s) ==> s.wf(),
        source_result(r) == indented_source(
            KindModel::Contextual(lexer@),
            text@,
            postlex@,
            symbols@,
        ),
{
    with_indentation(Contextual::new(text, lexer), postlex, symbols)
}

/// Such a source that tries all terminals everywhere.
pub fn postlex_basic_recovering_source<'a>(
    text: &str,
    lexer: &'a BasicLexer,
    postlex: &'a Indenter,
    symbols: &SymbolTable,
) -> (r: Result<PostlexContextual<'a>, ParseError>)
    requires
        symbols@.len() <= symbols::UNSET_ID,
    ensures
        r matches Ok(s) ==> s.wf(),
        source_result(r) == indented_source(KindModel::Basic(lexer@), text@, postlex@, symbols@),
{
    with_indentation(Contextual::basic(text, lexer), postlex, symbols)
}

// ---------------------------------------------------------------------------
// Parses

/// The result of parsing from a source with indentation tokens.
pub open spec fn indented_parse(
    table: ParseTable,
    source: Result<IndentedModel, error::ErrorModel>,
    start: Option<Seq<char>>,
) -> Result<tree::Node, error::ErrorModel> {
    match source {
        Ok(s) => lalr::parse_model::<PostlexContextual<'static>>(table, s, start),
        Err(e) => Err(e),
    }
}

/// The outcome of a recovering parse from a source with indentation tokens.
pub open spec fn indented_recovery<H: RecoveryHandler>(
    table: ParseTable,
    source: Result<IndentedModel, error::ErrorModel>,
    start: Option<Seq<char>>,
    handler: H::Content,
    errors: Seq<error::ErrorModel>,
) -> recovery::RecoveredModel<H::Content> {
    match source {
        Ok(s) => recovery::recover_model::<PostlexContextual<'static>, H>(
            table,
            s,
            start,
            handler,
            errors,
        ),
        Err(e) => recovery::RecoveredModel { result: Err(e), errors, handler },
    }
}

impl LalrParser {
    /// Parses a text, lexing for the parser state.
    pub fn parse_contextual(&self, text: &str, lexer: &ContextualLexer, start: Option<&str>) -> (r:
        Result<ParseTree, ParseError>)
        requires
            self.table.wf(),
        ensures
            lalr::parsed(r) == lalr::parse_model::<Contextual>(
                self.table,
                lazy_start(KindModel::Contextual(lexer@), text@),
                lalr::opt_text(start),
            ),
    {
        let mut source = Contextual::new(text, lexer);
        self.run(&mut source, start)
    }

    /// Parses a text with indentation tokens, lexing for the parser state.
    pub fn parse_contextual_postlex(
        &self,
        text: &str,
        lexer: &ContextualLexer,
        postlex: &Indenter,
        symbols: &SymbolTable,
        start: Option<&str>,
    ) -> (r: Result<ParseTree, ParseError>)
        requires
            self.table.wf(),
            symbols@.len() <= symbols::UNSET_ID,
        ensures
            lalr::parsed(r) == indented_parse(
                self.table,
                indented_source(KindModel::Contextual(lexer@), text@, postlex@, symbols@),
                lalr::opt_text(start),
            ),
    {
        match postlex_contextual_source(text, lexer, postlex, symbols) {
            Ok(mut source) => self.run(&mut source, start),
            Err(e) => Err(e),
        }
    }

    /// Parses a text with recovery, lexing for the parser state.
    pub fn parse_contextual_recovering<H: RecoveryHandler>(
        &self,
        text: &str,
        lexer: &ContextualLexer,
        start: Option<&str>,
        on_error: &mut H,
        errors: &mut Vec<ParseError>,
    ) -> (r: Result<Option<ParseTree>, ParseError>)
        requires
            self.table.wf(),
        ensures
            (recovery::RecoveredModel {
                result: recovery::feed_result(r),
                errors: recovery::error_models(final(errors)@),
                handler: final(on_error).content(),
            }) == recovery::recover_model::<Contextual, H>(
                self.table,
                lazy_start(KindModel::Contextual(lexer@), text@),
                lalr::opt_text(start),
                old(on_error).content(),
                recovery::error_models(old(errors)@),
            ),
    {
        let mut source = Contextual::new(text, lexer);
        self.run_recovering(&mut source, start, on_error, errors)
    }

    /// Parses a text with indentation tokens and recovery, lexing for the
    /// parser state.
    pub fn parse_contextual_postlex_recovering<H: RecoveryHandler>(
        &self,
        text: &str,
        lexer: &ContextualLexer,
        postlex: &Indenter,
        symbols: &SymbolTable,
        start: Option<&str>,
        on_error: &mut H,
        errors: &mut Vec<ParseError>,
    ) -> (r: Result<Option<ParseTree>, ParseError>)
        requires
            self.table.wf(),
            symbols@.len() <= symbols::UNSET_ID,
        ensures
            (recovery::RecoveredModel {
                result: recovery::feed_result(r),
                errors: recovery::error_models(final(errors)@),
                handler: final(on_error).content(),
            }) == indented_recovery::<H>(
                self.table,
                indented_source(KindModel::Contextual(lexer@), text@, postlex@, symbols@),
                lalr::opt_text(start),
                old(on_error).content(),
                recovery::error_models(old(errors)@),
            ),
    {
        match postlex_contextual_source(text, lexer, postlex, symbols) {
            Ok(mut source) => self.run_recovering(&mut source, start, on_error, errors),
            Err(e) => Err(e),
        }
    }

    /// Parses a text with indentation tokens and recovery, trying all terminals
    /// everywhere.
    pub fn parse_basic_postlex_recovering<H: RecoveryHandler>(
        &self,
        text: &str,
        lexer: &BasicLexer,
        postlex: &Indenter,
        symbols: &SymbolTable,
        start: Option<&str>,
        on_error: &mut H,
        errors: &mut Vec<ParseError>,
    ) -> (r: Result<Option<ParseTree>, ParseError>)
        requires
            self.table.wf(),
            symbols@.len() <= symbols::UNSET_ID,
        ensures
            (recovery::RecoveredModel {
                result: recovery::feed_result(r),
                errors: recovery::error_models(final(errors)@),
                handler: final(on_error).content(),
            }) == indented_recovery::<H>(
                self.table,
                indented_source(KindModel::Basic(lexer@), text@, postlex@, symbols@),
                lalr::opt_text(start),
                old(on_error).content(),
                recovery::error_models(old(errors)@),
            ),
    {
        match postlex_basic_recovering_source(text, lexer, postlex, symbols) {
            Ok(mut source) => self.run_recovering(&mut source, start, on_error, errors),
            Err(e) => Err(e),
        }
    }
}

} // verus!
