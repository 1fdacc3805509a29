//! The interface between lexing and parsing: a source hands the parser one
//! token at a time, for the parser state that asks.

use vstd::prelude::*;
use crate::error;
use crate::error::ParseError;
use crate::tree;
use crate::tree::Token;

verus! {

/// The input cannot be lexed at a position.
#[derive(Clone, Copy, PartialEq, Eq, Debug, Structural)]
pub struct LexFailure {
    pub ch: char,
    pub line: usize,
    pub col: usize,
    pub pos: usize,
}

/// Why a source has no next token.
pub enum SourceError {
    /// The lexer failed; the parser adds what it expected.
    Lex(LexFailure),
    /// A post-lexer rejected the token stream.
    Postlex(ParseError),
}

/// The mathematical content of a source error.
pub ghost enum SourceErrorModel {
    Lex(LexFailure),
    Postlex(error::ErrorModel),
}

impl View for SourceError {
    type V = SourceErrorModel;

    open spec fn view(&self) -> SourceErrorModel {
        match *self {
            SourceError::Lex(f) => SourceErrorModel::Lex(f),
            SourceError::Postlex(e) => SourceErrorModel::Postlex(e@),
        }
    }
}

/// The content of what a source hands out.
pub open spec fn peeked(r: Result<Token, SourceError>) -> Result<
    tree::TokenModel,
    SourceErrorModel,
> {
    match r {
        Ok(t) => Ok(t@),
        Err(e) => Err(e@),
    }
}

/// A source of tokens. What it hands out is a function of its content and of
/// the asking parser state.
pub trait TokenSource: Sized {
    /// The mathematical content of the source.
    type Content;

    spec fn content(&self) -> Self::Content;

    /// Whether the source is in order.
    spec fn wf(&self) -> bool;

    /// The content after a look at the current token, and that token.
    spec fn peek_model(c: Self::Content, state: nat) -> (
        Self::Content,
        Result<tree::TokenModel, SourceErrorModel>,
    );

    /// The content once the current token is consumed.
    spec fn advance_model(c: Self::Content) -> Self::Content;

    /// The content once one character that cannot be lexed is skipped.
    spec fn skip_model(c: Self::Content) -> Self::Content;

    /// The content once a consumed token turns out to have been deleted.
    spec fn delete_model(c: Self::Content) -> Self::Content;

    /// The current token. It stays current until it is consumed.
    fn peek(&mut self, state: usize) -> (r: Result<Token, SourceError>)
        requires
            old(self).wf(),
        ensures
            final(self).wf(),
            (final(self).content(), peeked(r)) == Self::peek_model(
                old(self).content(),
                state as nat,
            ),
    ;

    /// Consumes the current token.
    fn advance(&mut self)
        requires
            old(self).wf(),
        ensures
            final(self).wf(),
            final(self).content() == Self::advance_model(old(self).content()),
    ;

    /// Skips one character where the input cannot be lexed.
    fn skip_char(&mut self)
        requires
            old(self).wf(),
        ensures
            final(self).wf(),
            final(self).content() == Self::skip_model(old(self).content()),
    ;

    /// Learns that the token just consumed was deleted by recovery.
    fn on_delete(&mut self)
        requires
            old(self).wf(),
        ensures
            final(self).wf(),
            final(self).content() == Self::delete_model(old(self).content()),
    ;
}

/// Replays a list of tokens; after the last it hands out the end of input.
pub struct PreLexed {
    tokens: Vec<Token>,
    next: usize,
}

impl PreLexed {
    /// The tokens that are still to come.
    pub closed spec fn rest(&self) -> Seq<tree::TokenModel> {
        tree::token_models(self.tokens@).skip(self.next as int)
    }

    /// Whether the next token is one of the list, or the end.
    pub closed spec fn in_range(&self) -> bool {
        self.next <= self.tokens@.len()
    }

    /// A source of the given tokens.
    pub fn new(tokens: Vec<Token>) -> (r: Self)
        ensures
            r.wf(),
            r.content() == tree::token_models(tokens@),
    {
        let r = PreLexed { tokens, next: 0 };
        proof {
            assert(r.rest() =~= tree::token_models(tokens@));
        }
        r
    }
}

impl TokenSource for PreLexed {
    type Content = Seq<tree::TokenModel>;

    open spec fn content(&self) -> Seq<tree::TokenModel> {
        self.rest()
    }

    open spec fn wf(&self) -> bool {
        self.in_range()
    }

    open spec fn peek_model(c: Seq<tree::TokenModel>, state: nat) -> (
        Seq<tree::TokenModel>,
        Result<tree::TokenModel, SourceErrorModel>,
    ) {
        if c.len() > 0 {
            (c, Ok(c[0]))
        } else {
            (c, Ok(tree::end_token()))
        }
    }

    open spec fn advance_model(c: Seq<tree::TokenModel>) -> Seq<tree::TokenModel> {
        if c.len() > 0 {
            c.drop_first()
        } else {
            c
        }
    }

    open spec fn skip_model(c: Seq<tree::TokenModel>) -> Seq<tree::TokenModel> {
        c
    }

    open spec fn delete_model(c: Seq<tree::TokenModel>) -> Seq<tree::TokenModel> {
        c
    }

    fn peek(&mut self, _state: usize) -> (r: Result<Token, SourceError>) {
        if self.next < self.tokens.len() {
            Ok(self.tokens[self.next].copy())
        } else {
            Ok(Token::end())
        }
    }

    fn advance(&mut self) {
        if self.next < self.tokens.len() {
            self.next = self.next + 1;
            proof {
                assert(self.rest() =~= old(self).rest().drop_first());
            }
        }
    }

    fn skip_char(&mut self) {
    }

    fn on_delete(&mut self) {
    }
}

} // verus!
