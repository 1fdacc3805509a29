//! The errors that parsers and grammar compilation report.

use vstd::prelude::*;
use crate::symbols::SymbolId;
use crate::text;
use crate::tree;
use crate::tree::{ParseTree, Token};

verus! {

/// Why a parse failed.
#[allow(inconsistent_fields)]
#[derive(Debug)]
pub enum ParseError {
    UnexpectedToken {
        token: String,
        token_type: String,
        line: usize,
        col: usize,
        expected: Vec<String>,
    },
    UnexpectedCharacter { ch: char, line: usize, col: usize, pos: usize, expected: String },
    UnexpectedEof { line: usize, col: usize, expected: Vec<String> },
    Postlex { msg: String },
}

/// The mathematical content of a parse error.
#[allow(inconsistent_fields)]
pub ghost enum ErrorModel {
    UnexpectedToken {
        token: Seq<char>,
        token_type: Seq<char>,
        line: usize,
        col: usize,
        expected: Seq<Seq<char>>,
    },
    UnexpectedCharacter { ch: char, line: usize, col: usize, pos: usize, expected: Seq<char> },
    UnexpectedEof { line: usize, col: usize, expected: Seq<Seq<char>> },
    Postlex { msg: Seq<char> },
}

impl View for ParseError {
    type V = ErrorModel;

    open spec fn view(&self) -> ErrorModel {
        match *self {
            ParseError::UnexpectedToken {
                token,
                token_type,
                line,
                col,
                expected,
            } => ErrorModel::UnexpectedToken {
                token: token@,
                token_type: token_type@,
                line,
                col,
                expected: text::texts(expected@),
            },
            ParseError::UnexpectedCharacter {
                ch,
                line,
                col,
                pos,
                expected,
            } => ErrorModel::UnexpectedCharacter { ch, line, col, pos, expected: expected@ },
            ParseError::UnexpectedEof { line, col, expected } => ErrorModel::UnexpectedEof {
                line,
                col,
                expected: text::texts(expected@),
            },
            ParseError::Postlex { msg } => ErrorModel::Postlex { msg: msg@ },
        }
    }
}

/// The report of a token that the parser cannot take; the end of input is
/// reported as such.
pub open spec fn unexpected_token_model(t: tree::TokenModel, expected: Seq<Seq<char>>) -> ErrorModel {
    if t.type_id == SymbolId::end() {
        ErrorModel::UnexpectedEof { line: t.line, col: t.column, expected }
    } else {
        unexpected_token_keep_end_model(t, expected)
    }
}

/// The report of a token that the parser cannot take, whatever its type.
pub open spec fn unexpected_token_keep_end_model(
    t: tree::TokenModel,
    expected: Seq<Seq<char>>,
) -> ErrorModel {
    ErrorModel::UnexpectedToken {
        token: t.value,
        token_type: t.type_,
        line: t.line,
        col: t.column,
        expected,
    }
}

/// The report of input that ends too early.
pub open spec fn unexpected_eof_model(
    line: usize,
    col: usize,
    expected: Seq<Seq<char>>,
) -> ErrorModel {
    ErrorModel::UnexpectedEof { line, col, expected }
}

impl ParseError {
    /// Reports a token that the parser cannot take; the end of input is
    /// reported as such.
    pub fn unexpected_token(t: &Token, expected: Vec<String>) -> (r: ParseError)
        ensures
            r@ == unexpected_token_model(t@, text::texts(expected@)),
    {
        if t.type_id == SymbolId::end() {
            ParseError::UnexpectedEof { line: t.line, col: t.column, expected }
        } else {
            ParseError::unexpected_token_keep_end(t, expected)
        }
    }

    /// Reports a token that the parser cannot take, whatever its type.
    pub fn unexpected_token_keep_end(t: &Token, expected: Vec<String>) -> (r: ParseError)
        ensures
            r@ == unexpected_token_keep_end_model(t@, text::texts(expected@)),
    {
        ParseError::UnexpectedToken {
            token: t.value.clone(),
            token_type: t.type_.clone(),
            line: t.line,
            col: t.column,
            expected,
        }
    }

    /// Reports input that ends too early.
    pub fn unexpected_eof(line: usize, col: usize, expected: Vec<String>) -> (r: ParseError)
        ensures
            r@ == unexpected_eof_model(line, col, text::texts(expected@)),
    {
        ParseError::UnexpectedEof { line, col, expected }
    }
}

/// Why a grammar cannot be compiled.
#[derive(Debug)]
pub enum GrammarError {
    Conflict { report: String },
    Other { msg: String },
}

/// What a recovery handler asks the parser to do.
#[derive(Clone, Copy, PartialEq, Eq, Debug, Structural)]
pub enum RecoveryAction {
    /// Drop the token and go on.
    Delete,
    /// Go on after what the handler fed.
    Resume,
    /// Give up.
    Stop,
}

/// The outcome of a recovering parse: a tree where one was reached, and every
/// error met on the way.
pub struct RecoveredTree {
    pub tree: Option<ParseTree>,
    pub errors: Vec<ParseError>,
}

} // verus!
