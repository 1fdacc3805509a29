//! Significant indentation: a pass between lexer and parser that turns the
//! whitespace after newlines into tokens that open and close blocks.

use vstd::prelude::*;
use crate::error;
use crate::error::{GrammarError, ParseError};
use crate::lexer;
use crate::scanner;
use crate::symbols;
use crate::symbols::{SymbolId, SymbolTable};
use crate::text;
use crate::text::{chars_of, copy_names, owned, push_decimal, same_text};
use crate::tree;
use crate::tree::Token;

verus! {

/// How `{:?}` shows a text.
pub uninterp spec fn quoted(s: Seq<char>) -> Seq<char>;

/// `{:?}` of `std::fmt` shows a text as a string literal: within quotes, with
/// what needs it escaped.
#[verifier::external_body]
pub(crate) fn quote(s: &str) -> (r: String)
    ensures
        r@ == quoted(s@),
{
    format!("{s:?}")
}

/// Turns indentation into tokens.
#[derive(Debug)]
pub struct Indenter {
    /// The newline terminal, whose trailing whitespace measures indentation.
    pub nl_type: String,
    /// Brackets inside which indentation means nothing.
    pub open_paren_types: Vec<String>,
    pub close_paren_types: Vec<String>,
    /// The declared terminals that open and close a block.
    pub indent_type: String,
    pub dedent_type: String,
    /// How many columns a tab counts for.
    pub tab_len: usize,
}

/// The mathematical content of an indenter.
pub ghost struct IndenterModel {
    pub nl_type: Seq<char>,
    pub open: Seq<Seq<char>>,
    pub close: Seq<Seq<char>>,
    pub indent_type: Seq<char>,
    pub dedent_type: Seq<char>,
    pub tab_len: usize,
}

impl View for Indenter {
    type V = IndenterModel;

    open spec fn view(&self) -> IndenterModel {
        IndenterModel {
            nl_type: self.nl_type@,
            open: text::texts(self.open_paren_types@),
            close: text::texts(self.close_paren_types@),
            indent_type: self.indent_type@,
            dedent_type: self.dedent_type@,
            tab_len: self.tab_len,
        }
    }
}

/// The names that a grammar in the manner of Python uses.
pub open spec fn python_indenter() -> IndenterModel {
    IndenterModel {
        nl_type: "_NEWLINE"@,
        open: seq!["LPAR"@, "LSQB"@, "LBRACE"@],
        close: seq!["RPAR"@, "RSQB"@, "RBRACE"@],
        indent_type: "_INDENT"@,
        dedent_type: "_DEDENT"@,
        tab_len: 8,
    }
}

impl Default for Indenter {
    fn default() -> (r: Self)
        ensures
            r@ == python_indenter(),
    {
        let mut open: Vec<String> = Vec::new();
        open.push(owned("LPAR"));
        open.push(owned("LSQB"));
        open.push(owned("LBRACE"));
        let mut close: Vec<String> = Vec::new();
        close.push(owned("RPAR"));
        close.push(owned("RSQB"));
        close.push(owned("RBRACE"));
        proof {
            assert(text::texts(open@) =~= seq!["LPAR"@, "LSQB"@, "LBRACE"@]);
            assert(text::texts(close@) =~= seq!["RPAR"@, "RSQB"@, "RBRACE"@]);
        }
        Indenter {
            nl_type: owned("_NEWLINE"),
            open_paren_types: open,
            close_paren_types: close,
            indent_type: owned("_INDENT"),
            dedent_type: owned("_DEDENT"),
            tab_len: 8,
        }
    }
}

// ---------------------------------------------------------------------------
// Model

/// Where a token stands.
#[derive(Clone, Copy, PartialEq, Eq, Debug, Structural)]
pub struct Pos {
    pub line: usize,
    pub column: usize,
    pub end_line: usize,
    pub end_column: usize,
    pub start_pos: usize,
    pub end_pos: usize,
}

/// Where a token stands.
pub open spec fn pos_of(t: tree::TokenModel) -> Pos {
    Pos {
        line: t.line,
        column: t.column,
        end_line: t.end_line,
        end_column: t.end_column,
        start_pos: t.start_pos,
        end_pos: t.end_pos,
    }
}

/// A token that stands for a change of indentation, where another stands.
pub open spec fn made_token(
    id: SymbolId,
    name: Seq<char>,
    value: Seq<char>,
    pos: Option<Pos>,
) -> tree::TokenModel {
    let bare = tree::bare_token(id, name, value);
    match pos {
        Some(p) => tree::TokenModel {
            line: p.line,
            column: p.column,
            end_line: p.end_line,
            end_column: p.end_column,
            start_pos: p.start_pos,
            end_pos: p.end_pos,
            ..bare
        },
        None => bare,
    }
}

/// The text after the last newline.
pub open spec fn last_line(s: Seq<char>) -> Seq<char>
    decreases s.len(),
{
    if s.len() == 0 {
        s
    } else if s.last() == '\n' {
        Seq::empty()
    } else {
        last_line(s.drop_last()).push(s.last())
    }
}

/// How far a text indents: a space by one column, a tab by `tab_len`.
pub open spec fn indentation(s: Seq<char>, tab_len: usize) -> usize
    decreases s.len(),
{
    if s.len() == 0 {
        0
    } else {
        let before = indentation(s.drop_last(), tab_len);
        if s.last() == ' ' {
            lexer::up(before, 1)
        } else if s.last() == '\t' {
            lexer::up(before, tab_len)
        } else {
            before
        }
    }
}

/// The indenter at work: how deep in brackets, the open levels of indentation,
/// where the last token stood, and the tokens that are ready.
pub ghost struct IndentState {
    pub paren: usize,
    pub stack: Seq<usize>,
    pub last: Option<Pos>,
    pub out: Seq<tree::TokenModel>,
}

/// The indenter at the beginning.
pub open spec fn indent_start() -> IndentState {
    IndentState { paren: 0, stack: seq![0usize], last: None, out: Seq::empty() }
}

/// The names and ids that an indenter works with.
pub ghost struct IndentContext {
    pub cfg: IndenterModel,
    pub indent_id: SymbolId,
    pub dedent_id: SymbolId,
}

/// The state with the levels deeper than `indent` closed.
pub open spec fn closed_to(
    c: IndentContext,
    st: IndentState,
    indent: usize,
    value: Seq<char>,
    pos: Option<Pos>,
) -> IndentState
    decreases st.stack.len(),
{
    if st.stack.len() == 0 || indent >= st.stack.last() {
        st
    } else {
        closed_to(
            c,
            IndentState {
                stack: st.stack.drop_last(),
                out: st.out.push(made_token(c.dedent_id, c.cfg.dedent_type, value, pos)),
                ..st
            },
            indent,
            value,
            pos,
        )
    }
}

/// The report of a dedent to a column that no block began at.
pub open spec fn dedent_error(indent: usize, top: usize) -> error::ErrorModel {
    error::ErrorModel::Postlex {
        msg: "Unexpected dedent to column "@ + text::decimal_text(indent as nat)
            + ". Expected dedent to "@ + text::decimal_text(top as nat),
    }
}

/// The report of a closing bracket that closes none.
pub open spec fn unbalanced_error(t: tree::TokenModel) -> error::ErrorModel {
    error::ErrorModel::Postlex {
        msg: "unbalanced closing bracket at line "@ + text::decimal_text(t.line as nat)
            + ", column "@ + text::decimal_text(t.column as nat),
    }
}

/// What a newline does.
pub open spec fn newline_taken(c: IndentContext, st: IndentState, t: tree::TokenModel) -> (
    IndentState,
    Option<error::ErrorModel>,
) {
    if st.paren > 0 {
        (st, None)
    } else {
        let shown = IndentState { out: st.out.push(t), ..st };
        let line = last_line(t.value);
        let indent = indentation(line, c.cfg.tab_len);
        let pos = Some(pos_of(t));
        if indent > st.stack.last() {
            (
                IndentState {
                    stack: st.stack.push(indent),
                    out: shown.out.push(
                        made_token(c.indent_id, c.cfg.indent_type, line, pos),
                    ),
                    ..st
                },
                None,
            )
        } else {
            let after = closed_to(c, shown, indent, line, pos);
            (
                after,
                if indent != after.stack.last() {
                    Some(dedent_error(indent, after.stack.last()))
                } else {
                    None
                },
            )
        }
    }
}

/// What a token does.
pub open spec fn token_taken(c: IndentContext, st: IndentState, t: tree::TokenModel) -> (
    IndentState,
    Option<error::ErrorModel>,
) {
    let seen = IndentState { last: Some(pos_of(t)), ..st };
    let (next, err) = if t.type_ == c.cfg.nl_type {
        newline_taken(c, seen, t)
    } else {
        (IndentState { out: seen.out.push(t), ..seen }, None)
    };
    if err is Some {
        (next, err)
    } else if c.cfg.open.contains(t.type_) {
        (IndentState { paren: lexer::up(next.paren, 1), ..next }, None)
    } else if c.cfg.close.contains(t.type_) {
        if next.paren == 0 {
            (next, Some(unbalanced_error(t)))
        } else {
            (IndentState { paren: (next.paren - 1) as usize, ..next }, None)
        }
    } else {
        (next, None)
    }
}

/// The state with all blocks closed.
pub open spec fn all_closed(c: IndentContext, st: IndentState) -> IndentState
    decreases st.stack.len(),
{
    if st.stack.len() <= 1 {
        st
    } else {
        all_closed(
            c,
            IndentState {
                stack: st.stack.drop_last(),
                out: st.out.push(
                    made_token(c.dedent_id, c.cfg.dedent_type, Seq::empty(), st.last),
                ),
                ..st
            },
        )
    }
}

/// What the tokens from `i` on do, up to the end of input.
pub open spec fn tokens_taken(
    c: IndentContext,
    st: IndentState,
    tokens: Seq<tree::TokenModel>,
    i: int,
) -> Result<Seq<tree::TokenModel>, error::ErrorModel>
    decreases tokens.len() - i,
{
    if i < 0 || i >= tokens.len() {
        Ok(all_closed(c, st).out.push(tree::end_token()))
    } else if tokens[i].type_id == SymbolId::end() {
        Ok(all_closed(c, st).out.push(tokens[i]))
    } else {
        match token_taken(c, st, tokens[i]) {
            (_, Some(e)) => Err(e),
            (next, None) => tokens_taken(c, next, tokens, i + 1),
        }
    }
}

/// The report of a terminal that the grammar does not declare.
pub open spec fn undeclared(name: Seq<char>) -> error::ErrorModel {
    error::ErrorModel::Postlex {
        msg: "Indenter terminal "@ + quoted(name)
            + " is not declared in the grammar (add `%declare "@ + name + "`)"@,
    }
}

/// The names of an indenter in a grammar, or the first that is not declared.
pub open spec fn context_in(cfg: IndenterModel, infos: Seq<symbols::SymbolInfo>) -> Result<
    IndentContext,
    error::ErrorModel,
> {
    match (symbols::id_of(infos, cfg.indent_type), symbols::id_of(infos, cfg.dedent_type)) {
        (None, _) => Err(undeclared(cfg.indent_type)),
        (_, None) => Err(undeclared(cfg.dedent_type)),
        (Some(a), Some(b)) => Ok(IndentContext { cfg, indent_id: a, dedent_id: b }),
    }
}

/// The tokens with indentation turned into tokens.
pub open spec fn indented(
    cfg: IndenterModel,
    infos: Seq<symbols::SymbolInfo>,
    tokens: Seq<tree::TokenModel>,
) -> Result<Seq<tree::TokenModel>, error::ErrorModel> {
    match context_in(cfg, infos) {
        Ok(c) => tokens_taken(c, indent_start(), tokens, 0),
        Err(e) => Err(e),
    }
}

// ---------------------------------------------------------------------------
// Execution

fn has_name(names: &Vec<String>, name: &String) -> (r: bool)
    ensures
        r == text::texts(names@).contains(name@),
{
    let mut i: usize = 0;
    while i < names.len()
        invariant
            i <= names@.len(),
            forall|k: int| 0 <= k < i ==> (#[trigger] names@[k])@ != name@,
        decreases names.len() - i,
    {
        if same_text(&names[i], name.as_str()) {
            proof {
                assert(text::texts(names@)[i as int] == name@);
            }
            return true;
        }
        i = i + 1;
    }
    proof {
        if text::texts(names@).contains(name@) {
            let k = choose|k: int|
                0 <= k < text::texts(names@).len() && text::texts(names@)[k] == name@;
            assert(names@[k]@ == name@);
        }
    }
    false
}

fn make_token(id: SymbolId, name: &str, value: &str, pos: Option<Pos>) -> (r: Token)
    ensures
        r@ == made_token(id, name@, value@, pos),
{
    let mut t = Token::new(name, value);
    t.type_id = id;
    if let Some(p) = pos {
        t.line = p.line;
        t.column = p.column;
        t.end_line = p.end_line;
        t.end_column = p.end_column;
        t.start_pos = p.start_pos;
        t.end_pos = p.end_pos;
    }
    t
}

fn after_newline(s: &str) -> (r: String)
    ensures
        r@ == last_line(s@),
{
    let chars = chars_of(s);
    let mut r = String::new();
    let mut i: usize = 0;
    proof {
        assert(s@.take(0) =~= Seq::empty());
        assert(r@ =~= Seq::empty());
    }
    while i < chars.len()
        invariant
            i <= chars@.len(),
            chars@ == s@,
            r@ == last_line(s@.take(i as int)),
        decreases chars.len() - i,
    {
        proof {
            assert(s@.take(i + 1).drop_last() =~= s@.take(i as int));
            assert(s@.take(i + 1).last() == chars@[i as int]);
        }
        if chars[i] == '\n' {
            r = String::new();
            proof {
                assert(r@ =~= Seq::empty());
            }
        } else {
            r.push(chars[i]);
        }
        i = i + 1;
    }
    proof {
        assert(s@.take(s@.len() as int) =~= s@);
    }
    r
}

fn sum_up(n: usize, by: usize) -> (r: usize)
    ensures
        r == lexer::up(n, by),
{
    if n > usize::MAX - by {
        usize::MAX
    } else {
        n + by
    }
}

fn measure(s: &str, tab_len: usize) -> (r: usize)
    ensures
        r == indentation(s@, tab_len),
{
    let chars = chars_of(s);
    let mut n: usize = 0;
    let mut i: usize = 0;
    proof {
        assert(s@.take(0) =~= Seq::empty());
    }
    while i < chars.len()
        invariant
            i <= chars@.len(),
            chars@ == s@,
            n == indentation(s@.take(i as int), tab_len),
        decreases chars.len() - i,
    {
        proof {
            assert(s@.take(i + 1).drop_last() =~= s@.take(i as int));
            assert(s@.take(i + 1).last() == chars@[i as int]);
        }
        if chars[i] == ' ' {
            n = sum_up(n, 1);
        } else if chars[i] == '\t' {
            n = sum_up(n, tab_len);
        }
        i = i + 1;
    }
    proof {
        assert(s@.take(s@.len() as int) =~= s@);
    }
    n
}

/// An indenter at work.
pub struct IndenterStream<'a> {
    cfg: &'a Indenter,
    indent_id: SymbolId,
    dedent_id: SymbolId,
    paren_level: usize,
    indent_stack: Vec<usize>,
    last_pos: Option<Pos>,
    out: Vec<Token>,
}

/// The content of an optional report.
pub open spec fn opt_error(r: Result<(), ParseError>) -> Option<error::ErrorModel> {
    match r {
        Ok(_) => None,
        Err(e) => Some(e@),
    }
}

impl<'a> IndenterStream<'a> {
    /// The names and ids that the stream works with.
    pub closed spec fn context(&self) -> IndentContext {
        IndentContext { cfg: self.cfg@, indent_id: self.indent_id, dedent_id: self.dedent_id }
    }

    /// The state of the stream.
    pub closed spec fn state(&self) -> IndentState {
        IndentState {
            paren: self.paren_level,
            stack: self.indent_stack@,
            last: self.last_pos,
            out: tree::token_models(self.out@),
        }
    }

    /// Whether the levels of indentation begin with the outermost.
    pub open spec fn wf(&self) -> bool {
        self.state().stack.len() > 0 && self.state().stack[0] == 0
    }

    /// A stream at its beginning.
    pub(crate) fn new(cfg: &'a Indenter, symbols: &SymbolTable) -> (r: Result<Self, ParseError>)
        requires
            symbols@.len() <= symbols::UNSET_ID,
        ensures
            match r {
                Ok(s) => s.wf() && context_in(cfg@, symbols@) == Ok::<
                    IndentContext,
                    error::ErrorModel,
                >(s.context()) && s.state() == indent_start(),
                Err(e) => context_in(cfg@, symbols@) == Err::<IndentContext, error::ErrorModel>(
                    e@,
                ),
            },
    {
        let indent_id = match declared_id(symbols, &cfg.indent_type) {
            Ok(id) => id,
            Err(e) => {
                return Err(e);
            },
        };
        let dedent_id = match declared_id(symbols, &cfg.dedent_type) {
            Ok(id) => id,
            Err(e) => {
                return Err(e);
            },
        };
        let mut indent_stack: Vec<usize> = Vec::new();
        indent_stack.push(0);
        let r = IndenterStream {
            cfg,
            indent_id,
            dedent_id,
            paren_level: 0,
            indent_stack,
            last_pos: None,
            out: Vec::new(),
        };
        proof {
            assert(r.state().stack =~= seq![0usize]);
            assert(r.state().out =~= Seq::empty());
        }
        Ok(r)
    }

    fn close_to(&mut self, indent: usize, value: &str, pos: Option<Pos>)
        requires
            old(self).wf(),
        ensures
            final(self).wf(),
            final(self).context() == old(self).context(),
            final(self).state() == closed_to(
                old(self).context(),
                old(self).state(),
                indent,
                value@,
                pos,
            ),
    {
        let ghost c = self.context();
        let ghost want = closed_to(c, self.state(), indent, value@, pos);
        while indent < self.indent_stack[self.indent_stack.len() - 1]
            invariant
                self.wf(),
                c == self.context(),
                c == old(self).context(),
                want == closed_to(c, self.state(), indent, value@, pos),
            decreases self.indent_stack.len(),
        {
            let ghost before = self.state();
            let n: usize = self.indent_stack.len();
            self.indent_stack.truncate(n - 1);
            self.out.push(make_token(self.dedent_id, self.cfg.dedent_type.as_str(), value, pos));
            proof {
                assert(self.state().stack =~= before.stack.drop_last());
                assert(self.state().out =~= before.out.push(
                    made_token(c.dedent_id, c.cfg.dedent_type, value@, pos),
                ));
                assert(n > 1);
            }
        }
    }

    fn handle_newline(&mut self, token: &Token) -> (r: Result<(), ParseError>)
        requires
            old(self).wf(),
        ensures
            final(self).wf(),
            final(self).context() == old(self).context(),
            (final(self).state(), opt_error(r)) == newline_taken(
                old(self).context(),
                old(self).state(),
                token@,
            ),
    {
        if self.paren_level > 0 {
            return Ok(());
        }
        let ghost c = self.context();
        let ghost first = self.state();
        self.out.push(token.copy());
        let line = after_newline(token.value.as_str());
        let indent: usize = measure(line.as_str(), self.cfg.tab_len);
        let pos = Some(place_of(token));
        proof {
            assert(self.state().out =~= first.out.push(token@));
        }
        if indent > self.indent_stack[self.indent_stack.len() - 1] {
            let ghost shown = self.state();
            self.indent_stack.push(indent);
            self.out.push(
                make_token(
                    self.indent_id,
                    self.cfg.indent_type.as_str(),
                    line.as_str(),
                    pos,
                ),
            );
            proof {
                assert(self.state().out =~= shown.out.push(
                    made_token(c.indent_id, c.cfg.indent_type, line@, pos),
                ));
            }
            return Ok(());
        }
        self.close_to(indent, line.as_str(), pos);
        let top: usize = self.indent_stack[self.indent_stack.len() - 1];
        if indent != top {
            let mut msg = owned("Unexpected dedent to column ");
            push_decimal(&mut msg, indent);
            msg.append(". Expected dedent to ");
            push_decimal(&mut msg, top);
            return Err(ParseError::Postlex { msg });
        }
        Ok(())
    }

    /// Takes one token that is not the end of input.
    pub(crate) fn feed(&mut self, tok: Token) -> (r: Result<(), ParseError>)
        requires
            old(self).wf(),
        ensures
            final(self).wf(),
            final(self).context() == old(self).context(),
            (final(self).state(), opt_error(r)) == token_taken(
                old(self).context(),
                old(self).state(),
                tok@,
            ),
    {
        let ghost c = self.context();
        let line: usize = tok.line;
        let column: usize = tok.column;
        self.last_pos = Some(place_of(&tok));
        let opens = has_name(&self.cfg.open_paren_types, &tok.type_);
        let closes = has_name(&self.cfg.close_paren_types, &tok.type_);
        if same_text(&self.cfg.nl_type, tok.type_.as_str()) {
            match self.handle_newline(&tok) {
                Ok(_) => {},
                Err(e) => {
                    return Err(e);
                },
            }
        } else {
            let ghost before = self.state();
            let ghost t = tok@;
            self.out.push(tok);
            proof {
                assert(self.state().out =~= before.out.push(t));
            }
        }
        if opens {
            self.paren_level = sum_up(self.paren_level, 1);
        } else if closes {
            if self.paren_level == 0 {
                let mut msg = owned("unbalanced closing bracket at line ");
                push_decimal(&mut msg, line);
                msg.append(", column ");
                push_decimal(&mut msg, column);
                return Err(ParseError::Postlex { msg });
            }
            self.paren_level = self.paren_level - 1;
        }
        Ok(())
    }

    /// Closes all blocks.
    pub(crate) fn finish(&mut self)
        requires
            old(self).wf(),
        ensures
            final(self).wf(),
            final(self).context() == old(self).context(),
            final(self).state() == all_closed(old(self).context(), old(self).state()),
    {
        let ghost c = self.context();
        let ghost want = all_closed(c, self.state());
        while self.indent_stack.len() > 1
            invariant
                self.wf(),
                c == self.context(),
                c == old(self).context(),
                want == all_closed(c, self.state()),
            decreases self.indent_stack.len(),
        {
            let ghost before = self.state();
            let n: usize = self.indent_stack.len();
            self.indent_stack.truncate(n - 1);
            let none = String::new();
            self.out.push(
                make_token(
                    self.dedent_id,
                    self.cfg.dedent_type.as_str(),
                    none.as_str(),
                    self.last_pos,
                ),
            );
            proof {
                assert(none@ =~= Seq::empty());
                assert(self.state().stack =~= before.stack.drop_last());
                assert(self.state().out =~= before.out.push(
                    made_token(c.dedent_id, c.cfg.dedent_type, Seq::empty(), before.last),
                ));
            }
        }
    }

    /// Takes the next token that is ready.
    pub(crate) fn pop(&mut self) -> (r: Option<Token>)
        requires
            old(self).wf(),
        ensures
            final(self).wf(),
            final(self).context() == old(self).context(),
            match r {
                Some(t) => old(self).state().out.len() > 0 && t@ == old(self).state().out[0]
                    && final(self).state() == (IndentState {
                    out: old(self).state().out.drop_first(),
                    ..old(self).state()
                }),
                None => old(self).state().out.len() == 0 && final(self).state() == old(
                    self,
                ).state(),
            },
    {
        if self.out.len() == 0 {
            return None;
        }
        let ghost before = self.state();
        let t = self.out.remove(0);
        proof {
            assert(t@ == before.out[0]);
            assert(self.state().out =~= before.out.drop_first());
        }
        Some(t)
    }

    /// Begins anew.
    pub(crate) fn reset(&mut self)
        requires
            old(self).wf(),
        ensures
            final(self).wf(),
            final(self).context() == old(self).context(),
            final(self).state() == indent_start(),
    {
        let mut indent_stack: Vec<usize> = Vec::new();
        indent_stack.push(0);
        self.paren_level = 0;
        self.indent_stack = indent_stack;
        self.last_pos = None;
        self.out = Vec::new();
        proof {
            assert(self.state().stack =~= seq![0usize]);
            assert(self.state().out =~= Seq::empty());
        }
    }

    fn into_tokens(self) -> (r: Vec<Token>)
        ensures
            tree::token_models(r@) == self.state().out,
    {
        self.out
    }
}

fn place_of(t: &Token) -> (r: Pos)
    ensures
        r == pos_of(t@),
{
    Pos {
        line: t.line,
        column: t.column,
        end_line: t.end_line,
        end_column: t.end_column,
        start_pos: t.start_pos,
        end_pos: t.end_pos,
    }
}

fn declared_id(symbols: &SymbolTable, name: &String) -> (r: Result<SymbolId, ParseError>)
    requires
        symbols@.len() <= symbols::UNSET_ID,
    ensures
        match r {
            Ok(id) => symbols::id_of(symbols@, name@) == Some(id),
            Err(e) => symbols::id_of(symbols@, name@) is None && e@ == undeclared(name@),
        },
{
    match symbols.id(name.as_str()) {
        Some(id) => Ok(id),
        None => {
            let mut msg = owned("Indenter terminal ");
            let q = quote(name.as_str());
            msg.append(q.as_str());
            msg.append(" is not declared in the grammar (add `%declare ");
            msg.append(name.as_str());
            msg.append("`)");
            Err(ParseError::Postlex { msg })
        },
    }
}

/// The report of a newline terminal that is not in the grammar.
pub open spec fn no_newline_message(name: Seq<char>) -> Seq<char> {
    "postlex Indenter nl_type "@ + quoted(name)
        + " is not a terminal in the grammar — the Indenter measures indentation off it"@
}

/// The report of an indentation terminal that is not in the grammar.
pub open spec fn not_declared_message(label: Seq<char>, name: Seq<char>) -> Seq<char> {
    "postlex Indenter "@ + label + " "@ + quoted(name)
        + " is not declared in the grammar (add `%declare "@ + name + "`)"@
}

fn not_declared(label: &str, name: &String) -> (r: GrammarError)
    ensures
        scanner::reports(r, not_declared_message(label@, name@)),
{
    let mut msg = owned("postlex Indenter ");
    msg.append(label);
    msg.append(" ");
    let q = quote(name.as_str());
    msg.append(q.as_str());
    msg.append(" is not declared in the grammar (add `%declare ");
    msg.append(name.as_str());
    msg.append("`)");
    GrammarError::Other { msg }
}

/// Why the names of an indenter do not fit a grammar: the first that is not in
/// it.
pub open spec fn misfit(cfg: IndenterModel, infos: Seq<symbols::SymbolInfo>) -> Option<Seq<char>> {
    if symbols::id_of(infos, cfg.nl_type) is None {
        Some(no_newline_message(cfg.nl_type))
    } else if symbols::id_of(infos, cfg.indent_type) is None {
        Some(not_declared_message("indent_type"@, cfg.indent_type))
    } else if symbols::id_of(infos, cfg.dedent_type) is None {
        Some(not_declared_message("dedent_type"@, cfg.dedent_type))
    } else {
        None
    }
}

impl Indenter {
    /// A copy.
    pub fn copy(&self) -> (r: Indenter)
        ensures
            r@ == self@,
    {
        Indenter {
            nl_type: self.nl_type.clone(),
            open_paren_types: copy_names(&self.open_paren_types),
            close_paren_types: copy_names(&self.close_paren_types),
            indent_type: self.indent_type.clone(),
            dedent_type: self.dedent_type.clone(),
            tab_len: self.tab_len,
        }
    }

    /// Checks that the newline terminal and the two declared terminals are
    /// symbols of the grammar. Bracket names need not be.
    pub fn validate(&self, symbols: &SymbolTable) -> (r: Result<(), GrammarError>)
        requires
            symbols@.len() <= symbols::UNSET_ID,
        ensures
            match r {
                Ok(_) => misfit(self@, symbols@) is None,
                Err(e) => misfit(self@, symbols@) matches Some(msg) && scanner::reports(e, msg),
            },
    {
        if symbols.id(self.nl_type.as_str()).is_none() {
            let mut msg = owned("postlex Indenter nl_type ");
            let q = quote(self.nl_type.as_str());
            msg.append(q.as_str());
            msg.append(
                " is not a terminal in the grammar — the Indenter measures indentation off it",
            );
            return Err(GrammarError::Other { msg });
        }
        if symbols.id(self.indent_type.as_str()).is_none() {
            return Err(not_declared("indent_type", &self.indent_type));
        }
        if symbols.id(self.dedent_type.as_str()).is_none() {
            return Err(not_declared("dedent_type", &self.dedent_type));
        }
        Ok(())
    }

    /// Turns the indentation of a list of tokens into tokens. What follows the
    /// end of input is left out.
    pub fn process(&self, tokens: Vec<Token>, symbols: &SymbolTable) -> (r: Result<
        Vec<Token>,
        ParseError,
    >)
        requires
            symbols@.len() <= symbols::UNSET_ID,
        ensures
            lexer::lex_result(r) == indented(self@, symbols@, tree::token_models(tokens@)),
    {
        let mut stream = match IndenterStream::new(self, symbols) {
            Ok(s) => s,
            Err(e) => {
                return Err(e);
            },
        };
        let ghost c = stream.context();
        let ghost models = tree::token_models(tokens@);
        let ghost want = tokens_taken(c, indent_start(), models, 0);
        let mut end = Token::end();
        let mut i: usize = 0;
        while i < tokens.len()
            invariant_except_break
                end@ == tree::end_token(),
                want == tokens_taken(c, stream.state(), models, i as int),
            invariant
                i <= tokens@.len(),
                stream.wf(),
                stream.context() == c,
                models == tree::token_models(tokens@),
                want == indented(self@, symbols@, models),
            ensures
                want == Ok::<Seq<tree::TokenModel>, error::ErrorModel>(
                    all_closed(c, stream.state()).out.push(end@),
                ),
            decreases tokens.len() - i,
        {
            proof {
                assert(models[i as int] == tokens@[i as int]@);
            }
            if tokens[i].type_id == SymbolId::end() {
                end = tokens[i].copy();
                break;
            }
            match stream.feed(tokens[i].copy()) {
                Ok(_) => {},
                Err(e) => {
                    return Err(e);
                },
            }
            i = i + 1;
        }
        stream.finish();
        let ghost before = stream.state().out;
        let ghost last = end@;
        let mut out = stream.into_tokens();
        out.push(end);
        proof {
            assert(tree::token_models(out@) =~= before.push(last));
        }
        Ok(out)
    }
}

} // verus!
