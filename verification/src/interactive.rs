//! A parse that is driven from outside: tokens are fed one at a time, and what
//! the parser would take next can be asked at any point.

use vstd::prelude::*;
use crate::error;
use crate::error::ParseError;
use crate::lalr;
use crate::lalr::LalrParser;
use crate::lalr_stack;
use crate::lalr_stack::{Feed, ParserStack};
use crate::lalr_table::{Action, ParseTable};
use crate::lex_sources;
use crate::lex_sources::LexerKind;
use crate::lexer;
use crate::lexer::{end_token_at, BasicLexer, ContextualLexer, Place};
use crate::postlex;
use crate::postlex::quote;
use crate::recovery;
use crate::symbols;
use crate::symbols::SymbolId;
use crate::text;
use crate::text::{chars_of, owned, push_decimal};
use crate::tree;
use crate::tree::{ParseTree, Token};
use crate::tree_builder;

verus! {

// ---------------------------------------------------------------------------
// Model

/// The mathematical content of a driven parse.
pub ghost struct DrivenModel {
    pub table: ParseTable,
    pub lexer: lex_sources::KindModel,
    pub states: Seq<usize>,
    pub values: Seq<tree_builder::SlotModel>,
    pub text: Seq<char>,
    pub place: Place,
    /// The tree, once the end of input has completed it.
    pub result: Option<tree::Node>,
}

/// The names of the terminals that would be taken; none once the parse is
/// finished.
pub open spec fn acceptable(m: DrivenModel) -> Seq<Seq<char>> {
    if m.result is Some {
        Seq::empty()
    } else {
        lalr_stack::accepted_names(m.table, m.states)
    }
}

/// What feeding a token does. The name of its type decides; its number does
/// not. After an error in completing the tree the parse stays where it was.
pub open spec fn driven(m: DrivenModel, tok: tree::TokenModel) -> (
    DrivenModel,
    Result<Option<tree::Node>, error::ErrorModel>,
) {
    if m.result is Some {
        (m, Err(error::unexpected_token_model(tok, Seq::empty())))
    } else {
        match symbols::id_of(m.table.symbols@, tok.type_) {
            None => (m, Err(error::unexpected_token_keep_end_model(tok, acceptable(m)))),
            Some(id) => {
                let t = recovery::retyped(tok, id);
                let f = lalr_stack::fed(
                    m.table,
                    m.states,
                    m.values,
                    t,
                    lalr_stack::REDUCTION_LIMIT as nat,
                );
                let next = DrivenModel { states: f.states, values: f.values, ..m };
                match f.outcome {
                    lalr_stack::Outcome::Shifted => (next, Ok(None)),
                    lalr_stack::Outcome::Accepted(n) => (
                        DrivenModel { result: Some(n), ..next },
                        Ok(Some(n)),
                    ),
                    lalr_stack::Outcome::Error(e) => (m, Err(e)),
                    _ => (next, Err(lalr::unexpected_model(m.table, f.states.last() as int, t))),
                }
            },
        }
    }
}

/// What feeding the end of input does, where lexing stands.
pub open spec fn driven_end(m: DrivenModel) -> (
    DrivenModel,
    Result<Option<tree::Node>, error::ErrorModel>,
) {
    driven(m, lexer::end_at(m.place))
}

/// What feeding the rest of the text does, without the end of input: the tokens
/// that were fed, up to the first error.
pub open spec fn exhausted(m: DrivenModel, before: Seq<tree::TokenModel>) -> (
    DrivenModel,
    Result<Seq<tree::TokenModel>, error::ErrorModel>,
)
    decreases m.text.len() - m.place.pos,
{
    match lex_sources::next_of(m.lexer, m.states.last() as nat, m.text, m.place) {
        (p, Err(f)) => (DrivenModel { place: p, ..m }, Err(recovery::bad_character(f))),
        (p, Ok(t)) => if t.type_id == SymbolId::end() {
            (DrivenModel { place: p, ..m }, Ok(before))
        } else {
            let q = lexer::past(p, t.value);
            match driven(DrivenModel { place: q, ..m }, t) {
                (next, Err(e)) => (next, Err(e)),
                (next, Ok(_)) => if next.text == m.text && m.place.pos < next.place.pos
                    <= next.text.len() {
                    exhausted(next, before.push(t))
                } else {
                    (next, Ok(before.push(t)))
                },
            }
        },
    }
}

/// The result of feeding the rest of the text and the end of input.
pub open spec fn resumed(m: DrivenModel) -> Result<tree::Node, error::ErrorModel> {
    match exhausted(m, Seq::empty()) {
        (_, Err(e)) => Err(e),
        (next, Ok(_)) => match driven_end(next) {
            (_, Err(e)) => Err(e),
            (_, Ok(Some(n))) => Ok(n),
            (last, Ok(None)) => Err(
                error::unexpected_eof_model(last.place.line, last.place.col, Seq::empty()),
            ),
        },
    }
}

/// The texts, each as a string literal.
pub open spec fn all_quoted(names: Seq<Seq<char>>) -> Seq<Seq<char>> {
    Seq::new(names.len(), |i: int| postlex::quoted(names[i]))
}

/// A short rendering of where the parse stands.
pub open spec fn shown(m: DrivenModel) -> Seq<char> {
    "InteractiveParser(state "@ + text::decimal_text(m.states.last() as nat) + ", accepts ["@
        + text::joined(all_quoted(acceptable(m)), ", "@) + "])"@
}

// ---------------------------------------------------------------------------
// Execution

/// A parse that is driven from outside.
pub struct InteractiveParser<'a> {
    parser: &'a LalrParser,
    lexer: LexerKind<'a>,
    stack: ParserStack,
    chars: Vec<char>,
    place: Place,
    result: Option<ParseTree>,
}

/// The content of the tokens that were fed.
pub open spec fn fed_result(r: Result<Vec<Token>, ParseError>) -> Result<
    Seq<tree::TokenModel>,
    error::ErrorModel,
> {
    match r {
        Ok(ts) => Ok(tree::token_models(ts@)),
        Err(e) => Err(e@),
    }
}

/// The state of a parse at its beginning.
pub open spec fn driven_start(
    table: ParseTable,
    lexer: lex_sources::KindModel,
    first: usize,
    text: Seq<char>,
) -> DrivenModel {
    DrivenModel {
        table,
        lexer,
        states: seq![first],
        values: Seq::empty(),
        text,
        place: lexer::origin_place(),
        result: None,
    }
}

impl<'a> InteractiveParser<'a> {
    /// The content of the parse.
    pub closed spec fn model(&self) -> DrivenModel {
        DrivenModel {
            table: self.parser.table,
            lexer: self.lexer@,
            states: self.stack.state_stack@,
            values: self.stack.values(),
            text: self.chars@,
            place: self.place,
            result: recovery::opt_tree(self.result),
        }
    }

    /// Whether the stacks are those of a run of the table, and lexing stands
    /// within the text.
    pub closed spec fn wf(&self) -> bool {
        &&& self.stack.states_wf(self.parser.table)
        &&& self.result is None ==> self.stack.wf(self.parser.table)
        &&& self.place.pos <= self.chars@.len()
    }

    fn over(parser: &'a LalrParser, lexer: LexerKind<'a>, stack: ParserStack, text: &str) -> (r:
        Self)
        requires
            stack.wf(parser.table),
        ensures
            r.wf(),
            r.model() == (DrivenModel {
                table: parser.table,
                lexer: lexer@,
                states: stack.state_stack@,
                values: stack.values(),
                text: text@,
                place: lexer::origin_place(),
                result: None,
            }),
    {
        InteractiveParser {
            parser,
            lexer,
            stack,
            chars: chars_of(text),
            place: Place::origin(),
            result: None,
        }
    }

    /// A parse over a lexer that tries all terminals everywhere.
    pub(crate) fn new_basic(
        parser: &'a LalrParser,
        lexer: &'a BasicLexer,
        stack: ParserStack,
        text: &str,
    ) -> (r: Self)
        requires
            stack.wf(parser.table),
        ensures
            r.wf(),
            r.model() == (DrivenModel {
                table: parser.table,
                lexer: lex_sources::KindModel::Basic(lexer@),
                states: stack.state_stack@,
                values: stack.values(),
                text: text@,
                place: lexer::origin_place(),
                result: None,
            }),
    {
        InteractiveParser::over(parser, LexerKind::Basic(lexer), stack, text)
    }

    /// A parse over a lexer that tries what the parser state admits, and then
    /// all terminals.
    pub(crate) fn new_contextual(
        parser: &'a LalrParser,
        lexer: &'a ContextualLexer,
        stack: ParserStack,
        text: &str,
    ) -> (r: Self)
        requires
            stack.wf(parser.table),
        ensures
            r.wf(),
            r.model() == (DrivenModel {
                table: parser.table,
                lexer: lex_sources::KindModel::Contextual(lexer@),
                states: stack.state_stack@,
                values: stack.values(),
                text: text@,
                place: lexer::origin_place(),
                result: None,
            }),
    {
        InteractiveParser::over(parser, LexerKind::Contextual(lexer), stack, text)
    }

    /// Feeds a token by the name of its type. The tree is handed out once the
    /// end of input completes it.
    pub fn feed_token(&mut self, token: Token) -> (r: Result<Option<ParseTree>, ParseError>)
        requires
            old(self).wf(),
        ensures
            final(self).wf(),
            (final(self).model(), recovery::feed_result(r)) == driven(old(self).model(), token@),
    {
        let ghost tok = token@;
        if self.result.is_some() {
            let none: Vec<String> = Vec::new();
            proof {
                assert(text::texts(none@) =~= Seq::empty());
            }
            return Err(ParseError::unexpected_token(&token, none));
        }
        proof {
            let a = lalr_stack::automaton(self.parser.table);
            assert(self.parser.table.tabulates(a));
        }
        let mut token = token;
        match self.parser.table.symbols.id(token.type_.as_str()) {
            Some(id) => {
                token.type_id = id;
            },
            None => {
                let expected = self.accepts();
                return Err(ParseError::unexpected_token_keep_end(&token, expected));
            },
        }
        let snapshot = self.stack.copy();
        match self.stack.feed_token(&self.parser.table, &token) {
            Feed::Shifted => Ok(None),
            Feed::Accepted(t) => {
                let ret = t.copy();
                self.result = Some(t);
                Ok(Some(ret))
            },
            Feed::Error(e) => {
                self.stack = snapshot;
                Err(e)
            },
            _ => Err(self.parser.unexpected(self.stack.position(), &token)),
        }
    }

    /// Feeds a token of the given type and text.
    pub fn feed(&mut self, terminal: &str, value: &str) -> (r: Result<
        Option<ParseTree>,
        ParseError,
    >)
        requires
            old(self).wf(),
        ensures
            final(self).wf(),
            (final(self).model(), recovery::feed_result(r)) == driven(
                old(self).model(),
                tree::bare_token(SymbolId::unset(), terminal@, value@),
            ),
    {
        self.feed_token(Token::new(terminal, value))
    }

    /// The names of the terminals that the parser would take now, in ascending
    /// order.
    pub fn accepts(&self) -> (r: Vec<String>)
        requires
            self.wf(),
        ensures
            text::texts(r@) == acceptable(self.model()),
    {
        if self.result.is_some() {
            let none: Vec<String> = Vec::new();
            proof {
                assert(text::texts(none@) =~= Seq::empty());
            }
            return none;
        }
        self.stack.accepts(&self.parser.table)
    }

    /// Feeds the end of input, where lexing stands.
    pub fn feed_eof(&mut self) -> (r: Result<Option<ParseTree>, ParseError>)
        requires
            old(self).wf(),
        ensures
            final(self).wf(),
            (final(self).model(), recovery::feed_result(r)) == driven_end(old(self).model()),
    {
        let end = end_token_at(self.place);
        self.feed_token(end)
    }

    /// Lexes the rest of the text and feeds its tokens, without the end of
    /// input. Each token is lexed in the state in which it is met. The tokens are
    /// handed out in the order of the text, and once they are, there are no more:
    /// another call hands out none and changes nothing.
    pub fn exhaust_lexer(&mut self) -> (r: Result<Vec<Token>, ParseError>)
        requires
            old(self).wf(),
        ensures
            final(self).wf(),
            (final(self).model(), fed_result(r)) == exhausted(old(self).model(), Seq::empty()),
            r matches Ok(ts) ==> {
                let all = tree::token_models(ts@);
                &&& lexer::lie_in(old(self).model().text, all, final(self).model().place.pos as nat)
                &&& forall|i: int|
                    0 <= i < all.len() ==> old(self).model().place.pos <= (
                    #[trigger] all[i]).start_pos
                &&& exhausted(final(self).model(), Seq::empty()) == (
                    final(self).model(),
                    Ok::<Seq<tree::TokenModel>, error::ErrorModel>(Seq::empty()),
                )
            },
    {
        let ghost want = exhausted(self.model(), Seq::empty());
        let mut fed: Vec<Token> = Vec::new();
        proof {
            assert(tree::token_models(fed@) =~= Seq::empty());
        }
        loop
            invariant
                self.wf(),
                self.model().text == old(self).model().text,
                self.model().lexer == old(self).model().lexer,
                old(self).model().place.pos <= self.model().place.pos,
                want == exhausted(old(self).model(), Seq::empty()),
                want == exhausted(self.model(), tree::token_models(fed@)),
                lexer::lie_in(
                    self.model().text,
                    tree::token_models(fed@),
                    self.model().place.pos as nat,
                ),
                forall|i: int|
                    0 <= i < fed@.len() ==> old(self).model().place.pos <= (
                    #[trigger] tree::token_models(fed@)[i]).start_pos,
            decreases self.model().text.len() - self.model().place.pos,
        {
            let ghost m = self.model();
            let ghost done = tree::token_models(fed@);
            let state: usize = self.stack.position();
            let (p, r) = self.lexer.next(state, &self.chars, self.place);
            match r {
                Err(f) => {
                    self.place = p;
                    return Err(
                        ParseError::UnexpectedCharacter {
                            ch: f.ch,
                            line: f.line,
                            col: f.col,
                            pos: f.pos,
                            expected: owned("any token"),
                        },
                    );
                },
                Ok(t) => {
                    proof {
                        lexer::lemma_pulled_again(
                            lex_sources::plans_for(m.lexer, m.states.last() as nat),
                            lex_sources::kind_terminals(m.lexer),
                            lex_sources::kind_ignore(m.lexer),
                            m.text,
                            m.place,
                        );
                    }
                    if t.type_id == SymbolId::end() {
                        self.place = p;
                        return Ok(fed);
                    }
                    proof {
                        lexer::past_counts(p, t@.value);
                    }
                    self.place = p.walk(t.value.as_str());
                    let echo = t.copy();
                    match self.feed_token(t) {
                        Ok(_) => {},
                        Err(e) => {
                            return Err(e);
                        },
                    }
                    let ghost e = echo@;
                    fed.push(echo);
                    proof {
                        assert(tree::token_models(fed@) =~= done.push(e));
                    }
                },
            }
        }
    }

    /// Feeds the rest of the text and the end of input, and gives the tree.
    pub fn resume(self) -> (r: Result<ParseTree, ParseError>)
        requires
            self.wf(),
        ensures
            lalr::parsed(r) == resumed(self.model()),
    {
        let mut p = self;
        match p.exhaust_lexer() {
            Ok(_) => {},
            Err(e) => {
                return Err(e);
            },
        }
        match p.feed_eof() {
            Ok(Some(t)) => Ok(t),
            Ok(None) => {
                let none: Vec<String> = Vec::new();
                proof {
                    assert(text::texts(none@) =~= Seq::empty());
                }
                Err(ParseError::unexpected_eof(p.place.line, p.place.col, none))
            },
            Err(e) => Err(e),
        }
    }

    /// A parse of its own from here on.
    pub fn fork(&self) -> (r: InteractiveParser<'a>)
        requires
            self.wf(),
        ensures
            r.wf(),
            r.model() == self.model(),
    {
        let result = match &self.result {
            Some(t) => Some(t.copy()),
            None => None,
        };
        let mut chars: Vec<char> = Vec::new();
        let mut i: usize = 0;
        while i < self.chars.len()
            invariant
                i <= self.chars@.len(),
                chars@ == self.chars@.take(i as int),
            decreases self.chars.len() - i,
        {
            chars.push(self.chars[i]);
            proof {
                assert(chars@ =~= self.chars@.take(i + 1));
            }
            i = i + 1;
        }
        proof {
            assert(self.chars@.take(self.chars@.len() as int) =~= self.chars@);
        }
        InteractiveParser {
            parser: self.parser,
            lexer: self.lexer,
            stack: self.stack.copy(),
            chars,
            place: self.place,
            result,
        }
    }

    /// The tree, once the end of input has completed it.
    pub fn result(&self) -> (r: Option<&ParseTree>)
        ensures
            match r {
                Some(t) => self.model().result == Some(t@),
                None => self.model().result is None,
            },
    {
        match &self.result {
            Some(t) => Some(t),
            None => None,
        }
    }

    /// A short rendering of where the parse stands.
    pub fn pretty(&self) -> (r: String)
        requires
            self.wf(),
        ensures
            r@ == shown(self.model()),
    {
        let names = self.accepts();
        let mut parts: Vec<String> = Vec::new();
        let mut i: usize = 0;
        while i < names.len()
            invariant
                i <= names@.len(),
                parts@.len() == i,
                forall|k: int|
                    0 <= k < i ==> (#[trigger] parts@[k])@ == postlex::quoted(names@[k]@),
            decreases names.len() - i,
        {
            parts.push(quote(names[i].as_str()));
            i = i + 1;
        }
        proof {
            assert(text::texts(parts@) =~= all_quoted(text::texts(names@)));
        }
        let mut r = owned("InteractiveParser(state ");
        push_decimal(&mut r, self.stack.position());
        r.append(", accepts [");
        let list = text::join(&parts, ", ");
        r.append(list.as_str());
        r.append("])");
        r
    }
}

// ---------------------------------------------------------------------------
// Laws

pub(crate) proof fn lemma_insert_contains(s: Seq<Seq<char>>, x: Seq<char>, y: Seq<char>)
    ensures
        text::insert_text(s, x).contains(y) <==> s.contains(y) || x == y,
    decreases s.len(),
{
    let r = text::insert_text(s, x);
    if s.len() == 0 || text::text_le(s.last(), x) {
        assert(r =~= s.push(x));
        if s.contains(y) {
            let k = choose|k: int| 0 <= k < s.len() && s[k] == y;
            assert(r[k] == y);
        }
        assert(r[s.len() as int] == x);
    } else {
        let front = s.drop_last();
        let q = text::insert_text(front, x);
        lemma_insert_contains(front, x, y);
        assert(r =~= q.push(s.last()));
        assert(r[q.len() as int] == s.last());
        if q.contains(y) {
            let k = choose|k: int| 0 <= k < q.len() && q[k] == y;
            assert(r[k] == y);
        }
        if s.contains(y) {
            let k = choose|k: int| 0 <= k < s.len() && s[k] == y;
            if k < front.len() {
                assert(front[k] == y);
            }
        }
        if front.contains(y) {
            let k = choose|k: int| 0 <= k < front.len() && front[k] == y;
            assert(s[k] == y);
        }
        if r.contains(y) {
            let k = choose|k: int| 0 <= k < r.len() && r[k] == y;
            if k < q.len() {
                assert(q[k] == y);
            } else {
                assert(s[s.len() - 1] == y);
            }
        }
    }
}

pub(crate) proof fn lemma_sorted_contains(s: Seq<Seq<char>>, y: Seq<char>)
    ensures
        text::sorted_texts(s).contains(y) <==> s.contains(y),
    decreases s.len(),
{
    if s.len() > 0 {
        let front = s.drop_last();
        lemma_sorted_contains(front, y);
        lemma_insert_contains(text::sorted_texts(front), s.last(), y);
        if s.contains(y) {
            let k = choose|k: int| 0 <= k < s.len() && s[k] == y;
            if k < front.len() {
                assert(front[k] == y);
            }
        }
        if front.contains(y) {
            let k = choose|k: int| 0 <= k < front.len() && front[k] == y;
            assert(s[k] == y);
        }
        assert(s[s.len() - 1] == s.last());
    }
}

pub(crate) proof fn lemma_taken_contains(
    table: ParseTable,
    states: Seq<usize>,
    id: SymbolId,
    name: Seq<char>,
    n: nat,
)
    requires
        n <= u32::MAX,
        id.ix() < n,
        symbols::name_of(table.symbols@, id) == name,
        forall|t: SymbolId|
            t.ix() < n && #[trigger] symbols::name_of(table.symbols@, t) == name ==> t == id,
    ensures
        lalr_stack::taken_names(table, states, n).contains(name) <==> lalr_stack::would_take(
            table,
            states,
            id,
            lalr_stack::REDUCTION_LIMIT as nat,
        ),
    decreases n,
{
    let t = SymbolId((n - 1) as u32);
    let head = lalr_stack::taken_names(table, states, (n - 1) as nat);
    let all = lalr_stack::taken_names(table, states, n);
    if t == id {
        lemma_not_taken(table, states, id, name, (n - 1) as nat);
        if all.len() > head.len() {
            assert(all[head.len() as int] == name);
        }
        if all.contains(name) && all == head {
            assert(false);
        }
    } else {
        lemma_taken_contains(table, states, id, name, (n - 1) as nat);
        if head.contains(name) {
            let k = choose|k: int| 0 <= k < head.len() && head[k] == name;
            assert(all[k] == name);
        }
        if all.contains(name) {
            let k = choose|k: int| 0 <= k < all.len() && all[k] == name;
            if k < head.len() {
                assert(head[k] == name);
            } else {
                assert(symbols::name_of(table.symbols@, t) == name);
            }
        }
    }
}

proof fn lemma_not_taken(
    table: ParseTable,
    states: Seq<usize>,
    id: SymbolId,
    name: Seq<char>,
    n: nat,
)
    requires
        n <= id.ix(),
        n <= u32::MAX,
        forall|t: SymbolId|
            t.ix() < n && #[trigger] symbols::name_of(table.symbols@, t) == name ==> t == id,
    ensures
        !lalr_stack::taken_names(table, states, n).contains(name),
    decreases n,
{
    if n > 0 {
        lemma_not_taken(table, states, id, name, (n - 1) as nat);
        let t = SymbolId((n - 1) as u32);
        let head = lalr_stack::taken_names(table, states, (n - 1) as nat);
        let all = lalr_stack::taken_names(table, states, n);
        if all.contains(name) {
            let k = choose|k: int| 0 <= k < all.len() && all[k] == name;
            if k < head.len() {
                assert(head[k] == name);
            } else {
                assert(symbols::name_of(table.symbols@, t) == name);
            }
        }
    }
}

pub(crate) proof fn lemma_take_is_fed(
    table: ParseTable,
    states: Seq<usize>,
    values: Seq<tree_builder::SlotModel>,
    tok: tree::TokenModel,
    fuel: nat,
)
    ensures
        lalr_stack::would_take(table, states, tok.type_id, fuel) <==> {
            let o = lalr_stack::fed(table, states, values, tok, fuel).outcome;
            o is Shifted || o is Accepted || o is Error
        },
    decreases fuel,
{
    if fuel > 0 {
        if let Some(Action::Reduce(r)) = table.action_for(
            states.last() as int,
            tok.type_id,
        ) {
            if let Some(next) = lalr_stack::reduced_states(table, states, r as int) {
                lemma_take_is_fed(
                    table,
                    next,
                    lalr_stack::reduced_values(table, values, r as int),
                    tok,
                    (fuel - 1) as nat,
                );
            }
        }
    }
}

/// The terminals that are listed as acceptable are those that can be fed: a
/// token of a listed type is shifted or meets the end of the parse, one of any
/// other is refused.
pub proof fn accepts_is_exact(m: DrivenModel, id: SymbolId, tok: tree::TokenModel)
    requires
        m.result is None,
        symbols::id_of(m.table.symbols@, tok.type_) == Some(id),
        symbols::name_of(m.table.symbols@, id) == tok.type_,
        id.ix() < m.table.n_terminals <= u32::MAX,
        forall|t: SymbolId|
            t.ix() < m.table.n_terminals && #[trigger] symbols::name_of(m.table.symbols@, t)
                == tok.type_ ==> t == id,
    ensures
        acceptable(m).contains(tok.type_) <==> {
            let o = lalr_stack::fed(
                m.table,
                m.states,
                m.values,
                recovery::retyped(tok, id),
                lalr_stack::REDUCTION_LIMIT as nat,
            ).outcome;
            o is Shifted || o is Accepted || o is Error
        },
        !acceptable(m).contains(tok.type_) ==> driven(m, tok).1 is Err,
{
    lemma_sorted_contains(
        lalr_stack::taken_names(m.table, m.states, m.table.n_terminals as nat),
        tok.type_,
    );
    lemma_taken_contains(m.table, m.states, id, tok.type_, m.table.n_terminals as nat);
    lemma_take_is_fed(
        m.table,
        m.states,
        m.values,
        recovery::retyped(tok, id),
        lalr_stack::REDUCTION_LIMIT as nat,
    );
}

/// Once the parse is finished nothing is acceptable, and whatever is fed is
/// refused and changes nothing.
pub proof fn finished_refuses(m: DrivenModel, tok: tree::TokenModel)
    requires
        m.result is Some,
    ensures
        acceptable(m).len() == 0,
        driven(m, tok).1 is Err,
        driven(m, tok).0 == m,
{
}

} // verus!
