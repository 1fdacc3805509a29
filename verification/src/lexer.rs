//! The lexers: one that tries all terminals everywhere, one that tries those
//! that the parser state admits, and one that the Earley parser asks for single
//! terminals.

use vstd::prelude::*;
use crate::error;
use crate::error::{GrammarError, ParseError};
use crate::pattern;
use crate::pattern::{global_prefix, inline_regex, is_valid, match_text};
use crate::perf;
use crate::perf::Counters;
use crate::scanner;
use crate::scanner::{scanner_plan, ScannerPlan, Terminal};
use crate::symbols;
use crate::symbols::{copy_ids, CompiledGrammar, SymbolId};
use crate::tally;
use crate::tally::count_text;
use crate::text::{chars_of, owned};
use crate::token_source::LexFailure;
use crate::tree;
use crate::tree::Token;

verus! {

// ---------------------------------------------------------------------------
// Places in the input

/// A place in the input: how many characters and bytes stand before it, and
/// its line and column.
#[derive(Clone, Copy, PartialEq, Eq, Debug, Structural)]
pub struct Place {
    pub pos: usize,
    pub byte: usize,
    pub line: usize,
    pub col: usize,
}

/// One more, as far as numbers go.
pub open spec fn up(n: usize, by: usize) -> usize {
    if n + by > usize::MAX {
        usize::MAX
    } else {
        (n + by) as usize
    }
}

fn add_up(n: usize, by: usize) -> (r: usize)
    ensures
        r == up(n, by),
{
    if n > usize::MAX - by {
        usize::MAX
    } else {
        n + by
    }
}

/// How many bytes a character takes in UTF-8.
pub open spec fn width(c: char) -> usize {
    if (c as u32) < 0x80 {
        1
    } else if (c as u32) < 0x800 {
        2
    } else if (c as u32) < 0x10000 {
        3
    } else {
        4
    }
}

/// How many bytes a character takes in UTF-8.
pub(crate) fn char_width(c: char) -> (r: usize)
    ensures
        r == width(c),
{
    let n: u32 = c as u32;
    if n < 0x80 {
        1
    } else if n < 0x800 {
        2
    } else if n < 0x10000 {
        3
    } else {
        4
    }
}

/// The beginning of the input.
pub open spec fn origin_place() -> Place {
    Place { pos: 0, byte: 0, line: 1, col: 1 }
}

/// The place after a character.
pub open spec fn after(p: Place, c: char) -> Place {
    Place {
        pos: up(p.pos, 1),
        byte: up(p.byte, width(c)),
        line: if c == '\n' {
            up(p.line, 1)
        } else {
            p.line
        },
        col: if c == '\n' {
            1
        } else {
            up(p.col, 1)
        },
    }
}

/// The place after a text.
pub open spec fn past(p: Place, s: Seq<char>) -> Place
    decreases s.len(),
{
    if s.len() == 0 {
        p
    } else {
        after(past(p, s.drop_last()), s.last())
    }
}

/// The place after a text is as many characters on.
pub proof fn past_counts(p: Place, s: Seq<char>)
    requires
        p.pos + s.len() <= usize::MAX,
    ensures
        past(p, s).pos == p.pos + s.len(),
    decreases s.len(),
{
    if s.len() > 0 {
        past_counts(p, s.drop_last());
    }
}

impl Place {
    /// The beginning of the input.
    pub fn origin() -> (r: Place)
        ensures
            r == origin_place(),
    {
        Place { pos: 0, byte: 0, line: 1, col: 1 }
    }

    /// The place after a character.
    pub fn step(self, c: char) -> (r: Place)
        ensures
            r == after(self, c),
    {
        if c == '\n' {
            Place {
                pos: add_up(self.pos, 1),
                byte: add_up(self.byte, char_width(c)),
                line: add_up(self.line, 1),
                col: 1,
            }
        } else {
            Place {
                pos: add_up(self.pos, 1),
                byte: add_up(self.byte, char_width(c)),
                line: self.line,
                col: add_up(self.col, 1),
            }
        }
    }

    /// The place after a text.
    pub fn walk(self, s: &str) -> (r: Place)
        ensures
            r == past(self, s@),
    {
        let chars = chars_of(s);
        let mut p = self;
        let mut i: usize = 0;
        proof {
            assert(s@.take(0) =~= Seq::empty());
        }
        while i < chars.len()
            invariant
                i <= chars@.len(),
                chars@ == s@,
                p == past(self, s@.take(i as int)),
            decreases chars.len() - i,
        {
            proof {
                assert(s@.take(i + 1).drop_last() =~= s@.take(i as int));
                assert(s@.take(i + 1).last() == chars@[i as int]);
            }
            p = p.step(chars[i]);
            i = i + 1;
        }
        proof {
            assert(s@.take(s@.len() as int) =~= s@);
        }
        p
    }
}

/// A part of a text.
pub fn slice_text(chars: &Vec<char>, from: usize, to: usize) -> (r: String)
    requires
        from <= to <= chars@.len(),
    ensures
        r@ == chars@.subrange(from as int, to as int),
{
    let mut r = String::new();
    let mut i: usize = from;
    proof {
        assert(r@ =~= chars@.subrange(from as int, from as int));
    }
    while i < to
        invariant
            from <= i <= to <= chars@.len(),
            r@ == chars@.subrange(from as int, i as int),
        decreases to - i,
    {
        r.push(chars[i]);
        proof {
            assert(r@ =~= chars@.subrange(from as int, i + 1));
        }
        i = i + 1;
    }
    r
}

// ---------------------------------------------------------------------------
// Configuration

/// What a lexer is made of.
pub struct LexerConf {
    pub terminals: Vec<Terminal>,
    pub ignore: Vec<SymbolId>,
    pub global_flags: u32,
}

/// Whether every terminal that has a pattern is a symbol of the grammar.
pub open spec fn terminals_known(g: CompiledGrammar) -> bool {
    forall|i: int|
        0 <= i < g.terminals@.len() && !(#[trigger] g.terminals@[i]).declared ==> symbols::id_of(
            g.symbols@,
            g.terminals@[i].name@,
        ) is Some
}

/// The first `k` terminals of a grammar that have a pattern, under their ids.
pub open spec fn lexed_terminals(g: CompiledGrammar, k: nat) -> Seq<Terminal>
    decreases k,
{
    if k == 0 {
        Seq::empty()
    } else {
        let before = lexed_terminals(g, (k - 1) as nat);
        let t = g.terminals@[k - 1];
        if t.declared {
            before
        } else {
            before.push(Terminal { id: symbols::id_of(g.symbols@, t.name@)->0, def: t })
        }
    }
}

/// The configuration of a lexer for a grammar: each terminal that has a
/// pattern, what is ignored, and the global flags.
pub fn basic_lexer_conf(cg: &CompiledGrammar, g_regex_flags: u32) -> (r: LexerConf)
    requires
        cg.wf(),
        terminals_known(*cg),
    ensures
        r.terminals@ == lexed_terminals(*cg, cg.terminals@.len()),
        r.ignore@ == cg.ignore@,
        r.global_flags == g_regex_flags,
{
    let mut terminals: Vec<Terminal> = Vec::new();
    let mut i: usize = 0;
    while i < cg.terminals.len()
        invariant
            i <= cg.terminals@.len(),
            cg.wf(),
            terminals_known(*cg),
            terminals@ == lexed_terminals(*cg, i as nat),
        decreases cg.terminals.len() - i,
    {
        let t = &cg.terminals[i];
        if !t.declared {
            proof {
                assert(!cg.terminals@[i as int].declared);
            }
            if let Some(id) = cg.symbols.id(t.name.as_str()) {
                terminals.push(Terminal { id, def: t.copy() });
            }
        }
        i = i + 1;
    }
    LexerConf { terminals, ignore: copy_ids(&cg.ignore), global_flags: g_regex_flags }
}

/// The first terminal from `i` on that matches the empty text.
pub open spec fn first_empty(prefix: Seq<char>, terms: Seq<Terminal>, i: int) -> Option<int>
    decreases terms.len() - i,
{
    if i < 0 || i >= terms.len() {
        None
    } else if pattern::matched(
        prefix + pattern::inline_of(terms[i].def.pattern),
        Seq::empty(),
        Seq::empty(),
    ) is Some {
        Some(i)
    } else {
        first_empty(prefix, terms, i + 1)
    }
}

/// The report of a terminal that matches the empty text.
pub open spec fn empty_message(name: Seq<char>) -> Seq<char> {
    "Lexer does not allow zero-width terminals: "@ + name
}

/// Refuses terminals that match the empty text.
pub fn check_zero_width_terminals(conf: &LexerConf) -> (r: Result<(), GrammarError>)
    ensures
        match first_empty(
            pattern::flags_prefix(conf.global_flags),
            conf.terminals@,
            0,
        ) {
            None => r is Ok,
            Some(i) => r matches Err(e) && scanner::reports(e, empty_message(conf.terminals@[i].def.name@)),
        },
{
    let prefix = global_prefix(conf.global_flags);
    let none = String::new();
    proof {
        assert(none@ =~= Seq::empty());
    }
    let terms = &conf.terminals;
    let mut i: usize = 0;
    while i < terms.len()
        invariant
            i <= terms@.len(),
            terms == conf.terminals,
            prefix@ == pattern::flags_prefix(conf.global_flags),
            none@ == Seq::<char>::empty(),
            first_empty(prefix@, terms@, 0) == first_empty(prefix@, terms@, i as int),
        decreases terms.len() - i,
    {
        let mut rx = owned(prefix.as_str());
        let inner = inline_regex(&terms[i].def.pattern);
        rx.append(inner.as_str());
        if match_text(rx.as_str(), none.as_str(), none.as_str()).is_some() {
            let mut msg = owned("Lexer does not allow zero-width terminals: ");
            msg.append(terms[i].def.name.as_str());
            return Err(GrammarError::Other { msg });
        }
        i = i + 1;
    }
    Ok(())
}

/// The name of a terminal: of the first with its id from `i` on.
pub open spec fn terminal_name(terms: Seq<Terminal>, id: SymbolId, i: int) -> Seq<char>
    decreases terms.len() - i,
{
    if i < 0 || i >= terms.len() {
        Seq::empty()
    } else if terms[i].id == id {
        terms[i].def.name@
    } else {
        terminal_name(terms, id, i + 1)
    }
}

fn name_of(terms: &Vec<Terminal>, id: SymbolId) -> (r: String)
    ensures
        r@ == terminal_name(terms@, id, 0),
{
    let mut i: usize = 0;
    while i < terms.len()
        invariant
            i <= terms@.len(),
            terminal_name(terms@, id, 0) == terminal_name(terms@, id, i as int),
        decreases terms.len() - i,
    {
        if terms[i].id == id {
            return terms[i].def.name.clone();
        }
        i = i + 1;
    }
    let r = String::new();
    proof {
        assert(r@ =~= Seq::empty());
    }
    r
}

fn has_id(ids: &Vec<SymbolId>, id: SymbolId) -> (r: bool)
    ensures
        r == ids@.contains(id),
{
    let mut i: usize = 0;
    while i < ids.len()
        invariant
            i <= ids@.len(),
            forall|k: int| 0 <= k < i ==> #[trigger] ids@[k] != id,
        decreases ids.len() - i,
    {
        if ids[i] == id {
            proof {
                assert(ids@[i as int] == id);
            }
            return true;
        }
        i = i + 1;
    }
    false
}

fn copy_terminals(terms: &Vec<Terminal>) -> (r: Vec<Terminal>)
    ensures
        r@ == terms@,
{
    let mut r: Vec<Terminal> = Vec::new();
    let mut i: usize = 0;
    while i < terms.len()
        invariant
            i <= terms@.len(),
            r@ == terms@.take(i as int),
        decreases terms.len() - i,
    {
        r.push(terms[i].copy());
        proof {
            assert(r@ =~= terms@.take(i + 1));
        }
        i = i + 1;
    }
    proof {
        assert(terms@.take(terms@.len() as int) =~= terms@);
    }
    r
}

// ---------------------------------------------------------------------------
// Tokens

/// The token of a match.
pub open spec fn token_at(
    terms: Seq<Terminal>,
    found: (SymbolId, Seq<char>),
    p: Place,
) -> tree::TokenModel {
    let q = past(p, found.1);
    tree::TokenModel {
        type_id: found.0,
        type_: terminal_name(terms, found.0, 0),
        value: found.1,
        line: p.line,
        column: p.col,
        end_line: q.line,
        end_column: q.col,
        start_pos: p.pos,
        end_pos: q.pos,
    }
}

/// The end of input at a place.
pub open spec fn end_at(p: Place) -> tree::TokenModel {
    tree::TokenModel {
        line: p.line,
        column: p.col,
        end_line: p.line,
        end_column: p.col,
        start_pos: p.pos,
        end_pos: p.pos,
        ..tree::end_token()
    }
}

/// The end of input at a place.
pub fn end_token_at(p: Place) -> (r: Token)
    ensures
        r@ == end_at(p),
{
    Token::end().with_position(p.line, p.col, p.pos, p.pos)
}

/// The token that a plan finds at a place of a text.
pub open spec fn next_token(
    plan: scanner::PlanModel,
    terms: Seq<Terminal>,
    text: Seq<char>,
    p: Place,
) -> Option<tree::TokenModel> {
    match scanner::scanned(plan, text.take(p.pos as int), text.skip(p.pos as int)) {
        Some(found) => Some(token_at(terms, found, p)),
        None => None,
    }
}

/// The content of an optional token.
pub open spec fn opt_token(t: Option<Token>) -> Option<tree::TokenModel> {
    match t {
        Some(t) => Some(t@),
        None => None,
    }
}

/// Whether a token lies within a text, from a place on.
pub open spec fn token_fits(text: Seq<char>, p: Place, t: tree::TokenModel) -> bool {
    &&& 0 < t.value.len()
    &&& p.pos + t.value.len() <= text.len()
    &&& t.value == text.subrange(p.pos as int, p.pos + t.value.len())
    &&& t.end_pos == p.pos + t.value.len()
}

fn take_token(
    plan: &ScannerPlan,
    terms: &Vec<Terminal>,
    chars: &Vec<char>,
    p: Place,
) -> (r: Option<Token>)
    requires
        p.pos <= chars@.len(),
    ensures
        opt_token(r) == next_token(plan@, terms@, chars@, p),
        r matches Some(t) ==> token_fits(chars@, p, t@),
{
    let n: usize = chars.len();
    let before = slice_text(chars, 0, p.pos);
    let rest = slice_text(chars, p.pos, n);
    proof {
        assert(chars@.subrange(0, p.pos as int) =~= chars@.take(p.pos as int));
        assert(chars@.subrange(p.pos as int, n as int) =~= chars@.skip(p.pos as int));
    }
    match plan.scan(before.as_str(), rest.as_str()) {
        None => None,
        Some((id, value)) => {
            let q = p.walk(value.as_str());
            let type_ = name_of(terms, id);
            proof {
                past_counts(p, value@);
                assert(value@ =~= chars@.subrange(p.pos as int, p.pos + value@.len())) by {
                    assert(rest@.take(value@.len() as int) =~= chars@.subrange(
                        p.pos as int,
                        p.pos + value@.len(),
                    ));
                }
            }
            Some(
                Token {
                    type_id: id,
                    type_,
                    value,
                    line: p.line,
                    column: p.col,
                    end_line: q.line,
                    end_column: q.col,
                    start_pos: p.pos,
                    end_pos: q.pos,
                },
            )
        },
    }
}

/// The report of a character that no terminal begins with.
pub open spec fn bad_char(text: Seq<char>, p: Place) -> error::ErrorModel {
    error::ErrorModel::UnexpectedCharacter {
        ch: text[p.pos as int],
        line: p.line,
        col: p.col,
        pos: p.byte,
        expected: "any token"@,
    }
}

/// Reports a character that no terminal begins with.
pub fn bad_character_at(chars: &Vec<char>, p: Place) -> (r: ParseError)
    requires
        p.pos < chars@.len(),
    ensures
        r@ == bad_char(chars@, p),
{
    ParseError::UnexpectedCharacter {
        ch: chars[p.pos],
        line: p.line,
        col: p.col,
        pos: p.byte,
        expected: owned("any token"),
    }
}

// ---------------------------------------------------------------------------
// The basic lexer

/// A lexer that tries all terminals everywhere.
pub struct BasicLexer {
    pub plan: ScannerPlan,
    pub terminals: Vec<Terminal>,
    pub ignore: Vec<SymbolId>,
}

/// The mathematical content of a basic lexer.
pub ghost struct LexerModel {
    pub plan: scanner::PlanModel,
    pub terminals: Seq<Terminal>,
    pub ignore: Seq<SymbolId>,
}

impl View for BasicLexer {
    type V = LexerModel;

    open spec fn view(&self) -> LexerModel {
        LexerModel {
            plan: self.plan@,
            terminals: self.terminals@,
            ignore: self.ignore@,
        }
    }
}

/// How many bytes the texts take that tokens are made of from a place on.
pub open spec fn lexed_bytes(m: LexerModel, text: Seq<char>, p: Place) -> nat
    decreases text.len() - p.pos,
{
    if p.pos >= text.len() {
        0
    } else {
        match next_token(m.plan, m.terminals, text, p) {
            None => 0,
            Some(t) => {
                let q = past(p, t.value);
                if q.pos <= p.pos || q.pos > text.len() {
                    0
                } else {
                    tally::text_bytes(t.value) + lexed_bytes(m, text, q)
                }
            },
        }
    }
}

/// The tokens of a text from a place on, ignored ones left out, and the end of
/// input; or the first character that no terminal begins with.
pub open spec fn lexed(m: LexerModel, text: Seq<char>, p: Place) -> Result<
    Seq<tree::TokenModel>,
    error::ErrorModel,
>
    decreases text.len() - p.pos,
{
    if p.pos >= text.len() {
        Ok(seq![end_at(p)])
    } else {
        match next_token(m.plan, m.terminals, text, p) {
            None => Err(bad_char(text, p)),
            Some(t) => {
                let q = past(p, t.value);
                if q.pos <= p.pos || q.pos > text.len() {
                    Err(bad_char(text, p))
                } else {
                    match lexed(m, text, q) {
                        Err(e) => Err(e),
                        Ok(ts) => Ok(
                            if m.ignore.contains(t.type_id) {
                                ts
                            } else {
                                seq![t] + ts
                            },
                        ),
                    }
                }
            },
        }
    }
}

/// The result of lexing, with tokens that came before.
pub open spec fn after_tokens(
    before: Seq<tree::TokenModel>,
    r: Result<Seq<tree::TokenModel>, error::ErrorModel>,
) -> Result<Seq<tree::TokenModel>, error::ErrorModel> {
    match r {
        Ok(ts) => Ok(before + ts),
        Err(e) => Err(e),
    }
}

/// The content of the result of lexing.
pub open spec fn lex_result(r: Result<Vec<Token>, ParseError>) -> Result<
    Seq<tree::TokenModel>,
    error::ErrorModel,
> {
    match r {
        Ok(ts) => Ok(tree::token_models(ts@)),
        Err(e) => Err(e@),
    }
}

/// Whether tokens hold the parts of a text that they name, one behind the other,
/// up to the position `upto`.
pub open spec fn lie_in(text: Seq<char>, ts: Seq<tree::TokenModel>, upto: nat) -> bool {
    &&& forall|i: int|
        0 <= i < ts.len() ==> (#[trigger] ts[i]).start_pos < ts[i].end_pos <= upto && upto
            <= text.len() && ts[i].value == text.subrange(
            ts[i].start_pos as int,
            ts[i].end_pos as int,
        )
    &&& forall|i: int, j: int|
        0 <= i < j < ts.len() ==> (#[trigger] ts[i]).end_pos <= (#[trigger] ts[j]).start_pos
}

impl BasicLexer {
    /// A lexer of the configured terminals.
    pub fn new(conf: &LexerConf) -> (r: Result<BasicLexer, GrammarError>)
        ensures
            match scanner::first_invalid(
                pattern::flags_prefix(conf.global_flags),
                conf.terminals@,
                0,
            ) {
                None => r matches Ok(l) && l@ == (LexerModel {
                    plan: scanner::plan_of(conf.terminals@, conf.global_flags),
                    terminals: conf.terminals@,
                    ignore: conf.ignore@,
                }),
                Some(i) => r matches Err(e) && scanner::reports(
                    e,
                    scanner::invalid_message(conf.terminals@[i].def.name@),
                ),
            },
    {
        match scanner_plan(&conf.terminals, conf.global_flags) {
            Ok(plan) => Ok(
                BasicLexer {
                    plan,
                    terminals: copy_terminals(&conf.terminals),
                    ignore: copy_ids(&conf.ignore),
                },
            ),
            Err(e) => Err(e),
        }
    }

    /// Whether tokens of a type are left out.
    pub fn is_ignored(&self, id: SymbolId) -> (r: bool)
        ensures
            r == self@.ignore.contains(id),
    {
        has_id(&self.ignore, id)
    }

    /// The token at a place, whatever its type.
    pub fn next_token_at(&self, chars: &Vec<char>, p: Place) -> (r: Option<Token>)
        requires
            p.pos <= chars@.len(),
        ensures
            opt_token(r) == next_token(self@.plan, self@.terminals, chars@, p),
            r matches Some(t) ==> token_fits(chars@, p, t@),
    {
        take_token(&self.plan, &self.terminals, chars, p)
    }

    /// The tokens of a text, and the end of input. The tokens hold the parts of
    /// the text that they name, one behind the other.
    pub fn lex(&self, text: &str) -> (r: Result<Vec<Token>, ParseError>)
        ensures
            lex_result(r) == lexed(self@, text@, origin_place()),
            r matches Ok(ts) ==> ({
                let all = tree::token_models(ts@);
                &&& all.len() > 0
                &&& lie_in(text@, all.drop_last(), text@.len())
                &&& all.last().type_id == SymbolId::spec_end()
                &&& all.last().start_pos == text@.len() && all.last().end_pos == text@.len()
            }),
    {
        let chars = chars_of(text);
        let ghost want = lexed(self@, text@, origin_place());
        let mut out: Vec<Token> = Vec::new();
        let mut p = Place::origin();
        proof {
            assert(tree::token_models(out@) =~= Seq::empty());
            match want {
                Ok(ts) => {
                    assert(Seq::<tree::TokenModel>::empty() + ts =~= ts);
                },
                Err(_) => {},
            }
        }
        while p.pos < chars.len()
            invariant
                chars@ == text@,
                p.pos <= chars@.len(),
                want == lexed(self@, text@, origin_place()),
                want == after_tokens(tree::token_models(out@), lexed(self@, text@, p)),
                lie_in(text@, tree::token_models(out@), p.pos as nat),
            decreases chars.len() - p.pos,
        {
            let ghost done = tree::token_models(out@);
            match self.next_token_at(&chars, p) {
                None => {
                    return Err(bad_character_at(&chars, p));
                },
                Some(t) => {
                    let q = p.walk(t.value.as_str());
                    proof {
                        past_counts(p, t@.value);
                        assert(next_token(self@.plan, self@.terminals, text@, p) == Some(t@));
                    }
                    let ghost tok = t@;
                    if !self.is_ignored(t.type_id) {
                        out.push(t);
                        proof {
                            assert(tree::token_models(out@) =~= done.push(tok));
                            match lexed(self@, text@, q) {
                                Ok(ts) => {
                                    assert(done + (seq![tok] + ts) =~= done.push(tok) + ts);
                                },
                                Err(_) => {},
                            }
                        }
                    }
                    p = q;
                },
            }
        }
        let ghost done = tree::token_models(out@);
        out.push(end_token_at(p));
        proof {
            assert(tree::token_models(out@) =~= done + seq![end_at(p)]);
            assert(tree::token_models(out@).drop_last() =~= done);
        }
        Ok(out)
    }

    /// The same; the bytes of the texts are counted that tokens are made of, those
    /// that are left out among them.
    pub fn lex_counted(&self, text: &str, c: &mut Counters) -> (r: Result<
        Vec<Token>,
        ParseError,
    >)
        ensures
            lex_result(r) == lexed(self@, text@, origin_place()),
            *final(c) == (Counters {
                lexer_token_value_bytes: perf::counted(
                    old(c).lexer_token_value_bytes,
                    lexed_bytes(self@, text@, origin_place()),
                ),
                ..*old(c)
            }),
    {
        let chars = chars_of(text);
        let mut p = Place::origin();
        let mut bytes: u64 = c.lexer_token_value_bytes;
        let ghost all = perf::counted(bytes, lexed_bytes(self@, text@, origin_place()));
        while p.pos < chars.len()
            invariant
                chars@ == text@,
                p.pos <= chars@.len(),
                all == perf::counted(bytes, lexed_bytes(self@, text@, p)),
            ensures
                all == perf::counted(bytes, 0),
            decreases chars.len() - p.pos,
        {
            match self.next_token_at(&chars, p) {
                None => {
                    break ;
                },
                Some(t) => {
                    let q = p.walk(t.value.as_str());
                    proof {
                        past_counts(p, t@.value);
                        perf::lemma_counted(
                            bytes,
                            tally::text_bytes(t@.value),
                            lexed_bytes(self@, text@, q),
                        );
                    }
                    bytes = count_text(t.value.as_str(), bytes);
                    p = q;
                },
            }
        }
        proof {
            perf::lemma_counted_nothing(bytes);
        }
        c.lexer_token_value_bytes = bytes;
        self.lex(text)
    }
}

// ---------------------------------------------------------------------------
// Lexing on demand

/// The token that the first of the plans, from `i` on, that finds one finds.
pub open spec fn plans_token(
    plans: Seq<scanner::PlanModel>,
    terms: Seq<Terminal>,
    text: Seq<char>,
    p: Place,
    i: int,
) -> Option<tree::TokenModel>
    decreases plans.len() - i,
{
    if i < 0 || i >= plans.len() {
        None
    } else {
        match next_token(plans[i], terms, text, p) {
            Some(t) => Some(t),
            None => plans_token(plans, terms, text, p, i + 1),
        }
    }
}

/// The next token from a place on that is not ignored, and the place where it
/// begins; or that the input cannot be lexed there.
pub open spec fn pulled(
    plans: Seq<scanner::PlanModel>,
    terms: Seq<Terminal>,
    ignore: Seq<SymbolId>,
    text: Seq<char>,
    p: Place,
) -> (Place, Result<tree::TokenModel, LexFailure>)
    decreases text.len() - p.pos,
{
    if p.pos >= text.len() {
        (p, Ok(end_at(p)))
    } else {
        let failure = LexFailure {
            ch: text[p.pos as int],
            line: p.line,
            col: p.col,
            pos: p.byte,
        };
        match plans_token(plans, terms, text, p, 0) {
            None => (p, Err(failure)),
            Some(t) => if ignore.contains(t.type_id) {
                let q = past(p, t.value);
                if q.pos <= p.pos || q.pos > text.len() {
                    (p, Err(failure))
                } else {
                    pulled(plans, terms, ignore, text, q)
                }
            } else {
                (p, Ok(t))
            },
        }
    }
}

/// A pull goes on from where it begins.
pub proof fn lemma_pulled_on(
    plans: Seq<scanner::PlanModel>,
    terms: Seq<Terminal>,
    ignore: Seq<SymbolId>,
    text: Seq<char>,
    p: Place,
)
    ensures
        p.pos <= pulled(plans, terms, ignore, text, p).0.pos,
    decreases text.len() - p.pos,
{
    if p.pos < text.len() {
        if let Some(t) = plans_token(plans, terms, text, p, 0) {
            let q = past(p, t.value);
            if ignore.contains(t.type_id) && p.pos < q.pos <= text.len() {
                lemma_pulled_on(plans, terms, ignore, text, q);
            }
        }
    }
}

/// A token begins where it is found.
proof fn lemma_plans_start(
    plans: Seq<scanner::PlanModel>,
    terms: Seq<Terminal>,
    text: Seq<char>,
    p: Place,
    i: int,
)
    ensures
        plans_token(plans, terms, text, p, i) matches Some(t) ==> t.start_pos == p.pos,
    decreases plans.len() - i,
{
    if 0 <= i < plans.len() {
        lemma_plans_start(plans, terms, text, p, i + 1);
    }
}

/// A pulled token begins where the pull stops, and pulling there again gives the
/// same.
pub proof fn lemma_pulled_again(
    plans: Seq<scanner::PlanModel>,
    terms: Seq<Terminal>,
    ignore: Seq<SymbolId>,
    text: Seq<char>,
    p: Place,
)
    ensures
        ({
            let (q, r) = pulled(plans, terms, ignore, text, p);
            r matches Ok(t) ==> t.start_pos == q.pos && pulled(plans, terms, ignore, text, q) == (
                q,
                r,
            )
        }),
    decreases text.len() - p.pos,
{
    if p.pos < text.len() {
        if let Some(t) = plans_token(plans, terms, text, p, 0) {
            lemma_plans_start(plans, terms, text, p, 0);
            let q = past(p, t.value);
            if ignore.contains(t.type_id) && p.pos < q.pos <= text.len() {
                lemma_pulled_again(plans, terms, ignore, text, q);
            }
        }
    }
}

/// The content of a pull.
pub open spec fn pull_result(r: Result<Token, LexFailure>) -> Result<
    tree::TokenModel,
    LexFailure,
> {
    match r {
        Ok(t) => Ok(t@),
        Err(f) => Err(f),
    }
}

/// The content of an optional plan.
pub open spec fn opt_plan(p: Option<&ScannerPlan>) -> Seq<scanner::PlanModel> {
    match p {
        Some(p) => seq![p@],
        None => Seq::empty(),
    }
}

/// Whether a pulled token lies within the text, or is the end of input.
pub open spec fn pull_fits(text: Seq<char>, p: Place, t: tree::TokenModel) -> bool {
    token_fits(text, p, t) || p.pos == text.len() && t == end_at(p)
}

/// Pulls the next token that is not ignored: the plan `first` is tried, then
/// `second`.
pub fn pull(
    first: Option<&ScannerPlan>,
    second: Option<&ScannerPlan>,
    terms: &Vec<Terminal>,
    ignore: &Vec<SymbolId>,
    chars: &Vec<char>,
    from: Place,
) -> (r: (Place, Result<Token, LexFailure>))
    requires
        from.pos <= chars@.len(),
    ensures
        (r.0, pull_result(r.1)) == pulled(
            opt_plan(first) + opt_plan(second),
            terms@,
            ignore@,
            chars@,
            from,
        ),
        from.pos <= r.0.pos <= chars@.len(),
        r.1 is Err ==> r.0.pos < chars@.len(),
        r.1 matches Ok(t) ==> pull_fits(chars@, r.0, t@),
{
    let ghost plans = opt_plan(first) + opt_plan(second);
    let mut p = from;
    while p.pos < chars.len()
        invariant
            from.pos <= p.pos <= chars@.len(),
            plans == opt_plan(first) + opt_plan(second),
            pulled(plans, terms@, ignore@, chars@, from) == pulled(
                plans,
                terms@,
                ignore@,
                chars@,
                p,
            ),
        decreases chars.len() - p.pos,
    {
        let mut t = match first {
            Some(plan) => take_token(plan, terms, chars, p),
            None => None,
        };
        proof {
            if first is Some {
                assert(plans[0] == (first->0)@);
            } else {
                assert(plans =~= opt_plan(second));
            }
        }
        if t.is_none() {
            if let Some(plan) = second {
                proof {
                    let i: int = if first is Some { 1 } else { 0 };
                    assert(plans[i] == plan@);
                    assert(plans_token(plans, terms@, chars@, p, 0) == plans_token(
                        plans,
                        terms@,
                        chars@,
                        p,
                        i,
                    ));
                    assert(plans_token(plans, terms@, chars@, p, i + 1) is None);
                }
                t = take_token(plan, terms, chars, p);
            } else {
                proof {
                    assert(plans.len() <= 1);
                    assert(plans_token(plans, terms@, chars@, p, 1) is None);
                }
            }
        }
        proof {
            assert(opt_token(t) == plans_token(plans, terms@, chars@, p, 0));
        }
        match t {
            None => {
                return (
                    p,
                    Err(LexFailure { ch: chars[p.pos], line: p.line, col: p.col, pos: p.byte }),
                );
            },
            Some(t) => {
                if has_id(ignore, t.type_id) {
                    proof {
                        past_counts(p, t@.value);
                    }
                    p = p.walk(t.value.as_str());
                } else {
                    return (p, Ok(t));
                }
            },
        }
    }
    (p, Ok(end_token_at(p)))
}

// ---------------------------------------------------------------------------
// The contextual lexer

/// A lexer that tries the terminals that a parser state admits. The root tries
/// all of them.
pub struct ContextualLexer {
    pub root: ScannerPlan,
    pub states: Vec<ScannerPlan>,
    pub terminals: Vec<Terminal>,
    pub ignore: Vec<SymbolId>,
}

/// The mathematical content of a contextual lexer.
pub ghost struct ContextualModel {
    pub root: scanner::PlanModel,
    pub states: Seq<scanner::PlanModel>,
    pub terminals: Seq<Terminal>,
    pub ignore: Seq<SymbolId>,
}

/// The contents of plans.
pub open spec fn plan_models(s: Seq<ScannerPlan>) -> Seq<scanner::PlanModel> {
    Seq::new(s.len(), |i: int| s[i]@)
}

impl View for ContextualLexer {
    type V = ContextualModel;

    open spec fn view(&self) -> ContextualModel {
        ContextualModel {
            root: self.root@,
            states: plan_models(self.states@),
            terminals: self.terminals@,
            ignore: self.ignore@,
        }
    }
}

/// The first `k` terminals, as far as one of the lists names them.
pub open spec fn admitted(
    terms: Seq<Terminal>,
    ids: Seq<SymbolId>,
    always: Seq<SymbolId>,
    k: nat,
) -> Seq<Terminal>
    decreases k,
{
    if k == 0 {
        Seq::empty()
    } else {
        let before = admitted(terms, ids, always, (k - 1) as nat);
        if ids.contains(terms[k - 1].id) || always.contains(terms[k - 1].id) {
            before.push(terms[k - 1])
        } else {
            before
        }
    }
}

fn select(terms: &Vec<Terminal>, ids: &Vec<SymbolId>, always: &Vec<SymbolId>) -> (r: Vec<Terminal>)
    ensures
        r@ == admitted(terms@, ids@, always@, terms@.len()),
{
    let mut r: Vec<Terminal> = Vec::new();
    let mut i: usize = 0;
    while i < terms.len()
        invariant
            i <= terms@.len(),
            r@ == admitted(terms@, ids@, always@, i as nat),
        decreases terms.len() - i,
    {
        if has_id(ids, terms[i].id) || has_id(always, terms[i].id) {
            r.push(terms[i].copy());
        }
        i = i + 1;
    }
    r
}

proof fn lemma_admitted_valid(
    prefix: Seq<char>,
    terms: Seq<Terminal>,
    ids: Seq<SymbolId>,
    always: Seq<SymbolId>,
    k: nat,
)
    requires
        forall|i: int|
            0 <= i < terms.len() ==> pattern::regex_valid(
                prefix + pattern::inline_of((#[trigger] terms[i]).def.pattern),
            ),
        k <= terms.len(),
    ensures
        forall|i: int|
            0 <= i < admitted(terms, ids, always, k).len() ==> pattern::regex_valid(
                prefix + pattern::inline_of(
                    (#[trigger] admitted(terms, ids, always, k)[i]).def.pattern,
                ),
            ),
    decreases k,
{
    if k > 0 {
        lemma_admitted_valid(prefix, terms, ids, always, (k - 1) as nat);
    }
}

proof fn lemma_first_invalid(prefix: Seq<char>, terms: Seq<Terminal>, from: int)
    requires
        0 <= from,
    ensures
        scanner::first_invalid(prefix, terms, from) is None <==> forall|i: int|
            from <= i < terms.len() ==> pattern::regex_valid(
                prefix + pattern::inline_of((#[trigger] terms[i]).def.pattern),
            ),
    decreases terms.len() - from,
{
    if from < terms.len() {
        lemma_first_invalid(prefix, terms, from + 1);
    }
}

/// The contextual lexer of a configuration: for each parser state the plan of
/// the terminals that it, or every state, admits.
pub open spec fn contextual_of(
    conf: LexerConf,
    state_terminals: Seq<Vec<SymbolId>>,
    always: Seq<SymbolId>,
) -> ContextualModel {
    ContextualModel {
        root: scanner::plan_of(conf.terminals@, conf.global_flags),
        states: Seq::new(
            state_terminals.len(),
            |i: int|
                scanner::plan_of(
                    admitted(
                        conf.terminals@,
                        state_terminals[i]@,
                        always,
                        conf.terminals@.len(),
                    ),
                    conf.global_flags,
                ),
        ),
        terminals: conf.terminals@,
        ignore: conf.ignore@,
    }
}

/// The plan of a state, if it has one.
pub open spec fn state_plan(m: ContextualModel, state: nat) -> Seq<scanner::PlanModel> {
    if state < m.states.len() {
        seq![m.states[state as int]]
    } else {
        Seq::empty()
    }
}

impl ContextualLexer {
    /// A lexer of the configured terminals. `state_terminals` lists what each
    /// parser state admits, `always_accept` what every state admits.
    pub fn new(
        conf: &LexerConf,
        state_terminals: &Vec<Vec<SymbolId>>,
        always_accept: &Vec<SymbolId>,
    ) -> (r: Result<ContextualLexer, GrammarError>)
        ensures
            match scanner::first_invalid(
                pattern::flags_prefix(conf.global_flags),
                conf.terminals@,
                0,
            ) {
                None => r matches Ok(l) && l@ == contextual_of(
                    *conf,
                    state_terminals@,
                    always_accept@,
                ),
                Some(i) => r matches Err(e) && scanner::reports(
                    e,
                    scanner::invalid_message(conf.terminals@[i].def.name@),
                ),
            },
    {
        let ghost prefix = pattern::flags_prefix(conf.global_flags);
        let root = match scanner_plan(&conf.terminals, conf.global_flags) {
            Ok(plan) => plan,
            Err(e) => {
                return Err(e);
            },
        };
        let ghost want = contextual_of(*conf, state_terminals@, always_accept@);
        let mut states: Vec<ScannerPlan> = Vec::new();
        let mut i: usize = 0;
        while i < state_terminals.len()
            invariant
                i <= state_terminals@.len(),
                states@.len() == i,
                prefix == pattern::flags_prefix(conf.global_flags),
                scanner::first_invalid(prefix, conf.terminals@, 0) is None,
                want == contextual_of(*conf, state_terminals@, always_accept@),
                forall|k: int| 0 <= k < i ==> (#[trigger] states@[k])@ == want.states[k],
            decreases state_terminals.len() - i,
        {
            let terms = select(&conf.terminals, &state_terminals[i], always_accept);
            proof {
                lemma_first_invalid(prefix, conf.terminals@, 0);
                lemma_admitted_valid(
                    prefix,
                    conf.terminals@,
                    state_terminals@[i as int]@,
                    always_accept@,
                    conf.terminals@.len(),
                );
                lemma_first_invalid(prefix, terms@, 0);
            }
            match scanner_plan(&terms, conf.global_flags) {
                Ok(plan) => {
                    states.push(plan);
                },
                Err(e) => {
                    return Err(e);
                },
            }
            i = i + 1;
        }
        let r = ContextualLexer {
            root,
            states,
            terminals: copy_terminals(&conf.terminals),
            ignore: copy_ids(&conf.ignore),
        };
        proof {
            assert(r@.states =~= want.states);
        }
        Ok(r)
    }

    /// Whether tokens of a type are left out.
    pub fn is_ignored(&self, id: SymbolId) -> (r: bool)
        ensures
            r == self@.ignore.contains(id),
    {
        has_id(&self.ignore, id)
    }

    /// The plan of a parser state.
    pub fn plan_for(&self, state: usize) -> (r: Option<&ScannerPlan>)
        ensures
            opt_plan(r) == state_plan(self@, state as nat),
    {
        if state < self.states.len() {
            Some(&self.states[state])
        } else {
            None
        }
    }
}

// ---------------------------------------------------------------------------
// Matching single terminals

/// Matches single terminals, for a parser that knows which one it expects.
pub struct DynamicMatcher {
    pub prefix: String,
    pub terminals: Vec<Terminal>,
    pub ignore: Vec<SymbolId>,
}

/// The mathematical content of a matcher.
pub ghost struct MatcherModel {
    pub prefix: Seq<char>,
    pub terminals: Seq<Terminal>,
    pub ignore: Seq<SymbolId>,
}

impl View for DynamicMatcher {
    type V = MatcherModel;

    open spec fn view(&self) -> MatcherModel {
        MatcherModel {
            prefix: self.prefix@,
            terminals: self.terminals@,
            ignore: self.ignore@,
        }
    }
}

/// What the terminal `id` matches at the beginning of `rest`, after `before`:
/// the first configured under that id decides. A match of nothing is none.
pub open spec fn terminal_match(
    m: MatcherModel,
    id: SymbolId,
    before: Seq<char>,
    rest: Seq<char>,
    i: int,
) -> Option<Seq<char>>
    decreases m.terminals.len() - i,
{
    if i < 0 || i >= m.terminals.len() {
        None
    } else if m.terminals[i].id == id {
        match pattern::matched(
            m.prefix + pattern::inline_of(m.terminals[i].def.pattern),
            before,
            rest,
        ) {
            Some(v) => if v.len() == 0 {
                None
            } else {
                Some(v)
            },
            None => None,
        }
    } else {
        terminal_match(m, id, before, rest, i + 1)
    }
}

impl DynamicMatcher {
    /// A matcher of the configured terminals.
    pub fn new(conf: &LexerConf) -> (r: Result<DynamicMatcher, GrammarError>)
        ensures
            match scanner::first_invalid(
                pattern::flags_prefix(conf.global_flags),
                conf.terminals@,
                0,
            ) {
                None => r matches Ok(m) && m@ == (MatcherModel {
                    prefix: pattern::flags_prefix(conf.global_flags),
                    terminals: conf.terminals@,
                    ignore: conf.ignore@,
                }),
                Some(i) => r matches Err(e) && scanner::reports(
                    e,
                    scanner::invalid_message(conf.terminals@[i].def.name@),
                ),
            },
    {
        let prefix = global_prefix(conf.global_flags);
        let terms = &conf.terminals;
        let mut i: usize = 0;
        while i < terms.len()
            invariant
                i <= terms@.len(),
                terms == conf.terminals,
                prefix@ == pattern::flags_prefix(conf.global_flags),
                scanner::first_invalid(prefix@, terms@, 0) == scanner::first_invalid(
                    prefix@,
                    terms@,
                    i as int,
                ),
            decreases terms.len() - i,
        {
            let mut rx = owned(prefix.as_str());
            let inner = inline_regex(&terms[i].def.pattern);
            rx.append(inner.as_str());
            if !is_valid(rx.as_str()) {
                let mut msg = owned("invalid regular expression in terminal ");
                msg.append(terms[i].def.name.as_str());
                return Err(GrammarError::Other { msg });
            }
            i = i + 1;
        }
        Ok(
            DynamicMatcher {
                prefix,
                terminals: copy_terminals(terms),
                ignore: copy_ids(&conf.ignore),
            },
        )
    }

    /// The name of a terminal.
    pub fn name(&self, id: SymbolId) -> (r: String)
        ensures
            r@ == terminal_name(self@.terminals, id, 0),
    {
        name_of(&self.terminals, id)
    }

    /// Matches a terminal at the beginning of `rest`, after `before`.
    pub fn match_at(&self, id: SymbolId, before: &str, rest: &str) -> (r: Option<String>)
        ensures
            pattern::opt_string(r) == terminal_match(self@, id, before@, rest@, 0),
            r matches Some(v) ==> 0 < v@.len() <= rest@.len() && rest@.take(v@.len() as int)
                == v@,
    {
        let ghost m = self@;
        let mut i: usize = 0;
        while i < self.terminals.len()
            invariant
                i <= self.terminals@.len(),
                m == self@,
                terminal_match(m, id, before@, rest@, 0) == terminal_match(
                    m,
                    id,
                    before@,
                    rest@,
                    i as int,
                ),
            decreases self.terminals.len() - i,
        {
            if self.terminals[i].id == id {
                let mut rx = owned(self.prefix.as_str());
                let inner = inline_regex(&self.terminals[i].def.pattern);
                rx.append(inner.as_str());
                match match_text(rx.as_str(), before, rest) {
                    Some(v) => {
                        let n: usize = v.as_str().unicode_len();
                        if n == 0 {
                            return None;
                        }
                        return Some(v);
                    },
                    None => {
                        return None;
                    },
                }
            }
            i = i + 1;
        }
        None
    }
}

} // verus!
