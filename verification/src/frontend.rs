//! The parsers with their lexers: one frontend for every supported combination
//! of parser, lexer and indentation.

use vstd::prelude::*;
use crate::cnf;
use crate::cyk;
use crate::cyk::CykParser;
use crate::earley;
use crate::earley_chart::EarleyParser;
use crate::earley_dynamic;
use crate::error;
use crate::error::{GrammarError, ParseError, RecoveredTree};
use crate::interactive;
use crate::interactive::InteractiveParser;
use crate::lalr;
use crate::lalr::LalrParser;
use crate::lalr_table;
use crate::lalr_table::{audit_lalr_reduce_reduce, build_lalr_table, Grammar};
use crate::lex_sources;
use crate::lexer;
use crate::lexer::{
    basic_lexer_conf, check_zero_width_terminals, BasicLexer, ContextualLexer, DynamicMatcher,
    LexerConf,
};
use crate::pattern;
use crate::postlex;
use crate::postlex::Indenter;
use crate::recovery;
use crate::recovery::RecoveryHandler;
use crate::scanner;
use crate::scanner::Terminal;
use crate::symbols;
use crate::symbols::{copy_ids, CompiledGrammar, CompiledRule, SymbolId, SymbolTable};
use crate::text::owned;
use crate::token_source::PreLexed;
use crate::tree;
use crate::tree::ParseTree;

verus! {

// ---------------------------------------------------------------------------
// Options

/// Which parser to use.
#[derive(Clone, Copy, PartialEq, Eq, Debug, Structural)]
pub enum ParserAlgorithm {
    Lalr,
    Earley,
    Cyk,
}

/// Which lexer to use.
#[derive(Clone, Copy, PartialEq, Eq, Debug, Structural)]
pub enum LexerType {
    /// The one that fits the parser best.
    Auto,
    Basic,
    Contextual,
    Dynamic,
    DynamicComplete,
}

/// What to do where more than one derivation exists.
#[derive(Clone, Copy, PartialEq, Eq, Debug, Structural)]
pub enum Ambiguity {
    Resolve,
    Explicit,
    Forest,
}

/// How to build a frontend.
pub struct LarkOptions {
    pub parser: ParserAlgorithm,
    pub lexer: LexerType,
    pub ambiguity: Ambiguity,
    pub postlex: Option<Indenter>,
    /// Whether a conflict between a shift and a reduction is refused. Terminals
    /// whose regular expressions match common texts are not looked for: the
    /// `regex` crate decides no such thing.
    pub strict: bool,
    pub g_regex_flags: u32,
    /// The names of the start symbols.
    pub start: Vec<String>,
}

/// Why something of the library failed.
#[derive(Debug)]
pub enum LarkError {
    Grammar(GrammarError),
    Parse(ParseError),
}

/// The rules and start symbols of a parser.
#[derive(Debug)]
pub struct ParserConf {
    pub rules: Vec<CompiledRule>,
    pub start: Vec<String>,
}

// ---------------------------------------------------------------------------
// Drivers

/// A parser with the lexer that it works with.
#[allow(inconsistent_fields)]
pub enum Driver {
    LalrBasic { parser: LalrParser, lexer: BasicLexer },
    LalrContextual { parser: LalrParser, lexer: ContextualLexer },
    LalrPostlex { parser: LalrParser, lexer: BasicLexer, postlex: Indenter, symbols: SymbolTable },
    LalrContextualPostlex {
        parser: LalrParser,
        lexer: ContextualLexer,
        postlex: Indenter,
        symbols: SymbolTable,
    },
    EarleyBasic { parser: EarleyParser, lexer: BasicLexer, resolve: bool },
    EarleyPostlex {
        parser: EarleyParser,
        lexer: BasicLexer,
        postlex: Indenter,
        symbols: SymbolTable,
        resolve: bool,
    },
    EarleyDynamic {
        parser: EarleyParser,
        matcher: DynamicMatcher,
        resolve: bool,
        complete_lex: bool,
    },
    Cyk { parser: CykParser, lexer: BasicLexer, postlex: Option<(Indenter, SymbolTable)> },
}

/// Whether the parts of a driver are in order.
pub open spec fn driver_ok(d: Driver) -> bool {
    match d {
        Driver::LalrBasic { parser, .. } => parser.table.wf(),
        Driver::LalrContextual { parser, .. } => parser.table.wf(),
        Driver::LalrPostlex { parser, symbols, .. } => parser.table.wf() && symbols@.len()
            <= symbols::UNSET_ID,
        Driver::LalrContextualPostlex { parser, symbols, .. } => parser.table.wf() && symbols@.len()
            <= symbols::UNSET_ID,
        Driver::EarleyBasic { parser, .. } => parser.wf(),
        Driver::EarleyPostlex { parser, symbols, .. } => parser.wf() && symbols@.len()
            <= symbols::UNSET_ID,
        Driver::EarleyDynamic { parser, .. } => parser.wf(),
        Driver::Cyk { parser, postlex, .. } => parser.wf() && (postlex matches Some((_, symbols))
            ==> symbols@.len() <= symbols::UNSET_ID),
    }
}

/// The tokens of a text, with indentation turned into tokens.
pub open spec fn indented_tokens(
    l: lexer::LexerModel,
    cfg: postlex::IndenterModel,
    infos: Seq<symbols::SymbolInfo>,
    text: Seq<char>,
) -> Result<Seq<tree::TokenModel>, error::ErrorModel> {
    match lexer::lexed(l, text, lexer::origin_place()) {
        Ok(ts) => postlex::indented(cfg, infos, ts),
        Err(e) => Err(e),
    }
}

/// Whether `r` is the result of an Earley parse of tokens, or why there are
/// none.
pub open spec fn earley_of(
    p: EarleyParser,
    tokens: Result<Seq<tree::TokenModel>, error::ErrorModel>,
    start: Option<Seq<char>>,
    resolve: bool,
    r: Result<tree::Node, error::ErrorModel>,
) -> bool {
    match tokens {
        Ok(ts) => earley::parse_result(p, ts, start, resolve, r),
        Err(e) => r == Err::<tree::Node, error::ErrorModel>(e),
    }
}

/// The result of an LALR parse of tokens, or why there are none.
pub open spec fn lalr_of(
    p: LalrParser,
    tokens: Result<Seq<tree::TokenModel>, error::ErrorModel>,
    start: Option<Seq<char>>,
) -> Result<tree::Node, error::ErrorModel> {
    match tokens {
        Ok(ts) => lalr::parse_model::<PreLexed>(p.table, ts, start),
        Err(e) => Err(e),
    }
}

/// Whether `r` is the result of parsing a text with a driver.
pub open spec fn driver_result(
    d: Driver,
    text: Seq<char>,
    start: Option<Seq<char>>,
    r: Result<tree::Node, error::ErrorModel>,
) -> bool {
    match d {
        Driver::LalrBasic { parser, lexer } => r == lalr_of(
            parser,
            lexer::lexed(lexer@, text, lexer::origin_place()),
            start,
        ),
        Driver::LalrContextual { parser, lexer } => r == lalr::parse_model::<
            lex_sources::Contextual,
        >(
            parser.table,
            lex_sources::lazy_start(lex_sources::KindModel::Contextual(lexer@), text),
            start,
        ),
        Driver::LalrPostlex { parser, lexer, postlex, symbols } => r == lalr_of(
            parser,
            indented_tokens(lexer@, postlex@, symbols@, text),
            start,
        ),
        Driver::LalrContextualPostlex { parser, lexer, postlex, symbols } => r
            == lex_sources::indented_parse(
            parser.table,
            lex_sources::indented_source(
                lex_sources::KindModel::Contextual(lexer@),
                text,
                postlex@,
                symbols@,
            ),
            start,
        ),
        Driver::EarleyBasic { parser, lexer, resolve } => earley_of(
            parser,
            lexer::lexed(lexer@, text, lexer::origin_place()),
            start,
            resolve,
            r,
        ),
        Driver::EarleyPostlex { parser, lexer, postlex, symbols, resolve } => earley_of(
            parser,
            indented_tokens(lexer@, postlex@, symbols@, text),
            start,
            resolve,
            r,
        ),
        Driver::EarleyDynamic { parser, matcher, resolve, complete_lex } => {
            earley_dynamic::dynamic_result(
                parser,
                earley_dynamic::Input { matcher: matcher@, text, complete: complete_lex },
                start,
                resolve,
                r,
            )
        },
        Driver::Cyk { parser, lexer, postlex } => {
            let tokens = match postlex {
                Some((indenter, symbols)) => indented_tokens(
                    lexer@,
                    indenter@,
                    symbols@,
                    text,
                ),
                None => lexer::lexed(lexer@, text, lexer::origin_place()),
            };
            r == match tokens {
                Ok(ts) => cyk::cyk_parse(
                    parser.model(),
                    parser.spec_grammar().symbols@,
                    parser.spec_grammar().start@,
                    ts,
                    start,
                ),
                Err(e) => Err(e),
            }
        },
    }
}

/// The outcome of a recovering parse of a text with a driver; only LALR
/// parsers recover.
pub open spec fn driver_recovery<H: RecoveryHandler>(
    d: Driver,
    text: Seq<char>,
    start: Option<Seq<char>>,
    handler: H::Content,
) -> Option<recovery::RecoveredModel<H::Content>> {
    match d {
        Driver::LalrBasic { parser, lexer } => Some(
            recovery::basic_recovery::<H>(
                lexer@,
                parser.table,
                text,
                start,
                handler,
                Seq::empty(),
            ),
        ),
        Driver::LalrContextual { parser, lexer } => Some(
            recovery::recover_model::<lex_sources::Contextual, H>(
                parser.table,
                lex_sources::lazy_start(lex_sources::KindModel::Contextual(lexer@), text),
                start,
                handler,
                Seq::empty(),
            ),
        ),
        Driver::LalrPostlex { parser, lexer, postlex, symbols } => Some(
            lex_sources::indented_recovery::<H>(
                parser.table,
                lex_sources::indented_source(
                    lex_sources::KindModel::Basic(lexer@),
                    text,
                    postlex@,
                    symbols@,
                ),
                start,
                handler,
                Seq::empty(),
            ),
        ),
        Driver::LalrContextualPostlex { parser, lexer, postlex, symbols } => Some(
            lex_sources::indented_recovery::<H>(
                parser.table,
                lex_sources::indented_source(
                    lex_sources::KindModel::Contextual(lexer@),
                    text,
                    postlex@,
                    symbols@,
                ),
                start,
                handler,
                Seq::empty(),
            ),
        ),
        _ => None,
    }
}

/// The parser and lexer of an interactive parse, for the drivers that have one.
pub open spec fn driver_interactive(d: Driver) -> Option<
    (lalr_table::ParseTable, lex_sources::KindModel),
> {
    match d {
        Driver::LalrBasic { parser, lexer } => Some(
            (parser.table, lex_sources::KindModel::Basic(lexer@)),
        ),
        Driver::LalrContextual { parser, lexer } => Some(
            (parser.table, lex_sources::KindModel::Contextual(lexer@)),
        ),
        _ => None,
    }
}

/// A parser with the lexer that it works with.
pub struct ParsingFrontend {
    pub driver: Driver,
}

/// Whether a failure is the given report.
pub open spec fn refuses(e: LarkError, msg: Seq<char>) -> bool {
    e matches LarkError::Grammar(GrammarError::Other { msg: m }) && m@ == msg
}

fn refusal(msg: &str) -> (r: LarkError)
    ensures
        refuses(r, msg@),
{
    LarkError::Grammar(GrammarError::Other { msg: owned(msg) })
}

fn recovered(
    r: Result<Option<ParseTree>, ParseError>,
    errors: Vec<ParseError>,
) -> (out: Result<RecoveredTree, LarkError>)
    ensures
        match (r, out) {
            (Ok(t), Ok(rt)) => rt.tree == t && rt.errors == errors,
            (Err(e), Err(LarkError::Parse(f))) => e == f,
            _ => false,
        },
{
    match r {
        Ok(tree) => Ok(RecoveredTree { tree, errors }),
        Err(e) => Err(LarkError::Parse(e)),
    }
}

impl ParsingFrontend {
    /// Whether the parts of the frontend are in order.
    pub open spec fn wf(&self) -> bool {
        driver_ok(self.driver)
    }

    /// Parses a text.
    pub fn parse(&self, text: &str, start: Option<&str>) -> (r: Result<ParseTree, ParseError>)
        requires
            self.wf(),
        ensures
            driver_result(self.driver, text@, lalr::opt_text(start), lalr::parsed(r)),
    {
        match &self.driver {
            Driver::LalrBasic { parser, lexer } => match lexer.lex(text) {
                Ok(tokens) => parser.parse(tokens, start),
                Err(e) => Err(e),
            },
            Driver::LalrContextual { parser, lexer } => parser.parse_contextual(
                text,
                lexer,
                start,
            ),
            Driver::LalrPostlex { parser, lexer, postlex, symbols } => match lexer.lex(text) {
                Ok(tokens) => match postlex.process(tokens, symbols) {
                    Ok(tokens) => parser.parse(tokens, start),
                    Err(e) => Err(e),
                },
                Err(e) => Err(e),
            },
            Driver::LalrContextualPostlex { parser, lexer, postlex, symbols } => {
                parser.parse_contextual_postlex(text, lexer, postlex, symbols, start)
            },
            Driver::EarleyBasic { parser, lexer, resolve } => match lexer.lex(text) {
                Ok(tokens) => parser.parse(tokens.as_slice(), start, *resolve),
                Err(e) => Err(e),
            },
            Driver::EarleyPostlex { parser, lexer, postlex, symbols, resolve } => {
                match lexer.lex(text) {
                    Ok(tokens) => match postlex.process(tokens, symbols) {
                        Ok(tokens) => parser.parse(tokens.as_slice(), start, *resolve),
                        Err(e) => Err(e),
                    },
                    Err(e) => Err(e),
                }
            },
            Driver::EarleyDynamic { parser, matcher, resolve, complete_lex } => {
                parser.parse_dynamic(text, start, *resolve, *complete_lex, matcher)
            },
            Driver::Cyk { parser, lexer, postlex } => {
                let tokens = match lexer.lex(text) {
                    Ok(tokens) => tokens,
                    Err(e) => {
                        return Err(e);
                    },
                };
                match postlex {
                    None => parser.parse(tokens.as_slice(), start),
                    Some((indenter, symbols)) => match indenter.process(tokens, symbols) {
                        Ok(tokens) => parser.parse(tokens.as_slice(), start),
                        Err(e) => Err(e),
                    },
                }
            },
        }
    }

    /// Parses a text with recovery: after each error the handler decides how to
    /// go on. Only LALR parsers recover.
    pub fn parse_recovering<H: RecoveryHandler>(
        &self,
        text: &str,
        start: Option<&str>,
        on_error: &mut H,
    ) -> (r: Result<RecoveredTree, LarkError>)
        requires
            self.wf(),
        ensures
            match driver_recovery::<H>(
                self.driver,
                text@,
                lalr::opt_text(start),
                old(on_error).content(),
            ) {
                None => r matches Err(e) && refuses(e, "error recovery requires parser='lalr'"@)
                    && final(on_error).content() == old(on_error).content(),
                Some(m) => m.handler == final(on_error).content() && match r {
                    Ok(rt) => m.result == Ok::<Option<tree::Node>, error::ErrorModel>(
                        recovery::opt_tree(rt.tree),
                    ) && m.errors == recovery::error_models(rt.errors@),
                    Err(LarkError::Parse(e)) => m.result == Err::<
                        Option<tree::Node>,
                        error::ErrorModel,
                    >(e@),
                    Err(_) => false,
                },
            },
    {
        let mut errors: Vec<ParseError> = Vec::new();
        proof {
            assert(recovery::error_models(errors@) =~= Seq::empty());
        }
        match &self.driver {
            Driver::LalrBasic { parser, lexer } => {
                let t = parser.parse_basic_recovering(text, lexer, start, on_error, &mut errors);
                recovered(t, errors)
            },
            Driver::LalrContextual { parser, lexer } => {
                let t = parser.parse_contextual_recovering(
                    text,
                    lexer,
                    start,
                    on_error,
                    &mut errors,
                );
                recovered(t, errors)
            },
            Driver::LalrPostlex { parser, lexer, postlex, symbols } => {
                let t = parser.parse_basic_postlex_recovering(
                    text,
                    lexer,
                    postlex,
                    symbols,
                    start,
                    on_error,
                    &mut errors,
                );
                recovered(t, errors)
            },
            Driver::LalrContextualPostlex { parser, lexer, postlex, symbols } => {
                let t = parser.parse_contextual_postlex_recovering(
                    text,
                    lexer,
                    postlex,
                    symbols,
                    start,
                    on_error,
                    &mut errors,
                );
                recovered(t, errors)
            },
            _ => Err(refusal("error recovery requires parser='lalr'")),
        }
    }

    /// Begins a parse that is driven from outside. Only LALR parsers without
    /// indentation can be driven.
    pub fn parse_interactive(&self, text: &str, start: Option<&str>) -> (r: Result<
        InteractiveParser<'_>,
        LarkError,
    >)
        requires
            self.wf(),
        ensures
            match driver_interactive(self.driver) {
                None => r matches Err(e) && refuses(
                    e,
                    "interactive parsing requires parser='lalr' (without postlex)"@,
                ),
                Some((table, lexer)) => match (r, lalr::initial(table, lalr::opt_text(start))) {
                    (Ok(p), Ok(s)) => p.wf() && p.model() == interactive::driven_start(
                        table,
                        lexer,
                        s,
                        text@,
                    ),
                    (Err(LarkError::Parse(e)), Err(f)) => e@ == f,
                    _ => false,
                },
            },
    {
        match &self.driver {
            Driver::LalrBasic { parser, lexer } => match parser.initial_stack(start) {
                Ok(stack) => {
                    proof {
                        assert(stack.state_stack@ =~= seq![stack.state_stack@[0]]);
                    }
                    Ok(InteractiveParser::new_basic(parser, lexer, stack, text))
                },
                Err(e) => Err(LarkError::Parse(e)),
            },
            Driver::LalrContextual { parser, lexer } => match parser.initial_stack(start) {
                Ok(stack) => {
                    proof {
                        assert(stack.state_stack@ =~= seq![stack.state_stack@[0]]);
                    }
                    Ok(InteractiveParser::new_contextual(parser, lexer, stack, text))
                },
                Err(e) => Err(LarkError::Parse(e)),
            },
            _ => Err(refusal("interactive parsing requires parser='lalr' (without postlex)")),
        }
    }
}

// ---------------------------------------------------------------------------
// Building

/// The terminals of a grammar that have a pattern.
pub open spec fn terms_of(g: CompiledGrammar) -> Seq<Terminal> {
    lexer::lexed_terminals(g, g.terminals@.len())
}

/// The report of the first terminal that matches the empty text.
pub open spec fn zero_width_fault(g: CompiledGrammar, o: LarkOptions) -> Option<Seq<char>> {
    match lexer::first_empty(pattern::flags_prefix(o.g_regex_flags), terms_of(g), 0) {
        Some(i) => Some(lexer::empty_message(terms_of(g)[i].def.name@)),
        None => None,
    }
}

/// The report of the first terminal whose expression is refused.
pub open spec fn pattern_fault(g: CompiledGrammar, o: LarkOptions) -> Option<Seq<char>> {
    match scanner::first_invalid(pattern::flags_prefix(o.g_regex_flags), terms_of(g), 0) {
        Some(i) => Some(scanner::invalid_message(terms_of(g)[i].def.name@)),
        None => None,
    }
}

/// The report of an indenter that does not fit the grammar.
pub open spec fn indenter_fault(g: CompiledGrammar, o: LarkOptions) -> Option<Seq<char>> {
    match o.postlex {
        Some(p) => postlex::misfit(p@, g.symbols@),
        None => None,
    }
}

/// The first of two reports.
pub open spec fn first_of(a: Option<Seq<char>>, b: Option<Seq<char>>) -> Option<Seq<char>> {
    if a is Some {
        a
    } else {
        b
    }
}

/// Whether a basic lexer is that of a grammar.
pub open spec fn is_basic_lexer(g: CompiledGrammar, o: LarkOptions, l: BasicLexer) -> bool {
    l@ == (lexer::LexerModel {
        plan: scanner::plan_of(terms_of(g), o.g_regex_flags),
        terminals: terms_of(g),
        ignore: g.ignore@,
    })
}

/// What every state of a contextual lexer admits: what is ignored, and the
/// newline of the indenter.
pub open spec fn always_of(g: CompiledGrammar, o: LarkOptions) -> Seq<SymbolId> {
    match o.postlex {
        None => g.ignore@,
        Some(p) => match symbols::id_of(g.symbols@, p@.nl_type) {
            Some(id) => if g.ignore@.contains(id) {
                g.ignore@
            } else {
                g.ignore@.push(id)
            },
            None => g.ignore@,
        },
    }
}

/// The contextual lexer of a grammar and its table.
pub open spec fn is_contextual_lexer(
    g: CompiledGrammar,
    o: LarkOptions,
    table: lalr_table::ParseTable,
    l: ContextualLexer,
) -> bool {
    l@ == (lexer::ContextualModel {
        root: scanner::plan_of(terms_of(g), o.g_regex_flags),
        states: Seq::new(
            table.action@.len(),
            |s: int|
                scanner::plan_of(
                    lexer::admitted(
                        terms_of(g),
                        Seq::new(
                            table.action@[s]@.len(),
                            |i: int| SymbolId(table.action@[s]@[i].0),
                        ),
                        always_of(g, o),
                        terms_of(g).len(),
                    ),
                    o.g_regex_flags,
                ),
        ),
        terminals: terms_of(g),
        ignore: g.ignore@,
    })
}

/// Whether lexing goes by the parser state.
pub open spec fn lexes_by_state(o: LarkOptions) -> bool {
    o.lexer is Contextual || o.lexer is Auto
}

/// Whether `r` is the LALR driver of a grammar with that table.
pub open spec fn lalr_driver(
    g: CompiledGrammar,
    o: LarkOptions,
    table: lalr_table::ParseTable,
    r: Result<Driver, LarkError>,
) -> bool {
    match first_of(
        zero_width_fault(g, o),
        first_of(indenter_fault(g, o), pattern_fault(g, o)),
    ) {
        Some(msg) => r matches Err(e) && refuses(e, msg),
        None => match r {
            Ok(Driver::LalrBasic { parser, lexer }) => o.postlex is None && !lexes_by_state(o)
                && parser.table == table && is_basic_lexer(g, o, lexer),
            Ok(Driver::LalrContextual { parser, lexer }) => o.postlex is None && lexes_by_state(o)
                && parser.table == table && is_contextual_lexer(g, o, table, lexer),
            Ok(Driver::LalrPostlex { parser, lexer, postlex, symbols }) => !lexes_by_state(o)
                && parser.table == table && is_basic_lexer(g, o, lexer) && symbols@ == g.symbols@
                && (o.postlex matches Some(p) && p@ == postlex@),
            Ok(Driver::LalrContextualPostlex { parser, lexer, postlex, symbols }) => lexes_by_state(
                o,
            ) && parser.table == table
                && is_contextual_lexer(g, o, table, lexer) && symbols@ == g.symbols@
                && (o.postlex matches Some(p) && p@ == postlex@),
            _ => false,
        },
    }
}

/// Whether `r` is the LALR driver of a grammar: conflicts are reported first,
/// those that shared helper rules hide among them.
pub open spec fn lalr_built(
    g: Grammar,
    o: LarkOptions,
    r: Result<Driver, LarkError>,
) -> bool {
    exists|t: Result<lalr_table::ParseTable, GrammarError>|
        #[trigger] lalr_table::table_result(g.compiled, o.strict, t) && match t {
            Err(e) => r == Err::<Driver, LarkError>(LarkError::Grammar(e)),
            Ok(table) => lalr_checked(g, o, table, r),
        }
}

/// Whether `r` is the LALR driver of a grammar that has that table.
pub open spec fn lalr_checked(
    g: Grammar,
    o: LarkOptions,
    table: lalr_table::ParseTable,
    r: Result<Driver, LarkError>,
) -> bool {
    exists|a: Result<(), GrammarError>|
        #[trigger] lalr_table::audit_result(g, o.strict, a) && match a {
            Err(e) => r == Err::<Driver, LarkError>(LarkError::Grammar(e)),
            Ok(_) => lalr_driver(g.compiled, o, table, r),
        }
}

/// Whether `r` is the Earley driver of a grammar.
pub open spec fn earley_built(
    g: CompiledGrammar,
    o: LarkOptions,
    r: Result<Driver, LarkError>,
) -> bool {
    let resolve = o.ambiguity is Resolve;
    let dynamic = o.lexer is Dynamic || o.lexer is DynamicComplete;
    if o.ambiguity is Forest {
        r matches Err(e) && refuses(e, "Earley ambiguity='forest' (raw SPPF) is not supported"@)
    } else if dynamic {
        match pattern_fault(g, o) {
            Some(msg) => r matches Err(e) && refuses(e, msg),
            None => r matches Ok(Driver::EarleyDynamic {
                parser,
                matcher,
                resolve: res,
                complete_lex,
            }) && parser.grammar == g && res == resolve && complete_lex == o.lexer is DynamicComplete
                && matcher@ == (lexer::MatcherModel {
                prefix: pattern::flags_prefix(o.g_regex_flags),
                terminals: terms_of(g),
                ignore: g.ignore@,
            }),
        }
    } else {
        match first_of(
            zero_width_fault(g, o),
            first_of(pattern_fault(g, o), indenter_fault(g, o)),
        ) {
            Some(msg) => r matches Err(e) && refuses(e, msg),
            None => match r {
                Ok(Driver::EarleyBasic { parser, lexer, resolve: res }) => o.postlex is None
                    && parser.grammar == g && res == resolve && is_basic_lexer(g, o, lexer),
                Ok(
                    Driver::EarleyPostlex { parser, lexer, postlex, symbols, resolve: res },
                ) => parser.grammar == g && res == resolve
                    && is_basic_lexer(g, o, lexer) && symbols@ == g.symbols@
                    && (o.postlex matches Some(p) && p@ == postlex@),
                _ => false,
            },
        }
    }
}

/// Whether `r` is the CYK driver of a grammar.
pub open spec fn cyk_built(
    g: CompiledGrammar,
    o: LarkOptions,
    r: Result<Driver, LarkError>,
) -> bool {
    match first_of(
        zero_width_fault(g, o),
        first_of(
            pattern_fault(g, o),
            first_of(
                indenter_fault(g, o),
                cnf::cnf_error(g.models(), g.terminal_count as nat, g.start@, g.symbols@),
            ),
        ),
    ) {
        Some(msg) => r matches Err(e) && refuses(e, msg),
        None => r matches Ok(Driver::Cyk { parser, lexer, postlex }) && parser.spec_grammar() == g
            && is_basic_lexer(g, o, lexer) && match (postlex, o.postlex) {
            (None, None) => true,
            (Some((p, symbols)), Some(q)) => p@ == q@ && symbols@ == g.symbols@,
            _ => false,
        },
    }
}

/// Whether `r` is the driver that the options ask for.
pub open spec fn driver_built(
    g: Grammar,
    o: LarkOptions,
    r: Result<Driver, LarkError>,
) -> bool {
    if o.postlex is Some && (o.lexer is Dynamic || o.lexer is DynamicComplete) {
        r matches Err(e) && refuses(
            e,
            "Can't use postlex with a dynamic lexer. Use lexer='basic' instead"@,
        )
    } else {
        match o.parser {
            ParserAlgorithm::Lalr => lalr_built(g, o, r),
            ParserAlgorithm::Earley => earley_built(g.compiled, o, r),
            ParserAlgorithm::Cyk => cyk_built(g.compiled, o, r),
        }
    }
}

/// The driver of a frontend, or why there is none.
pub open spec fn driver_of(r: Result<ParsingFrontend, LarkError>) -> Result<Driver, LarkError> {
    match r {
        Ok(f) => Ok(f.driver),
        Err(e) => Err(e),
    }
}

fn as_refusal(e: GrammarError) -> (r: LarkError)
    ensures
        forall|msg: Seq<char>| scanner::reports(e, msg) ==> #[trigger] refuses(r, msg),
{
    LarkError::Grammar(e)
}

fn make_basic_lexer(
    conf: &LexerConf,
    Ghost(g): Ghost<CompiledGrammar>,
    Ghost(o): Ghost<LarkOptions>,
) -> (r: Result<BasicLexer, LarkError>)
    requires
        conf.terminals@ == terms_of(g),
        conf.ignore@ == g.ignore@,
        conf.global_flags == o.g_regex_flags,
    ensures
        match pattern_fault(g, o) {
            Some(msg) => r matches Err(e) && refuses(e, msg),
            None => r matches Ok(l) && is_basic_lexer(g, o, l),
        },
{
    match BasicLexer::new(conf) {
        Ok(l) => Ok(l),
        Err(e) => Err(as_refusal(e)),
    }
}

fn check_zero_width(
    conf: &LexerConf,
    Ghost(g): Ghost<CompiledGrammar>,
    Ghost(o): Ghost<LarkOptions>,
) -> (r: Result<(), LarkError>)
    requires
        conf.terminals@ == terms_of(g),
        conf.global_flags == o.g_regex_flags,
    ensures
        match zero_width_fault(g, o) {
            Some(msg) => r matches Err(e) && refuses(e, msg),
            None => r is Ok,
        },
{
    match check_zero_width_terminals(conf) {
        Ok(_) => Ok(()),
        Err(e) => Err(as_refusal(e)),
    }
}

fn check_indenter(grammar: &CompiledGrammar, options: &LarkOptions) -> (r: Result<(), LarkError>)
    requires
        grammar.wf(),
    ensures
        match indenter_fault(*grammar, *options) {
            Some(msg) => r matches Err(e) && refuses(e, msg),
            None => r is Ok,
        },
{
    match &options.postlex {
        None => Ok(()),
        Some(p) => match p.validate(&grammar.symbols) {
            Ok(_) => Ok(()),
            Err(e) => Err(as_refusal(e)),
        },
    }
}

fn always_accepted(grammar: &CompiledGrammar, options: &LarkOptions) -> (r: Vec<SymbolId>)
    requires
        grammar.wf(),
    ensures
        r@ == always_of(*grammar, *options),
{
    let mut r = copy_ids(&grammar.ignore);
    if let Some(p) = &options.postlex {
        if let Some(id) = grammar.symbols.id(p.nl_type.as_str()) {
            let mut i: usize = 0;
            while i < r.len()
                invariant
                    i <= r@.len(),
                    r@ == grammar.ignore@,
                    *options == *options,
                    options.postlex == Some(*p),
                    symbols::id_of(grammar.symbols@, p.nl_type@) == Some(id),
                    forall|k: int| 0 <= k < i ==> #[trigger] r@[k] != id,
                decreases r.len() - i,
            {
                if r[i] == id {
                    proof {
                        assert(grammar.ignore@[i as int] == id);
                    }
                    return r;
                }
                i = i + 1;
            }
            r.push(id);
        }
    }
    r
}

/// Builds an LALR driver. Only the table is strict: no terminal is refused for
/// what it has in common with another.
fn build_lalr(grammar: Grammar, options: &LarkOptions) -> (r: Result<Driver, LarkError>)
    requires
        grammar.compiled.wf(),
        lexer::terminals_known(grammar.compiled),
        grammar.lalr_audit matches Some(g) ==> g.wf(),
    ensures
        lalr_built(grammar, *options, r),
        r matches Ok(d) ==> driver_ok(d),
{
    let ghost o = *options;
    let t = build_lalr_table(&grammar.compiled, options.strict);
    proof {
        assert(lalr_table::table_result(grammar.compiled, o.strict, t));
    }
    let table = match t {
        Ok(table) => table,
        Err(e) => {
            return Err(LarkError::Grammar(e));
        },
    };
    let a = audit_lalr_reduce_reduce(&grammar, options.strict);
    proof {
        assert(lalr_table::audit_result(grammar, o.strict, a));
    }
    match a {
        Ok(_) => {},
        Err(e) => {
            let r: Result<Driver, LarkError> = Err(LarkError::Grammar(e));
            proof {
                assert(lalr_checked(grammar, o, table, r));
            }
            return r;
        },
    }
    let r = finish_lalr(&grammar.compiled, options, table);
    proof {
        assert(lalr_driver(grammar.compiled, o, table, r));
        assert(lalr_checked(grammar, o, table, r));
    }
    r
}

fn finish_lalr(
    grammar: &CompiledGrammar,
    options: &LarkOptions,
    table: lalr_table::ParseTable,
) -> (r: Result<Driver, LarkError>)
    requires
        grammar.wf(),
        lexer::terminals_known(*grammar),
        table.wf(),
    ensures
        lalr_driver(*grammar, *options, table, r),
        r matches Ok(d) ==> driver_ok(d),
{
    let ghost g = *grammar;
    let ghost o = *options;
    let conf = basic_lexer_conf(grammar, options.g_regex_flags);
    match check_zero_width(&conf, Ghost(g), Ghost(o)) {
        Ok(_) => {},
        Err(e) => {
            return Err(e);
        },
    }
    match check_indenter(grammar, options) {
        Ok(_) => {},
        Err(e) => {
            return Err(e);
        },
    }
    let parser = LalrParser::new(table);
    let by_state = match options.lexer {
        LexerType::Contextual | LexerType::Auto => true,
        _ => false,
    };
    if by_state {
        let state_terminals = parser.state_terminals();
        let always = always_accepted(grammar, options);
        let lexer = match ContextualLexer::new(&conf, &state_terminals, &always) {
            Ok(l) => l,
            Err(e) => {
                return Err(as_refusal(e));
            },
        };
        proof {
            let want = lexer::contextual_of(conf, state_terminals@, always@);
            let m = Seq::new(
                table.action@.len(),
                |s: int|
                    scanner::plan_of(
                        lexer::admitted(
                            terms_of(g),
                            Seq::new(
                                table.action@[s]@.len(),
                                |i: int| SymbolId(table.action@[s]@[i].0),
                            ),
                            always_of(g, o),
                            terms_of(g).len(),
                        ),
                        o.g_regex_flags,
                    ),
            );
            assert forall|s: int| 0 <= s < m.len() implies want.states[s] == #[trigger] m[s] by {
                assert(state_terminals@[s]@ == Seq::new(
                    table.action@[s]@.len(),
                    |i: int| SymbolId(table.action@[s]@[i].0),
                ));
            }
            assert(want.states =~= m);
            assert(is_contextual_lexer(g, o, table, lexer));
        }
        match &options.postlex {
            None => Ok(Driver::LalrContextual { parser, lexer }),
            Some(p) => Ok(
                Driver::LalrContextualPostlex {
                    parser,
                    lexer,
                    postlex: p.copy(),
                    symbols: grammar.symbols.copy(),
                },
            ),
        }
    } else {
        let lexer = match make_basic_lexer(&conf, Ghost(g), Ghost(o)) {
            Ok(l) => l,
            Err(e) => {
                return Err(e);
            },
        };
        match &options.postlex {
            None => Ok(Driver::LalrBasic { parser, lexer }),
            Some(p) => Ok(
                Driver::LalrPostlex {
                    parser,
                    lexer,
                    postlex: p.copy(),
                    symbols: grammar.symbols.copy(),
                },
            ),
        }
    }
}

/// Builds an Earley driver; what the terminals have in common is not looked at.
fn build_earley(grammar: CompiledGrammar, options: &LarkOptions) -> (r: Result<Driver, LarkError>)
    requires
        grammar.wf(),
        lexer::terminals_known(grammar),
    ensures
        earley_built(grammar, *options, r),
        r matches Ok(d) ==> driver_ok(d),
{
    let ghost g = grammar;
    let ghost o = *options;
    let conf = basic_lexer_conf(&grammar, options.g_regex_flags);
    let resolve = match options.ambiguity {
        Ambiguity::Resolve => true,
        Ambiguity::Explicit => false,
        Ambiguity::Forest => {
            return Err(refusal("Earley ambiguity='forest' (raw SPPF) is not supported"));
        },
    };
    match options.lexer {
        LexerType::Dynamic | LexerType::DynamicComplete => {
            let complete_lex = match options.lexer {
                LexerType::DynamicComplete => true,
                _ => false,
            };
            match DynamicMatcher::new(&conf) {
                Ok(matcher) => Ok(
                    Driver::EarleyDynamic {
                        parser: EarleyParser::new(grammar),
                        matcher,
                        resolve,
                        complete_lex,
                    },
                ),
                Err(e) => Err(as_refusal(e)),
            }
        },
        _ => {
            match check_zero_width(&conf, Ghost(g), Ghost(o)) {
                Ok(_) => {},
                Err(e) => {
                    return Err(e);
                },
            }
            let lexer = match make_basic_lexer(&conf, Ghost(g), Ghost(o)) {
                Ok(l) => l,
                Err(e) => {
                    return Err(e);
                },
            };
            match check_indenter(&grammar, options) {
                Ok(_) => {},
                Err(e) => {
                    return Err(e);
                },
            }
            match &options.postlex {
                None => Ok(
                    Driver::EarleyBasic { parser: EarleyParser::new(grammar), lexer, resolve },
                ),
                Some(p) => {
                    let symbols = grammar.symbols.copy();
                    Ok(
                        Driver::EarleyPostlex {
                            parser: EarleyParser::new(grammar),
                            lexer,
                            postlex: p.copy(),
                            symbols,
                            resolve,
                        },
                    )
                },
            }
        },
    }
}

/// Builds a CYK driver; what the terminals have in common is not looked at.
fn build_cyk(grammar: CompiledGrammar, options: &LarkOptions) -> (r: Result<Driver, LarkError>)
    requires
        grammar.wf(),
        lexer::terminals_known(grammar),
    ensures
        cyk_built(grammar, *options, r),
        r matches Ok(d) ==> driver_ok(d),
{
    let ghost g = grammar;
    let ghost o = *options;
    let conf = basic_lexer_conf(&grammar, options.g_regex_flags);
    match check_zero_width(&conf, Ghost(g), Ghost(o)) {
        Ok(_) => {},
        Err(e) => {
            return Err(e);
        },
    }
    let lexer = match make_basic_lexer(&conf, Ghost(g), Ghost(o)) {
        Ok(l) => l,
        Err(e) => {
            return Err(e);
        },
    };
    match check_indenter(&grammar, options) {
        Ok(_) => {},
        Err(e) => {
            return Err(e);
        },
    }
    let postlex = match &options.postlex {
        None => None,
        Some(p) => Some((p.copy(), grammar.symbols.copy())),
    };
    match CykParser::new(grammar) {
        Ok(parser) => Ok(Driver::Cyk { parser, lexer, postlex }),
        Err(e) => Err(as_refusal(e)),
    }
}

/// Builds the frontend that the options ask for.
pub fn build_frontend(grammar: Grammar, options: &LarkOptions) -> (r: Result<
    ParsingFrontend,
    LarkError,
>)
    requires
        grammar.compiled.wf(),
        lexer::terminals_known(grammar.compiled),
        grammar.lalr_audit matches Some(g) ==> g.wf(),
    ensures
        driver_built(grammar, *options, driver_of(r)),
        r matches Ok(f) ==> f.wf(),
{
    if options.postlex.is_some() {
        match options.lexer {
            LexerType::Dynamic | LexerType::DynamicComplete => {
                return Err(
                    refusal("Can't use postlex with a dynamic lexer. Use lexer='basic' instead"),
                );
            },
            _ => {},
        }
    }
    let r = match options.parser {
        ParserAlgorithm::Lalr => build_lalr(grammar, options),
        ParserAlgorithm::Earley => build_earley(grammar.compiled, options),
        ParserAlgorithm::Cyk => build_cyk(grammar.compiled, options),
    };
    match r {
        Ok(driver) => Ok(ParsingFrontend { driver }),
        Err(e) => Err(e),
    }
}

} // verus!
