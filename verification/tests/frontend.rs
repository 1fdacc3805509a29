use lark::error::{GrammarError, ParseError, RecoveryAction};
use lark::frontend::{
    build_frontend, Ambiguity, LarkError, LarkOptions, LexerType, ParserAlgorithm, ParsingFrontend,
};
use lark::lalr::LalrParser;
use lark::lalr_table::{audit_lalr_reduce_reduce, build_lalr_table, Grammar};
use lark::lex_sources::Contextual;
use lark::lexer::{basic_lexer_conf, BasicLexer};
use lark::recons_rules::{Rule, RuleSet, Symbol};
use lark::reconstruct::Reconstructor;
use lark::recovery::Always;
use lark::span_tree::SpanTreeBuilder;
use lark::symbols::{
    CompiledGrammar, CompiledRule, Pattern, RuleOptions, SymbolId, SymbolTable, TerminalDef,
};
use lark::token_source::PreLexed;
use lark::tree::{Child, ParseTree, Tree};

/// A terminal that stands for its text.
fn text(value: &str) -> Pattern {
    Pattern::Str { value: value.to_string(), ci: false }
}

/// A terminal given by a regular expression.
fn regex(pattern: &str) -> Pattern {
    Pattern::Re { pattern: pattern.to_string(), flags: String::new() }
}

/// A rule: its origin (`?` in front collapses single children, `_` makes it
/// transparent), its symbols (`~` in front drops the token), its alias, and how
/// many placeholders it leaves.
type Line<'a> = (&'a str, &'a [&'a str], &'a str, usize);

/// The grammar of terminals and rules, from the symbol `start`.
fn grammar(terms: &[(&str, Pattern)], lines: &[Line<'_>], ignore: &[&str]) -> CompiledGrammar {
    let mut symbols = SymbolTable::new();
    for (name, _) in terms {
        symbols.intern(name, true, false);
    }
    let terminal_count = symbols.len();
    for (origin, _, _, _) in lines {
        let name = origin.trim_start_matches('?');
        if symbols.id(name).is_none() {
            symbols.intern(name, false, name.starts_with('_'));
        }
    }
    let root = symbols.intern("$root_start", false, false);
    let start = symbols.id("start").unwrap();
    let mut rules = Vec::new();
    for (i, (origin, expansion, alias, placeholders)) in lines.iter().enumerate() {
        let name = origin.trim_start_matches('?');
        let ids: Vec<SymbolId> = expansion
            .iter()
            .map(|s| symbols.id(s.trim_start_matches('~')).unwrap())
            .collect();
        let label = if alias.is_empty() { name } else { alias };
        let mut rule = CompiledRule::plain(symbols.id(name).unwrap(), ids, label);
        rule.filter_pos = expansion.iter().map(|s| s.starts_with('~')).collect();
        rule.transparent = name.starts_with('_');
        rule.options.expand1 = origin.starts_with('?');
        rule.options.placeholder_count = *placeholders;
        if !alias.is_empty() {
            rule.alias = Some(alias.to_string());
        }
        rule.order = i;
        rules.push(rule);
    }
    let mut first = CompiledRule::plain(root, vec![start], "$root_start");
    first.is_start = true;
    rules.push(first);
    let ids: Vec<SymbolId> = ignore.iter().map(|s| symbols.id(s).unwrap()).collect();
    let terminals = terms
        .iter()
        .map(|(name, p)| TerminalDef {
            name: name.to_string(),
            declared: false,
            pattern: match p {
                Pattern::Str { value, ci } => Pattern::Str { value: value.clone(), ci: *ci },
                Pattern::Re { pattern, flags } => {
                    Pattern::Re { pattern: pattern.clone(), flags: flags.clone() }
                }
            },
            priority: 0,
        })
        .collect();
    let g = CompiledGrammar {
        rules,
        symbols,
        start: vec![start],
        terminals,
        ignore: ids,
        propagate_positions: false,
        terminal_count,
    };
    assert!(g.is_wf());
    g
}

/// A tree as text.
fn show(t: &ParseTree) -> String {
    match t {
        ParseTree::Tree(t) => show_tree(t),
        ParseTree::Token(t) => format!("Token({}, {:?})", t.type_, t.value),
        ParseTree::Absent => "None".to_string(),
    }
}

fn show_tree(t: &Tree) -> String {
    let parts: Vec<String> = t
        .children
        .iter()
        .map(|c| match c {
            Child::Tree(t) => show_tree(t),
            Child::Token(t) => format!("Token({}, {:?})", t.type_, t.value),
            Child::Absent => "None".to_string(),
        })
        .collect();
    format!("Tree({}, [{}])", t.data, parts.join(", "))
}

fn options(parser: ParserAlgorithm, lexer: LexerType) -> LarkOptions {
    LarkOptions {
        parser,
        lexer,
        ambiguity: Ambiguity::Resolve,
        postlex: None,
        strict: false,
        g_regex_flags: 0,
        start: vec!["start".to_string()],
    }
}

fn frontend(g: CompiledGrammar, o: &LarkOptions) -> Result<ParsingFrontend, LarkError> {
    build_frontend(Grammar { compiled: g, lalr_audit: None }, o)
}

/// start: sum
/// ?sum: sum "+" NUM -> plus | NUM
fn sums() -> CompiledGrammar {
    grammar(
        &[("PLUS", text("+")), ("NUM", regex("[0-9]+")), ("WS", regex("[ \n]+"))],
        &[
            ("start", &["sum"], "", 0),
            ("?sum", &["sum", "~PLUS", "NUM"], "plus", 0),
            ("?sum", &["NUM"], "", 0),
        ],
        &["WS"],
    )
}

fn build(g: CompiledGrammar, parser: ParserAlgorithm, lexer: LexerType) -> ParsingFrontend {
    frontend(g, &options(parser, lexer)).expect("should build")
}

fn message(r: Result<ParsingFrontend, LarkError>) -> String {
    match r {
        Err(LarkError::Grammar(GrammarError::Other { msg })) => msg,
        Err(LarkError::Grammar(GrammarError::Conflict { report })) => report,
        Err(LarkError::Parse(e)) => panic!("parse error {e:?}"),
        Ok(_) => panic!("should not build"),
    }
}

#[test]
fn every_driver_gives_the_same_tree() {
    let all = [
        (ParserAlgorithm::Lalr, LexerType::Basic),
        (ParserAlgorithm::Lalr, LexerType::Contextual),
        (ParserAlgorithm::Lalr, LexerType::Auto),
        (ParserAlgorithm::Earley, LexerType::Basic),
        (ParserAlgorithm::Earley, LexerType::Auto),
        (ParserAlgorithm::Cyk, LexerType::Basic),
    ];
    for (parser, lexer) in all {
        let f = build(sums(), parser, lexer);
        let t = f.parse("1 + 22\n+ 3", None).expect("should parse");
        assert_eq!(
            show(&t),
            "Tree(start, [Tree(plus, [Tree(plus, [Token(NUM, \"1\"), Token(NUM, \"22\")]), Token(NUM, \"3\")])])"
        );
        let one = f.parse("7", Some("start")).expect("should parse");
        assert_eq!(show(&one), "Tree(start, [Token(NUM, \"7\")])");
    }
}

#[test]
fn dynamic_lexing_splits_where_the_grammar_does() {
    // start: WORD NUM, where a word may hold digits too.
    let g = || {
        grammar(
            &[("WORD", regex("[a-z0-9]+")), ("NUM", regex("[0-9]+"))],
            &[("start", &["WORD", "NUM"], "", 0)],
            &[],
        )
    };
    let f = build(g(), ParserAlgorithm::Earley, LexerType::DynamicComplete);
    let t = f.parse("ab12", None).expect("should parse");
    let s = show(&t);
    assert!(s.starts_with("Tree(start, [Token(WORD, "), "{s}");
    assert!(f.parse("ab", None).is_err());
    // A basic lexer takes all of it as one word.
    let b = build(g(), ParserAlgorithm::Earley, LexerType::Basic);
    assert!(b.parse("ab12", None).is_err());
    // Without the shorter matches only the longest word is tried.
    let d = build(g(), ParserAlgorithm::Earley, LexerType::Dynamic);
    assert!(d.parse("ab12", None).is_err());
}

#[test]
fn contextual_lexing_goes_by_the_state() {
    // start: A_NUM COLON B_WORD, where both match letters and digits.
    let g = || {
        grammar(
            &[("FIRST", regex("[a-z]+")), ("COLON", text(":")), ("SECOND", regex("[a-z]+[0-9]?"))],
            &[("start", &["FIRST", "~COLON", "SECOND"], "", 0)],
            &[],
        )
    };
    let c = build(g(), ParserAlgorithm::Lalr, LexerType::Contextual);
    let t = c.parse("ab:cd", None).expect("should parse");
    assert_eq!(show(&t), "Tree(start, [Token(FIRST, \"ab\"), Token(SECOND, \"cd\")])");
    let b = build(g(), ParserAlgorithm::Lalr, LexerType::Basic);
    assert!(b.parse("ab:cd", None).is_err());
}

#[test]
fn a_token_out_of_place_is_told_from_a_character() {
    // A token that some other state would take is an unexpected token, whichever
    // lexer is asked; a character that begins no token is an unexpected character.
    for lexer in [LexerType::Basic, LexerType::Contextual] {
        let f = build(sums(), ParserAlgorithm::Lalr, lexer);
        match f.parse("1 + + 2", None) {
            Err(ParseError::UnexpectedToken { token, token_type, line, col, expected }) => {
                assert_eq!((token.as_str(), token_type.as_str()), ("+", "PLUS"));
                assert_eq!((line, col), (1, 5));
                assert_eq!(expected, vec!["NUM".to_string()]);
            }
            r => panic!("{r:?}"),
        }
        match f.parse("1 + !", None) {
            Err(ParseError::UnexpectedCharacter { ch, line, col, .. }) => {
                assert_eq!((ch, line, col), ('!', 1, 5));
            }
            r => panic!("{r:?}"),
        }
    }
}

#[test]
fn errors_tell_where_and_what() {
    let f = build(sums(), ParserAlgorithm::Lalr, LexerType::Basic);
    match f.parse("1 + + 2", None) {
        Err(ParseError::UnexpectedToken { token, token_type, line, col, expected }) => {
            assert_eq!((token.as_str(), token_type.as_str()), ("+", "PLUS"));
            assert_eq!((line, col), (1, 5));
            assert_eq!(expected, vec!["NUM".to_string()]);
        }
        r => panic!("{r:?}"),
    }
    match f.parse("1\n!", None) {
        Err(ParseError::UnexpectedCharacter { ch, line, col, pos, .. }) => {
            assert_eq!((ch, line, col, pos), ('!', 2, 1, 2));
        }
        r => panic!("{r:?}"),
    }
    match f.parse("1 +", None) {
        Err(ParseError::UnexpectedEof { expected, .. }) => {
            assert_eq!(expected, vec!["NUM".to_string()]);
        }
        r => panic!("{r:?}"),
    }
    for parser in [ParserAlgorithm::Lalr, ParserAlgorithm::Earley, ParserAlgorithm::Cyk] {
        let f = build(sums(), parser, LexerType::Basic);
        match f.parse("1", Some("nowhere")) {
            Err(ParseError::UnexpectedEof { expected, .. }) => {
                assert_eq!(expected, vec!["start".to_string()]);
            }
            r => panic!("{r:?}"),
        }
        assert!(f.parse("1 +", None).is_err());
    }
}

#[test]
fn unsupported_combinations_are_refused() {
    let mut o = options(ParserAlgorithm::Earley, LexerType::Basic);
    o.ambiguity = Ambiguity::Forest;
    assert_eq!(
        message(frontend(sums(), &o)),
        "Earley ambiguity='forest' (raw SPPF) is not supported"
    );
    for lexer in [LexerType::Dynamic, LexerType::DynamicComplete] {
        let mut o = options(ParserAlgorithm::Earley, lexer);
        o.postlex = Some(Default::default());
        assert_eq!(
            message(frontend(sums(), &o)),
            "Can't use postlex with a dynamic lexer. Use lexer='basic' instead"
        );
    }
    let earley = build(sums(), ParserAlgorithm::Earley, LexerType::Basic);
    match earley.parse_recovering("1", None, &mut Always { action: RecoveryAction::Delete }) {
        Err(LarkError::Grammar(GrammarError::Other { msg })) => {
            assert_eq!(msg, "error recovery requires parser='lalr'");
        }
        _ => panic!("should be refused"),
    }
    match earley.parse_interactive("1", None) {
        Err(LarkError::Grammar(GrammarError::Other { msg })) => {
            assert_eq!(msg, "interactive parsing requires parser='lalr' (without postlex)");
        }
        _ => panic!("should be refused"),
    }
}

#[test]
fn terminals_are_checked_when_a_frontend_is_built() {
    let wide = || grammar(&[("MANY", regex("a*"))], &[("start", &["MANY"], "", 0)], &[]);
    for parser in [ParserAlgorithm::Lalr, ParserAlgorithm::Earley, ParserAlgorithm::Cyk] {
        assert_eq!(
            message(frontend(wide(), &options(parser, LexerType::Basic))),
            "Lexer does not allow zero-width terminals: MANY"
        );
    }
    let broken = || grammar(&[("BAD", regex("a(b"))], &[("start", &["BAD"], "", 0)], &[]);
    for lexer in [LexerType::Basic, LexerType::Dynamic] {
        assert_eq!(
            message(frontend(broken(), &options(ParserAlgorithm::Earley, lexer))),
            "invalid regular expression in terminal BAD"
        );
    }
    assert_eq!(
        message(frontend(broken(), &options(ParserAlgorithm::Lalr, LexerType::Contextual))),
        "invalid regular expression in terminal BAD"
    );
}

/// start: a | b
/// a: X
/// b: X
fn colliding() -> CompiledGrammar {
    grammar(
        &[("X", text("x"))],
        &[
            ("start", &["a"], "", 0),
            ("start", &["b"], "", 0),
            ("a", &["X"], "", 0),
            ("b", &["X"], "", 0),
        ],
        &[],
    )
}

#[test]
fn competing_rules_are_a_conflict() {
    let report = message(frontend(colliding(), &options(ParserAlgorithm::Lalr, LexerType::Basic)));
    assert!(report.starts_with("Reduce/Reduce collision in state "), "{report}");
    assert!(report.ends_with(" for terminal $END:\n\t- <a : X>\n\t- <b : X>"), "{report}");
    // The rule of higher priority wins.
    let mut g = colliding();
    g.rules[3].options.priority = 1;
    let f = build(g, ParserAlgorithm::Lalr, LexerType::Basic);
    let t = f.parse("x", None).expect("should parse");
    assert_eq!(show(&t), "Tree(start, [Tree(b, [Token(X, \"x\")])])");
}

#[test]
fn hidden_conflicts_are_audited() {
    let shared = Grammar { compiled: sums(), lalr_audit: Some(colliding()) };
    assert!(audit_lalr_reduce_reduce(&shared, false).is_err());
    let o = options(ParserAlgorithm::Lalr, LexerType::Basic);
    match build_frontend(shared, &o) {
        Err(LarkError::Grammar(GrammarError::Conflict { report })) => {
            assert!(report.starts_with("Reduce/Reduce collision"));
        }
        _ => panic!("should be a conflict"),
    }
    let plain = Grammar { compiled: sums(), lalr_audit: None };
    assert!(audit_lalr_reduce_reduce(&plain, true).is_ok());
}

/// start: e
/// e: e P e | X
fn doubled() -> CompiledGrammar {
    grammar(
        &[("P", text("p")), ("X", text("x"))],
        &[
            ("start", &["e"], "", 0),
            ("e", &["e", "~P", "e"], "", 0),
            ("e", &["X"], "", 0),
        ],
        &[],
    )
}

#[test]
fn a_move_wins_over_a_reduction_unless_strict() {
    let f = build(doubled(), ParserAlgorithm::Lalr, LexerType::Basic);
    let t = f.parse("xpxpx", None).expect("should parse");
    let x = "Tree(e, [Token(X, \"x\")])";
    assert_eq!(
        show(&t),
        format!("Tree(start, [Tree(e, [{x}, Tree(e, [{x}, {x}])])])")
    );
    let mut o = options(ParserAlgorithm::Lalr, LexerType::Basic);
    o.strict = true;
    assert_eq!(
        message(frontend(doubled(), &o)),
        "Shift/Reduce conflict for terminal P. [strict-mode]\n * <e : e P e>"
    );
    assert!(build_lalr_table(&doubled(), false).is_ok());
}

#[test]
fn explicit_ambiguity_shows_both_readings() {
    let mut o = options(ParserAlgorithm::Earley, LexerType::Basic);
    o.ambiguity = Ambiguity::Explicit;
    let f = frontend(doubled(), &o).expect("should build");
    let s = show(&f.parse("xpxpx", None).expect("should parse"));
    let x = "Tree(e, [Token(X, \"x\")])";
    assert!(s.contains("_ambig"), "{s}");
    assert!(s.contains(&format!("Tree(e, [{x}, Tree(e, [{x}, {x}])])")), "{s}");
    assert!(s.contains(&format!("Tree(e, [Tree(e, [{x}, {x}]), {x}])")), "{s}");
    // Resolved, one of the two is left.
    let r = build(doubled(), ParserAlgorithm::Earley, LexerType::Basic);
    assert!(!show(&r.parse("xpxpx", None).expect("should parse")).contains("_ambig"));
}

#[test]
fn recovery_drops_what_does_not_fit() {
    for lexer in [LexerType::Basic, LexerType::Contextual] {
        let f = build(sums(), ParserAlgorithm::Lalr, lexer);
        let r = f
            .parse_recovering("1 + + 2", None, &mut Always { action: RecoveryAction::Delete })
            .expect("should recover");
        assert_eq!(r.errors.len(), 1);
        assert_eq!(
            show(&r.tree.expect("should have a tree")),
            "Tree(start, [Tree(plus, [Token(NUM, \"1\"), Token(NUM, \"2\")])])"
        );
        let r = f
            .parse_recovering("1 ! + 2", None, &mut Always { action: RecoveryAction::Delete })
            .expect("should recover");
        assert_eq!(r.errors.len(), 1);
        assert!(matches!(r.errors[0], ParseError::UnexpectedCharacter { ch: '!', .. }));
        assert!(r.tree.is_some());
        let r = f.parse_recovering("1 + + 2", None, &mut Always { action: RecoveryAction::Stop });
        match r {
            Ok(r) => {
                assert!(r.tree.is_none());
                assert_eq!(r.errors.len(), 1);
            }
            Err(LarkError::Parse(e)) => {
                assert!(matches!(e, ParseError::UnexpectedToken { .. }));
            }
            Err(e) => panic!("{e:?}"),
        }
    }
}

#[test]
fn interactive_parsing_stops_and_goes() {
    for lexer in [LexerType::Basic, LexerType::Contextual] {
        let f = build(sums(), ParserAlgorithm::Lalr, lexer);
        let mut p = f.parse_interactive("1 + 2", None).expect("should begin");
        assert_eq!(p.accepts(), vec!["NUM".to_string()]);
        let s = p.pretty();
        assert!(s.starts_with("InteractiveParser(state "), "{s}");
        assert!(s.ends_with(", accepts [\"NUM\"])"), "{s}");
        let tokens = p.exhaust_lexer().expect("should lex");
        let types: Vec<&str> = tokens.iter().map(|t| t.type_.as_str()).collect();
        assert_eq!(types, vec!["NUM", "PLUS", "NUM"]);
        let other = p.fork();
        assert!(p.feed("NUM", "9").is_err());
        assert!(p.result().is_none());
        p.feed("PLUS", "+").expect("should take it");
        p.feed("NUM", "3").expect("should take it");
        let t = p.feed_eof().expect("should end").expect("should have a tree");
        assert_eq!(
            show(&t),
            "Tree(start, [Tree(plus, [Tree(plus, [Token(NUM, \"1\"), Token(NUM, \"2\")]), Token(NUM, \"3\")])])"
        );
        assert!(p.result().is_some());
        assert!(p.accepts().is_empty());
        let t = other.resume().expect("should end");
        assert_eq!(show(&t), "Tree(start, [Tree(plus, [Token(NUM, \"1\"), Token(NUM, \"2\")])])");
    }
}

#[test]
fn recovery_without_errors_gives_the_plain_tree() {
    for lexer in [LexerType::Basic, LexerType::Contextual] {
        let f = build(sums(), ParserAlgorithm::Lalr, lexer);
        let plain = show(&f.parse("1 + 2 + 3", None).expect("should parse"));
        for action in [RecoveryAction::Delete, RecoveryAction::Stop, RecoveryAction::Resume] {
            let r = f
                .parse_recovering("1 + 2 + 3", None, &mut Always { action })
                .expect("should parse");
            assert!(r.errors.is_empty());
            assert_eq!(show(&r.tree.expect("should have a tree")), plain);
        }
    }
}

#[test]
fn feeding_tokens_gives_the_plain_tree() {
    let f = build(sums(), ParserAlgorithm::Lalr, LexerType::Contextual);
    let plain = show(&f.parse("1 + 2", None).expect("should parse"));
    let mut p = f.parse_interactive("", None).expect("should begin");
    for (name, value) in [("NUM", "1"), ("PLUS", "+"), ("NUM", "2")] {
        assert!(p.feed(name, value).expect("should take it").is_none());
    }
    let t = p.feed_eof().expect("should end").expect("should have a tree");
    assert_eq!(show(&t), plain);
}

#[test]
fn a_borrowing_parse_agrees() {
    let g = sums();
    let conf = basic_lexer_conf(&g, 0);
    let lexer = match BasicLexer::new(&conf) {
        Ok(l) => l,
        Err(e) => panic!("{e:?}"),
    };
    let parser = match build_lalr_table(&g, false) {
        Ok(t) => LalrParser::new(t),
        Err(e) => panic!("{e:?}"),
    };
    let input = "12 + 3";
    let tokens = lexer.lex(input).expect("should lex");
    let mut builder = SpanTreeBuilder::new(&parser.table.rules, &parser.table.symbols);
    let node = parser
        .run_into(&mut PreLexed::new(tokens), None, &mut builder, input)
        .expect("should parse");
    let owned = parser.parse(lexer.lex(input).expect("should lex"), None).expect("should parse");
    assert_eq!(show(&node.materialize()), show(&owned));
    assert_eq!(
        show(&owned),
        "Tree(start, [Tree(plus, [Token(NUM, \"12\"), Token(NUM, \"3\")])])"
    );
    let mut builder = SpanTreeBuilder::new(&parser.table.rules, &parser.table.symbols);
    let node = parser
        .run_into(&mut Contextual::basic(input, &lexer), None, &mut builder, input)
        .expect("should parse");
    assert_eq!(show(&node.materialize()), show(&owned));
}

/// The rules of `sums` as written.
fn written_sums() -> RuleSet {
    let symbol = |s: &str| {
        let name = s.trim_start_matches('~').to_string();
        if name.chars().all(|c| c.is_uppercase()) {
            Symbol::Terminal { name, filter_out: s.starts_with('~') }
        } else {
            Symbol::NonTerminal { name }
        }
    };
    let rule = |origin: &str, expansion: &[&str], alias: Option<&str>, expand1: bool| Rule {
        origin: origin.to_string(),
        expansion: expansion.iter().map(|s| symbol(s)).collect(),
        alias: alias.map(|a| a.to_string()),
        options: RuleOptions {
            expand1,
            keep_all_tokens: false,
            priority: 0,
            placeholder_count: 0,
            nones_before: vec![],
        },
    };
    RuleSet {
        rules: vec![
            rule("start", &["sum"], None, false),
            rule("sum", &["sum", "~PLUS", "NUM"], Some("plus"), true),
            rule("sum", &["NUM"], None, true),
        ],
        terminals: sums().terminals,
        ignore: vec!["WS".to_string()],
    }
}

#[test]
fn what_is_written_parses_back() {
    let f = build(sums(), ParserAlgorithm::Lalr, LexerType::Contextual);
    let r = match Reconstructor::new(&written_sums()) {
        Ok(r) => r,
        Err(e) => panic!("{}", e.message()),
    };
    for text in ["1", "1 + 2", "12+3 + 4+ 5"] {
        let tree = f.parse(text, None).expect("should parse");
        let written = match r.reconstruct(&tree) {
            Ok(s) => s,
            Err(e) => panic!("{}", e.message()),
        };
        let again = f.parse(&written, None).expect("should parse");
        assert_eq!(show(&again), show(&tree));
    }
    let tree = f.parse("1 + 2", None).expect("should parse");
    assert!(matches!(r.reconstruct_exact(&tree), Ok(s) if s == "1+2"));
}

#[test]
fn exhausted_lexers_hand_out_nothing_more() {
    for lexer in [LexerType::Basic, LexerType::Contextual] {
        let f = build(sums(), ParserAlgorithm::Lalr, lexer);
        let mut p = f.parse_interactive("1 + 22", None).expect("should begin");
        let tokens = p.exhaust_lexer().expect("should lex");
        let places: Vec<(usize, usize)> = tokens.iter().map(|t| (t.start_pos, t.end_pos)).collect();
        assert_eq!(places, vec![(0, 1), (2, 3), (4, 6)]);
        assert!(p.exhaust_lexer().expect("should lex").is_empty());
    }
}

#[test]
fn what_is_listed_can_be_fed() {
    let f = build(sums(), ParserAlgorithm::Lalr, LexerType::Contextual);
    let mut p = f.parse_interactive("", None).expect("should begin");
    p.feed("NUM", "1").expect("should take it");
    let listed = p.accepts();
    assert_eq!(listed, vec!["$END".to_string(), "PLUS".to_string()]);
    for name in ["PLUS", "NUM"] {
        let mut other = p.fork();
        assert_eq!(other.feed(name, "x").is_ok(), listed.contains(&name.to_string()));
    }
    assert!(p.fork().feed_eof().is_ok());
}

#[test]
fn global_flags_apply_to_every_terminal() {
    let g = || grammar(&[("WORD", regex("[a-z]+"))], &[("start", &["WORD"], "", 0)], &[]);
    let mut o = options(ParserAlgorithm::Lalr, LexerType::Basic);
    assert!(frontend(g(), &o).expect("should build").parse("ABC", None).is_err());
    o.g_regex_flags = 2;
    assert!(frontend(g(), &o).expect("should build").parse("ABC", None).is_ok());
}

#[test]
fn grammars_with_foreign_ids_are_told_apart() {
    let mut g = sums();
    assert!(g.is_wf());
    g.rules[0].expansion.push(SymbolId(99));
    assert!(!g.is_wf());
    let mut h = sums();
    h.start.push(SymbolId(1));
    assert!(!h.is_wf());
}

#[test]
fn characters_are_reported_before_tokens() {
    // The token that does not fit comes before the character that no terminal
    // begins with.
    let f = build(sums(), ParserAlgorithm::Lalr, LexerType::Basic);
    let r = f
        .parse_recovering("1 + + 2 !", None, &mut Always { action: RecoveryAction::Delete })
        .expect("should recover");
    assert_eq!(r.errors.len(), 2);
    assert!(matches!(r.errors[0], ParseError::UnexpectedCharacter { ch: '!', .. }));
    assert!(matches!(r.errors[1], ParseError::UnexpectedToken { .. }));
    assert!(r.tree.is_some());
    // Lexed as the parser goes, they come in the order of the text.
    let f = build(sums(), ParserAlgorithm::Lalr, LexerType::Contextual);
    let r = f
        .parse_recovering("1 + + 2 !", None, &mut Always { action: RecoveryAction::Delete })
        .expect("should recover");
    assert_eq!(r.errors.len(), 2);
    assert!(matches!(r.errors[0], ParseError::UnexpectedToken { .. }));
    assert!(matches!(r.errors[1], ParseError::UnexpectedCharacter { ch: '!', .. }));
    // A handler that stops at a character leaves no tree.
    let f = build(sums(), ParserAlgorithm::Lalr, LexerType::Basic);
    let r = f
        .parse_recovering("1 + 2 !", None, &mut Always { action: RecoveryAction::Stop })
        .expect("should stop");
    assert!(r.tree.is_none());
    assert_eq!(r.errors.len(), 1);
}

#[test]
fn what_is_not_listed_is_refused_whatever_its_name() {
    let f = build(sums(), ParserAlgorithm::Lalr, LexerType::Contextual);
    let mut p = f.parse_interactive("", None).expect("should begin");
    // A terminal that does not fit here, another symbol, and no symbol at all.
    for name in ["PLUS", "sum", "start", "NOTHING", ""] {
        assert!(!p.accepts().contains(&name.to_string()));
        assert!(p.feed(name, "1").is_err(), "{name:?}");
    }
    assert!(p.accepts().contains(&"NUM".to_string()));
    assert!(p.feed("NUM", "1").is_ok());
}
