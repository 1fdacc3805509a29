use lark::error::{GrammarError, ParseError, RecoveryAction};
use lark::frontend::{
    build_frontend, Ambiguity, LarkError, LarkOptions, LexerType, ParserAlgorithm, ParsingFrontend,
};
use lark::lalr_table::Grammar;
use lark::postlex::Indenter;
use lark::recovery::Always;
use lark::symbols::{CompiledGrammar, CompiledRule, Pattern, SymbolId, SymbolTable, TerminalDef};
use lark::tree::{Child, ParseTree, Token, Tree};

/// A terminal that stands for its text.
fn text(value: &str) -> Pattern {
    Pattern::Str { value: value.to_string(), ci: false }
}

/// A terminal given by a regular expression.
fn regex(pattern: &str) -> Pattern {
    Pattern::Re { pattern: pattern.to_string(), flags: String::new() }
}

/// A rule: its origin (`?` in front collapses single children, `_` makes it
/// transparent), its symbols (`~` in front drops the token), its alias, and how
/// many placeholders it leaves.
type Line<'a> = (&'a str, &'a [&'a str], &'a str, usize);

/// The grammar of terminals and rules, from the symbol `start`.
fn grammar(terms: &[(&str, Pattern)], lines: &[Line<'_>], ignore: &[&str]) -> CompiledGrammar {
    let mut symbols = SymbolTable::new();
    for (name, _) in terms {
        symbols.intern(name, true, false);
    }
    let terminal_count = symbols.len();
    for (origin, _, _, _) in lines {
        let name = origin.trim_start_matches('?');
        if symbols.id(name).is_none() {
            symbols.intern(name, false, name.starts_with('_'));
        }
    }
    let root = symbols.intern("$root_start", false, false);
    let start = symbols.id("start").unwrap();
    let mut rules = Vec::new();
    for (i, (origin, expansion, alias, placeholders)) in lines.iter().enumerate() {
        let name = origin.trim_start_matches('?');
        let ids: Vec<SymbolId> = expansion
            .iter()
            .map(|s| symbols.id(s.trim_start_matches('~')).unwrap())
            .collect();
        let label = if alias.is_empty() { name } else { alias };
        let mut rule = CompiledRule::plain(symbols.id(name).unwrap(), ids, label);
        rule.filter_pos = expansion.iter().map(|s| s.starts_with('~')).collect();
        rule.transparent = name.starts_with('_');
        rule.options.expand1 = origin.starts_with('?');
        rule.options.placeholder_count = *placeholders;
        if !alias.is_empty() {
            rule.alias = Some(alias.to_string());
        }
        rule.order = i;
        rules.push(rule);
    }
    let mut first = CompiledRule::plain(root, vec![start], "$root_start");
    first.is_start = true;
    rules.push(first);
    let ids: Vec<SymbolId> = ignore.iter().map(|s| symbols.id(s).unwrap()).collect();
    let terminals = terms
        .iter()
        .map(|(name, p)| TerminalDef {
            name: name.to_string(),
            declared: false,
            pattern: match p {
                Pattern::Str { value, ci } => Pattern::Str { value: value.clone(), ci: *ci },
                Pattern::Re { pattern, flags } => {
                    Pattern::Re { pattern: pattern.clone(), flags: flags.clone() }
                }
            },
            priority: 0,
        })
        .collect();
    let g = CompiledGrammar {
        rules,
        symbols,
        start: vec![start],
        terminals,
        ignore: ids,
        propagate_positions: false,
        terminal_count,
    };
    assert!(g.is_wf());
    g
}

/// A tree as text.
fn show(t: &ParseTree) -> String {
    match t {
        ParseTree::Tree(t) => show_tree(t),
        ParseTree::Token(t) => format!("Token({}, {:?})", t.type_, t.value),
        ParseTree::Absent => "None".to_string(),
    }
}

fn show_tree(t: &Tree) -> String {
    let parts: Vec<String> = t
        .children
        .iter()
        .map(|c| match c {
            Child::Tree(t) => show_tree(t),
            Child::Token(t) => format!("Token({}, {:?})", t.type_, t.value),
            Child::Absent => "None".to_string(),
        })
        .collect();
    format!("Tree({}, [{}])", t.data, parts.join(", "))
}

fn options(parser: ParserAlgorithm, lexer: LexerType) -> LarkOptions {
    LarkOptions {
        parser,
        lexer,
        ambiguity: Ambiguity::Resolve,
        postlex: None,
        strict: false,
        g_regex_flags: 0,
        start: vec!["start".to_string()],
    }
}

fn frontend(g: CompiledGrammar, o: &LarkOptions) -> Result<ParsingFrontend, LarkError> {
    build_frontend(Grammar { compiled: g, lalr_audit: None }, o)
}

/// start: A ":" _NEWLINE _INDENT B _NEWLINE _DEDENT
fn block() -> CompiledGrammar {
    let mut g = grammar(
        &[
            ("A", text("a")),
            ("B", text("b")),
            ("COLON", text(":")),
            ("LPAR", text("(")),
            ("RPAR", text(")")),
            ("_NEWLINE", regex("(\n *)+")),
            ("_INDENT", text("<indent>")),
            ("_DEDENT", text("<dedent>")),
        ],
        &[(
            "start",
            &["A", "~COLON", "~_NEWLINE", "~_INDENT", "B", "~_NEWLINE", "~_DEDENT"],
            "",
            0,
        )],
        &[],
    );
    for t in g.terminals.iter_mut() {
        if t.name == "_INDENT" || t.name == "_DEDENT" {
            t.declared = true;
        }
    }
    g
}

fn with_indenter(parser: ParserAlgorithm, lexer: LexerType) -> LarkOptions {
    let mut o = options(parser, lexer);
    o.postlex = Some(Indenter::default());
    o
}

#[test]
fn blocks_are_parsed_by_every_parser() {
    let all = [
        (ParserAlgorithm::Lalr, LexerType::Basic),
        (ParserAlgorithm::Lalr, LexerType::Contextual),
        (ParserAlgorithm::Earley, LexerType::Basic),
        (ParserAlgorithm::Cyk, LexerType::Basic),
    ];
    for (parser, lexer) in all {
        let f = frontend(block(), &with_indenter(parser, lexer)).expect("should build");
        let t = f.parse("a:\n  b\n", None).expect("should parse");
        assert_eq!(show(&t), "Tree(start, [Token(A, \"a\"), Token(B, \"b\")])");
        assert!(f.parse("a:\nb\n", None).is_err());
        assert!(f.parse_interactive("a", None).is_err());
    }
}

#[test]
fn recovery_works_with_indentation() {
    for lexer in [LexerType::Basic, LexerType::Contextual] {
        let f = frontend(block(), &with_indenter(ParserAlgorithm::Lalr, lexer))
            .expect("should build");
        let r = f
            .parse_recovering("aa:\n  b\n", None, &mut Always { action: RecoveryAction::Delete })
            .expect("should recover");
        assert_eq!(r.errors.len(), 1);
        assert!(matches!(r.errors[0], ParseError::UnexpectedToken { .. }));
    }
}

fn token(s: &SymbolTable, name: &str, value: &str) -> Token {
    let mut t = Token::new(name, value);
    t.type_id = s.id(name).unwrap_or(SymbolId(0));
    t
}

fn types(tokens: &[Token]) -> Vec<&str> {
    tokens.iter().map(|t| t.type_.as_str()).collect()
}

#[test]
fn indentation_opens_and_closes_blocks() {
    let g = block();
    let s = &g.symbols;
    let cfg = Indenter::default();
    let out = cfg
        .process(
            vec![
                token(s, "A", "a"),
                token(s, "_NEWLINE", "\n  "),
                token(s, "B", "b"),
                token(s, "_NEWLINE", "\n    "),
                token(s, "B", "b"),
            ],
            s,
        )
        .expect("should indent");
    assert_eq!(
        types(&out),
        vec!["A", "_NEWLINE", "_INDENT", "B", "_NEWLINE", "_INDENT", "B", "_DEDENT", "_DEDENT", "$END"]
    );
    // As many blocks are closed as were opened.
    let opened = out.iter().filter(|t| t.type_ == "_INDENT").count();
    let closed = out.iter().filter(|t| t.type_ == "_DEDENT").count();
    assert_eq!(opened, closed);
}

#[test]
fn tabs_count_and_brackets_hide() {
    let g = block();
    let s = &g.symbols;
    let cfg = Indenter::default();
    let out = cfg
        .process(vec![token(s, "_NEWLINE", "\n\t"), token(s, "_NEWLINE", "\n        ")], s)
        .expect("should indent");
    assert_eq!(types(&out), vec!["_NEWLINE", "_INDENT", "_NEWLINE", "_DEDENT", "$END"]);
    let out = cfg
        .process(
            vec![token(s, "LPAR", "("), token(s, "_NEWLINE", "\n  "), token(s, "RPAR", ")")],
            s,
        )
        .expect("should indent");
    assert_eq!(types(&out), vec!["LPAR", "RPAR", "$END"]);
}

#[test]
fn indentation_that_fits_no_block_is_an_error() {
    let g = block();
    let s = &g.symbols;
    let cfg = Indenter::default();
    let r = cfg.process(
        vec![token(s, "_NEWLINE", "\n    "), token(s, "_NEWLINE", "\n  ")],
        s,
    );
    match r {
        Err(ParseError::Postlex { msg }) => {
            assert_eq!(msg, "Unexpected dedent to column 2. Expected dedent to 0");
        }
        r => panic!("{r:?}"),
    }
    match cfg.process(vec![token(s, "RPAR", ")")], s) {
        Err(ParseError::Postlex { msg }) => {
            assert_eq!(msg, "unbalanced closing bracket at line 0, column 0");
        }
        r => panic!("{r:?}"),
    }
}

#[test]
fn an_indenter_must_fit_the_grammar() {
    let g = block();
    let cfg = Indenter::default();
    assert!(cfg.validate(&g.symbols).is_ok());
    let mut other = cfg.copy();
    other.nl_type = "LINE".to_string();
    match other.validate(&g.symbols) {
        Err(GrammarError::Other { msg }) => {
            assert_eq!(
                msg,
                "postlex Indenter nl_type \"LINE\" is not a terminal in the grammar — the Indenter measures indentation off it"
            );
        }
        r => panic!("{r:?}"),
    }
    let mut third = cfg.copy();
    third.indent_type = "IN".to_string();
    assert!(third.validate(&g.symbols).is_err());
    match third.process(vec![], &g.symbols) {
        Err(ParseError::Postlex { msg }) => {
            assert_eq!(
                msg,
                "Indenter terminal \"IN\" is not declared in the grammar (add `%declare IN`)"
            );
        }
        r => panic!("{r:?}"),
    }
    let mut o = with_indenter(ParserAlgorithm::Lalr, LexerType::Basic);
    o.postlex = Some(third);
    assert!(frontend(block(), &o).is_err());
}
