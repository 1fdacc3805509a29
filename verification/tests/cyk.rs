use lark::frontend::{
    build_frontend, Ambiguity, LarkError, LarkOptions, LexerType, ParserAlgorithm, ParsingFrontend,
};
use lark::error::ParseError;
use lark::lalr_table::Grammar;
use lark::symbols::{CompiledGrammar, CompiledRule, Pattern, SymbolId, SymbolTable, TerminalDef};
use lark::tree::{Child, ParseTree, Tree};

/// A terminal that stands for its text.
fn text(value: &str) -> Pattern {
    Pattern::Str { value: value.to_string(), ci: false }
}

/// A terminal given by a regular expression.
fn regex(pattern: &str) -> Pattern {
    Pattern::Re { pattern: pattern.to_string(), flags: String::new() }
}

/// A rule: its origin (`?` in front collapses single children, `_` makes it
/// transparent), its symbols (`~` in front drops the token), its alias, and how
/// many placeholders it leaves.
type Line<'a> = (&'a str, &'a [&'a str], &'a str, usize);

/// The grammar of terminals and rules, from the symbol `start`.
fn grammar(terms: &[(&str, Pattern)], lines: &[Line<'_>], ignore: &[&str]) -> CompiledGrammar {
    let mut symbols = SymbolTable::new();
    for (name, _) in terms {
        symbols.intern(name, true, false);
    }
    let terminal_count = symbols.len();
    for (origin, _, _, _) in lines {
        let name = origin.trim_start_matches('?');
        if symbols.id(name).is_none() {
            symbols.intern(name, false, name.starts_with('_'));
        }
    }
    let root = symbols.intern("$root_start", false, false);
    let start = symbols.id("start").unwrap();
    let mut rules = Vec::new();
    for (i, (origin, expansion, alias, placeholders)) in lines.iter().enumerate() {
        let name = origin.trim_start_matches('?');
        let ids: Vec<SymbolId> = expansion
            .iter()
            .map(|s| symbols.id(s.trim_start_matches('~')).unwrap())
            .collect();
        let label = if alias.is_empty() { name } else { alias };
        let mut rule = CompiledRule::plain(symbols.id(name).unwrap(), ids, label);
        rule.filter_pos = expansion.iter().map(|s| s.starts_with('~')).collect();
        rule.transparent = name.starts_with('_');
        rule.options.expand1 = origin.starts_with('?');
        rule.options.placeholder_count = *placeholders;
        if !alias.is_empty() {
            rule.alias = Some(alias.to_string());
        }
        rule.order = i;
        rules.push(rule);
    }
    let mut first = CompiledRule::plain(root, vec![start], "$root_start");
    first.is_start = true;
    rules.push(first);
    let ids: Vec<SymbolId> = ignore.iter().map(|s| symbols.id(s).unwrap()).collect();
    let terminals = terms
        .iter()
        .map(|(name, p)| TerminalDef {
            name: name.to_string(),
            declared: false,
            pattern: match p {
                Pattern::Str { value, ci } => Pattern::Str { value: value.clone(), ci: *ci },
                Pattern::Re { pattern, flags } => {
                    Pattern::Re { pattern: pattern.clone(), flags: flags.clone() }
                }
            },
            priority: 0,
        })
        .collect();
    let g = CompiledGrammar {
        rules,
        symbols,
        start: vec![start],
        terminals,
        ignore: ids,
        propagate_positions: false,
        terminal_count,
    };
    assert!(g.is_wf());
    g
}

/// A tree as text.
fn show(t: &ParseTree) -> String {
    match t {
        ParseTree::Tree(t) => show_tree(t),
        ParseTree::Token(t) => format!("Token({}, {:?})", t.type_, t.value),
        ParseTree::Absent => "None".to_string(),
    }
}

fn show_tree(t: &Tree) -> String {
    let parts: Vec<String> = t
        .children
        .iter()
        .map(|c| match c {
            Child::Tree(t) => show_tree(t),
            Child::Token(t) => format!("Token({}, {:?})", t.type_, t.value),
            Child::Absent => "None".to_string(),
        })
        .collect();
    format!("Tree({}, [{}])", t.data, parts.join(", "))
}

fn options(parser: ParserAlgorithm, lexer: LexerType) -> LarkOptions {
    LarkOptions {
        parser,
        lexer,
        ambiguity: Ambiguity::Resolve,
        postlex: None,
        strict: false,
        g_regex_flags: 0,
        start: vec!["start".to_string()],
    }
}

fn frontend(g: CompiledGrammar, o: &LarkOptions) -> Result<ParsingFrontend, LarkError> {
    build_frontend(Grammar { compiled: g, lalr_audit: None }, o)
}

fn cyk(g: CompiledGrammar) -> ParsingFrontend {
    frontend(g, &options(ParserAlgorithm::Cyk, LexerType::Basic)).expect("CYK build failed")
}

fn lalr(g: CompiledGrammar) -> ParsingFrontend {
    frontend(g, &options(ParserAlgorithm::Lalr, LexerType::Basic)).expect("LALR build failed")
}

fn parsed(f: &ParsingFrontend, input: &str) -> String {
    show(&f.parse(input, None).expect("should parse"))
}

#[test]
fn cyk_matches_lalr_on_unambiguous() {
    let g = || {
        grammar(
            &[
                ("LPAR", text("(")),
                ("COMMA", text(",")),
                ("RPAR", text(")")),
                ("WORD", regex("[a-z]+")),
                ("WS", regex("[ ]+")),
            ],
            &[
                ("start", &["~LPAR", "item", "~COMMA", "list", "~RPAR"], "", 0),
                ("list", &["list", "item"], "", 0),
                ("list", &["item"], "", 0),
                ("item", &["value"], "", 0),
                ("value", &["WORD"], "", 0),
            ],
            &["WS"],
        )
    };
    let input = "(a, b c d)";
    let cyk_tree = parsed(&cyk(g()), input);
    let lalr_tree = parsed(&lalr(g()), input);
    assert_eq!(cyk_tree, lalr_tree, "CYK and LALR disagree on {input:?}");
    let item = |w: &str| format!("Tree(item, [Tree(value, [Token(WORD, {w:?})])])");
    let list = format!(
        "Tree(list, [Tree(list, [Tree(list, [{}]), {}]), {}])",
        item("b"),
        item("c"),
        item("d")
    );
    assert_eq!(cyk_tree, format!("Tree(start, [{}, {}])", item("a"), list));
}

#[test]
fn cyk_parses_ambiguous_grammar() {
    // start: a
    // a: a a | "x"
    let parser = cyk(grammar(
        &[("X", text("x"))],
        &[
            ("start", &["a"], "", 0),
            ("a", &["a", "a"], "", 0),
            ("a", &["~X"], "", 0),
        ],
        &[],
    ));
    for input in ["x", "xx", "xxxx", "xxxxx"] {
        let tree = parser
            .parse(input, None)
            .unwrap_or_else(|e| panic!("CYK should parse {input:?}: {e:?}"));
        assert_eq!(tree.as_tree().map(|t| t.data.as_str()), Some("start"));
    }
    // And it still rejects input outside the grammar.
    assert!(parser.parse("xyx", None).is_err());
    assert!(parser.parse("", None).is_err());
}

#[test]
fn cyk_handles_ebnf_repetition() {
    // start: pre item* post
    let g = || {
        grammar(
            &[
                ("LESS", text("<")),
                ("MORE", text(">")),
                ("WORD", regex("[a-z]+")),
                ("WS", regex("[ ]+")),
            ],
            &[
                ("start", &["pre", "__start_star_0", "post"], "", 0),
                ("__start_star_0", &[], "", 0),
                ("__start_star_0", &["__start_star_0", "item"], "", 0),
                ("pre", &["~LESS"], "", 0),
                ("post", &["~MORE"], "", 0),
                ("item", &["WORD"], "", 0),
            ],
            &["WS"],
        )
    };
    for input in ["< >", "< a >", "< a b c >"] {
        let cyk_tree = parsed(&cyk(g()), input);
        let lalr_tree = parsed(&lalr(g()), input);
        assert_eq!(cyk_tree, lalr_tree, "EBNF mismatch on {input:?}");
    }
    assert_eq!(parsed(&cyk(g()), "< >"), "Tree(start, [Tree(pre, []), Tree(post, [])])");
}

#[test]
fn cyk_rejects_genuine_epsilon_rule() {
    // start: a
    // a: "x" |
    let built = frontend(
        grammar(
            &[("X", text("x"))],
            &[("start", &["a"], "", 0), ("a", &["~X"], "", 0), ("a", &[], "", 0)],
            &[],
        ),
        &options(ParserAlgorithm::Cyk, LexerType::Basic),
    );
    assert!(built.is_err(), "a nullable named rule must fail to build");
}

#[test]
fn cyk_epsilon_rejection_is_lowering_invariant() {
    let build = |lines: &[Line<'_>]| {
        let mut all: Vec<Line<'_>> = vec![("start", &["a"], "", 0)];
        all.extend_from_slice(lines);
        frontend(
            grammar(&[("B", text("b")), ("C", text("c"))], &all, &[]),
            &options(ParserAlgorithm::Cyk, LexerType::Basic),
        )
    };
    // `B? C`, with the optional distributed into the parent.
    assert!(
        build(&[("a", &["B", "C"], "", 0), ("a", &["C"], "", 0)]).is_ok(),
        "leading-distributed `B? C` (parent non-nullable) must build"
    );
    // `C B?`, with a helper for the optional.
    assert!(
        build(&[
            ("a", &["C", "__a_opt_0"], "", 0),
            ("__a_opt_0", &["B"], "", 0),
            ("__a_opt_0", &[], "", 0),
        ])
        .is_ok(),
        "trailing-helper `C B?` (parent non-nullable) must build"
    );
    // `B?`
    assert!(
        build(&[
            ("a", &["__a_opt_0"], "", 0),
            ("__a_opt_0", &["B"], "", 0),
            ("__a_opt_0", &[], "", 0),
        ])
        .is_err(),
        "wholly-nullable `B?` must be rejected (parent derives ε)"
    );
    // `B? C?`
    assert!(
        build(&[
            ("a", &["B", "__a_opt_0"], "", 0),
            ("a", &["__a_opt_0"], "", 0),
            ("__a_opt_0", &["C"], "", 0),
            ("__a_opt_0", &[], "", 0),
        ])
        .is_err(),
        "wholly-nullable `B? C?` must be rejected (parent derives ε)"
    );
}

#[test]
fn cyk_maybe_placeholders_none() {
    // start: A [B] C [D], with placeholders
    let g = || {
        grammar(
            &[("A", text("a")), ("B", text("b")), ("C", text("c")), ("D", text("d"))],
            &[
                ("start", &["A", "__start_opt_0", "C", "__start_opt_1"], "", 0),
                ("__start_opt_0", &["B"], "", 0),
                ("__start_opt_0", &[], "", 1),
                ("__start_opt_1", &["D"], "", 0),
                ("__start_opt_1", &[], "", 1),
            ],
            &[],
        )
    };
    let cyk = cyk(g());
    let lalr = lalr(g());
    for input in ["ac", "abc", "acd", "abcd"] {
        let c = parsed(&cyk, input);
        let l = parsed(&lalr, input);
        assert_eq!(c, l, "maybe_placeholders mismatch on {input:?}");
        // The absent-optional cases must actually carry a None, not drop it.
        if input == "ac" {
            assert!(c.contains("None"), "absent optional lost its None: {c}");
        }
    }
}

#[test]
fn cyk_ignores_ambiguity_option() {
    let mut o = options(ParserAlgorithm::Cyk, LexerType::Basic);
    o.ambiguity = Ambiguity::Explicit;
    let lark = frontend(
        grammar(&[("WORD", regex("[a-z]+"))], &[("start", &["WORD"], "", 0)], &[]),
        &o,
    )
    .expect("CYK builds regardless of ambiguity option");
    assert!(lark.parse("hello", None).is_ok());
}

#[test]
fn a_root_can_be_an_absent_optional() {
    // ?start: "x", which leaves one placeholder
    let g = || grammar(&[("X", text("x"))], &[("?start", &["~X"], "", 1)], &[]);
    for f in [cyk(g()), lalr(g())] {
        match f.parse("x", None) {
            Ok(ParseTree::Absent) => {}
            r => panic!("{r:?}"),
        }
    }
}

#[test]
fn start_symbols_are_those_configured() {
    let f = cyk(grammar(
        &[("X", text("x"))],
        &[("start", &["a"], "", 0), ("a", &["X"], "", 0)],
        &[],
    ));
    assert!(f.parse("x", Some("start")).is_ok());
    assert!(f.parse("x", None).is_ok());
    // A rule that is no start symbol, and a name that is no symbol.
    for start in ["a", "nothing"] {
        match f.parse("x", Some(start)) {
            Err(ParseError::UnexpectedEof { expected, .. }) => {
                assert_eq!(expected, vec!["start".to_string()]);
            }
            r => panic!("{r:?}"),
        }
    }
}
