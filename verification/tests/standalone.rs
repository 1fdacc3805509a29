use lark::error::GrammarError;
use lark::frontend::{Ambiguity, LarkError, LarkOptions, LexerType, ParserAlgorithm};
use lark::lalr_table::Grammar;
use lark::standalone::generate;
use lark::symbols::{CompiledGrammar, CompiledRule, Pattern, SymbolId, SymbolTable, TerminalDef};

/// A terminal that stands for its text.
fn text(value: &str) -> Pattern {
    Pattern::Str { value: value.to_string(), ci: false }
}

/// A terminal given by a regular expression.
fn regex(pattern: &str) -> Pattern {
    Pattern::Re { pattern: pattern.to_string(), flags: String::new() }
}

/// A rule: its origin (`?` in front collapses single children, `_` makes it
/// transparent), its symbols (`~` in front drops the token), its alias, and how
/// many placeholders it leaves.
type Line<'a> = (&'a str, &'a [&'a str], &'a str, usize);

/// The grammar of terminals and rules, from the symbol `start`.
fn grammar(terms: &[(&str, Pattern)], lines: &[Line<'_>], ignore: &[&str]) -> CompiledGrammar {
    let mut symbols = SymbolTable::new();
    for (name, _) in terms {
        symbols.intern(name, true, false);
    }
    let terminal_count = symbols.len();
    for (origin, _, _, _) in lines {
        let name = origin.trim_start_matches('?');
        if symbols.id(name).is_none() {
            symbols.intern(name, false, name.starts_with('_'));
        }
    }
    let root = symbols.intern("$root_start", false, false);
    let start = symbols.id("start").unwrap();
    let mut rules = Vec::new();
    for (i, (origin, expansion, alias, placeholders)) in lines.iter().enumerate() {
        let name = origin.trim_start_matches('?');
        let ids: Vec<SymbolId> = expansion
            .iter()
            .map(|s| symbols.id(s.trim_start_matches('~')).unwrap())
            .collect();
        let label = if alias.is_empty() { name } else { alias };
        let mut rule = CompiledRule::plain(symbols.id(name).unwrap(), ids, label);
        rule.filter_pos = expansion.iter().map(|s| s.starts_with('~')).collect();
        rule.transparent = name.starts_with('_');
        rule.options.expand1 = origin.starts_with('?');
        rule.options.placeholder_count = *placeholders;
        if !alias.is_empty() {
            rule.alias = Some(alias.to_string());
        }
        rule.order = i;
        rules.push(rule);
    }
    let mut first = CompiledRule::plain(root, vec![start], "$root_start");
    first.is_start = true;
    rules.push(first);
    let ids: Vec<SymbolId> = ignore.iter().map(|s| symbols.id(s).unwrap()).collect();
    let terminals = terms
        .iter()
        .map(|(name, p)| TerminalDef {
            name: name.to_string(),
            declared: false,
            pattern: match p {
                Pattern::Str { value, ci } => Pattern::Str { value: value.clone(), ci: *ci },
                Pattern::Re { pattern, flags } => {
                    Pattern::Re { pattern: pattern.clone(), flags: flags.clone() }
                }
            },
            priority: 0,
        })
        .collect();
    let g = CompiledGrammar {
        rules,
        symbols,
        start: vec![start],
        terminals,
        ignore: ids,
        propagate_positions: false,
        terminal_count,
    };
    assert!(g.is_wf());
    g
}

fn options(parser: ParserAlgorithm) -> LarkOptions {
    LarkOptions {
        parser,
        lexer: LexerType::Basic,
        ambiguity: Ambiguity::Resolve,
        postlex: None,
        strict: false,
        g_regex_flags: 0,
        start: vec![],
    }
}

fn alone(compiled: CompiledGrammar) -> Grammar {
    Grammar { compiled, lalr_audit: None }
}

/// start: NAME | IF
fn words() -> CompiledGrammar {
    grammar(
        &[("NAME", regex("[a-z]+")), ("IF", text("if")), ("WS", regex(" +"))],
        &[("start", &["NAME"], "", 0), ("start", &["~IF"], "", 0)],
        &["WS"],
    )
}

#[test]
fn a_parser_is_written_out() {
    let source = "start: NAME | \"if\"\r\n%ignore \" \"\n\nlast";
    let out = match generate(source, &alone(words()), &options(ParserAlgorithm::Lalr)) {
        Ok(s) => s,
        Err(e) => panic!("{e:?}"),
    };
    let wanted = [
        "// Source grammar:\n//   start: NAME | \"if\"\n//   %ignore \" \"\n//   \n//   last\n\n#[allow(",
        "static N_TERMINALS: u32 = 4;\n\n",
        "static SYMBOL_NAMES: &[&str] = &[\n    \"$END\",\n    \"NAME\",\n    \"IF\",\n    \"WS\",\n    \"start\",\n    \"$root_start\",\n];\n\n",
        "static RULES: &[RuleData] = &[\n    RuleData { origin: 4, len: 1, tree_name: \"start\", transparent: false, expand1: false, has_alias: false, keep_all: false, filter_pos: &[false], placeholder_count: 0, nones_before: &[], is_start: false },\n    RuleData { origin: 4, len: 1, tree_name: \"start\", transparent: false, expand1: false, has_alias: false, keep_all: false, filter_pos: &[true], placeholder_count: 0, nones_before: &[], is_start: false },\n",
        "static ACTION: &[&[(u32, Action)]] = &[\n    &[(1, Action::Shift(",
        "Action::Accept",
        "static GOTO: &[&[(u32, u32)]] = &[\n    &[(0, ",
        "static START_STATES: &[(&str, u32)] = &[\n    (\"start\", 0),\n];\n\n",
        "static START_DEFAULT: &str = \"start\";\n\n",
        "static GLOBAL_PREFIX: &str = \"\";\n\n",
        "static SCAN_GROUPS: &[(u32, &str)] = &[\n    (1, \"(?:[a-z]+)\"),\n    (3, \"(?: +)\"),\n];\n\n",
        "static UNLESS: &[(u32, &[(&str, u32)])] = &[\n    (1, &[(\"if\", 2)]),\n];\n\n",
        "static IGNORE: &[u32] = &[3];\n\n",
        "pub struct Parser {\n",
        "}\n\n#[allow(unused_imports)]\npub use parser::{Child, ParseTree, Parser, Token, Tree};\n",
    ];
    let mut from = 0;
    for w in wanted {
        match out[from..].find(w) {
            Some(at) => from += at + w.len(),
            None => panic!("missing {w:?} in {:?}", &out[from..out.len().min(from + 600)]),
        }
    }
    assert_eq!(from, out.len());
}

#[test]
fn only_lalr_parsers_are_written_out() {
    let refused = |o: &LarkOptions| match generate("", &alone(words()), o) {
        Err(LarkError::Grammar(GrammarError::Other { msg })) => msg,
        r => panic!("{r:?}"),
    };
    for parser in [ParserAlgorithm::Earley, ParserAlgorithm::Cyk] {
        assert_eq!(
            refused(&options(parser)),
            "standalone generation supports only parser='lalr'"
        );
    }
    let mut o = options(ParserAlgorithm::Lalr);
    o.postlex = Some(Default::default());
    assert_eq!(
        refused(&o),
        "standalone generation does not support a postlex (Indenter) hook"
    );
    let broken = grammar(&[("BAD", regex("("))], &[("start", &["BAD"], "", 0)], &[]);
    match generate("", &alone(broken), &options(ParserAlgorithm::Lalr)) {
        Err(LarkError::Grammar(GrammarError::Other { msg })) => {
            assert_eq!(msg, "invalid regular expression in terminal BAD");
        }
        r => panic!("{r:?}"),
    }
}

#[test]
fn absent_optionals_are_written_out() {
    // start: [B] C
    let mut cg = grammar(
        &[("B", text("b")), ("C", text("c"))],
        &[("start", &["B", "C"], "", 0), ("start", &["C"], "", 0)],
        &[],
    );
    cg.rules[1].options.nones_before = vec![1, 0];
    let out = match generate("", &alone(cg), &options(ParserAlgorithm::Lalr)) {
        Ok(s) => s,
        Err(e) => panic!("{e:?}"),
    };
    assert!(out.contains("filter_pos: &[false], placeholder_count: 0, nones_before: &[1, 0], is_start: false }"));
    assert!(out.contains("        push_nones(rule, i, &mut children);\n        match value {"));
    assert!(out.contains("    push_nones(rule, rule.len as usize, &mut children);\n"));
}

#[test]
fn hidden_conflicts_are_reported_before_writing() {
    // start: a | b, where both stand for the same token.
    let colliding = grammar(
        &[("X", text("x"))],
        &[
            ("start", &["a"], "", 0),
            ("start", &["b"], "", 0),
            ("a", &["X"], "", 0),
            ("b", &["X"], "", 0),
        ],
        &[],
    );
    let shared = Grammar { compiled: words(), lalr_audit: Some(colliding) };
    match generate("", &shared, &options(ParserAlgorithm::Lalr)) {
        Err(LarkError::Grammar(GrammarError::Conflict { report })) => {
            assert!(report.starts_with("Reduce/Reduce collision"), "{report}");
        }
        r => panic!("{r:?}"),
    }
    let apart = Grammar { compiled: words(), lalr_audit: Some(words()) };
    assert!(generate("", &apart, &options(ParserAlgorithm::Lalr)).is_ok());
}
