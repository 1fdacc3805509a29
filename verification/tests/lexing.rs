use lark::error::{GrammarError, ParseError};
use lark::lexer::{
    basic_lexer_conf, check_zero_width_terminals, BasicLexer, DynamicMatcher, Place,
};
use lark::pattern::{escape, global_prefix, inline_regex, keep_anchored, match_text};
use lark::perf;
use lark::perf::Counters;
use lark::scanner::{scanner_plan, Terminal};
use lark::symbols::{CompiledGrammar, CompiledRule, Pattern, SymbolId, SymbolTable, TerminalDef};

/// A terminal that stands for its text.
fn text(value: &str) -> Pattern {
    Pattern::Str { value: value.to_string(), ci: false }
}

/// A terminal given by a regular expression.
fn regex(pattern: &str) -> Pattern {
    Pattern::Re { pattern: pattern.to_string(), flags: String::new() }
}

/// A rule: its origin (`?` in front collapses single children, `_` makes it
/// transparent), its symbols (`~` in front drops the token), its alias, and how
/// many placeholders it leaves.
type Line<'a> = (&'a str, &'a [&'a str], &'a str, usize);

/// The grammar of terminals and rules, from the symbol `start`.
fn grammar(terms: &[(&str, Pattern)], lines: &[Line<'_>], ignore: &[&str]) -> CompiledGrammar {
    let mut symbols = SymbolTable::new();
    for (name, _) in terms {
        symbols.intern(name, true, false);
    }
    let terminal_count = symbols.len();
    for (origin, _, _, _) in lines {
        let name = origin.trim_start_matches('?');
        if symbols.id(name).is_none() {
            symbols.intern(name, false, name.starts_with('_'));
        }
    }
    let root = symbols.intern("$root_start", false, false);
    let start = symbols.id("start").unwrap();
    let mut rules = Vec::new();
    for (i, (origin, expansion, alias, placeholders)) in lines.iter().enumerate() {
        let name = origin.trim_start_matches('?');
        let ids: Vec<SymbolId> = expansion
            .iter()
            .map(|s| symbols.id(s.trim_start_matches('~')).unwrap())
            .collect();
        let label = if alias.is_empty() { name } else { alias };
        let mut rule = CompiledRule::plain(symbols.id(name).unwrap(), ids, label);
        rule.filter_pos = expansion.iter().map(|s| s.starts_with('~')).collect();
        rule.transparent = name.starts_with('_');
        rule.options.expand1 = origin.starts_with('?');
        rule.options.placeholder_count = *placeholders;
        if !alias.is_empty() {
            rule.alias = Some(alias.to_string());
        }
        rule.order = i;
        rules.push(rule);
    }
    let mut first = CompiledRule::plain(root, vec![start], "$root_start");
    first.is_start = true;
    rules.push(first);
    let ids: Vec<SymbolId> = ignore.iter().map(|s| symbols.id(s).unwrap()).collect();
    let terminals = terms
        .iter()
        .map(|(name, p)| TerminalDef {
            name: name.to_string(),
            declared: false,
            pattern: match p {
                Pattern::Str { value, ci } => Pattern::Str { value: value.clone(), ci: *ci },
                Pattern::Re { pattern, flags } => {
                    Pattern::Re { pattern: pattern.clone(), flags: flags.clone() }
                }
            },
            priority: 0,
        })
        .collect();
    let g = CompiledGrammar {
        rules,
        symbols,
        start: vec![start],
        terminals,
        ignore: ids,
        propagate_positions: false,
        terminal_count,
    };
    assert!(g.is_wf());
    g
}

fn terminal(id: u32, name: &str, pattern: Pattern, priority: i64) -> Terminal {
    Terminal {
        id: SymbolId(id),
        def: TerminalDef { name: name.to_string(), declared: false, pattern, priority },
    }
}

#[test]
fn a_match_begins_at_once() {
    assert_eq!(match_text("a+", "", "aab"), Some("aa".to_string()));
    assert_eq!(match_text("b", "", "ab"), None);
    assert_eq!(match_text("a(b", "", "ab"), None);
    // What stands before counts for boundaries.
    assert_eq!(match_text(r"\bb", "a", "b"), None);
    assert_eq!(match_text(r"\bb", " ", "b"), Some("b".to_string()));
    assert_eq!(keep_anchored(Some((String::new(), "x".to_string()))), Some("x".to_string()));
    assert_eq!(keep_anchored(Some(("y".to_string(), "x".to_string()))), None);
    assert_eq!(keep_anchored(None), None);
}

#[test]
fn patterns_become_regular_expressions() {
    assert_eq!(escape("a+b.c"), "a\\+b\\.c");
    assert_eq!(inline_regex(&regex("a|b")), "(?:a|b)");
    let flagged = Pattern::Re { pattern: "a".to_string(), flags: "is".to_string() };
    assert_eq!(inline_regex(&flagged), "(?is:a)");
    assert_eq!(global_prefix(0), "");
    assert_eq!(global_prefix(2 + 8 + 16 + 64), "(?imsx)");
    assert_eq!(global_prefix(16), "(?s)");
    assert_eq!(match_text(&inline_regex(&text("a.c")), "", "abc"), None);
    let folded = Pattern::Str { value: "ab".to_string(), ci: true };
    assert_eq!(match_text(&inline_regex(&folded), "", "AB"), Some("AB".to_string()));
}

#[test]
fn keywords_are_told_from_names() {
    let terms = vec![
        terminal(1, "NAME", regex("[a-z]+"), 0),
        terminal(2, "IF", text("if"), 0),
        terminal(3, "PLUS", text("+"), 0),
    ];
    let plan = match scanner_plan(&terms, 0) {
        Ok(p) => p,
        Err(e) => panic!("{e:?}"),
    };
    assert_eq!(plan.scan("", "if x"), Some((SymbolId(2), "if".to_string())));
    assert_eq!(plan.scan("", "iffy"), Some((SymbolId(1), "iffy".to_string())));
    assert_eq!(plan.scan("if", "+"), Some((SymbolId(3), "+".to_string())));
    assert_eq!(plan.scan("", " if"), None);
    assert_eq!(plan.scan("", ""), None);
}

#[test]
fn higher_priority_and_longer_texts_come_first() {
    let scan = |terms: &Vec<Terminal>, input: &str| match scanner_plan(terms, 0) {
        Ok(p) => p.scan("", input).map(|(id, _)| id.0),
        Err(e) => panic!("{e:?}"),
    };
    let texts = vec![terminal(1, "LT", text("<"), 0), terminal(2, "LE", text("<="), 0)];
    assert_eq!(scan(&texts, "<="), Some(2));
    let ranked = vec![
        terminal(1, "WORD", regex("[a-z]+"), 0),
        terminal(2, "HEX", regex("[a-f]+"), 1),
    ];
    assert_eq!(scan(&ranked, "abc"), Some(2));
}

#[test]
fn invalid_expressions_are_reported() {
    let terms = vec![terminal(1, "BAD", regex("["), 0)];
    match scanner_plan(&terms, 0) {
        Err(GrammarError::Other { msg }) => {
            assert_eq!(msg, "invalid regular expression in terminal BAD");
        }
        _ => panic!("should be refused"),
    }
}

#[test]
fn a_text_is_lexed_with_places() {
    let g = grammar(
        &[("WORD", regex("[a-zé]+")), ("NL", regex("\n")), ("WS", regex(" +"))],
        &[("start", &["WORD", "NL", "WORD"], "", 0)],
        &["WS"],
    );
    let conf = basic_lexer_conf(&g, 0);
    assert!(check_zero_width_terminals(&conf).is_ok());
    let lexer = match BasicLexer::new(&conf) {
        Ok(l) => l,
        Err(e) => panic!("{e:?}"),
    };
    assert!(lexer.is_ignored(g.symbols.id("WS").unwrap()));
    let tokens = lexer.lex("é a\n b").expect("should lex");
    let seen: Vec<(&str, &str, usize, usize, usize)> = tokens
        .iter()
        .map(|t| (t.type_.as_str(), t.value.as_str(), t.line, t.column, t.start_pos))
        .collect();
    assert_eq!(
        &seen[..4],
        &[
            ("WORD", "é", 1, 1, 0),
            ("WORD", "a", 1, 3, 2),
            ("NL", "\n", 1, 4, 3),
            ("WORD", "b", 2, 2, 5),
        ]
    );
    assert_eq!(tokens[4].type_, "$END");
    assert_eq!(tokens.len(), 5);
    match lexer.lex("a?") {
        Err(ParseError::UnexpectedCharacter { ch, line, col, pos, .. }) => {
            assert_eq!((ch, line, col, pos), ('?', 1, 2, 1));
        }
        r => panic!("{r:?}"),
    }
}

#[test]
fn places_count_characters_and_lines() {
    let p = Place::origin().walk("aé\nb");
    assert_eq!((p.pos, p.byte, p.line, p.col), (4, 5, 2, 2));
}

#[test]
fn single_terminals_match_for_dynamic_lexing() {
    let g = grammar(
        &[("WORD", regex("[a-z]+"))],
        &[("start", &["WORD"], "", 0)],
        &[],
    );
    let conf = basic_lexer_conf(&g, 0);
    let m = match DynamicMatcher::new(&conf) {
        Ok(m) => m,
        Err(e) => panic!("{e:?}"),
    };
    let id = g.symbols.id("WORD").unwrap();
    assert_eq!(m.name(id), "WORD");
    assert_eq!(m.match_at(id, "", "ab1"), Some("ab".to_string()));
    assert_eq!(m.match_at(id, "ab", "1"), None);
    assert_eq!(m.match_at(SymbolId(77), "", "ab"), None);
}

#[test]
fn the_bytes_of_lexed_texts_are_counted() {
    let g = grammar(
        &[("WORD", regex("[a-zé]+")), ("WS", regex(" +"))],
        &[("start", &["WORD", "WORD"], "", 0)],
        &["WS"],
    );
    let lexer = match BasicLexer::new(&basic_lexer_conf(&g, 0)) {
        Ok(l) => l,
        Err(e) => panic!("{e:?}"),
    };
    let mut c = Counters::new();
    let tokens = lexer.lex_counted("é ab", &mut c).expect("should lex");
    assert_eq!(tokens.len(), 3);
    // What is left out is matched too.
    assert_eq!(perf::lexer_token_value_bytes(&c), 5);
    assert!(lexer.lex_counted("a?b", &mut c).is_err());
    assert_eq!(perf::lexer_token_value_bytes(&c), 6);
}

#[test]
fn tokens_are_named_as_the_grammar_names_their_types() {
    let g = grammar(
        &[("WORD", regex("[a-z]+")), ("IF", text("if")), ("WS", regex(" +"))],
        &[("start", &["IF", "WORD"], "", 0)],
        &["WS"],
    );
    let lexer = match BasicLexer::new(&basic_lexer_conf(&g, 0)) {
        Ok(l) => l,
        Err(e) => panic!("{e:?}"),
    };
    let tokens = lexer.lex("if ifs").expect("should lex");
    let names: Vec<&str> = tokens.iter().map(|t| t.type_.as_str()).collect();
    assert_eq!(names, vec!["IF", "WORD", "$END"]);
    for t in &tokens {
        assert_eq!(g.symbols.id(&t.type_), Some(t.type_id));
    }
}
