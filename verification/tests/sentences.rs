use lark::earley_chart::EarleyParser;
use lark::lalr::LalrParser;
use lark::lalr_table::build_lalr_table;
use lark::symbols::{CompiledGrammar, CompiledRule, Pattern, SymbolId, SymbolTable, TerminalDef};
use lark::tree::Token;

/// A terminal that stands for its text.
fn text(value: &str) -> Pattern {
    Pattern::Str { value: value.to_string(), ci: false }
}

/// A terminal given by a regular expression.
fn regex(pattern: &str) -> Pattern {
    Pattern::Re { pattern: pattern.to_string(), flags: String::new() }
}

/// A rule: its origin (`?` in front collapses single children, `_` makes it
/// transparent), its symbols (`~` in front drops the token), its alias, and how
/// many placeholders it leaves.
type Line<'a> = (&'a str, &'a [&'a str], &'a str, usize);

/// The grammar of terminals and rules, from the symbol `start`.
fn grammar(terms: &[(&str, Pattern)], lines: &[Line<'_>], ignore: &[&str]) -> CompiledGrammar {
    let mut symbols = SymbolTable::new();
    for (name, _) in terms {
        symbols.intern(name, true, false);
    }
    let terminal_count = symbols.len();
    for (origin, _, _, _) in lines {
        let name = origin.trim_start_matches('?');
        if symbols.id(name).is_none() {
            symbols.intern(name, false, name.starts_with('_'));
        }
    }
    let root = symbols.intern("$root_start", false, false);
    let start = symbols.id("start").unwrap();
    let mut rules = Vec::new();
    for (i, (origin, expansion, alias, placeholders)) in lines.iter().enumerate() {
        let name = origin.trim_start_matches('?');
        let ids: Vec<SymbolId> = expansion
            .iter()
            .map(|s| symbols.id(s.trim_start_matches('~')).unwrap())
            .collect();
        let label = if alias.is_empty() { name } else { alias };
        let mut rule = CompiledRule::plain(symbols.id(name).unwrap(), ids, label);
        rule.filter_pos = expansion.iter().map(|s| s.starts_with('~')).collect();
        rule.transparent = name.starts_with('_');
        rule.options.expand1 = origin.starts_with('?');
        rule.options.placeholder_count = *placeholders;
        if !alias.is_empty() {
            rule.alias = Some(alias.to_string());
        }
        rule.order = i;
        rules.push(rule);
    }
    let mut first = CompiledRule::plain(root, vec![start], "$root_start");
    first.is_start = true;
    rules.push(first);
    let ids: Vec<SymbolId> = ignore.iter().map(|s| symbols.id(s).unwrap()).collect();
    let terminals = terms
        .iter()
        .map(|(name, p)| TerminalDef {
            name: name.to_string(),
            declared: false,
            pattern: match p {
                Pattern::Str { value, ci } => Pattern::Str { value: value.clone(), ci: *ci },
                Pattern::Re { pattern, flags } => {
                    Pattern::Re { pattern: pattern.clone(), flags: flags.clone() }
                }
            },
            priority: 0,
        })
        .collect();
    let g = CompiledGrammar {
        rules,
        symbols,
        start: vec![start],
        terminals,
        ignore: ids,
        propagate_positions: false,
        terminal_count,
    };
    assert!(g.is_wf());
    g
}

fn tok(symbols: &SymbolTable, name: &str) -> Token {
    let mut t = Token::new(name, name);
    t.type_id = symbols.id(name).unwrap();
    t
}

fn letters() -> Vec<(&'static str, Pattern)> {
    vec![("A", text("a")), ("B", regex("b"))]
}

/// Every list of the two letters up to a length.
fn words(longest: usize) -> Vec<Vec<&'static str>> {
    let mut all: Vec<Vec<&'static str>> = vec![Vec::new()];
    let mut from = 0;
    for _ in 0..longest {
        let upto = all.len();
        for i in from..upto {
            for name in ["A", "B"] {
                let mut w = all[i].clone();
                w.push(name);
                all.push(w);
            }
        }
        from = upto;
    }
    all
}

fn tokens(g: &CompiledGrammar, word: &[&str]) -> Vec<Token> {
    word.iter().map(|name| tok(&g.symbols, name)).collect()
}

/// Which words the grammar has, by the rule that is given; the resolving
/// parser takes these and no others.
fn takes_exactly(lines: &[Line<'_>], has: fn(&[&str]) -> bool) {
    let p = EarleyParser::new(grammar(&letters(), lines, &[]));
    for word in words(5) {
        let toks = tokens(&p.grammar, &word);
        assert_eq!(p.recognize(&toks, None), has(&word), "{:?}", word);
        assert_eq!(p.parse(&toks, None, true).is_ok(), has(&word), "{:?}", word);
    }
}

#[test]
fn right_recursion_takes_exactly_the_sentences() {
    takes_exactly(
        &[("start", &["A", "start"], "", 0), ("start", &["B"], "", 0)],
        |w| w.last() == Some(&"B") && w[..w.len() - 1].iter().all(|x| *x == "A"),
    );
}

#[test]
fn tails_that_derive_nothing_take_exactly_the_sentences() {
    takes_exactly(
        &[
            ("start", &["A", "start", "none"], "", 0),
            ("start", &["B", "none", "none"], "", 0),
            ("none", &["nought"], "", 0),
            ("none", &[], "", 0),
            ("nought", &[], "", 0),
        ],
        |w| w.last() == Some(&"B") && w[..w.len() - 1].iter().all(|x| *x == "A"),
    );
}

#[test]
fn cycles_take_exactly_the_sentences() {
    takes_exactly(
        &[
            ("start", &["v", "c"], "", 0),
            ("v", &["c"], "", 0),
            ("v", &["A"], "", 0),
            ("v", &[], "", 0),
            ("c", &["v"], "", 0),
        ],
        |w| w.len() <= 2 && w.iter().all(|x| *x == "A"),
    );
}

#[test]
fn ambiguity_takes_exactly_the_sentences() {
    takes_exactly(
        &[
            ("start", &["start", "start"], "", 0),
            ("start", &["A"], "", 0),
            ("start", &["B", "B"], "", 0),
        ],
        |w| {
            let mut i = 0;
            while i < w.len() {
                if w[i] == "A" {
                    i += 1;
                } else if i + 1 < w.len() && w[i + 1] == "B" {
                    i += 2;
                } else {
                    return false;
                }
            }
            !w.is_empty()
        },
    );
}

#[test]
fn showing_all_derivations_takes_exactly_the_sentences() {
    let lines: &[Line<'_>] = &[
        ("start", &["start", "opt", "start"], "", 0),
        ("start", &["_pair"], "", 0),
        ("start", &["B"], "", 0),
        ("_pair", &["A", "A"], "", 0),
        ("_pair", &["opt", "A", "opt"], "", 0),
        ("opt", &["B"], "", 0),
        ("opt", &[], "", 0),
    ];
    let p = EarleyParser::new(grammar(&letters(), lines, &[]));
    for word in words(5) {
        let toks = tokens(&p.grammar, &word);
        let known = p.recognize(&toks, None);
        assert_eq!(known, !word.is_empty(), "{:?}", word);
        assert_eq!(p.parse(&toks, None, false).is_ok(), known, "{:?}", word);
    }
}

/// The strict table of a grammar without conflicts parses what the grammar
/// has, and nothing else.
fn strict_table_takes_exactly(lines: &[Line<'_>]) {
    let g = grammar(&letters(), lines, &[]);
    let table = match build_lalr_table(&g, true) {
        Ok(t) => t,
        Err(e) => panic!("{:?}", e),
    };
    let lalr = LalrParser::new(table);
    let earley = EarleyParser::new(g);
    for word in words(6) {
        let toks = tokens(&earley.grammar, &word);
        let known = earley.recognize(&toks, None);
        assert_eq!(lalr.parse(toks, None).is_ok(), known, "{:?}", word);
    }
}

#[test]
fn strict_table_parses_nested_pairs() {
    strict_table_takes_exactly(&[
        ("start", &["A", "start", "B"], "", 0),
        ("start", &[], "", 0),
    ]);
}

#[test]
fn strict_table_parses_behind_what_derives_nothing() {
    strict_table_takes_exactly(&[
        ("start", &["opt", "A", "rest"], "", 0),
        ("opt", &["B"], "", 0),
        ("opt", &[], "", 0),
        ("rest", &["rest", "A"], "", 0),
        ("rest", &["opt"], "", 0),
    ]);
}
