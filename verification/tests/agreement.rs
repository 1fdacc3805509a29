use lark::cyk::CykParser;
use lark::earley_chart::EarleyParser;
use lark::lalr::LalrParser;
use lark::lalr_table::build_lalr_table;
use lark::symbols::{CompiledGrammar, CompiledRule, Pattern, SymbolId, SymbolTable, TerminalDef};
use lark::tree::{Child, ParseTree, Token, Tree};

/// A terminal that stands for its text.
fn text(value: &str) -> Pattern {
    Pattern::Str { value: value.to_string(), ci: false }
}

/// A terminal given by a regular expression.
fn regex(pattern: &str) -> Pattern {
    Pattern::Re { pattern: pattern.to_string(), flags: String::new() }
}

/// A rule: its origin (`?` in front collapses single children, `_` makes it
/// transparent), its symbols (`~` in front drops the token), its alias, and how
/// many placeholders it leaves.
type Line<'a> = (&'a str, &'a [&'a str], &'a str, usize);

/// The grammar of terminals and rules, from the symbol `start`.
fn grammar(terms: &[(&str, Pattern)], lines: &[Line<'_>], ignore: &[&str]) -> CompiledGrammar {
    let mut symbols = SymbolTable::new();
    for (name, _) in terms {
        symbols.intern(name, true, false);
    }
    let terminal_count = symbols.len();
    for (origin, _, _, _) in lines {
        let name = origin.trim_start_matches('?');
        if symbols.id(name).is_none() {
            symbols.intern(name, false, name.starts_with('_'));
        }
    }
    let root = symbols.intern("$root_start", false, false);
    let start = symbols.id("start").unwrap();
    let mut rules = Vec::new();
    for (i, (origin, expansion, alias, placeholders)) in lines.iter().enumerate() {
        let name = origin.trim_start_matches('?');
        let ids: Vec<SymbolId> = expansion
            .iter()
            .map(|s| symbols.id(s.trim_start_matches('~')).unwrap())
            .collect();
        let label = if alias.is_empty() { name } else { alias };
        let mut rule = CompiledRule::plain(symbols.id(name).unwrap(), ids, label);
        rule.filter_pos = expansion.iter().map(|s| s.starts_with('~')).collect();
        rule.transparent = name.starts_with('_');
        rule.options.expand1 = origin.starts_with('?');
        rule.options.placeholder_count = *placeholders;
        if !alias.is_empty() {
            rule.alias = Some(alias.to_string());
        }
        rule.order = i;
        rules.push(rule);
    }
    let mut first = CompiledRule::plain(root, vec![start], "$root_start");
    first.is_start = true;
    rules.push(first);
    let ids: Vec<SymbolId> = ignore.iter().map(|s| symbols.id(s).unwrap()).collect();
    let terminals = terms
        .iter()
        .map(|(name, p)| TerminalDef {
            name: name.to_string(),
            declared: false,
            pattern: match p {
                Pattern::Str { value, ci } => Pattern::Str { value: value.clone(), ci: *ci },
                Pattern::Re { pattern, flags } => {
                    Pattern::Re { pattern: pattern.clone(), flags: flags.clone() }
                }
            },
            priority: 0,
        })
        .collect();
    let g = CompiledGrammar {
        rules,
        symbols,
        start: vec![start],
        terminals,
        ignore: ids,
        propagate_positions: false,
        terminal_count,
    };
    assert!(g.is_wf());
    g
}

fn tok(symbols: &SymbolTable, name: &str) -> Token {
    let mut t = Token::new(name, name);
    t.type_id = symbols.id(name).unwrap();
    t
}

fn letters() -> Vec<(&'static str, Pattern)> {
    vec![("A", text("a")), ("B", regex("b"))]
}

/// Every list of the two letters up to a length.
fn words(longest: usize) -> Vec<Vec<&'static str>> {
    let mut all: Vec<Vec<&'static str>> = vec![Vec::new()];
    let mut from = 0;
    for _ in 0..longest {
        let upto = all.len();
        for i in from..upto {
            for name in ["A", "B"] {
                let mut w = all[i].clone();
                w.push(name);
                all.push(w);
            }
        }
        from = upto;
    }
    all
}

fn tokens(g: &CompiledGrammar, word: &[&str]) -> Vec<Token> {
    word.iter().map(|name| tok(&g.symbols, name)).collect()
}

/// A tree as text.
fn show(t: &ParseTree) -> String {
    match t {
        ParseTree::Tree(t) => show_tree(t),
        ParseTree::Token(t) => format!("Token({}, {:?})", t.type_, t.value),
        ParseTree::Absent => "None".to_string(),
    }
}

fn show_tree(t: &Tree) -> String {
    let parts: Vec<String> = t
        .children
        .iter()
        .map(|c| match c {
            Child::Tree(t) => show_tree(t),
            Child::Token(t) => format!("Token({}, {:?})", t.type_, t.value),
            Child::Absent => "None".to_string(),
        })
        .collect();
    format!("Tree({}, [{}])", t.data, parts.join(", "))
}

/// A grammar with splices, collapsing rules, dropped tokens and aliases, each of
/// whose sentences has one derivation.
const LINES: &[Line<'static>] = &[
    ("start", &["~A", "_items"], "", 0),
    ("_items", &["item"], "", 0),
    ("_items", &["_items", "item"], "", 0),
    ("?item", &["B"], "", 0),
    ("?item", &["A", "tail", "B"], "pair", 0),
    ("tail", &["A"], "", 0),
];

fn trees(word: &[&str]) -> [Option<String>; 3] {
    let g = grammar(&letters(), LINES, &[]);
    let lalr = match build_lalr_table(&g, true) {
        Ok(t) => LalrParser::new(t),
        Err(e) => panic!("{:?}", e),
    };
    let toks = || tokens(&g, word);
    let by_lalr = lalr.parse(toks(), None).ok().map(|t| show(&t));
    let cyk = match CykParser::new(grammar(&letters(), LINES, &[])) {
        Ok(p) => p,
        Err(e) => panic!("{:?}", e),
    };
    let by_cyk = cyk.parse(&toks(), None).ok().map(|t| show(&t));
    let earley = EarleyParser::new(grammar(&letters(), LINES, &[]));
    let by_earley = earley.parse(&toks(), None, true).ok().map(|t| show(&t));
    [by_lalr, by_earley, by_cyk]
}

#[test]
fn parsers_agree_on_sentences_with_one_tree() {
    let mut taken = 0;
    for word in words(7) {
        let [by_lalr, by_earley, by_cyk] = trees(&word);
        assert_eq!(by_lalr, by_earley, "{:?}", word);
        assert_eq!(by_lalr, by_cyk, "{:?}", word);
        taken += usize::from(by_lalr.is_some());
    }
    assert!(taken > 5);
}

#[test]
fn parsers_build_the_tree_of_the_derivation() {
    let want = "Tree(start, [Token(B, \"B\"), Tree(pair, [Token(A, \"A\"), \
        Tree(tail, [Token(A, \"A\")]), Token(B, \"B\")])])";
    for got in trees(&["A", "B", "A", "A", "B"]) {
        assert_eq!(got.as_deref(), Some(want));
    }
}

#[test]
fn parsers_agree_that_a_word_is_no_sentence() {
    assert_eq!(trees(&["A", "A", "B"]), [None, None, None]);
}
