use lark::analysis::eps_only_set;
use lark::earley_chart::EarleyParser;
use lark::perf;
use lark::perf::Counters;
use lark::symbols::{CompiledGrammar, CompiledRule, Pattern, SymbolId, SymbolTable, TerminalDef};
use lark::tree::{Child, Token, Tree};
use lark::tree_builder::Slot;
use lark::value_key::node_value_key;

/// A terminal that stands for its text.
fn text(value: &str) -> Pattern {
    Pattern::Str { value: value.to_string(), ci: false }
}

/// A terminal given by a regular expression.
fn regex(pattern: &str) -> Pattern {
    Pattern::Re { pattern: pattern.to_string(), flags: String::new() }
}

/// A rule: its origin (`?` in front collapses single children, `_` makes it
/// transparent), its symbols (`~` in front drops the token), its alias, and how
/// many placeholders it leaves.
type Line<'a> = (&'a str, &'a [&'a str], &'a str, usize);

/// The grammar of terminals and rules, from the symbol `start`.
fn grammar(terms: &[(&str, Pattern)], lines: &[Line<'_>], ignore: &[&str]) -> CompiledGrammar {
    let mut symbols = SymbolTable::new();
    for (name, _) in terms {
        symbols.intern(name, true, false);
    }
    let terminal_count = symbols.len();
    for (origin, _, _, _) in lines {
        let name = origin.trim_start_matches('?');
        if symbols.id(name).is_none() {
            symbols.intern(name, false, name.starts_with('_'));
        }
    }
    let root = symbols.intern("$root_start", false, false);
    let start = symbols.id("start").unwrap();
    let mut rules = Vec::new();
    for (i, (origin, expansion, alias, placeholders)) in lines.iter().enumerate() {
        let name = origin.trim_start_matches('?');
        let ids: Vec<SymbolId> = expansion
            .iter()
            .map(|s| symbols.id(s.trim_start_matches('~')).unwrap())
            .collect();
        let label = if alias.is_empty() { name } else { alias };
        let mut rule = CompiledRule::plain(symbols.id(name).unwrap(), ids, label);
        rule.filter_pos = expansion.iter().map(|s| s.starts_with('~')).collect();
        rule.transparent = name.starts_with('_');
        rule.options.expand1 = origin.starts_with('?');
        rule.options.placeholder_count = *placeholders;
        if !alias.is_empty() {
            rule.alias = Some(alias.to_string());
        }
        rule.order = i;
        rules.push(rule);
    }
    let mut first = CompiledRule::plain(root, vec![start], "$root_start");
    first.is_start = true;
    rules.push(first);
    let ids: Vec<SymbolId> = ignore.iter().map(|s| symbols.id(s).unwrap()).collect();
    let terminals = terms
        .iter()
        .map(|(name, p)| TerminalDef {
            name: name.to_string(),
            declared: false,
            pattern: match p {
                Pattern::Str { value, ci } => Pattern::Str { value: value.clone(), ci: *ci },
                Pattern::Re { pattern, flags } => {
                    Pattern::Re { pattern: pattern.clone(), flags: flags.clone() }
                }
            },
            priority: 0,
        })
        .collect();
    let g = CompiledGrammar {
        rules,
        symbols,
        start: vec![start],
        terminals,
        ignore: ids,
        propagate_positions: false,
        terminal_count,
    };
    assert!(g.is_wf());
    g
}

/// A token of the terminal `name`.
fn tok(symbols: &SymbolTable, name: &str, value: &str) -> Token {
    let mut t = Token::new(name, value);
    t.type_id = symbols.id(name).expect("terminal interned");
    t
}

fn simple_sequence() {
    // start: A B
    let cg = grammar(
        &[("A", text("a")), ("B", text("b"))],
        &[("start", &["A", "B"], "", 0)],
        &[],
    );
    let s = cg.symbols.copy();
    let p = EarleyParser::new(cg);
    assert!(p.recognize(&[tok(&s, "A", "a"), tok(&s, "B", "b")], Some("start")));
    // Wrong, short, and over-long inputs all reject.
    assert!(!p.recognize(&[tok(&s, "A", "a")], Some("start")));
    assert!(!p.recognize(&[tok(&s, "B", "b"), tok(&s, "A", "a")], Some("start")));
    assert!(!p.recognize(
        &[tok(&s, "A", "a"), tok(&s, "B", "b"), tok(&s, "B", "b")],
        Some("start")
    ));
    assert!(!p.recognize(&[], Some("start")));
}

#[test]
fn earley_recognizes_simple_sequence() {
    simple_sequence();
}

#[test]
fn mod_recognizes_simple_sequence() {
    simple_sequence();
}

fn nullable_symbol() {
    // start: A X? B
    let cg = grammar(
        &[("A", text("a")), ("X", text("x")), ("B", text("b"))],
        &[
            ("start", &["A", "__start_opt_0", "B"], "", 0),
            ("__start_opt_0", &["X"], "", 0),
            ("__start_opt_0", &[], "", 0),
        ],
        &[],
    );
    let s = cg.symbols.copy();
    let p = EarleyParser::new(cg);
    // X omitted and X present both parse.
    assert!(p.recognize(&[tok(&s, "A", "a"), tok(&s, "B", "b")], Some("start")));
    assert!(p.recognize(
        &[tok(&s, "A", "a"), tok(&s, "X", "x"), tok(&s, "B", "b")],
        Some("start")
    ));
    assert!(!p.recognize(&[tok(&s, "A", "a")], Some("start")));
}

#[test]
fn earley_handles_nullable_symbol() {
    nullable_symbol();
}

#[test]
fn mod_handles_nullable_symbol() {
    nullable_symbol();
}

fn ambiguous_left_recursion() {
    // start: start start | A
    let cg = grammar(
        &[("A", text("a"))],
        &[("start", &["start", "start"], "", 0), ("start", &["A"], "", 0)],
        &[],
    );
    let s = cg.symbols.copy();
    let p = EarleyParser::new(cg);
    for k in 1..=4 {
        let input: Vec<Token> = (0..k).map(|_| tok(&s, "A", "a")).collect();
        assert!(p.recognize(&input, Some("start")), "k={k} should parse");
    }
    assert!(!p.recognize(&[], Some("start")));
}

#[test]
fn earley_handles_ambiguous_left_recursion() {
    ambiguous_left_recursion();
}

#[test]
fn mod_handles_ambiguous_left_recursion() {
    ambiguous_left_recursion();
}

fn keys_separate_and_collapse() {
    let leaf = |data: &str| Child::Tree(Tree::new(data.to_string(), vec![]));
    let a1 = Slot::Tree(Tree::new("start".to_string(), vec![leaf("x"), leaf("x")]));
    let a2 = Slot::Tree(Tree::new("start".to_string(), vec![leaf("x"), leaf("x")]));
    assert_eq!(
        node_value_key(&a1),
        node_value_key(&a2),
        "byte-identical derivations must key equal (so they collapse)"
    );
    // The same node name with different children.
    let b = Slot::Tree(Tree::new("start".to_string(), vec![leaf("y")]));
    assert_ne!(
        node_value_key(&a1),
        node_value_key(&b),
        "structurally-distinct derivations must key apart (never collapse)"
    );
    // The same shape with a different token value.
    let token = |value: &str| Child::Token(Token::new("A", value));
    let c = Slot::Tree(Tree::new("n".to_string(), vec![token("a")]));
    let d = Slot::Tree(Tree::new("n".to_string(), vec![token("b")]));
    assert_ne!(
        node_value_key(&c),
        node_value_key(&d),
        "derivations differing only in a kept token value must key apart"
    );
    // One token whose text looks like the keys of two.
    let one = Slot::Tree(Tree::new("n".to_string(), vec![token("x\"T\"A\"\"y")]));
    let two = Slot::Tree(Tree::new("n".to_string(), vec![token("x"), token("y")]));
    assert_ne!(node_value_key(&one), node_value_key(&two));
    let spaced = Slot::Tree(Tree::new("n".to_string(), vec![token("x T:A=y")]));
    assert_ne!(node_value_key(&spaced), node_value_key(&two));
    assert_eq!(node_value_key(&a1), "(\"start\"(\"x\")(\"x\"))");
    assert_eq!(node_value_key(&c), "(\"n\"T\"A\"\"a\")");
}

#[test]
fn earley_node_value_key_separates_distinct_collapses_identical() {
    keys_separate_and_collapse();
}

#[test]
fn tree_walk_node_value_key_separates_distinct_collapses_identical() {
    keys_separate_and_collapse();
}

fn distinct_alternatives_stay() {
    // start: x x | y
    let cg = grammar(
        &[("A", text("a"))],
        &[
            ("start", &["x", "x"], "", 0),
            ("start", &["y"], "", 0),
            ("x", &["A"], "", 0),
            ("y", &["A", "A"], "", 0),
        ],
        &[],
    );
    let s = cg.symbols.copy();
    let p = EarleyParser::new(cg);
    let parsed = p
        .parse(&[tok(&s, "A", "a"), tok(&s, "A", "a")], Some("start"), false)
        .expect("parses");
    let tree = parsed.as_tree().expect("root is a tree");
    assert_eq!(tree.data, "_ambig", "the two readings are genuinely ambiguous");
    let mut shapes: Vec<&str> = tree
        .children
        .iter()
        .filter_map(Child::as_tree)
        .flat_map(|alt: &Tree| alt.children.iter().filter_map(Child::as_tree))
        .map(|t| t.data.as_str())
        .collect();
    shapes.sort_unstable();
    shapes.dedup();
    assert_eq!(
        shapes,
        vec!["x", "y"],
        "both distinct derivations (x x and y(A A)) must survive the dedup, got {:?}",
        tree
    );
}

#[test]
fn earley_explicit_keeps_structurally_distinct_ambig_alternatives() {
    distinct_alternatives_stay();
}

#[test]
fn tree_walk_explicit_keeps_structurally_distinct_ambig_alternatives() {
    distinct_alternatives_stay();
}

fn no_ambig(t: &Tree) -> bool {
    t.data != "_ambig"
        && t.children.iter().all(|c| match c {
            Child::Tree(t) => no_ambig(t),
            _ => true,
        })
}

fn identical_alternatives_collapse() {
    // start: "x" start | start "x" | "x"
    let cg = grammar(
        &[("X", text("x"))],
        &[
            ("start", &["~X", "start"], "", 0),
            ("start", &["start", "~X"], "", 0),
            ("start", &["~X"], "", 0),
        ],
        &[],
    );
    let s = cg.symbols.copy();
    let p = EarleyParser::new(cg);
    let input: Vec<Token> = (0..3).map(|_| tok(&s, "X", "x")).collect();
    let parsed = p.parse(&input, Some("start"), false).expect("parses");
    let tree = parsed.as_tree().expect("root is a tree");
    assert_ne!(
        tree.data, "_ambig",
        "byte-identical derivations collapse to a single tree (no _ambig); got {:?}",
        tree
    );
    assert_eq!(tree.data, "start");
    assert!(
        no_ambig(tree),
        "no nested _ambig should survive the collapse; got {:?}",
        tree
    );
}

#[test]
fn earley_explicit_collapses_byte_identical_ambig_alternatives() {
    identical_alternatives_collapse();
}

#[test]
fn tree_walk_explicit_collapses_byte_identical_ambig_alternatives() {
    identical_alternatives_collapse();
}

#[test]
fn cyclic_sentences_are_shown() {
    // start: a b, a: b | (nothing), b: a
    let cg = grammar(
        &[("X", text("x"))],
        &[
            ("start", &["a", "b"], "", 0),
            ("a", &["b"], "", 0),
            ("a", &[], "", 0),
            ("b", &["a"], "", 0),
        ],
        &[],
    );
    let s = cg.symbols.copy();
    let p = EarleyParser::new(cg);
    for resolve in [true, false] {
        assert!(p.parse(&[], Some("start"), resolve).is_ok());
        // The end of input makes no difference.
        assert!(p.parse(&[tok(&s, "$END", "")], Some("start"), resolve).is_ok());
        assert!(p.parse(&[tok(&s, "X", "x")], Some("start"), resolve).is_err());
    }
    assert!(p.recognize(&[], Some("start")));
    assert!(p.recognize(&[tok(&s, "$END", "")], Some("start")));
    assert!(!p.recognize(&[tok(&s, "X", "x")], Some("start")));
}

#[test]
fn a_rule_named_like_an_ambiguity_is_shown() {
    // start: n, n: (nothing), named "_ambig"
    let cg = grammar(
        &[("X", text("x"))],
        &[("start", &["n"], "", 0), ("n", &[], "_ambig", 0)],
        &[],
    );
    let p = EarleyParser::new(cg);
    assert!(p.recognize(&[], Some("start")));
    assert!(p.parse(&[], Some("start"), false).is_ok());
}

#[test]
fn symbols_that_derive_nothing_else_are_marked() {
    // start: s, s: t | (nothing), t: X t
    let cg = grammar(
        &[("X", text("x"))],
        &[
            ("start", &["s"], "", 0),
            ("s", &["t"], "", 0),
            ("s", &[], "", 0),
            ("t", &["X", "t"], "", 0),
        ],
        &[],
    );
    let only = eps_only_set(&cg);
    let at = |name: &str| only[cg.symbols.id(name).unwrap().index()];
    assert!(at("s"));
    assert!(at("start"));
    assert!(!at("t"));
    assert!(!at("X"));
}

#[test]
fn long_inputs_are_walked() {
    // start: _list, _list: _list A | A
    let cg = grammar(
        &[("A", text("a"))],
        &[
            ("start", &["_list"], "", 0),
            ("_list", &["_list", "A"], "", 0),
            ("_list", &["A"], "", 0),
        ],
        &[],
    );
    let s = cg.symbols.copy();
    let p = EarleyParser::new(cg);
    let input: Vec<Token> = (0..2000).map(|_| tok(&s, "A", "a")).collect();
    for resolve in [true, false] {
        let parsed = p.parse(&input, Some("start"), resolve).expect("parses");
        assert_eq!(parsed.as_tree().expect("root is a tree").children.len(), 2000);
    }
    // start: sum, sum: sum A | A
    let cg = grammar(
        &[("A", text("a"))],
        &[("start", &["sum"], "", 0), ("sum", &["sum", "A"], "", 0), ("sum", &["A"], "", 0)],
        &[],
    );
    let s = cg.symbols.copy();
    let p = EarleyParser::new(cg);
    for (n, resolve) in [(1000, true), (400, false)] {
        let input: Vec<Token> = (0..n).map(|_| tok(&s, "A", "a")).collect();
        let parsed = p.parse(&input, Some("start"), resolve).expect("parses");
        let mut depth = 0;
        let mut at = parsed.as_tree().expect("root is a tree");
        while let Some(t) = at.children.first().and_then(Child::as_tree) {
            depth += 1;
            at = t;
        }
        assert_eq!(depth, n);
    }
}

/// The shape of a tree, without its tokens.
fn shape(t: &Tree) -> String {
    let parts: Vec<String> = t.children.iter().filter_map(Child::as_tree).map(shape).collect();
    format!("{}({})", t.data, parts.join(","))
}

/// The trees that are left once an alternative is picked at every ambiguity node.
fn picked(t: &Tree) -> Vec<String> {
    if t.data == "_ambig" {
        return t.children.iter().filter_map(Child::as_tree).flat_map(picked).collect();
    }
    let mut rows: Vec<Vec<String>> = vec![Vec::new()];
    for c in t.children.iter().filter_map(Child::as_tree) {
        let mut longer = Vec::new();
        for row in &rows {
            for p in picked(c) {
                let mut r = row.clone();
                r.push(p);
                longer.push(r);
            }
        }
        rows = longer;
    }
    rows.iter().map(|r| format!("{}({})", t.data, r.join(","))).collect()
}

#[test]
fn every_derivation_is_among_the_picks() {
    // start: e, e: e e | A: the ways to group n letters in pairs.
    let all = |n: usize| {
        let cg = grammar(
            &[("A", text("a"))],
            &[("start", &["e"], "", 0), ("e", &["e", "e"], "", 0), ("e", &["A"], "", 0)],
            &[],
        );
        let s = cg.symbols.copy();
        let p = EarleyParser::new(cg);
        let tokens: Vec<Token> = (0..n).map(|_| tok(&s, "A", "a")).collect();
        let t = p.parse(&tokens, Some("start"), false).expect("parses");
        let mut ps = picked(t.as_tree().expect("a tree"));
        ps.sort();
        ps.dedup();
        ps
    };
    assert_eq!(all(1), vec!["start(e())"]);
    assert_eq!(all(2), vec!["start(e(e(),e()))"]);
    assert_eq!(all(3), vec!["start(e(e(),e(e(),e())))", "start(e(e(e(),e()),e()))"]);
    assert_eq!(all(4).len(), 5);
    assert_eq!(all(5).len(), 14);
    assert_eq!(all(6).len(), 42);
    assert!(all(4).contains(&"start(e(e(e(),e()),e(e(),e())))".to_string()));
    assert!(all(4).contains(&"start(e(e(),e(e(),e(e(),e()))))".to_string()));
}

#[test]
fn every_derivation_by_empty_parts_is_among_the_picks() {
    // start: x y, x: A | (nothing), y: A | (nothing)
    let cg = grammar(
        &[("A", text("a"))],
        &[
            ("start", &["x", "y"], "", 0),
            ("x", &["A"], "full", 0),
            ("x", &[], "", 0),
            ("y", &["A"], "full", 0),
            ("y", &[], "", 0),
        ],
        &[],
    );
    let s = cg.symbols.copy();
    let p = EarleyParser::new(cg);
    let t = p.parse(&[tok(&s, "A", "a")], Some("start"), false).expect("parses");
    let mut ps = picked(t.as_tree().expect("a tree"));
    ps.sort();
    assert_eq!(ps, vec!["start(full(),y())", "start(x(),full())"]);
    assert_eq!(shape(t.as_tree().expect("a tree")).matches("start(").count(), 2);
}

#[test]
fn shortcuts_leave_the_picks_alone() {
    // start: l, l: A l | A l B | A
    let all = |disabled: bool| {
        let cg = grammar(
            &[("A", text("a")), ("B", text("b"))],
            &[
                ("start", &["l"], "", 0),
                ("l", &["A", "l"], "", 0),
                ("l", &["A", "l", "B"], "", 0),
                ("l", &["A"], "", 0),
            ],
            &[],
        );
        let s = cg.symbols.copy();
        let mut p = EarleyParser::new(cg);
        let mut c = Counters::new();
        perf::set_leo_disabled(&mut c, disabled);
        let tokens = [tok(&s, "A", "a"), tok(&s, "A", "a"), tok(&s, "A", "a"), tok(&s, "B", "b")];
        let t = p.parse_counted(&tokens, Some("start"), false, &mut c).expect("parses");
        let mut ps = picked(t.as_tree().expect("a tree"));
        ps.sort();
        ps
    };
    assert_eq!(all(false), all(true));
    assert_eq!(all(false).len(), 2);
}

#[test]
fn symbols_with_one_name_are_refused() {
    let mut cg = grammar(&[("A", text("a"))], &[("start", &["A"], "", 0)], &[]);
    assert!(cg.symbols.names_differ());
    cg.symbols.intern("start", false, false);
    assert!(!cg.symbols.names_differ());
    assert!(!cg.is_wf());
}

#[test]
fn rules_that_use_the_root_symbol_are_refused() {
    let mut cg = grammar(&[("A", text("a"))], &[("start", &["A"], "", 0)], &[]);
    let root = cg.symbols.id("$root_start").expect("interned");
    let start = cg.symbols.id("start").expect("interned");
    cg.rules.push(CompiledRule::plain(start, vec![root], "start"));
    assert!(!cg.is_wf());
}

#[test]
fn rules_of_a_symbol_that_are_spliced_by_halves_are_refused() {
    let mut cg = grammar(
        &[("A", text("a")), ("B", text("b"))],
        &[("start", &["x"], "", 0), ("x", &["A"], "", 0), ("x", &["B"], "", 0)],
        &[],
    );
    cg.rules[1].transparent = true;
    assert!(!cg.is_wf());
    cg.rules[2].transparent = true;
    assert!(cg.is_wf());
}
