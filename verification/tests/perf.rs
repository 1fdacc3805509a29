use lark::cyk::CykParser;
use lark::earley_chart::EarleyParser;
use lark::lalr::LalrParser;
use lark::lalr_table::build_lalr_table_counted;
use lark::perf;
use lark::perf::Counters;
use lark::symbols::{CompiledGrammar, CompiledRule, Pattern, SymbolId, SymbolTable, TerminalDef};
use lark::tree::{ParseTree, Token};

/// A terminal that stands for its text.
fn text(value: &str) -> Pattern {
    Pattern::Str { value: value.to_string(), ci: false }
}

/// A rule: its origin (`?` in front collapses single children, `_` makes it
/// transparent), its symbols (`~` in front drops the token), its alias, and how
/// many placeholders it leaves.
type Line<'a> = (&'a str, &'a [&'a str], &'a str, usize);

/// The grammar of terminals and rules, from the symbol `start`.
fn grammar(terms: &[(&str, Pattern)], lines: &[Line<'_>], ignore: &[&str]) -> CompiledGrammar {
    let mut symbols = SymbolTable::new();
    for (name, _) in terms {
        symbols.intern(name, true, false);
    }
    let terminal_count = symbols.len();
    for (origin, _, _, _) in lines {
        let name = origin.trim_start_matches('?');
        if symbols.id(name).is_none() {
            symbols.intern(name, false, name.starts_with('_'));
        }
    }
    let root = symbols.intern("$root_start", false, false);
    let start = symbols.id("start").unwrap();
    let mut rules = Vec::new();
    for (i, (origin, expansion, alias, placeholders)) in lines.iter().enumerate() {
        let name = origin.trim_start_matches('?');
        let ids: Vec<SymbolId> = expansion
            .iter()
            .map(|s| symbols.id(s.trim_start_matches('~')).unwrap())
            .collect();
        let label = if alias.is_empty() { name } else { alias };
        let mut rule = CompiledRule::plain(symbols.id(name).unwrap(), ids, label);
        rule.filter_pos = expansion.iter().map(|s| s.starts_with('~')).collect();
        rule.transparent = name.starts_with('_');
        rule.options.expand1 = origin.starts_with('?');
        rule.options.placeholder_count = *placeholders;
        if !alias.is_empty() {
            rule.alias = Some(alias.to_string());
        }
        rule.order = i;
        rules.push(rule);
    }
    let mut first = CompiledRule::plain(root, vec![start], "$root_start");
    first.is_start = true;
    rules.push(first);
    let ids: Vec<SymbolId> = ignore.iter().map(|s| symbols.id(s).unwrap()).collect();
    let terminals = terms
        .iter()
        .map(|(name, p)| TerminalDef {
            name: name.to_string(),
            declared: false,
            pattern: match p {
                Pattern::Str { value, ci } => Pattern::Str { value: value.clone(), ci: *ci },
                Pattern::Re { pattern, flags } => {
                    Pattern::Re { pattern: pattern.clone(), flags: flags.clone() }
                }
            },
            priority: 0,
        })
        .collect();
    let g = CompiledGrammar {
        rules,
        symbols,
        start: vec![start],
        terminals,
        ignore: ids,
        propagate_positions: false,
        terminal_count,
    };
    assert!(g.is_wf());
    g
}

/// A token of the terminal `name`.
fn tok(symbols: &SymbolTable, name: &str, value: &str) -> Token {
    let mut t = Token::new(name, value);
    t.type_id = symbols.id(name).expect("terminal interned");
    t
}

#[test]
fn work_is_counted_and_reset() {
    let mut c = Counters::new();
    assert!(perf::ENABLED);
    perf::add_completer_scan_steps(&mut c, 3);
    perf::add_completer_scan_steps(&mut c, 4);
    perf::add_forest_node(&mut c);
    perf::add_cyk_table_steps(&mut c, 9);
    assert_eq!(perf::completer_scan_steps(&c), 7);
    assert_eq!(perf::forest_nodes(&c), 1);
    assert_eq!(perf::cyk_table_steps(&c), 9);
    assert_eq!(perf::lexer_scan_steps(&c), 0);
    perf::set_leo_disabled(&mut c, true);
    assert!(perf::leo_disabled(&c));
    perf::reset(&mut c);
    assert_eq!(perf::completer_scan_steps(&c), 0);
    assert_eq!(perf::forest_nodes(&c), 0);
}

#[test]
fn counters_wrap_around() {
    let mut c = Counters::new();
    perf::add_expansion_alts(&mut c, u64::MAX);
    perf::add_expansion_alts(&mut c, 3);
    assert_eq!(perf::expansion_alts(&c), 2);
}

/// The tokens named, each with its name in lower case as its text.
fn toks(symbols: &SymbolTable, names: &[&str]) -> Vec<Token> {
    names.iter().map(|n| tok(symbols, n, &n.to_lowercase())).collect()
}

#[test]
fn showing_all_derivations_is_counted() {
    // start: A B C
    let cg = grammar(
        &[("A", text("a")), ("B", text("b")), ("C", text("c"))],
        &[("start", &["A", "B", "C"], "", 0)],
        &[],
    );
    let s = cg.symbols.copy();
    let mut p = EarleyParser::new(cg);
    let mut c = Counters::new();
    let r = p.parse_counted(&toks(&s, &["A", "B", "C"]), Some("start"), false, &mut c);
    assert!(r.is_ok());
    assert_eq!(perf::explicit_prefix_copies(&c), 3);
    assert_eq!(perf::explicit_node_children(&c), 3);
    assert_eq!(perf::explicit_assemble_children(&c), 3);
    assert_eq!(perf::explicit_derivations(&c), 1);
    // Choosing one derivation does none of that work.
    let mut d = Counters::new();
    assert!(p.parse_counted(&toks(&s, &["A", "B", "C"]), Some("start"), true, &mut d).is_ok());
    assert_eq!(perf::explicit_prefix_copies(&d), 0);
    assert_eq!(perf::explicit_derivations(&d), 0);
    assert_eq!(perf::forest_nodes(&d), perf::forest_nodes(&c));
    // A start symbol that is not configured is no work.
    let mut e = Counters::new();
    assert!(p.parse_counted(&toks(&s, &["A"]), Some("other"), true, &mut e).is_err());
    assert_eq!(e, Counters::new());
}

#[test]
fn the_nodes_of_forests_are_counted() {
    // start: A B
    let cg = grammar(
        &[("A", text("a")), ("B", text("b"))],
        &[("start", &["A", "B"], "", 0)],
        &[],
    );
    let s = cg.symbols.copy();
    let mut p = EarleyParser::new(cg);
    let mut c = Counters::new();
    assert!(p.recognize_counted(&toks(&s, &["A", "B"]), Some("start"), &mut c));
    assert_eq!(perf::forest_nodes(&c), 2);
    assert_eq!(perf::completer_scan_steps(&c), 0);
    // Tokens that are no sentence take work too.
    assert!(!p.recognize_counted(&toks(&s, &["A"]), Some("start"), &mut c));
    assert_eq!(perf::forest_nodes(&c), 3);
}

/// The counts of a right-recursive parse of `n` tokens.
fn right_recursive(n: usize, disabled: bool) -> Counters {
    // start: a, a: A a | A
    let cg = grammar(
        &[("A", text("a"))],
        &[("start", &["a"], "", 0), ("a", &["A", "a"], "", 0), ("a", &["A"], "", 0)],
        &[],
    );
    let s = cg.symbols.copy();
    let mut p = EarleyParser::new(cg);
    let mut c = Counters::new();
    perf::set_leo_disabled(&mut c, disabled);
    assert!(p.recognize_counted(&toks(&s, &vec!["A"; n]), Some("start"), &mut c));
    c
}

#[test]
fn the_switch_turns_the_shortcuts_off() {
    // Without shortcuts every suffix is a node for every end.
    let on = right_recursive(20, false);
    let off = right_recursive(20, true);
    assert!(perf::forest_nodes(&on) < perf::forest_nodes(&off));
    assert!(perf::completer_scan_steps(&on) < perf::completer_scan_steps(&off));
    let double = right_recursive(40, false);
    assert!(perf::forest_nodes(&double) <= 2 * perf::forest_nodes(&on) + 4);
    let off_double = right_recursive(40, true);
    assert!(perf::forest_nodes(&off_double) > 3 * perf::forest_nodes(&off));
    assert_eq!(perf::completer_scan_steps(&right_recursive(2, true)), 3);
}

#[test]
fn the_combinations_of_a_table_are_counted() {
    // start: a, a: a a | X
    let cg = grammar(
        &[("X", text("x"))],
        &[("start", &["a"], "", 0), ("a", &["a", "a"], "", 0), ("a", &["X"], "", 0)],
        &[],
    );
    let s = cg.symbols.copy();
    let p = match CykParser::new(cg) {
        Ok(p) => p,
        Err(e) => panic!("{e:?}"),
    };
    let mut c = Counters::new();
    assert!(p.parse_counted(&toks(&s, &["X", "X", "X"]), Some("start"), &mut c).is_ok());
    assert_eq!(perf::cyk_table_steps(&c), 16);
    assert!(p.parse_counted(&toks(&s, &["X"]), Some("start"), &mut c).is_ok());
    assert_eq!(perf::cyk_table_steps(&c), 16);
    assert!(p.parse_counted(&toks(&s, &["X"]), Some("a"), &mut c).is_err());
    assert_eq!(perf::cyk_table_steps(&c), 16);
}

/// An LALR parser, and the counters after its table is built.
fn lalr(cg: &CompiledGrammar) -> (LalrParser, Counters) {
    let mut c = Counters::new();
    let table = match build_lalr_table_counted(cg, false, &mut c) {
        Ok(t) => t,
        Err(e) => panic!("{e:?}"),
    };
    let cells: usize = table.action.iter().map(|row| row.len()).sum();
    assert_eq!(perf::parse_table_action_cells(&c), cells as u64);
    assert!(cells > 0);
    (LalrParser::new(table), c)
}

#[test]
fn the_reductions_of_a_parse_are_counted() {
    // start: a a, a: A
    let cg = grammar(
        &[("A", text("a"))],
        &[("start", &["a", "a"], "", 0), ("a", &["A"], "", 0)],
        &[],
    );
    let (p, mut c) = lalr(&cg);
    let mut ts = toks(&cg.symbols, &["A", "A"]);
    ts.push(tok(&cg.symbols, "$END", ""));
    assert!(p.parse_counted(ts, Some("start"), &mut c).is_ok());
    assert_eq!(perf::semantic_reduce_calls(&c), 3);
    assert_eq!(perf::child_vec_allocs(&c), 3);
    assert_eq!(perf::tree_nodes_built(&c), 3);
    assert_eq!(perf::token_value_string_bytes(&c), 2);
}

#[test]
fn only_what_reaches_the_output_is_counted() {
    // ?start: "(" A ")"
    let cg = grammar(
        &[("LPAR", text("(")), ("A", text("a")), ("RPAR", text(")"))],
        &[("?start", &["~LPAR", "A", "~RPAR"], "", 0)],
        &[],
    );
    let (p, mut c) = lalr(&cg);
    let s = &cg.symbols;
    let ts = vec![
        tok(s, "LPAR", "("),
        tok(s, "A", "a"),
        tok(s, "RPAR", ")"),
        tok(s, "$END", ""),
    ];
    match p.parse_counted(ts, None, &mut c) {
        Ok(ParseTree::Token(t)) => assert_eq!(t.value, "a"),
        r => panic!("{r:?}"),
    }
    assert_eq!(perf::token_value_string_bytes(&c), 1);
    assert_eq!(perf::tree_nodes_built(&c), 0);
    assert_eq!(perf::semantic_reduce_calls(&c), 1);
    // Texts are counted in bytes.
    let ts = vec![
        tok(s, "LPAR", "("),
        tok(s, "A", "ä€"),
        tok(s, "RPAR", ")"),
        tok(s, "$END", ""),
    ];
    assert!(p.parse_counted(ts, None, &mut c).is_ok());
    assert_eq!(perf::token_value_string_bytes(&c), 6);
    // A parse that fails counts the reductions before the failure alone.
    let ts = vec![tok(s, "LPAR", "("), tok(s, "$END", "")];
    assert!(p.parse_counted(ts, None, &mut c).is_err());
    assert_eq!(perf::tree_nodes_built(&c), 0);
    assert_eq!(perf::semantic_reduce_calls(&c), 2);
}

#[test]
fn conflicts_leave_the_cells_uncounted() {
    // start: a | b, a: A, b: A
    let cg = grammar(
        &[("A", text("a"))],
        &[
            ("start", &["a"], "", 0),
            ("start", &["b"], "", 0),
            ("a", &["A"], "", 0),
            ("b", &["A"], "", 0),
        ],
        &[],
    );
    let mut c = Counters::new();
    assert!(build_lalr_table_counted(&cg, false, &mut c).is_err());
    assert_eq!(perf::parse_table_action_cells(&c), 0);
}

#[test]
fn what_a_table_parse_builds_is_counted() {
    // start: a, a: a a | X
    let cg = grammar(
        &[("X", text("x"))],
        &[("start", &["a"], "", 0), ("a", &["a", "a"], "", 0), ("a", &["X"], "", 0)],
        &[],
    );
    let s = cg.symbols.copy();
    let p = match CykParser::new(cg) {
        Ok(p) => p,
        Err(e) => panic!("{e:?}"),
    };
    let mut c = Counters::new();
    assert!(p.parse_counted(&toks(&s, &["X", "X", "X"]), Some("start"), &mut c).is_ok());
    assert_eq!(perf::semantic_reduce_calls(&c), 6);
    assert_eq!(perf::tree_nodes_built(&c), 6);
    assert_eq!(perf::token_value_string_bytes(&c), 3);
    // Tokens that are no sentence build nothing.
    assert!(p.parse_counted(&[], Some("start"), &mut c).is_err());
    assert_eq!(perf::semantic_reduce_calls(&c), 6);
    assert_eq!(perf::tree_nodes_built(&c), 6);
}

#[test]
fn a_spliced_or_collapsed_value_is_no_node() {
    // start: _list, _list: item item, ?item: X
    let cg = grammar(
        &[("X", text("x"))],
        &[("start", &["_list"], "", 0), ("_list", &["item", "item"], "", 0), ("?item", &["X"], "", 0)],
        &[],
    );
    let s = cg.symbols.copy();
    let p = match CykParser::new(cg) {
        Ok(p) => p,
        Err(e) => panic!("{e:?}"),
    };
    let mut c = Counters::new();
    assert!(p.parse_counted(&toks(&s, &["X", "X"]), Some("start"), &mut c).is_ok());
    assert_eq!(perf::semantic_reduce_calls(&c), 4);
    assert_eq!(perf::tree_nodes_built(&c), 1);
    // A token is kept by the rule that matches it, and by the one that splices it.
    assert_eq!(perf::token_value_string_bytes(&c), 4);
}

#[test]
fn what_a_walk_builds_is_counted() {
    // start: A B C
    let cg = grammar(
        &[("A", text("a")), ("B", text("b")), ("C", text("c"))],
        &[("start", &["A", "~B", "C"], "", 0)],
        &[],
    );
    let s = cg.symbols.copy();
    let mut p = EarleyParser::new(cg);
    let mut c = Counters::new();
    assert!(p.parse_counted(&toks(&s, &["A", "B", "C"]), Some("start"), false, &mut c).is_ok());
    assert_eq!(perf::semantic_reduce_calls(&c), 1);
    assert_eq!(perf::tree_nodes_built(&c), 1);
    assert_eq!(perf::token_value_string_bytes(&c), 2);
    // Where one derivation is chosen, its children go straight into one node.
    let mut d = Counters::new();
    assert!(p.parse_counted(&toks(&s, &["A", "B", "C"]), Some("start"), true, &mut d).is_ok());
    assert_eq!(perf::semantic_reduce_calls(&d), 0);
    assert_eq!(perf::tree_nodes_built(&d), 1);
    assert_eq!(perf::token_value_string_bytes(&d), 0);
}

#[test]
fn what_a_failed_parse_built_is_counted() {
    // start: a a, a: A
    let cg = grammar(
        &[("A", text("a"))],
        &[("start", &["a", "a"], "", 0), ("a", &["A"], "", 0)],
        &[],
    );
    let (p, mut c) = lalr(&cg);
    let ts = toks(&cg.symbols, &["A", "A", "A"]);
    assert!(p.parse_counted(ts, Some("start"), &mut c).is_err());
    assert_eq!(perf::semantic_reduce_calls(&c), 2);
    assert_eq!(perf::tree_nodes_built(&c), 2);
    assert_eq!(perf::token_value_string_bytes(&c), 2);
}

#[test]
fn a_lone_waiter_for_the_start_symbol_is_not_searched() {
    // start: c Y | X, c: start
    let counts = |disabled: bool| {
        let cg = grammar(
            &[("X", text("x")), ("Y", text("y"))],
            &[
                ("start", &["c", "Y"], "", 0),
                ("start", &["X"], "", 0),
                ("c", &["start"], "", 0),
            ],
            &[],
        );
        let s = cg.symbols.copy();
        let mut p = EarleyParser::new(cg);
        let mut c = Counters::new();
        perf::set_leo_disabled(&mut c, disabled);
        assert!(p.recognize_counted(&toks(&s, &["X", "Y"]), Some("start"), &mut c));
        perf::completer_scan_steps(&c)
    };
    assert_eq!(counts(false), 2);
    assert_eq!(counts(true), 4);
}
