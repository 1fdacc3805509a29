use lark::earley_chart::EarleyParser;
use lark::earley_forest::{Forest, ForestRef, NodeKey, Packed};
use lark::frontend::{
    build_frontend, Ambiguity, LarkOptions, LexerType, ParserAlgorithm, ParsingFrontend,
};
use lark::lalr_table::Grammar;
use lark::symbols::{CompiledGrammar, CompiledRule, Pattern, SymbolId, SymbolTable, TerminalDef};
use lark::tree::{Child, ParseTree, Token, Tree};

/// A terminal that stands for its text.
fn text(value: &str) -> Pattern {
    Pattern::Str { value: value.to_string(), ci: false }
}

/// A terminal given by a regular expression.
fn regex(pattern: &str) -> Pattern {
    Pattern::Re { pattern: pattern.to_string(), flags: String::new() }
}

/// A rule: its origin (`?` in front collapses single children, `_` makes it
/// transparent), its symbols (`~` in front drops the token), its alias, and how
/// many placeholders it leaves.
type Line<'a> = (&'a str, &'a [&'a str], &'a str, usize);

/// The grammar of terminals and rules, from the symbol `start`.
fn grammar(terms: &[(&str, Pattern)], lines: &[Line<'_>], ignore: &[&str]) -> CompiledGrammar {
    let mut symbols = SymbolTable::new();
    for (name, _) in terms {
        symbols.intern(name, true, false);
    }
    let terminal_count = symbols.len();
    for (origin, _, _, _) in lines {
        let name = origin.trim_start_matches('?');
        if symbols.id(name).is_none() {
            symbols.intern(name, false, name.starts_with('_'));
        }
    }
    let root = symbols.intern("$root_start", false, false);
    let start = symbols.id("start").unwrap();
    let mut rules = Vec::new();
    for (i, (origin, expansion, alias, placeholders)) in lines.iter().enumerate() {
        let name = origin.trim_start_matches('?');
        let ids: Vec<SymbolId> = expansion
            .iter()
            .map(|s| symbols.id(s.trim_start_matches('~')).unwrap())
            .collect();
        let label = if alias.is_empty() { name } else { alias };
        let mut rule = CompiledRule::plain(symbols.id(name).unwrap(), ids, label);
        rule.filter_pos = expansion.iter().map(|s| s.starts_with('~')).collect();
        rule.transparent = name.starts_with('_');
        rule.options.expand1 = origin.starts_with('?');
        rule.options.placeholder_count = *placeholders;
        if !alias.is_empty() {
            rule.alias = Some(alias.to_string());
        }
        rule.order = i;
        rules.push(rule);
    }
    let mut first = CompiledRule::plain(root, vec![start], "$root_start");
    first.is_start = true;
    rules.push(first);
    let ids: Vec<SymbolId> = ignore.iter().map(|s| symbols.id(s).unwrap()).collect();
    let terminals = terms
        .iter()
        .map(|(name, p)| TerminalDef {
            name: name.to_string(),
            declared: false,
            pattern: match p {
                Pattern::Str { value, ci } => Pattern::Str { value: value.clone(), ci: *ci },
                Pattern::Re { pattern, flags } => {
                    Pattern::Re { pattern: pattern.clone(), flags: flags.clone() }
                }
            },
            priority: 0,
        })
        .collect();
    let g = CompiledGrammar {
        rules,
        symbols,
        start: vec![start],
        terminals,
        ignore: ids,
        propagate_positions: false,
        terminal_count,
    };
    assert!(g.is_wf());
    g
}

/// A token of the terminal `name`.
fn tok(symbols: &SymbolTable, name: &str, value: &str) -> Token {
    let mut t = Token::new(name, value);
    t.type_id = symbols.id(name).expect("terminal interned");
    t
}

fn show(t: &ParseTree) -> String {
    match t {
        ParseTree::Tree(t) => show_tree(t),
        ParseTree::Token(t) => format!("Token({}, {:?})", t.type_, t.value),
        ParseTree::Absent => "None".to_string(),
    }
}

fn show_tree(t: &Tree) -> String {
    let parts: Vec<String> = t
        .children
        .iter()
        .map(|c| match c {
            Child::Tree(t) => show_tree(t),
            Child::Token(t) => format!("Token({}, {:?})", t.type_, t.value),
            Child::Absent => "None".to_string(),
        })
        .collect();
    format!("Tree({}, [{}])", t.data, parts.join(", "))
}


fn reader(g: CompiledGrammar, lexer: LexerType, ambiguity: Ambiguity) -> ParsingFrontend {
    let o = LarkOptions {
        parser: ParserAlgorithm::Earley,
        lexer,
        ambiguity,
        postlex: None,
        strict: false,
        g_regex_flags: 0,
        start: vec!["start".to_string()],
    };
    match build_frontend(Grammar { compiled: g, lalr_audit: None }, &o) {
        Ok(f) => f,
        Err(e) => panic!("{e:?}"),
    }
}

/// All that is left of a tree where one alternative is picked at every ambiguity
/// node.
fn picks(t: &Tree) -> Vec<String> {
    if t.data == "_ambig" && !t.children.is_empty() {
        return t.children.iter().flat_map(picks_of_child).collect();
    }
    let mut lists: Vec<Vec<String>> = vec![vec![]];
    for c in &t.children {
        let one = picks_of_child(c);
        let mut next = Vec::new();
        for l in &lists {
            for p in &one {
                let mut longer = l.clone();
                longer.push(p.clone());
                next.push(longer);
            }
        }
        lists = next;
    }
    lists.iter().map(|l| format!("Tree({}, [{}])", t.data, l.join(", "))).collect()
}

fn picks_of_child(c: &Child) -> Vec<String> {
    match c {
        Child::Tree(t) => picks(t),
        Child::Token(t) => vec![format!("Token({}, {:?})", t.type_, t.value)],
        Child::Absent => vec!["None".to_string()],
    }
}

/// start: NAME OP NAME, with blanks ignored
fn pairs() -> CompiledGrammar {
    grammar(
        &[("NAME", regex("[a-z]+")), ("OP", text("+")), ("WS", regex(" +"))],
        &[("start", &["NAME", "~OP", "NAME"], "", 0)],
        &["WS"],
    )
}

#[test]
fn a_text_has_a_tree_where_it_is_a_sentence() {
    let f = reader(pairs(), LexerType::Dynamic, Ambiguity::Resolve);
    let want = "Tree(start, [Token(NAME, \"ab\"), Token(NAME, \"c\")])";
    for text in ["ab+c", "ab + c", "  ab  +  c  "] {
        match f.parse(text, None) {
            Ok(t) => assert_eq!(show(&t), want, "{text:?}"),
            Err(e) => panic!("{text:?}: {e:?}"),
        }
    }
    for text in ["", "ab", "ab+", "+c", "ab c", "ab+c+", "ab + 1"] {
        assert!(f.parse(text, None).is_err(), "{text:?}");
    }
}

#[test]
fn the_tree_of_a_text_is_always_the_same() {
    let f = reader(pairs(), LexerType::DynamicComplete, Ambiguity::Resolve);
    let g = reader(pairs(), LexerType::DynamicComplete, Ambiguity::Resolve);
    for text in ["ab+c", " abc + de ", "a"] {
        let (r, q) = (f.parse(text, None), g.parse(text, None));
        match (&r, &q) {
            (Ok(t), Ok(u)) => assert_eq!(show(t), show(u)),
            (Err(_), Err(_)) => {}
            _ => panic!("{text:?}"),
        }
    }
}

#[test]
fn shorter_matches_only_add_texts() {
    // start: LONG TAIL, where the longest match of LONG leaves nothing for TAIL.
    let g = || {
        grammar(
            &[("LONG", regex("[ab]+")), ("TAIL", regex("b"))],
            &[("start", &["LONG", "TAIL"], "", 0)],
            &[],
        )
    };
    let plain = reader(g(), LexerType::Dynamic, Ambiguity::Resolve);
    let complete = reader(g(), LexerType::DynamicComplete, Ambiguity::Resolve);
    let mut added = 0;
    for text in ["", "a", "b", "ab", "aab", "abb", "ba", "abab"] {
        let (r, q) = (plain.parse(text, None), complete.parse(text, None));
        assert!(r.is_err() || q.is_ok(), "{text:?}");
        if r.is_err() && q.is_ok() {
            added += 1;
        }
    }
    assert!(added > 0);
    match complete.parse("aab", None) {
        Ok(t) => assert_eq!(show(&t), "Tree(start, [Token(LONG, \"aa\"), Token(TAIL, \"b\")])"),
        Err(e) => panic!("{e:?}"),
    }
}

#[test]
fn each_pick_of_a_text_fills_it() {
    // start: WORD WORD | WORD, on texts without blanks.
    let g = grammar(
        &[("WORD", regex("[a-z]+"))],
        &[("start", &["WORD", "WORD"], "", 0), ("start", &["WORD"], "", 0)],
        &[],
    );
    let f = reader(g, LexerType::DynamicComplete, Ambiguity::Explicit);
    let t = match f.parse("abc", None) {
        Ok(ParseTree::Tree(t)) => t,
        r => panic!("{r:?}"),
    };
    let mut got = picks(&t);
    got.sort();
    assert_eq!(
        got,
        vec![
            "Tree(start, [Token(WORD, \"a\"), Token(WORD, \"bc\")])",
            "Tree(start, [Token(WORD, \"ab\"), Token(WORD, \"c\")])",
            "Tree(start, [Token(WORD, \"abc\")])",
        ]
    );
}

/// start: e
/// e: e e | X
fn heaps() -> CompiledGrammar {
    grammar(
        &[("X", text("x"))],
        &[("start", &["e"], "", 0), ("e", &["e", "e"], "", 0), ("e", &["X"], "", 0)],
        &[],
    )
}

#[test]
fn each_pick_is_the_tree_of_a_derivation() {
    let g = heaps();
    let s = g.symbols.copy();
    let p = EarleyParser::new(g);
    let toks: Vec<Token> = (0..4).map(|_| tok(&s, "X", "x")).collect();
    let t = match p.parse(&toks, Some("start"), false) {
        Ok(ParseTree::Tree(t)) => t,
        r => panic!("{r:?}"),
    };
    // The trees of four tokens, by how they are split.
    fn heap(n: usize) -> Vec<String> {
        if n == 1 {
            return vec!["Tree(e, [Token(X, \"x\")])".to_string()];
        }
        let mut all = Vec::new();
        for k in 1..n {
            for a in heap(k) {
                for b in heap(n - k) {
                    all.push(format!("Tree(e, [{a}, {b}])"));
                }
            }
        }
        all
    }
    let mut want: Vec<String> = heap(4).iter().map(|h| format!("Tree(start, [{h}])")).collect();
    let mut got = picks(&t);
    want.sort();
    got.sort();
    got.dedup();
    assert_eq!(got, want);
    // Where one derivation is chosen, its tree is one of them.
    match p.parse(&toks, Some("start"), true) {
        Ok(one) => assert!(want.contains(&show(&one))),
        Err(e) => panic!("{e:?}"),
    }
}

#[test]
fn shortcuts_make_no_difference() {
    // start: A start | A
    let g = || {
        grammar(
            &[("A", text("a")), ("B", text("b"))],
            &[("start", &["A", "start"], "", 0), ("start", &["A"], "", 0)],
            &[],
        )
    };
    let s = g().symbols.copy();
    let with = EarleyParser::new(g());
    let mut without = EarleyParser::new(g());
    without.shortcuts = !with.shortcuts;
    for n in 0..6 {
        let toks: Vec<Token> = (0..n).map(|_| tok(&s, "A", "a")).collect();
        for resolve in [true, false] {
            let (r, q) = (with.parse(&toks, None, resolve), without.parse(&toks, None, resolve));
            assert_eq!(r.is_ok(), n > 0);
            match (&r, &q) {
                (Ok(t), Ok(u)) => assert_eq!(show(t), show(u)),
                (Err(_), Err(_)) => {}
                _ => panic!("{n}"),
            }
        }
    }
    assert!(with.parse(&[tok(&s, "B", "b")], None, true).is_err());
    assert!(without.parse(&[tok(&s, "B", "b")], None, true).is_err());
}

#[test]
fn spans_aside_the_parsers_agree() {
    // start: "(" _items ")", with spans that cover what is dropped.
    let g = || {
        let mut g = grammar(
            &[("L", text("(")), ("R", text(")")), ("X", regex("[a-z]")), ("C", text(","))],
            &[
                ("start", &["~L", "_items", "~R"], "", 0),
                ("_items", &["_items", "~C", "item"], "", 0),
                ("_items", &["item"], "", 0),
                ("item", &["X"], "", 0),
            ],
            &[],
        );
        g.propagate_positions = true;
        g
    };
    let earley = reader(g(), LexerType::Basic, Ambiguity::Resolve);
    let o = LarkOptions {
        parser: ParserAlgorithm::Lalr,
        lexer: LexerType::Basic,
        ambiguity: Ambiguity::Resolve,
        postlex: None,
        strict: false,
        g_regex_flags: 0,
        start: vec!["start".to_string()],
    };
    let lalr = match build_frontend(Grammar { compiled: g(), lalr_audit: None }, &o) {
        Ok(f) => f,
        Err(e) => panic!("{e:?}"),
    };
    let want = "Tree(start, [Tree(item, [Token(X, \"a\")]), Tree(item, [Token(X, \"b\")])])";
    for f in [&earley, &lalr] {
        match f.parse("(a,b)", None) {
            Ok(t) => assert_eq!(show(&t), want),
            Err(e) => panic!("{e:?}"),
        }
    }
}

#[test]
fn families_stand_in_the_order_of_their_first_additions() {
    let family = |rule: usize, left: ForestRef, right: ForestRef| Packed {
        rule,
        left,
        right,
        right_pos: 0,
    };
    let none = ForestRef::Nothing;
    let mut f = Forest::new();
    let id = f.get_or_create(NodeKey::Sym(SymbolId(7)), 0, 1);
    f.add_family(id, family(0, none, ForestRef::Tok(0)), 0);
    f.add_family(id, family(1, none, none), 5);
    f.add_family(id, family(2, ForestRef::Node(0), ForestRef::Tok(0)), 1);
    // The same parts again, and nothing again, of a lower order.
    f.add_family(id, family(3, none, ForestRef::Tok(0)), 0);
    f.add_family(id, family(4, none, none), 2);
    f.add_family(id, family(5, none, none), 3);
    let rules: Vec<usize> = f.nodes[id].families.iter().map(|p| p.rule).collect();
    assert_eq!(rules, vec![0, 4, 2]);
}
