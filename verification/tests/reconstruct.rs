use lark::recons_rules::{Rule, RuleSet, Symbol};
use lark::reconstruct::{terminal_full_matches, ReconstructError, Reconstructor};
use lark::symbols::{Pattern, RuleOptions, TerminalDef};
use lark::tree::{Child, ParseTree, Token, Tree};

/// A rule: its origin (`?` in front collapses single children), its symbols
/// (upper case for terminals, `~` in front drops the token) and its alias.
fn rule(origin: &str, expansion: &[&str], alias: &str) -> Rule {
    Rule {
        origin: origin.trim_start_matches('?').to_string(),
        expansion: expansion
            .iter()
            .map(|s| {
                let name = s.trim_start_matches('~').to_string();
                if name.chars().all(|c| c.is_uppercase() || c == '_') && name != "_" {
                    Symbol::Terminal { name, filter_out: s.starts_with('~') }
                } else {
                    Symbol::NonTerminal { name }
                }
            })
            .collect(),
        alias: if alias.is_empty() { None } else { Some(alias.to_string()) },
        options: RuleOptions {
            expand1: origin.starts_with('?'),
            keep_all_tokens: false,
            priority: 0,
            placeholder_count: 0,
            nones_before: vec![],
        },
    }
}

fn text(name: &str, value: &str) -> TerminalDef {
    TerminalDef {
        name: name.to_string(),
        declared: false,
        pattern: Pattern::Str { value: value.to_string(), ci: false },
        priority: 0,
    }
}

fn regex(name: &str, pattern: &str) -> TerminalDef {
    TerminalDef {
        name: name.to_string(),
        declared: false,
        pattern: Pattern::Re { pattern: pattern.to_string(), flags: String::new() },
        priority: 0,
    }
}

fn leaf(name: &str, value: &str) -> Child {
    Child::Token(Token::new(name, value))
}

fn node(data: &str, children: Vec<Child>) -> Child {
    Child::Tree(Tree::new(data.to_string(), children))
}

fn root(data: &str, children: Vec<Child>) -> ParseTree {
    ParseTree::Tree(Tree::new(data.to_string(), children))
}

fn build(g: &RuleSet) -> Reconstructor {
    match Reconstructor::new(g) {
        Ok(r) => r,
        Err(e) => panic!("{}", e.message()),
    }
}

/// start: pair ("," pair)*
/// pair: NAME "=" NAME
fn pairs() -> RuleSet {
    RuleSet {
        rules: vec![
            rule("start", &["pair", "__start_star"], ""),
            rule("start", &["pair"], ""),
            rule("__start_star", &["~COMMA", "pair"], ""),
            rule("__start_star", &["__start_star", "~COMMA", "pair"], ""),
            rule("pair", &["NAME", "~EQUAL", "NAME"], ""),
        ],
        terminals: vec![
            text("COMMA", ","),
            text("EQUAL", "="),
            regex("NAME", "[a-z]+"),
            text("WS", " "),
        ],
        ignore: vec!["WS".to_string()],
    }
}

fn pair(a: &str, b: &str) -> Child {
    node("pair", vec![leaf("NAME", a), leaf("NAME", b)])
}

#[test]
fn dropped_tokens_come_back() {
    let r = build(&pairs());
    let t = root("start", vec![pair("a", "b"), pair("c", "d")]);
    assert_eq!(r.reconstruct(&t).unwrap(), "a=b,c=d");
    let t = root("start", vec![pair("a", "b"), pair("c", "d"), pair("e", "f")]);
    assert_eq!(r.reconstruct(&t).unwrap(), "a=b,c=d,e=f");
    assert_eq!(r.reconstruct_exact(&t).unwrap(), "a=b,c=d,e=f");
    let t = root("start", vec![pair("a", "b")]);
    assert_eq!(r.reconstruct(&t).unwrap(), "a=b");
    // A tree that collapsed to a token is its text.
    assert_eq!(r.reconstruct(&ParseTree::Token(Token::new("NAME", "x"))).unwrap(), "x");
}

#[test]
fn a_tree_that_no_rule_makes_is_refused() {
    let r = build(&pairs());
    match r.reconstruct(&root("start", vec![])) {
        Err(ReconstructError::NoMatch { data }) => assert_eq!(data, "start"),
        other => panic!("{other:?}"),
    }
    match r.reconstruct(&root("nowhere", vec![])) {
        Err(e) => assert_eq!(
            e.message(),
            "no grammar rule matches tree node `nowhere` with its child sequence"
        ),
        other => panic!("{other:?}"),
    }
    let t = root("start", vec![node("pair", vec![leaf("NAME", "a")])]);
    match r.reconstruct(&t) {
        Err(ReconstructError::NoMatch { data }) => assert_eq!(data, "pair"),
        other => panic!("{other:?}"),
    }
    match r.reconstruct(&ParseTree::Absent) {
        Err(e) => assert_eq!(
            e.message(),
            "tree contains a `None` placeholder child, which has no textual form"
        ),
        other => panic!("{other:?}"),
    }
    match r.reconstruct(&root("start", vec![Child::Absent])) {
        Err(ReconstructError::NoMatch { data }) => assert_eq!(data, "start"),
        other => panic!("{other:?}"),
    }
}

/// start: NAME NAME
fn names(ignored: Option<TerminalDef>) -> RuleSet {
    let mut terminals = vec![regex("NAME", "[a-z]+")];
    let mut ignore = vec![];
    if let Some(t) = ignored {
        ignore.push(t.name.clone());
        terminals.push(t);
    }
    RuleSet { rules: vec![rule("start", &["NAME", "NAME"], "")], terminals, ignore }
}

#[test]
fn what_would_fuse_is_separated() {
    let t = root("start", vec![leaf("NAME", "a"), leaf("NAME", "b")]);
    assert_eq!(build(&names(Some(text("WS", " ")))).reconstruct(&t).unwrap(), "a b");
    assert_eq!(build(&names(Some(regex("WS", r"\s")))).reconstruct(&t).unwrap(), "a b");
    assert_eq!(build(&names(Some(text("NL", "\n")))).reconstruct(&t).unwrap(), "a\nb");
    assert_eq!(build(&names(Some(regex("TAB", r"\t+")))).reconstruct(&t).unwrap(), "a\tb");
    // Nothing that separates is ignored.
    assert_eq!(build(&names(None)).reconstruct(&t).unwrap(), "ab");
    assert_eq!(build(&names(Some(text("HASH", "#")))).reconstruct(&t).unwrap(), "ab");
    let exact = build(&names(Some(text("WS", " ")))).reconstruct_exact(&t).unwrap();
    assert_eq!(exact, "ab");
    // Other characters do not fuse; letters of any script do.
    let t = root("start", vec![leaf("NAME", "a-"), leaf("NAME", "b")]);
    assert_eq!(build(&names(Some(text("WS", " ")))).reconstruct(&t).unwrap(), "a-b");
    let t = root("start", vec![leaf("NAME", "é"), leaf("NAME", "_")]);
    assert_eq!(build(&names(Some(text("WS", " ")))).reconstruct(&t).unwrap(), "é _");
}

#[test]
fn terminals_match_a_text_in_full() {
    assert!(terminal_full_matches(&text("A", "ab"), "ab"));
    assert!(!terminal_full_matches(&text("A", "ab"), "AB"));
    assert!(!terminal_full_matches(&text("A", "ab"), "abc"));
    let mut folded = text("A", "aB[");
    folded.pattern = Pattern::Str { value: "aB[".to_string(), ci: true };
    assert!(terminal_full_matches(&folded, "Ab["));
    assert!(!terminal_full_matches(&folded, "Ab{"));
    assert!(terminal_full_matches(&regex("A", "a+"), "aaa"));
    assert!(!terminal_full_matches(&regex("A", "a+"), "baa"));
    assert!(!terminal_full_matches(&regex("A", "a+"), "aab"));
    assert!(!terminal_full_matches(&regex("A", "("), "("));
}

/// start: NAME _SEP NAME, where the separator is an expression
fn separated() -> RuleSet {
    RuleSet {
        rules: vec![rule("start", &["NAME", "~_SEP", "NAME"], "")],
        terminals: vec![regex("NAME", "[a-z]+"), regex("_SEP", "[;:]")],
        ignore: vec![],
    }
}

#[test]
fn substitutions_stand_for_expressions() {
    let t = root("start", vec![leaf("NAME", "a"), leaf("NAME", "b")]);
    match build(&separated()).reconstruct(&t) {
        Err(e) => {
            assert_eq!(
                e.message(),
                "cannot emit discarded terminal `_SEP`: its pattern is not a fixed string — provide its text via Reconstructor::with_term_subs"
            );
            assert!(matches!(e, ReconstructError::NonLiteralTerminal { .. }));
        }
        other => panic!("{other:?}"),
    }
    let sub = |name: &str, value: &str| (name.to_string(), value.to_string());
    let r = Reconstructor::with_term_subs(&separated(), &vec![sub("_SEP", ":"), sub("_SEP", ";")])
        .unwrap();
    assert_eq!(r.reconstruct(&t).unwrap(), "a;b");
    // A substitution wins over a fixed text.
    let r = Reconstructor::with_term_subs(&pairs(), &vec![sub("EQUAL", ":=")]).unwrap();
    let t = root("start", vec![pair("a", "b")]);
    assert_eq!(r.reconstruct(&t).unwrap(), "a:=b");
}

#[test]
fn the_writable_and_then_the_fuller_rule_is_chosen() {
    // start: A _WS? , where the optional is an expression
    let g = RuleSet {
        rules: vec![rule("start", &["A", "~_WS"], ""), rule("start", &["A"], "")],
        terminals: vec![text("A", "a"), regex("_WS", " +")],
        ignore: vec![],
    };
    let t = root("start", vec![leaf("A", "a")]);
    assert_eq!(build(&g).reconstruct(&t).unwrap(), "a");
    // start: A ";"?
    let g = RuleSet {
        rules: vec![rule("start", &["A"], ""), rule("start", &["A", "~SEMI"], "")],
        terminals: vec![text("A", "a"), text("SEMI", ";")],
        ignore: vec![],
    };
    assert_eq!(build(&g).reconstruct(&t).unwrap(), "a;");
}

#[test]
fn collapsed_and_renamed_nodes_are_matched() {
    // ?sum: sum "+" NUM -> plus | NUM
    let g = RuleSet {
        rules: vec![
            rule("start", &["sum"], ""),
            rule("?sum", &["sum", "~PLUS", "NUM"], "plus"),
            rule("?sum", &["NUM"], ""),
        ],
        terminals: vec![text("PLUS", "+"), regex("NUM", "[0-9]+")],
        ignore: vec![],
    };
    let r = build(&g);
    let t = root("start", vec![leaf("NUM", "1")]);
    assert_eq!(r.reconstruct(&t).unwrap(), "1");
    let inner = node("plus", vec![leaf("NUM", "1"), leaf("NUM", "2")]);
    let t = root("start", vec![node("plus", vec![inner, leaf("NUM", "3")])]);
    assert_eq!(r.reconstruct(&t).unwrap(), "1+2+3");
}

#[test]
fn uncollapsed_nodes_are_bridged() {
    // start: "[" list "]"
    // ?list: item+
    let g = RuleSet {
        rules: vec![
            rule("start", &["~LSQB", "list", "~RSQB"], ""),
            rule("?list", &["__list_plus"], ""),
            rule("__list_plus", &["ITEM"], ""),
            rule("__list_plus", &["__list_plus", "ITEM"], ""),
        ],
        terminals: vec![text("LSQB", "["), text("RSQB", "]"), text("ITEM", "*")],
        ignore: vec![],
    };
    let r = build(&g);
    let t = root("start", vec![leaf("ITEM", "*")]);
    assert_eq!(r.reconstruct(&t).unwrap(), "[*]");
    let list = node("list", vec![leaf("ITEM", "*"), leaf("ITEM", "*")]);
    assert_eq!(r.reconstruct(&root("start", vec![list])).unwrap(), "[**]");
}

#[test]
fn template_instances_carry_the_base_name() {
    let g = RuleSet {
        rules: vec![rule("start", &["wrap{a}"], ""), rule("wrap{a}", &["~LPAR", "A", "~RPAR"], "")],
        terminals: vec![text("A", "a"), text("LPAR", "("), text("RPAR", ")")],
        ignore: vec![],
    };
    let t = root("start", vec![node("wrap", vec![leaf("A", "a")])]);
    assert_eq!(build(&g).reconstruct(&t).unwrap(), "(a)");
}

#[test]
fn grammars_with_placeholders_are_refused() {
    let mut g = pairs();
    g.rules[0].options.placeholder_count = 1;
    match Reconstructor::new(&g) {
        Err(e) => {
            assert_eq!(
                e.message(),
                "cannot reconstruct from a maybe_placeholders parser: `None` placeholder children correspond to no grammar symbol"
            );
        }
        Ok(_) => panic!("should be refused"),
    }
    let mut g = pairs();
    g.rules[0].options.nones_before = vec![0, 2];
    assert!(Reconstructor::new(&g).is_err());
}

#[test]
fn every_token_is_written_in_order() {
    let r = build(&pairs());
    let t = root("start", vec![pair("one", "two"), pair("three", "four")]);
    let s = r.reconstruct(&t).unwrap();
    let mut from = 0;
    for word in ["one", "two", "three", "four"] {
        let at = s[from..].find(word).expect("every token is there");
        from += at + word.len();
    }
}
