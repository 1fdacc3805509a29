//! Writing shaped trees back as text.

use vstd::prelude::*;
use crate::pattern;
use crate::pattern::{find_at, inline_regex};
use crate::recons_best;
use crate::recons_best::{best_rules, find_text, find_texts, TermText};
use crate::recons_laws;
use crate::recons_match;
use crate::recons_match::{earley_match, Deriv, Elem, Matcher};
use crate::recons_rules;
use crate::recons_rules::{
    base_name, find_global_rules, find_keys, find_names, find_node_rules, holds_name, ReconsRule,
    RuleSet, WriteStep,
};
use crate::symbols::{Pattern, TerminalDef};
use crate::text;
use crate::text::{owned, same_text};
use crate::tree;
use crate::tree::{Child, ParseTree, Tree};

verus! {

// ---------------------------------------------------------------------------
// Errors

/// Why a tree could not be written as text.
#[derive(Debug)]
pub enum ReconstructError {
    /// The grammar leaves placeholders in trees, which stand for no symbol.
    MaybePlaceholders,
    /// No rule can have made a node of that name with its children.
    NoMatch { data: String },
    /// A terminal that the tree does not hold has no fixed text.
    NonLiteralTerminal { name: String },
    /// The tree holds a placeholder.
    Placeholder,
}

/// The content of an error.
pub ghost enum FaultModel {
    MaybePlaceholders,
    NoMatch { data: Seq<char> },
    NonLiteralTerminal { name: Seq<char> },
    Placeholder,
}

impl View for ReconstructError {
    type V = FaultModel;

    open spec fn view(&self) -> FaultModel {
        match *self {
            ReconstructError::MaybePlaceholders => FaultModel::MaybePlaceholders,
            ReconstructError::NoMatch { data } => FaultModel::NoMatch { data: data@ },
            ReconstructError::NonLiteralTerminal { name } => FaultModel::NonLiteralTerminal {
                name: name@,
            },
            ReconstructError::Placeholder => FaultModel::Placeholder,
        }
    }
}

/// The wording of an error.
pub open spec fn fault_text(e: FaultModel) -> Seq<char> {
    match e {
        FaultModel::MaybePlaceholders => {
            "cannot reconstruct from a maybe_placeholders parser: `None` placeholder children correspond to no grammar symbol"@
        },
        FaultModel::NoMatch { data } => "no grammar rule matches tree node `"@ + data
            + "` with its child sequence"@,
        FaultModel::NonLiteralTerminal { name } => "cannot emit discarded terminal `"@ + name
            + "`: its pattern is not a fixed string — provide its text via Reconstructor::with_term_subs"@,
        FaultModel::Placeholder => {
            "tree contains a `None` placeholder child, which has no textual form"@
        },
    }
}

impl ReconstructError {
    /// The wording of the error.
    pub fn message(&self) -> (r: String)
        ensures
            r@ == fault_text(self@),
    {
        match self {
            ReconstructError::MaybePlaceholders => owned(
                "cannot reconstruct from a maybe_placeholders parser: `None` placeholder children correspond to no grammar symbol",
            ),
            ReconstructError::NoMatch { data } => {
                let mut r = owned("no grammar rule matches tree node `");
                r.append(data.as_str());
                r.append("` with its child sequence");
                r
            },
            ReconstructError::NonLiteralTerminal { name } => {
                let mut r = owned("cannot emit discarded terminal `");
                r.append(name.as_str());
                r.append(
                    "`: its pattern is not a fixed string — provide its text via Reconstructor::with_term_subs",
                );
                r
            },
            ReconstructError::Placeholder => owned(
                "tree contains a `None` placeholder child, which has no textual form",
            ),
        }
    }
}

// ---------------------------------------------------------------------------
// Joining pieces

/// Whether `char::is_alphanumeric` holds of a character.
pub uninterp spec fn alphanumeric(c: char) -> bool;

/// `char::is_alphanumeric` depends on the character alone. Of the ASCII
/// characters it holds of the letters and the digits.
#[verifier::external_body]
fn is_alphanumeric(c: char) -> (r: bool)
    ensures
        r == alphanumeric(c),
        c as u32 <= 127 ==> r == ('a' <= c <= 'z' || 'A' <= c <= 'Z' || '0' <= c <= '9'),
{
    c.is_alphanumeric()
}

/// Whether a character can go on an identifier.
pub open spec fn goes_on(c: char) -> bool {
    c == '_' || if c as u32 <= 127 {
        'a' <= c <= 'z' || 'A' <= c <= 'Z' || '0' <= c <= '9'
    } else {
        alphanumeric(c)
    }
}

/// Whether two adjacent pieces would be read as one.
pub open spec fn would_fuse(a: Seq<char>, b: Seq<char>) -> bool {
    a.len() > 0 && b.len() > 0 && goes_on(a.last()) && goes_on(b[0])
}

/// The first `k` pieces as one text; the separator stands between those that
/// would be read as one.
pub open spec fn joined_pieces(
    pieces: Seq<Seq<char>>,
    sep: Option<Seq<char>>,
    k: nat,
) -> Seq<char>
    decreases k,
{
    if k == 0 {
        Seq::empty()
    } else {
        let before = joined_pieces(pieces, sep, (k - 1) as nat);
        match sep {
            Some(s) => if k > 1 && would_fuse(pieces[k - 2], pieces[k - 1]) {
                before + s + pieces[k - 1]
            } else {
                before + pieces[k - 1]
            },
            None => before + pieces[k - 1],
        }
    }
}

fn fuses(a: &str, b: &str) -> (r: bool)
    ensures
        r == would_fuse(a@, b@),
{
    let n: usize = a.unicode_len();
    let m: usize = b.unicode_len();
    if n == 0 || m == 0 {
        return false;
    }
    let p = a.get_char(n - 1);
    let c = b.get_char(0);
    (p == '_' || is_alphanumeric(p)) && (c == '_' || is_alphanumeric(c))
}

fn join_pieces(pieces: &Vec<String>, sep: Option<&str>) -> (r: String)
    ensures
        r@ == joined_pieces(
            text::texts(pieces@),
            match sep {
                Some(s) => Some(s@),
                None => None,
            },
            pieces@.len(),
        ),
{
    let ghost all = text::texts(pieces@);
    let ghost between = match sep {
        Some(s) => Some(s@),
        None => None::<Seq<char>>,
    };
    let mut r = String::new();
    proof {
        assert(r@ =~= Seq::empty());
    }
    let mut i: usize = 0;
    while i < pieces.len()
        invariant
            i <= pieces@.len(),
            all == text::texts(pieces@),
            between == (match sep {
                Some(s) => Some(s@),
                None => None::<Seq<char>>,
            }),
            r@ == joined_pieces(all, between, i as nat),
        decreases pieces.len() - i,
    {
        proof {
            assert(all[i as int] == pieces@[i as int]@);
            if i > 0 {
                assert(all[i - 1] == pieces@[i - 1]@);
            }
        }
        if let Some(s) = sep {
            if i > 0 && fuses(pieces[i - 1].as_str(), pieces[i].as_str()) {
                r.append(s);
            }
        }
        r.append(pieces[i].as_str());
        i = i + 1;
    }
    r
}

// ---------------------------------------------------------------------------
// The separator

/// Whether two characters are the same but for the case of ASCII letters.
pub open spec fn same_ascii(a: char, b: char) -> bool {
    ||| a == b
    ||| 'A' <= a <= 'Z' && b as int == a as int + 32
    ||| 'A' <= b <= 'Z' && a as int == b as int + 32
}

/// Whether two texts are the same but for the case of ASCII letters.
pub open spec fn same_but_case(a: Seq<char>, b: Seq<char>) -> bool {
    a.len() == b.len() && forall|i: int| 0 <= i < a.len() ==> #[trigger] same_ascii(a[i], b[i])
}

/// Whether what was found in a text, from its beginning, is all of it.
pub open spec fn is_all(found: Option<(Seq<char>, Seq<char>)>, text: Seq<char>) -> bool {
    found matches Some((passed, matched)) && passed.len() == 0 && matched.len() == text.len()
}

/// Whether a terminal matches all of a text.
pub open spec fn matches_all(t: TerminalDef, text: Seq<char>) -> bool {
    match t.pattern {
        Pattern::Str { value, ci } => if ci {
            same_but_case(value@, text)
        } else {
            value@ == text
        },
        Pattern::Re { .. } => is_all(
            pattern::found_at(pattern::inline_of(t.pattern), ""@, text),
            text,
        ),
    }
}

/// Whether a terminal that is ignored matches all of a text.
pub open spec fn is_ignored(g: RuleSet, text: Seq<char>) -> bool {
    exists|i: int|
        0 <= i < g.terminals@.len() && ignorable(g, #[trigger] g.terminals@[i]) && matches_all(
            g.terminals@[i],
            text,
        )
}

/// Whether a terminal has a pattern and is ignored.
pub open spec fn ignorable(g: RuleSet, t: TerminalDef) -> bool {
    !t.declared && text::texts(g.ignore@).contains(t.name@)
}

/// What separates pieces: a blank, a line break or a tab, the first that the
/// grammar ignores.
pub open spec fn separator_of(g: RuleSet) -> Option<Seq<char>> {
    if is_ignored(g, " "@) {
        Some(" "@)
    } else if is_ignored(g, "\n"@) {
        Some("\n"@)
    } else if is_ignored(g, "\t"@) {
        Some("\t"@)
    } else {
        None
    }
}

fn ascii_equal(a: &str, b: &str) -> (r: bool)
    ensures
        r == same_but_case(a@, b@),
{
    let n: usize = a.unicode_len();
    let m: usize = b.unicode_len();
    if n != m {
        return false;
    }
    let mut i: usize = 0;
    while i < n
        invariant
            i <= n,
            n == a@.len(),
            n == b@.len(),
            forall|j: int| 0 <= j < i ==> #[trigger] same_ascii(a@[j], b@[j]),
        decreases n - i,
    {
        let x = a.get_char(i);
        let y = b.get_char(i);
        let same = x == y || ('A' <= x && x <= 'Z' && y as u32 == x as u32 + 32) || ('A' <= y && y
            <= 'Z' && x as u32 == y as u32 + 32);
        if !same {
            proof {
                assert(!same_ascii(a@[i as int], b@[i as int]));
            }
            return false;
        }
        i = i + 1;
    }
    true
}

/// Whether what was found in a text, from its beginning, is all of it.
pub fn found_all(found: Option<(String, String)>, text: &str) -> (r: bool)
    ensures
        r == is_all(pattern::found_text(found), text@),
{
    match found {
        Some((passed, matched)) => {
            let p: usize = passed.as_str().unicode_len();
            let m: usize = matched.as_str().unicode_len();
            let n: usize = text.unicode_len();
            p == 0 && m == n
        },
        None => false,
    }
}

/// Whether a terminal matches all of a text.
pub fn terminal_full_matches(t: &TerminalDef, text: &str) -> (r: bool)
    ensures
        r == matches_all(*t, text@),
{
    match &t.pattern {
        Pattern::Str { value, ci } => {
            if *ci {
                ascii_equal(value.as_str(), text)
            } else {
                same_text(value, text)
            }
        },
        Pattern::Re { .. } => {
            let regex = inline_regex(&t.pattern);
            found_all(find_at(regex.as_str(), "", text), text)
        },
    }
}

fn ignored(g: &RuleSet, text: &str) -> (r: bool)
    ensures
        r == is_ignored(*g, text@),
{
    let mut i: usize = 0;
    while i < g.terminals.len()
        invariant
            i <= g.terminals@.len(),
            forall|j: int|
                0 <= j < i ==> !(ignorable(*g, #[trigger] g.terminals@[j]) && matches_all(
                    g.terminals@[j],
                    text@,
                )),
        decreases g.terminals.len() - i,
    {
        let t = &g.terminals[i];
        if !t.declared && holds_name(&g.ignore, t.name.as_str()) && terminal_full_matches(t, text) {
            proof {
                assert(ignorable(*g, g.terminals@[i as int]));
            }
            return true;
        }
        i = i + 1;
    }
    false
}

fn pick_separator(g: &RuleSet) -> (r: Option<String>)
    ensures
        pattern::opt_string(r) == separator_of(*g),
{
    if ignored(g, " ") {
        Some(owned(" "))
    } else if ignored(g, "\n") {
        Some(owned("\n"))
    } else if ignored(g, "\t") {
        Some(owned("\t"))
    } else {
        None
    }
}

// ---------------------------------------------------------------------------
// Placeholders

/// Whether a rule leaves placeholders in trees.
pub open spec fn leaves_placeholders(r: recons_rules::Rule) -> bool {
    r.options.placeholder_count > 0 || exists|k: int|
        0 <= k < r.options.nones_before@.len() && #[trigger] r.options.nones_before@[k] > 0
}

/// Whether a rule of a grammar leaves placeholders in trees.
pub open spec fn has_placeholders(g: RuleSet) -> bool {
    exists|i: int| 0 <= i < g.rules@.len() && leaves_placeholders(#[trigger] g.rules@[i])
}

fn uses_placeholders(g: &RuleSet) -> (r: bool)
    ensures
        r == has_placeholders(*g),
{
    let mut i: usize = 0;
    while i < g.rules.len()
        invariant
            i <= g.rules@.len(),
            forall|j: int| 0 <= j < i ==> !leaves_placeholders(#[trigger] g.rules@[j]),
        decreases g.rules.len() - i,
    {
        let nones = &g.rules[i].options.nones_before;
        if g.rules[i].options.placeholder_count > 0 {
            proof {
                assert(leaves_placeholders(g.rules@[i as int]));
            }
            return true;
        }
        let mut k: usize = 0;
        while k < nones.len()
            invariant
                k <= nones@.len(),
                i < g.rules@.len(),
                nones == g.rules@[i as int].options.nones_before,
                forall|j: int| 0 <= j < k ==> #[trigger] nones@[j] == 0,
            decreases nones.len() - k,
        {
            if nones[k] > 0 {
                proof {
                    assert(g.rules@[i as int].options.nones_before@[k as int] > 0);
                    assert(leaves_placeholders(g.rules@[i as int]));
                }
                return true;
            }
            k = k + 1;
        }
        i = i + 1;
    }
    false
}

// ---------------------------------------------------------------------------
// The reconstructor

/// The rules that apply only to nodes of one label.
#[derive(Debug)]
pub struct NodeRules {
    pub key: String,
    pub rules: Vec<ReconsRule>,
}

/// Writes the trees of a grammar back as text.
#[derive(Debug)]
pub struct Reconstructor {
    names: Vec<String>,
    global: Vec<ReconsRule>,
    rooted: Vec<NodeRules>,
    texts: Vec<TermText>,
    separator: Option<String>,
}

/// What a reconstructor goes by: the names it knows, the rules that apply
/// anywhere and those that apply to the nodes of a label, the texts of
/// terminals, and the separator.
pub ghost struct ReconsModel {
    pub names: Set<Seq<char>>,
    pub global: Seq<recons_rules::ReconsRuleModel>,
    pub rooted: spec_fn(Seq<char>) -> Seq<recons_rules::ReconsRuleModel>,
    pub texts: Seq<(Seq<char>, Option<Seq<char>>)>,
    pub separator: Option<Seq<char>>,
}

/// The rules of the first entry from `i` on with that label.
pub open spec fn rules_at(s: Seq<NodeRules>, key: Seq<char>, i: nat) -> Seq<
    recons_rules::ReconsRuleModel,
>
    decreases s.len() - i,
{
    if i >= s.len() {
        Seq::empty()
    } else if s[i as int].key@ == key {
        recons_rules::rule_models(s[i as int].rules@)
    } else {
        rules_at(s, key, i + 1)
    }
}

impl View for Reconstructor {
    type V = ReconsModel;

    closed spec fn view(&self) -> ReconsModel {
        ReconsModel {
            names: text::texts(self.names@).to_set(),
            global: recons_rules::rule_models(self.global@),
            rooted: |key: Seq<char>| rules_at(self.rooted@, key, 0),
            texts: recons_best::text_models(self.texts@),
            separator: pattern::opt_string(self.separator),
        }
    }
}

/// What the reconstructor of a grammar with substitutions goes by.
pub open spec fn recons_model(g: RuleSet, subs: Seq<(Seq<char>, Seq<char>)>) -> ReconsModel {
    let texts = recons_best::texts_of(g, subs);
    ReconsModel {
        names: Set::new(|x: Seq<char>| recons_rules::is_known(g, subs, x)),
        global: recons_best::best_of(texts, recons_rules::global_rules(g)),
        rooted: |key: Seq<char>|
            recons_best::best_of(texts, recons_rules::node_rules(g, key, g.rules@.len())),
        texts,
        separator: separator_of(g),
    }
}

/// How many of the first `k` steps write a matched symbol.
pub open spec fn consumed(steps: Seq<recons_rules::StepModel>, k: nat) -> nat
    decreases k,
{
    if k == 0 {
        0
    } else if steps[k - 1] is Consume {
        consumed(steps, (k - 1) as nat) + 1
    } else {
        consumed(steps, (k - 1) as nat)
    }
}

/// Whether a rule is written with all the symbols that it matches.
pub open spec fn rule_ok(r: recons_rules::ReconsRuleModel) -> bool {
    consumed(r.steps, r.steps.len()) == r.expansion.len()
}

/// Whether all rules are written with all the symbols that they match.
pub open spec fn rules_ok(s: Seq<recons_rules::ReconsRuleModel>) -> bool {
    forall|i: int| 0 <= i < s.len() ==> rule_ok(#[trigger] s[i])
}

/// Whether what a reconstructor goes by is in order.
pub open spec fn model_ok(m: ReconsModel) -> bool {
    rules_ok(m.global) && forall|key: Seq<char>| rules_ok(#[trigger] (m.rooted)(key))
}

// ---------------------------------------------------------------------------
// Writing

/// What the children of a node are matched with.
pub open spec fn node_context(m: ReconsModel, data: Seq<char>, children: Seq<tree::Node>) ->
    recons_match::MatchContext {
    recons_match::MatchContext {
        rules: m.global + (m.rooted)(data),
        root: recons_rules::base_of(data),
        children,
    }
}

/// How a node is matched.
pub open spec fn node_match(m: ReconsModel, data: Seq<char>, children: Seq<tree::Node>) -> Option<
    recons_match::DerivModel,
> {
    if m.names.contains(data) {
        recons_match::match_of(node_context(m, data, children))
    } else {
        None
    }
}

/// A rule application without matched symbols.
pub open spec fn no_deriv() -> recons_match::DerivModel {
    recons_match::DerivModel { rule: 0, elems: Seq::empty() }
}

/// The pieces that a node is written as.
pub open spec fn node_pieces(m: ReconsModel, node: tree::Node) -> Result<
    Seq<Seq<char>>,
    FaultModel,
>
    decreases node, no_deriv(), 0nat,
{
    match node {
        tree::Node::Token(t) => Ok(seq![t.value]),
        tree::Node::Absent => Err(FaultModel::Placeholder),
        tree::Node::Tree { data, children, .. } => match node_match(m, data, children) {
            None => Err(FaultModel::NoMatch { data }),
            Some(d) => {
                let rules = node_context(m, data, children).rules;
                steps_pieces(m, rules, children, d, rules[d.rule as int].steps.len())
            },
        },
    }
}

/// The pieces that the first `k` steps of a rule application write.
pub open spec fn steps_pieces(
    m: ReconsModel,
    rules: Seq<recons_rules::ReconsRuleModel>,
    children: Seq<tree::Node>,
    d: recons_match::DerivModel,
    k: nat,
) -> Result<Seq<Seq<char>>, FaultModel>
    decreases children, d, k,
{
    if k == 0 {
        Ok(Seq::empty())
    } else {
        let steps = rules[d.rule as int].steps;
        match steps_pieces(m, rules, children, d, (k - 1) as nat) {
            Err(e) => Err(e),
            Ok(before) => match steps[k - 1] {
                recons_rules::StepModel::Discarded(t) => match recons_best::written_as(
                    m.texts,
                    t,
                ) {
                    Some(s) => Ok(before.push(s)),
                    None => Err(FaultModel::NonLiteralTerminal { name: t }),
                },
                recons_rules::StepModel::Consume => {
                    let e = consumed(steps, (k - 1) as nat);
                    if e < d.elems.len() {
                        match d.elems[e as int] {
                            recons_match::ElemModel::Child(c) => if c < children.len() {
                                match node_pieces(m, children[c as int]) {
                                    Err(f) => Err(f),
                                    Ok(s) => Ok(before + s),
                                }
                            } else {
                                Err(FaultModel::Placeholder)
                            },
                            recons_match::ElemModel::Sub(s) => match steps_pieces(
                                m,
                                rules,
                                children,
                                s,
                                rules[s.rule as int].steps.len(),
                            ) {
                                Err(f) => Err(f),
                                Ok(s) => Ok(before + s),
                            },
                        }
                    } else {
                        Err(FaultModel::Placeholder)
                    }
                },
            },
        }
    }
}

/// The text that a tree is written as.
pub open spec fn rendered(m: ReconsModel, node: tree::Node, sep: Option<Seq<char>>) -> Result<
    Seq<char>,
    FaultModel,
> {
    match node_pieces(m, node) {
        Err(e) => Err(e),
        Ok(pieces) => Ok(joined_pieces(pieces, sep, pieces.len())),
    }
}

/// The content of a result.
pub open spec fn text_result(r: Result<String, ReconstructError>) -> Result<
    Seq<char>,
    FaultModel,
> {
    match r {
        Ok(s) => Ok(s@),
        Err(e) => Err(e@),
    }
}

// ---------------------------------------------------------------------------
// What is kept

/// The texts of the tokens of a node, in order.
pub open spec fn leaves(node: tree::Node) -> Seq<Seq<char>>
    decreases node, 0nat,
{
    match node {
        tree::Node::Token(t) => seq![t.value],
        tree::Node::Absent => Seq::empty(),
        tree::Node::Tree { children, .. } => leaves_between(
            children,
            0,
            children.len() as int,
        ),
    }
}

/// The texts of the tokens of the children from `from` to `to`, in order.
pub open spec fn leaves_between(children: Seq<tree::Node>, from: int, to: int) -> Seq<Seq<char>>
    decreases children, to - from,
{
    if from >= to {
        Seq::empty()
    } else if 0 < to <= children.len() {
        leaves_between(children, from, to - 1) + leaves(children[to - 1])
    } else {
        Seq::empty()
    }
}

/// Whether the texts of `a` are among those of `b`, in the same order.
pub open spec fn is_within(a: Seq<Seq<char>>, b: Seq<Seq<char>>) -> bool
    decreases b.len(),
{
    if a.len() == 0 {
        true
    } else if b.len() == 0 {
        false
    } else {
        ||| a.last() == b.last() && is_within(a.drop_last(), b.drop_last())
        ||| is_within(a, b.drop_last())
    }
}

/// Whether no rule application derives the children of a node.
pub open spec fn is_underivable(m: ReconsModel, data: Seq<char>, children: Seq<tree::Node>) -> bool {
    !m.names.contains(data) || forall|d: recons_match::DerivModel| !
    #[trigger] recons_laws::is_derivation(node_context(m, data, children), d)
}

/// Whether a node of that name in a tree has no rule application that derives
/// its children.
pub open spec fn has_underivable(m: ReconsModel, node: tree::Node, name: Seq<char>) -> bool
    decreases node,
{
    match node {
        tree::Node::Tree { data, children, .. } => {
            ||| data == name && is_underivable(m, data, children)
            ||| exists|i: int|
                0 <= i < children.len() && has_underivable(m, #[trigger] children[i], name)
        },
        _ => false,
    }
}

/// Whether such a node is below one of some children.
pub open spec fn has_underivable_below(
    m: ReconsModel,
    children: Seq<tree::Node>,
    name: Seq<char>,
) -> bool {
    exists|i: int| 0 <= i < children.len() && has_underivable(m, #[trigger] children[i], name)
}

proof fn lemma_within_self(a: Seq<Seq<char>>)
    ensures
        is_within(a, a),
    decreases a.len(),
{
    if a.len() > 0 {
        lemma_within_self(a.drop_last());
    }
}

proof fn lemma_within_join(
    a: Seq<Seq<char>>,
    b: Seq<Seq<char>>,
    c: Seq<Seq<char>>,
    d: Seq<Seq<char>>,
)
    requires
        is_within(a, b),
        is_within(c, d),
    ensures
        is_within(a + c, b + d),
    decreases d.len(),
{
    if d.len() == 0 {
        assert(a + c =~= a);
        assert(b + d =~= b);
    } else {
        assert((b + d).drop_last() =~= b + d.drop_last());
        if c.len() == 0 {
            lemma_within_join(a, b, c, d.drop_last());
        } else if c.last() == d.last() && is_within(c.drop_last(), d.drop_last()) {
            lemma_within_join(a, b, c.drop_last(), d.drop_last());
            assert((a + c).drop_last() =~= a + c.drop_last());
        } else {
            lemma_within_join(a, b, c, d.drop_last());
        }
    }
}

proof fn lemma_within_push(a: Seq<Seq<char>>, b: Seq<Seq<char>>, x: Seq<char>)
    requires
        is_within(a, b),
    ensures
        is_within(a, b.push(x)),
{
    assert(b.push(x).drop_last() =~= b);
}

proof fn lemma_leaves_one(children: Seq<tree::Node>, c: int)
    requires
        0 <= c < children.len(),
    ensures
        leaves_between(children, c, c + 1) == leaves(children[c]),
        children[c] matches tree::Node::Token(t) ==> leaves(children[c]) == seq![t.value],
{
    assert(leaves_between(children, c, c) =~= Seq::empty());
    assert(Seq::<Seq<char>>::empty() + leaves(children[c]) =~= leaves(children[c]));
}

proof fn lemma_leaves_split(children: Seq<tree::Node>, from: int, mid: int, to: int)
    requires
        0 <= from <= mid <= to <= children.len(),
    ensures
        leaves_between(children, from, to) == leaves_between(children, from, mid)
            + leaves_between(children, mid, to),
    decreases to - mid,
{
    if mid == to {
        assert(leaves_between(children, from, mid) + leaves_between(children, mid, to)
            =~= leaves_between(children, from, to));
    } else {
        lemma_leaves_split(children, from, mid, to - 1);
        assert(leaves_between(children, from, to) =~= leaves_between(children, from, mid)
            + leaves_between(children, mid, to));
    }
}

// ---------------------------------------------------------------------------
// Rules in order

pub(crate) proof fn lemma_turned_ok(g: RuleSet, r: recons_rules::Rule, k: nat)
    requires
        k <= r.expansion@.len(),
    ensures
        consumed(recons_rules::planned(r, r.expansion@.len()), k) == recons_rules::matched_part(
            g,
            r,
            k,
        ).len(),
    decreases k,
{
    if k > 0 {
        lemma_turned_ok(g, r, (k - 1) as nat);
    }
}

proof fn lemma_bridge_ok(origin: Seq<char>, target: Seq<char>)
    ensures
        rule_ok(recons_rules::bridge_of(origin, target)),
{
    let steps = recons_rules::bridge_of(origin, target).steps;
    assert(consumed(steps, 1) == consumed(steps, 0) + 1);
}

proof fn lemma_rules_push(s: Seq<recons_rules::ReconsRuleModel>, r: recons_rules::ReconsRuleModel)
    requires
        rules_ok(s),
        rule_ok(r),
    ensures
        rules_ok(s.push(r)),
{
    assert forall|i: int| 0 <= i < s.push(r).len() implies rule_ok(#[trigger] s.push(r)[i]) by {
        if i < s.len() {
            assert(rule_ok(s[i]));
        }
    }
}

proof fn lemma_rules_join(
    a: Seq<recons_rules::ReconsRuleModel>,
    b: Seq<recons_rules::ReconsRuleModel>,
)
    requires
        rules_ok(a),
        rules_ok(b),
    ensures
        rules_ok(a + b),
{
    assert forall|i: int| 0 <= i < (a + b).len() implies rule_ok(#[trigger] (a + b)[i]) by {
        if i < a.len() {
            assert(rule_ok(a[i]));
        } else {
            assert(rule_ok(b[i - a.len()]));
        }
    }
}

proof fn lemma_anywhere_ok(g: RuleSet, k: nat)
    requires
        k <= g.rules@.len(),
    ensures
        rules_ok(recons_rules::anywhere_rules(g, k)),
    decreases k,
{
    if k > 0 {
        lemma_anywhere_ok(g, (k - 1) as nat);
        let before = recons_rules::anywhere_rules(g, (k - 1) as nat);
        let r = g.rules@[k - 1];
        lemma_turned_ok(g, r, r.expansion@.len());
        lemma_rules_push(before, recons_rules::turned_rule(g, r));
        let label = recons_rules::label_of(r);
        lemma_bridge_ok(label, label);
        lemma_rules_push(before, recons_rules::bridge_of(label, label));
    }
}

proof fn lemma_late_ok(g: RuleSet, names: Seq<Seq<char>>, k: nat)
    ensures
        rules_ok(recons_rules::late_bridges(g, names, k)),
    decreases k,
{
    if k > 0 {
        lemma_late_ok(g, names, (k - 1) as nat);
        lemma_bridge_ok(names[k - 1], names[k - 1]);
        lemma_rules_push(
            recons_rules::late_bridges(g, names, (k - 1) as nat),
            recons_rules::bridge_of(names[k - 1], names[k - 1]),
        );
    }
}

proof fn lemma_alias_ok(g: RuleSet, names: Seq<Seq<char>>, k: nat)
    ensures
        rules_ok(recons_rules::all_alias_bridges(g, names, k)),
    decreases k,
{
    if k > 0 {
        lemma_alias_ok(g, names, (k - 1) as nat);
        let one = recons_rules::alias_bridges(g, names[k - 1]);
        let to = recons_rules::aliases_of(g, names[k - 1], g.rules@.len());
        assert forall|i: int| 0 <= i < one.len() implies rule_ok(#[trigger] one[i]) by {
            if i < to.len() {
                lemma_bridge_ok(names[k - 1], to[i]);
            } else {
                lemma_bridge_ok(names[k - 1], names[k - 1]);
            }
        }
        lemma_rules_join(recons_rules::all_alias_bridges(g, names, (k - 1) as nat), one);
    }
}

proof fn lemma_node_ok(g: RuleSet, key: Seq<char>, k: nat)
    requires
        k <= g.rules@.len(),
    ensures
        rules_ok(recons_rules::node_rules(g, key, k)),
    decreases k,
{
    if k > 0 {
        lemma_node_ok(g, key, (k - 1) as nat);
        let r = g.rules@[k - 1];
        lemma_turned_ok(g, r, r.expansion@.len());
        lemma_rules_push(
            recons_rules::node_rules(g, key, (k - 1) as nat),
            recons_rules::turned_rule(g, r),
        );
    }
}

proof fn lemma_merged_ok(
    texts: Seq<(Seq<char>, Option<Seq<char>>)>,
    s: Seq<recons_rules::ReconsRuleModel>,
    k: nat,
)
    requires
        k <= s.len(),
        rules_ok(s),
    ensures
        rules_ok(recons_best::merged(texts, s, k)),
    decreases k,
{
    if k > 0 {
        lemma_merged_ok(texts, s, (k - 1) as nat);
        let before = recons_best::merged(texts, s, (k - 1) as nat);
        let r = s[k - 1];
        assert(rule_ok(r));
        lemma_rules_push(before, r);
        let at = recons_best::shape_at(before, r, 0);
        if at < before.len() {
            assert forall|i: int| 0 <= i < before.len() implies rule_ok(
                #[trigger] before.update(at as int, r)[i],
            ) by {
                assert(rule_ok(before[i]));
            }
        }
    }
}

proof fn lemma_put_ok(s: Seq<recons_rules::ReconsRuleModel>, r: recons_rules::ReconsRuleModel)
    requires
        rules_ok(s),
        rule_ok(r),
    ensures
        rules_ok(recons_best::put_by_length(s, r)),
    decreases s.len(),
{
    if s.len() == 0 || s.last().expansion.len() <= r.expansion.len() {
        lemma_rules_push(s, r);
    } else {
        assert forall|i: int| 0 <= i < s.drop_last().len() implies rule_ok(
            #[trigger] s.drop_last()[i],
        ) by {
            assert(rule_ok(s[i]));
        }
        lemma_put_ok(s.drop_last(), r);
        assert(rule_ok(s[s.len() - 1]));
        lemma_rules_push(recons_best::put_by_length(s.drop_last(), r), s.last());
    }
}

proof fn lemma_by_length_ok(s: Seq<recons_rules::ReconsRuleModel>)
    requires
        rules_ok(s),
    ensures
        rules_ok(recons_best::by_length(s)),
    decreases s.len(),
{
    if s.len() > 0 {
        assert forall|i: int| 0 <= i < s.drop_last().len() implies rule_ok(
            #[trigger] s.drop_last()[i],
        ) by {
            assert(rule_ok(s[i]));
        }
        lemma_by_length_ok(s.drop_last());
        assert(rule_ok(s[s.len() - 1]));
        lemma_put_ok(recons_best::by_length(s.drop_last()), s.last());
    }
}

proof fn lemma_model_ok(g: RuleSet, subs: Seq<(Seq<char>, Seq<char>)>)
    ensures
        model_ok(recons_model(g, subs)),
{
    let m = recons_model(g, subs);
    let n = g.rules@.len();
    let collapsing = text::sorted_texts(recons_rules::expand1_names(g, n));
    let aliased = text::sorted_texts(recons_rules::aliased_names(g, n));
    lemma_anywhere_ok(g, n);
    lemma_late_ok(g, collapsing, collapsing.len());
    lemma_alias_ok(g, aliased, aliased.len());
    let first = recons_rules::anywhere_rules(g, n);
    let second = recons_rules::late_bridges(g, collapsing, collapsing.len());
    lemma_rules_join(first, second);
    lemma_rules_join(
        first + second,
        recons_rules::all_alias_bridges(g, aliased, aliased.len()),
    );
    let global = recons_rules::global_rules(g);
    lemma_merged_ok(m.texts, global, global.len());
    lemma_by_length_ok(recons_best::merged(m.texts, global, global.len()));
    assert forall|key: Seq<char>| rules_ok(#[trigger] (m.rooted)(key)) by {
        let s = recons_rules::node_rules(g, key, n);
        lemma_node_ok(g, key, n);
        lemma_merged_ok(m.texts, s, s.len());
        lemma_by_length_ok(recons_best::merged(m.texts, s, s.len()));
    }
}

proof fn lemma_consumed_le(steps: Seq<recons_rules::StepModel>, k: nat, l: nat)
    requires
        k <= l,
    ensures
        consumed(steps, k) <= consumed(steps, l),
    decreases l,
{
    if k < l {
        lemma_consumed_le(steps, k, (l - 1) as nat);
    }
}

// ---------------------------------------------------------------------------
// Building

/// The rules for the nodes of each label.
fn find_rooted(g: &RuleSet, texts: &Vec<TermText>) -> (r: Vec<NodeRules>)
    ensures
        forall|key: Seq<char>| #[trigger]
            rules_at(r@, key, 0) == recons_best::best_of(
                recons_best::text_models(texts@),
                recons_rules::node_rules(*g, key, g.rules@.len()),
            ),
{
    let keys = find_keys(g);
    let ghost names = text::texts(keys@);
    let ghost t = recons_best::text_models(texts@);
    let mut r: Vec<NodeRules> = Vec::new();
    let mut i: usize = 0;
    while i < keys.len()
        invariant
            i <= keys@.len(),
            r@.len() == i,
            names == text::texts(keys@),
            t == recons_best::text_models(texts@),
            forall|k: int|
                0 <= k < i ==> (#[trigger] r@[k]).key@ == names[k] && recons_rules::rule_models(
                    r@[k].rules@,
                ) == recons_best::best_of(
                    t,
                    recons_rules::node_rules(*g, names[k], g.rules@.len()),
                ),
        decreases keys.len() - i,
    {
        let rules = best_rules(texts, find_node_rules(g, keys[i].as_str()));
        r.push(NodeRules { key: keys[i].clone(), rules });
        i = i + 1;
    }
    proof {
        assert forall|key: Seq<char>| #[trigger]
            rules_at(r@, key, 0) == recons_best::best_of(
                t,
                recons_rules::node_rules(*g, key, g.rules@.len()),
            ) by {
            lemma_rules_at(*g, t, r@, names, key, 0);
        }
    }
    r
}

proof fn lemma_rules_at(
    g: RuleSet,
    t: Seq<(Seq<char>, Option<Seq<char>>)>,
    s: Seq<NodeRules>,
    names: Seq<Seq<char>>,
    key: Seq<char>,
    i: nat,
)
    requires
        i <= s.len(),
        s.len() == names.len(),
        forall|k: int|
            0 <= k < s.len() ==> (#[trigger] s[k]).key@ == names[k] && recons_rules::rule_models(
                s[k].rules@,
            ) == recons_best::best_of(t, recons_rules::node_rules(g, names[k], g.rules@.len())),
        forall|k: int|
            0 <= k < g.rules@.len() ==> (#[trigger] recons_rules::node_key(g, k) matches Some(x)
                ==> names.contains(x)),
        forall|k: int| 0 <= k < i ==> (#[trigger] s[k]).key@ != key,
    ensures
        rules_at(s, key, i) == recons_best::best_of(
            t,
            recons_rules::node_rules(g, key, g.rules@.len()),
        ),
    decreases s.len() - i,
{
    if i >= s.len() {
        assert forall|k: int| 0 <= k < g.rules@.len() implies #[trigger] recons_rules::node_key(g, k)
            != Some(key) by {
            if recons_rules::node_key(g, k) == Some(key) {
                let q = choose|q: int| 0 <= q < names.len() && names[q] == key;
                assert(s[q].key@ == key);
            }
        }
        recons_rules::lemma_no_node_rules(g, key, g.rules@.len());
        assert(recons_best::best_of(t, Seq::empty()) =~= Seq::empty());
    } else if s[i as int].key@ != key {
        lemma_rules_at(g, t, s, names, key, i + 1);
    }
}

impl Reconstructor {
    /// Whether every rule is written with all the symbols that it matches.
    pub open spec fn wf(&self) -> bool {
        model_ok(self@)
    }

    /// A reconstructor for the trees of a grammar.
    pub fn new(grammar: &RuleSet) -> (r: Result<Reconstructor, ReconstructError>)
        ensures
            match r {
                Ok(c) => !has_placeholders(*grammar) && c.wf() && c@ == recons_model(
                    *grammar,
                    Seq::empty(),
                ),
                Err(e) => has_placeholders(*grammar) && e@ == FaultModel::MaybePlaceholders,
            },
    {
        let subs: Vec<(String, String)> = Vec::new();
        proof {
            assert(recons_rules::sub_models(subs@) =~= Seq::empty());
        }
        Reconstructor::with_term_subs(grammar, &subs)
    }

    /// A reconstructor for the trees of a grammar, with texts for terminals:
    /// each a name and the text to write.
    pub fn with_term_subs(grammar: &RuleSet, term_subs: &Vec<(String, String)>) -> (r: Result<
        Reconstructor,
        ReconstructError,
    >)
        ensures
            match r {
                Ok(c) => !has_placeholders(*grammar) && c.wf() && c@ == recons_model(
                    *grammar,
                    recons_rules::sub_models(term_subs@),
                ),
                Err(e) => has_placeholders(*grammar) && e@ == FaultModel::MaybePlaceholders,
            },
    {
        if uses_placeholders(grammar) {
            return Err(ReconstructError::MaybePlaceholders);
        }
        let ghost subs = recons_rules::sub_models(term_subs@);
        let names = find_names(grammar, term_subs);
        let texts = find_texts(grammar, term_subs);
        let global = best_rules(&texts, find_global_rules(grammar));
        let rooted = find_rooted(grammar, &texts);
        let separator = pick_separator(grammar);
        let r = Reconstructor { names, global, rooted, texts, separator };
        proof {
            let m = recons_model(*grammar, subs);
            assert(r@.names =~= m.names) by {
                assert forall|x: Seq<char>| r@.names.contains(x) == m.names.contains(x) by {
                    assert(text::texts(names@).contains(x) <==> recons_rules::is_known(
                        *grammar,
                        subs,
                        x,
                    ));
                }
            }
            assert forall|key: Seq<char>| #[trigger] (r@.rooted)(key) == (m.rooted)(key) by {
                assert(rules_at(rooted@, key, 0) == (m.rooted)(key));
            }
            assert(r@.rooted =~= m.rooted);
            lemma_model_ok(*grammar, subs);
        }
        Ok(r)
    }

    /// The text of a tree. Where two adjacent pieces would be read as one, the
    /// separator that the grammar ignores stands between them, if there is one.
    pub fn reconstruct(&self, tree: &ParseTree) -> (r: Result<String, ReconstructError>)
        requires
            self.wf(),
        ensures
            text_result(r) == rendered(self@, tree@, self@.separator),
            r is Ok ==> is_within(leaves(tree@), node_pieces(self@, tree@)->Ok_0),
            r matches Err(e) ==> (e@ matches FaultModel::NoMatch { data } ==> has_underivable(
                self@,
                tree@,
                data,
            )),
    {
        match self.render(tree) {
            Ok(pieces) => Ok(
                join_pieces(
                    &pieces,
                    match &self.separator {
                        Some(s) => Some(s.as_str()),
                        None => None,
                    },
                ),
            ),
            Err(e) => Err(e),
        }
    }

    /// The text of a tree, without separators.
    pub fn reconstruct_exact(&self, tree: &ParseTree) -> (r: Result<String, ReconstructError>)
        requires
            self.wf(),
        ensures
            text_result(r) == rendered(self@, tree@, None),
            r is Ok ==> is_within(leaves(tree@), node_pieces(self@, tree@)->Ok_0),
            r matches Err(e) ==> (e@ matches FaultModel::NoMatch { data } ==> has_underivable(
                self@,
                tree@,
                data,
            )),
    {
        match self.render(tree) {
            Ok(pieces) => Ok(join_pieces(&pieces, None)),
            Err(e) => Err(e),
        }
    }

    fn render(&self, tree: &ParseTree) -> (r: Result<Vec<String>, ReconstructError>)
        requires
            self.wf(),
        ensures
            match r {
                Ok(v) => node_pieces(self@, tree@) == Ok::<Seq<Seq<char>>, FaultModel>(
                    text::texts(v@),
                ),
                Err(e) => node_pieces(self@, tree@) == Err::<Seq<Seq<char>>, FaultModel>(e@),
            },
            r is Ok ==> is_within(leaves(tree@), node_pieces(self@, tree@)->Ok_0),
            r matches Err(e) ==> (e@ matches FaultModel::NoMatch { data } ==> has_underivable(
                self@,
                tree@,
                data,
            )),
    {
        let mut out: Vec<String> = Vec::new();
        proof {
            assert(text::texts(out@) =~= Seq::empty());
        }
        match tree {
            ParseTree::Token(t) => {
                out.push(t.value.clone());
                proof {
                    assert(text::texts(out@) =~= seq![t.value@]);
                    lemma_within_self(seq![t.value@]);
                }
                Ok(out)
            },
            ParseTree::Absent => Err(ReconstructError::Placeholder),
            ParseTree::Tree(t) => match self.write_node(t, &mut out) {
                Ok(_) => {
                    proof {
                        let pieces = node_pieces(self@, tree@)->Ok_0;
                        assert(Seq::<Seq<char>>::empty() + pieces =~= pieces);
                    }
                    Ok(out)
                },
                Err(e) => Err(e),
            },
        }
    }

    /// The rules that can match the children of a node.
    fn matcher_for(
        &self,
        data: &str,
        Ghost(ctx): Ghost<recons_match::MatchContext>,
    ) -> (r: Matcher<'_>)
        requires
            ctx.rules == self@.global + (self@.rooted)(data@),
            ctx.root == recons_rules::base_of(data@),
        ensures
            r.fits(ctx),
    {
        let root = base_name(data);
        let mut rules: Vec<&ReconsRule> = Vec::new();
        let mut roots: Vec<bool> = Vec::new();
        let mut i: usize = 0;
        while i < self.global.len()
            invariant
                i <= self.global@.len(),
                ctx.rules == self@.global + (self@.rooted)(data@),
                ctx.root == recons_rules::base_of(data@),
                root@ == ctx.root,
                rules@.len() == i,
                roots@.len() == i,
                forall|k: int| 0 <= k < i ==> (#[trigger] rules@[k])@ == ctx.rules[k],
                forall|k: int| 0 <= k < i ==> #[trigger] roots@[k] == recons_match::is_root(ctx, k),
            decreases self.global.len() - i,
        {
            let r = &self.global[i];
            proof {
                assert(self@.global[i as int] == r@);
            }
            let base = base_name(r.origin.as_str());
            rules.push(r);
            roots.push(same_text(&base, root.as_str()));
            i = i + 1;
        }
        let ghost n = self.global@.len();
        let mut at: usize = 0;
        while at < self.rooted.len() && !same_text(&self.rooted[at].key, data)
            invariant
                at <= self.rooted@.len(),
                rules_at(self.rooted@, data@, 0) == rules_at(self.rooted@, data@, at as nat),
            decreases self.rooted.len() - at,
        {
            at = at + 1;
        }
        if at < self.rooted.len() {
            let extra = &self.rooted[at].rules;
            proof {
                assert((self@.rooted)(data@) == recons_rules::rule_models(extra@));
            }
            let mut k: usize = 0;
            while k < extra.len()
                invariant
                    k <= extra@.len(),
                    n == self@.global.len(),
                    ctx.rules == self@.global + recons_rules::rule_models(extra@),
                    root@ == ctx.root,
                    rules@.len() == n + k,
                    roots@.len() == n + k,
                    forall|j: int| 0 <= j < n + k ==> (#[trigger] rules@[j])@ == ctx.rules[j],
                    forall|j: int|
                        0 <= j < n + k ==> #[trigger] roots@[j] == recons_match::is_root(ctx, j),
                decreases extra.len() - k,
            {
                let r = &extra[k];
                proof {
                    assert(recons_rules::rule_models(extra@)[k as int] == r@);
                    assert(ctx.rules[n + k] == r@);
                }
                let base = base_name(r.origin.as_str());
                rules.push(r);
                roots.push(same_text(&base, root.as_str()));
                k = k + 1;
            }
        }
        Matcher { rules, roots }
    }

    /// Matches a node with the rules, and gives these.
    fn match_node(
        &self,
        t: &Tree,
        Ghost(ctx): Ghost<recons_match::MatchContext>,
    ) -> (r: Result<(Matcher<'_>, Deriv), ReconstructError>)
        requires
            ctx == node_context(self@, t.data@, tree::child_nodes(t.children@)),
        ensures
            match r {
                Ok((m, d)) => m.fits(ctx) && node_match(self@, t.data@, ctx.children) == Some(
                    recons_match::deriv_model(d),
                ) && recons_match::deriv_ok(ctx, recons_match::deriv_model(d))
                    && recons_laws::is_derivation(ctx, recons_match::deriv_model(d)),
                Err(e) => e@ == (FaultModel::NoMatch { data: t.data@ }) && node_match(
                    self@,
                    t.data@,
                    ctx.children,
                ) is None && is_underivable(self@, t.data@, ctx.children),
            },
    {
        proof {
            assert(self@.names.contains(t.data@) == text::texts(self.names@).contains(t.data@));
        }
        if !holds_name(&self.names, t.data.as_str()) {
            return Err(ReconstructError::NoMatch { data: t.data.clone() });
        }
        let m = self.matcher_for(t.data.as_str(), Ghost(ctx));
        match earley_match(&m, &t.children, Ghost(ctx)) {
            Some(d) => Ok((m, d)),
            None => Err(ReconstructError::NoMatch { data: t.data.clone() }),
        }
    }

    fn write_node(&self, t: &Tree, out: &mut Vec<String>) -> (r: Result<(), ReconstructError>)
        requires
            self.wf(),
        ensures
            match (r, node_pieces(self@, t@)) {
                (Ok(_), Ok(pieces)) => text::texts(final(out)@) == text::texts(old(out)@) + pieces,
                (Err(e), Err(f)) => e@ == f,
                _ => false,
            },
            r is Ok ==> is_within(leaves(t@), node_pieces(self@, t@)->Ok_0),
            r matches Err(e) ==> (e@ matches FaultModel::NoMatch { data } ==> has_underivable(
                self@,
                t@,
                data,
            )),
        decreases t, no_deriv(), 0nat,
    {
        let ghost nodes = tree::child_nodes(t.children@);
        let ghost ctx = node_context(self@, t.data@, nodes);
        proof {
            tree::tree_node_children(*t);
            lemma_rules_join(self@.global, (self@.rooted)(t.data@));
        }
        match self.match_node(t, Ghost(ctx)) {
            Err(e) => Err(e),
            Ok((m, d)) => self.write_rule(
                &m,
                &d,
                &t.children,
                out,
                Ghost(ctx),
                Ghost(0),
                Ghost(nodes.len() as int),
            ),
        }
    }

    fn write_rule(
        &self,
        m: &Matcher,
        d: &Deriv,
        children: &Vec<Child>,
        out: &mut Vec<String>,
        Ghost(ctx): Ghost<recons_match::MatchContext>,
        Ghost(from): Ghost<int>,
        Ghost(to): Ghost<int>,
    ) -> (r: Result<(), ReconstructError>)
        requires
            self.wf(),
            m.fits(ctx),
            rules_ok(ctx.rules),
            ctx.children == tree::child_nodes(children@),
            recons_match::deriv_ok(ctx, recons_match::deriv_model(*d)),
            0 <= from,
            to <= ctx.children.len(),
            recons_laws::spans(
                ctx,
                ctx.rules[d.rule as int].expansion,
                recons_match::deriv_model(*d).elems,
                from,
                to,
            ),
        ensures
            r is Ok ==> is_within(
                leaves_between(ctx.children, from, to),
                steps_pieces(
                    self@,
                    ctx.rules,
                    ctx.children,
                    recons_match::deriv_model(*d),
                    ctx.rules[d.rule as int].steps.len(),
                )->Ok_0,
            ),
            r matches Err(e) ==> (e@ matches FaultModel::NoMatch { data } ==> has_underivable_below(
                self@,
                ctx.children,
                data,
            )),
            match (
                r,
                steps_pieces(
                    self@,
                    ctx.rules,
                    ctx.children,
                    recons_match::deriv_model(*d),
                    ctx.rules[d.rule as int].steps.len(),
                ),
            ) {
                (Ok(_), Ok(pieces)) => text::texts(final(out)@) == text::texts(old(out)@) + pieces,
                (Err(e), Err(f)) => e@ == f,
                _ => false,
            },
        decreases children, d, 1nat,
    {
        let ghost dm = recons_match::deriv_model(*d);
        let ghost start = text::texts(out@);
        let rule = m.rules[d.rule];
        let ghost steps = ctx.rules[d.rule as int].steps;
        proof {
            assert(rule@ == ctx.rules[d.rule as int]);
            assert(rule_ok(ctx.rules[d.rule as int]));
            assert(dm.elems =~= recons_match::elem_models(d.elems@));
            assert(start + Seq::<Seq<char>>::empty() =~= start);
        }
        let total: usize = d.elems.len();
        let ghost mut pos = from;
        proof {
            recons_laws::lemma_spans_at(
                ctx,
                ctx.rules[d.rule as int].expansion,
                dm.elems,
                from,
                to,
                0,
            );
        }
        let mut k: usize = 0;
        let mut e: usize = 0;
        while k < rule.steps.len()
            invariant
                total == d.elems@.len(),
                k <= rule.steps@.len(),
                self.wf(),
                m.fits(ctx),
                rules_ok(ctx.rules),
                ctx.children == tree::child_nodes(children@),
                dm == recons_match::deriv_model(*d),
                recons_match::deriv_ok(ctx, dm),
                dm.elems == recons_match::elem_models(d.elems@),
                rule@ == ctx.rules[d.rule as int],
                rule_ok(rule@),
                steps == rule@.steps,
                e == consumed(steps, k as nat),
                e <= d.elems@.len(),
                0 <= from <= pos <= to <= ctx.children.len(),
                pos == from + recons_laws::width(dm.elems.take(e as int)),
                recons_laws::spans(
                    ctx,
                    ctx.rules[d.rule as int].expansion,
                    dm.elems,
                    from,
                    to,
                ),
                steps_pieces(self@, ctx.rules, ctx.children, dm, k as nat) matches Ok(pieces)
                    && text::texts(out@) == start + pieces && is_within(
                    leaves_between(ctx.children, from, pos),
                    pieces,
                ),
            decreases rule.steps.len() - k,
        {
            let ghost before = text::texts(out@);
            let ghost so_far = steps_pieces(self@, ctx.rules, ctx.children, dm, k as nat)->Ok_0;
            proof {
                assert(steps[k as int] == rule.steps@[k as int]@);
            }
            match &rule.steps[k] {
                WriteStep::Discarded(t) => {
                    match find_text(&self.texts, t.as_str()) {
                        Some(s) => {
                            out.push(s.clone());
                            proof {
                                assert(text::texts(out@) =~= before.push(s@));
                                let pieces = steps_pieces(
                                    self@,
                                    ctx.rules,
                                    ctx.children,
                                    dm,
                                    (k + 1) as nat,
                                )->Ok_0;
                                assert(text::texts(out@) =~= start + pieces);
                                lemma_within_push(
                                    leaves_between(ctx.children, from, pos),
                                    so_far,
                                    s@,
                                );
                            }
                        },
                        None => {
                            proof {
                                lemma_fault_stays(
                                    self@,
                                    ctx.rules,
                                    ctx.children,
                                    dm,
                                    (k + 1) as nat,
                                    steps.len(),
                                );
                            }
                            return Err(
                                ReconstructError::NonLiteralTerminal { name: t.clone() },
                            );
                        },
                    }
                },
                WriteStep::Consume => {
                    proof {
                        lemma_consumed_le(steps, (k + 1) as nat, steps.len());
                        assert(e < d.elems@.len());
                        assert(dm.elems[e as int] == recons_match::elem_model(d.elems@[e as int]));
                        recons_laws::lemma_spans_at(
                            ctx,
                            ctx.rules[d.rule as int].expansion,
                            dm.elems,
                            from,
                            to,
                            e as int,
                        );
                        lemma_fault_stays_if(
                            self@,
                            ctx.rules,
                            ctx.children,
                            dm,
                            (k + 1) as nat,
                            steps.len(),
                        );
                    }
                    let ghost mut added: Seq<Seq<char>> = Seq::empty();
                    let ghost next = from + recons_laws::width(dm.elems.take(e + 1));
                    match &d.elems[e] {
                        Elem::Child(c) => {
                            proof {
                                let node = children@[*c as int]@;
                                assert(ctx.children[*c as int] == node);
                                lemma_leaves_one(ctx.children, *c as int);
                                assert(node matches tree::Node::Token(t) ==> node_pieces(self@, node)
                                    == Ok::<Seq<Seq<char>>, FaultModel>(seq![t.value]));
                                assert(node is Absent ==> node_pieces(self@, node) == Err::<
                                    Seq<Seq<char>>,
                                    FaultModel,
                                >(FaultModel::Placeholder));
                            }
                            match &children[*c] {
                                Child::Token(t) => {
                                    out.push(t.value.clone());
                                    proof {
                                        assert(text::texts(out@) =~= before + seq![t.value@]);
                                        lemma_within_self(seq![t.value@]);
                                        added = seq![t.value@];
                                    }
                                },
                                Child::Tree(t) => match self.write_node(t, out) {
                                    Ok(_) => {
                                        proof {
                                            added = node_pieces(self@, t@)->Ok_0;
                                        }
                                    },
                                    Err(f) => {
                                        return Err(f);
                                    },
                                },
                                Child::Absent => {
                                    return Err(ReconstructError::Placeholder);
                                },
                            }
                        },
                        Elem::Sub(s) => {
                            match self.write_rule(
                                m,
                                s,
                                children,
                                out,
                                Ghost(ctx),
                                Ghost(pos),
                                Ghost(next),
                            ) {
                                Ok(_) => {
                                    proof {
                                        added = steps_pieces(
                                            self@,
                                            ctx.rules,
                                            ctx.children,
                                            recons_match::deriv_model(*s),
                                            ctx.rules[s.rule as int].steps.len(),
                                        )->Ok_0;
                                    }
                                },
                                Err(f) => {
                                    return Err(f);
                                },
                            }
                        },
                    }
                    proof {
                        let pieces = steps_pieces(
                            self@,
                            ctx.rules,
                            ctx.children,
                            dm,
                            (k + 1) as nat,
                        )->Ok_0;
                        assert(pieces == so_far + added);
                        assert(text::texts(out@) =~= start + pieces);
                        lemma_leaves_split(ctx.children, from, pos, next);
                        assert(is_within(leaves_between(ctx.children, pos, next), added));
                        lemma_within_join(
                            leaves_between(ctx.children, from, pos),
                            so_far,
                            leaves_between(ctx.children, pos, next),
                            added,
                        );
                        pos = next;
                    }
                    e = e + 1;
                },
            }
            k = k + 1;
        }
        proof {
            assert(dm.elems.take(e as int) =~= dm.elems);
            recons_laws::lemma_spans_width(
                ctx,
                ctx.rules[d.rule as int].expansion,
                dm.elems,
                from,
                to,
            );
        }
        Ok(())
    }
}

/// What stops a rule application stops it for good.
proof fn lemma_fault_stays(
    m: ReconsModel,
    rules: Seq<recons_rules::ReconsRuleModel>,
    children: Seq<tree::Node>,
    d: recons_match::DerivModel,
    k: nat,
    l: nat,
)
    requires
        k <= l,
        steps_pieces(m, rules, children, d, k) is Err,
    ensures
        steps_pieces(m, rules, children, d, l) == steps_pieces(m, rules, children, d, k),
    decreases l,
{
    if k < l {
        lemma_fault_stays(m, rules, children, d, k, (l - 1) as nat);
    }
}

proof fn lemma_fault_stays_if(
    m: ReconsModel,
    rules: Seq<recons_rules::ReconsRuleModel>,
    children: Seq<tree::Node>,
    d: recons_match::DerivModel,
    k: nat,
    l: nat,
)
    requires
        k <= l,
    ensures
        steps_pieces(m, rules, children, d, k) is Err ==> steps_pieces(m, rules, children, d, l)
            == steps_pieces(m, rules, children, d, k),
{
    if steps_pieces(m, rules, children, d, k) is Err {
        lemma_fault_stays(m, rules, children, d, k, l);
    }
}

} // verus!
