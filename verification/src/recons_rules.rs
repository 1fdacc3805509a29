//! Grammar rules turned around: what a node of a shaped tree can have come
//! from, as rules over the children of tree nodes.

use vstd::prelude::*;
use crate::symbols::{RuleOptions, TerminalDef};
use crate::text;
use crate::text::{owned, same_text, sort_names};

verus! {

// ---------------------------------------------------------------------------
// Grammars as written

/// A symbol of a rule as written.
#[derive(Debug)]
pub enum Symbol {
    /// A terminal; `filter_out` drops its token from the tree.
    Terminal { name: String, filter_out: bool },
    NonTerminal { name: String },
}

/// A rule as written.
#[derive(Debug)]
pub struct Rule {
    pub origin: String,
    pub expansion: Vec<Symbol>,
    pub alias: Option<String>,
    pub options: RuleOptions,
}

/// A grammar as written: its rules, its terminals, and the names of the
/// terminals that it ignores.
#[derive(Debug)]
pub struct RuleSet {
    pub rules: Vec<Rule>,
    pub terminals: Vec<TerminalDef>,
    pub ignore: Vec<String>,
}

/// The name of a symbol.
pub open spec fn symbol_name(s: Symbol) -> Seq<char> {
    match s {
        Symbol::Terminal { name, .. } => name@,
        Symbol::NonTerminal { name } => name@,
    }
}

// ---------------------------------------------------------------------------
// Turned rules

/// A symbol of a turned rule. A terminal stands for one child of a node; a
/// nonterminal leaves no node behind and is expanded further.
#[derive(Debug)]
pub enum RSym {
    Term(String),
    NonTerm(String),
}

/// One step of writing a rule out.
#[derive(Debug)]
pub enum WriteStep {
    /// Writes the text of a terminal that the tree does not hold.
    Discarded(String),
    /// Writes the next matched symbol.
    Consume,
}

/// A rule over the children of a node, with how it is written out.
#[derive(Debug)]
pub struct ReconsRule {
    pub origin: String,
    pub expansion: Vec<RSym>,
    pub steps: Vec<WriteStep>,
}

/// The content of a symbol of a turned rule.
pub ghost enum RSymModel {
    Term(Seq<char>),
    NonTerm(Seq<char>),
}

/// The content of a step.
pub ghost enum StepModel {
    Discarded(Seq<char>),
    Consume,
}

/// The content of a turned rule.
pub ghost struct ReconsRuleModel {
    pub origin: Seq<char>,
    pub expansion: Seq<RSymModel>,
    pub steps: Seq<StepModel>,
}

impl View for RSym {
    type V = RSymModel;

    open spec fn view(&self) -> RSymModel {
        match *self {
            RSym::Term(s) => RSymModel::Term(s@),
            RSym::NonTerm(s) => RSymModel::NonTerm(s@),
        }
    }
}

impl View for WriteStep {
    type V = StepModel;

    open spec fn view(&self) -> StepModel {
        match *self {
            WriteStep::Discarded(s) => StepModel::Discarded(s@),
            WriteStep::Consume => StepModel::Consume,
        }
    }
}

impl View for ReconsRule {
    type V = ReconsRuleModel;

    open spec fn view(&self) -> ReconsRuleModel {
        ReconsRuleModel {
            origin: self.origin@,
            expansion: Seq::new(self.expansion@.len(), |i: int| self.expansion@[i]@),
            steps: Seq::new(self.steps@.len(), |i: int| self.steps@[i]@),
        }
    }
}

/// The contents of turned rules.
pub open spec fn rule_models(s: Seq<ReconsRule>) -> Seq<ReconsRuleModel> {
    Seq::new(s.len(), |i: int| s[i]@)
}

// ---------------------------------------------------------------------------
// Names

/// The name that a tree node carries for a symbol: without the arguments of a
/// template instance.
pub open spec fn base_of(name: Seq<char>) -> Seq<char>
    decreases name.len(),
{
    if name.len() == 0 || name[0] == '{' {
        Seq::empty()
    } else {
        seq![name[0]] + base_of(name.skip(1))
    }
}

proof fn lemma_base_of(name: Seq<char>, k: int)
    requires
        0 <= k <= name.len(),
        forall|j: int| 0 <= j < k ==> name[j] != '{',
        k < name.len() ==> name[k] == '{',
    ensures
        base_of(name) == name.take(k),
    decreases k,
{
    if k > 0 {
        let rest = name.skip(1);
        assert forall|j: int| 0 <= j < k - 1 implies rest[j] != '{' by {
            assert(rest[j] == name[j + 1]);
        }
        lemma_base_of(rest, k - 1);
        assert(name.take(k) =~= seq![name[0]] + rest.take(k - 1));
    } else {
        assert(name.take(0) =~= Seq::empty());
    }
}

/// The name that a tree node carries for a symbol.
pub fn base_name(name: &str) -> (r: String)
    ensures
        r@ == base_of(name@),
{
    let n: usize = name.unicode_len();
    let mut i: usize = 0;
    while i < n
        invariant
            i <= n,
            n == name@.len(),
            forall|j: int| 0 <= j < i ==> name@[j] != '{',
        decreases n - i,
    {
        if name.get_char(i) == '{' {
            proof {
                lemma_base_of(name@, i as int);
                assert(name@.subrange(0, i as int) =~= name@.take(i as int));
            }
            return owned(name.substring_char(0, i));
        }
        i = i + 1;
    }
    proof {
        lemma_base_of(name@, n as int);
        assert(name@.take(n as int) =~= name@);
    }
    owned(name)
}

/// Whether a rule of that name is transparent.
pub open spec fn is_hidden(name: Seq<char>) -> bool {
    name.len() > 0 && name[0] == '_'
}

fn hidden(name: &str) -> (r: bool)
    ensures
        r == is_hidden(name@),
{
    let n: usize = name.unicode_len();
    n > 0 && name.get_char(0) == '_'
}

/// Whether a rule of that origin collapses nodes with one child.
pub open spec fn is_expand1(g: RuleSet, name: Seq<char>) -> bool {
    exists|i: int|
        0 <= i < g.rules@.len() && (#[trigger] g.rules@[i]).options.expand1
            && g.rules@[i].origin@ == name
}

/// Whether a rule of that origin has an alias.
pub open spec fn is_aliased(g: RuleSet, name: Seq<char>) -> bool {
    exists|i: int|
        0 <= i < g.rules@.len() && (#[trigger] g.rules@[i]).alias is Some && g.rules@[i].origin@
            == name
}

/// Whether a rule has that origin.
pub open spec fn is_origin(g: RuleSet, name: Seq<char>) -> bool {
    exists|i: int| 0 <= i < g.rules@.len() && (#[trigger] g.rules@[i]).origin@ == name
}

/// Whether the nodes of a symbol can vanish from a shaped tree.
pub open spec fn vanishes(g: RuleSet, name: Seq<char>) -> bool {
    is_origin(g, name) && (is_hidden(name) || is_expand1(g, name) || is_aliased(g, name))
}

fn expand1(g: &RuleSet, name: &str) -> (r: bool)
    ensures
        r == is_expand1(*g, name@),
{
    let mut i: usize = 0;
    while i < g.rules.len()
        invariant
            i <= g.rules@.len(),
            forall|j: int|
                0 <= j < i ==> !((#[trigger] g.rules@[j]).options.expand1 && g.rules@[j].origin@
                    == name@),
        decreases g.rules.len() - i,
    {
        if g.rules[i].options.expand1 && same_text(&g.rules[i].origin, name) {
            return true;
        }
        i = i + 1;
    }
    false
}

fn vanishing(g: &RuleSet, name: &str) -> (r: bool)
    ensures
        r == vanishes(*g, name@),
{
    let mut origin = false;
    let mut aliased = false;
    let mut i: usize = 0;
    while i < g.rules.len()
        invariant
            i <= g.rules@.len(),
            origin == (exists|j: int| 0 <= j < i && (#[trigger] g.rules@[j]).origin@ == name@),
            aliased == (exists|j: int|
                0 <= j < i && (#[trigger] g.rules@[j]).alias is Some && g.rules@[j].origin@
                    == name@),
        decreases g.rules.len() - i,
    {
        if same_text(&g.rules[i].origin, name) {
            origin = true;
            if g.rules[i].alias.is_some() {
                aliased = true;
            }
        }
        i = i + 1;
    }
    origin && (hidden(name) || aliased || expand1(g, name))
}

// ---------------------------------------------------------------------------
// Turning one rule

/// Whether the tree does not hold a token of a symbol of a rule.
pub open spec fn is_discarded(r: Rule, s: Symbol) -> bool {
    s matches Symbol::Terminal { filter_out, .. } && filter_out && !r.options.keep_all_tokens
}

/// What a symbol is matched by.
pub open spec fn turned(g: RuleSet, s: Symbol) -> RSymModel {
    match s {
        Symbol::NonTerminal { name } => if vanishes(g, name@) {
            RSymModel::NonTerm(name@)
        } else {
            RSymModel::Term(name@)
        },
        Symbol::Terminal { name, .. } => RSymModel::Term(name@),
    }
}

/// What the first `k` symbols of a rule are matched by.
pub open spec fn matched_part(g: RuleSet, r: Rule, k: nat) -> Seq<RSymModel>
    decreases k,
{
    if k == 0 {
        Seq::empty()
    } else {
        let before = matched_part(g, r, (k - 1) as nat);
        let s = r.expansion@[k - 1];
        if is_discarded(r, s) {
            before
        } else {
            before.push(turned(g, s))
        }
    }
}

/// How the first `k` symbols of a rule are written out.
pub open spec fn planned(r: Rule, k: nat) -> Seq<StepModel> {
    Seq::new(
        k,
        |i: int|
            if is_discarded(r, r.expansion@[i]) {
                StepModel::Discarded(symbol_name(r.expansion@[i]))
            } else {
                StepModel::Consume
            },
    )
}

/// The label of the nodes of a rule: its alias, or its origin.
pub open spec fn label_of(r: Rule) -> Seq<char> {
    match r.alias {
        Some(a) => a@,
        None => r.origin@,
    }
}

/// A rule turned around.
pub open spec fn turned_rule(g: RuleSet, r: Rule) -> ReconsRuleModel {
    ReconsRuleModel {
        origin: label_of(r),
        expansion: matched_part(g, r, r.expansion@.len()),
        steps: planned(r, r.expansion@.len()),
    }
}

/// Whether a rule, turned around, would only derive a symbol from itself.
pub open spec fn is_degenerate(g: RuleSet, r: Rule) -> bool {
    r.alias is None && matched_part(g, r, r.expansion@.len()) == seq![
        RSymModel::NonTerm(r.origin@),
    ]
}

/// Where a turned rule applies.
pub ghost enum Scope {
    /// Nowhere.
    Nowhere,
    /// Only to a node of its label that did not collapse.
    Uncollapsed,
    /// Wherever its origin is referred to.
    Anywhere,
    /// Only to a node of its label.
    Node,
}

/// Where a rule, turned around, applies.
pub open spec fn scope_of(g: RuleSet, r: Rule) -> Scope {
    let label = label_of(r);
    if is_degenerate(g, r) {
        Scope::Nowhere
    } else if is_expand1(g, label) && matched_part(g, r, r.expansion@.len()).len() != 1 {
        Scope::Uncollapsed
    } else if is_hidden(label) || is_expand1(g, label) {
        Scope::Anywhere
    } else {
        Scope::Node
    }
}

/// Where a turned rule applies.
#[derive(Clone, Copy, PartialEq, Eq, Debug, Structural)]
enum Place {
    Nowhere,
    Uncollapsed,
    Anywhere,
    Node,
}

/// What a place stands for.
closed spec fn place_scope(p: Place) -> Scope {
    match p {
        Place::Nowhere => Scope::Nowhere,
        Place::Uncollapsed => Scope::Uncollapsed,
        Place::Anywhere => Scope::Anywhere,
        Place::Node => Scope::Node,
    }
}

fn turn_symbol(g: &RuleSet, s: &Symbol) -> (r: RSym)
    ensures
        r@ == turned(*g, *s),
{
    match s {
        Symbol::Terminal { name, .. } => RSym::Term(name.clone()),
        Symbol::NonTerminal { name } => {
            if vanishing(g, name.as_str()) {
                RSym::NonTerm(name.clone())
            } else {
                RSym::Term(name.clone())
            }
        },
    }
}

fn name_of_symbol(s: &Symbol) -> (r: String)
    ensures
        r@ == symbol_name(*s),
{
    match s {
        Symbol::Terminal { name, .. } => name.clone(),
        Symbol::NonTerminal { name } => name.clone(),
    }
}

fn label(r: &Rule) -> (s: String)
    ensures
        s@ == label_of(*r),
{
    match &r.alias {
        Some(a) => a.clone(),
        None => r.origin.clone(),
    }
}

/// Turns a rule around.
fn turn_rule(g: &RuleSet, r: &Rule) -> (out: ReconsRule)
    ensures
        out@ == turned_rule(*g, *r),
{
    let mut expansion: Vec<RSym> = Vec::new();
    let mut steps: Vec<WriteStep> = Vec::new();
    let mut i: usize = 0;
    while i < r.expansion.len()
        invariant
            i <= r.expansion@.len(),
            Seq::new(expansion@.len(), |k: int| expansion@[k]@) =~= matched_part(*g, *r, i as nat),
            Seq::new(steps@.len(), |k: int| steps@[k]@) =~= planned(*r, i as nat),
        decreases r.expansion.len() - i,
    {
        let s = &r.expansion[i];
        let discarded = match s {
            Symbol::Terminal { filter_out, .. } => *filter_out && !r.options.keep_all_tokens,
            Symbol::NonTerminal { .. } => false,
        };
        let ghost before = Seq::new(expansion@.len(), |k: int| expansion@[k]@);
        let ghost plan = Seq::new(steps@.len(), |k: int| steps@[k]@);
        let ghost now = planned(*r, (i + 1) as nat);
        if discarded {
            steps.push(WriteStep::Discarded(name_of_symbol(s)));
        } else {
            expansion.push(turn_symbol(g, s));
            steps.push(WriteStep::Consume);
            proof {
                assert(Seq::new(expansion@.len(), |k: int| expansion@[k]@) =~= before.push(
                    turned(*g, *s),
                ));
            }
        }
        proof {
            let after = Seq::new(steps@.len(), |k: int| steps@[k]@);
            assert(plan.len() == i);
            assert(discarded == is_discarded(*r, r.expansion@[i as int]));
            assert(after.len() == i + 1);
            assert(steps@[i as int]@ == now[i as int]);
            assert forall|k: int| 0 <= k < after.len() implies after[k] == now[k] by {
                if k < i {
                    assert(plan[k] == planned(*r, i as nat)[k]);
                }
            }
        }
        i = i + 1;
    }
    let origin = label(r);
    ReconsRule { origin, expansion, steps }
}

/// Where a turned rule applies.
fn find_place(g: &RuleSet, r: &Rule, rule: &ReconsRule) -> (p: Place)
    requires
        rule@ == turned_rule(*g, *r),
    ensures
        place_scope(p) == scope_of(*g, *r),
{
    proof {
        assert(rule@.expansion.len() == rule.expansion@.len());
    }
    if r.alias.is_none() && rule.expansion.len() == 1 {
        proof {
            assert(rule@.expansion[0] == rule.expansion@[0]@);
        }
        if let RSym::NonTerm(x) = &rule.expansion[0] {
            if same_text(x, r.origin.as_str()) {
                proof {
                    assert(rule@.expansion =~= seq![RSymModel::NonTerm(r.origin@)]);
                }
                return Place::Nowhere;
            }
        }
    }
    proof {
        if is_degenerate(*g, *r) {
            assert(rule@.expansion[0] == RSymModel::NonTerm(r.origin@));
            assert(rule@.expansion.len() == 1);
        }
    }
    let collapses = expand1(g, rule.origin.as_str());
    if collapses && rule.expansion.len() != 1 {
        Place::Uncollapsed
    } else if hidden(rule.origin.as_str()) || collapses {
        Place::Anywhere
    } else {
        Place::Node
    }
}

// ---------------------------------------------------------------------------
// Rules that apply anywhere

/// A reference to `origin` that meets a node `target`.
pub open spec fn bridge_of(origin: Seq<char>, target: Seq<char>) -> ReconsRuleModel {
    ReconsRuleModel {
        origin,
        expansion: seq![RSymModel::Term(target)],
        steps: seq![StepModel::Consume],
    }
}

fn bridge_rule(origin: String, target: String) -> (r: ReconsRule)
    ensures
        r@ == bridge_of(origin@, target@),
{
    let mut expansion: Vec<RSym> = Vec::new();
    expansion.push(RSym::Term(target));
    let mut steps: Vec<WriteStep> = Vec::new();
    steps.push(WriteStep::Consume);
    let r = ReconsRule { origin, expansion, steps };
    proof {
        assert(r@.expansion =~= seq![RSymModel::Term(target@)]);
        assert(r@.steps =~= seq![StepModel::Consume]);
    }
    r
}

/// Whether one of the first `k` rules is of a node of that label that did not
/// collapse.
pub open spec fn bridged_by(g: RuleSet, k: nat, name: Seq<char>) -> bool {
    exists|j: int|
        0 <= j < k && scope_of(g, #[trigger] g.rules@[j]) is Uncollapsed && label_of(g.rules@[j])
            == name
}

/// The rules that apply anywhere, of the first `k` rules of a grammar.
pub open spec fn anywhere_rules(g: RuleSet, k: nat) -> Seq<ReconsRuleModel>
    decreases k,
{
    if k == 0 {
        Seq::empty()
    } else {
        let before = anywhere_rules(g, (k - 1) as nat);
        let r = g.rules@[k - 1];
        match scope_of(g, r) {
            Scope::Anywhere => before.push(turned_rule(g, r)),
            Scope::Uncollapsed => if bridged_by(g, (k - 1) as nat, label_of(r)) {
                before
            } else {
                before.push(bridge_of(label_of(r), label_of(r)))
            },
            _ => before,
        }
    }
}

/// The origins, among the first `k` rules, that collapse nodes, each once.
pub open spec fn expand1_names(g: RuleSet, k: nat) -> Seq<Seq<char>>
    decreases k,
{
    if k == 0 {
        Seq::empty()
    } else {
        let before = expand1_names(g, (k - 1) as nat);
        let r = g.rules@[k - 1];
        if r.options.expand1 && !before.contains(r.origin@) {
            before.push(r.origin@)
        } else {
            before
        }
    }
}

/// The origins, among the first `k` rules, that have an alias, each once.
pub open spec fn aliased_names(g: RuleSet, k: nat) -> Seq<Seq<char>>
    decreases k,
{
    if k == 0 {
        Seq::empty()
    } else {
        let before = aliased_names(g, (k - 1) as nat);
        let r = g.rules@[k - 1];
        if r.alias is Some && !before.contains(r.origin@) {
            before.push(r.origin@)
        } else {
            before
        }
    }
}

/// The aliases of an origin among the first `k` rules, each once.
pub open spec fn aliases_of(g: RuleSet, origin: Seq<char>, k: nat) -> Seq<Seq<char>>
    decreases k,
{
    if k == 0 {
        Seq::empty()
    } else {
        let before = aliases_of(g, origin, (k - 1) as nat);
        let r = g.rules@[k - 1];
        if r.origin@ == origin && r.alias is Some && !before.contains(label_of(r)) {
            before.push(label_of(r))
        } else {
            before
        }
    }
}

/// The bridges of the first `k` names that have none yet.
pub open spec fn late_bridges(g: RuleSet, names: Seq<Seq<char>>, k: nat) -> Seq<ReconsRuleModel>
    decreases k,
{
    if k == 0 {
        Seq::empty()
    } else {
        let before = late_bridges(g, names, (k - 1) as nat);
        if bridged_by(g, g.rules@.len(), names[k - 1]) {
            before
        } else {
            before.push(bridge_of(names[k - 1], names[k - 1]))
        }
    }
}

/// The bridges of an origin to each of its aliases, and to itself.
pub open spec fn alias_bridges(g: RuleSet, origin: Seq<char>) -> Seq<ReconsRuleModel> {
    let to = aliases_of(g, origin, g.rules@.len());
    Seq::new(to.len(), |i: int| bridge_of(origin, to[i])).push(bridge_of(origin, origin))
}

/// The bridges of the first `k` names to their aliases.
pub open spec fn all_alias_bridges(g: RuleSet, names: Seq<Seq<char>>, k: nat) -> Seq<
    ReconsRuleModel,
>
    decreases k,
{
    if k == 0 {
        Seq::empty()
    } else {
        all_alias_bridges(g, names, (k - 1) as nat) + alias_bridges(g, names[k - 1])
    }
}

/// Every rule that applies anywhere: transparent and collapsing rules, and the
/// bridges of collapsing and of aliased origins.
pub open spec fn global_rules(g: RuleSet) -> Seq<ReconsRuleModel> {
    let n = g.rules@.len();
    let collapsing = text::sorted_texts(expand1_names(g, n));
    let aliased = text::sorted_texts(aliased_names(g, n));
    anywhere_rules(g, n) + late_bridges(g, collapsing, collapsing.len()) + all_alias_bridges(
        g,
        aliased,
        aliased.len(),
    )
}

/// The rules that apply only to a node labelled `key`, of the first `k`.
pub open spec fn node_rules(g: RuleSet, key: Seq<char>, k: nat) -> Seq<ReconsRuleModel>
    decreases k,
{
    if k == 0 {
        Seq::empty()
    } else {
        let before = node_rules(g, key, (k - 1) as nat);
        let r = g.rules@[k - 1];
        if (scope_of(g, r) is Uncollapsed || scope_of(g, r) is Node) && base_of(label_of(r))
            == key {
            before.push(turned_rule(g, r))
        } else {
            before
        }
    }
}

/// Whether a list of names holds a name.
pub fn holds_name(names: &Vec<String>, name: &str) -> (r: bool)
    ensures
        r == text::texts(names@).contains(name@),
{
    let mut i: usize = 0;
    while i < names.len()
        invariant
            i <= names@.len(),
            forall|j: int| 0 <= j < i ==> (#[trigger] names@[j])@ != name@,
        decreases names.len() - i,
    {
        if same_text(&names[i], name) {
            proof {
                assert(text::texts(names@)[i as int] == name@);
            }
            return true;
        }
        i = i + 1;
    }
    proof {
        assert forall|j: int| 0 <= j < names@.len() implies text::texts(names@)[j] != name@ by {
            assert(names@[j]@ != name@);
        }
    }
    false
}

fn push_name(names: &mut Vec<String>, name: String)
    ensures
        text::texts(final(names)@) == (if text::texts(old(names)@).contains(name@) {
            text::texts(old(names)@)
        } else {
            text::texts(old(names)@).push(name@)
        }),
{
    if !holds_name(names, name.as_str()) {
        let ghost before = text::texts(names@);
        names.push(name);
        proof {
            assert(text::texts(names@) =~= before.push(name@));
        }
    }
}

fn bridged(g: &RuleSet, k: usize, name: &str) -> (r: bool)
    requires
        k <= g.rules@.len(),
    ensures
        r == bridged_by(*g, k as nat, name@),
{
    let mut i: usize = 0;
    while i < k
        invariant
            i <= k <= g.rules@.len(),
            forall|j: int|
                0 <= j < i ==> !(scope_of(*g, #[trigger] g.rules@[j]) is Uncollapsed && label_of(
                    g.rules@[j],
                ) == name@),
        decreases k - i,
    {
        let r = &g.rules[i];
        let rule = turn_rule(g, r);
        let p = find_place(g, r, &rule);
        if p == Place::Uncollapsed && same_text(&rule.origin, name) {
            proof {
                assert(scope_of(*g, g.rules@[i as int]) is Uncollapsed);
            }
            return true;
        }
        i = i + 1;
    }
    false
}

fn find_anywhere(g: &RuleSet) -> (out: Vec<ReconsRule>)
    ensures
        rule_models(out@) == anywhere_rules(*g, g.rules@.len()),
{
    let mut out: Vec<ReconsRule> = Vec::new();
    let mut i: usize = 0;
    while i < g.rules.len()
        invariant
            i <= g.rules@.len(),
            rule_models(out@) =~= anywhere_rules(*g, i as nat),
        decreases g.rules.len() - i,
    {
        let r = &g.rules[i];
        let rule = turn_rule(g, r);
        let ghost before = rule_models(out@);
        match find_place(g, r, &rule) {
            Place::Anywhere => {
                out.push(rule);
                proof {
                    assert(rule_models(out@) =~= before.push(rule@));
                }
            },
            Place::Uncollapsed => {
                if !bridged(g, i, rule.origin.as_str()) {
                    let b = bridge_rule(rule.origin.clone(), rule.origin.clone());
                    out.push(b);
                    proof {
                        assert(rule_models(out@) =~= before.push(b@));
                    }
                }
            },
            Place::Nowhere => {},
            Place::Node => {},
        }
        i = i + 1;
    }
    out
}

fn collect_names(g: &RuleSet) -> (r: (Vec<String>, Vec<String>))
    ensures
        text::texts(r.0@) == expand1_names(*g, g.rules@.len()),
        text::texts(r.1@) == aliased_names(*g, g.rules@.len()),
{
    let mut collapsing: Vec<String> = Vec::new();
    let mut aliased: Vec<String> = Vec::new();
    let mut i: usize = 0;
    while i < g.rules.len()
        invariant
            i <= g.rules@.len(),
            text::texts(collapsing@) =~= expand1_names(*g, i as nat),
            text::texts(aliased@) =~= aliased_names(*g, i as nat),
        decreases g.rules.len() - i,
    {
        if g.rules[i].options.expand1 {
            push_name(&mut collapsing, g.rules[i].origin.clone());
        }
        if g.rules[i].alias.is_some() {
            push_name(&mut aliased, g.rules[i].origin.clone());
        }
        i = i + 1;
    }
    (collapsing, aliased)
}

fn push_late_bridges(g: &RuleSet, names: &Vec<String>, out: &mut Vec<ReconsRule>)
    ensures
        rule_models(final(out)@) == rule_models(old(out)@) + late_bridges(
            *g,
            text::texts(names@),
            names@.len(),
        ),
{
    let ghost start = rule_models(out@);
    let n: usize = g.rules.len();
    let mut i: usize = 0;
    proof {
        assert(start + late_bridges(*g, text::texts(names@), 0) =~= start);
    }
    while i < names.len()
        invariant
            i <= names@.len(),
            n == g.rules@.len(),
            rule_models(out@) == start + late_bridges(*g, text::texts(names@), i as nat),
        decreases names.len() - i,
    {
        proof {
            assert(text::texts(names@)[i as int] == names@[i as int]@);
        }
        if !bridged(g, n, names[i].as_str()) {
            let ghost before = rule_models(out@);
            let b = bridge_rule(names[i].clone(), names[i].clone());
            out.push(b);
            proof {
                assert(rule_models(out@) =~= before.push(b@));
                assert(rule_models(out@) =~= start + late_bridges(
                    *g,
                    text::texts(names@),
                    (i + 1) as nat,
                ));
            }
        }
        i = i + 1;
    }
}

fn find_aliases(g: &RuleSet, origin: &str) -> (r: Vec<String>)
    ensures
        text::texts(r@) == aliases_of(*g, origin@, g.rules@.len()),
{
    let mut r: Vec<String> = Vec::new();
    let mut i: usize = 0;
    while i < g.rules.len()
        invariant
            i <= g.rules@.len(),
            text::texts(r@) =~= aliases_of(*g, origin@, i as nat),
        decreases g.rules.len() - i,
    {
        if same_text(&g.rules[i].origin, origin) {
            if let Some(a) = &g.rules[i].alias {
                push_name(&mut r, a.clone());
            }
        }
        i = i + 1;
    }
    r
}

fn push_alias_bridges(g: &RuleSet, names: &Vec<String>, out: &mut Vec<ReconsRule>)
    ensures
        rule_models(final(out)@) == rule_models(old(out)@) + all_alias_bridges(
            *g,
            text::texts(names@),
            names@.len(),
        ),
{
    let ghost start = rule_models(out@);
    let ghost all = text::texts(names@);
    let mut i: usize = 0;
    proof {
        assert(start + all_alias_bridges(*g, all, 0) =~= start);
    }
    while i < names.len()
        invariant
            i <= names@.len(),
            all == text::texts(names@),
            rule_models(out@) == start + all_alias_bridges(*g, all, i as nat),
        decreases names.len() - i,
    {
        let origin = &names[i];
        let to = find_aliases(g, origin.as_str());
        let ghost before = rule_models(out@);
        let ghost one = Seq::new(to@.len(), |k: int| bridge_of(origin@, text::texts(to@)[k]));
        proof {
            assert(all[i as int] == origin@);
            assert(before + one.take(0) =~= before);
        }
        let mut j: usize = 0;
        while j < to.len()
            invariant
                j <= to@.len(),
                one == Seq::new(to@.len(), |k: int| bridge_of(origin@, text::texts(to@)[k])),
                rule_models(out@) == before + one.take(j as int),
            decreases to.len() - j,
        {
            let ghost now = rule_models(out@);
            let b = bridge_rule(origin.clone(), to[j].clone());
            out.push(b);
            proof {
                assert(rule_models(out@) =~= now.push(b@));
                assert(one.take(j + 1) =~= one.take(j as int).push(one[j as int]));
                assert(rule_models(out@) =~= before + one.take(j + 1));
            }
            j = j + 1;
        }
        let b = bridge_rule(origin.clone(), origin.clone());
        let ghost now = rule_models(out@);
        out.push(b);
        proof {
            assert(one.take(to@.len() as int) =~= one);
            assert(rule_models(out@) =~= now.push(b@));
            assert(alias_bridges(*g, origin@) =~= one.push(b@));
            assert(rule_models(out@) =~= start + all_alias_bridges(*g, all, (i + 1) as nat));
        }
        i = i + 1;
    }
}

/// The rules that apply anywhere.
pub fn find_global_rules(g: &RuleSet) -> (out: Vec<ReconsRule>)
    ensures
        rule_models(out@) == global_rules(*g),
{
    let mut out = find_anywhere(g);
    let (collapsing, aliased) = collect_names(g);
    let collapsing = sort_names(collapsing);
    let aliased = sort_names(aliased);
    push_late_bridges(g, &collapsing, &mut out);
    push_alias_bridges(g, &aliased, &mut out);
    proof {
        assert(text::texts(collapsing@).len() == collapsing@.len());
        assert(text::texts(aliased@).len() == aliased@.len());
    }
    out
}

/// The rules that apply only to a node labelled `key`.
pub fn find_node_rules(g: &RuleSet, key: &str) -> (out: Vec<ReconsRule>)
    ensures
        rule_models(out@) == node_rules(*g, key@, g.rules@.len()),
{
    let mut out: Vec<ReconsRule> = Vec::new();
    let mut i: usize = 0;
    while i < g.rules.len()
        invariant
            i <= g.rules@.len(),
            rule_models(out@) =~= node_rules(*g, key@, i as nat),
        decreases g.rules.len() - i,
    {
        let r = &g.rules[i];
        let rule = turn_rule(g, r);
        let p = find_place(g, r, &rule);
        if p == Place::Uncollapsed || p == Place::Node {
            let base = base_name(rule.origin.as_str());
            if same_text(&base, key) {
                let ghost before = rule_models(out@);
                out.push(rule);
                proof {
                    assert(rule_models(out@) =~= before.push(rule@));
                }
            }
        }
        i = i + 1;
    }
    out
}

/// The base name of the label of a rule that applies to nodes of that name.
pub open spec fn node_key(g: RuleSet, i: int) -> Option<Seq<char>> {
    let r = g.rules@[i];
    if scope_of(g, r) is Uncollapsed || scope_of(g, r) is Node {
        Some(base_of(label_of(r)))
    } else {
        None
    }
}

/// The labels of the nodes that rules apply to, each once.
pub fn find_keys(g: &RuleSet) -> (r: Vec<String>)
    ensures
        forall|i: int|
            0 <= i < g.rules@.len() ==> (#[trigger] node_key(*g, i) matches Some(key)
                ==> text::texts(r@).contains(key)),
{
    let mut r: Vec<String> = Vec::new();
    let mut i: usize = 0;
    while i < g.rules.len()
        invariant
            i <= g.rules@.len(),
            forall|k: int|
                0 <= k < i ==> (#[trigger] node_key(*g, k) matches Some(key) ==> text::texts(
                    r@,
                ).contains(key)),
        decreases g.rules.len() - i,
    {
        let rule = turn_rule(g, &g.rules[i]);
        let p = find_place(g, &g.rules[i], &rule);
        if p == Place::Uncollapsed || p == Place::Node {
            let base = base_name(rule.origin.as_str());
            let ghost before = text::texts(r@);
            push_name(&mut r, base);
            proof {
                let after = text::texts(r@);
                if !before.contains(base@) {
                    assert(after[before.len() as int] == base@);
                }
                assert(after.contains(base@));
                assert forall|k: int| 0 <= k < i + 1 implies (#[trigger] node_key(*g, k) matches Some(
                    key,
                ) ==> after.contains(key)) by {
                    if k < i {
                        if let Some(key) = node_key(*g, k) {
                            let q = choose|q: int| 0 <= q < before.len() && before[q] == key;
                            assert(after[q] == key);
                        }
                    }
                }
            }
        }
        i = i + 1;
    }
    r
}

/// No rule applies to nodes with a label that is no key.
pub proof fn lemma_no_node_rules(g: RuleSet, key: Seq<char>, k: nat)
    requires
        k <= g.rules@.len(),
        forall|i: int| 0 <= i < g.rules@.len() ==> #[trigger] node_key(g, i) != Some(key),
    ensures
        node_rules(g, key, k) == Seq::<ReconsRuleModel>::empty(),
    decreases k,
{
    if k > 0 {
        lemma_no_node_rules(g, key, (k - 1) as nat);
        assert(node_key(g, k - 1) != Some(key));
    }
}

// ---------------------------------------------------------------------------
// What is known by name

/// Whether a reconstructor of a grammar with substitutions knows a name.
pub open spec fn is_known(
    g: RuleSet,
    subs: Seq<(Seq<char>, Seq<char>)>,
    name: Seq<char>,
) -> bool {
    ||| exists|i: int| 0 <= i < g.terminals@.len() && (#[trigger] g.terminals@[i]).name@ == name
    ||| exists|i: int| 0 <= i < subs.len() && (#[trigger] subs[i]).0 == name
    ||| exists|i: int| 0 <= i < g.rules@.len() && #[trigger] names_in(g, i, name)
}

/// Whether a rule brings a name in: that of a symbol, of its origin, of its
/// alias, or of its nodes.
pub open spec fn names_in(g: RuleSet, i: int, name: Seq<char>) -> bool {
    let r = g.rules@[i];
    ||| r.origin@ == name
    ||| label_of(r) == name
    ||| !(scope_of(g, r) is Nowhere) && base_of(label_of(r)) == name
    ||| exists|k: int| 0 <= k < r.expansion@.len() && #[trigger] symbol_name(r.expansion@[k]) == name
}

fn rule_names(g: &RuleSet, i: usize, out: &mut Vec<String>)
    requires
        i < g.rules@.len(),
    ensures
        forall|x: Seq<char>| #[trigger]
            text::texts(final(out)@).contains(x) <==> text::texts(old(out)@).contains(x)
                || names_in(*g, i as int, x),
{
    let r = &g.rules[i];
    let ghost start = text::texts(out@);
    let mut k: usize = 0;
    while k < r.expansion.len()
        invariant
            k <= r.expansion@.len(),
            forall|x: Seq<char>| #[trigger]
                text::texts(out@).contains(x) <==> start.contains(x) || exists|j: int|
                    0 <= j < k && #[trigger] symbol_name(r.expansion@[j]) == x,
        decreases r.expansion.len() - k,
    {
        let ghost before = text::texts(out@);
        let name = name_of_symbol(&r.expansion[k]);
        push_name(out, name);
        proof {
            lemma_pushed(before, text::texts(out@), name@);
            assert forall|x: Seq<char>| #[trigger] text::texts(out@).contains(x) <==> start.contains(
                x,
            ) || exists|j: int| 0 <= j < k + 1 && #[trigger] symbol_name(r.expansion@[j]) == x by {
                if x == symbol_name(r.expansion@[k as int]) {
                }
            }
        }
        k = k + 1;
    }
    let rule = turn_rule(g, r);
    let p = find_place(g, r, &rule);
    let ghost b0 = text::texts(out@);
    push_name(out, r.origin.clone());
    proof {
        lemma_pushed(b0, text::texts(out@), r.origin@);
    }
    let ghost b1 = text::texts(out@);
    let base = base_name(rule.origin.as_str());
    push_name(out, rule.origin);
    proof {
        lemma_pushed(b1, text::texts(out@), rule@.origin);
    }
    if p != Place::Nowhere {
        let ghost b2 = text::texts(out@);
        push_name(out, base);
        proof {
            lemma_pushed(b2, text::texts(out@), base@);
        }
    }
}

proof fn lemma_pushed(before: Seq<Seq<char>>, after: Seq<Seq<char>>, name: Seq<char>)
    requires
        after == (if before.contains(name) {
            before
        } else {
            before.push(name)
        }),
    ensures
        forall|x: Seq<char>| #[trigger] after.contains(x) <==> before.contains(x) || x == name,
{
    assert forall|x: Seq<char>| #[trigger] after.contains(x) <==> before.contains(x) || x
        == name by {
        if before.contains(x) {
            let q = choose|q: int| 0 <= q < before.len() && before[q] == x;
            assert(after[q] == x);
        }
        if x == name && !before.contains(name) {
            assert(after[before.len() as int] == x);
        }
    }
}

/// The contents of substitutions.
pub open spec fn sub_models(s: Seq<(String, String)>) -> Seq<(Seq<char>, Seq<char>)> {
    Seq::new(s.len(), |i: int| (s[i].0@, s[i].1@))
}

/// Every name that is known.
pub fn find_names(g: &RuleSet, subs: &Vec<(String, String)>) -> (out: Vec<String>)
    ensures
        forall|x: Seq<char>| #[trigger]
            text::texts(out@).contains(x) <==> is_known(*g, sub_models(subs@), x),
{
    let ghost s = sub_models(subs@);
    let mut out: Vec<String> = Vec::new();
    let mut i: usize = 0;
    while i < g.terminals.len()
        invariant
            i <= g.terminals@.len(),
            forall|x: Seq<char>| #[trigger]
                text::texts(out@).contains(x) <==> exists|j: int|
                    0 <= j < i && (#[trigger] g.terminals@[j]).name@ == x,
        decreases g.terminals.len() - i,
    {
        let ghost before = text::texts(out@);
        push_name(&mut out, g.terminals[i].name.clone());
        proof {
            lemma_pushed(before, text::texts(out@), g.terminals@[i as int].name@);
        }
        i = i + 1;
    }
    let ghost first = text::texts(out@);
    let mut k: usize = 0;
    while k < subs.len()
        invariant
            k <= subs@.len(),
            s == sub_models(subs@),
            forall|x: Seq<char>| #[trigger]
                text::texts(out@).contains(x) <==> first.contains(x) || exists|j: int|
                    0 <= j < k && (#[trigger] s[j]).0 == x,
        decreases subs.len() - k,
    {
        let ghost before = text::texts(out@);
        push_name(&mut out, subs[k].0.clone());
        proof {
            lemma_pushed(before, text::texts(out@), subs@[k as int].0@);
            assert(s[k as int].0 == subs@[k as int].0@);
        }
        k = k + 1;
    }
    let ghost second = text::texts(out@);
    let mut r: usize = 0;
    while r < g.rules.len()
        invariant
            r <= g.rules@.len(),
            forall|x: Seq<char>| #[trigger]
                text::texts(out@).contains(x) <==> second.contains(x) || exists|j: int|
                    0 <= j < r && #[trigger] names_in(*g, j, x),
        decreases g.rules.len() - r,
    {
        rule_names(g, r, &mut out);
        r = r + 1;
    }
    out
}

} // verus!
