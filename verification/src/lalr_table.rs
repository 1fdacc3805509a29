//! LALR(1) parse tables: which action a state takes on a terminal, and which
//! state a nonterminal leads to.

use vstd::prelude::*;
use crate::bits::blank_row;
use crate::error::GrammarError;
use crate::lookahead;
use crate::lookahead::Lookaheads;
use crate::lr0;
use crate::lr0::{build_automaton, Automaton, LR0Item};
use crate::perf;
use crate::perf::Counters;
use crate::symbols;
use crate::symbols::{
    copy_ids, copy_rules, CompiledGrammar, CompiledRule, SymbolId, SymbolTable,
};
use crate::text;
use crate::text::{join, owned, push_decimal};

verus! {

/// What the parser does on a terminal.
#[derive(Clone, Copy, PartialEq, Eq, Debug, Structural)]
pub enum Action {
    /// Shift the token and go to the state.
    Shift(usize),
    /// Reduce by the rule with that number.
    Reduce(usize),
    /// The input is accepted.
    Accept,
}

/// A parse table. Rows list their entries in ascending order.
pub struct ParseTable {
    pub action: Vec<Vec<(u32, Action)>>,
    pub goto: Vec<Vec<(u32, usize)>>,
    pub start_states: Vec<(SymbolId, usize)>,
    pub starts: Vec<SymbolId>,
    pub rules: Vec<CompiledRule>,
    pub symbols: SymbolTable,
    pub n_terminals: usize,
    pub propagate_positions: bool,
}

// ---------------------------------------------------------------------------
// What each entry is

/// The first start rule for the symbol `s`: a start rule that expands to it.
pub open spec fn is_start_rule(rules: Seq<symbols::RuleModel>, s: SymbolId, r: int) -> bool {
    rules[r].is_start && rules[r].expansion == seq![s]
}

/// The number of the first start rule for `s` among the rules from `from` on.
pub open spec fn start_rule_from(
    rules: Seq<symbols::RuleModel>,
    s: SymbolId,
    from: int,
) -> Option<usize>
    decreases rules.len() - from,
{
    if from < 0 || from >= rules.len() {
        None
    } else if is_start_rule(rules, s, from) {
        Some(from as usize)
    } else {
        start_rule_from(rules, s, from + 1)
    }
}

/// The start symbols that have a start rule, each with the number of that rule.
pub open spec fn start_rules(rules: Seq<symbols::RuleModel>, start: Seq<SymbolId>) -> Seq<
    (SymbolId, usize),
>
    decreases start.len(),
{
    if start.len() == 0 {
        Seq::empty()
    } else {
        let head = start_rules(rules, start.drop_last());
        match start_rule_from(rules, start.last(), 0) {
            Some(r) => head.push((start.last(), r)),
            None => head,
        }
    }
}

/// The item of rule `r` with the dot at its end.
pub open spec fn end_item(rules: Seq<symbols::RuleModel>, r: int) -> LR0Item {
    LR0Item { rule_idx: r as usize, dot: rules[r].expansion.len() as usize }
}

/// Whether state `s` accepts at the end of input: a start rule is complete.
pub open spec fn accepts_in(rules: Seq<symbols::RuleModel>, a: Automaton, s: int) -> bool {
    exists|it: LR0Item| #[trigger]
        a.items(s).contains(it) && lr0::complete(rules, it) && rules[it.rule_idx as int].is_start
}

/// The move on terminal `t`, before reductions are considered.
pub open spec fn shift_or_accept(
    rules: Seq<symbols::RuleModel>,
    a: Automaton,
    s: int,
    t: SymbolId,
) -> Option<Action> {
    if t == SymbolId::end() && accepts_in(rules, a, s) {
        Some(Action::Accept)
    } else {
        match a.target(s, t) {
            Some(q) => Some(Action::Shift(q)),
            None => None,
        }
    }
}

/// Whether state `s` may reduce by rule `r` on terminal `t`.
pub open spec fn may_reduce(
    rules: Seq<symbols::RuleModel>,
    nt: nat,
    a: Automaton,
    s: int,
    t: SymbolId,
    r: int,
) -> bool {
    &&& 0 <= r < rules.len()
    &&& !rules[r].is_start
    &&& a.items(s).contains(end_item(rules, r))
    &&& lookahead::follows(rules, nt, a, s, end_item(rules, r), t)
}

/// Whether rule `q` stands before rule `r` among rules of the same production.
pub open spec fn supersedes(rules: Seq<symbols::RuleModel>, q: int, r: int) -> bool {
    &&& rules[q].origin == rules[r].origin
    &&& rules[q].expansion == rules[r].expansion
    &&& (rules[q].order < rules[r].order || (rules[q].order == rules[r].order && q < r))
}

/// Whether rule `r` is the one to reduce by among those of its production.
pub open spec fn represents(
    rules: Seq<symbols::RuleModel>,
    nt: nat,
    a: Automaton,
    s: int,
    t: SymbolId,
    r: int,
) -> bool {
    &&& may_reduce(rules, nt, a, s, t, r)
    &&& forall|q: int| #[trigger] may_reduce(rules, nt, a, s, t, q) ==> !supersedes(rules, q, r)
}

/// Whether rule `r` wins among the productions that compete on `t`: its
/// priority is above that of every other.
pub open spec fn wins(
    rules: Seq<symbols::RuleModel>,
    nt: nat,
    a: Automaton,
    s: int,
    t: SymbolId,
    r: int,
) -> bool {
    &&& represents(rules, nt, a, s, t, r)
    &&& forall|q: int| #[trigger]
        represents(rules, nt, a, s, t, q) && q != r ==> rules[q].priority < rules[r].priority
}

/// The entry of state `s` for terminal `t`. A move beats a reduction.
pub open spec fn entry(
    rules: Seq<symbols::RuleModel>,
    nt: nat,
    a: Automaton,
    s: int,
    t: SymbolId,
) -> Option<Action> {
    if shift_or_accept(rules, a, s, t) is Some {
        shift_or_accept(rules, a, s, t)
    } else if exists|r: int| wins(rules, nt, a, s, t, r) {
        Some(Action::Reduce((choose|r: int| wins(rules, nt, a, s, t, r)) as usize))
    } else {
        None
    }
}

/// Two rules cannot both win.
proof fn lemma_wins_unique(
    rules: Seq<symbols::RuleModel>,
    nt: nat,
    a: Automaton,
    s: int,
    t: SymbolId,
    q: int,
    r: int,
)
    requires
        wins(rules, nt, a, s, t, q),
        wins(rules, nt, a, s, t, r),
    ensures
        q == r,
{
    if q != r {
        assert(represents(rules, nt, a, s, t, q));
        assert(represents(rules, nt, a, s, t, r));
    }
}

/// The competing productions among the first `n` rules, in ascending order.
pub open spec fn rivals(
    rules: Seq<symbols::RuleModel>,
    nt: nat,
    a: Automaton,
    s: int,
    t: SymbolId,
    n: nat,
) -> Seq<int>
    decreases n,
{
    if n == 0 {
        Seq::empty()
    } else {
        let head = rivals(rules, nt, a, s, t, (n - 1) as nat);
        if represents(rules, nt, a, s, t, n - 1) {
            head.push(n - 1)
        } else {
            head
        }
    }
}

// ---------------------------------------------------------------------------
// Conflict reports

/// The names of a list of symbols, a space before each.
pub open spec fn spaced_names(infos: Seq<symbols::SymbolInfo>, syms: Seq<SymbolId>) -> Seq<char>
    decreases syms.len(),
{
    if syms.len() == 0 {
        Seq::empty()
    } else {
        spaced_names(infos, syms.drop_last()) + " "@ + symbols::name_of(infos, syms.last())
    }
}

/// A rule as text: `<origin : symbols>`.
pub open spec fn rule_text(infos: Seq<symbols::SymbolInfo>, rule: symbols::RuleModel) -> Seq<char> {
    "<"@ + symbols::name_of(infos, rule.origin) + " :"@ + spaced_names(infos, rule.expansion)
        + ">"@
}

/// A list of rules as text, one per line.
pub open spec fn rule_lines(
    infos: Seq<symbols::SymbolInfo>,
    rules: Seq<symbols::RuleModel>,
    which: Seq<int>,
) -> Seq<char>
    decreases which.len(),
{
    if which.len() == 0 {
        Seq::empty()
    } else {
        rule_lines(infos, rules, which.drop_last()) + "\n\t- "@ + rule_text(
            infos,
            rules[which.last()],
        )
    }
}

/// The report of rules that compete on `t` without a winner.
pub open spec fn collision_text(
    infos: Seq<symbols::SymbolInfo>,
    rules: Seq<symbols::RuleModel>,
    s: nat,
    t: SymbolId,
    which: Seq<int>,
) -> Seq<char> {
    "Reduce/Reduce collision in state "@ + text::decimal_text(s) + " for terminal "@
        + symbols::name_of(infos, t) + ":"@ + rule_lines(infos, rules, which)
}

/// The report of a reduction that a move hides.
pub open spec fn shift_reduce_text(
    infos: Seq<symbols::SymbolInfo>,
    rule: symbols::RuleModel,
    t: SymbolId,
) -> Seq<char> {
    "Shift/Reduce conflict for terminal "@ + symbols::name_of(infos, t) + ". [strict-mode]\n * "@
        + rule_text(infos, rule)
}

/// What is wrong with the entry of state `s` for terminal `t`.
pub open spec fn entry_conflict(
    infos: Seq<symbols::SymbolInfo>,
    rules: Seq<symbols::RuleModel>,
    nt: nat,
    a: Automaton,
    strict: bool,
    s: int,
    t: SymbolId,
) -> Option<Seq<char>> {
    let which = rivals(rules, nt, a, s, t, rules.len());
    if exists|r: int| wins(rules, nt, a, s, t, r) {
        if strict && shift_or_accept(rules, a, s, t) is Some {
            Some(
                shift_reduce_text(
                    infos,
                    rules[choose|r: int| wins(rules, nt, a, s, t, r)],
                    t,
                ),
            )
        } else {
            None
        }
    } else if which.len() > 0 {
        Some(collision_text(infos, rules, s as nat, t, which))
    } else {
        None
    }
}

/// What is wrong with the entries of state `s` for the first `n` terminals.
pub open spec fn state_conflicts(
    infos: Seq<symbols::SymbolInfo>,
    rules: Seq<symbols::RuleModel>,
    nt: nat,
    a: Automaton,
    strict: bool,
    s: int,
    n: nat,
) -> Seq<Seq<char>>
    decreases n,
{
    if n == 0 {
        Seq::empty()
    } else {
        let head = state_conflicts(infos, rules, nt, a, strict, s, (n - 1) as nat);
        match entry_conflict(infos, rules, nt, a, strict, s, SymbolId((n - 1) as u32)) {
            Some(c) => head.push(c),
            None => head,
        }
    }
}

/// What is wrong with the entries of the first `m` states.
pub open spec fn conflicts(
    infos: Seq<symbols::SymbolInfo>,
    rules: Seq<symbols::RuleModel>,
    nt: nat,
    a: Automaton,
    strict: bool,
    m: nat,
) -> Seq<Seq<char>>
    decreases m,
{
    if m == 0 {
        Seq::empty()
    } else {
        conflicts(infos, rules, nt, a, strict, (m - 1) as nat) + state_conflicts(
            infos,
            rules,
            nt,
            a,
            strict,
            m - 1,
            nt,
        )
    }
}

// ---------------------------------------------------------------------------
// Rows

/// The entries of state `s` for the first `n` terminals, in ascending order.
pub open spec fn action_row(
    rules: Seq<symbols::RuleModel>,
    nt: nat,
    a: Automaton,
    s: int,
    n: nat,
) -> Seq<(u32, Action)>
    decreases n,
{
    if n == 0 {
        Seq::empty()
    } else {
        let head = action_row(rules, nt, a, s, (n - 1) as nat);
        match entry(rules, nt, a, s, SymbolId((n - 1) as u32)) {
            Some(e) => head.push(((n - 1) as u32, e)),
            None => head,
        }
    }
}

/// The moves of state `s` over the first `n` nonterminals, in ascending order.
pub open spec fn goto_row(nt: nat, a: Automaton, s: int, n: nat) -> Seq<(u32, usize)>
    decreases n,
{
    if n == 0 {
        Seq::empty()
    } else {
        let head = goto_row(nt, a, s, (n - 1) as nat);
        match a.target(s, SymbolId((nt + n - 1) as u32)) {
            Some(q) => head.push(((n - 1) as u32, q)),
            None => head,
        }
    }
}

/// The first entry of a row under the key `k`.
pub open spec fn row_find<T>(row: Seq<(u32, T)>, k: u32) -> Option<T>
    decreases row.len(),
{
    if row.len() == 0 {
        None
    } else if row[0].0 == k {
        Some(row[0].1)
    } else {
        row_find(row.drop_first(), k)
    }
}

impl ParseTable {
    /// The rules as mathematical values.
    pub open spec fn models(&self) -> Seq<symbols::RuleModel> {
        symbols::rule_models(self.rules@)
    }

    /// The action of state `s` on terminal `t`.
    pub open spec fn action_for(&self, s: int, t: SymbolId) -> Option<Action> {
        if 0 <= s < self.action@.len() {
            row_find(self.action@[s]@, t.0)
        } else {
            None
        }
    }

    /// The state that nonterminal number `n` leads to from state `s`.
    pub open spec fn goto_for(&self, s: int, n: u32) -> Option<usize> {
        if 0 <= s < self.goto@.len() {
            row_find(self.goto@[s]@, n)
        } else {
            None
        }
    }

    /// Whether this is the table of automaton `a`.
    pub open spec fn tabulates(&self, a: Automaton) -> bool {
        let rules = self.models();
        let nt = self.n_terminals as nat;
        &&& symbols::grammar_wf(rules, self.symbols@.len(), nt, self.starts@)
        &&& symbols::names_differ(self.symbols@)
        &&& symbols::starts_are_fresh(rules)
        &&& a.wf(rules, start_rules(rules, self.starts@))
        &&& self.action@.len() == a.states@.len()
        &&& self.goto@.len() == a.states@.len()
        &&& forall|s: int|
            0 <= s < a.states@.len() ==> (#[trigger] self.action@[s])@ == action_row(
                rules,
                nt,
                a,
                s,
                nt,
            )
        &&& forall|s: int|
            0 <= s < a.states@.len() ==> (#[trigger] self.goto@[s])@ == goto_row(
                nt,
                a,
                s,
                (self.symbols@.len() - nt) as nat,
            )
        &&& self.start_states@.len() == a.start_states@.len()
        &&& forall|i: int|
            0 <= i < a.start_states@.len() ==> #[trigger] self.start_states@[i] == (
                start_rules(rules, self.starts@)[i].0,
                a.start_states@[i],
            )
    }

    /// Whether this is the LALR(1) table of its rules.
    pub open spec fn wf(&self) -> bool {
        exists|a: Automaton| #[trigger] self.tabulates(a)
    }

    /// The action of a state on a terminal.
    pub fn action_at(&self, state: usize, terminal: SymbolId) -> (r: Option<Action>)
        ensures
            r == self.action_for(state as int, terminal),
    {
        if state >= self.action.len() {
            return None;
        }
        let row = &self.action[state];
        let mut i: usize = 0;
        proof {
            assert(row@.skip(0) =~= row@);
        }
        while i < row.len()
            invariant
                i <= row.len(),
                state < self.action@.len(),
                row@ == self.action@[state as int]@,
                row_find(row@, terminal.0) == row_find(row@.skip(i as int), terminal.0),
            decreases row.len() - i,
        {
            proof {
                assert(row@.skip(i as int).drop_first() =~= row@.skip(i + 1));
            }
            if row[i].0 == terminal.0 {
                return Some(row[i].1);
            }
            i = i + 1;
        }
        None
    }

    /// The state that a nonterminal leads to.
    pub fn goto_at(&self, state: usize, nt_index: u32) -> (r: Option<usize>)
        ensures
            r == self.goto_for(state as int, nt_index),
    {
        if state >= self.goto.len() {
            return None;
        }
        let row = &self.goto[state];
        let mut i: usize = 0;
        proof {
            assert(row@.skip(0) =~= row@);
        }
        while i < row.len()
            invariant
                i <= row.len(),
                state < self.goto@.len(),
                row@ == self.goto@[state as int]@,
                row_find(row@, nt_index) == row_find(row@.skip(i as int), nt_index),
            decreases row.len() - i,
        {
            proof {
                assert(row@.skip(i as int).drop_first() =~= row@.skip(i + 1));
            }
            if row[i].0 == nt_index {
                return Some(row[i].1);
            }
            i = i + 1;
        }
        None
    }
}

// ---------------------------------------------------------------------------
// Construction

fn expands_to(rule: &CompiledRule, s: SymbolId) -> (r: bool)
    ensures
        r == (rule@.is_start && rule@.expansion == seq![s]),
{
    if rule.is_start && rule.expansion.len() == 1 && rule.expansion[0] == s {
        proof {
            assert(rule@.expansion =~= seq![s]);
        }
        true
    } else {
        proof {
            if rule@.expansion == seq![s] {
                assert(rule@.expansion[0] == s);
            }
        }
        false
    }
}

/// The start symbols that have a start rule, each with the number of that rule.
pub fn find_starts(rules: &Vec<CompiledRule>, start: &Vec<SymbolId>) -> (r: Vec<(SymbolId, usize)>)
    ensures
        r@ == start_rules(symbols::rule_models(rules@), start@),
        forall|i: int| 0 <= i < r@.len() ==> (#[trigger] r@[i]).1 < rules@.len(),
{
    let ghost models = symbols::rule_models(rules@);
    let mut r: Vec<(SymbolId, usize)> = Vec::new();
    let mut i: usize = 0;
    proof {
        assert(start@.take(0) =~= Seq::empty());
    }
    while i < start.len()
        invariant
            i <= start.len(),
            models == symbols::rule_models(rules@),
            r@ == start_rules(models, start@.take(i as int)),
            forall|i: int| 0 <= i < r@.len() ==> (#[trigger] r@[i]).1 < rules@.len(),
        decreases start.len() - i,
    {
        let s = start[i];
        let mut q: usize = 0;
        let mut found: Option<usize> = None;
        while q < rules.len() && found.is_none()
            invariant
                q <= rules.len(),
                models == symbols::rule_models(rules@),
                match found {
                    Some(f) => f < rules@.len() && start_rule_from(models, s, 0) == Some(f),
                    None => start_rule_from(models, s, 0) == start_rule_from(models, s, q as int),
                },
            decreases rules.len() - q,
        {
            proof {
                assert(models[q as int] == rules@[q as int]@);
            }
            if expands_to(&rules[q], s) {
                found = Some(q);
            }
            q = q + 1;
        }
        proof {
            assert(start@.take(i + 1).drop_last() =~= start@.take(i as int));
            assert(start@.take(i + 1).last() == s);
        }
        if let Some(f) = found {
            r.push((s, f));
        }
        i = i + 1;
    }
    proof {
        assert(start@.take(start@.len() as int) =~= start@);
    }
    r
}

/// A rule as text.
pub fn rule_to_text(symbols: &SymbolTable, rule: &CompiledRule) -> (r: String)
    ensures
        r@ == rule_text(symbols@, rule@),
{
    let mut r = owned("<");
    r.append(symbols.name_owned(rule.origin).as_str());
    r.append(" :");
    let ghost head = r@;
    let mut i: usize = 0;
    proof {
        assert(rule.expansion@.take(0) =~= Seq::empty());
        assert(head =~= head + spaced_names(symbols@, Seq::empty()));
    }
    while i < rule.expansion.len()
        invariant
            i <= rule.expansion.len(),
            r@ == head + spaced_names(symbols@, rule.expansion@.take(i as int)),
        decreases rule.expansion.len() - i,
    {
        let ghost before = r@;
        r.append(" ");
        r.append(symbols.name_owned(rule.expansion[i]).as_str());
        proof {
            let e = rule.expansion@;
            assert(e.take(i + 1).drop_last() =~= e.take(i as int));
            assert(r@ =~= head + spaced_names(symbols@, e.take(i + 1)));
        }
        i = i + 1;
    }
    r.append(">");
    proof {
        assert(rule.expansion@.take(rule.expansion@.len() as int) =~= rule.expansion@);
        assert(r@ =~= rule_text(symbols@, rule@));
    }
    r
}

fn collision_report(
    grammar: &CompiledGrammar,
    s: usize,
    t: SymbolId,
    which: &Vec<usize>,
) -> (r: String)
    requires
        forall|i: int| 0 <= i < which@.len() ==> (#[trigger] which@[i]) < grammar.rules@.len(),
    ensures
        r@ == collision_text(
            grammar.symbols@,
            grammar.models(),
            s as nat,
            t,
            Seq::new(which@.len(), |i: int| which@[i] as int),
        ),
{
    let ghost infos = grammar.symbols@;
    let ghost rules = grammar.models();
    let ghost w = Seq::new(which@.len(), |i: int| which@[i] as int);
    let mut r = owned("Reduce/Reduce collision in state ");
    push_decimal(&mut r, s);
    r.append(" for terminal ");
    r.append(grammar.symbols.name_owned(t).as_str());
    r.append(":");
    let ghost head = r@;
    let mut i: usize = 0;
    proof {
        assert(w.take(0) =~= Seq::empty());
        assert(head =~= head + rule_lines(infos, rules, Seq::empty()));
    }
    while i < which.len()
        invariant
            i <= which.len(),
            infos == grammar.symbols@,
            rules == grammar.models(),
            w == Seq::new(which@.len(), |i: int| which@[i] as int),
            forall|i: int| 0 <= i < which@.len() ==> (#[trigger] which@[i]) < grammar.rules@.len(),
            r@ == head + rule_lines(infos, rules, w.take(i as int)),
        decreases which.len() - i,
    {
        r.append("\n\t- ");
        r.append(rule_to_text(&grammar.symbols, &grammar.rules[which[i]]).as_str());
        proof {
            assert(w.take(i + 1).drop_last() =~= w.take(i as int));
            assert(w.take(i + 1).last() == which@[i as int]);
            assert(rules[which@[i as int] as int] == grammar.rules@[which@[i as int] as int]@);
            assert(r@ =~= head + rule_lines(infos, rules, w.take(i + 1)));
        }
        i = i + 1;
    }
    proof {
        assert(w.take(w.len() as int) =~= w);
        assert(r@ =~= collision_text(infos, rules, s as nat, t, w));
    }
    r
}

fn shift_reduce_report(grammar: &CompiledGrammar, t: SymbolId, winner: usize) -> (r: String)
    requires
        winner < grammar.rules@.len(),
    ensures
        r@ == shift_reduce_text(grammar.symbols@, grammar.models()[winner as int], t),
{
    let mut r = owned("Shift/Reduce conflict for terminal ");
    r.append(grammar.symbols.name_owned(t).as_str());
    r.append(". [strict-mode]\n * ");
    r.append(rule_to_text(&grammar.symbols, &grammar.rules[winner]).as_str());
    proof {
        assert(r@ =~= shift_reduce_text(grammar.symbols@, grammar.models()[winner as int], t));
    }
    r
}

fn same_production(a: &CompiledRule, b: &CompiledRule) -> (r: bool)
    ensures
        r == (a@.origin == b@.origin && a@.expansion == b@.expansion),
{
    if a.origin != b.origin || a.expansion.len() != b.expansion.len() {
        return false;
    }
    let mut i: usize = 0;
    while i < a.expansion.len()
        invariant
            i <= a.expansion.len(),
            a.expansion@.len() == b.expansion@.len(),
            forall|k: int| 0 <= k < i ==> #[trigger] a.expansion@[k] == b.expansion@[k],
        decreases a.expansion.len() - i,
    {
        if a.expansion[i] != b.expansion[i] {
            return false;
        }
        i = i + 1;
    }
    proof {
        assert(a.expansion@ =~= b.expansion@);
    }
    true
}

/// Marks the rules that state `s` may reduce by on terminal `t`.
fn reducible(
    grammar: &CompiledGrammar,
    a: &Automaton,
    la: &Lookaheads,
    s: usize,
    t: SymbolId,
    Ghost(starts): Ghost<Seq<(SymbolId, usize)>>,
) -> (r: Vec<bool>)
    requires
        grammar.wf(),
        a.wf(grammar.models(), starts),
        la.holds(grammar.models(), grammar.terminal_count as nat, *a),
        s < a.states@.len(),
        t.ix() < grammar.terminal_count,
    ensures
        r@.len() == grammar.rules@.len(),
        forall|q: int|
            0 <= q < r@.len() ==> #[trigger] r@[q] == may_reduce(
                grammar.models(),
                grammar.terminal_count as nat,
                *a,
                s as int,
                t,
                q,
            ),
{
    let ghost rules = grammar.models();
    let ghost nt = grammar.terminal_count as nat;
    let ghost items = a.states@[s as int]@;
    let ghost c = lookahead::cells(la.flags@);
    let n_rules: usize = grammar.rules.len();
    let mut r = blank_row(n_rules);
    let mut k: usize = 0;
    proof {
        assert forall|q: int| 0 <= q < rules.len() implies (#[trigger] rules[q]).expansion.len()
            <= usize::MAX by {
            let v = grammar.rules@[q].expansion;
            assert(v@.len() == v.len());
        }
    }
    while k < a.states[s].len()
        invariant
            k <= items.len(),
            n_rules == rules.len(),
            forall|q: int|
                0 <= q < rules.len() ==> (#[trigger] rules[q]).expansion.len() <= usize::MAX,
            grammar.wf(),
            rules == grammar.models(),
            nt == grammar.terminal_count,
            a.wf(rules, starts),
            la.holds(rules, nt, *a),
            s < a.states@.len(),
            t.ix() < nt,
            items == a.states@[s as int]@,
            c == lookahead::cells(la.flags@),
            r@.len() == rules.len(),
            forall|q: int|
                0 <= q < r@.len() && #[trigger] r@[q] ==> may_reduce(
                    rules,
                    nt,
                    *a,
                    s as int,
                    t,
                    q,
                ),
            forall|q: int, p: int|
                0 <= q < r@.len() && 0 <= p < k && may_reduce(rules, nt, *a, s as int, t, q)
                    && #[trigger] items[p] == end_item(rules, q) ==> #[trigger] r@[q],
        decreases items.len() - k,
    {
        let it = a.states[s][k];
        proof {
            assert(lr0::item_ok(rules, a.states@[s as int]@[k as int]));
            assert(c[s as int].len() == items.len());
            assert(c[s as int][k as int].len() == nt);
            assert(c[s as int][k as int][t.ix() as int] == lookahead::follows(
                rules,
                nt,
                *a,
                s as int,
                items[k as int],
                t,
            ));
            assert(rules[it.rule_idx as int].expansion.len() <= usize::MAX);
        }
        let ghost before = r@;
        if it.is_complete(&grammar.rules) && !grammar.rules[it.rule_idx].is_start
            && la.flags[s][k][t.index()] {
            proof {
                assert(it == end_item(rules, it.rule_idx as int));
                assert(a.items(s as int).contains(items[k as int]));
            }
            r.set(it.rule_idx, true);
        }
        proof {
            assert forall|q: int, p: int|
                0 <= q < r@.len() && 0 <= p < k + 1 && may_reduce(rules, nt, *a, s as int, t, q)
                    && #[trigger] items[p] == end_item(rules, q) implies #[trigger] r@[q] by {
                if p < k {
                    assert(before[q]);
                } else {
                    assert(rules[q].expansion.len() <= usize::MAX);
                    assert(it.rule_idx == q);
                }
            }
        }
        k = k + 1;
    }
    proof {
        assert forall|q: int| 0 <= q < r@.len() implies #[trigger] r@[q] == may_reduce(
            rules,
            nt,
            *a,
            s as int,
            t,
            q,
        ) by {
            if may_reduce(rules, nt, *a, s as int, t, q) {
                let p = choose|p: int| 0 <= p < items.len() && items[p] == end_item(rules, q);
                assert(items[p] == end_item(rules, q));
            }
        }
    }
    r
}

/// The competing productions on terminal `t` in state `s`.
fn find_rivals(
    grammar: &CompiledGrammar,
    a: &Automaton,
    la: &Lookaheads,
    s: usize,
    t: SymbolId,
    Ghost(starts): Ghost<Seq<(SymbolId, usize)>>,
) -> (r: Vec<usize>)
    requires
        grammar.wf(),
        a.wf(grammar.models(), starts),
        la.holds(grammar.models(), grammar.terminal_count as nat, *a),
        s < a.states@.len(),
        t.ix() < grammar.terminal_count,
    ensures
        Seq::new(r@.len(), |i: int| r@[i] as int) == rivals(
            grammar.models(),
            grammar.terminal_count as nat,
            *a,
            s as int,
            t,
            grammar.rules@.len(),
        ),
        forall|i: int|
            0 <= i < r@.len() ==> represents(
                grammar.models(),
                grammar.terminal_count as nat,
                *a,
                s as int,
                t,
                #[trigger] r@[i] as int,
            ),
        forall|q: int|
            #[trigger] represents(
                grammar.models(),
                grammar.terminal_count as nat,
                *a,
                s as int,
                t,
                q,
            ) ==> r@.contains(q as usize),
{
    let ghost rules = grammar.models();
    let ghost nt = grammar.terminal_count as nat;
    let can = reducible(grammar, a, la, s, t, Ghost(starts));
    let mut r: Vec<usize> = Vec::new();
    let mut n: usize = 0;
    proof {
        assert(Seq::new(r@.len(), |i: int| r@[i] as int) =~= Seq::empty());
    }
    while n < grammar.rules.len()
        invariant
            n <= grammar.rules@.len(),
            rules == grammar.models(),
            nt == grammar.terminal_count,
            can@.len() == rules.len(),
            forall|q: int|
                0 <= q < can@.len() ==> #[trigger] can@[q] == may_reduce(
                    rules,
                    nt,
                    *a,
                    s as int,
                    t,
                    q,
                ),
            Seq::new(r@.len(), |i: int| r@[i] as int) == rivals(
                rules,
                nt,
                *a,
                s as int,
                t,
                n as nat,
            ),
            forall|i: int|
                0 <= i < r@.len() ==> represents(
                    rules,
                    nt,
                    *a,
                    s as int,
                    t,
                    #[trigger] r@[i] as int,
                ),
            forall|q: int|
                0 <= q < n && #[trigger] represents(rules, nt, *a, s as int, t, q) ==> r@.contains(
                    q as usize,
                ),
        decreases grammar.rules.len() - n,
    {
        let mut beaten = !can[n];
        let mut q: usize = 0;
        while q < grammar.rules.len() && !beaten
            invariant
                q <= grammar.rules@.len(),
                n < grammar.rules@.len(),
                rules == grammar.models(),
                nt == grammar.terminal_count,
                can@.len() == rules.len(),
                forall|q: int|
                    0 <= q < can@.len() ==> #[trigger] can@[q] == may_reduce(
                        rules,
                        nt,
                        *a,
                        s as int,
                        t,
                        q,
                    ),
                beaten ==> !represents(rules, nt, *a, s as int, t, n as int),
                !beaten ==> may_reduce(rules, nt, *a, s as int, t, n as int) && forall|p: int|
                    0 <= p < q && #[trigger] may_reduce(rules, nt, *a, s as int, t, p)
                        ==> !supersedes(rules, p, n as int),
            decreases grammar.rules.len() - q,
        {
            proof {
                assert(rules[q as int] == grammar.rules@[q as int]@);
                assert(rules[n as int] == grammar.rules@[n as int]@);
                assert(can@[q as int] == may_reduce(rules, nt, *a, s as int, t, q as int));
            }
            if can[q] && same_production(&grammar.rules[q], &grammar.rules[n]) && (
            grammar.rules[q].order < grammar.rules[n].order || (grammar.rules[q].order
                == grammar.rules[n].order && q < n)) {
                beaten = true;
            }
            q = q + 1;
        }
        let ghost before = r@;
        if !beaten {
            proof {
                assert(represents(rules, nt, *a, s as int, t, n as int));
            }
            r.push(n);
            proof {
                assert(Seq::new(r@.len(), |i: int| r@[i] as int) =~= Seq::new(
                    before.len(),
                    |i: int| before[i] as int,
                ).push(n as int));
            }
        }
        proof {
            assert forall|q: int|
                0 <= q < n + 1 && #[trigger] represents(
                    rules,
                    nt,
                    *a,
                    s as int,
                    t,
                    q,
                ) implies r@.contains(q as usize) by {
                if q < n {
                    let p = choose|p: int| 0 <= p < before.len() && before[p] == q as usize;
                    assert(r@[p] == q as usize);
                } else {
                    assert(r@[r@.len() - 1] == n);
                }
            }
        }
        n = n + 1;
    }
    r
}

/// Whether state `s` accepts at the end of input.
fn accepting(
    grammar: &CompiledGrammar,
    a: &Automaton,
    s: usize,
    Ghost(starts): Ghost<Seq<(SymbolId, usize)>>,
) -> (r: bool)
    requires
        a.wf(grammar.models(), starts),
        s < a.states@.len(),
    ensures
        r == accepts_in(grammar.models(), *a, s as int),
{
    let ghost rules = grammar.models();
    let ghost items = a.states@[s as int]@;
    let mut k: usize = 0;
    while k < a.states[s].len()
        invariant
            k <= items.len(),
            rules == grammar.models(),
            a.wf(rules, starts),
            s < a.states@.len(),
            items == a.states@[s as int]@,
            forall|p: int|
                0 <= p < k ==> !(lr0::complete(rules, #[trigger] items[p])
                    && rules[items[p].rule_idx as int].is_start),
        decreases items.len() - k,
    {
        let it = a.states[s][k];
        proof {
            assert(lr0::item_ok(rules, a.states@[s as int]@[k as int]));
        }
        if it.is_complete(&grammar.rules) && grammar.rules[it.rule_idx].is_start {
            proof {
                assert(items[k as int] == it);
                assert(a.items(s as int).contains(it));
            }
            return true;
        }
        k = k + 1;
    }
    proof {
        assert forall|it: LR0Item| #[trigger]
            a.items(s as int).contains(it) && lr0::complete(rules, it) implies !rules[it.rule_idx as int].is_start by {
            let p = choose|p: int| 0 <= p < items.len() && items[p] == it;
            assert(items[p] == it);
        }
    }
    false
}

/// The rule that wins among rivals, if one does.
fn pick_winner(
    grammar: &CompiledGrammar,
    which: &Vec<usize>,
    a: &Automaton,
    s: usize,
    t: SymbolId,
) -> (r: Option<usize>)
    requires
        forall|i: int|
            0 <= i < which@.len() ==> represents(
                grammar.models(),
                grammar.terminal_count as nat,
                *a,
                s as int,
                t,
                #[trigger] which@[i] as int,
            ),
        forall|q: int|
            #[trigger] represents(
                grammar.models(),
                grammar.terminal_count as nat,
                *a,
                s as int,
                t,
                q,
            ) ==> which@.contains(q as usize),
    ensures
        match r {
            Some(w) => w < grammar.rules@.len() && wins(
                grammar.models(),
                grammar.terminal_count as nat,
                *a,
                s as int,
                t,
                w as int,
            ),
            None => forall|q: int|
                !wins(
                    grammar.models(),
                    grammar.terminal_count as nat,
                    *a,
                    s as int,
                    t,
                    q,
                ),
        },
{
    let ghost rules = grammar.models();
    let ghost nt = grammar.terminal_count as nat;
    let n_rules: usize = grammar.rules.len();
    let mut i: usize = 0;
    while i < which.len()
        invariant
            i <= which.len(),
            n_rules == rules.len(),
            rules == grammar.models(),
            nt == grammar.terminal_count,
            forall|i: int|
                0 <= i < which@.len() ==> represents(
                    rules,
                    nt,
                    *a,
                    s as int,
                    t,
                    #[trigger] which@[i] as int,
                ),
            forall|q: int|
                #[trigger] represents(rules, nt, *a, s as int, t, q) ==> which@.contains(
                    q as usize,
                ),
            forall|p: int|
                0 <= p < i ==> !wins(rules, nt, *a, s as int, t, #[trigger] which@[p] as int),
        decreases which.len() - i,
    {
        let w: usize = which[i];
        proof {
            assert(represents(rules, nt, *a, s as int, t, which@[i as int] as int));
        }
        let mut best = true;
        let mut j: usize = 0;
        while j < which.len()
            invariant
                i < which.len(),
                j <= which.len(),
                w == which@[i as int],
                rules == grammar.models(),
                nt == grammar.terminal_count,
                forall|i: int|
                    0 <= i < which@.len() ==> represents(
                        rules,
                        nt,
                        *a,
                        s as int,
                        t,
                        #[trigger] which@[i] as int,
                    ),
                best == (forall|p: int|
                    0 <= p < j && #[trigger] which@[p] != w ==> rules[which@[p] as int].priority
                        < rules[w as int].priority),
            decreases which.len() - j,
        {
            let v: usize = which[j];
            proof {
                assert(represents(rules, nt, *a, s as int, t, which@[j as int] as int));
                assert(rules[v as int] == grammar.rules@[v as int]@);
                assert(represents(rules, nt, *a, s as int, t, which@[i as int] as int));
                assert(rules[w as int] == grammar.rules@[w as int]@);
            }
            if v != w && grammar.rules[v].options.priority >= grammar.rules[w].options.priority {
                best = false;
            }
            j = j + 1;
        }
        if best {
            proof {
                assert forall|q: int|
                    #[trigger] represents(rules, nt, *a, s as int, t, q) && q != w implies rules[q].priority
                    < rules[w as int].priority by {
                    let p = choose|p: int| 0 <= p < which@.len() && which@[p] == q as usize;
                    assert(which@[p] != w);
                }
            }
            return Some(w);
        }
        proof {
            let p = choose|p: int|
                0 <= p < which@.len() && #[trigger] which@[p] != w && !(rules[which@[p] as int].priority
                    < rules[w as int].priority);
            assert(represents(rules, nt, *a, s as int, t, which@[p] as int));
            assert(!wins(rules, nt, *a, s as int, t, w as int));
        }
        i = i + 1;
    }
    proof {
        assert forall|q: int| !wins(rules, nt, *a, s as int, t, q) by {
            if wins(rules, nt, *a, s as int, t, q) {
                assert(represents(rules, nt, *a, s as int, t, q));
                let p = choose|p: int| 0 <= p < which@.len() && which@[p] == q as usize;
                assert(!wins(rules, nt, *a, s as int, t, which@[p] as int));
            }
        }
    }
    None
}

proof fn lemma_rivals_empty(
    rules: Seq<symbols::RuleModel>,
    nt: nat,
    a: Automaton,
    s: int,
    t: SymbolId,
    n: nat,
    r: int,
)
    requires
        0 <= r < n,
        represents(rules, nt, a, s, t, r),
    ensures
        rivals(rules, nt, a, s, t, n).len() > 0,
    decreases n,
{
    if r < n - 1 {
        lemma_rivals_empty(rules, nt, a, s, t, (n - 1) as nat, r);
    }
}

/// The entry of state `s` for terminal `t`, and what is wrong with it.
fn resolve(
    grammar: &CompiledGrammar,
    a: &Automaton,
    la: &Lookaheads,
    strict: bool,
    s: usize,
    t: SymbolId,
    Ghost(starts): Ghost<Seq<(SymbolId, usize)>>,
) -> (r: (Option<Action>, Option<String>))
    requires
        grammar.wf(),
        a.wf(grammar.models(), starts),
        la.holds(grammar.models(), grammar.terminal_count as nat, *a),
        s < a.states@.len(),
        t.ix() < grammar.terminal_count,
    ensures
        r.0 == entry(grammar.models(), grammar.terminal_count as nat, *a, s as int, t),
        match (r.1, entry_conflict(
            grammar.symbols@,
            grammar.models(),
            grammar.terminal_count as nat,
            *a,
            strict,
            s as int,
            t,
        )) {
            (Some(c), Some(m)) => c@ == m,
            (None, None) => true,
            _ => false,
        },
{
    let ghost rules = grammar.models();
    let ghost nt = grammar.terminal_count as nat;
    let base = if t == SymbolId::end() && accepting(grammar, a, s, Ghost(starts)) {
        Some(Action::Accept)
    } else {
        match a.goto_state(s, t) {
            Some(q) => Some(Action::Shift(q)),
            None => None,
        }
    };
    let which = find_rivals(grammar, a, la, s, t, Ghost(starts));
    let winner = pick_winner(grammar, &which, a, s, t);
    match winner {
        Some(w) => {
            proof {
                assert(wins(rules, nt, *a, s as int, t, w as int));
                lemma_wins_unique(
                    rules,
                    nt,
                    *a,
                    s as int,
                    t,
                    w as int,
                    choose|r: int| wins(rules, nt, *a, s as int, t, r),
                );
            }
            if base.is_some() {
                if strict {
                    let report = shift_reduce_report(grammar, t, w);
                    (base, Some(report))
                } else {
                    (base, None)
                }
            } else {
                (Some(Action::Reduce(w)), None)
            }
        },
        None => {
            if which.len() > 0 {
                proof {
                    assert forall|i: int| 0 <= i < which@.len() implies (#[trigger] which@[i])
                        < grammar.rules@.len() by {
                        assert(represents(rules, nt, *a, s as int, t, which@[i] as int));
                    }
                }
                let report = collision_report(grammar, s, t, &which);
                (base, Some(report))
            } else {
                (base, None)
            }
        },
    }
}

/// Whether `r` is the table of a grammar by the automaton `a`, or the report of
/// its conflicts.
pub open spec fn table_by(
    grammar: CompiledGrammar,
    strict: bool,
    a: Automaton,
    r: Result<ParseTable, GrammarError>,
) -> bool {
    let found = conflicts(
        grammar.symbols@,
        grammar.models(),
        grammar.terminal_count as nat,
        a,
        strict,
        a.states@.len(),
    );
    match r {
        Ok(table) => {
            &&& found.len() == 0
            &&& table.tabulates(a)
            &&& table.models() == grammar.models()
            &&& table.symbols@ == grammar.symbols@
            &&& table.starts@ == grammar.start@
            &&& table.n_terminals == grammar.terminal_count
            &&& table.propagate_positions == grammar.propagate_positions
        },
        Err(GrammarError::Conflict { report }) => found.len() > 0 && report@ == text::joined(
            found,
            "\n\n"@,
        ),
        Err(_) => false,
    }
}

/// Whether `r` is the LALR(1) table of a grammar, or the report of its
/// conflicts.
pub open spec fn table_result(
    grammar: CompiledGrammar,
    strict: bool,
    r: Result<ParseTable, GrammarError>,
) -> bool {
    exists|a: Automaton|
        #[trigger] a.wf(grammar.models(), start_rules(grammar.models(), grammar.start@))
            && table_by(grammar, strict, a, r)
}

/// How many actions the first `k` rows hold.
pub open spec fn action_cells(rows: Seq<Vec<(u32, Action)>>, k: nat) -> nat
    decreases k,
{
    if k == 0 {
        0
    } else {
        action_cells(rows, (k - 1) as nat) + rows[k - 1]@.len()
    }
}

/// Builds the LALR(1) table of a grammar; the actions that the table stores are
/// counted.
pub fn build_lalr_table_counted(
    grammar: &CompiledGrammar,
    strict: bool,
    c: &mut Counters,
) -> (r: Result<ParseTable, GrammarError>)
    requires
        grammar.wf(),
    ensures
        table_result(*grammar, strict, r),
        r matches Ok(t) ==> t.wf(),
        match r {
            Ok(t) => *final(c) == (Counters {
                parse_table_action_cells: perf::counted(
                    old(c).parse_table_action_cells,
                    action_cells(t.action@, t.action@.len()),
                ),
                ..*old(c)
            }),
            Err(_) => *final(c) == *old(c),
        },
{
    let r = build_lalr_table(grammar, strict);
    if let Ok(t) = &r {
        let first: u64 = c.parse_table_action_cells;
        let mut n: u64 = first;
        let mut i: usize = 0;
        proof {
            perf::lemma_counted_nothing(first);
        }
        while i < t.action.len()
            invariant
                i <= t.action@.len(),
                n == perf::counted(first, action_cells(t.action@, i as nat)),
            decreases t.action.len() - i,
        {
            let len: usize = t.action[i].len();
            proof {
                perf::lemma_counted(first, action_cells(t.action@, i as nat), len as nat);
            }
            n = perf::count(n, len as u64);
            i = i + 1;
        }
        c.parse_table_action_cells = n;
    }
    r
}

/// Builds the LALR(1) table of a grammar. In strict mode a move that hides a
/// reduction is a conflict too.
#[verifier::rlimit(60)]
pub fn build_lalr_table(grammar: &CompiledGrammar, strict: bool) -> (r: Result<
    ParseTable,
    GrammarError,
>)
    requires
        grammar.wf(),
    ensures
        table_result(*grammar, strict, r),
        r matches Ok(t) ==> t.wf(),
{
    let ghost rules = grammar.models();
    let ghost infos = grammar.symbols@;
    let nt: usize = grammar.n_terminals();
    let n_symbols: usize = grammar.symbols.len();
    let starts = find_starts(&grammar.rules, &grammar.start);
    proof {
        assert forall|i: int, j: int|
            0 <= i < grammar.rules@.len() && 0 <= j < grammar.rules@[i].expansion@.len() implies (
        #[trigger] grammar.rules@[i].expansion@[j]).ix() < n_symbols by {
            assert(rules[i].expansion[j].ix() < n_symbols);
        }
    }
    let a = build_automaton(&grammar.rules, n_symbols, &starts);
    let la = Lookaheads::compute(grammar, &a, &starts);
    let mut action: Vec<Vec<(u32, Action)>> = Vec::new();
    let mut goto: Vec<Vec<(u32, usize)>> = Vec::new();
    let mut found: Vec<String> = Vec::new();
    let mut s: usize = 0;
    proof {
        assert(text::texts(found@) =~= Seq::empty());
    }
    while s < a.states.len()
        invariant
            s <= a.states@.len(),
            grammar.wf(),
            rules == grammar.models(),
            infos == grammar.symbols@,
            nt == grammar.terminal_count,
            n_symbols == grammar.symbols@.len(),
            a.wf(rules, starts@),
            la.holds(rules, nt as nat, a),
            action@.len() == s,
            goto@.len() == s,
            forall|p: int|
                0 <= p < s ==> (#[trigger] action@[p])@ == action_row(
                    rules,
                    nt as nat,
                    a,
                    p,
                    nt as nat,
                ),
            forall|p: int|
                0 <= p < s ==> (#[trigger] goto@[p])@ == goto_row(
                    nt as nat,
                    a,
                    p,
                    (n_symbols - nt) as nat,
                ),
            text::texts(found@) == conflicts(infos, rules, nt as nat, a, strict, s as nat),
        decreases a.states.len() - s,
    {
        let mut row: Vec<(u32, Action)> = Vec::new();
        let mut t: usize = 0;
        let ghost earlier = text::texts(found@);
        proof {
            assert(earlier =~= earlier + state_conflicts(
                infos,
                rules,
                nt as nat,
                a,
                strict,
                s as int,
                0,
            ));
        }
        while t < nt
            invariant
                t <= nt,
                s < a.states@.len(),
                grammar.wf(),
                rules == grammar.models(),
                infos == grammar.symbols@,
                nt == grammar.terminal_count,
                a.wf(rules, starts@),
                la.holds(rules, nt as nat, a),
                row@ == action_row(rules, nt as nat, a, s as int, t as nat),
                text::texts(found@) == earlier + state_conflicts(
                    infos,
                    rules,
                    nt as nat,
                    a,
                    strict,
                    s as int,
                    t as nat,
                ),
            decreases nt - t,
        {
            let sym = SymbolId(t as u32);
            let (e, c) = resolve(grammar, &a, &la, strict, s, sym, Ghost(starts@));
            if let Some(act) = e {
                row.push((t as u32, act));
            }
            let ghost before = text::texts(found@);
            if let Some(report) = c {
                let ghost m = report@;
                found.push(report);
                proof {
                    assert(text::texts(found@) =~= before.push(m));
                }
            }
            t = t + 1;
            proof {
                assert(text::texts(found@) =~= earlier + state_conflicts(
                    infos,
                    rules,
                    nt as nat,
                    a,
                    strict,
                    s as int,
                    t as nat,
                ));
            }
        }
        let mut grow: Vec<(u32, usize)> = Vec::new();
        let mut n: usize = 0;
        while n < n_symbols - nt
            invariant
                n <= n_symbols - nt,
                s < a.states@.len(),
                nt <= n_symbols <= u32::MAX,
                a.wf(rules, starts@),
                grow@ == goto_row(nt as nat, a, s as int, n as nat),
            decreases n_symbols - nt - n,
        {
            let sym = SymbolId((nt + n) as u32);
            let goes = a.goto_state(s, sym);
            if let Some(q) = goes {
                grow.push((n as u32, q));
            }
            n = n + 1;
        }
        action.push(row);
        goto.push(grow);
        s = s + 1;
    }
    if found.len() > 0 {
        let report = join(&found, "\n\n");
        proof {
            assert(a.wf(rules, start_rules(rules, grammar.start@)));
        }
        return Err(GrammarError::Conflict { report });
    }
    let mut start_states: Vec<(SymbolId, usize)> = Vec::new();
    let mut k: usize = 0;
    while k < starts.len()
        invariant
            k <= starts.len(),
            a.start_states@.len() == starts@.len(),
            start_states@.len() == k,
            forall|i: int|
                0 <= i < k ==> #[trigger] start_states@[i] == (starts@[i].0, a.start_states@[i]),
        decreases starts.len() - k,
    {
        start_states.push((starts[k].0, a.start_states[k]));
        k = k + 1;
    }
    let table = ParseTable {
        action,
        goto,
        start_states,
        starts: copy_ids(&grammar.start),
        rules: copy_rules(&grammar.rules),
        symbols: grammar.symbols.copy(),
        n_terminals: nt,
        propagate_positions: grammar.propagate_positions,
    };
    proof {
        assert(a.wf(rules, start_rules(rules, grammar.start@)));
        assert(table.tabulates(a));
    }
    Ok(table)
}

/// A grammar, and where repetitions share helper rules, the same grammar with a
/// helper of its own for each.
pub struct Grammar {
    pub compiled: CompiledGrammar,
    pub lalr_audit: Option<CompiledGrammar>,
}

/// Whether `r` tells that the grammar with helpers apart has a table, or reports
/// its conflicts.
pub open spec fn audit_result(grammar: Grammar, strict: bool, r: Result<(), GrammarError>) -> bool {
    match grammar.lalr_audit {
        None => r is Ok,
        Some(g) => exists|t: Result<ParseTable, GrammarError>|
            #[trigger] table_result(g, strict, t) && match (r, t) {
                (Ok(_), Ok(_)) => true,
                (Err(e), Err(f)) => e == f,
                _ => false,
            },
    }
}

/// Finds conflicts that shared helper rules hide: the grammar with helpers apart
/// must have a table too.
pub fn audit_lalr_reduce_reduce(grammar: &Grammar, strict: bool) -> (r: Result<(), GrammarError>)
    requires
        grammar.lalr_audit matches Some(g) ==> g.wf(),
    ensures
        audit_result(*grammar, strict, r),
{
    match &grammar.lalr_audit {
        None => Ok(()),
        Some(g) => {
            let t = build_lalr_table(g, strict);
            proof {
                assert(table_result(*g, strict, t));
            }
            match t {
                Ok(_) => Ok(()),
                Err(e) => Err(e),
            }
        },
    }
}

} // verus!
