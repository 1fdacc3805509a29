//! The LALR stack machine: what feeding one token does to the stacks, and why
//! a table never runs off them.

use vstd::prelude::*;
use crate::error;
use crate::error::ParseError;
use crate::lalr_table;
use crate::lalr_table::{Action, ParseTable};
use crate::lr0;
use crate::lr0::{Automaton, LR0Item};
use crate::symbols;
use crate::symbols::SymbolId;
use crate::text;
use crate::text::sort_names;
use crate::tree;
use crate::tree::{copy_children, copy_tree, ParseTree, Token};
use crate::tree_builder;
use crate::tree_builder::{root_slot_to_parse_tree, Slot, TreeOutputBuilder};

verus! {

/// How many reductions one token may cause. A grammar whose reductions on a
/// token end stays far below; one whose reductions never end (a rule that
/// derives itself and wins by priority) is stopped here.
pub const REDUCTION_LIMIT: u64 = 0xffff_ffff_ffff_ffff;

// ---------------------------------------------------------------------------
// Tables and automata

/// The automaton that a table tabulates.
pub open spec fn automaton(table: ParseTable) -> Automaton {
    choose|a: Automaton| #[trigger] table.tabulates(a)
}

proof fn lemma_row_find_push<T>(row: Seq<(u32, T)>, x: (u32, T), k: u32)
    ensures
        lalr_table::row_find(row.push(x), k) == (match lalr_table::row_find(row, k) {
            Some(v) => Some(v),
            None => if x.0 == k {
                Some(x.1)
            } else {
                None
            },
        }),
    decreases row.len(),
{
    if row.len() == 0 {
        assert(row.push(x).drop_first() =~= Seq::empty());
        assert(lalr_table::row_find(row.push(x).drop_first(), k) is None);
    } else {
        assert(row.push(x).drop_first() =~= row.drop_first().push(x));
        lemma_row_find_push(row.drop_first(), x, k);
    }
}

pub(crate) proof fn lemma_action_row(
    rules: Seq<symbols::RuleModel>,
    nt: nat,
    a: Automaton,
    s: int,
    n: nat,
    t: SymbolId,
)
    requires
        n <= u32::MAX,
    ensures
        lalr_table::row_find(lalr_table::action_row(rules, nt, a, s, n), t.0) == (if t.ix() < n {
            lalr_table::entry(rules, nt, a, s, t)
        } else {
            None
        }),
    decreases n,
{
    if n > 0 {
        lemma_action_row(rules, nt, a, s, (n - 1) as nat, t);
        let head = lalr_table::action_row(rules, nt, a, s, (n - 1) as nat);
        let sym = SymbolId((n - 1) as u32);
        if let Some(e) = lalr_table::entry(rules, nt, a, s, sym) {
            lemma_row_find_push(head, ((n - 1) as u32, e), t.0);
        }
        if t.ix() == n - 1 {
            assert(t == sym);
        }
    }
}

proof fn lemma_goto_row(nt: nat, a: Automaton, s: int, n: nat, k: u32)
    requires
        nt + n <= u32::MAX,
    ensures
        lalr_table::row_find(lalr_table::goto_row(nt, a, s, n), k) == (if k < n {
            a.target(s, SymbolId((nt + k) as u32))
        } else {
            None
        }),
    decreases n,
{
    if n > 0 {
        lemma_goto_row(nt, a, s, (n - 1) as nat, k);
        let head = lalr_table::goto_row(nt, a, s, (n - 1) as nat);
        if let Some(q) = a.target(s, SymbolId((nt + n - 1) as u32)) {
            lemma_row_find_push(head, ((n - 1) as u32, q), k);
        }
    }
}

/// What a table's action entries are.
pub proof fn lemma_action(table: ParseTable, a: Automaton, s: int, t: SymbolId)
    requires
        table.tabulates(a),
        0 <= s < a.states@.len(),
    ensures
        table.action_for(s, t) == (if t.ix() < table.n_terminals {
            lalr_table::entry(table.models(), table.n_terminals as nat, a, s, t)
        } else {
            None
        }),
{
    lemma_action_row(
        table.models(),
        table.n_terminals as nat,
        a,
        s,
        table.n_terminals as nat,
        t,
    );
    assert(table.action@[s]@ == lalr_table::action_row(
        table.models(),
        table.n_terminals as nat,
        a,
        s,
        table.n_terminals as nat,
    ));
}

/// What a table's goto entries are.
pub proof fn lemma_goto(table: ParseTable, a: Automaton, s: int, sym: SymbolId)
    requires
        table.tabulates(a),
        0 <= s < a.states@.len(),
        table.n_terminals <= sym.ix() < table.symbols@.len(),
    ensures
        table.goto_for(s, (sym.0 - table.n_terminals) as u32) == a.target(s, sym),
{
    let nt = table.n_terminals as nat;
    let n = (table.symbols@.len() - nt) as nat;
    lemma_goto_row(nt, a, s, n, (sym.0 - nt) as u32);
    assert(table.goto@[s]@ == lalr_table::goto_row(nt, a, s, n));
}

// ---------------------------------------------------------------------------
// Stacks are paths

/// Whether some symbol leads from state `p` to state `q`.
pub open spec fn leads(a: Automaton, p: int, q: int) -> bool {
    exists|x: SymbolId| #[trigger] a.target(p, x) is Some && a.target(p, x)->0 == q
}

/// Whether a stack of states is a path from a start state.
pub open spec fn is_path(a: Automaton, states: Seq<usize>) -> bool {
    &&& states.len() > 0
    &&& exists|i: int| 0 <= i < a.start_states@.len() && #[trigger] a.start_states@[i] == states[0]
    &&& forall|k: int|
        0 < k < states.len() ==> leads(a, states[k - 1] as int, (#[trigger] states[k]) as int)
    &&& forall|k: int| 0 <= k < states.len() ==> (#[trigger] states[k]) < a.states@.len()
}

/// An item of the top state whose dot is at `d` stands, with its dot moved
/// back, in each of the `d` states below.
pub proof fn lemma_item_below(table: ParseTable, a: Automaton, states: Seq<usize>, it: LR0Item, k: nat)
    requires
        table.tabulates(a),
        is_path(a, states),
        a.items(states.last() as int).contains(it),
        k <= it.dot,
    ensures
        k < states.len(),
        a.items(states[states.len() - 1 - k] as int).contains(
            LR0Item { rule_idx: it.rule_idx, dot: (it.dot - k) as usize },
        ),
        forall|j: int|
            0 <= j < k ==> a.target(
                (#[trigger] states[states.len() - 2 - j]) as int,
                table.models()[it.rule_idx as int].expansion[it.dot - 1 - j],
            ) is Some && a.target(
                states[states.len() - 2 - j] as int,
                table.models()[it.rule_idx as int].expansion[it.dot - 1 - j],
            )->0 == states[states.len() - 1 - j],
    decreases k,
{
    let rules = table.models();
    if k > 0 {
        lemma_item_below(table, a, states, it, (k - 1) as nat);
        let at = states.len() - k;
        let here = LR0Item { rule_idx: it.rule_idx, dot: (it.dot - k + 1) as usize };
        let s = states[at] as int;
        assert(a.items(s).contains(here));
        if at == 0 {
            let i = choose|i: int|
                0 <= i < a.start_states@.len() && #[trigger] a.start_states@[i] == states[0];
            let starts = lalr_table::start_rules(rules, table.starts@);
            let kernel = set![LR0Item { rule_idx: starts[i].1, dot: 0 }];
            assert(a.items(s) == lr0::closure_of(rules, kernel)) by {
                assert(a.start_states@[i] == s);
            }
            lr0::lemma_closure_kernel(rules, kernel, here);
            assert(false);
        }
        let p = states[at - 1] as int;
        assert(leads(a, p, states[at] as int));
        let x = choose|x: SymbolId| #[trigger] a.target(p, x) is Some && a.target(p, x)->0 == s;
        assert(a.target(p, x) is Some);
        let kernel = lr0::moved(rules, a.items(p), x);
        assert(a.items(s) == lr0::closure_of(rules, kernel));
        lr0::lemma_closure_kernel(rules, kernel, here);
        let back = LR0Item { rule_idx: here.rule_idx, dot: (here.dot - 1) as usize };
        assert(lr0::expected(rules, back) == Some(x));
        assert forall|j: int| 0 <= j < k implies a.target(
            (#[trigger] states[states.len() - 2 - j]) as int,
            rules[it.rule_idx as int].expansion[it.dot - 1 - j],
        ) is Some && a.target(
            states[states.len() - 2 - j] as int,
            rules[it.rule_idx as int].expansion[it.dot - 1 - j],
        )->0 == states[states.len() - 1 - j] by {
            if j == k - 1 {
                assert(states.len() - 2 - j == at - 1);
            }
        }
    }
}

/// A predicted item's origin leads somewhere, unless it is a start rule.
pub proof fn lemma_goto_exists(
    table: ParseTable,
    a: Automaton,
    states: Seq<usize>,
    r: usize,
)
    requires
        table.tabulates(a),
        is_path(a, states),
        r < table.models().len(),
        !table.models()[r as int].is_start,
        a.items(states.last() as int).contains(LR0Item { rule_idx: r, dot: 0 }),
    ensures
        a.target(states.last() as int, table.models()[r as int].origin) is Some,
{
    let rules = table.models();
    let s = states.last() as int;
    let it = LR0Item { rule_idx: r, dot: 0 };
    let at = states.len() - 1;
    let kernel = if at == 0 {
        let i = choose|i: int|
            0 <= i < a.start_states@.len() && #[trigger] a.start_states@[i] == states[0];
        set![LR0Item { rule_idx: lalr_table::start_rules(rules, table.starts@)[i].1, dot: 0 }]
    } else {
        let p = states[at - 1] as int;
        let x = choose|x: SymbolId| #[trigger] a.target(p, x) is Some && a.target(p, x)->0 == s;
        lr0::moved(rules, a.items(p), x)
    };
    assert(a.items(s) == lr0::closure_of(rules, kernel) && !kernel.contains(it)) by {
        if at == 0 {
            let i = choose|i: int|
                0 <= i < a.start_states@.len() && #[trigger] a.start_states@[i] == states[0];
            assert(table.rules@.len() == table.rules.len());
            lemma_start_rules(rules, table.starts@, i);
            assert(a.start_states@[i] == s);
        } else {
            let p = states[at - 1] as int;
            assert(leads(a, p, states[at] as int));
            let x = choose|x: SymbolId|
                #[trigger] a.target(p, x) is Some && a.target(p, x)->0 == s;
            assert(a.target(p, x) is Some);
        }
    }
    let n = choose|n: nat| #[trigger] lr0::predicted(rules, kernel, it, n);
    let by = choose|by: LR0Item|
        #[trigger] lr0::expected(rules, by) == Some(rules[it.rule_idx as int].origin)
            && lr0::predicted(rules, kernel, by, (n - 1) as nat);
    assert(lr0::expected(rules, by) == Some(rules[r as int].origin));
    assert(lr0::closure_of(rules, kernel).contains(by));
    let next = lr0::advanced(by);
    let v = table.rules@[by.rule_idx as int].expansion;
    assert(v@.len() == v.len());
    assert(LR0Item { rule_idx: next.rule_idx, dot: (next.dot - 1) as usize } == by);
    assert(lr0::moved(rules, a.items(s), rules[r as int].origin).contains(next));
    assert(a.target(s, rules[r as int].origin) is Some || a.target(s, rules[r as int].origin)
        is None);
}

/// The start rules that a table begins with are start rules.
pub proof fn lemma_start_rules(rules: Seq<symbols::RuleModel>, start: Seq<SymbolId>, i: int)
    requires
        0 <= i < lalr_table::start_rules(rules, start).len(),
        rules.len() <= usize::MAX,
    ensures
        lalr_table::start_rules(rules, start)[i].1 < rules.len(),
        lalr_table::is_start_rule(
            rules,
            lalr_table::start_rules(rules, start)[i].0,
            lalr_table::start_rules(rules, start)[i].1 as int,
        ),
    decreases start.len(),
{
    let head = lalr_table::start_rules(rules, start.drop_last());
    if i < head.len() {
        lemma_start_rules(rules, start.drop_last(), i);
    } else {
        lemma_start_rule_from(rules, start.last(), 0);
    }
}

proof fn lemma_start_rule_from(rules: Seq<symbols::RuleModel>, s: SymbolId, from: int)
    requires
        0 <= from,
        rules.len() <= usize::MAX,
        lalr_table::start_rule_from(rules, s, from) is Some,
    ensures
        lalr_table::start_rule_from(rules, s, from)->0 < rules.len(),
        lalr_table::is_start_rule(rules, s, lalr_table::start_rule_from(rules, s, from)->0 as int),
    decreases rules.len() - from,
{
    if from < rules.len() && !lalr_table::is_start_rule(rules, s, from) {
        lemma_start_rule_from(rules, s, from + 1);
    }
}

/// What a reduction finds on the stack: enough states, and below them one that
/// the rule's origin leads on from.
pub proof fn lemma_reduce_ok(
    table: ParseTable,
    a: Automaton,
    states: Seq<usize>,
    t: SymbolId,
    r: usize,
)
    requires
        table.tabulates(a),
        is_path(a, states),
        table.action_for(states.last() as int, t) == Some(Action::Reduce(r)),
    ensures
        r < table.models().len(),
        !table.models()[r as int].is_start,
        table.models()[r as int].expansion.len() < states.len(),
        ({
            let len = table.models()[r as int].expansion.len();
            let rest = states.take(states.len() - len);
            let o = table.models()[r as int].origin;
            &&& is_path(a, rest)
            &&& table.n_terminals <= o.ix() < table.symbols@.len()
            &&& table.goto_for(rest.last() as int, (o.0 - table.n_terminals) as u32) is Some
            &&& a.target(rest.last() as int, o) == table.goto_for(
                rest.last() as int,
                (o.0 - table.n_terminals) as u32,
            )
            &&& is_path(
                a,
                rest.push(
                    table.goto_for(rest.last() as int, (o.0 - table.n_terminals) as u32)->0,
                ),
            )
        }),
        lalr_table::may_reduce(
            table.models(),
            table.n_terminals as nat,
            a,
            states.last() as int,
            t,
            r as int,
        ),
{
    let rules = table.models();
    let nt = table.n_terminals as nat;
    let s = states.last() as int;
    lemma_action(table, a, s, t);
    let w = choose|w: int| lalr_table::wins(rules, nt, a, s, t, w);
    assert(lalr_table::wins(rules, nt, a, s, t, w));
    assert(table.rules@.len() == table.rules.len());
    assert(w == r);
    let it = lalr_table::end_item(rules, r as int);
    let v = table.rules@[r as int].expansion;
    assert(v@.len() == v.len());
    let len = rules[r as int].expansion.len();
    lemma_item_below(table, a, states, it, len);
    let rest = states.take(states.len() - len);
    assert(is_path(a, rest)) by {
        assert(rest[0] == states[0]);
        assert forall|k: int| 0 < k < rest.len() implies leads(
            a,
            rest[k - 1] as int,
            (#[trigger] rest[k]) as int,
        ) by {
            assert(leads(a, states[k - 1] as int, states[k] as int));
        }
        assert forall|k: int| 0 <= k < rest.len() implies (#[trigger] rest[k]) < a.states@.len() by {
            assert(states[k] < a.states@.len());
        }
    }
    lemma_goto_exists(table, a, rest, r);
    let o = rules[r as int].origin;
    lemma_goto(table, a, rest.last() as int, o);
    let next = table.goto_for(rest.last() as int, (o.0 - table.n_terminals) as u32)->0;
    let pushed = rest.push(next);
    assert(a.target(rest.last() as int, o) == Some(next));
    assert(is_path(a, pushed)) by {
        assert(pushed[0] == rest[0]);
        assert forall|k: int| 0 < k < pushed.len() implies leads(
            a,
            pushed[k - 1] as int,
            (#[trigger] pushed[k]) as int,
        ) by {
            if k < rest.len() {
                assert(leads(a, rest[k - 1] as int, rest[k] as int));
            } else {
                assert(a.target(pushed[k - 1] as int, o)->0 == pushed[k]);
            }
        }
    }
}

/// A shift keeps the stack a path.
pub proof fn lemma_shift_ok(
    table: ParseTable,
    a: Automaton,
    states: Seq<usize>,
    t: SymbolId,
    q: usize,
)
    requires
        table.tabulates(a),
        is_path(a, states),
        table.action_for(states.last() as int, t) == Some(Action::Shift(q)),
    ensures
        is_path(a, states.push(q)),
        a.target(states.last() as int, t) == Some(q),
        t.ix() < table.n_terminals,
{
    let s = states.last() as int;
    lemma_action(table, a, s, t);
    let pushed = states.push(q);
    assert(a.target(s, t) == Some(q));
    assert(pushed[0] == states[0]);
    assert forall|k: int| 0 < k < pushed.len() implies leads(
        a,
        pushed[k - 1] as int,
        (#[trigger] pushed[k]) as int,
    ) by {
        if k < states.len() {
            assert(leads(a, states[k - 1] as int, states[k] as int));
        } else {
            assert(a.target(pushed[k - 1] as int, t)->0 == pushed[k]);
        }
    }
}

// ---------------------------------------------------------------------------
// Feeding a token

/// How feeding a token ended.
pub ghost enum Outcome {
    Shifted,
    Accepted(tree::Node),
    NoAction,
    Error(error::ErrorModel),
    /// The reductions did not end within the limit.
    Endless,
}

/// How feeding a token ended, and the stacks after it.
pub ghost struct Fed {
    pub outcome: Outcome,
    pub states: Seq<usize>,
    pub values: Seq<tree_builder::SlotModel>,
}

/// The number of a rule's origin among the nonterminals.
pub open spec fn origin_index(table: ParseTable, r: int) -> u32 {
    (table.models()[r].origin.0 - table.n_terminals) as u32
}

/// The stack of states after a reduction by rule `r`, where the origin leads
/// on.
pub open spec fn reduced_states(table: ParseTable, states: Seq<usize>, r: int) -> Option<
    Seq<usize>,
> {
    let len = table.models()[r].expansion.len();
    if len >= states.len() {
        None
    } else {
        let rest = states.take(states.len() - len);
        match table.goto_for(rest.last() as int, origin_index(table, r)) {
            Some(q) => Some(rest.push(q)),
            None => None,
        }
    }
}

/// The stack of values after a reduction by rule `r`.
pub open spec fn reduced_values(
    table: ParseTable,
    values: Seq<tree_builder::SlotModel>,
    r: int,
) -> Seq<tree_builder::SlotModel> {
    let rule = table.models()[r];
    let n = values.len() - rule.expansion.len();
    values.take(n).push(
        tree_builder::assembled(rule, table.propagate_positions, values.skip(n)),
    )
}

/// Feeds one token: reductions as the table says, until the token is shifted,
/// the input is accepted or there is no action.
pub open spec fn fed(
    table: ParseTable,
    states: Seq<usize>,
    values: Seq<tree_builder::SlotModel>,
    tok: tree::TokenModel,
    fuel: nat,
) -> Fed
    decreases fuel,
{
    if fuel == 0 {
        Fed { outcome: Outcome::Endless, states, values }
    } else {
        match table.action_for(states.last() as int, tok.type_id) {
            Some(Action::Shift(q)) => Fed {
                outcome: Outcome::Shifted,
                states: states.push(q),
                values: values.push(tree_builder::SlotModel::Value(tree::Node::Token(tok))),
            },
            Some(Action::Reduce(r)) => match reduced_states(table, states, r as int) {
                Some(next) => fed(
                    table,
                    next,
                    reduced_values(table, values, r as int),
                    tok,
                    (fuel - 1) as nat,
                ),
                None => Fed { outcome: Outcome::NoAction, states, values },
            },
            Some(Action::Accept) => {
                let done = if values.len() == 0 {
                    None
                } else {
                    tree_builder::root_node(values.last())
                };
                Fed {
                    outcome: match done {
                        Some(n) => Outcome::Accepted(n),
                        None => Outcome::Error(
                            error::unexpected_eof_model(0, 0, Seq::empty()),
                        ),
                    },
                    states,
                    values: if values.len() == 0 {
                        values
                    } else {
                        values.drop_last()
                    },
                }
            },
            None => Fed { outcome: Outcome::NoAction, states, values },
        }
    }
}

/// Whether feeding a token of type `t` would shift or accept.
pub open spec fn would_take(
    table: ParseTable,
    states: Seq<usize>,
    t: SymbolId,
    fuel: nat,
) -> bool
    decreases fuel,
{
    fuel > 0 && match table.action_for(states.last() as int, t) {
        Some(Action::Shift(_)) => true,
        Some(Action::Accept) => true,
        Some(Action::Reduce(r)) => match reduced_states(table, states, r as int) {
            Some(next) => would_take(table, next, t, (fuel - 1) as nat),
            None => false,
        },
        None => false,
    }
}

/// The names of the terminals below `n` that the parser would take.
pub open spec fn taken_names(table: ParseTable, states: Seq<usize>, n: nat) -> Seq<Seq<char>>
    decreases n,
{
    if n == 0 {
        Seq::empty()
    } else {
        let head = taken_names(table, states, (n - 1) as nat);
        let t = SymbolId((n - 1) as u32);
        if would_take(table, states, t, REDUCTION_LIMIT as nat) {
            head.push(symbols::name_of(table.symbols@, t))
        } else {
            head
        }
    }
}

/// The names of the terminals that the parser would take, in ascending order.
pub open spec fn accepted_names(table: ParseTable, states: Seq<usize>) -> Seq<Seq<char>> {
    text::sorted_texts(taken_names(table, states, table.n_terminals as nat))
}

/// How feeding a token ended.
pub enum Feed {
    Shifted,
    Accepted(ParseTree),
    NoAction,
    Error(ParseError),
    Endless,
}

impl View for Feed {
    type V = Outcome;

    open spec fn view(&self) -> Outcome {
        match *self {
            Feed::Shifted => Outcome::Shifted,
            Feed::Accepted(t) => Outcome::Accepted(t@),
            Feed::NoAction => Outcome::NoAction,
            Feed::Error(e) => Outcome::Error(e@),
            Feed::Endless => Outcome::Endless,
        }
    }
}

/// The parser's stacks: states, and the values of the symbols between them.
pub struct ParserStack {
    pub state_stack: Vec<usize>,
    pub value_stack: Vec<Slot>,
}

fn copy_slot(s: &Slot) -> (r: Slot)
    ensures
        r@ == s@,
{
    match s {
        Slot::Token(t) => Slot::Token(t.copy()),
        Slot::Tree(t) => Slot::Tree(copy_tree(t)),
        Slot::Inline(cs) => Slot::Inline(copy_children(cs)),
    }
}

impl ParserStack {
    /// The contents of the value stack.
    pub open spec fn values(&self) -> Seq<tree_builder::SlotModel> {
        tree_builder::slot_models(self.value_stack@)
    }

    /// Whether the stacks are those of a run of `table`.
    pub open spec fn wf(&self, table: ParseTable) -> bool {
        &&& table.wf()
        &&& is_path(automaton(table), self.state_stack@)
        &&& self.value_stack@.len() + 1 == self.state_stack@.len()
    }

    /// Whether the states are those of a run of `table`.
    pub open spec fn states_wf(&self, table: ParseTable) -> bool {
        &&& table.wf()
        &&& is_path(automaton(table), self.state_stack@)
    }

    /// The stacks at the start of a run.
    pub fn new(initial_state: usize) -> (r: ParserStack)
        ensures
            r.state_stack@ == seq![initial_state],
            r.value_stack@ == Seq::<Slot>::empty(),
            r.values() == Seq::<tree_builder::SlotModel>::empty(),
    {
        let mut state_stack: Vec<usize> = Vec::new();
        state_stack.push(initial_state);
        let r = ParserStack { state_stack, value_stack: Vec::new() };
        proof {
            assert(r.state_stack@ =~= seq![initial_state]);
            assert(r.values() =~= Seq::empty());
        }
        r
    }

    /// A copy.
    pub fn copy(&self) -> (r: ParserStack)
        ensures
            r.state_stack@ == self.state_stack@,
            r.values() == self.values(),
            r.value_stack@.len() == self.value_stack@.len(),
    {
        let mut value_stack: Vec<Slot> = Vec::new();
        let mut i: usize = 0;
        while i < self.value_stack.len()
            invariant
                i <= self.value_stack.len(),
                value_stack@.len() == i,
                forall|k: int| 0 <= k < i ==> (#[trigger] value_stack@[k])@ == self.value_stack@[k]@,
            decreases self.value_stack.len() - i,
        {
            value_stack.push(copy_slot(&self.value_stack[i]));
            i = i + 1;
        }
        let r = ParserStack {
            state_stack: crate::symbols::copy_sizes(&self.state_stack),
            value_stack,
        };
        proof {
            assert(r.values() =~= self.values());
        }
        r
    }

    /// The state on top.
    pub fn position(&self) -> (r: usize)
        requires
            self.state_stack@.len() > 0,
        ensures
            r == self.state_stack@.last(),
    {
        self.state_stack[self.state_stack.len() - 1]
    }

    fn reduce(&mut self, table: &ParseTable, r: usize)
        requires
            old(self).wf(*table),
            r < table.models().len(),
            reduced_states(*table, old(self).state_stack@, r as int) is Some,
            table.models()[r as int].origin.ix() >= table.n_terminals,
        ensures
            Some(final(self).state_stack@) == reduced_states(
                *table,
                old(self).state_stack@,
                r as int,
            ),
            final(self).values() == reduced_values(*table, old(self).values(), r as int),
            final(self).value_stack@.len() + 1 == final(self).state_stack@.len(),
    {
        let rule = &table.rules[r];
        proof {
            assert(table.models()[r as int] == rule@);
        }
        let len: usize = rule.expansion.len();
        let at: usize = self.value_stack.len() - len;
        let ghost vals = self.values();
        let child_values = self.value_stack.split_off(at);
        proof {
            assert(tree_builder::slot_models(child_values@) =~= vals.skip(at as int));
            assert(self.values() =~= vals.take(at as int));
        }
        let keep: usize = self.state_stack.len() - len;
        self.state_stack.truncate(keep);
        proof {
            assert(self.state_stack@ =~= old(self).state_stack@.take(keep as int));
        }
        let value = TreeOutputBuilder::with_propagate_positions(
            &table.rules,
            table.propagate_positions,
        ).assemble(r, child_values);
        let nt_index: u32 = (rule.origin.index() - table.n_terminals) as u32;
        let goes = table.goto_at(self.position(), nt_index);
        match goes {
            Some(q) => {
                self.state_stack.push(q);
                let ghost before = self.value_stack@;
                self.value_stack.push(value);
                proof {
                    assert(self.values() =~= tree_builder::slot_models(before).push(value@));
                }
            },
            None => {
                proof {
                    assert(false);
                }
            },
        }
    }

    /// Feeds one token. Reductions that precede a missing action stay done.
    pub fn feed_token(&mut self, table: &ParseTable, token: &Token) -> (r: Feed)
        requires
            old(self).wf(*table),
        ensures
            ({
                let f = fed(
                    *table,
                    old(self).state_stack@,
                    old(self).values(),
                    token@,
                    REDUCTION_LIMIT as nat,
                );
                &&& r@ == f.outcome
                &&& final(self).state_stack@ == f.states
                &&& final(self).values() == f.values
            }),
            final(self).states_wf(*table),
            !(r is Accepted || r is Error) ==> final(self).wf(*table),
    {
        let ghost states = self.state_stack@;
        let ghost values = self.values();
        let ghost a = automaton(*table);
        let mut fuel: u64 = REDUCTION_LIMIT;
        while fuel > 0
            invariant
                self.wf(*table),
                a == automaton(*table),
                table.tabulates(a),
                fed(*table, states, values, token@, REDUCTION_LIMIT as nat) == fed(
                    *table,
                    self.state_stack@,
                    self.values(),
                    token@,
                    fuel as nat,
                ),
                states == old(self).state_stack@,
                values == old(self).values(),
            decreases fuel,
        {
            let state: usize = self.position();
            let act = table.action_at(state, token.type_id);
            match act {
                Some(Action::Shift(q)) => {
                    proof {
                        lemma_shift_ok(*table, a, self.state_stack@, token@.type_id, q);
                    }
                    let ghost before = self.value_stack@;
                    self.state_stack.push(q);
                    self.value_stack.push(Slot::Token(token.copy()));
                    proof {
                        assert(self.values() =~= tree_builder::slot_models(before).push(
                            tree_builder::SlotModel::Value(tree::Node::Token(token@)),
                        ));
                    }
                    return Feed::Shifted;
                },
                Some(Action::Reduce(r)) => {
                    proof {
                        lemma_reduce_ok(*table, a, self.state_stack@, token@.type_id, r);
                    }
                    self.reduce(table, r);
                },
                Some(Action::Accept) => {
                    return self.accept();
                },
                None => {
                    return Feed::NoAction;
                },
            }
            fuel = fuel - 1;
        }
        Feed::Endless
    }

    fn accept(&mut self) -> (r: Feed)
        ensures
            final(self).state_stack@ == old(self).state_stack@,
            old(self).value_stack@.len() == 0 ==> final(self).values() == old(self).values() && r@
                == Outcome::Error(error::unexpected_eof_model(0, 0, Seq::empty())),
            old(self).value_stack@.len() > 0 ==> final(self).values() == old(
                self,
            ).values().drop_last() && r@ == (match tree_builder::root_node(
                old(self).values().last(),
            ) {
                Some(n) => Outcome::Accepted(n),
                None => Outcome::Error(error::unexpected_eof_model(0, 0, Seq::empty())),
            }),
            r is Accepted || r is Error,
    {
        let ghost vals = self.values();
        let top = self.value_stack.pop();
        proof {
            if vals.len() > 0 {
                assert(self.values() =~= vals.drop_last());
            }
        }
        let none: Vec<String> = Vec::new();
        proof {
            assert(text::texts(none@) =~= Seq::empty());
        }
        match top {
            Some(value) => {
                match root_slot_to_parse_tree(value) {
                    Ok(t) => Feed::Accepted(t),
                    Err(_) => Feed::Error(ParseError::unexpected_eof(0, 0, none)),
                }
            },
            None => Feed::Error(ParseError::unexpected_eof(0, 0, none)),
        }
    }

    /// Whether feeding a token of the given type would shift or accept.
    pub fn would_accept(&self, table: &ParseTable, terminal: SymbolId) -> (r: bool)
        requires
            self.states_wf(*table),
        ensures
            r == would_take(
                *table,
                self.state_stack@,
                terminal,
                REDUCTION_LIMIT as nat,
            ),
    {
        let ghost a = automaton(*table);
        let ghost start = self.state_stack@;
        let mut states = crate::symbols::copy_sizes(&self.state_stack);
        let mut fuel: u64 = REDUCTION_LIMIT;
        while fuel > 0
            invariant
                table.wf(),
                a == automaton(*table),
                table.tabulates(a),
                is_path(a, states@),
                start == self.state_stack@,
                would_take(*table, start, terminal, REDUCTION_LIMIT as nat) == would_take(
                    *table,
                    states@,
                    terminal,
                    fuel as nat,
                ),
            decreases fuel,
        {
            let state: usize = states[states.len() - 1];
            let act = table.action_at(state, terminal);
            match act {
                Some(Action::Shift(_)) => {
                    return true;
                },
                Some(Action::Accept) => {
                    return true;
                },
                Some(Action::Reduce(r)) => {
                    proof {
                        lemma_reduce_ok(*table, a, states@, terminal, r);
                    }
                    let rule = &table.rules[r];
                    proof {
                        assert(table.models()[r as int] == rule@);
                    }
                    let keep: usize = states.len() - rule.expansion.len();
                    let ghost before = states@;
                    states.truncate(keep);
                    proof {
                        assert(states@ =~= before.take(keep as int));
                    }
                    let nt_index: u32 = (rule.origin.index() - table.n_terminals) as u32;
                    let top: usize = states[states.len() - 1];
                    match table.goto_at(top, nt_index) {
                        Some(q) => {
                            states.push(q);
                        },
                        None => {
                            return false;
                        },
                    }
                },
                None => {
                    return false;
                },
            }
            fuel = fuel - 1;
        }
        false
    }

    /// The names of the terminals that the parser would take now.
    pub fn accepts(&self, table: &ParseTable) -> (r: Vec<String>)
        requires
            self.states_wf(*table),
        ensures
            text::texts(r@) == accepted_names(*table, self.state_stack@),
    {
        let mut names: Vec<String> = Vec::new();
        let mut t: usize = 0;
        proof {
            assert(text::texts(names@) =~= Seq::empty());
            let a = automaton(*table);
            assert(table.tabulates(a));
        }
        while t < table.n_terminals
            invariant
                t <= table.n_terminals <= u32::MAX,
                self.states_wf(*table),
                text::texts(names@) == taken_names(*table, self.state_stack@, t as nat),
            decreases table.n_terminals - t,
        {
            let sym = SymbolId(t as u32);
            if self.would_accept(table, sym) {
                let ghost before = names@;
                names.push(table.symbols.name_owned(sym));
                proof {
                    assert(text::texts(names@) =~= text::texts(before).push(
                        symbols::name_of(table.symbols@, sym),
                    ));
                }
            }
            t = t + 1;
        }
        sort_names(names)
    }
}

} // verus!
