//! What a table without conflicts means for a grammar: all derivations of a
//! sentence have the same value.

use vstd::prelude::*;
use crate::agreement;
use crate::cyk;
use crate::derivation;
use crate::error::GrammarError;
use crate::lalr;
use crate::lalr_complete;
use crate::lalr_laws;
use crate::lalr_stack;
use crate::lalr_table;
use crate::lalr_table::{Action, ParseTable};
use crate::lr0;
use crate::lr0::{Automaton, LR0Item};
use crate::symbols;
use crate::symbols::{CompiledGrammar, SymbolId};
use crate::tree;
use crate::tree_builder;

verus! {

// ---------------------------------------------------------------------------
// Derivations by size

/// Whether `s` derives the tokens by a derivation of `n` nodes that has the value
/// `v`.
pub open spec fn sized(
    rules: Seq<symbols::RuleModel>,
    nt: nat,
    pp: bool,
    s: SymbolId,
    toks: Seq<tree::TokenModel>,
    v: tree_builder::SlotModel,
    n: nat,
) -> bool
    decreases n, 0nat,
{
    if s.ix() < nt {
        &&& n == 1
        &&& toks.len() == 1
        &&& toks[0].type_id == s
        &&& v == tree_builder::SlotModel::Value(tree::Node::Token(toks[0]))
    } else {
        n > 0 && exists|r: int, vs: Seq<tree_builder::SlotModel>| #[trigger]
            derivation::is_shaped(rules, pp, r, s, vs, v) && sized_all(
                rules,
                nt,
                pp,
                rules[r].expansion,
                toks,
                vs,
                (n - 1) as nat,
            )
    }
}

/// Whether the symbols `syms`, one after the other, derive the tokens by
/// derivations of `n` nodes in all that have the values `vs`.
pub open spec fn sized_all(
    rules: Seq<symbols::RuleModel>,
    nt: nat,
    pp: bool,
    syms: Seq<SymbolId>,
    toks: Seq<tree::TokenModel>,
    vs: Seq<tree_builder::SlotModel>,
    n: nat,
) -> bool
    decreases n, syms.len(),
{
    if syms.len() == 0 {
        toks.len() == 0 && vs.len() == 0 && n == 0
    } else {
        vs.len() > 0 && exists|k: int, m: nat| #[trigger]
            is_cut(toks, n, k, m) && sized(
                rules,
                nt,
                pp,
                syms.last(),
                toks.skip(k),
                vs.last(),
                m,
            ) && sized_all(
                rules,
                nt,
                pp,
                syms.drop_last(),
                toks.take(k),
                vs.drop_last(),
                (n - m) as nat,
            )
    }
}

/// Whether tokens can be parted at `k`, and `n` nodes at `m`.
pub open spec fn is_cut(toks: Seq<tree::TokenModel>, n: nat, k: int, m: nat) -> bool {
    0 <= k <= toks.len() && m <= n
}

proof fn lemma_sized(
    rules: Seq<symbols::RuleModel>,
    nt: nat,
    pp: bool,
    s: SymbolId,
    toks: Seq<tree::TokenModel>,
    v: tree_builder::SlotModel,
    d: nat,
) -> (n: nat)
    requires
        derivation::yields_in(rules, nt, pp, s, toks, v, d),
    ensures
        sized(rules, nt, pp, s, toks, v, n),
    decreases d, 0nat,
{
    if s.ix() < nt {
        1
    } else {
        let (r, vs) = choose|r: int, vs: Seq<tree_builder::SlotModel>| #[trigger]
            derivation::is_shaped(rules, pp, r, s, vs, v) && derivation::yields_seq_in(
                rules,
                nt,
                pp,
                rules[r].expansion,
                toks,
                vs,
                (d - 1) as nat,
            );
        let m = lemma_all_sized(rules, nt, pp, rules[r].expansion, toks, vs, (d - 1) as nat);
        assert(((m + 1) - 1) as nat == m);
        assert(derivation::is_shaped(rules, pp, r, s, vs, v));
        m + 1
    }
}

proof fn lemma_all_sized(
    rules: Seq<symbols::RuleModel>,
    nt: nat,
    pp: bool,
    syms: Seq<SymbolId>,
    toks: Seq<tree::TokenModel>,
    vs: Seq<tree_builder::SlotModel>,
    d: nat,
) -> (n: nat)
    requires
        derivation::yields_seq_in(rules, nt, pp, syms, toks, vs, d),
    ensures
        sized_all(rules, nt, pp, syms, toks, vs, n),
    decreases d, syms.len(),
{
    if syms.len() == 0 {
        0
    } else {
        let k = choose|k: int|
            0 <= k <= toks.len() && derivation::yields_in(
                rules,
                nt,
                pp,
                syms.last(),
                #[trigger] toks.skip(k),
                vs.last(),
                d,
            ) && derivation::yields_seq_in(
                rules,
                nt,
                pp,
                syms.drop_last(),
                toks.take(k),
                vs.drop_last(),
                d,
            );
        let m = lemma_sized(rules, nt, pp, syms.last(), toks.skip(k), vs.last(), d);
        let f = lemma_all_sized(
            rules,
            nt,
            pp,
            syms.drop_last(),
            toks.take(k),
            vs.drop_last(),
            d,
        );
        let n = m + f;
        assert(is_cut(toks, n, k, m));
        assert((n - m) as nat == f);
        n
    }
}

/// A derivation with a value is a derivation.
proof fn lemma_sized_derives(
    rules: Seq<symbols::RuleModel>,
    nt: nat,
    pp: bool,
    s: SymbolId,
    toks: Seq<tree::TokenModel>,
    v: tree_builder::SlotModel,
    n: nat,
)
    requires
        sized(rules, nt, pp, s, toks, v, n),
    ensures
        lalr_complete::derives_in(rules, nt, s, lalr_laws::types_of(toks), n),
    decreases n, 0nat,
{
    if s.ix() < nt {
        assert(lalr_laws::types_of(toks) =~= seq![s]);
    } else {
        let (r, vs) = choose|r: int, vs: Seq<tree_builder::SlotModel>| #[trigger]
            derivation::is_shaped(rules, pp, r, s, vs, v) && sized_all(
                rules,
                nt,
                pp,
                rules[r].expansion,
                toks,
                vs,
                (n - 1) as nat,
            );
        lemma_all_sized_derive(rules, nt, pp, rules[r].expansion, toks, vs, (n - 1) as nat);
        assert(rules[r].origin == s);
    }
}

proof fn lemma_all_sized_derive(
    rules: Seq<symbols::RuleModel>,
    nt: nat,
    pp: bool,
    syms: Seq<SymbolId>,
    toks: Seq<tree::TokenModel>,
    vs: Seq<tree_builder::SlotModel>,
    n: nat,
)
    requires
        sized_all(rules, nt, pp, syms, toks, vs, n),
    ensures
        vs.len() == syms.len(),
        lalr_complete::derives_seq_in(rules, nt, syms, lalr_laws::types_of(toks), n),
    decreases n, syms.len(),
{
    if syms.len() > 0 {
        let (k, m) = choose|k: int, m: nat| #[trigger]
            is_cut(toks, n, k, m) && sized(
                rules,
                nt,
                pp,
                syms.last(),
                toks.skip(k),
                vs.last(),
                m,
            ) && sized_all(
                rules,
                nt,
                pp,
                syms.drop_last(),
                toks.take(k),
                vs.drop_last(),
                (n - m) as nat,
            );
        lemma_sized_derives(rules, nt, pp, syms.last(), toks.skip(k), vs.last(), m);
        lemma_all_sized_derive(
            rules,
            nt,
            pp,
            syms.drop_last(),
            toks.take(k),
            vs.drop_last(),
            (n - m) as nat,
        );
        let w = lalr_laws::types_of(toks);
        assert(lalr_laws::types_of(toks.skip(k)) =~= w.skip(k));
        assert(lalr_laws::types_of(toks.take(k)) =~= w.take(k));
        assert(lalr_complete::is_split(w, n, k, m));
    }
}

// ---------------------------------------------------------------------------
// Steps with values

/// A run: its stacks and the tokens to come.
pub ghost struct Run {
    pub states: Seq<usize>,
    pub values: Seq<tree_builder::SlotModel>,
    pub toks: Seq<tree::TokenModel>,
}

/// The run after one move or reduction.
pub open spec fn stepped(table: ParseTable, c: Run) -> Option<Run> {
    if c.toks.len() == 0 {
        None
    } else {
        match table.action_for(c.states.last() as int, c.toks[0].type_id) {
            Some(Action::Shift(q)) => Some(
                Run {
                    states: c.states.push(q),
                    values: c.values.push(
                        tree_builder::SlotModel::Value(tree::Node::Token(c.toks[0])),
                    ),
                    toks: c.toks.drop_first(),
                },
            ),
            Some(Action::Reduce(r)) => match lalr_stack::reduced_states(
                table,
                c.states,
                r as int,
            ) {
                Some(next) => Some(
                    Run {
                        states: next,
                        values: lalr_stack::reduced_values(table, c.values, r as int),
                        toks: c.toks,
                    },
                ),
                None => None,
            },
            _ => None,
        }
    }
}

/// Whether `n` steps lead from one run to another.
pub open spec fn leads_to(table: ParseTable, c: Run, d: Run, n: nat) -> bool
    decreases n,
{
    if n == 0 {
        c == d
    } else {
        match stepped(table, c) {
            Some(next) => leads_to(table, next, d, (n - 1) as nat),
            None => false,
        }
    }
}

proof fn lemma_leads_trans(table: ParseTable, c: Run, d: Run, e: Run, n: nat, m: nat)
    requires
        leads_to(table, c, d, n),
        leads_to(table, d, e, m),
    ensures
        leads_to(table, c, e, n + m),
    decreases n,
{
    if n > 0 {
        lemma_leads_trans(table, stepped(table, c)->0, d, e, (n - 1) as nat, m);
        assert(((n + m) - 1) as nat == (n - 1) as nat + m);
    }
}

/// Steps that cannot go on lead to one run.
proof fn lemma_leads_once(table: ParseTable, c: Run, d: Run, e: Run, n: nat, m: nat)
    requires
        leads_to(table, c, d, n),
        leads_to(table, c, e, m),
        stepped(table, d) is None,
        stepped(table, e) is None,
    ensures
        d == e,
    decreases n,
{
    if n > 0 && m > 0 {
        lemma_leads_once(table, stepped(table, c)->0, d, e, (n - 1) as nat, (m - 1) as nat);
    }
}

/// Whether no two rules have the same origin and expansion.
pub open spec fn productions_differ(rules: Seq<symbols::RuleModel>) -> bool {
    forall|q: int, r: int|
        0 <= q < rules.len() && 0 <= r < rules.len() && #[trigger] lalr_complete::same_production(
            rules,
            q,
            r,
        ) ==> q == r
}

/// A table without conflicts takes what a symbol derives, and builds the value of
/// the derivation.
proof fn lemma_takes_symbol(
    table: ParseTable,
    a: Automaton,
    c: Run,
    x: SymbolId,
    by: LR0Item,
    toks: Seq<tree::TokenModel>,
    v: tree_builder::SlotModel,
    rest: Seq<tree::TokenModel>,
    n: nat,
) -> (q: usize)
    requires
        lalr_complete::is_complete(table, a),
        productions_differ(table.models()),
        c.states.len() > 0,
        c.states.last() < a.states@.len(),
        a.items(c.states.last() as int).contains(by),
        lr0::expected(table.models(), by) == Some(x),
        sized(
            table.models(),
            table.n_terminals as nat,
            table.propagate_positions,
            x,
            toks,
            v,
            n,
        ),
        c.toks == toks + rest,
        rest.len() > 0,
        lalr_complete::all_terminals(table.n_terminals as nat, lalr_laws::types_of(rest)),
        lalr_complete::can_follow(
            table.models(),
            table.n_terminals as nat,
            a,
            c.states.last() as int,
            x,
            rest[0].type_id,
        ),
    ensures
        a.target(c.states.last() as int, x) == Some(q),
        q < a.states@.len(),
        leads_to(
            table,
            c,
            Run { states: c.states.push(q), values: c.values.push(v), toks: rest },
            n,
        ),
    decreases n, 0nat,
{
    let rules = table.models();
    let nt = table.n_terminals as nat;
    let pp = table.propagate_positions;
    let s = c.states.last() as int;
    let types = lalr_laws::types_of(rest);
    assert(types[0] == rest[0].type_id);
    assert(by == lalr_complete::dotted(by.rule_idx as int, by.dot as int));
    let q = lalr_complete::lemma_leads_on(table, a, s, by.rule_idx as int, by.dot as int);
    let last = Run { states: c.states.push(q), values: c.values.push(v), toks: rest };
    if x.ix() < nt {
        lalr_complete::lemma_shift_step(
            table,
            a,
            c.states,
            by.rule_idx as int,
            by.dot as int,
            q,
            types,
        );
        assert(c.toks[0] == toks[0]);
        assert(c.toks.drop_first() =~= rest);
        assert(stepped(table, c) == Some(last));
        assert(leads_to(table, last, last, 0));
    } else {
        let (r, vs) = choose|r: int, vs: Seq<tree_builder::SlotModel>| #[trigger]
            derivation::is_shaped(rules, pp, r, x, vs, v) && sized_all(
                rules,
                nt,
                pp,
                rules[r].expansion,
                toks,
                vs,
                (n - 1) as nat,
            );
        let e = rules[r].expansion;
        lalr_complete::lemma_predicts(table, a, s, by, r);
        assert(e.take(e.len() as int) =~= e);
        assert(e.skip(e.len() as int) =~= Seq::empty());
        assert(lalr_complete::can_come(rules, nt, a, s, r, e.len() as int, rest[0].type_id));
        let u = lemma_takes_symbols(
            table,
            a,
            c,
            r,
            e.len() as int,
            toks,
            vs,
            rest,
            (n - 1) as nat,
        );
        let p = lalr_complete::lemma_reduce_step(table, a, c.states, u, r, q, types);
        assert(lalr_complete::same_production(rules, p as int, r));
        assert(p == r);
        lemma_all_sized_derive(rules, nt, pp, e, toks, vs, (n - 1) as nat);
        let mid = Run { states: u, values: c.values + vs, toks: rest };
        let k = mid.values.len() - e.len();
        assert(mid.values.take(k) =~= c.values);
        assert(mid.values.skip(k) =~= vs);
        assert(stepped(table, mid) == Some(last));
        assert(leads_to(table, last, last, 0));
        assert(leads_to(table, mid, last, 1));
        lemma_leads_trans(table, c, mid, last, (n - 1) as nat, 1);
        assert((n - 1) as nat + 1 == n);
    }
    q
}

proof fn lemma_takes_symbols(
    table: ParseTable,
    a: Automaton,
    c: Run,
    r: int,
    j: int,
    toks: Seq<tree::TokenModel>,
    vs: Seq<tree_builder::SlotModel>,
    rest: Seq<tree::TokenModel>,
    n: nat,
) -> (u: Seq<usize>)
    requires
        lalr_complete::is_complete(table, a),
        productions_differ(table.models()),
        c.states.len() > 0,
        c.states.last() < a.states@.len(),
        0 <= r < table.models().len(),
        a.items(c.states.last() as int).contains(lalr_complete::dotted(r, 0)),
        0 <= j <= table.models()[r].expansion.len(),
        sized_all(
            table.models(),
            table.n_terminals as nat,
            table.propagate_positions,
            table.models()[r].expansion.take(j),
            toks,
            vs,
            n,
        ),
        c.toks == toks + rest,
        rest.len() > 0,
        lalr_complete::all_terminals(table.n_terminals as nat, lalr_laws::types_of(rest)),
        lalr_complete::can_come(
            table.models(),
            table.n_terminals as nat,
            a,
            c.states.last() as int,
            r,
            j,
            rest[0].type_id,
        ),
    ensures
        lalr_complete::is_trail(table.models(), a, u, c.states.len() - 1, r, j),
        u.take(c.states.len() as int) == c.states,
        leads_to(table, c, Run { states: u, values: c.values + vs, toks: rest }, n),
    decreases n, j,
{
    let rules = table.models();
    let nt = table.n_terminals as nat;
    let pp = table.propagate_positions;
    let base = c.states.len() - 1;
    let e = rules[r].expansion;
    let syms = e.take(j);
    lalr_complete::lemma_rule_sizes(table);
    if j == 0 {
        assert(toks + rest =~= rest);
        assert(c.values + vs =~= c.values);
        assert(c.states.take(c.states.len() as int) =~= c.states);
        c.states
    } else {
        let (k, m) = choose|k: int, m: nat| #[trigger]
            is_cut(toks, n, k, m) && sized(
                rules,
                nt,
                pp,
                syms.last(),
                toks.skip(k),
                vs.last(),
                m,
            ) && sized_all(
                rules,
                nt,
                pp,
                syms.drop_last(),
                toks.take(k),
                vs.drop_last(),
                (n - m) as nat,
            );
        let x = e[j - 1];
        assert(syms.last() == x);
        assert(syms.drop_last() =~= e.take(j - 1));
        let back = toks.skip(k);
        let after = back + rest;
        let back_types = lalr_laws::types_of(back);
        let rest_types = lalr_laws::types_of(rest);
        lemma_sized_derives(rules, nt, pp, x, back, vs.last(), m);
        lalr_complete::lemma_tree_height(rules, nt, x, back_types, m);
        lalr_complete::lemma_derived_terminals(rules, nt, x, back_types, m);
        assert(rest_types[0] == rest[0].type_id);
        lalr_complete::lemma_can_come(
            rules,
            nt,
            a,
            c.states.last() as int,
            r,
            j,
            back_types,
            rest_types,
        );
        let after_types = lalr_laws::types_of(after);
        assert(after_types =~= back_types + rest_types);
        assert(after_types[0] == after[0].type_id);
        assert forall|i: int| 0 <= i < after_types.len() implies (
        #[trigger] after_types[i]).ix() < nt by {
            if i < back.len() {
                assert(after_types[i] == back_types[i]);
            } else {
                assert(after_types[i] == rest_types[i - back.len()]);
            }
        }
        assert(toks.take(k) + after =~= toks + rest);
        let u = lemma_takes_symbols(
            table,
            a,
            c,
            r,
            j - 1,
            toks.take(k),
            vs.drop_last(),
            after,
            (n - m) as nat,
        );
        assert(u[base] == c.states.last()) by {
            assert(u.take(c.states.len() as int)[base] == u[base]);
        }
        lalr_complete::lemma_can_follow(rules, nt, a, u, base, r, j, rest[0].type_id);
        let by = lalr_complete::dotted(r, j - 1);
        assert(u.last() == u[base + (j - 1)]);
        let mid = Run { states: u, values: c.values + vs.drop_last(), toks: after };
        let q = lemma_takes_symbol(table, a, mid, x, by, back, vs.last(), rest, m);
        let _q = lalr_complete::lemma_leads_on(table, a, u.last() as int, r, j - 1);
        let v = u.push(q);
        assert(mid.values.push(vs.last()) =~= c.values + vs);
        lemma_leads_trans(
            table,
            c,
            mid,
            Run { states: v, values: c.values + vs, toks: rest },
            (n - m) as nat,
            m,
        );
        assert((n - m) as nat + m == n);
        assert(v.take(c.states.len() as int) =~= c.states) by {
            assert(u.take(c.states.len() as int) =~= c.states);
        }
        lalr_complete::lemma_trail_on(rules, a, u, base, r, j, q);
        v
    }
}

// ---------------------------------------------------------------------------
// Laws

/// A grammar whose table has no conflicts, and no two rules of which have the same
/// production, is unambiguous.
pub proof fn conflict_free_is_unambiguous(
    table: ParseTable,
    a: Automaton,
    toks: Seq<tree::TokenModel>,
    i: int,
)
    requires
        table.tabulates(a),
        lalr_complete::is_free_of_conflicts(table.models(), table.n_terminals as nat, a),
        lalr_laws::end_is_reserved(table.models()),
        productions_differ(table.models()),
        0 < table.n_terminals,
        0 <= i < a.start_states@.len(),
    ensures
        derivation::is_unambiguous(
            table.models(),
            table.n_terminals as nat,
            table.propagate_positions,
            lalr_table::start_rules(table.models(), table.starts@)[i].0,
            toks,
        ),
{
    let rules = table.models();
    let nt = table.n_terminals as nat;
    let pp = table.propagate_positions;
    let x = lalr_table::start_rules(rules, table.starts@)[i].0;
    assert(lalr_complete::is_complete(table, a)) by {
        reveal(lalr_complete::is_complete);
    }
    let by = lalr_complete::lemma_start_expects(table, a, i);
    let s = a.start_states@[i];
    let rest = seq![tree::end_token()];
    let c = Run { states: seq![s], values: Seq::empty(), toks: toks + rest };
    assert forall|v: tree_builder::SlotModel, u: tree_builder::SlotModel| #[trigger]
        derivation::yields(rules, nt, pp, x, toks, v) && #[trigger] derivation::yields(
            rules,
            nt,
            pp,
            x,
            toks,
            u,
        ) implies v == u by {
        let d = choose|d: nat| #[trigger] derivation::yields_in(rules, nt, pp, x, toks, v, d);
        let e = choose|e: nat| #[trigger] derivation::yields_in(rules, nt, pp, x, toks, u, e);
        let n = lemma_sized(rules, nt, pp, x, toks, v, d);
        let m = lemma_sized(rules, nt, pp, x, toks, u, e);
        let q = lemma_takes_symbol(table, a, c, x, by, toks, v, rest, n);
        let p = lemma_takes_symbol(table, a, c, x, by, toks, u, rest, m);
        let one = Run { states: c.states.push(q), values: c.values.push(v), toks: rest };
        let two = Run { states: c.states.push(p), values: c.values.push(u), toks: rest };
        lemma_leads_once(table, c, one, two, n, m);
        assert(one.values[0] == v);
        assert(two.values[0] == u);
    }
}

/// A sentence of a grammar whose strict table can be built, whose rules all have
/// the same priority and different productions, and whose start symbol is not
/// spliced, has one tree: the parsers agree on it.
pub proof fn strict_grammar_has_one_tree(
    grammar: CompiledGrammar,
    table: ParseTable,
    toks: Seq<tree::TokenModel>,
    start: Option<Seq<char>>,
)
    requires
        grammar.wf(),
        lalr_table::table_result(grammar, true, Ok::<ParseTable, GrammarError>(table)),
        table.wf(),
        lalr_complete::priorities_are_equal(grammar.models()),
        productions_differ(grammar.models()),
        lalr_laws::end_is_reserved(grammar.models()),
        lalr::initial(table, start) is Ok,
        derivation::is_solid(
            grammar.models(),
            lalr::resolved_start(grammar.start@, grammar.symbols@, start)->0,
        ),
    ensures
        agreement::has_one_tree(grammar, toks, start),
{
    let rules = grammar.models();
    let a = choose|a: Automaton|
        #[trigger] a.wf(rules, lalr_table::start_rules(rules, grammar.start@))
            && lalr_table::table_by(
            grammar,
            true,
            a,
            Ok::<ParseTable, GrammarError>(table),
        );
    lalr_complete::strict_is_free_of_conflicts(
        grammar.symbols@,
        rules,
        grammar.terminal_count as nat,
        a,
    );
    let id = lalr::resolved_start(table.starts@, table.symbols@, start)->0;
    let i = lalr_laws::lemma_start_index(table.start_states@, id);
    assert(table.start_states@[i] == (
        lalr_table::start_rules(rules, table.starts@)[i].0,
        a.start_states@[i],
    ));
    conflict_free_is_unambiguous(
        table,
        a,
        cyk::body(toks),
        i,
    );
}

} // verus!
