//! The CYK parser: a table of the lightest derivations of every span of the
//! input, over the grammar in normal form.

use vstd::prelude::*;
use crate::built;
use crate::built::Built;
use crate::cnf;
use crate::cnf::{add_weights, to_cnf, Cnf, CnfRule, Nt, Sym};
use crate::empty_values;
use crate::empty_values::copy_slot;
use crate::error;
use crate::error::{GrammarError, ParseError};
use crate::lalr;
use crate::lalr::resolve_start;
use crate::perf;
use crate::perf::Counters;
use crate::symbols;
use crate::symbols::{CompiledGrammar, SymbolId};
use crate::tree;
use crate::tree::{Child, ParseTree, Token, Tree};
use crate::tree_builder;
use crate::tree_builder::{Slot, TreeOutputBuilder};

verus! {

// ---------------------------------------------------------------------------
// The lightest derivation of a span

/// How a span is derived: the weight, the rule, and where its second half
/// begins.
#[derive(Clone, Copy, Debug)]
pub struct Cell {
    pub weight: i64,
    pub rule: usize,
    pub split: usize,
}

/// The order of nonterminals by which ties between derivations are settled.
pub open spec fn nt_less(a: Nt, b: Nt) -> bool {
    match (a, b) {
        (Nt::Orig(x), Nt::Orig(y)) => x.ix() < y.ix(),
        (Nt::Orig(_), _) => true,
        (Nt::Term(x), Nt::Term(y)) => x.ix() < y.ix(),
        (Nt::Term(_), Nt::Split(_, _)) => true,
        (Nt::Split(g, i), Nt::Split(h, j)) => g < h || (g == h && i < j),
        _ => false,
    }
}

/// The same order on pairs.
pub open spec fn pair_less(a: Seq<Sym>, b: Seq<Sym>) -> bool {
    nt_less(a[0]->N_0, b[0]->N_0) || (a[0] == b[0] && nt_less(a[1]->N_0, b[1]->N_0))
}

/// The lightest, and of those the first, of the first `k` rules that derive the
/// terminal `t` from `nt`.
pub open spec fn leaf(rules: Seq<cnf::CnfModel>, t: SymbolId, nt: Nt, k: nat) -> Option<Cell>
    decreases k,
{
    if k == 0 {
        None
    } else {
        let prev = leaf(rules, t, nt, (k - 1) as nat);
        let r = rules[k - 1];
        if r.lhs == nt && r.rhs == seq![Sym::T(t)] && match prev {
            None => true,
            Some(c) => r.weight < c.weight,
        } {
            Some(Cell { weight: r.weight, rule: (k - 1) as usize, split: 0 })
        } else {
            prev
        }
    }
}

/// Whether a derivation by rule `r`, split at `p`, is to be preferred to what
/// was found before it.
pub open spec fn preferred(
    rules: Seq<cnf::CnfModel>,
    prev: Option<Cell>,
    total: i64,
    p: int,
    r: cnf::CnfModel,
) -> bool {
    match prev {
        None => true,
        Some(c) => total < c.weight || (total == c.weight && c.split == p && pair_less(
            r.rhs,
            rules[c.rule as int].rhs,
        )),
    }
}

/// The weight of a derivation made of a rule and two halves.
pub open spec fn weigh(r: cnf::CnfModel, a: Cell, b: Cell) -> i64 {
    cnf::sat_sum(cnf::sat_sum(r.weight, a.weight), b.weight)
}

/// Of the derivations of the tokens `i` to `j` from `nt` that split before `p`,
/// or at `p` with one of the first `k` rules, the lightest; of those the one
/// that splits first; of those the one whose halves come first in the order of
/// nonterminals; of those the one by the first rule.
pub open spec fn branch(
    rules: Seq<cnf::CnfModel>,
    types: Seq<SymbolId>,
    i: int,
    j: int,
    nt: Nt,
    p: int,
    k: nat,
) -> Option<Cell>
    decreases 2 * (j - i), p, k,
{
    if i < 0 || p <= i || p > j {
        None
    } else if k == 0 {
        branch(rules, types, i, j, nt, p - 1, rules.len())
    } else {
        let prev = branch(rules, types, i, j, nt, p, (k - 1) as nat);
        let r = rules[k - 1];
        if r.lhs == nt && r.rhs.len() == 2 && r.rhs[0] is N && r.rhs[1] is N {
            match (
                cell(rules, types, i, p - 1, r.rhs[0]->N_0),
                cell(rules, types, p, j, r.rhs[1]->N_0),
            ) {
                (Some(a), Some(b)) => {
                    let total = weigh(r, a, b);
                    if preferred(rules, prev, total, p, r) {
                        Some(Cell { weight: total, rule: (k - 1) as usize, split: p as usize })
                    } else {
                        prev
                    }
                },
                _ => prev,
            }
        } else {
            prev
        }
    }
}

/// The chosen derivation of the tokens `i` to `j` from `nt`, if there is one.
pub open spec fn cell(
    rules: Seq<cnf::CnfModel>,
    types: Seq<SymbolId>,
    i: int,
    j: int,
    nt: Nt,
) -> Option<Cell>
    decreases 2 * (j - i) + 1, 0int, 0nat,
{
    if i < 0 || j < i || j >= types.len() {
        None
    } else if i == j {
        leaf(rules, types[i], nt, rules.len())
    } else {
        branch(rules, types, i, j, nt, j, rules.len())
    }
}

/// Whether some rule derives from `nt`.
pub open spec fn is_head(rules: Seq<cnf::CnfModel>, nt: Nt) -> bool {
    exists|r: int| 0 <= r < rules.len() && (#[trigger] rules[r]).lhs == nt
}

proof fn lemma_no_head_leaf(rules: Seq<cnf::CnfModel>, t: SymbolId, nt: Nt, k: nat)
    requires
        !is_head(rules, nt),
        k <= rules.len(),
    ensures
        leaf(rules, t, nt, k) is None,
    decreases k,
{
    if k > 0 {
        lemma_no_head_leaf(rules, t, nt, (k - 1) as nat);
        assert(rules[k - 1].lhs != nt);
    }
}

proof fn lemma_no_head_branch(
    rules: Seq<cnf::CnfModel>,
    types: Seq<SymbolId>,
    i: int,
    j: int,
    nt: Nt,
    p: int,
    k: nat,
)
    requires
        !is_head(rules, nt),
        k <= rules.len(),
    ensures
        branch(rules, types, i, j, nt, p, k) is None,
    decreases p - i, k,
{
    if i < 0 || p <= i || p > j {
    } else if k == 0 {
        lemma_no_head_branch(rules, types, i, j, nt, p - 1, rules.len());
    } else {
        lemma_no_head_branch(rules, types, i, j, nt, p, (k - 1) as nat);
        assert(rules[k - 1].lhs != nt);
    }
}

proof fn lemma_no_head(rules: Seq<cnf::CnfModel>, types: Seq<SymbolId>, i: int, j: int, nt: Nt)
    requires
        !is_head(rules, nt),
    ensures
        cell(rules, types, i, j, nt) is None,
{
    if 0 <= i <= j < types.len() {
        if i == j {
            lemma_no_head_leaf(rules, types[i], nt, rules.len());
        } else {
            lemma_no_head_branch(rules, types, i, j, nt, j, rules.len());
        }
    }
}

proof fn lemma_leaf_rule(rules: Seq<cnf::CnfModel>, t: SymbolId, nt: Nt, k: nat)
    requires
        k <= rules.len() <= usize::MAX,
    ensures
        match leaf(rules, t, nt, k) {
            Some(c) => c.rule < k && rules[c.rule as int].lhs == nt && rules[c.rule as int].rhs
                == seq![Sym::T(t)],
            None => true,
        },
    decreases k,
{
    if k > 0 {
        lemma_leaf_rule(rules, t, nt, (k - 1) as nat);
    }
}

proof fn lemma_branch_rule(
    rules: Seq<cnf::CnfModel>,
    types: Seq<SymbolId>,
    i: int,
    j: int,
    nt: Nt,
    p: int,
    k: nat,
)
    requires
        k <= rules.len() <= usize::MAX,
        j < types.len() <= usize::MAX,
    ensures
        match branch(rules, types, i, j, nt, p, k) {
            Some(c) => {
                let r = rules[c.rule as int];
                &&& c.rule < rules.len()
                &&& i < c.split <= p
                &&& r.lhs == nt
                &&& r.rhs.len() == 2 && r.rhs[0] is N && r.rhs[1] is N
                &&& cell(rules, types, i, c.split - 1, r.rhs[0]->N_0) is Some
                &&& cell(rules, types, c.split as int, j, r.rhs[1]->N_0) is Some
            },
            None => true,
        },
    decreases p - i, k,
{
    if i < 0 || p <= i || p > j {
    } else if k == 0 {
        lemma_branch_rule(rules, types, i, j, nt, p - 1, rules.len());
    } else {
        lemma_branch_rule(rules, types, i, j, nt, p, (k - 1) as nat);
    }
}

/// What the chosen derivation of a span is made of.
pub proof fn lemma_cell_rule(
    rules: Seq<cnf::CnfModel>,
    types: Seq<SymbolId>,
    i: int,
    j: int,
    nt: Nt,
)
    requires
        rules.len() <= usize::MAX,
        types.len() <= usize::MAX,
    ensures
        match cell(rules, types, i, j, nt) {
            Some(c) => {
                let r = rules[c.rule as int];
                &&& 0 <= i <= j < types.len()
                &&& c.rule < rules.len()
                &&& r.lhs == nt
                &&& i == j ==> r.rhs == seq![Sym::T(types[i])]
                &&& i < j ==> {
                    &&& i < c.split <= j
                    &&& r.rhs.len() == 2 && r.rhs[0] is N && r.rhs[1] is N
                    &&& cell(rules, types, i, c.split - 1, r.rhs[0]->N_0) is Some
                    &&& cell(rules, types, c.split as int, j, r.rhs[1]->N_0) is Some
                }
            },
            None => true,
        },
{
    if 0 <= i <= j < types.len() {
        if i == j {
            lemma_leaf_rule(rules, types[i], nt, rules.len());
        } else {
            lemma_branch_rule(rules, types, i, j, nt, j, rules.len());
        }
    }
}

// ---------------------------------------------------------------------------
// The value of a derivation

/// The value that a nonterminal builds from nothing.
pub open spec fn filler(
    empties: Seq<Option<tree_builder::SlotModel>>,
    s: SymbolId,
) -> tree_builder::SlotModel {
    if s.ix() < empties.len() && empties[s.ix() as int] is Some {
        empties[s.ix() as int]->0
    } else {
        tree_builder::SlotModel::Inline(Seq::empty())
    }
}

/// The values at the first `k` positions of a variant: the given ones in order
/// where the position is present, else what its symbol builds from nothing.
pub open spec fn refilled(
    e: Seq<SymbolId>,
    present: Seq<bool>,
    empties: Seq<Option<tree_builder::SlotModel>>,
    kids: Seq<tree_builder::SlotModel>,
    k: nat,
) -> Seq<tree_builder::SlotModel>
    decreases k,
{
    if k == 0 {
        Seq::empty()
    } else {
        let prev = refilled(e, present, empties, kids, (k - 1) as nat);
        let used = cnf::count_on(present.take(k - 1));
        prev.push(
            if present[k - 1] {
                if used < kids.len() {
                    kids[used as int]
                } else {
                    tree_builder::SlotModel::Inline(Seq::empty())
                }
            } else {
                filler(empties, e[k - 1])
            },
        )
    }
}

/// The value of a variant of a grammar rule.
pub open spec fn variant_value(
    grammar: Seq<symbols::RuleModel>,
    eff: cnf::EffModel,
    empties: Seq<Option<tree_builder::SlotModel>>,
    kids: Seq<tree_builder::SlotModel>,
) -> tree_builder::SlotModel {
    let rule = grammar[eff.rule_idx as int];
    tree_builder::assembled(
        rule,
        false,
        refilled(rule.expansion, eff.present, empties, kids, eff.present.len()),
    )
}

/// The value of a chain of variants, each the only child of the one before it;
/// the last one has the given children.
pub open spec fn chain_value(
    grammar: Seq<symbols::RuleModel>,
    effs: Seq<cnf::EffModel>,
    empties: Seq<Option<tree_builder::SlotModel>>,
    chain: Seq<usize>,
    kids: Seq<tree_builder::SlotModel>,
) -> Seq<tree_builder::SlotModel>
    decreases chain.len(),
{
    if chain.len() == 0 {
        kids
    } else {
        chain_value(
            grammar,
            effs,
            empties,
            chain.drop_last(),
            seq![variant_value(grammar, effs[chain.last() as int], empties, kids)],
        )
    }
}

/// The variants that a rule stands for, the outermost first.
pub open spec fn rule_chain(r: cnf::CnfModel) -> Seq<usize> {
    match r.alias {
        Some(a) => seq![a] + r.skipped,
        None => Seq::empty(),
    }
}

/// A grammar in normal form with what its derivations build.
pub ghost struct CykModel {
    pub grammar: Seq<symbols::RuleModel>,
    pub rules: Seq<cnf::CnfModel>,
    pub effs: Seq<cnf::EffModel>,
    pub empties: Seq<Option<tree_builder::SlotModel>>,
}

/// The values that the chosen derivation of a span hands to its parent.
pub open spec fn values(
    m: CykModel,
    tokens: Seq<tree::TokenModel>,
    types: Seq<SymbolId>,
    i: int,
    j: int,
    nt: Nt,
) -> Seq<tree_builder::SlotModel>
    decreases j - i,
{
    match cell(m.rules, types, i, j, nt) {
        None => Seq::empty(),
        Some(c) => {
            let r = m.rules[c.rule as int];
            let kids = if i >= j {
                seq![tree_builder::SlotModel::Value(tree::Node::Token(tokens[i]))]
            } else if i < c.split <= j {
                values(m, tokens, types, i, c.split - 1, r.rhs[0]->N_0) + values(
                    m,
                    tokens,
                    types,
                    c.split as int,
                    j,
                    r.rhs[1]->N_0,
                )
            } else {
                Seq::empty()
            };
            if r.lhs is Orig {
                chain_value(m.grammar, m.effs, m.empties, rule_chain(r), kids)
            } else {
                kids
            }
        },
    }
}

/// The slots of a variant of a grammar rule.
pub open spec fn variant_slots(
    grammar: Seq<symbols::RuleModel>,
    eff: cnf::EffModel,
    empties: Seq<Option<tree_builder::SlotModel>>,
    kids: Seq<tree_builder::SlotModel>,
) -> Seq<tree_builder::SlotModel> {
    let rule = grammar[eff.rule_idx as int];
    refilled(rule.expansion, eff.present, empties, kids, eff.present.len())
}

/// What the values of a chain of variants build.
pub open spec fn chain_built(
    grammar: Seq<symbols::RuleModel>,
    effs: Seq<cnf::EffModel>,
    empties: Seq<Option<tree_builder::SlotModel>>,
    chain: Seq<usize>,
    kids: Seq<tree_builder::SlotModel>,
) -> built::Totals
    decreases chain.len(),
{
    if chain.len() == 0 {
        built::nothing()
    } else {
        let eff = effs[chain.last() as int];
        built::together(
            built::reduction_built(
                grammar[eff.rule_idx as int],
                variant_slots(grammar, eff, empties, kids),
            ),
            chain_built(
                grammar,
                effs,
                empties,
                chain.drop_last(),
                seq![variant_value(grammar, eff, empties, kids)],
            ),
        )
    }
}

/// What the values of the chosen derivation of a span build.
pub open spec fn values_built(
    m: CykModel,
    tokens: Seq<tree::TokenModel>,
    types: Seq<SymbolId>,
    i: int,
    j: int,
    nt: Nt,
) -> built::Totals
    decreases j - i,
{
    match cell(m.rules, types, i, j, nt) {
        None => built::nothing(),
        Some(c) => {
            let r = m.rules[c.rule as int];
            let inner = i < j && i < c.split <= j;
            let kids = if i >= j {
                seq![tree_builder::SlotModel::Value(tree::Node::Token(tokens[i]))]
            } else if inner {
                values(m, tokens, types, i, c.split - 1, r.rhs[0]->N_0) + values(
                    m,
                    tokens,
                    types,
                    c.split as int,
                    j,
                    r.rhs[1]->N_0,
                )
            } else {
                Seq::empty()
            };
            let before = if inner {
                built::together(
                    values_built(m, tokens, types, i, c.split - 1, r.rhs[0]->N_0),
                    values_built(m, tokens, types, c.split as int, j, r.rhs[1]->N_0),
                )
            } else {
                built::nothing()
            };
            if r.lhs is Orig {
                built::together(
                    before,
                    chain_built(m.grammar, m.effs, m.empties, rule_chain(r), kids),
                )
            } else {
                before
            }
        },
    }
}

/// What a parse builds.
pub open spec fn parse_built(
    m: CykModel,
    infos: Seq<symbols::SymbolInfo>,
    starts: Seq<SymbolId>,
    tokens: Seq<tree::TokenModel>,
    start: Option<Seq<char>>,
) -> built::Totals {
    let toks = body(tokens);
    let types = types_of(toks);
    match lalr::resolved_start(starts, infos, start) {
        None => built::nothing(),
        Some(s) => values_built(m, toks, types, 0, types.len() - 1, Nt::Orig(s)),
    }
}

/// The tokens before the end of input.
pub open spec fn body(tokens: Seq<tree::TokenModel>) -> Seq<tree::TokenModel>
    decreases tokens.len(),
{
    if tokens.len() == 0 {
        Seq::empty()
    } else if tokens.last().type_id == SymbolId::spec_end() {
        body(tokens.drop_last())
    } else {
        body(tokens.drop_last()).push(tokens.last())
    }
}

/// The types of tokens.
pub open spec fn types_of(tokens: Seq<tree::TokenModel>) -> Seq<SymbolId> {
    Seq::new(tokens.len(), |i: int| tokens[i].type_id)
}

/// The parse result that the value of a start symbol stands for: its node, the
/// only node that it splices, an absent optional among them, or a node named
/// after the start symbol with all that it splices.
pub open spec fn finished(value: tree_builder::SlotModel, name: Seq<char>) -> tree::Node {
    match value {
        tree_builder::SlotModel::Value(n) => n,
        tree_builder::SlotModel::Inline(ns) => if ns.len() == 1 {
            ns[0]
        } else {
            tree::Node::Tree { data: name, children: ns, meta: tree_builder::children_meta(ns) }
        },
    }
}

/// What a parse gives: the value of the chosen derivation of all the tokens
/// from the start symbol, or a failure where there is none. A start symbol that
/// is not configured is reported.
pub open spec fn cyk_parse(
    m: CykModel,
    infos: Seq<symbols::SymbolInfo>,
    starts: Seq<SymbolId>,
    tokens: Seq<tree::TokenModel>,
    start: Option<Seq<char>>,
) -> Result<tree::Node, error::ErrorModel> {
    let toks = body(tokens);
    let types = types_of(toks);
    let failed = error::unexpected_eof_model(0, 0, Seq::empty());
    match lalr::resolved_start(starts, infos, start) {
        None => Err(error::unexpected_eof_model(0, 0, lalr::names_of(infos, starts))),
        Some(s) => if cell(m.rules, types, 0, types.len() - 1, Nt::Orig(s)) is None {
            Err(failed)
        } else {
            Ok(
                finished(
                    values(m, toks, types, 0, types.len() - 1, Nt::Orig(s))[0],
                    symbols::name_of(infos, s),
                ),
            )
        },
    }
}

// ---------------------------------------------------------------------------
// Work

/// The nonterminals that derive the tokens `i` to `j`.
pub open spec fn derivers(
    rules: Seq<cnf::CnfModel>,
    types: Seq<SymbolId>,
    i: int,
    j: int,
) -> Set<Nt> {
    Set::new(|nt: Nt| cell(rules, types, i, j, nt) is Some)
}

/// How many pairs of nonterminals the halves of the tokens `i` to `j` offer, over
/// the splits up to `p`.
pub open spec fn split_steps(
    rules: Seq<cnf::CnfModel>,
    types: Seq<SymbolId>,
    i: int,
    j: int,
    p: int,
) -> nat
    decreases p - i,
{
    if p <= i {
        0
    } else {
        split_steps(rules, types, i, j, p - 1) + derivers(rules, types, i, p - 1).len()
            * derivers(rules, types, p, j).len()
    }
}

/// The same over the first `k` spans of `l + 1` tokens.
pub open spec fn level_steps(
    rules: Seq<cnf::CnfModel>,
    types: Seq<SymbolId>,
    l: int,
    k: nat,
) -> nat
    decreases k,
{
    if k == 0 {
        0
    } else {
        level_steps(rules, types, l, (k - 1) as nat) + split_steps(
            rules,
            types,
            k - 1,
            k - 1 + l,
            k - 1 + l,
        )
    }
}

/// The same over all spans of at most `l` tokens: how many combinations the table
/// of the tokens tries.
pub open spec fn table_steps(rules: Seq<cnf::CnfModel>, types: Seq<SymbolId>, l: nat) -> nat
    decreases l,
{
    if l <= 1 {
        0
    } else {
        table_steps(rules, types, (l - 1) as nat) + level_steps(
            rules,
            types,
            l - 1,
            (types.len() - l + 1) as nat,
        )
    }
}

/// Counters with the work of a parse: a table is filled where the start symbol is
/// configured.
pub open spec fn cyk_counted(
    m: CykModel,
    infos: Seq<symbols::SymbolInfo>,
    starts: Seq<SymbolId>,
    tokens: Seq<tree::TokenModel>,
    start: Option<Seq<char>>,
    c: Counters,
) -> Counters {
    let types = types_of(body(tokens));
    if lalr::resolved_start(starts, infos, start) is None {
        c
    } else {
        built::built_counted(
            Counters {
                cyk_table_steps: perf::counted(
                    c.cyk_table_steps,
                    table_steps(m.rules, types, types.len()),
                ),
                ..c
            },
            parse_built(m, infos, starts, tokens, start),
        )
    }
}

// ---------------------------------------------------------------------------
// The parser

/// Where the parts of a rule stand in the rows of the table.
#[derive(Clone, Copy, Debug)]
pub struct Link {
    head: usize,
    left: Option<usize>,
    right: Option<usize>,
}

/// A parser that finds the lightest derivation by dynamic programming.
pub struct CykParser {
    grammar: CompiledGrammar,
    cnf: Cnf,
    heads: Vec<Nt>,
    links: Vec<Link>,
}

spec fn points_to(heads: Seq<Nt>, x: Sym, at: Option<usize>) -> bool {
    match at {
        Some(h) => h < heads.len() && x == Sym::N(heads[h as int]),
        None => match x {
            Sym::T(_) => true,
            Sym::N(a) => !heads.contains(a),
        },
    }
}

spec fn link_ok(heads: Seq<Nt>, r: cnf::CnfModel, l: Link) -> bool {
    &&& l.head < heads.len()
    &&& heads[l.head as int] == r.lhs
    &&& r.rhs.len() == 2 ==> points_to(heads, r.rhs[0], l.left) && points_to(
        heads,
        r.rhs[1],
        l.right,
    )
}

spec fn heads_ok(rules: Seq<cnf::CnfModel>, heads: Seq<Nt>) -> bool {
    &&& forall|r: int| 0 <= r < rules.len() ==> heads.contains((#[trigger] rules[r]).lhs)
    &&& forall|a: int, b: int|
        0 <= a < b < heads.len() ==> #[trigger] heads[a] != #[trigger] heads[b]
    &&& forall|a: int| 0 <= a < heads.len() ==> is_head(rules, #[trigger] heads[a])
}

fn find_nt(v: &Vec<Nt>, x: Nt) -> (r: Option<usize>)
    ensures
        match r {
            Some(i) => i < v@.len() && v@[i as int] == x,
            None => !v@.contains(x),
        },
{
    let mut i: usize = 0;
    while i < v.len()
        invariant
            i <= v@.len(),
            forall|k: int| 0 <= k < i ==> #[trigger] v@[k] != x,
        decreases v.len() - i,
    {
        if v[i] == x {
            return Some(i);
        }
        i = i + 1;
    }
    None
}

fn find_sym(v: &Vec<Nt>, x: Sym) -> (r: Option<usize>)
    ensures
        points_to(v@, x, r),
{
    match x {
        Sym::T(_) => None,
        Sym::N(a) => find_nt(v, a),
    }
}

/// Lists the nonterminals that rules derive from, and where the parts of each
/// rule stand in that list.
fn build_indices(rules: &Vec<CnfRule>) -> (r: (Vec<Nt>, Vec<Link>))
    ensures
        heads_ok(cnf::cnf_models(rules@), r.0@),
        r.1@.len() == rules@.len(),
        forall|i: int|
            0 <= i < rules@.len() ==> link_ok(r.0@, (#[trigger] rules@[i])@, r.1@[i]),
{
    let ghost models = cnf::cnf_models(rules@);
    let mut heads: Vec<Nt> = Vec::new();
    let mut i: usize = 0;
    while i < rules.len()
        invariant
            i <= rules@.len(),
            models == cnf::cnf_models(rules@),
            forall|r: int| 0 <= r < i ==> heads@.contains((#[trigger] models[r]).lhs),
            forall|a: int, b: int|
                0 <= a < b < heads@.len() ==> #[trigger] heads@[a] != #[trigger] heads@[b],
            forall|a: int| 0 <= a < heads@.len() ==> is_head(models, #[trigger] heads@[a]),
        decreases rules.len() - i,
    {
        let x = rules[i].lhs;
        let ghost before = heads@;
        proof {
            assert(models[i as int].lhs == x);
        }
        let found = find_nt(&heads, x);
        if found.is_none() {
            heads.push(x);
            proof {
                assert(heads@[before.len() as int] == x);
                assert forall|r: int| 0 <= r < i implies heads@.contains(
                    (#[trigger] models[r]).lhs,
                ) by {
                    let k = choose|k: int| 0 <= k < before.len() && before[k] == models[r].lhs;
                    assert(heads@[k] == models[r].lhs);
                }
            }
        }
        i = i + 1;
    }
    let mut links: Vec<Link> = Vec::new();
    i = 0;
    while i < rules.len()
        invariant
            i <= rules@.len(),
            models == cnf::cnf_models(rules@),
            heads_ok(models, heads@),
            links@.len() == i,
            forall|k: int| 0 <= k < i ==> link_ok(heads@, (#[trigger] rules@[k])@, links@[k]),
        decreases rules.len() - i,
    {
        let r = &rules[i];
        proof {
            assert(models[i as int] == r@);
            assert(heads@.contains(models[i as int].lhs));
        }
        let found = find_nt(&heads, r.lhs);
        let head: usize = match found {
            Some(h) => h,
            None => 0,
        };
        let (left, right) = if r.rhs.len() == 2 {
            (find_sym(&heads, r.rhs[0]), find_sym(&heads, r.rhs[1]))
        } else {
            (None, None)
        };
        links.push(Link { head, left, right });
        i = i + 1;
    }
    (heads, links)
}

fn is_nt_less(a: Nt, b: Nt) -> (r: bool)
    ensures
        r == nt_less(a, b),
{
    match (a, b) {
        (Nt::Orig(x), Nt::Orig(y)) => x.0 < y.0,
        (Nt::Orig(_), _) => true,
        (Nt::Term(x), Nt::Term(y)) => x.0 < y.0,
        (Nt::Term(_), Nt::Split(_, _)) => true,
        (Nt::Split(g, i), Nt::Split(h, j)) => g < h || (g == h && i < j),
        _ => false,
    }
}

fn nt_at(r: &CnfRule, k: usize) -> (x: Nt)
    requires
        k < r@.rhs.len(),
        r@.rhs[k as int] is N,
    ensures
        x == r@.rhs[k as int]->N_0,
{
    match r.rhs[k] {
        Sym::N(x) => x,
        Sym::T(t) => Nt::Term(t),
    }
}

spec fn row_ok(
    rules: Seq<cnf::CnfModel>,
    types: Seq<SymbolId>,
    heads: Seq<Nt>,
    row: Seq<Option<Cell>>,
    i: int,
    j: int,
) -> bool {
    &&& row.len() == heads.len()
    &&& forall|h: int|
        0 <= h < heads.len() ==> #[trigger] row[h] == cell(rules, types, i, j, heads[h])
}

spec fn chart_ok(
    rules: Seq<cnf::CnfModel>,
    types: Seq<SymbolId>,
    heads: Seq<Nt>,
    chart: Seq<Vec<Vec<Option<Cell>>>>,
    lens: int,
) -> bool {
    forall|l: int, i: int|
        0 <= l < lens && 0 <= i < types.len() - l ==> row_ok(
            rules,
            types,
            heads,
            (#[trigger] chart[l]@[i])@,
            i,
            i + l,
        )
}

spec fn chart_sized(chart: Seq<Vec<Vec<Option<Cell>>>>, n: int, lens: int) -> bool {
    &&& chart.len() >= lens
    &&& forall|l: int| 0 <= l < lens ==> (#[trigger] chart[l])@.len() == n - l
}

impl CykParser {
    /// The grammar and its normal form belong together.
    pub closed spec fn wf(&self) -> bool {
        &&& self.grammar.wf()
        &&& cnf::is_cnf_of(
            self.cnf,
            self.grammar.models(),
            self.grammar.terminal_count as nat,
            self.grammar.start@,
            self.grammar.symbols@.len(),
        )
        &&& heads_ok(cnf::cnf_models(self.cnf.rules@), self.heads@)
        &&& self.links@.len() == self.cnf.rules@.len()
        &&& forall|i: int|
            0 <= i < self.cnf.rules@.len() ==> link_ok(
                self.heads@,
                (#[trigger] self.cnf.rules@[i])@,
                self.links@[i],
            )
    }

    /// The grammar that the parser was made for.
    pub closed spec fn spec_grammar(&self) -> CompiledGrammar {
        self.grammar
    }

    /// The grammar in normal form with what its derivations build.
    pub open spec fn model(&self) -> CykModel {
        let g = self.spec_grammar();
        cyk_model(g.models(), g.terminal_count as nat, g.start@, g.symbols@.len())
    }
}

/// A grammar's normal form with what its derivations build.
pub open spec fn cyk_model(
    grammar: Seq<symbols::RuleModel>,
    nt: nat,
    starts: Seq<SymbolId>,
    n: nat,
) -> CykModel {
    CykModel {
        grammar,
        rules: cnf::unitless_rules(grammar, nt, starts)->0,
        effs: cnf::nonempty_rules(grammar, nt, starts).1,
        empties: empty_values::values_below(
            grammar,
            nt,
            cnf::empty_flags(cnf::first_rules(grammar, nt, starts), n),
            n,
        ),
    }
}

fn parse_failed() -> (r: ParseError)
    ensures
        r@ == error::unexpected_eof_model(0, 0, Seq::empty()),
{
    let r = ParseError::unexpected_eof(0, 0, Vec::new());
    proof {
        assert(crate::text::texts(Seq::<String>::empty()) =~= Seq::empty());
    }
    r
}

/// The tokens before the end of input.
pub(crate) fn body_of(tokens: &[Token]) -> (r: Vec<Token>)
    ensures
        tree::token_models(r@) == body(tree::token_models(tokens@)),
{
    let ghost models = tree::token_models(tokens@);
    let mut r: Vec<Token> = Vec::new();
    let mut i: usize = 0;
    proof {
        assert(models.take(0) =~= Seq::empty());
        assert(tree::token_models(r@) =~= Seq::empty());
    }
    while i < tokens.len()
        invariant
            i <= tokens@.len(),
            models == tree::token_models(tokens@),
            tree::token_models(r@) == body(models.take(i as int)),
        decreases tokens.len() - i,
    {
        proof {
            assert(models.take(i + 1).drop_last() =~= models.take(i as int));
            assert(models.take(i + 1).last() == tokens@[i as int]@);
        }
        if tokens[i].type_id != SymbolId::end() {
            let t = tokens[i].copy();
            let ghost before = r@;
            r.push(t);
            proof {
                assert(tree::token_models(r@) =~= tree::token_models(before).push(t@));
            }
        }
        i = i + 1;
    }
    proof {
        assert(models.take(models.len() as int) =~= models);
    }
    r
}

fn blank_cells(n: usize) -> (r: Vec<Option<Cell>>)
    ensures
        r@.len() == n,
        forall|h: int| 0 <= h < n ==> #[trigger] r@[h] is None,
{
    let mut r: Vec<Option<Cell>> = Vec::new();
    let mut i: usize = 0;
    while i < n
        invariant
            i <= n,
            r@.len() == i,
            forall|h: int| 0 <= h < i ==> #[trigger] r@[h] is None,
        decreases n - i,
    {
        r.push(None);
        i = i + 1;
    }
    r
}

impl CykParser {
    /// Prepares a parser for a grammar.
    pub fn new(grammar: CompiledGrammar) -> (r: Result<CykParser, GrammarError>)
        requires
            grammar.wf(),
        ensures
            match r {
                Ok(p) => {
                    &&& cnf::cnf_error(
                        grammar.models(),
                        grammar.terminal_count as nat,
                        grammar.start@,
                        grammar.symbols@,
                    ) is None
                    &&& p.wf()
                    &&& p.spec_grammar() == grammar
                },
                Err(GrammarError::Other { msg }) => cnf::cnf_error(
                    grammar.models(),
                    grammar.terminal_count as nat,
                    grammar.start@,
                    grammar.symbols@,
                ) == Some(msg@),
                Err(_) => false,
            },
    {
        let converted = to_cnf(&grammar);
        match converted {
            Err(e) => Err(e),
            Ok(cnf) => {
                let (heads, links) = build_indices(&cnf.rules);
                Ok(CykParser { grammar, cnf, heads, links })
            },
        }
    }

    fn start_id(&self, start: Option<&str>) -> (r: Result<SymbolId, ParseError>)
        requires
            self.wf(),
        ensures
            match r {
                Ok(id) => lalr::resolved_start(
                    self.spec_grammar().start@,
                    self.spec_grammar().symbols@,
                    lalr::opt_text(start),
                ) == Some(id),
                Err(e) => lalr::resolved_start(
                    self.spec_grammar().start@,
                    self.spec_grammar().symbols@,
                    lalr::opt_text(start),
                ) is None && e@ == error::unexpected_eof_model(
                    0,
                    0,
                    lalr::names_of(self.spec_grammar().symbols@, self.spec_grammar().start@),
                ),
            },
    {
        resolve_start(&self.grammar.start, &self.grammar.symbols, start)
    }

    /// The derivations of one token.
    fn leaf_row(&self, t: SymbolId) -> (row: Vec<Option<Cell>>)
        requires
            self.wf(),
        ensures
            row@.len() == self.heads@.len(),
            forall|h: int|
                0 <= h < row@.len() ==> #[trigger] row@[h] == leaf(
                    cnf::cnf_models(self.cnf.rules@),
                    t,
                    self.heads@[h],
                    self.cnf.rules@.len(),
                ),
    {
        let ghost rules = cnf::cnf_models(self.cnf.rules@);
        let mut row = blank_cells(self.heads.len());
        let mut k: usize = 0;
        while k < self.cnf.rules.len()
            invariant
                self.wf(),
                k <= self.cnf.rules@.len(),
                rules == cnf::cnf_models(self.cnf.rules@),
                row@.len() == self.heads@.len(),
                forall|h: int|
                    0 <= h < row@.len() ==> #[trigger] row@[h] == leaf(
                        rules,
                        t,
                        self.heads@[h],
                        k as nat,
                    ),
            decreases self.cnf.rules.len() - k,
        {
            let r = &self.cnf.rules[k];
            let link = self.links[k];
            proof {
                assert(rules[k as int] == r@);
                assert(link_ok(self.heads@, self.cnf.rules@[k as int]@, self.links@[k as int]));
            }
            let fits = r.rhs.len() == 1 && r.rhs[0] == Sym::T(t);
            proof {
                assert(fits == (r@.rhs =~= seq![Sym::T(t)]));
            }
            if fits {
                let better = match row[link.head] {
                    None => true,
                    Some(c) => r.weight < c.weight,
                };
                if better {
                    row.set(link.head, Some(Cell { weight: r.weight, rule: k, split: 0 }));
                }
            }
            k = k + 1;
        }
        row
    }

    /// The derivations of the `l + 1` tokens from `i` on, given those of all
    /// shorter spans.
    #[verifier::rlimit(60)]
    fn branch_row(
        &self,
        Ghost(types): Ghost<Seq<SymbolId>>,
        chart: &Vec<Vec<Vec<Option<Cell>>>>,
        i: usize,
        l: usize,
    ) -> (row: Vec<Option<Cell>>)
        requires
            self.wf(),
            l >= 1,
            i + l < types.len() <= usize::MAX,
            chart_sized(chart@, types.len() as int, l as int),
            chart_ok(
                cnf::cnf_models(self.cnf.rules@),
                types,
                self.heads@,
                chart@,
                l as int,
            ),
        ensures
            row_ok(
                cnf::cnf_models(self.cnf.rules@),
                types,
                self.heads@,
                row@,
                i as int,
                i + l,
            ),
    {
        let ghost rules = cnf::cnf_models(self.cnf.rules@);
        let ghost heads = self.heads@;
        let n_rules: usize = self.cnf.rules.len();
        let j: usize = i + l;
        let mut row = blank_cells(self.heads.len());
        let mut p: usize = i + 1;
        proof {
            assert forall|h: int| 0 <= h < row@.len() implies #[trigger] row@[h] == branch(
                rules,
                types,
                i as int,
                j as int,
                heads[h],
                i as int,
                rules.len(),
            ) by {}
        }
        while p <= j
            invariant
                self.wf(),
                l >= 1,
                j == i + l,
                j < types.len() <= usize::MAX,
                i + 1 <= p <= j + 1,
                rules == cnf::cnf_models(self.cnf.rules@),
                n_rules == rules.len(),
                heads == self.heads@,
                chart_sized(chart@, types.len() as int, l as int),
                chart_ok(rules, types, heads, chart@, l as int),
                row@.len() == heads.len(),
                forall|h: int|
                    0 <= h < row@.len() ==> #[trigger] row@[h] == branch(
                        rules,
                        types,
                        i as int,
                        j as int,
                        heads[h],
                        p - 1,
                        rules.len(),
                    ),
            decreases j + 1 - p,
        {
            let left = &chart[p - 1 - i][i];
            let right = &chart[j - p][p];
            proof {
                assert(row_ok(rules, types, heads, chart@[p - 1 - i]@[i as int]@, i as int, p - 1));
                assert(row_ok(rules, types, heads, chart@[j - p]@[p as int]@, p as int, j as int));
                assert forall|h: int| 0 <= h < row@.len() implies #[trigger] row@[h] == branch(
                    rules,
                    types,
                    i as int,
                    j as int,
                    heads[h],
                    p as int,
                    0,
                ) by {}
            }
            let mut k: usize = 0;
            while k < n_rules
                invariant
                    self.wf(),
                    j < types.len() <= usize::MAX,
                    i < p <= j,
                    k <= n_rules,
                    rules == cnf::cnf_models(self.cnf.rules@),
                    n_rules == rules.len(),
                    heads == self.heads@,
                    row_ok(rules, types, heads, left@, i as int, p - 1),
                    row_ok(rules, types, heads, right@, p as int, j as int),
                    row@.len() == heads.len(),
                    forall|h: int|
                        0 <= h < row@.len() ==> #[trigger] row@[h] == branch(
                            rules,
                            types,
                            i as int,
                            j as int,
                            heads[h],
                            p as int,
                            k as nat,
                        ),
                decreases n_rules - k,
            {
                let ghost before = row@;
                self.try_rule(
                    Ghost(types),
                    left,
                    right,
                    &mut row,
                    Ghost(i as int),
                    Ghost(j as int),
                    p,
                    k,
                );
                k = k + 1;
            }
            p = p + 1;
        }
        row
    }

    /// Enters the derivation of a span by one rule, if it is to be preferred.
    #[verifier::rlimit(40)]
    fn try_rule(
        &self,
        Ghost(types): Ghost<Seq<SymbolId>>,
        left: &Vec<Option<Cell>>,
        right: &Vec<Option<Cell>>,
        row: &mut Vec<Option<Cell>>,
        Ghost(i): Ghost<int>,
        Ghost(j): Ghost<int>,
        p: usize,
        k: usize,
    )
        requires
            self.wf(),
            0 <= i < p <= j < types.len() <= usize::MAX,
            k < self.cnf.rules@.len(),
            row_ok(
                cnf::cnf_models(self.cnf.rules@),
                types,
                self.heads@,
                left@,
                i,
                p - 1,
            ),
            row_ok(
                cnf::cnf_models(self.cnf.rules@),
                types,
                self.heads@,
                right@,
                p as int,
                j,
            ),
            old(row)@.len() == self.heads@.len(),
            forall|h: int|
                0 <= h < old(row)@.len() ==> #[trigger] old(row)@[h] == branch(
                    cnf::cnf_models(self.cnf.rules@),
                    types,
                    i,
                    j,
                    self.heads@[h],
                    p as int,
                    k as nat,
                ),
        ensures
            final(row)@.len() == self.heads@.len(),
            forall|h: int|
                0 <= h < final(row)@.len() ==> #[trigger] final(row)@[h] == branch(
                    cnf::cnf_models(self.cnf.rules@),
                    types,
                    i,
                    j,
                    self.heads@[h],
                    p as int,
                    (k + 1) as nat,
                ),
    {
        let ghost rules = cnf::cnf_models(self.cnf.rules@);
        let ghost heads = self.heads@;
        let ghost before = row@;
        let n_rules: usize = self.cnf.rules.len();
        let r = &self.cnf.rules[k];
        let link = self.links[k];
        proof {
            assert(rules[k as int] == r@);
            assert(link_ok(heads, self.cnf.rules@[k as int]@, self.links@[k as int]));
            assert(cnf::is_normal(self.cnf.rules@[k as int]@));
        }
        let found = if r.rhs.len() == 2 {
            match (link.left, link.right) {
                (Some(a), Some(b)) => match (left[a], right[b]) {
                    (Some(x), Some(y)) => Some((x, y)),
                    _ => None,
                },
                _ => None,
            }
        } else {
            None
        };
        proof {
            if r@.rhs.len() == 2 {
                let a = r@.rhs[0]->N_0;
                let b = r@.rhs[1]->N_0;
                if link.left is None {
                    lemma_unlisted(rules, types, heads, i, p - 1, a);
                }
                if link.right is None {
                    lemma_unlisted(rules, types, heads, p as int, j, b);
                }
                assert(match found {
                    Some((x, y)) => cell(rules, types, i, p - 1, a) == Some(x) && cell(
                        rules,
                        types,
                        p as int,
                        j,
                        b,
                    ) == Some(y),
                    None => cell(rules, types, i, p - 1, a) is None || cell(
                        rules,
                        types,
                        p as int,
                        j,
                        b,
                    ) is None,
                });
            }
        }
        if let Some((x, y)) = found {
            let total: i64 = add_weights(add_weights(r.weight, x.weight), y.weight);
            let better = match row[link.head] {
                None => true,
                Some(c) => {
                    proof {
                        assert(before[link.head as int] == branch(
                            rules,
                            types,
                            i,
                            j,
                            heads[link.head as int],
                            p as int,
                            k as nat,
                        ));
                        lemma_branch_rule(
                            rules,
                            types,
                            i,
                            j,
                            heads[link.head as int],
                            p as int,
                            k as nat,
                        );
                        assert(rules[c.rule as int] == self.cnf.rules@[c.rule as int]@);
                    }
                    let old_rule = &self.cnf.rules[c.rule];
                    total < c.weight || (total == c.weight && c.split == p && (is_nt_less(
                        nt_at(r, 0),
                        nt_at(old_rule, 0),
                    ) || (r.rhs[0] == old_rule.rhs[0] && is_nt_less(
                        nt_at(r, 1),
                        nt_at(old_rule, 1),
                    ))))
                },
            };
            if better {
                row.set(link.head, Some(Cell { weight: total, rule: k, split: p }));
            }
        }
        proof {
            assert forall|h: int| 0 <= h < row@.len() implies #[trigger] row@[h] == branch(
                rules,
                types,
                i,
                j,
                heads[h],
                p as int,
                (k + 1) as nat,
            ) by {
                assert(before[h] == branch(rules, types, i, j, heads[h], p as int, k as nat));
                if h != link.head {
                    assert(heads[h] != heads[link.head as int]);
                }
            }
        }
    }

    /// The table of the derivations of all spans, by length and start.
    fn chart(&self, tokens: &Vec<Token>) -> (chart: Vec<Vec<Vec<Option<Cell>>>>)
        requires
            self.wf(),
        ensures
            chart_sized(chart@, tokens@.len() as int, tokens@.len() as int),
            chart_ok(
                cnf::cnf_models(self.cnf.rules@),
                types_of(tree::token_models(tokens@)),
                self.heads@,
                chart@,
                tokens@.len() as int,
            ),
    {
        let ghost rules = cnf::cnf_models(self.cnf.rules@);
        let ghost types = types_of(tree::token_models(tokens@));
        let ghost heads = self.heads@;
        let n: usize = tokens.len();
        let mut chart: Vec<Vec<Vec<Option<Cell>>>> = Vec::new();
        if n == 0 {
            return chart;
        }
        let mut first: Vec<Vec<Option<Cell>>> = Vec::new();
        let mut i: usize = 0;
        while i < n
            invariant
                self.wf(),
                i <= n,
                n == tokens@.len(),
                rules == cnf::cnf_models(self.cnf.rules@),
                types == types_of(tree::token_models(tokens@)),
                heads == self.heads@,
                first@.len() == i,
                forall|q: int|
                    0 <= q < i ==> row_ok(rules, types, heads, (#[trigger] first@[q])@, q, q),
            decreases n - i,
        {
            let row = self.leaf_row(tokens[i].type_id);
            proof {
                assert(types[i as int] == tokens@[i as int].type_id);
                assert(row_ok(rules, types, heads, row@, i as int, i as int));
            }
            first.push(row);
            i = i + 1;
        }
        chart.push(first);
        let mut l: usize = 1;
        while l < n
            invariant
                self.wf(),
                1 <= l <= n,
                n == tokens@.len(),
                rules == cnf::cnf_models(self.cnf.rules@),
                types == types_of(tree::token_models(tokens@)),
                heads == self.heads@,
                chart@.len() == l,
                chart_sized(chart@, n as int, l as int),
                chart_ok(rules, types, heads, chart@, l as int),
            decreases n - l,
        {
            let mut level: Vec<Vec<Option<Cell>>> = Vec::new();
            let mut i: usize = 0;
            while i < n - l
                invariant
                    self.wf(),
                    1 <= l < n,
                    i <= n - l,
                    n == tokens@.len(),
                    rules == cnf::cnf_models(self.cnf.rules@),
                    types == types_of(tree::token_models(tokens@)),
                    heads == self.heads@,
                    chart@.len() == l,
                    chart_sized(chart@, n as int, l as int),
                    chart_ok(rules, types, heads, chart@, l as int),
                    level@.len() == i,
                    forall|q: int|
                        0 <= q < i ==> row_ok(
                            rules,
                            types,
                            heads,
                            (#[trigger] level@[q])@,
                            q,
                            q + l,
                        ),
                decreases n - l - i,
            {
                let row = self.branch_row(Ghost(types), &chart, i, l);
                level.push(row);
                i = i + 1;
            }
            let ghost before = chart@;
            chart.push(level);
            proof {
                assert forall|a: int, b: int|
                    0 <= a < l + 1 && 0 <= b < types.len() - a implies row_ok(
                    rules,
                    types,
                    heads,
                    (#[trigger] chart@[a]@[b])@,
                    b,
                    b + a,
                ) by {
                    if a < l {
                        assert(chart@[a] == before[a]);
                        assert(row_ok(rules, types, heads, before[a]@[b]@, b, b + a));
                    } else {
                        assert(row_ok(rules, types, heads, level@[b]@, b, b + l));
                    }
                }
            }
            l = l + 1;
        }
        chart
    }
}

/// How many cells of a row are filled.
fn live_cells(
    Ghost(rules): Ghost<Seq<cnf::CnfModel>>,
    Ghost(types): Ghost<Seq<SymbolId>>,
    heads: &Vec<Nt>,
    row: &Vec<Option<Cell>>,
    Ghost(i): Ghost<int>,
    Ghost(j): Ghost<int>,
) -> (r: usize)
    requires
        heads_ok(rules, heads@),
        row_ok(rules, types, heads@, row@, i, j),
    ensures
        r == derivers(rules, types, i, j).len(),
{
    let ghost mut found: Set<Nt> = Set::empty();
    let mut r: usize = 0;
    let mut h: usize = 0;
    while h < row.len()
        invariant
            h <= row@.len(),
            r <= h,
            heads_ok(rules, heads@),
            row_ok(rules, types, heads@, row@, i, j),
            found.finite(),
            found.len() == r,
            forall|nt: Nt| #[trigger]
                found.contains(nt) <==> exists|q: int|
                    0 <= q < h && #[trigger] heads@[q] == nt && cell(rules, types, i, j, nt) is Some,
        decreases row.len() - h,
    {
        let ghost before = found;
        if row[h].is_some() {
            proof {
                let nt = heads@[h as int];
                assert(!found.contains(nt));
                found = found.insert(nt);
            }
            r = r + 1;
        }
        proof {
            assert forall|nt: Nt| #[trigger] found.contains(nt) <==> exists|q: int|
                0 <= q < h + 1 && #[trigger] heads@[q] == nt && cell(
                    rules,
                    types,
                    i,
                    j,
                    nt,
                ) is Some by {
                if found.contains(nt) {
                    if before.contains(nt) {
                        let q = choose|q: int|
                            0 <= q < h && #[trigger] heads@[q] == nt && cell(
                                rules,
                                types,
                                i,
                                j,
                                nt,
                            ) is Some;
                        assert(heads@[q] == nt);
                    } else {
                        assert(heads@[h as int] == nt);
                    }
                }
                if exists|q: int|
                    0 <= q < h + 1 && #[trigger] heads@[q] == nt && cell(
                        rules,
                        types,
                        i,
                        j,
                        nt,
                    ) is Some {
                    let q = choose|q: int|
                        0 <= q < h + 1 && #[trigger] heads@[q] == nt && cell(
                            rules,
                            types,
                            i,
                            j,
                            nt,
                        ) is Some;
                    if q < h {
                        assert(before.contains(nt));
                    }
                }
            }
        }
        h = h + 1;
    }
    proof {
        assert forall|nt: Nt| #[trigger] found.contains(nt) == derivers(
            rules,
            types,
            i,
            j,
        ).contains(nt) by {
            if cell(rules, types, i, j, nt) is Some {
                if !heads@.contains(nt) {
                    lemma_unlisted(rules, types, heads@, i, j, nt);
                }
                let q = choose|q: int| 0 <= q < heads@.len() && heads@[q] == nt;
                assert(heads@[q] == nt);
            }
        }
        assert(found =~= derivers(rules, types, i, j));
    }
    r
}

/// A count with a product added.
fn count_product(n: u64, a: usize, b: usize) -> (r: u64)
    ensures
        r == perf::counted(n, (a as nat) * (b as nat)),
{
    let mut r: u64 = n;
    let mut k: usize = 0;
    proof {
        perf::lemma_counted_nothing(n);
        assert(0 * (b as nat) == 0);
    }
    while k < a
        invariant
            k <= a,
            r == perf::counted(n, (k as nat) * (b as nat)),
        decreases a - k,
    {
        proof {
            assert((k as nat + 1) * (b as nat) == (k as nat) * (b as nat) + b as nat)
                by (nonlinear_arith);
            perf::lemma_counted(n, (k as nat) * (b as nat), b as nat);
        }
        r = perf::count(r, b as u64);
        k = k + 1;
    }
    r
}

impl CykParser {
    /// A count with the combinations added that the table of the tokens tries.
    #[verifier::rlimit(40)]
    fn count_steps(
        &self,
        Ghost(types): Ghost<Seq<SymbolId>>,
        chart: &Vec<Vec<Vec<Option<Cell>>>>,
        n: usize,
        first: u64,
    ) -> (r: u64)
        requires
            self.wf(),
            n == types.len(),
            chart_sized(chart@, n as int, n as int),
            chart_ok(cnf::cnf_models(self.cnf.rules@), types, self.heads@, chart@, n as int),
        ensures
            r == perf::counted(
                first,
                table_steps(cnf::cnf_models(self.cnf.rules@), types, n as nat),
            ),
    {
        let ghost rules = cnf::cnf_models(self.cnf.rules@);
        let mut r: u64 = first;
        if n == 0 {
            proof {
                perf::lemma_counted_nothing(first);
            }
            return r;
        }
        let mut l: usize = 1;
        proof {
            perf::lemma_counted_nothing(first);
        }
        while l < n
            invariant
                self.wf(),
                rules == cnf::cnf_models(self.cnf.rules@),
                1 <= l <= n,
                n == types.len(),
                chart_sized(chart@, n as int, n as int),
                chart_ok(rules, types, self.heads@, chart@, n as int),
                r == perf::counted(first, table_steps(rules, types, l as nat)),
            decreases n - l,
        {
            let ghost done = table_steps(rules, types, l as nat);
            let mut i: usize = 0;
            while i < n - l
                invariant
                    self.wf(),
                    rules == cnf::cnf_models(self.cnf.rules@),
                    1 <= l < n,
                    i <= n - l,
                    n == types.len(),
                    chart_sized(chart@, n as int, n as int),
                    chart_ok(rules, types, self.heads@, chart@, n as int),
                    r == perf::counted(
                        first,
                        done + level_steps(rules, types, l as int, i as nat),
                    ),
                decreases n - l - i,
            {
                let ghost sum = done + level_steps(rules, types, l as int, i as nat);
                let j: usize = i + l;
                let mut p: usize = i + 1;
                while p <= j
                    invariant
                        self.wf(),
                        rules == cnf::cnf_models(self.cnf.rules@),
                        1 <= l < n,
                        i + 1 <= p <= j + 1,
                        j == i + l,
                        j < n,
                        n == types.len(),
                        chart_sized(chart@, n as int, n as int),
                        chart_ok(rules, types, self.heads@, chart@, n as int),
                        r == perf::counted(
                            first,
                            sum + split_steps(rules, types, i as int, j as int, p - 1),
                        ),
                    decreases j + 1 - p,
                {
                    let ghost sofar = sum + split_steps(
                        rules,
                        types,
                        i as int,
                        j as int,
                        p - 1,
                    );
                    let left = &chart[p - 1 - i][i];
                    let right = &chart[j - p][p];
                    proof {
                        assert(row_ok(
                            rules,
                            types,
                            self.heads@,
                            chart@[p - 1 - i]@[i as int]@,
                            i as int,
                            p - 1,
                        ));
                        assert(row_ok(
                            rules,
                            types,
                            self.heads@,
                            chart@[j - p]@[p as int]@,
                            p as int,
                            j as int,
                        ));
                    }
                    let a: usize = live_cells(
                        Ghost(rules),
                        Ghost(types),
                        &self.heads,
                        left,
                        Ghost(i as int),
                        Ghost(p - 1),
                    );
                    let b: usize = live_cells(
                        Ghost(rules),
                        Ghost(types),
                        &self.heads,
                        right,
                        Ghost(p as int),
                        Ghost(j as int),
                    );
                    proof {
                        perf::lemma_counted(first, sofar, (a as nat) * (b as nat));
                    }
                    r = count_product(r, a, b);
                    p = p + 1;
                }
                i = i + 1;
            }
            l = l + 1;
        }
        r
    }
}

proof fn lemma_unlisted(
    rules: Seq<cnf::CnfModel>,
    types: Seq<SymbolId>,
    heads: Seq<Nt>,
    i: int,
    j: int,
    nt: Nt,
)
    requires
        heads_ok(rules, heads),
        !heads.contains(nt),
    ensures
        cell(rules, types, i, j, nt) is None,
{
    assert(!is_head(rules, nt)) by {
        if is_head(rules, nt) {
            let r = choose|r: int| 0 <= r < rules.len() && (#[trigger] rules[r]).lhs == nt;
            assert(heads.contains(rules[r].lhs));
        }
    }
    lemma_no_head(rules, types, i, j, nt);
}

impl CykParser {
    /// The value of a variant of a grammar rule.
    fn assemble_variant(&self, e: usize, kids: Vec<Slot>, b: &mut Built) -> (r: Slot)
        requires
            self.wf(),
            e < self.cnf.effs@.len(),
        ensures
            *final(b) == built::with(
                *old(b),
                ({
                    let eff = cnf::eff_models(self.cnf.effs@)[e as int];
                    built::reduction_built(
                        self.grammar.models()[eff.rule_idx as int],
                        variant_slots(
                            self.grammar.models(),
                            eff,
                            empty_values::memo_models(self.cnf.empties@),
                            tree_builder::slot_models(kids@),
                        ),
                    )
                }),
            ),
            r@ == variant_value(
                self.grammar.models(),
                cnf::eff_models(self.cnf.effs@)[e as int],
                empty_values::memo_models(self.cnf.empties@),
                tree_builder::slot_models(kids@),
            ),
    {
        let ghost grammar = self.grammar.models();
        let ghost eff = cnf::eff_models(self.cnf.effs@)[e as int];
        let ghost empties = empty_values::memo_models(self.cnf.empties@);
        let ghost given = tree_builder::slot_models(kids@);
        proof {
            assert(eff.rule_idx < grammar.len());
            assert(grammar[eff.rule_idx as int] == self.grammar.rules@[eff.rule_idx as int]@);
        }
        let idx: usize = self.cnf.effs[e].rule_idx;
        let present = &self.cnf.effs[e].present;
        let expansion = &self.grammar.rules[idx].expansion;
        let mut kids = kids;
        let mut used: usize = 0;
        let mut slots: Vec<Slot> = Vec::new();
        let mut k: usize = 0;
        proof {
            assert(tree_builder::slot_models(slots@) =~= Seq::empty());
            assert(given.skip(0) =~= given);
            assert(present@.take(0) =~= Seq::empty());
        }
        while k < present.len()
            invariant
                k <= present@.len(),
                present@.len() == expansion@.len(),
                empties == empty_values::memo_models(self.cnf.empties@),
                used == cnf::count_on(present@.take(k as int)),
                used <= k,
                tree_builder::slot_models(kids@) == given.skip(if used <= given.len() {
                    used as int
                } else {
                    given.len() as int
                }),
                tree_builder::slot_models(slots@) == refilled(
                    expansion@,
                    present@,
                    empties,
                    given,
                    k as nat,
                ),
            decreases present.len() - k,
        {
            let ghost left = tree_builder::slot_models(kids@);
            let ghost done = slots@;
            proof {
                assert(present@.take(k + 1).drop_last() =~= present@.take(k as int));
                assert(present@.take(k + 1).last() == present@[k as int]);
            }
            let value = if present[k] {
                used = used + 1;
                if kids.len() > 0 {
                    let v = kids.remove(0);
                    proof {
                        assert(tree_builder::slot_models(kids@) =~= left.skip(1));
                        assert(left.skip(1) =~= given.skip(used as int));
                        assert(v@ == left[0]);
                    }
                    v
                } else {
                    proof {
                        assert(left.len() == 0);
                    }
                    empty_slot()
                }
            } else {
                self.fill(expansion[k])
            };
            slots.push(value);
            proof {
                assert(tree_builder::slot_models(slots@) =~= tree_builder::slot_models(done).push(
                    value@,
                ));
            }
            k = k + 1;
        }
        let builder = TreeOutputBuilder::new(&self.grammar.rules);
        builder.assemble_counted(idx, slots, b)
    }

    fn fill(&self, s: SymbolId) -> (r: Slot)
        ensures
            r@ == filler(empty_values::memo_models(self.cnf.empties@), s),
    {
        let ix: usize = s.index();
        if ix < self.cnf.empties.len() {
            if let Some(v) = &self.cnf.empties[ix] {
                return copy_slot(v);
            }
        }
        empty_slot()
    }

    /// The values that the derivation of a span hands to its parent.
    #[verifier::rlimit(40)]
    fn revert(
        &self,
        tokens: &Vec<Token>,
        chart: &Vec<Vec<Vec<Option<Cell>>>>,
        i: usize,
        l: usize,
        nt: Nt,
        b: &mut Built,
    ) -> (r: Vec<Slot>)
        requires
            self.wf(),
            i + l < tokens@.len(),
            chart_sized(chart@, tokens@.len() as int, tokens@.len() as int),
            chart_ok(
                cnf::cnf_models(self.cnf.rules@),
                types_of(tree::token_models(tokens@)),
                self.heads@,
                chart@,
                tokens@.len() as int,
            ),
        ensures
            *final(b) == built::with(
                *old(b),
                values_built(
                    self.model(),
                    tree::token_models(tokens@),
                    types_of(tree::token_models(tokens@)),
                    i as int,
                    i + l,
                    nt,
                ),
            ),
            tree_builder::slot_models(r@) == values(
                self.model(),
                tree::token_models(tokens@),
                types_of(tree::token_models(tokens@)),
                i as int,
                i + l,
                nt,
            ),
        decreases l,
    {
        let ghost m = self.model();
        let ghost models = tree::token_models(tokens@);
        let ghost types = types_of(models);
        let ghost rules = cnf::cnf_models(self.cnf.rules@);
        let n_tokens: usize = tokens.len();
        let n_rules: usize = self.cnf.rules.len();
        let ghost b0 = *b;
        let ghost mut got = built::nothing();
        proof {
            lemma_cell_rule(rules, types, i as int, i + l, nt);
            built::lemma_with_nothing(b0);
        }
        let found = find_nt(&self.heads, nt);
        let picked = match found {
            Some(h) => {
                proof {
                    assert(row_ok(
                        rules,
                        types,
                        self.heads@,
                        chart@[l as int]@[i as int]@,
                        i as int,
                        i + l,
                    ));
                }
                chart[l][i][h]
            },
            None => {
                proof {
                    lemma_unlisted(rules, types, self.heads@, i as int, i + l, nt);
                }
                None
            },
        };
        match picked {
            None => {
                let none: Vec<Slot> = Vec::new();
                proof {
                    assert(cell(m.rules, types, i as int, i + l, nt) is None);
                    assert(tree_builder::slot_models(none@) =~= Seq::empty());
                }
                none
            },
            Some(c) => {
                let r = &self.cnf.rules[c.rule];
                proof {
                    assert(rules[c.rule as int] == r@);
                }
                let mut kids: Vec<Slot> = Vec::new();
                if l == 0 {
                    kids.push(Slot::Token(tokens[i].copy()));
                    proof {
                        assert(tree_builder::slot_models(kids@) =~= seq![
                            tree_builder::SlotModel::Value(tree::Node::Token(models[i as int])),
                        ]);
                    }
                } else {
                    let p: usize = c.split;
                    let j: usize = i + l;
                    kids = self.revert(tokens, chart, i, p - 1 - i, nt_at(r, 0), b);
                    let mut rest = self.revert(tokens, chart, p, j - p, nt_at(r, 1), b);
                    proof {
                        let t = values_built(m, models, types, i as int, p - 1, r@.rhs[0]->N_0);
                        let u = values_built(m, models, types, p as int, j as int, r@.rhs[1]->N_0);
                        built::lemma_with(b0, t, u);
                        got = built::together(t, u);
                    }
                    let ghost a = kids@;
                    let ghost b = rest@;
                    kids.append(&mut rest);
                    proof {
                        assert(tree_builder::slot_models(kids@) =~= tree_builder::slot_models(a)
                            + tree_builder::slot_models(b));
                    }
                }
                let ghost given = tree_builder::slot_models(kids@);
                proof {
                    assert(cnf::rule_aliased(rules[c.rule as int], self.cnf.effs@.len()));
                }
                match (r.lhs, r.alias) {
                    (Nt::Orig(_), Some(alias)) => {
                        let ghost chain = rule_chain(r@);
                        let n_skipped: usize = r.skipped.len();
                        let mut k: usize = n_skipped;
                        proof {
                            assert(chain.take((n_skipped + 1) as int) =~= chain);
                        }
                        let ghost whole = chain_built(m.grammar, m.effs, m.empties, chain, given);
                        let ghost mut done = built::nothing();
                        proof {
                            assert(built::together(done, whole) == whole);
                            assert(built::together(got, done) == got);
                        }
                        while k > 0
                            invariant
                                self.wf(),
                                *b == built::with(b0, built::together(got, done)),
                                whole == built::together(
                                    done,
                                    chain_built(
                                        m.grammar,
                                        m.effs,
                                        m.empties,
                                        chain.take(k + 1),
                                        tree_builder::slot_models(kids@),
                                    ),
                                ),
                                k <= n_skipped,
                                n_skipped == r.skipped@.len(),
                                chain == seq![alias] + r.skipped@,
                                alias < self.cnf.effs@.len(),
                                m == self.model(),
                                forall|q: int|
                                    0 <= q < r.skipped@.len() ==> #[trigger] r.skipped@[q]
                                        < self.cnf.effs@.len(),
                                chain_value(m.grammar, m.effs, m.empties, chain, given)
                                    == chain_value(
                                    m.grammar,
                                    m.effs,
                                    m.empties,
                                    chain.take(k + 1),
                                    tree_builder::slot_models(kids@),
                                ),
                            decreases k,
                        {
                            let e: usize = r.skipped[k - 1];
                            let ghost before = tree_builder::slot_models(kids@);
                            proof {
                                assert(chain.take(k + 1).last() == e);
                                assert(chain.take(k + 1).drop_last() =~= chain.take(k as int));
                            }
                            let v = self.assemble_variant(e, kids, b);
                            kids = Vec::new();
                            kids.push(v);
                            proof {
                                let t = built::reduction_built(
                                    m.grammar[m.effs[e as int].rule_idx as int],
                                    variant_slots(m.grammar, m.effs[e as int], m.empties, before),
                                );
                                built::lemma_with(b0, built::together(got, done), t);
                                done = built::together(done, t);
                                assert(tree_builder::slot_models(kids@) =~= seq![v@]);
                            }
                            k = k - 1;
                        }
                        proof {
                            assert(chain.take(1).last() == alias);
                            assert(chain.take(1).drop_last() =~= Seq::empty());
                        }
                        let ghost last = tree_builder::slot_models(kids@);
                        let v = self.assemble_variant(alias, kids, b);
                        proof {
                            let eff = m.effs[alias as int];
                            let t = built::reduction_built(
                                m.grammar[eff.rule_idx as int],
                                variant_slots(m.grammar, eff, m.empties, last),
                            );
                            built::lemma_with(b0, built::together(got, done), t);
                            assert(chain_built(
                                m.grammar,
                                m.effs,
                                m.empties,
                                Seq::empty(),
                                seq![v@],
                            ) == built::nothing());
                            assert(built::together(t, built::nothing()) == t);
                            assert(chain.take(1).last() == alias);
                            assert(chain.take(1).drop_last() =~= Seq::empty());
                            assert(whole == built::together(done, t));
                            assert(*b == built::with(b0, built::together(got, whole)));
                        }
                        let mut out: Vec<Slot> = Vec::new();
                        out.push(v);
                        proof {
                            assert(tree_builder::slot_models(out@) =~= seq![v@]);
                            assert(chain_value(
                                m.grammar,
                                m.effs,
                                m.empties,
                                Seq::empty(),
                                seq![v@],
                            ) == seq![v@]);
                            assert(chain_value(m.grammar, m.effs, m.empties, chain, given)
                                == seq![v@]);
                        }
                        out
                    },
                    _ => kids,
                }
            },
        }
    }

    /// Parses tokens from a start symbol.
    pub fn parse(&self, tokens: &[Token], start: Option<&str>) -> (r: Result<
        ParseTree,
        ParseError,
    >)
        requires
            self.wf(),
        ensures
            lalr::parsed(r) == cyk_parse(
                self.model(),
                self.spec_grammar().symbols@,
                self.spec_grammar().start@,
                tree::token_models(tokens@),
                lalr::opt_text(start),
            ),
    {
        let mut steps: u64 = 0;
        let mut built = Built::new();
        self.parse_with(tokens, start, &mut steps, false, &mut built)
    }

    /// The same; the combinations that the table tries, and what is built, are
    /// counted.
    pub fn parse_counted(
        &self,
        tokens: &[Token],
        start: Option<&str>,
        c: &mut Counters,
    ) -> (r: Result<ParseTree, ParseError>)
        requires
            self.wf(),
        ensures
            lalr::parsed(r) == cyk_parse(
                self.model(),
                self.spec_grammar().symbols@,
                self.spec_grammar().start@,
                tree::token_models(tokens@),
                lalr::opt_text(start),
            ),
            *final(c) == cyk_counted(
                self.model(),
                self.spec_grammar().symbols@,
                self.spec_grammar().start@,
                tree::token_models(tokens@),
                lalr::opt_text(start),
                *old(c),
            ),
    {
        let mut steps: u64 = c.cyk_table_steps;
        let mut built = Built::new();
        let r = self.parse_with(tokens, start, &mut steps, true, &mut built);
        c.cyk_table_steps = steps;
        proof {
            built::lemma_counts(
                *c,
                parse_built(
                    self.model(),
                    self.spec_grammar().symbols@,
                    self.spec_grammar().start@,
                    tree::token_models(tokens@),
                    lalr::opt_text(start),
                ),
            );
            perf::lemma_counted_nothing(c.semantic_reduce_calls);
            perf::lemma_counted_nothing(c.tree_nodes_built);
            perf::lemma_counted_nothing(c.token_value_string_bytes);
        }
        built.count(c);
        r
    }

    #[verifier::rlimit(60)]
    fn parse_with(
        &self,
        tokens: &[Token],
        start: Option<&str>,
        steps: &mut u64,
        counting: bool,
        b: &mut Built,
    ) -> (r: Result<ParseTree, ParseError>)
        requires
            self.wf(),
        ensures
            *final(b) == built::with(
                *old(b),
                parse_built(
                    self.model(),
                    self.spec_grammar().symbols@,
                    self.spec_grammar().start@,
                    tree::token_models(tokens@),
                    lalr::opt_text(start),
                ),
            ),
            lalr::parsed(r) == cyk_parse(
                self.model(),
                self.spec_grammar().symbols@,
                self.spec_grammar().start@,
                tree::token_models(tokens@),
                lalr::opt_text(start),
            ),
            counting ==> *final(steps) == (if lalr::resolved_start(
                self.spec_grammar().start@,
                self.spec_grammar().symbols@,
                lalr::opt_text(start),
            ) is None {
                *old(steps)
            } else {
                let types = types_of(body(tree::token_models(tokens@)));
                perf::counted(*old(steps), table_steps(self.model().rules, types, types.len()))
            }),
    {
        let ghost m = self.model();
        proof {
            built::lemma_with_nothing(*b);
        }
        let start_id = match self.start_id(start) {
            Err(e) => {
                return Err(e);
            },
            Ok(s) => s,
        };
        let toks = body_of(tokens);
        let ghost models = tree::token_models(toks@);
        let ghost types = types_of(models);
        let ghost rules = cnf::cnf_models(self.cnf.rules@);
        let n: usize = toks.len();
        let n_rules: usize = self.cnf.rules.len();
        if n == 0 {
            proof {
                lemma_cell_rule(rules, types, 0, types.len() - 1, Nt::Orig(start_id));
                perf::lemma_counted_nothing(*steps);
            }
            return Err(parse_failed());
        }
        let chart = self.chart(&toks);
        if counting {
            *steps = self.count_steps(Ghost(types), &chart, n, *steps);
        }
        let found = find_nt(&self.heads, Nt::Orig(start_id));
        let ok = match found {
            Some(h) => {
                proof {
                    assert(row_ok(rules, types, self.heads@, chart@[n - 1]@[0]@, 0, n - 1));
                }
                chart[n - 1][0][h].is_some()
            },
            None => {
                proof {
                    lemma_unlisted(rules, types, self.heads@, 0, n - 1, Nt::Orig(start_id));
                }
                false
            },
        };
        if !ok {
            return Err(parse_failed());
        }
        let mut slots = self.revert(&toks, &chart, 0, n - 1, Nt::Orig(start_id), b);
        proof {
            lemma_cell_rule(rules, types, 0, n - 1, Nt::Orig(start_id));
            let c = cell(rules, types, 0, n - 1, Nt::Orig(start_id))->0;
            assert(cnf::rule_aliased(rules[c.rule as int], self.cnf.effs@.len()));
            lemma_root_value(m, models, types, start_id);
            assert(tree_builder::slot_models(slots@).len() == 1);
        }
        let ghost value = slots@[0]@;
        let name = self.start_name(start_id);
        let slot = slots.remove(0);
        proof {
            assert(slot@ == value);
        }
        Ok(finish(slot, name))
    }

    fn start_name(&self, id: SymbolId) -> (r: String)
        requires
            self.wf(),
            id.ix() < self.spec_grammar().symbols@.len(),
        ensures
            r@ == symbols::name_of(self.spec_grammar().symbols@, id),
    {
        self.grammar.symbols.name_owned(id)
    }
}

fn empty_slot() -> (r: Slot)
    ensures
        r@ == tree_builder::SlotModel::Inline(Seq::empty()),
{
    let r = Slot::Inline(Vec::new());
    proof {
        assert(tree::child_nodes(Seq::empty()) =~= Seq::<tree::Node>::empty());
    }
    r
}

proof fn lemma_chain_single(
    grammar: Seq<symbols::RuleModel>,
    effs: Seq<cnf::EffModel>,
    empties: Seq<Option<tree_builder::SlotModel>>,
    chain: Seq<usize>,
    kids: Seq<tree_builder::SlotModel>,
)
    requires
        chain.len() > 0 || kids.len() == 1,
    ensures
        chain_value(grammar, effs, empties, chain, kids).len() == 1,
    decreases chain.len(),
{
    if chain.len() > 0 {
        lemma_chain_single(
            grammar,
            effs,
            empties,
            chain.drop_last(),
            seq![variant_value(grammar, effs[chain.last() as int], empties, kids)],
        );
    }
}

proof fn lemma_root_value(
    m: CykModel,
    tokens: Seq<tree::TokenModel>,
    types: Seq<SymbolId>,
    s: SymbolId,
)
    requires
        types.len() > 0,
        cell(m.rules, types, 0, types.len() - 1, Nt::Orig(s)) is Some,
        ({
            let r = m.rules[(cell(m.rules, types, 0, types.len() - 1, Nt::Orig(s))->0).rule as int];
            r.lhs is Orig && r.alias is Some
        }),
    ensures
        values(m, tokens, types, 0, types.len() - 1, Nt::Orig(s)).len() == 1,
{
    let c = cell(m.rules, types, 0, types.len() - 1, Nt::Orig(s))->0;
    let r = m.rules[c.rule as int];
    let kids = if 0 >= types.len() - 1 {
        seq![tree_builder::SlotModel::Value(tree::Node::Token(tokens[0]))]
    } else if 0 < c.split <= types.len() - 1 {
        values(m, tokens, types, 0, c.split - 1, r.rhs[0]->N_0) + values(
            m,
            tokens,
            types,
            c.split as int,
            types.len() - 1,
            r.rhs[1]->N_0,
        )
    } else {
        Seq::empty()
    };
    assert(rule_chain(r).len() > 0);
    lemma_chain_single(m.grammar, m.effs, m.empties, rule_chain(r), kids);
}

/// Turns the value of a start symbol into a parse result.
fn finish(value: Slot, name: String) -> (r: ParseTree)
    ensures
        r@ == finished(value@, name@),
{
    match value {
        Slot::Tree(t) => ParseTree::Tree(t),
        Slot::Token(t) => ParseTree::Token(t),
        Slot::Inline(cs) => {
            let ghost nodes = tree::child_nodes(cs@);
            let mut cs = cs;
            if cs.len() == 1 {
                let c = cs.remove(0);
                proof {
                    assert(tree::child_node(c) == nodes[0]);
                    assert(tree::child_nodes(cs@) =~= Seq::empty());
                }
                match c {
                    Child::Tree(t) => ParseTree::Tree(t),
                    Child::Token(t) => ParseTree::Token(t),
                    Child::Absent => ParseTree::Absent,
                }
            } else {
                ParseTree::Tree(Tree::new(name, cs))
            }
        },
    }
}

} // verus!
