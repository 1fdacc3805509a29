//! What the CYK table chooses: of the derivations in normal form of a span, a
//! lightest one.

use vstd::prelude::*;
use crate::cnf;
use crate::cnf::{Nt, Sym};
use crate::cyk;
use crate::symbols::SymbolId;

verus! {

/// Whether rule `r`, split at `p`, with halves that weigh `u` and `v`, is a way to
/// derive the tokens `i` to `j` from `nt` that weighs `w`.
pub open spec fn is_way(
    rules: Seq<cnf::CnfModel>,
    types: Seq<SymbolId>,
    i: int,
    j: int,
    nt: Nt,
    w: i64,
    r: int,
    p: int,
    u: i64,
    v: i64,
) -> bool {
    &&& 0 <= i <= j < types.len()
    &&& 0 <= r < rules.len()
    &&& rules[r].lhs == nt
    &&& if i == j {
        rules[r].rhs == seq![Sym::T(types[i])] && w == rules[r].weight
    } else {
        &&& i < p <= j
        &&& rules[r].rhs.len() == 2
        &&& rules[r].rhs[0] is N
        &&& rules[r].rhs[1] is N
        &&& w == cnf::sat_sum(cnf::sat_sum(rules[r].weight, u), v)
    }
}

/// Whether a derivation of height `d` at most of the tokens `i` to `j` from `nt`
/// weighs `w`.
pub open spec fn weighs(
    rules: Seq<cnf::CnfModel>,
    types: Seq<SymbolId>,
    i: int,
    j: int,
    nt: Nt,
    w: i64,
    d: nat,
) -> bool
    decreases d,
{
    d > 0 && exists|r: int, p: int, u: i64, v: i64| #[trigger]
        is_way(rules, types, i, j, nt, w, r, p, u, v) && (i < j ==> weighs(
            rules,
            types,
            i,
            p - 1,
            rules[r].rhs[0]->N_0,
            u,
            (d - 1) as nat,
        ) && weighs(rules, types, p, j, rules[r].rhs[1]->N_0, v, (d - 1) as nat))
}

proof fn lemma_weighs_more(
    rules: Seq<cnf::CnfModel>,
    types: Seq<SymbolId>,
    i: int,
    j: int,
    nt: Nt,
    w: i64,
    d: nat,
    e: nat,
)
    requires
        weighs(rules, types, i, j, nt, w, d),
        d <= e,
    ensures
        weighs(rules, types, i, j, nt, w, e),
    decreases d,
{
    let (r, p, u, v) = choose|r: int, p: int, u: i64, v: i64| #[trigger]
        is_way(rules, types, i, j, nt, w, r, p, u, v) && (i < j ==> weighs(
            rules,
            types,
            i,
            p - 1,
            rules[r].rhs[0]->N_0,
            u,
            (d - 1) as nat,
        ) && weighs(rules, types, p, j, rules[r].rhs[1]->N_0, v, (d - 1) as nat));
    if i < j {
        let a = rules[r].rhs[0]->N_0;
        let b = rules[r].rhs[1]->N_0;
        lemma_weighs_more(rules, types, i, p - 1, a, u, (d - 1) as nat, (e - 1) as nat);
        lemma_weighs_more(rules, types, p, j, b, v, (d - 1) as nat, (e - 1) as nat);
    }
    assert(is_way(rules, types, i, j, nt, w, r, p, u, v));
}

proof fn lemma_leaf_least(rules: Seq<cnf::CnfModel>, t: SymbolId, r: int, k: nat)
    requires
        0 <= r < k <= rules.len(),
        rules[r].rhs == seq![Sym::T(t)],
    ensures
        cyk::leaf(rules, t, rules[r].lhs, k) matches Some(c) && c.weight <= rules[r].weight,
    decreases k,
{
    if r < k - 1 {
        lemma_leaf_least(rules, t, r, (k - 1) as nat);
    }
}

proof fn lemma_branch_least(
    rules: Seq<cnf::CnfModel>,
    types: Seq<SymbolId>,
    i: int,
    j: int,
    c: int,
    r: int,
    p: int,
    k: nat,
)
    requires
        0 <= i < c <= p <= j,
        0 <= r < rules.len(),
        k <= rules.len(),
        c < p || r < k,
        rules[r].rhs.len() == 2,
        rules[r].rhs[0] is N,
        rules[r].rhs[1] is N,
        cyk::cell(rules, types, i, c - 1, rules[r].rhs[0]->N_0) is Some,
        cyk::cell(rules, types, c, j, rules[r].rhs[1]->N_0) is Some,
    ensures
        cyk::branch(rules, types, i, j, rules[r].lhs, p, k) matches Some(x) && x.weight
            <= cyk::weigh(
            rules[r],
            cyk::cell(rules, types, i, c - 1, rules[r].rhs[0]->N_0)->0,
            cyk::cell(rules, types, c, j, rules[r].rhs[1]->N_0)->0,
        ),
    decreases p - i, k,
{
    if k == 0 {
        lemma_branch_least(rules, types, i, j, c, r, p - 1, rules.len());
    } else if c < p || r < k - 1 {
        lemma_branch_least(rules, types, i, j, c, r, p, (k - 1) as nat);
    }
}

proof fn lemma_leaf_weight(rules: Seq<cnf::CnfModel>, t: SymbolId, nt: Nt, k: nat)
    requires
        k <= rules.len() <= usize::MAX,
    ensures
        cyk::leaf(rules, t, nt, k) matches Some(c) ==> c.rule < k && c.weight
            == rules[c.rule as int].weight,
    decreases k,
{
    if k > 0 {
        lemma_leaf_weight(rules, t, nt, (k - 1) as nat);
    }
}

proof fn lemma_branch_weight(
    rules: Seq<cnf::CnfModel>,
    types: Seq<SymbolId>,
    i: int,
    j: int,
    nt: Nt,
    p: int,
    k: nat,
)
    requires
        k <= rules.len() <= usize::MAX,
        j < types.len() <= usize::MAX,
    ensures
        cyk::branch(rules, types, i, j, nt, p, k) matches Some(c) ==> c.weight == cyk::weigh(
            rules[c.rule as int],
            cyk::cell(rules, types, i, c.split - 1, rules[c.rule as int].rhs[0]->N_0)->0,
            cyk::cell(rules, types, c.split as int, j, rules[c.rule as int].rhs[1]->N_0)->0,
        ),
    decreases p - i, k,
{
    if i < 0 || p <= i || p > j {
    } else if k == 0 {
        lemma_branch_weight(rules, types, i, j, nt, p - 1, rules.len());
    } else {
        lemma_branch_weight(rules, types, i, j, nt, p, (k - 1) as nat);
    }
}

/// The table's entry for a span weighs what a derivation of the span weighs.
pub proof fn entry_is_a_derivation(
    rules: Seq<cnf::CnfModel>,
    types: Seq<SymbolId>,
    i: int,
    j: int,
    nt: Nt,
) -> (d: nat)
    requires
        rules.len() <= usize::MAX,
        types.len() <= usize::MAX,
        cyk::cell(rules, types, i, j, nt) is Some,
    ensures
        weighs(rules, types, i, j, nt, cyk::cell(rules, types, i, j, nt)->0.weight, d),
    decreases j - i,
{
    cyk::lemma_cell_rule(rules, types, i, j, nt);
    let c = cyk::cell(rules, types, i, j, nt)->0;
    let r = c.rule as int;
    if i == j {
        lemma_leaf_weight(rules, types[i], nt, rules.len());
        assert(is_way(rules, types, i, j, nt, c.weight, r, 0, 0, 0));
        1
    } else {
        lemma_branch_weight(rules, types, i, j, nt, j, rules.len());
        let p = c.split as int;
        let a = rules[r].rhs[0]->N_0;
        let b = rules[r].rhs[1]->N_0;
        let x = entry_is_a_derivation(rules, types, i, p - 1, a);
        let y = entry_is_a_derivation(rules, types, p, j, b);
        let z = if x < y {
            y
        } else {
            x
        };
        let u = cyk::cell(rules, types, i, p - 1, a)->0.weight;
        let v = cyk::cell(rules, types, p, j, b)->0.weight;
        lemma_weighs_more(rules, types, i, p - 1, a, u, x, z);
        lemma_weighs_more(rules, types, p, j, b, v, y, z);
        assert(is_way(rules, types, i, j, nt, c.weight, r, p, u, v));
        z + 1
    }
}

/// No derivation of a span is lighter than the table's entry for it.
pub proof fn entry_is_lightest(
    rules: Seq<cnf::CnfModel>,
    types: Seq<SymbolId>,
    i: int,
    j: int,
    nt: Nt,
    w: i64,
    d: nat,
)
    requires
        weighs(rules, types, i, j, nt, w, d),
    ensures
        cyk::cell(rules, types, i, j, nt) matches Some(c) && c.weight <= w,
    decreases d,
{
    let (r, p, u, v) = choose|r: int, p: int, u: i64, v: i64| #[trigger]
        is_way(rules, types, i, j, nt, w, r, p, u, v) && (i < j ==> weighs(
            rules,
            types,
            i,
            p - 1,
            rules[r].rhs[0]->N_0,
            u,
            (d - 1) as nat,
        ) && weighs(rules, types, p, j, rules[r].rhs[1]->N_0, v, (d - 1) as nat));
    if i == j {
        lemma_leaf_least(rules, types[i], r, rules.len());
    } else {
        let a = rules[r].rhs[0]->N_0;
        let b = rules[r].rhs[1]->N_0;
        entry_is_lightest(rules, types, i, p - 1, a, u, (d - 1) as nat);
        entry_is_lightest(rules, types, p, j, b, v, (d - 1) as nat);
        lemma_branch_least(rules, types, i, j, p, r, j, rules.len());
    }
}

} // verus!
