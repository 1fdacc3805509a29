//! Which of several lightest derivations the CYK table keeps.

use vstd::prelude::*;
use crate::cnf;
use crate::cnf::{Nt, Sym};
use crate::cyk;
use crate::cyk::Cell;
use crate::rank_laws;
use crate::symbols::SymbolId;

verus! {

/// The place of a nonterminal in the order that settles ties: those of the grammar
/// first, then stand-ins of terminals, then the rests of long rules; each by its
/// numbers.
pub open spec fn place(n: Nt) -> (int, int, int) {
    match n {
        Nt::Orig(x) => (0, x.ix() as int, 0),
        Nt::Term(x) => (1, x.ix() as int, 0),
        Nt::Split(g, i) => (2, g as int, i as int),
    }
}

/// Whether a place comes before another.
pub open spec fn is_ahead(a: (int, int, int), b: (int, int, int)) -> bool {
    a.0 < b.0 || a.0 == b.0 && (a.1 < b.1 || a.1 == b.1 && a.2 < b.2)
}

/// Whether the halves of rule `a` come before those of rule `b`.
pub open spec fn halves_ahead(a: cnf::CnfModel, b: cnf::CnfModel) -> bool {
    let x = place(a.rhs[0]->N_0);
    let y = place(b.rhs[0]->N_0);
    is_ahead(x, y) || x == y && is_ahead(place(a.rhs[1]->N_0), place(b.rhs[1]->N_0))
}

/// Whether rule `r` derives the tokens `i` to `j` from `nt` by two halves, of which the
/// second begins at `p`.
pub open spec fn is_way(
    rules: Seq<cnf::CnfModel>,
    types: Seq<SymbolId>,
    i: int,
    j: int,
    nt: Nt,
    p: int,
    r: int,
) -> bool {
    &&& 0 <= i < p <= j
    &&& 0 <= r < rules.len()
    &&& rules[r].lhs == nt
    &&& rules[r].rhs.len() == 2
    &&& rules[r].rhs[0] is N && rules[r].rhs[1] is N
    &&& cyk::cell(rules, types, i, p - 1, rules[r].rhs[0]->N_0) is Some
    &&& cyk::cell(rules, types, p, j, rules[r].rhs[1]->N_0) is Some
}

/// What such a derivation weighs: the rule and both halves.
pub open spec fn weight_of(
    rules: Seq<cnf::CnfModel>,
    types: Seq<SymbolId>,
    i: int,
    j: int,
    p: int,
    r: int,
) -> int {
    rank_laws::clamped(
        rank_laws::clamped(
            rules[r].weight + cyk::cell(
                rules,
                types,
                i,
                p - 1,
                rules[r].rhs[0]->N_0,
            )->0.weight,
        ) + cyk::cell(rules, types, p, j, rules[r].rhs[1]->N_0)->0.weight,
    )
}

/// Whether what is kept is to be kept rather than another derivation: it is lighter;
/// or as light, and splits earlier; or splits there too, and its halves come before;
/// or are the same, and its rule does not come later.
pub open spec fn is_kept_over(
    rules: Seq<cnf::CnfModel>,
    c: Cell,
    weight: int,
    p: int,
    r: int,
) -> bool {
    ||| c.weight < weight
    ||| c.weight == weight && c.split < p
    ||| c.weight == weight && c.split == p && halves_ahead(rules[c.rule as int], rules[r])
    ||| c.weight == weight && c.split == p && !halves_ahead(rules[r], rules[c.rule as int])
        && c.rule <= r
}

proof fn lemma_kept(
    rules: Seq<cnf::CnfModel>,
    types: Seq<SymbolId>,
    i: int,
    j: int,
    nt: Nt,
    p: int,
    k: nat,
)
    requires
        k <= rules.len() <= usize::MAX,
        j < types.len() <= usize::MAX,
    ensures
        cyk::branch(rules, types, i, j, nt, p, k) matches Some(c) ==> c.split <= p && (c.split == p
            ==> c.rule < k) && is_way(rules, types, i, j, nt, c.split as int, c.rule as int)
            && c.weight == weight_of(rules, types, i, j, c.split as int, c.rule as int),
    decreases p, k,
{
    if !(i < 0 || p <= i || p > j) {
        if k == 0 {
            lemma_kept(rules, types, i, j, nt, p - 1, rules.len());
        } else {
            lemma_kept(rules, types, i, j, nt, p, (k - 1) as nat);
        }
    }
}

proof fn lemma_places(a: Nt, b: Nt)
    ensures
        cyk::nt_less(a, b) == is_ahead(place(a), place(b)),
        (place(a) == place(b)) == (a == b),
{
}

proof fn lemma_halves(rules: Seq<cnf::CnfModel>, a: int, b: int)
    requires
        rules[a].rhs.len() == 2 && rules[a].rhs[0] is N && rules[a].rhs[1] is N,
        rules[b].rhs.len() == 2 && rules[b].rhs[0] is N && rules[b].rhs[1] is N,
    ensures
        cyk::pair_less(rules[a].rhs, rules[b].rhs) == halves_ahead(rules[a], rules[b]),
{
    lemma_places(rules[a].rhs[0]->N_0, rules[b].rhs[0]->N_0);
    lemma_places(rules[a].rhs[1]->N_0, rules[b].rhs[1]->N_0);
}

proof fn lemma_branch(
    rules: Seq<cnf::CnfModel>,
    types: Seq<SymbolId>,
    i: int,
    j: int,
    nt: Nt,
    p: int,
    k: nat,
    q: int,
    r: int,
)
    requires
        k <= rules.len() <= usize::MAX,
        j < types.len() <= usize::MAX,
        p <= j,
        is_way(rules, types, i, j, nt, q, r),
        q < p || q == p && r < k,
    ensures
        cyk::branch(rules, types, i, j, nt, p, k) matches Some(c) && is_kept_over(
            rules,
            c,
            weight_of(rules, types, i, j, q, r),
            q,
            r,
        ),
    decreases p, k,
{
    let w = weight_of(rules, types, i, j, q, r);
    if k == 0 {
        lemma_branch(rules, types, i, j, nt, p - 1, rules.len(), q, r);
    } else {
        let x = k - 1;
        lemma_kept(rules, types, i, j, nt, p, (k - 1) as nat);
        let prev = cyk::branch(rules, types, i, j, nt, p, (k - 1) as nat);
        if !(q == p && r == x) {
            lemma_branch(rules, types, i, j, nt, p, (k - 1) as nat, q, r);
            let c = prev->0;
            if is_way(rules, types, i, j, nt, p, x) {
                lemma_halves(rules, x, c.rule as int);
                lemma_halves(rules, x, r);
                lemma_halves(rules, c.rule as int, r);
                assert(cyk::weigh(
                    rules[x],
                    cyk::cell(rules, types, i, p - 1, rules[x].rhs[0]->N_0)->0,
                    cyk::cell(rules, types, p, j, rules[x].rhs[1]->N_0)->0,
                ) == weight_of(rules, types, i, j, p, x));
            }
        } else {
            if let Some(c) = prev {
                lemma_halves(rules, r, c.rule as int);
                lemma_halves(rules, c.rule as int, r);
            }
            assert(!halves_ahead(rules[r], rules[r]));
            assert(cyk::weigh(
                rules[r],
                cyk::cell(rules, types, i, p - 1, rules[r].rhs[0]->N_0)->0,
                cyk::cell(rules, types, p, j, rules[r].rhs[1]->N_0)->0,
            ) == w);
        }
    }
}

proof fn lemma_leaf(rules: Seq<cnf::CnfModel>, t: SymbolId, nt: Nt, k: nat)
    requires
        k <= rules.len() <= usize::MAX,
    ensures
        match cyk::leaf(rules, t, nt, k) {
            Some(c) => c.rule < k && rules[c.rule as int].lhs == nt && rules[c.rule as int].rhs
                == seq![Sym::T(t)] && c.weight == rules[c.rule as int].weight && forall|r: int|
                0 <= r < k && (#[trigger] rules[r]).lhs == nt && rules[r].rhs == seq![Sym::T(t)]
                    ==> c.weight < rules[r].weight || c.weight == rules[r].weight && c.rule <= r,
            None => forall|r: int|
                0 <= r < k ==> !((#[trigger] rules[r]).lhs == nt && rules[r].rhs == seq![
                    Sym::T(t),
                ]),
        },
    decreases k,
{
    if k > 0 {
        lemma_leaf(rules, t, nt, (k - 1) as nat);
    }
}

/// Of the ways to derive tokens from a nonterminal the table keeps a lightest; of those
/// the one that splits first; of those the one whose halves come first; and of those
/// the one by the first rule. It keeps one wherever there is one.
pub proof fn ties_are_settled_by_order(
    rules: Seq<cnf::CnfModel>,
    types: Seq<SymbolId>,
    i: int,
    j: int,
    nt: Nt,
)
    requires
        rules.len() <= usize::MAX,
        types.len() <= usize::MAX,
        0 <= i <= j < types.len(),
    ensures
        if i == j {
            match cyk::cell(rules, types, i, j, nt) {
                Some(c) => c.rule < rules.len() && rules[c.rule as int].lhs == nt
                    && rules[c.rule as int].rhs == seq![Sym::T(types[i])] && c.weight
                    == rules[c.rule as int].weight && forall|r: int|
                    0 <= r < rules.len() && (#[trigger] rules[r]).lhs == nt && rules[r].rhs
                        == seq![Sym::T(types[i])] ==> c.weight < rules[r].weight || c.weight
                        == rules[r].weight && c.rule <= r,
                None => forall|r: int|
                    0 <= r < rules.len() ==> !((#[trigger] rules[r]).lhs == nt && rules[r].rhs
                        == seq![Sym::T(types[i])]),
            }
        } else {
            match cyk::cell(rules, types, i, j, nt) {
                Some(c) => is_way(rules, types, i, j, nt, c.split as int, c.rule as int)
                    && c.weight == weight_of(
                    rules,
                    types,
                    i,
                    j,
                    c.split as int,
                    c.rule as int,
                ) && forall|p: int, r: int| #[trigger]
                    is_way(rules, types, i, j, nt, p, r) ==> is_kept_over(
                        rules,
                        c,
                        weight_of(rules, types, i, j, p, r),
                        p,
                        r,
                    ),
                None => forall|p: int, r: int| !#[trigger] is_way(rules, types, i, j, nt, p, r),
            }
        },
{
    if i == j {
        lemma_leaf(rules, types[i], nt, rules.len());
    } else {
        lemma_kept(rules, types, i, j, nt, j, rules.len());
        assert forall|p: int, r: int| #[trigger] is_way(rules, types, i, j, nt, p, r) implies (
        cyk::cell(rules, types, i, j, nt) matches Some(c) && is_kept_over(
            rules,
            c,
            weight_of(rules, types, i, j, p, r),
            p,
            r,
        )) by {
            lemma_branch(rules, types, i, j, nt, j, rules.len(), p, r);
        }
    }
}

} // verus!
