//! What the values of the empty string mean: where no nonterminal derives the
//! empty string by way of itself, each is the value of a derivation.

use vstd::prelude::*;
use crate::bits;
use crate::cnf;
use crate::cnf::{Nt, Sym};
use crate::derivation;
use crate::empty_values;
use crate::symbols;
use crate::symbols::SymbolId;
use crate::tree;
use crate::tree_builder;

verus! {

/// Whether a rank falls from the origin of a rule that derives the empty string
/// to each symbol of its expansion.
pub open spec fn falls(
    rules: Seq<symbols::RuleModel>,
    nt: nat,
    nulls: Seq<bool>,
    rank: spec_fn(SymbolId) -> nat,
) -> bool {
    forall|r: int, j: int|
        0 <= r < rules.len() && 0 <= j < rules[r].expansion.len() && empty_values::empties_by(
            rules[r],
            nt,
            nulls,
            rules[r].origin,
        ) ==> rank(#[trigger] rules[r].expansion[j]) < rank(rules[r].origin)
}

/// Whether every flagged nonterminal has a rule that derives the empty string.
pub open spec fn flags_have_rules(
    rules: Seq<symbols::RuleModel>,
    nt: nat,
    nulls: Seq<bool>,
) -> bool {
    forall|s: SymbolId|
        s.ix() < nulls.len() && #[trigger] nulls[s.ix() as int] ==> exists|r: int|
            0 <= r < rules.len() && empty_values::empties_by(#[trigger] rules[r], nt, nulls, s)
}

/// Whether `v` is the value of a derivation of nothing.
pub open spec fn is_empty_value(
    rules: Seq<symbols::RuleModel>,
    nt: nat,
    s: SymbolId,
    v: tree_builder::SlotModel,
) -> bool {
    derivation::yields(rules, nt, false, s, Seq::empty(), v)
}

/// Whether the values found so far are those of derivations of nothing.
pub open spec fn memo_true(
    rules: Seq<symbols::RuleModel>,
    nt: nat,
    nulls: Seq<bool>,
    memo: Seq<Option<tree_builder::SlotModel>>,
) -> bool {
    &&& memo.len() == nulls.len()
    &&& forall|s: SymbolId|
        s.ix() < nulls.len() && nulls[s.ix() as int] ==> (
        #[trigger] memo[s.ix() as int] matches Some(v) ==> is_empty_value(rules, nt, s, v))
}

/// Whether values found stay found.
pub open spec fn memo_kept(
    a: Seq<Option<tree_builder::SlotModel>>,
    b: Seq<Option<tree_builder::SlotModel>>,
) -> bool {
    &&& a.len() == b.len()
    &&& forall|i: int| 0 <= i < a.len() && (#[trigger] a[i]) is Some ==> b[i] is Some
}

/// What holds while values are sought.
spec fn is_search(
    rules: Seq<symbols::RuleModel>,
    nt: nat,
    nulls: Seq<bool>,
    rank: spec_fn(SymbolId) -> nat,
) -> bool {
    &&& falls(rules, nt, nulls, rank)
    &&& flags_have_rules(rules, nt, nulls)
    &&& nulls.len() <= u32::MAX
    &&& forall|i: int| 0 <= i < rules.len() ==> (#[trigger] rules[i]).origin.ix() >= nt
}

/// Whether the nonterminals being built rank above `n`.
spec fn ranks_above(visiting: Seq<bool>, rank: spec_fn(SymbolId) -> nat, n: nat) -> bool {
    forall|s: SymbolId|
        s.ix() < visiting.len() && #[trigger] visiting[s.ix() as int] ==> rank(s) > n
}

proof fn lemma_empty_rule(
    rules: Seq<symbols::RuleModel>,
    nt: nat,
    nulls: Seq<bool>,
    id: SymbolId,
    k: nat,
)
    requires
        k <= rules.len(),
    ensures
        match empty_values::empty_rule(rules, nt, nulls, id, k) {
            Some(r) => 0 <= r < k && empty_values::empties_by(rules[r], nt, nulls, id),
            None => forall|r: int| 0 <= r < k ==> !empty_values::empties_by(
                #[trigger] rules[r],
                nt,
                nulls,
                id,
            ),
        },
    decreases k,
{
    if k > 0 {
        lemma_empty_rule(rules, nt, nulls, id, (k - 1) as nat);
    }
}

proof fn lemma_empty_value(
    rules: Seq<symbols::RuleModel>,
    nt: nat,
    nulls: Seq<bool>,
    rank: spec_fn(SymbolId) -> nat,
    id: SymbolId,
    memo: Seq<Option<tree_builder::SlotModel>>,
    visiting: Seq<bool>,
)
    requires
        is_search(rules, nt, nulls, rank),
        memo_true(rules, nt, nulls, memo),
        visiting.len() == nulls.len(),
        id.ix() < nulls.len(),
        nulls[id.ix() as int],
        ranks_above(visiting, rank, rank(id)),
    ensures
        ({
            let (v, m) = empty_values::empty_value(rules, nt, nulls, id, memo, visiting);
            &&& is_empty_value(rules, nt, id, v)
            &&& memo_true(rules, nt, nulls, m)
            &&& memo_kept(memo, m)
            &&& m[id.ix() as int] is Some
        }),
    decreases bits::missing(visiting), 0nat, 0nat,
{
    let x = id.ix() as int;
    assert(!visiting[x]);
    if !(memo[x] is Some) {
        lemma_empty_rule(rules, nt, nulls, id, rules.len());
        let ri = empty_values::empty_rule(rules, nt, nulls, id, rules.len())->0;
        let inner = visiting.update(x, true);
        let e = rules[ri].expansion;
        empty_values::lemma_visit(visiting, x);
        assert forall|s: SymbolId| s.ix() < inner.len() && #[trigger] inner[s.ix() as int] implies
            rank(s) >= rank(id) by {
            if s.ix() != x {
                assert(visiting[s.ix() as int]);
            } else {
                assert(s == id);
            }
        }
        assert forall|j: int| 0 <= j < e.len() implies rank(#[trigger] e[j]) < rank(id) by {
            assert(rank(rules[ri].expansion[j]) < rank(rules[ri].origin));
        }
        lemma_empty_values(rules, nt, nulls, rank, id, e, e.len(), memo, inner);
        let (vs, m) = empty_values::empty_values(rules, nt, nulls, e, e.len(), memo, inner);
        assert(e.take(e.len() as int) =~= e);
        derivation::lemma_yields_rule(rules, nt, false, ri, Seq::empty(), vs);
        let v = tree_builder::assembled(rules[ri], false, vs);
        let last = m.update(x, Some(v));
        assert forall|s: SymbolId| s.ix() < nulls.len() && nulls[s.ix() as int] implies (
        #[trigger] last[s.ix() as int] matches Some(u) ==> is_empty_value(rules, nt, s, u)) by {
            if s.ix() != x {
                assert(last[s.ix() as int] == m[s.ix() as int]);
            } else {
                assert(s == id);
            }
        }
    }
}

proof fn lemma_empty_values(
    rules: Seq<symbols::RuleModel>,
    nt: nat,
    nulls: Seq<bool>,
    rank: spec_fn(SymbolId) -> nat,
    id: SymbolId,
    e: Seq<SymbolId>,
    k: nat,
    memo: Seq<Option<tree_builder::SlotModel>>,
    visiting: Seq<bool>,
)
    requires
        is_search(rules, nt, nulls, rank),
        memo_true(rules, nt, nulls, memo),
        visiting.len() == nulls.len(),
        k <= e.len(),
        empty_values::all_empty(e, nt, nulls),
        forall|j: int| 0 <= j < e.len() ==> rank(#[trigger] e[j]) < rank(id),
        forall|s: SymbolId|
            s.ix() < visiting.len() && #[trigger] visiting[s.ix() as int] ==> rank(s) >= rank(id),
    ensures
        ({
            let (vs, m) = empty_values::empty_values(rules, nt, nulls, e, k, memo, visiting);
            &&& derivation::yields_all(
                rules,
                nt,
                false,
                e.take(k as int),
                Seq::empty(),
                vs,
            )
            &&& memo_true(rules, nt, nulls, m)
            &&& memo_kept(memo, m)
        }),
    decreases bits::missing(visiting), 1nat, k,
{
    let none = Seq::<tree::TokenModel>::empty();
    if k == 0 {
        derivation::lemma_yields_nothing(rules, nt, false);
        assert(e.take(0) =~= Seq::empty());
    } else {
        let j = (k - 1) as nat;
        lemma_empty_values(rules, nt, nulls, rank, id, e, j, memo, visiting);
        let (vs, m) = empty_values::empty_values(rules, nt, nulls, e, j, memo, visiting);
        let s = e[k - 1];
        assert(nulls[s.ix() as int]);
        assert(rank(s) < rank(id));
        lemma_empty_value(rules, nt, nulls, rank, s, m, visiting);
        let (v, m2) = empty_values::empty_value(rules, nt, nulls, s, m, visiting);
        derivation::lemma_yields_push(
            rules,
            nt,
            false,
            e.take(j as int),
            none,
            vs,
            s,
            none,
            v,
        );
        assert(e.take(j as int).push(s) =~= e.take(k as int));
        assert(none + none =~= none);
        assert forall|i: int| 0 <= i < memo.len() && (#[trigger] memo[i]) is Some implies
            m2[i] is Some by {
            assert(m[i] is Some);
        }
    }
}

proof fn lemma_values_below(
    rules: Seq<symbols::RuleModel>,
    nt: nat,
    nulls: Seq<bool>,
    rank: spec_fn(SymbolId) -> nat,
    k: nat,
)
    requires
        is_search(rules, nt, nulls, rank),
        k <= nulls.len(),
    ensures
        memo_true(rules, nt, nulls, empty_values::values_below(rules, nt, nulls, k)),
        forall|i: int|
            0 <= i < k && nulls[i] ==> (#[trigger] empty_values::values_below(
                rules,
                nt,
                nulls,
                k,
            )[i]) is Some,
    decreases k,
{
    if k > 0 {
        let j = (k - 1) as nat;
        lemma_values_below(rules, nt, nulls, rank, j);
        let m = empty_values::values_below(rules, nt, nulls, j);
        if nulls[j as int] {
            let s = SymbolId(j as u32);
            let idle = Seq::new(nulls.len(), |i: int| false);
            assert(s.ix() == j);
            lemma_empty_value(rules, nt, nulls, rank, s, m, idle);
            let last = empty_values::values_below(rules, nt, nulls, k);
            assert forall|i: int| 0 <= i < k && nulls[i] implies (#[trigger] last[i]) is Some by {
                if i < j {
                    assert(m[i] is Some);
                }
            }
        }
    }
}

/// The value of a nonterminal that derives the empty string is that of a
/// derivation of nothing.
pub proof fn lemma_filler(
    rules: Seq<symbols::RuleModel>,
    nt: nat,
    first: Seq<cnf::CnfModel>,
    n: nat,
    rank: spec_fn(SymbolId) -> nat,
    s: SymbolId,
)
    requires
        falls(rules, nt, cnf::empty_flags(first, n), rank),
        flags_have_rules(rules, nt, cnf::empty_flags(first, n)),
        n <= u32::MAX,
        forall|i: int| 0 <= i < rules.len() ==> (#[trigger] rules[i]).origin.ix() >= nt,
        s.ix() < n,
        cnf::empties(first, s),
    ensures
        ({
            let found = empty_values::values_below(rules, nt, cnf::empty_flags(first, n), n);
            &&& s.ix() < found.len()
            &&& found[s.ix() as int] matches Some(v) && is_empty_value(rules, nt, s, v)
        }),
{
    let nulls = cnf::empty_flags(first, n);
    lemma_values_below(rules, nt, nulls, rank, n);
    assert(SymbolId(s.ix() as u32) == s);
    assert(nulls[s.ix() as int]);
}

/// Symbols that together derive nothing derive nothing each.
proof fn lemma_each_empties(first: Seq<cnf::CnfModel>, xs: Seq<Sym>, d: nat, j: int)
    requires
        cnf::gives_all(first, xs, Seq::empty(), d),
        0 <= j < xs.len(),
        forall|i: int|
            0 <= i < xs.len() ==> match #[trigger] xs[i] {
                Sym::T(_) => true,
                Sym::N(a) => a is Orig,
            },
    ensures
        cnf::sym_empties(first, xs[j]),
    decreases xs.len(),
{
    let w = Seq::<SymbolId>::empty();
    let k = choose|k: int|
        0 <= k <= w.len() && cnf::gives(first, xs.last(), #[trigger] w.skip(k), d)
            && cnf::gives_all(first, xs.drop_last(), w.take(k), d);
    assert(w.skip(k) =~= w);
    assert(w.take(k) =~= w);
    if j < xs.len() - 1 {
        lemma_each_empties(first, xs.drop_last(), d, j);
    } else {
        assert(xs[j] == xs.last());
        match xs[j] {
            Sym::T(t) => {
                assert(w == seq![t]);
                assert(w.len() == 1);
            },
            Sym::N(a) => {
                assert(cnf::gives(first, Sym::N(Nt::Orig(a->Orig_0)), w, d));
            },
        }
    }
}

/// The flagged nonterminals have rules that derive the empty string.
pub proof fn lemma_flags_have_rules(
    rules: Seq<symbols::RuleModel>,
    nt: nat,
    starts: Seq<SymbolId>,
    n: nat,
)
    requires
        symbols::grammar_wf(rules, n, nt, starts),
        rules.len() <= usize::MAX,
    ensures
        flags_have_rules(
            rules,
            nt,
            cnf::empty_flags(cnf::first_rules(rules, nt, starts), n),
        ),
{
    let first = cnf::first_rules(rules, nt, starts);
    let effs = cnf::base_effs(rules);
    let nulls = cnf::empty_flags(first, n);
    cnf::lemma_first(rules, nt, starts, n);
    assert forall|s: SymbolId| s.ix() < nulls.len() && #[trigger] nulls[s.ix() as int] implies exists|
        r: int,
    |
        0 <= r < rules.len() && empty_values::empties_by(#[trigger] rules[r], nt, nulls, s) by {
        assert(SymbolId(s.ix() as u32) == s);
        let w = Seq::<SymbolId>::empty();
        let d = choose|d: nat| #[trigger] cnf::gives(first, Sym::N(Nt::Orig(s)), w, d);
        let q = choose|q: int|
            0 <= q < first.len() && (#[trigger] first[q]).lhs == Nt::Orig(s) && cnf::gives_all(
                first,
                first[q].rhs,
                w,
                (d - 1) as nat,
            );
        assert(cnf::stands_for(first[q], effs, rules, nt));
        let r = cnf::grammar_rule(effs, first[q]) as int;
        let e = rules[r].expansion;
        assert(first[q].rhs == cnf::syms_of(nt, e));
        assert forall|j: int| 0 <= j < e.len() implies nt <= (#[trigger] e[j]).ix() < nulls.len()
            && nulls[e[j].ix() as int] by {
            assert forall|i: int| 0 <= i < first[q].rhs.len() implies (
            match #[trigger] first[q].rhs[i] {
                Sym::T(_) => true,
                Sym::N(a) => a is Orig,
            }) by {}
            lemma_each_empties(first, first[q].rhs, (d - 1) as nat, j);
            assert(first[q].rhs[j] == cnf::sym_of(nt, e[j]));
            assert(rules[r].expansion[j].ix() < n);
            assert(SymbolId(e[j].ix() as u32) == e[j]);
        }
        assert(empty_values::empties_by(rules[r], nt, nulls, s));
    }
}

} // verus!
