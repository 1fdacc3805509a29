//! What symbols are worth that derive the empty string: which rule is taken, and what
//! is made of it.

use vstd::prelude::*;
use crate::empty_values;
use crate::symbols;
use crate::symbols::SymbolId;
use crate::tree_builder;

verus! {

/// Whether a symbol derives the empty string by rule `r`: each symbol of the rule is a
/// nonterminal that does.
pub open spec fn vanishes_by(
    rules: Seq<symbols::RuleModel>,
    nt: nat,
    nulls: Seq<bool>,
    id: SymbolId,
    r: int,
) -> bool {
    &&& rules[r].origin == id
    &&& !rules[r].is_start
    &&& forall|j: int|
        0 <= j < rules[r].expansion.len() ==> (#[trigger] rules[r].expansion[j]).ix() >= nt
            && rules[r].expansion[j].ix() < nulls.len()
            && nulls[rules[r].expansion[j].ix() as int]
}

/// Whether rule `r` is the one to derive nothing by: of those of the least priority
/// the first.
pub open spec fn is_taken(
    rules: Seq<symbols::RuleModel>,
    nt: nat,
    nulls: Seq<bool>,
    id: SymbolId,
    k: nat,
    r: int,
) -> bool {
    &&& 0 <= r < k
    &&& vanishes_by(rules, nt, nulls, id, r)
    &&& forall|q: int|
        0 <= q < k && #[trigger] vanishes_by(rules, nt, nulls, id, q) ==> rules[r].priority
            < rules[q].priority || rules[r].priority == rules[q].priority && r <= q
}

/// The rule by which a symbol derives the empty string is the first of those of the
/// least priority, and there is one wherever there is a rule that lets it.
pub proof fn nothing_is_derived_by_the_least_rule(
    rules: Seq<symbols::RuleModel>,
    nt: nat,
    nulls: Seq<bool>,
    id: SymbolId,
    k: nat,
)
    requires
        k <= rules.len(),
    ensures
        match empty_values::empty_rule(rules, nt, nulls, id, k) {
            Some(r) => is_taken(rules, nt, nulls, id, k, r),
            None => forall|q: int|
                0 <= q < k ==> !#[trigger] vanishes_by(rules, nt, nulls, id, q),
        },
    decreases k,
{
    if k > 0 {
        nothing_is_derived_by_the_least_rule(rules, nt, nulls, id, (k - 1) as nat);
        assert(empty_values::empties_by(rules[k - 1], nt, nulls, id) == vanishes_by(
            rules,
            nt,
            nulls,
            id,
            k - 1,
        ));
    }
}

/// What the parts of a rule are worth.
pub open spec fn parts(
    rules: Seq<symbols::RuleModel>,
    worth: Seq<tree_builder::SlotModel>,
    r: int,
) -> Seq<tree_builder::SlotModel> {
    Seq::new(rules[r].expansion.len(), |j: int| worth[rules[r].expansion[j].ix() as int])
}

/// Whether each symbol is worth what the rule that it takes makes of its parts.
pub open spec fn is_made(
    rules: Seq<symbols::RuleModel>,
    nt: nat,
    nulls: Seq<bool>,
    worth: Seq<tree_builder::SlotModel>,
) -> bool {
    &&& worth.len() == nulls.len()
    &&& forall|id: SymbolId, r: int|
        id.ix() < worth.len() && #[trigger] is_taken(rules, nt, nulls, id, rules.len(), r)
            ==> worth[id.ix() as int] == tree_builder::assembled(
            rules[r],
            false,
            parts(rules, worth, r),
        )
}

/// Whether no symbol that is flagged takes a rule that leads back to it, and each takes
/// one.
pub open spec fn is_layered(
    rules: Seq<symbols::RuleModel>,
    nt: nat,
    nulls: Seq<bool>,
    depth: Seq<nat>,
) -> bool {
    &&& depth.len() == nulls.len()
    &&& forall|id: SymbolId|
        id.ix() < nulls.len() && nulls[id.ix() as int] ==> exists|r: int| #[trigger]
            is_taken(rules, nt, nulls, id, rules.len(), r)
    &&& forall|id: SymbolId, r: int, j: int|
        #![trigger is_taken(rules, nt, nulls, id, rules.len(), r), rules[r].expansion[j]]
        id.ix() < nulls.len() && is_taken(rules, nt, nulls, id, rules.len(), r) && 0 <= j
            < rules[r].expansion.len() ==> depth[rules[r].expansion[j].ix() as int]
            < depth[id.ix() as int]
}

/// Whether what is remembered is what symbols are worth.
pub open spec fn is_true_to(
    worth: Seq<tree_builder::SlotModel>,
    memo: Seq<Option<tree_builder::SlotModel>>,
) -> bool {
    &&& memo.len() == worth.len()
    &&& forall|i: int|
        0 <= i < memo.len() ==> (#[trigger] memo[i] matches Some(v) ==> v == worth[i])
}

spec fn above(depth: Seq<nat>, visiting: Seq<bool>, d: nat) -> bool {
    visiting.len() == depth.len() && forall|i: int|
        0 <= i < visiting.len() && #[trigger] visiting[i] ==> depth[i] >= d
}

spec fn extends(
    a: Seq<Option<tree_builder::SlotModel>>,
    b: Seq<Option<tree_builder::SlotModel>>,
) -> bool {
    a.len() == b.len() && forall|i: int|
        0 <= i < a.len() && a[i] is Some ==> #[trigger] b[i] is Some
}

proof fn lemma_value(
    rules: Seq<symbols::RuleModel>,
    nt: nat,
    nulls: Seq<bool>,
    depth: Seq<nat>,
    worth: Seq<tree_builder::SlotModel>,
    id: SymbolId,
    memo: Seq<Option<tree_builder::SlotModel>>,
    visiting: Seq<bool>,
)
    requires
        is_made(rules, nt, nulls, worth),
        is_layered(rules, nt, nulls, depth),
        is_true_to(worth, memo),
        id.ix() < nulls.len(),
        nulls[id.ix() as int],
        above(depth, visiting, depth[id.ix() as int] + 1),
    ensures
        ({
            let r = empty_values::empty_value(rules, nt, nulls, id, memo, visiting);
            &&& r.0 == worth[id.ix() as int]
            &&& is_true_to(worth, r.1)
            &&& r.1[id.ix() as int] is Some
            &&& extends(memo, r.1)
        }),
    decreases depth[id.ix() as int], 1nat, 0nat,
{
    let at = id.ix() as int;
    assert(!visiting[at]);
    if memo[at] is None {
        nothing_is_derived_by_the_least_rule(rules, nt, nulls, id, rules.len());
        let got = choose|r: int| #[trigger] is_taken(rules, nt, nulls, id, rules.len(), r);
        assert(vanishes_by(rules, nt, nulls, id, got));
        let r = empty_values::empty_rule(rules, nt, nulls, id, rules.len())->0;
        assert(is_taken(rules, nt, nulls, id, rules.len(), r));
        let inner = visiting.update(at, true);
        assert(above(depth, inner, depth[at]));
        let n = rules[r].expansion.len();
        lemma_values(rules, nt, nulls, depth, worth, id, r, n, memo, inner);
        let vs = empty_values::empty_values(
            rules,
            nt,
            nulls,
            rules[r].expansion,
            n,
            memo,
            inner,
        ).0;
        assert(vs =~= parts(rules, worth, r));
    }
}

proof fn lemma_values(
    rules: Seq<symbols::RuleModel>,
    nt: nat,
    nulls: Seq<bool>,
    depth: Seq<nat>,
    worth: Seq<tree_builder::SlotModel>,
    id: SymbolId,
    r: int,
    k: nat,
    memo: Seq<Option<tree_builder::SlotModel>>,
    visiting: Seq<bool>,
)
    requires
        is_made(rules, nt, nulls, worth),
        is_layered(rules, nt, nulls, depth),
        is_true_to(worth, memo),
        id.ix() < nulls.len(),
        is_taken(rules, nt, nulls, id, rules.len(), r),
        k <= rules[r].expansion.len(),
        above(depth, visiting, depth[id.ix() as int]),
    ensures
        ({
            let e = rules[r].expansion;
            let got = empty_values::empty_values(rules, nt, nulls, e, k, memo, visiting);
            &&& got.0.len() == k
            &&& forall|j: int| 0 <= j < k ==> #[trigger] got.0[j] == worth[e[j].ix() as int]
            &&& is_true_to(worth, got.1)
            &&& extends(memo, got.1)
        }),
    decreases depth[id.ix() as int], 0nat, k,
{
    if k > 0 {
        let e = rules[r].expansion;
        lemma_values(rules, nt, nulls, depth, worth, id, r, (k - 1) as nat, memo, visiting);
        let m = empty_values::empty_values(
            rules,
            nt,
            nulls,
            e,
            (k - 1) as nat,
            memo,
            visiting,
        ).1;
        let x = rules[r].expansion[k - 1];
        assert(vanishes_by(rules, nt, nulls, id, r));
        assert(depth[x.ix() as int] < depth[id.ix() as int]);
        lemma_value(rules, nt, nulls, depth, worth, x, m, visiting);
    }
}

/// Where no symbol leads back to itself by the rules that are taken, each symbol that
/// derives the empty string has the value that its rule makes of the values of the
/// symbols in it, and the others have none.
pub proof fn empty_derivations_are_shaped(
    rules: Seq<symbols::RuleModel>,
    nt: nat,
    nulls: Seq<bool>,
    depth: Seq<nat>,
    worth: Seq<tree_builder::SlotModel>,
    k: nat,
)
    requires
        is_made(rules, nt, nulls, worth),
        is_layered(rules, nt, nulls, depth),
        k <= nulls.len() <= u32::MAX,
    ensures
        ({
            let r = empty_values::values_below(rules, nt, nulls, k);
            &&& is_true_to(worth, r)
            &&& forall|i: int| 0 <= i < k && nulls[i] ==> #[trigger] r[i] == Some(worth[i])
        }),
    decreases k,
{
    if k > 0 {
        empty_derivations_are_shaped(rules, nt, nulls, depth, worth, (k - 1) as nat);
        if nulls[k - 1] {
            let m = empty_values::values_below(rules, nt, nulls, (k - 1) as nat);
            let id = SymbolId((k - 1) as u32);
            let free = Seq::new(nulls.len(), |i: int| false);
            assert(id.ix() == k - 1);
            lemma_value(rules, nt, nulls, depth, worth, id, m, free);
            let r = empty_values::values_below(rules, nt, nulls, k);
            assert(r == empty_values::empty_value(rules, nt, nulls, id, m, free).1);
            assert forall|i: int| 0 <= i < k && nulls[i] implies #[trigger] r[i] == Some(
                worth[i],
            ) by {
                if i < k - 1 {
                    assert(m[i] == Some(worth[i]));
                    assert(r[i] is Some);
                }
            }
        }
    }
}

} // verus!
