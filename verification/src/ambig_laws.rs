//! How alternatives stand side by side: none is shown twice, and those of families
//! that are tried first come first.

use vstd::prelude::*;
use crate::earley_rank;
use crate::earley_tree;
use crate::tree;
use crate::tree_builder;
use crate::value_key;

verus! {

/// Whether no two values have the same key.
pub open spec fn are_different(ds: Seq<tree_builder::SlotModel>) -> bool {
    forall|i: int, j: int|
        0 <= i < j < ds.len() ==> value_key::value_key(#[trigger] ds[i]) != value_key::value_key(
            #[trigger] ds[j],
        )
}

/// Whether a list of values goes on from another.
pub open spec fn goes_on(
    a: Seq<tree_builder::SlotModel>,
    b: Seq<tree_builder::SlotModel>,
) -> bool {
    a.len() <= b.len() && b.take(a.len() as int) == a
}

/// Whether a value with that key is in a list.
pub open spec fn has_key(ds: Seq<tree_builder::SlotModel>, v: tree_builder::SlotModel) -> bool {
    exists|i: int|
        0 <= i < ds.len() && value_key::value_key(#[trigger] ds[i]) == value_key::value_key(v)
}

proof fn lemma_goes_on(
    a: Seq<tree_builder::SlotModel>,
    b: Seq<tree_builder::SlotModel>,
    c: Seq<tree_builder::SlotModel>,
)
    requires
        goes_on(a, b),
        goes_on(b, c),
    ensures
        goes_on(a, c),
{
    assert(c.take(a.len() as int) =~= b.take(a.len() as int));
}

proof fn lemma_has_key_on(
    a: Seq<tree_builder::SlotModel>,
    b: Seq<tree_builder::SlotModel>,
    v: tree_builder::SlotModel,
)
    requires
        goes_on(a, b),
        has_key(a, v),
    ensures
        has_key(b, v),
{
    let i = choose|i: int|
        0 <= i < a.len() && value_key::value_key(#[trigger] a[i]) == value_key::value_key(v);
    assert(b.take(a.len() as int)[i] == b[i]);
}

proof fn lemma_deduped(ds: Seq<tree_builder::SlotModel>, v: tree_builder::SlotModel)
    requires
        are_different(ds),
    ensures
        are_different(earley_tree::deduped(ds, v)),
        goes_on(ds, earley_tree::deduped(ds, v)),
        has_key(earley_tree::deduped(ds, v), v),
{
    let out = earley_tree::deduped(ds, v);
    if earley_tree::key_among(ds, v) {
        assert(out == ds);
        assert(ds.take(ds.len() as int) =~= ds);
    } else {
        assert(out == ds.push(v));
        assert(out.take(ds.len() as int) =~= ds);
        assert(out[ds.len() as int] == v);
        assert forall|i: int, j: int| 0 <= i < j < out.len() implies value_key::value_key(
            #[trigger] out[i],
        ) != value_key::value_key(#[trigger] out[j]) by {
            assert(out[i] == ds[i]);
            if j < ds.len() {
                assert(out[j] == ds[j]);
            }
        }
    }
}

proof fn lemma_alternatives(
    ds: Seq<tree_builder::SlotModel>,
    ns: Seq<tree::Node>,
    k: nat,
)
    requires
        are_different(ds),
    ensures
        are_different(earley_tree::alternatives_added(ds, ns, k)),
        goes_on(ds, earley_tree::alternatives_added(ds, ns, k)),
    decreases k,
{
    if k == 0 {
        assert(ds.take(ds.len() as int) =~= ds);
    } else {
        lemma_alternatives(ds, ns, (k - 1) as nat);
        let before = earley_tree::alternatives_added(ds, ns, (k - 1) as nat);
        lemma_deduped(before, earley_tree::as_value(ns[k - 1]));
        lemma_goes_on(ds, before, earley_tree::alternatives_added(ds, ns, k));
    }
}

/// Whether a value is a node that shows alternatives.
pub open spec fn shows_alternatives(v: tree_builder::SlotModel) -> bool {
    v matches tree_builder::SlotModel::Value(tree::Node::Tree { data, children, meta }) && data
        == "_ambig"@ && children.len() > 0
}

proof fn lemma_outcome(ds: Seq<tree_builder::SlotModel>, v: tree_builder::SlotModel)
    requires
        are_different(ds),
    ensures
        are_different(earley_tree::outcome_added(ds, v)),
        goes_on(ds, earley_tree::outcome_added(ds, v)),
        !shows_alternatives(v) ==> has_key(earley_tree::outcome_added(ds, v), v),
{
    if shows_alternatives(v) {
        let children = v->Value_0->children;
        lemma_alternatives(ds, children, children.len());
    } else {
        lemma_deduped(ds, v);
    }
}

proof fn lemma_outcomes(
    w: earley_rank::Walk,
    rule: int,
    ds: Seq<tree_builder::SlotModel>,
    lists: Seq<Seq<tree_builder::SlotModel>>,
    k: nat,
)
    requires
        are_different(ds),
        k <= lists.len(),
    ensures
        ({
            let out = earley_tree::outcomes_added(w, rule, ds, lists, k);
            &&& are_different(out)
            &&& goes_on(ds, out)
            &&& forall|j: int|
                #![trigger lists[j]]
                0 <= j < k ==> {
                    let v = tree_builder::assembled(w.rules[rule], w.pp, lists[j]);
                    shows_alternatives(v) || has_key(out, v)
                }
        }),
    decreases k,
{
    if k == 0 {
        assert(ds.take(ds.len() as int) =~= ds);
    } else {
        lemma_outcomes(w, rule, ds, lists, (k - 1) as nat);
        let before = earley_tree::outcomes_added(w, rule, ds, lists, (k - 1) as nat);
        let last = tree_builder::assembled(w.rules[rule], w.pp, lists[k - 1]);
        lemma_outcome(before, last);
        let out = earley_tree::outcomes_added(w, rule, ds, lists, k);
        lemma_goes_on(ds, before, out);
        assert forall|j: int| #![trigger lists[j]] 0 <= j < k implies {
            let v = tree_builder::assembled(w.rules[rule], w.pp, lists[j]);
            shows_alternatives(v) || has_key(out, v)
        } by {
            let v = tree_builder::assembled(w.rules[rule], w.pp, lists[j]);
            if j < k - 1 && !shows_alternatives(v) {
                lemma_has_key_on(before, out, v);
            }
        }
    }
}

/// The alternatives of a node are all different. Those of the families that are tried
/// first come first, whatever the later ones add; and each list of children of a
/// family is shown by a value of its own, unless that is itself a choice.
pub proof fn alternatives_differ_and_keep_their_order(
    w: earley_rank::Walk,
    id: int,
    order: Seq<usize>,
    k: nat,
    n: nat,
    m: earley_rank::Found,
    visiting: Seq<bool>,
)
    requires
        n <= k <= order.len(),
    ensures
        ({
            let all = earley_tree::families_derived(w, id, order, k, m, visiting).0;
            &&& are_different(all)
            &&& goes_on(earley_tree::families_derived(w, id, order, n, m, visiting).0, all)
            &&& k > 0 ==> {
                let p = w.forest.nodes[id].families[order[k - 1] as int];
                let before = earley_tree::families_derived(
                    w,
                    id,
                    order,
                    (k - 1) as nat,
                    m,
                    visiting,
                );
                let lists = earley_tree::packed_expanded(w, p, before.1, visiting).0;
                forall|j: int|
                    #![trigger lists[j]]
                    0 <= j < lists.len() ==> {
                        let v = tree_builder::assembled(w.rules[p.rule as int], w.pp, lists[j]);
                        shows_alternatives(v) || has_key(all, v)
                    }
            }
        }),
    decreases k,
{
    let all = earley_tree::families_derived(w, id, order, k, m, visiting).0;
    if k == 0 {
        assert(all.take(all.len() as int) =~= all);
    } else {
        let j = (k - 1) as nat;
        let least = if n <= j {
            n
        } else {
            j
        };
        alternatives_differ_and_keep_their_order(w, id, order, j, least, m, visiting);
        let (ds, m1) = earley_tree::families_derived(w, id, order, j, m, visiting);
        let p = w.forest.nodes[id].families[order[k - 1] as int];
        let lists = earley_tree::packed_expanded(w, p, m1, visiting).0;
        lemma_outcomes(w, p.rule as int, ds, lists, lists.len());
        assert(all == earley_tree::outcomes_added(w, p.rule as int, ds, lists, lists.len()));
        if n <= j {
            lemma_goes_on(
                earley_tree::families_derived(w, id, order, n, m, visiting).0,
                ds,
                all,
            );
        } else {
            assert(all.take(all.len() as int) =~= all);
        }
    }
}

/// Alternatives stand side by side in a node of their own, in their order, where there
/// are several; a single one stands alone.
pub proof fn several_alternatives_share_a_node(ds: Seq<tree_builder::SlotModel>)
    ensures
        match earley_tree::side_by_side(ds) {
            None => ds.len() == 0,
            Some(v) => ds.len() > 0 && if ds.len() == 1 {
                v == ds[0]
            } else {
                v matches tree_builder::SlotModel::Value(
                    tree::Node::Tree { data, children, meta },
                ) && data == "_ambig"@ && children.len() == ds.len() && forall|i: int|
                    0 <= i < ds.len() ==> (ds[i] matches tree_builder::SlotModel::Value(n)
                        ==> #[trigger] children[i] == n)
            },
        },
{
}

} // verus!
