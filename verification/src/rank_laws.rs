//! What it means that the best derivation is chosen: in which order the families of
//! a node are tried, what their priorities are, and which tree comes of it.

use vstd::prelude::*;
use crate::earley_forest;
use crate::earley_forest::{ForestRef, NodeKey, Packed};
use crate::earley_rank;
use crate::earley_tree;
use crate::symbols;
use crate::symbols::CompiledGrammar;

verus! {

// ---------------------------------------------------------------------------
// The order of families

/// Whether a family matches the empty string by a rule without symbols.
pub open spec fn is_empty_family(p: Packed) -> bool {
    p.left is Nothing && p.right is Nothing
}

/// Whether family `a` beats family `b`, with their priorities: one that is not empty
/// beats an empty one; otherwise the higher priority wins, then the rule that was
/// written first, then the family that was found first.
pub open spec fn beats(
    w: earley_rank::Walk,
    families: Seq<Packed>,
    prios: Seq<int>,
    a: int,
    b: int,
) -> bool {
    let first = w.rules[families[a].rule as int].order;
    let second = w.rules[families[b].rule as int].order;
    if is_empty_family(families[a]) == is_empty_family(families[b]) {
        ||| prios[b] < prios[a]
        ||| prios[b] == prios[a] && first < second
        ||| prios[b] == prios[a] && first == second && a < b
    } else {
        is_empty_family(families[b])
    }
}

spec fn ints(s: Seq<i64>) -> Seq<int> {
    Seq::new(s.len(), |i: int| s[i] as int)
}

/// Whether each of some families beats all behind it.
spec fn is_descending(
    w: earley_rank::Walk,
    families: Seq<Packed>,
    prios: Seq<int>,
    s: Seq<usize>,
) -> bool {
    forall|i: int, j: int|
        0 <= i < j < s.len() ==> beats(
            w,
            families,
            prios,
            #[trigger] s[i] as int,
            #[trigger] s[j] as int,
        )
}

proof fn lemma_inserted(
    w: earley_rank::Walk,
    families: Seq<Packed>,
    prios: Seq<i64>,
    s: Seq<usize>,
    x: usize,
)
    requires
        x < families.len(),
        prios.len() == families.len(),
        forall|i: int| 0 <= i < s.len() ==> #[trigger] s[i] < x,
        is_descending(w, families, ints(prios), s),
    ensures
        ({
            let r = earley_rank::inserted(w, families, prios, s, x);
            &&& r.len() == s.len() + 1
            &&& is_descending(w, families, ints(prios), r)
            &&& forall|i: int| 0 <= i < r.len() ==> #[trigger] r[i] == x || s.contains(r[i])
            &&& r.contains(x)
            &&& forall|y: usize| #[trigger] s.contains(y) ==> r.contains(y)
        }),
    decreases s.len(),
{
    let r = earley_rank::inserted(w, families, prios, s, x);
    let vs = ints(prios);
    if s.len() > 0 && earley_rank::tried_before(
        w,
        families,
        prios,
        x as int,
        s.last() as int,
    ) {
        let front = s.drop_last();
        lemma_inserted(w, families, prios, front, x);
        let q = earley_rank::inserted(w, families, prios, front, x);
        assert(r == q.push(s.last()));
        assert(s[s.len() - 1] < x);
        assert(beats(w, families, vs, x as int, s.last() as int));
        assert forall|i: int, j: int| 0 <= i < j < r.len() implies beats(
            w,
            families,
            vs,
            #[trigger] r[i] as int,
            #[trigger] r[j] as int,
        ) by {
            if j == q.len() {
                assert(r[j] == s.last());
                assert(r[i] == q[i]);
                if q[i] != x {
                    assert(front.contains(q[i]));
                    let k = choose|k: int| 0 <= k < front.len() && front[k] == q[i];
                    assert(s[k] == q[i]);
                    assert(beats(w, families, vs, s[k] as int, s[s.len() - 1] as int));
                }
            } else {
                assert(r[i] == q[i] && r[j] == q[j]);
            }
        }
        assert forall|i: int| 0 <= i < r.len() implies #[trigger] r[i] == x || s.contains(
            r[i],
        ) by {
            if i < q.len() {
                assert(r[i] == q[i]);
                if q[i] != x {
                    assert(front.contains(q[i]));
                    let k = choose|k: int| 0 <= k < front.len() && front[k] == q[i];
                    assert(s[k] == q[i]);
                }
            } else {
                assert(s[s.len() - 1] == r[i]);
            }
        }
        let at = choose|k: int| 0 <= k < q.len() && q[k] == x;
        assert(r[at] == x);
        assert forall|y: usize| #[trigger] s.contains(y) implies r.contains(y) by {
            let k = choose|k: int| 0 <= k < s.len() && s[k] == y;
            if k < front.len() {
                assert(front[k] == y);
                assert(front.contains(y));
                let i = choose|i: int| 0 <= i < q.len() && q[i] == y;
                assert(r[i] == y);
            } else {
                assert(r[q.len() as int] == y);
            }
        }
    } else {
        assert(r == s.push(x));
        assert forall|i: int, j: int| 0 <= i < j < r.len() implies beats(
            w,
            families,
            vs,
            #[trigger] r[i] as int,
            #[trigger] r[j] as int,
        ) by {
            if j == s.len() {
                assert(r[i] == s[i]);
                assert(s[i] < x);
                assert(s[s.len() - 1] < x);
                assert(beats(w, families, vs, s[s.len() - 1] as int, x as int));
                if i < s.len() - 1 {
                    assert(beats(w, families, vs, s[i] as int, s[s.len() - 1] as int));
                }
            } else {
                assert(r[i] == s[i] && r[j] == s[j]);
            }
        }
        assert forall|i: int| 0 <= i < r.len() implies #[trigger] r[i] == x || s.contains(
            r[i],
        ) by {
            if i < s.len() {
                assert(s[i] == r[i]);
            }
        }
        assert(r[s.len() as int] == x);
        assert forall|y: usize| #[trigger] s.contains(y) implies r.contains(y) by {
            let k = choose|k: int| 0 <= k < s.len() && s[k] == y;
            assert(r[k] == y);
        }
    }
}

proof fn lemma_in_order(
    w: earley_rank::Walk,
    families: Seq<Packed>,
    prios: Seq<i64>,
    k: nat,
)
    requires
        k <= families.len() <= usize::MAX,
        prios.len() == families.len(),
    ensures
        ({
            let r = earley_rank::in_order(w, families, prios, k);
            &&& r.len() == k
            &&& is_descending(w, families, ints(prios), r)
            &&& forall|i: int| 0 <= i < k ==> #[trigger] r[i] < k
            &&& forall|y: usize| y < k ==> #[trigger] r.contains(y)
        }),
    decreases k,
{
    if k > 0 {
        let s = earley_rank::in_order(w, families, prios, (k - 1) as nat);
        let x = (k - 1) as usize;
        lemma_in_order(w, families, prios, (k - 1) as nat);
        lemma_inserted(w, families, prios, s, x);
        let r = earley_rank::in_order(w, families, prios, k);
        assert forall|i: int| 0 <= i < k implies #[trigger] r[i] < k by {
            if r[i] != x {
                assert(s.contains(r[i]));
                let j = choose|j: int| 0 <= j < s.len() && s[j] == r[i];
                assert(s[j] < k - 1);
            }
        }
        assert forall|y: usize| y < k implies #[trigger] r.contains(y) by {
            if y < k - 1 {
                assert(s.contains(y));
            } else {
                assert(y == x);
            }
        }
    }
}

proof fn lemma_priority_count(
    w: earley_rank::Walk,
    id: int,
    prio: Seq<Option<i64>>,
    k: nat,
)
    ensures
        earley_rank::family_priorities(w, id, prio, k).0.len() == k,
    decreases k,
{
    if k > 0 {
        lemma_priority_count(w, id, prio, (k - 1) as nat);
    }
}

/// All families of a node are tried, each once, and the first is the best: those that
/// are not empty come before those that are, and among those alike none that comes
/// later has a higher priority, nor, with the same priority, a rule written earlier.
pub proof fn best_families_are_tried_first(
    w: earley_rank::Walk,
    id: int,
    prio: Seq<Option<i64>>,
)
    requires
        earley_tree::walk_ok(w),
        0 <= id < w.forest.nodes.len(),
    ensures
        ({
            let families = w.forest.nodes[id].families;
            let order = earley_rank::tried(w, id, prio).0;
            let prios = earley_rank::family_priorities(w, id, prio, families.len()).0;
            &&& prios.len() == families.len()
            &&& order.len() == families.len()
            &&& forall|j: usize| j < families.len() ==> #[trigger] order.contains(j)
            &&& forall|i: int, j: int|
                #![trigger order[i], order[j]]
                0 <= i < j < order.len() ==> {
                    let a = order[i] as int;
                    let b = order[j] as int;
                    let first = w.rules[families[a].rule as int].order;
                    let second = w.rules[families[b].rule as int].order;
                    &&& 0 <= a < families.len() && 0 <= b < families.len() && a != b
                    &&& is_empty_family(families[a]) ==> is_empty_family(families[b])
                    &&& is_empty_family(families[a]) == is_empty_family(families[b])
                        ==> prios[a] >= prios[b]
                    &&& is_empty_family(families[a]) == is_empty_family(families[b])
                        && prios[a] == prios[b] ==> first <= second
                    &&& is_empty_family(families[a]) == is_empty_family(families[b])
                        && prios[a] == prios[b] && first == second ==> a < b
                }
            &&& forall|j: int|
                0 <= j < families.len() && !is_empty_family(#[trigger] families[j])
                    ==> !is_empty_family(families[order[0] as int]) && prios[order[0] as int]
                    >= prios[j]
        }),
{
    let families = w.forest.nodes[id].families;
    let prios = earley_rank::family_priorities(w, id, prio, families.len()).0;
    let vs = ints(prios);
    assert(earley_forest::families_ok(w.forest, w.rules.len(), w.forest.nodes[id]));
    lemma_priority_count(w, id, prio, families.len());
    lemma_in_order(w, families, prios, families.len());
    let order = earley_rank::tried(w, id, prio).0;
    assert forall|i: int, j: int|
        #![trigger order[i], order[j]]
        0 <= i < j < order.len() implies {
        let a = order[i] as int;
        let b = order[j] as int;
        let first = w.rules[families[a].rule as int].order;
        let second = w.rules[families[b].rule as int].order;
        &&& 0 <= a < families.len() && 0 <= b < families.len() && a != b
        &&& is_empty_family(families[a]) ==> is_empty_family(families[b])
        &&& is_empty_family(families[a]) == is_empty_family(families[b]) ==> prios[a] >= prios[b]
        &&& is_empty_family(families[a]) == is_empty_family(families[b]) && prios[a] == prios[b]
            ==> first <= second
        &&& is_empty_family(families[a]) == is_empty_family(families[b]) && prios[a] == prios[b]
            && first == second ==> a < b
    } by {
        assert(beats(w, families, vs, order[i] as int, order[j] as int));
    }
    assert forall|j: int|
        0 <= j < families.len() && !is_empty_family(#[trigger] families[j]) implies
        !is_empty_family(families[order[0] as int]) && prios[order[0] as int] >= prios[j] by {
        assert(order.contains(j as usize));
        let i = choose|i: int| 0 <= i < order.len() && order[i] == j as usize;
        if i > 0 {
            assert(beats(w, families, vs, order[0] as int, order[i] as int));
        }
    }
}

// ---------------------------------------------------------------------------
// Priorities add up

/// A number brought into the range of priorities.
pub open spec fn clamped(x: int) -> int {
    if x < i64::MIN {
        i64::MIN as int
    } else if x <= i64::MAX {
        x
    } else {
        i64::MAX as int
    }
}

/// What a part of a family is worth, where the nodes have the given worth.
pub open spec fn part_worth(w: earley_rank::Walk, worth: Seq<int>, r: ForestRef) -> int {
    match r {
        ForestRef::Node(c) => worth[c as int],
        ForestRef::Tok(t) => if w.forest.tokens[t as int].type_id.ix() < w.terms.len() {
            w.terms[w.forest.tokens[t as int].type_id.ix() as int] as int
        } else {
            0
        },
        ForestRef::Nothing => 0,
    }
}

/// What a family is worth: its parts, and, where it derives a whole symbol, its rule.
pub open spec fn family_worth(
    w: earley_rank::Walk,
    worth: Seq<int>,
    key: NodeKey,
    p: Packed,
) -> int {
    let own = match key {
        NodeKey::Sym(_) => w.rules[p.rule as int].priority as int,
        NodeKey::Inter(_, _) => 0,
    };
    clamped(clamped(own + part_worth(w, worth, p.left)) + part_worth(w, worth, p.right))
}

/// Whether a node is worth as much as the best of its families.
pub open spec fn is_best_worth(w: earley_rank::Walk, worth: Seq<int>, id: int) -> bool {
    let n = w.forest.nodes[id];
    if n.families.len() == 0 {
        worth[id] == 0
    } else {
        &&& forall|j: int|
            0 <= j < n.families.len() ==> family_worth(
                w,
                worth,
                n.key,
                #[trigger] n.families[j],
            ) <= worth[id]
        &&& exists|j: int|
            0 <= j < n.families.len() && family_worth(w, worth, n.key, #[trigger] n.families[j])
                == worth[id]
    }
}

/// Whether each node of a forest is worth as much as the best of its families.
pub open spec fn weighs(w: earley_rank::Walk, worth: Seq<int>) -> bool {
    &&& worth.len() == w.forest.nodes.len()
    &&& forall|id: int| 0 <= id < worth.len() ==> #[trigger] is_best_worth(w, worth, id)
}

/// Whether a part of a family lies below a depth.
pub open spec fn is_below(depth: Seq<nat>, r: ForestRef, d: nat) -> bool {
    match r {
        ForestRef::Node(c) => depth[c as int] < d,
        _ => true,
    }
}

/// Whether no node of a forest leads back to itself: each has a depth, above those of
/// the nodes that it is derived from.
pub open spec fn is_layered(w: earley_rank::Walk, depth: Seq<nat>) -> bool {
    &&& depth.len() == w.forest.nodes.len()
    &&& forall|id: int, k: int|
        #![trigger w.forest.nodes[id].families[k]]
        0 <= id < depth.len() && 0 <= k < w.forest.nodes[id].families.len() ==> {
            let p = w.forest.nodes[id].families[k];
            is_below(depth, p.left, depth[id]) && is_below(depth, p.right, depth[id])
        }
}

/// Whether the priorities found so far are what nodes are worth.
pub open spec fn is_true_to(worth: Seq<int>, prio: Seq<Option<i64>>) -> bool {
    &&& prio.len() == worth.len()
    &&& forall|i: int|
        0 <= i < prio.len() ==> (#[trigger] prio[i] matches Some(v) ==> v == worth[i])
}

/// Whether nothing that was known is lost.
spec fn extends(a: Seq<Option<i64>>, b: Seq<Option<i64>>) -> bool {
    a.len() == b.len() && forall|i: int|
        0 <= i < a.len() && a[i] is Some ==> #[trigger] b[i] == a[i]
}

spec fn is_known(prio: Seq<Option<i64>>, r: ForestRef) -> bool {
    match r {
        ForestRef::Node(c) => prio[c as int] is Some,
        _ => true,
    }
}

/// Whether all nodes being visited lie at a depth or above.
pub open spec fn above(depth: Seq<nat>, visiting: Seq<bool>, d: nat) -> bool {
    visiting.len() == depth.len() && forall|i: int|
        0 <= i < visiting.len() && #[trigger] visiting[i] ==> depth[i] >= d
}

proof fn lemma_packed(
    w: earley_rank::Walk,
    depth: Seq<nat>,
    worth: Seq<int>,
    prio: Seq<Option<i64>>,
    visiting: Seq<bool>,
    id: int,
    k: int,
)
    requires
        earley_tree::walk_ok(w),
        is_layered(w, depth),
        weighs(w, worth),
        is_true_to(worth, prio),
        0 <= id < depth.len(),
        0 <= k < w.forest.nodes[id].families.len(),
        above(depth, visiting, depth[id]),
        is_known(prio, w.forest.nodes[id].families[k].left),
        is_known(prio, w.forest.nodes[id].families[k].right),
    ensures
        earley_rank::packed_priority(
            w,
            prio,
            visiting,
            w.forest.nodes[id].families[k],
            w.forest.nodes[id].key is Inter,
        ) == family_worth(w, worth, w.forest.nodes[id].key, w.forest.nodes[id].families[k]),
{
    assert(earley_forest::families_ok(w.forest, w.rules.len(), w.forest.nodes[id]));
    let p = w.forest.nodes[id].families[k];
    assert(earley_forest::packed_ok(w.forest, w.rules.len(), p));
    assert(is_below(depth, p.left, depth[id]) && is_below(depth, p.right, depth[id]));
}

proof fn lemma_best(
    w: earley_rank::Walk,
    depth: Seq<nat>,
    worth: Seq<int>,
    prio: Seq<Option<i64>>,
    visiting: Seq<bool>,
    id: int,
    k: nat,
)
    requires
        earley_tree::walk_ok(w),
        is_layered(w, depth),
        weighs(w, worth),
        is_true_to(worth, prio),
        0 <= id < depth.len(),
        k <= w.forest.nodes[id].families.len(),
        above(depth, visiting, depth[id]),
        forall|j: int|
            0 <= j < k ==> is_known(prio, (#[trigger] w.forest.nodes[id].families[j]).left)
                && is_known(prio, w.forest.nodes[id].families[j].right),
    ensures
        ({
            let n = w.forest.nodes[id];
            let best = earley_rank::best_priority(w, prio, visiting, n, k);
            &&& forall|j: int|
                0 <= j < k ==> family_worth(w, worth, n.key, #[trigger] n.families[j]) <= best
            &&& k > 0 ==> exists|j: int|
                0 <= j < k && family_worth(w, worth, n.key, #[trigger] n.families[j]) == best
        }),
    decreases k,
{
    if k > 0 {
        let n = w.forest.nodes[id];
        lemma_best(w, depth, worth, prio, visiting, id, (k - 1) as nat);
        lemma_packed(w, depth, worth, prio, visiting, id, k - 1);
        reveal_with_fuel(earley_rank::best_priority, 2);
        let best = earley_rank::best_priority(w, prio, visiting, n, k);
        let v = family_worth(w, worth, n.key, n.families[k - 1]);
        if best != v {
            let j = choose|j: int|
                0 <= j < k - 1 && family_worth(w, worth, n.key, #[trigger] n.families[j]) == best;
            assert(family_worth(w, worth, n.key, n.families[j]) == best);
        }
    }
}

proof fn lemma_ranked(
    w: earley_rank::Walk,
    depth: Seq<nat>,
    worth: Seq<int>,
    id: int,
    prio: Seq<Option<i64>>,
    visiting: Seq<bool>,
)
    requires
        earley_tree::walk_ok(w),
        is_layered(w, depth),
        weighs(w, worth),
        is_true_to(worth, prio),
        0 <= id < depth.len(),
        above(depth, visiting, depth[id] + 1),
    ensures
        ({
            let r = earley_rank::ranked(w, id, prio, visiting);
            is_true_to(worth, r) && r[id] is Some && extends(prio, r)
        }),
    decreases depth[id], 1nat, 0nat,
{
    assert(!visiting[id]);
    if prio[id] is None {
        let n = w.forest.nodes[id];
        let inner = visiting.update(id, true);
        assert(above(depth, inner, depth[id]));
        lemma_families_ranked(w, depth, worth, id, prio, inner, n.families.len());
        let p1 = earley_rank::families_ranked(w, n.families, prio, inner, n.families.len());
        lemma_best(w, depth, worth, p1, inner, id, n.families.len());
        assert(is_best_worth(w, worth, id));
        let r = earley_rank::ranked(w, id, prio, visiting);
        let v = r[id]->0;
        if n.families.len() > 0 {
            let j = choose|j: int|
                0 <= j < n.families.len() && family_worth(
                    w,
                    worth,
                    n.key,
                    #[trigger] n.families[j],
                ) == worth[id];
            assert(family_worth(w, worth, n.key, n.families[j]) <= v);
        }
        assert(v == worth[id]);
    }
}

proof fn lemma_families_ranked(
    w: earley_rank::Walk,
    depth: Seq<nat>,
    worth: Seq<int>,
    id: int,
    prio: Seq<Option<i64>>,
    visiting: Seq<bool>,
    k: nat,
)
    requires
        earley_tree::walk_ok(w),
        is_layered(w, depth),
        weighs(w, worth),
        is_true_to(worth, prio),
        0 <= id < depth.len(),
        k <= w.forest.nodes[id].families.len(),
        above(depth, visiting, depth[id]),
    ensures
        ({
            let n = w.forest.nodes[id];
            let r = earley_rank::families_ranked(w, n.families, prio, visiting, k);
            &&& is_true_to(worth, r)
            &&& extends(prio, r)
            &&& forall|j: int|
                0 <= j < k ==> is_known(r, (#[trigger] n.families[j]).left) && is_known(
                    r,
                    n.families[j].right,
                )
        }),
    decreases depth[id], 0nat, k,
{
    if k > 0 {
        let n = w.forest.nodes[id];
        lemma_families_ranked(w, depth, worth, id, prio, visiting, (k - 1) as nat);
        assert(earley_forest::families_ok(w.forest, w.rules.len(), w.forest.nodes[id]));
        let p = w.forest.nodes[id].families[k - 1];
        assert(earley_forest::packed_ok(w.forest, w.rules.len(), p));
        assert(is_below(depth, p.left, depth[id]) && is_below(depth, p.right, depth[id]));
        let p0 = earley_rank::families_ranked(w, n.families, prio, visiting, (k - 1) as nat);
        if let ForestRef::Node(c) = p.left {
            lemma_ranked(w, depth, worth, c as int, p0, visiting);
        }
        let p1 = earley_rank::ref_ranked(w, p.left, p0, visiting);
        if let ForestRef::Node(c) = p.right {
            lemma_ranked(w, depth, worth, c as int, p1, visiting);
        }
        let r = earley_rank::families_ranked(w, n.families, prio, visiting, k);
        assert(r == earley_rank::ref_ranked(w, p.right, p1, visiting));
        assert(extends(p0, p1));
        assert(extends(p1, r));
        assert forall|j: int| 0 <= j < k implies is_known(r, (#[trigger] n.families[j]).left)
            && is_known(r, n.families[j].right) by {
            assert(earley_forest::packed_ok(w.forest, w.rules.len(), n.families[j]));
        }
    }
}

proof fn lemma_priorities(
    w: earley_rank::Walk,
    depth: Seq<nat>,
    worth: Seq<int>,
    id: int,
    prio: Seq<Option<i64>>,
    k: nat,
)
    requires
        earley_tree::walk_ok(w),
        is_layered(w, depth),
        weighs(w, worth),
        is_true_to(worth, prio),
        0 <= id < depth.len(),
        k <= w.forest.nodes[id].families.len(),
    ensures
        ({
            let n = w.forest.nodes[id];
            let r = earley_rank::family_priorities(w, id, prio, k);
            &&& r.0.len() == k
            &&& forall|j: int|
                0 <= j < k ==> #[trigger] r.0[j] == family_worth(w, worth, n.key, n.families[j])
            &&& is_true_to(worth, r.1)
        }),
    decreases k,
{
    if k > 0 {
        let n = w.forest.nodes[id];
        lemma_priorities(w, depth, worth, id, prio, (k - 1) as nat);
        assert(earley_forest::families_ok(w.forest, w.rules.len(), w.forest.nodes[id]));
        let p = w.forest.nodes[id].families[k - 1];
        assert(earley_forest::packed_ok(w.forest, w.rules.len(), p));
        assert(is_below(depth, p.left, depth[id]) && is_below(depth, p.right, depth[id]));
        let free = earley_rank::idle(w.forest.nodes.len());
        let p0 = earley_rank::family_priorities(w, id, prio, (k - 1) as nat).1;
        if let ForestRef::Node(c) = p.left {
            lemma_ranked(w, depth, worth, c as int, p0, free);
        }
        let p1 = earley_rank::ref_ranked(w, p.left, p0, free);
        if let ForestRef::Node(c) = p.right {
            lemma_ranked(w, depth, worth, c as int, p1, free);
        }
        let p2 = earley_rank::ref_ranked(w, p.right, p1, free);
        assert(extends(p0, p1) && extends(p1, p2));
        lemma_packed(w, depth, worth, p2, free, id, k - 1);
    }
}

/// In a forest without cycles, the priority of a family is the sum of the priorities
/// of its rule and its parts, where a node has the priority of the best of its
/// families, and what is remembered is true to that.
pub proof fn priorities_add_up(
    w: earley_rank::Walk,
    depth: Seq<nat>,
    worth: Seq<int>,
    id: int,
    prio: Seq<Option<i64>>,
)
    requires
        earley_tree::walk_ok(w),
        is_layered(w, depth),
        weighs(w, worth),
        is_true_to(worth, prio),
        0 <= id < depth.len(),
    ensures
        ({
            let n = w.forest.nodes[id];
            let prios = earley_rank::family_priorities(w, id, prio, n.families.len()).0;
            &&& prios.len() == n.families.len()
            &&& forall|j: int|
                0 <= j < prios.len() ==> #[trigger] prios[j] == family_worth(
                    w,
                    worth,
                    n.key,
                    n.families[j],
                )
            &&& is_true_to(worth, earley_rank::tried(w, id, prio).1)
        }),
{
    lemma_priorities(w, depth, worth, id, prio, w.forest.nodes[id].families.len());
}

/// Each terminal has the priority of its definition, and a symbol that no definition
/// names has none.
pub proof fn terminals_have_their_priorities(g: CompiledGrammar, k: nat, s: int)
    requires
        k <= g.terminals@.len(),
        0 <= s < g.symbols@.len(),
    ensures
        ({
            let r = earley_tree::term_priorities(g, k);
            &&& r.len() == g.symbols@.len()
            &&& (forall|i: int|
                0 <= i < k ==> !names(g, #[trigger] g.terminals@[i].name@, s)) ==> r[s] == 0
            &&& forall|i: int|
                0 <= i < k && names(g, #[trigger] g.terminals@[i].name@, s) && (forall|j: int|
                    0 <= j < k && j != i ==> !names(g, #[trigger] g.terminals@[j].name@, s))
                    ==> r[s] == g.terminals@[i].priority
        }),
    decreases k,
{
    if k > 0 {
        terminals_have_their_priorities(g, (k - 1) as nat, s);
        let r = earley_tree::term_priorities(g, k);
        assert forall|i: int|
            0 <= i < k && names(g, #[trigger] g.terminals@[i].name@, s) && (forall|j: int|
                0 <= j < k && j != i ==> !names(
                    g,
                    #[trigger] g.terminals@[j].name@,
                    s,
                )) implies r[s] == g.terminals@[i].priority by {
            if i < k - 1 {
                assert(!names(g, g.terminals@[k - 1].name@, s));
            }
        }
    }
}

/// Whether a name is that of a symbol.
pub open spec fn names(g: CompiledGrammar, name: Seq<char>, s: int) -> bool {
    symbols::id_of(g.symbols@, name) matches Some(id) && id.ix() == s
}

} // verus!
