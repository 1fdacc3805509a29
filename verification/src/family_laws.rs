//! What adding families to a forest node leaves: each pair of parts once, the
//! first that was added; and of the families that derive nothing the one of the
//! lowest order.

use vstd::prelude::*;
use crate::earley_forest;
use crate::earley_forest::Packed;

verus! {

/// A node once families are added, each with the order of its rule.
pub open spec fn all_added(
    n: earley_forest::NodeModel,
    adds: Seq<(Packed, usize)>,
) -> earley_forest::NodeModel
    decreases adds.len(),
{
    if adds.len() == 0 {
        n
    } else {
        earley_forest::with_family(
            all_added(n, adds.drop_last()),
            adds.last().0,
            adds.last().1,
        )
    }
}

/// Whether a family has no parts.
pub open spec fn is_empty_family(p: Packed) -> bool {
    p.left is Nothing && p.right is Nothing
}

/// Whether two families have the same parts.
pub open spec fn same_parts(p: Packed, q: Packed) -> bool {
    p.left == q.left && p.right == q.right
}

/// Whether addition `a` is the one kept of those with its parts: the first, or for
/// families without parts the first of those of the lowest order.
pub open spec fn is_kept(adds: Seq<(Packed, usize)>, a: int) -> bool {
    &&& 0 <= a < adds.len()
    &&& forall|b: int|
        0 <= b < adds.len() && same_parts((#[trigger] adds[b]).0, adds[a].0) ==> if is_empty_family(
            adds[a].0,
        ) {
            adds[a].1 <= adds[b].1 && (b < a ==> adds[a].1 < adds[b].1)
        } else {
            a <= b
        }
}

/// Whether `p` is the family kept of the additions with its parts.
pub open spec fn is_kept_family(adds: Seq<(Packed, usize)>, p: Packed) -> bool {
    exists|a: int| #[trigger] is_kept(adds, a) && adds[a].0 == p
}

/// Whether a node without parts that derive nothing is as its families say.
spec fn is_in_step(n: earley_forest::NodeModel, adds: Seq<(Packed, usize)>) -> bool {
    match n.eps {
        None => forall|k: int|
            0 <= k < n.families.len() ==> !is_empty_family(#[trigger] n.families[k]),
        Some((k, best)) => {
            &&& k < n.families.len()
            &&& is_empty_family(n.families[k as int])
            &&& exists|a: int| #[trigger]
                is_kept(adds, a) && adds[a].0 == n.families[k as int] && adds[a].1 == best
        },
    }
}

/// Whether families all have parts of their own.
pub open spec fn parts_differ(fs: Seq<Packed>) -> bool {
    forall|i: int, j: int|
        0 <= i < j < fs.len() ==> !same_parts(#[trigger] fs[i], #[trigger] fs[j])
}

/// Whether addition `a` is the first with the parts of `p`.
pub open spec fn is_first(adds: Seq<(Packed, usize)>, a: int, p: Packed) -> bool {
    &&& 0 <= a < adds.len()
    &&& same_parts(adds[a].0, p)
    &&& forall|b: int| 0 <= b < a ==> !same_parts((#[trigger] adds[b]).0, p)
}

/// Whether families stand in the order in which their parts were first added.
pub open spec fn is_in_order(fs: Seq<Packed>, adds: Seq<(Packed, usize)>) -> bool {
    forall|i: int, j: int, a: int, b: int|
        0 <= i < j < fs.len() && #[trigger] is_first(adds, a, fs[i]) && #[trigger] is_first(
            adds,
            b,
            fs[j],
        ) ==> a < b
}

proof fn lemma_kept_more(adds: Seq<(Packed, usize)>, a: int)
    requires
        adds.len() > 0,
        is_kept(adds.drop_last(), a),
        same_parts(adds.last().0, adds[a].0) && is_empty_family(adds[a].0) ==> adds[a].1
            <= adds.last().1,
    ensures
        is_kept(adds, a),
{
    let front = adds.drop_last();
    assert forall|b: int|
        0 <= b < adds.len() && same_parts((#[trigger] adds[b]).0, adds[a].0) implies (
    if is_empty_family(adds[a].0) {
        adds[a].1 <= adds[b].1 && (b < a ==> adds[a].1 < adds[b].1)
    } else {
        a <= b
    }) by {
        if b < front.len() {
            assert(front[b] == adds[b]);
        }
        assert(front[a] == adds[a]);
    }
}

proof fn lemma_step(n: earley_forest::NodeModel, adds: Seq<(Packed, usize)>)
    requires
        n.families.len() == 0,
        n.eps is None,
        all_added(n, adds).families.len() <= usize::MAX,
    ensures
        ({
            let m = all_added(n, adds);
            &&& is_in_step(m, adds)
            &&& is_in_order(m.families, adds)
            &&& parts_differ(m.families)
            &&& forall|k: int|
                0 <= k < m.families.len() ==> is_kept_family(adds, #[trigger] m.families[k])
            &&& forall|a: int|
                0 <= a < adds.len() ==> earley_forest::has_pair(
                    m.families,
                    (#[trigger] adds[a]).0.left,
                    adds[a].0.right,
                )
        }),
    decreases adds.len(),
{
    if adds.len() > 0 {
        let front = adds.drop_last();
        let m0 = all_added(n, front);
        assert(m0.families.len() <= all_added(n, adds).families.len());
        lemma_step(n, front);
        let (p, order) = adds.last();
        let m = all_added(n, adds);
        let last = adds.len() - 1;
        assert(adds[last] == (p, order));
        let had = earley_forest::has_pair(m0.families, p.left, p.right);
        // What was kept stays kept, but for what is replaced.
        assert forall|k: int|
            0 <= k < m0.families.len() && !(is_empty_family(p) && is_empty_family(
                m0.families[k],
            )) implies is_kept_family(adds, #[trigger] m0.families[k]) by {
            assert(is_kept_family(front, m0.families[k]));
            let a = choose|a: int| #[trigger] is_kept(front, a) && front[a].0 == m0.families[k];
            assert(front[a] == adds[a]);
            lemma_kept_more(adds, a);
        }
        assert(forall|k: int|
            0 <= k < m.families.len() && k < m0.families.len() && !is_empty_family(p)
                ==> #[trigger] m.families[k] == m0.families[k]);
        if is_empty_family(p) {
            match m0.eps {
                None => {
                    assert(m.families == m0.families.push(p));
                    assert(is_kept(adds, last)) by {
                        assert forall|b: int|
                            0 <= b < adds.len() && same_parts(
                                (#[trigger] adds[b]).0,
                                adds[last].0,
                            ) implies adds[last].1 <= adds[b].1 && (b < last ==> adds[last].1
                            < adds[b].1) by {
                            if b < last {
                                assert(front[b] == adds[b]);
                                let k = choose|k: int|
                                    0 <= k < m0.families.len() && (#[trigger] m0.families[k]).left
                                        == adds[b].0.left && m0.families[k].right
                                        == adds[b].0.right;
                                assert(!is_empty_family(m0.families[k]));
                            }
                        }
                    }
                    assert forall|k: int| 0 <= k < m.families.len() implies is_kept_family(
                        adds,
                        #[trigger] m.families[k],
                    ) by {
                        if k < m0.families.len() {
                            assert(m.families[k] == m0.families[k]);
                        }
                    }
                    assert(parts_differ(m.families)) by {
                        assert forall|i: int, j: int|
                            0 <= i < j < m.families.len() implies !same_parts(
                            #[trigger] m.families[i],
                            #[trigger] m.families[j],
                        ) by {
                            assert(m.families[i] == m0.families[i]);
                            if j < m0.families.len() {
                                assert(m.families[j] == m0.families[j]);
                            } else {
                                assert(!is_empty_family(m0.families[i]));
                            }
                        }
                    }
                    lemma_pairs_kept(m0.families, m.families);
                    assert(m.families[m0.families.len() as int] == p);
                },
                Some((k0, best)) => {
                    let a0 = choose|a: int| #[trigger]
                        is_kept(front, a) && front[a].0 == m0.families[k0 as int] && front[a].1
                            == best;
                    assert(front[a0] == adds[a0]);
                    if order < best {
                        assert(m.families == m0.families.update(k0 as int, p));
                        assert(is_kept(adds, last)) by {
                            assert forall|b: int|
                                0 <= b < adds.len() && same_parts(
                                    (#[trigger] adds[b]).0,
                                    adds[last].0,
                                ) implies adds[last].1 <= adds[b].1 && (b < last
                                ==> adds[last].1 < adds[b].1) by {
                                if b < last {
                                    assert(front[b] == adds[b]);
                                    assert(same_parts(front[b].0, front[a0].0));
                                }
                            }
                        }
                        assert(m.families[k0 as int] == p);
                    } else {
                        assert(m.families == m0.families);
                        lemma_kept_more(adds, a0);
                    }
                    assert forall|k: int| 0 <= k < m.families.len() implies is_kept_family(
                        adds,
                        #[trigger] m.families[k],
                    ) by {
                        if k != k0 {
                            assert(m.families[k] == m0.families[k]);
                            if is_empty_family(m0.families[k]) {
                                if k < k0 {
                                    assert(!same_parts(
                                        m0.families[k],
                                        m0.families[k0 as int],
                                    ));
                                } else {
                                    assert(!same_parts(
                                        m0.families[k0 as int],
                                        m0.families[k],
                                    ));
                                }
                            }
                        }
                    }
                    assert(parts_differ(m.families)) by {
                        assert forall|i: int, j: int|
                            0 <= i < j < m.families.len() implies !same_parts(
                            #[trigger] m.families[i],
                            #[trigger] m.families[j],
                        ) by {
                            assert(!same_parts(m0.families[i], m0.families[j]));
                        }
                    }
                    assert forall|a: int| 0 <= a < adds.len() implies earley_forest::has_pair(
                        m.families,
                        (#[trigger] adds[a]).0.left,
                        adds[a].0.right,
                    ) by {
                        let q = adds[a].0;
                        if a < last {
                            assert(front[a] == adds[a]);
                            let k = choose|k: int|
                                0 <= k < m0.families.len() && (#[trigger] m0.families[k]).left
                                    == q.left && m0.families[k].right == q.right;
                            assert(m.families[k].left == q.left && m.families[k].right
                                == q.right);
                        } else {
                            assert(m.families[k0 as int].left == q.left
                                && m.families[k0 as int].right == q.right);
                        }
                    }
                },
            }
        } else if had {
            assert(m == m0);
            lemma_eps_kept(m0, adds);
        } else {
            assert(m.families == m0.families.push(p));
            assert(is_kept(adds, last)) by {
                assert forall|b: int|
                    0 <= b < adds.len() && same_parts(
                        (#[trigger] adds[b]).0,
                        adds[last].0,
                    ) implies last <= b by {
                    if b < last {
                        assert(front[b] == adds[b]);
                        assert(earley_forest::has_pair(
                            m0.families,
                            adds[b].0.left,
                            adds[b].0.right,
                        ));
                    }
                }
            }
            lemma_eps_kept(m0, adds);
            assert forall|k: int| 0 <= k < m.families.len() implies is_kept_family(
                adds,
                #[trigger] m.families[k],
            ) by {
                if k < m0.families.len() {
                    assert(m.families[k] == m0.families[k]);
                }
            }
            assert(parts_differ(m.families)) by {
                assert forall|i: int, j: int| 0 <= i < j < m.families.len() implies !same_parts(
                    #[trigger] m.families[i],
                    #[trigger] m.families[j],
                ) by {
                    assert(m.families[i] == m0.families[i]);
                    if j < m0.families.len() {
                        assert(m.families[j] == m0.families[j]);
                    }
                }
            }
            lemma_pairs_kept(m0.families, m.families);
            assert(m.families[m0.families.len() as int] == p);
        }
        assert forall|a: int| 0 <= a < adds.len() implies earley_forest::has_pair(
            m.families,
            (#[trigger] adds[a]).0.left,
            adds[a].0.right,
        ) by {
            if a < last {
                assert(front[a] == adds[a]);
                assert(earley_forest::has_pair(
                    m0.families,
                    adds[a].0.left,
                    adds[a].0.right,
                ));
            }
        }
        lemma_order_kept(m0.families, m.families, adds);
    }
}

/// Families that keep their parts, with at most the parts of the last addition behind
/// them, stay in order.
proof fn lemma_order_kept(a: Seq<Packed>, b: Seq<Packed>, adds: Seq<(Packed, usize)>)
    requires
        adds.len() > 0,
        is_in_order(a, adds.drop_last()),
        forall|i: int|
            0 <= i < adds.drop_last().len() ==> earley_forest::has_pair(
                a,
                (#[trigger] adds.drop_last()[i]).0.left,
                adds.drop_last()[i].0.right,
            ),
        parts_differ(b),
        a.len() <= b.len() <= a.len() + 1,
        forall|k: int| 0 <= k < a.len() ==> same_parts(#[trigger] a[k], b[k]),
        b.len() > a.len() ==> same_parts(b.last(), adds.last().0),
        forall|k: int| 0 <= k < a.len() ==> is_kept_family(adds.drop_last(), #[trigger] a[k]),
    ensures
        is_in_order(b, adds),
{
    let front = adds.drop_last();
    let last = adds.len() - 1;
    assert forall|i: int, j: int, x: int, y: int|
        0 <= i < j < b.len() && #[trigger] is_first(adds, x, b[i]) && #[trigger] is_first(
            adds,
            y,
            b[j],
        ) implies x < y by {
        assert(same_parts(a[i], b[i]));
        let p = choose|p: int| #[trigger] is_kept(front, p) && front[p].0 == a[i];
        assert(front[p] == adds[p]);
        assert(x <= p);
        assert forall|z: int| 0 <= z < x implies !same_parts((#[trigger] front[z]).0, a[i]) by {
            assert(front[z] == adds[z]);
        }
        assert(front[x] == adds[x]);
        assert(is_first(front, x, a[i]));
        if y < last && j < a.len() {
            assert(same_parts(a[j], b[j]));
            assert forall|z: int| 0 <= z < y implies !same_parts(
                (#[trigger] front[z]).0,
                a[j],
            ) by {
                assert(front[z] == adds[z]);
            }
            assert(front[y] == adds[y]);
            assert(is_first(front, y, a[j]));
        } else if y < last {
            assert(front[y] == adds[y]);
            assert(earley_forest::has_pair(a, front[y].0.left, front[y].0.right));
            let k = choose|k: int|
                0 <= k < a.len() && (#[trigger] a[k]).left == front[y].0.left && a[k].right
                    == front[y].0.right;
            assert(same_parts(a[k], b[k]));
            assert(!same_parts(b[k], b[j]));
        }
    }
}

proof fn lemma_pairs_kept(a: Seq<Packed>, b: Seq<Packed>)
    requires
        a.len() <= b.len(),
        forall|k: int| 0 <= k < a.len() ==> #[trigger] b[k] == a[k],
    ensures
        forall|l: earley_forest::ForestRef, r: earley_forest::ForestRef| #[trigger]
            earley_forest::has_pair(a, l, r) ==> earley_forest::has_pair(b, l, r),
{
    assert forall|l: earley_forest::ForestRef, r: earley_forest::ForestRef| #[trigger]
        earley_forest::has_pair(a, l, r) implies earley_forest::has_pair(b, l, r) by {
        let k = choose|k: int| 0 <= k < a.len() && (#[trigger] a[k]).left == l && a[k].right == r;
        assert(b[k].left == l && b[k].right == r);
    }
}

proof fn lemma_eps_kept(m: earley_forest::NodeModel, adds: Seq<(Packed, usize)>)
    requires
        adds.len() > 0,
        is_in_step(m, adds.drop_last()),
        !is_empty_family(adds.last().0),
    ensures
        m.eps matches Some((k, best)) ==> exists|a: int| #[trigger]
            is_kept(adds, a) && adds[a].0 == m.families[k as int] && adds[a].1 == best,
{
    if let Some((k, best)) = m.eps {
        let front = adds.drop_last();
        let a = choose|a: int| #[trigger]
            is_kept(front, a) && front[a].0 == m.families[k as int] && front[a].1 == best;
        assert(front[a] == adds[a]);
        lemma_kept_more(adds, a);
    }
}

/// What any additions of families leave at a node that had none: no two families
/// have the same parts; the parts of every addition are there, in the order in which
/// they were first added; and each family is the first addition of its parts, or
/// where it has none, the first of the lowest order.
pub proof fn additions_leave(n: earley_forest::NodeModel, adds: Seq<(Packed, usize)>)
    requires
        n.families.len() == 0,
        n.eps is None,
        all_added(n, adds).families.len() <= usize::MAX,
    ensures
        parts_differ(all_added(n, adds).families),
        is_in_order(all_added(n, adds).families, adds),
        forall|k: int|
            0 <= k < all_added(n, adds).families.len() ==> is_kept_family(
                adds,
                #[trigger] all_added(n, adds).families[k],
            ),
        forall|a: int|
            0 <= a < adds.len() ==> earley_forest::has_pair(
                all_added(n, adds).families,
                (#[trigger] adds[a]).0.left,
                adds[a].0.right,
            ),
{
    lemma_step(n, adds);
}

} // verus!
