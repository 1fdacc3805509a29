//! Choosing among the derivations of a forest node: priorities, the order of
//! families, and nodes with a single derivation.

use vstd::prelude::*;
use crate::built::Built;
use crate::bits;
use crate::cnf;
use crate::earley_forest;
use crate::earley_forest::{ForestRef, Packed};
use crate::empty_values;
use crate::symbols;
use crate::tree_builder;

verus! {

/// What the walk over a forest works with.
pub ghost struct Walk {
    pub forest: earley_forest::ForestModel,
    pub rules: Seq<symbols::RuleModel>,
    /// Whether one derivation is chosen, rather than all shown.
    pub resolve: bool,
    /// Whether spans cover all that a rule matched.
    pub pp: bool,
    /// The priority of each terminal.
    pub terms: Seq<i64>,
}

/// What the walk has found so far.
pub ghost struct Found {
    pub values: Seq<Option<tree_builder::SlotModel>>,
    /// The nodes that have been built once.
    pub seen: Seq<bool>,
    pub derivs: Seq<Option<Seq<tree_builder::SlotModel>>>,
    pub single: Seq<Option<bool>>,
    pub prio: Seq<Option<i64>>,
    /// The nodes that were met again while they were being built.
    pub hits: Seq<usize>,
    pub work: Work,
}

/// How much work the walk has done.
#[derive(Clone, Copy)]
pub struct Work {
    /// The values copied to combine alternatives.
    pub copies: u64,
    /// The children of the values kept for all derivations of a node.
    pub children: u64,
    /// The children handed on to assemble a derivation.
    pub assembled: u64,
    /// The derivations kept.
    pub derivations: u64,
    /// What was built.
    pub built: Built,
}

/// A node met again while it is being built.
pub open spec fn met_again(m: Found, id: int) -> Found {
    Found { hits: m.hits.push(id as usize), ..m }
}

/// Numbers without one of them.
pub open spec fn without(s: Seq<usize>, x: usize) -> Seq<usize>
    decreases s.len(),
{
    if s.len() == 0 {
        s
    } else if s.last() == x {
        without(s.drop_last(), x)
    } else {
        without(s.drop_last(), x).push(s.last())
    }
}

/// What is known where a node begins to be built.
pub open spec fn entered(m: Found, prio: Seq<Option<i64>>) -> Found {
    Found { prio, hits: Seq::empty(), ..m }
}

/// What is known once node `id` has been built: it is no longer being built, and
/// the other nodes met again still are.
pub open spec fn left(m: Found, id: int, before: Seq<usize>) -> Found {
    Found { hits: before + without(m.hits, id as usize), ..m }
}

// ---------------------------------------------------------------------------
// Priorities

/// The priority that a part of a family contributes; a node that is still
/// being ranked contributes nothing.
pub open spec fn ref_priority(
    w: Walk,
    prio: Seq<Option<i64>>,
    visiting: Seq<bool>,
    r: ForestRef,
) -> i64 {
    match r {
        ForestRef::Nothing => 0,
        ForestRef::Node(c) => if visiting[c as int] {
            0
        } else {
            match prio[c as int] {
                Some(p) => p,
                None => 0,
            }
        },
        ForestRef::Tok(t) => {
            let s = w.forest.tokens[t as int].type_id;
            if s.ix() < w.terms.len() {
                w.terms[s.ix() as int]
            } else {
                0
            }
        },
    }
}

/// The priority of a family: that of its rule, for a whole symbol, and those
/// of its parts.
pub open spec fn packed_priority(
    w: Walk,
    prio: Seq<Option<i64>>,
    visiting: Seq<bool>,
    p: Packed,
    inter: bool,
) -> i64 {
    let base = if inter {
        0
    } else {
        w.rules[p.rule as int].priority
    };
    cnf::sat_sum(
        cnf::sat_sum(base, ref_priority(w, prio, visiting, p.left)),
        ref_priority(w, prio, visiting, p.right),
    )
}

/// The highest priority of the first `k` families of a node.
pub open spec fn best_priority(
    w: Walk,
    prio: Seq<Option<i64>>,
    visiting: Seq<bool>,
    n: earley_forest::NodeModel,
    k: nat,
) -> i64
    decreases k,
{
    if k == 0 {
        i64::MIN
    } else {
        let best = best_priority(w, prio, visiting, n, (k - 1) as nat);
        let v = packed_priority(w, prio, visiting, n.families[k - 1], n.key is Inter);
        if v > best {
            v
        } else {
            best
        }
    }
}

/// The priorities once node `id` and all that it leads to are ranked.
pub open spec fn ranked(
    w: Walk,
    id: int,
    prio: Seq<Option<i64>>,
    visiting: Seq<bool>,
) -> Seq<Option<i64>>
    decreases bits::missing(visiting), 0nat, 0nat,
{
    if !(0 <= id < visiting.len()) || visiting[id] || prio[id] is Some {
        prio
    } else {
        let n = w.forest.nodes[id];
        let inner = visiting.update(id, true);
        proof {
            empty_values::lemma_visit(visiting, id);
        }
        let p1 = families_ranked(w, n.families, prio, inner, n.families.len());
        p1.update(
            id,
            Some(
                if n.families.len() == 0 {
                    0
                } else {
                    best_priority(w, p1, inner, n, n.families.len())
                },
            ),
        )
    }
}

/// The priorities once the parts of the first `k` families are ranked.
pub open spec fn families_ranked(
    w: Walk,
    families: Seq<Packed>,
    prio: Seq<Option<i64>>,
    visiting: Seq<bool>,
    k: nat,
) -> Seq<Option<i64>>
    decreases bits::missing(visiting), 2nat, k,
{
    if k == 0 {
        prio
    } else {
        let p0 = families_ranked(w, families, prio, visiting, (k - 1) as nat);
        let p1 = ref_ranked(w, families[k - 1].left, p0, visiting);
        ref_ranked(w, families[k - 1].right, p1, visiting)
    }
}

/// The priorities once a part of a family is ranked.
pub open spec fn ref_ranked(
    w: Walk,
    r: ForestRef,
    prio: Seq<Option<i64>>,
    visiting: Seq<bool>,
) -> Seq<Option<i64>>
    decreases bits::missing(visiting), 1nat, 0nat,
{
    match r {
        ForestRef::Node(c) => ranked(w, c as int, prio, visiting),
        _ => prio,
    }
}

/// Ranking keeps the number of nodes.
pub proof fn lemma_ranked_len(w: Walk, id: int, prio: Seq<Option<i64>>, visiting: Seq<bool>)
    requires
        prio.len() == visiting.len(),
    ensures
        ranked(w, id, prio, visiting).len() == prio.len(),
    decreases bits::missing(visiting), 0nat, 0nat,
{
    if 0 <= id < visiting.len() && !visiting[id] && prio[id] is None {
        let n = w.forest.nodes[id];
        empty_values::lemma_visit(visiting, id);
        lemma_families_ranked_len(
            w,
            n.families,
            prio,
            visiting.update(id, true),
            n.families.len(),
        );
    }
}

proof fn lemma_families_ranked_len(
    w: Walk,
    families: Seq<Packed>,
    prio: Seq<Option<i64>>,
    visiting: Seq<bool>,
    k: nat,
)
    requires
        prio.len() == visiting.len(),
    ensures
        families_ranked(w, families, prio, visiting, k).len() == prio.len(),
    decreases bits::missing(visiting), 2nat, k,
{
    if k > 0 {
        lemma_families_ranked_len(w, families, prio, visiting, (k - 1) as nat);
        let p0 = families_ranked(w, families, prio, visiting, (k - 1) as nat);
        lemma_ref_ranked_len(w, families[k - 1].left, p0, visiting);
        let p1 = ref_ranked(w, families[k - 1].left, p0, visiting);
        lemma_ref_ranked_len(w, families[k - 1].right, p1, visiting);
    }
}

proof fn lemma_ref_ranked_len(
    w: Walk,
    r: ForestRef,
    prio: Seq<Option<i64>>,
    visiting: Seq<bool>,
)
    requires
        prio.len() == visiting.len(),
    ensures
        ref_ranked(w, r, prio, visiting).len() == prio.len(),
    decreases bits::missing(visiting), 1nat, 0nat,
{
    if let ForestRef::Node(c) = r {
        lemma_ranked_len(w, c as int, prio, visiting);
    }
}

// ---------------------------------------------------------------------------
// The order of families

/// No node is being visited.
pub open spec fn idle(n: nat) -> Seq<bool> {
    Seq::new(n, |i: int| false)
}

/// The priorities of the first `k` families of node `id`, and all that was
/// ranked for them.
pub open spec fn family_priorities(
    w: Walk,
    id: int,
    prio: Seq<Option<i64>>,
    k: nat,
) -> (Seq<i64>, Seq<Option<i64>>)
    decreases k,
{
    if k == 0 {
        (Seq::empty(), prio)
    } else {
        let (vs, p0) = family_priorities(w, id, prio, (k - 1) as nat);
        let n = w.forest.nodes[id];
        let p = n.families[k - 1];
        let free = idle(w.forest.nodes.len());
        let p1 = ref_ranked(w, p.right, ref_ranked(w, p.left, p0, free), free);
        (vs.push(packed_priority(w, p1, free, p, n.key is Inter)), p1)
    }
}

/// Whether a family derives nothing.
pub open spec fn derives_nothing(p: Packed) -> bool {
    p.left == ForestRef::Nothing && p.right == ForestRef::Nothing
}

/// Whether family `a` is to be tried strictly before family `b`: one that
/// derives something first, then the higher priority, then the lower order.
pub open spec fn tried_before(
    w: Walk,
    families: Seq<Packed>,
    prios: Seq<i64>,
    a: int,
    b: int,
) -> bool {
    let ea = derives_nothing(families[a]);
    let eb = derives_nothing(families[b]);
    if ea != eb {
        !ea
    } else if prios[a] != prios[b] {
        prios[a] > prios[b]
    } else {
        w.rules[families[a].rule as int].order < w.rules[families[b].rule as int].order
    }
}

/// A sorted list of families with one more, behind those that it does not
/// come before.
pub open spec fn inserted(
    w: Walk,
    families: Seq<Packed>,
    prios: Seq<i64>,
    s: Seq<usize>,
    x: usize,
) -> Seq<usize>
    decreases s.len(),
{
    if s.len() > 0 && tried_before(w, families, prios, x as int, s.last() as int) {
        inserted(w, families, prios, s.drop_last(), x).push(s.last())
    } else {
        s.push(x)
    }
}

/// The first `k` families in the order in which they are tried; those that are
/// alike stay in place.
pub open spec fn in_order(w: Walk, families: Seq<Packed>, prios: Seq<i64>, k: nat) -> Seq<usize>
    decreases k,
{
    if k == 0 {
        Seq::empty()
    } else {
        inserted(
            w,
            families,
            prios,
            in_order(w, families, prios, (k - 1) as nat),
            (k - 1) as usize,
        )
    }
}

/// The families of node `id` in the order in which they are tried, and all
/// that was ranked for them.
pub open spec fn tried(
    w: Walk,
    id: int,
    prio: Seq<Option<i64>>,
) -> (Seq<usize>, Seq<Option<i64>>) {
    let families = w.forest.nodes[id].families;
    let (vs, p) = family_priorities(w, id, prio, families.len());
    (in_order(w, families, vs, families.len()), p)
}

proof fn lemma_inserted(
    w: Walk,
    families: Seq<Packed>,
    prios: Seq<i64>,
    s: Seq<usize>,
    x: usize,
    n: nat,
)
    requires
        x < n,
        forall|i: int| 0 <= i < s.len() ==> #[trigger] s[i] < n,
    ensures
        inserted(w, families, prios, s, x).len() == s.len() + 1,
        forall|i: int|
            0 <= i <= s.len() ==> #[trigger] inserted(w, families, prios, s, x)[i] < n,
    decreases s.len(),
{
    if s.len() > 0 && tried_before(w, families, prios, x as int, s.last() as int) {
        lemma_inserted(w, families, prios, s.drop_last(), x, n);
        assert(s[s.len() - 1] < n);
    }
}

/// Every family is tried once.
pub proof fn lemma_in_order(w: Walk, families: Seq<Packed>, prios: Seq<i64>, k: nat)
    requires
        k <= families.len() <= usize::MAX,
    ensures
        in_order(w, families, prios, k).len() == k,
        forall|i: int|
            0 <= i < k ==> #[trigger] in_order(w, families, prios, k)[i] < families.len(),
    decreases k,
{
    if k > 0 {
        lemma_in_order(w, families, prios, (k - 1) as nat);
        lemma_inserted(
            w,
            families,
            prios,
            in_order(w, families, prios, (k - 1) as nat),
            (k - 1) as usize,
            families.len(),
        );
    }
}

// ---------------------------------------------------------------------------
// Single derivations

/// Whether a part of a family is known to have a single derivation.
pub open spec fn ref_single(single: Seq<Option<bool>>, r: ForestRef) -> bool {
    match r {
        ForestRef::Node(c) => single[c as int] == Some(true),
        _ => true,
    }
}

/// What is known of single derivations once node `id` is looked at; a node
/// that leads to itself has none.
pub open spec fn single_known(
    w: Walk,
    id: int,
    single: Seq<Option<bool>>,
    visiting: Seq<bool>,
) -> Seq<Option<bool>>
    decreases bits::missing(visiting), 0nat,
{
    if !(0 <= id < visiting.len()) || single[id] is Some {
        single
    } else if visiting[id] {
        single.update(id, Some(false))
    } else if w.forest.nodes[id].families.len() != 1 {
        single.update(id, Some(false))
    } else {
        let p = w.forest.nodes[id].families[0];
        let inner = visiting.update(id, true);
        proof {
            empty_values::lemma_visit(visiting, id);
        }
        let s1 = ref_single_known(w, p.right, single, inner);
        let s2 = ref_single_known(w, p.left, s1, inner);
        if s2[id] is Some {
            s2
        } else {
            s2.update(id, Some(ref_single(s2, p.left) && ref_single(s2, p.right)))
        }
    }
}

/// What is known of single derivations once a part of a family is looked at.
pub open spec fn ref_single_known(
    w: Walk,
    r: ForestRef,
    single: Seq<Option<bool>>,
    visiting: Seq<bool>,
) -> Seq<Option<bool>>
    decreases bits::missing(visiting), 1nat,
{
    match r {
        ForestRef::Node(c) => single_known(w, c as int, single, visiting),
        _ => single,
    }
}

/// Looking at a node keeps the number of nodes.
pub proof fn lemma_single_len(w: Walk, id: int, single: Seq<Option<bool>>, visiting: Seq<bool>)
    requires
        single.len() == visiting.len(),
    ensures
        single_known(w, id, single, visiting).len() == single.len(),
    decreases bits::missing(visiting), 0nat,
{
    if 0 <= id < visiting.len() && single[id] is None && !visiting[id]
        && w.forest.nodes[id].families.len() == 1 {
        let p = w.forest.nodes[id].families[0];
        let inner = visiting.update(id, true);
        empty_values::lemma_visit(visiting, id);
        lemma_ref_single_len(w, p.right, single, inner);
        let s1 = ref_single_known(w, p.right, single, inner);
        lemma_ref_single_len(w, p.left, s1, inner);
    }
}

proof fn lemma_ref_single_len(
    w: Walk,
    r: ForestRef,
    single: Seq<Option<bool>>,
    visiting: Seq<bool>,
)
    requires
        single.len() == visiting.len(),
    ensures
        ref_single_known(w, r, single, visiting).len() == single.len(),
    decreases bits::missing(visiting), 1nat,
{
    if let ForestRef::Node(c) = r {
        lemma_single_len(w, c as int, single, visiting);
    }
}

} // verus!
