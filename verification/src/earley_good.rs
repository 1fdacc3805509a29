//! Nodes of the parse forest that can be built: by a family whose parts can be
//! built, or by a chain of completions from a node that can be built.

use vstd::prelude::*;
use crate::earley_forest;
use crate::earley_forest::ForestRef;
use crate::earley_shape;

verus! {

/// What is known of a forest: the nodes visited and those yet to be visited,
/// to which alone the families of the visited are followed, and the nodes that
/// are taken to be buildable.
pub ghost struct Known {
    pub visited: Seq<usize>,
    pub pending: Seq<usize>,
    pub given: Set<int>,
}

/// Nothing known.
pub open spec fn nothing_known() -> Known {
    Known { visited: Seq::empty(), pending: Seq::empty(), given: Set::empty() }
}

/// The same with other nodes taken to be buildable.
pub open spec fn with_given(k: Known, given: Set<int>) -> Known {
    Known { given, ..k }
}

/// Whether a node can be built in `d` steps.
pub open spec fn good(f: earley_forest::ForestModel, k: Known, x: int, d: nat) -> bool
    decreases d, 0nat,
{
    ||| k.given.contains(x)
    ||| d > 0 && 0 <= x < f.nodes.len() && exists|j: int|
        0 <= j < f.nodes[x].families.len() && led(
            f,
            k,
            x,
            (#[trigger] f.nodes[x].families[j]).left,
            (d - 1) as nat,
        ) && led(f, k, x, f.nodes[x].families[j].right, (d - 1) as nat)
    ||| d > 0 && 0 <= x < f.nodes.len() && exists|j: int|
        0 <= j < f.nodes[x].paths.len() && part_good(
            f,
            k,
            (#[trigger] f.nodes[x].paths[j]).1,
            (d - 1) as nat,
        )
}

/// Whether a part can be built in `d` steps.
pub open spec fn part_good(
    f: earley_forest::ForestModel,
    k: Known,
    r: ForestRef,
    d: nat,
) -> bool
    decreases d, 1nat,
{
    match r {
        ForestRef::Node(c) => good(f, k, c as int, d),
        _ => true,
    }
}

/// Whether a part of a family of node `x` is followed, and can be built in `d`
/// steps.
pub open spec fn led(
    f: earley_forest::ForestModel,
    k: Known,
    x: int,
    r: ForestRef,
    d: nat,
) -> bool
    decreases d, 1nat,
{
    match r {
        ForestRef::Node(c) => good(f, k, c as int, d) && follows(k, x, c),
        _ => true,
    }
}

/// Whether a family of node `x` is followed to node `c`.
pub open spec fn follows(k: Known, x: int, c: usize) -> bool {
    0 <= x <= usize::MAX && k.visited.contains(x as usize) ==> k.visited.contains(c)
        || k.pending.contains(c)
}

/// Whether a node can be built.
pub open spec fn is_good(f: earley_forest::ForestModel, k: Known, x: int) -> bool {
    exists|d: nat| #[trigger] good(f, k, x, d)
}

/// Whether a part can be built.
pub open spec fn is_part_good(f: earley_forest::ForestModel, k: Known, r: ForestRef) -> bool {
    match r {
        ForestRef::Node(c) => is_good(f, k, c as int),
        _ => true,
    }
}

/// Whether every node can be built.
pub open spec fn all_good(f: earley_forest::ForestModel, k: Known) -> bool {
    forall|x: int| 0 <= x < f.nodes.len() ==> #[trigger] is_good(f, k, x)
}

/// What can be built in some steps can be built in more.
pub proof fn lemma_good_more(
    f: earley_forest::ForestModel,
    k: Known,
    x: int,
    d: nat,
    e: nat,
)
    requires
        good(f, k, x, d),
        d <= e,
    ensures
        good(f, k, x, e),
    decreases d,
{
    if !k.given.contains(x) {
        let fs = f.nodes[x].families;
        let ps = f.nodes[x].paths;
        if exists|j: int|
            0 <= j < fs.len() && led(f, k, x, (#[trigger] fs[j]).left, (d - 1) as nat) && led(
                f,
                k,
                x,
                fs[j].right,
                (d - 1) as nat,
            ) {
            let j = choose|j: int|
                0 <= j < fs.len() && led(f, k, x, (#[trigger] fs[j]).left, (d - 1) as nat) && led(
                    f,
                    k,
                    x,
                    fs[j].right,
                    (d - 1) as nat,
                );
            if let ForestRef::Node(c) = fs[j].left {
                lemma_good_more(f, k, c as int, (d - 1) as nat, (e - 1) as nat);
            }
            if let ForestRef::Node(c) = fs[j].right {
                lemma_good_more(f, k, c as int, (d - 1) as nat, (e - 1) as nat);
            }
            assert(led(f, k, x, f.nodes[x].families[j].left, (e - 1) as nat));
        } else {
            let j = choose|j: int|
                0 <= j < ps.len() && part_good(f, k, (#[trigger] ps[j]).1, (d - 1) as nat);
            if let ForestRef::Node(c) = ps[j].1 {
                lemma_good_more(f, k, c as int, (d - 1) as nat, (e - 1) as nat);
            }
            assert(part_good(f, k, f.nodes[x].paths[j].1, (e - 1) as nat));
        }
    }
}

/// A node can be built by a family whose parts can be built.
pub proof fn lemma_by_family(
    f: earley_forest::ForestModel,
    k: Known,
    x: int,
    left: ForestRef,
    right: ForestRef,
)
    requires
        0 <= x < f.nodes.len(),
        earley_forest::has_pair(f.nodes[x].families, left, right),
        is_part_good(f, k, left),
        is_part_good(f, k, right),
        left matches ForestRef::Node(c) ==> follows(k, x, c),
        right matches ForestRef::Node(c) ==> follows(k, x, c),
    ensures
        is_good(f, k, x),
{
    let fs = f.nodes[x].families;
    let j = choose|j: int|
        0 <= j < fs.len() && (#[trigger] fs[j]).left == left && fs[j].right == right;
    let d1: nat = if let ForestRef::Node(c) = left {
        choose|d: nat| #[trigger] good(f, k, c as int, d)
    } else {
        0
    };
    let d2: nat = if let ForestRef::Node(c) = right {
        choose|d: nat| #[trigger] good(f, k, c as int, d)
    } else {
        0
    };
    let d = d1 + d2;
    if let ForestRef::Node(c) = left {
        lemma_good_more(f, k, c as int, d1, d);
    }
    if let ForestRef::Node(c) = right {
        lemma_good_more(f, k, c as int, d2, d);
    }
    assert(led(f, k, x, f.nodes[x].families[j].left, ((d + 1) - 1) as nat));
    assert(led(f, k, x, f.nodes[x].families[j].right, ((d + 1) - 1) as nat));
    assert(good(f, k, x, d + 1));
}

/// A node can be built by a chain from a node that can be built.
pub proof fn lemma_by_path(f: earley_forest::ForestModel, k: Known, x: int, j: int)
    requires
        0 <= x < f.nodes.len(),
        0 <= j < f.nodes[x].paths.len(),
        is_part_good(f, k, f.nodes[x].paths[j].1),
    ensures
        is_good(f, k, x),
{
    let d: nat = if let ForestRef::Node(c) = f.nodes[x].paths[j].1 {
        choose|d: nat| #[trigger] good(f, k, c as int, d)
    } else {
        0
    };
    assert(part_good(f, k, f.nodes[x].paths[j].1, ((d + 1) - 1) as nat));
    assert(good(f, k, x, d + 1));
}

/// What can be built of some nodes can be built of nodes of which those can.
pub proof fn lemma_good_cut(
    f: earley_forest::ForestModel,
    k: Known,
    l: Known,
    x: int,
    d: nat,
)
    requires
        good(f, k, x, d),
        l.visited == k.visited,
        l.pending == k.pending,
        forall|y: int| #[trigger] k.given.contains(y) ==> is_good(f, l, y),
    ensures
        is_good(f, l, x),
    decreases d,
{
    if !k.given.contains(x) {
        let fs = f.nodes[x].families;
        let ps = f.nodes[x].paths;
        if exists|j: int|
            0 <= j < fs.len() && led(f, k, x, (#[trigger] fs[j]).left, (d - 1) as nat) && led(
                f,
                k,
                x,
                fs[j].right,
                (d - 1) as nat,
            ) {
            let j = choose|j: int|
                0 <= j < fs.len() && led(f, k, x, (#[trigger] fs[j]).left, (d - 1) as nat) && led(
                    f,
                    k,
                    x,
                    fs[j].right,
                    (d - 1) as nat,
                );
            if let ForestRef::Node(c) = fs[j].left {
                lemma_good_cut(f, k, l, c as int, (d - 1) as nat);
            }
            if let ForestRef::Node(c) = fs[j].right {
                lemma_good_cut(f, k, l, c as int, (d - 1) as nat);
            }
            lemma_by_family(f, l, x, fs[j].left, fs[j].right);
        } else {
            let j = choose|j: int|
                0 <= j < ps.len() && part_good(f, k, (#[trigger] ps[j]).1, (d - 1) as nat);
            if let ForestRef::Node(c) = ps[j].1 {
                lemma_good_cut(f, k, l, c as int, (d - 1) as nat);
            }
            lemma_by_path(f, l, x, j);
        }
    }
}

/// What can be built stays so as the forest grows.
pub proof fn lemma_good_grown(
    f: earley_forest::ForestModel,
    h: earley_forest::ForestModel,
    k: Known,
    x: int,
    d: nat,
)
    requires
        earley_shape::grown(f, h),
        good(f, k, x, d),
    ensures
        good(h, k, x, d),
    decreases d,
{
    if !k.given.contains(x) {
        let fs = f.nodes[x].families;
        let ps = f.nodes[x].paths;
        if exists|j: int|
            0 <= j < fs.len() && led(f, k, x, (#[trigger] fs[j]).left, (d - 1) as nat) && led(
                f,
                k,
                x,
                fs[j].right,
                (d - 1) as nat,
            ) {
            let j = choose|j: int|
                0 <= j < fs.len() && led(f, k, x, (#[trigger] fs[j]).left, (d - 1) as nat) && led(
                    f,
                    k,
                    x,
                    fs[j].right,
                    (d - 1) as nat,
                );
            if let ForestRef::Node(c) = fs[j].left {
                lemma_good_grown(f, h, k, c as int, (d - 1) as nat);
            }
            if let ForestRef::Node(c) = fs[j].right {
                lemma_good_grown(f, h, k, c as int, (d - 1) as nat);
            }
            assert(earley_forest::has_pair(
                h.nodes[x].families,
                f.nodes[x].families[j].left,
                f.nodes[x].families[j].right,
            ));
            let hs = h.nodes[x].families;
            let q = choose|q: int|
                0 <= q < hs.len() && (#[trigger] hs[q]).left == fs[j].left && hs[q].right
                    == fs[j].right;
            assert(led(h, k, x, h.nodes[x].families[q].left, (d - 1) as nat));
        } else {
            let j = choose|j: int|
                0 <= j < ps.len() && part_good(f, k, (#[trigger] ps[j]).1, (d - 1) as nat);
            if let ForestRef::Node(c) = ps[j].1 {
                lemma_good_grown(f, h, k, c as int, (d - 1) as nat);
            }
            assert(f.nodes[x].paths[j] == h.nodes[x].paths[j]);
            assert(part_good(h, k, h.nodes[x].paths[j].1, (d - 1) as nat));
        }
    }
}

/// The same, of nodes that can be built.
pub proof fn lemma_is_good_grown(
    f: earley_forest::ForestModel,
    h: earley_forest::ForestModel,
    k: Known,
    x: int,
)
    requires
        earley_shape::grown(f, h),
        is_good(f, k, x),
    ensures
        is_good(h, k, x),
{
    let d = choose|d: nat| #[trigger] good(f, k, x, d);
    lemma_good_grown(f, h, k, x, d);
}

/// The same, of nodes that can be built of some nodes.
pub proof fn lemma_is_good_cut(f: earley_forest::ForestModel, k: Known, l: Known, x: int)
    requires
        is_good(f, k, x),
        l.visited == k.visited,
        l.pending == k.pending,
        forall|y: int| #[trigger] k.given.contains(y) ==> is_good(f, l, y),
    ensures
        is_good(f, l, x),
{
    let d = choose|d: nat| #[trigger] good(f, k, x, d);
    lemma_good_cut(f, k, l, x, d);
}

/// Nodes taken to be buildable are.
pub proof fn lemma_given_good(f: earley_forest::ForestModel, k: Known, x: int)
    requires
        k.given.contains(x),
    ensures
        is_good(f, k, x),
{
    assert(good(f, k, x, 0));
}

/// Every node can be built once a new one has a family whose parts can.
pub proof fn lemma_entry_good(
    f: earley_forest::ForestModel,
    h: earley_forest::ForestModel,
    k: Known,
    left: ForestRef,
    right: ForestRef,
)
    requires
        all_good(f, k),
        earley_shape::grown(f, h),
        h.nodes.len() <= f.nodes.len() + 1,
        left matches ForestRef::Node(c) ==> c < f.nodes.len(),
        right matches ForestRef::Node(c) ==> c < f.nodes.len(),
        h.nodes.len() > f.nodes.len() ==> {
            &&& earley_forest::has_pair(h.nodes[f.nodes.len() as int].families, left, right)
            &&& !k.visited.contains(f.nodes.len() as usize)
        },
    ensures
        all_good(h, k),
{
    assert forall|x: int| 0 <= x < f.nodes.len() implies #[trigger] is_good(h, k, x) by {
        assert(is_good(f, k, x));
        lemma_is_good_grown(f, h, k, x);
    }
    if h.nodes.len() > f.nodes.len() {
        lemma_by_family(h, k, f.nodes.len() as int, left, right);
    }
}

} // verus!
