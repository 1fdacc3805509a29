//! Filling in a whole forest: every node that it is filled in from can be built
//! of visited nodes.

use vstd::prelude::*;
use crate::earley_chain;
use crate::earley_chart;
use crate::earley_fill;
use crate::earley_forest;
use crate::earley_forest::{ForestRef, Item, NodeKey, Packed, Trans};
use crate::earley_good;
use crate::earley_paths;
use crate::earley_shape;
use crate::earley_whole;
use crate::symbols::SymbolId;

verus! {

/// What is known of a forest on its way to being filled in.
pub open spec fn known_of(s: earley_paths::Loading) -> earley_good::Known {
    earley_good::Known { visited: s.visited, pending: s.stack, given: Set::empty() }
}

/// Whether the chains of a forest on its way to being filled in can be filled in.
pub open spec fn can_fill(
    g: earley_chart::Context,
    arena: Seq<Trans>,
    gr: earley_shape::Ground,
    start: SymbolId,
    s: earley_paths::Loading,
    root: usize,
) -> bool {
    let f = s.forest;
    let k = known_of(s);
    &&& earley_shape::in_shape(g, arena, gr, f)
    &&& earley_chain::are_links(g, gr, start, f, arena)
    &&& earley_good::all_good(f, k)
    &&& earley_chain::visited_in(f, k)
    &&& earley_chain::is_reached(f, k, root)
    &&& earley_chain::is_rooted(gr, f, k, root)
    &&& gr.start == start
}

/// Whether a forest on its way to being filled in is in shape.
pub open spec fn load_state(
    g: earley_chart::Context,
    arena: Seq<Trans>,
    gr: earley_shape::Ground,
    start: SymbolId,
    s: earley_paths::Loading,
    root: usize,
) -> bool {
    let f = s.forest;
    let k = known_of(s);
    &&& earley_shape::in_shape(g, arena, gr, f)
    &&& earley_chain::are_links(g, gr, start, f, arena)
    &&& earley_good::all_good(f, k)
    &&& earley_chain::visited_in(f, k)
    &&& forall|v: usize| #[trigger]
        s.stack.contains(v) ==> v < f.nodes.len() && (v == root || earley_chain::reached_by(
            f,
            k,
            v,
        ))
    &&& earley_chain::is_reached(f, k, root)
    &&& forall|v: usize| #[trigger]
        s.visited.contains(v) ==> f.nodes[v as int].paths.len() == 0
    &&& root < f.nodes.len()
    &&& f.nodes[root as int].key == NodeKey::Sym(start)
    &&& f.nodes[root as int].start == 0
    &&& f.nodes[root as int].end + 1 == gr.cols.len()
    &&& gr.start == start
    &&& s.visited.contains(root) || s.stack.contains(root)
}

/// The nodes that families lead to.
pub proof fn lemma_children(families: Seq<Packed>, n: nat)
    requires
        n <= families.len(),
    ensures
        forall|j: int, c: usize|
            0 <= j < n && #[trigger] earley_chain::refers(families[j], c)
                ==> earley_paths::children_of(families, n).contains(c),
        forall|c: usize| #[trigger]
            earley_paths::children_of(families, n).contains(c) ==> exists|j: int|
                0 <= j < n && earley_chain::refers(#[trigger] families[j], c),
    decreases n,
{
    let out = earley_paths::children_of(families, n);
    if n == 0 {
        assert(out =~= Seq::empty());
    } else {
        lemma_children(families, (n - 1) as nat);
        let head = earley_paths::children_of(families, (n - 1) as nat);
        let p = families[n - 1];
        let a = match p.left {
            ForestRef::Node(c) => head.push(c),
            _ => head,
        };
        assert forall|c: usize| head.contains(c) implies out.contains(c) by {
            let i = choose|i: int| 0 <= i < head.len() && head[i] == c;
            assert(a[i] == c);
            assert(out[i] == c);
        }
        if let ForestRef::Node(c) = p.left {
            assert(a[head.len() as int] == c);
            assert(out[head.len() as int] == c);
        }
        if let ForestRef::Node(c) = p.right {
            assert(out[a.len() as int] == c);
        }
        assert forall|j: int, c: usize|
            0 <= j < n && #[trigger] earley_chain::refers(families[j], c) implies out.contains(
            c,
        ) by {
            if j < n - 1 {
                assert(head.contains(c));
            }
        }
        assert forall|c: usize| #[trigger] out.contains(c) implies exists|j: int|
            0 <= j < n && earley_chain::refers(#[trigger] families[j], c) by {
            let i = choose|i: int| 0 <= i < out.len() && out[i] == c;
            if i < head.len() {
                assert(head[i] == c);
                assert(head.contains(c));
                let j = choose|j: int|
                    0 <= j < n - 1 && earley_chain::refers(#[trigger] families[j], c);
                assert(earley_chain::refers(families[j], c));
            } else {
                assert(earley_chain::refers(families[n - 1], c));
            }
        }
    }
}

// ---------------------------------------------------------------------------
// Taking the cut chains of a node away

/// Taking cut chains away keeps the shape.
proof fn lemma_taken_shape(
    g: earley_chart::Context,
    arena: Seq<Trans>,
    gr: earley_shape::Ground,
    f: earley_forest::ForestModel,
    id: int,
)
    requires
        earley_shape::in_shape(g, arena, gr, f),
        0 <= id < f.nodes.len(),
    ensures
        earley_shape::in_shape(g, arena, gr, earley_forest::paths_taken(f, id)),
        earley_forest::extends(f, earley_forest::paths_taken(f, id)),
        forall|x: int|
            0 <= x < f.nodes.len() ==> (#[trigger] earley_forest::paths_taken(
                f,
                id,
            ).nodes[x]).families == f.nodes[x].families,
{
    let h = earley_forest::paths_taken(f, id);
    assert(earley_forest::extends(f, h));
    assert forall|i: int, k: int|
        0 <= i < h.nodes.len() && 0 <= k < h.nodes[i].families.len() implies
        earley_shape::is_family(g, gr, h, h.nodes[i], #[trigger] h.nodes[i].families[k]) by {
        earley_shape::lemma_family_grown(
            g,
            gr,
            f,
            h,
            f.nodes[i],
            h.nodes[i],
            f.nodes[i].families[k],
        );
    }
    assert forall|i: int, k: int|
        0 <= i < h.nodes.len() && 0 <= k < h.nodes[i].paths.len() implies earley_shape::is_path(
        g,
        gr,
        arena,
        h,
        h.nodes[i],
        #[trigger] h.nodes[i].paths[k],
    ) by {
        earley_shape::lemma_path_grown(
            g,
            gr,
            arena,
            f,
            h,
            f.nodes[i],
            h.nodes[i],
            f.nodes[i].paths[k],
        );
    }
    assert forall|i: int, j: int|
        0 <= i < j < h.nodes.len() implies !earley_forest::labelled(
        #[trigger] h.nodes[j],
        (#[trigger] h.nodes[i]).key,
        h.nodes[i].start,
        h.nodes[i].end,
    ) by {
        assert(!earley_forest::labelled(
            f.nodes[j],
            f.nodes[i].key,
            f.nodes[i].start,
            f.nodes[i].end,
        ));
    }
    assert forall|i: int| 0 <= i < h.nodes.len() implies ((#[trigger] h.nodes[i]).eps matches Some(
        (k, _),
    ) ==> k < h.nodes[i].families.len() && h.nodes[i].families[k as int].left is Nothing
        && h.nodes[i].families[k as int].right is Nothing) by {
        assert(h.nodes[i].families == f.nodes[i].families && h.nodes[i].eps == f.nodes[i].eps);
    }
    assert forall|i: int| 0 <= i < h.nodes.len() implies earley_shape::label_ok(
        g,
        gr,
        (#[trigger] h.nodes[i]).key,
        h.nodes[i].start,
        h.nodes[i].end,
    ) by {
        let o = f.nodes[i];
        assert(earley_shape::label_ok(g, gr, o.key, o.start, o.end));
    }
}

/// What does not rest on a node can be built without its cut chains: of the
/// nodes below column `e`, where the node ends at `e` and spans something.
proof fn lemma_lower_taken(
    g: earley_chart::Context,
    arena: Seq<Trans>,
    gr: earley_shape::Ground,
    f: earley_forest::ForestModel,
    k: earley_good::Known,
    id: int,
    x: int,
    d: nat,
)
    requires
        earley_shape::in_shape(g, arena, gr, f),
        0 <= id < f.nodes.len(),
        f.nodes[id].start < f.nodes[id].end,
        k.given == Set::<int>::empty(),
        0 <= x < f.nodes.len(),
        earley_chain::is_lower(f.nodes[x], f.nodes[id].end),
        earley_good::good(f, k, x, d),
    ensures
        earley_good::good(earley_forest::paths_taken(f, id), k, x, d),
    decreases d,
{
    let h = earley_forest::paths_taken(f, id);
    let e = f.nodes[id].end;
    let fs = f.nodes[x].families;
    let ps = f.nodes[x].paths;
    let q = (d - 1) as nat;
    assert(x != id);
    assert(h.nodes[x] == f.nodes[x]);
    if exists|j: int|
        0 <= j < fs.len() && earley_good::led(f, k, x, (#[trigger] fs[j]).left, q)
            && earley_good::led(f, k, x, fs[j].right, q) {
        let j = choose|j: int|
            0 <= j < fs.len() && earley_good::led(f, k, x, (#[trigger] fs[j]).left, q)
                && earley_good::led(f, k, x, fs[j].right, q);
        let p = f.nodes[x].families[j];
        assert(earley_shape::is_family(g, gr, f, f.nodes[x], p));
        if let ForestRef::Node(c) = p.left {
            assert(earley_chain::is_lower(f.nodes[c as int], e));
            lemma_lower_taken(g, arena, gr, f, k, id, c as int, q);
        }
        if let ForestRef::Node(c) = p.right {
            assert(earley_chain::is_lower(f.nodes[c as int], e));
            lemma_lower_taken(g, arena, gr, f, k, id, c as int, q);
        }
        assert(earley_good::led(h, k, x, h.nodes[x].families[j].left, q));
        assert(earley_good::led(h, k, x, h.nodes[x].families[j].right, q));
    } else {
        let j = choose|j: int|
            0 <= j < ps.len() && earley_good::part_good(f, k, (#[trigger] ps[j]).1, q);
        let p = f.nodes[x].paths[j];
        assert(earley_shape::is_path(g, gr, arena, f, f.nodes[x], p));
        let c = p.1->Node_0 as int;
        assert(earley_chain::is_lower(f.nodes[c], e));
        lemma_lower_taken(g, arena, gr, f, k, id, c, q);
        assert(earley_good::part_good(h, k, h.nodes[x].paths[j].1, q));
    }
}

/// What can be built in fewer steps than a node can be built without its cut
/// chains.
proof fn lemma_sooner_taken(
    f: earley_forest::ForestModel,
    k: earley_good::Known,
    id: int,
    x: int,
    d: nat,
    e: nat,
)
    requires
        0 <= id < f.nodes.len(),
        k.given == Set::<int>::empty(),
        earley_good::good(f, k, x, d),
        d <= e,
        !earley_good::good(f, k, id, e),
    ensures
        earley_good::good(earley_forest::paths_taken(f, id), k, x, d),
    decreases d,
{
    let h = earley_forest::paths_taken(f, id);
    if x == id {
        earley_good::lemma_good_more(f, k, x, d, e);
    }
    let fs = f.nodes[x].families;
    let ps = f.nodes[x].paths;
    let q = (d - 1) as nat;
    assert(h.nodes[x] == f.nodes[x]);
    if exists|j: int|
        0 <= j < fs.len() && earley_good::led(f, k, x, (#[trigger] fs[j]).left, q)
            && earley_good::led(f, k, x, fs[j].right, q) {
        let j = choose|j: int|
            0 <= j < fs.len() && earley_good::led(f, k, x, (#[trigger] fs[j]).left, q)
                && earley_good::led(f, k, x, fs[j].right, q);
        if let ForestRef::Node(c) = fs[j].left {
            lemma_sooner_taken(f, k, id, c as int, q, e);
        }
        if let ForestRef::Node(c) = fs[j].right {
            lemma_sooner_taken(f, k, id, c as int, q, e);
        }
        assert(earley_good::led(h, k, x, h.nodes[x].families[j].left, q));
        assert(earley_good::led(h, k, x, h.nodes[x].families[j].right, q));
    } else {
        let j = choose|j: int|
            0 <= j < ps.len() && earley_good::part_good(f, k, (#[trigger] ps[j]).1, q);
        if let ForestRef::Node(c) = ps[j].1 {
            lemma_sooner_taken(f, k, id, c as int, q, e);
        }
        assert(earley_good::part_good(h, k, h.nodes[x].paths[j].1, q));
    }
}

/// What can be built can be built of a node without its cut chains.
proof fn lemma_good_taken(
    f: earley_forest::ForestModel,
    k: earley_good::Known,
    id: int,
    x: int,
    d: nat,
)
    requires
        0 <= id < f.nodes.len(),
        k.given == Set::<int>::empty(),
        earley_good::good(f, k, x, d),
    ensures
        earley_good::good(
            earley_forest::paths_taken(f, id),
            earley_chain::from_one(k, id),
            x,
            d,
        ),
    decreases d,
{
    let h = earley_forest::paths_taken(f, id);
    let l = earley_chain::from_one(k, id);
    if x != id {
        let fs = f.nodes[x].families;
        let ps = f.nodes[x].paths;
        let q = (d - 1) as nat;
        assert(h.nodes[x] == f.nodes[x]);
        if exists|j: int|
            0 <= j < fs.len() && earley_good::led(f, k, x, (#[trigger] fs[j]).left, q)
                && earley_good::led(f, k, x, fs[j].right, q) {
            let j = choose|j: int|
                0 <= j < fs.len() && earley_good::led(f, k, x, (#[trigger] fs[j]).left, q)
                    && earley_good::led(f, k, x, fs[j].right, q);
            if let ForestRef::Node(c) = fs[j].left {
                lemma_good_taken(f, k, id, c as int, q);
            }
            if let ForestRef::Node(c) = fs[j].right {
                lemma_good_taken(f, k, id, c as int, q);
            }
            assert(earley_good::led(h, l, x, h.nodes[x].families[j].left, q));
            assert(earley_good::led(h, l, x, h.nodes[x].families[j].right, q));
        } else {
            let j = choose|j: int|
                0 <= j < ps.len() && earley_good::part_good(f, k, (#[trigger] ps[j]).1, q);
            if let ForestRef::Node(c) = ps[j].1 {
                lemma_good_taken(f, k, id, c as int, q);
            }
            assert(earley_good::part_good(h, l, h.nodes[x].paths[j].1, q));
        }
    }
}

/// The fewest steps in which a node can be built.
proof fn lemma_fewest(
    f: earley_forest::ForestModel,
    k: earley_good::Known,
    x: int,
    d: nat,
) -> (e: nat)
    requires
        k.given == Set::<int>::empty(),
        earley_good::good(f, k, x, d),
    ensures
        e > 0,
        earley_good::good(f, k, x, e),
        !earley_good::good(f, k, x, (e - 1) as nat),
    decreases d,
{
    if d > 0 && earley_good::good(f, k, x, (d - 1) as nat) {
        lemma_fewest(f, k, x, (d - 1) as nat)
    } else {
        d
    }
}

// ---------------------------------------------------------------------------
// A visit

/// What is needed to fill in the cut chains of a node.
proof fn lemma_taken_state(
    g: earley_chart::Context,
    arena: Seq<Trans>,
    gr: earley_shape::Ground,
    start: SymbolId,
    s: earley_paths::Loading,
    root: usize,
    id: int,
)
    requires
        can_fill(g, arena, gr, start, s, root),
        0 <= id < s.forest.nodes.len(),
        s.forest.nodes[id].paths.len() > 0,
    ensures
        earley_chain::fill_state(
            g,
            arena,
            gr,
            start,
            earley_forest::paths_taken(s.forest, id),
            known_of(s),
            root,
            s.forest.nodes[id].end,
        ),
        forall|i: int|
            0 <= i < s.forest.nodes[id].paths.len() ==> earley_shape::is_path(
                g,
                gr,
                arena,
                earley_forest::paths_taken(s.forest, id),
                earley_forest::paths_taken(s.forest, id).nodes[id],
                #[trigger] s.forest.nodes[id].paths[i],
            ),
{
    let f = s.forest;
    let k = known_of(s);
    let h = earley_forest::paths_taken(f, id);
    let e = f.nodes[id].end;
    lemma_taken_shape(g, arena, gr, f, id);
    earley_chain::lemma_links_grown(g, gr, start, f, h, arena);
    assert(earley_shape::is_path(g, gr, arena, f, f.nodes[id], f.nodes[id].paths[0]));
    assert(earley_chain::alone(k) == k);
    assert forall|x: int|
        0 <= x < h.nodes.len() && earley_chain::is_lower(
            #[trigger] h.nodes[x],
            e,
        ) implies earley_good::is_good(h, earley_chain::alone(k), x) by {
        assert(earley_good::is_good(f, k, x));
        let d = choose|d: nat| #[trigger] earley_good::good(f, k, x, d);
        assert(earley_chain::is_lower(f.nodes[x], e));
        lemma_lower_taken(g, arena, gr, f, k, id, x, d);
    }
    assert forall|v: usize| #[trigger] k.visited.contains(v) implies v == root
        || earley_chain::reached_by(h, k, v) by {
        if v != root {
            assert(earley_chain::reached_by(f, k, v));
            let (u, j) = earley_chain::lemma_reached(f, k, v);
            assert(h.nodes[u as int].families == f.nodes[u as int].families);
            earley_chain::lemma_reach(h, k, u, j, v);
        }
    }
    assert forall|i: int| 0 <= i < f.nodes[id].paths.len() implies earley_shape::is_path(
        g,
        gr,
        arena,
        h,
        h.nodes[id],
        #[trigger] f.nodes[id].paths[i],
    ) by {
        earley_shape::lemma_path_grown(
            g,
            gr,
            arena,
            f,
            h,
            f.nodes[id],
            h.nodes[id],
            f.nodes[id].paths[i],
        );
    }
}

/// Filling in the cut chains of a node keeps every node buildable.
#[verifier::rlimit(30)]
pub proof fn lemma_materialized(
    g: earley_chart::Context,
    arena: Seq<Trans>,
    gr: earley_shape::Ground,
    start: SymbolId,
    s: earley_paths::Loading,
    root: usize,
    id: int,
)
    requires
        earley_chart::context_ok(g),
        earley_fill::flags_true(g),
        arena.len() <= usize::MAX,
        can_fill(g, arena, gr, start, s, root),
        0 <= id < s.forest.nodes.len(),
        !s.visited.contains(id as usize),
        s.forest.nodes[id].paths.len() > 0,
        earley_shape::within_limits(earley_paths::materialized(g, s.forest, arena, id)),
    ensures
        ({
            let w = earley_paths::materialized(g, s.forest, arena, id);
            let h = earley_forest::paths_taken(s.forest, id);
            &&& earley_shape::in_shape(g, arena, gr, w)
            &&& earley_chain::are_links(g, gr, start, w, arena)
            &&& earley_good::all_good(w, known_of(s))
            &&& earley_shape::grown(h, w)
            &&& earley_shape::only_families(h, w)
            &&& earley_chain::is_reached(w, known_of(s), root)
            &&& earley_whole::visited_same(h, w, known_of(s))
            &&& earley_whole::is_whole(g, arena, s.forest) ==> earley_whole::is_whole(
                g,
                arena,
                w,
            ) && earley_whole::paths_in(
                g,
                arena,
                w,
                s.forest.nodes[id].paths,
                s.forest.nodes[id].paths.len() as int,
            )
        }),
{
    let f = s.forest;
    let k = known_of(s);
    let h = earley_forest::paths_taken(f, id);
    let w = earley_paths::materialized(g, f, arena, id);
    let paths = f.nodes[id].paths;
    earley_chain::lemma_paths_sizes(g, h, arena, paths, paths.len());
    earley_shape::lemma_sizes_limits(h, w);
    lemma_taken_state(g, arena, gr, start, s, root, id);
    earley_chain::lemma_paths_made(
        g,
        arena,
        gr,
        start,
        h,
        k,
        root,
        id,
        paths,
        paths.len(),
    );
    lemma_taken_shape(g, arena, gr, f, id);
    if earley_whole::is_whole(g, arena, f) {
        earley_whole::lemma_whole_taken(g, arena, f, id);
    }
    // The node itself.
    assert(earley_good::is_good(w, k, id)) by {
        assert(earley_good::is_good(f, k, id));
        let d = choose|d: nat| #[trigger] earley_good::good(f, k, id, d);
        let e = lemma_fewest(f, k, id, d);
        let q = (e - 1) as nat;
        let fs = f.nodes[id].families;
        if exists|j: int|
            0 <= j < fs.len() && earley_good::led(f, k, id, (#[trigger] fs[j]).left, q)
                && earley_good::led(f, k, id, fs[j].right, q) {
            let j = choose|j: int|
                0 <= j < fs.len() && earley_good::led(f, k, id, (#[trigger] fs[j]).left, q)
                    && earley_good::led(f, k, id, fs[j].right, q);
            if let ForestRef::Node(c) = fs[j].left {
                lemma_sooner_taken(f, k, id, c as int, q, q);
                earley_good::lemma_good_grown(h, w, k, c as int, q);
            }
            if let ForestRef::Node(c) = fs[j].right {
                lemma_sooner_taken(f, k, id, c as int, q, q);
                earley_good::lemma_good_grown(h, w, k, c as int, q);
            }
            assert(h.nodes[id].families == fs);
            assert(earley_forest::has_pair(
                w.nodes[id].families,
                h.nodes[id].families[j].left,
                h.nodes[id].families[j].right,
            ));
            earley_good::lemma_by_family(w, k, id, fs[j].left, fs[j].right);
        } else {
            let j = choose|j: int|
                0 <= j < paths.len() && earley_good::part_good(f, k, (#[trigger] paths[j]).1, q);
            assert(earley_shape::is_path(g, gr, arena, h, h.nodes[id], paths[j]));
            let b = paths[j].1->Node_0 as int;
            lemma_sooner_taken(f, k, id, b, q, q);
            earley_good::lemma_good_grown(h, w, k, b, q);
            assert(earley_good::is_good(
                w,
                earley_chain::from_one(k, paths[j].1->Node_0 as int),
                id,
            ));
            earley_good::lemma_is_good_cut(w, earley_chain::from_one(k, b), k, id);
        }
    }
    // The nodes that were there.
    assert forall|x: int| 0 <= x < f.nodes.len() implies #[trigger] earley_good::is_good(
        w,
        k,
        x,
    ) by {
        assert(earley_good::is_good(f, k, x));
        let d = choose|d: nat| #[trigger] earley_good::good(f, k, x, d);
        lemma_good_taken(f, k, id, x, d);
        earley_good::lemma_good_grown(h, w, earley_chain::from_one(k, id), x, d);
        earley_good::lemma_is_good_cut(w, earley_chain::from_one(k, id), k, x);
    }
    // The new nodes.
    let all = earley_good::with_given(k, earley_chain::bottoms(paths));
    assert forall|y: int| #[trigger] all.given.contains(y) implies earley_good::is_good(
        w,
        k,
        y,
    ) by {
        let i = choose|i: int|
            0 <= i < paths.len() && (#[trigger] paths[i]).1 is Node && paths[i].1->Node_0 == y;
        assert(earley_shape::is_path(g, gr, arena, h, h.nodes[id], paths[i]));
        assert(y < f.nodes.len());
    }
    assert forall|x: int| 0 <= x < w.nodes.len() implies #[trigger] earley_good::is_good(
        w,
        k,
        x,
    ) by {
        if x >= f.nodes.len() {
            assert(earley_good::is_good(w, all, x));
            earley_good::lemma_is_good_cut(w, all, k, x);
        }
    }
}

/// A node stays buildable where more families are followed.
proof fn lemma_good_followed(
    f: earley_forest::ForestModel,
    k: earley_good::Known,
    l: earley_good::Known,
    x: int,
    d: nat,
)
    requires
        earley_good::good(f, k, x, d),
        l.given == k.given,
        forall|y: int, j: int, c: usize|
            0 <= y < f.nodes.len() && 0 <= j < f.nodes[y].families.len()
                && #[trigger] earley_chain::refers(f.nodes[y].families[j], c)
                && earley_good::follows(k, y, c) ==> earley_good::follows(l, y, c),
    ensures
        earley_good::good(f, l, x, d),
    decreases d,
{
    if !k.given.contains(x) {
        let fs = f.nodes[x].families;
        let ps = f.nodes[x].paths;
        let q = (d - 1) as nat;
        if exists|j: int|
            0 <= j < fs.len() && earley_good::led(f, k, x, (#[trigger] fs[j]).left, q)
                && earley_good::led(f, k, x, fs[j].right, q) {
            let j = choose|j: int|
                0 <= j < fs.len() && earley_good::led(f, k, x, (#[trigger] fs[j]).left, q)
                    && earley_good::led(f, k, x, fs[j].right, q);
            if let ForestRef::Node(c) = fs[j].left {
                assert(earley_chain::refers(f.nodes[x].families[j], c));
                lemma_good_followed(f, k, l, c as int, q);
            }
            if let ForestRef::Node(c) = fs[j].right {
                assert(earley_chain::refers(f.nodes[x].families[j], c));
                lemma_good_followed(f, k, l, c as int, q);
            }
            assert(earley_good::led(f, l, x, f.nodes[x].families[j].left, q));
            assert(earley_good::led(f, l, x, f.nodes[x].families[j].right, q));
        } else {
            let j = choose|j: int|
                0 <= j < ps.len() && earley_good::part_good(f, k, (#[trigger] ps[j]).1, q);
            if let ForestRef::Node(c) = ps[j].1 {
                lemma_good_followed(f, k, l, c as int, q);
            }
            assert(earley_good::part_good(f, l, f.nodes[x].paths[j].1, q));
        }
    }
}

proof fn lemma_all_followed(
    f: earley_forest::ForestModel,
    k: earley_good::Known,
    l: earley_good::Known,
)
    requires
        earley_good::all_good(f, k),
        l.given == k.given,
        forall|y: int, j: int, c: usize|
            0 <= y < f.nodes.len() && 0 <= j < f.nodes[y].families.len()
                && #[trigger] earley_chain::refers(f.nodes[y].families[j], c)
                && earley_good::follows(k, y, c) ==> earley_good::follows(l, y, c),
    ensures
        earley_good::all_good(f, l),
{
    assert forall|x: int| 0 <= x < f.nodes.len() implies #[trigger] earley_good::is_good(
        f,
        l,
        x,
    ) by {
        assert(earley_good::is_good(f, k, x));
        let d = choose|d: nat| #[trigger] earley_good::good(f, k, x, d);
        lemma_good_followed(f, k, l, x, d);
    }
}

/// Whether a visited node has the node `v` among the parts of a family, where
/// more is visited.
proof fn lemma_reached_more(
    f: earley_forest::ForestModel,
    k: earley_good::Known,
    l: earley_good::Known,
    v: usize,
)
    requires
        earley_chain::reached_by(f, k, v),
        forall|u: usize| #[trigger] k.visited.contains(u) ==> l.visited.contains(u),
    ensures
        earley_chain::reached_by(f, l, v),
{
    let (u, j) = earley_chain::lemma_reached(f, k, v);
    assert(l.visited.contains(u));
    earley_chain::lemma_reach(f, l, u, j, v);
}

/// A visit of a node that was visited.
proof fn lemma_again(
    g: earley_chart::Context,
    arena: Seq<Trans>,
    gr: earley_shape::Ground,
    start: SymbolId,
    s: earley_paths::Loading,
    root: usize,
)
    requires
        load_state(g, arena, gr, start, s, root),
        s.stack.len() > 0,
        s.visited.contains(s.stack.last()),
    ensures
        load_state(g, arena, gr, start, earley_paths::load_step(g, arena, s), root),
{
    let t = earley_paths::load_step(g, arena, s);
    let k = known_of(s);
    let l = known_of(t);
    let f = s.forest;
    assert forall|c: usize| #[trigger] s.stack.contains(c) implies t.stack.contains(c)
        || s.visited.contains(c) by {
        let i = choose|i: int| 0 <= i < s.stack.len() && s.stack[i] == c;
        if i < t.stack.len() {
            assert(t.stack[i] == c);
        }
    }
    lemma_all_followed(f, k, l);
    assert forall|v: usize| #[trigger] l.visited.contains(v) implies v < f.nodes.len() by {
        assert(k.visited.contains(v));
    }
    assert forall|v: usize| #[trigger] t.stack.contains(v) implies v < f.nodes.len() && (v == root
        || earley_chain::reached_by(f, l, v)) by {
        let i = choose|i: int| 0 <= i < t.stack.len() && t.stack[i] == v;
        assert(s.stack[i] == v);
        assert(s.stack.contains(v));
        if v != root {
            lemma_reached_more(f, k, l, v);
        }
    }
    assert forall|v: usize| #[trigger] l.visited.contains(v) implies v == root
        || earley_chain::reached_by(f, l, v) by {
        assert(k.visited.contains(v));
        if v != root {
            lemma_reached_more(f, k, l, v);
        }
    }
}

/// A visit of a node for the first time.
#[verifier::rlimit(40)]
proof fn lemma_first(
    g: earley_chart::Context,
    arena: Seq<Trans>,
    gr: earley_shape::Ground,
    start: SymbolId,
    s: earley_paths::Loading,
    root: usize,
)
    requires
        earley_chart::context_ok(g),
        earley_fill::flags_true(g),
        arena.len() <= usize::MAX,
        load_state(g, arena, gr, start, s, root),
        s.stack.len() > 0,
        !s.visited.contains(s.stack.last()),
        earley_shape::within_limits(earley_paths::load_step(g, arena, s).forest),
    ensures
        load_state(g, arena, gr, start, earley_paths::load_step(g, arena, s), root),
{
    let t = earley_paths::load_step(g, arena, s);
    let id = s.stack.last();
    let k = known_of(s);
    let l = known_of(t);
    let f = s.forest;
    let w = t.forest;
    let h = earley_forest::paths_taken(f, id as int);
    assert(s.stack.contains(id)) by {
        assert(s.stack[s.stack.len() - 1] == id);
    }
    lemma_taken_shape(g, arena, gr, f, id as int);
    if f.nodes[id as int].paths.len() > 0 {
        lemma_materialized(g, arena, gr, start, s, root, id as int);
    } else {
        assert(f.nodes[id as int].paths =~= Seq::empty());
        assert(h.nodes =~= f.nodes);
        assert(w == f);
        earley_shape::lemma_grown_self(f);
        assert(earley_shape::only_families(h, w));
    }
    let families = w.nodes[id as int].families;
    let children = earley_paths::children_of(families, families.len());
    lemma_children(families, families.len());
    assert forall|c: usize| s.visited.contains(c) implies t.visited.contains(c) by {
        let i = choose|i: int| 0 <= i < s.visited.len() && s.visited[i] == c;
        assert(t.visited[i] == c);
    }
    assert(t.visited.contains(id)) by {
        assert(t.visited[s.visited.len() as int] == id);
    }
    assert forall|c: usize| #[trigger] t.visited.contains(c) implies s.visited.contains(c) || c
        == id by {
        let i = choose|i: int| 0 <= i < t.visited.len() && t.visited[i] == c;
        if i < s.visited.len() {
            assert(s.visited[i] == c);
        }
    }
    assert forall|c: usize| s.stack.contains(c) implies t.stack.contains(c) || c == id by {
        let i = choose|i: int| 0 <= i < s.stack.len() && s.stack[i] == c;
        if i < s.stack.len() - 1 {
            assert(t.stack[i] == c);
        }
    }
    assert forall|c: usize| children.contains(c) implies t.stack.contains(c) by {
        let i = choose|i: int| 0 <= i < children.len() && children[i] == c;
        assert(t.stack[s.stack.len() - 1 + i] == c);
    }
    assert forall|y: int, j: int, c: usize|
        0 <= y < w.nodes.len() && 0 <= j < w.nodes[y].families.len()
            && #[trigger] earley_chain::refers(w.nodes[y].families[j], c)
            && earley_good::follows(k, y, c) implies earley_good::follows(l, y, c) by {
        if y == id {
            assert(earley_chain::refers(families[j], c));
            assert(children.contains(c));
        }
    }
    lemma_all_followed(w, k, l);
    assert forall|v: usize| #[trigger] k.visited.contains(v) implies v < w.nodes.len() by {
        assert(v < f.nodes.len());
    }
    // What is reached.
    assert forall|v: usize| v != root && earley_chain::reached_by(f, k, v) implies
        #[trigger] earley_chain::reached_by(w, l, v) by {
        let (u, j) = earley_chain::lemma_reached(f, k, v);
        assert(u < f.nodes.len());
        assert(h.nodes[u as int].families == f.nodes[u as int].families);
        earley_chain::lemma_reach(h, k, u, j, v);
        earley_chain::lemma_reached_grown(h, w, k, v);
        lemma_reached_more(w, k, l, v);
    }
    assert forall|v: usize| #[trigger] t.stack.contains(v) implies v < w.nodes.len() && (v == root
        || earley_chain::reached_by(w, l, v)) by {
        let i = choose|i: int| 0 <= i < t.stack.len() && t.stack[i] == v;
        if i < s.stack.len() - 1 {
            assert(s.stack[i] == v);
            assert(s.stack.contains(v));
            if v != root {
                assert(earley_chain::reached_by(f, k, v));
            }
        } else {
            assert(children[i - (s.stack.len() - 1)] == v);
            assert(children.contains(v));
            let j = choose|j: int|
                0 <= j < families.len() && earley_chain::refers(#[trigger] families[j], v);
            assert(earley_chain::refers(w.nodes[id as int].families[j], v));
            assert(earley_shape::is_family(
                g,
                gr,
                w,
                w.nodes[id as int],
                w.nodes[id as int].families[j],
            ));
            earley_chain::lemma_reach(w, l, id, j, v);
        }
    }
    assert forall|v: usize| #[trigger] l.visited.contains(v) implies v == root
        || earley_chain::reached_by(w, l, v) by {
        if v != root {
            if v != id {
                assert(k.visited.contains(v));
            } else {
                assert(s.stack.contains(id));
            }
            assert(earley_chain::reached_by(f, k, v));
        }
    }
    assert forall|v: usize| #[trigger] t.visited.contains(v) implies w.nodes[v as int].paths.len()
        == 0 by {
        if v != id {
            assert(s.visited.contains(v));
            assert(k.visited.contains(v));
            assert(f.nodes[v as int].paths.len() == 0);
        } else {
            assert(s.stack.contains(id));
        }
        assert(v < f.nodes.len());
        assert(h.nodes[v as int].paths.len() == 0);
        assert(w.nodes[v as int].paths == h.nodes[v as int].paths);
    }
    assert forall|v: usize| #[trigger] l.visited.contains(v) implies v < w.nodes.len() by {
        if v != id {
            assert(k.visited.contains(v));
        } else {
            assert(s.stack.contains(id));
        }
    }
    let r = h.nodes[root as int];
    assert(earley_forest::labelled(w.nodes[root as int], r.key, r.start, r.end));
}

// ---------------------------------------------------------------------------
// All visits

proof fn lemma_load_sizes(
    g: earley_chart::Context,
    arena: Seq<Trans>,
    s: earley_paths::Loading,
)
    requires
        earley_paths::can_visit(s),
    ensures
        earley_shape::sizes_le(s.forest, earley_paths::load_step(g, arena, s).forest),
{
    let id = s.stack.last() as int;
    let h = earley_forest::paths_taken(s.forest, id);
    let paths = s.forest.nodes[id].paths;
    earley_chain::lemma_paths_sizes(g, h, arena, paths, paths.len());
    let w = earley_paths::materialized(g, s.forest, arena, id);
    assert forall|i: int| 0 <= i < s.forest.nodes.len() implies (
    #[trigger] s.forest.nodes[i]).families.len() <= w.nodes[i].families.len() by {
        assert(h.nodes[i].families.len() <= w.nodes[i].families.len());
    }
}

/// Visits take nothing away.
pub proof fn lemma_run_sizes(
    g: earley_chart::Context,
    arena: Seq<Trans>,
    s: earley_paths::Loading,
    j: nat,
    k: nat,
)
    requires
        j <= k,
        forall|i: nat|
            i < k ==> earley_paths::can_visit(#[trigger] earley_paths::load_run(g, arena, s, i)),
    ensures
        earley_shape::sizes_le(
            earley_paths::load_run(g, arena, s, j).forest,
            earley_paths::load_run(g, arena, s, k).forest,
        ),
    decreases k,
{
    if j < k {
        lemma_run_sizes(g, arena, s, j, (k - 1) as nat);
        let a = earley_paths::load_run(g, arena, s, j).forest;
        let b = earley_paths::load_run(g, arena, s, (k - 1) as nat);
        assert(earley_paths::can_visit(b));
        let c = earley_paths::load_run(g, arena, s, k).forest;
        lemma_load_sizes(g, arena, b);
        assert forall|i: int| 0 <= i < a.nodes.len() implies (#[trigger] a.nodes[i]).families.len()
            <= c.nodes[i].families.len() by {
            assert(b.forest.nodes[i].families.len() <= c.nodes[i].families.len());
        }
    }
}

/// Visits keep a forest in shape.
pub proof fn lemma_load_run(
    g: earley_chart::Context,
    arena: Seq<Trans>,
    gr: earley_shape::Ground,
    start: SymbolId,
    s: earley_paths::Loading,
    root: usize,
    k: nat,
)
    requires
        earley_chart::context_ok(g),
        earley_fill::flags_true(g),
        arena.len() <= usize::MAX,
        load_state(g, arena, gr, start, s, root),
        forall|j: nat|
            j < k ==> earley_paths::can_visit(#[trigger] earley_paths::load_run(g, arena, s, j)),
        earley_shape::within_limits(earley_paths::load_run(g, arena, s, k).forest),
    ensures
        load_state(g, arena, gr, start, earley_paths::load_run(g, arena, s, k), root),
    decreases k,
{
    if k > 0 {
        let j = (k - 1) as nat;
        let u = earley_paths::load_run(g, arena, s, j);
        lemma_run_sizes(g, arena, s, j, k);
        earley_shape::lemma_sizes_limits(
            u.forest,
            earley_paths::load_run(g, arena, s, k).forest,
        );
        lemma_load_run(g, arena, gr, start, s, root, j);
        assert(earley_paths::can_visit(u));
        if u.visited.contains(u.stack.last()) {
            lemma_again(g, arena, gr, start, u, root);
        } else {
            lemma_first(g, arena, gr, start, u, root);
        }
    }
}

/// What was visited on the way is within the limits of what came of it.
pub proof fn lemma_run_limits(
    g: earley_chart::Context,
    arena: Seq<Trans>,
    s: earley_paths::Loading,
    k: nat,
)
    requires
        forall|j: nat|
            j < k ==> earley_paths::can_visit(#[trigger] earley_paths::load_run(g, arena, s, j)),
        earley_shape::within_limits(earley_paths::load_run(g, arena, s, k).forest),
    ensures
        earley_shape::within_limits(s.forest),
        earley_paths::load_run(g, arena, s, k).forest.tokens == s.forest.tokens,
{
    lemma_run_sizes(g, arena, s, 0, k);
    earley_shape::lemma_sizes_limits(s.forest, earley_paths::load_run(g, arena, s, k).forest);
}

/// A forest in shape, before any visit.
pub proof fn lemma_load_begun(
    g: earley_chart::Context,
    arena: Seq<Trans>,
    gr: earley_shape::Ground,
    start: SymbolId,
    f: earley_forest::ForestModel,
    root: usize,
)
    requires
        earley_shape::in_shape(g, arena, gr, f),
        earley_good::all_good(f, earley_good::nothing_known()),
        earley_chain::are_links(g, gr, start, f, arena),
        root < f.nodes.len(),
        f.nodes[root as int].key == NodeKey::Sym(start),
        f.nodes[root as int].start == 0,
        f.nodes[root as int].end + 1 == gr.cols.len(),
        gr.start == start,
    ensures
        load_state(
            g,
            arena,
            gr,
            start,
            earley_paths::Loading { forest: f, stack: seq![root], visited: Seq::empty() },
            root,
        ),
{
    let s = earley_paths::Loading { forest: f, stack: seq![root], visited: Seq::empty() };
    lemma_all_followed(f, earley_good::nothing_known(), known_of(s));
    assert(s.stack[0] == root);
    assert(s.stack.contains(root));
}

} // verus!
