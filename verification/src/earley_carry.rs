//! The forest of a text that is parsed without a lexer: it stays in shape where
//! items are carried past what is ignored, and every node of it can be built.

use vstd::prelude::*;
use crate::earley_chain;
use crate::earley_chart;
use crate::earley_complete;
use crate::earley_dynamic;
use crate::earley_exact;
use crate::earley_fill;
use crate::earley_forest;
use crate::earley_forest::{ForestRef, Item, NodeKey, Packed, Trans};
use crate::earley_good;
use crate::earley_laws;
use crate::earley_load;
use crate::earley_paths;
use crate::earley_places;
use crate::earley_recognizer;
use crate::earley_shape;
use crate::earley_sound;
use crate::earley_text;
use crate::reading;
use crate::symbols::SymbolId;
use crate::tree;

verus! {

// ---------------------------------------------------------------------------
// What the forest stands on

/// Whether a token lies, behind what is ignored, from `a` to `b`.
pub open spec fn is_behind(l: reading::Reading, a: int, t: tree::TokenModel, b: int) -> bool {
    exists|c: int| #[trigger]
        reading::is_read(l, a, c, Seq::empty()) && (l.lies)(c, b, t) && 0 <= a <= c < b <= l.size
}

/// What the forest of a text stands on.
pub open spec fn ground(
    l: reading::Reading,
    cols: Seq<Seq<Item>>,
    carried: Set<int>,
) -> earley_shape::Ground {
    earley_shape::Ground {
        cols,
        start: l.aim,
        loose: true,
        token: |a: int, t: tree::TokenModel, b: int| is_behind(l, a, t, b),
        gap: |a: int, b: int| reading::is_read(l, a, b, Seq::empty()),
        carried,
    }
}

/// What is ignored may follow what is ignored.
proof fn lemma_gap_on(l: reading::Reading, a: int, b: int, c: int)
    requires
        reading::is_read(l, a, b, Seq::empty()) || a == b,
        reading::gap_at(l, b, c),
    ensures
        reading::is_read(l, a, c, Seq::empty()),
{
    reading::lemma_read_gap(l, b, c);
    if a != b {
        reading::lemma_read_on(l, a, b, c, Seq::empty(), Seq::empty());
        assert(Seq::<SymbolId>::empty() + Seq::<SymbolId>::empty() =~= Seq::<SymbolId>::empty());
    }
}

// ---------------------------------------------------------------------------
// Sizes

/// Whether `h` has no fewer nodes, and no node fewer families, than `f`.
pub open spec fn slots_le(f: earley_forest::ForestModel, h: earley_forest::ForestModel) -> bool {
    f.nodes.len() <= h.nodes.len() && earley_shape::families_kept(f, h)
}

proof fn lemma_slots_trans(
    f: earley_forest::ForestModel,
    h: earley_forest::ForestModel,
    w: earley_forest::ForestModel,
)
    requires
        slots_le(f, h),
        slots_le(h, w),
    ensures
        slots_le(f, w),
{
    assert forall|i: int| 0 <= i < f.nodes.len() implies (#[trigger] f.nodes[i]).families.len()
        <= w.nodes[i].families.len() by {
        assert(h.nodes[i].families.len() <= w.nodes[i].families.len());
    }
}

proof fn lemma_slots_limits(f: earley_forest::ForestModel, h: earley_forest::ForestModel)
    requires
        slots_le(f, h),
        earley_shape::within_limits(h),
    ensures
        earley_shape::within_limits(f),
{
    assert forall|i: int| 0 <= i < f.nodes.len() implies (#[trigger] f.nodes[i]).families.len()
        <= usize::MAX by {
        assert(h.nodes[i].families.len() <= usize::MAX);
    }
}

proof fn lemma_carried_slots(
    g: earley_chart::Context,
    arena: Seq<Trans>,
    f: earley_forest::ForestModel,
    x: Item,
    end: usize,
)
    requires
        x.node matches ForestRef::Node(id) ==> id < f.nodes.len(),
    ensures
        slots_le(f, earley_dynamic::carried(g, arena, f, x, end).0),
        x.node matches ForestRef::Node(id) ==> {
            let w = earley_paths::materialized(g, f, arena, id as int);
            let (h, new) = earley_forest::got(
                w,
                earley_chart::key_at(g, x.rule, x.dot as int),
                x.origin,
                end,
            );
            &&& slots_le(f, w)
            &&& slots_le(w, h)
            &&& slots_le(h, earley_dynamic::carried(g, arena, f, x, end).0)
            &&& 0 <= new < h.nodes.len()
        },
{
    if let ForestRef::Node(id) = x.node {
        let f0 = earley_forest::paths_taken(f, id as int);
        let paths = f.nodes[id as int].paths;
        let w = earley_paths::materialized(g, f, arena, id as int);
        earley_chain::lemma_paths_sizes(g, f0, arena, paths, paths.len());
        assert(slots_le(f, f0));
        lemma_slots_trans(f, f0, w);
        let key = earley_chart::key_at(g, x.rule, x.dot as int);
        let (h, new) = earley_forest::got(w, key, x.origin, end);
        earley_shape::lemma_got_sizes(w, key, x.origin, end);
        lemma_slots_trans(f, w, h);
        let families = h.nodes[id as int].families;
        let z = earley_dynamic::carried(g, arena, f, x, end).0;
        if id != new {
            lemma_copied_slots(g, h, new, families, families.len());
        }
        lemma_slots_trans(f, h, z);
    }
}

proof fn lemma_copied_slots(
    g: earley_chart::Context,
    f: earley_forest::ForestModel,
    id: int,
    families: Seq<Packed>,
    k: nat,
)
    requires
        0 <= id < f.nodes.len(),
    ensures
        slots_le(f, earley_dynamic::families_copied(g, f, id, families, k)),
        earley_dynamic::families_copied(g, f, id, families, k).nodes.len() == f.nodes.len(),
    decreases k,
{
    if k > 0 {
        lemma_copied_slots(g, f, id, families, (k - 1) as nat);
        let h = earley_dynamic::families_copied(g, f, id, families, (k - 1) as nat);
        earley_shape::lemma_family_sizes(
            h,
            id,
            families[k - 1],
            g.rules[families[k - 1].rule as int].order,
        );
        lemma_slots_trans(f, h, earley_dynamic::families_copied(g, f, id, families, k));
    }
}

// ---------------------------------------------------------------------------
// Filling in before an item is carried

/// The cut chains of a node filled in.
proof fn lemma_filled(
    g: earley_chart::Context,
    arena: Seq<Trans>,
    gr: earley_shape::Ground,
    f: earley_forest::ForestModel,
    id: int,
)
    requires
        earley_chart::context_ok(g),
        earley_fill::flags_true(g),
        arena.len() <= usize::MAX,
        earley_places::is_sound(g, arena, gr, f),
        earley_chain::are_links(g, gr, gr.start, f, arena),
        0 <= id < f.nodes.len(),
        earley_shape::within_limits(earley_paths::materialized(g, f, arena, id)),
    ensures
        ({
            let w = earley_paths::materialized(g, f, arena, id);
            &&& earley_places::is_sound(g, arena, gr, w)
            &&& earley_chain::are_links(g, gr, gr.start, w, arena)
            &&& earley_forest::extends(f, w)
            &&& w.nodes[id].paths.len() == 0
        }),
{
    let w = earley_paths::materialized(g, f, arena, id);
    let h = earley_forest::paths_taken(f, id);
    let paths = f.nodes[id].paths;
    earley_chain::lemma_paths_sizes(g, h, arena, paths, paths.len());
    if paths.len() == 0 {
        assert(f.nodes[id].paths =~= Seq::empty());
        assert(h.nodes[id] == f.nodes[id]);
        assert(h.nodes =~= f.nodes);
        assert(w == f);
        earley_shape::lemma_grown_self(f);
    } else {
        let s = earley_paths::Loading { forest: f, stack: Seq::empty(), visited: Seq::empty() };
        assert(earley_load::known_of(s) == earley_good::nothing_known());
        earley_load::lemma_materialized(g, arena, gr, gr.start, s, 0, id);
        assert(earley_forest::extends(f, h));
        earley_forest::lemma_extends_trans(f, h, w);
        assert(w.nodes[id].paths == h.nodes[id].paths);
    }
}

/// A node without cut chains that can be built has a family by which it can be.
proof fn lemma_by_some_family(f: earley_forest::ForestModel, id: int) -> (j: int)
    requires
        0 <= id < f.nodes.len(),
        f.nodes[id].paths.len() == 0,
        earley_good::is_good(f, earley_good::nothing_known(), id),
    ensures
        0 <= j < f.nodes[id].families.len(),
        earley_good::is_part_good(
            f,
            earley_good::nothing_known(),
            f.nodes[id].families[j].left,
        ),
        earley_good::is_part_good(
            f,
            earley_good::nothing_known(),
            f.nodes[id].families[j].right,
        ),
{
    let k = earley_good::nothing_known();
    let d = choose|d: nat| #[trigger] earley_good::good(f, k, id, d);
    let q = (d - 1) as nat;
    let fs = f.nodes[id].families;
    let j = choose|j: int|
        0 <= j < fs.len() && earley_good::led(f, k, id, (#[trigger] fs[j]).left, q)
            && earley_good::led(f, k, id, fs[j].right, q);
    if let ForestRef::Node(c) = fs[j].left {
        assert(earley_good::good(f, k, c as int, q));
    }
    if let ForestRef::Node(c) = fs[j].right {
        assert(earley_good::good(f, k, c as int, q));
    }
    j
}

// ---------------------------------------------------------------------------
// The families of the shorter stretch

/// The same ground, with the start symbol carried on from column `c` too.
pub open spec fn carried_from(gr: earley_shape::Ground, c: int) -> earley_shape::Ground {
    earley_shape::Ground { carried: gr.carried.insert(c), ..gr }
}

/// A family stays one of its node where the start symbol is carried on from more
/// columns.
proof fn lemma_family_carried(
    g: earley_chart::Context,
    gr: earley_shape::Ground,
    f: earley_forest::ForestModel,
    n: earley_forest::NodeModel,
    p: Packed,
    c: int,
)
    requires
        earley_shape::is_family(g, gr, f, n, p),
    ensures
        earley_shape::is_family(g, carried_from(gr, c), f, n, p),
{
    let more = carried_from(gr, c);
    let mid = earley_shape::mid_of(f, n, p) as int;
    if let ForestRef::Tok(t) = p.right {
        if gr.loose {
            let stop = choose|stop: int| #[trigger]
                earley_shape::token_to(g, gr, n, mid, f.tokens[t as int], stop);
            assert(earley_shape::token_to(g, more, n, mid, f.tokens[t as int], stop));
        }
    }
}

/// The shape stays where the start symbol is carried on from a column at which its
/// node has no cut chains.
proof fn lemma_shape_carried(
    g: earley_chart::Context,
    arena: Seq<Trans>,
    gr: earley_shape::Ground,
    f: earley_forest::ForestModel,
    id: int,
)
    requires
        earley_shape::in_shape(g, arena, gr, f),
        0 <= id < f.nodes.len(),
        earley_forest::labelled(f.nodes[id], NodeKey::Sym(gr.start), 0, f.nodes[id].end),
        f.nodes[id].paths.len() == 0,
    ensures
        earley_shape::in_shape(g, arena, carried_from(gr, f.nodes[id].end as int), f),
{
    let c = f.nodes[id].end;
    let more = carried_from(gr, c as int);
    assert forall|i: int, k: int|
        0 <= i < f.nodes.len() && 0 <= k < f.nodes[i].families.len() implies
        earley_shape::is_family(g, more, f, f.nodes[i], #[trigger] f.nodes[i].families[k]) by {
        assert(earley_shape::is_family(g, gr, f, f.nodes[i], f.nodes[i].families[k]));
        lemma_family_carried(g, gr, f, f.nodes[i], f.nodes[i].families[k], c as int);
    }
    assert forall|i: int, k: int|
        0 <= i < f.nodes.len() && 0 <= k < f.nodes[i].paths.len() implies earley_shape::is_path(
        g,
        more,
        arena,
        f,
        f.nodes[i],
        #[trigger] f.nodes[i].paths[k],
    ) by {
        let path = f.nodes[i].paths[k];
        assert(earley_shape::is_path(g, gr, arena, f, f.nodes[i], f.nodes[i].paths[k]));
        let x = arena[path.0 as int];
        if g.rules[x.top.rule as int].origin == gr.start && x.top.origin == 0 && path.2 == c {
            earley_chain::lemma_same_node(f, i, id);
        }
    }
    assert forall|i: int| 0 <= i < f.nodes.len() implies earley_shape::label_ok(
        g,
        more,
        (#[trigger] f.nodes[i]).key,
        f.nodes[i].start,
        f.nodes[i].end,
    ) by {
        assert(earley_shape::label_ok(g, gr, f.nodes[i].key, f.nodes[i].start, f.nodes[i].end));
    }
}

/// A family of a node is one of the node of a longer stretch.
proof fn lemma_family_stretched(
    g: earley_chart::Context,
    l: reading::Reading,
    gr: earley_shape::Ground,
    f: earley_forest::ForestModel,
    n: earley_forest::NodeModel,
    m: earley_forest::NodeModel,
    p: Packed,
)
    requires
        gr == ground(l, gr.cols, gr.carried),
        earley_shape::is_family(g, gr, f, n, p),
        m.key == n.key,
        m.start == n.start,
        n.start <= n.end < m.end,
        reading::gap_at(l, n.end as int, m.end as int),
        earley_shape::stretches(g, gr, n.key, n.start),
        n.key is Sym ==> gr.carried.contains(n.end as int),
    ensures
        earley_shape::is_family(g, gr, f, m, p),
{
    let mid = earley_shape::mid_of(f, n, p);
    assert(earley_shape::mid_of(f, m, p) == mid);
    match p.right {
        ForestRef::Nothing => {
            lemma_reaches_on(g, l, gr, n, m, n.start as int);
        },
        ForestRef::Tok(t) => {
            let tok = f.tokens[t as int];
            let stop = choose|stop: int| #[trigger]
                earley_shape::token_to(g, gr, n, mid as int, tok, stop);
            lemma_reaches_on(g, l, gr, n, m, stop);
            assert(earley_shape::token_to(g, gr, m, mid as int, tok, stop));
        },
        ForestRef::Node(_k) => {
            let stop = earley_shape::stop_of(f, n, p);
            assert(earley_shape::stop_of(f, m, p) == stop);
            lemma_reaches_on(g, l, gr, n, m, stop as int);
        },
    }
}

proof fn lemma_reaches_on(
    g: earley_chart::Context,
    l: reading::Reading,
    gr: earley_shape::Ground,
    n: earley_forest::NodeModel,
    m: earley_forest::NodeModel,
    stop: int,
)
    requires
        gr == ground(l, gr.cols, gr.carried),
        earley_shape::reaches(g, gr, n.key, n.start, stop, n.end),
        m.key == n.key,
        m.start == n.start,
        n.end < m.end,
        reading::gap_at(l, n.end as int, m.end as int),
        earley_shape::stretches(g, gr, n.key, n.start),
        n.key is Sym ==> gr.carried.contains(n.end as int),
    ensures
        earley_shape::reaches(g, gr, m.key, m.start, stop, m.end),
{
    if stop < n.end {
        assert((gr.gap)(stop, n.end as int));
        assert(reading::is_read(l, stop, n.end as int, Seq::empty()));
    }
    lemma_gap_on(l, stop, n.end as int, m.end as int);
    assert((gr.gap)(stop, m.end as int));
}

/// Copying the families of a node to the node of a longer stretch keeps the shape.
proof fn lemma_copied_shape(
    g: earley_chart::Context,
    l: reading::Reading,
    arena: Seq<Trans>,
    gr: earley_shape::Ground,
    f: earley_forest::ForestModel,
    id: int,
    new: int,
    k: nat,
)
    requires
        gr == ground(l, gr.cols, gr.carried),
        earley_shape::in_shape(g, arena, gr, f),
        0 <= id < f.nodes.len(),
        0 <= new < f.nodes.len(),
        k <= f.nodes[id].families.len(),
        f.nodes[new].key == f.nodes[id].key,
        f.nodes[new].start == f.nodes[id].start,
        f.nodes[id].end < f.nodes[new].end,
        reading::gap_at(l, f.nodes[id].end as int, f.nodes[new].end as int),
        earley_shape::stretches(g, gr, f.nodes[id].key, f.nodes[id].start),
        f.nodes[id].key is Sym ==> gr.carried.contains(f.nodes[id].end as int),
        earley_shape::within_limits(
            earley_dynamic::families_copied(g, f, new, f.nodes[id].families, k),
        ),
    ensures
        ({
            let h = earley_dynamic::families_copied(g, f, new, f.nodes[id].families, k);
            &&& earley_shape::in_shape(g, arena, gr, h)
            &&& earley_shape::grown(f, h)
            &&& h.nodes.len() == f.nodes.len()
            &&& forall|j: int|
                0 <= j < k ==> earley_forest::has_pair(
                    h.nodes[new].families,
                    (#[trigger] f.nodes[id].families[j]).left,
                    f.nodes[id].families[j].right,
                )
        }),
    decreases k,
{
    let fs = f.nodes[id].families;
    if k == 0 {
        earley_shape::lemma_grown_self(f);
    } else {
        let h0 = earley_dynamic::families_copied(g, f, new, fs, (k - 1) as nat);
        let h = earley_dynamic::families_copied(g, f, new, fs, k);
        let p = fs[k - 1];
        let order = g.rules[p.rule as int].order;
        lemma_copied_slots(g, f, new, fs, (k - 1) as nat);
        earley_shape::lemma_family_sizes(h0, new, p, order);
        lemma_slots_limits(h0, h);
        lemma_copied_shape(g, l, arena, gr, f, id, new, (k - 1) as nat);
        assert(earley_shape::is_family(g, gr, f, f.nodes[id], f.nodes[id].families[k - 1]));
        lemma_family_stretched(g, l, gr, f, f.nodes[id], f.nodes[new], p);
        assert(earley_forest::labelled(
            h0.nodes[new],
            f.nodes[new].key,
            f.nodes[new].start,
            f.nodes[new].end,
        ));
        earley_shape::lemma_family_grown(g, gr, f, h0, f.nodes[new], h0.nodes[new], p);
        earley_shape::lemma_family_shape(g, arena, gr, h0, new, p, order);
        earley_shape::lemma_grown_trans(f, h0, h);
        assert forall|j: int| 0 <= j < k implies earley_forest::has_pair(
            h.nodes[new].families,
            (#[trigger] f.nodes[id].families[j]).left,
            f.nodes[id].families[j].right,
        ) by {
            if j < k - 1 {
                let ps = h0.nodes[new].families;
                let q = choose|q: int|
                    0 <= q < ps.len() && (#[trigger] ps[q]).left == fs[j].left && ps[q].right
                        == fs[j].right;
                assert(earley_forest::has_pair(
                    h.nodes[new].families,
                    h0.nodes[new].families[q].left,
                    h0.nodes[new].families[q].right,
                ));
            }
        }
    }
}

/// The ground after an item of column `c` is carried on.
pub open spec fn ground_after(
    g: earley_chart::Context,
    gr: earley_shape::Ground,
    c: int,
    x: Item,
) -> earley_shape::Ground {
    if x.dot > 0 && earley_dynamic::is_whole(g, gr.start, x) {
        carried_from(gr, c)
    } else {
        gr
    }
}

/// An item carried past what is ignored.
#[verifier::rlimit(60)]
proof fn lemma_carried_shape(
    g: earley_chart::Context,
    l: reading::Reading,
    arena: Seq<Trans>,
    gr: earley_shape::Ground,
    f: earley_forest::ForestModel,
    c: int,
    x: Item,
    end: usize,
)
    requires
        earley_chart::context_ok(g),
        earley_fill::flags_true(g),
        arena.len() <= usize::MAX,
        gr == ground(l, gr.cols, gr.carried),
        earley_places::is_sound(g, arena, gr, f),
        earley_chain::are_links(g, gr, gr.start, f, arena),
        earley_places::is_placed(g, gr, f, c, x),
        earley_exact::stands(g, gr.start, x),
        reading::gap_at(l, c, end as int),
        earley_shape::within_limits(earley_dynamic::carried(g, arena, f, x, end).0),
    ensures
        ({
            let (h, y) = earley_dynamic::carried(g, arena, f, x, end);
            let after = ground_after(g, gr, c, x);
            &&& earley_places::is_sound(g, arena, after, h)
            &&& earley_forest::extends(f, h)
            &&& earley_places::is_placed(g, after, h, end as int, y)
        }),
{
    let (h, y) = earley_dynamic::carried(g, arena, f, x, end);
    if x.dot == 0 {
        if x.origin < c {
            assert((gr.gap)(x.origin as int, c));
        }
        lemma_gap_on(l, x.origin as int, c, end as int);
        earley_shape::lemma_grown_self(f);
        assert((gr.gap)(x.origin as int, end as int));
    } else {
        let id = x.node->Node_0 as int;
        let key = earley_chart::key_at(g, x.rule, x.dot as int);
        let after = ground_after(g, gr, c, x);
        let k = earley_good::nothing_known();
        lemma_carried_slots(g, arena, f, x, end);
        let w = earley_paths::materialized(g, f, arena, id);
        let (f2, new) = earley_forest::got(w, key, x.origin, end);
        lemma_slots_limits(f2, h);
        lemma_slots_limits(w, f2);
        lemma_filled(g, arena, gr, f, id);
        assert(earley_forest::labelled(w.nodes[id], key, x.origin, c as usize));
        assert(g.rules[x.rule as int].expansion.len() <= usize::MAX) by {
            assert(g.rules[x.rule as int].origin.ix() >= g.nt);
        }
        if earley_dynamic::is_whole(g, gr.start, x) {
            assert(key == NodeKey::Sym(gr.start));
            lemma_shape_carried(g, arena, gr, w, id);
        } else {
            assert(earley_chart::wants_terminal(g, x));
            assert(key == NodeKey::Inter(x.rule, x.dot));
        }
        assert(earley_shape::in_shape(g, arena, after, w));
        assert(earley_shape::stretches(g, after, key, x.origin));
        assert(earley_shape::label_ok(
            g,
            after,
            w.nodes[id].key,
            w.nodes[id].start,
            w.nodes[id].end,
        ));
        assert(earley_shape::label_ok(g, after, key, x.origin, end));
        earley_shape::lemma_got_shape(g, arena, after, w, key, x.origin, end);
        assert(earley_forest::labelled(f2.nodes[id], key, x.origin, c as usize));
        assert(id != new);
        let fs = f2.nodes[id].families;
        assert(f2.nodes[id] == w.nodes[id]);
        lemma_copied_shape(g, l, arena, after, f2, id, new, fs.len());
        earley_shape::lemma_grown_trans(w, f2, h);
        earley_forest::lemma_extends_trans(f, w, h);
        // Every node can be built.
        assert forall|z: int| 0 <= z < w.nodes.len() implies #[trigger] earley_good::is_good(
            h,
            k,
            z,
        ) by {
            assert(earley_good::is_good(w, k, z));
            earley_good::lemma_is_good_grown(w, h, k, z);
        }
        if new == w.nodes.len() {
            assert(earley_good::is_good(w, k, id));
            let j = lemma_by_some_family(w, id);
            let p = w.nodes[id].families[j];
            assert(earley_shape::is_family(g, after, w, w.nodes[id], w.nodes[id].families[j]));
            if let ForestRef::Node(q) = p.left {
                earley_good::lemma_is_good_grown(w, h, k, q as int);
            }
            if let ForestRef::Node(q) = p.right {
                earley_good::lemma_is_good_grown(w, h, k, q as int);
            }
            assert(f2.nodes[id].families[j] == p);
            assert(earley_forest::has_pair(h.nodes[new].families, p.left, p.right));
            earley_good::lemma_by_family(h, k, new, p.left, p.right);
        }
        assert(earley_good::all_good(h, k));
        assert(earley_forest::labelled(h.nodes[new], key, x.origin, end));
        assert(new <= usize::MAX);
    }
}

// ---------------------------------------------------------------------------
// The next column

/// The items that refer to the node of what they have passed.
pub open spec fn placed(
    g: earley_chart::Context,
    gr: earley_shape::Ground,
    f: earley_forest::ForestModel,
) -> spec_fn(int, Item) -> bool {
    |c: int, x: Item| earley_places::is_placed(g, gr, f, c, x)
}

proof fn lemma_placed_stays(
    g: earley_chart::Context,
    l: reading::Reading,
    cols: Seq<Seq<Item>>,
    more: Seq<Seq<Item>>,
    a: Set<int>,
    b: Set<int>,
    f: earley_forest::ForestModel,
    h: earley_forest::ForestModel,
)
    requires
        earley_forest::extends(f, h),
    ensures
        forall|c: int, x: Item| #[trigger]
            earley_places::is_placed(g, ground(l, cols, a), f, c, x) ==> earley_places::is_placed(
                g,
                ground(l, more, b),
                h,
                c,
                x,
            ),
{
    assert forall|c: int, x: Item| #[trigger]
        earley_places::is_placed(g, ground(l, cols, a), f, c, x) implies earley_places::is_placed(
        g,
        ground(l, more, b),
        h,
        c,
        x,
    ) by {
        if x.dot == 0 {
            if x.origin < c {
                assert((ground(l, cols, a).gap)(x.origin as int, c));
                assert((ground(l, more, b).gap)(x.origin as int, c));
            }
        } else {
            earley_shape::lemma_at_grown(
                f,
                h,
                x.node,
                earley_chart::key_at(g, x.rule, x.dot as int),
                x.origin,
                c as usize,
            );
        }
    }
}

/// Whether what a step has made so far is in shape.
pub open spec fn drained_shape(
    g: earley_chart::Context,
    arena: Seq<Trans>,
    gr: earley_shape::Ground,
    f: earley_forest::ForestModel,
    end: usize,
    s: earley_recognizer::Scanned,
) -> bool {
    &&& earley_places::is_sound(g, arena, gr, s.forest)
    &&& earley_places::carried_before(gr, end as int)
    &&& earley_forest::extends(f, s.forest)
    &&& earley_places::are_placed(g, gr, s.forest, end as int, s.column)
    &&& earley_places::are_placed(g, gr, s.forest, end as int, s.scan)
    &&& earley_places::none_waits(g, s.column)
}

proof fn lemma_drained_slots(
    g: earley_chart::Context,
    arena: Seq<Trans>,
    gr: earley_shape::Ground,
    start: SymbolId,
    l: reading::Reading,
    f: earley_forest::ForestModel,
    ds: Seq<earley_dynamic::DelayedModel>,
    end: usize,
    k: nat,
)
    requires
        k <= ds.len(),
        forall|q: int|
            0 <= q < ds.len() ==> earley_text::delayed_sound(
                g,
                start,
                placed(g, gr, f),
                l,
                end as int,
                #[trigger] ds[q],
            ),
    ensures
        slots_le(f, earley_dynamic::drained(g, arena, f, ds, end, k).forest),
        k > 0 ==> slots_le(
            earley_dynamic::drained(g, arena, f, ds, end, (k - 1) as nat).forest,
            earley_dynamic::drained(g, arena, f, ds, end, k).forest,
        ),
    decreases k,
{
    if k > 0 {
        lemma_drained_slots(g, arena, gr, start, l, f, ds, end, (k - 1) as nat);
        let p = earley_dynamic::drained(g, arena, f, ds, end, (k - 1) as nat);
        let s = earley_dynamic::drained(g, arena, f, ds, end, k);
        let ok = placed(g, gr, f);
        assert(earley_text::delayed_sound(g, start, ok, l, end as int, ds[k - 1]));
        match ds[k - 1] {
            earley_dynamic::DelayedModel::Tok(o, token) => {
                let f1 = earley_forest::token_added(p.forest, token);
                let right = ForestRef::Tok(p.forest.tokens.len() as usize);
                earley_places::lemma_moved_sizes(g, f1, o, right, end);
                assert(slots_le(p.forest, s.forest)) by {
                    assert forall|i: int| 0 <= i < p.forest.nodes.len() implies (
                    #[trigger] p.forest.nodes[i]).families.len()
                        <= s.forest.nodes[i].families.len() by {
                        assert(f1.nodes[i].families.len() <= s.forest.nodes[i].families.len());
                    }
                }
            },
            earley_dynamic::DelayedModel::Carry(o) => {
                let c = choose|c: int| #[trigger]
                    earley_text::carry_source(g, start, ok, l, c, end as int, o);
                assert(ok(c, o));
                assert(earley_places::is_placed(g, gr, f, c, o));
                lemma_carried_slots(g, arena, p.forest, o, end);
            },
        }
        lemma_slots_trans(f, p.forest, s.forest);
    }
}

/// A step keeps the forest in shape; the result is the columns from which the
/// start symbol has been carried on.
#[verifier::rlimit(60)]
proof fn lemma_drained_shape(
    g: earley_chart::Context,
    l: reading::Reading,
    arena: Seq<Trans>,
    cols: Seq<Seq<Item>>,
    carried: Set<int>,
    f: earley_forest::ForestModel,
    ds: Seq<earley_dynamic::DelayedModel>,
    end: usize,
    k: nat,
) -> (r: Set<int>)
    requires
        earley_chart::context_ok(g),
        earley_fill::flags_true(g),
        arena.len() <= usize::MAX,
        earley_places::is_sound(g, arena, ground(l, cols, carried), f),
        earley_chain::are_links(g, ground(l, cols, carried), l.aim, f, arena),
        earley_places::carried_before(ground(l, cols, carried), end as int),
        end <= l.size,
        forall|q: int|
            0 <= q < ds.len() ==> earley_text::delayed_sound(
                g,
                l.aim,
                placed(g, ground(l, cols, carried), f),
                l,
                end as int,
                #[trigger] ds[q],
            ),
        k <= ds.len(),
        earley_shape::within_limits(
            earley_dynamic::drained(g, arena, f, ds, end, k).forest,
        ),
        earley_dynamic::drained(g, arena, f, ds, end, k).forest.tokens.len() <= usize::MAX,
    ensures
        drained_shape(
            g,
            arena,
            ground(l, cols, r),
            f,
            end,
            earley_dynamic::drained(g, arena, f, ds, end, k),
        ),
    decreases k,
{
    let gr = ground(l, cols, carried);
    if k == 0 {
        earley_shape::lemma_grown_self(f);
        carried
    } else {
        let p = earley_dynamic::drained(g, arena, f, ds, end, (k - 1) as nat);
        let s = earley_dynamic::drained(g, arena, f, ds, end, k);
        lemma_drained_slots(g, arena, gr, l.aim, l, f, ds, end, k);
        lemma_slots_limits(p.forest, s.forest);
        lemma_drained_tokens(g, arena, f, ds, end, k);
        let r = lemma_drained_shape(
            g,
            l,
            arena,
            cols,
            carried,
            f,
            ds,
            end,
            (k - 1) as nat,
        );
        let at = ground(l, cols, r);
        let ok = placed(g, gr, f);
        lemma_placed_stays(g, l, cols, cols, carried, r, f, p.forest);
        assert(earley_text::delayed_sound(g, l.aim, ok, l, end as int, ds[k - 1]));
        match ds[k - 1] {
            earley_dynamic::DelayedModel::Tok(o, token) => {
                let c = choose|c: int| #[trigger]
                    earley_text::token_source(g, ok, l, c, end as int, o, token);
                assert(ok(c, o));
                assert(earley_places::is_placed(g, gr, f, c, o));
                assert(earley_places::is_placed(g, at, p.forest, c, o));
                let f1 = earley_forest::token_added(p.forest, token);
                let t = p.forest.tokens.len() as usize;
                let right = ForestRef::Tok(t);
                earley_places::lemma_token_shape(g, arena, at, p.forest, token);
                lemma_placed_stays(g, l, cols, cols, r, r, p.forest, f1);
                assert(earley_places::is_placed(g, at, f1, c, o));
                assert(f1.tokens[t as int] == token);
                let from = if o.dot == 0 {
                    o.origin as int
                } else {
                    c
                };
                assert((at.token)(from, token, end as int)) by {
                    if o.dot == 0 && o.origin < c {
                        assert((at.gap)(o.origin as int, c));
                        assert(reading::is_read(l, o.origin as int, c, Seq::empty()));
                    } else {
                        reading::lemma_read_nothing(l, c);
                    }
                    assert(is_behind(l, from, token, end as int));
                }
                earley_fill::lemma_flags_closed(g);
                earley_places::lemma_moved_shape(g, arena, at, f1, o, right, c, end);
                let (h, item) = earley_chart::moved(g, f1, o, right, end);
                earley_forest::lemma_extends_trans(p.forest, f1, h);
                earley_forest::lemma_extends_trans(f, p.forest, h);
                earley_places::lemma_placed_grown(g, at, p.forest, h, end as int, p.column);
                earley_places::lemma_placed_grown(g, at, p.forest, h, end as int, p.scan);
                r
            },
            earley_dynamic::DelayedModel::Carry(o) => {
                let c = choose|c: int| #[trigger]
                    earley_text::carry_source(g, l.aim, ok, l, c, end as int, o);
                assert(ok(c, o));
                assert(earley_places::is_placed(g, gr, f, c, o));
                assert(earley_places::is_placed(g, at, p.forest, c, o));
                lemma_links_ground(g, l, cols, carried, r, f, p.forest, arena);
                lemma_carried_shape(g, l, arena, at, p.forest, c, o, end);
                let (h, item) = earley_dynamic::carried(g, arena, p.forest, o, end);
                let after = ground_after(g, at, c, o);
                let r2 = after.carried;
                assert(after == ground(l, cols, r2));
                earley_forest::lemma_extends_trans(f, p.forest, h);
                lemma_placed_stays(g, l, cols, cols, r, r2, p.forest, h);
                assert forall|q: int| 0 <= q < p.column.len() implies earley_places::is_placed(
                    g,
                    after,
                    h,
                    end as int,
                    #[trigger] p.column[q],
                ) by {
                    assert(earley_places::is_placed(g, at, p.forest, end as int, p.column[q]));
                }
                assert forall|q: int| 0 <= q < p.scan.len() implies earley_places::is_placed(
                    g,
                    after,
                    h,
                    end as int,
                    #[trigger] p.scan[q],
                ) by {
                    assert(earley_places::is_placed(g, at, p.forest, end as int, p.scan[q]));
                }
                r2
            },
        }
    }
}

/// Tokens are only added.
proof fn lemma_drained_tokens(
    g: earley_chart::Context,
    arena: Seq<Trans>,
    f: earley_forest::ForestModel,
    ds: Seq<earley_dynamic::DelayedModel>,
    end: usize,
    k: nat,
)
    requires
        0 < k <= ds.len(),
    ensures
        earley_dynamic::drained(g, arena, f, ds, end, (k - 1) as nat).forest.tokens.len()
            <= earley_dynamic::drained(g, arena, f, ds, end, k).forest.tokens.len(),
        ds[k - 1] is Tok ==> earley_dynamic::drained(
            g,
            arena,
            f,
            ds,
            end,
            (k - 1) as nat,
        ).forest.tokens.len() < earley_dynamic::drained(g, arena, f, ds, end, k).forest.tokens.len(),
{
    let p = earley_dynamic::drained(g, arena, f, ds, end, (k - 1) as nat);
    match ds[k - 1] {
        earley_dynamic::DelayedModel::Tok(o, token) => {
            let f1 = earley_forest::token_added(p.forest, token);
            earley_places::lemma_moved_sizes(
                g,
                f1,
                o,
                ForestRef::Tok(p.forest.tokens.len() as usize),
                end,
            );
        },
        earley_dynamic::DelayedModel::Carry(o) => {
            if let ForestRef::Node(id) = o.node {
                let f0 = earley_forest::paths_taken(p.forest, id as int);
                let paths = p.forest.nodes[id as int].paths;
                earley_chain::lemma_paths_sizes(g, f0, arena, paths, paths.len());
                let w = earley_paths::materialized(g, p.forest, arena, id as int);
                let key = earley_chart::key_at(g, o.rule, o.dot as int);
                let (h, new) = earley_forest::got(w, key, o.origin, end);
                let families = h.nodes[id as int].families;
                lemma_copied_tokens(g, h, new, families, families.len());
            }
        },
    }
}

proof fn lemma_copied_tokens(
    g: earley_chart::Context,
    f: earley_forest::ForestModel,
    id: int,
    families: Seq<Packed>,
    k: nat,
)
    ensures
        earley_dynamic::families_copied(g, f, id, families, k).tokens == f.tokens,
    decreases k,
{
    if k > 0 {
        lemma_copied_tokens(g, f, id, families, (k - 1) as nat);
    }
}

/// Links stay in order on the ground of more carried columns.
proof fn lemma_links_ground(
    g: earley_chart::Context,
    l: reading::Reading,
    cols: Seq<Seq<Item>>,
    a: Set<int>,
    b: Set<int>,
    f: earley_forest::ForestModel,
    h: earley_forest::ForestModel,
    arena: Seq<Trans>,
)
    requires
        earley_forest::extends(f, h),
        earley_chain::are_links(g, ground(l, cols, a), l.aim, f, arena),
    ensures
        earley_chain::are_links(g, ground(l, cols, b), l.aim, h, arena),
{
    earley_chain::lemma_links_grown(g, ground(l, cols, a), l.aim, f, h, arena);
    assert forall|t: int| 0 <= t < arena.len() implies #[trigger] earley_chain::is_link(
        g,
        ground(l, cols, b),
        l.aim,
        h,
        arena,
        t,
    ) by {
        assert(earley_chain::is_link(g, ground(l, cols, a), l.aim, h, arena, t));
    }
}

// ---------------------------------------------------------------------------
// The whole text

/// Whether the chart of the first `i` characters, with what is kept, is in shape,
/// where `carried` are the columns from which the start symbol was carried on.
pub open spec fn text_shape(
    g: earley_chart::Context,
    start: SymbolId,
    input: earley_dynamic::Input,
    m: earley_chart::ChartModel,
    p: Seq<Option<Seq<earley_dynamic::DelayedModel>>>,
    i: int,
    carried: Set<int>,
) -> bool {
    let l = earley_text::of_text(input, start);
    let gr = ground(l, m.columns, carried);
    &&& earley_places::chart_shape(g, gr, m, i)
    &&& earley_text::pending_sound(g, start, placed(g, gr, m.forest), l, p)
    &&& m.arena.len() <= usize::MAX
}

/// Whether the chart of the first `i` characters, with what is kept, is in shape.
pub open spec fn is_text_shape(
    g: earley_chart::Context,
    start: SymbolId,
    input: earley_dynamic::Input,
    m: earley_chart::ChartModel,
    p: Seq<Option<Seq<earley_dynamic::DelayedModel>>>,
    i: int,
) -> bool {
    exists|carried: Set<int>| #[trigger] text_shape(g, start, input, m, p, i, carried)
}

/// The first column is in shape.
pub proof fn lemma_shape_begun(
    g: earley_chart::Context,
    start: SymbolId,
    input: earley_dynamic::Input,
    m: earley_chart::ChartModel,
    p: Seq<Option<Seq<earley_dynamic::DelayedModel>>>,
)
    requires
        earley_sound::context_true(g),
        earley_fill::flags_true(g),
        earley_recognizer::closed_at(g, earley_recognizer::started(g, start), 0, start, m),
        earley_shape::within_limits(m.forest),
        p == earley_dynamic::none_kept(input.text.len() + 1),
    ensures
        is_text_shape(g, start, input, m, p, 0),
{
    let l = earley_text::of_text(input, start);
    let b = earley_recognizer::blank_chart();
    let gr = ground(l, m.columns, Set::empty());
    earley_fill::lemma_flags_closed(g);
    earley_places::lemma_closed_at_sizes(
        g,
        earley_recognizer::started(g, start),
        0,
        start,
        m,
    );
    earley_exact::lemma_started_full(g, l, start);
    assert(earley_places::chart_shape(g, gr, b, 0));
    earley_places::lemma_predicted_shape(g, gr, b, 0, Seq::empty(), start, g.rules.len());
    earley_places::lemma_closed_at_shape(
        g,
        gr,
        l,
        earley_recognizer::started(g, start),
        0,
        start,
        m,
    );
    earley_text::lemma_none_sound(g, start, placed(g, gr, m.forest), l, p);
    assert(text_shape(g, start, input, m, p, 0, Set::empty()));
}

/// The next column is in shape.
#[verifier::rlimit(60)]
pub proof fn lemma_shape_next(
    g: earley_chart::Context,
    start: SymbolId,
    input: earley_dynamic::Input,
    m0: earley_chart::ChartModel,
    p0: Seq<Option<Seq<earley_dynamic::DelayedModel>>>,
    m: earley_chart::ChartModel,
    p: Seq<Option<Seq<earley_dynamic::DelayedModel>>>,
    j: int,
)
    requires
        earley_sound::context_true(g),
        earley_fill::flags_true(g),
        0 <= j < input.text.len() <= usize::MAX,
        earley_text::is_text_full(g, start, input, m0, p0, j),
        is_text_shape(g, start, input, m0, p0, j),
        earley_dynamic::text_follows(g, start, input, (j + 1) as usize, m0, p0, m, p),
        earley_dynamic::character_step(g, start, input, m0, p0).0 matches Some(n)
            && earley_forest::extends(n.forest, m.forest),
        earley_shape::within_limits(m.forest),
        m.forest.tokens.len() <= usize::MAX,
    ensures
        is_text_shape(g, start, input, m, p, j + 1),
{
    let l = earley_text::of_text(input, start);
    let hist = choose|hist: Seq<Seq<Item>>| #[trigger]
        earley_text::text_full(g, start, input, m0, p0, j, hist);
    let carried = choose|carried: Set<int>| #[trigger]
        text_shape(g, start, input, m0, p0, j, carried);
    let gr = ground(l, m0.columns, carried);
    let ok = placed(g, gr, m0.forest);
    assert(earley_places::are_placed(g, gr, m0.forest, j, m0.columns[j]));
    assert forall|q: int| 0 <= q < m0.scan.len() implies ok(j, #[trigger] m0.scan[q]) by {
        assert(earley_places::is_placed(g, gr, m0.forest, j, m0.scan[q]));
    }
    assert forall|q: int| 0 <= q < m0.columns[j].len() implies ok(
        j,
        #[trigger] m0.columns[j][q],
    ) by {
        assert(earley_places::is_placed(g, gr, m0.forest, j, m0.columns[j][q]));
    }
    earley_text::lemma_queued(g, start, ok, input, m0, hist, p0, j);
    let q = earley_dynamic::ignored_queued(
        g,
        start,
        input,
        m0,
        j,
        earley_dynamic::items_queued(g, input, m0.scan, j, p0, m0.scan.len()),
        input.matcher.ignore.len(),
    );
    let ds = earley_dynamic::kept_for(q, j + 1);
    let i = (j + 1) as usize;
    let s = earley_dynamic::drained(g, m0.arena, m0.forest, ds, i, ds.len());
    let n = earley_recognizer::next_chart(m0, s);
    assert forall|k: int| 0 <= k < ds.len() implies earley_text::delayed_sound(
        g,
        start,
        ok,
        l,
        i as int,
        #[trigger] ds[k],
    ) by {
        assert(earley_text::delayed_sound(
            g,
            start,
            ok,
            l,
            j + 1,
            earley_dynamic::kept_for(q, j + 1)[k],
        ));
    }
    // Sizes.
    earley_places::lemma_closed_at_sizes(g, n, i, start, m);
    earley_shape::lemma_sizes_limits(n.forest, m.forest);
    // The forest, once the step is taken.
    assert(earley_complete::links_true(g, m0, start, j));
    earley_laws::lemma_chart_links(g, gr, m0, start, j);
    assert(earley_shape::with_cols(gr, m0.columns) == gr);
    assert(earley_places::carried_before(gr, i as int)) by {
        assert forall|c: int| #[trigger] gr.carried.contains(c) implies c < i by {
            assert(c < j);
        }
    }
    let r = lemma_drained_shape(
        g,
        l,
        m0.arena,
        m0.columns,
        carried,
        m0.forest,
        ds,
        i,
        ds.len(),
    );
    let at = ground(l, m0.columns, r);
    let wide = ground(l, n.columns, r);
    assert(earley_shape::more_cols(at, wide));
    earley_shape::lemma_cols_shape(g, m0.arena, at, wide, s.forest);
    lemma_placed_stays(g, l, m0.columns, n.columns, carried, r, m0.forest, s.forest);
    lemma_placed_stays(g, l, m0.columns, n.columns, r, r, s.forest, s.forest);
    assert forall|c: int| 0 <= c < n.columns.len() implies earley_places::are_placed(
        g,
        wide,
        n.forest,
        c,
        #[trigger] n.columns[c],
    ) && earley_places::none_waits(g, n.columns[c]) by {
        if c < m0.columns.len() {
            assert(n.columns[c] == m0.columns[c]);
            assert(earley_places::are_placed(g, gr, m0.forest, c, m0.columns[c]));
            assert forall|k: int| 0 <= k < n.columns[c].len() implies earley_places::is_placed(
                g,
                wide,
                n.forest,
                c,
                #[trigger] n.columns[c][k],
            ) by {
                assert(earley_places::is_placed(g, gr, m0.forest, c, m0.columns[c][k]));
            }
        } else {
            assert forall|k: int| 0 <= k < n.columns[c].len() implies earley_places::is_placed(
                g,
                wide,
                n.forest,
                c,
                #[trigger] n.columns[c][k],
            ) by {
                assert(earley_places::is_placed(g, at, s.forest, c, s.column[k]));
            }
        }
    }
    assert forall|k: int| 0 <= k < n.scan.len() implies earley_places::is_placed(
        g,
        wide,
        n.forest,
        i as int,
        #[trigger] n.scan[k],
    ) by {
        assert(earley_places::is_placed(g, at, s.forest, i as int, s.scan[k]));
    }
    assert(earley_shape::with_cols(wide, n.columns) == wide);
    assert(earley_places::chart_shape(g, wide, n, i as int));
    // The column closed.
    earley_fill::lemma_flags_closed(g);
    let nodes = m0.forest.nodes.len();
    assert forall|k: int| 0 <= k < m0.scan.len() implies earley_text::below(nodes)(
        j,
        #[trigger] m0.scan[k],
    ) by {
        assert(earley_places::is_placed(g, gr, m0.forest, j, m0.scan[k]));
    }
    assert forall|k: int| 0 <= k < m0.columns[j].len() implies earley_text::below(nodes)(
        j,
        #[trigger] m0.columns[j][k],
    ) by {
        assert(earley_places::is_placed(g, gr, m0.forest, j, m0.columns[j][k]));
    }
    earley_text::lemma_next_can_close(g, start, input, m0, p0, j, hist);
    earley_places::lemma_closed_at_shape(g, wide, l, n, i, start, m);
    let last = ground(l, m.columns, r);
    assert(earley_shape::with_cols(wide, m.columns) == last);
    assert(earley_shape::with_cols(last, m.columns) == last);
    lemma_chart_ground(g, wide, last, m, i as int);
    // What is kept.
    earley_text::lemma_rest_kept_sound(g, start, ok, l, q, p, j);
    assert(earley_dynamic::character_step(g, start, input, m0, p0).0 == Some(n));
    lemma_placed_stays(g, l, m0.columns, m.columns, carried, r, m0.forest, s.forest);
    lemma_placed_stays(g, l, m.columns, m.columns, r, r, s.forest, m.forest);
    let end_ok = placed(g, last, m.forest);
    assert forall|c: int, x: Item| #[trigger] ok(c, x) implies end_ok(c, x) by {
        assert(earley_places::is_placed(g, gr, m0.forest, c, x));
        assert(earley_places::is_placed(g, last, s.forest, c, x));
        assert(earley_places::is_placed(g, last, m.forest, c, x));
    }
    earley_text::lemma_sound_more(g, start, ok, end_ok, l, p);
    assert(text_shape(g, start, input, m, p, i as int, r));
}

/// A chart stays in shape whatever columns the ground is named with.
proof fn lemma_chart_ground(
    g: earley_chart::Context,
    gr: earley_shape::Ground,
    other: earley_shape::Ground,
    m: earley_chart::ChartModel,
    i: int,
)
    requires
        earley_places::chart_shape(g, gr, m, i),
        other == earley_shape::with_cols(gr, m.columns),
    ensures
        earley_places::chart_shape(g, other, m, i),
{
    assert(earley_shape::with_cols(other, m.columns) == other);
    assert forall|c: int| 0 <= c < m.columns.len() implies earley_places::are_placed(
        g,
        other,
        m.forest,
        c,
        #[trigger] m.columns[c],
    ) && earley_places::none_waits(g, m.columns[c]) by {
        assert(earley_places::are_placed(g, gr, m.forest, c, m.columns[c]));
        assert forall|k: int| 0 <= k < m.columns[c].len() implies earley_places::is_placed(
            g,
            other,
            m.forest,
            c,
            #[trigger] m.columns[c][k],
        ) by {
            assert(earley_places::is_placed(g, gr, m.forest, c, m.columns[c][k]));
        }
    }
    assert forall|k: int| 0 <= k < m.scan.len() implies earley_places::is_placed(
        g,
        other,
        m.forest,
        i,
        #[trigger] m.scan[k],
    ) by {
        assert(earley_places::is_placed(g, gr, m.forest, i, m.scan[k]));
    }
    assert(earley_places::carried_before(other, i)) by {
        assert forall|c: int| #[trigger] other.carried.contains(c) implies c < i by {
            assert(gr.carried.contains(c));
        }
    }
}

/// The nodes of the items of a chart in shape are in its forest.
pub proof fn lemma_shape_below(
    g: earley_chart::Context,
    start: SymbolId,
    input: earley_dynamic::Input,
    m: earley_chart::ChartModel,
    p: Seq<Option<Seq<earley_dynamic::DelayedModel>>>,
    i: int,
)
    requires
        is_text_shape(g, start, input, m, p, i),
    ensures
        earley_text::are_ok(earley_text::below(m.forest.nodes.len()), i, m.scan),
        earley_text::are_ok(earley_text::below(m.forest.nodes.len()), i, m.columns[i]),
{
    let l = earley_text::of_text(input, start);
    let carried = choose|carried: Set<int>| #[trigger]
        text_shape(g, start, input, m, p, i, carried);
    let gr = ground(l, m.columns, carried);
    let nodes = m.forest.nodes.len();
    assert(earley_places::are_placed(g, gr, m.forest, i, m.columns[i]));
    assert forall|k: int| 0 <= k < m.scan.len() implies earley_text::below(nodes)(
        i,
        #[trigger] m.scan[k],
    ) by {
        assert(earley_places::is_placed(g, gr, m.forest, i, m.scan[k]));
    }
    assert forall|k: int| 0 <= k < m.columns[i].len() implies earley_text::below(nodes)(
        i,
        #[trigger] m.columns[i][k],
    ) by {
        assert(earley_places::is_placed(g, gr, m.forest, i, m.columns[i][k]));
    }
}

} // verus!
