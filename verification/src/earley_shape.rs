//! The shape of the parse forest: what the families of a node refer to.

use vstd::prelude::*;
use crate::analysis;
use crate::earley_chart;
use crate::earley_forest;
use crate::earley_forest::{ForestRef, Item, NodeKey, Packed, Trans};
use crate::earley_paths;
use crate::symbols::SymbolId;
use crate::tree;

verus! {

// ---------------------------------------------------------------------------
// Families

/// Whether a reference is to a node with the given label.
pub open spec fn is_at(
    f: earley_forest::ForestModel,
    r: ForestRef,
    key: NodeKey,
    start: usize,
    end: usize,
) -> bool {
    match r {
        ForestRef::Node(k) => k < f.nodes.len() && earley_forest::labelled(
            f.nodes[k as int],
            key,
            start,
            end,
        ),
        _ => false,
    }
}

/// Where the last symbol of a family begins.
pub open spec fn mid_of(
    f: earley_forest::ForestModel,
    n: earley_forest::NodeModel,
    p: Packed,
) -> usize {
    match p.left {
        ForestRef::Node(k) => f.nodes[k as int].end,
        _ => n.start,
    }
}

/// Where the last symbol of a family ends, if it has a node.
pub open spec fn stop_of(
    f: earley_forest::ForestModel,
    n: earley_forest::NodeModel,
    p: Packed,
) -> usize {
    match p.right {
        ForestRef::Node(k) => f.nodes[k as int].end,
        _ => n.end,
    }
}

/// An item by its rule, dot and origin.
pub open spec fn mark(rule: usize, dot: usize, origin: usize) -> Item {
    Item { rule, dot, origin, node: ForestRef::Nothing }
}

/// What a forest stands on: the columns of its chart, and the symbol aimed at. A
/// text is `loose`: where its tokens can lie is said by `token`, what is ignored
/// by `gap`, and `carried` are the columns from which the whole start symbol was
/// carried on.
pub ghost struct Ground {
    pub cols: Seq<Seq<Item>>,
    pub start: SymbolId,
    pub loose: bool,
    pub token: spec_fn(int, tree::TokenModel, int) -> bool,
    pub gap: spec_fn(int, int) -> bool,
    pub carried: Set<int>,
}

/// The ground of tokens, one after the other.
pub open spec fn firm(cols: Seq<Seq<Item>>, start: SymbolId) -> Ground {
    Ground {
        cols,
        start,
        loose: false,
        token: |a: int, t: tree::TokenModel, b: int| false,
        gap: |a: int, b: int| false,
        carried: Set::empty(),
    }
}

/// The same ground with other columns.
pub open spec fn with_cols(gr: Ground, cols: Seq<Seq<Item>>) -> Ground {
    Ground { cols, ..gr }
}

/// Whether a label can span what is ignored at its end: it is the start symbol
/// from the beginning, or waits for a terminal.
pub open spec fn stretches(
    g: earley_chart::Context,
    gr: Ground,
    key: NodeKey,
    start: usize,
) -> bool {
    gr.loose && match key {
        NodeKey::Sym(s) => s == gr.start && start == 0,
        NodeKey::Inter(r, d) => r < g.rules.len() && d < g.rules[r as int].expansion.len()
            && g.rules[r as int].expansion[d as int].ix() < g.nt,
    }
}

/// Whether a node that begins at `start` can end at `end` where its last part ends
/// at `stop`.
pub open spec fn reaches(
    g: earley_chart::Context,
    gr: Ground,
    key: NodeKey,
    start: usize,
    stop: int,
    end: usize,
) -> bool {
    &&& stop <= end
    &&& stop < end ==> {
        &&& stretches(g, gr, key, start)
        &&& (gr.gap)(stop, end as int)
        &&& key is Sym ==> gr.carried.contains(stop) || stop == 0
    }
}

/// Whether a symbol that begins at `start` is not one that was carried on from
/// column `end`.
pub open spec fn uncarried(gr: Ground, s: SymbolId, start: usize, end: usize) -> bool {
    !(s == gr.start && start == 0 && gr.carried.contains(end as int))
}

/// Whether a token can lie, behind what is ignored, from `mid` to `stop`, as the
/// last part of a node.
pub open spec fn token_to(
    g: earley_chart::Context,
    gr: Ground,
    n: earley_forest::NodeModel,
    mid: int,
    t: tree::TokenModel,
    stop: int,
) -> bool {
    mid < stop && (gr.token)(mid, t, stop) && reaches(g, gr, n.key, n.start, stop, n.end)
}

/// Whether a family is one of a node: its left part is the rule up to its last
/// symbol, both parts together span the node, and the rule waited for that
/// symbol where the symbol begins.
pub open spec fn is_family(
    g: earley_chart::Context,
    gr: Ground,
    f: earley_forest::ForestModel,
    n: earley_forest::NodeModel,
    p: Packed,
) -> bool {
    let e = g.rules[p.rule as int].expansion;
    let mid = mid_of(f, n, p);
    &&& p.rule < g.rules.len()
    &&& if p.right is Nothing {
        &&& p.left is Nothing
        &&& e.len() == 0
        &&& n.key == NodeKey::Sym(g.rules[p.rule as int].origin)
        &&& reaches(g, gr, n.key, n.start, n.start as int, n.end)
    } else {
        &&& p.right_pos < e.len()
        &&& n.key == earley_chart::key_at(g, p.rule, p.right_pos + 1)
        &&& n.start <= mid <= n.end
        &&& if p.right_pos == 0 {
            p.left is Nothing
        } else {
            is_at(f, p.left, NodeKey::Inter(p.rule, p.right_pos), n.start, mid)
        }
        &&& match p.right {
            ForestRef::Tok(t) => {
                &&& mid < n.end
                &&& if gr.loose {
                    exists|stop: int| #[trigger]
                        token_to(g, gr, n, mid as int, f.tokens[t as int], stop)
                } else {
                    t == mid && mid + 1 == n.end
                }
                &&& t < f.tokens.len()
                &&& f.tokens[t as int].type_id == e[p.right_pos as int]
                &&& e[p.right_pos as int].ix() < g.nt
            },
            _ => {
                let stop = stop_of(f, n, p);
                &&& mid <= stop
                &&& reaches(g, gr, n.key, n.start, stop as int, n.end)
                &&& is_at(f, p.right, NodeKey::Sym(e[p.right_pos as int]), mid, stop)
                &&& mid < stop ==> mid < gr.cols.len() && earley_chart::has_item(
                    gr.cols[mid as int],
                    mark(p.rule, p.right_pos, n.start),
                )
            },
        }
    }
}

/// Whether every family is one of its node.
pub open spec fn families_fit(
    g: earley_chart::Context,
    gr: Ground,
    f: earley_forest::ForestModel,
) -> bool {
    forall|i: int, k: int|
        0 <= i < f.nodes.len() && 0 <= k < f.nodes[i].families.len() ==> is_family(
            g,
            gr,
            f,
            f.nodes[i],
            #[trigger] f.nodes[i].families[k],
        )
}

/// Whether no two nodes have the same label.
pub open spec fn labels_differ(f: earley_forest::ForestModel) -> bool {
    forall|i: int, j: int|
        0 <= i < j < f.nodes.len() ==> !earley_forest::labelled(
            #[trigger] f.nodes[j],
            (#[trigger] f.nodes[i]).key,
            f.nodes[i].start,
            f.nodes[i].end,
        )
}

/// Whether the family that derives nothing is among the families.
pub open spec fn eps_kept(f: earley_forest::ForestModel) -> bool {
    forall|i: int|
        0 <= i < f.nodes.len() ==> ((#[trigger] f.nodes[i]).eps matches Some((k, _)) ==> k
            < f.nodes[i].families.len() && f.nodes[i].families[k as int].left is Nothing
            && f.nodes[i].families[k as int].right is Nothing)
}

/// Whether a cut chain leads from the node below its first link to the node
/// where it was cut.
pub open spec fn is_path(
    g: earley_chart::Context,
    gr: Ground,
    arena: Seq<Trans>,
    f: earley_forest::ForestModel,
    n: earley_forest::NodeModel,
    path: (usize, ForestRef, usize),
) -> bool {
    let x = arena[path.0 as int];
    &&& path.0 < arena.len()
    &&& x.top.rule < g.rules.len()
    &&& earley_forest::labelled(
        n,
        NodeKey::Sym(g.rules[x.top.rule as int].origin),
        x.top.origin,
        path.2,
    )
    &&& x.top.origin <= x.key_start < path.2
    &&& is_at(f, path.1, NodeKey::Sym(x.recognized), x.key_start, path.2)
    &&& uncarried(gr, g.rules[x.top.rule as int].origin, x.top.origin, path.2)
}

/// Whether every cut chain is one of its node.
pub open spec fn paths_fit(
    g: earley_chart::Context,
    gr: Ground,
    arena: Seq<Trans>,
    f: earley_forest::ForestModel,
) -> bool {
    forall|i: int, k: int|
        0 <= i < f.nodes.len() && 0 <= k < f.nodes[i].paths.len() ==> is_path(
            g,
            gr,
            arena,
            f,
            f.nodes[i],
            #[trigger] f.nodes[i].paths[k],
        )
}

/// Whether the flags of symbols that derive nothing are closed under the rules,
/// and true.
pub open spec fn flags_closed(g: earley_chart::Context) -> bool {
    &&& forall|r: int|
        0 <= r < g.rules.len() && earley_paths::all_flagged(
            g.nullable,
            (#[trigger] g.rules[r]).expansion,
        ) ==> g.nullable[g.rules[r].origin.ix() as int]
    &&& forall|s: SymbolId|
        s.ix() < g.n && #[trigger] g.nullable[s.ix() as int] ==> analysis::nullable(
            g.rules,
            g.nt,
            s,
        )
}

/// Whether the first `d` symbols of a rule are flagged to derive nothing.
pub open spec fn start_flagged(g: earley_chart::Context, rule: usize, d: int) -> bool {
    forall|j: int|
        0 <= j < d ==> g.nullable[(#[trigger] g.rules[rule as int].expansion[j]).ix() as int]
}

/// Whether the first `d` symbols of a rule derive something other than the
/// empty string.
pub open spec fn start_grows(g: earley_chart::Context, rule: usize, d: int) -> bool {
    analysis::grows_all(g.rules, g.nt, g.rules[rule as int].expansion.take(d))
}

/// Whether what a label stands for is flagged to derive nothing, where it spans
/// nothing, and can grow, where it spans something. Where what is ignored can be
/// spanned, a flag will do.
pub open spec fn label_ok(
    g: earley_chart::Context,
    gr: Ground,
    key: NodeKey,
    start: usize,
    end: usize,
) -> bool {
    &&& start <= end
    &&& match key {
        NodeKey::Sym(s) => if start == end {
            g.nullable[s.ix() as int]
        } else {
            spans(g, gr, s, start)
        },
        NodeKey::Inter(r, d) => if start == end {
            start_flagged(g, r, d as int)
        } else {
            ||| start_grows(g, r, d as int)
            ||| gr.loose && (start == 0 || stretches(g, gr, key, start)) && start_flagged(
                g,
                r,
                d as int,
            )
        },
    }
}

/// Whether a symbol that begins at `start` can span something.
pub open spec fn spans(g: earley_chart::Context, gr: Ground, s: SymbolId, start: usize) -> bool {
    ||| analysis::grows(g.rules, g.nt, s)
    ||| gr.loose && start == 0 && g.nullable[s.ix() as int]
}

/// Whether every label is in order.
pub open spec fn labels_ok(
    g: earley_chart::Context,
    gr: Ground,
    f: earley_forest::ForestModel,
) -> bool {
    forall|i: int|
        0 <= i < f.nodes.len() ==> label_ok(
            g,
            gr,
            (#[trigger] f.nodes[i]).key,
            f.nodes[i].start,
            f.nodes[i].end,
        )
}

/// Whether a forest is in shape.
pub open spec fn in_shape(
    g: earley_chart::Context,
    arena: Seq<Trans>,
    gr: Ground,
    f: earley_forest::ForestModel,
) -> bool {
    &&& families_fit(g, gr, f)
    &&& labels_differ(f)
    &&& eps_kept(f)
    &&& paths_fit(g, gr, arena, f)
    &&& labels_ok(g, gr, f)
}

/// Whether `h` has the families of `f`, as far as their parts go.
pub open spec fn pairs_kept(
    f: earley_forest::ForestModel,
    h: earley_forest::ForestModel,
) -> bool {
    forall|i: int, k: int|
        0 <= i < f.nodes.len() && 0 <= k < f.nodes[i].families.len() ==> earley_forest::has_pair(
            h.nodes[i].families,
            (#[trigger] f.nodes[i].families[k]).left,
            f.nodes[i].families[k].right,
        )
}

/// Whether no node of `h` has fewer families than in `f`.
pub open spec fn families_kept(
    f: earley_forest::ForestModel,
    h: earley_forest::ForestModel,
) -> bool {
    forall|i: int|
        0 <= i < f.nodes.len() ==> (#[trigger] f.nodes[i]).families.len()
            <= h.nodes[i].families.len()
}

/// Whether cut chain `k` of node `i` of `f` is in `h`.
pub open spec fn path_kept(
    f: earley_forest::ForestModel,
    h: earley_forest::ForestModel,
    i: int,
    k: int,
) -> bool {
    k < h.nodes[i].paths.len() && h.nodes[i].paths[k] == f.nodes[i].paths[k]
}

/// Whether the cut chains of `f` are in `h`.
pub open spec fn paths_kept(
    f: earley_forest::ForestModel,
    h: earley_forest::ForestModel,
) -> bool {
    forall|i: int, k: int|
        #![trigger f.nodes[i].paths[k]]
        #![trigger path_kept(f, h, i, k)]
        0 <= i < f.nodes.len() && 0 <= k < f.nodes[i].paths.len() ==> path_kept(f, h, i, k)
}

/// Whether `h` is `f` with more in it.
pub open spec fn grown(f: earley_forest::ForestModel, h: earley_forest::ForestModel) -> bool {
    &&& earley_forest::extends(f, h)
    &&& pairs_kept(f, h)
    &&& families_kept(f, h)
    &&& paths_kept(f, h)
}

/// Whether a machine can number the nodes and the families of each.
pub open spec fn within_limits(f: earley_forest::ForestModel) -> bool {
    &&& f.nodes.len() <= usize::MAX
    &&& forall|i: int|
        0 <= i < f.nodes.len() ==> (#[trigger] f.nodes[i]).families.len() <= usize::MAX
}

/// A forest is grown from itself.
pub proof fn lemma_grown_self(f: earley_forest::ForestModel)
    ensures
        grown(f, f),
{
    assert forall|i: int, k: int|
        0 <= i < f.nodes.len() && 0 <= k
            < f.nodes[i].families.len() implies earley_forest::has_pair(
        f.nodes[i].families,
        (#[trigger] f.nodes[i].families[k]).left,
        f.nodes[i].families[k].right,
    ) by {
        assert(f.nodes[i].families[k].left == f.nodes[i].families[k].left);
    }
}

/// Growth over growth is growth.
pub proof fn lemma_grown_trans(
    f: earley_forest::ForestModel,
    h: earley_forest::ForestModel,
    w: earley_forest::ForestModel,
)
    requires
        grown(f, h),
        grown(h, w),
    ensures
        grown(f, w),
{
    earley_forest::lemma_extends_trans(f, h, w);
    assert forall|i: int, k: int|
        0 <= i < f.nodes.len() && 0 <= k
            < f.nodes[i].families.len() implies earley_forest::has_pair(
        w.nodes[i].families,
        (#[trigger] f.nodes[i].families[k]).left,
        f.nodes[i].families[k].right,
    ) by {
        let p = f.nodes[i].families[k];
        let fs = h.nodes[i].families;
        let q = choose|q: int|
            0 <= q < fs.len() && (#[trigger] fs[q]).left == p.left && fs[q].right == p.right;
        let x = h.nodes[i].families[q];
        assert(earley_forest::has_pair(w.nodes[i].families, x.left, x.right));
    }
    assert forall|i: int, k: int|
        #![trigger f.nodes[i].paths[k]]
        #![trigger path_kept(f, w, i, k)]
        0 <= i < f.nodes.len() && 0 <= k < f.nodes[i].paths.len() implies path_kept(f, w, i, k) by {
        assert(path_kept(f, h, i, k));
        let p = h.nodes[i].paths[k];
        assert(path_kept(h, w, i, k));
    }
    assert forall|i: int| 0 <= i < f.nodes.len() implies (#[trigger] f.nodes[i]).families.len()
        <= w.nodes[i].families.len() by {
        assert(h.nodes[i].families.len() <= w.nodes[i].families.len());
    }
}

/// A reference keeps its label.
pub proof fn lemma_at_grown(
    f: earley_forest::ForestModel,
    h: earley_forest::ForestModel,
    r: ForestRef,
    key: NodeKey,
    start: usize,
    end: usize,
)
    requires
        earley_forest::extends(f, h),
        is_at(f, r, key, start, end),
    ensures
        is_at(h, r, key, start, end),
{
    if let ForestRef::Node(k) = r {
        assert(earley_forest::labelled(
            h.nodes[k as int],
            f.nodes[k as int].key,
            f.nodes[k as int].start,
            f.nodes[k as int].end,
        ));
    }
}

/// A family stays one of its node.
pub proof fn lemma_family_grown(
    g: earley_chart::Context,
    gr: Ground,
    f: earley_forest::ForestModel,
    h: earley_forest::ForestModel,
    n: earley_forest::NodeModel,
    m: earley_forest::NodeModel,
    p: Packed,
)
    requires
        earley_forest::extends(f, h),
        is_family(g, gr, f, n, p),
        earley_forest::labelled(m, n.key, n.start, n.end),
    ensures
        is_family(g, gr, h, m, p),
{
    if !(p.right is Nothing) {
        let mid = mid_of(f, n, p);
        if p.right_pos > 0 {
            lemma_at_grown(f, h, p.left, NodeKey::Inter(p.rule, p.right_pos), n.start, mid);
        }
        assert(mid_of(h, m, p) == mid);
        if let ForestRef::Tok(t) = p.right {
            assert(h.tokens[t as int] == f.tokens[t as int]);
            if gr.loose {
                let stop = choose|stop: int| #[trigger]
                    token_to(g, gr, n, mid as int, f.tokens[t as int], stop);
                assert(token_to(g, gr, m, mid as int, h.tokens[t as int], stop));
            }
        }
        if p.right is Node {
            let e = g.rules[p.rule as int].expansion;
            lemma_at_grown(
                f,
                h,
                p.right,
                NodeKey::Sym(e[p.right_pos as int]),
                mid,
                stop_of(f, n, p),
            );
            assert(stop_of(h, m, p) == stop_of(f, n, p));
        }
    }
}

/// Whether the columns of `more` continue those of `gr`, on the same ground.
pub open spec fn more_cols(gr: Ground, more: Ground) -> bool {
    &&& more == with_cols(gr, more.cols)
    &&& gr.cols.len() <= more.cols.len()
    &&& forall|c: int, k: int|
        0 <= c < gr.cols.len() && 0 <= k < gr.cols[c].len() ==> k < more.cols[c].len()
            && #[trigger] gr.cols[c][k] == more.cols[c][k]
}

/// Columns with more items keep the shape.
pub proof fn lemma_cols_shape(
    g: earley_chart::Context,
    arena: Seq<Trans>,
    gr: Ground,
    more: Ground,
    f: earley_forest::ForestModel,
)
    requires
        in_shape(g, arena, gr, f),
        more_cols(gr, more),
    ensures
        in_shape(g, arena, more, f),
{
    assert forall|i: int, k: int|
        0 <= i < f.nodes.len() && 0 <= k < f.nodes[i].families.len() implies is_family(
        g,
        more,
        f,
        f.nodes[i],
        #[trigger] f.nodes[i].families[k],
    ) by {
        let p = f.nodes[i].families[k];
        let n = f.nodes[i];
        assert(is_family(g, gr, f, n, p));
        let mid = mid_of(f, n, p) as int;
        if let ForestRef::Tok(t) = p.right {
            if gr.loose {
                let stop = choose|stop: int| #[trigger]
                    token_to(g, gr, n, mid, f.tokens[t as int], stop);
                assert(token_to(g, more, n, mid, f.tokens[t as int], stop));
            }
        }
        if p.right is Node && mid < stop_of(f, n, p) {
            let x = mark(p.rule, p.right_pos, n.start);
            let q = choose|q: int|
                0 <= q < gr.cols[mid].len() && earley_chart::same_item(
                    #[trigger] gr.cols[mid][q],
                    x,
                );
            assert(gr.cols[mid][q] == more.cols[mid][q]);
            assert(earley_chart::same_item(more.cols[mid][q], x));
        }
    }
    assert forall|i: int, k: int|
        0 <= i < f.nodes.len() && 0 <= k < f.nodes[i].paths.len() implies is_path(
        g,
        more,
        arena,
        f,
        f.nodes[i],
        #[trigger] f.nodes[i].paths[k],
    ) by {
        assert(is_path(g, gr, arena, f, f.nodes[i], f.nodes[i].paths[k]));
    }
    assert forall|i: int| 0 <= i < f.nodes.len() implies label_ok(
        g,
        more,
        (#[trigger] f.nodes[i]).key,
        f.nodes[i].start,
        f.nodes[i].end,
    ) by {
        assert(label_ok(g, gr, f.nodes[i].key, f.nodes[i].start, f.nodes[i].end));
    }
}

/// A cut chain stays one of its node.
pub proof fn lemma_path_grown(
    g: earley_chart::Context,
    gr: Ground,
    arena: Seq<Trans>,
    f: earley_forest::ForestModel,
    h: earley_forest::ForestModel,
    n: earley_forest::NodeModel,
    m: earley_forest::NodeModel,
    path: (usize, ForestRef, usize),
)
    requires
        earley_forest::extends(f, h),
        is_path(g, gr, arena, f, n, path),
        earley_forest::labelled(m, n.key, n.start, n.end),
    ensures
        is_path(g, gr, arena, h, m, path),
{
    let x = arena[path.0 as int];
    lemma_at_grown(f, h, path.1, NodeKey::Sym(x.recognized), x.key_start, path.2);
}

/// Getting a node keeps the shape; a new node still lacks a family.
pub proof fn lemma_got_shape(
    g: earley_chart::Context,
    arena: Seq<Trans>,
    gr: Ground,
    f: earley_forest::ForestModel,
    key: NodeKey,
    start: usize,
    end: usize,
)
    requires
        in_shape(g, arena, gr, f),
        label_ok(g, gr, key, start, end),
    ensures
        ({
            let (h, id) = earley_forest::got(f, key, start, end);
            &&& in_shape(g, arena, gr, h)
            &&& grown(f, h)
            &&& 0 <= id < h.nodes.len()
            &&& earley_forest::labelled(h.nodes[id], key, start, end)
            &&& if id < f.nodes.len() {
                h == f
            } else {
                id == f.nodes.len() && h.nodes.len() == id + 1
            }
            &&& h.tokens == f.tokens
        }),
{
    let (h, id) = earley_forest::got(f, key, start, end);
    earley_forest::lemma_find_node(f.nodes, key, start, end, 0);
    lemma_grown_self(f);
    if id == f.nodes.len() {
        assert forall|i: int| 0 <= i < f.nodes.len() implies h.nodes[i] == f.nodes[i] by {}
        assert(earley_forest::extends(f, h));
        assert forall|i: int, k: int|
            0 <= i < h.nodes.len() && 0 <= k < h.nodes[i].families.len() implies is_family(
            g,
            gr,
            h,
            h.nodes[i],
            #[trigger] h.nodes[i].families[k],
        ) by {
            let p = f.nodes[i].families[k];
            lemma_family_grown(g, gr, f, h, f.nodes[i], h.nodes[i], p);
        }
        assert forall|i: int, k: int|
            0 <= i < h.nodes.len() && 0 <= k < h.nodes[i].paths.len() implies is_path(
            g,
            gr,
            arena,
            h,
            h.nodes[i],
            #[trigger] h.nodes[i].paths[k],
        ) by {
            let p = f.nodes[i].paths[k];
            lemma_path_grown(g, gr, arena, f, h, f.nodes[i], h.nodes[i], p);
        }
        assert forall|i: int, j: int|
            0 <= i < j < h.nodes.len() implies !earley_forest::labelled(
            #[trigger] h.nodes[j],
            (#[trigger] h.nodes[i]).key,
            h.nodes[i].start,
            h.nodes[i].end,
        ) by {
            if j == f.nodes.len() {
                assert(!earley_forest::labelled(f.nodes[i], key, start, end));
            } else {
                assert(!earley_forest::labelled(
                    f.nodes[j],
                    f.nodes[i].key,
                    f.nodes[i].start,
                    f.nodes[i].end,
                ));
            }
        }
        assert forall|i: int, k: int|
            0 <= i < f.nodes.len() && 0 <= k
                < f.nodes[i].families.len() implies earley_forest::has_pair(
            h.nodes[i].families,
            (#[trigger] f.nodes[i].families[k]).left,
            f.nodes[i].families[k].right,
        ) by {
            assert(h.nodes[i] == f.nodes[i]);
            assert(f.nodes[i].families[k].left == f.nodes[i].families[k].left);
        }
        assert forall|i: int| 0 <= i < h.nodes.len() implies ((#[trigger] h.nodes[i]).eps matches Some(
            (k, _),
        ) ==> k < h.nodes[i].families.len() && h.nodes[i].families[k as int].left is Nothing
            && h.nodes[i].families[k as int].right is Nothing) by {
            if i < f.nodes.len() {
                assert(h.nodes[i] == f.nodes[i]);
            }
        }
        assert forall|i: int| 0 <= i < h.nodes.len() implies label_ok(
            g,
            gr,
            (#[trigger] h.nodes[i]).key,
            h.nodes[i].start,
            h.nodes[i].end,
        ) by {
            if i < f.nodes.len() {
                assert(h.nodes[i] == f.nodes[i]);
            }
        }
    }
}

/// The families of a node with one more.
proof fn lemma_with_family(n: earley_forest::NodeModel, p: Packed, order: usize)
    requires
        n.eps matches Some((k, _)) ==> k < n.families.len() && n.families[k as int].left is Nothing
            && n.families[k as int].right is Nothing,
        earley_forest::with_family(n, p, order).families.len() <= usize::MAX,
    ensures
        ({
            let m = earley_forest::with_family(n, p, order);
            &&& m.families.len() >= n.families.len()
            &&& earley_forest::labelled(m, n.key, n.start, n.end)
            &&& m.paths == n.paths
            &&& m.families.len() > 0
            &&& earley_forest::has_pair(m.families, p.left, p.right)
            &&& m.eps matches Some((k, _)) ==> k < m.families.len()
                && m.families[k as int].left is Nothing && m.families[k as int].right is Nothing
            &&& forall|k: int|
                0 <= k < m.families.len() ==> #[trigger] m.families[k] == p || (k
                    < n.families.len() && m.families[k] == n.families[k])
            &&& forall|k: int|
                0 <= k < n.families.len() ==> earley_forest::has_pair(
                    m.families,
                    (#[trigger] n.families[k]).left,
                    n.families[k].right,
                )
        }),
{
    let m = earley_forest::with_family(n, p, order);
    if p.left == ForestRef::Nothing && p.right == ForestRef::Nothing {
        match n.eps {
            None => {
                assert(m.families[n.families.len() as int] == p);
            },
            Some((k, _best)) => {
                assert(m.families[k as int].left is Nothing);
            },
        }
    } else if !earley_forest::has_pair(n.families, p.left, p.right) {
        assert(m.families[n.families.len() as int] == p);
    }
    assert forall|k: int| 0 <= k < n.families.len() implies earley_forest::has_pair(
        m.families,
        (#[trigger] n.families[k]).left,
        n.families[k].right,
    ) by {
        assert(m.families[k].left == n.families[k].left);
    }
}

/// Adding a family of a node keeps the shape, and the node can be derived.
pub proof fn lemma_family_shape(
    g: earley_chart::Context,
    arena: Seq<Trans>,
    gr: Ground,
    f: earley_forest::ForestModel,
    id: int,
    p: Packed,
    order: usize,
)
    requires
        0 <= id < f.nodes.len(),
        in_shape(g, arena, gr, f),
        is_family(g, gr, f, f.nodes[id], p),
        within_limits(earley_forest::family_added(f, id, p, order)),
    ensures
        ({
            let h = earley_forest::family_added(f, id, p, order);
            &&& in_shape(g, arena, gr, h)
            &&& grown(f, h)
            &&& h.nodes.len() == f.nodes.len()
            &&& earley_forest::has_pair(h.nodes[id].families, p.left, p.right)
            &&& h.tokens == f.tokens
        }),
{
    let h = earley_forest::family_added(f, id, p, order);
    let n = f.nodes[id];
    assert(h.nodes[id].families.len() <= usize::MAX);
    lemma_with_family(n, p, order);
    assert(earley_forest::extends(f, h));
    assert forall|i: int, k: int|
        0 <= i < h.nodes.len() && 0 <= k < h.nodes[i].families.len() implies is_family(
        g,
        gr,
        h,
        h.nodes[i],
        #[trigger] h.nodes[i].families[k],
    ) by {
        let q = h.nodes[i].families[k];
        if i == id && q == p {
            lemma_family_grown(g, gr, f, h, n, h.nodes[i], p);
        } else {
            assert(q == f.nodes[i].families[k]);
            lemma_family_grown(g, gr, f, h, f.nodes[i], h.nodes[i], f.nodes[i].families[k]);
        }
    }
    assert forall|i: int, k: int|
        0 <= i < h.nodes.len() && 0 <= k < h.nodes[i].paths.len() implies is_path(
        g,
        gr,
        arena,
        h,
        h.nodes[i],
        #[trigger] h.nodes[i].paths[k],
    ) by {
        lemma_path_grown(g, gr, arena, f, h, f.nodes[i], h.nodes[i], f.nodes[i].paths[k]);
    }
    assert forall|i: int, j: int|
        0 <= i < j < h.nodes.len() implies !earley_forest::labelled(
        #[trigger] h.nodes[j],
        (#[trigger] h.nodes[i]).key,
        h.nodes[i].start,
        h.nodes[i].end,
    ) by {
        assert(!earley_forest::labelled(
            f.nodes[j],
            f.nodes[i].key,
            f.nodes[i].start,
            f.nodes[i].end,
        ));
    }
    assert forall|i: int| 0 <= i < h.nodes.len() implies ((#[trigger] h.nodes[i]).eps matches Some(
        (k, _),
    ) ==> k < h.nodes[i].families.len() && h.nodes[i].families[k as int].left is Nothing
        && h.nodes[i].families[k as int].right is Nothing) by {
        if i != id {
            assert(h.nodes[i] == f.nodes[i]);
        }
    }
    assert forall|i: int, k: int|
        0 <= i < f.nodes.len() && 0 <= k
            < f.nodes[i].families.len() implies earley_forest::has_pair(
        h.nodes[i].families,
        (#[trigger] f.nodes[i].families[k]).left,
        f.nodes[i].families[k].right,
    ) by {
        if i != id {
            assert(h.nodes[i] == f.nodes[i]);
            assert(f.nodes[i].families[k].left == f.nodes[i].families[k].left);
        }
    }
    assert forall|i: int| 0 <= i < h.nodes.len() implies label_ok(
        g,
        gr,
        (#[trigger] h.nodes[i]).key,
        h.nodes[i].start,
        h.nodes[i].end,
    ) by {
        let o = f.nodes[i];
        assert(label_ok(g, gr, o.key, o.start, o.end));
    }
}

/// Adding a cut chain of a node keeps the shape, and the node can be derived.
pub proof fn lemma_path_shape(
    g: earley_chart::Context,
    arena: Seq<Trans>,
    gr: Ground,
    f: earley_forest::ForestModel,
    id: int,
    path: (usize, ForestRef, usize),
)
    requires
        0 <= id < f.nodes.len(),
        in_shape(g, arena, gr, f),
        is_path(g, gr, arena, f, f.nodes[id], path),
    ensures
        in_shape(g, arena, gr, earley_forest::path_added(f, id, path)),
        grown(f, earley_forest::path_added(f, id, path)),
{
    let h = earley_forest::path_added(f, id, path);
    let n = f.nodes[id];
    assert(earley_forest::extends(f, h));
    assert forall|i: int, k: int|
        0 <= i < h.nodes.len() && 0 <= k < h.nodes[i].families.len() implies is_family(
        g,
        gr,
        h,
        h.nodes[i],
        #[trigger] h.nodes[i].families[k],
    ) by {
        lemma_family_grown(g, gr, f, h, f.nodes[i], h.nodes[i], f.nodes[i].families[k]);
    }
    assert forall|i: int, k: int|
        0 <= i < h.nodes.len() && 0 <= k < h.nodes[i].paths.len() implies is_path(
        g,
        gr,
        arena,
        h,
        h.nodes[i],
        #[trigger] h.nodes[i].paths[k],
    ) by {
        if i == id && k == n.paths.len() {
            lemma_path_grown(g, gr, arena, f, h, n, h.nodes[i], path);
        } else {
            lemma_path_grown(g, gr, arena, f, h, f.nodes[i], h.nodes[i], f.nodes[i].paths[k]);
        }
    }
    assert forall|i: int, j: int|
        0 <= i < j < h.nodes.len() implies !earley_forest::labelled(
        #[trigger] h.nodes[j],
        (#[trigger] h.nodes[i]).key,
        h.nodes[i].start,
        h.nodes[i].end,
    ) by {
        assert(!earley_forest::labelled(
            f.nodes[j],
            f.nodes[i].key,
            f.nodes[i].start,
            f.nodes[i].end,
        ));
    }
    assert forall|i: int| 0 <= i < h.nodes.len() implies ((#[trigger] h.nodes[i]).eps matches Some(
        (k, _),
    ) ==> k < h.nodes[i].families.len() && h.nodes[i].families[k as int].left is Nothing
        && h.nodes[i].families[k as int].right is Nothing) by {
        assert(h.nodes[i].families == f.nodes[i].families && h.nodes[i].eps == f.nodes[i].eps);
    }
    assert forall|i: int, k: int|
        0 <= i < f.nodes.len() && 0 <= k
            < f.nodes[i].families.len() implies earley_forest::has_pair(
        h.nodes[i].families,
        (#[trigger] f.nodes[i].families[k]).left,
        f.nodes[i].families[k].right,
    ) by {
        assert(h.nodes[i].families[k].left == f.nodes[i].families[k].left);
    }
    assert forall|i: int| 0 <= i < h.nodes.len() implies label_ok(
        g,
        gr,
        (#[trigger] h.nodes[i]).key,
        h.nodes[i].start,
        h.nodes[i].end,
    ) by {
        let o = f.nodes[i];
        assert(label_ok(g, gr, o.key, o.start, o.end));
    }
}

/// The label of a node is in order where those of the parts of its family are.
proof fn lemma_family_label(
    g: earley_chart::Context,
    gr: Ground,
    f: earley_forest::ForestModel,
    n: earley_forest::NodeModel,
    p: Packed,
)
    requires
        earley_chart::context_ok(g),
        flags_closed(g),
        labels_ok(g, gr, f),
        is_family(g, gr, f, n, p),
    ensures
        label_ok(g, gr, n.key, n.start, n.end),
{
    let rule = g.rules[p.rule as int];
    let e = rule.expansion;
    let mid = mid_of(f, n, p);
    assert(rule.origin.ix() >= g.nt && e.len() <= usize::MAX);
    if p.right is Node {
        let c = p.right->Node_0 as int;
        assert(label_ok(g, gr, f.nodes[c].key, f.nodes[c].start, f.nodes[c].end));
    }
    if p.left is Node {
        let l = p.left->Node_0 as int;
        assert(label_ok(g, gr, f.nodes[l].key, f.nodes[l].start, f.nodes[l].end));
    }
    if n.start == n.end {
        if !(p.right is Nothing) {
            assert(g.nullable[e[p.right_pos as int].ix() as int]);
            if p.right_pos > 0 {
                assert(start_flagged(g, p.rule, p.right_pos as int));
            }
            assert(start_flagged(g, p.rule, p.right_pos + 1));
        }
        if n.key is Sym {
            assert(earley_paths::all_flagged(g.nullable, e));
        }
    } else if p.right is Nothing {
        assert(earley_paths::all_flagged(g.nullable, e));
    } else {
        let s = e[p.right_pos as int];
        assert(g.rules[p.rule as int].expansion[p.right_pos as int].ix() < g.n);
        if s.ix() < g.nt {
            analysis::lemma_terminal_grows(g.rules, g.nt, s);
        }
        let front = start_grows(g, p.rule, p.right_pos as int);
        let last = analysis::grows(g.rules, g.nt, s);
        assert(front || start_flagged(g, p.rule, p.right_pos as int));
        assert(last || g.nullable[s.ix() as int]);
        if front || last {
            lemma_start_grows(g, p.rule, p.right_pos as int, front, last);
            if n.key is Sym {
                assert(e.take(e.len() as int) =~= e);
                analysis::lemma_rule_grows(g.rules, g.nt, p.rule as int);
            }
        } else {
            assert(start_flagged(g, p.rule, p.right_pos + 1));
            if n.key is Sym {
                assert(earley_paths::all_flagged(g.nullable, e));
            }
        }
    }
}

/// The first symbols of a rule grow where those before the last of them or that
/// last one do, and the others derive nothing.
pub proof fn lemma_start_grows(
    g: earley_chart::Context,
    rule: usize,
    d: int,
    front: bool,
    last: bool,
)
    requires
        earley_chart::context_ok(g),
        flags_closed(g),
        rule < g.rules.len(),
        0 <= d < g.rules[rule as int].expansion.len(),
        front || last,
        if front {
            start_grows(g, rule, d)
        } else {
            start_flagged(g, rule, d)
        },
        if last {
            analysis::grows(g.rules, g.nt, g.rules[rule as int].expansion[d])
        } else {
            g.nullable[g.rules[rule as int].expansion[d].ix() as int]
        },
    ensures
        start_grows(g, rule, d + 1),
{
    let e = g.rules[rule as int].expansion;
    let s = e[d];
    assert(g.rules[rule as int].expansion[d].ix() < g.n);
    let u = if front {
        choose|u: Seq<SymbolId>|
            u.len() > 0 && #[trigger] analysis::derives_all(g.rules, g.nt, e.take(d), u)
    } else {
        lemma_start_empty(g, rule, d);
        Seq::empty()
    };
    let v = if last {
        choose|v: Seq<SymbolId>| v.len() > 0 && #[trigger] analysis::derives(g.rules, g.nt, s, v)
    } else {
        Seq::empty()
    };
    analysis::lemma_derives_push(g.rules, g.nt, e.take(d), u, s, v);
    assert(e.take(d).push(s) =~= e.take(d + 1));
    assert((u + v).len() > 0);
}

/// The first symbols of a rule derive the empty string where they are flagged to.
proof fn lemma_start_empty(g: earley_chart::Context, rule: usize, d: int)
    requires
        earley_chart::context_ok(g),
        flags_closed(g),
        rule < g.rules.len(),
        0 <= d <= g.rules[rule as int].expansion.len(),
        start_flagged(g, rule, d),
    ensures
        analysis::derives_all(
            g.rules,
            g.nt,
            g.rules[rule as int].expansion.take(d),
            Seq::empty(),
        ),
{
    let e = g.rules[rule as int].expansion;
    assert forall|j: int| 0 <= j < e.take(d).len() implies analysis::nullable(
        g.rules,
        g.nt,
        #[trigger] e.take(d)[j],
    ) by {
        assert(g.rules[rule as int].expansion[j].ix() < g.n);
        assert(g.nullable[e[j].ix() as int]);
    }
    analysis::lemma_all_nullable_derives(g.rules, g.nt, e.take(d));
}

/// Getting a node and adding a family to it keeps the shape.
pub proof fn lemma_entry_shape(
    g: earley_chart::Context,
    arena: Seq<Trans>,
    gr: Ground,
    f: earley_forest::ForestModel,
    key: NodeKey,
    start: usize,
    end: usize,
    p: Packed,
    order: usize,
)
    requires
        earley_chart::context_ok(g),
        flags_closed(g),
        in_shape(g, arena, gr, f),
        is_family(g, gr, f, earley_forest::bare_node(key, start, end), p),
        within_limits(
            earley_forest::family_added(
                earley_forest::got(f, key, start, end).0,
                earley_forest::got(f, key, start, end).1,
                p,
                order,
            ),
        ),
    ensures
        ({
            let (h, id) = earley_forest::got(f, key, start, end);
            let w = earley_forest::family_added(h, id, p, order);
            &&& in_shape(g, arena, gr, w)
            &&& grown(f, w)
            &&& 0 <= id < w.nodes.len()
            &&& earley_forest::labelled(w.nodes[id], key, start, end)
            &&& earley_forest::has_pair(w.nodes[id].families, p.left, p.right)
            &&& w.nodes.len() == if id < f.nodes.len() {
                f.nodes.len() as int
            } else {
                id + 1
            }
            &&& id <= f.nodes.len()
            &&& w.tokens == f.tokens
        }),
{
    lemma_family_label(g, gr, f, earley_forest::bare_node(key, start, end), p);
    let (h, id) = earley_forest::got(f, key, start, end);
    lemma_got_shape(g, arena, gr, f, key, start, end);
    lemma_family_grown(g, gr, f, h, earley_forest::bare_node(key, start, end), h.nodes[id], p);
    lemma_family_shape(g, arena, gr, h, id, p, order);
    lemma_grown_trans(f, h, earley_forest::family_added(h, id, p, order));
}

/// Whether `h` has no fewer nodes, and no node fewer families, than `f`, and the
/// same tokens.
pub open spec fn sizes_le(f: earley_forest::ForestModel, h: earley_forest::ForestModel) -> bool {
    &&& f.tokens == h.tokens
    &&& f.nodes.len() <= h.nodes.len()
    &&& families_kept(f, h)
}

/// A forest that is no larger is within the same limits.
pub proof fn lemma_sizes_limits(f: earley_forest::ForestModel, h: earley_forest::ForestModel)
    requires
        sizes_le(f, h),
        within_limits(h),
    ensures
        within_limits(f),
{
    assert forall|i: int| 0 <= i < f.nodes.len() implies (#[trigger] f.nodes[i]).families.len()
        <= usize::MAX by {
        assert(h.nodes[i].families.len() <= usize::MAX);
    }
}

/// Getting a node takes nothing away.
pub proof fn lemma_got_sizes(
    f: earley_forest::ForestModel,
    key: NodeKey,
    start: usize,
    end: usize,
)
    ensures
        sizes_le(f, earley_forest::got(f, key, start, end).0),
        0 <= earley_forest::got(f, key, start, end).1 < earley_forest::got(
            f,
            key,
            start,
            end,
        ).0.nodes.len(),
{
    earley_forest::lemma_find_node(f.nodes, key, start, end, 0);
}

/// Adding a family takes nothing away.
pub proof fn lemma_family_sizes(f: earley_forest::ForestModel, id: int, p: Packed, order: usize)
    requires
        0 <= id < f.nodes.len(),
    ensures
        sizes_le(f, earley_forest::family_added(f, id, p, order)),
{
}

/// Whether `h` is `f` with more nodes and families, but no more cut chains.
pub open spec fn only_families(
    f: earley_forest::ForestModel,
    h: earley_forest::ForestModel,
) -> bool {
    &&& sizes_le(f, h)
    &&& forall|x: int|
        0 <= x < h.nodes.len() ==> (#[trigger] h.nodes[x]).paths == if x < f.nodes.len() {
            f.nodes[x].paths
        } else {
            Seq::empty()
        }
    &&& forall|x: int|
        0 <= x < f.nodes.len() ==> earley_forest::labelled(
            #[trigger] h.nodes[x],
            f.nodes[x].key,
            f.nodes[x].start,
            f.nodes[x].end,
        )
}

/// Whether the nodes that `h` has beyond `f` end at `e` at most.
pub open spec fn new_to(
    f: earley_forest::ForestModel,
    h: earley_forest::ForestModel,
    e: usize,
) -> bool {
    forall|x: int| f.nodes.len() <= x < h.nodes.len() ==> (#[trigger] h.nodes[x]).end <= e
}

/// More nodes and families, twice.
pub proof fn lemma_only_trans(
    f: earley_forest::ForestModel,
    h: earley_forest::ForestModel,
    w: earley_forest::ForestModel,
)
    requires
        only_families(f, h),
        only_families(h, w),
    ensures
        only_families(f, w),
        forall|e: usize| new_to(f, h, e) && new_to(h, w, e) ==> #[trigger] new_to(f, w, e),
{
    assert forall|e: usize| new_to(f, h, e) && new_to(h, w, e) implies #[trigger] new_to(
        f,
        w,
        e,
    ) by {
        assert forall|x: int| f.nodes.len() <= x < w.nodes.len() implies (
        #[trigger] w.nodes[x]).end <= e by {
            if x < h.nodes.len() {
                assert(h.nodes[x].end <= e);
            }
        }
    }
    assert forall|x: int| 0 <= x < f.nodes.len() implies earley_forest::labelled(
        #[trigger] w.nodes[x],
        f.nodes[x].key,
        f.nodes[x].start,
        f.nodes[x].end,
    ) by {
        assert(earley_forest::labelled(
            h.nodes[x],
            f.nodes[x].key,
            f.nodes[x].start,
            f.nodes[x].end,
        ));
    }
    assert forall|i: int| 0 <= i < f.nodes.len() implies (#[trigger] f.nodes[i]).families.len()
        <= w.nodes[i].families.len() by {
        assert(h.nodes[i].families.len() <= w.nodes[i].families.len());
    }
    assert forall|x: int| 0 <= x < w.nodes.len() implies (#[trigger] w.nodes[x]).paths == if x
        < f.nodes.len() {
        f.nodes[x].paths
    } else {
        Seq::empty()
    } by {
        if x < h.nodes.len() {
            assert(w.nodes[x].paths == h.nodes[x].paths);
        }
    }
}

/// Getting a node and adding a family to it adds no cut chain.
pub proof fn lemma_entry_only(
    f: earley_forest::ForestModel,
    key: NodeKey,
    start: usize,
    end: usize,
    p: Packed,
    order: usize,
)
    ensures
        ({
            let (h, id) = earley_forest::got(f, key, start, end);
            &&& only_families(f, h)
            &&& only_families(f, earley_forest::family_added(h, id, p, order))
            &&& 0 <= id < h.nodes.len()
            &&& new_to(f, h, end)
            &&& new_to(f, earley_forest::family_added(h, id, p, order), end)
        }),
{
    let (h, id) = earley_forest::got(f, key, start, end);
    earley_forest::lemma_find_node(f.nodes, key, start, end, 0);
    lemma_got_sizes(f, key, start, end);
    lemma_family_sizes(h, id, p, order);
    lemma_only_trans(f, h, earley_forest::family_added(h, id, p, order));
}

} // verus!
