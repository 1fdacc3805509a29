//! Filling in the parts of the forest that shortcuts left out.

use vstd::prelude::*;
use crate::bits;
use crate::bits::blank_row;
use crate::earley_chart;
use crate::earley_chart::EarleyParser;
use crate::earley_forest;
use crate::earley_forest::{Forest, ForestRef, NodeKey, Packed, Trans};
use crate::empty_values;
use crate::symbols::SymbolId;

verus! {

// ---------------------------------------------------------------------------
// Nodes that derive nothing

/// Whether every symbol of an expansion is flagged.
pub open spec fn all_flagged(flags: Seq<bool>, e: Seq<SymbolId>) -> bool {
    forall|j: int| 0 <= j < e.len() ==> flags[(#[trigger] e[j]).ix() as int]
}

/// The forest with a node for `sym` that derives nothing at column `col`, the
/// number of that node, and the symbols whose nodes have been begun.
pub open spec fn eps_made(
    g: earley_chart::Context,
    f: earley_forest::ForestModel,
    sym: SymbolId,
    col: usize,
    building: Seq<bool>,
    fuel: nat,
) -> (earley_forest::ForestModel, int, Seq<bool>)
    decreases fuel, 0nat, 0nat,
{
    let (f1, id) = earley_forest::got(f, NodeKey::Sym(sym), col, col);
    if f1.nodes[id].families.len() > 0 || sym.ix() >= building.len() || building[sym.ix() as int]
        || fuel == 0 {
        (f1, id, building)
    } else {
        let (f2, b2) = eps_rules(
            g,
            f1,
            sym,
            id,
            col,
            building.update(sym.ix() as int, true),
            g.rules.len(),
            (fuel - 1) as nat,
        );
        (f2, id, b2)
    }
}

/// The forest with the families by which the first `k` rules let `sym` derive
/// nothing.
pub open spec fn eps_rules(
    g: earley_chart::Context,
    f: earley_forest::ForestModel,
    sym: SymbolId,
    id: int,
    col: usize,
    building: Seq<bool>,
    k: nat,
    fuel: nat,
) -> (earley_forest::ForestModel, Seq<bool>)
    decreases fuel, 2nat, k,
{
    if k == 0 {
        (f, building)
    } else {
        let (f1, b1) = eps_rules(g, f, sym, id, col, building, (k - 1) as nat, fuel);
        let r = g.rules[k - 1];
        if r.origin != sym || !all_flagged(g.nullable, r.expansion) {
            (f1, b1)
        } else if r.expansion.len() == 0 {
            (
                earley_forest::family_added(
                    f1,
                    id,
                    Packed {
                        rule: (k - 1) as usize,
                        left: ForestRef::Nothing,
                        right: ForestRef::Nothing,
                        right_pos: 0,
                    },
                    r.order,
                ),
                b1,
            )
        } else {
            let (f2, left, b2) = eps_parts(
                g,
                f1,
                (k - 1) as usize,
                col,
                b1,
                r.expansion.len(),
                fuel,
            );
            (f2, b2)
        }
    }
}

/// The forest with nodes for the first `pos` symbols of a rule, all deriving
/// nothing, and what those symbols have derived together.
pub open spec fn eps_parts(
    g: earley_chart::Context,
    f: earley_forest::ForestModel,
    rule: usize,
    col: usize,
    building: Seq<bool>,
    pos: nat,
    fuel: nat,
) -> (earley_forest::ForestModel, ForestRef, Seq<bool>)
    decreases fuel, 1nat, pos,
{
    if pos == 0 {
        (f, ForestRef::Nothing, building)
    } else {
        let (f1, left, b1) = eps_parts(g, f, rule, col, building, (pos - 1) as nat, fuel);
        let (f2, child, b2) = eps_made(
            g,
            f1,
            g.rules[rule as int].expansion[pos - 1],
            col,
            b1,
            fuel,
        );
        let (f3, node) = earley_forest::got(f2, key_of(g, rule, pos as int), col, col);
        (
            earley_forest::family_added(
                f3,
                node,
                Packed {
                    rule,
                    left,
                    right: ForestRef::Node(child as usize),
                    right_pos: (pos - 1) as usize,
                },
                g.rules[rule as int].order,
            ),
            ForestRef::Node(node as usize),
            b2,
        )
    }
}

/// What a rule up to a position stands for.
pub open spec fn key_of(g: earley_chart::Context, rule: usize, dot: int) -> NodeKey {
    earley_chart::key_at(g, rule, dot)
}

// ---------------------------------------------------------------------------
// Chains

/// The links of a chain, from `t` upward.
pub open spec fn chain_of(arena: Seq<Trans>, t: int) -> Seq<usize>
    decreases t,
{
    if t < 0 {
        Seq::empty()
    } else {
        match arena[t].parent {
            Some(p) => if p < t {
                seq![t as usize] + chain_of(arena, p as int)
            } else {
                seq![t as usize]
            },
            None => seq![t as usize],
        }
    }
}

/// The forest with the symbols from position `from` to `pos` of a rule entered
/// after the node `prev`, all deriving nothing, and the node of the whole.
pub open spec fn tail_made(
    g: earley_chart::Context,
    f: earley_forest::ForestModel,
    rule: usize,
    origin: usize,
    end: usize,
    prev: int,
    from: nat,
    pos: nat,
) -> (earley_forest::ForestModel, int)
    decreases pos,
{
    if pos <= from {
        (f, prev)
    } else {
        let (f1, p1) = tail_made(g, f, rule, origin, end, prev, from, (pos - 1) as nat);
        let (f2, eps, _b) = eps_made(
            g,
            f1,
            g.rules[rule as int].expansion[pos - 1],
            end,
            Seq::new(g.n, |i: int| false),
            g.n + 1,
        );
        let (f3, next) = earley_forest::got(f2, key_of(g, rule, pos as int), origin, end);
        (
            earley_forest::family_added(
                f3,
                next,
                Packed {
                    rule,
                    left: ForestRef::Node(p1 as usize),
                    right: ForestRef::Node(eps as usize),
                    right_pos: (pos - 1) as usize,
                },
                g.rules[rule as int].order,
            ),
            next,
        )
    }
}

/// The forest with one link of a chain filled in.
pub open spec fn link_made(
    g: earley_chart::Context,
    f: earley_forest::ForestModel,
    x: Trans,
    end: usize,
) -> earley_forest::ForestModel {
    let (f1, prev) = earley_forest::got(
        f,
        key_of(g, x.red.rule, x.red.dot + 1),
        x.red.origin,
        end,
    );
    let (f2, right) = earley_forest::got(f1, NodeKey::Sym(x.recognized), x.key_start, end);
    let f3 = earley_forest::family_added(
        f2,
        prev,
        earley_chart::moved_family(x.red, ForestRef::Node(right as usize)),
        g.rules[x.red.rule as int].order,
    );
    tail_made(
        g,
        f3,
        x.red.rule,
        x.red.origin,
        end,
        prev,
        (x.red.dot + 1) as nat,
        g.rules[x.red.rule as int].expansion.len(),
    ).0
}

/// The forest with the links of a chain filled in, the last of the list first.
pub open spec fn chain_made(
    g: earley_chart::Context,
    f: earley_forest::ForestModel,
    arena: Seq<Trans>,
    chain: Seq<usize>,
    end: usize,
) -> earley_forest::ForestModel
    decreases chain.len(),
{
    if chain.len() == 0 {
        f
    } else {
        chain_made(
            g,
            link_made(g, f, arena[chain.last() as int], end),
            arena,
            chain.drop_last(),
            end,
        )
    }
}

/// The forest with the first `k` of the given chains filled in.
pub open spec fn paths_made(
    g: earley_chart::Context,
    f: earley_forest::ForestModel,
    arena: Seq<Trans>,
    paths: Seq<(usize, ForestRef, usize)>,
    k: nat,
) -> earley_forest::ForestModel
    decreases k,
{
    if k == 0 {
        f
    } else {
        let p = paths[k - 1];
        chain_made(
            g,
            paths_made(g, f, arena, paths, (k - 1) as nat),
            arena,
            chain_of(arena, p.0 as int),
            p.2,
        )
    }
}

/// The forest with the chains that were cut short at node `id` filled in.
pub open spec fn materialized(
    g: earley_chart::Context,
    f: earley_forest::ForestModel,
    arena: Seq<Trans>,
    id: int,
) -> earley_forest::ForestModel {
    let paths = f.nodes[id].paths;
    paths_made(g, earley_forest::paths_taken(f, id), arena, paths, paths.len())
}

// ---------------------------------------------------------------------------
// The whole forest

/// A forest on its way to being filled in: the nodes to visit, and those
/// visited.
pub ghost struct Loading {
    pub forest: earley_forest::ForestModel,
    pub stack: Seq<usize>,
    pub visited: Seq<usize>,
}

/// The nodes that the first `k` families lead to.
pub open spec fn children_of(families: Seq<Packed>, k: nat) -> Seq<usize>
    decreases k,
{
    if k == 0 {
        Seq::empty()
    } else {
        let p = families[k - 1];
        let head = children_of(families, (k - 1) as nat);
        let a = match p.left {
            ForestRef::Node(c) => head.push(c),
            _ => head,
        };
        match p.right {
            ForestRef::Node(c) => a.push(c),
            _ => a,
        }
    }
}

/// One visit.
pub open spec fn load_step(
    g: earley_chart::Context,
    arena: Seq<Trans>,
    s: Loading,
) -> Loading {
    let id = s.stack.last();
    if s.visited.contains(id) {
        Loading { stack: s.stack.drop_last(), ..s }
    } else {
        let f = materialized(g, s.forest, arena, id as int);
        let families = f.nodes[id as int].families;
        Loading {
            forest: f,
            stack: s.stack.drop_last() + children_of(families, families.len()),
            visited: s.visited.push(id),
        }
    }
}

/// The outcome of `k` visits.
pub open spec fn load_run(
    g: earley_chart::Context,
    arena: Seq<Trans>,
    s: Loading,
    k: nat,
) -> Loading
    decreases k,
{
    if k == 0 {
        s
    } else {
        load_step(g, arena, load_run(g, arena, s, (k - 1) as nat))
    }
}

/// Whether there is a node to visit.
pub open spec fn can_visit(s: Loading) -> bool {
    s.stack.len() > 0 && s.stack.last() < s.forest.nodes.len()
}

/// Whether `s` comes of `k` visits, each of which had a node to visit.
pub open spec fn load_reaches(
    g: earley_chart::Context,
    arena: Seq<Trans>,
    from: Loading,
    s: Loading,
    k: nat,
) -> bool {
    &&& load_run(g, arena, from, k) == s
    &&& forall|j: nat| j < k ==> can_visit(#[trigger] load_run(g, arena, from, j))
}

/// Whether `h` is the forest `f` with all that the node `root` leads to filled
/// in.
pub open spec fn loaded(
    g: earley_chart::Context,
    arena: Seq<Trans>,
    f: earley_forest::ForestModel,
    root: usize,
    h: earley_forest::ForestModel,
) -> bool {
    exists|k: nat, s: Loading|
        #[trigger] load_reaches(
            g,
            arena,
            Loading { forest: f, stack: seq![root], visited: Seq::empty() },
            s,
            k,
        ) && s.stack.len() == 0 && s.forest == h
}

/// Whether links are in order with respect to a forest.
pub open spec fn arena_ok(
    g: earley_chart::Context,
    f: earley_forest::ForestModel,
    arena: Seq<Trans>,
) -> bool {
    forall|t: int|
        0 <= t < arena.len() ==> {
            let x = #[trigger] arena[t];
            &&& x.red.rule < g.rules.len()
            &&& x.red.dot < g.rules[x.red.rule as int].expansion.len()
            &&& earley_forest::ref_ok(f, x.red.node)
            &&& match x.parent {
                Some(p) => p < t,
                None => true,
            }
        }
}

/// A larger forest keeps links in order.
pub proof fn lemma_arena_extends(
    g: earley_chart::Context,
    f: earley_forest::ForestModel,
    h: earley_forest::ForestModel,
    arena: Seq<Trans>,
)
    requires
        arena_ok(g, f, arena),
        earley_forest::extends(f, h),
    ensures
        arena_ok(g, h, arena),
{
    assert forall|t: int| 0 <= t < arena.len() implies ({
        let x = #[trigger] arena[t];
        &&& x.red.rule < g.rules.len()
        &&& x.red.dot < g.rules[x.red.rule as int].expansion.len()
        &&& earley_forest::ref_ok(h, x.red.node)
        &&& match x.parent {
            Some(p) => p < t,
            None => true,
        }
    }) by {
        earley_forest::lemma_ref_extends(f, h, arena[t].red.node);
    }
}

// ---------------------------------------------------------------------------
// Execution

impl EarleyParser {
    /// The node for the given label, and the same with a family added.
    fn put_family(
        &self,
        forest: &mut Forest,
        key: NodeKey,
        start: usize,
        end: usize,
        p: Packed,
        Ghost(n_trans): Ghost<nat>,
    ) -> (r: usize)
        requires
            p.rule < self.grammar.rules@.len(),
            earley_forest::forest_ok(old(forest)@, self.context().rules.len(), n_trans),
            earley_forest::packed_ok(old(forest)@, self.context().rules.len(), p),
        ensures
            ({
                let (f1, id) = earley_forest::got(old(forest)@, key, start, end);
                &&& r == id
                &&& final(forest)@ == earley_forest::family_added(
                    f1,
                    id,
                    p,
                    self.context().rules[p.rule as int].order,
                )
            }),
            r < final(forest)@.nodes.len(),
            earley_forest::forest_ok(final(forest)@, self.context().rules.len(), n_trans),
            earley_forest::extends(old(forest)@, final(forest)@),
    {
        let ghost f0 = forest@;
        let ghost n_rules = self.context().rules.len();
        proof {
            assert(self.context().rules[p.rule as int] == self.grammar.rules@[p.rule as int]@);
            earley_forest::lemma_got(f0, key, start, end, n_rules, n_trans);
        }
        let id = forest.get_or_create(key, start, end);
        let ghost f1 = forest@;
        proof {
            earley_forest::lemma_ref_extends(f0, f1, p.left);
            earley_forest::lemma_ref_extends(f0, f1, p.right);
            earley_forest::lemma_family_added(
                f1,
                id as int,
                p,
                self.context().rules[p.rule as int].order,
                n_rules,
                n_trans,
            );
        }
        forest.add_family(id, p, self.grammar.rules[p.rule].order);
        proof {
            earley_forest::lemma_extends_trans(f0, f1, forest@);
        }
        id
    }

    fn is_all_nullable(&self, rule: usize) -> (r: bool)
        requires
            earley_chart::context_ok(self.context()),
            rule < self.grammar.rules@.len(),
        ensures
            r == all_flagged(
                self.context().nullable,
                self.context().rules[rule as int].expansion,
            ),
    {
        let ghost g = self.context();
        let e = &self.grammar.rules[rule].expansion;
        proof {
            assert(g.rules[rule as int] == self.grammar.rules@[rule as int]@);
        }
        let mut j: usize = 0;
        while j < e.len()
            invariant
                j <= e@.len(),
                g == self.context(),
                earley_chart::context_ok(g),
                rule < g.rules.len(),
                g.rules[rule as int].expansion == e@,
                forall|q: int| 0 <= q < j ==> g.nullable[(#[trigger] e@[q]).ix() as int],
            decreases e.len() - j,
        {
            proof {
                assert(g.rules[rule as int].expansion[j as int].ix() < g.n);
            }
            if !self.nullable[e[j].index()] {
                proof {
                    assert(!g.nullable[e@[j as int].ix() as int]);
                }
                return false;
            }
            j = j + 1;
        }
        true
    }

    /// The node for `sym` that derives nothing at column `col`.
    #[verifier::rlimit(60)]
    pub(crate) fn eps_node(
        &self,
        forest: &mut Forest,
        sym: SymbolId,
        col: usize,
        building: &mut Vec<bool>,
        Ghost(fuel): Ghost<nat>,
        Ghost(n_trans): Ghost<nat>,
    ) -> (r: usize)
        requires
            earley_chart::context_ok(self.context()),
            sym.ix() < self.context().n,
            old(building)@.len() == self.context().n,
            bits::missing(old(building)@) < fuel,
            earley_forest::forest_ok(old(forest)@, self.context().rules.len(), n_trans),
        ensures
            (final(forest)@, r as int, final(building)@) == eps_made(
                self.context(),
                old(forest)@,
                sym,
                col,
                old(building)@,
                fuel,
            ),
            r < final(forest)@.nodes.len(),
            earley_forest::forest_ok(final(forest)@, self.context().rules.len(), n_trans),
            earley_forest::extends(old(forest)@, final(forest)@),
            bits::row_le(old(building)@, final(building)@),
        decreases fuel,
    {
        let ghost g = self.context();
        let ghost f0 = forest@;
        let ghost b0 = building@;
        let ghost n_rules = g.rules.len();
        proof {
            earley_forest::lemma_got(f0, NodeKey::Sym(sym), col, col, n_rules, n_trans);
        }
        let id = forest.get_or_create(NodeKey::Sym(sym), col, col);
        let ghost f1 = forest@;
        if forest.nodes[id].families.len() > 0 || building[sym.index()] {
            return id;
        }
        building.set(sym.index(), true);
        let ghost b1 = building@;
        let ghost less = (fuel - 1) as nat;
        proof {
            empty_values::lemma_visit(b0, sym.ix() as int);
            assert(b1 == b0.update(sym.ix() as int, true));
            assert(bits::row_le(b0, b1));
        }
        let n: usize = self.grammar.rules.len();
        let mut k: usize = 0;
        while k < n
            invariant
                k <= n,
                n == g.rules.len(),
                n_rules == g.rules.len(),
                g == self.context(),
                earley_chart::context_ok(g),
                sym.ix() < g.n,
                fuel > 0,
                less == fuel - 1,
                b1.len() == g.n,
                bits::missing(b1) < less,
                bits::row_le(b1, building@),
                id < f1.nodes.len(),
                earley_forest::forest_ok(forest@, n_rules, n_trans),
                earley_forest::extends(f1, forest@),
                (forest@, building@) == eps_rules(
                    g,
                    f1,
                    sym,
                    id as int,
                    col,
                    b1,
                    k as nat,
                    less,
                ),
            decreases n - k,
        {
            let ghost fk = forest@;
            let ghost bk = building@;
            proof {
                bits::lemma_missing_le(b1, bk);
                assert(g.rules[k as int] == self.grammar.rules@[k as int]@);
            }
            if self.grammar.rules[k].origin == sym && self.is_all_nullable(k) {
                let len: usize = self.grammar.rules[k].expansion.len();
                if len == 0 {
                    let p = Packed {
                        rule: k,
                        left: ForestRef::Nothing,
                        right: ForestRef::Nothing,
                        right_pos: 0,
                    };
                    proof {
                        earley_forest::lemma_family_added(
                            fk,
                            id as int,
                            p,
                            g.rules[k as int].order,
                            n_rules,
                            n_trans,
                        );
                        earley_forest::lemma_extends_trans(
                            f1,
                            fk,
                            earley_forest::family_added(
                                fk,
                                id as int,
                                p,
                                g.rules[k as int].order,
                            ),
                        );
                    }
                    forest.add_family(id, p, self.grammar.rules[k].order);
                } else {
                    let mut left = ForestRef::Nothing;
                    let mut pos: usize = 0;
                    while pos < len
                        invariant
                            pos <= len,
                            k < n,
                            n == g.rules.len(),
                            n_rules == g.rules.len(),
                            g == self.context(),
                            earley_chart::context_ok(g),
                            len == g.rules[k as int].expansion.len(),
                            g.rules[k as int] == self.grammar.rules@[k as int]@,
                            fuel > 0,
                            less == fuel - 1,
                            bk.len() == g.n,
                            bits::missing(bk) < less,
                            bits::row_le(bk, building@),
                            earley_forest::ref_ok(forest@, left),
                            earley_forest::forest_ok(forest@, n_rules, n_trans),
                            earley_forest::extends(fk, forest@),
                            (forest@, left, building@) == eps_parts(
                                g,
                                fk,
                                k,
                                col,
                                bk,
                                pos as nat,
                                less,
                            ),
                        decreases len - pos,
                    {
                        let ghost fp = forest@;
                        let s = self.grammar.rules[k].expansion[pos];
                        proof {
                            assert(g.rules[k as int].expansion[pos as int] == s);
                            assert(s.ix() < g.n);
                            bits::lemma_missing_le(bk, building@);
                        }
                        let ghost bp = building@;
                        let child = self.eps_node(
                            forest,
                            s,
                            col,
                            building,
                            Ghost(less),
                            Ghost(n_trans),
                        );
                        proof {
                            earley_forest::lemma_ref_extends(fp, forest@, left);
                            earley_forest::lemma_extends_trans(fk, fp, forest@);
                            lemma_row_le_trans(bk, bp, building@);
                        }
                        let ghost fc = forest@;
                        let key = self.node_key(k, pos + 1);
                        let node = self.put_family(
                            forest,
                            key,
                            col,
                            col,
                            Packed {
                                rule: k,
                                left,
                                right: ForestRef::Node(child),
                                right_pos: pos,
                            },
                            Ghost(n_trans),
                        );
                        proof {
                            earley_forest::lemma_extends_trans(fk, fc, forest@);
                        }
                        left = ForestRef::Node(node);
                        pos = pos + 1;
                    }
                    proof {
                        earley_forest::lemma_extends_trans(f1, fk, forest@);
                        lemma_row_le_trans(b1, bk, building@);
                    }
                }
            }
            k = k + 1;
        }
        proof {
            earley_forest::lemma_extends_trans(f0, f1, forest@);
            lemma_row_le_trans(b0, b1, building@);
        }
        id
    }

    /// Fills in one link of a chain.
    #[verifier::rlimit(40)]
    fn fill_link(
        &self,
        forest: &mut Forest,
        x: &Trans,
        end: usize,
        Ghost(n_trans): Ghost<nat>,
    )
        requires
            earley_chart::context_ok(self.context()),
            x.red.rule < self.context().rules.len(),
            x.red.dot < self.context().rules[x.red.rule as int].expansion.len(),
            earley_forest::ref_ok(old(forest)@, x.red.node),
            earley_forest::forest_ok(old(forest)@, self.context().rules.len(), n_trans),
        ensures
            final(forest)@ == link_made(self.context(), old(forest)@, *x, end),
            earley_forest::forest_ok(final(forest)@, self.context().rules.len(), n_trans),
            earley_forest::extends(old(forest)@, final(forest)@),
    {
        let ghost g = self.context();
        let ghost f0 = forest@;
        let ghost n_rules = g.rules.len();
        let rule: usize = x.red.rule;
        proof {
            assert(g.rules[rule as int] == self.grammar.rules@[rule as int]@);
        }
        let len: usize = self.grammar.rules[rule].expansion.len();
        let key = self.node_key(rule, x.red.dot + 1);
        proof {
            earley_forest::lemma_got(f0, key, x.red.origin, end, n_rules, n_trans);
        }
        let mut prev = forest.get_or_create(key, x.red.origin, end);
        let ghost f1 = forest@;
        proof {
            earley_forest::lemma_got(
                f1,
                NodeKey::Sym(x.recognized),
                x.key_start,
                end,
                n_rules,
                n_trans,
            );
        }
        let right = forest.get_or_create(NodeKey::Sym(x.recognized), x.key_start, end);
        let ghost f2 = forest@;
        let p = Packed {
            rule,
            left: x.red.node,
            right: ForestRef::Node(right),
            right_pos: x.red.dot,
        };
        proof {
            earley_forest::lemma_extends_trans(f0, f1, f2);
            earley_forest::lemma_ref_extends(f0, f2, x.red.node);
            earley_forest::lemma_family_added(
                f2,
                prev as int,
                p,
                g.rules[rule as int].order,
                n_rules,
                n_trans,
            );
        }
        forest.add_family(prev, p, self.grammar.rules[rule].order);
        let ghost f3 = forest@;
        let ghost prev0 = prev as int;
        proof {
            earley_forest::lemma_extends_trans(f0, f2, f3);
        }
        let from: usize = x.red.dot + 1;
        let mut pos: usize = from;
        while pos < len
            invariant
                from <= pos <= len,
                rule < g.rules.len(),
                n_rules == g.rules.len(),
                g == self.context(),
                earley_chart::context_ok(g),
                len == g.rules[rule as int].expansion.len(),
                g.rules[rule as int] == self.grammar.rules@[rule as int]@,
                prev < forest@.nodes.len(),
                earley_forest::forest_ok(forest@, n_rules, n_trans),
                earley_forest::extends(f0, forest@),
                (forest@, prev as int) == tail_made(
                    g,
                    f3,
                    rule,
                    x.red.origin,
                    end,
                    prev0,
                    from as nat,
                    pos as nat,
                ),
            decreases len - pos,
        {
            let ghost fp = forest@;
            let s = self.grammar.rules[rule].expansion[pos];
            proof {
                assert(g.rules[rule as int].expansion[pos as int] == s);
                assert(s.ix() < g.n);
            }
            let mut building = blank_row(self.grammar.symbols.len());
            proof {
                assert(building@ =~= Seq::new(g.n, |i: int| false));
                lemma_missing_bound(building@);
            }
            let eps = self.eps_node(
                forest,
                s,
                end,
                &mut building,
                Ghost((g.n + 1) as nat),
                Ghost(n_trans),
            );
            proof {
                earley_forest::lemma_extends_trans(f0, fp, forest@);
            }
            let ghost fe = forest@;
            let key = self.node_key(rule, pos + 1);
            let next = self.put_family(
                forest,
                key,
                x.red.origin,
                end,
                Packed {
                    rule,
                    left: ForestRef::Node(prev),
                    right: ForestRef::Node(eps),
                    right_pos: pos,
                },
                Ghost(n_trans),
            );
            proof {
                earley_forest::lemma_extends_trans(f0, fe, forest@);
            }
            prev = next;
            pos = pos + 1;
        }
    }

    /// Fills in the chains of completions that were cut short at a node.
    #[verifier::rlimit(40)]
    pub(crate) fn materialize_leo_paths(&self, forest: &mut Forest, arena: &Vec<Trans>, id: usize)
        requires
            earley_chart::context_ok(self.context()),
            id < old(forest)@.nodes.len(),
            arena_ok(self.context(), old(forest)@, arena@),
            earley_forest::forest_ok(old(forest)@, self.context().rules.len(), arena@.len()),
        ensures
            final(forest)@ == materialized(self.context(), old(forest)@, arena@, id as int),
            earley_forest::forest_ok(final(forest)@, self.context().rules.len(), arena@.len()),
            earley_forest::extends(old(forest)@, final(forest)@),
            arena_ok(self.context(), final(forest)@, arena@),
    {
        let ghost g = self.context();
        let ghost f0 = forest@;
        let ghost n_rules = g.rules.len();
        let ghost n_trans = arena@.len();
        proof {
            assert(earley_forest::paths_ok(n_trans, f0.nodes[id as int]));
            earley_forest::lemma_paths_taken(f0, id as int, n_rules, n_trans);
        }
        let paths = forest.take_paths(id);
        let ghost f1 = forest@;
        proof {
            lemma_arena_extends(g, f0, f1, arena@);
        }
        let mut k: usize = 0;
        while k < paths.len()
            invariant
                k <= paths@.len(),
                g == self.context(),
                earley_chart::context_ok(g),
                n_rules == g.rules.len(),
                n_trans == arena@.len(),
                forall|q: int| 0 <= q < paths@.len() ==> (#[trigger] paths@[q]).0 < n_trans,
                arena_ok(g, forest@, arena@),
                earley_forest::forest_ok(forest@, n_rules, n_trans),
                earley_forest::extends(f0, forest@),
                forest@ == paths_made(g, f1, arena@, paths@, k as nat),
            decreases paths.len() - k,
        {
            let ghost fk = forest@;
            let (t, _bottom, end) = paths[k];
            proof {
                assert(paths@[k as int].0 < n_trans);
            }
            let mut chain: Vec<usize> = Vec::new();
            let mut cur: usize = t;
            let mut more = true;
            let ghost whole = chain_of(arena@, t as int);
            proof {
                assert(chain@ + chain_of(arena@, cur as int) =~= whole);
            }
            while more
                invariant
                    g == self.context(),
                    arena_ok(g, fk, arena@),
                    more ==> cur < arena@.len(),
                    forall|q: int| 0 <= q < chain@.len() ==> #[trigger] chain@[q] < arena@.len(),
                    whole == (if more {
                        chain@ + chain_of(arena@, cur as int)
                    } else {
                        chain@
                    }),
                decreases cur, more as int,
            {
                let ghost before = chain@;
                chain.push(cur);
                proof {
                    assert(arena@[cur as int].parent is Some ==> arena@[cur as int].parent->0
                        < cur);
                    assert(chain@ =~= before + seq![cur]);
                }
                match arena[cur].parent {
                    Some(p) => {
                        proof {
                            assert(chain@ + chain_of(arena@, p as int) =~= before + chain_of(
                                arena@,
                                cur as int,
                            ));
                        }
                        cur = p;
                    },
                    None => {
                        more = false;
                    },
                }
            }
            let ghost goal = chain_made(g, fk, arena@, whole, end);
            while chain.len() > 0
                invariant
                    g == self.context(),
                    earley_chart::context_ok(g),
                    n_rules == g.rules.len(),
                    n_trans == arena@.len(),
                    forall|q: int| 0 <= q < chain@.len() ==> #[trigger] chain@[q] < arena@.len(),
                    arena_ok(g, forest@, arena@),
                    earley_forest::forest_ok(forest@, n_rules, n_trans),
                    earley_forest::extends(f0, forest@),
                    goal == chain_made(g, forest@, arena@, chain@, end),
                decreases chain.len(),
            {
                let ghost before = chain@;
                let ghost fc = forest@;
                let last: usize = chain.len() - 1;
                let t: usize = chain[last];
                chain.truncate(last);
                proof {
                    assert(chain@ =~= before.drop_last());
                    assert(before.last() == t);
                    assert(arena@[t as int].red.rule < g.rules.len());
                }
                self.fill_link(forest, &arena[t], end, Ghost(n_trans));
                proof {
                    lemma_arena_extends(g, fc, forest@, arena@);
                    earley_forest::lemma_extends_trans(f0, fc, forest@);
                }
            }
            k = k + 1;
        }
    }

    /// Fills in everything that a node leads to.
    #[verifier::rlimit(40)]
    pub(crate) fn load_leo_paths(&self, forest: &mut Forest, arena: &Vec<Trans>, root: usize)
        requires
            earley_chart::context_ok(self.context()),
            root < old(forest)@.nodes.len(),
            arena_ok(self.context(), old(forest)@, arena@),
            earley_forest::forest_ok(old(forest)@, self.context().rules.len(), arena@.len()),
        ensures
            loaded(self.context(), arena@, old(forest)@, root, final(forest)@),
            earley_forest::forest_ok(final(forest)@, self.context().rules.len(), arena@.len()),
            earley_forest::extends(old(forest)@, final(forest)@),
    {
        let ghost g = self.context();
        let ghost f0 = forest@;
        let ghost n_rules = g.rules.len();
        let ghost n_trans = arena@.len();
        let mut stack: Vec<usize> = Vec::new();
        stack.push(root);
        let mut visited: Vec<usize> = Vec::new();
        let ghost from = Loading { forest: f0, stack: seq![root], visited: Seq::empty() };
        let ghost mut steps: nat = 0;
        proof {
            assert(stack@ =~= seq![root]);
            assert(visited@ =~= Seq::empty());
            assert(load_reaches(
                g,
                arena@,
                from,
                Loading { forest: forest@, stack: stack@, visited: visited@ },
                0,
            ));
        }
        while stack.len() > 0
            invariant
                g == self.context(),
                earley_chart::context_ok(g),
                n_rules == g.rules.len(),
                n_trans == arena@.len(),
                arena_ok(g, forest@, arena@),
                earley_forest::forest_ok(forest@, n_rules, n_trans),
                earley_forest::extends(f0, forest@),
                forall|q: int| 0 <= q < stack@.len() ==> #[trigger] stack@[q] < forest@.nodes.len(),
                load_reaches(
                    g,
                    arena@,
                    from,
                    Loading { forest: forest@, stack: stack@, visited: visited@ },
                    steps,
                ),
            decreases usize::MAX - visited.len(), stack.len(),
        {
            let n_visited: usize = visited.len();
            let ghost s = Loading { forest: forest@, stack: stack@, visited: visited@ };
            let ghost fs = forest@;
            let last: usize = stack.len() - 1;
            let id: usize = stack[last];
            stack.truncate(last);
            proof {
                assert(stack@ =~= s.stack.drop_last());
                assert(s.stack.last() == id);
            }
            if !contains_size(&visited, id) {
                let ghost before = stack@;
                visited.push(id);
                self.materialize_leo_paths(forest, arena, id);
                proof {
                    earley_forest::lemma_extends_trans(f0, fs, forest@);
                    assert(earley_forest::families_ok(
                        forest@,
                        n_rules,
                        forest@.nodes[id as int],
                    ));
                }
                let ghost families = forest@.nodes[id as int].families;
                let n: usize = forest.nodes[id].families.len();
                let mut k: usize = 0;
                proof {
                    assert(before + children_of(families, 0) =~= before);
                }
                while k < n
                    invariant
                        k <= n,
                        n == families.len(),
                        id < forest@.nodes.len(),
                        families == forest@.nodes[id as int].families,
                        earley_forest::families_ok(forest@, n_rules, forest@.nodes[id as int]),
                        forall|q: int|
                            0 <= q < stack@.len() ==> #[trigger] stack@[q] < forest@.nodes.len(),
                        stack@ == before + children_of(families, k as nat),
                    decreases n - k,
                {
                    let p = forest.nodes[id].families[k];
                    let ghost bk = stack@;
                    let ghost head = children_of(families, k as nat);
                    proof {
                        assert(earley_forest::packed_ok(forest@, n_rules, families[k as int]));
                    }
                    if let ForestRef::Node(c) = p.left {
                        stack.push(c);
                        proof {
                            assert(stack@ =~= before + head.push(c));
                        }
                    }
                    let ghost mid = match p.left {
                        ForestRef::Node(c) => head.push(c),
                        _ => head,
                    };
                    if let ForestRef::Node(c) = p.right {
                        stack.push(c);
                        proof {
                            assert(stack@ =~= before + mid.push(c));
                        }
                    }
                    k = k + 1;
                }
            }
            proof {
                let t = Loading { forest: forest@, stack: stack@, visited: visited@ };
                assert(t == load_step(g, arena@, s));
                lemma_load_next(g, arena@, from, s, steps);
                steps = steps + 1;
            }
        }
    }
}

proof fn lemma_load_next(
    g: earley_chart::Context,
    arena: Seq<Trans>,
    from: Loading,
    s: Loading,
    k: nat,
)
    requires
        load_reaches(g, arena, from, s, k),
        can_visit(s),
    ensures
        load_reaches(g, arena, from, load_step(g, arena, s), k + 1),
{
    assert(((k + 1) - 1) as nat == k);
    assert forall|j: nat| j < k + 1 implies can_visit(#[trigger] load_run(g, arena, from, j)) by {
        if j == k {
        }
    }
}

proof fn lemma_row_le_trans(a: Seq<bool>, b: Seq<bool>, c: Seq<bool>)
    requires
        bits::row_le(a, b),
        bits::row_le(b, c),
    ensures
        bits::row_le(a, c),
{
    assert forall|i: int| 0 <= i < a.len() && a[i] implies #[trigger] c[i] by {
        assert(b[i]);
    }
}

/// No more flags are off than there are.
pub proof fn lemma_missing_bound(s: Seq<bool>)
    ensures
        bits::missing(s) <= s.len(),
    decreases s.len(),
{
    if s.len() > 0 {
        lemma_missing_bound(s.drop_last());
    }
}

fn contains_size(v: &Vec<usize>, x: usize) -> (r: bool)
    ensures
        r == v@.contains(x),
{
    let mut i: usize = 0;
    while i < v.len()
        invariant
            i <= v@.len(),
            forall|k: int| 0 <= k < i ==> #[trigger] v@[k] != x,
        decreases v.len() - i,
    {
        if v[i] == x {
            return true;
        }
        i = i + 1;
    }
    false
}

} // verus!
