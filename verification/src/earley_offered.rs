//! What a value that shows derivations offers: the values that are left where one
//! alternative is picked at every ambiguity node.

use vstd::prelude::*;
use crate::earley;
use crate::earley_rank;
use crate::earley_shown;
use crate::earley_tree;
use crate::symbols;
use crate::tree;
use crate::tree_builder;
use crate::value_key;

verus! {

/// Whether one of the values that are left of `v` is `x`, up to structure.
pub open spec fn offers(v: tree_builder::SlotModel, x: tree_builder::SlotModel) -> bool {
    exists|u: tree_builder::SlotModel| #[trigger]
        earley_shown::picked(false, v, u) && value_key::same_structure(u, x)
}

/// Whether values offer others, one by one.
pub open spec fn offers_all(
    vs: Seq<tree_builder::SlotModel>,
    xs: Seq<tree_builder::SlotModel>,
) -> bool {
    vs.len() == xs.len() && forall|i: int| 0 <= i < vs.len() ==> #[trigger] offers(vs[i], xs[i])
}

/// Whether one of some values offers `x`.
pub open spec fn is_offered(
    ds: Seq<tree_builder::SlotModel>,
    x: tree_builder::SlotModel,
) -> bool {
    exists|i: int| 0 <= i < ds.len() && #[trigger] offers(ds[i], x)
}

/// Whether one of some lists of values offers `xs`.
pub open spec fn are_offered(
    lists: Seq<Seq<tree_builder::SlotModel>>,
    xs: Seq<tree_builder::SlotModel>,
) -> bool {
    exists|i: int| 0 <= i < lists.len() && #[trigger] offers_all(lists[i], xs)
}

/// Nodes with the structure of one node have the same structure.
pub proof fn lemma_same_on(a: tree::Node, b: tree::Node, c: tree::Node)
    requires
        value_key::same_node(a, b),
        value_key::same_node(b, c),
    ensures
        value_key::same_node(a, c),
        value_key::same_node(b, a),
{
    let x = tree_builder::SlotModel::Value(a);
    let y = tree_builder::SlotModel::Value(b);
    let z = tree_builder::SlotModel::Value(c);
    assert(value_key::same_structure(x, y));
    assert(value_key::same_structure(y, z));
    value_key::keys_tell_values_apart(x, y);
    value_key::keys_tell_values_apart(y, x);
    value_key::keys_tell_values_apart(y, z);
    value_key::keys_tell_values_apart(x, z);
    assert(value_key::same_structure(x, z));
    assert(value_key::same_structure(y, x));
}

/// Whether one of the nodes that are left of `n` is `u`, up to structure.
pub open spec fn offers_node(n: tree::Node, u: tree::Node) -> bool {
    exists|r: tree::Node| #[trigger]
        earley_shown::picks(false, n, r) && value_key::same_node(r, u)
}

/// A node that is left of `n` and is `u`, up to structure, where there is one.
pub open spec fn offered_node(n: tree::Node, u: tree::Node) -> tree::Node {
    choose|r: tree::Node| #[trigger]
        earley_shown::picks(false, n, r) && value_key::same_node(r, u)
}

/// What is left of a node is left of one with its structure, up to structure.
proof fn lemma_picks_same(n: tree::Node, m: tree::Node, u: tree::Node) -> (r: tree::Node)
    requires
        value_key::same_node(n, m),
        earley_shown::picks(false, n, u),
    ensures
        earley_shown::picks(false, m, r),
        value_key::same_node(r, u),
    decreases n,
{
    match n {
        tree::Node::Token(t) => {
            earley_shown::lemma_node_alike(n);
            lemma_same_on(n, m, m);
            m
        },
        tree::Node::Absent => m,
        tree::Node::Tree { data, children, meta } => {
            let cs = m->children;
            if data == "_ambig"@ && children.len() > 0 {
                let i = choose|i: int|
                    0 <= i < children.len() && earley_shown::picks(
                        false,
                        #[trigger] children[i],
                        u,
                    );
                assert(value_key::same_node(children[i], cs[i]));
                let r = lemma_picks_same(children[i], cs[i], u);
                assert(earley_shown::picks(false, cs[i], r));
                r
            } else {
                assert forall|i: int| 0 <= i < children.len() implies #[trigger] offers_node(
                    cs[i],
                    u->children[i],
                ) by {
                    assert(value_key::same_node(children[i], cs[i]));
                    assert(earley_shown::picks(false, children[i], u->children[i]));
                    let r = lemma_picks_same(children[i], cs[i], u->children[i]);
                    assert(earley_shown::picks(false, cs[i], r));
                }
                let rs = Seq::new(
                    children.len(),
                    |i: int| offered_node(cs[i], u->children[i]),
                );
                let r = tree::Node::Tree { data, children: rs, meta };
                assert forall|i: int| 0 <= i < cs.len() implies earley_shown::picks(
                    false,
                    #[trigger] cs[i],
                    rs[i],
                ) && value_key::same_node(rs[i], u->children[i]) by {
                    assert(offers_node(cs[i], u->children[i]));
                }
                assert forall|i: int| 0 <= i < rs.len() implies value_key::same_node(
                    #[trigger] rs[i],
                    u->children[i],
                ) by {
                    assert(earley_shown::picks(false, cs[i], rs[i]));
                }
                r
            }
        },
    }
}

/// What a value offers is offered by one with its structure.
proof fn lemma_offers_same(
    v: tree_builder::SlotModel,
    d: tree_builder::SlotModel,
    x: tree_builder::SlotModel,
)
    requires
        value_key::same_structure(v, d),
        offers(v, x),
    ensures
        offers(d, x),
{
    let u = choose|u: tree_builder::SlotModel| #[trigger]
        earley_shown::picked(false, v, u) && value_key::same_structure(u, x);
    match v {
        tree_builder::SlotModel::Value(n) => {
            let y = choose|y: tree::Node| #[trigger]
                earley_shown::picks(false, n, y) && u == earley_tree::as_value(y);
            let z = lemma_picks_same(n, d->Value_0, y);
            let r = earley_tree::as_value(z);
            assert(earley_shown::picked(false, d, r));
            if y is Absent {
                assert(r->Inline_0 =~= u->Inline_0);
            } else {
                lemma_same_on(z, y, x->Value_0);
            }
            assert(value_key::same_structure(r, x));
        },
        tree_builder::SlotModel::Inline(ns) => {
            let ms = d->Inline_0;
            let us = u->Inline_0;
            let xs = x->Inline_0;
            assert forall|i: int| 0 <= i < ns.len() implies #[trigger] offers_node(
                ms[i],
                us[i],
            ) by {
                assert(value_key::same_node(ns[i], ms[i]));
                assert(earley_shown::picks(false, ns[i], us[i]));
                let r = lemma_picks_same(ns[i], ms[i], us[i]);
                assert(earley_shown::picks(false, ms[i], r));
            }
            let rs = Seq::new(ns.len(), |i: int| offered_node(ms[i], us[i]));
            assert forall|i: int| 0 <= i < ms.len() implies earley_shown::picks(
                false,
                #[trigger] ms[i],
                rs[i],
            ) && value_key::same_node(rs[i], us[i]) by {
                assert(offers_node(ms[i], us[i]));
            }
            let r = tree_builder::SlotModel::Inline(rs);
            assert(earley_shown::picks_all(false, ms, rs));
            assert(earley_shown::picked(false, d, r));
            assert forall|i: int| 0 <= i < rs.len() implies value_key::same_node(
                #[trigger] rs[i],
                xs[i],
            ) by {
                assert(earley_shown::picks(false, ms[i], rs[i]));
                assert(value_key::same_node(us[i], xs[i]));
                lemma_same_on(rs[i], us[i], xs[i]);
            }
            assert(value_key::same_structure(r, x));
        },
    }
}

/// A token offers itself.
pub proof fn lemma_token_offers(t: tree::TokenModel)
    ensures
        offers(
            tree_builder::SlotModel::Value(tree::Node::Token(t)),
            tree_builder::SlotModel::Value(tree::Node::Token(t)),
        ),
{
    let n = tree::Node::Token(t);
    let v = tree_builder::SlotModel::Value(n);
    assert(earley_shown::picks(false, n, n));
    assert(earley_shown::picked(false, v, v));
    earley_shown::lemma_node_alike(n);
    assert(value_key::same_structure(v, v));
}

// ---------------------------------------------------------------------------
// Lists of values

proof fn lemma_deduped_offers(
    ds: Seq<tree_builder::SlotModel>,
    v: tree_builder::SlotModel,
    x: tree_builder::SlotModel,
)
    ensures
        is_offered(ds, x) ==> is_offered(earley_tree::deduped(ds, v), x),
        offers(v, x) ==> is_offered(earley_tree::deduped(ds, v), x),
{
    let all = earley_tree::deduped(ds, v);
    if is_offered(ds, x) {
        let i = choose|i: int| 0 <= i < ds.len() && #[trigger] offers(ds[i], x);
        assert(all[i] == ds[i]);
        assert(offers(all[i], x));
    }
    if offers(v, x) {
        if earley_tree::key_among(ds, v) {
            let i = choose|i: int|
                0 <= i < ds.len() && value_key::value_key(#[trigger] ds[i])
                    == value_key::value_key(v);
            value_key::keys_tell_values_apart(v, ds[i]);
            lemma_offers_same(v, ds[i], x);
            assert(offers(all[i], x));
        } else {
            assert(all[ds.len() as int] == v);
            assert(offers(all[ds.len() as int], x));
        }
    }
}

proof fn lemma_alternatives_offer(
    ds: Seq<tree_builder::SlotModel>,
    ns: Seq<tree::Node>,
    k: nat,
    x: tree_builder::SlotModel,
)
    requires
        k <= ns.len(),
    ensures
        is_offered(ds, x) ==> is_offered(earley_tree::alternatives_added(ds, ns, k), x),
        forall|i: int|
            0 <= i < k && offers(earley_tree::as_value(#[trigger] ns[i]), x) ==> is_offered(
                earley_tree::alternatives_added(ds, ns, k),
                x,
            ),
    decreases k,
{
    if k > 0 {
        lemma_alternatives_offer(ds, ns, (k - 1) as nat, x);
        let before = earley_tree::alternatives_added(ds, ns, (k - 1) as nat);
        lemma_deduped_offers(before, earley_tree::as_value(ns[k - 1]), x);
    }
}

/// Values with the outcome of one more derivation offer what they and it offer.
proof fn lemma_outcome_offers(
    ds: Seq<tree_builder::SlotModel>,
    v: tree_builder::SlotModel,
    x: tree_builder::SlotModel,
)
    ensures
        is_offered(ds, x) ==> is_offered(earley_tree::outcome_added(ds, v), x),
        offers(v, x) ==> is_offered(earley_tree::outcome_added(ds, v), x),
{
    lemma_deduped_offers(ds, v, x);
    if let tree_builder::SlotModel::Value(n) = v {
        if n is Tree && n->data == "_ambig"@ && n->children.len() > 0 {
            let cs = n->children;
            lemma_alternatives_offer(ds, cs, cs.len(), x);
            if offers(v, x) {
                let u = choose|u: tree_builder::SlotModel| #[trigger]
                    earley_shown::picked(false, v, u) && value_key::same_structure(u, x);
                let y = choose|y: tree::Node| #[trigger]
                    earley_shown::picks(false, n, y) && u == earley_tree::as_value(y);
                let i = choose|i: int|
                    0 <= i < cs.len() && earley_shown::picks(false, #[trigger] cs[i], y);
                let a = earley_tree::as_value(cs[i]);
                assert(earley_shown::picked(false, a, u)) by {
                    if cs[i] is Absent {
                        assert(u->Inline_0 =~= seq![tree::Node::Absent]);
                        assert(earley_shown::picks_all(false, a->Inline_0, u->Inline_0));
                    }
                }
                assert(offers(earley_tree::as_value(cs[i]), x));
            }
        }
    }
}

/// Values with the outcomes of more derivations offer what they and those offer.
pub proof fn lemma_outcomes_offer(
    w: earley_rank::Walk,
    rule: int,
    ds: Seq<tree_builder::SlotModel>,
    lists: Seq<Seq<tree_builder::SlotModel>>,
    k: nat,
    x: tree_builder::SlotModel,
)
    requires
        k <= lists.len(),
    ensures
        is_offered(ds, x) ==> is_offered(
            earley_tree::outcomes_added(w, rule, ds, lists, k),
            x,
        ),
        forall|i: int|
            0 <= i < k && offers(
                tree_builder::assembled(w.rules[rule], w.pp, #[trigger] lists[i]),
                x,
            ) ==> is_offered(earley_tree::outcomes_added(w, rule, ds, lists, k), x),
    decreases k,
{
    if k > 0 {
        lemma_outcomes_offer(w, rule, ds, lists, (k - 1) as nat, x);
        let before = earley_tree::outcomes_added(w, rule, ds, lists, (k - 1) as nat);
        let v = tree_builder::assembled(w.rules[rule], w.pp, lists[k - 1]);
        lemma_outcome_offers(before, v, x);
    }
}

/// Derivations side by side offer what each of them offers.
pub proof fn lemma_side_by_side_offers(
    ds: Seq<tree_builder::SlotModel>,
    x: tree_builder::SlotModel,
)
    requires
        is_offered(ds, x),
        forall|i: int| 0 <= i < ds.len() ==> earley_shown::is_plain(#[trigger] ds[i]),
    ensures
        earley_tree::side_by_side(ds) matches Some(v) && offers(v, x),
{
    let i = choose|i: int| 0 <= i < ds.len() && #[trigger] offers(ds[i], x);
    if ds.len() > 1 {
        let v = earley_tree::side_by_side(ds)->0;
        let n = v->Value_0;
        let cs = n->children;
        let u = choose|u: tree_builder::SlotModel| #[trigger]
            earley_shown::picked(false, ds[i], u) && value_key::same_structure(u, x);
        assert(earley_shown::is_plain(ds[i]));
        assert(cs[i] == earley_tree::as_child(ds[i]));
        match ds[i] {
            tree_builder::SlotModel::Value(m) => {
                let y = choose|y: tree::Node| #[trigger]
                    earley_shown::picks(false, m, y) && u == earley_tree::as_value(y);
                assert(earley_shown::picks(false, cs[i], y));
                assert(earley_shown::picks(false, n, y));
            },
            tree_builder::SlotModel::Inline(ms) => {
                let y = tree::Node::Absent;
                assert(earley_shown::picks(false, ms[0], u->Inline_0[0]));
                assert(u->Inline_0 =~= seq![y]);
                assert(earley_shown::picks(false, cs[i], y));
                assert(earley_shown::picks(false, n, y));
                assert(u == earley_tree::as_value(y));
            },
        }
        assert(earley_shown::picked(false, v, u));
    }
}

/// The lists of what stands on the left with what stands on the right offer what
/// both offer.
pub proof fn lemma_combined_offer(
    lefts: Seq<Seq<tree_builder::SlotModel>>,
    rights: Seq<tree_builder::SlotModel>,
    k: nat,
    xs: Seq<tree_builder::SlotModel>,
    i: int,
)
    requires
        0 <= i < k <= lefts.len(),
        xs.len() > 0,
        offers_all(lefts[i], xs.drop_last()),
        is_offered(rights, xs.last()),
    ensures
        are_offered(earley_tree::combined(lefts, rights, k), xs),
    decreases k,
{
    let all = earley_tree::combined(lefts, rights, k);
    let before = earley_tree::combined(lefts, rights, (k - 1) as nat);
    if i < k - 1 {
        lemma_combined_offer(lefts, rights, (k - 1) as nat, xs, i);
        let q = choose|q: int| 0 <= q < before.len() && #[trigger] offers_all(before[q], xs);
        assert(all[q] == before[q]);
        assert(offers_all(all[q], xs));
    } else {
        let j = choose|j: int| 0 <= j < rights.len() && #[trigger] offers(rights[j], xs.last());
        let q = before.len() + j;
        let vs = lefts[k - 1].push(rights[j]);
        assert(all[q] == vs);
        assert(offers_all(vs, xs)) by {
            assert forall|z: int| 0 <= z < vs.len() implies #[trigger] offers(vs[z], xs[z]) by {
                if z < vs.len() - 1 {
                    assert(offers(lefts[i][z], xs.drop_last()[z]));
                }
            }
        }
        assert(offers_all(all[q], xs));
    }
}

// ---------------------------------------------------------------------------
// Rules

/// What is left of values is left of the children of a rule.
proof fn lemma_kept_offers(
    rule: symbols::RuleModel,
    vs: Seq<tree_builder::SlotModel>,
    us: Seq<tree_builder::SlotModel>,
)
    requires
        earley_shown::slots_fit(false, rule, vs),
        earley_shown::picked_all(false, vs, us),
    ensures
        earley_shown::picks_all(
            false,
            tree_builder::kept_children(rule, vs),
            tree_builder::kept_children(rule, us),
        ),
    decreases vs.len(),
{
    if vs.len() > 0 {
        let i = vs.len() - 1;
        let v = vs.last();
        let u = us.last();
        assert(earley_shown::slot_fits(false, rule, i, vs[i]));
        assert(earley_shown::picked(false, vs[i], us[i]));
        assert forall|k: int| 0 <= k < vs.drop_last().len() implies earley_shown::slot_fits(
            false,
            rule,
            k,
            #[trigger] vs.drop_last()[k],
        ) && earley_shown::picked(false, vs.drop_last()[k], us.drop_last()[k]) by {
            assert(earley_shown::slot_fits(false, rule, k, vs[k]));
            assert(earley_shown::picked(false, vs[k], us[k]));
        }
        lemma_kept_offers(rule, vs.drop_last(), us.drop_last());
        let gap = tree_builder::absents(symbols::nones_at(rule, i));
        let a = tree_builder::slot_children(rule, i, v);
        let b = tree_builder::slot_children(rule, i, u);
        assert(earley_shown::picks_all(false, a, b)) by {
            if let tree_builder::SlotModel::Value(n) = v {
                let y = choose|y: tree::Node| #[trigger]
                    earley_shown::picks(false, n, y) && u == earley_tree::as_value(y);
                if n is Token {
                    assert(y == n);
                } else {
                    assert(a =~= seq![n]);
                    assert(b =~= seq![y]);
                }
            }
        }
        let f = tree_builder::kept_children(rule, vs.drop_last());
        let h = tree_builder::kept_children(rule, us.drop_last());
        let all = f + gap + a;
        let left = h + gap + b;
        assert forall|k: int| 0 <= k < all.len() implies earley_shown::picks(
            false,
            #[trigger] all[k],
            left[k],
        ) by {
            if k < f.len() {
                assert(earley_shown::picks(false, f[k], h[k]));
            } else if k < f.len() + gap.len() {
                assert(all[k] == gap[k - f.len()]);
            } else {
                assert(earley_shown::picks(
                    false,
                    a[k - f.len() - gap.len()],
                    b[k - f.len() - gap.len()],
                ));
            }
        }
    }
}

/// What a rule makes of values offers what it makes of what they offer.
pub proof fn lemma_assembled_offers(
    rule: symbols::RuleModel,
    pp: bool,
    vs: Seq<tree_builder::SlotModel>,
    xs: Seq<tree_builder::SlotModel>,
)
    requires
        earley_shown::slots_fit(false, rule, vs),
        rule.tree_name != "_ambig"@,
        offers_all(vs, xs),
    ensures
        offers(
            tree_builder::assembled(rule, pp, vs),
            tree_builder::assembled(rule, pp, xs),
        ),
{
    let us = Seq::new(
        vs.len(),
        |i: int|
            choose|u: tree_builder::SlotModel| #[trigger]
                earley_shown::picked(false, vs[i], u) && value_key::same_structure(u, xs[i]),
    );
    assert forall|i: int| 0 <= i < vs.len() implies earley_shown::picked(
        false,
        #[trigger] vs[i],
        us[i],
    ) && value_key::same_structure(us[i], xs[i]) by {
        assert(offers(vs[i], xs[i]));
        let u = choose|u: tree_builder::SlotModel| #[trigger]
            earley_shown::picked(false, vs[i], u) && value_key::same_structure(u, xs[i]);
        assert(us[i] == u);
    }
    assert(earley_shown::alike(us, xs)) by {
        assert forall|i: int| 0 <= i < us.len() implies value_key::same_structure(
            #[trigger] us[i],
            xs[i],
        ) by {
            assert(earley_shown::picked(false, vs[i], us[i]));
        }
    }
    lemma_kept_offers(rule, vs, us);
    let tail = tree_builder::trailing_absents(rule);
    let all = tree_builder::kept_children(rule, vs) + tail;
    let left = tree_builder::kept_children(rule, us) + tail;
    assert(earley_shown::picks_all(false, all, left)) by {
        let a = tree_builder::kept_children(rule, vs);
        let b = tree_builder::kept_children(rule, us);
        assert forall|k: int| 0 <= k < all.len() implies earley_shown::picks(
            false,
            #[trigger] all[k],
            left[k],
        ) by {
            if k < a.len() {
                assert(earley_shown::picks(false, a[k], b[k]));
            } else {
                assert(all[k] == tail[k - a.len()]);
            }
        }
    }
    let v = tree_builder::assembled(rule, pp, vs);
    let u = if rule.transparent {
        tree_builder::SlotModel::Inline(left)
    } else if rule.expand1 && rule.alias is None && all.len() == 1 {
        earley_tree::as_value(left[0])
    } else {
        tree_builder::SlotModel::Value(
            tree::Node::Tree {
                data: rule.tree_name,
                children: left,
                meta: tree_builder::children_meta(left),
            },
        )
    };
    assert(earley_shown::picked(false, v, u)) by {
        if rule.transparent {
        } else if rule.expand1 && rule.alias is None && all.len() == 1 {
            assert(earley_shown::picks(false, all[0], left[0]));
            if all[0] is Absent {
                assert(u->Inline_0 =~= left);
            }
        } else {
            let n = v->Value_0;
            let y = u->Value_0;
            assert(n->children == all);
            assert(earley_shown::picks(false, n, y));
            assert(u == earley_tree::as_value(y));
        }
    }
    assert(earley_shown::is_made_of(rule, u, tree_builder::kept_children(rule, us)));
    earley_shown::lemma_made_alike(rule, pp, u, us, xs);
}

/// The root of a value that offers another offers the root of the other.
pub proof fn lemma_rooted_offers(
    name: Seq<char>,
    y: tree_builder::SlotModel,
    v: tree_builder::SlotModel,
)
    requires
        earley_shown::is_plain(y),
        offers(y, v),
    ensures
        offers_node(earley::rooted(y, name), earley::rooted(v, name)),
{
    let t = earley::rooted(y, name);
    let x = choose|x: tree_builder::SlotModel| #[trigger]
        earley_shown::picked(false, y, x) && value_key::same_structure(x, v);
    match y {
        tree_builder::SlotModel::Value(n) => {
            let u = choose|u: tree::Node| #[trigger]
                earley_shown::picks(false, n, u) && x == earley_tree::as_value(u);
            if u is Absent {
                assert(value_key::same_node(x->Inline_0[0], v->Inline_0[0]));
            }
            assert(earley_shown::picks(false, t, u));
        },
        tree_builder::SlotModel::Inline(ns) => {
            let u = tree::Node::Absent;
            assert(earley_shown::picks(false, ns[0], x->Inline_0[0]));
            assert(value_key::same_node(x->Inline_0[0], v->Inline_0[0]));
            assert(earley_shown::picks(false, t, u));
        },
    }
}

} // verus!
