//! What the tree of a CYK parse means: it is the value of a derivation of the
//! tokens.

use vstd::prelude::*;
use crate::cnf;
use crate::cnf::{Nt, Sym};
use crate::cnf_laws;
use crate::cyk;
use crate::cyk_empties;
use crate::cyk_laws;
use crate::derivation;
use crate::error;
use crate::lalr;
use crate::symbols;
use crate::symbols::{CompiledGrammar, SymbolId};
use crate::tree;
use crate::tree_builder;

verus! {

// ---------------------------------------------------------------------------
// What the symbols of the normal form mean

/// A grammar, what its normal form builds with, and the rules that were split.
pub ghost struct Sense {
    pub rules: Seq<symbols::RuleModel>,
    pub nt: nat,
    pub effs: Seq<cnf::EffModel>,
    pub empties: Seq<Option<tree_builder::SlotModel>>,
    pub long: Seq<cnf::CnfModel>,
}

/// Whether `toks` is a token of type `t` and `vs` is its value.
pub open spec fn is_token(
    t: SymbolId,
    toks: Seq<tree::TokenModel>,
    vs: Seq<tree_builder::SlotModel>,
) -> bool {
    &&& toks.len() == 1
    &&& toks[0].type_id == t
    &&& vs == seq![tree_builder::SlotModel::Value(tree::Node::Token(toks[0]))]
}

/// Whether a symbol that is no split derives the tokens with the values `vs`.
pub open spec fn plain(
    c: Sense,
    x: Sym,
    toks: Seq<tree::TokenModel>,
    vs: Seq<tree_builder::SlotModel>,
) -> bool {
    match x {
        Sym::T(t) => is_token(t, toks, vs),
        Sym::N(Nt::Term(t)) => is_token(t, toks, vs),
        Sym::N(Nt::Orig(s)) => vs.len() == 1 && derivation::yields(
            c.rules,
            c.nt,
            false,
            s,
            toks,
            vs[0],
        ),
        Sym::N(Nt::Split(_, _)) => false,
    }
}

/// The same of symbols one after the other.
pub open spec fn plain_all(
    c: Sense,
    xs: Seq<Sym>,
    toks: Seq<tree::TokenModel>,
    vs: Seq<tree_builder::SlotModel>,
) -> bool
    decreases xs.len(),
{
    if xs.len() == 0 {
        toks.len() == 0 && vs.len() == 0
    } else {
        exists|k: int, h: int| #[trigger]
            is_cut(toks, vs, k, h) && plain(c, xs.last(), toks.skip(k), vs.skip(h)) && plain_all(
                c,
                xs.drop_last(),
                toks.take(k),
                vs.take(h),
            )
    }
}

/// Whether tokens can be parted at `k`, and values at `h`.
pub open spec fn is_cut(
    toks: Seq<tree::TokenModel>,
    vs: Seq<tree_builder::SlotModel>,
    k: int,
    h: int,
) -> bool {
    0 <= k <= toks.len() && 0 <= h <= vs.len()
}

/// Whether a split symbol stands for the rest, from `i` on, of the rule `q`.
pub open spec fn is_rest(c: Sense, g: usize, i: usize, q: int) -> bool {
    &&& 0 <= q < c.long.len()
    &&& c.long[q].rhs.len() > 2
    &&& cnf_laws::split_number(c.long, q) == g
    &&& i < c.long[q].rhs.len()
}

/// Whether the rest of a rule derives the tokens with the values `vs`.
pub open spec fn means_rest(
    c: Sense,
    g: usize,
    i: usize,
    toks: Seq<tree::TokenModel>,
    vs: Seq<tree_builder::SlotModel>,
) -> bool {
    exists|q: int| #[trigger]
        is_rest(c, g, i, q) && plain_all(c, c.long[q].rhs.skip(i as int), toks, vs)
}

/// Whether a symbol derives the tokens with the values `vs`; a split symbol means
/// the rest of the rule that was split.
pub open spec fn means(
    c: Sense,
    x: Sym,
    toks: Seq<tree::TokenModel>,
    vs: Seq<tree_builder::SlotModel>,
) -> bool {
    match x {
        Sym::N(Nt::Split(g, i)) => means_rest(c, g, i, toks, vs),
        _ => plain(c, x, toks, vs),
    }
}

/// The values that a rule hands on.
pub open spec fn handed(
    c: Sense,
    r: cnf::CnfModel,
    kids: Seq<tree_builder::SlotModel>,
) -> Seq<tree_builder::SlotModel> {
    if r.lhs is Orig {
        cyk::chain_value(c.rules, c.effs, c.empties, cyk::rule_chain(r), kids)
    } else {
        kids
    }
}

/// Whether a rule hands on, from the values of its right side, values of its left
/// side.
pub open spec fn is_true(
    c: Sense,
    r: cnf::CnfModel,
    toks: Seq<tree::TokenModel>,
    kids: Seq<tree_builder::SlotModel>,
) -> bool {
    plain_all(c, r.rhs, toks, kids) ==> plain(c, Sym::N(r.lhs), toks, handed(c, r, kids))
}

/// The same of a rule with one symbol on the right.
pub open spec fn is_true_one(
    c: Sense,
    r: cnf::CnfModel,
    toks: Seq<tree::TokenModel>,
    kids: Seq<tree_builder::SlotModel>,
) -> bool {
    means(c, r.rhs[0], toks, kids) ==> means(c, Sym::N(r.lhs), toks, handed(c, r, kids))
}

/// The same of a rule with two symbols on the right.
pub open spec fn is_true_two(
    c: Sense,
    r: cnf::CnfModel,
    a: Seq<tree::TokenModel>,
    u: Seq<tree_builder::SlotModel>,
    b: Seq<tree::TokenModel>,
    v: Seq<tree_builder::SlotModel>,
) -> bool {
    means(c, r.rhs[0], a, u) && means(c, r.rhs[1], b, v) ==> means(
        c,
        Sym::N(r.lhs),
        a + b,
        handed(c, r, u + v),
    )
}

/// Whether a rule of any length is true of all values.
pub open spec fn holds_long(c: Sense, r: cnf::CnfModel) -> bool {
    &&& forall|toks: Seq<tree::TokenModel>, kids: Seq<tree_builder::SlotModel>| #[trigger]
        is_true(c, r, toks, kids)
    &&& r.rhs.len() > 0
    &&& r.skipped.len() == 0
    &&& r.lhs is Orig ==> r.alias is Some
    &&& !(r.lhs is Split)
    &&& forall|j: int|
        0 <= j < r.rhs.len() ==> match #[trigger] r.rhs[j] {
            Sym::T(_) => true,
            Sym::N(n) => !(n is Split),
        }
    &&& cnf::is_unit(r) ==> r.lhs is Orig && r.rhs[0]->N_0 is Orig
}

/// Whether a rule with one or two symbols on the right is true of all values.
pub open spec fn holds(c: Sense, r: cnf::CnfModel) -> bool {
    &&& r.rhs.len() == 1 ==> forall|
        toks: Seq<tree::TokenModel>,
        kids: Seq<tree_builder::SlotModel>,
    | #[trigger]
        is_true_one(c, r, toks, kids)
    &&& r.rhs.len() == 2 ==> forall|
        a: Seq<tree::TokenModel>,
        u: Seq<tree_builder::SlotModel>,
        b: Seq<tree::TokenModel>,
        v: Seq<tree_builder::SlotModel>,
    | #[trigger]
        is_true_two(c, r, a, u, b, v)
    &&& r.lhs is Orig ==> r.alias is Some
    &&& cnf::is_unit(r) ==> r.lhs is Orig && r.rhs[0]->N_0 is Orig
}

/// Whether all rules are true.
pub open spec fn all_hold(c: Sense, rules: Seq<cnf::CnfModel>) -> bool {
    forall|r: int| 0 <= r < rules.len() ==> holds(c, #[trigger] rules[r])
}

// ---------------------------------------------------------------------------
// Symbols one after the other

proof fn lemma_plain_none(c: Sense)
    ensures
        plain_all(c, Seq::empty(), Seq::empty(), Seq::empty()),
{
}

proof fn lemma_plain_push(
    c: Sense,
    xs: Seq<Sym>,
    a: Seq<tree::TokenModel>,
    u: Seq<tree_builder::SlotModel>,
    x: Sym,
    b: Seq<tree::TokenModel>,
    v: Seq<tree_builder::SlotModel>,
)
    requires
        plain_all(c, xs, a, u),
        plain(c, x, b, v),
    ensures
        plain_all(c, xs.push(x), a + b, u + v),
{
    let all = xs.push(x);
    let k = a.len() as int;
    let h = u.len() as int;
    assert(all.drop_last() =~= xs);
    assert((a + b).take(k) =~= a);
    assert((a + b).skip(k) =~= b);
    assert((u + v).take(h) =~= u);
    assert((u + v).skip(h) =~= v);
    assert(is_cut(a + b, u + v, k, h));
}

proof fn lemma_plain_one(
    c: Sense,
    x: Sym,
    toks: Seq<tree::TokenModel>,
    vs: Seq<tree_builder::SlotModel>,
)
    requires
        plain(c, x, toks, vs),
    ensures
        plain_all(c, seq![x], toks, vs),
{
    lemma_plain_none(c);
    lemma_plain_push(c, Seq::empty(), Seq::empty(), Seq::empty(), x, toks, vs);
    assert(Seq::<Sym>::empty().push(x) =~= seq![x]);
    assert(Seq::<tree::TokenModel>::empty() + toks =~= toks);
    assert(Seq::<tree_builder::SlotModel>::empty() + vs =~= vs);
}

proof fn lemma_plain_concat(
    c: Sense,
    xs: Seq<Sym>,
    a: Seq<tree::TokenModel>,
    u: Seq<tree_builder::SlotModel>,
    ys: Seq<Sym>,
    b: Seq<tree::TokenModel>,
    v: Seq<tree_builder::SlotModel>,
)
    requires
        plain_all(c, xs, a, u),
        plain_all(c, ys, b, v),
    ensures
        plain_all(c, xs + ys, a + b, u + v),
    decreases ys.len(),
{
    if ys.len() == 0 {
        assert(xs + ys =~= xs);
        assert(a + b =~= a);
        assert(u + v =~= u);
    } else {
        let (k, h) = choose|k: int, h: int| #[trigger]
            is_cut(b, v, k, h) && plain(c, ys.last(), b.skip(k), v.skip(h)) && plain_all(
                c,
                ys.drop_last(),
                b.take(k),
                v.take(h),
            );
        lemma_plain_concat(c, xs, a, u, ys.drop_last(), b.take(k), v.take(h));
        lemma_plain_push(
            c,
            xs + ys.drop_last(),
            a + b.take(k),
            u + v.take(h),
            ys.last(),
            b.skip(k),
            v.skip(h),
        );
        assert((xs + ys.drop_last()).push(ys.last()) =~= xs + ys);
        assert((a + b.take(k)) + b.skip(k) =~= a + b);
        assert((u + v.take(h)) + v.skip(h) =~= u + v);
    }
}

/// A terminal and its stand-in mean the same.
proof fn lemma_plain_lifted(
    c: Sense,
    xs: Seq<Sym>,
    ys: Seq<Sym>,
    toks: Seq<tree::TokenModel>,
    vs: Seq<tree_builder::SlotModel>,
)
    requires
        ys.len() == xs.len(),
        forall|i: int| 0 <= i < xs.len() ==> #[trigger] ys[i] == cnf::lifted_sym(xs[i]),
        plain_all(c, ys, toks, vs),
    ensures
        plain_all(c, xs, toks, vs),
    decreases xs.len(),
{
    if xs.len() > 0 {
        let (k, h) = choose|k: int, h: int| #[trigger]
            is_cut(toks, vs, k, h) && plain(c, ys.last(), toks.skip(k), vs.skip(h)) && plain_all(
                c,
                ys.drop_last(),
                toks.take(k),
                vs.take(h),
            );
        assert(ys[ys.len() - 1] == cnf::lifted_sym(xs[xs.len() - 1]));
        assert forall|i: int| 0 <= i < xs.drop_last().len() implies #[trigger] ys.drop_last()[i]
            == cnf::lifted_sym(xs.drop_last()[i]) by {
            assert(ys[i] == cnf::lifted_sym(xs[i]));
        }
        lemma_plain_lifted(c, xs.drop_last(), ys.drop_last(), toks.take(k), vs.take(h));
        assert(is_cut(toks, vs, k, h));
    }
}

// ---------------------------------------------------------------------------
// Variants

/// The values at the first `k` positions of a variant are those of a derivation
/// by the first `k` symbols.
proof fn lemma_refilled(
    c: Sense,
    e: Seq<SymbolId>,
    present: Seq<bool>,
    kids: Seq<tree_builder::SlotModel>,
    toks: Seq<tree::TokenModel>,
    k: nat,
)
    requires
        present.len() == e.len(),
        k <= e.len(),
        cnf::count_on(present.take(k as int)) <= kids.len(),
        plain_all(
            c,
            cnf::kept(cnf::syms_of(c.nt, e.take(k as int)), present.take(k as int)),
            toks,
            kids.take(cnf::count_on(present.take(k as int)) as int),
        ),
        forall|j: int|
            0 <= j < e.len() && !#[trigger] present[j] ==> derivation::yields(
                c.rules,
                c.nt,
                false,
                e[j],
                Seq::empty(),
                cyk::filler(c.empties, e[j]),
            ),
    ensures
        derivation::yields_all(
            c.rules,
            c.nt,
            false,
            e.take(k as int),
            toks,
            cyk::refilled(e, present, c.empties, kids, k),
        ),
    decreases k,
{
    let here = present.take(k as int);
    let xs = cnf::syms_of(c.nt, e.take(k as int));
    if k == 0 {
        assert(cnf::kept(xs, here) =~= Seq::empty());
        assert(e.take(0) =~= Seq::empty());
        assert(toks =~= Seq::empty());
        derivation::lemma_yields_nothing(c.rules, c.nt, false);
    } else {
        let j = (k - 1) as nat;
        let s = e[j as int];
        let before = present.take(j as int);
        let ys = cnf::syms_of(c.nt, e.take(j as int));
        let x = cnf::sym_of(c.nt, s);
        assert(here.drop_last() =~= before);
        assert(here =~= before.push(present[j as int]));
        assert(xs =~= ys.push(x));
        cyk_laws::lemma_kept_push(ys, before, x, present[j as int]);
        let n = cnf::count_on(here) as int;
        let used = cnf::count_on(before) as int;
        let vs = kids.take(n);
        assert(e.take(j as int).push(s) =~= e.take(k as int));
        if present[j as int] {
            let front = cnf::kept(ys, before);
            let all = front.push(x);
            let (a, h) = choose|a: int, h: int| #[trigger]
                is_cut(toks, vs, a, h) && plain(c, all.last(), toks.skip(a), vs.skip(h))
                    && plain_all(c, all.drop_last(), toks.take(a), vs.take(h));
            assert(all.drop_last() =~= front);
            assert(vs.skip(h).len() == 1);
            assert(h == used);
            assert(vs.take(h) =~= kids.take(used));
            let v = kids[used];
            assert(vs.skip(h)[0] == v);
            lemma_refilled(c, e, present, kids, toks.take(a), j);
            lemma_plain_value(c, s, toks.skip(a), vs.skip(h));
            derivation::lemma_yields_push(
                c.rules,
                c.nt,
                false,
                e.take(j as int),
                toks.take(a),
                cyk::refilled(e, present, c.empties, kids, j),
                s,
                toks.skip(a),
                v,
            );
            assert(toks.take(a) + toks.skip(a) =~= toks);
        } else {
            lemma_refilled(c, e, present, kids, toks, j);
            derivation::lemma_yields_push(
                c.rules,
                c.nt,
                false,
                e.take(j as int),
                toks,
                cyk::refilled(e, present, c.empties, kids, j),
                s,
                Seq::empty(),
                cyk::filler(c.empties, s),
            );
            assert(toks + Seq::<tree::TokenModel>::empty() =~= toks);
        }
    }
}

/// A symbol of the grammar has one value.
proof fn lemma_plain_value(
    c: Sense,
    s: SymbolId,
    toks: Seq<tree::TokenModel>,
    vs: Seq<tree_builder::SlotModel>,
)
    requires
        plain(c, cnf::sym_of(c.nt, s), toks, vs),
    ensures
        vs.len() == 1,
        derivation::yields(c.rules, c.nt, false, s, toks, vs[0]),
{
    if s.ix() < c.nt {
        derivation::lemma_yields_token(c.rules, c.nt, false, toks[0]);
        assert(toks =~= seq![toks[0]]);
    }
}

/// How many values symbols have that are no splits.
proof fn lemma_plain_len(
    c: Sense,
    xs: Seq<Sym>,
    toks: Seq<tree::TokenModel>,
    vs: Seq<tree_builder::SlotModel>,
)
    requires
        plain_all(c, xs, toks, vs),
    ensures
        vs.len() == xs.len(),
    decreases xs.len(),
{
    if xs.len() > 0 {
        let (k, h) = choose|k: int, h: int| #[trigger]
            is_cut(toks, vs, k, h) && plain(c, xs.last(), toks.skip(k), vs.skip(h)) && plain_all(
                c,
                xs.drop_last(),
                toks.take(k),
                vs.take(h),
            );
        lemma_plain_len(c, xs.drop_last(), toks.take(k), vs.take(h));
        assert(vs.skip(h).len() == 1);
    }
}

proof fn lemma_kept_len(xs: Seq<Sym>, mask: Seq<bool>)
    requires
        xs.len() == mask.len(),
    ensures
        cnf::kept(xs, mask).len() == cnf::count_on(mask),
    decreases xs.len(),
{
    if xs.len() > 0 {
        lemma_kept_len(xs.drop_last(), mask.drop_last());
        cyk_laws::lemma_kept_push(xs.drop_last(), mask.drop_last(), xs.last(), mask.last());
        assert(xs.drop_last().push(xs.last()) =~= xs);
        assert(mask.drop_last().push(mask.last()) =~= mask);
    } else {
        assert(cnf::kept(xs, mask) =~= Seq::empty());
    }
}

/// Whether a rule is a variant of a grammar rule that leaves out nothing but what
/// derives the empty string.
pub open spec fn is_variant(c: Sense, r: cnf::CnfModel) -> bool {
    let e = c.effs[r.alias->0 as int];
    &&& cnf::stands_for(r, c.effs, c.rules, c.nt)
    &&& forall|j: int|
        0 <= j < e.present.len() && !#[trigger] e.present[j] ==> derivation::yields(
            c.rules,
            c.nt,
            false,
            c.rules[e.rule_idx as int].expansion[j],
            Seq::empty(),
            cyk::filler(c.empties, c.rules[e.rule_idx as int].expansion[j]),
        )
}

/// A variant is true.
proof fn lemma_variant_true(
    c: Sense,
    r: cnf::CnfModel,
    toks: Seq<tree::TokenModel>,
    kids: Seq<tree_builder::SlotModel>,
)
    requires
        is_variant(c, r),
        c.rules[c.effs[r.alias->0 as int].rule_idx as int].origin.ix() >= c.nt,
    ensures
        is_true(c, r, toks, kids),
{
    if plain_all(c, r.rhs, toks, kids) {
        let a = r.alias->0;
        let eff = c.effs[a as int];
        let rule = c.rules[eff.rule_idx as int];
        let e = rule.expansion;
        let present = eff.present;
        let n = e.len() as int;
        assert(e.take(n) =~= e);
        assert(present.take(n) =~= present);
        lemma_kept_len(cnf::syms_of(c.nt, e), present);
        lemma_plain_len(c, r.rhs, toks, kids);
        assert(kids.take(cnf::count_on(present) as int) =~= kids);
        lemma_refilled(c, e, present, kids, toks, e.len());
        let vs = cyk::refilled(e, present, c.empties, kids, e.len());
        derivation::lemma_yields_rule(
            c.rules,
            c.nt,
            false,
            eff.rule_idx as int,
            toks,
            vs,
        );
        let v = cyk::variant_value(c.rules, eff, c.empties, kids);
        let chain = cyk::rule_chain(r);
        assert(chain =~= seq![a]);
        assert(chain.drop_last() =~= Seq::empty());
        assert(handed(c, r, kids) == cyk::chain_value(
            c.rules,
            c.effs,
            c.empties,
            chain.drop_last(),
            seq![v],
        ));
        assert(handed(c, r, kids) == seq![v]);
    }
}

// ---------------------------------------------------------------------------
// The steps of the conversion

/// The rules with stand-ins are true.
proof fn lemma_stood_in_true(c: Sense, out: Seq<cnf::CnfModel>, k: int)
    requires
        forall|r: int| 0 <= r < out.len() ==> is_variant(c, #[trigger] out[r]),
        forall|r: int| 0 <= r < out.len() ==> (#[trigger] out[r]).rhs.len() > 0,
        forall|i: int| 0 <= i < c.rules.len() ==> (#[trigger] c.rules[i]).origin.ix() >= c.nt,
        cnf::original(out),
        0 <= k < cnf::deduped(cnf::with_stand_ins(out, c.nt)).len(),
    ensures
        holds_long(c, cnf::deduped(cnf::with_stand_ins(out, c.nt))[k]),
{
    let s = cnf::with_stand_ins(out, c.nt);
    let d = cnf::deduped(s);
    cnf::lemma_deduped_part(s, k);
    let q = choose|q: int| 0 <= q < s.len() && s[q] == d[k];
    let r = s[q];
    if q < out.len() {
        let old_rule = out[q];
        assert(r == cnf::lifted(old_rule));
        assert(is_variant(c, old_rule));
        assert forall|j: int| 0 <= j < r.rhs.len() implies (match #[trigger] r.rhs[j] {
            Sym::T(_) => true,
            Sym::N(n) => !(n is Split),
        }) by {
            assert(match out[q].rhs[j] {
                Sym::T(_) => true,
                Sym::N(n) => n is Orig,
            });
        }
        if cnf::is_unit(r) {
            assert(match out[q].rhs[0] {
                Sym::T(_) => true,
                Sym::N(n) => n is Orig,
            });
        }
        assert forall|toks: Seq<tree::TokenModel>, kids: Seq<tree_builder::SlotModel>| #[trigger]
            is_true(c, r, toks, kids) by {
            if plain_all(c, r.rhs, toks, kids) {
                if old_rule.rhs.len() > 1 {
                    lemma_plain_lifted(c, old_rule.rhs, r.rhs, toks, kids);
                }
                lemma_variant_true(c, old_rule, toks, kids);
                assert(is_true(c, old_rule, toks, kids));
                assert(handed(c, r, kids) == handed(c, old_rule, kids));
            }
        }
    } else {
        cnf::lemma_stand_ins_part(out, c.nt);
        assert(r == cnf::stand_ins(out, c.nt)[q - out.len()]);
        let t = r.lhs->Term_0;
        assert(r == cnf::stand_in(t));
        assert forall|toks: Seq<tree::TokenModel>, kids: Seq<tree_builder::SlotModel>| #[trigger]
            is_true(c, r, toks, kids) by {
            if plain_all(c, r.rhs, toks, kids) {
                let (a, h) = choose|a: int, h: int| #[trigger]
                    is_cut(toks, kids, a, h) && plain(
                        c,
                        r.rhs.last(),
                        toks.skip(a),
                        kids.skip(h),
                    ) && plain_all(c, r.rhs.drop_last(), toks.take(a), kids.take(h));
                assert(toks.take(a).len() == 0 && kids.take(h).len() == 0);
                assert(toks.skip(a) =~= toks);
                assert(kids.skip(h) =~= kids);
            }
        }
    }
}

/// A rule that is not split is true.
proof fn lemma_short_true(c: Sense, r: cnf::CnfModel)
    requires
        holds_long(c, r),
        r.rhs.len() <= 2,
    ensures
        holds(c, r),
{
    assert forall|j: int| 0 <= j < r.rhs.len() implies (match #[trigger] r.rhs[j] {
        Sym::T(_) => true,
        Sym::N(n) => !(n is Split),
    }) by {}
    if r.rhs.len() == 1 {
        assert forall|toks: Seq<tree::TokenModel>, kids: Seq<tree_builder::SlotModel>| #[trigger]
            is_true_one(c, r, toks, kids) by {
            if means(c, r.rhs[0], toks, kids) {
                lemma_plain_one(c, r.rhs[0], toks, kids);
                assert(seq![r.rhs[0]] =~= r.rhs);
                assert(is_true(c, r, toks, kids));
            }
        }
    } else {
        assert forall|
            a: Seq<tree::TokenModel>,
            u: Seq<tree_builder::SlotModel>,
            b: Seq<tree::TokenModel>,
            v: Seq<tree_builder::SlotModel>,
        | #[trigger]
            is_true_two(c, r, a, u, b, v) by {
            if means(c, r.rhs[0], a, u) && means(c, r.rhs[1], b, v) {
                let x = r.rhs[0];
                let y = r.rhs[1];
                lemma_plain_one(c, x, a, u);
                lemma_plain_push(c, seq![x], a, u, y, b, v);
                assert(seq![x].push(y) =~= r.rhs);
                assert(is_true(c, r, a + b, u + v));
            }
        }
    }
}

/// The rules of a chain that a long rule is split into are true.
proof fn lemma_split_true(c: Sense, q: int, i: int)
    requires
        0 <= q < c.long.len() <= usize::MAX,
        holds_long(c, c.long[q]),
        2 < c.long[q].rhs.len() <= usize::MAX,
        0 <= i < c.long[q].rhs.len() - 1,
    ensures
        holds(
            c,
            cnf::split_rule(c.long[q], cnf_laws::split_number(c.long, q) as usize, i),
        ),
{
    let old_rule = c.long[q];
    let rhs = old_rule.rhs;
    let g = cnf_laws::split_number(c.long, q) as usize;
    cnf_laws::lemma_split_number_grows(c.long, q, q);
    let r = cnf::split_rule(old_rule, g, i);
    let x = rhs[i];
    assert(match old_rule.rhs[i] {
        Sym::T(_) => true,
        Sym::N(n) => !(n is Split),
    });
    assert(match old_rule.rhs[i + 1] {
        Sym::T(_) => true,
        Sym::N(n) => !(n is Split),
    });
    assert forall|
        a: Seq<tree::TokenModel>,
        u: Seq<tree_builder::SlotModel>,
        b: Seq<tree::TokenModel>,
        v: Seq<tree_builder::SlotModel>,
    | #[trigger]
        is_true_two(c, r, a, u, b, v) by {
        if means(c, r.rhs[0], a, u) && means(c, r.rhs[1], b, v) {
            assert(r.rhs[0] == x);
            lemma_plain_one(c, x, a, u);
            lemma_split_tail(c, q, i, b, v);
            lemma_plain_concat(c, seq![x], a, u, rhs.skip(i + 1), b, v);
            assert(seq![x] + rhs.skip(i + 1) =~= rhs.skip(i));
            if i == 0 {
                assert(rhs.skip(0) =~= rhs);
                assert(is_true(c, old_rule, a + b, u + v));
                assert(cyk::rule_chain(r) =~= cyk::rule_chain(old_rule));
                assert(handed(c, r, u + v) == handed(c, old_rule, u + v));
            } else {
                assert(is_rest(c, g, i as usize, q));
                assert(means_rest(c, g, i as usize, a + b, u + v));
            }
        }
    }
}

/// What the second symbol of a rule of a chain means.
proof fn lemma_split_tail(
    c: Sense,
    q: int,
    i: int,
    toks: Seq<tree::TokenModel>,
    vs: Seq<tree_builder::SlotModel>,
)
    requires
        0 <= q < c.long.len() <= usize::MAX,
        holds_long(c, c.long[q]),
        2 < c.long[q].rhs.len() <= usize::MAX,
        0 <= i < c.long[q].rhs.len() - 1,
        means(
            c,
            cnf::split_rule(c.long[q], cnf_laws::split_number(c.long, q) as usize, i).rhs[1],
            toks,
            vs,
        ),
    ensures
        plain_all(c, c.long[q].rhs.skip(i + 1), toks, vs),
{
    let rhs = c.long[q].rhs;
    let g = cnf_laws::split_number(c.long, q) as usize;
    cnf_laws::lemma_split_number_grows(c.long, q, q);
    if i == rhs.len() - 2 {
        assert(match c.long[q].rhs[i + 1] {
            Sym::T(_) => true,
            Sym::N(n) => !(n is Split),
        });
        lemma_plain_one(c, rhs[i + 1], toks, vs);
        assert(seq![rhs[i + 1]] =~= rhs.skip(i + 1));
    } else {
        let p = choose|p: int| #[trigger]
            is_rest(c, g, (i + 1) as usize, p) && plain_all(
                c,
                c.long[p].rhs.skip((i + 1) as usize as int),
                toks,
                vs,
            );
        if p < q {
            cnf_laws::lemma_split_number_grows(c.long, p, q);
        } else if q < p {
            cnf_laws::lemma_split_number_grows(c.long, q, p);
        }
        assert(p == q);
    }
}

/// Rules without duplicates are true where the rules are.
proof fn lemma_deduped_true(c: Sense, rules: Seq<cnf::CnfModel>)
    requires
        all_hold(c, rules),
    ensures
        all_hold(c, cnf::deduped(rules)),
{
    let d = cnf::deduped(rules);
    assert forall|r: int| 0 <= r < d.len() implies holds(c, #[trigger] d[r]) by {
        cnf::lemma_deduped_part(rules, r);
        let k = choose|k: int| 0 <= k < rules.len() && rules[k] == d[r];
        assert(holds(c, rules[k]));
    }
}

/// The rules with at most two symbols on the right are true.
proof fn lemma_binary_true(c: Sense)
    requires
        forall|q: int| 0 <= q < c.long.len() ==> holds_long(c, #[trigger] c.long[q]),
        c.long.len() <= usize::MAX,
        forall|q: int| 0 <= q < c.long.len() ==> (#[trigger] c.long[q]).rhs.len() <= usize::MAX,
    ensures
        all_hold(c, cnf::deduped(cnf::with_splits(c.long).0)),
{
    let s = cnf::with_splits(c.long).0;
    assert forall|r: int| 0 <= r < s.len() implies holds(c, #[trigger] s[r]) by {
        let (q, i) = cnf_laws::lemma_split_part(c.long, r);
        assert(holds_long(c, c.long[q]));
        if c.long[q].rhs.len() > 2 {
            lemma_split_true(c, q, i);
        } else {
            lemma_short_true(c, c.long[q]);
        }
    }
    lemma_deduped_true(c, s);
}

proof fn lemma_chain_concat(
    c: Sense,
    a: Seq<usize>,
    b: Seq<usize>,
    kids: Seq<tree_builder::SlotModel>,
)
    ensures
        cyk::chain_value(c.rules, c.effs, c.empties, a + b, kids) == cyk::chain_value(
            c.rules,
            c.effs,
            c.empties,
            a,
            cyk::chain_value(c.rules, c.effs, c.empties, b, kids),
        ),
    decreases b.len(),
{
    if b.len() == 0 {
        assert(a + b =~= a);
    } else {
        let v = seq![
            cyk::variant_value(c.rules, c.effs[b.last() as int], c.empties, kids),
        ];
        assert((a + b).drop_last() =~= a + b.drop_last());
        assert((a + b).last() == b.last());
        lemma_chain_concat(c, a, b.drop_last(), v);
    }
}

/// A rule that skips a unit rule is true.
proof fn lemma_skip_true(c: Sense, unit: cnf::CnfModel, target: cnf::CnfModel)
    requires
        holds(c, unit),
        holds(c, target),
        cnf::is_unit(unit),
        Sym::N(target.lhs) == unit.rhs[0],
    ensures
        holds(c, cnf::skip_rule(unit, target)),
{
    let r = cnf::skip_rule(unit, target);
    assert forall|kids: Seq<tree_builder::SlotModel>| #[trigger] handed(c, r, kids) == handed(
        c,
        unit,
        handed(c, target, kids),
    ) by {
        let a = cyk::rule_chain(unit);
        let b = cyk::rule_chain(target);
        assert(cyk::rule_chain(r) =~= a + b);
        lemma_chain_concat(c, a, b, kids);
    }
    if r.rhs.len() == 1 {
        assert forall|toks: Seq<tree::TokenModel>, kids: Seq<tree_builder::SlotModel>| #[trigger]
            is_true_one(c, r, toks, kids) by {
            if means(c, r.rhs[0], toks, kids) {
                assert(is_true_one(c, target, toks, kids));
                assert(is_true_one(c, unit, toks, handed(c, target, kids)));
                assert(handed(c, r, kids) == handed(c, unit, handed(c, target, kids)));
            }
        }
    }
    if r.rhs.len() == 2 {
        assert forall|
            a: Seq<tree::TokenModel>,
            u: Seq<tree_builder::SlotModel>,
            b: Seq<tree::TokenModel>,
            v: Seq<tree_builder::SlotModel>,
        | #[trigger]
            is_true_two(c, r, a, u, b, v) by {
            if means(c, r.rhs[0], a, u) && means(c, r.rhs[1], b, v) {
                assert(is_true_two(c, target, a, u, b, v));
                assert(is_true_one(c, unit, a + b, handed(c, target, u + v)));
                assert(handed(c, r, u + v) == handed(c, unit, handed(c, target, u + v)));
            }
        }
    }
}

/// The rules without unit rules are true.
proof fn lemma_unitless_true(c: Sense, rules: Seq<cnf::CnfModel>, fuel: nat)
    requires
        all_hold(c, rules),
        cnf::without_units(rules, fuel) is Some,
    ensures
        all_hold(c, cnf::without_units(rules, fuel)->0),
    decreases fuel,
{
    if let Some(p) = cnf::first_unit(rules, 0) {
        cnf::lemma_first_unit(rules, 0);
        let unit = rules[p];
        let a = cnf::unlike(rules, unit);
        let b = cnf::skips(rules, unit);
        let s = a + b;
        assert(holds(c, rules[p]));
        assert forall|r: int| 0 <= r < s.len() implies holds(c, #[trigger] s[r]) by {
            if r < a.len() {
                cnf::lemma_unlike_part(rules, unit, r);
                let k = choose|k: int| 0 <= k < rules.len() && rules[k] == a[r];
                assert(holds(c, rules[k]));
            } else {
                let k = cnf::lemma_skips_part(rules, unit, r - a.len());
                assert(s[r] == b[r - a.len()]);
                assert(holds(c, rules[k]));
                lemma_skip_true(c, unit, rules[k]);
            }
        }
        lemma_deduped_true(c, s);
        lemma_unitless_true(c, cnf::unit_replaced(rules, p), (fuel - 1) as nat);
    }
}

// ---------------------------------------------------------------------------
// The table

/// The values of the chosen derivation of a span are those of its symbol.
proof fn lemma_cell_means(
    c: Sense,
    m: cyk::CykModel,
    toks: Seq<tree::TokenModel>,
    i: int,
    j: int,
    nt: Nt,
)
    requires
        m.grammar == c.rules,
        m.effs == c.effs,
        m.empties == c.empties,
        m.rules.len() <= usize::MAX,
        toks.len() <= usize::MAX,
        all_hold(c, m.rules),
        cyk::cell(m.rules, cyk::types_of(toks), i, j, nt) is Some,
    ensures
        0 <= i <= j < toks.len(),
        means(
            c,
            Sym::N(nt),
            toks.subrange(i, j + 1),
            cyk::values(m, toks, cyk::types_of(toks), i, j, nt),
        ),
    decreases j - i,
{
    let types = cyk::types_of(toks);
    cyk::lemma_cell_rule(m.rules, types, i, j, nt);
    let x = cyk::cell(m.rules, types, i, j, nt)->0;
    let r = m.rules[x.rule as int];
    assert(holds(c, m.rules[x.rule as int]));
    let here = toks.subrange(i, j + 1);
    if i == j {
        let kids = seq![tree_builder::SlotModel::Value(tree::Node::Token(toks[i]))];
        assert(here[0] == toks[i]);
        assert(is_true_one(c, r, here, kids));
    } else {
        let p = x.split as int;
        let a = r.rhs[0]->N_0;
        let b = r.rhs[1]->N_0;
        lemma_cell_means(c, m, toks, i, p - 1, a);
        lemma_cell_means(c, m, toks, p, j, b);
        let u = cyk::values(m, toks, types, i, p - 1, a);
        let v = cyk::values(m, toks, types, p, j, b);
        assert(is_true_two(c, r, toks.subrange(i, p), u, toks.subrange(p, j + 1), v));
        assert(toks.subrange(i, p) + toks.subrange(p, j + 1) =~= here);
    }
}

// ---------------------------------------------------------------------------
// The law

proof fn lemma_kept_full(xs: Seq<Sym>, mask: Seq<bool>, j: int)
    requires
        xs.len() == mask.len(),
        cnf::kept(xs, mask).len() == xs.len(),
        0 <= j < mask.len(),
    ensures
        mask[j],
    decreases xs.len(),
{
    cyk_laws::lemma_kept_part(xs.drop_first(), mask.drop_first());
    if j > 0 {
        lemma_kept_full(xs.drop_first(), mask.drop_first(), j - 1);
    }
}

/// What a rule without empty right sides leaves out derives the empty string.
proof fn lemma_left_out(
    all: Seq<cnf::CnfModel>,
    effs: Seq<cnf::EffModel>,
    some: Seq<cnf::CnfModel>,
    rules: Seq<symbols::RuleModel>,
    nt: nat,
    k: int,
    j: int,
)
    requires
        cnf::all_stand_for(some, effs, rules, nt),
        forall|i: int|
            0 <= i < some.len() ==> (#[trigger] some[i]).rhs == cnf::syms_of(
                nt,
                rules[cnf::grammar_rule(effs, some[i]) as int].expansion,
            ),
        cnf::effs_ok(effs, rules),
        cnf::without_empty(all, effs, some).1.len() <= usize::MAX,
        0 <= k < cnf::without_empty(all, effs, some).0.len(),
        ({
            let (out, more) = cnf::without_empty(all, effs, some);
            let e = more[out[k].alias->0 as int];
            0 <= j < e.present.len() && !e.present[j]
        }),
    ensures
        ({
            let (out, more) = cnf::without_empty(all, effs, some);
            let e = more[out[k].alias->0 as int];
            cnf::sym_empties(all, cnf::sym_of(nt, rules[e.rule_idx as int].expansion[j]))
        }),
    decreases some.len(),
{
    let front = some.drop_last();
    let (o0, e0) = cnf::without_empty(all, effs, front);
    let (o1, e1) = cnf::without_empty(all, effs, some);
    let r = some.last();
    let flags = cnf::null_flags(all, r.rhs);
    let m = cnf::count_on(flags);
    assert forall|i: int| 0 <= i < front.len() implies cnf::stands_for(
        #[trigger] front[i],
        effs,
        rules,
        nt,
    ) && front[i].rhs == cnf::syms_of(
        nt,
        rules[cnf::grammar_rule(effs, front[i]) as int].expansion,
    ) by {
        assert(cnf::stands_for(some[i], effs, rules, nt));
    }
    assert(e0.len() <= e1.len());
    cnf::lemma_without_empty(all, effs, front, rules, nt);
    assert(cnf::stands_for(some[some.len() - 1], effs, rules, nt));
    assert(some[some.len() - 1].rhs == cnf::syms_of(
        nt,
        rules[cnf::grammar_rule(effs, some[some.len() - 1]) as int].expansion,
    ));
    if k < o0.len() {
        assert(cnf::stands_for(o0[k], e0, rules, nt));
        assert(o1[k] == o0[k]);
        let a = o0[k].alias->0 as int;
        assert(e1[a] == e0[a]);
        lemma_left_out(all, effs, front, rules, nt, k, j);
    } else if m == 0 {
        assert(o1[k] == r);
        let a = r.alias->0 as int;
        assert(e0.take(effs.len() as int)[a] == effs[a]);
        assert(e1[a] == effs[a]);
        lemma_kept_full(r.rhs, effs[a].present, j);
    } else {
        let i = k - o0.len();
        let ms = cnf::masks(r.rhs, flags, cnf::two_to(m));
        cnf::lemma_masks_len(r.rhs, flags, cnf::two_to(m), i);
        let n = choose|n: nat| n < cnf::two_to(m) && ms[i] == #[trigger] cnf::mask_of(flags, n);
        assert(o1[k] == cnf::variant_rules(r, ms, e0.len())[i]);
        assert(e1[e0.len() + i] == cnf::variant_effs(cnf::grammar_rule(effs, r), ms)[i]);
        assert(o1[k].alias == Some((e0.len() + i) as usize));
        cyk_laws::lemma_mask_drops(flags, n, j);
        assert(r.rhs[j] == cnf::sym_of(
            nt,
            rules[cnf::grammar_rule(effs, r) as int].expansion[j],
        ));
    }
}

/// Whether no nonterminal derives the empty string by way of itself.
pub open spec fn no_empty_cycle(g: CompiledGrammar) -> bool {
    let nt = g.terminal_count as nat;
    exists|rank: spec_fn(SymbolId) -> nat| #[trigger]
        cyk_empties::falls(
            g.models(),
            nt,
            cnf::empty_flags(
                cnf::first_rules(g.models(), nt, g.start@),
                g.symbols@.len(),
            ),
            rank,
        )
}

/// The machine can number the variants of the rules.
pub open spec fn variants_fit(g: CompiledGrammar) -> bool {
    cnf::nonempty_rules(g.models(), g.terminal_count as nat, g.start@).1.len() <= usize::MAX
}

/// What the normal form of a grammar means.
pub open spec fn sense_of(g: CompiledGrammar) -> Sense {
    let nt = g.terminal_count as nat;
    let m = cyk::cyk_model(g.models(), nt, g.start@, g.symbols@.len());
    Sense {
        rules: g.models(),
        nt,
        effs: m.effs,
        empties: m.empties,
        long: cnf::deduped(
            cnf::with_stand_ins(cnf::nonempty_rules(g.models(), nt, g.start@).0, nt),
        ),
    }
}

/// The rules without empty right sides are variants.
proof fn lemma_variants(g: CompiledGrammar, k: int)
    requires
        g.wf(),
        no_empty_cycle(g),
        variants_fit(g),
        0 <= k < cnf::nonempty_rules(g.models(), g.terminal_count as nat, g.start@).0.len(),
    ensures
        is_variant(
            sense_of(g),
            cnf::nonempty_rules(g.models(), g.terminal_count as nat, g.start@).0[k],
        ),
{
    let rules = g.models();
    let nt = g.terminal_count as nat;
    let starts = g.start@;
    let n = g.symbols@.len();
    let c = sense_of(g);
    assert(g.rules@.len() == g.rules.len());
    let first = cnf::first_rules(rules, nt, starts);
    let effs = cnf::base_effs(rules);
    let (out, more) = cnf::nonempty_rules(rules, nt, starts);
    let nulls = cnf::empty_flags(first, n);
    cnf::lemma_first(rules, nt, starts, n);
    cnf::lemma_without_empty(first, effs, first, rules, nt);
    cyk_empties::lemma_flags_have_rules(rules, nt, starts, n);
    let rank = choose|rank: spec_fn(SymbolId) -> nat| #[trigger]
        cyk_empties::falls(rules, nt, nulls, rank);
    let r = out[k];
    assert(cnf::stands_for(r, more, rules, nt));
    let e = more[r.alias->0 as int];
    let x = rules[e.rule_idx as int].expansion;
    assert forall|j: int| 0 <= j < e.present.len() && !#[trigger] e.present[j] implies
        derivation::yields(rules, nt, false, x[j], Seq::empty(), cyk::filler(c.empties, x[j])) by {
        lemma_left_out(first, effs, first, rules, nt, k, j);
        assert(rules[e.rule_idx as int].expansion[j].ix() < n);
        assert(cnf::sym_empties(first, cnf::sym_of(nt, x[j])));
        cyk_empties::lemma_filler(rules, nt, first, n, rank, x[j]);
    }
}

/// The tree of a CYK parse is the value of a derivation, by the start symbol, of
/// the tokens before the end of input.
pub proof fn tree_is_of_a_derivation(
    g: CompiledGrammar,
    toks: Seq<tree::TokenModel>,
    start: Option<Seq<char>>,
    s: SymbolId,
    t: tree::Node,
) -> (v: tree_builder::SlotModel)
    requires
        g.wf(),
        cnf::cnf_error(g.models(), g.terminal_count as nat, g.start@, g.symbols@) is None,
        cyk_laws::cyk_fits(g),
        variants_fit(g),
        no_empty_cycle(g),
        toks.len() <= usize::MAX,
        lalr::resolved_start(g.start@, g.symbols@, start) == Some(s),
        cyk::cyk_parse(
            cyk::cyk_model(
                g.models(),
                g.terminal_count as nat,
                g.start@,
                g.symbols@.len(),
            ),
            g.symbols@,
            g.start@,
            toks,
            start,
        ) == Ok::<tree::Node, error::ErrorModel>(t),
    ensures
        derivation::yields(
            g.models(),
            g.terminal_count as nat,
            false,
            s,
            cyk::body(toks),
            v,
        ),
        t == cyk::finished(v, symbols::name_of(g.symbols@, s)),
{
    let rules = g.models();
    let nt = g.terminal_count as nat;
    let starts = g.start@;
    let n = g.symbols@.len();
    let c = sense_of(g);
    let m = cyk::cyk_model(rules, nt, starts, n);
    assert(g.rules@.len() == g.rules.len());
    assert forall|i: int| 0 <= i < rules.len() implies (#[trigger] rules[i]).expansion.len()
        <= usize::MAX by {
        assert(g.rules@[i].expansion@.len() == g.rules@[i].expansion.len());
    }
    let out = cnf::nonempty_rules(rules, nt, starts).0;
    cyk_laws::lemma_nonempty_shape(rules, nt, starts, n);
    cyk_laws::lemma_stood_in_shape(out, nt);
    let first = cnf::first_rules(rules, nt, starts);
    assert forall|r: int| 0 <= r < out.len() implies is_variant(c, #[trigger] out[r]) && out[r].rhs.len()
        > 0 by {
        lemma_variants(g, r);
        let at = cyk_laws::lemma_eps_part(first, cnf::base_effs(rules), first, r);
    }
    assert forall|q: int| 0 <= q < c.long.len() implies holds_long(c, #[trigger] c.long[q]) by {
        lemma_stood_in_true(c, out, q);
    }
    lemma_binary_true(c);
    lemma_unitless_true(c, cnf::binary_rules(rules, nt, starts), cnf::unit_fuel());
    cyk_laws::lemma_body_len(toks);
    let body = cyk::body(toks);
    let last = body.len() - 1;
    lemma_cell_means(c, m, body, 0, last, Nt::Orig(s));
    assert(body.subrange(0, last + 1) =~= body);
    cyk::values(m, body, cyk::types_of(body), 0, last, Nt::Orig(s))[0]
}

} // verus!
