//! The conversion to normal form keeps the language of a grammar, but for the
//! empty string.

use vstd::prelude::*;
use crate::cnf;
use crate::cnf::{Nt, Sym};
use crate::symbols::SymbolId;

verus! {

/// Whether the symbol `x` derives the terminals `w`.
pub open spec fn given(rules: Seq<cnf::CnfModel>, x: Sym, w: Seq<SymbolId>) -> bool {
    exists|d: nat| #[trigger] cnf::gives(rules, x, w, d)
}

/// Whether the symbols `xs` derive the terminals `w`.
pub open spec fn given_all(rules: Seq<cnf::CnfModel>, xs: Seq<Sym>, w: Seq<SymbolId>) -> bool {
    exists|d: nat| #[trigger] cnf::gives_all(rules, xs, w, d)
}

/// Whether `w` is made of parts, one for each symbol, of which `meaning` holds.
pub open spec fn made_of(
    meaning: spec_fn(Sym, Seq<SymbolId>) -> bool,
    xs: Seq<Sym>,
    w: Seq<SymbolId>,
) -> bool
    decreases xs.len(),
{
    if xs.len() == 0 {
        w.len() == 0
    } else {
        exists|k: int|
            0 <= k <= w.len() && meaning(xs.last(), #[trigger] w.skip(k)) && made_of(
                meaning,
                xs.drop_last(),
                w.take(k),
            )
    }
}

/// Whether a meaning of symbols agrees with a set of rules.
pub open spec fn agrees(
    rules: Seq<cnf::CnfModel>,
    meaning: spec_fn(Sym, Seq<SymbolId>) -> bool,
) -> bool {
    &&& forall|t: SymbolId| #[trigger] meaning(Sym::T(t), seq![t])
    &&& forall|r: int, w: Seq<SymbolId>|
        0 <= r < rules.len() && #[trigger] made_of(meaning, rules[r].rhs, w) ==> meaning(
            Sym::N(rules[r].lhs),
            w,
        )
}

/// What is derived holds in every meaning that agrees with the rules.
pub proof fn lemma_least(
    rules: Seq<cnf::CnfModel>,
    meaning: spec_fn(Sym, Seq<SymbolId>) -> bool,
    x: Sym,
    w: Seq<SymbolId>,
    d: nat,
)
    requires
        agrees(rules, meaning),
        cnf::gives(rules, x, w, d),
    ensures
        meaning(x, w),
    decreases d, 0nat,
{
    match x {
        Sym::T(t) => {
            assert(meaning(Sym::T(t), seq![t]));
        },
        Sym::N(a) => {
            let r = choose|r: int|
                0 <= r < rules.len() && (#[trigger] rules[r]).lhs == a && cnf::gives_all(
                    rules,
                    rules[r].rhs,
                    w,
                    (d - 1) as nat,
                );
            lemma_least_all(rules, meaning, rules[r].rhs, w, (d - 1) as nat);
        },
    }
}

proof fn lemma_least_all(
    rules: Seq<cnf::CnfModel>,
    meaning: spec_fn(Sym, Seq<SymbolId>) -> bool,
    xs: Seq<Sym>,
    w: Seq<SymbolId>,
    d: nat,
)
    requires
        agrees(rules, meaning),
        cnf::gives_all(rules, xs, w, d),
    ensures
        made_of(meaning, xs, w),
    decreases d, xs.len(),
{
    if xs.len() > 0 {
        let k = choose|k: int|
            0 <= k <= w.len() && cnf::gives(rules, xs.last(), #[trigger] w.skip(k), d)
                && cnf::gives_all(rules, xs.drop_last(), w.take(k), d);
        lemma_least(rules, meaning, xs.last(), w.skip(k), d);
        lemma_least_all(rules, meaning, xs.drop_last(), w.take(k), d);
    }
}

/// The meaning of a symbol as what it derives.
pub open spec fn language(rules: Seq<cnf::CnfModel>) -> spec_fn(Sym, Seq<SymbolId>) -> bool {
    |x: Sym, w: Seq<SymbolId>| given(rules, x, w)
}

pub(crate) proof fn lemma_given_push(
    rules: Seq<cnf::CnfModel>,
    xs: Seq<Sym>,
    u: Seq<SymbolId>,
    x: Sym,
    v: Seq<SymbolId>,
)
    requires
        given_all(rules, xs, u),
        given(rules, x, v),
    ensures
        given_all(rules, xs.push(x), u + v),
{
    let d = choose|d: nat| #[trigger] cnf::gives_all(rules, xs, u, d);
    let e = choose|e: nat| #[trigger] cnf::gives(rules, x, v, e);
    let m = if d < e {
        e
    } else {
        d
    };
    cnf::lemma_gives_all_mono(rules, xs, u, d, m);
    cnf::lemma_gives_mono(rules, x, v, e, m);
    let w = u + v;
    assert(xs.push(x).drop_last() =~= xs);
    assert(w.skip(u.len() as int) =~= v);
    assert(w.take(u.len() as int) =~= u);
    assert(cnf::gives_all(rules, xs.push(x), w, m));
}

pub(crate) proof fn lemma_given_rule(rules: Seq<cnf::CnfModel>, r: int, w: Seq<SymbolId>)
    requires
        0 <= r < rules.len(),
        given_all(rules, rules[r].rhs, w),
    ensures
        given(rules, Sym::N(rules[r].lhs), w),
{
    let d = choose|d: nat| #[trigger] cnf::gives_all(rules, rules[r].rhs, w, d);
    assert(((d + 1) - 1) as nat == d);
    assert(cnf::gives(rules, Sym::N(rules[r].lhs), w, d + 1));
}

/// What is made of derived parts is derived.
pub(crate) proof fn lemma_made_given(rules: Seq<cnf::CnfModel>, xs: Seq<Sym>, w: Seq<SymbolId>)
    requires
        made_of(language(rules), xs, w),
    ensures
        given_all(rules, xs, w),
    decreases xs.len(),
{
    if xs.len() == 0 {
        assert(cnf::gives_all(rules, xs, w, 0));
    } else {
        let k = choose|k: int|
            0 <= k <= w.len() && language(rules)(xs.last(), #[trigger] w.skip(k)) && made_of(
                language(rules),
                xs.drop_last(),
                w.take(k),
            );
        lemma_made_given(rules, xs.drop_last(), w.take(k));
        lemma_given_push(rules, xs.drop_last(), w.take(k), xs.last(), w.skip(k));
        assert(xs.drop_last().push(xs.last()) =~= xs);
        assert(w.take(k) + w.skip(k) =~= w);
    }
}

/// What is derived is made of derived parts.
pub(crate) proof fn lemma_given_made(rules: Seq<cnf::CnfModel>, xs: Seq<Sym>, w: Seq<SymbolId>)
    requires
        given_all(rules, xs, w),
    ensures
        made_of(language(rules), xs, w),
{
    lemma_language_agrees(rules);
    let d = choose|d: nat| #[trigger] cnf::gives_all(rules, xs, w, d);
    lemma_least_all(rules, language(rules), xs, w, d);
}

pub(crate) proof fn lemma_language_agrees(rules: Seq<cnf::CnfModel>)
    ensures
        agrees(rules, language(rules)),
{
    let m = language(rules);
    assert forall|t: SymbolId| #[trigger] m(Sym::T(t), seq![t]) by {
        assert(cnf::gives(rules, Sym::T(t), seq![t], 0));
    }
    assert forall|r: int, w: Seq<SymbolId>|
        0 <= r < rules.len() && #[trigger] made_of(m, rules[r].rhs, w) implies m(
        Sym::N(rules[r].lhs),
        w,
    ) by {
        lemma_made_given(rules, rules[r].rhs, w);
        lemma_given_rule(rules, r, w);
    }
}

/// Symbols may be replaced by symbols that mean more.
pub(crate) proof fn lemma_made_mapped(
    a: spec_fn(Sym, Seq<SymbolId>) -> bool,
    b: spec_fn(Sym, Seq<SymbolId>) -> bool,
    xs: Seq<Sym>,
    ys: Seq<Sym>,
    w: Seq<SymbolId>,
)
    requires
        made_of(a, xs, w),
        xs.len() == ys.len(),
        forall|i: int, v: Seq<SymbolId>|
            0 <= i < xs.len() && #[trigger] a(xs[i], v) ==> b(ys[i], v),
    ensures
        made_of(b, ys, w),
    decreases xs.len(),
{
    if xs.len() > 0 {
        let k = choose|k: int|
            0 <= k <= w.len() && a(xs.last(), #[trigger] w.skip(k)) && made_of(
                a,
                xs.drop_last(),
                w.take(k),
            );
        assert(a(xs[xs.len() - 1], w.skip(k)));
        assert forall|i: int, v: Seq<SymbolId>|
            0 <= i < xs.drop_last().len() && #[trigger] a(xs.drop_last()[i], v) implies b(
            ys.drop_last()[i],
            v,
        ) by {
            assert(a(xs[i], v));
        }
        lemma_made_mapped(a, b, xs.drop_last(), ys.drop_last(), w.take(k));
        assert(b(ys.last(), w.skip(k)));
    }
}

/// Rules whose every rule holds in a second set derive nothing more.
pub(crate) proof fn lemma_language_within(
    rules: Seq<cnf::CnfModel>,
    other: Seq<cnf::CnfModel>,
    x: Sym,
    w: Seq<SymbolId>,
)
    requires
        forall|r: int, v: Seq<SymbolId>|
            0 <= r < rules.len() && #[trigger] given_all(other, rules[r].rhs, v) ==> given(
                other,
                Sym::N(rules[r].lhs),
                v,
            ),
        given(rules, x, w),
    ensures
        given(other, x, w),
{
    let m = language(other);
    lemma_language_agrees(other);
    assert(agrees(rules, m)) by {
        assert forall|r: int, v: Seq<SymbolId>|
            0 <= r < rules.len() && #[trigger] made_of(m, rules[r].rhs, v) implies m(
            Sym::N(rules[r].lhs),
            v,
        ) by {
            lemma_made_given(other, rules[r].rhs, v);
        }
    }
    let d = choose|d: nat| #[trigger] cnf::gives(rules, x, w, d);
    lemma_least(rules, m, x, w, d);
}

/// A derivation begins with a rule.
pub(crate) proof fn lemma_given_by(rules: Seq<cnf::CnfModel>, a: Nt, w: Seq<SymbolId>) -> (r: int)
    requires
        given(rules, Sym::N(a), w),
    ensures
        0 <= r < rules.len(),
        rules[r].lhs == a,
        given_all(rules, rules[r].rhs, w),
{
    let d = choose|d: nat| #[trigger] cnf::gives(rules, Sym::N(a), w, d);
    choose|r: int|
        0 <= r < rules.len() && (#[trigger] rules[r]).lhs == a && cnf::gives_all(
            rules,
            rules[r].rhs,
            w,
            (d - 1) as nat,
        )
}

pub(crate) proof fn lemma_given_single(rules: Seq<cnf::CnfModel>, x: Sym, w: Seq<SymbolId>)
    ensures
        given_all(rules, seq![x], w) == given(rules, x, w),
{
    let e = Seq::<SymbolId>::empty();
    if given(rules, x, w) {
        assert(cnf::gives_all(rules, Seq::empty(), e, 0));
        lemma_given_push(rules, Seq::empty(), e, x, w);
        assert(Seq::<Sym>::empty().push(x) =~= seq![x]);
        assert(e + w =~= w);
    }
    if given_all(rules, seq![x], w) {
        lemma_given_made(rules, seq![x], w);
        let k = choose|k: int|
            0 <= k <= w.len() && language(rules)(seq![x].last(), #[trigger] w.skip(k)) && made_of(
                language(rules),
                seq![x].drop_last(),
                w.take(k),
            );
        assert(w.take(k).len() == 0);
        assert(w.skip(k) =~= w);
        assert(language(rules)(x, w));
    }
}

// ---------------------------------------------------------------------------
// Duplicates and unit rules

proof fn lemma_deduped_has(rules: Seq<cnf::CnfModel>, r: int) -> (k: int)
    requires
        0 <= r < rules.len(),
    ensures
        0 <= k < cnf::deduped(rules).len(),
        cnf::alike(cnf::deduped(rules)[k], rules[r]),
    decreases rules.len(),
{
    let head = cnf::deduped(rules.drop_last());
    if r < rules.len() - 1 {
        let k = lemma_deduped_has(rules.drop_last(), r);
        assert(cnf::deduped(rules)[k] == head[k]);
        k
    } else if cnf::like_one(head, rules.last()) {
        choose|k: int| 0 <= k < head.len() && cnf::alike(#[trigger] head[k], rules.last())
    } else {
        head.len() as int
    }
}

/// Dropping duplicates keeps the language.
pub proof fn deduped_keeps_language(rules: Seq<cnf::CnfModel>, x: Sym, w: Seq<SymbolId>)
    ensures
        given(cnf::deduped(rules), x, w) == given(rules, x, w),
{
    let d = cnf::deduped(rules);
    if given(d, x, w) {
        assert forall|r: int, v: Seq<SymbolId>|
            0 <= r < d.len() && #[trigger] given_all(rules, d[r].rhs, v) implies given(
            rules,
            Sym::N(d[r].lhs),
            v,
        ) by {
            cnf::lemma_deduped_part(rules, r);
            let k = choose|k: int| 0 <= k < rules.len() && rules[k] == d[r];
            lemma_given_rule(rules, k, v);
        }
        lemma_language_within(d, rules, x, w);
    }
    if given(rules, x, w) {
        assert forall|r: int, v: Seq<SymbolId>|
            0 <= r < rules.len() && #[trigger] given_all(d, rules[r].rhs, v) implies given(
            d,
            Sym::N(rules[r].lhs),
            v,
        ) by {
            let k = lemma_deduped_has(rules, r);
            lemma_given_rule(d, k, v);
        }
        lemma_language_within(rules, d, x, w);
    }
}

proof fn lemma_unlike_has(rules: Seq<cnf::CnfModel>, unit: cnf::CnfModel, r: int) -> (k: int)
    requires
        0 <= r < rules.len(),
        !cnf::alike(rules[r], unit),
    ensures
        0 <= k < cnf::unlike(rules, unit).len(),
        cnf::unlike(rules, unit)[k] == rules[r],
    decreases rules.len(),
{
    let head = cnf::unlike(rules.drop_last(), unit);
    if r < rules.len() - 1 {
        let k = lemma_unlike_has(rules.drop_last(), unit, r);
        assert(cnf::unlike(rules, unit)[k] == head[k]);
        k
    } else {
        head.len() as int
    }
}

proof fn lemma_skips_has(rules: Seq<cnf::CnfModel>, unit: cnf::CnfModel, r: int) -> (k: int)
    requires
        0 <= r < rules.len(),
        Sym::N(rules[r].lhs) == unit.rhs[0],
    ensures
        0 <= k < cnf::skips(rules, unit).len(),
        cnf::skips(rules, unit)[k] == cnf::skip_rule(unit, rules[r]),
    decreases rules.len(),
{
    let head = cnf::skips(rules.drop_last(), unit);
    if r < rules.len() - 1 {
        let k = lemma_skips_has(rules.drop_last(), unit, r);
        assert(cnf::skips(rules, unit)[k] == head[k]);
        k
    } else {
        head.len() as int
    }
}

/// Replacing a unit rule keeps the language.
pub proof fn unit_replaced_keeps_language(
    rules: Seq<cnf::CnfModel>,
    p: int,
    x: Sym,
    w: Seq<SymbolId>,
)
    requires
        0 <= p < rules.len(),
        cnf::is_unit(rules[p]),
    ensures
        given(cnf::unit_replaced(rules, p), x, w) == given(rules, x, w),
{
    let unit = rules[p];
    let a = cnf::unlike(rules, unit);
    let b = cnf::skips(rules, unit);
    let s = a + b;
    let target = unit.rhs[0]->N_0;
    assert(unit.rhs =~= seq![Sym::N(target)]);
    deduped_keeps_language(s, x, w);
    if given(s, x, w) {
        assert forall|r: int, v: Seq<SymbolId>|
            0 <= r < s.len() && #[trigger] given_all(rules, s[r].rhs, v) implies given(
            rules,
            Sym::N(s[r].lhs),
            v,
        ) by {
            if r < a.len() {
                cnf::lemma_unlike_part(rules, unit, r);
                let k = choose|k: int| 0 <= k < rules.len() && rules[k] == a[r];
                lemma_given_rule(rules, k, v);
            } else {
                let k = cnf::lemma_skips_part(rules, unit, r - a.len());
                assert(s[r] == cnf::skip_rule(unit, rules[k]));
                lemma_given_rule(rules, k, v);
                lemma_given_single(rules, Sym::N(target), v);
                lemma_given_rule(rules, p, v);
            }
        }
        lemma_language_within(s, rules, x, w);
    }
    if given(rules, x, w) {
        assert forall|r: int, v: Seq<SymbolId>|
            0 <= r < rules.len() && #[trigger] given_all(s, rules[r].rhs, v) implies given(
            s,
            Sym::N(rules[r].lhs),
            v,
        ) by {
            if !cnf::alike(rules[r], unit) {
                let k = lemma_unlike_has(rules, unit, r);
                assert(s[k] == rules[r]);
                lemma_given_rule(s, k, v);
            } else {
                lemma_given_single(s, Sym::N(target), v);
                let q = lemma_given_by(s, target, v);
                if q < a.len() {
                    cnf::lemma_unlike_part(rules, unit, q);
                    let k = choose|k: int| 0 <= k < rules.len() && rules[k] == a[q];
                    let j = lemma_skips_has(rules, unit, k);
                    assert(s[a.len() + j] == cnf::skip_rule(unit, rules[k]));
                    lemma_given_rule(s, a.len() + j, v);
                } else {
                    let k = cnf::lemma_skips_part(rules, unit, q - a.len());
                    assert(s[q] == cnf::skip_rule(unit, rules[k]));
                    assert(target == unit.lhs);
                }
            }
        }
        lemma_language_within(rules, s, x, w);
    }
}

/// Removing unit rules keeps the language.
pub proof fn without_units_keeps_language(
    rules: Seq<cnf::CnfModel>,
    fuel: nat,
    x: Sym,
    w: Seq<SymbolId>,
)
    requires
        cnf::without_units(rules, fuel) is Some,
    ensures
        given(cnf::without_units(rules, fuel)->0, x, w) == given(rules, x, w),
    decreases fuel,
{
    cnf::lemma_first_unit(rules, 0);
    match cnf::first_unit(rules, 0) {
        None => {},
        Some(p) => {
            unit_replaced_keeps_language(rules, p, x, w);
            without_units_keeps_language(
                cnf::unit_replaced(rules, p),
                (fuel - 1) as nat,
                x,
                w,
            );
        },
    }
}

// ---------------------------------------------------------------------------
// Sequences of symbols

pub(crate) proof fn lemma_given_nothing(rules: Seq<cnf::CnfModel>, w: Seq<SymbolId>)
    ensures
        given_all(rules, Seq::empty(), w) == (w.len() == 0),
{
    if w.len() == 0 {
        assert(cnf::gives_all(rules, Seq::empty(), w, 0));
    }
}

pub(crate) proof fn lemma_given_last(rules: Seq<cnf::CnfModel>, xs: Seq<Sym>, w: Seq<SymbolId>) -> (k: int)
    requires
        xs.len() > 0,
        given_all(rules, xs, w),
    ensures
        0 <= k <= w.len(),
        given(rules, xs.last(), w.skip(k)),
        given_all(rules, xs.drop_last(), w.take(k)),
{
    let d = choose|d: nat| #[trigger] cnf::gives_all(rules, xs, w, d);
    choose|k: int|
        0 <= k <= w.len() && cnf::gives(rules, xs.last(), #[trigger] w.skip(k), d)
            && cnf::gives_all(rules, xs.drop_last(), w.take(k), d)
}

pub(crate) proof fn lemma_given_concat(
    rules: Seq<cnf::CnfModel>,
    xs: Seq<Sym>,
    u: Seq<SymbolId>,
    ys: Seq<Sym>,
    v: Seq<SymbolId>,
)
    requires
        given_all(rules, xs, u),
        given_all(rules, ys, v),
    ensures
        given_all(rules, xs + ys, u + v),
    decreases ys.len(),
{
    if ys.len() == 0 {
        lemma_given_nothing(rules, v);
        assert(ys =~= Seq::empty());
        assert(xs + ys =~= xs);
        assert(u + v =~= u);
    } else {
        let k = lemma_given_last(rules, ys, v);
        lemma_given_concat(rules, xs, u, ys.drop_last(), v.take(k));
        lemma_given_push(rules, xs + ys.drop_last(), u + v.take(k), ys.last(), v.skip(k));
        assert((xs + ys.drop_last()).push(ys.last()) =~= xs + ys);
        assert((u + v.take(k)) + v.skip(k) =~= u + v);
    }
}

pub(crate) proof fn lemma_given_cut(
    rules: Seq<cnf::CnfModel>,
    xs: Seq<Sym>,
    ys: Seq<Sym>,
    w: Seq<SymbolId>,
) -> (k: int)
    requires
        given_all(rules, xs + ys, w),
    ensures
        0 <= k <= w.len(),
        given_all(rules, xs, w.take(k)),
        given_all(rules, ys, w.skip(k)),
    decreases ys.len(),
{
    if ys.len() == 0 {
        assert(xs + ys =~= xs);
        assert(w.take(w.len() as int) =~= w);
        assert(ys =~= Seq::empty());
        lemma_given_nothing(rules, w.skip(w.len() as int));
        w.len() as int
    } else {
        let j = lemma_given_last(rules, xs + ys, w);
        assert((xs + ys).drop_last() =~= xs + ys.drop_last());
        assert((xs + ys).last() == ys.last());
        let k = lemma_given_cut(rules, xs, ys.drop_last(), w.take(j));
        assert(w.take(j).take(k) =~= w.take(k));
        lemma_given_push(rules, ys.drop_last(), w.take(j).skip(k), ys.last(), w.skip(j));
        assert(ys.drop_last().push(ys.last()) =~= ys);
        assert(w.take(j).skip(k) + w.skip(j) =~= w.skip(k));
        k
    }
}

// ---------------------------------------------------------------------------
// Stand-ins for terminals

/// Whether every terminal on the right of rules is below `nt`.
pub open spec fn terminals_below(rules: Seq<cnf::CnfModel>, nt: nat) -> bool {
    forall|r: int, j: int|
        0 <= r < rules.len() && 0 <= j < rules[r].rhs.len() ==> match #[trigger] rules[r].rhs[j] {
            Sym::T(t) => t.ix() < nt,
            _ => true,
        }
}

proof fn lemma_stand_ins_has(rules: Seq<cnf::CnfModel>, nt: nat, t: SymbolId) -> (k: int)
    requires
        cnf::in_long(rules, t),
        t.ix() < nt,
    ensures
        0 <= k < cnf::stand_ins(rules, nt).len(),
        cnf::stand_ins(rules, nt)[k] == cnf::stand_in(t),
    decreases nt,
{
    let head = cnf::stand_ins(rules, (nt - 1) as nat);
    if t.ix() < nt - 1 {
        let k = lemma_stand_ins_has(rules, (nt - 1) as nat, t);
        assert(cnf::stand_ins(rules, nt)[k] == head[k]);
        k
    } else {
        assert(SymbolId((nt - 1) as u32) == t);
        head.len() as int
    }
}

pub(crate) proof fn lemma_given_terminal(rules: Seq<cnf::CnfModel>, t: SymbolId, w: Seq<SymbolId>)
    ensures
        given(rules, Sym::T(t), w) == (w == seq![t]),
{
    if w == seq![t] {
        assert(cnf::gives(rules, Sym::T(t), w, 0));
    }
}

/// Lifting terminals out of long rules keeps the language of the grammar's
/// symbols.
pub proof fn stand_ins_keep_language(
    rules: Seq<cnf::CnfModel>,
    nt: nat,
    x: Sym,
    w: Seq<SymbolId>,
)
    requires
        cnf::original(rules),
        terminals_below(rules, nt),
        match x {
            Sym::T(_) => true,
            Sym::N(a) => a is Orig,
        },
    ensures
        given(cnf::with_stand_ins(rules, nt), x, w) == given(rules, x, w),
{
    let s = cnf::with_stand_ins(rules, nt);
    let more = cnf::stand_ins(rules, nt);
    if given(s, x, w) {
        let m = |x: Sym, w: Seq<SymbolId>|
            match x {
                Sym::N(Nt::Term(t)) => w == seq![t],
                _ => given(rules, x, w),
            };
        assert(agrees(s, m)) by {
            assert forall|t: SymbolId| #[trigger] m(Sym::T(t), seq![t]) by {
                lemma_given_terminal(rules, t, seq![t]);
            }
            assert forall|r: int, v: Seq<SymbolId>|
                0 <= r < s.len() && #[trigger] made_of(m, s[r].rhs, v) implies m(
                Sym::N(s[r].lhs),
                v,
            ) by {
                if r < rules.len() {
                    let old_rhs = rules[r].rhs;
                    assert(s[r] == cnf::lifted(rules[r]));
                    assert forall|i: int, u: Seq<SymbolId>|
                        0 <= i < s[r].rhs.len() && #[trigger] m(s[r].rhs[i], u) implies language(
                        rules,
                    )(old_rhs[i], u) by {
                        assert(match rules[r].rhs[i] {
                            Sym::T(_) => true,
                            Sym::N(n) => n is Orig,
                        });
                        if let Sym::T(t) = old_rhs[i] {
                            lemma_given_terminal(rules, t, u);
                        }
                    }
                    lemma_made_mapped(m, language(rules), s[r].rhs, old_rhs, v);
                    lemma_made_given(rules, old_rhs, v);
                    lemma_given_rule(rules, r, v);
                    assert(rules[r].lhs is Orig);
                } else {
                    cnf::lemma_stand_ins_part(rules, nt);
                    assert(s[r] == more[r - rules.len()]);
                    let t = s[r].lhs->Term_0;
                    assert(s[r] == cnf::stand_in(t));
                    let k = choose|k: int|
                        0 <= k <= v.len() && m(s[r].rhs.last(), #[trigger] v.skip(k)) && made_of(
                            m,
                            s[r].rhs.drop_last(),
                            v.take(k),
                        );
                    assert(v.take(k).len() == 0);
                    assert(v.skip(k) =~= v);
                    lemma_given_terminal(rules, t, v);
                }
            }
        }
        let d = choose|d: nat| #[trigger] cnf::gives(s, x, w, d);
        lemma_least(s, m, x, w, d);
    }
    if given(rules, x, w) {
        assert forall|r: int, v: Seq<SymbolId>|
            0 <= r < rules.len() && #[trigger] given_all(s, rules[r].rhs, v) implies given(
            s,
            Sym::N(rules[r].lhs),
            v,
        ) by {
            assert(s[r] == cnf::lifted(rules[r]));
            let old_rhs = rules[r].rhs;
            lemma_given_made(s, old_rhs, v);
            assert forall|i: int, u: Seq<SymbolId>|
                0 <= i < old_rhs.len() && #[trigger] language(s)(old_rhs[i], u) implies language(
                s,
            )(s[r].rhs[i], u) by {
                if old_rhs.len() > 1 {
                    if let Sym::T(t) = old_rhs[i] {
                        assert(rules[r].rhs[i] == Sym::T(t));
                        assert(rules[r].rhs.contains(Sym::T(t)));
                        assert(cnf::in_long(rules, t));
                        let k = lemma_stand_ins_has(rules, nt, t);
                        assert(s[rules.len() + k] == cnf::stand_in(t));
                        lemma_given_single(s, Sym::T(t), u);
                        lemma_given_rule(s, rules.len() + k, u);
                        assert(given(s, Sym::N(Nt::Term(t)), u));
                    }
                }
            }
            lemma_made_mapped(language(s), language(s), old_rhs, s[r].rhs, v);
            lemma_made_given(s, s[r].rhs, v);
            lemma_given_rule(s, r, v);
        }
        lemma_language_within(rules, s, x, w);
    }
}

// ---------------------------------------------------------------------------
// Splits

/// Whether rules name no split symbol.
pub open spec fn no_splits(rules: Seq<cnf::CnfModel>) -> bool {
    &&& forall|r: int| 0 <= r < rules.len() ==> !((#[trigger] rules[r]).lhs is Split)
    &&& forall|r: int, j: int|
        0 <= r < rules.len() && 0 <= j < rules[r].rhs.len() ==> match #[trigger] rules[r].rhs[j] {
            Sym::T(_) => true,
            Sym::N(n) => !(n is Split),
        }
}

/// The number under which rule `q` is split.
pub open spec fn split_number(rules: Seq<cnf::CnfModel>, q: int) -> nat {
    cnf::with_splits(rules.take(q)).1
}

proof fn lemma_split_number(rules: Seq<cnf::CnfModel>, q: int)
    requires
        0 <= q < rules.len(),
    ensures
        split_number(rules, q + 1) == split_number(rules, q) + if rules[q].rhs.len() > 2 {
            1nat
        } else {
            0nat
        },
{
    assert(rules.take(q + 1).drop_last() =~= rules.take(q));
    assert(rules.take(q + 1).last() == rules[q]);
}

pub(crate) proof fn lemma_split_number_grows(rules: Seq<cnf::CnfModel>, p: int, q: int)
    requires
        0 <= p <= q <= rules.len(),
    ensures
        split_number(rules, p) <= split_number(rules, q) <= q,
        p < q && rules[p].rhs.len() > 2 ==> split_number(rules, p) < split_number(rules, q),
    decreases q,
{
    if q == 0 {
        assert(rules.take(0) =~= Seq::empty());
    } else if p < q {
        lemma_split_number_grows(rules, p, q - 1);
        lemma_split_number(rules, q - 1);
    } else {
        lemma_split_number_grows(rules, p - 1, q - 1);
        lemma_split_number(rules, q - 1);
    }
}

pub(crate) proof fn lemma_split_part(rules: Seq<cnf::CnfModel>, k: int) -> (at: (int, int))
    requires
        0 <= k < cnf::with_splits(rules).0.len(),
    ensures
        0 <= at.0 < rules.len(),
        ({
            let r = rules[at.0];
            let n = cnf::with_splits(rules).0[k];
            if r.rhs.len() > 2 {
                0 <= at.1 < r.rhs.len() - 1 && n == cnf::split_rule(
                    r,
                    split_number(rules, at.0) as usize,
                    at.1,
                )
            } else {
                n == r
            }
        }),
    decreases rules.len(),
{
    let front = rules.drop_last();
    let (out, g) = cnf::with_splits(front);
    if k < out.len() {
        let at = lemma_split_part(front, k);
        assert(front.take(at.0) =~= rules.take(at.0));
        assert(front[at.0] == rules[at.0]);
        assert(cnf::with_splits(rules).0[k] == out[k]);
        at
    } else {
        assert(rules.take(rules.len() - 1) =~= front);
        (rules.len() - 1, k - out.len())
    }
}

proof fn lemma_split_has(rules: Seq<cnf::CnfModel>, q: int, i: int) -> (k: int)
    requires
        0 <= q < rules.len(),
        rules[q].rhs.len() > 2 ==> 0 <= i < rules[q].rhs.len() - 1,
    ensures
        0 <= k < cnf::with_splits(rules).0.len(),
        cnf::with_splits(rules).0[k] == if rules[q].rhs.len() > 2 {
            cnf::split_rule(rules[q], split_number(rules, q) as usize, i)
        } else {
            rules[q]
        },
    decreases rules.len(),
{
    let front = rules.drop_last();
    let (out, g) = cnf::with_splits(front);
    if q < rules.len() - 1 {
        assert(front.take(q) =~= rules.take(q));
        assert(front[q] == rules[q]);
        let k = lemma_split_has(front, q, i);
        assert(cnf::with_splits(rules).0[k] == out[k]);
        k
    } else {
        assert(rules.take(rules.len() - 1) =~= front);
        if rules[q].rhs.len() > 2 {
            out.len() + i
        } else {
            out.len() as int
        }
    }
}

/// What a split symbol means: the rest of the rule that was split.
pub open spec fn split_meaning(
    rules: Seq<cnf::CnfModel>,
) -> spec_fn(Sym, Seq<SymbolId>) -> bool {
    |x: Sym, w: Seq<SymbolId>|
        match x {
            Sym::N(Nt::Split(g, i)) => exists|q: int|
                0 <= q < rules.len() && (#[trigger] rules[q]).rhs.len() > 2 && split_number(
                    rules,
                    q,
                ) == g && i < rules[q].rhs.len() && given_all(
                    rules,
                    rules[q].rhs.skip(i as int),
                    w,
                ),
            _ => given(rules, x, w),
        }
}

pub(crate) proof fn lemma_made_plain(
    rules: Seq<cnf::CnfModel>,
    xs: Seq<Sym>,
    w: Seq<SymbolId>,
)
    requires
        made_of(split_meaning(rules), xs, w),
        forall|j: int|
            0 <= j < xs.len() ==> match #[trigger] xs[j] {
                Sym::T(_) => true,
                Sym::N(n) => !(n is Split),
            },
    ensures
        given_all(rules, xs, w),
{
    let m = split_meaning(rules);
    assert forall|i: int, v: Seq<SymbolId>|
        0 <= i < xs.len() && #[trigger] m(xs[i], v) implies language(rules)(xs[i], v) by {
        match xs[i] {
            Sym::T(_) => {},
            Sym::N(n) => {
                assert(!(n is Split));
            },
        }
    }
    lemma_made_mapped(m, language(rules), xs, xs, w);
    lemma_made_given(rules, xs, w);
}

proof fn lemma_split_step(rules: Seq<cnf::CnfModel>, q: int, i: int, v: Seq<SymbolId>)
    requires
        no_splits(rules),
        rules.len() <= usize::MAX,
        0 <= q < rules.len(),
        rules[q].rhs.len() > 2,
        rules[q].rhs.len() <= usize::MAX,
        0 <= i < rules[q].rhs.len() - 1,
        made_of(
            split_meaning(rules),
            cnf::split_rule(rules[q], split_number(rules, q) as usize, i).rhs,
            v,
        ),
    ensures
        given_all(rules, rules[q].rhs.skip(i), v),
{
    let m = split_meaning(rules);
    let rhs = rules[q].rhs;
    let g = split_number(rules, q) as usize;
    lemma_split_number_grows(rules, q, q);
    let two = cnf::split_rule(rules[q], g, i).rhs;
    assert(match rules[q].rhs[i] {
        Sym::T(_) => true,
        Sym::N(n) => !(n is Split),
    });
    if i == rhs.len() - 2 {
        assert(match rules[q].rhs[i + 1] {
            Sym::T(_) => true,
            Sym::N(n) => !(n is Split),
        });
        lemma_made_plain(rules, two, v);
        assert(two =~= rhs.skip(i));
    } else {
        let k = choose|k: int|
            0 <= k <= v.len() && m(two.last(), #[trigger] v.skip(k)) && made_of(
                m,
                two.drop_last(),
                v.take(k),
            );
        assert(two.drop_last() =~= seq![rhs[i]]);
        lemma_made_plain(rules, two.drop_last(), v.take(k));
        assert(two.last() == Sym::N(Nt::Split(g, (i + 1) as usize)));
        let p = choose|p: int|
            0 <= p < rules.len() && (#[trigger] rules[p]).rhs.len() > 2 && split_number(rules, p)
                == g && ((i + 1) as usize) < rules[p].rhs.len() && given_all(
                rules,
                rules[p].rhs.skip((i + 1) as usize as int),
                v.skip(k),
            );
        if p < q {
            lemma_split_number_grows(rules, p, q);
        } else if q < p {
            lemma_split_number_grows(rules, q, p);
        }
        assert(p == q);
        lemma_given_concat(rules, seq![rhs[i]], v.take(k), rhs.skip(i + 1), v.skip(k));
        assert(seq![rhs[i]] + rhs.skip(i + 1) =~= rhs.skip(i));
        assert(v.take(k) + v.skip(k) =~= v);
    }
}

proof fn lemma_split_chain(rules: Seq<cnf::CnfModel>, q: int, i: int, v: Seq<SymbolId>)
    requires
        0 <= q < rules.len(),
        rules[q].rhs.len() > 2,
        rules[q].rhs.len() <= usize::MAX,
        0 <= i < rules[q].rhs.len() - 1,
        given_all(cnf::with_splits(rules).0, rules[q].rhs.skip(i), v),
    ensures
        given(
            cnf::with_splits(rules).0,
            Sym::N(cnf::split_rule(rules[q], split_number(rules, q) as usize, i).lhs),
            v,
        ),
    decreases rules[q].rhs.len() - i,
{
    let s = cnf::with_splits(rules).0;
    let rhs = rules[q].rhs;
    let g = split_number(rules, q) as usize;
    let k = lemma_split_has(rules, q, i);
    let two = cnf::split_rule(rules[q], g, i).rhs;
    if i == rhs.len() - 2 {
        assert(two =~= rhs.skip(i));
    } else {
        assert(seq![rhs[i]] + rhs.skip(i + 1) =~= rhs.skip(i));
        let c = lemma_given_cut(s, seq![rhs[i]], rhs.skip(i + 1), v);
        lemma_split_chain(rules, q, i + 1, v.skip(c));
        lemma_given_push(
            s,
            seq![rhs[i]],
            v.take(c),
            Sym::N(Nt::Split(g, (i + 1) as usize)),
            v.skip(c),
        );
        assert(seq![rhs[i]].push(Sym::N(Nt::Split(g, (i + 1) as usize))) =~= two);
        assert(v.take(c) + v.skip(c) =~= v);
    }
    lemma_given_rule(s, k, v);
}

/// Splitting long rules keeps the language of the symbols of before.
pub proof fn splits_keep_language(rules: Seq<cnf::CnfModel>, x: Sym, w: Seq<SymbolId>)
    requires
        no_splits(rules),
        rules.len() <= usize::MAX,
        forall|r: int| 0 <= r < rules.len() ==> (#[trigger] rules[r]).rhs.len() <= usize::MAX,
        match x {
            Sym::T(_) => true,
            Sym::N(a) => !(a is Split),
        },
    ensures
        given(cnf::with_splits(rules).0, x, w) == given(rules, x, w),
{
    let s = cnf::with_splits(rules).0;
    if given(s, x, w) {
        let m = split_meaning(rules);
        assert(agrees(s, m)) by {
            assert forall|t: SymbolId| #[trigger] m(Sym::T(t), seq![t]) by {
                lemma_given_terminal(rules, t, seq![t]);
            }
            assert forall|r: int, v: Seq<SymbolId>|
                0 <= r < s.len() && #[trigger] made_of(m, s[r].rhs, v) implies m(
                Sym::N(s[r].lhs),
                v,
            ) by {
                let (q, i) = lemma_split_part(rules, r);
                assert(!(rules[q].lhs is Split));
                if rules[q].rhs.len() > 2 {
                    lemma_split_step(rules, q, i, v);
                    lemma_split_number_grows(rules, q, q);
                    if i == 0 {
                        assert(rules[q].rhs.skip(0) =~= rules[q].rhs);
                        lemma_given_rule(rules, q, v);
                    } else {
                        assert(s[r].lhs == Nt::Split(
                            split_number(rules, q) as usize,
                            i as usize,
                        ));
                        assert(rules[q].rhs.len() > 2);
                    }
                } else {
                    assert forall|j: int| 0 <= j < s[r].rhs.len() implies (
                    match #[trigger] s[r].rhs[j] {
                        Sym::T(_) => true,
                        Sym::N(n) => !(n is Split),
                    }) by {
                        assert(match rules[q].rhs[j] {
                            Sym::T(_) => true,
                            Sym::N(n) => !(n is Split),
                        });
                    }
                    lemma_made_plain(rules, s[r].rhs, v);
                    lemma_given_rule(rules, q, v);
                }
            }
        }
        let d = choose|d: nat| #[trigger] cnf::gives(s, x, w, d);
        lemma_least(s, m, x, w, d);
    }
    if given(rules, x, w) {
        assert forall|r: int, v: Seq<SymbolId>|
            0 <= r < rules.len() && #[trigger] given_all(s, rules[r].rhs, v) implies given(
            s,
            Sym::N(rules[r].lhs),
            v,
        ) by {
            if rules[r].rhs.len() > 2 {
                assert(rules[r].rhs.skip(0) =~= rules[r].rhs);
                lemma_split_chain(rules, r, 0, v);
            } else {
                let k = lemma_split_has(rules, r, 0);
                lemma_given_rule(s, k, v);
            }
        }
        lemma_language_within(rules, s, x, w);
    }
}

} // verus!
