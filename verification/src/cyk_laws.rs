//! The CYK parser accepts exactly what the grammar derives.

use vstd::prelude::*;
use crate::analysis;
use crate::cnf;
use crate::cnf::{Nt, Sym};
use crate::cnf_laws;
use crate::cyk;
use crate::lalr;
use crate::symbols;
use crate::symbols::{CompiledGrammar, SymbolId};
use crate::tree;

verus! {

// ---------------------------------------------------------------------------
// Leaving out what derives the empty string

proof fn lemma_count_front(flags: Seq<bool>)
    requires
        flags.len() > 0,
    ensures
        cnf::count_on(flags) == cnf::count_on(flags.drop_first()) + if flags[0] {
            1nat
        } else {
            0nat
        },
    decreases flags.len(),
{
    if flags.len() == 1 {
        assert(flags.drop_last() =~= Seq::empty());
        assert(flags.drop_first() =~= Seq::empty());
    } else {
        lemma_count_front(flags.drop_last());
        assert(flags.drop_last().drop_first() =~= flags.drop_first().drop_last());
    }
}

proof fn lemma_mask_exists(flags: Seq<bool>, mask: Seq<bool>) -> (k: nat)
    requires
        mask.len() == flags.len(),
        forall|j: int| 0 <= j < mask.len() && !#[trigger] mask[j] ==> flags[j],
    ensures
        k < cnf::two_to(cnf::count_on(flags)),
        cnf::mask_of(flags, k) == mask,
    decreases flags.len(),
{
    if flags.len() == 0 {
        assert(mask =~= cnf::mask_of(flags, 0));
        0
    } else {
        let f = flags.drop_first();
        let m = mask.drop_first();
        assert forall|j: int| 0 <= j < m.len() && !#[trigger] m[j] implies f[j] by {
            assert(!mask[j + 1]);
        }
        let k = lemma_mask_exists(f, m);
        lemma_count_front(flags);
        if flags[0] {
            let n: nat = if mask[0] {
                2 * k
            } else {
                2 * k + 1
            };
            assert(n / 2 == k);
            assert((n % 2 == 0) == mask[0]);
            assert(cnf::mask_of(flags, n) =~= seq![mask[0]] + m);
            assert(mask =~= seq![mask[0]] + m);
            assert(cnf::two_to(cnf::count_on(flags)) == 2 * cnf::two_to(cnf::count_on(f)));
            n
        } else {
            assert(mask[0]);
            assert(cnf::mask_of(flags, k) =~= seq![mask[0]] + m);
            assert(mask =~= seq![mask[0]] + m);
            k
        }
    }
}

pub(crate) proof fn lemma_mask_drops(flags: Seq<bool>, k: nat, j: int)
    requires
        0 <= j < flags.len(),
        !cnf::mask_of(flags, k)[j],
    ensures
        flags[j],
    decreases flags.len(),
{
    let rest = if flags[0] {
        k / 2
    } else {
        k
    };
    if j > 0 {
        cnf::lemma_mask_len(flags.drop_first(), rest);
        assert(cnf::mask_of(flags, k)[j] == cnf::mask_of(flags.drop_first(), rest)[j - 1]);
        lemma_mask_drops(flags.drop_first(), rest, j - 1);
    }
}

proof fn lemma_masks_has(rhs: Seq<Sym>, flags: Seq<bool>, n: nat, k: nat) -> (i: int)
    requires
        k < n,
        cnf::kept(rhs, cnf::mask_of(flags, k)).len() > 0,
    ensures
        0 <= i < cnf::masks(rhs, flags, n).len(),
        cnf::masks(rhs, flags, n)[i] == cnf::mask_of(flags, k),
    decreases n,
{
    let head = cnf::masks(rhs, flags, (n - 1) as nat);
    if k < n - 1 {
        let i = lemma_masks_has(rhs, flags, (n - 1) as nat, k);
        assert(cnf::masks(rhs, flags, n)[i] == head[i]);
        i
    } else {
        head.len() as int
    }
}

/// Whether a mask leaves out only symbols that derive the empty string.
pub open spec fn drops_empty(all: Seq<cnf::CnfModel>, xs: Seq<Sym>, mask: Seq<bool>) -> bool {
    &&& mask.len() == xs.len()
    &&& forall|j: int|
        0 <= j < mask.len() && !#[trigger] mask[j] ==> cnf::sym_empties(all, xs[j])
}

proof fn lemma_no_flags(flags: Seq<bool>, j: int)
    requires
        cnf::count_on(flags) == 0,
        0 <= j < flags.len(),
    ensures
        !flags[j],
    decreases flags.len(),
{
    if j < flags.len() - 1 {
        lemma_no_flags(flags.drop_last(), j);
    }
}

pub(crate) proof fn lemma_eps_part(
    all: Seq<cnf::CnfModel>,
    effs: Seq<cnf::EffModel>,
    some: Seq<cnf::CnfModel>,
    k: int,
) -> (at: (int, Seq<bool>))
    requires
        0 <= k < cnf::without_empty(all, effs, some).0.len(),
    ensures
        0 <= at.0 < some.len(),
        cnf::without_empty(all, effs, some).0[k].lhs == some[at.0].lhs,
        cnf::without_empty(all, effs, some).0[k].rhs == cnf::kept(some[at.0].rhs, at.1),
        cnf::without_empty(all, effs, some).0[k].rhs.len() > 0,
        drops_empty(all, some[at.0].rhs, at.1),
    decreases some.len(),
{
    let front = some.drop_last();
    let (out, more) = cnf::without_empty(all, effs, front);
    let whole = cnf::without_empty(all, effs, some).0;
    if k < out.len() {
        let at = lemma_eps_part(all, effs, front, k);
        assert(whole[k] == out[k]);
        assert(front[at.0] == some[at.0]);
        at
    } else {
        let r = some.last();
        let flags = cnf::null_flags(all, r.rhs);
        let m = cnf::count_on(flags);
        if m == 0 {
            let mask = Seq::new(r.rhs.len(), |i: int| true);
            cnf::lemma_kept_all(r.rhs, mask);
            (some.len() - 1, mask)
        } else {
            let ms = cnf::masks(r.rhs, flags, cnf::two_to(m));
            let i = k - out.len();
            cnf::lemma_masks_len(r.rhs, flags, cnf::two_to(m), i);
            let n = choose|n: nat| n < cnf::two_to(m) && ms[i] == #[trigger] cnf::mask_of(flags, n);
            assert(whole[k] == cnf::variant_rules(r, ms, more.len())[i]);
            assert forall|j: int| 0 <= j < ms[i].len() && !#[trigger] ms[i][j] implies
                cnf::sym_empties(all, r.rhs[j]) by {
                lemma_mask_drops(flags, n, j);
            }
            (some.len() - 1, ms[i])
        }
    }
}

proof fn lemma_eps_has(
    all: Seq<cnf::CnfModel>,
    effs: Seq<cnf::EffModel>,
    some: Seq<cnf::CnfModel>,
    q: int,
    mask: Seq<bool>,
) -> (k: int)
    requires
        0 <= q < some.len(),
        drops_empty(all, some[q].rhs, mask),
        cnf::kept(some[q].rhs, mask).len() > 0,
    ensures
        0 <= k < cnf::without_empty(all, effs, some).0.len(),
        cnf::without_empty(all, effs, some).0[k].lhs == some[q].lhs,
        cnf::without_empty(all, effs, some).0[k].rhs == cnf::kept(some[q].rhs, mask),
    decreases some.len(),
{
    let front = some.drop_last();
    let (out, more) = cnf::without_empty(all, effs, front);
    let whole = cnf::without_empty(all, effs, some).0;
    if q < some.len() - 1 {
        assert(front[q] == some[q]);
        let k = lemma_eps_has(all, effs, front, q, mask);
        assert(whole[k] == out[k]);
        k
    } else {
        let r = some.last();
        let flags = cnf::null_flags(all, r.rhs);
        let m = cnf::count_on(flags);
        assert(r.rhs.len() > 0);
        if m == 0 {
            assert forall|j: int| 0 <= j < mask.len() implies #[trigger] mask[j] by {
                lemma_no_flags(flags, j);
            }
            cnf::lemma_kept_all(r.rhs, mask);
            out.len() as int
        } else {
            let n = lemma_mask_exists(flags, mask);
            let i = lemma_masks_has(r.rhs, flags, cnf::two_to(m), n);
            let ms = cnf::masks(r.rhs, flags, cnf::two_to(m));
            assert(whole[out.len() + i] == cnf::variant_rules(r, ms, more.len())[i]);
            out.len() + i
        }
    }
}

/// What the kept symbols derive, all the symbols derive.
proof fn lemma_kept_given(
    all: Seq<cnf::CnfModel>,
    xs: Seq<Sym>,
    mask: Seq<bool>,
    v: Seq<SymbolId>,
)
    requires
        drops_empty(all, xs, mask),
        cnf_laws::given_all(all, cnf::kept(xs, mask), v),
    ensures
        cnf_laws::given_all(all, xs, v),
    decreases xs.len(),
{
    if xs.len() == 0 {
        assert(cnf::kept(xs, mask) =~= xs);
    } else {
        let rest = xs.drop_first();
        let m = mask.drop_first();
        assert forall|j: int| 0 <= j < m.len() && !#[trigger] m[j] implies cnf::sym_empties(
            all,
            rest[j],
        ) by {
            assert(!mask[j + 1]);
        }
        let e = Seq::<SymbolId>::empty();
        if mask[0] {
            let k = cnf_laws::lemma_given_cut(all, seq![xs[0]], cnf::kept(rest, m), v);
            lemma_kept_given(all, rest, m, v.skip(k));
            cnf_laws::lemma_given_concat(all, seq![xs[0]], v.take(k), rest, v.skip(k));
            assert(v.take(k) + v.skip(k) =~= v);
        } else {
            lemma_kept_given(all, rest, m, v);
            assert(cnf::sym_empties(all, xs[0]));
            assert(cnf_laws::given(all, xs[0], e));
            cnf_laws::lemma_given_single(all, xs[0], e);
            cnf_laws::lemma_given_concat(all, seq![xs[0]], e, rest, v);
            assert(e + v =~= v);
        }
        assert(seq![xs[0]] + rest =~= xs);
    }
}

pub(crate) proof fn lemma_kept_push(xs: Seq<Sym>, mask: Seq<bool>, x: Sym, b: bool)
    requires
        xs.len() == mask.len(),
    ensures
        cnf::kept(xs.push(x), mask.push(b)) == if b {
            cnf::kept(xs, mask).push(x)
        } else {
            cnf::kept(xs, mask)
        },
    decreases xs.len(),
{
    let ys = xs.push(x);
    let m = mask.push(b);
    if xs.len() == 0 {
        assert(ys.drop_first() =~= Seq::empty());
        assert(cnf::kept(ys.drop_first(), m.drop_first()) =~= Seq::empty());
        assert(cnf::kept(xs, mask) =~= Seq::empty());
        if b {
            assert(cnf::kept(ys, m) =~= cnf::kept(xs, mask).push(x));
        } else {
            assert(cnf::kept(ys, m) =~= cnf::kept(xs, mask));
        }
    } else {
        assert(ys.drop_first() =~= xs.drop_first().push(x));
        assert(m.drop_first() =~= mask.drop_first().push(b));
        lemma_kept_push(xs.drop_first(), mask.drop_first(), x, b);
        if b {
            assert(cnf::kept(ys, m) =~= cnf::kept(xs, mask).push(x));
        } else {
            assert(cnf::kept(ys, m) =~= cnf::kept(xs, mask));
        }
    }
}

proof fn lemma_eps_complete(
    all: Seq<cnf::CnfModel>,
    effs: Seq<cnf::EffModel>,
    x: Sym,
    w: Seq<SymbolId>,
    d: nat,
)
    requires
        cnf::original(all),
        w.len() > 0,
        cnf::gives(all, x, w, d),
    ensures
        cnf_laws::given(cnf::without_empty(all, effs, all).0, x, w),
    decreases d, 0nat,
{
    let s = cnf::without_empty(all, effs, all).0;
    match x {
        Sym::T(t) => {
            cnf_laws::lemma_given_terminal(s, t, w);
        },
        Sym::N(a) => {
            let q = choose|q: int|
                0 <= q < all.len() && (#[trigger] all[q]).lhs == a && cnf::gives_all(
                    all,
                    all[q].rhs,
                    w,
                    (d - 1) as nat,
                );
            assert forall|j: int| 0 <= j < all[q].rhs.len() implies (
            match #[trigger] all[q].rhs[j] {
                Sym::T(_) => true,
                Sym::N(n) => n is Orig,
            }) by {}
            let mask = lemma_eps_mask(all, effs, all[q].rhs, w, (d - 1) as nat);
            if cnf::kept(all[q].rhs, mask).len() == 0 {
                assert(cnf::kept(all[q].rhs, mask) =~= Seq::empty());
                cnf_laws::lemma_given_nothing(s, w);
            }
            let k = lemma_eps_has(all, effs, all, q, mask);
            cnf_laws::lemma_given_rule(s, k, w);
        },
    }
}

proof fn lemma_eps_mask(
    all: Seq<cnf::CnfModel>,
    effs: Seq<cnf::EffModel>,
    xs: Seq<Sym>,
    w: Seq<SymbolId>,
    d: nat,
) -> (mask: Seq<bool>)
    requires
        cnf::original(all),
        cnf::gives_all(all, xs, w, d),
        forall|j: int|
            0 <= j < xs.len() ==> match #[trigger] xs[j] {
                Sym::T(_) => true,
                Sym::N(n) => n is Orig,
            },
    ensures
        drops_empty(all, xs, mask),
        cnf_laws::given_all(cnf::without_empty(all, effs, all).0, cnf::kept(xs, mask), w),
    decreases d, xs.len() + 1,
{
    let s = cnf::without_empty(all, effs, all).0;
    if xs.len() == 0 {
        cnf_laws::lemma_given_nothing(s, w);
        assert(cnf::kept(xs, Seq::empty()) =~= Seq::empty());
        Seq::empty()
    } else {
        let k = choose|k: int|
            0 <= k <= w.len() && cnf::gives(all, xs.last(), #[trigger] w.skip(k), d)
                && cnf::gives_all(all, xs.drop_last(), w.take(k), d);
        let front = xs.drop_last();
        let x = xs.last();
        assert(match xs[xs.len() - 1] {
            Sym::T(_) => true,
            Sym::N(n) => n is Orig,
        });
        assert forall|j: int| 0 <= j < front.len() implies (match #[trigger] front[j] {
            Sym::T(_) => true,
            Sym::N(n) => n is Orig,
        }) by {
            assert(front[j] == xs[j]);
        }
        let m = lemma_eps_mask(all, effs, front, w.take(k), d);
        let b = w.skip(k).len() > 0;
        let mask = m.push(b);
        assert(xs =~= front.push(x));
        lemma_kept_push(front, m, x, b);
        assert forall|j: int| 0 <= j < mask.len() && !#[trigger] mask[j] implies cnf::sym_empties(
            all,
            xs[j],
        ) by {
            if j < m.len() {
                assert(!m[j]);
                assert(front[j] == xs[j]);
            } else {
                assert(w.skip(k) =~= Seq::empty());
                assert(cnf::gives(all, x, Seq::empty(), d));
            }
        }
        if b {
            lemma_eps_complete(all, effs, x, w.skip(k), d);
            cnf_laws::lemma_given_push(s, cnf::kept(front, m), w.take(k), x, w.skip(k));
            assert(w.take(k) + w.skip(k) =~= w);
        } else {
            assert(w.take(k) =~= w);
        }
        mask
    }
}

/// Leaving out empty symbols keeps the language but for the empty string.
pub proof fn without_empty_keeps_language(
    all: Seq<cnf::CnfModel>,
    effs: Seq<cnf::EffModel>,
    x: Sym,
    w: Seq<SymbolId>,
)
    requires
        cnf::original(all),
        w.len() > 0,
    ensures
        cnf_laws::given(cnf::without_empty(all, effs, all).0, x, w) == cnf_laws::given(all, x, w),
{
    let s = cnf::without_empty(all, effs, all).0;
    if cnf_laws::given(s, x, w) {
        assert forall|r: int, v: Seq<SymbolId>|
            0 <= r < s.len() && #[trigger] cnf_laws::given_all(all, s[r].rhs, v) implies
            cnf_laws::given(all, Sym::N(s[r].lhs), v) by {
            let (q, mask) = lemma_eps_part(all, effs, all, r);
            lemma_kept_given(all, all[q].rhs, mask, v);
            cnf_laws::lemma_given_rule(all, q, v);
        }
        cnf_laws::lemma_language_within(s, all, x, w);
    }
    if cnf_laws::given(all, x, w) {
        let d = choose|d: nat| #[trigger] cnf::gives(all, x, w, d);
        lemma_eps_complete(all, effs, x, w, d);
    }
}

// ---------------------------------------------------------------------------
// Unused rules

proof fn lemma_pruned_has(
    rules: Seq<cnf::CnfModel>,
    starts: Seq<SymbolId>,
    some: Seq<cnf::CnfModel>,
    r: int,
) -> (k: int)
    requires
        0 <= r < some.len(),
        cnf::rule_used(rules, starts, some[r]),
    ensures
        0 <= k < cnf::pruned(rules, starts, some).len(),
        cnf::pruned(rules, starts, some)[k] == some[r],
    decreases some.len(),
{
    let head = cnf::pruned(rules, starts, some.drop_last());
    if r < some.len() - 1 {
        let k = lemma_pruned_has(rules, starts, some.drop_last(), r);
        assert(cnf::pruned(rules, starts, some)[k] == head[k]);
        k
    } else {
        head.len() as int
    }
}

spec fn sym_used(rules: Seq<cnf::CnfModel>, starts: Seq<SymbolId>, x: Sym) -> bool {
    match x {
        Sym::T(_) => true,
        Sym::N(a) => a is Orig && cnf::used(rules, starts, a->Orig_0),
    }
}

proof fn lemma_prune_complete(
    all: Seq<cnf::CnfModel>,
    starts: Seq<SymbolId>,
    x: Sym,
    w: Seq<SymbolId>,
    d: nat,
)
    requires
        cnf::original(all),
        sym_used(all, starts, x),
        cnf::gives(all, x, w, d),
    ensures
        cnf::gives(cnf::pruned(all, starts, all), x, w, d),
    decreases d, 0nat,
{
    if let Sym::N(a) = x {
        let s = cnf::pruned(all, starts, all);
        let q = choose|q: int|
            0 <= q < all.len() && (#[trigger] all[q]).lhs == a && cnf::gives_all(
                all,
                all[q].rhs,
                w,
                (d - 1) as nat,
            );
        let k = lemma_pruned_has(all, starts, all, q);
        let n = choose|n: nat| #[trigger] cnf::used_in(all, starts, a->Orig_0, n);
        assert forall|j: int| 0 <= j < all[q].rhs.len() implies sym_used(
            all,
            starts,
            #[trigger] all[q].rhs[j],
        ) by {
            match all[q].rhs[j] {
                Sym::T(_) => {},
                Sym::N(b) => {
                    assert(b is Orig);
                    let o = b->Orig_0;
                    assert(all[q].rhs.contains(Sym::N(Nt::Orig(o))));
                    assert(((n + 1) - 1) as nat == n);
                    assert(all[q].lhs is Orig);
                    assert(cnf::used_in(all, starts, o, n + 1));
                },
            }
        }
        lemma_prune_complete_all(all, starts, all[q].rhs, w, (d - 1) as nat);
        assert(s[k].lhs == a);
    }
}

proof fn lemma_prune_complete_all(
    all: Seq<cnf::CnfModel>,
    starts: Seq<SymbolId>,
    xs: Seq<Sym>,
    w: Seq<SymbolId>,
    d: nat,
)
    requires
        cnf::original(all),
        forall|j: int| 0 <= j < xs.len() ==> sym_used(all, starts, #[trigger] xs[j]),
        cnf::gives_all(all, xs, w, d),
    ensures
        cnf::gives_all(cnf::pruned(all, starts, all), xs, w, d),
    decreases d, xs.len() + 1,
{
    if xs.len() > 0 {
        let k = choose|k: int|
            0 <= k <= w.len() && cnf::gives(all, xs.last(), #[trigger] w.skip(k), d)
                && cnf::gives_all(all, xs.drop_last(), w.take(k), d);
        assert(sym_used(all, starts, xs[xs.len() - 1]));
        assert forall|j: int| 0 <= j < xs.drop_last().len() implies sym_used(
            all,
            starts,
            #[trigger] xs.drop_last()[j],
        ) by {
            assert(sym_used(all, starts, xs[j]));
        }
        lemma_prune_complete(all, starts, xs.last(), w.skip(k), d);
        lemma_prune_complete_all(all, starts, xs.drop_last(), w.take(k), d);
    }
}

/// Dropping unused rules keeps the language of start symbols.
pub proof fn pruned_keeps_language(
    all: Seq<cnf::CnfModel>,
    starts: Seq<SymbolId>,
    s: SymbolId,
    w: Seq<SymbolId>,
)
    requires
        cnf::original(all),
        starts.contains(s),
    ensures
        cnf_laws::given(cnf::pruned(all, starts, all), Sym::N(Nt::Orig(s)), w) == cnf_laws::given(
            all,
            Sym::N(Nt::Orig(s)),
            w,
        ),
{
    let p = cnf::pruned(all, starts, all);
    let x = Sym::N(Nt::Orig(s));
    if cnf_laws::given(p, x, w) {
        assert forall|r: int, v: Seq<SymbolId>|
            0 <= r < p.len() && #[trigger] cnf_laws::given_all(all, p[r].rhs, v) implies
            cnf_laws::given(all, Sym::N(p[r].lhs), v) by {
            cnf::lemma_pruned_part(all, starts, all, r);
            let k = choose|k: int| 0 <= k < all.len() && all[k] == p[r];
            cnf_laws::lemma_given_rule(all, k, v);
        }
        cnf_laws::lemma_language_within(p, all, x, w);
    }
    if cnf_laws::given(all, x, w) {
        let d = choose|d: nat| #[trigger] cnf::gives(all, x, w, d);
        assert(cnf::used_in(all, starts, s, 0));
        lemma_prune_complete(all, starts, x, w, d);
    }
}

// ---------------------------------------------------------------------------
// The rules of the grammar

/// The rules of a grammar without those that only mark its start symbols.
pub open spec fn productions(rules: Seq<symbols::RuleModel>) -> Seq<symbols::RuleModel>
    decreases rules.len(),
{
    if rules.len() == 0 {
        Seq::empty()
    } else if rules.last().is_start {
        productions(rules.drop_last())
    } else {
        productions(rules.drop_last()).push(rules.last())
    }
}

proof fn lemma_productions(rules: Seq<symbols::RuleModel>, nt: nat)
    ensures
        productions(rules).len() == cnf::base_rules(rules, nt).len(),
        forall|i: int|
            0 <= i < productions(rules).len() ==> {
                &&& (#[trigger] cnf::base_rules(rules, nt)[i]).lhs == Nt::Orig(
                    productions(rules)[i].origin,
                )
                &&& cnf::base_rules(rules, nt)[i].rhs == cnf::syms_of(
                    nt,
                    productions(rules)[i].expansion,
                )
                &&& rules.contains(productions(rules)[i])
            },
    decreases rules.len(),
{
    if rules.len() > 0 {
        let front = rules.drop_last();
        lemma_productions(front, nt);
        let p0 = productions(front);
        let p1 = productions(rules);
        let b0 = cnf::base_rules(front, nt);
        let b1 = cnf::base_rules(rules, nt);
        assert forall|i: int| 0 <= i < p1.len() implies {
            &&& (#[trigger] b1[i]).lhs == Nt::Orig(p1[i].origin)
            &&& b1[i].rhs == cnf::syms_of(nt, p1[i].expansion)
            &&& rules.contains(p1[i])
        } by {
            if i < p0.len() {
                assert(b1[i] == b0[i]);
                assert(p1[i] == p0[i]);
                let k = choose|k: int| 0 <= k < front.len() && front[k] == p0[i];
                assert(rules[k] == p0[i]);
            } else {
                assert(rules[rules.len() - 1] == p1[i]);
            }
        }
    }
}

spec fn origins_above(rules: Seq<symbols::RuleModel>, nt: nat) -> bool {
    forall|i: int| 0 <= i < rules.len() ==> (#[trigger] rules[i]).origin.ix() >= nt
}

proof fn lemma_base_gives(
    rules: Seq<symbols::RuleModel>,
    nt: nat,
    s: SymbolId,
    w: Seq<SymbolId>,
    d: nat,
)
    requires
        origins_above(rules, nt),
    ensures
        cnf::gives(cnf::base_rules(rules, nt), cnf::sym_of(nt, s), w, d) == analysis::derives_sym(
            productions(rules),
            nt,
            s,
            w,
            d,
        ),
    decreases d, 0nat,
{
    let b = cnf::base_rules(rules, nt);
    let p = productions(rules);
    lemma_productions(rules, nt);
    if s.ix() >= nt && d > 0 {
        let e = (d - 1) as nat;
        if cnf::gives(b, cnf::sym_of(nt, s), w, d) {
            let r = choose|r: int|
                0 <= r < b.len() && (#[trigger] b[r]).lhs == Nt::Orig(s) && cnf::gives_all(
                    b,
                    b[r].rhs,
                    w,
                    e,
                );
            lemma_base_gives_all(rules, nt, p[r].expansion, w, e);
            assert(p[r].origin == s);
        }
        if analysis::derives_sym(p, nt, s, w, d) {
            let r = choose|r: int|
                0 <= r < p.len() && (#[trigger] p[r]).origin == s && analysis::derives_seq(
                    p,
                    nt,
                    p[r].expansion,
                    w,
                    e,
                );
            lemma_base_gives_all(rules, nt, p[r].expansion, w, e);
            assert(b[r].lhs == Nt::Orig(s));
        }
    }
}

proof fn lemma_base_gives_all(
    rules: Seq<symbols::RuleModel>,
    nt: nat,
    e: Seq<SymbolId>,
    w: Seq<SymbolId>,
    d: nat,
)
    requires
        origins_above(rules, nt),
    ensures
        cnf::gives_all(cnf::base_rules(rules, nt), cnf::syms_of(nt, e), w, d)
            == analysis::derives_seq(productions(rules), nt, e, w, d),
    decreases d, e.len() + 1,
{
    let b = cnf::base_rules(rules, nt);
    let p = productions(rules);
    let xs = cnf::syms_of(nt, e);
    if e.len() > 0 {
        assert(xs.drop_last() =~= cnf::syms_of(nt, e.drop_last()));
        assert(xs.last() == cnf::sym_of(nt, e.last()));
        if cnf::gives_all(b, xs, w, d) {
            let k = choose|k: int|
                0 <= k <= w.len() && cnf::gives(b, xs.last(), #[trigger] w.skip(k), d)
                    && cnf::gives_all(b, xs.drop_last(), w.take(k), d);
            lemma_base_gives(rules, nt, e.last(), w.skip(k), d);
            lemma_base_gives_all(rules, nt, e.drop_last(), w.take(k), d);
            assert(analysis::derives_sym(p, nt, e.last(), w.skip(k), d));
        }
        if analysis::derives_seq(p, nt, e, w, d) {
            let k = choose|k: int|
                0 <= k <= w.len() && analysis::derives_sym(
                    p,
                    nt,
                    e.last(),
                    #[trigger] w.skip(k),
                    d,
                ) && analysis::derives_seq(p, nt, e.drop_last(), w.take(k), d);
            lemma_base_gives(rules, nt, e.last(), w.skip(k), d);
            lemma_base_gives_all(rules, nt, e.drop_last(), w.take(k), d);
            assert(cnf::gives(b, xs.last(), w.skip(k), d));
        }
    }
}

// ---------------------------------------------------------------------------
// The table

proof fn lemma_leaf_found(rules: Seq<cnf::CnfModel>, t: SymbolId, r: int, k: nat)
    requires
        0 <= r < k <= rules.len(),
        rules[r].rhs == seq![Sym::T(t)],
    ensures
        cyk::leaf(rules, t, rules[r].lhs, k) is Some,
    decreases k,
{
    if r < k - 1 {
        lemma_leaf_found(rules, t, r, (k - 1) as nat);
    }
}

proof fn lemma_branch_found(
    rules: Seq<cnf::CnfModel>,
    types: Seq<SymbolId>,
    i: int,
    j: int,
    c: int,
    r: int,
    p: int,
    k: nat,
)
    requires
        0 <= i < c <= p <= j,
        0 <= r < rules.len(),
        k <= rules.len(),
        c < p || r < k,
        rules[r].rhs.len() == 2,
        rules[r].rhs[0] is N,
        rules[r].rhs[1] is N,
        cyk::cell(rules, types, i, c - 1, rules[r].rhs[0]->N_0) is Some,
        cyk::cell(rules, types, c, j, rules[r].rhs[1]->N_0) is Some,
    ensures
        cyk::branch(rules, types, i, j, rules[r].lhs, p, k) is Some,
    decreases p - i, k,
{
    if k == 0 {
        lemma_branch_found(rules, types, i, j, c, r, p - 1, rules.len());
    } else if c < p || r < k - 1 {
        lemma_branch_found(rules, types, i, j, c, r, p, (k - 1) as nat);
    }
}

/// The tokens `i` to `j`.
pub open spec fn span(types: Seq<SymbolId>, i: int, j: int) -> Seq<SymbolId> {
    types.subrange(i, j + 1)
}

/// What the table has an entry for is derived.
proof fn lemma_cell_given(
    rules: Seq<cnf::CnfModel>,
    types: Seq<SymbolId>,
    i: int,
    j: int,
    nt: Nt,
)
    requires
        rules.len() <= usize::MAX,
        types.len() <= usize::MAX,
        cyk::cell(rules, types, i, j, nt) is Some,
    ensures
        0 <= i <= j < types.len(),
        cnf_laws::given(rules, Sym::N(nt), span(types, i, j)),
    decreases j - i,
{
    cyk::lemma_cell_rule(rules, types, i, j, nt);
    let c = cyk::cell(rules, types, i, j, nt)->0;
    let r = rules[c.rule as int];
    if i == j {
        assert(span(types, i, j) =~= seq![types[i]]);
        cnf_laws::lemma_given_terminal(rules, types[i], seq![types[i]]);
        cnf_laws::lemma_given_single(rules, Sym::T(types[i]), seq![types[i]]);
    } else {
        let p = c.split as int;
        let a = r.rhs[0]->N_0;
        let b = r.rhs[1]->N_0;
        lemma_cell_given(rules, types, i, p - 1, a);
        lemma_cell_given(rules, types, p, j, b);
        cnf_laws::lemma_given_single(rules, Sym::N(a), span(types, i, p - 1));
        cnf_laws::lemma_given_push(
            rules,
            seq![Sym::N(a)],
            span(types, i, p - 1),
            Sym::N(b),
            span(types, p, j),
        );
        assert(seq![Sym::N(a)].push(Sym::N(b)) =~= r.rhs);
        assert(span(types, i, p - 1) + span(types, p, j) =~= span(types, i, j));
    }
    cnf_laws::lemma_given_rule(rules, c.rule as int, span(types, i, j));
}

/// What a symbol means by the table: the spans that have an entry for it.
pub open spec fn table_meaning(
    rules: Seq<cnf::CnfModel>,
    types: Seq<SymbolId>,
) -> spec_fn(Sym, Seq<SymbolId>) -> bool {
    |x: Sym, w: Seq<SymbolId>|
        match x {
            Sym::T(t) => w == seq![t],
            Sym::N(nt) => w.len() > 0 && forall|i: int|
                0 <= i && i + w.len() <= types.len() && #[trigger] types.subrange(
                    i,
                    i + w.len(),
                ) == w ==> cyk::cell(rules, types, i, i + w.len() - 1, nt) is Some,
        }
}

/// What is derived the table has an entry for.
proof fn lemma_given_cell(
    rules: Seq<cnf::CnfModel>,
    types: Seq<SymbolId>,
    nt: Nt,
)
    requires
        forall|r: int| 0 <= r < rules.len() ==> cnf::is_normal(#[trigger] rules[r]),
        types.len() > 0,
        cnf_laws::given(rules, Sym::N(nt), types),
    ensures
        cyk::cell(rules, types, 0, types.len() - 1, nt) is Some,
{
    let m = table_meaning(rules, types);
    assert(cnf_laws::agrees(rules, m)) by {
        assert forall|r: int, v: Seq<SymbolId>|
            0 <= r < rules.len() && #[trigger] cnf_laws::made_of(m, rules[r].rhs, v) implies m(
            Sym::N(rules[r].lhs),
            v,
        ) by {
            lemma_table_step(rules, types, r, v);
        }
    }
    let d = choose|d: nat| #[trigger] cnf::gives(rules, Sym::N(nt), types, d);
    cnf_laws::lemma_least(rules, m, Sym::N(nt), types, d);
    assert(types.subrange(0, 0int + types.len()) =~= types);
}

proof fn lemma_table_step(
    rules: Seq<cnf::CnfModel>,
    types: Seq<SymbolId>,
    r: int,
    v: Seq<SymbolId>,
)
    requires
        0 <= r < rules.len(),
        cnf::is_normal(rules[r]),
        cnf_laws::made_of(table_meaning(rules, types), rules[r].rhs, v),
    ensures
        table_meaning(rules, types)(Sym::N(rules[r].lhs), v),
{
    let m = table_meaning(rules, types);
    let rhs = rules[r].rhs;
    let k = choose|k: int|
        0 <= k <= v.len() && m(rhs.last(), #[trigger] v.skip(k)) && cnf_laws::made_of(
            m,
            rhs.drop_last(),
            v.take(k),
        );
    if rhs.len() == 1 {
        let t = rhs[0]->T_0;
        assert(v.take(k).len() == 0);
        assert(v.skip(k) =~= v);
        assert(rhs =~= seq![Sym::T(t)]);
        assert(v == seq![t]);
        assert forall|i: int|
            0 <= i && i + v.len() <= types.len() && #[trigger] types.subrange(i, i + v.len())
                == v implies cyk::cell(rules, types, i, i + v.len() - 1, rules[r].lhs) is Some by {
            assert(types.subrange(i, i + 1)[0] == types[i]);
            assert(v[0] == t);
            lemma_leaf_found(rules, t, r, rules.len());
        }
    } else {
        let a = rhs[0]->N_0;
        let b = rhs[1]->N_0;
        let front = rhs.drop_last();
        assert(front.last() == rhs[0]);
        let u = v.take(k);
        let h = choose|h: int|
            0 <= h <= u.len() && m(front.last(), #[trigger] u.skip(h)) && cnf_laws::made_of(
                m,
                front.drop_last(),
                u.take(h),
            );
        assert(u.take(h).len() == 0);
        assert(u.skip(h) =~= u);
        assert(m(Sym::N(a), u));
        assert(m(Sym::N(b), v.skip(k)));
        assert forall|i: int|
            0 <= i && i + v.len() <= types.len() && #[trigger] types.subrange(i, i + v.len())
                == v implies cyk::cell(rules, types, i, i + v.len() - 1, rules[r].lhs) is Some by {
            let w = types.subrange(i, i + v.len());
            assert(types.subrange(i, i + u.len()) =~= u) by {
                assert forall|q: int| 0 <= q < u.len() implies types.subrange(i, i + u.len())[q]
                    == #[trigger] u[q] by {
                    assert(w[q] == v[q]);
                }
            }
            let z = v.skip(k);
            assert(types.subrange(i + k, (i + k) + z.len()) =~= z) by {
                assert forall|q: int| 0 <= q < z.len() implies types.subrange(
                    i + k,
                    (i + k) + z.len(),
                )[q] == #[trigger] z[q] by {
                    assert(w[q + k] == v[q + k]);
                }
            }
            assert(cyk::cell(rules, types, i, i + u.len() - 1, a) is Some);
            assert(cyk::cell(rules, types, i + k, (i + k) + z.len() - 1, b) is Some);
            let j = i + v.len() - 1;
            lemma_branch_found(rules, types, i, j, i + k, r, j, rules.len());
        }
    }
}

// ---------------------------------------------------------------------------
// The laws

pub(crate) proof fn lemma_nonempty_shape(
    rules: Seq<symbols::RuleModel>,
    nt: nat,
    starts: Seq<SymbolId>,
    n: nat,
)
    requires
        symbols::grammar_wf(rules, n, nt, starts),
        rules.len() <= usize::MAX,
        forall|i: int| 0 <= i < rules.len() ==> (#[trigger] rules[i]).expansion.len() <= usize::MAX,
    ensures
        cnf::original(cnf::nonempty_rules(rules, nt, starts).0),
        cnf_laws::terminals_below(cnf::nonempty_rules(rules, nt, starts).0, nt),
        forall|r: int|
            0 <= r < cnf::nonempty_rules(rules, nt, starts).0.len() ==> (
            #[trigger] cnf::nonempty_rules(rules, nt, starts).0[r]).rhs.len() <= usize::MAX,
{
    let first = cnf::first_rules(rules, nt, starts);
    let effs = cnf::base_effs(rules);
    let out = cnf::nonempty_rules(rules, nt, starts).0;
    cnf::lemma_first(rules, nt, starts, n);
    assert forall|r: int| 0 <= r < out.len() implies (#[trigger] out[r]).lhs is Orig
        && out[r].rhs.len() <= usize::MAX by {
        let (q, mask) = lemma_eps_part(first, effs, first, r);
        assert(first[q].lhs is Orig);
        lemma_kept_part(first[q].rhs, mask);
        assert(cnf::stands_for(first[q], effs, rules, nt));
        assert(first[q].rhs == cnf::syms_of(
            nt,
            rules[cnf::grammar_rule(effs, first[q]) as int].expansion,
        ));
    }
    assert forall|r: int, j: int| 0 <= r < out.len() && 0 <= j < out[r].rhs.len() implies (
    match #[trigger] out[r].rhs[j] {
        Sym::T(t) => t.ix() < nt,
        Sym::N(x) => x is Orig,
    }) by {
        let (q, mask) = lemma_eps_part(first, effs, first, r);
        lemma_kept_part(first[q].rhs, mask);
        assert(first[q].rhs.contains(out[r].rhs[j]));
        let k = choose|k: int| 0 <= k < first[q].rhs.len() && first[q].rhs[k] == out[r].rhs[j];
        assert(cnf::stands_for(first[q], effs, rules, nt));
        assert(first[q].rhs == cnf::syms_of(
            nt,
            rules[cnf::grammar_rule(effs, first[q]) as int].expansion,
        ));
        assert(first[q].rhs[k] == cnf::sym_of(
            nt,
            rules[cnf::grammar_rule(effs, first[q]) as int].expansion[k],
        ));
    }
}

pub(crate) proof fn lemma_kept_part(xs: Seq<Sym>, mask: Seq<bool>)
    ensures
        cnf::kept(xs, mask).len() <= xs.len(),
        forall|j: int|
            0 <= j < cnf::kept(xs, mask).len() ==> xs.contains(#[trigger] cnf::kept(xs, mask)[j]),
    decreases xs.len(),
{
    if xs.len() > 0 && mask.len() > 0 {
        let rest = xs.drop_first();
        let m = mask.drop_first();
        lemma_kept_part(rest, m);
        let out = cnf::kept(xs, mask);
        assert forall|j: int| 0 <= j < out.len() implies xs.contains(#[trigger] out[j]) by {
            let i = if mask[0] {
                j - 1
            } else {
                j
            };
            if i >= 0 {
                assert(out[j] == cnf::kept(rest, m)[i]);
                let k = choose|k: int| 0 <= k < rest.len() && rest[k] == cnf::kept(rest, m)[i];
                assert(xs[k + 1] == out[j]);
            } else {
                assert(xs[0] == out[j]);
            }
        }
    }
}

pub(crate) proof fn lemma_stood_in_shape(rules: Seq<cnf::CnfModel>, nt: nat)
    requires
        cnf::original(rules),
        forall|r: int| 0 <= r < rules.len() ==> (#[trigger] rules[r]).rhs.len() <= usize::MAX,
    ensures
        cnf_laws::no_splits(cnf::deduped(cnf::with_stand_ins(rules, nt))),
        forall|r: int|
            0 <= r < cnf::deduped(cnf::with_stand_ins(rules, nt)).len() ==> (
            #[trigger] cnf::deduped(cnf::with_stand_ins(rules, nt))[r]).rhs.len() <= usize::MAX,
{
    let s = cnf::with_stand_ins(rules, nt);
    let d = cnf::deduped(s);
    cnf::lemma_stand_ins_part(rules, nt);
    assert forall|r: int| 0 <= r < s.len() implies !((#[trigger] s[r]).lhs is Split)
        && s[r].rhs.len() <= usize::MAX by {
        if r < rules.len() {
            assert(s[r] == cnf::lifted(rules[r]));
            assert(rules[r].lhs is Orig);
        } else {
            let t = cnf::stand_ins(rules, nt)[r - rules.len()];
            assert(s[r] == t);
            assert(t.lhs is Term);
        }
    }
    assert forall|r: int, j: int| 0 <= r < s.len() && 0 <= j < s[r].rhs.len() implies (
    match #[trigger] s[r].rhs[j] {
        Sym::T(_) => true,
        Sym::N(x) => !(x is Split),
    }) by {
        if r < rules.len() {
            assert(s[r] == cnf::lifted(rules[r]));
            assert(match rules[r].rhs[j] {
                Sym::T(_) => true,
                Sym::N(x) => x is Orig,
            });
        } else {
            let t = cnf::stand_ins(rules, nt)[r - rules.len()];
            assert(s[r] == t);
            assert(t.lhs is Term);
        }
    }
    assert forall|r: int| 0 <= r < d.len() implies !((#[trigger] d[r]).lhs is Split)
        && d[r].rhs.len() <= usize::MAX by {
        cnf::lemma_deduped_part(s, r);
        let k = choose|k: int| 0 <= k < s.len() && s[k] == d[r];
        assert(!(s[k].lhs is Split));
    }
    assert forall|r: int, j: int| 0 <= r < d.len() && 0 <= j < d[r].rhs.len() implies (
    match #[trigger] d[r].rhs[j] {
        Sym::T(_) => true,
        Sym::N(x) => !(x is Split),
    }) by {
        cnf::lemma_deduped_part(s, r);
        let k = choose|k: int| 0 <= k < s.len() && s[k] == d[r];
        assert(s[k].rhs[j] == d[r].rhs[j]);
    }
}

/// The CYK table has an entry for a start symbol over the whole input exactly
/// where the start symbol derives the input by the rules of the grammar.
pub proof fn cyk_table_is_exact(g: CompiledGrammar, s: SymbolId, w: Seq<SymbolId>)
    requires
        g.wf(),
        cnf::cnf_error(g.models(), g.terminal_count as nat, g.start@, g.symbols@) is None,
        g.start@.contains(s),
        g.terminal_count <= s.ix(),
        0 < w.len() <= usize::MAX,
        cyk_fits(g),
    ensures
        (cyk::cell(
            cyk::cyk_model(
                g.models(),
                g.terminal_count as nat,
                g.start@,
                g.symbols@.len(),
            ).rules,
            w,
            0,
            w.len() - 1,
            Nt::Orig(s),
        ) is Some) == analysis::derives(
            productions(g.models()),
            g.terminal_count as nat,
            s,
            w,
        ),
{
    let rules = g.models();
    let nt = g.terminal_count as nat;
    let starts = g.start@;
    let n = g.symbols@.len();
    let x = Sym::N(Nt::Orig(s));
    assert(g.rules@.len() == g.rules.len());
    assert forall|i: int| 0 <= i < rules.len() implies (#[trigger] rules[i]).expansion.len()
        <= usize::MAX by {
        assert(g.rules@[i].expansion@.len() == g.rules@[i].expansion.len());
    }
    let base = cnf::base_rules(rules, nt);
    let first = cnf::first_rules(rules, nt, starts);
    let out = cnf::nonempty_rules(rules, nt, starts).0;
    let d = cnf::deduped(cnf::with_stand_ins(out, nt));
    let fin = cnf::unitless_rules(rules, nt, starts)->0;
    cnf::lemma_first(rules, nt, starts, n);
    lemma_nonempty_shape(rules, nt, starts, n);
    lemma_stood_in_shape(out, nt);
    lemma_base_original(rules, nt);
    assert(origins_above(rules, nt));
    // from the grammar to the rules that are used
    pruned_keeps_language(base, starts, s, w);
    without_empty_keeps_language(first, cnf::base_effs(rules), x, w);
    cnf_laws::stand_ins_keep_language(out, nt, x, w);
    cnf_laws::deduped_keeps_language(cnf::with_stand_ins(out, nt), x, w);
    cnf_laws::splits_keep_language(d, x, w);
    cnf_laws::deduped_keeps_language(cnf::with_splits(d).0, x, w);
    cnf_laws::without_units_keeps_language(
        cnf::binary_rules(rules, nt, starts),
        cnf::unit_fuel(),
        x,
        w,
    );
    assert(cnf_laws::given(fin, x, w) == cnf_laws::given(base, x, w));
    // from the rules to the table
    assert(!cnf::has_abnormal(fin));
    assert forall|r: int| 0 <= r < fin.len() implies cnf::is_normal(#[trigger] fin[r]) by {}
    if cyk::cell(fin, w, 0, w.len() - 1, Nt::Orig(s)) is Some {
        lemma_cell_given(fin, w, 0, w.len() - 1, Nt::Orig(s));
        assert(span(w, 0, w.len() - 1) =~= w);
    }
    if cnf_laws::given(fin, x, w) {
        lemma_given_cell(fin, w, Nt::Orig(s));
    }
    // from the grammar to the rules to begin with
    assert(cnf::sym_of(nt, s) == x);
    if cnf_laws::given(base, x, w) {
        let e = choose|e: nat| #[trigger] cnf::gives(base, x, w, e);
        lemma_base_gives(rules, nt, s, w, e);
    }
    if analysis::derives(productions(rules), nt, s, w) {
        let e = choose|e: nat| #[trigger] analysis::derives_sym(productions(rules), nt, s, w, e);
        lemma_base_gives(rules, nt, s, w, e);
    }
}

/// The machine can number the rules of the normal form.
pub open spec fn cyk_fits(g: CompiledGrammar) -> bool {
    let nt = g.terminal_count as nat;
    &&& cnf::deduped(
        cnf::with_stand_ins(cnf::nonempty_rules(g.models(), nt, g.start@).0, nt),
    ).len() <= usize::MAX
    &&& (cnf::unitless_rules(g.models(), nt, g.start@)->0).len() <= usize::MAX
}

proof fn lemma_base_original(rules: Seq<symbols::RuleModel>, nt: nat)
    ensures
        cnf::original(cnf::base_rules(rules, nt)),
{
    lemma_productions(rules, nt);
    let b = cnf::base_rules(rules, nt);
    assert forall|r: int| 0 <= r < b.len() implies (#[trigger] b[r]).lhs is Orig by {}
    assert forall|r: int, j: int| 0 <= r < b.len() && 0 <= j < b[r].rhs.len() implies (
    match #[trigger] b[r].rhs[j] {
        Sym::T(_) => true,
        Sym::N(x) => x is Orig,
    }) by {
        assert(b[r].lhs is Orig);
        assert(b[r].rhs == cnf::syms_of(nt, productions(rules)[r].expansion));
    }
}

/// A CYK parse from a configured start symbol succeeds exactly where there are
/// tokens and the start symbol derives them by the rules of the grammar.
pub proof fn cyk_accepts_exactly(
    g: CompiledGrammar,
    tokens: Seq<tree::TokenModel>,
    start: Option<Seq<char>>,
    s: SymbolId,
)
    requires
        g.wf(),
        cnf::cnf_error(g.models(), g.terminal_count as nat, g.start@, g.symbols@) is None,
        lalr::resolved_start(g.start@, g.symbols@, start) == Some(s),
        g.start@.contains(s),
        g.terminal_count <= s.ix(),
        tokens.len() <= usize::MAX,
        cyk_fits(g),
    ensures
        (cyk::cyk_parse(
            cyk::cyk_model(
                g.models(),
                g.terminal_count as nat,
                g.start@,
                g.symbols@.len(),
            ),
            g.symbols@,
            g.start@,
            tokens,
            start,
        ) is Ok) == (cyk::body(tokens).len() > 0 && analysis::derives(
            productions(g.models()),
            g.terminal_count as nat,
            s,
            cyk::types_of(cyk::body(tokens)),
        )),
{
    lemma_body_len(tokens);
    let w = cyk::types_of(cyk::body(tokens));
    if w.len() > 0 {
        cyk_table_is_exact(g, s, w);
    }
}

pub(crate) proof fn lemma_body_len(tokens: Seq<tree::TokenModel>)
    ensures
        cyk::body(tokens).len() <= tokens.len(),
    decreases tokens.len(),
{
    if tokens.len() > 0 {
        lemma_body_len(tokens.drop_last());
    }
}

} // verus!
