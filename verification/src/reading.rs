//! What can be read along an input: tokens of types between positions, and
//! stretches that are passed over.

use vstd::prelude::*;
use crate::analysis;
use crate::symbols;
use crate::symbols::SymbolId;
use crate::tree;

verus! {

/// An input by what lies between its positions: types of tokens, the tokens, and
/// what is ignored; and the symbol that the whole is to be read as.
pub ghost struct Reading {
    pub size: nat,
    pub aim: SymbolId,
    pub tok: spec_fn(int, int, SymbolId) -> bool,
    pub lies: spec_fn(int, int, tree::TokenModel) -> bool,
    pub gap: spec_fn(int, int) -> bool,
}

/// Whether a token of type `s` lies from `a` to `b`.
pub open spec fn tok_at(l: Reading, a: int, b: int, s: SymbolId) -> bool {
    0 <= a < b <= l.size && (l.tok)(a, b, s)
}

/// Whether what lies from `a` to `b` is ignored.
pub open spec fn gap_at(l: Reading, a: int, b: int) -> bool {
    0 <= a < b <= l.size && (l.gap)(a, b)
}

/// Whether nothing is ignored.
pub open spec fn is_firm(l: Reading) -> bool {
    forall|a: int, b: int| !#[trigger] gap_at(l, a, b)
}

/// Whether tokens of the types `w` lead from `a` to `b`, in `d` steps at most,
/// with ignored stretches before, between and after them.
pub open spec fn leads(l: Reading, a: int, b: int, w: Seq<SymbolId>, d: nat) -> bool
    decreases d,
{
    ||| a == b && w.len() == 0 && 0 <= a <= l.size
    ||| d > 0 && exists|c: int|
        #[trigger] gap_at(l, a, c) && leads(l, c, b, w, (d - 1) as nat)
    ||| d > 0 && w.len() > 0 && exists|c: int|
        #[trigger] tok_at(l, a, c, w[0]) && leads(l, c, b, w.skip(1), (d - 1) as nat)
}

/// Whether tokens of the types `w` lead from `a` to `b`.
pub open spec fn is_read(l: Reading, a: int, b: int, w: Seq<SymbolId>) -> bool {
    exists|d: nat| #[trigger] leads(l, a, b, w, d)
}

/// Whether types of tokens can stand for what lies from `a` to `b`: only at the
/// beginning of the input can no token stand for an ignored stretch.
pub open spec fn is_solid(a: int, b: int, w: Seq<SymbolId>) -> bool {
    w.len() > 0 || a == b || a == 0
}

/// Whether a symbol derives types of tokens that lead from `a` to `b`.
pub open spec fn reads(
    rules: Seq<symbols::RuleModel>,
    nt: nat,
    l: Reading,
    s: SymbolId,
    a: int,
    b: int,
) -> bool {
    exists|w: Seq<SymbolId>|
        #[trigger] is_read(l, a, b, w) && is_solid(a, b, w) && analysis::derives(rules, nt, s, w)
}

/// Whether symbols derive types of tokens that lead from `a` to `b`; where `free`
/// is set, no token may stand for an ignored stretch.
pub open spec fn reads_all(
    rules: Seq<symbols::RuleModel>,
    nt: nat,
    l: Reading,
    syms: Seq<SymbolId>,
    a: int,
    b: int,
    free: bool,
) -> bool {
    exists|w: Seq<SymbolId>|
        #[trigger] is_read(l, a, b, w) && (free || is_solid(a, b, w)) && analysis::derives_all(
            rules,
            nt,
            syms,
            w,
        )
}

pub proof fn lemma_leads_more(l: Reading, a: int, b: int, w: Seq<SymbolId>, d: nat, e: nat)
    requires
        leads(l, a, b, w, d),
        d <= e,
    ensures
        leads(l, a, b, w, e),
    decreases d,
{
    if !(a == b && w.len() == 0) {
        if exists|c: int| #[trigger] gap_at(l, a, c) && leads(l, c, b, w, (d - 1) as nat) {
            let c = choose|c: int|
                #[trigger] gap_at(l, a, c) && leads(l, c, b, w, (d - 1) as nat);
            lemma_leads_more(l, c, b, w, (d - 1) as nat, (e - 1) as nat);
        } else {
            let c = choose|c: int|
                #[trigger] tok_at(l, a, c, w[0]) && leads(l, c, b, w.skip(1), (d - 1) as nat);
            lemma_leads_more(l, c, b, w.skip(1), (d - 1) as nat, (e - 1) as nat);
        }
    }
}

pub proof fn lemma_leads_on(
    l: Reading,
    a: int,
    b: int,
    c: int,
    u: Seq<SymbolId>,
    v: Seq<SymbolId>,
    d: nat,
    e: nat,
)
    requires
        leads(l, a, b, u, d),
        leads(l, b, c, v, e),
    ensures
        leads(l, a, c, u + v, d + e),
    decreases d,
{
    if a == b && u.len() == 0 {
        assert(u + v =~= v);
        lemma_leads_more(l, b, c, v, e, d + e);
    } else {
        let p = (d - 1) as nat;
        if exists|q: int| #[trigger] gap_at(l, a, q) && leads(l, q, b, u, p) {
            let q = choose|q: int| #[trigger] gap_at(l, a, q) && leads(l, q, b, u, p);
            lemma_leads_on(l, q, b, c, u, v, p, e);
        } else {
            let q = choose|q: int| #[trigger] tok_at(l, a, q, u[0]) && leads(l, q, b, u.skip(1), p);
            lemma_leads_on(l, q, b, c, u.skip(1), v, p, e);
            assert((u + v).skip(1) =~= u.skip(1) + v);
            assert((u + v)[0] == u[0]);
        }
    }
}

/// What is read from `a` to `b` and on to `c` is read from `a` to `c`.
pub proof fn lemma_read_on(
    l: Reading,
    a: int,
    b: int,
    c: int,
    u: Seq<SymbolId>,
    v: Seq<SymbolId>,
)
    requires
        is_read(l, a, b, u),
        is_read(l, b, c, v),
    ensures
        is_read(l, a, c, u + v),
{
    let d = choose|d: nat| #[trigger] leads(l, a, b, u, d);
    let e = choose|e: nat| #[trigger] leads(l, b, c, v, e);
    lemma_leads_on(l, a, b, c, u, v, d, e);
}

/// Nothing is read from a position to itself.
pub proof fn lemma_read_nothing(l: Reading, a: int)
    requires
        0 <= a <= l.size,
    ensures
        is_read(l, a, a, Seq::empty()),
{
    assert(leads(l, a, a, Seq::empty(), 0));
}

proof fn lemma_leads_bounds(l: Reading, a: int, b: int, w: Seq<SymbolId>, d: nat)
    requires
        leads(l, a, b, w, d),
    ensures
        0 <= a <= b <= l.size,
        a == b ==> w.len() == 0,
    decreases d,
{
    if !(a == b && w.len() == 0) {
        if exists|c: int| #[trigger] gap_at(l, a, c) && leads(l, c, b, w, (d - 1) as nat) {
            let c = choose|c: int|
                #[trigger] gap_at(l, a, c) && leads(l, c, b, w, (d - 1) as nat);
            lemma_leads_bounds(l, c, b, w, (d - 1) as nat);
        } else {
            let c = choose|c: int|
                #[trigger] tok_at(l, a, c, w[0]) && leads(l, c, b, w.skip(1), (d - 1) as nat);
            lemma_leads_bounds(l, c, b, w.skip(1), (d - 1) as nat);
        }
    }
}

/// What is read stays within the input.
pub proof fn lemma_read_bounds(l: Reading, a: int, b: int, w: Seq<SymbolId>)
    requires
        is_read(l, a, b, w),
    ensures
        0 <= a <= b <= l.size,
        a == b ==> w.len() == 0,
{
    let d = choose|d: nat| #[trigger] leads(l, a, b, w, d);
    lemma_leads_bounds(l, a, b, w, d);
}

/// A token is read.
pub proof fn lemma_read_token(l: Reading, a: int, b: int, s: SymbolId)
    requires
        tok_at(l, a, b, s),
    ensures
        is_read(l, a, b, seq![s]),
{
    assert(seq![s].skip(1) =~= Seq::empty());
    assert(leads(l, b, b, seq![s].skip(1), 0));
    assert(seq![s][0] == s);
    assert(leads(l, a, b, seq![s], 1));
}

/// What is ignored is read as nothing.
pub proof fn lemma_read_gap(l: Reading, a: int, b: int)
    requires
        gap_at(l, a, b),
    ensures
        is_read(l, a, b, Seq::empty()),
{
    assert(leads(l, b, b, Seq::empty(), 0));
    assert(leads(l, a, b, Seq::empty(), 1));
}

/// Symbols and one more are read one after the other.
pub proof fn lemma_reads_push(
    rules: Seq<symbols::RuleModel>,
    nt: nat,
    l: Reading,
    syms: Seq<SymbolId>,
    s: SymbolId,
    a: int,
    b: int,
    c: int,
    free: bool,
)
    requires
        reads_all(rules, nt, l, syms, a, b, free),
        reads(rules, nt, l, s, b, c),
        free ==> s.ix() < nt,
    ensures
        forall|any: bool| #[trigger] reads_all(rules, nt, l, syms.push(s), a, c, any),
{
    let u = choose|w: Seq<SymbolId>|
        #[trigger] is_read(l, a, b, w) && (free || is_solid(a, b, w)) && analysis::derives_all(
            rules,
            nt,
            syms,
            w,
        );
    let v = choose|w: Seq<SymbolId>|
        #[trigger] is_read(l, b, c, w) && is_solid(b, c, w) && analysis::derives(rules, nt, s, w);
    lemma_read_bounds(l, a, b, u);
    lemma_read_bounds(l, b, c, v);
    lemma_read_on(l, a, b, c, u, v);
    assert(is_solid(a, c, u + v));
    analysis::lemma_derives_push(rules, nt, syms, u, s, v);
}

/// Symbols that derive nothing can follow.
pub proof fn lemma_reads_tail(
    rules: Seq<symbols::RuleModel>,
    nt: nat,
    l: Reading,
    syms: Seq<SymbolId>,
    tail: Seq<SymbolId>,
    a: int,
    b: int,
    free: bool,
)
    requires
        reads_all(rules, nt, l, syms, a, b, free),
        analysis::derives_all(rules, nt, tail, Seq::empty()),
    ensures
        reads_all(rules, nt, l, syms + tail, a, b, free),
{
    let u = choose|w: Seq<SymbolId>|
        #[trigger] is_read(l, a, b, w) && (free || is_solid(a, b, w)) && analysis::derives_all(
            rules,
            nt,
            syms,
            w,
        );
    analysis::lemma_derives_concat(rules, nt, syms, u, tail, Seq::empty());
    assert(u + Seq::<SymbolId>::empty() =~= u);
}

/// Symbols that derive nothing are read anywhere.
pub proof fn lemma_reads_nothing(
    rules: Seq<symbols::RuleModel>,
    nt: nat,
    l: Reading,
    syms: Seq<SymbolId>,
    a: int,
)
    requires
        analysis::derives_all(rules, nt, syms, Seq::empty()),
        0 <= a <= l.size,
    ensures
        forall|any: bool| #[trigger] reads_all(rules, nt, l, syms, a, a, any),
{
    lemma_read_nothing(l, a);
    assert(is_solid(a, a, Seq::empty()));
}

/// A symbol that derives nothing is read anywhere.
pub proof fn lemma_reads_nullable(
    rules: Seq<symbols::RuleModel>,
    nt: nat,
    l: Reading,
    s: SymbolId,
    a: int,
)
    requires
        analysis::derives(rules, nt, s, Seq::empty()),
        0 <= a <= l.size,
    ensures
        reads(rules, nt, l, s, a, a),
{
    lemma_read_nothing(l, a);
    assert(is_solid(a, a, Seq::empty()));
}

/// A symbol that is read over nothing derives nothing.
pub proof fn lemma_reads_at(
    rules: Seq<symbols::RuleModel>,
    nt: nat,
    l: Reading,
    s: SymbolId,
    a: int,
)
    requires
        reads(rules, nt, l, s, a, a),
    ensures
        analysis::derives(rules, nt, s, Seq::empty()),
{
    let w = choose|w: Seq<SymbolId>|
        #[trigger] is_read(l, a, a, w) && is_solid(a, a, w) && analysis::derives(rules, nt, s, w);
    lemma_read_bounds(l, a, a, w);
    assert(w =~= Seq::empty());
}

/// What is ignored can follow symbols.
pub proof fn lemma_reads_gap(
    rules: Seq<symbols::RuleModel>,
    nt: nat,
    l: Reading,
    syms: Seq<SymbolId>,
    a: int,
    b: int,
    c: int,
    free: bool,
)
    requires
        reads_all(rules, nt, l, syms, a, b, free),
        gap_at(l, b, c),
    ensures
        reads_all(rules, nt, l, syms, a, c, true),
        a == 0 ==> reads_all(rules, nt, l, syms, a, c, false),
{
    let u = choose|w: Seq<SymbolId>|
        #[trigger] is_read(l, a, b, w) && (free || is_solid(a, b, w)) && analysis::derives_all(
            rules,
            nt,
            syms,
            w,
        );
    lemma_read_gap(l, b, c);
    lemma_read_on(l, a, b, c, u, Seq::empty());
    assert(u + Seq::<SymbolId>::empty() =~= u);
}

/// The origin of a rule is read where its expansion is.
pub proof fn lemma_reads_rule(
    rules: Seq<symbols::RuleModel>,
    nt: nat,
    l: Reading,
    r: int,
    a: int,
    b: int,
)
    requires
        0 <= r < rules.len(),
        rules[r].origin.ix() >= nt,
        reads_all(rules, nt, l, rules[r].expansion, a, b, false),
    ensures
        reads(rules, nt, l, rules[r].origin, a, b),
{
    let u = choose|w: Seq<SymbolId>|
        #[trigger] is_read(l, a, b, w) && is_solid(a, b, w) && analysis::derives_all(
            rules,
            nt,
            rules[r].expansion,
            w,
        );
    analysis::lemma_derives_rule(rules, nt, r, u);
}

/// A terminal is read where a token of its type lies.
pub proof fn lemma_reads_token(
    rules: Seq<symbols::RuleModel>,
    nt: nat,
    l: Reading,
    s: SymbolId,
    a: int,
    b: int,
)
    requires
        tok_at(l, a, b, s),
        s.ix() < nt,
    ensures
        reads(rules, nt, l, s, a, b),
{
    lemma_read_token(l, a, b, s);
    assert(is_solid(a, b, seq![s]));
    analysis::lemma_derives_terminal(rules, nt, s);
}

// ---------------------------------------------------------------------------
// Without trailing gaps

/// Whether tokens of the types `w` lead from `a` to `b` with nothing ignored after
/// the last of them.
pub open spec fn is_tight(l: Reading, a: int, b: int, w: Seq<SymbolId>) -> bool
    decreases w.len(),
{
    if w.len() == 0 {
        a == b && 0 <= a <= l.size
    } else {
        exists|p: int, c: int|
            is_read(l, a, p, Seq::empty()) && #[trigger] tok_at(l, p, c, w[0]) && is_tight(
                l,
                c,
                b,
                w.skip(1),
            )
    }
}

/// Whatever is read is read without trailing gaps, up to those.
pub proof fn lemma_tighten(l: Reading, a: int, b: int, w: Seq<SymbolId>, d: nat) -> (e: int)
    requires
        leads(l, a, b, w, d),
    ensures
        is_tight(l, a, e, w),
        is_read(l, e, b, Seq::empty()),
    decreases d,
{
    lemma_leads_bounds(l, a, b, w, d);
    if w.len() == 0 {
        assert(w =~= Seq::empty());
        assert(is_read(l, a, b, w));
        a
    } else {
        let q = (d - 1) as nat;
        if exists|c: int| #[trigger] gap_at(l, a, c) && leads(l, c, b, w, q) {
            let c = choose|c: int| #[trigger] gap_at(l, a, c) && leads(l, c, b, w, q);
            let e = lemma_tighten(l, c, b, w, q);
            let (p, r) = choose|p: int, r: int|
                is_read(l, c, p, Seq::empty()) && #[trigger] tok_at(l, p, r, w[0]) && is_tight(
                    l,
                    r,
                    e,
                    w.skip(1),
                );
            lemma_read_gap(l, a, c);
            lemma_read_on(l, a, c, p, Seq::empty(), Seq::empty());
            assert(Seq::<SymbolId>::empty() + Seq::<SymbolId>::empty() =~= Seq::empty());
            e
        } else {
            let c = choose|c: int|
                #[trigger] tok_at(l, a, c, w[0]) && leads(l, c, b, w.skip(1), q);
            let e = lemma_tighten(l, c, b, w.skip(1), q);
            lemma_read_nothing(l, a);
            e
        }
    }
}

/// What is read without trailing gaps falls into two such parts.
pub proof fn lemma_tight_split(l: Reading, a: int, b: int, w: Seq<SymbolId>, k: int) -> (m: int)
    requires
        is_tight(l, a, b, w),
        0 <= k <= w.len(),
    ensures
        is_tight(l, a, m, w.take(k)),
        is_tight(l, m, b, w.skip(k)),
    decreases k,
{
    if k == 0 {
        assert(w.skip(0) =~= w);
        assert(w.take(0).len() == 0);
        lemma_tight_bounds(l, a, b, w);
        a
    } else {
        let (p, c) = choose|p: int, c: int|
            is_read(l, a, p, Seq::empty()) && #[trigger] tok_at(l, p, c, w[0]) && is_tight(
                l,
                c,
                b,
                w.skip(1),
            );
        let m = lemma_tight_split(l, c, b, w.skip(1), k - 1);
        assert(w.skip(1).take(k - 1) =~= w.take(k).skip(1));
        assert(w.skip(1).skip(k - 1) =~= w.skip(k));
        assert(w.take(k)[0] == w[0]);
        m
    }
}

/// What is read without trailing gaps stays within the input, and is nothing only
/// over nothing.
pub proof fn lemma_tight_bounds(l: Reading, a: int, b: int, w: Seq<SymbolId>)
    requires
        is_tight(l, a, b, w),
    ensures
        0 <= a <= b <= l.size,
        w.len() > 0 ==> a < b,
        is_read(l, a, b, w),
    decreases w.len(),
{
    if w.len() == 0 {
        lemma_read_nothing(l, a);
        assert(w =~= Seq::empty());
    } else {
        let (p, c) = choose|p: int, c: int|
            is_read(l, a, p, Seq::empty()) && #[trigger] tok_at(l, p, c, w[0]) && is_tight(
                l,
                c,
                b,
                w.skip(1),
            );
        lemma_tight_bounds(l, c, b, w.skip(1));
        lemma_read_bounds(l, a, p, Seq::empty());
        lemma_read_token(l, p, c, w[0]);
        lemma_read_on(l, a, p, c, Seq::empty(), seq![w[0]]);
        assert(Seq::<SymbolId>::empty() + seq![w[0]] =~= seq![w[0]]);
        lemma_read_on(l, a, c, b, seq![w[0]], w.skip(1));
        assert(seq![w[0]] + w.skip(1) =~= w);
    }
}

/// Where nothing is ignored, no token leads nowhere.
pub proof fn lemma_firm(l: Reading, a: int, b: int, w: Seq<SymbolId>)
    requires
        is_firm(l),
        is_read(l, a, b, w),
        w.len() == 0,
    ensures
        a == b,
{
    let d = choose|d: nat| #[trigger] leads(l, a, b, w, d);
    if a != b {
        let c = choose|c: int| #[trigger] gap_at(l, a, c) && leads(l, c, b, w, (d - 1) as nat);
        assert(gap_at(l, a, c));
    }
}

// ---------------------------------------------------------------------------
// Tokens

/// The reading of tokens of the given types, one after the other, as `aim`.
pub open spec fn of_types(types: Seq<SymbolId>, aim: SymbolId) -> Reading {
    Reading {
        size: types.len(),
        aim,
        tok: |a: int, b: int, s: SymbolId| b == a + 1 && types[a] == s,
        lies: |a: int, b: int, t: tree::TokenModel| b == a + 1 && types[a] == t.type_id,
        gap: |a: int, b: int| false,
    }
}

proof fn lemma_types_led(
    types: Seq<SymbolId>,
    aim: SymbolId,
    a: int, b: int, w: Seq<SymbolId>, d: nat)
    requires
        leads(of_types(types, aim), a, b, w, d),
    ensures
        0 <= a <= b <= types.len(),
        w == types.subrange(a, b),
    decreases d,
{
    let l = of_types(types, aim);
    if a == b && w.len() == 0 {
        assert(w =~= types.subrange(a, b));
    } else {
        assert forall|c: int| !gap_at(l, a, c) by {
        }
        let c = choose|c: int|
            #[trigger] tok_at(l, a, c, w[0]) && leads(l, c, b, w.skip(1), (d - 1) as nat);
        lemma_types_led(types, aim, c, b, w.skip(1), (d - 1) as nat);
        assert(w =~= seq![w[0]] + w.skip(1));
        assert(w =~= types.subrange(a, b));
    }
}

/// What is read along tokens are their types.
pub proof fn lemma_types_read(
    types: Seq<SymbolId>,
    aim: SymbolId,
    a: int, b: int, w: Seq<SymbolId>)
    requires
        is_read(of_types(types, aim), a, b, w),
    ensures
        0 <= a <= b <= types.len(),
        w == types.subrange(a, b),
{
    let d = choose|d: nat| #[trigger] leads(of_types(types, aim), a, b, w, d);
    lemma_types_led(types, aim, a, b, w, d);
}

/// The types of tokens are read along them, without gaps.
pub proof fn lemma_types_tight(
    types: Seq<SymbolId>,
    aim: SymbolId,
    a: int, b: int)
    requires
        0 <= a <= b <= types.len(),
    ensures
        is_tight(of_types(types, aim), a, b, types.subrange(a, b)),
    decreases b - a,
{
    let l = of_types(types, aim);
    let w = types.subrange(a, b);
    if a < b {
        lemma_types_tight(types, aim, a + 1, b);
        assert(w.skip(1) =~= types.subrange(a + 1, b));
        lemma_read_nothing(l, a);
        assert(tok_at(l, a, a + 1, w[0]));
    }
}

} // verus!
