//! What a grammar derives, and the symbol sets computed from it: the nullable
//! symbols, the symbols that derive nothing but the empty string, and the
//! first terminals.

use vstd::prelude::*;
use crate::bits;
use crate::bits::{blank_row, blank_rows, union_into};
use crate::symbols;
use crate::symbols::{copy_bools, CompiledGrammar, SymbolId};

verus! {

// ---------------------------------------------------------------------------
// Derivations

/// Whether `s` derives the terminals `w` by a derivation tree of height at
/// most `d`.
pub open spec fn derives_sym(
    rules: Seq<symbols::RuleModel>,
    nt: nat,
    s: SymbolId,
    w: Seq<SymbolId>,
    d: nat,
) -> bool
    decreases d, 0nat,
{
    if s.ix() < nt {
        w == seq![s]
    } else {
        d > 0 && exists|r: int|
            0 <= r < rules.len() && (#[trigger] rules[r]).origin == s && derives_seq(
                rules,
                nt,
                rules[r].expansion,
                w,
                (d - 1) as nat,
            )
    }
}

/// Whether the symbols `syms`, one after the other, derive the terminals `w`
/// by derivation trees of height at most `d`.
pub open spec fn derives_seq(
    rules: Seq<symbols::RuleModel>,
    nt: nat,
    syms: Seq<SymbolId>,
    w: Seq<SymbolId>,
    d: nat,
) -> bool
    decreases d, syms.len(),
{
    if syms.len() == 0 {
        w.len() == 0
    } else {
        exists|k: int|
            0 <= k <= w.len() && derives_sym(rules, nt, syms.last(), #[trigger] w.skip(k), d)
                && derives_seq(rules, nt, syms.drop_last(), w.take(k), d)
    }
}

/// Whether `s` derives the terminals `w`.
pub open spec fn derives(
    rules: Seq<symbols::RuleModel>,
    nt: nat,
    s: SymbolId,
    w: Seq<SymbolId>,
) -> bool {
    exists|d: nat| #[trigger] derives_sym(rules, nt, s, w, d)
}

/// Whether the symbols `syms` derive the terminals `w`.
pub open spec fn derives_all(
    rules: Seq<symbols::RuleModel>,
    nt: nat,
    syms: Seq<SymbolId>,
    w: Seq<SymbolId>,
) -> bool {
    exists|d: nat| #[trigger] derives_seq(rules, nt, syms, w, d)
}

/// A higher bound on the height admits the same derivations.
pub proof fn lemma_derives_mono(
    rules: Seq<symbols::RuleModel>,
    nt: nat,
    s: SymbolId,
    w: Seq<SymbolId>,
    d: nat,
    e: nat,
)
    requires
        derives_sym(rules, nt, s, w, d),
        d <= e,
    ensures
        derives_sym(rules, nt, s, w, e),
    decreases d, 0nat,
{
    if s.ix() >= nt {
        let r = choose|r: int|
            0 <= r < rules.len() && (#[trigger] rules[r]).origin == s && derives_seq(
                rules,
                nt,
                rules[r].expansion,
                w,
                (d - 1) as nat,
            );
        lemma_derives_seq_mono(
            rules,
            nt,
            rules[r].expansion,
            w,
            (d - 1) as nat,
            (e - 1) as nat,
        );
        assert(rules[r].origin == s);
    }
}

/// A higher bound on the height admits the same derivations.
pub proof fn lemma_derives_seq_mono(
    rules: Seq<symbols::RuleModel>,
    nt: nat,
    syms: Seq<SymbolId>,
    w: Seq<SymbolId>,
    d: nat,
    e: nat,
)
    requires
        derives_seq(rules, nt, syms, w, d),
        d <= e,
    ensures
        derives_seq(rules, nt, syms, w, e),
    decreases d, syms.len(),
{
    if syms.len() > 0 {
        let k = choose|k: int|
            0 <= k <= w.len() && derives_sym(rules, nt, syms.last(), #[trigger] w.skip(k), d)
                && derives_seq(rules, nt, syms.drop_last(), w.take(k), d);
        lemma_derives_mono(rules, nt, syms.last(), w.skip(k), d, e);
        lemma_derives_seq_mono(rules, nt, syms.drop_last(), w.take(k), d, e);
    }
}

/// A terminal derives itself.
pub proof fn lemma_derives_terminal(rules: Seq<symbols::RuleModel>, nt: nat, s: SymbolId)
    requires
        s.ix() < nt,
    ensures
        derives(rules, nt, s, seq![s]),
{
    assert(derives_sym(rules, nt, s, seq![s], 0));
}

/// No symbols derive no terminals.
pub proof fn lemma_derives_nothing(rules: Seq<symbols::RuleModel>, nt: nat)
    ensures
        derives_all(rules, nt, Seq::empty(), Seq::empty()),
{
    assert(derives_seq(rules, nt, Seq::empty(), Seq::empty(), 0));
}

/// A rule's origin derives what its expansion derives.
pub proof fn lemma_derives_rule(
    rules: Seq<symbols::RuleModel>,
    nt: nat,
    r: int,
    w: Seq<SymbolId>,
)
    requires
        0 <= r < rules.len(),
        rules[r].origin.ix() >= nt,
        derives_all(rules, nt, rules[r].expansion, w),
    ensures
        derives(rules, nt, rules[r].origin, w),
{
    let d = choose|d: nat| #[trigger] derives_seq(rules, nt, rules[r].expansion, w, d);
    assert(derives_sym(rules, nt, rules[r].origin, w, d + 1));
}

/// A list of symbols derives the concatenation of what its front and its last
/// symbol derive.
pub proof fn lemma_derives_push(
    rules: Seq<symbols::RuleModel>,
    nt: nat,
    syms: Seq<SymbolId>,
    u: Seq<SymbolId>,
    s: SymbolId,
    v: Seq<SymbolId>,
)
    requires
        derives_all(rules, nt, syms, u),
        derives(rules, nt, s, v),
    ensures
        derives_all(rules, nt, syms.push(s), u + v),
{
    let d = choose|d: nat| #[trigger] derives_seq(rules, nt, syms, u, d);
    let e = choose|e: nat| #[trigger] derives_sym(rules, nt, s, v, e);
    let m = if d < e {
        e
    } else {
        d
    };
    lemma_derives_seq_mono(rules, nt, syms, u, d, m);
    lemma_derives_mono(rules, nt, s, v, e, m);
    let all = syms.push(s);
    assert(all.drop_last() =~= syms);
    assert((u + v).take(u.len() as int) =~= u);
    assert((u + v).skip(u.len() as int) =~= v);
    assert(derives_sym(rules, nt, all.last(), (u + v).skip(u.len() as int), m));
    assert(derives_seq(rules, nt, all, u + v, m));
}

/// What a list of symbols derives splits into what its front and its last
/// symbol derive.
pub proof fn lemma_derives_split(
    rules: Seq<symbols::RuleModel>,
    nt: nat,
    syms: Seq<SymbolId>,
    w: Seq<SymbolId>,
) -> (k: int)
    requires
        syms.len() > 0,
        derives_all(rules, nt, syms, w),
    ensures
        0 <= k <= w.len(),
        derives_all(rules, nt, syms.drop_last(), w.take(k)),
        derives(rules, nt, syms.last(), w.skip(k)),
{
    let d = choose|d: nat| #[trigger] derives_seq(rules, nt, syms, w, d);
    let k = choose|k: int|
        0 <= k <= w.len() && derives_sym(rules, nt, syms.last(), #[trigger] w.skip(k), d)
            && derives_seq(rules, nt, syms.drop_last(), w.take(k), d);
    k
}

/// Two lists of symbols derive the concatenation of what each derives.
pub proof fn lemma_derives_concat(
    rules: Seq<symbols::RuleModel>,
    nt: nat,
    a: Seq<SymbolId>,
    u: Seq<SymbolId>,
    b: Seq<SymbolId>,
    v: Seq<SymbolId>,
)
    requires
        derives_all(rules, nt, a, u),
        derives_all(rules, nt, b, v),
    ensures
        derives_all(rules, nt, a + b, u + v),
    decreases b.len(),
{
    if b.len() == 0 {
        let d = choose|d: nat| #[trigger] derives_seq(rules, nt, b, v, d);
        assert(v.len() == 0);
        assert(a + b =~= a);
        assert(u + v =~= u);
    } else {
        let k = lemma_derives_split(rules, nt, b, v);
        lemma_derives_concat(rules, nt, a, u, b.drop_last(), v.take(k));
        lemma_derives_push(rules, nt, a + b.drop_last(), u + v.take(k), b.last(), v.skip(k));
        assert((a + b.drop_last()).push(b.last()) =~= a + b);
        assert((u + v.take(k)) + v.skip(k) =~= u + v);
    }
}

// ---------------------------------------------------------------------------
// Nullable symbols

/// Whether `s` derives the empty string.
pub open spec fn nullable(rules: Seq<symbols::RuleModel>, nt: nat, s: SymbolId) -> bool {
    derives(rules, nt, s, Seq::empty())
}

/// Whether every symbol of `syms` derives the empty string.
pub open spec fn all_nullable(
    rules: Seq<symbols::RuleModel>,
    nt: nat,
    syms: Seq<SymbolId>,
) -> bool {
    forall|j: int| 0 <= j < syms.len() ==> nullable(rules, nt, #[trigger] syms[j])
}

/// Symbols that all derive the empty string derive it together.
pub proof fn lemma_all_nullable_derives(
    rules: Seq<symbols::RuleModel>,
    nt: nat,
    syms: Seq<SymbolId>,
)
    requires
        all_nullable(rules, nt, syms),
    ensures
        derives_all(rules, nt, syms, Seq::empty()),
    decreases syms.len(),
{
    if syms.len() == 0 {
        lemma_derives_nothing(rules, nt);
        assert(syms =~= Seq::empty());
    } else {
        assert forall|j: int| 0 <= j < syms.drop_last().len() implies nullable(
            rules,
            nt,
            #[trigger] syms.drop_last()[j],
        ) by {
            assert(nullable(rules, nt, syms[j]));
        }
        lemma_all_nullable_derives(rules, nt, syms.drop_last());
        assert(nullable(rules, nt, syms[syms.len() - 1]));
        lemma_derives_push(
            rules,
            nt,
            syms.drop_last(),
            Seq::empty(),
            syms.last(),
            Seq::empty(),
        );
        assert(syms.drop_last().push(syms.last()) =~= syms);
        assert(Seq::<SymbolId>::empty() + Seq::<SymbolId>::empty() =~= Seq::empty());
    }
}

/// Symbols that together derive the empty string all derive it.
pub proof fn lemma_derives_all_nullable(
    rules: Seq<symbols::RuleModel>,
    nt: nat,
    syms: Seq<SymbolId>,
)
    requires
        derives_all(rules, nt, syms, Seq::empty()),
    ensures
        all_nullable(rules, nt, syms),
    decreases syms.len(),
{
    if syms.len() > 0 {
        let k = lemma_derives_split(rules, nt, syms, Seq::empty());
        assert(Seq::<SymbolId>::empty().take(k) =~= Seq::empty());
        assert(Seq::<SymbolId>::empty().skip(k) =~= Seq::empty());
        lemma_derives_all_nullable(rules, nt, syms.drop_last());
        assert forall|j: int| 0 <= j < syms.len() implies nullable(
            rules,
            nt,
            #[trigger] syms[j],
        ) by {
            if j < syms.len() - 1 {
                assert(syms.drop_last()[j] == syms[j]);
            }
        }
    }
}

/// Whether a set of symbols holds every rule's origin whose expansion it holds.
spec fn closed_up(rules: Seq<symbols::RuleModel>, set: Seq<bool>) -> bool {
    forall|r: int|
        0 <= r < rules.len() && (forall|j: int|
            0 <= j < rules[r].expansion.len() ==> set[(#[trigger] rules[r].expansion[j]).ix() as int])
            ==> set[(#[trigger] rules[r]).origin.ix() as int]
}

proof fn lemma_closed_up_sym(
    rules: Seq<symbols::RuleModel>,
    nt: nat,
    set: Seq<bool>,
    s: SymbolId,
    d: nat,
)
    requires
        closed_up(rules, set),
        derives_sym(rules, nt, s, Seq::empty(), d),
    ensures
        set[s.ix() as int],
    decreases d, 0nat,
{
    if s.ix() < nt {
        assert(Seq::<SymbolId>::empty().len() == seq![s].len());
    } else {
        let r = choose|r: int|
            0 <= r < rules.len() && (#[trigger] rules[r]).origin == s && derives_seq(
                rules,
                nt,
                rules[r].expansion,
                Seq::empty(),
                (d - 1) as nat,
            );
        lemma_closed_up_seq(rules, nt, set, rules[r].expansion, (d - 1) as nat);
        assert(set[rules[r].origin.ix() as int]);
    }
}

proof fn lemma_closed_up_seq(
    rules: Seq<symbols::RuleModel>,
    nt: nat,
    set: Seq<bool>,
    syms: Seq<SymbolId>,
    d: nat,
)
    requires
        closed_up(rules, set),
        derives_seq(rules, nt, syms, Seq::empty(), d),
    ensures
        forall|j: int| 0 <= j < syms.len() ==> set[(#[trigger] syms[j]).ix() as int],
    decreases d, syms.len(),
{
    if syms.len() > 0 {
        let e = Seq::<SymbolId>::empty();
        let k = choose|k: int|
            0 <= k <= e.len() && derives_sym(rules, nt, syms.last(), #[trigger] e.skip(k), d)
                && derives_seq(rules, nt, syms.drop_last(), e.take(k), d);
        assert(e.take(k) =~= e);
        assert(e.skip(k) =~= e);
        lemma_closed_up_sym(rules, nt, set, syms.last(), d);
        lemma_closed_up_seq(rules, nt, set, syms.drop_last(), d);
        assert forall|j: int| 0 <= j < syms.len() implies set[(#[trigger] syms[j]).ix() as int] by {
            if j < syms.len() - 1 {
                assert(syms.drop_last()[j] == syms[j]);
            }
        }
    }
}

/// Whether the flags of all symbols of `syms` are on.
fn all_set(syms: &Vec<SymbolId>, set: &Vec<bool>) -> (r: bool)
    requires
        forall|j: int| 0 <= j < syms@.len() ==> (#[trigger] syms@[j]).ix() < set@.len(),
    ensures
        r == (forall|j: int| 0 <= j < syms@.len() ==> set@[(#[trigger] syms@[j]).ix() as int]),
{
    let mut j: usize = 0;
    while j < syms.len()
        invariant
            j <= syms.len(),
            forall|j: int| 0 <= j < syms@.len() ==> (#[trigger] syms@[j]).ix() < set@.len(),
            forall|q: int| 0 <= q < j ==> set@[(#[trigger] syms@[q]).ix() as int],
        decreases syms.len() - j,
    {
        if !set[syms[j].index()] {
            return false;
        }
        j = j + 1;
    }
    true
}

/// Marks the symbols that derive the empty string.
pub fn nullable_set(grammar: &CompiledGrammar) -> (r: Vec<bool>)
    requires
        grammar.wf(),
    ensures
        r@.len() == grammar.symbols@.len(),
        forall|s: SymbolId|
            s.ix() < r@.len() ==> #[trigger] r@[s.ix() as int] == nullable(
                grammar.models(),
                grammar.terminal_count as nat,
                s,
            ),
{
    let ghost rules = grammar.models();
    let ghost nt = grammar.terminal_count as nat;
    let n: usize = grammar.symbols.len();
    let mut set = blank_row(n);
    let mut changed = true;
    while changed
        invariant
            grammar.wf(),
            rules == grammar.models(),
            nt == grammar.terminal_count,
            n == grammar.symbols@.len(),
            set@.len() == n,
            forall|s: SymbolId|
                s.ix() < n && #[trigger] set@[s.ix() as int] ==> nullable(rules, nt, s),
            !changed ==> closed_up(rules, set@),
        decreases bits::missing(set@), changed as int,
    {
        changed = false;
        let ghost before = set@;
        let mut i: usize = 0;
        proof {
            assert(bits::row_le(before, set@));
        }
        while i < grammar.rules.len()
            invariant
                i <= grammar.rules.len(),
                grammar.wf(),
                rules == grammar.models(),
                nt == grammar.terminal_count,
                n == grammar.symbols@.len(),
                set@.len() == n,
                forall|s: SymbolId|
                    s.ix() < n && #[trigger] set@[s.ix() as int] ==> nullable(rules, nt, s),
                bits::row_le(before, set@),
                changed == (before != set@),
                !changed ==> forall|r: int|
                    0 <= r < i && (forall|j: int|
                        0 <= j < rules[r].expansion.len() ==> set@[(
                        #[trigger] rules[r].expansion[j]).ix() as int]) ==> set@[(
                    #[trigger] rules[r]).origin.ix() as int],
            decreases grammar.rules.len() - i,
        {
            let rule = &grammar.rules[i];
            let ghost prev = set@;
            proof {
                assert(rules[i as int] == rule@);
                assert forall|j: int| 0 <= j < rule.expansion@.len() implies (
                #[trigger] rule.expansion@[j]).ix() < set@.len() by {
                    assert(rules[i as int].expansion[j].ix() < n);
                }
            }
            if !set[rule.origin.index()] && all_set(&rule.expansion, &set) {
                proof {
                    assert forall|j: int| 0 <= j < rules[i as int].expansion.len() implies nullable(
                        rules,
                        nt,
                        #[trigger] rules[i as int].expansion[j],
                    ) by {
                        assert(set@[rule.expansion@[j].ix() as int]);
                    }
                    lemma_all_nullable_derives(rules, nt, rules[i as int].expansion);
                    lemma_derives_rule(rules, nt, i as int, Seq::empty());
                }
                set.set(rule.origin.index(), true);
                changed = true;
                proof {
                    let o = rule.origin.ix() as int;
                    assert(!before[o]);
                    assert(set@[o]);
                    assert forall|q: int| 0 <= q < before.len() && before[q] implies
                        #[trigger] set@[q] by {
                        assert(prev[q]);
                    }
                }
            }
            i = i + 1;
        }
        proof {
            bits::lemma_missing_le(before, set@);
        }
    }
    proof {
        assert forall|s: SymbolId| s.ix() < set@.len() implies #[trigger] set@[s.ix() as int]
            == nullable(rules, nt, s) by {
            if nullable(rules, nt, s) {
                let d = choose|d: nat| #[trigger] derives_sym(rules, nt, s, Seq::empty(), d);
                lemma_closed_up_sym(rules, nt, set@, s, d);
            }
        }
    }
    set
}

// ---------------------------------------------------------------------------
// Symbols that can grow

/// Whether `s` derives some terminals, or the empty string.
pub open spec fn productive(rules: Seq<symbols::RuleModel>, nt: nat, s: SymbolId) -> bool {
    exists|w: Seq<SymbolId>| #[trigger] derives(rules, nt, s, w)
}

/// Whether `s` derives something other than the empty string.
pub open spec fn grows(rules: Seq<symbols::RuleModel>, nt: nat, s: SymbolId) -> bool {
    exists|w: Seq<SymbolId>| w.len() > 0 && #[trigger] derives(rules, nt, s, w)
}

/// Whether the symbols `syms` derive something other than the empty string.
pub open spec fn grows_all(
    rules: Seq<symbols::RuleModel>,
    nt: nat,
    syms: Seq<SymbolId>,
) -> bool {
    exists|w: Seq<SymbolId>| w.len() > 0 && #[trigger] derives_all(rules, nt, syms, w)
}

/// Whether `s` derives the empty string and nothing else.
pub open spec fn eps_only(rules: Seq<symbols::RuleModel>, nt: nat, s: SymbolId) -> bool {
    nullable(rules, nt, s) && forall|w: Seq<SymbolId>| #[trigger]
        derives(rules, nt, s, w) ==> w.len() == 0
}

/// A terminal grows.
pub proof fn lemma_terminal_grows(rules: Seq<symbols::RuleModel>, nt: nat, s: SymbolId)
    requires
        s.ix() < nt,
    ensures
        grows(rules, nt, s),
{
    lemma_derives_terminal(rules, nt, s);
    assert(seq![s].len() == 1);
}

/// The origin of a rule grows with its expansion.
pub proof fn lemma_rule_grows(rules: Seq<symbols::RuleModel>, nt: nat, r: int)
    requires
        0 <= r < rules.len(),
        rules[r].origin.ix() >= nt,
        grows_all(rules, nt, rules[r].expansion),
    ensures
        grows(rules, nt, rules[r].origin),
{
    let w = choose|w: Seq<SymbolId>|
        w.len() > 0 && #[trigger] derives_all(rules, nt, rules[r].expansion, w);
    lemma_derives_rule(rules, nt, r, w);
}

/// Symbols that are all productive derive something together, and grow where
/// one of them does.
proof fn lemma_productive_all(
    rules: Seq<symbols::RuleModel>,
    nt: nat,
    syms: Seq<SymbolId>,
) -> (w: Seq<SymbolId>)
    requires
        forall|j: int| 0 <= j < syms.len() ==> productive(rules, nt, #[trigger] syms[j]),
    ensures
        derives_all(rules, nt, syms, w),
        (exists|j: int| 0 <= j < syms.len() && grows(rules, nt, #[trigger] syms[j])) ==> w.len()
            > 0,
    decreases syms.len(),
{
    if syms.len() == 0 {
        lemma_derives_nothing(rules, nt);
        assert(syms =~= Seq::empty());
        Seq::empty()
    } else {
        let front = syms.drop_last();
        let last = syms.last();
        assert forall|j: int| 0 <= j < front.len() implies productive(
            rules,
            nt,
            #[trigger] front[j],
        ) by {
            assert(productive(rules, nt, syms[j]));
        }
        let u = lemma_productive_all(rules, nt, front);
        assert(productive(rules, nt, syms[syms.len() - 1]));
        let v = if grows(rules, nt, last) {
            choose|v: Seq<SymbolId>| v.len() > 0 && #[trigger] derives(rules, nt, last, v)
        } else {
            choose|v: Seq<SymbolId>| #[trigger] derives(rules, nt, last, v)
        };
        lemma_derives_push(rules, nt, front, u, last, v);
        assert(front.push(last) =~= syms);
        if exists|j: int| 0 <= j < syms.len() && grows(rules, nt, #[trigger] syms[j]) {
            let j = choose|j: int| 0 <= j < syms.len() && grows(rules, nt, #[trigger] syms[j]);
            if j < front.len() {
                assert(grows(rules, nt, front[j]));
            }
        }
        u + v
    }
}

/// Whether a set of symbols holds the terminals, and every rule's origin whose
/// expansion it holds.
spec fn closed_productive(rules: Seq<symbols::RuleModel>, nt: nat, set: Seq<bool>) -> bool {
    &&& nt <= set.len()
    &&& forall|s: int| 0 <= s < nt ==> #[trigger] set[s]
    &&& closed_up(rules, set)
}

proof fn lemma_closed_productive(
    rules: Seq<symbols::RuleModel>,
    nt: nat,
    set: Seq<bool>,
    s: SymbolId,
    w: Seq<SymbolId>,
    d: nat,
)
    requires
        closed_productive(rules, nt, set),
        derives_sym(rules, nt, s, w, d),
    ensures
        set[s.ix() as int],
    decreases d, 0nat,
{
    if s.ix() >= nt {
        let r = choose|r: int|
            0 <= r < rules.len() && (#[trigger] rules[r]).origin == s && derives_seq(
                rules,
                nt,
                rules[r].expansion,
                w,
                (d - 1) as nat,
            );
        lemma_closed_productive_seq(rules, nt, set, rules[r].expansion, w, (d - 1) as nat);
        assert(set[rules[r].origin.ix() as int]);
    }
}

proof fn lemma_closed_productive_seq(
    rules: Seq<symbols::RuleModel>,
    nt: nat,
    set: Seq<bool>,
    syms: Seq<SymbolId>,
    w: Seq<SymbolId>,
    d: nat,
)
    requires
        closed_productive(rules, nt, set),
        derives_seq(rules, nt, syms, w, d),
    ensures
        forall|j: int| 0 <= j < syms.len() ==> set[(#[trigger] syms[j]).ix() as int],
    decreases d, syms.len(),
{
    if syms.len() > 0 {
        let k = choose|k: int|
            0 <= k <= w.len() && derives_sym(rules, nt, syms.last(), #[trigger] w.skip(k), d)
                && derives_seq(rules, nt, syms.drop_last(), w.take(k), d);
        lemma_closed_productive(rules, nt, set, syms.last(), w.skip(k), d);
        lemma_closed_productive_seq(rules, nt, set, syms.drop_last(), w.take(k), d);
        assert forall|j: int| 0 <= j < syms.len() implies set[(#[trigger] syms[j]).ix() as int] by {
            if j < syms.len() - 1 {
                assert(syms.drop_last()[j] == syms[j]);
            }
        }
    }
}

/// Whether every symbol of `syms` is in `set`.
spec fn all_in(set: Seq<bool>, syms: Seq<SymbolId>) -> bool {
    forall|j: int| 0 <= j < syms.len() ==> set[(#[trigger] syms[j]).ix() as int]
}

/// Whether a set holds the terminals, and the origin of every rule that holds
/// one of its symbols, where all of the rule's symbols are in `live`.
spec fn closed_grow(
    rules: Seq<symbols::RuleModel>,
    nt: nat,
    live: Seq<bool>,
    set: Seq<bool>,
) -> bool {
    &&& nt <= set.len()
    &&& forall|s: int| 0 <= s < nt ==> #[trigger] set[s]
    &&& forall|r: int, j: int|
        0 <= r < rules.len() && 0 <= j < rules[r].expansion.len() && all_in(
            live,
            rules[r].expansion,
        ) && set[(#[trigger] rules[r].expansion[j]).ix() as int]
            ==> set[rules[r].origin.ix() as int]
}

proof fn lemma_closed_grow(
    rules: Seq<symbols::RuleModel>,
    nt: nat,
    live: Seq<bool>,
    set: Seq<bool>,
    s: SymbolId,
    w: Seq<SymbolId>,
    d: nat,
)
    requires
        closed_productive(rules, nt, live),
        closed_grow(rules, nt, live, set),
        derives_sym(rules, nt, s, w, d),
        w.len() > 0,
    ensures
        set[s.ix() as int],
    decreases d, 0nat,
{
    if s.ix() >= nt {
        let r = choose|r: int|
            0 <= r < rules.len() && (#[trigger] rules[r]).origin == s && derives_seq(
                rules,
                nt,
                rules[r].expansion,
                w,
                (d - 1) as nat,
            );
        lemma_closed_productive_seq(rules, nt, live, rules[r].expansion, w, (d - 1) as nat);
        let j = lemma_closed_grow_seq(
            rules,
            nt,
            live,
            set,
            rules[r].expansion,
            w,
            (d - 1) as nat,
        );
        assert(set[rules[r].expansion[j].ix() as int]);
    }
}

proof fn lemma_closed_grow_seq(
    rules: Seq<symbols::RuleModel>,
    nt: nat,
    live: Seq<bool>,
    set: Seq<bool>,
    syms: Seq<SymbolId>,
    w: Seq<SymbolId>,
    d: nat,
) -> (j: int)
    requires
        closed_productive(rules, nt, live),
        closed_grow(rules, nt, live, set),
        derives_seq(rules, nt, syms, w, d),
        w.len() > 0,
    ensures
        0 <= j < syms.len(),
        set[syms[j].ix() as int],
    decreases d, syms.len(),
{
    let k = choose|k: int|
        0 <= k <= w.len() && derives_sym(rules, nt, syms.last(), #[trigger] w.skip(k), d)
            && derives_seq(rules, nt, syms.drop_last(), w.take(k), d);
    if k < w.len() {
        lemma_closed_grow(rules, nt, live, set, syms.last(), w.skip(k), d);
        syms.len() - 1
    } else {
        let j = lemma_closed_grow_seq(rules, nt, live, set, syms.drop_last(), w.take(k), d);
        assert(syms.drop_last()[j] == syms[j]);
        j
    }
}

fn any_set(syms: &Vec<SymbolId>, set: &Vec<bool>) -> (r: Option<usize>)
    requires
        forall|j: int| 0 <= j < syms@.len() ==> (#[trigger] syms@[j]).ix() < set@.len(),
    ensures
        match r {
            Some(j) => j < syms@.len() && set@[syms@[j as int].ix() as int],
            None => forall|j: int|
                0 <= j < syms@.len() ==> !set@[(#[trigger] syms@[j]).ix() as int],
        },
{
    let mut j: usize = 0;
    while j < syms.len()
        invariant
            j <= syms.len(),
            forall|j: int| 0 <= j < syms@.len() ==> (#[trigger] syms@[j]).ix() < set@.len(),
            forall|q: int| 0 <= q < j ==> !set@[(#[trigger] syms@[q]).ix() as int],
        decreases syms.len() - j,
    {
        if set[syms[j].index()] {
            return Some(j);
        }
        j = j + 1;
    }
    None
}

/// The set of the first `nt` of `n` symbols.
fn terminal_row(n: usize, nt: usize) -> (set: Vec<bool>)
    requires
        nt <= n,
    ensures
        set@.len() == n,
        forall|q: int| 0 <= q < n ==> #[trigger] set@[q] == (q < nt),
{
    let mut set = blank_row(n);
    let mut t: usize = 0;
    while t < nt
        invariant
            t <= nt <= n,
            set@.len() == n,
            forall|q: int| 0 <= q < n ==> #[trigger] set@[q] == (q < t),
        decreases nt - t,
    {
        set.set(t, true);
        t = t + 1;
    }
    set
}

/// Marks the symbols that derive something.
fn productive_set(grammar: &CompiledGrammar) -> (r: Vec<bool>)
    requires
        grammar.wf(),
    ensures
        r@.len() == grammar.symbols@.len(),
        closed_productive(grammar.models(), grammar.terminal_count as nat, r@),
        forall|s: SymbolId|
            s.ix() < r@.len() && #[trigger] r@[s.ix() as int] ==> productive(
                grammar.models(),
                grammar.terminal_count as nat,
                s,
            ),
{
    let ghost rules = grammar.models();
    let nt: usize = grammar.terminal_count;
    let n: usize = grammar.symbols.len();
    let mut set = terminal_row(n, nt);
    proof {
        assert forall|s: SymbolId| s.ix() < n && #[trigger] set@[s.ix() as int] implies productive(
            rules,
            nt as nat,
            s,
        ) by {
            lemma_derives_terminal(rules, nt as nat, s);
        }
    }
    let mut changed = true;
    while changed
        invariant
            grammar.wf(),
            rules == grammar.models(),
            nt == grammar.terminal_count,
            n == grammar.symbols@.len(),
            set@.len() == n,
            nt <= n,
            forall|q: int| 0 <= q < nt ==> #[trigger] set@[q],
            forall|s: SymbolId|
                s.ix() < n && #[trigger] set@[s.ix() as int] ==> productive(rules, nt as nat, s),
            !changed ==> closed_up(rules, set@),
        decreases bits::missing(set@), changed as int,
    {
        changed = false;
        let ghost before = set@;
        let mut i: usize = 0;
        while i < grammar.rules.len()
            invariant
                i <= grammar.rules.len(),
                grammar.wf(),
                rules == grammar.models(),
                nt == grammar.terminal_count,
                n == grammar.symbols@.len(),
                set@.len() == n,
                forall|q: int| 0 <= q < nt ==> #[trigger] set@[q],
                forall|s: SymbolId|
                    s.ix() < n && #[trigger] set@[s.ix() as int] ==> productive(
                        rules,
                        nt as nat,
                        s,
                    ),
                bits::row_le(before, set@),
                changed == (before != set@),
                !changed ==> forall|r: int|
                    0 <= r < i && (forall|j: int|
                        0 <= j < rules[r].expansion.len() ==> set@[(
                        #[trigger] rules[r].expansion[j]).ix() as int]) ==> set@[(
                    #[trigger] rules[r]).origin.ix() as int],
            decreases grammar.rules.len() - i,
        {
            let rule = &grammar.rules[i];
            let ghost prev = set@;
            proof {
                assert(rules[i as int] == rule@);
                assert forall|j: int| 0 <= j < rule.expansion@.len() implies (
                #[trigger] rule.expansion@[j]).ix() < set@.len() by {
                    assert(rules[i as int].expansion[j].ix() < n);
                }
            }
            if !set[rule.origin.index()] && all_set(&rule.expansion, &set) {
                proof {
                    assert forall|j: int| 0 <= j < rules[i as int].expansion.len() implies productive(
                        rules,
                        nt as nat,
                        #[trigger] rules[i as int].expansion[j],
                    ) by {
                        assert(set@[rule.expansion@[j].ix() as int]);
                    }
                    let w = lemma_productive_all(rules, nt as nat, rules[i as int].expansion);
                    lemma_derives_rule(rules, nt as nat, i as int, w);
                }
                set.set(rule.origin.index(), true);
                changed = true;
                proof {
                    let o = rule.origin.ix() as int;
                    assert(!before[o]);
                    assert(set@[o]);
                    assert forall|q: int| 0 <= q < before.len() && before[q] implies
                        #[trigger] set@[q] by {
                        assert(prev[q]);
                    }
                }
            }
            i = i + 1;
        }
        proof {
            bits::lemma_missing_le(before, set@);
        }
    }
    set
}

/// Marks the symbols that derive something other than the empty string.
fn grow_set(grammar: &CompiledGrammar) -> (r: Vec<bool>)
    requires
        grammar.wf(),
    ensures
        r@.len() == grammar.symbols@.len(),
        forall|s: SymbolId|
            s.ix() < r@.len() ==> #[trigger] r@[s.ix() as int] == grows(
                grammar.models(),
                grammar.terminal_count as nat,
                s,
            ),
{
    let ghost rules = grammar.models();
    let nt: usize = grammar.terminal_count;
    let n: usize = grammar.symbols.len();
    let live = productive_set(grammar);
    let mut set = terminal_row(n, nt);
    proof {
        assert forall|s: SymbolId| s.ix() < n && #[trigger] set@[s.ix() as int] implies grows(
            rules,
            nt as nat,
            s,
        ) by {
            lemma_terminal_grows(rules, nt as nat, s);
        }
    }
    let mut changed = true;
    while changed
        invariant
            grammar.wf(),
            rules == grammar.models(),
            nt == grammar.terminal_count,
            n == grammar.symbols@.len(),
            nt <= n,
            live@.len() == n,
            forall|s: SymbolId|
                s.ix() < n && #[trigger] live@[s.ix() as int] ==> productive(rules, nt as nat, s),
            set@.len() == n,
            forall|q: int| 0 <= q < nt ==> #[trigger] set@[q],
            forall|s: SymbolId|
                s.ix() < n && #[trigger] set@[s.ix() as int] ==> grows(rules, nt as nat, s),
            !changed ==> closed_grow(rules, nt as nat, live@, set@),
        decreases bits::missing(set@), changed as int,
    {
        changed = false;
        let ghost before = set@;
        let mut i: usize = 0;
        while i < grammar.rules.len()
            invariant
                i <= grammar.rules.len(),
                grammar.wf(),
                rules == grammar.models(),
                nt == grammar.terminal_count,
                n == grammar.symbols@.len(),
                live@.len() == n,
                forall|s: SymbolId|
                    s.ix() < n && #[trigger] live@[s.ix() as int] ==> productive(
                        rules,
                        nt as nat,
                        s,
                    ),
                set@.len() == n,
                forall|q: int| 0 <= q < nt ==> #[trigger] set@[q],
                forall|s: SymbolId|
                    s.ix() < n && #[trigger] set@[s.ix() as int] ==> grows(rules, nt as nat, s),
                bits::row_le(before, set@),
                changed == (before != set@),
                !changed ==> forall|r: int, j: int|
                    0 <= r < i && 0 <= j < rules[r].expansion.len() && all_in(
                        live@,
                        rules[r].expansion,
                    ) && set@[(#[trigger] rules[r].expansion[j]).ix() as int]
                        ==> set@[rules[r].origin.ix() as int],
            decreases grammar.rules.len() - i,
        {
            let rule = &grammar.rules[i];
            let ghost prev = set@;
            proof {
                assert(rules[i as int] == rule@);
                assert forall|j: int| 0 <= j < rule.expansion@.len() implies (
                #[trigger] rule.expansion@[j]).ix() < set@.len() by {
                    assert(rules[i as int].expansion[j].ix() < n);
                }
            }
            if !set[rule.origin.index()] && all_set(&rule.expansion, &live) {
                let found = any_set(&rule.expansion, &set);
                if let Some(j) = found {
                    proof {
                        let e = rules[i as int].expansion;
                        assert forall|q: int| 0 <= q < e.len() implies productive(
                            rules,
                            nt as nat,
                            #[trigger] e[q],
                        ) by {
                            assert(live@[rule.expansion@[q].ix() as int]);
                        }
                        assert(grows(rules, nt as nat, e[j as int]));
                        let w = lemma_productive_all(rules, nt as nat, e);
                        lemma_derives_rule(rules, nt as nat, i as int, w);
                    }
                    set.set(rule.origin.index(), true);
                    changed = true;
                    proof {
                        let o = rule.origin.ix() as int;
                        assert(!before[o]);
                        assert(set@[o]);
                        assert forall|q: int| 0 <= q < before.len() && before[q] implies
                            #[trigger] set@[q] by {
                            assert(prev[q]);
                        }
                    }
                } else {
                    proof {
                        assert forall|j: int| 0 <= j < rules[i as int].expansion.len() implies !set@[(
                        #[trigger] rules[i as int].expansion[j]).ix() as int] by {
                            assert(rule.expansion@[j] == rules[i as int].expansion[j]);
                        }
                    }
                }
            }
            i = i + 1;
        }
        proof {
            bits::lemma_missing_le(before, set@);
        }
    }
    proof {
        assert forall|s: SymbolId| s.ix() < set@.len() implies #[trigger] set@[s.ix() as int]
            == grows(rules, nt as nat, s) by {
            if grows(rules, nt as nat, s) {
                let w = choose|w: Seq<SymbolId>|
                    w.len() > 0 && #[trigger] derives(rules, nt as nat, s, w);
                let d = choose|d: nat| #[trigger] derives_sym(rules, nt as nat, s, w, d);
                lemma_closed_grow(rules, nt as nat, live@, set@, s, w, d);
            }
        }
    }
    set
}

/// Marks the symbols that derive the empty string and nothing else.
pub fn eps_only_set(grammar: &CompiledGrammar) -> (r: Vec<bool>)
    requires
        grammar.wf(),
    ensures
        r@.len() == grammar.symbols@.len(),
        forall|s: SymbolId|
            s.ix() < r@.len() ==> #[trigger] r@[s.ix() as int] == eps_only(
                grammar.models(),
                grammar.terminal_count as nat,
                s,
            ),
{
    let nullable = nullable_set(grammar);
    let grown = grow_set(grammar);
    let mut r: Vec<bool> = Vec::new();
    let mut i: usize = 0;
    while i < nullable.len()
        invariant
            i <= nullable.len(),
            nullable@.len() == grown@.len(),
            r@.len() == i,
            forall|q: int| 0 <= q < i ==> #[trigger] r@[q] == (nullable@[q] && !grown@[q]),
        decreases nullable.len() - i,
    {
        r.push(nullable[i] && !grown[i]);
        i = i + 1;
    }
    r
}

// ---------------------------------------------------------------------------
// First terminals

/// Whether the terminal `t` can begin what `s` unfolds to within `d` steps.
pub open spec fn first_in(
    rules: Seq<symbols::RuleModel>,
    nt: nat,
    s: SymbolId,
    t: SymbolId,
    d: nat,
) -> bool
    decreases d,
{
    if s.ix() < nt {
        s == t
    } else {
        d > 0 && exists|r: int, j: int|
            0 <= r < rules.len() && rules[r].origin == s && 0 <= j < rules[r].expansion.len()
                && all_nullable(rules, nt, rules[r].expansion.take(j)) && first_in(
                rules,
                nt,
                #[trigger] rules[r].expansion[j],
                t,
                (d - 1) as nat,
            )
    }
}

/// Whether the terminal `t` can begin what `s` unfolds to.
pub open spec fn first(
    rules: Seq<symbols::RuleModel>,
    nt: nat,
    s: SymbolId,
    t: SymbolId,
) -> bool {
    exists|d: nat| #[trigger] first_in(rules, nt, s, t, d)
}

/// Whether the terminal `t` can begin what the symbols `syms` unfold to.
pub open spec fn first_of(
    rules: Seq<symbols::RuleModel>,
    nt: nat,
    syms: Seq<SymbolId>,
    t: SymbolId,
) -> bool {
    exists|j: int|
        0 <= j < syms.len() && all_nullable(rules, nt, syms.take(j)) && first(
            rules,
            nt,
            #[trigger] syms[j],
            t,
        )
}

/// Whether the rows of an origin hold the rows of every symbol that can stand
/// first in one of its expansions.
spec fn closed_first(
    rules: Seq<symbols::RuleModel>,
    nt: nat,
    rows: Seq<Vec<bool>>,
    upto: int,
) -> bool {
    forall|r: int, j: int|
        0 <= r < upto && 0 <= j < rules[r].expansion.len() && all_nullable(
            rules,
            nt,
            rules[r].expansion.take(j),
        ) ==> bits::row_le(
            rows[(#[trigger] rules[r].expansion[j]).ix() as int]@,
            rows[rules[r].origin.ix() as int]@,
        )
}

proof fn lemma_closed_first(
    rules: Seq<symbols::RuleModel>,
    nt: nat,
    rows: Seq<Vec<bool>>,
    s: SymbolId,
    t: SymbolId,
    d: nat,
)
    requires
        closed_first(rules, nt, rows, rules.len() as int),
        forall|k: int| 0 <= k < nt ==> (#[trigger] rows[k])@.len() == nt && rows[k]@[k],
        first_in(rules, nt, s, t, d),
        t.ix() < nt,
    ensures
        rows[s.ix() as int]@.len() > t.ix(),
        rows[s.ix() as int]@[t.ix() as int],
    decreases d,
{
    if s.ix() < nt {
        assert(rows[s.ix() as int]@[s.ix() as int]);
    } else {
        let (r, j) = choose|r: int, j: int|
            0 <= r < rules.len() && rules[r].origin == s && 0 <= j < rules[r].expansion.len()
                && all_nullable(rules, nt, rules[r].expansion.take(j)) && first_in(
                rules,
                nt,
                #[trigger] rules[r].expansion[j],
                t,
                (d - 1) as nat,
            );
        lemma_closed_first(rules, nt, rows, rules[r].expansion[j], t, (d - 1) as nat);
        let a = rows[rules[r].expansion[j].ix() as int]@;
        let b = rows[rules[r].origin.ix() as int]@;
        assert(bits::row_le(a, b));
        assert(b[t.ix() as int]);
    }
}

proof fn lemma_first_only_terminals(
    rules: Seq<symbols::RuleModel>,
    nt: nat,
    s: SymbolId,
    t: SymbolId,
    d: nat,
)
    requires
        first_in(rules, nt, s, t, d),
    ensures
        t.ix() < nt,
    decreases d,
{
    if s.ix() >= nt {
        let (r, j) = choose|r: int, j: int|
            0 <= r < rules.len() && rules[r].origin == s && 0 <= j < rules[r].expansion.len()
                && all_nullable(rules, nt, rules[r].expansion.take(j)) && first_in(
                rules,
                nt,
                #[trigger] rules[r].expansion[j],
                t,
                (d - 1) as nat,
            );
        lemma_first_only_terminals(rules, nt, rules[r].expansion[j], t, (d - 1) as nat);
    }
}

/// Only terminals can be first.
pub proof fn first_is_terminal(
    rules: Seq<symbols::RuleModel>,
    nt: nat,
    syms: Seq<SymbolId>,
    t: SymbolId,
)
    requires
        first_of(rules, nt, syms, t),
    ensures
        t.ix() < nt,
{
    let j = choose|j: int|
        0 <= j < syms.len() && all_nullable(rules, nt, syms.take(j)) && first(
            rules,
            nt,
            #[trigger] syms[j],
            t,
        );
    let d = choose|d: nat| #[trigger] first_in(rules, nt, syms[j], t, d);
    lemma_first_only_terminals(rules, nt, syms[j], t, d);
}

proof fn lemma_take_nullable(
    rules: Seq<symbols::RuleModel>,
    nt: nat,
    syms: Seq<SymbolId>,
    j: int,
)
    requires
        0 <= j < syms.len(),
        all_nullable(rules, nt, syms.take(j)),
    ensures
        all_nullable(rules, nt, syms.take(j + 1)) == nullable(rules, nt, syms[j]),
{
    if nullable(rules, nt, syms[j]) {
        assert forall|k: int| 0 <= k < syms.take(j + 1).len() implies nullable(
            rules,
            nt,
            #[trigger] syms.take(j + 1)[k],
        ) by {
            if k < j {
                assert(syms.take(j)[k] == syms[k]);
            }
        }
    } else {
        assert(syms.take(j + 1)[j] == syms[j]);
    }
}

proof fn lemma_longer_not_nullable(
    rules: Seq<symbols::RuleModel>,
    nt: nat,
    syms: Seq<SymbolId>,
    j: int,
    k: int,
)
    requires
        0 <= j < k <= syms.len(),
        !nullable(rules, nt, syms[j]),
    ensures
        !all_nullable(rules, nt, syms.take(k)),
{
    assert(syms.take(k)[j] == syms[j]);
}

/// The symbol sets of a grammar.
pub struct GrammarAnalysis {
    pub nullable: Vec<bool>,
    /// For each symbol the terminals that can begin it.
    pub first: Vec<Vec<bool>>,
}

impl GrammarAnalysis {
    /// Whether the sets are those of the grammar with the given rules.
    pub open spec fn holds(&self, rules: Seq<symbols::RuleModel>, nt: nat, n: nat) -> bool {
        &&& self.nullable@.len() == n
        &&& self.first@.len() == n
        &&& forall|s: SymbolId|
            s.ix() < n ==> #[trigger] self.nullable@[s.ix() as int] == nullable(rules, nt, s)
        &&& forall|k: int| 0 <= k < n ==> (#[trigger] self.first@[k])@.len() == nt
        &&& forall|s: SymbolId, t: SymbolId|
            s.ix() < n && t.ix() < nt ==> #[trigger] self.first@[s.ix() as int]@[t.ix() as int]
                == first(rules, nt, s, t)
    }

    /// Computes the sets of a grammar.
    #[verifier::rlimit(40)]
    pub fn compute(grammar: &CompiledGrammar) -> (r: GrammarAnalysis)
        requires
            grammar.wf(),
        ensures
            r.holds(
                grammar.models(),
                grammar.terminal_count as nat,
                grammar.symbols@.len(),
            ),
    {
        let ghost rules = grammar.models();
        let nt: usize = grammar.terminal_count;
        let n: usize = grammar.symbols.len();
        let nullable = nullable_set(grammar);
        let mut rows = blank_rows(n, nt);
        let mut t: usize = 0;
        while t < nt
            invariant
                t <= nt <= n <= u32::MAX,
                rows@.len() == n,
                forall|k: int| 0 <= k < n ==> (#[trigger] rows@[k])@.len() == nt,
                forall|k: int, q: int|
                    0 <= k < n && 0 <= q < nt ==> #[trigger] rows@[k]@[q] == (k == q && k < t),
            decreases nt - t,
        {
            rows[t].set(t, true);
            t = t + 1;
        }
        proof {
            assert forall|s: SymbolId, a: SymbolId|
                s.ix() < n && a.ix() < nt && #[trigger] rows@[s.ix() as int]@[a.ix() as int] implies first(
                rules,
                nt as nat,
                s,
                a,
            ) by {
                assert(first_in(rules, nt as nat, s, a, 0));
            }
        }
        let mut changed = true;
        while changed
            invariant
                grammar.wf(),
                rules == grammar.models(),
                nt == grammar.terminal_count,
                n == grammar.symbols@.len(),
                nullable@.len() == n,
                forall|s: SymbolId|
                    s.ix() < n ==> #[trigger] nullable@[s.ix() as int] == crate::analysis::nullable(
                        rules,
                        nt as nat,
                        s,
                    ),
                rows@.len() == n,
                forall|k: int| 0 <= k < n ==> (#[trigger] rows@[k])@.len() == nt,
                forall|k: int| 0 <= k < nt ==> (#[trigger] rows@[k])@[k],
                forall|s: SymbolId, a: SymbolId|
                    s.ix() < n && a.ix() < nt && #[trigger] rows@[s.ix() as int]@[a.ix() as int]
                        ==> first(rules, nt as nat, s, a),
                !changed ==> closed_first(rules, nt as nat, rows@, rules.len() as int),
            decreases bits::missing_rows(rows@), changed as int,
        {
            changed = false;
            let ghost before = rows@;
            let mut i: usize = 0;
            while i < grammar.rules.len()
                invariant
                    i <= grammar.rules.len(),
                    grammar.wf(),
                    rules == grammar.models(),
                    nt == grammar.terminal_count,
                    n == grammar.symbols@.len(),
                    nullable@.len() == n,
                    forall|s: SymbolId|
                        s.ix() < n ==> #[trigger] nullable@[s.ix() as int]
                            == crate::analysis::nullable(rules, nt as nat, s),
                    rows@.len() == n,
                    before.len() == n,
                    forall|k: int| 0 <= k < n ==> (#[trigger] rows@[k])@.len() == nt,
                    forall|k: int| 0 <= k < nt ==> (#[trigger] rows@[k])@[k],
                    forall|s: SymbolId, a: SymbolId|
                        s.ix() < n && a.ix() < nt && #[trigger] rows@[s.ix() as int]@[a.ix() as int]
                            ==> first(rules, nt as nat, s, a),
                    forall|k: int| 0 <= k < n ==> bits::row_le(#[trigger] before[k]@, rows@[k]@),
                    changed ==> exists|k: int| 0 <= k < n && #[trigger] before[k]@ != rows@[k]@,
                    !changed ==> closed_first(rules, nt as nat, rows@, i as int),
                decreases grammar.rules.len() - i,
            {
                let rule = &grammar.rules[i];
                let o: usize = rule.origin.index();
                let mut j: usize = 0;
                let mut go = true;
                proof {
                    assert(rules[i as int] == rule@);
                    assert(n > rules[i as int].origin.ix() >= nt);
                    assert forall|k: int| 0 <= k < rule.expansion@.len() implies (
                    #[trigger] rule.expansion@[k]).ix() < n by {
                        assert(rules[i as int].expansion[k].ix() < n);
                    }
                }
                while j < rule.expansion.len() && go
                    invariant
                        i < grammar.rules.len(),
                        j <= rule.expansion.len(),
                        grammar.wf(),
                        rules == grammar.models(),
                        nt == grammar.terminal_count,
                        n == grammar.symbols@.len(),
                        nt <= o < n,
                        rule@ == rules[i as int],
                        o == rule.origin.ix(),
                        forall|k: int|
                            0 <= k < rule.expansion@.len() ==> (#[trigger] rule.expansion@[k]).ix()
                                < n,
                        nullable@.len() == n,
                        forall|s: SymbolId|
                            s.ix() < n ==> #[trigger] nullable@[s.ix() as int]
                                == crate::analysis::nullable(rules, nt as nat, s),
                        rows@.len() == n,
                        before.len() == n,
                        forall|k: int| 0 <= k < n ==> (#[trigger] rows@[k])@.len() == nt,
                        forall|k: int| 0 <= k < nt ==> (#[trigger] rows@[k])@[k],
                        forall|s: SymbolId, a: SymbolId|
                            s.ix() < n && a.ix() < nt
                                && #[trigger] rows@[s.ix() as int]@[a.ix() as int] ==> first(
                                rules,
                                nt as nat,
                                s,
                                a,
                            ),
                        forall|k: int|
                            0 <= k < n ==> bits::row_le(#[trigger] before[k]@, rows@[k]@),
                        changed ==> exists|k: int| 0 <= k < n && #[trigger] before[k]@ != rows@[k]@,
                        !changed ==> closed_first(rules, nt as nat, rows@, i as int),
                        go ==> all_nullable(rules, nt as nat, rule.expansion@.take(j as int)),
                        !go ==> j > 0 && !crate::analysis::nullable(
                            rules,
                            nt as nat,
                            rule.expansion@[j - 1],
                        ),
                        !changed ==> forall|k: int|
                            0 <= k < j ==> bits::row_le(
                                rows@[(#[trigger] rule.expansion@[k]).ix() as int]@,
                                rows@[o as int]@,
                            ),
                    decreases rule.expansion.len() - j,
                {
                    let x = rule.expansion[j];
                    proof {
                        assert(rule.expansion@[j as int].ix() < n);
                    }
                    let src = copy_bools(&rows[x.index()]);
                    let ghost prev = rows@;
                    let grew = union_into(&mut rows[o], &src);
                    proof {
                        assert forall|k: int| 0 <= k < n && k != o implies rows@[k] == prev[k] by {}
                        assert forall|s: SymbolId, a: SymbolId|
                            s.ix() < n && a.ix() < nt
                                && #[trigger] rows@[s.ix() as int]@[a.ix() as int] implies first(
                            rules,
                            nt as nat,
                            s,
                            a,
                        ) by {
                            if s.ix() == o && !prev[o as int]@[a.ix() as int] {
                                assert(src@[a.ix() as int]);
                                assert(prev[x.ix() as int]@[a.ix() as int]);
                                let d = choose|d: nat|
                                    #[trigger] first_in(rules, nt as nat, x, a, d);
                                assert(rules[i as int].expansion[j as int] == x);
                                assert(first_in(rules, nt as nat, s, a, d + 1));
                            } else {
                                assert(prev[s.ix() as int]@[a.ix() as int]);
                            }
                        }
                        assert forall|k: int| 0 <= k < n implies bits::row_le(
                            #[trigger] before[k]@,
                            rows@[k]@,
                        ) by {
                            assert(bits::row_le(before[k]@, prev[k]@));
                            if k == o {
                                assert forall|q: int|
                                    0 <= q < before[k]@.len() && before[k]@[q] implies
                                    #[trigger] rows@[k]@[q] by {
                                    assert(prev[k]@[q]);
                                }
                            }
                        }
                        if grew {
                            assert(before[o as int]@ != rows@[o as int]@) by {
                                assert(bits::row_le(before[o as int]@, prev[o as int]@));
                                bits::lemma_missing_le(before[o as int]@, prev[o as int]@);
                                bits::lemma_missing_le(prev[o as int]@, rows@[o as int]@);
                            }
                        } else {
                            assert(rows@[o as int]@ == prev[o as int]@);
                            if changed {
                                let k = choose|k: int|
                                    0 <= k < n && #[trigger] before[k]@ != prev[k]@;
                                assert(before[k]@ != rows@[k]@);
                            } else {
                                assert forall|r: int, q: int|
                                    0 <= r < i && 0 <= q < rules[r].expansion.len() && all_nullable(
                                        rules,
                                        nt as nat,
                                        rules[r].expansion.take(q),
                                    ) implies bits::row_le(
                                    rows@[(#[trigger] rules[r].expansion[q]).ix() as int]@,
                                    rows@[rules[r].origin.ix() as int]@,
                                ) by {
                                    assert(rules[r].expansion[q].ix() < n);
                                    assert(bits::row_le(
                                        prev[rules[r].expansion[q].ix() as int]@,
                                        prev[rules[r].origin.ix() as int]@,
                                    ));
                                }
                                assert forall|q: int| 0 <= q < j + 1 implies bits::row_le(
                                    rows@[(#[trigger] rule.expansion@[q]).ix() as int]@,
                                    rows@[o as int]@,
                                ) by {
                                    if q < j {
                                        assert(bits::row_le(
                                            prev[rule.expansion@[q].ix() as int]@,
                                            prev[o as int]@,
                                        ));
                                    } else {
                                        assert forall|z: int|
                                            0 <= z < nt
                                                && rows@[x.ix() as int]@[z] implies #[trigger] rows@[o as int]@[z] by {
                                            assert(src@[z]);
                                        }
                                    }
                                }
                            }
                        }
                        lemma_take_nullable(rules, nt as nat, rule.expansion@, j as int);
                    }
                    if grew {
                        changed = true;
                    }
                    if !nullable[x.index()] {
                        go = false;
                    }
                    j = j + 1;
                }
                proof {
                    if !changed {
                        assert forall|r: int, q: int|
                            0 <= r < i + 1 && 0 <= q < rules[r].expansion.len() && all_nullable(
                                rules,
                                nt as nat,
                                rules[r].expansion.take(q),
                            ) implies bits::row_le(
                            rows@[(#[trigger] rules[r].expansion[q]).ix() as int]@,
                            rows@[rules[r].origin.ix() as int]@,
                        ) by {
                            if r == i {
                                if q >= j {
                                    lemma_longer_not_nullable(
                                        rules,
                                        nt as nat,
                                        rule.expansion@,
                                        j - 1,
                                        q,
                                    );
                                }
                                assert(rule.expansion@[q] == rules[r].expansion[q]);
                            }
                        }
                    }
                }
                i = i + 1;
            }
            proof {
                bits::lemma_missing_rows_le(before, rows@);
            }
        }
        proof {
            assert forall|s: SymbolId, a: SymbolId|
                s.ix() < n && a.ix() < nt implies #[trigger] rows@[s.ix() as int]@[a.ix() as int]
                == first(rules, nt as nat, s, a) by {
                if first(rules, nt as nat, s, a) {
                    let d = choose|d: nat| #[trigger] first_in(rules, nt as nat, s, a, d);
                    lemma_closed_first(rules, nt as nat, rows@, s, a, d);
                }
            }
        }
        GrammarAnalysis { nullable, first: rows }
    }

    /// The terminals that can begin the symbols of `syms` from position `from`
    /// on, and whether all of those derive the empty string.
    pub fn first_of_seq(
        &self,
        grammar: &CompiledGrammar,
        syms: &Vec<SymbolId>,
        from: usize,
    ) -> (r: (Vec<bool>, bool))
        requires
            grammar.wf(),
            self.holds(
                grammar.models(),
                grammar.terminal_count as nat,
                grammar.symbols@.len(),
            ),
            from <= syms@.len(),
            forall|j: int|
                0 <= j < syms@.len() ==> (#[trigger] syms@[j]).ix() < grammar.symbols@.len(),
        ensures
            r.0@.len() == grammar.terminal_count,
            forall|t: SymbolId|
                t.ix() < r.0@.len() ==> #[trigger] r.0@[t.ix() as int] == first_of(
                    grammar.models(),
                    grammar.terminal_count as nat,
                    syms@.skip(from as int),
                    t,
                ),
            r.1 == all_nullable(
                grammar.models(),
                grammar.terminal_count as nat,
                syms@.skip(from as int),
            ),
    {
        let ghost rules = grammar.models();
        let nt: usize = grammar.terminal_count;
        let ghost rest = syms@.skip(from as int);
        let ghost n = self.nullable@.len();
        let mut row = blank_row(nt);
        let mut j: usize = from;
        while j < syms.len()
            invariant
                from <= j <= syms.len(),
                rules == grammar.models(),
                nt == grammar.terminal_count,
                rest == syms@.skip(from as int),
                n == self.nullable@.len(),
                self.holds(rules, nt as nat, n),
                forall|q: int| 0 <= q < syms@.len() ==> (#[trigger] syms@[q]).ix() < n,
                row@.len() == nt,
                nt <= u32::MAX,
                all_nullable(rules, nt as nat, rest.take(j - from)),
                forall|t: SymbolId|
                    t.ix() < nt ==> #[trigger] row@[t.ix() as int] == (exists|k: int|
                        0 <= k < j - from && first(rules, nt as nat, #[trigger] rest[k], t)),
            decreases syms.len() - j,
        {
            let x = syms[j];
            let ghost before = row@;
            let ghost at = j - from;
            union_into(&mut row, &self.first[x.index()]);
            proof {
                assert(rest[at] == x);
                assert forall|t: SymbolId| t.ix() < nt implies #[trigger] row@[t.ix() as int] == (
                exists|k: int|
                    0 <= k < at + 1 && first(rules, nt as nat, #[trigger] rest[k], t)) by {
                    assert(row@[t.ix() as int] == (before[t.ix() as int]
                        || self.first@[x.ix() as int]@[t.ix() as int]));
                    if first(rules, nt as nat, x, t) {
                        assert(first(rules, nt as nat, rest[at], t));
                    }
                }
                lemma_take_nullable(rules, nt as nat, rest, at);
            }
            if !self.nullable[x.index()] {
                proof {
                    assert(!all_nullable(rules, nt as nat, rest)) by {
                        assert(!nullable(rules, nt as nat, rest[at]));
                    }
                    assert forall|t: SymbolId| t.ix() < nt implies #[trigger] row@[t.ix() as int]
                        == first_of(rules, nt as nat, rest, t) by {
                        if row@[t.ix() as int] {
                            let k = choose|k: int|
                                0 <= k < at + 1 && first(rules, nt as nat, #[trigger] rest[k], t);
                            assert(all_nullable(rules, nt as nat, rest.take(k))) by {
                                assert forall|z: int| 0 <= z < k implies nullable(
                                    rules,
                                    nt as nat,
                                    #[trigger] rest.take(k)[z],
                                ) by {
                                    assert(rest.take(at)[z] == rest[z]);
                                }
                            }
                        }
                        if first_of(rules, nt as nat, rest, t) {
                            let k = choose|k: int|
                                0 <= k < rest.len() && all_nullable(rules, nt as nat, rest.take(k))
                                    && first(rules, nt as nat, #[trigger] rest[k], t);
                            if k > at {
                                lemma_longer_not_nullable(rules, nt as nat, rest, at, k);
                            }
                        }
                    }
                }
                return (row, false);
            }
            j = j + 1;
        }
        proof {
            assert(rest.take(rest.len() as int) =~= rest);
            assert forall|t: SymbolId| t.ix() < nt implies #[trigger] row@[t.ix() as int]
                == first_of(rules, nt as nat, rest, t) by {
                if row@[t.ix() as int] {
                    let k = choose|k: int|
                        0 <= k < rest.len() && first(rules, nt as nat, #[trigger] rest[k], t);
                    assert(all_nullable(rules, nt as nat, rest.take(k))) by {
                        assert forall|z: int| 0 <= z < k implies nullable(
                            rules,
                            nt as nat,
                            #[trigger] rest.take(k)[z],
                        ) by {
                            assert(rest[z] == rest.take(k)[z]);
                        }
                    }
                }
            }
        }
        (row, true)
    }
}

} // verus!
