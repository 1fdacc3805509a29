//! What the rules of a normal form weigh: the priorities of the rules of the grammar
//! that they stand for.

use vstd::prelude::*;
use crate::cnf;
use crate::rank_laws;
use crate::symbols;
use crate::symbols::SymbolId;

verus! {

/// The variants that a rule stands for: its own, and those that it skips.
pub open spec fn variants(r: cnf::CnfModel) -> Seq<usize> {
    match r.alias {
        Some(a) => seq![a] + r.skipped,
        None => r.skipped,
    }
}

/// The priorities of the rules of which these are variants.
pub open spec fn priorities(
    s: Seq<usize>,
    effs: Seq<cnf::EffModel>,
    rules: Seq<symbols::RuleModel>,
) -> Seq<int> {
    Seq::new(s.len(), |i: int| rules[effs[s[i] as int].rule_idx as int].priority as int)
}

/// Whether numbers add up to `w` in at most `d` steps, each sum brought into the range
/// of priorities.
pub open spec fn add_up(s: Seq<int>, w: int, d: nat) -> bool
    decreases d,
{
    ||| s.len() == 1 && s[0] == w
    ||| d > 0 && exists|k: int, u: int, v: int| #[trigger]
        is_cut(s, k, u, v, w) && add_up(s.take(k), u, (d - 1) as nat) && add_up(
            s.skip(k),
            v,
            (d - 1) as nat,
        )
}

/// Whether numbers are cut in two, and `w` is the sum of what the halves add up to.
pub open spec fn is_cut(s: Seq<int>, k: int, u: int, v: int, w: int) -> bool {
    0 < k < s.len() && w == rank_laws::clamped(u + v)
}

/// Whether a rule weighs as much as the rules that it stands for have priority
/// together; one that stands for none weighs nothing.
pub open spec fn is_weighed(
    r: cnf::CnfModel,
    effs: Seq<cnf::EffModel>,
    rules: Seq<symbols::RuleModel>,
) -> bool {
    let s = priorities(variants(r), effs, rules);
    if s.len() == 0 {
        r.weight == 0
    } else {
        exists|d: nat| add_up(s, r.weight as int, d)
    }
}

proof fn lemma_more(s: Seq<int>, w: int, d: nat, e: nat)
    requires
        add_up(s, w, d),
        d <= e,
    ensures
        add_up(s, w, e),
    decreases d,
{
    if !(s.len() == 1 && s[0] == w) {
        let (k, u, v) = choose|k: int, u: int, v: int| #[trigger]
            is_cut(s, k, u, v, w) && add_up(s.take(k), u, (d - 1) as nat) && add_up(
                s.skip(k),
                v,
                (d - 1) as nat,
            );
        lemma_more(s.take(k), u, (d - 1) as nat, (e - 1) as nat);
        lemma_more(s.skip(k), v, (d - 1) as nat, (e - 1) as nat);
        assert(is_cut(s, k, u, v, w));
    }
}

proof fn lemma_joined(a: Seq<int>, u: int, c: nat, b: Seq<int>, v: int, d: nat) -> (e: nat)
    requires
        add_up(a, u, c),
        add_up(b, v, d),
        a.len() > 0,
        b.len() > 0,
    ensures
        add_up(a + b, rank_laws::clamped(u + v), e),
{
    let m = c + d;
    lemma_more(a, u, c, m);
    lemma_more(b, v, d, m);
    let s = a + b;
    let k = a.len() as int;
    assert(s.take(k) =~= a);
    assert(s.skip(k) =~= b);
    assert(is_cut(s, k, u, v, rank_laws::clamped(u + v)));
    m + 1
}

/// A rule that skips weighs what both rules weigh.
proof fn lemma_skip(
    unit: cnf::CnfModel,
    target: cnf::CnfModel,
    effs: Seq<cnf::EffModel>,
    rules: Seq<symbols::RuleModel>,
)
    requires
        is_weighed(unit, effs, rules),
        is_weighed(target, effs, rules),
    ensures
        is_weighed(cnf::skip_rule(unit, target), effs, rules),
{
    let r = cnf::skip_rule(unit, target);
    let a = priorities(variants(unit), effs, rules);
    let b = priorities(variants(target), effs, rules);
    let s = priorities(variants(r), effs, rules);
    assert(variants(r) =~= variants(unit) + variants(target));
    assert(s =~= a + b);
    assert(r.weight == rank_laws::clamped(unit.weight + target.weight));
    if a.len() == 0 {
        assert(s =~= b);
    } else if b.len() == 0 {
        assert(s =~= a);
    } else {
        let c = choose|c: nat| add_up(a, unit.weight as int, c);
        let d = choose|d: nat| add_up(b, target.weight as int, d);
        let e = lemma_joined(a, unit.weight as int, c, b, target.weight as int, d);
        assert(add_up(s, r.weight as int, e));
    }
}

spec fn all_weighed(
    s: Seq<cnf::CnfModel>,
    effs: Seq<cnf::EffModel>,
    rules: Seq<symbols::RuleModel>,
) -> bool {
    forall|i: int| 0 <= i < s.len() ==> is_weighed(#[trigger] s[i], effs, rules)
}

proof fn lemma_deduped(
    s: Seq<cnf::CnfModel>,
    effs: Seq<cnf::EffModel>,
    rules: Seq<symbols::RuleModel>,
)
    requires
        all_weighed(s, effs, rules),
    ensures
        all_weighed(cnf::deduped(s), effs, rules),
    decreases s.len(),
{
    if s.len() > 0 {
        lemma_deduped(s.drop_last(), effs, rules);
        assert(is_weighed(s[s.len() - 1], effs, rules));
    }
}

proof fn lemma_unlike(
    s: Seq<cnf::CnfModel>,
    unit: cnf::CnfModel,
    effs: Seq<cnf::EffModel>,
    rules: Seq<symbols::RuleModel>,
)
    requires
        all_weighed(s, effs, rules),
    ensures
        all_weighed(cnf::unlike(s, unit), effs, rules),
    decreases s.len(),
{
    if s.len() > 0 {
        lemma_unlike(s.drop_last(), unit, effs, rules);
        assert(is_weighed(s[s.len() - 1], effs, rules));
    }
}

proof fn lemma_skips(
    s: Seq<cnf::CnfModel>,
    unit: cnf::CnfModel,
    effs: Seq<cnf::EffModel>,
    rules: Seq<symbols::RuleModel>,
)
    requires
        all_weighed(s, effs, rules),
        is_weighed(unit, effs, rules),
    ensures
        all_weighed(cnf::skips(s, unit), effs, rules),
    decreases s.len(),
{
    if s.len() > 0 {
        lemma_skips(s.drop_last(), unit, effs, rules);
        assert(is_weighed(s[s.len() - 1], effs, rules));
        lemma_skip(unit, s.last(), effs, rules);
    }
}

proof fn lemma_stand_ins(
    s: Seq<cnf::CnfModel>,
    n: nat,
    effs: Seq<cnf::EffModel>,
    rules: Seq<symbols::RuleModel>,
)
    ensures
        all_weighed(cnf::stand_ins(s, n), effs, rules),
    decreases n,
{
    if n > 0 {
        lemma_stand_ins(s, (n - 1) as nat, effs, rules);
    }
}

proof fn lemma_splits(
    s: Seq<cnf::CnfModel>,
    effs: Seq<cnf::EffModel>,
    rules: Seq<symbols::RuleModel>,
)
    requires
        all_weighed(s, effs, rules),
        forall|i: int| 0 <= i < s.len() ==> (#[trigger] s[i]).skipped.len() == 0,
    ensures
        all_weighed(cnf::with_splits(s).0, effs, rules),
    decreases s.len(),
{
    if s.len() > 0 {
        let front = s.drop_last();
        lemma_splits(front, effs, rules);
        let (out, g) = cnf::with_splits(front);
        let r = s.last();
        assert(is_weighed(s[s.len() - 1], effs, rules));
        assert(s[s.len() - 1].skipped.len() == 0);
        if r.rhs.len() > 2 {
            let chain = cnf::split_chain(r, g as usize);
            assert forall|i: int| 0 <= i < chain.len() implies is_weighed(
                #[trigger] chain[i],
                effs,
                rules,
            ) by {
                let c = cnf::split_rule(r, g as usize, i);
                assert(chain[i] == c);
                if i == 0 {
                    assert(c.skipped =~= r.skipped);
                    assert(variants(c) == variants(r));
                    assert(is_weighed(r, effs, rules));
                    assert(c.weight == r.weight);
                    assert(is_weighed(c, effs, rules));
                } else {
                    assert(variants(c).len() == 0);
                    assert(priorities(variants(c), effs, rules).len() == 0);
                    assert(c.weight == 0);
                    assert(is_weighed(c, effs, rules));
                }
            }
            let all = out + chain;
            assert forall|i: int| 0 <= i < all.len() implies is_weighed(
                #[trigger] all[i],
                effs,
                rules,
            ) by {
                if i < out.len() {
                    assert(all[i] == out[i]);
                } else {
                    assert(all[i] == chain[i - out.len()]);
                }
            }
        }
    }
}

proof fn lemma_units(
    s: Seq<cnf::CnfModel>,
    fuel: nat,
    effs: Seq<cnf::EffModel>,
    rules: Seq<symbols::RuleModel>,
)
    requires
        all_weighed(s, effs, rules),
    ensures
        cnf::without_units(s, fuel) matches Some(out) ==> all_weighed(out, effs, rules),
    decreases fuel,
{
    if let Some(p) = cnf::first_unit(s, 0) {
        if fuel > 0 {
            lemma_first_unit(s, 0);
            let unit = s[p];
            lemma_unlike(s, unit, effs, rules);
            lemma_skips(s, unit, effs, rules);
            let a = cnf::unlike(s, unit);
            let b = cnf::skips(s, unit);
            let all = a + b;
            assert forall|i: int| 0 <= i < all.len() implies is_weighed(
                #[trigger] all[i],
                effs,
                rules,
            ) by {
                if i < a.len() {
                    assert(all[i] == a[i]);
                } else {
                    assert(all[i] == b[i - a.len()]);
                }
            }
            lemma_deduped(all, effs, rules);
            lemma_units(cnf::unit_replaced(s, p), (fuel - 1) as nat, effs, rules);
        }
    }
}

proof fn lemma_first_unit(s: Seq<cnf::CnfModel>, from: int)
    requires
        0 <= from,
    ensures
        cnf::first_unit(s, from) matches Some(p) ==> 0 <= p < s.len(),
    decreases s.len() - from,
{
    if from < s.len() && !cnf::is_unit(s[from]) {
        lemma_first_unit(s, from + 1);
    }
}

proof fn lemma_deduped_skips_none(s: Seq<cnf::CnfModel>)
    requires
        forall|i: int| 0 <= i < s.len() ==> (#[trigger] s[i]).skipped.len() == 0,
    ensures
        forall|i: int|
            0 <= i < cnf::deduped(s).len() ==> (#[trigger] cnf::deduped(s)[i]).skipped.len() == 0,
    decreases s.len(),
{
    if s.len() > 0 {
        lemma_deduped_skips_none(s.drop_last());
        assert(s[s.len() - 1].skipped.len() == 0);
    }
}

proof fn lemma_stand_ins_skip_none(s: Seq<cnf::CnfModel>, n: nat)
    ensures
        forall|i: int|
            0 <= i < cnf::stand_ins(s, n).len() ==> (#[trigger] cnf::stand_ins(
                s,
                n,
            )[i]).skipped.len() == 0,
    decreases n,
{
    if n > 0 {
        lemma_stand_ins_skip_none(s, (n - 1) as nat);
    }
}

/// Each rule of the normal form of a grammar weighs what the rules of the grammar have
/// priority together that it stands for: its own, and those of the chain of unit rules
/// that it skips. A helper that stands for none weighs nothing.
pub proof fn weights_are_sums_of_priorities(
    rules: Seq<symbols::RuleModel>,
    nt: nat,
    starts: Seq<SymbolId>,
    n: nat,
    out: Seq<cnf::CnfModel>,
)
    requires
        symbols::grammar_wf(rules, n, nt, starts),
        rules.len() <= usize::MAX,
        cnf::nonempty_rules(rules, nt, starts).1.len() <= usize::MAX,
        cnf::unitless_rules(rules, nt, starts) == Some(out),
    ensures
        forall|i: int|
            0 <= i < out.len() ==> is_weighed(
                #[trigger] out[i],
                cnf::nonempty_rules(rules, nt, starts).1,
                rules,
            ),
{
    cnf::lemma_first(rules, nt, starts, n);
    let first = cnf::first_rules(rules, nt, starts);
    cnf::lemma_without_empty(first, cnf::base_effs(rules), first, rules, nt);
    let (some, effs) = cnf::nonempty_rules(rules, nt, starts);
    let lifted = Seq::new(some.len(), |i: int| cnf::lifted(some[i]));
    let helpers = cnf::stand_ins(some, nt);
    let long = cnf::with_stand_ins(some, nt);
    lemma_stand_ins(some, nt, effs, rules);
    lemma_stand_ins_skip_none(some, nt);
    assert(long == lifted + helpers);
    assert forall|i: int| 0 <= i < long.len() implies is_weighed(#[trigger] long[i], effs, rules)
        && long[i].skipped.len() == 0 by {
        if i < lifted.len() {
            assert(long[i] == cnf::lifted(some[i]));
            assert(cnf::stands_for(some[i], effs, rules, nt));
            let s = priorities(variants(long[i]), effs, rules);
            assert(s.len() == 1);
            assert(add_up(s, long[i].weight as int, 0));
        } else {
            assert(long[i] == helpers[i - lifted.len()]);
        }
    }
    lemma_deduped(long, effs, rules);
    lemma_deduped_skips_none(long);
    let split = cnf::with_splits(cnf::deduped(long)).0;
    lemma_splits(cnf::deduped(long), effs, rules);
    lemma_deduped(split, effs, rules);
    lemma_units(cnf::binary_rules(rules, nt, starts), cnf::unit_fuel(), effs, rules);
}

} // verus!
