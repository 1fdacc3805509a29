//! Which rule a node is written by where several match the same children, and which
//! text a terminal is written as.

use vstd::prelude::*;
use crate::recons_best;
use crate::recons_rules;

verus! {

/// Whether a text is the last that a list gives for a name.
pub open spec fn is_last_given(
    texts: Seq<(Seq<char>, Option<Seq<char>>)>,
    name: Seq<char>,
    i: int,
) -> bool {
    &&& 0 <= i < texts.len()
    &&& texts[i].0 == name
    &&& forall|j: int| i < j < texts.len() ==> (#[trigger] texts[j]).0 != name
}

/// A terminal is written as the last text that is given for its name; a name for which
/// none is given has none.
pub proof fn the_last_text_is_written(
    texts: Seq<(Seq<char>, Option<Seq<char>>)>,
    name: Seq<char>,
)
    ensures
        forall|i: int| #[trigger]
            is_last_given(texts, name, i) ==> recons_best::written_as(texts, name) == texts[i].1,
        (forall|j: int| 0 <= j < texts.len() ==> (#[trigger] texts[j]).0 != name)
            ==> recons_best::written_as(texts, name) is None,
    decreases texts.len(),
{
    if texts.len() > 0 {
        let front = texts.drop_last();
        let last = texts.len() - 1;
        the_last_text_is_written(front, name);
        assert forall|i: int| #[trigger] is_last_given(texts, name, i) implies
            recons_best::written_as(texts, name) == texts[i].1 by {
            if i < last {
                assert(texts[last].0 != name);
                assert forall|j: int| i < j < front.len() implies (#[trigger] front[j]).0
                    != name by {
                    assert(texts[j] == front[j]);
                }
                assert(is_last_given(front, name, i));
            }
        }
        if forall|j: int| 0 <= j < texts.len() ==> (#[trigger] texts[j]).0 != name {
            assert(texts[last].0 != name);
            assert forall|j: int| 0 <= j < front.len() implies (#[trigger] front[j]).0 != name by {
                assert(texts[j] == front[j]);
            }
        }
    }
}

/// How many terminals a rule writes that the tree does not hold.
pub open spec fn written(r: recons_rules::ReconsRuleModel) -> nat {
    r.steps.filter(|s: recons_rules::StepModel| s is Discarded).len()
}

/// How many of those have no text.
pub open spec fn blanks(
    texts: Seq<(Seq<char>, Option<Seq<char>>)>,
    r: recons_rules::ReconsRuleModel,
) -> nat {
    r.steps.filter(
        |s: recons_rules::StepModel|
            s is Discarded && recons_best::written_as(texts, s->Discarded_0) is None,
    ).len()
}

/// Whether rule `a` is to be preferred to rule `b`: it leaves fewer terminals without a
/// text, or as few, and writes more.
pub open spec fn is_preferred(
    texts: Seq<(Seq<char>, Option<Seq<char>>)>,
    a: recons_rules::ReconsRuleModel,
    b: recons_rules::ReconsRuleModel,
) -> bool {
    if blanks(texts, a) == blanks(texts, b) {
        written(b) < written(a)
    } else {
        blanks(texts, a) < blanks(texts, b)
    }
}

/// Whether two rules match the same children.
pub open spec fn match_alike(
    a: recons_rules::ReconsRuleModel,
    b: recons_rules::ReconsRuleModel,
) -> bool {
    a.expansion == b.expansion && a.origin == b.origin
}

proof fn lemma_counts(
    texts: Seq<(Seq<char>, Option<Seq<char>>)>,
    steps: Seq<recons_rules::StepModel>,
    k: nat,
)
    requires
        k <= steps.len(),
    ensures
        recons_best::discarded_steps(steps, k) == steps.take(k as int).filter(
            |s: recons_rules::StepModel| s is Discarded,
        ).len(),
        recons_best::unwritable_steps(texts, steps, k) == steps.take(k as int).filter(
            |s: recons_rules::StepModel|
                s is Discarded && recons_best::written_as(texts, s->Discarded_0) is None,
        ).len(),
    decreases k,
{
    reveal(Seq::filter);
    if k > 0 {
        lemma_counts(texts, steps, (k - 1) as nat);
        assert(steps.take(k as int).drop_last() =~= steps.take((k - 1) as int));
        assert(steps.take(k as int).last() == steps[k - 1]);
    }
}

proof fn lemma_better(
    texts: Seq<(Seq<char>, Option<Seq<char>>)>,
    a: recons_rules::ReconsRuleModel,
    b: recons_rules::ReconsRuleModel,
)
    ensures
        recons_best::is_better(texts, a, b) == is_preferred(texts, a, b),
{
    lemma_counts(texts, a.steps, a.steps.len());
    lemma_counts(texts, b.steps, b.steps.len());
    assert(a.steps.take(a.steps.len() as int) =~= a.steps);
    assert(b.steps.take(b.steps.len() as int) =~= b.steps);
}

/// Whether a rule of the first `k` of `s` stands for all that match the same children:
/// none of them is to be preferred to it, and it to all before it.
pub open spec fn is_best_of(
    texts: Seq<(Seq<char>, Option<Seq<char>>)>,
    s: Seq<recons_rules::ReconsRuleModel>,
    k: nat,
    i: int,
) -> bool {
    &&& 0 <= i < k
    &&& forall|j: int|
        0 <= j < k && match_alike(#[trigger] s[j], s[i]) ==> !is_preferred(texts, s[j], s[i])
    &&& forall|j: int|
        0 <= j < i && match_alike(#[trigger] s[j], s[i]) ==> is_preferred(texts, s[i], s[j])
}

proof fn lemma_shape_at(
    s: Seq<recons_rules::ReconsRuleModel>,
    r: recons_rules::ReconsRuleModel,
    i: nat,
)
    requires
        i <= s.len(),
    ensures
        ({
            let at = recons_best::shape_at(s, r, i);
            &&& i <= at <= s.len()
            &&& at < s.len() ==> match_alike(s[at as int], r)
            &&& forall|j: int| i <= j < at ==> !match_alike(#[trigger] s[j], r)
        }),
    decreases s.len() - i,
{
    if i < s.len() && !recons_best::same_shape(s[i as int], r) {
        lemma_shape_at(s, r, i + 1);
    }
}

/// Whether one of the rules at the given places matches the same children as rule `j`.
pub open spec fn has_like(
    s: Seq<recons_rules::ReconsRuleModel>,
    at: Seq<int>,
    j: int,
) -> bool {
    exists|i: int| 0 <= i < at.len() && match_alike(s[#[trigger] at[i]], s[j])
}

/// Whether rules at given places are the best of the first `k`, one for each of the
/// shapes that these match.
pub open spec fn are_best_of(
    texts: Seq<(Seq<char>, Option<Seq<char>>)>,
    s: Seq<recons_rules::ReconsRuleModel>,
    k: nat,
    at: Seq<int>,
) -> bool {
    &&& forall|i: int| 0 <= i < at.len() ==> is_best_of(texts, s, k, #[trigger] at[i])
    &&& forall|i: int, j: int|
        #![trigger at[i], at[j]]
        0 <= i < j < at.len() ==> !match_alike(s[at[i]], s[at[j]])
    &&& forall|j: int| 0 <= j < k ==> #[trigger] has_like(s, at, j)
}

/// The rules at given places.
pub open spec fn rules_at(
    s: Seq<recons_rules::ReconsRuleModel>,
    at: Seq<int>,
) -> Seq<recons_rules::ReconsRuleModel> {
    Seq::new(at.len(), |i: int| s[at[i]])
}

proof fn lemma_preferred_on(
    texts: Seq<(Seq<char>, Option<Seq<char>>)>,
    a: recons_rules::ReconsRuleModel,
    b: recons_rules::ReconsRuleModel,
    c: recons_rules::ReconsRuleModel,
)
    requires
        is_preferred(texts, a, b),
        !is_preferred(texts, c, b),
    ensures
        is_preferred(texts, a, c),
        !is_preferred(texts, c, a),
{
}

/// A rule that matches other children than those before is best itself.
proof fn lemma_new(
    texts: Seq<(Seq<char>, Option<Seq<char>>)>,
    s: Seq<recons_rules::ReconsRuleModel>,
    k: nat,
    before: Seq<int>,
)
    requires
        k < s.len(),
        are_best_of(texts, s, k, before),
        forall|i: int| 0 <= i < before.len() ==> !match_alike(s[#[trigger] before[i]], s[k as int]),
    ensures
        are_best_of(texts, s, k + 1, before.push(k as int)),
{
    let r = s[k as int];
    let at = before.push(k as int);
    assert forall|j: int| 0 <= j < k implies !match_alike(#[trigger] s[j], r) by {
        assert(has_like(s, before, j));
        let i = choose|i: int| 0 <= i < before.len() && match_alike(s[#[trigger] before[i]], s[j]);
        assert(!match_alike(s[before[i]], r));
    }
    assert forall|i: int| 0 <= i < at.len() implies is_best_of(
        texts,
        s,
        k + 1,
        #[trigger] at[i],
    ) by {
        if i < before.len() {
            assert(at[i] == before[i]);
            assert(is_best_of(texts, s, k, before[i]));
            assert(!match_alike(s[before[i]], r));
        } else {
            assert(at[i] == k);
            assert(!is_preferred(texts, r, r));
        }
    }
    assert forall|i: int, j: int| #![trigger at[i], at[j]] 0 <= i < j < at.len() implies
        !match_alike(s[at[i]], s[at[j]]) by {
        assert(at[i] == before[i]);
        if j < before.len() {
            assert(at[j] == before[j]);
        }
    }
    assert forall|j: int| 0 <= j < k + 1 implies #[trigger] has_like(s, at, j) by {
        if j < k {
            assert(has_like(s, before, j));
            let i = choose|i: int|
                0 <= i < before.len() && match_alike(s[#[trigger] before[i]], s[j]);
            assert(at[i] == before[i]);
        } else {
            assert(at[before.len() as int] == k);
        }
    }
}

/// A rule that matches the same children as one before takes its place where it is to
/// be preferred.
proof fn lemma_again(
    texts: Seq<(Seq<char>, Option<Seq<char>>)>,
    s: Seq<recons_rules::ReconsRuleModel>,
    k: nat,
    before: Seq<int>,
    p: int,
)
    requires
        k < s.len(),
        are_best_of(texts, s, k, before),
        0 <= p < before.len(),
        match_alike(s[before[p]], s[k as int]),
    ensures
        are_best_of(
            texts,
            s,
            k + 1,
            if is_preferred(texts, s[k as int], s[before[p]]) {
                before.update(p, k as int)
            } else {
                before
            },
        ),
{
    let r = s[k as int];
    let q = before[p];
    let wins = is_preferred(texts, r, s[q]);
    let at = if wins {
        before.update(p, k as int)
    } else {
        before
    };
    assert(is_best_of(texts, s, k, q));
    assert forall|i: int| 0 <= i < before.len() && i != p implies !match_alike(
        s[#[trigger] before[i]],
        r,
    ) by {
        if i < p {
            assert(!match_alike(s[before[i]], s[before[p]]));
        } else {
            assert(!match_alike(s[before[p]], s[before[i]]));
        }
    }
    assert forall|i: int| 0 <= i < at.len() implies is_best_of(
        texts,
        s,
        k + 1,
        #[trigger] at[i],
    ) by {
        assert(is_best_of(texts, s, k, before[i]));
        if i == p && wins {
            assert(at[i] == k);
            assert forall|j: int| 0 <= j < k && match_alike(#[trigger] s[j], r) implies
                is_preferred(texts, r, s[j]) && !is_preferred(texts, s[j], r) by {
                assert(match_alike(s[j], s[q]));
                lemma_preferred_on(texts, r, s[q], s[j]);
            }
        } else {
            assert(at[i] == before[i]);
        }
    }
    assert forall|i: int, j: int| #![trigger at[i], at[j]] 0 <= i < j < at.len() implies
        !match_alike(s[at[i]], s[at[j]]) by {
        assert(!match_alike(s[before[i]], s[before[j]]));
    }
    assert forall|j: int| 0 <= j < k + 1 implies #[trigger] has_like(s, at, j) by {
        if j < k {
            assert(has_like(s, before, j));
            let i = choose|i: int|
                0 <= i < before.len() && match_alike(s[#[trigger] before[i]], s[j]);
            assert(match_alike(s[at[i]], s[j]));
        } else {
            assert(match_alike(s[at[p]], s[j]));
        }
    }
}

/// What is merged of the first `k` rules, as places among them.
proof fn lemma_merged(
    texts: Seq<(Seq<char>, Option<Seq<char>>)>,
    s: Seq<recons_rules::ReconsRuleModel>,
    k: nat,
) -> (at: Seq<int>)
    requires
        k <= s.len(),
    ensures
        recons_best::merged(texts, s, k) == rules_at(s, at),
        are_best_of(texts, s, k, at),
    decreases k,
{
    if k == 0 {
        assert(recons_best::merged(texts, s, 0) =~= rules_at(s, Seq::empty()));
        Seq::empty()
    } else {
        let n = (k - 1) as nat;
        let before = lemma_merged(texts, s, n);
        let given = recons_best::merged(texts, s, n);
        let r = s[n as int];
        lemma_shape_at(given, r, 0);
        let p = recons_best::shape_at(given, r, 0);
        if p >= given.len() {
            assert forall|i: int| 0 <= i < before.len() implies !match_alike(
                s[#[trigger] before[i]],
                r,
            ) by {
                assert(given[i] == s[before[i]]);
            }
            lemma_new(texts, s, n, before);
            assert(rules_at(s, before.push(n as int)) =~= given.push(r));
            before.push(n as int)
        } else {
            assert(given[p as int] == s[before[p as int]]);
            lemma_better(texts, r, given[p as int]);
            lemma_again(texts, s, n, before, p as int);
            assert(rules_at(s, before.update(p as int, n as int)) =~= given.update(p as int, r));
            if is_preferred(texts, r, given[p as int]) {
                before.update(p as int, n as int)
            } else {
                before
            }
        }
    }
}

proof fn lemma_put(s: Seq<recons_rules::ReconsRuleModel>, r: recons_rules::ReconsRuleModel)
    requires
        is_by_length(s),
    ensures
        ({
            let out = recons_best::put_by_length(s, r);
            &&& is_by_length(out)
            &&& out.to_multiset() == s.to_multiset().insert(r)
            &&& out.len() == s.len() + 1
            &&& forall|n: nat| #[trigger]
                is_within(s, n) && r.expansion.len() <= n ==> is_within(out, n)
        }),
    decreases s.len(),
{
    broadcast use vstd::seq_lib::group_to_multiset_ensures;

    let out = recons_best::put_by_length(s, r);
    if s.len() == 0 || s.last().expansion.len() <= r.expansion.len() {
        assert forall|i: int, j: int| 0 <= i < j < out.len() implies (
        #[trigger] out[i]).expansion.len() <= (#[trigger] out[j]).expansion.len() by {
            if j == s.len() && i < s.len() - 1 {
                assert(s[i].expansion.len() <= s[s.len() - 1].expansion.len());
            }
        }
    } else {
        let front = s.drop_last();
        lemma_put(front, r);
        let q = recons_best::put_by_length(front, r);
        let n = s.last().expansion.len();
        assert forall|i: int| 0 <= i < front.len() implies (#[trigger] front[i]).expansion.len()
            <= n by {
            assert(s[i].expansion.len() <= s[s.len() - 1].expansion.len());
        }
        assert(is_within(front, n));
        assert(is_within(q, n));
        assert(front.push(s.last()) =~= s);
        assert(out.to_multiset() =~= s.to_multiset().insert(r));
        assert forall|m: nat| #[trigger]
            is_within(s, m) && r.expansion.len() <= m implies is_within(out, m) by {
            assert forall|i: int| 0 <= i < front.len() implies (
            #[trigger] front[i]).expansion.len() <= m by {
                assert(s[i].expansion.len() <= m);
            }
            assert(is_within(front, m));
            assert(s[s.len() - 1].expansion.len() <= m);
        }
    }
}

/// Whether no rule matches more than `n` symbols.
spec fn is_within(s: Seq<recons_rules::ReconsRuleModel>, n: nat) -> bool {
    forall|i: int| 0 <= i < s.len() ==> (#[trigger] s[i]).expansion.len() <= n
}

/// Whether rules that match fewer symbols come first.
pub open spec fn is_by_length(s: Seq<recons_rules::ReconsRuleModel>) -> bool {
    forall|i: int, j: int|
        0 <= i < j < s.len() ==> (#[trigger] s[i]).expansion.len() <= (
        #[trigger] s[j]).expansion.len()
}

proof fn lemma_by_length(s: Seq<recons_rules::ReconsRuleModel>)
    ensures
        is_by_length(recons_best::by_length(s)),
        recons_best::by_length(s).to_multiset() == s.to_multiset(),
    decreases s.len(),
{
    broadcast use vstd::seq_lib::group_to_multiset_ensures;

    if s.len() > 0 {
        lemma_by_length(s.drop_last());
        lemma_put(recons_best::by_length(s.drop_last()), s.last());
        assert(s.drop_last().push(s.last()) =~= s);
    } else {
        assert(s =~= Seq::empty());
    }
}

/// Of the rules that match the same children one stays, to which none of the others
/// is to be preferred, the first of these; and rules that match fewer symbols come
/// first. What is returned are the places of those that stay.
pub proof fn the_best_rules_stay(
    texts: Seq<(Seq<char>, Option<Seq<char>>)>,
    s: Seq<recons_rules::ReconsRuleModel>,
) -> (at: Seq<int>)
    ensures
        are_best_of(texts, s, s.len(), at),
        recons_best::best_of(texts, s).to_multiset() == rules_at(s, at).to_multiset(),
        is_by_length(recons_best::best_of(texts, s)),
{
    lemma_by_length(recons_best::merged(texts, s, s.len()));
    lemma_merged(texts, s, s.len())
}

} // verus!
