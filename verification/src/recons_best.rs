//! The texts of terminals, and the choice among turned rules that match the
//! same children.

use vstd::prelude::*;
use crate::recons_rules;
use crate::recons_rules::{ReconsRule, RSym, RuleSet, WriteStep};
use crate::symbols::Pattern;
use crate::text::same_text;

verus! {

// ---------------------------------------------------------------------------
// Texts of terminals

/// A terminal with the text that it is written as, if that is fixed.
#[derive(Debug)]
pub struct TermText {
    pub name: String,
    pub text: Option<String>,
}

/// The content of the texts of terminals.
pub open spec fn text_models(s: Seq<TermText>) -> Seq<(Seq<char>, Option<Seq<char>>)> {
    Seq::new(
        s.len(),
        |i: int|
            (
                s[i].name@,
                match s[i].text {
                    Some(t) => Some(t@),
                    None => None,
                },
            ),
    )
}

/// The text of a terminal, if it is fixed by its definition.
pub open spec fn fixed_text(g: RuleSet, i: int) -> Option<Seq<char>> {
    let t = g.terminals@[i];
    if t.declared {
        None
    } else {
        match t.pattern {
            Pattern::Str { value, .. } => Some(value@),
            Pattern::Re { .. } => None,
        }
    }
}

/// The texts of the terminals of a grammar, then the substitutions.
pub open spec fn texts_of(g: RuleSet, subs: Seq<(Seq<char>, Seq<char>)>) -> Seq<
    (Seq<char>, Option<Seq<char>>),
> {
    Seq::new(g.terminals@.len(), |i: int| (g.terminals@[i].name@, fixed_text(g, i))) + Seq::new(
        subs.len(),
        |i: int| (subs[i].0, Some(subs[i].1)),
    )
}

/// The text of a terminal: the last one that is given for its name.
pub open spec fn written_as(
    texts: Seq<(Seq<char>, Option<Seq<char>>)>,
    name: Seq<char>,
) -> Option<Seq<char>>
    decreases texts.len(),
{
    if texts.len() == 0 {
        None
    } else if texts.last().0 == name {
        texts.last().1
    } else {
        written_as(texts.drop_last(), name)
    }
}

/// The texts of the terminals of a grammar, then the substitutions.
pub fn find_texts(g: &RuleSet, subs: &Vec<(String, String)>) -> (r: Vec<TermText>)
    ensures
        text_models(r@) == texts_of(*g, recons_rules::sub_models(subs@)),
{
    let ghost want = texts_of(*g, recons_rules::sub_models(subs@));
    let mut r: Vec<TermText> = Vec::new();
    let mut i: usize = 0;
    while i < g.terminals.len()
        invariant
            i <= g.terminals@.len(),
            want == texts_of(*g, recons_rules::sub_models(subs@)),
            text_models(r@) =~= want.take(i as int),
        decreases g.terminals.len() - i,
    {
        let t = &g.terminals[i];
        let text = if t.declared {
            None
        } else {
            match &t.pattern {
                Pattern::Str { value, .. } => Some(value.clone()),
                Pattern::Re { .. } => None,
            }
        };
        let ghost before = text_models(r@);
        r.push(TermText { name: t.name.clone(), text });
        proof {
            assert(text_models(r@) =~= before.push(want[i as int]));
        }
        i = i + 1;
    }
    let ghost n = g.terminals@.len();
    let mut k: usize = 0;
    while k < subs.len()
        invariant
            k <= subs@.len(),
            n == g.terminals@.len(),
            want == texts_of(*g, recons_rules::sub_models(subs@)),
            text_models(r@) =~= want.take(n + k),
        decreases subs.len() - k,
    {
        let ghost before = text_models(r@);
        r.push(TermText { name: subs[k].0.clone(), text: Some(subs[k].1.clone()) });
        proof {
            assert(text_models(r@) =~= before.push(want[n + k]));
        }
        k = k + 1;
    }
    proof {
        assert(want.take((n + subs@.len()) as int) =~= want);
    }
    r
}

/// The text of a terminal.
pub fn find_text<'a>(texts: &'a Vec<TermText>, name: &str) -> (r: Option<&'a String>)
    ensures
        match r {
            Some(t) => written_as(text_models(texts@), name@) == Some(t@),
            None => written_as(text_models(texts@), name@) is None,
        },
{
    let ghost all = text_models(texts@);
    let mut i: usize = texts.len();
    proof {
        assert(all.take(i as int) =~= all);
    }
    while i > 0
        invariant
            i <= texts@.len(),
            all == text_models(texts@),
            written_as(all, name@) == written_as(all.take(i as int), name@),
        decreases i,
    {
        i = i - 1;
        proof {
            assert(all.take(i + 1).last() == all[i as int]);
            assert(all.take(i + 1).drop_last() =~= all.take(i as int));
        }
        if same_text(&texts[i].name, name) {
            return match &texts[i].text {
                Some(t) => Some(t),
                None => None,
            };
        }
    }
    None
}

// ---------------------------------------------------------------------------
// The better of two rules

/// How many of the first `k` steps write a terminal that the tree does not
/// hold.
pub open spec fn discarded_steps(steps: Seq<recons_rules::StepModel>, k: nat) -> nat
    decreases k,
{
    if k == 0 {
        0
    } else if steps[k - 1] is Discarded {
        discarded_steps(steps, (k - 1) as nat) + 1
    } else {
        discarded_steps(steps, (k - 1) as nat)
    }
}

/// How many of the first `k` steps write a terminal without a fixed text.
pub open spec fn unwritable_steps(
    texts: Seq<(Seq<char>, Option<Seq<char>>)>,
    steps: Seq<recons_rules::StepModel>,
    k: nat,
) -> nat
    decreases k,
{
    if k == 0 {
        0
    } else {
        let before = unwritable_steps(texts, steps, (k - 1) as nat);
        match steps[k - 1] {
            recons_rules::StepModel::Discarded(t) => if written_as(texts, t) is None {
                before + 1
            } else {
                before
            },
            recons_rules::StepModel::Consume => before,
        }
    }
}

/// Whether `a` is better than `b`: it writes fewer terminals without a fixed
/// text, or as few of these and more terminals.
pub open spec fn is_better(
    texts: Seq<(Seq<char>, Option<Seq<char>>)>,
    a: recons_rules::ReconsRuleModel,
    b: recons_rules::ReconsRuleModel,
) -> bool {
    let x = unwritable_steps(texts, a.steps, a.steps.len());
    let y = unwritable_steps(texts, b.steps, b.steps.len());
    x < y || x == y && discarded_steps(a.steps, a.steps.len()) > discarded_steps(
        b.steps,
        b.steps.len(),
    )
}

fn count_steps(texts: &Vec<TermText>, rule: &ReconsRule) -> (r: (usize, usize))
    ensures
        r.0 == unwritable_steps(text_models(texts@), rule@.steps, rule@.steps.len()),
        r.1 == discarded_steps(rule@.steps, rule@.steps.len()),
{
    let ghost steps = rule@.steps;
    let n: usize = rule.steps.len();
    let mut unwritable: usize = 0;
    let mut discarded: usize = 0;
    let mut i: usize = 0;
    while i < n
        invariant
            i <= n,
            n == rule.steps@.len(),
            steps == rule@.steps,
            unwritable <= i,
            discarded <= i,
            unwritable == unwritable_steps(text_models(texts@), steps, i as nat),
            discarded == discarded_steps(steps, i as nat),
        decreases n - i,
    {
        proof {
            assert(steps[i as int] == rule.steps@[i as int]@);
        }
        if let WriteStep::Discarded(t) = &rule.steps[i] {
            discarded = discarded + 1;
            if find_text(texts, t.as_str()).is_none() {
                unwritable = unwritable + 1;
            }
        }
        i = i + 1;
    }
    (unwritable, discarded)
}

fn better(texts: &Vec<TermText>, a: &ReconsRule, b: &ReconsRule) -> (r: bool)
    ensures
        r == is_better(text_models(texts@), a@, b@),
{
    let (x, p) = count_steps(texts, a);
    let (y, q) = count_steps(texts, b);
    x < y || (x == y && p > q)
}

// ---------------------------------------------------------------------------
// One rule for each matched shape

/// Whether two rules match the same children.
pub open spec fn same_shape(
    a: recons_rules::ReconsRuleModel,
    b: recons_rules::ReconsRuleModel,
) -> bool {
    a.origin == b.origin && a.expansion == b.expansion
}

/// The first rule from `i` on that matches the same children, or the end.
pub open spec fn shape_at(
    s: Seq<recons_rules::ReconsRuleModel>,
    r: recons_rules::ReconsRuleModel,
    i: nat,
) -> nat
    decreases s.len() - i,
{
    if i >= s.len() {
        s.len()
    } else if same_shape(s[i as int], r) {
        i
    } else {
        shape_at(s, r, i + 1)
    }
}

/// The rules with one more: of two that match the same children the better
/// one stays, the earlier where neither is better.
pub open spec fn with_rule(
    texts: Seq<(Seq<char>, Option<Seq<char>>)>,
    s: Seq<recons_rules::ReconsRuleModel>,
    r: recons_rules::ReconsRuleModel,
) -> Seq<recons_rules::ReconsRuleModel> {
    let at = shape_at(s, r, 0);
    if at >= s.len() {
        s.push(r)
    } else if is_better(texts, r, s[at as int]) {
        s.update(at as int, r)
    } else {
        s
    }
}

/// The first `k` rules, one for each matched shape.
pub open spec fn merged(
    texts: Seq<(Seq<char>, Option<Seq<char>>)>,
    s: Seq<recons_rules::ReconsRuleModel>,
    k: nat,
) -> Seq<recons_rules::ReconsRuleModel>
    decreases k,
{
    if k == 0 {
        Seq::empty()
    } else {
        with_rule(texts, merged(texts, s, (k - 1) as nat), s[k - 1])
    }
}

/// A rule put behind all that match no more symbols.
pub open spec fn put_by_length(
    s: Seq<recons_rules::ReconsRuleModel>,
    r: recons_rules::ReconsRuleModel,
) -> Seq<recons_rules::ReconsRuleModel>
    decreases s.len(),
{
    if s.len() == 0 || s.last().expansion.len() <= r.expansion.len() {
        s.push(r)
    } else {
        put_by_length(s.drop_last(), r).push(s.last())
    }
}

/// The rules in the order of how many symbols they match; equal ones keep
/// their order.
pub open spec fn by_length(s: Seq<recons_rules::ReconsRuleModel>) -> Seq<
    recons_rules::ReconsRuleModel,
>
    decreases s.len(),
{
    if s.len() == 0 {
        Seq::empty()
    } else {
        put_by_length(by_length(s.drop_last()), s.last())
    }
}

/// One rule for each matched shape, the shortest first.
pub open spec fn best_of(
    texts: Seq<(Seq<char>, Option<Seq<char>>)>,
    s: Seq<recons_rules::ReconsRuleModel>,
) -> Seq<recons_rules::ReconsRuleModel> {
    by_length(merged(texts, s, s.len()))
}

fn equal_symbol(a: &RSym, b: &RSym) -> (r: bool)
    ensures
        r == (a@ == b@),
{
    match (a, b) {
        (RSym::Term(x), RSym::Term(y)) => same_text(x, y.as_str()),
        (RSym::NonTerm(x), RSym::NonTerm(y)) => same_text(x, y.as_str()),
        _ => false,
    }
}

fn shapes_equal(a: &ReconsRule, b: &ReconsRule) -> (r: bool)
    ensures
        r == same_shape(a@, b@),
{
    if !same_text(&a.origin, b.origin.as_str()) {
        return false;
    }
    let n: usize = a.expansion.len();
    if n != b.expansion.len() {
        proof {
            assert(a@.expansion.len() != b@.expansion.len());
        }
        return false;
    }
    let mut i: usize = 0;
    while i < n
        invariant
            i <= n,
            n == a.expansion@.len(),
            n == b.expansion@.len(),
            forall|j: int| 0 <= j < i ==> a.expansion@[j]@ == b.expansion@[j]@,
        decreases n - i,
    {
        if !equal_symbol(&a.expansion[i], &b.expansion[i]) {
            proof {
                assert(a@.expansion[i as int] != b@.expansion[i as int]);
            }
            return false;
        }
        i = i + 1;
    }
    proof {
        assert(a@.expansion =~= b@.expansion);
    }
    true
}

fn find_shape(s: &Vec<ReconsRule>, r: &ReconsRule) -> (at: usize)
    ensures
        at == shape_at(recons_rules::rule_models(s@), r@, 0),
        at <= s@.len(),
{
    let ghost m = recons_rules::rule_models(s@);
    let mut i: usize = 0;
    while i < s.len()
        invariant
            i <= s@.len(),
            m == recons_rules::rule_models(s@),
            shape_at(m, r@, 0) == shape_at(m, r@, i as nat),
        decreases s.len() - i,
    {
        proof {
            assert(m[i as int] == s@[i as int]@);
        }
        if shapes_equal(&s[i], r) {
            return i;
        }
        i = i + 1;
    }
    i
}

fn add_rule(texts: &Vec<TermText>, s: &mut Vec<ReconsRule>, r: ReconsRule)
    ensures
        recons_rules::rule_models(final(s)@) == with_rule(
            text_models(texts@),
            recons_rules::rule_models(old(s)@),
            r@,
        ),
{
    let ghost before = recons_rules::rule_models(s@);
    let at = find_shape(s, &r);
    if at >= s.len() {
        s.push(r);
        proof {
            assert(recons_rules::rule_models(s@) =~= before.push(r@));
        }
    } else if better(texts, &r, &s[at]) {
        proof {
            assert(before[at as int] == s@[at as int]@);
        }
        s.set(at, r);
        proof {
            assert(recons_rules::rule_models(s@) =~= before.update(at as int, r@));
        }
    } else {
        proof {
            assert(before[at as int] == s@[at as int]@);
        }
    }
}

fn insert_rule(s: &mut Vec<ReconsRule>, r: ReconsRule)
    ensures
        recons_rules::rule_models(final(s)@) == put_by_length(
            recons_rules::rule_models(old(s)@),
            r@,
        ),
{
    let ghost m = recons_rules::rule_models(s@);
    let mut i: usize = s.len();
    proof {
        assert(m.take(i as int) =~= m);
        assert(put_by_length(m.take(i as int), r@) + m.skip(i as int) =~= put_by_length(m, r@));
    }
    while i > 0 && s[i - 1].expansion.len() > r.expansion.len()
        invariant
            i <= s@.len(),
            m == recons_rules::rule_models(s@),
            put_by_length(m, r@) == put_by_length(m.take(i as int), r@) + m.skip(i as int),
        decreases i,
    {
        proof {
            let t = m.take(i as int);
            assert(t.last() == s@[i - 1]@);
            assert(t.drop_last() =~= m.take(i - 1));
            assert(put_by_length(t, r@) == put_by_length(m.take(i - 1), r@).push(m[i - 1]));
            assert(put_by_length(m.take(i - 1), r@).push(m[i - 1]) + m.skip(i as int)
                =~= put_by_length(m.take(i - 1), r@) + m.skip(i - 1));
        }
        i = i - 1;
    }
    proof {
        let t = m.take(i as int);
        if i > 0 {
            assert(t.last() == s@[i - 1]@);
        }
        assert(put_by_length(t, r@) == t.push(r@));
    }
    s.insert(i, r);
    proof {
        assert(recons_rules::rule_models(s@) =~= m.take(i as int).push(r@) + m.skip(i as int));
    }
}

/// One rule for each matched shape, the shortest first.
pub fn best_rules(texts: &Vec<TermText>, rules: Vec<ReconsRule>) -> (r: Vec<ReconsRule>)
    ensures
        recons_rules::rule_models(r@) == best_of(
            text_models(texts@),
            recons_rules::rule_models(rules@),
        ),
{
    let ghost all = recons_rules::rule_models(rules@);
    let ghost t = text_models(texts@);
    let mut rules = rules;
    let mut chosen: Vec<ReconsRule> = Vec::new();
    let ghost mut k: nat = 0;
    proof {
        assert(all.skip(0) =~= all);
        assert(recons_rules::rule_models(chosen@) =~= merged(t, all, 0));
    }
    while rules.len() > 0
        invariant
            k + rules@.len() == all.len(),
            t == text_models(texts@),
            recons_rules::rule_models(rules@) =~= all.skip(k as int),
            recons_rules::rule_models(chosen@) == merged(t, all, k),
        decreases rules.len(),
    {
        let ghost before = recons_rules::rule_models(rules@);
        proof {
            assert(before[0] == all[k as int]);
        }
        let x = rules.remove(0);
        add_rule(texts, &mut chosen, x);
        proof {
            assert(recons_rules::rule_models(rules@) =~= before.skip(1));
            assert(before.skip(1) =~= all.skip(k as int + 1));
            k = k + 1;
        }
    }
    let ghost all = recons_rules::rule_models(chosen@);
    let mut r: Vec<ReconsRule> = Vec::new();
    let ghost mut j: nat = 0;
    proof {
        assert(all.skip(0) =~= all);
        assert(all.take(0) =~= Seq::empty());
        assert(recons_rules::rule_models(r@) =~= by_length(all.take(0)));
    }
    while chosen.len() > 0
        invariant
            j + chosen@.len() == all.len(),
            recons_rules::rule_models(chosen@) =~= all.skip(j as int),
            recons_rules::rule_models(r@) == by_length(all.take(j as int)),
        decreases chosen.len(),
    {
        let ghost before = recons_rules::rule_models(chosen@);
        proof {
            assert(before[0] == all[j as int]);
            assert(all.take(j as int + 1).drop_last() =~= all.take(j as int));
        }
        let x = chosen.remove(0);
        insert_rule(&mut r, x);
        proof {
            assert(recons_rules::rule_models(chosen@) =~= before.skip(1));
            assert(before.skip(1) =~= all.skip(j as int + 1));
            j = j + 1;
        }
    }
    proof {
        assert(all.take(all.len() as int) =~= all);
    }
    r
}

} // verus!
