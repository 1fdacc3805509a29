//! What holds of writing trees back: the match of a node is exact, and every
//! token of a tree is written, in order.

use vstd::prelude::*;
use crate::recons_best;
use crate::recons_match;
use crate::recons_match::{Cause, Item};
use crate::recons_rules;
use crate::recons_rules::RuleSet;
use crate::reconstruct;
use crate::tree;

verus! {

// ---------------------------------------------------------------------------
// Derivations of a list of children

/// How many children matched symbols take.
pub open spec fn width(elems: Seq<recons_match::ElemModel>) -> nat
    decreases elems, elems.len(),
{
    if elems.len() == 0 {
        0
    } else {
        width(elems.drop_last()) + match elems.last() {
            recons_match::ElemModel::Child(_) => 1,
            recons_match::ElemModel::Sub(d) => width(d.elems),
        }
    }
}

/// Whether matched symbols are those of `syms`, over the children from `from`
/// to `to`: each child once, in order.
pub open spec fn spans(
    ctx: recons_match::MatchContext,
    syms: Seq<recons_rules::RSymModel>,
    elems: Seq<recons_match::ElemModel>,
    from: int,
    to: int,
) -> bool
    decreases elems, elems.len(),
{
    if elems.len() == 0 {
        syms.len() == 0 && from == to
    } else {
        &&& syms.len() == elems.len()
        &&& match elems.last() {
            recons_match::ElemModel::Child(c) => {
                &&& to == c + 1
                &&& c < ctx.children.len()
                &&& syms.last() matches recons_rules::RSymModel::Term(t) && recons_match::fits(
                    ctx.children[c as int],
                    t,
                )
                &&& spans(ctx, syms.drop_last(), elems.drop_last(), from, c as int)
            },
            recons_match::ElemModel::Sub(d) => {
                let mid = to - width(d.elems);
                &&& d.rule < ctx.rules.len()
                &&& syms.last() == recons_rules::RSymModel::NonTerm(
                    ctx.rules[d.rule as int].origin,
                )
                &&& spans(ctx, syms.drop_last(), elems.drop_last(), from, mid)
                &&& spans(ctx, ctx.rules[d.rule as int].expansion, d.elems, mid, to)
            },
        }
    }
}

/// Whether a rule application is one of the node, over all its children.
pub open spec fn is_derivation(
    ctx: recons_match::MatchContext,
    d: recons_match::DerivModel,
) -> bool {
    &&& d.rule < ctx.rules.len()
    &&& recons_match::is_root(ctx, d.rule as int)
    &&& spans(
        ctx,
        ctx.rules[d.rule as int].expansion,
        d.elems,
        0,
        ctx.children.len() as int,
    )
}

/// Matched symbols reach as far as they take children.
pub proof fn lemma_spans_width(
    ctx: recons_match::MatchContext,
    syms: Seq<recons_rules::RSymModel>,
    elems: Seq<recons_match::ElemModel>,
    from: int,
    to: int,
)
    requires
        spans(ctx, syms, elems, from, to),
    ensures
        to == from + width(elems),
    decreases elems.len(),
{
    if elems.len() > 0 {
        match elems.last() {
            recons_match::ElemModel::Child(c) => {
                lemma_spans_width(ctx, syms.drop_last(), elems.drop_last(), from, c as int);
            },
            recons_match::ElemModel::Sub(d) => {
                lemma_spans_width(
                    ctx,
                    syms.drop_last(),
                    elems.drop_last(),
                    from,
                    to - width(d.elems),
                );
            },
        }
    }
}

/// Each matched symbol begins where those before it end.
pub proof fn lemma_spans_at(
    ctx: recons_match::MatchContext,
    syms: Seq<recons_rules::RSymModel>,
    elems: Seq<recons_match::ElemModel>,
    from: int,
    to: int,
    e: int,
)
    requires
        spans(ctx, syms, elems, from, to),
        0 <= e <= elems.len(),
    ensures
        from + width(elems.take(e)) <= to,
        e < elems.len() ==> {
            let pos = from + width(elems.take(e));
            let next = from + width(elems.take(e + 1));
            &&& next <= to
            &&& match elems[e] {
                recons_match::ElemModel::Child(c) => c == pos && next == pos + 1,
                recons_match::ElemModel::Sub(d) => {
                    &&& d.rule < ctx.rules.len()
                    &&& next == pos + width(d.elems)
                    &&& spans(ctx, ctx.rules[d.rule as int].expansion, d.elems, pos, next)
                },
            }
        },
    decreases elems.len(),
{
    lemma_spans_width(ctx, syms, elems, from, to);
    if e == elems.len() {
        assert(elems.take(e) =~= elems);
    } else {
        let last = elems.len() - 1;
        let short = elems.drop_last();
        let mid = match elems.last() {
            recons_match::ElemModel::Child(c) => c as int,
            recons_match::ElemModel::Sub(d) => to - width(d.elems),
        };
        assert(short.take(e) =~= elems.take(e));
        lemma_spans_at(ctx, syms.drop_last(), short, from, mid, e);
        lemma_spans_width(ctx, syms.drop_last(), short, from, mid);
        if e < last {
            assert(short.take(e + 1) =~= elems.take(e + 1));
        } else {
            assert(elems.take(e) =~= short);
            assert(elems.take(e + 1) =~= elems);
        }
    }
}

// ---------------------------------------------------------------------------
// What is found is a derivation

proof fn lemma_span_child(
    ctx: recons_match::MatchContext,
    all: Seq<recons_rules::RSymModel>,
    dot: int,
    before: Seq<recons_match::ElemModel>,
    from: int,
    c: nat,
)
    requires
        0 < dot <= all.len(),
        spans(ctx, all.take(dot - 1), before, from, c as int),
        before.len() == dot - 1,
        c < ctx.children.len(),
        all[dot - 1] matches recons_rules::RSymModel::Term(t) && recons_match::fits(
            ctx.children[c as int],
            t,
        ),
    ensures
        spans(
            ctx,
            all.take(dot),
            before.push(recons_match::ElemModel::Child(c)),
            from,
            c as int + 1,
        ),
{
    let elems = before.push(recons_match::ElemModel::Child(c));
    assert(elems.drop_last() =~= before);
    assert(all.take(dot).drop_last() =~= all.take(dot - 1));
}

proof fn lemma_span_sub(
    ctx: recons_match::MatchContext,
    all: Seq<recons_rules::RSymModel>,
    dot: int,
    before: Seq<recons_match::ElemModel>,
    from: int,
    mid: int,
    d: recons_match::DerivModel,
    to: int,
)
    requires
        0 < dot <= all.len(),
        spans(ctx, all.take(dot - 1), before, from, mid),
        before.len() == dot - 1,
        d.rule < ctx.rules.len(),
        all[dot - 1] == recons_rules::RSymModel::NonTerm(ctx.rules[d.rule as int].origin),
        spans(ctx, ctx.rules[d.rule as int].expansion, d.elems, mid, to),
    ensures
        spans(ctx, all.take(dot), before.push(recons_match::ElemModel::Sub(d)), from, to),
{
    let elems = before.push(recons_match::ElemModel::Sub(d));
    assert(elems.drop_last() =~= before);
    assert(all.take(dot).drop_last() =~= all.take(dot - 1));
    lemma_spans_width(ctx, ctx.rules[d.rule as int].expansion, d.elems, mid, to);
}

/// What an item has matched are the symbols before its dot, over the children
/// from its start to its set.
proof fn lemma_item_spans(
    ctx: recons_match::MatchContext,
    sets: Seq<Seq<Item>>,
    set: nat,
    index: nat,
)
    requires
        recons_match::sets_ok(ctx, sets),
        set < sets.len(),
        index < sets[set as int].len(),
    ensures
        item_spans(ctx, sets, set, index),
    decreases set, index,
{
    let it = sets[set as int][index as int];
    let all = ctx.rules[it.rule as int].expansion;
    assert(recons_match::item_ok(ctx, sets, set as int, index as int, it));
    if let Some(b) = it.back {
        lemma_item_spans(ctx, sets, b.set as nat, b.index as nat);
        recons_match::lemma_elems_ok(ctx, sets, b.set as nat, b.index as nat);
        let before = recons_match::elems_of(sets, b.set as nat, b.index as nat);
        let p = sets[b.set as int][b.index as int];
        match b.cause {
            Cause::Scan => {
                lemma_span_child(ctx, all, it.dot as int, before, it.start as int, b.set as nat);
            },
            Cause::Complete { set: cs, index: ci } => {
                let c = sets[cs as int][ci as int];
                lemma_item_spans(ctx, sets, cs as nat, ci as nat);
                assert(recons_match::item_ok(ctx, sets, cs as int, ci as int, c));
                let exp = ctx.rules[c.rule as int].expansion;
                assert(exp.take(c.dot as int) =~= exp);
                lemma_span_sub(
                    ctx,
                    all,
                    it.dot as int,
                    before,
                    it.start as int,
                    b.set as int,
                    recons_match::deriv_of(sets, cs as nat, ci as nat),
                    set as int,
                );
            },
        }
    }
}

/// Whether what an item has matched are the symbols before its dot, over the
/// children from its start to its set.
spec fn item_spans(
    ctx: recons_match::MatchContext,
    sets: Seq<Seq<Item>>,
    set: nat,
    index: nat,
) -> bool {
    let it = sets[set as int][index as int];
    spans(
        ctx,
        ctx.rules[it.rule as int].expansion.take(it.dot as int),
        recons_match::elems_of(sets, set, index),
        it.start as int,
        set as int,
    )
}

// ---------------------------------------------------------------------------
// Every derivation is found

/// What a machine can hold of a match.
pub open spec fn within_limits(ctx: recons_match::MatchContext, sets: Seq<Seq<Item>>) -> bool {
    &&& ctx.rules.len() <= usize::MAX
    &&& ctx.children.len() < usize::MAX
    &&& forall|r: int|
        0 <= r < ctx.rules.len() ==> (#[trigger] ctx.rules[r]).expansion.len() <= usize::MAX
    &&& forall|s: int| 0 <= s < sets.len() ==> (#[trigger] sets[s]).len() <= usize::MAX
}

/// The place of an item moved on by one symbol.
spec fn next_place(it: Item) -> Item {
    Item { rule: it.rule, dot: (it.dot + 1) as usize, start: it.start, back: None }
}

/// Whether an item was worked on as far as it waits for something: a child
/// that fits moved it on, and the rules of its symbol were begun.
spec fn item_done(ctx: recons_match::MatchContext, sets: Seq<Seq<Item>>, i: int, it: Item) -> bool {
    match recons_match::awaited(ctx, it) {
        Some(recons_rules::RSymModel::Term(t)) => i < ctx.children.len() && recons_match::fits(
            ctx.children[i],
            t,
        ) ==> recons_match::has_place(sets[i + 1], next_place(it)),
        Some(recons_rules::RSymModel::NonTerm(x)) => forall|r: int|
            0 <= r < ctx.rules.len() && (#[trigger] ctx.rules[r]).origin == x
                ==> recons_match::has_place(sets[i], recons_match::fresh(r, i)),
        None => true,
    }
}

/// Whether a completed item of set `i` moved on an item that waited for its
/// origin.
spec fn pair_done(
    ctx: recons_match::MatchContext,
    sets: Seq<Seq<Item>>,
    i: int,
    c: Item,
    w: Item,
) -> bool {
    recons_match::awaited(ctx, c) is None && recons_match::awaited(ctx, w) == Some(
        recons_rules::RSymModel::NonTerm(ctx.rules[c.rule as int].origin),
    ) ==> recons_match::has_place(sets[i], next_place(w))
}

/// Whether the item at index `a` of set `s` was worked on.
spec fn item_at(ctx: recons_match::MatchContext, sets: Seq<Seq<Item>>, s: int, a: int) -> bool {
    item_done(ctx, sets, s, sets[s][a])
}

/// Whether the item at index `a` of set `s` moved on the item at index `b` of
/// the set where it starts.
spec fn pair_at(
    ctx: recons_match::MatchContext,
    sets: Seq<Seq<Item>>,
    s: int,
    a: int,
    b: int,
) -> bool {
    pair_done(ctx, sets, s, sets[s][a], sets[sets[s][a].start as int][b])
}

/// Whether the items of the sets below `i`, and those below `k` of set `i`,
/// were worked on, each with each.
spec fn done_to(ctx: recons_match::MatchContext, sets: Seq<Seq<Item>>, i: int, k: int) -> bool {
    &&& forall|s: int, a: int|
        0 <= s < i && 0 <= a < sets[s].len() ==> #[trigger] item_at(ctx, sets, s, a)
    &&& forall|a: int| 0 <= a < k ==> #[trigger] item_at(ctx, sets, i, a)
    &&& forall|s: int, a: int, b: int|
        0 <= s < i && 0 <= a < sets[s].len() && 0 <= b < sets[sets[s][a].start as int].len()
            ==> #[trigger] pair_at(ctx, sets, s, a, b)
    &&& forall|a: int, b: int|
        0 <= a < k && sets[i][a].start < i && 0 <= b < sets[sets[i][a].start as int].len()
            ==> #[trigger] pair_at(ctx, sets, i, a, b)
    &&& forall|a: int, b: int|
        0 <= a < k && sets[i][a].start == i && 0 <= b < k ==> #[trigger] pair_at(
            ctx,
            sets,
            i,
            a,
            b,
        )
}

/// Whether sets grew, and none below `i` changed.
spec fn grown_from(a: Seq<Seq<Item>>, b: Seq<Seq<Item>>, i: int) -> bool {
    &&& recons_match::grown(a, b)
    &&& forall|s: int| 0 <= s < i ==> #[trigger] b[s] == a[s]
}

proof fn lemma_added_from(sets: Seq<Seq<Item>>, at: int, it: Item, i: int)
    requires
        0 <= i <= at < sets.len(),
    ensures
        grown_from(sets, recons_match::added(sets, at, it), i),
        recons_match::has_place(recons_match::added(sets, at, it)[at], it),
{
    recons_match::lemma_added_grown(sets, at, it);
}

proof fn lemma_from_trans(a: Seq<Seq<Item>>, b: Seq<Seq<Item>>, c: Seq<Seq<Item>>, i: int)
    requires
        grown_from(a, b, i),
        grown_from(b, c, i),
        0 <= i < a.len(),
    ensures
        grown_from(a, c, i),
{
    recons_match::lemma_grown_trans(a, b, c);
    assert forall|s: int| 0 <= s < i implies #[trigger] c[s] == a[s] by {
        assert(b[s] == a[s]);
    }
}

proof fn lemma_predicted(
    ctx: recons_match::MatchContext,
    sets: Seq<Seq<Item>>,
    i: int,
    x: Seq<char>,
    k: nat,
)
    requires
        0 <= i < sets.len(),
        k <= ctx.rules.len(),
    ensures
        grown_from(sets, recons_match::predicted(ctx, sets, i, x, k), i),
        forall|r: int|
            0 <= r < k && (#[trigger] ctx.rules[r]).origin == x ==> recons_match::has_place(
                recons_match::predicted(ctx, sets, i, x, k)[i],
                recons_match::fresh(r, i),
            ),
    decreases k,
{
    recons_match::lemma_grown_self(sets);
    if k > 0 {
        lemma_predicted(ctx, sets, i, x, (k - 1) as nat);
        let before = recons_match::predicted(ctx, sets, i, x, (k - 1) as nat);
        let after = recons_match::predicted(ctx, sets, i, x, k);
        if ctx.rules[k - 1].origin == x {
            lemma_added_from(before, i, recons_match::fresh(k - 1, i), i);
            lemma_from_trans(sets, before, after, i);
            assert forall|r: int| 0 <= r < k && (#[trigger] ctx.rules[r]).origin
                == x implies recons_match::has_place(after[i], recons_match::fresh(r, i)) by {
                if r < k - 1 {
                    recons_match::lemma_grown_place(before, after, i, recons_match::fresh(r, i));
                }
            }
        }
    }
}

proof fn lemma_woken(
    ctx: recons_match::MatchContext,
    sets: Seq<Seq<Item>>,
    i: int,
    index: int,
    from: int,
    waiters: Seq<Item>,
    x: Seq<char>,
    k: nat,
)
    requires
        0 <= i < sets.len(),
        k <= waiters.len(),
    ensures
        ({
            let after = recons_match::woken(ctx, sets, i, index, from, waiters, x, k);
            &&& grown_from(sets, after, i)
            &&& forall|b: int|
                0 <= b < k && recons_match::awaited(ctx, #[trigger] waiters[b]) == Some(
                    recons_rules::RSymModel::NonTerm(x),
                ) ==> recons_match::has_place(after[i], next_place(waiters[b]))
        }),
    decreases k,
{
    recons_match::lemma_grown_self(sets);
    if k > 0 {
        lemma_woken(ctx, sets, i, index, from, waiters, x, (k - 1) as nat);
        let before = recons_match::woken(
            ctx,
            sets,
            i,
            index,
            from,
            waiters,
            x,
            (k - 1) as nat,
        );
        let after = recons_match::woken(ctx, sets, i, index, from, waiters, x, k);
        let w = waiters[k - 1];
        if recons_match::awaited(ctx, w) == Some(recons_rules::RSymModel::NonTerm(x)) {
            let it = recons_match::moved(
                w,
                from,
                k - 1,
                Cause::Complete { set: i as usize, index: index as usize },
            );
            lemma_added_from(before, i, it, i);
            lemma_from_trans(sets, before, after, i);
            lemma_same_place(after[i], it, next_place(w));
            assert forall|b: int| 0 <= b < k && recons_match::awaited(
                ctx,
                #[trigger] waiters[b],
            ) == Some(recons_rules::RSymModel::NonTerm(x)) implies recons_match::has_place(
                after[i],
                next_place(waiters[b]),
            ) by {
                if b < k - 1 {
                    recons_match::lemma_grown_place(before, after, i, next_place(waiters[b]));
                }
            }
        }
    }
}

proof fn lemma_same_place(s: Seq<Item>, a: Item, b: Item)
    requires
        recons_match::has_place(s, a),
        recons_match::same_place(a, b),
    ensures
        recons_match::has_place(s, b),
{
    let k = choose|k: int| 0 <= k < s.len() && recons_match::same_place(#[trigger] s[k], a);
    assert(recons_match::same_place(s[k], b));
}

/// What was done stays done.
proof fn lemma_done_kept(
    ctx: recons_match::MatchContext,
    a: Seq<Seq<Item>>,
    b: Seq<Seq<Item>>,
    i: int,
    k: int,
)
    requires
        recons_match::sets_ok(ctx, a),
        grown_from(a, b, i),
        0 <= i < a.len(),
        0 <= k <= a[i].len(),
        done_to(ctx, a, i, k),
    ensures
        done_to(ctx, b, i, k),
{
    assert forall|s: int, q: int| 0 <= s < i && 0 <= q < b[s].len() implies #[trigger] item_at(
        ctx,
        b,
        s,
        q,
    ) by {
        assert(b[s] == a[s]);
        assert(item_at(ctx, a, s, q));
        lemma_item_kept(ctx, a, b, s, a[s][q]);
    }
    assert forall|q: int| 0 <= q < k implies #[trigger] item_at(ctx, b, i, q) by {
        recons_match::lemma_grown_item(a, b, i, q);
        assert(item_at(ctx, a, i, q));
        lemma_item_kept(ctx, a, b, i, a[i][q]);
    }
    assert forall|s: int, q: int, p: int|
        0 <= s < i && 0 <= q < b[s].len() && 0 <= p
            < b[b[s][q].start as int].len() implies #[trigger] pair_at(ctx, b, s, q, p) by {
        assert(b[s] == a[s]);
        assert(recons_match::item_ok(ctx, a, s, q, a[s][q]));
        let j = b[s][q].start as int;
        assert(b[j] == a[j]);
        assert(pair_at(ctx, a, s, q, p));
        lemma_pair_kept(ctx, a, b, s, a[s][q], a[j][p]);
    }
    assert forall|q: int, p: int|
        0 <= q < k && b[i][q].start < i && 0 <= p
            < b[b[i][q].start as int].len() implies #[trigger] pair_at(ctx, b, i, q, p) by {
        recons_match::lemma_grown_item(a, b, i, q);
        let j = b[i][q].start as int;
        assert(b[j] == a[j]);
        assert(pair_at(ctx, a, i, q, p));
        lemma_pair_kept(ctx, a, b, i, a[i][q], a[j][p]);
    }
    assert forall|q: int, p: int|
        0 <= q < k && b[i][q].start == i && 0 <= p < k implies #[trigger] pair_at(
        ctx,
        b,
        i,
        q,
        p,
    ) by {
        recons_match::lemma_grown_item(a, b, i, q);
        recons_match::lemma_grown_item(a, b, i, p);
        assert(pair_at(ctx, a, i, q, p));
        lemma_pair_kept(ctx, a, b, i, a[i][q], a[i][p]);
    }
}

proof fn lemma_item_kept(
    ctx: recons_match::MatchContext,
    a: Seq<Seq<Item>>,
    b: Seq<Seq<Item>>,
    i: int,
    it: Item,
)
    requires
        recons_match::grown(a, b),
        a.len() == ctx.children.len() + 1,
        0 <= i < a.len(),
        item_done(ctx, a, i, it),
    ensures
        item_done(ctx, b, i, it),
{
    match recons_match::awaited(ctx, it) {
        Some(recons_rules::RSymModel::Term(t)) => {
            if i < ctx.children.len() && recons_match::fits(ctx.children[i], t) {
                recons_match::lemma_grown_place(a, b, i + 1, next_place(it));
            }
        },
        Some(recons_rules::RSymModel::NonTerm(x)) => {
            assert forall|r: int| 0 <= r < ctx.rules.len() && (#[trigger] ctx.rules[r]).origin
                == x implies recons_match::has_place(b[i], recons_match::fresh(r, i)) by {
                recons_match::lemma_grown_place(a, b, i, recons_match::fresh(r, i));
            }
        },
        None => {},
    }
}

proof fn lemma_pair_kept(
    ctx: recons_match::MatchContext,
    a: Seq<Seq<Item>>,
    b: Seq<Seq<Item>>,
    i: int,
    c: Item,
    w: Item,
)
    requires
        recons_match::grown(a, b),
        0 <= i < a.len(),
        pair_done(ctx, a, i, c, w),
    ensures
        pair_done(ctx, b, i, c, w),
{
    if recons_match::has_place(a[i], next_place(w)) {
        recons_match::lemma_grown_place(a, b, i, next_place(w));
    }
}

/// What work on an item does: it only adds to the set of the item and the
/// next, it does what the item asks for, and it pairs the item with those that
/// were worked on before.
spec fn step_effect(
    ctx: recons_match::MatchContext,
    sets: Seq<Seq<Item>>,
    i: int,
    k: int,
    after: Seq<Seq<Item>>,
) -> bool {
    let it = sets[i][k];
    &&& grown_from(sets, after, i)
    &&& item_done(ctx, after, i, it)
    &&& forall|b: int|
        0 <= b < sets[it.start as int].len() ==> pair_done(
            ctx,
            after,
            i,
            it,
            #[trigger] sets[it.start as int][b],
        )
    &&& forall|a: int|
        0 <= a < k && (#[trigger] sets[i][a]).start == i ==> pair_done(
            ctx,
            after,
            i,
            sets[i][a],
            it,
        )
}

proof fn lemma_effect_scan(
    ctx: recons_match::MatchContext,
    sets: Seq<Seq<Item>>,
    i: int,
    k: int,
)
    requires
        sets.len() == ctx.children.len() + 1,
        0 <= i < sets.len(),
        0 <= k < sets[i].len(),
        recons_match::awaited(ctx, sets[i][k]) matches Some(recons_rules::RSymModel::Term(_)),
    ensures
        step_effect(ctx, sets, i, k, recons_match::stepped(ctx, sets, i, k)),
{
    let after = recons_match::stepped(ctx, sets, i, k);
    let it = sets[i][k];
    recons_match::lemma_grown_self(sets);
    if let Some(recons_rules::RSymModel::Term(t)) = recons_match::awaited(ctx, it) {
        if i < ctx.children.len() && recons_match::fits(ctx.children[i], t) {
            let m = recons_match::moved(it, i, k, Cause::Scan);
            lemma_added_from(sets, i + 1, m, i);
            lemma_same_place(after[i + 1], m, next_place(it));
        }
    }
}

proof fn lemma_effect_predict(
    ctx: recons_match::MatchContext,
    sets: Seq<Seq<Item>>,
    i: int,
    k: int,
    x: Seq<char>,
)
    requires
        0 <= i < sets.len(),
        0 <= k < sets[i].len(),
        recons_match::awaited(ctx, sets[i][k]) == Some(recons_rules::RSymModel::NonTerm(x)),
    ensures
        step_effect(ctx, sets, i, k, recons_match::stepped(ctx, sets, i, k)),
{
    let after = recons_match::stepped(ctx, sets, i, k);
    let it = sets[i][k];
    let begun = recons_match::predicted(ctx, sets, i, x, ctx.rules.len());
    lemma_predicted(ctx, sets, i, x, ctx.rules.len());
    assert(begun[i].len() >= sets[i].len());
    recons_match::lemma_empty_match(ctx, begun[i], i, x, 0, k as nat);
    match recons_match::empty_match(ctx, begun[i], i, x, 0, k as nat) {
        Some(c) => {
            let m = recons_match::moved(
                it,
                i,
                k,
                Cause::Complete { set: i as usize, index: c as usize },
            );
            lemma_added_from(begun, i, m, i);
            lemma_from_trans(sets, begun, after, i);
            lemma_same_place(after[i], m, next_place(it));
            assert forall|r: int| 0 <= r < ctx.rules.len() && (#[trigger] ctx.rules[r]).origin
                == x implies recons_match::has_place(after[i], recons_match::fresh(r, i)) by {
                recons_match::lemma_grown_place(begun, after, i, recons_match::fresh(r, i));
            }
        },
        None => {
            assert forall|a: int| 0 <= a < k && (#[trigger] sets[i][a]).start
                == i implies pair_done(ctx, after, i, sets[i][a], it) by {
                recons_match::lemma_grown_item(sets, begun, i, a);
                assert(!recons_match::is_empty_match(ctx, i, x, begun[i][a]));
            }
        },
    }
}

proof fn lemma_effect_wake(
    ctx: recons_match::MatchContext,
    sets: Seq<Seq<Item>>,
    i: int,
    k: int,
)
    requires
        0 <= i < sets.len(),
        0 <= k < sets[i].len(),
        recons_match::awaited(ctx, sets[i][k]) is None,
    ensures
        step_effect(ctx, sets, i, k, recons_match::stepped(ctx, sets, i, k)),
{
    let it = sets[i][k];
    lemma_woken(
        ctx,
        sets,
        i,
        k,
        it.start as int,
        sets[it.start as int],
        ctx.rules[it.rule as int].origin,
        sets[it.start as int].len(),
    );
}

proof fn lemma_effect(ctx: recons_match::MatchContext, sets: Seq<Seq<Item>>, i: int, k: int)
    requires
        sets.len() == ctx.children.len() + 1,
        0 <= i < sets.len(),
        0 <= k < sets[i].len(),
    ensures
        step_effect(ctx, sets, i, k, recons_match::stepped(ctx, sets, i, k)),
{
    match recons_match::awaited(ctx, sets[i][k]) {
        Some(recons_rules::RSymModel::Term(_)) => {
            lemma_effect_scan(ctx, sets, i, k);
        },
        Some(recons_rules::RSymModel::NonTerm(x)) => {
            lemma_effect_predict(ctx, sets, i, k, x);
        },
        None => {
            lemma_effect_wake(ctx, sets, i, k);
        },
    }
}

/// Work on an item leaves one item more done.
proof fn lemma_step_done(
    ctx: recons_match::MatchContext,
    sets: Seq<Seq<Item>>,
    i: int,
    k: int,
    after: Seq<Seq<Item>>,
)
    requires
        recons_match::sets_ok(ctx, sets),
        0 <= i < sets.len(),
        0 <= k < sets[i].len(),
        step_effect(ctx, sets, i, k, after),
        done_to(ctx, sets, i, k),
    ensures
        done_to(ctx, after, i, k + 1),
{
    let it = sets[i][k];
    lemma_done_kept(ctx, sets, after, i, k);
    recons_match::lemma_grown_item(sets, after, i, k);
    assert(recons_match::item_ok(ctx, sets, i, k, it));
    assert(item_at(ctx, after, i, k));
    assert forall|a: int, b: int|
        0 <= a < k + 1 && after[i][a].start < i && 0 <= b
            < after[after[i][a].start as int].len() implies #[trigger] pair_at(
        ctx,
        after,
        i,
        a,
        b,
    ) by {
        if a == k {
            let j = it.start as int;
            assert(after[j] == sets[j]);
            assert(pair_done(ctx, after, i, it, sets[it.start as int][b]));
        }
    }
    assert forall|a: int, b: int|
        0 <= a < k + 1 && after[i][a].start == i && 0 <= b < k + 1 implies #[trigger] pair_at(
        ctx,
        after,
        i,
        a,
        b,
    ) by {
        recons_match::lemma_grown_item(sets, after, i, a);
        recons_match::lemma_grown_item(sets, after, i, b);
        if a == k {
            assert(pair_done(ctx, after, i, it, sets[it.start as int][b]));
        } else if b == k {
            assert(pair_done(ctx, after, i, sets[i][a], it));
        }
    }
}

proof fn lemma_limits_below(
    ctx: recons_match::MatchContext,
    a: Seq<Seq<Item>>,
    b: Seq<Seq<Item>>,
)
    requires
        recons_match::grown(a, b),
        within_limits(ctx, b),
    ensures
        within_limits(ctx, a),
{
    assert forall|s: int| 0 <= s < a.len() implies (#[trigger] a[s]).len() <= usize::MAX by {
        assert(b[s].len() >= a[s].len());
    }
}

proof fn lemma_predicted_ok(
    ctx: recons_match::MatchContext,
    sets: Seq<Seq<Item>>,
    i: int,
    x: Seq<char>,
    k: nat,
)
    requires
        recons_match::sets_ok(ctx, sets),
        0 <= i < sets.len(),
        k <= ctx.rules.len() <= usize::MAX,
        ctx.children.len() < usize::MAX,
    ensures
        recons_match::sets_ok(ctx, recons_match::predicted(ctx, sets, i, x, k)),
    decreases k,
{
    if k > 0 {
        lemma_predicted_ok(ctx, sets, i, x, (k - 1) as nat);
        if ctx.rules[k - 1].origin == x {
            recons_match::lemma_added_ok(
                ctx,
                recons_match::predicted(ctx, sets, i, x, (k - 1) as nat),
                i,
                recons_match::fresh(k - 1, i),
            );
        }
    }
}

proof fn lemma_seeded_ok(ctx: recons_match::MatchContext, k: nat)
    requires
        k <= ctx.rules.len() <= usize::MAX,
    ensures
        recons_match::sets_ok(ctx, recons_match::seeded(ctx, k)),
        forall|r: int|
            0 <= r < k && #[trigger] recons_match::is_root(ctx, r) ==> recons_match::has_place(
                recons_match::seeded(ctx, k)[0],
                recons_match::fresh(r, 0),
            ),
    decreases k,
{
    if k > 0 {
        lemma_seeded_ok(ctx, (k - 1) as nat);
        let before = recons_match::seeded(ctx, (k - 1) as nat);
        let after = recons_match::seeded(ctx, k);
        if recons_match::is_root(ctx, k - 1) {
            recons_match::lemma_added_ok(ctx, before, 0, recons_match::fresh(k - 1, 0));
            lemma_added_from(before, 0, recons_match::fresh(k - 1, 0), 0);
            assert forall|r: int| 0 <= r < k && #[trigger] recons_match::is_root(
                ctx,
                r,
            ) implies recons_match::has_place(after[0], recons_match::fresh(r, 0)) by {
                if r < k - 1 {
                    recons_match::lemma_grown_place(before, after, 0, recons_match::fresh(r, 0));
                }
            }
        }
    }
}

proof fn lemma_woken_ok(
    ctx: recons_match::MatchContext,
    sets: Seq<Seq<Item>>,
    i: int,
    index: int,
    k: nat,
)
    requires
        recons_match::sets_ok(ctx, sets),
        0 <= i < sets.len(),
        0 <= index < sets[i].len(),
        recons_match::awaited(ctx, sets[i][index]) is None,
        k <= sets[sets[i][index].start as int].len(),
        ({
            let it = sets[i][index];
            within_limits(
                ctx,
                recons_match::woken(
                    ctx,
                    sets,
                    i,
                    index,
                    it.start as int,
                    sets[it.start as int],
                    ctx.rules[it.rule as int].origin,
                    k,
                ),
            )
        }),
    ensures
        ({
            let it = sets[i][index];
            recons_match::sets_ok(
                ctx,
                recons_match::woken(
                    ctx,
                    sets,
                    i,
                    index,
                    it.start as int,
                    sets[it.start as int],
                    ctx.rules[it.rule as int].origin,
                    k,
                ),
            )
        }),
    decreases k,
{
    if k > 0 {
        let it = sets[i][index];
        assert(recons_match::item_ok(ctx, sets, i, index, it));
        let from = it.start as int;
        let waiters = sets[from];
        let x = ctx.rules[it.rule as int].origin;
        let before = recons_match::woken(
            ctx,
            sets,
            i,
            index,
            from,
            waiters,
            x,
            (k - 1) as nat,
        );
        let after = recons_match::woken(ctx, sets, i, index, from, waiters, x, k);
        lemma_woken(ctx, sets, i, index, from, waiters, x, (k - 1) as nat);
        let w = waiters[k - 1];
        if recons_match::awaited(ctx, w) == Some(recons_rules::RSymModel::NonTerm(x)) {
            let cause = Cause::Complete { set: i as usize, index: index as usize };
            let m = recons_match::moved(w, from, k - 1, cause);
            recons_match::lemma_added_grown(before, i, m);
            lemma_limits_below(ctx, before, after);
            lemma_woken_ok(ctx, sets, i, index, (k - 1) as nat);
            recons_match::lemma_grown_item(sets, before, from, k - 1);
            recons_match::lemma_grown_item(sets, before, i, index);
            assert(recons_match::item_ok(ctx, before, from, k - 1, before[from][k - 1]));
            assert(before[i].len() <= usize::MAX);
            assert(before[from].len() <= usize::MAX);
            assert(ctx.rules[w.rule as int].expansion.len() <= usize::MAX);
            recons_match::lemma_moved_ok(ctx, before, i, from, k - 1, cause);
            recons_match::lemma_added_ok(ctx, before, i, m);
        } else {
            lemma_woken_ok(ctx, sets, i, index, (k - 1) as nat);
        }
    }
}

/// Work on an item keeps the sets in order.
proof fn lemma_stepped_ok(
    ctx: recons_match::MatchContext,
    sets: Seq<Seq<Item>>,
    i: int,
    k: int,
)
    requires
        recons_match::sets_ok(ctx, sets),
        0 <= i < sets.len(),
        0 <= k < sets[i].len(),
        within_limits(ctx, recons_match::stepped(ctx, sets, i, k)),
        within_limits(ctx, sets),
    ensures
        recons_match::sets_ok(ctx, recons_match::stepped(ctx, sets, i, k)),
{
    let it = sets[i][k];
    assert(recons_match::item_ok(ctx, sets, i, k, it));
    assert(ctx.rules[it.rule as int].expansion.len() <= usize::MAX);
    assert(sets[i].len() <= usize::MAX);
    match recons_match::awaited(ctx, it) {
        Some(recons_rules::RSymModel::Term(t)) => {
            if i < ctx.children.len() && recons_match::fits(ctx.children[i], t) {
                recons_match::lemma_moved_ok(ctx, sets, i + 1, i, k, Cause::Scan);
                recons_match::lemma_added_ok(
                    ctx,
                    sets,
                    i + 1,
                    recons_match::moved(it, i, k, Cause::Scan),
                );
            }
        },
        Some(recons_rules::RSymModel::NonTerm(x)) => {
            let begun = recons_match::predicted(ctx, sets, i, x, ctx.rules.len());
            lemma_predicted_ok(ctx, sets, i, x, ctx.rules.len());
            lemma_predicted(ctx, sets, i, x, ctx.rules.len());
            recons_match::lemma_grown_item(sets, begun, i, k);
            recons_match::lemma_empty_match(ctx, begun[i], i, x, 0, k as nat);
            if let Some(c) = recons_match::empty_match(ctx, begun[i], i, x, 0, k as nat) {
                let cause = Cause::Complete { set: i as usize, index: c as usize };
                let m = recons_match::moved(it, i, k, cause);
                recons_match::lemma_added_grown(begun, i, m);
                lemma_limits_below(ctx, begun, recons_match::stepped(ctx, sets, i, k));
                assert(begun[i].len() <= usize::MAX);
                recons_match::lemma_moved_ok(ctx, begun, i, i, k, cause);
                recons_match::lemma_added_ok(ctx, begun, i, m);
            }
        },
        None => {
            lemma_woken_ok(ctx, sets, i, k, sets[it.start as int].len());
        },
    }
}

/// Work on the first items of a set leaves them done.
proof fn lemma_worked_done(
    ctx: recons_match::MatchContext,
    sets: Seq<Seq<Item>>,
    i: int,
    k: nat,
)
    requires
        recons_match::sets_ok(ctx, sets),
        0 <= i < sets.len(),
        done_to(ctx, sets, i, 0),
        recons_match::worked(ctx, sets, i, k).len() == sets.len(),
        k <= recons_match::worked(ctx, sets, i, k)[i].len(),
        within_limits(ctx, recons_match::worked(ctx, sets, i, k)),
    ensures
        recons_match::sets_ok(ctx, recons_match::worked(ctx, sets, i, k)),
        recons_match::grown(sets, recons_match::worked(ctx, sets, i, k)),
        done_to(ctx, recons_match::worked(ctx, sets, i, k), i, k as int),
    decreases k,
{
    recons_match::lemma_grown_self(sets);
    if k > 0 {
        let before = recons_match::worked(ctx, sets, i, (k - 1) as nat);
        let after = recons_match::worked(ctx, sets, i, k);
        lemma_worked_len(ctx, sets, i, (k - 1) as nat);
        lemma_effect(ctx, before, i, k - 1);
        lemma_limits_below(ctx, before, after);
        lemma_worked_done(ctx, sets, i, (k - 1) as nat);
        lemma_stepped_ok(ctx, before, i, k - 1);
        lemma_step_done(ctx, before, i, k - 1, after);
        recons_match::lemma_grown_trans(sets, before, after);
    }
}

proof fn lemma_worked_len(
    ctx: recons_match::MatchContext,
    sets: Seq<Seq<Item>>,
    i: int,
    k: nat,
)
    requires
        sets.len() == ctx.children.len() + 1,
        0 <= i < sets.len(),
    ensures
        recons_match::worked(ctx, sets, i, k).len() == sets.len(),
    decreases k,
{
    if k > 0 {
        lemma_worked_len(ctx, sets, i, (k - 1) as nat);
        let before = recons_match::worked(ctx, sets, i, (k - 1) as nat);
        if k - 1 < before[i].len() {
            lemma_effect(ctx, before, i, k - 1);
        }
    }
}

/// Whether sets are full: in order, done below set `i`, and with every rule of
/// the node begun.
spec fn is_full(ctx: recons_match::MatchContext, sets: Seq<Seq<Item>>, i: int) -> bool {
    &&& recons_match::sets_ok(ctx, sets)
    &&& done_to(ctx, sets, i, 0)
    &&& forall|r: int|
        0 <= r < ctx.rules.len() && #[trigger] recons_match::is_root(ctx, r)
            ==> recons_match::has_place(sets[0], recons_match::fresh(r, 0))
}

proof fn lemma_closed_len(ctx: recons_match::MatchContext, i: nat, sets: Seq<Seq<Item>>)
    requires
        recons_match::closed_to(ctx, i, sets),
        i <= ctx.children.len() + 1,
        ctx.rules.len() <= usize::MAX,
    ensures
        sets.len() == ctx.children.len() + 1,
    decreases i,
{
    if i == 0 {
        lemma_seeded_ok(ctx, ctx.rules.len());
    } else {
        let before = choose|before: Seq<Seq<Item>>|
            recons_match::closed_to(ctx, (i - 1) as nat, before)
                && #[trigger] recons_match::is_closed(ctx, before, i - 1, sets);
        lemma_closed_len(ctx, (i - 1) as nat, before);
        lemma_worked_len(ctx, before, i - 1, sets[i - 1].len());
    }
}

/// Closed sets are full.
proof fn lemma_closed_full(ctx: recons_match::MatchContext, i: nat, sets: Seq<Seq<Item>>)
    requires
        recons_match::closed_to(ctx, i, sets),
        i <= ctx.children.len() + 1,
        within_limits(ctx, sets),
    ensures
        is_full(ctx, sets, i as int),
    decreases i,
{
    if i == 0 {
        lemma_seeded_ok(ctx, ctx.rules.len());
    } else {
        let before = choose|before: Seq<Seq<Item>>|
            recons_match::closed_to(ctx, (i - 1) as nat, before)
                && #[trigger] recons_match::is_closed(ctx, before, i - 1, sets);
        let at = i - 1;
        let len = sets[at].len();
        lemma_closed_len(ctx, (i - 1) as nat, before);
        lemma_closed_len(ctx, i, sets);
        lemma_worked_grown(ctx, before, at, len);
        lemma_limits_below(ctx, before, sets);
        lemma_closed_full(ctx, (i - 1) as nat, before);
        lemma_worked_done(ctx, before, at, len);
        assert forall|r: int| 0 <= r < ctx.rules.len() && #[trigger] recons_match::is_root(
            ctx,
            r,
        ) implies recons_match::has_place(sets[0], recons_match::fresh(r, 0)) by {
            recons_match::lemma_grown_place(before, sets, 0, recons_match::fresh(r, 0));
        }
        assert forall|s: int, a: int, b: int|
            0 <= s < i && 0 <= a < sets[s].len() && 0 <= b
                < sets[sets[s][a].start as int].len() implies #[trigger] pair_at(
            ctx,
            sets,
            s,
            a,
            b,
        ) by {
            assert(recons_match::item_ok(ctx, sets, s, a, sets[s][a]));
        }
    }
}

proof fn lemma_worked_grown(
    ctx: recons_match::MatchContext,
    sets: Seq<Seq<Item>>,
    i: int,
    k: nat,
)
    requires
        sets.len() == ctx.children.len() + 1,
        0 <= i < sets.len(),
    ensures
        recons_match::grown(sets, recons_match::worked(ctx, sets, i, k)),
    decreases k,
{
    recons_match::lemma_grown_self(sets);
    if k > 0 {
        lemma_worked_grown(ctx, sets, i, (k - 1) as nat);
        let before = recons_match::worked(ctx, sets, i, (k - 1) as nat);
        if k - 1 < before[i].len() {
            lemma_effect(ctx, before, i, k - 1);
            recons_match::lemma_grown_trans(
                sets,
                before,
                recons_match::worked(ctx, sets, i, k),
            );
        }
    }
}

/// The place of a rule matched up to its `k`-th symbol.
spec fn place(r: int, k: int, s: int) -> Item {
    Item { rule: r as usize, dot: k as usize, start: s as usize, back: None }
}

/// What matched symbols span is found in full sets.
proof fn lemma_found(
    ctx: recons_match::MatchContext,
    sets: Seq<Seq<Item>>,
    r: int,
    s: int,
    elems: Seq<recons_match::ElemModel>,
    t: int,
)
    requires
        is_full(ctx, sets, ctx.children.len() as int + 1),
        within_limits(ctx, sets),
        0 <= r < ctx.rules.len(),
        0 <= s < sets.len(),
        recons_match::has_place(sets[s], recons_match::fresh(r, s)),
        elems.len() <= ctx.rules[r].expansion.len(),
        spans(ctx, ctx.rules[r].expansion.take(elems.len() as int), elems, s, t),
    ensures
        s <= t < sets.len(),
        recons_match::has_place(sets[t], place(r, elems.len() as int, s)),
    decreases elems, elems.len(),
{
    let all = ctx.rules[r].expansion;
    let k = elems.len() as int;
    assert(all.len() <= usize::MAX);
    if k == 0 {
        lemma_same_place(sets[s], recons_match::fresh(r, s), place(r, 0, s));
    } else {
        assert(all.take(k).drop_last() =~= all.take(k - 1));
        assert(all.take(k).last() == all[k - 1]);
        match elems.last() {
            recons_match::ElemModel::Child(c) => {
                lemma_found(ctx, sets, r, s, elems.drop_last(), c as int);
                let p = place(r, k - 1, s);
                let a = choose|a: int|
                    0 <= a < sets[c as int].len() && recons_match::same_place(
                        #[trigger] sets[c as int][a],
                        p,
                    );
                assert(item_at(ctx, sets, c as int, a));
                lemma_same_place(sets[c as int + 1], next_place(sets[c as int][a]), place(r, k, s));
            },
            recons_match::ElemModel::Sub(d) => {
                let mid = t - width(d.elems);
                let x = ctx.rules[d.rule as int].origin;
                lemma_found(ctx, sets, r, s, elems.drop_last(), mid);
                let p = place(r, k - 1, s);
                let b = choose|b: int|
                    0 <= b < sets[mid].len() && recons_match::same_place(
                        #[trigger] sets[mid][b],
                        p,
                    );
                let w = sets[mid][b];
                assert(recons_match::awaited(ctx, w) == Some(recons_rules::RSymModel::NonTerm(x)));
                assert(item_at(ctx, sets, mid, b));
                assert(ctx.rules[d.rule as int].origin == x);
                assert(recons_match::has_place(sets[mid], recons_match::fresh(d.rule as int, mid)));
                let exp = ctx.rules[d.rule as int].expansion;
                lemma_spans_len(ctx, exp, d.elems, mid, t);
                assert(exp.take(d.elems.len() as int) =~= exp);
                lemma_found(ctx, sets, d.rule as int, mid, d.elems, t);
                let q = place(d.rule as int, d.elems.len() as int, mid);
                let a = choose|a: int|
                    0 <= a < sets[t].len() && recons_match::same_place(#[trigger] sets[t][a], q);
                assert(exp.len() <= usize::MAX);
                assert(sets[t][a].start == mid);
                assert(pair_at(ctx, sets, t, a, b));
                lemma_same_place(sets[t], next_place(w), place(r, k, s));
            },
        }
    }
}

proof fn lemma_spans_len(
    ctx: recons_match::MatchContext,
    syms: Seq<recons_rules::RSymModel>,
    elems: Seq<recons_match::ElemModel>,
    from: int,
    to: int,
)
    requires
        spans(ctx, syms, elems, from, to),
    ensures
        syms.len() == elems.len(),
{
}

/// The match of a node is exact: what is found is a rule application of the
/// node over all its children, each once and in order, and where nothing is
/// found there is none.
pub proof fn match_is_exact(ctx: recons_match::MatchContext, sets: Seq<Seq<Item>>)
    requires
        recons_match::is_chart(ctx, sets),
        within_limits(ctx, sets),
    ensures
        match recons_match::match_of(ctx) {
            Some(d) => is_derivation(ctx, d),
            None => forall|d: recons_match::DerivModel| !#[trigger] is_derivation(ctx, d),
        },
{
    let n = ctx.children.len();
    let other = choose|s: Seq<Seq<Item>>| recons_match::is_chart(ctx, s);
    recons_match::lemma_closed_unique(ctx, (n + 1) as nat, sets, other);
    lemma_closed_full(ctx, (n + 1) as nat, sets);
    recons_match::lemma_accepted(ctx, sets[n as int], 0);
    match recons_match::accepted(ctx, sets[n as int], 0) {
        Some(k) => {
            let it = sets[n as int][k as int];
            assert(recons_match::item_ok(ctx, sets, n as int, k as int, it));
            lemma_item_spans(ctx, sets, n, k);
            let exp = ctx.rules[it.rule as int].expansion;
            assert(exp.take(it.dot as int) =~= exp);
        },
        None => {
            assert forall|d: recons_match::DerivModel| !#[trigger] is_derivation(ctx, d) by {
                if is_derivation(ctx, d) {
                    let exp = ctx.rules[d.rule as int].expansion;
                    lemma_spans_len(ctx, exp, d.elems, 0, n as int);
                    assert(exp.take(d.elems.len() as int) =~= exp);
                    lemma_found(ctx, sets, d.rule as int, 0, d.elems, n as int);
                    let q = place(d.rule as int, d.elems.len() as int, 0);
                    let a = choose|a: int|
                        0 <= a < sets[n as int].len() && recons_match::same_place(
                            #[trigger] sets[n as int][a],
                            q,
                        );
                    assert(exp.len() <= usize::MAX);
                    assert(recons_match::is_accepted(ctx, sets[n as int][a]));
                }
            }
        },
    }
}

// ---------------------------------------------------------------------------
// Texts

/// Without a separator the text of a tree is its pieces, one after another.
pub proof fn exact_text_is_the_pieces(m: reconstruct::ReconsModel, node: tree::Node)
    ensures
        match (reconstruct::node_pieces(m, node), reconstruct::rendered(m, node, None)) {
            (Ok(pieces), Ok(s)) => s == pieces.flatten(),
            (Err(e), Err(f)) => e == f,
            _ => false,
        },
{
    if let Ok(pieces) = reconstruct::node_pieces(m, node) {
        lemma_joined(pieces, pieces.len());
        assert(pieces.take(pieces.len() as int) =~= pieces);
    }
}

proof fn lemma_joined(pieces: Seq<Seq<char>>, k: nat)
    requires
        k <= pieces.len(),
    ensures
        reconstruct::joined_pieces(pieces, None, k) == pieces.take(k as int).flatten(),
    decreases k,
{
    if k > 0 {
        lemma_joined(pieces, (k - 1) as nat);
        let t = pieces.take(k as int);
        assert(t.drop_last() =~= pieces.take(k - 1));
        assert(t =~= t.drop_last().push(t.last()));
        t.drop_last().lemma_flatten_push(t.last());
    } else {
        assert(pieces.take(0) =~= Seq::empty());
    }
}

/// Where the grammar ignores none of the separators, nothing is put between
/// pieces.
pub proof fn nothing_ignored_nothing_inserted(
    g: RuleSet,
    subs: Seq<(Seq<char>, Seq<char>)>,
    node: tree::Node,
)
    requires
        !reconstruct::is_ignored(g, " "@),
        !reconstruct::is_ignored(g, "\n"@),
        !reconstruct::is_ignored(g, "\t"@),
    ensures
        ({
            let m = reconstruct::recons_model(g, subs);
            reconstruct::rendered(m, node, m.separator) == reconstruct::rendered(m, node, None)
        }),
{
}

/// A separator is a text that the grammar ignores.
pub proof fn separator_is_ignored(g: RuleSet)
    ensures
        reconstruct::separator_of(g) matches Some(s) ==> reconstruct::is_ignored(g, s),
{
}

/// The last substitution for a name is the text of the terminal, whatever its
/// pattern.
pub proof fn substitution_wins(g: RuleSet, subs: Seq<(Seq<char>, Seq<char>)>, i: int)
    requires
        0 <= i < subs.len(),
        forall|j: int| i < j < subs.len() ==> (#[trigger] subs[j]).0 != subs[i].0,
    ensures
        recons_best::written_as(recons_best::texts_of(g, subs), subs[i].0) == Some(subs[i].1),
{
    let texts = recons_best::texts_of(g, subs);
    let n = g.terminals@.len();
    lemma_last_text(texts, subs[i].0, n + i, texts.len());
    assert(texts.take(texts.len() as int) =~= texts);
}

proof fn lemma_last_text(
    texts: Seq<(Seq<char>, Option<Seq<char>>)>,
    name: Seq<char>,
    at: int,
    k: nat,
)
    requires
        0 <= at < k <= texts.len(),
        texts[at].0 == name,
        forall|j: int| at < j < texts.len() ==> (#[trigger] texts[j]).0 != name,
    ensures
        recons_best::written_as(texts.take(k as int), name) == texts[at].1,
    decreases k,
{
    let t = texts.take(k as int);
    assert(t.drop_last() =~= texts.take(k - 1));
    if at < k - 1 {
        lemma_last_text(texts, name, at, (k - 1) as nat);
    }
}

} // verus!
