//! Matching the children of a tree node with turned rules: a small Earley
//! parser over the children.

use vstd::prelude::*;
use crate::recons_laws;
use crate::recons_rules;
use crate::recons_rules::{base_name, RSym, ReconsRule};
use crate::text::same_text;
use crate::tree;
use crate::tree::Child;

verus! {

// ---------------------------------------------------------------------------
// Items

/// A rule matched up to a symbol, from the child where the match begins.
#[derive(Clone, Copy, Debug)]
pub struct Item {
    pub rule: usize,
    pub dot: usize,
    pub start: usize,
    /// What the item was made from; an item at the beginning of its rule was
    /// made from nothing.
    pub back: Option<Back>,
}

/// The item that an item was made from, and what moved it on.
#[derive(Clone, Copy, Debug)]
pub struct Back {
    pub set: usize,
    pub index: usize,
    pub cause: Cause,
}

/// What moves an item on.
#[derive(Clone, Copy, Debug)]
pub enum Cause {
    /// The child at its set.
    Scan,
    /// A completed item.
    Complete { set: usize, index: usize },
}

/// What is matched: the rules, the name of the node, and its children.
pub ghost struct MatchContext {
    pub rules: Seq<recons_rules::ReconsRuleModel>,
    pub root: Seq<char>,
    pub children: Seq<tree::Node>,
}

/// Whether a child is matched by the terminal of that name.
pub open spec fn fits(c: tree::Node, name: Seq<char>) -> bool {
    match c {
        tree::Node::Token(t) => t.type_ == name,
        tree::Node::Tree { data, .. } => data == recons_rules::base_of(name),
        tree::Node::Absent => false,
    }
}

/// The symbol that an item waits for.
pub open spec fn awaited(ctx: MatchContext, it: Item) -> Option<recons_rules::RSymModel> {
    if it.dot < ctx.rules[it.rule as int].expansion.len() {
        Some(ctx.rules[it.rule as int].expansion[it.dot as int])
    } else {
        None
    }
}

/// Whether a rule can be that of the node itself.
pub open spec fn is_root(ctx: MatchContext, r: int) -> bool {
    recons_rules::base_of(ctx.rules[r].origin) == ctx.root
}

/// Whether two items are at the same place of the same match.
pub open spec fn same_place(a: Item, b: Item) -> bool {
    a.rule == b.rule && a.dot == b.dot && a.start == b.start
}

/// Whether a set holds an item at that place.
pub open spec fn has_place(s: Seq<Item>, it: Item) -> bool {
    exists|k: int| 0 <= k < s.len() && same_place(#[trigger] s[k], it)
}

/// The sets with one more item; the first item at a place stays.
pub open spec fn added(sets: Seq<Seq<Item>>, at: int, it: Item) -> Seq<Seq<Item>> {
    if has_place(sets[at], it) {
        sets
    } else {
        sets.update(at, sets[at].push(it))
    }
}

/// An item at the beginning of a rule.
pub open spec fn fresh(r: int, at: int) -> Item {
    Item { rule: r as usize, dot: 0, start: at as usize, back: None }
}

/// An item moved on by one symbol.
pub open spec fn moved(it: Item, set: int, index: int, cause: Cause) -> Item {
    Item {
        rule: it.rule,
        dot: (it.dot + 1) as usize,
        start: it.start,
        back: Some(Back { set: set as usize, index: index as usize, cause }),
    }
}

/// Sets without items.
pub open spec fn no_items(n: nat) -> Seq<Seq<Item>> {
    Seq::new(n + 1, |i: int| Seq::empty())
}

/// The sets with the first `k` rules begun that can be that of the node.
pub open spec fn seeded(ctx: MatchContext, k: nat) -> Seq<Seq<Item>>
    decreases k,
{
    if k == 0 {
        no_items(ctx.children.len())
    } else {
        let before = seeded(ctx, (k - 1) as nat);
        if is_root(ctx, k - 1) {
            added(before, 0, fresh(k - 1, 0))
        } else {
            before
        }
    }
}

/// The sets with those of the first `k` rules begun that have that origin.
pub open spec fn predicted(
    ctx: MatchContext,
    sets: Seq<Seq<Item>>,
    i: int,
    x: Seq<char>,
    k: nat,
) -> Seq<Seq<Item>>
    decreases k,
{
    if k == 0 {
        sets
    } else {
        let before = predicted(ctx, sets, i, x, (k - 1) as nat);
        if ctx.rules[k - 1].origin == x {
            added(before, i, fresh(k - 1, i))
        } else {
            before
        }
    }
}

/// Whether an item of set `i` matches no child, as all of a rule of that
/// origin.
pub open spec fn is_empty_match(ctx: MatchContext, i: int, x: Seq<char>, it: Item) -> bool {
    it.start == i && awaited(ctx, it) is None && ctx.rules[it.rule as int].origin == x
}

/// The first of the items from `k` on, and before `end`, that matches no child
/// as all of a rule of that origin.
pub open spec fn empty_match(
    ctx: MatchContext,
    s: Seq<Item>,
    i: int,
    x: Seq<char>,
    k: nat,
    end: nat,
) -> Option<nat>
    decreases end - k,
{
    if k >= end {
        None
    } else if is_empty_match(ctx, i, x, s[k as int]) {
        Some(k)
    } else {
        empty_match(ctx, s, i, x, k + 1, end)
    }
}

/// The sets after the completed item at `index` of set `i` moved on those of
/// the first `k` items of set `from` that wait for its origin.
pub open spec fn woken(
    ctx: MatchContext,
    sets: Seq<Seq<Item>>,
    i: int,
    index: int,
    from: int,
    waiters: Seq<Item>,
    x: Seq<char>,
    k: nat,
) -> Seq<Seq<Item>>
    decreases k,
{
    if k == 0 {
        sets
    } else {
        let before = woken(ctx, sets, i, index, from, waiters, x, (k - 1) as nat);
        if awaited(ctx, waiters[k - 1]) == Some(recons_rules::RSymModel::NonTerm(x)) {
            added(
                before,
                i,
                moved(
                    waiters[k - 1],
                    from,
                    k - 1,
                    Cause::Complete { set: i as usize, index: index as usize },
                ),
            )
        } else {
            before
        }
    }
}

/// The sets after the item at `index` of set `i` was worked on.
pub open spec fn stepped(ctx: MatchContext, sets: Seq<Seq<Item>>, i: int, index: int) -> Seq<
    Seq<Item>,
> {
    if index >= sets[i].len() {
        sets
    } else {
        let it = sets[i][index];
        match awaited(ctx, it) {
            Some(recons_rules::RSymModel::Term(t)) => if i < ctx.children.len() && fits(
                ctx.children[i],
                t,
            ) {
                added(sets, i + 1, moved(it, i, index, Cause::Scan))
            } else {
                sets
            },
            Some(recons_rules::RSymModel::NonTerm(x)) => {
                let begun = predicted(ctx, sets, i, x, ctx.rules.len());
                match empty_match(ctx, begun[i], i, x, 0, index as nat) {
                    Some(c) => added(
                        begun,
                        i,
                        moved(
                            it,
                            i,
                            index,
                            Cause::Complete { set: i as usize, index: c as usize },
                        ),
                    ),
                    None => begun,
                }
            },
            None => woken(
                ctx,
                sets,
                i,
                index,
                it.start as int,
                sets[it.start as int],
                ctx.rules[it.rule as int].origin,
                sets[it.start as int].len(),
            ),
        }
    }
}

/// The sets after the first `k` items of set `i` were worked on.
pub open spec fn worked(ctx: MatchContext, sets: Seq<Seq<Item>>, i: int, k: nat) -> Seq<Seq<Item>>
    decreases k,
{
    if k == 0 {
        sets
    } else {
        stepped(ctx, worked(ctx, sets, i, (k - 1) as nat), i, k - 1)
    }
}

/// Whether `after` is `sets` with every item of set `i` worked on.
pub open spec fn is_closed(
    ctx: MatchContext,
    sets: Seq<Seq<Item>>,
    i: int,
    after: Seq<Seq<Item>>,
) -> bool {
    after == worked(ctx, sets, i, after[i].len())
}

/// Whether `sets` are those of a match after the sets below `i` were closed.
pub open spec fn closed_to(ctx: MatchContext, i: nat, sets: Seq<Seq<Item>>) -> bool
    decreases i,
{
    if i == 0 {
        sets == seeded(ctx, ctx.rules.len())
    } else {
        exists|before: Seq<Seq<Item>>|
            closed_to(ctx, (i - 1) as nat, before) && #[trigger] is_closed(
                ctx,
                before,
                i - 1,
                sets,
            )
    }
}

/// Whether `sets` are the closed sets of a match.
pub open spec fn is_chart(ctx: MatchContext, sets: Seq<Seq<Item>>) -> bool {
    closed_to(ctx, (ctx.children.len() + 1) as nat, sets)
}

/// Whether an item is all of a rule of the node, from its first child.
pub open spec fn is_accepted(ctx: MatchContext, it: Item) -> bool {
    it.start == 0 && awaited(ctx, it) is None && is_root(ctx, it.rule as int)
}

/// The first of the items from `k` on that is all of a rule of the node.
pub open spec fn accepted(ctx: MatchContext, s: Seq<Item>, k: nat) -> Option<nat>
    decreases s.len() - k,
{
    if k >= s.len() {
        None
    } else if is_accepted(ctx, s[k as int]) {
        Some(k)
    } else {
        accepted(ctx, s, k + 1)
    }
}

// ---------------------------------------------------------------------------
// Derivations

/// One matched symbol: a child, or a rule application.
#[derive(Debug)]
pub enum Elem {
    Child(usize),
    Sub(Deriv),
}

/// A rule application over the children of a node.
#[derive(Debug)]
pub struct Deriv {
    pub rule: usize,
    pub elems: Vec<Elem>,
}

/// The content of a matched symbol.
pub ghost enum ElemModel {
    Child(nat),
    Sub(DerivModel),
}

/// The content of a rule application.
pub ghost struct DerivModel {
    pub rule: nat,
    pub elems: Seq<ElemModel>,
}

/// The content of a rule application.
pub open spec fn deriv_model(d: Deriv) -> DerivModel
    decreases d,
{
    DerivModel {
        rule: d.rule as nat,
        elems: Seq::new(
            d.elems@.len(),
            |i: int|
                if 0 <= i < d.elems@.len() {
                    elem_model(d.elems@[i])
                } else {
                    ElemModel::Child(0)
                },
        ),
    }
}

/// The content of a matched symbol.
pub open spec fn elem_model(e: Elem) -> ElemModel
    decreases e,
{
    match e {
        Elem::Child(c) => ElemModel::Child(c as nat),
        Elem::Sub(d) => ElemModel::Sub(deriv_model(d)),
    }
}

/// The contents of matched symbols.
pub open spec fn elem_models(s: Seq<Elem>) -> Seq<ElemModel> {
    Seq::new(s.len(), |i: int| elem_model(s[i]))
}

/// What an item has matched, read back along what it was made from.
pub open spec fn elems_of(sets: Seq<Seq<Item>>, set: nat, index: nat) -> Seq<ElemModel>
    decreases set, index,
{
    match sets[set as int][index as int].back {
        None => Seq::empty(),
        Some(b) => if b.set < set || (b.set == set && b.index < index) {
            let before = elems_of(sets, b.set as nat, b.index as nat);
            match b.cause {
                Cause::Scan => before.push(ElemModel::Child(b.set as nat)),
                Cause::Complete { set: cs, index: ci } => if cs == set && ci < index {
                    before.push(
                        ElemModel::Sub(
                            DerivModel {
                                rule: sets[cs as int][ci as int].rule as nat,
                                elems: elems_of(sets, cs as nat, ci as nat),
                            },
                        ),
                    )
                } else {
                    Seq::empty()
                },
            }
        } else {
            Seq::empty()
        },
    }
}

/// The rule application that a completed item stands for.
pub open spec fn deriv_of(sets: Seq<Seq<Item>>, set: nat, index: nat) -> DerivModel {
    DerivModel {
        rule: sets[set as int][index as int].rule as nat,
        elems: elems_of(sets, set, index),
    }
}

/// The rule application that matches a node in closed sets.
pub open spec fn match_in(ctx: MatchContext, sets: Seq<Seq<Item>>) -> Option<DerivModel> {
    let n = ctx.children.len();
    match accepted(ctx, sets[n as int], 0) {
        Some(k) => Some(deriv_of(sets, n, k)),
        None => None,
    }
}

/// The rule application that matches a node: the first that is found.
pub open spec fn match_of(ctx: MatchContext) -> Option<DerivModel> {
    match_in(ctx, choose|sets: Seq<Seq<Item>>| is_chart(ctx, sets))
}

// ---------------------------------------------------------------------------
// Sets in order

/// Whether what an item was made from is in order.
pub open spec fn back_ok(ctx: MatchContext, sets: Seq<Seq<Item>>, s: int, k: int, it: Item) -> bool {
    match it.back {
        None => it.dot == 0 && it.start == s,
        Some(b) => {
            &&& it.dot > 0
            &&& b.set < s || (b.set == s && b.index < k)
            &&& b.index < sets[b.set as int].len()
            &&& sets[b.set as int][b.index as int].rule == it.rule
            &&& sets[b.set as int][b.index as int].start == it.start
            &&& sets[b.set as int][b.index as int].dot + 1 == it.dot
            &&& match b.cause {
                Cause::Scan => {
                    &&& b.set + 1 == s
                    &&& ctx.rules[it.rule as int].expansion[it.dot - 1] matches
                        recons_rules::RSymModel::Term(t) && fits(ctx.children[b.set as int], t)
                },
                Cause::Complete { set: cs, index: ci } => {
                    &&& cs == s
                    &&& ci < k
                    &&& ci < sets[s].len()
                    &&& sets[s][ci as int].start == b.set
                    &&& awaited(ctx, sets[s][ci as int]) is None
                    &&& ctx.rules[it.rule as int].expansion[it.dot - 1]
                        == recons_rules::RSymModel::NonTerm(
                        ctx.rules[sets[s][ci as int].rule as int].origin,
                    )
                },
            }
        },
    }
}

/// Whether an item at index `k` of set `s` is in order.
pub open spec fn item_ok(ctx: MatchContext, sets: Seq<Seq<Item>>, s: int, k: int, it: Item) -> bool {
    &&& it.rule < ctx.rules.len()
    &&& it.dot <= ctx.rules[it.rule as int].expansion.len()
    &&& it.start <= s
    &&& back_ok(ctx, sets, s, k, it)
}

/// Whether the sets of a match are in order.
pub open spec fn sets_ok(ctx: MatchContext, sets: Seq<Seq<Item>>) -> bool {
    &&& sets.len() == ctx.children.len() + 1
    &&& forall|s: int, k: int|
        0 <= s < sets.len() && 0 <= k < sets[s].len() ==> item_ok(
            ctx,
            sets,
            s,
            k,
            #[trigger] sets[s][k],
        )
}

/// Whether sets grew.
pub open spec fn grown(a: Seq<Seq<Item>>, b: Seq<Seq<Item>>) -> bool {
    &&& a.len() == b.len()
    &&& forall|s: int|
        0 <= s < a.len() ==> (#[trigger] b[s]).len() >= a[s].len() && b[s].take(a[s].len() as int)
            == a[s]
}

/// Growing keeps every item.
pub proof fn lemma_grown_item(a: Seq<Seq<Item>>, b: Seq<Seq<Item>>, s: int, k: int)
    requires
        grown(a, b),
        0 <= s < a.len(),
        0 <= k < a[s].len(),
    ensures
        k < b[s].len(),
        b[s][k] == a[s][k],
{
    assert(b[s].take(a[s].len() as int)[k] == a[s][k]);
}

/// One more item is growth.
pub proof fn lemma_added_grown(sets: Seq<Seq<Item>>, at: int, it: Item)
    requires
        0 <= at < sets.len(),
    ensures
        grown(sets, added(sets, at, it)),
        has_place(added(sets, at, it)[at], it),
{
    let b = added(sets, at, it);
    assert forall|s: int| 0 <= s < sets.len() implies (#[trigger] b[s]).len() >= sets[s].len()
        && b[s].take(sets[s].len() as int) == sets[s] by {
        assert(b[s].take(sets[s].len() as int) =~= sets[s]);
    }
    if !has_place(sets[at], it) {
        assert(b[at][sets[at].len() as int] == it);
        assert(same_place(it, it));
    }
}

/// Growth over growth is growth.
pub proof fn lemma_grown_trans(a: Seq<Seq<Item>>, b: Seq<Seq<Item>>, c: Seq<Seq<Item>>)
    requires
        grown(a, b),
        grown(b, c),
    ensures
        grown(a, c),
{
    assert forall|s: int| 0 <= s < a.len() implies (#[trigger] c[s]).len() >= a[s].len()
        && c[s].take(a[s].len() as int) == a[s] by {
        assert(b[s].len() >= a[s].len());
        assert(c[s].take(a[s].len() as int) =~= a[s]) by {
            assert forall|k: int| 0 <= k < a[s].len() implies c[s][k] == a[s][k] by {
                lemma_grown_item(a, b, s, k);
                lemma_grown_item(b, c, s, k);
            }
        }
    }
}

/// Growing keeps a place.
pub proof fn lemma_grown_place(a: Seq<Seq<Item>>, b: Seq<Seq<Item>>, s: int, it: Item)
    requires
        grown(a, b),
        0 <= s < a.len(),
        has_place(a[s], it),
    ensures
        has_place(b[s], it),
{
    let k = choose|k: int| 0 <= k < a[s].len() && same_place(#[trigger] a[s][k], it);
    lemma_grown_item(a, b, s, k);
    assert(same_place(b[s][k], it));
}

/// An item in order keeps the sets in order.
pub proof fn lemma_added_ok(ctx: MatchContext, sets: Seq<Seq<Item>>, at: int, it: Item)
    requires
        sets_ok(ctx, sets),
        0 <= at < sets.len(),
        item_ok(ctx, sets, at, sets[at].len() as int, it),
    ensures
        sets_ok(ctx, added(sets, at, it)),
{
    let b = added(sets, at, it);
    if !has_place(sets[at], it) {
        assert forall|s: int, k: int| 0 <= s < b.len() && 0 <= k < b[s].len() implies item_ok(
            ctx,
            b,
            s,
            k,
            #[trigger] b[s][k],
        ) by {
            if s == at && k == sets[at].len() {
                assert(b[s][k] == it);
            } else {
                assert(b[s][k] == sets[s][k]);
                assert(item_ok(ctx, sets, s, k, sets[s][k]));
            }
        }
    }
}

// ---------------------------------------------------------------------------
// The matcher

/// The rules that can match the children of a node.
pub struct Matcher<'a> {
    pub rules: Vec<&'a ReconsRule>,
    /// Which of them can be that of the node itself.
    pub roots: Vec<bool>,
}

impl<'a> Matcher<'a> {
    /// Whether the matcher is that of rules and the name of a node.
    pub open spec fn fits(&self, ctx: MatchContext) -> bool {
        &&& ctx.rules.len() == self.rules@.len()
        &&& ctx.rules.len() == self.roots@.len()
        &&& forall|i: int| 0 <= i < ctx.rules.len() ==> (#[trigger] self.rules@[i])@ == ctx.rules[i]
        &&& forall|i: int| 0 <= i < ctx.rules.len() ==> #[trigger] self.roots@[i] == is_root(ctx, i)
    }
}

/// The contents of sets.
pub open spec fn set_models(v: Seq<Vec<Item>>) -> Seq<Seq<Item>> {
    Seq::new(v.len(), |i: int| v[i]@)
}

fn child_matches(c: &Child, name: &str) -> (r: bool)
    ensures
        r == fits(c@, name@),
{
    match c {
        Child::Token(t) => same_text(&t.type_, name),
        Child::Tree(t) => {
            let base = base_name(name);
            same_text(&t.data, base.as_str())
        },
        Child::Absent => false,
    }
}

fn add_item(sets: &mut Vec<Vec<Item>>, at: usize, it: Item)
    requires
        at < old(sets)@.len(),
    ensures
        set_models(final(sets)@) == added(set_models(old(sets)@), at as int, it),
{
    let ghost before = set_models(sets@);
    let n: usize = sets[at].len();
    let mut k: usize = 0;
    while k < n
        invariant
            k <= n,
            at < sets@.len(),
            n == sets@[at as int]@.len(),
            before == set_models(sets@),
            before == set_models(old(sets)@),
            forall|j: int| 0 <= j < k ==> !same_place(#[trigger] before[at as int][j], it),
        decreases n - k,
    {
        let x = sets[at][k];
        if x.rule == it.rule && x.dot == it.dot && x.start == it.start {
            proof {
                assert(same_place(before[at as int][k as int], it));
            }
            return;
        }
        k = k + 1;
    }
    let s = &mut sets[at];
    s.push(it);
    proof {
        assert(!has_place(before[at as int], it));
        assert(set_models(sets@) =~= before.update(at as int, before[at as int].push(it)));
    }
}

/// The sets with the rules begun that can be that of the node.
fn seed(m: &Matcher, n: usize, Ghost(ctx): Ghost<MatchContext>) -> (sets: Vec<Vec<Item>>)
    requires
        m.fits(ctx),
        n == ctx.children.len(),
    ensures
        set_models(sets@) == seeded(ctx, ctx.rules.len()),
        sets_ok(ctx, set_models(sets@)),
{
    let mut sets: Vec<Vec<Item>> = Vec::new();
    sets.push(Vec::new());
    let mut i: usize = 0;
    while i < n
        invariant
            i <= n,
            sets@.len() == i + 1,
            forall|s: int| 0 <= s < sets@.len() ==> (#[trigger] sets@[s])@.len() == 0,
        decreases n - i,
    {
        sets.push(Vec::new());
        i = i + 1;
    }
    proof {
        assert forall|s: int| 0 <= s < sets@.len() implies set_models(sets@)[s] =~= no_items(
            n as nat,
        )[s] by {
            assert(sets@[s]@.len() == 0);
        }
        assert(set_models(sets@) =~= no_items(n as nat));
    }
    let mut r: usize = 0;
    while r < m.rules.len()
        invariant
            r <= m.rules@.len(),
            m.fits(ctx),
            n == ctx.children.len(),
            set_models(sets@) == seeded(ctx, r as nat),
            sets_ok(ctx, set_models(sets@)),
        decreases m.rules.len() - r,
    {
        if m.roots[r] {
            let ghost before = set_models(sets@);
            proof {
                lemma_added_ok(ctx, before, 0, fresh(r as int, 0));
            }
            add_item(&mut sets, 0, Item { rule: r, dot: 0, start: 0, back: None });
        }
        r = r + 1;
    }
    sets
}

/// Begins the rules of that origin.
fn predict(
    m: &Matcher,
    sets: &mut Vec<Vec<Item>>,
    i: usize,
    x: &str,
    Ghost(ctx): Ghost<MatchContext>,
)
    requires
        m.fits(ctx),
        sets_ok(ctx, set_models(old(sets)@)),
        i < old(sets)@.len(),
    ensures
        set_models(final(sets)@) == predicted(
            ctx,
            set_models(old(sets)@),
            i as int,
            x@,
            ctx.rules.len(),
        ),
        sets_ok(ctx, set_models(final(sets)@)),
        grown(set_models(old(sets)@), set_models(final(sets)@)),
{
    let ghost start = set_models(sets@);
    let mut r: usize = 0;
    proof {
        lemma_grown_self(start);
    }
    while r < m.rules.len()
        invariant
            r <= m.rules@.len(),
            m.fits(ctx),
            i < sets@.len(),
            set_models(sets@) == predicted(ctx, start, i as int, x@, r as nat),
            sets_ok(ctx, set_models(sets@)),
            grown(start, set_models(sets@)),
        decreases m.rules.len() - r,
    {
        proof {
            assert(m.rules@[r as int]@ == ctx.rules[r as int]);
        }
        if same_text(&m.rules[r].origin, x) {
            let ghost before = set_models(sets@);
            proof {
                lemma_added_ok(ctx, before, i as int, fresh(r as int, i as int));
                lemma_added_grown(before, i as int, fresh(r as int, i as int));
                lemma_grown_trans(start, before, added(before, i as int, fresh(r as int, i as int)));
            }
            add_item(sets, i, Item { rule: r, dot: 0, start: i, back: None });
        }
        r = r + 1;
    }
}

/// Sets are grown from themselves.
pub proof fn lemma_grown_self(a: Seq<Seq<Item>>)
    ensures
        grown(a, a),
{
    assert forall|s: int| 0 <= s < a.len() implies (#[trigger] a[s]).take(a[s].len() as int)
        == a[s] by {
        assert(a[s].take(a[s].len() as int) =~= a[s]);
    }
}

/// What `empty_match` finds.
pub proof fn lemma_empty_match(
    ctx: MatchContext,
    s: Seq<Item>,
    i: int,
    x: Seq<char>,
    k: nat,
    end: nat,
)
    requires
        k <= end <= s.len(),
    ensures
        match empty_match(ctx, s, i, x, k, end) {
            Some(c) => k <= c < end && is_empty_match(ctx, i, x, s[c as int]),
            None => forall|c: int| k <= c < end ==> !is_empty_match(ctx, i, x, #[trigger] s[c]),
        },
    decreases end - k,
{
    if k < end && !is_empty_match(ctx, i, x, s[k as int]) {
        lemma_empty_match(ctx, s, i, x, k + 1, end);
    }
}

/// What `accepted` finds.
pub proof fn lemma_accepted(ctx: MatchContext, s: Seq<Item>, k: nat)
    requires
        k <= s.len(),
    ensures
        match accepted(ctx, s, k) {
            Some(c) => k <= c < s.len() && is_accepted(ctx, s[c as int]),
            None => forall|c: int| k <= c < s.len() ==> !is_accepted(ctx, #[trigger] s[c]),
        },
    decreases s.len() - k,
{
    if k < s.len() && !is_accepted(ctx, s[k as int]) {
        lemma_accepted(ctx, s, k + 1);
    }
}

fn find_empty(
    m: &Matcher,
    s: &Vec<Item>,
    i: usize,
    x: &str,
    end: usize,
    Ghost(ctx): Ghost<MatchContext>,
) -> (r: Option<usize>)
    requires
        m.fits(ctx),
        end <= s@.len(),
        forall|k: int| 0 <= k < s@.len() ==> (#[trigger] s@[k]).rule < ctx.rules.len(),
    ensures
        match r {
            Some(c) => empty_match(ctx, s@, i as int, x@, 0, end as nat) == Some(c as nat),
            None => empty_match(ctx, s@, i as int, x@, 0, end as nat) is None,
        },
{
    let mut k: usize = 0;
    while k < end
        invariant
            k <= end,
            end <= s@.len(),
            m.fits(ctx),
            forall|j: int| 0 <= j < s@.len() ==> (#[trigger] s@[j]).rule < ctx.rules.len(),
            empty_match(ctx, s@, i as int, x@, 0, end as nat) == empty_match(
                ctx,
                s@,
                i as int,
                x@,
                k as nat,
                end as nat,
            ),
        decreases end - k,
    {
        let it = s[k];
        proof {
            assert(s@[k as int].rule < ctx.rules.len());
            assert(m.rules@[it.rule as int]@ == ctx.rules[it.rule as int]);
        }
        let rule = m.rules[it.rule];
        if it.start == i && it.dot >= rule.expansion.len() && same_text(&rule.origin, x) {
            return Some(k);
        }
        k = k + 1;
    }
    None
}

/// An item moved on is in order.
pub proof fn lemma_moved_ok(
    ctx: MatchContext,
    sets: Seq<Seq<Item>>,
    at: int,
    set: int,
    index: int,
    cause: Cause,
)
    requires
        sets_ok(ctx, sets),
        0 <= set <= at < sets.len(),
        sets.len() <= usize::MAX,
        0 <= index < sets[set].len() <= usize::MAX,
        awaited(ctx, sets[set][index]) is Some,
        ctx.rules[sets[set][index].rule as int].expansion.len() <= usize::MAX,
        match cause {
            Cause::Scan => set + 1 == at && (awaited(ctx, sets[set][index])
                matches Some(recons_rules::RSymModel::Term(t)) && fits(ctx.children[set], t)),
            Cause::Complete { set: cs, index: ci } => cs == at && ci < sets[at].len() && sets[at][ci as int].start
                == set && awaited(ctx, sets[at][ci as int]) is None && awaited(
                ctx,
                sets[set][index],
            ) == Some(
                recons_rules::RSymModel::NonTerm(
                    ctx.rules[sets[at][ci as int].rule as int].origin,
                ),
            ),
        },
    ensures
        item_ok(
            ctx,
            sets,
            at,
            sets[at].len() as int,
            moved(sets[set][index], set, index, cause),
        ),
{
    assert(item_ok(ctx, sets, set, index, sets[set][index]));
}

/// Moves on the items that wait for the origin of a completed item.
fn wake(
    m: &Matcher,
    sets: &mut Vec<Vec<Item>>,
    i: usize,
    index: usize,
    Ghost(ctx): Ghost<MatchContext>,
)
    requires
        m.fits(ctx),
        sets_ok(ctx, set_models(old(sets)@)),
        i < old(sets)@.len(),
        index < old(sets)@[i as int]@.len(),
        awaited(ctx, set_models(old(sets)@)[i as int][index as int]) is None,
    ensures
        set_models(final(sets)@) == stepped(ctx, set_models(old(sets)@), i as int, index as int),
        sets_ok(ctx, set_models(final(sets)@)),
        grown(set_models(old(sets)@), set_models(final(sets)@)),
{
    let ghost start = set_models(sets@);
    let it = sets[i][index];
    proof {
        assert(start[i as int][index as int] == it);
        assert(item_ok(ctx, start, i as int, index as int, start[i as int][index as int]));
        assert(m.rules@[it.rule as int]@ == ctx.rules[it.rule as int]);
        lemma_grown_self(start);
    }
    let rule = m.rules[it.rule];
    let from = it.start;
    let n: usize = sets[from].len();
    let ghost waiters = start[from as int];
    let ghost x = ctx.rules[it.rule as int].origin;
    let mut k: usize = 0;
    while k < n
        invariant
            k <= n,
            n == waiters.len(),
            from == it.start,
            from <= i < sets@.len(),
            m.fits(ctx),
            sets_ok(ctx, start),
            start[i as int].len() > index,
            start[i as int][index as int] == it,
            waiters == start[from as int],
            awaited(ctx, it) is None,
            it.rule < ctx.rules.len(),
            x == ctx.rules[it.rule as int].origin,
            rule@.origin == x,
            set_models(sets@) == woken(
                ctx,
                start,
                i as int,
                index as int,
                from as int,
                waiters,
                x,
                k as nat,
            ),
            sets_ok(ctx, set_models(sets@)),
            grown(start, set_models(sets@)),
        decreases n - k,
    {
        let ghost now = set_models(sets@);
        proof {
            lemma_grown_item(start, now, from as int, k as int);
            lemma_grown_item(start, now, i as int, index as int);
            assert(item_ok(ctx, now, from as int, k as int, now[from as int][k as int]));
        }
        let w = sets[from][k];
        proof {
            assert(w == waiters[k as int]);
            assert(m.rules@[w.rule as int]@ == ctx.rules[w.rule as int]);
        }
        let waiting = m.rules[w.rule];
        if w.dot < waiting.expansion.len() {
            proof {
                assert(waiting@.expansion[w.dot as int] == waiting.expansion@[w.dot as int]@);
            }
            if let RSym::NonTerm(y) = &waiting.expansion[w.dot] {
                if same_text(y, rule.origin.as_str()) {
                    let cause = Cause::Complete { set: i, index };
                    proof {
                        let total = sets@[from as int].len();
                        let width = sets.len();
                        lemma_moved_ok(ctx, now, i as int, from as int, k as int, cause);
                        lemma_added_ok(
                            ctx,
                            now,
                            i as int,
                            moved(w, from as int, k as int, cause),
                        );
                        lemma_added_grown(now, i as int, moved(w, from as int, k as int, cause));
                        lemma_grown_trans(
                            start,
                            now,
                            added(now, i as int, moved(w, from as int, k as int, cause)),
                        );
                    }
                    add_item(
                        sets,
                        i,
                        Item {
                            rule: w.rule,
                            dot: w.dot + 1,
                            start: w.start,
                            back: Some(Back { set: from, index: k, cause }),
                        },
                    );
                }
            }
        }
        k = k + 1;
    }
}

/// Works on one item.
fn work(
    m: &Matcher,
    children: &Vec<Child>,
    sets: &mut Vec<Vec<Item>>,
    i: usize,
    index: usize,
    Ghost(ctx): Ghost<MatchContext>,
)
    requires
        m.fits(ctx),
        ctx.children == tree::child_nodes(children@),
        sets_ok(ctx, set_models(old(sets)@)),
        i < old(sets)@.len(),
        index < old(sets)@[i as int]@.len(),
    ensures
        set_models(final(sets)@) == stepped(ctx, set_models(old(sets)@), i as int, index as int),
        sets_ok(ctx, set_models(final(sets)@)),
        grown(set_models(old(sets)@), set_models(final(sets)@)),
{
    let ghost start = set_models(sets@);
    let it = sets[i][index];
    let width: usize = sets.len();
    let total: usize = sets[i].len();
    proof {
        assert(start[i as int][index as int] == it);
        assert(item_ok(ctx, start, i as int, index as int, start[i as int][index as int]));
        assert(m.rules@[it.rule as int]@ == ctx.rules[it.rule as int]);
        lemma_grown_self(start);
    }
    let rule = m.rules[it.rule];
    if it.dot >= rule.expansion.len() {
        wake(m, sets, i, index, Ghost(ctx));
        return;
    }
    proof {
        assert(rule@.expansion[it.dot as int] == rule.expansion@[it.dot as int]@);
    }
    match &rule.expansion[it.dot] {
        RSym::Term(t) => {
            if i < children.len() && child_matches(&children[i], t.as_str()) {
                proof {
                    lemma_moved_ok(ctx, start, i + 1, i as int, index as int, Cause::Scan);
                    lemma_added_ok(ctx, start, i + 1, moved(it, i as int, index as int, Cause::Scan));
                    lemma_added_grown(start, i + 1, moved(it, i as int, index as int, Cause::Scan));
                }
                add_item(
                    sets,
                    i + 1,
                    Item {
                        rule: it.rule,
                        dot: it.dot + 1,
                        start: it.start,
                        back: Some(Back { set: i, index, cause: Cause::Scan }),
                    },
                );
            }
        },
        RSym::NonTerm(x) => {
            predict(m, sets, i, x.as_str(), Ghost(ctx));
            let ghost begun = set_models(sets@);
            proof {
                lemma_grown_item(start, begun, i as int, index as int);
                assert forall|k: int| 0 <= k < begun[i as int].len() implies (
                #[trigger] begun[i as int][k]).rule < ctx.rules.len() by {
                    assert(item_ok(ctx, begun, i as int, k, begun[i as int][k]));
                }
                assert(sets@[i as int]@ == begun[i as int]);
                lemma_empty_match(ctx, begun[i as int], i as int, x@, 0, index as nat);
            }
            match find_empty(m, &sets[i], i, x.as_str(), index, Ghost(ctx)) {
                Some(c) => {
                    let cause = Cause::Complete { set: i, index: c };
                    proof {
                        let after = sets@[i as int].len();
                        lemma_moved_ok(ctx, begun, i as int, i as int, index as int, cause);
                        lemma_added_ok(
                            ctx,
                            begun,
                            i as int,
                            moved(it, i as int, index as int, cause),
                        );
                        lemma_added_grown(
                            begun,
                            i as int,
                            moved(it, i as int, index as int, cause),
                        );
                        lemma_grown_trans(
                            start,
                            begun,
                            added(begun, i as int, moved(it, i as int, index as int, cause)),
                        );
                    }
                    add_item(
                        sets,
                        i,
                        Item {
                            rule: it.rule,
                            dot: it.dot + 1,
                            start: it.start,
                            back: Some(Back { set: i, index, cause }),
                        },
                    );
                },
                None => {},
            }
        },
    }
}

/// The closed sets of a match.
fn close_all(m: &Matcher, children: &Vec<Child>, Ghost(ctx): Ghost<MatchContext>) -> (sets: Vec<
    Vec<Item>,
>)
    requires
        m.fits(ctx),
        ctx.children == tree::child_nodes(children@),
    ensures
        is_chart(ctx, set_models(sets@)),
        sets_ok(ctx, set_models(sets@)),
{
    let n: usize = children.len();
    let mut sets = seed(m, n, Ghost(ctx));
    let width: usize = sets.len();
    let mut i: usize = 0;
    while i < width
        invariant
            i <= width,
            width == n + 1,
            n == children@.len(),
            m.fits(ctx),
            ctx.children == tree::child_nodes(children@),
            sets_ok(ctx, set_models(sets@)),
            closed_to(ctx, i as nat, set_models(sets@)),
        decreases width - i,
    {
        let ghost before = set_models(sets@);
        let mut k: usize = 0;
        while k < sets[i].len()
            invariant
                i < width,
                width == n + 1,
                n == children@.len(),
                m.fits(ctx),
                ctx.children == tree::child_nodes(children@),
                sets_ok(ctx, set_models(sets@)),
                k <= sets@[i as int]@.len(),
                set_models(sets@) == worked(ctx, before, i as int, k as nat),
            decreases usize::MAX - k,
        {
            let ghost now = set_models(sets@);
            let total: usize = sets[i].len();
            work(m, children, &mut sets, i, k, Ghost(ctx));
            proof {
                assert(set_models(sets@)[i as int].len() >= now[i as int].len());
            }
            k = k + 1;
        }
        proof {
            assert(set_models(sets@)[i as int].len() == k);
            let next = (i + 1) as nat;
            assert(is_closed(ctx, before, next - 1, set_models(sets@)));
            assert(closed_to(ctx, (next - 1) as nat, before));
            assert(closed_to(ctx, next, set_models(sets@)));
        }
        i = i + 1;
    }
    sets
}

// ---------------------------------------------------------------------------
// Uniqueness

/// Working on past the end changes nothing.
pub proof fn lemma_worked_past(ctx: MatchContext, sets: Seq<Seq<Item>>, i: int, k: nat, l: nat)
    requires
        k <= l,
        worked(ctx, sets, i, k)[i].len() <= k,
    ensures
        worked(ctx, sets, i, l) == worked(ctx, sets, i, k),
    decreases l - k,
{
    if k < l {
        lemma_worked_past(ctx, sets, i, k, (l - 1) as nat);
    }
}

/// A match has one chart.
pub proof fn lemma_closed_unique(
    ctx: MatchContext,
    i: nat,
    a: Seq<Seq<Item>>,
    b: Seq<Seq<Item>>,
)
    requires
        closed_to(ctx, i, a),
        closed_to(ctx, i, b),
    ensures
        a == b,
    decreases i,
{
    if i > 0 {
        let x = choose|x: Seq<Seq<Item>>|
            closed_to(ctx, (i - 1) as nat, x) && #[trigger] is_closed(ctx, x, i - 1, a);
        let y = choose|y: Seq<Seq<Item>>|
            closed_to(ctx, (i - 1) as nat, y) && #[trigger] is_closed(ctx, y, i - 1, b);
        lemma_closed_unique(ctx, (i - 1) as nat, x, y);
        let p = a[i - 1].len();
        let q = b[i - 1].len();
        if p <= q {
            lemma_worked_past(ctx, x, i - 1, p, q);
        } else {
            lemma_worked_past(ctx, x, i - 1, q, p);
        }
    }
}

// ---------------------------------------------------------------------------
// Reading a derivation back

/// Whether a rule application is in order: its rule exists, it has a matched
/// symbol for each symbol of the rule, and each child exists.
pub open spec fn deriv_ok(ctx: MatchContext, d: DerivModel) -> bool
    decreases d,
{
    &&& d.rule < ctx.rules.len()
    &&& d.elems.len() == ctx.rules[d.rule as int].expansion.len()
    &&& forall|k: int|
        0 <= k < d.elems.len() ==> match #[trigger] d.elems[k] {
            ElemModel::Child(c) => c < ctx.children.len(),
            ElemModel::Sub(e) => decreases_to!(d => e) ==> deriv_ok(ctx, e),
        }
}

/// Whether a matched symbol is in order.
pub open spec fn elem_ok(ctx: MatchContext, e: ElemModel) -> bool {
    match e {
        ElemModel::Child(c) => c < ctx.children.len(),
        ElemModel::Sub(d) => deriv_ok(ctx, d),
    }
}

/// What an item has matched is in order.
pub proof fn lemma_elems_ok(ctx: MatchContext, sets: Seq<Seq<Item>>, set: nat, index: nat)
    requires
        sets_ok(ctx, sets),
        set < sets.len(),
        index < sets[set as int].len(),
    ensures
        elems_of(sets, set, index).len() == sets[set as int][index as int].dot,
        forall|k: int|
            0 <= k < elems_of(sets, set, index).len() ==> elem_ok(
                ctx,
                #[trigger] elems_of(sets, set, index)[k],
            ),
    decreases set, index,
{
    let it = sets[set as int][index as int];
    assert(item_ok(ctx, sets, set as int, index as int, it));
    if let Some(b) = it.back {
        lemma_elems_ok(ctx, sets, b.set as nat, b.index as nat);
        if let Cause::Complete { set: cs, index: ci } = b.cause {
            lemma_elems_ok(ctx, sets, cs as nat, ci as nat);
            assert(item_ok(ctx, sets, cs as int, ci as int, sets[cs as int][ci as int]));
            lemma_deriv_ok(ctx, deriv_of(sets, cs as nat, ci as nat));
        }
    }
}

/// A rule application whose matched symbols are in order is in order.
pub proof fn lemma_deriv_ok(ctx: MatchContext, d: DerivModel)
    requires
        d.rule < ctx.rules.len(),
        d.elems.len() == ctx.rules[d.rule as int].expansion.len(),
        forall|k: int| 0 <= k < d.elems.len() ==> elem_ok(ctx, #[trigger] d.elems[k]),
    ensures
        deriv_ok(ctx, d),
{
    assert forall|k: int| 0 <= k < d.elems.len() implies match #[trigger] d.elems[k] {
        ElemModel::Child(c) => c < ctx.children.len(),
        ElemModel::Sub(e) => decreases_to!(d => e) ==> deriv_ok(ctx, e),
    } by {
        assert(elem_ok(ctx, d.elems[k]));
    }
}

fn read_elems(
    sets: &Vec<Vec<Item>>,
    set: usize,
    index: usize,
    Ghost(ctx): Ghost<MatchContext>,
) -> (r: Vec<Elem>)
    requires
        sets_ok(ctx, set_models(sets@)),
        set < sets@.len(),
        index < sets@[set as int]@.len(),
    ensures
        elem_models(r@) == elems_of(set_models(sets@), set as nat, index as nat),
    decreases set, index, 0nat,
{
    let ghost all = set_models(sets@);
    let it = sets[set][index];
    proof {
        assert(item_ok(ctx, all, set as int, index as int, all[set as int][index as int]));
    }
    match it.back {
        None => {
            let r: Vec<Elem> = Vec::new();
            proof {
                assert(elem_models(r@) =~= Seq::empty());
            }
            r
        },
        Some(b) => {
            let mut r = read_elems(sets, b.set, b.index, Ghost(ctx));
            let ghost before = elem_models(r@);
            let e = match b.cause {
                Cause::Scan => Elem::Child(b.set),
                Cause::Complete { set: cs, index: ci } => {
                    Elem::Sub(extract_derivation(sets, cs, ci, Ghost(ctx)))
                },
            };
            r.push(e);
            proof {
                assert(elem_models(r@) =~= before.push(elem_model(e)));
            }
            r
        },
    }
}

/// Reads back the rule application that a completed item stands for.
fn extract_derivation(
    sets: &Vec<Vec<Item>>,
    set: usize,
    index: usize,
    Ghost(ctx): Ghost<MatchContext>,
) -> (r: Deriv)
    requires
        sets_ok(ctx, set_models(sets@)),
        set < sets@.len(),
        index < sets@[set as int]@.len(),
    ensures
        deriv_model(r) == deriv_of(set_models(sets@), set as nat, index as nat),
    decreases set, index, 1nat,
{
    let elems = read_elems(sets, set, index, Ghost(ctx));
    let d = Deriv { rule: sets[set][index].rule, elems };
    proof {
        assert(deriv_model(d).elems =~= elem_models(elems@));
    }
    d
}

/// The content of a match.
pub open spec fn match_model(r: Option<Deriv>) -> Option<DerivModel> {
    match r {
        Some(d) => Some(deriv_model(d)),
        None => None,
    }
}

/// Matches the children of a node: the first match that is found.
pub(crate) fn earley_match(
    m: &Matcher,
    children: &Vec<Child>,
    Ghost(ctx): Ghost<MatchContext>,
) -> (r: Option<Deriv>)
    requires
        m.fits(ctx),
        ctx.children == tree::child_nodes(children@),
    ensures
        match_model(r) == match_of(ctx),
        match r {
            Some(d) => deriv_ok(ctx, deriv_model(d)) && recons_laws::is_derivation(
                ctx,
                deriv_model(d),
            ),
            None => forall|d: DerivModel| !#[trigger] recons_laws::is_derivation(ctx, d),
        },
{
    let sets = close_all(m, children, Ghost(ctx));
    let n: usize = children.len();
    let width: usize = sets.len();
    let rules: usize = m.rules.len();
    let ghost all = set_models(sets@);
    proof {
        assert forall|r: int| 0 <= r < ctx.rules.len() implies (
        #[trigger] ctx.rules[r]).expansion.len() <= usize::MAX by {
            assert(m.rules@[r]@ == ctx.rules[r]);
            assert(m.rules@[r].expansion.len() == ctx.rules[r].expansion.len());
        }
        assert forall|s: int| 0 <= s < all.len() implies (#[trigger] all[s]).len()
            <= usize::MAX by {
            assert(sets@[s].len() == all[s].len());
        }
        recons_laws::match_is_exact(ctx, all);
        let other = choose|s: Seq<Seq<Item>>| is_chart(ctx, s);
        lemma_closed_unique(ctx, (ctx.children.len() + 1) as nat, all, other);
    }
    let mut k: usize = 0;
    while k < sets[n].len()
        invariant
            k <= sets@[n as int]@.len(),
            n < sets@.len(),
            n == ctx.children.len(),
            m.fits(ctx),
            all == set_models(sets@),
            sets_ok(ctx, all),
            match_of(ctx) == match_in(ctx, all),
            match match_of(ctx) {
                Some(d) => recons_laws::is_derivation(ctx, d),
                None => forall|d: DerivModel| !#[trigger] recons_laws::is_derivation(ctx, d),
            },
            accepted(ctx, all[n as int], 0) == accepted(ctx, all[n as int], k as nat),
        decreases sets@[n as int]@.len() - k,
    {
        let it = sets[n][k];
        proof {
            assert(all[n as int][k as int] == it);
            assert(item_ok(ctx, all, n as int, k as int, all[n as int][k as int]));
            assert(m.rules@[it.rule as int]@ == ctx.rules[it.rule as int]);
        }
        if it.start == 0 && it.dot >= m.rules[it.rule].expansion.len() && m.roots[it.rule] {
            proof {
                lemma_elems_ok(ctx, all, n as nat, k as nat);
                lemma_deriv_ok(ctx, deriv_of(all, n as nat, k as nat));
            }
            return Some(extract_derivation(&sets, n, k, Ghost(ctx)));
        }
        k = k + 1;
    }
    None
}

} // verus!
