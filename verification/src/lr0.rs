//! The LR(0) automaton: sets of dotted rules, closed under prediction, linked
//! by moves over a symbol.

use vstd::prelude::*;
use vstd::set_lib::*;
use crate::bits;
use crate::bits::blank_row;
use crate::symbols;
use crate::symbols::{CompiledRule, SymbolId};

verus! {

/// A dotted rule: `dot` symbols of the expansion have been seen.
#[derive(Clone, Copy, PartialEq, Eq, Debug, Structural)]
pub struct LR0Item {
    pub rule_idx: usize,
    pub dot: usize,
}

/// Whether the item's rule exists and its dot is in range.
pub open spec fn item_ok(rules: Seq<symbols::RuleModel>, it: LR0Item) -> bool {
    it.rule_idx < rules.len() && it.dot <= rules[it.rule_idx as int].expansion.len()
}

/// The symbol after the dot.
pub open spec fn expected(rules: Seq<symbols::RuleModel>, it: LR0Item) -> Option<SymbolId> {
    if it.rule_idx < rules.len() && it.dot < rules[it.rule_idx as int].expansion.len() {
        Some(rules[it.rule_idx as int].expansion[it.dot as int])
    } else {
        None
    }
}

/// Whether the dot stands at the end.
pub open spec fn complete(rules: Seq<symbols::RuleModel>, it: LR0Item) -> bool {
    it.rule_idx < rules.len() && it.dot >= rules[it.rule_idx as int].expansion.len()
}

/// The item with the dot one symbol further.
pub open spec fn advanced(it: LR0Item) -> LR0Item {
    LR0Item { rule_idx: it.rule_idx, dot: (it.dot + 1) as usize }
}

/// The order of items: by rule, then by dot.
pub open spec fn item_lt(a: LR0Item, b: LR0Item) -> bool {
    a.rule_idx < b.rule_idx || (a.rule_idx == b.rule_idx && a.dot < b.dot)
}

/// Whether items stand in strictly ascending order.
pub open spec fn ascending(s: Seq<LR0Item>) -> bool {
    forall|i: int, j: int| 0 <= i < j < s.len() ==> item_lt(#[trigger] s[i], #[trigger] s[j])
}

/// Whether `it` joins a set of items within `n` predictions: it is in the set,
/// or it starts a rule of a symbol that an item there expects.
pub open spec fn predicted(
    rules: Seq<symbols::RuleModel>,
    kernel: Set<LR0Item>,
    it: LR0Item,
    n: nat,
) -> bool
    decreases n,
{
    kernel.contains(it) || (n > 0 && it.dot == 0 && it.rule_idx < rules.len() && exists|by: LR0Item|
        #[trigger] expected(rules, by) == Some(rules[it.rule_idx as int].origin) && predicted(
            rules,
            kernel,
            by,
            (n - 1) as nat,
        ))
}

/// The items of `kernel` and all that they predict.
pub open spec fn closure_of(rules: Seq<symbols::RuleModel>, kernel: Set<LR0Item>) -> Set<LR0Item> {
    Set::new(|it: LR0Item| exists|n: nat| #[trigger] predicted(rules, kernel, it, n))
}

/// The items reached from a state over `sym`, before prediction.
pub open spec fn moved(
    rules: Seq<symbols::RuleModel>,
    state: Set<LR0Item>,
    sym: SymbolId,
) -> Set<LR0Item> {
    Set::new(
        |it: LR0Item|
            it.dot > 0 && state.contains(LR0Item { rule_idx: it.rule_idx, dot: (it.dot - 1) as usize })
                && expected(
                rules,
                LR0Item { rule_idx: it.rule_idx, dot: (it.dot - 1) as usize },
            ) == Some(sym),
    )
}

/// The state reached over `sym`.
pub open spec fn goto_set(
    rules: Seq<symbols::RuleModel>,
    state: Set<LR0Item>,
    sym: SymbolId,
) -> Set<LR0Item> {
    closure_of(rules, moved(rules, state, sym))
}

/// A set that holds the kernel and all it predicts, and nothing else, is the
/// closure.
proof fn lemma_closure_least(
    rules: Seq<symbols::RuleModel>,
    kernel: Set<LR0Item>,
    s: Set<LR0Item>,
    it: LR0Item,
    n: nat,
)
    requires
        kernel.subset_of(s),
        forall|a: LR0Item, r: int|
            s.contains(a) && 0 <= r < rules.len() && #[trigger] expected(rules, a) == Some(
                (#[trigger] rules[r]).origin,
            ) && r <= usize::MAX ==> s.contains(LR0Item { rule_idx: r as usize, dot: 0 }),
        predicted(rules, kernel, it, n),
    ensures
        s.contains(it),
    decreases n,
{
    if !kernel.contains(it) {
        let by = choose|by: LR0Item|
            #[trigger] expected(rules, by) == Some(rules[it.rule_idx as int].origin) && predicted(
                rules,
                kernel,
                by,
                (n - 1) as nat,
            );
        lemma_closure_least(rules, kernel, s, by, (n - 1) as nat);
        assert(expected(rules, by) == Some(rules[it.rule_idx as int].origin));
        assert(it == LR0Item { rule_idx: it.rule_idx, dot: 0 });
    }
}

proof fn lemma_predicted_mono(
    rules: Seq<symbols::RuleModel>,
    kernel: Set<LR0Item>,
    it: LR0Item,
    n: nat,
    m: nat,
)
    requires
        predicted(rules, kernel, it, n),
        n <= m,
    ensures
        predicted(rules, kernel, it, m),
    decreases n,
{
    if !kernel.contains(it) {
        let by = choose|by: LR0Item|
            #[trigger] expected(rules, by) == Some(rules[it.rule_idx as int].origin) && predicted(
                rules,
                kernel,
                by,
                (n - 1) as nat,
            );
        lemma_predicted_mono(rules, kernel, by, (n - 1) as nat, (m - 1) as nat);
        assert(expected(rules, by) == Some(rules[it.rule_idx as int].origin));
    }
}

/// A closure holds what its items predict.
pub proof fn lemma_closure_closed(
    rules: Seq<symbols::RuleModel>,
    kernel: Set<LR0Item>,
    by: LR0Item,
    r: usize,
)
    requires
        closure_of(rules, kernel).contains(by),
        r < rules.len(),
        expected(rules, by) == Some(rules[r as int].origin),
    ensures
        closure_of(rules, kernel).contains(LR0Item { rule_idx: r, dot: 0 }),
{
    let n = choose|n: nat| #[trigger] predicted(rules, kernel, by, n);
    assert(predicted(rules, kernel, LR0Item { rule_idx: r, dot: 0 }, n + 1));
}

/// An item of a closure whose dot has moved stems from the kernel.
pub proof fn lemma_closure_kernel(
    rules: Seq<symbols::RuleModel>,
    kernel: Set<LR0Item>,
    it: LR0Item,
)
    requires
        closure_of(rules, kernel).contains(it),
        it.dot > 0,
    ensures
        kernel.contains(it),
{
    let n = choose|n: nat| #[trigger] predicted(rules, kernel, it, n);
}

/// Two ascending lists of the same items are equal.
pub proof fn lemma_ascending_unique(a: Seq<LR0Item>, b: Seq<LR0Item>)
    requires
        ascending(a),
        ascending(b),
        a.to_set() == b.to_set(),
    ensures
        a == b,
    decreases a.len(),
{
    if a.len() == 0 {
        if b.len() > 0 {
            assert(b.to_set().contains(b[0]));
            assert(a.to_set().contains(b[0]));
        }
        assert(a =~= b);
    } else {
        assert(a.to_set().contains(a.last()));
        assert(b.to_set().contains(a.last()));
        assert(b.len() > 0);
        assert(b.to_set().contains(b.last()));
        assert(a.to_set().contains(b.last()));
        let i = choose|i: int| 0 <= i < a.len() && a[i] == b.last();
        let j = choose|j: int| 0 <= j < b.len() && b[j] == a.last();
        assert(a.last() == b.last()) by {
            if i < a.len() - 1 {
                assert(item_lt(a[i], a[a.len() - 1]));
                if j < b.len() - 1 {
                    assert(item_lt(b[j], b[b.len() - 1]));
                }
            }
        }
        let x = a.last();
        assert forall|y: LR0Item| a.drop_last().to_set().contains(y) == b.drop_last().to_set().contains(
            y,
        ) by {
            if a.drop_last().contains(y) {
                let k = choose|k: int| 0 <= k < a.drop_last().len() && a.drop_last()[k] == y;
                assert(item_lt(a[k], a[a.len() - 1]));
                assert(a.to_set().contains(a[k]));
                assert(b.to_set().contains(y));
                let m = choose|m: int| 0 <= m < b.len() && b[m] == y;
                assert(m < b.len() - 1);
                assert(b.drop_last()[m] == y);
            }
            if b.drop_last().contains(y) {
                let k = choose|k: int| 0 <= k < b.drop_last().len() && b.drop_last()[k] == y;
                assert(item_lt(b[k], b[b.len() - 1]));
                assert(b.to_set().contains(b[k]));
                assert(a.to_set().contains(y));
                let m = choose|m: int| 0 <= m < a.len() && a[m] == y;
                assert(m < a.len() - 1);
                assert(a.drop_last()[m] == y);
            }
        }
        assert(a.drop_last().to_set() =~= b.drop_last().to_set());
        lemma_ascending_unique(a.drop_last(), b.drop_last());
        assert(a =~= a.drop_last().push(x));
        assert(b =~= b.drop_last().push(x));
    }
}

impl LR0Item {
    /// The symbol after the dot.
    pub fn expected(&self, rules: &Vec<CompiledRule>) -> (r: Option<SymbolId>)
        requires
            self.rule_idx < rules@.len(),
        ensures
            r == expected(symbols::rule_models(rules@), *self),
    {
        if self.dot < rules[self.rule_idx].expansion.len() {
            Some(rules[self.rule_idx].expansion[self.dot])
        } else {
            None
        }
    }

    /// Whether the dot stands at the end.
    pub fn is_complete(&self, rules: &Vec<CompiledRule>) -> (r: bool)
        requires
            self.rule_idx < rules@.len(),
        ensures
            r == complete(symbols::rule_models(rules@), *self),
    {
        self.dot >= rules[self.rule_idx].expansion.len()
    }
}

fn less(a: LR0Item, b: LR0Item) -> (r: bool)
    ensures
        r == item_lt(a, b),
{
    a.rule_idx < b.rule_idx || (a.rule_idx == b.rule_idx && a.dot < b.dot)
}

/// Inserts an item into an ascending list, unless it is there.
fn insert_item(v: &mut Vec<LR0Item>, x: LR0Item)
    requires
        ascending(old(v)@),
    ensures
        ascending(final(v)@),
        final(v)@.to_set() == old(v)@.to_set().insert(x),
{
    let mut i: usize = v.len();
    while i > 0 && less(x, v[i - 1])
        invariant
            i <= v.len(),
            v@ == old(v)@,
            ascending(v@),
            forall|k: int| i <= k < v@.len() ==> item_lt(x, #[trigger] v@[k]),
        decreases i,
    {
        i = i - 1;
    }
    if i > 0 && v[i - 1] == x {
        proof {
            assert(v@.to_set().contains(v@[i - 1]));
            assert(v@.to_set() =~= old(v)@.to_set().insert(x));
        }
        return;
    }
    let ghost before = v@;
    v.insert(i, x);
    proof {
        if i > 0 {
            assert(item_lt(before[i - 1], x));
        }
        assert forall|p: int, q: int| 0 <= p < q < v@.len() implies item_lt(
            #[trigger] v@[p],
            #[trigger] v@[q],
        ) by {
            let bp = if p < i {
                p
            } else {
                p - 1
            };
            let bq = if q < i {
                q
            } else {
                q - 1
            };
            if p == i {
                assert(item_lt(x, before[bq]));
            } else if q == i {
                if p < i - 1 {
                    assert(item_lt(before[p], before[i - 1]));
                }
            } else {
                assert(item_lt(before[bp], before[bq]));
            }
        }
        assert forall|y: LR0Item| v@.to_set().contains(y) == before.to_set().insert(x).contains(
            y,
        ) by {
            if v@.contains(y) {
                let k = choose|k: int| 0 <= k < v@.len() && v@[k] == y;
                if k < i {
                    assert(before[k] == y);
                } else if k > i {
                    assert(before[k - 1] == y);
                }
            }
            if before.contains(y) {
                let k = choose|k: int| 0 <= k < before.len() && before[k] == y;
                if k < i {
                    assert(v@[k] == y);
                } else {
                    assert(v@[k + 1] == y);
                }
            }
            assert(v@[i as int] == x);
        }
        assert(v@.to_set() =~= before.to_set().insert(x));
    }
}

/// The items in ascending order, each once.
fn sorted_items(items: &Vec<LR0Item>) -> (r: Vec<LR0Item>)
    ensures
        ascending(r@),
        r@.to_set() == items@.to_set(),
{
    let mut r: Vec<LR0Item> = Vec::new();
    let mut i: usize = 0;
    proof {
        assert(items@.take(0).to_set() =~= Set::empty());
        assert(r@.to_set() =~= Set::empty());
    }
    while i < items.len()
        invariant
            i <= items.len(),
            ascending(r@),
            r@.to_set() == items@.take(i as int).to_set(),
        decreases items.len() - i,
    {
        insert_item(&mut r, items[i]);
        proof {
            let a = items@.take(i as int);
            let b = items@.take(i + 1);
            assert forall|y: LR0Item| b.to_set().contains(y) == a.to_set().insert(
                items@[i as int],
            ).contains(y) by {
                if b.contains(y) {
                    let k = choose|k: int| 0 <= k < b.len() && b[k] == y;
                    if k < i {
                        assert(a[k] == y);
                    }
                }
                if a.contains(y) {
                    let k = choose|k: int| 0 <= k < a.len() && a[k] == y;
                    assert(b[k] == y);
                }
                assert(b[i as int] == items@[i as int]);
            }
            assert(b.to_set() =~= a.to_set().insert(items@[i as int]));
        }
        i = i + 1;
    }
    proof {
        assert(items@.take(items@.len() as int) =~= items@);
    }
    r
}

/// The items of `kernel` and all that they predict, in ascending order.
pub fn closure(rules: &Vec<CompiledRule>, kernel: &Vec<LR0Item>) -> (r: Vec<LR0Item>)
    requires
        forall|i: int|
            0 <= i < kernel@.len() ==> item_ok(
                symbols::rule_models(rules@),
                #[trigger] kernel@[i],
            ),
    ensures
        ascending(r@),
        r@.to_set() == closure_of(symbols::rule_models(rules@), kernel@.to_set()),
        forall|i: int|
            0 <= i < r@.len() ==> item_ok(symbols::rule_models(rules@), #[trigger] r@[i]),
{
    let ghost models = symbols::rule_models(rules@);
    let ghost k = kernel@.to_set();
    let mut items: Vec<LR0Item> = Vec::new();
    let mut added = blank_row(rules.len());
    let mut c: usize = 0;
    while c < kernel.len()
        invariant
            c <= kernel.len(),
            models == symbols::rule_models(rules@),
            items@ == kernel@.take(c as int),
            added@.len() == rules@.len(),
            forall|i: int| 0 <= i < kernel@.len() ==> item_ok(models, #[trigger] kernel@[i]),
            forall|q: int|
                0 <= q < added@.len() && #[trigger] added@[q] ==> items@.contains(
                    LR0Item { rule_idx: q as usize, dot: 0 },
                ),
        decreases kernel.len() - c,
    {
        let it = kernel[c];
        let ghost before = items@;
        items.push(it);
        if it.dot == 0 {
            added.set(it.rule_idx, true);
        }
        proof {
            assert(items@ =~= kernel@.take(c + 1));
            assert forall|q: int| 0 <= q < added@.len() && #[trigger] added@[q] implies items@.contains(
                LR0Item { rule_idx: q as usize, dot: 0 },
            ) by {
                let z = LR0Item { rule_idx: q as usize, dot: 0 };
                if before.contains(z) {
                    let p = choose|p: int| 0 <= p < before.len() && before[p] == z;
                    assert(items@[p] == z);
                } else {
                    assert(items@[c as int] == z);
                }
            }
        }
        c = c + 1;
    }
    proof {
        assert(items@ =~= kernel@);
        assert forall|p: int| 0 <= p < items@.len() implies closure_of(models, k).contains(
            #[trigger] items@[p],
        ) by {
            assert(k.contains(items@[p]));
            assert(predicted(models, k, items@[p], 0));
        }
    }
    let mut i: usize = 0;
    while i < items.len()
        invariant
            i <= items.len(),
            models == symbols::rule_models(rules@),
            k == kernel@.to_set(),
            added@.len() == rules@.len(),
            kernel@.len() <= items@.len(),
            items@.take(kernel@.len() as int) == kernel@,
            forall|p: int| 0 <= p < items@.len() ==> item_ok(models, #[trigger] items@[p]),
            forall|p: int|
                0 <= p < items@.len() ==> closure_of(models, k).contains(#[trigger] items@[p]),
            forall|q: int|
                0 <= q < added@.len() && #[trigger] added@[q] ==> items@.contains(
                    LR0Item { rule_idx: q as usize, dot: 0 },
                ),
            forall|p: int, q: int|
                0 <= p < i && 0 <= q < added@.len() && #[trigger] expected(models, items@[p])
                    == Some((#[trigger] models[q]).origin) ==> added@[q],
        decreases bits::missing(added@) + items@.len() - i,
    {
        let it = items[i];
        let want = it.expected(rules);
        if let Some(sym) = want {
            let mut q: usize = 0;
            let ghost start_missing = bits::missing(added@) + items@.len();
            while q < rules.len()
                invariant
                    q <= rules.len(),
                    i < items.len(),
                    models == symbols::rule_models(rules@),
                    k == kernel@.to_set(),
                    it == items@[i as int],
                    expected(models, it) == Some(sym),
                    added@.len() == rules@.len(),
                    kernel@.len() <= items@.len(),
                    items@.take(kernel@.len() as int) == kernel@,
                    forall|p: int| 0 <= p < items@.len() ==> item_ok(models, #[trigger] items@[p]),
                    forall|p: int|
                        0 <= p < items@.len() ==> closure_of(models, k).contains(#[trigger] items@[p]),
                    forall|z: int|
                        0 <= z < added@.len() && #[trigger] added@[z] ==> items@.contains(
                            LR0Item { rule_idx: z as usize, dot: 0 },
                        ),
                    forall|p: int, z: int|
                        0 <= p < i && 0 <= z < added@.len() && #[trigger] expected(
                            models,
                            items@[p],
                        ) == Some((#[trigger] models[z]).origin) ==> added@[z],
                    forall|z: int|
                        0 <= z < q && Some((#[trigger] models[z]).origin) == Some(sym) ==> added@[z],
                    bits::missing(added@) + items@.len() <= start_missing,
                decreases rules.len() - q,
            {
                proof {
                    assert(models[q as int] == rules@[q as int]@);
                }
                if rules[q].origin == sym && !added[q] {
                    let new = LR0Item { rule_idx: q, dot: 0 };
                    let ghost before = items@;
                    let ghost before_added = added@;
                    items.push(new);
                    added.set(q, true);
                    proof {
                        assert(items@.take(kernel@.len() as int) =~= before.take(
                            kernel@.len() as int,
                        ));
                        assert(closure_of(models, k).contains(before[i as int]));
                        let n = choose|n: nat| #[trigger] predicted(models, k, before[i as int], n);
                        assert(expected(models, it) == Some(models[q as int].origin));
                        assert(predicted(models, k, new, n + 1));
                        assert forall|p: int| 0 <= p < items@.len() implies closure_of(models, k).contains(#[trigger] items@[p]) by {
                            if p < before.len() {
                                assert(items@[p] == before[p]);
                            }
                        }
                        assert forall|z: int| 0 <= z < added@.len() && #[trigger] added@[z] implies items@.contains(
                            LR0Item { rule_idx: z as usize, dot: 0 },
                        ) by {
                            let w = LR0Item { rule_idx: z as usize, dot: 0 };
                            if z == q {
                                assert(items@[before.len() as int] == w);
                            } else {
                                assert(before_added[z]);
                                let p = choose|p: int| 0 <= p < before.len() && before[p] == w;
                                assert(items@[p] == w);
                            }
                        }
                        assert forall|p: int, z: int|
                            0 <= p < i && 0 <= z < added@.len() && #[trigger] expected(
                                models,
                                items@[p],
                            ) == Some((#[trigger] models[z]).origin) implies added@[z] by {
                            assert(items@[p] == before[p]);
                            assert(expected(models, before[p]) == Some(models[z].origin));
                            assert(before_added[z]);
                        }
                        bits::lemma_missing_le(before_added, added@);
                        assert(before_added[q as int] != added@[q as int]);
                    }
                }
                q = q + 1;
            }
            proof {
                assert forall|p: int, z: int|
                    0 <= p < i + 1 && 0 <= z < added@.len() && #[trigger] expected(
                        models,
                        items@[p],
                    ) == Some((#[trigger] models[z]).origin) implies added@[z] by {
                    if p == i {
                        assert(Some(models[z].origin) == Some(sym));
                    }
                }
            }
        }
        i = i + 1;
    }
    proof {
        let s = items@.to_set();
        assert forall|it: LR0Item| s.contains(it) == closure_of(models, k).contains(it) by {
            if s.contains(it) {
                let p = choose|p: int| 0 <= p < items@.len() && items@[p] == it;
                assert(closure_of(models, k).contains(items@[p]));
            }
            if closure_of(models, k).contains(it) {
                let n = choose|n: nat| #[trigger] predicted(models, k, it, n);
                assert forall|x: LR0Item| k.contains(x) implies s.contains(x) by {
                    let p = choose|p: int| 0 <= p < kernel@.len() && kernel@[p] == x;
                    assert(items@.take(kernel@.len() as int)[p] == items@[p]);
                }
                assert forall|a: LR0Item, r: int|
                    s.contains(a) && 0 <= r < models.len() && #[trigger] expected(models, a) == Some(
                        (#[trigger] models[r]).origin,
                    ) && r <= usize::MAX implies s.contains(
                    LR0Item { rule_idx: r as usize, dot: 0 },
                ) by {
                    let p = choose|p: int| 0 <= p < items@.len() && items@[p] == a;
                    assert(expected(models, items@[p]) == Some(models[r].origin));
                    assert(added@[r]);
                }
                lemma_closure_least(models, k, s, it, n);
            }
        }
        assert(s =~= closure_of(models, k));
    }
    let r = sorted_items(&items);
    proof {
        assert forall|p: int| 0 <= p < r@.len() implies item_ok(models, #[trigger] r@[p]) by {
            assert(r@.to_set().contains(r@[p]));
            assert(items@.to_set().contains(r@[p]));
        }
    }
    r
}

// ---------------------------------------------------------------------------
// How many states there can be

/// Two to the power `n`.
spec fn two_to(n: nat) -> nat
    decreases n,
{
    if n == 0 {
        1
    } else {
        2 * two_to((n - 1) as nat)
    }
}

/// A family of subsets of a finite set `u` has at most two to the power of
/// `u`'s size members.
proof fn lemma_family_size<A>(f: Set<Set<A>>, u: Set<A>)
    requires
        u.finite(),
        forall|s: Set<A>| f.contains(s) ==> #[trigger] s.subset_of(u),
    ensures
        f.finite(),
        f.len() <= two_to(u.len()),
    decreases u.len(),
{
    if u.len() == 0 {
        u.lemma_len0_is_empty();
        let one = Set::<Set<A>>::empty().insert(Set::empty());
        assert forall|s: Set<A>| f.contains(s) implies one.contains(s) by {
            assert(s.subset_of(u));
            assert(s =~= Set::empty());
        }
        assert(f.subset_of(one));
        lemma_set_subset_finite(one, f);
        lemma_len_subset(f, one);
    } else {
        let x = u.choose();
        assert(u.contains(x)) by {
            if u =~= Set::empty() {
                assert(u.len() == 0);
            }
        }
        let v = u.remove(x);
        let f1 = f.filter(|s: Set<A>| s.contains(x));
        let f2 = f.filter(|s: Set<A>| !s.contains(x));
        let cut = |s: Set<A>| s.remove(x);
        let grow = |s: Set<A>| s.insert(x);
        let g1 = f1.map(cut);
        assert forall|s: Set<A>| g1.contains(s) implies #[trigger] s.subset_of(v) by {
            let t = choose|t: Set<A>| f1.contains(t) && cut(t) == s;
            assert(t.subset_of(u));
        }
        lemma_family_size(g1, v);
        assert forall|s: Set<A>| f2.contains(s) implies #[trigger] s.subset_of(v) by {
            assert(s.subset_of(u));
        }
        lemma_family_size(f2, v);
        assert(f1 =~= g1.map(grow)) by {
            assert forall|s: Set<A>| f1.contains(s) == g1.map(grow).contains(s) by {
                if f1.contains(s) {
                    assert(g1.contains(cut(s)));
                    assert(grow(cut(s)) =~= s);
                    assert(g1.map(grow).contains(grow(cut(s))));
                }
                if g1.map(grow).contains(s) {
                    let g = choose|g: Set<A>| g1.contains(g) && grow(g) == s;
                    let t = choose|t: Set<A>| f1.contains(t) && cut(t) == g;
                    assert(grow(cut(t)) =~= t);
                }
            }
        }
        g1.lemma_map_finite(grow);
        lemma_map_size_bound(g1, f1, grow);
        assert(f =~= f1 + f2);
        lemma_len_union(f1, f2);
    }
}

/// All items of the first `n` rules.
spec fn items_upto(rules: Seq<symbols::RuleModel>, n: nat) -> Seq<LR0Item>
    decreases n,
{
    if n == 0 {
        Seq::empty()
    } else {
        items_upto(rules, (n - 1) as nat) + Seq::new(
            rules[n - 1].expansion.len() + 1,
            |d: int| LR0Item { rule_idx: (n - 1) as usize, dot: d as usize },
        )
    }
}

proof fn lemma_items_upto(rules: Seq<symbols::RuleModel>, n: nat, it: LR0Item)
    requires
        n <= rules.len(),
        it.rule_idx < n,
        it.dot <= rules[it.rule_idx as int].expansion.len(),
    ensures
        items_upto(rules, n).contains(it),
    decreases n,
{
    let head = items_upto(rules, (n - 1) as nat);
    let tail = Seq::new(
        rules[n - 1].expansion.len() + 1,
        |d: int| LR0Item { rule_idx: (n - 1) as usize, dot: d as usize },
    );
    if it.rule_idx < n - 1 {
        lemma_items_upto(rules, (n - 1) as nat, it);
        let p = choose|p: int| 0 <= p < head.len() && head[p] == it;
        assert((head + tail)[p] == it);
    } else {
        assert(tail[it.dot as int] == it);
        assert((head + tail)[head.len() + it.dot] == it);
    }
}

/// How many states an automaton over `rules` can have.
spec fn state_bound(rules: Seq<symbols::RuleModel>) -> nat {
    two_to(items_upto(rules, rules.len()).to_set().len())
}

proof fn lemma_state_bound(rules: Seq<symbols::RuleModel>, states: Seq<Vec<LR0Item>>)
    requires
        forall|i: int| 0 <= i < states.len() ==> ascending(#[trigger] states[i]@),
        forall|i: int, j: int|
            0 <= i < states.len() && 0 <= j < states[i]@.len() ==> item_ok(
                rules,
                #[trigger] states[i]@[j],
            ),
        forall|i: int, j: int|
            0 <= i < j < states.len() ==> #[trigger] states[i]@ != #[trigger] states[j]@,
    ensures
        states.len() <= state_bound(rules),
{
    let u = items_upto(rules, rules.len()).to_set();
    let sets = Seq::new(states.len(), |i: int| states[i]@.to_set());
    assert(sets.no_duplicates()) by {
        assert forall|i: int, j: int| 0 <= i < sets.len() && 0 <= j < sets.len() && i != j implies sets[i]
            != sets[j] by {
            assert(ascending(states[i]@));
            assert(ascending(states[j]@));
            if sets[i] == sets[j] {
                lemma_ascending_unique(states[i]@, states[j]@);
                if i < j {
                    assert(states[i]@ != states[j]@);
                } else {
                    assert(states[j]@ != states[i]@);
                }
            }
        }
    }
    sets.unique_seq_to_set();
    assert forall|s: Set<LR0Item>| sets.to_set().contains(s) implies #[trigger] s.subset_of(u) by {
        let i = choose|i: int| 0 <= i < sets.len() && sets[i] == s;
        assert forall|it: LR0Item| s.contains(it) implies u.contains(it) by {
            assert(states[i]@.to_set().contains(it));
            let j = choose|j: int| 0 <= j < states[i]@.len() && states[i]@[j] == it;
            assert(item_ok(rules, states[i]@[j]));
            lemma_items_upto(rules, rules.len(), it);
        }
    }
    lemma_family_size(sets.to_set(), u);
}

// ---------------------------------------------------------------------------
// The automaton

/// The target of `sym` in a row of moves.
pub open spec fn row_target(row: Seq<(SymbolId, usize)>, sym: SymbolId) -> Option<usize>
    decreases row.len(),
{
    if row.len() == 0 {
        None
    } else if row.last().0 == sym {
        Some(row.last().1)
    } else {
        row_target(row.drop_last(), sym)
    }
}

/// The states and moves of an LR(0) automaton.
pub struct Automaton {
    /// The items of each state, in ascending order.
    pub states: Vec<Vec<LR0Item>>,
    /// For each state its moves, in ascending order of symbols.
    pub transitions: Vec<Vec<(SymbolId, usize)>>,
    /// For each start rule the state that it begins in.
    pub start_states: Vec<usize>,
}

impl Automaton {
    /// The items of state `s`.
    pub open spec fn items(&self, s: int) -> Set<LR0Item> {
        self.states@[s]@.to_set()
    }

    /// The state that `sym` leads to from state `s`.
    pub open spec fn target(&self, s: int, sym: SymbolId) -> Option<usize> {
        row_target(self.transitions@[s]@, sym)
    }

    /// Whether every state is a list of existing items, no two alike.
    pub open spec fn states_ok(&self, rules: Seq<symbols::RuleModel>) -> bool {
        &&& self.transitions@.len() == self.states@.len()
        &&& forall|s: int| 0 <= s < self.states@.len() ==> ascending(#[trigger] self.states@[s]@)
        &&& forall|s: int, j: int|
            0 <= s < self.states@.len() && 0 <= j < self.states@[s]@.len() ==> item_ok(
                rules,
                #[trigger] self.states@[s]@[j],
            )
        &&& forall|s: int, t: int|
            0 <= s < t < self.states@.len() ==> #[trigger] self.states@[s]@
                != #[trigger] self.states@[t]@
    }

    /// Whether the moves of the first `upto` states are those of the
    /// construction: `sym` leads from a state to the closure of the items that
    /// it moves, where there are any.
    pub open spec fn moves_ok(&self, rules: Seq<symbols::RuleModel>, upto: int) -> bool {
        forall|s: int, sym: SymbolId|
            0 <= s < upto ==> match #[trigger] self.target(s, sym) {
                Some(t) => t < self.states@.len() && self.items(t as int) == goto_set(
                    rules,
                    self.items(s),
                    sym,
                ) && moved(rules, self.items(s), sym) != Set::<LR0Item>::empty(),
                None => moved(rules, self.items(s), sym) == Set::<LR0Item>::empty(),
            }
    }

    /// Whether every state begins a start rule or is reached from an earlier
    /// state.
    pub open spec fn reached(&self) -> bool {
        forall|t: int|
            0 <= t < self.states@.len() ==> #[trigger] self.reached_state(t)
    }

    /// Whether a state begins a start rule or is reached from an earlier state.
    pub open spec fn reached_state(&self, t: int) -> bool {
        ||| exists|i: int| 0 <= i < self.start_states@.len() && #[trigger] self.start_states@[i] == t
        ||| exists|s: int, sym: SymbolId|
            0 <= s < t && s < self.transitions@.len() && #[trigger] self.target(s, sym) == Some(
                t as usize,
            )
    }

    /// Whether each start rule begins in the closure of its first item.
    pub open spec fn starts_ok(
        &self,
        rules: Seq<symbols::RuleModel>,
        starts: Seq<(SymbolId, usize)>,
    ) -> bool {
        &&& self.start_states@.len() == starts.len()
        &&& forall|i: int|
            0 <= i < starts.len() ==> (#[trigger] self.start_states@[i]) < self.states@.len()
                && self.items(self.start_states@[i] as int) == closure_of(
                rules,
                set![LR0Item { rule_idx: starts[i].1, dot: 0 }],
            )
    }

    /// Whether this is the automaton of `rules` for the given start rules.
    pub open spec fn wf(
        &self,
        rules: Seq<symbols::RuleModel>,
        starts: Seq<(SymbolId, usize)>,
    ) -> bool {
        &&& self.states_ok(rules)
        &&& self.moves_ok(rules, self.states@.len() as int)
        &&& self.starts_ok(rules, starts)
        &&& self.reached()
        &&& forall|s: int, i: int, j: int|
            0 <= s < self.transitions@.len() && 0 <= i < j < self.transitions@[s]@.len() ==> (
            #[trigger] self.transitions@[s]@[i]).0.ix() < (
            #[trigger] self.transitions@[s]@[j]).0.ix()
    }

    /// The state that `sym` leads to from state `s`.
    pub fn goto_state(&self, s: usize, sym: SymbolId) -> (r: Option<usize>)
        requires
            s < self.transitions@.len(),
        ensures
            r == self.target(s as int, sym),
    {
        let row = &self.transitions[s];
        let mut i: usize = row.len();
        proof {
            assert(row@.take(row@.len() as int) =~= row@);
        }
        while i > 0
            invariant
                i <= row.len(),
                row@ == self.transitions@[s as int]@,
                row_target(row@, sym) == row_target(row@.take(i as int), sym),
            decreases i,
        {
            proof {
                assert(row@.take(i as int).drop_last() =~= row@.take(i - 1));
                assert(row@.take(i as int).last() == row@[i - 1]);
            }
            if row[i - 1].0 == sym {
                return Some(row[i - 1].1);
            }
            i = i - 1;
        }
        None
    }
}

fn same_items(a: &Vec<LR0Item>, b: &Vec<LR0Item>) -> (r: bool)
    ensures
        r == (a@ == b@),
{
    if a.len() != b.len() {
        return false;
    }
    let mut i: usize = 0;
    while i < a.len()
        invariant
            i <= a.len(),
            a@.len() == b@.len(),
            forall|k: int| 0 <= k < i ==> #[trigger] a@[k] == b@[k],
        decreases a.len() - i,
    {
        if a[i] != b[i] {
            return false;
        }
        i = i + 1;
    }
    proof {
        assert(a@ =~= b@);
    }
    true
}

/// The number of the state with the given items, which is added where it is
/// new.
fn intern_state(a: &mut Automaton, closed: Vec<LR0Item>, Ghost(rules): Ghost<Seq<symbols::RuleModel>>) -> (id: usize)
    requires
        old(a).states_ok(rules),
        ascending(closed@),
        forall|j: int| 0 <= j < closed@.len() ==> item_ok(rules, #[trigger] closed@[j]),
    ensures
        final(a).states_ok(rules),
        id < final(a).states@.len(),
        final(a).states@[id as int]@ == closed@,
        old(a).states@.len() <= final(a).states@.len() <= old(a).states@.len() + 1,
        final(a).states@.take(old(a).states@.len() as int) == old(a).states@,
        final(a).transitions@.take(old(a).transitions@.len() as int) == old(a).transitions@,
        forall|t: int|
            old(a).transitions@.len() <= t < final(a).transitions@.len() ==> (
            #[trigger] final(a).transitions@[t])@ == Seq::<(SymbolId, usize)>::empty() && t == id,
        final(a).start_states@ == old(a).start_states@,
{
    let mut i: usize = 0;
    while i < a.states.len()
        invariant
            i <= a.states.len(),
            *a == *old(a),
            a.states_ok(rules),
            forall|k: int| 0 <= k < i ==> (#[trigger] a.states@[k])@ != closed@,
        decreases a.states.len() - i,
    {
        if same_items(&a.states[i], &closed) {
            proof {
                assert(a.states@.take(a.states@.len() as int) =~= a.states@);
                assert(a.transitions@.take(a.transitions@.len() as int) =~= a.transitions@);
            }
            return i;
        }
        i = i + 1;
    }
    let id: usize = a.states.len();
    a.states.push(closed);
    a.transitions.push(Vec::new());
    proof {
        assert(a.states@.take(old(a).states@.len() as int) =~= old(a).states@);
        assert(a.transitions@.take(old(a).transitions@.len() as int) =~= old(a).transitions@);
    }
    id
}

fn expects_some(items: &Vec<LR0Item>, rules: &Vec<CompiledRule>, sym: SymbolId) -> (r: Vec<LR0Item>)
    requires
        ascending(items@),
        forall|j: int|
            0 <= j < items@.len() ==> item_ok(symbols::rule_models(rules@), #[trigger] items@[j]),
    ensures
        r@.to_set() == moved(symbols::rule_models(rules@), items@.to_set(), sym),
        forall|j: int|
            0 <= j < r@.len() ==> item_ok(symbols::rule_models(rules@), #[trigger] r@[j]),
{
    let ghost models = symbols::rule_models(rules@);
    let mut r: Vec<LR0Item> = Vec::new();
    let mut i: usize = 0;
    while i < items.len()
        invariant
            i <= items.len(),
            models == symbols::rule_models(rules@),
            forall|j: int| 0 <= j < items@.len() ==> item_ok(models, #[trigger] items@[j]),
            forall|j: int| 0 <= j < r@.len() ==> item_ok(models, #[trigger] r@[j]),
            forall|j: int|
                0 <= j < r@.len() ==> moved(models, items@.to_set(), sym).contains(
                    #[trigger] r@[j],
                ),
            forall|k: int|
                0 <= k < i && expected(models, #[trigger] items@[k]) == Some(sym) ==> r@.contains(
                    advanced(items@[k]),
                ),
        decreases items.len() - i,
    {
        let it = items[i];
        if it.expected(rules) == Some(sym) {
            let ghost before = r@;
            let n: usize = rules[it.rule_idx].expansion.len();
            proof {
                assert(it.dot < n);
            }
            let next = LR0Item { rule_idx: it.rule_idx, dot: it.dot + 1 };
            r.push(next);
            proof {
                assert(items@.to_set().contains(items@[i as int]));
                assert(LR0Item { rule_idx: next.rule_idx, dot: (next.dot - 1) as usize } == it);
                assert forall|k: int|
                    0 <= k < i + 1 && expected(models, #[trigger] items@[k]) == Some(
                        sym,
                    ) implies r@.contains(advanced(items@[k])) by {
                    if k < i {
                        let p = choose|p: int|
                            0 <= p < before.len() && before[p] == advanced(items@[k]);
                        assert(r@[p] == advanced(items@[k]));
                    } else {
                        assert(r@[before.len() as int] == advanced(items@[k]));
                    }
                }
            }
        }
        i = i + 1;
    }
    proof {
        assert forall|x: LR0Item| moved(models, items@.to_set(), sym).contains(x) implies r@.to_set().contains(
            x,
        ) by {
            let y = LR0Item { rule_idx: x.rule_idx, dot: (x.dot - 1) as usize };
            assert(items@.to_set().contains(y));
            let k = choose|k: int| 0 <= k < items@.len() && items@[k] == y;
            assert(r@.contains(advanced(items@[k])));
        }
        assert forall|x: LR0Item| r@.to_set().contains(x) implies moved(
            models,
            items@.to_set(),
            sym,
        ).contains(x) by {
            let j = choose|j: int| 0 <= j < r@.len() && r@[j] == x;
        }
        assert(r@.to_set() =~= moved(models, items@.to_set(), sym));
    }
    r
}

proof fn lemma_row_target_push(row: Seq<(SymbolId, usize)>, sym: SymbolId, t: usize)
    ensures
        forall|x: SymbolId|
            #[trigger] row_target(row.push((sym, t)), x) == (if x == sym {
                Some(t)
            } else {
                row_target(row, x)
            }),
{
    assert(row.push((sym, t)).drop_last() =~= row);
}

proof fn lemma_row_target_absent(row: Seq<(SymbolId, usize)>, sym: SymbolId)
    requires
        forall|i: int| 0 <= i < row.len() ==> (#[trigger] row[i]).0 != sym,
    ensures
        row_target(row, sym) is None,
    decreases row.len(),
{
    if row.len() > 0 {
        assert(row[row.len() - 1].0 != sym);
        assert forall|i: int| 0 <= i < row.drop_last().len() implies (
        #[trigger] row.drop_last()[i]).0 != sym by {
            assert(row[i].0 != sym);
        }
        lemma_row_target_absent(row.drop_last(), sym);
    }
}

proof fn lemma_moved_in_range(
    rules: Seq<symbols::RuleModel>,
    state: Set<LR0Item>,
    sym: SymbolId,
    n: nat,
)
    requires
        forall|i: int, j: int|
            0 <= i < rules.len() && 0 <= j < rules[i].expansion.len() ==> (
            #[trigger] rules[i].expansion[j]).ix() < n,
        sym.ix() >= n,
    ensures
        moved(rules, state, sym) == Set::<LR0Item>::empty(),
{
    assert forall|it: LR0Item| !moved(rules, state, sym).contains(it) by {
        if moved(rules, state, sym).contains(it) {
            let y = LR0Item { rule_idx: it.rule_idx, dot: (it.dot - 1) as usize };
            assert(expected(rules, y) == Some(sym));
            assert(rules[y.rule_idx as int].expansion[y.dot as int].ix() < n);
        }
    }
    assert(moved(rules, state, sym) =~= Set::empty());
}

/// Builds the automaton of `rules` for start rules given by number, each with
/// the symbol that it starts.
#[verifier::rlimit(60)]
pub fn build_automaton(
    rules: &Vec<CompiledRule>,
    n_symbols: usize,
    starts: &Vec<(SymbolId, usize)>,
) -> (a: Automaton)
    requires
        n_symbols <= u32::MAX,
        forall|i: int| 0 <= i < starts@.len() ==> (#[trigger] starts@[i]).1 < rules@.len(),
        forall|i: int, j: int|
            0 <= i < rules@.len() && 0 <= j < rules@[i].expansion@.len() ==> (
            #[trigger] rules@[i].expansion@[j]).ix() < n_symbols,
    ensures
        a.wf(symbols::rule_models(rules@), starts@),
{
    let ghost models = symbols::rule_models(rules@);
    let mut a = Automaton {
        states: Vec::new(),
        transitions: Vec::new(),
        start_states: Vec::new(),
    };
    proof {
        assert forall|i: int, j: int|
            0 <= i < models.len() && 0 <= j < models[i].expansion.len() implies (
        #[trigger] models[i].expansion[j]).ix() < n_symbols by {
            assert(rules@[i].expansion@[j].ix() < n_symbols);
        }
    }
    let mut k: usize = 0;
    while k < starts.len()
        invariant
            k <= starts.len(),
            models == symbols::rule_models(rules@),
            forall|i: int| 0 <= i < starts@.len() ==> (#[trigger] starts@[i]).1 < rules@.len(),
            a.states_ok(models),
            a.starts_ok(models, starts@.take(k as int)),
            forall|t: int|
                0 <= t < a.transitions@.len() ==> (#[trigger] a.transitions@[t])@ == Seq::<
                    (SymbolId, usize),
                >::empty(),
            a.reached(),
        decreases starts.len() - k,
    {
        let first = LR0Item { rule_idx: starts[k].1, dot: 0 };
        let mut kernel: Vec<LR0Item> = Vec::new();
        kernel.push(first);
        proof {
            assert(kernel@.to_set() =~= set![first]) by {
                assert(kernel@[0] == first);
            }
        }
        let ghost before = a;
        let closed = closure(rules, &kernel);
        let id: usize = intern_state(&mut a, closed, Ghost(models));
        let ghost mid = a;
        a.start_states.push(id);
        proof {
            let old_n = before.states@.len() as int;
            assert forall|i: int| 0 <= i < k + 1 implies (#[trigger] a.start_states@[i])
                < a.states@.len() && a.items(a.start_states@[i] as int) == closure_of(
                models,
                set![LR0Item { rule_idx: starts@[i].1, dot: 0 }],
            ) by {
                if i < k {
                    let z = before.start_states@[i] as int;
                    assert(a.start_states@[i] == before.start_states@[i]);
                    assert(a.states@.take(old_n)[z] == before.states@[z]);
                    assert(starts@.take(k as int)[i] == starts@[i]);
                }
            }
            assert forall|t: int| 0 <= t < a.transitions@.len() implies (
            #[trigger] a.transitions@[t])@ == Seq::<(SymbolId, usize)>::empty() by {
                if t < before.transitions@.len() {
                    assert(a.transitions@.take(before.transitions@.len() as int)[t]
                        == before.transitions@[t]);
                }
            }
            assert forall|t: int| 0 <= t < a.states@.len() implies #[trigger] a.reached_state(t) by {
                if t < old_n {
                    assert(before.reached_state(t));
                    if exists|i: int|
                        0 <= i < before.start_states@.len() && #[trigger] before.start_states@[i]
                            == t {
                        let i = choose|i: int|
                            0 <= i < before.start_states@.len()
                                && #[trigger] before.start_states@[i] == t;
                        assert(a.start_states@[i] == t);
                    } else {
                        let (s, y) = choose|s: int, y: SymbolId|
                            0 <= s < t && s < before.transitions@.len() && #[trigger] before.target(
                                s,
                                y,
                            ) == Some(t as usize);
                        assert(before.transitions@[s]@ == Seq::<(SymbolId, usize)>::empty());
                    }
                } else {
                    assert(mid.transitions@[t]@ == Seq::<(SymbolId, usize)>::empty());
                    assert(a.start_states@[k as int] == t);
                }
            }
        }
        k = k + 1;
    }
    proof {
        assert(starts@.take(starts@.len() as int) =~= starts@);
    }
    let mut id: usize = 0;
    while id < a.states.len()
        invariant
            id <= a.states@.len(),
            models == symbols::rule_models(rules@),
            n_symbols <= u32::MAX,
            forall|i: int, j: int|
                0 <= i < models.len() && 0 <= j < models[i].expansion.len() ==> (
                #[trigger] models[i].expansion[j]).ix() < n_symbols,
            a.states_ok(models),
            a.starts_ok(models, starts@),
            a.moves_ok(models, id as int),
            a.reached(),
            forall|t: int|
                id <= t < a.transitions@.len() ==> (#[trigger] a.transitions@[t])@ == Seq::<
                    (SymbolId, usize),
                >::empty(),
            forall|s: int, i: int, j: int|
                0 <= s < id && 0 <= i < j < a.transitions@[s]@.len() ==> (
                #[trigger] a.transitions@[s]@[i]).0.ix() < (#[trigger] a.transitions@[s]@[j]).0.ix(),
        decreases state_bound(models) - id,
    {
        let mut x: usize = 0;
        while x < n_symbols
            invariant
                x <= n_symbols <= u32::MAX,
                id < a.states@.len(),
                models == symbols::rule_models(rules@),
                forall|i: int, j: int|
                    0 <= i < models.len() && 0 <= j < models[i].expansion.len() ==> (
                    #[trigger] models[i].expansion[j]).ix() < n_symbols,
                a.states_ok(models),
                a.starts_ok(models, starts@),
                a.moves_ok(models, id as int),
                a.reached(),
                forall|t: int|
                    id < t < a.transitions@.len() ==> (#[trigger] a.transitions@[t])@ == Seq::<
                        (SymbolId, usize),
                    >::empty(),
                forall|s: int, i: int, j: int|
                    0 <= s <= id && 0 <= i < j < a.transitions@[s]@.len() ==> (
                    #[trigger] a.transitions@[s]@[i]).0.ix() < (
                    #[trigger] a.transitions@[s]@[j]).0.ix(),
                forall|i: int|
                    0 <= i < a.transitions@[id as int]@.len() ==> (
                    #[trigger] a.transitions@[id as int]@[i]).0.ix() < x,
                forall|sym: SymbolId|
                    sym.ix() < x ==> match #[trigger] a.target(id as int, sym) {
                        Some(t) => t < a.states@.len() && a.items(t as int) == goto_set(
                            models,
                            a.items(id as int),
                            sym,
                        ) && moved(models, a.items(id as int), sym) != Set::<LR0Item>::empty(),
                        None => moved(models, a.items(id as int), sym) == Set::<LR0Item>::empty(),
                    },
            decreases n_symbols - x,
        {
            let sym = SymbolId(x as u32);
            let ghost before = a;
            let kernel = expects_some(&a.states[id], rules, sym);
            proof {
                let row = a.transitions@[id as int]@;
                assert forall|i: int| 0 <= i < row.len() implies (#[trigger] row[i]).0 != sym by {
                    assert(a.transitions@[id as int]@[i].0.ix() < x);
                }
                lemma_row_target_absent(row, sym);
            }
            if kernel.len() > 0 {
                proof {
                    assert(kernel@.to_set().contains(kernel@[0]));
                    assert(moved(models, a.items(id as int), sym).contains(kernel@[0]));
                }
                let closed = closure(rules, &kernel);
                let next: usize = intern_state(&mut a, closed, Ghost(models));
                let ghost mid = a;
                a.transitions[id].push((sym, next));
                proof {
                    let old_n = before.states@.len() as int;
                    assert(mid.states@ == a.states@);
                    assert forall|t: int| 0 <= t < old_n implies a.states@[t] == before.states@[t]
                        by {
                        assert(mid.states@.take(old_n)[t] == before.states@[t]);
                    }
                    assert forall|t: int| 0 <= t < old_n && t != id implies a.transitions@[t]
                        == before.transitions@[t] by {
                        assert(mid.transitions@.take(old_n)[t] == before.transitions@[t]);
                        assert(a.transitions@[t] == mid.transitions@[t]);
                    }
                    assert(mid.transitions@.take(old_n)[id as int]
                        == before.transitions@[id as int]);
                    assert(a.transitions@[id as int]@ == before.transitions@[id as int]@.push(
                        (sym, next),
                    ));
                    lemma_row_target_push(before.transitions@[id as int]@, sym, next);
                    assert forall|s: int, y: SymbolId| 0 <= s < id implies match #[trigger] a.target(
                        s,
                        y,
                    ) {
                        Some(t) => t < a.states@.len() && a.items(t as int) == goto_set(
                            models,
                            a.items(s),
                            y,
                        ) && moved(models, a.items(s), y) != Set::<LR0Item>::empty(),
                        None => moved(models, a.items(s), y) == Set::<LR0Item>::empty(),
                    } by {
                        assert(a.target(s, y) == before.target(s, y));
                    }
                    assert forall|y: SymbolId| y.ix() < x + 1 implies match #[trigger] a.target(
                        id as int,
                        y,
                    ) {
                        Some(t) => t < a.states@.len() && a.items(t as int) == goto_set(
                            models,
                            a.items(id as int),
                            y,
                        ) && moved(models, a.items(id as int), y) != Set::<LR0Item>::empty(),
                        None => moved(models, a.items(id as int), y) == Set::<LR0Item>::empty(),
                    } by {
                        if y == sym {
                        } else {
                            assert(y.ix() < x);
                            assert(a.target(id as int, y) == before.target(id as int, y));
                        }
                    }
                    assert forall|i: int| 0 <= i < starts@.len() implies (
                    #[trigger] a.start_states@[i]) < a.states@.len() && a.items(
                        a.start_states@[i] as int,
                    ) == closure_of(
                        models,
                        set![LR0Item { rule_idx: starts@[i].1, dot: 0 }],
                    ) by {
                        assert(a.start_states@[i] == before.start_states@[i]);
                    }
                    assert forall|t: int| 0 <= t < a.states@.len() implies #[trigger] a.reached_state(
                        t,
                    ) by {
                        if t < old_n {
                            assert(before.reached_state(t));
                            if exists|i: int|
                                0 <= i < before.start_states@.len()
                                    && #[trigger] before.start_states@[i] == t {
                                let i = choose|i: int|
                                    0 <= i < before.start_states@.len()
                                        && #[trigger] before.start_states@[i] == t;
                                assert(a.start_states@[i] == t);
                            } else {
                                let (s, y) = choose|s: int, y: SymbolId|
                                    0 <= s < t && s < before.transitions@.len()
                                        && #[trigger] before.target(s, y) == Some(t as usize);
                                if s == id && y == sym {
                                    assert(before.target(s, y) is None);
                                }
                                assert(a.target(s, y) == Some(t as usize));
                            }
                        } else {
                            assert(mid.transitions@[t]@ == Seq::<(SymbolId, usize)>::empty());
                            assert(t == next);
                            assert(a.target(id as int, sym) == Some(t as usize));
                        }
                    }
                    assert forall|t: int| id < t < a.transitions@.len() implies (
                    #[trigger] a.transitions@[t])@ == Seq::<(SymbolId, usize)>::empty() by {
                        assert(a.transitions@[t] == mid.transitions@[t]);
                        if t < old_n {
                            assert(a.transitions@[t] == before.transitions@[t]);
                        }
                    }
                }
            } else {
                proof {
                    assert(kernel@ =~= Seq::<LR0Item>::empty());
                    assert(kernel@.to_set() =~= Set::empty());
                }
            }
            x = x + 1;
        }
        proof {
            assert forall|s: int, y: SymbolId| 0 <= s < id + 1 implies match #[trigger] a.target(
                s,
                y,
            ) {
                Some(t) => t < a.states@.len() && a.items(t as int) == goto_set(
                    models,
                    a.items(s),
                    y,
                ) && moved(models, a.items(s), y) != Set::<LR0Item>::empty(),
                None => moved(models, a.items(s), y) == Set::<LR0Item>::empty(),
            } by {
                if s == id && y.ix() >= n_symbols {
                    let row = a.transitions@[id as int]@;
                    assert forall|i: int| 0 <= i < row.len() implies (#[trigger] row[i]).0 != y by {
                        assert(a.transitions@[id as int]@[i].0.ix() < n_symbols);
                    }
                    lemma_row_target_absent(row, y);
                    lemma_moved_in_range(models, a.items(s), y, n_symbols as nat);
                }
            }
            lemma_state_bound(models, a.states@);
        }
        id = id + 1;
    }
    a
}

} // verus!
