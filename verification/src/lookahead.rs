//! LALR(1) lookaheads: for each item of each state the terminals that may
//! follow once the item is complete.

use vstd::prelude::*;
use crate::analysis;
use crate::analysis::GrammarAnalysis;
use crate::bits;
use crate::bits::{blank_rows, union_into};
use crate::lr0;
use crate::lr0::{Automaton, LR0Item};
use crate::symbols;
use crate::symbols::{copy_bools, CompiledGrammar, SymbolId};

verus! {

/// The item with the dot one symbol back.
pub open spec fn retreated(it: LR0Item) -> LR0Item {
    LR0Item { rule_idx: it.rule_idx, dot: (it.dot - 1) as usize }
}

/// The symbols after the one that the item expects.
pub open spec fn rest_of(rules: Seq<symbols::RuleModel>, it: LR0Item) -> Seq<SymbolId> {
    rules[it.rule_idx as int].expansion.skip(it.dot + 1)
}

/// Whether the terminal `t` follows item `it` of state `s`, by a chain of at
/// most `n` steps. A start rule is followed by the end of input. A predicted
/// item is followed by what can come after the symbol that predicts it. An
/// item whose dot has moved is followed by what followed it before the move.
pub open spec fn follows_in(
    rules: Seq<symbols::RuleModel>,
    nt: nat,
    a: Automaton,
    s: int,
    it: LR0Item,
    t: SymbolId,
    n: nat,
) -> bool
    decreases n,
{
    ||| rules[it.rule_idx as int].is_start && t == SymbolId::end()
    ||| n > 0 && it.dot == 0 && exists|by: LR0Item|
        a.items(s).contains(by) && #[trigger] lr0::expected(rules, by) == Some(
            rules[it.rule_idx as int].origin,
        ) && (analysis::first_of(rules, nt, rest_of(rules, by), t) || (analysis::all_nullable(
            rules,
            nt,
            rest_of(rules, by),
        ) && follows_in(rules, nt, a, s, by, t, (n - 1) as nat)))
    ||| n > 0 && it.dot > 0 && exists|p: int|
        0 <= p < a.states@.len() && (#[trigger] a.items(p)).contains(retreated(it)) && lr0::expected(
            rules,
            retreated(it),
        ) is Some && a.target(p, lr0::expected(rules, retreated(it))->0) is Some && a.target(
            p,
            lr0::expected(rules, retreated(it))->0,
        )->0 == s && follows_in(rules, nt, a, p, retreated(it), t, (n - 1) as nat)
}

/// Whether the terminal `t` follows item `it` of state `s`.
pub open spec fn follows(
    rules: Seq<symbols::RuleModel>,
    nt: nat,
    a: Automaton,
    s: int,
    it: LR0Item,
    t: SymbolId,
) -> bool {
    exists|n: nat| #[trigger] follows_in(rules, nt, a, s, it, t, n)
}

/// The flags of all items: by state, by position of the item in the state, and
/// by terminal.
pub open spec fn cells(la: Seq<Vec<Vec<bool>>>) -> Seq<Seq<Seq<bool>>> {
    Seq::new(la.len(), |s: int| Seq::new(la[s]@.len(), |k: int| la[s]@[k]@))
}

spec fn miss_rows(m: Seq<Seq<bool>>) -> nat
    decreases m.len(),
{
    if m.len() == 0 {
        0
    } else {
        miss_rows(m.drop_last()) + bits::missing(m.last())
    }
}

spec fn miss_cells(c: Seq<Seq<Seq<bool>>>) -> nat
    decreases c.len(),
{
    if c.len() == 0 {
        0
    } else {
        miss_cells(c.drop_last()) + miss_rows(c.last())
    }
}

proof fn lemma_miss_rows_update(m: Seq<Seq<bool>>, k: int, row: Seq<bool>)
    requires
        0 <= k < m.len(),
    ensures
        miss_rows(m.update(k, row)) == miss_rows(m) - bits::missing(m[k]) + bits::missing(row),
    decreases m.len(),
{
    let u = m.update(k, row);
    if k == m.len() - 1 {
        assert(u.drop_last() =~= m.drop_last());
    } else {
        assert(u.drop_last() =~= m.drop_last().update(k, row));
        lemma_miss_rows_update(m.drop_last(), k, row);
    }
}

proof fn lemma_miss_cells_update(c: Seq<Seq<Seq<bool>>>, s: int, rows: Seq<Seq<bool>>)
    requires
        0 <= s < c.len(),
    ensures
        miss_cells(c.update(s, rows)) == miss_cells(c) - miss_rows(c[s]) + miss_rows(rows),
    decreases c.len(),
{
    let u = c.update(s, rows);
    if s == c.len() - 1 {
        assert(u.drop_last() =~= c.drop_last());
    } else {
        assert(u.drop_last() =~= c.drop_last().update(s, rows));
        lemma_miss_cells_update(c.drop_last(), s, rows);
    }
}

/// Whether there is one row of `nt` flags per item.
pub open spec fn shaped_for(c: Seq<Seq<Seq<bool>>>, a: Automaton, nt: nat) -> bool {
    &&& c.len() == a.states@.len()
    &&& forall|s: int| 0 <= s < c.len() ==> (#[trigger] c[s]).len() == a.states@[s]@.len()
    &&& forall|s: int, k: int|
        0 <= s < c.len() && 0 <= k < c[s].len() ==> (#[trigger] c[s][k]).len() == nt
}

spec fn sound(
    rules: Seq<symbols::RuleModel>,
    nt: nat,
    a: Automaton,
    c: Seq<Seq<Seq<bool>>>,
) -> bool {
    forall|s: int, k: int, t: SymbolId|
        0 <= s < c.len() && 0 <= k < c[s].len() && t.ix() < nt && #[trigger] c[s][k][t.ix() as int]
            ==> follows(rules, nt, a, s, a.states@[s]@[k], t)
}

spec fn ended(rules: Seq<symbols::RuleModel>, a: Automaton, c: Seq<Seq<Seq<bool>>>) -> bool {
    forall|s: int, k: int|
        0 <= s < c.len() && 0 <= k < c[s].len() && rules[(
        #[trigger] a.states@[s]@[k]).rule_idx as int].is_start ==> c[s][k][0]
}

/// Whether what follows item `k` of state `s` has been passed on to the items
/// that it predicts and to its advanced form.
spec fn passed_on(
    rules: Seq<symbols::RuleModel>,
    nt: nat,
    a: Automaton,
    c: Seq<Seq<Seq<bool>>>,
    s: int,
    k: int,
) -> bool {
    let it = a.states@[s]@[k];
    lr0::expected(rules, it) is Some ==> {
        let x = lr0::expected(rules, it)->0;
        &&& forall|j: int, t: SymbolId|
            0 <= j < c[s].len() && a.states@[s]@[j].dot == 0
                && rules[a.states@[s]@[j].rule_idx as int].origin == x && t.ix() < nt && (
            analysis::first_of(rules, nt, rest_of(rules, it), t) || (analysis::all_nullable(
                rules,
                nt,
                rest_of(rules, it),
            ) && c[s][k][t.ix() as int])) ==> #[trigger] c[s][j][t.ix() as int]
        &&& forall|j: int, t: SymbolId|
            a.target(s, x) is Some && 0 <= j < c[a.target(s, x)->0 as int].len()
                && a.states@[a.target(s, x)->0 as int]@[j] == lr0::advanced(it) && t.ix() < nt
                && c[s][k][t.ix() as int] ==> #[trigger] c[a.target(s, x)->0 as int][j][t.ix() as int]
    }
}

proof fn lemma_follows_found(
    rules: Seq<symbols::RuleModel>,
    nt: nat,
    a: Automaton,
    starts: Seq<(SymbolId, usize)>,
    c: Seq<Seq<Seq<bool>>>,
    s: int,
    k: int,
    t: SymbolId,
    n: nat,
)
    requires
        a.wf(rules, starts),
        shaped_for(c, a, nt),
        ended(rules, a, c),
        forall|s: int, k: int|
            0 <= s < c.len() && 0 <= k < c[s].len() ==> #[trigger] passed_on(rules, nt, a, c, s, k),
        0 <= s < c.len(),
        0 <= k < c[s].len(),
        t.ix() < nt,
        follows_in(rules, nt, a, s, a.states@[s]@[k], t, n),
    ensures
        c[s][k][t.ix() as int],
    decreases n,
{
    let it = a.states@[s]@[k];
    assert(lr0::item_ok(rules, a.states@[s]@[k]));
    if rules[it.rule_idx as int].is_start && t == SymbolId::end() {
    } else if n > 0 && it.dot == 0 && exists|by: LR0Item|
        a.items(s).contains(by) && #[trigger] lr0::expected(rules, by) == Some(
            rules[it.rule_idx as int].origin,
        ) && (analysis::first_of(rules, nt, rest_of(rules, by), t) || (analysis::all_nullable(
            rules,
            nt,
            rest_of(rules, by),
        ) && follows_in(rules, nt, a, s, by, t, (n - 1) as nat))) {
        let by = choose|by: LR0Item|
            a.items(s).contains(by) && #[trigger] lr0::expected(rules, by) == Some(
                rules[it.rule_idx as int].origin,
            ) && (analysis::first_of(rules, nt, rest_of(rules, by), t) || (analysis::all_nullable(
                rules,
                nt,
                rest_of(rules, by),
            ) && follows_in(rules, nt, a, s, by, t, (n - 1) as nat)));
        let q = choose|q: int| 0 <= q < a.states@[s]@.len() && a.states@[s]@[q] == by;
        if !analysis::first_of(rules, nt, rest_of(rules, by), t) {
            lemma_follows_found(rules, nt, a, starts, c, s, q, t, (n - 1) as nat);
        }
        assert(c[s][q].len() == nt);
        assert(passed_on(rules, nt, a, c, s, q));
        assert(c[s][k][t.ix() as int]);
    } else {
        let p = choose|p: int|
            0 <= p < a.states@.len() && (#[trigger] a.items(p)).contains(retreated(it))
                && lr0::expected(rules, retreated(it)) is Some && a.target(
                p,
                lr0::expected(rules, retreated(it))->0,
            ) is Some && a.target(p, lr0::expected(rules, retreated(it))->0)->0 == s && follows_in(
                rules,
                nt,
                a,
                p,
                retreated(it),
                t,
                (n - 1) as nat,
            );
        let q = choose|q: int| 0 <= q < a.states@[p]@.len() && a.states@[p]@[q] == retreated(it);
        lemma_follows_found(rules, nt, a, starts, c, p, q, t, (n - 1) as nat);
        assert(c[p][q].len() == nt);
        assert(passed_on(rules, nt, a, c, p, q));
        let x = lr0::expected(rules, retreated(it))->0;
        assert(a.target(p, x)->0 == s);
        assert(lr0::advanced(retreated(it)) == it);
        assert(c[a.target(p, x)->0 as int][k][t.ix() as int]);
    }
}

/// Turns on flags of one item; tells whether one was off.
fn union_cell(la: &mut Vec<Vec<Vec<bool>>>, s: usize, k: usize, src: &Vec<bool>) -> (changed: bool)
    requires
        s < old(la)@.len(),
        k < old(la)@[s as int]@.len(),
        old(la)@[s as int]@[k as int]@.len() == src@.len(),
    ensures
        cells(final(la)@) == cells(old(la)@).update(
            s as int,
            cells(old(la)@)[s as int].update(
                k as int,
                Seq::new(src@.len(), |i: int| cells(old(la)@)[s as int][k as int][i] || src@[i]),
            ),
        ),
        !changed ==> cells(final(la)@) == cells(old(la)@),
        miss_cells(cells(final(la)@)) <= miss_cells(cells(old(la)@)),
        changed ==> miss_cells(cells(final(la)@)) < miss_cells(cells(old(la)@)),
{
    let ghost c = cells(la@);
    let ghost row = c[s as int][k as int];
    let changed = union_at(&mut la[s], k, src);
    proof {
        let new = Seq::new(src@.len(), |i: int| row[i] || src@[i]);
        let d = cells(la@);
        assert(d[s as int] =~= c[s as int].update(k as int, new));
        assert(d =~= c.update(s as int, c[s as int].update(k as int, new)));
        lemma_miss_rows_update(c[s as int], k as int, new);
        lemma_miss_cells_update(c, s as int, c[s as int].update(k as int, new));
        assert(bits::row_le(row, new));
        bits::lemma_missing_le(row, new);
        if !changed {
            assert(new == row);
            assert(d[s as int] =~= c[s as int]);
            assert(d =~= c);
        }
    }
    changed
}

fn union_at(rows: &mut Vec<Vec<bool>>, k: usize, src: &Vec<bool>) -> (changed: bool)
    requires
        k < old(rows)@.len(),
        old(rows)@[k as int]@.len() == src@.len(),
    ensures
        final(rows)@.len() == old(rows)@.len(),
        forall|i: int| 0 <= i < old(rows)@.len() && i != k ==> final(rows)@[i] == old(rows)@[i],
        final(rows)@[k as int]@ == Seq::new(
            src@.len(),
            |i: int| old(rows)@[k as int]@[i] || src@[i],
        ),
        changed == (final(rows)@[k as int]@ != old(rows)@[k as int]@),
{
    union_into(&mut rows[k], src)
}

fn item_position(items: &Vec<LR0Item>, it: LR0Item) -> (r: Option<usize>)
    requires
        lr0::ascending(items@),
    ensures
        match r {
            Some(j) => j < items@.len() && items@[j as int] == it,
            None => !items@.contains(it),
        },
{
    let mut j: usize = 0;
    while j < items.len()
        invariant
            j <= items.len(),
            forall|q: int| 0 <= q < j ==> #[trigger] items@[q] != it,
        decreases items.len() - j,
    {
        if items[j] == it {
            return Some(j);
        }
        j = j + 1;
    }
    None
}

/// Whether every flag that is on in `c` is on in `d`.
spec fn cells_le(c: Seq<Seq<Seq<bool>>>, d: Seq<Seq<Seq<bool>>>) -> bool {
    forall|s: int, k: int, t: int|
        0 <= s < c.len() && 0 <= k < c[s].len() && 0 <= t < c[s][k].len() && c[s][k][t]
            ==> #[trigger] d[s][k][t]
}

/// Passes what follows item `k` of state `s` on to the items that it predicts
/// and to its advanced form; tells whether anything was new.
#[verifier::rlimit(60)]
fn pass_on(
    grammar: &CompiledGrammar,
    a: &Automaton,
    an: &GrammarAnalysis,
    la: &mut Vec<Vec<Vec<bool>>>,
    s: usize,
    k: usize,
    Ghost(starts): Ghost<Seq<(SymbolId, usize)>>,
) -> (changed: bool)
    requires
        grammar.wf(),
        a.wf(grammar.models(), starts),
        an.holds(
            grammar.models(),
            grammar.terminal_count as nat,
            grammar.symbols@.len(),
        ),
        shaped_for(cells(old(la)@), *a, grammar.terminal_count as nat),
        sound(grammar.models(), grammar.terminal_count as nat, *a, cells(old(la)@)),
        s < a.states@.len(),
        k < a.states@[s as int]@.len(),
    ensures
        shaped_for(cells(final(la)@), *a, grammar.terminal_count as nat),
        sound(grammar.models(), grammar.terminal_count as nat, *a, cells(final(la)@)),
        cells_le(cells(old(la)@), cells(final(la)@)),
        !changed ==> cells(final(la)@) == cells(old(la)@) && passed_on(
            grammar.models(),
            grammar.terminal_count as nat,
            *a,
            cells(old(la)@),
            s as int,
            k as int,
        ),
        miss_cells(cells(final(la)@)) <= miss_cells(cells(old(la)@)),
        changed ==> miss_cells(cells(final(la)@)) < miss_cells(cells(old(la)@)),
{
    let ghost rules = grammar.models();
    let nt: usize = grammar.terminal_count;
    let ghost c0 = cells(la@);
    let it = a.states[s][k];
    proof {
        assert(lr0::item_ok(rules, a.states@[s as int]@[k as int]));
    }
    let want = it.expected(&grammar.rules);
    let x = match want {
        Some(x) => x,
        None => {
            return false;
        },
    };
    let rule = &grammar.rules[it.rule_idx];
    proof {
        assert(rule@ == rules[it.rule_idx as int]);
        assert forall|j: int| 0 <= j < rule.expansion@.len() implies (
        #[trigger] rule.expansion@[j]).ix() < grammar.symbols@.len() by {
            assert(rules[it.rule_idx as int].expansion[j].ix() < grammar.symbols@.len());
        }
    }
    let n_exp: usize = rule.expansion.len();
    proof {
        assert(it.dot < n_exp);
    }
    let (seed_row, beta_nullable) = an.first_of_seq(grammar, &rule.expansion, it.dot + 1);
    let mut seed = seed_row;
    proof {
        assert(c0[s as int].len() == a.states@[s as int]@.len());
    }
    let own = copy_bools(&la[s][k]);
    proof {
        assert(c0[s as int][k as int].len() == nt);
        assert(own@ == c0[s as int][k as int]);
    }
    if beta_nullable {
        union_into(&mut seed, &own);
    }
    let mut changed = false;
    let mut j: usize = 0;
    let n_items: usize = a.states[s].len();
    proof {
        assert(seed@.len() == nt);
        assert forall|t: SymbolId| t.ix() < nt implies #[trigger] seed@[t.ix() as int] == (
        analysis::first_of(rules, nt as nat, rest_of(rules, it), t) || (analysis::all_nullable(
            rules,
            nt as nat,
            rest_of(rules, it),
        ) && c0[s as int][k as int][t.ix() as int])) by {}
    }
    while j < n_items
        invariant
            j <= n_items,
            n_items == a.states@[s as int]@.len(),
            grammar.wf(),
            rules == grammar.models(),
            nt == grammar.terminal_count,
            a.wf(rules, starts),
            s < a.states@.len(),
            k < a.states@[s as int]@.len(),
            it == a.states@[s as int]@[k as int],
            lr0::item_ok(rules, it),
            lr0::expected(rules, it) == Some(x),
            shaped_for(c0, *a, nt as nat),
            sound(rules, nt as nat, *a, c0),
            seed@.len() == nt,
            forall|t: SymbolId|
                t.ix() < nt ==> #[trigger] seed@[t.ix() as int] == (analysis::first_of(
                    rules,
                    nt as nat,
                    rest_of(rules, it),
                    t,
                ) || (analysis::all_nullable(rules, nt as nat, rest_of(rules, it))
                    && c0[s as int][k as int][t.ix() as int])),
            shaped_for(cells(la@), *a, nt as nat),
            sound(rules, nt as nat, *a, cells(la@)),
            cells_le(c0, cells(la@)),
            !changed ==> cells(la@) == c0,
            miss_cells(cells(la@)) <= miss_cells(c0),
            changed ==> miss_cells(cells(la@)) < miss_cells(c0),
            !changed ==> forall|q: int, t: SymbolId|
                0 <= q < j && a.states@[s as int]@[q].dot == 0
                    && rules[a.states@[s as int]@[q].rule_idx as int].origin == x && t.ix() < nt
                    && seed@[t.ix() as int] ==> #[trigger] c0[s as int][q][t.ix() as int],
        decreases n_items - j,
    {
        let other = a.states[s][j];
        proof {
            assert(lr0::item_ok(rules, a.states@[s as int]@[j as int]));
        }
        if other.dot == 0 && grammar.rules[other.rule_idx].origin == x {
            let ghost before = cells(la@);
            proof {
                assert(before[s as int][j as int].len() == nt);
            }
            let grew = union_cell(la, s, j, &seed);
            proof {
                let now = cells(la@);
                assert forall|p: int, q: int|
                    0 <= p < now.len() && 0 <= q < now[p].len() implies (#[trigger] now[p][q]).len()
                    == nt by {
                    assert(before[p][q].len() == nt);
                }
                assert forall|p: int, q: int, t: SymbolId|
                    0 <= p < now.len() && 0 <= q < now[p].len() && t.ix() < nt
                        && #[trigger] now[p][q][t.ix() as int] implies follows(
                    rules,
                    nt as nat,
                    *a,
                    p,
                    a.states@[p]@[q],
                    t,
                ) by {
                    if before[p][q][t.ix() as int] {
                    } else {
                        assert(p == s && q == j && seed@[t.ix() as int]);
                        assert(a.items(s as int).contains(it)) by {
                            assert(a.states@[s as int]@[k as int] == it);
                        }
                        assert(lr0::expected(rules, it) == Some(
                            rules[other.rule_idx as int].origin,
                        ));
                        if analysis::first_of(rules, nt as nat, rest_of(rules, it), t) {
                            assert(follows_in(rules, nt as nat, *a, s as int, other, t, 1));
                        } else {
                            assert(c0[s as int][k as int][t.ix() as int]);
                            assert(follows(rules, nt as nat, *a, s as int, it, t));
                            let n = choose|n: nat|
                                #[trigger] follows_in(rules, nt as nat, *a, s as int, it, t, n);
                            assert(follows_in(rules, nt as nat, *a, s as int, other, t, n + 1));
                        }
                    }
                }
                assert forall|p: int, q: int, t: int|
                    0 <= p < c0.len() && 0 <= q < c0[p].len() && 0 <= t < c0[p][q].len()
                        && c0[p][q][t] implies #[trigger] now[p][q][t] by {
                    assert(before[p][q][t]);
                }
                if !changed && !grew {
                    assert forall|q: int, t: SymbolId|
                        0 <= q < j + 1 && a.states@[s as int]@[q].dot == 0
                            && rules[a.states@[s as int]@[q].rule_idx as int].origin == x && t.ix()
                            < nt && seed@[t.ix() as int] implies #[trigger] c0[s as int][q][t.ix() as int] by {
                        if q == j {
                            assert(now[s as int][j as int][t.ix() as int]);
                        }
                    }
                }
            }
            if grew {
                changed = true;
            }
        }
        j = j + 1;
    }
    let goes = a.goto_state(s, x);
    if let Some(t2) = goes {
        let next = LR0Item { rule_idx: it.rule_idx, dot: it.dot + 1 };
        proof {
            assert(a.target(s as int, x) == Some(t2));
        }
        let at = item_position(&a.states[t2], next);
        if let Some(j2) = at {
            let ghost before = cells(la@);
            proof {
                assert(before[t2 as int][j2 as int].len() == nt);
            }
            let grew = union_cell(la, t2, j2, &own);
            proof {
                let now = cells(la@);
                assert forall|p: int, q: int|
                    0 <= p < now.len() && 0 <= q < now[p].len() implies (#[trigger] now[p][q]).len()
                    == nt by {
                    assert(before[p][q].len() == nt);
                }
                assert forall|p: int, q: int, t: SymbolId|
                    0 <= p < now.len() && 0 <= q < now[p].len() && t.ix() < nt
                        && #[trigger] now[p][q][t.ix() as int] implies follows(
                    rules,
                    nt as nat,
                    *a,
                    p,
                    a.states@[p]@[q],
                    t,
                ) by {
                    if before[p][q][t.ix() as int] {
                    } else {
                        assert(p == t2 && q == j2 && own@[t.ix() as int]);
                        assert(c0[s as int][k as int][t.ix() as int]);
                        assert(follows(rules, nt as nat, *a, s as int, it, t));
                        let n = choose|n: nat|
                            #[trigger] follows_in(rules, nt as nat, *a, s as int, it, t, n);
                        assert(retreated(next) == it);
                        assert(a.items(s as int).contains(it)) by {
                            assert(a.states@[s as int]@[k as int] == it);
                        }
                        assert(follows_in(rules, nt as nat, *a, t2 as int, next, t, n + 1));
                    }
                }
                assert forall|p: int, q: int, t: int|
                    0 <= p < c0.len() && 0 <= q < c0[p].len() && 0 <= t < c0[p][q].len()
                        && c0[p][q][t] implies #[trigger] now[p][q][t] by {
                    assert(before[p][q][t]);
                }
                if !changed && !grew {
                    assert forall|q: int, t: SymbolId|
                        0 <= q < c0[t2 as int].len() && a.states@[t2 as int]@[q] == next && t.ix() < nt
                            && c0[s as int][k as int][t.ix() as int] implies #[trigger] c0[t2 as int][q][t.ix() as int] by {
                        assert(lr0::ascending(a.states@[t2 as int]@));
                        assert(q == j2) by {
                            if q < j2 {
                                assert(lr0::item_lt(
                                    a.states@[t2 as int]@[q],
                                    a.states@[t2 as int]@[j2 as int],
                                ));
                            } else if j2 < q {
                                assert(lr0::item_lt(
                                    a.states@[t2 as int]@[j2 as int],
                                    a.states@[t2 as int]@[q],
                                ));
                            }
                        }
                        assert(now[t2 as int][j2 as int][t.ix() as int]);
                    }
                }
            }
            if grew {
                changed = true;
            }
        }
    }
    changed
}

/// The lookaheads of every item.
pub struct Lookaheads {
    pub flags: Vec<Vec<Vec<bool>>>,
}

impl Lookaheads {
    /// Whether the flags are the lookaheads of automaton `a`.
    pub open spec fn holds(
        &self,
        rules: Seq<symbols::RuleModel>,
        nt: nat,
        a: Automaton,
    ) -> bool {
        &&& shaped_for(cells(self.flags@), a, nt)
        &&& forall|s: int, k: int, t: SymbolId|
            0 <= s < a.states@.len() && 0 <= k < a.states@[s]@.len() && t.ix() < nt ==> (
            #[trigger] cells(self.flags@)[s][k][t.ix() as int]) == follows(
                rules,
                nt,
                a,
                s,
                a.states@[s]@[k],
                t,
            )
    }

    /// Computes the lookaheads of an automaton.
    #[verifier::rlimit(40)]
    pub fn compute(
        grammar: &CompiledGrammar,
        a: &Automaton,
        starts: &Vec<(SymbolId, usize)>,
    ) -> (r: Lookaheads)
        requires
            grammar.wf(),
            a.wf(grammar.models(), starts@),
        ensures
            r.holds(grammar.models(), grammar.terminal_count as nat, *a),
    {
        let ghost rules = grammar.models();
        let nt: usize = grammar.terminal_count;
        let an = GrammarAnalysis::compute(grammar);
        let mut la: Vec<Vec<Vec<bool>>> = Vec::new();
        let mut s: usize = 0;
        while s < a.states.len()
            invariant
                s <= a.states.len(),
                grammar.wf(),
                rules == grammar.models(),
                nt == grammar.terminal_count,
                a.wf(rules, starts@),
                la@.len() == s,
                forall|p: int| 0 <= p < s ==> (#[trigger] la@[p])@.len() == a.states@[p]@.len(),
                forall|p: int, k: int|
                    0 <= p < s && 0 <= k < la@[p]@.len() ==> (#[trigger] la@[p]@[k])@.len() == nt,
                forall|p: int, k: int, t: int|
                    0 <= p < s && 0 <= k < la@[p]@.len() && 0 <= t < nt ==> #[trigger] la@[p]@[k]@[t]
                        == (t == 0 && rules[a.states@[p]@[k].rule_idx as int].is_start),
            decreases a.states.len() - s,
        {
            let mut rows = blank_rows(a.states[s].len(), nt);
            let mut k: usize = 0;
            while k < rows.len()
                invariant
                    k <= rows.len(),
                    s < a.states.len(),
                    grammar.wf(),
                    rules == grammar.models(),
                    nt == grammar.terminal_count,
                    a.wf(rules, starts@),
                    rows@.len() == a.states@[s as int]@.len(),
                    forall|q: int| 0 <= q < rows@.len() ==> (#[trigger] rows@[q])@.len() == nt,
                    forall|q: int, t: int|
                        0 <= q < rows@.len() && 0 <= t < nt ==> #[trigger] rows@[q]@[t] == (q < k
                            && t == 0 && rules[a.states@[s as int]@[q].rule_idx as int].is_start),
                decreases rows.len() - k,
            {
                proof {
                    assert(lr0::item_ok(rules, a.states@[s as int]@[k as int]));
                }
                if grammar.rules[a.states[s][k].rule_idx].is_start {
                    rows[k].set(0, true);
                }
                k = k + 1;
            }
            la.push(rows);
            s = s + 1;
        }
        proof {
            let c = cells(la@);
            assert forall|p: int, k: int| 0 <= p < c.len() && 0 <= k < c[p].len() implies (
            #[trigger] c[p][k]).len() == nt by {
                assert(la@[p]@[k]@.len() == nt);
            }
            assert forall|p: int| 0 <= p < c.len() implies (#[trigger] c[p]).len()
                == a.states@[p]@.len() by {
                assert(la@[p]@.len() == a.states@[p]@.len());
            }
            assert forall|p: int, k: int, t: SymbolId|
                0 <= p < c.len() && 0 <= k < c[p].len() && t.ix() < nt
                    && #[trigger] c[p][k][t.ix() as int] implies follows(
                rules,
                nt as nat,
                *a,
                p,
                a.states@[p]@[k],
                t,
            ) by {
                assert(la@[p]@[k]@[t.ix() as int]);
                assert(follows_in(rules, nt as nat, *a, p, a.states@[p]@[k], t, 0));
            }
            assert forall|p: int, k: int|
                0 <= p < c.len() && 0 <= k < c[p].len() && rules[(
                #[trigger] a.states@[p]@[k]).rule_idx as int].is_start implies c[p][k][0] by {
                assert(la@[p]@[k]@[0]);
            }
        }
        let mut changed = true;
        while changed
            invariant
                grammar.wf(),
                rules == grammar.models(),
                nt == grammar.terminal_count,
                a.wf(rules, starts@),
                an.holds(rules, nt as nat, grammar.symbols@.len()),
                shaped_for(cells(la@), *a, nt as nat),
                sound(rules, nt as nat, *a, cells(la@)),
                ended(rules, *a, cells(la@)),
                !changed ==> forall|p: int, k: int|
                    0 <= p < a.states@.len() && 0 <= k < a.states@[p]@.len() ==> #[trigger] passed_on(
                        rules,
                        nt as nat,
                        *a,
                        cells(la@),
                        p,
                        k,
                    ),
            decreases miss_cells(cells(la@)), changed as int,
        {
            changed = false;
            let ghost c0 = cells(la@);
            let mut s: usize = 0;
            while s < a.states.len()
                invariant
                    s <= a.states.len(),
                    grammar.wf(),
                    rules == grammar.models(),
                    nt == grammar.terminal_count,
                    a.wf(rules, starts@),
                    an.holds(rules, nt as nat, grammar.symbols@.len()),
                    shaped_for(cells(la@), *a, nt as nat),
                    sound(rules, nt as nat, *a, cells(la@)),
                    ended(rules, *a, cells(la@)),
                    !changed ==> cells(la@) == c0,
                    miss_cells(cells(la@)) <= miss_cells(c0),
                    changed ==> miss_cells(cells(la@)) < miss_cells(c0),
                    !changed ==> forall|p: int, k: int|
                        0 <= p < s && 0 <= k < a.states@[p]@.len() ==> #[trigger] passed_on(
                            rules,
                            nt as nat,
                            *a,
                            c0,
                            p,
                            k,
                        ),
                decreases a.states.len() - s,
            {
                let mut k: usize = 0;
                while k < a.states[s].len()
                    invariant
                        s < a.states.len(),
                        k <= a.states@[s as int]@.len(),
                        grammar.wf(),
                        rules == grammar.models(),
                        nt == grammar.terminal_count,
                        a.wf(rules, starts@),
                        an.holds(rules, nt as nat, grammar.symbols@.len()),
                        shaped_for(cells(la@), *a, nt as nat),
                        sound(rules, nt as nat, *a, cells(la@)),
                        ended(rules, *a, cells(la@)),
                        !changed ==> cells(la@) == c0,
                        miss_cells(cells(la@)) <= miss_cells(c0),
                        changed ==> miss_cells(cells(la@)) < miss_cells(c0),
                        !changed ==> forall|p: int, q: int|
                            0 <= p < s && 0 <= q < a.states@[p]@.len() ==> #[trigger] passed_on(
                                rules,
                                nt as nat,
                                *a,
                                c0,
                                p,
                                q,
                            ),
                        !changed ==> forall|q: int|
                            0 <= q < k ==> #[trigger] passed_on(rules, nt as nat, *a, c0, s as int, q),
                    decreases a.states@[s as int]@.len() - k,
                {
                    let ghost before = cells(la@);
                    let grew = pass_on(grammar, a, &an, &mut la, s, k, Ghost(starts@));
                    proof {
                        let now = cells(la@);
                        assert forall|p: int, q: int|
                            0 <= p < now.len() && 0 <= q < now[p].len() && rules[(
                            #[trigger] a.states@[p]@[q]).rule_idx as int].is_start implies now[p][q][0] by {
                            assert(before[p].len() == a.states@[p]@.len());
                            assert(before[p][q].len() == nt);
                            assert(before[p][q][0]);
                        }
                    }
                    if grew {
                        changed = true;
                    }
                    k = k + 1;
                }
                s = s + 1;
            }
        }
        proof {
            let c = cells(la@);
            assert forall|p: int, k: int, t: SymbolId|
                0 <= p < a.states@.len() && 0 <= k < a.states@[p]@.len() && t.ix() < nt implies (
            #[trigger] c[p][k][t.ix() as int]) == follows(
                rules,
                nt as nat,
                *a,
                p,
                a.states@[p]@[k],
                t,
            ) by {
                assert(c[p].len() == a.states@[p]@.len());
                if follows(rules, nt as nat, *a, p, a.states@[p]@[k], t) {
                    let n = choose|n: nat|
                        #[trigger] follows_in(rules, nt as nat, *a, p, a.states@[p]@[k], t, n);
                    assert forall|x: int, y: int|
                        0 <= x < c.len() && 0 <= y < c[x].len() implies #[trigger] passed_on(
                        rules,
                        nt as nat,
                        *a,
                        c,
                        x,
                        y,
                    ) by {
                        assert(c[x].len() == a.states@[x]@.len());
                    }
                    lemma_follows_found(rules, nt as nat, *a, starts@, c, p, k, t, n);
                }
            }
        }
        Lookaheads { flags: la }
    }
}

} // verus!
