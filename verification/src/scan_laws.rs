//! In which order terminals are tried, what a plan holds, and what a scan finds.

use vstd::prelude::*;
use crate::lexer;
use crate::pattern;
use crate::scanner;
use crate::scanner::Terminal;
use crate::symbols;
use crate::symbols::{CompiledGrammar, Pattern, SymbolId, TerminalDef};

verus! {

// ---------------------------------------------------------------------------
// The order of trial

/// The text that a pattern is written with.
pub open spec fn source_of(p: Pattern) -> Seq<char> {
    match p {
        Pattern::Re { pattern, .. } => pattern@,
        Pattern::Str { value, .. } => value@,
    }
}

/// Whether terminal `a` comes before terminal `b`: a higher priority first, then an
/// expression before a plain text, then a longer pattern, then what was defined first.
pub open spec fn comes_before(terms: Seq<Terminal>, a: int, b: int) -> bool {
    let x = terms[a].def;
    let y = terms[b].def;
    let same_kind = (x.pattern is Str) == (y.pattern is Str);
    ||| y.priority < x.priority
    ||| y.priority == x.priority && x.pattern is Re && y.pattern is Str
    ||| y.priority == x.priority && same_kind && source_of(y.pattern).len() < source_of(
        x.pattern,
    ).len()
    ||| y.priority == x.priority && same_kind && source_of(y.pattern).len() == source_of(
        x.pattern,
    ).len() && a < b
}

/// Whether each of some terminals comes before those behind it.
pub open spec fn is_ranked(terms: Seq<Terminal>, order: Seq<usize>) -> bool {
    forall|i: int, j: int|
        0 <= i < j < order.len() ==> comes_before(
            terms,
            #[trigger] order[i] as int,
            #[trigger] order[j] as int,
        )
}

proof fn lemma_slot(terms: Seq<Terminal>, order: Seq<usize>, x: int, from: int)
    requires
        0 <= from <= order.len(),
    ensures
        ({
            let s = scanner::slot_for(terms, order, x, from);
            &&& from <= s <= order.len()
            &&& forall|i: int|
                from <= i < s ==> !scanner::tried_first(
                    terms[x].def,
                    terms[#[trigger] order[i] as int].def,
                )
            &&& s < order.len() ==> scanner::tried_first(terms[x].def, terms[order[s] as int].def)
        }),
    decreases order.len() - from,
{
    if from < order.len() && !scanner::tried_first(terms[x].def, terms[order[from] as int].def) {
        lemma_slot(terms, order, x, from + 1);
    }
}

proof fn lemma_order(terms: Seq<Terminal>, k: nat)
    requires
        k <= terms.len() <= usize::MAX,
    ensures
        ({
            let r = scanner::trial_order(terms, k);
            &&& r.len() == k
            &&& is_ranked(terms, r)
            &&& forall|i: int| 0 <= i < k ==> #[trigger] r[i] < k
            &&& forall|y: usize| y < k ==> #[trigger] r.contains(y)
        }),
    decreases k,
{
    if k > 0 {
        let x = (k - 1) as usize;
        let s = scanner::trial_order(terms, (k - 1) as nat);
        lemma_order(terms, (k - 1) as nat);
        lemma_slot(terms, s, x as int, 0);
        let at = scanner::slot_for(terms, s, x as int, 0);
        let r = scanner::trial_order(terms, k);
        assert(r == s.insert(at, x));
        assert(r.len() == k);
        assert forall|i: int, j: int| 0 <= i < j < r.len() implies comes_before(
            terms,
            #[trigger] r[i] as int,
            #[trigger] r[j] as int,
        ) by {
            if j == at {
                assert(r[i] == s[i] && r[j] == x);
                assert(!scanner::tried_first(terms[x as int].def, terms[s[i] as int].def));
            } else if i == at {
                assert(r[i] == x && r[j] == s[j - 1]);
                assert(scanner::tried_first(terms[x as int].def, terms[s[at] as int].def));
                if at < j - 1 {
                    assert(comes_before(terms, s[at] as int, s[j - 1] as int));
                }
            } else {
                let a = if i < at {
                    i
                } else {
                    i - 1
                };
                let b = if j < at {
                    j
                } else {
                    j - 1
                };
                assert(r[i] == s[a] && r[j] == s[b]);
            }
        }
        assert forall|i: int| 0 <= i < k implies #[trigger] r[i] < k by {
            if i < at {
                assert(r[i] == s[i]);
            } else if i > at {
                assert(r[i] == s[i - 1]);
            }
        }
        assert forall|y: usize| y < k implies #[trigger] r.contains(y) by {
            if y == x {
                assert(r[at] == y);
            } else {
                assert(s.contains(y));
                let i = choose|i: int| 0 <= i < s.len() && s[i] == y;
                if i < at {
                    assert(r[i] == y);
                } else {
                    assert(r[i + 1] == y);
                }
            }
        }
    }
}

/// All terminals are tried: those of a higher priority first, then expressions before
/// plain texts, then those with the longer pattern, then those defined first.
pub proof fn terminals_are_tried_by_rank(terms: Seq<Terminal>)
    requires
        terms.len() <= usize::MAX,
    ensures
        ({
            let order = scanner::trial_order(terms, terms.len());
            &&& order.len() == terms.len()
            &&& forall|i: int| 0 <= i < order.len() ==> #[trigger] order[i] < terms.len()
            &&& forall|y: usize| y < terms.len() ==> #[trigger] order.contains(y)
            &&& is_ranked(terms, order)
        }),
{
    lemma_order(terms, terms.len());
}

// ---------------------------------------------------------------------------
// What a plan holds

/// Whether a text is written as a terminal of the same priority as an expression that
/// matches all of it.
pub open spec fn covers(prefix: Seq<char>, re: TerminalDef, st: TerminalDef) -> bool {
    &&& st.pattern is Str
    &&& re.pattern is Re
    &&& st.priority == re.priority
    &&& pattern::matched(
        prefix + pattern::inline_of(re.pattern),
        Seq::empty(),
        source_of(st.pattern),
    ) == Some(source_of(st.pattern))
}

/// Whether a terminal is found as a keyword of another only.
pub open spec fn is_covered(prefix: Seq<char>, terms: Seq<Terminal>, x: int) -> bool {
    &&& terms[x].def.pattern matches Pattern::Str { ci, .. } && !ci
    &&& exists|r: int| 0 <= r < terms.len() && covers(prefix, (#[trigger] terms[r]).def, terms[x].def)
}

proof fn lemma_keyword(prefix: Seq<char>, terms: Seq<Terminal>, x: int, k: nat)
    requires
        k <= terms.len(),
        0 <= x < terms.len(),
    ensures
        scanner::is_keyword(prefix, terms, x, k) <==> (terms[x].def.pattern matches Pattern::Str {
            ci,
            ..
        } && !ci) && exists|r: int|
            0 <= r < k && covers(prefix, (#[trigger] terms[r]).def, terms[x].def),
    decreases k,
{
    if k > 0 {
        lemma_keyword(prefix, terms, x, (k - 1) as nat);
        let last = terms[k - 1].def;
        assert(scanner::swallows(prefix, last, terms[x].def) == covers(
            prefix,
            last,
            terms[x].def,
        ));
        if scanner::is_keyword(prefix, terms, x, (k - 1) as nat) {
            let r = choose|r: int|
                0 <= r < k - 1 && covers(prefix, (#[trigger] terms[r]).def, terms[x].def);
            assert(covers(prefix, terms[r].def, terms[x].def));
        }
    }
}

/// The alternative of a terminal.
pub open spec fn entry(t: Terminal) -> (SymbolId, Seq<char>) {
    (t.id, pattern::inline_of(t.def.pattern))
}

proof fn lemma_alternatives(
    prefix: Seq<char>,
    terms: Seq<Terminal>,
    order: Seq<usize>,
    k: nat,
) -> (at: Seq<usize>)
    requires
        k <= order.len(),
        is_ranked(terms, order),
        forall|i: int| 0 <= i < order.len() ==> #[trigger] order[i] < terms.len(),
    ensures
        ({
            let r = scanner::alternatives(prefix, terms, order, k);
            &&& at.len() == r.len()
            &&& forall|i: int|
                #![trigger at[i]]
                0 <= i < at.len() ==> at[i] < terms.len() && r[i] == entry(terms[at[i] as int])
                    && !is_covered(prefix, terms, at[i] as int) && order.take(k as int).contains(
                    at[i],
                )
            &&& is_ranked(terms, at)
            &&& forall|j: int|
                0 <= j < k && !is_covered(prefix, terms, #[trigger] order[j] as int)
                    ==> at.contains(order[j])
        }),
    decreases k,
{
    if k == 0 {
        Seq::empty()
    } else {
        let s = lemma_alternatives(prefix, terms, order, (k - 1) as nat);
        let x = order[k - 1];
        lemma_keyword(prefix, terms, x as int, terms.len());
        assert forall|i: int| 0 <= i < s.len() implies order.take(k as int).contains(
            #[trigger] s[i],
        ) by {
            let front = order.take((k - 1) as int);
            assert(front.contains(s[i]));
            let j = choose|j: int| 0 <= j < front.len() && front[j] == s[i];
            assert(order.take(k as int)[j] == s[i]);
        }
        if is_covered(prefix, terms, x as int) {
            s
        } else {
            let at = s.push(x);
            assert(order.take(k as int)[k - 1] == x);
            assert forall|i: int, j: int| 0 <= i < j < at.len() implies comes_before(
                terms,
                #[trigger] at[i] as int,
                #[trigger] at[j] as int,
            ) by {
                if j == s.len() {
                    assert(at[i] == s[i] && at[j] == x);
                    let front = order.take((k - 1) as int);
                    assert(front.contains(s[i]));
                    let q = choose|q: int| 0 <= q < front.len() && front[q] == s[i];
                    assert(comes_before(terms, order[q] as int, order[k - 1] as int));
                } else {
                    assert(at[i] == s[i] && at[j] == s[j]);
                }
            }
            assert forall|j: int|
                0 <= j < k && !is_covered(prefix, terms, #[trigger] order[j] as int) implies
                at.contains(order[j]) by {
                if j < k - 1 {
                    assert(s.contains(order[j]));
                    let i = choose|i: int| 0 <= i < s.len() && s[i] == order[j];
                    assert(at[i] == order[j]);
                } else {
                    assert(at[s.len() as int] == order[j]);
                }
            }
            at
        }
    }
}

/// Whether a keyword is that of a plain text that an expression matches.
pub open spec fn is_keyword_of(
    prefix: Seq<char>,
    terms: Seq<Terminal>,
    r: int,
    x: int,
    kw: scanner::KeywordModel,
) -> bool {
    &&& covers(prefix, terms[r].def, terms[x].def)
    &&& kw.from == terms[r].id
    &&& kw.value == source_of(terms[x].def.pattern)
    &&& kw.to == terms[x].id
}

/// Whether a keyword is that of some plain text and some expression that matches it.
pub open spec fn is_some_keyword(
    prefix: Seq<char>,
    terms: Seq<Terminal>,
    kw: scanner::KeywordModel,
) -> bool {
    exists|r: int, x: int|
        0 <= r < terms.len() && 0 <= x < terms.len() && #[trigger] is_keyword_of(
            prefix,
            terms,
            r,
            x,
            kw,
        )
}

proof fn lemma_keywords_of(
    prefix: Seq<char>,
    terms: Seq<Terminal>,
    r: int,
    k: nat,
    kw: scanner::KeywordModel,
)
    requires
        k <= terms.len(),
        0 <= r < terms.len(),
    ensures
        scanner::keywords_of(prefix, terms, r, k).contains(kw) <==> exists|x: int|
            0 <= x < k && #[trigger] is_keyword_of(prefix, terms, r, x, kw),
    decreases k,
{
    let s = scanner::keywords_of(prefix, terms, r, k);
    if k == 0 {
        assert(!s.contains(kw));
    } else {
        lemma_keywords_of(prefix, terms, r, (k - 1) as nat, kw);
        let before = scanner::keywords_of(prefix, terms, r, (k - 1) as nat);
        let st = terms[k - 1].def;
        assert(scanner::swallows(prefix, terms[r].def, st) == covers(prefix, terms[r].def, st));
        if covers(prefix, terms[r].def, st) {
            let own = scanner::KeywordModel {
                from: terms[r].id,
                value: source_of(st.pattern),
                to: terms[k - 1].id,
            };
            assert(s == before.push(own));
            if s.contains(kw) {
                let i = choose|i: int| 0 <= i < s.len() && s[i] == kw;
                if i < before.len() {
                    assert(before[i] == kw);
                    assert(before.contains(kw));
                } else {
                    assert(is_keyword_of(prefix, terms, r, k - 1, kw));
                }
            }
            if before.contains(kw) {
                let i = choose|i: int| 0 <= i < before.len() && before[i] == kw;
                assert(s[i] == kw);
            }
            assert(s[before.len() as int] == own);
            if is_keyword_of(prefix, terms, r, k - 1, kw) {
                assert(kw == own);
            }
        }
    }
}

proof fn lemma_all_keywords(
    prefix: Seq<char>,
    terms: Seq<Terminal>,
    k: nat,
    kw: scanner::KeywordModel,
)
    requires
        k <= terms.len(),
    ensures
        scanner::all_keywords(prefix, terms, k).contains(kw) <==> exists|r: int, x: int|
            0 <= r < k && 0 <= x < terms.len() && #[trigger] is_keyword_of(
                prefix,
                terms,
                r,
                x,
                kw,
            ),
    decreases k,
{
    let s = scanner::all_keywords(prefix, terms, k);
    if k == 0 {
        assert(!s.contains(kw));
    } else {
        lemma_all_keywords(prefix, terms, (k - 1) as nat, kw);
        lemma_keywords_of(prefix, terms, k - 1, terms.len(), kw);
        let a = scanner::all_keywords(prefix, terms, (k - 1) as nat);
        let b = scanner::keywords_of(prefix, terms, k - 1, terms.len());
        assert(s == a + b);
        if s.contains(kw) {
            let i = choose|i: int| 0 <= i < s.len() && s[i] == kw;
            if i < a.len() {
                assert(a[i] == kw);
            } else {
                assert(b[i - a.len()] == kw);
            }
        }
        if a.contains(kw) {
            let i = choose|i: int| 0 <= i < a.len() && a[i] == kw;
            assert(s[i] == kw);
        }
        if b.contains(kw) {
            let i = choose|i: int| 0 <= i < b.len() && b[i] == kw;
            assert(s[a.len() + i] == kw);
        }
    }
}

/// A plan holds every terminal as an alternative, in the order of trial, but for plain
/// texts that an expression of the same priority matches; those are its keywords.
pub proof fn plans_hold_every_terminal(terms: Seq<Terminal>, flags: u32) -> (at: Seq<usize>)
    requires
        terms.len() <= usize::MAX,
    ensures
        ({
            let m = scanner::plan_of(terms, flags);
            &&& m.prefix == pattern::flags_prefix(flags)
            &&& at.len() == m.groups.len()
            &&& forall|i: int|
                #![trigger at[i]]
                0 <= i < at.len() ==> at[i] < terms.len() && m.groups[i] == entry(
                    terms[at[i] as int],
                ) && !is_covered(m.prefix, terms, at[i] as int)
            &&& is_ranked(terms, at)
            &&& forall|x: usize|
                x < terms.len() && !is_covered(m.prefix, terms, x as int) ==> #[trigger] at.contains(
                    x,
                )
            &&& forall|kw: scanner::KeywordModel| #[trigger]
                m.unless.contains(kw) == is_some_keyword(m.prefix, terms, kw)
        }),
{
    let prefix = pattern::flags_prefix(flags);
    let order = scanner::trial_order(terms, terms.len());
    lemma_order(terms, terms.len());
    let at = lemma_alternatives(prefix, terms, order, terms.len());
    let m = scanner::plan_of(terms, flags);
    assert forall|x: usize|
        x < terms.len() && !is_covered(m.prefix, terms, x as int) implies #[trigger] at.contains(
        x,
    ) by {
        assert(order.contains(x));
        let j = choose|j: int| 0 <= j < order.len() && order[j] == x;
        assert(at.contains(order[j]));
    }
    assert forall|kw: scanner::KeywordModel| #[trigger]
        m.unless.contains(kw) == is_some_keyword(m.prefix, terms, kw) by {
        lemma_all_keywords(prefix, terms, terms.len(), kw);
    }
    at
}

// ---------------------------------------------------------------------------
// What a scan finds

/// What alternative `i` of a plan matches at the beginning of a text.
pub open spec fn found_by(
    m: scanner::PlanModel,
    i: int,
    before: Seq<char>,
    rest: Seq<char>,
) -> Option<Seq<char>> {
    pattern::matched(m.prefix + m.groups[i].1, before, rest)
}

/// Whether alternative `i` is the first that matches.
pub open spec fn is_first(
    m: scanner::PlanModel,
    i: int,
    before: Seq<char>,
    rest: Seq<char>,
) -> bool {
    &&& 0 <= i < m.groups.len()
    &&& found_by(m, i, before, rest) is Some
    &&& forall|j: int| 0 <= j < i ==> #[trigger] found_by(m, j, before, rest) is None
}

/// Whether keyword `k` is the first that a value of a terminal is.
pub open spec fn is_first_keyword(
    unless: Seq<scanner::KeywordModel>,
    k: int,
    id: SymbolId,
    v: Seq<char>,
) -> bool {
    &&& 0 <= k < unless.len()
    &&& unless[k].from == id && unless[k].value == v
    &&& forall|j: int|
        0 <= j < k ==> !((#[trigger] unless[j]).from == id && unless[j].value == v)
}

/// Whether a text that a terminal matches has a type: that of the first keyword that
/// it is, or that of the terminal where it is none.
pub open spec fn is_typed(
    unless: Seq<scanner::KeywordModel>,
    id: SymbolId,
    v: Seq<char>,
    t: SymbolId,
) -> bool {
    ||| exists|k: int| #[trigger] is_first_keyword(unless, k, id, v) && t == unless[k].to
    ||| t == id && forall|j: int|
        0 <= j < unless.len() ==> !((#[trigger] unless[j]).from == id && unless[j].value == v)
}

proof fn lemma_first_match(m: scanner::PlanModel, before: Seq<char>, rest: Seq<char>, i: int)
    requires
        0 <= i <= m.groups.len(),
        forall|j: int| 0 <= j < i ==> #[trigger] found_by(m, j, before, rest) is None,
    ensures
        match scanner::first_match(m, before, rest, i) {
            Some((id, v)) => exists|k: int| #[trigger]
                is_first(m, k, before, rest) && m.groups[k].0 == id && found_by(
                    m,
                    k,
                    before,
                    rest,
                ) == Some(v) && v.len() > 0,
            None => (forall|j: int|
                0 <= j < m.groups.len() ==> #[trigger] found_by(m, j, before, rest) is None)
                || exists|k: int| #[trigger]
                is_first(m, k, before, rest) && found_by(m, k, before, rest)->0.len() == 0,
        },
    decreases m.groups.len() - i,
{
    if i < m.groups.len() {
        if found_by(m, i, before, rest) is None {
            lemma_first_match(m, before, rest, i + 1);
        } else {
            assert(is_first(m, i, before, rest));
        }
    }
}

proof fn lemma_keyword_type(
    unless: Seq<scanner::KeywordModel>,
    id: SymbolId,
    v: Seq<char>,
    i: int,
)
    requires
        0 <= i <= unless.len(),
        forall|j: int|
            0 <= j < i ==> !((#[trigger] unless[j]).from == id && unless[j].value == v),
    ensures
        is_typed(unless, id, v, scanner::keyword_type(unless, id, v, i)),
    decreases unless.len() - i,
{
    if i < unless.len() {
        if unless[i].from == id && unless[i].value == v {
            assert(is_first_keyword(unless, i, id, v));
        } else {
            lemma_keyword_type(unless, id, v, i + 1);
        }
    }
}

/// A scan finds what the first alternative that matches finds, under its own type or
/// that of the first keyword that the text is. It finds nothing where no alternative
/// matches, or the first that does matches nothing.
pub proof fn scans_take_the_first_match(
    m: scanner::PlanModel,
    before: Seq<char>,
    rest: Seq<char>,
)
    ensures
        match scanner::scanned(m, before, rest) {
            Some((t, v)) => v.len() > 0 && exists|k: int| #[trigger]
                is_first(m, k, before, rest) && found_by(m, k, before, rest) == Some(v)
                    && is_typed(m.unless, m.groups[k].0, v, t),
            None => (forall|j: int|
                0 <= j < m.groups.len() ==> #[trigger] found_by(m, j, before, rest) is None)
                || exists|k: int| #[trigger]
                is_first(m, k, before, rest) && found_by(m, k, before, rest)->0.len() == 0,
        },
{
    lemma_first_match(m, before, rest, 0);
    if let Some((id, v)) = scanner::first_match(m, before, rest, 0) {
        let k = choose|k: int| #[trigger]
            is_first(m, k, before, rest) && m.groups[k].0 == id && found_by(m, k, before, rest)
                == Some(v) && v.len() > 0;
        assert(is_first(m, k, before, rest));
        lemma_keyword_type(m.unless, id, v, 0);
    }
}

// ---------------------------------------------------------------------------
// Which terminals a lexer knows

/// The terminals that a state admits are those listed for it or for all states, in the
/// order of their definitions.
pub proof fn states_admit_what_is_listed(
    terms: Seq<Terminal>,
    ids: Seq<SymbolId>,
    always: Seq<SymbolId>,
    k: nat,
)
    requires
        k <= terms.len(),
    ensures
        lexer::admitted(terms, ids, always, k) == terms.take(k as int).filter(
            |t: Terminal| ids.contains(t.id) || always.contains(t.id),
        ),
    decreases k,
{
    reveal(Seq::filter);
    let listed = |t: Terminal| ids.contains(t.id) || always.contains(t.id);
    if k > 0 {
        states_admit_what_is_listed(terms, ids, always, (k - 1) as nat);
        assert(terms.take(k as int).drop_last() =~= terms.take((k - 1) as int));
        assert(terms.take(k as int).last() == terms[k - 1]);
    } else {
        assert(terms.take(0) =~= Seq::empty());
        assert(lexer::admitted(terms, ids, always, 0) =~= terms.take(0).filter(listed));
    }
}

/// A lexer knows the terminals of its grammar that are more than declared, under the
/// ids of their names.
pub proof fn lexers_know_the_defined_terminals(g: CompiledGrammar, k: nat)
    requires
        k <= g.terminals@.len(),
    ensures
        ({
            let defs = g.terminals@.take(k as int).filter(|t: TerminalDef| !t.declared);
            let r = lexer::lexed_terminals(g, k);
            &&& r.len() == defs.len()
            &&& forall|i: int|
                #![trigger r[i]]
                0 <= i < r.len() ==> r[i].def == defs[i] && r[i].id == symbols::id_of(
                    g.symbols@,
                    defs[i].name@,
                )->0
        }),
    decreases k,
{
    reveal(Seq::filter);
    if k > 0 {
        lexers_know_the_defined_terminals(g, (k - 1) as nat);
        assert(g.terminals@.take(k as int).drop_last() =~= g.terminals@.take((k - 1) as int));
        assert(g.terminals@.take(k as int).last() == g.terminals@[k - 1]);
    }
}

/// Whether terminal `k` is the first that is configured under an id.
pub open spec fn is_first_under(terms: Seq<Terminal>, id: SymbolId, k: int) -> bool {
    &&& 0 <= k < terms.len()
    &&& terms[k].id == id
    &&& forall|j: int| 0 <= j < k ==> (#[trigger] terms[j]).id != id
}

proof fn lemma_terminal_match(
    m: lexer::MatcherModel,
    id: SymbolId,
    before: Seq<char>,
    rest: Seq<char>,
    k: int,
    i: int,
)
    requires
        is_first_under(m.terminals, id, k),
        0 <= i <= k,
    ensures
        lexer::terminal_match(m, id, before, rest, i) == lexer::terminal_match(
            m,
            id,
            before,
            rest,
            k,
        ),
    decreases k - i,
{
    if i < k {
        assert(m.terminals[i].id != id);
        lemma_terminal_match(m, id, before, rest, k, i + 1);
    }
}

proof fn lemma_no_match(
    m: lexer::MatcherModel,
    id: SymbolId,
    before: Seq<char>,
    rest: Seq<char>,
    i: int,
)
    requires
        forall|j: int| 0 <= j < m.terminals.len() ==> (#[trigger] m.terminals[j]).id != id,
    ensures
        lexer::terminal_match(m, id, before, rest, i) is None,
    decreases m.terminals.len() - i,
{
    if 0 <= i < m.terminals.len() {
        lemma_no_match(m, id, before, rest, i + 1);
    }
}

/// A terminal that is asked for alone matches what the pattern of the first terminal
/// under its id matches, if that is something; an id without a terminal matches
/// nothing.
pub proof fn single_terminals_are_matched(
    m: lexer::MatcherModel,
    id: SymbolId,
    before: Seq<char>,
    rest: Seq<char>,
    k: int,
)
    ensures
        is_first_under(m.terminals, id, k) ==> lexer::terminal_match(m, id, before, rest, 0)
            == match pattern::matched(
            m.prefix + pattern::inline_of(m.terminals[k].def.pattern),
            before,
            rest,
        ) {
            Some(v) if v.len() > 0 => Some(v),
            _ => None,
        },
        (forall|j: int| 0 <= j < m.terminals.len() ==> (#[trigger] m.terminals[j]).id != id)
            ==> lexer::terminal_match(m, id, before, rest, 0) is None,
{
    if is_first_under(m.terminals, id, k) {
        lemma_terminal_match(m, id, before, rest, k, 0);
    }
    if forall|j: int| 0 <= j < m.terminals.len() ==> (#[trigger] m.terminals[j]).id != id {
        lemma_no_match(m, id, before, rest, 0);
    }
}

} // verus!
