//! The chart of a text that is parsed without a lexer: it holds exactly what the
//! grammar derives along the matches of its terminals.

use vstd::prelude::*;
use crate::analysis;
use crate::earley_chain;
use crate::earley_chart;
use crate::earley_complete;
use crate::earley_dynamic;
use crate::earley_exact;
use crate::earley_forest;
use crate::earley_forest::{ForestRef, Item, NodeKey, Packed, Trans};
use crate::earley_leo;
use crate::earley_paths;
use crate::earley_places;
use crate::earley_reach;
use crate::earley_recognizer;
use crate::earley_shape;
use crate::earley_sound;
use crate::lexer;
use crate::reading;
use crate::symbols::SymbolId;
use crate::tree;

verus! {

// ---------------------------------------------------------------------------
// What is read along a text

/// What the terminal `s` matches at position `a` of a text.
pub open spec fn matched(input: earley_dynamic::Input, s: SymbolId, a: int) -> Option<Seq<char>> {
    lexer::terminal_match(input.matcher, s, input.text.take(a), input.text.skip(a), 0)
}

/// What the terminal `s` matches at position `a` of a text within `k` characters.
pub open spec fn matched_within(
    input: earley_dynamic::Input,
    s: SymbolId,
    a: int,
    k: int,
) -> Option<Seq<char>> {
    lexer::terminal_match(input.matcher, s, Seq::empty(), input.text.subrange(a, a + k), 0)
}

/// Whether a match from position `a` ends at position `b`.
pub open spec fn ends_at(v: Option<Seq<char>>, a: int, b: int) -> bool {
    match v {
        Some(u) => b == a + u.len(),
        None => false,
    }
}

/// Whether a match of `s` within `k` characters from position `a` ends at `b`.
pub open spec fn ends_within(
    input: earley_dynamic::Input,
    s: SymbolId,
    a: int,
    k: int,
    b: int,
) -> bool {
    ends_at(matched_within(input, s, a, k), a, b)
}

/// Whether a token of the terminal `s` lies from `a` to `b`: the terminal's match
/// at `a` ends at `b`, or, where shorter matches count, a match within fewer
/// characters than that does.
pub open spec fn is_token(input: earley_dynamic::Input, s: SymbolId, a: int, b: int) -> bool {
    ||| ends_at(matched(input, s, a), a, b)
    ||| input.complete && (match matched(input, s, a) {
        Some(v) => exists|k: int| 1 <= k < v.len() && #[trigger] ends_within(input, s, a, k, b),
        None => false,
    })
}

/// Whether a value is what the terminal `s` matches at position `a`, or, where
/// shorter matches count, within fewer characters than that.
pub open spec fn is_value(
    input: earley_dynamic::Input,
    s: SymbolId,
    a: int,
    v: Seq<char>,
) -> bool {
    ||| matched(input, s, a) == Some(v)
    ||| input.complete && (match matched(input, s, a) {
        Some(u) => exists|k: int|
            1 <= k < u.len() && #[trigger] matched_within(input, s, a, k) == Some(v),
        None => false,
    })
}

/// Whether a token is one that lies from `a` to `b`: with its type, its value and
/// its place.
pub open spec fn is_token_model(
    input: earley_dynamic::Input,
    a: int,
    b: int,
    t: tree::TokenModel,
) -> bool {
    exists|v: Seq<char>| #[trigger]
        is_value(input, t.type_id, a, v) && b == a + v.len() && t == earley_dynamic::token_from(
            input,
            t.type_id,
            v,
            a,
        )
}

/// Whether what lies from `a` to `b` is a match of an ignored terminal.
pub open spec fn is_ignored(input: earley_dynamic::Input, a: int, b: int) -> bool {
    exists|k: int|
        0 <= k < input.matcher.ignore.len() && ends_at(
            matched(input, #[trigger] input.matcher.ignore[k], a),
            a,
            b,
        )
}

/// A text by what its terminals match, to be read as `aim`.
pub open spec fn of_text(input: earley_dynamic::Input, aim: SymbolId) -> reading::Reading {
    reading::Reading {
        size: input.text.len(),
        aim,
        tok: |a: int, b: int, s: SymbolId| is_token(input, s, a, b),
        lies: |a: int, b: int, t: tree::TokenModel| is_token_model(input, a, b, t),
        gap: |a: int, b: int| is_ignored(input, a, b),
    }
}

/// Whether a text is a sentence: tokens whose types the start symbol derives fill
/// it in order, with only matches of ignored terminals before, between and after
/// them.
pub open spec fn is_text_sentence(
    g: earley_chart::Context,
    start: SymbolId,
    input: earley_dynamic::Input,
) -> bool {
    exists|w: Seq<SymbolId>|
        #[trigger] reading::is_read(of_text(input, start), 0, input.text.len() as int, w)
            && analysis::derives(g.rules, g.nt, start, w)
}

/// A match is of something.
pub proof fn lemma_match_some(
    m: lexer::MatcherModel,
    id: SymbolId,
    before: Seq<char>,
    rest: Seq<char>,
    i: int,
)
    ensures
        lexer::terminal_match(m, id, before, rest, i) matches Some(v) ==> v.len() > 0,
    decreases m.terminals.len() - i,
{
    if 0 <= i < m.terminals.len() && m.terminals[i].id != id {
        lemma_match_some(m, id, before, rest, i + 1);
    }
}

// ---------------------------------------------------------------------------
// What is kept

/// Whether an item, to be moved over a token, is kept for step `e`.
pub open spec fn keeps_token(
    p: Seq<Option<Seq<earley_dynamic::DelayedModel>>>,
    e: int,
    x: Item,
) -> bool {
    exists|k: int|
        0 <= k < earley_dynamic::kept_for(p, e).len() && is_token_of(
            #[trigger] earley_dynamic::kept_for(p, e)[k],
            x,
        )
}

/// Whether the thing kept moves an item over a token.
pub open spec fn is_token_of(d: earley_dynamic::DelayedModel, x: Item) -> bool {
    match d {
        earley_dynamic::DelayedModel::Tok(y, _) => y == x,
        earley_dynamic::DelayedModel::Carry(_) => false,
    }
}

/// Whether an item, to stand past what is ignored, is kept for step `e`.
pub open spec fn keeps_carry(
    p: Seq<Option<Seq<earley_dynamic::DelayedModel>>>,
    e: int,
    x: Item,
) -> bool {
    exists|k: int|
        0 <= k < earley_dynamic::kept_for(p, e).len() && #[trigger] earley_dynamic::kept_for(
            p,
            e,
        )[k] == earley_dynamic::DelayedModel::Carry(x)
}

/// Whether an item of column `c` waits for a token that lies from there to `e`.
pub open spec fn token_from(
    g: earley_chart::Context,
    l: reading::Reading,
    c: int,
    e: int,
    x: Item,
) -> bool {
    &&& earley_sound::item_derived(g, l, c, x)
    &&& earley_chart::wants_terminal(g, x)
    &&& reading::tok_at(l, c, e, earley_chart::expected(g, x)->0)
}

/// Whether an item of column `c` stands past what is ignored from there to `e`.
pub open spec fn carry_from(
    g: earley_chart::Context,
    start: SymbolId,
    l: reading::Reading,
    c: int,
    e: int,
    x: Item,
) -> bool {
    &&& earley_sound::item_derived(g, l, c, x)
    &&& earley_exact::stands(g, start, x)
    &&& reading::gap_at(l, c, e)
}

/// Whether each item of column `c` is in order.
pub open spec fn are_ok(ok: spec_fn(int, Item) -> bool, c: int, s: Seq<Item>) -> bool {
    forall|k: int| 0 <= k < s.len() ==> ok(c, #[trigger] s[k])
}

/// Whether an item of column `c`, in order there, is moved over a token that lies
/// from there to `e`.
pub open spec fn token_source(
    g: earley_chart::Context,
    ok: spec_fn(int, Item) -> bool,
    l: reading::Reading,
    c: int,
    e: int,
    x: Item,
    t: tree::TokenModel,
) -> bool {
    &&& token_from(g, l, c, e, x)
    &&& ok(c, x)
    &&& (l.lies)(c, e, t)
    &&& earley_chart::expected(g, x) == Some(t.type_id)
}

/// Whether an item of column `c`, in order there, is carried past what is ignored
/// from there to `e`.
pub open spec fn carry_source(
    g: earley_chart::Context,
    start: SymbolId,
    ok: spec_fn(int, Item) -> bool,
    l: reading::Reading,
    c: int,
    e: int,
    x: Item,
) -> bool {
    carry_from(g, start, l, c, e, x) && ok(c, x)
}

/// Whether an item in order is moved over a token that lies up to `e`.
pub open spec fn has_token_source(
    g: earley_chart::Context,
    ok: spec_fn(int, Item) -> bool,
    l: reading::Reading,
    e: int,
    x: Item,
    t: tree::TokenModel,
) -> bool {
    exists|c: int| #[trigger] token_source(g, ok, l, c, e, x, t)
}

/// Whether an item in order is carried past what is ignored up to `e`.
pub open spec fn has_carry_source(
    g: earley_chart::Context,
    start: SymbolId,
    ok: spec_fn(int, Item) -> bool,
    l: reading::Reading,
    e: int,
    x: Item,
) -> bool {
    exists|c: int| #[trigger] carry_source(g, start, ok, l, c, e, x)
}

/// Whether what is kept for step `e` comes of an item and a match.
pub open spec fn delayed_sound(
    g: earley_chart::Context,
    start: SymbolId,
    ok: spec_fn(int, Item) -> bool,
    l: reading::Reading,
    e: int,
    d: earley_dynamic::DelayedModel,
) -> bool {
    match d {
        earley_dynamic::DelayedModel::Tok(x, t) => has_token_source(g, ok, l, e, x, t),
        earley_dynamic::DelayedModel::Carry(x) => has_carry_source(g, start, ok, l, e, x),
    }
}

proof fn lemma_token_sound(
    g: earley_chart::Context,
    start: SymbolId,
    ok: spec_fn(int, Item) -> bool,
    l: reading::Reading,
    c: int,
    e: int,
    x: Item,
    t: tree::TokenModel,
)
    requires
        token_source(g, ok, l, c, e, x, t),
    ensures
        delayed_sound(g, start, ok, l, e, earley_dynamic::DelayedModel::Tok(x, t)),
{
    assert(has_token_source(g, ok, l, e, x, t));
}

/// Whether all that is kept comes of items and matches.
pub open spec fn pending_sound(
    g: earley_chart::Context,
    start: SymbolId,
    ok: spec_fn(int, Item) -> bool,
    l: reading::Reading,
    p: Seq<Option<Seq<earley_dynamic::DelayedModel>>>,
) -> bool {
    &&& p.len() == l.size + 1
    &&& forall|e: int, k: int|
        0 <= e < p.len() && 0 <= k < earley_dynamic::kept_for(p, e).len() ==> delayed_sound(
            g,
            start,
            ok,
            l,
            e,
            #[trigger] earley_dynamic::kept_for(p, e)[k],
        )
}

/// Whether the items of the first `n` columns are kept for all steps after `i`
/// that a match of theirs ends at.
pub open spec fn pending_full(
    g: earley_chart::Context,
    start: SymbolId,
    l: reading::Reading,
    hist: Seq<Seq<Item>>,
    p: Seq<Option<Seq<earley_dynamic::DelayedModel>>>,
    n: int,
    i: int,
) -> bool {
    &&& forall|c: int, e: int, x: Item|
        0 <= c < n && i < e && hist[c].contains(x) && earley_chart::wants_terminal(g, x)
            && reading::tok_at(l, c, e, earley_chart::expected(g, x)->0)
            ==> #[trigger] token_kept(p, c, e, x)
    &&& forall|c: int, e: int, x: Item|
        0 <= c < n && i < e && hist[c].contains(x) && earley_exact::stands(g, start, x)
            && reading::gap_at(l, c, e) ==> #[trigger] carry_kept(p, c, e, x)
}

/// Whether an item of column `c`, to be moved over a token, is kept for step `e`.
pub open spec fn token_kept(
    p: Seq<Option<Seq<earley_dynamic::DelayedModel>>>,
    c: int,
    e: int,
    x: Item,
) -> bool {
    keeps_token(p, e, x)
}

/// Whether an item of column `c`, to stand past what is ignored, is kept for `e`.
pub open spec fn carry_kept(
    p: Seq<Option<Seq<earley_dynamic::DelayedModel>>>,
    c: int,
    e: int,
    x: Item,
) -> bool {
    keeps_carry(p, e, x)
}

/// Whether all that `p` keeps for step `e` `q` keeps too.
pub open spec fn step_more(
    p: Seq<Option<Seq<earley_dynamic::DelayedModel>>>,
    q: Seq<Option<Seq<earley_dynamic::DelayedModel>>>,
    e: int,
) -> bool {
    earley_complete::continues(earley_dynamic::kept_for(p, e), earley_dynamic::kept_for(q, e))
}

/// Whether all that `p` keeps `q` keeps.
pub open spec fn kept_more(
    p: Seq<Option<Seq<earley_dynamic::DelayedModel>>>,
    q: Seq<Option<Seq<earley_dynamic::DelayedModel>>>,
) -> bool {
    p.len() == q.len() && forall|e: int| 0 <= e < p.len() ==> #[trigger] step_more(p, q, e)
}

proof fn lemma_more_self(p: Seq<Option<Seq<earley_dynamic::DelayedModel>>>)
    ensures
        kept_more(p, p),
{
    assert forall|e: int| 0 <= e < p.len() implies #[trigger] step_more(p, p, e) by {
        earley_complete::lemma_continues_refl(earley_dynamic::kept_for(p, e));
    }
}

proof fn lemma_more_trans(
    p: Seq<Option<Seq<earley_dynamic::DelayedModel>>>,
    q: Seq<Option<Seq<earley_dynamic::DelayedModel>>>,
    r: Seq<Option<Seq<earley_dynamic::DelayedModel>>>,
)
    requires
        kept_more(p, q),
        kept_more(q, r),
    ensures
        kept_more(p, r),
{
    assert forall|e: int| 0 <= e < p.len() implies #[trigger] step_more(p, r, e) by {
        assert(step_more(p, q, e));
        assert(step_more(q, r, e));
        earley_complete::lemma_continues_trans(
            earley_dynamic::kept_for(p, e),
            earley_dynamic::kept_for(q, e),
            earley_dynamic::kept_for(r, e),
        );
    }
}

proof fn lemma_token_more(
    p: Seq<Option<Seq<earley_dynamic::DelayedModel>>>,
    q: Seq<Option<Seq<earley_dynamic::DelayedModel>>>,
    e: int,
    x: Item,
)
    requires
        kept_more(p, q),
        0 <= e < p.len(),
    ensures
        keeps_token(p, e, x) ==> keeps_token(q, e, x),
        keeps_carry(p, e, x) ==> keeps_carry(q, e, x),
{
    assert(step_more(p, q, e));
    if keeps_token(p, e, x) {
        let k = choose|k: int|
            0 <= k < earley_dynamic::kept_for(p, e).len() && is_token_of(
                #[trigger] earley_dynamic::kept_for(p, e)[k],
                x,
            );
        earley_complete::lemma_continues_index(
            earley_dynamic::kept_for(p, e),
            earley_dynamic::kept_for(q, e),
            k,
        );
    }
    if keeps_carry(p, e, x) {
        let k = choose|k: int|
            0 <= k < earley_dynamic::kept_for(p, e).len() && #[trigger] earley_dynamic::kept_for(
                p,
                e,
            )[k] == earley_dynamic::DelayedModel::Carry(x);
        earley_complete::lemma_continues_index(
            earley_dynamic::kept_for(p, e),
            earley_dynamic::kept_for(q, e),
            k,
        );
    }
}

proof fn lemma_delayed_keeps(
    g: earley_chart::Context,
    start: SymbolId,
    ok: spec_fn(int, Item) -> bool,
    l: reading::Reading,
    p: Seq<Option<Seq<earley_dynamic::DelayedModel>>>,
    e: int,
    d: earley_dynamic::DelayedModel,
)
    requires
        pending_sound(g, start, ok, l, p),
        0 <= e < p.len() ==> delayed_sound(g, start, ok, l, e, d),
    ensures
        pending_sound(g, start, ok, l, earley_dynamic::delayed(p, e, d)),
        kept_more(p, earley_dynamic::delayed(p, e, d)),
        0 <= e < p.len() ==> match d {
            earley_dynamic::DelayedModel::Tok(x, _) => keeps_token(
                earley_dynamic::delayed(p, e, d),
                e,
                x,
            ),
            earley_dynamic::DelayedModel::Carry(x) => keeps_carry(
                earley_dynamic::delayed(p, e, d),
                e,
                x,
            ),
        },
{
    let q = earley_dynamic::delayed(p, e, d);
    if 0 <= e < p.len() {
        let n = earley_dynamic::kept_for(p, e).len() as int;
        assert(earley_dynamic::kept_for(q, e)[n] == d);
        assert forall|x: int, k: int|
            0 <= x < q.len() && 0 <= k < earley_dynamic::kept_for(q, x).len() implies delayed_sound(
            g,
            start,
            ok,
            l,
            x,
            #[trigger] earley_dynamic::kept_for(q, x)[k],
        ) by {
            if x != e {
                assert(earley_dynamic::kept_for(q, x) == earley_dynamic::kept_for(p, x));
                assert(delayed_sound(g, start, ok, l, x, earley_dynamic::kept_for(p, x)[k]));
            } else if k < n {
                assert(delayed_sound(g, start, ok, l, x, earley_dynamic::kept_for(p, x)[k]));
            }
        }
        assert forall|x: int| 0 <= x < p.len() implies #[trigger] step_more(p, q, x) by {
            if x != e {
                assert(earley_dynamic::kept_for(q, x) == earley_dynamic::kept_for(p, x));
                earley_complete::lemma_continues_refl(earley_dynamic::kept_for(p, x));
            } else {
                earley_complete::lemma_continues_push(earley_dynamic::kept_for(p, x), d);
            }
        }
    } else {
        lemma_more_self(p);
    }
}

proof fn lemma_opened_keeps(
    g: earley_chart::Context,
    start: SymbolId,
    ok: spec_fn(int, Item) -> bool,
    l: reading::Reading,
    p: Seq<Option<Seq<earley_dynamic::DelayedModel>>>,
    e: int,
)
    requires
        pending_sound(g, start, ok, l, p),
    ensures
        pending_sound(g, start, ok, l, earley_dynamic::opened(p, e)),
        kept_more(p, earley_dynamic::opened(p, e)),
{
    let q = earley_dynamic::opened(p, e);
    lemma_more_self(p);
    if 0 <= e < p.len() {
        assert forall|x: int| 0 <= x < p.len() implies #[trigger] step_more(p, q, x) by {
            assert(earley_dynamic::kept_for(q, x) == earley_dynamic::kept_for(p, x));
            assert(step_more(p, p, x));
        }
        assert forall|x: int| 0 <= x < p.len() implies #[trigger] earley_dynamic::kept_for(q, x)
            == earley_dynamic::kept_for(p, x) by {
        }
        assert forall|x: int, k: int|
            0 <= x < q.len() && 0 <= k < earley_dynamic::kept_for(q, x).len() implies delayed_sound(
            g,
            start,
            ok,
            l,
            x,
            #[trigger] earley_dynamic::kept_for(q, x)[k],
        ) by {
            assert(delayed_sound(g, start, ok, l, x, earley_dynamic::kept_for(p, x)[k]));
        }
    }
}

// ---------------------------------------------------------------------------
// Matches at a column

proof fn lemma_shorter_kept(
    g: earley_chart::Context,
    start: SymbolId,
    ok: spec_fn(int, Item) -> bool,
    input: earley_dynamic::Input,
    item: Item,
    term: SymbolId,
    i: int,
    p: Seq<Option<Seq<earley_dynamic::DelayedModel>>>,
    k: nat,
)
    requires
        0 <= i < input.text.len(),
        pending_sound(g, start, ok, of_text(input, start), p),
        earley_sound::item_derived(g, of_text(input, start), i, item),
        ok(i, item),
        earley_chart::wants_terminal(g, item),
        earley_chart::expected(g, item) == Some(term),
        input.complete,
        matched(input, term, i) matches Some(v) && k < v.len(),
    ensures
        ({
            let q = earley_dynamic::shorter_queued(input, item, term, i, p, k);
            &&& pending_sound(g, start, ok, of_text(input, start), q)
            &&& kept_more(p, q)
            &&& forall|j: int, e: int|
                1 <= j <= k && e <= input.text.len() && #[trigger] ends_within(
                    input,
                    term,
                    i,
                    j,
                    e,
                ) ==> keeps_token(q, e, item)
        }),
    decreases k,
{
    let l = of_text(input, start);
    let q = earley_dynamic::shorter_queued(input, item, term, i, p, k);
    if k == 0 {
        lemma_more_self(p);
    } else {
        let h = (k - 1) as nat;
        lemma_shorter_kept(g, start, ok, input, item, term, i, p, h);
        let before = earley_dynamic::shorter_queued(input, item, term, i, p, h);
        lemma_match_some(
            input.matcher,
            term,
            Seq::empty(),
            input.text.subrange(i, i + k),
            0,
        );
        if let Some(u) = matched_within(input, term, i, k as int) {
            let e = (i + u.len()) as int;
            let d = earley_dynamic::DelayedModel::Tok(
                item,
                earley_dynamic::token_from(input, term, u, i),
            );
            if 0 <= e < p.len() {
                assert(ends_within(input, term, i, k as int, e));
                assert(is_token(input, term, i, e));
                assert(reading::tok_at(l, i, e, term));
                assert(token_from(g, l, i, e, item));
                assert(is_value(input, term, i, u));
                let t = earley_dynamic::token_from(input, term, u, i);
                assert(t.type_id == term);
                assert(is_token_model(input, i, e, t));
                assert((l.lies)(i, e, t));
                assert(token_source(g, ok, l, i, e, item, t));
                lemma_token_sound(g, start, ok, l, i, e, item, t);
            }
            lemma_delayed_keeps(g, start, ok, l, before, e, d);
            lemma_more_trans(p, before, q);
            assert forall|j: int, e2: int|
                1 <= j <= k && e2 <= input.text.len() && #[trigger] ends_within(
                    input,
                    term,
                    i,
                    j,
                    e2,
                ) implies keeps_token(q, e2, item) by {
                lemma_match_some(
                    input.matcher,
                    term,
                    Seq::empty(),
                    input.text.subrange(i, i + j),
                    0,
                );
                if j < k {
                    lemma_token_more(before, q, e2, item);
                }
            }
        }
    }
}

proof fn lemma_item_kept(
    g: earley_chart::Context,
    start: SymbolId,
    ok: spec_fn(int, Item) -> bool,
    input: earley_dynamic::Input,
    item: Item,
    i: int,
    p: Seq<Option<Seq<earley_dynamic::DelayedModel>>>,
)
    requires
        0 <= i < input.text.len(),
        pending_sound(g, start, ok, of_text(input, start), p),
        earley_sound::item_derived(g, of_text(input, start), i, item),
        ok(i, item),
        earley_chart::wants_terminal(g, item),
    ensures
        ({
            let q = earley_dynamic::item_queued(g, input, item, i, p);
            &&& pending_sound(g, start, ok, of_text(input, start), q)
            &&& kept_more(p, q)
            &&& forall|e: int|
                reading::tok_at(
                    of_text(input, start),
                    i,
                    e,
                    earley_chart::expected(g, item)->0,
                ) ==> #[trigger] keeps_token(q, e, item)
        }),
{
    let l = of_text(input, start);
    let q = earley_dynamic::item_queued(g, input, item, i, p);
    let term = earley_chart::expected(g, item)->0;
    match matched(input, term, i) {
        None => {
            lemma_more_self(p);
        },
        Some(v) => {
            lemma_match_some(input.matcher, term, input.text.take(i), input.text.skip(i), 0);
            let e = (i + v.len()) as int;
            let d = earley_dynamic::DelayedModel::Tok(
                item,
                earley_dynamic::token_from(input, term, v, i),
            );
            let r = earley_dynamic::delayed(p, e, d);
            if 0 <= e < p.len() {
                assert(is_token(input, term, i, e));
                assert(reading::tok_at(l, i, e, term));
                assert(token_from(g, l, i, e, item));
                assert(is_value(input, term, i, v));
                let t = earley_dynamic::token_from(input, term, v, i);
                assert(t.type_id == term);
                assert(is_token_model(input, i, e, t));
                assert((l.lies)(i, e, t));
                assert(token_source(g, ok, l, i, e, item, t));
                lemma_token_sound(g, start, ok, l, i, e, item, t);
            }
            lemma_delayed_keeps(g, start, ok, l, p, e, d);
            if input.complete {
                lemma_shorter_kept(g, start, ok, input, item, term, i, r, (v.len() - 1) as nat);
                lemma_more_trans(p, r, q);
            }
            assert forall|e2: int| reading::tok_at(l, i, e2, term) implies #[trigger] keeps_token(
                q,
                e2,
                item,
            ) by {
                assert(is_token(input, term, i, e2));
                if e2 == e {
                    if input.complete {
                        lemma_token_more(r, q, e2, item);
                    }
                } else {
                    let k = choose|k: int|
                        1 <= k < v.len() && #[trigger] ends_within(input, term, i, k, e2);
                    assert(keeps_token(q, e2, item));
                }
            }
        },
    }
}

proof fn lemma_items_kept(
    g: earley_chart::Context,
    start: SymbolId,
    ok: spec_fn(int, Item) -> bool,
    input: earley_dynamic::Input,
    items: Seq<Item>,
    i: int,
    p: Seq<Option<Seq<earley_dynamic::DelayedModel>>>,
    k: nat,
)
    requires
        0 <= i < input.text.len(),
        pending_sound(g, start, ok, of_text(input, start), p),
        earley_sound::items_derived(g, of_text(input, start), i, items),
        are_ok(ok, i, items),
        forall|q: int| 0 <= q < items.len() ==> earley_chart::wants_terminal(g, #[trigger] items[q]),
        k <= items.len(),
    ensures
        ({
            let q = earley_dynamic::items_queued(g, input, items, i, p, k);
            &&& pending_sound(g, start, ok, of_text(input, start), q)
            &&& kept_more(p, q)
            &&& forall|j: int, e: int|
                0 <= j < k && reading::tok_at(
                    of_text(input, start),
                    i,
                    e,
                    earley_chart::expected(g, items[j])->0,
                ) ==> #[trigger] keeps_token(q, e, items[j])
        }),
    decreases k,
{
    let l = of_text(input, start);
    let q = earley_dynamic::items_queued(g, input, items, i, p, k);
    if k == 0 {
        lemma_more_self(p);
    } else {
        let h = (k - 1) as nat;
        lemma_items_kept(g, start, ok, input, items, i, p, h);
        let before = earley_dynamic::items_queued(g, input, items, i, p, h);
        assert(earley_chart::wants_terminal(g, items[k - 1]));
        lemma_item_kept(g, start, ok, input, items[k - 1], i, before);
        lemma_more_trans(p, before, q);
        assert forall|j: int, e: int|
            0 <= j < k && reading::tok_at(
                l,
                i,
                e,
                earley_chart::expected(g, items[j])->0,
            ) implies #[trigger] keeps_token(q, e, items[j]) by {
            if j < k - 1 {
                assert(keeps_token(before, e, items[j]));
                lemma_token_more(before, q, e, items[j]);
            }
        }
    }
}

proof fn lemma_all_carried(
    g: earley_chart::Context,
    start: SymbolId,
    ok: spec_fn(int, Item) -> bool,
    l: reading::Reading,
    items: Seq<Item>,
    i: int,
    e: int,
    p: Seq<Option<Seq<earley_dynamic::DelayedModel>>>,
    k: nat,
)
    requires
        pending_sound(g, start, ok, l, p),
        earley_sound::items_derived(g, l, i, items),
        are_ok(ok, i, items),
        forall|q: int| 0 <= q < items.len() ==> earley_chart::wants_terminal(g, #[trigger] items[q]),
        k <= items.len(),
        0 <= e < p.len() ==> reading::gap_at(l, i, e),
    ensures
        ({
            let q = earley_dynamic::all_carried(items, e, p, k);
            &&& pending_sound(g, start, ok, l, q)
            &&& kept_more(p, q)
            &&& 0 <= e < p.len() ==> forall|j: int|
                0 <= j < k ==> keeps_carry(q, e, #[trigger] items[j])
        }),
    decreases k,
{
    let q = earley_dynamic::all_carried(items, e, p, k);
    if k == 0 {
        lemma_more_self(p);
    } else {
        let h = (k - 1) as nat;
        lemma_all_carried(g, start, ok, l, items, i, e, p, h);
        let before = earley_dynamic::all_carried(items, e, p, h);
        let x = items[k - 1];
        assert(earley_chart::wants_terminal(g, items[k - 1]));
        if 0 <= e < p.len() {
            assert(carry_source(g, start, ok, l, i, e, x));
        }
        lemma_delayed_keeps(g, start, ok, l, before, e, earley_dynamic::DelayedModel::Carry(x));
        lemma_more_trans(p, before, q);
        if 0 <= e < p.len() {
            assert forall|j: int| 0 <= j < k implies keeps_carry(q, e, #[trigger] items[j]) by {
                if j < k - 1 {
                    lemma_token_more(before, q, e, items[j]);
                }
            }
        }
    }
}

proof fn lemma_wholes_carried(
    g: earley_chart::Context,
    start: SymbolId,
    ok: spec_fn(int, Item) -> bool,
    l: reading::Reading,
    items: Seq<Item>,
    i: int,
    e: int,
    p: Seq<Option<Seq<earley_dynamic::DelayedModel>>>,
    k: nat,
)
    requires
        pending_sound(g, start, ok, l, p),
        earley_sound::items_derived(g, l, i, items),
        are_ok(ok, i, items),
        k <= items.len(),
        0 <= e < p.len() ==> reading::gap_at(l, i, e),
    ensures
        ({
            let q = earley_dynamic::wholes_carried(g, start, items, e, p, k);
            &&& pending_sound(g, start, ok, l, q)
            &&& kept_more(p, q)
            &&& 0 <= e < p.len() ==> forall|j: int|
                0 <= j < k && earley_dynamic::is_whole(g, start, items[j]) ==> keeps_carry(
                    q,
                    e,
                    #[trigger] items[j],
                )
        }),
    decreases k,
{
    let q = earley_dynamic::wholes_carried(g, start, items, e, p, k);
    if k == 0 {
        lemma_more_self(p);
    } else {
        let h = (k - 1) as nat;
        lemma_wholes_carried(g, start, ok, l, items, i, e, p, h);
        let before = earley_dynamic::wholes_carried(g, start, items, e, p, h);
        let x = items[k - 1];
        if earley_dynamic::is_whole(g, start, x) {
            if 0 <= e < p.len() {
                assert(carry_source(g, start, ok, l, i, e, x));
            }
            lemma_delayed_keeps(g, start, ok, l, before, e, earley_dynamic::DelayedModel::Carry(x));
            lemma_more_trans(p, before, q);
            if 0 <= e < p.len() {
                assert forall|j: int|
                    0 <= j < k && earley_dynamic::is_whole(g, start, items[j]) implies keeps_carry(
                    q,
                    e,
                    #[trigger] items[j],
                ) by {
                    if j < k - 1 {
                        lemma_token_more(before, q, e, items[j]);
                    }
                }
            }
        }
    }
}

proof fn lemma_ignored_kept(
    g: earley_chart::Context,
    start: SymbolId,
    ok: spec_fn(int, Item) -> bool,
    input: earley_dynamic::Input,
    m: earley_chart::ChartModel,
    i: int,
    p: Seq<Option<Seq<earley_dynamic::DelayedModel>>>,
    k: nat,
)
    requires
        0 <= i < input.text.len(),
        pending_sound(g, start, ok, of_text(input, start), p),
        earley_sound::items_derived(g, of_text(input, start), i, m.scan),
        earley_sound::items_derived(g, of_text(input, start), i, m.columns[i]),
        are_ok(ok, i, m.scan),
        are_ok(ok, i, m.columns[i]),
        forall|q: int| 0 <= q < m.scan.len() ==> earley_chart::wants_terminal(g, #[trigger] m.scan[q]),
        k <= input.matcher.ignore.len(),
    ensures
        ({
            let q = earley_dynamic::ignored_queued(g, start, input, m, i, p, k);
            &&& pending_sound(g, start, ok, of_text(input, start), q)
            &&& kept_more(p, q)
            &&& forall|t: int, e: int, j: int|
                0 <= t < k && e <= input.text.len() && #[trigger] ends_at(
                    matched(input, input.matcher.ignore[t], i),
                    i,
                    e,
                ) && 0 <= j < m.scan.len() ==> keeps_carry(q, e, #[trigger] m.scan[j])
            &&& forall|t: int, e: int, j: int|
                0 <= t < k && e <= input.text.len() && #[trigger] ends_at(
                    matched(input, input.matcher.ignore[t], i),
                    i,
                    e,
                ) && 0 <= j < m.columns[i].len() && earley_dynamic::is_whole(
                    g,
                    start,
                    m.columns[i][j],
                ) ==> keeps_carry(q, e, #[trigger] m.columns[i][j])
        }),
    decreases k,
{
    let l = of_text(input, start);
    let q = earley_dynamic::ignored_queued(g, start, input, m, i, p, k);
    if k == 0 {
        lemma_more_self(p);
    } else {
        let h = (k - 1) as nat;
        lemma_ignored_kept(g, start, ok, input, m, i, p, h);
        let before = earley_dynamic::ignored_queued(g, start, input, m, i, p, h);
        let s = input.matcher.ignore[k - 1];
        if let Some(v) = matched(input, s, i) {
            lemma_match_some(input.matcher, s, input.text.take(i), input.text.skip(i), 0);
            let e = (i + v.len()) as int;
            if 0 <= e < p.len() {
                assert(ends_at(matched(input, input.matcher.ignore[k - 1], i), i, e));
                assert(is_ignored(input, i, e));
                assert(reading::gap_at(l, i, e));
            }
            let a = earley_dynamic::opened(before, e);
            lemma_opened_keeps(g, start, ok, l, before, e);
            let b = earley_dynamic::all_carried(m.scan, e, a, m.scan.len());
            lemma_all_carried(g, start, ok, l, m.scan, i, e, a, m.scan.len());
            lemma_wholes_carried(g, start, ok, l, m.columns[i], i, e, b, m.columns[i].len());
            lemma_more_trans(before, a, b);
            lemma_more_trans(before, b, q);
            lemma_more_trans(p, before, q);
            assert forall|t: int, e2: int, j: int|
                0 <= t < k && e2 <= input.text.len() && #[trigger] ends_at(
                    matched(input, input.matcher.ignore[t], i),
                    i,
                    e2,
                ) && 0 <= j < m.scan.len() implies keeps_carry(q, e2, #[trigger] m.scan[j]) by {
                if t < k - 1 {
                    assert(keeps_carry(before, e2, m.scan[j]));
                    lemma_token_more(before, q, e2, m.scan[j]);
                } else {
                    lemma_token_more(b, q, e2, m.scan[j]);
                }
            }
            assert forall|t: int, e2: int, j: int|
                0 <= t < k && e2 <= input.text.len() && #[trigger] ends_at(
                    matched(input, input.matcher.ignore[t], i),
                    i,
                    e2,
                ) && 0 <= j < m.columns[i].len() && earley_dynamic::is_whole(
                    g,
                    start,
                    m.columns[i][j],
                ) implies keeps_carry(q, e2, #[trigger] m.columns[i][j]) by {
                if t < k - 1 {
                    assert(keeps_carry(before, e2, m.columns[i][j]));
                    lemma_token_more(before, q, e2, m.columns[i][j]);
                }
            }
        }
    }
}

proof fn lemma_tokens_queued(
    g: earley_chart::Context,
    start: SymbolId,
    l: reading::Reading,
    m: earley_chart::ChartModel,
    hist: Seq<Seq<Item>>,
    p: Seq<Option<Seq<earley_dynamic::DelayedModel>>>,
    a: Seq<Option<Seq<earley_dynamic::DelayedModel>>>,
    q: Seq<Option<Seq<earley_dynamic::DelayedModel>>>,
    i: int,
)
    requires
        0 <= i < hist.len(),
        hist[i] == m.columns[i] + m.scan,
        earley_exact::no_terminals(g, m, i),
        pending_full(g, start, l, hist, p, i, i),
        p.len() == l.size + 1,
        kept_more(p, a),
        kept_more(a, q),
        forall|j: int, e: int|
            0 <= j < m.scan.len() && reading::tok_at(
                l,
                i,
                e,
                earley_chart::expected(g, m.scan[j])->0,
            ) ==> #[trigger] keeps_token(a, e, m.scan[j]),
    ensures
        forall|c: int, e: int, x: Item|
            0 <= c < i + 1 && i < e && hist[c].contains(x) && earley_chart::wants_terminal(g, x)
                && reading::tok_at(l, c, e, earley_chart::expected(g, x)->0)
                ==> #[trigger] token_kept(q, c, e, x),
{
    lemma_more_trans(p, a, q);
    assert forall|c: int, e: int, x: Item|
        0 <= c < i + 1 && i < e && hist[c].contains(x) && earley_chart::wants_terminal(g, x)
            && reading::tok_at(l, c, e, earley_chart::expected(g, x)->0) implies #[trigger] token_kept(
        q,
        c,
        e,
        x,
    ) by {
        if c < i {
            assert(token_kept(p, c, e, x));
            lemma_token_more(p, q, e, x);
        } else {
            let k = choose|k: int| 0 <= k < hist[c].len() && hist[c][k] == x;
            if k < m.columns[i].len() {
                assert(m.columns[i][k] == x);
                assert(!earley_chart::wants_terminal(g, m.columns[i][k]));
            } else {
                let j = k - m.columns[i].len();
                assert(m.scan[j] == x);
                assert(keeps_token(a, e, m.scan[j]));
                lemma_token_more(a, q, e, x);
            }
        }
    }
}

proof fn lemma_gaps_queued(
    g: earley_chart::Context,
    start: SymbolId,
    input: earley_dynamic::Input,
    m: earley_chart::ChartModel,
    hist: Seq<Seq<Item>>,
    p: Seq<Option<Seq<earley_dynamic::DelayedModel>>>,
    q: Seq<Option<Seq<earley_dynamic::DelayedModel>>>,
    i: int,
)
    requires
        0 <= i < hist.len(),
        hist[i] == m.columns[i] + m.scan,
        earley_exact::no_terminals(g, m, i),
        pending_full(g, start, of_text(input, start), hist, p, i, i),
        p.len() == input.text.len() + 1,
        kept_more(p, q),
        forall|t: int, e: int, j: int|
            0 <= t < input.matcher.ignore.len() && e <= input.text.len() && #[trigger] ends_at(
                matched(input, input.matcher.ignore[t], i),
                i,
                e,
            ) && 0 <= j < m.scan.len() ==> keeps_carry(q, e, #[trigger] m.scan[j]),
        forall|t: int, e: int, j: int|
            0 <= t < input.matcher.ignore.len() && e <= input.text.len() && #[trigger] ends_at(
                matched(input, input.matcher.ignore[t], i),
                i,
                e,
            ) && 0 <= j < m.columns[i].len() && earley_dynamic::is_whole(
                g,
                start,
                m.columns[i][j],
            ) ==> keeps_carry(q, e, #[trigger] m.columns[i][j]),
    ensures
        forall|c: int, e: int, x: Item|
            0 <= c < i + 1 && i < e && hist[c].contains(x) && earley_exact::stands(g, start, x)
                && reading::gap_at(of_text(input, start), c, e) ==> #[trigger] carry_kept(
                q,
                c,
                e,
                x,
            ),
{
    let l = of_text(input, start);
    assert forall|c: int, e: int, x: Item|
        0 <= c < i + 1 && i < e && hist[c].contains(x) && earley_exact::stands(g, start, x)
            && reading::gap_at(l, c, e) implies #[trigger] carry_kept(q, c, e, x) by {
        if c < i {
            assert(carry_kept(p, c, e, x));
            lemma_token_more(p, q, e, x);
        } else {
            assert(is_ignored(input, i, e));
            let t = choose|t: int|
                0 <= t < input.matcher.ignore.len() && ends_at(
                    matched(input, #[trigger] input.matcher.ignore[t], i),
                    i,
                    e,
                );
            assert(ends_at(matched(input, input.matcher.ignore[t], i), i, e));
            let k = choose|k: int| 0 <= k < hist[c].len() && hist[c][k] == x;
            if k < m.columns[i].len() {
                assert(m.columns[i][k] == x);
                assert(!earley_chart::wants_terminal(g, m.columns[i][k]));
            } else {
                let j = k - m.columns[i].len();
                assert(m.scan[j] == x);
            }
        }
    }
}

/// Whatever can lead on from a column is kept.
pub proof fn lemma_queued(
    g: earley_chart::Context,
    start: SymbolId,
    ok: spec_fn(int, Item) -> bool,
    input: earley_dynamic::Input,
    m: earley_chart::ChartModel,
    hist: Seq<Seq<Item>>,
    p: Seq<Option<Seq<earley_dynamic::DelayedModel>>>,
    i: int,
)
    requires
        0 <= i < input.text.len(),
        earley_exact::full_to(g, start, of_text(input, start), m, hist, i),
        pending_sound(g, start, ok, of_text(input, start), p),
        pending_full(g, start, of_text(input, start), hist, p, i, i),
        are_ok(ok, i, m.scan),
        are_ok(ok, i, m.columns[i]),
    ensures
        ({
            let q = earley_dynamic::ignored_queued(
                g,
                start,
                input,
                m,
                i,
                earley_dynamic::items_queued(g, input, m.scan, i, p, m.scan.len()),
                input.matcher.ignore.len(),
            );
            &&& pending_sound(g, start, ok, of_text(input, start), q)
            &&& pending_full(g, start, of_text(input, start), hist, q, i + 1, i)
        }),
{
    let l = of_text(input, start);
    let a = earley_dynamic::items_queued(g, input, m.scan, i, p, m.scan.len());
    let q = earley_dynamic::ignored_queued(
        g,
        start,
        input,
        m,
        i,
        a,
        input.matcher.ignore.len(),
    );
    assert(earley_sound::items_derived(g, l, i, m.columns[i]));
    lemma_items_kept(g, start, ok, input, m.scan, i, p, m.scan.len());
    lemma_ignored_kept(g, start, ok, input, m, i, a, input.matcher.ignore.len());
    lemma_more_trans(p, a, q);
    lemma_tokens_queued(g, start, l, m, hist, p, a, q, i);
    lemma_gaps_queued(g, start, input, m, hist, p, q, i);
}

// ---------------------------------------------------------------------------
// Where cut chains end

/// Whether every cut chain ends at column `e` at most.
pub open spec fn paths_to(f: earley_forest::ForestModel, e: int) -> bool {
    forall|x: int, j: int|
        0 <= x < f.nodes.len() && 0 <= j < f.nodes[x].paths.len() ==> (
        #[trigger] f.nodes[x].paths[j]).2 <= e
}

proof fn lemma_got_paths(
    f: earley_forest::ForestModel,
    key: NodeKey,
    start: usize,
    end: usize,
    e: int,
)
    requires
        paths_to(f, e),
    ensures
        paths_to(earley_forest::got(f, key, start, end).0, e),
        0 <= earley_forest::got(f, key, start, end).1 < earley_forest::got(
            f,
            key,
            start,
            end,
        ).0.nodes.len(),
{
    earley_forest::lemma_find_node(f.nodes, key, start, end, 0);
    let h = earley_forest::got(f, key, start, end).0;
    assert forall|x: int, j: int|
        0 <= x < h.nodes.len() && 0 <= j < h.nodes[x].paths.len() implies (
    #[trigger] h.nodes[x].paths[j]).2 <= e by {
        if x < f.nodes.len() {
            assert(f.nodes[x].paths[j].2 <= e);
        }
    }
}

proof fn lemma_family_paths(
    f: earley_forest::ForestModel,
    id: int,
    p: Packed,
    order: usize,
    e: int,
)
    requires
        paths_to(f, e),
        0 <= id < f.nodes.len(),
    ensures
        paths_to(earley_forest::family_added(f, id, p, order), e),
{
    let h = earley_forest::family_added(f, id, p, order);
    assert forall|x: int, j: int|
        0 <= x < h.nodes.len() && 0 <= j < h.nodes[x].paths.len() implies (
    #[trigger] h.nodes[x].paths[j]).2 <= e by {
        assert(f.nodes[x].paths[j].2 <= e);
    }
}

proof fn lemma_moved_paths(
    g: earley_chart::Context,
    f: earley_forest::ForestModel,
    o: Item,
    right: ForestRef,
    end: usize,
    e: int,
)
    requires
        paths_to(f, e),
    ensures
        paths_to(earley_chart::moved(g, f, o, right, end).0, e),
{
    let key = earley_chart::key_at(g, o.rule, o.dot + 1);
    lemma_got_paths(f, key, o.origin, end, e);
    let (h, id) = earley_forest::got(f, key, o.origin, end);
    lemma_family_paths(
        h,
        id,
        earley_chart::moved_family(o, right),
        g.rules[o.rule as int].order,
        e,
    );
}

proof fn lemma_advanced_paths(
    g: earley_chart::Context,
    m: earley_chart::ChartModel,
    i: usize,
    stack: Seq<Item>,
    items: Seq<Item>,
    right: ForestRef,
    e: int,
)
    requires
        paths_to(m.forest, e),
    ensures
        paths_to(earley_chart::all_advanced(g, m, i, stack, items, right).0.forest, e),
    decreases items.len(),
{
    if items.len() > 0 {
        lemma_advanced_paths(g, m, i, stack, items.drop_last(), right, e);
        let (m1, s1) = earley_chart::all_advanced(g, m, i, stack, items.drop_last(), right);
        lemma_moved_paths(g, m1.forest, items.last(), right, i, e);
    }
}

proof fn lemma_leapt_paths(
    g: earley_chart::Context,
    m: earley_chart::ChartModel,
    i: usize,
    stack: Seq<Item>,
    t: usize,
    id: usize,
)
    requires
        paths_to(m.forest, i as int),
    ensures
        paths_to(earley_recognizer::leapt(g, m, i, stack, t, id).0.forest, i as int),
{
    let top = m.arena[t as int].top;
    let key = earley_chart::key_at(g, top.rule, top.dot as int);
    lemma_got_paths(m.forest, key, top.origin, i, i as int);
    let (f, node) = earley_forest::got(m.forest, key, top.origin, i);
    let h = earley_forest::path_added(f, node, (t, ForestRef::Node(id), i));
    assert forall|x: int, j: int|
        0 <= x < h.nodes.len() && 0 <= j < h.nodes[x].paths.len() implies (
    #[trigger] h.nodes[x].paths[j]).2 <= i by {
        if j < f.nodes[x].paths.len() {
            assert(f.nodes[x].paths[j].2 <= i);
        }
    }
    assert(earley_recognizer::leapt(g, m, i, stack, t, id).0.forest == h);
}

proof fn lemma_step_paths(
    g: earley_chart::Context,
    w: earley_recognizer::Work,
    i: usize,
    start: SymbolId,
)
    requires
        paths_to(w.chart.forest, i as int),
    ensures
        paths_to(earley_recognizer::work_step(g, w, i, start).chart.forest, i as int),
{
    let item = w.stack.last();
    let rest = w.stack.drop_last();
    match earley_chart::expected(g, item) {
        None => {
            let (m0, id) = earley_recognizer::node_for(g, w.chart, i, item);
            let rule = g.rules[item.rule as int];
            lemma_got_paths(w.chart.forest, NodeKey::Sym(rule.origin), item.origin, i, i as int);
            let (f, n) = earley_forest::got(
                w.chart.forest,
                NodeKey::Sym(rule.origin),
                item.origin,
                i,
            );
            lemma_family_paths(
                f,
                n,
                Packed {
                    rule: item.rule,
                    left: ForestRef::Nothing,
                    right: ForestRef::Nothing,
                    right_pos: 0,
                },
                rule.order,
                i as int,
            );
            assert(paths_to(m0.forest, i as int));
            let s = rule.origin;
            let m1 = if item.origin != i {
                earley_leo::leo_created(g, m0, s, item.origin, start)
            } else {
                m0
            };
            earley_complete::lemma_leo_forest(g, m0, s, item.origin, start);
            let shortcut = if item.origin != i {
                earley_chart::find_trans(m1.trans[item.origin as int], s, 0)
            } else {
                None
            };
            match shortcut {
                Some(t) => lemma_leapt_paths(g, m1, i, rest, t, id),
                None => lemma_advanced_paths(
                    g,
                    m1,
                    i,
                    rest,
                    earley_chart::waiting(g, m1.columns[item.origin as int], s),
                    ForestRef::Node(id),
                    i as int,
                ),
            }
        },
        Some(s) => if s.ix() >= g.nt {
            let (m1, s1) = earley_chart::predicted(g, w.chart, i, rest, s, g.rules.len());
            earley_sound::lemma_predicted_arena(g, w.chart, i, rest, s, g.rules.len());
            if let Some(h) = w.held[s.ix() as int] {
                lemma_moved_paths(g, m1.forest, item, ForestRef::Node(h), i, i as int);
            }
        },
    }
}

proof fn lemma_run_paths(
    g: earley_chart::Context,
    w: earley_recognizer::Work,
    i: usize,
    start: SymbolId,
    k: nat,
)
    requires
        paths_to(w.chart.forest, i as int),
    ensures
        paths_to(earley_recognizer::work_run(g, w, i, start, k).chart.forest, i as int),
    decreases k,
{
    if k > 0 {
        lemma_run_paths(g, w, i, start, (k - 1) as nat);
        lemma_step_paths(
            g,
            earley_recognizer::work_run(g, w, i, start, (k - 1) as nat),
            i,
            start,
        );
    }
}

/// Closing a column takes no node away.
proof fn lemma_closed_nodes(
    g: earley_chart::Context,
    m: earley_chart::ChartModel,
    i: usize,
    start: SymbolId,
    n: earley_chart::ChartModel,
)
    requires
        earley_chart::context_ok(g),
        earley_recognizer::closed_at(g, m, i, start, n),
    ensures
        m.forest.nodes.len() <= n.forest.nodes.len(),
{
    earley_places::lemma_closed_at_sizes(g, m, i, start, n);
}

/// Closing a column cuts chains that end there.
proof fn lemma_closed_paths(
    g: earley_chart::Context,
    m: earley_chart::ChartModel,
    i: usize,
    start: SymbolId,
    n: earley_chart::ChartModel,
)
    requires
        earley_recognizer::closed_at(g, m, i, start, n),
        paths_to(m.forest, i as int),
    ensures
        paths_to(n.forest, i as int),
{
    let w = earley_recognizer::begun(g, m, i as int);
    let (k, v) = choose|k: nat, v: earley_recognizer::Work|
        #[trigger] earley_recognizer::work_reaches(g, w, i, start, v, k) && v.stack.len() == 0
            && v.chart == n && n.arena.len() <= usize::MAX;
    lemma_run_paths(g, w, i, start, k);
}

// ---------------------------------------------------------------------------
// The next column

/// Whether the node of an item, if it has one, is one of the first `nodes`.
pub open spec fn refers_below(x: Item, nodes: nat) -> bool {
    x.node matches ForestRef::Node(id) ==> id < nodes
}

/// The items whose node, if they have one, is one of the first `nodes`.
pub open spec fn below(nodes: nat) -> spec_fn(int, Item) -> bool {
    |c: int, x: Item| refers_below(x, nodes)
}

/// Copying families keeps labels and cut chains.
proof fn lemma_copied_only(
    g: earley_chart::Context,
    f: earley_forest::ForestModel,
    id: int,
    families: Seq<Packed>,
    k: nat,
)
    requires
        0 <= id < f.nodes.len(),
    ensures
        earley_shape::only_families(f, earley_dynamic::families_copied(g, f, id, families, k)),
        earley_dynamic::families_copied(g, f, id, families, k).nodes.len() == f.nodes.len(),
    decreases k,
{
    if k > 0 {
        lemma_copied_only(g, f, id, families, (k - 1) as nat);
        let h = earley_dynamic::families_copied(g, f, id, families, (k - 1) as nat);
        earley_shape::lemma_family_sizes(
            h,
            id,
            families[k - 1],
            g.rules[families[k - 1].rule as int].order,
        );
        earley_shape::lemma_only_trans(
            f,
            h,
            earley_dynamic::families_copied(g, f, id, families, k),
        );
    }
}

/// What more nodes and families leave alone.
proof fn lemma_only_kept(
    g: earley_chart::Context,
    l: reading::Reading,
    f: earley_forest::ForestModel,
    h: earley_forest::ForestModel,
    e: int,
)
    requires
        earley_shape::only_families(f, h),
        earley_sound::nodes_derived(g, l, f),
        paths_to(f, e),
        forall|x: int|
            f.nodes.len() <= x < h.nodes.len() ==> earley_sound::node_derived(
                g,
                l,
                #[trigger] h.nodes[x],
            ),
    ensures
        earley_sound::nodes_derived(g, l, h),
        paths_to(h, e),
        earley_complete::labels_kept(f, h),
{
    earley_complete::lemma_updated_labels(f, h);
    assert forall|x: int| 0 <= x < h.nodes.len() implies earley_sound::node_derived(
        g,
        l,
        #[trigger] h.nodes[x],
    ) by {
        if x < f.nodes.len() {
            assert(earley_sound::node_derived(g, l, f.nodes[x]));
        }
    }
    assert forall|x: int, j: int|
        0 <= x < h.nodes.len() && 0 <= j < h.nodes[x].paths.len() implies (
    #[trigger] h.nodes[x].paths[j]).2 <= e by {
        if x < f.nodes.len() {
            assert(f.nodes[x].paths[j].2 <= e);
        }
    }
}

/// An item carried past what is ignored.
#[verifier::rlimit(30)]
proof fn lemma_carried(
    g: earley_chart::Context,
    start: SymbolId,
    l: reading::Reading,
    arena: Seq<Trans>,
    f: earley_forest::ForestModel,
    c: int,
    x: Item,
    end: usize,
)
    requires
        earley_chart::context_ok(g),
        earley_sound::nodes_derived(g, l, f),
        paths_to(f, end - 1),
        carry_from(g, start, l, c, end as int, x),
        refers_below(x, f.nodes.len()),
        l.aim == start,
    ensures
        ({
            let (h, y) = earley_dynamic::carried(g, arena, f, x, end);
            &&& earley_sound::nodes_derived(g, l, h)
            &&& paths_to(h, end - 1)
            &&& earley_complete::labels_kept(f, h)
            &&& f.nodes.len() <= h.nodes.len()
            &&& earley_chart::same_item(x, y)
            &&& earley_sound::item_derived(g, l, end as int, y)
            &&& y.node is Node ==> earley_complete::has_label(
                h,
                earley_chart::key_at(g, y.rule, y.dot as int),
                y.origin,
                end,
            )
        }),
{
    let (h, y) = earley_dynamic::carried(g, arena, f, x, end);
    let e = g.rules[x.rule as int].expansion;
    reading::lemma_reads_gap(
        g.rules,
        g.nt,
        l,
        e.take(x.dot as int),
        x.origin as int,
        c,
        end as int,
        earley_chart::wants_terminal(g, x),
    );
    assert(earley_sound::item_derived(g, l, end as int, y));
    earley_complete::lemma_updated_labels(f, f);
    if let ForestRef::Node(id) = x.node {
        let paths = f.nodes[id as int].paths;
        let f0 = earley_forest::paths_taken(f, id as int);
        assert(paths_to(f0, end - 1)) by {
            assert forall|z: int, j: int|
                0 <= z < f0.nodes.len() && 0 <= j < f0.nodes[z].paths.len() implies (
            #[trigger] f0.nodes[z].paths[j]).2 <= end - 1 by {
                assert(f.nodes[z].paths[j].2 <= end - 1);
            }
        }
        assert(earley_sound::nodes_derived(g, l, f0)) by {
            assert forall|z: int| 0 <= z < f0.nodes.len() implies earley_sound::node_derived(
                g,
                l,
                #[trigger] f0.nodes[z],
            ) by {
                assert(earley_sound::node_derived(g, l, f.nodes[z]));
            }
        }
        earley_complete::lemma_updated_labels(f, f0);
        let f1 = earley_paths::paths_made(g, f0, arena, paths, paths.len());
        earley_chain::lemma_paths_sizes(g, f0, arena, paths, paths.len());
        let last = (end - 1) as usize;
        assert(earley_shape::new_to(f0, f1, last)) by {
            assert forall|j: int| 0 <= j < paths.len() implies (#[trigger] paths[j]).2 <= last by {
                assert(f.nodes[id as int].paths[j].2 <= end - 1);
            }
        }
        assert forall|z: int| f0.nodes.len() <= z < f1.nodes.len() implies earley_sound::node_derived(
            g,
            l,
            #[trigger] f1.nodes[z],
        ) by {
            assert(f1.nodes[z].end <= last);
        }
        lemma_only_kept(g, l, f0, f1, end - 1);
        let key = earley_chart::key_at(g, x.rule, x.dot as int);
        let (f2, new) = earley_forest::got(f1, key, x.origin, end);
        earley_shape::lemma_entry_only(
            f1,
            key,
            x.origin,
            end,
            Packed {
                rule: 0,
                left: ForestRef::Nothing,
                right: ForestRef::Nothing,
                right_pos: 0,
            },
            0,
        );
        earley_complete::lemma_got_label(f1, key, x.origin, end);
        earley_forest::lemma_find_node(f1.nodes, key, x.origin, end, 0);
        assert forall|z: int| f1.nodes.len() <= z < f2.nodes.len() implies earley_sound::node_derived(
            g,
            l,
            #[trigger] f2.nodes[z],
        ) by {
            if key == NodeKey::Sym(l.aim) && x.origin == 0 && end == l.size {
                earley_sound::lemma_done_derived(g, l, end as int, y);
            }
        }
        lemma_only_kept(g, l, f1, f2, end - 1);
        let families = f2.nodes[id as int].families;
        earley_complete::lemma_labels_trans(f, f0, f1);
        earley_complete::lemma_labels_trans(f, f1, f2);
        if id != new {
            lemma_copied_only(g, f2, new, families, families.len());
            lemma_only_kept(g, l, f2, h, end - 1);
            earley_complete::lemma_labels_trans(f, f2, h);
        }
    }
}

/// Whether what a step has made so far is derived, has nodes, and holds what the
/// first `k` things that happen there lead to.
pub open spec fn drained_full(
    g: earley_chart::Context,
    l: reading::Reading,
    f: earley_forest::ForestModel,
    ds: Seq<earley_dynamic::DelayedModel>,
    end: usize,
    s: earley_recognizer::Scanned,
    k: int,
) -> bool {
    &&& earley_sound::nodes_derived(g, l, s.forest)
    &&& earley_sound::items_derived(g, l, end as int, s.column)
    &&& earley_sound::items_derived(g, l, end as int, s.scan)
    &&& earley_complete::labels_kept(f, s.forest)
    &&& f.nodes.len() <= s.forest.nodes.len()
    &&& paths_to(s.forest, end - 1)
    &&& earley_complete::items_labelled(g, s.forest, s.column, end)
    &&& forall|q: int|
        0 <= q < s.column.len() ==> !earley_chart::wants_terminal(g, #[trigger] s.column[q])
    &&& forall|q: int|
        0 <= q < s.scan.len() ==> earley_chart::wants_terminal(g, #[trigger] s.scan[q])
    &&& forall|q: int| 0 <= q < k ==> #[trigger] has_drained(s, ds, q)
}

/// What a thing that happens leads to.
pub open spec fn led_to(d: earley_dynamic::DelayedModel) -> Item {
    match d {
        earley_dynamic::DelayedModel::Tok(x, _) => earley_complete::next_item(x),
        earley_dynamic::DelayedModel::Carry(x) => x,
    }
}

/// Whether what a thing that happens leads to is there.
pub open spec fn has_drained(
    s: earley_recognizer::Scanned,
    ds: Seq<earley_dynamic::DelayedModel>,
    q: int,
) -> bool {
    earley_chart::has_item(s.column, led_to(ds[q])) || earley_chart::has_item(
        s.scan,
        led_to(ds[q]),
    )
}

/// A step makes what the things that happen there lead to.
#[verifier::rlimit(40)]
proof fn lemma_drained(
    g: earley_chart::Context,
    start: SymbolId,
    l: reading::Reading,
    arena: Seq<Trans>,
    f: earley_forest::ForestModel,
    ds: Seq<earley_dynamic::DelayedModel>,
    end: usize,
    k: nat,
)
    requires
        earley_chart::context_ok(g),
        l.aim == start,
        0 < end <= l.size <= usize::MAX,
        earley_sound::nodes_derived(g, l, f),
        paths_to(f, end - 1),
        forall|q: int|
            0 <= q < ds.len() ==> delayed_sound(
                g,
                start,
                below(f.nodes.len()),
                l,
                end as int,
                #[trigger] ds[q],
            ),
        k <= ds.len(),
    ensures
        drained_full(
            g,
            l,
            f,
            ds,
            end,
            earley_dynamic::drained(g, arena, f, ds, end, k),
            k as int,
        ),
    decreases k,
{
    let s = earley_dynamic::drained(g, arena, f, ds, end, k);
    if k == 0 {
        earley_complete::lemma_updated_labels(f, f);
    } else {
        lemma_drained(g, start, l, arena, f, ds, end, (k - 1) as nat);
        let p = earley_dynamic::drained(g, arena, f, ds, end, (k - 1) as nat);
        let d = ds[k - 1];
        assert(delayed_sound(g, start, below(f.nodes.len()), l, end as int, ds[k - 1]));
        let (h, item) = match d {
            earley_dynamic::DelayedModel::Tok(o, token) => earley_chart::moved(
                g,
                earley_forest::token_added(p.forest, token),
                o,
                ForestRef::Tok(p.forest.tokens.len() as usize),
                end,
            ),
            earley_dynamic::DelayedModel::Carry(o) => earley_dynamic::carried(
                g,
                arena,
                p.forest,
                o,
                end,
            ),
        };
        match d {
            earley_dynamic::DelayedModel::Tok(o, token) => {
                let c = choose|c: int| #[trigger]
                    token_source(g, below(f.nodes.len()), l, c, end as int, o, token);
                let t = earley_chart::expected(g, o)->0;
                let f1 = earley_forest::token_added(p.forest, token);
                let right = ForestRef::Tok(p.forest.tokens.len() as usize);
                assert(g.rules[o.rule as int].expansion.len() <= usize::MAX) by {
                    assert(g.rules[o.rule as int].origin.ix() >= g.nt);
                }
                assert(earley_sound::nodes_derived(g, l, f1));
                assert(paths_to(f1, end - 1)) by {
                    assert forall|x: int, j: int|
                        0 <= x < f1.nodes.len() && 0 <= j < f1.nodes[x].paths.len() implies (
                    #[trigger] f1.nodes[x].paths[j]).2 <= end - 1 by {
                        assert(p.forest.nodes[x].paths[j].2 <= end - 1);
                    }
                }
                reading::lemma_reads_token(g.rules, g.nt, l, t, c, end as int);
                earley_sound::lemma_moved_nodes(g, l, f1, c, end, o, t, right);
                earley_complete::lemma_moved_label(g, f1, o, right, end);
                lemma_moved_paths(g, f1, o, right, end, end - 1);
                earley_complete::lemma_updated_labels(p.forest, f1);
                earley_complete::lemma_labels_trans(p.forest, f1, h);
                earley_complete::lemma_got_label(
                    f1,
                    earley_chart::key_at(g, o.rule, o.dot + 1),
                    o.origin,
                    end,
                );
                earley_forest::lemma_find_node(
                    f1.nodes,
                    earley_chart::key_at(g, o.rule, o.dot + 1),
                    o.origin,
                    end,
                    0,
                );
                assert(p.forest.nodes.len() <= h.nodes.len());
                assert(earley_chart::same_item(item, led_to(d)));
            },
            earley_dynamic::DelayedModel::Carry(o) => {
                let c = choose|c: int| #[trigger]
                    carry_source(g, start, below(f.nodes.len()), l, c, end as int, o);
                lemma_carried(g, start, l, arena, p.forest, c, o, end);
                assert(earley_chart::same_item(item, led_to(d)));
            },
        }
        earley_complete::lemma_labels_trans(f, p.forest, h);
        earley_complete::lemma_items_labelled_more(g, p.forest, h, p.column, end);
        assert forall|q: int| 0 <= q < k implies #[trigger] has_drained(s, ds, q) by {
            let x = led_to(ds[q]);
            earley_exact::lemma_added_has(p.column, item, x);
            earley_exact::lemma_added_has(p.scan, item, x);
            if q < k - 1 {
                assert(has_drained(p, ds, q));
            }
        }
    }
}

/// What is kept comes of items in order as long as they stay in order.
pub proof fn lemma_sound_more(
    g: earley_chart::Context,
    start: SymbolId,
    ok: spec_fn(int, Item) -> bool,
    more: spec_fn(int, Item) -> bool,
    l: reading::Reading,
    p: Seq<Option<Seq<earley_dynamic::DelayedModel>>>,
)
    requires
        pending_sound(g, start, ok, l, p),
        forall|c: int, x: Item| #[trigger] ok(c, x) ==> more(c, x),
    ensures
        pending_sound(g, start, more, l, p),
{
    assert forall|e: int, k: int|
        0 <= e < p.len() && 0 <= k < earley_dynamic::kept_for(p, e).len() implies delayed_sound(
        g,
        start,
        more,
        l,
        e,
        #[trigger] earley_dynamic::kept_for(p, e)[k],
    ) by {
        let d = earley_dynamic::kept_for(p, e)[k];
        assert(delayed_sound(g, start, ok, l, e, earley_dynamic::kept_for(p, e)[k]));
        match d {
            earley_dynamic::DelayedModel::Tok(x, t) => {
                let c = choose|c: int| #[trigger] token_source(g, ok, l, c, e, x, t);
                assert(ok(c, x));
                assert(token_source(g, more, l, c, e, x, t));
            },
            earley_dynamic::DelayedModel::Carry(x) => {
                let c = choose|c: int| #[trigger] carry_source(g, start, ok, l, c, e, x);
                assert(ok(c, x));
                assert(carry_source(g, start, more, l, c, e, x));
            },
        }
    }
}

// ---------------------------------------------------------------------------
// The whole text

/// Whether the chart of the first `i` characters, with what is kept, is complete
/// and derived, where `hist` are the items of its columns.
pub open spec fn text_full(
    g: earley_chart::Context,
    start: SymbolId,
    input: earley_dynamic::Input,
    m: earley_chart::ChartModel,
    p: Seq<Option<Seq<earley_dynamic::DelayedModel>>>,
    i: int,
    hist: Seq<Seq<Item>>,
) -> bool {
    let l = of_text(input, start);
    &&& earley_exact::full_to(g, start, l, m, hist, i)
    &&& pending_sound(g, start, below(m.forest.nodes.len()), l, p)
    &&& pending_full(g, start, l, hist, p, i, i)
    &&& paths_to(m.forest, i)
}

/// Whether the chart of the first `i` characters, with what is kept, is complete
/// and derived.
pub open spec fn is_text_full(
    g: earley_chart::Context,
    start: SymbolId,
    input: earley_dynamic::Input,
    m: earley_chart::ChartModel,
    p: Seq<Option<Seq<earley_dynamic::DelayedModel>>>,
    i: int,
) -> bool {
    exists|hist: Seq<Seq<Item>>| #[trigger] text_full(g, start, input, m, p, i, hist)
}

/// Nothing kept comes of items and matches.
pub proof fn lemma_none_sound(
    g: earley_chart::Context,
    start: SymbolId,
    ok: spec_fn(int, Item) -> bool,
    l: reading::Reading,
    p: Seq<Option<Seq<earley_dynamic::DelayedModel>>>,
)
    requires
        p == earley_dynamic::none_kept(l.size + 1),
    ensures
        pending_sound(g, start, ok, l, p),
{
    assert forall|e: int, k: int|
        0 <= e < p.len() && 0 <= k < earley_dynamic::kept_for(p, e).len() implies delayed_sound(
        g,
        start,
        ok,
        l,
        e,
        #[trigger] earley_dynamic::kept_for(p, e)[k],
    ) by {
        assert(p[e] is None);
    }
}

/// The first column is complete.
pub proof fn lemma_text_begun(
    g: earley_chart::Context,
    start: SymbolId,
    input: earley_dynamic::Input,
    m: earley_chart::ChartModel,
    p: Seq<Option<Seq<earley_dynamic::DelayedModel>>>,
)
    requires
        earley_sound::context_true(g),
        earley_recognizer::closed_at(g, earley_recognizer::started(g, start), 0, start, m),
        p == earley_dynamic::none_kept(input.text.len() + 1),
    ensures
        is_text_full(g, start, input, m, p, 0),
{
    let l = of_text(input, start);
    let b = earley_recognizer::blank_chart();
    let m0 = earley_recognizer::started(g, start);
    earley_exact::lemma_started_full(g, l, start);
    earley_complete::lemma_predicted_more(g, b, 0, Seq::empty(), start, g.rules.len());
    earley_exact::lemma_closed_at_full(g, l, m0, 0, start, m);
    let hist = seq![m.columns[0] + m.scan];
    assert(earley_exact::begins(g, hist[0], start, 0)) by {
        assert forall|r: int|
            0 <= r < g.rules.len() && (#[trigger] g.rules[r]).origin == start implies
            earley_chart::has_item(hist[0], earley_chart::fresh(r, 0)) by {
            earley_complete::lemma_present_stays(m0, m, 0, earley_chart::fresh(r, 0));
            earley_exact::lemma_present_all(m, 0, earley_chart::fresh(r, 0));
        }
    }
    lemma_none_sound(g, start, below(m.forest.nodes.len()), l, p);
    earley_sound::lemma_predicted_arena(g, b, 0, Seq::empty(), start, g.rules.len());
    assert(m0.forest == b.forest);
    lemma_closed_paths(g, m0, 0, start, m);
    assert(text_full(g, start, input, m, p, 0, hist));
}

/// All that is kept once the items of a column have been queued.
spec fn queued_at(
    g: earley_chart::Context,
    start: SymbolId,
    input: earley_dynamic::Input,
    m: earley_chart::ChartModel,
    p: Seq<Option<Seq<earley_dynamic::DelayedModel>>>,
    i: int,
) -> Seq<Option<Seq<earley_dynamic::DelayedModel>>> {
    earley_dynamic::ignored_queued(
        g,
        start,
        input,
        m,
        i,
        earley_dynamic::items_queued(g, input, m.scan, i, p, m.scan.len()),
        input.matcher.ignore.len(),
    )
}

/// Where the text is a sentence, something is kept that leads on.
#[verifier::spinoff_prover]
#[verifier::rlimit(60)]
proof fn lemma_leads_on(
    g: earley_chart::Context,
    start: SymbolId,
    input: earley_dynamic::Input,
    m: earley_chart::ChartModel,
    p: Seq<Option<Seq<earley_dynamic::DelayedModel>>>,
    hist: Seq<Seq<Item>>,
    i: int,
) -> (r: (int, int))
    requires
        earley_sound::context_true(g),
        start.ix() >= g.nt,
        0 <= i < input.text.len() <= usize::MAX,
        text_full(g, start, input, m, p, i, hist),
        are_ok(below(m.forest.nodes.len()), i, m.scan),
        are_ok(below(m.forest.nodes.len()), i, m.columns[i]),
        is_text_sentence(g, start, input),
    ensures
        i < r.0 < queued_at(g, start, input, m, p, i).len(),
        0 <= r.1 < earley_dynamic::kept_for(queued_at(g, start, input, m, p, i), r.0).len(),
        queued_at(g, start, input, m, p, i)[r.0] is Some,
{
    let l = of_text(input, start);
    lemma_queued(g, start, below(m.forest.nodes.len()), input, m, hist, p, i);
    let q = queued_at(g, start, input, m, p, i);
    let w = choose|w: Seq<SymbolId>|
        #[trigger] reading::is_read(l, 0, input.text.len() as int, w) && analysis::derives(
            g.rules,
            g.nt,
            start,
            w,
        );
    earley_reach::lemma_sentence_reached(g, start, l, m, hist, i, w);
    let (c, d, x) = choose|c: int, d: int, x: Item| #[trigger]
        earley_reach::leap(g, start, l, hist, i, c, d, x);
    if reading::gap_at(l, c, d) && earley_exact::stands(g, start, x) {
        assert(carry_kept(q, c, d, x));
    } else {
        assert(token_kept(q, c, d, x));
    }
    let k = choose|k: int|
        0 <= k < earley_dynamic::kept_for(q, d).len() && (#[trigger] earley_dynamic::kept_for(
            q,
            d,
        )[k] == earley_dynamic::DelayedModel::Carry(x) || is_token_of(
            earley_dynamic::kept_for(q, d)[k],
            x,
        ));
    (d, k)
}

/// Nothing that is a sentence is without anything that leads on.
#[verifier::spinoff_prover]
#[verifier::rlimit(60)]
pub proof fn lemma_text_stuck(
    g: earley_chart::Context,
    start: SymbolId,
    input: earley_dynamic::Input,
    m: earley_chart::ChartModel,
    p: Seq<Option<Seq<earley_dynamic::DelayedModel>>>,
    i: int,
)
    requires
        earley_sound::context_true(g),
        start.ix() >= g.nt,
        0 <= i < input.text.len() <= usize::MAX,
        is_text_full(g, start, input, m, p, i),
        are_ok(below(m.forest.nodes.len()), i, m.scan),
        are_ok(below(m.forest.nodes.len()), i, m.columns[i]),
        earley_dynamic::character_step(g, start, input, m, p).0 is None,
    ensures
        !is_text_sentence(g, start, input),
{
    let l = of_text(input, start);
    let hist = choose|hist: Seq<Seq<Item>>| #[trigger] text_full(g, start, input, m, p, i, hist);
    let ok = below(m.forest.nodes.len());
    let q = queued_at(g, start, input, m, p, i);
    let ds = earley_dynamic::kept_for(q, i + 1);
    let rest = q.update(i + 1, None);
    let end = (i + 1) as usize;
    let s = earley_dynamic::drained(g, m.arena, m.forest, ds, end, ds.len());
    assert forall|k: int| 0 <= k < ds.len() implies delayed_sound(
        g,
        start,
        ok,
        l,
        end as int,
        #[trigger] ds[k],
    ) by {
        lemma_queued(g, start, ok, input, m, hist, p, i);
        assert(delayed_sound(g, start, ok, l, i + 1, earley_dynamic::kept_for(q, i + 1)[k]));
    }
    lemma_drained(g, start, l, m.arena, m.forest, ds, end, ds.len());
    if is_text_sentence(g, start, input) {
        let (d, k) = lemma_leads_on(g, start, input, m, p, hist, i);
        if d == i + 1 {
            assert(has_drained(s, ds, k));
        } else {
            assert(rest[d] == q[d]);
            assert(rest[d] is Some);
        }
    }
}

/// The next column is complete.
#[verifier::spinoff_prover]
#[verifier::rlimit(100)]
pub proof fn lemma_text_next(
    g: earley_chart::Context,
    start: SymbolId,
    input: earley_dynamic::Input,
    m0: earley_chart::ChartModel,
    p0: Seq<Option<Seq<earley_dynamic::DelayedModel>>>,
    m: earley_chart::ChartModel,
    p: Seq<Option<Seq<earley_dynamic::DelayedModel>>>,
    j: int,
)
    requires
        earley_sound::context_true(g),
        0 <= j < input.text.len() <= usize::MAX,
        is_text_full(g, start, input, m0, p0, j),
        are_ok(below(m0.forest.nodes.len()), j, m0.scan),
        are_ok(below(m0.forest.nodes.len()), j, m0.columns[j]),
        earley_dynamic::text_follows(g, start, input, (j + 1) as usize, m0, p0, m, p),
    ensures
        is_text_full(g, start, input, m, p, j + 1),
{
    let l = of_text(input, start);
    let before = choose|hist: Seq<Seq<Item>>| #[trigger]
        text_full(g, start, input, m0, p0, j, hist);
    let nodes = m0.forest.nodes.len();
    let ok = below(nodes);
    lemma_queued(g, start, ok, input, m0, before, p0, j);
    let q = earley_dynamic::ignored_queued(
        g,
        start,
        input,
        m0,
        j,
        earley_dynamic::items_queued(g, input, m0.scan, j, p0, m0.scan.len()),
        input.matcher.ignore.len(),
    );
    let ds = earley_dynamic::kept_for(q, j + 1);
    let i = (j + 1) as usize;
    let s = earley_dynamic::drained(g, m0.arena, m0.forest, ds, i, ds.len());
    assert forall|k: int| 0 <= k < ds.len() implies delayed_sound(
        g,
        start,
        ok,
        l,
        i as int,
        #[trigger] ds[k],
    ) by {
        assert(delayed_sound(g, start, ok, l, j + 1, earley_dynamic::kept_for(q, j + 1)[k]));
    }
    lemma_drained(g, start, l, m0.arena, m0.forest, ds, i, ds.len());
    let n = earley_recognizer::next_chart(m0, s);
    assert(p == q.update(j + 1, None));
    lemma_next_closes(g, start, l, m0, before, s, j);
    assert(n.columns[i as int] == s.column);
    earley_exact::lemma_closed_at_full(g, l, n, i, start, m);
    assert(paths_to(n.forest, i as int)) by {
        assert forall|x: int, k: int|
            0 <= x < n.forest.nodes.len() && 0 <= k < n.forest.nodes[x].paths.len() implies (
        #[trigger] n.forest.nodes[x].paths[k]).2 <= i by {
            assert(s.forest.nodes[x].paths[k].2 <= i - 1);
        }
    }
    lemma_closed_paths(g, n, i, start, m);
    let last = m.columns[i as int] + m.scan;
    let hist = before.push(last);
    assert forall|c: int| 0 <= c <= i implies earley_exact::column_full(
        g,
        m,
        #[trigger] hist[c],
        c,
    ) by {
        if c < i {
            assert(hist[c] == before[c]);
            assert(earley_exact::column_full(g, m0, before[c], c));
            assert forall|k: int| 0 <= k < m0.trans.len() implies earley_complete::continues(
                m0.trans[k],
                #[trigger] m.trans[k],
            ) by {
                assert(n.trans[k] == m0.trans[k]);
                assert(earley_complete::continues(n.trans[k], m.trans[k]));
            }
            assert forall|k: int| 0 <= k < m0.columns.len() implies #[trigger] m.columns[k]
                == m0.columns[k] by {
                assert(n.columns[k] == m0.columns[k]);
                assert(m.columns[k] == n.columns[k]);
            }
            earley_complete::lemma_labels_trans(m0.forest, s.forest, m.forest);
            earley_exact::lemma_column_stays(g, m0, m, before[c], c);
        }
    }
    lemma_arrived(g, start, l, before, q, ds, s, n, m, j);
    assert forall|c: int, d: int, t: SymbolId|
        d <= i && #[trigger] reading::tok_at(l, c, d, t) implies earley_exact::carried(
        g,
        hist[c],
        t,
        hist[d],
    ) by {
        assert(hist[c] == before[c]);
        if d < i {
            assert(earley_exact::carried(g, before[c], t, before[d]));
            assert(hist[d] == before[d]);
        } else {
            assert(earley_exact::carried(g, before[c], t, last));
        }
    }
    assert forall|c: int, d: int| d <= i && #[trigger] reading::gap_at(l, c, d) implies
        earley_exact::stays(g, start, hist[c], hist[d]) by {
        assert(hist[c] == before[c]);
        if d < i {
            assert(earley_exact::stays(g, start, before[c], before[d]));
            assert(hist[d] == before[d]);
        } else {
            assert(earley_exact::stays(g, start, before[c], last));
        }
    }
    assert(hist[0] == before[0]);
    assert(earley_exact::full_to(g, start, l, m, hist, i as int));
    assert(m.forest.nodes.len() >= nodes) by {
        lemma_closed_nodes(g, n, i, start, m);
    }
    lemma_rest_kept(g, start, ok, l, before, hist, q, p, j);
    lemma_sound_more(g, start, ok, below(m.forest.nodes.len()), l, p);
    assert(text_full(g, start, input, m, p, i as int, hist));
}

/// The column after a closed one can be closed.
proof fn lemma_next_closes(
    g: earley_chart::Context,
    start: SymbolId,
    l: reading::Reading,
    p: earley_chart::ChartModel,
    hist: Seq<Seq<Item>>,
    s: earley_recognizer::Scanned,
    j: int,
)
    requires
        earley_exact::full_to(g, start, l, p, hist, j),
        j < l.size <= usize::MAX,
        earley_sound::nodes_derived(g, l, s.forest),
        earley_sound::items_derived(g, l, j + 1, s.column),
        earley_sound::items_derived(g, l, j + 1, s.scan),
        earley_complete::items_labelled(g, s.forest, s.column, (j + 1) as usize),
        forall|q: int|
            0 <= q < s.column.len() ==> !earley_chart::wants_terminal(g, #[trigger] s.column[q]),
        forall|q: int|
            0 <= q < s.scan.len() ==> earley_chart::wants_terminal(g, #[trigger] s.scan[q]),
    ensures
        earley_exact::can_close(
            g,
            l,
            earley_recognizer::next_chart(p, s),
            (j + 1) as usize,
            start,
        ),
{
    let i = (j + 1) as usize;
    let n = earley_recognizer::next_chart(p, s);
    assert(earley_sound::chart_derived(g, l, n, i as int)) by {
        assert forall|c: int| 0 <= c < n.columns.len() implies earley_sound::items_derived(
            g,
            l,
            c,
            #[trigger] n.columns[c],
        ) by {
            if c < p.columns.len() {
                assert(n.columns[c] == p.columns[c]);
            }
        }
        assert forall|c: int| 0 <= c < n.trans.len() implies earley_chart::row_ok(
            n,
            c,
            #[trigger] n.trans[c],
        ) by {
            if c < p.trans.len() {
                assert(n.trans[c] == p.trans[c]);
                assert(earley_chart::row_ok(p, c, p.trans[c]));
            }
        }
    }
    earley_exact::lemma_links_stay(g, p, n, start, j);
    assert(earley_complete::links_true(g, n, start, i as int)) by {
        assert forall|q: int| 0 <= q < n.arena.len() implies #[trigger] earley_complete::link_true(
            g,
            n,
            start,
            i as int,
            q,
        ) by {
            assert(earley_complete::link_true(g, n, start, j, q));
        }
    }
    assert(n.columns[i as int] == s.column);
}

/// What leads to the next column has arrived there.
proof fn lemma_arrived(
    g: earley_chart::Context,
    start: SymbolId,
    l: reading::Reading,
    hist: Seq<Seq<Item>>,
    q: Seq<Option<Seq<earley_dynamic::DelayedModel>>>,
    ds: Seq<earley_dynamic::DelayedModel>,
    s: earley_recognizer::Scanned,
    n: earley_chart::ChartModel,
    m: earley_chart::ChartModel,
    j: int,
)
    requires
        0 <= j < l.size,
        hist.len() == j + 1,
        pending_full(g, start, l, hist, q, j + 1, j),
        ds == earley_dynamic::kept_for(q, j + 1),
        forall|k: int| 0 <= k < ds.len() ==> #[trigger] has_drained(s, ds, k),
        n.columns.len() == j + 2,
        n.columns[j + 1] == s.column,
        n.scan == s.scan,
        earley_complete::more_in(n, m, j + 1),
    ensures
        forall|c: int, t: SymbolId| #[trigger]
            reading::tok_at(l, c, j + 1, t) ==> earley_exact::carried(
                g,
                hist[c],
                t,
                m.columns[j + 1] + m.scan,
            ),
        forall|c: int| #[trigger]
            reading::gap_at(l, c, j + 1) ==> earley_exact::stays(
                g,
                start,
                hist[c],
                m.columns[j + 1] + m.scan,
            ),
{
    let last = m.columns[j + 1] + m.scan;
    assert forall|c: int, t: SymbolId| #[trigger] reading::tok_at(l, c, j + 1, t) implies
        earley_exact::carried(g, hist[c], t, last) by {
        let h = hist[c];
        assert forall|k: int|
            0 <= k < h.len() && earley_chart::expected(g, #[trigger] h[k]) == Some(t) && t.ix()
                < g.nt implies earley_chart::has_item(last, earley_complete::next_item(h[k])) by {
            let x = h[k];
            assert(h.contains(x));
            assert(token_kept(q, c, j + 1, x));
            let b = choose|b: int|
                0 <= b < ds.len() && is_token_of(
                    #[trigger] earley_dynamic::kept_for(q, j + 1)[b],
                    x,
                );
            assert(has_drained(s, ds, b));
            let y = earley_complete::next_item(x);
            assert(earley_complete::present(n, j + 1, y));
            earley_complete::lemma_present_stays(n, m, j + 1, y);
            earley_exact::lemma_present_all(m, j + 1, y);
        }
    }
    assert forall|c: int| #[trigger] reading::gap_at(l, c, j + 1) implies earley_exact::stays(
        g,
        start,
        hist[c],
        last,
    ) by {
        let h = hist[c];
        assert forall|k: int| 0 <= k < h.len() && earley_exact::stands(g, start, #[trigger] h[k])
            implies earley_chart::has_item(last, h[k]) by {
            let x = h[k];
            assert(h.contains(x));
            assert(carry_kept(q, c, j + 1, x));
            let b = choose|b: int|
                0 <= b < ds.len() && #[trigger] earley_dynamic::kept_for(q, j + 1)[b]
                    == earley_dynamic::DelayedModel::Carry(x);
            assert(has_drained(s, ds, b));
            assert(earley_complete::present(n, j + 1, x));
            earley_complete::lemma_present_stays(n, m, j + 1, x);
            earley_exact::lemma_present_all(m, j + 1, x);
        }
    }
}

/// What is kept for later steps stays kept.
proof fn lemma_rest_kept(
    g: earley_chart::Context,
    start: SymbolId,
    ok: spec_fn(int, Item) -> bool,
    l: reading::Reading,
    before: Seq<Seq<Item>>,
    hist: Seq<Seq<Item>>,
    q: Seq<Option<Seq<earley_dynamic::DelayedModel>>>,
    p: Seq<Option<Seq<earley_dynamic::DelayedModel>>>,
    j: int,
)
    requires
        0 <= j < l.size,
        before.len() == j + 1,
        hist.len() == j + 2,
        forall|c: int| 0 <= c <= j ==> #[trigger] hist[c] == before[c],
        pending_sound(g, start, ok, l, q),
        pending_full(g, start, l, before, q, j + 1, j),
        p == q.update(j + 1, None),
    ensures
        pending_sound(g, start, ok, l, p),
        pending_full(g, start, l, hist, p, j + 1, j + 1),
{
    assert forall|e: int, k: int|
        0 <= e < p.len() && 0 <= k < earley_dynamic::kept_for(p, e).len() implies delayed_sound(
        g,
        start,
        ok,
        l,
        e,
        #[trigger] earley_dynamic::kept_for(p, e)[k],
    ) by {
        if e != j + 1 {
            assert(earley_dynamic::kept_for(p, e) == earley_dynamic::kept_for(q, e));
            assert(delayed_sound(g, start, ok, l, e, earley_dynamic::kept_for(q, e)[k]));
        }
    }
    assert forall|c: int, e: int, x: Item|
        0 <= c < j + 1 && j + 1 < e && hist[c].contains(x) && earley_chart::wants_terminal(g, x)
            && reading::tok_at(l, c, e, earley_chart::expected(g, x)->0) implies #[trigger] token_kept(
        p,
        c,
        e,
        x,
    ) by {
        assert(hist[c] == before[c]);
        assert(token_kept(q, c, e, x));
        assert(earley_dynamic::kept_for(p, e) == earley_dynamic::kept_for(q, e));
    }
    assert forall|c: int, e: int, x: Item|
        0 <= c < j + 1 && j + 1 < e && hist[c].contains(x) && earley_exact::stands(g, start, x)
            && reading::gap_at(l, c, e) implies #[trigger] carry_kept(p, c, e, x) by {
        assert(hist[c] == before[c]);
        assert(carry_kept(q, c, e, x));
        assert(earley_dynamic::kept_for(p, e) == earley_dynamic::kept_for(q, e));
    }
}

/// Once the whole text is passed, the start symbol has a node exactly where the
/// text is a sentence.
pub proof fn lemma_text_root(
    g: earley_chart::Context,
    start: SymbolId,
    input: earley_dynamic::Input,
    m: earley_chart::ChartModel,
    p: Seq<Option<Seq<earley_dynamic::DelayedModel>>>,
)
    requires
        earley_sound::context_true(g),
        start.ix() >= g.nt,
        input.text.len() <= usize::MAX,
        is_text_full(g, start, input, m, p, input.text.len() as int),
    ensures
        earley_forest::find_node(
            m.forest.nodes,
            NodeKey::Sym(start),
            0,
            input.text.len() as usize,
            0,
        ) is Some <==> is_text_sentence(g, start, input),
{
    let l = of_text(input, start);
    let n = input.text.len();
    let hist = choose|hist: Seq<Seq<Item>>| #[trigger]
        text_full(g, start, input, m, p, n as int, hist);
    earley_forest::lemma_find_node(m.forest.nodes, NodeKey::Sym(start), 0, n as usize, 0);
    let found = earley_forest::find_node(m.forest.nodes, NodeKey::Sym(start), 0, n as usize, 0);
    if let Some(k) = found {
        assert(earley_sound::node_derived(g, l, m.forest.nodes[k]));
        let w = choose|w: Seq<SymbolId>|
            #[trigger] reading::is_read(l, 0, n as int, w) && reading::is_solid(0, n as int, w)
                && analysis::derives(g.rules, g.nt, start, w);
        assert(is_text_sentence(g, start, input));
    }
    if is_text_sentence(g, start, input) {
        let w = choose|w: Seq<SymbolId>|
            #[trigger] reading::is_read(l, 0, n as int, w) && analysis::derives(
                g.rules,
                g.nt,
                start,
                w,
            );
        earley_reach::lemma_sentence_reached(g, start, l, m, hist, n as int, w);
        let k = choose|k: int|
            0 <= k < m.forest.nodes.len() && earley_forest::labelled(
                #[trigger] m.forest.nodes[k],
                NodeKey::Sym(start),
                0,
                n as usize,
            );
        assert(found is Some);
    }
}

/// The next column can be closed.
pub proof fn lemma_next_can_close(
    g: earley_chart::Context,
    start: SymbolId,
    input: earley_dynamic::Input,
    m0: earley_chart::ChartModel,
    p0: Seq<Option<Seq<earley_dynamic::DelayedModel>>>,
    j: int,
    hist: Seq<Seq<Item>>,
)
    requires
        earley_sound::context_true(g),
        0 <= j < input.text.len() <= usize::MAX,
        text_full(g, start, input, m0, p0, j, hist),
        are_ok(below(m0.forest.nodes.len()), j, m0.scan),
        are_ok(below(m0.forest.nodes.len()), j, m0.columns[j]),
    ensures
        earley_dynamic::character_step(g, start, input, m0, p0).0 matches Some(n)
            ==> earley_exact::can_close(
            g,
            of_text(input, start),
            n,
            (j + 1) as usize,
            start,
        ),
{
    let l = of_text(input, start);
    let nodes = m0.forest.nodes.len();
    let ok = below(nodes);
    lemma_queued(g, start, ok, input, m0, hist, p0, j);
    let q = earley_dynamic::ignored_queued(
        g,
        start,
        input,
        m0,
        j,
        earley_dynamic::items_queued(g, input, m0.scan, j, p0, m0.scan.len()),
        input.matcher.ignore.len(),
    );
    let ds = earley_dynamic::kept_for(q, j + 1);
    let i = (j + 1) as usize;
    let s = earley_dynamic::drained(g, m0.arena, m0.forest, ds, i, ds.len());
    assert forall|k: int| 0 <= k < ds.len() implies delayed_sound(
        g,
        start,
        ok,
        l,
        i as int,
        #[trigger] ds[k],
    ) by {
        assert(delayed_sound(g, start, ok, l, j + 1, earley_dynamic::kept_for(q, j + 1)[k]));
    }
    lemma_drained(g, start, l, m0.arena, m0.forest, ds, i, ds.len());
    lemma_next_closes(g, start, l, m0, hist, s, j);
}

/// What is kept for later steps stays in order.
pub proof fn lemma_rest_kept_sound(
    g: earley_chart::Context,
    start: SymbolId,
    ok: spec_fn(int, Item) -> bool,
    l: reading::Reading,
    q: Seq<Option<Seq<earley_dynamic::DelayedModel>>>,
    p: Seq<Option<Seq<earley_dynamic::DelayedModel>>>,
    j: int,
)
    requires
        0 <= j < l.size,
        pending_sound(g, start, ok, l, q),
        p == q.update(j + 1, None),
    ensures
        pending_sound(g, start, ok, l, p),
{
    assert forall|e: int, k: int|
        0 <= e < p.len() && 0 <= k < earley_dynamic::kept_for(p, e).len() implies delayed_sound(
        g,
        start,
        ok,
        l,
        e,
        #[trigger] earley_dynamic::kept_for(p, e)[k],
    ) by {
        if e != j + 1 {
            assert(earley_dynamic::kept_for(p, e) == earley_dynamic::kept_for(q, e));
            assert(delayed_sound(g, start, ok, l, e, earley_dynamic::kept_for(q, e)[k]));
        }
    }
}

} // verus!
