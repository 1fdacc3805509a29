//! What lexing a text amounts to: places are counted, tokens fill the text, and
//! lexing on demand gives what lexing ahead gives.

use vstd::prelude::*;
use crate::error;
use crate::lexer;
use crate::lexer::Place;
use crate::scanner;
use crate::scanner::Terminal;
use crate::span_laws;
use crate::symbols::SymbolId;
use crate::token_source::LexFailure;
use crate::tree;

verus! {

// ---------------------------------------------------------------------------
// Places

/// How many line feeds a text holds.
pub open spec fn line_feeds(s: Seq<char>) -> nat {
    s.filter(|c: char| c == '\n').len()
}

/// How many bytes a character takes in UTF-8: one for 7 bits, two for 11, three for
/// 16, and four for more.
pub open spec fn utf8_len(c: char) -> nat {
    if c as u32 <= 0x7f {
        1
    } else if c as u32 <= 0x7ff {
        2
    } else if c as u32 <= 0xffff {
        3
    } else {
        4
    }
}

/// How many bytes a text takes in UTF-8.
pub open spec fn utf8_size(s: Seq<char>) -> nat
    decreases s.len(),
{
    if s.len() == 0 {
        0
    } else {
        utf8_size(s.drop_last()) + utf8_len(s.last())
    }
}

/// Whether a place is the one behind a text: it counts the characters, the bytes, the
/// lines from one on, and the characters since the last line feed from one on.
pub open spec fn is_behind(s: Seq<char>, p: Place) -> bool {
    &&& p.pos == s.len()
    &&& p.byte == utf8_size(s)
    &&& p.line == line_feeds(s) + 1
    &&& 1 <= p.col <= s.len() + 1
    &&& forall|i: int| s.len() + 1 - p.col <= i < s.len() ==> #[trigger] s[i] != '\n'
    &&& p.col <= s.len() ==> s[s.len() - p.col] == '\n'
}

/// The place behind a text counts its characters, bytes and lines.
pub proof fn places_count_characters_and_lines(s: Seq<char>)
    requires
        utf8_size(s) < usize::MAX,
        s.len() < usize::MAX,
    ensures
        is_behind(s, lexer::past(lexer::origin_place(), s)),
    decreases s.len(),
{
    reveal(Seq::filter);
    if s.len() > 0 {
        let front = s.drop_last();
        places_count_characters_and_lines(front);
        let p = lexer::past(lexer::origin_place(), front);
        let q = lexer::past(lexer::origin_place(), s);
        lemma_few_feeds(front);
        assert(q == lexer::after(p, s.last()));
        assert forall|i: int| s.len() + 1 - q.col <= i < s.len() implies #[trigger] s[i]
            != '\n' by {
            if i < s.len() - 1 {
                assert(front[i] == s[i]);
            }
        }
        if q.col <= s.len() && s.last() != '\n' {
            assert(front[front.len() - p.col] == s[s.len() - q.col]);
        }
    }
}

proof fn lemma_few_feeds(s: Seq<char>)
    ensures
        line_feeds(s) <= s.len(),
    decreases s.len(),
{
    reveal(Seq::filter);
    if s.len() > 0 {
        lemma_few_feeds(s.drop_last());
    }
}

// ---------------------------------------------------------------------------
// The tokens of a text

/// A part of a text as it is read: where it begins, and what a scan found there.
pub ghost struct Part {
    pub place: Place,
    pub kind: SymbolId,
    pub value: Seq<char>,
}

/// Whether parts are read one behind the other, from a place on, each as a plan finds
/// it there; and where reading gets to.
pub open spec fn are_read(
    plan: scanner::PlanModel,
    text: Seq<char>,
    parts: Seq<Part>,
    from: Place,
    to: Place,
) -> bool {
    &&& from.pos <= to.pos <= text.len()
    &&& parts.len() == 0 ==> from == to
    &&& parts.len() > 0 ==> parts[0].place == from
    &&& forall|i: int|
        #![trigger parts[i]]
        0 <= i < parts.len() ==> {
            let p = parts[i].place;
            &&& from.pos <= p.pos < text.len()
            &&& scanner::scanned(plan, text.take(p.pos as int), text.skip(p.pos as int)) == Some(
                (parts[i].kind, parts[i].value),
            )
            &&& parts[i].value.len() > 0
            &&& p.pos + parts[i].value.len() <= text.len()
            &&& parts[i].value == text.subrange(p.pos as int, p.pos + parts[i].value.len())
            &&& lexer::past(p, parts[i].value) == if i + 1 < parts.len() {
                parts[i + 1].place
            } else {
                to
            }
        }
}

/// The name of the first terminal under an id, if there is one.
pub open spec fn is_named(terms: Seq<Terminal>, id: SymbolId, name: Seq<char>) -> bool {
    ||| exists|k: int|
        0 <= k < terms.len() && (#[trigger] terms[k]).id == id && terms[k].def.name@ == name
            && forall|j: int| 0 <= j < k ==> (#[trigger] terms[j]).id != id
    ||| name.len() == 0 && forall|j: int| 0 <= j < terms.len() ==> (#[trigger] terms[j]).id != id
}

proof fn lemma_named(terms: Seq<Terminal>, id: SymbolId, i: int)
    requires
        0 <= i <= terms.len(),
        forall|j: int| 0 <= j < i ==> (#[trigger] terms[j]).id != id,
    ensures
        is_named(terms, id, lexer::terminal_name(terms, id, i)),
    decreases terms.len() - i,
{
    if i < terms.len() && terms[i].id != id {
        lemma_named(terms, id, i + 1);
    }
}

/// Whether a token is what was read of a part of a text.
pub open spec fn is_token_of(terms: Seq<Terminal>, part: Part, t: tree::TokenModel) -> bool {
    let end = lexer::past(part.place, part.value);
    &&& t.type_id == part.kind
    &&& is_named(terms, part.kind, t.type_)
    &&& t.value == part.value
    &&& t.line == part.place.line && t.column == part.place.col
    &&& t.start_pos == part.place.pos
    &&& t.end_line == end.line && t.end_column == end.col
    &&& t.end_pos == end.pos
}

/// Whether tokens are what was read of the parts of a text that are not ignored, in
/// their order.
pub open spec fn are_tokens_of(
    terms: Seq<Terminal>,
    ignore: Seq<SymbolId>,
    parts: Seq<Part>,
    ts: Seq<tree::TokenModel>,
) -> bool {
    let kept = parts.filter(|p: Part| !ignore.contains(p.kind));
    &&& ts.len() == kept.len()
    &&& forall|i: int|
        #![trigger ts[i]]
        0 <= i < ts.len() ==> is_token_of(terms, kept[i], ts[i])
}

/// Whether a token is the end of input at a place.
pub open spec fn is_end_at(p: Place, t: tree::TokenModel) -> bool {
    &&& t.type_id == SymbolId::end()
    &&& t.start_pos == p.pos && t.end_pos == p.pos
    &&& t.line == p.line && t.end_line == p.line
    &&& t.column == p.col && t.end_column == p.col
}

/// Whether nothing is found at a place of a text.
pub open spec fn is_stuck(plan: scanner::PlanModel, text: Seq<char>, p: Place) -> bool {
    scanner::scanned(plan, text.take(p.pos as int), text.skip(p.pos as int)) is None
}

/// The report of the character at a place.
pub open spec fn is_report(text: Seq<char>, p: Place, e: error::ErrorModel) -> bool {
    e == error::ErrorModel::UnexpectedCharacter {
        ch: text[p.pos as int],
        line: p.line,
        col: p.col,
        pos: p.byte,
        expected: "any token"@,
    }
}

pub(crate) proof fn lemma_filter_front(parts: Seq<Part>, x: Part, f: spec_fn(Part) -> bool)
    ensures
        (seq![x] + parts).filter(f) == if f(x) {
            seq![x] + parts.filter(f)
        } else {
            parts.filter(f)
        },
    decreases parts.len(),
{
    reveal(Seq::filter);
    let all = seq![x] + parts;
    if parts.len() == 0 {
        assert(all =~= seq![x]);
        assert(all.drop_last() =~= Seq::<Part>::empty());
        assert(all.last() == x);
        reveal_with_fuel(Seq::filter, 2);
        assert(all.filter(f) =~= if f(x) {
            seq![x]
        } else {
            Seq::<Part>::empty()
        });
        assert(parts.filter(f) =~= Seq::<Part>::empty());
        assert(seq![x] + parts.filter(f) =~= seq![x]);
    } else {
        lemma_filter_front(parts.drop_last(), x, f);
        assert(all.drop_last() =~= seq![x] + parts.drop_last());
        assert(all.last() == parts.last());
        if f(x) && f(parts.last()) {
            assert((seq![x] + parts.drop_last().filter(f)).push(parts.last()) =~= seq![x]
                + parts.drop_last().filter(f).push(parts.last()));
        }
    }
}

/// Parts that are read behind one that is read are read with it.
pub(crate) proof fn lemma_read_on(
    plan: scanner::PlanModel,
    text: Seq<char>,
    x: Part,
    parts: Seq<Part>,
    next: Place,
    to: Place,
)
    requires
        are_read(plan, text, parts, next, to),
        are_read(plan, text, seq![x], x.place, next),
    ensures
        are_read(plan, text, seq![x] + parts, x.place, to),
{
    let all = seq![x] + parts;
    assert(seq![x][0] == x);
    assert forall|i: int| #![trigger all[i]] 0 <= i < all.len() implies {
        let p = all[i].place;
        &&& x.place.pos <= p.pos < text.len()
        &&& scanner::scanned(plan, text.take(p.pos as int), text.skip(p.pos as int)) == Some(
            (all[i].kind, all[i].value),
        )
        &&& all[i].value.len() > 0
        &&& p.pos + all[i].value.len() <= text.len()
        &&& all[i].value == text.subrange(p.pos as int, p.pos + all[i].value.len())
        &&& lexer::past(p, all[i].value) == if i + 1 < all.len() {
            all[i + 1].place
        } else {
            to
        }
    } by {
        if i > 0 {
            assert(all[i] == parts[i - 1]);
            if i + 1 < all.len() {
                assert(all[i + 1] == parts[i]);
            }
        } else if parts.len() > 0 {
            assert(all[1] == parts[0]);
        }
    }
}

/// The token of a match is what was read there.
pub(crate) proof fn lemma_token_of(terms: Seq<Terminal>, x: Part)
    ensures
        is_token_of(terms, x, lexer::token_at(terms, (x.kind, x.value), x.place)),
{
    lemma_named(terms, x.kind, 0);
}

/// Tokens fill a text from a place on: parts are read one behind the other, each as
/// the scanner finds it; those that are not ignored are the tokens, and the end of
/// input comes last. Where a text is refused, parts are read up to a character at
/// which nothing is found, and that is what is reported.
pub proof fn tokens_fill_the_text(m: lexer::LexerModel, text: Seq<char>, p: Place) -> (r: (
    Seq<Part>,
    Place,
))
    requires
        p.pos <= text.len() < usize::MAX,
    ensures
        are_read(m.plan, text, r.0, p, r.1),
        match lexer::lexed(m, text, p) {
            Ok(ts) => ts.len() > 0 && r.1.pos == text.len() && is_end_at(r.1, ts.last())
                && are_tokens_of(m.terminals, m.ignore, r.0, ts.drop_last()),
            Err(e) => r.1.pos < text.len() && is_stuck(m.plan, text, r.1) && is_report(
                text,
                r.1,
                e,
            ),
        },
    decreases text.len() - p.pos,
{
    let none = Seq::<Part>::empty();
    if p.pos >= text.len() {
        reveal(Seq::filter);
        let ts = seq![lexer::end_at(p)];
        assert(ts.drop_last() =~= Seq::empty());
        (none, p)
    } else {
        match scanner::scanned(m.plan, text.take(p.pos as int), text.skip(p.pos as int)) {
            None => (none, p),
            Some((id, v)) => {
                lemma_scan_fits(m.plan, text, p);
                lexer::past_counts(p, v);
                let q = lexer::past(p, v);
                let (parts, to) = tokens_fill_the_text(m, text, q);
                let x = Part { place: p, kind: id, value: v };
                let all = seq![x] + parts;
                let kept = |p: Part| !m.ignore.contains(p.kind);
                lemma_filter_front(parts, x, kept);
                assert forall|i: int| #![trigger all[i]] 0 <= i < all.len() implies {
                    let c = all[i].place;
                    &&& p.pos <= c.pos < text.len()
                    &&& scanner::scanned(
                        m.plan,
                        text.take(c.pos as int),
                        text.skip(c.pos as int),
                    ) == Some((all[i].kind, all[i].value))
                    &&& all[i].value.len() > 0
                    &&& c.pos + all[i].value.len() <= text.len()
                    &&& all[i].value == text.subrange(c.pos as int, c.pos + all[i].value.len())
                    &&& lexer::past(c, all[i].value) == if i + 1 < all.len() {
                        all[i + 1].place
                    } else {
                        to
                    }
                } by {
                    if i > 0 {
                        assert(all[i] == parts[i - 1]);
                        if i + 1 < all.len() {
                            assert(all[i + 1] == parts[i]);
                        }
                    } else if parts.len() > 0 {
                        assert(all[1] == parts[0]);
                    }
                }
                if let Ok(ts) = lexer::lexed(m, text, q) {
                    let t = lexer::token_at(m.terminals, (id, v), p);
                    lemma_named(m.terminals, id, 0);
                    assert(is_token_of(m.terminals, x, t));
                    let out = lexer::lexed(m, text, p)->Ok_0;
                    if m.ignore.contains(id) {
                        assert(out == ts);
                    } else {
                        assert(out == seq![t] + ts);
                        let k = all.filter(kept);
                        let shown = out.drop_last();
                        assert(shown =~= seq![t] + ts.drop_last());
                        assert forall|i: int|
                            #![trigger shown[i]]
                            0 <= i < shown.len() implies is_token_of(
                            m.terminals,
                            k[i],
                            shown[i],
                        ) by {
                            if i > 0 {
                                assert(shown[i] == ts.drop_last()[i - 1]);
                                assert(k[i] == parts.filter(kept)[i - 1]);
                            }
                        }
                    }
                }
                (all, to)
            },
        }
    }
}

/// What is found at a place of a text stands there.
pub(crate) proof fn lemma_scan_fits(plan: scanner::PlanModel, text: Seq<char>, p: Place)
    requires
        p.pos <= text.len(),
    ensures
        scanner::scanned(plan, text.take(p.pos as int), text.skip(p.pos as int)) matches Some((id, v))
            ==> v.len() > 0 && p.pos + v.len() <= text.len() && v == text.subrange(
            p.pos as int,
            p.pos + v.len(),
        ),
{
    let rest = text.skip(p.pos as int);
    span_laws::lemma_first_match(plan, text.take(p.pos as int), rest, 0);
    if let Some((id, v)) = scanner::first_match(plan, text.take(p.pos as int), rest, 0) {
        assert(rest.take(v.len() as int) =~= text.subrange(p.pos as int, p.pos + v.len()));
    }
}

// ---------------------------------------------------------------------------
// Lexing on demand

/// Pulling tokens one by one gives those that lexing ahead gives: what is not ignored
/// next, then what follows it; and the same report where a text is refused.
pub proof fn pulling_is_lexing(m: lexer::LexerModel, text: Seq<char>, p: Place)
    requires
        p.pos <= text.len() < usize::MAX,
    ensures
        ({
            let (q, r) = lexer::pulled(seq![m.plan], m.terminals, m.ignore, text, p);
            match r {
                Err(f) => f == (LexFailure {
                    ch: text[q.pos as int],
                    line: q.line,
                    col: q.col,
                    pos: q.byte,
                }) && q.pos < text.len() && (lexer::lexed(m, text, p) matches Err(e) && is_report(
                    text,
                    q,
                    e,
                )),
                Ok(t) => if q.pos >= text.len() {
                    lexer::lexed(m, text, p) == Ok::<Seq<tree::TokenModel>, error::ErrorModel>(
                        seq![t],
                    )
                } else {
                    let next = lexer::past(q, t.value);
                    match lexer::lexed(m, text, next) {
                        Ok(ts) => lexer::lexed(m, text, p) == Ok::<
                            Seq<tree::TokenModel>,
                            error::ErrorModel,
                        >(seq![t] + ts),
                        Err(e) => lexer::lexed(m, text, p) == Err::<
                            Seq<tree::TokenModel>,
                            error::ErrorModel,
                        >(e),
                    }
                },
            }
        }),
    decreases text.len() - p.pos,
{
    let plans = seq![m.plan];
    if p.pos < text.len() {
        assert(plans[0] == m.plan);
        reveal_with_fuel(lexer::plans_token, 2);
        let found = lexer::next_token(m.plan, m.terminals, text, p);
        assert(lexer::plans_token(plans, m.terminals, text, p, 0) == found);
        if let Some(t) = found {
            lemma_scan_fits(m.plan, text, p);
            lexer::past_counts(p, t.value);
            if m.ignore.contains(t.type_id) {
                pulling_is_lexing(m, text, lexer::past(p, t.value));
            }
        }
    }
}

} // verus!
