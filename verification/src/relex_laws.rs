//! How a text is lexed where a handler lets lexing go on behind characters that begin
//! no token.

use vstd::prelude::*;
use crate::error;
use crate::lalr_table::ParseTable;
use crate::lex_laws;
use crate::lexer;
use crate::lexer::Place;
use crate::recovery;
use crate::recovery::RecoveryHandler;
use crate::scanner;
use crate::tree;

verus! {

/// What has been lexed, with more tokens.
spec fn with_tokens<C>(l: recovery::LexPhase<C>, ts: Seq<tree::TokenModel>) -> recovery::LexPhase<
    C,
> {
    recovery::LexPhase { tokens: l.tokens + ts, ..l }
}

proof fn lemma_relexed<H: RecoveryHandler>(
    m: lexer::LexerModel,
    table: ParseTable,
    text: Seq<char>,
    p: Place,
    so_far: recovery::LexPhase<H::Content>,
) -> (r: (Seq<lex_laws::Part>, Place, Seq<tree::TokenModel>))
    requires
        p.pos <= text.len() < usize::MAX,
    ensures
        lex_laws::are_read(m.plan, text, r.0, p, r.1),
        lex_laws::are_tokens_of(m.terminals, m.ignore, r.0, r.2),
        r.1.pos == text.len() || lex_laws::is_stuck(m.plan, text, r.1),
        recovery::lex_recovered::<H>(m, table, text, p, so_far) == recovery::lex_recovered::<H>(
            m,
            table,
            text,
            r.1,
            with_tokens(so_far, r.2),
        ),
    decreases text.len() - p.pos,
{
    let none = Seq::<lex_laws::Part>::empty();
    let blank = Seq::<tree::TokenModel>::empty();
    let before = text.take(p.pos as int);
    let rest = text.skip(p.pos as int);
    if p.pos >= text.len() || lex_laws::is_stuck(m.plan, text, p) {
        reveal(Seq::filter);
        assert(so_far.tokens + blank =~= so_far.tokens);
        (none, p, blank)
    } else {
        let (id, v) = scanner::scanned(m.plan, before, rest)->0;
        lex_laws::lemma_scan_fits(m.plan, text, p);
        lexer::past_counts(p, v);
        let q = lexer::past(p, v);
        let t = lexer::token_at(m.terminals, (id, v), p);
        let next = if m.ignore.contains(id) {
            so_far
        } else {
            recovery::LexPhase { tokens: so_far.tokens.push(t), ..so_far }
        };
        let (parts, to, ts) = lemma_relexed::<H>(m, table, text, q, next);
        let x = lex_laws::Part { place: p, kind: id, value: v };
        let all = seq![x] + parts;
        lex_laws::lemma_read_on(m.plan, text, x, parts, q, to);
        let kept = |p: lex_laws::Part| !m.ignore.contains(p.kind);
        lex_laws::lemma_filter_front(parts, x, kept);
        lex_laws::lemma_token_of(m.terminals, x);
        if m.ignore.contains(id) {
            (all, to, ts)
        } else {
            let shown = seq![t] + ts;
            let k = all.filter(kept);
            assert forall|i: int| #![trigger shown[i]] 0 <= i < shown.len() implies
                lex_laws::is_token_of(m.terminals, k[i], shown[i]) by {
                if i > 0 {
                    assert(shown[i] == ts[i - 1]);
                    assert(k[i] == parts.filter(kept)[i - 1]);
                }
            }
            assert(so_far.tokens.push(t) + ts =~= so_far.tokens + shown);
            (all, to, shown)
        }
    }
}

/// Where a handler sees the characters that begin no token, a text is read part by
/// part, up to its end, or up to such a character. There the handler sees the report
/// of the character. A tree that its tokens complete ends lexing, and so does a stop;
/// otherwise lexing goes on behind the character, with what was read before and the
/// report kept.
pub proof fn lexing_goes_on_behind_bad_characters<H: RecoveryHandler>(
    m: lexer::LexerModel,
    table: ParseTable,
    text: Seq<char>,
    p: Place,
    so_far: recovery::LexPhase<H::Content>,
) -> (r: (Seq<lex_laws::Part>, Place, Seq<tree::TokenModel>))
    requires
        p.pos <= text.len() < usize::MAX,
    ensures
        lex_laws::are_read(m.plan, text, r.0, p, r.1),
        lex_laws::are_tokens_of(m.terminals, m.ignore, r.0, r.2),
        ({
            let l = recovery::lex_recovered::<H>(m, table, text, p, so_far);
            let err = error::ErrorModel::UnexpectedCharacter {
                ch: text[r.1.pos as int],
                line: r.1.line,
                col: r.1.col,
                pos: r.1.byte,
                expected: "any token"@,
            };
            let (h, ctx, act) = H::answer(
                so_far.handler,
                table,
                err,
                recovery::RecoveryModel {
                    states: so_far.states,
                    values: so_far.values,
                    fed_count: 0,
                    accepted: None,
                },
            );
            let met = recovery::LexPhase {
                end: so_far.end,
                tokens: so_far.tokens + r.2,
                errors: so_far.errors.push(err),
                handler: h,
                states: ctx.states,
                values: ctx.values,
            };
            if r.1.pos == text.len() {
                &&& l.end is Done
                &&& l.tokens.len() == so_far.tokens.len() + r.2.len() + 1
                &&& l.tokens.drop_last() == so_far.tokens + r.2
                &&& lex_laws::is_end_at(r.1, l.tokens.last())
                &&& l.errors == so_far.errors
                &&& l.handler == so_far.handler
                &&& l.states == so_far.states && l.values == so_far.values
            } else {
                &&& lex_laws::is_stuck(m.plan, text, r.1)
                &&& match ctx.accepted {
                    Some(t) => l == (recovery::LexPhase {
                        end: recovery::LexEnd::Accepted(t),
                        ..met
                    }),
                    None => if act is Stop {
                        l == (recovery::LexPhase { end: recovery::LexEnd::Stopped, ..met })
                    } else {
                        l == recovery::lex_recovered::<H>(
                            m,
                            table,
                            text,
                            lexer::past(r.1, seq![text[r.1.pos as int]]),
                            met,
                        )
                    },
                }
            }
        }),
{
    let r = lemma_relexed::<H>(m, table, text, p, so_far);
    let l = recovery::lex_recovered::<H>(m, table, text, p, so_far);
    if r.1.pos == text.len() {
        assert(l.tokens.drop_last() =~= so_far.tokens + r.2);
    } else {
        let one = seq![text[r.1.pos as int]];
        assert(one.drop_last() =~= Seq::empty());
        reveal_with_fuel(lexer::past, 2);
        assert(lexer::past(r.1, one) == lexer::after(r.1, one.last()));
    }
    r
}

} // verus!
