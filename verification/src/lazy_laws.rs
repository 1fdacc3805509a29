//! A source that lexes on demand and turns indentation into tokens gives the tokens
//! that come of lexing ahead.

use vstd::prelude::*;
use crate::error;
use crate::lex_laws;
use crate::lex_sources;
use crate::lexer;
use crate::postlex;
use crate::resume_laws;
use crate::symbols;
use crate::symbols::SymbolId;
use crate::tree;

verus! {

// ---------------------------------------------------------------------------
// What was put out before makes no difference

spec fn behind(pre: Seq<tree::TokenModel>, st: postlex::IndentState) -> postlex::IndentState {
    postlex::IndentState { out: pre + st.out, ..st }
}

proof fn lemma_closed_to(
    c: postlex::IndentContext,
    pre: Seq<tree::TokenModel>,
    st: postlex::IndentState,
    indent: usize,
    value: Seq<char>,
    pos: Option<postlex::Pos>,
)
    ensures
        postlex::closed_to(c, behind(pre, st), indent, value, pos) == behind(
            pre,
            postlex::closed_to(c, st, indent, value, pos),
        ),
    decreases st.stack.len(),
{
    if !(st.stack.len() == 0 || indent >= st.stack.last()) {
        let d = postlex::made_token(c.dedent_id, c.cfg.dedent_type, value, pos);
        let next = postlex::IndentState {
            stack: st.stack.drop_last(),
            out: st.out.push(d),
            ..st
        };
        lemma_closed_to(c, pre, next, indent, value, pos);
        assert((pre + st.out).push(d) =~= pre + st.out.push(d));
    }
}

proof fn lemma_newline_taken(
    c: postlex::IndentContext,
    pre: Seq<tree::TokenModel>,
    st: postlex::IndentState,
    t: tree::TokenModel,
)
    ensures
        ({
            let x = postlex::newline_taken(c, behind(pre, st), t);
            let y = postlex::newline_taken(c, st, t);
            x.0 == behind(pre, y.0) && x.1 == y.1
        }),
{
    let shown = postlex::IndentState { out: st.out.push(t), ..st };
    assert((pre + st.out).push(t) =~= pre + st.out.push(t));
    let line = postlex::last_line(t.value);
    let indent = postlex::indentation(line, c.cfg.tab_len);
    let pos = Some(postlex::pos_of(t));
    let d = postlex::made_token(c.indent_id, c.cfg.indent_type, line, pos);
    assert((pre + shown.out).push(d) =~= pre + shown.out.push(d));
    lemma_closed_to(c, pre, shown, indent, line, pos);
}

proof fn lemma_token_taken(
    c: postlex::IndentContext,
    pre: Seq<tree::TokenModel>,
    st: postlex::IndentState,
    t: tree::TokenModel,
)
    ensures
        ({
            let x = postlex::token_taken(c, behind(pre, st), t);
            let y = postlex::token_taken(c, st, t);
            x.0 == behind(pre, y.0) && x.1 == y.1
        }),
{
    let seen = postlex::IndentState { last: Some(postlex::pos_of(t)), ..st };
    assert((pre + st.out).push(t) =~= pre + st.out.push(t));
    if t.type_ == c.cfg.nl_type {
        lemma_newline_taken(c, pre, seen, t);
        assert(behind(pre, seen) == (postlex::IndentState {
            last: Some(postlex::pos_of(t)),
            ..behind(pre, st)
        }));
    }
}

proof fn lemma_all_closed(
    c: postlex::IndentContext,
    pre: Seq<tree::TokenModel>,
    st: postlex::IndentState,
)
    ensures
        postlex::all_closed(c, behind(pre, st)) == behind(pre, postlex::all_closed(c, st)),
    decreases st.stack.len(),
{
    if st.stack.len() > 1 {
        let d = postlex::made_token(c.dedent_id, c.cfg.dedent_type, Seq::empty(), st.last);
        let next = postlex::IndentState {
            stack: st.stack.drop_last(),
            out: st.out.push(d),
            ..st
        };
        lemma_all_closed(c, pre, next);
        assert((pre + st.out).push(d) =~= pre + st.out.push(d));
    }
}

proof fn lemma_tokens_taken(
    c: postlex::IndentContext,
    pre: Seq<tree::TokenModel>,
    st: postlex::IndentState,
    tokens: Seq<tree::TokenModel>,
    i: int,
)
    ensures
        match postlex::tokens_taken(c, st, tokens, i) {
            Ok(out) => postlex::tokens_taken(c, behind(pre, st), tokens, i) == Ok::<
                Seq<tree::TokenModel>,
                error::ErrorModel,
            >(pre + out),
            Err(e) => postlex::tokens_taken(c, behind(pre, st), tokens, i) == Err::<
                Seq<tree::TokenModel>,
                error::ErrorModel,
            >(e),
        },
    decreases tokens.len() - i,
{
    lemma_all_closed(c, pre, st);
    let out = postlex::all_closed(c, st).out;
    if i < 0 || i >= tokens.len() {
        assert((pre + out).push(tree::end_token()) =~= pre + out.push(tree::end_token()));
    } else if tokens[i].type_id == SymbolId::end() {
        assert((pre + out).push(tokens[i]) =~= pre + out.push(tokens[i]));
    } else {
        lemma_token_taken(c, pre, st, tokens[i]);
        let next = postlex::token_taken(c, st, tokens[i]).0;
        lemma_tokens_taken(c, pre, next, tokens, i + 1);
    }
}

/// What the first of some tokens does is done before the rest.
proof fn lemma_shifted(
    c: postlex::IndentContext,
    st: postlex::IndentState,
    t: tree::TokenModel,
    rest: Seq<tree::TokenModel>,
    i: int,
)
    requires
        0 <= i,
    ensures
        postlex::tokens_taken(c, st, seq![t] + rest, i + 1) == postlex::tokens_taken(
            c,
            st,
            rest,
            i,
        ),
    decreases rest.len() - i,
{
    let all = seq![t] + rest;
    if i < rest.len() {
        assert(all[i + 1] == rest[i]);
        if rest[i].type_id != SymbolId::end() {
            let next = postlex::token_taken(c, st, rest[i]).0;
            lemma_shifted(c, next, t, rest, i + 1);
        }
    }
}

// ---------------------------------------------------------------------------
// Draining a source

/// The first `n` tokens that a source gives, each consumed before the next is looked
/// at.
pub open spec fn drained(c: lex_sources::IndentedModel, state: nat, n: nat) -> Seq<
    tree::TokenModel,
>
    decreases n,
{
    if n == 0 {
        Seq::empty()
    } else {
        match lex_sources::indented_peek(c, state) {
            (next, Ok(t)) => seq![t] + drained(
                lex_sources::IndentedModel { current: None, ..next },
                state,
                (n - 1) as nat,
            ),
            (_, Err(_)) => Seq::empty(),
        }
    }
}

/// Once the end is met, what is ready is given, and then the end.
proof fn lemma_ended(c: lex_sources::IndentedModel, state: nat, end: tree::TokenModel)
    requires
        c.current is None,
        c.finished,
        c.end == Some(end),
    ensures
        drained(c, state, c.state.out.len() + 1) == c.state.out.push(end),
    decreases c.state.out.len(),
{
    let out = c.state.out;
    if out.len() > 0 {
        let next = lex_sources::handed_out(c).0;
        let rest = lex_sources::IndentedModel { current: None, ..next };
        lemma_ended(rest, state, end);
        assert(seq![out[0]] + out.drop_first().push(end) =~= out.push(end));
    } else {
        let next = lex_sources::ended(c, end).0;
        assert(drained(lex_sources::IndentedModel { current: None, ..next }, state, 0)
            =~= Seq::empty());
        assert(seq![end] + Seq::<tree::TokenModel>::empty() =~= out.push(end));
    }
}

proof fn lemma_drained(
    l: lexer::LexerModel,
    c: lex_sources::IndentedModel,
    state: nat,
    toks: Seq<tree::TokenModel>,
    out: Seq<tree::TokenModel>,
)
    requires
        c.inner.lexer == lex_sources::KindModel::Basic(l),
        c.inner.current is None,
        c.current is None,
        c.end is None,
        !c.finished,
        c.inner.place.pos <= c.inner.text.len() < usize::MAX,
        lexer::lexed(l, c.inner.text, c.inner.place) == Ok::<
            Seq<tree::TokenModel>,
            error::ErrorModel,
        >(toks),
        postlex::tokens_taken(c.context, c.state, toks, 0) == Ok::<
            Seq<tree::TokenModel>,
            error::ErrorModel,
        >(out),
    ensures
        drained(c, state, out.len()) == out,
    decreases c.inner.text.len() - c.inner.place.pos, c.state.out.len(),
{
    let ctx = c.context;
    if c.state.out.len() > 0 {
        let first = c.state.out[0];
        let pre = seq![first];
        let later = postlex::IndentState { out: c.state.out.drop_first(), ..c.state };
        assert(pre + later.out =~= c.state.out);
        assert(behind(pre, later) == c.state);
        lemma_tokens_taken(ctx, pre, later, toks, 0);
        let rest = postlex::tokens_taken(ctx, later, toks, 0)->Ok_0;
        assert(out == pre + rest);
        let next = lex_sources::IndentedModel {
            current: None,
            ..lex_sources::handed_out(c).0
        };
        lemma_drained(l, next, state, toks, rest);
        assert(out.len() == rest.len() + 1);
    } else {
        let text = c.inner.text;
        let p = c.inner.place;
        let (q, got) = lex_sources::next_of(c.inner.lexer, state, text, p);
        assert(lex_sources::plans_for(c.inner.lexer, state) =~= seq![l.plan]);
        lex_laws::pulling_is_lexing(l, text, p);
        resume_laws::lemma_pull_fits(seq![l.plan], l.terminals, l.ignore, text, p);
        let t = got->Ok_0;
        let (seen, _) = lex_sources::lazy_peek(c.inner, state);
        let inner = lex_sources::lazy_advance(seen);
        if t.type_id == SymbolId::end() {
            assert(toks[0] == t);
            let closed = postlex::all_closed(ctx, c.state);
            assert(out == closed.out.push(t));
            let met = lex_sources::IndentedModel { inner, end: Some(t), ..c };
            let done = lex_sources::IndentedModel { state: closed, finished: true, ..met };
            assert(lex_sources::ended(met, t) == lex_sources::ended(done, t));
            lemma_ended(done, state, t);
            assert(lex_sources::indented_peek(c, state) == lex_sources::indented_peek(
                done,
                state,
            ));
        } else {
            lexer::past_counts(q, t.value);
            let place = lexer::past(q, t.value);
            let rest = lexer::lexed(l, text, place)->Ok_0;
            assert(toks == seq![t] + rest);
            assert(toks[0] == t);
            let (st, err) = postlex::token_taken(ctx, c.state, t);
            lemma_shifted(ctx, st, t, rest, 0);
            let next = lex_sources::IndentedModel { inner, state: st, ..c };
            lemma_drained(l, next, state, rest, out);
            assert(lex_sources::indented_peek(c, state) == lex_sources::indented_peek(
                next,
                state,
            ));
            assert(drained(c, state, out.len()) == drained(next, state, out.len()));
        }
    }
}

/// A source that lexes a text on demand, with all terminals everywhere, and turns
/// indentation into tokens gives the tokens that come of lexing the text ahead and
/// turning its indentation into tokens.
pub proof fn lazy_indentation_is_eager(
    l: lexer::LexerModel,
    cfg: postlex::IndenterModel,
    infos: Seq<symbols::SymbolInfo>,
    text: Seq<char>,
    state: nat,
    toks: Seq<tree::TokenModel>,
    out: Seq<tree::TokenModel>,
    source: lex_sources::IndentedModel,
)
    requires
        text.len() < usize::MAX,
        lexer::lexed(l, text, lexer::origin_place()) == Ok::<
            Seq<tree::TokenModel>,
            error::ErrorModel,
        >(toks),
        postlex::indented(cfg, infos, toks) == Ok::<Seq<tree::TokenModel>, error::ErrorModel>(out),
        lex_sources::indented_source(lex_sources::KindModel::Basic(l), text, cfg, infos) == Ok::<
            lex_sources::IndentedModel,
            error::ErrorModel,
        >(source),
    ensures
        drained(source, state, out.len()) == out,
{
    lemma_drained(l, source, state, toks, out);
}

} // verus!
