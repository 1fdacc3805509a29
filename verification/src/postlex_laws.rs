//! What indentation tokens keep: every block that is opened is closed.

use vstd::prelude::*;
use crate::error;
use crate::postlex;
use crate::symbols;
use crate::symbols::SymbolId;
use crate::tree;

verus! {

/// How many blocks tokens open more than they close.
pub open spec fn depth(c: postlex::IndentContext, s: Seq<tree::TokenModel>) -> int
    decreases s.len(),
{
    if s.len() == 0 {
        0
    } else {
        let before = depth(c, s.drop_last());
        if s.last().type_id == c.indent_id {
            before + 1
        } else if s.last().type_id == c.dedent_id {
            before - 1
        } else {
            before
        }
    }
}

/// Whether no block is closed before it is opened.
pub open spec fn nested(c: postlex::IndentContext, s: Seq<tree::TokenModel>) -> bool {
    forall|k: int| 0 <= k <= s.len() ==> depth(c, #[trigger] s.take(k)) >= 0
}

/// Whether the open levels of indentation are the blocks that are open.
pub open spec fn in_step(c: postlex::IndentContext, st: postlex::IndentState) -> bool {
    &&& st.stack.len() > 0
    &&& st.stack[0] == 0
    &&& depth(c, st.out) == st.stack.len() - 1
    &&& nested(c, st.out)
}

proof fn lemma_pushed(c: postlex::IndentContext, s: Seq<tree::TokenModel>, t: tree::TokenModel)
    requires
        nested(c, s),
        depth(c, s.push(t)) >= 0,
    ensures
        nested(c, s.push(t)),
{
    assert forall|k: int| 0 <= k <= s.push(t).len() implies depth(
        c,
        #[trigger] s.push(t).take(k),
    ) >= 0 by {
        if k <= s.len() {
            assert(s.push(t).take(k) =~= s.take(k));
        } else {
            assert(s.push(t).take(k) =~= s.push(t));
        }
    }
}

proof fn lemma_depth_push(c: postlex::IndentContext, s: Seq<tree::TokenModel>, t: tree::TokenModel)
    ensures
        depth(c, s.push(t)) == depth(c, s) + if t.type_id == c.indent_id {
            1int
        } else if t.type_id == c.dedent_id {
            -1int
        } else {
            0int
        },
{
    assert(s.push(t).drop_last() =~= s);
}

proof fn lemma_closed_to(
    c: postlex::IndentContext,
    st: postlex::IndentState,
    indent: usize,
    value: Seq<char>,
    pos: Option<postlex::Pos>,
)
    requires
        c.indent_id != c.dedent_id,
        in_step(c, st),
    ensures
        in_step(c, postlex::closed_to(c, st, indent, value, pos)),
    decreases st.stack.len(),
{
    if indent < st.stack.last() {
        let t = postlex::made_token(c.dedent_id, c.cfg.dedent_type, value, pos);
        lemma_depth_push(c, st.out, t);
        assert(st.stack.len() > 1);
        lemma_pushed(c, st.out, t);
        lemma_closed_to(
            c,
            postlex::IndentState { stack: st.stack.drop_last(), out: st.out.push(t), ..st },
            indent,
            value,
            pos,
        );
    }
}

proof fn lemma_all_closed(c: postlex::IndentContext, st: postlex::IndentState)
    requires
        c.indent_id != c.dedent_id,
        in_step(c, st),
    ensures
        in_step(c, postlex::all_closed(c, st)),
        postlex::all_closed(c, st).stack.len() == 1,
    decreases st.stack.len(),
{
    if st.stack.len() > 1 {
        let t = postlex::made_token(c.dedent_id, c.cfg.dedent_type, Seq::empty(), st.last);
        lemma_depth_push(c, st.out, t);
        lemma_pushed(c, st.out, t);
        lemma_all_closed(
            c,
            postlex::IndentState { stack: st.stack.drop_last(), out: st.out.push(t), ..st },
        );
    }
}

proof fn lemma_taken(c: postlex::IndentContext, st: postlex::IndentState, t: tree::TokenModel)
    requires
        c.indent_id != c.dedent_id,
        in_step(c, st),
        t.type_id != c.indent_id,
        t.type_id != c.dedent_id,
    ensures
        in_step(c, postlex::token_taken(c, st, t).0),
{
    let seen = postlex::IndentState { last: Some(postlex::pos_of(t)), ..st };
    lemma_depth_push(c, st.out, t);
    lemma_pushed(c, st.out, t);
    if t.type_ == c.cfg.nl_type && st.paren == 0 {
        let shown = postlex::IndentState { out: st.out.push(t), ..seen };
        let line = postlex::last_line(t.value);
        let indent = postlex::indentation(line, c.cfg.tab_len);
        let pos = Some(postlex::pos_of(t));
        let opened = postlex::made_token(c.indent_id, c.cfg.indent_type, line, pos);
        lemma_depth_push(c, shown.out, opened);
        lemma_pushed(c, shown.out, opened);
        lemma_closed_to(c, shown, indent, line, pos);
    }
}

proof fn lemma_tokens_taken(
    c: postlex::IndentContext,
    st: postlex::IndentState,
    tokens: Seq<tree::TokenModel>,
    i: int,
    out: Seq<tree::TokenModel>,
)
    requires
        c.indent_id != c.dedent_id,
        c.indent_id != SymbolId::end(),
        c.dedent_id != SymbolId::end(),
        in_step(c, st),
        0 <= i,
        forall|k: int|
            0 <= k < tokens.len() ==> (#[trigger] tokens[k]).type_id != c.indent_id
                && tokens[k].type_id != c.dedent_id,
        postlex::tokens_taken(c, st, tokens, i) == Ok::<
            Seq<tree::TokenModel>,
            error::ErrorModel,
        >(out),
    ensures
        nested(c, out),
        depth(c, out) == 0,
    decreases tokens.len() - i,
{
    if i >= tokens.len() || tokens[i].type_id == SymbolId::end() {
        let end = if i >= tokens.len() {
            tree::end_token()
        } else {
            tokens[i]
        };
        lemma_all_closed(c, st);
        let done = postlex::all_closed(c, st).out;
        lemma_depth_push(c, done, end);
        lemma_pushed(c, done, end);
    } else {
        lemma_taken(c, st, tokens[i]);
        lemma_tokens_taken(c, postlex::token_taken(c, st, tokens[i]).0, tokens, i + 1, out);
    }
}

/// Every block that the indenter opens it closes, and none before it is opened.
pub proof fn indentation_is_balanced(
    cfg: postlex::IndenterModel,
    infos: Seq<symbols::SymbolInfo>,
    c: postlex::IndentContext,
    tokens: Seq<tree::TokenModel>,
    out: Seq<tree::TokenModel>,
)
    requires
        postlex::context_in(cfg, infos) == Ok::<postlex::IndentContext, error::ErrorModel>(c),
        c.indent_id != c.dedent_id,
        c.indent_id != SymbolId::end(),
        c.dedent_id != SymbolId::end(),
        forall|k: int|
            0 <= k < tokens.len() ==> (#[trigger] tokens[k]).type_id != c.indent_id
                && tokens[k].type_id != c.dedent_id,
        postlex::indented(cfg, infos, tokens) == Ok::<Seq<tree::TokenModel>, error::ErrorModel>(
            out,
        ),
    ensures
        nested(c, out),
        depth(c, out) == 0,
{
    assert forall|k: int| 0 <= k <= 0 implies depth(
        c,
        #[trigger] Seq::<tree::TokenModel>::empty().take(k),
    ) >= 0 by {
        assert(Seq::<tree::TokenModel>::empty().take(k) =~= Seq::empty());
    }
    lemma_tokens_taken(c, postlex::indent_start(), tokens, 0, out);
}

} // verus!
