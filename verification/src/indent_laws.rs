//! What the indenter makes of tokens, told from the tokens alone: brackets are
//! counted over the input, and levels of indentation are those of the lines.

use vstd::prelude::*;
use crate::error;
use crate::postlex;
use crate::symbols;
use crate::symbols::SymbolId;
use crate::tree;

verus! {

// ---------------------------------------------------------------------------
// Lines

/// Whether `l` is what follows the last line break of `s`, or all of it.
pub open spec fn is_last_line(s: Seq<char>, l: Seq<char>) -> bool {
    &&& !l.contains('\n')
    &&& s == l || exists|a: Seq<char>| s == #[trigger] a.push('\n') + l
}

/// How many columns the blanks and the tabs of a text take.
pub open spec fn columns(s: Seq<char>, tab_len: usize) -> int {
    s.filter(|c: char| c == ' ').len() + tab_len * s.filter(|c: char| c == '\t').len()
}

/// The same, but no more than a machine word holds.
pub open spec fn width(s: Seq<char>, tab_len: usize) -> usize {
    if columns(s, tab_len) > usize::MAX {
        usize::MAX
    } else {
        columns(s, tab_len) as usize
    }
}

/// What is measured is what follows the last line break.
pub proof fn last_lines_are_measured(s: Seq<char>)
    ensures
        is_last_line(s, postlex::last_line(s)),
    decreases s.len(),
{
    if s.len() > 0 {
        let l = postlex::last_line(s);
        if s.last() == '\n' {
            assert(s =~= s.drop_last().push('\n') + l);
        } else {
            let front = s.drop_last();
            let m = postlex::last_line(front);
            last_lines_are_measured(front);
            assert(l == m.push(s.last()));
            assert(!l.contains('\n')) by {
                if l.contains('\n') {
                    let i = choose|i: int| 0 <= i < l.len() && l[i] == '\n';
                    assert(i < m.len());
                    assert(m[i] == '\n');
                }
            }
            if front == m {
                assert(s =~= l);
            } else {
                let a = choose|a: Seq<char>| front == #[trigger] a.push('\n') + m;
                assert(s =~= front.push(s.last()));
                assert((a.push('\n') + m).push(s.last()) =~= a.push('\n') + m.push(s.last()));
                assert(s == a.push('\n') + l);
            }
        }
    }
}

/// A line indents by its blanks, one column each, and by its tabs.
pub proof fn blanks_and_tabs_indent(s: Seq<char>, tab_len: usize)
    ensures
        postlex::indentation(s, tab_len) == width(s, tab_len),
    decreases s.len(),
{
    reveal(Seq::filter);
    if s.len() > 0 {
        let front = s.drop_last();
        blanks_and_tabs_indent(front, tab_len);
        let tabs = front.filter(|c: char| c == '\t').len();
        assert(tab_len * (tabs + 1) == tab_len * tabs + tab_len) by (nonlinear_arith);
        assert(tab_len * tabs >= 0) by (nonlinear_arith)
            requires
                tab_len >= 0,
                tabs >= 0,
        ;
    } else {
        assert(tab_len * 0 == 0);
    }
}

// ---------------------------------------------------------------------------
// Brackets and levels

/// Whether a token opens a bracket.
pub open spec fn opens(cfg: postlex::IndenterModel, t: tree::TokenModel) -> bool {
    cfg.open.contains(t.type_)
}

/// Whether a token closes a bracket.
pub open spec fn closes(cfg: postlex::IndenterModel, t: tree::TokenModel) -> bool {
    cfg.close.contains(t.type_) && !cfg.open.contains(t.type_)
}

/// How many brackets tokens open more than they close.
pub open spec fn balance(cfg: postlex::IndenterModel, s: Seq<tree::TokenModel>) -> int {
    s.filter(|t: tree::TokenModel| opens(cfg, t)).len() - s.filter(
        |t: tree::TokenModel| closes(cfg, t),
    ).len()
}

/// Whether token `k` is a newline outside all brackets.
pub open spec fn is_line(
    cfg: postlex::IndenterModel,
    tokens: Seq<tree::TokenModel>,
    k: int,
) -> bool {
    tokens[k].type_ == cfg.nl_type && balance(cfg, tokens.take(k)) == 0
}

/// How far the line behind a newline is indented.
pub open spec fn line_width(cfg: postlex::IndenterModel, t: tree::TokenModel) -> usize {
    width(postlex::last_line(t.value), cfg.tab_len)
}

/// The levels that are open behind the first `k` tokens: a line leaves those that it
/// is indented deeper than, and adds its own.
pub open spec fn levels(
    cfg: postlex::IndenterModel,
    tokens: Seq<tree::TokenModel>,
    k: nat,
) -> Seq<usize>
    decreases k,
{
    if k == 0 {
        seq![0usize]
    } else {
        let before = levels(cfg, tokens, (k - 1) as nat);
        if is_line(cfg, tokens, k - 1) {
            let w = line_width(cfg, tokens[k - 1]);
            before.filter(|l: usize| l < w).push(w)
        } else {
            before
        }
    }
}

// ---------------------------------------------------------------------------
// What comes out

/// A token of a kind and a text where another stands.
pub open spec fn standing_at(
    id: SymbolId,
    name: Seq<char>,
    value: Seq<char>,
    t: tree::TokenModel,
) -> tree::TokenModel {
    tree::TokenModel { type_id: id, type_: name, value, ..t }
}

/// What token `k` turns into: a newline within brackets into nothing; a line that is
/// indented deeper than the one before begins a block, and one that is not ends all
/// that are deeper.
pub open spec fn turned(
    c: postlex::IndentContext,
    tokens: Seq<tree::TokenModel>,
    k: int,
) -> Seq<tree::TokenModel> {
    let t = tokens[k];
    let before = levels(c.cfg, tokens, k as nat);
    let after = levels(c.cfg, tokens, (k + 1) as nat);
    let line = postlex::last_line(t.value);
    if t.type_ != c.cfg.nl_type {
        seq![t]
    } else if balance(c.cfg, tokens.take(k)) > 0 {
        Seq::empty()
    } else if after.len() > before.len() {
        seq![t, standing_at(c.indent_id, c.cfg.indent_type, line, t)]
    } else {
        seq![t] + Seq::new(
            (before.len() - after.len()) as nat,
            |i: int| standing_at(c.dedent_id, c.cfg.dedent_type, line, t),
        )
    }
}

/// What the first `k` tokens turn into.
pub open spec fn all_turned(
    c: postlex::IndentContext,
    tokens: Seq<tree::TokenModel>,
    k: nat,
) -> Seq<tree::TokenModel>
    decreases k,
{
    if k == 0 {
        Seq::empty()
    } else {
        all_turned(c, tokens, (k - 1) as nat) + turned(c, tokens, k - 1)
    }
}

/// The ends of the blocks that are open behind the first `k` tokens.
pub open spec fn last_ends(
    c: postlex::IndentContext,
    tokens: Seq<tree::TokenModel>,
    k: nat,
) -> Seq<tree::TokenModel> {
    Seq::new(
        (levels(c.cfg, tokens, k).len() - 1) as nat,
        |i: int| standing_at(c.dedent_id, c.cfg.dedent_type, Seq::empty(), tokens[k - 1]),
    )
}

/// Whether token `k` closes a bracket where none is open.
pub open spec fn is_stray(
    cfg: postlex::IndenterModel,
    tokens: Seq<tree::TokenModel>,
    k: int,
) -> bool {
    closes(cfg, tokens[k]) && balance(cfg, tokens.take(k)) == 0
}

/// Whether token `k` begins a line that goes back to a level that is not open.
pub open spec fn is_misplaced(
    cfg: postlex::IndenterModel,
    tokens: Seq<tree::TokenModel>,
    k: int,
) -> bool {
    let before = levels(cfg, tokens, k as nat);
    let w = line_width(cfg, tokens[k]);
    is_line(cfg, tokens, k) && w < before.last() && !before.contains(w)
}

/// The level that a line goes back to at most: the deepest that is open and not
/// deeper than it.
pub open spec fn is_floor(levels: Seq<usize>, w: usize, l: usize) -> bool {
    &&& levels.contains(l) && l <= w
    &&& forall|m: usize| #[trigger] levels.contains(m) && m <= w ==> m <= l
}

// ---------------------------------------------------------------------------
// The proof

spec fn ascends(s: Seq<usize>) -> bool {
    forall|i: int, j: int| 0 <= i < j < s.len() ==> s[i] < s[j]
}

/// Whether a state is the one behind the first `k` tokens.
spec fn is_behind(
    c: postlex::IndentContext,
    tokens: Seq<tree::TokenModel>,
    k: nat,
    st: postlex::IndentState,
) -> bool {
    &&& st.paren == balance(c.cfg, tokens.take(k as int))
    &&& st.stack == levels(c.cfg, tokens, k)
    &&& st.stack.len() > 0 && st.stack[0] == 0 && ascends(st.stack)
    &&& st.out == all_turned(c, tokens, k)
    &&& st.last == if k == 0 {
        None::<postlex::Pos>
    } else {
        Some(postlex::pos_of(tokens[k - 1]))
    }
}

proof fn lemma_balance(cfg: postlex::IndenterModel, tokens: Seq<tree::TokenModel>, k: int)
    requires
        0 <= k < tokens.len(),
    ensures
        balance(cfg, tokens.take(k + 1)) == balance(cfg, tokens.take(k)) + if opens(
            cfg,
            tokens[k],
        ) {
            1int
        } else if closes(cfg, tokens[k]) {
            -1int
        } else {
            0int
        },
        balance(cfg, tokens.take(k + 1)) <= k + 1,
{
    reveal(Seq::filter);
    let s = tokens.take(k + 1);
    assert(s.drop_last() =~= tokens.take(k));
    assert(s.last() == tokens[k]);
    let f = |t: tree::TokenModel| opens(cfg, t);
    s.lemma_filter_len(f);
}

proof fn lemma_made(
    id: SymbolId,
    name: Seq<char>,
    value: Seq<char>,
    t: tree::TokenModel,
)
    ensures
        postlex::made_token(id, name, value, Some(postlex::pos_of(t))) == standing_at(
            id,
            name,
            value,
            t,
        ),
{
}

proof fn lemma_shallower(s: Seq<usize>, w: usize)
    requires
        ascends(s),
    ensures
        ({
            let f = s.filter(|l: usize| l < w);
            &&& f.len() <= s.len()
            &&& f == s.take(f.len() as int)
            &&& forall|i: int| 0 <= i < f.len() ==> s[i] < w
            &&& forall|i: int| f.len() <= i < s.len() ==> s[i] >= w
        }),
    decreases s.len(),
{
    reveal(Seq::filter);
    let f = s.filter(|l: usize| l < w);
    if s.len() > 0 {
        let front = s.drop_last();
        assert(ascends(front)) by {
            assert forall|i: int, j: int| 0 <= i < j < front.len() implies front[i]
                < front[j] by {
                assert(s[i] < s[j]);
            }
        }
        lemma_shallower(front, w);
        let g = front.filter(|l: usize| l < w);
        if s.last() < w {
            assert(g.len() == front.len()) by {
                if g.len() < front.len() {
                    assert(front[g.len() as int] >= w);
                    assert(s[g.len() as int] < s[s.len() - 1]);
                }
            }
            assert(f =~= s);
            assert(s.take(s.len() as int) =~= s);
            assert forall|i: int| 0 <= i < f.len() implies s[i] < w by {
                if i < front.len() {
                    assert(front[i] == s[i]);
                }
            }
        } else {
            assert(f == g);
            assert(front.take(g.len() as int) =~= s.take(g.len() as int));
            assert forall|i: int| 0 <= i < f.len() implies s[i] < w by {
                assert(front[i] == s[i]);
            }
            assert forall|i: int| f.len() <= i < s.len() implies s[i] >= w by {
                if i < front.len() {
                    assert(front[i] == s[i]);
                }
            }
        }
    } else {
        assert(f =~= s.take(0));
    }
}

/// The levels that are closed, and the tokens that say so.
proof fn lemma_closed_to(
    c: postlex::IndentContext,
    st: postlex::IndentState,
    w: usize,
    value: Seq<char>,
    t: tree::TokenModel,
) -> (m: nat)
    requires
        st.stack.len() > 0,
        st.stack[0] == 0,
        ascends(st.stack),
    ensures
        0 < m <= st.stack.len(),
        st.stack[m - 1] <= w,
        forall|i: int| m <= i < st.stack.len() ==> st.stack[i] > w,
        ({
            let r = postlex::closed_to(c, st, w, value, Some(postlex::pos_of(t)));
            let d = standing_at(c.dedent_id, c.cfg.dedent_type, value, t);
            &&& r.stack == st.stack.take(m as int)
            &&& r.out == st.out + Seq::new((st.stack.len() - m) as nat, |i: int| d)
            &&& r.paren == st.paren
            &&& r.last == st.last
        }),
    decreases st.stack.len(),
{
    let pos = Some(postlex::pos_of(t));
    let d = standing_at(c.dedent_id, c.cfg.dedent_type, value, t);
    lemma_made(c.dedent_id, c.cfg.dedent_type, value, t);
    if w >= st.stack.last() {
        assert(st.stack.take(st.stack.len() as int) =~= st.stack);
        assert(st.out =~= st.out + Seq::new(0, |i: int| d));
        st.stack.len()
    } else {
        let front = st.stack.drop_last();
        assert(st.stack.len() > 1);
        let next = postlex::IndentState { stack: front, out: st.out.push(d), ..st };
        assert forall|i: int, j: int| 0 <= i < j < front.len() implies front[i] < front[j] by {
            assert(st.stack[i] < st.stack[j]);
        }
        let m = lemma_closed_to(c, next, w, value, t);
        assert(front.take(m as int) =~= st.stack.take(m as int));
        assert(next.out + Seq::new((front.len() - m) as nat, |i: int| d) =~= st.out + Seq::new(
            (st.stack.len() - m) as nat,
            |i: int| d,
        ));
        assert forall|i: int| m <= i < st.stack.len() implies st.stack[i] > w by {
            if i < front.len() {
                assert(front[i] == st.stack[i]);
            }
        }
        m
    }
}

proof fn lemma_all_closed(
    c: postlex::IndentContext,
    st: postlex::IndentState,
    t: tree::TokenModel,
)
    requires
        st.stack.len() > 0,
        st.stack.len() > 1 ==> st.last == Some(postlex::pos_of(t)),
    ensures
        postlex::all_closed(c, st).out == st.out + Seq::new(
            (st.stack.len() - 1) as nat,
            |i: int| standing_at(c.dedent_id, c.cfg.dedent_type, Seq::empty(), t),
        ),
    decreases st.stack.len(),
{
    let d = standing_at(c.dedent_id, c.cfg.dedent_type, Seq::empty(), t);
    lemma_made(c.dedent_id, c.cfg.dedent_type, Seq::empty(), t);
    if st.stack.len() > 1 {
        let next = postlex::IndentState {
            stack: st.stack.drop_last(),
            out: st.out.push(d),
            ..st
        };
        lemma_all_closed(c, next, t);
        assert(next.out + Seq::new((next.stack.len() - 1) as nat, |i: int| d) =~= st.out
            + Seq::new((st.stack.len() - 1) as nat, |i: int| d));
    } else {
        assert(st.out =~= st.out + Seq::new(0, |i: int| d));
    }
}

/// One token more.
#[verifier::rlimit(60)]
proof fn lemma_step(
    c: postlex::IndentContext,
    tokens: Seq<tree::TokenModel>,
    k: nat,
    st: postlex::IndentState,
)
    requires
        k < tokens.len() <= usize::MAX,
        is_behind(c, tokens, k, st),
    ensures
        ({
            let (next, err) = postlex::token_taken(c, st, tokens[k as int]);
            &&& err is None ==> is_behind(c, tokens, k + 1, next) && !is_stray(
                c.cfg,
                tokens,
                k as int,
            ) && !is_misplaced(c.cfg, tokens, k as int)
            &&& err matches Some(e) ==> is_fault(c.cfg, tokens, k as int, e)
        }),
{
    let t = tokens[k as int];
    let before = st.stack;
    let b = balance(c.cfg, tokens.take(k as int));
    let w = line_width(c.cfg, t);
    let line = postlex::last_line(t.value);
    lemma_balance(c.cfg, tokens, k as int);
    blanks_and_tabs_indent(line, c.cfg.tab_len);
    assert(b >= 0);
    let seen = postlex::IndentState { last: Some(postlex::pos_of(t)), ..st };
    let pos = Some(postlex::pos_of(t));
    let now = all_turned(c, tokens, k);
    let after = levels(c.cfg, tokens, k + 1);
    if t.type_ == c.cfg.nl_type && b == 0 {
        assert(is_line(c.cfg, tokens, k as int));
        let shown = postlex::IndentState { out: st.out.push(t), ..seen };
        lemma_shallower(before, w);
        let some = before.filter(|l: usize| l < w);
        assert(after == some.push(w));
        if w > before.last() {
            assert(some.len() == before.len()) by {
                if some.len() < before.len() {
                    assert(before[some.len() as int] >= w);
                    if some.len() < before.len() - 1 {
                        assert(before[some.len() as int] < before[before.len() - 1]);
                    }
                }
            }
            assert(some =~= before);
            lemma_made(c.indent_id, c.cfg.indent_type, line, t);
            let made = standing_at(c.indent_id, c.cfg.indent_type, line, t);
            assert(shown.out.push(made) =~= now + seq![t, made]);
            assert(ascends(after)) by {
                assert forall|i: int, j: int| 0 <= i < j < after.len() implies after[i]
                    < after[j] by {
                    if j < before.len() {
                        assert(before[i] < before[j]);
                    } else {
                        assert(some[i] < w);
                    }
                }
            }
            assert(after[0] == before[0]);
        } else {
            let m = lemma_closed_to(c, shown, w, line, t);
            let r = postlex::closed_to(c, shown, w, line, pos);
            let d = standing_at(c.dedent_id, c.cfg.dedent_type, line, t);
            if before[m - 1] == w {
                assert(some.len() == m - 1) by {
                    if some.len() < m - 1 {
                        assert(before[some.len() as int] >= w);
                        assert(before[some.len() as int] < before[m - 1]);
                    }
                    if some.len() > m - 1 {
                        assert(before[m - 1] < w);
                    }
                }
                assert(after =~= before.take(m as int));
                assert(before.contains(w));
                assert(turned(c, tokens, k as int) =~= seq![t] + Seq::new(
                    (before.len() - m) as nat,
                    |i: int| d,
                ));
                assert(r.out =~= now + turned(c, tokens, k as int));
                assert(ascends(after)) by {
                    assert forall|i: int, j: int| 0 <= i < j < after.len() implies after[i]
                        < after[j] by {
                        assert(before[i] < before[j]);
                    }
                }
                assert(r.stack.last() == w);
            } else {
                assert(r.stack.last() == before[m - 1]);
                assert(!before.contains(w)) by {
                    if before.contains(w) {
                        let q = choose|q: int| 0 <= q < before.len() && before[q] == w;
                        assert(q < m);
                        if q < m - 1 {
                            assert(before[q] < before[m - 1]);
                        }
                    }
                }
                assert(w < before.last()) by {
                    if m == before.len() {
                        assert(before.last() == before[m - 1]);
                    }
                }
                assert(is_floor(before, w, before[m - 1])) by {
                    assert(before.contains(before[m - 1]));
                    assert forall|l: usize| #[trigger] before.contains(l) && l <= w implies l
                        <= before[m - 1] by {
                        let q = choose|q: int| 0 <= q < before.len() && before[q] == l;
                        assert(q < m);
                        if q < m - 1 {
                            assert(before[q] < before[m - 1]);
                        }
                    }
                }
                assert(is_misplaced(c.cfg, tokens, k as int));
            }
        }
    } else {
        assert(after == before);
        if t.type_ == c.cfg.nl_type {
            assert(now =~= now + Seq::<tree::TokenModel>::empty());
        } else {
            assert(now.push(t) =~= now + seq![t]);
        }
    }
}

/// Whether the report of a fault is that of token `k`.
pub open spec fn is_fault(
    cfg: postlex::IndenterModel,
    tokens: Seq<tree::TokenModel>,
    k: int,
    e: error::ErrorModel,
) -> bool {
    if is_misplaced(cfg, tokens, k) {
        exists|l: usize|
            is_floor(levels(cfg, tokens, k as nat), line_width(cfg, tokens[k]), l) && e
                == #[trigger] postlex::dedent_error(line_width(cfg, tokens[k]), l)
    } else {
        is_stray(cfg, tokens, k) && e == postlex::unbalanced_error(tokens[k])
    }
}

proof fn lemma_run(
    c: postlex::IndentContext,
    tokens: Seq<tree::TokenModel>,
    k: nat,
    n: nat,
    st: postlex::IndentState,
)
    requires
        k <= n <= tokens.len() <= usize::MAX,
        forall|i: int| 0 <= i < n ==> (#[trigger] tokens[i]).type_id != SymbolId::end(),
        n < tokens.len() ==> tokens[n as int].type_id == SymbolId::end(),
        is_behind(c, tokens, k, st),
        forall|i: int| 0 <= i < k ==> !is_stray(c.cfg, tokens, i) && !is_misplaced(c.cfg, tokens, i),
    ensures
        match postlex::tokens_taken(c, st, tokens, k as int) {
            Ok(out) => {
                &&& forall|i: int|
                    0 <= i < n ==> !is_stray(c.cfg, tokens, i) && !is_misplaced(c.cfg, tokens, i)
                &&& out == (all_turned(c, tokens, n) + last_ends(c, tokens, n)).push(
                    if n < tokens.len() {
                        tokens[n as int]
                    } else {
                        tree::end_token()
                    },
                )
            },
            Err(e) => exists|q: int|
                0 <= q < n && #[trigger] is_fault(c.cfg, tokens, q, e) && forall|i: int|
                    0 <= i < q ==> !is_stray(c.cfg, tokens, i) && !is_misplaced(
                        c.cfg,
                        tokens,
                        i,
                    ),
        },
    decreases n - k,
{
    if k < n {
        lemma_step(c, tokens, k, st);
        let (next, err) = postlex::token_taken(c, st, tokens[k as int]);
        if err is None {
            lemma_run(c, tokens, k + 1, n, next);
        }
    } else {
        let t = if n > 0 {
            tokens[n - 1]
        } else {
            tree::end_token()
        };
        assert(n == 0 ==> st.stack.len() == 1);
        lemma_all_closed(c, st, t);
        assert(st.out + Seq::new(
            (st.stack.len() - 1) as nat,
            |i: int| standing_at(c.dedent_id, c.cfg.dedent_type, Seq::empty(), t),
        ) =~= all_turned(c, tokens, n) + last_ends(c, tokens, n));
    }
}

/// What the indenter makes of the `n` tokens before the end of input. Each token
/// comes out in order, but for the newlines before which more brackets are opened
/// than closed; behind a newline that comes out stands the beginning of a block where
/// its line is indented deeper than the line before, else an end for each open level
/// that it does not reach; and the blocks still open are ended at the end. Tokens are
/// refused exactly where a bracket is closed and those before it are balanced, or
/// where a line goes back to a level that is not open.
pub proof fn indentation_goes_by_lines_and_brackets(
    cfg: postlex::IndenterModel,
    infos: Seq<symbols::SymbolInfo>,
    c: postlex::IndentContext,
    tokens: Seq<tree::TokenModel>,
    n: nat,
)
    requires
        postlex::context_in(cfg, infos) == Ok::<postlex::IndentContext, error::ErrorModel>(c),
        n <= tokens.len() <= usize::MAX,
        forall|i: int| 0 <= i < n ==> (#[trigger] tokens[i]).type_id != SymbolId::end(),
        n < tokens.len() ==> tokens[n as int].type_id == SymbolId::end(),
    ensures
        match postlex::indented(cfg, infos, tokens) {
            Ok(out) => {
                &&& forall|i: int|
                    0 <= i < n ==> !is_stray(cfg, tokens, i) && !is_misplaced(cfg, tokens, i)
                &&& out == (all_turned(c, tokens, n) + last_ends(c, tokens, n)).push(
                    if n < tokens.len() {
                        tokens[n as int]
                    } else {
                        tree::end_token()
                    },
                )
            },
            Err(e) => exists|q: int|
                0 <= q < n && #[trigger] is_fault(cfg, tokens, q, e) && forall|i: int|
                    0 <= i < q ==> !is_stray(cfg, tokens, i) && !is_misplaced(cfg, tokens, i),
        },
{
    let st = postlex::indent_start();
    assert(tokens.take(0) =~= Seq::empty());
    assert(balance(cfg, tokens.take(0)) == 0) by {
        reveal(Seq::filter);
    }
    assert(is_behind(c, tokens, 0, st));
    lemma_run(c, tokens, 0, n, st);
}

/// The names that an indenter works with are its own, with the ids that the grammar
/// has for the two terminals of blocks; a terminal that it has none for is reported.
pub proof fn blocks_have_the_ids_of_the_grammar(
    cfg: postlex::IndenterModel,
    infos: Seq<symbols::SymbolInfo>,
)
    ensures
        match postlex::context_in(cfg, infos) {
            Ok(c) => {
                &&& c.cfg == cfg
                &&& symbols::id_of(infos, cfg.indent_type) == Some(c.indent_id)
                &&& symbols::id_of(infos, cfg.dedent_type) == Some(c.dedent_id)
            },
            Err(_) => symbols::id_of(infos, cfg.indent_type) is None || symbols::id_of(
                infos,
                cfg.dedent_type,
            ) is None,
        },
{
}

} // verus!
