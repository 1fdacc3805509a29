//! What reports say: which terminals would have done, and in which order names are
//! listed.

use vstd::prelude::*;
use crate::error;
use crate::lalr;
use crate::lalr_table;
use crate::lalr_table::{Action, ParseTable};
use crate::symbols;
use crate::symbols::SymbolId;
use crate::text;
use crate::token_source::LexFailure;
use crate::tree;

verus! {

// ---------------------------------------------------------------------------
// The order of texts

/// Whether texts have the same first `k` characters, and behind them `a` ends, or goes
/// on with a character of a lower code.
pub open spec fn stands_before(a: Seq<char>, b: Seq<char>, k: int) -> bool {
    &&& 0 <= k <= a.len() && k <= b.len()
    &&& forall|i: int| 0 <= i < k ==> #[trigger] a[i] == b[i]
    &&& k == a.len() || k < b.len() && (a[k] as u32) < (b[k] as u32)
}

/// Whether text `a` stands before text `b`, or is it.
pub open spec fn is_before(a: Seq<char>, b: Seq<char>) -> bool {
    exists|k: int| stands_before(a, b, k)
}

pub(crate) proof fn lemma_before(a: Seq<char>, b: Seq<char>) -> (k: int)
    requires
        text::text_le(a, b),
    ensures
        stands_before(a, b, k),
    decreases a.len(),
{
    if a.len() > 0 && a[0] == b[0] {
        let x = a.drop_first();
        let y = b.drop_first();
        let k = lemma_before(x, y);
        assert forall|i: int| 0 <= i < k + 1 implies #[trigger] a[i] == b[i] by {
            if i > 0 {
                assert(x[i - 1] == y[i - 1]);
            }
        }
        if k < x.len() {
            assert(x[k] == a[k + 1] && y[k] == b[k + 1]);
        }
        k + 1
    } else {
        0
    }
}

/// Characters that differ have codes that differ.
proof fn lemma_codes_differ(x: char, y: char)
    requires
        x != y,
    ensures
        (x as u32) != (y as u32),
{
}

pub(crate) proof fn lemma_total(a: Seq<char>, b: Seq<char>)
    ensures
        text::text_le(a, b) || text::text_le(b, a),
    decreases a.len(),
{
    if a.len() > 0 && b.len() > 0 && a[0] == b[0] {
        lemma_total(a.drop_first(), b.drop_first());
    } else if a.len() > 0 && b.len() > 0 {
        lemma_codes_differ(a[0], b[0]);
    }
}

pub(crate) proof fn lemma_transitive(a: Seq<char>, b: Seq<char>, c: Seq<char>)
    requires
        text::text_le(a, b),
        text::text_le(b, c),
    ensures
        text::text_le(a, c),
    decreases a.len(),
{
    if a.len() > 0 && a[0] == b[0] && b[0] == c[0] {
        lemma_transitive(a.drop_first(), b.drop_first(), c.drop_first());
    }
}

pub(crate) proof fn lemma_antisymmetric(a: Seq<char>, b: Seq<char>)
    requires
        text::text_le(a, b),
        text::text_le(b, a),
    ensures
        a == b,
    decreases a.len(),
{
    if a.len() > 0 && b.len() > 0 && a[0] == b[0] {
        lemma_antisymmetric(a.drop_first(), b.drop_first());
        assert(seq![a[0]] + a.drop_first() =~= a);
        assert(seq![b[0]] + b.drop_first() =~= b);
    } else {
        assert(a =~= b);
    }
}

spec fn is_ascending(s: Seq<Seq<char>>) -> bool {
    forall|i: int, j: int| 0 <= i < j < s.len() ==> text::text_le(#[trigger] s[i], #[trigger] s[j])
}

proof fn lemma_inserted(s: Seq<Seq<char>>, x: Seq<char>)
    requires
        is_ascending(s),
    ensures
        ({
            let r = text::insert_text(s, x);
            &&& is_ascending(r)
            &&& r.to_multiset() == s.to_multiset().insert(x)
            &&& r.len() == s.len() + 1
            &&& forall|y: Seq<char>| #[trigger]
                text::text_le(x, y) && (forall|i: int|
                    0 <= i < s.len() ==> text::text_le(#[trigger] s[i], y)) ==> forall|i: int|
                    0 <= i < r.len() ==> text::text_le(#[trigger] r[i], y)
        }),
    decreases s.len(),
{
    broadcast use vstd::seq_lib::group_to_multiset_ensures;

    let r = text::insert_text(s, x);
    if s.len() == 0 {
        assert(s =~= Seq::empty());
        assert(r =~= s.push(x));
    } else if text::text_le(s.last(), x) {
        assert forall|i: int, j: int| 0 <= i < j < r.len() implies text::text_le(
            #[trigger] r[i],
            #[trigger] r[j],
        ) by {
            if j == s.len() {
                if i < s.len() - 1 {
                    assert(text::text_le(s[i], s[s.len() - 1]));
                    lemma_transitive(s[i], s.last(), x);
                }
            } else {
                assert(r[i] == s[i] && r[j] == s[j]);
            }
        }
    } else {
        let front = s.drop_last();
        lemma_inserted(front, x);
        let q = text::insert_text(front, x);
        lemma_total(x, s.last());
        assert(r == q.push(s.last()));
        assert forall|i: int| 0 <= i < front.len() implies text::text_le(
            #[trigger] front[i],
            s.last(),
        ) by {
            assert(text::text_le(s[i], s[s.len() - 1]));
        }
        assert(text::text_le(x, s.last()));
        assert forall|i: int, j: int| 0 <= i < j < r.len() implies text::text_le(
            #[trigger] r[i],
            #[trigger] r[j],
        ) by {
            if j == q.len() {
                assert(r[i] == q[i]);
            } else {
                assert(r[i] == q[i] && r[j] == q[j]);
            }
        }
        assert(front.push(s.last()) =~= s);
        assert(r.to_multiset() =~= s.to_multiset().insert(x));
        assert forall|y: Seq<char>| #[trigger]
            text::text_le(x, y) && (forall|i: int|
                0 <= i < s.len() ==> text::text_le(#[trigger] s[i], y)) implies forall|i: int|
            0 <= i < r.len() ==> text::text_le(#[trigger] r[i], y) by {
            assert forall|i: int| 0 <= i < front.len() implies text::text_le(
                #[trigger] front[i],
                y,
            ) by {
                assert(text::text_le(s[i], y));
            }
            assert(text::text_le(s[s.len() - 1], y));
            assert forall|i: int| 0 <= i < r.len() implies text::text_le(#[trigger] r[i], y) by {
                if i < q.len() {
                    assert(r[i] == q[i]);
                }
            }
        }
    }
}

proof fn lemma_sorted(s: Seq<Seq<char>>)
    ensures
        is_ascending(text::sorted_texts(s)),
        text::sorted_texts(s).to_multiset() == s.to_multiset(),
    decreases s.len(),
{
    broadcast use vstd::seq_lib::group_to_multiset_ensures;

    if s.len() > 0 {
        lemma_sorted(s.drop_last());
        lemma_inserted(text::sorted_texts(s.drop_last()), s.last());
        assert(s.drop_last().push(s.last()) =~= s);
    } else {
        assert(s =~= Seq::empty());
    }
}

/// Sorted texts are the same texts, as often as before, each before those behind it.
pub proof fn texts_are_sorted(s: Seq<Seq<char>>)
    ensures
        ({
            let r = text::sorted_texts(s);
            &&& r.to_multiset() == s.to_multiset()
            &&& forall|i: int, j: int|
                #![trigger r[i], r[j]]
                0 <= i < j < r.len() ==> is_before(r[i], r[j])
        }),
{
    lemma_sorted(s);
    let r = text::sorted_texts(s);
    assert forall|i: int, j: int| #![trigger r[i], r[j]] 0 <= i < j < r.len() implies is_before(
        r[i],
        r[j],
    ) by {
        let k = lemma_before(r[i], r[j]);
        assert(stands_before(r[i], r[j], k));
    }
}

// ---------------------------------------------------------------------------
// What would have done

/// Whether a name is that of a terminal on which a state has an action.
pub open spec fn would_do(table: ParseTable, state: int, name: Seq<char>, t: SymbolId) -> bool {
    table.action_for(state, t) is Some && symbols::name_of(table.symbols@, t) == name
}

pub(crate) proof fn lemma_row_find(row: Seq<(u32, Action)>, k: u32)
    ensures
        lalr_table::row_find(row, k) is Some <==> exists|i: int|
            0 <= i < row.len() && (#[trigger] row[i]).0 == k,
    decreases row.len(),
{
    if row.len() > 0 && row[0].0 != k {
        let rest = row.drop_first();
        lemma_row_find(rest, k);
        if exists|i: int| 0 <= i < row.len() && (#[trigger] row[i]).0 == k {
            let i = choose|i: int| 0 <= i < row.len() && (#[trigger] row[i]).0 == k;
            assert(rest[i - 1] == row[i]);
        }
        if exists|i: int| 0 <= i < rest.len() && (#[trigger] rest[i]).0 == k {
            let i = choose|i: int| 0 <= i < rest.len() && (#[trigger] rest[i]).0 == k;
            assert(rest[i] == row[i + 1]);
        }
    }
}

/// The report of a token that a state has no use for: the end of input is reported as
/// such, another token by its text, its type and its place; and those names are listed
/// that belong to terminals on which the state has an action.
pub proof fn refusals_list_what_would_do(table: ParseTable, state: int, tok: tree::TokenModel)
    ensures
        ({
            let e = lalr::unexpected_model(table, state, tok);
            let listed = match e {
                error::ErrorModel::UnexpectedEof { line, col, expected } => expected,
                error::ErrorModel::UnexpectedToken {
                    token,
                    token_type,
                    line,
                    col,
                    expected,
                } => expected,
                _ => Seq::empty(),
            };
            &&& if tok.type_id == SymbolId::end() {
                e matches error::ErrorModel::UnexpectedEof { line, col, expected } && line
                    == tok.line && col == tok.column
            } else {
                e matches error::ErrorModel::UnexpectedToken {
                    token,
                    token_type,
                    line,
                    col,
                    expected,
                } && token == tok.value && token_type == tok.type_ && line == tok.line && col
                    == tok.column
            }
            &&& forall|name: Seq<char>| #[trigger]
                listed.contains(name) <==> exists|t: SymbolId| would_do(table, state, name, t)
        }),
{
    let listed = lalr::expected_names(table, state);
    assert forall|name: Seq<char>| #[trigger] listed.contains(name) <==> exists|t: SymbolId|
        would_do(table, state, name, t) by {
        if 0 <= state < table.action@.len() {
            let row = table.action@[state]@;
            if listed.contains(name) {
                let i = choose|i: int| 0 <= i < listed.len() && listed[i] == name;
                lemma_row_find(row, row[i].0);
                assert(would_do(table, state, name, SymbolId(row[i].0)));
            }
            if exists|t: SymbolId| would_do(table, state, name, t) {
                let t = choose|t: SymbolId| would_do(table, state, name, t);
                lemma_row_find(row, t.0);
                let i = choose|i: int| 0 <= i < row.len() && (#[trigger] row[i]).0 == t.0;
                assert(SymbolId(row[i].0) == t);
                assert(listed[i] == name);
            }
        }
    }
}

proof fn lemma_lexed_names(infos: Seq<symbols::SymbolInfo>, row: Seq<(u32, Action)>, name: Seq<char>)
    ensures
        lalr::lexed_names(infos, row).contains(name) <==> exists|i: int|
            0 <= i < row.len() && (#[trigger] row[i]).0 != SymbolId::end().0 && symbols::name_of(
                infos,
                SymbolId(row[i].0),
            ) == name,
    decreases row.len(),
{
    let s = lalr::lexed_names(infos, row);
    if row.len() == 0 {
        assert(!s.contains(name));
    } else {
        let front = row.drop_last();
        lemma_lexed_names(infos, front, name);
        let head = lalr::lexed_names(infos, front);
        if s.contains(name) {
            let i = choose|i: int| 0 <= i < s.len() && s[i] == name;
            if i < head.len() {
                assert(head[i] == name);
                let j = choose|j: int|
                    0 <= j < front.len() && (#[trigger] front[j]).0 != SymbolId::end().0
                        && symbols::name_of(infos, SymbolId(front[j].0)) == name;
                assert(row[j] == front[j]);
            } else {
                assert(row[row.len() - 1] == row.last());
            }
        }
        if exists|i: int|
            0 <= i < row.len() && (#[trigger] row[i]).0 != SymbolId::end().0 && symbols::name_of(
                infos,
                SymbolId(row[i].0),
            ) == name {
            let i = choose|i: int|
                0 <= i < row.len() && (#[trigger] row[i]).0 != SymbolId::end().0
                    && symbols::name_of(infos, SymbolId(row[i].0)) == name;
            if i < front.len() {
                assert(front[i] == row[i]);
                assert(head.contains(name));
                let k = choose|k: int| 0 <= k < head.len() && head[k] == name;
                assert(s[k] == name);
            } else {
                assert(s[head.len() as int] == name);
            }
        }
    }
}

/// The report of a character that begins no token, for a parser state: it says what
/// stands where, and lists in order the names of the terminals, but for the end of
/// input, on which the state has an action, or that only the end would have done.
pub proof fn bad_characters_list_what_would_do(
    table: ParseTable,
    state: int,
    f: LexFailure,
) -> (names: Seq<Seq<char>>)
    ensures
        lalr::lex_failure_model(table, state, f) == (error::ErrorModel::UnexpectedCharacter {
            ch: f.ch,
            line: f.line,
            col: f.col,
            pos: f.pos,
            expected: if names.len() == 0 {
                "<END-OF-FILE>"@
            } else {
                text::joined(names, ", "@)
            },
        }),
        forall|name: Seq<char>| #[trigger]
            names.contains(name) <==> exists|t: SymbolId|
                t != SymbolId::end() && would_do(table, state, name, t),
        forall|i: int, j: int|
            #![trigger names[i], names[j]]
            0 <= i < j < names.len() ==> is_before(names[i], names[j]),
{
    broadcast use vstd::seq_lib::group_to_multiset_ensures;

    if 0 <= state < table.action@.len() {
        let row = table.action@[state]@;
        let all = lalr::lexed_names(table.symbols@, row);
        let names = text::sorted_texts(all);
        texts_are_sorted(all);
        assert forall|name: Seq<char>| #[trigger] names.contains(name) <==> exists|t: SymbolId|
            t != SymbolId::end() && would_do(table, state, name, t) by {
            lemma_lexed_names(table.symbols@, row, name);
            assert(names.contains(name) <==> names.to_multiset().count(name) > 0);
            assert(all.contains(name) <==> all.to_multiset().count(name) > 0);
            if all.contains(name) {
                let i = choose|i: int|
                    0 <= i < row.len() && (#[trigger] row[i]).0 != SymbolId::end().0
                        && symbols::name_of(table.symbols@, SymbolId(row[i].0)) == name;
                lemma_row_find(row, row[i].0);
                let t = SymbolId(row[i].0);
                assert(t != SymbolId::end());
                assert(would_do(table, state, name, t));
            }
            if exists|t: SymbolId| t != SymbolId::end() && would_do(table, state, name, t) {
                let t = choose|t: SymbolId|
                    t != SymbolId::end() && would_do(table, state, name, t);
                lemma_row_find(row, t.0);
                let i = choose|i: int| 0 <= i < row.len() && (#[trigger] row[i]).0 == t.0;
                assert(SymbolId(row[i].0) == t);
                assert(row[i].0 != SymbolId::end().0);
            }
        }
        names
    } else {
        Seq::empty()
    }
}

} // verus!
