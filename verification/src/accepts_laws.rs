//! What the lists of acceptable terminals hold: names in ascending order, each
//! once, and exactly those that can be fed.

use vstd::prelude::*;
use crate::interactive;
use crate::lalr_stack;
use crate::lalr_table;
use crate::lalr_table::ParseTable;
use crate::lr0::Automaton;
use crate::recovery;
use crate::symbols;
use crate::symbols::SymbolId;
use crate::text;
use crate::tree;

verus! {

// ---------------------------------------------------------------------------
// Order

/// Two characters are in some order.
proof fn lemma_codes(x: char, y: char)
    ensures
        x == y || (x as u32) < (y as u32) || (y as u32) < (x as u32),
{
}

proof fn lemma_le_total(a: Seq<char>, b: Seq<char>)
    ensures
        text::text_le(a, b) || text::text_le(b, a),
    decreases a.len(),
{
    if a.len() > 0 && b.len() > 0 && a[0] == b[0] {
        lemma_le_total(a.drop_first(), b.drop_first());
    } else if a.len() > 0 && b.len() > 0 {
        lemma_codes(a[0], b[0]);
    }
}

proof fn lemma_le_trans(a: Seq<char>, b: Seq<char>, c: Seq<char>)
    requires
        text::text_le(a, b),
        text::text_le(b, c),
    ensures
        text::text_le(a, c),
    decreases a.len(),
{
    if a.len() > 0 && b.len() > 0 && c.len() > 0 && a[0] == b[0] && b[0] == c[0] {
        lemma_le_trans(a.drop_first(), b.drop_first(), c.drop_first());
    }
}

/// Whether texts are in ascending order, each once.
pub open spec fn is_ascending(s: Seq<Seq<char>>) -> bool {
    forall|i: int, j: int|
        0 <= i < j < s.len() ==> text::text_le(#[trigger] s[i], #[trigger] s[j]) && s[i] != s[j]
}

proof fn lemma_insert_ascends(s: Seq<Seq<char>>, x: Seq<char>)
    requires
        is_ascending(s),
        !s.contains(x),
    ensures
        is_ascending(text::insert_text(s, x)),
    decreases s.len(),
{
    let r = text::insert_text(s, x);
    if s.len() > 0 {
        let last = s.last();
        if text::text_le(last, x) {
            assert forall|i: int, j: int| 0 <= i < j < r.len() implies text::text_le(
                #[trigger] r[i],
                #[trigger] r[j],
            ) && r[i] != r[j] by {
                if j == s.len() {
                    assert(s.contains(s[i]));
                    if i < s.len() - 1 {
                        assert(text::text_le(s[i], s[s.len() - 1]));
                        lemma_le_trans(s[i], last, x);
                    }
                } else {
                    assert(r[i] == s[i] && r[j] == s[j]);
                }
            }
        } else {
            let front = s.drop_last();
            assert(!front.contains(x)) by {
                if front.contains(x) {
                    let k = choose|k: int| 0 <= k < front.len() && front[k] == x;
                    assert(s[k] == x);
                }
            }
            assert(is_ascending(front)) by {
                assert forall|i: int, j: int| 0 <= i < j < front.len() implies text::text_le(
                    #[trigger] front[i],
                    #[trigger] front[j],
                ) && front[i] != front[j] by {
                    assert(s[i] == front[i] && s[j] == front[j]);
                }
            }
            lemma_insert_ascends(front, x);
            let q = text::insert_text(front, x);
            lemma_le_total(last, x);
            assert forall|i: int, j: int| 0 <= i < j < r.len() implies text::text_le(
                #[trigger] r[i],
                #[trigger] r[j],
            ) && r[i] != r[j] by {
                if j == q.len() {
                    assert(q.contains(q[i]));
                    interactive::lemma_insert_contains(front, x, q[i]);
                    if q[i] == x {
                        assert(s.contains(s[s.len() - 1]));
                    } else {
                        let k = choose|k: int| 0 <= k < front.len() && front[k] == q[i];
                        assert(s[k] == q[i]);
                        assert(text::text_le(s[k], s[s.len() - 1]));
                    }
                } else {
                    assert(r[i] == q[i] && r[j] == q[j]);
                }
            }
        }
    }
}

/// Whether no text occurs twice.
spec fn all_differ(s: Seq<Seq<char>>) -> bool {
    forall|i: int, j: int| 0 <= i < j < s.len() ==> #[trigger] s[i] != #[trigger] s[j]
}

proof fn lemma_sorted_ascends(s: Seq<Seq<char>>)
    requires
        all_differ(s),
    ensures
        is_ascending(text::sorted_texts(s)),
    decreases s.len(),
{
    if s.len() > 0 {
        let front = s.drop_last();
        assert(all_differ(front)) by {
            assert forall|i: int, j: int| 0 <= i < j < front.len() implies #[trigger] front[i]
                != #[trigger] front[j] by {
                assert(s[i] != s[j]);
            }
        }
        lemma_sorted_ascends(front);
        interactive::lemma_sorted_contains(front, s.last());
        if front.contains(s.last()) {
            let k = choose|k: int| 0 <= k < front.len() && front[k] == s.last();
            assert(s[k] != s[s.len() - 1]);
        }
        lemma_insert_ascends(text::sorted_texts(front), s.last());
    }
}

proof fn lemma_taken_differ(table: ParseTable, states: Seq<usize>, n: nat)
    requires
        symbols::names_differ(table.symbols@),
        n <= table.symbols@.len() <= u32::MAX,
    ensures
        all_differ(lalr_stack::taken_names(table, states, n)),
        forall|k: int|
            0 <= k < lalr_stack::taken_names(table, states, n).len() ==> exists|i: int|
                0 <= i < n && (#[trigger] table.symbols@[i]).name@
                    == #[trigger] lalr_stack::taken_names(table, states, n)[k],
    decreases n,
{
    if n > 0 {
        lemma_taken_differ(table, states, (n - 1) as nat);
        let head = lalr_stack::taken_names(table, states, (n - 1) as nat);
        let all = lalr_stack::taken_names(table, states, n);
        let t = SymbolId((n - 1) as u32);
        assert(symbols::name_of(table.symbols@, t) == table.symbols@[n - 1].name@);
        assert forall|i: int, j: int| 0 <= i < j < all.len() implies #[trigger] all[i]
            != #[trigger] all[j] by {
            assert(all[i] == head[i]);
            if j < head.len() {
                assert(all[j] == head[j]);
            } else {
                let q = choose|q: int|
                    0 <= q < n - 1 && (#[trigger] table.symbols@[q]).name@ == head[i];
                assert(table.symbols@[q].name@ != table.symbols@[n - 1].name@);
            }
        }
        assert forall|k: int| 0 <= k < all.len() implies exists|i: int|
            0 <= i < n && (#[trigger] table.symbols@[i]).name@ == #[trigger] all[k] by {
            if k < head.len() {
                assert(all[k] == head[k]);
                let q = choose|q: int|
                    0 <= q < n - 1 && (#[trigger] table.symbols@[q]).name@ == head[k];
                assert(table.symbols@[q].name@ == all[k]);
            } else {
                assert(table.symbols@[n - 1].name@ == all[k]);
            }
        }
    }
}

/// The acceptable terminals are listed in ascending order, each once.
pub proof fn accepts_are_ascending(table: ParseTable, states: Seq<usize>)
    requires
        symbols::names_differ(table.symbols@),
        table.n_terminals <= table.symbols@.len() <= u32::MAX,
    ensures
        is_ascending(lalr_stack::accepted_names(table, states)),
{
    lemma_taken_differ(table, states, table.n_terminals as nat);
    lemma_sorted_ascends(lalr_stack::taken_names(table, states, table.n_terminals as nat));
}

// ---------------------------------------------------------------------------
// What can be fed

/// How feeding a token of a given name ends.
pub open spec fn outcome_of(
    table: ParseTable,
    states: Seq<usize>,
    values: Seq<crate::tree_builder::SlotModel>,
    tok: tree::TokenModel,
) -> lalr_stack::Outcome {
    lalr_stack::fed(
        table,
        states,
        values,
        recovery::retyped(tok, symbols::id_of(table.symbols@, tok.type_)->0),
        lalr_stack::REDUCTION_LIMIT as nat,
    ).outcome
}

/// Whether a name is that of a terminal.
pub open spec fn is_terminal_name(table: ParseTable, name: Seq<char>) -> bool {
    symbols::id_of(table.symbols@, name) matches Some(id) && id.ix() < table.n_terminals
}

/// Whether a symbol of that name is known, and feeding a token of it gets
/// somewhere.
pub open spec fn is_taken(
    table: ParseTable,
    states: Seq<usize>,
    values: Seq<crate::tree_builder::SlotModel>,
    tok: tree::TokenModel,
) -> bool {
    let o = outcome_of(table, states, values, tok);
    symbols::id_of(table.symbols@, tok.type_) is Some && (o is Shifted || o is Accepted || o is Error)
}

proof fn lemma_listed(
    table: ParseTable,
    states: Seq<usize>,
    values: Seq<crate::tree_builder::SlotModel>,
    tok: tree::TokenModel,
)
    requires
        table.wf(),
        symbols::names_differ(table.symbols@),
    ensures
        lalr_stack::accepted_names(table, states).contains(tok.type_) <==> is_taken(
            table,
            states,
            values,
            tok,
        ),
{
    let a = choose|a: Automaton| #[trigger] table.tabulates(a);
    assert(table.tabulates(a));
    let n = table.n_terminals as nat;
    let names = lalr_stack::taken_names(table, states, n);
    interactive::lemma_sorted_contains(names, tok.type_);
    if is_terminal_name(table, tok.type_) {
        let id = symbols::id_of(table.symbols@, tok.type_)->0;
        let p = choose|p: int| symbols::name_position(table.symbols@, tok.type_, p);
        assert(symbols::name_position(table.symbols@, tok.type_, p));
        assert(id.ix() == p);
        assert forall|t: SymbolId|
            t.ix() < n && #[trigger] symbols::name_of(table.symbols@, t) == tok.type_ implies t
            == id by {
            let q = t.ix() as int;
            assert(table.symbols@[q].name@ == tok.type_);
            if q < p {
                assert(table.symbols@[q].name@ != table.symbols@[p].name@);
            } else if p < q {
                assert(table.symbols@[p].name@ != table.symbols@[q].name@);
            }
        }
        interactive::lemma_taken_contains(table, states, id, tok.type_, n);
        interactive::lemma_take_is_fed(
            table,
            states,
            values,
            recovery::retyped(tok, id),
            lalr_stack::REDUCTION_LIMIT as nat,
        );
    } else {
        lemma_taken_differ(table, states, n);
        if names.contains(tok.type_) {
            let k = choose|k: int| 0 <= k < names.len() && names[k] == tok.type_;
            let q = choose|q: int|
                0 <= q < n && (#[trigger] table.symbols@[q]).name@ == names[k];
            symbols::lemma_id_of_known(table.symbols@, tok.type_, q);
        }
        if let Some(id) = symbols::id_of(table.symbols@, tok.type_) {
            let s = states.last() as int;
            if 0 <= s < a.states@.len() {
                assert(table.action@[s]@ == lalr_table::action_row(table.models(), n, a, s, n));
                lalr_stack::lemma_action_row(table.models(), n, a, s, n, id);
            }
        }
    }
}

/// While a parse is driven from outside, a name is listed as acceptable exactly
/// when feeding a token of that name succeeds, whether it is that of a terminal, of
/// another symbol or of none. (An end of input that completes a start symbol whose
/// value is not a single one is listed, and refused.)
pub proof fn listed_where_taken(m: interactive::DrivenModel, tok: tree::TokenModel)
    requires
        m.result is None,
        m.table.wf(),
        !(outcome_of(m.table, m.states, m.values, tok) is Error),
    ensures
        interactive::acceptable(m).contains(tok.type_) <==> interactive::driven(m, tok).1 is Ok,
{
    lemma_listed(m.table, m.states, m.values, tok);
}

/// While recovering, feeding a token other than the end of input succeeds exactly
/// where its name is listed as acceptable, whether it is that of a terminal, of
/// another symbol or of none.
pub proof fn recovery_feeds_what_is_listed(
    table: ParseTable,
    ctx: recovery::RecoveryModel,
    tok: tree::TokenModel,
)
    requires
        ctx.accepted is None,
        table.wf(),
        symbols::id_of(table.symbols@, tok.type_) != Some(SymbolId::spec_end()),
        !(outcome_of(table, ctx.states, ctx.values, tok) is Error),
    ensures
        lalr_stack::accepted_names(table, ctx.states).contains(tok.type_)
            <==> recovery::context_fed(table, ctx, tok).1 is Ok,
{
    lemma_listed(table, ctx.states, ctx.values, tok);
}

/// A symbol added under a name that no symbol has leaves names apart.
pub proof fn new_names_stay_apart(
    before: Seq<symbols::SymbolInfo>,
    after: Seq<symbols::SymbolInfo>,
)
    requires
        symbols::names_differ(before),
        before.len() < symbols::UNSET_ID,
        after.len() == before.len() + 1,
        after.take(before.len() as int) == before,
        symbols::id_of(before, after.last().name@) is None,
    ensures
        symbols::names_differ(after),
{
    assert forall|i: int, j: int| 0 <= i < j < after.len() implies (
    #[trigger] after[i]).name@ != (#[trigger] after[j]).name@ by {
        assert(after.take(before.len() as int)[i] == after[i]);
        if j < before.len() {
            assert(after.take(before.len() as int)[j] == after[j]);
        } else if before[i].name@ == after[j].name@ {
            symbols::lemma_id_of_known(before, after[j].name@, i);
        }
    }
}

/// While recovering, a token that is not taken leaves everything as it was.
pub proof fn recovery_keeps_the_state_on_an_error(
    table: ParseTable,
    ctx: recovery::RecoveryModel,
    tok: tree::TokenModel,
)
    ensures
        recovery::context_fed(table, ctx, tok).1 is Err ==> recovery::context_fed(
            table,
            ctx,
            tok,
        ).0 == ctx,
{
}

} // verus!
