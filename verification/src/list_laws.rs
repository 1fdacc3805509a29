//! What the sorted lists of a generated file hold: start states, keywords, and the
//! numbers of what is ignored.

use vstd::prelude::*;
use crate::lalr_table::ParseTable;
use crate::postlex;
use crate::report_laws;
use crate::scanner;
use crate::standalone;
use crate::symbols;
use crate::symbols::SymbolId;
use crate::text;

verus! {

// ---------------------------------------------------------------------------
// Start states

/// Whether a named state comes before another: by name, then by number.
pub open spec fn is_ahead(a: (Seq<char>, usize), b: (Seq<char>, usize)) -> bool {
    if a.0 == b.0 {
        a.1 < b.1
    } else {
        report_laws::is_before(a.0, b.0)
    }
}

spec fn is_sorted(s: Seq<(Seq<char>, usize)>) -> bool {
    forall|i: int, j: int|
        0 <= i < j < s.len() ==> standalone::start_le(#[trigger] s[i], #[trigger] s[j]) && s[i]
            != s[j]
}

proof fn lemma_start_order(
    a: (Seq<char>, usize),
    b: (Seq<char>, usize),
    c: (Seq<char>, usize),
)
    ensures
        standalone::start_le(a, b) || standalone::start_le(b, a),
        standalone::start_le(a, b) && standalone::start_le(b, c) ==> standalone::start_le(a, c),
        standalone::start_le(a, b) && standalone::start_le(b, a) ==> a == b,
{
    report_laws::lemma_total(a.0, b.0);
    if text::text_le(a.0, b.0) && text::text_le(b.0, c.0) {
        report_laws::lemma_transitive(a.0, b.0, c.0);
    }
    if text::text_le(a.0, b.0) && text::text_le(b.0, a.0) {
        report_laws::lemma_antisymmetric(a.0, b.0);
    }
    if text::text_le(b.0, c.0) && text::text_le(c.0, b.0) {
        report_laws::lemma_antisymmetric(b.0, c.0);
    }
}

proof fn lemma_put_start(s: Seq<(Seq<char>, usize)>, x: (Seq<char>, usize))
    requires
        is_sorted(s),
    ensures
        ({
            let r = standalone::put_start(s, x);
            &&& is_sorted(r)
            &&& forall|y: (Seq<char>, usize)| #[trigger]
                r.contains(y) <==> s.contains(y) || y == x
        }),
    decreases s.len(),
{
    let r = standalone::put_start(s, x);
    if s.len() == 0 {
        assert(r[0] == x);
    } else if s.last() == x {
        assert(s[s.len() - 1] == x);
    } else if standalone::start_le(s.last(), x) {
        assert forall|i: int, j: int| 0 <= i < j < r.len() implies standalone::start_le(
            #[trigger] r[i],
            #[trigger] r[j],
        ) && r[i] != r[j] by {
            if j == s.len() {
                if i < s.len() - 1 {
                    assert(standalone::start_le(s[i], s[s.len() - 1]));
                    lemma_start_order(s[i], s.last(), x);
                    lemma_start_order(s.last(), x, s.last());
                }
            } else {
                assert(r[i] == s[i] && r[j] == s[j]);
            }
        }
        assert(r[s.len() as int] == x);
        assert forall|y: (Seq<char>, usize)| #[trigger] r.contains(y) <==> s.contains(y) || y
            == x by {
            if s.contains(y) {
                let i = choose|i: int| 0 <= i < s.len() && s[i] == y;
                assert(r[i] == y);
            }
            if r.contains(y) {
                let i = choose|i: int| 0 <= i < r.len() && r[i] == y;
                if i < s.len() {
                    assert(s[i] == y);
                }
            }
        }
    } else {
        let front = s.drop_last();
        lemma_put_start(front, x);
        let q = standalone::put_start(front, x);
        lemma_start_order(s.last(), x, x);
        assert(r == q.push(s.last()));
        assert forall|i: int, j: int| 0 <= i < j < r.len() implies standalone::start_le(
            #[trigger] r[i],
            #[trigger] r[j],
        ) && r[i] != r[j] by {
            if j == q.len() {
                assert(r[i] == q[i]);
                assert(q.contains(q[i]));
                if q[i] != x {
                    assert(front.contains(q[i]));
                    let k = choose|k: int| 0 <= k < front.len() && front[k] == q[i];
                    assert(s[k] == q[i]);
                    assert(standalone::start_le(s[k], s[s.len() - 1]));
                }
            } else {
                assert(r[i] == q[i] && r[j] == q[j]);
            }
        }
        assert forall|y: (Seq<char>, usize)| #[trigger] r.contains(y) <==> s.contains(y) || y
            == x by {
            if s.contains(y) {
                let i = choose|i: int| 0 <= i < s.len() && s[i] == y;
                if i < front.len() {
                    assert(front[i] == y);
                    assert(q.contains(y));
                    let k = choose|k: int| 0 <= k < q.len() && q[k] == y;
                    assert(r[k] == y);
                } else {
                    assert(r[q.len() as int] == y);
                }
            }
            if y == x {
                assert(q.contains(x));
                let k = choose|k: int| 0 <= k < q.len() && q[k] == x;
                assert(r[k] == x);
            }
            if r.contains(y) {
                let i = choose|i: int| 0 <= i < r.len() && r[i] == y;
                if i < q.len() {
                    assert(q[i] == y);
                    assert(q.contains(y));
                    if y != x {
                        let k = choose|k: int| 0 <= k < front.len() && front[k] == y;
                        assert(s[k] == y);
                    }
                } else {
                    assert(s[s.len() - 1] == y);
                }
            }
        }
    }
}

/// Whether a state is that of a start symbol of a name, among the first `k`.
pub open spec fn is_start(t: ParseTable, k: nat, x: (Seq<char>, usize)) -> bool {
    exists|i: int|
        0 <= i < k && symbols::name_of(t.symbols@, (#[trigger] t.start_states@[i]).0) == x.0
            && t.start_states@[i].1 == x.1
}

proof fn lemma_named_starts(t: ParseTable, k: nat)
    requires
        k <= t.start_states@.len(),
    ensures
        is_sorted(standalone::named_starts(t, k)),
        forall|x: (Seq<char>, usize)| #[trigger]
            standalone::named_starts(t, k).contains(x) <==> is_start(t, k, x),
    decreases k,
{
    if k > 0 {
        lemma_named_starts(t, (k - 1) as nat);
        let (id, state) = t.start_states@[k - 1];
        let own = (symbols::name_of(t.symbols@, id), state);
        lemma_put_start(standalone::named_starts(t, (k - 1) as nat), own);
        assert forall|x: (Seq<char>, usize)| #[trigger] standalone::named_starts(t, k).contains(
            x,
        ) <==> is_start(t, k, x) by {
            if is_start(t, (k - 1) as nat, x) {
                let i = choose|i: int|
                    0 <= i < k - 1 && symbols::name_of(
                        t.symbols@,
                        (#[trigger] t.start_states@[i]).0,
                    ) == x.0 && t.start_states@[i].1 == x.1;
                assert(is_start(t, k, x));
            }
            if x == own {
                assert(t.start_states@[k - 1].1 == x.1);
                assert(is_start(t, k, x));
            }
            if is_start(t, k, x) {
                let i = choose|i: int|
                    0 <= i < k && symbols::name_of(t.symbols@, (#[trigger] t.start_states@[i]).0)
                        == x.0 && t.start_states@[i].1 == x.1;
                if i == k - 1 {
                    assert(x == own);
                }
            }
        }
    }
}

/// The list of start states holds each with the name of its symbol, once, in the order
/// of names.
pub proof fn start_states_are_listed(t: ParseTable)
    ensures
        ({
            let s = standalone::named_starts(t, t.start_states@.len());
            &&& forall|x: (Seq<char>, usize)| #[trigger]
                s.contains(x) <==> is_start(t, t.start_states@.len(), x)
            &&& forall|i: int, j: int|
                #![trigger s[i], s[j]]
                0 <= i < j < s.len() ==> is_ahead(s[i], s[j])
            &&& standalone::start_rows(s).len() == s.len()
            &&& forall|i: int|
                0 <= i < s.len() ==> #[trigger] standalone::start_rows(s)[i] == "    ("@
                    + postlex::quoted(s[i].0) + ", "@ + text::decimal_text(s[i].1 as nat)
                    + "),\n"@
        }),
{
    let s = standalone::named_starts(t, t.start_states@.len());
    lemma_named_starts(t, t.start_states@.len());
    assert forall|i: int, j: int| #![trigger s[i], s[j]] 0 <= i < j < s.len() implies is_ahead(
        s[i],
        s[j],
    ) by {
        assert(standalone::start_le(s[i], s[j]) && s[i] != s[j]);
        if s[i].0 != s[j].0 {
            let k = report_laws::lemma_before(s[i].0, s[j].0);
            assert(report_laws::stands_before(s[i].0, s[j].0, k));
        }
    }
}

// ---------------------------------------------------------------------------
// Ignored terminals

proof fn lemma_put_number(s: Seq<u32>, x: u32)
    requires
        forall|i: int, j: int| 0 <= i < j < s.len() ==> #[trigger] s[i] <= #[trigger] s[j],
    ensures
        ({
            let r = standalone::put_number(s, x);
            &&& forall|i: int, j: int| 0 <= i < j < r.len() ==> #[trigger] r[i] <= #[trigger] r[j]
            &&& r.to_multiset() == s.to_multiset().insert(x)
            &&& r.len() == s.len() + 1
            &&& forall|n: u32| #[trigger]
                up_to(s, n) && x <= n ==> up_to(r, n)
        }),
    decreases s.len(),
{
    broadcast use vstd::seq_lib::group_to_multiset_ensures;

    let r = standalone::put_number(s, x);
    if s.len() == 0 {
        assert(s =~= Seq::empty());
        assert(r =~= s.push(x));
    } else if s.last() <= x {
        assert forall|i: int, j: int| 0 <= i < j < r.len() implies #[trigger] r[i]
            <= #[trigger] r[j] by {
            if j == s.len() && i < s.len() - 1 {
                assert(s[i] <= s[s.len() - 1]);
            }
        }
    } else {
        let front = s.drop_last();
        lemma_put_number(front, x);
        let q = standalone::put_number(front, x);
        let n = s.last();
        assert forall|i: int| 0 <= i < front.len() implies #[trigger] front[i] <= n by {
            assert(s[i] <= s[s.len() - 1]);
        }
        assert(up_to(front, n));
        assert(up_to(q, n));
        assert(front.push(n) =~= s);
        assert(r.to_multiset() =~= s.to_multiset().insert(x));
        assert forall|m: u32| #[trigger] up_to(s, m) && x <= m implies up_to(r, m) by {
            assert forall|i: int| 0 <= i < front.len() implies #[trigger] front[i] <= m by {
                assert(s[i] <= m);
            }
            assert(up_to(front, m));
            assert(s[s.len() - 1] <= m);
        }
    }
}

spec fn up_to(s: Seq<u32>, n: u32) -> bool {
    forall|i: int| 0 <= i < s.len() ==> #[trigger] s[i] <= n
}

/// The list of what is ignored holds the number of each, as often as it is named, in
/// ascending order.
pub proof fn ignored_terminals_are_listed(ignore: Seq<SymbolId>, k: nat)
    requires
        k <= ignore.len(),
    ensures
        ({
            let r = standalone::sorted_ids(ignore, k);
            &&& forall|i: int, j: int| 0 <= i < j < r.len() ==> #[trigger] r[i] <= #[trigger] r[j]
            &&& r.to_multiset() == Seq::new(k, |i: int| ignore[i].0).to_multiset()
        }),
    decreases k,
{
    broadcast use vstd::seq_lib::group_to_multiset_ensures;

    let all = Seq::new(k, |i: int| ignore[i].0);
    if k > 0 {
        ignored_terminals_are_listed(ignore, (k - 1) as nat);
        lemma_put_number(standalone::sorted_ids(ignore, (k - 1) as nat), ignore[k - 1].0);
        assert(Seq::new((k - 1) as nat, |i: int| ignore[i].0).push(ignore[k - 1].0) =~= all);
    } else {
        assert(standalone::sorted_ids(ignore, 0) =~= all);
    }
}

// ---------------------------------------------------------------------------
// Keywords

/// The entry of a keyword.
pub open spec fn keyword_entry(k: scanner::KeywordModel) -> Seq<char> {
    "("@ + postlex::quoted(k.value) + ", "@ + text::decimal_text(k.to.ix() as nat) + ")"@
}

/// The entries under a terminal are those of the keywords that it matches, in order.
pub proof fn keywords_are_listed_under_their_terminals(
    s: Seq<scanner::KeywordModel>,
    id: SymbolId,
    k: nat,
)
    requires
        k <= s.len(),
    ensures
        ({
            let own = s.take(k as int).filter(|x: scanner::KeywordModel| x.from == id);
            let r = standalone::keyword_entries(s, id, k);
            &&& r.len() == own.len()
            &&& forall|i: int| 0 <= i < r.len() ==> #[trigger] r[i] == keyword_entry(own[i])
        }),
    decreases k,
{
    reveal(Seq::filter);
    if k > 0 {
        keywords_are_listed_under_their_terminals(s, id, (k - 1) as nat);
        assert(s.take(k as int).drop_last() =~= s.take((k - 1) as int));
        assert(s.take(k as int).last() == s[k - 1]);
    }
}

} // verus!
