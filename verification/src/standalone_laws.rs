//! What the numbers, lists and rows of a generated file read as.

use vstd::prelude::*;
use crate::postlex;
use crate::standalone;
use crate::symbols;
use crate::text;

verus! {

// ---------------------------------------------------------------------------
// Numbers and lists

/// The number that a digit stands for.
pub open spec fn digit_value(c: char) -> int {
    c as int - '0' as int
}

/// The number that digits stand for.
pub open spec fn number_read(s: Seq<char>) -> int
    decreases s.len(),
{
    if s.len() == 0 {
        0
    } else {
        10 * number_read(s.drop_last()) + digit_value(s.last())
    }
}

/// A number is written in digits that read as that number.
pub proof fn numbers_read_back(n: nat)
    ensures
        number_read(text::decimal_text(n)) == n,
        text::decimal_text(n).len() > 0,
        forall|i: int|
            0 <= i < text::decimal_text(n).len() ==> '0' <= (#[trigger] text::decimal_text(n)[i])
                <= '9',
        text::decimal_text(n).len() > 1 ==> text::decimal_text(n)[0] != '0',
    decreases n,
{
    let s = text::decimal_text(n);
    reveal_with_fuel(number_read, 2);
    if n >= 10 {
        let d = text::decimal_text(n / 10);
        numbers_read_back(n / 10);
        assert(s.drop_last() =~= d);
        assert(s[0] == d[0]);
        assert forall|i: int| 0 <= i < s.len() implies '0' <= (#[trigger] s[i]) <= '9' by {
            if i < d.len() {
                assert(s[i] == d[i]);
            }
        }
        if d.len() == 1 && d[0] == '0' {
            assert(d.drop_last() =~= Seq::empty());
            assert(number_read(d) == 0);
        }
    } else {
        assert(s.drop_last() =~= Seq::empty());
    }
}

/// Items with a comma and a blank between any two.
pub open spec fn listed(items: Seq<Seq<char>>) -> Seq<char>
    decreases items.len(),
{
    if items.len() == 0 {
        Seq::empty()
    } else if items.len() == 1 {
        items[0]
    } else {
        items[0] + ", "@ + listed(items.drop_first())
    }
}

proof fn lemma_listed_push(items: Seq<Seq<char>>, x: Seq<char>)
    requires
        items.len() > 0,
    ensures
        listed(items.push(x)) == listed(items) + ", "@ + x,
    decreases items.len(),
{
    let all = items.push(x);
    if items.len() == 1 {
        assert(all.drop_first() =~= seq![x]);
        assert(listed(seq![x]) == x);
    } else {
        assert(all.drop_first() =~= items.drop_first().push(x));
        lemma_listed_push(items.drop_first(), x);
        assert(items[0] + ", "@ + (listed(items.drop_first()) + ", "@ + x) =~= items[0] + ", "@
            + listed(items.drop_first()) + ", "@ + x);
    }
}

/// Joined parts stand in their order, with a separator between any two.
pub proof fn joined_parts_are_listed(items: Seq<Seq<char>>)
    ensures
        text::joined(items, ", "@) == listed(items),
        text::joined(items, ""@) == items.flatten(),
    decreases items.len(),
{
    reveal_strlit("");
    if items.len() > 1 {
        let front = items.drop_last();
        joined_parts_are_listed(front);
        lemma_listed_push(front, items.last());
        assert(front.push(items.last()) =~= items);
        front.lemma_flatten_push(items.last());
        assert(text::joined(front, ""@) + ""@ + items.last() =~= text::joined(front, ""@)
            + items.last());
    } else if items.len() == 1 {
        assert(items =~= seq![items[0]]);
        Seq::<Seq<char>>::empty().lemma_flatten_push(items[0]);
        assert(Seq::<Seq<char>>::empty().push(items[0]) =~= items);
        assert(Seq::<Seq<char>>::empty().flatten() =~= Seq::empty());
        assert(Seq::<char>::empty() + items[0] =~= items[0]);
    } else {
        assert(items =~= Seq::empty());
        assert(items.flatten() =~= Seq::empty());
    }
}

// ---------------------------------------------------------------------------
// Reading the row of a rule

/// The place of the last colon of a text, or -1.
pub open spec fn last_colon(s: Seq<char>) -> int
    decreases s.len(),
{
    if s.len() == 0 {
        -1
    } else if s.last() == ':' {
        s.len() - 1
    } else {
        last_colon(s.drop_last())
    }
}

/// What stands before the colon that `i` others follow.
pub open spec fn label_before(s: Seq<char>, i: nat) -> Seq<char>
    decreases i,
{
    if i == 0 {
        s.take(last_colon(s))
    } else {
        label_before(s.take(last_colon(s)), (i - 1) as nat)
    }
}

/// What stands behind the colon that `i` others follow, up to the next one.
pub open spec fn value_behind(s: Seq<char>, i: nat) -> Seq<char>
    decreases i,
{
    if i == 0 {
        s.skip(last_colon(s) + 1)
    } else {
        value_behind(s.take(last_colon(s)), (i - 1) as nat)
    }
}

/// Whether a text begins with another.
pub open spec fn begins(s: Seq<char>, p: Seq<char>) -> bool {
    p.len() <= s.len() && s.take(p.len() as int) == p
}

/// Whether a text ends with another.
pub open spec fn ends(s: Seq<char>, p: Seq<char>) -> bool {
    p.len() <= s.len() && s.skip(s.len() - p.len()) == p
}

/// Whether the colon that `i` others follow stands between a label and a value.
pub open spec fn tells(s: Seq<char>, i: nat, label: Seq<char>, value: Seq<char>) -> bool {
    ends(label_before(s, i), label) && begins(value_behind(s, i), value)
}

/// How a truth value is read.
pub open spec fn word(b: bool) -> Seq<char> {
    if b {
        "true"@
    } else {
        "false"@
    }
}

/// Whether a row tells of a rule what shaping goes by: whose it is and how many
/// symbols it has, how its node is named, whether it is spliced, whether a single
/// child takes its place, whether it has an alias, whether all tokens are kept and
/// which positions are dropped, and how many absent optionals stand where.
pub open spec fn tells_rule(row: Seq<char>, r: symbols::RuleModel) -> bool {
    &&& tells(row, 0, " is_start"@, " "@ + word(r.is_start) + " "@)
    &&& tells(
        row,
        1,
        " nones_before"@,
        " &["@ + listed(
            Seq::new(r.nones_before.len(), |i: int| text::decimal_text(r.nones_before[i] as nat)),
        ) + "]"@,
    )
    &&& tells(
        row,
        2,
        " placeholder_count"@,
        " "@ + text::decimal_text(r.placeholder_count as nat) + ","@,
    )
    &&& tells(
        row,
        3,
        " filter_pos"@,
        " &["@ + listed(Seq::new(r.filter_pos.len(), |i: int| word(r.filter_pos[i]))) + "]"@,
    )
    &&& tells(row, 4, " keep_all"@, " "@ + word(r.keep_all_tokens) + ","@)
    &&& tells(row, 5, " has_alias"@, " "@ + word(r.alias is Some) + ","@)
    &&& tells(row, 6, " expand1"@, " "@ + word(r.expand1) + ","@)
    &&& tells(row, 7, " transparent"@, " "@ + word(r.transparent) + ","@)
    &&& label_before(row, 7) == "    RuleData { origin: "@ + text::decimal_text(
        r.origin.ix() as nat,
    ) + ", len: "@ + text::decimal_text(r.expansion.len()) + ", tree_name: "@ + postlex::quoted(
        r.tree_name,
    ) + ", transparent"@
}

proof fn lemma_last_colon(a: Seq<char>, b: Seq<char>)
    requires
        is_plain(b),
    ensures
        last_colon(a.push(':') + b) == a.len(),
    decreases b.len(),
{
    reveal(is_plain);
    let s = a.push(':') + b;
    if b.len() == 0 {
        assert(s =~= a.push(':'));
    } else {
        assert(s.last() == b.last());
        assert(b[b.len() - 1] != ':') by {
            if b[b.len() - 1] == ':' {
                assert(b.contains(':'));
            }
        }
        assert(!b.drop_last().contains(':')) by {
            if b.drop_last().contains(':') {
                let i = choose|i: int| 0 <= i < b.drop_last().len() && b.drop_last()[i] == ':';
                assert(b[i] == ':');
            }
        }
        assert(s.drop_last() =~= a.push(':') + b.drop_last());
        lemma_last_colon(a, b.drop_last());
    }
}

/// Whether a text has no colon.
#[verifier::opaque]
spec fn is_plain(s: Seq<char>) -> bool {
    !s.contains(':')
}

proof fn lemma_plain_add(a: Seq<char>, b: Seq<char>)
    requires
        is_plain(a),
        is_plain(b),
    ensures
        is_plain(a + b),
{
    reveal(is_plain);
    if (a + b).contains(':') {
        let i = choose|i: int| 0 <= i < (a + b).len() && (a + b)[i] == ':';
        if i < a.len() {
            assert(a[i] == ':');
        } else {
            assert(b[i - a.len()] == ':');
        }
    }
}

proof fn lemma_plain_number(n: nat)
    ensures
        is_plain(text::decimal_text(n)),
{
    reveal(is_plain);
    numbers_read_back(n);
}

proof fn lemma_plain_word(b: bool)
    ensures
        is_plain(word(b)),
{
    reveal(is_plain);
    reveal_strlit("true");
    reveal_strlit("false");
}

proof fn lemma_plain_list(items: Seq<Seq<char>>)
    requires
        forall|i: int| 0 <= i < items.len() ==> is_plain(#[trigger] items[i]),
    ensures
        is_plain(listed(items)),
    decreases items.len(),
{
    reveal(is_plain);
    reveal_strlit(", ");
    if items.len() > 1 {
        let rest = items.drop_first();
        assert forall|i: int| 0 <= i < rest.len() implies is_plain(#[trigger] rest[i]) by {
            assert(rest[i] == items[i + 1]);
        }
        lemma_plain_list(rest);
        lemma_plain_add(items[0], ", "@);
        lemma_plain_add(items[0] + ", "@, listed(rest));
    }
}

/// Whether a text is a head, a colon and an entry without one, and the head ends in a
/// label.
#[verifier::opaque]
spec fn is_linked(s: Seq<char>, h: Seq<char>, e: Seq<char>) -> bool {
    s.take(last_colon(s)) == h && s.skip(last_colon(s) + 1) == e
}

proof fn lemma_linked(h: Seq<char>, e: Seq<char>)
    requires
        is_plain(e),
    ensures
        is_linked(h.push(':') + e, h, e),
{
    reveal(is_linked);
    let s = h.push(':') + e;
    lemma_last_colon(h, e);
    assert(s.take(last_colon(s)) =~= h);
    assert(s.skip(last_colon(s) + 1) =~= e);
}

/// One entry of a row more: the head of the next entry, and what it is read as.
proof fn lemma_entry(
    p: Seq<char>,
    h: Seq<char>,
    o: Seq<char>,
    v: Seq<char>,
    c: Seq<char>,
    label: Seq<char>,
    o2: Seq<char>,
    lit: Seq<char>,
    value: Seq<char>,
    more: Seq<char>,
) -> (r: (Seq<char>, Seq<char>))
    requires
        p == h.push(':') + o,
        lit == (c + label).push(':') + o2,
        is_plain(o),
        is_plain(v),
        is_plain(c),
        is_plain(label),
        o + v + c == value + more,
    ensures
        p + v + lit == r.0.push(':') + o2,
        is_linked(r.0, h, r.1),
        begins(r.1, value),
        ends(r.0, label),
{
    let e = (o + v + c) + label;
    let h2 = h.push(':') + e;
    lemma_plain_add(o, v);
    lemma_plain_add(o + v, c);
    lemma_plain_add(o + v + c, label);
    lemma_linked(h, e);
    assert(p + v + lit =~= h2.push(':') + o2);
    assert(h2.skip(h2.len() - label.len()) =~= label);
    assert(e.take(value.len() as int) =~= value) by {
        assert(e =~= value + (more + label));
    }
    (h2, e)
}

proof fn lemma_first(
    s: Seq<char>,
    h: Seq<char>,
    e: Seq<char>,
    label: Seq<char>,
    value: Seq<char>,
)
    requires
        is_linked(s, h, e),
        ends(h, label),
        begins(e, value),
    ensures
        tells(s, 0, label, value),
{
    reveal(is_linked);
}

proof fn lemma_further(s: Seq<char>, h: Seq<char>, e: Seq<char>, i: nat)
    requires
        is_linked(s, h, e),
    ensures
        label_before(s, i + 1) == label_before(h, i),
        value_behind(s, i + 1) == value_behind(h, i),
        label_before(s, 0) == h,
{
    reveal(is_linked);
}

/// What a chain of heads and entries tells.
proof fn lemma_chain(
    s: Seq<char>,
    hs: Seq<Seq<char>>,
    es: Seq<Seq<char>>,
    labels: Seq<Seq<char>>,
    values: Seq<Seq<char>>,
    i: nat,
)
    requires
        i < hs.len(),
        hs.len() == es.len() == labels.len() == values.len(),
        is_linked(s, hs[0], es[0]),
        forall|k: int|
            0 < k < hs.len() ==> #[trigger] is_linked(hs[k - 1], hs[k], es[k]),
        ends(hs[i as int], labels[i as int]),
        begins(es[i as int], values[i as int]),
    ensures
        label_before(s, i) == hs[i as int],
        tells(s, i, labels[i as int], values[i as int]),
    decreases i,
{
    lemma_further(s, hs[0], es[0], 0);
    if i == 0 {
        lemma_first(s, hs[0], es[0], labels[0], values[0]);
    } else {
        assert(is_linked(hs[1 - 1], hs[1], es[1]));
        let hr = hs.skip(1);
        let er = es.skip(1);
        let lr = labels.skip(1);
        let vr = values.skip(1);
        assert forall|k: int| 0 < k < hr.len() implies #[trigger] is_linked(
            hr[k - 1],
            hr[k],
            er[k],
        ) by {
            assert(is_linked(hs[(k + 1) - 1], hs[k + 1], es[k + 1]));
        }
        lemma_chain(hs[0], hr, er, lr, vr, (i - 1) as nat);
        lemma_further(s, hs[0], es[0], (i - 1) as nat);
    }
}

proof fn lemma_texts_alike(s: Seq<bool>)
    ensures
        standalone::bool_texts(s) == Seq::new(s.len(), |i: int| word(s[i])),
{
    assert(standalone::bool_texts(s) =~= Seq::new(s.len(), |i: int| word(s[i])));
}

/// The texts that the entries of the row of a rule begin with, the last entry first.
spec fn entry_values(r: symbols::RuleModel) -> Seq<Seq<char>> {
    seq![
        " "@ + word(r.is_start) + " "@,
        " &["@ + listed(
            Seq::new(r.nones_before.len(), |i: int| text::decimal_text(r.nones_before[i] as nat)),
        ) + "]"@,
        " "@ + text::decimal_text(r.placeholder_count as nat) + ","@,
        " &["@ + listed(Seq::new(r.filter_pos.len(), |i: int| word(r.filter_pos[i]))) + "]"@,
        " "@ + word(r.keep_all_tokens) + ","@,
        " "@ + word(r.alias is Some) + ","@,
        " "@ + word(r.expand1) + ","@,
        " "@ + word(r.transparent) + ","@,
    ]
}

/// Their labels.
spec fn entry_labels() -> Seq<Seq<char>> {
    seq![
        " is_start"@,
        " nones_before"@,
        " placeholder_count"@,
        " filter_pos"@,
        " keep_all"@,
        " has_alias"@,
        " expand1"@,
        " transparent"@,
    ]
}

spec fn row_head(r: symbols::RuleModel) -> Seq<char> {
    "    RuleData { origin: "@ + text::decimal_text(r.origin.ix() as nat) + ", len: "@
        + text::decimal_text(r.expansion.len()) + ", tree_name: "@ + postlex::quoted(r.tree_name)
        + ", transparent"@
}

/// The heads and entries of the row of a rule.
#[verifier::spinoff_prover]
#[verifier::rlimit(80)]
proof fn lemma_row(r: symbols::RuleModel) -> (x: (Seq<Seq<char>>, Seq<Seq<char>>))
    ensures
        x.0.len() == 8,
        x.1.len() == 8,
        is_linked(standalone::rule_row(r), x.0[0], x.1[0]),
        is_linked(x.0[0], x.0[1], x.1[1]),
        is_linked(x.0[1], x.0[2], x.1[2]),
        is_linked(x.0[2], x.0[3], x.1[3]),
        is_linked(x.0[3], x.0[4], x.1[4]),
        is_linked(x.0[4], x.0[5], x.1[5]),
        is_linked(x.0[5], x.0[6], x.1[6]),
        is_linked(x.0[6], x.0[7], x.1[7]),
        x.0[7] == row_head(r),
        forall|k: int|
            0 <= k < 8 ==> ends(#[trigger] x.0[k], entry_labels()[k]) && begins(
                x.1[k],
                entry_values(r)[k],
            ),
{
    let row = standalone::rule_row(r);
    let flags = Seq::new(r.filter_pos.len(), |i: int| word(r.filter_pos[i]));
    let sizes = Seq::new(
        r.nones_before.len(),
        |i: int| text::decimal_text(r.nones_before[i] as nat),
    );
    lemma_lists(r);
    let base = "    RuleData { origin: "@ + text::decimal_text(r.origin.ix() as nat) + ", len: "@
        + text::decimal_text(r.expansion.len()) + ", tree_name: "@ + postlex::quoted(r.tree_name);
    let h7 = base + ", transparent"@;
    let p7 = base + ", transparent: "@;
    lemma_literals();
    assert(p7 =~= h7.push(':') + " "@);
    assert(h7.skip(h7.len() - " transparent"@.len()) =~= " transparent"@);
    let v7 = word(r.transparent);
    assert(" "@ + v7 + ","@ =~= (" "@ + v7 + ","@) + Seq::empty());
    let (h6, e7) = lemma_entry(
        p7,
        h7,
        " "@,
        v7,
        ","@,
        " expand1"@,
        " "@,
        ", expand1: "@,
        " "@ + v7 + ","@,
        Seq::empty(),
    );
    let p6 = p7 + v7 + ", expand1: "@;
    let v6 = word(r.expand1);
    assert(" "@ + v6 + ","@ =~= (" "@ + v6 + ","@) + Seq::empty());
    let (h5, e6) = lemma_entry(
        p6,
        h6,
        " "@,
        v6,
        ","@,
        " has_alias"@,
        " "@,
        ", has_alias: "@,
        " "@ + v6 + ","@,
        Seq::empty(),
    );
    let p5 = p6 + v6 + ", has_alias: "@;
    let v5 = word(r.alias is Some);
    assert(" "@ + v5 + ","@ =~= (" "@ + v5 + ","@) + Seq::empty());
    let (h4, e5) = lemma_entry(
        p5,
        h5,
        " "@,
        v5,
        ","@,
        " keep_all"@,
        " "@,
        ", keep_all: "@,
        " "@ + v5 + ","@,
        Seq::empty(),
    );
    let p4 = p5 + v5 + ", keep_all: "@;
    let v4 = word(r.keep_all_tokens);
    assert(" "@ + v4 + ","@ =~= (" "@ + v4 + ","@) + Seq::empty());
    let (h3, e4) = lemma_entry(
        p4,
        h4,
        " "@,
        v4,
        ","@,
        " filter_pos"@,
        " &["@,
        ", filter_pos: &["@,
        " "@ + v4 + ","@,
        Seq::empty(),
    );
    let p3 = p4 + v4 + ", filter_pos: &["@;
    let v3 = listed(flags);
    assert(" &["@ + v3 + "],"@ =~= (" &["@ + v3 + "]"@) + ","@);
    let (h2, e3) = lemma_entry(
        p3,
        h3,
        " &["@,
        v3,
        "],"@,
        " placeholder_count"@,
        " "@,
        "], placeholder_count: "@,
        " &["@ + v3 + "]"@,
        ","@,
    );
    let p2 = p3 + v3 + "], placeholder_count: "@;
    let v2 = text::decimal_text(r.placeholder_count as nat);
    assert(" "@ + v2 + ","@ =~= (" "@ + v2 + ","@) + Seq::empty());
    let (h1, e2) = lemma_entry(
        p2,
        h2,
        " "@,
        v2,
        ","@,
        " nones_before"@,
        " &["@,
        ", nones_before: &["@,
        " "@ + v2 + ","@,
        Seq::empty(),
    );
    let p1 = p2 + v2 + ", nones_before: &["@;
    let v1 = listed(sizes);
    assert(" &["@ + v1 + "],"@ =~= (" &["@ + v1 + "]"@) + ","@);
    let (h0, e1) = lemma_entry(
        p1,
        h1,
        " &["@,
        v1,
        "],"@,
        " is_start"@,
        " "@,
        "], is_start: "@,
        " &["@ + v1 + "]"@,
        ","@,
    );
    let p0 = p1 + v1 + "], is_start: "@;
    let v0 = word(r.is_start);
    let e0 = " "@ + v0 + " },\n"@;
    lemma_plain_add(" "@, v0);
    lemma_plain_add(" "@ + v0, " },\n"@);
    lemma_linked(h0, e0);
    assert(row =~= h0.push(':') + e0);
    assert(e0.take((" "@ + v0 + " "@).len() as int) =~= " "@ + v0 + " "@);
    let hs = seq![h0, h1, h2, h3, h4, h5, h6, h7];
    let es = seq![e0, e1, e2, e3, e4, e5, e6, e7];
    assert forall|k: int| 0 <= k < 8 implies ends(#[trigger] hs[k], entry_labels()[k]) && begins(
        es[k],
        entry_values(r)[k],
    ) by {
        if k == 0 {
        } else if k == 1 {
        } else if k == 2 {
        } else if k == 3 {
        } else if k == 4 {
        } else if k == 5 {
        } else if k == 6 {
        } else {
        }
    }
    (hs, es)
}

/// The lists of a rule have no colons.
proof fn lemma_lists(r: symbols::RuleModel)
    ensures
        ({
            let flags = Seq::new(r.filter_pos.len(), |i: int| word(r.filter_pos[i]));
            let sizes = Seq::new(
                r.nones_before.len(),
                |i: int| text::decimal_text(r.nones_before[i] as nat),
            );
            &&& text::joined(standalone::bool_texts(r.filter_pos), ", "@) == listed(flags)
            &&& text::joined(standalone::size_texts(r.nones_before), ", "@) == listed(sizes)
            &&& is_plain(listed(flags))
            &&& is_plain(listed(sizes))
        }),
        is_plain(word(r.transparent)),
        is_plain(word(r.expand1)),
        is_plain(word(r.alias is Some)),
        is_plain(word(r.keep_all_tokens)),
        is_plain(word(r.is_start)),
        is_plain(text::decimal_text(r.placeholder_count as nat)),
{
    let flags = Seq::new(r.filter_pos.len(), |i: int| word(r.filter_pos[i]));
    let sizes = Seq::new(
        r.nones_before.len(),
        |i: int| text::decimal_text(r.nones_before[i] as nat),
    );
    lemma_texts_alike(r.filter_pos);
    assert(standalone::size_texts(r.nones_before) =~= sizes);
    joined_parts_are_listed(flags);
    joined_parts_are_listed(sizes);
    assert forall|i: int| 0 <= i < flags.len() implies is_plain(#[trigger] flags[i]) by {
        lemma_plain_word(r.filter_pos[i]);
    }
    assert forall|i: int| 0 <= i < sizes.len() implies is_plain(#[trigger] sizes[i]) by {
        lemma_plain_number(r.nones_before[i] as nat);
    }
    lemma_plain_list(flags);
    lemma_plain_list(sizes);
    lemma_plain_word(r.transparent);
    lemma_plain_word(r.expand1);
    lemma_plain_word(r.alias is Some);
    lemma_plain_word(r.keep_all_tokens);
    lemma_plain_word(r.is_start);
    lemma_plain_number(r.placeholder_count as nat);
}

/// The row of a rule in a generated file reads as that rule, as far as shaping goes.
pub proof fn rule_rows_read_back(r: symbols::RuleModel)
    ensures
        tells_rule(standalone::rule_row(r), r),
{
    let row = standalone::rule_row(r);
    let (hs, es) = lemma_row(r);
    let labels = entry_labels();
    let values = entry_values(r);
    assert forall|k: int| 0 < k < hs.len() implies #[trigger] is_linked(
        hs[k - 1],
        hs[k],
        es[k],
    ) by {
        if k == 1 {
        } else if k == 2 {
        } else if k == 3 {
        } else if k == 4 {
        } else if k == 5 {
        } else if k == 6 {
        } else {
        }
    }
    lemma_chain(row, hs, es, labels, values, 0);
    lemma_chain(row, hs, es, labels, values, 1);
    lemma_chain(row, hs, es, labels, values, 2);
    lemma_chain(row, hs, es, labels, values, 3);
    lemma_chain(row, hs, es, labels, values, 4);
    lemma_chain(row, hs, es, labels, values, 5);
    lemma_chain(row, hs, es, labels, values, 6);
    lemma_chain(row, hs, es, labels, values, 7);
}

/// How the literal texts of a row are made up.
proof fn lemma_literals()
    ensures
        ", transparent: "@ == ", transparent"@.push(':') + " "@,
        ", transparent"@ == ","@ + " transparent"@,
        ", expand1: "@ == (","@ + " expand1"@).push(':') + " "@,
        ", has_alias: "@ == (","@ + " has_alias"@).push(':') + " "@,
        ", keep_all: "@ == (","@ + " keep_all"@).push(':') + " "@,
        ", filter_pos: &["@ == (","@ + " filter_pos"@).push(':') + " &["@,
        "], placeholder_count: "@ == ("],"@ + " placeholder_count"@).push(':') + " "@,
        ", nones_before: &["@ == (","@ + " nones_before"@).push(':') + " &["@,
        "], is_start: "@ == ("],"@ + " is_start"@).push(':') + " "@,
        "],"@ == "]"@ + ","@,
        " },\n"@ == " "@ + "},\n"@,
        is_plain(" "@),
        is_plain(" &["@),
        is_plain(","@),
        is_plain("],"@),
        is_plain(" },\n"@),
        is_plain(" expand1"@),
        is_plain(" has_alias"@),
        is_plain(" keep_all"@),
        is_plain(" filter_pos"@),
        is_plain(" placeholder_count"@),
        is_plain(" nones_before"@),
        is_plain(" is_start"@),
{
    reveal(is_plain);
    reveal_strlit(", transparent: ");
    reveal_strlit(", transparent");
    reveal_strlit(" transparent");
    reveal_strlit(", expand1: ");
    reveal_strlit(" expand1");
    reveal_strlit(", has_alias: ");
    reveal_strlit(" has_alias");
    reveal_strlit(", keep_all: ");
    reveal_strlit(" keep_all");
    reveal_strlit(", filter_pos: &[");
    reveal_strlit(" filter_pos");
    reveal_strlit("], placeholder_count: ");
    reveal_strlit(" placeholder_count");
    reveal_strlit(", nones_before: &[");
    reveal_strlit(" nones_before");
    reveal_strlit("], is_start: ");
    reveal_strlit(" is_start");
    reveal_strlit("],");
    reveal_strlit("]");
    reveal_strlit(",");
    reveal_strlit(" ");
    reveal_strlit(" &[");
    reveal_strlit(" },\n");
    reveal_strlit("},\n");
    assert(", transparent: "@ =~= ", transparent"@.push(':') + " "@);
    assert(", transparent"@ =~= ","@ + " transparent"@);
    assert(", expand1: "@ =~= (","@ + " expand1"@).push(':') + " "@);
    assert(", has_alias: "@ =~= (","@ + " has_alias"@).push(':') + " "@);
    assert(", keep_all: "@ =~= (","@ + " keep_all"@).push(':') + " "@);
    assert(", filter_pos: &["@ =~= (","@ + " filter_pos"@).push(':') + " &["@);
    assert("], placeholder_count: "@ =~= ("],"@ + " placeholder_count"@).push(':') + " "@);
    assert(", nones_before: &["@ =~= (","@ + " nones_before"@).push(':') + " &["@);
    assert("], is_start: "@ =~= ("],"@ + " is_start"@).push(':') + " "@);
    assert("],"@ =~= "]"@ + ","@);
    assert(" },\n"@ =~= " "@ + "},\n"@);
}

} // verus!
