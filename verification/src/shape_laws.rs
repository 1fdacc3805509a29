//! What a rule makes of what it matched: which children a node has, when there is no
//! node, and what its span covers.

use vstd::prelude::*;
use crate::symbols;
use crate::tree;
use crate::tree::Meta;
use crate::tree_builder;
use crate::tree_builder::ContainerSpan;

verus! {

// ---------------------------------------------------------------------------
// Children

/// How many optional parts are absent before a position of a rule.
pub open spec fn gap(rule: symbols::RuleModel, pos: int) -> nat {
    if pos < rule.nones_before.len() {
        rule.nones_before[pos] as nat
    } else {
        0
    }
}

/// What a position of a rule gives its node: nothing for a token that the rule filters
/// out, unless it keeps all tokens; all nodes of a splice; and else the one value.
pub open spec fn given(
    rule: symbols::RuleModel,
    pos: int,
    slot: tree_builder::SlotModel,
) -> Seq<tree::Node> {
    let filtered = pos < rule.filter_pos.len() && rule.filter_pos[pos] && !rule.keep_all_tokens;
    match slot {
        tree_builder::SlotModel::Inline(ns) => ns,
        tree_builder::SlotModel::Value(tree::Node::Token(t)) => if filtered {
            Seq::empty()
        } else {
            seq![tree::Node::Token(t)]
        },
        tree_builder::SlotModel::Value(n) => seq![n],
    }
}

/// What the positions of a rule give from `from` on, with a mark for each optional
/// part that is absent.
pub open spec fn laid_out(
    rule: symbols::RuleModel,
    slots: Seq<tree_builder::SlotModel>,
    from: nat,
) -> Seq<tree::Node>
    decreases slots.len() - from,
{
    if from >= slots.len() {
        Seq::new(
            rule.placeholder_count as nat + gap(rule, rule.expansion.len() as int),
            |i: int| tree::Node::Absent,
        )
    } else {
        Seq::new(gap(rule, from as int), |i: int| tree::Node::Absent) + (given(
            rule,
            from as int,
            slots[from as int],
        ) + laid_out(rule, slots, from + 1))
    }
}

proof fn lemma_laid_out(
    rule: symbols::RuleModel,
    slots: Seq<tree_builder::SlotModel>,
    k: nat,
)
    requires
        k <= slots.len(),
    ensures
        tree_builder::kept_children(rule, slots.take(k as int)) + laid_out(rule, slots, k)
            == laid_out(rule, slots, 0),
    decreases k,
{
    let s = slots.take(k as int);
    if k == 0 {
        assert(s =~= Seq::empty());
        assert(tree_builder::kept_children(rule, s) + laid_out(rule, slots, 0) =~= laid_out(
            rule,
            slots,
            0,
        ));
    } else {
        let i = (k - 1) as nat;
        lemma_laid_out(rule, slots, i);
        assert(s.drop_last() =~= slots.take(i as int));
        assert(s.last() == slots[i as int]);
        let before = tree_builder::kept_children(rule, slots.take(i as int));
        let marks = tree_builder::absents(symbols::nones_at(rule, i as int));
        let own = tree_builder::slot_children(rule, i as int, slots[i as int]);
        assert(marks =~= Seq::new(gap(rule, i as int), |i: int| tree::Node::Absent));
        assert(own =~= given(rule, i as int, slots[i as int]));
        let rest = laid_out(rule, slots, k);
        assert(tree_builder::kept_children(rule, s) == before + marks + own);
        assert(before + marks + own + rest =~= before + (marks + (own + rest)));
    }
}

/// The children that a rule keeps, with the marks at its end, are those laid out.
pub(crate) proof fn lemma_all_laid_out(
    rule: symbols::RuleModel,
    slots: Seq<tree_builder::SlotModel>,
)
    requires
        slots.len() == rule.expansion.len(),
    ensures
        tree_builder::kept_children(rule, slots) + tree_builder::trailing_absents(rule)
            == laid_out(rule, slots, 0),
{
    let n = slots.len();
    lemma_laid_out(rule, slots, n);
    assert(slots.take(n as int) =~= slots);
    assert(tree_builder::trailing_absents(rule) =~= laid_out(rule, slots, n));
}

// ---------------------------------------------------------------------------
// Spans

/// Whether a node has a line that it begins in.
pub open spec fn has_line(n: tree::Node) -> bool {
    match n {
        tree::Node::Token(t) => t.line > 0,
        tree::Node::Tree { data, children, meta } => meta.line is Some,
        tree::Node::Absent => false,
    }
}

/// Whether a node has a line that it ends in.
pub open spec fn has_end_line(n: tree::Node) -> bool {
    match n {
        tree::Node::Token(t) => t.end_line > 0,
        tree::Node::Tree { data, children, meta } => meta.end_line is Some,
        tree::Node::Absent => false,
    }
}

/// A number that counts from one on.
pub open spec fn known(n: usize) -> Option<usize> {
    if n == 0 {
        None
    } else {
        Some(n)
    }
}

/// Whether a span begins where a node begins.
pub open spec fn begins_as(m: Meta, n: tree::Node) -> bool {
    match n {
        tree::Node::Token(t) => m.line == known(t.line) && m.column == known(t.column)
            && m.start_pos == Some(t.start_pos),
        tree::Node::Tree { data, children, meta } => m.line == meta.line && m.column == meta.column
            && m.start_pos == meta.start_pos,
        tree::Node::Absent => false,
    }
}

/// Whether a span ends where a node ends.
pub open spec fn ends_as(m: Meta, n: tree::Node) -> bool {
    match n {
        tree::Node::Token(t) => m.end_line == known(t.end_line) && m.end_column == known(
            t.end_column,
        ) && m.end_pos == Some(t.end_pos),
        tree::Node::Tree { data, children, meta } => m.end_line == meta.end_line && m.end_column
            == meta.end_column && m.end_pos == meta.end_pos,
        tree::Node::Absent => false,
    }
}

proof fn lemma_first_lined(s: Seq<tree::Node>)
    ensures
        match tree_builder::first_lined(s) {
            None => forall|j: int| 0 <= j < s.len() ==> !has_line(#[trigger] s[j]),
            Some(n) => exists|i: int|
                0 <= i < s.len() && #[trigger] s[i] == n && has_line(n) && forall|j: int|
                    0 <= j < i ==> !has_line(#[trigger] s[j]),
        },
    decreases s.len(),
{
    if s.len() > 0 {
        assert(has_line(s[0]) == (tree::node_line(s[0]) is Some));
        if !has_line(s[0]) {
            let t = s.drop_first();
            lemma_first_lined(t);
            match tree_builder::first_lined(t) {
                None => {
                    assert forall|j: int| 0 <= j < s.len() implies !has_line(#[trigger] s[j]) by {
                        if j > 0 {
                            assert(t[j - 1] == s[j]);
                        }
                    }
                },
                Some(n) => {
                    let i = choose|i: int|
                        0 <= i < t.len() && #[trigger] t[i] == n && has_line(n) && forall|j: int|
                            0 <= j < i ==> !has_line(#[trigger] t[j]);
                    assert(s[i + 1] == n);
                    assert forall|j: int| 0 <= j < i + 1 implies !has_line(#[trigger] s[j]) by {
                        if j > 0 {
                            assert(t[j - 1] == s[j]);
                        }
                    }
                },
            }
        }
    }
}

proof fn lemma_last_lined(s: Seq<tree::Node>)
    ensures
        match tree_builder::last_lined(s) {
            None => forall|j: int| 0 <= j < s.len() ==> !has_end_line(#[trigger] s[j]),
            Some(n) => exists|i: int|
                0 <= i < s.len() && #[trigger] s[i] == n && has_end_line(n) && forall|j: int|
                    i < j < s.len() ==> !has_end_line(#[trigger] s[j]),
        },
    decreases s.len(),
{
    if s.len() > 0 {
        assert(has_end_line(s.last()) == (tree::node_end_line(s.last()) is Some));
        if !has_end_line(s.last()) {
            let t = s.drop_last();
            lemma_last_lined(t);
            match tree_builder::last_lined(t) {
                None => {
                    assert forall|j: int| 0 <= j < s.len() implies !has_end_line(
                        #[trigger] s[j],
                    ) by {
                        if j < s.len() - 1 {
                            assert(t[j] == s[j]);
                        }
                    }
                },
                Some(n) => {
                    let i = choose|i: int|
                        0 <= i < t.len() && #[trigger] t[i] == n && has_end_line(n) && forall|
                            j: int,
                        |
                            i < j < t.len() ==> !has_end_line(#[trigger] t[j]);
                    assert(s[i] == n);
                    assert forall|j: int| i < j < s.len() implies !has_end_line(#[trigger] s[j]) by {
                        if j < s.len() - 1 {
                            assert(t[j] == s[j]);
                        }
                    }
                },
            }
        } else {
            assert(s[s.len() - 1] == s.last());
        }
    }
}

/// Whether a span goes from the first of some nodes that has a line to the last that
/// has an end line.
pub open spec fn spans(m: Meta, s: Seq<tree::Node>) -> bool {
    &&& (forall|j: int| 0 <= j < s.len() ==> !has_line(#[trigger] s[j])) ==> m.empty
        && m.line is None && m.column is None && m.start_pos is None
    &&& forall|i: int|
        0 <= i < s.len() && has_line(#[trigger] s[i]) && (forall|j: int|
            0 <= j < i ==> !has_line(#[trigger] s[j])) ==> !m.empty && begins_as(m, s[i])
    &&& (forall|j: int| 0 <= j < s.len() ==> !has_end_line(#[trigger] s[j])) ==> m.end_line is None
        && m.end_column is None && m.end_pos is None
    &&& forall|i: int|
        0 <= i < s.len() && has_end_line(#[trigger] s[i]) && (forall|j: int|
            i < j < s.len() ==> !has_end_line(#[trigger] s[j])) ==> ends_as(m, s[i])
}

/// The span of a node goes from its first child with a line to its last with an end
/// line.
pub proof fn nodes_span_their_children(s: Seq<tree::Node>)
    ensures
        spans(tree_builder::children_meta(s), s),
{
    lemma_first_lined(s);
    lemma_last_lined(s);
    let m = tree_builder::children_meta(s);
    if let Some(n) = tree_builder::first_lined(s) {
        let i = choose|i: int|
            0 <= i < s.len() && #[trigger] s[i] == n && has_line(n) && forall|j: int|
                0 <= j < i ==> !has_line(#[trigger] s[j]);
        assert(begins_as(m, s[i]));
        assert forall|k: int|
            0 <= k < s.len() && has_line(#[trigger] s[k]) && (forall|j: int|
                0 <= j < k ==> !has_line(#[trigger] s[j])) implies !m.empty && begins_as(
            m,
            s[k],
        ) by {
            if k != i {
                assert(!has_line(s[if k < i {
                    k
                } else {
                    i
                }]));
            }
        }
    }
    if let Some(n) = tree_builder::last_lined(s) {
        let i = choose|i: int|
            0 <= i < s.len() && #[trigger] s[i] == n && has_end_line(n) && forall|j: int|
                i < j < s.len() ==> !has_end_line(#[trigger] s[j]);
        assert(ends_as(m, s[i]));
        assert forall|k: int|
            0 <= k < s.len() && has_end_line(#[trigger] s[k]) && (forall|j: int|
                k < j < s.len() ==> !has_end_line(#[trigger] s[j])) implies ends_as(m, s[k]) by {
            if k != i {
                assert(!has_end_line(s[if k < i {
                    i
                } else {
                    k
                }]));
            }
        }
    }
}

/// Whether a node bounds what a rule matched: a token does, and a tree whose span has
/// a line.
pub open spec fn is_positioned(n: tree::Node) -> bool {
    match n {
        tree::Node::Token(_) => true,
        tree::Node::Tree { data, children, meta } => !meta.empty && meta.line is Some,
        tree::Node::Absent => false,
    }
}

/// The span of a node that bounds something.
pub open spec fn own_span(n: tree::Node) -> Meta {
    match n {
        tree::Node::Token(t) => Meta {
            line: Some(t.line),
            column: Some(t.column),
            end_line: Some(t.end_line),
            end_column: Some(t.end_column),
            start_pos: Some(t.start_pos),
            end_pos: Some(t.end_pos),
            empty: false,
        },
        tree::Node::Tree { data, children, meta } => meta,
        tree::Node::Absent => tree::blank_meta(),
    }
}

/// All that slots hold, tokens that are filtered out among it.
pub open spec fn matched(slots: Seq<tree_builder::SlotModel>) -> Seq<tree::Node>
    decreases slots.len(),
{
    if slots.len() == 0 {
        Seq::empty()
    } else {
        matched(slots.drop_last()) + match slots.last() {
            tree_builder::SlotModel::Value(n) => seq![n],
            tree_builder::SlotModel::Inline(ns) => ns,
        }
    }
}

/// Whether a node is the first of some that bounds something.
pub open spec fn is_first(s: Seq<tree::Node>, i: int) -> bool {
    0 <= i < s.len() && is_positioned(s[i]) && forall|j: int|
        0 <= j < i ==> !is_positioned(#[trigger] s[j])
}

/// Whether a node is the last of some that bounds something.
pub open spec fn is_last(s: Seq<tree::Node>, i: int) -> bool {
    0 <= i < s.len() && is_positioned(s[i]) && forall|j: int|
        i < j < s.len() ==> !is_positioned(#[trigger] s[j])
}

/// Whether no node bounds anything.
pub open spec fn is_unbounded(s: Seq<tree::Node>) -> bool {
    forall|j: int| 0 <= j < s.len() ==> !is_positioned(#[trigger] s[j])
}

/// Whether a container's span is that of some nodes.
spec fn bounds(c: ContainerSpan, s: Seq<tree::Node>) -> bool {
    &&& is_unbounded(s) ==> c.first is None && c.last is None
    &&& forall|i: int| #[trigger] is_first(s, i) ==> c.first == Some(own_span(s[i]))
    &&& forall|i: int| #[trigger] is_last(s, i) ==> c.last == Some(own_span(s[i]))
}

proof fn lemma_observed(c: ContainerSpan, s: Seq<tree::Node>, n: tree::Node)
    requires
        bounds(c, s),
        !is_unbounded(s) ==> (exists|i: int| is_first(s, i)) && (exists|i: int| is_last(s, i)),
    ensures
        bounds(tree_builder::observed_node(c, n), s.push(n)),
        !is_unbounded(s.push(n)) ==> (exists|i: int| is_first(s.push(n), i)) && (exists|i: int|
            is_last(s.push(n), i)),
{
    let t = s.push(n);
    let d = tree_builder::observed_node(c, n);
    let last = s.len() as int;
    assert(t[last] == n);
    assert forall|j: int| 0 <= j < s.len() implies #[trigger] t[j] == s[j] by {}
    assert forall|i: int| #[trigger] is_first(t, i) implies d.first == Some(own_span(t[i])) by {
        if i < last {
            assert forall|j: int| 0 <= j < i implies !is_positioned(#[trigger] s[j]) by {
                assert(t[j] == s[j]);
            }
            assert(is_first(s, i));
        } else {
            assert forall|j: int| 0 <= j < s.len() implies !is_positioned(#[trigger] s[j]) by {
                assert(t[j] == s[j]);
            }
        }
    }
    assert forall|i: int| #[trigger] is_last(t, i) implies d.last == Some(own_span(t[i])) by {
        if i < last {
            assert(!is_positioned(t[last]));
            assert forall|j: int| i < j < s.len() implies !is_positioned(#[trigger] s[j]) by {
                assert(t[j] == s[j]);
            }
            assert(is_last(s, i));
        }
    }
    if is_unbounded(t) {
        assert forall|j: int| 0 <= j < s.len() implies !is_positioned(#[trigger] s[j]) by {
            assert(t[j] == s[j]);
        }
        assert(!is_positioned(t[last]));
    } else if is_unbounded(s) {
        if !is_positioned(n) {
            assert(is_unbounded(t));
        }
        assert(is_first(t, last));
        assert(is_last(t, last));
    } else {
        let i = choose|i: int| is_first(s, i);
        assert(is_first(t, i));
        if is_positioned(n) {
            assert(is_last(t, last));
        } else {
            let k = choose|k: int| is_last(s, k);
            assert(is_last(t, k));
        }
    }
}

proof fn lemma_observed_all(c: ContainerSpan, s: Seq<tree::Node>, ns: Seq<tree::Node>)
    requires
        bounds(c, s),
        !is_unbounded(s) ==> (exists|i: int| is_first(s, i)) && (exists|i: int| is_last(s, i)),
    ensures
        bounds(tree_builder::observed_nodes(c, ns), s + ns),
        !is_unbounded(s + ns) ==> (exists|i: int| is_first(s + ns, i)) && (exists|i: int|
            is_last(s + ns, i)),
    decreases ns.len(),
{
    if ns.len() == 0 {
        assert(s + ns =~= s);
    } else {
        lemma_observed_all(c, s, ns.drop_last());
        lemma_observed(
            tree_builder::observed_nodes(c, ns.drop_last()),
            s + ns.drop_last(),
            ns.last(),
        );
        assert((s + ns.drop_last()).push(ns.last()) =~= s + ns);
    }
}

proof fn lemma_slots_span(slots: Seq<tree_builder::SlotModel>)
    ensures
        bounds(tree_builder::slots_span(slots), matched(slots)),
        !is_unbounded(matched(slots)) ==> (exists|i: int| is_first(matched(slots), i)) && (exists|
            i: int,
        |
            is_last(matched(slots), i)),
    decreases slots.len(),
{
    if slots.len() > 0 {
        let front = slots.drop_last();
        lemma_slots_span(front);
        let c = tree_builder::slots_span(front);
        match slots.last() {
            tree_builder::SlotModel::Value(n) => {
                lemma_observed(c, matched(front), n);
                assert(matched(front).push(n) =~= matched(front) + seq![n]);
            },
            tree_builder::SlotModel::Inline(ns) => {
                lemma_observed_all(c, matched(front), ns);
            },
        }
    }
}

/// Whether a span begins and ends as one that is wider, where that is known.
pub open spec fn covers(m: Meta, s: Seq<tree::Node>, children: Seq<tree::Node>) -> bool {
    &&& is_unbounded(s) ==> spans(m, children)
    &&& !is_unbounded(s) ==> !m.empty
    &&& forall|i: int| #[trigger]
        is_first(s, i) ==> m.line == own_span(s[i]).line && m.column == own_span(s[i]).column
            && m.start_pos == own_span(s[i]).start_pos
    &&& forall|i: int| #[trigger]
        is_last(s, i) ==> m.end_line == own_span(s[i]).end_line && m.end_column == own_span(
            s[i],
        ).end_column && m.end_pos == own_span(s[i]).end_pos
}

/// What a rule makes of its slots. The children stand in the order of the slots, with
/// a mark for each absent optional part and without the tokens that are filtered out.
/// A transparent rule hands them on; a rule that collapses hands on an only child,
/// unless it has an alias; and any other makes a node of its name, whose span goes
/// from the first of its children to the last, or, where positions are propagated,
/// from the first to the last of all that was matched.
pub proof fn rules_shape_what_they_match(
    rule: symbols::RuleModel,
    propagate: bool,
    slots: Seq<tree_builder::SlotModel>,
)
    requires
        slots.len() == rule.expansion.len(),
    ensures
        ({
            let all = laid_out(rule, slots, 0);
            let v = tree_builder::assembled(rule, propagate, slots);
            if rule.transparent {
                v == tree_builder::SlotModel::Inline(all)
            } else if all.len() == 1 && rule.expand1 && rule.alias is None {
                v == if all[0] is Absent {
                    tree_builder::SlotModel::Inline(seq![tree::Node::Absent])
                } else {
                    tree_builder::SlotModel::Value(all[0])
                }
            } else {
                v matches tree_builder::SlotModel::Value(
                    tree::Node::Tree { data, children, meta },
                ) && data == rule.tree_name && children == all && if propagate {
                    covers(meta, matched(slots), all)
                } else {
                    spans(meta, all)
                }
            }
        }),
{
    let all = laid_out(rule, slots, 0);
    lemma_all_laid_out(rule, slots);
    if all.len() == 1 && all[0] is Absent {
        assert(all =~= seq![tree::Node::Absent]);
    }
    nodes_span_their_children(all);
    lemma_slots_span(slots);
    let m = tree_builder::children_meta(all);
    let c = tree_builder::slots_span(slots);
    let s = matched(slots);
    let wide = tree_builder::widened(c, m);
    if !is_unbounded(s) {
        let i = choose|i: int| is_first(s, i);
        let k = choose|k: int| is_last(s, k);
        assert(c.first == Some(own_span(s[i])));
        assert(c.last == Some(own_span(s[k])));
    } else {
        assert(wide == m);
    }
    assert(covers(wide, s, all));
}

} // verus!
