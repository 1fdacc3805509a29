//! What a written tree stands for: the pieces of a node are the texts of the
//! tokens of a derivation whose shaped value is that node.

use vstd::prelude::*;
use crate::recons_best;
use crate::recons_laws;
use crate::recons_match;
use crate::recons_rules;
use crate::recons_rules::{Rule, RuleSet, Symbol};
use crate::reconstruct;
use crate::text;
use crate::tree;

verus! {

// ---------------------------------------------------------------------------
// Derivations and what they are shaped to

/// A derivation in a grammar as written: a token of a terminal, or an
/// application of a rule to what derives its symbols.
pub ghost enum Parse {
    Leaf { name: Seq<char>, text: Seq<char> },
    Apply { rule: int, kids: Seq<Parse> },
}

/// A tree without the places of its nodes and tokens in a text.
pub ghost enum Bare {
    Leaf { name: Seq<char>, text: Seq<char> },
    Branch { data: Seq<char>, children: Seq<Bare> },
    Absent,
}

/// A node without places.
pub open spec fn bare(n: tree::Node) -> Bare
    decreases n,
{
    match n {
        tree::Node::Token(t) => Bare::Leaf { name: t.type_, text: t.value },
        tree::Node::Absent => Bare::Absent,
        tree::Node::Tree { data, children, .. } => Bare::Branch {
            data,
            children: Seq::new(
                children.len(),
                |i: int|
                    if 0 <= i < children.len() {
                        bare(children[i])
                    } else {
                        Bare::Absent
                    },
            ),
        },
    }
}

/// The children from `from` to `to` without places.
pub open spec fn bares(children: Seq<tree::Node>, from: int, to: int) -> Seq<Bare> {
    Seq::new((to - from) as nat, |i: int| bare(children[from + i]))
}

/// The texts of the tokens of a derivation, in order.
pub open spec fn leaf_texts(p: Parse) -> Seq<Seq<char>>
    decreases p, 0nat,
{
    match p {
        Parse::Leaf { text, .. } => seq![text],
        Parse::Apply { kids, .. } => kids_texts(kids, kids.len()),
    }
}

/// The texts of the tokens of the first `k` derivations, in order.
pub open spec fn kids_texts(kids: Seq<Parse>, k: nat) -> Seq<Seq<char>>
    decreases kids, k,
{
    if k == 0 || k > kids.len() {
        Seq::empty()
    } else {
        kids_texts(kids, (k - 1) as nat) + leaf_texts(kids[k - 1])
    }
}

/// Whether a derivation is one of a symbol.
pub open spec fn is_parse(g: RuleSet, s: Symbol, p: Parse) -> bool
    decreases p,
{
    match (s, p) {
        (Symbol::Terminal { name, .. }, Parse::Leaf { name: n, .. }) => name@ == n,
        (Symbol::NonTerminal { name }, Parse::Apply { rule, kids }) => {
            &&& 0 <= rule < g.rules@.len()
            &&& g.rules@[rule].origin@ == name@
            &&& kids.len() == g.rules@[rule].expansion@.len()
            &&& forall|k: int|
                0 <= k < kids.len() ==> is_parse(
                    g,
                    g.rules@[rule].expansion@[k],
                    #[trigger] kids[k],
                )
        },
        _ => false,
    }
}

/// Whether an application of a rule that gives `n` children leaves no node: its
/// children are spliced, or the only one stands for it.
pub open spec fn leaves_nothing(r: Rule, n: nat) -> bool {
    recons_rules::is_hidden(r.origin@) || r.options.expand1 && r.alias is None && n == 1
}

/// What a derivation is shaped to: one node, or the spliced children of a
/// transparent rule. (A grammar with placeholders has no reconstructor, so no
/// absent optional stands among the children.)
pub open spec fn value(g: RuleSet, p: Parse) -> Seq<Bare>
    decreases p, 0nat,
{
    match p {
        Parse::Leaf { name, text } => seq![Bare::Leaf { name, text }],
        Parse::Apply { rule, kids } => {
            let r = g.rules@[rule];
            let children = kids_value(g, r, kids, kids.len());
            if leaves_nothing(r, children.len()) {
                children
            } else {
                seq![
                    Bare::Branch {
                        data: recons_rules::base_of(recons_rules::label_of(r)),
                        children,
                    },
                ]
            }
        },
    }
}

/// The children that the first `k` symbols of a rule give.
pub open spec fn kids_value(g: RuleSet, r: Rule, kids: Seq<Parse>, k: nat) -> Seq<Bare>
    decreases kids, k,
{
    if k == 0 || k > kids.len() {
        Seq::empty()
    } else {
        let before = kids_value(g, r, kids, (k - 1) as nat);
        if recons_rules::is_discarded(r, r.expansion@[k - 1]) {
            before
        } else {
            before + value(g, kids[k - 1])
        }
    }
}

/// Whether a derivation, of the origin of a rule of the grammar, is shaped to a
/// node and has these texts.
pub open spec fn derives_node(
    g: RuleSet,
    p: Parse,
    node: tree::Node,
    pieces: Seq<Seq<char>>,
) -> bool {
    &&& p is Apply
    &&& 0 <= p->rule < g.rules@.len()
    &&& is_parse(g, Symbol::NonTerminal { name: g.rules@[p->rule].origin }, p)
    &&& node is Tree
    &&& recons_rules::base_of(recons_rules::label_of(g.rules@[p->rule])) == node->data
    &&& value(g, p) == seq![bare(node)]
    &&& leaf_texts(p) == pieces
}

// ---------------------------------------------------------------------------
// Where the rules of a reconstructor come from

/// Whether a turned rule is rule `i` of the grammar, turned around.
pub open spec fn stands_for(g: RuleSet, q: recons_rules::ReconsRuleModel, i: int) -> bool {
    0 <= i < g.rules@.len() && recons_rules::turned_rule(g, g.rules@[i]) == q
}

/// Whether a turned rule meets, where the origin of rule `i` is referred to, a
/// node of the label of that rule or of its origin.
pub open spec fn bridges(g: RuleSet, q: recons_rules::ReconsRuleModel, i: int) -> bool {
    &&& 0 <= i < g.rules@.len()
    &&& recons_rules::is_expand1(g, g.rules@[i].origin@) || recons_rules::is_aliased(
        g,
        g.rules@[i].origin@,
    )
    &&& q == recons_rules::bridge_of(
        g.rules@[i].origin@,
        recons_rules::label_of(g.rules@[i]),
    ) || q == recons_rules::bridge_of(g.rules@[i].origin@, g.rules@[i].origin@)
}

/// Whether a turned rule comes from a rule of the grammar.
pub open spec fn comes_from(g: RuleSet, q: recons_rules::ReconsRuleModel) -> bool {
    (exists|i: int| stands_for(g, q, i)) || (exists|i: int| bridges(g, q, i))
}

/// Whether all turned rules come from rules of the grammar.
pub open spec fn all_come_from(g: RuleSet, s: Seq<recons_rules::ReconsRuleModel>) -> bool {
    forall|i: int| 0 <= i < s.len() ==> comes_from(g, #[trigger] s[i])
}

proof fn lemma_from_push(
    g: RuleSet,
    s: Seq<recons_rules::ReconsRuleModel>,
    r: recons_rules::ReconsRuleModel,
)
    requires
        all_come_from(g, s),
        comes_from(g, r),
    ensures
        all_come_from(g, s.push(r)),
{
    assert forall|i: int| 0 <= i < s.push(r).len() implies comes_from(
        g,
        #[trigger] s.push(r)[i],
    ) by {
        if i < s.len() {
            assert(comes_from(g, s[i]));
        }
    }
}

proof fn lemma_from_join(
    g: RuleSet,
    a: Seq<recons_rules::ReconsRuleModel>,
    b: Seq<recons_rules::ReconsRuleModel>,
)
    requires
        all_come_from(g, a),
        all_come_from(g, b),
    ensures
        all_come_from(g, a + b),
{
    assert forall|i: int| 0 <= i < (a + b).len() implies comes_from(g, #[trigger] (a + b)[i]) by {
        if i < a.len() {
            assert(comes_from(g, a[i]));
        } else {
            assert(comes_from(g, b[i - a.len()]));
        }
    }
}

proof fn lemma_turned_from(g: RuleSet, i: int)
    requires
        0 <= i < g.rules@.len(),
    ensures
        comes_from(g, recons_rules::turned_rule(g, g.rules@[i])),
{
    assert(stands_for(g, recons_rules::turned_rule(g, g.rules@[i]), i));
}

/// A collapsing or aliased origin is bridged to itself.
proof fn lemma_bridge_from(g: RuleSet, name: Seq<char>)
    requires
        recons_rules::is_expand1(g, name) || recons_rules::is_aliased(g, name),
    ensures
        comes_from(g, recons_rules::bridge_of(name, name)),
{
    if recons_rules::is_expand1(g, name) {
        let i = choose|i: int|
            0 <= i < g.rules@.len() && (#[trigger] g.rules@[i]).options.expand1
                && g.rules@[i].origin@ == name;
        assert(bridges(g, recons_rules::bridge_of(name, name), i));
    } else {
        let i = choose|i: int|
            0 <= i < g.rules@.len() && (#[trigger] g.rules@[i]).alias is Some
                && g.rules@[i].origin@ == name;
        assert(bridges(g, recons_rules::bridge_of(name, name), i));
    }
}

proof fn lemma_anywhere_from(g: RuleSet, k: nat)
    requires
        k <= g.rules@.len(),
    ensures
        all_come_from(g, recons_rules::anywhere_rules(g, k)),
    decreases k,
{
    if k > 0 {
        lemma_anywhere_from(g, (k - 1) as nat);
        let before = recons_rules::anywhere_rules(g, (k - 1) as nat);
        let r = g.rules@[k - 1];
        lemma_turned_from(g, k - 1);
        lemma_from_push(g, before, recons_rules::turned_rule(g, r));
        let label = recons_rules::label_of(r);
        if recons_rules::scope_of(g, r) is Uncollapsed {
            lemma_bridge_from(g, label);
            lemma_from_push(g, before, recons_rules::bridge_of(label, label));
        }
    }
}

proof fn lemma_node_from(g: RuleSet, key: Seq<char>, k: nat)
    requires
        k <= g.rules@.len(),
    ensures
        all_come_from(g, recons_rules::node_rules(g, key, k)),
    decreases k,
{
    if k > 0 {
        lemma_node_from(g, key, (k - 1) as nat);
        lemma_turned_from(g, k - 1);
        lemma_from_push(
            g,
            recons_rules::node_rules(g, key, (k - 1) as nat),
            recons_rules::turned_rule(g, g.rules@[k - 1]),
        );
    }
}

/// Whether every name is that of a collapsing or aliased origin.
spec fn all_bridged(g: RuleSet, names: Seq<Seq<char>>) -> bool {
    forall|i: int|
        0 <= i < names.len() ==> recons_rules::is_expand1(g, #[trigger] names[i])
            || recons_rules::is_aliased(g, names[i])
}

proof fn lemma_late_from(g: RuleSet, names: Seq<Seq<char>>, k: nat)
    requires
        all_bridged(g, names),
        k <= names.len(),
    ensures
        all_come_from(g, recons_rules::late_bridges(g, names, k)),
    decreases k,
{
    if k > 0 {
        lemma_late_from(g, names, (k - 1) as nat);
        lemma_bridge_from(g, names[k - 1]);
        lemma_from_push(
            g,
            recons_rules::late_bridges(g, names, (k - 1) as nat),
            recons_rules::bridge_of(names[k - 1], names[k - 1]),
        );
    }
}

proof fn lemma_aliases_of(g: RuleSet, origin: Seq<char>, k: nat)
    requires
        k <= g.rules@.len(),
    ensures
        forall|j: int|
            0 <= j < recons_rules::aliases_of(g, origin, k).len() ==> comes_from(
                g,
                recons_rules::bridge_of(
                    origin,
                    #[trigger] recons_rules::aliases_of(g, origin, k)[j],
                ),
            ),
    decreases k,
{
    if k > 0 {
        lemma_aliases_of(g, origin, (k - 1) as nat);
        let before = recons_rules::aliases_of(g, origin, (k - 1) as nat);
        let r = g.rules@[k - 1];
        let now = recons_rules::aliases_of(g, origin, k);
        assert forall|j: int| 0 <= j < now.len() implies comes_from(
            g,
            recons_rules::bridge_of(origin, #[trigger] now[j]),
        ) by {
            if j < before.len() {
                assert(now[j] == before[j]);
            } else {
                assert(bridges(g, recons_rules::bridge_of(origin, now[j]), k - 1));
            }
        }
    }
}

proof fn lemma_alias_from(g: RuleSet, names: Seq<Seq<char>>, k: nat)
    requires
        all_bridged(g, names),
        k <= names.len(),
    ensures
        all_come_from(g, recons_rules::all_alias_bridges(g, names, k)),
    decreases k,
{
    if k > 0 {
        lemma_alias_from(g, names, (k - 1) as nat);
        let one = recons_rules::alias_bridges(g, names[k - 1]);
        let to = recons_rules::aliases_of(g, names[k - 1], g.rules@.len());
        lemma_aliases_of(g, names[k - 1], g.rules@.len());
        lemma_bridge_from(g, names[k - 1]);
        assert forall|i: int| 0 <= i < one.len() implies comes_from(g, #[trigger] one[i]) by {
            if i < to.len() {
                assert(one[i] == recons_rules::bridge_of(names[k - 1], to[i]));
            }
        }
        lemma_from_join(g, recons_rules::all_alias_bridges(g, names, (k - 1) as nat), one);
    }
}

proof fn lemma_expand1_names(g: RuleSet, k: nat)
    requires
        k <= g.rules@.len(),
    ensures
        all_bridged(g, recons_rules::expand1_names(g, k)),
    decreases k,
{
    if k > 0 {
        lemma_expand1_names(g, (k - 1) as nat);
        let before = recons_rules::expand1_names(g, (k - 1) as nat);
        let now = recons_rules::expand1_names(g, k);
        let r = g.rules@[k - 1];
        assert forall|i: int| 0 <= i < now.len() implies recons_rules::is_expand1(
            g,
            #[trigger] now[i],
        ) || recons_rules::is_aliased(g, now[i]) by {
            if i < before.len() {
                assert(now[i] == before[i]);
            } else {
                assert(now[i] == r.origin@);
            }
        }
    }
}

proof fn lemma_aliased_names(g: RuleSet, k: nat)
    requires
        k <= g.rules@.len(),
    ensures
        all_bridged(g, recons_rules::aliased_names(g, k)),
    decreases k,
{
    if k > 0 {
        lemma_aliased_names(g, (k - 1) as nat);
        let before = recons_rules::aliased_names(g, (k - 1) as nat);
        let now = recons_rules::aliased_names(g, k);
        let r = g.rules@[k - 1];
        assert forall|i: int| 0 <= i < now.len() implies recons_rules::is_expand1(
            g,
            #[trigger] now[i],
        ) || recons_rules::is_aliased(g, now[i]) by {
            if i < before.len() {
                assert(now[i] == before[i]);
            } else {
                assert(now[i] == r.origin@);
            }
        }
    }
}

proof fn lemma_inserted_bridged(g: RuleSet, s: Seq<Seq<char>>, x: Seq<char>)
    requires
        all_bridged(g, s),
        all_bridged(g, seq![x]),
    ensures
        all_bridged(g, text::insert_text(s, x)),
    decreases s.len(),
{
    assert(seq![x][0] == x);
    let now = text::insert_text(s, x);
    if s.len() > 0 {
        assert forall|i: int| 0 <= i < s.drop_last().len() implies recons_rules::is_expand1(
            g,
            #[trigger] s.drop_last()[i],
        ) || recons_rules::is_aliased(g, s.drop_last()[i]) by {
            assert(s.drop_last()[i] == s[i]);
        }
        lemma_inserted_bridged(g, s.drop_last(), x);
        let below = text::insert_text(s.drop_last(), x);
        assert forall|i: int| 0 <= i < now.len() implies recons_rules::is_expand1(
            g,
            #[trigger] now[i],
        ) || recons_rules::is_aliased(g, now[i]) by {
            if now == s.push(x) {
                if i < s.len() {
                    assert(now[i] == s[i]);
                }
            } else if i < below.len() {
                assert(now[i] == below[i]);
            } else {
                assert(now[i] == s[s.len() - 1]);
            }
        }
    }
}

proof fn lemma_sorted_bridged(g: RuleSet, s: Seq<Seq<char>>)
    requires
        all_bridged(g, s),
    ensures
        all_bridged(g, text::sorted_texts(s)),
    decreases s.len(),
{
    if s.len() > 0 {
        assert forall|i: int| 0 <= i < s.drop_last().len() implies recons_rules::is_expand1(
            g,
            #[trigger] s.drop_last()[i],
        ) || recons_rules::is_aliased(g, s.drop_last()[i]) by {
            assert(s.drop_last()[i] == s[i]);
        }
        lemma_sorted_bridged(g, s.drop_last());
        assert(s[s.len() - 1] == s.last());
        lemma_inserted_bridged(g, text::sorted_texts(s.drop_last()), s.last());
    }
}

proof fn lemma_merged_from(
    g: RuleSet,
    texts: Seq<(Seq<char>, Option<Seq<char>>)>,
    s: Seq<recons_rules::ReconsRuleModel>,
    k: nat,
)
    requires
        k <= s.len(),
        all_come_from(g, s),
    ensures
        all_come_from(g, recons_best::merged(texts, s, k)),
    decreases k,
{
    if k > 0 {
        lemma_merged_from(g, texts, s, (k - 1) as nat);
        let before = recons_best::merged(texts, s, (k - 1) as nat);
        let r = s[k - 1];
        assert(comes_from(g, r));
        lemma_from_push(g, before, r);
        let at = recons_best::shape_at(before, r, 0);
        if at < before.len() {
            assert forall|i: int| 0 <= i < before.len() implies comes_from(
                g,
                #[trigger] before.update(at as int, r)[i],
            ) by {
                assert(comes_from(g, before[i]));
            }
        }
    }
}

proof fn lemma_put_from(
    g: RuleSet,
    s: Seq<recons_rules::ReconsRuleModel>,
    r: recons_rules::ReconsRuleModel,
)
    requires
        all_come_from(g, s),
        comes_from(g, r),
    ensures
        all_come_from(g, recons_best::put_by_length(s, r)),
    decreases s.len(),
{
    if s.len() == 0 || s.last().expansion.len() <= r.expansion.len() {
        lemma_from_push(g, s, r);
    } else {
        assert forall|i: int| 0 <= i < s.drop_last().len() implies comes_from(
            g,
            #[trigger] s.drop_last()[i],
        ) by {
            assert(comes_from(g, s[i]));
        }
        lemma_put_from(g, s.drop_last(), r);
        assert(comes_from(g, s[s.len() - 1]));
        lemma_from_push(g, recons_best::put_by_length(s.drop_last(), r), s.last());
    }
}

proof fn lemma_by_length_from(g: RuleSet, s: Seq<recons_rules::ReconsRuleModel>)
    requires
        all_come_from(g, s),
    ensures
        all_come_from(g, recons_best::by_length(s)),
    decreases s.len(),
{
    if s.len() > 0 {
        assert forall|i: int| 0 <= i < s.drop_last().len() implies comes_from(
            g,
            #[trigger] s.drop_last()[i],
        ) by {
            assert(comes_from(g, s[i]));
        }
        lemma_by_length_from(g, s.drop_last());
        assert(comes_from(g, s[s.len() - 1]));
        lemma_put_from(g, recons_best::by_length(s.drop_last()), s.last());
    }
}

/// Every rule that a reconstructor goes by comes from a rule of its grammar: it
/// is that rule turned around, or meets a node of that rule where the origin is
/// referred to.
pub proof fn rules_come_from_the_grammar(
    g: RuleSet,
    subs: Seq<(Seq<char>, Seq<char>)>,
    key: Seq<char>,
)
    ensures
        all_come_from(g, reconstruct::recons_model(g, subs).global),
        all_come_from(g, (reconstruct::recons_model(g, subs).rooted)(key)),
{
    let texts = recons_best::texts_of(g, subs);
    let n = g.rules@.len();
    let collapsing = text::sorted_texts(recons_rules::expand1_names(g, n));
    let aliased = text::sorted_texts(recons_rules::aliased_names(g, n));
    lemma_expand1_names(g, n);
    lemma_aliased_names(g, n);
    lemma_sorted_bridged(g, recons_rules::expand1_names(g, n));
    lemma_sorted_bridged(g, recons_rules::aliased_names(g, n));
    lemma_anywhere_from(g, n);
    lemma_late_from(g, collapsing, collapsing.len());
    lemma_alias_from(g, aliased, aliased.len());
    let first = recons_rules::anywhere_rules(g, n);
    let second = recons_rules::late_bridges(g, collapsing, collapsing.len());
    lemma_from_join(g, first, second);
    lemma_from_join(
        g,
        first + second,
        recons_rules::all_alias_bridges(g, aliased, aliased.len()),
    );
    let global = recons_rules::global_rules(g);
    lemma_merged_from(g, texts, global, global.len());
    lemma_by_length_from(g, recons_best::merged(texts, global, global.len()));
    let s = recons_rules::node_rules(g, key, n);
    lemma_node_from(g, key, n);
    lemma_merged_from(g, texts, s, s.len());
    lemma_by_length_from(g, recons_best::merged(texts, s, s.len()));
}

// ---------------------------------------------------------------------------
// Names

/// Whether a symbol of a rule is the nonterminal of that name.
pub open spec fn mentions(r: Rule, name: Seq<char>) -> bool {
    exists|k: int|
        0 <= k < r.expansion@.len() && (#[trigger] r.expansion@[k]) is NonTerminal
            && recons_rules::symbol_name(r.expansion@[k]) == name
}

/// Whether a name is that of a nonterminal of the grammar, or of its nodes.
pub open spec fn is_nonterminal(g: RuleSet, name: Seq<char>) -> bool {
    exists|i: int|
        0 <= i < g.rules@.len() && ((#[trigger] g.rules@[i]).origin@ == name
            || recons_rules::label_of(g.rules@[i]) == name || mentions(g.rules@[i], name))
}

/// Whether the label of a node tells the nonterminal that it was derived from:
/// no label is shared by the rules of two origins, and none is the name of
/// another symbol.
pub open spec fn names_apart(g: RuleSet) -> bool {
    &&& forall|i: int, j: int|
        #![trigger g.rules@[i], g.rules@[j]]
        0 <= i < g.rules@.len() && 0 <= j < g.rules@.len() && (recons_rules::base_of(
            recons_rules::label_of(g.rules@[i]),
        ) == recons_rules::base_of(recons_rules::label_of(g.rules@[j])) || recons_rules::base_of(
            recons_rules::label_of(g.rules@[i]),
        ) == recons_rules::base_of(g.rules@[j].origin@)) ==> g.rules@[i].origin@
            == g.rules@[j].origin@
    &&& forall|i: int, j: int, k: int|
        #![trigger g.rules@[i], g.rules@[j].expansion@[k]]
        0 <= i < g.rules@.len() && 0 <= j < g.rules@.len() && 0 <= k
            < g.rules@[j].expansion@.len() && recons_rules::base_of(
            recons_rules::label_of(g.rules@[i]),
        ) == recons_rules::base_of(recons_rules::symbol_name(g.rules@[j].expansion@[k]))
            ==> g.rules@[j].expansion@[k] is NonTerminal && recons_rules::symbol_name(
            g.rules@[j].expansion@[k],
        ) == g.rules@[i].origin@
}

/// Whether the labels of a tree are names without template arguments, and the
/// types of its tokens are not names of nonterminals.
pub open spec fn well_named(g: RuleSet, node: tree::Node) -> bool
    decreases node,
{
    match node {
        tree::Node::Token(t) => !is_nonterminal(g, t.type_),
        tree::Node::Absent => true,
        tree::Node::Tree { data, children, .. } => {
            &&& recons_rules::base_of(data) == data
            &&& forall|i: int| 0 <= i < children.len() ==> well_named(g, #[trigger] children[i])
        },
    }
}

// ---------------------------------------------------------------------------
// Matches

/// Whether a machine can match the children of a node.
pub open spec fn can_match(
    m: reconstruct::ReconsModel,
    data: Seq<char>,
    children: Seq<tree::Node>,
) -> bool {
    exists|sets: Seq<Seq<recons_match::Item>>|
        #[trigger] recons_match::is_chart(reconstruct::node_context(m, data, children), sets)
            && recons_laws::within_limits(reconstruct::node_context(m, data, children), sets)
}

/// Whether a machine can match every node of a tree.
pub open spec fn is_matchable(m: reconstruct::ReconsModel, node: tree::Node) -> bool
    decreases node,
{
    match node {
        tree::Node::Tree { data, children, .. } => {
            &&& can_match(m, data, children)
            &&& forall|i: int|
                0 <= i < children.len() ==> is_matchable(m, #[trigger] children[i])
        },
        _ => true,
    }
}

/// Whether the rule of the grammar that a turned rule stands for, if any,
/// leaves no node where it takes `n` children.
pub open spec fn is_spliced(g: RuleSet, q: recons_rules::ReconsRuleModel, n: nat) -> bool {
    forall|i: int| #[trigger] stands_for(g, q, i) ==> leaves_nothing(g.rules@[i], n)
}

/// Whether a turned rule stands for a rule of the grammar that leaves a node
/// where it takes `n` children.
pub open spec fn is_noded(g: RuleSet, q: recons_rules::ReconsRuleModel, n: nat) -> bool {
    exists|i: int| #[trigger] stands_for(g, q, i) && !leaves_nothing(g.rules@[i], n)
}

/// Whether the rule applications below the root of a match leave no node.
pub open spec fn is_plain(
    g: RuleSet,
    rules: Seq<recons_rules::ReconsRuleModel>,
    elems: Seq<recons_match::ElemModel>,
) -> bool
    decreases elems,
{
    forall|e: int|
        0 <= e < elems.len() ==> match #[trigger] elems[e] {
            recons_match::ElemModel::Child(_) => true,
            recons_match::ElemModel::Sub(d) => {
                &&& is_spliced(g, rules[d.rule as int], recons_laws::width(d.elems))
                &&& is_plain(g, rules, d.elems)
            },
        }
}

/// Whether every node of a tree is matched as what its rules leave: the rule at
/// the root of a match leaves a node there, those below it leave none.
pub open spec fn is_faithful(g: RuleSet, m: reconstruct::ReconsModel, node: tree::Node) -> bool
    decreases node,
{
    match node {
        tree::Node::Tree { data, children, .. } => {
            &&& reconstruct::node_match(m, data, children) matches Some(d) ==> {
                let rules = reconstruct::node_context(m, data, children).rules;
                is_noded(g, rules[d.rule as int], children.len()) && is_plain(g, rules, d.elems)
            }
            &&& forall|i: int|
                0 <= i < children.len() ==> is_faithful(g, m, #[trigger] children[i])
        },
        _ => true,
    }
}

// ---------------------------------------------------------------------------
// What is written is derived

proof fn lemma_kids_push(g: RuleSet, r: Rule, kids: Seq<Parse>, p: Parse, k: nat)
    requires
        k <= kids.len(),
    ensures
        kids_texts(kids.push(p), k) == kids_texts(kids, k),
        kids_value(g, r, kids.push(p), k) == kids_value(g, r, kids, k),
    decreases k,
{
    if k > 0 {
        lemma_kids_push(g, r, kids, p, (k - 1) as nat);
        assert(kids.push(p)[k - 1] == kids[k - 1]);
    }
}

/// Each matched symbol is matched by what it stands for.
proof fn lemma_spans_sym(
    ctx: recons_match::MatchContext,
    syms: Seq<recons_rules::RSymModel>,
    elems: Seq<recons_match::ElemModel>,
    from: int,
    to: int,
    e: int,
)
    requires
        recons_laws::spans(ctx, syms, elems, from, to),
        0 <= e < elems.len(),
    ensures
        syms.len() == elems.len(),
        match elems[e] {
            recons_match::ElemModel::Child(c) => c < ctx.children.len() && (
            syms[e] matches recons_rules::RSymModel::Term(t) && recons_match::fits(
                ctx.children[c as int],
                t,
            )),
            recons_match::ElemModel::Sub(d) => d.rule < ctx.rules.len() && syms[e]
                == recons_rules::RSymModel::NonTerm(ctx.rules[d.rule as int].origin),
        },
    decreases elems.len(),
{
    if e < elems.len() - 1 {
        let mid = match elems.last() {
            recons_match::ElemModel::Child(c) => c as int,
            recons_match::ElemModel::Sub(d) => to - recons_laws::width(d.elems),
        };
        lemma_spans_sym(ctx, syms.drop_last(), elems.drop_last(), from, mid, e);
    }
}

proof fn lemma_matched_prefix(g: RuleSet, r: Rule, k: nat, l: nat)
    requires
        k <= l,
    ensures
        recons_rules::matched_part(g, r, k).len() <= recons_rules::matched_part(g, r, l).len(),
        recons_rules::matched_part(g, r, k) == recons_rules::matched_part(g, r, l).take(
            recons_rules::matched_part(g, r, k).len() as int,
        ),
    decreases l - k,
{
    if k < l {
        lemma_matched_prefix(g, r, k + 1, l);
        let a = recons_rules::matched_part(g, r, k);
        let b = recons_rules::matched_part(g, r, k + 1);
        let c = recons_rules::matched_part(g, r, l);
        assert(a =~= b.take(a.len() as int));
        assert(c.take(b.len() as int).take(a.len() as int) =~= c.take(a.len() as int));
    } else {
        let c = recons_rules::matched_part(g, r, l);
        assert(c.take(c.len() as int) =~= c);
    }
}

/// A kept symbol is matched as the next symbol of the turned rule.
proof fn lemma_matched_at(g: RuleSet, r: Rule, k: nat)
    requires
        k < r.expansion@.len(),
        !recons_rules::is_discarded(r, r.expansion@[k as int]),
    ensures
        ({
            let e = recons_rules::matched_part(g, r, k).len();
            let all = recons_rules::matched_part(g, r, r.expansion@.len());
            e < all.len() && all[e as int] == recons_rules::turned(g, r.expansion@[k as int])
        }),
{
    let e = recons_rules::matched_part(g, r, k).len();
    let all = recons_rules::matched_part(g, r, r.expansion@.len());
    let next = recons_rules::matched_part(g, r, k + 1);
    assert(next == recons_rules::matched_part(g, r, k).push(
        recons_rules::turned(g, r.expansion@[k as int]),
    ));
    lemma_matched_prefix(g, r, k + 1, r.expansion@.len());
    assert(all.take(next.len() as int)[e as int] == all[e as int]);
}

proof fn lemma_bares_join(children: Seq<tree::Node>, from: int, mid: int, to: int)
    requires
        from <= mid <= to,
    ensures
        bares(children, from, mid) + bares(children, mid, to) == bares(children, from, to),
{
    assert(bares(children, from, mid) + bares(children, mid, to) =~= bares(children, from, to));
}

/// What holds of the children of a node that is written.
spec fn kids_ok(g: RuleSet, m: reconstruct::ReconsModel, children: Seq<tree::Node>) -> bool {
    forall|i: int|
        0 <= i < children.len() ==> well_named(g, #[trigger] children[i]) && is_matchable(
            m,
            children[i],
        ) && is_faithful(g, m, children[i])
}

/// A written node is derived.
proof fn lemma_node(
    g: RuleSet,
    subs: Seq<(Seq<char>, Seq<char>)>,
    node: tree::Node,
) -> (p: Parse)
    requires
        names_apart(g),
        node is Tree,
        well_named(g, node),
        is_matchable(reconstruct::recons_model(g, subs), node),
        is_faithful(g, reconstruct::recons_model(g, subs), node),
        reconstruct::node_pieces(reconstruct::recons_model(g, subs), node) is Ok,
    ensures
        derives_node(
            g,
            p,
            node,
            reconstruct::node_pieces(reconstruct::recons_model(g, subs), node)->Ok_0,
        ),
    decreases node, reconstruct::no_deriv(), 0nat, 0nat,
{
    let m = reconstruct::recons_model(g, subs);
    let data = node->data;
    let children = node->children;
    let ctx = reconstruct::node_context(m, data, children);
    let d = reconstruct::node_match(m, data, children)->Some_0;
    let q = ctx.rules[d.rule as int];
    let sets = choose|sets: Seq<Seq<recons_match::Item>>|
        #[trigger] recons_match::is_chart(ctx, sets) && recons_laws::within_limits(ctx, sets);
    recons_laws::match_is_exact(ctx, sets);
    let i = choose|i: int|
        #[trigger] stands_for(g, q, i) && !leaves_nothing(g.rules@[i], children.len());
    let r = g.rules@[i];
    let n = r.expansion@.len();
    let kids = lemma_steps(g, subs, data, children, d, i, 0, children.len() as int, n);
    reconstruct::lemma_turned_ok(g, r, n);
    recons_laws::lemma_spans_width(ctx, q.expansion, d.elems, 0, children.len() as int);
    if d.elems.len() > 0 {
        lemma_spans_sym(ctx, q.expansion, d.elems, 0, children.len() as int, 0);
    }
    assert(d.elems.take(d.elems.len() as int) =~= d.elems);
    let p = Parse::Apply { rule: i, kids };
    assert(bare(node)->children =~= bares(children, 0, children.len() as int));
    p
}

/// The steps of a rule application are derived from the rule's symbols.
#[verifier::rlimit(60)]
proof fn lemma_steps(
    g: RuleSet,
    subs: Seq<(Seq<char>, Seq<char>)>,
    data: Seq<char>,
    children: Seq<tree::Node>,
    d: recons_match::DerivModel,
    i: int,
    from: int,
    to: int,
    k: nat,
) -> (kids: Seq<Parse>)
    requires
        names_apart(g),
        kids_ok(g, reconstruct::recons_model(g, subs), children),
        ({
            let m = reconstruct::recons_model(g, subs);
            let ctx = reconstruct::node_context(m, data, children);
            &&& d.rule < ctx.rules.len()
            &&& stands_for(g, ctx.rules[d.rule as int], i)
            &&& recons_laws::spans(ctx, ctx.rules[d.rule as int].expansion, d.elems, from, to)
            &&& is_plain(g, ctx.rules, d.elems)
            &&& reconstruct::steps_pieces(m, ctx.rules, children, d, k) is Ok
        }),
        0 <= from,
        to <= children.len(),
        k <= g.rules@[i].expansion@.len(),
    ensures
        kids.len() == k,
        forall|j: int|
            0 <= j < k ==> is_parse(g, g.rules@[i].expansion@[j], #[trigger] kids[j]),
        ({
            let m = reconstruct::recons_model(g, subs);
            let rules = reconstruct::node_context(m, data, children).rules;
            kids_texts(kids, k) == reconstruct::steps_pieces(m, rules, children, d, k)->Ok_0
        }),
        kids_value(g, g.rules@[i], kids, k) == bares(
            children,
            from,
            from + recons_laws::width(
                d.elems.take(recons_rules::matched_part(g, g.rules@[i], k).len() as int),
            ),
        ),
    decreases children, d, k, 1nat,
{
    let m = reconstruct::recons_model(g, subs);
    let ctx = reconstruct::node_context(m, data, children);
    let rules = ctx.rules;
    let q = rules[d.rule as int];
    let r = g.rules@[i];
    if k == 0 {
        assert(d.elems.take(0) =~= Seq::empty());
        assert(bares(children, from, from) =~= Seq::empty());
        Seq::empty()
    } else {
        let before = lemma_steps(g, subs, data, children, d, i, from, to, (k - 1) as nat);
        let pieces = reconstruct::steps_pieces(m, rules, children, d, (k - 1) as nat)->Ok_0;
        let s = r.expansion@[k - 1];
        let p = lemma_step(g, subs, data, children, d, i, from, to, k);
        let kids = before.push(p);
        lemma_kids_push(g, r, before, p, (k - 1) as nat);
        let e = recons_rules::matched_part(g, r, (k - 1) as nat).len() as int;
        let pos = from + recons_laws::width(d.elems.take(e));
        if !recons_rules::is_discarded(r, s) {
            let next = from + recons_laws::width(d.elems.take(e + 1));
            lemma_bares_join(children, from, pos, next);
        }
        assert forall|j: int| 0 <= j < k implies is_parse(
            g,
            r.expansion@[j],
            #[trigger] kids[j],
        ) by {
            if j < k - 1 {
                assert(kids[j] == before[j]);
            }
        }
        kids
    }
}

/// One step of a rule application is derived from the rule's symbol there.
#[verifier::rlimit(60)]
proof fn lemma_step(
    g: RuleSet,
    subs: Seq<(Seq<char>, Seq<char>)>,
    data: Seq<char>,
    children: Seq<tree::Node>,
    d: recons_match::DerivModel,
    i: int,
    from: int,
    to: int,
    k: nat,
) -> (p: Parse)
    requires
        names_apart(g),
        kids_ok(g, reconstruct::recons_model(g, subs), children),
        ({
            let m = reconstruct::recons_model(g, subs);
            let ctx = reconstruct::node_context(m, data, children);
            &&& d.rule < ctx.rules.len()
            &&& stands_for(g, ctx.rules[d.rule as int], i)
            &&& recons_laws::spans(ctx, ctx.rules[d.rule as int].expansion, d.elems, from, to)
            &&& is_plain(g, ctx.rules, d.elems)
            &&& reconstruct::steps_pieces(m, ctx.rules, children, d, k) is Ok
        }),
        0 <= from,
        to <= children.len(),
        0 < k <= g.rules@[i].expansion@.len(),
    ensures
        is_parse(g, g.rules@[i].expansion@[k - 1], p),
        ({
            let m = reconstruct::recons_model(g, subs);
            let rules = reconstruct::node_context(m, data, children).rules;
            reconstruct::steps_pieces(m, rules, children, d, k)->Ok_0
                == reconstruct::steps_pieces(m, rules, children, d, (k - 1) as nat)->Ok_0
                + leaf_texts(p)
        }),
        !recons_rules::is_discarded(g.rules@[i], g.rules@[i].expansion@[k - 1]) ==> ({
            let e = recons_rules::matched_part(g, g.rules@[i], (k - 1) as nat).len() as int;
            let pos = from + recons_laws::width(d.elems.take(e));
            let next = from + recons_laws::width(d.elems.take(e + 1));
            pos <= next && value(g, p) == bares(children, pos, next)
        }),
    decreases children, d, k, 0nat,
{
    let m = reconstruct::recons_model(g, subs);
    let ctx = reconstruct::node_context(m, data, children);
    let rules = ctx.rules;
    let q = rules[d.rule as int];
    let r = g.rules@[i];
    let s = r.expansion@[k - 1];
    let before = reconstruct::steps_pieces(m, rules, children, d, (k - 1) as nat)->Ok_0;
    assert(q.steps[k - 1] == recons_rules::planned(r, r.expansion@.len())[k - 1]);
    if recons_rules::is_discarded(r, s) {
        let t = recons_best::written_as(m.texts, recons_rules::symbol_name(s))->Some_0;
        assert(before.push(t) =~= before + seq![t]);
        Parse::Leaf { name: recons_rules::symbol_name(s), text: t }
    } else {
        reconstruct::lemma_turned_ok(g, r, (k - 1) as nat);
        lemma_matched_at(g, r, (k - 1) as nat);
        let e = recons_rules::matched_part(g, r, (k - 1) as nat).len() as int;
        assert(e == reconstruct::consumed(q.steps, (k - 1) as nat));
        lemma_spans_sym(ctx, q.expansion, d.elems, from, to, e);
        recons_laws::lemma_spans_at(ctx, q.expansion, d.elems, from, to, e);
        let pos = from + recons_laws::width(d.elems.take(e));
        let next = from + recons_laws::width(d.elems.take(e + 1));
        match d.elems[e] {
            recons_match::ElemModel::Child(c) => {
                let child = children[c as int];
                assert(well_named(g, child));
                assert(bares(children, pos, next) =~= seq![bare(child)]);
                if child is Token {
                    let t = child->Token_0;
                    if s is NonTerminal {
                        assert(mentions(r, t.type_));
                        assert(is_nonterminal(g, t.type_));
                    }
                    Parse::Leaf { name: t.type_, text: t.value }
                } else {
                    let p = lemma_node(g, subs, child);
                    assert(g.rules@[p->rule].origin@ == recons_rules::symbol_name(
                        g.rules@[i].expansion@[k - 1],
                    ));
                    p
                }
            },
            recons_match::ElemModel::Sub(sub) => {
                lemma_sub(g, subs, data, children, sub, i, k - 1, pos, next)
            },
        }
    }
}

/// An application below the root of a match derives the symbol that refers to
/// it.
#[verifier::rlimit(60)]
proof fn lemma_sub(
    g: RuleSet,
    subs: Seq<(Seq<char>, Seq<char>)>,
    data: Seq<char>,
    children: Seq<tree::Node>,
    d: recons_match::DerivModel,
    j: int,
    k: int,
    from: int,
    to: int,
) -> (p: Parse)
    requires
        names_apart(g),
        kids_ok(g, reconstruct::recons_model(g, subs), children),
        0 <= j < g.rules@.len(),
        0 <= k < g.rules@[j].expansion@.len(),
        ({
            let m = reconstruct::recons_model(g, subs);
            let ctx = reconstruct::node_context(m, data, children);
            let q = ctx.rules[d.rule as int];
            &&& d.rule < ctx.rules.len()
            &&& recons_rules::turned(g, g.rules@[j].expansion@[k])
                == recons_rules::RSymModel::NonTerm(q.origin)
            &&& recons_laws::spans(ctx, q.expansion, d.elems, from, to)
            &&& is_spliced(g, q, recons_laws::width(d.elems))
            &&& is_plain(g, ctx.rules, d.elems)
            &&& reconstruct::steps_pieces(m, ctx.rules, children, d, q.steps.len()) is Ok
        }),
        0 <= from,
        to <= children.len(),
    ensures
        is_parse(g, g.rules@[j].expansion@[k], p),
        ({
            let m = reconstruct::recons_model(g, subs);
            let rules = reconstruct::node_context(m, data, children).rules;
            leaf_texts(p) == reconstruct::steps_pieces(
                m,
                rules,
                children,
                d,
                rules[d.rule as int].steps.len(),
            )->Ok_0
        }),
        value(g, p) == bares(children, from, to),
    decreases
            children,
            d,
            reconstruct::node_context(
                reconstruct::recons_model(g, subs),
                data,
                children,
            ).rules[d.rule as int].steps.len(),
            2nat,
{
    let m = reconstruct::recons_model(g, subs);
    let ctx = reconstruct::node_context(m, data, children);
    let rules = ctx.rules;
    let q = rules[d.rule as int];
    let s = g.rules@[j].expansion@[k];
    rules_come_from_the_grammar(g, subs, data);
    lemma_from_join(g, m.global, (m.rooted)(data));
    assert(comes_from(g, q));
    recons_laws::lemma_spans_width(ctx, q.expansion, d.elems, from, to);
    if exists|i: int| stands_for(g, q, i) {
        let i = choose|i: int| stands_for(g, q, i);
        let r = g.rules@[i];
        let n = r.expansion@.len();
        let kids = lemma_steps(g, subs, data, children, d, i, from, to, n);
        if d.elems.len() > 0 {
            lemma_spans_sym(ctx, q.expansion, d.elems, from, to, 0);
        }
        assert(d.elems.take(d.elems.len() as int) =~= d.elems);
        assert(recons_rules::label_of(r) == recons_rules::symbol_name(
            g.rules@[j].expansion@[k],
        ));
        assert(r.origin@ == recons_rules::symbol_name(s));
        assert(leaves_nothing(r, recons_laws::width(d.elems)));
        Parse::Apply { rule: i, kids }
    } else {
        let i = choose|i: int| bridges(g, q, i);
        let r = g.rules@[i];
        let target = if q == recons_rules::bridge_of(r.origin@, recons_rules::label_of(r)) {
            recons_rules::label_of(r)
        } else {
            r.origin@
        };
        assert(q.expansion.len() == 1 && q.expansion[0] == recons_rules::RSymModel::Term(target));
        assert(d.elems.len() == 1);
        lemma_spans_sym(ctx, q.expansion, d.elems, from, to, 0);
        recons_laws::lemma_spans_at(ctx, q.expansion, d.elems, from, to, 0);
        assert(d.elems.take(0) =~= Seq::empty());
        assert(d.elems.take(1) =~= d.elems);
        let child = children[from];
        assert(d.elems[0] == recons_match::ElemModel::Child(from as nat));
        assert(well_named(g, child));
        assert(q.steps.len() == 1 && q.steps[0] is Consume);
        assert(reconstruct::consumed(q.steps, 0) == 0);
        assert(reconstruct::steps_pieces(m, rules, children, d, 0) == Ok::<
            Seq<Seq<char>>,
            reconstruct::FaultModel,
        >(Seq::empty()));
        assert(reconstruct::node_pieces(m, child) is Ok);
        if child is Token {
            assert(is_nonterminal(g, target));
        }
        let p = lemma_node(g, subs, child);
        assert(g.rules@[p->rule].origin@ == g.rules@[i].origin@);
        let pieces = reconstruct::node_pieces(m, child)->Ok_0;
        assert(Seq::<Seq<char>>::empty() + pieces =~= pieces);
        assert(bares(children, from, to) =~= seq![bare(child)]);
        p
    }
}

/// What is written of a node is derived in the grammar: its pieces are the
/// texts of the tokens of a derivation, of a nonterminal with the node's label,
/// that is shaped to the node. Labels have to tell the nonterminals apart, and
/// the match that is found for each node has to be one that its rules leave.
pub proof fn written_nodes_are_derived(
    g: RuleSet,
    subs: Seq<(Seq<char>, Seq<char>)>,
    node: tree::Node,
)
    requires
        names_apart(g),
        node is Tree,
        well_named(g, node),
        is_matchable(reconstruct::recons_model(g, subs), node),
        is_faithful(g, reconstruct::recons_model(g, subs), node),
    ensures
        reconstruct::node_pieces(reconstruct::recons_model(g, subs), node) matches Ok(pieces)
            ==> exists|p: Parse| derives_node(g, p, node, pieces),
{
    let m = reconstruct::recons_model(g, subs);
    if let Ok(pieces) = reconstruct::node_pieces(m, node) {
        let p = lemma_node(g, subs, node);
        assert(derives_node(g, p, node, pieces));
    }
}

// ---------------------------------------------------------------------------
// Grammars whose matches are faithful

/// Whether a rule keeps one symbol, which gives one child.
pub open spec fn keeps_one(g: RuleSet, r: Rule) -> bool {
    let kept = recons_rules::matched_part(g, r, r.expansion@.len());
    kept.len() == 1 && !(kept[0] matches recons_rules::RSymModel::NonTerm(x)
        && recons_rules::is_hidden(x))
}

/// Whether an alias of a rule is not the name of a nonterminal, and the rules
/// of an origin that collapses nodes or has aliases, but for transparent ones
/// and those with an alias, collapse always.
pub open spec fn is_tidy_rule(g: RuleSet, r: Rule) -> bool {
    &&& r.alias is Some ==> forall|j: int|
        0 <= j < g.rules@.len() ==> recons_rules::base_of(recons_rules::label_of(r))
            != recons_rules::base_of((#[trigger] g.rules@[j]).origin@)
    &&& r.alias is None && !recons_rules::is_hidden(r.origin@) && (recons_rules::is_expand1(
        g,
        r.origin@,
    ) || recons_rules::is_aliased(g, r.origin@)) ==> r.options.expand1 && keeps_one(g, r)
}

/// Whether it does not depend on the text whether a rule leaves a node.
pub open spec fn is_tidy(g: RuleSet) -> bool {
    forall|i: int| 0 <= i < g.rules@.len() ==> is_tidy_rule(g, #[trigger] g.rules@[i])
}

/// Whether a rule leaves nodes of that label.
pub open spec fn is_label(g: RuleSet, data: Seq<char>) -> bool {
    exists|i: int|
        0 <= i < g.rules@.len() && recons_rules::base_of(
            recons_rules::label_of(#[trigger] g.rules@[i]),
        ) == data && !leaves_nothing(g.rules@[i], 1)
}

/// Whether the labels of a tree are labels of nodes that rules leave, and the
/// types of its tokens are not names of nonterminals.
pub open spec fn is_labelled(g: RuleSet, node: tree::Node) -> bool
    decreases node,
{
    match node {
        tree::Node::Token(t) => !is_nonterminal(g, t.type_),
        tree::Node::Absent => true,
        tree::Node::Tree { data, children, .. } => {
            &&& is_label(g, data)
            &&& forall|i: int| 0 <= i < children.len() ==> is_labelled(g, #[trigger] children[i])
        },
    }
}

proof fn lemma_base_again(name: Seq<char>)
    ensures
        recons_rules::base_of(recons_rules::base_of(name)) == recons_rules::base_of(name),
    decreases name.len(),
{
    if name.len() > 0 && name[0] != '{' {
        lemma_base_again(name.skip(1));
        let rest = recons_rules::base_of(name.skip(1));
        assert((seq![name[0]] + rest).skip(1) =~= rest);
    }
}

proof fn lemma_labelled(g: RuleSet, node: tree::Node)
    requires
        is_labelled(g, node),
    ensures
        well_named(g, node),
    decreases node,
{
    if let tree::Node::Tree { data, children, .. } = node {
        let i = choose|i: int|
            0 <= i < g.rules@.len() && recons_rules::base_of(
                recons_rules::label_of(#[trigger] g.rules@[i]),
            ) == data && !leaves_nothing(g.rules@[i], 1);
        lemma_base_again(recons_rules::label_of(g.rules@[i]));
        assert forall|k: int| 0 <= k < children.len() implies well_named(
            g,
            #[trigger] children[k],
        ) by {
            lemma_labelled(g, children[k]);
        }
    }
}

/// Whether a rule refers to a nonterminal whose nodes can vanish.
spec fn is_referred(g: RuleSet, x: Seq<char>) -> bool {
    recons_rules::vanishes(g, x) && exists|j: int|
        0 <= j < g.rules@.len() && mentions(#[trigger] g.rules@[j], x)
}

/// Whether the nonterminals among symbols are referred to.
spec fn all_referred(g: RuleSet, syms: Seq<recons_rules::RSymModel>) -> bool {
    forall|e: int|
        0 <= e < syms.len() ==> ((#[trigger] syms[e]) matches recons_rules::RSymModel::NonTerm(x)
            ==> is_referred(g, x))
}

proof fn lemma_part_referred(g: RuleSet, i: int, k: nat)
    requires
        0 <= i < g.rules@.len(),
        k <= g.rules@[i].expansion@.len(),
    ensures
        all_referred(g, recons_rules::matched_part(g, g.rules@[i], k)),
    decreases k,
{
    if k > 0 {
        lemma_part_referred(g, i, (k - 1) as nat);
        let r = g.rules@[i];
        let before = recons_rules::matched_part(g, r, (k - 1) as nat);
        let now = recons_rules::matched_part(g, r, k);
        assert forall|e: int| 0 <= e < now.len() implies ((
        #[trigger] now[e]) matches recons_rules::RSymModel::NonTerm(x) ==> is_referred(g, x)) by {
            if e < before.len() {
                assert(now[e] == before[e]);
            } else if let recons_rules::RSymModel::NonTerm(x) = now[e] {
                assert(r.expansion@[k - 1] is NonTerminal);
                assert(mentions(r, x));
            }
        }
    }
}

proof fn lemma_rule_referred(g: RuleSet, q: recons_rules::ReconsRuleModel)
    requires
        comes_from(g, q),
    ensures
        all_referred(g, q.expansion),
{
    if exists|i: int| stands_for(g, q, i) {
        let i = choose|i: int| stands_for(g, q, i);
        lemma_part_referred(g, i, g.rules@[i].expansion@.len());
    }
}

/// A rule with the name of a referred nonterminal is one of it, without an
/// alias.
proof fn lemma_referred_rule(g: RuleSet, q: recons_rules::ReconsRuleModel, i: int)
    requires
        names_apart(g),
        is_tidy(g),
        is_referred(g, q.origin),
        stands_for(g, q, i),
    ensures
        g.rules@[i].alias is None,
        g.rules@[i].origin@ == q.origin,
        recons_rules::is_hidden(q.origin) || g.rules@[i].options.expand1 && keeps_one(
            g,
            g.rules@[i],
        ),
{
    let x = q.origin;
    let r = g.rules@[i];
    assert(is_tidy_rule(g, r));
    let o = choose|o: int| 0 <= o < g.rules@.len() && (#[trigger] g.rules@[o]).origin@ == x;
    assert(recons_rules::is_origin(g, x));
    assert(recons_rules::label_of(r) == x);
    if r.alias is Some {
        assert(recons_rules::base_of(recons_rules::label_of(r)) != recons_rules::base_of(
            g.rules@[o].origin@,
        ));
    }
}

/// The applications below the root of a match in a tidy grammar leave no node;
/// one of a nonterminal that is not transparent takes one child.
proof fn lemma_plain(
    g: RuleSet,
    ctx: recons_match::MatchContext,
    syms: Seq<recons_rules::RSymModel>,
    elems: Seq<recons_match::ElemModel>,
    from: int,
    to: int,
)
    requires
        names_apart(g),
        is_tidy(g),
        all_come_from(g, ctx.rules),
        all_referred(g, syms),
        recons_laws::spans(ctx, syms, elems, from, to),
    ensures
        is_plain(g, ctx.rules, elems),
        forall|e: int|
            0 <= e < elems.len() ==> ((#[trigger] elems[e]) matches recons_match::ElemModel::Sub(
                d,
            ) ==> recons_rules::is_hidden(ctx.rules[d.rule as int].origin) || recons_laws::width(
                d.elems,
            ) == 1),
    decreases elems,
{
    assert forall|e: int| 0 <= e < elems.len() implies match #[trigger] elems[e] {
        recons_match::ElemModel::Child(_) => true,
        recons_match::ElemModel::Sub(d) => {
            &&& is_spliced(g, ctx.rules[d.rule as int], recons_laws::width(d.elems))
            &&& is_plain(g, ctx.rules, d.elems)
            &&& recons_rules::is_hidden(ctx.rules[d.rule as int].origin) || recons_laws::width(
                d.elems,
            ) == 1
        },
    } by {
        if let recons_match::ElemModel::Sub(d) = elems[e] {
            lemma_spans_sym(ctx, syms, elems, from, to, e);
            recons_laws::lemma_spans_at(ctx, syms, elems, from, to, e);
            let pos = from + recons_laws::width(elems.take(e));
            let next = from + recons_laws::width(elems.take(e + 1));
            let q = ctx.rules[d.rule as int];
            assert(comes_from(g, q));
            assert(is_referred(g, q.origin)) by {
                assert(syms[e] == recons_rules::RSymModel::NonTerm(q.origin));
            }
            lemma_rule_referred(g, q);
            lemma_plain(g, ctx, q.expansion, d.elems, pos, next);
            if !recons_rules::is_hidden(q.origin) {
                lemma_one_wide(g, ctx, q, d.elems, pos, next);
            }
            assert forall|i: int| #[trigger] stands_for(g, q, i) implies leaves_nothing(
                g.rules@[i],
                recons_laws::width(d.elems),
            ) by {
                lemma_referred_rule(g, q, i);
            }
        }
    }
}

proof fn lemma_one_wide(
    g: RuleSet,
    ctx: recons_match::MatchContext,
    q: recons_rules::ReconsRuleModel,
    elems: Seq<recons_match::ElemModel>,
    from: int,
    to: int,
)
    requires
        names_apart(g),
        is_tidy(g),
        comes_from(g, q),
        is_referred(g, q.origin),
        !recons_rules::is_hidden(q.origin),
        recons_laws::spans(ctx, q.expansion, elems, from, to),
        forall|e: int|
            0 <= e < elems.len() ==> ((#[trigger] elems[e]) matches recons_match::ElemModel::Sub(
                d,
            ) ==> recons_rules::is_hidden(ctx.rules[d.rule as int].origin) || recons_laws::width(
                d.elems,
            ) == 1),
    ensures
        recons_laws::width(elems) == 1,
{
    if exists|i: int| stands_for(g, q, i) {
        let i = choose|i: int| stands_for(g, q, i);
        lemma_referred_rule(g, q, i);
    }
    assert(q.expansion.len() == 1);
    assert(elems.len() == 1);
    lemma_spans_sym(ctx, q.expansion, elems, from, to, 0);
    assert(recons_laws::width(elems.drop_last()) == 0);
    assert(elems.last() == elems[0]);
}

/// Every match in a tidy grammar is faithful.
proof fn lemma_faithful(g: RuleSet, subs: Seq<(Seq<char>, Seq<char>)>, node: tree::Node)
    requires
        names_apart(g),
        is_tidy(g),
        is_labelled(g, node),
        is_matchable(reconstruct::recons_model(g, subs), node),
    ensures
        is_faithful(g, reconstruct::recons_model(g, subs), node),
    decreases node,
{
    let m = reconstruct::recons_model(g, subs);
    if let tree::Node::Tree { data, children, .. } = node {
        assert forall|k: int| 0 <= k < children.len() implies is_faithful(
            g,
            m,
            #[trigger] children[k],
        ) by {
            lemma_faithful(g, subs, children[k]);
        }
        let ctx = reconstruct::node_context(m, data, children);
        if let Some(d) = reconstruct::node_match(m, data, children) {
            let sets = choose|sets: Seq<Seq<recons_match::Item>>|
                #[trigger] recons_match::is_chart(ctx, sets) && recons_laws::within_limits(
                    ctx,
                    sets,
                );
            recons_laws::match_is_exact(ctx, sets);
            rules_come_from_the_grammar(g, subs, data);
            lemma_from_join(g, m.global, (m.rooted)(data));
            let q = ctx.rules[d.rule as int];
            assert(comes_from(g, q));
            lemma_rule_referred(g, q);
            lemma_plain(g, ctx, q.expansion, d.elems, 0, children.len() as int);
            lemma_labelled(g, node);
            lemma_root(g, q, data, children.len());
        }
    }
}

/// The rule at the root of a match in a tidy grammar leaves a node.
proof fn lemma_root(
    g: RuleSet,
    q: recons_rules::ReconsRuleModel,
    data: Seq<char>,
    n: nat,
)
    requires
        names_apart(g),
        is_tidy(g),
        is_label(g, data),
        comes_from(g, q),
        recons_rules::base_of(q.origin) == data,
    ensures
        is_noded(g, q, n),
{
    let l = choose|i: int|
        0 <= i < g.rules@.len() && recons_rules::base_of(
            recons_rules::label_of(#[trigger] g.rules@[i]),
        ) == data && !leaves_nothing(g.rules@[i], 1);
    let r = g.rules@[l];
    assert(is_tidy_rule(g, r));
    if exists|i: int| stands_for(g, q, i) {
        let i = choose|i: int| stands_for(g, q, i);
        let other = g.rules@[i];
        assert(is_tidy_rule(g, other));
        assert(other.origin@ == r.origin@);
        if other.alias is None && other.options.expand1 {
            assert(recons_rules::is_expand1(g, r.origin@));
            assert(r.alias is None);
        }
        assert(stands_for(g, q, i) && !leaves_nothing(g.rules@[i], n));
    } else {
        let i = choose|i: int| bridges(g, q, i);
        assert(recons_rules::base_of(g.rules@[i].origin@) == data);
        assert(r.alias is None);
        assert(g.rules@[l].origin@ == g.rules@[i].origin@);
    }
}

/// In a tidy grammar whose labels tell the nonterminals apart, what is written
/// of any tree with its labels is derived: the pieces are the texts of the
/// tokens of a derivation that is shaped to the tree.
pub proof fn tidy_grammars_round_trip(
    g: RuleSet,
    subs: Seq<(Seq<char>, Seq<char>)>,
    node: tree::Node,
)
    requires
        names_apart(g),
        is_tidy(g),
        node is Tree,
        is_labelled(g, node),
        is_matchable(reconstruct::recons_model(g, subs), node),
    ensures
        reconstruct::node_pieces(reconstruct::recons_model(g, subs), node) matches Ok(pieces)
            ==> exists|p: Parse| derives_node(g, p, node, pieces),
{
    lemma_labelled(g, node);
    lemma_faithful(g, subs, node);
    written_nodes_are_derived(g, subs, node);
}

// ---------------------------------------------------------------------------
// Trees of derivations

/// Whether no terminal of a rule has the name of a nonterminal.
pub open spec fn terminals_apart(g: RuleSet) -> bool {
    forall|i: int, k: int|
        0 <= i < g.rules@.len() && 0 <= k < g.rules@[i].expansion@.len() && (
        #[trigger] g.rules@[i].expansion@[k]) is Terminal ==> !is_nonterminal(
            g,
            recons_rules::symbol_name(g.rules@[i].expansion@[k]),
        )
}

/// Whether a tree without places has the labels and token types of the grammar.
spec fn bare_labelled(g: RuleSet, b: Bare) -> bool
    decreases b,
{
    match b {
        Bare::Leaf { name, .. } => !is_nonterminal(g, name),
        Bare::Absent => true,
        Bare::Branch { data, children } => {
            &&& is_label(g, data)
            &&& forall|i: int|
                0 <= i < children.len() ==> bare_labelled(g, #[trigger] children[i])
        },
    }
}

spec fn all_bare_labelled(g: RuleSet, bs: Seq<Bare>) -> bool {
    forall|i: int| 0 <= i < bs.len() ==> bare_labelled(g, #[trigger] bs[i])
}

proof fn lemma_unbare(g: RuleSet, node: tree::Node)
    requires
        bare_labelled(g, bare(node)),
    ensures
        is_labelled(g, node),
    decreases node,
{
    if let tree::Node::Tree { children, .. } = node {
        assert forall|i: int| 0 <= i < children.len() implies is_labelled(
            g,
            #[trigger] children[i],
        ) by {
            assert(bare(node)->children[i] == bare(children[i]));
            lemma_unbare(g, children[i]);
        }
    }
}

/// A symbol that is not transparent gives one child.
proof fn lemma_one_child(g: RuleSet, s: Symbol, p: Parse)
    requires
        is_parse(g, s, p),
        s is NonTerminal ==> !recons_rules::is_hidden(recons_rules::symbol_name(s)),
    ensures
        value(g, p).len() == 1,
{
}

/// A rule that keeps one symbol has as many children as kept symbols.
proof fn lemma_kids_len(g: RuleSet, i: int, kids: Seq<Parse>, k: nat)
    requires
        0 <= i < g.rules@.len(),
        keeps_one(g, g.rules@[i]),
        kids.len() == g.rules@[i].expansion@.len(),
        k <= kids.len(),
        forall|j: int|
            0 <= j < kids.len() ==> is_parse(g, g.rules@[i].expansion@[j], #[trigger] kids[j]),
    ensures
        kids_value(g, g.rules@[i], kids, k).len() == recons_rules::matched_part(
            g,
            g.rules@[i],
            k,
        ).len(),
    decreases k,
{
    if k > 0 {
        lemma_kids_len(g, i, kids, (k - 1) as nat);
        let r = g.rules@[i];
        let s = r.expansion@[k - 1];
        if !recons_rules::is_discarded(r, s) {
            lemma_matched_at(g, r, (k - 1) as nat);
            assert(is_parse(g, s, kids[k - 1]));
            if s is NonTerminal && recons_rules::is_hidden(recons_rules::symbol_name(s)) {
                let x = recons_rules::symbol_name(s);
                assert(g.rules@[kids[k - 1]->rule].origin@ == x);
                assert(recons_rules::is_origin(g, x));
                assert(recons_rules::turned(g, s) == recons_rules::RSymModel::NonTerm(x));
            }
            lemma_one_child(g, s, kids[k - 1]);
        }
    }
}

proof fn lemma_value_labelled(g: RuleSet, s: Symbol, p: Parse)
    requires
        terminals_apart(g),
        is_tidy(g),
        is_parse(g, s, p),
        s is Terminal ==> !is_nonterminal(g, recons_rules::symbol_name(s)),
    ensures
        all_bare_labelled(g, value(g, p)),
    decreases p, 0nat,
{
    if let Parse::Apply { rule, kids } = p {
        let r = g.rules@[rule];
        lemma_kids_labelled(g, rule, kids, kids.len());
        let children = kids_value(g, r, kids, kids.len());
        if !leaves_nothing(r, children.len()) {
            if r.options.expand1 && r.alias is None {
                assert(is_tidy_rule(g, r));
                assert(recons_rules::is_expand1(g, r.origin@));
                lemma_kids_len(g, rule, kids, kids.len());
            }
            assert(!leaves_nothing(g.rules@[rule], 1));
        }
    }
}

proof fn lemma_kids_labelled(g: RuleSet, i: int, kids: Seq<Parse>, k: nat)
    requires
        terminals_apart(g),
        is_tidy(g),
        0 <= i < g.rules@.len(),
        kids.len() == g.rules@[i].expansion@.len(),
        k <= kids.len(),
        forall|j: int|
            0 <= j < kids.len() ==> is_parse(g, g.rules@[i].expansion@[j], #[trigger] kids[j]),
    ensures
        all_bare_labelled(g, kids_value(g, g.rules@[i], kids, k)),
    decreases kids, k,
{
    if k > 0 {
        lemma_kids_labelled(g, i, kids, (k - 1) as nat);
        let r = g.rules@[i];
        assert(is_parse(g, r.expansion@[k - 1], kids[k - 1]));
        lemma_value_labelled(g, r.expansion@[k - 1], kids[k - 1]);
        let before = kids_value(g, r, kids, (k - 1) as nat);
        let last = value(g, kids[k - 1]);
        assert forall|j: int| 0 <= j < (before + last).len() implies bare_labelled(
            g,
            #[trigger] (before + last)[j],
        ) by {
            if j < before.len() {
                assert((before + last)[j] == before[j]);
            } else {
                assert((before + last)[j] == last[j - before.len()]);
            }
        }
    }
}

/// A tree that a derivation in a tidy grammar is shaped to, once written, is
/// that of a derivation of what was written: the pieces are the texts of the
/// tokens of a derivation that is shaped to the same tree.
pub proof fn derived_trees_round_trip(
    g: RuleSet,
    subs: Seq<(Seq<char>, Seq<char>)>,
    s: Symbol,
    p: Parse,
    node: tree::Node,
)
    requires
        names_apart(g),
        terminals_apart(g),
        is_tidy(g),
        s is NonTerminal,
        is_parse(g, s, p),
        value(g, p) == seq![bare(node)],
        node is Tree,
        is_matchable(reconstruct::recons_model(g, subs), node),
    ensures
        reconstruct::node_pieces(reconstruct::recons_model(g, subs), node) matches Ok(pieces)
            ==> exists|q: Parse| derives_node(g, q, node, pieces),
{
    lemma_value_labelled(g, s, p);
    assert(value(g, p)[0] == bare(node));
    lemma_unbare(g, node);
    tidy_grammars_round_trip(g, subs, node);
}

} // verus!
