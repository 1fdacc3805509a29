//! Turning reductions into tree nodes: dropping filtered tokens, splicing
//! transparent rules, collapsing single-child nodes, marking absent optionals
//! and computing source spans.

use vstd::prelude::*;
use crate::symbols;
use crate::symbols::CompiledRule;
use crate::tree;
use crate::tree::{Child, Meta, ParseTree, Token, Tree};

verus! {

// ---------------------------------------------------------------------------
// What a node's span is

/// The first node that has a line.
pub open spec fn first_lined(s: Seq<tree::Node>) -> Option<tree::Node>
    decreases s.len(),
{
    if s.len() == 0 {
        None
    } else if tree::node_line(s[0]) is Some {
        Some(s[0])
    } else {
        first_lined(s.drop_first())
    }
}

/// The last node that has an end line.
pub open spec fn last_lined(s: Seq<tree::Node>) -> Option<tree::Node>
    decreases s.len(),
{
    if s.len() == 0 {
        None
    } else if tree::node_end_line(s.last()) is Some {
        Some(s.last())
    } else {
        last_lined(s.drop_last())
    }
}

/// The span of a node with the given children: from the first child that has a
/// line to the last that has an end line.
pub open spec fn children_meta(s: Seq<tree::Node>) -> Meta {
    let f = first_lined(s);
    let l = last_lined(s);
    Meta {
        line: match f {
            Some(n) => tree::node_line(n),
            None => None,
        },
        column: match f {
            Some(n) => tree::node_column(n),
            None => None,
        },
        start_pos: match f {
            Some(n) => tree::node_start(n),
            None => None,
        },
        end_line: match l {
            Some(n) => tree::node_end_line(n),
            None => None,
        },
        end_column: match l {
            Some(n) => tree::node_end_column(n),
            None => None,
        },
        end_pos: match l {
            Some(n) => tree::node_end(n),
            None => None,
        },
        empty: f is None,
    }
}

/// The span of what a rule matched, kept tokens or not: the first and the last
/// positioned element seen.
#[derive(Clone, Copy, PartialEq, Eq, Debug, Structural)]
pub struct ContainerSpan {
    pub first: Option<Meta>,
    pub last: Option<Meta>,
}

/// A span in which nothing was seen.
pub open spec fn no_span() -> ContainerSpan {
    ContainerSpan { first: None, last: None }
}

/// The span after one more element.
pub open spec fn observed(c: ContainerSpan, m: Meta) -> ContainerSpan {
    ContainerSpan {
        first: match c.first {
            Some(f) => Some(f),
            None => Some(m),
        },
        last: Some(m),
    }
}

/// The span after a subtree's span; one without a line bounds nothing.
pub open spec fn observed_tree(c: ContainerSpan, m: Meta) -> ContainerSpan {
    if !m.empty && m.line is Some {
        observed(c, m)
    } else {
        c
    }
}

/// The span after one more child.
pub open spec fn observed_node(c: ContainerSpan, n: tree::Node) -> ContainerSpan {
    match n {
        tree::Node::Token(t) => observed(c, tree::token_meta(t)),
        tree::Node::Tree { data, children, meta } => observed_tree(c, meta),
        tree::Node::Absent => c,
    }
}

/// The span after a list of children.
pub open spec fn observed_nodes(c: ContainerSpan, s: Seq<tree::Node>) -> ContainerSpan
    decreases s.len(),
{
    if s.len() == 0 {
        c
    } else {
        observed_node(observed_nodes(c, s.drop_last()), s.last())
    }
}

/// A node's span, widened to what its rule matched.
pub open spec fn widened(c: ContainerSpan, m: Meta) -> Meta {
    let m1 = match c.first {
        Some(f) => Meta {
            line: f.line,
            column: f.column,
            start_pos: f.start_pos,
            empty: false,
            ..m
        },
        None => m,
    };
    match c.last {
        Some(l) => Meta {
            end_line: l.end_line,
            end_column: l.end_column,
            end_pos: l.end_pos,
            empty: false,
            ..m1
        },
        None => m1,
    }
}

impl ContainerSpan {
    /// A span in which nothing was seen.
    pub fn new() -> (r: Self)
        ensures
            r == no_span(),
    {
        ContainerSpan { first: None, last: None }
    }

    pub(crate) fn observe(&mut self, meta: Meta)
        ensures
            *final(self) == observed(*old(self), meta),
    {
        if self.first.is_none() {
            self.first = Some(meta);
        }
        self.last = Some(meta);
    }

    /// Sees a token.
    pub fn observe_token(&mut self, t: &Token)
        ensures
            *final(self) == observed(*old(self), tree::token_meta(t@)),
    {
        self.observe(meta_from_token(t));
    }

    /// Sees a subtree's span.
    pub fn observe_meta(&mut self, meta: &Meta)
        ensures
            *final(self) == observed_tree(*old(self), *meta),
    {
        if !meta.empty && meta.line.is_some() {
            self.observe(*meta);
        }
    }

    /// Sees a child.
    pub fn observe_child(&mut self, c: &Child)
        ensures
            *final(self) == observed_node(*old(self), c@),
    {
        match c {
            Child::Token(t) => self.observe_token(t),
            Child::Tree(t) => self.observe_meta(&t.meta),
            Child::Absent => {},
        }
    }

    fn observe_children(&mut self, cs: &Vec<Child>)
        ensures
            *final(self) == observed_nodes(*old(self), tree::child_nodes(cs@)),
    {
        let mut i: usize = 0;
        proof {
            assert(tree::child_nodes(cs@).take(0) =~= Seq::empty());
        }
        while i < cs.len()
            invariant
                i <= cs.len(),
                *self == observed_nodes(*old(self), tree::child_nodes(cs@).take(i as int)),
            decreases cs.len() - i,
        {
            self.observe_child(&cs[i]);
            proof {
                let s = tree::child_nodes(cs@);
                assert(s.take(i + 1).drop_last() =~= s.take(i as int));
                assert(s.take(i + 1).last() == cs@[i as int]@);
            }
            i = i + 1;
        }
        proof {
            assert(tree::child_nodes(cs@).take(cs@.len() as int) =~= tree::child_nodes(cs@));
        }
    }

    pub(crate) fn widen_meta(&self, meta: &mut Meta)
        ensures
            *final(meta) == widened(*self, *old(meta)),
    {
        if let Some(first) = &self.first {
            meta.line = first.line;
            meta.column = first.column;
            meta.start_pos = first.start_pos;
            meta.empty = false;
        }
        if let Some(last) = &self.last {
            meta.end_line = last.end_line;
            meta.end_column = last.end_column;
            meta.end_pos = last.end_pos;
            meta.empty = false;
        }
    }
}

/// The span of a token.
pub fn meta_from_token(t: &Token) -> (r: Meta)
    ensures
        r == tree::token_meta(t@),
{
    Meta {
        line: Some(t.line),
        column: Some(t.column),
        end_line: Some(t.end_line),
        end_column: Some(t.end_column),
        start_pos: Some(t.start_pos),
        end_pos: Some(t.end_pos),
        empty: false,
    }
}

fn positive(n: usize) -> (r: Option<usize>)
    ensures
        r == (if n > 0 {
            Some(n)
        } else {
            None
        }),
{
    if n > 0 {
        Some(n)
    } else {
        None
    }
}

impl Meta {
    /// The span of a node with the given children.
    pub fn from_children(children: &Vec<Child>) -> (r: Meta)
        ensures
            r == children_meta(tree::child_nodes(children@)),
    {
        let ghost s = tree::child_nodes(children@);
        let mut meta = Meta::blank();
        let mut i: usize = 0;
        let mut found = false;
        proof {
            assert(s.skip(0) =~= s);
        }
        while i < children.len() && !found
            invariant
                i <= children.len(),
                s == tree::child_nodes(children@),
                !found ==> meta == tree::blank_meta() && first_lined(s) == first_lined(
                    s.skip(i as int),
                ),
                found ==> first_lined(s) is Some && meta == (Meta {
                    line: tree::node_line(first_lined(s)->0),
                    column: tree::node_column(first_lined(s)->0),
                    start_pos: tree::node_start(first_lined(s)->0),
                    empty: false,
                    ..tree::blank_meta()
                }),
            decreases children.len() - i,
        {
            proof {
                assert(s.skip(i as int)[0] == children@[i as int]@);
                assert(s.skip(i as int).drop_first() =~= s.skip(i + 1));
            }
            match &children[i] {
                Child::Token(t) => {
                    if t.line > 0 {
                        meta.line = Some(t.line);
                        meta.column = positive(t.column);
                        meta.start_pos = Some(t.start_pos);
                        meta.empty = false;
                        found = true;
                    }
                },
                Child::Tree(t) => {
                    if t.meta.line.is_some() {
                        meta.line = t.meta.line;
                        meta.column = t.meta.column;
                        meta.start_pos = t.meta.start_pos;
                        meta.empty = false;
                        found = true;
                    }
                },
                Child::Absent => {},
            }
            i = i + 1;
        }
        let mut j: usize = children.len();
        let mut ended = false;
        let ghost half = meta;
        proof {
            assert(s.skip(s.len() as int) =~= Seq::empty());
            assert(s.take(s.len() as int) =~= s);
        }
        while j > 0 && !ended
            invariant
                j <= children.len(),
                s == tree::child_nodes(children@),
                half.end_line is None && half.end_column is None && half.end_pos is None,
                !ended ==> meta == half && last_lined(s) == last_lined(s.take(j as int)),
                ended ==> last_lined(s) is Some && meta == (Meta {
                    end_line: tree::node_end_line(last_lined(s)->0),
                    end_column: tree::node_end_column(last_lined(s)->0),
                    end_pos: tree::node_end(last_lined(s)->0),
                    ..half
                }),
            decreases j,
        {
            proof {
                assert(s.take(j as int).last() == children@[j - 1]@);
                assert(s.take(j as int).drop_last() =~= s.take(j - 1));
            }
            match &children[j - 1] {
                Child::Token(t) => {
                    if t.end_line > 0 {
                        meta.end_line = Some(t.end_line);
                        meta.end_column = positive(t.end_column);
                        meta.end_pos = Some(t.end_pos);
                        ended = true;
                    }
                },
                Child::Tree(t) => {
                    if t.meta.end_line.is_some() {
                        meta.end_line = t.meta.end_line;
                        meta.end_column = t.meta.end_column;
                        meta.end_pos = t.meta.end_pos;
                        ended = true;
                    }
                },
                Child::Absent => {},
            }
            j = j - 1;
        }
        proof {
            assert(s.take(0) =~= Seq::empty());
        }
        meta
    }
}

impl Tree {
    /// A node whose span its children give.
    pub fn new(data: String, children: Vec<Child>) -> (r: Tree)
        ensures
            r@ == (tree::Node::Tree {
                data: data@,
                children: tree::child_nodes(children@),
                meta: children_meta(tree::child_nodes(children@)),
            }),
            r.data == data,
            r.children == children,
    {
        let meta = Meta::from_children(&children);
        let r = Tree { data, children, meta };
        proof {
            tree::tree_node_children(r);
        }
        r
    }
}

// ---------------------------------------------------------------------------
// Assembling tree nodes

/// What one position of a rule contributes: a token, a subtree, or the spliced
/// children of a transparent node.
#[derive(Debug)]
pub enum Slot {
    Token(Token),
    Tree(Tree),
    Inline(Vec<Child>),
}

/// The mathematical content of a slot.
pub ghost enum SlotModel {
    Value(tree::Node),
    Inline(Seq<tree::Node>),
}

impl View for Slot {
    type V = SlotModel;

    open spec fn view(&self) -> SlotModel {
        match *self {
            Slot::Token(t) => SlotModel::Value(tree::Node::Token(t@)),
            Slot::Tree(t) => SlotModel::Value(t@),
            Slot::Inline(cs) => SlotModel::Inline(tree::child_nodes(cs@)),
        }
    }
}

/// The contents of a list of slots.
pub open spec fn slot_models(s: Seq<Slot>) -> Seq<SlotModel> {
    Seq::new(s.len(), |i: int| s[i]@)
}

/// A run of `n` absent-optional marks.
pub open spec fn absents(n: nat) -> Seq<tree::Node> {
    Seq::new(n, |i: int| tree::Node::Absent)
}

/// The children that the slot at position `pos` of `rule` gives.
pub open spec fn slot_children(
    rule: symbols::RuleModel,
    pos: int,
    slot: SlotModel,
) -> Seq<tree::Node> {
    match slot {
        SlotModel::Value(n) => if n is Token && !symbols::keeps_token(rule, pos) {
            Seq::empty()
        } else {
            seq![n]
        },
        SlotModel::Inline(ns) => ns,
    }
}

/// The children that the slots of `rule` give, with the absent-optional marks
/// that stand before each position.
pub open spec fn kept_children(
    rule: symbols::RuleModel,
    slots: Seq<SlotModel>,
) -> Seq<tree::Node>
    decreases slots.len(),
{
    if slots.len() == 0 {
        Seq::empty()
    } else {
        let i = slots.len() - 1;
        kept_children(rule, slots.drop_last()) + absents(symbols::nones_at(rule, i))
            + slot_children(rule, i, slots.last())
    }
}

/// The span that the slots cover, kept or not.
pub open spec fn slots_span(slots: Seq<SlotModel>) -> ContainerSpan
    decreases slots.len(),
{
    if slots.len() == 0 {
        no_span()
    } else {
        let c = slots_span(slots.drop_last());
        match slots.last() {
            SlotModel::Value(n) => observed_node(c, n),
            SlotModel::Inline(ns) => observed_nodes(c, ns),
        }
    }
}

/// The absent-optional marks at the end of a rule.
pub open spec fn trailing_absents(rule: symbols::RuleModel) -> Seq<tree::Node> {
    absents(rule.placeholder_count as nat) + absents(
        symbols::nones_at(rule, rule.expansion.len() as int),
    )
}

/// The value of a reduction by `rule` once its children are known: spliced for
/// a transparent rule, the only child where the rule collapses, else a node.
pub open spec fn shaped(
    rule: symbols::RuleModel,
    propagate: bool,
    children: Seq<tree::Node>,
    span: ContainerSpan,
) -> SlotModel {
    let all = children + trailing_absents(rule);
    if rule.transparent {
        SlotModel::Inline(all)
    } else if rule.expand1 && rule.alias is None && all.len() == 1 {
        if all[0] is Absent {
            SlotModel::Inline(all)
        } else {
            SlotModel::Value(all[0])
        }
    } else {
        let m = children_meta(all);
        SlotModel::Value(
            tree::Node::Tree {
                data: rule.tree_name,
                children: all,
                meta: if propagate {
                    widened(span, m)
                } else {
                    m
                },
            },
        )
    }
}

/// The value of a reduction by `rule` of the given slots.
pub open spec fn assembled(
    rule: symbols::RuleModel,
    propagate: bool,
    slots: Seq<SlotModel>,
) -> SlotModel {
    shaped(
        rule,
        propagate,
        kept_children(rule, slots),
        if propagate {
            slots_span(slots)
        } else {
            no_span()
        },
    )
}

/// The parse result that a root value stands for; a splice other than a lone
/// absent optional is none.
pub open spec fn root_node(value: SlotModel) -> Option<tree::Node> {
    match value {
        SlotModel::Value(n) => Some(n),
        SlotModel::Inline(ns) => if ns.len() == 1 && ns[0] is Absent {
            Some(tree::Node::Absent)
        } else {
            None
        },
    }
}

/// Turns the root value into a parse result, or gives its children back.
pub fn root_slot_to_parse_tree(value: Slot) -> (r: Result<ParseTree, Vec<Child>>)
    ensures
        match r {
            Ok(t) => root_node(value@) == Some(t@),
            Err(cs) => root_node(value@) is None && value@ == SlotModel::Inline(
                tree::child_nodes(cs@),
            ),
        },
{
    match value {
        Slot::Tree(t) => Ok(ParseTree::Tree(t)),
        Slot::Token(tok) => Ok(ParseTree::Token(tok)),
        Slot::Inline(cs) => {
            if cs.len() == 1 {
                match cs[0] {
                    Child::Absent => {
                        return Ok(ParseTree::Absent);
                    },
                    _ => {},
                }
            }
            Err(cs)
        },
    }
}

fn push_absents(children: &mut Vec<Child>, n: usize)
    ensures
        tree::child_nodes(final(children)@) == tree::child_nodes(old(children)@) + absents(
            n as nat,
        ),
{
    let mut k: usize = 0;
    proof {
        assert(tree::child_nodes(children@) =~= tree::child_nodes(children@) + absents(0));
    }
    while k < n
        invariant
            k <= n,
            tree::child_nodes(children@) == tree::child_nodes(old(children)@) + absents(k as nat),
        decreases n - k,
    {
        let ghost before = children@;
        children.push(Child::Absent);
        k = k + 1;
        proof {
            assert(tree::child_nodes(children@) =~= tree::child_nodes(before).push(
                tree::Node::Absent,
            ));
            assert(tree::child_nodes(children@) =~= tree::child_nodes(old(children)@) + absents(
                k as nat,
            ));
        }
    }
}

/// Builds tree nodes by the rules of a grammar.
pub struct TreeOutputBuilder<'g> {
    pub rules: &'g Vec<CompiledRule>,
    pub propagate_positions: bool,
}

impl<'g> TreeOutputBuilder<'g> {
    /// The rules as mathematical values.
    pub open spec fn models(&self) -> Seq<symbols::RuleModel> {
        symbols::rule_models(self.rules@)
    }

    /// A builder whose spans are those of the kept children.
    pub fn new(rules: &'g Vec<CompiledRule>) -> (r: Self)
        ensures
            r.rules == rules,
            !r.propagate_positions,
    {
        TreeOutputBuilder { rules, propagate_positions: false }
    }

    /// A builder that, where asked, widens spans to all that a rule matched.
    pub fn with_propagate_positions(rules: &'g Vec<CompiledRule>, propagate_positions: bool) -> (r:
        Self)
        ensures
            r.rules == rules,
            r.propagate_positions == propagate_positions,
    {
        TreeOutputBuilder { rules, propagate_positions }
    }

    /// How many absent-optional slots stand before position `gap`.
    pub fn nones_at(&self, rule_idx: usize, gap: usize) -> (r: usize)
        requires
            rule_idx < self.rules@.len(),
        ensures
            r == symbols::nones_at(self.models()[rule_idx as int], gap as int),
    {
        self.rules[rule_idx].nones_before(gap)
    }

    /// Whether a token at `pos` stays in the tree.
    pub fn keep_token(&self, rule_idx: usize, pos: usize) -> (r: bool)
        requires
            rule_idx < self.rules@.len(),
        ensures
            r == symbols::keeps_token(self.models()[rule_idx as int], pos as int),
    {
        self.rules[rule_idx].keep_token(pos)
    }

    /// The value of a reduction of the given slots.
    pub fn assemble(&self, rule_idx: usize, child_values: Vec<Slot>) -> (r: Slot)
        requires
            rule_idx < self.rules@.len(),
        ensures
            r@ == assembled(
                self.models()[rule_idx as int],
                self.propagate_positions,
                slot_models(child_values@),
            ),
    {
        let ghost rule = self.models()[rule_idx as int];
        let ghost cv = child_values@;
        let n_values: usize = child_values.len();
        let ghost slots = slot_models(cv);
        let ghost pp = self.propagate_positions;
        let mut children: Vec<Child> = Vec::new();
        let mut container = ContainerSpan::new();
        let mut i: usize = 0;
        proof {
            assert(slots.take(0) =~= Seq::empty());
            assert(tree::child_nodes(children@) =~= Seq::empty());
        }
        for value in it: child_values
            invariant
                it.seq() == cv,
                cv.len() == n_values,
                i == it.index(),
                rule_idx < self.rules@.len(),
                rule == self.models()[rule_idx as int],
                slots == slot_models(cv),
                pp == self.propagate_positions,
                tree::child_nodes(children@) == kept_children(rule, slots.take(i as int)),
                container == (if pp {
                    slots_span(slots.take(i as int))
                } else {
                    no_span()
                }),
        {
            proof {
                assert(slots.take(i + 1).drop_last() =~= slots.take(i as int));
                assert(slots.take(i + 1).last() == value@);
            }
            let n: usize = self.nones_at(rule_idx, i);
            push_absents(&mut children, n);
            let ghost base = tree::child_nodes(children@);
            let ghost before = children@;
            match value {
                Slot::Token(t) => {
                    if self.propagate_positions {
                        container.observe_token(&t);
                    }
                    if self.keep_token(rule_idx, i) {
                        children.push(Child::Token(t));
                        proof {
                            assert(tree::child_nodes(children@) =~= base + seq![
                                tree::Node::Token(t@),
                            ]);
                        }
                    } else {
                        proof {
                            assert(base =~= base + Seq::<tree::Node>::empty());
                        }
                    }
                },
                Slot::Tree(t) => {
                    if self.propagate_positions {
                        container.observe_meta(&t.meta);
                    }
                    children.push(Child::Tree(t));
                    proof {
                        assert(tree::child_nodes(children@) =~= base + seq![t@]);
                    }
                },
                Slot::Inline(cs) => {
                    if self.propagate_positions {
                        container.observe_children(&cs);
                    }
                    let mut rest = cs;
                    let ghost spliced = rest@;
                    children.append(&mut rest);
                    proof {
                        assert(tree::child_nodes(children@) =~= base + tree::child_nodes(spliced));
                    }
                },
            }
            i = i + 1;
        }
        proof {
            assert(slots.take(slots.len() as int) =~= slots);
        }
        self.shape_with_container(rule_idx, children, container)
    }

    /// The value of a reduction whose children are known and whose rule
    /// matched nothing else.
    pub fn shape(&self, rule_idx: usize, children: Vec<Child>) -> (r: Slot)
        requires
            rule_idx < self.rules@.len(),
        ensures
            r@ == shaped(
                self.models()[rule_idx as int],
                self.propagate_positions,
                tree::child_nodes(children@),
                no_span(),
            ),
    {
        self.shape_with_container(rule_idx, children, ContainerSpan::new())
    }

    /// The value of a reduction whose children are known; `container` is the
    /// span of all that the rule matched.
    pub fn shape_with_container(
        &self,
        rule_idx: usize,
        children: Vec<Child>,
        container: ContainerSpan,
    ) -> (r: Slot)
        requires
            rule_idx < self.rules@.len(),
        ensures
            r@ == shaped(
                self.models()[rule_idx as int],
                self.propagate_positions,
                tree::child_nodes(children@),
                container,
            ),
    {
        let mut children = children;
        let ghost given = tree::child_nodes(children@);
        let rule = &self.rules[rule_idx];
        push_absents(&mut children, rule.options.placeholder_count);
        push_absents(&mut children, self.nones_at(rule_idx, rule.expansion.len()));
        let ghost all = tree::child_nodes(children@);
        proof {
            assert(all =~= given + trailing_absents(rule@));
        }
        if rule.transparent {
            Slot::Inline(children)
        } else if rule.options.expand1 && rule.alias.is_none() && children.len() == 1 {
            let ghost only = children@[0]@;
            match children.pop() {
                Some(Child::Tree(t)) => Slot::Tree(t),
                Some(Child::Token(t)) => Slot::Token(t),
                _ => {
                    let mut lone: Vec<Child> = Vec::new();
                    lone.push(Child::Absent);
                    proof {
                        assert(tree::child_nodes(lone@) =~= all);
                    }
                    Slot::Inline(lone)
                },
            }
        } else {
            let mut node = Tree::new(rule.tree_name.clone(), children);
            if self.propagate_positions {
                container.widen_meta(&mut node.meta);
            }
            proof {
                tree::tree_node_children(node);
            }
            Slot::Tree(node)
        }
    }
}

} // verus!
