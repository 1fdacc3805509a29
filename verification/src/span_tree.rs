//! Parse trees that borrow: the texts of tokens are parts of the input, and
//! names are those of the grammar.

use vstd::prelude::*;
use crate::lalr;
use crate::lalr_stack;
use crate::lalr_table::{Action, ParseTable};
use crate::output;
use crate::output::{OutputBuilder, OutputContext};
use crate::symbols;
use crate::symbols::{CompiledRule, SymbolId, SymbolTable};
use crate::text::owned;
use crate::token_source::TokenSource;
use crate::tree;
use crate::tree::{Child, Meta, ParseTree, Token, Tree};
use crate::tree_builder::TreeOutputBuilder;

verus! {

/// A token that borrows its text from the input and its name from the grammar.
#[derive(Clone, Copy, Debug)]
pub struct SpanToken<'i, 'g> {
    pub type_id: SymbolId,
    pub type_: &'g str,
    pub value: &'i str,
    pub line: usize,
    pub column: usize,
    pub end_line: usize,
    pub end_column: usize,
    pub start_pos: usize,
    pub end_pos: usize,
}

/// A node that borrows its name from the grammar.
#[derive(Debug)]
pub struct SpanBranch<'i, 'g> {
    pub name: &'g str,
    pub children: Vec<SpanNode<'i, 'g>>,
    pub meta: Meta,
}

/// A borrowing parse tree.
#[derive(Debug)]
pub enum SpanNode<'i, 'g> {
    Token(SpanToken<'i, 'g>),
    Branch(SpanBranch<'i, 'g>),
    Absent,
}

/// The content of a borrowing token.
pub open spec fn span_token(t: SpanToken) -> tree::TokenModel {
    tree::TokenModel {
        type_id: t.type_id,
        type_: t.type_@,
        value: t.value@,
        line: t.line,
        column: t.column,
        end_line: t.end_line,
        end_column: t.end_column,
        start_pos: t.start_pos,
        end_pos: t.end_pos,
    }
}

/// The tree that a borrowing tree stands for.
pub open spec fn span_node<'i, 'g>(n: SpanNode<'i, 'g>) -> tree::Node
    decreases n,
{
    match n {
        SpanNode::Token(t) => tree::Node::Token(span_token(t)),
        SpanNode::Branch(b) => span_branch(b),
        SpanNode::Absent => tree::Node::Absent,
    }
}

/// The tree that a borrowing node stands for.
pub open spec fn span_branch<'i, 'g>(b: SpanBranch<'i, 'g>) -> tree::Node
    decreases b,
{
    tree::Node::Tree {
        data: b.name@,
        children: Seq::new(
            b.children@.len(),
            |i: int|
                if 0 <= i < b.children@.len() {
                    span_node(b.children@[i])
                } else {
                    tree::Node::Absent
                },
        ),
        meta: b.meta,
    }
}

/// The trees that borrowing trees stand for.
pub open spec fn span_nodes<'i, 'g>(s: Seq<SpanNode<'i, 'g>>) -> Seq<tree::Node> {
    Seq::new(s.len(), |i: int| span_node(s[i]))
}

proof fn lemma_branch_children<'i, 'g>(b: SpanBranch<'i, 'g>)
    ensures
        span_branch(b) == (tree::Node::Tree {
            data: b.name@,
            children: span_nodes(b.children@),
            meta: b.meta,
        }),
{
    assert(span_branch(b)->children =~= span_nodes(b.children@));
}

/// The span of a node, if it has one.
pub open spec fn node_meta(n: tree::Node) -> Option<Meta> {
    match n {
        tree::Node::Token(t) => Some(tree::token_meta(t)),
        tree::Node::Tree { meta, .. } => Some(meta),
        tree::Node::Absent => None,
    }
}

impl<'i, 'g> SpanNode<'i, 'g> {
    /// The span of the node, if it has one.
    pub fn meta(&self) -> (r: Option<Meta>)
        ensures
            r == node_meta(span_node(*self)),
    {
        match self {
            SpanNode::Token(t) => Some(
                Meta {
                    line: Some(t.line),
                    column: Some(t.column),
                    end_line: Some(t.end_line),
                    end_column: Some(t.end_column),
                    start_pos: Some(t.start_pos),
                    end_pos: Some(t.end_pos),
                    empty: false,
                },
            ),
            SpanNode::Branch(b) => Some(b.meta),
            SpanNode::Absent => None,
        }
    }

    /// The tree that owns its texts and names.
    pub fn materialize(&self) -> (r: ParseTree)
        ensures
            r@ == span_node(*self),
    {
        match self.materialize_child() {
            Child::Tree(t) => ParseTree::Tree(t),
            Child::Token(t) => ParseTree::Token(t),
            Child::Absent => ParseTree::Absent,
        }
    }

    fn materialize_child(&self) -> (r: Child)
        ensures
            r@ == span_node(*self),
        decreases self,
    {
        match self {
            SpanNode::Token(t) => Child::Token(
                Token {
                    type_id: t.type_id,
                    type_: owned(t.type_),
                    value: owned(t.value),
                    line: t.line,
                    column: t.column,
                    end_line: t.end_line,
                    end_column: t.end_column,
                    start_pos: t.start_pos,
                    end_pos: t.end_pos,
                },
            ),
            SpanNode::Branch(b) => Child::Tree(materialize_branch(b)),
            SpanNode::Absent => Child::Absent,
        }
    }
}

fn materialize_branch<'i, 'g>(b: &SpanBranch<'i, 'g>) -> (r: Tree)
    ensures
        r@ == span_branch(*b),
    decreases b,
{
    let children = materialize_all(&b.children);
    let t = Tree { data: owned(b.name), children, meta: b.meta };
    proof {
        tree::tree_node_children(t);
        lemma_branch_children(*b);
    }
    t
}

fn materialize_all<'i, 'g>(v: &Vec<SpanNode<'i, 'g>>) -> (r: Vec<Child>)
    ensures
        tree::child_nodes(r@) == span_nodes(v@),
    decreases v,
{
    let mut r: Vec<Child> = Vec::new();
    let mut i: usize = 0;
    while i < v.len()
        invariant
            i <= v@.len(),
            r@.len() == i,
            forall|k: int| 0 <= k < i ==> (#[trigger] r@[k])@ == span_node(v@[k]),
        decreases v.len() - i,
    {
        let c = v[i].materialize_child();
        r.push(c);
        i = i + 1;
    }
    proof {
        assert(tree::child_nodes(r@) =~= span_nodes(v@));
    }
    r
}

/// Builds borrowing trees.
pub struct SpanTreeBuilder<'g> {
    rules: &'g Vec<CompiledRule>,
    symbols: &'g SymbolTable,
}

/// The smaller of two numbers.
pub open spec fn smaller(a: usize, b: nat) -> int {
    if a < b {
        a as int
    } else {
        b as int
    }
}

/// The part of a text from `a` to before `b`, as far as the text goes.
pub open spec fn clipped(s: Seq<char>, a: usize, b: usize) -> Seq<char> {
    let from = smaller(a, s.len());
    let to = smaller(b, s.len());
    if from <= to {
        s.subrange(from, to)
    } else {
        Seq::empty()
    }
}

/// The name of the node that a rule builds; empty for a rule outside the
/// grammar.
pub open spec fn rule_name(rules: Seq<symbols::RuleModel>, r: nat) -> Seq<char> {
    if r < rules.len() {
        rules[r as int].tree_name
    } else {
        Seq::empty()
    }
}

fn clip<'i>(s: &'i str, a: usize, b: usize) -> (r: &'i str)
    ensures
        r@ == clipped(s@, a, b),
{
    let n: usize = s.unicode_len();
    let from: usize = if a < n {
        a
    } else {
        n
    };
    let to: usize = if b < n {
        b
    } else {
        n
    };
    if from <= to {
        s.substring_char(from, to)
    } else {
        let r = s.substring_char(0, 0);
        proof {
            assert(r@ =~= Seq::empty());
        }
        r
    }
}

impl<'g> SpanTreeBuilder<'g> {
    /// A builder over a grammar's rules and symbols.
    pub fn new(rules: &'g Vec<CompiledRule>, symbols: &'g SymbolTable) -> (r: Self)
        ensures
            r.context() == (output::ContextModel {
                rules: symbols::rule_models(rules@),
                symbols: symbols@,
            }),
    {
        SpanTreeBuilder { rules, symbols }
    }

    /// The rules and symbols that the builder borrows from.
    pub closed spec fn context(&self) -> output::ContextModel {
        output::ContextModel {
            rules: symbols::rule_models(self.rules@),
            symbols: self.symbols@,
        }
    }
}

impl<'i, 'g> OutputBuilder<'i> for SpanTreeBuilder<'g> {
    type Value = SpanNode<'i, 'g>;

    type Model = tree::Node;

    type Config = output::ContextModel;

    open spec fn config(&self) -> output::ContextModel {
        self.context()
    }

    open spec fn model(value: SpanNode<'i, 'g>) -> tree::Node {
        span_node(value)
    }

    open spec fn token_model(
        config: output::ContextModel,
        token: tree::TokenModel,
        input: Seq<char>,
        ctx: output::ContextModel,
    ) -> tree::Node {
        tree::Node::Token(
            tree::TokenModel {
                type_: symbols::name_of(config.symbols, token.type_id),
                value: clipped(input, token.start_pos, token.end_pos),
                ..token
            },
        )
    }

    open spec fn reduce_model(
        config: output::ContextModel,
        rule: nat,
        children: Seq<tree::Node>,
        meta: Meta,
        ctx: output::ContextModel,
    ) -> tree::Node {
        tree::Node::Tree { data: rule_name(config.rules, rule), children, meta }
    }

    open spec fn placeholder_model(
        config: output::ContextModel,
        ctx: output::ContextModel,
    ) -> tree::Node {
        tree::Node::Absent
    }

    open spec fn discard_model(config: output::ContextModel, value: tree::Node) -> bool {
        false
    }

    fn token(&mut self, token: Token, input: &'i str, _ctx: &OutputContext) -> (r: SpanNode<
        'i,
        'g,
    >) {
        let symbols = self.symbols;
        let type_ = if token.type_id.index() < symbols.len() {
            symbols.name(token.type_id).as_str()
        } else {
            proof {
                reveal_strlit("");
                assert(""@ =~= Seq::empty());
            }
            ""
        };
        SpanNode::Token(
            SpanToken {
                type_id: token.type_id,
                type_,
                value: clip(input, token.start_pos, token.end_pos),
                line: token.line,
                column: token.column,
                end_line: token.end_line,
                end_column: token.end_column,
                start_pos: token.start_pos,
                end_pos: token.end_pos,
            },
        )
    }

    fn reduce(
        &mut self,
        rule: usize,
        children: Vec<SpanNode<'i, 'g>>,
        meta: &Meta,
        _ctx: &OutputContext,
    ) -> (r: SpanNode<'i, 'g>) {
        let rules = self.rules;
        let name = if rule < rules.len() {
            proof {
                assert(symbols::rule_models(rules@)[rule as int] == rules@[rule as int]@);
            }
            rules[rule].tree_name.as_str()
        } else {
            proof {
                reveal_strlit("");
                assert(""@ =~= Seq::empty());
            }
            ""
        };
        let ghost models = span_nodes(children@);
        let b = SpanBranch { name, children, meta: *meta };
        proof {
            lemma_branch_children(b);
            assert(models =~= Seq::new(
                children@.len(),
                |i: int| <Self as OutputBuilder<'i>>::model(children@[i]),
            ));
        }
        SpanNode::Branch(b)
    }

    fn placeholder(&mut self, _ctx: &OutputContext) -> (r: SpanNode<'i, 'g>) {
        SpanNode::Absent
    }

    fn is_discard(&self, _value: &SpanNode<'i, 'g>) -> (r: bool) {
        false
    }
}

// ---------------------------------------------------------------------------
// Laws

/// Whether a token's name is the grammar's, and its text the input's.
pub open spec fn in_place(
    infos: Seq<symbols::SymbolInfo>,
    input: Seq<char>,
    t: tree::TokenModel,
) -> bool {
    &&& t.type_ == symbols::name_of(infos, t.type_id)
    &&& t.value == clipped(input, t.start_pos, t.end_pos)
}

/// Whether the first `fuel` tokens that a source hands out, for whatever parser
/// states, are in place.
pub open spec fn all_in_place<S: TokenSource>(
    infos: Seq<symbols::SymbolInfo>,
    input: Seq<char>,
    c: S::Content,
    fuel: nat,
) -> bool
    decreases fuel,
{
    forall|state: nat|
        match (#[trigger] S::peek_model(c, state)) {
            (next, Ok(t)) => in_place(infos, input, t) && (fuel > 0 ==> all_in_place::<S>(
                infos,
                input,
                S::advance_model(next),
                (fuel - 1) as nat,
            )),
            _ => true,
        }
}

proof fn lemma_reduced_agrees(
    table: ParseTable,
    propagate: bool,
    idx: nat,
    slots: Seq<output::GSlotModel<tree::Node>>,
)
    requires
        idx < table.models().len(),
    ensures
        output::reduced::<SpanTreeBuilder>(
            lalr::context_of(table),
            idx,
            slots,
            lalr::context_of(table),
            propagate,
        ) == output::reduced::<TreeOutputBuilder>(
            table.propagate_positions,
            idx,
            slots,
            lalr::context_of(table),
            propagate,
        ),
{
    let ctx = lalr::context_of(table);
    let rule = ctx.rules[idx as int];
    let absent = output::absent_elem::<TreeOutputBuilder>(table.propagate_positions, ctx);
    assert(absent == output::absent_elem::<SpanTreeBuilder>(ctx, ctx));
    let all = output::kept_elems(rule, slots, absent) + output::copies(
        absent,
        rule.placeholder_count as nat,
    ) + output::copies(absent, symbols::nones_at(rule, rule.expansion.len() as int));
    output::lemma_nothing_discarded(
        all,
        |v: tree::Node| TreeOutputBuilder::discard_model(table.propagate_positions, v),
    );
    output::lemma_nothing_discarded(
        all,
        |v: tree::Node| SpanTreeBuilder::discard_model(ctx, v),
    );
    assert(output::reduction_elems::<TreeOutputBuilder>(
        table.propagate_positions,
        rule,
        slots,
        ctx,
    ) == all);
    assert(output::reduction_elems::<SpanTreeBuilder>(ctx, rule, slots, ctx) == all);
}

proof fn lemma_fed_agrees(
    table: ParseTable,
    input: Seq<char>,
    other: Seq<char>,
    states: Seq<usize>,
    values: Seq<output::GSlotModel<tree::Node>>,
    tok: tree::TokenModel,
    fuel: nat,
)
    requires
        in_place(table.symbols@, input, tok),
        forall|s: int, t: SymbolId|
            #[trigger] table.action_for(s, t) matches Some(Action::Reduce(r)) ==> r
                < table.models().len(),
    ensures
        lalr::gfed::<SpanTreeBuilder>(
            table,
            lalr::context_of(table),
            input,
            states,
            values,
            tok,
            fuel,
        ) == lalr::gfed::<TreeOutputBuilder>(
            table,
            table.propagate_positions,
            other,
            states,
            values,
            tok,
            fuel,
        ),
    decreases fuel,
{
    if fuel > 0 {
        match table.action_for(states.last() as int, tok.type_id) {
            Some(Action::Reduce(r)) => {
                let n = values.len() - table.models()[r as int].expansion.len();
                lemma_reduced_agrees(
                    table,
                    table.propagate_positions,
                    r as nat,
                    values.skip(n),
                );
                if let Some(next) = lalr_stack::reduced_states(table, states, r as int) {
                    lemma_fed_agrees(
                        table,
                        input,
                        other,
                        next,
                        lalr::greduced::<TreeOutputBuilder>(
                            table,
                            table.propagate_positions,
                            values,
                            r as int,
                        ),
                        tok,
                        (fuel - 1) as nat,
                    );
                }
            },
            _ => {},
        }
    }
}

/// A borrowing tree stands for the tree that an ordinary parse of the same
/// tokens builds, and it fails where that parse fails: as long as the tokens
/// name the grammar's terminals and hold the input's text.
pub proof fn borrowing_parse_agrees<S: TokenSource>(
    table: ParseTable,
    input: Seq<char>,
    other: Seq<char>,
    source: S::Content,
    states: Seq<usize>,
    values: Seq<output::GSlotModel<tree::Node>>,
    fuel: nat,
)
    requires
        all_in_place::<S>(table.symbols@, input, source, fuel),
        forall|s: int, t: SymbolId|
            #[trigger] table.action_for(s, t) matches Some(Action::Reduce(r)) ==> r
                < table.models().len(),
    ensures
        lalr::ran::<S, SpanTreeBuilder>(
            table,
            lalr::context_of(table),
            input,
            source,
            states,
            values,
            fuel,
        ) == lalr::ran::<S, TreeOutputBuilder>(
            table,
            table.propagate_positions,
            other,
            source,
            states,
            values,
            fuel,
        ),
    decreases fuel,
{
    let (next, got) = S::peek_model(source, states.last() as nat);
    if let Ok(tok) = got {
        lemma_fed_agrees(
            table,
            input,
            other,
            states,
            values,
            tok,
            lalr_stack::REDUCTION_LIMIT as nat,
        );
        let g = lalr::gfed::<TreeOutputBuilder>(
            table,
            table.propagate_positions,
            other,
            states,
            values,
            tok,
            lalr_stack::REDUCTION_LIMIT as nat,
        );
        if g.outcome is Shifted && fuel > 0 {
            borrowing_parse_agrees::<S>(
                table,
                input,
                other,
                S::advance_model(next),
                g.states,
                g.values,
                (fuel - 1) as nat,
            );
        }
    }
}

} // verus!
