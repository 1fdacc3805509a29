//! Output builders: what a parser calls for each token and each reduction, and
//! the shaping of a reduction over the values that a builder returns.

use vstd::prelude::*;
use crate::symbols;
use crate::symbols::{CompiledRule, SymbolId, SymbolTable};
use crate::tree;
use crate::tree::{Child, Meta, Token, Tree};
use crate::tree_builder;
use crate::tree_builder::{ContainerSpan, TreeOutputBuilder};

verus! {

/// What a builder may look up while it works: the rules and the symbols.
pub struct OutputContext<'g> {
    pub rules: &'g Vec<CompiledRule>,
    pub symbols: &'g SymbolTable,
}

/// The mathematical content of an output context.
pub ghost struct ContextModel {
    pub rules: Seq<symbols::RuleModel>,
    pub symbols: Seq<symbols::SymbolInfo>,
}

impl<'g> View for OutputContext<'g> {
    type V = ContextModel;

    open spec fn view(&self) -> ContextModel {
        ContextModel { rules: symbols::rule_models(self.rules@), symbols: self.symbols@ }
    }
}

impl<'g> OutputContext<'g> {
    /// A context over the given rules and symbols.
    pub fn new(rules: &'g Vec<CompiledRule>, symbols: &'g SymbolTable) -> (r: Self)
        ensures
            r.rules == rules,
            r.symbols == symbols,
    {
        OutputContext { rules, symbols }
    }

    /// The name of the node that a rule builds.
    pub fn callback_name(&self, rule_idx: usize) -> (r: &'g String)
        requires
            rule_idx < self@.rules.len(),
        ensures
            r@ == self@.rules[rule_idx as int].tree_name,
    {
        &self.rules[rule_idx].tree_name
    }

    /// The alias of a rule, if it has one.
    pub fn rule_alias(&self, rule_idx: usize) -> (r: Option<&'g String>)
        requires
            rule_idx < self@.rules.len(),
        ensures
            match r {
                Some(a) => self@.rules[rule_idx as int].alias == Some(a@),
                None => self@.rules[rule_idx as int].alias is None,
            },
    {
        match &self.rules[rule_idx].alias {
            Some(a) => Some(a),
            None => None,
        }
    }

    /// The name of a terminal.
    pub fn terminal_name(&self, terminal: SymbolId) -> (r: &'g String)
        requires
            terminal.ix() < self@.symbols.len(),
        ensures
            r@ == symbols::name_of(self@.symbols, terminal),
    {
        self.symbols.name(terminal)
    }
}

/// Builds the output of a parse. Every answer is a function of the builder's
/// configuration and of the arguments; the configuration never changes.
pub trait OutputBuilder<'i>: Sized {
    /// What the builder makes of tokens and reductions.
    type Value;

    /// The mathematical content of a value.
    type Model;

    /// What the builder's answers depend on.
    type Config;

    spec fn config(&self) -> Self::Config;

    spec fn model(value: Self::Value) -> Self::Model;

    spec fn token_model(
        config: Self::Config,
        token: tree::TokenModel,
        input: Seq<char>,
        ctx: ContextModel,
    ) -> Self::Model;

    spec fn reduce_model(
        config: Self::Config,
        rule: nat,
        children: Seq<Self::Model>,
        meta: Meta,
        ctx: ContextModel,
    ) -> Self::Model;

    spec fn placeholder_model(config: Self::Config, ctx: ContextModel) -> Self::Model;

    spec fn discard_model(config: Self::Config, value: Self::Model) -> bool;

    /// The value of a shifted token.
    fn token(&mut self, token: Token, input: &'i str, ctx: &OutputContext) -> (r: Self::Value)
        ensures
            final(self).config() == old(self).config(),
            Self::model(r) == Self::token_model(old(self).config(), token@, input@, ctx@),
    ;

    /// The value of a reduction.
    fn reduce(
        &mut self,
        rule: usize,
        children: Vec<Self::Value>,
        meta: &Meta,
        ctx: &OutputContext,
    ) -> (r: Self::Value)
        requires
            rule < ctx@.rules.len(),
        ensures
            final(self).config() == old(self).config(),
            Self::model(r) == Self::reduce_model(
                old(self).config(),
                rule as nat,
                Seq::new(children@.len(), |i: int| Self::model(children@[i])),
                *meta,
                ctx@,
            ),
    ;

    /// The value of an absent optional.
    fn placeholder(&mut self, ctx: &OutputContext) -> (r: Self::Value)
        ensures
            final(self).config() == old(self).config(),
            Self::model(r) == Self::placeholder_model(old(self).config(), ctx@),
    ;

    /// Whether a value is dropped from its parent.
    fn is_discard(&self, value: &Self::Value) -> (r: bool)
        ensures
            r == Self::discard_model(self.config(), Self::model(*value)),
    ;
}

impl<'i, 'g> OutputBuilder<'i> for TreeOutputBuilder<'g> {
    type Value = Child;

    type Model = tree::Node;

    type Config = bool;

    open spec fn config(&self) -> bool {
        self.propagate_positions
    }

    open spec fn model(value: Child) -> tree::Node {
        value@
    }

    open spec fn token_model(
        config: bool,
        token: tree::TokenModel,
        input: Seq<char>,
        ctx: ContextModel,
    ) -> tree::Node {
        tree::Node::Token(token)
    }

    open spec fn reduce_model(
        config: bool,
        rule: nat,
        children: Seq<tree::Node>,
        meta: Meta,
        ctx: ContextModel,
    ) -> tree::Node {
        tree::Node::Tree { data: ctx.rules[rule as int].tree_name, children, meta }
    }

    open spec fn placeholder_model(config: bool, ctx: ContextModel) -> tree::Node {
        tree::Node::Absent
    }

    open spec fn discard_model(config: bool, value: tree::Node) -> bool {
        false
    }

    fn token(&mut self, token: Token, _input: &'i str, _ctx: &OutputContext) -> (r: Child) {
        Child::Token(token)
    }

    fn reduce(
        &mut self,
        rule: usize,
        children: Vec<Child>,
        meta: &Meta,
        ctx: &OutputContext,
    ) -> (r: Child) {
        let t = Tree { data: ctx.callback_name(rule).clone(), children, meta: *meta };
        proof {
            tree::tree_node_children(t);
            assert(tree::child_nodes(children@) =~= Seq::new(
                children@.len(),
                |i: int| <Self as OutputBuilder<'i>>::model(children@[i]),
            ));
        }
        Child::Tree(t)
    }

    fn placeholder(&mut self, _ctx: &OutputContext) -> (r: Child) {
        Child::Absent
    }

    fn is_discard(&self, _value: &Child) -> (r: bool) {
        false
    }
}

/// What kind of child a value is.
#[derive(Clone, Copy, PartialEq, Eq, Debug, Structural)]
pub enum GTag {
    Token,
    Tree,
    Absent,
}

/// A value with its span and kind.
pub struct GElem<V> {
    pub value: V,
    pub meta: Meta,
    pub tag: GTag,
}

/// What one position of a rule contributes.
pub enum GSlot<V> {
    Value(GElem<V>),
    Inline(Vec<GElem<V>>),
}

/// The mathematical content of an element.
pub ghost struct ElemModel<M> {
    pub value: M,
    pub meta: Meta,
    pub tag: GTag,
}

/// The mathematical content of a position.
pub ghost enum GSlotModel<M> {
    Value(ElemModel<M>),
    Inline(Seq<ElemModel<M>>),
}

/// The content of an element.
pub open spec fn elem_model<'i, B: OutputBuilder<'i>>(e: GElem<B::Value>) -> ElemModel<B::Model> {
    ElemModel { value: B::model(e.value), meta: e.meta, tag: e.tag }
}

/// The contents of a list of elements.
pub open spec fn elem_models<'i, B: OutputBuilder<'i>>(s: Seq<GElem<B::Value>>) -> Seq<
    ElemModel<B::Model>,
> {
    Seq::new(s.len(), |i: int| elem_model::<B>(s[i]))
}

/// The content of a slot.
pub open spec fn gslot_model<'i, B: OutputBuilder<'i>>(s: GSlot<B::Value>) -> GSlotModel<B::Model> {
    match s {
        GSlot::Value(e) => GSlotModel::Value(elem_model::<B>(e)),
        GSlot::Inline(es) => GSlotModel::Inline(elem_models::<B>(es@)),
    }
}

/// The contents of a list of slots.
pub open spec fn gslot_models<'i, B: OutputBuilder<'i>>(s: Seq<GSlot<B::Value>>) -> Seq<
    GSlotModel<B::Model>,
> {
    Seq::new(s.len(), |i: int| gslot_model::<B>(s[i]))
}

/// A number that counts as a position: for a token only if it is positive, for
/// an absent optional never.
pub open spec fn counted(n: Option<usize>, tag: GTag) -> Option<usize> {
    match tag {
        GTag::Token => match n {
            Some(l) => if l > 0 {
                Some(l)
            } else {
                None
            },
            None => None,
        },
        GTag::Tree => n,
        GTag::Absent => None,
    }
}

/// A character offset; an absent optional has none.
pub open spec fn offset(n: Option<usize>, tag: GTag) -> Option<usize> {
    if tag is Absent {
        None
    } else {
        n
    }
}

/// The first element that has a line.
pub open spec fn first_lined_elem<M>(s: Seq<ElemModel<M>>) -> Option<ElemModel<M>>
    decreases s.len(),
{
    if s.len() == 0 {
        None
    } else if counted(s[0].meta.line, s[0].tag) is Some {
        Some(s[0])
    } else {
        first_lined_elem(s.drop_first())
    }
}

/// The last element that has an end line.
pub open spec fn last_lined_elem<M>(s: Seq<ElemModel<M>>) -> Option<ElemModel<M>>
    decreases s.len(),
{
    if s.len() == 0 {
        None
    } else if counted(s.last().meta.end_line, s.last().tag) is Some {
        Some(s.last())
    } else {
        last_lined_elem(s.drop_last())
    }
}

/// The span of a node with the given elements.
pub open spec fn elems_meta<M>(s: Seq<ElemModel<M>>) -> Meta {
    let f = first_lined_elem(s);
    let l = last_lined_elem(s);
    Meta {
        line: match f {
            Some(e) => counted(e.meta.line, e.tag),
            None => None,
        },
        column: match f {
            Some(e) => counted(e.meta.column, e.tag),
            None => None,
        },
        start_pos: match f {
            Some(e) => offset(e.meta.start_pos, e.tag),
            None => None,
        },
        end_line: match l {
            Some(e) => counted(e.meta.end_line, e.tag),
            None => None,
        },
        end_column: match l {
            Some(e) => counted(e.meta.end_column, e.tag),
            None => None,
        },
        end_pos: match l {
            Some(e) => offset(e.meta.end_pos, e.tag),
            None => None,
        },
        empty: f is None,
    }
}

fn gc_counted(n: Option<usize>, tag: GTag) -> (r: Option<usize>)
    ensures
        r == counted(n, tag),
{
    match tag {
        GTag::Token => match n {
            Some(l) => {
                if l > 0 {
                    Some(l)
                } else {
                    None
                }
            },
            None => None,
        },
        GTag::Tree => n,
        GTag::Absent => None,
    }
}

fn gc_line(m: &Meta, tag: GTag) -> (r: Option<usize>)
    ensures
        r == counted(m.line, tag),
{
    gc_counted(m.line, tag)
}

fn gc_column(m: &Meta, tag: GTag) -> (r: Option<usize>)
    ensures
        r == counted(m.column, tag),
{
    gc_counted(m.column, tag)
}

fn gc_start(m: &Meta, tag: GTag) -> (r: Option<usize>)
    ensures
        r == offset(m.start_pos, tag),
{
    match tag {
        GTag::Absent => None,
        _ => m.start_pos,
    }
}

fn gc_end_line(m: &Meta, tag: GTag) -> (r: Option<usize>)
    ensures
        r == counted(m.end_line, tag),
{
    gc_counted(m.end_line, tag)
}

fn gc_end_column(m: &Meta, tag: GTag) -> (r: Option<usize>)
    ensures
        r == counted(m.end_column, tag),
{
    gc_counted(m.end_column, tag)
}

fn gc_end(m: &Meta, tag: GTag) -> (r: Option<usize>)
    ensures
        r == offset(m.end_pos, tag),
{
    match tag {
        GTag::Absent => None,
        _ => m.end_pos,
    }
}

/// The span of a node with the given elements.
fn node_meta_from_elems<'i, B: OutputBuilder<'i>>(elems: &Vec<GElem<B::Value>>) -> (r: Meta)
    ensures
        r == elems_meta(elem_models::<B>(elems@)),
{
    let ghost s = elem_models::<B>(elems@);
    let mut meta = Meta::blank();
    let mut i: usize = 0;
    let mut found = false;
    proof {
        assert(s.skip(0) =~= s);
    }
    while i < elems.len() && !found
        invariant
            i <= elems.len(),
            s == elem_models::<B>(elems@),
            !found ==> meta == tree::blank_meta() && first_lined_elem(s) == first_lined_elem(
                s.skip(i as int),
            ),
            found ==> first_lined_elem(s) is Some && meta == (Meta {
                line: counted((first_lined_elem(s)->0).meta.line, (first_lined_elem(s)->0).tag),
                column: counted((first_lined_elem(s)->0).meta.column, (first_lined_elem(s)->0).tag),
                start_pos: offset(
                    (first_lined_elem(s)->0).meta.start_pos,
                    (first_lined_elem(s)->0).tag,
                ),
                empty: false,
                ..tree::blank_meta()
            }),
        decreases elems.len() - i,
    {
        proof {
            assert(s.skip(i as int)[0] == elem_model::<B>(elems@[i as int]));
            assert(s.skip(i as int).drop_first() =~= s.skip(i + 1));
        }
        let e = &elems[i];
        if let Some(line) = gc_line(&e.meta, e.tag) {
            meta.line = Some(line);
            meta.column = gc_column(&e.meta, e.tag);
            meta.start_pos = gc_start(&e.meta, e.tag);
            meta.empty = false;
            found = true;
        }
        i = i + 1;
    }
    let mut j: usize = elems.len();
    let mut ended = false;
    let ghost half = meta;
    proof {
        assert(s.skip(s.len() as int) =~= Seq::empty());
        assert(s.take(s.len() as int) =~= s);
    }
    while j > 0 && !ended
        invariant
            j <= elems.len(),
            s == elem_models::<B>(elems@),
            half.end_line is None && half.end_column is None && half.end_pos is None,
            !ended ==> meta == half && last_lined_elem(s) == last_lined_elem(s.take(j as int)),
            ended ==> last_lined_elem(s) is Some && meta == (Meta {
                end_line: counted(
                    (last_lined_elem(s)->0).meta.end_line,
                    (last_lined_elem(s)->0).tag,
                ),
                end_column: counted(
                    (last_lined_elem(s)->0).meta.end_column,
                    (last_lined_elem(s)->0).tag,
                ),
                end_pos: offset((last_lined_elem(s)->0).meta.end_pos, (last_lined_elem(s)->0).tag),
                ..half
            }),
        decreases j,
    {
        proof {
            assert(s.take(j as int).last() == elem_model::<B>(elems@[j - 1]));
            assert(s.take(j as int).drop_last() =~= s.take(j - 1));
        }
        let e = &elems[j - 1];
        if let Some(line) = gc_end_line(&e.meta, e.tag) {
            meta.end_line = Some(line);
            meta.end_column = gc_end_column(&e.meta, e.tag);
            meta.end_pos = gc_end(&e.meta, e.tag);
            ended = true;
        }
        j = j - 1;
    }
    proof {
        assert(s.take(0) =~= Seq::empty());
    }
    meta
}

/// The span after one more element.
pub open spec fn observed_elem<M>(c: ContainerSpan, e: ElemModel<M>) -> ContainerSpan {
    match e.tag {
        GTag::Token => tree_builder::observed(c, e.meta),
        GTag::Tree => tree_builder::observed_tree(c, e.meta),
        GTag::Absent => c,
    }
}

/// The span after a list of elements.
pub open spec fn observed_elems<M>(c: ContainerSpan, s: Seq<ElemModel<M>>) -> ContainerSpan
    decreases s.len(),
{
    if s.len() == 0 {
        c
    } else {
        observed_elem(observed_elems(c, s.drop_last()), s.last())
    }
}

fn observe_gelem<'i, B: OutputBuilder<'i>>(c: &mut ContainerSpan, e: &GElem<B::Value>)
    ensures
        *final(c) == observed_elem(*old(c), elem_model::<B>(*e)),
{
    match e.tag {
        GTag::Token => c.observe(e.meta),
        GTag::Tree => c.observe_meta(&e.meta),
        GTag::Absent => {},
    }
}

fn observe_gelems<'i, B: OutputBuilder<'i>>(c: &mut ContainerSpan, es: &Vec<GElem<B::Value>>)
    ensures
        *final(c) == observed_elems(*old(c), elem_models::<B>(es@)),
{
    let mut i: usize = 0;
    proof {
        assert(elem_models::<B>(es@).take(0) =~= Seq::empty());
    }
    while i < es.len()
        invariant
            i <= es.len(),
            *c == observed_elems(*old(c), elem_models::<B>(es@).take(i as int)),
        decreases es.len() - i,
    {
        observe_gelem::<B>(c, &es[i]);
        proof {
            let s = elem_models::<B>(es@);
            assert(s.take(i + 1).drop_last() =~= s.take(i as int));
            assert(s.take(i + 1).last() == elem_model::<B>(es@[i as int]));
        }
        i = i + 1;
    }
    proof {
        assert(elem_models::<B>(es@).take(es@.len() as int) =~= elem_models::<B>(es@));
    }
}

/// A run of `n` copies of an element.
pub open spec fn copies<M>(e: ElemModel<M>, n: nat) -> Seq<ElemModel<M>> {
    Seq::new(n, |i: int| e)
}

/// The elements that the position `pos` of `rule` gives.
pub open spec fn slot_elems<M>(rule: symbols::RuleModel, pos: int, slot: GSlotModel<M>) -> Seq<
    ElemModel<M>,
> {
    match slot {
        GSlotModel::Value(e) => if e.tag is Token && !symbols::keeps_token(rule, pos) {
            Seq::empty()
        } else {
            seq![e]
        },
        GSlotModel::Inline(es) => es,
    }
}

/// The elements that the positions of `rule` give, with the absent-optional
/// elements that stand before each.
pub open spec fn kept_elems<M>(
    rule: symbols::RuleModel,
    slots: Seq<GSlotModel<M>>,
    absent: ElemModel<M>,
) -> Seq<ElemModel<M>>
    decreases slots.len(),
{
    if slots.len() == 0 {
        Seq::empty()
    } else {
        let i = slots.len() - 1;
        kept_elems(rule, slots.drop_last(), absent) + copies(absent, symbols::nones_at(rule, i))
            + slot_elems(rule, i, slots.last())
    }
}

/// The span that the positions cover, kept or not.
pub open spec fn gslots_span<M>(slots: Seq<GSlotModel<M>>) -> ContainerSpan
    decreases slots.len(),
{
    if slots.len() == 0 {
        tree_builder::no_span()
    } else {
        let c = gslots_span(slots.drop_last());
        match slots.last() {
            GSlotModel::Value(e) => observed_elem(c, e),
            GSlotModel::Inline(es) => observed_elems(c, es),
        }
    }
}

/// The elements whose value is not dropped.
pub open spec fn undiscarded<M>(s: Seq<ElemModel<M>>, drops: spec_fn(M) -> bool) -> Seq<
    ElemModel<M>,
>
    decreases s.len(),
{
    if s.len() == 0 {
        Seq::empty()
    } else if drops(s.last().value) {
        undiscarded(s.drop_last(), drops)
    } else {
        undiscarded(s.drop_last(), drops).push(s.last())
    }
}

/// The element of an absent optional.
pub open spec fn absent_elem<'i, B: OutputBuilder<'i>>(
    config: B::Config,
    ctx: ContextModel,
) -> ElemModel<B::Model> {
    ElemModel {
        value: B::placeholder_model(config, ctx),
        meta: tree::blank_meta(),
        tag: GTag::Absent,
    }
}

/// All the elements of a reduction, dropped ones left out.
pub open spec fn reduction_elems<'i, B: OutputBuilder<'i>>(
    config: B::Config,
    rule: symbols::RuleModel,
    slots: Seq<GSlotModel<B::Model>>,
    ctx: ContextModel,
) -> Seq<ElemModel<B::Model>> {
    let absent = absent_elem::<B>(config, ctx);
    undiscarded(
        kept_elems(rule, slots, absent) + copies(absent, rule.placeholder_count as nat) + copies(
            absent,
            symbols::nones_at(rule, rule.expansion.len() as int),
        ),
        |v: B::Model| B::discard_model(config, v),
    )
}

/// The values of a list of elements.
pub open spec fn elem_values<M>(s: Seq<ElemModel<M>>) -> Seq<M> {
    Seq::new(s.len(), |i: int| s[i].value)
}

/// The value of a reduction by rule number `idx`.
pub open spec fn reduced<'i, B: OutputBuilder<'i>>(
    config: B::Config,
    idx: nat,
    slots: Seq<GSlotModel<B::Model>>,
    ctx: ContextModel,
    propagate: bool,
) -> GSlotModel<B::Model> {
    let rule = ctx.rules[idx as int];
    let all = reduction_elems::<B>(config, rule, slots, ctx);
    if rule.transparent {
        GSlotModel::Inline(all)
    } else if rule.expand1 && rule.alias is None && all.len() == 1 {
        if all[0].tag is Absent {
            GSlotModel::Inline(all)
        } else {
            GSlotModel::Value(all[0])
        }
    } else {
        let m = elems_meta(all);
        let meta = if propagate {
            tree_builder::widened(gslots_span(slots), m)
        } else {
            m
        };
        GSlotModel::Value(
            ElemModel {
                value: B::reduce_model(config, idx, elem_values(all), meta, ctx),
                meta,
                tag: GTag::Tree,
            },
        )
    }
}

fn push_placeholders<'i, B: OutputBuilder<'i>>(
    kept: &mut Vec<GElem<B::Value>>,
    n: usize,
    builder: &mut B,
    ctx: &OutputContext,
)
    ensures
        final(builder).config() == old(builder).config(),
        elem_models::<B>(final(kept)@) == elem_models::<B>(old(kept)@) + copies(
            absent_elem::<B>(old(builder).config(), ctx@),
            n as nat,
        ),
{
    let mut k: usize = 0;
    let ghost e = absent_elem::<B>(builder.config(), ctx@);
    let ghost given = elem_models::<B>(kept@);
    proof {
        assert(given =~= given + copies(e, 0));
    }
    while k < n
        invariant
            k <= n,
            builder.config() == old(builder).config(),
            e == absent_elem::<B>(old(builder).config(), ctx@),
            elem_models::<B>(kept@) == given + copies(e, k as nat),
        decreases n - k,
    {
        let ghost before = kept@;
        let value = builder.placeholder(ctx);
        kept.push(GElem { value, meta: Meta::blank(), tag: GTag::Absent });
        k = k + 1;
        proof {
            assert(elem_models::<B>(kept@) =~= elem_models::<B>(before).push(e));
            assert(elem_models::<B>(kept@) =~= given + copies(e, k as nat));
        }
    }
}

fn retain_undiscarded<'i, B: OutputBuilder<'i>>(
    kept: Vec<GElem<B::Value>>,
    builder: &B,
) -> (r: Vec<GElem<B::Value>>)
    ensures
        elem_models::<B>(r@) == undiscarded(
            elem_models::<B>(kept@),
            |v: B::Model| B::discard_model(builder.config(), v),
        ),
{
    let ghost s = kept@;
    let ghost m = elem_models::<B>(s);
    let ghost drops = |v: B::Model| B::discard_model(builder.config(), v);
    let mut r: Vec<GElem<B::Value>> = Vec::new();
    proof {
        assert(m.take(0) =~= Seq::empty());
        assert(elem_models::<B>(r@) =~= Seq::empty());
    }
    for e in it: kept
        invariant
            it.seq() == s,
            m == elem_models::<B>(s),
            drops == (|v: B::Model| B::discard_model(builder.config(), v)),
            elem_models::<B>(r@) == undiscarded(m.take(it.index()), drops),
    {
        let ghost before = r@;
        proof {
            assert(m.take(it.index() + 1).drop_last() =~= m.take(it.index()));
            assert(m.take(it.index() + 1).last() == elem_model::<B>(e));
        }
        if !builder.is_discard(&e.value) {
            r.push(e);
            proof {
                assert(elem_models::<B>(r@) =~= elem_models::<B>(before).push(elem_model::<B>(e)));
            }
        }
    }
    proof {
        assert(m.take(m.len() as int) =~= m);
    }
    r
}

fn values_of<'i, B: OutputBuilder<'i>>(kept: Vec<GElem<B::Value>>) -> (r: Vec<B::Value>)
    ensures
        Seq::new(r@.len(), |i: int| B::model(r@[i])) == elem_values(elem_models::<B>(kept@)),
{
    let ghost s = kept@;
    let mut r: Vec<B::Value> = Vec::new();
    for e in it: kept
        invariant
            it.seq() == s,
            r@.len() == it.index(),
            forall|i: int| 0 <= i < r@.len() ==> #[trigger] r@[i] == s[i].value,
    {
        r.push(e.value);
    }
    proof {
        assert(Seq::new(r@.len(), |i: int| B::model(r@[i])) =~= elem_values(elem_models::<B>(s)));
    }
    r
}

/// Shapes a reduction over the values of an output builder.
pub fn shape_reduction<'i, B: OutputBuilder<'i>>(
    rule_idx: usize,
    child_slots: Vec<GSlot<B::Value>>,
    builder: &mut B,
    ctx: &OutputContext,
    propagate: bool,
) -> (r: GSlot<B::Value>)
    requires
        rule_idx < ctx@.rules.len(),
    ensures
        final(builder).config() == old(builder).config(),
        gslot_model::<B>(r) == reduced::<B>(
            old(builder).config(),
            rule_idx as nat,
            gslot_models::<B>(child_slots@),
            ctx@,
            propagate,
        ),
{
    let rule = &ctx.rules[rule_idx];
    let ghost config = builder.config();
    let ghost model = ctx@.rules[rule_idx as int];
    let ghost absent = absent_elem::<B>(config, ctx@);
    let ghost cs = child_slots@;
    let ghost slots = gslot_models::<B>(cs);
    let mut kept: Vec<GElem<B::Value>> = Vec::new();
    let mut container = ContainerSpan::new();
    let n_slots: usize = child_slots.len();
    let mut i: usize = 0;
    proof {
        assert(slots.take(0) =~= Seq::empty());
        assert(elem_models::<B>(kept@) =~= Seq::empty());
    }
    for slot in it: child_slots
        invariant
            it.seq() == cs,
            cs.len() == n_slots,
            i == it.index(),
            rule_idx < ctx@.rules.len(),
            rule@ == model,
            builder.config() == config,
            absent == absent_elem::<B>(config, ctx@),
            slots == gslot_models::<B>(cs),
            elem_models::<B>(kept@) == kept_elems(model, slots.take(i as int), absent),
            container == (if propagate {
                gslots_span(slots.take(i as int))
            } else {
                tree_builder::no_span()
            }),
    {
        proof {
            assert(slots.take(i + 1).drop_last() =~= slots.take(i as int));
            assert(slots.take(i + 1).last() == gslot_model::<B>(slot));
        }
        push_placeholders::<B>(&mut kept, rule.nones_before(i), builder, ctx);
        let ghost base = elem_models::<B>(kept@);
        match slot {
            GSlot::Value(e) => {
                if propagate {
                    observe_gelem::<B>(&mut container, &e);
                }
                let filtered = e.tag == GTag::Token && !rule.keep_token(i);
                if !filtered {
                    kept.push(e);
                    proof {
                        assert(elem_models::<B>(kept@) =~= base + seq![elem_model::<B>(e)]);
                    }
                } else {
                    proof {
                        assert(base =~= base + Seq::<ElemModel<B::Model>>::empty());
                    }
                }
            },
            GSlot::Inline(es) => {
                if propagate {
                    observe_gelems::<B>(&mut container, &es);
                }
                let mut rest = es;
                let ghost spliced = rest@;
                kept.append(&mut rest);
                proof {
                    assert(elem_models::<B>(kept@) =~= base + elem_models::<B>(spliced));
                }
            },
        }
        i = i + 1;
    }
    proof {
        assert(slots.take(slots.len() as int) =~= slots);
    }
    push_placeholders::<B>(&mut kept, rule.options.placeholder_count, builder, ctx);
    push_placeholders::<B>(&mut kept, rule.nones_before(rule.expansion.len()), builder, ctx);
    let mut kept = retain_undiscarded::<B>(kept, builder);
    let ghost all = elem_models::<B>(kept@);
    if rule.transparent {
        GSlot::Inline(kept)
    } else if rule.options.expand1 && rule.alias.is_none() && kept.len() == 1 {
        match kept[0].tag {
            GTag::Absent => GSlot::Inline(kept),
            _ => {
                let e = kept.swap_remove(0);
                GSlot::Value(e)
            },
        }
    } else {
        let mut node_meta = node_meta_from_elems::<B>(&kept);
        if propagate {
            container.widen_meta(&mut node_meta);
        }
        let values = values_of::<B>(kept);
        let value = builder.reduce(rule_idx, values, &node_meta, ctx);
        GSlot::Value(GElem { value, meta: node_meta, tag: GTag::Tree })
    }
}

/// The value that a root slot stands for, if it is a single one.
pub open spec fn accepted<M>(slot: GSlotModel<M>) -> Option<M> {
    match slot {
        GSlotModel::Value(e) => Some(e.value),
        GSlotModel::Inline(es) => if es.len() == 1 {
            Some(es[0].value)
        } else {
            None
        },
    }
}

/// Takes the value out of a root slot.
pub fn accept_value<'i, B: OutputBuilder<'i>>(slot: GSlot<B::Value>) -> (r: Option<B::Value>)
    ensures
        match r {
            Some(v) => accepted(gslot_model::<B>(slot)) == Some(B::model(v)),
            None => accepted(gslot_model::<B>(slot)) is None,
        },
{
    match slot {
        GSlot::Value(e) => Some(e.value),
        GSlot::Inline(es) => {
            let mut es = es;
            if es.len() == 1 {
                let e = es.swap_remove(0);
                Some(e.value)
            } else {
                None
            }
        },
    }
}

// ---------------------------------------------------------------------------
// The two shapers agree

/// Whether an element carries the span and kind of the node that it holds.
pub open spec fn faithful(e: ElemModel<tree::Node>) -> bool {
    match e.value {
        tree::Node::Token(t) => e.tag is Token && e.meta == tree::token_meta(t),
        tree::Node::Tree { data, children, meta } => e.tag is Tree && e.meta == meta,
        tree::Node::Absent => e.tag is Absent,
    }
}

/// Whether the tags of a slot tell what its values are.
pub open spec fn faithful_slot(s: GSlotModel<tree::Node>) -> bool {
    match s {
        GSlotModel::Value(e) => faithful(e) && !(e.value is Absent),
        GSlotModel::Inline(es) => forall|i: int| 0 <= i < es.len() ==> faithful(#[trigger] es[i]),
    }
}

/// The tree slot that a generic slot over nodes stands for.
pub open spec fn tree_slot(s: GSlotModel<tree::Node>) -> tree_builder::SlotModel {
    match s {
        GSlotModel::Value(e) => tree_builder::SlotModel::Value(e.value),
        GSlotModel::Inline(es) => tree_builder::SlotModel::Inline(elem_values(es)),
    }
}

/// Slots of tree nodes as the tree builder has them.
pub open spec fn tree_slots(s: Seq<GSlotModel<tree::Node>>) -> Seq<tree_builder::SlotModel> {
    Seq::new(s.len(), |i: int| tree_slot(s[i]))
}

proof fn lemma_first_agrees(s: Seq<ElemModel<tree::Node>>)
    requires
        forall|i: int| 0 <= i < s.len() ==> faithful(#[trigger] s[i]),
    ensures
        match first_lined_elem(s) {
            Some(e) => faithful(e) && tree_builder::first_lined(elem_values(s)) == Some(e.value),
            None => tree_builder::first_lined(elem_values(s)) is None,
        },
    decreases s.len(),
{
    if s.len() > 0 {
        assert(faithful(s[0]));
        assert(elem_values(s).drop_first() =~= elem_values(s.drop_first()));
        lemma_first_agrees(s.drop_first());
    }
}

proof fn lemma_last_agrees(s: Seq<ElemModel<tree::Node>>)
    requires
        forall|i: int| 0 <= i < s.len() ==> faithful(#[trigger] s[i]),
    ensures
        match last_lined_elem(s) {
            Some(e) => faithful(e) && tree_builder::last_lined(elem_values(s)) == Some(e.value),
            None => tree_builder::last_lined(elem_values(s)) is None,
        },
    decreases s.len(),
{
    if s.len() > 0 {
        assert(faithful(s.last()));
        assert(elem_values(s).drop_last() =~= elem_values(s.drop_last()));
        lemma_last_agrees(s.drop_last());
    }
}

proof fn lemma_meta_agrees(s: Seq<ElemModel<tree::Node>>)
    requires
        forall|i: int| 0 <= i < s.len() ==> faithful(#[trigger] s[i]),
    ensures
        elems_meta(s) == tree_builder::children_meta(elem_values(s)),
{
    lemma_first_agrees(s);
    lemma_last_agrees(s);
}

proof fn lemma_observed_elems_agree(c: ContainerSpan, s: Seq<ElemModel<tree::Node>>)
    requires
        forall|i: int| 0 <= i < s.len() ==> faithful(#[trigger] s[i]),
    ensures
        observed_elems(c, s) == tree_builder::observed_nodes(c, elem_values(s)),
    decreases s.len(),
{
    if s.len() > 0 {
        assert(faithful(s.last()));
        assert(elem_values(s).drop_last() =~= elem_values(s.drop_last()));
        lemma_observed_elems_agree(c, s.drop_last());
    }
}

proof fn lemma_span_agrees(slots: Seq<GSlotModel<tree::Node>>)
    requires
        forall|i: int| 0 <= i < slots.len() ==> faithful_slot(#[trigger] slots[i]),
    ensures
        gslots_span(slots) == tree_builder::slots_span(tree_slots(slots)),
    decreases slots.len(),
{
    if slots.len() > 0 {
        assert(faithful_slot(slots.last()));
        assert(tree_slots(slots).drop_last() =~= tree_slots(slots.drop_last()));
        lemma_span_agrees(slots.drop_last());
        match slots.last() {
            GSlotModel::Value(e) => {},
            GSlotModel::Inline(es) => {
                lemma_observed_elems_agree(gslots_span(slots.drop_last()), es);
            },
        }
    }
}

proof fn lemma_kept_agrees(
    rule: symbols::RuleModel,
    slots: Seq<GSlotModel<tree::Node>>,
    absent: ElemModel<tree::Node>,
)
    requires
        absent.value is Absent,
        absent.tag is Absent,
        forall|i: int| 0 <= i < slots.len() ==> faithful_slot(#[trigger] slots[i]),
    ensures
        elem_values(kept_elems(rule, slots, absent)) == tree_builder::kept_children(
            rule,
            tree_slots(slots),
        ),
        forall|i: int|
            0 <= i < kept_elems(rule, slots, absent).len() ==> faithful(
                #[trigger] kept_elems(rule, slots, absent)[i],
            ),
    decreases slots.len(),
{
    if slots.len() > 0 {
        let n = slots.len() - 1;
        assert(faithful_slot(slots.last()));
        assert(tree_slots(slots).drop_last() =~= tree_slots(slots.drop_last()));
        lemma_kept_agrees(rule, slots.drop_last(), absent);
        let a = kept_elems(rule, slots.drop_last(), absent);
        let b = copies(absent, symbols::nones_at(rule, n));
        let c = slot_elems(rule, n, slots.last());
        assert(elem_values(b) =~= tree_builder::absents(symbols::nones_at(rule, n)));
        assert(elem_values(c) =~= tree_builder::slot_children(rule, n, tree_slot(slots.last())));
        assert(elem_values(a + b + c) =~= elem_values(a) + elem_values(b) + elem_values(c));
        assert forall|i: int| 0 <= i < (a + b + c).len() implies faithful(
            #[trigger] (a + b + c)[i],
        ) by {
            if i < a.len() {
                assert((a + b + c)[i] == a[i]);
            } else if i < a.len() + b.len() {
                assert((a + b + c)[i] == absent);
            } else {
                assert((a + b + c)[i] == c[i - a.len() - b.len()]);
            }
        }
    } else {
        assert(elem_values(kept_elems(rule, slots, absent)) =~= Seq::empty());
    }
}

/// Where nothing is dropped, everything stays.
pub proof fn lemma_nothing_discarded(s: Seq<ElemModel<tree::Node>>, drops: spec_fn(tree::Node) -> bool)
    requires
        forall|v: tree::Node| !(#[trigger] drops(v)),
    ensures
        undiscarded(s, drops) == s,
    decreases s.len(),
{
    if s.len() > 0 {
        lemma_nothing_discarded(s.drop_last(), drops);
        assert(!drops(s.last().value));
        assert(s.drop_last().push(s.last()) =~= s);
    } else {
        assert(undiscarded(s, drops) =~= s);
    }
}

/// Shaping a reduction through the tree builder's callbacks gives the value
/// that assembling the same slots gives, and the slot that comes out carries
/// its node's span and kind. So a parse that streams through an output builder
/// and one that assembles slots build the same tree.
pub proof fn shaping_agrees(
    idx: nat,
    slots: Seq<GSlotModel<tree::Node>>,
    ctx: ContextModel,
    propagate: bool,
)
    requires
        idx < ctx.rules.len(),
        forall|i: int| 0 <= i < slots.len() ==> faithful_slot(#[trigger] slots[i]),
    ensures
        tree_slot(reduced::<TreeOutputBuilder>(propagate, idx, slots, ctx, propagate))
            == tree_builder::assembled(ctx.rules[idx as int], propagate, tree_slots(slots)),
        faithful_slot(reduced::<TreeOutputBuilder>(propagate, idx, slots, ctx, propagate)),
{
    let rule = ctx.rules[idx as int];
    let absent = absent_elem::<TreeOutputBuilder>(propagate, ctx);
    let drops = |v: tree::Node| TreeOutputBuilder::discard_model(propagate, v);
    let a = kept_elems(rule, slots, absent);
    let b = copies(absent, rule.placeholder_count as nat);
    let c = copies(absent, symbols::nones_at(rule, rule.expansion.len() as int));
    lemma_kept_agrees(rule, slots, absent);
    lemma_nothing_discarded(a + b + c, drops);
    let all = reduction_elems::<TreeOutputBuilder>(propagate, rule, slots, ctx);
    assert(all == a + b + c);
    let nodes = tree_builder::kept_children(rule, tree_slots(slots))
        + tree_builder::trailing_absents(rule);
    assert(elem_values(all) =~= nodes);
    assert forall|i: int| 0 <= i < all.len() implies faithful(#[trigger] all[i]) by {
        if i < a.len() {
            assert(all[i] == a[i]);
        } else {
            assert(all[i] == absent);
        }
    }
    lemma_meta_agrees(all);
    lemma_span_agrees(slots);
    if all.len() == 1 {
        assert(faithful(all[0]));
        assert(nodes[0] == all[0].value);
    }
    assert(tree_builder::widened(tree_builder::no_span(), elems_meta(all)) == elems_meta(all));
}

} // verus!
