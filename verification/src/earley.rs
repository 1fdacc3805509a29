//! The Earley parser: every context-free grammar, ambiguous ones included.

use vstd::prelude::*;
use crate::analysis;
use crate::analysis::{eps_only_set, nullable_set};
use crate::cyk;
use crate::cyk::body_of;
use crate::earley_chart;
use crate::earley_chart::EarleyParser;
use crate::earley_forest;
use crate::earley_forest::{Forest, NodeKey};
use crate::earley_laws;
use crate::earley_paths;
use crate::earley_rank;
use crate::earley_recognizer;
use crate::earley_sound;
use crate::earley_tree;
use crate::earley_tree::Transformer;
use crate::error;
use crate::error::ParseError;
use crate::lalr;
use crate::lalr::resolve_start;
use crate::perf;
use crate::perf::Counters;
use crate::symbols;
use crate::symbols::{CompiledGrammar, SymbolId};
use crate::text;
use crate::tree;
use crate::tree::{ParseTree, Token, Tree};
use crate::tree_builder;
use crate::tree_builder::root_slot_to_parse_tree;

verus! {

/// The parse result that the value of the root stands for: a value of its own,
/// or a tree named after the start symbol.
pub open spec fn rooted(value: tree_builder::SlotModel, name: Seq<char>) -> tree::Node {
    match tree_builder::root_node(value) {
        Some(n) => n,
        None => {
            let cs = value->Inline_0;
            tree::Node::Tree { data: name, children: cs, meta: tree_builder::children_meta(cs) }
        },
    }
}

/// The result of turning a forest into a tree.
pub open spec fn tree_of(
    g: CompiledGrammar,
    f: earley_forest::ForestModel,
    root: usize,
    start: SymbolId,
    resolve: bool,
    term_priority: bool,
) -> Result<tree::Node, error::ErrorModel> {
    match earley_tree::transformed(
        earley_tree::walk_of(g, f, resolve, term_priority),
        root as int,
    ) {
        Some(v) => Ok(rooted(v, symbols::name_of(g.symbols@, start))),
        None => Err(error::unexpected_eof_model(0, 0, Seq::empty())),
    }
}

/// Whether `r` is the result of parsing the tokens from a start symbol: the
/// tree of their forest, or why there is none.
pub open spec fn tree_result(
    p: EarleyParser,
    start: SymbolId,
    tokens: Seq<tree::TokenModel>,
    resolve: bool,
    r: Result<tree::Node, error::ErrorModel>,
) -> bool {
    ||| exists|f: earley_forest::ForestModel, root: usize|
        #[trigger] earley_recognizer::forest_of(p.context(), start, tokens, f, root) && r
            == tree_of(p.grammar, f, root, start, resolve, false)
    ||| match r {
        Ok(_) => false,
        Err(e) => earley_recognizer::chart_error(p.context(), start, tokens, e),
    }
}

/// Whether `r` is the result of parsing tokens: the end of input among them is
/// left out, and a start symbol that is not configured is reported. The sentences
/// alone have a tree, whether one derivation is chosen or all are shown.
pub open spec fn parse_result(
    p: EarleyParser,
    tokens: Seq<tree::TokenModel>,
    start: Option<Seq<char>>,
    resolve: bool,
    r: Result<tree::Node, error::ErrorModel>,
) -> bool {
    match lalr::resolved_start(p.grammar.start@, p.grammar.symbols@, start) {
        Some(s) => {
            &&& tree_result(p, s, cyk::body(tokens), resolve, r)
            &&& r is Ok <==> is_sentence(p, s, cyk::body(tokens))
        },
        None => r == Err::<tree::Node, error::ErrorModel>(
            error::unexpected_eof_model(
                0,
                0,
                lalr::names_of(p.grammar.symbols@, p.grammar.start@),
            ),
        ),
    }
}

/// Whether the tokens are a sentence of the grammar.
pub open spec fn is_sentence(
    p: EarleyParser,
    start: SymbolId,
    tokens: Seq<tree::TokenModel>,
) -> bool {
    analysis::derives(
        p.grammar.models(),
        p.grammar.terminal_count as nat,
        start,
        cyk::types_of(tokens),
    )
}

/// Whether tokens are taken from the start symbol that is asked for: it is
/// configured and derives them; the end of input among them is left out.
pub open spec fn is_recognized(
    p: EarleyParser,
    tokens: Seq<tree::TokenModel>,
    start: Option<Seq<char>>,
) -> bool {
    match lalr::resolved_start(p.grammar.start@, p.grammar.symbols@, start) {
        Some(s) => is_sentence(p, s, cyk::body(tokens)),
        None => false,
    }
}

/// Counters with the work of a walk over a forest.
pub open spec fn walk_counted(c: Counters, w: earley_rank::Work) -> Counters {
    Counters {
        explicit_prefix_copies: perf::counted(c.explicit_prefix_copies, w.copies as nat),
        explicit_node_children: perf::counted(c.explicit_node_children, w.children as nat),
        explicit_assemble_children: perf::counted(
            c.explicit_assemble_children,
            w.assembled as nat,
        ),
        explicit_derivations: perf::counted(c.explicit_derivations, w.derivations as nat),
        semantic_reduce_calls: perf::counted(c.semantic_reduce_calls, w.built.reductions as nat),
        tree_nodes_built: perf::counted(c.tree_nodes_built, w.built.nodes as nat),
        token_value_string_bytes: perf::counted(
            c.token_value_string_bytes,
            w.built.bytes as nat,
        ),
        ..c
    }
}

/// Whether `d` is `c` with the work counted that recognizing the tokens takes.
pub open spec fn recognition_counted(
    p: EarleyParser,
    tokens: Seq<tree::TokenModel>,
    start: Option<Seq<char>>,
    c: Counters,
    d: Counters,
) -> bool {
    let g = p.context();
    let body = cyk::body(tokens);
    match lalr::resolved_start(p.grammar.start@, p.grammar.symbols@, start) {
        None => d == c,
        Some(s) => if is_sentence(p, s, body) {
            exists|f: earley_forest::ForestModel, root: usize|
                #[trigger] earley_recognizer::forest_of(g, s, body, f, root)
                    && earley_recognizer::forest_counted(g, s, body, f, c, d)
        } else {
            earley_recognizer::failure_counted(g, s, body, c, d)
        },
    }
}

/// Whether `d` is `c` with the work counted that parsing the tokens takes: that of
/// recognizing them, and that of the walk over their forest.
pub open spec fn parse_counted_as(
    p: EarleyParser,
    tokens: Seq<tree::TokenModel>,
    start: Option<Seq<char>>,
    resolve: bool,
    c: Counters,
    d: Counters,
) -> bool {
    let g = p.context();
    let body = cyk::body(tokens);
    match lalr::resolved_start(p.grammar.start@, p.grammar.symbols@, start) {
        None => d == c,
        Some(s) => if is_sentence(p, s, body) {
            exists|f: earley_forest::ForestModel, root: usize, e: Counters|
                #[trigger] earley_recognizer::forest_of(g, s, body, f, root)
                    && #[trigger] earley_recognizer::forest_counted(g, s, body, f, c, e) && d
                    == walk_counted(
                    e,
                    earley_tree::walk_work(
                        earley_tree::walk_of(p.grammar, f, resolve, false),
                        root as int,
                    ),
                )
        } else {
            earley_recognizer::failure_counted(g, s, body, c, d)
        },
    }
}

/// Tokens are recognized exactly where they are parsed, whether one derivation is
/// chosen or all are shown.
pub proof fn recognized_where_parsed(
    p: EarleyParser,
    tokens: Seq<tree::TokenModel>,
    start: Option<Seq<char>>,
    resolve: bool,
    r: Result<tree::Node, error::ErrorModel>,
)
    requires
        parse_result(p, tokens, start, resolve, r),
    ensures
        r is Ok <==> is_recognized(p, tokens, start),
{
}

proof fn lemma_body_again(tokens: Seq<tree::TokenModel>)
    ensures
        cyk::body(cyk::body(tokens)) == cyk::body(tokens),
    decreases tokens.len(),
{
    if tokens.len() > 0 {
        let front = cyk::body(tokens.drop_last());
        lemma_body_again(tokens.drop_last());
        if tokens.last().type_id != SymbolId::spec_end() {
            assert(front.push(tokens.last()).drop_last() =~= front);
        }
    }
}

/// Tokens that mark the end of input make no difference: what is recognized and
/// what is parsed stays the same without them.
pub proof fn end_of_input_makes_no_difference(
    p: EarleyParser,
    tokens: Seq<tree::TokenModel>,
    start: Option<Seq<char>>,
    resolve: bool,
    r: Result<tree::Node, error::ErrorModel>,
)
    ensures
        is_recognized(p, tokens, start) == is_recognized(p, cyk::body(tokens), start),
        parse_result(p, tokens, start, resolve, r) == parse_result(
            p,
            cyk::body(tokens),
            start,
            resolve,
            r,
        ),
{
    lemma_body_again(tokens);
}

impl EarleyParser {
    /// Whether the sets are those of the grammar.
    pub open spec fn wf(&self) -> bool {
        &&& self.grammar.wf()
        &&& earley_sound::context_true(self.context())
        &&& forall|s: SymbolId|
            s.ix() < self.nullable@.len() ==> #[trigger] self.nullable@[s.ix() as int]
                == analysis::nullable(
                self.grammar.models(),
                self.grammar.terminal_count as nat,
                s,
            )
    }

    /// A parser for a grammar.
    pub fn new(grammar: CompiledGrammar) -> (r: EarleyParser)
        requires
            grammar.wf(),
        ensures
            r.wf(),
            r.grammar == grammar,
            r.shortcuts,
    {
        let nullable = nullable_set(&grammar);
        let eps_only = eps_only_set(&grammar);
        let n_rules: usize = grammar.rules.len();
        let r = EarleyParser { grammar, nullable, eps_only, shortcuts: true };
        proof {
            let g = r.context();
            assert(g.rules.len() == n_rules);
            assert forall|i: int| 0 <= i < g.rules.len() implies g.nt <= (
            #[trigger] g.rules[i]).origin.ix() < g.n && g.rules[i].expansion.len()
                <= usize::MAX by {
                assert(g.rules[i].expansion.len() == r.grammar.rules@[i].expansion.len());
            }
        }
        r
    }

    pub(crate) fn start_id(&self, start: Option<&str>) -> (r: Result<SymbolId, ParseError>)
        requires
            self.wf(),
        ensures
            match r {
                Ok(id) => lalr::resolved_start(
                    self.grammar.start@,
                    self.grammar.symbols@,
                    lalr::opt_text(start),
                ) == Some(id) && self.grammar.terminal_count <= id.ix()
                    < self.grammar.symbols@.len(),
                Err(e) => lalr::resolved_start(
                    self.grammar.start@,
                    self.grammar.symbols@,
                    lalr::opt_text(start),
                ) is None && e@ == error::unexpected_eof_model(
                    0,
                    0,
                    lalr::names_of(self.grammar.symbols@, self.grammar.start@),
                ),
            },
    {
        let r = resolve_start(&self.grammar.start, &self.grammar.symbols, start);
        proof {
            if let Ok(id) = r {
                assert(self.grammar.start@.contains(id)) by {
                    if start is None {
                        assert(self.grammar.start@[0] == id);
                    }
                }
                let k = choose|k: int|
                    0 <= k < self.grammar.start@.len() && self.grammar.start@[k] == id;
                assert(self.grammar.terminal_count <= self.grammar.start@[k].ix());
            }
        }
        r
    }

    /// Whether the tokens are a sentence: the grammar derives them from the
    /// start symbol that is asked for.
    pub fn recognize(&self, tokens: &[Token], start: Option<&str>) -> (r: bool)
        requires
            self.wf(),
        ensures
            r == is_recognized(*self, tree::token_models(tokens@), lalr::opt_text(start)),
    {
        let mut c = Counters::new();
        self.recognize_with(tokens, start, &mut c)
    }

    /// The same; the work is counted. The switch of the counters decides whether
    /// the parser takes its shortcuts, from now on.
    pub fn recognize_counted(
        &mut self,
        tokens: &[Token],
        start: Option<&str>,
        c: &mut Counters,
    ) -> (r: bool)
        requires
            old(self).wf(),
        ensures
            final(self).wf(),
            *final(self) == (EarleyParser { shortcuts: !old(c).leo_disabled, ..*old(self) }),
            r == is_recognized(*final(self), tree::token_models(tokens@), lalr::opt_text(start)),
            recognition_counted(
                *final(self),
                tree::token_models(tokens@),
                lalr::opt_text(start),
                *old(c),
                *final(c),
            ),
    {
        self.shortcuts = !c.leo_disabled;
        self.recognize_with(tokens, start, c)
    }

    fn recognize_with(&self, tokens: &[Token], start: Option<&str>, c: &mut Counters) -> (r: bool)
        requires
            self.wf(),
        ensures
            r == is_recognized(*self, tree::token_models(tokens@), lalr::opt_text(start)),
            recognition_counted(
                *self,
                tree::token_models(tokens@),
                lalr::opt_text(start),
                *old(c),
                *final(c),
            ),
    {
        let start_id = match self.start_id(start) {
            Ok(s) => s,
            Err(_) => {
                return false;
            },
        };
        let toks = body_of(tokens);
        let n: usize = toks.len();
        let ghost models = tree::token_models(toks@);
        match self.build_chart(&toks, start_id, c) {
            Ok((f, root)) => {
                proof {
                    earley_laws::forest_is_of_a_sentence(
                        self.context(),
                        start_id,
                        models,
                        f@,
                        root,
                    );
                }
                true
            },
            Err(e) => {
                proof {
                    earley_laws::error_is_of_no_sentence(
                        self.context(),
                        start_id,
                        models,
                        e@,
                    );
                }
                false
            },
        }
    }

    /// Parses tokens into a tree. Where more than one derivation exists,
    /// `resolve` chooses one; otherwise the tree holds them all.
    pub fn parse(&self, tokens: &[Token], start: Option<&str>, resolve: bool) -> (r: Result<
        ParseTree,
        ParseError,
    >)
        requires
            self.wf(),
        ensures
            parse_result(
                *self,
                tree::token_models(tokens@),
                lalr::opt_text(start),
                resolve,
                lalr::parsed(r),
            ),
    {
        let mut c = Counters::new();
        self.parse_with(tokens, start, resolve, &mut c)
    }

    /// The same; the work is counted. The switch of the counters decides whether
    /// the parser takes its shortcuts, from now on.
    pub fn parse_counted(
        &mut self,
        tokens: &[Token],
        start: Option<&str>,
        resolve: bool,
        c: &mut Counters,
    ) -> (r: Result<ParseTree, ParseError>)
        requires
            old(self).wf(),
        ensures
            final(self).wf(),
            *final(self) == (EarleyParser { shortcuts: !old(c).leo_disabled, ..*old(self) }),
            parse_result(
                *final(self),
                tree::token_models(tokens@),
                lalr::opt_text(start),
                resolve,
                lalr::parsed(r),
            ),
            parse_counted_as(
                *final(self),
                tree::token_models(tokens@),
                lalr::opt_text(start),
                resolve,
                *old(c),
                *final(c),
            ),
    {
        self.shortcuts = !c.leo_disabled;
        self.parse_with(tokens, start, resolve, c)
    }

    fn parse_with(
        &self,
        tokens: &[Token],
        start: Option<&str>,
        resolve: bool,
        c: &mut Counters,
    ) -> (r: Result<ParseTree, ParseError>)
        requires
            self.wf(),
        ensures
            parse_result(
                *self,
                tree::token_models(tokens@),
                lalr::opt_text(start),
                resolve,
                lalr::parsed(r),
            ),
            parse_counted_as(
                *self,
                tree::token_models(tokens@),
                lalr::opt_text(start),
                resolve,
                *old(c),
                *final(c),
            ),
    {
        let start_id = match self.start_id(start) {
            Ok(s) => s,
            Err(e) => {
                return Err(e);
            },
        };
        let toks = body_of(tokens);
        let n: usize = toks.len();
        let ghost models = tree::token_models(toks@);
        match self.build_chart(&toks, start_id, c) {
            Ok((forest, root)) => {
                let ghost built = *c;
                proof {
                    earley_laws::forest_is_of_a_sentence(
                        self.context(),
                        start_id,
                        models,
                        forest@,
                        root,
                    );
                    earley_laws::forest_has_a_tree(
                        self.context(),
                        start_id,
                        models,
                        earley_tree::walk_of(self.grammar, forest@, resolve, false),
                        root,
                    );
                    assert(earley_recognizer::forest_of(
                        self.context(),
                        start_id,
                        models,
                        forest@,
                        root,
                    ));
                    assert(earley_recognizer::forest_counted(
                        self.context(),
                        start_id,
                        models,
                        forest@,
                        *old(c),
                        built,
                    ));
                }
                self.forest_to_tree(forest, root, start_id, resolve, false, c)
            },
            Err(e) => {
                proof {
                    earley_laws::error_is_of_no_sentence(
                        self.context(),
                        start_id,
                        models,
                        e@,
                    );
                }
                Err(e)
            },
        }
    }

    /// Turns a forest into a tree; the work is counted.
    pub(crate) fn forest_to_tree(
        &self,
        forest: Forest,
        root: usize,
        start_id: SymbolId,
        resolve: bool,
        term_priority: bool,
        c: &mut Counters,
    ) -> (r: Result<ParseTree, ParseError>)
        requires
            self.wf(),
            start_id.ix() < self.grammar.symbols@.len(),
            earley_recognizer::forest_sound(self.context(), forest@, root),
        ensures
            lalr::parsed(r) == tree_of(
                self.grammar,
                forest@,
                root,
                start_id,
                resolve,
                term_priority,
            ),
            *final(c) == walk_counted(
                *old(c),
                earley_tree::walk_work(
                    earley_tree::walk_of(self.grammar, forest@, resolve, term_priority),
                    root as int,
                ),
            ),
    {
        let n: usize = forest.nodes.len();
        let tr = Transformer::new(&self.grammar, &forest, resolve, term_priority);
        proof {
            let w = tr.walk();
            assert(w.forest.nodes.len() == n);
            assert forall|i: int| 0 <= i < w.forest.nodes.len() implies
                earley_forest::families_ok(
                w.forest,
                w.rules.len(),
                #[trigger] w.forest.nodes[i],
            ) && w.forest.nodes[i].families.len() <= usize::MAX by {
                assert(w.forest.nodes[i].families.len() == forest.nodes@[i].families.len());
            }
        }
        let (value, work) = tr.transform_counted(root);
        perf::add_explicit_prefix_copies(c, work.copies);
        perf::add_explicit_node_children(c, work.children);
        perf::add_explicit_assemble_children(c, work.assembled);
        c.explicit_derivations = perf::count(c.explicit_derivations, work.derivations);
        work.built.count(c);
        match value {
            None => {
                let r = ParseError::unexpected_eof(0, 0, Vec::new());
                proof {
                    assert(text::texts(Seq::<String>::empty()) =~= Seq::empty());
                }
                Err(r)
            },
            Some(value) => match root_slot_to_parse_tree(value) {
                Ok(t) => Ok(t),
                Err(cs) => {
                    Ok(
                        ParseTree::Tree(
                            Tree::new(self.grammar.symbols.name_owned(start_id), cs),
                        ),
                    )
                },
            },
        }
    }
}

// ---------------------------------------------------------------------------
// Laws

pub(crate) proof fn lemma_closed_once(
    g: earley_chart::Context,
    m: earley_chart::ChartModel,
    i: usize,
    start: SymbolId,
    n1: earley_chart::ChartModel,
    n2: earley_chart::ChartModel,
)
    requires
        earley_recognizer::closed_at(g, m, i, start, n1),
        earley_recognizer::closed_at(g, m, i, start, n2),
    ensures
        n1 == n2,
{
    let w = earley_recognizer::begun(g, m, i as int);
    let (k1, v1) = choose|k: nat, v: earley_recognizer::Work|
        #[trigger] earley_recognizer::work_reaches(g, w, i, start, v, k) && v.stack.len() == 0
            && v.chart == n1 && n1.arena.len() <= usize::MAX;
    let (k2, v2) = choose|k: nat, v: earley_recognizer::Work|
        #[trigger] earley_recognizer::work_reaches(g, w, i, start, v, k) && v.stack.len() == 0
            && v.chart == n2 && n2.arena.len() <= usize::MAX;
    if k1 < k2 {
        assert(earley_recognizer::work_run(g, w, i, start, k1).stack.len() > 0);
    } else if k2 < k1 {
        assert(earley_recognizer::work_run(g, w, i, start, k2).stack.len() > 0);
    }
}

proof fn lemma_closed_with_once(
    g: earley_chart::Context,
    m: earley_chart::ChartModel,
    i: usize,
    start: SymbolId,
    n1: earley_chart::ChartModel,
    n2: earley_chart::ChartModel,
    a: nat,
    b: nat,
)
    requires
        earley_recognizer::closed_with(g, m, i, start, n1, a),
        earley_recognizer::closed_with(g, m, i, start, n2, b),
    ensures
        n1 == n2,
        a == b,
{
    let w = earley_recognizer::begun(g, m, i as int);
    let (k1, v1) = choose|k: nat, v: earley_recognizer::Work|
        #[trigger] earley_recognizer::work_reaches(g, w, i, start, v, k) && v.stack.len() == 0
            && v.chart == n1 && v.scans == a && n1.arena.len() <= usize::MAX;
    let (k2, v2) = choose|k: nat, v: earley_recognizer::Work|
        #[trigger] earley_recognizer::work_reaches(g, w, i, start, v, k) && v.stack.len() == 0
            && v.chart == n2 && v.scans == b && n2.arena.len() <= usize::MAX;
    if k1 < k2 {
        assert(earley_recognizer::work_run(g, w, i, start, k1).stack.len() > 0);
    } else if k2 < k1 {
        assert(earley_recognizer::work_run(g, w, i, start, k2).stack.len() > 0);
    }
}

/// The work that the chart of the first tokens takes is fixed.
pub proof fn chart_work_is_fixed(
    g: earley_chart::Context,
    start: SymbolId,
    tokens: Seq<tree::TokenModel>,
    i: nat,
    m1: earley_chart::ChartModel,
    m2: earley_chart::ChartModel,
    a: nat,
    b: nat,
)
    requires
        earley_recognizer::charted_with(g, start, tokens, i, m1, a),
        earley_recognizer::charted_with(g, start, tokens, i, m2, b),
    ensures
        m1 == m2,
        a == b,
    decreases i,
{
    if i == 0 {
        lemma_closed_with_once(
            g,
            earley_recognizer::started(g, start),
            0,
            start,
            m1,
            m2,
            a,
            b,
        );
    } else {
        let (p1, a1, b1) = choose|p: earley_chart::ChartModel, x: nat, y: nat|
            earley_recognizer::charted_with(g, start, tokens, (i - 1) as nat, p, x)
                && #[trigger] earley_recognizer::follows_with(
                g,
                start,
                tokens,
                i as int,
                p,
                x,
                m1,
                y,
            ) && a == x + y;
        let (p2, a2, b2) = choose|p: earley_chart::ChartModel, x: nat, y: nat|
            earley_recognizer::charted_with(g, start, tokens, (i - 1) as nat, p, x)
                && #[trigger] earley_recognizer::follows_with(
                g,
                start,
                tokens,
                i as int,
                p,
                x,
                m2,
                y,
            ) && b == x + y;
        chart_work_is_fixed(g, start, tokens, (i - 1) as nat, p1, p2, a1, a2);
        let n = earley_recognizer::scan_step(g, p1, tokens[i - 1])->0;
        lemma_closed_with_once(g, n, i as usize, start, m1, m2, b1, b2);
    }
}

/// The chart of the first tokens is fixed.
pub proof fn chart_is_fixed(
    g: earley_chart::Context,
    start: SymbolId,
    tokens: Seq<tree::TokenModel>,
    i: nat,
    m1: earley_chart::ChartModel,
    m2: earley_chart::ChartModel,
)
    requires
        earley_recognizer::charted(g, start, tokens, i, m1),
        earley_recognizer::charted(g, start, tokens, i, m2),
    ensures
        m1 == m2,
    decreases i,
{
    if i == 0 {
        lemma_closed_once(g, earley_recognizer::started(g, start), 0, start, m1, m2);
    } else {
        let j = (i - 1) as nat;
        let p1 = choose|p: earley_chart::ChartModel|
            earley_recognizer::charted(g, start, tokens, j, p)
                && #[trigger] earley_recognizer::follows(g, start, tokens, i as int, p, m1);
        let p2 = choose|p: earley_chart::ChartModel|
            earley_recognizer::charted(g, start, tokens, j, p)
                && #[trigger] earley_recognizer::follows(g, start, tokens, i as int, p, m2);
        chart_is_fixed(g, start, tokens, j, p1, p2);
        let n = earley_recognizer::scan_step(g, p1, tokens[i - 1])->0;
        lemma_closed_once(g, n, i as usize, start, m1, m2);
    }
}

pub(crate) proof fn lemma_loaded_once(
    g: earley_chart::Context,
    m: earley_chart::ChartModel,
    root: usize,
    f1: earley_forest::ForestModel,
    f2: earley_forest::ForestModel,
)
    requires
        earley_paths::loaded(g, m.arena, m.forest, root, f1),
        earley_paths::loaded(g, m.arena, m.forest, root, f2),
    ensures
        f1 == f2,
{
    let from = earley_paths::Loading {
        forest: m.forest,
        stack: seq![root],
        visited: Seq::empty(),
    };
    let (k1, s1) = choose|k: nat, s: earley_paths::Loading|
        #[trigger] earley_paths::load_reaches(g, m.arena, from, s, k) && s.stack.len() == 0
            && s.forest == f1;
    let (k2, s2) = choose|k: nat, s: earley_paths::Loading|
        #[trigger] earley_paths::load_reaches(g, m.arena, from, s, k) && s.stack.len() == 0
            && s.forest == f2;
    if k1 < k2 {
        assert(earley_paths::load_run(g, m.arena, from, k1).stack.len() > 0);
    } else if k2 < k1 {
        assert(earley_paths::load_run(g, m.arena, from, k2).stack.len() > 0);
    }
}

/// The forest of tokens is fixed.
pub proof fn forest_is_fixed(
    g: earley_chart::Context,
    start: SymbolId,
    tokens: Seq<tree::TokenModel>,
    f1: earley_forest::ForestModel,
    root1: usize,
    f2: earley_forest::ForestModel,
    root2: usize,
)
    requires
        earley_recognizer::forest_of(g, start, tokens, f1, root1),
        earley_recognizer::forest_of(g, start, tokens, f2, root2),
    ensures
        f1 == f2,
        root1 == root2,
{
    let key = NodeKey::Sym(start);
    let n = tokens.len();
    let m1 = choose|m: earley_chart::ChartModel|
        #[trigger] earley_recognizer::charted(g, start, tokens, n, m) && earley_forest::find_node(
            m.forest.nodes,
            key,
            0,
            n as usize,
            0,
        ) == Some(root1 as int) && earley_paths::loaded(g, m.arena, m.forest, root1, f1);
    let m2 = choose|m: earley_chart::ChartModel|
        #[trigger] earley_recognizer::charted(g, start, tokens, n, m) && earley_forest::find_node(
            m.forest.nodes,
            key,
            0,
            n as usize,
            0,
        ) == Some(root2 as int) && earley_paths::loaded(g, m.arena, m.forest, root2, f2);
    chart_is_fixed(g, start, tokens, n, m1, m2);
    lemma_loaded_once(g, m1, root1, f1, f2);
}

/// A chart of the first `i` tokens came of one of the first `j`.
proof fn lemma_charted_before(
    g: earley_chart::Context,
    start: SymbolId,
    tokens: Seq<tree::TokenModel>,
    j: nat,
    i: nat,
    m: earley_chart::ChartModel,
) -> (p: earley_chart::ChartModel)
    requires
        earley_recognizer::charted(g, start, tokens, i, m),
        j < i,
    ensures
        earley_recognizer::charted(g, start, tokens, j, p),
        earley_recognizer::scan_step(g, p, tokens[j as int]) is Some,
    decreases i,
{
    let p = choose|p: earley_chart::ChartModel|
        earley_recognizer::charted(g, start, tokens, (i - 1) as nat, p)
            && #[trigger] earley_recognizer::follows(g, start, tokens, i as int, p, m);
    if j + 1 == i {
        p
    } else {
        lemma_charted_before(g, start, tokens, j, (i - 1) as nat, p)
    }
}

/// There is one place at which the parser can be stuck.
proof fn lemma_stuck_once(
    g: earley_chart::Context,
    start: SymbolId,
    tokens: Seq<tree::TokenModel>,
    j: nat,
    i: nat,
    m: earley_chart::ChartModel,
)
    requires
        earley_recognizer::stuck_at(g, start, tokens, j),
        earley_recognizer::charted(g, start, tokens, i, m),
    ensures
        i <= j,
{
    if j < i {
        let p = lemma_charted_before(g, start, tokens, j, i, m);
        let q = choose|q: earley_chart::ChartModel|
            #[trigger] earley_recognizer::charted(g, start, tokens, j, q)
                && earley_recognizer::scan_step(g, q, tokens[j as int]) is None;
        chart_is_fixed(g, start, tokens, j, p, q);
    }
}

/// The report of tokens that are no sentence is fixed.
pub proof fn error_is_fixed(
    g: earley_chart::Context,
    start: SymbolId,
    tokens: Seq<tree::TokenModel>,
    e1: error::ErrorModel,
    e2: error::ErrorModel,
)
    requires
        earley_recognizer::chart_error(g, start, tokens, e1),
        earley_recognizer::chart_error(g, start, tokens, e2),
    ensures
        e1 == e2,
{
    if earley_recognizer::unfinished(g, start, tokens) {
        let m = choose|m: earley_chart::ChartModel|
            #[trigger] earley_recognizer::charted(g, start, tokens, tokens.len(), m)
                && earley_forest::find_node(
                m.forest.nodes,
                NodeKey::Sym(start),
                0,
                tokens.len() as usize,
                0,
            ) is None;
        assert forall|i: nat|
            i < tokens.len() implies !#[trigger] earley_recognizer::stuck_at(
            g,
            start,
            tokens,
            i,
        ) by {
            if earley_recognizer::stuck_at(g, start, tokens, i) {
                lemma_stuck_once(g, start, tokens, i, tokens.len(), m);
            }
        }
    } else {
        let i1 = choose|i: nat|
            i < tokens.len() && #[trigger] earley_recognizer::stuck_at(g, start, tokens, i) && e1
                == error::unexpected_token_model(tokens[i as int], Seq::empty());
        let i2 = choose|i: nat|
            i < tokens.len() && #[trigger] earley_recognizer::stuck_at(g, start, tokens, i) && e2
                == error::unexpected_token_model(tokens[i as int], Seq::empty());
        let m1 = choose|m: earley_chart::ChartModel|
            #[trigger] earley_recognizer::charted(g, start, tokens, i1, m)
                && earley_recognizer::scan_step(g, m, tokens[i1 as int]) is None;
        let m2 = choose|m: earley_chart::ChartModel|
            #[trigger] earley_recognizer::charted(g, start, tokens, i2, m)
                && earley_recognizer::scan_step(g, m, tokens[i2 as int]) is None;
        lemma_stuck_once(g, start, tokens, i1, i2, m2);
        lemma_stuck_once(g, start, tokens, i2, i1, m1);
    }
}

/// The result of parsing is fixed by the grammar, the start symbol, the tokens
/// and the treatment of ambiguity.
pub proof fn parse_is_fixed(
    p: EarleyParser,
    start: SymbolId,
    tokens: Seq<tree::TokenModel>,
    resolve: bool,
    r1: Result<tree::Node, error::ErrorModel>,
    r2: Result<tree::Node, error::ErrorModel>,
)
    requires
        p.wf(),
        start.ix() >= p.grammar.terminal_count,
        tokens.len() <= usize::MAX,
        tree_result(p, start, tokens, resolve, r1),
        tree_result(p, start, tokens, resolve, r2),
    ensures
        r1 == r2,
{
    let g = p.context();
    let sentence = exists|f: earley_forest::ForestModel, root: usize|
        #[trigger] earley_recognizer::forest_of(g, start, tokens, f, root);
    if sentence {
        let (f, root) = choose|f: earley_forest::ForestModel, root: usize|
            #[trigger] earley_recognizer::forest_of(g, start, tokens, f, root);
        earley_laws::forest_is_of_a_sentence(g, start, tokens, f, root);
        assert forall|e: error::ErrorModel| !#[trigger] earley_recognizer::chart_error(
            g,
            start,
            tokens,
            e,
        ) by {
            if earley_recognizer::chart_error(g, start, tokens, e) {
                earley_laws::error_is_of_no_sentence(g, start, tokens, e);
            }
        }
        let (f1, root1) = choose|f: earley_forest::ForestModel, root: usize|
            #[trigger] earley_recognizer::forest_of(g, start, tokens, f, root) && r1 == tree_of(
                p.grammar,
                f,
                root,
                start,
                resolve,
                false,
            );
        let (f2, root2) = choose|f: earley_forest::ForestModel, root: usize|
            #[trigger] earley_recognizer::forest_of(g, start, tokens, f, root) && r2 == tree_of(
                p.grammar,
                f,
                root,
                start,
                resolve,
                false,
            );
        forest_is_fixed(g, start, tokens, f1, root1, f2, root2);
    } else {
        error_is_fixed(g, start, tokens, r1->Err_0, r2->Err_0);
    }
}

} // verus!
