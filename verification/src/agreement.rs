//! What the parsers have in common: each builds the tree of a derivation, so on
//! tokens that have one tree they build the same.

use vstd::prelude::*;
use crate::cnf;
use crate::cyk;
use crate::cyk_laws;
use crate::cyk_trees;
use crate::derivation;
use crate::earley;
use crate::earley_alone;
use crate::earley_chart::EarleyParser;
use crate::earley_forest;
use crate::earley_forests;
use crate::earley_laws;
use crate::earley_offered;
use crate::earley_recognizer;
use crate::earley_shown;
use crate::earley_tree;
use crate::earley_value;
use crate::error;
use crate::error::GrammarError;
use crate::lalr;
use crate::lalr_laws;
use crate::lalr_table;
use crate::lalr_table::ParseTable;
use crate::lalr_trees;
use crate::lr0::Automaton;
use crate::symbols;
use crate::symbols::{CompiledGrammar, SymbolId};
use crate::token_source::PreLexed;
use crate::tree;
use crate::tree_builder;
use crate::value_key;

verus! {

/// Whether nothing but the end of input follows the end of input.
pub open spec fn end_is_last(toks: Seq<tree::TokenModel>) -> bool {
    forall|i: int, j: int|
        0 <= i < j < toks.len() && (#[trigger] toks[i]).type_id == SymbolId::spec_end() ==> (
        #[trigger] toks[j]).type_id == SymbolId::spec_end()
}

/// Whether spans are the same however the children of transparent rules reach
/// their parent: spans do not cover what was dropped, or no rule is transparent.
pub open spec fn spans_agree(g: CompiledGrammar) -> bool {
    g.propagate_positions ==> earley_value::is_opaque(g.models())
}

/// Whether the start symbol is not spliced and all its derivations of the tokens
/// have the same value.
pub open spec fn has_one_tree(
    g: CompiledGrammar,
    toks: Seq<tree::TokenModel>,
    start: Option<Seq<char>>,
) -> bool {
    let s = lalr::resolved_start(g.start@, g.symbols@, start)->0;
    &&& lalr::resolved_start(g.start@, g.symbols@, start) is Some
    &&& derivation::is_solid(g.models(), s)
    &&& derivation::is_unambiguous(
        g.models(),
        g.terminal_count as nat,
        g.propagate_positions,
        s,
        cyk::body(toks),
    )
}

/// Whether a grammar has a normal form that a machine can hold and whose empty
/// values are well founded, spans cover only what is kept, and `t` is the tree
/// that a CYK parse of the tokens gives.
pub open spec fn cyk_parses(
    g: CompiledGrammar,
    toks: Seq<tree::TokenModel>,
    start: Option<Seq<char>>,
    t: tree::Node,
) -> bool {
    let nt = g.terminal_count as nat;
    &&& g.wf()
    &&& !g.propagate_positions
    &&& toks.len() <= usize::MAX
    &&& cnf::cnf_error(g.models(), nt, g.start@, g.symbols@) is None
    &&& cyk_laws::cyk_fits(g)
    &&& cyk_trees::variants_fit(g)
    &&& cyk_trees::no_empty_cycle(g)
    &&& cyk::cyk_parse(
        cyk::cyk_model(g.models(), nt, g.start@, g.symbols@.len()),
        g.symbols@,
        g.start@,
        toks,
        start,
    ) == Ok::<tree::Node, error::ErrorModel>(t)
}

/// The tokens before the end of input are those up to the first.
proof fn lemma_body(toks: Seq<tree::TokenModel>, n: int)
    requires
        end_is_last(toks),
        0 <= n <= toks.len(),
        n < toks.len() ==> toks[n].type_id == SymbolId::spec_end(),
        forall|i: int| 0 <= i < n ==> (#[trigger] toks[i]).type_id != SymbolId::spec_end(),
    ensures
        cyk::body(toks) == toks.take(n),
    decreases toks.len(),
{
    if toks.len() > 0 {
        let front = toks.drop_last();
        if n == toks.len() {
            lemma_body(front, n - 1);
            assert(front.take(n - 1).push(toks.last()) =~= toks.take(n));
        } else {
            assert(toks[n].type_id == SymbolId::spec_end());
            assert(toks[toks.len() - 1].type_id == SymbolId::spec_end());
            if n < front.len() {
                assert(front[n] == toks[n]);
            }
            lemma_body(front, n);
            assert(front.take(n) =~= toks.take(n));
        }
    } else {
        assert(toks.take(n) =~= Seq::empty());
    }
}

/// What a symbol derives has no end of input where no expansion mentions it.
proof fn lemma_no_end(
    rules: Seq<symbols::RuleModel>,
    nt: nat,
    pp: bool,
    s: SymbolId,
    toks: Seq<tree::TokenModel>,
    v: tree_builder::SlotModel,
    d: nat,
)
    requires
        lalr_laws::end_is_reserved(rules),
        s != SymbolId::spec_end(),
        derivation::yields_in(rules, nt, pp, s, toks, v, d),
    ensures
        forall|i: int| 0 <= i < toks.len() ==> (#[trigger] toks[i]).type_id
            != SymbolId::spec_end(),
    decreases d, 0nat,
{
    if s.ix() >= nt {
        let (r, vs) = choose|r: int, vs: Seq<tree_builder::SlotModel>| #[trigger]
            derivation::is_shaped(rules, pp, r, s, vs, v) && derivation::yields_seq_in(
                rules,
                nt,
                pp,
                rules[r].expansion,
                toks,
                vs,
                (d - 1) as nat,
            );
        assert forall|j: int| 0 <= j < rules[r].expansion.len() implies #[trigger] rules[r].expansion[j]
            != SymbolId::spec_end() by {}
        lemma_no_ends(rules, nt, pp, rules[r].expansion, toks, vs, (d - 1) as nat);
    }
}

proof fn lemma_no_ends(
    rules: Seq<symbols::RuleModel>,
    nt: nat,
    pp: bool,
    syms: Seq<SymbolId>,
    toks: Seq<tree::TokenModel>,
    vs: Seq<tree_builder::SlotModel>,
    d: nat,
)
    requires
        lalr_laws::end_is_reserved(rules),
        forall|j: int| 0 <= j < syms.len() ==> #[trigger] syms[j] != SymbolId::spec_end(),
        derivation::yields_seq_in(rules, nt, pp, syms, toks, vs, d),
    ensures
        forall|i: int| 0 <= i < toks.len() ==> (#[trigger] toks[i]).type_id
            != SymbolId::spec_end(),
    decreases d, syms.len(),
{
    if syms.len() > 0 {
        let k = choose|k: int|
            0 <= k <= toks.len() && derivation::yields_in(
                rules,
                nt,
                pp,
                syms.last(),
                #[trigger] toks.skip(k),
                vs.last(),
                d,
            ) && derivation::yields_seq_in(
                rules,
                nt,
                pp,
                syms.drop_last(),
                toks.take(k),
                vs.drop_last(),
                d,
            );
        lemma_no_end(rules, nt, pp, syms.last(), toks.skip(k), vs.last(), d);
        lemma_no_ends(rules, nt, pp, syms.drop_last(), toks.take(k), vs.drop_last(), d);
        assert forall|i: int| 0 <= i < toks.len() implies (#[trigger] toks[i]).type_id
            != SymbolId::spec_end() by {
            if i < k {
                assert(toks.take(k)[i] == toks[i]);
            } else {
                assert(toks.skip(k)[i - k] == toks[i]);
            }
        }
    }
}

/// Where ambiguity is resolved, the tree of an Earley parse is the value of a
/// derivation, by the start symbol, of the tokens before the end of input.
pub proof fn earley_tree_is_of_a_derivation(
    p: EarleyParser,
    toks: Seq<tree::TokenModel>,
    start: Option<Seq<char>>,
    t: tree::Node,
) -> (v: tree_builder::SlotModel)
    requires
        p.wf(),
        toks.len() <= usize::MAX,
        spans_agree(p.grammar),
        earley::parse_result(p, toks, start, true, Ok::<tree::Node, error::ErrorModel>(t)),
    ensures
        ({
            let s = lalr::resolved_start(p.grammar.start@, p.grammar.symbols@, start)->0;
            &&& derivation::yields(
                p.grammar.models(),
                p.grammar.terminal_count as nat,
                p.grammar.propagate_positions,
                s,
                cyk::body(toks),
                v,
            )
            &&& t == earley::rooted(v, symbols::name_of(p.grammar.symbols@, s))
        }),
{
    let g = p.context();
    let s = lalr::resolved_start(p.grammar.start@, p.grammar.symbols@, start)->0;
    let body = cyk::body(toks);
    cyk_laws::lemma_body_len(toks);
    let (f, root) = choose|f: earley_forest::ForestModel, root: usize|
        #[trigger] earley_recognizer::forest_of(g, s, body, f, root) && Ok::<
            tree::Node,
            error::ErrorModel,
        >(t) == earley::tree_of(p.grammar, f, root, s, true, false);
    let w = earley_tree::walk_of(p.grammar, f, true, false);
    let r = earley_laws::lemma_forest_buildable(g, s, body, f, root);
    earley_value::lemma_root_value(g, r.1, w, root as int, s);
    earley_tree::transformed(w, root as int)->0
}

/// Whether a tree is, up to spans, that of a derivation of the tokens by a start
/// symbol.
pub open spec fn is_derived(
    g: CompiledGrammar,
    s: SymbolId,
    toks: Seq<tree::TokenModel>,
    u: tree::Node,
) -> bool {
    exists|v: tree_builder::SlotModel| #[trigger]
        derivation::yields(
            g.models(),
            g.terminal_count as nat,
            g.propagate_positions,
            s,
            toks,
            v,
        ) && value_key::same_node(u, earley::rooted(v, symbols::name_of(g.symbols@, s)))
}

/// Whether an ambiguity node of a tree can only stand for alternatives, and stands
/// where each of them would: no rule has its name, no rule drops what a symbol that
/// is no terminal gives, and the start symbol is not spliced.
pub open spec fn shows_clearly(g: CompiledGrammar, s: SymbolId) -> bool {
    &&& earley_shown::names_differ(g.models())
    &&& earley_shown::keeps_symbols(g.models(), g.terminal_count as nat)
    &&& derivation::is_solid(g.models(), s)
}

/// Where all derivations are shown, each way to pick one alternative at every
/// ambiguity node leaves the tree of a derivation of the tokens before the end of
/// input, up to spans. Where ambiguity is resolved, the tree is that of such a
/// derivation, whatever the spans cover.
pub proof fn earley_tree_shows_derivations(
    p: EarleyParser,
    toks: Seq<tree::TokenModel>,
    start: Option<Seq<char>>,
    resolve: bool,
    t: tree::Node,
)
    requires
        p.wf(),
        toks.len() <= usize::MAX,
        earley::parse_result(p, toks, start, resolve, Ok::<tree::Node, error::ErrorModel>(t)),
    ensures
        ({
            let s = lalr::resolved_start(p.grammar.start@, p.grammar.symbols@, start)->0;
            if resolve {
                is_derived(p.grammar, s, cyk::body(toks), t)
            } else {
                shows_clearly(p.grammar, s) ==> forall|u: tree::Node| #[trigger]
                    earley_shown::picks(false, t, u) ==> is_derived(
                        p.grammar,
                        s,
                        cyk::body(toks),
                        u,
                    )
            }
        }),
{
    let g = p.context();
    let s = lalr::resolved_start(p.grammar.start@, p.grammar.symbols@, start)->0;
    let body = cyk::body(toks);
    cyk_laws::lemma_body_len(toks);
    let (f, root) = choose|f: earley_forest::ForestModel, root: usize|
        #[trigger] earley_recognizer::forest_of(g, s, body, f, root) && Ok::<
            tree::Node,
            error::ErrorModel,
        >(t) == earley::tree_of(p.grammar, f, root, s, resolve, false);
    let w = earley_tree::walk_of(p.grammar, f, resolve, false);
    let r = earley_laws::lemma_forest_buildable(g, s, body, f, root);
    let name = symbols::name_of(p.grammar.symbols@, s);
    assert(earley_value::tokens_of(w, 0, body.len() as usize) =~= body);
    if resolve || shows_clearly(p.grammar, s) {
        assert forall|u: tree::Node| #[trigger] earley_shown::picks(resolve, t, u) implies is_derived(
            p.grammar,
            s,
            body,
            u,
        ) by {
            let v = earley_shown::lemma_root_picked(g, r.1, w, root as int, s, name, u);
            assert(derivation::yields(
                p.grammar.models(),
                p.grammar.terminal_count as nat,
                p.grammar.propagate_positions,
                s,
                body,
                v,
            ));
        }
    }
    if resolve {
        earley_shown::lemma_picks_self(t);
    }
}

/// Where all derivations are shown, none is left out: each of the tokens before the
/// end of input is what one way to pick one alternative at every ambiguity node
/// leaves, up to spans. No two rules of a symbol may have the same expansion, of
/// which one is kept, and no symbol may derive itself alone, of which no tree shows
/// all derivations.
pub proof fn earley_tree_shows_every_derivation(
    p: EarleyParser,
    toks: Seq<tree::TokenModel>,
    start: Option<Seq<char>>,
    t: tree::Node,
    v: tree_builder::SlotModel,
)
    requires
        p.wf(),
        toks.len() <= usize::MAX,
        earley_forests::rules_differ(p.grammar.models()),
        earley_alone::has_no_loops(p.grammar.models(), p.grammar.terminal_count as nat),
        earley::parse_result(p, toks, start, false, Ok::<tree::Node, error::ErrorModel>(t)),
        ({
            let s = lalr::resolved_start(p.grammar.start@, p.grammar.symbols@, start)->0;
            &&& shows_clearly(p.grammar, s)
            &&& derivation::yields(
                p.grammar.models(),
                p.grammar.terminal_count as nat,
                p.grammar.propagate_positions,
                s,
                cyk::body(toks),
                v,
            )
        }),
    ensures
        ({
            let s = lalr::resolved_start(p.grammar.start@, p.grammar.symbols@, start)->0;
            exists|u: tree::Node| #[trigger]
                earley_shown::picks(false, t, u) && value_key::same_node(
                    u,
                    earley::rooted(v, symbols::name_of(p.grammar.symbols@, s)),
                )
        }),
{
    let g = p.context();
    let s = lalr::resolved_start(p.grammar.start@, p.grammar.symbols@, start)->0;
    let body = cyk::body(toks);
    cyk_laws::lemma_body_len(toks);
    let (f, root) = choose|f: earley_forest::ForestModel, root: usize|
        #[trigger] earley_recognizer::forest_of(g, s, body, f, root) && Ok::<
            tree::Node,
            error::ErrorModel,
        >(t) == earley::tree_of(p.grammar, f, root, s, false, false);
    let w = earley_tree::walk_of(p.grammar, f, false, false);
    let name = symbols::name_of(p.grammar.symbols@, s);
    earley_forests::lemma_sentence_told(g, s, body, w, root, v);
    earley_offered::lemma_rooted_offers(name, earley_tree::transformed(w, root as int)->0, v);
}

/// The value of an LALR parse is that of a derivation of the tokens before the end
/// of input.
proof fn lemma_lalr_value(
    table: ParseTable,
    toks: Seq<tree::TokenModel>,
    start: Option<Seq<char>>,
) -> (v: tree_builder::SlotModel)
    requires
        table.wf(),
        end_is_last(toks),
        lalr_laws::end_is_reserved(table.models()),
        lalr::parse_model::<PreLexed>(table, toks, start) is Ok,
        lalr::resolved_start(table.starts@, table.symbols@, start)->0 != SymbolId::spec_end(),
    ensures
        derivation::yields(
            table.models(),
            table.n_terminals as nat,
            table.propagate_positions,
            lalr::resolved_start(table.starts@, table.symbols@, start)->0,
            cyk::body(toks),
            v,
        ),
        lalr_trees::root_of(v) == Some(lalr::parse_model::<PreLexed>(table, toks, start)->Ok_0),
{
    let rules = table.models();
    let nt = table.n_terminals as nat;
    let pp = table.propagate_positions;
    let s = lalr::resolved_start(table.starts@, table.symbols@, start)->0;
    let (n, v) = lalr_trees::tree_is_of_a_derivation(table, toks, start);
    let d = choose|d: nat| #[trigger]
        derivation::yields_in(rules, nt, pp, s, toks.take(n), v, d);
    lemma_no_end(rules, nt, pp, s, toks.take(n), v, d);
    assert forall|i: int| 0 <= i < n implies (#[trigger] toks[i]).type_id
        != SymbolId::spec_end() by {
        assert(toks.take(n)[i] == toks[i]);
    }
    lemma_body(toks, n);
    v
}

/// An LALR parse and an Earley parse of the same tokens by the same grammar
/// build the same tree, but for spans, where the derivations of the tokens all have
/// the same value; where spans are the same however children reach their parent, it
/// is the same altogether.
pub proof fn lalr_and_earley_agree(
    table: ParseTable,
    strict: bool,
    p: EarleyParser,
    toks: Seq<tree::TokenModel>,
    start: Option<Seq<char>>,
    t: tree::Node,
    u: tree::Node,
)
    requires
        lalr_table::table_result(p.grammar, strict, Ok::<ParseTable, GrammarError>(table)),
        table.wf(),
        p.wf(),
        toks.len() <= usize::MAX,
        end_is_last(toks),
        lalr_laws::end_is_reserved(p.grammar.models()),
        lalr::parse_model::<PreLexed>(table, toks, start) == Ok::<tree::Node, error::ErrorModel>(
            t,
        ),
        earley::parse_result(p, toks, start, true, Ok::<tree::Node, error::ErrorModel>(u)),
        has_one_tree(p.grammar, toks, start),
    ensures
        value_key::same_node(u, t),
        spans_agree(p.grammar) ==> t == u,
{
    let g = p.grammar;
    let rules = g.models();
    let nt = g.terminal_count as nat;
    let pp = g.propagate_positions;
    let s = lalr::resolved_start(g.start@, g.symbols@, start)->0;
    let a = choose|a: Automaton|
        #[trigger] a.wf(rules, lalr_table::start_rules(rules, g.start@)) && lalr_table::table_by(
            g,
            strict,
            a,
            Ok::<ParseTable, GrammarError>(table),
        );
    let v = lemma_lalr_value(table, toks, start);
    derivation::lemma_solid_value(rules, nt, pp, s, cyk::body(toks), v);
    earley_tree_shows_derivations(p, toks, start, true, u);
    let x = choose|x: tree_builder::SlotModel| #[trigger]
        derivation::yields(rules, nt, pp, s, cyk::body(toks), x) && value_key::same_node(
            u,
            earley::rooted(x, symbols::name_of(g.symbols@, s)),
        );
    assert(x == v);
    if spans_agree(g) {
        let y = earley_tree_is_of_a_derivation(p, toks, start, u);
        assert(y == v);
    }
}

/// An LALR parse and a CYK parse of the same tokens by the same grammar build the
/// same tree where the derivations of the tokens all have the same value and spans
/// cover only what is kept.
pub proof fn lalr_and_cyk_agree(
    table: ParseTable,
    strict: bool,
    g: CompiledGrammar,
    toks: Seq<tree::TokenModel>,
    start: Option<Seq<char>>,
    t: tree::Node,
    u: tree::Node,
)
    requires
        lalr_table::table_result(g, strict, Ok::<ParseTable, GrammarError>(table)),
        table.wf(),
        cyk_parses(g, toks, start, u),
        end_is_last(toks),
        lalr_laws::end_is_reserved(g.models()),
        lalr::parse_model::<PreLexed>(table, toks, start) == Ok::<tree::Node, error::ErrorModel>(
            t,
        ),
        has_one_tree(g, toks, start),
    ensures
        t == u,
{
    let rules = g.models();
    let nt = g.terminal_count as nat;
    let s = lalr::resolved_start(g.start@, g.symbols@, start)->0;
    let a = choose|a: Automaton|
        #[trigger] a.wf(rules, lalr_table::start_rules(rules, g.start@)) && lalr_table::table_by(
            g,
            strict,
            a,
            Ok::<ParseTable, GrammarError>(table),
        );
    let v = lemma_lalr_value(table, toks, start);
    let x = cyk_trees::tree_is_of_a_derivation(g, toks, start, s, u);
    derivation::lemma_solid_value(rules, nt, false, s, cyk::body(toks), v);
}

/// An Earley parse and a CYK parse of the same tokens by the same grammar build
/// the same tree where the derivations of the tokens all have the same value and
/// spans cover only what is kept.
pub proof fn earley_and_cyk_agree(
    p: EarleyParser,
    toks: Seq<tree::TokenModel>,
    start: Option<Seq<char>>,
    t: tree::Node,
    u: tree::Node,
)
    requires
        p.wf(),
        cyk_parses(p.grammar, toks, start, u),
        earley::parse_result(p, toks, start, true, Ok::<tree::Node, error::ErrorModel>(t)),
        has_one_tree(p.grammar, toks, start),
    ensures
        t == u,
{
    let g = p.grammar;
    let s = lalr::resolved_start(g.start@, g.symbols@, start)->0;
    let v = earley_tree_is_of_a_derivation(p, toks, start, t);
    let x = cyk_trees::tree_is_of_a_derivation(g, toks, start, s, u);
    derivation::lemma_solid_value(g.models(), g.terminal_count as nat, false, s, cyk::body(toks), v);
}

/// Whether an Earley parser takes its shortcuts or not decides neither whether there
/// is a tree nor, where ambiguity is resolved and the derivations of the tokens all
/// have the same value, which: but for spans it is the same, and where spans are the
/// same however children reach their parent, it is the same altogether.
pub proof fn shortcuts_leave_the_tree_alone(
    p: EarleyParser,
    toks: Seq<tree::TokenModel>,
    start: Option<Seq<char>>,
    resolve: bool,
    r: Result<tree::Node, error::ErrorModel>,
    q: Result<tree::Node, error::ErrorModel>,
)
    requires
        p.wf(),
        toks.len() <= usize::MAX,
        earley::parse_result(p, toks, start, resolve, r),
        earley::parse_result(
            (EarleyParser { shortcuts: !p.shortcuts, ..p }),
            toks,
            start,
            resolve,
            q,
        ),
    ensures
        r is Ok <==> q is Ok,
        resolve && r is Ok && has_one_tree(
            p.grammar,
            toks,
            start,
        ) ==> ({
            let s = lalr::resolved_start(p.grammar.start@, p.grammar.symbols@, start)->0;
            &&& exists|v: tree::Node| #[trigger]
                value_key::same_node(r->Ok_0, v) && value_key::same_node(q->Ok_0, v)
            &&& spans_agree(p.grammar) ==> r == q
        }),
{
    let other = EarleyParser { shortcuts: !p.shortcuts, ..p };
    assert(other.wf());
    let g = p.grammar;
    let s = lalr::resolved_start(g.start@, g.symbols@, start)->0;
    let name = symbols::name_of(g.symbols@, s);
    let body = cyk::body(toks);
    let nt = g.terminal_count as nat;
    let pp = g.propagate_positions;
    if resolve && r is Ok && has_one_tree(g, toks, start) {
        let t = r->Ok_0;
        let u = q->Ok_0;
        earley_tree_shows_derivations(p, toks, start, true, t);
        earley_tree_shows_derivations(other, toks, start, true, u);
        let v = choose|v: tree_builder::SlotModel| #[trigger]
            derivation::yields(g.models(), nt, pp, s, body, v) && value_key::same_node(
                t,
                earley::rooted(v, name),
            );
        let x = choose|x: tree_builder::SlotModel| #[trigger]
            derivation::yields(g.models(), nt, pp, s, body, x) && value_key::same_node(
                u,
                earley::rooted(x, name),
            );
        assert(v == x);
        assert(value_key::same_node(t, earley::rooted(v, name)));
        if spans_agree(g) {
            let a = earley_tree_is_of_a_derivation(p, toks, start, t);
            let b = earley_tree_is_of_a_derivation(other, toks, start, u);
            assert(a == b);
        }
    }
}

/// Whether an Earley parser takes its shortcuts or not decides nothing about the
/// derivations that are shown: what is left of one tree once an alternative is picked
/// at every ambiguity node is left of the other, too, up to spans.
pub proof fn shortcuts_leave_all_derivations_alone(
    p: EarleyParser,
    toks: Seq<tree::TokenModel>,
    start: Option<Seq<char>>,
    t: tree::Node,
    q: tree::Node,
    u: tree::Node,
)
    requires
        p.wf(),
        toks.len() <= usize::MAX,
        earley_forests::rules_differ(p.grammar.models()),
        earley_alone::has_no_loops(p.grammar.models(), p.grammar.terminal_count as nat),
        shows_clearly(
            p.grammar,
            lalr::resolved_start(p.grammar.start@, p.grammar.symbols@, start)->0,
        ),
        earley::parse_result(p, toks, start, false, Ok::<tree::Node, error::ErrorModel>(t)),
        earley::parse_result(
            (EarleyParser { shortcuts: !p.shortcuts, ..p }),
            toks,
            start,
            false,
            Ok::<tree::Node, error::ErrorModel>(q),
        ),
        earley_shown::picks(false, t, u),
    ensures
        exists|x: tree::Node, v: tree::Node| #[trigger]
            earley_shown::picks(false, q, x) && #[trigger] value_key::same_node(u, v)
                && value_key::same_node(x, v),
{
    let other = EarleyParser { shortcuts: !p.shortcuts, ..p };
    assert(other.wf());
    let g = p.grammar;
    let s = lalr::resolved_start(g.start@, g.symbols@, start)->0;
    let name = symbols::name_of(g.symbols@, s);
    let body = cyk::body(toks);
    earley_tree_shows_derivations(p, toks, start, false, t);
    assert(is_derived(g, s, body, u));
    let v = choose|v: tree_builder::SlotModel| #[trigger]
        derivation::yields(
            g.models(),
            g.terminal_count as nat,
            g.propagate_positions,
            s,
            body,
            v,
        ) && value_key::same_node(u, earley::rooted(v, name));
    earley_tree_shows_every_derivation(other, toks, start, q, v);
    let x = choose|x: tree::Node| #[trigger]
        earley_shown::picks(false, q, x) && value_key::same_node(x, earley::rooted(v, name));
    assert(value_key::same_node(u, earley::rooted(v, name)));
}

} // verus!
