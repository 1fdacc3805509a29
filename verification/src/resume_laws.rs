//! A parse that is driven to the end of its text gives the tree of a parse that runs
//! there by itself.

use vstd::prelude::*;
use crate::derivation;
use crate::driving_laws;
use crate::error;
use crate::interactive;
use crate::lalr;
use crate::lalr_laws;
use crate::lalr_stack;
use crate::lalr_table;
use crate::lalr_table::ParseTable;
use crate::lalr_trees;
use crate::lex_sources;
use crate::lex_sources::Contextual;
use crate::lexer;
use crate::lexer::Place;
use crate::lr0::Automaton;
use crate::output;
use crate::recovery;
use crate::scanner;
use crate::scanner::Terminal;
use crate::span_laws;
use crate::symbols;
use crate::symbols::SymbolId;
use crate::tree;
use crate::tree_builder::TreeOutputBuilder;

verus! {

/// A source that stands at a place, with no token pulled yet.
spec fn lazy_at(m: interactive::DrivenModel) -> lex_sources::LazyModel {
    lex_sources::LazyModel { lexer: m.lexer, text: m.text, place: m.place, current: None }
}

/// What a lexer pulls stands in the text.
pub(crate) proof fn lemma_pull_fits(
    plans: Seq<scanner::PlanModel>,
    terms: Seq<Terminal>,
    ignore: Seq<SymbolId>,
    text: Seq<char>,
    p: Place,
)
    requires
        p.pos <= text.len() < usize::MAX,
    ensures
        ({
            let (q, r) = lexer::pulled(plans, terms, ignore, text, p);
            r matches Ok(t) ==> p.pos <= q.pos <= text.len() && (t == lexer::end_at(q) && q.pos
                == text.len() || q.pos < text.len() && t.value.len() > 0 && q.pos + t.value.len()
                <= text.len())
        }),
    decreases text.len() - p.pos,
{
    if p.pos < text.len() {
        lemma_plans_fit(plans, terms, text, p, 0);
        if let Some(t) = lexer::plans_token(plans, terms, text, p, 0) {
            lexer::past_counts(p, t.value);
            if ignore.contains(t.type_id) {
                lemma_pull_fits(plans, terms, ignore, text, lexer::past(p, t.value));
            }
        }
    }
}

proof fn lemma_plans_fit(
    plans: Seq<scanner::PlanModel>,
    terms: Seq<Terminal>,
    text: Seq<char>,
    p: Place,
    i: int,
)
    requires
        p.pos <= text.len(),
    ensures
        lexer::plans_token(plans, terms, text, p, i) matches Some(t) ==> t.value.len() > 0 && p.pos
            + t.value.len() <= text.len(),
    decreases plans.len() - i,
{
    if 0 <= i < plans.len() {
        span_laws::lemma_first_match(
            plans[i],
            text.take(p.pos as int),
            text.skip(p.pos as int),
            0,
        );
        lemma_plans_fit(plans, terms, text, p, i + 1);
    }
}

proof fn lemma_resumed(
    table: ParseTable,
    a: Automaton,
    start: int,
    input: Seq<char>,
    values: Seq<output::GSlotModel<tree::Node>>,
    xs: Seq<SymbolId>,
    done: Seq<tree::TokenModel>,
    m: interactive::DrivenModel,
    before: Seq<tree::TokenModel>,
    fuel: nat,
)
    requires
        table.tabulates(a),
        lalr_laws::end_is_reserved(table.models()),
        lalr_laws::spells(table, a, start, m.states, xs, lalr_laws::types_of(done)),
        lalr_trees::is_valued(table, xs, done, values),
        ({
            let s = lalr_table::start_rules(table.models(), table.starts@)[start].0;
            s.ix() >= table.n_terminals && derivation::is_solid(table.models(), s)
        }),
        names_lead_back(table, m.lexer),
        symbols::id_of(table.symbols@, tree::end_token().type_) == Some(SymbolId::end()),
        m.table == table,
        m.values == output::tree_slots(values),
        m.result is None,
        m.place.pos <= m.text.len() < usize::MAX,
        lalr::ran::<Contextual, TreeOutputBuilder>(
            table,
            table.propagate_positions,
            input,
            lazy_at(m),
            m.states,
            values,
            fuel,
        ) is Ok,
    ensures
        ({
            let r = interactive::exhausted(m, before);
            &&& r.1 is Ok
            &&& interactive::driven_end(r.0).1 == Ok::<Option<tree::Node>, error::ErrorModel>(
                Some(
                    lalr::ran::<Contextual, TreeOutputBuilder>(
                        table,
                        table.propagate_positions,
                        input,
                        lazy_at(m),
                        m.states,
                        values,
                        fuel,
                    )->Ok_0,
                ),
            )
        }),
    decreases fuel,
{
    let state = m.states.last() as nat;
    let (p, got) = lex_sources::next_of(m.lexer, state, m.text, m.place);
    lemma_pull_fits(
        lex_sources::plans_for(m.lexer, state),
        lex_sources::kind_terminals(m.lexer),
        lex_sources::kind_ignore(m.lexer),
        m.text,
        m.place,
    );
    let tok = got->Ok_0;
    let limit = lalr_stack::REDUCTION_LIMIT as nat;
    let pp = table.propagate_positions;
    let ys = lalr_trees::lemma_feed_valued(
        table,
        a,
        start,
        input,
        m.states,
        values,
        xs,
        done,
        tok,
        limit,
    );
    let g = lalr::gfed::<TreeOutputBuilder>(table, pp, input, m.states, values, tok, limit);
    if let lalr::GOutcome::Accepted(t) = g.outcome {
        let s = lalr_table::start_rules(table.models(), table.starts@)[start].0;
        driving_laws::lemma_accepted(table, s, done, ys.1, t);
        assert(tok.type_id == SymbolId::end());
        let end = lexer::end_at(p);
        driving_laws::lemma_fed_by_type(
            table,
            m.states,
            m.values,
            tok,
            recovery::retyped(end, SymbolId::end()),
            limit,
        );
    } else {
        if tok.type_id == SymbolId::end() {
            lalr_laws::lemma_end_not_shifted::<TreeOutputBuilder>(
                table,
                a,
                pp,
                input,
                m.states,
                values,
                tok,
                limit,
            );
        }
        let q = lexer::past(p, tok.value);
        lexer::past_counts(p, tok.value);
        assert(names_lead_back(table, m.lexer));
        assert(driving_laws::is_named(table, tok));
        assert(recovery::retyped(tok, tok.type_id) == tok);
        let here = interactive::DrivenModel { place: q, ..m };
        let next = interactive::driven(here, tok).0;
        lemma_resumed(
            table,
            a,
            start,
            input,
            g.values,
            ys.0,
            done.push(tok),
            next,
            before.push(tok),
            (fuel - 1) as nat,
        );
    }
}

/// Whether the names of the tokens that a lexer gives are those of their types.
pub open spec fn names_lead_back(table: ParseTable, m: lex_sources::KindModel) -> bool {
    forall|state: nat, text: Seq<char>, p: Place|
        (#[trigger] lex_sources::next_of(m, state, text, p)).1 matches Ok(t) ==> t.type_id
            == SymbolId::end() || driving_laws::is_named(table, t)
}

/// A parse that is resumed at the beginning of a text gives the tree of the parse of
/// that text.
pub proof fn resuming_is_parsing(
    table: ParseTable,
    start: Option<Seq<char>>,
    m: interactive::DrivenModel,
    t: tree::Node,
)
    requires
        table.wf(),
        lalr_laws::end_is_reserved(table.models()),
        ({
            let s = lalr::resolved_start(table.starts@, table.symbols@, start)->0;
            derivation::is_solid(table.models(), s)
        }),
        names_lead_back(table, m.lexer),
        symbols::id_of(table.symbols@, tree::end_token().type_) == Some(SymbolId::end()),
        m == interactive::driven_start(
            table,
            m.lexer,
            lalr::initial(table, start)->Ok_0,
            m.text,
        ),
        m.text.len() < usize::MAX,
        lalr::parse_model::<Contextual>(
            table,
            lex_sources::lazy_start(m.lexer, m.text),
            start,
        ) == Ok::<tree::Node, error::ErrorModel>(t),
    ensures
        interactive::resumed(m) == Ok::<tree::Node, error::ErrorModel>(t),
{
    let i = lalr_trees::lemma_begun(table, start);
    let values = Seq::<output::GSlotModel<tree::Node>>::empty();
    assert(output::tree_slots(values) =~= Seq::empty());
    lemma_resumed(
        table,
        lalr_stack::automaton(table),
        i,
        ""@,
        values,
        Seq::empty(),
        Seq::empty(),
        m,
        Seq::empty(),
        lalr::TOKEN_LIMIT as nat,
    );
}

} // verus!
