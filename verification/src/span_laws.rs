//! What holds of borrowing trees: over a text they stand for the trees that an
//! ordinary parse of the text builds.

use vstd::prelude::*;
use crate::lalr;
use crate::lalr_stack;
use crate::lalr_table;
use crate::lalr_table::{Action, ParseTable};
use crate::lex_sources;
use crate::lex_sources::Contextual;
use crate::lexer;
use crate::lexer::{LexerConf, Place};
use crate::lr0::Automaton;
use crate::output;
use crate::pattern;
use crate::scanner;
use crate::scanner::Terminal;
use crate::span_tree;
use crate::span_tree::SpanTreeBuilder;
use crate::symbols;
use crate::symbols::{CompiledGrammar, SymbolId};
use crate::token_source::TokenSource;
use crate::tree;
use crate::tree_builder::TreeOutputBuilder;

verus! {

/// Whether the tokens of a lexer are named as the grammar names their types.
pub open spec fn names_agree(infos: Seq<symbols::SymbolInfo>, m: lex_sources::KindModel) -> bool {
    forall|state: nat, text: Seq<char>, p: Place|
        (#[trigger] lex_sources::next_of(m, state, text, p)).1 matches Ok(t) ==> t.type_
            == symbols::name_of(infos, t.type_id)
}

pub(crate) proof fn lemma_first_match(
    m: scanner::PlanModel,
    before: Seq<char>,
    rest: Seq<char>,
    i: int,
)
    ensures
        scanner::first_match(m, before, rest, i) matches Some((_, v)) ==> 0 < v.len()
            <= rest.len() && rest.take(v.len() as int) == v,
    decreases m.groups.len() - i,
{
    if 0 <= i < m.groups.len() {
        lemma_first_match(m, before, rest, i + 1);
        let rx = m.prefix + m.groups[i].1;
        if let Some((a, b)) = pattern::found_at(rx, before, rest) {
            if a.len() == 0 {
                assert(a + b =~= b);
            }
        }
    }
}

proof fn lemma_plans_token(
    plans: Seq<scanner::PlanModel>,
    terms: Seq<Terminal>,
    text: Seq<char>,
    p: Place,
    i: int,
)
    requires
        p.pos <= text.len() <= usize::MAX,
    ensures
        lexer::plans_token(plans, terms, text, p, i) matches Some(t) ==> lexer::token_fits(
            text,
            p,
            t,
        ),
    decreases plans.len() - i,
{
    if 0 <= i < plans.len() {
        lemma_plans_token(plans, terms, text, p, i + 1);
        let rest = text.skip(p.pos as int);
        lemma_first_match(plans[i], text.take(p.pos as int), rest, 0);
        if let Some((_, v)) = scanner::scanned(plans[i], text.take(p.pos as int), rest) {
            lexer::past_counts(p, v);
            assert(rest.take(v.len() as int) =~= text.subrange(p.pos as int, p.pos + v.len()));
        }
    }
}

proof fn lemma_pulled_fits(
    plans: Seq<scanner::PlanModel>,
    terms: Seq<Terminal>,
    ignore: Seq<SymbolId>,
    text: Seq<char>,
    p: Place,
)
    requires
        p.pos <= text.len() <= usize::MAX,
    ensures
        ({
            let (q, r) = lexer::pulled(plans, terms, ignore, text, p);
            r matches Ok(t) ==> q.pos <= text.len() && lexer::pull_fits(text, q, t)
        }),
    decreases text.len() - p.pos,
{
    if p.pos < text.len() {
        lemma_plans_token(plans, terms, text, p, 0);
        if let Some(t) = lexer::plans_token(plans, terms, text, p, 0) {
            let q = lexer::past(p, t.value);
            if ignore.contains(t.type_id) && p.pos < q.pos <= text.len() {
                lemma_pulled_fits(plans, terms, ignore, text, q);
            }
        }
    }
}

/// The tokens that a lexer hands out over a text are in place.
proof fn lemma_source(
    infos: Seq<symbols::SymbolInfo>,
    c: lex_sources::LazyModel,
    fuel: nat,
)
    requires
        names_agree(infos, c.lexer),
        c.place.pos <= c.text.len() <= usize::MAX,
        c.current is None,
    ensures
        span_tree::all_in_place::<Contextual>(infos, c.text, c, fuel),
    decreases fuel,
{
    assert forall|state: nat|
        match (#[trigger] <Contextual as TokenSource>::peek_model(c, state)) {
            (next, Ok(t)) => span_tree::in_place(infos, c.text, t) && (fuel > 0
                ==> span_tree::all_in_place::<Contextual>(
                infos,
                c.text,
                <Contextual as TokenSource>::advance_model(next),
                (fuel - 1) as nat,
            )),
            _ => true,
        } by {
        let plans = lex_sources::plans_for(c.lexer, state);
        let terms = lex_sources::kind_terminals(c.lexer);
        let ignore = lex_sources::kind_ignore(c.lexer);
        lemma_pulled_fits(plans, terms, ignore, c.text, c.place);
        lexer::lemma_pulled_again(plans, terms, ignore, c.text, c.place);
        if let (q, Ok(t)) = lex_sources::next_of(c.lexer, state, c.text, c.place) {
            reveal_strlit("");
            assert(t.value =~= span_tree::clipped(c.text, t.start_pos, t.end_pos));
            lexer::past_counts(q, t.value);
            let next = lex_sources::lazy_peek(c, state).0;
            if fuel > 0 {
                lemma_source(infos, lex_sources::lazy_advance(next), (fuel - 1) as nat);
            }
        }
    }
}

// ---------------------------------------------------------------------------
// Lexers of a grammar

/// Whether a terminal is among others.
spec fn is_among(terms: Seq<Terminal>, id: SymbolId) -> bool {
    exists|k: int| 0 <= k < terms.len() && (#[trigger] terms[k]).id == id
}

/// Whether the terminals are named as the grammar names their types.
pub open spec fn are_named(infos: Seq<symbols::SymbolInfo>, terms: Seq<Terminal>) -> bool {
    forall|k: int|
        0 <= k < terms.len() ==> (#[trigger] terms[k]).def.name@ == symbols::name_of(
            infos,
            terms[k].id,
        )
}

/// Whether a lexer is built for a grammar.
pub open spec fn is_lexer_of(g: CompiledGrammar, m: lex_sources::KindModel) -> bool {
    let terms = lexer::lexed_terminals(g, g.terminals@.len());
    match m {
        lex_sources::KindModel::Basic(l) => l.terminals == terms && exists|flags: u32|
            l.plan == #[trigger] scanner::plan_of(terms, flags),
        lex_sources::KindModel::Contextual(l) => exists|
            conf: LexerConf,
            states: Seq<Vec<SymbolId>>,
            always: Seq<SymbolId>,
        |
            conf.terminals@ == terms && l == #[trigger] lexer::contextual_of(
                conf,
                states,
                always,
            ),
    }
}

proof fn lemma_trial_order(terms: Seq<Terminal>, k: nat)
    requires
        k <= terms.len() <= usize::MAX,
    ensures
        scanner::trial_order(terms, k).len() == k,
        forall|i: int| 0 <= i < k ==> #[trigger] scanner::trial_order(terms, k)[i] < k,
    decreases k,
{
    if k > 0 {
        let order = scanner::trial_order(terms, (k - 1) as nat);
        lemma_trial_order(terms, (k - 1) as nat);
        lemma_slot(terms, order, k - 1, 0);
        let at = scanner::slot_for(terms, order, k - 1, 0);
        assert forall|i: int| 0 <= i < k implies #[trigger] scanner::trial_order(terms, k)[i]
            < k by {
            if i < at {
                assert(order[i] < k - 1);
            } else if i > at {
                assert(order[i - 1] < k - 1);
            }
        }
    }
}

proof fn lemma_slot(terms: Seq<Terminal>, order: Seq<usize>, x: int, from: int)
    requires
        0 <= from <= order.len(),
    ensures
        from <= scanner::slot_for(terms, order, x, from) <= order.len(),
    decreases order.len() - from,
{
    if from < order.len() {
        lemma_slot(terms, order, x, from + 1);
    }
}

proof fn lemma_alternatives(prefix: Seq<char>, terms: Seq<Terminal>, order: Seq<usize>, k: nat)
    requires
        k <= order.len(),
        forall|i: int| 0 <= i < order.len() ==> #[trigger] order[i] < terms.len(),
    ensures
        forall|i: int|
            0 <= i < scanner::alternatives(prefix, terms, order, k).len() ==> is_among(
                terms,
                (#[trigger] scanner::alternatives(prefix, terms, order, k)[i]).0,
            ),
    decreases k,
{
    if k > 0 {
        lemma_alternatives(prefix, terms, order, (k - 1) as nat);
        let x = order[k - 1] as int;
        let before = scanner::alternatives(prefix, terms, order, (k - 1) as nat);
        assert(is_among(terms, terms[x].id));
        assert forall|i: int|
            0 <= i < scanner::alternatives(prefix, terms, order, k).len() implies is_among(
            terms,
            (#[trigger] scanner::alternatives(prefix, terms, order, k)[i]).0,
        ) by {
            if i < before.len() {
                assert(is_among(terms, before[i].0));
            }
        }
    }
}

proof fn lemma_keywords_of(prefix: Seq<char>, terms: Seq<Terminal>, r: int, k: nat)
    requires
        k <= terms.len(),
    ensures
        forall|i: int|
            0 <= i < scanner::keywords_of(prefix, terms, r, k).len() ==> is_among(
                terms,
                (#[trigger] scanner::keywords_of(prefix, terms, r, k)[i]).to,
            ),
    decreases k,
{
    if k > 0 {
        lemma_keywords_of(prefix, terms, r, (k - 1) as nat);
        let before = scanner::keywords_of(prefix, terms, r, (k - 1) as nat);
        assert(is_among(terms, terms[k - 1].id));
        assert forall|i: int|
            0 <= i < scanner::keywords_of(prefix, terms, r, k).len() implies is_among(
            terms,
            (#[trigger] scanner::keywords_of(prefix, terms, r, k)[i]).to,
        ) by {
            if i < before.len() {
                assert(is_among(terms, before[i].to));
            }
        }
    }
}

proof fn lemma_all_keywords(prefix: Seq<char>, terms: Seq<Terminal>, r: nat)
    ensures
        forall|i: int|
            0 <= i < scanner::all_keywords(prefix, terms, r).len() ==> is_among(
                terms,
                (#[trigger] scanner::all_keywords(prefix, terms, r)[i]).to,
            ),
    decreases r,
{
    if r > 0 {
        let before = scanner::all_keywords(prefix, terms, (r - 1) as nat);
        let more = scanner::keywords_of(prefix, terms, r - 1, terms.len());
        lemma_all_keywords(prefix, terms, (r - 1) as nat);
        lemma_keywords_of(prefix, terms, r - 1, terms.len());
        assert forall|i: int|
            0 <= i < scanner::all_keywords(prefix, terms, r).len() implies is_among(
            terms,
            (#[trigger] scanner::all_keywords(prefix, terms, r)[i]).to,
        ) by {
            if i < before.len() {
                assert(is_among(terms, before[i].to));
            } else {
                assert(is_among(terms, more[i - before.len()].to));
            }
        }
    }
}

/// Whether all types that a plan gives are those of terminals.
spec fn gives(terms: Seq<Terminal>, m: scanner::PlanModel) -> bool {
    &&& forall|i: int| 0 <= i < m.groups.len() ==> is_among(terms, (#[trigger] m.groups[i]).0)
    &&& forall|i: int| 0 <= i < m.unless.len() ==> is_among(terms, (#[trigger] m.unless[i]).to)
}

proof fn lemma_plan_gives(terms: Seq<Terminal>, some: Seq<Terminal>, flags: u32)
    requires
        some.len() <= usize::MAX,
        forall|k: int| 0 <= k < some.len() ==> is_among(terms, (#[trigger] some[k]).id),
    ensures
        gives(terms, scanner::plan_of(some, flags)),
{
    let prefix = pattern::flags_prefix(flags);
    let order = scanner::trial_order(some, some.len());
    let m = scanner::plan_of(some, flags);
    lemma_trial_order(some, some.len());
    lemma_alternatives(prefix, some, order, some.len());
    lemma_all_keywords(prefix, some, some.len());
    assert forall|i: int| 0 <= i < m.groups.len() implies is_among(
        terms,
        (#[trigger] m.groups[i]).0,
    ) by {
        assert(is_among(some, m.groups[i].0));
        let k = choose|k: int| 0 <= k < some.len() && (#[trigger] some[k]).id == m.groups[i].0;
        assert(is_among(terms, some[k].id));
    }
    assert forall|i: int| 0 <= i < m.unless.len() implies is_among(
        terms,
        (#[trigger] m.unless[i]).to,
    ) by {
        assert(is_among(some, m.unless[i].to));
        let k = choose|k: int| 0 <= k < some.len() && (#[trigger] some[k]).id == m.unless[i].to;
        assert(is_among(terms, some[k].id));
    }
}

proof fn lemma_admitted(
    terms: Seq<Terminal>,
    ids: Seq<SymbolId>,
    always: Seq<SymbolId>,
    k: nat,
)
    requires
        k <= terms.len(),
    ensures
        lexer::admitted(terms, ids, always, k).len() <= k,
        forall|i: int|
            0 <= i < lexer::admitted(terms, ids, always, k).len() ==> is_among(
                terms,
                (#[trigger] lexer::admitted(terms, ids, always, k)[i]).id,
            ),
    decreases k,
{
    if k > 0 {
        lemma_admitted(terms, ids, always, (k - 1) as nat);
        assert(is_among(terms, terms[k - 1].id));
    }
}

proof fn lemma_group(m: scanner::PlanModel, before: Seq<char>, rest: Seq<char>, i: int)
    ensures
        scanner::first_match(m, before, rest, i) matches Some((id, _)) ==> exists|q: int|
            0 <= q < m.groups.len() && (#[trigger] m.groups[q]).0 == id,
    decreases m.groups.len() - i,
{
    if 0 <= i < m.groups.len() {
        lemma_group(m, before, rest, i + 1);
        assert(m.groups[i].0 == m.groups[i].0);
    }
}

proof fn lemma_keyword(
    terms: Seq<Terminal>,
    unless: Seq<scanner::KeywordModel>,
    id: SymbolId,
    v: Seq<char>,
    i: int,
)
    requires
        is_among(terms, id),
        forall|q: int| 0 <= q < unless.len() ==> is_among(terms, (#[trigger] unless[q]).to),
    ensures
        is_among(terms, scanner::keyword_type(unless, id, v, i)),
    decreases unless.len() - i,
{
    if 0 <= i < unless.len() {
        lemma_keyword(terms, unless, id, v, i + 1);
    }
}

proof fn lemma_name(infos: Seq<symbols::SymbolInfo>, terms: Seq<Terminal>, id: SymbolId, i: int)
    requires
        are_named(infos, terms),
        0 <= i,
        exists|k: int| i <= k < terms.len() && (#[trigger] terms[k]).id == id,
    ensures
        lexer::terminal_name(terms, id, i) == symbols::name_of(infos, id),
    decreases terms.len() - i,
{
    let k = choose|k: int| i <= k < terms.len() && (#[trigger] terms[k]).id == id;
    if terms[i].id != id {
        assert(i + 1 <= k);
        lemma_name(infos, terms, id, i + 1);
    }
}

proof fn lemma_plans_named(
    infos: Seq<symbols::SymbolInfo>,
    plans: Seq<scanner::PlanModel>,
    terms: Seq<Terminal>,
    text: Seq<char>,
    p: Place,
    i: int,
)
    requires
        are_named(infos, terms),
        forall|q: int| 0 <= q < plans.len() ==> gives(terms, #[trigger] plans[q]),
    ensures
        lexer::plans_token(plans, terms, text, p, i) matches Some(t) ==> t.type_
            == symbols::name_of(infos, t.type_id),
    decreases plans.len() - i,
{
    if 0 <= i < plans.len() {
        lemma_plans_named(infos, plans, terms, text, p, i + 1);
        let before = text.take(p.pos as int);
        let rest = text.skip(p.pos as int);
        lemma_group(plans[i], before, rest, 0);
        if let Some((id, v)) = scanner::first_match(plans[i], before, rest, 0) {
            assert(gives(terms, plans[i]));
            let q = choose|q: int|
                0 <= q < plans[i].groups.len() && (#[trigger] plans[i].groups[q]).0 == id;
            assert(is_among(terms, plans[i].groups[q].0));
            lemma_keyword(terms, plans[i].unless, id, v, 0);
            let found = scanner::keyword_type(plans[i].unless, id, v, 0);
            let k = choose|k: int| 0 <= k < terms.len() && (#[trigger] terms[k]).id == found;
            assert(terms[k].id == found);
            lemma_name(infos, terms, found, 0);
        }
    }
}

proof fn lemma_pulled_named(
    infos: Seq<symbols::SymbolInfo>,
    plans: Seq<scanner::PlanModel>,
    terms: Seq<Terminal>,
    ignore: Seq<SymbolId>,
    text: Seq<char>,
    p: Place,
)
    requires
        are_named(infos, terms),
        forall|q: int| 0 <= q < plans.len() ==> gives(terms, #[trigger] plans[q]),
        symbols::name_of(infos, SymbolId::spec_end()) == "$END"@,
    ensures
        lexer::pulled(plans, terms, ignore, text, p).1 matches Ok(t) ==> t.type_
            == symbols::name_of(infos, t.type_id),
    decreases text.len() - p.pos,
{
    if p.pos < text.len() {
        lemma_plans_named(infos, plans, terms, text, p, 0);
        if let Some(t) = lexer::plans_token(plans, terms, text, p, 0) {
            let q = lexer::past(p, t.value);
            if ignore.contains(t.type_id) && p.pos < q.pos <= text.len() {
                lemma_pulled_named(infos, plans, terms, ignore, text, q);
            }
        }
    }
}

proof fn lemma_terms_named(g: CompiledGrammar, k: nat)
    requires
        g.wf(),
        lexer::terminals_known(g),
        k <= g.terminals@.len(),
    ensures
        are_named(g.symbols@, lexer::lexed_terminals(g, k)),
        lexer::lexed_terminals(g, k).len() <= k,
    decreases k,
{
    if k > 0 {
        lemma_terms_named(g, (k - 1) as nat);
        let t = g.terminals@[k - 1];
        if !t.declared {
            let infos = g.symbols@;
            assert(symbols::id_of(infos, t.name@) is Some);
            let q = choose|q: int| symbols::name_position(infos, t.name@, q);
            assert(symbols::name_position(infos, t.name@, q));
            assert((symbols::id_of(infos, t.name@)->0).ix() == q);
        }
    }
}

/// A lexer that is built for a grammar names tokens as the grammar names their
/// types.
pub proof fn lexers_name_tokens_as_the_grammar(g: CompiledGrammar, m: lex_sources::KindModel)
    requires
        g.wf(),
        lexer::terminals_known(g),
        is_lexer_of(g, m),
    ensures
        names_agree(g.symbols@, m),
{
    let terms = lexer::lexed_terminals(g, g.terminals@.len());
    assert(g.terminals.len() <= usize::MAX);
    lemma_terms_named(g, g.terminals@.len());
    assert forall|k: int| 0 <= k < terms.len() implies is_among(
        terms,
        (#[trigger] terms[k]).id,
    ) by {}
    assert forall|state: nat, text: Seq<char>, p: Place|
        (#[trigger] lex_sources::next_of(m, state, text, p)).1 matches Ok(t) ==> t.type_
            == symbols::name_of(g.symbols@, t.type_id) by {
        let plans = lex_sources::plans_for(m, state);
        assert forall|q: int| 0 <= q < plans.len() implies gives(terms, #[trigger] plans[q]) by {
            match m {
                lex_sources::KindModel::Basic(l) => {
                    let flags = choose|flags: u32|
                        l.plan == #[trigger] scanner::plan_of(terms, flags);
                    lemma_plan_gives(terms, terms, flags);
                },
                lex_sources::KindModel::Contextual(l) => {
                    let (conf, states, always) = choose|
                        conf: LexerConf,
                        states: Seq<Vec<SymbolId>>,
                        always: Seq<SymbolId>,
                    |
                        conf.terminals@ == terms && l == #[trigger] lexer::contextual_of(
                            conf,
                            states,
                            always,
                        );
                    lemma_plan_gives(terms, terms, conf.global_flags);
                    if state < l.states.len() {
                        let some = lexer::admitted(
                            terms,
                            states[state as int]@,
                            always,
                            terms.len(),
                        );
                        lemma_admitted(terms, states[state as int]@, always, terms.len());
                        lemma_plan_gives(terms, some, conf.global_flags);
                    }
                },
            }
        }
        lemma_pulled_named(
            g.symbols@,
            plans,
            lex_sources::kind_terminals(m),
            lex_sources::kind_ignore(m),
            text,
            p,
        );
    }
}

/// A borrowing parse of a text stands for the tree that an ordinary parse of it
/// builds, and fails where that parse fails, with the table and a lexer of one
/// grammar.
pub proof fn borrowing_parse_of_a_text_agrees(
    g: CompiledGrammar,
    table: ParseTable,
    m: lex_sources::KindModel,
    text: Seq<char>,
    states: Seq<usize>,
    values: Seq<output::GSlotModel<tree::Node>>,
    fuel: nat,
)
    requires
        g.wf(),
        lexer::terminals_known(g),
        is_lexer_of(g, m),
        table.wf(),
        table.symbols@ == g.symbols@,
        text.len() <= usize::MAX,
    ensures
        lalr::ran::<Contextual, SpanTreeBuilder>(
            table,
            lalr::context_of(table),
            text,
            lex_sources::lazy_start(m, text),
            states,
            values,
            fuel,
        ) == lalr::ran::<Contextual, TreeOutputBuilder>(
            table,
            table.propagate_positions,
            text,
            lex_sources::lazy_start(m, text),
            states,
            values,
            fuel,
        ),
{
    lexers_name_tokens_as_the_grammar(g, m);
    lemma_source(table.symbols@, lex_sources::lazy_start(m, text), fuel);
    let a = choose|a: Automaton| #[trigger] table.tabulates(a);
    assert forall|s: int, t: SymbolId|
        #[trigger] table.action_for(s, t) matches Some(Action::Reduce(r)) implies (
    table.action_for(s, t)->0)->Reduce_0 < table.models().len() by {
        let nt = table.n_terminals as nat;
        assert(table.action@[s]@ == lalr_table::action_row(table.models(), nt, a, s, nt));
        lalr_stack::lemma_action_row(table.models(), nt, a, s, nt, t);
    }
    span_tree::borrowing_parse_agrees::<Contextual>(
        table,
        text,
        text,
        lex_sources::lazy_start(m, text),
        states,
        values,
        fuel,
    );
}

} // verus!
