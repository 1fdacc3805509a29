//! What a frontend is made of: its options decide on the parser, the lexer and the
//! indenter, and its grammar on what is lexed.

use vstd::prelude::*;
use crate::cnf;
use crate::error::GrammarError;
use crate::frontend;
use crate::frontend::{Ambiguity, Driver, LarkError, LarkOptions, LexerType, ParserAlgorithm};
use crate::lalr_table;
use crate::lalr_table::{Grammar, ParseTable};
use crate::lexer;
use crate::lexer::ContextualLexer;
use crate::pattern;
use crate::postlex;
use crate::report_laws;
use crate::scanner;
use crate::scanner::Terminal;
use crate::symbols;
use crate::symbols::{CompiledGrammar, SymbolId};

verus! {

// ---------------------------------------------------------------------------
// What the parts of a frontend are

/// The algorithm that a driver runs.
pub open spec fn algorithm(d: Driver) -> ParserAlgorithm {
    match d {
        Driver::EarleyBasic { .. } => ParserAlgorithm::Earley,
        Driver::EarleyPostlex { .. } => ParserAlgorithm::Earley,
        Driver::EarleyDynamic { .. } => ParserAlgorithm::Earley,
        Driver::Cyk { .. } => ParserAlgorithm::Cyk,
        _ => ParserAlgorithm::Lalr,
    }
}

/// The indenter of a driver, if it has one.
pub open spec fn indenter(d: Driver) -> Option<postlex::IndenterModel> {
    match d {
        Driver::LalrPostlex { postlex, .. } => Some(postlex@),
        Driver::LalrContextualPostlex { postlex, .. } => Some(postlex@),
        Driver::EarleyPostlex { postlex, .. } => Some(postlex@),
        Driver::Cyk { postlex: Some((p, _)), .. } => Some(p@),
        _ => None,
    }
}

/// Whether a driver lexes for the parser state.
pub open spec fn is_contextual(d: Driver) -> bool {
    d is LalrContextual || d is LalrContextualPostlex
}

/// Whether a driver chooses one derivation, as far as it has to.
pub open spec fn chooses(d: Driver) -> Option<bool> {
    match d {
        Driver::EarleyBasic { resolve, .. } => Some(resolve),
        Driver::EarleyPostlex { resolve, .. } => Some(resolve),
        Driver::EarleyDynamic { resolve, .. } => Some(resolve),
        _ => None,
    }
}

/// Whether a lexer is dynamic.
pub open spec fn is_dynamic(l: LexerType) -> bool {
    l is DynamicComplete || l is Dynamic
}

/// Whether the expression of a terminal is refused.
pub open spec fn is_malformed(o: LarkOptions, t: Terminal) -> bool {
    !pattern::regex_valid(
        pattern::flags_prefix(o.g_regex_flags) + pattern::inline_of(t.def.pattern),
    )
}

/// Whether a terminal matches the empty text.
pub open spec fn matches_nothing(o: LarkOptions, t: Terminal) -> bool {
    pattern::matched(
        pattern::flags_prefix(o.g_regex_flags) + pattern::inline_of(t.def.pattern),
        Seq::empty(),
        Seq::empty(),
    ) is Some
}

/// Whether some terminal of a grammar is malformed.
pub open spec fn has_malformed(g: CompiledGrammar, o: LarkOptions) -> bool {
    exists|i: int|
        0 <= i < frontend::terms_of(g).len() && is_malformed(o, #[trigger] frontend::terms_of(g)[i])
}

/// Whether some terminal of a grammar matches the empty text.
pub open spec fn has_empty(g: CompiledGrammar, o: LarkOptions) -> bool {
    exists|i: int|
        0 <= i < frontend::terms_of(g).len() && matches_nothing(
            o,
            #[trigger] frontend::terms_of(g)[i],
        )
}

/// Whether a name that the indenter needs is not one of the grammar.
pub open spec fn lacks_name(g: CompiledGrammar, o: LarkOptions) -> bool {
    o.postlex matches Some(p) && (symbols::id_of(g.symbols@, p@.nl_type) is None
        || symbols::id_of(g.symbols@, p@.dedent_type) is None || symbols::id_of(
        g.symbols@,
        p@.indent_type,
    ) is None)
}

proof fn lemma_first_invalid(prefix: Seq<char>, terms: Seq<Terminal>, i: int)
    requires
        0 <= i,
    ensures
        match scanner::first_invalid(prefix, terms, i) {
            Some(k) => i <= k < terms.len() && !pattern::regex_valid(
                prefix + pattern::inline_of(terms[k].def.pattern),
            ) && forall|j: int|
                i <= j < k ==> pattern::regex_valid(
                    prefix + pattern::inline_of((#[trigger] terms[j]).def.pattern),
                ),
            None => forall|j: int|
                i <= j < terms.len() ==> pattern::regex_valid(
                    prefix + pattern::inline_of((#[trigger] terms[j]).def.pattern),
                ),
        },
    decreases terms.len() - i,
{
    if i < terms.len() && pattern::regex_valid(prefix + pattern::inline_of(terms[i].def.pattern)) {
        lemma_first_invalid(prefix, terms, i + 1);
    }
}

proof fn lemma_first_empty(prefix: Seq<char>, terms: Seq<Terminal>, i: int)
    requires
        0 <= i,
    ensures
        match lexer::first_empty(prefix, terms, i) {
            Some(k) => i <= k < terms.len() && pattern::matched(
                prefix + pattern::inline_of(terms[k].def.pattern),
                Seq::empty(),
                Seq::empty(),
            ) is Some && forall|j: int|
                i <= j < k ==> pattern::matched(
                    prefix + pattern::inline_of((#[trigger] terms[j]).def.pattern),
                    Seq::empty(),
                    Seq::empty(),
                ) is None,
            None => forall|j: int|
                i <= j < terms.len() ==> pattern::matched(
                    prefix + pattern::inline_of((#[trigger] terms[j]).def.pattern),
                    Seq::empty(),
                    Seq::empty(),
                ) is None,
        },
    decreases terms.len() - i,
{
    if i < terms.len() && pattern::matched(
        prefix + pattern::inline_of(terms[i].def.pattern),
        Seq::empty(),
        Seq::empty(),
    ) is None {
        lemma_first_empty(prefix, terms, i + 1);
    }
}

proof fn lemma_faults(g: CompiledGrammar, o: LarkOptions)
    ensures
        frontend::pattern_fault(g, o) is Some == has_malformed(g, o),
        frontend::zero_width_fault(g, o) is Some == has_empty(g, o),
        frontend::indenter_fault(g, o) is Some == lacks_name(g, o),
{
    let prefix = pattern::flags_prefix(o.g_regex_flags);
    let terms = frontend::terms_of(g);
    lemma_first_invalid(prefix, terms, 0);
    lemma_first_empty(prefix, terms, 0);
    if let Some(k) = scanner::first_invalid(prefix, terms, 0) {
        assert(is_malformed(o, frontend::terms_of(g)[k]));
    }
    if let Some(k) = lexer::first_empty(prefix, terms, 0) {
        assert(matches_nothing(o, frontend::terms_of(g)[k]));
    }
}

/// Of several terminals that match the empty text, or whose expressions are refused,
/// the first is reported.
pub proof fn the_first_faulty_terminal_is_reported(g: CompiledGrammar, o: LarkOptions, k: int)
    requires
        0 <= k < frontend::terms_of(g).len(),
    ensures
        ({
            let terms = frontend::terms_of(g);
            &&& is_malformed(o, terms[k]) && (forall|j: int|
                0 <= j < k ==> !is_malformed(o, #[trigger] terms[j]))
                ==> frontend::pattern_fault(g, o) == Some(
                "invalid regular expression in terminal "@ + terms[k].def.name@,
            )
            &&& matches_nothing(o, terms[k]) && (forall|j: int|
                0 <= j < k ==> !matches_nothing(o, #[trigger] terms[j]))
                ==> frontend::zero_width_fault(g, o) == Some(
                "Lexer does not allow zero-width terminals: "@ + terms[k].def.name@,
            )
        }),
{
    let prefix = pattern::flags_prefix(o.g_regex_flags);
    let terms = frontend::terms_of(g);
    lemma_first_invalid(prefix, terms, 0);
    lemma_first_empty(prefix, terms, 0);
    if let Some(i) = scanner::first_invalid(prefix, terms, 0) {
        if i != k {
            assert(is_malformed(o, terms[i]));
        }
    } else {
        assert(!is_malformed(o, terms[k]));
    }
    if let Some(i) = lexer::first_empty(prefix, terms, 0) {
        if i != k {
            assert(matches_nothing(o, terms[i]));
        }
    } else {
        assert(!matches_nothing(o, terms[k]));
    }
}

/// A frontend that is built runs the algorithm that is asked for, has an indenter
/// exactly where one is given, and lexes for the parser state, dynamically, or with all
/// terminals everywhere, as the lexer that is asked for does. It chooses one derivation
/// exactly where ambiguity is to be resolved. None of its terminals is malformed, and
/// none matches the empty text, unless the lexer is dynamic.
pub proof fn frontends_follow_their_options(g: Grammar, o: LarkOptions, d: Driver)
    requires
        frontend::driver_built(g, o, Ok(d)),
    ensures
        algorithm(d) == o.parser,
        match o.postlex {
            Some(p) => indenter(d) == Some(p@),
            None => indenter(d) is None,
        },
        is_contextual(d) == (o.parser is Lalr && (o.lexer is Auto || o.lexer is Contextual)),
        d is EarleyDynamic == (o.parser is Earley && is_dynamic(o.lexer)),
        d matches Driver::EarleyDynamic { complete_lex, .. } ==> complete_lex
            == (o.lexer == LexerType::DynamicComplete),
        chooses(d) matches Some(r) ==> r == (o.ambiguity == Ambiguity::Resolve),
        o.parser is Earley ==> chooses(d) is Some && !(o.ambiguity is Forest),
        !(is_dynamic(o.lexer) && o.postlex is Some),
        !has_malformed(g.compiled, o),
        d is EarleyDynamic || !has_empty(g.compiled, o),
        d is EarleyDynamic || !lacks_name(g.compiled, o),
{
    lemma_faults(g.compiled, o);
    match o.parser {
        ParserAlgorithm::Lalr => {
            let t = choose|t: Result<ParseTable, GrammarError>|
                #[trigger] lalr_table::table_result(g.compiled, o.strict, t) && match t {
                    Err(e) => Ok::<Driver, LarkError>(d) == Err::<Driver, LarkError>(
                        LarkError::Grammar(e),
                    ),
                    Ok(table) => frontend::lalr_checked(g, o, table, Ok(d)),
                };
            let table = t->Ok_0;
            assert(frontend::lalr_checked(g, o, table, Ok(d)));
            assert(frontend::lalr_driver(g.compiled, o, table, Ok(d)));
        },
        _ => {},
    }
}

/// An Earley or CYK frontend is refused for these reasons only: an indenter with a
/// dynamic lexer, a raw forest, a terminal that is malformed or, unless the lexer is
/// dynamic, matches the empty text, a name that the indenter lacks, or a grammar that
/// has no normal form.
pub proof fn frontends_are_refused_for_a_reason(g: Grammar, o: LarkOptions, e: LarkError)
    requires
        frontend::driver_built(g, o, Err(e)),
        !(o.parser is Lalr),
    ensures
        ({
            let c = g.compiled;
            ||| is_dynamic(o.lexer) && o.postlex is Some
            ||| o.parser is Earley && o.ambiguity is Forest
            ||| has_malformed(c, o)
            ||| has_empty(c, o) && !(o.parser is Earley && is_dynamic(o.lexer))
            ||| lacks_name(c, o)
            ||| o.parser is Cyk && cnf::cnf_error(
                c.models(),
                c.terminal_count as nat,
                c.start@,
                c.symbols@,
            ) is Some
        }),
{
    lemma_faults(g.compiled, o);
}

// ---------------------------------------------------------------------------
// What a parser state lexes

/// Whether a terminal is lexed in a state: the state has an action for it, or it is
/// ignored, or it is the newline of the indenter.
pub open spec fn is_lexed_in(
    g: CompiledGrammar,
    o: LarkOptions,
    table: ParseTable,
    s: int,
    id: SymbolId,
) -> bool {
    ||| table.action_for(s, id) is Some
    ||| g.ignore@.contains(id)
    ||| o.postlex matches Some(p) && symbols::id_of(g.symbols@, p@.nl_type) == Some(id)
}

proof fn lemma_admitted(
    terms: Seq<Terminal>,
    ids: Seq<SymbolId>,
    always: Seq<SymbolId>,
    k: nat,
    t: Terminal,
)
    requires
        k <= terms.len(),
    ensures
        lexer::admitted(terms, ids, always, k).contains(t) <==> terms.take(k as int).contains(t)
            && (ids.contains(t.id) || always.contains(t.id)),
    decreases k,
{
    let s = lexer::admitted(terms, ids, always, k);
    let front = terms.take(k as int);
    if k > 0 {
        lemma_admitted(terms, ids, always, (k - 1) as nat, t);
        let before = lexer::admitted(terms, ids, always, (k - 1) as nat);
        let less = terms.take((k - 1) as int);
        if s.contains(t) {
            let i = choose|i: int| 0 <= i < s.len() && s[i] == t;
            if i < before.len() {
                assert(before[i] == t);
                let j = choose|j: int| 0 <= j < less.len() && less[j] == t;
                assert(front[j] == t);
            } else {
                assert(front[k - 1] == t);
            }
        }
        if front.contains(t) && (ids.contains(t.id) || always.contains(t.id)) {
            let j = choose|j: int| 0 <= j < front.len() && front[j] == t;
            if j < k - 1 {
                assert(less[j] == t);
                assert(before.contains(t));
                let i = choose|i: int| 0 <= i < before.len() && before[i] == t;
                assert(s[i] == t);
            } else {
                assert(s[before.len() as int] == t);
            }
        }
    }
}

/// A lexer that goes by the parser state scans in each state for those terminals of
/// the grammar that are lexed there.
pub proof fn states_lex_what_they_can_take(
    g: CompiledGrammar,
    o: LarkOptions,
    table: ParseTable,
    l: ContextualLexer,
    s: int,
) -> (terms: Seq<Terminal>)
    requires
        frontend::is_contextual_lexer(g, o, table, l),
        0 <= s < table.action@.len(),
    ensures
        l@.states.len() == table.action@.len(),
        l@.states[s] == scanner::plan_of(terms, o.g_regex_flags),
        l@.root == scanner::plan_of(frontend::terms_of(g), o.g_regex_flags),
        l@.ignore == g.ignore@,
        forall|t: Terminal| #[trigger]
            terms.contains(t) <==> frontend::terms_of(g).contains(t) && is_lexed_in(
                g,
                o,
                table,
                s,
                t.id,
            ),
{
    let all = frontend::terms_of(g);
    let row = table.action@[s]@;
    let ids = Seq::new(row.len(), |i: int| SymbolId(row[i].0));
    let always = frontend::always_of(g, o);
    let terms = lexer::admitted(all, ids, always, all.len());
    assert(all.take(all.len() as int) =~= all);
    assert forall|t: Terminal| #[trigger] terms.contains(t) <==> all.contains(t) && is_lexed_in(
        g,
        o,
        table,
        s,
        t.id,
    ) by {
        lemma_admitted(all, ids, always, all.len(), t);
        report_laws::lemma_row_find(row, t.id.0);
        if ids.contains(t.id) {
            let i = choose|i: int| 0 <= i < ids.len() && ids[i] == t.id;
            assert(row[i].0 == t.id.0);
        }
        if table.action_for(s, t.id) is Some {
            let i = choose|i: int| 0 <= i < row.len() && (#[trigger] row[i]).0 == t.id.0;
            assert(ids[i] == t.id);
        }
        lemma_always(g, o, t.id);
    }
    terms
}

proof fn lemma_always(g: CompiledGrammar, o: LarkOptions, id: SymbolId)
    ensures
        frontend::always_of(g, o).contains(id) <==> g.ignore@.contains(id) || (
        o.postlex matches Some(p) && symbols::id_of(g.symbols@, p@.nl_type) == Some(id)),
{
    let s = frontend::always_of(g, o);
    if let Some(p) = o.postlex {
        if let Some(nl) = symbols::id_of(g.symbols@, p@.nl_type) {
            if !g.ignore@.contains(nl) {
                assert(s == g.ignore@.push(nl));
                assert(s[g.ignore@.len() as int] == nl);
                if g.ignore@.contains(id) {
                    let i = choose|i: int| 0 <= i < g.ignore@.len() && g.ignore@[i] == id;
                    assert(s[i] == id);
                }
                if s.contains(id) {
                    let i = choose|i: int| 0 <= i < s.len() && s[i] == id;
                    if i < g.ignore@.len() {
                        assert(g.ignore@[i] == id);
                    }
                }
            }
        }
    }
}

} // verus!
