//! What a generated file tells of the table and the scanner that it is made of.

use vstd::prelude::*;
use crate::frontend::LarkOptions;
use crate::lalr_table::{Action, ParseTable};
use crate::postlex;
use crate::scanner;
use crate::standalone;
use crate::standalone_laws;
use crate::symbols;
use crate::symbols::SymbolId;
use crate::text;

verus! {

/// Whether a text stands in another.
#[verifier::opaque]
pub open spec fn is_in(s: Seq<char>, p: Seq<char>) -> bool {
    exists|a: Seq<char>, b: Seq<char>| s == #[trigger] (a + p + b)
}

/// Whether a file holds a list under a title, with these lines and no others.
pub open spec fn holds_list(s: Seq<char>, title: Seq<char>, lines: Seq<Seq<char>>) -> bool {
    is_in(s, title + lines.flatten() + "];\n\n"@)
}

/// What stands for an action.
pub open spec fn action_word(a: Action) -> Seq<char> {
    match a {
        Action::Shift(n) => "Action::Shift("@ + text::decimal_text(n as nat) + ")"@,
        Action::Reduce(n) => "Action::Reduce("@ + text::decimal_text(n as nat) + ")"@,
        Action::Accept => "Action::Accept"@,
    }
}

/// A pair of a number and a text.
pub open spec fn pair(n: int, s: Seq<char>) -> Seq<char> {
    "("@ + text::decimal_text(n as nat) + ", "@ + s + ")"@
}

/// The line of a state with its entries.
pub open spec fn state_line(entries: Seq<Seq<char>>) -> Seq<char> {
    "    &["@ + standalone_laws::listed(entries) + "],\n"@
}

/// Whether the lines tell the actions of each state: for each terminal with one, the
/// number of the terminal and the action.
#[verifier::opaque]
pub open spec fn tell_actions(lines: Seq<Seq<char>>, t: ParseTable) -> bool {
    &&& lines.len() == t.action@.len()
    &&& forall|s: int|
        0 <= s < lines.len() ==> #[trigger] lines[s] == state_line(
            Seq::new(
                t.action@[s]@.len(),
                |j: int| pair(t.action@[s]@[j].0 as int, action_word(t.action@[s]@[j].1)),
            ),
        )
}

/// Whether the lines tell the moves of each state: for each nonterminal with one, its
/// number and the state that it leads to.
#[verifier::opaque]
pub open spec fn tell_moves(lines: Seq<Seq<char>>, t: ParseTable) -> bool {
    &&& lines.len() == t.goto@.len()
    &&& forall|s: int|
        0 <= s < lines.len() ==> #[trigger] lines[s] == state_line(
            Seq::new(
                t.goto@[s]@.len(),
                |j: int|
                    pair(t.goto@[s]@[j].0 as int, text::decimal_text(t.goto@[s]@[j].1 as nat)),
            ),
        )
}

/// Whether the lines tell the rules, one each.
#[verifier::opaque]
pub open spec fn tell_rules(lines: Seq<Seq<char>>, rules: Seq<symbols::RuleModel>) -> bool {
    &&& lines.len() == rules.len()
    &&& forall|i: int| 0 <= i < lines.len() ==> standalone_laws::tells_rule(#[trigger] lines[i], rules[i])
}

/// Whether the lines tell the names of the symbols, one each.
#[verifier::opaque]
pub open spec fn tell_names(lines: Seq<Seq<char>>, infos: Seq<symbols::SymbolInfo>) -> bool {
    &&& lines.len() == infos.len()
    &&& forall|i: int|
        0 <= i < lines.len() ==> #[trigger] lines[i] == "    "@ + postlex::quoted(infos[i].name@)
            + ",\n"@
}

/// Whether the lines tell the expressions of the scanner in the order in which they
/// are tried, each with its terminal.
#[verifier::opaque]
pub open spec fn tell_groups(
    lines: Seq<Seq<char>>,
    groups: Seq<(SymbolId, Seq<char>)>,
) -> bool {
    &&& lines.len() == groups.len()
    &&& forall|i: int|
        0 <= i < lines.len() ==> #[trigger] lines[i] == "    "@ + pair(
            groups[i].0.ix() as int,
            postlex::quoted(groups[i].1),
        ) + ",\n"@
}

proof fn lemma_in_front(s: Seq<char>, p: Seq<char>, y: Seq<char>)
    requires
        is_in(s, p),
    ensures
        is_in(s + y, p),
{
    reveal(is_in);
    let (a, b) = choose|a: Seq<char>, b: Seq<char>| s == #[trigger] (a + p + b);
    assert(s + y =~= a + p + (b + y));
}

proof fn lemma_in_back(s: Seq<char>, p: Seq<char>, y: Seq<char>)
    requires
        is_in(s, p),
    ensures
        is_in(y + s, p),
{
    reveal(is_in);
    let (a, b) = choose|a: Seq<char>, b: Seq<char>| s == #[trigger] (a + p + b);
    assert(y + s =~= (y + a) + p + b);
}

proof fn lemma_in_end(y: Seq<char>, p: Seq<char>)
    ensures
        is_in(y + p, p),
{
    reveal(is_in);
    assert(y + p =~= y + p + Seq::empty());
}

proof fn lemma_section(title: Seq<char>, rows: Seq<Seq<char>>)
    ensures
        standalone::section(title, rows) == title + rows.flatten() + "];\n\n"@,
{
    standalone_laws::joined_parts_are_listed(rows);
}

proof fn lemma_action_rows(t: ParseTable)
    ensures
        tell_actions(standalone::action_rows(t), t),
{
    reveal(tell_actions);
    let lines = standalone::action_rows(t);
    assert forall|s: int| 0 <= s < lines.len() implies #[trigger] lines[s] == state_line(
        Seq::new(
            t.action@[s]@.len(),
            |j: int| pair(t.action@[s]@[j].0 as int, action_word(t.action@[s]@[j].1)),
        ),
    ) by {
        let row = t.action@[s]@;
        let entries = Seq::new(
            row.len(),
            |j: int| pair(row[j].0 as int, action_word(row[j].1)),
        );
        assert(standalone::action_entries(row) =~= entries);
        standalone_laws::joined_parts_are_listed(entries);
    }
}

proof fn lemma_goto_rows(t: ParseTable)
    ensures
        tell_moves(standalone::goto_rows(t), t),
{
    reveal(tell_moves);
    let lines = standalone::goto_rows(t);
    assert forall|s: int| 0 <= s < lines.len() implies #[trigger] lines[s] == state_line(
        Seq::new(
            t.goto@[s]@.len(),
            |j: int| pair(t.goto@[s]@[j].0 as int, text::decimal_text(t.goto@[s]@[j].1 as nat)),
        ),
    ) by {
        let row = t.goto@[s]@;
        let entries = Seq::new(
            row.len(),
            |j: int| pair(row[j].0 as int, text::decimal_text(row[j].1 as nat)),
        );
        assert(standalone::goto_entries(row) =~= entries);
        standalone_laws::joined_parts_are_listed(entries);
    }
}

/// Whether a file tells the table and the scanner: the number of terminals, the names
/// of the symbols, the rules, the actions and the moves of each state, the expressions
/// of the scanner with the flags in front of them, and the start symbol.
pub open spec fn tells_table(
    s: Seq<char>,
    t: ParseTable,
    plan: scanner::PlanModel,
    o: LarkOptions,
    names: Seq<Seq<char>>,
    rules: Seq<Seq<char>>,
    actions: Seq<Seq<char>>,
    moves: Seq<Seq<char>>,
    groups: Seq<Seq<char>>,
) -> bool {
    &&& is_in(s, "static N_TERMINALS: u32 = "@ + text::decimal_text(t.n_terminals as nat) + ";"@)
    &&& holds_list(s, "static SYMBOL_NAMES: &[&str] = &[\n"@, names)
    &&& tell_names(names, t.symbols@)
    &&& holds_list(s, "static RULES: &[RuleData] = &[\n"@, rules)
    &&& tell_rules(rules, t.models())
    &&& holds_list(s, "static ACTION: &[&[(u32, Action)]] = &[\n"@, actions)
    &&& tell_actions(actions, t)
    &&& holds_list(s, "static GOTO: &[&[(u32, u32)]] = &[\n"@, moves)
    &&& tell_moves(moves, t)
    &&& is_in(
        s,
        "static START_DEFAULT: &str = "@ + postlex::quoted(
            if o.start@.len() > 0 {
                o.start@[0]@
            } else {
                "start"@
            },
        ) + ";"@,
    )
    &&& is_in(s, "static GLOBAL_PREFIX: &str = "@ + postlex::quoted(plan.prefix) + ";"@)
    &&& holds_list(s, "static SCAN_GROUPS: &[(u32, &str)] = &[\n"@, groups)
    &&& tell_groups(groups, plan.groups)
}

proof fn lemma_rows(t: ParseTable, plan: scanner::PlanModel)
    ensures
        tell_names(standalone::symbol_rows(t.symbols@), t.symbols@),
        tell_rules(standalone::rule_rows(t.models()), t.models()),
        tell_actions(standalone::action_rows(t), t),
        tell_moves(standalone::goto_rows(t), t),
        tell_groups(standalone::group_rows(plan.groups), plan.groups),
{
    reveal(tell_names);
    reveal(tell_rules);
    reveal(tell_groups);
    lemma_action_rows(t);
    lemma_goto_rows(t);
    let rules = standalone::rule_rows(t.models());
    assert forall|i: int| 0 <= i < rules.len() implies standalone_laws::tells_rule(
        #[trigger] rules[i],
        t.models()[i],
    ) by {
        standalone_laws::rule_rows_read_back(t.models()[i]);
    }
    let groups = standalone::group_rows(plan.groups);
    assert forall|i: int| 0 <= i < groups.len() implies #[trigger] groups[i] == "    "@ + pair(
        plan.groups[i].0.ix() as int,
        postlex::quoted(plan.groups[i].1),
    ) + ",\n"@ by {
        let n = text::decimal_text(plan.groups[i].0.ix() as nat);
        let q = postlex::quoted(plan.groups[i].1);
        reveal_strlit("    (");
        reveal_strlit("    ");
        reveal_strlit("(");
        reveal_strlit("),\n");
        reveal_strlit(")");
        reveal_strlit(",\n");
        assert("    ("@ =~= "    "@ + "("@);
        assert("),\n"@ =~= ")"@ + ",\n"@);
        assert("    ("@ + n + ", "@ + q + "),\n"@ =~= "    "@ + ("("@ + n + ", "@ + q + ")"@)
            + ",\n"@);
    }
}

/// A generated file tells the table, the rules and the scanner that it is made of, so
/// that what it parses is what they say.
#[verifier::spinoff_prover]
#[verifier::rlimit(60)]
pub proof fn files_tell_their_tables(
    source: Seq<char>,
    t: ParseTable,
    plan: scanner::PlanModel,
    ignore: Seq<SymbolId>,
    o: LarkOptions,
)
    ensures
        exists|
            names: Seq<Seq<char>>,
            rules: Seq<Seq<char>>,
            actions: Seq<Seq<char>>,
            moves: Seq<Seq<char>>,
            groups: Seq<Seq<char>>,
        |
            tells_table(
                standalone::file_text(source, t, plan, ignore, o),
                t,
                plan,
                o,
                names,
                rules,
                actions,
                moves,
                groups,
            ),
{
    let file = standalone::file_text(source, t, plan, ignore, o);
    let names = standalone::symbol_rows(t.symbols@);
    let rules = standalone::rule_rows(t.models());
    let actions = standalone::action_rows(t);
    let moves = standalone::goto_rows(t);
    let groups = standalone::group_rows(plan.groups);
    lemma_rows(t, plan);
    lemma_lists(t, plan, ignore, o);
    lemma_list(source, t, plan, ignore, o, 2, "static SYMBOL_NAMES: &[&str] = &[\n"@, names);
    lemma_list(source, t, plan, ignore, o, 3, "static RULES: &[RuleData] = &[\n"@, rules);
    lemma_list(
        source,
        t,
        plan,
        ignore,
        o,
        4,
        "static ACTION: &[&[(u32, Action)]] = &[\n"@,
        actions,
    );
    lemma_list(source, t, plan, ignore, o, 5, "static GOTO: &[&[(u32, u32)]] = &[\n"@, moves);
    lemma_list(
        source,
        t,
        plan,
        ignore,
        o,
        13,
        "static SCAN_GROUPS: &[(u32, &str)] = &[\n"@,
        groups,
    );
    lemma_settings(source, t, plan, ignore, o);
    assert(tells_table(file, t, plan, o, names, rules, actions, moves, groups));
}

proof fn lemma_lists(
    t: ParseTable,
    plan: scanner::PlanModel,
    ignore: Seq<SymbolId>,
    o: LarkOptions,
)
    ensures
        ({
            let p = data_pieces(t, plan, ignore, o);
            &&& p[2] == standalone::section(
                "static SYMBOL_NAMES: &[&str] = &[\n"@,
                standalone::symbol_rows(t.symbols@),
            )
            &&& p[3] == standalone::section(
                "static RULES: &[RuleData] = &[\n"@,
                standalone::rule_rows(t.models()),
            )
            &&& p[4] == standalone::section(
                "static ACTION: &[&[(u32, Action)]] = &[\n"@,
                standalone::action_rows(t),
            )
            &&& p[5] == standalone::section(
                "static GOTO: &[&[(u32, u32)]] = &[\n"@,
                standalone::goto_rows(t),
            )
            &&& p[13] == standalone::section(
                "static SCAN_GROUPS: &[(u32, &str)] = &[\n"@,
                standalone::group_rows(plan.groups),
            )
        }),
{
    reveal(data_pieces);
}

proof fn lemma_list(
    source: Seq<char>,
    t: ParseTable,
    plan: scanner::PlanModel,
    ignore: Seq<SymbolId>,
    o: LarkOptions,
    i: nat,
    title: Seq<char>,
    lines: Seq<Seq<char>>,
)
    requires
        0 < i < 18,
        data_pieces(t, plan, ignore, o)[i as int] == standalone::section(title, lines),
    ensures
        holds_list(standalone::file_text(source, t, plan, ignore, o), title, lines),
{
    let pieces = data_pieces(t, plan, ignore, o);
    lemma_data_pieces(t, plan, ignore, o);
    lemma_section(title, lines);
    lemma_chained_in(pieces, i);
    lemma_in_file(source, standalone::data_text(t, plan, ignore, o), pieces[i as int]);
}

proof fn lemma_settings(
    source: Seq<char>,
    t: ParseTable,
    plan: scanner::PlanModel,
    ignore: Seq<SymbolId>,
    o: LarkOptions,
)
    ensures
        ({
            let s = standalone::file_text(source, t, plan, ignore, o);
            &&& is_in(
                s,
                "static N_TERMINALS: u32 = "@ + text::decimal_text(t.n_terminals as nat) + ";"@,
            )
            &&& is_in(
                s,
                "static START_DEFAULT: &str = "@ + postlex::quoted(
                    standalone::default_start(o.start@),
                ) + ";"@,
            )
            &&& is_in(s, "static GLOBAL_PREFIX: &str = "@ + postlex::quoted(plan.prefix) + ";"@)
        }),
{
    reveal(data_pieces);
    let pieces = data_pieces(t, plan, ignore, o);
    lemma_data_pieces(t, plan, ignore, o);
    let semi = ";"@;
    assert(";\n\n"@ == semi + "\n\n"@) by {
        reveal_strlit(";\n\n");
        reveal_strlit(";");
        reveal_strlit("\n\n");
        assert(";\n\n"@ =~= ";"@ + "\n\n"@);
    }
    let data = standalone::data_text(t, plan, ignore, o);
    lemma_chained_pair(pieces, 0, semi, "\n\n"@);
    lemma_chained_three(pieces, 7, semi, "\n\n"@);
    lemma_chained_three(pieces, 10, semi, "\n\n"@);
    lemma_in_file(source, data, pieces[0] + semi);
    lemma_in_file(source, data, pieces[7] + pieces[8] + semi);
    lemma_in_file(source, data, pieces[10] + pieces[11] + semi);
}

/// The pieces that the data of a file is made of.
#[verifier::opaque]
spec fn data_pieces(
    t: ParseTable,
    plan: scanner::PlanModel,
    ignore: Seq<SymbolId>,
    o: LarkOptions,
) -> Seq<Seq<char>> {
    let starts = standalone::named_starts(t, t.start_states@.len());
    let keywords = standalone::sorted_keywords(plan.unless, plan.unless.len());
    seq![
        "static N_TERMINALS: u32 = "@ + text::decimal_text(t.n_terminals as nat),
        ";\n\n"@,
        standalone::section(
            "static SYMBOL_NAMES: &[&str] = &[\n"@,
            standalone::symbol_rows(t.symbols@),
        ),
        standalone::section(
            "static RULES: &[RuleData] = &[\n"@,
            standalone::rule_rows(t.models()),
        ),
        standalone::section(
            "static ACTION: &[&[(u32, Action)]] = &[\n"@,
            standalone::action_rows(t),
        ),
        standalone::section("static GOTO: &[&[(u32, u32)]] = &[\n"@, standalone::goto_rows(t)),
        standalone::section(
            "static START_STATES: &[(&str, u32)] = &[\n"@,
            standalone::start_rows(starts),
        ),
        "static START_DEFAULT: &str = "@,
        postlex::quoted(standalone::default_start(o.start@)),
        ";\n\n"@,
        "static GLOBAL_PREFIX: &str = "@,
        postlex::quoted(plan.prefix),
        ";\n\n"@,
        standalone::section(
            "static SCAN_GROUPS: &[(u32, &str)] = &[\n"@,
            standalone::group_rows(plan.groups),
        ),
        standalone::section(
            "static UNLESS: &[(u32, &[(&str, u32)])] = &[\n"@,
            standalone::keyword_rows(keywords),
        ),
        "static IGNORE: &[u32] = &["@,
        text::joined(
            standalone::number_texts(standalone::sorted_ids(ignore, ignore.len())),
            ", "@,
        ),
        "];\n\n"@,
    ]
}

#[verifier::spinoff_prover]
#[verifier::rlimit(60)]
proof fn lemma_data_pieces(
    t: ParseTable,
    plan: scanner::PlanModel,
    ignore: Seq<SymbolId>,
    o: LarkOptions,
)
    ensures
        standalone::data_text(t, plan, ignore, o) == chained(
            data_pieces(t, plan, ignore, o),
            18,
        ),
        data_pieces(t, plan, ignore, o).len() == 18,
{
    reveal(data_pieces);
    reveal_with_fuel(chained, 19);
}

/// The first `k` pieces, one behind another.
spec fn chained(pieces: Seq<Seq<char>>, k: nat) -> Seq<char>
    decreases k,
{
    if k == 0 {
        Seq::empty()
    } else if k == 1 {
        pieces[0]
    } else {
        chained(pieces, (k - 1) as nat) + pieces[k - 1]
    }
}

proof fn lemma_chained_on(pieces: Seq<Seq<char>>, k: nat, n: nat, p: Seq<char>)
    requires
        0 < k <= n <= pieces.len(),
        is_in(chained(pieces, k), p),
    ensures
        is_in(chained(pieces, n), p),
    decreases n - k,
{
    if k < n {
        lemma_in_front(chained(pieces, k), p, pieces[k as int]);
        lemma_chained_on(pieces, k + 1, n, p);
    }
}

proof fn lemma_chained_in(pieces: Seq<Seq<char>>, i: nat)
    requires
        0 < i < pieces.len(),
    ensures
        is_in(chained(pieces, pieces.len()), pieces[i as int]),
{
    lemma_in_end(chained(pieces, i), pieces[i as int]);
    lemma_chained_on(pieces, i + 1, pieces.len(), pieces[i as int]);
}

proof fn lemma_chained_pair(pieces: Seq<Seq<char>>, i: nat, a: Seq<char>, b: Seq<char>)
    requires
        i + 1 < pieces.len(),
        pieces[(i + 1) as int] == a + b,
    ensures
        is_in(chained(pieces, pieces.len()), pieces[i as int] + a),
{
    reveal(is_in);
    let p = pieces[i as int] + a;
    let c = chained(pieces, i + 2);
    let before = if i == 0 {
        Seq::empty()
    } else {
        chained(pieces, i)
    };
    assert(c == chained(pieces, i + 1) + pieces[(i + 1) as int]);
    assert(chained(pieces, i + 1) =~= before + pieces[i as int]);
    assert(c =~= before + p + b);
    lemma_chained_on(pieces, i + 2, pieces.len(), p);
}

proof fn lemma_chained_three(pieces: Seq<Seq<char>>, i: nat, a: Seq<char>, b: Seq<char>)
    requires
        0 < i,
        i + 2 < pieces.len(),
        pieces[(i + 2) as int] == a + b,
    ensures
        is_in(chained(pieces, pieces.len()), pieces[i as int] + pieces[(i + 1) as int] + a),
{
    reveal(is_in);
    let p = pieces[i as int] + pieces[(i + 1) as int] + a;
    let c = chained(pieces, i + 3);
    assert(chained(pieces, i + 2) == chained(pieces, i + 1) + pieces[(i + 1) as int]);
    assert(chained(pieces, i + 1) == chained(pieces, i) + pieces[i as int]);
    assert(c =~= chained(pieces, i) + p + b);
    lemma_chained_on(pieces, i + 3, pieces.len(), p);
}

proof fn lemma_in_file(source: Seq<char>, data: Seq<char>, p: Seq<char>)
    requires
        is_in(data, p),
    ensures
        is_in(
            standalone::header_text(source) + data + standalone::RUNTIME@ + standalone::CLOSING@,
            p,
        ),
{
    let h = standalone::header_text(source);
    lemma_in_back(data, p, h);
    lemma_in_front(h + data, p, standalone::RUNTIME@);
    lemma_in_front(h + data + standalone::RUNTIME@, p, standalone::CLOSING@);
}

proof fn lemma_more_lists(
    t: ParseTable,
    plan: scanner::PlanModel,
    ignore: Seq<SymbolId>,
    o: LarkOptions,
)
    ensures
        ({
            let p = data_pieces(t, plan, ignore, o);
            &&& p[6] == standalone::section(
                "static START_STATES: &[(&str, u32)] = &[\n"@,
                standalone::start_rows(standalone::named_starts(t, t.start_states@.len())),
            )
            &&& p[14] == standalone::section(
                "static UNLESS: &[(u32, &[(&str, u32)])] = &[\n"@,
                standalone::keyword_rows(
                    standalone::sorted_keywords(plan.unless, plan.unless.len()),
                ),
            )
            &&& p[15] == "static IGNORE: &[u32] = &["@
            &&& p[16] == text::joined(
                standalone::number_texts(standalone::sorted_ids(ignore, ignore.len())),
                ", "@,
            )
            &&& p[17] == "];\n\n"@
        }),
{
    reveal(data_pieces);
}

/// A generated file holds the list of start states, that of keywords, and the numbers
/// of what is ignored.
pub proof fn files_list_starts_keywords_and_ignored(
    source: Seq<char>,
    t: ParseTable,
    plan: scanner::PlanModel,
    ignore: Seq<SymbolId>,
    o: LarkOptions,
)
    ensures
        ({
            let file = standalone::file_text(source, t, plan, ignore, o);
            &&& holds_list(
                file,
                "static START_STATES: &[(&str, u32)] = &[\n"@,
                standalone::start_rows(standalone::named_starts(t, t.start_states@.len())),
            )
            &&& holds_list(
                file,
                "static UNLESS: &[(u32, &[(&str, u32)])] = &[\n"@,
                standalone::keyword_rows(
                    standalone::sorted_keywords(plan.unless, plan.unless.len()),
                ),
            )
            &&& is_in(
                file,
                "static IGNORE: &[u32] = &["@ + standalone_laws::listed(
                    standalone::number_texts(standalone::sorted_ids(ignore, ignore.len())),
                ) + "];\n\n"@,
            )
        }),
{
    lemma_more_lists(t, plan, ignore, o);
    lemma_list(
        source,
        t,
        plan,
        ignore,
        o,
        6,
        "static START_STATES: &[(&str, u32)] = &[\n"@,
        standalone::start_rows(standalone::named_starts(t, t.start_states@.len())),
    );
    lemma_list(
        source,
        t,
        plan,
        ignore,
        o,
        14,
        "static UNLESS: &[(u32, &[(&str, u32)])] = &[\n"@,
        standalone::keyword_rows(standalone::sorted_keywords(plan.unless, plan.unless.len())),
    );
    let ids = standalone::number_texts(standalone::sorted_ids(ignore, ignore.len()));
    standalone_laws::joined_parts_are_listed(ids);
    lemma_data_pieces(t, plan, ignore, o);
    let p = data_pieces(t, plan, ignore, o);
    let none = Seq::<char>::empty();
    assert(p[17] =~= "];\n\n"@ + none);
    lemma_chained_three(p, 15, "];\n\n"@, none);
    lemma_in_file(source, standalone::data_text(t, plan, ignore, o), p[15] + p[16] + "];\n\n"@);
}

} // verus!
