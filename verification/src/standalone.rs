//! Generating the source of a parser that stands alone.

use vstd::prelude::*;
use crate::error::GrammarError;
use crate::frontend;
use crate::frontend::{LarkError, LarkOptions, ParserAlgorithm};
use crate::lalr_table;
use crate::lalr_table::{
    audit_lalr_reduce_reduce,
    build_lalr_table,
    Action,
    Grammar,
    ParseTable,
};
use crate::lexer;
use crate::lexer::basic_lexer_conf;
use crate::pattern;
use crate::postlex;
use crate::postlex::quote;
use crate::scanner;
use crate::scanner::{scanner_plan, Keyword, ScannerPlan};
use crate::symbols;
use crate::symbols::{CompiledRule, SymbolId};
use crate::text;
use crate::text::{join, le_text, owned, push_decimal, same_text};

verus! {

// ---------------------------------------------------------------------------
// Small texts

/// A number as text.
fn number(n: usize) -> (r: String)
    ensures
        r@ == text::decimal_text(n as nat),
{
    let mut r = String::new();
    proof {
        assert(r@ =~= Seq::empty());
    }
    push_decimal(&mut r, n);
    proof {
        assert(r@ =~= text::decimal_text(n as nat));
    }
    r
}

/// A truth value as text.
pub open spec fn bool_text(b: bool) -> Seq<char> {
    if b {
        "true"@
    } else {
        "false"@
    }
}

fn truth(b: bool) -> (r: &'static str)
    ensures
        r@ == bool_text(b),
{
    if b {
        "true"
    } else {
        "false"
    }
}

// ---------------------------------------------------------------------------
// The header

/// The place of the first line break from `i` on, or the end.
pub open spec fn line_end(s: Seq<char>, i: nat) -> nat
    decreases s.len() - i,
{
    if i >= s.len() {
        s.len()
    } else if s[i as int] == '\n' {
        i
    } else {
        line_end(s, i + 1)
    }
}

/// A line without the carriage return in front of its line break.
pub open spec fn without_return(s: Seq<char>) -> Seq<char> {
    if s.len() > 0 && s.last() == '\r' {
        s.drop_last()
    } else {
        s
    }
}

/// The lines of a text from `i` on. What follows the last line break is a line
/// if it is not empty.
pub open spec fn lines_from(s: Seq<char>, i: nat) -> Seq<Seq<char>>
    decreases s.len() - i,
{
    if i >= s.len() {
        Seq::empty()
    } else {
        let end = line_end(s, i);
        if end < i || end >= s.len() {
            seq![s.skip(i as int)]
        } else {
            seq![without_return(s.subrange(i as int, end as int))] + lines_from(s, end + 1)
        }
    }
}

/// The opening of a generated file, with the source of the grammar.
pub open spec fn header_text(source: Seq<char>) -> Seq<char> {
    let lines = lines_from(source, 0);
    HEADER_TOP@ + text::joined(
        Seq::new(lines.len(), |i: int| "//   "@ + lines[i] + "\n"@),
        ""@,
    ) + HEADER_END@
}

/// What a generated file opens with.
pub const HEADER_TOP: &'static str = "// @generated by `lark-rs generate-parser` — DO NOT EDIT.\n//\n// A self-contained LALR parser. Depends only on the `regex` crate and the\n// Rust standard library — not on lark-rs. Drop it into any crate that has\n// `regex` as a dependency and call `Parser::new().parse(text)`.\n//\n// Source grammar:\n";

/// What opens the module of a generated file.
pub const HEADER_END: &'static str = "\n#[allow(dead_code, unused_parens, clippy::all)]\npub mod parser {\nuse regex::Regex;\nuse std::collections::{HashMap, HashSet};\nuse std::fmt;\n\n";

/// What closes the module of a generated file.
pub const CLOSING: &'static str = "}\n\n#[allow(unused_imports)]\npub use parser::{Child, ParseTree, Parser, Token, Tree};\n";

proof fn lemma_line_end(s: Seq<char>, i: nat, k: nat)
    requires
        i <= k <= s.len(),
        forall|j: int| i <= j < k ==> s[j] != '\n',
    ensures
        line_end(s, i) == line_end(s, k),
    decreases k - i,
{
    if i < k {
        lemma_line_end(s, i + 1, k);
    }
}

fn header_line(line: &str) -> (r: String)
    ensures
        r@ == "//   "@ + line@ + "\n"@,
{
    let mut r = owned("//   ");
    r.append(line);
    r.append("\n");
    r
}

fn emit_header(out: &mut String, source: &str)
    ensures
        final(out)@ == old(out)@ + header_text(source@),
{
    let ghost start = out@;
    let ghost lines = lines_from(source@, 0);
    let ghost rows = Seq::new(lines.len(), |i: int| "//   "@ + lines[i] + "\n"@);
    let n: usize = source.unicode_len();
    let mut parts: Vec<String> = Vec::new();
    let mut from: usize = 0;
    let mut i: usize = 0;
    proof {
        assert(lines.skip(0) =~= lines);
        assert(text::texts(parts@) =~= rows.take(0));
    }
    while i < n
        invariant
            from <= i <= n,
            n == source@.len(),
            lines == lines_from(source@, 0),
            rows == Seq::new(lines.len(), |i: int| "//   "@ + lines[i] + "\n"@),
            parts@.len() <= lines.len(),
            lines.skip(parts@.len() as int) == lines_from(source@, from as nat),
            text::texts(parts@) =~= rows.take(parts@.len() as int),
            forall|j: int| from <= j < i ==> source@[j] != '\n',
        decreases n - i,
    {
        if source.get_char(i) == '\n' {
            let ghost rest = lines_from(source@, from as nat);
            proof {
                lemma_line_end(source@, from as nat, i as nat);
                assert(line_end(source@, i as nat) == i);
                assert(rest == seq![
                    without_return(source@.subrange(from as int, i as int)),
                ] + lines_from(source@, (i + 1) as nat));
                assert(lines.skip(parts@.len() as int)[0] == lines[parts@.len() as int]);
                assert(rest[0] == lines[parts@.len() as int]);
                assert(rest.skip(1) =~= lines_from(source@, (i + 1) as nat));
                assert(lines.skip(parts@.len() as int).skip(1) =~= lines.skip(
                    parts@.len() as int + 1,
                ));
            }
            let line = source.substring_char(from, i);
            let len: usize = i - from;
            let ghost before = text::texts(parts@);
            let row = if len > 0 && line.get_char(len - 1) == '\r' {
                proof {
                    assert(line@.subrange(0, len - 1) =~= line@.drop_last());
                }
                header_line(line.substring_char(0, len - 1))
            } else {
                header_line(line)
            };
            parts.push(row);
            proof {
                assert(text::texts(parts@) =~= before.push(row@));
                assert(rows.take(parts@.len() as int) =~= rows.take(parts@.len() - 1).push(
                    rows[parts@.len() - 1],
                ));
            }
            from = i + 1;
        }
        i = i + 1;
    }
    if from < n {
        let ghost rest = lines_from(source@, from as nat);
        proof {
            lemma_line_end(source@, from as nat, n as nat);
            assert(rest == seq![source@.skip(from as int)]);
            assert(lines.skip(parts@.len() as int)[0] == lines[parts@.len() as int]);
            assert(rest[0] == lines[parts@.len() as int]);
            assert(rest.len() == 1);
            assert(source@.subrange(from as int, n as int) =~= source@.skip(from as int));
        }
        let ghost before = text::texts(parts@);
        let row = header_line(source.substring_char(from, n));
        parts.push(row);
        proof {
            assert(text::texts(parts@) =~= before.push(row@));
        }
    }
    proof {
        assert(parts@.len() == lines.len());
        assert(text::texts(parts@) =~= rows);
    }
    let body = join(&parts, "");
    out.append(HEADER_TOP);
    out.append(body.as_str());
    out.append(HEADER_END);
    proof {
        assert(out@ =~= start + header_text(source@));
    }
}

// ---------------------------------------------------------------------------
// The data

/// A section of a generated file: a list of rows.
pub open spec fn section(title: Seq<char>, rows: Seq<Seq<char>>) -> Seq<char> {
    title + text::joined(rows, ""@) + "];\n\n"@
}

fn push_section(out: &mut String, title: &str, rows: &Vec<String>)
    ensures
        final(out)@ == old(out)@ + section(title@, text::texts(rows@)),
{
    let ghost start = out@;
    let body = join(rows, "");
    out.append(title);
    out.append(body.as_str());
    out.append("];\n\n");
    proof {
        assert(out@ =~= start + section(title@, text::texts(rows@)));
    }
}

/// The rows of the symbol names.
pub open spec fn symbol_rows(infos: Seq<symbols::SymbolInfo>) -> Seq<Seq<char>> {
    Seq::new(infos.len(), |i: int| "    "@ + postlex::quoted(infos[i].name@) + ",\n"@)
}

/// A list of truth values as text.
pub open spec fn bool_texts(s: Seq<bool>) -> Seq<Seq<char>> {
    Seq::new(s.len(), |i: int| bool_text(s[i]))
}

/// A list of sizes as text.
pub open spec fn size_texts(s: Seq<usize>) -> Seq<Seq<char>> {
    Seq::new(s.len(), |i: int| text::decimal_text(s[i] as nat))
}

/// The row of a rule.
pub open spec fn rule_row(r: symbols::RuleModel) -> Seq<char> {
    "    RuleData { origin: "@ + text::decimal_text(r.origin.ix() as nat) + ", len: "@
        + text::decimal_text(r.expansion.len()) + ", tree_name: "@ + postlex::quoted(r.tree_name)
        + ", transparent: "@ + bool_text(r.transparent) + ", expand1: "@ + bool_text(r.expand1)
        + ", has_alias: "@ + bool_text(r.alias is Some) + ", keep_all: "@ + bool_text(
        r.keep_all_tokens,
    ) + ", filter_pos: &["@ + text::joined(bool_texts(r.filter_pos), ", "@)
        + "], placeholder_count: "@ + text::decimal_text(r.placeholder_count as nat)
        + ", nones_before: &["@ + text::joined(size_texts(r.nones_before), ", "@) + "], is_start: "@ + bool_text(r.is_start) + " },\n"@
}

/// The rows of the rules.
pub open spec fn rule_rows(rules: Seq<symbols::RuleModel>) -> Seq<Seq<char>> {
    Seq::new(rules.len(), |i: int| rule_row(rules[i]))
}

/// An action as text.
pub open spec fn action_text(a: Action) -> Seq<char> {
    match a {
        Action::Shift(s) => "Action::Shift("@ + text::decimal_text(s as nat) + ")"@,
        Action::Reduce(r) => "Action::Reduce("@ + text::decimal_text(r as nat) + ")"@,
        Action::Accept => "Action::Accept"@,
    }
}

/// The entries of a row of actions.
pub open spec fn action_entries(row: Seq<(u32, Action)>) -> Seq<Seq<char>> {
    Seq::new(
        row.len(),
        |i: int| "("@ + text::decimal_text(row[i].0 as nat) + ", "@ + action_text(row[i].1) + ")"@,
    )
}

/// The entries of a row of moves.
pub open spec fn goto_entries(row: Seq<(u32, usize)>) -> Seq<Seq<char>> {
    Seq::new(
        row.len(),
        |i: int|
            "("@ + text::decimal_text(row[i].0 as nat) + ", "@ + text::decimal_text(
                row[i].1 as nat,
            ) + ")"@,
    )
}

/// The row of a state.
pub open spec fn state_row(entries: Seq<Seq<char>>) -> Seq<char> {
    "    &["@ + text::joined(entries, ", "@) + "],\n"@
}

/// The rows of the actions.
pub open spec fn action_rows(t: ParseTable) -> Seq<Seq<char>> {
    Seq::new(t.action@.len(), |i: int| state_row(action_entries(t.action@[i]@)))
}

/// The rows of the moves.
pub open spec fn goto_rows(t: ParseTable) -> Seq<Seq<char>> {
    Seq::new(t.goto@.len(), |i: int| state_row(goto_entries(t.goto@[i]@)))
}

/// Whether a named state comes no later than another: by name, then by number.
pub open spec fn start_le(a: (Seq<char>, usize), b: (Seq<char>, usize)) -> bool {
    if a.0 == b.0 {
        a.1 <= b.1
    } else {
        text::text_le(a.0, b.0)
    }
}

/// A named state put in its place, once.
pub open spec fn put_start(s: Seq<(Seq<char>, usize)>, x: (Seq<char>, usize)) -> Seq<
    (Seq<char>, usize),
>
    decreases s.len(),
{
    if s.len() == 0 {
        seq![x]
    } else if s.last() == x {
        s
    } else if start_le(s.last(), x) {
        s.push(x)
    } else {
        put_start(s.drop_last(), x).push(s.last())
    }
}

/// The first `k` start states with their names, in order.
pub open spec fn named_starts(t: ParseTable, k: nat) -> Seq<(Seq<char>, usize)>
    decreases k,
{
    if k == 0 {
        Seq::empty()
    } else {
        let (id, state) = t.start_states@[k - 1];
        put_start(
            named_starts(t, (k - 1) as nat),
            (symbols::name_of(t.symbols@, id), state),
        )
    }
}

/// The rows of the start states.
pub open spec fn start_rows(s: Seq<(Seq<char>, usize)>) -> Seq<Seq<char>> {
    Seq::new(
        s.len(),
        |i: int|
            "    ("@ + postlex::quoted(s[i].0) + ", "@ + text::decimal_text(s[i].1 as nat)
                + "),\n"@,
    )
}

/// The start symbol that is used where none is named.
pub open spec fn default_start(starts: Seq<String>) -> Seq<char> {
    if starts.len() > 0 {
        starts[0]@
    } else {
        "start"@
    }
}

/// The rows of the alternatives of the scanner.
pub open spec fn group_rows(groups: Seq<(SymbolId, Seq<char>)>) -> Seq<Seq<char>> {
    Seq::new(
        groups.len(),
        |i: int|
            "    ("@ + text::decimal_text(groups[i].0.ix() as nat) + ", "@ + postlex::quoted(
                groups[i].1,
            ) + "),\n"@,
    )
}

/// Whether a keyword comes no later than another: by what matches it, then by
/// its text.
pub open spec fn keyword_le(a: scanner::KeywordModel, b: scanner::KeywordModel) -> bool {
    a.from.ix() < b.from.ix() || a.from.ix() == b.from.ix() && text::text_le(a.value, b.value)
}

/// Whether keywords are of the same text.
pub open spec fn same_keyword(a: scanner::KeywordModel, b: scanner::KeywordModel) -> bool {
    a.from.ix() == b.from.ix() && a.value == b.value
}

/// A keyword put in its place, unless there is one of the same text.
pub open spec fn put_keyword(s: Seq<scanner::KeywordModel>, x: scanner::KeywordModel) -> Seq<
    scanner::KeywordModel,
>
    decreases s.len(),
{
    if s.len() == 0 {
        seq![x]
    } else if same_keyword(s.last(), x) {
        s
    } else if keyword_le(s.last(), x) {
        s.push(x)
    } else {
        put_keyword(s.drop_last(), x).push(s.last())
    }
}

/// The first `k` keywords, in order.
pub open spec fn sorted_keywords(s: Seq<scanner::KeywordModel>, k: nat) -> Seq<
    scanner::KeywordModel,
>
    decreases k,
{
    if k == 0 {
        Seq::empty()
    } else {
        put_keyword(sorted_keywords(s, (k - 1) as nat), s[k - 1])
    }
}

/// The terminals that match keywords, among the first `k` keywords, each once.
pub open spec fn keyword_sources(s: Seq<scanner::KeywordModel>, k: nat) -> Seq<SymbolId>
    decreases k,
{
    if k == 0 {
        Seq::empty()
    } else {
        let before = keyword_sources(s, (k - 1) as nat);
        if before.contains(s[k - 1].from) {
            before
        } else {
            before.push(s[k - 1].from)
        }
    }
}

/// The entries of the keywords that a terminal matches, among the first `k`.
pub open spec fn keyword_entries(s: Seq<scanner::KeywordModel>, id: SymbolId, k: nat) -> Seq<
    Seq<char>,
>
    decreases k,
{
    if k == 0 {
        Seq::empty()
    } else {
        let before = keyword_entries(s, id, (k - 1) as nat);
        if s[k - 1].from == id {
            before.push(
                "("@ + postlex::quoted(s[k - 1].value) + ", "@ + text::decimal_text(
                    s[k - 1].to.ix() as nat,
                ) + ")"@,
            )
        } else {
            before
        }
    }
}

/// The rows of the keywords.
pub open spec fn keyword_rows(s: Seq<scanner::KeywordModel>) -> Seq<Seq<char>> {
    let ids = keyword_sources(s, s.len());
    Seq::new(
        ids.len(),
        |i: int|
            "    ("@ + text::decimal_text(ids[i].ix() as nat) + ", &["@ + text::joined(
                keyword_entries(s, ids[i], s.len()),
                ", "@,
            ) + "]),\n"@,
    )
}

/// A number put in its place.
pub open spec fn put_number(s: Seq<u32>, x: u32) -> Seq<u32>
    decreases s.len(),
{
    if s.len() == 0 {
        seq![x]
    } else if s.last() <= x {
        s.push(x)
    } else {
        put_number(s.drop_last(), x).push(s.last())
    }
}

/// The numbers of the first `k` symbols, in order.
pub open spec fn sorted_ids(s: Seq<SymbolId>, k: nat) -> Seq<u32>
    decreases k,
{
    if k == 0 {
        Seq::empty()
    } else {
        put_number(sorted_ids(s, (k - 1) as nat), s[k - 1].0)
    }
}

/// Numbers as texts.
pub open spec fn number_texts(s: Seq<u32>) -> Seq<Seq<char>> {
    Seq::new(s.len(), |i: int| text::decimal_text(s[i] as nat))
}

/// The data of a generated file.
pub open spec fn data_text(
    t: ParseTable,
    plan: scanner::PlanModel,
    ignore: Seq<SymbolId>,
    o: LarkOptions,
) -> Seq<char> {
    let starts = named_starts(t, t.start_states@.len());
    let keywords = sorted_keywords(plan.unless, plan.unless.len());
    "static N_TERMINALS: u32 = "@ + text::decimal_text(t.n_terminals as nat) + ";\n\n"@ + section(
        "static SYMBOL_NAMES: &[&str] = &[\n"@,
        symbol_rows(t.symbols@),
    ) + section("static RULES: &[RuleData] = &[\n"@, rule_rows(t.models())) + section(
        "static ACTION: &[&[(u32, Action)]] = &[\n"@,
        action_rows(t),
    ) + section("static GOTO: &[&[(u32, u32)]] = &[\n"@, goto_rows(t)) + section(
        "static START_STATES: &[(&str, u32)] = &[\n"@,
        start_rows(starts),
    ) + "static START_DEFAULT: &str = "@ + postlex::quoted(default_start(o.start@)) + ";\n\n"@
        + "static GLOBAL_PREFIX: &str = "@ + postlex::quoted(plan.prefix) + ";\n\n"@ + section(
        "static SCAN_GROUPS: &[(u32, &str)] = &[\n"@,
        group_rows(plan.groups),
    ) + section("static UNLESS: &[(u32, &[(&str, u32)])] = &[\n"@, keyword_rows(keywords))
        + "static IGNORE: &[u32] = &["@ + text::joined(
        number_texts(sorted_ids(ignore, ignore.len())),
        ", "@,
    ) + "];\n\n"@
}

/// The whole of a generated file.
pub open spec fn file_text(
    source: Seq<char>,
    t: ParseTable,
    plan: scanner::PlanModel,
    ignore: Seq<SymbolId>,
    o: LarkOptions,
) -> Seq<char> {
    header_text(source) + data_text(t, plan, ignore, o) + RUNTIME@ + CLOSING@
}

/// Whether `r` is the generated file of a grammar, or why there is none.
pub open spec fn generated(
    source: Seq<char>,
    g: Grammar,
    o: LarkOptions,
    r: Result<String, LarkError>,
) -> bool {
    if !(o.parser is Lalr) {
        r matches Err(e) && frontend::refuses(
            e,
            "standalone generation supports only parser='lalr'"@,
        )
    } else if o.postlex is Some {
        r matches Err(e) && frontend::refuses(
            e,
            "standalone generation does not support a postlex (Indenter) hook"@,
        )
    } else {
        exists|t: Result<ParseTable, GrammarError>|
            #[trigger] lalr_table::table_result(g.compiled, o.strict, t) && match t {
                Err(e) => r == Err::<String, LarkError>(LarkError::Grammar(e)),
                Ok(table) => generated_checked(source, g, o, table, r),
            }
    }
}

/// Whether `r` is the generated file of a grammar that has that table: the conflicts
/// that shared helper rules hide are reported first.
pub open spec fn generated_checked(
    source: Seq<char>,
    g: Grammar,
    o: LarkOptions,
    table: ParseTable,
    r: Result<String, LarkError>,
) -> bool {
    exists|a: Result<(), GrammarError>|
        #[trigger] lalr_table::audit_result(g, o.strict, a) && match a {
            Err(e) => r == Err::<String, LarkError>(LarkError::Grammar(e)),
            Ok(_) => match frontend::pattern_fault(g.compiled, o) {
                Some(msg) => r matches Err(e) && frontend::refuses(e, msg),
                None => r matches Ok(s) && s@ == file_text(
                    source,
                    table,
                    scanner::plan_of(frontend::terms_of(g.compiled), o.g_regex_flags),
                    g.compiled.ignore@,
                    o,
                ),
            },
        }
}

// ---------------------------------------------------------------------------
// Writing the data

fn emit_symbols(out: &mut String, table: &ParseTable)
    ensures
        final(out)@ == old(out)@ + section(
            "static SYMBOL_NAMES: &[&str] = &[\n"@,
            symbol_rows(table.symbols@),
        ),
{
    let ghost want = symbol_rows(table.symbols@);
    let n: usize = table.symbols.len();
    let mut rows: Vec<String> = Vec::new();
    let mut i: usize = 0;
    while i < n
        invariant
            i <= n,
            n == table.symbols@.len(),
            want == symbol_rows(table.symbols@),
            text::texts(rows@) =~= want.take(i as int),
        decreases n - i,
    {
        let info = &table.symbols.infos[i];
        let mut row = owned("    ");
        row.append(quote(info.name.as_str()).as_str());
        row.append(",\n");
        let ghost before = text::texts(rows@);
        rows.push(row);
        proof {
            assert(text::texts(rows@) =~= before.push(want[i as int]));
        }
        i = i + 1;
    }
    proof {
        assert(want.take(n as int) =~= want);
    }
    push_section(out, "static SYMBOL_NAMES: &[&str] = &[\n", &rows);
}

fn filter_list(v: &Vec<bool>) -> (r: String)
    ensures
        r@ == text::joined(bool_texts(v@), ", "@),
{
    let ghost want = bool_texts(v@);
    let mut parts: Vec<String> = Vec::new();
    let mut i: usize = 0;
    while i < v.len()
        invariant
            i <= v@.len(),
            want == bool_texts(v@),
            text::texts(parts@) =~= want.take(i as int),
        decreases v.len() - i,
    {
        let ghost before = text::texts(parts@);
        parts.push(owned(truth(v[i])));
        proof {
            assert(text::texts(parts@) =~= before.push(want[i as int]));
        }
        i = i + 1;
    }
    proof {
        assert(want.take(v@.len() as int) =~= want);
    }
    join(&parts, ", ")
}

fn size_list(v: &Vec<usize>) -> (r: String)
    ensures
        r@ == text::joined(size_texts(v@), ", "@),
{
    let ghost want = size_texts(v@);
    let mut parts: Vec<String> = Vec::new();
    let mut i: usize = 0;
    while i < v.len()
        invariant
            i <= v@.len(),
            want == size_texts(v@),
            text::texts(parts@) =~= want.take(i as int),
        decreases v.len() - i,
    {
        let ghost before = text::texts(parts@);
        parts.push(number(v[i]));
        proof {
            assert(text::texts(parts@) =~= before.push(want[i as int]));
        }
        i = i + 1;
    }
    proof {
        assert(want.take(v@.len() as int) =~= want);
    }
    join(&parts, ", ")
}

fn rule_line(r: &CompiledRule) -> (s: String)
    ensures
        s@ == rule_row(r@),
{
    let mut s = owned("    RuleData { origin: ");
    s.append(number(r.origin.index()).as_str());
    s.append(", len: ");
    s.append(number(r.expansion.len()).as_str());
    s.append(", tree_name: ");
    s.append(quote(r.tree_name.as_str()).as_str());
    s.append(", transparent: ");
    s.append(truth(r.transparent));
    s.append(", expand1: ");
    s.append(truth(r.options.expand1));
    s.append(", has_alias: ");
    s.append(truth(r.alias.is_some()));
    s.append(", keep_all: ");
    s.append(truth(r.options.keep_all_tokens));
    s.append(", filter_pos: &[");
    s.append(filter_list(&r.filter_pos).as_str());
    s.append("], placeholder_count: ");
    s.append(number(r.options.placeholder_count).as_str());
    s.append(", nones_before: &[");
    s.append(size_list(&r.options.nones_before).as_str());
    s.append("], is_start: ");
    s.append(truth(r.is_start));
    s.append(" },\n");
    s
}

fn emit_rules(out: &mut String, table: &ParseTable)
    ensures
        final(out)@ == old(out)@ + section(
            "static RULES: &[RuleData] = &[\n"@,
            rule_rows(table.models()),
        ),
{
    let ghost want = rule_rows(table.models());
    let mut rows: Vec<String> = Vec::new();
    let mut i: usize = 0;
    while i < table.rules.len()
        invariant
            i <= table.rules@.len(),
            want == rule_rows(table.models()),
            text::texts(rows@) =~= want.take(i as int),
        decreases table.rules.len() - i,
    {
        let ghost before = text::texts(rows@);
        proof {
            assert(table.models()[i as int] == table.rules@[i as int]@);
        }
        rows.push(rule_line(&table.rules[i]));
        proof {
            assert(text::texts(rows@) =~= before.push(want[i as int]));
        }
        i = i + 1;
    }
    proof {
        assert(want.take(table.rules@.len() as int) =~= want);
    }
    push_section(out, "static RULES: &[RuleData] = &[\n", &rows);
}

fn action_part(a: &Action) -> (r: String)
    ensures
        r@ == action_text(*a),
{
    match a {
        Action::Shift(s) => {
            let mut r = owned("Action::Shift(");
            r.append(number(*s).as_str());
            r.append(")");
            r
        },
        Action::Reduce(n) => {
            let mut r = owned("Action::Reduce(");
            r.append(number(*n).as_str());
            r.append(")");
            r
        },
        Action::Accept => owned("Action::Accept"),
    }
}

fn state_line(parts: &Vec<String>) -> (r: String)
    ensures
        r@ == state_row(text::texts(parts@)),
{
    let mut r = owned("    &[");
    r.append(join(parts, ", ").as_str());
    r.append("],\n");
    r
}

fn action_line(row: &Vec<(u32, Action)>) -> (r: String)
    ensures
        r@ == state_row(action_entries(row@)),
{
    let ghost want = action_entries(row@);
    let mut parts: Vec<String> = Vec::new();
    let mut i: usize = 0;
    while i < row.len()
        invariant
            i <= row@.len(),
            want == action_entries(row@),
            text::texts(parts@) =~= want.take(i as int),
        decreases row.len() - i,
    {
        let mut s = owned("(");
        s.append(number(row[i].0 as usize).as_str());
        s.append(", ");
        s.append(action_part(&row[i].1).as_str());
        s.append(")");
        let ghost before = text::texts(parts@);
        parts.push(s);
        proof {
            assert(text::texts(parts@) =~= before.push(want[i as int]));
        }
        i = i + 1;
    }
    proof {
        assert(want.take(row@.len() as int) =~= want);
    }
    state_line(&parts)
}

fn goto_line(row: &Vec<(u32, usize)>) -> (r: String)
    ensures
        r@ == state_row(goto_entries(row@)),
{
    let ghost want = goto_entries(row@);
    let mut parts: Vec<String> = Vec::new();
    let mut i: usize = 0;
    while i < row.len()
        invariant
            i <= row@.len(),
            want == goto_entries(row@),
            text::texts(parts@) =~= want.take(i as int),
        decreases row.len() - i,
    {
        let mut s = owned("(");
        s.append(number(row[i].0 as usize).as_str());
        s.append(", ");
        s.append(number(row[i].1).as_str());
        s.append(")");
        let ghost before = text::texts(parts@);
        parts.push(s);
        proof {
            assert(text::texts(parts@) =~= before.push(want[i as int]));
        }
        i = i + 1;
    }
    proof {
        assert(want.take(row@.len() as int) =~= want);
    }
    state_line(&parts)
}

fn emit_actions(out: &mut String, table: &ParseTable)
    ensures
        final(out)@ == old(out)@ + section(
            "static ACTION: &[&[(u32, Action)]] = &[\n"@,
            action_rows(*table),
        ),
{
    let ghost want = action_rows(*table);
    let mut rows: Vec<String> = Vec::new();
    let mut i: usize = 0;
    while i < table.action.len()
        invariant
            i <= table.action@.len(),
            want == action_rows(*table),
            text::texts(rows@) =~= want.take(i as int),
        decreases table.action.len() - i,
    {
        let ghost before = text::texts(rows@);
        rows.push(action_line(&table.action[i]));
        proof {
            assert(text::texts(rows@) =~= before.push(want[i as int]));
        }
        i = i + 1;
    }
    proof {
        assert(want.take(table.action@.len() as int) =~= want);
    }
    push_section(out, "static ACTION: &[&[(u32, Action)]] = &[\n", &rows);
}

fn emit_gotos(out: &mut String, table: &ParseTable)
    ensures
        final(out)@ == old(out)@ + section(
            "static GOTO: &[&[(u32, u32)]] = &[\n"@,
            goto_rows(*table),
        ),
{
    let ghost want = goto_rows(*table);
    let mut rows: Vec<String> = Vec::new();
    let mut i: usize = 0;
    while i < table.goto.len()
        invariant
            i <= table.goto@.len(),
            want == goto_rows(*table),
            text::texts(rows@) =~= want.take(i as int),
        decreases table.goto.len() - i,
    {
        let ghost before = text::texts(rows@);
        rows.push(goto_line(&table.goto[i]));
        proof {
            assert(text::texts(rows@) =~= before.push(want[i as int]));
        }
        i = i + 1;
    }
    proof {
        assert(want.take(table.goto@.len() as int) =~= want);
    }
    push_section(out, "static GOTO: &[&[(u32, u32)]] = &[\n", &rows);
}

/// The contents of named states.
pub open spec fn start_models(s: Seq<(String, usize)>) -> Seq<(Seq<char>, usize)> {
    Seq::new(s.len(), |i: int| (s[i].0@, s[i].1))
}

fn insert_start(s: &mut Vec<(String, usize)>, name: String, state: usize)
    ensures
        start_models(final(s)@) == put_start(start_models(old(s)@), (name@, state)),
{
    let ghost m = start_models(s@);
    let ghost x = (name@, state);
    let mut i: usize = s.len();
    proof {
        assert(m.take(i as int) =~= m);
        assert(put_start(m.take(i as int), x) + m.skip(i as int) =~= put_start(m, x));
    }
    while i > 0
        invariant
            i <= s@.len(),
            m == start_models(s@),
            m == start_models(old(s)@),
            x == (name@, state),
            put_start(m, x) == put_start(m.take(i as int), x) + m.skip(i as int),
        decreases i,
    {
        let ghost t = m.take(i as int);
        proof {
            assert(t.last() == (s@[i - 1].0@, s@[i - 1].1));
            assert(t.drop_last() =~= m.take(i - 1));
        }
        let equal = same_text(&s[i - 1].0, name.as_str());
        if equal && s[i - 1].1 == state {
            proof {
                assert(t + m.skip(i as int) =~= m);
            }
            return;
        }
        let le = if equal {
            s[i - 1].1 <= state
        } else {
            le_text(s[i - 1].0.as_str(), name.as_str())
        };
        if le {
            proof {
                assert(put_start(t, x) == t.push(x));
            }
            s.insert(i, (name, state));
            proof {
                assert(start_models(s@) =~= t.push(x) + m.skip(i as int));
            }
            return;
        }
        proof {
            assert(put_start(t, x).push(m[i - 1]) =~= put_start(t, x).push(m[i - 1]));
            assert(put_start(m.take(i - 1), x).push(m[i - 1]) + m.skip(i as int) =~= put_start(
                m.take(i - 1),
                x,
            ) + m.skip(i - 1));
        }
        i = i - 1;
    }
    proof {
        assert(m.take(0) =~= Seq::empty());
    }
    s.insert(0, (name, state));
    proof {
        assert(start_models(s@) =~= seq![x] + m.skip(0));
    }
}

fn emit_starts(out: &mut String, table: &ParseTable)
    ensures
        final(out)@ == old(out)@ + section(
            "static START_STATES: &[(&str, u32)] = &[\n"@,
            start_rows(named_starts(*table, table.start_states@.len())),
        ),
{
    let mut starts: Vec<(String, usize)> = Vec::new();
    let mut k: usize = 0;
    while k < table.start_states.len()
        invariant
            k <= table.start_states@.len(),
            start_models(starts@) =~= named_starts(*table, k as nat),
        decreases table.start_states.len() - k,
    {
        let (id, state) = table.start_states[k];
        insert_start(&mut starts, table.symbols.name_owned(id), state);
        k = k + 1;
    }
    let ghost named = named_starts(*table, table.start_states@.len());
    let ghost want = start_rows(named);
    let mut rows: Vec<String> = Vec::new();
    let mut i: usize = 0;
    while i < starts.len()
        invariant
            i <= starts@.len(),
            named == start_models(starts@),
            want == start_rows(named),
            text::texts(rows@) =~= want.take(i as int),
        decreases starts.len() - i,
    {
        proof {
            assert(named[i as int] == (starts@[i as int].0@, starts@[i as int].1));
        }
        let mut row = owned("    (");
        row.append(quote(starts[i].0.as_str()).as_str());
        row.append(", ");
        row.append(number(starts[i].1).as_str());
        row.append("),\n");
        let ghost before = text::texts(rows@);
        rows.push(row);
        proof {
            assert(text::texts(rows@) =~= before.push(want[i as int]));
        }
        i = i + 1;
    }
    proof {
        assert(want.take(starts@.len() as int) =~= want);
    }
    push_section(out, "static START_STATES: &[(&str, u32)] = &[\n", &rows);
}

fn emit_groups(out: &mut String, plan: &ScannerPlan)
    ensures
        final(out)@ == old(out)@ + section(
            "static SCAN_GROUPS: &[(u32, &str)] = &[\n"@,
            group_rows(plan@.groups),
        ),
{
    let ghost want = group_rows(plan@.groups);
    let mut rows: Vec<String> = Vec::new();
    let mut i: usize = 0;
    while i < plan.groups.len()
        invariant
            i <= plan.groups@.len(),
            want == group_rows(plan@.groups),
            text::texts(rows@) =~= want.take(i as int),
        decreases plan.groups.len() - i,
    {
        proof {
            let g = plan.groups@[i as int];
            assert(plan@.groups[i as int] == (g.id, g.regex@));
        }
        let mut row = owned("    (");
        row.append(number(plan.groups[i].id.index()).as_str());
        row.append(", ");
        row.append(quote(plan.groups[i].regex.as_str()).as_str());
        row.append("),\n");
        let ghost before = text::texts(rows@);
        rows.push(row);
        proof {
            assert(text::texts(rows@) =~= before.push(want[i as int]));
        }
        i = i + 1;
    }
    proof {
        assert(want.take(plan.groups@.len() as int) =~= want);
    }
    push_section(out, "static SCAN_GROUPS: &[(u32, &str)] = &[\n", &rows);
}

fn copy_keyword(k: &Keyword) -> (r: Keyword)
    ensures
        r.from == k.from,
        r.value@ == k.value@,
        r.to == k.to,
{
    Keyword { from: k.from, value: k.value.clone(), to: k.to }
}

/// The content of a keyword.
pub open spec fn keyword_model(k: Keyword) -> scanner::KeywordModel {
    scanner::KeywordModel { from: k.from, value: k.value@, to: k.to }
}

fn insert_keyword(s: &mut Vec<Keyword>, k: Keyword)
    ensures
        scanner::keyword_models(final(s)@) == put_keyword(
            scanner::keyword_models(old(s)@),
            keyword_model(k),
        ),
{
    let ghost m = scanner::keyword_models(s@);
    let ghost x = keyword_model(k);
    let mut i: usize = s.len();
    proof {
        assert(m.take(i as int) =~= m);
        assert(put_keyword(m.take(i as int), x) + m.skip(i as int) =~= put_keyword(m, x));
    }
    while i > 0
        invariant
            i <= s@.len(),
            m == scanner::keyword_models(s@),
            m == scanner::keyword_models(old(s)@),
            x == keyword_model(k),
            put_keyword(m, x) == put_keyword(m.take(i as int), x) + m.skip(i as int),
        decreases i,
    {
        let ghost t = m.take(i as int);
        proof {
            assert(t.last() == keyword_model(s@[i - 1]));
            assert(t.drop_last() =~= m.take(i - 1));
        }
        let a: usize = s[i - 1].from.index();
        let b: usize = k.from.index();
        if a == b && same_text(&s[i - 1].value, k.value.as_str()) {
            proof {
                assert(t + m.skip(i as int) =~= m);
            }
            return;
        }
        let le = a < b || (a == b && le_text(s[i - 1].value.as_str(), k.value.as_str()));
        if le {
            proof {
                assert(put_keyword(t, x) == t.push(x));
            }
            s.insert(i, k);
            proof {
                assert(scanner::keyword_models(s@) =~= t.push(x) + m.skip(i as int));
            }
            return;
        }
        proof {
            assert(put_keyword(m.take(i - 1), x).push(m[i - 1]) + m.skip(i as int)
                =~= put_keyword(m.take(i - 1), x) + m.skip(i - 1));
        }
        i = i - 1;
    }
    proof {
        assert(m.take(0) =~= Seq::empty());
    }
    s.insert(0, k);
    proof {
        assert(scanner::keyword_models(s@) =~= seq![x] + m.skip(0));
    }
}

fn holds_id(ids: &Vec<SymbolId>, id: SymbolId) -> (r: bool)
    ensures
        r == ids@.contains(id),
{
    let mut i: usize = 0;
    while i < ids.len()
        invariant
            i <= ids@.len(),
            forall|j: int| 0 <= j < i ==> #[trigger] ids@[j] != id,
        decreases ids.len() - i,
    {
        if ids[i] == id {
            return true;
        }
        i = i + 1;
    }
    false
}

fn keyword_line(keywords: &Vec<Keyword>, id: SymbolId) -> (r: String)
    ensures
        r@ == "    ("@ + text::decimal_text(id.ix() as nat) + ", &["@ + text::joined(
            keyword_entries(scanner::keyword_models(keywords@), id, keywords@.len()),
            ", "@,
        ) + "]),\n"@,
{
    let ghost m = scanner::keyword_models(keywords@);
    let mut parts: Vec<String> = Vec::new();
    let mut i: usize = 0;
    while i < keywords.len()
        invariant
            i <= keywords@.len(),
            m == scanner::keyword_models(keywords@),
            text::texts(parts@) =~= keyword_entries(m, id, i as nat),
        decreases keywords.len() - i,
    {
        proof {
            assert(m[i as int] == keyword_model(keywords@[i as int]));
        }
        if keywords[i].from == id {
            let mut s = owned("(");
            s.append(quote(keywords[i].value.as_str()).as_str());
            s.append(", ");
            s.append(number(keywords[i].to.index()).as_str());
            s.append(")");
            let ghost before = text::texts(parts@);
            parts.push(s);
            proof {
                assert(text::texts(parts@) =~= before.push(s@));
            }
        }
        i = i + 1;
    }
    let mut row = owned("    (");
    row.append(number(id.index()).as_str());
    row.append(", &[");
    row.append(join(&parts, ", ").as_str());
    row.append("]),\n");
    row
}

fn emit_keywords(out: &mut String, plan: &ScannerPlan)
    ensures
        final(out)@ == old(out)@ + section(
            "static UNLESS: &[(u32, &[(&str, u32)])] = &[\n"@,
            keyword_rows(sorted_keywords(plan@.unless, plan@.unless.len())),
        ),
{
    let mut keywords: Vec<Keyword> = Vec::new();
    let mut k: usize = 0;
    while k < plan.unless.len()
        invariant
            k <= plan.unless@.len(),
            scanner::keyword_models(keywords@) =~= sorted_keywords(plan@.unless, k as nat),
        decreases plan.unless.len() - k,
    {
        proof {
            assert(plan@.unless[k as int] == keyword_model(plan.unless@[k as int]));
        }
        insert_keyword(&mut keywords, copy_keyword(&plan.unless[k]));
        k = k + 1;
    }
    let ghost m = scanner::keyword_models(keywords@);
    let mut ids: Vec<SymbolId> = Vec::new();
    let mut j: usize = 0;
    while j < keywords.len()
        invariant
            j <= keywords@.len(),
            m == scanner::keyword_models(keywords@),
            ids@ =~= keyword_sources(m, j as nat),
        decreases keywords.len() - j,
    {
        proof {
            assert(m[j as int].from == keywords@[j as int].from);
        }
        if !holds_id(&ids, keywords[j].from) {
            ids.push(keywords[j].from);
        }
        j = j + 1;
    }
    let ghost want = keyword_rows(m);
    let mut rows: Vec<String> = Vec::new();
    let mut i: usize = 0;
    while i < ids.len()
        invariant
            i <= ids@.len(),
            m == scanner::keyword_models(keywords@),
            ids@ == keyword_sources(m, m.len()),
            want == keyword_rows(m),
            text::texts(rows@) =~= want.take(i as int),
        decreases ids.len() - i,
    {
        let ghost before = text::texts(rows@);
        rows.push(keyword_line(&keywords, ids[i]));
        proof {
            assert(text::texts(rows@) =~= before.push(want[i as int]));
        }
        i = i + 1;
    }
    proof {
        assert(want.take(ids@.len() as int) =~= want);
    }
    push_section(out, "static UNLESS: &[(u32, &[(&str, u32)])] = &[\n", &rows);
}

fn insert_number(s: &mut Vec<u32>, x: u32)
    ensures
        final(s)@ == put_number(old(s)@, x),
{
    let ghost m = s@;
    let mut i: usize = s.len();
    proof {
        assert(m.take(i as int) =~= m);
        assert(put_number(m.take(i as int), x) + m.skip(i as int) =~= put_number(m, x));
    }
    while i > 0 && s[i - 1] > x
        invariant
            i <= s@.len(),
            m == s@,
            put_number(m, x) == put_number(m.take(i as int), x) + m.skip(i as int),
        decreases i,
    {
        proof {
            let t = m.take(i as int);
            assert(t.last() == m[i - 1]);
            assert(t.drop_last() =~= m.take(i - 1));
            assert(put_number(m.take(i - 1), x).push(m[i - 1]) + m.skip(i as int) =~= put_number(
                m.take(i - 1),
                x,
            ) + m.skip(i - 1));
        }
        i = i - 1;
    }
    proof {
        let t = m.take(i as int);
        if i > 0 {
            assert(t.last() == m[i - 1]);
        }
        assert(put_number(t, x) =~= t.push(x));
    }
    s.insert(i, x);
    proof {
        assert(s@ =~= m.take(i as int).push(x) + m.skip(i as int));
    }
}

fn ignore_list(ignore: &Vec<SymbolId>) -> (r: String)
    ensures
        r@ == text::joined(number_texts(sorted_ids(ignore@, ignore@.len())), ", "@),
{
    let mut ids: Vec<u32> = Vec::new();
    let mut k: usize = 0;
    while k < ignore.len()
        invariant
            k <= ignore@.len(),
            ids@ =~= sorted_ids(ignore@, k as nat),
        decreases ignore.len() - k,
    {
        insert_number(&mut ids, ignore[k].0);
        k = k + 1;
    }
    let ghost want = number_texts(ids@);
    let mut parts: Vec<String> = Vec::new();
    let mut i: usize = 0;
    while i < ids.len()
        invariant
            i <= ids@.len(),
            want == number_texts(ids@),
            text::texts(parts@) =~= want.take(i as int),
        decreases ids.len() - i,
    {
        let ghost before = text::texts(parts@);
        parts.push(number(ids[i] as usize));
        proof {
            assert(text::texts(parts@) =~= before.push(want[i as int]));
        }
        i = i + 1;
    }
    proof {
        assert(want.take(ids@.len() as int) =~= want);
    }
    join(&parts, ", ")
}

fn emit_data(
    out: &mut String,
    table: &ParseTable,
    plan: &ScannerPlan,
    ignore: &Vec<SymbolId>,
    options: &LarkOptions,
)
    ensures
        final(out)@ == old(out)@ + data_text(*table, plan@, ignore@, *options),
{
    let mut d = owned("static N_TERMINALS: u32 = ");
    d.append(number(table.n_terminals).as_str());
    d.append(";\n\n");
    emit_symbols(&mut d, table);
    emit_rules(&mut d, table);
    emit_actions(&mut d, table);
    emit_gotos(&mut d, table);
    emit_starts(&mut d, table);
    d.append("static START_DEFAULT: &str = ");
    let name = if options.start.len() > 0 {
        options.start[0].clone()
    } else {
        owned("start")
    };
    d.append(quote(name.as_str()).as_str());
    d.append(";\n\n");
    d.append("static GLOBAL_PREFIX: &str = ");
    d.append(quote(plan.global_prefix.as_str()).as_str());
    d.append(";\n\n");
    emit_groups(&mut d, plan);
    emit_keywords(&mut d, plan);
    d.append("static IGNORE: &[u32] = &[");
    d.append(ignore_list(ignore).as_str());
    d.append("];\n\n");
    out.append(d.as_str());
}

fn refusal(msg: &str) -> (r: LarkError)
    ensures
        frontend::refuses(r, msg@),
{
    LarkError::Grammar(GrammarError::Other { msg: owned(msg) })
}

/// Generates the source of a parser for a grammar, which depends on the `regex`
/// crate alone. `source` is the grammar as written, which the file quotes.
/// Only LALR parsers without indentation can be generated. Conflicts that shared
/// helper rules hide are reported, as they are where a parser is built.
pub fn generate(source: &str, grammar: &Grammar, options: &LarkOptions) -> (r: Result<
    String,
    LarkError,
>)
    requires
        grammar.compiled.wf(),
        lexer::terminals_known(grammar.compiled),
        grammar.lalr_audit matches Some(g) ==> g.wf(),
    ensures
        generated(source@, *grammar, *options, r),
{
    match options.parser {
        ParserAlgorithm::Lalr => {},
        _ => {
            return Err(refusal("standalone generation supports only parser='lalr'"));
        },
    }
    if options.postlex.is_some() {
        return Err(
            refusal("standalone generation does not support a postlex (Indenter) hook"),
        );
    }
    let t = build_lalr_table(&grammar.compiled, options.strict);
    proof {
        assert(lalr_table::table_result(grammar.compiled, options.strict, t));
    }
    let table = match t {
        Ok(table) => table,
        Err(e) => {
            return Err(LarkError::Grammar(e));
        },
    };
    let a = audit_lalr_reduce_reduce(grammar, options.strict);
    proof {
        assert(lalr_table::audit_result(*grammar, options.strict, a));
    }
    match a {
        Ok(_) => {},
        Err(e) => {
            let r: Result<String, LarkError> = Err(LarkError::Grammar(e));
            proof {
                assert(generated_checked(source@, *grammar, *options, table, r));
            }
            return r;
        },
    }
    let conf = basic_lexer_conf(&grammar.compiled, options.g_regex_flags);
    let plan = match scanner_plan(&conf.terminals, conf.global_flags) {
        Ok(plan) => plan,
        Err(e) => {
            let r: Result<String, LarkError> = Err(LarkError::Grammar(e));
            proof {
                assert(generated_checked(source@, *grammar, *options, table, r));
            }
            return r;
        },
    };
    let mut out = String::new();
    proof {
        assert(out@ =~= Seq::empty());
    }
    emit_header(&mut out, source);
    emit_data(&mut out, &table, &plan, &conf.ignore, options);
    out.append(RUNTIME);
    out.append(CLOSING);
    proof {
        assert(out@ =~= file_text(
            source@,
            table,
            scanner::plan_of(frontend::terms_of(grammar.compiled), options.g_regex_flags),
            grammar.compiled.ignore@,
            *options,
        ));
    }
    let r: Result<String, LarkError> = Ok(out);
    proof {
        assert(generated_checked(source@, *grammar, *options, table, r));
    }
    r
}

/// What every generated file holds beside the data: the lexer, the parser and
/// the trees.
pub const RUNTIME: &'static str = r###"// ───────────────────────────── runtime shim ─────────────────────────────

#[derive(Clone, Copy)]
pub enum Action {
    Shift(u32),
    Reduce(u32),
    Accept,
}

struct RuleData {
    origin: u32,
    len: u32,
    tree_name: &'static str,
    transparent: bool,
    expand1: bool,
    has_alias: bool,
    keep_all: bool,
    filter_pos: &'static [bool],
    placeholder_count: usize,
    /// How many `None` placeholders stand before each position, and at the end.
    nones_before: &'static [usize],
    is_start: bool,
}

/// A positioned token from the lexer.
#[derive(Clone, Debug)]
pub struct Token {
    pub type_id: u32,
    pub type_: String,
    pub value: String,
    pub line: usize,
    pub column: usize,
}

/// A child of a `Tree` node — a subtree, a leaf token, or a `None` placeholder.
#[derive(Clone, Debug)]
pub enum Child {
    Tree(Tree),
    Token(Token),
    None,
}

/// A node in the parse tree. `data` is the rule name (or alias) that built it.
#[derive(Clone, Debug)]
pub struct Tree {
    pub data: String,
    pub children: Vec<Child>,
}

/// The result of a parse — usually a `Tree`, but a `?start` rule that collapses
/// via expand1 to a single token yields that bare `Token`, and one that collapses
/// to an absent optional yields `None`.
#[derive(Clone, Debug)]
pub enum ParseTree {
    Tree(Tree),
    Token(Token),
    None,
}

enum NodeValue {
    Token(Token),
    Tree(Tree),
    Inline(Vec<Child>),
}

impl fmt::Display for Tree {
    fn fmt(&self, f: &mut fmt::Formatter<'_>) -> fmt::Result {
        let children: Vec<String> = self
            .children
            .iter()
            .map(|c| match c {
                Child::Tree(t) => t.to_string(),
                Child::Token(tok) => format!("Token({}, {:?})", tok.type_, tok.value),
                Child::None => "None".to_string(),
            })
            .collect();
        write!(f, "Tree({}, [{}])", self.data, children.join(", "))
    }
}

impl fmt::Display for ParseTree {
    fn fmt(&self, f: &mut fmt::Formatter<'_>) -> fmt::Result {
        match self {
            ParseTree::Tree(t) => write!(f, "{}", t),
            ParseTree::Token(tok) => write!(f, "Token({}, {:?})", tok.type_, tok.value),
            ParseTree::None => write!(f, "None"),
        }
    }
}

fn name_of(id: u32) -> &'static str {
    SYMBOL_NAMES.get(id as usize).copied().unwrap_or("")
}

// ───────────────────────────── lexer ─────────────────────────────

struct Scanner {
    re: Regex,
    /// (terminal id, capture-group index), in alternation order.
    groups: Vec<(u32, usize)>,
    unless: HashMap<u32, HashMap<String, u32>>,
}

impl Scanner {
    fn new() -> Scanner {
        let mut parts: Vec<String> = Vec::with_capacity(SCAN_GROUPS.len());
        for (id, rx) in SCAN_GROUPS {
            parts.push(format!("(?P<g{}>{})", id, rx));
        }
        let pattern = format!("{}{}", GLOBAL_PREFIX, parts.join("|"));
        let re = Regex::new(&pattern).expect("baked scanner regex is valid");
        // Resolve each group's name to its capture index (a terminal pattern can
        // itself contain groups, so the index is not the alternation position).
        let name_to_idx: HashMap<String, usize> = re
            .capture_names()
            .enumerate()
            .filter_map(|(i, n)| n.map(|n| (n.to_string(), i)))
            .collect();
        let groups = SCAN_GROUPS
            .iter()
            .map(|(id, _)| (*id, name_to_idx[&format!("g{}", id)]))
            .collect();
        let mut unless: HashMap<u32, HashMap<String, u32>> = HashMap::new();
        for (re_id, entries) in UNLESS {
            let m = unless.entry(*re_id).or_default();
            for (value, kw_id) in *entries {
                m.insert(value.to_string(), *kw_id);
            }
        }
        Scanner { re, groups, unless }
    }

    /// Match a single token starting exactly at `pos`. `None` = nothing here.
    fn match_at<'t>(&self, text: &'t str, pos: usize) -> Option<(u32, &'t str)> {
        let caps = self.re.captures_at(text, pos)?;
        let m0 = caps.get(0)?;
        // Accept only a non-empty match beginning exactly at `pos`.
        if m0.start() != pos || m0.end() == pos {
            return None;
        }
        let value = m0.as_str();
        for (id, idx) in &self.groups {
            if caps.get(*idx).is_some() {
                let ty = self
                    .unless
                    .get(id)
                    .and_then(|m| m.get(value))
                    .copied()
                    .unwrap_or(*id);
                return Some((ty, value));
            }
        }
        None
    }
}

fn lex(scanner: &Scanner, text: &str) -> Result<Vec<Token>, String> {
    let ignore: HashSet<u32> = IGNORE.iter().copied().collect();
    let mut tokens = Vec::new();
    let mut pos = 0usize;
    let mut line = 1usize;
    let mut col = 1usize;

    while pos < text.len() {
        match scanner.match_at(text, pos) {
            Some((id, value)) => {
                let start_line = line;
                let start_col = col;
                for ch in value.chars() {
                    if ch == '\n' {
                        line += 1;
                        col = 1;
                    } else {
                        col += 1;
                    }
                }
                pos += value.len();
                if !ignore.contains(&id) {
                    tokens.push(Token {
                        type_id: id,
                        type_: name_of(id).to_string(),
                        value: value.to_string(),
                        line: start_line,
                        column: start_col,
                    });
                }
            }
            None => {
                let ch = text[pos..].chars().next().unwrap();
                return Err(format!(
                    "Unexpected character {:?} at line {}, column {}",
                    ch, line, col
                ));
            }
        }
    }

    // End-of-input sentinel (terminal id 0 = $END).
    tokens.push(Token {
        type_id: 0,
        type_: name_of(0).to_string(),
        value: String::new(),
        line,
        column: col,
    });
    Ok(tokens)
}

// ───────────────────────────── parser ─────────────────────────────

fn action_at(state: usize, term: u32) -> Option<Action> {
    for (t, a) in ACTION[state] {
        if *t == term {
            return Some(*a);
        }
    }
    None
}

fn goto_at(state: usize, nt_index: u32) -> Option<u32> {
    for (n, s) in GOTO[state] {
        if *n == nt_index {
            return Some(*s);
        }
    }
    None
}

fn keep_token(rule: &RuleData, pos: usize) -> bool {
    rule.keep_all || !rule.filter_pos.get(pos).copied().unwrap_or(false)
}

fn push_nones(rule: &RuleData, pos: usize, children: &mut Vec<Child>) {
    for _ in 0..rule.nones_before.get(pos).copied().unwrap_or(0) {
        children.push(Child::None);
    }
}

fn shape(rule: &RuleData, mut children: Vec<Child>) -> NodeValue {
    for _ in 0..rule.placeholder_count {
        children.push(Child::None);
    }
    push_nones(rule, rule.len as usize, &mut children);
    if rule.transparent {
        NodeValue::Inline(children)
    } else if rule.expand1 && !rule.has_alias && children.len() == 1 {
        match children.pop().unwrap() {
            Child::Tree(t) => NodeValue::Tree(t),
            Child::Token(t) => NodeValue::Token(t),
            Child::None => NodeValue::Inline(vec![Child::None]),
        }
    } else {
        NodeValue::Tree(Tree {
            data: rule.tree_name.to_string(),
            children,
        })
    }
}

fn assemble(rule_idx: usize, child_values: Vec<NodeValue>) -> NodeValue {
    let rule = &RULES[rule_idx];
    let mut children: Vec<Child> = Vec::new();
    for (i, value) in child_values.into_iter().enumerate() {
        push_nones(rule, i, &mut children);
        match value {
            NodeValue::Token(t) => {
                if keep_token(rule, i) {
                    children.push(Child::Token(t));
                }
            }
            NodeValue::Tree(t) => children.push(Child::Tree(t)),
            NodeValue::Inline(cs) => children.extend(cs),
        }
    }
    shape(rule, children)
}

fn run(tokens: &[Token], start_state: usize) -> Result<ParseTree, String> {
    let mut state_stack: Vec<usize> = vec![start_state];
    let mut value_stack: Vec<NodeValue> = Vec::new();
    let mut i = 0usize;

    loop {
        let state = *state_stack.last().unwrap();
        let token = &tokens[i];
        match action_at(state, token.type_id) {
            Some(Action::Shift(ns)) => {
                i += 1;
                state_stack.push(ns as usize);
                value_stack.push(NodeValue::Token(token.clone()));
            }
            Some(Action::Reduce(r)) => {
                let rule = &RULES[r as usize];
                let len = rule.len as usize;
                let child_values: Vec<NodeValue> =
                    value_stack.split_off(value_stack.len() - len);
                for _ in 0..len {
                    state_stack.pop();
                }
                let value = assemble(r as usize, child_values);
                let top = *state_stack.last().unwrap();
                let nt_index = rule.origin - N_TERMINALS;
                let next = goto_at(top, nt_index).expect("missing goto entry");
                state_stack.push(next as usize);
                value_stack.push(value);
            }
            Some(Action::Accept) => {
                return match value_stack.pop() {
                    Some(NodeValue::Tree(t)) => Ok(ParseTree::Tree(t)),
                    Some(NodeValue::Token(t)) => Ok(ParseTree::Token(t)),
                    Some(NodeValue::Inline(mut cs)) if cs.len() == 1 => match cs.pop() {
                        Some(Child::Tree(t)) => Ok(ParseTree::Tree(t)),
                        Some(Child::Token(t)) => Ok(ParseTree::Token(t)),
                        _ => Ok(ParseTree::None),
                    },
                    _ => Err("accept with empty value stack".to_string()),
                };
            }
            None => {
                let expected: Vec<&str> =
                    ACTION[state].iter().map(|(t, _)| name_of(*t)).collect();
                if token.type_id == 0 {
                    return Err(format!(
                        "Unexpected end of input at line {}, column {}. Expected one of: {:?}",
                        token.line, token.column, expected
                    ));
                }
                return Err(format!(
                    "Unexpected token {:?} ({}) at line {}, column {}. Expected one of: {:?}",
                    token.value, token.type_, token.line, token.column, expected
                ));
            }
        }
    }
}

fn start_state_for(start: Option<&str>) -> Result<usize, String> {
    let name = start.unwrap_or(START_DEFAULT);
    for (n, s) in START_STATES {
        if *n == name {
            return Ok(*s as usize);
        }
    }
    Err(format!("unknown start symbol {:?}", name))
}

/// A self-contained parser for the baked grammar.
pub struct Parser {
    scanner: Scanner,
}

impl Parser {
    /// Build the parser (compiles the combined lexer regex once).
    pub fn new() -> Parser {
        Parser {
            scanner: Scanner::new(),
        }
    }

    /// Parse `text` from the default start symbol.
    pub fn parse(&self, text: &str) -> Result<ParseTree, String> {
        self.parse_from(text, None)
    }

    /// Parse `text` from the named start symbol.
    pub fn parse_from(&self, text: &str, start: Option<&str>) -> Result<ParseTree, String> {
        let tokens = lex(&self.scanner, text)?;
        let start_state = start_state_for(start)?;
        run(&tokens, start_state)
    }
}

impl Default for Parser {
    fn default() -> Self {
        Parser::new()
    }
}
"###;

} // verus!
