//! Interned grammars: symbol ids, the symbol table, rules and terminals.
//!
//! Terminals occupy the ids below `n_terminals`, nonterminals the ids from
//! there on. Id 0 is the end-of-input terminal `$END`.

use vstd::prelude::*;
use crate::text::{owned, same_text};

verus! {

/// The id of an interned grammar symbol.
#[derive(Clone, Copy, PartialEq, Eq, PartialOrd, Ord, Hash, Debug, Structural)]
pub struct SymbolId(pub u32);

/// The raw id of the end-of-input terminal.
pub const END_ID: u32 = 0;

/// The raw id that no symbol has.
pub const UNSET_ID: u32 = 0xffff_ffff;

impl SymbolId {
    /// The id as an index into tables that are laid out by symbol.
    pub open spec fn ix(self) -> nat {
        self.0 as nat
    }

    /// The end-of-input terminal.
    pub open spec fn spec_end() -> SymbolId {
        SymbolId(END_ID)
    }

    /// The end-of-input terminal.
    #[verifier::when_used_as_spec(spec_end)]
    pub fn end() -> (r: SymbolId)
        ensures
            r == SymbolId::spec_end(),
    {
        SymbolId(END_ID)
    }

    /// The id that no symbol has.
    pub open spec fn spec_unset() -> SymbolId {
        SymbolId(UNSET_ID)
    }

    /// The id that no symbol has.
    #[verifier::when_used_as_spec(spec_unset)]
    pub fn unset() -> (r: SymbolId)
        ensures
            r == SymbolId::spec_unset(),
    {
        SymbolId(UNSET_ID)
    }

    /// The id as a table index.
    pub fn index(self) -> (r: usize)
        ensures
            r == self.ix(),
    {
        self.0 as usize
    }
}

/// What the table knows of one symbol.
#[derive(Debug)]
pub struct SymbolInfo {
    pub name: String,
    pub is_terminal: bool,
    /// Whether trees never show the symbol: its children join the parent's.
    pub inline: bool,
}

impl SymbolInfo {
    /// A copy.
    pub fn copy(&self) -> (r: SymbolInfo)
        ensures
            r == *self,
    {
        SymbolInfo { name: self.name.clone(), is_terminal: self.is_terminal, inline: self.inline }
    }
}

/// The symbols of a grammar, addressed by id and by name.
#[derive(Debug)]
pub struct SymbolTable {
    pub infos: Vec<SymbolInfo>,
}

/// The position of the first symbol with that name.
pub open spec fn name_position(infos: Seq<SymbolInfo>, name: Seq<char>, p: int) -> bool {
    &&& 0 <= p < infos.len()
    &&& infos[p].name@ == name
    &&& forall|q: int| 0 <= q < p ==> (#[trigger] infos[q]).name@ != name
}

/// The id of the first symbol with that name, if any symbol has it.
pub open spec fn id_of(infos: Seq<SymbolInfo>, name: Seq<char>) -> Option<SymbolId> {
    if exists|p: int| name_position(infos, name, p) {
        Some(SymbolId((choose|p: int| name_position(infos, name, p)) as u32))
    } else {
        None
    }
}

/// A name that a symbol has is found, no later than there.
pub proof fn lemma_id_of_known(infos: Seq<SymbolInfo>, name: Seq<char>, q: int)
    requires
        0 <= q < infos.len() <= u32::MAX,
        infos[q].name@ == name,
    ensures
        id_of(infos, name) matches Some(id) && id.ix() <= q,
    decreases q,
{
    if exists|k: int| 0 <= k < q && (#[trigger] infos[k]).name@ == name {
        let k = choose|k: int| 0 <= k < q && (#[trigger] infos[k]).name@ == name;
        lemma_id_of_known(infos, name, k);
    } else {
        assert(name_position(infos, name, q));
        let p = choose|p: int| name_position(infos, name, p);
        assert(name_position(infos, name, p));
        if q < p {
            assert(infos[q].name@ != name);
        }
    }
}

/// The name of a symbol; empty for an id outside the table.
pub open spec fn name_of(infos: Seq<SymbolInfo>, id: SymbolId) -> Seq<char> {
    if id.ix() < infos.len() {
        infos[id.ix() as int].name@
    } else {
        Seq::empty()
    }
}

impl View for SymbolTable {
    type V = Seq<SymbolInfo>;

    open spec fn view(&self) -> Seq<SymbolInfo> {
        self.infos@
    }
}

impl SymbolTable {
    /// A table that holds the end-of-input terminal alone.
    pub fn new() -> (r: SymbolTable)
        ensures
            r@.len() == 1,
            r@[0].name@ == "$END"@,
            r@[0].is_terminal,
            !r@[0].inline,
    {
        let mut infos: Vec<SymbolInfo> = Vec::new();
        infos.push(SymbolInfo { name: owned("$END"), is_terminal: true, inline: false });
        SymbolTable { infos }
    }

    /// Adds a symbol under the next free id.
    pub fn intern(&mut self, name: &str, is_terminal: bool, inline: bool) -> (id: SymbolId)
        requires
            old(self)@.len() < UNSET_ID,
        ensures
            id.ix() == old(self)@.len(),
            final(self)@.len() == old(self)@.len() + 1,
            final(self)@.take(old(self)@.len() as int) == old(self)@,
            final(self)@.last().name@ == name@,
            final(self)@.last().is_terminal == is_terminal,
            final(self)@.last().inline == inline,
    {
        let id = SymbolId(self.infos.len() as u32);
        self.infos.push(SymbolInfo { name: owned(name), is_terminal, inline });
        proof {
            assert(self@.take(old(self)@.len() as int) =~= old(self)@);
        }
        id
    }

    /// Whether no two symbols share a name.
    pub fn names_differ(&self) -> (r: bool)
        ensures
            r == names_differ(self@),
    {
        let mut j: usize = 0;
        while j < self.infos.len()
            invariant
                j <= self.infos.len(),
                forall|a: int, b: int|
                    0 <= a < b < j ==> (#[trigger] self@[a]).name@ != (#[trigger] self@[b]).name@,
            decreases self.infos.len() - j,
        {
            let mut i: usize = 0;
            while i < j
                invariant
                    i <= j < self.infos.len(),
                    forall|a: int| 0 <= a < i ==> (#[trigger] self@[a]).name@ != self@[j as int].name@,
                decreases j - i,
            {
                if same_text(&self.infos[i].name, self.infos[j].name.as_str()) {
                    proof {
                        assert(self@[i as int].name@ == self@[j as int].name@);
                    }
                    return false;
                }
                i = i + 1;
            }
            j = j + 1;
        }
        true
    }

    /// Whether the first symbol is the end of input.
    fn ends_first(&self) -> (r: bool)
        requires
            self@.len() > 0,
        ensures
            r == (self@[0].name@ == "$END"@),
    {
        same_text(&self.infos[0].name, "$END")
    }

    /// The number of symbols.
    pub fn len(&self) -> (r: usize)
        ensures
            r == self@.len(),
    {
        self.infos.len()
    }

    /// Looks a symbol up by name.
    pub fn id(&self, name: &str) -> (r: Option<SymbolId>)
        requires
            self@.len() <= UNSET_ID,
        ensures
            r == id_of(self@, name@),
    {
        let mut i: usize = 0;
        while i < self.infos.len()
            invariant
                i <= self.infos.len(),
                self@.len() <= UNSET_ID,
                forall|q: int| 0 <= q < i ==> (#[trigger] self@[q]).name@ != name@,
            decreases self.infos.len() - i,
        {
            if same_text(&self.infos[i].name, name) {
                proof {
                    assert(name_position(self@, name@, i as int));
                    let p = choose|p: int| name_position(self@, name@, p);
                    assert(p == i);
                }
                return Some(SymbolId(i as u32));
            }
            i = i + 1;
        }
        None
    }

    /// The name of a symbol.
    pub fn name(&self, id: SymbolId) -> (r: &String)
        requires
            id.ix() < self@.len(),
        ensures
            r@ == name_of(self@, id),
    {
        &self.infos[id.index()]
            .name
    }

    /// An owned copy of the name of a symbol; empty for an id outside the table.
    pub fn name_owned(&self, id: SymbolId) -> (r: String)
        ensures
            r@ == name_of(self@, id),
    {
        if id.index() < self.infos.len() {
            self.infos[id.index()].name.clone()
        } else {
            String::new()
        }
    }

    /// A copy of the table.
    pub fn copy(&self) -> (r: SymbolTable)
        ensures
            r@ == self@,
    {
        let mut infos: Vec<SymbolInfo> = Vec::new();
        let mut i: usize = 0;
        while i < self.infos.len()
            invariant
                i <= self.infos.len(),
                infos@ == self@.take(i as int),
            decreases self.infos.len() - i,
        {
            infos.push(self.infos[i].copy());
            proof {
                assert(infos@ =~= self@.take(i + 1));
            }
            i = i + 1;
        }
        proof {
            assert(infos@ =~= self@);
        }
        SymbolTable { infos }
    }
}

/// How a rule shapes its tree node.
#[derive(Debug)]
pub struct RuleOptions {
    /// A node with a single child is replaced by that child.
    pub expand1: bool,
    /// Tokens are kept even where the rule would drop them.
    pub keep_all_tokens: bool,
    pub priority: i64,
    /// How many absent-optional slots follow the children.
    pub placeholder_count: usize,
    /// How many absent-optional slots precede each position.
    pub nones_before: Vec<usize>,
}

/// One production of a compiled grammar.
#[derive(Debug)]
pub struct CompiledRule {
    pub origin: SymbolId,
    pub expansion: Vec<SymbolId>,
    /// Which positions hold a token that the tree drops.
    pub filter_pos: Vec<bool>,
    /// Whether the node's children are spliced into the parent.
    pub transparent: bool,
    pub tree_name: String,
    pub alias: Option<String>,
    /// The position of the alternative among those of its rule.
    pub order: usize,
    pub is_start: bool,
    pub options: RuleOptions,
}

/// The mathematical content of a rule.
pub ghost struct RuleModel {
    pub origin: SymbolId,
    pub expansion: Seq<SymbolId>,
    pub filter_pos: Seq<bool>,
    pub transparent: bool,
    pub tree_name: Seq<char>,
    pub alias: Option<Seq<char>>,
    pub order: usize,
    pub is_start: bool,
    pub expand1: bool,
    pub keep_all_tokens: bool,
    pub priority: i64,
    pub placeholder_count: usize,
    pub nones_before: Seq<usize>,
}

impl View for CompiledRule {
    type V = RuleModel;

    open spec fn view(&self) -> RuleModel {
        RuleModel {
            origin: self.origin,
            expansion: self.expansion@,
            filter_pos: self.filter_pos@,
            transparent: self.transparent,
            tree_name: self.tree_name@,
            alias: match self.alias {
                Some(a) => Some(a@),
                None => None,
            },
            order: self.order,
            is_start: self.is_start,
            expand1: self.options.expand1,
            keep_all_tokens: self.options.keep_all_tokens,
            priority: self.options.priority,
            placeholder_count: self.options.placeholder_count,
            nones_before: self.options.nones_before@,
        }
    }
}

/// The models of a list of rules.
pub open spec fn rule_models(rules: Seq<CompiledRule>) -> Seq<RuleModel> {
    Seq::new(rules.len(), |i: int| rules[i]@)
}

/// Whether a token at `pos` stays in the tree.
pub open spec fn keeps_token(rule: RuleModel, pos: int) -> bool {
    rule.keep_all_tokens || !(0 <= pos < rule.filter_pos.len() && rule.filter_pos[pos])
}

/// How many absent-optional slots stand before position `gap`.
pub open spec fn nones_at(rule: RuleModel, gap: int) -> nat {
    if 0 <= gap < rule.nones_before.len() {
        rule.nones_before[gap] as nat
    } else {
        0
    }
}

impl CompiledRule {
    /// A rule without shaping options.
    pub fn plain(origin: SymbolId, expansion: Vec<SymbolId>, tree_name: &str) -> (r: CompiledRule)
        ensures
            r@ == (RuleModel {
                origin,
                expansion: expansion@,
                filter_pos: Seq::empty(),
                transparent: false,
                tree_name: tree_name@,
                alias: None,
                order: 0,
                is_start: false,
                expand1: false,
                keep_all_tokens: false,
                priority: 0,
                placeholder_count: 0,
                nones_before: Seq::empty(),
            }),
    {
        CompiledRule {
            origin,
            expansion,
            filter_pos: Vec::new(),
            transparent: false,
            tree_name: owned(tree_name),
            alias: None,
            order: 0,
            is_start: false,
            options: RuleOptions {
                expand1: false,
                keep_all_tokens: false,
                priority: 0,
                placeholder_count: 0,
                nones_before: Vec::new(),
            },
        }
    }

    /// A copy of the rule.
    pub fn copy(&self) -> (r: CompiledRule)
        ensures
            r@ == self@,
    {
        let alias = match &self.alias {
            Some(a) => Some(a.clone()),
            None => None,
        };
        let r = CompiledRule {
            origin: self.origin,
            expansion: copy_ids(&self.expansion),
            filter_pos: copy_bools(&self.filter_pos),
            transparent: self.transparent,
            tree_name: self.tree_name.clone(),
            alias,
            order: self.order,
            is_start: self.is_start,
            options: RuleOptions {
                expand1: self.options.expand1,
                keep_all_tokens: self.options.keep_all_tokens,
                priority: self.options.priority,
                placeholder_count: self.options.placeholder_count,
                nones_before: copy_sizes(&self.options.nones_before),
            },
        };
        r
    }

    /// Whether a token at `pos` stays in the tree.
    pub fn keep_token(&self, pos: usize) -> (r: bool)
        ensures
            r == keeps_token(self@, pos as int),
    {
        self.options.keep_all_tokens || !(pos < self.filter_pos.len() && self.filter_pos[pos])
    }

    /// How many absent-optional slots stand before position `gap`.
    pub fn nones_before(&self, gap: usize) -> (r: usize)
        ensures
            r == nones_at(self@, gap as int),
    {
        if gap < self.options.nones_before.len() {
            self.options.nones_before[gap]
        } else {
            0
        }
    }
}

/// A copy of a list of ids.
pub fn copy_ids(v: &Vec<SymbolId>) -> (r: Vec<SymbolId>)
    ensures
        r@ == v@,
{
    let mut r: Vec<SymbolId> = Vec::new();
    let mut i: usize = 0;
    while i < v.len()
        invariant
            i <= v.len(),
            r@ == v@.take(i as int),
        decreases v.len() - i,
    {
        r.push(v[i]);
        proof {
            assert(r@ =~= v@.take(i + 1));
        }
        i = i + 1;
    }
    proof {
        assert(r@ =~= v@);
    }
    r
}

/// A copy of a list of flags.
pub fn copy_bools(v: &Vec<bool>) -> (r: Vec<bool>)
    ensures
        r@ == v@,
{
    let mut r: Vec<bool> = Vec::new();
    let mut i: usize = 0;
    while i < v.len()
        invariant
            i <= v.len(),
            r@ == v@.take(i as int),
        decreases v.len() - i,
    {
        r.push(v[i]);
        proof {
            assert(r@ =~= v@.take(i + 1));
        }
        i = i + 1;
    }
    proof {
        assert(r@ =~= v@);
    }
    r
}

/// A copy of a list of numbers.
pub fn copy_sizes(v: &Vec<usize>) -> (r: Vec<usize>)
    ensures
        r@ == v@,
{
    let mut r: Vec<usize> = Vec::new();
    let mut i: usize = 0;
    while i < v.len()
        invariant
            i <= v.len(),
            r@ == v@.take(i as int),
        decreases v.len() - i,
    {
        r.push(v[i]);
        proof {
            assert(r@ =~= v@.take(i + 1));
        }
        i = i + 1;
    }
    proof {
        assert(r@ =~= v@);
    }
    r
}

/// A copy of a list of rules.
pub fn copy_rules(v: &Vec<CompiledRule>) -> (r: Vec<CompiledRule>)
    ensures
        rule_models(r@) == rule_models(v@),
{
    let mut r: Vec<CompiledRule> = Vec::new();
    let mut i: usize = 0;
    while i < v.len()
        invariant
            i <= v.len(),
            r.len() == i,
            forall|j: int| 0 <= j < i ==> (#[trigger] r@[j])@ == v@[j]@,
        decreases v.len() - i,
    {
        r.push(v[i].copy());
        i = i + 1;
    }
    proof {
        assert(rule_models(r@) =~= rule_models(v@));
    }
    r
}

/// What a terminal matches.
#[derive(Debug)]
pub enum Pattern {
    /// The text itself; `ci` ignores letter case.
    Str { value: String, ci: bool },
    /// A regular expression with flag letters.
    Re { pattern: String, flags: String },
}

/// A terminal definition.
#[derive(Debug)]
pub struct TerminalDef {
    pub name: String,
    /// Declared without a pattern; only a post-lexer makes such tokens.
    pub declared: bool,
    pub pattern: Pattern,
    pub priority: i64,
}

impl TerminalDef {
    /// A copy.
    pub fn copy(&self) -> (r: TerminalDef)
        ensures
            r == *self,
    {
        let pattern = match &self.pattern {
            Pattern::Str { value, ci } => Pattern::Str { value: value.clone(), ci: *ci },
            Pattern::Re { pattern, flags } => Pattern::Re {
                pattern: pattern.clone(),
                flags: flags.clone(),
            },
        };
        TerminalDef {
            name: self.name.clone(),
            declared: self.declared,
            pattern,
            priority: self.priority,
        }
    }
}

/// A grammar lowered to interned symbols.
#[derive(Debug)]
pub struct CompiledGrammar {
    pub rules: Vec<CompiledRule>,
    pub symbols: SymbolTable,
    /// The configured start symbols.
    pub start: Vec<SymbolId>,
    pub terminals: Vec<TerminalDef>,
    /// The terminals that a lexer skips.
    pub ignore: Vec<SymbolId>,
    pub propagate_positions: bool,
    /// How many ids, from 0 on, are terminals.
    pub terminal_count: usize,
}

/// Whether the symbols of a table have names of their own.
pub open spec fn names_differ(infos: Seq<SymbolInfo>) -> bool {
    forall|i: int, j: int|
        0 <= i < j < infos.len() ==> (#[trigger] infos[i]).name@ != (#[trigger] infos[j]).name@
}

/// Whether no expansion mentions the origin of a start rule.
pub open spec fn starts_are_fresh(rules: Seq<RuleModel>) -> bool {
    forall|r: int, q: int, j: int|
        0 <= r < rules.len() && (#[trigger] rules[r]).is_start && 0 <= q < rules.len() && 0 <= j
            < rules[q].expansion.len() ==> #[trigger] rules[q].expansion[j] != rules[r].origin
}

/// Whether the rules of a symbol are all transparent or none is.
pub open spec fn is_uniform(rules: Seq<RuleModel>) -> bool {
    forall|r: int, q: int|
        0 <= r < rules.len() && 0 <= q < rules.len() && (#[trigger] rules[r]).origin == (
        #[trigger] rules[q]).origin ==> rules[r].transparent == rules[q].transparent
}

/// Whether every symbol that rules and start list mention is in the table, and
/// every rule produces a nonterminal.
pub open spec fn grammar_wf(
    rules: Seq<RuleModel>,
    n_symbols: nat,
    n_terminals: nat,
    start: Seq<SymbolId>,
) -> bool {
    &&& 0 < n_terminals <= n_symbols <= UNSET_ID
    &&& forall|i: int|
        0 <= i < rules.len() ==> n_terminals <= (#[trigger] rules[i]).origin.ix() < n_symbols
    &&& forall|i: int, j: int|
        0 <= i < rules.len() && 0 <= j < rules[i].expansion.len() ==> (
        #[trigger] rules[i].expansion[j]).ix() < n_symbols
    &&& forall|i: int|
        0 <= i < start.len() ==> n_terminals <= (#[trigger] start[i]).ix() < n_symbols
}

impl CompiledGrammar {
    /// The rules as mathematical values.
    pub open spec fn models(&self) -> Seq<RuleModel> {
        rule_models(self.rules@)
    }

    /// The ids that the grammar uses are those of its table.
    pub open spec fn wf(&self) -> bool {
        &&& grammar_wf(
            self.models(),
            self.symbols@.len(),
            self.terminal_count as nat,
            self.start@,
        )
        &&& names_differ(self.symbols@)
        &&& starts_are_fresh(self.models())
        &&& is_uniform(self.models())
        &&& self.symbols@[0].name@ == "$END"@
    }

    /// The number of terminals.
    pub fn n_terminals(&self) -> (r: usize)
        ensures
            r == self.terminal_count,
    {
        self.terminal_count
    }

    /// Checks that the ids that the grammar uses are those of its table, and that no
    /// two symbols share a name, that no rule uses the symbol of a rule for the whole
    /// input, that the rules of a symbol are all spliced or none of them, and that the
    /// end of input comes first.
    pub fn is_wf(&self) -> (r: bool)
        ensures
            r == self.wf(),
    {
        let n: usize = self.symbols.len();
        let t: usize = self.terminal_count;
        if t == 0 || t > n || n > UNSET_ID as usize {
            return false;
        }
        let mut i: usize = 0;
        while i < self.rules.len()
            invariant
                i <= self.rules.len(),
                n == self.symbols@.len(),
                t == self.terminal_count,
                forall|k: int|
                    0 <= k < i ==> t <= (#[trigger] self.models()[k]).origin.ix() < n,
                forall|k: int, j: int|
                    0 <= k < i && 0 <= j < self.models()[k].expansion.len() ==> (
                    #[trigger] self.models()[k].expansion[j]).ix() < n,
            decreases self.rules.len() - i,
        {
            let rule = &self.rules[i];
            if rule.origin.index() < t || rule.origin.index() >= n {
                proof {
                    assert(!(t <= self.models()[i as int].origin.ix() < n));
                }
                return false;
            }
            let mut j: usize = 0;
            while j < rule.expansion.len()
                invariant
                    i < self.rules.len(),
                    j <= rule.expansion.len(),
                    rule == self.rules@[i as int],
                    n == self.symbols@.len(),
                    forall|q: int| 0 <= q < j ==> (#[trigger] rule@.expansion[q]).ix() < n,
                decreases rule.expansion.len() - j,
            {
                if rule.expansion[j].index() >= n {
                    proof {
                        assert(!(self.models()[i as int].expansion[j as int].ix() < n));
                    }
                    return false;
                }
                j = j + 1;
            }
            i = i + 1;
        }
        let mut k: usize = 0;
        while k < self.start.len()
            invariant
                k <= self.start.len(),
                n == self.symbols@.len(),
                t == self.terminal_count,
                forall|q: int| 0 <= q < k ==> t <= (#[trigger] self.start@[q]).ix() < n,
            decreases self.start.len() - k,
        {
            if self.start[k].index() < t || self.start[k].index() >= n {
                return false;
            }
            k = k + 1;
        }
        self.symbols.names_differ() && self.starts_fresh() && self.splices_alike()
            && self.symbols.ends_first()
    }

    /// Checks that the rules of a symbol are all spliced, or none of them.
    fn splices_alike(&self) -> (r: bool)
        ensures
            r == is_uniform(self.models()),
    {
        let ghost rules = self.models();
        let mut q: usize = 0;
        while q < self.rules.len()
            invariant
                q <= self.rules.len(),
                rules == self.models(),
                forall|a: int, b: int|
                    0 <= a < q && 0 <= b < q && (#[trigger] rules[a]).origin == (
                    #[trigger] rules[b]).origin ==> rules[a].transparent == rules[b].transparent,
            decreases self.rules.len() - q,
        {
            let mut r: usize = 0;
            while r < q
                invariant
                    r <= q < self.rules.len(),
                    rules == self.models(),
                    forall|a: int|
                        0 <= a < r && (#[trigger] rules[a]).origin == rules[q as int].origin
                            ==> rules[a].transparent == rules[q as int].transparent,
                decreases q - r,
            {
                if self.rules[r].origin == self.rules[q].origin && self.rules[r].transparent
                    != self.rules[q].transparent {
                    proof {
                        assert(rules[r as int].origin == rules[q as int].origin);
                    }
                    return false;
                }
                proof {
                    assert(rules[r as int] == self.rules@[r as int]@);
                    assert(rules[q as int] == self.rules@[q as int]@);
                }
                r = r + 1;
            }
            q = q + 1;
        }
        true
    }

    /// Checks that no rule uses the symbol of a rule for the whole input.
    fn starts_fresh(&self) -> (r: bool)
        ensures
            r == starts_are_fresh(self.models()),
    {
        let ghost rules = self.models();
        let mut r: usize = 0;
        while r < self.rules.len()
            invariant
                r <= self.rules.len(),
                rules == self.models(),
                forall|a: int, q: int, j: int|
                    0 <= a < r && (#[trigger] rules[a]).is_start && 0 <= q < rules.len() && 0 <= j
                        < rules[q].expansion.len() ==> #[trigger] rules[q].expansion[j]
                        != rules[a].origin,
            decreases self.rules.len() - r,
        {
            if self.rules[r].is_start {
                let s = self.rules[r].origin;
                let mut q: usize = 0;
                while q < self.rules.len()
                    invariant
                        q <= self.rules.len(),
                        r < self.rules.len(),
                        rules == self.models(),
                        rules[r as int].is_start,
                        s == rules[r as int].origin,
                        forall|p: int, j: int|
                            0 <= p < q && 0 <= j < rules[p].expansion.len() ==> (
                            #[trigger] rules[p].expansion[j]) != s,
                    decreases self.rules.len() - q,
                {
                    let rule = &self.rules[q];
                    let mut j: usize = 0;
                    while j < rule.expansion.len()
                        invariant
                            q < self.rules.len(),
                            r < self.rules.len(),
                            rule == self.rules@[q as int],
                            rules == self.models(),
                            j <= rule.expansion.len(),
                            rules[r as int].is_start,
                            s == rules[r as int].origin,
                            forall|i: int| 0 <= i < j ==> (#[trigger] rule@.expansion[i]) != s,
                        decreases rule.expansion.len() - j,
                    {
                        if rule.expansion[j] == s {
                            proof {
                                assert(rules[q as int].expansion[j as int]
                                    == rules[r as int].origin);
                            }
                            return false;
                        }
                        j = j + 1;
                    }
                    proof {
                        assert(rules[q as int] == rule@);
                    }
                    q = q + 1;
                }
            }
            r = r + 1;
        }
        true
    }
}

} // verus!
