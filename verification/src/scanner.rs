//! How a set of terminals is scanned for: in which order they are tried, and
//! which matches are keywords.

use vstd::prelude::*;
use crate::error::GrammarError;
use crate::pattern;
use crate::pattern::{global_prefix, inline_regex, is_valid, match_text};
use crate::symbols::{Pattern, SymbolId, TerminalDef};
use crate::text::{owned, same_text};

verus! {

/// A terminal under its id.
pub struct Terminal {
    pub id: SymbolId,
    pub def: TerminalDef,
}

impl Terminal {
    /// A copy.
    pub fn copy(&self) -> (r: Terminal)
        ensures
            r == *self,
    {
        Terminal { id: self.id, def: self.def.copy() }
    }
}

/// One alternative of a scanner: a terminal and its regular expression.
pub struct Member {
    pub id: SymbolId,
    pub regex: String,
}

/// A keyword: where the terminal `from` matches `value`, the token is of type
/// `to`.
pub struct Keyword {
    pub from: SymbolId,
    pub value: String,
    pub to: SymbolId,
}

/// The mathematical content of a keyword.
pub ghost struct KeywordModel {
    pub from: SymbolId,
    pub value: Seq<char>,
    pub to: SymbolId,
}

/// The recipe of a scanner: what stands in front of each regular expression,
/// the alternatives in the order in which they are tried, and the keywords.
pub struct ScannerPlan {
    pub global_prefix: String,
    pub groups: Vec<Member>,
    pub unless: Vec<Keyword>,
}

/// The mathematical content of a plan.
pub ghost struct PlanModel {
    pub prefix: Seq<char>,
    pub groups: Seq<(SymbolId, Seq<char>)>,
    pub unless: Seq<KeywordModel>,
}

/// The contents of alternatives.
pub open spec fn member_models(s: Seq<Member>) -> Seq<(SymbolId, Seq<char>)> {
    Seq::new(s.len(), |i: int| (s[i].id, s[i].regex@))
}

/// The contents of keywords.
pub open spec fn keyword_models(s: Seq<Keyword>) -> Seq<KeywordModel> {
    Seq::new(
        s.len(),
        |i: int| KeywordModel { from: s[i].from, value: s[i].value@, to: s[i].to },
    )
}

impl View for ScannerPlan {
    type V = PlanModel;

    open spec fn view(&self) -> PlanModel {
        PlanModel {
            prefix: self.global_prefix@,
            groups: member_models(self.groups@),
            unless: keyword_models(self.unless@),
        }
    }
}

// ---------------------------------------------------------------------------
// Making a plan

/// How long the text of a pattern is.
pub open spec fn pattern_len(p: Pattern) -> nat {
    match p {
        Pattern::Str { value, .. } => value@.len(),
        Pattern::Re { pattern, .. } => pattern@.len(),
    }
}

/// Whether terminal `a` is tried before `b` on account of what they are: by
/// priority, expressions before plain texts, longer before shorter.
pub open spec fn tried_first(a: TerminalDef, b: TerminalDef) -> bool {
    if a.priority != b.priority {
        a.priority > b.priority
    } else if (a.pattern is Re) != (b.pattern is Re) {
        a.pattern is Re
    } else {
        pattern_len(a.pattern) > pattern_len(b.pattern)
    }
}

/// Where a terminal goes among those in order: before the first that it is
/// tried before.
pub open spec fn slot_for(terms: Seq<Terminal>, order: Seq<usize>, x: int, from: int) -> int
    decreases order.len() - from,
{
    if from < 0 || from >= order.len() {
        order.len() as int
    } else if tried_first(terms[x].def, terms[order[from] as int].def) {
        from
    } else {
        slot_for(terms, order, x, from + 1)
    }
}

/// The first `k` terminals in the order in which they are tried; terminals on
/// a par keep the order of their definitions.
pub open spec fn trial_order(terms: Seq<Terminal>, k: nat) -> Seq<usize>
    decreases k,
{
    if k == 0 {
        Seq::empty()
    } else {
        let order = trial_order(terms, (k - 1) as nat);
        order.insert(slot_for(terms, order, k - 1, 0), (k - 1) as usize)
    }
}

/// Whether an expression matches all of a plain text of the same priority.
pub open spec fn swallows(prefix: Seq<char>, re: TerminalDef, st: TerminalDef) -> bool {
    match st.pattern {
        Pattern::Str { value, .. } => re.pattern is Re && re.priority == st.priority
            && pattern::matched(
            prefix + pattern::inline_of(re.pattern),
            Seq::empty(),
            value@,
        ) == Some(value@),
        _ => false,
    }
}

/// Whether one of the first `k` terminals matches all of terminal `x`, which
/// is then found as a keyword only.
pub open spec fn is_keyword(prefix: Seq<char>, terms: Seq<Terminal>, x: int, k: nat) -> bool
    decreases k,
{
    if k == 0 {
        false
    } else {
        is_keyword(prefix, terms, x, (k - 1) as nat) || (swallows(
            prefix,
            terms[k - 1].def,
            terms[x].def,
        ) && !(terms[x].def.pattern matches Pattern::Str { ci, .. } && ci))
    }
}

/// The keywords of expression `r` among the first `k` terminals.
pub open spec fn keywords_of(prefix: Seq<char>, terms: Seq<Terminal>, r: int, k: nat) -> Seq<
    KeywordModel,
>
    decreases k,
{
    if k == 0 {
        Seq::empty()
    } else {
        let before = keywords_of(prefix, terms, r, (k - 1) as nat);
        let st = terms[k - 1].def;
        if swallows(prefix, terms[r].def, st) {
            before.push(
                KeywordModel {
                    from: terms[r].id,
                    value: st.pattern->value@,
                    to: terms[k - 1].id,
                },
            )
        } else {
            before
        }
    }
}

/// The keywords of the first `r` terminals.
pub open spec fn all_keywords(prefix: Seq<char>, terms: Seq<Terminal>, r: nat) -> Seq<KeywordModel>
    decreases r,
{
    if r == 0 {
        Seq::empty()
    } else {
        all_keywords(prefix, terms, (r - 1) as nat) + keywords_of(
            prefix,
            terms,
            r - 1,
            terms.len(),
        )
    }
}

/// The alternatives among the first `k` terminals in order.
pub open spec fn alternatives(
    prefix: Seq<char>,
    terms: Seq<Terminal>,
    order: Seq<usize>,
    k: nat,
) -> Seq<(SymbolId, Seq<char>)>
    decreases k,
{
    if k == 0 {
        Seq::empty()
    } else {
        let before = alternatives(prefix, terms, order, (k - 1) as nat);
        let x = order[k - 1] as int;
        if is_keyword(prefix, terms, x, terms.len()) {
            before
        } else {
            before.push((terms[x].id, pattern::inline_of(terms[x].def.pattern)))
        }
    }
}

/// The plan of terminals.
pub open spec fn plan_of(terms: Seq<Terminal>, flags: u32) -> PlanModel {
    let prefix = pattern::flags_prefix(flags);
    PlanModel {
        prefix,
        groups: alternatives(prefix, terms, trial_order(terms, terms.len()), terms.len()),
        unless: all_keywords(prefix, terms, terms.len()),
    }
}

/// The first terminal from `i` on whose expression is refused.
pub open spec fn first_invalid(prefix: Seq<char>, terms: Seq<Terminal>, i: int) -> Option<int>
    decreases terms.len() - i,
{
    if i < 0 || i >= terms.len() {
        None
    } else if !pattern::regex_valid(prefix + pattern::inline_of(terms[i].def.pattern)) {
        Some(i)
    } else {
        first_invalid(prefix, terms, i + 1)
    }
}

/// The report of a terminal whose expression is refused.
pub open spec fn invalid_message(name: Seq<char>) -> Seq<char> {
    "invalid regular expression in terminal "@ + name
}

/// Whether a grammar error is the given report.
pub open spec fn reports(e: GrammarError, msg: Seq<char>) -> bool {
    e matches GrammarError::Other { msg: m } && m@ == msg
}

fn text_len(s: &String) -> (r: usize)
    ensures
        r == s@.len(),
{
    s.as_str().unicode_len()
}

fn goes_first(a: &TerminalDef, b: &TerminalDef) -> (r: bool)
    ensures
        r == tried_first(*a, *b),
{
    if a.priority != b.priority {
        return a.priority > b.priority;
    }
    match (&a.pattern, &b.pattern) {
        (Pattern::Re { .. }, Pattern::Str { .. }) => true,
        (Pattern::Str { .. }, Pattern::Re { .. }) => false,
        (Pattern::Re { pattern: p, .. }, Pattern::Re { pattern: q, .. }) => text_len(p) > text_len(
            q,
        ),
        (Pattern::Str { value: p, .. }, Pattern::Str { value: q, .. }) => text_len(p) > text_len(q),
    }
}

/// The full expression of a terminal.
fn full_regex(prefix: &String, def: &TerminalDef) -> (r: String)
    ensures
        r@ == prefix@ + pattern::inline_of(def.pattern),
{
    let mut r = owned(prefix.as_str());
    let inner = inline_regex(&def.pattern);
    r.append(inner.as_str());
    r
}

fn swallowed(prefix: &String, re: &TerminalDef, st: &TerminalDef) -> (r: bool)
    ensures
        r == swallows(prefix@, *re, *st),
{
    match (&re.pattern, &st.pattern) {
        (Pattern::Re { .. }, Pattern::Str { value, .. }) => {
            if re.priority != st.priority {
                return false;
            }
            let rx = full_regex(prefix, re);
            let none = String::new();
            proof {
                assert(none@ =~= Seq::empty());
            }
            match match_text(rx.as_str(), none.as_str(), value.as_str()) {
                Some(m) => same_text(&m, value.as_str()),
                None => false,
            }
        },
        _ => false,
    }
}

fn order_terms(terms: &Vec<Terminal>) -> (r: Vec<usize>)
    ensures
        r@ == trial_order(terms@, terms@.len()),
        r@.len() == terms@.len(),
        forall|i: int| 0 <= i < r@.len() ==> (#[trigger] r@[i]) < terms@.len(),
{
    let mut order: Vec<usize> = Vec::new();
    let mut k: usize = 0;
    while k < terms.len()
        invariant
            k <= terms@.len(),
            order@ == trial_order(terms@, k as nat),
            order@.len() == k,
            forall|i: int| 0 <= i < order@.len() ==> (#[trigger] order@[i]) < k,
        decreases terms.len() - k,
    {
        let mut at: usize = 0;
        while at < order.len() && !goes_first(&terms[k].def, &terms[order[at]].def)
            invariant
                k < terms@.len(),
                at <= order@.len(),
                forall|i: int| 0 <= i < order@.len() ==> (#[trigger] order@[i]) < k,
                slot_for(terms@, order@, k as int, 0) == slot_for(
                    terms@,
                    order@,
                    k as int,
                    at as int,
                ),
            decreases order.len() - at,
        {
            at = at + 1;
        }
        order.insert(at, k);
        k = k + 1;
    }
    order
}

/// Makes the plan of terminals.
#[verifier::rlimit(30)]
pub fn scanner_plan(terms: &Vec<Terminal>, flags: u32) -> (r: Result<ScannerPlan, GrammarError>)
    ensures
        match first_invalid(pattern::flags_prefix(flags), terms@, 0) {
            None => r matches Ok(p) && p@ == plan_of(terms@, flags),
            Some(i) => r matches Err(e) && reports(
                e,
                invalid_message(terms@[i].def.name@),
            ),
        },
{
    let prefix = global_prefix(flags);
    let n: usize = terms.len();
    let mut i: usize = 0;
    while i < n
        invariant
            i <= n,
            n == terms@.len(),
            prefix@ == pattern::flags_prefix(flags),
            first_invalid(prefix@, terms@, 0) == first_invalid(prefix@, terms@, i as int),
        decreases n - i,
    {
        let rx = full_regex(&prefix, &terms[i].def);
        if !is_valid(rx.as_str()) {
            let mut msg = owned("invalid regular expression in terminal ");
            msg.append(terms[i].def.name.as_str());
            return Err(GrammarError::Other { msg });
        }
        i = i + 1;
    }
    let order = order_terms(terms);
    let mut groups: Vec<Member> = Vec::new();
    let mut k: usize = 0;
    proof {
        assert(member_models(groups@) =~= Seq::empty());
    }
    while k < n
        invariant
            k <= n,
            n == terms@.len(),
            order@.len() == n,
            forall|i: int| 0 <= i < order@.len() ==> (#[trigger] order@[i]) < terms@.len(),
            member_models(groups@) == alternatives(prefix@, terms@, order@, k as nat),
        decreases n - k,
    {
        let x: usize = order[k];
        let mut keyword = false;
        let mut j: usize = 0;
        while j < n
            invariant
                j <= n,
                n == terms@.len(),
                x < n,
                keyword == is_keyword(prefix@, terms@, x as int, j as nat),
            decreases n - j,
        {
            let loose = match &terms[x].def.pattern {
                Pattern::Str { ci, .. } => *ci,
                _ => false,
            };
            if swallowed(&prefix, &terms[j].def, &terms[x].def) && !loose {
                keyword = true;
            }
            j = j + 1;
        }
        let ghost before = member_models(groups@);
        if !keyword {
            let regex = inline_regex(&terms[x].def.pattern);
            groups.push(Member { id: terms[x].id, regex });
            proof {
                assert(member_models(groups@) =~= before.push(
                    (terms@[x as int].id, pattern::inline_of(terms@[x as int].def.pattern)),
                ));
            }
        }
        k = k + 1;
    }
    let mut unless: Vec<Keyword> = Vec::new();
    let mut q: usize = 0;
    proof {
        assert(keyword_models(unless@) =~= Seq::empty());
    }
    while q < n
        invariant
            q <= n,
            n == terms@.len(),
            keyword_models(unless@) == all_keywords(prefix@, terms@, q as nat),
        decreases n - q,
    {
        let ghost base = keyword_models(unless@);
        let mut j: usize = 0;
        proof {
            assert(base + Seq::<KeywordModel>::empty() =~= base);
        }
        while j < n
            invariant
                j <= n,
                n == terms@.len(),
                q < n,
                keyword_models(unless@) == base + keywords_of(
                    prefix@,
                    terms@,
                    q as int,
                    j as nat,
                ),
            decreases n - j,
        {
            let ghost before = keyword_models(unless@);
            if swallowed(&prefix, &terms[q].def, &terms[j].def) {
                if let Pattern::Str { value, .. } = &terms[j].def.pattern {
                    unless.push(
                        Keyword {
                            from: terms[q].id,
                            value: value.clone(),
                            to: terms[j].id,
                        },
                    );
                    proof {
                        let kw = KeywordModel {
                            from: terms@[q as int].id,
                            value: value@,
                            to: terms@[j as int].id,
                        };
                        assert(keyword_models(unless@) =~= before.push(kw));
                        assert(base + keywords_of(prefix@, terms@, q as int, (j + 1) as nat)
                            =~= (base + keywords_of(prefix@, terms@, q as int, j as nat)).push(
                            kw,
                        ));
                    }
                }
            }
            j = j + 1;
        }
        q = q + 1;
    }
    Ok(ScannerPlan { global_prefix: prefix, groups, unless })
}

// ---------------------------------------------------------------------------
// Scanning

/// The first alternative from `i` on that matches at the beginning of `rest`;
/// a match of nothing is none.
pub open spec fn first_match(m: PlanModel, before: Seq<char>, rest: Seq<char>, i: int) -> Option<
    (SymbolId, Seq<char>),
>
    decreases m.groups.len() - i,
{
    if i < 0 || i >= m.groups.len() {
        None
    } else {
        match pattern::matched(m.prefix + m.groups[i].1, before, rest) {
            Some(v) => if v.len() == 0 {
                None
            } else {
                Some((m.groups[i].0, v))
            },
            None => first_match(m, before, rest, i + 1),
        }
    }
}

/// The type of a match: a keyword's where the value is one.
pub open spec fn keyword_type(unless: Seq<KeywordModel>, id: SymbolId, v: Seq<char>, i: int) -> SymbolId
    decreases unless.len() - i,
{
    if i < 0 || i >= unless.len() {
        id
    } else if unless[i].from == id && unless[i].value == v {
        unless[i].to
    } else {
        keyword_type(unless, id, v, i + 1)
    }
}

/// What a plan finds at the beginning of `rest`, after `before`: a type, and
/// the text that it matches.
pub open spec fn scanned(m: PlanModel, before: Seq<char>, rest: Seq<char>) -> Option<
    (SymbolId, Seq<char>),
> {
    match first_match(m, before, rest, 0) {
        Some((id, v)) => Some((keyword_type(m.unless, id, v, 0), v)),
        None => None,
    }
}

/// The content of what a plan finds.
pub open spec fn scan_result(r: Option<(SymbolId, String)>) -> Option<(SymbolId, Seq<char>)> {
    match r {
        Some((id, v)) => Some((id, v@)),
        None => None,
    }
}

impl ScannerPlan {
    /// Looks for a terminal at the beginning of `rest`, after `before`.
    pub fn scan(&self, before: &str, rest: &str) -> (r: Option<(SymbolId, String)>)
        ensures
            scan_result(r) == scanned(self@, before@, rest@),
            r matches Some((id, v)) ==> 0 < v@.len() <= rest@.len() && rest@.take(
                v@.len() as int,
            ) == v@,
    {
        let ghost m = self@;
        let mut i: usize = 0;
        while i < self.groups.len()
            invariant
                i <= self.groups@.len(),
                m == self@,
                first_match(m, before@, rest@, 0) == first_match(m, before@, rest@, i as int),
            decreases self.groups.len() - i,
        {
            let mut rx = owned(self.global_prefix.as_str());
            rx.append(self.groups[i].regex.as_str());
            proof {
                assert(m.groups[i as int] == (
                    self.groups@[i as int].id,
                    self.groups@[i as int].regex@,
                ));
                assert(rx@ =~= m.prefix + m.groups[i as int].1);
            }
            if let Some(v) = match_text(rx.as_str(), before, rest) {
                if text_len(&v) == 0 {
                    return None;
                }
                let id = self.keyword(self.groups[i].id, &v);
                return Some((id, v));
            }
            i = i + 1;
        }
        None
    }

    fn keyword(&self, id: SymbolId, v: &String) -> (r: SymbolId)
        ensures
            r == keyword_type(self@.unless, id, v@, 0),
    {
        let ghost u = self@.unless;
        let mut i: usize = 0;
        while i < self.unless.len()
            invariant
                i <= self.unless@.len(),
                u == self@.unless,
                keyword_type(u, id, v@, 0) == keyword_type(u, id, v@, i as int),
            decreases self.unless.len() - i,
        {
            proof {
                assert(u[i as int] == (KeywordModel {
                    from: self.unless@[i as int].from,
                    value: self.unless@[i as int].value@,
                    to: self.unless@[i as int].to,
                }));
            }
            if self.unless[i].from == id && same_text(&self.unless[i].value, v.as_str()) {
                return self.unless[i].to;
            }
            i = i + 1;
        }
        id
    }
}

} // verus!
