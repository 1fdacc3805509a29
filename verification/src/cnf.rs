//! Chomsky normal form: from the rules of a grammar to rules with one terminal
//! or two nonterminals on the right, each with a record of the original rules
//! that it stands for.

use vstd::prelude::*;
use crate::bits;
use crate::cnf;
use crate::bits::blank_row;
use crate::empty_values;
use crate::empty_values::compute_epsilon_values;
use crate::error::GrammarError;
use crate::symbols;
use crate::symbols::{copy_sizes, CompiledGrammar, SymbolId};
use crate::text::owned;
use crate::tree_builder::Slot;

verus! {

/// How many unit rules may be removed before the grammar is taken to have an
/// endless cycle of them.
pub const UNIT_ITERATION_LIMIT: usize = 2_000_000;

/// How many symbols of one rule may derive the empty string.
pub const MAX_NULLABLE_POSITIONS: usize = 20;

/// A nonterminal of the normal form.
#[derive(Clone, Copy, PartialEq, Eq, Debug, Structural)]
pub enum Nt {
    /// A nonterminal of the grammar.
    Orig(SymbolId),
    /// Stands for one terminal.
    Term(SymbolId),
    /// The rest of a long rule: the number of the rule that was split, and the
    /// position from which the rest begins.
    Split(usize, usize),
}

/// A symbol on the right of a normal-form rule.
#[derive(Clone, Copy, PartialEq, Eq, Debug, Structural)]
pub enum Sym {
    T(SymbolId),
    N(Nt),
}

/// A rule on its way to normal form.
pub struct CnfRule {
    pub lhs: Nt,
    pub rhs: Vec<Sym>,
    /// The sum of the priorities of the rules that it stands for.
    pub weight: i64,
    /// The number of the variant that it stands for; none for a helper.
    pub alias: Option<usize>,
    /// The numbers of the variants that a chain of unit rules ran through.
    pub skipped: Vec<usize>,
}

/// The mathematical content of a normal-form rule.
pub ghost struct CnfModel {
    pub lhs: Nt,
    pub rhs: Seq<Sym>,
    pub weight: i64,
    pub alias: Option<usize>,
    pub skipped: Seq<usize>,
}

impl View for CnfRule {
    type V = CnfModel;

    open spec fn view(&self) -> CnfModel {
        CnfModel {
            lhs: self.lhs,
            rhs: self.rhs@,
            weight: self.weight,
            alias: self.alias,
            skipped: self.skipped@,
        }
    }
}

/// The contents of a list of rules.
pub open spec fn cnf_models(s: Seq<CnfRule>) -> Seq<CnfModel> {
    Seq::new(s.len(), |i: int| s[i]@)
}

/// A variant of a rule of the grammar, in which some symbols that derive the
/// empty string are left out.
pub struct EffRule {
    pub rule_idx: usize,
    /// Which positions of the expansion are present.
    pub present: Vec<bool>,
}

/// The mathematical content of a variant.
pub ghost struct EffModel {
    pub rule_idx: usize,
    pub present: Seq<bool>,
}

impl View for EffRule {
    type V = EffModel;

    open spec fn view(&self) -> EffModel {
        EffModel { rule_idx: self.rule_idx, present: self.present@ }
    }
}

/// The contents of a list of variants.
pub open spec fn eff_models(s: Seq<EffRule>) -> Seq<EffModel> {
    Seq::new(s.len(), |i: int| s[i]@)
}

fn copy_syms(v: &Vec<Sym>) -> (r: Vec<Sym>)
    ensures
        r@ == v@,
{
    let mut r: Vec<Sym> = Vec::new();
    let mut i: usize = 0;
    while i < v.len()
        invariant
            i <= v.len(),
            r@ == v@.take(i as int),
        decreases v.len() - i,
    {
        r.push(v[i]);
        proof {
            assert(r@ =~= v@.take(i + 1));
        }
        i = i + 1;
    }
    proof {
        assert(r@ =~= v@);
    }
    r
}

impl CnfRule {
    /// A copy.
    pub fn copy(&self) -> (r: CnfRule)
        ensures
            r@ == self@,
    {
        CnfRule {
            lhs: self.lhs,
            rhs: copy_syms(&self.rhs),
            weight: self.weight,
            alias: self.alias,
            skipped: copy_sizes(&self.skipped),
        }
    }
}

proof fn lemma_models_push(s: Seq<CnfRule>, r: CnfRule)
    ensures
        cnf_models(s.push(r)) == cnf_models(s).push(r@),
{
    assert(cnf_models(s.push(r)) =~= cnf_models(s).push(r@));
}

// ---------------------------------------------------------------------------
// The rules to begin with

/// A grammar symbol as a normal-form symbol.
pub open spec fn sym_of(nt: nat, s: SymbolId) -> Sym {
    if s.ix() < nt {
        Sym::T(s)
    } else {
        Sym::N(Nt::Orig(s))
    }
}

/// An expansion as normal-form symbols.
pub open spec fn syms_of(nt: nat, e: Seq<SymbolId>) -> Seq<Sym> {
    Seq::new(e.len(), |i: int| sym_of(nt, e[i]))
}

/// The variants to begin with: every rule but start rules, with all positions
/// present.
pub open spec fn base_effs(rules: Seq<symbols::RuleModel>) -> Seq<EffModel>
    decreases rules.len(),
{
    if rules.len() == 0 {
        Seq::empty()
    } else {
        let head = base_effs(rules.drop_last());
        let r = rules.last();
        if r.is_start {
            head
        } else {
            head.push(
                EffModel {
                    rule_idx: (rules.len() - 1) as usize,
                    present: Seq::new(r.expansion.len(), |i: int| true),
                },
            )
        }
    }
}

/// The rules to begin with: every rule but start rules.
pub open spec fn base_rules(rules: Seq<symbols::RuleModel>, nt: nat) -> Seq<CnfModel>
    decreases rules.len(),
{
    if rules.len() == 0 {
        Seq::empty()
    } else {
        let head = base_rules(rules.drop_last(), nt);
        let r = rules.last();
        if r.is_start {
            head
        } else {
            head.push(
                CnfModel {
                    lhs: Nt::Orig(r.origin),
                    rhs: syms_of(nt, r.expansion),
                    weight: r.priority,
                    alias: Some(base_effs(rules.drop_last()).len() as usize),
                    skipped: Seq::empty(),
                },
            )
        }
    }
}

fn base(grammar: &CompiledGrammar) -> (r: (Vec<CnfRule>, Vec<EffRule>))
    ensures
        cnf_models(r.0@) == base_rules(grammar.models(), grammar.terminal_count as nat),
        eff_models(r.1@) == base_effs(grammar.models()),
        r.0@.len() == r.1@.len(),
        r.1@.len() <= grammar.rules@.len(),
{
    let ghost models = grammar.models();
    let ghost nt = grammar.terminal_count as nat;
    let mut rules: Vec<CnfRule> = Vec::new();
    let mut effs: Vec<EffRule> = Vec::new();
    let mut i: usize = 0;
    proof {
        assert(models.take(0) =~= Seq::empty());
        assert(cnf_models(rules@) =~= Seq::empty());
        assert(eff_models(effs@) =~= Seq::empty());
    }
    while i < grammar.rules.len()
        invariant
            i <= grammar.rules@.len(),
            models == grammar.models(),
            nt == grammar.terminal_count,
            cnf_models(rules@) == base_rules(models.take(i as int), nt),
            eff_models(effs@) == base_effs(models.take(i as int)),
            rules@.len() == effs@.len(),
            effs@.len() <= i,
        decreases grammar.rules.len() - i,
    {
        let r = &grammar.rules[i];
        proof {
            assert(models.take(i + 1).drop_last() =~= models.take(i as int));
            assert(models.take(i + 1).last() == r@);
        }
        if !r.is_start {
            let mut rhs: Vec<Sym> = Vec::new();
            let mut present: Vec<bool> = Vec::new();
            let mut j: usize = 0;
            while j < r.expansion.len()
                invariant
                    j <= r.expansion@.len(),
                    nt == grammar.terminal_count,
                    rhs@ == syms_of(nt, r.expansion@.take(j as int)),
                    present@ == Seq::new(j as nat, |k: int| true),
                decreases r.expansion.len() - j,
            {
                let s = r.expansion[j];
                if s.index() < grammar.terminal_count {
                    rhs.push(Sym::T(s));
                } else {
                    rhs.push(Sym::N(Nt::Orig(s)));
                }
                present.push(true);
                proof {
                    assert(rhs@ =~= syms_of(nt, r.expansion@.take(j + 1)));
                    assert(present@ =~= Seq::new((j + 1) as nat, |k: int| true));
                }
                j = j + 1;
            }
            proof {
                assert(r.expansion@.take(r.expansion@.len() as int) =~= r.expansion@);
            }
            let rule = CnfRule {
                lhs: Nt::Orig(r.origin),
                rhs,
                weight: r.options.priority,
                alias: Some(effs.len()),
                skipped: Vec::new(),
            };
            let ghost before_rules = rules@;
            let ghost before_effs = effs@;
            let eff = EffRule { rule_idx: i, present };
            effs.push(eff);
            rules.push(rule);
            proof {
                lemma_models_push(before_rules, rule);
                assert(rule@.skipped =~= Seq::empty());
                assert(eff_models(effs@) =~= eff_models(before_effs).push(eff@));
            }
        }
        i = i + 1;
    }
    proof {
        assert(models.take(models.len() as int) =~= models);
    }
    (rules, effs)
}

// ---------------------------------------------------------------------------
// Reachable rules

/// Whether the nonterminal `s` is used, within `n` steps, in what a start
/// symbol unfolds to.
pub open spec fn used_in(rules: Seq<CnfModel>, starts: Seq<SymbolId>, s: SymbolId, n: nat) -> bool
    decreases n,
{
    starts.contains(s) || (n > 0 && exists|r: int|
        0 <= r < rules.len() && (#[trigger] rules[r]).lhs is Orig && rules[r].rhs.contains(
            Sym::N(Nt::Orig(s)),
        ) && used_in(rules, starts, rules[r].lhs->Orig_0, (n - 1) as nat))
}

/// Whether the nonterminal `s` is used in what a start symbol unfolds to.
pub open spec fn used(rules: Seq<CnfModel>, starts: Seq<SymbolId>, s: SymbolId) -> bool {
    exists|n: nat| #[trigger] used_in(rules, starts, s, n)
}

/// Whether a rule's left side is used.
pub open spec fn rule_used(rules: Seq<CnfModel>, starts: Seq<SymbolId>, r: CnfModel) -> bool {
    r.lhs is Orig && used(rules, starts, r.lhs->Orig_0)
}

/// The rules among `some` whose left side is used in `rules`.
pub open spec fn pruned(
    rules: Seq<CnfModel>,
    starts: Seq<SymbolId>,
    some: Seq<CnfModel>,
) -> Seq<CnfModel>
    decreases some.len(),
{
    if some.len() == 0 {
        Seq::empty()
    } else {
        let head = pruned(rules, starts, some.drop_last());
        if rule_used(rules, starts, some.last()) {
            head.push(some.last())
        } else {
            head
        }
    }
}

/// Whether every symbol id in the rules is below `n`.
pub open spec fn ids_below(rules: Seq<CnfModel>, n: nat) -> bool {
    &&& forall|r: int|
        0 <= r < rules.len() ==> match (#[trigger] rules[r]).lhs {
            Nt::Orig(o) => o.ix() < n,
            _ => true,
        }
    &&& forall|r: int, j: int|
        0 <= r < rules.len() && 0 <= j < rules[r].rhs.len() ==> match #[trigger] rules[r].rhs[j] {
            Sym::N(Nt::Orig(o)) => o.ix() < n,
            _ => true,
        }
}

spec fn closed_use(rules: Seq<CnfModel>, starts: Seq<SymbolId>, set: Seq<bool>, upto: int) -> bool {
    forall|r: int, j: int|
        0 <= r < upto && 0 <= j < rules[r].rhs.len() ==> match (
            rules[r].lhs,
            #[trigger] rules[r].rhs[j],
        ) {
            (Nt::Orig(o), Sym::N(Nt::Orig(s))) => set[o.ix() as int] ==> set[s.ix() as int],
            _ => true,
        }
}

proof fn lemma_closed_use(
    rules: Seq<CnfModel>,
    starts: Seq<SymbolId>,
    set: Seq<bool>,
    s: SymbolId,
    n: nat,
)
    requires
        closed_use(rules, starts, set, rules.len() as int),
        forall|i: int| 0 <= i < starts.len() ==> set[(#[trigger] starts[i]).ix() as int],
        used_in(rules, starts, s, n),
    ensures
        set[s.ix() as int],
    decreases n,
{
    if starts.contains(s) {
        let i = choose|i: int| 0 <= i < starts.len() && starts[i] == s;
        assert(set[starts[i].ix() as int]);
    } else {
        let r = choose|r: int|
            0 <= r < rules.len() && (#[trigger] rules[r]).lhs is Orig && rules[r].rhs.contains(
                Sym::N(Nt::Orig(s)),
            ) && used_in(rules, starts, rules[r].lhs->Orig_0, (n - 1) as nat);
        let o = rules[r].lhs->Orig_0;
        lemma_closed_use(rules, starts, set, o, (n - 1) as nat);
        let j = choose|j: int|
            0 <= j < rules[r].rhs.len() && rules[r].rhs[j] == Sym::N(Nt::Orig(s));
        assert(rules[r].lhs == Nt::Orig(o));
        assert(rules[r].rhs[j] == Sym::N(Nt::Orig(s)));
    }
}

/// Drops the rules whose left side no start symbol uses.
#[verifier::rlimit(40)]
fn prune_unreachable(rules: &Vec<CnfRule>, starts: &Vec<SymbolId>, n: usize) -> (r: Vec<CnfRule>)
    requires
        ids_below(cnf_models(rules@), n as nat),
        forall|i: int| 0 <= i < starts@.len() ==> (#[trigger] starts@[i]).ix() < n,
    ensures
        cnf_models(r@) == pruned(cnf_models(rules@), starts@, cnf_models(rules@)),
{
    let ghost models = cnf_models(rules@);
    let mut set = blank_row(n);
    let mut k: usize = 0;
    while k < starts.len()
        invariant
            k <= starts@.len(),
            set@.len() == n,
            forall|i: int| 0 <= i < starts@.len() ==> (#[trigger] starts@[i]).ix() < n,
            forall|i: int| 0 <= i < k ==> set@[(#[trigger] starts@[i]).ix() as int],
            forall|s: SymbolId|
                s.ix() < n && #[trigger] set@[s.ix() as int] ==> used(models, starts@, s),
        decreases starts.len() - k,
    {
        let ghost before = set@;
        set.set(starts[k].index(), true);
        proof {
            assert forall|s: SymbolId| s.ix() < n && #[trigger] set@[s.ix() as int] implies used(
                models,
                starts@,
                s,
            ) by {
                if !before[s.ix() as int] {
                    assert(s == starts@[k as int]);
                    assert(used_in(models, starts@, s, 0));
                }
            }
        }
        k = k + 1;
    }
    let mut changed = true;
    while changed
        invariant
            models == cnf_models(rules@),
            ids_below(models, n as nat),
            set@.len() == n,
            forall|i: int| 0 <= i < starts@.len() ==> (#[trigger] starts@[i]).ix() < n,
            forall|i: int| 0 <= i < starts@.len() ==> set@[(#[trigger] starts@[i]).ix() as int],
            forall|s: SymbolId|
                s.ix() < n && #[trigger] set@[s.ix() as int] ==> used(models, starts@, s),
            !changed ==> closed_use(models, starts@, set@, models.len() as int),
        decreases bits::missing(set@), changed as int,
    {
        changed = false;
        let ghost before = set@;
        let mut i: usize = 0;
        while i < rules.len()
            invariant
                i <= rules@.len(),
                models == cnf_models(rules@),
                ids_below(models, n as nat),
                set@.len() == n,
                forall|i: int| 0 <= i < starts@.len() ==> (#[trigger] starts@[i]).ix() < n,
                forall|i: int| 0 <= i < starts@.len() ==> set@[(#[trigger] starts@[i]).ix() as int],
                forall|s: SymbolId|
                    s.ix() < n && #[trigger] set@[s.ix() as int] ==> used(models, starts@, s),
                bits::row_le(before, set@),
                changed == (before != set@),
                !changed ==> closed_use(models, starts@, set@, i as int),
            decreases rules.len() - i,
        {
            let r = &rules[i];
            proof {
                assert(models[i as int] == r@);
            }
            if let Nt::Orig(o) = r.lhs {
                proof {
                    assert(match models[i as int].lhs {
                        Nt::Orig(o) => o.ix() < n,
                        _ => true,
                    });
                }
                if set[o.index()] {
                    let mut j: usize = 0;
                    while j < r.rhs.len()
                        invariant
                            j <= r.rhs@.len(),
                            i < rules@.len(),
                            models == cnf_models(rules@),
                            models[i as int] == r@,
                            r.lhs == Nt::Orig(o),
                            o.ix() < n,
                            ids_below(models, n as nat),
                            set@.len() == n,
                            set@[o.ix() as int],
                            forall|i: int|
                                0 <= i < starts@.len() ==> (#[trigger] starts@[i]).ix() < n,
                            forall|i: int|
                                0 <= i < starts@.len() ==> set@[(#[trigger] starts@[i]).ix() as int],
                            forall|s: SymbolId|
                                s.ix() < n && #[trigger] set@[s.ix() as int] ==> used(
                                    models,
                                    starts@,
                                    s,
                                ),
                            bits::row_le(before, set@),
                            changed == (before != set@),
                            !changed ==> closed_use(models, starts@, set@, i as int),
                            !changed ==> forall|q: int|
                                0 <= q < j ==> match #[trigger] r.rhs@[q] {
                                    Sym::N(Nt::Orig(s)) => set@[s.ix() as int],
                                    _ => true,
                                },
                        decreases r.rhs.len() - j,
                    {
                        proof {
                            assert(match models[i as int].rhs[j as int] {
                                Sym::N(Nt::Orig(o)) => o.ix() < n,
                                _ => true,
                            });
                        }
                        if let Sym::N(Nt::Orig(s)) = r.rhs[j] {
                            if !set[s.index()] {
                                let ghost prev = set@;
                                set.set(s.index(), true);
                                changed = true;
                                proof {
                                    assert(!before[s.ix() as int]);
                                    assert(set@[s.ix() as int]);
                                    assert forall|q: int| 0 <= q < before.len() && before[q] implies
                                        #[trigger] set@[q] by {
                                        assert(prev[q]);
                                    }
                                    assert forall|x: SymbolId|
                                        x.ix() < n && #[trigger] set@[x.ix() as int] implies used(
                                        models,
                                        starts@,
                                        x,
                                    ) by {
                                        if !prev[x.ix() as int] {
                                            assert(x == s);
                                            assert(prev[o.ix() as int]);
                                            let m = choose|m: nat|
                                                #[trigger] used_in(models, starts@, o, m);
                                            assert(models[i as int].rhs[j as int] == Sym::N(
                                                Nt::Orig(s),
                                            ));
                                            assert(models[i as int].lhs == Nt::Orig(o));
                                            assert(used_in(models, starts@, s, m + 1));
                                        }
                                    }
                                }
                            }
                        }
                        j = j + 1;
                    }
                }
            }
            i = i + 1;
        }
        proof {
            bits::lemma_missing_le(before, set@);
        }
    }
    proof {
        assert forall|s: SymbolId| s.ix() < n implies #[trigger] set@[s.ix() as int] == used(
            models,
            starts@,
            s,
        ) by {
            if used(models, starts@, s) {
                let m = choose|m: nat| #[trigger] used_in(models, starts@, s, m);
                lemma_closed_use(models, starts@, set@, s, m);
            }
        }
    }
    let mut out: Vec<CnfRule> = Vec::new();
    let mut i: usize = 0;
    proof {
        assert(models.take(0) =~= Seq::empty());
        assert(cnf_models(out@) =~= Seq::empty());
    }
    while i < rules.len()
        invariant
            i <= rules@.len(),
            models == cnf_models(rules@),
            ids_below(models, n as nat),
            set@.len() == n,
            forall|s: SymbolId|
                s.ix() < n ==> #[trigger] set@[s.ix() as int] == used(models, starts@, s),
            cnf_models(out@) == pruned(models, starts@, models.take(i as int)),
        decreases rules.len() - i,
    {
        let r = &rules[i];
        proof {
            assert(models[i as int] == r@);
            assert(match models[i as int].lhs {
                Nt::Orig(o) => o.ix() < n,
                _ => true,
            });
            assert(models.take(i + 1).drop_last() =~= models.take(i as int));
            assert(models.take(i + 1).last() == r@);
        }
        if let Nt::Orig(o) = r.lhs {
            if set[o.index()] {
                let c = r.copy();
                proof {
                    lemma_models_push(out@, c);
                }
                out.push(c);
            }
        }
        i = i + 1;
    }
    proof {
        assert(models.take(models.len() as int) =~= models);
    }
    out
}

// ---------------------------------------------------------------------------
// Derivations

/// Whether the symbol `x` derives the terminals `w` by a tree of height at most
/// `d`.
pub open spec fn gives(rules: Seq<CnfModel>, x: Sym, w: Seq<SymbolId>, d: nat) -> bool
    decreases d, 0nat,
{
    match x {
        Sym::T(t) => w == seq![t],
        Sym::N(a) => d > 0 && exists|r: int|
            0 <= r < rules.len() && (#[trigger] rules[r]).lhs == a && gives_all(
                rules,
                rules[r].rhs,
                w,
                (d - 1) as nat,
            ),
    }
}

/// Whether the symbols `xs`, one after the other, derive the terminals `w` by
/// trees of height at most `d`.
pub open spec fn gives_all(rules: Seq<CnfModel>, xs: Seq<Sym>, w: Seq<SymbolId>, d: nat) -> bool
    decreases d, xs.len(),
{
    if xs.len() == 0 {
        w.len() == 0
    } else {
        exists|k: int|
            0 <= k <= w.len() && gives(rules, xs.last(), #[trigger] w.skip(k), d) && gives_all(
                rules,
                xs.drop_last(),
                w.take(k),
                d,
            )
    }
}

/// Whether the nonterminal `s` derives the empty string.
pub open spec fn empties(rules: Seq<CnfModel>, s: SymbolId) -> bool {
    exists|d: nat| #[trigger] gives(rules, Sym::N(Nt::Orig(s)), Seq::empty(), d)
}

/// Whether a symbol derives the empty string.
pub open spec fn sym_empties(rules: Seq<CnfModel>, x: Sym) -> bool {
    match x {
        Sym::N(Nt::Orig(s)) => empties(rules, s),
        _ => false,
    }
}

/// A higher bound on the height admits the same derivations.
pub proof fn lemma_gives_mono(rules: Seq<CnfModel>, x: Sym, w: Seq<SymbolId>, d: nat, e: nat)
    requires
        gives(rules, x, w, d),
        d <= e,
    ensures
        gives(rules, x, w, e),
    decreases d, 0nat,
{
    if let Sym::N(a) = x {
        let r = choose|r: int|
            0 <= r < rules.len() && (#[trigger] rules[r]).lhs == a && gives_all(
                rules,
                rules[r].rhs,
                w,
                (d - 1) as nat,
            );
        lemma_gives_all_mono(rules, rules[r].rhs, w, (d - 1) as nat, (e - 1) as nat);
        assert(rules[r].lhs == a);
    }
}

/// A higher bound on the height admits the same derivations.
pub proof fn lemma_gives_all_mono(
    rules: Seq<CnfModel>,
    xs: Seq<Sym>,
    w: Seq<SymbolId>,
    d: nat,
    e: nat,
)
    requires
        gives_all(rules, xs, w, d),
        d <= e,
    ensures
        gives_all(rules, xs, w, e),
    decreases d, xs.len(),
{
    if xs.len() > 0 {
        let k = choose|k: int|
            0 <= k <= w.len() && gives(rules, xs.last(), #[trigger] w.skip(k), d) && gives_all(
                rules,
                xs.drop_last(),
                w.take(k),
                d,
            );
        lemma_gives_mono(rules, xs.last(), w.skip(k), d, e);
        lemma_gives_all_mono(rules, xs.drop_last(), w.take(k), d, e);
    }
}

/// Symbols that all derive the empty string derive it together.
pub proof fn lemma_empties_all(rules: Seq<CnfModel>, xs: Seq<Sym>) -> (d: nat)
    requires
        forall|j: int| 0 <= j < xs.len() ==> sym_empties(rules, #[trigger] xs[j]),
    ensures
        gives_all(rules, xs, Seq::empty(), d),
    decreases xs.len(),
{
    if xs.len() == 0 {
        0
    } else {
        assert forall|j: int| 0 <= j < xs.drop_last().len() implies sym_empties(
            rules,
            #[trigger] xs.drop_last()[j],
        ) by {
            assert(sym_empties(rules, xs[j]));
        }
        let d = lemma_empties_all(rules, xs.drop_last());
        let x = xs[xs.len() - 1];
        assert(sym_empties(rules, x));
        let e = choose|e: nat| #[trigger] gives(rules, x, Seq::empty(), e);
        let m = if d < e {
            e
        } else {
            d
        };
        lemma_gives_mono(rules, x, Seq::empty(), e, m);
        lemma_gives_all_mono(rules, xs.drop_last(), Seq::empty(), d, m);
        let w = Seq::<SymbolId>::empty();
        assert(w.skip(0) =~= w);
        assert(w.take(0) =~= w);
        m
    }
}

spec fn closed_empty(rules: Seq<CnfModel>, set: Seq<bool>, upto: int) -> bool {
    forall|r: int|
        0 <= r < upto && (forall|j: int|
            0 <= j < rules[r].rhs.len() ==> sym_in(set, #[trigger] rules[r].rhs[j])) ==> match (
        #[trigger] rules[r]).lhs {
            Nt::Orig(o) => set[o.ix() as int],
            _ => true,
        }
}

/// Whether a symbol is a nonterminal of the grammar whose flag is on.
spec fn sym_in(set: Seq<bool>, x: Sym) -> bool {
    match x {
        Sym::N(Nt::Orig(s)) => set[s.ix() as int],
        _ => false,
    }
}

/// Whether all left sides are nonterminals of the grammar and right sides hold
/// no helpers.
pub open spec fn original(rules: Seq<CnfModel>) -> bool {
    &&& forall|r: int| 0 <= r < rules.len() ==> (#[trigger] rules[r]).lhs is Orig
    &&& forall|r: int, j: int|
        0 <= r < rules.len() && 0 <= j < rules[r].rhs.len() ==> match #[trigger] rules[r].rhs[j] {
            Sym::T(_) => true,
            Sym::N(n) => n is Orig,
        }
}

proof fn lemma_closed_empty(rules: Seq<CnfModel>, set: Seq<bool>, s: SymbolId, d: nat)
    requires
        closed_empty(rules, set, rules.len() as int),
        original(rules),
        gives(rules, Sym::N(Nt::Orig(s)), Seq::empty(), d),
    ensures
        set[s.ix() as int],
    decreases d, 0nat,
{
    let r = choose|r: int|
        0 <= r < rules.len() && (#[trigger] rules[r]).lhs == Nt::Orig(s) && gives_all(
            rules,
            rules[r].rhs,
            Seq::empty(),
            (d - 1) as nat,
        );
    assert forall|j: int| 0 <= j < rules[r].rhs.len() implies match #[trigger] rules[r].rhs[j] {
        Sym::T(_) => true,
        Sym::N(n) => n is Orig,
    } by {}
    lemma_closed_empty_all(rules, set, rules[r].rhs, (d - 1) as nat);
    assert(rules[r].lhs == Nt::Orig(s));
}

proof fn lemma_closed_empty_all(rules: Seq<CnfModel>, set: Seq<bool>, xs: Seq<Sym>, d: nat)
    requires
        closed_empty(rules, set, rules.len() as int),
        original(rules),
        gives_all(rules, xs, Seq::empty(), d),
        forall|j: int|
            0 <= j < xs.len() ==> match #[trigger] xs[j] {
                Sym::T(_) => true,
                Sym::N(n) => n is Orig,
            },
    ensures
        forall|j: int| 0 <= j < xs.len() ==> sym_in(set, #[trigger] xs[j]),
    decreases d, xs.len(),
{
    if xs.len() > 0 {
        let w = Seq::<SymbolId>::empty();
        let k = choose|k: int|
            0 <= k <= w.len() && gives(rules, xs.last(), #[trigger] w.skip(k), d) && gives_all(
                rules,
                xs.drop_last(),
                w.take(k),
                d,
            );
        assert(w.skip(k) =~= w);
        assert(w.take(k) =~= w);
        let x = xs[xs.len() - 1];
        assert(match x {
            Sym::T(_) => true,
            Sym::N(n) => n is Orig,
        });
        match x {
            Sym::T(t) => {
                assert(w.len() == seq![t].len());
            },
            Sym::N(n) => {
                lemma_closed_empty(rules, set, n->Orig_0, d);
            },
        }
        assert forall|j: int| 0 <= j < xs.drop_last().len() implies match #[trigger] xs.drop_last()[j] {
            Sym::T(_) => true,
            Sym::N(n) => n is Orig,
        } by {
            assert(match xs[j] {
                Sym::T(_) => true,
                Sym::N(n) => n is Orig,
            });
        }
        lemma_closed_empty_all(rules, set, xs.drop_last(), d);
        assert forall|j: int| 0 <= j < xs.len() implies sym_in(set, #[trigger] xs[j]) by {
            if j < xs.len() - 1 {
                assert(sym_in(set, xs.drop_last()[j]));
            }
        }
    }
}

fn all_in(set: &Vec<bool>, xs: &Vec<Sym>) -> (r: bool)
    requires
        forall|j: int|
            0 <= j < xs@.len() ==> match #[trigger] xs@[j] {
                Sym::N(Nt::Orig(o)) => o.ix() < set@.len(),
                _ => true,
            },
    ensures
        r == (forall|j: int| 0 <= j < xs@.len() ==> sym_in(set@, #[trigger] xs@[j])),
{
    let mut j: usize = 0;
    while j < xs.len()
        invariant
            j <= xs@.len(),
            forall|j: int|
                0 <= j < xs@.len() ==> match #[trigger] xs@[j] {
                    Sym::N(Nt::Orig(o)) => o.ix() < set@.len(),
                    _ => true,
                },
            forall|q: int| 0 <= q < j ==> sym_in(set@, #[trigger] xs@[q]),
        decreases xs.len() - j,
    {
        let x = xs[j];
        let ok = match x {
            Sym::N(Nt::Orig(s)) => set[s.index()],
            _ => false,
        };
        if !ok {
            proof {
                assert(!sym_in(set@, xs@[j as int]));
            }
            return false;
        }
        j = j + 1;
    }
    true
}

/// Marks the nonterminals that derive the empty string.
fn compute_nullable(rules: &Vec<CnfRule>, n: usize) -> (r: Vec<bool>)
    requires
        ids_below(cnf_models(rules@), n as nat),
        original(cnf_models(rules@)),
    ensures
        r@.len() == n,
        forall|s: SymbolId|
            s.ix() < n ==> #[trigger] r@[s.ix() as int] == empties(cnf_models(rules@), s),
{
    let ghost models = cnf_models(rules@);
    let mut set = blank_row(n);
    let mut changed = true;
    while changed
        invariant
            models == cnf_models(rules@),
            ids_below(models, n as nat),
            original(models),
            set@.len() == n,
            forall|s: SymbolId| s.ix() < n && #[trigger] set@[s.ix() as int] ==> empties(models, s),
            !changed ==> closed_empty(models, set@, models.len() as int),
        decreases bits::missing(set@), changed as int,
    {
        changed = false;
        let ghost before = set@;
        let mut i: usize = 0;
        while i < rules.len()
            invariant
                i <= rules@.len(),
                models == cnf_models(rules@),
                ids_below(models, n as nat),
                original(models),
                set@.len() == n,
                forall|s: SymbolId|
                    s.ix() < n && #[trigger] set@[s.ix() as int] ==> empties(models, s),
                bits::row_le(before, set@),
                changed == (before != set@),
                !changed ==> closed_empty(models, set@, i as int),
            decreases rules.len() - i,
        {
            let r = &rules[i];
            let ghost prev = set@;
            proof {
                assert(models[i as int] == r@);
                assert(match models[i as int].lhs {
                    Nt::Orig(o) => o.ix() < n,
                    _ => true,
                });
                assert forall|j: int| 0 <= j < r.rhs@.len() implies match #[trigger] r.rhs@[j] {
                    Sym::N(Nt::Orig(o)) => o.ix() < set@.len(),
                    _ => true,
                } by {
                    assert(match models[i as int].rhs[j] {
                        Sym::N(Nt::Orig(o)) => o.ix() < n,
                        _ => true,
                    });
                }
            }
            if let Nt::Orig(o) = r.lhs {
                if !set[o.index()] && all_in(&set, &r.rhs) {
                    proof {
                        let xs = models[i as int].rhs;
                        assert forall|j: int| 0 <= j < xs.len() implies sym_empties(
                            models,
                            #[trigger] xs[j],
                        ) by {
                            assert(sym_in(set@, r.rhs@[j]));
                            if let Sym::N(Nt::Orig(s)) = xs[j] {
                                assert(set@[s.ix() as int]);
                            }
                        }
                        let d = lemma_empties_all(models, xs);
                        assert(models[i as int].lhs == Nt::Orig(o));
                        assert(gives(models, Sym::N(Nt::Orig(o)), Seq::empty(), d + 1));
                    }
                    set.set(o.index(), true);
                    changed = true;
                    proof {
                        assert(!before[o.ix() as int]);
                        assert(set@[o.ix() as int]);
                        assert forall|q: int| 0 <= q < before.len() && before[q] implies
                            #[trigger] set@[q] by {
                            assert(prev[q]);
                        }
                    }
                }
            }
            i = i + 1;
        }
        proof {
            bits::lemma_missing_le(before, set@);
        }
    }
    proof {
        assert forall|s: SymbolId| s.ix() < n implies #[trigger] set@[s.ix() as int] == empties(
            models,
            s,
        ) by {
            if empties(models, s) {
                let d = choose|d: nat|
                    #[trigger] gives(models, Sym::N(Nt::Orig(s)), Seq::empty(), d);
                lemma_closed_empty(models, set@, s, d);
            }
        }
    }
    set
}

// ---------------------------------------------------------------------------
// Leaving out what derives the empty string

/// Which positions of a right side derive the empty string.
pub open spec fn null_flags(rules: Seq<CnfModel>, rhs: Seq<Sym>) -> Seq<bool> {
    Seq::new(rhs.len(), |i: int| sym_empties(rules, rhs[i]))
}

/// How many flags are on.
pub open spec fn count_on(s: Seq<bool>) -> nat
    decreases s.len(),
{
    if s.len() == 0 {
        0
    } else {
        count_on(s.drop_last()) + if s.last() {
            1nat
        } else {
            0nat
        }
    }
}

/// The positions that variant number `k` keeps: all but the flagged ones whose
/// digit in the binary numeral of `k` is one.
pub open spec fn mask_of(flags: Seq<bool>, k: nat) -> Seq<bool>
    decreases flags.len(),
{
    if flags.len() == 0 {
        Seq::empty()
    } else if flags[0] {
        seq![k % 2 == 0] + mask_of(flags.drop_first(), k / 2)
    } else {
        seq![true] + mask_of(flags.drop_first(), k)
    }
}

/// The symbols that a mask keeps.
pub open spec fn kept(xs: Seq<Sym>, mask: Seq<bool>) -> Seq<Sym>
    decreases xs.len(),
{
    if xs.len() == 0 || mask.len() == 0 {
        Seq::empty()
    } else if mask[0] {
        seq![xs[0]] + kept(xs.drop_first(), mask.drop_first())
    } else {
        kept(xs.drop_first(), mask.drop_first())
    }
}

/// Two to the power `n`.
pub open spec fn two_to(n: nat) -> nat
    decreases n,
{
    if n == 0 {
        1
    } else {
        2 * two_to((n - 1) as nat)
    }
}

/// The masks of the first `n` variants that keep something.
pub open spec fn masks(rhs: Seq<Sym>, flags: Seq<bool>, n: nat) -> Seq<Seq<bool>>
    decreases n,
{
    if n == 0 {
        Seq::empty()
    } else {
        let head = masks(rhs, flags, (n - 1) as nat);
        let m = mask_of(flags, (n - 1) as nat);
        if kept(rhs, m).len() > 0 {
            head.push(m)
        } else {
            head
        }
    }
}

/// The rules of the variants with the given masks; `base` is the number of the
/// first variant.
pub open spec fn variant_rules(r: CnfModel, ms: Seq<Seq<bool>>, base: nat) -> Seq<CnfModel> {
    Seq::new(
        ms.len(),
        |i: int|
            CnfModel {
                lhs: r.lhs,
                rhs: kept(r.rhs, ms[i]),
                weight: r.weight,
                alias: Some((base + i) as usize),
                skipped: Seq::empty(),
            },
    )
}

/// The variants with the given masks.
pub open spec fn variant_effs(idx: usize, ms: Seq<Seq<bool>>) -> Seq<EffModel> {
    Seq::new(ms.len(), |i: int| EffModel { rule_idx: idx, present: ms[i] })
}

/// The number of the grammar rule that a rule stands for.
pub open spec fn grammar_rule(effs: Seq<EffModel>, r: CnfModel) -> usize {
    match r.alias {
        Some(e) => effs[e as int].rule_idx,
        None => 0,
    }
}

/// The rules and variants once empty right sides are gone: each rule is
/// replaced by the variants that leave out some symbols that derive the empty
/// string.
pub open spec fn without_empty(
    all: Seq<CnfModel>,
    effs: Seq<EffModel>,
    some: Seq<CnfModel>,
) -> (Seq<CnfModel>, Seq<EffModel>)
    decreases some.len(),
{
    if some.len() == 0 {
        (Seq::empty(), effs)
    } else {
        let (out, more) = without_empty(all, effs, some.drop_last());
        let r = some.last();
        let flags = null_flags(all, r.rhs);
        let m = count_on(flags);
        if r.rhs.len() == 0 {
            (out, more)
        } else if m == 0 {
            (out.push(r), more)
        } else {
            let ms = masks(r.rhs, flags, two_to(m));
            (
                out + variant_rules(r, ms, more.len()),
                more + variant_effs(grammar_rule(effs, r), ms),
            )
        }
    }
}

/// Whether a rule has too many symbols that derive the empty string.
pub open spec fn too_many(all: Seq<CnfModel>, r: CnfModel) -> bool {
    count_on(null_flags(all, r.rhs)) > MAX_NULLABLE_POSITIONS
}

fn power_of_two(m: usize) -> (r: usize)
    requires
        m <= MAX_NULLABLE_POSITIONS,
    ensures
        r == two_to(m as nat),
        r <= 1_048_576,
{
    let mut r: usize = 1;
    let mut i: usize = 0;
    proof {
        reveal_with_fuel(two_to, 21);
        assert(two_to(20) == 1_048_576);
    }
    while i < m
        invariant
            i <= m <= 20,
            r == two_to(i as nat),
            two_to(20) == 1_048_576,
            r <= 1_048_576,
        decreases m - i,
    {
        proof {
            lemma_two_to_le((i + 1) as nat, 20);
        }
        r = r * 2;
        i = i + 1;
    }
    r
}

proof fn lemma_two_to_le(a: nat, b: nat)
    requires
        a <= b,
    ensures
        two_to(a) <= two_to(b),
        two_to(a) >= 1,
    decreases b,
{
    if a < b {
        lemma_two_to_le(a, (b - 1) as nat);
    } else if a > 0 {
        lemma_two_to_le((a - 1) as nat, (a - 1) as nat);
    }
}

fn make_mask(flags: &Vec<bool>, k: usize) -> (r: Vec<bool>)
    ensures
        r@ == mask_of(flags@, k as nat),
{
    let mut r: Vec<bool> = Vec::new();
    let mut rest: usize = k;
    let mut i: usize = 0;
    proof {
        assert(flags@.skip(0) =~= flags@);
        assert(r@ + mask_of(flags@.skip(0), k as nat) =~= mask_of(flags@, k as nat));
    }
    while i < flags.len()
        invariant
            i <= flags@.len(),
            r@ + mask_of(flags@.skip(i as int), rest as nat) == mask_of(flags@, k as nat),
        decreases flags.len() - i,
    {
        let ghost before = r@;
        let ghost left = flags@.skip(i as int);
        let ghost n = rest as nat;
        proof {
            assert(left.drop_first() =~= flags@.skip(i + 1));
            assert(left[0] == flags@[i as int]);
        }
        if flags[i] {
            r.push(rest % 2 == 0);
            rest = rest / 2;
        } else {
            r.push(true);
        }
        proof {
            assert(r@ + mask_of(flags@.skip(i + 1), rest as nat) =~= before + mask_of(left, n));
        }
        i = i + 1;
    }
    proof {
        assert(flags@.skip(flags@.len() as int) =~= Seq::empty());
        assert(r@ + Seq::<bool>::empty() =~= r@);
    }
    r
}

fn keep_masked(xs: &Vec<Sym>, mask: &Vec<bool>) -> (r: Vec<Sym>)
    requires
        xs@.len() == mask@.len(),
    ensures
        r@ == kept(xs@, mask@),
{
    let mut r: Vec<Sym> = Vec::new();
    let mut i: usize = 0;
    proof {
        assert(xs@.skip(0) =~= xs@);
        assert(mask@.skip(0) =~= mask@);
        assert(r@ + kept(xs@.skip(0), mask@.skip(0)) =~= kept(xs@, mask@));
    }
    while i < xs.len()
        invariant
            i <= xs@.len(),
            xs@.len() == mask@.len(),
            r@ + kept(xs@.skip(i as int), mask@.skip(i as int)) == kept(xs@, mask@),
        decreases xs.len() - i,
    {
        let ghost before = r@;
        proof {
            assert(xs@.skip(i as int).drop_first() =~= xs@.skip(i + 1));
            assert(mask@.skip(i as int).drop_first() =~= mask@.skip(i + 1));
        }
        if mask[i] {
            r.push(xs[i]);
        }
        proof {
            assert(r@ + kept(xs@.skip(i + 1), mask@.skip(i + 1)) =~= before + kept(
                xs@.skip(i as int),
                mask@.skip(i as int),
            ));
        }
        i = i + 1;
    }
    proof {
        assert(xs@.skip(xs@.len() as int) =~= Seq::empty());
        assert(r@ + Seq::<Sym>::empty() =~= r@);
    }
    r
}

/// A mask has a flag for each position.
pub proof fn lemma_mask_len(flags: Seq<bool>, k: nat)
    ensures
        mask_of(flags, k).len() == flags.len(),
    decreases flags.len(),
{
    if flags.len() > 0 {
        lemma_mask_len(flags.drop_first(), k / 2);
        lemma_mask_len(flags.drop_first(), k);
    }
}

/// Replaces each rule by the variants that leave out some symbols that derive
/// the empty string.
#[verifier::rlimit(40)]
fn eliminate_epsilon(rules: &Vec<CnfRule>, nullable: &Vec<bool>, effs: Vec<EffRule>) -> (r: Result<
    (Vec<CnfRule>, Vec<EffRule>),
    GrammarError,
>)
    requires
        ids_below(cnf_models(rules@), nullable@.len()),
        nullable@.len() <= u32::MAX,
        forall|s: SymbolId|
            s.ix() < nullable@.len() ==> #[trigger] nullable@[s.ix() as int] == empties(
                cnf_models(rules@),
                s,
            ),
        forall|i: int|
            0 <= i < rules@.len() ==> (#[trigger] rules@[i]).alias is Some && rules@[i].alias->0
                < effs@.len(),
    ensures
        match r {
            Ok((out, more)) => {
                &&& forall|i: int|
                    0 <= i < rules@.len() ==> !too_many(
                        cnf_models(rules@),
                        #[trigger] cnf_models(rules@)[i],
                    )
                &&& (cnf_models(out@), eff_models(more@)) == without_empty(
                    cnf_models(rules@),
                    eff_models(effs@),
                    cnf_models(rules@),
                )
            },
            Err(GrammarError::Other { msg }) => {
                &&& exists|i: int|
                    0 <= i < rules@.len() && too_many(
                        cnf_models(rules@),
                        #[trigger] cnf_models(rules@)[i],
                    )
                &&& msg@ == "CYK: too many nullable symbols in one rule"@
            },
            Err(_) => false,
        },
{
    let ghost models = cnf_models(rules@);
    let ghost base = eff_models(effs@);
    let n_effs: usize = effs.len();
    let mut effs = effs;
    let mut out: Vec<CnfRule> = Vec::new();
    let mut i: usize = 0;
    proof {
        assert(models.take(0) =~= Seq::empty());
        assert(cnf_models(out@) =~= Seq::empty());
    }
    while i < rules.len()
        invariant
            i <= rules@.len(),
            models == cnf_models(rules@),
            ids_below(models, nullable@.len()),
            nullable@.len() <= u32::MAX,
            forall|s: SymbolId|
                s.ix() < nullable@.len() ==> #[trigger] nullable@[s.ix() as int] == empties(
                    models,
                    s,
                ),
            n_effs == base.len(),
            forall|i: int|
                0 <= i < rules@.len() ==> (#[trigger] rules@[i]).alias is Some && rules@[i].alias->0
                    < n_effs,
            effs@.len() >= n_effs,
            eff_models(effs@).take(n_effs as int) == base,
            (cnf_models(out@), eff_models(effs@)) == without_empty(
                models,
                base,
                models.take(i as int),
            ),
            forall|q: int| 0 <= q < i ==> !too_many(models, #[trigger] models[q]),
        decreases rules.len() - i,
    {
        let r = &rules[i];
        let ghost rm = models[i as int];
        let ghost flags = null_flags(models, rm.rhs);
        proof {
            assert(rm == r@);
            assert(models.take(i + 1).drop_last() =~= models.take(i as int));
            assert(models.take(i + 1).last() == rm);
        }
        let mut on: Vec<bool> = Vec::new();
        let mut m: usize = 0;
        let mut j: usize = 0;
        proof {
            assert(flags.take(0) =~= Seq::empty());
        }
        while j < r.rhs.len()
            invariant
                j <= r.rhs@.len(),
                i < rules@.len(),
                models == cnf_models(rules@),
                rm == models[i as int],
                rm == r@,
                flags == null_flags(models, rm.rhs),
                ids_below(models, nullable@.len()),
                nullable@.len() <= u32::MAX,
                forall|s: SymbolId|
                    s.ix() < nullable@.len() ==> #[trigger] nullable@[s.ix() as int] == empties(
                        models,
                        s,
                    ),
                on@ == flags.take(j as int),
                m == count_on(flags.take(j as int)),
                m <= j,
            decreases r.rhs.len() - j,
        {
            let x = r.rhs[j];
            proof {
                assert(match models[i as int].rhs[j as int] {
                    Sym::N(Nt::Orig(o)) => o.ix() < nullable@.len(),
                    _ => true,
                });
            }
            let empty = match x {
                Sym::N(Nt::Orig(s)) => nullable[s.index()],
                _ => false,
            };
            on.push(empty);
            proof {
                assert(on@ =~= flags.take(j + 1));
                assert(flags.take(j + 1).drop_last() =~= flags.take(j as int));
                assert(flags.take(j + 1).last() == empty);
            }
            if empty {
                m = m + 1;
            }
            j = j + 1;
        }
        proof {
            assert(flags.take(flags.len() as int) =~= flags);
        }
        if m > MAX_NULLABLE_POSITIONS {
            proof {
                assert(too_many(models, models[i as int]));
            }
            return Err(
                GrammarError::Other { msg: owned("CYK: too many nullable symbols in one rule") },
            );
        }
        if r.rhs.len() == 0 {
        } else if m == 0 {
            let c = r.copy();
            proof {
                lemma_models_push(out@, c);
            }
            out.push(c);
        } else {
            let a: usize = match r.alias {
                Some(a) => a,
                None => 0,
            };
            proof {
                assert(rules@[i as int].alias is Some);
                assert(eff_models(effs@).take(n_effs as int)[a as int] == base[a as int]);
            }
            let idx: usize = effs[a].rule_idx;
            let total: usize = power_of_two(m);
            let ghost out0 = cnf_models(out@);
            let ghost effs0 = eff_models(effs@);
            let first: usize = effs.len();
            let mut k: usize = 0;
            proof {
                let ms = masks(rm.rhs, flags, 0);
                assert(out0 + variant_rules(rm, ms, first as nat) =~= out0);
                assert(effs0 + variant_effs(idx, ms) =~= effs0);
            }
            while k < total
                invariant
                    k <= total,
                    rm == r@,
                    on@ == flags,
                    flags.len() == rm.rhs.len(),
                    first == effs0.len(),
                    cnf_models(out@) == out0 + variant_rules(
                        rm,
                        masks(rm.rhs, flags, k as nat),
                        first as nat,
                    ),
                    eff_models(effs@) == effs0 + variant_effs(
                        idx,
                        masks(rm.rhs, flags, k as nat),
                    ),
                decreases total - k,
            {
                let mask = make_mask(&on, k);
                proof {
                    lemma_mask_len(flags, k as nat);
                }
                let rhs = keep_masked(&r.rhs, &mask);
                if rhs.len() > 0 {
                    let ghost ms = masks(rm.rhs, flags, k as nat);
                    let ghost mm = mask@;
                    let rule = CnfRule {
                        lhs: r.lhs,
                        rhs,
                        weight: r.weight,
                        alias: Some(effs.len()),
                        skipped: Vec::new(),
                    };
                    let eff = EffRule { rule_idx: idx, present: mask };
                    let ghost before_out = out@;
                    let ghost before_effs = effs@;
                    effs.push(eff);
                    out.push(rule);
                    proof {
                        lemma_models_push(before_out, rule);
                        assert(eff_models(effs@) =~= eff_models(before_effs).push(eff@));
                        assert(rule@.skipped =~= Seq::empty());
                        assert(before_effs.len() == eff_models(before_effs).len());
                        assert(variant_rules(rm, ms.push(mm), first as nat) =~= variant_rules(
                            rm,
                            ms,
                            first as nat,
                        ).push(rule@));
                        assert(variant_effs(idx, ms.push(mm)) =~= variant_effs(idx, ms).push(eff@));
                        assert(cnf_models(out@) =~= out0 + variant_rules(
                            rm,
                            ms.push(mm),
                            first as nat,
                        ));
                        assert(eff_models(effs@) =~= effs0 + variant_effs(idx, ms.push(mm)));
                    }
                }
                k = k + 1;
            }
            proof {
                assert(eff_models(effs@).take(n_effs as int) =~= effs0.take(n_effs as int));
                assert(idx == grammar_rule(base, rm));
            }
        }
        i = i + 1;
    }
    proof {
        assert(models.take(models.len() as int) =~= models);
    }
    Ok((out, effs))
}

// ---------------------------------------------------------------------------
// Lifting terminals out of long rules

/// A symbol of a long rule: a terminal is replaced by its stand-in.
pub open spec fn lifted_sym(x: Sym) -> Sym {
    match x {
        Sym::T(t) => Sym::N(Nt::Term(t)),
        Sym::N(n) => Sym::N(n),
    }
}

/// A rule with its terminals replaced, if it is long.
pub open spec fn lifted(r: CnfModel) -> CnfModel {
    if r.rhs.len() > 1 {
        CnfModel { rhs: Seq::new(r.rhs.len(), |i: int| lifted_sym(r.rhs[i])), ..r }
    } else {
        r
    }
}

/// Whether a terminal stands in a long rule.
pub open spec fn in_long(rules: Seq<CnfModel>, t: SymbolId) -> bool {
    exists|r: int|
        0 <= r < rules.len() && (#[trigger] rules[r]).rhs.len() > 1 && rules[r].rhs.contains(
            Sym::T(t),
        )
}

/// The rule of a terminal's stand-in.
pub open spec fn stand_in(t: SymbolId) -> CnfModel {
    CnfModel {
        lhs: Nt::Term(t),
        rhs: seq![Sym::T(t)],
        weight: 0,
        alias: None,
        skipped: Seq::empty(),
    }
}

/// The stand-ins of the terminals below `n` that stand in long rules.
pub open spec fn stand_ins(rules: Seq<CnfModel>, n: nat) -> Seq<CnfModel>
    decreases n,
{
    if n == 0 {
        Seq::empty()
    } else {
        let head = stand_ins(rules, (n - 1) as nat);
        let t = SymbolId((n - 1) as u32);
        if in_long(rules, t) {
            head.push(stand_in(t))
        } else {
            head
        }
    }
}

/// The rules with terminals lifted out of long rules.
pub open spec fn with_stand_ins(rules: Seq<CnfModel>, nt: nat) -> Seq<CnfModel> {
    Seq::new(rules.len(), |i: int| lifted(rules[i])) + stand_ins(rules, nt)
}

fn holds_terminal(r: &CnfRule, t: SymbolId) -> (b: bool)
    ensures
        b == r@.rhs.contains(Sym::T(t)),
{
    let mut j: usize = 0;
    while j < r.rhs.len()
        invariant
            j <= r.rhs@.len(),
            forall|q: int| 0 <= q < j ==> #[trigger] r.rhs@[q] != Sym::T(t),
        decreases r.rhs.len() - j,
    {
        if r.rhs[j] == Sym::T(t) {
            return true;
        }
        j = j + 1;
    }
    false
}

/// Replaces each terminal of a long rule by a stand-in with a rule of its own.
fn term(rules: &Vec<CnfRule>, nt: usize) -> (r: Vec<CnfRule>)
    requires
        nt <= u32::MAX,
    ensures
        cnf_models(r@) == with_stand_ins(cnf_models(rules@), nt as nat),
{
    let ghost models = cnf_models(rules@);
    let mut out: Vec<CnfRule> = Vec::new();
    let mut i: usize = 0;
    while i < rules.len()
        invariant
            i <= rules@.len(),
            models == cnf_models(rules@),
            cnf_models(out@) == Seq::new(i as nat, |q: int| lifted(models[q])),
        decreases rules.len() - i,
    {
        let r = &rules[i];
        let mut c = r.copy();
        if r.rhs.len() > 1 {
            let mut rhs: Vec<Sym> = Vec::new();
            let mut j: usize = 0;
            while j < r.rhs.len()
                invariant
                    j <= r.rhs@.len(),
                    rhs@ == Seq::new(j as nat, |q: int| lifted_sym(r.rhs@[q])),
                decreases r.rhs.len() - j,
            {
                match r.rhs[j] {
                    Sym::T(t) => {
                        rhs.push(Sym::N(Nt::Term(t)));
                    },
                    Sym::N(n) => {
                        rhs.push(Sym::N(n));
                    },
                }
                proof {
                    assert(rhs@ =~= Seq::new((j + 1) as nat, |q: int| lifted_sym(r.rhs@[q])));
                }
                j = j + 1;
            }
            c.rhs = rhs;
        }
        proof {
            assert(c@ == lifted(models[i as int]));
            lemma_models_push(out@, c);
        }
        out.push(c);
        proof {
            assert(cnf_models(out@) =~= Seq::new((i + 1) as nat, |q: int| lifted(models[q])));
        }
        i = i + 1;
    }
    let ghost head = cnf_models(out@);
    let mut t: usize = 0;
    proof {
        assert(head + stand_ins(models, 0) =~= head);
    }
    while t < nt
        invariant
            t <= nt <= u32::MAX,
            models == cnf_models(rules@),
            cnf_models(out@) == head + stand_ins(models, t as nat),
        decreases nt - t,
    {
        let sym = SymbolId(t as u32);
        let mut found = false;
        let mut i: usize = 0;
        while i < rules.len() && !found
            invariant
                i <= rules@.len(),
                models == cnf_models(rules@),
                found ==> in_long(models, sym),
                !found ==> forall|q: int|
                    0 <= q < i ==> !((#[trigger] models[q]).rhs.len() > 1 && models[q].rhs.contains(
                        Sym::T(sym),
                    )),
            decreases rules.len() - i,
        {
            proof {
                assert(models[i as int] == rules@[i as int]@);
            }
            if rules[i].rhs.len() > 1 && holds_terminal(&rules[i], sym) {
                found = true;
            }
            i = i + 1;
        }
        if found {
            let mut rhs: Vec<Sym> = Vec::new();
            rhs.push(Sym::T(sym));
            let c = CnfRule {
                lhs: Nt::Term(sym),
                rhs,
                weight: 0,
                alias: None,
                skipped: Vec::new(),
            };
            proof {
                assert(c@.rhs =~= seq![Sym::T(sym)]);
                assert(c@.skipped =~= Seq::empty());
                lemma_models_push(out@, c);
            }
            out.push(c);
        }
        t = t + 1;
        proof {
            assert(cnf_models(out@) =~= head + stand_ins(models, t as nat));
        }
    }
    out
}

// ---------------------------------------------------------------------------
// Splitting long rules

/// Rule number `i` of the chain that a long rule is split into.
pub open spec fn split_rule(r: CnfModel, g: usize, i: int) -> CnfModel {
    let m = r.rhs.len();
    CnfModel {
        lhs: if i == 0 {
            r.lhs
        } else {
            Nt::Split(g, i as usize)
        },
        rhs: if i == m - 2 {
            seq![r.rhs[m - 2], r.rhs[m - 1]]
        } else {
            seq![r.rhs[i], Sym::N(Nt::Split(g, (i + 1) as usize))]
        },
        weight: if i == 0 {
            r.weight
        } else {
            0
        },
        alias: if i == 0 {
            r.alias
        } else {
            None
        },
        skipped: Seq::empty(),
    }
}

/// The chain that a long rule is split into.
pub open spec fn split_chain(r: CnfModel, g: usize) -> Seq<CnfModel> {
    Seq::new((r.rhs.len() - 1) as nat, |i: int| split_rule(r, g, i))
}

/// The rules with long ones split; the second part counts the splits.
pub open spec fn with_splits(rules: Seq<CnfModel>) -> (Seq<CnfModel>, nat)
    decreases rules.len(),
{
    if rules.len() == 0 {
        (Seq::empty(), 0)
    } else {
        let (out, g) = with_splits(rules.drop_last());
        let r = rules.last();
        if r.rhs.len() > 2 {
            (out + split_chain(r, g as usize), g + 1)
        } else {
            (out.push(r), g)
        }
    }
}

fn split(r: &CnfRule, g: usize, out: &mut Vec<CnfRule>)
    requires
        r@.rhs.len() > 2,
    ensures
        cnf_models(final(out)@) == cnf_models(old(out)@) + split_chain(r@, g),
{
    let m: usize = r.rhs.len();
    let ghost head = cnf_models(out@);
    let mut i: usize = 0;
    proof {
        assert(head + split_chain(r@, g).take(0) =~= head);
    }
    while i < m - 1
        invariant
            i <= m - 1,
            m == r@.rhs.len(),
            m > 2,
            cnf_models(out@) == head + split_chain(r@, g).take(i as int),
        decreases m - 1 - i,
    {
        let mut rhs: Vec<Sym> = Vec::new();
        rhs.push(r.rhs[i]);
        if i == m - 2 {
            rhs.push(r.rhs[m - 1]);
        } else {
            rhs.push(Sym::N(Nt::Split(g, i + 1)));
        }
        let c = CnfRule {
            lhs: if i == 0 {
                r.lhs
            } else {
                Nt::Split(g, i)
            },
            rhs,
            weight: if i == 0 {
                r.weight
            } else {
                0
            },
            alias: if i == 0 {
                r.alias
            } else {
                None
            },
            skipped: Vec::new(),
        };
        proof {
            assert(c@.rhs =~= split_rule(r@, g, i as int).rhs);
            assert(c@.skipped =~= Seq::empty());
            assert(c@ == split_chain(r@, g)[i as int]);
            lemma_models_push(out@, c);
        }
        out.push(c);
        proof {
            assert(cnf_models(out@) =~= head + split_chain(r@, g).take(i + 1));
        }
        i = i + 1;
    }
    proof {
        assert(split_chain(r@, g).take(m - 1) =~= split_chain(r@, g));
    }
}

/// Splits every rule with more than two symbols into a chain of rules with two.
fn bin(rules: &Vec<CnfRule>) -> (r: Vec<CnfRule>)
    ensures
        cnf_models(r@) == with_splits(cnf_models(rules@)).0,
{
    let ghost models = cnf_models(rules@);
    let mut out: Vec<CnfRule> = Vec::new();
    let mut g: usize = 0;
    let mut i: usize = 0;
    proof {
        assert(models.take(0) =~= Seq::empty());
        assert(cnf_models(out@) =~= Seq::empty());
    }
    while i < rules.len()
        invariant
            i <= rules@.len(),
            models == cnf_models(rules@),
            g <= i,
            (cnf_models(out@), g as nat) == with_splits(models.take(i as int)),
        decreases rules.len() - i,
    {
        let r = &rules[i];
        proof {
            assert(models.take(i + 1).drop_last() =~= models.take(i as int));
            assert(models.take(i + 1).last() == r@);
        }
        if r.rhs.len() > 2 {
            split(r, g, &mut out);
            g = g + 1;
        } else {
            let c = r.copy();
            proof {
                lemma_models_push(out@, c);
            }
            out.push(c);
        }
        i = i + 1;
    }
    proof {
        assert(models.take(models.len() as int) =~= models);
    }
    out
}

// ---------------------------------------------------------------------------
// Duplicates

/// Whether two rules are alike but for weight and alias.
pub open spec fn alike(a: CnfModel, b: CnfModel) -> bool {
    a.lhs == b.lhs && a.rhs == b.rhs && a.skipped == b.skipped
}

/// Whether a rule is like one of the list.
pub open spec fn like_one(s: Seq<CnfModel>, r: CnfModel) -> bool {
    exists|i: int| 0 <= i < s.len() && alike(#[trigger] s[i], r)
}

/// The rules without those that are like an earlier one.
pub open spec fn deduped(rules: Seq<CnfModel>) -> Seq<CnfModel>
    decreases rules.len(),
{
    if rules.len() == 0 {
        Seq::empty()
    } else {
        let head = deduped(rules.drop_last());
        if like_one(head, rules.last()) {
            head
        } else {
            head.push(rules.last())
        }
    }
}

fn same_syms(a: &Vec<Sym>, b: &Vec<Sym>) -> (r: bool)
    ensures
        r == (a@ == b@),
{
    if a.len() != b.len() {
        return false;
    }
    let mut i: usize = 0;
    while i < a.len()
        invariant
            i <= a@.len(),
            a@.len() == b@.len(),
            forall|k: int| 0 <= k < i ==> #[trigger] a@[k] == b@[k],
        decreases a.len() - i,
    {
        if a[i] != b[i] {
            return false;
        }
        i = i + 1;
    }
    proof {
        assert(a@ =~= b@);
    }
    true
}

fn same_sizes(a: &Vec<usize>, b: &Vec<usize>) -> (r: bool)
    ensures
        r == (a@ == b@),
{
    if a.len() != b.len() {
        return false;
    }
    let mut i: usize = 0;
    while i < a.len()
        invariant
            i <= a@.len(),
            a@.len() == b@.len(),
            forall|k: int| 0 <= k < i ==> #[trigger] a@[k] == b@[k],
        decreases a.len() - i,
    {
        if a[i] != b[i] {
            return false;
        }
        i = i + 1;
    }
    proof {
        assert(a@ =~= b@);
    }
    true
}

fn same_rule(a: &CnfRule, b: &CnfRule) -> (r: bool)
    ensures
        r == alike(a@, b@),
{
    a.lhs == b.lhs && same_syms(&a.rhs, &b.rhs) && same_sizes(&a.skipped, &b.skipped)
}

fn find_like(s: &Vec<CnfRule>, r: &CnfRule) -> (b: bool)
    ensures
        b == like_one(cnf_models(s@), r@),
{
    let ghost models = cnf_models(s@);
    let mut i: usize = 0;
    while i < s.len()
        invariant
            i <= s@.len(),
            models == cnf_models(s@),
            forall|k: int| 0 <= k < i ==> !alike(#[trigger] models[k], r@),
        decreases s.len() - i,
    {
        if same_rule(&s[i], r) {
            proof {
                assert(alike(models[i as int], r@));
            }
            return true;
        }
        i = i + 1;
    }
    false
}

/// Drops the rules that are like an earlier one.
fn dedup(rules: Vec<CnfRule>) -> (r: Vec<CnfRule>)
    ensures
        cnf_models(r@) == deduped(cnf_models(rules@)),
{
    let ghost given = rules@;
    let ghost models = cnf_models(given);
    let mut out: Vec<CnfRule> = Vec::new();
    proof {
        assert(models.take(0) =~= Seq::empty());
        assert(cnf_models(out@) =~= Seq::empty());
    }
    for r in it: rules
        invariant
            it.seq() == given,
            models == cnf_models(given),
            cnf_models(out@) == deduped(models.take(it.index())),
    {
        proof {
            assert(models.take(it.index() + 1).drop_last() =~= models.take(it.index()));
            assert(models.take(it.index() + 1).last() == r@);
        }
        if !find_like(&out, &r) {
            proof {
                lemma_models_push(out@, r);
            }
            out.push(r);
        }
    }
    proof {
        assert(models.take(models.len() as int) =~= models);
    }
    out
}

// ---------------------------------------------------------------------------
// Unit rules

/// Whether a rule has a single nonterminal on the right.
pub open spec fn is_unit(r: CnfModel) -> bool {
    r.rhs.len() == 1 && r.rhs[0] is N
}

/// The position of the first unit rule from `from` on.
pub open spec fn first_unit(rules: Seq<CnfModel>, from: int) -> Option<int>
    decreases rules.len() - from,
{
    if from < 0 || from >= rules.len() {
        None
    } else if is_unit(rules[from]) {
        Some(from)
    } else {
        first_unit(rules, from + 1)
    }
}

/// A sum of weights, held within the range of a machine integer.
pub open spec fn sat_sum(a: i64, b: i64) -> i64 {
    if a + b > i64::MAX {
        i64::MAX
    } else if a + b < i64::MIN {
        i64::MIN
    } else {
        (a + b) as i64
    }
}

/// The rule that skips from a unit rule to a rule of the nonterminal that it
/// names.
pub open spec fn skip_rule(unit: CnfModel, target: CnfModel) -> CnfModel {
    CnfModel {
        lhs: unit.lhs,
        rhs: target.rhs,
        weight: sat_sum(unit.weight, target.weight),
        alias: unit.alias,
        skipped: match target.alias {
            Some(a) => unit.skipped.push(a) + target.skipped,
            None => unit.skipped + target.skipped,
        },
    }
}

/// The rules that are not like the unit rule.
pub open spec fn unlike(rules: Seq<CnfModel>, unit: CnfModel) -> Seq<CnfModel>
    decreases rules.len(),
{
    if rules.len() == 0 {
        Seq::empty()
    } else if alike(rules.last(), unit) {
        unlike(rules.drop_last(), unit)
    } else {
        unlike(rules.drop_last(), unit).push(rules.last())
    }
}

/// The rules that skip from the unit rule to each rule of the nonterminal that
/// it names.
pub open spec fn skips(rules: Seq<CnfModel>, unit: CnfModel) -> Seq<CnfModel>
    decreases rules.len(),
{
    if rules.len() == 0 {
        Seq::empty()
    } else if Sym::N(rules.last().lhs) == unit.rhs[0] {
        skips(rules.drop_last(), unit).push(skip_rule(unit, rules.last()))
    } else {
        skips(rules.drop_last(), unit)
    }
}

/// The rules once one unit rule is replaced.
pub open spec fn unit_replaced(rules: Seq<CnfModel>, p: int) -> Seq<CnfModel> {
    deduped(unlike(rules, rules[p]) + skips(rules, rules[p]))
}

/// The rules once no unit rule is left; none where that takes more than `fuel`
/// replacements.
pub open spec fn without_units(rules: Seq<CnfModel>, fuel: nat) -> Option<Seq<CnfModel>>
    decreases fuel,
{
    match first_unit(rules, 0) {
        None => Some(rules),
        Some(p) => if fuel == 0 {
            None
        } else {
            without_units(unit_replaced(rules, p), (fuel - 1) as nat)
        },
    }
}

fn find_unit(rules: &Vec<CnfRule>) -> (r: Option<usize>)
    ensures
        match r {
            Some(p) => p < rules@.len() && first_unit(cnf_models(rules@), 0) == Some(p as int)
                && is_unit(cnf_models(rules@)[p as int]),
            None => first_unit(cnf_models(rules@), 0) is None,
        },
{
    let ghost models = cnf_models(rules@);
    let mut i: usize = 0;
    while i < rules.len()
        invariant
            i <= rules@.len(),
            models == cnf_models(rules@),
            first_unit(models, 0) == first_unit(models, i as int),
        decreases rules.len() - i,
    {
        proof {
            assert(models[i as int] == rules@[i as int]@);
        }
        if rules[i].rhs.len() == 1 {
            if let Sym::N(_) = rules[i].rhs[0] {
                return Some(i);
            }
        }
        i = i + 1;
    }
    None
}

/// Adds weights within the range of a machine integer.
pub fn add_weights(a: i64, b: i64) -> (r: i64)
    ensures
        r == sat_sum(a, b),
{
    match a.checked_add(b) {
        Some(c) => c,
        None => {
            if a > 0 {
                i64::MAX
            } else {
                i64::MIN
            }
        },
    }
}

fn build_unit_skiprule(unit: &CnfRule, target: &CnfRule) -> (r: CnfRule)
    ensures
        r@ == skip_rule(unit@, target@),
{
    let mut skipped = copy_sizes(&unit.skipped);
    if let Some(a) = target.alias {
        skipped.push(a);
    }
    let mut rest = copy_sizes(&target.skipped);
    skipped.append(&mut rest);
    CnfRule {
        lhs: unit.lhs,
        rhs: copy_syms(&target.rhs),
        weight: add_weights(unit.weight, target.weight),
        alias: unit.alias,
        skipped,
    }
}

/// Replaces the unit rule at `pos` by rules that skip it.
fn remove_unit_rule(rules: &Vec<CnfRule>, pos: usize) -> (r: Vec<CnfRule>)
    requires
        pos < rules@.len(),
        is_unit(cnf_models(rules@)[pos as int]),
    ensures
        cnf_models(r@) == unlike(cnf_models(rules@), cnf_models(rules@)[pos as int]) + skips(
            cnf_models(rules@),
            cnf_models(rules@)[pos as int],
        ),
{
    let ghost models = cnf_models(rules@);
    let unit = rules[pos].copy();
    let target = unit.rhs[0];
    let mut out: Vec<CnfRule> = Vec::new();
    let mut i: usize = 0;
    proof {
        assert(unit@ == models[pos as int]);
        assert(models.take(0) =~= Seq::empty());
        assert(cnf_models(out@) =~= Seq::empty());
    }
    while i < rules.len()
        invariant
            i <= rules@.len(),
            models == cnf_models(rules@),
            cnf_models(out@) == unlike(models.take(i as int), unit@),
        decreases rules.len() - i,
    {
        proof {
            assert(models.take(i + 1).drop_last() =~= models.take(i as int));
            assert(models.take(i + 1).last() == rules@[i as int]@);
        }
        if !same_rule(&rules[i], &unit) {
            let c = rules[i].copy();
            proof {
                lemma_models_push(out@, c);
            }
            out.push(c);
        }
        i = i + 1;
    }
    proof {
        assert(models.take(models.len() as int) =~= models);
    }
    let ghost head = cnf_models(out@);
    i = 0;
    proof {
        assert(head + skips(models.take(0), unit@) =~= head);
    }
    while i < rules.len()
        invariant
            i <= rules@.len(),
            models == cnf_models(rules@),
            target == unit@.rhs[0],
            cnf_models(out@) == head + skips(models.take(i as int), unit@),
        decreases rules.len() - i,
    {
        proof {
            assert(models.take(i + 1).drop_last() =~= models.take(i as int));
            assert(models.take(i + 1).last() == rules@[i as int]@);
        }
        if Sym::N(rules[i].lhs) == target {
            let c = build_unit_skiprule(&unit, &rules[i]);
            proof {
                lemma_models_push(out@, c);
            }
            out.push(c);
        }
        i = i + 1;
        proof {
            assert(cnf_models(out@) =~= head + skips(models.take(i as int), unit@));
        }
    }
    out
}

/// How many replacements of unit rules a grammar may take.
pub open spec fn unit_fuel() -> nat {
    UNIT_ITERATION_LIMIT as nat
}

/// Replaces unit rules until none is left.
fn unit(rules: Vec<CnfRule>) -> (r: Result<Vec<CnfRule>, GrammarError>)
    ensures
        match r {
            Ok(out) => without_units(cnf_models(rules@), unit_fuel()) == Some(cnf_models(out@)),
            Err(GrammarError::Other { msg }) => without_units(cnf_models(rules@), unit_fuel())
                is None && msg@ == "CYK: grammar has a non-terminating unit-rule cycle"@,
            Err(_) => false,
        },
{
    let ghost models = cnf_models(rules@);
    let mut cur = rules;
    let mut left: usize = UNIT_ITERATION_LIMIT;
    loop
        invariant
            models == cnf_models(rules@),
            without_units(models, unit_fuel()) == without_units(
                cnf_models(cur@),
                left as nat,
            ),
        decreases left,
    {
        let found = find_unit(&cur);
        match found {
            None => {
                return Ok(cur);
            },
            Some(p) => {
                if left == 0 {
                    return Err(
                        GrammarError::Other {
                            msg: owned("CYK: grammar has a non-terminating unit-rule cycle"),
                        },
                    );
                }
                let next = remove_unit_rule(&cur, p);
                cur = dedup(next);
                left = left - 1;
            },
        }
    }
}

// ---------------------------------------------------------------------------
// The whole conversion

/// The rules that start symbols use.
pub open spec fn first_rules(
    rules: Seq<symbols::RuleModel>,
    nt: nat,
    starts: Seq<SymbolId>,
) -> Seq<CnfModel> {
    pruned(base_rules(rules, nt), starts, base_rules(rules, nt))
}

/// The rules without empty right sides, and the variants.
pub open spec fn nonempty_rules(
    rules: Seq<symbols::RuleModel>,
    nt: nat,
    starts: Seq<SymbolId>,
) -> (Seq<CnfModel>, Seq<EffModel>) {
    let first = first_rules(rules, nt, starts);
    without_empty(first, base_effs(rules), first)
}

/// The rules with at most two symbols on the right.
pub open spec fn binary_rules(
    rules: Seq<symbols::RuleModel>,
    nt: nat,
    starts: Seq<SymbolId>,
) -> Seq<CnfModel> {
    deduped(
        with_splits(deduped(with_stand_ins(nonempty_rules(rules, nt, starts).0, nt))).0,
    )
}

/// The rules without unit rules, if they can be had.
pub open spec fn unitless_rules(
    rules: Seq<symbols::RuleModel>,
    nt: nat,
    starts: Seq<SymbolId>,
) -> Option<Seq<CnfModel>> {
    without_units(binary_rules(rules, nt, starts), unit_fuel())
}

/// Whether a rule has one terminal or two nonterminals on the right.
pub open spec fn is_normal(r: CnfModel) -> bool {
    ||| r.rhs.len() == 1 && r.rhs[0] is T
    ||| r.rhs.len() == 2 && r.rhs[0] is N && r.rhs[1] is N
}

/// Whether a nonterminal with a node of its own derives the empty string.
pub open spec fn has_empty_node(
    first: Seq<CnfModel>,
    infos: Seq<symbols::SymbolInfo>,
) -> bool {
    exists|s: SymbolId|
        s.ix() < infos.len() && #[trigger] empties(first, s) && !infos[s.ix() as int].inline
}

/// Whether a rule has too many symbols that derive the empty string.
pub open spec fn has_too_many(first: Seq<CnfModel>) -> bool {
    exists|i: int| 0 <= i < first.len() && too_many(first, #[trigger] first[i])
}

/// Whether some rule is not in normal form.
pub open spec fn has_abnormal(rules: Seq<CnfModel>) -> bool {
    exists|i: int| 0 <= i < rules.len() && !is_normal(#[trigger] rules[i])
}

/// What is wrong with a grammar, if anything is.
pub open spec fn cnf_error(
    rules: Seq<symbols::RuleModel>,
    nt: nat,
    starts: Seq<SymbolId>,
    infos: Seq<symbols::SymbolInfo>,
) -> Option<Seq<char>> {
    let first = first_rules(rules, nt, starts);
    if has_empty_node(first, infos) {
        Some("CYK doesn't support empty rules"@)
    } else if has_too_many(first) {
        Some("CYK: too many nullable symbols in one rule"@)
    } else {
        match unitless_rules(rules, nt, starts) {
            None => Some("CYK: grammar has a non-terminating unit-rule cycle"@),
            Some(out) => if has_abnormal(out) {
                Some("CYK doesn't support empty rules"@)
            } else {
                None
            },
        }
    }
}

/// The flags of the symbols, below `n`, that derive the empty string.
pub open spec fn empty_flags(first: Seq<CnfModel>, n: nat) -> Seq<bool> {
    Seq::new(n, |i: int| empties(first, SymbolId(i as u32)))
}

/// A grammar in normal form.
pub struct Cnf {
    pub rules: Vec<CnfRule>,
    pub effs: Vec<EffRule>,
    /// What each nonterminal builds from nothing, if it can.
    pub empties: Vec<Option<Slot>>,
}

/// Whether the variants that rules name are among the first `n`, and every
/// rule of a nonterminal of the grammar names one.
pub open spec fn aliased(rules: Seq<CnfModel>, n: nat) -> bool {
    forall|r: int| 0 <= r < rules.len() ==> rule_aliased(#[trigger] rules[r], n)
}

/// Whether the variants that a rule names are among the first `n`.
pub open spec fn rule_aliased(r: CnfModel, n: nat) -> bool {
    &&& match r.alias {
        Some(a) => a < n,
        None => !(r.lhs is Orig),
    }
    &&& forall|k: int| 0 <= k < r.skipped.len() ==> #[trigger] r.skipped[k] < n
}

/// Whether each variant is one of a rule of the grammar.
pub open spec fn effs_ok(effs: Seq<EffModel>, rules: Seq<symbols::RuleModel>) -> bool {
    forall|e: int|
        0 <= e < effs.len() ==> (#[trigger] effs[e]).rule_idx < rules.len()
            && effs[e].present.len() == rules[effs[e].rule_idx as int].expansion.len()
}

/// Whether a rule is the variant of a grammar rule that it names.
pub open spec fn stands_for(
    r: CnfModel,
    effs: Seq<EffModel>,
    rules: Seq<symbols::RuleModel>,
    nt: nat,
) -> bool {
    &&& r.alias is Some
    &&& r.alias->0 < effs.len()
    &&& r.skipped.len() == 0
    &&& {
        let e = effs[r.alias->0 as int];
        &&& e.rule_idx < rules.len()
        &&& !rules[e.rule_idx as int].is_start
        &&& r.lhs == Nt::Orig(rules[e.rule_idx as int].origin)
        &&& r.weight == rules[e.rule_idx as int].priority
        &&& e.present.len() == rules[e.rule_idx as int].expansion.len()
        &&& r.rhs == kept(syms_of(nt, rules[e.rule_idx as int].expansion), e.present)
    }
}

/// Whether every rule is the variant of a grammar rule that it names.
pub open spec fn all_stand_for(
    some: Seq<CnfModel>,
    effs: Seq<EffModel>,
    rules: Seq<symbols::RuleModel>,
    nt: nat,
) -> bool {
    forall|i: int| 0 <= i < some.len() ==> stands_for(#[trigger] some[i], effs, rules, nt)
}

/// A mask that keeps everything changes nothing.
pub proof fn lemma_kept_all(xs: Seq<Sym>, mask: Seq<bool>)
    requires
        xs.len() == mask.len(),
        forall|i: int| 0 <= i < mask.len() ==> #[trigger] mask[i],
    ensures
        kept(xs, mask) == xs,
    decreases xs.len(),
{
    if xs.len() > 0 {
        assert forall|i: int| 0 <= i < mask.drop_first().len() implies
            #[trigger] mask.drop_first()[i] by {
            assert(mask[i + 1]);
        }
        assert(mask[0]);
        lemma_kept_all(xs.drop_first(), mask.drop_first());
        assert(kept(xs, mask) =~= xs);
    } else {
        assert(kept(xs, mask) =~= xs);
    }
}

/// The rules to begin with are those of the grammar.
pub proof fn lemma_base(rules: Seq<symbols::RuleModel>, nt: nat)
    requires
        rules.len() <= usize::MAX,
    ensures
        all_stand_for(base_rules(rules, nt), base_effs(rules), rules, nt),
        effs_ok(base_effs(rules), rules),
        base_effs(rules).len() == base_rules(rules, nt).len(),
        base_effs(rules).len() <= rules.len(),
        forall|i: int|
            0 <= i < base_rules(rules, nt).len() ==> (#[trigger] base_rules(rules, nt)[i]).rhs
                == syms_of(
                nt,
                rules[grammar_rule(base_effs(rules), base_rules(rules, nt)[i]) as int].expansion,
            ),
    decreases rules.len(),
{
    if rules.len() > 0 {
        let front = rules.drop_last();
        lemma_base(front, nt);
        let r = rules.last();
        let e0 = base_effs(front);
        let b0 = base_rules(front, nt);
        let e1 = base_effs(rules);
        let b1 = base_rules(rules, nt);
        assert forall|i: int| 0 <= i < b1.len() implies stands_for(
            #[trigger] b1[i],
            e1,
            rules,
            nt,
        ) && b1[i].rhs == syms_of(nt, rules[grammar_rule(e1, b1[i]) as int].expansion) by {
            if i < b0.len() {
                assert(stands_for(b0[i], e0, front, nt));
                let a = b0[i].alias->0 as int;
                assert(e1[a] == e0[a]);
                assert(front[e0[a].rule_idx as int] == rules[e0[a].rule_idx as int]);
                assert(b0[i].rhs == syms_of(
                    nt,
                    front[grammar_rule(e0, b0[i]) as int].expansion,
                ));
            } else {
                let mask = Seq::new(r.expansion.len(), |k: int| true);
                lemma_kept_all(syms_of(nt, r.expansion), mask);
                assert(e1[e0.len() as int].present == mask);
                assert(rules[rules.len() - 1] == r);
            }
        }
        assert forall|e: int| 0 <= e < e1.len() implies (#[trigger] e1[e]).rule_idx < rules.len()
            && e1[e].present.len() == rules[e1[e].rule_idx as int].expansion.len() by {
            if e < e0.len() {
                assert(e1[e] == e0[e]);
                assert(front[e0[e].rule_idx as int] == rules[e0[e].rule_idx as int]);
            }
        }
    }
}

/// Pruning keeps rules that are used.
pub proof fn lemma_pruned_part(
    rules: Seq<CnfModel>,
    starts: Seq<SymbolId>,
    some: Seq<CnfModel>,
    i: int,
)
    requires
        0 <= i < pruned(rules, starts, some).len(),
    ensures
        some.contains(pruned(rules, starts, some)[i]),
        rule_used(rules, starts, pruned(rules, starts, some)[i]),
    decreases some.len(),
{
    if some.len() > 0 {
        let head = pruned(rules, starts, some.drop_last());
        if i < head.len() {
            lemma_pruned_part(rules, starts, some.drop_last(), i);
            let k = choose|k: int| 0 <= k < some.drop_last().len() && some.drop_last()[k] == head[i];
            assert(some[k] == head[i]);
            assert(pruned(rules, starts, some)[i] == head[i]);
        } else {
            assert(some[some.len() - 1] == some.last());
        }
    }
}

/// Dropping duplicates adds no rule.
pub proof fn lemma_deduped_part(rules: Seq<CnfModel>, i: int)
    requires
        0 <= i < deduped(rules).len(),
    ensures
        rules.contains(deduped(rules)[i]),
    decreases rules.len(),
{
    if rules.len() > 0 {
        let head = deduped(rules.drop_last());
        if i < head.len() {
            lemma_deduped_part(rules.drop_last(), i);
            let k = choose|k: int|
                0 <= k < rules.drop_last().len() && rules.drop_last()[k] == head[i];
            assert(rules[k] == head[i]);
            assert(deduped(rules)[i] == head[i]);
        } else {
            assert(rules[rules.len() - 1] == rules.last());
        }
    }
}

/// What is unlike a unit rule is a rule of before.
pub proof fn lemma_unlike_part(rules: Seq<CnfModel>, unit: CnfModel, i: int)
    requires
        0 <= i < unlike(rules, unit).len(),
    ensures
        rules.contains(unlike(rules, unit)[i]),
        !alike(unlike(rules, unit)[i], unit),
    decreases rules.len(),
{
    if rules.len() > 0 {
        let head = unlike(rules.drop_last(), unit);
        if i < head.len() {
            lemma_unlike_part(rules.drop_last(), unit, i);
            let k = choose|k: int|
                0 <= k < rules.drop_last().len() && rules.drop_last()[k] == head[i];
            assert(rules[k] == head[i]);
            assert(unlike(rules, unit)[i] == head[i]);
        } else {
            assert(rules[rules.len() - 1] == rules.last());
        }
    }
}

/// A skipping rule leads to a rule of before.
pub proof fn lemma_skips_part(rules: Seq<CnfModel>, unit: CnfModel, i: int) -> (k: int)
    requires
        0 <= i < skips(rules, unit).len(),
    ensures
        0 <= k < rules.len(),
        Sym::N(rules[k].lhs) == unit.rhs[0],
        skips(rules, unit)[i] == skip_rule(unit, rules[k]),
    decreases rules.len(),
{
    let head = skips(rules.drop_last(), unit);
    if i < head.len() {
        let k = lemma_skips_part(rules.drop_last(), unit, i);
        assert(rules[k] == rules.drop_last()[k]);
        assert(skips(rules, unit)[i] == head[i]);
        k
    } else {
        rules.len() - 1
    }
}

proof fn lemma_deduped_aliased(rules: Seq<CnfModel>, n: nat)
    requires
        aliased(rules, n),
    ensures
        aliased(deduped(rules), n),
{
    assert forall|i: int| 0 <= i < deduped(rules).len() implies rule_aliased(
        #[trigger] deduped(rules)[i],
        n,
    ) by {
        lemma_deduped_part(rules, i);
        let k = choose|k: int| 0 <= k < rules.len() && rules[k] == deduped(rules)[i];
        assert(rule_aliased(rules[k], n));
    }
}

/// Every mask is that of a variant that keeps something.
pub proof fn lemma_masks_len(rhs: Seq<Sym>, flags: Seq<bool>, n: nat, i: int)
    requires
        0 <= i < masks(rhs, flags, n).len(),
    ensures
        exists|k: nat| k < n && masks(rhs, flags, n)[i] == #[trigger] mask_of(flags, k),
        masks(rhs, flags, n)[i].len() == flags.len(),
        kept(rhs, masks(rhs, flags, n)[i]).len() > 0,
    decreases n,
{
    let head = masks(rhs, flags, (n - 1) as nat);
    if i < head.len() {
        lemma_masks_len(rhs, flags, (n - 1) as nat, i);
        assert(masks(rhs, flags, n)[i] == head[i]);
        let k = choose|k: nat| k < n - 1 && head[i] == #[trigger] mask_of(flags, k);
        assert(k < n && masks(rhs, flags, n)[i] == mask_of(flags, k));
    } else {
        lemma_mask_len(flags, (n - 1) as nat);
        assert(masks(rhs, flags, n)[i] == mask_of(flags, (n - 1) as nat));
    }
}

/// Leaving out empty symbols keeps every rule a variant of a grammar rule.
pub(crate) proof fn lemma_without_empty(
    all: Seq<CnfModel>,
    effs: Seq<EffModel>,
    some: Seq<CnfModel>,
    rules: Seq<symbols::RuleModel>,
    nt: nat,
)
    requires
        all_stand_for(some, effs, rules, nt),
        forall|i: int|
            0 <= i < some.len() ==> (#[trigger] some[i]).rhs == syms_of(
                nt,
                rules[grammar_rule(effs, some[i]) as int].expansion,
            ),
        effs_ok(effs, rules),
        without_empty(all, effs, some).1.len() <= usize::MAX,
    ensures
        all_stand_for(
            without_empty(all, effs, some).0,
            without_empty(all, effs, some).1,
            rules,
            nt,
        ),
        effs_ok(without_empty(all, effs, some).1, rules),
        without_empty(all, effs, some).1.len() >= effs.len(),
        without_empty(all, effs, some).1.take(effs.len() as int) == effs,
    decreases some.len(),
{
    if some.len() == 0 {
        assert(effs.take(effs.len() as int) =~= effs);
    } else {
        let front = some.drop_last();
        let (o0, e0) = without_empty(all, effs, front);
        let (o1, e1) = without_empty(all, effs, some);
        let r = some.last();
        let flags = null_flags(all, r.rhs);
        let m = count_on(flags);
        assert(e0.len() <= e1.len());
        assert forall|i: int| 0 <= i < front.len() implies stands_for(
            #[trigger] front[i],
            effs,
            rules,
            nt,
        ) && front[i].rhs == syms_of(
            nt,
            rules[grammar_rule(effs, front[i]) as int].expansion,
        ) by {
            assert(stands_for(some[i], effs, rules, nt));
        }
        lemma_without_empty(all, effs, front, rules, nt);
        assert(stands_for(some[some.len() - 1], effs, rules, nt));
        assert(some[some.len() - 1].rhs == syms_of(
            nt,
            rules[grammar_rule(effs, some[some.len() - 1]) as int].expansion,
        ));
        assert forall|e: int| 0 <= e < e0.len() implies #[trigger] e1[e] == e0[e] by {}
        assert forall|e: int| 0 <= e < effs.len() implies #[trigger] e0[e] == effs[e] by {
            assert(e0.take(effs.len() as int)[e] == effs[e]);
        }
        assert(e1.take(effs.len() as int) =~= effs);
        let ms = masks(r.rhs, flags, two_to(m));
        let idx = grammar_rule(effs, r);
        assert forall|i: int| 0 <= i < o1.len() implies stands_for(
            #[trigger] o1[i],
            e1,
            rules,
            nt,
        ) by {
            if i < o0.len() {
                assert(stands_for(o0[i], e0, rules, nt));
                assert(o1[i] == o0[i]);
                let a = o0[i].alias->0 as int;
                assert(e1[a] == e0[a]);
            } else if m == 0 {
                assert(o1[i] == r);
                let a = r.alias->0 as int;
                assert(e1[a] == effs[a]);
            } else {
                let k = i - o0.len();
                lemma_masks_len(r.rhs, flags, two_to(m), k);
                assert(o1[i] == variant_rules(r, ms, e0.len())[k]);
                assert(e1[e0.len() + k] == variant_effs(idx, ms)[k]);
                assert(o1[i].alias == Some((e0.len() + k) as usize));
            }
        }
        assert forall|e: int| 0 <= e < e1.len() implies (#[trigger] e1[e]).rule_idx < rules.len()
            && e1[e].present.len() == rules[e1[e].rule_idx as int].expansion.len() by {
            if e < e0.len() {
                assert(e1[e] == e0[e]);
            } else {
                let k = e - e0.len();
                lemma_masks_len(r.rhs, flags, two_to(m), k);
                assert(e1[e] == variant_effs(idx, ms)[k]);
            }
        }
    }
}

proof fn lemma_stand_ins_aliased(rules: Seq<CnfModel>, nt: nat, n: nat)
    requires
        aliased(rules, n),
    ensures
        aliased(with_stand_ins(rules, nt), n),
{
    lemma_stand_ins_part(rules, nt);
    assert forall|i: int| 0 <= i < with_stand_ins(rules, nt).len() implies rule_aliased(
        #[trigger] with_stand_ins(rules, nt)[i],
        n,
    ) by {
        if i < rules.len() {
            assert(with_stand_ins(rules, nt)[i] == lifted(rules[i]));
            assert(rule_aliased(rules[i], n));
        } else {
            assert(with_stand_ins(rules, nt)[i] == stand_ins(rules, nt)[i - rules.len()]);
        }
    }
}

/// Every stand-in stands for its terminal.
pub proof fn lemma_stand_ins_part(rules: Seq<CnfModel>, nt: nat)
    ensures
        forall|i: int|
            0 <= i < stand_ins(rules, nt).len() ==> {
                &&& (#[trigger] stand_ins(rules, nt)[i]).lhs is Term
                &&& stand_ins(rules, nt)[i] == stand_in(stand_ins(rules, nt)[i].lhs->Term_0)
            },
    decreases nt,
{
    if nt > 0 {
        lemma_stand_ins_part(rules, (nt - 1) as nat);
    }
}

proof fn lemma_splits_aliased(rules: Seq<CnfModel>, n: nat)
    requires
        aliased(rules, n),
    ensures
        aliased(with_splits(rules).0, n),
    decreases rules.len(),
{
    if rules.len() > 0 {
        let front = rules.drop_last();
        assert forall|i: int| 0 <= i < front.len() implies rule_aliased(#[trigger] front[i], n) by {
            assert(rule_aliased(rules[i], n));
        }
        lemma_splits_aliased(front, n);
        let (out, g) = with_splits(front);
        let r = rules.last();
        assert(rule_aliased(rules[rules.len() - 1], n));
        let all = with_splits(rules).0;
        assert forall|i: int| 0 <= i < all.len() implies rule_aliased(#[trigger] all[i], n) by {
            if i < out.len() {
                assert(all[i] == out[i]);
                assert(rule_aliased(out[i], n));
            } else if r.rhs.len() > 2 {
                assert(all[i] == split_rule(r, g as usize, i - out.len()));
            } else {
                assert(all[i] == r);
            }
        }
    }
}

/// Where the first unit rule stands.
pub proof fn lemma_first_unit(rules: Seq<CnfModel>, from: int)
    requires
        0 <= from,
    ensures
        match first_unit(rules, from) {
            Some(p) => from <= p < rules.len() && is_unit(rules[p]),
            None => forall|i: int| from <= i < rules.len() ==> !is_unit(#[trigger] rules[i]),
        },
    decreases rules.len() - from,
{
    if from < rules.len() && !is_unit(rules[from]) {
        lemma_first_unit(rules, from + 1);
    }
}

proof fn lemma_replaced_aliased(rules: Seq<CnfModel>, p: int, n: nat)
    requires
        aliased(rules, n),
        0 <= p < rules.len(),
    ensures
        aliased(unit_replaced(rules, p), n),
{
    let unit = rules[p];
    let a = unlike(rules, unit);
    let b = skips(rules, unit);
    assert(rule_aliased(rules[p], n));
    assert forall|i: int| 0 <= i < (a + b).len() implies rule_aliased(#[trigger] (a + b)[i], n) by {
        if i < a.len() {
            lemma_unlike_part(rules, unit, i);
            let k = choose|k: int| 0 <= k < rules.len() && rules[k] == a[i];
            assert(rule_aliased(rules[k], n));
        } else {
            let k = lemma_skips_part(rules, unit, i - a.len());
            assert(rule_aliased(rules[k], n));
            let s = (a + b)[i];
            let t = rules[k];
            assert(s == skip_rule(unit, t));
            assert forall|q: int| 0 <= q < s.skipped.len() implies #[trigger] s.skipped[q] < n by {
                let u = unit.skipped.len();
                if q < u {
                    assert(unit.skipped[q] < n);
                    assert(s.skipped[q] == unit.skipped[q]);
                } else {
                    match t.alias {
                        Some(x) => {
                            if q == u {
                                assert(s.skipped[q] == x);
                            } else {
                                assert(s.skipped[q] == t.skipped[q - u - 1]);
                                assert(t.skipped[q - u - 1] < n);
                            }
                        },
                        None => {
                            assert(s.skipped[q] == t.skipped[q - u]);
                            assert(t.skipped[q - u] < n);
                        },
                    }
                }
            }
        }
    }
    lemma_deduped_aliased(a + b, n);
}

proof fn lemma_unitless_aliased(rules: Seq<CnfModel>, fuel: nat, n: nat)
    requires
        aliased(rules, n),
    ensures
        match without_units(rules, fuel) {
            Some(out) => aliased(out, n),
            None => true,
        },
    decreases fuel,
{
    lemma_first_unit(rules, 0);
    match first_unit(rules, 0) {
        None => {},
        Some(p) => {
            if fuel > 0 {
                lemma_replaced_aliased(rules, p, n);
                lemma_unitless_aliased(unit_replaced(rules, p), (fuel - 1) as nat, n);
            }
        },
    }
}

proof fn lemma_stand_for_aliased(
    some: Seq<CnfModel>,
    effs: Seq<EffModel>,
    rules: Seq<symbols::RuleModel>,
    nt: nat,
)
    requires
        all_stand_for(some, effs, rules, nt),
    ensures
        aliased(some, effs.len()),
{
    assert forall|i: int| 0 <= i < some.len() implies rule_aliased(
        #[trigger] some[i],
        effs.len(),
    ) by {
        assert(stands_for(some[i], effs, rules, nt));
    }
}

/// What holds of the rules that start symbols use.
pub proof fn lemma_first(
    rules: Seq<symbols::RuleModel>,
    nt: nat,
    starts: Seq<SymbolId>,
    n: nat,
)
    requires
        symbols::grammar_wf(rules, n, nt, starts),
        rules.len() <= usize::MAX,
    ensures
        ids_below(base_rules(rules, nt), n),
        ids_below(first_rules(rules, nt, starts), n),
        original(first_rules(rules, nt, starts)),
        all_stand_for(first_rules(rules, nt, starts), base_effs(rules), rules, nt),
        effs_ok(base_effs(rules), rules),
        forall|i: int|
            0 <= i < first_rules(rules, nt, starts).len() ==> (#[trigger] first_rules(
                rules,
                nt,
                starts,
            )[i]).rhs == syms_of(
                nt,
                rules[grammar_rule(
                    base_effs(rules),
                    first_rules(rules, nt, starts)[i],
                ) as int].expansion,
            ),
{
    let b = base_rules(rules, nt);
    let f = first_rules(rules, nt, starts);
    let effs = base_effs(rules);
    lemma_base(rules, nt);
    assert forall|r: int, j: int| 0 <= r < b.len() && 0 <= j < b[r].rhs.len() implies (
    match #[trigger] b[r].rhs[j] {
        Sym::T(_) => true,
        Sym::N(x) => x is Orig && x->Orig_0.ix() < n,
    }) by {
        assert(stands_for(b[r], effs, rules, nt));
        let g = grammar_rule(effs, b[r]) as int;
        assert(b[r].rhs == syms_of(nt, rules[g].expansion));
        assert(rules[g].expansion[j].ix() < n);
    }
    assert forall|r: int| 0 <= r < b.len() implies (#[trigger] b[r]).lhs is Orig
        && b[r].lhs->Orig_0.ix() < n by {
        assert(stands_for(b[r], effs, rules, nt));
        let g = grammar_rule(effs, b[r]) as int;
        assert(rules[g].origin.ix() < n);
    }
    assert forall|i: int| 0 <= i < f.len() implies b.contains(#[trigger] f[i]) by {
        lemma_pruned_part(b, starts, b, i);
    }
    assert forall|r: int| 0 <= r < f.len() implies (#[trigger] f[r]).lhs is Orig
        && f[r].lhs->Orig_0.ix() < n && stands_for(f[r], effs, rules, nt) && f[r].rhs == syms_of(
        nt,
        rules[grammar_rule(effs, f[r]) as int].expansion,
    ) by {
        assert(b.contains(f[r]));
        let k = choose|k: int| 0 <= k < b.len() && b[k] == f[r];
        assert(stands_for(b[k], effs, rules, nt));
        assert(b[k].lhs is Orig);
    }
    assert forall|r: int, j: int| 0 <= r < f.len() && 0 <= j < f[r].rhs.len() implies (
    match #[trigger] f[r].rhs[j] {
        Sym::T(_) => true,
        Sym::N(x) => x is Orig && x->Orig_0.ix() < n,
    }) by {
        assert(b.contains(f[r]));
        let k = choose|k: int| 0 <= k < b.len() && b[k] == f[r];
        assert(b[k].rhs[j] == f[r].rhs[j]);
    }
}

fn is_normal_rule(r: &CnfRule) -> (b: bool)
    ensures
        b == is_normal(r@),
{
    if r.rhs.len() == 1 {
        match r.rhs[0] {
            Sym::T(_) => true,
            Sym::N(_) => false,
        }
    } else if r.rhs.len() == 2 {
        match (r.rhs[0], r.rhs[1]) {
            (Sym::N(_), Sym::N(_)) => true,
            _ => false,
        }
    } else {
        false
    }
}

/// The exact outcome of the conversion.
pub open spec fn is_cnf_of(
    cnf: Cnf,
    rules: Seq<symbols::RuleModel>,
    nt: nat,
    starts: Seq<SymbolId>,
    n: nat,
) -> bool {
    &&& unitless_rules(rules, nt, starts) == Some(cnf_models(cnf.rules@))
    &&& eff_models(cnf.effs@) == nonempty_rules(rules, nt, starts).1
    &&& empty_values::memo_models(cnf.empties@) == empty_values::values_below(
        rules,
        nt,
        empty_flags(first_rules(rules, nt, starts), n),
        n,
    )
    &&& aliased(cnf_models(cnf.rules@), cnf.effs@.len())
    &&& effs_ok(eff_models(cnf.effs@), rules)
    &&& forall|r: int| 0 <= r < cnf.rules@.len() ==> is_normal(#[trigger] cnf.rules@[r]@)
}

/// Converts a grammar to normal form.
#[verifier::rlimit(40)]
pub fn to_cnf(grammar: &CompiledGrammar) -> (r: Result<Cnf, GrammarError>)
    requires
        grammar.wf(),
    ensures
        match r {
            Ok(cnf) => {
                &&& cnf_error(
                    grammar.models(),
                    grammar.terminal_count as nat,
                    grammar.start@,
                    grammar.symbols@,
                ) is None
                &&& is_cnf_of(
                    cnf,
                    grammar.models(),
                    grammar.terminal_count as nat,
                    grammar.start@,
                    grammar.symbols@.len(),
                )
            },
            Err(GrammarError::Other { msg }) => cnf_error(
                grammar.models(),
                grammar.terminal_count as nat,
                grammar.start@,
                grammar.symbols@,
            ) == Some(msg@),
            Err(_) => false,
        },
{
    let ghost models = grammar.models();
    let ghost nt = grammar.terminal_count as nat;
    let ghost starts = grammar.start@;
    let ghost infos = grammar.symbols@;
    let n: usize = grammar.symbols.len();
    let n_rules: usize = grammar.rules.len();
    proof {
        assert(models.len() == n_rules);
        lemma_first(models, nt, starts, n as nat);
    }
    let (rules, effs) = base(grammar);
    let rules = prune_unreachable(&rules, &grammar.start, n);
    let ghost first = first_rules(models, nt, starts);
    let nullable = compute_nullable(&rules, n);
    proof {
        assert(nullable@ =~= empty_flags(first, n as nat)) by {
            assert forall|i: int| 0 <= i < n implies nullable@[i] == #[trigger] empty_flags(
                first,
                n as nat,
            )[i] by {
                let s = SymbolId(i as u32);
                assert(s.ix() == i);
                assert(nullable@[s.ix() as int] == empties(first, s));
            }
        }
    }
    let mut i: usize = 0;
    while i < n
        invariant
            i <= n,
            n == infos.len(),
            infos == grammar.symbols@,
            infos.len() <= u32::MAX,
            nullable@ == empty_flags(first, n as nat),
            first == first_rules(models, nt, starts),
            models == grammar.models(),
            nt == grammar.terminal_count,
            starts == grammar.start@,
            forall|s: SymbolId| s.ix() < i && #[trigger] empties(first, s) ==> infos[s.ix() as int].inline,
        decreases n - i,
    {
        let ghost sym = SymbolId(i as u32);
        proof {
            assert(nullable@[i as int] == empties(first, sym));
        }
        if nullable[i] && !grammar.symbols.infos[i].inline {
            proof {
                assert(sym.ix() == i);
                assert(empties(first, sym) && !infos[sym.ix() as int].inline);
                assert(has_empty_node(first, infos));
            }
            return Err(GrammarError::Other { msg: owned("CYK doesn't support empty rules") });
        }
        proof {
            assert forall|s: SymbolId| s.ix() < i + 1 && #[trigger] empties(first, s) implies
                infos[s.ix() as int].inline by {
                if s.ix() == i {
                    assert(s == sym);
                }
            }
        }
        i = i + 1;
    }
    proof {
        assert(!has_empty_node(first, infos));
    }
    let empties = compute_epsilon_values(grammar, &nullable);
    proof {
        assert forall|i: int| 0 <= i < rules@.len() implies (#[trigger] rules@[i]).alias is Some
            && rules@[i].alias->0 < effs@.len() by {
            assert(first[i] == rules@[i]@);
            assert(stands_for(first[i], base_effs(models), models, nt));
        }
        assert forall|s: SymbolId| s.ix() < n implies #[trigger] nullable@[s.ix() as int]
            == cnf::empties(cnf_models(rules@), s) by {
            assert(s == SymbolId(s.ix() as u32));
        }
    }
    let ghost all = cnf_models(rules@);
    let eliminated = eliminate_epsilon(&rules, &nullable, effs);
    match eliminated {
        Err(e) => Err(e),
        Ok((out, effs)) => {
            let n_effs: usize = effs.len();
            proof {
                assert(eff_models(effs@).len() == n_effs);
                lemma_without_empty(all, base_effs(models), all, models, nt);
                lemma_stand_for_aliased(cnf_models(out@), eff_models(effs@), models, nt);
                lemma_stand_ins_aliased(cnf_models(out@), nt, n_effs as nat);
                lemma_deduped_aliased(with_stand_ins(cnf_models(out@), nt), n_effs as nat);
                let d = deduped(with_stand_ins(cnf_models(out@), nt));
                lemma_splits_aliased(d, n_effs as nat);
                lemma_deduped_aliased(with_splits(d).0, n_effs as nat);
                lemma_unitless_aliased(deduped(with_splits(d).0), unit_fuel(), n_effs as nat);
            }
            let lifted_rules = dedup(term(&out, grammar.terminal_count));
            let split_rules = dedup(bin(&lifted_rules));
            let unitless = unit(split_rules);
            match unitless {
                Err(e) => Err(e),
                Ok(rules) => {
                    let mut k: usize = 0;
                    while k < rules.len()
                        invariant
                            k <= rules@.len(),
                            forall|r: int| 0 <= r < k ==> is_normal(#[trigger] rules@[r]@),
                            infos == grammar.symbols@,
                            first == first_rules(models, nt, starts),
                            models == grammar.models(),
                            nt == grammar.terminal_count,
                            starts == grammar.start@,
                            !has_empty_node(first, infos),
                            !has_too_many(first),
                            unitless_rules(models, nt, starts) == Some(cnf_models(rules@)),
                        decreases rules.len() - k,
                    {
                        if !is_normal_rule(&rules[k]) {
                            proof {
                                let out = cnf_models(rules@);
                                assert(0 <= k < out.len() && !is_normal(out[k as int]));
                                assert(has_abnormal(out));
                            }
                            return Err(
                                GrammarError::Other {
                                    msg: owned("CYK doesn't support empty rules"),
                                },
                            );
                        }
                        k = k + 1;
                    }
                    Ok(Cnf { rules, effs, empties })
                },
            }
        },
    }
}

} // verus!
