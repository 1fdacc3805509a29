//! What a tree means: a derivation of the tokens has a value, which the rules
//! shape from the values of its parts.

use vstd::prelude::*;
use crate::cyk;
use crate::analysis;
use crate::symbols;
use crate::symbols::SymbolId;
use crate::tree;
use crate::tree_builder;

verus! {

/// Whether rule `r` makes the value `v` of the symbol `s` out of the values `vs`
/// of its expansion.
pub open spec fn is_shaped(
    rules: Seq<symbols::RuleModel>,
    pp: bool,
    r: int,
    s: SymbolId,
    vs: Seq<tree_builder::SlotModel>,
    v: tree_builder::SlotModel,
) -> bool {
    &&& 0 <= r < rules.len()
    &&& rules[r].origin == s
    &&& v == tree_builder::assembled(rules[r], pp, vs)
}

/// Whether `s` derives the tokens by a derivation of height `d` at most that has
/// the value `v`.
pub open spec fn yields_in(
    rules: Seq<symbols::RuleModel>,
    nt: nat,
    pp: bool,
    s: SymbolId,
    toks: Seq<tree::TokenModel>,
    v: tree_builder::SlotModel,
    d: nat,
) -> bool
    decreases d, 0nat,
{
    if s.ix() < nt {
        &&& toks.len() == 1
        &&& toks[0].type_id == s
        &&& v == tree_builder::SlotModel::Value(tree::Node::Token(toks[0]))
    } else {
        d > 0 && exists|r: int, vs: Seq<tree_builder::SlotModel>| #[trigger]
            is_shaped(rules, pp, r, s, vs, v) && yields_seq_in(
                rules,
                nt,
                pp,
                rules[r].expansion,
                toks,
                vs,
                (d - 1) as nat,
            )
    }
}

/// Whether the symbols `syms`, one after the other, derive the tokens by
/// derivations of height `d` at most that have the values `vs`.
pub open spec fn yields_seq_in(
    rules: Seq<symbols::RuleModel>,
    nt: nat,
    pp: bool,
    syms: Seq<SymbolId>,
    toks: Seq<tree::TokenModel>,
    vs: Seq<tree_builder::SlotModel>,
    d: nat,
) -> bool
    decreases d, syms.len(),
{
    if syms.len() == 0 {
        toks.len() == 0 && vs.len() == 0
    } else {
        vs.len() > 0 && exists|k: int|
            0 <= k <= toks.len() && yields_in(
                rules,
                nt,
                pp,
                syms.last(),
                #[trigger] toks.skip(k),
                vs.last(),
                d,
            ) && yields_seq_in(
                rules,
                nt,
                pp,
                syms.drop_last(),
                toks.take(k),
                vs.drop_last(),
                d,
            )
    }
}

/// Whether `s` derives the tokens by a derivation that has the value `v`.
pub open spec fn yields(
    rules: Seq<symbols::RuleModel>,
    nt: nat,
    pp: bool,
    s: SymbolId,
    toks: Seq<tree::TokenModel>,
    v: tree_builder::SlotModel,
) -> bool {
    exists|d: nat| #[trigger] yields_in(rules, nt, pp, s, toks, v, d)
}

/// Whether the symbols `syms` derive the tokens by derivations that have the
/// values `vs`.
pub open spec fn yields_all(
    rules: Seq<symbols::RuleModel>,
    nt: nat,
    pp: bool,
    syms: Seq<SymbolId>,
    toks: Seq<tree::TokenModel>,
    vs: Seq<tree_builder::SlotModel>,
) -> bool {
    exists|d: nat| #[trigger] yields_seq_in(rules, nt, pp, syms, toks, vs, d)
}

/// Whether all derivations of the tokens by `s` have the same value.
pub open spec fn is_unambiguous(
    rules: Seq<symbols::RuleModel>,
    nt: nat,
    pp: bool,
    s: SymbolId,
    toks: Seq<tree::TokenModel>,
) -> bool {
    forall|v: tree_builder::SlotModel, u: tree_builder::SlotModel| #[trigger]
        yields(rules, nt, pp, s, toks, v) && #[trigger] yields(rules, nt, pp, s, toks, u) ==> v
            == u
}

/// Whether no rule of a symbol is transparent.
pub open spec fn is_solid(rules: Seq<symbols::RuleModel>, s: SymbolId) -> bool {
    forall|r: int|
        0 <= r < rules.len() && (#[trigger] rules[r]).origin == s ==> !rules[r].transparent
}

proof fn lemma_yields_mono(
    rules: Seq<symbols::RuleModel>,
    nt: nat,
    pp: bool,
    s: SymbolId,
    toks: Seq<tree::TokenModel>,
    v: tree_builder::SlotModel,
    d: nat,
    e: nat,
)
    requires
        yields_in(rules, nt, pp, s, toks, v, d),
        d <= e,
    ensures
        yields_in(rules, nt, pp, s, toks, v, e),
    decreases d, 0nat,
{
    if s.ix() >= nt {
        let (r, vs) = choose|r: int, vs: Seq<tree_builder::SlotModel>| #[trigger]
            is_shaped(rules, pp, r, s, vs, v) && yields_seq_in(
                rules,
                nt,
                pp,
                rules[r].expansion,
                toks,
                vs,
                (d - 1) as nat,
            );
        lemma_yields_seq_mono(
            rules,
            nt,
            pp,
            rules[r].expansion,
            toks,
            vs,
            (d - 1) as nat,
            (e - 1) as nat,
        );
        assert(is_shaped(rules, pp, r, s, vs, v));
    }
}

proof fn lemma_yields_seq_mono(
    rules: Seq<symbols::RuleModel>,
    nt: nat,
    pp: bool,
    syms: Seq<SymbolId>,
    toks: Seq<tree::TokenModel>,
    vs: Seq<tree_builder::SlotModel>,
    d: nat,
    e: nat,
)
    requires
        yields_seq_in(rules, nt, pp, syms, toks, vs, d),
        d <= e,
    ensures
        yields_seq_in(rules, nt, pp, syms, toks, vs, e),
    decreases d, syms.len(),
{
    if syms.len() > 0 {
        let k = choose|k: int|
            0 <= k <= toks.len() && yields_in(
                rules,
                nt,
                pp,
                syms.last(),
                #[trigger] toks.skip(k),
                vs.last(),
                d,
            ) && yields_seq_in(
                rules,
                nt,
                pp,
                syms.drop_last(),
                toks.take(k),
                vs.drop_last(),
                d,
            );
        lemma_yields_mono(rules, nt, pp, syms.last(), toks.skip(k), vs.last(), d, e);
        lemma_yields_seq_mono(
            rules,
            nt,
            pp,
            syms.drop_last(),
            toks.take(k),
            vs.drop_last(),
            d,
            e,
        );
    }
}

/// There is a value for each symbol.
pub proof fn lemma_yields_len(
    rules: Seq<symbols::RuleModel>,
    nt: nat,
    pp: bool,
    syms: Seq<SymbolId>,
    toks: Seq<tree::TokenModel>,
    vs: Seq<tree_builder::SlotModel>,
)
    requires
        yields_all(rules, nt, pp, syms, toks, vs),
    ensures
        vs.len() == syms.len(),
    decreases syms.len(),
{
    if syms.len() > 0 {
        let k = lemma_yields_split(rules, nt, pp, syms, toks, vs);
        lemma_yields_len(rules, nt, pp, syms.drop_last(), toks.take(k), vs.drop_last());
    } else {
        let d = choose|d: nat| #[trigger] yields_seq_in(rules, nt, pp, syms, toks, vs, d);
    }
}

/// What has a value is derived.
pub proof fn lemma_yields_derives(
    rules: Seq<symbols::RuleModel>,
    nt: nat,
    pp: bool,
    s: SymbolId,
    toks: Seq<tree::TokenModel>,
    v: tree_builder::SlotModel,
    d: nat,
)
    requires
        yields_in(rules, nt, pp, s, toks, v, d),
    ensures
        analysis::derives_sym(rules, nt, s, cyk::types_of(toks), d),
    decreases d, 0nat,
{
    let types = cyk::types_of(toks);
    if s.ix() < nt {
        assert(types =~= seq![s]);
    } else {
        let (r, vs) = choose|r: int, vs: Seq<tree_builder::SlotModel>| #[trigger]
            is_shaped(rules, pp, r, s, vs, v) && yields_seq_in(
                rules,
                nt,
                pp,
                rules[r].expansion,
                toks,
                vs,
                (d - 1) as nat,
            );
        lemma_yields_all_derives(
            rules,
            nt,
            pp,
            rules[r].expansion,
            toks,
            vs,
            (d - 1) as nat,
        );
        assert(rules[r].origin == s);
    }
}

/// What has values is derived.
pub proof fn lemma_yields_all_derives(
    rules: Seq<symbols::RuleModel>,
    nt: nat,
    pp: bool,
    syms: Seq<SymbolId>,
    toks: Seq<tree::TokenModel>,
    vs: Seq<tree_builder::SlotModel>,
    d: nat,
)
    requires
        yields_seq_in(rules, nt, pp, syms, toks, vs, d),
    ensures
        analysis::derives_seq(rules, nt, syms, cyk::types_of(toks), d),
    decreases d, syms.len(),
{
    let types = cyk::types_of(toks);
    if syms.len() > 0 {
        let k = choose|k: int|
            0 <= k <= toks.len() && yields_in(
                rules,
                nt,
                pp,
                syms.last(),
                #[trigger] toks.skip(k),
                vs.last(),
                d,
            ) && yields_seq_in(
                rules,
                nt,
                pp,
                syms.drop_last(),
                toks.take(k),
                vs.drop_last(),
                d,
            );
        lemma_yields_derives(rules, nt, pp, syms.last(), toks.skip(k), vs.last(), d);
        lemma_yields_all_derives(
            rules,
            nt,
            pp,
            syms.drop_last(),
            toks.take(k),
            vs.drop_last(),
            d,
        );
        assert(types.skip(k) =~= cyk::types_of(toks.skip(k)));
        assert(types.take(k) =~= cyk::types_of(toks.take(k)));
        assert(analysis::derives_sym(rules, nt, syms.last(), types.skip(k), d));
    }
}

/// No symbols derive no tokens.
pub proof fn lemma_yields_nothing(rules: Seq<symbols::RuleModel>, nt: nat, pp: bool)
    ensures
        yields_all(rules, nt, pp, Seq::empty(), Seq::empty(), Seq::empty()),
{
    assert(yields_seq_in(rules, nt, pp, Seq::empty(), Seq::empty(), Seq::empty(), 0));
}

/// A terminal derives a token of its type.
pub proof fn lemma_yields_token(
    rules: Seq<symbols::RuleModel>,
    nt: nat,
    pp: bool,
    t: tree::TokenModel,
)
    requires
        t.type_id.ix() < nt,
    ensures
        yields(
            rules,
            nt,
            pp,
            t.type_id,
            seq![t],
            tree_builder::SlotModel::Value(tree::Node::Token(t)),
        ),
{
    assert(yields_in(
        rules,
        nt,
        pp,
        t.type_id,
        seq![t],
        tree_builder::SlotModel::Value(tree::Node::Token(t)),
        0,
    ));
}

/// A rule's origin derives what its expansion derives, with the value that the
/// rule shapes.
pub proof fn lemma_yields_rule(
    rules: Seq<symbols::RuleModel>,
    nt: nat,
    pp: bool,
    r: int,
    toks: Seq<tree::TokenModel>,
    vs: Seq<tree_builder::SlotModel>,
)
    requires
        0 <= r < rules.len(),
        rules[r].origin.ix() >= nt,
        yields_all(rules, nt, pp, rules[r].expansion, toks, vs),
    ensures
        yields(
            rules,
            nt,
            pp,
            rules[r].origin,
            toks,
            tree_builder::assembled(rules[r], pp, vs),
        ),
{
    let d = choose|d: nat| #[trigger]
        yields_seq_in(rules, nt, pp, rules[r].expansion, toks, vs, d);
    let v = tree_builder::assembled(rules[r], pp, vs);
    assert(is_shaped(rules, pp, r, rules[r].origin, vs, v));
    assert(yields_in(rules, nt, pp, rules[r].origin, toks, v, d + 1));
}

/// A list of symbols derives the concatenation of what its front and its last
/// symbol derive.
pub proof fn lemma_yields_push(
    rules: Seq<symbols::RuleModel>,
    nt: nat,
    pp: bool,
    syms: Seq<SymbolId>,
    a: Seq<tree::TokenModel>,
    vs: Seq<tree_builder::SlotModel>,
    s: SymbolId,
    b: Seq<tree::TokenModel>,
    v: tree_builder::SlotModel,
)
    requires
        yields_all(rules, nt, pp, syms, a, vs),
        yields(rules, nt, pp, s, b, v),
    ensures
        yields_all(rules, nt, pp, syms.push(s), a + b, vs.push(v)),
{
    let d = choose|d: nat| #[trigger] yields_seq_in(rules, nt, pp, syms, a, vs, d);
    let e = choose|e: nat| #[trigger] yields_in(rules, nt, pp, s, b, v, e);
    let m = if d < e {
        e
    } else {
        d
    };
    lemma_yields_seq_mono(rules, nt, pp, syms, a, vs, d, m);
    lemma_yields_mono(rules, nt, pp, s, b, v, e, m);
    let all = syms.push(s);
    let us = vs.push(v);
    assert(all.drop_last() =~= syms);
    assert(us.drop_last() =~= vs);
    assert((a + b).take(a.len() as int) =~= a);
    assert((a + b).skip(a.len() as int) =~= b);
    assert(yields_in(rules, nt, pp, all.last(), (a + b).skip(a.len() as int), us.last(), m));
    assert(yields_seq_in(rules, nt, pp, all, a + b, us, m));
}

/// What a list of symbols derives splits into what its front and its last
/// symbol derive.
pub proof fn lemma_yields_split(
    rules: Seq<symbols::RuleModel>,
    nt: nat,
    pp: bool,
    syms: Seq<SymbolId>,
    toks: Seq<tree::TokenModel>,
    vs: Seq<tree_builder::SlotModel>,
) -> (k: int)
    requires
        syms.len() > 0,
        yields_all(rules, nt, pp, syms, toks, vs),
    ensures
        vs.len() > 0,
        0 <= k <= toks.len(),
        yields_all(rules, nt, pp, syms.drop_last(), toks.take(k), vs.drop_last()),
        yields(rules, nt, pp, syms.last(), toks.skip(k), vs.last()),
{
    let d = choose|d: nat| #[trigger] yields_seq_in(rules, nt, pp, syms, toks, vs, d);
    choose|k: int|
        0 <= k <= toks.len() && yields_in(
            rules,
            nt,
            pp,
            syms.last(),
            #[trigger] toks.skip(k),
            vs.last(),
            d,
        ) && yields_seq_in(
            rules,
            nt,
            pp,
            syms.drop_last(),
            toks.take(k),
            vs.drop_last(),
            d,
        )
}

/// What a list of symbols derives splits at any symbol.
pub proof fn lemma_yields_parts(
    rules: Seq<symbols::RuleModel>,
    nt: nat,
    pp: bool,
    syms: Seq<SymbolId>,
    n: int,
    toks: Seq<tree::TokenModel>,
    vs: Seq<tree_builder::SlotModel>,
) -> (k: int)
    requires
        0 <= n <= syms.len(),
        yields_all(rules, nt, pp, syms, toks, vs),
    ensures
        vs.len() == syms.len(),
        0 <= k <= toks.len(),
        yields_all(rules, nt, pp, syms.take(n), toks.take(k), vs.take(n)),
        yields_all(rules, nt, pp, syms.skip(n), toks.skip(k), vs.skip(n)),
    decreases syms.len(),
{
    lemma_yields_len(rules, nt, pp, syms, toks, vs);
    if n == syms.len() {
        assert(syms.take(n) =~= syms);
        assert(vs.take(n) =~= vs);
        assert(toks.take(toks.len() as int) =~= toks);
        assert(syms.skip(n) =~= Seq::empty());
        assert(vs.skip(n) =~= Seq::empty());
        assert(toks.skip(toks.len() as int) =~= Seq::empty());
        lemma_yields_nothing(rules, nt, pp);
        toks.len() as int
    } else {
        let m = lemma_yields_split(rules, nt, pp, syms, toks, vs);
        let k = lemma_yields_parts(
            rules,
            nt,
            pp,
            syms.drop_last(),
            n,
            toks.take(m),
            vs.drop_last(),
        );
        assert(syms.drop_last().take(n) =~= syms.take(n));
        assert(vs.drop_last().take(n) =~= vs.take(n));
        assert(toks.take(m).take(k) =~= toks.take(k));
        lemma_yields_push(
            rules,
            nt,
            pp,
            syms.drop_last().skip(n),
            toks.take(m).skip(k),
            vs.drop_last().skip(n),
            syms.last(),
            toks.skip(m),
            vs.last(),
        );
        assert(syms.drop_last().skip(n).push(syms.last()) =~= syms.skip(n));
        assert(vs.drop_last().skip(n).push(vs.last()) =~= vs.skip(n));
        assert(toks.take(m).skip(k) + toks.skip(m) =~= toks.skip(k));
        k
    }
}

/// The value of a symbol that is not spliced is a node or an absent optional.
pub proof fn lemma_solid_value(
    rules: Seq<symbols::RuleModel>,
    nt: nat,
    pp: bool,
    s: SymbolId,
    toks: Seq<tree::TokenModel>,
    v: tree_builder::SlotModel,
)
    requires
        s.ix() >= nt,
        is_solid(rules, s),
        yields(rules, nt, pp, s, toks, v),
    ensures
        match v {
            tree_builder::SlotModel::Value(_) => true,
            tree_builder::SlotModel::Inline(ns) => ns.len() == 1 && ns[0] is Absent,
        },
{
    let d = choose|d: nat| #[trigger] yields_in(rules, nt, pp, s, toks, v, d);
    let (r, vs) = choose|r: int, vs: Seq<tree_builder::SlotModel>| #[trigger]
        is_shaped(rules, pp, r, s, vs, v) && yields_seq_in(
            rules,
            nt,
            pp,
            rules[r].expansion,
            toks,
            vs,
            (d - 1) as nat,
        );
    assert(!rules[r].transparent);
}

} // verus!
