//! The shared parse forest of the Earley parser, and the items of its chart.

use vstd::prelude::*;
use crate::symbols::SymbolId;
use crate::tree;
use crate::tree::Token;

verus! {

// ---------------------------------------------------------------------------
// The parts

/// What a forest node stands for.
#[derive(Clone, Copy, PartialEq, Eq, Debug, Structural)]
pub enum NodeKey {
    /// A whole symbol.
    Sym(SymbolId),
    /// A rule up to a position of its expansion.
    Inter(usize, usize),
}

/// A reference from a chart item or a family into the forest.
#[derive(Clone, Copy, PartialEq, Eq, Debug, Structural)]
pub enum ForestRef {
    Nothing,
    Node(usize),
    Tok(usize),
}

/// One way to derive a node: what stands left of the last symbol, and that
/// symbol, with its position in the rule.
#[derive(Clone, Copy, PartialEq, Eq, Debug, Structural)]
pub struct Packed {
    pub rule: usize,
    pub left: ForestRef,
    pub right: ForestRef,
    pub right_pos: usize,
}

/// A chart item: a rule with a dot, where it began, and what it has derived.
#[derive(Clone, Copy, PartialEq, Eq, Debug, Structural)]
pub struct Item {
    pub rule: usize,
    pub dot: usize,
    pub origin: usize,
    pub node: ForestRef,
}

/// A shortcut for a deterministic chain of completions: completing
/// `recognized` from `key_start` completes the item `top` at once.
#[derive(Clone, Copy, Debug)]
pub struct Trans {
    pub recognized: SymbolId,
    pub key_start: usize,
    /// The only item that waits for `recognized` at `key_start`.
    pub red: Item,
    /// The next link of the chain.
    pub parent: Option<usize>,
    pub top: Item,
}

/// A node of the forest with its families.
#[derive(Debug)]
pub struct SymbolNode {
    pub key: NodeKey,
    pub start: usize,
    pub end: usize,
    pub families: Vec<Packed>,
    /// The position and order of the family that derives nothing.
    pub eps: Option<(usize, usize)>,
    /// Chains of completions that were cut short here: the first link, the
    /// node below it, and where the chain ends.
    pub paths: Vec<(usize, ForestRef, usize)>,
}

/// The mathematical content of a node.
pub ghost struct NodeModel {
    pub key: NodeKey,
    pub start: usize,
    pub end: usize,
    pub families: Seq<Packed>,
    pub eps: Option<(usize, usize)>,
    pub paths: Seq<(usize, ForestRef, usize)>,
}

impl View for SymbolNode {
    type V = NodeModel;

    open spec fn view(&self) -> NodeModel {
        NodeModel {
            key: self.key,
            start: self.start,
            end: self.end,
            families: self.families@,
            eps: self.eps,
            paths: self.paths@,
        }
    }
}

/// A shared packed parse forest.
#[derive(Debug)]
pub struct Forest {
    pub nodes: Vec<SymbolNode>,
    pub tokens: Vec<Token>,
}

/// The mathematical content of a forest.
pub ghost struct ForestModel {
    pub nodes: Seq<NodeModel>,
    pub tokens: Seq<tree::TokenModel>,
}

/// The contents of a list of nodes.
pub open spec fn node_models(s: Seq<SymbolNode>) -> Seq<NodeModel> {
    Seq::new(s.len(), |i: int| s[i]@)
}

impl View for Forest {
    type V = ForestModel;

    open spec fn view(&self) -> ForestModel {
        ForestModel { nodes: node_models(self.nodes@), tokens: tree::token_models(self.tokens@) }
    }
}

// ---------------------------------------------------------------------------
// Operations on the model

/// Whether a node has the given label.
pub open spec fn labelled(n: NodeModel, key: NodeKey, start: usize, end: usize) -> bool {
    n.key == key && n.start == start && n.end == end
}

/// The first node with the given label, from `from` on.
pub open spec fn find_node(
    nodes: Seq<NodeModel>,
    key: NodeKey,
    start: usize,
    end: usize,
    from: int,
) -> Option<int>
    decreases nodes.len() - from,
{
    if from < 0 || from >= nodes.len() {
        None
    } else if labelled(nodes[from], key, start, end) {
        Some(from)
    } else {
        find_node(nodes, key, start, end, from + 1)
    }
}

/// A node without families.
pub open spec fn bare_node(key: NodeKey, start: usize, end: usize) -> NodeModel {
    NodeModel { key, start, end, families: Seq::empty(), eps: None, paths: Seq::empty() }
}

/// The forest with a node of the given label, and the number of that node.
pub open spec fn got(
    f: ForestModel,
    key: NodeKey,
    start: usize,
    end: usize,
) -> (ForestModel, int) {
    match find_node(f.nodes, key, start, end, 0) {
        Some(k) => (f, k),
        None => (
            ForestModel { nodes: f.nodes.push(bare_node(key, start, end)), ..f },
            f.nodes.len() as int,
        ),
    }
}

/// Whether a family with the given parts is among `families`.
pub open spec fn has_pair(families: Seq<Packed>, left: ForestRef, right: ForestRef) -> bool {
    exists|i: int|
        0 <= i < families.len() && (#[trigger] families[i]).left == left && families[i].right
            == right
}

/// A node with one more family. Families are told apart by their parts; of
/// those that derive nothing only the one of least order stays.
pub open spec fn with_family(n: NodeModel, p: Packed, order: usize) -> NodeModel {
    if p.left == ForestRef::Nothing && p.right == ForestRef::Nothing {
        match n.eps {
            None => NodeModel {
                families: n.families.push(p),
                eps: Some((n.families.len() as usize, order)),
                ..n
            },
            Some((k, best)) => if order < best && k < n.families.len() {
                NodeModel {
                    families: n.families.update(k as int, p),
                    eps: Some((k, order)),
                    ..n
                }
            } else {
                n
            },
        }
    } else if has_pair(n.families, p.left, p.right) {
        n
    } else {
        NodeModel { families: n.families.push(p), ..n }
    }
}

/// The forest with one more family at node `id`.
pub open spec fn family_added(f: ForestModel, id: int, p: Packed, order: usize) -> ForestModel {
    ForestModel { nodes: f.nodes.update(id, with_family(f.nodes[id], p, order)), ..f }
}

/// The forest with one more token.
pub open spec fn token_added(f: ForestModel, t: tree::TokenModel) -> ForestModel {
    ForestModel { tokens: f.tokens.push(t), ..f }
}

/// The forest with one more cut chain at node `id`.
pub open spec fn path_added(
    f: ForestModel,
    id: int,
    path: (usize, ForestRef, usize),
) -> ForestModel {
    let n = f.nodes[id];
    ForestModel {
        nodes: f.nodes.update(id, NodeModel { paths: n.paths.push(path), ..n }),
        ..f
    }
}

/// The forest with the cut chains at node `id` taken away.
pub open spec fn paths_taken(f: ForestModel, id: int) -> ForestModel {
    let n = f.nodes[id];
    ForestModel { nodes: f.nodes.update(id, NodeModel { paths: Seq::empty(), ..n }), ..f }
}

// ---------------------------------------------------------------------------
// Well-formedness

/// Whether a reference points into the forest.
pub open spec fn ref_ok(f: ForestModel, r: ForestRef) -> bool {
    match r {
        ForestRef::Nothing => true,
        ForestRef::Node(k) => k < f.nodes.len(),
        ForestRef::Tok(t) => t < f.tokens.len(),
    }
}

/// Whether a family points into the forest and names a rule.
pub open spec fn packed_ok(f: ForestModel, n_rules: nat, p: Packed) -> bool {
    p.rule < n_rules && ref_ok(f, p.left) && ref_ok(f, p.right)
}

/// Whether every family of a node is in order.
pub open spec fn families_ok(f: ForestModel, n_rules: nat, n: NodeModel) -> bool {
    forall|k: int| 0 <= k < n.families.len() ==> packed_ok(f, n_rules, #[trigger] n.families[k])
}

/// Whether every cut chain of a node begins at one of the first `n_trans`
/// links.
pub open spec fn paths_ok(n_trans: nat, n: NodeModel) -> bool {
    forall|k: int| 0 <= k < n.paths.len() ==> (#[trigger] n.paths[k]).0 < n_trans
}

/// Whether everything in the forest points into it.
pub open spec fn forest_ok(f: ForestModel, n_rules: nat, n_trans: nat) -> bool {
    &&& forall|i: int| 0 <= i < f.nodes.len() ==> families_ok(f, n_rules, #[trigger] f.nodes[i])
    &&& forall|i: int| 0 <= i < f.nodes.len() ==> paths_ok(n_trans, #[trigger] f.nodes[i])
}

/// Whether `g` is `f` with more in it: nodes keep their numbers and labels.
pub open spec fn extends(f: ForestModel, g: ForestModel) -> bool {
    &&& f.nodes.len() <= g.nodes.len()
    &&& f.tokens.len() <= g.tokens.len()
    &&& forall|i: int|
        0 <= i < f.nodes.len() ==> labelled(
            #[trigger] g.nodes[i],
            f.nodes[i].key,
            f.nodes[i].start,
            f.nodes[i].end,
        )
    &&& forall|t: int| 0 <= t < f.tokens.len() ==> #[trigger] g.tokens[t] == f.tokens[t]
}

/// References stay good as the forest grows.
pub proof fn lemma_ref_extends(f: ForestModel, g: ForestModel, r: ForestRef)
    requires
        extends(f, g),
        ref_ok(f, r),
    ensures
        ref_ok(g, r),
{
}

/// Growth is transitive.
pub proof fn lemma_extends_trans(f: ForestModel, g: ForestModel, h: ForestModel)
    requires
        extends(f, g),
        extends(g, h),
    ensures
        extends(f, h),
{
    assert forall|i: int| 0 <= i < f.nodes.len() implies labelled(
        #[trigger] h.nodes[i],
        f.nodes[i].key,
        f.nodes[i].start,
        f.nodes[i].end,
    ) by {
        assert(labelled(g.nodes[i], f.nodes[i].key, f.nodes[i].start, f.nodes[i].end));
    }
    assert forall|t: int| 0 <= t < f.tokens.len() implies #[trigger] h.tokens[t] == f.tokens[t] by {
        assert(g.tokens[t] == f.tokens[t]);
    }
}

/// Where the first node with a label stands.
pub proof fn lemma_find_node(
    nodes: Seq<NodeModel>,
    key: NodeKey,
    start: usize,
    end: usize,
    from: int,
)
    requires
        0 <= from,
    ensures
        match find_node(nodes, key, start, end, from) {
            Some(k) => from <= k < nodes.len() && labelled(nodes[k], key, start, end),
            None => forall|i: int|
                from <= i < nodes.len() ==> !labelled(#[trigger] nodes[i], key, start, end),
        },
    decreases nodes.len() - from,
{
    if from < nodes.len() && !labelled(nodes[from], key, start, end) {
        lemma_find_node(nodes, key, start, end, from + 1);
    }
}

/// Getting a node keeps the forest in order.
pub proof fn lemma_got(
    f: ForestModel,
    key: NodeKey,
    start: usize,
    end: usize,
    n_rules: nat,
    n_trans: nat,
)
    requires
        forest_ok(f, n_rules, n_trans),
    ensures
        forest_ok(got(f, key, start, end).0, n_rules, n_trans),
        extends(f, got(f, key, start, end).0),
        0 <= got(f, key, start, end).1 < got(f, key, start, end).0.nodes.len(),
        labelled(
            got(f, key, start, end).0.nodes[got(f, key, start, end).1],
            key,
            start,
            end,
        ),
        got(f, key, start, end).0.tokens == f.tokens,
{
    lemma_find_node(f.nodes, key, start, end, 0);
    let (g, id) = got(f, key, start, end);
    assert forall|i: int| 0 <= i < g.nodes.len() implies families_ok(
        g,
        n_rules,
        #[trigger] g.nodes[i],
    ) && paths_ok(n_trans, g.nodes[i]) by {
        if i < f.nodes.len() {
            assert(families_ok(f, n_rules, f.nodes[i]));
            assert(paths_ok(n_trans, f.nodes[i]));
            assert forall|k: int| 0 <= k < g.nodes[i].families.len() implies packed_ok(
                g,
                n_rules,
                #[trigger] g.nodes[i].families[k],
            ) by {
                assert(packed_ok(f, n_rules, f.nodes[i].families[k]));
            }
        }
    }
}

/// Adding a family keeps the forest in order.
pub proof fn lemma_family_added(
    f: ForestModel,
    id: int,
    p: Packed,
    order: usize,
    n_rules: nat,
    n_trans: nat,
)
    requires
        forest_ok(f, n_rules, n_trans),
        0 <= id < f.nodes.len(),
        packed_ok(f, n_rules, p),
    ensures
        forest_ok(family_added(f, id, p, order), n_rules, n_trans),
        extends(f, family_added(f, id, p, order)),
        family_added(f, id, p, order).nodes.len() == f.nodes.len(),
        family_added(f, id, p, order).tokens == f.tokens,
{
    let g = family_added(f, id, p, order);
    assert forall|i: int| 0 <= i < g.nodes.len() implies families_ok(
        g,
        n_rules,
        #[trigger] g.nodes[i],
    ) && paths_ok(n_trans, g.nodes[i]) by {
        assert(families_ok(f, n_rules, f.nodes[i]));
        assert(paths_ok(n_trans, f.nodes[i]));
        assert forall|k: int| 0 <= k < g.nodes[i].families.len() implies packed_ok(
            g,
            n_rules,
            #[trigger] g.nodes[i].families[k],
        ) by {
            if k < f.nodes[i].families.len() {
                assert(packed_ok(f, n_rules, f.nodes[i].families[k]));
            }
        }
        assert forall|k: int| 0 <= k < g.nodes[i].paths.len() implies (
        #[trigger] g.nodes[i].paths[k]).0 < n_trans by {
            assert(f.nodes[i].paths[k].0 < n_trans);
        }
    }
}

/// Adding a token keeps the forest in order.
pub proof fn lemma_token_added(f: ForestModel, t: tree::TokenModel, n_rules: nat, n_trans: nat)
    requires
        forest_ok(f, n_rules, n_trans),
    ensures
        forest_ok(token_added(f, t), n_rules, n_trans),
        extends(f, token_added(f, t)),
        token_added(f, t).nodes == f.nodes,
        token_added(f, t).tokens.len() == f.tokens.len() + 1,
{
    let g = token_added(f, t);
    assert forall|i: int| 0 <= i < g.nodes.len() implies families_ok(
        g,
        n_rules,
        #[trigger] g.nodes[i],
    ) by {
        assert(families_ok(f, n_rules, f.nodes[i]));
        assert forall|k: int| 0 <= k < g.nodes[i].families.len() implies packed_ok(
            g,
            n_rules,
            #[trigger] g.nodes[i].families[k],
        ) by {
            assert(packed_ok(f, n_rules, f.nodes[i].families[k]));
        }
    }
}

/// Adding a cut chain keeps the forest in order.
pub proof fn lemma_path_added(
    f: ForestModel,
    id: int,
    path: (usize, ForestRef, usize),
    n_rules: nat,
    n_trans: nat,
)
    requires
        forest_ok(f, n_rules, n_trans),
        0 <= id < f.nodes.len(),
        path.0 < n_trans,
    ensures
        forest_ok(path_added(f, id, path), n_rules, n_trans),
        extends(f, path_added(f, id, path)),
        path_added(f, id, path).nodes.len() == f.nodes.len(),
        path_added(f, id, path).tokens == f.tokens,
{
    let g = path_added(f, id, path);
    assert forall|i: int| 0 <= i < g.nodes.len() implies families_ok(
        g,
        n_rules,
        #[trigger] g.nodes[i],
    ) && paths_ok(n_trans, g.nodes[i]) by {
        assert(families_ok(f, n_rules, f.nodes[i]));
        assert(paths_ok(n_trans, f.nodes[i]));
        assert forall|k: int| 0 <= k < g.nodes[i].families.len() implies packed_ok(
            g,
            n_rules,
            #[trigger] g.nodes[i].families[k],
        ) by {
            assert(packed_ok(f, n_rules, f.nodes[i].families[k]));
        }
        assert forall|k: int| 0 <= k < g.nodes[i].paths.len() implies (
        #[trigger] g.nodes[i].paths[k]).0 < n_trans by {
            if k < f.nodes[i].paths.len() {
                assert(f.nodes[i].paths[k].0 < n_trans);
            }
        }
    }
}

/// Taking cut chains away keeps the forest in order.
pub proof fn lemma_paths_taken(f: ForestModel, id: int, n_rules: nat, n_trans: nat)
    requires
        forest_ok(f, n_rules, n_trans),
        0 <= id < f.nodes.len(),
    ensures
        forest_ok(paths_taken(f, id), n_rules, n_trans),
        extends(f, paths_taken(f, id)),
        paths_taken(f, id).nodes.len() == f.nodes.len(),
        paths_taken(f, id).tokens == f.tokens,
{
    let g = paths_taken(f, id);
    assert forall|i: int| 0 <= i < g.nodes.len() implies families_ok(
        g,
        n_rules,
        #[trigger] g.nodes[i],
    ) && paths_ok(n_trans, g.nodes[i]) by {
        assert(families_ok(f, n_rules, f.nodes[i]));
        assert(paths_ok(n_trans, f.nodes[i]));
        assert forall|k: int| 0 <= k < g.nodes[i].families.len() implies packed_ok(
            g,
            n_rules,
            #[trigger] g.nodes[i].families[k],
        ) by {
            assert(packed_ok(f, n_rules, f.nodes[i].families[k]));
        }
        if i != id {
            assert(g.nodes[i].paths == f.nodes[i].paths);
        }
    }
}

// ---------------------------------------------------------------------------
// The executable forest

impl SymbolNode {
    fn is(&self, key: NodeKey, start: usize, end: usize) -> (r: bool)
        ensures
            r == labelled(self@, key, start, end),
    {
        self.key == key && self.start == start && self.end == end
    }

    fn add_family(&mut self, p: Packed, order: usize)
        ensures
            final(self)@ == with_family(old(self)@, p, order),
    {
        let n: usize = self.families.len();
        if p.left == ForestRef::Nothing && p.right == ForestRef::Nothing {
            match self.eps {
                None => {
                    self.eps = Some((n, order));
                    self.families.push(p);
                },
                Some((k, best)) => {
                    if order < best && k < n {
                        self.families.set(k, p);
                        self.eps = Some((k, order));
                    }
                },
            }
            return;
        }
        let mut i: usize = 0;
        while i < n
            invariant
                i <= n,
                n == self.families@.len(),
                *self == *old(self),
                !(p.left == ForestRef::Nothing && p.right == ForestRef::Nothing),
                forall|k: int|
                    0 <= k < i ==> !((#[trigger] self.families@[k]).left == p.left
                        && self.families@[k].right == p.right),
            decreases n - i,
        {
            if self.families[i].left == p.left && self.families[i].right == p.right {
                return;
            }
            i = i + 1;
        }
        self.families.push(p);
    }

    fn add_path(&mut self, path: (usize, ForestRef, usize))
        ensures
            final(self)@ == (NodeModel { paths: old(self)@.paths.push(path), ..old(self)@ }),
    {
        self.paths.push(path);
    }

    fn take_paths(&mut self) -> (r: Vec<(usize, ForestRef, usize)>)
        ensures
            r@ == old(self)@.paths,
            final(self)@ == (NodeModel { paths: Seq::empty(), ..old(self)@ }),
    {
        let r = self.paths.split_off(0);
        proof {
            assert(self.paths@ =~= Seq::empty());
            assert(r@ =~= old(self)@.paths);
        }
        r
    }
}

impl Forest {
    /// An empty forest.
    pub fn new() -> (r: Forest)
        ensures
            r@ == (ForestModel { nodes: Seq::empty(), tokens: Seq::empty() }),
    {
        let r = Forest { nodes: Vec::new(), tokens: Vec::new() };
        proof {
            assert(r@.nodes =~= Seq::empty());
            assert(r@.tokens =~= Seq::empty());
        }
        r
    }

    /// The node with the given label, if there is one.
    pub fn find(&self, key: NodeKey, start: usize, end: usize) -> (r: Option<usize>)
        ensures
            match r {
                Some(k) => k < self@.nodes.len() && find_node(self@.nodes, key, start, end, 0)
                    == Some(k as int),
                None => find_node(self@.nodes, key, start, end, 0) is None,
            },
    {
        let n: usize = self.nodes.len();
        let mut i: usize = 0;
        while i < n
            invariant
                i <= n,
                n == self@.nodes.len(),
                find_node(self@.nodes, key, start, end, 0) == find_node(
                    self@.nodes,
                    key,
                    start,
                    end,
                    i as int,
                ),
            decreases n - i,
        {
            if self.nodes[i].is(key, start, end) {
                return Some(i);
            }
            i = i + 1;
        }
        None
    }

    /// The node with the given label, made if need be.
    pub fn get_or_create(&mut self, key: NodeKey, start: usize, end: usize) -> (r: usize)
        ensures
            (final(self)@, r as int) == got(old(self)@, key, start, end),
    {
        let found = self.find(key, start, end);
        match found {
            Some(k) => k,
            None => {
                let id: usize = self.nodes.len();
                let ghost before = self@;
                let node = SymbolNode {
                    key,
                    start,
                    end,
                    families: Vec::new(),
                    eps: None,
                    paths: Vec::new(),
                };
                proof {
                    assert(node@.families =~= Seq::empty());
                    assert(node@.paths =~= Seq::empty());
                }
                self.nodes.push(node);
                proof {
                    assert(self@.nodes =~= before.nodes.push(bare_node(key, start, end)));
                    assert(self@.tokens =~= before.tokens);
                }
                id
            },
        }
    }

    /// Adds a family to a node.
    pub fn add_family(&mut self, id: usize, p: Packed, order: usize)
        requires
            id < old(self)@.nodes.len(),
        ensures
            final(self)@ == family_added(old(self)@, id as int, p, order),
    {
        let ghost before = self@;
        let node = &mut self.nodes[id];
        node.add_family(p, order);
        proof {
            assert(self@.nodes =~= family_added(before, id as int, p, order).nodes);
            assert(self@.tokens =~= before.tokens);
        }
    }

    /// Adds a token.
    pub fn add_token(&mut self, t: Token) -> (r: usize)
        ensures
            r == old(self)@.tokens.len(),
            final(self)@ == token_added(old(self)@, t@),
    {
        let ghost before = self@;
        let id: usize = self.tokens.len();
        self.tokens.push(t);
        proof {
            assert(self@.nodes =~= before.nodes);
            assert(self@.tokens =~= before.tokens.push(t@));
        }
        id
    }

    /// Records a chain of completions that is cut short at a node.
    pub fn add_path(&mut self, id: usize, trans: usize, bottom: ForestRef, end: usize)
        requires
            id < old(self)@.nodes.len(),
        ensures
            final(self)@ == path_added(old(self)@, id as int, (trans, bottom, end)),
    {
        let ghost before = self@;
        let node = &mut self.nodes[id];
        node.add_path((trans, bottom, end));
        proof {
            assert(self@.nodes =~= path_added(before, id as int, (trans, bottom, end)).nodes);
            assert(self@.tokens =~= before.tokens);
        }
    }

    /// Takes the cut chains of a node away.
    pub fn take_paths(&mut self, id: usize) -> (r: Vec<(usize, ForestRef, usize)>)
        requires
            id < old(self)@.nodes.len(),
        ensures
            r@ == old(self)@.nodes[id as int].paths,
            final(self)@ == paths_taken(old(self)@, id as int),
    {
        let ghost before = self@;
        let node = &mut self.nodes[id];
        let r = node.take_paths();
        proof {
            assert(self@.nodes =~= paths_taken(before, id as int).nodes);
            assert(self@.tokens =~= before.tokens);
        }
        r
    }
}

} // verus!
