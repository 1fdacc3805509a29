//! Keys that tell the values of forest nodes apart: two values have the same key
//! exactly when they have the same structure.

use vstd::prelude::*;
use crate::text::chars_of;
use crate::tree;
use crate::tree::{Child, Token, Tree};
use crate::tree_builder;
use crate::tree_builder::Slot;

verus! {

// ---------------------------------------------------------------------------
// Structure

/// Whether two nodes have the same structure: the same kind, and the same type
/// and value, or the same name and children of the same structure. Where they
/// stand in the text makes no difference.
pub open spec fn same_node(a: tree::Node, b: tree::Node) -> bool
    decreases a,
{
    match a {
        tree::Node::Token(t) => b matches tree::Node::Token(u) && t.type_ == u.type_ && t.value
            == u.value,
        tree::Node::Absent => b is Absent,
        tree::Node::Tree { data, children, meta } => b is Tree && data == b->data
            && children.len() == b->children.len() && forall|i: int|
            0 <= i < children.len() ==> same_node(#[trigger] children[i], b->children[i]),
    }
}

/// Whether two values have the same structure.
pub open spec fn same_structure(
    u: tree_builder::SlotModel,
    v: tree_builder::SlotModel,
) -> bool {
    match u {
        tree_builder::SlotModel::Value(a) => v matches tree_builder::SlotModel::Value(b)
            && same_node(a, b),
        tree_builder::SlotModel::Inline(s) => v matches tree_builder::SlotModel::Inline(t)
            && s.len() == t.len() && forall|i: int|
            0 <= i < s.len() ==> same_node(#[trigger] s[i], t[i]),
    }
}

// ---------------------------------------------------------------------------
// Keys

/// A character inside quotes: one that would end or escape is escaped.
pub open spec fn escaped(c: char) -> Seq<char> {
    if c == '"' || c == '\\' {
        seq!['\\', c]
    } else {
        seq![c]
    }
}

/// The characters of a text inside quotes, and the closing quote.
pub open spec fn quoted_rest(s: Seq<char>) -> Seq<char>
    decreases s.len(),
{
    if s.len() == 0 {
        seq!['"']
    } else {
        escaped(s[0]) + quoted_rest(s.skip(1))
    }
}

/// A text in quotes.
pub open spec fn quoted_text(s: Seq<char>) -> Seq<char> {
    seq!['"'] + quoted_rest(s)
}

/// The key of a token: its type and value.
pub open spec fn token_key(t: tree::TokenModel) -> Seq<char> {
    seq!['T'] + quoted_text(t.type_) + quoted_text(t.value)
}

/// The key of a child.
pub open spec fn child_key(n: tree::Node) -> Seq<char>
    decreases n,
{
    match n {
        tree::Node::Token(t) => token_key(t),
        tree::Node::Absent => seq!['N'],
        tree::Node::Tree { data, children, meta } => seq!['('] + quoted_text(data) + list_key(
            children,
            0,
        ),
    }
}

/// The keys of the children from `k` on, and a closing bracket.
pub open spec fn list_key(children: Seq<tree::Node>, k: nat) -> Seq<char>
    decreases children, children.len() - k,
{
    if k >= children.len() {
        seq![')']
    } else {
        child_key(children[k as int]) + list_key(children, k + 1)
    }
}

/// The key of a value: values with the same key are shown once.
pub open spec fn value_key(v: tree_builder::SlotModel) -> Seq<char> {
    match v {
        tree_builder::SlotModel::Value(n) => child_key(n),
        tree_builder::SlotModel::Inline(ns) => seq!['I'] + list_key(ns, 0),
    }
}

// ---------------------------------------------------------------------------
// Keys are read back in one way

/// Two texts that begin alike and go on alike.
proof fn lemma_tails(c: Seq<char>, x: Seq<char>, y: Seq<char>)
    requires
        c + x == c + y,
    ensures
        x == y,
{
    assert((c + x).skip(c.len() as int) =~= x);
    assert((c + y).skip(c.len() as int) =~= y);
}

proof fn lemma_rest_reads(s: Seq<char>, t: Seq<char>, x: Seq<char>, y: Seq<char>)
    requires
        quoted_rest(s) + x == quoted_rest(t) + y,
    ensures
        s == t,
        x == y,
    decreases s.len(),
{
    let a = quoted_rest(s) + x;
    let b = quoted_rest(t) + y;
    if s.len() == 0 || t.len() == 0 {
        assert(a[0] == b[0]);
        if s.len() > 0 {
            assert(a[0] == escaped(s[0])[0]);
        }
        if t.len() > 0 {
            assert(b[0] == escaped(t[0])[0]);
        }
        assert(s =~= t);
        lemma_tails(seq!['"'], x, y);
    } else {
        let p = quoted_rest(s.skip(1)) + x;
        let q = quoted_rest(t.skip(1)) + y;
        assert(a =~= escaped(s[0]) + p);
        assert(b =~= escaped(t[0]) + q);
        assert(a[0] == escaped(s[0])[0] && b[0] == escaped(t[0])[0]);
        if s[0] == '"' || s[0] == '\\' {
            assert(a[0] == '\\');
            assert(a[1] == s[0]);
            assert(b[1] == t[0]);
        }
        assert(s[0] == t[0]);
        lemma_tails(escaped(s[0]), p, q);
        lemma_rest_reads(s.skip(1), t.skip(1), x, y);
        assert(s =~= seq![s[0]] + s.skip(1));
        assert(t =~= seq![t[0]] + t.skip(1));
    }
}

/// A quoted text ends where its closing quote stands.
proof fn lemma_text_reads(s: Seq<char>, t: Seq<char>, x: Seq<char>, y: Seq<char>)
    requires
        quoted_text(s) + x == quoted_text(t) + y,
    ensures
        s == t,
        x == y,
{
    assert(quoted_text(s) + x =~= seq!['"'] + (quoted_rest(s) + x));
    assert(quoted_text(t) + y =~= seq!['"'] + (quoted_rest(t) + y));
    lemma_tails(seq!['"'], quoted_rest(s) + x, quoted_rest(t) + y);
    lemma_rest_reads(s, t, x, y);
}

/// The first character of a child's key tells what kind of child it is.
proof fn lemma_child_mark(n: tree::Node, x: Seq<char>)
    ensures
        (child_key(n) + x).len() > 0,
        (child_key(n) + x)[0] == match n {
            tree::Node::Token(_) => 'T',
            tree::Node::Absent => 'N',
            tree::Node::Tree { .. } => '(',
        },
{
}

/// A child's key ends in one place, and tells its structure.
proof fn lemma_child_reads(a: tree::Node, b: tree::Node, x: Seq<char>, y: Seq<char>)
    requires
        child_key(a) + x == child_key(b) + y,
    ensures
        same_node(a, b),
        x == y,
    decreases a,
{
    lemma_child_mark(a, x);
    lemma_child_mark(b, y);
    match a {
        tree::Node::Token(t) => {
            let u = b->Token_0;
            let p = quoted_text(t.value) + x;
            let q = quoted_text(u.value) + y;
            assert(child_key(a) + x =~= seq!['T'] + (quoted_text(t.type_) + p));
            assert(child_key(b) + y =~= seq!['T'] + (quoted_text(u.type_) + q));
            lemma_tails(seq!['T'], quoted_text(t.type_) + p, quoted_text(u.type_) + q);
            lemma_text_reads(t.type_, u.type_, p, q);
            lemma_text_reads(t.value, u.value, x, y);
        },
        tree::Node::Absent => {
            lemma_tails(seq!['N'], x, y);
        },
        tree::Node::Tree { data, children, meta } => {
            let d = b->data;
            let cs = b->children;
            let p = list_key(children, 0) + x;
            let q = list_key(cs, 0) + y;
            assert(child_key(a) + x =~= seq!['('] + (quoted_text(data) + p));
            assert(child_key(b) + y =~= seq!['('] + (quoted_text(d) + q));
            lemma_tails(seq!['('], quoted_text(data) + p, quoted_text(d) + q);
            lemma_text_reads(data, d, p, q);
            lemma_list_reads(children, cs, 0, x, y);
        },
    }
}

/// A list of children's keys ends in one place, and tells their structure.
proof fn lemma_list_reads(
    s: Seq<tree::Node>,
    t: Seq<tree::Node>,
    k: nat,
    x: Seq<char>,
    y: Seq<char>,
)
    requires
        k <= s.len(),
        k <= t.len(),
        list_key(s, k) + x == list_key(t, k) + y,
    ensures
        s.len() == t.len(),
        forall|i: int| k <= i < s.len() ==> same_node(#[trigger] s[i], t[i]),
        x == y,
    decreases s, s.len() - k,
{
    let a = list_key(s, k) + x;
    let b = list_key(t, k) + y;
    assert(a[0] == b[0]);
    if k < s.len() {
        let p = list_key(s, k + 1) + x;
        assert(a =~= child_key(s[k as int]) + p);
        lemma_child_mark(s[k as int], p);
    }
    if k < t.len() {
        let q = list_key(t, k + 1) + y;
        assert(b =~= child_key(t[k as int]) + q);
        lemma_child_mark(t[k as int], q);
    }
    if k < s.len() && k < t.len() {
        let p = list_key(s, k + 1) + x;
        let q = list_key(t, k + 1) + y;
        lemma_child_reads(s[k as int], t[k as int], p, q);
        lemma_list_reads(s, t, k + 1, x, y);
        assert forall|i: int| k <= i < s.len() implies same_node(#[trigger] s[i], t[i]) by {
            if i > k {
                assert(k + 1 <= i);
            }
        }
    } else {
        lemma_tails(seq![')'], x, y);
    }
}

/// Nodes of the same structure have the same key.
proof fn lemma_same_child(a: tree::Node, b: tree::Node)
    requires
        same_node(a, b),
    ensures
        child_key(a) == child_key(b),
    decreases a,
{
    if let tree::Node::Tree { data, children, meta } = a {
        lemma_same_list(children, b->children, 0);
    }
}

proof fn lemma_same_list(s: Seq<tree::Node>, t: Seq<tree::Node>, k: nat)
    requires
        s.len() == t.len(),
        forall|i: int| 0 <= i < s.len() ==> same_node(#[trigger] s[i], t[i]),
    ensures
        list_key(s, k) == list_key(t, k),
    decreases s, s.len() - k,
{
    if k < s.len() {
        lemma_same_child(s[k as int], t[k as int]);
        lemma_same_list(s, t, k + 1);
    }
}

/// Two values have the same key exactly when they have the same structure, so
/// that values shown once are never different ones.
pub proof fn keys_tell_values_apart(u: tree_builder::SlotModel, v: tree_builder::SlotModel)
    ensures
        value_key(u) == value_key(v) <==> same_structure(u, v),
{
    let e = Seq::<char>::empty();
    if same_structure(u, v) {
        match u {
            tree_builder::SlotModel::Value(a) => lemma_same_child(a, v->Value_0),
            tree_builder::SlotModel::Inline(s) => lemma_same_list(s, v->Inline_0, 0),
        }
    }
    if value_key(u) == value_key(v) {
        assert(value_key(u) + e =~= value_key(u));
        assert(value_key(v) + e =~= value_key(v));
        if let tree_builder::SlotModel::Value(a) = u {
            lemma_child_mark(a, e);
        }
        if let tree_builder::SlotModel::Value(b) = v {
            lemma_child_mark(b, e);
        }
        assert(value_key(u)[0] == value_key(v)[0]);
        match u {
            tree_builder::SlotModel::Value(a) => lemma_child_reads(a, v->Value_0, e, e),
            tree_builder::SlotModel::Inline(s) => {
                let t = v->Inline_0;
                lemma_tails(seq!['I'], list_key(s, 0), list_key(t, 0));
                assert(list_key(s, 0) + e =~= list_key(s, 0));
                assert(list_key(t, 0) + e =~= list_key(t, 0));
                lemma_list_reads(s, t, 0, e, e);
            },
        }
    }
}

// ---------------------------------------------------------------------------
// Writing keys

/// Appends a text in quotes.
fn push_quoted(out: &mut String, s: &str)
    ensures
        final(out)@ == old(out)@ + quoted_text(s@),
{
    let ghost before = out@;
    out.push('"');
    let cs = chars_of(s);
    let ghost all = before + quoted_text(s@);
    let mut i: usize = 0;
    proof {
        assert(cs@.skip(0) =~= cs@);
        assert(out@ + quoted_rest(cs@.skip(0)) =~= all);
    }
    while i < cs.len()
        invariant
            i <= cs@.len(),
            out@ + quoted_rest(cs@.skip(i as int)) == all,
        decreases cs.len() - i,
    {
        let c = cs[i];
        let ghost mid = out@;
        if c == '"' || c == '\\' {
            out.push('\\');
        }
        out.push(c);
        proof {
            let rest = cs@.skip(i as int);
            assert(rest.skip(1) =~= cs@.skip(i + 1));
            assert(out@ =~= mid + escaped(c));
            assert(out@ + quoted_rest(cs@.skip(i + 1)) =~= mid + quoted_rest(rest));
        }
        i = i + 1;
    }
    out.push('"');
    proof {
        assert(out@ =~= all);
    }
}

/// Appends the key of a token.
fn push_token_key(out: &mut String, t: &Token)
    ensures
        final(out)@ == old(out)@ + token_key(t@),
{
    let ghost before = out@;
    out.push('T');
    push_quoted(out, t.type_.as_str());
    push_quoted(out, t.value.as_str());
    proof {
        assert(out@ =~= before + token_key(t@));
    }
}

/// Appends the key of a child.
fn push_child_key(out: &mut String, c: &Child)
    ensures
        final(out)@ == old(out)@ + child_key(c@),
    decreases *c,
{
    match c {
        Child::Token(t) => push_token_key(out, t),
        Child::Absent => {
            let ghost before = out@;
            out.push('N');
            proof {
                assert(out@ =~= before + seq!['N']);
            }
        },
        Child::Tree(t) => push_tree_key(out, t),
    }
}

/// Appends the key of a tree.
fn push_tree_key(out: &mut String, t: &Tree)
    ensures
        final(out)@ == old(out)@ + child_key(t@),
    decreases *t,
{
    let ghost before = out@;
    let ghost nodes = tree::child_nodes(t.children@);
    proof {
        tree::tree_node_children(*t);
    }
    out.push('(');
    push_quoted(out, t.data.as_str());
    let ghost all = before + child_key(t@);
    let mut i: usize = 0;
    proof {
        assert(out@ + list_key(nodes, 0) =~= all);
    }
    while i < t.children.len()
        invariant
            i <= t.children@.len(),
            nodes == tree::child_nodes(t.children@),
            out@ + list_key(nodes, i as nat) == all,
        decreases t.children.len() - i,
    {
        let ghost mid = out@;
        push_child_key(out, &t.children[i]);
        proof {
            assert(nodes[i as int] == t.children@[i as int]@);
            assert(out@ + list_key(nodes, (i + 1) as nat) =~= mid + list_key(nodes, i as nat));
        }
        i = i + 1;
    }
    out.push(')');
    proof {
        assert(out@ =~= all);
    }
}

/// The key of a value.
pub fn node_value_key(v: &Slot) -> (r: String)
    ensures
        r@ == value_key(v@),
{
    let mut out = String::new();
    match v {
        Slot::Token(t) => {
            push_token_key(&mut out, t);
            proof {
                assert(out@ =~= value_key(v@));
            }
        },
        Slot::Tree(t) => {
            push_tree_key(&mut out, t);
            proof {
                assert(out@ =~= value_key(v@));
            }
        },
        Slot::Inline(cs) => {
            let ghost nodes = tree::child_nodes(cs@);
            out.push('I');
            let mut i: usize = 0;
            proof {
                assert(out@ + list_key(nodes, 0) =~= value_key(v@));
            }
            while i < cs.len()
                invariant
                    i <= cs@.len(),
                    nodes == tree::child_nodes(cs@),
                    out@ + list_key(nodes, i as nat) == value_key(v@),
                decreases cs.len() - i,
            {
                let ghost mid = out@;
                push_child_key(&mut out, &cs[i]);
                proof {
                    assert(nodes[i as int] == cs@[i as int]@);
                    assert(out@ + list_key(nodes, (i + 1) as nat) =~= mid + list_key(
                        nodes,
                        i as nat,
                    ));
                }
                i = i + 1;
            }
            out.push(')');
            proof {
                assert(out@ =~= value_key(v@));
            }
        },
    }
    out
}

} // verus!
