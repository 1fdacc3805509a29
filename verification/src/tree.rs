//! Tokens, positions and parse trees.

use vstd::prelude::*;
use crate::symbols::SymbolId;
use crate::text::owned;

verus! {

/// A lexed token. Lines and columns count from 1; positions count characters
/// from 0.
#[derive(Debug)]
pub struct Token {
    pub type_id: SymbolId,
    pub type_: String,
    pub value: String,
    pub line: usize,
    pub column: usize,
    pub end_line: usize,
    pub end_column: usize,
    pub start_pos: usize,
    pub end_pos: usize,
}

/// The mathematical content of a token.
pub ghost struct TokenModel {
    pub type_id: SymbolId,
    pub type_: Seq<char>,
    pub value: Seq<char>,
    pub line: usize,
    pub column: usize,
    pub end_line: usize,
    pub end_column: usize,
    pub start_pos: usize,
    pub end_pos: usize,
}

impl View for Token {
    type V = TokenModel;

    open spec fn view(&self) -> TokenModel {
        TokenModel {
            type_id: self.type_id,
            type_: self.type_@,
            value: self.value@,
            line: self.line,
            column: self.column,
            end_line: self.end_line,
            end_column: self.end_column,
            start_pos: self.start_pos,
            end_pos: self.end_pos,
        }
    }
}

/// The contents of a list of tokens.
pub open spec fn token_models(s: Seq<Token>) -> Seq<TokenModel> {
    Seq::new(s.len(), |i: int| s[i]@)
}

/// A token of the given type and text, without a position.
pub open spec fn bare_token(type_id: SymbolId, type_: Seq<char>, value: Seq<char>) -> TokenModel {
    TokenModel {
        type_id,
        type_,
        value,
        line: 0,
        column: 0,
        end_line: 0,
        end_column: 0,
        start_pos: 0,
        end_pos: 0,
    }
}

/// The end-of-input token without a position.
pub open spec fn end_token() -> TokenModel {
    bare_token(SymbolId::end(), "$END"@, ""@)
}

impl Token {
    /// A token without an interned type and without a position.
    pub fn new(type_: &str, value: &str) -> (r: Token)
        ensures
            r@ == bare_token(SymbolId::unset(), type_@, value@),
    {
        Token {
            type_id: SymbolId::unset(),
            type_: owned(type_),
            value: owned(value),
            line: 0,
            column: 0,
            end_line: 0,
            end_column: 0,
            start_pos: 0,
            end_pos: 0,
        }
    }

    /// The end-of-input token without a position.
    pub fn end() -> (r: Token)
        ensures
            r@ == end_token(),
    {
        let mut r = Token::new("$END", "");
        r.type_id = SymbolId::end();
        r
    }

    /// The token at a position: its start and end are the same line and column.
    pub fn with_position(self, line: usize, column: usize, start_pos: usize, end_pos: usize) -> (r:
        Token)
        ensures
            r@ == (TokenModel {
                line,
                column,
                end_line: line,
                end_column: column,
                start_pos,
                end_pos,
                ..self@
            }),
    {
        let mut r = self;
        r.line = line;
        r.column = column;
        r.end_line = line;
        r.end_column = column;
        r.start_pos = start_pos;
        r.end_pos = end_pos;
        r
    }

    /// A copy.
    pub fn copy(&self) -> (r: Token)
        ensures
            r == *self,
    {
        Token {
            type_id: self.type_id,
            type_: self.type_.clone(),
            value: self.value.clone(),
            line: self.line,
            column: self.column,
            end_line: self.end_line,
            end_column: self.end_column,
            start_pos: self.start_pos,
            end_pos: self.end_pos,
        }
    }
}

/// The source span of a tree node. `empty` marks a node that no positioned
/// child bounds.
#[derive(Clone, Copy, PartialEq, Eq, Debug, Structural)]
pub struct Meta {
    pub line: Option<usize>,
    pub column: Option<usize>,
    pub end_line: Option<usize>,
    pub end_column: Option<usize>,
    pub start_pos: Option<usize>,
    pub end_pos: Option<usize>,
    pub empty: bool,
}

/// A span without any position.
pub open spec fn blank_meta() -> Meta {
    Meta {
        line: None,
        column: None,
        end_line: None,
        end_column: None,
        start_pos: None,
        end_pos: None,
        empty: true,
    }
}

/// The span of a token.
pub open spec fn token_meta(t: TokenModel) -> Meta {
    Meta {
        line: Some(t.line),
        column: Some(t.column),
        end_line: Some(t.end_line),
        end_column: Some(t.end_column),
        start_pos: Some(t.start_pos),
        end_pos: Some(t.end_pos),
        empty: false,
    }
}

impl Meta {
    /// A span without any position.
    pub fn blank() -> (r: Meta)
        ensures
            r == blank_meta(),
    {
        Meta {
            line: None,
            column: None,
            end_line: None,
            end_column: None,
            start_pos: None,
            end_pos: None,
            empty: true,
        }
    }
}

/// A tree node.
#[derive(Debug)]
pub struct Tree {
    pub data: String,
    pub children: Vec<Child>,
    pub meta: Meta,
}

/// A child of a tree node: a subtree, a token, or the mark of an absent
/// optional.
#[derive(Debug)]
pub enum Child {
    Tree(Tree),
    Token(Token),
    Absent,
}

/// The result of a parse.
#[derive(Debug)]
pub enum ParseTree {
    Tree(Tree),
    Token(Token),
    Absent,
}

/// The mathematical content of a child or of a parse result.
pub ghost enum Node {
    Tree { data: Seq<char>, children: Seq<Node>, meta: Meta },
    Token(TokenModel),
    Absent,
}

/// The content of a tree node.
pub open spec fn tree_node(t: Tree) -> Node
    decreases t,
{
    Node::Tree {
        data: t.data@,
        children: Seq::new(
            t.children@.len(),
            |i: int|
                if 0 <= i < t.children@.len() {
                    child_node(t.children@[i])
                } else {
                    Node::Absent
                },
        ),
        meta: t.meta,
    }
}

/// The content of a child.
pub open spec fn child_node(c: Child) -> Node
    decreases c,
{
    match c {
        Child::Tree(t) => tree_node(t),
        Child::Token(t) => Node::Token(t@),
        Child::Absent => Node::Absent,
    }
}

/// The contents of a list of children.
pub open spec fn child_nodes(s: Seq<Child>) -> Seq<Node> {
    Seq::new(s.len(), |i: int| child_node(s[i]))
}

impl View for Tree {
    type V = Node;

    open spec fn view(&self) -> Node {
        tree_node(*self)
    }
}

impl View for Child {
    type V = Node;

    open spec fn view(&self) -> Node {
        child_node(*self)
    }
}

impl View for ParseTree {
    type V = Node;

    open spec fn view(&self) -> Node {
        match *self {
            ParseTree::Tree(t) => tree_node(t),
            ParseTree::Token(t) => Node::Token(t@),
            ParseTree::Absent => Node::Absent,
        }
    }
}

/// A tree node's content lists its children's.
pub proof fn tree_node_children(t: Tree)
    ensures
        t@ == (Node::Tree { data: t.data@, children: child_nodes(t.children@), meta: t.meta }),
{
    assert(t@->children =~= child_nodes(t.children@));
}

/// The line of a child as a bound of its parent's span: a token without a line
/// gives none.
pub open spec fn node_line(n: Node) -> Option<usize> {
    match n {
        Node::Tree { data, children, meta } => meta.line,
        Node::Token(t) => if t.line > 0 {
            Some(t.line)
        } else {
            None
        },
        Node::Absent => None,
    }
}

/// The column that a node begins in.
pub open spec fn node_column(n: Node) -> Option<usize> {
    match n {
        Node::Tree { data, children, meta } => meta.column,
        Node::Token(t) => if t.column > 0 {
            Some(t.column)
        } else {
            None
        },
        Node::Absent => None,
    }
}

/// The place that a node begins at.
pub open spec fn node_start(n: Node) -> Option<usize> {
    match n {
        Node::Tree { data, children, meta } => meta.start_pos,
        Node::Token(t) => Some(t.start_pos),
        Node::Absent => None,
    }
}

/// The line that a node ends in.
pub open spec fn node_end_line(n: Node) -> Option<usize> {
    match n {
        Node::Tree { data, children, meta } => meta.end_line,
        Node::Token(t) => if t.end_line > 0 {
            Some(t.end_line)
        } else {
            None
        },
        Node::Absent => None,
    }
}

/// The column that a node ends in.
pub open spec fn node_end_column(n: Node) -> Option<usize> {
    match n {
        Node::Tree { data, children, meta } => meta.end_column,
        Node::Token(t) => if t.end_column > 0 {
            Some(t.end_column)
        } else {
            None
        },
        Node::Absent => None,
    }
}

/// The place that a node ends at.
pub open spec fn node_end(n: Node) -> Option<usize> {
    match n {
        Node::Tree { data, children, meta } => meta.end_pos,
        Node::Token(t) => Some(t.end_pos),
        Node::Absent => None,
    }
}

/// A deep copy of a list of children.
pub fn copy_children(v: &Vec<Child>) -> (r: Vec<Child>)
    ensures
        child_nodes(r@) == child_nodes(v@),
    decreases v,
{
    let mut r: Vec<Child> = Vec::new();
    let mut i: usize = 0;
    while i < v.len()
        invariant
            i <= v.len(),
            r@.len() == i,
            forall|k: int| 0 <= k < i ==> child_node(#[trigger] r@[k]) == child_node(v@[k]),
        decreases v.len() - i,
    {
        let c = copy_child(&v[i]);
        r.push(c);
        i = i + 1;
    }
    proof {
        assert(child_nodes(r@) =~= child_nodes(v@));
    }
    r
}

/// A deep copy of a child.
pub fn copy_child(c: &Child) -> (r: Child)
    ensures
        r@ == c@,
    decreases c,
{
    match c {
        Child::Tree(t) => Child::Tree(copy_tree(t)),
        Child::Token(t) => Child::Token(t.copy()),
        Child::Absent => Child::Absent,
    }
}

/// A deep copy of a tree.
pub fn copy_tree(t: &Tree) -> (r: Tree)
    ensures
        r@ == t@,
    decreases t,
{
    let r = Tree {
        data: t.data.clone(),
        children: copy_children(&t.children),
        meta: t.meta,
    };
    proof {
        tree_node_children(r);
        tree_node_children(*t);
    }
    r
}

impl ParseTree {
    /// A deep copy.
    pub fn copy(&self) -> (r: ParseTree)
        ensures
            r@ == self@,
    {
        match self {
            ParseTree::Tree(t) => ParseTree::Tree(copy_tree(t)),
            ParseTree::Token(t) => ParseTree::Token(t.copy()),
            ParseTree::Absent => ParseTree::Absent,
        }
    }

    /// The tree, unless the result is a token or absent.
    pub fn as_tree(&self) -> (r: Option<&Tree>)
        ensures
            match r {
                Some(t) => *self == ParseTree::Tree(*t),
                None => !(self is Tree),
            },
    {
        match self {
            ParseTree::Tree(t) => Some(t),
            _ => None,
        }
    }
}

impl Child {
    /// The subtree, unless the child is a token or absent.
    pub fn as_tree(&self) -> (r: Option<&Tree>)
        ensures
            match r {
                Some(t) => *self == Child::Tree(*t),
                None => !(self is Tree),
            },
    {
        match self {
            Child::Tree(t) => Some(t),
            _ => None,
        }
    }
}

} // verus!
