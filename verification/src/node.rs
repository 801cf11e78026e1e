//! AST node types.

use vstd::prelude::*;
use std::cmp::Ordering;
use vstd::std_specs::cmp::PartialOrdSpecImpl;

verus! {

/// Unique identifier for a node in the AST.
#[derive(Clone, Copy, PartialEq, Eq, Structural, Hash, Debug, Ord)]
pub struct NodeId(pub u32);

/// Ids compare as their numbers do.
impl PartialOrd for NodeId {
    fn partial_cmp(&self, other: &NodeId) -> (r: Option<Ordering>) {
        if self.0 < other.0 {
            Some(Ordering::Less)
        } else if self.0 > other.0 {
            Some(Ordering::Greater)
        } else {
            Some(Ordering::Equal)
        }
    }
}

impl PartialOrdSpecImpl for NodeId {
    open spec fn obeys_partial_cmp_spec() -> bool {
        true
    }

    open spec fn partial_cmp_spec(&self, other: &NodeId) -> Option<Ordering> {
        if self.0 < other.0 {
            Some(Ordering::Less)
        } else if self.0 > other.0 {
            Some(Ordering::Greater)
        } else {
            Some(Ordering::Equal)
        }
    }
}

impl NodeId {
    /// The number carried by this id, as a mathematical integer.
    pub open spec fn index(self) -> int {
        self.0 as int
    }

    /// Make an id from its raw number.
    pub fn new(id: u32) -> (r: Self)
        ensures
            r.0 == id,
    {
        Self(id)
    }

    /// Returns the raw id.
    pub fn as_u32(self) -> (r: u32)
        ensures
            r == self.0,
    {
        self.0
    }
}

/// The kind of an AST node.
#[derive(Debug, PartialEq, Eq)]
pub enum NodeKind {
    /// Root/module node.
    Module,
    /// Function definition.
    Function { name: String },
    /// Block of statements.
    Block,
    /// Variable declaration.
    VarDecl { name: String },
    /// Binary expression.
    BinaryOp { op: String },
    /// Unary expression.
    UnaryOp { op: String },
    /// Literal value.
    Literal { value: String },
    /// Identifier reference.
    Ident { name: String },
    /// Return statement.
    Return,
    /// If expression/statement.
    If,
    /// While loop.
    While,
}

/// A `NodeKind` seen as a mathematical value: each string by its characters.
pub enum KindView {
    Module,
    Function { name: Seq<char> },
    Block,
    VarDecl { name: Seq<char> },
    BinaryOp { op: Seq<char> },
    UnaryOp { op: Seq<char> },
    Literal { value: Seq<char> },
    Ident { name: Seq<char> },
    Return,
    If,
    While,
}

impl View for NodeKind {
    type V = KindView;

    open spec fn view(&self) -> KindView {
        match self {
            NodeKind::Module => KindView::Module,
            NodeKind::Function { name } => KindView::Function { name: name@ },
            NodeKind::Block => KindView::Block,
            NodeKind::VarDecl { name } => KindView::VarDecl { name: name@ },
            NodeKind::BinaryOp { op } => KindView::BinaryOp { op: op@ },
            NodeKind::UnaryOp { op } => KindView::UnaryOp { op: op@ },
            NodeKind::Literal { value } => KindView::Literal { value: value@ },
            NodeKind::Ident { name } => KindView::Ident { name: name@ },
            NodeKind::Return => KindView::Return,
            NodeKind::If => KindView::If,
            NodeKind::While => KindView::While,
        }
    }
}

impl Clone for NodeKind {
    fn clone(&self) -> (r: NodeKind)
        ensures
            r == *self,
    {
        match self {
            NodeKind::Module => NodeKind::Module,
            NodeKind::Function { name } => NodeKind::Function { name: name.clone() },
            NodeKind::Block => NodeKind::Block,
            NodeKind::VarDecl { name } => NodeKind::VarDecl { name: name.clone() },
            NodeKind::BinaryOp { op } => NodeKind::BinaryOp { op: op.clone() },
            NodeKind::UnaryOp { op } => NodeKind::UnaryOp { op: op.clone() },
            NodeKind::Literal { value } => NodeKind::Literal { value: value.clone() },
            NodeKind::Ident { name } => NodeKind::Ident { name: name.clone() },
            NodeKind::Return => NodeKind::Return,
            NodeKind::If => NodeKind::If,
            NodeKind::While => NodeKind::While,
        }
    }
}

/// The name that a kind carries, if it is a function, a variable
/// declaration or an identifier.
pub open spec fn kind_name(k: KindView) -> Option<Seq<char>> {
    match k {
        KindView::Function { name } => Some(name),
        KindView::VarDecl { name } => Some(name),
        KindView::Ident { name } => Some(name),
        _ => None,
    }
}

/// An `AstNode` seen as a mathematical value.
pub struct NodeView {
    pub id: NodeId,
    pub kind: KindView,
    pub children: Seq<NodeId>,
    pub parent: Option<NodeId>,
}

/// The views of a sequence of nodes, position by position.
pub open spec fn view_of(nodes: Seq<AstNode>) -> Seq<NodeView> {
    nodes.map_values(|n: AstNode| n@)
}

/// An AST node with children.
#[derive(Clone, Debug)]
pub struct AstNode {
    pub id: NodeId,
    pub kind: NodeKind,
    pub children: Vec<NodeId>,
    pub parent: Option<NodeId>,
}

impl View for AstNode {
    type V = NodeView;

    open spec fn view(&self) -> NodeView {
        NodeView {
            id: self.id,
            kind: self.kind@,
            children: self.children@,
            parent: self.parent,
        }
    }
}

impl AstNode {
    /// Create a new AST node.
    pub fn new(id: NodeId, kind: NodeKind) -> (r: Self)
        ensures
            r.id == id,
            r.kind == kind,
            r.children@ == Seq::<NodeId>::empty(),
            r.parent is None,
    {
        Self { id, kind, children: Vec::new(), parent: None }
    }

    /// Add a child to this node.
    pub fn add_child(&mut self, child: NodeId)
        ensures
            final(self).children@ == old(self).children@.push(child),
            final(self).id == old(self).id,
            final(self).kind == old(self).kind,
            final(self).parent == old(self).parent,
    {
        self.children.push(child);
    }

    /// Number of children.
    pub fn child_count(&self) -> (r: usize)
        ensures
            r == self.children@.len(),
    {
        self.children.len()
    }

    /// Returns true if this node has no children.
    pub fn is_leaf(&self) -> (r: bool)
        ensures
            r == (self.children@.len() == 0),
    {
        self.children.len() == 0
    }

    /// Check if this node matches a specific kind pattern.
    pub fn is_function(&self) -> (r: bool)
        ensures
            r == (self.kind is Function),
    {
        match self.kind {
            NodeKind::Function { .. } => true,
            _ => false,
        }
    }

    /// Check if this is a literal node.
    pub fn is_literal(&self) -> (r: bool)
        ensures
            r == (self.kind is Literal),
    {
        match self.kind {
            NodeKind::Literal { .. } => true,
            _ => false,
        }
    }

    /// Get the node name if it has one.
    pub fn name(&self) -> (r: Option<&str>)
        ensures
            r is Some == kind_name(self.kind@) is Some,
            r matches Some(s) ==> s@ == kind_name(self.kind@)->0,
    {
        match &self.kind {
            NodeKind::Function { name } => Some(name.as_str()),
            NodeKind::VarDecl { name } => Some(name.as_str()),
            NodeKind::Ident { name } => Some(name.as_str()),
            _ => None,
        }
    }
}

} // verus!
