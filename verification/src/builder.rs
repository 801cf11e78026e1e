//! AST builder for constructing trees.

use vstd::prelude::*;
use crate::node::{AstNode, KindView, NodeId, NodeKind, NodeView, view_of};

verus! {

/// The node that `id` names in `arena`, if `id` is in bounds.
pub open spec fn node_at(arena: Seq<NodeView>, id: NodeId) -> Option<NodeView> {
    if id.0 < arena.len() {
        Some(arena[id.0 as int])
    } else {
        None
    }
}

/// The id that the next allocation in `arena` hands out: its length,
/// truncated to 32 bits.
pub open spec fn next_id(arena: Seq<NodeView>) -> NodeId {
    NodeId(arena.len() as u32)
}

/// `arena` after allocating a fresh node of kind `kind`: the node is
/// appended, carries the next id, and has no children and no parent.
pub open spec fn alloc_spec(arena: Seq<NodeView>, kind: KindView) -> Seq<NodeView> {
    arena.push(NodeView { id: next_id(arena), kind, children: seq![], parent: None })
}

/// `arena` after `parent` takes `child` as its last child and `child`
/// records `parent` as its parent; each half happens only where its id
/// is in bounds.
pub open spec fn add_child_spec(arena: Seq<NodeView>, parent: NodeId, child: NodeId) -> Seq<
    NodeView,
> {
    let a1 = if parent.0 < arena.len() {
        let p = arena[parent.0 as int];
        arena.update(parent.0 as int, NodeView { children: p.children.push(child), ..p })
    } else {
        arena
    };
    if child.0 < a1.len() {
        let c = a1[child.0 as int];
        a1.update(child.0 as int, NodeView { parent: Some(parent), ..c })
    } else {
        a1
    }
}

/// `arena` after `parent` takes each of `children` in turn, first to last.
pub open spec fn add_children_spec(arena: Seq<NodeView>, parent: NodeId, children: Seq<NodeId>) -> Seq<
    NodeView,
>
    decreases children.len(),
{
    if children.len() == 0 {
        arena
    } else {
        add_children_spec(
            add_child_spec(arena, parent, children[0]),
            parent,
            children.drop_first(),
        )
    }
}

/// Every node of `arena` carries its own position as its id.
pub open spec fn ids_at_positions(arena: Seq<NodeView>) -> bool {
    forall|i: int| 0 <= i < arena.len() ==> (#[trigger] arena[i]).id.0 == i
}

/// The kinds of the nodes of `arena`, position by position.
pub open spec fn kinds(arena: Seq<NodeView>) -> Seq<KindView> {
    arena.map_values(|v: NodeView| v.kind)
}

/// An allocation appends the fresh node; a read of the id it hands out
/// gives that node back (while ids fit in 32 bits), and every other node
/// stays as it was.
pub proof fn law_allocate_then_get(arena: Seq<NodeView>, kind: KindView)
    requires
        arena.len() <= u32::MAX,
    ensures
        next_id(arena).0 == arena.len(),
        node_at(alloc_spec(arena, kind), next_id(arena)) == Some(
            NodeView { id: next_id(arena), kind, children: seq![], parent: None },
        ),
        alloc_spec(arena, kind).len() == arena.len() + 1,
        forall|i: int| 0 <= i < arena.len() ==> #[trigger] alloc_spec(arena, kind)[i] == arena[i],
{
}

/// Linking a child to a parent: the parent's children gain the child at
/// the end, the child names the parent as its parent, and nothing else
/// changes; ids out of bounds are left alone.
pub proof fn law_add_child_links(arena: Seq<NodeView>, parent: NodeId, child: NodeId)
    ensures
        add_child_spec(arena, parent, child).len() == arena.len(),
        kinds(add_child_spec(arena, parent, child)) == kinds(arena),
        parent.0 < arena.len() ==> add_child_spec(arena, parent, child)[parent.0 as int].children
            == arena[parent.0 as int].children.push(child),
        child.0 < arena.len() ==> add_child_spec(arena, parent, child)[child.0 as int].parent == Some(
            parent,
        ),
        forall|i: int|
            0 <= i < arena.len() && i != parent.0 && i != child.0 ==> #[trigger] add_child_spec(
                arena,
                parent,
                child,
            )[i] == arena[i],
        forall|i: int|
            0 <= i < arena.len() && i != parent.0 ==> (#[trigger] add_child_spec(
                arena,
                parent,
                child,
            )[i]).children == arena[i].children,
        forall|i: int|
            0 <= i < arena.len() ==> (#[trigger] add_child_spec(arena, parent, child)[i]).id == arena[i].id,
{
    assert(kinds(add_child_spec(arena, parent, child)) =~= kinds(arena));
}

/// Linking several children to one parent: the parent's children gain
/// them in order at the end, no other node's kind or children change, and
/// every node keeps its id.
pub proof fn law_add_children_links(arena: Seq<NodeView>, parent: NodeId, children: Seq<NodeId>)
    ensures
        add_children_spec(arena, parent, children).len() == arena.len(),
        kinds(add_children_spec(arena, parent, children)) == kinds(arena),
        parent.0 < arena.len() ==> add_children_spec(arena, parent, children)[parent.0 as int].children
            == arena[parent.0 as int].children + children,
        forall|i: int|
            0 <= i < arena.len() && i != parent.0 ==> (#[trigger] add_children_spec(
                arena,
                parent,
                children,
            )[i]).children == arena[i].children,
        forall|i: int|
            0 <= i < arena.len() ==> (#[trigger] add_children_spec(arena, parent, children)[i]).id
                == arena[i].id,
    decreases children.len(),
{
    if children.len() == 0 {
        assert(arena[parent.0 as int].children + children =~= arena[parent.0 as int].children);
    } else {
        let a1 = add_child_spec(arena, parent, children[0]);
        law_add_child_links(arena, parent, children[0]);
        law_add_children_links(a1, parent, children.drop_first());
        if parent.0 < arena.len() {
            assert(arena[parent.0 as int].children.push(children[0]) + children.drop_first()
                =~= arena[parent.0 as int].children + children);
        }
        assert forall|i: int| 0 <= i < arena.len() && i != parent.0 implies (#[trigger] add_children_spec(
            arena,
            parent,
            children,
        )[i]).children == arena[i].children by {
            assert(a1[i].children == arena[i].children);
        }
        assert forall|i: int| 0 <= i < arena.len() implies (#[trigger] add_children_spec(
            arena,
            parent,
            children,
        )[i]).id == arena[i].id by {
            assert(a1[i].id == arena[i].id);
        }
    }
}

/// Every node carries its own position as its id, from the empty arena
/// on: an allocation (while ids fit in 32 bits) and linking children keep
/// it so.
pub proof fn law_ids_stay_at_positions(
    arena: Seq<NodeView>,
    kind: KindView,
    parent: NodeId,
    child: NodeId,
    children: Seq<NodeId>,
)
    requires
        ids_at_positions(arena),
    ensures
        ids_at_positions(Seq::<NodeView>::empty()),
        arena.len() <= u32::MAX ==> ids_at_positions(alloc_spec(arena, kind)),
        ids_at_positions(add_child_spec(arena, parent, child)),
        ids_at_positions(add_children_spec(arena, parent, children)),
{
    law_add_child_links(arena, parent, child);
    let a1 = add_child_spec(arena, parent, child);
    assert forall|i: int| 0 <= i < a1.len() implies (#[trigger] a1[i]).id.0 == i by {
        assert(a1[i].id == arena[i].id);
    }
    law_add_children_links(arena, parent, children);
    let a2 = add_children_spec(arena, parent, children);
    assert forall|i: int| 0 <= i < a2.len() implies (#[trigger] a2[i]).id.0 == i by {
        assert(a2[i].id == arena[i].id);
    }
}

/// An arena-based AST builder.
pub struct AstBuilder {
    nodes: Vec<AstNode>,
}

impl View for AstBuilder {
    type V = Seq<NodeView>;

    closed spec fn view(&self) -> Seq<NodeView> {
        view_of(self.nodes@)
    }
}

impl AstBuilder {
    /// Create a new empty AST builder.
    pub fn new() -> (r: Self)
        ensures
            r@ == Seq::<NodeView>::empty(),
    {
        let r = Self { nodes: Vec::new() };
        assert(r@ =~= Seq::<NodeView>::empty());
        r
    }

    /// Allocate a new node and return its ID.
    pub fn allocate(&mut self, kind: NodeKind) -> (id: NodeId)
        ensures
            id == next_id(old(self)@),
            final(self)@ == alloc_spec(old(self)@, kind@),
    {
        let id = NodeId::new(self.nodes.len() as u32);
        self.nodes.push(AstNode::new(id, kind));
        proof {
            assert(self@ =~= alloc_spec(old(self)@, kind@));
        }
        id
    }

    /// Create a module node.
    pub fn module(&mut self) -> (id: NodeId)
        ensures
            id == next_id(old(self)@),
            final(self)@ == alloc_spec(old(self)@, KindView::Module),
    {
        self.allocate(NodeKind::Module)
    }

    /// Create a function node.
    pub fn function(&mut self, name: &str) -> (id: NodeId)
        ensures
            id == next_id(old(self)@),
            final(self)@ == alloc_spec(old(self)@, KindView::Function { name: name@ }),
    {
        self.allocate(NodeKind::Function { name: name.to_string() })
    }

    /// Create a block node.
    pub fn block(&mut self) -> (id: NodeId)
        ensures
            id == next_id(old(self)@),
            final(self)@ == alloc_spec(old(self)@, KindView::Block),
    {
        self.allocate(NodeKind::Block)
    }

    /// Create a variable declaration.
    pub fn var_decl(&mut self, name: &str) -> (id: NodeId)
        ensures
            id == next_id(old(self)@),
            final(self)@ == alloc_spec(old(self)@, KindView::VarDecl { name: name@ }),
    {
        self.allocate(NodeKind::VarDecl { name: name.to_string() })
    }

    /// Create a binary operation.
    pub fn binary_op(&mut self, op: &str) -> (id: NodeId)
        ensures
            id == next_id(old(self)@),
            final(self)@ == alloc_spec(old(self)@, KindView::BinaryOp { op: op@ }),
    {
        self.allocate(NodeKind::BinaryOp { op: op.to_string() })
    }

    /// Create a unary operation.
    pub fn unary_op(&mut self, op: &str) -> (id: NodeId)
        ensures
            id == next_id(old(self)@),
            final(self)@ == alloc_spec(old(self)@, KindView::UnaryOp { op: op@ }),
    {
        self.allocate(NodeKind::UnaryOp { op: op.to_string() })
    }

    /// Create a literal.
    pub fn literal(&mut self, value: &str) -> (id: NodeId)
        ensures
            id == next_id(old(self)@),
            final(self)@ == alloc_spec(old(self)@, KindView::Literal { value: value@ }),
    {
        self.allocate(NodeKind::Literal { value: value.to_string() })
    }

    /// Create an identifier.
    pub fn ident(&mut self, name: &str) -> (id: NodeId)
        ensures
            id == next_id(old(self)@),
            final(self)@ == alloc_spec(old(self)@, KindView::Ident { name: name@ }),
    {
        self.allocate(NodeKind::Ident { name: name.to_string() })
    }

    /// Create a return node.
    pub fn return_stmt(&mut self) -> (id: NodeId)
        ensures
            id == next_id(old(self)@),
            final(self)@ == alloc_spec(old(self)@, KindView::Return),
    {
        self.allocate(NodeKind::Return)
    }

    /// Create an if node.
    pub fn if_stmt(&mut self) -> (id: NodeId)
        ensures
            id == next_id(old(self)@),
            final(self)@ == alloc_spec(old(self)@, KindView::If),
    {
        self.allocate(NodeKind::If)
    }

    /// Create a while node.
    pub fn while_loop(&mut self) -> (id: NodeId)
        ensures
            id == next_id(old(self)@),
            final(self)@ == alloc_spec(old(self)@, KindView::While),
    {
        self.allocate(NodeKind::While)
    }

    /// Add a child to a parent node.
    pub fn add_child(&mut self, parent: NodeId, child: NodeId)
        ensures
            final(self)@ == add_child_spec(old(self)@, parent, child),
    {
        let pi = parent.as_u32() as usize;
        if pi < self.nodes.len() {
            self.nodes[pi].add_child(child);
        }
        let ci = child.as_u32() as usize;
        if ci < self.nodes.len() {
            self.nodes[ci].parent = Some(parent);
        }
        proof {
            assert(self@ =~= add_child_spec(old(self)@, parent, child));
        }
    }

    /// Make each of `children`, first to last, a child of `parent`.
    pub(crate) fn add_children(&mut self, parent: NodeId, children: &Vec<NodeId>)
        ensures
            final(self)@ == add_children_spec(old(self)@, parent, children@),
    {
        let ghost cs = children@;
        let mut k: usize = 0;
        assert(cs.subrange(0, cs.len() as int) =~= cs);
        while k < children.len()
            invariant
                cs == children@,
                k <= cs.len(),
                add_children_spec(self@, parent, cs.subrange(k as int, cs.len() as int))
                    == add_children_spec(old(self)@, parent, cs),
            decreases cs.len() - k,
        {
            let ghost rest = cs.subrange(k as int, cs.len() as int);
            assert(rest[0] == cs[k as int]);
            assert(rest.drop_first() =~= cs.subrange(k + 1, cs.len() as int));
            self.add_child(parent, children[k]);
            k = k + 1;
        }
        assert(cs.subrange(k as int, cs.len() as int) =~= Seq::<NodeId>::empty());
    }

    /// Get a reference to a node.
    pub fn get(&self, id: NodeId) -> (r: Option<&AstNode>)
        ensures
            r is Some == (node_at(self@, id) is Some),
            r matches Some(n) ==> n@ == node_at(self@, id)->0,
    {
        let i = id.as_u32() as usize;
        if i < self.nodes.len() {
            Some(&self.nodes[i])
        } else {
            None
        }
    }

    /// Get a mutable reference to a node.
    pub fn get_mut(&mut self, id: NodeId) -> (r: Option<&mut AstNode>)
        ensures
            r is Some == (node_at(old(self)@, id) is Some),
            r is None ==> final(self)@ == old(self)@,
            r is Some ==> (*r.unwrap())@ == old(self)@[id.0 as int] && final(self)@ == old(
                self,
            )@.update(id.0 as int, (*final(r.unwrap()))@),
    {
        let i = id.as_u32() as usize;
        if i < self.nodes.len() {
            Some(&mut self.nodes[i])
        } else {
            None
        }
    }

    /// Total number of nodes allocated.
    pub fn len(&self) -> (r: usize)
        ensures
            r == self@.len(),
    {
        self.nodes.len()
    }

    /// Returns true if no nodes allocated.
    pub fn is_empty(&self) -> (r: bool)
        ensures
            r == (self@.len() == 0),
    {
        self.nodes.len() == 0
    }

    /// Returns the arena for traversal.
    pub fn arena(&self) -> (r: &[AstNode])
        ensures
            view_of(r@) == self@,
    {
        self.nodes.as_slice()
    }
}

impl Default for AstBuilder {
    fn default() -> (r: Self)
        ensures
            r@ == Seq::<NodeView>::empty(),
    {
        Self::new()
    }
}

} // verus!
