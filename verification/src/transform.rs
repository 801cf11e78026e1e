//! AST transformation utilities.

use vstd::prelude::*;
use crate::builder::{
    AstBuilder, add_child_spec, add_children_spec, alloc_spec, ids_at_positions, kinds,
    law_add_child_links, law_add_children_links, next_id, node_at,
};
use crate::node::{KindView, NodeId, NodeKind, NodeView};
use crate::traversal::{bounded, bounded_list, finite_from, preorder, preorder_list};

verus! {

/// A transformation that can modify an AST.
pub trait Transform {
    /// What transforming the node `id` makes of `arena`: the arena
    /// afterwards and the id handed back.
    spec fn transformed(&self, arena: Seq<NodeView>, id: NodeId) -> (Seq<NodeView>, NodeId);

    /// Transform a node. Returns the (possibly new) node ID.
    fn transform(&self, builder: &mut AstBuilder, id: NodeId) -> (r: NodeId)
        ensures
            (final(builder)@, r) == self.transformed(old(builder)@, id),
    ;
}

/// Replacing the literal `id` in `arena` by a fresh literal of value
/// `value`: the fresh literal takes over the old node's children (which
/// then name it as parent) and is handed back; any other id is handed
/// back with the arena unchanged.
pub open spec fn literal_replaced(arena: Seq<NodeView>, id: NodeId, value: Seq<char>) -> (
    Seq<NodeView>,
    NodeId,
) {
    match node_at(arena, id) {
        Some(node) => if node.kind is Literal {
            (
                add_children_spec(
                    alloc_spec(arena, KindView::Literal { value }),
                    next_id(arena),
                    node.children,
                ),
                next_id(arena),
            )
        } else {
            (arena, id)
        },
        None => (arena, id),
    }
}

/// Wrapping the non-block children of the function `id` in a block: a
/// fresh block, then a fresh function node of the same kind. The fresh
/// function's children are the fresh block followed by the old node's
/// block children, in order; the fresh block's children are the old
/// node's other children, in order; and the fresh function is handed back.
/// A function whose children are all blocks (and which has at least one)
/// has nothing to wrap, and like any id that is not a function it is
/// handed back with the arena unchanged.
pub open spec fn block_ensured(arena: Seq<NodeView>, id: NodeId) -> (Seq<NodeView>, NodeId) {
    match node_at(arena, id) {
        Some(node) => if node.kind is Function && needs_block(arena, node.children) {
            let a1 = alloc_spec(arena, KindView::Block);
            let a2 = alloc_spec(a1, node.kind);
            let block = next_id(arena);
            let func = next_id(a1);
            (
                add_children_spec(
                    add_children_spec(
                        add_child_spec(a2, func, block),
                        func,
                        blocks_of(arena, node.children),
                    ),
                    block,
                    non_blocks_of(arena, node.children),
                ),
                func,
            )
        } else {
            (arena, id)
        },
        None => (arena, id),
    }
}

/// A transformation that replaces all literals with a new value.
pub struct ReplaceLiterals {
    pub new_value: String,
}

impl Transform for ReplaceLiterals {
    /// A literal node is replaced by a fresh literal that carries
    /// `new_value`; see `literal_replaced`.
    open spec fn transformed(&self, arena: Seq<NodeView>, id: NodeId) -> (Seq<NodeView>, NodeId) {
        literal_replaced(arena, id, self.new_value@)
    }

    fn transform(&self, builder: &mut AstBuilder, id: NodeId) -> (r: NodeId) {
        let children = match builder.get(id) {
            Some(n) => {
                if n.is_literal() {
                    n.children.clone()
                } else {
                    return id;
                }
            },
            None => {
                return id;
            },
        };
        let new_id = builder.literal(self.new_value.as_str());
        builder.add_children(new_id, &children);
        new_id
    }
}

/// A transformation that wraps each function's non-block children in a block.
pub struct EnsureBlock;

/// Whether the node `id` names in `arena` is a block.
pub open spec fn is_block_at(arena: Seq<NodeView>, id: NodeId) -> bool {
    node_at(arena, id) matches Some(node) && node.kind is Block
}

/// Those of `ids` that name blocks in `arena`, in order.
pub open spec fn blocks_of(arena: Seq<NodeView>, ids: Seq<NodeId>) -> Seq<NodeId>
    decreases ids.len(),
{
    if ids.len() == 0 {
        seq![]
    } else {
        blocks_of(arena, ids.drop_last()) + if is_block_at(arena, ids.last()) {
            seq![ids.last()]
        } else {
            seq![]
        }
    }
}

/// Those of `ids` that do not name blocks in `arena`, in order.
pub open spec fn non_blocks_of(arena: Seq<NodeView>, ids: Seq<NodeId>) -> Seq<NodeId>
    decreases ids.len(),
{
    if ids.len() == 0 {
        seq![]
    } else {
        non_blocks_of(arena, ids.drop_last()) + if is_block_at(arena, ids.last()) {
            seq![]
        } else {
            seq![ids.last()]
        }
    }
}

/// Whether a function with children `ids` gets a block: it has a child
/// that is not a block, or no children at all.
pub open spec fn needs_block(arena: Seq<NodeView>, ids: Seq<NodeId>) -> bool {
    ids.len() == 0 || non_blocks_of(arena, ids).len() > 0
}

impl Transform for EnsureBlock {
    /// A function node's non-block children are wrapped in a fresh
    /// block under a fresh function node; see `block_ensured`.
    open spec fn transformed(&self, arena: Seq<NodeView>, id: NodeId) -> (Seq<NodeView>, NodeId) {
        block_ensured(arena, id)
    }

    fn transform(&self, builder: &mut AstBuilder, id: NodeId) -> (r: NodeId) {
        let (kind, children) = match builder.get(id) {
            Some(n) => (n.kind.clone(), n.children.clone()),
            None => {
                return id;
            },
        };
        let ghost a = builder@;
        match &kind {
            NodeKind::Function { name } => {
                let mut blocks: Vec<NodeId> = Vec::new();
                let mut others: Vec<NodeId> = Vec::new();
                let mut k: usize = 0;
                while k < children.len()
                    invariant
                        a == builder@,
                        k <= children@.len(),
                        blocks@ == blocks_of(a, children@.take(k as int)),
                        others@ == non_blocks_of(a, children@.take(k as int)),
                    decreases children@.len() - k,
                {
                    let c = children[k];
                    let is_block = match builder.get(c) {
                        Some(n) => match n.kind {
                            NodeKind::Block => true,
                            _ => false,
                        },
                        None => false,
                    };
                    assert(is_block == is_block_at(a, children@[k as int]));
                    let ghost upto = children@.take(k + 1);
                    assert(upto.drop_last() =~= children@.take(k as int));
                    assert(upto.last() == c);
                    if is_block {
                        blocks.push(c);
                        assert(others@ =~= non_blocks_of(a, upto));
                    } else {
                        others.push(c);
                        assert(blocks@ =~= blocks_of(a, upto));
                    }
                    k = k + 1;
                }
                assert(children@.take(k as int) =~= children@);
                if children.len() == 0 || others.len() > 0 {
                    let block = builder.block();
                    let func = builder.function(name.as_str());
                    builder.add_child(func, block);
                    builder.add_children(func, &blocks);
                    builder.add_children(block, &others);
                    return func;
                }
            },
            _ => {},
        }
        id
    }
}

/// Every node reachable from `id` in `arena` is present, and every walk
/// down from `id` meets at most `n` nodes.
pub open spec fn complete(arena: Seq<NodeView>, id: NodeId, n: nat) -> bool
    decreases n, 0nat,
{
    match node_at(arena, id) {
        None => false,
        Some(node) => n > 0 && complete_list(arena, node.children, (n - 1) as nat),
    }
}

/// Each of `ids` is `complete` within `n`.
pub open spec fn complete_list(arena: Seq<NodeView>, ids: Seq<NodeId>, n: nat) -> bool
    decreases n, ids.len() + 1,
{
    ids.len() == 0 || (complete(arena, ids[0], n) && complete_list(arena, ids.drop_first(), n))
}

/// `target` after copying the subtree under `id` in `source` into it,
/// and the id of the copy's root: the root is allocated first with the
/// source node's kind, then each child's subtree is copied in turn and
/// attached to it.
pub open spec fn clone_into(target: Seq<NodeView>, source: Seq<NodeView>, id: NodeId, n: nat) -> (
    Seq<NodeView>,
    NodeId,
)
    decreases n, 0nat,
{
    match node_at(source, id) {
        Some(node) => if n > 0 {
            let t1 = alloc_spec(target, node.kind);
            (clone_children(t1, source, node.children, next_id(target), (n - 1) as nat), next_id(target))
        } else {
            (target, next_id(target))
        },
        None => (target, next_id(target)),
    }
}

/// `target` after copying the subtree of each of `ids` in turn and
/// attaching each copy to `parent`.
pub open spec fn clone_children(
    target: Seq<NodeView>,
    source: Seq<NodeView>,
    ids: Seq<NodeId>,
    parent: NodeId,
    n: nat,
) -> Seq<NodeView>
    decreases n, ids.len() + 1,
{
    if ids.len() == 0 {
        target
    } else {
        let (t1, c) = clone_into(target, source, ids[0], n);
        clone_children(add_child_spec(t1, parent, c), source, ids.drop_first(), parent, n)
    }
}

fn deep_clone_rec(target: &mut AstBuilder, source: &AstBuilder, id: NodeId, Ghost(n): Ghost<nat>) -> (r: NodeId)
    requires
        complete(source@, id, n),
    ensures
        (final(target)@, r) == clone_into(old(target)@, source@, id, n),
    decreases n,
{
    let node = source.get(id).unwrap();
    let kind = node.kind.clone();
    let children = node.children.clone();
    let new_id = target.allocate(kind);
    let ghost kids = children@;
    let ghost t1 = target@;
    assert(kids.subrange(0, kids.len() as int) =~= kids);
    let mut k: usize = 0;
    while k < children.len()
        invariant
            kids == children@,
            kids == node_at(source@, id)->0.children,
            n > 0,
            k <= kids.len(),
            complete_list(source@, kids.subrange(k as int, kids.len() as int), (n - 1) as nat),
            clone_children(target@, source@, kids.subrange(k as int, kids.len() as int), new_id, (n - 1) as nat)
                == clone_children(t1, source@, kids, new_id, (n - 1) as nat),
        decreases kids.len() - k,
    {
        let ghost rest = kids.subrange(k as int, kids.len() as int);
        assert(rest[0] == kids[k as int]);
        assert(rest.drop_first() =~= kids.subrange(k + 1, kids.len() as int));
        let new_child = deep_clone_rec(target, source, children[k], Ghost((n - 1) as nat));
        target.add_child(new_id, new_child);
        k = k + 1;
    }
    assert(kids.subrange(k as int, kids.len() as int) =~= Seq::<NodeId>::empty());
    new_id
}

/// Deep-clone a subtree from one builder into another, returning the new root ID.
pub fn deep_clone(target: &mut AstBuilder, source: &AstBuilder, id: NodeId) -> (r: NodeId)
    requires
        complete(source@, id, source@.len()),
    ensures
        (final(target)@, r) == clone_into(old(target)@, source@, id, source@.len()),
{
    deep_clone_rec(target, source, id, Ghost(source@.len()))
}

/// Replacing a literal: the node handed back is a literal with the new
/// value whose children are the old node's children, and no other node's
/// kind or children change (while ids fit in 32 bits).
pub proof fn law_replaced_literal(arena: Seq<NodeView>, id: NodeId, value: Seq<char>)
    requires
        arena.len() <= u32::MAX,
        node_at(arena, id) matches Some(node) && node.kind is Literal,
    ensures
        ({
            let node = node_at(arena, id)->0;
            let fresh = next_id(arena);
            let after = add_children_spec(
                alloc_spec(arena, KindView::Literal { value }),
                fresh,
                node.children,
            );
            &&& fresh.0 == arena.len()
            &&& after.len() == arena.len() + 1
            &&& after[arena.len() as int].kind == KindView::Literal { value }
            &&& after[arena.len() as int].children == node.children
            &&& forall|i: int|
                0 <= i < arena.len() ==> #[trigger] after[i].kind == arena[i].kind
                    && after[i].children == arena[i].children
        }),
{
    let node = node_at(arena, id)->0;
    let a1 = alloc_spec(arena, KindView::Literal { value });
    law_add_children_links(a1, next_id(arena), node.children);
    let after = add_children_spec(a1, next_id(arena), node.children);
    assert(kinds(after)[arena.len() as int] == kinds(a1)[arena.len() as int]);
    assert(seq![] + node.children =~= node.children);
    assert forall|i: int| 0 <= i < arena.len() implies #[trigger] after[i].kind == arena[i].kind
        && after[i].children == arena[i].children by {
        assert(kinds(after)[i] == kinds(a1)[i]);
    }
}

/// Replacing literals leaves every other node alone: for an id that does
/// not name a literal (another kind of node, or an id out of bounds), the
/// transform hands the same id back and the arena is unchanged, whatever
/// the new value. Only a literal is replaced, by a node with a fresh id.
pub proof fn law_replace_leaves_non_literals(t: ReplaceLiterals, arena: Seq<NodeView>, id: NodeId)
    requires
        arena.len() <= u32::MAX,
    ensures
        !(node_at(arena, id) matches Some(node) && node.kind is Literal) ==> t.transformed(arena, id)
            == (arena, id),
        (node_at(arena, id) matches Some(node) && node.kind is Literal) ==> {
            &&& t.transformed(arena, id).1 != id
            &&& t.transformed(arena, id).1.0 == arena.len()
            &&& t.transformed(arena, id).0.len() == arena.len() + 1
        },
{
    if node_at(arena, id) matches Some(node) && node.kind is Literal {
        law_replaced_literal(arena, id, t.new_value@);
    }
}

proof fn lemma_blocks_of_are_blocks(arena: Seq<NodeView>, ids: Seq<NodeId>)
    ensures
        forall|k: int|
            0 <= k < blocks_of(arena, ids).len() ==> is_block_at(arena, #[trigger] blocks_of(arena, ids)[k]),
    decreases ids.len(),
{
    if ids.len() > 0 {
        lemma_blocks_of_are_blocks(arena, ids.drop_last());
        let front = blocks_of(arena, ids.drop_last());
        assert forall|k: int| 0 <= k < blocks_of(arena, ids).len() implies is_block_at(
            arena,
            #[trigger] blocks_of(arena, ids)[k],
        ) by {
            if k < front.len() {
                assert(blocks_of(arena, ids)[k] == front[k]);
            }
        }
    }
}

/// Splitting children into blocks and the rest loses and adds nothing:
/// together the two parts hold each of `ids` as often as `ids` does, so
/// their lengths add up to its length; every id that names a block is
/// among the blocks and every other id among the rest, and the rest holds
/// no block.
pub proof fn law_blocks_split_children(arena: Seq<NodeView>, ids: Seq<NodeId>)
    ensures
        (blocks_of(arena, ids) + non_blocks_of(arena, ids)).to_multiset() == ids.to_multiset(),
        blocks_of(arena, ids).len() + non_blocks_of(arena, ids).len() == ids.len(),
        forall|k: int|
            0 <= k < ids.len() ==> (if is_block_at(arena, #[trigger] ids[k]) {
                blocks_of(arena, ids).contains(ids[k])
            } else {
                non_blocks_of(arena, ids).contains(ids[k])
            }),
        forall|k: int|
            0 <= k < non_blocks_of(arena, ids).len() ==> !is_block_at(
                arena,
                #[trigger] non_blocks_of(arena, ids)[k],
            ),
    decreases ids.len(),
{
    broadcast use vstd::seq_lib::group_to_multiset_ensures;
    broadcast use vstd::multiset::group_multiset_axioms;

    let bs = blocks_of(arena, ids);
    let os = non_blocks_of(arena, ids);
    vstd::seq_lib::lemma_multiset_commutative(bs, os);
    if ids.len() == 0 {
        assert(bs.to_multiset() =~= vstd::multiset::Multiset::empty());
        assert(os.to_multiset() =~= vstd::multiset::Multiset::empty());
        assert(ids.to_multiset() =~= vstd::multiset::Multiset::empty());
        assert((bs + os).to_multiset() =~= ids.to_multiset());
    } else {
        let front = ids.drop_last();
        let x = ids.last();
        law_blocks_split_children(arena, front);
        let bf = blocks_of(arena, front);
        let of = non_blocks_of(arena, front);
        vstd::seq_lib::lemma_multiset_commutative(bf, of);
        assert(ids =~= front.push(x));
        if is_block_at(arena, x) {
            assert(bs =~= bf.push(x));
            assert(os =~= of);
            assert(bs.to_multiset().add(os.to_multiset()) =~= bf.to_multiset().add(
                of.to_multiset(),
            ).insert(x));
        } else {
            assert(bs =~= bf);
            assert(os =~= of.push(x));
            assert(bs.to_multiset().add(os.to_multiset()) =~= bf.to_multiset().add(
                of.to_multiset(),
            ).insert(x));
        }
        assert((bs + os).to_multiset() =~= ids.to_multiset());
        assert forall|k: int| 0 <= k < ids.len() implies (if is_block_at(arena, #[trigger] ids[k]) {
            bs.contains(ids[k])
        } else {
            os.contains(ids[k])
        }) by {
            if k < front.len() {
                assert(ids[k] == front[k]);
                if is_block_at(arena, ids[k]) {
                    let j = choose|j: int| 0 <= j < bf.len() && bf[j] == ids[k];
                    assert(bs[j] == bf[j]);
                } else {
                    let j = choose|j: int| 0 <= j < of.len() && of[j] == ids[k];
                    assert(os[j] == of[j]);
                }
            } else {
                assert(ids[k] == x);
                if is_block_at(arena, x) {
                    assert(bs[bs.len() - 1] == x);
                } else {
                    assert(os[os.len() - 1] == x);
                }
            }
        }
        assert forall|k: int| 0 <= k < os.len() implies !is_block_at(arena, #[trigger] os[k]) by {
            if k < of.len() {
                assert(os[k] == of[k]);
            }
        }
    }
}

/// Ensuring blocks leaves alone what needs no block: an id out of bounds,
/// a node that is not a function, and a function all of whose children
/// (at least one) are blocks are handed back with the arena unchanged.
pub proof fn law_ensure_block_leaves_others(arena: Seq<NodeView>, id: NodeId)
    requires
        node_at(arena, id) matches Some(node) ==> (node.kind is Function ==> (node.children.len() > 0
            && forall|k: int|
            0 <= k < node.children.len() ==> is_block_at(arena, #[trigger] node.children[k]))),
    ensures
        EnsureBlock.transformed(arena, id) == (arena, id),
{
    broadcast use vstd::seq_lib::group_to_multiset_ensures;
    broadcast use vstd::multiset::group_multiset_axioms;

    if node_at(arena, id) is Some && node_at(arena, id)->0.kind is Function {
        let ids = node_at(arena, id)->0.children;
        law_blocks_split_children(arena, ids);
        let bs = blocks_of(arena, ids);
        let os = non_blocks_of(arena, ids);
        if os.len() > 0 {
            let e = os[0];
            assert(!is_block_at(arena, e));
            vstd::seq_lib::lemma_multiset_commutative(bs, os);
            assert((bs + os)[bs.len() as int] == e);
            assert((bs + os).contains(e));
            assert((bs + os).to_multiset().count(e) > 0);
            assert(ids.to_multiset().count(e) > 0);
            assert(ids.contains(e));
            let j = choose|j: int| 0 <= j < ids.len() && ids[j] == e;
            assert(is_block_at(arena, ids[j]));
        }
    }
}

/// Wrapping a function's non-block children: the fresh function has the
/// old function's kind, and its children are the fresh block followed by
/// the old block children, so every child of it is a block; the fresh
/// block holds every old child that is not a block, in order; so every
/// old child ends up under the fresh function, directly or in the fresh
/// block, as often as it was a child before (while ids fit in 32 bits).
pub proof fn law_block_wraps_children(arena: Seq<NodeView>, id: NodeId)
    requires
        arena.len() < u32::MAX,
        node_at(arena, id) matches Some(node) && node.kind is Function && needs_block(
            arena,
            node.children,
        ),
    ensures
        ({
            let node = node_at(arena, id)->0;
            let (after, func) = block_ensured(arena, id);
            let block = next_id(arena);
            &&& block.0 == arena.len()
            &&& func.0 == arena.len() + 1
            &&& after.len() == arena.len() + 2
            &&& after[func.0 as int].kind == node.kind
            &&& after[func.0 as int].children == seq![block] + blocks_of(arena, node.children)
            &&& forall|k: int|
                0 <= k < after[func.0 as int].children.len() ==> is_block_at(
                    after,
                    #[trigger] after[func.0 as int].children[k],
                )
            &&& after[block.0 as int].kind == KindView::Block
            &&& after[block.0 as int].children == non_blocks_of(arena, node.children)
            &&& (after[func.0 as int].children.drop_first() + after[block.0 as int].children).to_multiset()
                == node.children.to_multiset()
            &&& forall|k: int|
                0 <= k < node.children.len() ==> after[func.0 as int].children.contains(
                    #[trigger] node.children[k],
                ) || after[block.0 as int].children.contains(node.children[k])
        }),
{
    let node = node_at(arena, id)->0;
    let a1 = alloc_spec(arena, KindView::Block);
    let a2 = alloc_spec(a1, node.kind);
    let block = next_id(arena);
    let func = next_id(a1);
    let bs = blocks_of(arena, node.children);
    let os = non_blocks_of(arena, node.children);
    let a3 = add_child_spec(a2, func, block);
    law_add_child_links(a2, func, block);
    let a4 = add_children_spec(a3, func, bs);
    law_add_children_links(a3, func, bs);
    let after = add_children_spec(a4, block, os);
    law_add_children_links(a4, block, os);
    lemma_blocks_of_are_blocks(arena, node.children);
    assert(kinds(after)[func.0 as int] == kinds(a2)[func.0 as int]);
    assert(kinds(after)[block.0 as int] == kinds(a2)[block.0 as int]);
    assert(seq![] + os =~= os);
    assert(Seq::<NodeId>::empty().push(block) =~= seq![block]);
    assert(after[func.0 as int].children == seq![block] + bs);
    law_blocks_split_children(arena, node.children);
    assert(after[func.0 as int].children.drop_first() =~= bs);
    assert forall|k: int| 0 <= k < node.children.len() implies after[func.0 as int].children.contains(
        #[trigger] node.children[k],
    ) || after[block.0 as int].children.contains(node.children[k]) by {
        if is_block_at(arena, node.children[k]) {
            let j = choose|j: int| 0 <= j < bs.len() && bs[j] == node.children[k];
            assert(after[func.0 as int].children[j + 1] == bs[j]);
        }
    }
    assert forall|k: int| 0 <= k < after[func.0 as int].children.len() implies is_block_at(
        after,
        #[trigger] after[func.0 as int].children[k],
    ) by {
        let c = after[func.0 as int].children[k];
        if k == 0 {
            assert(c == block);
        } else {
            assert(c == bs[k - 1]);
            assert(is_block_at(arena, bs[k - 1]));
            assert(kinds(after)[c.0 as int] == kinds(a2)[c.0 as int]);
            assert(a2[c.0 as int] == arena[c.0 as int]);
        }
    }
}

/// The kinds of the nodes that `ids` name in `arena`.
pub open spec fn kinds_of(arena: Seq<NodeView>, ids: Seq<NodeId>) -> Seq<KindView> {
    ids.map_values(|x: NodeId| arena[x.0 as int].kind)
}

proof fn lemma_clone_kinds(target: Seq<NodeView>, source: Seq<NodeView>, id: NodeId, n: nat)
    requires
        complete(source, id, n),
    ensures
        kinds(clone_into(target, source, id, n).0) == kinds(target) + kinds_of(
            source,
            preorder(source, id, n),
        ),
    decreases n, 0nat,
{
    let node = node_at(source, id)->0;
    let t1 = alloc_spec(target, node.kind);
    lemma_clone_children_kinds(t1, source, node.children, next_id(target), (n - 1) as nat);
    assert(kinds(t1) =~= kinds(target).push(node.kind));
    assert(kinds_of(source, preorder(source, id, n)) =~= seq![node.kind] + kinds_of(
        source,
        preorder_list(source, node.children, (n - 1) as nat),
    ));
    assert(kinds(clone_into(target, source, id, n).0) =~= kinds(target) + kinds_of(
        source,
        preorder(source, id, n),
    ));
}

proof fn lemma_clone_children_kinds(
    target: Seq<NodeView>,
    source: Seq<NodeView>,
    ids: Seq<NodeId>,
    parent: NodeId,
    n: nat,
)
    requires
        complete_list(source, ids, n),
    ensures
        kinds(clone_children(target, source, ids, parent, n)) == kinds(target) + kinds_of(
            source,
            preorder_list(source, ids, n),
        ),
    decreases n, ids.len() + 1,
{
    if ids.len() == 0 {
        assert(kinds(target) + kinds_of(source, preorder_list(source, ids, n)) =~= kinds(target));
    } else {
        let (t1, c) = clone_into(target, source, ids[0], n);
        lemma_clone_kinds(target, source, ids[0], n);
        let t2 = add_child_spec(t1, parent, c);
        law_add_child_links(t1, parent, c);
        lemma_clone_children_kinds(t2, source, ids.drop_first(), parent, n);
        assert(kinds_of(source, preorder_list(source, ids, n)) =~= kinds_of(
            source,
            preorder(source, ids[0], n),
        ) + kinds_of(source, preorder_list(source, ids.drop_first(), n)));
        assert(kinds(clone_children(target, source, ids, parent, n)) =~= kinds(target) + kinds_of(
            source,
            preorder_list(source, ids, n),
        ));
    }
}

proof fn lemma_clone_shape(target: Seq<NodeView>, source: Seq<NodeView>, id: NodeId, n: nat)
    requires
        complete(source, id, n),
        target.len() + preorder(source, id, n).len() <= u32::MAX + 1,
    ensures
        clone_into(target, source, id, n).1.0 == target.len(),
        clone_into(target, source, id, n).0.len() == target.len() + preorder(source, id, n).len(),
        clone_into(target, source, id, n).0[target.len() as int].children.len()
            == node_at(source, id)->0.children.len(),
        forall|i: int|
            0 <= i < target.len() ==> (#[trigger] clone_into(target, source, id, n).0[i]).children
                == target[i].children,
    decreases n, 0nat,
{
    let node = node_at(source, id)->0;
    let t1 = alloc_spec(target, node.kind);
    let nid = next_id(target);
    lemma_clone_kinds(target, source, id, n);
    assert(kinds(clone_into(target, source, id, n).0).len() == clone_into(target, source, id, n).0.len());
    lemma_clone_children_shape(t1, source, node.children, nid, (n - 1) as nat);
}

proof fn lemma_clone_children_shape(
    target: Seq<NodeView>,
    source: Seq<NodeView>,
    ids: Seq<NodeId>,
    parent: NodeId,
    n: nat,
)
    requires
        complete_list(source, ids, n),
        parent.0 < target.len(),
        target.len() + preorder_list(source, ids, n).len() <= u32::MAX + 1,
    ensures
        clone_children(target, source, ids, parent, n).len() == target.len() + preorder_list(
            source,
            ids,
            n,
        ).len(),
        clone_children(target, source, ids, parent, n)[parent.0 as int].children.len()
            == target[parent.0 as int].children.len() + ids.len(),
        forall|i: int|
            0 <= i < target.len() && i != parent.0 ==> (#[trigger] clone_children(
                target,
                source,
                ids,
                parent,
                n,
            )[i]).children == target[i].children,
    decreases n, ids.len() + 1,
{
    lemma_clone_children_kinds(target, source, ids, parent, n);
    assert(kinds(clone_children(target, source, ids, parent, n)).len() == clone_children(
        target,
        source,
        ids,
        parent,
        n,
    ).len());
    if ids.len() > 0 {
        let (t1, c) = clone_into(target, source, ids[0], n);
        lemma_clone_shape(target, source, ids[0], n);
        let t2 = add_child_spec(t1, parent, c);
        law_add_child_links(t1, parent, c);
        lemma_clone_children_shape(t2, source, ids.drop_first(), parent, n);
        assert forall|i: int| 0 <= i < target.len() && i != parent.0 implies (#[trigger] clone_children(
            target,
            source,
            ids,
            parent,
            n,
        )[i]).children == target[i].children by {
            assert(t1[i].children == target[i].children);
            assert(t2[i].children == t1[i].children);
        }
    }
}

/// The ids `start`, `start + 1`, ..., `len` of them.
pub open spec fn id_range(start: nat, len: nat) -> Seq<NodeId> {
    Seq::new(len, |k: int| NodeId((start + k) as u32))
}

/// Every id in `ids` lies in `lo .. hi`.
pub open spec fn ids_within(ids: Seq<NodeId>, lo: int, hi: int) -> bool {
    forall|k: int| 0 <= k < ids.len() ==> lo <= (#[trigger] ids[k]).0 < hi
}

proof fn lemma_complete_bounded(arena: Seq<NodeView>, id: NodeId, n: nat)
    requires
        complete(arena, id, n),
    ensures
        bounded(arena, id, n),
    decreases n, 0nat,
{
    let node = node_at(arena, id)->0;
    lemma_complete_bounded_list(arena, node.children, (n - 1) as nat);
}

proof fn lemma_complete_bounded_list(arena: Seq<NodeView>, ids: Seq<NodeId>, n: nat)
    requires
        complete_list(arena, ids, n),
    ensures
        bounded_list(arena, ids, n),
    decreases n, ids.len() + 1,
{
    if ids.len() > 0 {
        lemma_complete_bounded(arena, ids[0], n);
        lemma_complete_bounded_list(arena, ids.drop_first(), n);
    }
}

proof fn lemma_complete_mono(arena: Seq<NodeView>, id: NodeId, n: nat, m: nat)
    requires
        complete(arena, id, n),
        n <= m,
    ensures
        complete(arena, id, m),
        preorder(arena, id, m) == preorder(arena, id, n),
    decreases n, 0nat,
{
    let node = node_at(arena, id)->0;
    lemma_complete_mono_list(arena, node.children, (n - 1) as nat, (m - 1) as nat);
}

proof fn lemma_complete_mono_list(arena: Seq<NodeView>, ids: Seq<NodeId>, n: nat, m: nat)
    requires
        complete_list(arena, ids, n),
        n <= m,
    ensures
        complete_list(arena, ids, m),
        preorder_list(arena, ids, m) == preorder_list(arena, ids, n),
    decreases n, ids.len() + 1,
{
    if ids.len() > 0 {
        lemma_complete_mono(arena, ids[0], n, m);
        lemma_complete_mono_list(arena, ids.drop_first(), n, m);
    }
}

/// A tree all of whose nodes lie in `lo .. hi` has the same pre-order in
/// any arena that agrees on the children of those nodes.
proof fn lemma_preorder_frame(
    a: Seq<NodeView>,
    b: Seq<NodeView>,
    id: NodeId,
    m: nat,
    lo: int,
    hi: int,
)
    requires
        complete(a, id, m),
        ids_within(preorder(a, id, m), lo, hi),
        hi <= a.len(),
        hi <= b.len(),
        forall|i: int| lo <= i < hi ==> (#[trigger] b[i]).children == a[i].children,
    ensures
        complete(b, id, m),
        preorder(b, id, m) == preorder(a, id, m),
    decreases m, 0nat,
{
    let node = node_at(a, id)->0;
    let pl = preorder_list(a, node.children, (m - 1) as nat);
    assert(preorder(a, id, m)[0] == id);
    assert(b[id.0 as int].children == node.children);
    assert forall|k: int| 0 <= k < pl.len() implies lo <= (#[trigger] pl[k]).0 < hi by {
        assert(pl[k] == preorder(a, id, m)[k + 1]);
    }
    lemma_preorder_frame_list(a, b, node.children, (m - 1) as nat, lo, hi);
}

proof fn lemma_preorder_frame_list(
    a: Seq<NodeView>,
    b: Seq<NodeView>,
    ids: Seq<NodeId>,
    m: nat,
    lo: int,
    hi: int,
)
    requires
        complete_list(a, ids, m),
        ids_within(preorder_list(a, ids, m), lo, hi),
        hi <= a.len(),
        hi <= b.len(),
        forall|i: int| lo <= i < hi ==> (#[trigger] b[i]).children == a[i].children,
    ensures
        complete_list(b, ids, m),
        preorder_list(b, ids, m) == preorder_list(a, ids, m),
    decreases m, ids.len() + 1,
{
    if ids.len() > 0 {
        let p0 = preorder(a, ids[0], m);
        let pr = preorder_list(a, ids.drop_first(), m);
        let all = preorder_list(a, ids, m);
        assert forall|k: int| 0 <= k < p0.len() implies lo <= (#[trigger] p0[k]).0 < hi by {
            assert(p0[k] == all[k]);
        }
        assert forall|k: int| 0 <= k < pr.len() implies lo <= (#[trigger] pr[k]).0 < hi by {
            assert(pr[k] == all[p0.len() + k]);
        }
        lemma_preorder_frame(a, b, ids[0], m, lo, hi);
        lemma_preorder_frame_list(a, b, ids.drop_first(), m, lo, hi);
    }
}

proof fn lemma_clone_tree(target: Seq<NodeView>, source: Seq<NodeView>, id: NodeId, n: nat)
    requires
        complete(source, id, n),
        target.len() + preorder(source, id, n).len() <= u32::MAX + 1,
    ensures
        ({
            let (after, root) = clone_into(target, source, id, n);
            let order = preorder(source, id, n);
            let l = target.len();
            &&& root.0 == l
            &&& after.len() == l + order.len()
            &&& forall|i: int| 0 <= i < l ==> #[trigger] after[i] == target[i]
            &&& complete(after, root, order.len())
            &&& preorder(after, root, order.len()) == id_range(l, order.len())
            &&& forall|k: int|
                0 <= k < order.len() ==> (#[trigger] after[l + k]).kind == source[order[k].0 as int].kind
                    && after[l + k].children.len() == source[order[k].0 as int].children.len()
                    && after[l + k].id.0 == l + k
        }),
    decreases n, 0nat,
{
    let node = node_at(source, id)->0;
    let l = target.len();
    let t1 = alloc_spec(target, node.kind);
    let fresh = next_id(target);
    let q = preorder_list(source, node.children, (n - 1) as nat);
    let order = preorder(source, id, n);
    assert(order == seq![id] + q);
    lemma_clone_children_tree(t1, source, node.children, fresh, (n - 1) as nat);
    let after = clone_children(t1, source, node.children, fresh, (n - 1) as nat);
    let kids = after[l as int].children;
    assert(t1[l as int].children.len() == 0);
    let r = kids.subrange(0, kids.len() as int);
    assert(r =~= kids);
    assert(node_at(after, fresh) == Some(after[l as int]));
    assert(complete(after, fresh, order.len()));
    assert(preorder(after, fresh, order.len()) =~= id_range(l, order.len()));
    assert forall|i: int| 0 <= i < l implies #[trigger] after[i] == target[i] by {
        assert(after[i] == t1[i]);
    }
    assert forall|k: int| 0 <= k < order.len() implies (#[trigger] after[l + k]).kind == source[order[k].0 as int].kind
        && after[l + k].children.len() == source[order[k].0 as int].children.len()
        && after[l + k].id.0 == l + k by {
        if k > 0 {
            assert(order[k] == q[k - 1]);
            assert(after[l + k] == after[(l + 1) + (k - 1)]);
        }
    }
}

proof fn lemma_clone_children_tree(
    target: Seq<NodeView>,
    source: Seq<NodeView>,
    ids: Seq<NodeId>,
    parent: NodeId,
    n: nat,
)
    requires
        complete_list(source, ids, n),
        parent.0 < target.len(),
        target.len() + preorder_list(source, ids, n).len() <= u32::MAX + 1,
    ensures
        ({
            let after = clone_children(target, source, ids, parent, n);
            let order = preorder_list(source, ids, n);
            let l = target.len();
            let p = parent.0 as int;
            let before_kids = target[p].children;
            let roots = after[p].children.subrange(
                before_kids.len() as int,
                after[p].children.len() as int,
            );
            &&& after.len() == l + order.len()
            &&& forall|i: int| 0 <= i < l && i != p ==> #[trigger] after[i] == target[i]
            &&& after[p].kind == target[p].kind
            &&& after[p].id == target[p].id
            &&& after[p].children.len() == before_kids.len() + ids.len()
            &&& after[p].children.subrange(0, before_kids.len() as int) == before_kids
            &&& complete_list(after, roots, order.len())
            &&& preorder_list(after, roots, order.len()) == id_range(l, order.len())
            &&& forall|k: int|
                0 <= k < order.len() ==> (#[trigger] after[l + k]).kind == source[order[k].0 as int].kind
                    && after[l + k].children.len() == source[order[k].0 as int].children.len()
                    && after[l + k].id.0 == l + k
        }),
    decreases n, ids.len() + 1,
{
    let l = target.len();
    let p = parent.0 as int;
    let before_kids = target[p].children;
    if ids.len() == 0 {
        let roots = target[p].children.subrange(before_kids.len() as int, before_kids.len() as int);
        assert(roots =~= Seq::<NodeId>::empty());
        assert(target[p].children.subrange(0, before_kids.len() as int) =~= before_kids);
        assert(id_range(l, 0) =~= Seq::<NodeId>::empty());
    } else {
        let (t1, c) = clone_into(target, source, ids[0], n);
        let p0 = preorder(source, ids[0], n);
        let qr = preorder_list(source, ids.drop_first(), n);
        let order = preorder_list(source, ids, n);
        assert(order == p0 + qr);
        lemma_clone_tree(target, source, ids[0], n);
        let t2 = add_child_spec(t1, parent, c);
        law_add_child_links(t1, parent, c);
        assert(t1[p] == target[p]);
        let l2 = t2.len();
        assert(l2 == l + p0.len());
        lemma_clone_children_tree(t2, source, ids.drop_first(), parent, n);
        let after = clone_children(t2, source, ids.drop_first(), parent, n);
        assert(after == clone_children(target, source, ids, parent, n));
        let mid_kids = t2[p].children;
        assert(mid_kids == before_kids.push(c));
        let rest_roots = after[p].children.subrange(mid_kids.len() as int, after[p].children.len() as int);
        let roots = after[p].children.subrange(before_kids.len() as int, after[p].children.len() as int);
        assert(after[p].children.subrange(0, mid_kids.len() as int) == mid_kids);
        assert(after[p].children[before_kids.len() as int] == c) by {
            assert(after[p].children.subrange(0, mid_kids.len() as int)[before_kids.len() as int] == c);
        }
        assert(roots =~= seq![c] + rest_roots);
        assert(after[p].children.subrange(0, before_kids.len() as int) =~= before_kids) by {
            assert forall|k: int| 0 <= k < before_kids.len() implies after[p].children[k] == before_kids[k] by {
                assert(after[p].children.subrange(0, mid_kids.len() as int)[k] == mid_kids[k]);
            }
        }
        // the copy of the first child's subtree is left alone by what follows
        assert forall|i: int| l <= i < l2 implies (#[trigger] after[i]).children == t1[i].children by {
            assert(after[i] == t2[i]);
            if i == c.0 {
            } else {
                assert(t2[i] == t1[i]);
            }
        }
        assert(ids_within(preorder(t1, c, p0.len()), l as int, l2 as int));
        lemma_preorder_frame(t1, after, c, p0.len(), l as int, l2 as int);
        lemma_complete_mono(after, c, p0.len(), order.len());
        lemma_complete_mono_list(after, rest_roots, qr.len(), order.len());
        assert(roots[0] == c);
        assert(roots.drop_first() =~= rest_roots);
        assert(preorder_list(after, roots, order.len()) =~= id_range(l, order.len()));
        assert forall|i: int| 0 <= i < l && i != p implies #[trigger] after[i] == target[i] by {
            assert(after[i] == t2[i]);
            assert(t2[i] == t1[i]);
        }
        assert forall|k: int| 0 <= k < order.len() implies (#[trigger] after[l + k]).kind == source[order[k].0 as int].kind
            && after[l + k].children.len() == source[order[k].0 as int].children.len()
            && after[l + k].id.0 == l + k by {
            if k < p0.len() {
                assert(order[k] == p0[k]);
                assert(after[l + k] == t2[l + k]);
                assert(t2[l + k].kind == t1[l + k].kind);
                assert(t2[l + k].children == t1[l + k].children);
                assert(t2[l + k].id == t1[l + k].id);
            } else {
                assert(order[k] == qr[k - p0.len()]);
                assert(after[l + k] == after[l2 + (k - p0.len())]);
            }
        }
    }
}

/// A deep clone copies the subtree as a tree of its own (while the
/// target's ids fit in 32 bits): the copy's root is the first appended
/// node, its pre-order in the target is exactly the appended ids in order,
/// each appended node has the kind and the number of children of the
/// source node at the same place of the source's pre-order and records its
/// own position in the target as its id, and every earlier node of the
/// target, parent links included, is left as it was.
pub proof fn law_deep_clone_copies_tree(target: Seq<NodeView>, source: Seq<NodeView>, id: NodeId)
    requires
        complete(source, id, source.len()),
        target.len() + preorder(source, id, source.len()).len() <= u32::MAX + 1,
    ensures
        ({
            let (after, root) = clone_into(target, source, id, source.len());
            let order = preorder(source, id, source.len());
            let l = target.len();
            &&& root.0 == l
            &&& after.len() == l + order.len()
            &&& forall|i: int| 0 <= i < l ==> #[trigger] after[i] == target[i]
            &&& finite_from(after, root)
            &&& preorder(after, root, after.len()) == id_range(l, order.len())
            &&& forall|k: int|
                0 <= k < order.len() ==> (#[trigger] after[l + k]).kind == source[order[k].0 as int].kind
                    && after[l + k].children.len() == source[order[k].0 as int].children.len()
                    && after[l + k].id.0 == l + k
        }),
{
    let n = source.len();
    lemma_clone_tree(target, source, id, n);
    let (after, root) = clone_into(target, source, id, n);
    let order = preorder(source, id, n);
    lemma_complete_mono(after, root, order.len(), after.len());
    lemma_complete_bounded(after, root, after.len());
}

/// A deep clone appends to the target one node per entry of the source
/// subtree's pre-order, with the same kinds in the same order, and leaves
/// the kinds of the target's earlier nodes alone. While the target's ids
/// fit in 32 bits, the copy's root is the first appended node, it has as
/// many children as the source node, and no earlier node's children
/// change.
pub proof fn law_deep_clone_copies_preorder(target: Seq<NodeView>, source: Seq<NodeView>, id: NodeId)
    requires
        complete(source, id, source.len()),
    ensures
        ({
            let (after, root) = clone_into(target, source, id, source.len());
            let order = preorder(source, id, source.len());
            &&& kinds(after) == kinds(target) + kinds_of(source, order)
            &&& after.len() == target.len() + order.len()
            &&& target.len() + order.len() <= u32::MAX + 1 ==> {
                &&& root.0 == target.len()
                &&& after[target.len() as int].children.len() == source[id.0 as int].children.len()
                &&& forall|i: int|
                    0 <= i < target.len() ==> (#[trigger] after[i]).children == target[i].children
            }
        }),
{
    let n = source.len();
    lemma_clone_kinds(target, source, id, n);
    let after = clone_into(target, source, id, n).0;
    assert(kinds(after).len() == after.len());
    if target.len() + preorder(source, id, n).len() <= u32::MAX + 1 {
        lemma_clone_shape(target, source, id, n);
    }
}

/// A deep clone keeps every node of the target carrying its own position
/// as its id: the copies get fresh ids of their own, never those of the
/// source nodes (while the target's ids fit in 32 bits).
pub proof fn law_deep_clone_keeps_ids_at_positions(
    target: Seq<NodeView>,
    source: Seq<NodeView>,
    id: NodeId,
)
    requires
        complete(source, id, source.len()),
        target.len() + preorder(source, id, source.len()).len() <= u32::MAX + 1,
        ids_at_positions(target),
    ensures
        ids_at_positions(clone_into(target, source, id, source.len()).0),
{
    law_deep_clone_copies_tree(target, source, id);
    let after = clone_into(target, source, id, source.len()).0;
    let l = target.len();
    assert forall|i: int| 0 <= i < after.len() implies (#[trigger] after[i]).id.0 == i by {
        if i >= l {
            assert(after[i] == after[l + (i - l)]);
        }
    }
}

/// Apply a transform to a node.
pub fn apply_transform<T: Transform + ?Sized>(builder: &mut AstBuilder, root: NodeId, transform: &T) -> (r: NodeId)
    ensures
        (final(builder)@, r) == transform.transformed(old(builder)@, root),
{
    transform.transform(builder, root)
}

} // verus!
