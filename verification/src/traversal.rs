//! Tree traversal utilities.

use vstd::prelude::*;
use std::collections::VecDeque;
use crate::builder::node_at;
use crate::node::{AstNode, NodeId, NodeView, view_of};

verus! {

/// Every chain of nodes that starts at `id` and follows child links meets
/// at most `n` nodes that are present in `arena` (ids out of bounds end a
/// chain). A cycle that can be reached from `id` rules it out for every
/// `n`; `law_self_child_is_not_finite` shows this for the shortest cycle.
pub open spec fn bounded(arena: Seq<NodeView>, id: NodeId, n: nat) -> bool
    decreases n, 0nat,
{
    match node_at(arena, id) {
        None => true,
        Some(node) => n > 0 && bounded_list(arena, node.children, (n - 1) as nat),
    }
}

/// Each of `ids` is `bounded` by `n`.
pub open spec fn bounded_list(arena: Seq<NodeView>, ids: Seq<NodeId>, n: nat) -> bool
    decreases n, ids.len() + 1,
{
    ids.len() == 0 || (bounded(arena, ids[0], n) && bounded_list(arena, ids.drop_first(), n))
}

/// No cycle of child links can be reached from `root`: every walk down
/// from it ends (a walk without repeats meets at most `arena.len()` nodes).
pub open spec fn finite_from(arena: Seq<NodeView>, root: NodeId) -> bool {
    bounded(arena, root, arena.len())
}

/// Every child id that is in bounds is greater than the index of its
/// parent, as when children are always allocated after their parents.
pub open spec fn children_after_parents(arena: Seq<NodeView>) -> bool {
    forall|i: int, k: int|
        0 <= i < arena.len() && 0 <= k < arena[i].children.len() && arena[i].children[k].0
            < arena.len() ==> i < #[trigger] arena[i].children[k].0
}

proof fn lemma_children_after_parents_bounded(arena: Seq<NodeView>, id: NodeId, m: nat)
    requires
        children_after_parents(arena),
        m + id.0 >= arena.len(),
    ensures
        bounded(arena, id, m),
    decreases arena.len() - id.0, 1nat, 0nat,
{
    if id.0 < arena.len() {
        let node = arena[id.0 as int];
        assert(node.children.subrange(0, node.children.len() as int) =~= node.children);
        lemma_children_after_parents_bounded_list(arena, node.children, (m - 1) as nat, id, 0);
    }
}

proof fn lemma_children_after_parents_bounded_list(
    arena: Seq<NodeView>,
    ids: Seq<NodeId>,
    m: nat,
    parent: NodeId,
    from: nat,
)
    requires
        children_after_parents(arena),
        parent.0 < arena.len(),
        m + parent.0 + 1 >= arena.len(),
        from <= arena[parent.0 as int].children.len(),
        ids == arena[parent.0 as int].children.subrange(
            from as int,
            arena[parent.0 as int].children.len() as int,
        ),
    ensures
        bounded_list(arena, ids, m),
    decreases arena.len() - parent.0, 0nat, ids.len(),
{
    let kids = arena[parent.0 as int].children;
    if ids.len() > 0 {
        let c = ids[0];
        assert(c == kids[from as int]);
        if c.0 < arena.len() {
            assert(parent.0 < kids[from as int].0);
            lemma_children_after_parents_bounded(arena, c, m);
        }
        assert(ids.drop_first() =~= kids.subrange(from + 1int, kids.len() as int));
        lemma_children_after_parents_bounded_list(arena, ids.drop_first(), m, parent, (from + 1) as nat);
    }
}

proof fn lemma_bounded_list_member(arena: Seq<NodeView>, ids: Seq<NodeId>, m: nat, k: int)
    requires
        bounded_list(arena, ids, m),
        0 <= k < ids.len(),
    ensures
        bounded(arena, ids[k], m),
    decreases ids.len(),
{
    if k > 0 {
        lemma_bounded_list_member(arena, ids.drop_first(), m, k - 1);
    }
}

/// A node that is its own child has no bound: no walk down from it ends.
pub proof fn law_self_child_is_not_finite(arena: Seq<NodeView>, id: NodeId, n: nat)
    requires
        id.0 < arena.len(),
        arena[id.0 as int].children.contains(id),
    ensures
        !bounded(arena, id, n),
    decreases n,
{
    if n > 0 {
        law_self_child_is_not_finite(arena, id, (n - 1) as nat);
        if bounded(arena, id, n) {
            let k = choose|k: int| 0 <= k < arena[id.0 as int].children.len()
                && arena[id.0 as int].children[k] == id;
            lemma_bounded_list_member(arena, arena[id.0 as int].children, (n - 1) as nat, k);
        }
    }
}

/// Where children always come after their parents in the arena, no cycle
/// can be reached from any id.
pub proof fn law_children_after_parents_is_finite(arena: Seq<NodeView>, root: NodeId)
    requires
        children_after_parents(arena),
    ensures
        finite_from(arena, root),
{
    lemma_children_after_parents_bounded(arena, root, arena.len());
}

/// Pre-order of the tree under `id`, looking at most `n` levels deep:
/// the node itself, then the pre-order of each child in turn. Ids out of
/// bounds contribute nothing.
pub open spec fn preorder(arena: Seq<NodeView>, id: NodeId, n: nat) -> Seq<NodeId>
    decreases n, 0nat,
{
    match node_at(arena, id) {
        None => seq![],
        Some(node) => if n == 0 {
            seq![]
        } else {
            seq![id] + preorder_list(arena, node.children, (n - 1) as nat)
        },
    }
}

/// The pre-orders of `ids`, one after the other.
pub open spec fn preorder_list(arena: Seq<NodeView>, ids: Seq<NodeId>, n: nat) -> Seq<NodeId>
    decreases n, ids.len() + 1,
{
    if ids.len() == 0 {
        seq![]
    } else {
        preorder(arena, ids[0], n) + preorder_list(arena, ids.drop_first(), n)
    }
}

/// Post-order of the tree under `id`, looking at most `n` levels deep:
/// the post-order of each child in turn, then the node itself.
pub open spec fn postorder(arena: Seq<NodeView>, id: NodeId, n: nat) -> Seq<NodeId>
    decreases n, 0nat,
{
    match node_at(arena, id) {
        None => seq![],
        Some(node) => if n == 0 {
            seq![]
        } else {
            postorder_list(arena, node.children, (n - 1) as nat) + seq![id]
        },
    }
}

/// The post-orders of `ids`, one after the other.
pub open spec fn postorder_list(arena: Seq<NodeView>, ids: Seq<NodeId>, n: nat) -> Seq<NodeId>
    decreases n, ids.len() + 1,
{
    if ids.len() == 0 {
        seq![]
    } else {
        postorder(arena, ids[0], n) + postorder_list(arena, ids.drop_first(), n)
    }
}

/// Depth of the tree under `id`: 0 where `id` is out of bounds, else one
/// more than the deepest child (so 1 for a leaf).
pub open spec fn depth(arena: Seq<NodeView>, id: NodeId, n: nat) -> nat
    decreases n, 0nat,
{
    match node_at(arena, id) {
        None => 0,
        Some(node) => if n == 0 {
            0
        } else {
            1 + depth_list(arena, node.children, (n - 1) as nat)
        },
    }
}

/// The greatest depth among `ids`, 0 for none.
pub open spec fn depth_list(arena: Seq<NodeView>, ids: Seq<NodeId>, n: nat) -> nat
    decreases n, ids.len() + 1,
{
    if ids.len() == 0 {
        0
    } else {
        let d = depth(arena, ids[0], n);
        let rest = depth_list(arena, ids.drop_first(), n);
        if d >= rest {
            d
        } else {
            rest
        }
    }
}

/// The children that `id` names in `arena`; none where it is out of bounds.
pub open spec fn children_of(arena: Seq<NodeView>, id: NodeId) -> Seq<NodeId> {
    match node_at(arena, id) {
        Some(node) => node.children,
        None => seq![],
    }
}

/// The ids of the next level below `ids`: the children of each in turn.
pub open spec fn next_level(arena: Seq<NodeView>, ids: Seq<NodeId>) -> Seq<NodeId>
    decreases ids.len(),
{
    if ids.len() == 0 {
        seq![]
    } else {
        children_of(arena, ids[0]) + next_level(arena, ids.drop_first())
    }
}

/// Those of `ids` that are in bounds, in order.
pub open spec fn present(arena: Seq<NodeView>, ids: Seq<NodeId>) -> Seq<NodeId>
    decreases ids.len(),
{
    if ids.len() == 0 {
        seq![]
    } else {
        (if node_at(arena, ids[0]) is Some {
            seq![ids[0]]
        } else {
            seq![]
        }) + present(arena, ids.drop_first())
    }
}

/// The ids at distance `k` below `root`, left to right.
pub open spec fn level(arena: Seq<NodeView>, root: NodeId, k: nat) -> Seq<NodeId>
    decreases k,
{
    if k == 0 {
        seq![root]
    } else {
        next_level(arena, level(arena, root, (k - 1) as nat))
    }
}

/// The present ids of `f` consecutive levels, starting with `ids`.
pub open spec fn levels(arena: Seq<NodeView>, ids: Seq<NodeId>, f: nat) -> Seq<NodeId>
    decreases f,
{
    if f == 0 {
        seq![]
    } else {
        present(arena, ids) + levels(arena, next_level(arena, ids), (f - 1) as nat)
    }
}

/// The number of ids in `f` consecutive levels, starting with `ids`.
pub open spec fn levels_len(arena: Seq<NodeView>, ids: Seq<NodeId>, f: nat) -> nat
    decreases f,
{
    if f == 0 {
        0
    } else {
        ids.len() + levels_len(arena, next_level(arena, ids), (f - 1) as nat)
    }
}

/// Breadth-first order from `root`: level by level, each level left to
/// right, ids out of bounds left out.
pub open spec fn breadth_first(arena: Seq<NodeView>, root: NodeId) -> Seq<NodeId> {
    levels(arena, seq![root], arena.len() + 1)
}

proof fn lemma_bounded_list_concat(arena: Seq<NodeView>, a: Seq<NodeId>, b: Seq<NodeId>, n: nat)
    requires
        bounded_list(arena, a, n),
        bounded_list(arena, b, n),
    ensures
        bounded_list(arena, a + b, n),
    decreases a.len(),
{
    if a.len() > 0 {
        assert((a + b).drop_first() =~= a.drop_first() + b);
        assert((a + b)[0] == a[0]);
        lemma_bounded_list_concat(arena, a.drop_first(), b, n);
    } else {
        assert(a + b =~= b);
    }
}

proof fn lemma_next_level_concat(arena: Seq<NodeView>, a: Seq<NodeId>, b: Seq<NodeId>)
    ensures
        next_level(arena, a + b) == next_level(arena, a) + next_level(arena, b),
    decreases a.len(),
{
    if a.len() > 0 {
        assert((a + b).drop_first() =~= a.drop_first() + b);
        assert((a + b)[0] == a[0]);
        lemma_next_level_concat(arena, a.drop_first(), b);
        assert(next_level(arena, a + b) =~= next_level(arena, a) + next_level(arena, b));
    } else {
        assert(a + b =~= b);
        assert(next_level(arena, a + b) =~= next_level(arena, a) + next_level(arena, b));
    }
}

proof fn lemma_next_level_bounded(arena: Seq<NodeView>, ids: Seq<NodeId>, m: nat)
    requires
        bounded_list(arena, ids, m),
    ensures
        m > 0 ==> bounded_list(arena, next_level(arena, ids), (m - 1) as nat),
        m == 0 ==> next_level(arena, ids) == Seq::<NodeId>::empty(),
    decreases ids.len(),
{
    if ids.len() > 0 {
        lemma_next_level_bounded(arena, ids.drop_first(), m);
        assert(bounded(arena, ids[0], m));
        if node_at(arena, ids[0]) is None {
            assert(children_of(arena, ids[0]) =~= Seq::<NodeId>::empty());
        }
        if m > 0 {
            lemma_bounded_list_concat(
                arena,
                children_of(arena, ids[0]),
                next_level(arena, ids.drop_first()),
                (m - 1) as nat,
            );
        } else {
            assert(next_level(arena, ids) =~= Seq::<NodeId>::empty());
        }
    }
}

proof fn lemma_level_bounded(arena: Seq<NodeView>, root: NodeId, n: nat, j: nat)
    requires
        bounded(arena, root, n),
        j <= n,
    ensures
        bounded_list(arena, level(arena, root, j), (n - j) as nat),
    decreases j,
{
    if j == 0 {
        assert(seq![root].drop_first() =~= Seq::<NodeId>::empty());
        assert(seq![root][0] == root);
        assert(level(arena, root, 0) == seq![root]);
        assert(bounded_list(arena, seq![root].drop_first(), n));
        assert(bounded_list(arena, seq![root], n));
    } else {
        lemma_level_bounded(arena, root, n, (j - 1) as nat);
        lemma_next_level_bounded(arena, level(arena, root, (j - 1) as nat), (n - (j - 1)) as nat);
        assert(level(arena, root, j) == next_level(arena, level(arena, root, (j - 1) as nat)));
        assert(((n - (j - 1)) as nat - 1) as nat == (n - j) as nat);
        assert(bounded_list(arena, level(arena, root, j), (n - j) as nat));
    }
}

/// Past `n` levels there is nothing below a root bounded by `n`.
proof fn lemma_level_past_bound(arena: Seq<NodeView>, root: NodeId, n: nat)
    requires
        bounded(arena, root, n),
    ensures
        level(arena, root, n + 1) == Seq::<NodeId>::empty(),
{
    lemma_level_bounded(arena, root, n, n);
    lemma_next_level_bounded(arena, level(arena, root, n), 0);
}

proof fn lemma_levels_of_empty(arena: Seq<NodeView>, f: nat)
    ensures
        levels(arena, Seq::<NodeId>::empty(), f) == Seq::<NodeId>::empty(),
        levels_len(arena, Seq::<NodeId>::empty(), f) == 0,
    decreases f,
{
    if f > 0 {
        lemma_levels_of_empty(arena, (f - 1) as nat);
        assert(next_level(arena, Seq::<NodeId>::empty()) =~= Seq::<NodeId>::empty());
        assert(present(arena, Seq::<NodeId>::empty()) =~= Seq::<NodeId>::empty());
        assert(levels(arena, Seq::<NodeId>::empty(), f) =~= Seq::<NodeId>::empty());
    }
}

/// The ids under `root` in the given order.
pub open spec fn ordered(arena: Seq<NodeView>, root: NodeId, order: TraversalOrder) -> Seq<NodeId> {
    match order {
        TraversalOrder::PreOrder => preorder(arena, root, arena.len()),
        TraversalOrder::PostOrder => postorder(arena, root, arena.len()),
        TraversalOrder::BreadthFirst => breadth_first(arena, root),
    }
}

proof fn lemma_pre_post_same_ids(arena: Seq<NodeView>, id: NodeId, n: nat)
    ensures
        preorder(arena, id, n).to_multiset() == postorder(arena, id, n).to_multiset(),
    decreases n, 0nat,
{
    broadcast use vstd::seq_lib::lemma_multiset_commutative;
    broadcast use vstd::multiset::group_multiset_axioms;

    match node_at(arena, id) {
        None => {},
        Some(node) => if n > 0 {
            lemma_pre_post_same_ids_list(arena, node.children, (n - 1) as nat);
            let a = seq![id];
            let p = preorder_list(arena, node.children, (n - 1) as nat);
            let q = postorder_list(arena, node.children, (n - 1) as nat);
            assert((a + p).to_multiset() =~= (q + a).to_multiset());
        },
    }
}

proof fn lemma_pre_post_same_ids_list(arena: Seq<NodeView>, ids: Seq<NodeId>, n: nat)
    ensures
        preorder_list(arena, ids, n).to_multiset() == postorder_list(arena, ids, n).to_multiset(),
    decreases n, ids.len() + 1,
{
    broadcast use vstd::seq_lib::lemma_multiset_commutative;

    if ids.len() > 0 {
        lemma_pre_post_same_ids(arena, ids[0], n);
        lemma_pre_post_same_ids_list(arena, ids.drop_first(), n);
    }
}

proof fn lemma_preorder_list_concat(arena: Seq<NodeView>, a: Seq<NodeId>, b: Seq<NodeId>, n: nat)
    ensures
        preorder_list(arena, a + b, n) == preorder_list(arena, a, n) + preorder_list(arena, b, n),
    decreases a.len(),
{
    if a.len() > 0 {
        assert((a + b).drop_first() =~= a.drop_first() + b);
        assert((a + b)[0] == a[0]);
        lemma_preorder_list_concat(arena, a.drop_first(), b, n);
        assert(preorder_list(arena, a + b, n) =~= preorder_list(arena, a, n) + preorder_list(arena, b, n));
    } else {
        assert(a + b =~= b);
        assert(preorder_list(arena, a + b, n) =~= preorder_list(arena, a, n) + preorder_list(arena, b, n));
    }
}

/// One level of a pre-order: the present ids of `ids`, and below them the
/// pre-orders of the next level, hold the same ids.
proof fn lemma_preorder_list_by_level(arena: Seq<NodeView>, ids: Seq<NodeId>, n: nat)
    requires
        n > 0,
    ensures
        preorder_list(arena, ids, n).to_multiset() == (present(arena, ids) + preorder_list(
            arena,
            next_level(arena, ids),
            (n - 1) as nat,
        )).to_multiset(),
    decreases ids.len(),
{
    broadcast use vstd::seq_lib::lemma_multiset_commutative;
    broadcast use vstd::multiset::group_multiset_axioms;

    if ids.len() == 0 {
        assert(next_level(arena, ids) =~= Seq::<NodeId>::empty());
        assert(present(arena, ids) + preorder_list(arena, next_level(arena, ids), (n - 1) as nat)
            =~= Seq::<NodeId>::empty());
    } else {
        let x = ids[0];
        let rest = ids.drop_first();
        lemma_preorder_list_by_level(arena, rest, n);
        lemma_preorder_list_concat(arena, children_of(arena, x), next_level(arena, rest), (n - 1) as nat);
        let head: Seq<NodeId> = if node_at(arena, x) is Some { seq![x] } else { seq![] };
        let kids = preorder_list(arena, children_of(arena, x), (n - 1) as nat);
        let below = preorder_list(arena, next_level(arena, rest), (n - 1) as nat);
        if node_at(arena, x) is None {
            assert(children_of(arena, x) =~= Seq::<NodeId>::empty());
            assert(kids =~= Seq::<NodeId>::empty());
        }
        assert(preorder(arena, x, n) =~= head + kids);
        assert(preorder_list(arena, ids, n) == head + kids + preorder_list(arena, rest, n));
        assert(present(arena, ids) == head + present(arena, rest));
        assert(preorder_list(arena, next_level(arena, ids), (n - 1) as nat) == kids + below);
        assert((head + kids + preorder_list(arena, rest, n)).to_multiset() =~= (head + present(arena, rest)
            + (kids + below)).to_multiset());
    }
}

proof fn lemma_levels_same_ids(arena: Seq<NodeView>, ids: Seq<NodeId>, m: nat, f: nat)
    requires
        bounded_list(arena, ids, m),
        f >= m + 1,
    ensures
        levels(arena, ids, f).to_multiset() == preorder_list(arena, ids, m).to_multiset(),
    decreases m,
{
    broadcast use vstd::seq_lib::lemma_multiset_commutative;
    broadcast use vstd::multiset::group_multiset_axioms;

    lemma_next_level_bounded(arena, ids, m);
    if m == 0 {
        lemma_all_absent(arena, ids);
        lemma_levels_of_empty(arena, (f - 1) as nat);
        assert(levels(arena, ids, f) =~= Seq::<NodeId>::empty());
    } else {
        lemma_levels_same_ids(arena, next_level(arena, ids), (m - 1) as nat, (f - 1) as nat);
        lemma_preorder_list_by_level(arena, ids, m);
    }
}

/// Where nothing is deeper than zero levels, every id is out of bounds.
proof fn lemma_all_absent(arena: Seq<NodeView>, ids: Seq<NodeId>)
    requires
        bounded_list(arena, ids, 0),
    ensures
        present(arena, ids) == Seq::<NodeId>::empty(),
        preorder_list(arena, ids, 0) == Seq::<NodeId>::empty(),
    decreases ids.len(),
{
    if ids.len() > 0 {
        lemma_all_absent(arena, ids.drop_first());
        assert(bounded(arena, ids[0], 0));
        assert(preorder(arena, ids[0], 0) =~= Seq::<NodeId>::empty());
        assert(present(arena, ids) =~= Seq::<NodeId>::empty());
        assert(preorder_list(arena, ids, 0) =~= Seq::<NodeId>::empty());
    }
}

/// Pre-order, post-order and breadth-first order from a root with no
/// reachable cycle list the same ids, each equally often; so all three
/// have the same length, the node count.
pub proof fn law_orders_list_same_ids(arena: Seq<NodeView>, root: NodeId)
    requires
        finite_from(arena, root),
    ensures
        ordered(arena, root, TraversalOrder::PostOrder).to_multiset() == ordered(
            arena,
            root,
            TraversalOrder::PreOrder,
        ).to_multiset(),
        ordered(arena, root, TraversalOrder::BreadthFirst).to_multiset() == ordered(
            arena,
            root,
            TraversalOrder::PreOrder,
        ).to_multiset(),
        forall|o: TraversalOrder|
            #[trigger] ordered(arena, root, o).len() == preorder(arena, root, arena.len()).len(),
{
    let n = arena.len();
    lemma_pre_post_same_ids(arena, root, n);
    assert(seq![root].drop_first() =~= Seq::<NodeId>::empty());
    assert(seq![root][0] == root);
    assert(bounded_list(arena, seq![root].drop_first(), n));
    assert(bounded_list(arena, seq![root], n));
    lemma_levels_same_ids(arena, seq![root], n, n + 1);
    assert(preorder_list(arena, seq![root].drop_first(), n) =~= Seq::<NodeId>::empty());
    assert(preorder_list(arena, seq![root], n) =~= preorder(arena, root, n));
    preorder(arena, root, n).to_multiset_ensures();
    postorder(arena, root, n).to_multiset_ensures();
    breadth_first(arena, root).to_multiset_ensures();
    assert forall|o: TraversalOrder|
        #[trigger] ordered(arena, root, o).len() == preorder(arena, root, arena.len()).len() by {
        match o {
            TraversalOrder::PreOrder => {},
            TraversalOrder::PostOrder => {},
            TraversalOrder::BreadthFirst => {},
        }
    }
}

/// A present root with no reachable cycle comes first in pre-order and in
/// breadth-first order, and last in post-order.
pub proof fn law_root_first_and_last(arena: Seq<NodeView>, root: NodeId)
    requires
        finite_from(arena, root),
        node_at(arena, root) is Some,
    ensures
        preorder(arena, root, arena.len()).len() > 0,
        preorder(arena, root, arena.len())[0] == root,
        postorder(arena, root, arena.len()).len() > 0,
        postorder(arena, root, arena.len()).last() == root,
        breadth_first(arena, root).len() > 0,
        breadth_first(arena, root)[0] == root,
{
    let n = arena.len();
    assert(seq![root].drop_first() =~= Seq::<NodeId>::empty());
    assert(present(arena, seq![root]) =~= seq![root] + present(arena, Seq::<NodeId>::empty()));
    assert(present(arena, seq![root]) =~= seq![root]);
}

proof fn lemma_depth_within_count(arena: Seq<NodeView>, id: NodeId, n: nat)
    ensures
        depth(arena, id, n) <= preorder(arena, id, n).len(),
    decreases n, 0nat,
{
    match node_at(arena, id) {
        None => {},
        Some(node) => if n > 0 {
            lemma_depth_within_count_list(arena, node.children, (n - 1) as nat);
        },
    }
}

proof fn lemma_depth_within_count_list(arena: Seq<NodeView>, ids: Seq<NodeId>, n: nat)
    ensures
        depth_list(arena, ids, n) <= preorder_list(arena, ids, n).len(),
    decreases n, ids.len() + 1,
{
    if ids.len() > 0 {
        lemma_depth_within_count(arena, ids[0], n);
        lemma_depth_within_count_list(arena, ids.drop_first(), n);
    }
}

/// The depth is at most the node count, and at least 1 exactly when the
/// root is present.
pub proof fn law_depth_within_count(arena: Seq<NodeView>, root: NodeId)
    requires
        finite_from(arena, root),
    ensures
        depth(arena, root, arena.len()) <= preorder(arena, root, arena.len()).len(),
        (depth(arena, root, arena.len()) >= 1) == (node_at(arena, root) is Some),
{
    lemma_depth_within_count(arena, root, arena.len());
}

proof fn lemma_depth_list_is_max(arena: Seq<NodeView>, ids: Seq<NodeId>, n: nat)
    ensures
        forall|k: int| 0 <= k < ids.len() ==> depth_list(arena, ids, n) >= #[trigger] depth(arena, ids[k], n),
        ids.len() > 0 ==> exists|k: int|
            0 <= k < ids.len() && depth_list(arena, ids, n) == #[trigger] depth(arena, ids[k], n),
        ids.len() == 0 ==> depth_list(arena, ids, n) == 0,
    decreases ids.len(),
{
    if ids.len() > 0 {
        let rest = ids.drop_first();
        lemma_depth_list_is_max(arena, rest, n);
        assert forall|k: int| 0 <= k < ids.len() implies depth_list(arena, ids, n) >= #[trigger] depth(
            arena,
            ids[k],
            n,
        ) by {
            if k > 0 {
                assert(ids[k] == rest[k - 1]);
            }
        }
        if depth(arena, ids[0], n) >= depth_list(arena, rest, n) {
            assert(depth_list(arena, ids, n) == depth(arena, ids[0], n));
        } else {
            let j = choose|j: int| 0 <= j < rest.len() && depth_list(arena, rest, n) == #[trigger] depth(
                arena,
                rest[j],
                n,
            );
            assert(ids[j + 1] == rest[j]);
            assert(depth_list(arena, ids, n) == depth(arena, ids[j + 1], n));
        }
    }
}

proof fn lemma_depth_fuel(arena: Seq<NodeView>, id: NodeId, m: nat, n: nat)
    requires
        bounded(arena, id, m),
        m <= n,
    ensures
        depth(arena, id, n) == depth(arena, id, m),
    decreases m, 0nat,
{
    match node_at(arena, id) {
        None => {},
        Some(node) => {
            lemma_depth_fuel_list(arena, node.children, (m - 1) as nat, (n - 1) as nat);
        },
    }
}

proof fn lemma_depth_fuel_list(arena: Seq<NodeView>, ids: Seq<NodeId>, m: nat, n: nat)
    requires
        bounded_list(arena, ids, m),
        m <= n,
    ensures
        depth_list(arena, ids, n) == depth_list(arena, ids, m),
    decreases m, ids.len() + 1,
{
    if ids.len() > 0 {
        lemma_depth_fuel(arena, ids[0], m, n);
        lemma_depth_fuel_list(arena, ids.drop_first(), m, n);
    }
}

/// The depth of a tree with no reachable cycle is one more than the
/// greatest depth among the root's children: no child's tree is deeper
/// than the root's minus one, some child's tree is exactly that deep when
/// there are children, and a root without children has depth 1.
pub proof fn law_depth_is_one_more_than_deepest_child(arena: Seq<NodeView>, root: NodeId)
    requires
        finite_from(arena, root),
        node_at(arena, root) is Some,
    ensures
        ({
            let kids = node_at(arena, root)->0.children;
            let d = depth(arena, root, arena.len());
            &&& forall|k: int| 0 <= k < kids.len() ==> d >= #[trigger] depth(arena, kids[k], arena.len()) + 1
            &&& kids.len() > 0 ==> exists|k: int|
                0 <= k < kids.len() && d == #[trigger] depth(arena, kids[k], arena.len()) + 1
            &&& kids.len() == 0 ==> d == 1
        }),
{
    let kids = node_at(arena, root)->0.children;
    let l = arena.len();
    let m = (l - 1) as nat;
    lemma_depth_list_is_max(arena, kids, m);
    assert forall|k: int| 0 <= k < kids.len() implies depth(arena, kids[k], l) == depth(
        arena,
        kids[k],
        m,
    ) by {
        lemma_bounded_list_member(arena, kids, m, k);
        lemma_depth_fuel(arena, kids[k], m, l);
    }
    if kids.len() > 0 {
        let j = choose|j: int| 0 <= j < kids.len() && depth_list(arena, kids, m) == #[trigger] depth(
            arena,
            kids[j],
            m,
        );
        assert(depth(arena, kids[j], l) == depth(arena, kids[j], m));
    }
}

/// Traversal order.
#[derive(Clone, Copy, Debug, PartialEq, Eq, Structural)]
pub enum TraversalOrder {
    PreOrder,
    PostOrder,
    BreadthFirst,
}

/// Tree traversal over an arena of nodes.
pub struct Traversal<'a> {
    arena: &'a [AstNode],
    root: NodeId,
    order: TraversalOrder,
}

impl<'a> Traversal<'a> {
    /// The arena traversed, node by node.
    pub closed spec fn nodes(&self) -> Seq<NodeView> {
        view_of(self.arena@)
    }

    /// The node the traversal starts from.
    pub closed spec fn root(&self) -> NodeId {
        self.root
    }

    /// The order of the traversal.
    pub closed spec fn order(&self) -> TraversalOrder {
        self.order
    }

    /// Create a new traversal.
    pub fn new(arena: &'a [AstNode], root: NodeId, order: TraversalOrder) -> (r: Self)
        ensures
            r.nodes() == view_of(arena@),
            r.root() == root,
            r.order() == order,
    {
        Self { arena, root, order }
    }

    fn preorder_recursive(&self, id: NodeId, result: &mut Vec<NodeId>, Ghost(n): Ghost<nat>)
        requires
            bounded(self.nodes(), id, n),
        ensures
            final(result)@ == old(result)@ + preorder(self.nodes(), id, n),
        decreases n,
    {
        let i = id.as_u32() as usize;
        if i >= self.arena.len() {
            assert(preorder(self.nodes(), id, n) =~= seq![]);
            return ;
        }
        let node = &self.arena[i];
        let ghost arena = self.nodes();
        let ghost kids = node.children@;
        assert(arena.len() == self.arena@.len());
        assert(arena[i as int] == node@);
        assert(node_at(arena, id) == Some(node@));
        assert(kids.subrange(0, kids.len() as int) =~= kids);
        assert(n > 0);
        result.push(id);
        let ghost start = result@;
        let mut k: usize = 0;
        while k < node.children.len()
            invariant
                arena == self.nodes(),
                kids == node.children@,
                i < arena.len(),
                kids == arena[i as int].children,
                n > 0,
                k <= kids.len(),
                bounded_list(arena, kids.subrange(k as int, kids.len() as int), (n - 1) as nat),
                result@ + preorder_list(arena, kids.subrange(k as int, kids.len() as int), (n - 1) as nat)
                    == start + preorder_list(arena, kids, (n - 1) as nat),
            decreases kids.len() - k,
        {
            let child = node.children[k];
            let ghost before = result@;
            let ghost rest = kids.subrange(k as int, kids.len() as int);
            assert(rest[0] == child);
            assert(rest.drop_first() =~= kids.subrange(k + 1, kids.len() as int));
            self.preorder_recursive(child, result, Ghost((n - 1) as nat));
            assert(result@ + preorder_list(arena, kids.subrange(k + 1, kids.len() as int), (n - 1) as nat)
                =~= before + preorder_list(arena, rest, (n - 1) as nat));
            k = k + 1;
        }
        assert(kids.subrange(k as int, kids.len() as int) =~= Seq::<NodeId>::empty());
        assert(kids =~= kids.subrange(0, kids.len() as int));
        assert(result@ =~= old(result)@ + preorder(arena, id, n));
    }

    fn postorder_recursive(&self, id: NodeId, result: &mut Vec<NodeId>, Ghost(n): Ghost<nat>)
        requires
            bounded(self.nodes(), id, n),
        ensures
            final(result)@ == old(result)@ + postorder(self.nodes(), id, n),
        decreases n,
    {
        let i = id.as_u32() as usize;
        if i >= self.arena.len() {
            assert(postorder(self.nodes(), id, n) =~= seq![]);
            return ;
        }
        let node = &self.arena[i];
        let ghost arena = self.nodes();
        let ghost kids = node.children@;
        assert(arena.len() == self.arena@.len());
        assert(arena[i as int] == node@);
        assert(node_at(arena, id) == Some(node@));
        assert(kids.subrange(0, kids.len() as int) =~= kids);
        let ghost start = result@;
        let mut k: usize = 0;
        while k < node.children.len()
            invariant
                arena == self.nodes(),
                kids == node.children@,
                i < arena.len(),
                kids == arena[i as int].children,
                n > 0,
                k <= kids.len(),
                bounded_list(arena, kids.subrange(k as int, kids.len() as int), (n - 1) as nat),
                result@ + postorder_list(arena, kids.subrange(k as int, kids.len() as int), (n - 1) as nat)
                    == start + postorder_list(arena, kids, (n - 1) as nat),
            decreases kids.len() - k,
        {
            let child = node.children[k];
            let ghost before = result@;
            let ghost rest = kids.subrange(k as int, kids.len() as int);
            assert(rest[0] == child);
            assert(rest.drop_first() =~= kids.subrange(k + 1, kids.len() as int));
            self.postorder_recursive(child, result, Ghost((n - 1) as nat));
            assert(result@ + postorder_list(arena, kids.subrange(k + 1, kids.len() as int), (n - 1) as nat)
                =~= before + postorder_list(arena, rest, (n - 1) as nat));
            k = k + 1;
        }
        assert(kids.subrange(k as int, kids.len() as int) =~= Seq::<NodeId>::empty());
        result.push(id);
        assert(result@ =~= old(result)@ + postorder(arena, id, n));
    }

    fn depth_recursive(&self, id: NodeId, Ghost(n): Ghost<nat>) -> (r: usize)
        requires
            bounded(self.nodes(), id, n),
            n <= self.nodes().len(),
        ensures
            r == depth(self.nodes(), id, n),
            r <= n,
        decreases n,
    {
        let i = id.as_u32() as usize;
        if i >= self.arena.len() {
            return 0;
        }
        let node = &self.arena[i];
        let ghost arena = self.nodes();
        let ghost kids = node.children@;
        assert(arena.len() == self.arena@.len());
        assert(arena[i as int] == node@);
        assert(node_at(arena, id) == Some(node@));
        assert(kids.subrange(0, kids.len() as int) =~= kids);
        if node.children.len() == 0 {
            return 1;
        }
        let mut deepest: usize = 0;
        let mut k: usize = 0;
        while k < node.children.len()
            invariant
                arena == self.nodes(),
                kids == node.children@,
                i < arena.len(),
                kids == arena[i as int].children,
                0 < n <= arena.len(),
                k <= kids.len(),
                deepest <= n - 1,
                bounded_list(arena, kids.subrange(k as int, kids.len() as int), (n - 1) as nat),
                ({
                    let rest = depth_list(arena, kids.subrange(k as int, kids.len() as int), (n - 1) as nat);
                    (if deepest >= rest { deepest as nat } else { rest }) == depth_list(arena, kids, (n - 1) as nat)
                }),
            decreases kids.len() - k,
        {
            let child = node.children[k];
            let ghost rest = kids.subrange(k as int, kids.len() as int);
            assert(rest[0] == child);
            assert(rest.drop_first() =~= kids.subrange(k + 1, kids.len() as int));
            let d = self.depth_recursive(child, Ghost((n - 1) as nat));
            if d > deepest {
                deepest = d;
            }
            k = k + 1;
        }
        assert(kids.subrange(k as int, kids.len() as int) =~= Seq::<NodeId>::empty());
        deepest + 1
    }

    fn collect_bfs(&self) -> (r: Vec<NodeId>)
        requires
            finite_from(self.nodes(), self.root()),
        ensures
            r@ == breadth_first(self.nodes(), self.root()),
    {
        let ghost arena = self.nodes();
        let ghost root = self.root;
        let ghost nn = arena.len();
        let ghost f: nat = nn + 1;
        let ghost target = breadth_first(arena, root);
        let mut result: Vec<NodeId> = Vec::new();
        let mut queue: VecDeque<NodeId> = VecDeque::new();
        queue.push_back(self.root);
        let ghost mut k: nat = 0;
        let ghost mut i: nat = 0;
        proof {
            assert(arena.len() == self.arena@.len());
            assert(level(arena, root, 0) =~= seq![root]);
            assert(level(arena, root, 0).take(0) =~= Seq::<NodeId>::empty());
            assert(level(arena, root, 0).skip(0) =~= seq![root]);
            assert(next_level(arena, Seq::<NodeId>::empty()) =~= Seq::<NodeId>::empty());
            assert(queue@ =~= level(arena, root, 0).skip(0) + next_level(arena, level(arena, root, 0).take(0)));
            assert(level(arena, root, 1) == next_level(arena, level(arena, root, 0)));
            assert(result@ + present(arena, level(arena, root, 0)) + levels(arena, level(arena, root, 1), (f - 1) as nat)
                =~= target);
        }
        while queue.len() > 0
            invariant
                arena == self.nodes(),
                arena.len() == self.arena@.len(),
                root == self.root,
                nn == arena.len(),
                f == nn + 1,
                bounded(arena, root, nn),
                target == breadth_first(arena, root),
                k < f,
                i <= level(arena, root, k).len(),
                queue@ == level(arena, root, k).skip(i as int) + next_level(arena, level(arena, root, k).take(i as int)),
                result@ + present(arena, level(arena, root, k).skip(i as int))
                    + levels(arena, level(arena, root, k + 1), (f - k - 1) as nat) == target,
            decreases level(arena, root, k).skip(i as int).len() + levels_len(arena, level(arena, root, k + 1), (f - k - 1) as nat),
        {
            proof {
                if i == level(arena, root, k).len() {
                    let lk = level(arena, root, k);
                    let lk1 = level(arena, root, k + 1);
                    assert(lk.skip(i as int) =~= Seq::<NodeId>::empty());
                    assert(lk.take(i as int) =~= lk);
                    assert(queue@ =~= lk1);
                    if k + 1 >= f {
                        lemma_level_past_bound(arena, root, nn);
                        assert(false);
                    }
                    assert(present(arena, lk.skip(i as int)) =~= Seq::<NodeId>::empty());
                    assert(lk1.skip(0) =~= lk1);
                    assert(lk1.take(0) =~= Seq::<NodeId>::empty());
                    assert(next_level(arena, Seq::<NodeId>::empty()) =~= Seq::<NodeId>::empty());
                    assert(level(arena, root, k + 2) == next_level(arena, lk1));
                    assert(result@ + present(arena, lk1.skip(0)) + levels(arena, level(arena, root, k + 2), (f - k - 2) as nat)
                        =~= result@ + present(arena, lk.skip(i as int)) + levels(arena, lk1, (f - k - 1) as nat));
                    k = k + 1;
                    i = 0;
                }
            }
            let ghost lk = level(arena, root, k);
            let ghost q0 = queue@;
            let ghost before = result@;
            assert(lk.skip(i as int).len() > 0) by {
                if lk.skip(i as int).len() == 0 {
                    assert(i == lk.len());
                }
            }
            let id = queue.pop_front().unwrap();
            assert(id == lk[i as int]);
            assert(lk.skip(i as int).drop_first() =~= lk.skip(i + 1int));
            assert(lk.take(i + 1int) =~= lk.take(i as int) + seq![id]);
            proof {
                lemma_next_level_concat(arena, lk.take(i as int), seq![id]);
                assert(seq![id].drop_first() =~= Seq::<NodeId>::empty());
                assert(seq![id][0] == id);
                assert(next_level(arena, Seq::<NodeId>::empty()) =~= Seq::<NodeId>::empty());
                assert(children_of(arena, id) + Seq::<NodeId>::empty() =~= children_of(arena, id));
                assert(next_level(arena, seq![id]) =~= children_of(arena, id));
            }
            let idx = id.as_u32() as usize;
            if idx < self.arena.len() {
                let node = &self.arena[idx];
                assert(node_at(arena, id) == Some(node@));
                result.push(id);
                let ghost base = queue@;
                let mut m: usize = 0;
                while m < node.children.len()
                    invariant
                        m <= node.children@.len(),
                        queue@ == base + node.children@.take(m as int),
                    decreases node.children@.len() - m,
                {
                    queue.push_back(node.children[m]);
                    assert(node.children@.take(m + 1) =~= node.children@.take(m as int).push(node.children@[m as int]));
                    m = m + 1;
                }
                assert(node.children@.take(m as int) =~= node.children@);
                assert(queue@ =~= lk.skip(i + 1int) + next_level(arena, lk.take(i + 1int)));
                assert(result@ + present(arena, lk.skip(i + 1int)) + levels(arena, level(arena, root, k + 1), (f - k - 1) as nat)
                    =~= before + present(arena, lk.skip(i as int)) + levels(arena, level(arena, root, k + 1), (f - k - 1) as nat));
            } else {
                assert(node_at(arena, id) is None);
                assert(children_of(arena, id) =~= Seq::<NodeId>::empty());
                assert(queue@ =~= lk.skip(i + 1int) + next_level(arena, lk.take(i + 1int)));
                assert(result@ + present(arena, lk.skip(i + 1int)) + levels(arena, level(arena, root, k + 1), (f - k - 1) as nat)
                    =~= before + present(arena, lk.skip(i as int)) + levels(arena, level(arena, root, k + 1), (f - k - 1) as nat));
            }
            proof {
                i = i + 1;
            }
        }
        proof {
            let lk = level(arena, root, k);
            if i < lk.len() {
                assert(queue@.len() > 0);
            }
            assert(lk.skip(i as int) =~= Seq::<NodeId>::empty());
            assert(lk.take(i as int) =~= lk);
            assert(level(arena, root, k + 1) =~= Seq::<NodeId>::empty());
            lemma_levels_of_empty(arena, (f - k - 1) as nat);
            assert(present(arena, lk.skip(i as int)) =~= Seq::<NodeId>::empty());
            assert(result@ =~= target);
        }
        result
    }

    /// Collect all node IDs in the specified order.
    pub fn collect(&self) -> (r: Vec<NodeId>)
        requires
            finite_from(self.nodes(), self.root()),
        ensures
            r@ == ordered(self.nodes(), self.root(), self.order()),
    {
        match self.order {
            TraversalOrder::PreOrder => self.collect_preorder(),
            TraversalOrder::PostOrder => self.collect_postorder(),
            TraversalOrder::BreadthFirst => self.collect_bfs(),
        }
    }

    fn collect_preorder(&self) -> (r: Vec<NodeId>)
        requires
            finite_from(self.nodes(), self.root()),
        ensures
            r@ == preorder(self.nodes(), self.root(), self.nodes().len()),
    {
        let mut result = Vec::new();
        self.preorder_recursive(self.root, &mut result, Ghost(self.nodes().len()));
        assert(result@ =~= preorder(self.nodes(), self.root(), self.nodes().len()));
        result
    }

    fn collect_postorder(&self) -> (r: Vec<NodeId>)
        requires
            finite_from(self.nodes(), self.root()),
        ensures
            r@ == postorder(self.nodes(), self.root(), self.nodes().len()),
    {
        let mut result = Vec::new();
        self.postorder_recursive(self.root, &mut result, Ghost(self.nodes().len()));
        assert(result@ =~= postorder(self.nodes(), self.root(), self.nodes().len()));
        result
    }

    /// Returns the depth of the tree: 0 when the root is out of bounds,
    /// else the number of nodes on a longest downward path from it.
    pub fn depth(&self) -> (r: usize)
        requires
            finite_from(self.nodes(), self.root()),
        ensures
            r == depth(self.nodes(), self.root(), self.nodes().len()),
    {
        self.depth_recursive(self.root, Ghost(self.nodes().len()))
    }

    /// Count total nodes: the length of the pre-order.
    pub fn node_count(&self) -> (r: usize)
        requires
            finite_from(self.nodes(), self.root()),
        ensures
            r == preorder(self.nodes(), self.root(), self.nodes().len()).len(),
    {
        self.collect_preorder().len()
    }
}

} // verus!
