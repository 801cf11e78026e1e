use ast_builder::builder::AstBuilder;
use ast_builder::node::NodeId;
use ast_builder::traversal::{Traversal, TraversalOrder};

fn build_tree() -> (AstBuilder, NodeId) {
    let mut b = AstBuilder::new();
    let root = b.module();
    let func = b.function("f");
    let block = b.block();
    let stmt = b.var_decl("x");
    b.add_child(root, func);
    b.add_child(func, block);
    b.add_child(block, stmt);
    (b, root)
}

#[test]
fn test_preorder() {
    let (b, root) = build_tree();
    let t = Traversal::new(b.arena(), root, TraversalOrder::PreOrder);
    let ids = t.collect();
    assert_eq!(ids.len(), 4);
    assert_eq!(ids[0], root);
}

#[test]
fn test_postorder() {
    let (b, root) = build_tree();
    let t = Traversal::new(b.arena(), root, TraversalOrder::PostOrder);
    let ids = t.collect();
    assert_eq!(ids.len(), 4);
    // Leaf should come first in post-order
    assert_eq!(ids[0], b.arena().iter().find(|n| n.is_leaf()).unwrap().id);
}

#[test]
fn test_bfs() {
    let (b, root) = build_tree();
    let t = Traversal::new(b.arena(), root, TraversalOrder::BreadthFirst);
    let ids = t.collect();
    assert_eq!(ids.len(), 4);
    assert_eq!(ids[0], root);
}

#[test]
fn test_depth() {
    let (b, root) = build_tree();
    let t = Traversal::new(b.arena(), root, TraversalOrder::PreOrder);
    assert_eq!(t.depth(), 4);
}

#[test]
fn test_node_count() {
    let (b, root) = build_tree();
    let t = Traversal::new(b.arena(), root, TraversalOrder::PreOrder);
    assert_eq!(t.node_count(), 4);
}

#[test]
fn test_single_node() {
    let mut b = AstBuilder::new();
    let root = b.literal("42");
    let t = Traversal::new(b.arena(), root, TraversalOrder::PreOrder);
    assert_eq!(t.node_count(), 1);
    assert_eq!(t.depth(), 1);
}

fn build_wide() -> (AstBuilder, NodeId) {
    // 0 -> [1, 2], 1 -> [3, 4], 2 -> [5]
    let mut b = AstBuilder::new();
    let root = b.module();
    let a = b.function("a");
    let c = b.function("c");
    let a1 = b.literal("a1");
    let a2 = b.literal("a2");
    let c1 = b.literal("c1");
    b.add_child(root, a);
    b.add_child(root, c);
    b.add_child(a, a1);
    b.add_child(a, a2);
    b.add_child(c, c1);
    (b, root)
}

fn ids(v: &[u32]) -> Vec<NodeId> {
    v.iter().map(|&i| NodeId::new(i)).collect()
}

#[test]
fn orders_on_a_wide_tree() {
    let (b, root) = build_wide();
    let pre = Traversal::new(b.arena(), root, TraversalOrder::PreOrder).collect();
    let post = Traversal::new(b.arena(), root, TraversalOrder::PostOrder).collect();
    let bfs = Traversal::new(b.arena(), root, TraversalOrder::BreadthFirst).collect();
    assert_eq!(pre, ids(&[0, 1, 3, 4, 2, 5]));
    assert_eq!(post, ids(&[3, 4, 1, 5, 2, 0]));
    assert_eq!(bfs, ids(&[0, 1, 2, 3, 4, 5]));
    let t = Traversal::new(b.arena(), root, TraversalOrder::BreadthFirst);
    assert_eq!(t.depth(), 3);
    assert_eq!(t.node_count(), 6);
}

#[test]
fn all_orders_list_the_same_nodes() {
    let (b, root) = build_wide();
    let mut pre = Traversal::new(b.arena(), root, TraversalOrder::PreOrder).collect();
    let mut post = Traversal::new(b.arena(), root, TraversalOrder::PostOrder).collect();
    let mut bfs = Traversal::new(b.arena(), root, TraversalOrder::BreadthFirst).collect();
    pre.sort();
    post.sort();
    bfs.sort();
    assert_eq!(pre, post);
    assert_eq!(pre, bfs);
}

#[test]
fn missing_root_gives_nothing() {
    let (b, _) = build_tree();
    let t = Traversal::new(b.arena(), NodeId::new(40), TraversalOrder::PreOrder);
    assert!(t.collect().is_empty());
    assert_eq!(t.depth(), 0);
    assert_eq!(t.node_count(), 0);
    let t = Traversal::new(b.arena(), NodeId::new(40), TraversalOrder::BreadthFirst);
    assert!(t.collect().is_empty());
}

#[test]
fn dangling_children_are_skipped() {
    let mut b = AstBuilder::new();
    let root = b.block();
    let kid = b.literal("k");
    b.add_child(root, NodeId::new(77));
    b.add_child(root, kid);
    for order in [TraversalOrder::PreOrder, TraversalOrder::PostOrder, TraversalOrder::BreadthFirst] {
        let t = Traversal::new(b.arena(), root, order);
        assert_eq!(t.collect().len(), 2);
    }
    let t = Traversal::new(b.arena(), root, TraversalOrder::PreOrder);
    assert_eq!(t.depth(), 2);
}

#[test]
fn shared_children_are_listed_each_time() {
    let mut b = AstBuilder::new();
    let root = b.block();
    let shared = b.literal("s");
    b.add_child(root, shared);
    b.add_child(root, shared);
    let t = Traversal::new(b.arena(), root, TraversalOrder::PreOrder);
    assert_eq!(t.collect(), vec![root, shared, shared]);
    let t = Traversal::new(b.arena(), root, TraversalOrder::BreadthFirst);
    assert_eq!(t.collect(), vec![root, shared, shared]);
}
