use ast_builder::node::{AstNode, NodeId, NodeKind};
use ast_builder::visitor::{
    outcome_after_pre, walk, Collector, LimitedVisitor, NodeCounter, VisitResult, Visitor,
};

fn build_simple_tree() -> Vec<AstNode> {
    let mut nodes = Vec::new();
    let mut root = AstNode::new(NodeId::new(0), NodeKind::Module);
    let mut func = AstNode::new(NodeId::new(1), NodeKind::Function { name: "main".into() });
    let block = AstNode::new(NodeId::new(2), NodeKind::Block);
    func.add_child(NodeId::new(2));
    root.add_child(NodeId::new(1));
    nodes.push(root);
    nodes.push(func);
    nodes.push(block);
    nodes
}

#[test]
fn test_collector() {
    let arena = build_simple_tree();
    let mut collector = Collector::new();
    walk(&arena, NodeId::new(0), &mut collector);
    assert_eq!(collector.ids.len(), 3);
}

#[test]
fn test_counter() {
    let arena = build_simple_tree();
    let mut counter = NodeCounter::new();
    walk(&arena, NodeId::new(0), &mut counter);
    assert_eq!(counter.count, 3);
}

#[test]
fn test_limited_visitor() {
    let arena = build_simple_tree();
    let mut limited = LimitedVisitor::new(2);
    walk(&arena, NodeId::new(0), &mut limited);
    assert_eq!(limited.visited.len(), 2);
}

#[test]
fn test_skip_children() {
    struct SkipFn;
    impl Visitor for SkipFn {
        fn visit_pre(&mut self, node: &AstNode) -> VisitResult {
            if node.is_function() {
                VisitResult::SkipChildren
            } else {
                VisitResult::Continue
            }
        }
        fn visit_post(&mut self, _node: &AstNode) -> VisitResult {
            VisitResult::Continue
        }
    }
    let arena = build_simple_tree();
    let mut collector = Collector::new();
    // Need to use a combined approach
    let mut skipper = SkipFn;
    walk(&arena, NodeId::new(0), &mut skipper);
    // Module + Function (block skipped)
}

#[test]
fn collector_gathers_preorder_ids() {
    let arena = build_simple_tree();
    let mut collector = Collector::default();
    walk(&arena, NodeId::new(0), &mut collector);
    assert_eq!(collector.ids, vec![NodeId::new(0), NodeId::new(1), NodeId::new(2)]);
}

#[test]
fn limited_visitor_keeps_the_first_nodes() {
    let arena = build_simple_tree();
    let mut limited = LimitedVisitor::new(2);
    walk(&arena, NodeId::new(0), &mut limited);
    assert_eq!(limited.visited, vec![NodeId::new(0), NodeId::new(1)]);
    assert_eq!(limited.limit, 2);
    let mut none = LimitedVisitor::new(0);
    walk(&arena, NodeId::new(0), &mut none);
    assert!(none.visited.is_empty());
}

#[test]
fn counter_default_starts_at_zero() {
    let c = NodeCounter::default();
    assert_eq!(c.count, 0);
}

#[test]
fn dangling_child_stops_the_walk() {
    let mut arena = build_simple_tree();
    arena[0].children.insert(0, NodeId::new(9));
    let mut collector = Collector::new();
    walk(&arena, NodeId::new(0), &mut collector);
    assert_eq!(collector.ids, vec![NodeId::new(0)]);
}

#[test]
fn skip_children_skips_the_subtree() {
    struct SkipFunctions {
        seen: Vec<NodeId>,
        posts: usize,
    }
    impl Visitor for SkipFunctions {
        fn visit_pre(&mut self, node: &AstNode) -> VisitResult {
            self.seen.push(node.id);
            if node.is_function() {
                VisitResult::SkipChildren
            } else {
                VisitResult::Continue
            }
        }
        fn visit_post(&mut self, _node: &AstNode) -> VisitResult {
            self.posts += 1;
            VisitResult::Continue
        }
    }
    let arena = build_simple_tree();
    let mut v = SkipFunctions { seen: Vec::new(), posts: 0 };
    walk(&arena, NodeId::new(0), &mut v);
    assert_eq!(v.seen, vec![NodeId::new(0), NodeId::new(1)]);
    assert_eq!(v.posts, 1);
}

#[test]
fn outcome_after_each_answer() {
    assert_eq!(outcome_after_pre(VisitResult::Continue), None);
    assert_eq!(outcome_after_pre(VisitResult::SkipChildren), Some(VisitResult::Continue));
    assert_eq!(outcome_after_pre(VisitResult::Stop), Some(VisitResult::Stop));
}
