use std::cmp::Ordering;
use ast_builder::node::{AstNode, NodeId, NodeKind};

#[test]
fn test_node_creation() {
    let id = NodeId::new(0);
    let node = AstNode::new(id, NodeKind::Module);
    assert!(node.is_leaf());
    assert_eq!(node.child_count(), 0);
}

#[test]
fn test_add_children() {
    let id = NodeId::new(0);
    let mut node = AstNode::new(id, NodeKind::Block);
    node.add_child(NodeId::new(1));
    node.add_child(NodeId::new(2));
    assert_eq!(node.child_count(), 2);
    assert!(!node.is_leaf());
}

#[test]
fn test_function_node() {
    let node = AstNode::new(NodeId::new(0), NodeKind::Function { name: "main".into() });
    assert!(node.is_function());
    assert_eq!(node.name(), Some("main"));
}

#[test]
fn test_literal_node() {
    let node = AstNode::new(NodeId::new(0), NodeKind::Literal { value: "42".into() });
    assert!(node.is_literal());
    assert!(node.name().is_none());
}

#[test]
fn test_node_id_ordering() {
    let a = NodeId::new(0);
    let b = NodeId::new(1);
    assert!(a < b);
}

#[test]
fn node_id_round_trips_its_number() {
    assert_eq!(NodeId::new(7).as_u32(), 7);
    assert_eq!(NodeId::new(u32::MAX).as_u32(), u32::MAX);
}

#[test]
fn names_of_named_kinds() {
    let var = AstNode::new(NodeId::new(1), NodeKind::VarDecl { name: "x".into() });
    let ident = AstNode::new(NodeId::new(2), NodeKind::Ident { name: "y".into() });
    let op = AstNode::new(NodeId::new(3), NodeKind::BinaryOp { op: "+".into() });
    assert_eq!(var.name(), Some("x"));
    assert_eq!(ident.name(), Some("y"));
    assert_eq!(op.name(), None);
    assert!(!var.is_function());
    assert!(!var.is_literal());
}

#[test]
fn new_node_has_no_parent() {
    let node = AstNode::new(NodeId::new(4), NodeKind::Return);
    assert_eq!(node.parent, None);
    assert_eq!(node.id, NodeId::new(4));
}

#[test]
fn clone_keeps_the_kind() {
    let kind = NodeKind::Literal { value: "7".into() };
    assert_eq!(kind.clone(), kind);
    assert_eq!(NodeKind::While.clone(), NodeKind::While);
}

#[test]
fn ids_compare_as_their_numbers() {
    assert_eq!(NodeId::new(3).partial_cmp(&NodeId::new(7)), Some(Ordering::Less));
    assert_eq!(NodeId::new(7).partial_cmp(&NodeId::new(3)), Some(Ordering::Greater));
    assert_eq!(NodeId::new(5).partial_cmp(&NodeId::new(5)), Some(Ordering::Equal));
    assert!(NodeId::new(u32::MAX) > NodeId::new(0));
    assert!(NodeId::new(4) <= NodeId::new(4));
    assert_eq!(NodeId::new(2).cmp(&NodeId::new(9)), Ordering::Less);
}
