use ast_builder::builder::AstBuilder;
use ast_builder::node::{NodeId, NodeKind};

#[test]
fn test_builder_basic() {
    let mut b = AstBuilder::new();
    let id = b.literal("42");
    let node = b.get(id).unwrap();
    assert!(node.is_literal());
}

#[test]
fn test_builder_tree() {
    let mut b = AstBuilder::new();
    let module = b.module();
    let func = b.function("main");
    let block = b.block();
    b.add_child(module, func);
    b.add_child(func, block);
    assert_eq!(b.get(module).unwrap().child_count(), 1);
    assert_eq!(b.get(func).unwrap().child_count(), 1);
}

#[test]
fn test_builder_parent_tracking() {
    let mut b = AstBuilder::new();
    let parent = b.module();
    let child = b.literal("1");
    b.add_child(parent, child);
    assert_eq!(b.get(child).unwrap().parent, Some(parent));
}

#[test]
fn test_builder_node_types() {
    let mut b = AstBuilder::new();
    let v = b.var_decl("x");
    let binop = b.binary_op("+");
    let unop = b.unary_op("-");
    let ident = b.ident("y");
    let ret = b.return_stmt();
    let iff = b.if_stmt();
    let wh = b.while_loop();
    assert!(matches!(b.get(v).unwrap().kind, NodeKind::VarDecl { .. }));
    assert!(matches!(b.get(binop).unwrap().kind, NodeKind::BinaryOp { .. }));
    assert!(matches!(b.get(unop).unwrap().kind, NodeKind::UnaryOp { .. }));
    assert!(matches!(b.get(ident).unwrap().kind, NodeKind::Ident { .. }));
    assert!(matches!(b.get(ret).unwrap().kind, NodeKind::Return));
    assert!(matches!(b.get(iff).unwrap().kind, NodeKind::If));
    assert!(matches!(b.get(wh).unwrap().kind, NodeKind::While));
}

#[test]
fn test_builder_arena() {
    let mut b = AstBuilder::new();
    b.module();
    b.function("f");
    assert_eq!(b.arena().len(), 2);
}

#[test]
fn test_complex_expression() {
    let mut b = AstBuilder::new();
    // Build: x + (y * 2)
    let plus = b.binary_op("+");
    let x = b.ident("x");
    let mul = b.binary_op("*");
    let y = b.ident("y");
    let two = b.literal("2");
    b.add_child(plus, x);
    b.add_child(plus, mul);
    b.add_child(mul, y);
    b.add_child(mul, two);
    let node = b.get(plus).unwrap();
    assert_eq!(node.child_count(), 2);
}

#[test]
fn allocation_hands_out_consecutive_ids() {
    let mut b = AstBuilder::default();
    assert!(b.is_empty());
    let a = b.module();
    let c = b.allocate(NodeKind::If);
    assert_eq!(a, NodeId::new(0));
    assert_eq!(c, NodeId::new(1));
    assert_eq!(b.len(), 2);
    assert!(!b.is_empty());
    let node = b.get(c).unwrap();
    assert_eq!(node.id, c);
    assert_eq!(node.kind, NodeKind::If);
    assert!(node.children.is_empty());
    assert_eq!(node.parent, None);
}

#[test]
fn read_gives_back_written_names() {
    let mut b = AstBuilder::new();
    let f = b.function("main");
    let v = b.var_decl("x");
    let l = b.literal("3");
    assert_eq!(b.get(f).unwrap().kind, NodeKind::Function { name: "main".into() });
    assert_eq!(b.get(v).unwrap().name(), Some("x"));
    assert_eq!(b.get(l).unwrap().kind, NodeKind::Literal { value: "3".into() });
}

#[test]
fn get_out_of_bounds_is_none() {
    let mut b = AstBuilder::new();
    assert!(b.get(NodeId::new(0)).is_none());
    b.block();
    assert!(b.get(NodeId::new(1)).is_none());
    assert!(b.get_mut(NodeId::new(5)).is_none());
}

#[test]
fn add_child_with_dangling_ids_changes_only_what_exists() {
    let mut b = AstBuilder::new();
    let p = b.block();
    b.add_child(p, NodeId::new(9));
    assert_eq!(b.get(p).unwrap().children, vec![NodeId::new(9)]);
    b.add_child(NodeId::new(8), p);
    assert_eq!(b.get(p).unwrap().parent, Some(NodeId::new(8)));
    assert_eq!(b.len(), 1);
}

#[test]
fn get_mut_writes_through() {
    let mut b = AstBuilder::new();
    let id = b.ident("a");
    b.get_mut(id).unwrap().kind = NodeKind::Ident { name: "b".into() };
    assert_eq!(b.get(id).unwrap().name(), Some("b"));
}

#[test]
fn children_keep_their_order() {
    let mut b = AstBuilder::new();
    let p = b.block();
    let c1 = b.literal("1");
    let c2 = b.literal("2");
    let c3 = b.literal("3");
    b.add_child(p, c2);
    b.add_child(p, c1);
    b.add_child(p, c3);
    assert_eq!(b.get(p).unwrap().children, vec![c2, c1, c3]);
}
