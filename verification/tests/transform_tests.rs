use ast_builder::builder::AstBuilder;
use ast_builder::node::{NodeId, NodeKind};
use ast_builder::transform::{apply_transform, deep_clone, EnsureBlock, ReplaceLiterals, Transform};

#[test]
fn test_replace_literals() {
    let mut b = AstBuilder::new();
    let lit = b.literal("0");
    let id_node = b.ident("x");
    let binop = b.binary_op("+");
    b.add_child(binop, lit);
    b.add_child(binop, id_node);

    let transform = ReplaceLiterals { new_value: "1".into() };
    let new_lit = transform.transform(&mut b, lit);
    let node = b.get(new_lit).unwrap();
    assert!(matches!(&node.kind, NodeKind::Literal { value } if value == "1"));
}

#[test]
fn test_replace_preserves_non_literal() {
    let mut b = AstBuilder::new();
    let id_node = b.ident("x");
    let transform = ReplaceLiterals { new_value: "1".into() };
    let result = transform.transform(&mut b, id_node);
    assert_eq!(result, id_node);
}

#[test]
fn test_deep_clone() {
    let mut b = AstBuilder::new();
    let root = b.module();
    let func = b.function("f");
    b.add_child(root, func);

    let mut b2 = AstBuilder::new();
    let cloned = deep_clone(&mut b2, &b, root);
    assert_eq!(b2.get(cloned).unwrap().child_count(), 1);
}

#[test]
fn test_apply_transform() {
    let mut b = AstBuilder::new();
    let lit = b.literal("old");
    let transform = ReplaceLiterals { new_value: "new".into() };
    let result = apply_transform(&mut b, lit, &transform);
    let node = b.get(result).unwrap();
    if let NodeKind::Literal { value } = &node.kind {
        assert_eq!(value, "new");
    }
}

#[test]
fn test_ensure_block() {
    let mut b = AstBuilder::new();
    let func = b.function("f");
    let stmt = b.var_decl("x");
    b.add_child(func, stmt);

    let transform = EnsureBlock;
    let new_func = transform.transform(&mut b, func);
    let node = b.get(new_func).unwrap();
    // Should have wrapped in a block
    assert_eq!(node.child_count(), 1);
}

#[test]
fn replaced_literal_takes_over_children() {
    let mut b = AstBuilder::new();
    let lit = b.literal("0");
    let kid = b.ident("k");
    b.add_child(lit, kid);
    let t = ReplaceLiterals { new_value: "9".into() };
    let fresh = t.transform(&mut b, lit);
    assert_eq!(fresh, NodeId::new(2));
    assert_eq!(b.len(), 3);
    assert_eq!(b.get(fresh).unwrap().children, vec![kid]);
    assert_eq!(b.get(kid).unwrap().parent, Some(fresh));
    // the old literal stays where it was
    assert_eq!(b.get(lit).unwrap().kind, NodeKind::Literal { value: "0".into() });
}

#[test]
fn replace_on_missing_id_changes_nothing() {
    let mut b = AstBuilder::new();
    b.literal("0");
    let t = ReplaceLiterals { new_value: "9".into() };
    let r = t.transform(&mut b, NodeId::new(5));
    assert_eq!(r, NodeId::new(5));
    assert_eq!(b.len(), 1);
}

#[test]
fn ensure_block_moves_children_into_the_block() {
    let mut b = AstBuilder::new();
    let func = b.function("f");
    let s1 = b.var_decl("x");
    let s2 = b.return_stmt();
    b.add_child(func, s1);
    b.add_child(func, s2);
    let new_func = EnsureBlock.transform(&mut b, func);
    assert_eq!(new_func, NodeId::new(4));
    let block = NodeId::new(3);
    assert_eq!(b.get(new_func).unwrap().children, vec![block]);
    assert_eq!(b.get(new_func).unwrap().name(), Some("f"));
    assert_eq!(b.get(block).unwrap().kind, NodeKind::Block);
    assert_eq!(b.get(block).unwrap().children, vec![s1, s2]);
    assert_eq!(b.get(block).unwrap().parent, Some(new_func));
    assert_eq!(b.get(s1).unwrap().parent, Some(block));
}

#[test]
fn ensure_block_leaves_blocked_functions_and_others_alone() {
    let mut b = AstBuilder::new();
    let func = b.function("f");
    let body = b.block();
    b.add_child(func, body);
    assert_eq!(EnsureBlock.transform(&mut b, func), func);
    assert_eq!(b.len(), 2);
    let lit = b.literal("1");
    assert_eq!(EnsureBlock.transform(&mut b, lit), lit);
    assert_eq!(b.len(), 3);
}

#[test]
fn deep_clone_copies_in_preorder() {
    let mut src = AstBuilder::new();
    let root = src.module();
    let f = src.function("f");
    let g = src.function("g");
    let body = src.block();
    src.add_child(root, f);
    src.add_child(f, body);
    src.add_child(root, g);

    let mut dst = AstBuilder::new();
    dst.literal("already here");
    let copy = deep_clone(&mut dst, &src, root);
    assert_eq!(copy, NodeId::new(1));
    assert_eq!(dst.len(), 5);
    let kinds: Vec<NodeKind> = dst.arena().iter().map(|n| n.kind.clone()).collect();
    assert_eq!(
        kinds,
        vec![
            NodeKind::Literal { value: "already here".into() },
            NodeKind::Module,
            NodeKind::Function { name: "f".into() },
            NodeKind::Block,
            NodeKind::Function { name: "g".into() },
        ]
    );
    assert_eq!(dst.get(copy).unwrap().children, vec![NodeId::new(2), NodeId::new(4)]);
    assert_eq!(dst.get(NodeId::new(3)).unwrap().parent, Some(NodeId::new(2)));
}

#[test]
fn ensure_block_wraps_the_non_block_children_beside_a_block() {
    let mut b = AstBuilder::new();
    let f = b.function("f");
    let k = b.block();
    let x = b.var_decl("x");
    b.add_child(f, k);
    b.add_child(f, x);
    let r = EnsureBlock.transform(&mut b, f);
    assert_ne!(r, f);
    let kids = b.get(r).unwrap().children.clone();
    for c in &kids {
        assert_eq!(b.get(*c).unwrap().kind, NodeKind::Block);
    }
    let fresh = NodeId::new(3);
    assert_eq!(kids, vec![fresh, k]);
    assert_eq!(b.get(fresh).unwrap().children, vec![x]);
    assert_eq!(b.get(x).unwrap().parent, Some(fresh));
    assert_eq!(b.get(k).unwrap().parent, Some(r));
}

#[test]
fn ensure_block_wraps_an_empty_function() {
    let mut b = AstBuilder::new();
    let f = b.function("f");
    let r = EnsureBlock.transform(&mut b, f);
    assert_eq!(r, NodeId::new(2));
    assert_eq!(b.get(r).unwrap().children, vec![NodeId::new(1)]);
    assert!(b.get(NodeId::new(1)).unwrap().children.is_empty());
}
