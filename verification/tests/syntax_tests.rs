use ast_builder::{BinOp, Type, UnOp};

#[test]
fn type_clone_is_equal() {
    let t = Type::Optional(Box::new(Type::Array(Box::new(Type::Custom("Point".into())))));
    assert_eq!(t.clone(), t);
    assert_ne!(Type::Int, Type::Float);
    assert_eq!(BinOp::Add.clone(), BinOp::Add);
    assert_ne!(UnOp::Neg, UnOp::Not);
}
