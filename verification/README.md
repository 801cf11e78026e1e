# ast_builder

Arena-based abstract syntax trees, written in Verus with their behaviour
stated as contracts and proved.

- `src/node.rs` — node ids, node kinds and nodes, with mathematical views.
- `src/builder.rs` — the arena builder; allocation and parent/child linking
  are specified over the arena's view (`alloc_spec`, `add_child_spec`).
- `src/traversal.rs` — pre-order, post-order and breadth-first traversal,
  depth and node count, specified by recursive definitions; laws relate the
  three orders.
- `src/visitor.rs` — the visitor trait, the walk, and three ready-made
  visitors.
- `src/transform.rs` — the transform trait, literal replacement, block
  wrapping and deep cloning, with laws on what each produces.
- `src/syntax.rs` — type and operator vocabulary.
- `app/lib.rs` — source-level expression and statement trees, whose
  literals hold floating-point numbers, and their statement builder.
