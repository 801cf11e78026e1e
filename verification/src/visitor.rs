//! Visitor pattern for AST traversal.

use vstd::prelude::*;
use crate::builder::node_at;
use crate::node::{AstNode, NodeId, NodeView, view_of};
use crate::transform::{complete, complete_list};
use crate::traversal::{
    bounded, bounded_list, finite_from, postorder, postorder_list, preorder, preorder_list,
};

verus! {

/// Result of visiting a node.
#[derive(Clone, Copy, Debug, PartialEq, Eq, Structural)]
pub enum VisitResult {
    /// Continue visiting children.
    Continue,
    /// Skip children of this node.
    SkipChildren,
    /// Stop the entire traversal.
    Stop,
}

/// Trait for AST visitors.
///
/// `pre_spec` and `post_spec` say what the two hooks do: how the visitor
/// after a call relates to the visitor before it, given the node handed to
/// the hook and the answer it gives. Unless an implementation says
/// otherwise, a hook leaves the visitor as it was and answers `Continue`.
///
/// Both hooks must be written out: a default body would be checked once
/// for every implementation, against specs that an implementation may
/// change, which it cannot meet. Every implementation must uphold the
/// specs it has: one that keeps the default specs must leave the visitor
/// as it was and answer `Continue` from both hooks. An implementation that
/// records nodes, or answers otherwise, must define `pre_spec` or
/// `post_spec` to say so; else what `walk` promises about the visitor
/// does not hold for it.
pub trait Visitor: Sized {
    /// `after` is a visitor that `self` may become once `visit_pre` has
    /// seen `node` and answered `r`.
    open spec fn pre_spec(&self, after: Self, node: NodeView, r: VisitResult) -> bool {
        after == *self && r == VisitResult::Continue
    }

    /// `after` is a visitor that `self` may become once `visit_post` has
    /// seen `node` and answered `r`.
    open spec fn post_spec(&self, after: Self, node: NodeView, r: VisitResult) -> bool {
        after == *self && r == VisitResult::Continue
    }

    /// Called before visiting children.
    fn visit_pre(&mut self, node: &AstNode) -> (r: VisitResult)
        ensures
            old(self).pre_spec(*final(self), node@, r),
    ;

    /// Called after visiting children.
    fn visit_post(&mut self, node: &AstNode) -> (r: VisitResult)
        ensures
            old(self).post_spec(*final(self), node@, r),
    ;
}

/// Which hook a walk calls.
pub enum Hook {
    Pre,
    Post,
}

/// The hook calls that a walk of the tree under `id` makes, looking at
/// most `n` levels deep, when the hooks give `answers` in turn, and the
/// answer the walk of `id` ends with. An id out of bounds is not visited
/// and ends the walk with `Stop`. A present node gets `visit_pre`; on
/// `Stop` that is all, and on `SkipChildren` the node ends with
/// `Continue`; on `Continue` its children are walked in turn, a child
/// ending in `Stop` ends the node with `Stop`, and otherwise `visit_post`
/// comes last and its answer ends the node.
pub open spec fn walk_calls(arena: Seq<NodeView>, id: NodeId, answers: Seq<VisitResult>, n: nat) -> (
    Seq<(Hook, NodeId)>,
    VisitResult,
)
    decreases n, 0nat,
{
    match node_at(arena, id) {
        None => (seq![], VisitResult::Stop),
        Some(node) => if n == 0 {
            (seq![], VisitResult::Stop)
        } else {
            match answers[0] {
                VisitResult::Stop => (seq![(Hook::Pre, id)], VisitResult::Stop),
                VisitResult::SkipChildren => (seq![(Hook::Pre, id)], VisitResult::Continue),
                VisitResult::Continue => {
                    let inner = walk_calls_list(arena, node.children, answers.skip(1), (n - 1) as nat);
                    if inner.1 {
                        (seq![(Hook::Pre, id)] + inner.0, VisitResult::Stop)
                    } else {
                        (
                            seq![(Hook::Pre, id)] + inner.0 + seq![(Hook::Post, id)],
                            answers[1 + inner.0.len() as int],
                        )
                    }
                },
            }
        },
    }
}

/// The hook calls of walking each of `ids` in turn with `answers`, and
/// whether one of those walks ended with `Stop` (which ends the list).
pub open spec fn walk_calls_list(
    arena: Seq<NodeView>,
    ids: Seq<NodeId>,
    answers: Seq<VisitResult>,
    n: nat,
) -> (Seq<(Hook, NodeId)>, bool)
    decreases n, ids.len() + 1,
{
    if ids.len() == 0 {
        (seq![], false)
    } else {
        let first = walk_calls(arena, ids[0], answers, n);
        if first.1 is Stop {
            (first.0, true)
        } else {
            let rest = walk_calls_list(
                arena,
                ids.drop_first(),
                answers.skip(first.0.len() as int),
                n,
            );
            (first.0 + rest.0, rest.1)
        }
    }
}

/// The `j`-th call turns the visitor `states[j]` into `states[j + 1]`
/// with answer `answers[j]`, as the hook called promises.
pub open spec fn step_at<V: Visitor>(
    arena: Seq<NodeView>,
    calls: Seq<(Hook, NodeId)>,
    answers: Seq<VisitResult>,
    states: Seq<V>,
    j: int,
) -> bool {
    let node = node_at(arena, calls[j].1)->0;
    match calls[j].0 {
        Hook::Pre => states[j].pre_spec(states[j + 1], node, answers[j]),
        Hook::Post => states[j].post_spec(states[j + 1], node, answers[j]),
    }
}

/// `states` are the visitors before and after each of `calls`, which
/// answered `answers`.
pub open spec fn steps_follow<V: Visitor>(
    arena: Seq<NodeView>,
    calls: Seq<(Hook, NodeId)>,
    answers: Seq<VisitResult>,
    states: Seq<V>,
) -> bool {
    &&& states.len() == calls.len() + 1
    &&& answers.len() == calls.len()
    &&& forall|j: int| 0 <= j < calls.len() ==> #[trigger] step_at(arena, calls, answers, states, j)
}

/// A walk of the tree under `id` that took the visitor from `before` to
/// `after`: the hooks answered `answers`, one per call made, and the
/// visitor passed through `states`.
pub open spec fn walk_run<V: Visitor>(
    arena: Seq<NodeView>,
    id: NodeId,
    n: nat,
    answers: Seq<VisitResult>,
    states: Seq<V>,
    before: V,
    after: V,
) -> bool {
    let calls = walk_calls(arena, id, answers, n).0;
    &&& answers.len() == calls.len()
    &&& steps_follow(arena, calls, answers, states)
    &&& states[0] == before
    &&& states.last() == after
}

proof fn lemma_calls_prefix(
    arena: Seq<NodeView>,
    id: NodeId,
    a: Seq<VisitResult>,
    b: Seq<VisitResult>,
    n: nat,
)
    requires
        walk_calls(arena, id, a, n).0.len() <= a.len(),
    ensures
        walk_calls(arena, id, a + b, n) == walk_calls(arena, id, a, n),
    decreases n, 0nat,
{
    match node_at(arena, id) {
        None => {},
        Some(node) => if n > 0 {
            assert((a + b)[0] == a[0]);
            if a[0] is Continue {
                let inner = walk_calls_list(arena, node.children, a.skip(1), (n - 1) as nat);
                assert((a + b).skip(1) =~= a.skip(1) + b);
                lemma_calls_list_prefix(arena, node.children, a.skip(1), b, (n - 1) as nat);
                if !inner.1 {
                    assert((a + b)[1 + inner.0.len() as int] == a[1 + inner.0.len() as int]);
                }
            }
        },
    }
}

proof fn lemma_calls_list_prefix(
    arena: Seq<NodeView>,
    ids: Seq<NodeId>,
    a: Seq<VisitResult>,
    b: Seq<VisitResult>,
    n: nat,
)
    requires
        walk_calls_list(arena, ids, a, n).0.len() <= a.len(),
    ensures
        walk_calls_list(arena, ids, a + b, n) == walk_calls_list(arena, ids, a, n),
    decreases n, ids.len() + 1,
{
    if ids.len() > 0 {
        let first = walk_calls(arena, ids[0], a, n);
        lemma_calls_prefix(arena, ids[0], a, b, n);
        if !(first.1 is Stop) {
            assert((a + b).skip(first.0.len() as int) =~= a.skip(first.0.len() as int) + b);
            lemma_calls_list_prefix(arena, ids.drop_first(), a.skip(first.0.len() as int), b, n);
        }
    }
}

proof fn lemma_calls_list_push(
    arena: Seq<NodeView>,
    ids: Seq<NodeId>,
    x: NodeId,
    a: Seq<VisitResult>,
    b: Seq<VisitResult>,
    n: nat,
)
    requires
        !walk_calls_list(arena, ids, a, n).1,
        walk_calls_list(arena, ids, a, n).0.len() == a.len(),
        walk_calls(arena, x, b, n).0.len() == b.len(),
    ensures
        walk_calls_list(arena, ids.push(x), a + b, n) == (
            walk_calls_list(arena, ids, a, n).0 + walk_calls(arena, x, b, n).0,
            walk_calls(arena, x, b, n).1 is Stop,
        ),
    decreases ids.len(),
{
    let cx = walk_calls(arena, x, b, n);
    if ids.len() == 0 {
        assert(a =~= Seq::<VisitResult>::empty());
        assert(a + b =~= b);
        assert(ids.push(x) =~= seq![x]);
        assert(seq![x].drop_first() =~= Seq::<NodeId>::empty());
        assert(seq![x][0] == x);
        assert(ids.push(x)[0] == x);
        assert(ids.push(x).drop_first() =~= Seq::<NodeId>::empty());
        assert(cx.0 + Seq::<(Hook, NodeId)>::empty() =~= cx.0);
        assert(walk_calls_list(arena, ids, a, n).0 + cx.0 =~= cx.0);
        let got = walk_calls_list(arena, ids.push(x), a + b, n);
        if !(cx.1 is Stop) {
            let rest = walk_calls_list(
                arena,
                ids.push(x).drop_first(),
                (a + b).skip(cx.0.len() as int),
                n,
            );
            assert(rest.0 =~= Seq::<(Hook, NodeId)>::empty());
            assert(!rest.1);
            assert(got.0 =~= cx.0 + rest.0);
        }
        assert(got.0 =~= cx.0);
        assert(got.1 == (cx.1 is Stop));
    } else {
        let first = walk_calls(arena, ids[0], a, n);
        lemma_calls_prefix(arena, ids[0], a, b, n);
        assert(ids.push(x)[0] == ids[0]);
        assert(ids.push(x).drop_first() =~= ids.drop_first().push(x));
        let a1 = a.skip(first.0.len() as int);
        assert((a + b).skip(first.0.len() as int) =~= a1 + b);
        lemma_calls_list_push(arena, ids.drop_first(), x, a1, b, n);
        let rest = walk_calls_list(arena, ids.drop_first(), a1, n);
        assert(first.0 + (rest.0 + cx.0) =~= (first.0 + rest.0) + cx.0);
        let got = walk_calls_list(arena, ids.push(x), a + b, n);
        assert(got.0 =~= walk_calls_list(arena, ids, a, n).0 + cx.0);
        assert(got.1 == (cx.1 is Stop));
    }
}

proof fn lemma_calls_list_stopped(
    arena: Seq<NodeView>,
    ids: Seq<NodeId>,
    more: Seq<NodeId>,
    a: Seq<VisitResult>,
    n: nat,
)
    requires
        walk_calls_list(arena, ids, a, n).1,
    ensures
        walk_calls_list(arena, ids + more, a, n) == walk_calls_list(arena, ids, a, n),
    decreases ids.len(),
{
    assert((ids + more)[0] == ids[0]);
    let first = walk_calls(arena, ids[0], a, n);
    if !(first.1 is Stop) {
        assert((ids + more).drop_first() =~= ids.drop_first() + more);
        lemma_calls_list_stopped(arena, ids.drop_first(), more, a.skip(first.0.len() as int), n);
    }
}

proof fn lemma_steps_concat<V: Visitor>(
    arena: Seq<NodeView>,
    c1: Seq<(Hook, NodeId)>,
    a1: Seq<VisitResult>,
    s1: Seq<V>,
    c2: Seq<(Hook, NodeId)>,
    a2: Seq<VisitResult>,
    s2: Seq<V>,
)
    requires
        steps_follow(arena, c1, a1, s1),
        steps_follow(arena, c2, a2, s2),
        s2[0] == s1.last(),
    ensures
        steps_follow(arena, c1 + c2, a1 + a2, s1 + s2.skip(1)),
        (s1 + s2.skip(1))[0] == s1[0],
        (s1 + s2.skip(1)).last() == s2.last(),
{
    let c = c1 + c2;
    let a = a1 + a2;
    let s = s1 + s2.skip(1);
    assert forall|j: int| 0 <= j < c.len() implies #[trigger] step_at(arena, c, a, s, j) by {
        if j < c1.len() {
            assert(step_at(arena, c1, a1, s1, j));
            assert(s[j] == s1[j]);
            assert(s[j + 1] == s1[j + 1]);
        } else {
            let k = j - c1.len();
            assert(step_at(arena, c2, a2, s2, k));
            assert(c[j] == c2[k]);
            assert(a[j] == a2[k]);
            assert(s[j] == s2[k]);
            assert(s[j + 1] == s2[k + 1]);
        }
    }
}

/// The ids of the calls of hook `h` among `calls`, in order.
pub open spec fn calls_of(calls: Seq<(Hook, NodeId)>, h: Hook) -> Seq<NodeId>
    decreases calls.len(),
{
    if calls.len() == 0 {
        seq![]
    } else {
        (if calls[0].0 == h {
            seq![calls[0].1]
        } else {
            seq![]
        }) + calls_of(calls.drop_first(), h)
    }
}

proof fn lemma_calls_of_concat(a: Seq<(Hook, NodeId)>, b: Seq<(Hook, NodeId)>, h: Hook)
    ensures
        calls_of(a + b, h) == calls_of(a, h) + calls_of(b, h),
    decreases a.len(),
{
    if a.len() == 0 {
        assert(a + b =~= b);
        assert(calls_of(a, h) + calls_of(b, h) =~= calls_of(b, h));
    } else {
        assert((a + b).drop_first() =~= a.drop_first() + b);
        assert((a + b)[0] == a[0]);
        lemma_calls_of_concat(a.drop_first(), b, h);
        assert(calls_of(a + b, h) =~= calls_of(a, h) + calls_of(b, h));
    }
}

proof fn lemma_continue_node(arena: Seq<NodeView>, id: NodeId, n: nat, answers: Seq<VisitResult>)
    requires
        complete(arena, id, n),
        walk_calls(arena, id, answers, n).0.len() <= answers.len(),
        forall|j: int| 0 <= j < answers.len() ==> answers[j] == VisitResult::Continue,
    ensures
        walk_calls(arena, id, answers, n).1 == VisitResult::Continue,
        calls_of(walk_calls(arena, id, answers, n).0, Hook::Pre) == preorder(arena, id, n),
        calls_of(walk_calls(arena, id, answers, n).0, Hook::Post) == postorder(arena, id, n),
    decreases n, 0nat,
{
    let c = walk_calls(arena, id, answers, n).0;
    let node = node_at(arena, id)->0;
    let a1 = answers.skip(1);
    let inner = walk_calls_list(arena, node.children, a1, (n - 1) as nat);
    assert(answers[0] == VisitResult::Continue);
    lemma_continue_list(arena, node.children, (n - 1) as nat, a1);
    let pre = seq![(Hook::Pre, id)];
    let post = seq![(Hook::Post, id)];
    assert(c == pre + inner.0 + post);
    lemma_calls_of_concat(pre, inner.0, Hook::Pre);
    lemma_calls_of_concat(pre + inner.0, post, Hook::Pre);
    lemma_calls_of_concat(pre, inner.0, Hook::Post);
    lemma_calls_of_concat(pre + inner.0, post, Hook::Post);
    assert(pre.drop_first() =~= Seq::<(Hook, NodeId)>::empty());
    assert(post.drop_first() =~= Seq::<(Hook, NodeId)>::empty());
    assert(pre[0] == (Hook::Pre, id));
    assert(post[0] == (Hook::Post, id));
    assert(calls_of(pre.drop_first(), Hook::Pre) =~= Seq::<NodeId>::empty());
    assert(calls_of(pre.drop_first(), Hook::Post) =~= Seq::<NodeId>::empty());
    assert(calls_of(pre, Hook::Pre) =~= seq![id]);
    assert(calls_of(pre, Hook::Post) =~= Seq::<NodeId>::empty());
    assert(calls_of(post, Hook::Pre) =~= Seq::<NodeId>::empty());
    assert(calls_of(post, Hook::Post) =~= seq![id]);
    assert(calls_of(c, Hook::Pre) =~= preorder(arena, id, n));
    assert(calls_of(c, Hook::Post) =~= postorder(arena, id, n));
}

proof fn lemma_continue_list(arena: Seq<NodeView>, ids: Seq<NodeId>, n: nat, answers: Seq<VisitResult>)
    requires
        complete_list(arena, ids, n),
        walk_calls_list(arena, ids, answers, n).0.len() <= answers.len(),
        forall|j: int| 0 <= j < answers.len() ==> answers[j] == VisitResult::Continue,
    ensures
        !walk_calls_list(arena, ids, answers, n).1,
        calls_of(walk_calls_list(arena, ids, answers, n).0, Hook::Pre) == preorder_list(arena, ids, n),
        calls_of(walk_calls_list(arena, ids, answers, n).0, Hook::Post) == postorder_list(
            arena,
            ids,
            n,
        ),
    decreases n, ids.len() + 1,
{
    if ids.len() > 0 {
        let first = walk_calls(arena, ids[0], answers, n);
        lemma_continue_node(arena, ids[0], n, answers);
        let a1 = answers.skip(first.0.len() as int);
        lemma_continue_list(arena, ids.drop_first(), n, a1);
        let rest = walk_calls_list(arena, ids.drop_first(), a1, n);
        lemma_calls_of_concat(first.0, rest.0, Hook::Pre);
        lemma_calls_of_concat(first.0, rest.0, Hook::Post);
    }
}

/// When every hook answers `Continue`, a walk of a tree whose reachable
/// ids are all present, with no reachable cycle, calls `visit_pre` on the
/// nodes in pre-order and `visit_post` on them in post-order, and ends
/// with `Continue`.
pub proof fn law_continue_walk_follows_orders(
    arena: Seq<NodeView>,
    root: NodeId,
    answers: Seq<VisitResult>,
)
    requires
        complete(arena, root, arena.len()),
        walk_calls(arena, root, answers, arena.len()).0.len() <= answers.len(),
        forall|j: int| 0 <= j < answers.len() ==> answers[j] == VisitResult::Continue,
    ensures
        walk_calls(arena, root, answers, arena.len()).1 == VisitResult::Continue,
        calls_of(walk_calls(arena, root, answers, arena.len()).0, Hook::Pre) == preorder(
            arena,
            root,
            arena.len(),
        ),
        calls_of(walk_calls(arena, root, answers, arena.len()).0, Hook::Post) == postorder(
            arena,
            root,
            arena.len(),
        ),
{
    lemma_continue_node(arena, root, arena.len(), answers);
}

proof fn lemma_stop_node(arena: Seq<NodeView>, id: NodeId, n: nat, answers: Seq<VisitResult>)
    requires
        walk_calls(arena, id, answers, n).0.len() <= answers.len(),
    ensures
        forall|j: int|
            0 <= j < walk_calls(arena, id, answers, n).0.len() - 1 ==> #[trigger] answers[j]
                != VisitResult::Stop,
        walk_calls(arena, id, answers, n).1 != VisitResult::Stop ==> forall|j: int|
            0 <= j < walk_calls(arena, id, answers, n).0.len() ==> #[trigger] answers[j]
                != VisitResult::Stop,
    decreases n, 0nat,
{
    match node_at(arena, id) {
        None => {},
        Some(node) => if n > 0 {
            if answers[0] is Continue {
                let a1 = answers.skip(1);
                let inner = walk_calls_list(arena, node.children, a1, (n - 1) as nat);
                lemma_stop_list(arena, node.children, (n - 1) as nat, a1);
                assert forall|j: int| 1 <= j < 1 + inner.0.len() - 1 implies #[trigger] answers[j]
                    != VisitResult::Stop by {
                    assert(answers[j] == a1[j - 1]);
                }
                if !inner.1 {
                    assert forall|j: int| 1 <= j < 1 + inner.0.len() implies #[trigger] answers[j]
                        != VisitResult::Stop by {
                        assert(answers[j] == a1[j - 1]);
                    }
                }
            }
        },
    }
}

proof fn lemma_stop_list(arena: Seq<NodeView>, ids: Seq<NodeId>, n: nat, answers: Seq<VisitResult>)
    requires
        walk_calls_list(arena, ids, answers, n).0.len() <= answers.len(),
    ensures
        forall|j: int|
            0 <= j < walk_calls_list(arena, ids, answers, n).0.len() - 1 ==> #[trigger] answers[j]
                != VisitResult::Stop,
        !walk_calls_list(arena, ids, answers, n).1 ==> forall|j: int|
            0 <= j < walk_calls_list(arena, ids, answers, n).0.len() ==> #[trigger] answers[j]
                != VisitResult::Stop,
    decreases n, ids.len() + 1,
{
    if ids.len() > 0 {
        let first = walk_calls(arena, ids[0], answers, n);
        lemma_stop_node(arena, ids[0], n, answers);
        if !(first.1 is Stop) {
            let f = first.0.len() as int;
            let a1 = answers.skip(f);
            let rest = walk_calls_list(arena, ids.drop_first(), a1, n);
            lemma_stop_list(arena, ids.drop_first(), n, a1);
            assert forall|j: int| f <= j < f + rest.0.len() - 1 implies #[trigger] answers[j]
                != VisitResult::Stop by {
                assert(answers[j] == a1[j - f]);
            }
            if !rest.1 {
                assert forall|j: int| f <= j < f + rest.0.len() implies #[trigger] answers[j]
                    != VisitResult::Stop by {
                    assert(answers[j] == a1[j - f]);
                }
            }
        }
    }
}

/// A `Stop` answer ends a walk: only the last hook call of a walk can
/// answer `Stop`, so no call follows one.
pub proof fn law_nothing_follows_stop(arena: Seq<NodeView>, root: NodeId, answers: Seq<VisitResult>)
    requires
        walk_calls(arena, root, answers, arena.len()).0.len() <= answers.len(),
    ensures
        forall|j: int|
            0 <= j < walk_calls(arena, root, answers, arena.len()).0.len() - 1 ==> #[trigger] answers[j]
                != VisitResult::Stop,
{
    lemma_stop_node(arena, root, arena.len(), answers);
}

/// `SkipChildren` from `visit_pre` ends the walk of that node at once:
/// the walk of a present node whose first answer is `SkipChildren` makes
/// exactly one hook call, `visit_pre` on the node itself (no child is
/// walked and `visit_post` is not called on it), and ends with `Continue`,
/// whatever children the node has and whatever the later answers are.
pub proof fn law_skip_children_makes_one_call(
    arena: Seq<NodeView>,
    id: NodeId,
    answers: Seq<VisitResult>,
    n: nat,
)
    requires
        node_at(arena, id) is Some,
        n > 0,
        answers.len() > 0,
        answers[0] == VisitResult::SkipChildren,
    ensures
        walk_calls(arena, id, answers, n).0 == seq![(Hook::Pre, id)],
        walk_calls(arena, id, answers, n).1 == VisitResult::Continue,
{
}

/// `Stop` from `visit_pre` ends the walk at once: the walk of a present
/// node whose first answer is `Stop` makes the one call `visit_pre` on it
/// and ends with `Stop`; an id out of bounds gets no call and ends the
/// walk with `Stop`.
pub proof fn law_pre_stop_makes_one_call(
    arena: Seq<NodeView>,
    id: NodeId,
    answers: Seq<VisitResult>,
    n: nat,
)
    ensures
        node_at(arena, id) is None ==> walk_calls(arena, id, answers, n) == (
            Seq::<(Hook, NodeId)>::empty(),
            VisitResult::Stop,
        ),
        node_at(arena, id) is Some && n > 0 && answers.len() > 0 && answers[0] == VisitResult::Stop
            ==> walk_calls(arena, id, answers, n) == (seq![(Hook::Pre, id)], VisitResult::Stop),
{
}

/// A walk of a present root whose `visit_pre` answers `SkipChildren`
/// leaves the visitor as that single call left it: the run has exactly
/// one step, from the visitor before the walk to the visitor after it.
pub proof fn law_skip_children_run<V: Visitor>(
    arena: Seq<NodeView>,
    root: NodeId,
    answers: Seq<VisitResult>,
    states: Seq<V>,
    before: V,
    after: V,
)
    requires
        node_at(arena, root) is Some,
        walk_run(arena, root, arena.len(), answers, states, before, after),
        answers.len() > 0,
        answers[0] == VisitResult::SkipChildren,
    ensures
        answers.len() == 1,
        states.len() == 2,
        before.pre_spec(after, node_at(arena, root)->0, VisitResult::SkipChildren),
{
    law_skip_children_makes_one_call(arena, root, answers, arena.len());
    let calls = walk_calls(arena, root, answers, arena.len()).0;
    assert(step_at(arena, calls, answers, states, 0));
}

/// What a walk does once the pre-visit hook of a node has answered `r`:
/// `None` to go on into the node's children, or `Some` of the answer
/// that the walk of this node ends with.
pub fn outcome_after_pre(r: VisitResult) -> (o: Option<VisitResult>)
    ensures
        r == VisitResult::Continue ==> o is None,
        r == VisitResult::SkipChildren ==> o == Some(VisitResult::Continue),
        r == VisitResult::Stop ==> o == Some(VisitResult::Stop),
{
    match r {
        VisitResult::Continue => None,
        VisitResult::SkipChildren => Some(VisitResult::Continue),
        VisitResult::Stop => Some(VisitResult::Stop),
    }
}

/// Walk the AST with a visitor (pre-order + post-order).
///
/// The visitor ends as a run of the walk's hook calls leaves it: some
/// answers of the hooks, one per call that `walk_calls` makes for them,
/// and visitors in between that each hook's own promise links.
///
/// The arena must have no cycle reachable from `root`. That is also asked
/// where a visitor would answer `Stop` or `SkipChildren` before a cycle is
/// reached (a walk that then ends), since what a hook will answer is not
/// known in advance.
pub fn walk<V: Visitor>(arena: &[AstNode], root: NodeId, visitor: &mut V)
    requires
        finite_from(view_of(arena@), root),
    ensures
        exists|answers: Seq<VisitResult>, states: Seq<V>|
            #[trigger] walk_run(
                view_of(arena@),
                root,
                view_of(arena@).len(),
                answers,
                states,
                *old(visitor),
                *final(visitor),
            ),
{
    let ghost n = view_of(arena@).len();
    walk_recursive(arena, root, visitor, Ghost(n));
}

fn walk_recursive<V: Visitor>(arena: &[AstNode], id: NodeId, visitor: &mut V, Ghost(n): Ghost<nat>) -> (r: VisitResult)
    requires
        bounded(view_of(arena@), id, n),
    ensures
        exists|answers: Seq<VisitResult>, states: Seq<V>|
            #[trigger] walk_run(view_of(arena@), id, n, answers, states, *old(visitor), *final(visitor))
                && r == walk_calls(view_of(arena@), id, answers, n).1,
    decreases n,
{
    let ghost nodes = view_of(arena@);
    let ghost v0 = *visitor;
    let i = id.as_u32() as usize;
    if i >= arena.len() {
        proof {
            let answers = Seq::<VisitResult>::empty();
            let states = seq![v0];
            assert(walk_calls(nodes, id, answers, n).0 =~= Seq::<(Hook, NodeId)>::empty());
            assert(walk_run(nodes, id, n, answers, states, v0, *visitor));
        }
        return VisitResult::Stop;
    }
    let node = &arena[i];
    let ghost kids = node.children@;
    assert(nodes.len() == arena@.len());
    assert(nodes[i as int] == node@);
    assert(node_at(nodes, id) == Some(node@));
    assert(kids.subrange(0, kids.len() as int) =~= kids);
    let pre = visitor.visit_pre(node);
    let ghost v1 = *visitor;
    let ghost c0 = seq![(Hook::Pre, id)];
    let ghost a0 = seq![pre];
    let ghost s0 = seq![v0, v1];
    assert(steps_follow(nodes, c0, a0, s0)) by {
        assert forall|j: int| 0 <= j < c0.len() implies #[trigger] step_at(nodes, c0, a0, s0, j) by {
            assert(j == 0);
        }
    }
    match outcome_after_pre(pre) {
        Some(done) => {
            proof {
                assert(a0[0] == pre);
                assert(walk_calls(nodes, id, a0, n).0 == c0);
                assert(walk_run(nodes, id, n, a0, s0, v0, *visitor));
            }
            return done;
        },
        None => {},
    }
    let ghost mut cs = Seq::<(Hook, NodeId)>::empty();
    let ghost mut ans = Seq::<VisitResult>::empty();
    let ghost mut sts = seq![v1];
    assert(kids.take(0) =~= Seq::<NodeId>::empty());
    assert(steps_follow(nodes, cs, ans, sts));
    let mut k: usize = 0;
    while k < node.children.len()
        invariant
            nodes == view_of(arena@),
            kids == node.children@,
            kids == nodes[i as int].children,
            i < nodes.len(),
            node_at(nodes, id) == Some(nodes[i as int]),
            n > 0,
            k <= kids.len(),
            bounded_list(nodes, kids.subrange(k as int, kids.len() as int), (n - 1) as nat),
            walk_calls_list(nodes, kids.take(k as int), ans, (n - 1) as nat) == (cs, false),
            cs.len() == ans.len(),
            steps_follow(nodes, cs, ans, sts),
            sts[0] == v1,
            sts.last() == *visitor,
            pre == VisitResult::Continue,
            v0 == *old(visitor),
            c0 == seq![(Hook::Pre, id)],
            a0 == seq![pre],
            s0 == seq![v0, v1],
            steps_follow(nodes, c0, a0, s0),
        decreases kids.len() - k,
    {
        let child = node.children[k];
        let ghost rest = kids.subrange(k as int, kids.len() as int);
        assert(rest[0] == child);
        assert(rest.drop_first() =~= kids.subrange(k + 1, kids.len() as int));
        let ghost before = *visitor;
        let rc = walk_recursive(arena, child, visitor, Ghost((n - 1) as nat));
        let ghost (ca, cst) = choose|answers: Seq<VisitResult>, states: Seq<V>|
            #[trigger] walk_run(nodes, child, (n - 1) as nat, answers, states, before, *visitor)
                && rc == walk_calls(nodes, child, answers, (n - 1) as nat).1;
        let ghost cc = walk_calls(nodes, child, ca, (n - 1) as nat).0;
        proof {
            lemma_calls_list_push(nodes, kids.take(k as int), child, ans, ca, (n - 1) as nat);
            assert(kids.take(k as int).push(child) =~= kids.take(k + 1));
            lemma_steps_concat(nodes, cs, ans, sts, cc, ca, cst);
            cs = cs + cc;
            ans = ans + ca;
            sts = sts + cst.skip(1);
        }
        if rc == VisitResult::Stop {
            proof {
                assert(kids.take(k + 1) + kids.skip(k + 1) =~= kids);
                lemma_calls_list_stopped(nodes, kids.take(k + 1), kids.skip(k + 1), ans, (n - 1) as nat);
                let fa = a0 + ans;
                assert(fa[0] == pre);
                assert(fa.skip(1) =~= ans);
                lemma_steps_concat(nodes, c0, a0, s0, cs, ans, sts);
                assert(walk_calls_list(nodes, kids, fa.skip(1), (n - 1) as nat) == (cs, true));
                assert(walk_calls(nodes, id, fa, n).0 == c0 + cs);
                assert(walk_calls(nodes, id, fa, n).1 == VisitResult::Stop);
                assert(walk_run(nodes, id, n, fa, s0 + sts.skip(1), v0, *visitor));
            }
            return VisitResult::Stop;
        }
        k = k + 1;
    }
    let ghost before_post = *visitor;
    let post = visitor.visit_post(node);
    proof {
        assert(kids.take(k as int) =~= kids);
        let cp = seq![(Hook::Post, id)];
        let ap = seq![post];
        let sp = seq![before_post, *visitor];
        assert(steps_follow(nodes, cp, ap, sp)) by {
            assert forall|j: int| 0 <= j < cp.len() implies #[trigger] step_at(nodes, cp, ap, sp, j) by {
                assert(j == 0);
            }
        }
        lemma_steps_concat(nodes, c0, a0, s0, cs, ans, sts);
        let s1 = s0 + sts.skip(1);
        lemma_steps_concat(nodes, c0 + cs, a0 + ans, s1, cp, ap, sp);
        let fa = a0 + ans + ap;
        assert(fa[0] == pre);
        assert(fa.skip(1) =~= ans + ap);
        lemma_calls_list_prefix(nodes, kids, ans, ap, (n - 1) as nat);
        assert(fa[1 + cs.len() as int] == post);
        assert(walk_calls(nodes, id, fa, n).0 =~= c0 + cs + cp);
        assert(walk_calls(nodes, id, fa, n).1 == post);
        assert(walk_run(nodes, id, n, fa, s1 + sp.skip(1), v0, *visitor));
    }
    post
}

/// A visitor that collects all node IDs in pre-order.
pub struct Collector {
    pub ids: Vec<NodeId>,
}

impl Collector {
    pub fn new() -> (r: Self)
        ensures
            r.ids@ == Seq::<NodeId>::empty(),
    {
        Self { ids: Vec::new() }
    }
}

impl Default for Collector {
    fn default() -> (r: Self)
        ensures
            r.ids@ == Seq::<NodeId>::empty(),
    {
        Self::new()
    }
}

impl Visitor for Collector {
    /// Records the node's id and goes on.
    open spec fn pre_spec(&self, after: Self, node: NodeView, r: VisitResult) -> bool {
        after.ids@ == self.ids@.push(node.id) && r == VisitResult::Continue
    }

    fn visit_pre(&mut self, node: &AstNode) -> (r: VisitResult) {
        self.ids.push(node.id);
        VisitResult::Continue
    }

    fn visit_post(&mut self, _node: &AstNode) -> (r: VisitResult) {
        VisitResult::Continue
    }
}

/// A visitor that counts nodes by kind name.
pub struct NodeCounter {
    pub count: usize,
}

impl NodeCounter {
    pub fn new() -> (r: Self)
        ensures
            r.count == 0,
    {
        Self { count: 0 }
    }
}

impl Default for NodeCounter {
    fn default() -> (r: Self)
        ensures
            r.count == 0,
    {
        Self::new()
    }
}

impl Visitor for NodeCounter {
    /// Counts one more node (wrapping at the top of `usize`) and goes on.
    open spec fn pre_spec(&self, after: Self, node: NodeView, r: VisitResult) -> bool {
        &&& self.count < usize::MAX ==> after.count == self.count + 1
        &&& self.count == usize::MAX ==> after.count == 0
        &&& r == VisitResult::Continue
    }

    fn visit_pre(&mut self, _node: &AstNode) -> (r: VisitResult) {
        self.count = self.count.wrapping_add(1);
        VisitResult::Continue
    }

    fn visit_post(&mut self, _node: &AstNode) -> (r: VisitResult) {
        VisitResult::Continue
    }
}

/// The `id` fields of the nodes that `ids` name in `arena`.
pub open spec fn stored_ids(arena: Seq<NodeView>, ids: Seq<NodeId>) -> Seq<NodeId> {
    ids.map_values(|x: NodeId| arena[x.0 as int].id)
}

proof fn lemma_collector_node(
    arena: Seq<NodeView>,
    id: NodeId,
    n: nat,
    answers: Seq<VisitResult>,
    states: Seq<Collector>,
)
    requires
        complete(arena, id, n),
        walk_calls(arena, id, answers, n).0.len() <= answers.len(),
        walk_calls(arena, id, answers, n).0.len() + 1 <= states.len(),
        forall|j: int|
            0 <= j < walk_calls(arena, id, answers, n).0.len() ==> #[trigger] step_at(
                arena,
                walk_calls(arena, id, answers, n).0,
                answers,
                states,
                j,
            ),
    ensures
        walk_calls(arena, id, answers, n).1 == VisitResult::Continue,
        states[walk_calls(arena, id, answers, n).0.len() as int].ids@ == states[0].ids@ + stored_ids(
            arena,
            preorder(arena, id, n),
        ),
    decreases n, 0nat,
{
    let c = walk_calls(arena, id, answers, n).0;
    let node = node_at(arena, id)->0;
    assert(step_at(arena, c, answers, states, 0));
    assert(answers[0] == VisitResult::Continue);
    let a1 = answers.skip(1);
    let s1 = states.skip(1);
    let inner = walk_calls_list(arena, node.children, a1, (n - 1) as nat);
    assert forall|j: int| 0 <= j < inner.0.len() implies #[trigger] step_at(arena, inner.0, a1, s1, j) by {
        assert(step_at(arena, c, answers, states, j + 1));
        assert(c[j + 1] == inner.0[j]);
    }
    lemma_collector_list(arena, node.children, (n - 1) as nat, a1, s1);
    let last: int = 1 + inner.0.len() as int;
    assert(step_at(arena, c, answers, states, last));
    assert(c[last] == (Hook::Post, id));
    assert(stored_ids(arena, preorder(arena, id, n)) =~= seq![arena[id.0 as int].id] + stored_ids(
        arena,
        preorder_list(arena, node.children, (n - 1) as nat),
    ));
    assert(states[1].ids@ == states[0].ids@.push(node.id));
    assert(states[c.len() as int].ids@ =~= states[0].ids@ + stored_ids(arena, preorder(arena, id, n)));
}

proof fn lemma_collector_list(
    arena: Seq<NodeView>,
    ids: Seq<NodeId>,
    n: nat,
    answers: Seq<VisitResult>,
    states: Seq<Collector>,
)
    requires
        complete_list(arena, ids, n),
        walk_calls_list(arena, ids, answers, n).0.len() <= answers.len(),
        walk_calls_list(arena, ids, answers, n).0.len() + 1 <= states.len(),
        forall|j: int|
            0 <= j < walk_calls_list(arena, ids, answers, n).0.len() ==> #[trigger] step_at(
                arena,
                walk_calls_list(arena, ids, answers, n).0,
                answers,
                states,
                j,
            ),
    ensures
        !walk_calls_list(arena, ids, answers, n).1,
        states[walk_calls_list(arena, ids, answers, n).0.len() as int].ids@ == states[0].ids@
            + stored_ids(arena, preorder_list(arena, ids, n)),
    decreases n, ids.len() + 1,
{
    let cl = walk_calls_list(arena, ids, answers, n).0;
    if ids.len() == 0 {
        assert(stored_ids(arena, preorder_list(arena, ids, n)) =~= Seq::<NodeId>::empty());
        assert(states[0].ids@ + Seq::<NodeId>::empty() =~= states[0].ids@);
    } else {
        let first = walk_calls(arena, ids[0], answers, n);
        let f = first.0.len() as int;
        assert forall|j: int| 0 <= j < first.0.len() implies #[trigger] step_at(arena, first.0, answers, states, j) by {
            assert(step_at(arena, cl, answers, states, j));
            assert(cl[j] == first.0[j]);
        }
        lemma_collector_node(arena, ids[0], n, answers, states);
        let a1 = answers.skip(f);
        let s1 = states.skip(f);
        let rest = walk_calls_list(arena, ids.drop_first(), a1, n);
        assert forall|j: int| 0 <= j < rest.0.len() implies #[trigger] step_at(arena, rest.0, a1, s1, j) by {
            assert(step_at(arena, cl, answers, states, f + j));
            assert(cl[f + j] == rest.0[j]);
            assert(s1[j] == states[f + j]);
            assert(s1[j + 1] == states[f + j + 1]);
        }
        lemma_collector_list(arena, ids.drop_first(), n, a1, s1);
        assert(stored_ids(arena, preorder_list(arena, ids, n)) =~= stored_ids(
            arena,
            preorder(arena, ids[0], n),
        ) + stored_ids(arena, preorder_list(arena, ids.drop_first(), n)));
        assert(states[cl.len() as int].ids@ =~= states[0].ids@ + stored_ids(
            arena,
            preorder_list(arena, ids, n),
        ));
    }
}

/// Walking a tree whose reachable ids are all present, with no reachable
/// cycle, a `Collector` appends the `id` of each node in pre-order.
pub proof fn law_collector_collects_preorder(
    arena: Seq<NodeView>,
    root: NodeId,
    answers: Seq<VisitResult>,
    states: Seq<Collector>,
    before: Collector,
    after: Collector,
)
    requires
        complete(arena, root, arena.len()),
        walk_run(arena, root, arena.len(), answers, states, before, after),
    ensures
        after.ids@ == before.ids@ + stored_ids(arena, preorder(arena, root, arena.len())),
{
    let c = walk_calls(arena, root, answers, arena.len()).0;
    assert forall|j: int| 0 <= j < c.len() implies #[trigger] step_at(arena, c, answers, states, j) by {}
    lemma_collector_node(arena, root, arena.len(), answers, states);
}

proof fn lemma_counter_node(
    arena: Seq<NodeView>,
    id: NodeId,
    n: nat,
    answers: Seq<VisitResult>,
    states: Seq<NodeCounter>,
)
    requires
        complete(arena, id, n),
        walk_calls(arena, id, answers, n).0.len() <= answers.len(),
        walk_calls(arena, id, answers, n).0.len() + 1 <= states.len(),
        forall|j: int|
            0 <= j < walk_calls(arena, id, answers, n).0.len() ==> #[trigger] step_at(
                arena,
                walk_calls(arena, id, answers, n).0,
                answers,
                states,
                j,
            ),
    ensures
        walk_calls(arena, id, answers, n).1 == VisitResult::Continue,
        states[0].count + preorder(arena, id, n).len() <= usize::MAX ==> states[walk_calls(
            arena,
            id,
            answers,
            n,
        ).0.len() as int].count == states[0].count + preorder(arena, id, n).len(),
    decreases n, 0nat,
{
    let c = walk_calls(arena, id, answers, n).0;
    let node = node_at(arena, id)->0;
    assert(step_at(arena, c, answers, states, 0));
    assert(answers[0] == VisitResult::Continue);
    let a1 = answers.skip(1);
    let s1 = states.skip(1);
    let inner = walk_calls_list(arena, node.children, a1, (n - 1) as nat);
    assert forall|j: int| 0 <= j < inner.0.len() implies #[trigger] step_at(arena, inner.0, a1, s1, j) by {
        assert(step_at(arena, c, answers, states, j + 1));
        assert(c[j + 1] == inner.0[j]);
    }
    lemma_counter_list(arena, node.children, (n - 1) as nat, a1, s1);
    let last: int = 1 + inner.0.len() as int;
    assert(step_at(arena, c, answers, states, last));
    assert(c[last] == (Hook::Post, id));
    assert(preorder(arena, id, n).len() == 1 + preorder_list(arena, node.children, (n - 1) as nat).len());
}

proof fn lemma_counter_list(
    arena: Seq<NodeView>,
    ids: Seq<NodeId>,
    n: nat,
    answers: Seq<VisitResult>,
    states: Seq<NodeCounter>,
)
    requires
        complete_list(arena, ids, n),
        walk_calls_list(arena, ids, answers, n).0.len() <= answers.len(),
        walk_calls_list(arena, ids, answers, n).0.len() + 1 <= states.len(),
        forall|j: int|
            0 <= j < walk_calls_list(arena, ids, answers, n).0.len() ==> #[trigger] step_at(
                arena,
                walk_calls_list(arena, ids, answers, n).0,
                answers,
                states,
                j,
            ),
    ensures
        !walk_calls_list(arena, ids, answers, n).1,
        states[0].count + preorder_list(arena, ids, n).len() <= usize::MAX ==> states[walk_calls_list(
            arena,
            ids,
            answers,
            n,
        ).0.len() as int].count == states[0].count + preorder_list(arena, ids, n).len(),
    decreases n, ids.len() + 1,
{
    let cl = walk_calls_list(arena, ids, answers, n).0;
    if ids.len() == 0 {
        assert(preorder_list(arena, ids, n).len() == 0);
    } else {
        let first = walk_calls(arena, ids[0], answers, n);
        let f = first.0.len() as int;
        assert forall|j: int| 0 <= j < first.0.len() implies #[trigger] step_at(arena, first.0, answers, states, j) by {
            assert(step_at(arena, cl, answers, states, j));
            assert(cl[j] == first.0[j]);
        }
        lemma_counter_node(arena, ids[0], n, answers, states);
        let a1 = answers.skip(f);
        let s1 = states.skip(f);
        let rest = walk_calls_list(arena, ids.drop_first(), a1, n);
        assert forall|j: int| 0 <= j < rest.0.len() implies #[trigger] step_at(arena, rest.0, a1, s1, j) by {
            assert(step_at(arena, cl, answers, states, f + j));
            assert(cl[f + j] == rest.0[j]);
            assert(s1[j] == states[f + j]);
            assert(s1[j + 1] == states[f + j + 1]);
        }
        lemma_counter_list(arena, ids.drop_first(), n, a1, s1);
        assert(preorder_list(arena, ids, n).len() == preorder(arena, ids[0], n).len()
            + preorder_list(arena, ids.drop_first(), n).len());
    }
}

/// Walking a tree whose reachable ids are all present, with no reachable
/// cycle, a `NodeCounter` counts one per node of the pre-order (while the
/// count fits in `usize`).
pub proof fn law_counter_counts_preorder(
    arena: Seq<NodeView>,
    root: NodeId,
    answers: Seq<VisitResult>,
    states: Seq<NodeCounter>,
    before: NodeCounter,
    after: NodeCounter,
)
    requires
        complete(arena, root, arena.len()),
        walk_run(arena, root, arena.len(), answers, states, before, after),
        before.count + preorder(arena, root, arena.len()).len() <= usize::MAX,
    ensures
        after.count == before.count + preorder(arena, root, arena.len()).len(),
{
    let c = walk_calls(arena, root, answers, arena.len()).0;
    assert forall|j: int| 0 <= j < c.len() implies #[trigger] step_at(arena, c, answers, states, j) by {}
    lemma_counter_node(arena, root, arena.len(), answers, states);
}

/// What a `LimitedVisitor` holding `visited` with limit `limit` holds after
/// offering it the ids `more` in turn: all of them while there is room, and
/// nothing past the limit.
pub open spec fn limited(visited: Seq<NodeId>, more: Seq<NodeId>, limit: usize) -> Seq<NodeId> {
    if visited.len() >= limit {
        visited
    } else if visited.len() + more.len() <= limit {
        visited + more
    } else {
        (visited + more).take(limit as int)
    }
}

proof fn lemma_limited_node(
    arena: Seq<NodeView>,
    id: NodeId,
    n: nat,
    answers: Seq<VisitResult>,
    states: Seq<LimitedVisitor>,
)
    requires
        complete(arena, id, n),
        walk_calls(arena, id, answers, n).0.len() <= answers.len(),
        walk_calls(arena, id, answers, n).0.len() + 1 <= states.len(),
        forall|j: int|
            0 <= j < walk_calls(arena, id, answers, n).0.len() ==> #[trigger] step_at(
                arena,
                walk_calls(arena, id, answers, n).0,
                answers,
                states,
                j,
            ),
    ensures
        ({
            let c = walk_calls(arena, id, answers, n);
            let p = stored_ids(arena, preorder(arena, id, n));
            let v = states[0].visited@;
            let lim = states[0].limit;
            &&& p.len() > 0
            &&& (c.1 == VisitResult::Stop) == (v.len() + p.len() > lim)
            &&& c.1 != VisitResult::SkipChildren
            &&& states[c.0.len() as int].limit == lim
            &&& states[c.0.len() as int].visited@ == limited(v, p, lim)
        }),
    decreases n, 0nat,
{
    let c = walk_calls(arena, id, answers, n).0;
    let node = node_at(arena, id)->0;
    let p = stored_ids(arena, preorder(arena, id, n));
    let v = states[0].visited@;
    let lim = states[0].limit;
    let pl = stored_ids(arena, preorder_list(arena, node.children, (n - 1) as nat));
    assert(p =~= seq![arena[id.0 as int].id] + pl);
    assert(step_at(arena, c, answers, states, 0));
    if v.len() >= lim {
        assert(answers[0] == VisitResult::Stop);
    } else {
        assert(answers[0] == VisitResult::Continue);
        let a1 = answers.skip(1);
        let s1 = states.skip(1);
        let inner = walk_calls_list(arena, node.children, a1, (n - 1) as nat);
        assert forall|j: int| 0 <= j < inner.0.len() implies #[trigger] step_at(arena, inner.0, a1, s1, j) by {
            assert(step_at(arena, c, answers, states, j + 1));
            assert(c[j + 1] == inner.0[j]);
        }
        lemma_limited_list(arena, node.children, (n - 1) as nat, a1, s1);
        let v1 = states[1].visited@;
        assert(v1 == v.push(node.id));
        assert(v + p =~= v1 + pl);
        if !inner.1 {
            let last: int = 1 + inner.0.len() as int;
            assert(step_at(arena, c, answers, states, last));
            assert(c[last] == (Hook::Post, id));
        }
        if v1.len() >= lim {
            assert((v + p).take(lim as int) =~= v1);
        }
    }
}

proof fn lemma_limited_list(
    arena: Seq<NodeView>,
    ids: Seq<NodeId>,
    n: nat,
    answers: Seq<VisitResult>,
    states: Seq<LimitedVisitor>,
)
    requires
        complete_list(arena, ids, n),
        walk_calls_list(arena, ids, answers, n).0.len() <= answers.len(),
        walk_calls_list(arena, ids, answers, n).0.len() + 1 <= states.len(),
        forall|j: int|
            0 <= j < walk_calls_list(arena, ids, answers, n).0.len() ==> #[trigger] step_at(
                arena,
                walk_calls_list(arena, ids, answers, n).0,
                answers,
                states,
                j,
            ),
    ensures
        ({
            let c = walk_calls_list(arena, ids, answers, n);
            let p = stored_ids(arena, preorder_list(arena, ids, n));
            let v = states[0].visited@;
            let lim = states[0].limit;
            &&& c.1 == (p.len() > 0 && v.len() + p.len() > lim)
            &&& states[c.0.len() as int].limit == lim
            &&& states[c.0.len() as int].visited@ == limited(v, p, lim)
        }),
    decreases n, ids.len() + 1,
{
    let cl = walk_calls_list(arena, ids, answers, n).0;
    let v = states[0].visited@;
    let lim = states[0].limit;
    if ids.len() == 0 {
        assert(stored_ids(arena, preorder_list(arena, ids, n)) =~= Seq::<NodeId>::empty());
        assert(v + Seq::<NodeId>::empty() =~= v);
    } else {
        let first = walk_calls(arena, ids[0], answers, n);
        let f = first.0.len() as int;
        assert forall|j: int| 0 <= j < first.0.len() implies #[trigger] step_at(arena, first.0, answers, states, j) by {
            assert(step_at(arena, cl, answers, states, j));
            assert(cl[j] == first.0[j]);
        }
        lemma_limited_node(arena, ids[0], n, answers, states);
        let p0 = stored_ids(arena, preorder(arena, ids[0], n));
        let pr = stored_ids(arena, preorder_list(arena, ids.drop_first(), n));
        assert(stored_ids(arena, preorder_list(arena, ids, n)) =~= p0 + pr);
        if first.1 is Stop {
            if v.len() < lim {
                assert((v + p0).take(lim as int) =~= (v + (p0 + pr)).take(lim as int));
            }
        } else {
            let a1 = answers.skip(f);
            let s1 = states.skip(f);
            let rest = walk_calls_list(arena, ids.drop_first(), a1, n);
            assert forall|j: int| 0 <= j < rest.0.len() implies #[trigger] step_at(arena, rest.0, a1, s1, j) by {
                assert(step_at(arena, cl, answers, states, f + j));
                assert(cl[f + j] == rest.0[j]);
                assert(s1[j] == states[f + j]);
                assert(s1[j + 1] == states[f + j + 1]);
            }
            lemma_limited_list(arena, ids.drop_first(), n, a1, s1);
            assert(cl.len() == f + rest.0.len());
            assert(s1[rest.0.len() as int] == states[cl.len() as int]);
            assert(v + p0 + pr =~= v + (p0 + pr));
            if pr.len() == 0 {
                assert(p0 + pr =~= p0);
            }
            if v.len() + p0.len() == lim && pr.len() > 0 {
                assert((v + (p0 + pr)).take(lim as int) =~= v + p0);
            }
        }
    }
}

/// Walking a tree whose reachable ids are all present, with no reachable
/// cycle, a `LimitedVisitor` appends the `id` of each node in pre-order
/// until it holds `limit` ids, and keeps its limit.
pub proof fn law_limited_visitor_keeps_first(
    arena: Seq<NodeView>,
    root: NodeId,
    answers: Seq<VisitResult>,
    states: Seq<LimitedVisitor>,
    before: LimitedVisitor,
    after: LimitedVisitor,
)
    requires
        complete(arena, root, arena.len()),
        walk_run(arena, root, arena.len(), answers, states, before, after),
    ensures
        after.limit == before.limit,
        after.visited@ == limited(
            before.visited@,
            stored_ids(arena, preorder(arena, root, arena.len())),
            before.limit,
        ),
{
    let c = walk_calls(arena, root, answers, arena.len()).0;
    assert forall|j: int| 0 <= j < c.len() implies #[trigger] step_at(arena, c, answers, states, j) by {}
    lemma_limited_node(arena, root, arena.len(), answers, states);
}

/// A visitor that stops after N nodes.
pub struct LimitedVisitor {
    pub limit: usize,
    pub visited: Vec<NodeId>,
}

impl LimitedVisitor {
    pub fn new(limit: usize) -> (r: Self)
        ensures
            r.limit == limit,
            r.visited@ == Seq::<NodeId>::empty(),
    {
        Self { limit, visited: Vec::new() }
    }
}

impl Visitor for LimitedVisitor {
    /// Stops once `limit` ids are recorded; before that records the node's
    /// id and goes on.
    open spec fn pre_spec(&self, after: Self, node: NodeView, r: VisitResult) -> bool {
        &&& after.limit == self.limit
        &&& self.visited@.len() >= self.limit ==> after.visited@ == self.visited@ && r
            == VisitResult::Stop
        &&& self.visited@.len() < self.limit ==> after.visited@ == self.visited@.push(node.id) && r
            == VisitResult::Continue
    }

    fn visit_post(&mut self, _node: &AstNode) -> (r: VisitResult) {
        VisitResult::Continue
    }

    fn visit_pre(&mut self, node: &AstNode) -> (r: VisitResult) {
        if self.visited.len() >= self.limit {
            return VisitResult::Stop;
        }
        self.visited.push(node.id);
        VisitResult::Continue
    }
}

} // verus!
