use vstd::prelude::*;
use crate::ast::{Expression, Node, node_of, nodes_of, text, node_text, lemma_nodes_of, lemma_nodes_of_push};

verus! {

broadcast use vstd::std_specs::vec::group_vec_axioms, vstd::seq::group_seq_axioms;

/// Largest count of a coalesced move: four times it (the byte step of a
/// 32-bit cell) still fits a signed 32-bit displacement.
pub const MOVE_LIMIT: u32 = 0x1fff_ffff;

/// Largest count of a coalesced increment or decrement.
pub const VALUE_LIMIT: u32 = 0xffff_ffff;

/// The node that `a` followed by `b` coalesce into, if they are of the same
/// counted kind and the summed count stays within that kind's limit.
pub open spec fn merge_nodes(a: Node, b: Node) -> Option<Node> {
    match (a, b) {
        (Node::IncValue(x), Node::IncValue(y)) =>
            if x + y <= VALUE_LIMIT { Some(Node::IncValue(x + y)) } else { None },
        (Node::DecValue(x), Node::DecValue(y)) =>
            if x + y <= VALUE_LIMIT { Some(Node::DecValue(x + y)) } else { None },
        (Node::MoveForward(x), Node::MoveForward(y)) =>
            if x + y <= MOVE_LIMIT { Some(Node::MoveForward(x + y)) } else { None },
        (Node::MoveBack(x), Node::MoveBack(y)) =>
            if x + y <= MOVE_LIMIT { Some(Node::MoveBack(x + y)) } else { None },
        _ => None,
    }
}

/// Appends `n` to `acc`, coalescing it into the last node when they merge.
pub open spec fn merge_push(acc: Seq<Node>, n: Node) -> Seq<Node> {
    if acc.len() > 0 && merge_nodes(acc.last(), n) is Some {
        acc.drop_last().push(merge_nodes(acc.last(), n)->Some_0)
    } else {
        acc.push(n)
    }
}

/// The optimized form of a tree: left to right, each node (loop bodies
/// optimized first) is coalesced into the run before it where it can be.
pub open spec fn optimized(s: Seq<Node>) -> Seq<Node>
    decreases s,
{
    if s.len() == 0 {
        Seq::empty()
    } else {
        merge_push(optimized(s.drop_last()), optimized_node(s.last()))
    }
}

pub open spec fn optimized_node(n: Node) -> Node
    decreases n,
{
    match n {
        Node::Loop(body) => Node::Loop(optimized(body)),
        _ => n,
    }
}

/// No two neighbours at any level of the tree can be coalesced.
pub open spec fn is_optimized(s: Seq<Node>) -> bool
    decreases s,
{
    &&& forall|k: int| 0 <= k < s.len() - 1 ==> #[trigger] merge_nodes(s[k], s[k + 1]) is None
    &&& forall|k: int| 0 <= k < s.len() ==> node_is_optimized(#[trigger] s[k])
}

pub open spec fn node_is_optimized(n: Node) -> bool
    decreases n,
{
    match n {
        Node::Loop(body) => is_optimized(body),
        _ => true,
    }
}

/// Every move count in the tree is within `MOVE_LIMIT`.
pub open spec fn within_limits(s: Seq<Node>) -> bool
    decreases s,
{
    forall|k: int| 0 <= k < s.len() ==> node_within_limits(#[trigger] s[k])
}

pub open spec fn node_within_limits(n: Node) -> bool
    decreases n,
{
    match n {
        Node::MoveForward(c) => c <= MOVE_LIMIT,
        Node::MoveBack(c) => c <= MOVE_LIMIT,
        Node::Loop(body) => within_limits(body),
        _ => true,
    }
}

proof fn lemma_merge_text(a: Node, b: Node)
    requires
        merge_nodes(a, b) is Some,
    ensures
        node_text(merge_nodes(a, b)->Some_0) == node_text(a) + node_text(b),
{
    let m = merge_nodes(a, b)->Some_0;
    assert(node_text(m) =~= node_text(a) + node_text(b));
}

proof fn lemma_merge_push_text(acc: Seq<Node>, n: Node)
    ensures
        text(merge_push(acc, n)) == text(acc) + node_text(n),
{
    if acc.len() > 0 && merge_nodes(acc.last(), n) is Some {
        let m = merge_nodes(acc.last(), n)->Some_0;
        lemma_merge_text(acc.last(), n);
        let r = acc.drop_last().push(m);
        assert(r.drop_last() =~= acc.drop_last());
        assert(text(acc) == text(acc.drop_last()) + node_text(acc.last()));
        assert(text(r) =~= text(acc) + node_text(n));
    } else {
        assert(acc.push(n).drop_last() =~= acc);
    }
}

/// Coalescing keeps the source text of the tree, so it keeps its behaviour.
pub proof fn lemma_optimized_text(s: Seq<Node>)
    ensures
        text(optimized(s)) == text(s),
    decreases s,
{
    if s.len() > 0 {
        lemma_optimized_text(s.drop_last());
        lemma_optimized_node_text(s.last());
        lemma_merge_push_text(optimized(s.drop_last()), optimized_node(s.last()));
    }
}

pub proof fn lemma_optimized_node_text(n: Node)
    ensures
        node_text(optimized_node(n)) == node_text(n),
    decreases n,
{
    if let Node::Loop(body) = n {
        lemma_optimized_text(body);
    }
}

proof fn lemma_merge_push_optimized(acc: Seq<Node>, n: Node)
    requires
        is_optimized(acc),
        node_is_optimized(n),
    ensures
        is_optimized(merge_push(acc, n)),
{
    let r = merge_push(acc, n);
    if acc.len() > 0 && merge_nodes(acc.last(), n) is Some {
        assert forall|k: int| 0 <= k < r.len() - 1 implies #[trigger] merge_nodes(r[k], r[k + 1]) is None by {
            if k == r.len() - 2 {
                assert(merge_nodes(acc[k], acc[k + 1]) is None);
            } else {
                assert(merge_nodes(acc[k], acc[k + 1]) is None);
            }
        }
        assert forall|k: int| 0 <= k < r.len() implies #[trigger] node_is_optimized(r[k]) by {
            if k < r.len() - 1 {
                assert(node_is_optimized(acc[k]));
            }
        }
    } else {
        assert forall|k: int| 0 <= k < r.len() - 1 implies #[trigger] merge_nodes(r[k], r[k + 1]) is None by {
            if k < r.len() - 2 {
                assert(merge_nodes(acc[k], acc[k + 1]) is None);
            }
        }
        assert forall|k: int| 0 <= k < r.len() implies #[trigger] node_is_optimized(r[k]) by {
            if k < r.len() - 1 {
                assert(node_is_optimized(acc[k]));
            }
        }
    }
}

/// The optimizer's output cannot be coalesced any further.
pub proof fn lemma_optimized_is_optimized(s: Seq<Node>)
    ensures
        is_optimized(optimized(s)),
    decreases s,
{
    if s.len() > 0 {
        lemma_optimized_is_optimized(s.drop_last());
        lemma_optimized_node_is_optimized(s.last());
        lemma_merge_push_optimized(optimized(s.drop_last()), optimized_node(s.last()));
    }
}

pub proof fn lemma_optimized_node_is_optimized(n: Node)
    ensures
        node_is_optimized(optimized_node(n)),
    decreases n,
{
    if let Node::Loop(body) = n {
        lemma_optimized_is_optimized(body);
    }
}

/// A tree that cannot be coalesced is left as it is.
pub proof fn lemma_optimized_fixes_optimized(s: Seq<Node>)
    requires
        is_optimized(s),
    ensures
        optimized(s) == s,
    decreases s,
{
    if s.len() > 0 {
        let p = s.drop_last();
        assert forall|k: int| 0 <= k < p.len() - 1 implies #[trigger] merge_nodes(p[k], p[k + 1]) is None by {
            assert(merge_nodes(s[k], s[k + 1]) is None);
        }
        assert forall|k: int| 0 <= k < p.len() implies #[trigger] node_is_optimized(p[k]) by {
            assert(node_is_optimized(s[k]));
        }
        lemma_optimized_fixes_optimized(p);
        assert(node_is_optimized(s[s.len() - 1]));
        lemma_optimized_node_fixes(s.last());
        if p.len() > 0 {
            assert(merge_nodes(s[s.len() - 2], s[s.len() - 1]) is None);
        }
        assert(p.push(s.last()) =~= s);
    }
}

pub proof fn lemma_optimized_node_fixes(n: Node)
    requires
        node_is_optimized(n),
    ensures
        optimized_node(n) == n,
    decreases n,
{
    if let Node::Loop(body) = n {
        lemma_optimized_fixes_optimized(body);
    }
}

proof fn lemma_merge_push_within_limits(acc: Seq<Node>, n: Node)
    requires
        within_limits(acc),
        node_within_limits(n),
    ensures
        within_limits(merge_push(acc, n)),
{
    let r = merge_push(acc, n);
    assert forall|k: int| 0 <= k < r.len() implies node_within_limits(#[trigger] r[k]) by {
        if k < r.len() - 1 {
            assert(node_within_limits(acc[k]));
        }
    }
}

/// Coalescing never takes a move count past its limit.
pub proof fn lemma_optimized_within_limits(s: Seq<Node>)
    requires
        within_limits(s),
    ensures
        within_limits(optimized(s)),
    decreases s,
{
    if s.len() > 0 {
        let p = s.drop_last();
        assert forall|k: int| 0 <= k < p.len() implies node_within_limits(#[trigger] p[k]) by {
            assert(node_within_limits(s[k]));
        }
        lemma_optimized_within_limits(p);
        assert(node_within_limits(s[s.len() - 1]));
        lemma_optimized_node_within_limits(s.last());
        lemma_merge_push_within_limits(optimized(p), optimized_node(s.last()));
    }
}

pub proof fn lemma_optimized_node_within_limits(n: Node)
    requires
        node_within_limits(n),
    ensures
        node_within_limits(optimized_node(n)),
    decreases n,
{
    if let Node::Loop(body) = n {
        lemma_optimized_within_limits(body);
    }
}

/// Optimizing is idempotent: optimizing an optimized tree returns it unchanged.
pub proof fn lemma_optimize_idempotent(s: Seq<Node>)
    ensures
        optimized(optimized(s)) == optimized(s),
{
    lemma_optimized_is_optimized(s);
    lemma_optimized_fixes_optimized(optimized(s));
}

/// Coalesces `b` into `a` where the two merge.
fn merge(a: &Expression, b: &Expression) -> (r: Option<Expression>)
    ensures
        r is None <==> merge_nodes(node_of(*a), node_of(*b)) is None,
        r matches Some(m) ==> merge_nodes(node_of(*a), node_of(*b)) == Some(node_of(m)),
{
    match (a, b) {
        (Expression::IncValue(x), Expression::IncValue(y)) => {
            if *x <= VALUE_LIMIT - *y { Some(Expression::IncValue(*x + *y)) } else { None }
        },
        (Expression::DecValue(x), Expression::DecValue(y)) => {
            if *x <= VALUE_LIMIT - *y { Some(Expression::DecValue(*x + *y)) } else { None }
        },
        (Expression::MoveForward(x), Expression::MoveForward(y)) => {
            if *y <= MOVE_LIMIT && *x <= MOVE_LIMIT - *y {
                Some(Expression::MoveForward(*x + *y))
            } else {
                None
            }
        },
        (Expression::MoveBack(x), Expression::MoveBack(y)) => {
            if *y <= MOVE_LIMIT && *x <= MOVE_LIMIT - *y {
                Some(Expression::MoveBack(*x + *y))
            } else {
                None
            }
        },
        _ => None,
    }
}

/// Rewrites a tree so that each maximal run of one counted operation becomes
/// a single node with the summed count (a run too long for one count is
/// split greedily), recursing into loop bodies. Order is kept, and the
/// source text of the tree is unchanged.
pub fn optimize(expressions: &Vec<Expression>) -> (r: Vec<Expression>)
    ensures
        nodes_of(r@) == optimized(nodes_of(expressions@)),
        text(nodes_of(r@)) == text(nodes_of(expressions@)),
        is_optimized(nodes_of(r@)),
        within_limits(nodes_of(expressions@)) ==> within_limits(nodes_of(r@)),
    decreases expressions@,
{
    let mut acc: Vec<Expression> = Vec::new();
    let mut k: usize = 0;
    proof {
        assert(nodes_of(acc@) =~= Seq::empty());
        assert(nodes_of(expressions@.take(0)) =~= Seq::empty());
    }
    while k < expressions.len()
        invariant
            k <= expressions.len(),
            nodes_of(acc@) == optimized(nodes_of(expressions@.take(k as int))),
        decreases expressions.len() - k,
    {
        let e = &expressions[k];
        let ne = match e {
            Expression::Loop(body) => {
                proof {
                    assert(decreases_to!(expressions@ => expressions@[k as int]));
                }
                Expression::Loop(optimize(body))
            },
            Expression::IncValue(n) => Expression::IncValue(*n),
            Expression::DecValue(n) => Expression::DecValue(*n),
            Expression::MoveForward(n) => Expression::MoveForward(*n),
            Expression::MoveBack(n) => Expression::MoveBack(*n),
            Expression::InputValue => Expression::InputValue,
            Expression::OutputValue => Expression::OutputValue,
        };
        assert(node_of(ne) == optimized_node(node_of(*e)));
        let ghost old_acc = acc@;
        let ghost gne = ne;
        proof {
            let t = expressions@.take(k + 1);
            assert(t.drop_last() =~= expressions@.take(k as int));
            assert(nodes_of(t) == nodes_of(t.drop_last()).push(node_of(t.last())));
            let x = nodes_of(t);
            assert(x.drop_last() =~= nodes_of(expressions@.take(k as int)));
            assert(x.last() == node_of(expressions@[k as int]));
            assert(optimized(x) == merge_push(optimized(x.drop_last()), optimized_node(x.last())));
            assert(optimized(x) == merge_push(nodes_of(old_acc), node_of(gne)));
            lemma_nodes_of(old_acc);
        }
        if acc.len() > 0 {
            let last = acc.len() - 1;
            match merge(&acc[last], &ne) {
                Some(m) => {
                    acc.pop();
                    acc.push(m);
                    proof {
                        assert(old_acc.drop_last().push(old_acc.last()) =~= old_acc);
                        lemma_nodes_of_push(old_acc.drop_last(), old_acc.last());
                        lemma_nodes_of_push(old_acc.drop_last(), m);
                        assert(acc@ =~= old_acc.drop_last().push(m));
                        assert(nodes_of(acc@) =~= nodes_of(old_acc).drop_last().push(
                            merge_nodes(nodes_of(old_acc).last(), node_of(gne))->Some_0,
                        ));
                    }
                },
                None => {
                    acc.push(ne);
                    proof {
                        lemma_nodes_of_push(old_acc, gne);
                        assert(nodes_of(acc@) =~= nodes_of(old_acc).push(node_of(gne)));
                    }
                },
            }
        } else {
            acc.push(ne);
            proof {
                lemma_nodes_of_push(old_acc, gne);
                assert(nodes_of(acc@) =~= nodes_of(old_acc).push(node_of(gne)));
            }
        }
        k = k + 1;
    }
    proof {
        assert(expressions@.take(k as int) =~= expressions@);
        lemma_optimized_text(nodes_of(expressions@));
        lemma_optimized_is_optimized(nodes_of(expressions@));
        if within_limits(nodes_of(expressions@)) {
            lemma_optimized_within_limits(nodes_of(expressions@));
        }
    }
    acc
}

} // verus!
