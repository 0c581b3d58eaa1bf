use vstd::prelude::*;

verus! {

broadcast use vstd::std_specs::vec::group_vec_axioms, vstd::seq::group_seq_axioms;

/// A node of the program tree. Counted variants carry how many times the
/// operation is repeated; a `Loop` owns its body.
#[derive(Debug, PartialEq, Eq)]
pub enum Expression {
    IncValue(u32),
    DecValue(u32),
    MoveForward(u32),
    MoveBack(u32),
    InputValue,
    OutputValue,
    Loop(Vec<Expression>),
}

/// Mathematical model of an `Expression`: the same tree with its loop bodies
/// as sequences.
pub enum Node {
    IncValue(nat),
    DecValue(nat),
    MoveForward(nat),
    MoveBack(nat),
    InputValue,
    OutputValue,
    Loop(Seq<Node>),
}

pub open spec fn node_of(e: Expression) -> Node
    decreases e,
{
    match e {
        Expression::IncValue(n) => Node::IncValue(n as nat),
        Expression::DecValue(n) => Node::DecValue(n as nat),
        Expression::MoveForward(n) => Node::MoveForward(n as nat),
        Expression::MoveBack(n) => Node::MoveBack(n as nat),
        Expression::InputValue => Node::InputValue,
        Expression::OutputValue => Node::OutputValue,
        Expression::Loop(body) => Node::Loop(nodes_of(body@)),
    }
}

pub open spec fn nodes_of(s: Seq<Expression>) -> Seq<Node>
    decreases s,
{
    if s.len() == 0 {
        Seq::empty()
    } else {
        nodes_of(s.drop_last()).push(node_of(s.last()))
    }
}

/// The source text of a tree: each counted node spelled out as its opcode
/// character repeated, each loop as its body between brackets.
pub open spec fn text(s: Seq<Node>) -> Seq<char>
    decreases s,
{
    if s.len() == 0 {
        Seq::empty()
    } else {
        text(s.drop_last()) + node_text(s.last())
    }
}

pub open spec fn node_text(n: Node) -> Seq<char>
    decreases n,
{
    match n {
        Node::IncValue(k) => Seq::new(k, |i: int| '+'),
        Node::DecValue(k) => Seq::new(k, |i: int| '-'),
        Node::MoveForward(k) => Seq::new(k, |i: int| '>'),
        Node::MoveBack(k) => Seq::new(k, |i: int| '<'),
        Node::InputValue => seq![','],
        Node::OutputValue => seq!['.'],
        Node::Loop(body) => seq!['['] + text(body) + seq![']'],
    }
}

pub proof fn lemma_nodes_of(s: Seq<Expression>)
    ensures
        nodes_of(s).len() == s.len(),
        forall|k: int| 0 <= k < s.len() ==> nodes_of(s)[k] == node_of(#[trigger] s[k]),
    decreases s.len(),
{
    if s.len() > 0 {
        let p = s.drop_last();
        lemma_nodes_of(p);
        assert forall|k: int| 0 <= k < s.len() implies nodes_of(s)[k] == node_of(#[trigger] s[k]) by {
            if k < p.len() {
                assert(s[k] == p[k]);
            }
        }
    }
}

pub proof fn lemma_nodes_of_push(s: Seq<Expression>, e: Expression)
    ensures
        nodes_of(s.push(e)) == nodes_of(s).push(node_of(e)),
{
    assert(s.push(e).drop_last() =~= s);
}

} // verus!
