use vstd::prelude::*;
use crate::ast::{Node, text, node_text};
use crate::parse::{
    InvalidProgramError, depth, delta, innermost_open, is_unmatched_close, lemma_end_from, no_drop,
    parses_to, program_end, token_pos, token_text, tokens_text, well_bracketed,
};
use crate::token::{Token, opcode_tokens, token_for, tokens_of};

verus! {

broadcast use vstd::seq::group_seq_axioms;

/// One of the six characters that is an operation rather than a bracket.
pub open spec fn is_op_char(c: char) -> bool {
    c == '+' || c == '-' || c == '<' || c == '>' || c == ',' || c == '.'
}

/// Number of operation characters in a text.
pub open spec fn ops_in(cs: Seq<char>) -> nat
    decreases cs.len(),
{
    if cs.len() == 0 {
        0
    } else {
        ops_in(cs.drop_last()) + if is_op_char(cs.last()) { 1nat } else { 0nat }
    }
}

/// Loop opens minus loop closes in a text.
pub open spec fn bracket_balance(cs: Seq<char>) -> int
    decreases cs.len(),
{
    if cs.len() == 0 {
        0
    } else {
        bracket_balance(cs.drop_last()) + if cs.last() == '[' {
            1int
        } else if cs.last() == ']' {
            -1int
        } else {
            0int
        }
    }
}

/// Number of unit operations in a tree, each counted node standing for
/// as many operations as its count.
pub open spec fn op_count(s: Seq<Node>) -> nat
    decreases s,
{
    if s.len() == 0 {
        0
    } else {
        op_count(s.drop_last()) + node_op_count(s.last())
    }
}

pub open spec fn node_op_count(n: Node) -> nat
    decreases n,
{
    match n {
        Node::IncValue(k) => k,
        Node::DecValue(k) => k,
        Node::MoveForward(k) => k,
        Node::MoveBack(k) => k,
        Node::InputValue => 1,
        Node::OutputValue => 1,
        Node::Loop(body) => op_count(body),
    }
}

proof fn lemma_ops_in_concat(a: Seq<char>, b: Seq<char>)
    ensures
        ops_in(a + b) == ops_in(a) + ops_in(b),
    decreases b.len(),
{
    if b.len() > 0 {
        lemma_ops_in_concat(a, b.drop_last());
        assert((a + b).drop_last() =~= a + b.drop_last());
    } else {
        assert(a + b =~= a);
    }
}

proof fn lemma_ops_in_repeat(k: nat, c: char)
    ensures
        ops_in(Seq::new(k, |i: int| c)) == if is_op_char(c) { k } else { 0 },
    decreases k,
{
    if k > 0 {
        lemma_ops_in_repeat((k - 1) as nat, c);
        assert(Seq::new(k, |i: int| c).drop_last() =~= Seq::new((k - 1) as nat, |i: int| c));
    }
}

proof fn lemma_ops_in_one(c: char)
    ensures
        ops_in(seq![c]) == if is_op_char(c) { 1nat } else { 0nat },
{
    assert(seq![c].drop_last() =~= Seq::<char>::empty());
    assert(ops_in(Seq::<char>::empty()) == 0);
}

/// A tree has as many unit operations as its text has operation characters.
pub proof fn lemma_op_count_text(s: Seq<Node>)
    ensures
        op_count(s) == ops_in(text(s)),
    decreases s,
{
    if s.len() > 0 {
        lemma_op_count_text(s.drop_last());
        lemma_node_op_count_text(s.last());
        lemma_ops_in_concat(text(s.drop_last()), node_text(s.last()));
    }
}

pub proof fn lemma_node_op_count_text(n: Node)
    ensures
        node_op_count(n) == ops_in(node_text(n)),
    decreases n,
{
    match n {
        Node::IncValue(k) => lemma_ops_in_repeat(k, '+'),
        Node::DecValue(k) => lemma_ops_in_repeat(k, '-'),
        Node::MoveForward(k) => lemma_ops_in_repeat(k, '>'),
        Node::MoveBack(k) => lemma_ops_in_repeat(k, '<'),
        Node::InputValue => lemma_ops_in_one(','),
        Node::OutputValue => lemma_ops_in_one('.'),
        Node::Loop(body) => {
            lemma_op_count_text(body);
            lemma_ops_in_one('[');
            lemma_ops_in_one(']');
            lemma_ops_in_concat(seq!['['], text(body));
            lemma_ops_in_concat(seq!['['] + text(body), seq![']']);
        },
    }
}

/// The opcode tokens of a prefix are a prefix of the opcode tokens of a
/// longer prefix, and each carries the position of a character of its kind.
proof fn lemma_opcode_tokens(src: Seq<char>, n: int, m: int)
    requires
        0 <= n <= m <= src.len(),
        src.len() <= usize::MAX,
    ensures
        opcode_tokens(src, n).len() <= opcode_tokens(src, m).len(),
        forall|i: int| 0 <= i < opcode_tokens(src, n).len()
            ==> opcode_tokens(src, m)[i] == #[trigger] opcode_tokens(src, n)[i],
        forall|i: int| 0 <= i < opcode_tokens(src, m).len()
            ==> token_source(src, #[trigger] opcode_tokens(src, m)[i], m),
    decreases m,
{
    if m > 0 {
        if n < m {
            lemma_opcode_tokens(src, n, m - 1);
        }
        lemma_opcode_tokens(src, m - 1, m - 1);
        let prev = opcode_tokens(src, m - 1);
        let cur = opcode_tokens(src, m);
        assert(cur == prev + token_for(src[m - 1], m - 1));
        assert forall|i: int| 0 <= i < cur.len() implies token_source(src, #[trigger] cur[i], m) by {
            if i < prev.len() {
                assert(cur[i] == prev[i]);
                assert(token_source(src, prev[i], m - 1));
            }
        }
    }
}

/// A token of the opcodes among the first `n` characters: no sentinel; its
/// position is that of a character before `n`, which its text spells.
pub open spec fn token_source(src: Seq<char>, t: Token, n: int) -> bool {
    &&& !(t is ProgramStart) && !(t is ProgramEnd)
    &&& token_pos(t) < n
    &&& token_text(t) == seq![src[token_pos(t) as int]]
}

proof fn lemma_tokens_text_step(toks: Seq<Token>, k: int)
    requires
        0 <= k,
    ensures
        tokens_text(toks, 0, k + 1) == tokens_text(toks, 0, k) + token_text(toks[k]),
{
}

/// Walking the source: the tokens up to the opcodes of the first `n`
/// characters spell as many operations, and reach the same depth, as those
/// characters.
proof fn lemma_walk(src: Seq<char>, n: int)
    requires
        0 <= n <= src.len(),
        src.len() <= usize::MAX,
    ensures
        ops_in(tokens_text(tokens_of(src), 0, (1 + opcode_tokens(src, n).len()) as int))
            == ops_in(src.take(n)),
        depth(tokens_of(src), (1 + opcode_tokens(src, n).len()) as int) == bracket_balance(src.take(n)),
    decreases n,
{
    let toks = tokens_of(src);
    let all = opcode_tokens(src, src.len() as int);
    lemma_opcode_tokens(src, n, src.len() as int);
    if n == 0 {
        assert(opcode_tokens(src, 0).len() == 0);
        assert(tokens_text(toks, 0, 1) == tokens_text(toks, 0, 0) + token_text(toks[0]));
        assert(tokens_text(toks, 0, 1) =~= Seq::<char>::empty());
        assert(src.take(0) =~= Seq::<char>::empty());
        assert(depth(toks, 1) == depth(toks, 0) + delta(toks[0]));
    } else {
        lemma_walk(src, n - 1);
        let prev = opcode_tokens(src, n - 1);
        let cur = opcode_tokens(src, n);
        let c = src[n - 1];
        assert(cur == prev + token_for(c, n - 1));
        assert(src.take(n).drop_last() =~= src.take(n - 1));
        assert(src.take(n).last() == c);
        lemma_ops_in_one(c);
        if token_for(c, n - 1).len() == 1 {
            let k = (1 + prev.len()) as int;
            lemma_opcode_tokens(src, n, src.len() as int);
            assert(toks[k] == all[k - 1]);
            assert(all[k - 1] == cur[k - 1]);
            assert(cur[k - 1] == token_for(c, n - 1)[0]);
            lemma_tokens_text_step(toks, k);
            lemma_ops_in_concat(tokens_text(toks, 0, k), token_text(toks[k]));
            assert(depth(toks, k + 1) == depth(toks, k) + delta(toks[k]));
        } else {
            assert(cur =~= prev);
        }
    }
}

/// The token sequence of a source text ends its program at the end sentinel,
/// and its tokens stand for the source's characters.
proof fn lemma_tokens_of(src: Seq<char>)
    requires
        src.len() <= usize::MAX,
    ensures
        program_end(tokens_of(src)) == (1 + opcode_tokens(src, src.len() as int).len()) as int,
        forall|m: int| 1 <= m < program_end(tokens_of(src))
            ==> token_source(src, #[trigger] tokens_of(src)[m], src.len() as int),
        ops_in(tokens_text(tokens_of(src), 0, program_end(tokens_of(src)))) == ops_in(src),
        depth(tokens_of(src), program_end(tokens_of(src))) == bracket_balance(src),
{
    let toks = tokens_of(src);
    let all = opcode_tokens(src, src.len() as int);
    lemma_opcode_tokens(src, src.len() as int, src.len() as int);
    lemma_end_from(toks, 0);
    let e = program_end(toks);
    assert(toks[1 + all.len() as int] is ProgramEnd);
    assert forall|m: int| 1 <= m < 1 + all.len() implies token_source(src, #[trigger] toks[m], src.len() as int) by {
        assert(toks[m] == all[m - 1]);
    }
    if e < 1 + all.len() {
        if e == 0 {
            assert(toks[0] is ProgramStart);
        } else {
            assert(toks[e] == all[e - 1]);
        }
    }
    assert(e == 1 + all.len());
    lemma_walk(src, src.len() as int);
    assert(src.take(src.len() as int) =~= src);
}

/// Parsing keeps every operation: a program whose brackets balance parses,
/// and its tree has as many unit operations as the source has operation
/// characters.
pub proof fn lemma_parse_keeps_operations(src: Seq<char>, r: Result<Seq<Node>, InvalidProgramError>)
    requires
        src.len() <= usize::MAX,
        well_bracketed(tokens_of(src)),
        parses_to(tokens_of(src), r),
    ensures
        r is Ok,
        op_count(r->Ok_0) == ops_in(src),
{
    let toks = tokens_of(src);
    lemma_tokens_of(src);
    match r {
        Ok(t) => {
            lemma_op_count_text(t);
        },
        Err(InvalidProgramError::UnexpectedClosingBracket(p)) => {
            let j = choose|j: int| is_unmatched_close(toks, j) && p == token_pos(#[trigger] toks[j]);
            assert(depth(toks, j + 1) >= 0);
        },
        Err(InvalidProgramError::ExcessiveOpeningBrackets(p)) => {
            let m = choose|m: int| innermost_open(toks, m) && p == token_pos(#[trigger] toks[m]);
            assert(depth(toks, m) >= 0);
        },
    }
}

/// A program with one more loop open than loop closes, and no close without
/// an open, fails to parse at the innermost loop left open: the error
/// carries the position of that `[` in the source.
pub proof fn lemma_excess_open_reported(src: Seq<char>, r: Result<Seq<Node>, InvalidProgramError>)
    requires
        src.len() <= usize::MAX,
        bracket_balance(src) == 1,
        no_drop(tokens_of(src), 0),
        parses_to(tokens_of(src), r),
    ensures
        r matches Err(InvalidProgramError::ExcessiveOpeningBrackets(p)) && src[p as int] == '['
            && exists|m: int| innermost_open(tokens_of(src), m) && tokens_of(src)[m] == Token::LoopStart(p),
{
    let toks = tokens_of(src);
    lemma_tokens_of(src);
    match r {
        Ok(t) => {},
        Err(InvalidProgramError::UnexpectedClosingBracket(p)) => {
            let j = choose|j: int| is_unmatched_close(toks, j) && p == token_pos(#[trigger] toks[j]);
            assert(depth(toks, j + 1) >= 0);
        },
        Err(InvalidProgramError::ExcessiveOpeningBrackets(p)) => {
            let m = choose|m: int| innermost_open(toks, m) && p == token_pos(#[trigger] toks[m]);
            assert(m >= 1) by {
                if m == 0 {
                    assert(toks[0] is ProgramStart);
                }
            }
            assert(token_source(src, toks[m], src.len() as int));
            assert(toks[m] == Token::LoopStart(p));
            assert(token_text(toks[m]) == seq!['[']);
            assert(seq![src[p as int]][0] == src[p as int]);
        },
    }
}

/// A program whose depth first goes below zero at a loop close fails to
/// parse at that close: the error carries the position of that `]`.
pub proof fn lemma_unmatched_close_reported(src: Seq<char>, j: int, r: Result<Seq<Node>, InvalidProgramError>)
    requires
        src.len() <= usize::MAX,
        is_unmatched_close(tokens_of(src), j),
        parses_to(tokens_of(src), r),
    ensures
        r == Err::<Seq<Node>, InvalidProgramError>(
            InvalidProgramError::UnexpectedClosingBracket(token_pos(tokens_of(src)[j])),
        ),
        tokens_of(src)[j] is LoopEnd,
        src[token_pos(tokens_of(src)[j]) as int] == ']',
{
    let toks = tokens_of(src);
    lemma_tokens_of(src);
    assert(depth(toks, j + 1) == depth(toks, j) + delta(toks[j]));
    assert(j >= 1) by {
        if j == 0 {
            assert(toks[0] is ProgramStart);
        }
    }
    assert(token_source(src, toks[j], src.len() as int));
    assert(toks[j] is LoopEnd);
    assert(token_text(toks[j]) == seq![']']);
    assert(seq![src[token_pos(toks[j]) as int]][0] == src[token_pos(toks[j]) as int]);
    match r {
        Ok(t) => {
            assert(depth(toks, j + 1) >= 0);
        },
        Err(InvalidProgramError::UnexpectedClosingBracket(p)) => {
            let k = choose|k: int| is_unmatched_close(toks, k) && p == token_pos(#[trigger] toks[k]);
            if k < j {
                assert(depth(toks, k + 1) >= 0);
            }
            if j < k {
                assert(depth(toks, j + 1) >= 0);
            }
        },
        Err(InvalidProgramError::ExcessiveOpeningBrackets(p)) => {
            assert(depth(toks, j + 1) >= 0);
        },
    }
}

} // verus!
