use vstd::prelude::*;
use crate::ast::{Expression, Node, node_of, nodes_of, text, node_text};
use crate::token::{Position, Token};
use crate::optimize::{within_limits, node_within_limits};

verus! {

broadcast use vstd::seq::group_seq_axioms;

/// Why a token sequence is not a program.
#[derive(Debug, Clone, Copy, PartialEq, Eq, Structural)]
pub enum InvalidProgramError {
    /// The input ended while the loop opened at this position was still open.
    ExcessiveOpeningBrackets(Position),
    /// A loop close at this position has no loop open to match.
    UnexpectedClosingBracket(Position),
}

/// How a token changes the bracket nesting depth.
pub open spec fn delta(t: Token) -> int {
    match t {
        Token::LoopStart(_) => 1,
        Token::LoopEnd(_) => -1,
        _ => 0,
    }
}

/// Nesting depth after the first `x` tokens.
pub open spec fn depth(toks: Seq<Token>, x: int) -> int
    decreases x,
{
    if x <= 0 || x > toks.len() {
        0
    } else {
        depth(toks, x - 1) + delta(toks[x - 1])
    }
}

/// Index of the first end sentinel at or after `i`, or the length if there is none.
pub open spec fn end_from(toks: Seq<Token>, i: int) -> int
    decreases toks.len() - i,
{
    if i < 0 || i >= toks.len() {
        toks.len() as int
    } else if toks[i] is ProgramEnd {
        i
    } else {
        end_from(toks, i + 1)
    }
}

/// Where parsing stops: the first end sentinel, or the end of the input.
pub open spec fn program_end(toks: Seq<Token>) -> int {
    end_from(toks, 0)
}

/// The source character that a token stands for; sentinels stand for none.
pub open spec fn token_text(t: Token) -> Seq<char> {
    match t {
        Token::LoopStart(_) => seq!['['],
        Token::LoopEnd(_) => seq![']'],
        Token::IncValue(_) => seq!['+'],
        Token::DecValue(_) => seq!['-'],
        Token::MoveForward(_) => seq!['>'],
        Token::MoveBack(_) => seq!['<'],
        Token::InputValue(_) => seq![','],
        Token::OutputValue(_) => seq!['.'],
        _ => Seq::empty(),
    }
}

/// The source characters of the tokens in `[i, j)`.
pub open spec fn tokens_text(toks: Seq<Token>, i: int, j: int) -> Seq<char>
    decreases j - i,
{
    if j <= i {
        Seq::empty()
    } else {
        tokens_text(toks, i, j - 1) + token_text(toks[j - 1])
    }
}

/// The position that a token carries; sentinels carry none.
pub open spec fn token_pos(t: Token) -> Position {
    match t {
        Token::LoopStart(p) => p,
        Token::LoopEnd(p) => p,
        Token::IncValue(p) => p,
        Token::DecValue(p) => p,
        Token::MoveForward(p) => p,
        Token::MoveBack(p) => p,
        Token::InputValue(p) => p,
        Token::OutputValue(p) => p,
        _ => 0,
    }
}

/// Every counted node of the tree has count one, as parsing produces them.
pub open spec fn unit_counts(s: Seq<Node>) -> bool
    decreases s,
{
    forall|k: int| 0 <= k < s.len() ==> unit_node(#[trigger] s[k])
}

pub open spec fn unit_node(n: Node) -> bool
    decreases n,
{
    match n {
        Node::IncValue(c) => c == 1,
        Node::DecValue(c) => c == 1,
        Node::MoveForward(c) => c == 1,
        Node::MoveBack(c) => c == 1,
        Node::Loop(body) => unit_counts(body),
        _ => true,
    }
}

/// Token `j` closes a bracket that was never opened: it is the first point
/// where the nesting depth goes below zero.
pub open spec fn is_unmatched_close(toks: Seq<Token>, j: int) -> bool {
    0 <= j < program_end(toks) && first_drop(toks, 0, j)
}

/// Within `[i, program_end)`, token `j` is the first that takes the depth
/// below the depth at `i`.
pub open spec fn first_drop(toks: Seq<Token>, i: int, j: int) -> bool {
    &&& i <= j < program_end(toks)
    &&& depth(toks, j + 1) < depth(toks, i)
    &&& forall|x: int| i <= x <= j ==> depth(toks, x) >= depth(toks, i)
}

/// The depth never goes below its value at `i` before the end.
pub open spec fn no_drop(toks: Seq<Token>, i: int) -> bool {
    forall|x: int| i <= x <= program_end(toks) ==> depth(toks, x) >= depth(toks, i)
}

/// Token `m` opens the innermost bracket that is still open at the end: the
/// last point where the depth is below its final value.
pub open spec fn innermost_open(toks: Seq<Token>, m: int) -> bool {
    let n = program_end(toks);
    &&& 0 <= m < n
    &&& toks[m] is LoopStart
    &&& depth(toks, m) == depth(toks, n) - 1
    &&& forall|x: int| m < x <= n ==> depth(toks, x) >= depth(toks, n)
}

/// The brackets of the program are balanced.
pub open spec fn well_bracketed(toks: Seq<Token>) -> bool {
    no_drop(toks, 0) && depth(toks, program_end(toks)) == 0
}

pub proof fn lemma_end_from(toks: Seq<Token>, i: int)
    requires
        0 <= i <= toks.len(),
    ensures
        i <= end_from(toks, i) <= toks.len(),
        end_from(toks, i) < toks.len() ==> toks[end_from(toks, i)] is ProgramEnd,
        forall|x: int| i <= x < end_from(toks, i) ==> !(#[trigger] toks[x] is ProgramEnd),
    decreases toks.len() - i,
{
    if i < toks.len() && !(toks[i] is ProgramEnd) {
        lemma_end_from(toks, i + 1);
    }
}

proof fn lemma_tokens_text_split(toks: Seq<Token>, i: int, b: int, c: int)
    requires
        i <= b <= c,
    ensures
        tokens_text(toks, i, c) == tokens_text(toks, i, b) + tokens_text(toks, b, c),
    decreases c - b,
{
    if c > b {
        lemma_tokens_text_split(toks, i, b, c - 1);
        assert(tokens_text(toks, i, c) == tokens_text(toks, i, b) + tokens_text(toks, b, c));
    } else {
        assert(tokens_text(toks, b, c) =~= Seq::empty());
        assert(tokens_text(toks, i, b) + tokens_text(toks, b, c) =~= tokens_text(toks, i, b));
    }
}

proof fn lemma_tokens_text_one(toks: Seq<Token>, k: int)
    ensures
        tokens_text(toks, k, k + 1) == token_text(toks[k]),
{
    assert(tokens_text(toks, k, k) =~= Seq::empty());
    assert(tokens_text(toks, k, k + 1) =~= token_text(toks[k]));
}

proof fn lemma_depth_step(toks: Seq<Token>, x: int)
    requires
        0 <= x < toks.len(),
    ensures
        depth(toks, x + 1) == depth(toks, x) + delta(toks[x]),
{
}

/// The model of a parse result: the tree, or the error.
pub open spec fn tree_of(r: Result<Vec<Expression>, InvalidProgramError>) -> Result<Seq<Node>, InvalidProgramError> {
    match r {
        Ok(exprs) => Ok(nodes_of(exprs@)),
        Err(e) => Err(e),
    }
}

/// `r` is what parsing `toks` gives: on balanced brackets, a tree of unit
/// counts whose text is the program's; otherwise the first unmatched loop
/// close, or else the innermost loop left open.
pub open spec fn parses_to(toks: Seq<Token>, r: Result<Seq<Node>, InvalidProgramError>) -> bool {
    match r {
        Ok(t) => {
            &&& well_bracketed(toks)
            &&& text(t) == tokens_text(toks, 0, program_end(toks))
            &&& unit_counts(t)
        },
        Err(InvalidProgramError::UnexpectedClosingBracket(p)) => exists|j: int|
            is_unmatched_close(toks, j) && p == token_pos(#[trigger] toks[j]),
        Err(InvalidProgramError::ExcessiveOpeningBrackets(p)) => {
            &&& no_drop(toks, 0)
            &&& exists|m: int| innermost_open(toks, m) && p == token_pos(#[trigger] toks[m])
        },
    }
}

/// A tree of unit counts has every move count within its limit.
pub proof fn lemma_unit_counts_within_limits(s: Seq<Node>)
    requires
        unit_counts(s),
    ensures
        within_limits(s),
    decreases s,
{
    assert forall|k: int| 0 <= k < s.len() implies node_within_limits(#[trigger] s[k]) by {
        assert(unit_node(s[k]));
        if let Node::Loop(body) = s[k] {
            lemma_unit_counts_within_limits(body);
        }
    }
}

/// Parses a token sequence into a tree. Parsing stops at the first end
/// sentinel, or at the end of the input if there is none; start sentinels are
/// skipped. Succeeds exactly on balanced brackets; otherwise reports the
/// first unmatched loop close, or else the innermost loop left open.
pub fn parse(tokens: &Vec<Token>) -> (r: Result<Vec<Expression>, InvalidProgramError>)
    ensures
        parses_to(tokens@, tree_of(r)),
        well_bracketed(tokens@) ==> r is Ok,
        r matches Ok(exprs) ==> within_limits(nodes_of(exprs@)),
{
    proof {
        lemma_end_from(tokens@, 0);
    }
    match do_parse(tokens, 0, 0, 0) {
        Ok((exprs, _)) => {
            proof {
                lemma_unit_counts_within_limits(nodes_of(exprs@));
            }
            Ok(exprs)
        },
        Err(e) => Err(e),
    }
}

/// Parses from token `i` at nesting `level`. Nested calls (`level > 0`) start
/// right after the loop open at `open` and return at its matching close,
/// with the index after it.
fn do_parse(tokens: &Vec<Token>, i: usize, level: usize, open: Position) -> (r: Result<
    (Vec<Expression>, usize),
    InvalidProgramError,
>)
    requires
        i <= program_end(tokens@),
        level <= i,
        level > 0 ==> i >= 1 && tokens@[i - 1] is LoopStart && open == token_pos(tokens@[i - 1]),
    ensures
        match r {
            Ok((exprs, next)) => {
                &&& unit_counts(nodes_of(exprs@))
                &&& level > 0 ==> first_drop(tokens@, i as int, next - 1)
                &&& level > 0 ==> text(nodes_of(exprs@)) == tokens_text(tokens@, i as int, next - 1)
                &&& level == 0 ==> next == program_end(tokens@) && no_drop(tokens@, i as int)
                    && depth(tokens@, next as int) == depth(tokens@, i as int)
                &&& level == 0 ==> text(nodes_of(exprs@)) == tokens_text(tokens@, i as int, next as int)
            },
            Err(InvalidProgramError::UnexpectedClosingBracket(p)) => {
                &&& level == 0
                &&& exists|j: int| first_drop(tokens@, i as int, j) && p == token_pos(#[trigger] tokens@[j])
            },
            Err(InvalidProgramError::ExcessiveOpeningBrackets(p)) => {
                &&& no_drop(tokens@, i as int)
                &&& exists|m: int| innermost_open(tokens@, m) && p == token_pos(#[trigger] tokens@[m])
            },
        },
    decreases tokens@.len() - i,
{
    let ghost toks = tokens@;
    let ghost n = program_end(toks);
    let ghost d = depth(toks, i as int);
    proof {
        lemma_end_from(toks, 0);
    }
    let mut exprs: Vec<Expression> = Vec::new();
    let mut k: usize = i;
    proof {
        assert(nodes_of(exprs@) =~= Seq::empty());
        assert(tokens_text(toks, i as int, k as int) =~= Seq::empty());
    }
    while k < tokens.len() && !matches!(tokens[k], Token::ProgramEnd)
        invariant
            toks == tokens@,
            n == program_end(toks),
            0 <= n <= toks.len(),
            forall|x: int| 0 <= x < n ==> !(#[trigger] toks[x] is ProgramEnd),
            n < toks.len() ==> toks[n] is ProgramEnd,
            level <= i <= k <= n,
            d == depth(toks, i as int),
            depth(toks, k as int) == d,
            forall|x: int| i <= x <= k ==> depth(toks, x) >= d,
            text(nodes_of(exprs@)) == tokens_text(toks, i as int, k as int),
            unit_counts(nodes_of(exprs@)),
            level > 0 ==> i >= 1 && toks[i - 1] is LoopStart && open == token_pos(toks[i - 1]),
        decreases tokens@.len() - k,
    {
        let tok = tokens[k];
        proof {
            lemma_depth_step(toks, k as int);
            lemma_tokens_text_split(toks, i as int, k as int, k + 1);
            lemma_tokens_text_one(toks, k as int);
        }
        let ghost before = exprs@;
        match tok {
            Token::LoopStart(pos) => {
                match do_parse(tokens, k + 1, level + 1, pos) {
                    Ok((body, next)) => {
                        let ghost j = next - 1;
                        proof {
                            lemma_depth_step(toks, j);
                            assert(depth(toks, j) >= d + 1);
                            lemma_tokens_text_split(toks, i as int, k as int, next as int);
                            lemma_tokens_text_split(toks, k as int, k + 1, next as int);
                            lemma_tokens_text_split(toks, k + 1, j, next as int);
                            lemma_tokens_text_one(toks, j);
                        }
                        exprs.push(Expression::Loop(body));
                        proof {
                            assert(exprs@.drop_last() =~= before);
                            let nb = nodes_of(exprs@);
                            assert(nb == nodes_of(before).push(node_of(exprs@.last())));
                            assert(nb =~= nodes_of(before).push(Node::Loop(nodes_of(body@))));
                            assert(unit_node(nb[nb.len() - 1]));
                            assert(nb.drop_last() =~= nodes_of(before));
                            assert(text(nb) == text(nodes_of(before)) + node_text(Node::Loop(nodes_of(body@))));
                            assert forall|x: int| i <= x <= next implies depth(toks, x) >= d by {
                                if x > k {
                                    assert(depth(toks, x) >= depth(toks, k + 1) || x == next);
                                }
                            }
                            assert(text(nb) =~= tokens_text(toks, i as int, next as int));
                        }
                        k = next;
                    },
                    Err(e) => {
                        proof {
                            assert forall|x: int| i <= x <= n implies depth(toks, x) >= d by {
                                if x > k {
                                    assert(depth(toks, x) >= depth(toks, k + 1));
                                }
                            }
                        }
                        return Err(e);
                    },
                }
            },
            Token::LoopEnd(pos) => {
                proof {
                    assert(first_drop(toks, i as int, k as int));
                    assert(pos == token_pos(toks[k as int]));
                }
                if level == 0 {
                    return Err(InvalidProgramError::UnexpectedClosingBracket(pos));
                } else {
                    return Ok((exprs, k + 1));
                }
            },
            Token::ProgramStart => {
                proof {
                    assert(tokens_text(toks, i as int, k + 1) =~= tokens_text(toks, i as int, k as int));
                }
                k = k + 1;
            },
            Token::ProgramEnd => {
                k = k + 1;
            },
            _ => {
                let e = match tok {
                    Token::IncValue(_) => Expression::IncValue(1),
                    Token::DecValue(_) => Expression::DecValue(1),
                    Token::MoveForward(_) => Expression::MoveForward(1),
                    Token::MoveBack(_) => Expression::MoveBack(1),
                    Token::InputValue(_) => Expression::InputValue,
                    _ => Expression::OutputValue,
                };
                exprs.push(e);
                proof {
                    assert(exprs@.drop_last() =~= before);
                    let nb = nodes_of(exprs@);
                    assert(nb == nodes_of(before).push(node_of(e)));
                    assert(node_text(node_of(e)) =~= token_text(toks[k as int]));
                    assert(unit_node(nb[nb.len() - 1]));
                    assert(nb.drop_last() =~= nodes_of(before));
                    assert(text(nb) == text(nodes_of(before)) + node_text(node_of(e)));
                    assert(text(nb) =~= tokens_text(toks, i as int, k + 1));
                }
                k = k + 1;
            },
        }
    }
    if level > 0 {
        proof {
            lemma_depth_step(toks, i - 1);
            assert(innermost_open(toks, i - 1));
        }
        Err(InvalidProgramError::ExcessiveOpeningBrackets(open))
    } else {
        Ok((exprs, k))
    }
}

} // verus!
