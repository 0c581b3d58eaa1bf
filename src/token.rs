use vstd::prelude::*;

verus! {

/// Offset of a character in the source text.
pub type Position = usize;

/// A recognised source character with its position, between two sentinels.
#[derive(Debug, Clone, Copy, PartialEq, Eq, Structural)]
pub enum Token {
    ProgramStart,
    ProgramEnd,
    LoopStart(Position),
    LoopEnd(Position),
    IncValue(Position),
    DecValue(Position),
    MoveForward(Position),
    MoveBack(Position),
    InputValue(Position),
    OutputValue(Position),
}

/// The token that the character `c` at `pos` yields, if it is an opcode.
pub open spec fn token_for(c: char, pos: int) -> Seq<Token> {
    let p = pos as usize;
    if c == '[' {
        seq![Token::LoopStart(p)]
    } else if c == ']' {
        seq![Token::LoopEnd(p)]
    } else if c == '>' {
        seq![Token::MoveForward(p)]
    } else if c == '<' {
        seq![Token::MoveBack(p)]
    } else if c == '+' {
        seq![Token::IncValue(p)]
    } else if c == '-' {
        seq![Token::DecValue(p)]
    } else if c == '.' {
        seq![Token::OutputValue(p)]
    } else if c == ',' {
        seq![Token::InputValue(p)]
    } else {
        Seq::empty()
    }
}

/// The tokens of the opcodes among the first `n` characters of `src`.
pub open spec fn opcode_tokens(src: Seq<char>, n: int) -> Seq<Token>
    decreases n,
{
    if n <= 0 {
        Seq::empty()
    } else {
        opcode_tokens(src, n - 1) + token_for(src[n - 1], n - 1)
    }
}

/// The token sequence of a whole source text.
pub open spec fn tokens_of(src: Seq<char>) -> Seq<Token> {
    seq![Token::ProgramStart] + opcode_tokens(src, src.len() as int) + seq![Token::ProgramEnd]
}

/// Scans `program` into its tokens: the start sentinel, one token per opcode
/// character in source order, the end sentinel.
pub fn tokenize(program: &Vec<char>) -> (tokens: Vec<Token>)
    ensures
        tokens@ == tokens_of(program@),
{
    let mut tokens: Vec<Token> = Vec::new();
    tokens.push(Token::ProgramStart);
    let mut pos: usize = 0;
    while pos < program.len()
        invariant
            pos <= program.len(),
            tokens@ == seq![Token::ProgramStart] + opcode_tokens(program@, pos as int),
        decreases program.len() - pos,
    {
        let opcode = program[pos];
        match opcode {
            '[' => tokens.push(Token::LoopStart(pos)),
            ']' => tokens.push(Token::LoopEnd(pos)),
            '>' => tokens.push(Token::MoveForward(pos)),
            '<' => tokens.push(Token::MoveBack(pos)),
            '+' => tokens.push(Token::IncValue(pos)),
            '-' => tokens.push(Token::DecValue(pos)),
            '.' => tokens.push(Token::OutputValue(pos)),
            ',' => tokens.push(Token::InputValue(pos)),
            _ => (),
        }
        assert(opcode_tokens(program@, pos + 1) == opcode_tokens(program@, pos as int)
            + token_for(program@[pos as int], pos as int));
        pos = pos + 1;
    }
    tokens.push(Token::ProgramEnd);
    tokens
}

} // verus!
