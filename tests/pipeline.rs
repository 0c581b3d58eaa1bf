use brainfuck::{optimize, parse, tokenize, Expression, InvalidProgramError, Token};

fn parse_source(program: &str) -> Result<Vec<Expression>, InvalidProgramError> {
    let tokens = tokenize(&program.chars().collect());
    parse(&tokens)
}

#[test]
fn test_tokenizer_emits_expected_tokens() {
    let program = "+[,.]";
    let result = tokenize(&program.chars().collect());
    let expected = vec![
        Token::ProgramStart,
        Token::IncValue(0),
        Token::LoopStart(1),
        Token::InputValue(2),
        Token::OutputValue(3),
        Token::LoopEnd(4),
        Token::ProgramEnd,
    ];

    assert_eq!(result, expected);
}

#[test]
fn test_parse_wellformed_program() {
    let program = "+-+[>,.<]";
    let tokens = tokenize(&program.chars().collect());
    let result = parse(&tokens).unwrap();
    let expected = vec![
        Expression::IncValue(1),
        Expression::DecValue(1),
        Expression::IncValue(1),
        Expression::Loop(vec![
            Expression::MoveForward(1),
            Expression::InputValue,
            Expression::OutputValue,
            Expression::MoveBack(1),
        ]),
    ];

    assert_eq!(result, expected);
}

// The error names the innermost loop left open: the bracket at position 1.
#[test]
fn test_parse_fails_with_extra_opening_bracket() -> Result<(), String> {
    let program = "+[[,.]";
    let tokens = tokenize(&program.chars().collect());
    match parse(&tokens) {
        Err(InvalidProgramError::ExcessiveOpeningBrackets(1)) => Ok(()),
        _ => Err(String::from("Extra opening bracket error not triggered")),
    }
}

#[test]
fn test_parse_fails_with_extra_closing_bracket() -> Result<(), String> {
    let program = "+[,.]]";
    let tokens = tokenize(&program.chars().collect());
    match parse(&tokens) {
        Err(InvalidProgramError::UnexpectedClosingBracket(5)) => Ok(()),
        _ => Err(String::from("Extra opening bracket error not triggered")),
    }
}

#[test]
fn test_optimizer() {
    let program = "+++>[+++>[+++--]<-]";
    let tokens = tokenize(&program.chars().collect());

    let expressions = parse(&tokens).unwrap();
    let expected = vec![
        Expression::IncValue(1),
        Expression::IncValue(1),
        Expression::IncValue(1),
        Expression::MoveForward(1),
        Expression::Loop(vec![
            Expression::IncValue(1),
            Expression::IncValue(1),
            Expression::IncValue(1),
            Expression::MoveForward(1),
            Expression::Loop(vec![
                Expression::IncValue(1),
                Expression::IncValue(1),
                Expression::IncValue(1),
                Expression::DecValue(1),
                Expression::DecValue(1),
            ]),
            Expression::MoveBack(1),
            Expression::DecValue(1),
        ]),
    ];
    assert_eq!(expressions, expected);

    let optimized = optimize(&expressions);
    let expected = vec![
        Expression::IncValue(3),
        Expression::MoveForward(1),
        Expression::Loop(vec![
            Expression::IncValue(3),
            Expression::MoveForward(1),
            Expression::Loop(vec![
                Expression::IncValue(3),
                Expression::DecValue(2),
            ]),
            Expression::MoveBack(1),
            Expression::DecValue(1),
        ]),
    ];

    assert_eq!(optimized, expected);
}

#[test]
fn tokenizer_skips_comment_characters() {
    let result = tokenize(&"a+ b\n]".chars().collect());
    assert_eq!(
        result,
        vec![Token::ProgramStart, Token::IncValue(1), Token::LoopEnd(5), Token::ProgramEnd]
    );
}

#[test]
fn tokenizer_on_empty_source_emits_only_sentinels() {
    let result = tokenize(&Vec::new());
    assert_eq!(result, vec![Token::ProgramStart, Token::ProgramEnd]);
}

#[test]
fn parse_empty_program_gives_empty_tree() {
    assert_eq!(parse_source("").unwrap(), Vec::<Expression>::new());
}

#[test]
fn parse_reports_first_unmatched_close() {
    assert_eq!(parse_source("]]"), Err(InvalidProgramError::UnexpectedClosingBracket(0)));
    assert_eq!(parse_source("[]x]["), Err(InvalidProgramError::UnexpectedClosingBracket(3)));
}

#[test]
fn parse_reports_innermost_unclosed_open() {
    assert_eq!(parse_source("[[]"), Err(InvalidProgramError::ExcessiveOpeningBrackets(0)));
    assert_eq!(parse_source("[[][[]"), Err(InvalidProgramError::ExcessiveOpeningBrackets(3)));
    assert_eq!(parse_source("-=[[[[]]]"), Err(InvalidProgramError::ExcessiveOpeningBrackets(2)));
}

#[test]
fn parse_stops_at_end_sentinel_and_skips_start_sentinels() {
    let tokens = vec![
        Token::ProgramStart,
        Token::IncValue(0),
        Token::ProgramStart,
        Token::OutputValue(1),
        Token::ProgramEnd,
        Token::LoopEnd(2),
    ];
    assert_eq!(parse(&tokens).unwrap(), vec![Expression::IncValue(1), Expression::OutputValue]);
}

#[test]
fn parse_without_end_sentinel_treats_input_end_as_program_end() {
    let tokens = vec![Token::LoopStart(4), Token::IncValue(5)];
    assert_eq!(parse(&tokens), Err(InvalidProgramError::ExcessiveOpeningBrackets(4)));
}

fn count_ops(expressions: &[Expression]) -> u64 {
    let mut n = 0u64;
    for e in expressions {
        n += match e {
            Expression::IncValue(c)
            | Expression::DecValue(c)
            | Expression::MoveForward(c)
            | Expression::MoveBack(c) => *c as u64,
            Expression::InputValue | Expression::OutputValue => 1,
            Expression::Loop(body) => count_ops(body),
        };
    }
    n
}

#[test]
fn parse_keeps_every_primitive_operation() {
    let program = "ab+[->>+<<]c.,--[ [.]]";
    let tree = parse_source(program).unwrap();
    let expected = program.chars().filter(|c| "+-<>.,".contains(*c)).count() as u64;
    assert_eq!(count_ops(&tree), expected);
    assert_eq!(count_ops(&optimize(&tree)), expected);
}

#[test]
fn optimize_is_idempotent() {
    let tree = parse_source("+++>>--<<[->+<]..,,[[>>]]").unwrap();
    let once = optimize(&tree);
    let twice = optimize(&once);
    assert_eq!(once, twice);
    assert_eq!(
        once,
        vec![
            Expression::IncValue(3),
            Expression::MoveForward(2),
            Expression::DecValue(2),
            Expression::MoveBack(2),
            Expression::Loop(vec![
                Expression::DecValue(1),
                Expression::MoveForward(1),
                Expression::IncValue(1),
                Expression::MoveBack(1),
            ]),
            Expression::OutputValue,
            Expression::OutputValue,
            Expression::InputValue,
            Expression::InputValue,
            Expression::Loop(vec![Expression::Loop(vec![Expression::MoveForward(2)])]),
        ]
    );
}

#[test]
fn optimize_splits_runs_that_overflow_a_count() {
    let tree = vec![
        Expression::IncValue(u32::MAX),
        Expression::IncValue(1),
        Expression::IncValue(1),
        Expression::MoveForward(0x1fff_ffff),
        Expression::MoveForward(1),
    ];
    let once = optimize(&tree);
    assert_eq!(
        once,
        vec![
            Expression::IncValue(u32::MAX),
            Expression::IncValue(2),
            Expression::MoveForward(0x1fff_ffff),
            Expression::MoveForward(1),
        ]
    );
    assert_eq!(optimize(&once), once);
}
