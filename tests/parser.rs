use oyasmi::ast::{Node, Statement};
use oyasmi::parser::{
    parse, parse_assign, parse_expression, parse_mul_div, parse_primary, parse_statement,
    ParseError,
};
use oyasmi::tokenizer::Token;

fn num(n: i32) -> Box<Node> {
    Box::new(Node::Number(n))
}

#[test]
fn test_parse() {
    let tokens = vec![Token::Identifier("Test".to_owned()), Token::Add, Token::Int(2), Token::Semicolon];
    let node = parse(&tokens).unwrap();
    let expected = vec![Statement::Node(Node::Add(Node::Variable("Test".to_owned()).into(), Node::Number(2).into()))];
    assert_eq!(expected, node);
}

#[test]
fn test_parse_assign() {
    let tokens = vec![Token::Identifier("x".to_string()), Token::Assign, Token::Int(42)];
    let mut pos: usize = 0;
    let node = parse_assign(&tokens, &mut pos).unwrap();
    let expected = Statement::Assign("x".to_string(), Node::Number(42));
    assert_eq!(expected, node);
}

#[test]
fn test_parse_primary() {
    let tokens = vec![Token::Int(1)];
    let mut pos: usize = 0;
    let node = parse_primary(&tokens, &mut pos).unwrap();
    let expected = Node::Number(1);
    assert_eq!(expected, node);
}

#[test]
fn test_parse_mul_div_mul() {
    let tokens = vec![Token::Int(1), Token::Mul, Token::Int(2)];
    let mut pos: usize = 0;
    let node = parse_mul_div(&tokens, &mut pos).unwrap();
    let expected = Node::Mul(Node::Number(1).into(), Node::Number(2).into());
    assert_eq!(expected, node);
}

#[test]
fn test_parse_mul_div_div() {
    let tokens = vec![Token::Int(1), Token::Div, Token::Int(2), Token::Mul, Token::Int(4)];
    let mut pos: usize = 0;
    let node = parse_mul_div(&tokens, &mut pos).unwrap();
    let expected = Node::Mul((Node::Div(Node::Number(1).into(), Node::Number(2).into())).into(), Node::Number(4).into());
    assert_eq!(expected, node);
}

#[test]
fn test_parse_mul_div_primary() {
    let tokens = vec![Token::Int(42)];
    let mut pos: usize = 0;
    let node = parse_mul_div(&tokens, &mut pos).unwrap();
    let expected = Node::Number(42);
    assert_eq!(expected, node);
}

#[test]
fn test_parse_expression_primary() {
    let tokens = vec![Token::Int(42)];
    let mut pos: usize = 0;
    let node = parse_expression(&tokens, &mut pos).unwrap();
    let expected = Node::Number(42);
    assert_eq!(expected, node);
}

#[test]
fn test_parse_expression_add() {
    let tokens = vec![Token::Int(1), Token::Add, Token::Int(2)];
    let mut pos: usize = 0;
    let node = parse_expression(&tokens, &mut pos).unwrap();
    let expected = Node::Add(Node::Number(1).into(), Node::Number(2).into());
    assert_eq!(expected, node);
}

#[test]
fn test_parse_expression_sub() {
    let tokens = vec![Token::Int(1), Token::Sub, Token::Int(2)];
    let mut pos: usize = 0;
    let node = parse_expression(&tokens, &mut pos).unwrap();
    let expected = Node::Sub(Node::Number(1).into(), Node::Number(2).into());
    assert_eq!(expected, node);
}

#[test]
fn test_parse_expression_mul() {
    let tokens = vec![Token::Int(1), Token::Mul, Token::Int(2)];
    let mut pos: usize = 0;
    let node = parse_expression(&tokens, &mut pos).unwrap();
    let expected = Node::Mul(Node::Number(1).into(), Node::Number(2).into());
    assert_eq!(expected, node);
}

#[test]
fn parse_cursor_stops_after_expression() {
    let tokens = vec![Token::Int(1), Token::Add, Token::Int(2), Token::Semicolon, Token::Int(3)];
    let mut pos: usize = 0;
    parse_expression(&tokens, &mut pos).unwrap();
    assert_eq!(3, pos);
    let mut pos: usize = 0;
    parse_statement(&tokens, &mut pos).unwrap();
    assert_eq!(4, pos);
}

#[test]
fn parse_precedence_and_left_grouping() {
    // 10 - 2 - 3 * 4
    let tokens = vec![
        Token::Int(10),
        Token::Sub,
        Token::Int(2),
        Token::Sub,
        Token::Int(3),
        Token::Mul,
        Token::Int(4),
    ];
    let expected = vec![Statement::Node(Node::Sub(
        Box::new(Node::Sub(num(10), num(2))),
        Box::new(Node::Mul(num(3), num(4))),
    ))];
    assert_eq!(expected, parse(&tokens).unwrap());
}

#[test]
fn parse_parentheses() {
    // (2 + 3) * 4
    let tokens = vec![
        Token::Lparen,
        Token::Int(2),
        Token::Add,
        Token::Int(3),
        Token::Rparen,
        Token::Mul,
        Token::Int(4),
    ];
    let expected = vec![Statement::Node(Node::Mul(Box::new(Node::Add(num(2), num(3))), num(4)))];
    assert_eq!(expected, parse(&tokens).unwrap());
}

#[test]
fn parse_statements_with_trailing_semicolon() {
    let tokens = vec![
        Token::Identifier("x".to_string()),
        Token::Assign,
        Token::Int(5),
        Token::Semicolon,
        Token::Identifier("x".to_string()),
        Token::Semicolon,
    ];
    let expected = vec![
        Statement::Assign("x".to_string(), Node::Number(5)),
        Statement::Node(Node::Variable("x".to_string())),
    ];
    assert_eq!(expected, parse(&tokens).unwrap());
}

#[test]
fn parse_name_without_assign_is_variable() {
    let tokens = vec![Token::Identifier("y".to_string())];
    let mut pos: usize = 0;
    let st = parse_assign(&tokens, &mut pos).unwrap();
    assert_eq!(Statement::Node(Node::Variable("y".to_string())), st);
    assert_eq!(1, pos);
}

#[test]
fn parse_empty_is_end_of_input() {
    assert_eq!(Err(ParseError::UnexpectedEndOfInput), parse(&vec![]));
}

#[test]
fn parse_missing_operand_is_end_of_input() {
    let tokens = vec![Token::Int(1), Token::Add];
    assert_eq!(Err(ParseError::UnexpectedEndOfInput), parse(&tokens));
}

#[test]
fn parse_unclosed_parenthesis() {
    let tokens = vec![Token::Lparen, Token::Int(1)];
    assert_eq!(Err(ParseError::UnexpectedEndOfInput), parse(&tokens));
    let tokens = vec![Token::Lparen, Token::Int(1), Token::Int(2)];
    assert_eq!(Err(ParseError::UnexpectedToken(Token::Int(2))), parse(&tokens));
}

#[test]
fn parse_unexpected_token() {
    let tokens = vec![Token::Rparen];
    assert_eq!(Err(ParseError::UnexpectedToken(Token::Rparen)), parse(&tokens));
    let tokens = vec![Token::Int(1), Token::Int(2)];
    assert_eq!(Err(ParseError::UnexpectedToken(Token::Int(2))), parse(&tokens));
    let tokens = vec![Token::Int(1), Token::Semicolon, Token::Semicolon];
    assert_eq!(Err(ParseError::UnexpectedToken(Token::Semicolon)), parse(&tokens));
}

#[test]
fn parse_invalid_assignment_target() {
    let tokens = vec![Token::Int(1), Token::Assign, Token::Int(2)];
    assert_eq!(Err(ParseError::InvalidAssignmentTarget), parse(&tokens));
    let tokens = vec![
        Token::Lparen,
        Token::Identifier("x".to_string()),
        Token::Rparen,
        Token::Assign,
        Token::Int(2),
    ];
    assert_eq!(Err(ParseError::InvalidAssignmentTarget), parse(&tokens));
    let tokens = vec![
        Token::Identifier("x".to_string()),
        Token::Assign,
        Token::Int(1),
        Token::Assign,
        Token::Int(2),
    ];
    assert_eq!(Err(ParseError::InvalidAssignmentTarget), parse(&tokens));
}
