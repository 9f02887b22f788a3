use vstd::prelude::*;
use crate::ast::{Node, NodeModel, Statement, StatementModel, statement_models};
use crate::tokenizer::{Token, TokenModel, token_models};

verus! {

/// Why a token sequence is not a program.
#[derive(Debug, PartialEq, Eq)]
pub enum ParseError {
    /// A token that cannot start or continue the current rule.
    UnexpectedToken(Token),
    /// `=` after something other than a bare name.
    InvalidAssignmentTarget,
    /// The tokens ran out in the middle of a rule.
    UnexpectedEndOfInput,
}

/// The mathematical value of a `ParseError`.
pub enum ParseErrorModel {
    UnexpectedToken(TokenModel),
    InvalidAssignmentTarget,
    UnexpectedEndOfInput,
}

impl View for ParseError {
    type V = ParseErrorModel;

    open spec fn view(&self) -> ParseErrorModel {
        match self {
            ParseError::UnexpectedToken(t) => ParseErrorModel::UnexpectedToken(t@),
            ParseError::InvalidAssignmentTarget => ParseErrorModel::InvalidAssignmentTarget,
            ParseError::UnexpectedEndOfInput => ParseErrorModel::UnexpectedEndOfInput,
        }
    }
}

/// The result of a rule that reads an expression from some position: the
/// expression and the position after it.
pub type NodeParse = Result<(NodeModel, int), ParseErrorModel>;

/// The error for finding position `p` where the current rule cannot go on:
/// the token there, or the end of the input.
pub open spec fn unexpected_at(t: Seq<TokenModel>, p: int) -> ParseErrorModel {
    if 0 <= p < t.len() {
        ParseErrorModel::UnexpectedToken(t[p])
    } else {
        ParseErrorModel::UnexpectedEndOfInput
    }
}

/// `factor := integer | identifier | "(" expression ")"`, read from `pos`.
pub open spec fn primary_spec(t: Seq<TokenModel>, pos: int) -> NodeParse
    decreases t.len() - pos, 0int,
{
    if pos < 0 || pos >= t.len() {
        Err(ParseErrorModel::UnexpectedEndOfInput)
    } else {
        match t[pos] {
            TokenModel::Int(n) => Ok((NodeModel::Number(n), pos + 1)),
            TokenModel::Identifier(name) => Ok((NodeModel::Variable(name), pos + 1)),
            TokenModel::Lparen => match expression_spec(t, pos + 1) {
                Ok((e, p)) => if 0 <= p < t.len() && t[p] is Rparen {
                    Ok((e, p + 1))
                } else {
                    Err(unexpected_at(t, p))
                },
                Err(err) => Err(err),
            },
            _ => Err(ParseErrorModel::UnexpectedToken(t[pos])),
        }
    }
}

/// `term := factor (("*"|"/") factor)*`, read from `pos`.
pub open spec fn mul_div_spec(t: Seq<TokenModel>, pos: int) -> NodeParse
    decreases t.len() - pos, 1int,
{
    match primary_spec(t, pos) {
        // Every factor takes at least one token; the guard says so for
        // termination and always holds.
        Ok((n, p)) => if pos < p <= t.len() {
            mul_div_rest(t, p, n)
        } else {
            Ok((n, p))
        },
        Err(err) => Err(err),
    }
}

/// The repetition of `term` after the factors so far, folded into `acc`
/// from the left; it continues at `p`.
pub open spec fn mul_div_rest(t: Seq<TokenModel>, p: int, acc: NodeModel) -> NodeParse
    decreases t.len() - p, 0int,
{
    if 0 <= p < t.len() && (t[p] is Mul || t[p] is Div) {
        match primary_spec(t, p + 1) {
            Ok((r, q)) => {
                let folded = if t[p] is Mul {
                    NodeModel::Mul(Box::new(acc), Box::new(r))
                } else {
                    NodeModel::Div(Box::new(acc), Box::new(r))
                };
                if p < q <= t.len() {
                    mul_div_rest(t, q, folded)
                } else {
                    Ok((folded, q))
                }
            },
            Err(err) => Err(err),
        }
    } else {
        Ok((acc, p))
    }
}

/// `expression := term (("+"|"-") term)*`, read from `pos`.
pub open spec fn expression_spec(t: Seq<TokenModel>, pos: int) -> NodeParse
    decreases t.len() - pos, 2int,
{
    match mul_div_spec(t, pos) {
        // Every term takes at least one token; the guard says so for
        // termination and always holds.
        Ok((n, p)) => if pos < p <= t.len() {
            add_sub_rest(t, p, n)
        } else {
            Ok((n, p))
        },
        Err(err) => Err(err),
    }
}

/// The repetition of `expression` after the terms so far, folded into
/// `acc` from the left; it continues at `p`.
pub open spec fn add_sub_rest(t: Seq<TokenModel>, p: int, acc: NodeModel) -> NodeParse
    decreases t.len() - p, 0int,
{
    if 0 <= p < t.len() && (t[p] is Add || t[p] is Sub) {
        match mul_div_spec(t, p + 1) {
            Ok((r, q)) => {
                let folded = if t[p] is Add {
                    NodeModel::Add(Box::new(acc), Box::new(r))
                } else {
                    NodeModel::Sub(Box::new(acc), Box::new(r))
                };
                if p < q <= t.len() {
                    add_sub_rest(t, q, folded)
                } else {
                    Ok((folded, q))
                }
            },
            Err(err) => Err(err),
        }
    } else {
        Ok((acc, p))
    }
}

/// `(identifier "=")? expression`, read from `pos`: an assignment where a
/// name is followed at once by `=`, else a bare expression. A `=` after
/// either is an invalid assignment target.
pub open spec fn assign_spec(t: Seq<TokenModel>, pos: int) -> Result<
    (StatementModel, int),
    ParseErrorModel,
> {
    let assigns = 0 <= pos && pos + 1 < t.len() && t[pos] is Identifier && t[pos + 1] is Assign;
    let start = if assigns {
        pos + 2
    } else {
        pos
    };
    match expression_spec(t, start) {
        Ok((e, p)) => if 0 <= p < t.len() && t[p] is Assign {
            Err(ParseErrorModel::InvalidAssignmentTarget)
        } else if assigns {
            Ok((StatementModel::Assign(t[pos]->Identifier_0, e), p))
        } else {
            Ok((StatementModel::Node(e), p))
        },
        Err(err) => Err(err),
    }
}

/// A statement read from `pos`, with the `;` that ends it unless the
/// tokens end there.
pub open spec fn statement_spec(t: Seq<TokenModel>, pos: int) -> Result<
    (StatementModel, int),
    ParseErrorModel,
> {
    match assign_spec(t, pos) {
        Ok((s, p)) => if 0 <= p < t.len() {
            if t[p] is Semicolon {
                Ok((s, p + 1))
            } else {
                Err(ParseErrorModel::UnexpectedToken(t[p]))
            }
        } else {
            Ok((s, p))
        },
        Err(err) => Err(err),
    }
}

/// The statements read from `pos` up to the end of the tokens.
pub open spec fn statements_from(t: Seq<TokenModel>, pos: int) -> Result<
    Seq<StatementModel>,
    ParseErrorModel,
>
    decreases t.len() - pos,
{
    if pos < 0 || pos >= t.len() {
        Ok(seq![])
    } else {
        match statement_spec(t, pos) {
            // Every statement takes at least one token; the guard says so
            // for termination and always holds.
            Ok((s, p)) => if pos < p <= t.len() {
                match statements_from(t, p) {
                    Ok(rest) => Ok(seq![s] + rest),
                    Err(err) => Err(err),
                }
            } else {
                Ok(seq![s])
            },
            Err(err) => Err(err),
        }
    }
}

/// `program := statement (";" statement)* ";"?`: at least one statement.
pub open spec fn program_spec(t: Seq<TokenModel>) -> Result<
    Seq<StatementModel>,
    ParseErrorModel,
> {
    if t.len() == 0 {
        Err(ParseErrorModel::UnexpectedEndOfInput)
    } else {
        statements_from(t, 0)
    }
}

/// `r`, with the cursor at `after`, is what the spec result `s` describes.
pub open spec fn node_parsed(r: Result<Node, ParseError>, after: usize, s: NodeParse) -> bool {
    match s {
        Ok((n, p)) => r matches Ok(node) && node@ == n && after == p,
        Err(e) => r matches Err(err) && err@ == e,
    }
}

/// `r`, with the cursor at `after`, is what the spec result `s` describes.
pub open spec fn statement_parsed(
    r: Result<Statement, ParseError>,
    after: usize,
    s: Result<(StatementModel, int), ParseErrorModel>,
) -> bool {
    match s {
        Ok((st, p)) => r matches Ok(stmt) && stmt@ == st && after == p,
        Err(e) => r matches Err(err) && err@ == e,
    }
}

/// The model of a parser result.
pub open spec fn parse_result_model(r: Result<Vec<Statement>, ParseError>) -> Result<
    Seq<StatementModel>,
    ParseErrorModel,
> {
    match r {
        Ok(ss) => Ok(statement_models(ss@)),
        Err(e) => Err(e@),
    }
}

fn token_copy(t: &Token) -> (r: Token)
    ensures
        r@ == t@,
{
    match t {
        Token::Add => Token::Add,
        Token::Sub => Token::Sub,
        Token::Mul => Token::Mul,
        Token::Div => Token::Div,
        Token::Lparen => Token::Lparen,
        Token::Rparen => Token::Rparen,
        Token::Int(n) => Token::Int(*n),
        Token::Semicolon => Token::Semicolon,
        Token::Assign => Token::Assign,
        Token::Identifier(name) => Token::Identifier(name.clone()),
    }
}

/// The error for finding the cursor at `p` where the current rule cannot
/// go on.
fn unexpected(tokens: &Vec<Token>, p: usize) -> (r: ParseError)
    ensures
        r@ == unexpected_at(token_models(tokens@), p as int),
{
    if p < tokens.len() {
        ParseError::UnexpectedToken(token_copy(&tokens[p]))
    } else {
        ParseError::UnexpectedEndOfInput
    }
}

/// Reads a factor at the cursor: a number, a name, or an expression in
/// parentheses.
pub fn parse_primary(tokens: &Vec<Token>, pos: &mut usize) -> (r: Result<Node, ParseError>)
    requires
        *old(pos) <= tokens.len(),
    ensures
        node_parsed(r, *final(pos), primary_spec(token_models(tokens@), *old(pos) as int)),
        r is Ok ==> *old(pos) < *final(pos) <= tokens.len(),
    decreases tokens.len() - *old(pos), 0int,
{
    let ghost t = token_models(tokens@);
    let start = *pos;
    if start >= tokens.len() {
        return Err(ParseError::UnexpectedEndOfInput);
    }
    *pos = start + 1;
    match &tokens[start] {
        Token::Int(n) => Ok(Node::Number(*n)),
        Token::Identifier(name) => Ok(Node::Variable(name.clone())),
        Token::Lparen => {
            let inner = parse_expression(tokens, pos);
            match inner {
                Ok(e) => {
                    let p = *pos;
                    if p < tokens.len() && matches!(tokens[p], Token::Rparen) {
                        *pos = p + 1;
                        Ok(e)
                    } else {
                        Err(unexpected(tokens, p))
                    }
                },
                Err(err) => Err(err),
            }
        },
        other => Err(ParseError::UnexpectedToken(token_copy(other))),
    }
}

/// Reads a term at the cursor: factors joined by `*` and `/`, grouped from
/// the left.
pub fn parse_mul_div(tokens: &Vec<Token>, pos: &mut usize) -> (r: Result<Node, ParseError>)
    requires
        *old(pos) <= tokens.len(),
    ensures
        node_parsed(r, *final(pos), mul_div_spec(token_models(tokens@), *old(pos) as int)),
        r is Ok ==> *old(pos) < *final(pos) <= tokens.len(),
    decreases tokens.len() - *old(pos), 1int,
{
    let ghost t = token_models(tokens@);
    let ghost start = *pos as int;
    let first = parse_primary(tokens, pos);
    let mut node = match first {
        Ok(n) => n,
        Err(err) => {
            return Err(err);
        },
    };
    loop
        invariant
            t == token_models(tokens@),
            start == *old(pos),
            start < *pos <= tokens.len(),
            mul_div_spec(t, start) == mul_div_rest(t, *pos as int, node@),
        decreases tokens.len() - *pos,
    {
        let p = *pos;
        if p >= tokens.len() {
            return Ok(node);
        }
        proof {
            assert(t[p as int] == tokens@[p as int]@);
        }
        let is_mul = matches!(tokens[p], Token::Mul);
        if !is_mul && !matches!(tokens[p], Token::Div) {
            return Ok(node);
        }
        *pos = p + 1;
        let rhs = match parse_primary(tokens, pos) {
            Ok(n) => n,
            Err(err) => {
                return Err(err);
            },
        };
        node = if is_mul {
            Node::Mul(Box::new(node), Box::new(rhs))
        } else {
            Node::Div(Box::new(node), Box::new(rhs))
        };
    }
}

/// Reads an expression at the cursor: terms joined by `+` and `-`, grouped
/// from the left.
pub fn parse_expression(tokens: &Vec<Token>, pos: &mut usize) -> (r: Result<Node, ParseError>)
    requires
        *old(pos) <= tokens.len(),
    ensures
        node_parsed(r, *final(pos), expression_spec(token_models(tokens@), *old(pos) as int)),
        r is Ok ==> *old(pos) < *final(pos) <= tokens.len(),
    decreases tokens.len() - *old(pos), 2int,
{
    let ghost t = token_models(tokens@);
    let ghost start = *pos as int;
    let first = parse_mul_div(tokens, pos);
    let mut node = match first {
        Ok(n) => n,
        Err(err) => {
            return Err(err);
        },
    };
    loop
        invariant
            t == token_models(tokens@),
            start == *old(pos),
            start < *pos <= tokens.len(),
            expression_spec(t, start) == add_sub_rest(t, *pos as int, node@),
        decreases tokens.len() - *pos,
    {
        let p = *pos;
        if p >= tokens.len() {
            return Ok(node);
        }
        proof {
            assert(t[p as int] == tokens@[p as int]@);
        }
        let is_add = matches!(tokens[p], Token::Add);
        if !is_add && !matches!(tokens[p], Token::Sub) {
            return Ok(node);
        }
        *pos = p + 1;
        let rhs = match parse_mul_div(tokens, pos) {
            Ok(n) => n,
            Err(err) => {
                return Err(err);
            },
        };
        node = if is_add {
            Node::Add(Box::new(node), Box::new(rhs))
        } else {
            Node::Sub(Box::new(node), Box::new(rhs))
        };
    }
}

/// Reads an assignment or a bare expression at the cursor. A name followed
/// at once by `=` is the target of an assignment; any other `=` after the
/// statement is an invalid assignment target.
pub fn parse_assign(tokens: &Vec<Token>, pos: &mut usize) -> (r: Result<Statement, ParseError>)
    requires
        *old(pos) <= tokens.len(),
    ensures
        statement_parsed(r, *final(pos), assign_spec(token_models(tokens@), *old(pos) as int)),
        r is Ok ==> *old(pos) < *final(pos) <= tokens.len(),
{
    let ghost t = token_models(tokens@);
    let start = *pos;
    let mut target: Option<String> = None;
    if tokens.len() - start >= 2 && matches!(tokens[start + 1], Token::Assign) {
        if let Token::Identifier(name) = &tokens[start] {
            target = Some(name.clone());
        }
    }
    proof {
        if tokens.len() - start >= 2 {
            assert(t[start as int] == tokens@[start as int]@);
            assert(t[start + 1] == tokens@[start + 1]@);
        }
    }
    if target.is_some() {
        *pos = start + 2;
    }
    let node = match parse_expression(tokens, pos) {
        Ok(n) => n,
        Err(err) => {
            return Err(err);
        },
    };
    let p = *pos;
    if p < tokens.len() && matches!(tokens[p], Token::Assign) {
        proof {
            assert(t[p as int] == tokens@[p as int]@);
        }
        return Err(ParseError::InvalidAssignmentTarget);
    }
    proof {
        if p < tokens.len() {
            assert(t[p as int] == tokens@[p as int]@);
        }
    }
    match target {
        Some(name) => Ok(Statement::Assign(name, node)),
        None => Ok(Statement::Node(node)),
    }
}

/// Reads a statement at the cursor, with the `;` that ends it unless the
/// tokens end there.
pub fn parse_statement(tokens: &Vec<Token>, pos: &mut usize) -> (r: Result<Statement, ParseError>)
    requires
        *old(pos) <= tokens.len(),
    ensures
        statement_parsed(r, *final(pos), statement_spec(token_models(tokens@), *old(pos) as int)),
        r is Ok ==> *old(pos) < *final(pos) <= tokens.len(),
{
    let ghost t = token_models(tokens@);
    let statement = match parse_assign(tokens, pos) {
        Ok(s) => s,
        Err(err) => {
            return Err(err);
        },
    };
    let p = *pos;
    if p < tokens.len() {
        proof {
            assert(t[p as int] == tokens@[p as int]@);
        }
        if matches!(tokens[p], Token::Semicolon) {
            *pos = p + 1;
            Ok(statement)
        } else {
            Err(ParseError::UnexpectedToken(token_copy(&tokens[p])))
        }
    } else {
        Ok(statement)
    }
}

/// Reads a whole program: one or more statements separated by `;`, with an
/// optional `;` at the end. The first error ends the reading.
pub fn parse(tokens: &Vec<Token>) -> (r: Result<Vec<Statement>, ParseError>)
    ensures
        parse_result_model(r) == program_spec(token_models(tokens@)),
{
    let ghost t = token_models(tokens@);
    if tokens.len() == 0 {
        return Err(ParseError::UnexpectedEndOfInput);
    }
    let mut statements: Vec<Statement> = Vec::new();
    let mut pos: usize = 0;
    while pos < tokens.len()
        invariant
            t == token_models(tokens@),
            pos <= tokens.len(),
            program_spec(t) == match statements_from(t, pos as int) {
                Ok(rest) => Ok(statement_models(statements@) + rest),
                Err(err) => Err(err),
            },
        decreases tokens.len() - pos,
    {
        let ghost before = pos as int;
        let statement = match parse_statement(tokens, &mut pos) {
            Ok(s) => s,
            Err(err) => {
                return Err(err);
            },
        };
        proof {
            let rest = statements_from(t, pos as int);
            if let Ok(ss) = rest {
                assert(statement_models(statements@) + (seq![statement@] + ss)
                    =~= statement_models(statements@.push(statement)) + ss);
            }
        }
        statements.push(statement);
    }
    proof {
        assert(statement_models(statements@) + seq![] =~= statement_models(statements@));
    }
    Ok(statements)
}

} // verus!
