use vstd::prelude::*;
use crate::codegen::{codegen, program_text};
use crate::parser::{ParseError, ParseErrorModel, parse, program_spec};
use crate::tokenizer::{LexError, lex, tokenize};

verus! {

/// Why a text could not be compiled: the stage that refused it, and why.
#[derive(Debug, PartialEq, Eq)]
pub enum CompileError {
    Lex(LexError),
    Parse(ParseError),
}

/// The mathematical value of a `CompileError`.
pub enum CompileErrorModel {
    Lex(LexError),
    Parse(ParseErrorModel),
}

impl View for CompileError {
    type V = CompileErrorModel;

    open spec fn view(&self) -> CompileErrorModel {
        match self {
            CompileError::Lex(e) => CompileErrorModel::Lex(*e),
            CompileError::Parse(e) => CompileErrorModel::Parse(e@),
        }
    }
}

/// The program text that `s` compiles to, or the first error met on the
/// way: the tokens of `s`, the statements they form, then their text.
pub open spec fn compile_spec(s: Seq<char>) -> Result<Seq<char>, CompileErrorModel> {
    match lex(s) {
        Err(e) => Err(CompileErrorModel::Lex(e)),
        Ok(ts) => match program_spec(ts) {
            Err(e) => Err(CompileErrorModel::Parse(e)),
            Ok(ss) => Ok(program_text(ss)),
        },
    }
}

/// The model of a compiler result.
pub open spec fn compile_result_model(r: Result<String, CompileError>) -> Result<
    Seq<char>,
    CompileErrorModel,
> {
    match r {
        Ok(text) => Ok(text@),
        Err(e) => Err(e@),
    }
}

/// Compiles a text of statements to the text of a stack-machine program
/// that returns the value of the last statement.
pub fn compile(input: String) -> (r: Result<String, CompileError>)
    ensures
        compile_result_model(r) == compile_spec(input@),
{
    let tokens = match tokenize(input.as_str()) {
        Ok(ts) => ts,
        Err(e) => {
            return Err(CompileError::Lex(e));
        },
    };
    let statements = match parse(&tokens) {
        Ok(ss) => ss,
        Err(e) => {
            return Err(CompileError::Parse(e));
        },
    };
    Ok(codegen(statements))
}

} // verus!
