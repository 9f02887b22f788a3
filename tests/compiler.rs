use oyasmi::ast::{Node, Statement};
use oyasmi::codegen::codegen;
use oyasmi::compiler::{compile, CompileError};
use oyasmi::parser::ParseError;
use oyasmi::tokenizer::LexError;
use std::collections::HashMap;

/// Runs the instructions of a generated program and returns the one value
/// left on the stack, or `None` where the program traps or is malformed.
fn run_text(text: &str) -> Option<i32> {
    let mut stack: Vec<i32> = Vec::new();
    let mut locals: HashMap<String, i32> = HashMap::new();
    for line in text.lines() {
        let line = line.trim();
        if let Some(rest) = line.strip_prefix("(local $") {
            let name = rest.strip_suffix(" i32)")?;
            locals.insert(name.to_string(), 0);
            continue;
        }
        if line.starts_with('(') || line.starts_with(')') || line.is_empty() {
            continue;
        }
        let mut parts = line.split(' ');
        let op = parts.next()?;
        let arg = parts.next();
        match op {
            "i32.const" => stack.push(arg?.parse().ok()?),
            "local.get" => {
                let name = arg?.strip_prefix('$')?;
                stack.push(*locals.get(name)?);
            }
            "local.set" => {
                let name = arg?.strip_prefix('$')?;
                let v = stack.pop()?;
                *locals.get_mut(name)? = v;
            }
            "drop" => {
                stack.pop()?;
            }
            _ => {
                let y = stack.pop()?;
                let x = stack.pop()?;
                let v = match op {
                    "i32.add" => x.wrapping_add(y),
                    "i32.sub" => x.wrapping_sub(y),
                    "i32.mul" => x.wrapping_mul(y),
                    "i32.div_s" => x.checked_div(y)?,
                    _ => return None,
                };
                stack.push(v);
            }
        }
    }
    if stack.len() == 1 {
        stack.pop()
    } else {
        None
    }
}

fn evaluates_to(source: &str) -> Option<i32> {
    run_text(&compile(source.to_string()).unwrap())
}

#[test]
fn compile_binary_operations() {
    assert_eq!(Some(579), evaluates_to("123+456"));
    assert_eq!(Some(-333), evaluates_to("123-456"));
    assert_eq!(Some(56088), evaluates_to("123*456"));
    assert_eq!(Some(3), evaluates_to("456/123"));
    assert_eq!(Some(0), evaluates_to("123/456"));
    assert_eq!(Some(i32::MIN), evaluates_to("2147483647+1"));
    assert_eq!(None, evaluates_to("1/0"));
}

#[test]
fn compile_precedence() {
    assert_eq!(Some(14), evaluates_to("2+3*4"));
}

#[test]
fn compile_left_associativity() {
    assert_eq!(Some(5), evaluates_to("10-2-3"));
    assert_eq!(Some(2), evaluates_to("24/4/3"));
}

#[test]
fn compile_parentheses() {
    assert_eq!(Some(20), evaluates_to("(2+3)*4"));
}

#[test]
fn compile_sequencing_drops_all_but_last() {
    let text = compile("1+1;2+2;3+3".to_string()).unwrap();
    assert_eq!(Some(6), run_text(&text));
    assert_eq!(2, text.lines().filter(|l| l.trim() == "drop").count());
}

#[test]
fn compile_assignment_and_reference() {
    let text = compile("x=5;x+1".to_string()).unwrap();
    assert_eq!(Some(6), run_text(&text));
    assert_eq!(1, text.lines().filter(|l| l.trim() == "(local $x i32)").count());
}

#[test]
fn compile_assignment_text() {
    let text = compile("x=5;x+1".to_string()).unwrap();
    let expected = "(module\n  (export \"_start\" (func $main))\n  (func $main\n    (result i32)\n    (local $x i32)\n    i32.const 5\n    local.set $x\n    local.get $x\n    i32.const 1\n    i32.add\n  )\n)\n";
    assert_eq!(expected, text);
}

#[test]
fn compile_locals_once_in_first_assignment_order() {
    let text = compile("b=1;a=2;b=a+b;a*b".to_string()).unwrap();
    let locals: Vec<&str> = text.lines().filter(|l| l.trim().starts_with("(local")).collect();
    assert_eq!(vec!["    (local $b i32)", "    (local $a i32)"], locals);
    assert_eq!(Some(6), run_text(&text));
}

#[test]
fn compile_last_assignment_returns_value() {
    let text = compile("x=3".to_string()).unwrap();
    assert!(text.ends_with("    local.set $x\n    local.get $x\n  )\n)\n"));
    assert_eq!(Some(3), run_text(&text));
}

#[test]
fn compile_non_ascii_names() {
    let text = compile("größe=6;größe*7".to_string()).unwrap();
    assert_eq!(1, text.lines().filter(|l| l.trim() == "(local $größe i32)").count());
    assert_eq!(Some(42), run_text(&text));
}

#[test]
fn compile_end_of_input_error() {
    assert_eq!(
        Err(CompileError::Parse(ParseError::UnexpectedEndOfInput)),
        compile("1+".to_string())
    );
}

#[test]
fn compile_unknown_character_error() {
    assert_eq!(
        Err(CompileError::Lex(LexError::UnknownCharacter('$', 2))),
        compile("1 $ 2".to_string())
    );
}

#[test]
fn compile_literal_out_of_range_error() {
    assert_eq!(
        Err(CompileError::Lex(LexError::IntegerOutOfRange(0))),
        compile("2147483648".to_string())
    );
}

#[test]
fn compile_empty_program_is_an_error() {
    assert_eq!(
        Err(CompileError::Parse(ParseError::UnexpectedEndOfInput)),
        compile(" ".to_string())
    );
}

#[test]
fn codegen_writes_large_and_negative_constants() {
    let text = codegen(vec![Statement::Node(Node::Sub(
        Box::new(Node::Number(-2147483648)),
        Box::new(Node::Number(1234567890)),
    ))]);
    assert!(text.contains("    i32.const -2147483648\n    i32.const 1234567890\n    i32.sub\n"));
}

#[test]
fn codegen_drops_only_bare_expressions() {
    let text = codegen(vec![
        Statement::Node(Node::Number(1)),
        Statement::Assign("y".to_string(), Node::Number(2)),
        Statement::Node(Node::Variable("y".to_string())),
    ]);
    let body: Vec<&str> = text.lines().skip(5).collect();
    assert_eq!(
        vec![
            "    i32.const 1",
            "    drop",
            "    i32.const 2",
            "    local.set $y",
            "    local.get $y",
            "  )",
            ")"
        ],
        body
    );
}
