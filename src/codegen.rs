use vstd::prelude::*;
use vstd::string::StringExecFns;
use crate::ast::{Node, NodeModel, Statement, StatementModel, statement_models};
use crate::tokenizer::push_char;

verus! {

/// One instruction of the stack machine that the generated text programs.
pub enum Instr {
    /// Pushes a constant.
    Const(i32),
    /// Pops two values and pushes their wrapping sum.
    Add,
    /// Pops two values and pushes their wrapping difference.
    Sub,
    /// Pops two values and pushes their wrapping product.
    Mul,
    /// Pops two values and pushes their quotient, truncated toward zero.
    DivS,
    /// Pushes the value of a local.
    LocalGet(Seq<char>),
    /// Pops a value into a local.
    LocalSet(Seq<char>),
    /// Pops a value and discards it.
    Drop,
}

/// The character of a decimal digit.
pub open spec fn digit_char_of(d: nat) -> char {
    if d == 0 {
        '0'
    } else if d == 1 {
        '1'
    } else if d == 2 {
        '2'
    } else if d == 3 {
        '3'
    } else if d == 4 {
        '4'
    } else if d == 5 {
        '5'
    } else if d == 6 {
        '6'
    } else if d == 7 {
        '7'
    } else if d == 8 {
        '8'
    } else {
        '9'
    }
}

/// The decimal digits of `m`, most significant first, without leading
/// zeros (`0` is one digit).
pub open spec fn digits_of(m: nat) -> Seq<char>
    decreases m,
{
    if m < 10 {
        seq![digit_char_of(m)]
    } else {
        digits_of(m / 10).push(digit_char_of(m % 10))
    }
}

/// The decimal text of `n`, with a leading `-` where it is negative.
pub open spec fn decimal(n: int) -> Seq<char> {
    if n < 0 {
        seq!['-'] + digits_of((-n) as nat)
    } else {
        digits_of(n as nat)
    }
}

/// The post-order instructions that compute an expression.
pub open spec fn node_code(n: NodeModel) -> Seq<Instr>
    decreases n,
{
    match n {
        NodeModel::Number(v) => seq![Instr::Const(v)],
        NodeModel::Variable(x) => seq![Instr::LocalGet(x)],
        NodeModel::Add(l, r) => node_code(*l) + node_code(*r) + seq![Instr::Add],
        NodeModel::Sub(l, r) => node_code(*l) + node_code(*r) + seq![Instr::Sub],
        NodeModel::Mul(l, r) => node_code(*l) + node_code(*r) + seq![Instr::Mul],
        NodeModel::Div(l, r) => node_code(*l) + node_code(*r) + seq![Instr::DivS],
    }
}

/// The instructions of one statement. A bare expression that is not last
/// drops its value. An assignment stores its value; where it is last it
/// loads the value again, so that the program returns the assigned value.
pub open spec fn statement_code(s: StatementModel, last: bool) -> Seq<Instr> {
    match s {
        StatementModel::Node(n) => if last {
            node_code(n)
        } else {
            node_code(n).push(Instr::Drop)
        },
        StatementModel::Assign(x, n) => if last {
            node_code(n).push(Instr::LocalSet(x)).push(Instr::LocalGet(x))
        } else {
            node_code(n).push(Instr::LocalSet(x))
        },
    }
}

/// The instructions of the first `k` statements of `ss`.
pub open spec fn code_upto(ss: Seq<StatementModel>, k: int) -> Seq<Instr>
    decreases k,
{
    if k <= 0 {
        seq![]
    } else {
        code_upto(ss, k - 1) + statement_code(ss[k - 1], k == ss.len())
    }
}

/// The instructions of a whole program.
pub open spec fn program_code(ss: Seq<StatementModel>) -> Seq<Instr> {
    code_upto(ss, ss.len() as int)
}

/// The names that the first `k` statements assign, each once, in the order
/// in which they are first assigned.
pub open spec fn names_upto(ss: Seq<StatementModel>, k: int) -> Seq<Seq<char>>
    decreases k,
{
    if k <= 0 {
        seq![]
    } else {
        let prev = names_upto(ss, k - 1);
        match ss[k - 1] {
            StatementModel::Assign(x, _) => if prev.contains(x) {
                prev
            } else {
                prev.push(x)
            },
            StatementModel::Node(_) => prev,
        }
    }
}

/// The names that a program assigns, each once, in order of first
/// assignment.
pub open spec fn assigned_names(ss: Seq<StatementModel>) -> Seq<Seq<char>> {
    names_upto(ss, ss.len() as int)
}

/// The text of one instruction, on a line of its own.
pub open spec fn instr_text(i: Instr) -> Seq<char> {
    match i {
        Instr::Const(n) => "    i32.const "@ + decimal(n as int) + "\n"@,
        Instr::Add => "    i32.add\n"@,
        Instr::Sub => "    i32.sub\n"@,
        Instr::Mul => "    i32.mul\n"@,
        Instr::DivS => "    i32.div_s\n"@,
        Instr::LocalGet(x) => "    local.get $"@ + x + "\n"@,
        Instr::LocalSet(x) => "    local.set $"@ + x + "\n"@,
        Instr::Drop => "    drop\n"@,
    }
}

/// The text of a sequence of instructions.
pub open spec fn code_text(is: Seq<Instr>) -> Seq<char>
    decreases is.len(),
{
    if is.len() == 0 {
        seq![]
    } else {
        code_text(is.drop_last()) + instr_text(is.last())
    }
}

/// The declaration of one local.
pub open spec fn local_text(x: Seq<char>) -> Seq<char> {
    "    (local $"@ + x + " i32)\n"@
}

/// The declarations of the first `k` locals of `names`.
pub open spec fn locals_upto(names: Seq<Seq<char>>, k: int) -> Seq<char>
    decreases k,
{
    if k <= 0 {
        seq![]
    } else {
        locals_upto(names, k - 1) + local_text(names[k - 1])
    }
}

/// The text before the locals: a module that exports one function, which
/// returns one integer.
pub open spec fn header_text() -> Seq<char> {
    "(module\n"@ + "  (export \"_start\" (func $main))\n"@ + "  (func $main\n"@
        + "    (result i32)\n"@
}

/// The text after the instructions.
pub open spec fn footer_text() -> Seq<char> {
    "  )\n"@ + ")\n"@
}

/// The text of a whole program: the header, a local for each assigned
/// name, the instructions, and the footer.
pub open spec fn program_text(ss: Seq<StatementModel>) -> Seq<char> {
    header_text() + locals_upto(assigned_names(ss), assigned_names(ss).len() as int) + code_text(
        program_code(ss),
    ) + footer_text()
}

pub proof fn lemma_code_text_concat(a: Seq<Instr>, b: Seq<Instr>)
    ensures
        code_text(a + b) == code_text(a) + code_text(b),
    decreases b.len(),
{
    if b.len() == 0 {
        assert(a + b =~= a);
        assert(code_text(b) =~= seq![]);
        assert(code_text(a) + code_text(b) =~= code_text(a));
    } else {
        assert((a + b).drop_last() =~= a + b.drop_last());
        lemma_code_text_concat(a, b.drop_last());
        assert(code_text(a + b) =~= code_text(a) + code_text(b));
    }
}

proof fn lemma_code_text_push(a: Seq<Instr>, i: Instr)
    ensures
        code_text(a.push(i)) == code_text(a) + instr_text(i),
{
    assert(a.push(i).drop_last() =~= a);
}

fn digit_to_char(d: u32) -> (c: char)
    requires
        d < 10,
    ensures
        c == digit_char_of(d as nat),
{
    if d == 0 {
        '0'
    } else if d == 1 {
        '1'
    } else if d == 2 {
        '2'
    } else if d == 3 {
        '3'
    } else if d == 4 {
        '4'
    } else if d == 5 {
        '5'
    } else if d == 6 {
        '6'
    } else if d == 7 {
        '7'
    } else if d == 8 {
        '8'
    } else {
        '9'
    }
}

fn push_digits(out: &mut String, m: u32)
    ensures
        final(out)@ == old(out)@ + digits_of(m as nat),
    decreases m,
{
    if m >= 10 {
        push_digits(out, m / 10);
    }
    push_char(out, digit_to_char(m % 10));
    proof {
        if m >= 10 {
            assert(final(out)@ =~= old(out)@ + digits_of(m as nat));
        } else {
            assert(final(out)@ =~= old(out)@ + digits_of(m as nat));
        }
    }
}

/// Appends the decimal text of `n`.
fn push_decimal(out: &mut String, n: i32)
    ensures
        final(out)@ == old(out)@ + decimal(n as int),
{
    if n < 0 {
        push_char(out, '-');
        let m: u32 = (-(n as i64)) as u32;
        push_digits(out, m);
        proof {
            assert(final(out)@ =~= old(out)@ + decimal(n as int));
        }
    } else {
        push_digits(out, n as u32);
    }
}

/// Appends the instructions that compute `ast`: both operands of a binary
/// node before its operator.
fn codegen_node(ast: &Node, output: &mut String)
    ensures
        final(output)@ == old(output)@ + code_text(node_code(ast@)),
    decreases ast,
{
    match ast {
        Node::Variable(name) => {
            output.append("    local.get $");
            output.append(name.as_str());
            output.append("\n");
            proof {
                let i = Instr::LocalGet(name@);
                lemma_code_text_push(seq![], i);
                assert(seq![].push(i) =~= node_code(ast@));
                assert(final(output)@ =~= old(output)@ + code_text(node_code(ast@)));
            }
        },
        Node::Number(n) => {
            output.append("    i32.const ");
            push_decimal(output, *n);
            output.append("\n");
            proof {
                let i = Instr::Const(*n);
                lemma_code_text_push(seq![], i);
                assert(seq![].push(i) =~= node_code(ast@));
                assert(final(output)@ =~= old(output)@ + code_text(node_code(ast@)));
            }
        },
        Node::Add(lhs, rhs) => {
            codegen_node(lhs, output);
            codegen_node(rhs, output);
            output.append("    i32.add\n");
            proof {
                lemma_binary_text(lhs@, rhs@, Instr::Add);
                assert(final(output)@ =~= old(output)@ + code_text(node_code(ast@)));
            }
        },
        Node::Sub(lhs, rhs) => {
            codegen_node(lhs, output);
            codegen_node(rhs, output);
            output.append("    i32.sub\n");
            proof {
                lemma_binary_text(lhs@, rhs@, Instr::Sub);
                assert(final(output)@ =~= old(output)@ + code_text(node_code(ast@)));
            }
        },
        Node::Mul(lhs, rhs) => {
            codegen_node(lhs, output);
            codegen_node(rhs, output);
            output.append("    i32.mul\n");
            proof {
                lemma_binary_text(lhs@, rhs@, Instr::Mul);
                assert(final(output)@ =~= old(output)@ + code_text(node_code(ast@)));
            }
        },
        Node::Div(lhs, rhs) => {
            codegen_node(lhs, output);
            codegen_node(rhs, output);
            output.append("    i32.div_s\n");
            proof {
                lemma_binary_text(lhs@, rhs@, Instr::DivS);
                assert(final(output)@ =~= old(output)@ + code_text(node_code(ast@)));
            }
        },
    }
}

proof fn lemma_binary_text(l: NodeModel, r: NodeModel, op: Instr)
    ensures
        code_text(node_code(l) + node_code(r) + seq![op]) == code_text(node_code(l)) + code_text(
            node_code(r),
        ) + instr_text(op),
{
    lemma_code_text_concat(node_code(l), node_code(r));
    assert(node_code(l) + node_code(r) + seq![op] =~= (node_code(l) + node_code(r)).push(op));
    lemma_code_text_push(node_code(l) + node_code(r), op);
}

/// Appends the instructions of an assignment of `node` to `name`; where
/// the assignment is `last`, the assigned value is loaded again.
fn codegen_assign(name: &String, node: &Node, last: bool, output: &mut String)
    ensures
        final(output)@ == old(output)@ + code_text(
            statement_code(StatementModel::Assign(name@, node@), last),
        ),
{
    let ghost start = output@;
    codegen_node(node, output);
    output.append("    local.set $");
    output.append(name.as_str());
    output.append("\n");
    proof {
        let set = Instr::LocalSet(name@);
        lemma_code_text_push(node_code(node@), set);
        assert(output@ =~= start + code_text(node_code(node@).push(set)));
    }
    if last {
        output.append("    local.get $");
        output.append(name.as_str());
        output.append("\n");
        proof {
            let get = Instr::LocalGet(name@);
            lemma_code_text_push(node_code(node@).push(Instr::LocalSet(name@)), get);
            assert(output@ =~= start + code_text(
                node_code(node@).push(Instr::LocalSet(name@)).push(get),
            ));
        }
    }
}

/// Appends the instructions of one statement; a bare expression that is
/// not `last` drops its value.
fn codegen_statement(stmt: &Statement, last: bool, output: &mut String)
    ensures
        final(output)@ == old(output)@ + code_text(statement_code(stmt@, last)),
{
    match stmt {
        Statement::Node(node) => {
            let ghost start = output@;
            codegen_node(node, output);
            if !last {
                output.append("    drop\n");
                proof {
                    lemma_code_text_push(node_code(node@), Instr::Drop);
                    assert(output@ =~= start + code_text(node_code(node@).push(Instr::Drop)));
                }
            }
        },
        Statement::Assign(name, node) => {
            codegen_assign(name, node, last, output);
        },
    }
}

/// The models of a sequence of names.
pub open spec fn name_models(v: Seq<String>) -> Seq<Seq<char>> {
    v.map_values(|s: String| s@)
}

/// The names that `statements` assign, each once, in order of first
/// assignment.
fn collect_names(statements: &Vec<Statement>) -> (names: Vec<String>)
    ensures
        name_models(names@) == assigned_names(statement_models(statements@)),
{
    let ghost ss = statement_models(statements@);
    let mut names: Vec<String> = Vec::new();
    let mut k: usize = 0;
    while k < statements.len()
        invariant
            k <= statements.len(),
            ss == statement_models(statements@),
            name_models(names@) == names_upto(ss, k as int),
        decreases statements.len() - k,
    {
        if let Statement::Assign(name, _) = &statements[k] {
            let mut found = false;
            let mut j: usize = 0;
            while j < names.len()
                invariant
                    j <= names.len(),
                    found == exists|i: int| 0 <= i < j && names@[i]@ == name@,
                decreases names.len() - j,
            {
                if names[j] == *name {
                    found = true;
                }
                j = j + 1;
            }
            proof {
                let models = name_models(names@);
                assert(found == models.contains(name@)) by {
                    if found {
                        let i = choose|i: int| 0 <= i < names.len() && names@[i]@ == name@;
                        assert(models[i] == name@);
                    }
                    if models.contains(name@) {
                        let i = choose|i: int| 0 <= i < models.len() && models[i] == name@;
                        assert(names@[i]@ == name@);
                    }
                }
            }
            if !found {
                let copy = name.clone();
                proof {
                    assert(name_models(names@.push(copy)) =~= name_models(names@).push(name@));
                }
                names.push(copy);
            }
        }
        k = k + 1;
    }
    names
}

/// The text of the program that computes `statements` in order and returns
/// the value of the last one.
pub fn codegen(statements: Vec<Statement>) -> (r: String)
    ensures
        r@ == program_text(statement_models(statements@)),
{
    let ghost ss = statement_models(statements@);
    let names = collect_names(&statements);
    let ghost nm = name_models(names@);
    let mut output = String::new();
    output.append("(module\n");
    output.append("  (export \"_start\" (func $main))\n");
    output.append("  (func $main\n");
    output.append("    (result i32)\n");
    proof {
        assert(output@ =~= header_text());
    }
    let mut j: usize = 0;
    while j < names.len()
        invariant
            j <= names.len(),
            nm == name_models(names@),
            output@ == header_text() + locals_upto(nm, j as int),
        decreases names.len() - j,
    {
        output.append("    (local $");
        output.append(names[j].as_str());
        output.append(" i32)\n");
        proof {
            assert(output@ =~= header_text() + locals_upto(nm, j + 1));
        }
        j = j + 1;
    }
    let ghost locals = output@;
    let n = statements.len();
    let mut k: usize = 0;
    while k < n
        invariant
            k <= n,
            n == statements.len(),
            ss == statement_models(statements@),
            output@ == locals + code_text(code_upto(ss, k as int)),
        decreases n - k,
    {
        codegen_statement(&statements[k], k + 1 == n, &mut output);
        proof {
            lemma_code_text_concat(code_upto(ss, k as int), statement_code(ss[k as int], k + 1 == n));
            assert(output@ =~= locals + code_text(code_upto(ss, k + 1)));
        }
        k = k + 1;
    }
    output.append("  )\n");
    output.append(")\n");
    proof {
        assert(output@ =~= program_text(ss));
    }
    output
}

} // verus!
