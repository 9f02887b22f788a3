use vstd::prelude::*;
use crate::ast::StatementModel;
use crate::codegen::{Instr, assigned_names, program_code};

verus! {

/// `v` taken modulo 2^32 into the range of `i32`.
pub open spec fn wrap_i32(v: int) -> int {
    let m = v % 4294967296;
    if m >= 2147483648 {
        m - 4294967296
    } else {
        m
    }
}

pub open spec fn abs(v: int) -> nat {
    if v < 0 {
        (-v) as nat
    } else {
        v as nat
    }
}

/// `x / y` rounded toward zero.
pub open spec fn trunc_div(x: int, y: int) -> int {
    let q = (abs(x) / abs(y)) as int;
    if (x < 0) == (y < 0) {
        q
    } else {
        -q
    }
}

/// The value that a binary instruction computes from `x` and `y`, or
/// `None` where the machine traps (division by zero, or an overflowing
/// division).
pub open spec fn binary_result(op: Instr, x: i32, y: i32) -> Option<i32> {
    match op {
        Instr::Add => Some(wrap_i32(x + y) as i32),
        Instr::Sub => Some(wrap_i32(x - y) as i32),
        Instr::Mul => Some(wrap_i32(x * y) as i32),
        Instr::DivS => if y == 0 || (x == i32::MIN && y == -1) {
            None
        } else {
            Some(trunc_div(x as int, y as int) as i32)
        },
        _ => None,
    }
}

/// The machine's state: the value stack, top last, and the locals.
pub type MachineState = (Seq<i32>, Map<Seq<char>, i32>);

/// One instruction applied to a state, or `None` where the machine traps.
pub open spec fn step(i: Instr, st: MachineState) -> Option<MachineState> {
    let (stack, locals) = st;
    match i {
        Instr::Const(n) => Some((stack.push(n), locals)),
        Instr::LocalGet(x) => if locals.contains_key(x) {
            Some((stack.push(locals[x]), locals))
        } else {
            None
        },
        Instr::LocalSet(x) => if stack.len() >= 1 && locals.contains_key(x) {
            Some((stack.drop_last(), locals.insert(x, stack.last())))
        } else {
            None
        },
        Instr::Drop => if stack.len() >= 1 {
            Some((stack.drop_last(), locals))
        } else {
            None
        },
        _ => if stack.len() >= 2 {
            let rest = stack.subrange(0, stack.len() - 2);
            match binary_result(i, stack[stack.len() - 2], stack.last()) {
                Some(v) => Some((rest.push(v), locals)),
                None => None,
            }
        } else {
            None
        },
    }
}

/// The instructions `is` applied in order to a state.
pub open spec fn run(is: Seq<Instr>, st: MachineState) -> Option<MachineState>
    decreases is.len(),
{
    if is.len() == 0 {
        Some(st)
    } else {
        match step(is[0], st) {
            Some(next) => run(is.drop_first(), next),
            None => None,
        }
    }
}

/// The value that the program of `ss` returns: it starts with an empty
/// stack and every assigned name's local at zero, and must end with exactly
/// one value on the stack. `None` where it traps or ends otherwise.
pub open spec fn evaluate(ss: Seq<StatementModel>) -> Option<i32> {
    let locals = Map::new(|x: Seq<char>| assigned_names(ss).contains(x), |x: Seq<char>| 0i32);
    match run(program_code(ss), (seq![], locals)) {
        Some((stack, _)) => if stack.len() == 1 {
            Some(stack[0])
        } else {
            None
        },
        None => None,
    }
}

} // verus!
