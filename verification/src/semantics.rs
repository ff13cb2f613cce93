//! What a module of the intermediate representation computes: a model of
//! its execution, as a mathematical function.
//!
//! Arithmetic is 64-bit two's complement: addition, subtraction and
//! multiplication wrap, division truncates toward zero and wraps in the
//! one case that overflows. A division by zero has no result, and neither
//! has anything that the model does not cover: a call of a function
//! without a body, the address of a string constant as a number, a read of
//! a value or a slot that was never written.
//!
//! A call of the formatted-output primitive with a template and one value
//! adds one record to the output of the run: the index of the template
//! among the string constants of the module, and the value. The records
//! stand in the order in which the calls were executed.
//!
//! Execution is bounded by fuel, one unit for each instruction, so that
//! the model is defined for programs that do not terminate too: running
//! out of fuel has no result.

use crate::ir::BinOp;
use crate::ir::InstrView;
use crate::ir::ModuleView;
use crate::ir::Pred;
use crate::ir::Value;
use vstd::prelude::*;

verus! {

/// The activation of a function.
pub struct Frame {
    /// The arguments of the call.
    pub args: Seq<i64>,
    /// The results of the instructions executed so far, by position.
    pub values: Map<(usize, usize), i64>,
    /// The slots reserved so far, by the position of the instruction that
    /// reserved them, each with what was last written to it.
    pub cells: Map<(usize, usize), Option<i64>>,
    /// The output of the run so far.
    pub output: Seq<(usize, i64)>,
}

impl Frame {
    /// The frame at the start of a call with `args`, after `output` has
    /// been printed.
    pub open spec fn start(args: Seq<i64>, output: Seq<(usize, i64)>) -> Frame {
        Frame { args, values: Map::empty(), cells: Map::empty(), output }
    }

    /// The frame after the instruction at `at` has yielded `value`.
    pub open spec fn set(self, at: (usize, usize), value: i64) -> Frame {
        Frame { values: self.values.insert(at, value), ..self }
    }

    /// The value of an operand.
    pub open spec fn operand(self, value: Value) -> Option<i64> {
        match value {
            Value::Const(c) => Some(c),
            Value::Param(i) => if i < self.args.len() {
                Some(self.args[i as int])
            } else {
                None
            },
            Value::Inst(b, i) => if self.values.contains_key((b, i)) {
                Some(self.values[(b, i)])
            } else {
                None
            },
            Value::Global(_) => None,
        }
    }

    /// The values of operands from operand `k` on, after `done`.
    pub open spec fn operands(self, values: Seq<Value>, done: Seq<i64>, k: int) -> Option<Seq<i64>>
        decreases values.len() - k,
    {
        if k < 0 || k >= values.len() {
            Some(done)
        } else {
            match self.operand(values[k]) {
                Some(v) => self.operands(values, done.push(v), k + 1),
                None => None,
            }
        }
    }
}

/// The integer `n` as a 64-bit two's complement number.
pub open spec fn wrap(n: int) -> i64 {
    let low = n % 0x1_0000_0000_0000_0000;
    if low >= 0x8000_0000_0000_0000 {
        (low - 0x1_0000_0000_0000_0000) as i64
    } else {
        low as i64
    }
}

/// The quotient of `a` by `b`, rounded toward zero; `b` is not zero.
pub open spec fn quotient(a: int, b: int) -> int {
    if a >= 0 && b > 0 {
        a / b
    } else if a >= 0 {
        -(a / (-b))
    } else if b > 0 {
        -((-a) / b)
    } else {
        (-a) / (-b)
    }
}

/// The result of an arithmetic instruction.
pub open spec fn arithmetic_result(op: BinOp, a: i64, b: i64) -> Option<i64> {
    match op {
        BinOp::Add => Some(wrap(a + b)),
        BinOp::Sub => Some(wrap(a - b)),
        BinOp::Mul => Some(wrap(a * b)),
        BinOp::SDiv => if b == 0 {
            None
        } else {
            Some(wrap(quotient(a as int, b as int)))
        },
    }
}

/// Whether a comparison holds.
pub open spec fn holds(pred: Pred, a: i64, b: i64) -> bool {
    match pred {
        Pred::Sgt => a > b,
        Pred::Slt => a < b,
        Pred::Sge => a >= b,
        Pred::Sle => a <= b,
        Pred::Eq => a == b,
        Pred::Ne => a != b,
    }
}

/// The result of a comparison instruction: one if it holds, else zero.
pub open spec fn truth(pred: Pred, a: i64, b: i64) -> i64 {
    if holds(pred, a, b) {
        1
    } else {
        0
    }
}

/// The value that a phi node takes when control arrives from block
/// `from`: that of the first edge from there, from edge `k` on.
pub open spec fn incoming_from(incoming: Seq<(Value, usize)>, from: usize, k: int) -> Option<Value>
    decreases incoming.len() - k,
{
    if k < 0 || k >= incoming.len() {
        None
    } else if incoming[k].1 == from {
        Some(incoming[k].0)
    } else {
        incoming_from(incoming, from, k + 1)
    }
}

/// What a run yields: the value returned, and the output of the run.
pub type Finished = (i64, Seq<(usize, i64)>);

/// The record that a call of the formatted-output primitive with `args`
/// adds to the output: `args` are a string constant of the module and one
/// value.
pub open spec fn printed(module: ModuleView, frame: Frame, args: Seq<Value>) -> Option<(usize, i64)> {
    if args.len() == 2 {
        match (args[0], frame.operand(args[1])) {
            (Value::Global(g), Some(v)) => if g < module.globals.len() {
                Some((g, v))
            } else {
                None
            },
            _ => None,
        }
    } else {
        None
    }
}

/// The result of function `f` of `module` when execution stands before
/// instruction `i` of block `b`, which control entered from block `from`.
pub open spec fn run(
    module: ModuleView,
    f: int,
    frame: Frame,
    b: int,
    i: int,
    from: Option<usize>,
    fuel: nat,
) -> Option<Finished>
    decreases fuel,
{
    if fuel == 0 || !module.has_block(f, b) || i < 0 || i
        >= module.functions[f].blocks[b].instrs.len() {
        None
    } else {
        let here = (b as usize, i as usize);
        let fuel = (fuel - 1) as nat;
        match module.functions[f].blocks[b].instrs[i] {
            InstrView::Alloca => run(
                module,
                f,
                Frame { cells: frame.cells.insert(here, None), ..frame },
                b,
                i + 1,
                from,
                fuel,
            ),
            InstrView::Load { slot } => match slot {
                Value::Inst(sb, si) => if frame.cells.contains_key((sb, si)) {
                    match frame.cells[(sb, si)] {
                        Some(v) => run(module, f, frame.set(here, v), b, i + 1, from, fuel),
                        None => None,
                    }
                } else {
                    None
                },
                _ => None,
            },
            InstrView::Store { slot, value } => match (slot, frame.operand(value)) {
                (Value::Inst(sb, si), Some(v)) => if frame.cells.contains_key((sb, si)) {
                    run(
                        module,
                        f,
                        Frame { cells: frame.cells.insert((sb, si), Some(v)), ..frame },
                        b,
                        i + 1,
                        from,
                        fuel,
                    )
                } else {
                    None
                },
                _ => None,
            },
            InstrView::Binary { op, lhs, rhs } => match (frame.operand(lhs), frame.operand(rhs)) {
                (Some(x), Some(y)) => match arithmetic_result(op, x, y) {
                    Some(v) => run(module, f, frame.set(here, v), b, i + 1, from, fuel),
                    None => None,
                },
                _ => None,
            },
            InstrView::Compare { pred, lhs, rhs } => match (
                frame.operand(lhs),
                frame.operand(rhs),
            ) {
                (Some(x), Some(y)) => run(
                    module,
                    f,
                    frame.set(here, truth(pred, x, y)),
                    b,
                    i + 1,
                    from,
                    fuel,
                ),
                _ => None,
            },
            InstrView::ZExt { value } => match frame.operand(value) {
                Some(v) => run(module, f, frame.set(here, v), b, i + 1, from, fuel),
                None => None,
            },
            InstrView::Trunc { value } => match frame.operand(value) {
                Some(v) => run(module, f, frame.set(here, v as i32 as i64), b, i + 1, from, fuel),
                None => None,
            },
            InstrView::PtrToInt { value } => None,
            InstrView::Call { callee, args } => if callee < module.functions.len()
                && module.functions[callee as int].kind is Output {
                match printed(module, frame, args) {
                    Some(record) => run(
                        module,
                        f,
                        Frame { output: frame.output.push(record), ..frame },
                        b,
                        i + 1,
                        from,
                        fuel,
                    ),
                    None => None,
                }
            } else if callee < module.functions.len() && module.functions[callee as int].kind
                is Plain && module.functions[callee as int].blocks.len() > 0 && args.len()
                == module.functions[callee as int].arity {
                match frame.operands(args, Seq::empty(), 0) {
                    Some(values) => match call(module, callee as int, values, frame.output, fuel) {
                        Some((v, output)) => run(
                            module,
                            f,
                            Frame { output, ..frame.set(here, v) },
                            b,
                            i + 1,
                            from,
                            fuel,
                        ),
                        None => None,
                    },
                    None => None,
                }
            } else {
                None
            },
            InstrView::Phi { incoming } => match from {
                Some(from_block) => match incoming_from(incoming, from_block, 0) {
                    Some(value) => match frame.operand(value) {
                        Some(v) => run(module, f, frame.set(here, v), b, i + 1, from, fuel),
                        None => None,
                    },
                    None => None,
                },
                None => None,
            },
            InstrView::Br { target } => run(module, f, frame, target as int, 0, Some(b as usize), fuel),
            InstrView::CondBr { cond, then_target, else_target } => match frame.operand(cond) {
                Some(c) => run(
                    module,
                    f,
                    frame,
                    if c != 0 {
                        then_target as int
                    } else {
                        else_target as int
                    },
                    0,
                    Some(b as usize),
                    fuel,
                ),
                None => None,
            },
            InstrView::Ret { value } => match frame.operand(value) {
                Some(v) => Some((v, frame.output)),
                None => None,
            },
        }
    }
}

/// The result of a call of function `f` of `module` with `args`, made
/// after `output` has been printed.
pub open spec fn call(
    module: ModuleView,
    f: int,
    args: Seq<i64>,
    output: Seq<(usize, i64)>,
    fuel: nat,
) -> Option<Finished>
    decreases fuel,
{
    if fuel == 0 {
        None
    } else {
        run(module, f, Frame::start(args, output), 0, 0, None, (fuel - 1) as nat)
    }
}

} // verus!
