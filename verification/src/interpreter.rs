//! A reference interpreter for the intermediate representation: it
//! computes what the execution model defines.

use crate::ir::BinOp;
use crate::ir::FunctionKind;
use crate::ir::Instr;
use crate::ir::Module;
use crate::ir::Pred;
use crate::ir::Value;
use crate::semantics::Finished;
use crate::semantics::Frame;
use crate::semantics::arithmetic_result;
use crate::semantics::call;
use crate::semantics::holds;
use crate::semantics::incoming_from;
use crate::semantics::printed;
use crate::semantics::run;
use vstd::prelude::*;

verus! {

/// The activation of a function, laid out like the function: one entry
/// for each instruction of each block.
struct Activation {
    /// The result of each instruction that has yielded one.
    values: Vec<Vec<Option<i64>>>,
    /// For each instruction that has reserved a slot, what the slot holds.
    cells: Vec<Vec<Option<Option<i64>>>>,
    /// The output of the run so far.
    output: Vec<(usize, i64)>,
}

impl Activation {
    /// The activation has the layout of function `f` of `module`.
    spec fn fits(&self, module: &Module, f: int) -> bool {
        let blocks = module@.functions[f].blocks;
        &&& self.values@.len() == blocks.len()
        &&& self.cells@.len() == blocks.len()
        &&& forall|b: int|
            0 <= b < blocks.len() ==> (#[trigger] self.values@[b])@.len() == blocks[b].instrs.len()
        &&& forall|b: int|
            0 <= b < blocks.len() ==> (#[trigger] self.cells@[b])@.len() == blocks[b].instrs.len()
    }

    spec fn has_value(&self, at: (usize, usize)) -> bool {
        at.0 < self.values@.len() && at.1 < self.values@[at.0 as int]@.len()
            && self.values@[at.0 as int]@[at.1 as int] is Some
    }

    spec fn has_cell(&self, at: (usize, usize)) -> bool {
        at.0 < self.cells@.len() && at.1 < self.cells@[at.0 as int]@.len()
            && self.cells@[at.0 as int]@[at.1 as int] is Some
    }

    /// The frame that the activation stands for.
    spec fn frame(&self, args: Seq<i64>) -> Frame {
        Frame {
            args,
            values: Map::new(
                |at: (usize, usize)| self.has_value(at),
                |at: (usize, usize)| self.values@[at.0 as int]@[at.1 as int]->0,
            ),
            cells: Map::new(
                |at: (usize, usize)| self.has_cell(at),
                |at: (usize, usize)| self.cells@[at.0 as int]@[at.1 as int]->0,
            ),
            output: self.output@,
        }
    }

    /// An activation of function `f` in which nothing has run yet, made
    /// after `output` has been printed.
    fn new(module: &Module, f: usize, output: Vec<(usize, i64)>) -> (a: Activation)
        requires
            f < module@.functions.len(),
        ensures
            a.fits(module, f as int),
            forall|args: Seq<i64>| #[trigger] a.frame(args) == Frame::start(args, output@),
    {
        let blocks = &module.functions[f].blocks;
        let mut values: Vec<Vec<Option<i64>>> = Vec::new();
        let mut cells: Vec<Vec<Option<Option<i64>>>> = Vec::new();
        let mut b: usize = 0;
        while b < blocks.len()
            invariant
                b <= blocks.len(),
                f < module@.functions.len(),
                blocks == &module.functions@[f as int].blocks,
                values@.len() == b,
                cells@.len() == b,
                forall|c: int|
                    0 <= c < b ==> {
                        &&& (#[trigger] values@[c])@.len() == blocks@[c].instrs@.len()
                        &&& forall|i: int| 0 <= i < values@[c]@.len() ==> values@[c]@[i] is None
                    },
                forall|c: int|
                    0 <= c < b ==> {
                        &&& (#[trigger] cells@[c])@.len() == blocks@[c].instrs@.len()
                        &&& forall|i: int| 0 <= i < cells@[c]@.len() ==> cells@[c]@[i] is None
                    },
            decreases blocks.len() - b,
        {
            let n = blocks[b].instrs.len();
            let mut row: Vec<Option<i64>> = Vec::new();
            let mut slots: Vec<Option<Option<i64>>> = Vec::new();
            let mut i: usize = 0;
            while i < n
                invariant
                    i <= n,
                    row@.len() == i,
                    slots@.len() == i,
                    forall|j: int| 0 <= j < i ==> row@[j] is None,
                    forall|j: int| 0 <= j < i ==> slots@[j] is None,
                decreases n - i,
            {
                row.push(None);
                slots.push(None);
                i += 1;
            }
            values.push(row);
            cells.push(slots);
            b += 1;
        }
        let a = Activation { values, cells, output };
        proof {
            assert forall|args: Seq<i64>| #[trigger]
                a.frame(args) == Frame::start(args, output@) by {
                assert(a.frame(args).values =~= Map::<(usize, usize), i64>::empty());
                assert(a.frame(args).cells =~= Map::<(usize, usize), Option<i64>>::empty());
            }
        }
        a
    }

    /// The value of an operand.
    fn operand(&self, args: &Vec<i64>, value: Value) -> (r: Option<i64>)
        ensures
            r == self.frame(args@).operand(value),
    {
        match value {
            Value::Const(c) => Some(c),
            Value::Param(i) => if i < args.len() {
                Some(args[i])
            } else {
                None
            },
            Value::Inst(b, i) => if b < self.values.len() && i < self.values[b].len() {
                self.values[b][i]
            } else {
                None
            },
            Value::Global(_) => None,
        }
    }

    /// The values of a list of operands.
    fn operands(&self, args: &Vec<i64>, list: &Vec<Value>) -> (r: Option<Vec<i64>>)
        ensures
            match self.frame(args@).operands(list@, Seq::empty(), 0) {
                Some(values) => r is Some && r->0@ == values,
                None => r is None,
            },
    {
        let ghost frame = self.frame(args@);
        let mut values: Vec<i64> = Vec::new();
        let mut k: usize = 0;
        while k < list.len()
            invariant
                k <= list.len(),
                frame == self.frame(args@),
                frame.operands(list@, Seq::empty(), 0) == frame.operands(list@, values@, k as int),
            decreases list.len() - k,
        {
            match self.operand(args, list[k]) {
                Some(v) => {
                    values.push(v);
                },
                None => {
                    return None;
                },
            }
            k += 1;
        }
        Some(values)
    }

    /// Records the result of the instruction at (`b`, `i`).
    fn set(&mut self, Ghost(module): Ghost<&Module>, Ghost(f): Ghost<int>, b: usize, i: usize, v: i64)
        requires
            old(self).fits(module, f),
            b < old(self).values@.len(),
            i < old(self).values@[b as int]@.len(),
        ensures
            final(self).fits(module, f),
            forall|args: Seq<i64>| #[trigger]
                final(self).frame(args) == old(self).frame(args).set((b, i), v),
    {
        self.values[b][i] = Some(v);
        proof {
            assert forall|args: Seq<i64>| #[trigger]
                self.frame(args) == old(self).frame(args).set((b, i), v) by {
                assert(self.frame(args).values =~= old(self).frame(args).values.insert((b, i), v));
                assert(self.frame(args).cells =~= old(self).frame(args).cells);
            }
        }
    }

    /// Records what the slot reserved at (`b`, `i`) holds.
    fn put(
        &mut self,
        Ghost(module): Ghost<&Module>,
        Ghost(f): Ghost<int>,
        b: usize,
        i: usize,
        content: Option<i64>,
    )
        requires
            old(self).fits(module, f),
            b < old(self).cells@.len(),
            i < old(self).cells@[b as int]@.len(),
        ensures
            final(self).fits(module, f),
            forall|args: Seq<i64>| #[trigger]
                final(self).frame(args) == (Frame {
                    cells: old(self).frame(args).cells.insert((b, i), content),
                    ..old(self).frame(args)
                }),
    {
        self.cells[b][i] = Some(content);
        proof {
            assert forall|args: Seq<i64>| #[trigger]
                self.frame(args) == (Frame {
                    cells: old(self).frame(args).cells.insert((b, i), content),
                    ..old(self).frame(args)
                }) by {
                assert(self.frame(args).cells =~= old(self).frame(args).cells.insert(
                    (b, i),
                    content,
                ));
                assert(self.frame(args).values =~= old(self).frame(args).values);
            }
        }
    }

    /// Adds a record to the output.
    fn print(&mut self, Ghost(module): Ghost<&Module>, Ghost(f): Ghost<int>, record: (usize, i64))
        requires
            old(self).fits(module, f),
        ensures
            final(self).fits(module, f),
            forall|args: Seq<i64>| #[trigger]
                final(self).frame(args) == (Frame {
                    output: old(self).frame(args).output.push(record),
                    ..old(self).frame(args)
                }),
    {
        self.output.push(record);
        proof {
            assert forall|args: Seq<i64>| #[trigger]
                self.frame(args) == (Frame {
                    output: old(self).frame(args).output.push(record),
                    ..old(self).frame(args)
                }) by {
                assert(self.frame(args).cells =~= old(self).frame(args).cells);
                assert(self.frame(args).values =~= old(self).frame(args).values);
            }
        }
    }

    /// The record that a call of the formatted-output primitive with
    /// `passed` adds to the output.
    fn printed(&self, module: &Module, args: &Vec<i64>, passed: &Vec<Value>) -> (r: Option<
        (usize, i64),
    >)
        ensures
            r == printed(module@, self.frame(args@), passed@),
    {
        if passed.len() != 2 {
            return None;
        }
        match (passed[0], self.operand(args, passed[1])) {
            (Value::Global(g), Some(v)) => if g < module.globals.len() {
                Some((g, v))
            } else {
                None
            },
            _ => None,
        }
    }

    /// Hands out the output so far, to the run of a callee.
    fn take_output(&mut self, Ghost(module): Ghost<&Module>, Ghost(f): Ghost<int>) -> (output: Vec<
        (usize, i64),
    >)
        requires
            old(self).fits(module, f),
        ensures
            final(self).fits(module, f),
            output@ == old(self).output@,
            forall|args: Seq<i64>| #[trigger]
                final(self).frame(args) == (Frame {
                    output: Seq::empty(),
                    ..old(self).frame(args)
                }),
    {
        let mut output: Vec<(usize, i64)> = Vec::new();
        core::mem::swap(&mut self.output, &mut output);
        proof {
            assert forall|args: Seq<i64>| #[trigger]
                self.frame(args) == (Frame { output: Seq::empty(), ..old(self).frame(args) }) by {
                assert(self.frame(args).cells =~= old(self).frame(args).cells);
                assert(self.frame(args).values =~= old(self).frame(args).values);
            }
        }
        output
    }

    /// Takes the output back as the callee left it.
    fn give_output(
        &mut self,
        Ghost(module): Ghost<&Module>,
        Ghost(f): Ghost<int>,
        output: Vec<(usize, i64)>,
    )
        requires
            old(self).fits(module, f),
        ensures
            final(self).fits(module, f),
            forall|args: Seq<i64>| #[trigger]
                final(self).frame(args) == (Frame { output: output@, ..old(self).frame(args) }),
    {
        self.output = output;
        proof {
            assert forall|args: Seq<i64>| #[trigger]
                self.frame(args) == (Frame { output: output@, ..old(self).frame(args) }) by {
                assert(self.frame(args).cells =~= old(self).frame(args).cells);
                assert(self.frame(args).values =~= old(self).frame(args).values);
            }
        }
    }

    /// What the slot reserved at (`b`, `i`) holds, if that slot exists.
    fn cell(&self, args: &Vec<i64>, b: usize, i: usize) -> (r: Option<Option<i64>>)
        ensures
            match r {
                Some(content) => self.frame(args@).cells.contains_key((b, i)) && self.frame(
                    args@,
                ).cells[(b, i)] == content,
                None => !self.frame(args@).cells.contains_key((b, i)),
            },
    {
        if b < self.cells.len() && i < self.cells[b].len() {
            self.cells[b][i]
        } else {
            None
        }
    }
}

/// The result of an arithmetic instruction.
fn compute(op: BinOp, a: i64, b: i64) -> (r: Option<i64>)
    ensures
        r == arithmetic_result(op, a, b),
{
    match op {
        BinOp::Add => Some(a.wrapping_add(b)),
        BinOp::Sub => Some(a.wrapping_sub(b)),
        BinOp::Mul => Some(a.wrapping_mul(b)),
        BinOp::SDiv => if b == 0 {
            None
        } else {
            match a.checked_div(b) {
                Some(q) => Some(q),
                None => Some(i64::MIN),
            }
        },
    }
}

/// Whether a comparison holds.
fn compare(pred: Pred, a: i64, b: i64) -> (r: bool)
    ensures
        r == holds(pred, a, b),
{
    match pred {
        Pred::Sgt => a > b,
        Pred::Slt => a < b,
        Pred::Sge => a >= b,
        Pred::Sle => a <= b,
        Pred::Eq => a == b,
        Pred::Ne => a != b,
    }
}

/// The value that a phi node takes when control arrives from `from`.
fn select(incoming: &Vec<(Value, usize)>, from: usize) -> (r: Option<Value>)
    ensures
        r == incoming_from(incoming@, from, 0),
{
    let mut k: usize = 0;
    while k < incoming.len()
        invariant
            k <= incoming.len(),
            incoming_from(incoming@, from, 0) == incoming_from(incoming@, from, k as int),
        decreases incoming.len() - k,
    {
        if incoming[k].1 == from {
            return Some(incoming[k].0);
        }
        k += 1;
    }
    None
}

/// What a run yielded, as the execution model has it.
pub open spec fn finished(r: Option<(i64, Vec<(usize, i64)>)>) -> Option<Finished> {
    match r {
        Some((value, output)) => Some((value, output@)),
        None => None,
    }
}

impl Module {
    /// Runs function `f` on `args` for at most `fuel` instructions, calls
    /// included. Yields what the function returns and the output of the
    /// run, or nothing where the execution model gives no result: the fuel
    /// ran out, a division by zero, a call of a function without a body, a
    /// read of something never written.
    pub fn execute(&self, f: usize, args: &Vec<i64>, fuel: u64) -> (r: Option<
        (i64, Vec<(usize, i64)>),
    >)
        ensures
            finished(r) == call(self@, f as int, args@, Seq::empty(), fuel as nat),
    {
        self.execute_after(f, args, Vec::new(), fuel)
    }

    /// Runs function `f` on `args` after `output` has been printed.
    fn execute_after(&self, f: usize, args: &Vec<i64>, output: Vec<(usize, i64)>, fuel: u64) -> (r:
        Option<(i64, Vec<(usize, i64)>)>)
        ensures
            finished(r) == call(self@, f as int, args@, output@, fuel as nat),
        decreases fuel,
    {
        if fuel == 0 || f >= self.functions.len() {
            return None;
        }
        let function = &self.functions[f];
        let mut left = fuel - 1;
        let mut activation = Activation::new(self, f, output);
        let mut b: usize = 0;
        let mut i: usize = 0;
        let mut from: Option<usize> = None;
        let ghost result = run(
            self@,
            f as int,
            Frame::start(args@, output@),
            0,
            0,
            None,
            left as nat,
        );
        while left > 0 && b < function.blocks.len() && i < function.blocks[b].instrs.len()
            invariant
                f < self.functions.len(),
                function == &self.functions@[f as int],
                activation.fits(self, f as int),
                left < fuel,
                result == call(self@, f as int, args@, output@, fuel as nat),
                result == run(
                    self@,
                    f as int,
                    activation.frame(args@),
                    b as int,
                    i as int,
                    from,
                    left as nat,
                ),
            decreases left,
        {
            left = left - 1;
            let ghost frame = activation.frame(args@);
            let instr = &function.blocks[b].instrs[i];
            assert(self@.functions[f as int].blocks[b as int].instrs[i as int] == instr@);
            match instr {
                Instr::Alloca => {
                    activation.put(Ghost(self), Ghost(f as int), b, i, None);
                    i = i + 1;
                },
                Instr::Load { slot } => {
                    let content = match slot {
                        Value::Inst(sb, si) => activation.cell(args, *sb, *si),
                        _ => None,
                    };
                    match content {
                        Some(Some(v)) => {
                            activation.set(Ghost(self), Ghost(f as int), b, i, v);
                            i = i + 1;
                        },
                        _ => {
                            return None;
                        },
                    }
                },
                Instr::Store { slot, value } => {
                    let v = activation.operand(args, *value);
                    match (slot, v) {
                        (Value::Inst(sb, si), Some(v)) => {
                            if activation.cell(args, *sb, *si).is_some() {
                                activation.put(Ghost(self), Ghost(f as int), *sb, *si, Some(v));
                                i = i + 1;
                            } else {
                                return None;
                            }
                        },
                        _ => {
                            return None;
                        },
                    }
                },
                Instr::Binary { op, lhs, rhs } => {
                    let x = activation.operand(args, *lhs);
                    let y = activation.operand(args, *rhs);
                    match (x, y) {
                        (Some(x), Some(y)) => match compute(*op, x, y) {
                            Some(v) => {
                                activation.set(Ghost(self), Ghost(f as int), b, i, v);
                                i = i + 1;
                            },
                            None => {
                                return None;
                            },
                        },
                        _ => {
                            return None;
                        },
                    }
                },
                Instr::Compare { pred, lhs, rhs } => {
                    let x = activation.operand(args, *lhs);
                    let y = activation.operand(args, *rhs);
                    match (x, y) {
                        (Some(x), Some(y)) => {
                            let bit: i64 = if compare(*pred, x, y) {
                                1
                            } else {
                                0
                            };
                            activation.set(Ghost(self), Ghost(f as int), b, i, bit);
                            i = i + 1;
                        },
                        _ => {
                            return None;
                        },
                    }
                },
                Instr::ZExt { value } => {
                    match activation.operand(args, *value) {
                        Some(v) => {
                            activation.set(Ghost(self), Ghost(f as int), b, i, v);
                            i = i + 1;
                        },
                        None => {
                            return None;
                        },
                    }
                },
                Instr::Trunc { value } => {
                    match activation.operand(args, *value) {
                        Some(v) => {
                            let low = #[verifier::truncate]
                            (v as i32);
                            activation.set(Ghost(self), Ghost(f as int), b, i, low as i64);
                            i = i + 1;
                        },
                        None => {
                            return None;
                        },
                    }
                },
                Instr::PtrToInt { value } => {
                    return None;
                },
                Instr::Call { callee, args: passed } => {
                    if *callee >= self.functions.len() {
                        return None;
                    }
                    let target = &self.functions[*callee];
                    match target.kind {
                        FunctionKind::Output => {
                            match activation.printed(self, args, passed) {
                                Some(record) => {
                                    activation.print(Ghost(self), Ghost(f as int), record);
                                    i = i + 1;
                                },
                                None => {
                                    return None;
                                },
                            }
                        },
                        FunctionKind::Plain => {
                            if target.blocks.len() == 0 || passed.len() != target.arity {
                                return None;
                            }
                            let values = match activation.operands(args, passed) {
                                Some(values) => values,
                                None => {
                                    return None;
                                },
                            };
                            let so_far = activation.take_output(Ghost(self), Ghost(f as int));
                            match self.execute_after(*callee, &values, so_far, left) {
                                Some((v, output)) => {
                                    activation.give_output(Ghost(self), Ghost(f as int), output);
                                    activation.set(Ghost(self), Ghost(f as int), b, i, v);
                                    i = i + 1;
                                },
                                None => {
                                    return None;
                                },
                            }
                        },
                        FunctionKind::ProcessEntry => {
                            return None;
                        },
                    }
                },
                Instr::Phi { incoming } => {
                    let value = match from {
                        Some(from_block) => select(incoming, from_block),
                        None => None,
                    };
                    let v = match value {
                        Some(value) => activation.operand(args, value),
                        None => None,
                    };
                    match v {
                        Some(v) => {
                            activation.set(Ghost(self), Ghost(f as int), b, i, v);
                            i = i + 1;
                        },
                        None => {
                            return None;
                        },
                    }
                },
                Instr::Br { target } => {
                    from = Some(b);
                    b = *target;
                    i = 0;
                },
                Instr::CondBr { cond, then_target, else_target } => {
                    match activation.operand(args, *cond) {
                        Some(c) => {
                            from = Some(b);
                            b = if c != 0 {
                                *then_target
                            } else {
                                *else_target
                            };
                            i = 0;
                        },
                        None => {
                            return None;
                        },
                    }
                },
                Instr::Ret { value } => {
                    return match activation.operand(args, *value) {
                        Some(v) => Some((v, activation.output)),
                        None => None,
                    };
                },
            }
        }
        None
    }
}

} // verus!
