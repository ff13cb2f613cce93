//! The structural rules of the intermediate representation, and the test
//! of a module against them.
//!
//! Every block ends in exactly one terminator and holds no other; phi
//! nodes stand only at the entry of a block; every operand, branch target,
//! predecessor and callee exists; every call passes as many arguments as
//! its callee takes.

use crate::ir::FunctionKind;
use crate::ir::Instr;
use crate::ir::InstrView;
use crate::ir::Module;
use crate::ir::ModuleView;
use crate::ir::Value;
use vstd::prelude::*;

verus! {

impl ModuleView {
    /// Whether `value` can be an operand in function `f`: the parameter,
    /// instruction or string constant that it names exists.
    pub open spec fn value_ok(self, f: int, value: Value) -> bool {
        match value {
            Value::Const(_) => true,
            Value::Param(i) => i < self.functions[f].arity,
            Value::Inst(b, i) => b < self.functions[f].blocks.len() && i
                < self.functions[f].blocks[b as int].instrs.len(),
            Value::Global(g) => g < self.globals.len(),
        }
    }

    /// Whether a call of function `callee` may pass `count` arguments.
    pub open spec fn arguments_ok(self, callee: int, count: nat) -> bool {
        if self.functions[callee].kind is Output {
            count >= self.functions[callee].arity
        } else {
            count == self.functions[callee].arity
        }
    }

    /// Whether each of `values` can be an operand in function `f`.
    pub open spec fn values_ok(self, f: int, values: Seq<Value>) -> bool {
        forall|k: int| 0 <= k < values.len() ==> self.value_ok(f, #[trigger] values[k])
    }

    /// Whether each of the edges `incoming` of a phi node of function `f`
    /// carries a value that can be an operand there and comes from a block
    /// of the function.
    pub open spec fn edges_ok(self, f: int, incoming: Seq<(Value, usize)>) -> bool {
        forall|k: int|
            0 <= k < incoming.len() ==> {
                &&& self.value_ok(f, (#[trigger] incoming[k]).0)
                &&& incoming[k].1 < self.functions[f].blocks.len()
            }
    }

    /// Whether `instr` can stand in function `f`.
    pub open spec fn instr_ok(self, f: int, instr: InstrView) -> bool {
        match instr {
            InstrView::Alloca => true,
            InstrView::Load { slot } => self.value_ok(f, slot),
            InstrView::Store { slot, value } => self.value_ok(f, slot) && self.value_ok(f, value),
            InstrView::Binary { op, lhs, rhs } => self.value_ok(f, lhs) && self.value_ok(f, rhs),
            InstrView::Compare { pred, lhs, rhs } => self.value_ok(f, lhs) && self.value_ok(f, rhs),
            InstrView::ZExt { value } => self.value_ok(f, value),
            InstrView::Trunc { value } => self.value_ok(f, value),
            InstrView::PtrToInt { value } => self.value_ok(f, value),
            InstrView::Call { callee, args } => {
                &&& callee < self.functions.len()
                &&& self.arguments_ok(callee as int, args.len())
                &&& self.values_ok(f, args)
            },
            InstrView::Phi { incoming } => self.edges_ok(f, incoming),
            InstrView::Br { target } => target < self.functions[f].blocks.len(),
            InstrView::CondBr { cond, then_target, else_target } => {
                &&& self.value_ok(f, cond)
                &&& then_target < self.functions[f].blocks.len()
                &&& else_target < self.functions[f].blocks.len()
            },
            InstrView::Ret { value } => self.value_ok(f, value),
        }
    }

    /// Whether instruction `i` of block `b` of function `f` obeys the
    /// rules: it is a terminator exactly if it is the last of its block, a
    /// phi node only if all before it are, and it can stand in `f`.
    pub open spec fn position_ok(self, f: int, b: int, i: int) -> bool {
        let instrs = self.functions[f].blocks[b].instrs;
        &&& self.instr_ok(f, instrs[i])
        &&& instrs[i].is_terminator() <==> i == instrs.len() - 1
        &&& instrs[i] is Phi && i > 0 ==> instrs[i - 1] is Phi
    }

    /// Whether block `b` of function `f` obeys the rules.
    pub open spec fn block_ok(self, f: int, b: int) -> bool {
        let instrs = self.functions[f].blocks[b].instrs;
        &&& instrs.len() > 0
        &&& forall|i: int| 0 <= i < instrs.len() ==> #[trigger] self.position_ok(f, b, i)
    }

    /// Whether function `f` obeys the rules.
    pub open spec fn function_ok(self, f: int) -> bool {
        forall|b: int| 0 <= b < self.functions[f].blocks.len() ==> #[trigger] self.block_ok(f, b)
    }

    /// Whether the module obeys the rules.
    pub open spec fn consistent(self) -> bool {
        forall|f: int| 0 <= f < self.functions.len() ==> #[trigger] self.function_ok(f)
    }
}

impl Module {
    fn value_ok(&self, f: usize, value: Value) -> (r: bool)
        requires
            f < self@.functions.len(),
        ensures
            r == self@.value_ok(f as int, value),
    {
        match value {
            Value::Const(_) => true,
            Value::Param(i) => i < self.functions[f].arity,
            Value::Inst(b, i) => b < self.functions[f].blocks.len() && i
                < self.functions[f].blocks[b].instrs.len(),
            Value::Global(g) => g < self.globals.len(),
        }
    }

    fn instr_ok(&self, f: usize, instr: &Instr) -> (r: bool)
        requires
            f < self@.functions.len(),
        ensures
            r == self@.instr_ok(f as int, instr@),
    {
        let blocks = self.functions[f].blocks.len();
        match instr {
            Instr::Alloca => true,
            Instr::Load { slot } => self.value_ok(f, *slot),
            Instr::Store { slot, value } => self.value_ok(f, *slot) && self.value_ok(f, *value),
            Instr::Binary { op, lhs, rhs } => self.value_ok(f, *lhs) && self.value_ok(f, *rhs),
            Instr::Compare { pred, lhs, rhs } => self.value_ok(f, *lhs) && self.value_ok(f, *rhs),
            Instr::ZExt { value } => self.value_ok(f, *value),
            Instr::Trunc { value } => self.value_ok(f, *value),
            Instr::PtrToInt { value } => self.value_ok(f, *value),
            Instr::Call { callee, args } => {
                if *callee >= self.functions.len() {
                    return false;
                }
                let arity = self.functions[*callee].arity;
                let count_ok = match self.functions[*callee].kind {
                    FunctionKind::Output => args.len() >= arity,
                    _ => args.len() == arity,
                };
                if !count_ok {
                    return false;
                }
                let mut k: usize = 0;
                while k < args.len()
                    invariant
                        k <= args.len(),
                        f < self@.functions.len(),
                        instr@ == (InstrView::Call { callee: *callee, args: args@ }),
                        *callee < self@.functions.len(),
                        self@.arguments_ok(*callee as int, args@.len()),
                        forall|j: int| 0 <= j < k ==> self@.value_ok(f as int, #[trigger] args@[j]),
                    decreases args.len() - k,
                {
                    if !self.value_ok(f, args[k]) {
                        assert(!self@.value_ok(f as int, args@[k as int]));
                        return false;
                    }
                    k += 1;
                }
                true
            },
            Instr::Phi { incoming } => {
                let mut k: usize = 0;
                while k < incoming.len()
                    invariant
                        k <= incoming.len(),
                        f < self@.functions.len(),
                        instr@ == (InstrView::Phi { incoming: incoming@ }),
                        blocks == self@.functions[f as int].blocks.len(),
                        forall|j: int|
                            0 <= j < k ==> {
                                &&& self@.value_ok(f as int, (#[trigger] incoming@[j]).0)
                                &&& incoming@[j].1 < blocks
                            },
                    decreases incoming.len() - k,
                {
                    let (value, predecessor) = incoming[k];
                    if !self.value_ok(f, value) || predecessor >= blocks {
                        assert(incoming@[k as int] == (value, predecessor));
                        return false;
                    }
                    k += 1;
                }
                true
            },
            Instr::Br { target } => *target < blocks,
            Instr::CondBr { cond, then_target, else_target } => self.value_ok(f, *cond)
                && *then_target < blocks && *else_target < blocks,
            Instr::Ret { value } => self.value_ok(f, *value),
        }
    }

    fn block_ok(&self, f: usize, b: usize) -> (r: bool)
        requires
            self@.has_block(f as int, b as int),
        ensures
            r == self@.block_ok(f as int, b as int),
    {
        let instrs = &self.functions[f].blocks[b].instrs;
        let n = instrs.len();
        if n == 0 {
            return false;
        }
        let ghost model = self@.functions[f as int].blocks[b as int].instrs;
        let mut i: usize = 0;
        while i < n
            invariant
                i <= n,
                n == instrs@.len(),
                self@.has_block(f as int, b as int),
                instrs == &self.functions@[f as int].blocks@[b as int].instrs,
                model == self@.functions[f as int].blocks[b as int].instrs,
                forall|j: int| 0 <= j < i ==> #[trigger] self@.position_ok(f as int, b as int, j),
            decreases n - i,
        {
            assert(model[i as int] == instrs@[i as int]@);
            let ok = self.instr_ok(f, &instrs[i]) && instrs[i].is_terminator() == (i == n - 1) && (
            i == 0 || !instrs[i].is_phi() || {
                assert(model[i - 1] == instrs@[i - 1]@);
                instrs[i - 1].is_phi()
            });
            if !ok {
                assert(!self@.position_ok(f as int, b as int, i as int));
                return false;
            }
            i += 1;
        }
        true
    }

    /// Tests the module against the structural rules.
    pub fn verify(&self) -> (r: bool)
        ensures
            r == self@.consistent(),
    {
        let mut f: usize = 0;
        while f < self.functions.len()
            invariant
                f <= self.functions.len(),
                forall|g: int| 0 <= g < f ==> #[trigger] self@.function_ok(g),
            decreases self.functions.len() - f,
        {
            let mut b: usize = 0;
            while b < self.functions[f].blocks.len()
                invariant
                    f < self.functions.len(),
                    b <= self.functions[f as int].blocks.len(),
                    forall|c: int| 0 <= c < b ==> #[trigger] self@.block_ok(f as int, c),
                decreases self.functions[f as int].blocks.len() - b,
            {
                if !self.block_ok(f, b) {
                    assert(!self@.function_ok(f as int));
                    return false;
                }
                b += 1;
            }
            f += 1;
        }
        true
    }
}

} // verus!
