//! The intermediate representation: a module of functions, each an ordered
//! list of basic blocks, each an ordered list of instructions in SSA form.
//!
//! An instruction that yields a value is named by its position: the value
//! `Value::Inst(b, i)` is the result of instruction `i` of block `b` of the
//! function it occurs in, so every value has exactly one definition.

use vstd::prelude::*;

verus! {

/// An operand of an instruction.
#[derive(Clone, Copy, Debug, PartialEq, Eq, Structural)]
pub enum Value {
    /// A 64-bit integer constant.
    Const(i64),
    /// The n-th parameter of the enclosing function.
    Param(usize),
    /// The result of instruction `.1` of block `.0` of the enclosing function.
    Inst(usize, usize),
    /// The address of the n-th string constant of the module.
    Global(usize),
}

/// Two-operand arithmetic on 64-bit integers.
#[derive(Clone, Copy, Debug, PartialEq, Eq, Structural)]
pub enum BinOp {
    Add,
    Sub,
    Mul,
    /// Signed division, truncating toward zero.
    SDiv,
}

/// Signed comparison predicates.
#[derive(Clone, Copy, Debug, PartialEq, Eq, Structural)]
pub enum Pred {
    Sgt,
    Slt,
    Sge,
    Sle,
    Eq,
    Ne,
}

/// What a basic block was created for; it doubles as the block's label.
#[derive(Clone, Copy, Debug, PartialEq, Eq, Structural)]
pub enum BlockKind {
    Entry,
    Then,
    Else,
    Merge,
}

/// The three shapes of function signature that occur in a module.
#[derive(Clone, Copy, Debug, PartialEq, Eq, Structural)]
pub enum FunctionKind {
    /// `arity` 64-bit integer parameters, one 64-bit integer result.
    Plain,
    /// The variadic formatted-output primitive: a template, then values;
    /// a 32-bit result.
    Output,
    /// The process entry: no parameters, a 32-bit result.
    ProcessEntry,
}

/// One instruction.
#[derive(Debug, PartialEq, Eq)]
pub enum Instr {
    /// Reserves a storage slot for a 64-bit integer; yields the slot.
    Alloca,
    /// Reads a slot.
    Load { slot: Value },
    /// Writes a slot.
    Store { slot: Value, value: Value },
    Binary { op: BinOp, lhs: Value, rhs: Value },
    /// Yields a one-bit truth value.
    Compare { pred: Pred, lhs: Value, rhs: Value },
    /// Zero-extends a one-bit truth value to 64 bits.
    ZExt { value: Value },
    /// Truncates a 64-bit integer to 32 bits.
    Trunc { value: Value },
    /// Reinterprets an address as a 64-bit integer.
    PtrToInt { value: Value },
    /// Calls function `callee` of the module.
    Call { callee: usize, args: Vec<Value> },
    /// Selects a value by the predecessor that control arrived from.
    Phi { incoming: Vec<(Value, usize)> },
    Br { target: usize },
    CondBr { cond: Value, then_target: usize, else_target: usize },
    Ret { value: Value },
}

/// The mathematical model of an [`Instr`].
pub enum InstrView {
    Alloca,
    Load { slot: Value },
    Store { slot: Value, value: Value },
    Binary { op: BinOp, lhs: Value, rhs: Value },
    Compare { pred: Pred, lhs: Value, rhs: Value },
    ZExt { value: Value },
    Trunc { value: Value },
    PtrToInt { value: Value },
    Call { callee: usize, args: Seq<Value> },
    Phi { incoming: Seq<(Value, usize)> },
    Br { target: usize },
    CondBr { cond: Value, then_target: usize, else_target: usize },
    Ret { value: Value },
}

impl InstrView {
    /// Branches and returns end a block.
    pub open spec fn is_terminator(self) -> bool {
        self is Br || self is CondBr || self is Ret
    }
}

impl View for Instr {
    type V = InstrView;

    open spec fn view(&self) -> InstrView {
        match *self {
            Instr::Alloca => InstrView::Alloca,
            Instr::Load { slot } => InstrView::Load { slot },
            Instr::Store { slot, value } => InstrView::Store { slot, value },
            Instr::Binary { op, lhs, rhs } => InstrView::Binary { op, lhs, rhs },
            Instr::Compare { pred, lhs, rhs } => InstrView::Compare { pred, lhs, rhs },
            Instr::ZExt { value } => InstrView::ZExt { value },
            Instr::Trunc { value } => InstrView::Trunc { value },
            Instr::PtrToInt { value } => InstrView::PtrToInt { value },
            Instr::Call { callee, args } => InstrView::Call { callee, args: args@ },
            Instr::Phi { incoming } => InstrView::Phi { incoming: incoming@ },
            Instr::Br { target } => InstrView::Br { target },
            Instr::CondBr { cond, then_target, else_target } => InstrView::CondBr {
                cond,
                then_target,
                else_target,
            },
            Instr::Ret { value } => InstrView::Ret { value },
        }
    }
}

impl Instr {
/// Whether the instruction ends a block.
    pub fn is_terminator(&self) -> (r: bool)
        ensures
            r == self@.is_terminator(),
    {
        match self {
            Instr::Br { .. } => true,
            Instr::CondBr { .. } => true,
            Instr::Ret { .. } => true,
            _ => false,
        }
    }

/// Whether the instruction is a phi node.
    pub fn is_phi(&self) -> (r: bool)
        ensures
            r == (self@ is Phi),
    {
        match self {
            Instr::Phi { .. } => true,
            _ => false,
        }
    }
}

/// A basic block.
#[derive(Debug, PartialEq, Eq)]
pub struct Block {
    pub kind: BlockKind,
    pub instrs: Vec<Instr>,
}

/// The mathematical model of a [`Block`].
pub struct BlockView {
    pub kind: BlockKind,
    pub instrs: Seq<InstrView>,
}

impl BlockView {
    /// A block is terminated once its last instruction is a terminator.
    pub open spec fn is_terminated(self) -> bool {
        self.instrs.len() > 0 && self.instrs.last().is_terminator()
    }

/// The block with `instr` at its end.
    pub open spec fn push(self, instr: InstrView) -> BlockView {
        BlockView { kind: self.kind, instrs: self.instrs.push(instr) }
    }
}

impl View for Block {
    type V = BlockView;

    open spec fn view(&self) -> BlockView {
        BlockView { kind: self.kind, instrs: self.instrs@.map_values(|i: Instr| i@) }
    }
}

/// A function: a declaration while it has no blocks, a definition once it
/// has one.
#[derive(Debug, PartialEq, Eq)]
pub struct Function {
    pub name: String,
    pub kind: FunctionKind,
    pub arity: usize,
    pub blocks: Vec<Block>,
}

/// The mathematical model of a [`Function`].
pub struct FunctionView {
    pub name: Seq<char>,
    pub kind: FunctionKind,
    pub arity: usize,
    pub blocks: Seq<BlockView>,
}

impl FunctionView {
/// The function with a new empty block at its end.
    pub open spec fn add_block(self, kind: BlockKind) -> FunctionView {
        FunctionView {
            blocks: self.blocks.push(BlockView { kind, instrs: Seq::empty() }),
            ..self
        }
    }

/// The function with `instr` at the end of block `block`.
    pub open spec fn push_instr(self, block: int, instr: InstrView) -> FunctionView {
        FunctionView { blocks: self.blocks.update(block, self.blocks[block].push(instr)), ..self }
    }
}

impl View for Function {
    type V = FunctionView;

    open spec fn view(&self) -> FunctionView {
        FunctionView {
            name: self.name@,
            kind: self.kind,
            arity: self.arity,
            blocks: self.blocks@.map_values(|b: Block| b@),
        }
    }
}

/// A module: the unit of compilation.
#[derive(Debug, PartialEq, Eq)]
pub struct Module {
    pub name: String,
    pub functions: Vec<Function>,
    /// String constants, addressed by `Value::Global`.
    pub globals: Vec<String>,
}

/// The mathematical model of a [`Module`].
pub struct ModuleView {
    pub name: Seq<char>,
    pub functions: Seq<FunctionView>,
    pub globals: Seq<Seq<char>>,
}

impl ModuleView {
/// The module with a new function without blocks at its end.
    pub open spec fn add_function(self, name: Seq<char>, kind: FunctionKind, arity: usize)
        -> ModuleView {
        ModuleView {
            functions: self.functions.push(
                FunctionView { name, kind, arity, blocks: Seq::empty() },
            ),
            ..self
        }
    }

/// The module with a new empty block at the end of function `function`.
    pub open spec fn add_block(self, function: int, kind: BlockKind) -> ModuleView {
        ModuleView {
            functions: self.functions.update(function, self.functions[function].add_block(kind)),
            ..self
        }
    }

/// The module with `instr` at the end of block `block` of function
/// `function`.
    pub open spec fn push_instr(self, function: int, block: int, instr: InstrView) -> ModuleView {
        ModuleView {
            functions: self.functions.update(
                function,
                self.functions[function].push_instr(block, instr),
            ),
            ..self
        }
    }

/// The module with the string constant `text` at the end of its string
/// constants.
    pub open spec fn add_global(self, text: Seq<char>) -> ModuleView {
        ModuleView { globals: self.globals.push(text), ..self }
    }

    /// Whether (`function`, `block`) names a block of the module.
    pub open spec fn has_block(self, function: int, block: int) -> bool {
        0 <= function < self.functions.len() && 0 <= block
            < self.functions[function].blocks.len()
    }

    /// The index of the first function called `name`, if there is one.
    pub open spec fn find_function(self, name: Seq<char>) -> Option<int> {
        find_function_from(self.functions, name, 0)
    }
}

/// The index of the first function at or after `from` called `name`.
pub open spec fn find_function_from(functions: Seq<FunctionView>, name: Seq<char>, from: int)
    -> Option<int>
    decreases functions.len() - from,
{
    if from < 0 || from >= functions.len() {
        None
    } else if functions[from].name == name {
        Some(from)
    } else {
        find_function_from(functions, name, from + 1)
    }
}

impl View for Module {
    type V = ModuleView;

    open spec fn view(&self) -> ModuleView {
        ModuleView {
            name: self.name@,
            functions: self.functions@.map_values(|f: Function| f@),
            globals: self.globals@.map_values(|s: String| s@),
        }
    }
}

impl Module {
    /// An empty module called `name`.
    pub fn new(name: String) -> (m: Module)
        ensures
            m@ == (ModuleView { name: name@, functions: Seq::empty(), globals: Seq::empty() }),
    {
        let m = Module { name, functions: Vec::new(), globals: Vec::new() };
        assert(m@.functions =~= Seq::empty());
        assert(m@.globals =~= Seq::empty());
        m
    }

    /// Appends a function without blocks and returns its index.
    pub fn add_function(&mut self, name: String, kind: FunctionKind, arity: usize) -> (index: usize)
        ensures
            index == old(self)@.functions.len(),
            final(self)@ == old(self)@.add_function(name@, kind, arity),
    {
        let index = self.functions.len();
        let f = Function { name, kind, arity, blocks: Vec::new() };
        assert(f@.blocks =~= Seq::empty());
        self.functions.push(f);
        assert(self@.functions =~= old(self)@.add_function(name@, kind, arity).functions);
        index
    }

    /// Appends an empty block to function `function` and returns its index.
    pub fn add_block(&mut self, function: usize, kind: BlockKind) -> (index: usize)
        requires
            function < old(self)@.functions.len(),
        ensures
            index == old(self)@.functions[function as int].blocks.len(),
            final(self)@ == old(self)@.add_block(function as int, kind),
    {
        let index = self.functions[function].blocks.len();
        let b = Block { kind, instrs: Vec::new() };
        assert(b@.instrs =~= Seq::empty());
        self.functions[function].blocks.push(b);
        assert(self.functions@[function as int]@.blocks =~= old(self)@.functions[function as int].add_block(
            kind,
        ).blocks);
        assert(self@.functions =~= old(self)@.add_block(function as int, kind).functions);
        index
    }

    /// Appends `instr` to block `block` of function `function` and returns
    /// the value that names its result.
    pub fn push_instr(&mut self, function: usize, block: usize, instr: Instr) -> (value: Value)
        requires
            old(self)@.has_block(function as int, block as int),
        ensures
            value == Value::Inst(
                block,
                old(self)@.functions[function as int].blocks[block as int].instrs.len() as usize,
            ),
            final(self)@ == old(self)@.push_instr(function as int, block as int, instr@),
    {
        let index = self.functions[function].blocks[block].instrs.len();
        self.functions[function].blocks[block].instrs.push(instr);
        proof {
            let f = function as int;
            let b = block as int;
            assert(self.functions@[f].blocks@[b]@.instrs =~= old(self)@.functions[f].blocks[b].push(
                instr@,
            ).instrs);
            assert(self.functions@[f]@.blocks =~= old(self)@.functions[f].push_instr(
                b,
                instr@,
            ).blocks);
            assert(self@.functions =~= old(self)@.push_instr(f, b, instr@).functions);
        }
        Value::Inst(block, index)
    }

    /// Appends a string constant and returns the value that names its address.
    pub fn add_global(&mut self, text: String) -> (value: Value)
        ensures
            value == Value::Global(old(self)@.globals.len() as usize),
            final(self)@ == old(self)@.add_global(text@),
    {
        let index = self.globals.len();
        self.globals.push(text);
        assert(self@.globals =~= old(self)@.add_global(text@).globals);
        Value::Global(index)
    }

    /// Whether the last instruction of the block is a terminator.
    pub fn is_terminated(&self, function: usize, block: usize) -> (r: bool)
        requires
            self@.has_block(function as int, block as int),
        ensures
            r == self@.functions[function as int].blocks[block as int].is_terminated(),
    {
        let instrs = &self.functions[function].blocks[block].instrs;
        let n = instrs.len();
        if n == 0 {
            false
        } else {
            instrs[n - 1].is_terminator()
        }
    }

    /// The index of the first function called `name`.
    pub fn get_function(&self, name: &String) -> (r: Option<usize>)
        ensures
            match r {
                Some(i) => self@.find_function(name@) == Some(i as int),
                None => self@.find_function(name@) is None,
            },
    {
        let mut i: usize = 0;
        while i < self.functions.len()
            invariant
                i <= self.functions.len(),
                find_function_from(self@.functions, name@, 0) == find_function_from(
                    self@.functions,
                    name@,
                    i as int,
                ),
            decreases self.functions.len() - i,
        {
            if self.functions[i].name == *name {
                return Some(i);
            }
            i += 1;
        }
        None
    }
}

} // verus!
