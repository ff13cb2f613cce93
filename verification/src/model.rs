//! What code generation means: a mathematical function from the state of
//! a code generator and a node of the syntax tree to the state after the
//! node and the value that the node yields.
//!
//! Variables live in storage slots. A name is bound to its slot in the
//! scope of the function being compiled; an assignment to a bound name
//! writes the slot that the name has, wherever in the function it stands.
//! Division is emitted unchecked: a division by zero is not caught here.

use crate::error::CompileError;
use crate::error::CompileErrorView;
use crate::foreign::signatures_of;
use crate::foreign::wrapped;
use crate::ir::BinOp;
use crate::ir::BlockKind;
use crate::ir::FunctionKind;
use crate::ir::FunctionView;
use crate::ir::InstrView;
use crate::ir::ModuleView;
use crate::ir::Pred;
use crate::ir::Value;
use crate::scope::Name;
use crate::scope::lookup;
use crate::types::Expr;
use crate::types::PrintFormat;
use vstd::prelude::*;

verus! {

/// The state of a code generator.
pub struct State {
    /// The module built so far.
    pub module: ModuleView,
    /// The scope of the function being compiled: each name with its slot.
    pub variables: Seq<(Name, Value)>,
    /// The symbol table: each declared function with its index in the
    /// module.
    pub functions: Seq<(Name, usize)>,
    /// The function and block that instructions are appended to; `None`
    /// outside any function.
    pub cursor: Option<(usize, usize)>,
    /// The foreign blocks met so far, each as the text for the external
    /// compiler.
    pub foreign: Seq<Seq<char>>,
    /// The paths of the object files that the external compiler made of
    /// foreign blocks, as the driver reported them.
    pub objects: Seq<Seq<char>>,
}

/// The outcome of compiling a node: the state after it and its value, or
/// the error that aborts the compilation.
pub type Generated = Result<(State, Value), CompileErrorView>;

/// The name of the entry function.
pub open spec fn entry_name() -> Name {
    "seppo"@
}

/// The name of the process entry that wraps the entry function.
pub open spec fn process_entry_name() -> Name {
    "main"@
}

/// The name of the formatted-output primitive.
pub open spec fn output_name() -> Name {
    "printf"@
}

/// The index of the formatted-output primitive in every module that a
/// code generator builds.
pub open spec fn output_function() -> usize {
    0
}

/// The template that the formatted-output primitive gets for `format`.
pub open spec fn template(format: PrintFormat) -> Seq<char> {
    match format {
        PrintFormat::Decimal => "%ld\n"@,
        PrintFormat::Hex => "0x%lx\n"@,
    }
}

/// The arithmetic operation that `op` denotes.
pub open spec fn arithmetic(op: Name) -> Option<BinOp> {
    if op == "+"@ {
        Some(BinOp::Add)
    } else if op == "-"@ {
        Some(BinOp::Sub)
    } else if op == "*"@ {
        Some(BinOp::Mul)
    } else if op == "/"@ {
        Some(BinOp::SDiv)
    } else {
        None
    }
}

/// The comparison that `op` denotes.
pub open spec fn comparison(op: Name) -> Option<Pred> {
    if op == ">"@ {
        Some(Pred::Sgt)
    } else if op == "<"@ {
        Some(Pred::Slt)
    } else if op == ">="@ {
        Some(Pred::Sge)
    } else if op == "<="@ {
        Some(Pred::Sle)
    } else if op == "=="@ {
        Some(Pred::Eq)
    } else if op == "!="@ {
        Some(Pred::Ne)
    } else {
        None
    }
}

/// No operator is both an arithmetic operator and a comparison.
pub(crate) proof fn lemma_operators_differ(op: Name)
    ensures
        !(arithmetic(op) is Some && comparison(op) is Some),
{
    reveal_strlit("+");
    reveal_strlit("-");
    reveal_strlit("*");
    reveal_strlit("/");
    reveal_strlit(">");
    reveal_strlit("<");
    reveal_strlit(">=");
    reveal_strlit("<=");
    reveal_strlit("==");
    reveal_strlit("!=");
    if arithmetic(op) is Some && comparison(op) is Some {
        assert(op.len() == 1);
        let c = op[0];
        assert(c == '+' || c == '-' || c == '*' || c == '/');
        assert(c == '>' || c == '<');
    }
}

/// The blocks of one conditional.
pub struct Fork {
    pub function: usize,
    pub then_block: usize,
    pub else_block: usize,
    pub merge_block: usize,
}

/// How a branch of a conditional ended.
pub struct Branch {
    /// The block that the branch ended in.
    pub tail: usize,
    /// Whether control reaches the join from there: it does unless that
    /// block ends in a terminator of the branch's own.
    pub reaches: bool,
    /// The scope at the end of the branch.
    pub scope: Seq<(Name, Value)>,
    /// The value of the branch.
    pub value: Value,
}

/// The incoming edges of a phi node at a join: one for each branch that
/// reaches the join, the true branch first.
pub open spec fn edges(
    then_reaches: bool,
    then_value: Value,
    then_tail: usize,
    else_reaches: bool,
    else_value: Value,
    else_tail: usize,
) -> Seq<(Value, usize)> {
    (if then_reaches {
        seq![(then_value, then_tail)]
    } else {
        Seq::empty()
    }) + (if else_reaches {
        seq![(else_value, else_tail)]
    } else {
        Seq::empty()
    })
}

/// Adds to `seen` the names of `branch`, from pair `i` on, whose binding
/// in `branch` differs from their binding in `base`, each name once.
pub open spec fn changed_names(
    branch: Seq<(Name, Value)>,
    base: Seq<(Name, Value)>,
    seen: Seq<Name>,
    i: int,
) -> Seq<Name>
    decreases branch.len() - i,
{
    if i < 0 || i >= branch.len() {
        seen
    } else {
        let name = branch[i].0;
        let seen = if lookup(branch, name) != lookup(base, name) && !seen.contains(name) {
            seen.push(name)
        } else {
            seen
        };
        changed_names(branch, base, seen, i + 1)
    }
}

/// The module after the values of `names`, from name `k` on, have been
/// read at the end of block `tail` as `scope` binds them, and these values
/// after `values`. A name that `scope` does not bind reads as zero and
/// costs no instruction.
pub open spec fn tail_values(
    module: ModuleView,
    function: usize,
    tail: usize,
    names: Seq<Name>,
    scope: Seq<(Name, Value)>,
    values: Seq<Value>,
    k: int,
) -> (ModuleView, Seq<Value>)
    decreases names.len() - k,
{
    if k < 0 || k >= names.len() {
        (module, values)
    } else {
        match lookup(scope, names[k]) {
            Some(slot) => tail_values(
                module.push_instr(function as int, tail as int, InstrView::Load { slot }),
                function,
                tail,
                names,
                scope,
                values.push(
                    Value::Inst(
                        tail,
                        module.functions[function as int].blocks[tail as int].instrs.len() as usize,
                    ),
                ),
                k + 1,
            ),
            None => tail_values(
                module,
                function,
                tail,
                names,
                scope,
                values.push(Value::Const(0)),
                k + 1,
            ),
        }
    }
}

/// The module after the branch that ends in block `tail` has been closed:
/// the values of `names` are read there and control passes to `merge`.
/// Nothing is added to a branch that does not reach the join.
pub open spec fn close_branch(
    module: ModuleView,
    reaches: bool,
    function: usize,
    tail: usize,
    merge: usize,
    names: Seq<Name>,
    scope: Seq<(Name, Value)>,
) -> (ModuleView, Seq<Value>) {
    if reaches {
        let (module, values) = tail_values(module, function, tail, names, scope, Seq::empty(), 0);
        (
            module.push_instr(function as int, tail as int, InstrView::Br { target: merge }),
            values,
        )
    } else {
        (module, Seq::empty())
    }
}

/// The module after one phi node for each name from name `k` on has been
/// appended to the join, and the values of these phi nodes after `merged`.
pub open spec fn name_phis(
    module: ModuleView,
    fork: Fork,
    then_reaches: bool,
    then_values: Seq<Value>,
    then_tail: usize,
    else_reaches: bool,
    else_values: Seq<Value>,
    else_tail: usize,
    count: int,
    merged: Seq<Value>,
    k: int,
) -> (ModuleView, Seq<Value>)
    decreases count - k,
{
    if k < 0 || k >= count {
        (module, merged)
    } else {
        name_phis(
            module.push_instr(
                fork.function as int,
                fork.merge_block as int,
                InstrView::Phi {
                    incoming: edges(
                        then_reaches,
                        then_values[k],
                        then_tail,
                        else_reaches,
                        else_values[k],
                        else_tail,
                    ),
                },
            ),
            fork,
            then_reaches,
            then_values,
            then_tail,
            else_reaches,
            else_values,
            else_tail,
            count,
            merged.push(
                Value::Inst(
                    fork.merge_block,
                    module.functions[fork.function as int].blocks[fork.merge_block as int].instrs.len() as usize,
                ),
            ),
            k + 1,
        )
    }
}

/// The module after the merged value of each name from name `k` on that
/// `base` binds has been stored to the slot that `base` gives it.
pub open spec fn store_merged(
    module: ModuleView,
    fork: Fork,
    names: Seq<Name>,
    merged: Seq<Value>,
    base: Seq<(Name, Value)>,
    k: int,
) -> ModuleView
    decreases names.len() - k,
{
    if k < 0 || k >= names.len() {
        module
    } else {
        match lookup(base, names[k]) {
            Some(slot) => store_merged(
                module.push_instr(
                    fork.function as int,
                    fork.merge_block as int,
                    InstrView::Store { slot, value: merged[k] },
                ),
                fork,
                names,
                merged,
                base,
                k + 1,
            ),
            None => store_merged(module, fork, names, merged, base, k + 1),
        }
    }
}

impl State {
    /// The state after `instr` has been appended at the cursor.
    pub open spec fn place(self, instr: InstrView) -> State {
        match self.cursor {
            Some((f, b)) => State { module: self.module.push_instr(f as int, b as int, instr), ..self },
            None => self,
        }
    }

    /// The value that names the result of the next instruction appended
    /// at the cursor.
    pub open spec fn next_value(self) -> Value {
        match self.cursor {
            Some((f, b)) => Value::Inst(
                b,
                self.module.functions[f as int].blocks[b as int].instrs.len() as usize,
            ),
            None => Value::Const(0),
        }
    }

    /// Appends `instr` at the cursor and yields its result. Fails outside
    /// any function.
    pub open spec fn emit(self, instr: InstrView) -> Generated {
        if self.cursor is Some {
            Ok((self.place(instr), self.next_value()))
        } else {
            Err(CompileErrorView::CodeOutsideFunction)
        }
    }

    /// Whether the block at the cursor ends in a terminator.
    pub open spec fn terminated(self) -> bool {
        match self.cursor {
            Some((f, b)) => self.module.functions[f as int].blocks[b as int].is_terminated(),
            None => false,
        }
    }

    /// The cursor names a block of the module.
    pub open spec fn wf(self) -> bool {
        match self.cursor {
            Some((f, b)) => self.module.has_block(f as int, b as int),
            None => true,
        }
    }

    /// `self` can follow `before` in one compilation: the module has only
    /// grown, and the cursor is in the same function or still in none.
    pub open spec fn follows(self, before: State) -> bool {
        &&& before.module.functions.len() <= self.module.functions.len()
        &&& forall|f: int|
            #![trigger before.module.functions[f]]
            #![trigger self.module.functions[f]]
            0 <= f < before.module.functions.len() ==> {
                &&& before.module.functions[f].blocks.len()
                    <= self.module.functions[f].blocks.len()
                &&& before.module.functions[f].name == self.module.functions[f].name
            }
        &&& match (before.cursor, self.cursor) {
            (Some((f, _)), Some((g, _))) => f == g,
            (None, None) => true,
            _ => false,
        }
    }

    /// `self` follows `before`, and the module has no more functions than
    /// it had.
    pub open spec fn continues(self, before: State) -> bool {
        self.follows(before) && self.module.functions.len() == before.module.functions.len()
    }

    /// A string literal: a new string constant, and its address as an
    /// integer.
    pub open spec fn string_literal(self, text: Seq<char>) -> Generated {
        let address = Value::Global(self.module.globals.len() as usize);
        State { module: self.module.add_global(text), ..self }.emit(
            InstrView::PtrToInt { value: address },
        )
    }

    /// A variable reference: a read of the slot of `name`.
    pub open spec fn variable(self, name: Name) -> Generated {
        match lookup(self.variables, name) {
            Some(slot) => self.emit(InstrView::Load { slot }),
            None => Err(CompileErrorView::UndefinedVariable(name)),
        }
    }

    /// A binary operation on two compiled operands. A comparison yields
    /// its truth value zero-extended to 64 bits.
    pub open spec fn operation(self, op: Name, lhs: Value, rhs: Value) -> Generated {
        match arithmetic(op) {
            Some(op) => self.emit(InstrView::Binary { op, lhs, rhs }),
            None => match comparison(op) {
                Some(pred) => match self.emit(InstrView::Compare { pred, lhs, rhs }) {
                    Ok((st, bit)) => st.emit(InstrView::ZExt { value: bit }),
                    Err(e) => Err(e),
                },
                None => Err(CompileErrorView::UnknownOperator(op)),
            },
        }
    }

    /// An assignment of a compiled value: a write to the slot of `name`,
    /// which is reserved first if the scope does not bind the name.
    pub open spec fn assignment(self, name: Name, value: Value) -> Generated {
        match lookup(self.variables, name) {
            Some(slot) => match self.emit(InstrView::Store { slot, value }) {
                Ok((st, _)) => Ok((st, value)),
                Err(e) => Err(e),
            },
            None => match self.emit(InstrView::Alloca) {
                Ok((st, slot)) => match (State {
                    variables: st.variables.push((name, slot)),
                    ..st
                }).emit(InstrView::Store { slot, value }) {
                    Ok((st, _)) => Ok((st, value)),
                    Err(e) => Err(e),
                },
                Err(e) => Err(e),
            },
        }
    }

    /// A print of a compiled value: a new string constant for the
    /// template, and a call of the formatted-output primitive.
    pub open spec fn print(self, format: PrintFormat, value: Value) -> Generated {
        let text = Value::Global(self.module.globals.len() as usize);
        match (State { module: self.module.add_global(template(format)), ..self }).emit(
            InstrView::Call { callee: output_function(), args: seq![text, value] },
        ) {
            Ok((st, _)) => Ok((st, value)),
            Err(e) => Err(e),
        }
    }

    /// A return of a compiled value.
    pub open spec fn ret(self, value: Value) -> Generated {
        if self.cursor is Some {
            Ok((self.place(InstrView::Ret { value }), value))
        } else {
            Err(CompileErrorView::ReturnOutsideFunction)
        }
    }

    /// The function that a call of `name` goes to, where the symbol table
    /// gives `declared` for the name: the first function of that name in
    /// the module, so that a later declaration of a name does not redirect
    /// the calls of it.
    pub open spec fn callee(self, name: Name, declared: usize) -> usize {
        match self.module.find_function(name) {
            Some(first) => first as usize,
            None => declared,
        }
    }

    /// A call of `name` with compiled arguments. Fails unless the symbol
    /// table holds the name.
    pub open spec fn call(self, name: Name, args: Seq<Value>) -> Generated {
        match lookup(self.functions, name) {
            Some(declared) => self.emit(
                InstrView::Call { callee: self.callee(name, declared), args },
            ),
            None => Err(CompileErrorView::UndefinedFunction(name)),
        }
    }

    /// The state after a function without a body has been added to the
    /// module and entered in the symbol table.
    pub open spec fn declare(self, name: Name, arity: usize) -> State {
        State {
            module: self.module.add_function(name, FunctionKind::Plain, arity),
            functions: self.functions.push((name, self.module.functions.len() as usize)),
            ..self
        }
    }

    /// The state after the signatures from `i` on have been declared.
    pub open spec fn declare_all(self, signatures: Seq<(Name, usize)>, i: int) -> State
        decreases signatures.len() - i,
    {
        if i < 0 || i >= signatures.len() {
            self
        } else {
            self.declare(signatures[i].0, signatures[i].1).declare_all(signatures, i + 1)
        }
    }

    /// A foreign block: its text for the external compiler is recorded
    /// and each function found in it is declared.
    pub open spec fn foreign_block(self, code: Seq<char>) -> State {
        (State { foreign: self.foreign.push(wrapped(code)), ..self }).declare_all(
            signatures_of(code),
            0,
        )
    }

    /// The state after the parameters from `i` on have each been given a
    /// slot that holds the argument.
    pub open spec fn bind_parameters(self, params: Seq<Name>, i: int) -> State
        decreases params.len() - i,
    {
        if i < 0 || i >= params.len() {
            self
        } else {
            let slot = self.next_value();
            let st = self.place(InstrView::Alloca).place(
                InstrView::Store { slot, value: Value::Param(i as usize) },
            );
            (State { variables: st.variables.push((params[i], slot)), ..st }).bind_parameters(
                params,
                i + 1,
            )
        }
    }

    /// The state at the start of the body of a new function: the function
    /// is declared, so that its body can call it, it has an entry block,
    /// and the scope holds its parameters and nothing else.
    pub open spec fn open_function(self, name: Name, params: Seq<Name>) -> State {
        let f = self.module.functions.len() as usize;
        let st = self.declare(name, params.len() as usize);
        (State {
            module: st.module.add_block(f as int, BlockKind::Entry),
            variables: Seq::empty(),
            cursor: Some((f, 0)),
            ..st
        }).bind_parameters(params, 0)
    }

    /// The state after the body of a function: a body that does not end in
    /// a terminator returns zero, and the scope and the cursor are those
    /// of `outer` again.
    pub open spec fn close_function(self, outer: State) -> State {
        let st = if self.terminated() {
            self
        } else {
            self.place(InstrView::Ret { value: Value::Const(0) })
        };
        State { variables: outer.variables, cursor: outer.cursor, ..st }
    }

    /// The start of a conditional on a compiled condition: the condition
    /// is tested against zero, the three blocks are created, control
    /// branches to the first two, and the cursor enters the first.
    pub open spec fn fork(self, condition: Value) -> Result<(State, Fork), CompileErrorView> {
        match self.emit(
            InstrView::Compare { pred: Pred::Ne, lhs: condition, rhs: Value::Const(0) },
        ) {
            Ok((st, bit)) => {
                let f = st.function();
                let n = st.module.functions[f as int].blocks.len();
                let fork = Fork {
                    function: f,
                    then_block: n as usize,
                    else_block: (n + 1) as usize,
                    merge_block: (n + 2) as usize,
                };
                let module = st.module.add_block(f as int, BlockKind::Then).add_block(
                    f as int,
                    BlockKind::Else,
                ).add_block(f as int, BlockKind::Merge);
                let st = (State { module, ..st }).place(
                    InstrView::CondBr {
                        cond: bit,
                        then_target: fork.then_block,
                        else_target: fork.else_block,
                    },
                );
                Ok((State { cursor: Some((f, fork.then_block)), ..st }, fork))
            },
            Err(e) => Err(e),
        }
    }

    /// The state at the start of the false branch: the scope is that of
    /// `base`, from before the conditional, again.
    pub open spec fn enter_else(self, base: Seq<(Name, Value)>, fork: Fork) -> State {
        State { variables: base, cursor: Some((fork.function, fork.else_block)), ..self }
    }

    /// How the branch that has just been compiled ended.
    pub open spec fn end_of_branch(self, value: Value) -> Branch {
        Branch {
            tail: self.block(),
            reaches: !self.terminated(),
            scope: self.variables,
            value,
        }
    }

    /// The function at the cursor.
    pub open spec fn function(self) -> usize {
        match self.cursor {
            Some((f, _)) => f,
            None => 0,
        }
    }

    /// The block at the cursor.
    pub open spec fn block(self) -> usize {
        match self.cursor {
            Some((_, b)) => b,
            None => 0,
        }
    }
}

/// The end of a conditional. `st` is the state after the false branch,
/// `base` the scope from before the conditional.
///
/// For every name whose binding after either branch differs from its
/// binding in `base`, each branch that reaches the join reads the name's
/// value at its end, and the join starts with a phi node over these
/// values; one more phi node merges the values of the branches. Then each
/// merged name that `base` binds is stored back to its slot there. The
/// scope after the conditional is `base`; the conditional yields the last
/// phi node, or zero if no branch reaches the join.
pub open spec fn join(
    st: State,
    base: Seq<(Name, Value)>,
    fork: Fork,
    then_end: Branch,
    else_end: Branch,
) -> (State, Value) {
    let names = changed_names(
        else_end.scope,
        base,
        changed_names(then_end.scope, base, Seq::empty(), 0),
        0,
    );
    let (module, then_values) = close_branch(
        st.module,
        then_end.reaches,
        fork.function,
        then_end.tail,
        fork.merge_block,
        names,
        then_end.scope,
    );
    let (module, else_values) = close_branch(
        module,
        else_end.reaches,
        fork.function,
        else_end.tail,
        fork.merge_block,
        names,
        else_end.scope,
    );
    let merged = State { variables: base, cursor: Some((fork.function, fork.merge_block)), ..st };
    if then_end.reaches || else_end.reaches {
        let (module, merged_values) = name_phis(
            module,
            fork,
            then_end.reaches,
            then_values,
            then_end.tail,
            else_end.reaches,
            else_values,
            else_end.tail,
            names.len() as int,
            Seq::empty(),
            0,
        );
        let result = Value::Inst(
            fork.merge_block,
            module.functions[fork.function as int].blocks[fork.merge_block as int].instrs.len() as usize,
        );
        let module = module.push_instr(
            fork.function as int,
            fork.merge_block as int,
            InstrView::Phi {
                incoming: edges(
                    then_end.reaches,
                    then_end.value,
                    then_end.tail,
                    else_end.reaches,
                    else_end.value,
                    else_end.tail,
                ),
            },
        );
        let module = store_merged(module, fork, names, merged_values, base, 0);
        (State { module, ..merged }, result)
    } else {
        (State { module, ..merged }, Value::Const(0))
    }
}

/// Whether the foreign block `code` is taken to declare a function called
/// `name`.
pub open spec fn declares(code: Seq<char>, name: Name) -> bool {
    exists|k: int|
        0 <= k < signatures_of(code).len() && (#[trigger] signatures_of(code)[k]).0 == name
}

/// Whether the node `e` holds a definition of a function called `name`,
/// or a foreign block that is taken to declare one.
pub open spec fn defines(e: Expr, name: Name) -> bool
    decreases e, 0nat,
{
    match e {
        Expr::Number(_) => false,
        Expr::String(_) => false,
        Expr::Variable(_) => false,
        Expr::Operation(_, left, right) => defines(*left, name) || defines(*right, name),
        Expr::Assignment(_, value) => defines(*value, name),
        Expr::Print(_, value) => defines(*value, name),
        Expr::Block(items) => defines_from(items, name, 0),
        Expr::Function(defined, _, body) => defined == name || defines(*body, name),
        Expr::FunctionCall(_, args) => defines_from(args, name, 0),
        Expr::Return(value) => defines(*value, name),
        Expr::InlineC(code) => declares(code, name),
        Expr::Conditional { condition, true_block, false_block } => defines(*condition, name)
            || defines(*true_block, name) || match false_block {
            Some(false_block) => defines(*false_block, name),
            None => false,
        },
    }
}

/// Whether one of `items`, from item `i` on, defines `name`.
pub open spec fn defines_from(items: Seq<Expr>, name: Name, i: int) -> bool
    decreases items, items.len() - i,
{
    if i < 0 || i >= items.len() {
        false
    } else {
        defines(items[i], name) || defines_from(items, name, i + 1)
    }
}

/// Every function that `after` has and `before` had not is one that `e`
/// defines.
pub open spec fn only_adds(before: ModuleView, after: ModuleView, e: Expr) -> bool {
    forall|i: int|
        before.functions.len() <= i < after.functions.len() ==> defines(
            e,
            (#[trigger] after.functions[i]).name,
        )
}

/// Every function that `after` has and `before` had not is one that one
/// of `items` defines.
pub open spec fn only_adds_from(before: ModuleView, after: ModuleView, items: Seq<Expr>) -> bool {
    forall|i: int|
        before.functions.len() <= i < after.functions.len() ==> defines_from(
            items,
            (#[trigger] after.functions[i]).name,
            0,
        )
}

/// An item that defines a name makes the list that holds it define the
/// name.
pub(crate) proof fn lemma_defines_item(items: Seq<Expr>, name: Name, i: int, from: int)
    requires
        0 <= from <= i < items.len(),
        defines(items[i], name),
    ensures
        defines_from(items, name, from),
    decreases i - from,
{
    if from < i {
        lemma_defines_item(items, name, i, from + 1);
    }
}

/// A module that lacks a name has no first function of that name.
pub(crate) proof fn lemma_lacks(module: ModuleView, name: Name, from: int)
    requires
        lacks(module, name),
        0 <= from,
    ensures
        crate::ir::find_function_from(module.functions, name, from) is None,
    decreases module.functions.len() - from,
{
    if from < module.functions.len() {
        assert(module.functions[from].name != name);
        lemma_lacks(module, name, from + 1);
    }
}

/// The names of the entry function, of the process entry and of the
/// formatted-output primitive differ from each other.
pub(crate) proof fn lemma_reserved_names()
    ensures
        entry_name() != output_name(),
        entry_name() != process_entry_name(),
        output_name() != process_entry_name(),
{
    reveal_strlit("seppo");
    reveal_strlit("printf");
    reveal_strlit("main");
    assert(entry_name().len() == 5);
    assert(output_name().len() == 6);
    assert(process_entry_name().len() == 4);
}

/// The module of a new code generator has no entry function.
pub(crate) proof fn lemma_initial_lacks_entry(name: Name)
    ensures
        lacks(initial(name).module, entry_name()),
{
    lemma_reserved_names();
}

/// No function of `module` is called `name`.
pub open spec fn lacks(module: ModuleView, name: Name) -> bool {
    forall|i: int| 0 <= i < module.functions.len() ==> (#[trigger] module.functions[i]).name != name
}

/// Whether `r`, with `after` as the state it left, is the outcome
/// `expected`.
pub open spec fn agrees(r: Result<Value, CompileError>, after: State, expected: Generated) -> bool {
    match expected {
        Ok((st, value)) => r is Ok && r->Ok_0 == value && after == st,
        Err(e) => r is Err && r->Err_0@ == e,
    }
}

/// The state of a new code generator for a module called `name`: the
/// module declares the formatted-output primitive and nothing else.
pub open spec fn initial(name: Name) -> State {
    State {
        module: ModuleView {
            name,
            functions: seq![
                FunctionView {
                    name: output_name(),
                    kind: FunctionKind::Output,
                    arity: 1,
                    blocks: Seq::empty(),
                },
            ],
            globals: Seq::empty(),
        },
        variables: Seq::empty(),
        functions: Seq::empty(),
        cursor: None,
        foreign: Seq::empty(),
        objects: Seq::empty(),
    }
}

/// The module after the process entry has been added to it: a function
/// without parameters that calls function `entry` and returns its result
/// truncated to 32 bits.
pub open spec fn with_process_entry(module: ModuleView, entry: usize) -> ModuleView {
    let f = module.functions.len() as int;
    module.add_function(process_entry_name(), FunctionKind::ProcessEntry, 0).add_block(
        f,
        BlockKind::Entry,
    ).push_instr(f, 0, InstrView::Call { callee: entry, args: Seq::empty() }).push_instr(
        f,
        0,
        InstrView::Trunc { value: Value::Inst(0, 0) },
    ).push_instr(f, 0, InstrView::Ret { value: Value::Inst(0, 1) })
}

/// Compiles a program: compiles the node `e`, which holds the
/// definitions, then adds the process entry. Fails if the module has no
/// entry function then, or if it breaks the structural rules in the end.
pub open spec fn compile(st: State, e: Expr) -> Result<State, CompileErrorView> {
    match generate(st, e) {
        Ok((st, _)) => match st.module.add_function(
            process_entry_name(),
            FunctionKind::ProcessEntry,
            0,
        ).find_function(entry_name()) {
            Some(entry) => {
                let module = with_process_entry(st.module, entry as usize);
                if module.consistent() {
                    Ok(State { module, ..st })
                } else {
                    Err(CompileErrorView::InconsistentModule)
                }
            },
            None => Err(CompileErrorView::MissingEntryPoint),
        },
        Err(e) => Err(e),
    }
}

/// Whether a compilation that started in `before`, ended with `r` and left
/// `after` went as `compile` says.
pub open spec fn compiles(before: State, e: Expr, r: Result<(), CompileError>, after: State) -> bool {
    match compile(before, e) {
        Ok(st) => r is Ok && after == st,
        Err(e) => r is Err && r->Err_0@ == e,
    }
}

/// Compiles one node.
pub open spec fn generate(st: State, e: Expr) -> Generated
    decreases e, 0nat,
{
    match e {
        Expr::Number(n) => Ok((st, Value::Const(n))),
        Expr::String(text) => st.string_literal(text),
        Expr::Variable(name) => st.variable(name),
        Expr::Operation(op, left, right) => match generate(st, *left) {
            Ok((st, lhs)) => match generate(st, *right) {
                Ok((st, rhs)) => st.operation(op, lhs, rhs),
                Err(e) => Err(e),
            },
            Err(e) => Err(e),
        },
        Expr::Assignment(name, value) => match generate(st, *value) {
            Ok((st, value)) => st.assignment(name, value),
            Err(e) => Err(e),
        },
        Expr::Print(format, value) => match generate(st, *value) {
            Ok((st, value)) => st.print(format, value),
            Err(e) => Err(e),
        },
        Expr::Block(items) => generate_block(st, items, 0, Value::Const(0)),
        Expr::Function(name, params, body) => match generate(
            st.open_function(name, params),
            *body,
        ) {
            Ok((inner, _)) => Ok((inner.close_function(st), Value::Const(0))),
            Err(e) => Err(e),
        },
        Expr::FunctionCall(name, args) => match generate_arguments(st, args, 0, Seq::empty()) {
            Ok((st, values)) => st.call(name, values),
            Err(e) => Err(e),
        },
        Expr::Return(value) => match generate(st, *value) {
            Ok((st, value)) => st.ret(value),
            Err(e) => Err(e),
        },
        Expr::InlineC(code) => Ok((st.foreign_block(code), Value::Const(0))),
        Expr::Conditional { condition, true_block, false_block } => if st.cursor is None {
            Err(CompileErrorView::ConditionalOutsideFunction)
        } else {
            match generate(st, *condition) {
                Ok((st, condition)) => match st.fork(condition) {
                    Ok((st, fork)) => {
                        let base = st.variables;
                        match generate(st, *true_block) {
                            Ok((after_then, then_value)) => {
                                let st = after_then.enter_else(base, fork);
                                let then_end = after_then.end_of_branch(then_value);
                                match false_block {
                                    Some(false_block) => match generate(st, *false_block) {
                                        Ok((after_else, else_value)) => Ok(
                                            join(
                                                after_else,
                                                base,
                                                fork,
                                                then_end,
                                                after_else.end_of_branch(else_value),
                                            ),
                                        ),
                                        Err(e) => Err(e),
                                    },
                                    None => Ok(
                                        join(
                                            st,
                                            base,
                                            fork,
                                            then_end,
                                            st.end_of_branch(Value::Const(0)),
                                        ),
                                    ),
                                }
                            },
                            Err(e) => Err(e),
                        }
                    },
                    Err(e) => Err(e),
                }
                Err(e) => Err(e),
            }
        },
    }
}

/// Compiles the items of a block from item `i` on, in order, and stops
/// after a return. The block yields the value of the last item compiled,
/// or `last` if there is none.
pub open spec fn generate_block(st: State, items: Seq<Expr>, i: int, last: Value) -> Generated
    decreases items, items.len() - i,
{
    if i < 0 || i >= items.len() {
        Ok((st, last))
    } else {
        match generate(st, items[i]) {
            Ok((st, value)) => if items[i] is Return {
                Ok((st, value))
            } else {
                generate_block(st, items, i + 1, value)
            },
            Err(e) => Err(e),
        }
    }
}

/// Compiles the arguments of a call from argument `i` on, left to right,
/// and yields their values after `values`.
pub open spec fn generate_arguments(st: State, args: Seq<Expr>, i: int, values: Seq<Value>)
    -> Result<(State, Seq<Value>), CompileErrorView>
    decreases args, args.len() - i,
{
    if i < 0 || i >= args.len() {
        Ok((st, values))
    } else {
        match generate(st, args[i]) {
            Ok((st, value)) => generate_arguments(st, args, i + 1, values.push(value)),
            Err(e) => Err(e),
        }
    }
}

} // verus!
