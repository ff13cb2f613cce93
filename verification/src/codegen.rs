//! The code generator: compiles a syntax tree into a module of the
//! intermediate representation, one node at a time.

use crate::error::CompileError;
use crate::error::CompileErrorView;
use crate::foreign::scan_signatures;
use crate::foreign::signature_views;
use crate::foreign::signatures_of;
use crate::foreign::wrap_source;
use crate::ir::BinOp;
use crate::ir::BlockKind;
use crate::ir::FunctionKind;
use crate::ir::Instr;
use crate::ir::Module;
use crate::ir::Pred;
use crate::ir::Value;
use crate::model::Branch;
use crate::model::Fork;
use crate::model::State;
use crate::model::agrees;
use crate::model::arithmetic;
use crate::model::changed_names;
use crate::model::close_branch;
use crate::model::comparison;
use crate::model::compiles;
use crate::model::declares;
use crate::model::defines;
use crate::model::defines_from;
use crate::model::edges;
use crate::model::entry_name;
use crate::model::generate;
use crate::model::generate_arguments;
use crate::model::generate_block;
use crate::model::initial;
use crate::model::join;
use crate::model::lacks;
use crate::model::lemma_defines_item;
use crate::model::lemma_initial_lacks_entry;
use crate::model::lemma_lacks;
use crate::model::lemma_reserved_names;
use crate::model::name_phis;
use crate::model::only_adds;
use crate::model::only_adds_from;
use crate::model::store_merged;
use crate::model::tail_values;
use crate::scope::Name;
use crate::scope::Table;
use crate::scope::lookup;
use crate::scope::text_is;
use crate::types::PrintFormat;
use crate::types::SeppoExpr;
use crate::types::models_of;
use vstd::prelude::*;

verus! {

/// A code generator: the module under construction and where in it the
/// next instruction goes.
#[derive(Debug)]
pub struct CodeGen {
    module: Module,
    variables: Table<Value>,
    functions: Table<usize>,
    cursor: Option<(usize, usize)>,
    foreign: Vec<String>,
    c_object_files: Vec<String>,
}

/// How a branch of a conditional ended.
struct BranchEnd {
    tail: usize,
    reaches: bool,
    scope: Table<Value>,
    value: Value,
}

impl View for BranchEnd {
    type V = Branch;

    closed spec fn view(&self) -> Branch {
        Branch { tail: self.tail, reaches: self.reaches, scope: self.scope@, value: self.value }
    }
}

/// The models of a list of names.
spec fn names_of(names: Seq<String>) -> Seq<Name> {
    names.map_values(|n: String| n@)
}

/// The incoming edges of a phi node at a join.
fn edges_of(then_end: &BranchEnd, then_value: Value, else_end: &BranchEnd, else_value: Value) -> (r:
    Vec<(Value, usize)>)
    ensures
        r@ == edges(
            then_end.reaches,
            then_value,
            then_end.tail,
            else_end.reaches,
            else_value,
            else_end.tail,
        ),
{
    let mut incoming: Vec<(Value, usize)> = Vec::new();
    if then_end.reaches {
        incoming.push((then_value, then_end.tail));
    }
    if else_end.reaches {
        incoming.push((else_value, else_end.tail));
    }
    assert(incoming@ =~= edges(
        then_end.reaches,
        then_value,
        then_end.tail,
        else_end.reaches,
        else_value,
        else_end.tail,
    ));
    incoming
}

/// The arithmetic operation that `op` denotes.
fn arithmetic_of(op: &String) -> (r: Option<BinOp>)
    ensures
        r == arithmetic(op@),
{
    if text_is(op, "+") {
        Some(BinOp::Add)
    } else if text_is(op, "-") {
        Some(BinOp::Sub)
    } else if text_is(op, "*") {
        Some(BinOp::Mul)
    } else if text_is(op, "/") {
        Some(BinOp::SDiv)
    } else {
        None
    }
}

/// The comparison that `op` denotes.
fn comparison_of(op: &String) -> (r: Option<Pred>)
    ensures
        r == comparison(op@),
{
    if text_is(op, ">") {
        Some(Pred::Sgt)
    } else if text_is(op, "<") {
        Some(Pred::Slt)
    } else if text_is(op, ">=") {
        Some(Pred::Sge)
    } else if text_is(op, "<=") {
        Some(Pred::Sle)
    } else if text_is(op, "==") {
        Some(Pred::Eq)
    } else if text_is(op, "!=") {
        Some(Pred::Ne)
    } else {
        None
    }
}

/// Whether `names` holds `name`.
fn holds_name(names: &Vec<String>, name: &String) -> (r: bool)
    ensures
        r == names@.map_values(|n: String| n@).contains(name@),
{
    let ghost model = names@.map_values(|n: String| n@);
    let mut i: usize = 0;
    while i < names.len()
        invariant
            i <= names.len(),
            model == names@.map_values(|n: String| n@),
            forall|j: int| 0 <= j < i ==> model[j] != name@,
        decreases names.len() - i,
    {
        if names[i] == *name {
            assert(model[i as int] == name@);
            return true;
        }
        i += 1;
    }
    false
}

/// Adds to `seen` the names of `branch` whose binding differs from their
/// binding in `base`, each name once.
fn collect_changed(branch: &Table<Value>, base: &Table<Value>, seen: &mut Vec<String>)
    ensures
        final(seen)@.map_values(|n: String| n@) == changed_names(
            branch@,
            base@,
            old(seen)@.map_values(|n: String| n@),
            0,
        ),
{
    let mut i: usize = 0;
    while i < branch.len()
        invariant
            i <= branch@.len(),
            changed_names(branch@, base@, old(seen)@.map_values(|n: String| n@), 0)
                == changed_names(branch@, base@, seen@.map_values(|n: String| n@), i as int),
        decreases branch@.len() - i,
    {
        let name = branch.name_at(i);
        let here = branch.lookup(name);
        let there = base.lookup(name);
        if here != there && !holds_name(seen, name) {
            let ghost before = seen@.map_values(|n: String| n@);
            let copy = name.clone();
            seen.push(copy);
            assert(seen@.map_values(|n: String| n@) =~= before.push(name@));
        }
        i += 1;
    }
}

impl View for CodeGen {
    type V = State;

    closed spec fn view(&self) -> State {
        State {
            module: self.module@,
            variables: self.variables@,
            functions: self.functions@,
            cursor: self.cursor,
            foreign: self.foreign@.map_values(|s: String| s@),
            objects: self.c_object_files@.map_values(|s: String| s@),
        }
    }
}

impl CodeGen {
    /// The cursor names a block of the module.
    pub open spec fn wf(&self) -> bool {
        self@.wf()
    }

    /// A code generator for a module called `module_name`. The module
    /// declares the formatted-output primitive.
    pub fn new(module_name: &str) -> (g: CodeGen)
        ensures
            g@ == initial(module_name@),
            g.wf(),
            lacks(g@.module, entry_name()),
    {
        proof {
            lemma_initial_lacks_entry(module_name@);
        }
        let mut module = Module::new(module_name.to_owned());
        module.add_function(String::from_str("printf"), FunctionKind::Output, 1);
        let g = CodeGen {
            module,
            variables: Table::new(),
            functions: Table::new(),
            cursor: None,
            foreign: Vec::new(),
            c_object_files: Vec::new(),
        };
        assert(g@.module.functions =~= initial(module_name@).module.functions);
        assert(g@.foreign =~= Seq::empty());
        assert(g@.objects =~= Seq::empty());
        g
    }

    /// Compiles a program into the module: compiles `expr`, which holds
    /// the definitions, then adds the process entry that calls the entry
    /// function.
    pub fn compile(&mut self, expr: &SeppoExpr) -> (r: Result<(), CompileError>)
        requires
            old(self).wf(),
        ensures
            final(self).wf(),
            compiles(old(self)@, expr@, r, final(self)@),
            lacks(old(self)@.module, entry_name()) && !defines(expr@, entry_name()) ==> r is Err && (
            generate(old(self)@, expr@) is Ok ==> r->Err_0@
                == CompileErrorView::MissingEntryPoint),
    {
        self.gen_expr(expr)?;
        let ghost generated = self@;
        let f = self.module.add_function(
            String::from_str("main"),
            FunctionKind::ProcessEntry,
            0,
        );
        proof {
            if lacks(old(self)@.module, entry_name()) && !defines(expr@, entry_name()) {
                lemma_reserved_names();
                assert forall|i: int| 0 <= i < self@.module.functions.len() implies (
                #[trigger] self@.module.functions[i]).name != entry_name() by {
                    if i < old(self)@.module.functions.len() {
                        assert(old(self)@.module.functions[i].name
                            == generated.module.functions[i].name);
                    } else if i < generated.module.functions.len() {
                        assert(defines(expr@, generated.module.functions[i].name));
                    }
                }
                lemma_lacks(self@.module, entry_name(), 0);
            }
        }
        match self.module.get_function(&String::from_str("seppo")) {
            Some(entry) => {
                let b = self.module.add_block(f, BlockKind::Entry);
                let result = self.module.push_instr(
                    f,
                    b,
                    Instr::Call { callee: entry, args: Vec::new() },
                );
                let result = self.module.push_instr(f, b, Instr::Trunc { value: result });
                self.module.push_instr(f, b, Instr::Ret { value: result });
                if self.module.verify() {
                    Ok(())
                } else {
                    Err(CompileError::InconsistentModule)
                }
            },
            None => Err(CompileError::MissingEntryPoint),
        }
    }

    /// The module built so far.
    pub fn get_module(&self) -> (m: &Module)
        ensures
            m@ == self@.module,
    {
        &self.module
    }

    /// The foreign blocks met so far, each as the text of the file to hand
    /// to the external compiler.
    pub fn foreign_sources(&self) -> (list: &Vec<String>)
        ensures
            list@.map_values(|s: String| s@) == self@.foreign,
    {
        &self.foreign
    }

    /// Records the path of the object file that the external compiler
    /// made of a foreign block.
    pub fn add_c_object_file(&mut self, path: String)
        requires
            old(self).wf(),
        ensures
            final(self).wf(),
            final(self)@ == (State { objects: old(self)@.objects.push(path@), ..old(self)@ }),
    {
        self.c_object_files.push(path);
        assert(self@.objects =~= old(self)@.objects.push(path@));
    }

    /// The paths recorded by `add_c_object_file`, in the order of the calls.
    pub fn c_object_files(&self) -> (list: &Vec<String>)
        ensures
            list@.map_values(|s: String| s@) == self@.objects,
    {
        &self.c_object_files
    }

    /// Appends `instr` at the cursor.
    fn place(&mut self, instr: Instr)
        requires
            old(self).wf(),
        ensures
            final(self).wf(),
            final(self)@ == old(self)@.place(instr@),
            final(self)@.continues(old(self)@),
    {
        match self.cursor {
            Some((f, b)) => {
                self.module.push_instr(f, b, instr);
            },
            None => {},
        }
    }

    /// Appends `instr` at the cursor and yields the value of its result.
    fn emit(&mut self, instr: Instr) -> (r: Result<Value, CompileError>)
        requires
            old(self).wf(),
        ensures
            final(self).wf(),
            r is Ok ==> final(self)@.continues(old(self)@),
            agrees(r, final(self)@, old(self)@.emit(instr@)),
    {
        match self.cursor {
            Some((f, b)) => Ok(self.module.push_instr(f, b, instr)),
            None => Err(CompileError::CodeOutsideFunction),
        }
    }

    /// Whether the block at the cursor ends in a terminator.
    fn terminated(&self) -> (r: bool)
        requires
            self.wf(),
        ensures
            r == self@.terminated(),
    {
        match self.cursor {
            Some((f, b)) => self.module.is_terminated(f, b),
            None => false,
        }
    }

    fn string_literal(&mut self, text: &String) -> (r: Result<Value, CompileError>)
        requires
            old(self).wf(),
        ensures
            final(self).wf(),
            r is Ok ==> final(self)@.continues(old(self)@),
            agrees(r, final(self)@, old(self)@.string_literal(text@)),
    {
        let address = self.module.add_global(text.clone());
        self.emit(Instr::PtrToInt { value: address })
    }

    fn variable(&mut self, name: &String) -> (r: Result<Value, CompileError>)
        requires
            old(self).wf(),
        ensures
            final(self).wf(),
            r is Ok ==> final(self)@.continues(old(self)@),
            agrees(r, final(self)@, old(self)@.variable(name@)),
    {
        match self.variables.lookup(name) {
            Some(slot) => self.emit(Instr::Load { slot }),
            None => Err(CompileError::UndefinedVariable(name.clone())),
        }
    }

    fn operation(&mut self, op: &String, lhs: Value, rhs: Value) -> (r: Result<
        Value,
        CompileError,
    >)
        requires
            old(self).wf(),
        ensures
            final(self).wf(),
            r is Ok ==> final(self)@.continues(old(self)@),
            agrees(r, final(self)@, old(self)@.operation(op@, lhs, rhs)),
    {
        match arithmetic_of(op) {
            Some(op) => self.emit(Instr::Binary { op, lhs, rhs }),
            None => match comparison_of(op) {
                Some(pred) => {
                    let bit = self.emit(Instr::Compare { pred, lhs, rhs })?;
                    self.emit(Instr::ZExt { value: bit })
                },
                None => Err(CompileError::UnknownOperator(op.clone())),
            },
        }
    }

    fn assignment(&mut self, name: &String, value: Value) -> (r: Result<Value, CompileError>)
        requires
            old(self).wf(),
        ensures
            final(self).wf(),
            r is Ok ==> final(self)@.continues(old(self)@),
            agrees(r, final(self)@, old(self)@.assignment(name@, value)),
    {
        let slot = match self.variables.lookup(name) {
            Some(slot) => slot,
            None => {
                let slot = self.emit(Instr::Alloca)?;
                self.variables.push(name.clone(), slot);
                slot
            },
        };
        self.emit(Instr::Store { slot, value })?;
        Ok(value)
    }

    fn print(&mut self, format: PrintFormat, value: Value) -> (r: Result<Value, CompileError>)
        requires
            old(self).wf(),
        ensures
            final(self).wf(),
            r is Ok ==> final(self)@.continues(old(self)@),
            agrees(r, final(self)@, old(self)@.print(format, value)),
    {
        let text = match format {
            PrintFormat::Hex => String::from_str("0x%lx\n"),
            PrintFormat::Decimal => String::from_str("%ld\n"),
        };
        let text = self.module.add_global(text);
        let mut args: Vec<Value> = Vec::new();
        args.push(text);
        args.push(value);
        assert(args@ =~= seq![text, value]);
        self.emit(Instr::Call { callee: 0, args })?;
        Ok(value)
    }

    fn ret(&mut self, value: Value) -> (r: Result<Value, CompileError>)
        requires
            old(self).wf(),
        ensures
            final(self).wf(),
            r is Ok ==> final(self)@.continues(old(self)@),
            agrees(r, final(self)@, old(self)@.ret(value)),
    {
        if self.cursor.is_some() {
            self.place(Instr::Ret { value });
            Ok(value)
        } else {
            Err(CompileError::ReturnOutsideFunction)
        }
    }

    fn call(&mut self, name: &String, args: Vec<Value>) -> (r: Result<Value, CompileError>)
        requires
            old(self).wf(),
        ensures
            final(self).wf(),
            r is Ok ==> final(self)@.continues(old(self)@),
            agrees(r, final(self)@, old(self)@.call(name@, args@)),
    {
        match self.functions.lookup(name) {
            Some(declared) => {
                let callee = match self.module.get_function(name) {
                    Some(first) => first,
                    None => declared,
                };
                self.emit(Instr::Call { callee, args })
            },
            None => Err(CompileError::UndefinedFunction(name.clone())),
        }
    }

    /// Adds a function without a body to the module and enters it in the
    /// symbol table.
    fn declare(&mut self, name: &String, arity: usize) -> (index: usize)
        requires
            old(self).wf(),
        ensures
            final(self).wf(),
            final(self)@.follows(old(self)@),
            final(self)@ == old(self)@.declare(name@, arity),
            index == old(self)@.module.functions.len(),
    {
        let index = self.module.add_function(name.clone(), FunctionKind::Plain, arity);
        self.functions.push(name.clone(), index);
        index
    }

    fn foreign_block(&mut self, code: &String)
        requires
            old(self).wf(),
        ensures
            final(self).wf(),
            final(self)@.follows(old(self)@),
            final(self)@ == old(self)@.foreign_block(code@),
            forall|j: int|
                old(self)@.module.functions.len() <= j < final(self)@.module.functions.len()
                    ==> declares(code@, (#[trigger] final(self)@.module.functions[j]).name),
    {
        let text = wrap_source(code.as_str());
        let ghost before = self@.foreign;
        self.foreign.push(text);
        assert(self@.foreign =~= before.push(text@));
        let found = scan_signatures(code.as_str());
        let ghost start = self@;
        let ghost signatures = signature_views(found@);
        let mut i: usize = 0;
        while i < found.len()
            invariant
                i <= found.len(),
                self.wf(),
                self@.follows(old(self)@),
                signatures == signature_views(found@),
                signatures == signatures_of(code@),
                start.declare_all(signatures, 0) == self@.declare_all(signatures, i as int),
                forall|j: int|
                    old(self)@.module.functions.len() <= j < self@.module.functions.len()
                        ==> declares(code@, (#[trigger] self@.module.functions[j]).name),
            decreases found.len() - i,
        {
            let ghost before = self@;
            self.declare(&found[i].name, found[i].arity);
            proof {
                assert(signatures[i as int].0 == found@[i as int].name@);
                assert forall|j: int|
                    old(self)@.module.functions.len() <= j
                        < self@.module.functions.len() implies declares(
                    code@,
                    (#[trigger] self@.module.functions[j]).name,
                ) by {
                    if j < before.module.functions.len() {
                        assert(before.module.functions[j].name == self@.module.functions[j].name);
                    } else {
                        assert(self@.module.functions[j].name == signatures_of(code@)[i as int].0);
                    }
                }
            }
            i += 1;
        }
    }

    fn open_function(&mut self, name: &String, params: &Vec<String>)
        requires
            old(self).wf(),
        ensures
            final(self).wf(),
            final(self)@ == old(self)@.open_function(name@, params@.map_values(|p: String| p@)),
            final(self)@.cursor is Some,
            old(self)@.module.functions.len() + 1 == final(self)@.module.functions.len(),
            final(self)@.module.functions[old(self)@.module.functions.len() as int].name == name@,
            forall|f: int|
                0 <= f < old(self)@.module.functions.len() ==> (
                #[trigger] final(self)@.module.functions[f]) == old(self)@.module.functions[f],
    {
        let ghost names = params@.map_values(|p: String| p@);
        let f = self.declare(name, params.len());
        self.module.add_block(f, BlockKind::Entry);
        self.variables = Table::new();
        self.cursor = Some((f, 0));
        let ghost start = self@;
        let mut i: usize = 0;
        while i < params.len()
            invariant
                i <= params.len(),
                self.wf(),
                self@.cursor == Some((f, 0usize)),
                names == params@.map_values(|p: String| p@),
                start.bind_parameters(names, 0) == self@.bind_parameters(names, i as int),
                self@.module.functions.len() == start.module.functions.len(),
                self@.module.functions[f as int].name == name@,
                forall|g: int|
                    0 <= g < f ==> (#[trigger] self@.module.functions[g])
                        == start.module.functions[g],
            decreases params.len() - i,
        {
            let slot = self.module.push_instr(f, 0, Instr::Alloca);
            self.module.push_instr(f, 0, Instr::Store { slot, value: Value::Param(i) });
            self.variables.push(params[i].clone(), slot);
            i += 1;
        }
    }

    fn close_function(&mut self, variables: Table<Value>, cursor: Option<(usize, usize)>)
        requires
            old(self).wf(),
            match cursor {
                Some((f, b)) => old(self)@.module.has_block(f as int, b as int),
                None => true,
            },
        ensures
            final(self).wf(),
            final(self)@ == old(self)@.close_function(
                State { variables: variables@, cursor, ..old(self)@ },
            ),
            final(self)@.module.functions.len() == old(self)@.module.functions.len(),
            forall|f: int|
                0 <= f < old(self)@.module.functions.len() ==> {
                    &&& (#[trigger] old(self)@.module.functions[f]).blocks.len()
                        <= final(self)@.module.functions[f].blocks.len()
                    &&& old(self)@.module.functions[f].name == final(self)@.module.functions[f].name
                },
    {
        if !self.terminated() {
            self.place(Instr::Ret { value: Value::Const(0) });
        }
        self.variables = variables;
        self.cursor = cursor;
    }

    /// Starts a conditional on a compiled condition.
    fn fork(&mut self, condition: Value) -> (r: Result<Fork, CompileError>)
        requires
            old(self).wf(),
        ensures
            final(self).wf(),
            r is Ok ==> final(self)@.continues(old(self)@),
            match old(self)@.fork(condition) {
                Ok((st, fork)) => r is Ok && r->Ok_0 == fork && final(self)@ == st,
                Err(e) => r is Err && r->Err_0@ == e,
            },
            r is Ok ==> {
                let fork = r->Ok_0;
                &&& final(self)@.cursor == Some((fork.function, fork.then_block))
                &&& final(self)@.module.has_block(fork.function as int, fork.then_block as int)
                &&& final(self)@.module.has_block(fork.function as int, fork.else_block as int)
                &&& final(self)@.module.has_block(fork.function as int, fork.merge_block as int)
            },
    {
        let bit = self.emit(
            Instr::Compare { pred: Pred::Ne, lhs: condition, rhs: Value::Const(0) },
        )?;
        match self.cursor {
            Some((f, b)) => {
                let then_block = self.module.add_block(f, BlockKind::Then);
                let else_block = self.module.add_block(f, BlockKind::Else);
                let merge_block = self.module.add_block(f, BlockKind::Merge);
                self.module.push_instr(
                    f,
                    b,
                    Instr::CondBr { cond: bit, then_target: then_block, else_target: else_block },
                );
                self.cursor = Some((f, then_block));
                Ok(Fork { function: f, then_block, else_block, merge_block })
            },
            None => Err(CompileError::CodeOutsideFunction),
        }
    }

    /// Records how the branch that has just been compiled ended, and puts
    /// the scope back to `base`.
    fn leave_branch(&mut self, value: Value, base: &Table<Value>) -> (end: BranchEnd)
        requires
            old(self).wf(),
            old(self)@.cursor is Some,
        ensures
            final(self).wf(),
            end@ == old(self)@.end_of_branch(value),
            final(self)@ == (State { variables: base@, ..old(self)@ }),
    {
        let reaches = !self.terminated();
        let tail = match self.cursor {
            Some((_, b)) => b,
            None => 0,
        };
        let mut scope = base.duplicate();
        core::mem::swap(&mut self.variables, &mut scope);
        BranchEnd { tail, reaches, scope, value }
    }

    /// Closes a branch that reaches the join: reads the values of `names`
    /// at its end and passes control to the join.
    fn close_branch(&mut self, fork: &Fork, end: &BranchEnd, names: &Vec<String>) -> (values: Vec<
        Value,
    >)
        requires
            old(self)@.module.has_block(fork.function as int, end.tail as int),
            old(self)@.module.has_block(fork.function as int, fork.merge_block as int),
        ensures
            (final(self)@.module, values@) == close_branch(
                old(self)@.module,
                end.reaches,
                fork.function,
                end.tail,
                fork.merge_block,
                names_of(names@),
                end.scope@,
            ),
            final(self)@ == (State { module: final(self)@.module, ..old(self)@ }),
            final(self)@.module.functions.len() == old(self)@.module.functions.len(),
            forall|f: int|
                0 <= f < old(self)@.module.functions.len() ==> {
                    &&& (#[trigger] old(self)@.module.functions[f]).blocks.len()
                        == final(self)@.module.functions[f].blocks.len()
                    &&& old(self)@.module.functions[f].name == final(self)@.module.functions[f].name
                },
            end.reaches ==> values@.len() == names@.len(),
    {
        let mut values: Vec<Value> = Vec::new();
        if end.reaches {
            let ghost start = self@.module;
            let mut k: usize = 0;
            while k < names.len()
                invariant
                    k <= names.len(),
                    values@.len() == k,
                    self@ == (State { module: self@.module, ..old(self)@ }),
                    self@.module.has_block(fork.function as int, end.tail as int),
                    self@.module.functions.len() == start.functions.len(),
                    forall|f: int|
                        0 <= f < start.functions.len() ==> {
                            &&& (#[trigger] start.functions[f]).blocks.len()
                                == self@.module.functions[f].blocks.len()
                            &&& start.functions[f].name == self@.module.functions[f].name
                        },
                    tail_values(
                        start,
                        fork.function,
                        end.tail,
                        names_of(names@),
                        end.scope@,
                        Seq::empty(),
                        0,
                    ) == tail_values(
                        self@.module,
                        fork.function,
                        end.tail,
                        names_of(names@),
                        end.scope@,
                        values@,
                        k as int,
                    ),
                decreases names.len() - k,
            {
                match end.scope.lookup(&names[k]) {
                    Some(slot) => {
                        let value = self.module.push_instr(
                            fork.function,
                            end.tail,
                            Instr::Load { slot },
                        );
                        values.push(value);
                    },
                    None => {
                        values.push(Value::Const(0));
                    },
                }
                k += 1;
            }
            self.module.push_instr(fork.function, end.tail, Instr::Br { target: fork.merge_block });
        }
        values
    }

    /// Ends a conditional.
    fn join(&mut self, base: Table<Value>, fork: &Fork, then_end: BranchEnd, else_end: BranchEnd)
        -> (value: Value)
        requires
            old(self)@.module.has_block(fork.function as int, then_end.tail as int),
            old(self)@.module.has_block(fork.function as int, else_end.tail as int),
            old(self)@.module.has_block(fork.function as int, fork.merge_block as int),
        ensures
            final(self).wf(),
            (final(self)@, value) == join(old(self)@, base@, *fork, then_end@, else_end@),
            final(self)@.module.functions.len() == old(self)@.module.functions.len(),
            forall|f: int|
                0 <= f < old(self)@.module.functions.len() ==> {
                    &&& (#[trigger] old(self)@.module.functions[f]).blocks.len()
                        == final(self)@.module.functions[f].blocks.len()
                    &&& old(self)@.module.functions[f].name == final(self)@.module.functions[f].name
                },
    {
        let mut names: Vec<String> = Vec::new();
        assert(names_of(names@) =~= Seq::empty());
        collect_changed(&then_end.scope, &base, &mut names);
        collect_changed(&else_end.scope, &base, &mut names);
        let then_values = self.close_branch(fork, &then_end, &names);
        let ghost closed_then = self@.module;
        let else_values = self.close_branch(fork, &else_end, &names);
        let ghost closed = self@.module;
        let ghost phis = closed;
        let ghost stores = closed;
        let mut value = Value::Const(0);
        if then_end.reaches || else_end.reaches {
            let ghost start = self@.module;
            let mut merged: Vec<Value> = Vec::new();
            let mut k: usize = 0;
            while k < names.len()
                invariant
                    k <= names.len(),
                    merged@.len() == k,
                    self@ == (State { module: self@.module, ..old(self)@ }),
                    self@.module.has_block(fork.function as int, fork.merge_block as int),
                    self@.module.functions.len() == start.functions.len(),
                    forall|f: int|
                        0 <= f < start.functions.len() ==> {
                            &&& (#[trigger] start.functions[f]).blocks.len()
                                == self@.module.functions[f].blocks.len()
                            &&& start.functions[f].name == self@.module.functions[f].name
                        },
                    then_end.reaches ==> then_values@.len() == names@.len(),
                    else_end.reaches ==> else_values@.len() == names@.len(),
                    name_phis(
                        start,
                        *fork,
                        then_end.reaches,
                        then_values@,
                        then_end.tail,
                        else_end.reaches,
                        else_values@,
                        else_end.tail,
                        names@.len() as int,
                        Seq::empty(),
                        0,
                    ) == name_phis(
                        self@.module,
                        *fork,
                        then_end.reaches,
                        then_values@,
                        then_end.tail,
                        else_end.reaches,
                        else_values@,
                        else_end.tail,
                        names@.len() as int,
                        merged@,
                        k as int,
                    ),
                decreases names.len() - k,
            {
                let then_value = if then_end.reaches {
                    then_values[k]
                } else {
                    Value::Const(0)
                };
                let else_value = if else_end.reaches {
                    else_values[k]
                } else {
                    Value::Const(0)
                };
                let incoming = edges_of(&then_end, then_value, &else_end, else_value);
                assert(incoming@ =~= edges(
                    then_end.reaches,
                    then_values@[k as int],
                    then_end.tail,
                    else_end.reaches,
                    else_values@[k as int],
                    else_end.tail,
                ));
                let phi = self.module.push_instr(
                    fork.function,
                    fork.merge_block,
                    Instr::Phi { incoming },
                );
                merged.push(phi);
                k += 1;
            }
            proof {
                phis = self@.module;
            }
            let incoming = edges_of(&then_end, then_end.value, &else_end, else_end.value);
            value = self.module.push_instr(fork.function, fork.merge_block, Instr::Phi { incoming });
            let ghost start = self@.module;
            proof {
                stores = start;
            }
            let mut k: usize = 0;
            while k < names.len()
                invariant
                    k <= names.len(),
                    merged@.len() == names@.len(),
                    self@ == (State { module: self@.module, ..old(self)@ }),
                    self@.module.has_block(fork.function as int, fork.merge_block as int),
                    self@.module.functions.len() == start.functions.len(),
                    forall|f: int|
                        0 <= f < start.functions.len() ==> {
                            &&& (#[trigger] start.functions[f]).blocks.len()
                                == self@.module.functions[f].blocks.len()
                            &&& start.functions[f].name == self@.module.functions[f].name
                        },
                    store_merged(start, *fork, names_of(names@), merged@, base@, 0) == store_merged(
                        self@.module,
                        *fork,
                        names_of(names@),
                        merged@,
                        base@,
                        k as int,
                    ),
                decreases names.len() - k,
            {
                match base.lookup(&names[k]) {
                    Some(slot) => {
                        self.module.push_instr(
                            fork.function,
                            fork.merge_block,
                            Instr::Store { slot, value: merged[k] },
                        );
                    },
                    None => {},
                }
                k += 1;
            }
        }
        proof {
            assert forall|f: int| 0 <= f < old(self)@.module.functions.len() implies {
                &&& (#[trigger] old(self)@.module.functions[f]).blocks.len()
                    == self@.module.functions[f].blocks.len()
                &&& old(self)@.module.functions[f].name == self@.module.functions[f].name
            } by {
                assert(closed_then.functions[f].name == closed.functions[f].name);
                assert(closed.functions[f].name == phis.functions[f].name);
                assert(phis.functions[f].blocks.len() == stores.functions[f].blocks.len());
                assert(stores.functions[f].name == self@.module.functions[f].name);
            }
        }
        self.variables = base;
        self.cursor = Some((fork.function, fork.merge_block));
        value
    }

    /// Compiles one node and yields the value that it produces: zero for
    /// a node that produces none.
    pub fn gen_expr(&mut self, expr: &SeppoExpr) -> (r: Result<Value, CompileError>)
        requires
            old(self).wf(),
        ensures
            final(self).wf(),
            r is Ok ==> final(self)@.follows(old(self)@),
            r is Ok ==> only_adds(old(self)@.module, final(self)@.module, expr@),
            agrees(r, final(self)@, generate(old(self)@, expr@)),
        decreases expr, 1nat,
    {
        match expr {
            SeppoExpr::Number(n) => Ok(Value::Const(*n)),
            SeppoExpr::String(text) => self.string_literal(text),
            SeppoExpr::Variable(name) => self.variable(name),
            SeppoExpr::Operation(op, left, right) => {
                let lhs = self.gen_expr(left)?;
                let rhs = self.gen_expr(right)?;
                self.operation(op, lhs, rhs)
            },
            SeppoExpr::Assignment(name, value) => {
                let value = self.gen_expr(value)?;
                self.assignment(name, value)
            },
            SeppoExpr::Print(format, value) => {
                let value = self.gen_expr(value)?;
                self.print(*format, value)
            },
            SeppoExpr::Block(items) => self.gen_block(items),
            SeppoExpr::Function(..) => self.gen_function(expr),
            SeppoExpr::FunctionCall(name, args) => {
                let values = self.gen_arguments(args)?;
                self.call(name, values)
            },
            SeppoExpr::Return(value) => {
                let value = self.gen_expr(value)?;
                self.ret(value)
            },
            SeppoExpr::InlineC(code) => {
                self.foreign_block(code);
                Ok(Value::Const(0))
            },
            SeppoExpr::Conditional { .. } => self.gen_conditional(expr),
        }
    }

    /// Compiles a function definition.
    fn gen_function(&mut self, expr: &SeppoExpr) -> (r: Result<Value, CompileError>)
        requires
            old(self).wf(),
            expr is Function,
        ensures
            final(self).wf(),
            r is Ok ==> final(self)@.follows(old(self)@),
            r is Ok ==> only_adds(old(self)@.module, final(self)@.module, expr@),
            agrees(r, final(self)@, generate(old(self)@, expr@)),
        decreases expr, 0nat,
    {
        match expr {
            SeppoExpr::Function(name, params, body) => {
                let cursor = self.cursor;
                let variables = self.variables.duplicate();
                self.open_function(name, params);
                let ghost opened = self@;
                self.gen_expr(body)?;
                let ghost inner = self@;
                proof {
                    assert forall|f: int| 0 <= f < old(self)@.module.functions.len() implies {
                        &&& (#[trigger] old(self)@.module.functions[f]).blocks.len()
                            <= inner.module.functions[f].blocks.len()
                        &&& old(self)@.module.functions[f].name == inner.module.functions[f].name
                    } by {
                        assert(opened.module.functions[f] == old(self)@.module.functions[f]);
                    }
                    if let Some((f, b)) = cursor {
                        assert(old(self)@.module.functions[f as int].blocks.len()
                            <= inner.module.functions[f as int].blocks.len());
                    }
                }
                self.close_function(variables, cursor);
                proof {
                    assert forall|f: int| 0 <= f < old(self)@.module.functions.len() implies {
                        &&& (#[trigger] old(self)@.module.functions[f]).blocks.len()
                            <= self@.module.functions[f].blocks.len()
                        &&& old(self)@.module.functions[f].name == self@.module.functions[f].name
                    } by {
                        assert(inner.module.functions[f].blocks.len()
                            <= self@.module.functions[f].blocks.len());
                    }
                }
                Ok(Value::Const(0))
            },
            _ => Ok(Value::Const(0)),
        }
    }

    /// Compiles a conditional.
    fn gen_conditional(&mut self, expr: &SeppoExpr) -> (r: Result<Value, CompileError>)
        requires
            old(self).wf(),
            expr is Conditional,
        ensures
            final(self).wf(),
            r is Ok ==> final(self)@.follows(old(self)@),
            r is Ok ==> only_adds(old(self)@.module, final(self)@.module, expr@),
            agrees(r, final(self)@, generate(old(self)@, expr@)),
        decreases expr, 0nat,
    {
        match expr {
            SeppoExpr::Conditional { condition: condition_expr, true_block, false_block } => {
                if self.cursor.is_none() {
                    return Err(CompileError::ConditionalOutsideFunction);
                }
                let condition = self.gen_expr(condition_expr)?;
                let ghost conditioned = self@;
                let fork = self.fork(condition)?;
                let ghost forked = self@;
                let base = self.variables.duplicate();
                let then_value = self.gen_expr(true_block)?;
                let ghost after_then = self@;
                let then_end = self.leave_branch(then_value, &base);
                self.cursor = Some((fork.function, fork.else_block));
                proof {
                    assert(forked.module.functions[fork.function as int].blocks.len()
                        <= after_then.module.functions[fork.function as int].blocks.len());
                    assert(self@ == after_then.enter_else(base@, fork));
                }
                let ghost entered = self@;
                let else_value = match false_block {
                    Some(false_block) => self.gen_expr(false_block)?,
                    None => Value::Const(0),
                };
                let ghost after_else = self@;
                let else_end = self.leave_branch(else_value, &base);
                proof {
                    assert(entered.module.functions[fork.function as int].blocks.len()
                        <= after_else.module.functions[fork.function as int].blocks.len());
                }
                let value = self.join(base, &fork, then_end, else_end);
                proof {
                    assert forall|f: int| 0 <= f < old(self)@.module.functions.len() implies {
                        &&& (#[trigger] old(self)@.module.functions[f]).blocks.len()
                            <= self@.module.functions[f].blocks.len()
                        &&& old(self)@.module.functions[f].name == self@.module.functions[f].name
                    } by {
                        assert(forked.module.functions[f].blocks.len()
                            <= after_then.module.functions[f].blocks.len());
                        assert(entered.module.functions[f].blocks.len()
                            <= after_else.module.functions[f].blocks.len());
                        assert(after_else.module.functions[f].blocks.len()
                            <= self@.module.functions[f].blocks.len());
                    }
                    assert forall|j: int|
                        old(self)@.module.functions.len() <= j
                            < self@.module.functions.len() implies defines(
                        expr@,
                        (#[trigger] self@.module.functions[j]).name,
                    ) by {
                        let name = self@.module.functions[j].name;
                        assert(after_else.module.functions[j].name == name);
                        if j < conditioned.module.functions.len() {
                            assert(conditioned.module.functions[j].name
                                == forked.module.functions[j].name);
                            assert(forked.module.functions[j].name
                                == after_then.module.functions[j].name);
                            assert(entered.module.functions[j].name
                                == after_else.module.functions[j].name);
                            assert(defines(condition_expr@, name));
                        } else if j < after_then.module.functions.len() {
                            assert(entered.module.functions[j].name
                                == after_else.module.functions[j].name);
                            assert(defines(true_block@, name));
                        } else {
                            assert(false_block is Some);
                            assert(defines(false_block->0@, name));
                        }
                    }
                }
                Ok(value)
            },
            _ => Ok(Value::Const(0)),
        }
    }

    /// Compiles the items of a block in order and stops after a return.
    fn gen_block(&mut self, items: &Vec<SeppoExpr>) -> (r: Result<Value, CompileError>)
        requires
            old(self).wf(),
        ensures
            final(self).wf(),
            r is Ok ==> final(self)@.follows(old(self)@),
            r is Ok ==> only_adds_from(old(self)@.module, final(self)@.module, models_of(items@)),
            agrees(
                r,
                final(self)@,
                generate_block(old(self)@, models_of(items@), 0, Value::Const(0)),
            ),
        decreases items, 2nat,
    {
        let mut last = Value::Const(0);
        let mut i: usize = 0;
        while i < items.len()
            invariant
                i <= items.len(),
                self.wf(),
                self@.follows(old(self)@),
                only_adds_from(old(self)@.module, self@.module, models_of(items@)),
                generate_block(old(self)@, models_of(items@), 0, Value::Const(0))
                    == generate_block(self@, models_of(items@), i as int, last),
            decreases items.len() - i,
        {
            let ghost before = self@;
            let value = self.gen_expr(&items[i])?;
            proof {
                assert forall|j: int|
                    old(self)@.module.functions.len() <= j
                        < self@.module.functions.len() implies defines_from(
                    models_of(items@),
                    (#[trigger] self@.module.functions[j]).name,
                    0,
                ) by {
                    if j < before.module.functions.len() {
                        assert(before.module.functions[j].name == self@.module.functions[j].name);
                    } else {
                        lemma_defines_item(
                            models_of(items@),
                            self@.module.functions[j].name,
                            i as int,
                            0,
                        );
                    }
                }
            }
            if let SeppoExpr::Return(_) = &items[i] {
                return Ok(value);
            }
            last = value;
            i += 1;
        }
        Ok(last)
    }

    /// Compiles the arguments of a call from left to right.
    fn gen_arguments(&mut self, args: &Vec<SeppoExpr>) -> (r: Result<Vec<Value>, CompileError>)
        requires
            old(self).wf(),
        ensures
            final(self).wf(),
            r is Ok ==> final(self)@.follows(old(self)@),
            r is Ok ==> only_adds_from(old(self)@.module, final(self)@.module, models_of(args@)),
            match generate_arguments(old(self)@, models_of(args@), 0, Seq::empty()) {
                Ok((st, values)) => r is Ok && r->Ok_0@ == values && final(self)@ == st,
                Err(e) => r is Err && r->Err_0@ == e,
            },
        decreases args, 2nat,
    {
        let mut values: Vec<Value> = Vec::new();
        let mut i: usize = 0;
        while i < args.len()
            invariant
                i <= args.len(),
                self.wf(),
                self@.follows(old(self)@),
                only_adds_from(old(self)@.module, self@.module, models_of(args@)),
                generate_arguments(old(self)@, models_of(args@), 0, Seq::empty())
                    == generate_arguments(self@, models_of(args@), i as int, values@),
            decreases args.len() - i,
        {
            let ghost before = self@;
            let value = self.gen_expr(&args[i])?;
            proof {
                assert forall|j: int|
                    old(self)@.module.functions.len() <= j
                        < self@.module.functions.len() implies defines_from(
                    models_of(args@),
                    (#[trigger] self@.module.functions[j]).name,
                    0,
                ) by {
                    if j < before.module.functions.len() {
                        assert(before.module.functions[j].name == self@.module.functions[j].name);
                    } else {
                        lemma_defines_item(
                            models_of(args@),
                            self@.module.functions[j].name,
                            i as int,
                            0,
                        );
                    }
                }
            }
            values.push(value);
            i += 1;
        }
        Ok(values)
    }
}

} // verus!
