//! What holds of every program of a given shape once it is compiled and
//! run, and what holds of compilation itself.

use crate::error::CompileErrorView;
use crate::ir::FunctionKind;
use crate::ir::InstrView;
use crate::ir::ModuleView;
use crate::ir::Value;
use crate::ir::find_function_from;
use crate::model::State;
use crate::model::compiles;
use crate::model::entry_name;
use crate::model::generate;
use crate::model::generate_block;
use crate::model::initial;
use crate::model::lemma_reserved_names;
use crate::model::output_name;
use crate::model::process_entry_name;
use crate::model::with_process_entry;
use crate::scope::Name;
use crate::semantics::Finished;
use crate::semantics::call;
use crate::semantics::holds;
use crate::semantics::run;
use crate::types::Expr;
use vstd::prelude::*;

pub mod arithmetic;
pub mod branch;
pub mod meaning;
pub mod outcome;
pub mod scope;
pub mod shape;
pub mod syntax;

verus! {

/// The program that defines the entry function with `body` and nothing
/// else.
pub open spec fn entry_program(body: Seq<Expr>) -> Expr {
    Expr::Block(seq![Expr::Function(entry_name(), Seq::empty(), Box::new(Expr::Block(body)))])
}

/// A run that returns `value` and prints nothing.
pub open spec fn silent(value: i64) -> Option<Finished> {
    Some((value, Seq::empty()))
}

/// What a run of the entry function of `module` yields, given `fuel`.
pub open spec fn entry_result(module: ModuleView, fuel: nat) -> Option<Finished> {
    match module.find_function(entry_name()) {
        Some(entry) => call(module, entry, Seq::empty(), Seq::empty(), fuel),
        None => None,
    }
}

/// The state in which the body of the entry function of `entry_program`
/// is compiled, starting from a new code generator.
pub open spec fn at_entry(name: Name) -> State {
    initial(name).open_function(entry_name(), Seq::empty())
}

/// What the state at the start of the body of the entry function holds.
pub(crate) proof fn lemma_at_entry(name: Name)
    ensures
        at_entry(name).cursor == Some((1usize, 0usize)),
        at_entry(name).variables == Seq::<(Name, Value)>::empty(),
        at_entry(name).module.functions.len() == 2,
        at_entry(name).module.functions[1].blocks.len() == 1,
        at_entry(name).module.functions[1].blocks[0].instrs.len() == 0,
        at_entry(name).module.functions[1].kind == FunctionKind::Plain,
        at_entry(name).module.functions[1].arity == 0,
        at_entry(name).module.functions[1].name == entry_name(),
        at_entry(name).module.functions[0] == initial(name).module.functions[0],
        at_entry(name).module.globals.len() == 0,
{
    let st = initial(name);
    let declared = st.declare(entry_name(), 0);
    assert(Seq::<Name>::empty().len() == 0);
}

/// The entry function with `body` compiles as its body does.
pub(crate) proof fn lemma_entry_program(name: Name, body: Seq<Expr>, inner: State, value: Value)
    requires
        generate_block(at_entry(name), body, 0, Value::Const(0)) == Ok::<
            (State, Value),
            CompileErrorView,
        >((inner, value)),
    ensures
        generate(initial(name), entry_program(body)) == Ok::<(State, Value), CompileErrorView>(
            (inner.close_function(initial(name)), Value::Const(0)),
        ),
{
    let st0 = initial(name);
    let closed = inner.close_function(st0);
    let definition = Expr::Function(entry_name(), Seq::empty(), Box::new(Expr::Block(body)));
    assert(generate(at_entry(name), Expr::Block(body)) == Ok::<(State, Value), CompileErrorView>(
        (inner, value),
    ));
    assert(generate(st0, definition) == Ok::<(State, Value), CompileErrorView>(
        (closed, Value::Const(0)),
    ));
    let items = seq![definition];
    assert(items[0] == definition);
    assert(generate_block(closed, items, 1, Value::Const(0)) == Ok::<
        (State, Value),
        CompileErrorView,
    >((closed, Value::Const(0))));
    assert(generate_block(st0, items, 0, Value::Const(0)) == Ok::<
        (State, Value),
        CompileErrorView,
    >((closed, Value::Const(0))));
}

/// What the process entry adds to a module that holds the
/// formatted-output primitive and the entry function.
pub(crate) proof fn lemma_process_entry(module: ModuleView)
    requires
        module.functions.len() == 2,
        module.functions[0].name == output_name(),
        module.functions[0].blocks.len() == 0,
        module.functions[1].name == entry_name(),
        module.functions[1].kind == FunctionKind::Plain,
        module.functions[1].arity == 0,
    ensures
        module.add_function(
            process_entry_name(),
            FunctionKind::ProcessEntry,
            0,
        ).find_function(entry_name()) == Some(1int),
        with_process_entry(module, 1).find_function(entry_name()) == Some(1int),
        with_process_entry(module, 1).functions.len() == 3,
        with_process_entry(module, 1).functions[0] == module.functions[0],
        with_process_entry(module, 1).functions[1] == module.functions[1],
        with_process_entry(module, 1).globals == module.globals,
        with_process_entry(module, 1).function_ok(0),
        with_process_entry(module, 1).function_ok(2),
{
    lemma_reserved_names();
    let declared = module.add_function(process_entry_name(), FunctionKind::ProcessEntry, 0);
    reveal_with_fuel(find_function_from, 3);
    assert(declared.find_function(entry_name()) == Some(1int));
    let m = with_process_entry(module, 1);
    assert(m.functions[0] == module.functions[0]);
    assert(m.functions[1] == module.functions[1]);
    assert(m.find_function(entry_name()) == Some(1int));
    let instrs = m.functions[2].blocks[0].instrs;
    assert(instrs.len() == 3);
    assert(instrs[0] == InstrView::Call { callee: 1, args: Seq::empty() });
    assert(instrs[1] == InstrView::Trunc { value: Value::Inst(0, 0) });
    assert(instrs[2] == InstrView::Ret { value: Value::Inst(0, 1) });
    assert(m.position_ok(2, 0, 0));
    assert(m.position_ok(2, 0, 1));
    assert(m.position_ok(2, 0, 2));
    assert(m.block_ok(2, 0));
}

} // verus!
