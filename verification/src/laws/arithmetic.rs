//! Arithmetic and comparison of constants.

use crate::error::CompileErrorView;
use crate::ir::BinOp;
use crate::ir::InstrView;
use crate::ir::ModuleView;
use crate::ir::Pred;
use crate::ir::Value;
use crate::laws::at_entry;
use crate::laws::entry_program;
use crate::laws::entry_result;
use crate::laws::lemma_at_entry;
use crate::laws::lemma_entry_program;
use crate::laws::lemma_process_entry;
use crate::laws::silent;
use crate::model::State;
use crate::model::arithmetic;
use crate::model::comparison;
use crate::model::compile;
use crate::model::compiles;
use crate::model::generate;
use crate::model::generate_block;
use crate::model::initial;
use crate::model::lemma_operators_differ;
use crate::model::with_process_entry;
use crate::scope::Name;
use crate::semantics::Frame;
use crate::semantics::arithmetic_result;
use crate::semantics::call;
use crate::semantics::holds;
use crate::semantics::run;
use crate::semantics::truth;
use crate::types::Expr;
use vstd::prelude::*;

verus! {

/// What a function made of one arithmetic instruction and the return of
/// its result computes.
proof fn lemma_run_arithmetic(module: ModuleView, op: BinOp, a: i64, b: i64, fuel: nat)
    requires
        module.functions.len() > 1,
        module.functions[1].blocks.len() == 1,
        module.functions[1].blocks[0].instrs == seq![
            InstrView::Binary { op, lhs: Value::Const(a), rhs: Value::Const(b) },
            InstrView::Ret { value: Value::Inst(0, 0) },
        ],
        fuel >= 3,
    ensures
        call(module, 1, Seq::empty(), Seq::empty(), fuel) == match arithmetic_result(op, a, b) {
            Some(v) => silent(v),
            None => None,
        },
{
    let instrs = module.functions[1].blocks[0].instrs;
    assert(instrs[0] == InstrView::Binary { op, lhs: Value::Const(a), rhs: Value::Const(b) });
    assert(instrs[1] == InstrView::Ret { value: Value::Inst(0, 0) });
    let start = Frame::start(Seq::empty(), Seq::empty());
    let rest = (fuel - 1) as nat;
    assert(call(module, 1, Seq::empty(), Seq::empty(), fuel) == run(module, 1, start, 0, 0, None, rest));
    match arithmetic_result(op, a, b) {
        Some(v) => {
            let frame = start.set((0usize, 0usize), v);
            assert(run(module, 1, frame, 0, 1, None, (rest - 1) as nat) == silent(v));
            assert(run(module, 1, start, 0, 0, None, rest) == silent(v));
        },
        None => {
            assert(run(module, 1, start, 0, 0, None, rest) is None);
        },
    }
}

/// Arithmetic: a program whose entry function returns `a op b`, for an
/// arithmetic operator `op` and any two constants, with `b` not zero if
/// the operator is the division, compiles, and its entry function
/// returns the 64-bit result of the operation.
pub proof fn law_arithmetic(name: Name, op: Name, a: i64, b: i64, fuel: nat)
    requires
        arithmetic(op) is Some,
        arithmetic(op) == Some(BinOp::SDiv) ==> b != 0,
        fuel >= 3,
    ensures
        compile(
            initial(name),
            entry_program(
                seq![
                    Expr::Return(
                        Box::new(
                            Expr::Operation(
                                op,
                                Box::new(Expr::Number(a)),
                                Box::new(Expr::Number(b)),
                            ),
                        ),
                    ),
                ],
            ),
        ) is Ok,
        entry_result(
            compile(
                initial(name),
                entry_program(
                    seq![
                        Expr::Return(
                            Box::new(
                                Expr::Operation(
                                    op,
                                    Box::new(Expr::Number(a)),
                                    Box::new(Expr::Number(b)),
                                ),
                            ),
                        ),
                    ],
                ),
            )->Ok_0.module,
            fuel,
        ) == match arithmetic_result(arithmetic(op)->0, a, b) {
            Some(v) => silent(v),
            None => None,
        },
{
    let operation = Expr::Operation(op, Box::new(Expr::Number(a)), Box::new(Expr::Number(b)));
    let statement = Expr::Return(Box::new(operation));
    let body = seq![statement];
    let program = entry_program(body);
    let st0 = initial(name);
    let st1 = at_entry(name);
    lemma_at_entry(name);
    let bop = arithmetic(op)->0;
    let st2 = st1.place(InstrView::Binary { op: bop, lhs: Value::Const(a), rhs: Value::Const(b) });
    let st3 = st2.place(InstrView::Ret { value: Value::Inst(0, 0) });
    assert(generate(st1, Expr::Number(a)) == Ok::<(State, Value), CompileErrorView>(
        (st1, Value::Const(a)),
    ));
    assert(generate(st1, Expr::Number(b)) == Ok::<(State, Value), CompileErrorView>(
        (st1, Value::Const(b)),
    ));
    assert(generate(st1, operation) == Ok::<(State, Value), CompileErrorView>(
        (st2, Value::Inst(0, 0)),
    ));
    assert(generate(st1, statement) == Ok::<(State, Value), CompileErrorView>(
        (st3, Value::Inst(0, 0)),
    ));
    assert(body[0] == statement);
    assert(generate_block(st1, body, 0, Value::Const(0)) == Ok::<(State, Value), CompileErrorView>(
        (st3, Value::Inst(0, 0)),
    ));
    lemma_entry_program(name, body, st3, Value::Inst(0, 0));
    let closed = st3.close_function(st0);
    let instrs = st3.module.functions[1].blocks[0].instrs;
    assert(instrs =~= seq![
        InstrView::Binary { op: bop, lhs: Value::Const(a), rhs: Value::Const(b) },
        InstrView::Ret { value: Value::Inst(0, 0) },
    ]);
    assert(st3.terminated());
    assert(closed.module == st3.module);
    lemma_process_entry(closed.module);
    let m = with_process_entry(closed.module, 1);
    assert(m.position_ok(1, 0, 0));
    assert(m.position_ok(1, 0, 1));
    assert(m.block_ok(1, 0));
    assert(m.function_ok(1));
    assert(m.consistent());
    lemma_run_arithmetic(m, bop, a, b, fuel);
}

/// What a function made of one comparison, its zero-extension and the
/// return of that computes.
proof fn lemma_run_comparison(module: ModuleView, pred: Pred, a: i64, b: i64, fuel: nat)
    requires
        module.functions.len() > 1,
        module.functions[1].blocks.len() == 1,
        module.functions[1].blocks[0].instrs == seq![
            InstrView::Compare { pred, lhs: Value::Const(a), rhs: Value::Const(b) },
            InstrView::ZExt { value: Value::Inst(0, 0) },
            InstrView::Ret { value: Value::Inst(0, 1) },
        ],
        fuel >= 4,
    ensures
        call(module, 1, Seq::empty(), Seq::empty(), fuel) == silent(truth(pred, a, b)),
{
    let instrs = module.functions[1].blocks[0].instrs;
    assert(instrs[0] == InstrView::Compare { pred, lhs: Value::Const(a), rhs: Value::Const(b) });
    assert(instrs[1] == InstrView::ZExt { value: Value::Inst(0, 0) });
    assert(instrs[2] == InstrView::Ret { value: Value::Inst(0, 1) });
    let v = truth(pred, a, b);
    let start = Frame::start(Seq::empty(), Seq::empty());
    let first = start.set((0usize, 0usize), v);
    let second = first.set((0usize, 1usize), v);
    let rest = (fuel - 1) as nat;
    assert(call(module, 1, Seq::empty(), Seq::empty(), fuel) == run(module, 1, start, 0, 0, None, rest));
    assert(run(module, 1, second, 0, 2, None, (rest - 2) as nat) == silent(v));
    assert(run(module, 1, first, 0, 1, None, (rest - 1) as nat) == silent(v));
    assert(run(module, 1, start, 0, 0, None, rest) == silent(v));
}

/// Comparison: a program whose entry function returns `a op b`, for a
/// comparison operator `op` and any two constants, compiles, and its
/// entry function returns one if the comparison holds of the two as
/// signed 64-bit integers, and zero if it does not.
pub proof fn law_comparison(name: Name, op: Name, a: i64, b: i64, fuel: nat)
    requires
        comparison(op) is Some,
        fuel >= 4,
    ensures
        compile(
            initial(name),
            entry_program(
                seq![
                    Expr::Return(
                        Box::new(
                            Expr::Operation(
                                op,
                                Box::new(Expr::Number(a)),
                                Box::new(Expr::Number(b)),
                            ),
                        ),
                    ),
                ],
            ),
        ) is Ok,
        entry_result(
            compile(
                initial(name),
                entry_program(
                    seq![
                        Expr::Return(
                            Box::new(
                                Expr::Operation(
                                    op,
                                    Box::new(Expr::Number(a)),
                                    Box::new(Expr::Number(b)),
                                ),
                            ),
                        ),
                    ],
                ),
            )->Ok_0.module,
            fuel,
        ) == silent(
            if holds(comparison(op)->0, a, b) {
                1i64
            } else {
                0i64
            },
        ),
{
    let operation = Expr::Operation(op, Box::new(Expr::Number(a)), Box::new(Expr::Number(b)));
    let statement = Expr::Return(Box::new(operation));
    let body = seq![statement];
    let st0 = initial(name);
    let st1 = at_entry(name);
    lemma_at_entry(name);
    lemma_operators_differ(op);
    let pred = comparison(op)->0;
    let st2 = st1.place(InstrView::Compare { pred, lhs: Value::Const(a), rhs: Value::Const(b) });
    let st3 = st2.place(InstrView::ZExt { value: Value::Inst(0, 0) });
    let st4 = st3.place(InstrView::Ret { value: Value::Inst(0, 1) });
    assert(generate(st1, Expr::Number(a)) == Ok::<(State, Value), CompileErrorView>(
        (st1, Value::Const(a)),
    ));
    assert(generate(st1, Expr::Number(b)) == Ok::<(State, Value), CompileErrorView>(
        (st1, Value::Const(b)),
    ));
    assert(generate(st1, operation) == Ok::<(State, Value), CompileErrorView>(
        (st3, Value::Inst(0, 1)),
    ));
    assert(generate(st1, statement) == Ok::<(State, Value), CompileErrorView>(
        (st4, Value::Inst(0, 1)),
    ));
    assert(body[0] == statement);
    assert(generate_block(st1, body, 0, Value::Const(0)) == Ok::<(State, Value), CompileErrorView>(
        (st4, Value::Inst(0, 1)),
    ));
    lemma_entry_program(name, body, st4, Value::Inst(0, 1));
    let closed = st4.close_function(st0);
    let instrs = st4.module.functions[1].blocks[0].instrs;
    assert(instrs =~= seq![
        InstrView::Compare { pred, lhs: Value::Const(a), rhs: Value::Const(b) },
        InstrView::ZExt { value: Value::Inst(0, 0) },
        InstrView::Ret { value: Value::Inst(0, 1) },
    ]);
    assert(st4.terminated());
    assert(closed.module == st4.module);
    lemma_process_entry(closed.module);
    let m = with_process_entry(closed.module, 1);
    assert(m.position_ok(1, 0, 0));
    assert(m.position_ok(1, 0, 1));
    assert(m.position_ok(1, 0, 2));
    assert(m.block_ok(1, 0));
    assert(m.function_ok(1));
    assert(m.consistent());
    lemma_run_comparison(m, pred, a, b, fuel);
}

} // verus!
