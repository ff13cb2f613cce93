//! The reference interpreter.

use seppolang::ir::BinOp;
use seppolang::ir::Block;
use seppolang::ir::BlockKind;
use seppolang::ir::Function;
use seppolang::ir::FunctionKind;
use seppolang::ir::Instr;
use seppolang::ir::Module;
use seppolang::ir::Pred;
use seppolang::ir::Value;

fn plain(name: &str, arity: usize, blocks: Vec<Vec<Instr>>) -> Function {
    Function {
        name: name.to_string(),
        kind: FunctionKind::Plain,
        arity,
        blocks: blocks
            .into_iter()
            .map(|instrs| Block { kind: BlockKind::Entry, instrs })
            .collect(),
    }
}

fn module_of(functions: Vec<Function>) -> Module {
    Module { name: "unit".to_string(), functions, globals: Vec::new() }
}

/// The value that function `f` returns.
fn value_of(module: &Module, f: usize, args: &[i64], fuel: u64) -> Option<i64> {
    module.execute(f, &args.to_vec(), fuel).map(|finished| finished.0)
}

fn binary(op: BinOp, a: i64, b: i64) -> Option<i64> {
    let body = vec![
        Instr::Binary { op, lhs: Value::Param(0), rhs: Value::Param(1) },
        Instr::Ret { value: Value::Inst(0, 0) },
    ];
    value_of(&module_of(vec![plain("f", 2, vec![body])]), 0, &[a, b], 10)
}

fn compare(pred: Pred, a: i64, b: i64) -> Option<i64> {
    let body = vec![
        Instr::Compare { pred, lhs: Value::Const(a), rhs: Value::Const(b) },
        Instr::ZExt { value: Value::Inst(0, 0) },
        Instr::Ret { value: Value::Inst(0, 1) },
    ];
    value_of(&module_of(vec![plain("f", 0, vec![body])]), 0, &[], 10)
}

#[test]
fn arithmetic_in_range() {
    assert_eq!(binary(BinOp::Add, 40, 2), Some(42));
    assert_eq!(binary(BinOp::Sub, 40, 2), Some(38));
    assert_eq!(binary(BinOp::Mul, 40, 2), Some(80));
    assert_eq!(binary(BinOp::SDiv, 40, 2), Some(20));
}

#[test]
fn arithmetic_wraps() {
    assert_eq!(binary(BinOp::Add, i64::MAX, 1), Some(i64::MIN));
    assert_eq!(binary(BinOp::Sub, i64::MIN, 1), Some(i64::MAX));
    assert_eq!(binary(BinOp::Mul, i64::MAX, 2), Some(-2));
    assert_eq!(binary(BinOp::Mul, i64::MIN, -1), Some(i64::MIN));
    assert_eq!(binary(BinOp::SDiv, i64::MIN, -1), Some(i64::MIN));
}

#[test]
fn division_truncates_toward_zero() {
    assert_eq!(binary(BinOp::SDiv, 7, 2), Some(3));
    assert_eq!(binary(BinOp::SDiv, -7, 2), Some(-3));
    assert_eq!(binary(BinOp::SDiv, 7, -2), Some(-3));
    assert_eq!(binary(BinOp::SDiv, -7, -2), Some(3));
    assert_eq!(binary(BinOp::SDiv, 0, 5), Some(0));
}

#[test]
fn division_by_zero_has_no_result() {
    assert_eq!(binary(BinOp::SDiv, 7, 0), None);
    assert_eq!(binary(BinOp::SDiv, 0, 0), None);
}

#[test]
fn comparisons_yield_one_or_zero() {
    let cases = [
        (Pred::Sgt, [0, 0, 1]),
        (Pred::Slt, [1, 0, 0]),
        (Pred::Sge, [0, 1, 1]),
        (Pred::Sle, [1, 1, 0]),
        (Pred::Eq, [0, 1, 0]),
        (Pred::Ne, [1, 0, 1]),
    ];
    for (pred, expected) in cases {
        assert_eq!(compare(pred, -1, 5), Some(expected[0]));
        assert_eq!(compare(pred, 5, 5), Some(expected[1]));
        assert_eq!(compare(pred, 5, -1), Some(expected[2]));
    }
}

#[test]
fn comparison_is_signed() {
    assert_eq!(compare(Pred::Slt, i64::MIN, i64::MAX), Some(1));
    assert_eq!(compare(Pred::Sgt, -1, 0), Some(0));
}

#[test]
fn truncation_keeps_the_low_32_bits() {
    let run = |v: i64| {
        let body = vec![
            Instr::Trunc { value: Value::Const(v) },
            Instr::Ret { value: Value::Inst(0, 0) },
        ];
        value_of(&module_of(vec![plain("f", 0, vec![body])]), 0, &[], 10)
    };
    assert_eq!(run(42), Some(42));
    assert_eq!(run(-1), Some(-1));
    assert_eq!(run(1 << 32), Some(0));
    assert_eq!(run((1 << 32) + 5), Some(5));
    assert_eq!(run(1 << 31), Some(-(1 << 31)));
}

#[test]
fn slots_hold_what_was_last_stored() {
    let body = vec![
        Instr::Alloca,
        Instr::Store { slot: Value::Inst(0, 0), value: Value::Const(1) },
        Instr::Store { slot: Value::Inst(0, 0), value: Value::Const(2) },
        Instr::Load { slot: Value::Inst(0, 0) },
        Instr::Ret { value: Value::Inst(0, 3) },
    ];
    assert_eq!(value_of(&module_of(vec![plain("f", 0, vec![body])]), 0, &[], 10), Some(2));
}

#[test]
fn read_of_an_unwritten_slot_has_no_result() {
    let body = vec![
        Instr::Alloca,
        Instr::Load { slot: Value::Inst(0, 0) },
        Instr::Ret { value: Value::Inst(0, 1) },
    ];
    assert_eq!(value_of(&module_of(vec![plain("f", 0, vec![body])]), 0, &[], 10), None);
}

#[test]
fn slot_must_have_been_reserved() {
    let store = vec![
        Instr::Store { slot: Value::Inst(0, 1), value: Value::Const(1) },
        Instr::Alloca,
        Instr::Ret { value: Value::Const(0) },
    ];
    assert_eq!(value_of(&module_of(vec![plain("f", 0, vec![store])]), 0, &[], 10), None);
    let constant = vec![
        Instr::Store { slot: Value::Const(0), value: Value::Const(1) },
        Instr::Ret { value: Value::Const(0) },
    ];
    assert_eq!(value_of(&module_of(vec![plain("f", 0, vec![constant])]), 0, &[], 10), None);
}

#[test]
fn value_must_have_been_computed() {
    let body = vec![Instr::Ret { value: Value::Inst(0, 1) }, Instr::Alloca];
    assert_eq!(value_of(&module_of(vec![plain("f", 0, vec![body])]), 0, &[], 10), None);
    let missing = vec![Instr::Ret { value: Value::Param(0) }];
    assert_eq!(value_of(&module_of(vec![plain("f", 0, vec![missing])]), 0, &[], 10), None);
}

fn diamond() -> Module {
    module_of(vec![plain(
        "f",
        1,
        vec![
            vec![Instr::CondBr { cond: Value::Param(0), then_target: 1, else_target: 2 }],
            vec![Instr::Br { target: 3 }],
            vec![Instr::Br { target: 3 }],
            vec![
                Instr::Phi { incoming: vec![(Value::Const(10), 1), (Value::Const(20), 2)] },
                Instr::Ret { value: Value::Inst(3, 0) },
            ],
        ],
    )])
}

#[test]
fn phi_takes_the_value_of_the_edge_taken() {
    assert_eq!(value_of(&diamond(), 0, &[1], 10), Some(10));
    assert_eq!(value_of(&diamond(), 0, &[-1], 10), Some(10));
    assert_eq!(value_of(&diamond(), 0, &[0], 10), Some(20));
}

#[test]
fn phi_without_an_edge_for_the_predecessor_has_no_result() {
    let module = module_of(vec![plain(
        "f",
        0,
        vec![
            vec![Instr::Br { target: 1 }],
            vec![
                Instr::Phi { incoming: vec![(Value::Const(10), 5)] },
                Instr::Ret { value: Value::Inst(1, 0) },
            ],
        ],
    )]);
    assert_eq!(value_of(&module, 0, &[], 10), None);
    let at_entry = module_of(vec![plain(
        "f",
        0,
        vec![vec![
            Instr::Phi { incoming: vec![(Value::Const(10), 0)] },
            Instr::Ret { value: Value::Inst(0, 0) },
        ]],
    )]);
    assert_eq!(value_of(&at_entry, 0, &[], 10), None);
}

#[test]
fn fuel_bounds_the_instructions_executed() {
    // one unit for the call, one for each of the four instructions
    assert_eq!(value_of(&diamond(), 0, &[1], 5), Some(10));
    assert_eq!(value_of(&diamond(), 0, &[1], 4), None);
    assert_eq!(value_of(&diamond(), 0, &[1], 0), None);
}

#[test]
fn endless_loop_runs_out_of_fuel() {
    let module = module_of(vec![plain("f", 0, vec![vec![Instr::Br { target: 0 }]])]);
    assert_eq!(value_of(&module, 0, &[], 1000), None);
}

fn factorial() -> Module {
    // f(n) = if n <= 1 { 1 } else { n * f(n - 1) }
    module_of(vec![plain(
        "factorial",
        1,
        vec![
            vec![
                Instr::Compare { pred: Pred::Sle, lhs: Value::Param(0), rhs: Value::Const(1) },
                Instr::CondBr { cond: Value::Inst(0, 0), then_target: 1, else_target: 2 },
            ],
            vec![Instr::Ret { value: Value::Const(1) }],
            vec![
                Instr::Binary { op: BinOp::Sub, lhs: Value::Param(0), rhs: Value::Const(1) },
                Instr::Call { callee: 0, args: vec![Value::Inst(2, 0)] },
                Instr::Binary { op: BinOp::Mul, lhs: Value::Param(0), rhs: Value::Inst(2, 1) },
                Instr::Ret { value: Value::Inst(2, 2) },
            ],
        ],
    )])
}

#[test]
fn calls_run_the_callee_on_the_arguments() {
    assert_eq!(value_of(&factorial(), 0, &[5], 100), Some(120));
    assert_eq!(value_of(&factorial(), 0, &[1], 100), Some(1));
    assert_eq!(value_of(&factorial(), 0, &[20], 1000), Some(2432902008176640000));
}

#[test]
fn endless_recursion_runs_out_of_fuel() {
    let module = module_of(vec![plain(
        "f",
        0,
        vec![vec![
            Instr::Call { callee: 0, args: Vec::new() },
            Instr::Ret { value: Value::Inst(0, 0) },
        ]],
    )]);
    assert_eq!(value_of(&module, 0, &[], 500), None);
}

#[test]
fn calls_outside_the_model_have_no_result() {
    let call = |callee, args| {
        vec![Instr::Call { callee, args }, Instr::Ret { value: Value::Inst(0, 0) }]
    };
    let declared = plain("foreign", 0, Vec::new());
    let module = module_of(vec![plain("f", 0, vec![call(1, Vec::new())]), declared]);
    assert_eq!(value_of(&module, 0, &[], 10), None);
    assert_eq!(value_of(&module, 1, &[], 10), None);
    assert_eq!(value_of(&module, 2, &[], 10), None);
    let missing = module_of(vec![plain("f", 0, vec![call(7, Vec::new())])]);
    assert_eq!(value_of(&missing, 0, &[], 10), None);
    let wrong_count = module_of(vec![
        plain("f", 0, vec![call(1, vec![Value::Const(1)])]),
        plain("g", 0, vec![vec![Instr::Ret { value: Value::Const(1) }]]),
    ]);
    assert_eq!(value_of(&wrong_count, 0, &[], 10), None);
}

#[test]
fn output_is_recorded_in_order_across_calls() {
    let print = |template, value| Instr::Call { callee: 0, args: vec![Value::Global(template), value] };
    let module = Module {
        name: "unit".to_string(),
        functions: vec![
            Function {
                name: "printf".to_string(),
                kind: FunctionKind::Output,
                arity: 1,
                blocks: Vec::new(),
            },
            plain(
                "outer",
                0,
                vec![vec![
                    print(0, Value::Const(1)),
                    Instr::Call { callee: 2, args: vec![Value::Const(2)] },
                    print(1, Value::Inst(0, 1)),
                    Instr::Ret { value: Value::Const(9) },
                ]],
            ),
            plain(
                "inner",
                1,
                vec![vec![print(1, Value::Param(0)), Instr::Ret { value: Value::Const(3) }]],
            ),
        ],
        globals: vec!["%ld\n".to_string(), "0x%lx\n".to_string()],
    };
    assert_eq!(module.execute(1, &Vec::new(), 100), Some((9, vec![(0, 1), (1, 2), (1, 3)])));
}

#[test]
fn output_needs_a_template_and_one_value() {
    let run = |args: Vec<Value>| {
        let module = Module {
            name: "unit".to_string(),
            functions: vec![
                Function {
                    name: "printf".to_string(),
                    kind: FunctionKind::Output,
                    arity: 1,
                    blocks: Vec::new(),
                },
                plain(
                    "f",
                    0,
                    vec![vec![Instr::Call { callee: 0, args }, Instr::Ret { value: Value::Const(0) }]],
                ),
            ],
            globals: vec!["%ld\n".to_string()],
        };
        module.execute(1, &Vec::new(), 10)
    };
    assert_eq!(run(vec![Value::Global(0), Value::Const(5)]), Some((0, vec![(0, 5)])));
    assert_eq!(run(vec![Value::Global(0)]), None);
    assert_eq!(run(vec![Value::Global(1), Value::Const(5)]), None);
    assert_eq!(run(vec![Value::Const(0), Value::Const(5)]), None);
    assert_eq!(run(vec![Value::Global(0), Value::Const(5), Value::Const(6)]), None);
}

#[test]
fn output_does_not_change_what_is_computed() {
    let module = Module {
        name: "unit".to_string(),
        functions: vec![
            Function {
                name: "printf".to_string(),
                kind: FunctionKind::Output,
                arity: 1,
                blocks: Vec::new(),
            },
            plain(
                "f",
                0,
                vec![vec![
                    Instr::Call { callee: 0, args: vec![Value::Global(0), Value::Const(7)] },
                    Instr::Ret { value: Value::Const(7) },
                ]],
            ),
        ],
        globals: vec!["%ld\n".to_string()],
    };
    assert_eq!(value_of(&module, 1, &[], 10), Some(7));
}

#[test]
fn address_of_a_string_constant_has_no_result() {
    let module = Module {
        name: "unit".to_string(),
        functions: vec![plain(
            "f",
            0,
            vec![vec![
                Instr::PtrToInt { value: Value::Global(0) },
                Instr::Ret { value: Value::Inst(0, 0) },
            ]],
        )],
        globals: vec!["hello".to_string()],
    };
    assert_eq!(value_of(&module, 0, &[], 10), None);
}
