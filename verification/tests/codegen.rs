//! What each kind of node compiles to.

use seppolang::codegen::CodeGen;
use seppolang::error::CompileError;
use seppolang::ir::BinOp;
use seppolang::ir::BlockKind;
use seppolang::ir::FunctionKind;
use seppolang::ir::Instr;
use seppolang::ir::Pred;
use seppolang::ir::Value;
use seppolang::types::PrintFormat;
use seppolang::types::SeppoExpr;

fn num(n: i64) -> Box<SeppoExpr> {
    Box::new(SeppoExpr::Number(n))
}

fn var(name: &str) -> Box<SeppoExpr> {
    Box::new(SeppoExpr::Variable(name.to_string()))
}

fn op(op: &str, left: Box<SeppoExpr>, right: Box<SeppoExpr>) -> Box<SeppoExpr> {
    Box::new(SeppoExpr::Operation(op.to_string(), left, right))
}

fn assign(name: &str, value: Box<SeppoExpr>) -> SeppoExpr {
    SeppoExpr::Assignment(name.to_string(), value)
}

fn ret(value: Box<SeppoExpr>) -> SeppoExpr {
    SeppoExpr::Return(value)
}

fn function(name: &str, params: &[&str], body: Vec<SeppoExpr>) -> SeppoExpr {
    SeppoExpr::Function(
        name.to_string(),
        params.iter().map(|p| p.to_string()).collect(),
        Box::new(SeppoExpr::Block(body)),
    )
}

fn entry(body: Vec<SeppoExpr>) -> SeppoExpr {
    SeppoExpr::Block(vec![function("seppo", &[], body)])
}

/// The instructions of block `b` of the entry function after `gen_expr`.
fn entry_block(codegen: &CodeGen, b: usize) -> &Vec<Instr> {
    &codegen.get_module().functions[1].blocks[b].instrs
}

#[test]
fn new_module_declares_the_output_primitive() {
    let codegen = CodeGen::new("unit");
    let module = codegen.get_module();
    assert_eq!(module.name, "unit");
    assert_eq!(module.functions.len(), 1);
    assert_eq!(module.functions[0].name, "printf");
    assert_eq!(module.functions[0].kind, FunctionKind::Output);
    assert_eq!(module.functions[0].arity, 1);
    assert!(module.functions[0].blocks.is_empty());
    assert!(module.globals.is_empty());
    assert!(codegen.foreign_sources().is_empty());
    assert!(codegen.c_object_files().is_empty());
}

#[test]
fn number_yields_a_constant_and_emits_nothing() {
    let mut codegen = CodeGen::new("unit");
    assert_eq!(codegen.gen_expr(&SeppoExpr::Number(-7)), Ok(Value::Const(-7)));
    assert_eq!(codegen.get_module().functions.len(), 1);
}

#[test]
fn return_of_a_literal_is_one_instruction() {
    let mut codegen = CodeGen::new("unit");
    let value = codegen.gen_expr(&entry(vec![ret(num(42))])).unwrap();
    assert_eq!(value, Value::Const(0));
    let module = codegen.get_module();
    assert_eq!(module.functions.len(), 2);
    assert_eq!(module.functions[1].name, "seppo");
    assert_eq!(module.functions[1].kind, FunctionKind::Plain);
    assert_eq!(module.functions[1].arity, 0);
    assert_eq!(module.functions[1].blocks.len(), 1);
    assert_eq!(module.functions[1].blocks[0].kind, BlockKind::Entry);
    assert_eq!(entry_block(&codegen, 0), &vec![Instr::Ret { value: Value::Const(42) }]);
}

#[test]
fn body_without_return_returns_zero() {
    let mut codegen = CodeGen::new("unit");
    codegen.gen_expr(&entry(vec![assign("x", num(42))])).unwrap();
    assert_eq!(
        entry_block(&codegen, 0),
        &vec![
            Instr::Alloca,
            Instr::Store { slot: Value::Inst(0, 0), value: Value::Const(42) },
            Instr::Ret { value: Value::Const(0) },
        ]
    );
}

#[test]
fn reassignment_reuses_the_slot() {
    let mut codegen = CodeGen::new("unit");
    codegen
        .gen_expr(&entry(vec![assign("x", num(1)), assign("x", num(2)), ret(var("x"))]))
        .unwrap();
    assert_eq!(
        entry_block(&codegen, 0),
        &vec![
            Instr::Alloca,
            Instr::Store { slot: Value::Inst(0, 0), value: Value::Const(1) },
            Instr::Store { slot: Value::Inst(0, 0), value: Value::Const(2) },
            Instr::Load { slot: Value::Inst(0, 0) },
            Instr::Ret { value: Value::Inst(0, 3) },
        ]
    );
}

#[test]
fn operands_are_compiled_left_to_right() {
    let mut codegen = CodeGen::new("unit");
    codegen
        .gen_expr(&entry(vec![
            assign("x", num(40)),
            assign("y", num(2)),
            ret(op("-", var("x"), var("y"))),
        ]))
        .unwrap();
    let instrs = entry_block(&codegen, 0);
    assert_eq!(instrs[4], Instr::Load { slot: Value::Inst(0, 0) });
    assert_eq!(instrs[5], Instr::Load { slot: Value::Inst(0, 2) });
    assert_eq!(
        instrs[6],
        Instr::Binary { op: BinOp::Sub, lhs: Value::Inst(0, 4), rhs: Value::Inst(0, 5) }
    );
    assert_eq!(instrs[7], Instr::Ret { value: Value::Inst(0, 6) });
}

#[test]
fn each_arithmetic_operator_has_its_instruction() {
    for (text, expected) in
        [("+", BinOp::Add), ("-", BinOp::Sub), ("*", BinOp::Mul), ("/", BinOp::SDiv)]
    {
        let mut codegen = CodeGen::new("unit");
        codegen.gen_expr(&entry(vec![ret(op(text, num(6), num(3)))])).unwrap();
        assert_eq!(
            entry_block(&codegen, 0)[0],
            Instr::Binary { op: expected, lhs: Value::Const(6), rhs: Value::Const(3) }
        );
    }
}

#[test]
fn each_comparison_is_extended_to_64_bits() {
    for (text, expected) in [
        (">", Pred::Sgt),
        ("<", Pred::Slt),
        (">=", Pred::Sge),
        ("<=", Pred::Sle),
        ("==", Pred::Eq),
        ("!=", Pred::Ne),
    ] {
        let mut codegen = CodeGen::new("unit");
        codegen.gen_expr(&entry(vec![ret(op(text, num(6), num(3)))])).unwrap();
        assert_eq!(
            entry_block(&codegen, 0),
            &vec![
                Instr::Compare { pred: expected, lhs: Value::Const(6), rhs: Value::Const(3) },
                Instr::ZExt { value: Value::Inst(0, 0) },
                Instr::Ret { value: Value::Inst(0, 1) },
            ]
        );
    }
}

#[test]
fn unknown_operator_is_rejected_after_its_operands() {
    let mut codegen = CodeGen::new("unit");
    let result = codegen.gen_expr(&entry(vec![ret(op("%", num(6), num(3)))]));
    assert_eq!(result, Err(CompileError::UnknownOperator("%".to_string())));
    let mut codegen = CodeGen::new("unit");
    let result = codegen.gen_expr(&entry(vec![ret(op("%", var("missing"), num(3)))]));
    assert_eq!(result, Err(CompileError::UndefinedVariable("missing".to_string())));
}

#[test]
fn undefined_variable_is_rejected() {
    let mut codegen = CodeGen::new("unit");
    let result = codegen.compile(&entry(vec![ret(var("undeclared_name"))]));
    assert_eq!(result, Err(CompileError::UndefinedVariable("undeclared_name".to_string())));
}

#[test]
fn print_passes_the_template_and_the_value() {
    for (format, template) in [(PrintFormat::Decimal, "%ld\n"), (PrintFormat::Hex, "0x%lx\n")] {
        let mut codegen = CodeGen::new("unit");
        let body = vec![SeppoExpr::Print(format, num(255)), ret(num(0))];
        codegen.gen_expr(&entry(body)).unwrap();
        assert_eq!(codegen.get_module().globals, vec![template.to_string()]);
        assert_eq!(
            entry_block(&codegen, 0)[0],
            Instr::Call { callee: 0, args: vec![Value::Global(0), Value::Const(255)] }
        );
    }
}

#[test]
fn print_yields_the_printed_value() {
    let mut codegen = CodeGen::new("unit");
    let body = vec![ret(Box::new(SeppoExpr::Print(PrintFormat::Decimal, num(9))))];
    codegen.gen_expr(&entry(body)).unwrap();
    assert_eq!(entry_block(&codegen, 0)[1], Instr::Ret { value: Value::Const(9) });
}

#[test]
fn string_literal_is_a_constant_address_as_integer() {
    let mut codegen = CodeGen::new("unit");
    let body = vec![ret(Box::new(SeppoExpr::String("hello".to_string())))];
    codegen.gen_expr(&entry(body)).unwrap();
    assert_eq!(codegen.get_module().globals, vec!["hello".to_string()]);
    assert_eq!(
        entry_block(&codegen, 0),
        &vec![
            Instr::PtrToInt { value: Value::Global(0) },
            Instr::Ret { value: Value::Inst(0, 0) },
        ]
    );
}

#[test]
fn block_stops_after_a_return() {
    let mut codegen = CodeGen::new("unit");
    codegen.gen_expr(&entry(vec![ret(num(1)), assign("x", num(2)), ret(num(3))])).unwrap();
    assert_eq!(entry_block(&codegen, 0), &vec![Instr::Ret { value: Value::Const(1) }]);
}

#[test]
fn empty_block_yields_zero() {
    let mut codegen = CodeGen::new("unit");
    assert_eq!(codegen.gen_expr(&SeppoExpr::Block(Vec::new())), Ok(Value::Const(0)));
}

#[test]
fn parameters_get_slots_in_order() {
    let mut codegen = CodeGen::new("unit");
    let program = SeppoExpr::Block(vec![function(
        "sub",
        &["a", "b"],
        vec![ret(op("-", var("a"), var("b")))],
    )]);
    codegen.gen_expr(&program).unwrap();
    let module = codegen.get_module();
    assert_eq!(module.functions[1].arity, 2);
    assert_eq!(
        module.functions[1].blocks[0].instrs,
        vec![
            Instr::Alloca,
            Instr::Store { slot: Value::Inst(0, 0), value: Value::Param(0) },
            Instr::Alloca,
            Instr::Store { slot: Value::Inst(0, 2), value: Value::Param(1) },
            Instr::Load { slot: Value::Inst(0, 0) },
            Instr::Load { slot: Value::Inst(0, 2) },
            Instr::Binary { op: BinOp::Sub, lhs: Value::Inst(0, 4), rhs: Value::Inst(0, 5) },
            Instr::Ret { value: Value::Inst(0, 6) },
        ]
    );
}

#[test]
fn function_scope_is_fresh_and_the_outer_scope_comes_back() {
    let mut codegen = CodeGen::new("unit");
    // the inner function cannot see `x`
    let program = entry(vec![
        assign("x", num(1)),
        function("inner", &[], vec![ret(var("x"))]),
        ret(var("x")),
    ]);
    assert_eq!(
        codegen.gen_expr(&program),
        Err(CompileError::UndefinedVariable("x".to_string()))
    );
    // after the inner function, `x` is visible again and code goes on in the outer block
    let mut codegen = CodeGen::new("unit");
    let program = entry(vec![
        assign("x", num(1)),
        function("inner", &[], vec![assign("y", num(5))]),
        ret(var("x")),
    ]);
    codegen.gen_expr(&program).unwrap();
    assert_eq!(
        entry_block(&codegen, 0),
        &vec![
            Instr::Alloca,
            Instr::Store { slot: Value::Inst(0, 0), value: Value::Const(1) },
            Instr::Load { slot: Value::Inst(0, 0) },
            Instr::Ret { value: Value::Inst(0, 2) },
        ]
    );
    assert_eq!(codegen.get_module().functions[2].name, "inner");
}

#[test]
fn call_of_an_undeclared_function_is_rejected() {
    let mut codegen = CodeGen::new("unit");
    let call = SeppoExpr::FunctionCall("later".to_string(), vec![SeppoExpr::Number(1)]);
    let program = SeppoExpr::Block(vec![
        function("seppo", &[], vec![ret(Box::new(call))]),
        function("later", &["a"], vec![ret(var("a"))]),
    ]);
    assert_eq!(
        codegen.gen_expr(&program),
        Err(CompileError::UndefinedFunction("later".to_string()))
    );
}

#[test]
fn arguments_are_compiled_before_the_name_is_looked_up() {
    let mut codegen = CodeGen::new("unit");
    let call =
        SeppoExpr::FunctionCall("nowhere".to_string(), vec![SeppoExpr::Variable("z".to_string())]);
    let result = codegen.gen_expr(&entry(vec![ret(Box::new(call))]));
    assert_eq!(result, Err(CompileError::UndefinedVariable("z".to_string())));
}

#[test]
fn function_can_call_itself() {
    let mut codegen = CodeGen::new("unit");
    let call = SeppoExpr::FunctionCall("seppo".to_string(), Vec::new());
    codegen.gen_expr(&entry(vec![ret(Box::new(call))])).unwrap();
    assert_eq!(
        entry_block(&codegen, 0),
        &vec![Instr::Call { callee: 1, args: Vec::new() }, Instr::Ret { value: Value::Inst(0, 0) }]
    );
}

#[test]
fn call_passes_its_arguments_in_order() {
    let mut codegen = CodeGen::new("unit");
    let call = SeppoExpr::FunctionCall(
        "add".to_string(),
        vec![SeppoExpr::Number(40), SeppoExpr::Number(2)],
    );
    let program = SeppoExpr::Block(vec![
        function("add", &["a", "b"], vec![ret(op("+", var("a"), var("b")))]),
        function("seppo", &[], vec![ret(Box::new(call))]),
    ]);
    codegen.compile(&program).unwrap();
    let module = codegen.get_module();
    assert_eq!(
        module.functions[2].blocks[0].instrs[0],
        Instr::Call { callee: 1, args: vec![Value::Const(40), Value::Const(2)] }
    );
    assert_eq!(module.execute(2, &Vec::new(), 100).map(|finished| finished.0), Some(42));
}

#[test]
fn call_goes_to_the_first_function_of_a_name() {
    let mut codegen = CodeGen::new("unit");
    let call = SeppoExpr::FunctionCall("f".to_string(), Vec::new());
    let program = SeppoExpr::Block(vec![
        function("f", &[], vec![ret(num(1))]),
        function("f", &[], vec![ret(num(2))]),
        function("seppo", &[], vec![ret(Box::new(call))]),
    ]);
    codegen.compile(&program).unwrap();
    let module = codegen.get_module();
    assert_eq!(module.functions[3].blocks[0].instrs[0], Instr::Call { callee: 1, args: Vec::new() });
}

#[test]
fn return_outside_a_function_is_rejected() {
    let mut codegen = CodeGen::new("unit");
    assert_eq!(codegen.gen_expr(&ret(num(1))), Err(CompileError::ReturnOutsideFunction));
}

#[test]
fn code_outside_a_function_is_rejected() {
    let mut codegen = CodeGen::new("unit");
    assert_eq!(codegen.gen_expr(&assign("x", num(1))), Err(CompileError::CodeOutsideFunction));
}

#[test]
fn conditional_outside_a_function_is_rejected() {
    let mut codegen = CodeGen::new("unit");
    let conditional = SeppoExpr::Conditional {
        condition: var("undefined"),
        true_block: Box::new(SeppoExpr::Block(Vec::new())),
        false_block: None,
    };
    assert_eq!(codegen.gen_expr(&conditional), Err(CompileError::ConditionalOutsideFunction));
}

#[test]
fn missing_entry_point_is_rejected() {
    let mut codegen = CodeGen::new("unit");
    let program = SeppoExpr::Block(vec![function("not_seppo", &[], vec![ret(num(42))])]);
    assert_eq!(codegen.compile(&program), Err(CompileError::MissingEntryPoint));
}

#[test]
fn process_entry_calls_the_entry_function_and_truncates() {
    let mut codegen = CodeGen::new("unit");
    codegen.compile(&entry(vec![ret(num(42))])).unwrap();
    let module = codegen.get_module();
    assert_eq!(module.functions.len(), 3);
    assert_eq!(module.functions[2].name, "main");
    assert_eq!(module.functions[2].kind, FunctionKind::ProcessEntry);
    assert_eq!(
        module.functions[2].blocks[0].instrs,
        vec![
            Instr::Call { callee: 1, args: Vec::new() },
            Instr::Trunc { value: Value::Inst(0, 0) },
            Instr::Ret { value: Value::Inst(0, 1) },
        ]
    );
    assert!(module.verify());
}

#[test]
fn code_after_a_terminator_makes_the_module_inconsistent() {
    let mut codegen = CodeGen::new("unit");
    let nested = SeppoExpr::Block(vec![ret(num(1))]);
    let program = entry(vec![nested, assign("x", num(2))]);
    assert_eq!(codegen.compile(&program), Err(CompileError::InconsistentModule));
}

#[test]
fn call_with_a_wrong_number_of_arguments_makes_the_module_inconsistent() {
    let mut codegen = CodeGen::new("unit");
    let call = SeppoExpr::FunctionCall("one".to_string(), Vec::new());
    let program = SeppoExpr::Block(vec![
        function("one", &["a"], vec![ret(var("a"))]),
        function("seppo", &[], vec![ret(Box::new(call))]),
    ]);
    assert_eq!(codegen.compile(&program), Err(CompileError::InconsistentModule));
}

#[test]
fn compiling_twice_gives_the_same_module() {
    let program = entry(vec![
        assign("x", num(42)),
        SeppoExpr::Conditional {
            condition: op(">", var("x"), num(40)),
            true_block: Box::new(SeppoExpr::Block(vec![assign("x", num(1))])),
            false_block: Some(Box::new(SeppoExpr::Block(vec![assign("x", num(0))]))),
        },
        ret(var("x")),
    ]);
    let mut first = CodeGen::new("unit");
    let mut second = CodeGen::new("unit");
    assert_eq!(first.compile(&program), Ok(()));
    assert_eq!(second.compile(&program.clone()), Ok(()));
    assert_eq!(first.get_module(), second.get_module());
    let main = first.get_module().functions.len() - 1;
    assert_eq!(
        first.get_module().execute(main, &Vec::new(), 100).map(|finished| finished.0),
        second.get_module().execute(main, &Vec::new(), 100).map(|finished| finished.0)
    );
}
