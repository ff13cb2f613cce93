//! What a conditional compiles to: three blocks, a branch, and the phi
//! nodes at the join.

use seppolang::codegen::CodeGen;
use seppolang::ir::BlockKind;
use seppolang::ir::Instr;
use seppolang::ir::Pred;
use seppolang::ir::Value;
use seppolang::types::SeppoExpr;

fn num(n: i64) -> Box<SeppoExpr> {
    Box::new(SeppoExpr::Number(n))
}

fn var(name: &str) -> Box<SeppoExpr> {
    Box::new(SeppoExpr::Variable(name.to_string()))
}

fn assign(name: &str, value: Box<SeppoExpr>) -> SeppoExpr {
    SeppoExpr::Assignment(name.to_string(), value)
}

fn ret(value: Box<SeppoExpr>) -> SeppoExpr {
    SeppoExpr::Return(value)
}

fn block(items: Vec<SeppoExpr>) -> Box<SeppoExpr> {
    Box::new(SeppoExpr::Block(items))
}

fn when(condition: Box<SeppoExpr>, then: Vec<SeppoExpr>, otherwise: Option<Vec<SeppoExpr>>) -> SeppoExpr {
    SeppoExpr::Conditional {
        condition,
        true_block: block(then),
        false_block: otherwise.map(block),
    }
}

fn entry(body: Vec<SeppoExpr>) -> SeppoExpr {
    SeppoExpr::Block(vec![SeppoExpr::Function(
        "seppo".to_string(),
        Vec::new(),
        block(body),
    )])
}

fn compiled(body: Vec<SeppoExpr>) -> CodeGen {
    let mut codegen = CodeGen::new("unit");
    codegen.compile(&entry(body)).unwrap();
    codegen
}

fn blocks(codegen: &CodeGen) -> Vec<(BlockKind, Vec<Instr>)> {
    codegen.get_module().functions[1]
        .blocks
        .iter()
        .map(|b| (b.kind, b.instrs.iter().map(copy).collect()))
        .collect()
}

fn copy(instr: &Instr) -> Instr {
    match instr {
        Instr::Alloca => Instr::Alloca,
        Instr::Load { slot } => Instr::Load { slot: *slot },
        Instr::Store { slot, value } => Instr::Store { slot: *slot, value: *value },
        Instr::Binary { op, lhs, rhs } => Instr::Binary { op: *op, lhs: *lhs, rhs: *rhs },
        Instr::Compare { pred, lhs, rhs } => Instr::Compare { pred: *pred, lhs: *lhs, rhs: *rhs },
        Instr::ZExt { value } => Instr::ZExt { value: *value },
        Instr::Trunc { value } => Instr::Trunc { value: *value },
        Instr::PtrToInt { value } => Instr::PtrToInt { value: *value },
        Instr::Call { callee, args } => Instr::Call { callee: *callee, args: args.to_vec() },
        Instr::Phi { incoming } => Instr::Phi { incoming: incoming.to_vec() },
        Instr::Br { target } => Instr::Br { target: *target },
        Instr::CondBr { cond, then_target, else_target } => Instr::CondBr {
            cond: *cond,
            then_target: *then_target,
            else_target: *else_target,
        },
        Instr::Ret { value } => Instr::Ret { value: *value },
    }
}

fn run(codegen: &CodeGen) -> Option<i64> {
    codegen.get_module().execute(1, &Vec::new(), 1000).map(|finished| finished.0)
}

#[test]
fn assignment_in_one_branch_of_a_known_variable() {
    let codegen = compiled(vec![
        assign("x", num(42)),
        when(num(1), vec![assign("x", num(7))], None),
        ret(var("x")),
    ]);
    let slot = Value::Inst(0, 0);
    assert_eq!(
        blocks(&codegen),
        vec![
            (
                BlockKind::Entry,
                vec![
                    Instr::Alloca,
                    Instr::Store { slot, value: Value::Const(42) },
                    Instr::Compare { pred: Pred::Ne, lhs: Value::Const(1), rhs: Value::Const(0) },
                    Instr::CondBr { cond: Value::Inst(0, 2), then_target: 1, else_target: 2 },
                ]
            ),
            (
                BlockKind::Then,
                vec![Instr::Store { slot, value: Value::Const(7) }, Instr::Br { target: 3 }]
            ),
            (BlockKind::Else, vec![Instr::Br { target: 3 }]),
            (
                BlockKind::Merge,
                vec![
                    Instr::Phi { incoming: vec![(Value::Const(7), 1), (Value::Const(0), 2)] },
                    Instr::Load { slot },
                    Instr::Ret { value: Value::Inst(3, 1) },
                ]
            ),
        ]
    );
    assert_eq!(run(&codegen), Some(7));
}

#[test]
fn value_assigned_in_the_branch_on_the_taken_path() {
    for (condition, expected) in [(1, 7), (-3, 7), (0, 42)] {
        let codegen = compiled(vec![
            assign("x", num(42)),
            when(num(condition), vec![assign("x", num(7))], None),
            ret(var("x")),
        ]);
        assert_eq!(run(&codegen), Some(expected));
    }
}

#[test]
fn value_assigned_in_the_false_branch_on_the_taken_path() {
    for (condition, expected) in [(1, 42), (0, 7)] {
        let codegen = compiled(vec![
            assign("x", num(42)),
            when(num(condition), Vec::new(), Some(vec![assign("x", num(7))])),
            ret(var("x")),
        ]);
        assert_eq!(run(&codegen), Some(expected));
    }
}

#[test]
fn conditional_yields_the_value_of_the_branch_taken() {
    for (condition, expected) in [(1, 10), (0, 20)] {
        let codegen = compiled(vec![ret(Box::new(when(
            num(condition),
            vec![SeppoExpr::Number(10)],
            Some(vec![SeppoExpr::Number(20)]),
        )))]);
        assert_eq!(run(&codegen), Some(expected));
    }
}

#[test]
fn conditional_without_false_branch_yields_zero_when_not_taken() {
    let codegen = compiled(vec![ret(Box::new(when(num(0), vec![SeppoExpr::Number(10)], None)))]);
    assert_eq!(run(&codegen), Some(0));
}

#[test]
fn branch_that_returns_contributes_no_edge() {
    let codegen = compiled(vec![
        assign("x", num(5)),
        when(num(1), vec![ret(num(1))], Some(vec![assign("x", num(9))])),
        ret(var("x")),
    ]);
    let all = blocks(&codegen);
    assert_eq!(all[1].1, vec![Instr::Ret { value: Value::Const(1) }]);
    assert_eq!(all[3].1[0], Instr::Phi { incoming: vec![(Value::Const(9), 2)] });
    assert_eq!(run(&codegen), Some(1));
}

#[test]
fn no_branch_reaches_the_join() {
    let mut codegen = CodeGen::new("unit");
    let value = codegen
        .gen_expr(&entry(vec![when(num(1), vec![ret(num(1))], Some(vec![ret(num(2))]))]))
        .unwrap();
    assert_eq!(value, Value::Const(0));
    let all = blocks(&codegen);
    assert_eq!(all[1].1, vec![Instr::Ret { value: Value::Const(1) }]);
    assert_eq!(all[2].1, vec![Instr::Ret { value: Value::Const(2) }]);
    // the join holds no phi node; the function's closing return lands there
    assert_eq!(all[3].1, vec![Instr::Ret { value: Value::Const(0) }]);
    assert!(codegen.get_module().verify());
    assert_eq!(run(&codegen), Some(1));
}

#[test]
fn name_bound_in_a_branch_is_merged_and_gone_after_the_conditional() {
    let mut codegen = CodeGen::new("unit");
    let program = entry(vec![
        when(num(1), vec![assign("y", num(3))], None),
        ret(var("y")),
    ]);
    assert_eq!(
        codegen.gen_expr(&program),
        Err(seppolang::error::CompileError::UndefinedVariable("y".to_string()))
    );
    let codegen = compiled(vec![when(num(1), vec![assign("y", num(3))], None), ret(num(0))]);
    let all = blocks(&codegen);
    // the branch reads the name at its end; the other branch has no value for it
    assert_eq!(
        all[1].1,
        vec![
            Instr::Alloca,
            Instr::Store { slot: Value::Inst(1, 0), value: Value::Const(3) },
            Instr::Load { slot: Value::Inst(1, 0) },
            Instr::Br { target: 3 },
        ]
    );
    assert_eq!(all[2].1, vec![Instr::Br { target: 3 }]);
    assert_eq!(
        all[3].1,
        vec![
            Instr::Phi { incoming: vec![(Value::Inst(1, 2), 1), (Value::Const(0), 2)] },
            Instr::Phi { incoming: vec![(Value::Const(3), 1), (Value::Const(0), 2)] },
            Instr::Ret { value: Value::Const(0) },
        ]
    );
    assert_eq!(run(&codegen), Some(0));
}

#[test]
fn name_bound_in_both_branches_gets_one_phi() {
    let codegen = compiled(vec![
        when(num(0), vec![assign("y", num(3))], Some(vec![assign("y", num(4))])),
        ret(num(0)),
    ]);
    let all = blocks(&codegen);
    assert_eq!(
        all[3].1[0],
        Instr::Phi { incoming: vec![(Value::Inst(1, 2), 1), (Value::Inst(2, 2), 2)] }
    );
    assert!(matches!(all[3].1[1], Instr::Phi { .. }));
    assert!(matches!(all[3].1[2], Instr::Ret { .. }));
}

#[test]
fn nested_conditionals_join_in_their_own_blocks() {
    let inner = when(num(1), vec![assign("x", num(2))], Some(vec![assign("x", num(3))]));
    let codegen = compiled(vec![
        assign("x", num(1)),
        when(num(1), vec![inner], Some(vec![assign("x", num(4))])),
        ret(var("x")),
    ]);
    let all = blocks(&codegen);
    assert_eq!(all.len(), 7);
    let kinds: Vec<BlockKind> = all.iter().map(|b| b.0).collect();
    assert_eq!(
        kinds,
        vec![
            BlockKind::Entry,
            BlockKind::Then,
            BlockKind::Else,
            BlockKind::Merge,
            BlockKind::Then,
            BlockKind::Else,
            BlockKind::Merge,
        ]
    );
    // the outer true branch ends in the inner join
    assert_eq!(all[6].1.last(), Some(&Instr::Br { target: 3 }));
    assert_eq!(
        all[3].1[0],
        Instr::Phi { incoming: vec![(Value::Inst(6, 0), 6), (Value::Const(4), 2)] }
    );
    assert!(codegen.get_module().verify());
    assert_eq!(run(&codegen), Some(2));
}
