//! The structural rules of the intermediate representation.

use seppolang::ir::BinOp;
use seppolang::ir::Block;
use seppolang::ir::BlockKind;
use seppolang::ir::Function;
use seppolang::ir::FunctionKind;
use seppolang::ir::Instr;
use seppolang::ir::Module;
use seppolang::ir::Value;

fn module_of(blocks: Vec<Vec<Instr>>) -> Module {
    let blocks = blocks
        .into_iter()
        .map(|instrs| Block { kind: BlockKind::Entry, instrs })
        .collect();
    Module {
        name: "unit".to_string(),
        functions: vec![
            Function {
                name: "printf".to_string(),
                kind: FunctionKind::Output,
                arity: 1,
                blocks: Vec::new(),
            },
            Function { name: "f".to_string(), kind: FunctionKind::Plain, arity: 1, blocks },
        ],
        globals: vec!["%ld\n".to_string()],
    }
}

fn ret(n: i64) -> Instr {
    Instr::Ret { value: Value::Const(n) }
}

#[test]
fn declarations_alone_are_consistent() {
    assert!(module_of(Vec::new()).verify());
    assert!(Module::new("empty".to_string()).verify());
}

#[test]
fn block_must_end_in_a_terminator() {
    assert!(module_of(vec![vec![ret(0)]]).verify());
    assert!(!module_of(vec![vec![]]).verify());
    assert!(!module_of(vec![vec![Instr::Alloca]]).verify());
}

#[test]
fn block_must_hold_one_terminator_only() {
    assert!(!module_of(vec![vec![ret(0), ret(1)]]).verify());
    assert!(!module_of(vec![vec![Instr::Br { target: 0 }, Instr::Alloca, ret(1)]]).verify());
}

#[test]
fn phi_nodes_stand_at_the_entry() {
    let phi = || Instr::Phi { incoming: vec![(Value::Const(1), 0)] };
    assert!(module_of(vec![vec![phi(), phi(), Instr::Alloca, ret(0)]]).verify());
    assert!(!module_of(vec![vec![phi(), Instr::Alloca, phi(), ret(0)]]).verify());
}

#[test]
fn branch_targets_must_exist() {
    assert!(module_of(vec![vec![Instr::Br { target: 1 }], vec![ret(0)]]).verify());
    assert!(!module_of(vec![vec![Instr::Br { target: 2 }], vec![ret(0)]]).verify());
    let branch = |then_target, else_target| Instr::CondBr {
        cond: Value::Const(1),
        then_target,
        else_target,
    };
    assert!(module_of(vec![vec![branch(1, 0)], vec![ret(0)]]).verify());
    assert!(!module_of(vec![vec![branch(1, 2)], vec![ret(0)]]).verify());
    assert!(!module_of(vec![vec![branch(2, 1)], vec![ret(0)]]).verify());
}

#[test]
fn phi_predecessors_must_exist() {
    let phi = |from| Instr::Phi { incoming: vec![(Value::Const(1), 0), (Value::Const(2), from)] };
    assert!(module_of(vec![vec![phi(0), ret(0)]]).verify());
    assert!(!module_of(vec![vec![phi(1), ret(0)]]).verify());
}

#[test]
fn operands_must_exist() {
    let add = |lhs, rhs| Instr::Binary { op: BinOp::Add, lhs, rhs };
    let ok = vec![Instr::Alloca, add(Value::Inst(0, 0), Value::Param(0)), ret(0)];
    assert!(module_of(vec![ok]).verify());
    let no_such_instruction = vec![add(Value::Inst(0, 5), Value::Const(1)), ret(0)];
    assert!(!module_of(vec![no_such_instruction]).verify());
    let no_such_block = vec![add(Value::Const(1), Value::Inst(3, 0)), ret(0)];
    assert!(!module_of(vec![no_such_block]).verify());
    let no_such_parameter = vec![add(Value::Param(1), Value::Const(1)), ret(0)];
    assert!(!module_of(vec![no_such_parameter]).verify());
    assert!(module_of(vec![vec![Instr::PtrToInt { value: Value::Global(0) }, ret(0)]]).verify());
    assert!(!module_of(vec![vec![Instr::PtrToInt { value: Value::Global(1) }, ret(0)]]).verify());
    assert!(!module_of(vec![vec![Instr::Ret { value: Value::Inst(0, 1) }]]).verify());
}

#[test]
fn calls_must_match_their_callee() {
    let call = |callee, args| Instr::Call { callee, args };
    assert!(module_of(vec![vec![call(1, vec![Value::Const(1)]), ret(0)]]).verify());
    assert!(!module_of(vec![vec![call(1, vec![]), ret(0)]]).verify());
    assert!(!module_of(vec![vec![call(1, vec![Value::Const(1), Value::Const(2)]), ret(0)]]).verify());
    assert!(!module_of(vec![vec![call(2, vec![Value::Const(1)]), ret(0)]]).verify());
    assert!(!module_of(vec![vec![call(1, vec![Value::Inst(9, 9)]), ret(0)]]).verify());
    // the output primitive takes its template and any number of values
    let template = Value::Global(0);
    assert!(module_of(vec![vec![call(0, vec![template]), ret(0)]]).verify());
    assert!(module_of(vec![vec![call(0, vec![template, Value::Const(1)]), ret(0)]]).verify());
    assert!(!module_of(vec![vec![call(0, vec![]), ret(0)]]).verify());
}
