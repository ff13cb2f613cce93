//! Assignment to a variable inside one branch of a conditional.

use crate::error::CompileErrorView;
use crate::ir::BlockKind;
use crate::ir::BlockView;
use crate::ir::FunctionKind;
use crate::ir::InstrView;
use crate::ir::ModuleView;
use crate::ir::Pred;
use crate::ir::Value;
use crate::laws::at_entry;
use crate::laws::entry_program;
use crate::laws::entry_result;
use crate::laws::lemma_at_entry;
use crate::laws::lemma_entry_program;
use crate::laws::lemma_process_entry;
use crate::laws::silent;
use crate::model::Branch;
use crate::model::Fork;
use crate::model::State;
use crate::model::changed_names;
use crate::model::close_branch;
use crate::model::compile;
use crate::model::compiles;
use crate::model::edges;
use crate::model::entry_name;
use crate::model::generate;
use crate::model::generate_block;
use crate::model::initial;
use crate::model::join;
use crate::model::name_phis;
use crate::model::store_merged;
use crate::model::tail_values;
use crate::model::with_process_entry;
use crate::scope::Name;
use crate::scope::lookup;
use crate::semantics::Frame;
use crate::semantics::call;
use crate::semantics::incoming_from;
use crate::semantics::run;
use crate::semantics::truth;
use crate::types::Expr;
use vstd::prelude::*;

verus! {

/// The program whose entry function assigns `before` to `x`, assigns
/// `inside` to it in the true branch of a conditional on `c` that has no
/// false branch, and returns `x`.
pub open spec fn assigned_in_true_branch(x: Name, before: i64, inside: i64, c: i64) -> Expr {
    entry_program(
        seq![
            Expr::Assignment(x, Box::new(Expr::Number(before))),
            Expr::Conditional {
                condition: Box::new(Expr::Number(c)),
                true_block: Box::new(
                    Expr::Block(seq![Expr::Assignment(x, Box::new(Expr::Number(inside)))]),
                ),
                false_block: None,
            },
            Expr::Return(Box::new(Expr::Variable(x))),
        ],
    )
}

/// The blocks of the entry function of `assigned_in_true_branch`.
spec fn true_branch_blocks(before: i64, inside: i64, c: i64) -> Seq<BlockView> {
    let slot = Value::Inst(0, 0);
    seq![
        BlockView {
            kind: BlockKind::Entry,
            instrs: seq![
                InstrView::Alloca,
                InstrView::Store { slot, value: Value::Const(before) },
                InstrView::Compare { pred: Pred::Ne, lhs: Value::Const(c), rhs: Value::Const(0) },
                InstrView::CondBr { cond: Value::Inst(0, 2), then_target: 1, else_target: 2 },
            ],
        },
        BlockView {
            kind: BlockKind::Then,
            instrs: seq![
                InstrView::Store { slot, value: Value::Const(inside) },
                InstrView::Br { target: 3 },
            ],
        },
        BlockView { kind: BlockKind::Else, instrs: seq![InstrView::Br { target: 3 }] },
        BlockView {
            kind: BlockKind::Merge,
            instrs: seq![
                InstrView::Phi {
                    incoming: seq![(Value::Const(inside), 1usize), (Value::Const(0), 2usize)],
                },
                InstrView::Load { slot },
                InstrView::Ret { value: Value::Inst(3, 1) },
            ],
        },
    ]
}

/// The state after the first assignment of `assigned_in_true_branch`.
spec fn after_first(name: Name, x: Name, before: i64) -> State {
    let st = at_entry(name).place(InstrView::Alloca);
    (State { variables: st.variables.push((x, Value::Inst(0, 0))), ..st }).place(
        InstrView::Store { slot: Value::Inst(0, 0), value: Value::Const(before) },
    )
}

proof fn lemma_first_assignment(name: Name, x: Name, before: i64)
    ensures
        generate(at_entry(name), Expr::Assignment(x, Box::new(Expr::Number(before)))) == Ok::<
            (State, Value),
            CompileErrorView,
        >((after_first(name, x, before), Value::Const(before))),
        after_first(name, x, before).cursor == Some((1usize, 0usize)),
        after_first(name, x, before).variables == seq![(x, Value::Inst(0, 0))],
        after_first(name, x, before).module.functions.len() == 2,
        after_first(name, x, before).module.functions[0] == initial(name).module.functions[0],
        after_first(name, x, before).module.functions[1].name == entry_name(),
        after_first(name, x, before).module.functions[1].kind == FunctionKind::Plain,
        after_first(name, x, before).module.functions[1].arity == 0,
        after_first(name, x, before).module.globals.len() == 0,
        after_first(name, x, before).module.functions[1].blocks.len() == 1,
        after_first(name, x, before).module.functions[1].blocks[0] == (BlockView {
            kind: BlockKind::Entry,
            instrs: seq![
                InstrView::Alloca,
                InstrView::Store { slot: Value::Inst(0, 0), value: Value::Const(before) },
            ],
        }),
{
    lemma_at_entry(name);
    let st1 = at_entry(name);
    assert(generate(st1, Expr::Number(before)) == Ok::<(State, Value), CompileErrorView>(
        (st1, Value::Const(before)),
    ));
    assert(lookup(st1.variables, x) is None);
    let st = after_first(name, x, before);
    assert(st.variables =~= seq![(x, Value::Inst(0, 0))]);
    assert(st.module.functions[1].blocks[0].instrs =~= seq![
        InstrView::Alloca,
        InstrView::Store { slot: Value::Inst(0, 0), value: Value::Const(before) },
    ]);
    assert(st1.module.functions[1].blocks[0].kind == BlockKind::Entry);
}

proof fn lemma_true_branch_conditional(st: State, x: Name, before: i64, inside: i64, c: i64)
    requires
        st.cursor == Some((1usize, 0usize)),
        st.variables == seq![(x, Value::Inst(0, 0))],
        st.module.functions.len() == 2,
        st.module.functions[1].blocks.len() == 1,
        st.module.functions[1].blocks[0] == (BlockView {
            kind: BlockKind::Entry,
            instrs: seq![
                InstrView::Alloca,
                InstrView::Store { slot: Value::Inst(0, 0), value: Value::Const(before) },
            ],
        }),
    ensures
        generate(
            st,
            Expr::Conditional {
                condition: Box::new(Expr::Number(c)),
                true_block: Box::new(
                    Expr::Block(seq![Expr::Assignment(x, Box::new(Expr::Number(inside)))]),
                ),
                false_block: None,
            },
        ) is Ok,
        ({
            let after = generate(
                st,
                Expr::Conditional {
                    condition: Box::new(Expr::Number(c)),
                    true_block: Box::new(
                        Expr::Block(seq![Expr::Assignment(x, Box::new(Expr::Number(inside)))]),
                    ),
                    false_block: None,
                },
            )->Ok_0.0;
            &&& after.cursor == Some((1usize, 3usize))
            &&& after.variables == st.variables
            &&& after.module.functions.len() == 2
            &&& after.module.functions[0] == st.module.functions[0]
            &&& after.module.functions[1].name == st.module.functions[1].name
            &&& after.module.functions[1].kind == st.module.functions[1].kind
            &&& after.module.functions[1].arity == st.module.functions[1].arity
            &&& after.module.globals == st.module.globals
            &&& after.module.functions[1].blocks.len() == 4
            &&& after.module.functions[1].blocks[0] == true_branch_blocks(before, inside, c)[0]
            &&& after.module.functions[1].blocks[1] == true_branch_blocks(before, inside, c)[1]
            &&& after.module.functions[1].blocks[2] == true_branch_blocks(before, inside, c)[2]
            &&& after.module.functions[1].blocks[3] == (BlockView {
                kind: BlockKind::Merge,
                instrs: seq![
                    InstrView::Phi {
                        incoming: seq![(Value::Const(inside), 1usize), (Value::Const(0), 2usize)],
                    },
                ],
            })
        }),
{
    let slot = Value::Inst(0, 0);
    let base = st.variables;
    let assign = Expr::Assignment(x, Box::new(Expr::Number(inside)));
    let items = seq![assign];
    let conditional = Expr::Conditional {
        condition: Box::new(Expr::Number(c)),
        true_block: Box::new(Expr::Block(items)),
        false_block: None,
    };
    assert(generate(st, Expr::Number(c)) == Ok::<(State, Value), CompileErrorView>(
        (st, Value::Const(c)),
    ));
    // the fork
    let forked = st.fork(Value::Const(c));
    assert(forked is Ok);
    let st7 = forked->Ok_0.0;
    let fork = forked->Ok_0.1;
    assert(fork == Fork { function: 1, then_block: 1, else_block: 2, merge_block: 3 });
    assert(st7.cursor == Some((1usize, 1usize)));
    assert(st7.variables == base);
    assert(st7.module.functions.len() == 2);
    assert(st7.module.functions[1].blocks.len() == 4);
    assert(st7.module.functions[1].blocks[0].instrs =~= true_branch_blocks(before, inside, c)[0].instrs);
    assert(st7.module.functions[1].blocks[1].instrs =~= Seq::<InstrView>::empty());
    assert(st7.module.functions[1].blocks[2].instrs =~= Seq::<InstrView>::empty());
    assert(st7.module.functions[1].blocks[3].instrs =~= Seq::<InstrView>::empty());
    // the true branch
    assert(generate(st7, Expr::Number(inside)) == Ok::<(State, Value), CompileErrorView>(
        (st7, Value::Const(inside)),
    ));
    assert(lookup(base, x) == Some(slot)) by {
        assert(base.last() == (x, slot));
    }
    let st8 = st7.place(InstrView::Store { slot, value: Value::Const(inside) });
    assert(generate(st7, assign) == Ok::<(State, Value), CompileErrorView>(
        (st8, Value::Const(inside)),
    ));
    assert(items[0] == assign);
    assert(generate_block(st8, items, 1, Value::Const(inside)) == Ok::<
        (State, Value),
        CompileErrorView,
    >((st8, Value::Const(inside))));
    assert(generate_block(st7, items, 0, Value::Const(0)) == Ok::<(State, Value), CompileErrorView>(
        (st8, Value::Const(inside)),
    ));
    assert(generate(st7, Expr::Block(items)) == Ok::<(State, Value), CompileErrorView>(
        (st8, Value::Const(inside)),
    ));
    assert(st8.module.functions[1].blocks[1].instrs =~= seq![
        InstrView::Store { slot, value: Value::Const(inside) },
    ]);
    let then_end = st8.end_of_branch(Value::Const(inside));
    assert(then_end == Branch { tail: 1, reaches: true, scope: base, value: Value::Const(inside) });
    let st9 = st8.enter_else(base, fork);
    let else_end = st9.end_of_branch(Value::Const(0));
    assert(st9.module.functions[1].blocks[2].instrs =~= Seq::<InstrView>::empty());
    assert(else_end == Branch { tail: 2, reaches: true, scope: base, value: Value::Const(0) });
    // the join
    let none = Seq::<Name>::empty();
    assert(changed_names(base, base, none, 1) == none);
    assert(changed_names(base, base, none, 0) == none);
    let (m1, then_values) = close_branch(st9.module, true, 1, 1, 3, none, base);
    assert(tail_values(st9.module, 1, 1, none, base, Seq::empty(), 0) == (
        st9.module,
        Seq::<Value>::empty(),
    ));
    assert(m1 == st9.module.push_instr(1, 1, InstrView::Br { target: 3 }));
    let (m2, else_values) = close_branch(m1, true, 1, 2, 3, none, base);
    assert(tail_values(m1, 1, 2, none, base, Seq::empty(), 0) == (m1, Seq::<Value>::empty()));
    assert(m2 == m1.push_instr(1, 2, InstrView::Br { target: 3 }));
    assert(name_phis(
        m2,
        fork,
        true,
        then_values,
        1,
        true,
        else_values,
        2,
        0,
        Seq::empty(),
        0,
    ) == (m2, Seq::<Value>::empty()));
    let incoming = edges(true, Value::Const(inside), 1, true, Value::Const(0), 2);
    assert(incoming =~= seq![(Value::Const(inside), 1usize), (Value::Const(0), 2usize)]);
    let m3 = m2.push_instr(1, 3, InstrView::Phi { incoming });
    assert(store_merged(m3, fork, none, Seq::empty(), base, 0) == m3);
    let joined = join(st9, base, fork, then_end, else_end);
    assert(joined.0.module == m3);
    assert(joined.1 == Value::Inst(3, 0));
    assert(generate(st, conditional) == Ok::<(State, Value), CompileErrorView>(joined));
    assert(m3.functions[1].blocks[1].instrs =~= true_branch_blocks(before, inside, c)[1].instrs);
    assert(m3.functions[1].blocks[2].instrs =~= true_branch_blocks(before, inside, c)[2].instrs);
    assert(m3.functions[1].blocks[3].instrs =~= seq![InstrView::Phi { incoming }]);
    assert(m3.functions[1].blocks[0] == st7.module.functions[1].blocks[0]);
}

/// What the entry function of `assigned_in_true_branch` computes.
proof fn lemma_run_true_branch(module: ModuleView, before: i64, inside: i64, c: i64, fuel: nat)
    requires
        module.functions.len() > 1,
        module.functions[1].blocks == true_branch_blocks(before, inside, c),
        fuel >= 10,
    ensures
        call(module, 1, Seq::empty(), Seq::empty(), fuel) == silent(
            if c != 0 {
                inside
            } else {
                before
            },
        ),
{
    let blocks = module.functions[1].blocks;
    let slot = (0usize, 0usize);
    assert(blocks.len() == 4);
    let entry = blocks[0].instrs;
    let then_block = blocks[1].instrs;
    let else_block = blocks[2].instrs;
    let merge = blocks[3].instrs;
    assert(entry.len() == 4 && then_block.len() == 2 && else_block.len() == 1 && merge.len() == 3);
    assert(entry[0] == InstrView::Alloca);
    assert(entry[1] == InstrView::Store { slot: Value::Inst(0, 0), value: Value::Const(before) });
    assert(entry[2] == InstrView::Compare {
        pred: Pred::Ne,
        lhs: Value::Const(c),
        rhs: Value::Const(0),
    });
    assert(entry[3] == InstrView::CondBr {
        cond: Value::Inst(0, 2),
        then_target: 1,
        else_target: 2,
    });
    assert(then_block[0] == InstrView::Store {
        slot: Value::Inst(0, 0),
        value: Value::Const(inside),
    });
    assert(then_block[1] == InstrView::Br { target: 3 });
    assert(else_block[0] == InstrView::Br { target: 3 });
    let incoming = seq![(Value::Const(inside), 1usize), (Value::Const(0), 2usize)];
    assert(merge[0] == InstrView::Phi { incoming });
    assert(merge[1] == InstrView::Load { slot: Value::Inst(0, 0) });
    assert(merge[2] == InstrView::Ret { value: Value::Inst(3, 1) });
    let bit = truth(Pred::Ne, c, 0);
    let f0 = Frame::start(Seq::empty(), Seq::empty());
    let f1 = Frame { cells: f0.cells.insert(slot, None), ..f0 };
    let f2 = Frame { cells: f1.cells.insert(slot, Some(before)), ..f1 };
    let f3 = f2.set((0usize, 2usize), bit);
    let n = (fuel - 1) as nat;
    assert(call(module, 1, Seq::empty(), Seq::empty(), fuel) == run(module, 1, f0, 0, 0, None, n));
    if c != 0 {
        let f4 = Frame { cells: f3.cells.insert(slot, Some(inside)), ..f3 };
        assert(incoming_from(incoming, 1, 0) == Some(Value::Const(inside)));
        let f5 = f4.set((3usize, 0usize), inside);
        let f6 = f5.set((3usize, 1usize), inside);
        assert(run(module, 1, f6, 3, 2, Some(1usize), (n - 8) as nat) == silent(inside));
        assert(run(module, 1, f5, 3, 1, Some(1usize), (n - 7) as nat) == silent(inside));
        assert(run(module, 1, f4, 3, 0, Some(1usize), (n - 6) as nat) == silent(inside));
        assert(run(module, 1, f4, 1, 1, Some(0usize), (n - 5) as nat) == silent(inside));
        assert(run(module, 1, f3, 1, 0, Some(0usize), (n - 4) as nat) == silent(inside));
        assert(run(module, 1, f3, 0, 3, None, (n - 3) as nat) == silent(inside));
        assert(run(module, 1, f2, 0, 2, None, (n - 2) as nat) == silent(inside));
        assert(run(module, 1, f1, 0, 1, None, (n - 1) as nat) == silent(inside));
        assert(run(module, 1, f0, 0, 0, None, n) == silent(inside));
    } else {
        assert(incoming_from(incoming, 2, 1) == Some(Value::Const(0)));
        assert(incoming_from(incoming, 2, 0) == Some(Value::Const(0)));
        let f5 = f3.set((3usize, 0usize), 0);
        let f6 = f5.set((3usize, 1usize), before);
        assert(run(module, 1, f6, 3, 2, Some(2usize), (n - 7) as nat) == silent(before));
        assert(run(module, 1, f5, 3, 1, Some(2usize), (n - 6) as nat) == silent(before));
        assert(run(module, 1, f3, 3, 0, Some(2usize), (n - 5) as nat) == silent(before));
        assert(run(module, 1, f3, 2, 0, Some(0usize), (n - 4) as nat) == silent(before));
        assert(run(module, 1, f3, 0, 3, None, (n - 3) as nat) == silent(before));
        assert(run(module, 1, f2, 0, 2, None, (n - 2) as nat) == silent(before));
        assert(run(module, 1, f1, 0, 1, None, (n - 1) as nat) == silent(before));
        assert(run(module, 1, f0, 0, 0, None, n) == silent(before));
    }
}

/// Assignment in one branch: a program that assigns to a variable, then
/// assigns to it again in the true branch of a conditional without a false
/// branch, then returns the variable, compiles, and its entry function
/// returns the value assigned in the branch if the condition is not zero,
/// and the value assigned before the conditional if it is.
pub proof fn law_assignment_in_true_branch(
    name: Name,
    x: Name,
    before: i64,
    inside: i64,
    c: i64,
    fuel: nat,
)
    requires
        fuel >= 10,
    ensures
        compile(initial(name), assigned_in_true_branch(x, before, inside, c)) is Ok,
        entry_result(
            compile(initial(name), assigned_in_true_branch(x, before, inside, c))->Ok_0.module,
            fuel,
        ) == silent(
            if c != 0 {
                inside
            } else {
                before
            },
        ),
{
    let first = Expr::Assignment(x, Box::new(Expr::Number(before)));
    let conditional = Expr::Conditional {
        condition: Box::new(Expr::Number(c)),
        true_block: Box::new(
            Expr::Block(seq![Expr::Assignment(x, Box::new(Expr::Number(inside)))]),
        ),
        false_block: None,
    };
    let last = Expr::Return(Box::new(Expr::Variable(x)));
    let body = seq![first, conditional, last];
    let st0 = initial(name);
    let st1 = at_entry(name);
    let st4 = after_first(name, x, before);
    lemma_first_assignment(name, x, before);
    lemma_true_branch_conditional(st4, x, before, inside, c);
    let st10 = generate(st4, conditional)->Ok_0.0;
    let merged = generate(st4, conditional)->Ok_0.1;
    let slot = Value::Inst(0, 0);
    assert(lookup(st10.variables, x) == Some(slot)) by {
        assert(st10.variables.last() == (x, slot));
    }
    let st11 = st10.place(InstrView::Load { slot });
    let st12 = st11.place(InstrView::Ret { value: Value::Inst(3, 1) });
    assert(generate(st10, Expr::Variable(x)) == Ok::<(State, Value), CompileErrorView>(
        (st11, Value::Inst(3, 1)),
    ));
    assert(generate(st10, last) == Ok::<(State, Value), CompileErrorView>(
        (st12, Value::Inst(3, 1)),
    ));
    assert(body[0] == first && body[1] == conditional && body[2] == last);
    assert(generate_block(st10, body, 2, merged) == Ok::<(State, Value), CompileErrorView>(
        (st12, Value::Inst(3, 1)),
    ));
    assert(generate_block(st4, body, 1, Value::Const(before)) == Ok::<
        (State, Value),
        CompileErrorView,
    >((st12, Value::Inst(3, 1))));
    assert(generate_block(st1, body, 0, Value::Const(0)) == Ok::<(State, Value), CompileErrorView>(
        (st12, Value::Inst(3, 1)),
    ));
    lemma_entry_program(name, body, st12, Value::Inst(3, 1));
    let closed = st12.close_function(st0);
    let expected = true_branch_blocks(before, inside, c);
    assert(st12.module.functions[1].blocks[3].instrs =~= expected[3].instrs);
    assert(st12.module.functions[1].blocks =~= expected);
    assert(st12.terminated());
    assert(closed.module == st12.module);
    lemma_process_entry(closed.module);
    let m = with_process_entry(closed.module, 1);
    assert(m.functions[1].blocks == expected);
    lemma_true_branch_consistent(m, before, inside, c);
    assert(m.consistent());
    lemma_run_true_branch(m, before, inside, c, fuel);
}

/// The entry function of `assigned_in_true_branch` obeys the structural
/// rules.
proof fn lemma_true_branch_consistent(module: ModuleView, before: i64, inside: i64, c: i64)
    requires
        module.functions.len() > 1,
        module.functions[1].blocks == true_branch_blocks(before, inside, c),
    ensures
        module.function_ok(1),
{
    let blocks = module.functions[1].blocks;
    let incoming = seq![(Value::Const(inside), 1usize), (Value::Const(0), 2usize)];
    assert(blocks[3].instrs[0] == InstrView::Phi { incoming });
    assert(incoming[0] == (Value::Const(inside), 1usize));
    assert(incoming[1] == (Value::Const(0), 2usize));
    assert(module.position_ok(1, 0, 0));
    assert(module.position_ok(1, 0, 1));
    assert(module.position_ok(1, 0, 2));
    assert(module.position_ok(1, 0, 3));
    assert(module.position_ok(1, 1, 0));
    assert(module.position_ok(1, 1, 1));
    assert(module.position_ok(1, 2, 0));
    assert(module.position_ok(1, 3, 0));
    assert(module.position_ok(1, 3, 1));
    assert(module.position_ok(1, 3, 2));
    assert(module.block_ok(1, 0));
    assert(module.block_ok(1, 1));
    assert(module.block_ok(1, 2));
    assert(module.block_ok(1, 3));
}

/// The program whose entry function assigns `before` to `x`, assigns
/// `inside` to it in the false branch of a conditional on `c` whose true
/// branch is empty, and returns `x`.
pub open spec fn assigned_in_false_branch(x: Name, before: i64, inside: i64, c: i64) -> Expr {
    entry_program(
        seq![
            Expr::Assignment(x, Box::new(Expr::Number(before))),
            Expr::Conditional {
                condition: Box::new(Expr::Number(c)),
                true_block: Box::new(Expr::Block(Seq::empty())),
                false_block: Some(
                    Box::new(
                        Expr::Block(seq![Expr::Assignment(x, Box::new(Expr::Number(inside)))]),
                    ),
                ),
            },
            Expr::Return(Box::new(Expr::Variable(x))),
        ],
    )
}

/// The blocks of the entry function of `assigned_in_false_branch`.
spec fn false_branch_blocks(before: i64, inside: i64, c: i64) -> Seq<BlockView> {
    let slot = Value::Inst(0, 0);
    seq![
        BlockView {
            kind: BlockKind::Entry,
            instrs: seq![
                InstrView::Alloca,
                InstrView::Store { slot, value: Value::Const(before) },
                InstrView::Compare { pred: Pred::Ne, lhs: Value::Const(c), rhs: Value::Const(0) },
                InstrView::CondBr { cond: Value::Inst(0, 2), then_target: 1, else_target: 2 },
            ],
        },
        BlockView { kind: BlockKind::Then, instrs: seq![InstrView::Br { target: 3 }] },
        BlockView {
            kind: BlockKind::Else,
            instrs: seq![
                InstrView::Store { slot, value: Value::Const(inside) },
                InstrView::Br { target: 3 },
            ],
        },
        BlockView {
            kind: BlockKind::Merge,
            instrs: seq![
                InstrView::Phi {
                    incoming: seq![(Value::Const(0), 1usize), (Value::Const(inside), 2usize)],
                },
                InstrView::Load { slot },
                InstrView::Ret { value: Value::Inst(3, 1) },
            ],
        },
    ]
}

proof fn lemma_false_branch_conditional(st: State, x: Name, before: i64, inside: i64, c: i64)
    requires
        st.cursor == Some((1usize, 0usize)),
        st.variables == seq![(x, Value::Inst(0, 0))],
        st.module.functions.len() == 2,
        st.module.functions[1].blocks.len() == 1,
        st.module.functions[1].blocks[0] == (BlockView {
            kind: BlockKind::Entry,
            instrs: seq![
                InstrView::Alloca,
                InstrView::Store { slot: Value::Inst(0, 0), value: Value::Const(before) },
            ],
        }),
    ensures
        generate(
            st,
            Expr::Conditional {
                condition: Box::new(Expr::Number(c)),
                true_block: Box::new(Expr::Block(Seq::empty())),
                false_block: Some(
                    Box::new(
                        Expr::Block(seq![Expr::Assignment(x, Box::new(Expr::Number(inside)))]),
                    ),
                ),
            },
        ) is Ok,
        ({
            let after = generate(
                st,
                Expr::Conditional {
                    condition: Box::new(Expr::Number(c)),
                    true_block: Box::new(Expr::Block(Seq::empty())),
                    false_block: Some(
                        Box::new(
                            Expr::Block(seq![Expr::Assignment(x, Box::new(Expr::Number(inside)))]),
                        ),
                    ),
                },
            )->Ok_0.0;
            &&& after.cursor == Some((1usize, 3usize))
            &&& after.variables == st.variables
            &&& after.module.functions.len() == 2
            &&& after.module.functions[0] == st.module.functions[0]
            &&& after.module.functions[1].name == st.module.functions[1].name
            &&& after.module.functions[1].kind == st.module.functions[1].kind
            &&& after.module.functions[1].arity == st.module.functions[1].arity
            &&& after.module.globals == st.module.globals
            &&& after.module.functions[1].blocks.len() == 4
            &&& after.module.functions[1].blocks[0] == false_branch_blocks(before, inside, c)[0]
            &&& after.module.functions[1].blocks[1] == false_branch_blocks(before, inside, c)[1]
            &&& after.module.functions[1].blocks[2] == false_branch_blocks(before, inside, c)[2]
            &&& after.module.functions[1].blocks[3] == (BlockView {
                kind: BlockKind::Merge,
                instrs: seq![
                    InstrView::Phi {
                        incoming: seq![(Value::Const(0), 1usize), (Value::Const(inside), 2usize)],
                    },
                ],
            })
        }),
{
    let slot = Value::Inst(0, 0);
    let base = st.variables;
    let assign = Expr::Assignment(x, Box::new(Expr::Number(inside)));
    let items = seq![assign];
    let nothing = Seq::<Expr>::empty();
    let conditional = Expr::Conditional {
        condition: Box::new(Expr::Number(c)),
        true_block: Box::new(Expr::Block(nothing)),
        false_block: Some(Box::new(Expr::Block(items))),
    };
    assert(generate(st, Expr::Number(c)) == Ok::<(State, Value), CompileErrorView>(
        (st, Value::Const(c)),
    ));
    // the fork
    let forked = st.fork(Value::Const(c));
    assert(forked is Ok);
    let st7 = forked->Ok_0.0;
    let fork = forked->Ok_0.1;
    assert(fork == Fork { function: 1, then_block: 1, else_block: 2, merge_block: 3 });
    assert(st7.cursor == Some((1usize, 1usize)));
    assert(st7.variables == base);
    assert(st7.module.functions.len() == 2);
    assert(st7.module.functions[1].blocks.len() == 4);
    assert(st7.module.functions[1].blocks[0].instrs =~= false_branch_blocks(before, inside, c)[0].instrs);
    assert(st7.module.functions[1].blocks[1].instrs =~= Seq::<InstrView>::empty());
    assert(st7.module.functions[1].blocks[2].instrs =~= Seq::<InstrView>::empty());
    assert(st7.module.functions[1].blocks[3].instrs =~= Seq::<InstrView>::empty());
    // the true branch, which is empty
    assert(generate_block(st7, nothing, 0, Value::Const(0)) == Ok::<(State, Value), CompileErrorView>(
        (st7, Value::Const(0)),
    ));
    assert(generate(st7, Expr::Block(nothing)) == Ok::<(State, Value), CompileErrorView>(
        (st7, Value::Const(0)),
    ));
    let then_end = st7.end_of_branch(Value::Const(0));
    assert(then_end == Branch { tail: 1, reaches: true, scope: base, value: Value::Const(0) });
    // the false branch
    let st9 = st7.enter_else(base, fork);
    assert(generate(st9, Expr::Number(inside)) == Ok::<(State, Value), CompileErrorView>(
        (st9, Value::Const(inside)),
    ));
    assert(lookup(base, x) == Some(slot)) by {
        assert(base.last() == (x, slot));
    }
    let st10 = st9.place(InstrView::Store { slot, value: Value::Const(inside) });
    assert(generate(st9, assign) == Ok::<(State, Value), CompileErrorView>(
        (st10, Value::Const(inside)),
    ));
    assert(items[0] == assign);
    assert(generate_block(st10, items, 1, Value::Const(inside)) == Ok::<
        (State, Value),
        CompileErrorView,
    >((st10, Value::Const(inside))));
    assert(generate_block(st9, items, 0, Value::Const(0)) == Ok::<(State, Value), CompileErrorView>(
        (st10, Value::Const(inside)),
    ));
    assert(generate(st9, Expr::Block(items)) == Ok::<(State, Value), CompileErrorView>(
        (st10, Value::Const(inside)),
    ));
    assert(st10.module.functions[1].blocks[2].instrs =~= seq![
        InstrView::Store { slot, value: Value::Const(inside) },
    ]);
    let else_end = st10.end_of_branch(Value::Const(inside));
    assert(else_end == Branch { tail: 2, reaches: true, scope: base, value: Value::Const(inside) });
    // the join
    let none = Seq::<Name>::empty();
    assert(changed_names(base, base, none, 1) == none);
    assert(changed_names(base, base, none, 0) == none);
    let (m1, then_values) = close_branch(st10.module, true, 1, 1, 3, none, base);
    assert(tail_values(st10.module, 1, 1, none, base, Seq::empty(), 0) == (
        st10.module,
        Seq::<Value>::empty(),
    ));
    assert(m1 == st10.module.push_instr(1, 1, InstrView::Br { target: 3 }));
    let (m2, else_values) = close_branch(m1, true, 1, 2, 3, none, base);
    assert(tail_values(m1, 1, 2, none, base, Seq::empty(), 0) == (m1, Seq::<Value>::empty()));
    assert(m2 == m1.push_instr(1, 2, InstrView::Br { target: 3 }));
    assert(name_phis(
        m2,
        fork,
        true,
        then_values,
        1,
        true,
        else_values,
        2,
        0,
        Seq::empty(),
        0,
    ) == (m2, Seq::<Value>::empty()));
    let incoming = edges(true, Value::Const(0), 1, true, Value::Const(inside), 2);
    assert(incoming =~= seq![(Value::Const(0), 1usize), (Value::Const(inside), 2usize)]);
    let m3 = m2.push_instr(1, 3, InstrView::Phi { incoming });
    assert(store_merged(m3, fork, none, Seq::empty(), base, 0) == m3);
    let joined = join(st10, base, fork, then_end, else_end);
    assert(joined.0.module == m3);
    assert(joined.1 == Value::Inst(3, 0));
    assert(generate(st, conditional) == Ok::<(State, Value), CompileErrorView>(joined));
    assert(m3.functions[1].blocks[1].instrs =~= false_branch_blocks(before, inside, c)[1].instrs);
    assert(m3.functions[1].blocks[2].instrs =~= false_branch_blocks(before, inside, c)[2].instrs);
    assert(m3.functions[1].blocks[3].instrs =~= seq![InstrView::Phi { incoming }]);
    assert(m3.functions[1].blocks[0] == st7.module.functions[1].blocks[0]);
}

/// What the entry function of `assigned_in_false_branch` computes.
proof fn lemma_run_false_branch(module: ModuleView, before: i64, inside: i64, c: i64, fuel: nat)
    requires
        module.functions.len() > 1,
        module.functions[1].blocks == false_branch_blocks(before, inside, c),
        fuel >= 10,
    ensures
        call(module, 1, Seq::empty(), Seq::empty(), fuel) == silent(
            if c != 0 {
                before
            } else {
                inside
            },
        ),
{
    let blocks = module.functions[1].blocks;
    let slot = (0usize, 0usize);
    assert(blocks.len() == 4);
    let entry = blocks[0].instrs;
    let then_block = blocks[1].instrs;
    let else_block = blocks[2].instrs;
    let merge = blocks[3].instrs;
    assert(entry.len() == 4 && then_block.len() == 1 && else_block.len() == 2 && merge.len() == 3);
    assert(entry[0] == InstrView::Alloca);
    assert(entry[1] == InstrView::Store { slot: Value::Inst(0, 0), value: Value::Const(before) });
    assert(entry[2] == InstrView::Compare {
        pred: Pred::Ne,
        lhs: Value::Const(c),
        rhs: Value::Const(0),
    });
    assert(entry[3] == InstrView::CondBr {
        cond: Value::Inst(0, 2),
        then_target: 1,
        else_target: 2,
    });
    assert(then_block[0] == InstrView::Br { target: 3 });
    assert(else_block[0] == InstrView::Store {
        slot: Value::Inst(0, 0),
        value: Value::Const(inside),
    });
    assert(else_block[1] == InstrView::Br { target: 3 });
    let incoming = seq![(Value::Const(0), 1usize), (Value::Const(inside), 2usize)];
    assert(merge[0] == InstrView::Phi { incoming });
    assert(merge[1] == InstrView::Load { slot: Value::Inst(0, 0) });
    assert(merge[2] == InstrView::Ret { value: Value::Inst(3, 1) });
    let bit = truth(Pred::Ne, c, 0);
    let f0 = Frame::start(Seq::empty(), Seq::empty());
    let f1 = Frame { cells: f0.cells.insert(slot, None), ..f0 };
    let f2 = Frame { cells: f1.cells.insert(slot, Some(before)), ..f1 };
    let f3 = f2.set((0usize, 2usize), bit);
    let n = (fuel - 1) as nat;
    assert(call(module, 1, Seq::empty(), Seq::empty(), fuel) == run(module, 1, f0, 0, 0, None, n));
    if c != 0 {
        assert(incoming_from(incoming, 1, 0) == Some(Value::Const(0)));
        let f5 = f3.set((3usize, 0usize), 0);
        let f6 = f5.set((3usize, 1usize), before);
        assert(run(module, 1, f6, 3, 2, Some(1usize), (n - 7) as nat) == silent(before));
        assert(run(module, 1, f5, 3, 1, Some(1usize), (n - 6) as nat) == silent(before));
        assert(run(module, 1, f3, 3, 0, Some(1usize), (n - 5) as nat) == silent(before));
        assert(run(module, 1, f3, 1, 0, Some(0usize), (n - 4) as nat) == silent(before));
        assert(run(module, 1, f3, 0, 3, None, (n - 3) as nat) == silent(before));
        assert(run(module, 1, f2, 0, 2, None, (n - 2) as nat) == silent(before));
        assert(run(module, 1, f1, 0, 1, None, (n - 1) as nat) == silent(before));
        assert(run(module, 1, f0, 0, 0, None, n) == silent(before));
    } else {
        let f4 = Frame { cells: f3.cells.insert(slot, Some(inside)), ..f3 };
        assert(incoming_from(incoming, 2, 1) == Some(Value::Const(inside)));
        assert(incoming_from(incoming, 2, 0) == Some(Value::Const(inside)));
        let f5 = f4.set((3usize, 0usize), inside);
        let f6 = f5.set((3usize, 1usize), inside);
        assert(run(module, 1, f6, 3, 2, Some(2usize), (n - 8) as nat) == silent(inside));
        assert(run(module, 1, f5, 3, 1, Some(2usize), (n - 7) as nat) == silent(inside));
        assert(run(module, 1, f4, 3, 0, Some(2usize), (n - 6) as nat) == silent(inside));
        assert(run(module, 1, f4, 2, 1, Some(0usize), (n - 5) as nat) == silent(inside));
        assert(run(module, 1, f3, 2, 0, Some(0usize), (n - 4) as nat) == silent(inside));
        assert(run(module, 1, f3, 0, 3, None, (n - 3) as nat) == silent(inside));
        assert(run(module, 1, f2, 0, 2, None, (n - 2) as nat) == silent(inside));
        assert(run(module, 1, f1, 0, 1, None, (n - 1) as nat) == silent(inside));
        assert(run(module, 1, f0, 0, 0, None, n) == silent(inside));
    }
}

/// The entry function of `assigned_in_false_branch` obeys the structural
/// rules.
proof fn lemma_false_branch_consistent(module: ModuleView, before: i64, inside: i64, c: i64)
    requires
        module.functions.len() > 1,
        module.functions[1].blocks == false_branch_blocks(before, inside, c),
    ensures
        module.function_ok(1),
{
    let blocks = module.functions[1].blocks;
    let incoming = seq![(Value::Const(0), 1usize), (Value::Const(inside), 2usize)];
    assert(blocks[3].instrs[0] == InstrView::Phi { incoming });
    assert(incoming[0] == (Value::Const(0), 1usize));
    assert(incoming[1] == (Value::Const(inside), 2usize));
    assert(module.position_ok(1, 0, 0));
    assert(module.position_ok(1, 0, 1));
    assert(module.position_ok(1, 0, 2));
    assert(module.position_ok(1, 0, 3));
    assert(module.position_ok(1, 1, 0));
    assert(module.position_ok(1, 2, 0));
    assert(module.position_ok(1, 2, 1));
    assert(module.position_ok(1, 3, 0));
    assert(module.position_ok(1, 3, 1));
    assert(module.position_ok(1, 3, 2));
    assert(module.block_ok(1, 0));
    assert(module.block_ok(1, 1));
    assert(module.block_ok(1, 2));
    assert(module.block_ok(1, 3));
}

/// Assignment in the other branch: a program that assigns to a variable,
/// then assigns to it again in the false branch of a conditional whose
/// true branch is empty, then returns the variable, compiles, and its
/// entry function returns the value assigned in the branch if the
/// condition is zero, and the value assigned before the conditional if it
/// is not.
pub proof fn law_assignment_in_false_branch(
    name: Name,
    x: Name,
    before: i64,
    inside: i64,
    c: i64,
    fuel: nat,
)
    requires
        fuel >= 10,
    ensures
        compile(initial(name), assigned_in_false_branch(x, before, inside, c)) is Ok,
        entry_result(
            compile(initial(name), assigned_in_false_branch(x, before, inside, c))->Ok_0.module,
            fuel,
        ) == silent(
            if c != 0 {
                before
            } else {
                inside
            },
        ),
{
    let first = Expr::Assignment(x, Box::new(Expr::Number(before)));
    let conditional = Expr::Conditional {
        condition: Box::new(Expr::Number(c)),
        true_block: Box::new(Expr::Block(Seq::empty())),
        false_block: Some(
            Box::new(Expr::Block(seq![Expr::Assignment(x, Box::new(Expr::Number(inside)))])),
        ),
    };
    let last = Expr::Return(Box::new(Expr::Variable(x)));
    let body = seq![first, conditional, last];
    let st0 = initial(name);
    let st1 = at_entry(name);
    let st4 = after_first(name, x, before);
    lemma_first_assignment(name, x, before);
    lemma_false_branch_conditional(st4, x, before, inside, c);
    let st10 = generate(st4, conditional)->Ok_0.0;
    let merged = generate(st4, conditional)->Ok_0.1;
    let slot = Value::Inst(0, 0);
    assert(lookup(st10.variables, x) == Some(slot)) by {
        assert(st10.variables.last() == (x, slot));
    }
    let st11 = st10.place(InstrView::Load { slot });
    let st12 = st11.place(InstrView::Ret { value: Value::Inst(3, 1) });
    assert(generate(st10, Expr::Variable(x)) == Ok::<(State, Value), CompileErrorView>(
        (st11, Value::Inst(3, 1)),
    ));
    assert(generate(st10, last) == Ok::<(State, Value), CompileErrorView>(
        (st12, Value::Inst(3, 1)),
    ));
    assert(body[0] == first && body[1] == conditional && body[2] == last);
    assert(generate_block(st10, body, 2, merged) == Ok::<(State, Value), CompileErrorView>(
        (st12, Value::Inst(3, 1)),
    ));
    assert(generate_block(st4, body, 1, Value::Const(before)) == Ok::<
        (State, Value),
        CompileErrorView,
    >((st12, Value::Inst(3, 1))));
    assert(generate_block(st1, body, 0, Value::Const(0)) == Ok::<(State, Value), CompileErrorView>(
        (st12, Value::Inst(3, 1)),
    ));
    lemma_entry_program(name, body, st12, Value::Inst(3, 1));
    let closed = st12.close_function(st0);
    let expected = false_branch_blocks(before, inside, c);
    assert(st12.module.functions[1].blocks[3].instrs =~= expected[3].instrs);
    assert(st12.module.functions[1].blocks =~= expected);
    assert(st12.terminated());
    assert(closed.module == st12.module);
    lemma_process_entry(closed.module);
    let m = with_process_entry(closed.module, 1);
    assert(m.functions[1].blocks == expected);
    lemma_false_branch_consistent(m, before, inside, c);
    assert(m.consistent());
    lemma_run_false_branch(m, before, inside, c, fuel);
}

} // verus!
