//! Programs without calls compute what their source says: the meaning of
//! expressions and statements, and the proof that the compiled code runs
//! to it.

use crate::error::CompileErrorView;
use crate::ir::BinOp;
use crate::ir::InstrView;
use crate::ir::ModuleView;
use crate::ir::Pred;
use crate::ir::Value;
use crate::laws::at_entry;
use crate::laws::entry_program;
use crate::laws::entry_result;
use crate::laws::lemma_entry_program;
use crate::laws::lemma_process_entry;
use crate::laws::scope::all_unbound;
use crate::laws::scope::keeps_bindings;
use crate::laws::scope::law_bindings_are_kept;
use crate::laws::scope::law_merged_names_are_new;
use crate::laws::shape::advanced;
use crate::laws::shape::all_ok;
use crate::laws::shape::all_phi;
use crate::laws::shape::appended;
use crate::laws::shape::are_statements;
use crate::laws::shape::blocks_from;
use crate::laws::shape::blocks_in;
use crate::laws::shape::blocks_of;
use crate::laws::shape::closed;
use crate::laws::shape::grows;
use crate::laws::shape::here;
use crate::laws::shape::is_body;
use crate::laws::shape::is_expression;
use crate::laws::shape::is_statement;
use crate::laws::shape::joinable;
use crate::laws::shape::lemma_advanced_self;
use crate::laws::shape::lemma_all_stay_ok;
use crate::laws::shape::lemma_appended_advanced;
use crate::laws::shape::lemma_assignment;
use crate::laws::shape::lemma_body_stays;
use crate::laws::shape::lemma_close_branch;
use crate::laws::shape::lemma_edges_ok;
use crate::laws::shape::lemma_emit;
use crate::laws::shape::lemma_expression;
use crate::laws::shape::lemma_expression_stays;
use crate::laws::shape::lemma_fork;
use crate::laws::shape::lemma_grows_on;
use crate::laws::shape::lemma_initial_tidy;
use crate::laws::shape::lemma_join;
use crate::laws::shape::lemma_lookup_member;
use crate::laws::shape::lemma_name_phis;
use crate::laws::shape::lemma_open_function;
use crate::laws::shape::lemma_operation;
use crate::laws::shape::lemma_push_frame;
use crate::laws::shape::lemma_push_phi;
use crate::laws::shape::lemma_push_sound;
use crate::laws::shape::lemma_same;
use crate::laws::shape::lemma_scope_stays_ok;
use crate::laws::shape::lemma_statement;
use crate::laws::shape::lemma_statements;
use crate::laws::shape::lemma_statements_stay;
use crate::laws::shape::lemma_tail_values;
use crate::laws::shape::lemma_value_stays_ok;
use crate::laws::shape::ready;
use crate::laws::shape::scope_ok;
use crate::laws::shape::sound;
use crate::laws::shape::within;
use crate::model::Branch;
use crate::model::Fork;
use crate::model::State;
use crate::model::arithmetic;
use crate::model::changed_names;
use crate::model::close_branch;
use crate::model::comparison;
use crate::model::compile;
use crate::model::edges;
use crate::model::entry_name;
use crate::model::generate;
use crate::model::generate_block;
use crate::model::initial;
use crate::model::join;
use crate::model::name_phis;
use crate::model::store_merged;
use crate::model::tail_values;
use crate::model::template;
use crate::model::with_process_entry;
use crate::scope::Name;
use crate::scope::lookup;
use crate::semantics::Finished;
use crate::semantics::Frame;
use crate::semantics::arithmetic_result;
use crate::semantics::call;
use crate::semantics::incoming_from;
use crate::semantics::run;
use crate::semantics::truth;
use crate::types::Expr;
use vstd::prelude::*;

verus! {

/// Whether `e` is built of numbers, variables and operations alone.
pub open spec fn is_pure(e: Expr) -> bool
    decreases e,
{
    match e {
        Expr::Number(_) => true,
        Expr::Variable(_) => true,
        Expr::Operation(_, left, right) => is_pure(*left) && is_pure(*right),
        _ => false,
    }
}

/// The value of an expression where the variables have the values that
/// `env` gives them. An operation on operands without a value has none,
/// nor has a division by zero.
pub open spec fn value_of(env: Map<Name, i64>, e: Expr) -> Option<i64>
    decreases e,
{
    match e {
        Expr::Number(n) => Some(n),
        Expr::Variable(name) => Some(env[name]),
        Expr::Operation(op, left, right) => match (value_of(env, *left), value_of(env, *right)) {
            (Some(a), Some(b)) => match arithmetic(op) {
                Some(op) => arithmetic_result(op, a, b),
                None => match comparison(op) {
                    Some(pred) => Some(truth(pred, a, b)),
                    None => None,
                },
            },
            _ => None,
        },
        _ => None,
    }
}

/// Where the execution of a function stands: the frame, the block and the
/// instruction in it that comes next, and the block that control came
/// from.
pub struct Place {
    pub frame: Frame,
    pub block: int,
    pub next: int,
    pub from: Option<usize>,
}

/// What function `f` of `module` yields from `place` on, given `fuel`.
pub open spec fn runs(module: ModuleView, f: int, place: Place, fuel: nat) -> Option<Finished> {
    run(module, f, place.frame, place.block, place.next, place.from, fuel)
}

/// With fuel for `steps` instructions and more, execution from `start`
/// goes on from `end`, with the fuel that is left.
pub open spec fn carries(module: ModuleView, f: int, start: Place, steps: nat, end: Place) -> bool {
    forall|fuel: nat|
        fuel >= steps ==> #[trigger] runs(module, f, start, fuel) == runs(
            module,
            f,
            end,
            (fuel - steps) as nat,
        )
}

/// With fuel for `steps` instructions and more, execution from `start`
/// ends with `result`.
pub open spec fn ends(
    module: ModuleView,
    f: int,
    start: Place,
    steps: nat,
    result: Option<Finished>,
) -> bool {
    forall|fuel: nat| fuel >= steps ==> #[trigger] runs(module, f, start, fuel) == result
}

/// One stretch of execution after another.
proof fn lemma_carries_on(
    module: ModuleView,
    f: int,
    a: Place,
    first: nat,
    b: Place,
    second: nat,
    c: Place,
)
    requires
        carries(module, f, a, first, b),
        carries(module, f, b, second, c),
    ensures
        carries(module, f, a, first + second, c),
{
    assert forall|fuel: nat| fuel >= first + second implies #[trigger] runs(module, f, a, fuel)
        == runs(module, f, c, (fuel - (first + second)) as nat) by {
        let left = (fuel - first) as nat;
        assert(runs(module, f, a, fuel) == runs(module, f, b, left));
        assert(runs(module, f, b, left) == runs(module, f, c, (left - second) as nat));
    }
}

/// A stretch of execution, and then the end.
proof fn lemma_carries_end(
    module: ModuleView,
    f: int,
    a: Place,
    first: nat,
    b: Place,
    second: nat,
    result: Option<Finished>,
)
    requires
        carries(module, f, a, first, b),
        ends(module, f, b, second, result),
    ensures
        ends(module, f, a, first + second, result),
{
    assert forall|fuel: nat| fuel >= first + second implies #[trigger] runs(module, f, a, fuel)
        == result by {
        let left = (fuel - first) as nat;
        assert(runs(module, f, a, fuel) == runs(module, f, b, left));
    }
}

/// Execution that stands still.
proof fn lemma_carries_nothing(module: ModuleView, f: int, a: Place)
    ensures
        carries(module, f, a, 0, a),
{
}

/// Whether `place` stands before instruction `instr` of `module`.
pub open spec fn before(module: ModuleView, f: int, place: Place, instr: InstrView) -> bool {
    &&& module.has_block(f, place.block)
    &&& 0 <= place.next < module.functions[f].blocks[place.block].instrs.len()
    &&& module.functions[f].blocks[place.block].instrs[place.next] == instr
}

/// The position of the instruction that `place` stands before.
pub open spec fn key(place: Place) -> (usize, usize) {
    (place.block as usize, place.next as usize)
}

/// The place after the instruction at `place`, in `frame`.
pub open spec fn step(place: Place, frame: Frame) -> Place {
    Place { frame, next: place.next + 1, ..place }
}

proof fn lemma_step_alloca(module: ModuleView, f: int, place: Place)
    requires
        before(module, f, place, InstrView::Alloca),
    ensures
        carries(
            module,
            f,
            place,
            1,
            step(place, Frame { cells: place.frame.cells.insert(key(place), None), ..place.frame }),
        ),
{
}

proof fn lemma_step_load(module: ModuleView, f: int, place: Place, sb: usize, si: usize, v: i64)
    requires
        before(module, f, place, InstrView::Load { slot: Value::Inst(sb, si) }),
        place.frame.cells.contains_key((sb, si)),
        place.frame.cells[(sb, si)] == Some(v),
    ensures
        carries(module, f, place, 1, step(place, place.frame.set(key(place), v))),
{
}

proof fn lemma_step_store(
    module: ModuleView,
    f: int,
    place: Place,
    sb: usize,
    si: usize,
    value: Value,
    v: i64,
)
    requires
        before(module, f, place, InstrView::Store { slot: Value::Inst(sb, si), value }),
        place.frame.cells.contains_key((sb, si)),
        place.frame.operand(value) == Some(v),
    ensures
        carries(
            module,
            f,
            place,
            1,
            step(place, Frame { cells: place.frame.cells.insert((sb, si), Some(v)), ..place.frame }),
        ),
{
}

proof fn lemma_step_binary(
    module: ModuleView,
    f: int,
    place: Place,
    op: BinOp,
    lhs: Value,
    rhs: Value,
    a: i64,
    b: i64,
)
    requires
        before(module, f, place, InstrView::Binary { op, lhs, rhs }),
        place.frame.operand(lhs) == Some(a),
        place.frame.operand(rhs) == Some(b),
    ensures
        match arithmetic_result(op, a, b) {
            Some(v) => carries(module, f, place, 1, step(place, place.frame.set(key(place), v))),
            None => ends(module, f, place, 0, None),
        },
{
    match arithmetic_result(op, a, b) {
        Some(v) => {},
        None => {
            assert forall|fuel: nat| fuel >= 0 implies #[trigger] runs(module, f, place, fuel)
                == None::<Finished> by {}
        },
    }
}

proof fn lemma_step_compare(
    module: ModuleView,
    f: int,
    place: Place,
    pred: Pred,
    lhs: Value,
    rhs: Value,
    a: i64,
    b: i64,
)
    requires
        before(module, f, place, InstrView::Compare { pred, lhs, rhs }),
        place.frame.operand(lhs) == Some(a),
        place.frame.operand(rhs) == Some(b),
    ensures
        carries(module, f, place, 1, step(place, place.frame.set(key(place), truth(pred, a, b)))),
{
}

proof fn lemma_step_extend(module: ModuleView, f: int, place: Place, value: Value, v: i64)
    requires
        before(module, f, place, InstrView::ZExt { value }),
        place.frame.operand(value) == Some(v),
    ensures
        carries(module, f, place, 1, step(place, place.frame.set(key(place), v))),
{
}

proof fn lemma_step_phi(
    module: ModuleView,
    f: int,
    place: Place,
    incoming: Seq<(Value, usize)>,
    from: usize,
    value: Value,
    v: i64,
)
    requires
        before(module, f, place, InstrView::Phi { incoming }),
        place.from == Some(from),
        incoming_from(incoming, from, 0) == Some(value),
        place.frame.operand(value) == Some(v),
    ensures
        carries(module, f, place, 1, step(place, place.frame.set(key(place), v))),
{
}

proof fn lemma_step_branch(module: ModuleView, f: int, place: Place, target: usize)
    requires
        before(module, f, place, InstrView::Br { target }),
    ensures
        carries(
            module,
            f,
            place,
            1,
            Place {
                frame: place.frame,
                block: target as int,
                next: 0,
                from: Some(place.block as usize),
            },
        ),
{
}

proof fn lemma_step_fork(
    module: ModuleView,
    f: int,
    place: Place,
    cond: Value,
    then_target: usize,
    else_target: usize,
    c: i64,
)
    requires
        before(module, f, place, InstrView::CondBr { cond, then_target, else_target }),
        place.frame.operand(cond) == Some(c),
    ensures
        carries(
            module,
            f,
            place,
            1,
            Place {
                frame: place.frame,
                block: if c != 0 {
                    then_target as int
                } else {
                    else_target as int
                },
                next: 0,
                from: Some(place.block as usize),
            },
        ),
{
}

proof fn lemma_step_return(module: ModuleView, f: int, place: Place, value: Value, v: i64)
    requires
        before(module, f, place, InstrView::Ret { value }),
        place.frame.operand(value) == Some(v),
    ensures
        ends(module, f, place, 1, Some((v, place.frame.output))),
{
}

/// Whether `slot` is a slot that holds `v` in `frame`.
pub open spec fn slot_holds(frame: Frame, slot: Value, v: i64) -> bool {
    match slot {
        Value::Inst(sb, si) => frame.cells.contains_key((sb, si)) && frame.cells[(sb, si)]
            == Some(v),
        _ => false,
    }
}

/// Whether the slot of every name that `scope` binds holds, in `frame`,
/// the value that `env` gives the name.
pub open spec fn holds_env(scope: Seq<(Name, Value)>, frame: Frame, env: Map<Name, i64>) -> bool {
    forall|name: Name|
        (#[trigger] lookup(scope, name)) is Some ==> slot_holds(
            frame,
            lookup(scope, name)->0,
            env[name],
        )
}

/// Whether the numbers of string constants and of blocks and
/// instructions of function `f` are within the range of indices.
pub open spec fn small(module: ModuleView, f: int) -> bool {
    &&& module.globals.len() <= usize::MAX
    &&& module.functions[f].blocks.len() <= usize::MAX
    &&& forall|c: int|
        0 <= c < module.functions[f].blocks.len() ==> (
        #[trigger] module.functions[f].blocks[c]).instrs.len() <= usize::MAX
}

/// Whether `later` is `frame` but for the results of the instructions of
/// block `b` from instruction `n` on.
pub open spec fn same_but(frame: Frame, later: Frame, b: int, n: int) -> bool {
    &&& later.args == frame.args
    &&& later.cells == frame.cells
    &&& later.output == frame.output
    &&& forall|at: (usize, usize)|
        !(at.0 == b && at.1 >= n) ==> (#[trigger] later.values.contains_key(at))
            == frame.values.contains_key(at) && later.values[at] == frame.values[at]
}

/// One change of results after another.
proof fn lemma_same_but_on(a: Frame, b: Frame, c: Frame, block: int, first: int, second: int)
    requires
        same_but(a, b, block, first),
        same_but(b, c, block, second),
        first <= second,
    ensures
        same_but(a, c, block, first),
{
    assert forall|at: (usize, usize)| !(at.0 == block && at.1 >= first) implies (
    #[trigger] c.values.contains_key(at)) == a.values.contains_key(at) && c.values[at]
        == a.values[at] by {
        assert(b.values.contains_key(at) == a.values.contains_key(at));
    }
}

/// A pure expression is an expression.
proof fn lemma_pure_is_expression(st: State, e: Expr)
    requires
        is_pure(e),
    ensures
        is_expression(st, e),
    decreases e,
{
    match e {
        Expr::Operation(_, left, right) => {
            lemma_pure_is_expression(st, *left);
            lemma_pure_is_expression(st, *right);
        },
        _ => {},
    }
}

/// An instruction of a module stands where it stood in every module that
/// grew from it.
proof fn lemma_located(
    early: ModuleView,
    module: ModuleView,
    f: int,
    b: int,
    i: int,
    frame: Frame,
    from: Option<usize>,
)
    requires
        grows(early, module),
        early.has_block(f, b),
        0 <= i < early.functions[f].blocks[b].instrs.len(),
    ensures
        before(
            module,
            f,
            Place { frame, block: b, next: i, from },
            early.functions[f].blocks[b].instrs[i],
        ),
{
    assert(early.functions[f].blocks.len() <= module.functions[f].blocks.len());
    assert(early.functions[f].blocks[b].instrs.len() <= module.functions[f].blocks[b].instrs.len());
    assert(module.functions[f].blocks[b].instrs[i] == early.functions[f].blocks[b].instrs[i]);
}

/// The number of instructions in the block at the cursor.
pub open spec fn length(st: State) -> int {
    st.module.functions[here(st)].blocks[st.block() as int].instrs.len() as int
}

/// The place at the cursor of `st`, in `frame`.
pub open spec fn place_of(st: State, frame: Frame, from: Option<usize>) -> Place {
    Place { frame, block: st.block() as int, next: length(st), from }
}

/// The instruction appended at the cursor of `st` stands, in every module
/// that grew from the result, where the cursor stood.
proof fn lemma_at_cursor(
    st: State,
    instr: InstrView,
    module: ModuleView,
    frame: Frame,
    from: Option<usize>,
)
    requires
        st.cursor is Some,
        st.wf(),
        grows(st.place(instr).module, module),
        small(module, here(st)),
    ensures
        before(module, here(st), place_of(st, frame, from), instr),
        st.next_value() == Value::Inst(st.block(), length(st) as usize),
        key(place_of(st, frame, from)) == (st.block(), length(st) as usize),
        (length(st) as usize) as int == length(st),
        length(st.place(instr)) == length(st) + 1,
        st.place(instr).block() == st.block(),
        here(st.place(instr)) == here(st),
{
    let f = here(st);
    let b = st.block() as int;
    let after = st.place(instr);
    lemma_located(after.module, module, f, b, length(st), frame, from);
    assert(module.functions[f].blocks[b].instrs.len() <= usize::MAX);
}

/// A pure expression runs to its value. The compiled code, run from the
/// place where the cursor stood in a frame that holds the values of the
/// variables, arrives where the cursor stands after the expression, with
/// the value of the expression in the value that the expression yields;
/// or it has no result, if the expression has no value.
proof fn lemma_pure(
    st: State,
    e: Expr,
    module: ModuleView,
    frame: Frame,
    env: Map<Name, i64>,
    from: Option<usize>,
) -> (r: (nat, Frame))
    requires
        ready(st),
        is_pure(e),
        generate(st, e) is Ok,
        grows(generate(st, e)->Ok_0.0.module, module),
        small(module, here(st)),
        holds_env(st.variables, frame, env),
    ensures
        ({
            let (after, value) = generate(st, e)->Ok_0;
            match value_of(env, e) {
                Some(x) => {
                    &&& carries(
                        module,
                        here(st),
                        place_of(st, frame, from),
                        r.0,
                        place_of(after, r.1, from),
                    )
                    &&& r.1.operand(value) == Some(x)
                    &&& same_but(frame, r.1, st.block() as int, length(st))
                },
                None => ends(module, here(st), place_of(st, frame, from), r.0, None),
            }
        }),
    decreases e,
{
    let f = here(st);
    let b = st.block() as int;
    let start = place_of(st, frame, from);
    match e {
        Expr::Number(n) => {
            lemma_carries_nothing(module, f, start);
            (0, frame)
        },
        Expr::Variable(name) => {
            let slot = lookup(st.variables, name)->0;
            let load = InstrView::Load { slot };
            lemma_at_cursor(st, load, module, frame, from);
            assert(slot_holds(frame, slot, env[name]));
            match slot {
                Value::Inst(sb, si) => {
                    lemma_step_load(module, f, start, sb, si, env[name]);
                },
                _ => {},
            }
            let end = frame.set(key(start), env[name]);
            assert(step(start, end) == place_of(st.place(load), end, from));
            (1, end)
        },
        Expr::Operation(op, left, right) => {
            lemma_pure_is_expression(st, *left);
            lemma_pure_is_expression(st, *right);
            lemma_expression(st, *left);
            let (st1, lhs) = generate(st, *left)->Ok_0;
            lemma_expression_stays(st, st1, *right);
            lemma_expression(st1, *right);
            let (st2, rhs) = generate(st1, *right)->Ok_0;
            lemma_value_stays_ok(st1.module, st2.module, f, lhs);
            lemma_operation(st2, op, lhs, rhs);
            let (st3, value) = st2.operation(op, lhs, rhs)->Ok_0;
            lemma_grows_on(st2.module, st3.module, module);
            lemma_grows_on(st1.module, st2.module, module);
            let (k1, f1) = lemma_pure(st, *left, module, frame, env, from);
            match value_of(env, *left) {
                None => (k1, frame),
                Some(a) => {
                    let middle = place_of(st1, f1, from);
                    let (k2, f2) = lemma_pure(st1, *right, module, f1, env, from);
                    match value_of(env, *right) {
                        None => {
                            lemma_carries_end(module, f, start, k1, middle, k2, None);
                            (k1 + k2, frame)
                        },
                        Some(bv) => {
                            let ready_place = place_of(st2, f2, from);
                            lemma_carries_on(module, f, start, k1, middle, k2, ready_place);
                            assert(f2.operand(lhs) == Some(a)) by {
                                match lhs {
                                    Value::Inst(lb, li) => {
                                        assert(!(lb == b && li >= length(st1)));
                                        assert(f1.values.contains_key((lb, li)));
                                    },
                                    _ => {},
                                }
                            }
                            assert(length(st) <= length(st1) <= length(st2));
                            lemma_same_but_on(frame, f1, f2, b, length(st), length(st1));
                            let (k3, f3) = lemma_operate(
                                st2,
                                op,
                                lhs,
                                rhs,
                                a,
                                bv,
                                module,
                                f2,
                                from,
                            );
                            match value_of(env, e) {
                                Some(x) => {
                                    lemma_carries_on(
                                        module,
                                        f,
                                        start,
                                        k1 + k2,
                                        ready_place,
                                        k3,
                                        place_of(st3, f3, from),
                                    );
                                    lemma_same_but_on(frame, f2, f3, b, length(st), length(st2));
                                    (k1 + k2 + k3, f3)
                                },
                                None => {
                                    lemma_carries_end(
                                        module,
                                        f,
                                        start,
                                        k1 + k2,
                                        ready_place,
                                        k3,
                                        None,
                                    );
                                    (k1 + k2 + k3, frame)
                                },
                            }
                        },
                    }
                },
            }
        },
        _ => (0, frame),
    }
}

/// An operation on operands that have values runs to the result of the
/// operation, or has no result if the operation has none.
proof fn lemma_operate(
    st: State,
    op: Name,
    lhs: Value,
    rhs: Value,
    a: i64,
    b: i64,
    module: ModuleView,
    frame: Frame,
    from: Option<usize>,
) -> (r: (nat, Frame))
    requires
        ready(st),
        st.operation(op, lhs, rhs) is Ok,
        grows(st.operation(op, lhs, rhs)->Ok_0.0.module, module),
        small(module, here(st)),
        frame.operand(lhs) == Some(a),
        frame.operand(rhs) == Some(b),
    ensures
        ({
            let (after, value) = st.operation(op, lhs, rhs)->Ok_0;
            let result = match arithmetic(op) {
                Some(op) => arithmetic_result(op, a, b),
                None => match comparison(op) {
                    Some(pred) => Some(truth(pred, a, b)),
                    None => None,
                },
            };
            match result {
                Some(x) => {
                    &&& carries(
                        module,
                        here(st),
                        place_of(st, frame, from),
                        r.0,
                        place_of(after, r.1, from),
                    )
                    &&& r.1.operand(value) == Some(x)
                    &&& same_but(frame, r.1, st.block() as int, length(st))
                },
                None => ends(module, here(st), place_of(st, frame, from), r.0, None),
            }
        }),
{
    let f = here(st);
    let start = place_of(st, frame, from);
    match arithmetic(op) {
        Some(binary) => {
            let instr = InstrView::Binary { op: binary, lhs, rhs };
            lemma_at_cursor(st, instr, module, frame, from);
            lemma_step_binary(module, f, start, binary, lhs, rhs, a, b);
            match arithmetic_result(binary, a, b) {
                Some(x) => {
                    let end = frame.set(key(start), x);
                    assert(step(start, end) == place_of(st.place(instr), end, from));
                    (1, end)
                },
                None => (0, frame),
            }
        },
        None => {
            let pred = comparison(op)->0;
            let compare = InstrView::Compare { pred, lhs, rhs };
            let st1 = st.place(compare);
            let bit = st.next_value();
            let extend = InstrView::ZExt { value: bit };
            let st2 = st1.place(extend);
            crate::laws::shape::lemma_push_frame(
                st1.module,
                f,
                st1.block() as int,
                extend,
            );
            lemma_grows_on(st1.module, st2.module, module);
            lemma_at_cursor(st, compare, module, frame, from);
            lemma_step_compare(module, f, start, pred, lhs, rhs, a, b);
            let x = truth(pred, a, b);
            let f1 = frame.set(key(start), x);
            let middle = place_of(st1, f1, from);
            assert(step(start, f1) == middle);
            lemma_at_cursor(st1, extend, module, f1, from);
            lemma_step_extend(module, f, middle, bit, x);
            let f2 = f1.set(key(middle), x);
            assert(step(middle, f2) == place_of(st2, f2, from));
            lemma_carries_on(module, f, start, 1, middle, 1, place_of(st2, f2, from));
            (2, f2)
        },
    }
}

/// Whether each of `values` has a value in `frame`.
pub open spec fn all_set(frame: Frame, values: Seq<Value>) -> bool {
    forall|j: int| 0 <= j < values.len() ==> frame.operand(#[trigger] values[j]) is Some
}

/// A value that exists in a module names no instruction of block `b` from
/// instruction `n` on, if the block has `n` instructions there; so its
/// result stays as it is when these instructions run.
proof fn lemma_operand_stays(
    module: ModuleView,
    f: int,
    value: Value,
    frame: Frame,
    later: Frame,
    b: int,
    n: int,
)
    requires
        module.value_ok(f, value),
        module.has_block(f, b),
        module.functions[f].blocks[b].instrs.len() <= n,
        same_but(frame, later, b, n),
    ensures
        later.operand(value) == frame.operand(value),
{
    match value {
        Value::Inst(vb, vi) => {
            assert(!(vb == b && vi >= n));
            assert(later.values.contains_key((vb, vi)) == frame.values.contains_key((vb, vi)));
        },
        _ => {},
    }
}

/// The reads at the end of a branch run: each value read is set after
/// them, and the slots are as they were.
proof fn lemma_run_tail(
    early: ModuleView,
    f: usize,
    tail: usize,
    names: Seq<Name>,
    scope: Seq<(Name, Value)>,
    values: Seq<Value>,
    k: int,
    module: ModuleView,
    frame: Frame,
    env: Map<Name, i64>,
    from: Option<usize>,
) -> (r: (nat, Frame))
    requires
        early.has_block(f as int, tail as int),
        sound(early, f as int),
        !closed(early, f as int, tail as int),
        scope_ok(early, f as int, scope),
        all_ok(early, f as int, values),
        0 <= k <= names.len(),
        grows(tail_values(early, f, tail, names, scope, values, k).0, module),
        small(module, f as int),
        holds_env(scope, frame, env),
        all_set(frame, values),
    ensures
        ({
            let (after, read) = tail_values(early, f, tail, names, scope, values, k);
            &&& carries(
                module,
                f as int,
                Place {
                    frame,
                    block: tail as int,
                    next: early.functions[f as int].blocks[tail as int].instrs.len() as int,
                    from,
                },
                r.0,
                Place {
                    frame: r.1,
                    block: tail as int,
                    next: after.functions[f as int].blocks[tail as int].instrs.len() as int,
                    from,
                },
            )
            &&& all_set(r.1, read)
            &&& same_but(
                frame,
                r.1,
                tail as int,
                early.functions[f as int].blocks[tail as int].instrs.len() as int,
            )
        }),
    decreases names.len() - k,
{
    let fi = f as int;
    let ti = tail as int;
    let n = early.functions[fi].blocks[ti].instrs.len() as int;
    let start = Place { frame, block: ti, next: n, from };
    if k < names.len() {
        match lookup(scope, names[k]) {
            Some(slot) => {
                lemma_lookup_member(scope, names[k]);
                let load = InstrView::Load { slot };
                let next = early.push_instr(fi, ti, load);
                let value = Value::Inst(tail, n as usize);
                lemma_push_sound(early, fi, ti, load);
                lemma_push_frame(early, fi, ti, load);
                lemma_scope_stays_ok(early, next, fi, scope);
                lemma_all_stay_ok(early, next, fi, values);
                let more = values.push(value);
                assert(all_ok(next, fi, more)) by {
                    assert forall|j: int| 0 <= j < more.len() implies next.value_ok(
                        fi,
                        #[trigger] more[j],
                    ) by {
                        if j < values.len() {
                            assert(more[j] == values[j]);
                        }
                    }
                }
                lemma_tail_values(next, f, tail, names, scope, more, k + 1);
                let (after, read) = tail_values(next, f, tail, names, scope, more, k + 1);
                lemma_grows_on(next, after, module);
                lemma_located(next, module, fi, ti, n, frame, from);
                assert(module.functions[fi].blocks[ti].instrs.len() <= usize::MAX);
                assert(slot_holds(frame, slot, env[names[k]]));
                let x = env[names[k]];
                match slot {
                    Value::Inst(sb, si) => {
                        lemma_step_load(module, fi, start, sb, si, x);
                    },
                    _ => {},
                }
                let f1 = frame.set(key(start), x);
                assert(all_set(f1, more)) by {
                    assert forall|j: int| 0 <= j < more.len() implies f1.operand(
                        #[trigger] more[j],
                    ) is Some by {
                        if j < values.len() {
                            assert(more[j] == values[j]);
                            assert(frame.operand(values[j]) is Some);
                            match values[j] {
                                Value::Inst(vb, vi) => {
                                    assert(early.value_ok(fi, values[j]));
                                },
                                _ => {},
                            }
                        }
                    }
                }
                let (k2, f2) = lemma_run_tail(
                    next,
                    f,
                    tail,
                    names,
                    scope,
                    more,
                    k + 1,
                    module,
                    f1,
                    env,
                    from,
                );
                let middle = Place { frame: f1, block: ti, next: n + 1, from };
                assert(step(start, f1) == middle);
                let end = Place {
                    frame: f2,
                    block: ti,
                    next: after.functions[fi].blocks[ti].instrs.len() as int,
                    from,
                };
                lemma_carries_on(module, fi, start, 1, middle, k2, end);
                assert(same_but(frame, f1, ti, n));
                lemma_same_but_on(frame, f1, f2, ti, n, n + 1);
                (1 + k2, f2)
            },
            None => {
                let more = values.push(Value::Const(0));
                assert(all_ok(early, fi, more)) by {
                    assert forall|j: int| 0 <= j < more.len() implies early.value_ok(
                        fi,
                        #[trigger] more[j],
                    ) by {
                        if j < values.len() {
                            assert(more[j] == values[j]);
                        }
                    }
                }
                assert(all_set(frame, more)) by {
                    assert forall|j: int| 0 <= j < more.len() implies frame.operand(
                        #[trigger] more[j],
                    ) is Some by {
                        if j < values.len() {
                            assert(more[j] == values[j]);
                        }
                    }
                }
                lemma_run_tail(early, f, tail, names, scope, more, k + 1, module, frame, env, from)
            },
        }
    } else {
        lemma_carries_nothing(module, fi, start);
        (0, frame)
    }
}

/// Where none of the merged names is bound before the conditional,
/// nothing is stored back.
proof fn lemma_store_none(
    module: ModuleView,
    fork: Fork,
    names: Seq<Name>,
    merged: Seq<Value>,
    base: Seq<(Name, Value)>,
    k: int,
)
    requires
        all_unbound(names, base),
    ensures
        store_merged(module, fork, names, merged, base, k) == module,
    decreases names.len() - k,
{
    if 0 <= k < names.len() {
        assert(lookup(base, names[k]) is None);
        lemma_store_none(module, fork, names, merged, base, k + 1);
    }
}

/// The value that a phi node at a join takes for the branch that control
/// came from.
proof fn lemma_edge_taken(
    then_reaches: bool,
    then_value: Value,
    then_tail: usize,
    else_reaches: bool,
    else_value: Value,
    else_tail: usize,
    side: bool,
)
    requires
        then_tail != else_tail,
        side ==> then_reaches,
        !side ==> else_reaches,
    ensures
        incoming_from(
            edges(then_reaches, then_value, then_tail, else_reaches, else_value, else_tail),
            if side {
                then_tail
            } else {
                else_tail
            },
            0,
        ) == Some(
            if side {
                then_value
            } else {
                else_value
            },
        ),
{
    let all = edges(then_reaches, then_value, then_tail, else_reaches, else_value, else_tail);
    if then_reaches && else_reaches {
        assert(all =~= seq![(then_value, then_tail), (else_value, else_tail)]);
        assert(incoming_from(all, else_tail, 1) == Some(else_value));
    } else if then_reaches {
        assert(all =~= seq![(then_value, then_tail)]);
    } else if else_reaches {
        assert(all =~= seq![(else_value, else_tail)]);
    }
}

/// The phi nodes of the merged names run, for the branch that control
/// came from.
proof fn lemma_run_phis(
    early: ModuleView,
    fork: Fork,
    then_reaches: bool,
    then_values: Seq<Value>,
    then_tail: usize,
    else_reaches: bool,
    else_values: Seq<Value>,
    else_tail: usize,
    count: int,
    merged: Seq<Value>,
    k: int,
    module: ModuleView,
    frame: Frame,
    side: bool,
) -> (r: (nat, Frame))
    requires
        early.has_block(fork.function as int, fork.merge_block as int),
        early.has_block(fork.function as int, then_tail as int),
        early.has_block(fork.function as int, else_tail as int),
        sound(early, fork.function as int),
        all_phi(early, fork.function as int, fork.merge_block as int),
        all_ok(early, fork.function as int, then_values),
        all_ok(early, fork.function as int, else_values),
        all_ok(early, fork.function as int, merged),
        then_reaches ==> then_values.len() == count,
        else_reaches ==> else_values.len() == count,
        0 <= k <= count,
        grows(
            name_phis(
                early,
                fork,
                then_reaches,
                then_values,
                then_tail,
                else_reaches,
                else_values,
                else_tail,
                count,
                merged,
                k,
            ).0,
            module,
        ),
        small(module, fork.function as int),
        then_tail != else_tail,
        side ==> then_reaches && all_set(frame, then_values),
        !side ==> else_reaches && all_set(frame, else_values),
    ensures
        ({
            let (after, all) = name_phis(
                early,
                fork,
                then_reaches,
                then_values,
                then_tail,
                else_reaches,
                else_values,
                else_tail,
                count,
                merged,
                k,
            );
            let f = fork.function as int;
            let merge = fork.merge_block as int;
            let from = Some(
                if side {
                    then_tail
                } else {
                    else_tail
                },
            );
            &&& carries(
                module,
                f,
                Place {
                    frame,
                    block: merge,
                    next: early.functions[f].blocks[merge].instrs.len() as int,
                    from,
                },
                r.0,
                Place {
                    frame: r.1,
                    block: merge,
                    next: after.functions[f].blocks[merge].instrs.len() as int,
                    from,
                },
            )
            &&& same_but(frame, r.1, merge, early.functions[f].blocks[merge].instrs.len() as int)
        }),
    decreases count - k,
{
    let f = fork.function as int;
    let merge = fork.merge_block as int;
    let n = early.functions[f].blocks[merge].instrs.len() as int;
    let from_block = if side {
        then_tail
    } else {
        else_tail
    };
    let start = Place { frame, block: merge, next: n, from: Some(from_block) };
    if k < count {
        let incoming = edges(
            then_reaches,
            then_values[k],
            then_tail,
            else_reaches,
            else_values[k],
            else_tail,
        );
        lemma_edges_ok(
            early,
            f,
            then_reaches,
            then_values[k],
            then_tail,
            else_reaches,
            else_values[k],
            else_tail,
        );
        lemma_push_phi(early, f, fork.merge_block, incoming);
        let phi = InstrView::Phi { incoming };
        let next = early.push_instr(f, merge, phi);
        lemma_push_frame(early, f, merge, phi);
        let value = Value::Inst(fork.merge_block, n as usize);
        lemma_all_stay_ok(early, next, f, then_values);
        lemma_all_stay_ok(early, next, f, else_values);
        lemma_all_stay_ok(early, next, f, merged);
        let more = merged.push(value);
        assert(all_ok(next, f, more)) by {
            assert forall|j: int| 0 <= j < more.len() implies next.value_ok(
                f,
                #[trigger] more[j],
            ) by {
                if j < merged.len() {
                    assert(more[j] == merged[j]);
                }
            }
        }
        lemma_name_phis(
            next,
            fork,
            then_reaches,
            then_values,
            then_tail,
            else_reaches,
            else_values,
            else_tail,
            count,
            more,
            k + 1,
        );
        let (after, all) = name_phis(
            next,
            fork,
            then_reaches,
            then_values,
            then_tail,
            else_reaches,
            else_values,
            else_tail,
            count,
            more,
            k + 1,
        );
        lemma_grows_on(next, after, module);
        lemma_located(next, module, f, merge, n, frame, Some(from_block));
        assert(module.functions[f].blocks[merge].instrs.len() <= usize::MAX);
        lemma_edge_taken(
            then_reaches,
            then_values[k],
            then_tail,
            else_reaches,
            else_values[k],
            else_tail,
            side,
        );
        let taken = if side {
            then_values[k]
        } else {
            else_values[k]
        };
        let x = frame.operand(taken)->0;
        lemma_step_phi(module, f, start, incoming, from_block, taken, x);
        let f1 = frame.set(key(start), x);
        assert(same_but(frame, f1, merge, n));
        if side {
            assert(all_set(f1, then_values)) by {
                assert forall|j: int| 0 <= j < then_values.len() implies f1.operand(
                    #[trigger] then_values[j],
                ) is Some by {
                    lemma_operand_stays(early, f, then_values[j], frame, f1, merge, n);
                }
            }
        } else {
            assert(all_set(f1, else_values)) by {
                assert forall|j: int| 0 <= j < else_values.len() implies f1.operand(
                    #[trigger] else_values[j],
                ) is Some by {
                    lemma_operand_stays(early, f, else_values[j], frame, f1, merge, n);
                }
            }
        }
        let (k2, f2) = lemma_run_phis(
            next,
            fork,
            then_reaches,
            then_values,
            then_tail,
            else_reaches,
            else_values,
            else_tail,
            count,
            more,
            k + 1,
            module,
            f1,
            side,
        );
        let middle = Place { frame: f1, block: merge, next: n + 1, from: Some(from_block) };
        assert(step(start, f1) == middle);
        let end = Place {
            frame: f2,
            block: merge,
            next: after.functions[f].blocks[merge].instrs.len() as int,
            from: Some(from_block),
        };
        lemma_carries_on(module, f, start, 1, middle, k2, end);
        lemma_same_but_on(frame, f1, f2, merge, n, n + 1);
        (1 + k2, f2)
    } else {
        lemma_carries_nothing(module, f, start);
        (0, frame)
    }
}

/// The names that the join of a conditional merges.
pub open spec fn merged_names(base: Seq<(Name, Value)>, then_end: Branch, else_end: Branch) -> Seq<
    Name,
> {
    changed_names(else_end.scope, base, changed_names(then_end.scope, base, Seq::empty(), 0), 0)
}

/// The end of a branch that reaches the join runs into the join: from
/// the end of the branch, execution arrives after the join, where the
/// value of the conditional is the value of the branch, and the slots are
/// as the branch left them.
proof fn lemma_run_join(
    st: State,
    base: Seq<(Name, Value)>,
    fork: Fork,
    then_end: Branch,
    else_end: Branch,
    module: ModuleView,
    frame: Frame,
    env: Map<Name, i64>,
    from: Option<usize>,
    x: i64,
    side: bool,
) -> (r: (nat, Frame))
    requires
        joinable(st, base, fork, then_end, else_end),
        all_unbound(merged_names(base, then_end, else_end), base),
        grows(join(st, base, fork, then_end, else_end).0.module, module),
        small(module, fork.function as int),
        side ==> then_end.reaches && holds_env(then_end.scope, frame, env) && frame.operand(
            then_end.value,
        ) == Some(x) && keeps_bindings(base, then_end.scope),
        !side ==> else_end.reaches && holds_env(else_end.scope, frame, env) && frame.operand(
            else_end.value,
        ) == Some(x) && keeps_bindings(base, else_end.scope),
    ensures
        ({
            let (last, value) = join(st, base, fork, then_end, else_end);
            let f = fork.function as int;
            let tail = if side {
                then_end.tail
            } else {
                else_end.tail
            };
            &&& carries(
                module,
                f,
                Place {
                    frame,
                    block: tail as int,
                    next: st.module.functions[f].blocks[tail as int].instrs.len() as int,
                    from,
                },
                r.0,
                place_of(last, r.1, Some(tail)),
            )
            &&& r.1.operand(value) == Some(x)
            &&& holds_env(base, r.1, env)
            &&& r.1.output == frame.output
            &&& r.1.args == frame.args
            &&& r.1.cells == frame.cells
        }),
{
    let f = fork.function as int;
    let merge = fork.merge_block as int;
    let names = merged_names(base, then_end, else_end);
    let m0 = st.module;
    lemma_join(st, base, fork, then_end, else_end);
    let (last, value) = join(st, base, fork, then_end, else_end);
    // the modules that the join goes through
    lemma_close_branch(
        m0,
        then_end.reaches,
        fork.function,
        then_end.tail,
        fork.merge_block,
        names,
        then_end.scope,
    );
    let (m1, then_values) = close_branch(
        m0,
        then_end.reaches,
        fork.function,
        then_end.tail,
        fork.merge_block,
        names,
        then_end.scope,
    );
    assert(m1.functions[f].blocks[else_end.tail as int]
        == m0.functions[f].blocks[else_end.tail as int]);
    assert(m1.functions[f].blocks[merge] == m0.functions[f].blocks[merge]);
    lemma_scope_stays_ok(m0, m1, f, else_end.scope);
    lemma_close_branch(
        m1,
        else_end.reaches,
        fork.function,
        else_end.tail,
        fork.merge_block,
        names,
        else_end.scope,
    );
    let (m2, else_values) = close_branch(
        m1,
        else_end.reaches,
        fork.function,
        else_end.tail,
        fork.merge_block,
        names,
        else_end.scope,
    );
    assert(m2.functions[f].blocks[merge] == m1.functions[f].blocks[merge]);
    lemma_all_stay_ok(m1, m2, f, then_values);
    assert(all_phi(m2, f, merge));
    lemma_name_phis(
        m2,
        fork,
        then_end.reaches,
        then_values,
        then_end.tail,
        else_end.reaches,
        else_values,
        else_end.tail,
        names.len() as int,
        Seq::empty(),
        0,
    );
    let (m3, merged) = name_phis(
        m2,
        fork,
        then_end.reaches,
        then_values,
        then_end.tail,
        else_end.reaches,
        else_values,
        else_end.tail,
        names.len() as int,
        Seq::empty(),
        0,
    );
    lemma_grows_on(m0, m1, m2);
    lemma_value_stays_ok(m0, m2, f, then_end.value);
    lemma_value_stays_ok(m0, m2, f, else_end.value);
    lemma_value_stays_ok(m2, m3, f, then_end.value);
    lemma_value_stays_ok(m2, m3, f, else_end.value);
    let incoming = edges(
        then_end.reaches,
        then_end.value,
        then_end.tail,
        else_end.reaches,
        else_end.value,
        else_end.tail,
    );
    lemma_edges_ok(
        m3,
        f,
        then_end.reaches,
        then_end.value,
        then_end.tail,
        else_end.reaches,
        else_end.value,
        else_end.tail,
    );
    lemma_push_phi(m3, f, fork.merge_block, incoming);
    let phi = InstrView::Phi { incoming };
    let m4 = m3.push_instr(f, merge, phi);
    lemma_push_frame(m3, f, merge, phi);
    lemma_store_none(m4, fork, names, merged, base, 0);
    assert(last.module == m4);
    lemma_grows_on(m3, m4, module);
    lemma_grows_on(m2, m3, module);
    lemma_grows_on(m1, m2, module);
    let n3 = m3.functions[f].blocks[merge].instrs.len() as int;
    // the reads and the branch at the end of the branch taken
    let tail = if side {
        then_end.tail
    } else {
        else_end.tail
    };
    let ti = tail as int;
    let n = m0.functions[f].blocks[ti].instrs.len() as int;
    let start = Place { frame, block: ti, next: n, from };
    let branch = InstrView::Br { target: fork.merge_block };
    let (k1, f1, closing) = if side {
        lemma_tail_values(m0, fork.function, tail, names, then_end.scope, Seq::empty(), 0);
        let (loaded, read) = tail_values(
            m0,
            fork.function,
            tail,
            names,
            then_end.scope,
            Seq::empty(),
            0,
        );
        lemma_push_frame(loaded, f, ti, branch);
        lemma_grows_on(loaded, m1, module);
        let (k, fr) = lemma_run_tail(
            m0,
            fork.function,
            tail,
            names,
            then_end.scope,
            Seq::empty(),
            0,
            module,
            frame,
            env,
            from,
        );
        let at = loaded.functions[f].blocks[ti].instrs.len() as int;
        lemma_located(m1, module, f, ti, at, fr, from);
        (k, fr, at)
    } else {
        lemma_tail_values(m1, fork.function, tail, names, else_end.scope, Seq::empty(), 0);
        let (loaded, read) = tail_values(
            m1,
            fork.function,
            tail,
            names,
            else_end.scope,
            Seq::empty(),
            0,
        );
        lemma_push_frame(loaded, f, ti, branch);
        lemma_grows_on(loaded, m2, module);
        let (k, fr) = lemma_run_tail(
            m1,
            fork.function,
            tail,
            names,
            else_end.scope,
            Seq::empty(),
            0,
            module,
            frame,
            env,
            from,
        );
        let at = loaded.functions[f].blocks[ti].instrs.len() as int;
        lemma_located(m2, module, f, ti, at, fr, from);
        (k, fr, at)
    };
    let at_branch = Place { frame: f1, block: ti, next: closing, from };
    lemma_step_branch(module, f, at_branch, fork.merge_block);
    let at_join = Place { frame: f1, block: merge, next: 0, from: Some(tail) };
    lemma_carries_on(module, f, start, k1, at_branch, 1, at_join);
    // the phi nodes
    let (k2, f2) = lemma_run_phis(
        m2,
        fork,
        then_end.reaches,
        then_values,
        then_end.tail,
        else_end.reaches,
        else_values,
        else_end.tail,
        names.len() as int,
        Seq::empty(),
        0,
        module,
        f1,
        side,
    );
    let at_value = Place { frame: f2, block: merge, next: n3, from: Some(tail) };
    lemma_carries_on(module, f, start, k1 + 1, at_join, k2, at_value);
    lemma_located(m4, module, f, merge, n3, f2, Some(tail));
    assert(module.functions[f].blocks[merge].instrs.len() <= usize::MAX);
    lemma_edge_taken(
        then_end.reaches,
        then_end.value,
        then_end.tail,
        else_end.reaches,
        else_end.value,
        else_end.tail,
        side,
    );
    let taken = if side {
        then_end.value
    } else {
        else_end.value
    };
    lemma_operand_stays(m0, f, taken, frame, f1, ti, n);
    lemma_operand_stays(m0, f, taken, f1, f2, merge, 0);
    lemma_step_phi(module, f, at_value, incoming, tail, taken, x);
    let f3 = f2.set(key(at_value), x);
    let end = place_of(last, f3, Some(tail));
    assert(step(at_value, f3) == end);
    lemma_carries_on(module, f, start, k1 + 1 + k2, at_value, 1, end);
    assert(holds_env(base, f3, env)) by {
        assert forall|name: Name| (#[trigger] lookup(base, name)) is Some implies slot_holds(
            f3,
            lookup(base, name)->0,
            env[name],
        ) by {
            if side {
                assert(lookup(then_end.scope, name) == lookup(base, name));
            } else {
                assert(lookup(else_end.scope, name) == lookup(base, name));
            }
        }
    }
    (k1 + 1 + k2 + 1, f3)
}

/// Whether the names that `scope` binds have slots of their own.
pub open spec fn distinct_slots(scope: Seq<(Name, Value)>) -> bool {
    forall|a: Name, b: Name|
        #![trigger lookup(scope, a), lookup(scope, b)]
        a != b && lookup(scope, a) is Some && lookup(scope, b) is Some ==> lookup(scope, a)
            != lookup(scope, b)
}

/// Whether `e` is a plain statement: an assignment, a print or a return
/// of a pure expression, a conditional on a pure expression with blocks of
/// plain statements for branches, or a pure expression.
pub open spec fn is_plain(e: Expr) -> bool
    decreases e, 1nat,
{
    match e {
        Expr::Assignment(_, value) => is_pure(*value),
        Expr::Print(_, value) => is_pure(*value),
        Expr::Return(value) => is_pure(*value),
        Expr::Conditional { condition, true_block, false_block } => is_pure(*condition)
            && is_plain_body(*true_block) && match false_block {
            Some(false_block) => is_plain_body(*false_block),
            None => true,
        },
        _ => is_pure(e),
    }
}

/// Whether `e` is a block of plain statements.
pub open spec fn is_plain_body(e: Expr) -> bool
    decreases e, 0nat,
{
    match e {
        Expr::Block(items) => are_plain(items, 0),
        _ => false,
    }
}

/// Whether each of `items`, from item `i` on, is a plain statement.
pub open spec fn are_plain(items: Seq<Expr>, i: int) -> bool
    decreases items, items.len() - i,
{
    if i < 0 || i >= items.len() {
        true
    } else {
        is_plain(items[i]) && are_plain(items, i + 1)
    }
}

/// A line of output: the template that the formatted-output primitive
/// got, and the value printed with it.
pub type Line = (Seq<char>, i64);

/// What the execution of a statement leads to.
pub enum Step {
    /// The statement after it comes next: the variables have the values
    /// that `env` gives them, the statement has yielded `value`, and
    /// `output` has been printed so far.
    Next { env: Map<Name, i64>, value: i64, output: Seq<Line> },
    /// The function has returned `value`, after `output` was printed.
    Done { value: i64, output: Seq<Line> },
    /// Nothing: an expression had no value.
    Stuck,
}

/// What a plain statement means: what its execution leads to where the
/// variables have the values that `env` gives them and `output` has been
/// printed so far.
pub open spec fn perform(env: Map<Name, i64>, output: Seq<Line>, e: Expr) -> Step
    decreases e, 1nat,
{
    match e {
        Expr::Assignment(name, value) => match value_of(env, *value) {
            Some(x) => Step::Next { env: env.insert(name, x), value: x, output },
            None => Step::Stuck,
        },
        Expr::Print(format, value) => match value_of(env, *value) {
            Some(x) => Step::Next { env, value: x, output: output.push((template(format), x)) },
            None => Step::Stuck,
        },
        Expr::Return(value) => match value_of(env, *value) {
            Some(x) => Step::Done { value: x, output },
            None => Step::Stuck,
        },
        Expr::Conditional { condition, true_block, false_block } => match value_of(
            env,
            *condition,
        ) {
            Some(c) => if c != 0 {
                perform_body(env, output, *true_block)
            } else {
                match false_block {
                    Some(false_block) => perform_body(env, output, *false_block),
                    None => Step::Next { env, value: 0, output },
                }
            },
            None => Step::Stuck,
        },
        _ => match value_of(env, e) {
            Some(x) => Step::Next { env, value: x, output },
            None => Step::Stuck,
        },
    }
}

/// What a block of plain statements means.
pub open spec fn perform_body(env: Map<Name, i64>, output: Seq<Line>, e: Expr) -> Step
    decreases e, 0nat,
{
    match e {
        Expr::Block(items) => perform_from(env, output, items, 0, 0),
        _ => Step::Stuck,
    }
}

/// What the statements from `i` on mean, one after the other; `last` is
/// the value of the statement before them.
pub open spec fn perform_from(
    env: Map<Name, i64>,
    output: Seq<Line>,
    items: Seq<Expr>,
    i: int,
    last: i64,
) -> Step
    decreases items, items.len() - i,
{
    if i < 0 || i >= items.len() {
        Step::Next { env, value: last, output }
    } else {
        match perform(env, output, items[i]) {
            Step::Next { env, value, output } => perform_from(env, output, items, i + 1, value),
            Step::Done { value, output } => Step::Done { value, output },
            Step::Stuck => Step::Stuck,
        }
    }
}

/// Whether the records `printed` of a run of `module` are the lines
/// `lines`: each record names the template of its line among the string
/// constants of the module, and holds the value of its line.
pub open spec fn same_lines(module: ModuleView, printed: Seq<(usize, i64)>, lines: Seq<Line>) -> bool {
    &&& printed.len() == lines.len()
    &&& forall|k: int|
        0 <= k < printed.len() ==> {
            &&& (#[trigger] printed[k]).0 < module.globals.len()
            &&& module.globals[printed[k].0 as int] == lines[k].0
            &&& printed[k].1 == lines[k].1
        }
}

/// A plain statement is a statement.
proof fn lemma_plain_is_statement(st: State, e: Expr)
    requires
        is_plain(e),
    ensures
        is_statement(st, e),
    decreases e, 1nat,
{
    match e {
        Expr::Assignment(_, value) => lemma_pure_is_expression(st, *value),
        Expr::Print(_, value) => lemma_pure_is_expression(st, *value),
        Expr::Return(value) => lemma_pure_is_expression(st, *value),
        Expr::Conditional { condition, true_block, false_block } => {
            lemma_pure_is_expression(st, *condition);
            lemma_plain_body_is_body(st, *true_block);
            match false_block {
                Some(false_block) => lemma_plain_body_is_body(st, *false_block),
                None => {},
            }
        },
        _ => lemma_pure_is_expression(st, e),
    }
}

proof fn lemma_plain_body_is_body(st: State, e: Expr)
    requires
        is_plain_body(e),
    ensures
        is_body(st, e),
    decreases e, 0nat,
{
    match e {
        Expr::Block(items) => lemma_plain_are_statements(st, items, 0),
        _ => {},
    }
}

proof fn lemma_plain_are_statements(st: State, items: Seq<Expr>, i: int)
    requires
        are_plain(items, i),
    ensures
        are_statements(st, items, i),
    decreases items, items.len() - i,
{
    if 0 <= i < items.len() {
        lemma_plain_is_statement(st, items[i]);
        lemma_plain_are_statements(st, items, i + 1);
    }
}

/// An assignment of a value runs: after it, the slot of the name holds
/// the value.
proof fn lemma_run_assignment(
    st: State,
    name: Name,
    value: Value,
    x: i64,
    module: ModuleView,
    frame: Frame,
    env: Map<Name, i64>,
    from: Option<usize>,
) -> (r: (nat, Frame))
    requires
        ready(st),
        st.module.value_ok(here(st), value),
        st.assignment(name, value) is Ok,
        grows(st.assignment(name, value)->Ok_0.0.module, module),
        small(module, here(st)),
        holds_env(st.variables, frame, env),
        distinct_slots(st.variables),
        frame.operand(value) == Some(x),
    ensures
        ({
            let (after, yielded) = st.assignment(name, value)->Ok_0;
            &&& carries(
                module,
                here(st),
                place_of(st, frame, from),
                r.0,
                place_of(after, r.1, from),
            )
            &&& r.1.operand(yielded) == Some(x)
            &&& holds_env(after.variables, r.1, env.insert(name, x))
            &&& distinct_slots(after.variables)
            &&& r.1.output == frame.output
            &&& r.1.args == frame.args
        }),
{
    let f = here(st);
    let b = st.block() as int;
    let start = place_of(st, frame, from);
    let env2 = env.insert(name, x);
    match lookup(st.variables, name) {
        Some(slot) => {
            let store = InstrView::Store { slot, value };
            lemma_at_cursor(st, store, module, frame, from);
            assert(slot_holds(frame, slot, env[name]));
            match slot {
                Value::Inst(sb, si) => {
                    lemma_step_store(module, f, start, sb, si, value, x);
                    let end = Frame { cells: frame.cells.insert((sb, si), Some(x)), ..frame };
                    assert(step(start, end) == place_of(st.place(store), end, from));
                    assert(holds_env(st.variables, end, env2)) by {
                        assert forall|other: Name|
                            (#[trigger] lookup(st.variables, other)) is Some implies slot_holds(
                            end,
                            lookup(st.variables, other)->0,
                            env2[other],
                        ) by {
                            assert(slot_holds(frame, lookup(st.variables, other)->0, env[other]));
                            if other != name {
                                assert(lookup(st.variables, other) != lookup(st.variables, name));
                            }
                        }
                    }
                    (1, end)
                },
                _ => (0, frame),
            }
        },
        None => {
            let alloca = InstrView::Alloca;
            let st1 = st.place(alloca);
            let slot = st.next_value();
            lemma_emit(st, alloca);
            let st2 = State { variables: st1.variables.push((name, slot)), ..st1 };
            let store = InstrView::Store { slot, value };
            let st3 = st2.place(store);
            lemma_push_frame(st2.module, f, b, store);
            lemma_grows_on(st1.module, st3.module, module);
            lemma_at_cursor(st, alloca, module, frame, from);
            lemma_step_alloca(module, f, start);
            let f1 = Frame { cells: frame.cells.insert(key(start), None), ..frame };
            let middle = place_of(st2, f1, from);
            assert(step(start, f1) == middle);
            lemma_at_cursor(st2, store, module, f1, from);
            let n = length(st);
            lemma_step_store(module, f, middle, st.block(), n as usize, value, x);
            let f2 = Frame { cells: f1.cells.insert(key(start), Some(x)), ..f1 };
            let end = place_of(st3, f2, from);
            assert(step(middle, f2) == end);
            lemma_carries_on(module, f, start, 1, middle, 1, end);
            let longer = st2.variables;
            assert(longer.drop_last() =~= st.variables);
            assert forall|other: Name| other != name implies lookup(longer, other) == lookup(
                st.variables,
                other,
            ) by {}
            assert forall|other: Name| (#[trigger] lookup(st.variables, other)) is Some implies lookup(
                st.variables,
                other,
            )->0 != slot by {
                lemma_lookup_member(st.variables, other);
            }
            assert(holds_env(longer, f2, env2)) by {
                assert forall|other: Name|
                    (#[trigger] lookup(longer, other)) is Some implies slot_holds(
                    f2,
                    lookup(longer, other)->0,
                    env2[other],
                ) by {
                    if other != name {
                        assert(lookup(st.variables, other) is Some);
                        assert(slot_holds(frame, lookup(st.variables, other)->0, env[other]));
                    }
                }
            }
            assert(distinct_slots(longer)) by {
                assert forall|p: Name, q: Name|
                    #![trigger lookup(longer, p), lookup(longer, q)]
                    p != q && lookup(longer, p) is Some && lookup(longer, q) is Some implies lookup(
                    longer,
                    p,
                ) != lookup(longer, q) by {
                    if p != name && q != name {
                        assert(lookup(st.variables, p) != lookup(st.variables, q));
                    } else if p == name {
                        assert(lookup(st.variables, q) is Some);
                    } else {
                        assert(lookup(st.variables, p) is Some);
                    }
                }
            }
            (2, f2)
        },
    }
}

/// What execution from `start` leads to, seen from the code: after
/// `steps` instructions it stands at the cursor of `after`, where `value`
/// has the value that the statement yielded, the slots hold what the
/// variables have and the output is what has been printed; or it has
/// ended, with the value returned and the output `printed`, or without a
/// result.
pub open spec fn leads(
    module: ModuleView,
    f: int,
    start: Place,
    step: Step,
    after: State,
    value: Value,
    steps: nat,
    frame: Frame,
    from: Option<usize>,
    printed: Seq<(usize, i64)>,
) -> bool {
    match step {
        Step::Next { env, value: x, output } => {
            &&& carries(module, f, start, steps, place_of(after, frame, from))
            &&& frame.operand(value) == Some(x)
            &&& holds_env(after.variables, frame, env)
            &&& distinct_slots(after.variables)
            &&& same_lines(module, frame.output, output)
            &&& frame.args == start.frame.args
            &&& !closed(after.module, f, after.block() as int)
        },
        Step::Done { value: x, output } => ends(module, f, start, steps, Some((x, printed)))
            && same_lines(module, printed, output),
        Step::Stuck => ends(module, f, start, steps, None),
    }
}

/// The run of a print.
proof fn lemma_step_print(
    module: ModuleView,
    f: int,
    place: Place,
    callee: usize,
    g: usize,
    value: Value,
    x: i64,
)
    requires
        before(module, f, place, InstrView::Call { callee, args: seq![Value::Global(g), value] }),
        callee < module.functions.len(),
        module.functions[callee as int].kind is Output,
        g < module.globals.len(),
        place.frame.operand(value) == Some(x),
    ensures
        carries(
            module,
            f,
            place,
            1,
            step(place, Frame { output: place.frame.output.push((g, x)), ..place.frame }),
        ),
{
    let args = seq![Value::Global(g), value];
    assert(args.len() == 2);
    assert(args[0] == Value::Global(g));
    assert(args[1] == value);
    assert(crate::semantics::printed(module, place.frame, args) == Some((g, x)));
}

/// A print of a value runs: after it, the output has one line more.
proof fn lemma_run_print(
    st: State,
    format: crate::types::PrintFormat,
    value: Value,
    x: i64,
    module: ModuleView,
    frame: Frame,
    from: Option<usize>,
) -> (r: Frame)
    requires
        ready(st),
        st.module.value_ok(here(st), value),
        grows(st.print(format, value)->Ok_0.0.module, module),
        small(module, here(st)),
        frame.operand(value) == Some(x),
    ensures
        ({
            let (after, yielded) = st.print(format, value)->Ok_0;
            let g = st.module.globals.len() as usize;
            &&& carries(module, here(st), place_of(st, frame, from), 1, place_of(after, r, from))
            &&& r == (Frame { output: frame.output.push((g, x)), ..frame })
            &&& g < module.globals.len()
            &&& module.globals[g as int] == template(format)
            &&& yielded == value
            &&& after.variables == st.variables
        }),
{
    let f = here(st);
    let g = st.module.globals.len() as usize;
    let text = Value::Global(g);
    let st1 = State { module: st.module.add_global(template(format)), ..st };
    crate::laws::shape::lemma_add_global(st, template(format));
    let call = InstrView::Call { callee: crate::model::output_function(), args: seq![text, value] };
    lemma_at_cursor(st1, call, module, frame, from);
    let after = st1.place(call);
    assert(module.globals.len() <= usize::MAX);
    assert(st1.module.globals[st.module.globals.len() as int] == template(format));
    assert(after.module.globals == st1.module.globals);
    assert(module.globals[st.module.globals.len() as int] == template(format));
    assert(module.functions[0].kind == st.module.functions[0].kind);
    assert(place_of(st1, frame, from) == place_of(st, frame, from));
    lemma_step_print(module, f, place_of(st, frame, from), 0, g, value, x);
    let end = Frame { output: frame.output.push((g, x)), ..frame };
    assert(step(place_of(st, frame, from), end) == place_of(after, end, from));
    end
}

/// A plain statement runs to what it means.
proof fn lemma_plain(
    st: State,
    e: Expr,
    module: ModuleView,
    frame: Frame,
    env: Map<Name, i64>,
    output: Seq<Line>,
    from: Option<usize>,
) -> (r: (nat, Frame, Option<usize>, Seq<(usize, i64)>))
    requires
        ready(st),
        is_plain(e),
        blocks_of(st) + blocks_in(e) <= usize::MAX,
        generate(st, e) is Ok,
        grows(generate(st, e)->Ok_0.0.module, module),
        small(module, here(st)),
        holds_env(st.variables, frame, env),
        distinct_slots(st.variables),
        same_lines(module, frame.output, output),
    ensures
        leads(
            module,
            here(st),
            place_of(st, frame, from),
            perform(env, output, e),
            generate(st, e)->Ok_0.0,
            generate(st, e)->Ok_0.1,
            r.0,
            r.1,
            r.2,
            r.3,
        ),
    decreases e, 1nat,
{
    let f = here(st);
    let start = place_of(st, frame, from);
    lemma_plain_is_statement(st, e);
    lemma_statement(st, e);
    match e {
        Expr::Assignment(name, inner) => {
            lemma_pure_is_expression(st, *inner);
            lemma_expression(st, *inner);
            let (st1, v) = generate(st, *inner)->Ok_0;
            lemma_assignment(st1, name, v);
            let (st2, yielded) = st1.assignment(name, v)->Ok_0;
            lemma_grows_on(st1.module, st2.module, module);
            let (k1, f1) = lemma_pure(st, *inner, module, frame, env, from);
            match value_of(env, *inner) {
                Some(x) => {
                    let (k2, f2) = lemma_run_assignment(st1, name, v, x, module, f1, env, from);
                    lemma_carries_on(
                        module,
                        f,
                        start,
                        k1,
                        place_of(st1, f1, from),
                        k2,
                        place_of(st2, f2, from),
                    );
                    (k1 + k2, f2, from, frame.output)
                },
                None => (k1, frame, from, frame.output),
            }
        },
        Expr::Print(format, inner) => {
            lemma_pure_is_expression(st, *inner);
            lemma_expression(st, *inner);
            let (st1, v) = generate(st, *inner)->Ok_0;
            crate::laws::shape::lemma_print(st1, format, v);
            let (st2, yielded) = st1.print(format, v)->Ok_0;
            lemma_grows_on(st1.module, st2.module, module);
            let (k1, f1) = lemma_pure(st, *inner, module, frame, env, from);
            match value_of(env, *inner) {
                Some(x) => {
                    let f2 = lemma_run_print(st1, format, v, x, module, f1, from);
                    lemma_carries_on(
                        module,
                        f,
                        start,
                        k1,
                        place_of(st1, f1, from),
                        1,
                        place_of(st2, f2, from),
                    );
                    let lines = output.push((template(format), x));
                    assert(same_lines(module, f2.output, lines)) by {
                        assert forall|k: int| 0 <= k < f2.output.len() implies {
                            &&& (#[trigger] f2.output[k]).0 < module.globals.len()
                            &&& module.globals[f2.output[k].0 as int] == lines[k].0
                            &&& f2.output[k].1 == lines[k].1
                        } by {
                            if k < frame.output.len() {
                                assert(f2.output[k] == frame.output[k]);
                                assert(lines[k] == output[k]);
                            }
                        }
                    }
                    (k1 + 1, f2, from, frame.output)
                },
                None => (k1, frame, from, frame.output),
            }
        },
        Expr::Return(inner) => {
            lemma_pure_is_expression(st, *inner);
            lemma_expression(st, *inner);
            let (st1, v) = generate(st, *inner)->Ok_0;
            let ret = InstrView::Ret { value: v };
            lemma_push_frame(st1.module, f, st1.block() as int, ret);
            let (k1, f1) = lemma_pure(st, *inner, module, frame, env, from);
            match value_of(env, *inner) {
                Some(x) => {
                    lemma_at_cursor(st1, ret, module, f1, from);
                    lemma_step_return(module, f, place_of(st1, f1, from), v, x);
                    lemma_carries_end(
                        module,
                        f,
                        start,
                        k1,
                        place_of(st1, f1, from),
                        1,
                        Some((x, frame.output)),
                    );
                    (k1 + 1, frame, from, frame.output)
                },
                None => (k1, frame, from, frame.output),
            }
        },
        Expr::Conditional { .. } => lemma_plain_conditional(
            st,
            e,
            module,
            frame,
            env,
            output,
            from,
        ),
        _ => {
            lemma_pure_is_expression(st, e);
            lemma_expression(st, e);
            let (k1, f1) = lemma_pure(st, e, module, frame, env, from);
            (k1, f1, from, frame.output)
        },
    }
}

/// The plain statements of a block run to what they mean.
proof fn lemma_plain_from(
    st: State,
    items: Seq<Expr>,
    i: int,
    last: Value,
    last_value: i64,
    module: ModuleView,
    frame: Frame,
    env: Map<Name, i64>,
    output: Seq<Line>,
    from: Option<usize>,
) -> (r: (nat, Frame, Option<usize>, Seq<(usize, i64)>))
    requires
        ready(st),
        are_plain(items, i),
        0 <= i <= items.len(),
        st.module.value_ok(here(st), last),
        blocks_of(st) + blocks_from(items, i) <= usize::MAX,
        generate_block(st, items, i, last) is Ok,
        grows(generate_block(st, items, i, last)->Ok_0.0.module, module),
        small(module, here(st)),
        holds_env(st.variables, frame, env),
        distinct_slots(st.variables),
        same_lines(module, frame.output, output),
        frame.operand(last) == Some(last_value),
    ensures
        leads(
            module,
            here(st),
            place_of(st, frame, from),
            perform_from(env, output, items, i, last_value),
            generate_block(st, items, i, last)->Ok_0.0,
            generate_block(st, items, i, last)->Ok_0.1,
            r.0,
            r.1,
            r.2,
            r.3,
        ),
    decreases items, items.len() - i,
{
    let f = here(st);
    let start = place_of(st, frame, from);
    if i < items.len() {
        lemma_plain_are_statements(st, items, i);
        lemma_statement(st, items[i]);
        let (st1, value) = generate(st, items[i])->Ok_0;
        if items[i] is Return {
            lemma_plain(st, items[i], module, frame, env, output, from)
        } else {
            lemma_statements_stay(st, st1, items, i + 1);
            lemma_statements(st1, items, i + 1, value);
            let (st2, yielded) = generate_block(st1, items, i + 1, value)->Ok_0;
            lemma_grows_on(st1.module, st2.module, module);
            let (k1, f1, from1, seen1) = lemma_plain(st, items[i], module, frame, env, output, from);
            match perform(env, output, items[i]) {
                Step::Next { env: env1, value: x, output: out1 } => {
                    let (k2, f2, from2, seen2) = lemma_plain_from(
                        st1,
                        items,
                        i + 1,
                        value,
                        x,
                        module,
                        f1,
                        env1,
                        out1,
                        from1,
                    );
                    let middle = place_of(st1, f1, from1);
                    match perform_from(env1, out1, items, i + 1, x) {
                        Step::Next { .. } => {
                            lemma_carries_on(
                                module,
                                f,
                                start,
                                k1,
                                middle,
                                k2,
                                place_of(st2, f2, from2),
                            );
                        },
                        Step::Done { value: y, output: lines } => {
                            lemma_carries_end(module, f, start, k1, middle, k2, Some((y, seen2)));
                        },
                        Step::Stuck => {
                            lemma_carries_end(module, f, start, k1, middle, k2, None);
                        },
                    }
                    (k1 + k2, f2, from2, seen2)
                },
                _ => (k1, f1, from1, seen1),
            }
        }
    } else {
        lemma_carries_nothing(module, f, start);
        (0, frame, from, frame.output)
    }
}

/// The states that the compilation of a conditional goes through.
pub struct Parts {
    /// After the condition.
    pub st1: State,
    /// The value of the condition.
    pub cv: Value,
    /// At the start of the true branch.
    pub sf: State,
    pub fork: Fork,
    pub after_then: State,
    pub then_value: Value,
    /// At the start of the false branch.
    pub se: State,
    pub after_else: State,
    pub else_value: Value,
}

/// The states that the compilation of the conditional `e` from `st` goes
/// through, if it succeeds.
pub open spec fn parts(st: State, e: Expr) -> Parts {
    let condition = *e->condition;
    let true_block = *e->true_block;
    let (st1, cv) = generate(st, condition)->Ok_0;
    let (sf, fork) = st1.fork(cv)->Ok_0;
    let (after_then, then_value) = generate(sf, true_block)->Ok_0;
    let se = after_then.enter_else(sf.variables, fork);
    let (after_else, else_value) = match e->false_block {
        Some(inner) => generate(se, *inner)->Ok_0,
        None => (se, Value::Const(0)),
    };
    Parts { st1, cv, sf, fork, after_then, then_value, se, after_else, else_value }
}

/// The items of a block.
pub open spec fn items_of(e: Expr) -> Seq<Expr> {
    e->Block_0
}

/// What holds of the states that the compilation of a conditional goes
/// through.
#[verifier::rlimit(100)]
proof fn lemma_parts(st: State, e: Expr)
    requires
        ready(st),
        e is Conditional,
        is_plain(e),
        blocks_of(st) + blocks_in(e) <= usize::MAX,
        generate(st, e) is Ok,
    ensures
        ({
            let p = parts(st, e);
            let f = here(st);
            let b = st.block() as int;
            let n = blocks_of(st);
            let base = st.variables;
            let then_end = p.after_then.end_of_branch(p.then_value);
            let else_end = p.after_else.end_of_branch(p.else_value);
            let compare = InstrView::Compare {
                pred: Pred::Ne,
                lhs: p.cv,
                rhs: Value::Const(0),
            };
            let branch = InstrView::CondBr {
                cond: Value::Inst(st.block(), length(p.st1) as usize),
                then_target: p.fork.then_block,
                else_target: p.fork.else_block,
            };
            // the condition
            &&& generate(st, *e->condition) == Ok::<(State, Value), CompileErrorView>((p.st1, p.cv))
            &&& appended(st, p.st1)
            // the fork
            &&& p.st1.fork(p.cv) == Ok::<(State, Fork), CompileErrorView>((p.sf, p.fork))
            &&& p.fork.function == f
            &&& p.fork.then_block == n
            &&& p.fork.else_block == n + 1
            &&& p.fork.merge_block == n + 2
            &&& p.sf.module.functions[f].blocks[b].instrs == p.st1.module.functions[f].blocks[b].instrs.push(
                compare,
            ).push(branch)
            &&& grows(p.st1.module, p.sf.module)
            &&& ready(p.sf)
            &&& here(p.sf) == f
            &&& p.sf.block() == n
            &&& length(p.sf) == 0
            &&& p.sf.variables == base
            // the true branch
            &&& *e->true_block is Block
            &&& are_plain(items_of(*e->true_block), 0)
            &&& blocks_of(p.sf) + blocks_from(items_of(*e->true_block), 0) <= usize::MAX
            &&& generate_block(p.sf, items_of(*e->true_block), 0, Value::Const(0)) == Ok::<
                (State, Value),
                CompileErrorView,
            >((p.after_then, p.then_value))
            &&& grows(p.sf.module, p.after_then.module)
            &&& here(p.after_then) == f
            // the false branch
            &&& ready(p.se)
            &&& here(p.se) == f
            &&& p.se.block() == n + 1
            &&& length(p.se) == 0
            &&& p.se.variables == base
            &&& grows(p.after_then.module, p.after_else.module)
            &&& here(p.after_else) == f
            &&& match e->false_block {
                Some(inner) => {
                    &&& *inner is Block
                    &&& are_plain(items_of(*inner), 0)
                    &&& blocks_of(p.se) + blocks_from(items_of(*inner), 0) <= usize::MAX
                    &&& generate_block(p.se, items_of(*inner), 0, Value::Const(0)) == Ok::<
                        (State, Value),
                        CompileErrorView,
                    >((p.after_else, p.else_value))
                },
                None => p.after_else == p.se && p.else_value == Value::Const(0),
            }
            &&& length(p.after_then)
                == p.after_else.module.functions[f].blocks[then_end.tail as int].instrs.len()
            // the join
            &&& joinable(p.after_else, base, p.fork, then_end, else_end)
            &&& generate(st, e) == Ok::<(State, Value), CompileErrorView>(
                join(p.after_else, base, p.fork, then_end, else_end),
            )
            &&& grows(
                p.after_else.module,
                join(p.after_else, base, p.fork, then_end, else_end).0.module,
            )
            &&& all_unbound(merged_names(base, then_end, else_end), base)
            &&& keeps_bindings(base, then_end.scope)
            &&& keeps_bindings(base, else_end.scope)
        }),
{
    let f = here(st);
    let b = st.block() as int;
    let n = blocks_of(st);
    let p = parts(st, e);
    let condition = *e->condition;
    let true_block = *e->true_block;
    lemma_plain_is_statement(st, e);
    lemma_expression(st, condition);
    let (st1, cv) = generate(st, condition)->Ok_0;
    lemma_appended_advanced(st, st1);
    lemma_fork(st1, cv);
    let (sf, fork) = st1.fork(cv)->Ok_0;
    let base = sf.variables;
    let then_items = true_block->Block_0;
    lemma_body_stays(st, sf, true_block);
    assert(blocks_in(true_block) == blocks_from(then_items, 0));
    assert(blocks_of(sf) == n + 3);
    lemma_statements(sf, then_items, 0, Value::Const(0));
    let (after_then, then_value) = generate(sf, true_block)->Ok_0;
    let then_end = after_then.end_of_branch(then_value);
    let se = after_then.enter_else(base, fork);
    let m = blocks_of(after_then);
    lemma_scope_stays_ok(sf.module, after_then.module, f, base);
    assert(after_then.module.functions[f].blocks[n + 1] == sf.module.functions[f].blocks[n + 1]);
    assert(after_then.module.functions[f].blocks[n + 2] == sf.module.functions[f].blocks[n + 2]);
    assert(ready(se));
    match e->false_block {
        Some(inner) => {
            lemma_body_stays(st, se, *inner);
            assert(blocks_in(*inner) == blocks_from(inner->Block_0, 0));
            assert(blocks_of(se) == m);
            lemma_statements(se, inner->Block_0, 0, Value::Const(0));
            law_bindings_are_kept(se, *inner);
        },
        None => {
            lemma_advanced_self(se);
        },
    }
    let (after_else, else_value) = (p.after_else, p.else_value);
    let else_end = after_else.end_of_branch(else_value);
    assert(advanced(se, after_else));
    let then_tail = then_end.tail as int;
    let else_tail = else_end.tail as int;
    assert(then_tail == n || then_tail >= n + 3);
    assert(else_tail == n + 1 || else_tail >= m);
    assert(after_else.module.functions[f].blocks[n + 2]
        == after_then.module.functions[f].blocks[n + 2]);
    assert(after_else.module.functions[f].blocks[then_tail]
        == after_then.module.functions[f].blocks[then_tail]);
    lemma_scope_stays_ok(after_then.module, after_else.module, f, after_then.variables);
    lemma_scope_stays_ok(after_then.module, after_else.module, f, base);
    lemma_value_stays_ok(after_then.module, after_else.module, f, then_value);
    assert(joinable(after_else, base, fork, then_end, else_end));
    lemma_join(after_else, base, fork, then_end, else_end);
    law_bindings_are_kept(sf, true_block);
    let first = changed_names(then_end.scope, base, Seq::empty(), 0);
    law_merged_names_are_new(then_end.scope, base, Seq::empty(), 0);
    law_merged_names_are_new(else_end.scope, base, first, 0);
    // the code of the fork
    let compare = InstrView::Compare { pred: Pred::Ne, lhs: cv, rhs: Value::Const(0) };
    let placed = st1.place(compare);
    lemma_push_frame(st1.module, f, b, compare);
    let grown = placed.module.add_block(f, crate::ir::BlockKind::Then).add_block(
        f,
        crate::ir::BlockKind::Else,
    ).add_block(f, crate::ir::BlockKind::Merge);
    assert(grown.functions[f].blocks[b] == placed.module.functions[f].blocks[b]);
    assert(sf.module.functions[f].blocks[b].instrs
        =~= st1.module.functions[f].blocks[b].instrs.push(compare).push(
        InstrView::CondBr {
            cond: Value::Inst(st.block(), length(st1) as usize),
            then_target: fork.then_block,
            else_target: fork.else_block,
        },
    ));
}

/// The condition of a conditional runs into the branch that its value
/// selects: the true branch if the value is not zero, else the false
/// branch.
proof fn lemma_run_fork(
    st: State,
    e: Expr,
    module: ModuleView,
    frame: Frame,
    env: Map<Name, i64>,
    from: Option<usize>,
) -> (r: (nat, Frame))
    requires
        ready(st),
        e is Conditional,
        is_plain(e),
        blocks_of(st) + blocks_in(e) <= usize::MAX,
        generate(st, e) is Ok,
        grows(parts(st, e).sf.module, module),
        small(module, here(st)),
        holds_env(st.variables, frame, env),
    ensures
        match value_of(env, *e->condition) {
            Some(c) => {
                &&& carries(
                    module,
                    here(st),
                    place_of(st, frame, from),
                    r.0,
                    Place {
                        frame: r.1,
                        block: if c != 0 {
                            blocks_of(st)
                        } else {
                            blocks_of(st) + 1
                        },
                        next: 0,
                        from: Some(st.block()),
                    },
                )
                &&& r.1.cells == frame.cells
                &&& r.1.output == frame.output
                &&& r.1.args == frame.args
            },
            None => ends(module, here(st), place_of(st, frame, from), r.0, None),
        },
{
    let f = here(st);
    let b = st.block() as int;
    let p = parts(st, e);
    let start = place_of(st, frame, from);
    lemma_parts(st, e);
    lemma_grows_on(p.st1.module, p.sf.module, module);
    let (k1, f1) = lemma_pure(st, *e->condition, module, frame, env, from);
    match value_of(env, *e->condition) {
        Some(c) => {
            let n1 = length(p.st1);
            let compare = InstrView::Compare { pred: Pred::Ne, lhs: p.cv, rhs: Value::Const(0) };
            let cond = Value::Inst(st.block(), n1 as usize);
            let branch = InstrView::CondBr {
                cond,
                then_target: p.fork.then_block,
                else_target: p.fork.else_block,
            };
            let code = p.sf.module.functions[f].blocks[b].instrs;
            assert(code[n1] == compare);
            assert(code[n1 + 1] == branch);
            let at_compare = place_of(p.st1, f1, from);
            lemma_located(p.sf.module, module, f, b, n1, f1, from);
            assert(module.functions[f].blocks[b].instrs.len() <= usize::MAX);
            lemma_step_compare(module, f, at_compare, Pred::Ne, p.cv, Value::Const(0), c, 0);
            let bit = truth(Pred::Ne, c, 0);
            let f2 = f1.set(key(at_compare), bit);
            let at_branch = step(at_compare, f2);
            lemma_located(p.sf.module, module, f, b, n1 + 1, f2, from);
            lemma_step_fork(module, f, at_branch, cond, p.fork.then_block, p.fork.else_block, bit);
            let arrived = Place {
                frame: f2,
                block: if c != 0 {
                    blocks_of(st)
                } else {
                    blocks_of(st) + 1
                },
                next: 0,
                from: Some(st.block()),
            };
            lemma_carries_on(module, f, start, k1, at_compare, 1, at_branch);
            lemma_carries_on(module, f, start, k1 + 1, at_branch, 1, arrived);
            (k1 + 2, f2)
        },
        None => (k1, frame),
    }
}

/// A conditional runs to what it means.
proof fn lemma_plain_conditional(
    st: State,
    e: Expr,
    module: ModuleView,
    frame: Frame,
    env: Map<Name, i64>,
    output: Seq<Line>,
    from: Option<usize>,
) -> (r: (nat, Frame, Option<usize>, Seq<(usize, i64)>))
    requires
        ready(st),
        e is Conditional,
        is_plain(e),
        blocks_of(st) + blocks_in(e) <= usize::MAX,
        generate(st, e) is Ok,
        grows(generate(st, e)->Ok_0.0.module, module),
        small(module, here(st)),
        holds_env(st.variables, frame, env),
        distinct_slots(st.variables),
        same_lines(module, frame.output, output),
    ensures
        leads(
            module,
            here(st),
            place_of(st, frame, from),
            perform(env, output, e),
            generate(st, e)->Ok_0.0,
            generate(st, e)->Ok_0.1,
            r.0,
            r.1,
            r.2,
            r.3,
        ),
    decreases e, 0nat,
{
    let f = here(st);
    let p = parts(st, e);
    let base = st.variables;
    let start = place_of(st, frame, from);
    lemma_parts(st, e);
    let then_end = p.after_then.end_of_branch(p.then_value);
    let else_end = p.after_else.end_of_branch(p.else_value);
    let (last, value) = join(p.after_else, base, p.fork, then_end, else_end);
    lemma_grows_on(p.after_else.module, last.module, module);
    lemma_grows_on(p.after_then.module, p.after_else.module, module);
    lemma_grows_on(p.sf.module, p.after_then.module, module);
    let (k1, f1) = lemma_run_fork(st, e, module, frame, env, from);
    match value_of(env, *e->condition) {
        None => (k1, frame, from, frame.output),
        Some(c) => {
            let entered = Some(st.block());
            if c != 0 {
                let inside = place_of(p.sf, f1, entered);
                let items = items_of(*e->true_block);
                let (k2, f2, from2, seen2) = lemma_plain_from(
                    p.sf,
                    items,
                    0,
                    Value::Const(0),
                    0,
                    module,
                    f1,
                    env,
                    output,
                    entered,
                );
                match perform_from(env, output, items, 0, 0) {
                    Step::Next { env: env2, value: x, output: lines } => {
                        let at_end = place_of(p.after_then, f2, from2);
                        lemma_carries_on(module, f, start, k1, inside, k2, at_end);
                        let (k3, f3) = lemma_run_join(
                            p.after_else,
                            base,
                            p.fork,
                            then_end,
                            else_end,
                            module,
                            f2,
                            env2,
                            from2,
                            x,
                            true,
                        );
                        lemma_carries_on(
                            module,
                            f,
                            start,
                            k1 + k2,
                            at_end,
                            k3,
                            place_of(last, f3, Some(then_end.tail)),
                        );
                        crate::laws::shape::lemma_join(p.after_else, base, p.fork, then_end, else_end);
                        (k1 + k2 + k3, f3, Some(then_end.tail), frame.output)
                    },
                    Step::Done { value: x, output: lines } => {
                        lemma_carries_end(module, f, start, k1, inside, k2, Some((x, seen2)));
                        (k1 + k2, frame, from, seen2)
                    },
                    Step::Stuck => {
                        lemma_carries_end(module, f, start, k1, inside, k2, None);
                        (k1 + k2, frame, from, seen2)
                    },
                }
            } else {
                let inside = place_of(p.se, f1, entered);
                match e->false_block {
                    Some(inner) => {
                        let items = items_of(*inner);
                        let (k2, f2, from2, seen2) = lemma_plain_from(
                            p.se,
                            items,
                            0,
                            Value::Const(0),
                            0,
                            module,
                            f1,
                            env,
                            output,
                            entered,
                        );
                        match perform_from(env, output, items, 0, 0) {
                            Step::Next { env: env2, value: x, output: lines } => {
                                let at_end = place_of(p.after_else, f2, from2);
                                lemma_carries_on(module, f, start, k1, inside, k2, at_end);
                                let (k3, f3) = lemma_run_join(
                                    p.after_else,
                                    base,
                                    p.fork,
                                    then_end,
                                    else_end,
                                    module,
                                    f2,
                                    env2,
                                    from2,
                                    x,
                                    false,
                                );
                                lemma_carries_on(
                                    module,
                                    f,
                                    start,
                                    k1 + k2,
                                    at_end,
                                    k3,
                                    place_of(last, f3, Some(else_end.tail)),
                                );
                                crate::laws::shape::lemma_join(
                                    p.after_else,
                                    base,
                                    p.fork,
                                    then_end,
                                    else_end,
                                );
                                (k1 + k2 + k3, f3, Some(else_end.tail), frame.output)
                            },
                            Step::Done { value: x, output: lines } => {
                                lemma_carries_end(module, f, start, k1, inside, k2, Some((x, seen2)));
                                (k1 + k2, frame, from, seen2)
                            },
                            Step::Stuck => {
                                lemma_carries_end(module, f, start, k1, inside, k2, None);
                                (k1 + k2, frame, from, seen2)
                            },
                        }
                    },
                    None => {
                        let (k3, f3) = lemma_run_join(
                            p.after_else,
                            base,
                            p.fork,
                            then_end,
                            else_end,
                            module,
                            f1,
                            env,
                            entered,
                            0,
                            false,
                        );
                        lemma_carries_on(
                            module,
                            f,
                            start,
                            k1,
                            inside,
                            k3,
                            place_of(last, f3, Some(else_end.tail)),
                        );
                        crate::laws::shape::lemma_join(p.after_else, base, p.fork, then_end, else_end);
                        (k1 + k3, f3, Some(else_end.tail), frame.output)
                    },
                }
            }
        },
    }
}

/// What a function with the plain statements `body` returns, and what it
/// prints: what a return in it returns, or zero if execution reaches the
/// end of the body; nothing if an expression on the way has no value.
pub open spec fn meaning(body: Seq<Expr>) -> Option<(i64, Seq<Line>)> {
    match perform_from(Map::empty(), Seq::empty(), body, 0, 0) {
        Step::Next { env, value, output } => Some((0, output)),
        Step::Done { value, output } => Some((value, output)),
        Step::Stuck => None,
    }
}

/// Correctness: a program whose entry function is made of plain
/// statements computes what its source says. If the program compiles, its
/// entry function, given fuel enough, returns what the body means and
/// prints the lines that the body means, in their order; and where the
/// body means nothing, because of a division by zero, the entry function
/// has no result. The numbers returned are fuel enough, and the output of
/// the run.
pub proof fn law_programs_run_as_meant(name: Name, body: Seq<Expr>) -> (r: (
    nat,
    Seq<(usize, i64)>,
))
    requires
        are_plain(body, 0),
        1 + blocks_from(body, 0) <= usize::MAX,
        compile(initial(name), entry_program(body)) is Ok,
        small(compile(initial(name), entry_program(body))->Ok_0.module, 1),
    ensures
        forall|fuel: nat|
            fuel >= r.0 ==> #[trigger] entry_result(
                compile(initial(name), entry_program(body))->Ok_0.module,
                fuel,
            ) == match meaning(body) {
                Some((x, lines)) => Some((x, r.1)),
                None => None,
            },
        meaning(body) matches Some((x, lines)) ==> same_lines(
            compile(initial(name), entry_program(body))->Ok_0.module,
            r.1,
            lines,
        ),
{
    let st0 = initial(name);
    let opened = at_entry(name);
    lemma_initial_tidy(name);
    lemma_open_function(st0, entry_name(), Seq::empty());
    assert(opened.variables == Seq::<(Name, Value)>::empty());
    let definition = Expr::Function(entry_name(), Seq::empty(), Box::new(Expr::Block(body)));
    let items = seq![definition];
    assert(items[0] == definition);
    assert(generate(st0, entry_program(body)) is Ok);
    assert(generate(st0, entry_program(body)) == generate_block(st0, items, 0, Value::Const(0)));
    assert(generate(st0, definition) is Ok);
    assert(generate(opened, Expr::Block(body)) == generate_block(
        opened,
        body,
        0,
        Value::Const(0),
    ));
    assert(generate_block(opened, body, 0, Value::Const(0)) is Ok);
    let (inner, value) = generate_block(opened, body, 0, Value::Const(0))->Ok_0;
    lemma_entry_program(name, body, inner, value);
    lemma_plain_are_statements(opened, body, 0);
    lemma_statements(opened, body, 0, Value::Const(0));
    let closing = InstrView::Ret { value: Value::Const(0) };
    let done = inner.close_function(st0);
    if !inner.terminated() {
        lemma_push_frame(inner.module, 1, inner.block() as int, closing);
    } else {
        lemma_same(inner.module);
    }
    assert(grows(inner.module, done.module));
    assert(done.module.functions[0] == st0.module.functions[0]) by {
        assert(opened.module.functions[0] == st0.module.functions[0]);
        assert(inner.module.functions[0] == opened.module.functions[0]);
    }
    assert(done.module.functions[1].name == entry_name()) by {
        assert(opened.module.functions[1].name == inner.module.functions[1].name);
    }
    assert(done.module.functions[1].kind == opened.module.functions[1].kind);
    lemma_process_entry(done.module);
    let module = with_process_entry(done.module, 1);
    assert(compile(st0, entry_program(body))->Ok_0.module == module);
    assert(grows(done.module, module)) by {
        assert forall|g: int|
            #![trigger done.module.functions[g]]
            #![trigger module.functions[g]]
            0 <= g < done.module.functions.len() implies {
            &&& done.module.functions[g].kind == module.functions[g].kind
            &&& done.module.functions[g].arity == module.functions[g].arity
            &&& done.module.functions[g].blocks.len() <= module.functions[g].blocks.len()
            &&& forall|c: int|
                #![trigger done.module.functions[g].blocks[c]]
                #![trigger module.functions[g].blocks[c]]
                0 <= c < done.module.functions[g].blocks.len() ==> done.module.functions[g].blocks[c].instrs.len()
                    <= module.functions[g].blocks[c].instrs.len()
        } by {
            assert(module.functions[g] == done.module.functions[g]);
        }
    }
    lemma_grows_on(inner.module, done.module, module);
    let start = Frame::start(Seq::empty(), Seq::empty());
    let first = place_of(opened, start, None);
    let (k, frame, from, printed) = lemma_plain_from(
        opened,
        body,
        0,
        Value::Const(0),
        0,
        module,
        start,
        Map::empty(),
        Seq::empty(),
        None,
    );
    let step = perform_from(Map::empty(), Seq::empty(), body, 0, 0);
    let output = match step {
        Step::Next { env, value: x, output } => frame.output,
        _ => printed,
    };
    let expected = match meaning(body) {
        Some((x, lines)) => Some((x, output)),
        None => None,
    };
    match step {
        Step::Next { env, value: x, output: lines } => {
            let last = place_of(inner, frame, from);
            lemma_at_cursor(inner, closing, module, frame, from);
            lemma_step_return(module, 1, last, Value::Const(0), 0);
            lemma_carries_end(module, 1, first, k, last, 1, expected);
        },
        _ => {},
    }
    let steps = k + 2;
    assert forall|fuel: nat| fuel >= steps implies #[trigger] entry_result(module, fuel)
        == expected by {
        assert(module.find_function(entry_name()) == Some(1int));
        assert(entry_result(module, fuel) == call(module, 1, Seq::empty(), Seq::empty(), fuel));
        let left = (fuel - 1) as nat;
        assert(call(module, 1, Seq::empty(), Seq::empty(), fuel) == runs(module, 1, first, left));
        assert(left >= k + 1);
    }
    (steps, output)
}

} // verus!
