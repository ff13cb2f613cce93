//! Programs of the shape that the grammar builds compile to modules that
//! obey the structural rules.

use crate::error::CompileErrorView;
use crate::foreign::signatures_of;
use crate::ir::BlockKind;
use crate::ir::FunctionKind;
use crate::ir::InstrView;
use crate::ir::ModuleView;
use crate::ir::Pred;
use crate::ir::Value;
use crate::ir::find_function_from;
use crate::model::Branch;
use crate::model::Fork;
use crate::model::State;
use crate::model::arithmetic;
use crate::model::changed_names;
use crate::model::close_branch;
use crate::model::comparison;
use crate::model::compile;
use crate::model::edges;
use crate::model::entry_name;
use crate::model::generate;
use crate::model::generate_arguments;
use crate::model::generate_block;
use crate::model::initial;
use crate::model::join;
use crate::model::lemma_reserved_names;
use crate::model::name_phis;
use crate::model::output_function;
use crate::model::process_entry_name;
use crate::model::store_merged;
use crate::model::tail_values;
use crate::model::template;
use crate::model::with_process_entry;
use crate::scope::Name;
use crate::scope::lookup;
use crate::types::Expr;
use vstd::prelude::*;

verus! {

/// Every instruction of `before` stands in `after`, where it stood.
pub open spec fn keeps_code(before: ModuleView, after: ModuleView) -> bool {
    forall|g: int, c: int, i: int|
        0 <= g < before.functions.len() && 0 <= c < before.functions[g].blocks.len() && 0 <= i
            < before.functions[g].blocks[c].instrs.len()
            ==> #[trigger] after.functions[g].blocks[c].instrs[i]
            == before.functions[g].blocks[c].instrs[i]
}

/// `after` has everything that `before` has: the functions, with their
/// signatures, their blocks and the instructions of these, and the string
/// constants; it may have more.
pub open spec fn grows(before: ModuleView, after: ModuleView) -> bool {
    &&& keeps_code(before, after)
    &&& before.functions.len() <= after.functions.len()
    &&& before.globals.len() <= after.globals.len()
    &&& forall|g: int|
        0 <= g < before.globals.len() ==> #[trigger] after.globals[g] == before.globals[g]
    &&& forall|g: int|
        #![trigger before.functions[g]]
        #![trigger after.functions[g]]
        0 <= g < before.functions.len() ==> {
            &&& before.functions[g].kind == after.functions[g].kind
            &&& before.functions[g].arity == after.functions[g].arity
            &&& before.functions[g].blocks.len() <= after.functions[g].blocks.len()
            &&& forall|c: int|
                #![trigger before.functions[g].blocks[c]]
                #![trigger after.functions[g].blocks[c]]
                0 <= c < before.functions[g].blocks.len() ==> before.functions[g].blocks[c].instrs.len()
                    <= after.functions[g].blocks[c].instrs.len()
        }
}

/// A value that can be an operand stays one as the module grows.
pub(crate) proof fn lemma_value_stays_ok(before: ModuleView, after: ModuleView, f: int, value: Value)
    requires
        grows(before, after),
        0 <= f < before.functions.len(),
        before.value_ok(f, value),
    ensures
        after.value_ok(f, value),
{
    match value {
        Value::Inst(b, i) => {
            assert(before.functions[f].blocks[b as int].instrs.len()
                <= after.functions[f].blocks[b as int].instrs.len());
        },
        _ => {},
    }
}

/// An instruction that can stand in a function can still stand there as
/// the module grows.
proof fn lemma_instr_stays_ok(before: ModuleView, after: ModuleView, f: int, instr: InstrView)
    requires
        grows(before, after),
        0 <= f < before.functions.len(),
        before.instr_ok(f, instr),
    ensures
        after.instr_ok(f, instr),
{
    match instr {
        InstrView::Alloca => {},
        InstrView::Load { slot } => {
            lemma_value_stays_ok(before, after, f, slot);
        },
        InstrView::Store { slot, value } => {
            lemma_value_stays_ok(before, after, f, slot);
            lemma_value_stays_ok(before, after, f, value);
        },
        InstrView::Binary { op, lhs, rhs } => {
            lemma_value_stays_ok(before, after, f, lhs);
            lemma_value_stays_ok(before, after, f, rhs);
        },
        InstrView::Compare { pred, lhs, rhs } => {
            lemma_value_stays_ok(before, after, f, lhs);
            lemma_value_stays_ok(before, after, f, rhs);
        },
        InstrView::ZExt { value } => {
            lemma_value_stays_ok(before, after, f, value);
        },
        InstrView::Trunc { value } => {
            lemma_value_stays_ok(before, after, f, value);
        },
        InstrView::PtrToInt { value } => {
            lemma_value_stays_ok(before, after, f, value);
        },
        InstrView::Call { callee, args } => {
            assert(before.functions[callee as int].kind == after.functions[callee as int].kind);
            assert forall|k: int| 0 <= k < args.len() implies after.value_ok(
                f,
                #[trigger] args[k],
            ) by {
                lemma_value_stays_ok(before, after, f, args[k]);
            }
        },
        InstrView::Phi { incoming } => {
            assert forall|k: int| 0 <= k < incoming.len() implies {
                &&& after.value_ok(f, (#[trigger] incoming[k]).0)
                &&& incoming[k].1 < after.functions[f].blocks.len()
            } by {
                lemma_value_stays_ok(before, after, f, incoming[k].0);
            }
        },
        InstrView::Br { target } => {},
        InstrView::CondBr { cond, then_target, else_target } => {
            lemma_value_stays_ok(before, after, f, cond);
        },
        InstrView::Ret { value } => {
            lemma_value_stays_ok(before, after, f, value);
        },
    }
}

/// Whether instruction `i` of block `c` of function `f` obeys the rules
/// that hold of a block under construction: it can stand in `f`, it is a
/// terminator only if it is the last of its block, and a phi node only if
/// all before it are.
pub open spec fn half_ok(module: ModuleView, f: int, c: int, i: int) -> bool {
    let instrs = module.functions[f].blocks[c].instrs;
    &&& module.instr_ok(f, instrs[i])
    &&& instrs[i].is_terminator() ==> i == instrs.len() - 1
    &&& instrs[i] is Phi && i > 0 ==> instrs[i - 1] is Phi
}

/// Whether every instruction of function `f` obeys the rules that hold of
/// blocks under construction.
pub open spec fn sound(module: ModuleView, f: int) -> bool {
    forall|c: int, i: int|
        0 <= c < module.functions[f].blocks.len() && 0 <= i
            < module.functions[f].blocks[c].instrs.len() ==> #[trigger] half_ok(module, f, c, i)
}

/// Whether block `c` of function `f` ends in a terminator.
pub open spec fn closed(module: ModuleView, f: int, c: int) -> bool {
    module.functions[f].blocks[c].is_terminated()
}

/// A sound function whose blocks all end in a terminator obeys the
/// structural rules.
proof fn lemma_sound_and_closed(module: ModuleView, f: int)
    requires
        0 <= f < module.functions.len(),
        sound(module, f),
        forall|c: int| 0 <= c < module.functions[f].blocks.len() ==> #[trigger] closed(module, f, c),
    ensures
        module.function_ok(f),
{
    assert forall|c: int| 0 <= c < module.functions[f].blocks.len() implies #[trigger] module.block_ok(
        f,
        c,
    ) by {
        assert(closed(module, f, c));
        let instrs = module.functions[f].blocks[c].instrs;
        assert forall|i: int| 0 <= i < instrs.len() implies #[trigger] module.position_ok(
            f,
            c,
            i,
        ) by {
            assert(half_ok(module, f, c, i));
        }
    }
}

/// In a sound function, a block that does not end in a terminator holds
/// none.
proof fn lemma_open_block(module: ModuleView, f: int, c: int, i: int)
    requires
        sound(module, f),
        0 <= c < module.functions[f].blocks.len(),
        0 <= i < module.functions[f].blocks[c].instrs.len(),
        !closed(module, f, c),
    ensures
        !module.functions[f].blocks[c].instrs[i].is_terminator(),
{
    assert(half_ok(module, f, c, i));
}

/// `after` is `before` but for block `b` of function `f`, which has the
/// instructions `instrs` in it.
pub open spec fn differs_in_block(
    before: ModuleView,
    after: ModuleView,
    f: int,
    b: int,
    instrs: Seq<InstrView>,
) -> bool {
    &&& after.name == before.name
    &&& after.globals == before.globals
    &&& after.functions.len() == before.functions.len()
    &&& forall|g: int|
        0 <= g < before.functions.len() && g != f ==> #[trigger] after.functions[g]
            == before.functions[g]
    &&& after.functions[f].name == before.functions[f].name
    &&& after.functions[f].kind == before.functions[f].kind
    &&& after.functions[f].arity == before.functions[f].arity
    &&& after.functions[f].blocks.len() == before.functions[f].blocks.len()
    &&& forall|c: int|
        0 <= c < before.functions[f].blocks.len() && c != b ==> #[trigger] after.functions[f].blocks[c]
            == before.functions[f].blocks[c]
    &&& after.functions[f].blocks[b].kind == before.functions[f].blocks[b].kind
    &&& after.functions[f].blocks[b].instrs == instrs
}

/// What appending an instruction changes.
pub(crate) proof fn lemma_push_frame(module: ModuleView, f: int, b: int, instr: InstrView)
    requires
        module.has_block(f, b),
    ensures
        differs_in_block(
            module,
            module.push_instr(f, b, instr),
            f,
            b,
            module.functions[f].blocks[b].instrs.push(instr),
        ),
        grows(module, module.push_instr(f, b, instr)),
{
    let after = module.push_instr(f, b, instr);
    assert forall|g: int|
        #![trigger module.functions[g]]
        #![trigger after.functions[g]]
        0 <= g < module.functions.len() implies {
        &&& module.functions[g].kind == after.functions[g].kind
        &&& module.functions[g].arity == after.functions[g].arity
        &&& module.functions[g].blocks.len() <= after.functions[g].blocks.len()
        &&& forall|c: int|
            #![trigger module.functions[g].blocks[c]]
            #![trigger after.functions[g].blocks[c]]
            0 <= c < module.functions[g].blocks.len() ==> module.functions[g].blocks[c].instrs.len()
                <= after.functions[g].blocks[c].instrs.len()
    } by {
        if g == f {
            assert forall|c: int|
                #![trigger module.functions[g].blocks[c]]
                #![trigger after.functions[g].blocks[c]]
                0 <= c < module.functions[g].blocks.len() implies module.functions[g].blocks[c].instrs.len()
                    <= after.functions[g].blocks[c].instrs.len() by {
                if c == b {
                } else {
                    assert(after.functions[g].blocks[c] == module.functions[g].blocks[c]);
                }
            }
        } else {
            assert(after.functions[g] == module.functions[g]);
        }
    }
}

/// Appending to a block that does not end in a terminator keeps a sound
/// function sound: the new instruction must be one that can stand in the
/// function, and a phi node only if all before it are.
pub(crate) proof fn lemma_push_sound(module: ModuleView, f: int, b: int, instr: InstrView)
    requires
        module.has_block(f, b),
        sound(module, f),
        !closed(module, f, b),
        module.instr_ok(f, instr),
        instr is Phi ==> module.functions[f].blocks[b].instrs.len() == 0
            || module.functions[f].blocks[b].instrs.last() is Phi,
    ensures
        sound(module.push_instr(f, b, instr), f),
        closed(module.push_instr(f, b, instr), f, b) == instr.is_terminator(),
{
    let after = module.push_instr(f, b, instr);
    lemma_push_frame(module, f, b, instr);
    let old = module.functions[f].blocks[b].instrs;
    assert forall|c: int, i: int|
        0 <= c < after.functions[f].blocks.len() && 0 <= i
            < after.functions[f].blocks[c].instrs.len() implies #[trigger] half_ok(
        after,
        f,
        c,
        i,
    ) by {
        if c != b {
            assert(after.functions[f].blocks[c] == module.functions[f].blocks[c]);
            assert(half_ok(module, f, c, i));
            lemma_instr_stays_ok(module, after, f, module.functions[f].blocks[c].instrs[i]);
        } else if i < old.len() {
            assert(half_ok(module, f, c, i));
            lemma_open_block(module, f, b, i);
            lemma_instr_stays_ok(module, after, f, old[i]);
        } else {
            lemma_instr_stays_ok(module, after, f, instr);
            if i > 0 {
                assert(old.last() == old[i - 1]);
            }
        }
    }
}

/// Growth is transitive.
pub(crate) proof fn lemma_grows_on(a: ModuleView, b: ModuleView, c: ModuleView)
    requires
        grows(a, b),
        grows(b, c),
    ensures
        grows(a, c),
{
    assert forall|g: int|
        #![trigger a.functions[g]]
        #![trigger c.functions[g]]
        0 <= g < a.functions.len() implies {
        &&& a.functions[g].kind == c.functions[g].kind
        &&& a.functions[g].arity == c.functions[g].arity
        &&& a.functions[g].blocks.len() <= c.functions[g].blocks.len()
        &&& forall|k: int|
            #![trigger a.functions[g].blocks[k]]
            #![trigger c.functions[g].blocks[k]]
            0 <= k < a.functions[g].blocks.len() ==> a.functions[g].blocks[k].instrs.len()
                <= c.functions[g].blocks[k].instrs.len()
    } by {
        assert(a.functions[g].kind == b.functions[g].kind);
        assert(b.functions[g].kind == c.functions[g].kind);
        assert forall|k: int|
            #![trigger a.functions[g].blocks[k]]
            #![trigger c.functions[g].blocks[k]]
            0 <= k < a.functions[g].blocks.len() implies a.functions[g].blocks[k].instrs.len()
                <= c.functions[g].blocks[k].instrs.len() by {
            assert(a.functions[g].blocks[k].instrs.len() <= b.functions[g].blocks[k].instrs.len());
            assert(b.functions[g].blocks[k].instrs.len() <= c.functions[g].blocks[k].instrs.len());
        }
    }
}

/// Whether the functions of `a` and of `b` have the same names, kinds and
/// numbers of parameters.
pub open spec fn same_signatures(a: ModuleView, b: ModuleView) -> bool {
    &&& a.functions.len() == b.functions.len()
    &&& forall|g: int|
        #![trigger a.functions[g]]
        #![trigger b.functions[g]]
        0 <= g < a.functions.len() ==> {
            &&& a.functions[g].name == b.functions[g].name
            &&& a.functions[g].kind == b.functions[g].kind
            &&& a.functions[g].arity == b.functions[g].arity
        }
}

/// Modules with the same signatures resolve a name to the same function.
proof fn lemma_same_first(a: ModuleView, b: ModuleView, name: Name, from: int)
    requires
        same_signatures(a, b),
        0 <= from,
    ensures
        find_function_from(a.functions, name, from) == find_function_from(b.functions, name, from),
    decreases a.functions.len() - from,
{
    if from < a.functions.len() {
        assert(a.functions[from].name == b.functions[from].name);
        lemma_same_first(a, b, name, from + 1);
    }
}

/// The function at the cursor of `st`.
pub open spec fn here(st: State) -> int {
    st.function() as int
}

/// Whether `st` is in order inside a function: the function at the cursor
/// is sound, every slot of the scope and every function of the symbol
/// table exists, and the first function of the module is the
/// formatted-output primitive.
pub open spec fn steady(st: State) -> bool {
    &&& st.cursor is Some
    &&& st.wf()
    &&& sound(st.module, here(st))
    &&& forall|k: int|
        0 <= k < st.variables.len() ==> st.module.value_ok(here(st), (#[trigger] st.variables[k]).1)
    &&& forall|k: int|
        0 <= k < st.functions.len() ==> (#[trigger] st.functions[k]).1 < st.module.functions.len()
    &&& st.module.functions.len() > 0
    &&& st.module.functions[0].kind is Output
    &&& st.module.functions[0].arity == 1
}

/// Whether `st` can take code: it is in order, and the cursor stands in a
/// block that does not end in a terminator.
pub open spec fn ready(st: State) -> bool {
    steady(st) && !closed(st.module, here(st), st.block() as int)
}

/// `after` is `before` with more instructions at the cursor, none of them
/// a terminator, and maybe more string constants.
pub open spec fn appended(before: State, after: State) -> bool {
    let f = here(before);
    let b = before.block() as int;
    &&& after.cursor == before.cursor
    &&& after.variables == before.variables
    &&& after.functions == before.functions
    &&& after.foreign == before.foreign
    &&& after.objects == before.objects
    &&& grows(before.module, after.module)
    &&& same_signatures(before.module, after.module)
    &&& forall|g: int|
        0 <= g < before.module.functions.len() && g != f ==> #[trigger] after.module.functions[g]
            == before.module.functions[g]
    &&& after.module.functions[f].blocks.len() == before.module.functions[f].blocks.len()
    &&& forall|c: int|
        0 <= c < before.module.functions[f].blocks.len() && c != b
            ==> #[trigger] after.module.functions[f].blocks[c]
            == before.module.functions[f].blocks[c]
    &&& ready(after)
}

/// A binding that a scope holds is one of its pairs.
pub(crate) proof fn lemma_lookup_member(scope: Seq<(Name, Value)>, name: Name)
    requires
        lookup(scope, name) is Some,
    ensures
        exists|k: int| 0 <= k < scope.len() && #[trigger] scope[k] == (name, lookup(scope, name)->0),
    decreases scope.len(),
{
    if scope.last().0 == name {
        assert(scope[scope.len() - 1] == (name, lookup(scope, name)->0));
    } else {
        lemma_lookup_member(scope.drop_last(), name);
        let k = choose|k: int|
            0 <= k < scope.drop_last().len() && #[trigger] scope.drop_last()[k] == (
                name,
                lookup(scope, name)->0,
            );
        assert(scope[k] == scope.drop_last()[k]);
    }
}

/// An instruction that is no terminator and no phi node, appended at the
/// cursor of a state that can take code.
pub(crate) proof fn lemma_emit(st: State, instr: InstrView)
    requires
        ready(st),
        st.module.instr_ok(here(st), instr),
        !instr.is_terminator(),
        !(instr is Phi),
    ensures
        st.emit(instr) == Ok::<(State, Value), CompileErrorView>((st.place(instr), st.next_value())),
        appended(st, st.place(instr)),
        st.place(instr).module.value_ok(here(st), st.next_value()),
{
    let f = here(st);
    let b = st.block() as int;
    let after = st.place(instr);
    lemma_push_frame(st.module, f, b, instr);
    lemma_push_sound(st.module, f, b, instr);
    assert forall|k: int| 0 <= k < after.variables.len() implies after.module.value_ok(
        f,
        (#[trigger] after.variables[k]).1,
    ) by {
        lemma_value_stays_ok(st.module, after.module, f, st.variables[k].1);
    }
    assert(same_signatures(st.module, after.module)) by {
        assert forall|g: int|
            #![trigger st.module.functions[g]]
            #![trigger after.module.functions[g]]
            0 <= g < st.module.functions.len() implies {
            &&& st.module.functions[g].name == after.module.functions[g].name
            &&& st.module.functions[g].kind == after.module.functions[g].kind
            &&& st.module.functions[g].arity == after.module.functions[g].arity
        } by {
            if g != f {
                assert(after.module.functions[g] == st.module.functions[g]);
            }
        }
    }
    assert(after.module.functions[0].kind is Output && after.module.functions[0].arity == 1);
}

/// Appending is transitive.
proof fn lemma_appended_on(a: State, b: State, c: State)
    requires
        a.cursor is Some,
        a.wf(),
        appended(a, b),
        appended(b, c),
    ensures
        appended(a, c),
{
    let f = here(a);
    lemma_grows_on(a.module, b.module, c.module);
    assert(same_signatures(a.module, c.module)) by {
        assert forall|g: int|
            #![trigger a.module.functions[g]]
            #![trigger c.module.functions[g]]
            0 <= g < a.module.functions.len() implies {
            &&& a.module.functions[g].name == c.module.functions[g].name
            &&& a.module.functions[g].kind == c.module.functions[g].kind
            &&& a.module.functions[g].arity == c.module.functions[g].arity
        } by {
            assert(a.module.functions[g].name == b.module.functions[g].name);
            assert(b.module.functions[g].name == c.module.functions[g].name);
        }
    }
    assert forall|g: int| 0 <= g < a.module.functions.len() && g != f implies #[trigger] c.module.functions[g]
        == a.module.functions[g] by {
        assert(b.module.functions[g] == a.module.functions[g]);
    }
    assert forall|k: int|
        0 <= k < a.module.functions[f].blocks.len() && k != a.block() implies #[trigger] c.module.functions[f].blocks[k]
        == a.module.functions[f].blocks[k] by {
        assert(b.module.functions[f].blocks[k] == a.module.functions[f].blocks[k]);
    }
}

/// A new string constant, added to a state that can take code.
pub(crate) proof fn lemma_add_global(st: State, text: Seq<char>)
    requires
        ready(st),
    ensures
        appended(st, State { module: st.module.add_global(text), ..st }),
        (State { module: st.module.add_global(text), ..st }).module.value_ok(
            here(st),
            Value::Global(st.module.globals.len() as usize),
        ),
{
    let f = here(st);
    let after = State { module: st.module.add_global(text), ..st };
    assert(grows(st.module, after.module));
    assert(sound(after.module, f)) by {
        assert forall|c: int, i: int|
            0 <= c < after.module.functions[f].blocks.len() && 0 <= i
                < after.module.functions[f].blocks[c].instrs.len() implies #[trigger] half_ok(
            after.module,
            f,
            c,
            i,
        ) by {
            assert(half_ok(st.module, f, c, i));
            lemma_instr_stays_ok(
                st.module,
                after.module,
                f,
                st.module.functions[f].blocks[c].instrs[i],
            );
        }
    }
    assert forall|k: int| 0 <= k < after.variables.len() implies after.module.value_ok(
        f,
        (#[trigger] after.variables[k]).1,
    ) by {
        lemma_value_stays_ok(st.module, after.module, f, st.variables[k].1);
    }
}

/// Whether `e` is an expression as the grammar builds one: a number, a
/// string, a variable, an operation on expressions, or a call with
/// expressions for arguments. A call passes as many arguments as the
/// function takes that the call goes to in `st`.
pub open spec fn is_expression(st: State, e: Expr) -> bool
    decreases e, 0nat,
{
    match e {
        Expr::Number(_) => true,
        Expr::String(_) => true,
        Expr::Variable(_) => true,
        Expr::Operation(_, left, right) => is_expression(st, *left) && is_expression(st, *right),
        Expr::FunctionCall(name, args) => are_expressions(st, args, 0) && match lookup(
            st.functions,
            name,
        ) {
            Some(declared) => st.callee(name, declared) < st.module.functions.len()
                && st.module.arguments_ok(st.callee(name, declared) as int, args.len()),
            None => true,
        },
        _ => false,
    }
}

/// Whether each of `items`, from item `i` on, is an expression.
pub open spec fn are_expressions(st: State, items: Seq<Expr>, i: int) -> bool
    decreases items, items.len() - i,
{
    if i < 0 || i >= items.len() {
        true
    } else {
        is_expression(st, items[i]) && are_expressions(st, items, i + 1)
    }
}

/// What an expression is does not depend on the code compiled so far.
pub(crate) proof fn lemma_expression_stays(st: State, later: State, e: Expr)
    requires
        later.functions == st.functions,
        same_signatures(st.module, later.module),
    ensures
        is_expression(st, e) == is_expression(later, e),
    decreases e, 0nat,
{
    match e {
        Expr::Operation(_, left, right) => {
            lemma_expression_stays(st, later, *left);
            lemma_expression_stays(st, later, *right);
        },
        Expr::FunctionCall(name, args) => {
            lemma_expressions_stay(st, later, args, 0);
            lemma_same_first(st.module, later.module, name, 0);
            match lookup(st.functions, name) {
                Some(declared) => {
                    let callee = st.callee(name, declared) as int;
                    assert(later.callee(name, declared) == st.callee(name, declared));
                    if callee < st.module.functions.len() {
                        assert(st.module.functions[callee].kind
                            == later.module.functions[callee].kind);
                    }
                },
                None => {},
            }
        },
        _ => {},
    }
}

/// The first function of a name is a function of the module.
proof fn lemma_first_in_range(module: ModuleView, name: Name, from: int)
    requires
        0 <= from,
    ensures
        find_function_from(module.functions, name, from) matches Some(first) ==> from <= first
            < module.functions.len(),
    decreases module.functions.len() - from,
{
    if from < module.functions.len() && module.functions[from].name != name {
        lemma_first_in_range(module, name, from + 1);
    }
}

proof fn lemma_expressions_stay(st: State, later: State, items: Seq<Expr>, i: int)
    requires
        later.functions == st.functions,
        same_signatures(st.module, later.module),
    ensures
        are_expressions(st, items, i) == are_expressions(later, items, i),
    decreases items, items.len() - i,
{
    if 0 <= i < items.len() {
        lemma_expression_stays(st, later, items[i]);
        lemma_expressions_stay(st, later, items, i + 1);
    }
}

/// An expression compiles to instructions appended at the cursor, and
/// yields a value that can be an operand.
pub(crate) proof fn lemma_expression(st: State, e: Expr)
    requires
        ready(st),
        is_expression(st, e),
    ensures
        generate(st, e) matches Ok((after, value)) ==> appended(st, after)
            && after.module.value_ok(here(st), value),
    decreases e, 0nat,
{
    let f = here(st);
    match e {
        Expr::Number(_) => {
            assert(same_signatures(st.module, st.module));
            assert(grows(st.module, st.module));
        },
        Expr::String(text) => {
            lemma_add_global(st, text);
            let st1 = State { module: st.module.add_global(text), ..st };
            let address = Value::Global(st.module.globals.len() as usize);
            lemma_emit(st1, InstrView::PtrToInt { value: address });
            lemma_appended_on(st, st1, st1.place(InstrView::PtrToInt { value: address }));
        },
        Expr::Variable(name) => {
            if let Some(slot) = lookup(st.variables, name) {
                lemma_lookup_member(st.variables, name);
                lemma_emit(st, InstrView::Load { slot });
            }
        },
        Expr::Operation(op, left, right) => {
            lemma_expression(st, *left);
            if let Ok((st1, lhs)) = generate(st, *left) {
                lemma_expression_stays(st, st1, *right);
                lemma_expression(st1, *right);
                if let Ok((st2, rhs)) = generate(st1, *right) {
                    lemma_appended_on(st, st1, st2);
                    lemma_value_stays_ok(st1.module, st2.module, f, lhs);
                    lemma_operation(st2, op, lhs, rhs);
                    if let Ok((st3, value)) = st2.operation(op, lhs, rhs) {
                        lemma_appended_on(st, st2, st3);
                    }
                }
            }
        },
        Expr::FunctionCall(name, args) => {
            lemma_arguments(st, args, 0, Seq::empty());
            if let Ok((st1, values)) = generate_arguments(st, args, 0, Seq::empty()) {
                if let Some(declared) = lookup(st1.functions, name) {
                    lemma_same_first(st.module, st1.module, name, 0);
                    let callee = st1.callee(name, declared);
                    assert(callee == st.callee(name, declared));
                    assert(st.module.functions[callee as int].kind
                        == st1.module.functions[callee as int].kind);
                    let instr = InstrView::Call { callee, args: values };
                    assert(st1.module.instr_ok(f, instr));
                    lemma_emit(st1, instr);
                    lemma_appended_on(st, st1, st1.place(instr));
                }
            }
        },
        _ => {},
    }
}

/// A binary operation on operands that exist.
pub(crate) proof fn lemma_operation(st: State, op: Name, lhs: Value, rhs: Value)
    requires
        ready(st),
        st.module.value_ok(here(st), lhs),
        st.module.value_ok(here(st), rhs),
    ensures
        st.operation(op, lhs, rhs) matches Ok((after, value)) ==> appended(st, after)
            && after.module.value_ok(here(st), value),
{
    let f = here(st);
    match arithmetic(op) {
        Some(binary) => {
            lemma_emit(st, InstrView::Binary { op: binary, lhs, rhs });
        },
        None => match comparison(op) {
            Some(pred) => {
                let compare = InstrView::Compare { pred, lhs, rhs };
                lemma_emit(st, compare);
                let st1 = st.place(compare);
                let extend = InstrView::ZExt { value: st.next_value() };
                lemma_emit(st1, extend);
                lemma_appended_on(st, st1, st1.place(extend));
            },
            None => {},
        },
    }
}

/// The arguments of a call compile to instructions appended at the
/// cursor, and yield values that can be operands, one for each argument.
proof fn lemma_arguments(st: State, args: Seq<Expr>, i: int, done: Seq<Value>)
    requires
        ready(st),
        are_expressions(st, args, i),
        0 <= i <= args.len(),
        forall|k: int| 0 <= k < done.len() ==> st.module.value_ok(here(st), #[trigger] done[k]),
    ensures
        generate_arguments(st, args, i, done) matches Ok((after, values)) ==> {
            &&& appended(st, after)
            &&& values.len() == done.len() + args.len() - i
            &&& forall|k: int|
                0 <= k < values.len() ==> after.module.value_ok(here(st), #[trigger] values[k])
        },
    decreases args, args.len() - i,
{
    let f = here(st);
    if i < args.len() {
        lemma_expression(st, args[i]);
        if let Ok((st1, value)) = generate(st, args[i]) {
            let more = done.push(value);
            lemma_expressions_stay(st, st1, args, i + 1);
            assert forall|k: int| 0 <= k < more.len() implies st1.module.value_ok(
                f,
                #[trigger] more[k],
            ) by {
                if k < done.len() {
                    lemma_value_stays_ok(st.module, st1.module, f, done[k]);
                }
            }
            lemma_arguments(st1, args, i + 1, more);
            if let Ok((st2, values)) = generate_arguments(st1, args, i + 1, more) {
                lemma_appended_on(st, st1, st2);
            }
        }
    } else {
        assert(same_signatures(st.module, st.module));
        assert(grows(st.module, st.module));
    }
}

/// What changed from `before` to `after` lies in function `f`, in block
/// `b` of it or in its blocks from `n` on; and nothing was taken away.
pub open spec fn within(before: ModuleView, after: ModuleView, f: int, b: int, n: int) -> bool {
    &&& grows(before, after)
    &&& same_signatures(before, after)
    &&& forall|g: int|
        0 <= g < before.functions.len() && g != f ==> #[trigger] after.functions[g]
            == before.functions[g]
    &&& forall|c: int|
        0 <= c < n && c != b && c < before.functions[f].blocks.len()
            ==> #[trigger] after.functions[f].blocks[c] == before.functions[f].blocks[c]
}

/// `after` came from `before` by compiling statements: what changed lies
/// in the block at the cursor of `before` and in new blocks of the
/// function, and among these all but the one at the cursor of `after` end
/// in a terminator.
pub open spec fn advanced(before: State, after: State) -> bool {
    let f = here(before);
    let b = before.block() as int;
    let n = before.module.functions[f].blocks.len() as int;
    &&& after.cursor is Some
    &&& here(after) == f
    &&& after.functions == before.functions
    &&& after.foreign == before.foreign
    &&& after.objects == before.objects
    &&& within(before.module, after.module, f, b, n)
    &&& after.block() == b || after.block() >= n
    &&& forall|c: int|
        0 <= c < after.module.functions[f].blocks.len() && ((c == b && after.block() != b) || (c >= n
            && c != after.block())) ==> #[trigger] closed(after.module, f, c)
    &&& steady(after)
}

/// Growth and equal signatures hold of a module and itself.
pub(crate) proof fn lemma_same(module: ModuleView)
    ensures
        grows(module, module),
        same_signatures(module, module),
{
}

/// A state that is in order has advanced to itself.
pub(crate) proof fn lemma_advanced_self(st: State)
    requires
        steady(st),
    ensures
        advanced(st, st),
{
    lemma_same(st.module);
}

/// Appended code is an advance that leaves the cursor where it was.
pub(crate) proof fn lemma_appended_advanced(st: State, after: State)
    requires
        ready(st),
        appended(st, after),
    ensures
        advanced(st, after),
        ready(after),
{
}

/// Advances follow each other.
proof fn lemma_advanced_on(a: State, b: State, c: State)
    requires
        steady(a),
        advanced(a, b),
        advanced(b, c),
    ensures
        advanced(a, c),
{
    let f = here(a);
    let n = a.module.functions[f].blocks.len() as int;
    lemma_grows_on(a.module, b.module, c.module);
    assert(same_signatures(a.module, c.module)) by {
        assert forall|g: int|
            #![trigger a.module.functions[g]]
            #![trigger c.module.functions[g]]
            0 <= g < a.module.functions.len() implies {
            &&& a.module.functions[g].name == c.module.functions[g].name
            &&& a.module.functions[g].kind == c.module.functions[g].kind
            &&& a.module.functions[g].arity == c.module.functions[g].arity
        } by {
            assert(a.module.functions[g].name == b.module.functions[g].name);
            assert(b.module.functions[g].name == c.module.functions[g].name);
        }
    }
    assert forall|g: int| 0 <= g < a.module.functions.len() && g != f implies #[trigger] c.module.functions[g]
        == a.module.functions[g] by {
        assert(b.module.functions[g] == a.module.functions[g]);
    }
    assert(a.module.functions[f].blocks.len() <= b.module.functions[f].blocks.len());
    assert forall|k: int|
        0 <= k < n && k != a.block() && k < a.module.functions[f].blocks.len() implies #[trigger] c.module.functions[f].blocks[k]
        == a.module.functions[f].blocks[k] by {
        assert(b.module.functions[f].blocks[k] == a.module.functions[f].blocks[k]);
    }
    assert forall|k: int|
        0 <= k < c.module.functions[f].blocks.len() && ((k == a.block() && c.block() != a.block())
            || (k >= n && k != c.block())) implies #[trigger] closed(c.module, f, k) by {
        let m = b.module.functions[f].blocks.len() as int;
        if k < m && k != b.block() {
            assert(closed(b.module, f, k));
            assert(c.module.functions[f].blocks[k] == b.module.functions[f].blocks[k]);
        } else {
            assert(closed(c.module, f, k));
        }
    }
}

/// Whether `e` is a statement as the grammar builds one: an assignment, a
/// print or a return of an expression, a conditional on an expression
/// with bodies for branches, or an expression.
pub open spec fn is_statement(st: State, e: Expr) -> bool
    decreases e, 1nat,
{
    match e {
        Expr::Assignment(_, value) => is_expression(st, *value),
        Expr::Print(_, value) => is_expression(st, *value),
        Expr::Return(value) => is_expression(st, *value),
        Expr::Conditional { condition, true_block, false_block } => is_expression(st, *condition)
            && is_body(st, *true_block) && match false_block {
            Some(false_block) => is_body(st, *false_block),
            None => true,
        },
        _ => is_expression(st, e),
    }
}

/// Whether `e` is a body as the grammar builds one: a block of
/// statements.
pub open spec fn is_body(st: State, e: Expr) -> bool
    decreases e, 0nat,
{
    match e {
        Expr::Block(items) => are_statements(st, items, 0),
        _ => false,
    }
}

/// Whether each of `items`, from item `i` on, is a statement.
pub open spec fn are_statements(st: State, items: Seq<Expr>, i: int) -> bool
    decreases items, items.len() - i,
{
    if i < 0 || i >= items.len() {
        true
    } else {
        is_statement(st, items[i]) && are_statements(st, items, i + 1)
    }
}

/// What a statement is does not depend on the code compiled so far.
proof fn lemma_statement_stays(st: State, later: State, e: Expr)
    requires
        later.functions == st.functions,
        same_signatures(st.module, later.module),
    ensures
        is_statement(st, e) == is_statement(later, e),
    decreases e, 1nat,
{
    match e {
        Expr::Assignment(_, value) => lemma_expression_stays(st, later, *value),
        Expr::Print(_, value) => lemma_expression_stays(st, later, *value),
        Expr::Return(value) => lemma_expression_stays(st, later, *value),
        Expr::Conditional { condition, true_block, false_block } => {
            lemma_expression_stays(st, later, *condition);
            lemma_body_stays(st, later, *true_block);
            match false_block {
                Some(false_block) => lemma_body_stays(st, later, *false_block),
                None => {},
            }
        },
        _ => lemma_expression_stays(st, later, e),
    }
}

pub(crate) proof fn lemma_body_stays(st: State, later: State, e: Expr)
    requires
        later.functions == st.functions,
        same_signatures(st.module, later.module),
    ensures
        is_body(st, e) == is_body(later, e),
    decreases e, 0nat,
{
    match e {
        Expr::Block(items) => lemma_statements_stay(st, later, items, 0),
        _ => {},
    }
}

pub(crate) proof fn lemma_statements_stay(st: State, later: State, items: Seq<Expr>, i: int)
    requires
        later.functions == st.functions,
        same_signatures(st.module, later.module),
    ensures
        are_statements(st, items, i) == are_statements(later, items, i),
    decreases items, items.len() - i,
{
    if 0 <= i < items.len() {
        lemma_statement_stays(st, later, items[i]);
        lemma_statements_stay(st, later, items, i + 1);
    }
}

/// A terminator appended at the cursor of a state that can take code.
proof fn lemma_terminate(st: State, instr: InstrView)
    requires
        ready(st),
        st.module.instr_ok(here(st), instr),
        instr.is_terminator(),
    ensures
        advanced(st, st.place(instr)),
        closed(st.place(instr).module, here(st), st.block() as int),
{
    let f = here(st);
    let b = st.block() as int;
    let after = st.place(instr);
    lemma_push_frame(st.module, f, b, instr);
    lemma_push_sound(st.module, f, b, instr);
    assert forall|k: int| 0 <= k < after.variables.len() implies after.module.value_ok(
        f,
        (#[trigger] after.variables[k]).1,
    ) by {
        lemma_value_stays_ok(st.module, after.module, f, st.variables[k].1);
    }
    assert(same_signatures(st.module, after.module)) by {
        assert forall|g: int|
            #![trigger st.module.functions[g]]
            #![trigger after.module.functions[g]]
            0 <= g < st.module.functions.len() implies {
            &&& st.module.functions[g].name == after.module.functions[g].name
            &&& st.module.functions[g].kind == after.module.functions[g].kind
            &&& st.module.functions[g].arity == after.module.functions[g].arity
        } by {
            if g != f {
                assert(after.module.functions[g] == st.module.functions[g]);
            }
        }
    }
    assert(after.module.functions[0].kind is Output && after.module.functions[0].arity == 1);
}

/// An assignment of a value that exists.
pub(crate) proof fn lemma_assignment(st: State, name: Name, value: Value)
    requires
        ready(st),
        st.module.value_ok(here(st), value),
    ensures
        st.assignment(name, value) matches Ok((after, yielded)) ==> advanced(st, after) && ready(
            after,
        ) && after.module.value_ok(here(st), yielded),
{
    let f = here(st);
    match lookup(st.variables, name) {
        Some(slot) => {
            lemma_lookup_member(st.variables, name);
            let store = InstrView::Store { slot, value };
            lemma_emit(st, store);
            lemma_appended_advanced(st, st.place(store));
            lemma_value_stays_ok(st.module, st.place(store).module, f, value);
        },
        None => {
            lemma_emit(st, InstrView::Alloca);
            let st1 = st.place(InstrView::Alloca);
            let slot = st.next_value();
            lemma_appended_advanced(st, st1);
            let st2 = State { variables: st1.variables.push((name, slot)), ..st1 };
            assert(steady(st2)) by {
                assert forall|k: int| 0 <= k < st2.variables.len() implies st2.module.value_ok(
                    f,
                    (#[trigger] st2.variables[k]).1,
                ) by {
                    if k < st1.variables.len() {
                        assert(st2.variables[k] == st1.variables[k]);
                    }
                }
            }
            lemma_same(st1.module);
            assert(advanced(st1, st2));
            lemma_advanced_on(st, st1, st2);
            lemma_value_stays_ok(st.module, st2.module, f, value);
            let store = InstrView::Store { slot, value };
            lemma_emit(st2, store);
            let st3 = st2.place(store);
            lemma_appended_advanced(st2, st3);
            lemma_advanced_on(st, st2, st3);
            lemma_value_stays_ok(st2.module, st3.module, f, value);
        },
    }
}

/// A print of a value that exists.
pub(crate) proof fn lemma_print(st: State, format: crate::types::PrintFormat, value: Value)
    requires
        ready(st),
        st.module.value_ok(here(st), value),
    ensures
        st.print(format, value) matches Ok((after, yielded)) ==> advanced(st, after) && ready(
            after,
        ) && after.module.value_ok(here(st), yielded),
{
    let f = here(st);
    let text = Value::Global(st.module.globals.len() as usize);
    lemma_add_global(st, template(format));
    let st1 = State { module: st.module.add_global(template(format)), ..st };
    lemma_value_stays_ok(st.module, st1.module, f, value);
    let args = seq![text, value];
    let call = InstrView::Call { callee: output_function(), args };
    assert(st1.module.values_ok(f, args)) by {
        assert forall|k: int| 0 <= k < args.len() implies st1.module.value_ok(
            f,
            #[trigger] args[k],
        ) by {
            if k == 0 {
            } else {
                assert(args[k] == value);
            }
        }
    }
    lemma_emit(st1, call);
    let st2 = st1.place(call);
    lemma_appended_on(st, st1, st2);
    lemma_appended_advanced(st, st2);
    lemma_value_stays_ok(st1.module, st2.module, f, value);
}

/// A return of a value that exists.
proof fn lemma_return(st: State, value: Value)
    requires
        ready(st),
        st.module.value_ok(here(st), value),
    ensures
        st.ret(value) matches Ok((after, yielded)) ==> advanced(st, after) && closed(
            after.module,
            here(st),
            after.block() as int,
        ) && after.module.value_ok(here(st), yielded),
{
    let f = here(st);
    let instr = InstrView::Ret { value };
    lemma_terminate(st, instr);
    lemma_value_stays_ok(st.module, st.place(instr).module, f, value);
}

/// `after` is `before` but for block `c` of function `f`, which may hold
/// more instructions.
pub open spec fn only(before: ModuleView, after: ModuleView, f: int, c: int) -> bool {
    &&& grows(before, after)
    &&& same_signatures(before, after)
    &&& after.globals == before.globals
    &&& forall|g: int|
        0 <= g < before.functions.len() && g != f ==> #[trigger] after.functions[g]
            == before.functions[g]
    &&& after.functions[f].blocks.len() == before.functions[f].blocks.len()
    &&& forall|k: int|
        0 <= k < before.functions[f].blocks.len() && k != c ==> #[trigger] after.functions[f].blocks[k]
            == before.functions[f].blocks[k]
}

/// A change in one block, followed by another change in that block.
proof fn lemma_only_on(a: ModuleView, b: ModuleView, c: ModuleView, f: int, block: int)
    requires
        only(a, b, f, block),
        only(b, c, f, block),
    ensures
        only(a, c, f, block),
{
    lemma_grows_on(a, b, c);
    assert forall|g: int|
        #![trigger a.functions[g]]
        #![trigger c.functions[g]]
        0 <= g < a.functions.len() implies {
        &&& a.functions[g].name == c.functions[g].name
        &&& a.functions[g].kind == c.functions[g].kind
        &&& a.functions[g].arity == c.functions[g].arity
    } by {
        assert(a.functions[g].name == b.functions[g].name);
        assert(b.functions[g].name == c.functions[g].name);
    }
    assert forall|g: int| 0 <= g < a.functions.len() && g != f implies #[trigger] c.functions[g]
        == a.functions[g] by {
        assert(b.functions[g] == a.functions[g]);
    }
    assert forall|k: int| 0 <= k < a.functions[f].blocks.len() && k != block implies #[trigger] c.functions[f].blocks[k]
        == a.functions[f].blocks[k] by {
        assert(b.functions[f].blocks[k] == a.functions[f].blocks[k]);
    }
}

/// Appending an instruction changes one block only.
proof fn lemma_push_only(module: ModuleView, f: int, b: int, instr: InstrView)
    requires
        module.has_block(f, b),
    ensures
        only(module, module.push_instr(f, b, instr), f, b),
{
    lemma_push_frame(module, f, b, instr);
    let after = module.push_instr(f, b, instr);
    assert forall|g: int|
        #![trigger module.functions[g]]
        #![trigger after.functions[g]]
        0 <= g < module.functions.len() implies {
        &&& module.functions[g].name == after.functions[g].name
        &&& module.functions[g].kind == after.functions[g].kind
        &&& module.functions[g].arity == after.functions[g].arity
    } by {
        if g != f {
            assert(after.functions[g] == module.functions[g]);
        }
    }
}

/// Whether each of `values` can be an operand in function `f`.
pub open spec fn all_ok(module: ModuleView, f: int, values: Seq<Value>) -> bool {
    forall|k: int| 0 <= k < values.len() ==> module.value_ok(f, #[trigger] values[k])
}

/// Whether each slot of `scope` can be an operand in function `f`.
pub open spec fn scope_ok(module: ModuleView, f: int, scope: Seq<(Name, Value)>) -> bool {
    forall|k: int| 0 <= k < scope.len() ==> module.value_ok(f, (#[trigger] scope[k]).1)
}

pub(crate) proof fn lemma_all_stay_ok(before: ModuleView, after: ModuleView, f: int, values: Seq<Value>)
    requires
        grows(before, after),
        0 <= f < before.functions.len(),
        all_ok(before, f, values),
    ensures
        all_ok(after, f, values),
{
    assert forall|k: int| 0 <= k < values.len() implies after.value_ok(f, #[trigger] values[k]) by {
        lemma_value_stays_ok(before, after, f, values[k]);
    }
}

pub(crate) proof fn lemma_scope_stays_ok(
    before: ModuleView,
    after: ModuleView,
    f: int,
    scope: Seq<(Name, Value)>,
)
    requires
        grows(before, after),
        0 <= f < before.functions.len(),
        scope_ok(before, f, scope),
    ensures
        scope_ok(after, f, scope),
{
    assert forall|k: int| 0 <= k < scope.len() implies after.value_ok(
        f,
        (#[trigger] scope[k]).1,
    ) by {
        lemma_value_stays_ok(before, after, f, scope[k].1);
    }
}

/// Reading the values of names at the end of a block that does not end
/// in a terminator.
pub(crate) proof fn lemma_tail_values(
    module: ModuleView,
    f: usize,
    tail: usize,
    names: Seq<Name>,
    scope: Seq<(Name, Value)>,
    values: Seq<Value>,
    k: int,
)
    requires
        module.has_block(f as int, tail as int),
        sound(module, f as int),
        !closed(module, f as int, tail as int),
        scope_ok(module, f as int, scope),
        all_ok(module, f as int, values),
        0 <= k <= names.len(),
    ensures
        ({
            let (after, read) = tail_values(module, f, tail, names, scope, values, k);
            &&& sound(after, f as int)
            &&& !closed(after, f as int, tail as int)
            &&& only(module, after, f as int, tail as int)
            &&& read.len() == values.len() + names.len() - k
            &&& all_ok(after, f as int, read)
        }),
    decreases names.len() - k,
{
    if k < names.len() {
        match lookup(scope, names[k]) {
            Some(slot) => {
                lemma_lookup_member(scope, names[k]);
                let load = InstrView::Load { slot };
                let next = module.push_instr(f as int, tail as int, load);
                let value = Value::Inst(
                    tail,
                    module.functions[f as int].blocks[tail as int].instrs.len() as usize,
                );
                lemma_push_sound(module, f as int, tail as int, load);
                lemma_push_only(module, f as int, tail as int, load);
                lemma_push_frame(module, f as int, tail as int, load);
                lemma_scope_stays_ok(module, next, f as int, scope);
                lemma_all_stay_ok(module, next, f as int, values);
                let more = values.push(value);
                assert(all_ok(next, f as int, more)) by {
                    assert forall|j: int| 0 <= j < more.len() implies next.value_ok(
                        f as int,
                        #[trigger] more[j],
                    ) by {
                        if j < values.len() {
                            assert(more[j] == values[j]);
                        }
                    }
                }
                lemma_tail_values(next, f, tail, names, scope, more, k + 1);
                let (after, read) = tail_values(next, f, tail, names, scope, more, k + 1);
                lemma_only_on(module, next, after, f as int, tail as int);
            },
            None => {
                let more = values.push(Value::Const(0));
                assert(all_ok(module, f as int, more)) by {
                    assert forall|j: int| 0 <= j < more.len() implies module.value_ok(
                        f as int,
                        #[trigger] more[j],
                    ) by {
                        if j < values.len() {
                            assert(more[j] == values[j]);
                        }
                    }
                }
                lemma_tail_values(module, f, tail, names, scope, more, k + 1);
            },
        }
    } else {
        lemma_same(module);
    }
}

/// Closing a branch: after it, the block that the branch ended in ends in
/// a terminator.
pub(crate) proof fn lemma_close_branch(
    module: ModuleView,
    reaches: bool,
    f: usize,
    tail: usize,
    merge: usize,
    names: Seq<Name>,
    scope: Seq<(Name, Value)>,
)
    requires
        module.has_block(f as int, tail as int),
        module.has_block(f as int, merge as int),
        sound(module, f as int),
        reaches == !closed(module, f as int, tail as int),
        scope_ok(module, f as int, scope),
    ensures
        ({
            let (after, read) = close_branch(module, reaches, f, tail, merge, names, scope);
            &&& sound(after, f as int)
            &&& closed(after, f as int, tail as int)
            &&& only(module, after, f as int, tail as int)
            &&& reaches ==> read.len() == names.len()
            &&& all_ok(after, f as int, read)
        }),
{
    if reaches {
        lemma_tail_values(module, f, tail, names, scope, Seq::empty(), 0);
        let (next, read) = tail_values(module, f, tail, names, scope, Seq::empty(), 0);
        let branch = InstrView::Br { target: merge };
        assert(next.functions[f as int].blocks.len() == module.functions[f as int].blocks.len());
        lemma_push_sound(next, f as int, tail as int, branch);
        lemma_push_only(next, f as int, tail as int, branch);
        lemma_push_frame(next, f as int, tail as int, branch);
        let after = next.push_instr(f as int, tail as int, branch);
        lemma_only_on(module, next, after, f as int, tail as int);
        lemma_all_stay_ok(next, after, f as int, read);
    } else {
        lemma_same(module);
    }
}

/// Whether block `c` of function `f` holds phi nodes and nothing else.
pub open spec fn all_phi(module: ModuleView, f: int, c: int) -> bool {
    forall|i: int|
        0 <= i < module.functions[f].blocks[c].instrs.len()
            ==> #[trigger] module.functions[f].blocks[c].instrs[i] is Phi
}

/// The edges of a phi node at a join carry values that exist and come
/// from blocks that exist.
pub(crate) proof fn lemma_edges_ok(
    module: ModuleView,
    f: int,
    then_reaches: bool,
    then_value: Value,
    then_tail: usize,
    else_reaches: bool,
    else_value: Value,
    else_tail: usize,
)
    requires
        then_reaches ==> module.value_ok(f, then_value),
        else_reaches ==> module.value_ok(f, else_value),
        then_tail < module.functions[f].blocks.len(),
        else_tail < module.functions[f].blocks.len(),
    ensures
        module.edges_ok(
            f,
            edges(then_reaches, then_value, then_tail, else_reaches, else_value, else_tail),
        ),
{
    let all = edges(then_reaches, then_value, then_tail, else_reaches, else_value, else_tail);
    assert forall|k: int| 0 <= k < all.len() implies {
        &&& module.value_ok(f, (#[trigger] all[k]).0)
        &&& all[k].1 < module.functions[f].blocks.len()
    } by {
        if then_reaches && else_reaches {
            assert(all =~= seq![(then_value, then_tail), (else_value, else_tail)]);
        } else if then_reaches {
            assert(all =~= seq![(then_value, then_tail)]);
        } else if else_reaches {
            assert(all =~= seq![(else_value, else_tail)]);
        }
    }
}

/// A phi node appended to a block of phi nodes.
pub(crate) proof fn lemma_push_phi(module: ModuleView, f: int, block: usize, incoming: Seq<(Value, usize)>)
    requires
        module.has_block(f, block as int),
        sound(module, f),
        all_phi(module, f, block as int),
        module.edges_ok(f, incoming),
    ensures
        sound(module.push_instr(f, block as int, InstrView::Phi { incoming }), f),
        all_phi(module.push_instr(f, block as int, InstrView::Phi { incoming }), f, block as int),
        only(
            module,
            module.push_instr(f, block as int, InstrView::Phi { incoming }),
            f,
            block as int,
        ),
        module.push_instr(f, block as int, InstrView::Phi { incoming }).value_ok(
            f,
            Value::Inst(block, module.functions[f].blocks[block as int].instrs.len() as usize),
        ),
{
    let c = block as int;
    let phi = InstrView::Phi { incoming };
    let instrs = module.functions[f].blocks[c].instrs;
    assert(!closed(module, f, c)) by {
        if instrs.len() > 0 {
            assert(instrs[instrs.len() - 1] is Phi);
        }
    }
    if instrs.len() > 0 {
        assert(instrs[instrs.len() - 1] is Phi);
    }
    lemma_push_sound(module, f, c, phi);
    lemma_push_only(module, f, c, phi);
    lemma_push_frame(module, f, c, phi);
    let after = module.push_instr(f, c, phi);
    assert forall|i: int| 0 <= i < after.functions[f].blocks[c].instrs.len() implies #[trigger] after.functions[f].blocks[c].instrs[i] is Phi by {
        if i < instrs.len() {
            assert(instrs[i] is Phi);
        }
    }
}

/// The phi nodes of the merged names, appended to a join that holds phi
/// nodes only.
pub(crate) proof fn lemma_name_phis(
    module: ModuleView,
    fork: Fork,
    then_reaches: bool,
    then_values: Seq<Value>,
    then_tail: usize,
    else_reaches: bool,
    else_values: Seq<Value>,
    else_tail: usize,
    count: int,
    merged: Seq<Value>,
    k: int,
)
    requires
        module.has_block(fork.function as int, fork.merge_block as int),
        module.has_block(fork.function as int, then_tail as int),
        module.has_block(fork.function as int, else_tail as int),
        sound(module, fork.function as int),
        all_phi(module, fork.function as int, fork.merge_block as int),
        all_ok(module, fork.function as int, then_values),
        all_ok(module, fork.function as int, else_values),
        all_ok(module, fork.function as int, merged),
        then_reaches ==> then_values.len() == count,
        else_reaches ==> else_values.len() == count,
        0 <= k <= count,
    ensures
        ({
            let (after, all) = name_phis(
                module,
                fork,
                then_reaches,
                then_values,
                then_tail,
                else_reaches,
                else_values,
                else_tail,
                count,
                merged,
                k,
            );
            &&& sound(after, fork.function as int)
            &&& all_phi(after, fork.function as int, fork.merge_block as int)
            &&& only(module, after, fork.function as int, fork.merge_block as int)
            &&& all.len() == merged.len() + count - k
            &&& all_ok(after, fork.function as int, all)
        }),
    decreases count - k,
{
    let f = fork.function as int;
    let merge = fork.merge_block as int;
    if k < count {
        let incoming = edges(
            then_reaches,
            then_values[k],
            then_tail,
            else_reaches,
            else_values[k],
            else_tail,
        );
        lemma_edges_ok(
            module,
            f,
            then_reaches,
            then_values[k],
            then_tail,
            else_reaches,
            else_values[k],
            else_tail,
        );
        lemma_push_phi(module, f, fork.merge_block, incoming);
        let next = module.push_instr(f, merge, InstrView::Phi { incoming });
        let value = Value::Inst(
            fork.merge_block,
            module.functions[f].blocks[merge].instrs.len() as usize,
        );
        lemma_all_stay_ok(module, next, f, then_values);
        lemma_all_stay_ok(module, next, f, else_values);
        lemma_all_stay_ok(module, next, f, merged);
        let more = merged.push(value);
        assert(all_ok(next, f, more)) by {
            assert forall|j: int| 0 <= j < more.len() implies next.value_ok(
                f,
                #[trigger] more[j],
            ) by {
                if j < merged.len() {
                    assert(more[j] == merged[j]);
                }
            }
        }
        lemma_name_phis(
            next,
            fork,
            then_reaches,
            then_values,
            then_tail,
            else_reaches,
            else_values,
            else_tail,
            count,
            more,
            k + 1,
        );
        let (after, all) = name_phis(
            next,
            fork,
            then_reaches,
            then_values,
            then_tail,
            else_reaches,
            else_values,
            else_tail,
            count,
            more,
            k + 1,
        );
        lemma_only_on(module, next, after, f, merge);
    } else {
        lemma_same(module);
    }
}

/// The stores of the merged names, appended to a join that does not end
/// in a terminator.
proof fn lemma_store_merged(
    module: ModuleView,
    fork: Fork,
    names: Seq<Name>,
    merged: Seq<Value>,
    base: Seq<(Name, Value)>,
    k: int,
)
    requires
        module.has_block(fork.function as int, fork.merge_block as int),
        sound(module, fork.function as int),
        !closed(module, fork.function as int, fork.merge_block as int),
        scope_ok(module, fork.function as int, base),
        all_ok(module, fork.function as int, merged),
        merged.len() == names.len(),
        0 <= k <= names.len(),
    ensures
        ({
            let after = store_merged(module, fork, names, merged, base, k);
            &&& sound(after, fork.function as int)
            &&& !closed(after, fork.function as int, fork.merge_block as int)
            &&& only(module, after, fork.function as int, fork.merge_block as int)
        }),
    decreases names.len() - k,
{
    let f = fork.function as int;
    let merge = fork.merge_block as int;
    if k < names.len() {
        match lookup(base, names[k]) {
            Some(slot) => {
                lemma_lookup_member(base, names[k]);
                let store = InstrView::Store { slot, value: merged[k] };
                lemma_push_sound(module, f, merge, store);
                lemma_push_only(module, f, merge, store);
                let next = module.push_instr(f, merge, store);
                lemma_scope_stays_ok(module, next, f, base);
                lemma_all_stay_ok(module, next, f, merged);
                lemma_store_merged(next, fork, names, merged, base, k + 1);
                lemma_only_on(
                    module,
                    next,
                    store_merged(next, fork, names, merged, base, k + 1),
                    f,
                    merge,
                );
            },
            None => {
                lemma_store_merged(module, fork, names, merged, base, k + 1);
            },
        }
    } else {
        lemma_same(module);
    }
}

/// A new, empty block keeps a sound function sound.
proof fn lemma_add_block(module: ModuleView, f: int, kind: BlockKind)
    requires
        0 <= f < module.functions.len(),
        sound(module, f),
    ensures
        ({
            let after = module.add_block(f, kind);
            let n = module.functions[f].blocks.len() as int;
            &&& sound(after, f)
            &&& grows(module, after)
            &&& same_signatures(module, after)
            &&& after.globals == module.globals
            &&& forall|g: int|
                0 <= g < module.functions.len() && g != f ==> #[trigger] after.functions[g]
                    == module.functions[g]
            &&& after.functions[f].blocks.len() == n + 1
            &&& forall|c: int|
                0 <= c < n ==> #[trigger] after.functions[f].blocks[c] == module.functions[f].blocks[c]
            &&& after.functions[f].blocks[n].instrs.len() == 0
        }),
{
    let after = module.add_block(f, kind);
    let n = module.functions[f].blocks.len() as int;
    assert forall|g: int|
        #![trigger module.functions[g]]
        #![trigger after.functions[g]]
        0 <= g < module.functions.len() implies {
        &&& module.functions[g].name == after.functions[g].name
        &&& module.functions[g].kind == after.functions[g].kind
        &&& module.functions[g].arity == after.functions[g].arity
        &&& module.functions[g].blocks.len() <= after.functions[g].blocks.len()
        &&& forall|c: int|
            #![trigger module.functions[g].blocks[c]]
            #![trigger after.functions[g].blocks[c]]
            0 <= c < module.functions[g].blocks.len() ==> module.functions[g].blocks[c].instrs.len()
                <= after.functions[g].blocks[c].instrs.len()
    } by {
        if g != f {
            assert(after.functions[g] == module.functions[g]);
        } else {
            assert forall|c: int|
                #![trigger module.functions[g].blocks[c]]
                #![trigger after.functions[g].blocks[c]]
                0 <= c < module.functions[g].blocks.len() implies module.functions[g].blocks[c].instrs.len()
                    <= after.functions[g].blocks[c].instrs.len() by {
                assert(after.functions[g].blocks[c] == module.functions[g].blocks[c]);
            }
        }
    }
    assert forall|c: int, i: int|
        0 <= c < after.functions[f].blocks.len() && 0 <= i
            < after.functions[f].blocks[c].instrs.len() implies #[trigger] half_ok(
        after,
        f,
        c,
        i,
    ) by {
        assert(c < n);
        assert(after.functions[f].blocks[c] == module.functions[f].blocks[c]);
        assert(half_ok(module, f, c, i));
        lemma_instr_stays_ok(module, after, f, module.functions[f].blocks[c].instrs[i]);
    }
}

/// The start of a conditional: the block at the cursor ends in the
/// branch, and the three new blocks are empty.
pub(crate) proof fn lemma_fork(st: State, condition: Value)
    requires
        ready(st),
        st.module.value_ok(here(st), condition),
        st.module.functions[here(st)].blocks.len() + 3 <= usize::MAX,
    ensures
        st.fork(condition) matches Ok((after, fork)) ==> {
            let f = here(st);
            let b = st.block() as int;
            let n = st.module.functions[f].blocks.len() as int;
            &&& fork.function == f
            &&& fork.then_block == n
            &&& fork.else_block == n + 1
            &&& fork.merge_block == n + 2
            &&& after.cursor == Some((fork.function, fork.then_block))
            &&& after.variables == st.variables
            &&& after.functions == st.functions
            &&& after.foreign == st.foreign
            &&& after.objects == st.objects
            &&& after.module.functions[f].blocks.len() == n + 3
            &&& after.module.functions[f].blocks[n].instrs.len() == 0
            &&& after.module.functions[f].blocks[n + 1].instrs.len() == 0
            &&& after.module.functions[f].blocks[n + 2].instrs.len() == 0
            &&& within(st.module, after.module, f, b, n)
            &&& closed(after.module, f, b)
            &&& ready(after)
        },
{
    let f = here(st);
    let b = st.block() as int;
    let n = st.module.functions[f].blocks.len() as int;
    let compare = InstrView::Compare { pred: Pred::Ne, lhs: condition, rhs: Value::Const(0) };
    lemma_emit(st, compare);
    let st1 = st.place(compare);
    let bit = st.next_value();
    let m0 = st1.module;
    lemma_add_block(m0, f, BlockKind::Then);
    let m1 = m0.add_block(f, BlockKind::Then);
    lemma_add_block(m1, f, BlockKind::Else);
    let m2 = m1.add_block(f, BlockKind::Else);
    lemma_add_block(m2, f, BlockKind::Merge);
    let m3 = m2.add_block(f, BlockKind::Merge);
    lemma_grows_on(m0, m1, m2);
    lemma_grows_on(m0, m2, m3);
    lemma_value_stays_ok(m0, m3, f, bit);
    let branch = InstrView::CondBr {
        cond: bit,
        then_target: n as usize,
        else_target: (n + 1) as usize,
    };
    assert(m3.functions[f].blocks[b] == m0.functions[f].blocks[b]) by {
        assert(m1.functions[f].blocks[b] == m0.functions[f].blocks[b]);
        assert(m2.functions[f].blocks[b] == m1.functions[f].blocks[b]);
    }
    lemma_push_sound(m3, f, b, branch);
    lemma_push_only(m3, f, b, branch);
    lemma_push_frame(m3, f, b, branch);
    let m4 = m3.push_instr(f, b, branch);
    lemma_grows_on(m0, m3, m4);
    lemma_grows_on(st.module, m0, m4);
    let after = State { cursor: Some((f as usize, n as usize)), module: m4, ..st1 };
    assert(st.fork(condition) == Ok::<(State, Fork), CompileErrorView>(
        (
            after,
            Fork {
                function: f as usize,
                then_block: n as usize,
                else_block: (n + 1) as usize,
                merge_block: (n + 2) as usize,
            },
        ),
    ));
    assert(m4.functions[f].blocks[n] == m3.functions[f].blocks[n]);
    assert(m4.functions[f].blocks[n + 1] == m3.functions[f].blocks[n + 1]);
    assert(m4.functions[f].blocks[n + 2] == m3.functions[f].blocks[n + 2]);
    assert(m3.functions[f].blocks[n] == m2.functions[f].blocks[n]);
    assert(m3.functions[f].blocks[n + 1] == m2.functions[f].blocks[n + 1]);
    assert(m2.functions[f].blocks[n] == m1.functions[f].blocks[n]);
    assert(same_signatures(st.module, m4)) by {
        assert forall|g: int|
            #![trigger st.module.functions[g]]
            #![trigger m4.functions[g]]
            0 <= g < st.module.functions.len() implies {
            &&& st.module.functions[g].name == m4.functions[g].name
            &&& st.module.functions[g].kind == m4.functions[g].kind
            &&& st.module.functions[g].arity == m4.functions[g].arity
        } by {
            assert(st.module.functions[g].name == m0.functions[g].name);
            assert(m0.functions[g].name == m1.functions[g].name);
            assert(m1.functions[g].name == m2.functions[g].name);
            assert(m2.functions[g].name == m3.functions[g].name);
            assert(m3.functions[g].name == m4.functions[g].name);
        }
    }
    assert forall|g: int| 0 <= g < st.module.functions.len() && g != f implies #[trigger] m4.functions[g]
        == st.module.functions[g] by {
        assert(m0.functions[g] == st.module.functions[g]);
        assert(m1.functions[g] == m0.functions[g]);
        assert(m2.functions[g] == m1.functions[g]);
        assert(m3.functions[g] == m2.functions[g]);
        assert(m4.functions[g] == m3.functions[g]);
    }
    assert forall|c: int|
        0 <= c < n && c != b && c < st.module.functions[f].blocks.len() implies #[trigger] m4.functions[f].blocks[c]
        == st.module.functions[f].blocks[c] by {
        assert(m0.functions[f].blocks[c] == st.module.functions[f].blocks[c]);
        assert(m1.functions[f].blocks[c] == m0.functions[f].blocks[c]);
        assert(m2.functions[f].blocks[c] == m1.functions[f].blocks[c]);
        assert(m3.functions[f].blocks[c] == m2.functions[f].blocks[c]);
        assert(m4.functions[f].blocks[c] == m3.functions[f].blocks[c]);
    }
    lemma_scope_stays_ok(st1.module, m4, f, st1.variables);
    assert(m4.functions[0].kind is Output && m4.functions[0].arity == 1) by {
        assert(st.module.functions[0].kind == m4.functions[0].kind);
    }
}

/// Whether the two branches of a conditional can be joined in `st`, the
/// state after the false branch: the join is empty, each branch is said to
/// reach it exactly if the block that the branch ended in does not end in
/// a terminator, and the scopes and values of the branches exist.
pub open spec fn joinable(
    st: State,
    base: Seq<(Name, Value)>,
    fork: Fork,
    then_end: Branch,
    else_end: Branch,
) -> bool {
    let f = fork.function as int;
    &&& steady(st)
    &&& here(st) == f
    &&& st.module.has_block(f, fork.merge_block as int)
    &&& st.module.has_block(f, then_end.tail as int)
    &&& st.module.has_block(f, else_end.tail as int)
    &&& st.module.functions[f].blocks[fork.merge_block as int].instrs.len() == 0
    &&& then_end.reaches == !closed(st.module, f, then_end.tail as int)
    &&& else_end.reaches == !closed(st.module, f, else_end.tail as int)
    &&& scope_ok(st.module, f, then_end.scope)
    &&& scope_ok(st.module, f, else_end.scope)
    &&& scope_ok(st.module, f, base)
    &&& st.module.value_ok(f, then_end.value)
    &&& st.module.value_ok(f, else_end.value)
    &&& then_end.tail != fork.merge_block
    &&& else_end.tail != fork.merge_block
    &&& then_end.tail != else_end.tail
}

/// The end of a conditional: both branches end in a terminator, the join
/// can take code, and nothing else has changed.
pub(crate) proof fn lemma_join(
    st: State,
    base: Seq<(Name, Value)>,
    fork: Fork,
    then_end: Branch,
    else_end: Branch,
)
    requires
        joinable(st, base, fork, then_end, else_end),
    ensures
        ({
            let (after, value) = join(st, base, fork, then_end, else_end);
            let f = fork.function as int;
            &&& ready(after)
            &&& after.cursor == Some((fork.function, fork.merge_block))
            &&& after.variables == base
            &&& after.functions == st.functions
            &&& after.foreign == st.foreign
            &&& after.objects == st.objects
            &&& closed(after.module, f, then_end.tail as int)
            &&& closed(after.module, f, else_end.tail as int)
            &&& after.module.value_ok(f, value)
            &&& grows(st.module, after.module)
            &&& same_signatures(st.module, after.module)
            &&& after.module.functions[f].blocks.len() == st.module.functions[f].blocks.len()
            &&& forall|g: int|
                0 <= g < st.module.functions.len() && g != f ==> #[trigger] after.module.functions[g]
                    == st.module.functions[g]
            &&& forall|c: int|
                0 <= c < st.module.functions[f].blocks.len() && c != then_end.tail && c
                    != else_end.tail && c != fork.merge_block
                    ==> #[trigger] after.module.functions[f].blocks[c]
                    == st.module.functions[f].blocks[c]
        }),
{
    let f = fork.function as int;
    let merge = fork.merge_block as int;
    let then_tail = then_end.tail as int;
    let else_tail = else_end.tail as int;
    let names = changed_names(
        else_end.scope,
        base,
        changed_names(then_end.scope, base, Seq::empty(), 0),
        0,
    );
    let m0 = st.module;
    // the true branch
    lemma_close_branch(
        m0,
        then_end.reaches,
        fork.function,
        then_end.tail,
        fork.merge_block,
        names,
        then_end.scope,
    );
    let (m1, then_values) = close_branch(
        m0,
        then_end.reaches,
        fork.function,
        then_end.tail,
        fork.merge_block,
        names,
        then_end.scope,
    );
    assert(m1.functions[f].blocks[else_tail] == m0.functions[f].blocks[else_tail]);
    assert(m1.functions[f].blocks[merge] == m0.functions[f].blocks[merge]);
    lemma_scope_stays_ok(m0, m1, f, else_end.scope);
    // the false branch
    lemma_close_branch(
        m1,
        else_end.reaches,
        fork.function,
        else_end.tail,
        fork.merge_block,
        names,
        else_end.scope,
    );
    let (m2, else_values) = close_branch(
        m1,
        else_end.reaches,
        fork.function,
        else_end.tail,
        fork.merge_block,
        names,
        else_end.scope,
    );
    assert(m2.functions[f].blocks[then_tail] == m1.functions[f].blocks[then_tail]);
    assert(m2.functions[f].blocks[merge] == m1.functions[f].blocks[merge]);
    lemma_grows_on(m0, m1, m2);
    lemma_all_stay_ok(m1, m2, f, then_values);
    lemma_scope_stays_ok(m0, m2, f, base);
    lemma_scope_stays_ok(m0, m2, f, st.variables);
    lemma_value_stays_ok(m0, m2, f, then_end.value);
    lemma_value_stays_ok(m0, m2, f, else_end.value);
    assert(same_signatures(m0, m2)) by {
        assert forall|g: int|
            #![trigger m0.functions[g]]
            #![trigger m2.functions[g]]
            0 <= g < m0.functions.len() implies {
            &&& m0.functions[g].name == m2.functions[g].name
            &&& m0.functions[g].kind == m2.functions[g].kind
            &&& m0.functions[g].arity == m2.functions[g].arity
        } by {
            assert(m0.functions[g].name == m1.functions[g].name);
            assert(m1.functions[g].name == m2.functions[g].name);
        }
    }
    assert forall|g: int| 0 <= g < m0.functions.len() && g != f implies #[trigger] m2.functions[g]
        == m0.functions[g] by {
        assert(m1.functions[g] == m0.functions[g]);
    }
    assert forall|c: int|
        0 <= c < m0.functions[f].blocks.len() && c != then_tail && c != else_tail implies #[trigger] m2.functions[f].blocks[c]
        == m0.functions[f].blocks[c] by {
        assert(m1.functions[f].blocks[c] == m0.functions[f].blocks[c]);
    }
    let merged = State {
        variables: base,
        cursor: Some((fork.function, fork.merge_block)),
        ..st
    };
    if then_end.reaches || else_end.reaches {
        assert(all_phi(m2, f, merge));
        lemma_name_phis(
            m2,
            fork,
            then_end.reaches,
            then_values,
            then_end.tail,
            else_end.reaches,
            else_values,
            else_end.tail,
            names.len() as int,
            Seq::empty(),
            0,
        );
        let (m3, merged_values) = name_phis(
            m2,
            fork,
            then_end.reaches,
            then_values,
            then_end.tail,
            else_end.reaches,
            else_values,
            else_end.tail,
            names.len() as int,
            Seq::empty(),
            0,
        );
        lemma_value_stays_ok(m2, m3, f, then_end.value);
        lemma_value_stays_ok(m2, m3, f, else_end.value);
        let incoming = edges(
            then_end.reaches,
            then_end.value,
            then_end.tail,
            else_end.reaches,
            else_end.value,
            else_end.tail,
        );
        lemma_edges_ok(
            m3,
            f,
            then_end.reaches,
            then_end.value,
            then_end.tail,
            else_end.reaches,
            else_end.value,
            else_end.tail,
        );
        lemma_push_phi(m3, f, fork.merge_block, incoming);
        let m4 = m3.push_instr(f, merge, InstrView::Phi { incoming });
        let result = Value::Inst(
            fork.merge_block,
            m3.functions[f].blocks[merge].instrs.len() as usize,
        );
        lemma_only_on(m2, m3, m4, f, merge);
        lemma_grows_on(m0, m2, m4);
        lemma_scope_stays_ok(m0, m4, f, base);
        lemma_all_stay_ok(m3, m4, f, merged_values);
        assert(!closed(m4, f, merge)) by {
            let instrs = m4.functions[f].blocks[merge].instrs;
            assert(instrs[instrs.len() - 1] is Phi);
        }
        lemma_store_merged(m4, fork, names, merged_values, base, 0);
        let m5 = store_merged(m4, fork, names, merged_values, base, 0);
        lemma_only_on(m2, m4, m5, f, merge);
        lemma_grows_on(m0, m2, m5);
        lemma_value_stays_ok(m4, m5, f, result);
        lemma_scope_stays_ok(m0, m5, f, base);
        let after = State { module: m5, ..merged };
        assert(join(st, base, fork, then_end, else_end) == (after, result));
        assert(m5.functions[f].blocks[then_tail] == m2.functions[f].blocks[then_tail]);
        assert(m5.functions[f].blocks[else_tail] == m2.functions[f].blocks[else_tail]);
        assert(same_signatures(m0, m5)) by {
            assert forall|g: int|
                #![trigger m0.functions[g]]
                #![trigger m5.functions[g]]
                0 <= g < m0.functions.len() implies {
                &&& m0.functions[g].name == m5.functions[g].name
                &&& m0.functions[g].kind == m5.functions[g].kind
                &&& m0.functions[g].arity == m5.functions[g].arity
            } by {
                assert(m0.functions[g].name == m2.functions[g].name);
                assert(m2.functions[g].name == m5.functions[g].name);
            }
        }
        assert forall|g: int| 0 <= g < m0.functions.len() && g != f implies #[trigger] m5.functions[g]
            == m0.functions[g] by {
            assert(m2.functions[g] == m0.functions[g]);
        }
        assert forall|c: int|
            0 <= c < m0.functions[f].blocks.len() && c != then_tail && c != else_tail && c
                != merge implies #[trigger] m5.functions[f].blocks[c]
            == m0.functions[f].blocks[c] by {
            assert(m2.functions[f].blocks[c] == m0.functions[f].blocks[c]);
        }
        assert(m5.functions[0].kind is Output && m5.functions[0].arity == 1) by {
            assert(m0.functions[0].kind == m5.functions[0].kind);
        }
    } else {
        let after = State { module: m2, ..merged };
        assert(join(st, base, fork, then_end, else_end) == (after, Value::Const(0)));
        assert(m2.functions[0].kind is Output && m2.functions[0].arity == 1) by {
            assert(m0.functions[0].kind == m2.functions[0].kind);
        }
    }
}

/// The number of blocks that compiling a statement creates, at most:
/// three for each conditional in it.
pub open spec fn blocks_in(e: Expr) -> nat
    decreases e, 1nat,
{
    match e {
        Expr::Conditional { condition, true_block, false_block } => 3 + blocks_in(*true_block)
            + match false_block {
            Some(false_block) => blocks_in(*false_block),
            None => 0,
        },
        Expr::Block(items) => blocks_from(items, 0),
        _ => 0,
    }
}

/// The number of blocks that compiling `items`, from item `i` on, creates
/// at most.
pub open spec fn blocks_from(items: Seq<Expr>, i: int) -> nat
    decreases items, items.len() - i,
{
    if i < 0 || i >= items.len() {
        0
    } else {
        blocks_in(items[i]) + blocks_from(items, i + 1)
    }
}

/// The number of blocks of the function at the cursor.
pub open spec fn blocks_of(st: State) -> int {
    st.module.functions[here(st)].blocks.len() as int
}

/// A statement compiles to an advance, and yields a value that can be an
/// operand. The block at the cursor ends in a terminator after it exactly
/// if the statement is a return.
pub(crate) proof fn lemma_statement(st: State, e: Expr)
    requires
        ready(st),
        is_statement(st, e),
        blocks_of(st) + blocks_in(e) <= usize::MAX,
    ensures
        generate(st, e) matches Ok((after, value)) ==> {
            &&& advanced(st, after)
            &&& after.module.value_ok(here(st), value)
            &&& blocks_of(after) <= blocks_of(st) + blocks_in(e)
            &&& closed(after.module, here(st), after.block() as int) <==> e is Return
        },
    decreases e, 1nat,
{
    let f = here(st);
    match e {
        Expr::Assignment(name, value) => {
            lemma_expression(st, *value);
            if let Ok((st1, v)) = generate(st, *value) {
                lemma_appended_advanced(st, st1);
                lemma_assignment(st1, name, v);
                if let Ok((st2, yielded)) = st1.assignment(name, v) {
                    lemma_advanced_on(st, st1, st2);
                }
            }
        },
        Expr::Print(format, value) => {
            lemma_expression(st, *value);
            if let Ok((st1, v)) = generate(st, *value) {
                lemma_appended_advanced(st, st1);
                lemma_print(st1, format, v);
                if let Ok((st2, yielded)) = st1.print(format, v) {
                    lemma_advanced_on(st, st1, st2);
                }
            }
        },
        Expr::Return(value) => {
            lemma_expression(st, *value);
            if let Ok((st1, v)) = generate(st, *value) {
                lemma_appended_advanced(st, st1);
                lemma_return(st1, v);
                if let Ok((st2, yielded)) = st1.ret(v) {
                    lemma_advanced_on(st, st1, st2);
                }
            }
        },
        Expr::Conditional { .. } => {
            lemma_conditional(st, e);
        },
        _ => {
            lemma_expression(st, e);
            if let Ok((st1, v)) = generate(st, e) {
                lemma_appended_advanced(st, st1);
            }
        },
    }
}

/// The statements of a body compile to an advance.
pub(crate) proof fn lemma_statements(st: State, items: Seq<Expr>, i: int, last: Value)
    requires
        ready(st),
        are_statements(st, items, i),
        0 <= i <= items.len(),
        st.module.value_ok(here(st), last),
        blocks_of(st) + blocks_from(items, i) <= usize::MAX,
    ensures
        generate_block(st, items, i, last) matches Ok((after, value)) ==> {
            &&& advanced(st, after)
            &&& after.module.value_ok(here(st), value)
            &&& blocks_of(after) <= blocks_of(st) + blocks_from(items, i)
        },
    decreases items, items.len() - i,
{
    if i < items.len() {
        lemma_statement(st, items[i]);
        if let Ok((st1, value)) = generate(st, items[i]) {
            if !(items[i] is Return) {
                lemma_statements_stay(st, st1, items, i + 1);
                lemma_statements(st1, items, i + 1, value);
                if let Ok((st2, yielded)) = generate_block(st1, items, i + 1, value) {
                    lemma_advanced_on(st, st1, st2);
                }
            }
        }
    } else {
        lemma_advanced_self(st);
    }
}

/// The advances of a conditional, put together: from the state before
/// the condition to the state after the join.
proof fn lemma_composed(
    st: State,
    st1: State,
    sf: State,
    after_then: State,
    se: State,
    after_else: State,
    last: State,
    then_tail: usize,
    else_tail: usize,
)
    requires
        ready(st),
        appended(st, st1),
        // the fork
        sf.cursor == Some((here(st) as usize, blocks_of(st) as usize)),
        blocks_of(st) + 3 <= usize::MAX,
        sf.functions == st1.functions,
        sf.foreign == st1.foreign,
        sf.objects == st1.objects,
        sf.module.functions[here(st)].blocks.len() == blocks_of(st) + 3,
        within(st1.module, sf.module, here(st), st.block() as int, blocks_of(st)),
        closed(sf.module, here(st), st.block() as int),
        ready(sf),
        // the branches
        advanced(sf, after_then),
        se == (State {
            variables: sf.variables,
            cursor: Some((here(st) as usize, (blocks_of(st) + 1) as usize)),
            ..after_then
        }),
        steady(se),
        advanced(se, after_else),
        then_tail == after_then.block(),
        else_tail == after_else.block(),
        // the join
        steady(last),
        last.cursor == Some((here(st) as usize, (blocks_of(st) + 2) as usize)),
        last.functions == after_else.functions,
        last.foreign == after_else.foreign,
        last.objects == after_else.objects,
        closed(last.module, here(st), then_tail as int),
        closed(last.module, here(st), else_tail as int),
        grows(after_else.module, last.module),
        same_signatures(after_else.module, last.module),
        last.module.functions[here(st)].blocks.len()
            == after_else.module.functions[here(st)].blocks.len(),
        forall|g: int|
            0 <= g < after_else.module.functions.len() && g != here(st)
                ==> #[trigger] last.module.functions[g] == after_else.module.functions[g],
        forall|c: int|
            0 <= c < after_else.module.functions[here(st)].blocks.len() && c != then_tail && c
                != else_tail && c != blocks_of(st) + 2
                ==> #[trigger] last.module.functions[here(st)].blocks[c]
                == after_else.module.functions[here(st)].blocks[c],
    ensures
        advanced(st, last),
{
    let f = here(st);
    let b = st.block() as int;
    let n = blocks_of(st);
    let m = blocks_of(after_then);
    lemma_grows_on(st.module, st1.module, sf.module);
    lemma_grows_on(st.module, sf.module, after_then.module);
    lemma_grows_on(st.module, after_then.module, after_else.module);
    lemma_grows_on(st.module, after_else.module, last.module);
    assert(same_signatures(st.module, last.module)) by {
        assert forall|g: int|
            #![trigger st.module.functions[g]]
            #![trigger last.module.functions[g]]
            0 <= g < st.module.functions.len() implies {
            &&& st.module.functions[g].name == last.module.functions[g].name
            &&& st.module.functions[g].kind == last.module.functions[g].kind
            &&& st.module.functions[g].arity == last.module.functions[g].arity
        } by {
            assert(st.module.functions[g].name == st1.module.functions[g].name);
            assert(st1.module.functions[g].name == sf.module.functions[g].name);
            assert(sf.module.functions[g].name == after_then.module.functions[g].name);
            assert(after_then.module.functions[g].name == after_else.module.functions[g].name);
            assert(after_else.module.functions[g].name == last.module.functions[g].name);
        }
    }
    assert forall|g: int| 0 <= g < st.module.functions.len() && g != f implies #[trigger] last.module.functions[g]
        == st.module.functions[g] by {
        assert(st1.module.functions[g] == st.module.functions[g]);
        assert(sf.module.functions[g] == st1.module.functions[g]);
        assert(after_then.module.functions[g] == sf.module.functions[g]);
        assert(after_else.module.functions[g] == after_then.module.functions[g]);
        assert(last.module.functions[g] == after_else.module.functions[g]);
    }
    assert(then_tail == n || then_tail >= n + 3);
    assert(else_tail == n + 1 || else_tail >= m);
    assert forall|c: int|
        0 <= c < n && c != b && c < st.module.functions[f].blocks.len() implies #[trigger] last.module.functions[f].blocks[c]
        == st.module.functions[f].blocks[c] by {
        assert(st1.module.functions[f].blocks[c] == st.module.functions[f].blocks[c]);
        assert(sf.module.functions[f].blocks[c] == st1.module.functions[f].blocks[c]);
        assert(after_then.module.functions[f].blocks[c] == sf.module.functions[f].blocks[c]);
        assert(after_else.module.functions[f].blocks[c]
            == after_then.module.functions[f].blocks[c]);
        assert(last.module.functions[f].blocks[c] == after_else.module.functions[f].blocks[c]);
    }
    assert forall|c: int|
        0 <= c < last.module.functions[f].blocks.len() && ((c == b && last.block() != b) || (c >= n
            && c != last.block())) implies #[trigger] closed(last.module, f, c) by {
        if c == then_tail || c == else_tail {
        } else if c == b {
            assert(after_then.module.functions[f].blocks[c] == sf.module.functions[f].blocks[c]);
            assert(after_else.module.functions[f].blocks[c]
                == after_then.module.functions[f].blocks[c]);
            assert(last.module.functions[f].blocks[c] == after_else.module.functions[f].blocks[c]);
        } else if c == n + 1 {
            assert(closed(after_else.module, f, c));
            assert(last.module.functions[f].blocks[c] == after_else.module.functions[f].blocks[c]);
        } else if c < m {
            assert(closed(after_then.module, f, c));
            assert(after_else.module.functions[f].blocks[c]
                == after_then.module.functions[f].blocks[c]);
            assert(last.module.functions[f].blocks[c] == after_else.module.functions[f].blocks[c]);
        } else {
            assert(closed(after_else.module, f, c));
            assert(last.module.functions[f].blocks[c] == after_else.module.functions[f].blocks[c]);
        }
    }
}

/// A conditional compiles to an advance that ends in the join.
proof fn lemma_conditional(st: State, e: Expr)
    requires
        ready(st),
        e is Conditional,
        is_statement(st, e),
        blocks_of(st) + blocks_in(e) <= usize::MAX,
    ensures
        generate(st, e) matches Ok((after, value)) ==> {
            &&& advanced(st, after)
            &&& after.module.value_ok(here(st), value)
            &&& blocks_of(after) <= blocks_of(st) + blocks_in(e)
            &&& !closed(after.module, here(st), after.block() as int)
        },
    decreases e, 0nat,
{
    let f = here(st);
    let b = st.block() as int;
    let n = blocks_of(st);
    match e {
        Expr::Conditional { condition, true_block, false_block } => {
            lemma_expression(st, *condition);
            if let Ok((st1, cv)) = generate(st, *condition) {
                lemma_appended_advanced(st, st1);
                lemma_fork(st1, cv);
                if let Ok((sf, fork)) = st1.fork(cv) {
                    let base = sf.variables;
                    let then_items = true_block->Block_0;
                    lemma_body_stays(st, sf, *true_block);
                    assert(blocks_in(*true_block) == blocks_from(then_items, 0));
                    assert(blocks_of(sf) == n + 3);
                    lemma_statements(sf, then_items, 0, Value::Const(0));
                    if let Ok((after_then, then_value)) = generate(sf, *true_block) {
                        let then_end = after_then.end_of_branch(then_value);
                        let se = after_then.enter_else(base, fork);
                        let m = blocks_of(after_then);
                        // the state at the start of the false branch can take code
                        lemma_scope_stays_ok(sf.module, after_then.module, f, base);
                        assert(after_then.module.functions[f].blocks[n + 1]
                            == sf.module.functions[f].blocks[n + 1]);
                        assert(after_then.module.functions[f].blocks[n + 2]
                            == sf.module.functions[f].blocks[n + 2]);
                        assert(ready(se));
                        match false_block {
                            Some(inner) => {
                                lemma_body_stays(st, se, *inner);
                                assert(blocks_in(*inner) == blocks_from(inner->Block_0, 0));
                                assert(blocks_of(se) == m);
                                lemma_statements(se, inner->Block_0, 0, Value::Const(0));
                            },
                            None => {
                                lemma_advanced_self(se);
                            },
                        }
                        let outcome = match false_block {
                            Some(inner) => generate(se, *inner),
                            None => Ok((se, Value::Const(0))),
                        };
                        if let Ok((after_else, else_value)) = outcome {
                            let else_end = after_else.end_of_branch(else_value);
                            assert(advanced(se, after_else));
                            let then_tail = then_end.tail as int;
                            let else_tail = else_end.tail as int;
                            assert(then_tail == n || then_tail >= n + 3);
                            assert(else_tail == n + 1 || else_tail >= m);
                            assert(after_else.module.functions[f].blocks[n + 2]
                                == after_then.module.functions[f].blocks[n + 2]);
                            assert(after_else.module.functions[f].blocks[then_tail]
                                == after_then.module.functions[f].blocks[then_tail]);
                            lemma_scope_stays_ok(
                                after_then.module,
                                after_else.module,
                                f,
                                after_then.variables,
                            );
                            lemma_scope_stays_ok(after_then.module, after_else.module, f, base);
                            lemma_value_stays_ok(
                                after_then.module,
                                after_else.module,
                                f,
                                then_value,
                            );
                            assert(joinable(after_else, base, fork, then_end, else_end));
                            lemma_join(after_else, base, fork, then_end, else_end);
                            let (last, value) = join(after_else, base, fork, then_end, else_end);
                            assert(generate(st, e) == Ok::<(State, Value), CompileErrorView>(
                                (last, value),
                            ));
                            lemma_composed(
                                st,
                                st1,
                                sf,
                                after_then,
                                se,
                                after_else,
                                last,
                                then_end.tail,
                                else_end.tail,
                            );
                        }
                    }
                }
            }
        },
        _ => {},
    }
}

/// A function that obeys the structural rules still does as the module
/// grows around it.
proof fn lemma_function_stays_ok(before: ModuleView, after: ModuleView, g: int)
    requires
        grows(before, after),
        0 <= g < before.functions.len(),
        after.functions[g] == before.functions[g],
        before.function_ok(g),
    ensures
        after.function_ok(g),
{
    assert forall|c: int| 0 <= c < after.functions[g].blocks.len() implies #[trigger] after.block_ok(
        g,
        c,
    ) by {
        assert(before.block_ok(g, c));
        let instrs = before.functions[g].blocks[c].instrs;
        assert forall|i: int| 0 <= i < instrs.len() implies #[trigger] after.position_ok(
            g,
            c,
            i,
        ) by {
            assert(before.position_ok(g, c, i));
            lemma_instr_stays_ok(before, after, g, instrs[i]);
        }
    }
}

/// Whether `st` is in order between two definitions: the cursor is in no
/// function, every function obeys the structural rules, every function of
/// the symbol table exists, the first function of the module is the
/// formatted-output primitive, a function with the name of the entry
/// function takes no parameters, and the number of functions is within
/// the range of indices.
pub open spec fn tidy(st: State) -> bool {
    &&& st.cursor is None
    &&& st.module.functions.len() <= usize::MAX
    &&& forall|g: int| 0 <= g < st.module.functions.len() ==> #[trigger] st.module.function_ok(g)
    &&& forall|k: int|
        0 <= k < st.functions.len() ==> (#[trigger] st.functions[k]).1 < st.module.functions.len()
    &&& st.module.functions.len() > 0
    &&& st.module.functions[0].kind is Output
    &&& st.module.functions[0].arity == 1
    &&& forall|g: int|
        0 <= g < st.module.functions.len() && (#[trigger] st.module.functions[g]).name
            == entry_name() ==> st.module.functions[g].kind is Plain
            && st.module.functions[g].arity == 0
}

/// The parameters of a function, each given its slot.
proof fn lemma_bind_parameters(st: State, params: Seq<Name>, i: int)
    requires
        ready(st),
        st.module.functions[here(st)].arity == params.len(),
        0 <= i <= params.len() <= usize::MAX,
    ensures
        ({
            let after = st.bind_parameters(params, i);
            &&& advanced(st, after)
            &&& ready(after)
            &&& after.cursor == st.cursor
            &&& blocks_of(after) == blocks_of(st)
        }),
    decreases params.len() - i,
{
    let f = here(st);
    if i < params.len() {
        lemma_emit(st, InstrView::Alloca);
        let st1 = st.place(InstrView::Alloca);
        let slot = st.next_value();
        lemma_appended_advanced(st, st1);
        let store = InstrView::Store { slot, value: Value::Param(i as usize) };
        assert(st1.module.functions[f].arity == st.module.functions[f].arity);
        lemma_emit(st1, store);
        let st2 = st1.place(store);
        lemma_appended_advanced(st1, st2);
        lemma_advanced_on(st, st1, st2);
        lemma_value_stays_ok(st1.module, st2.module, f, slot);
        let st3 = State { variables: st2.variables.push((params[i], slot)), ..st2 };
        assert(steady(st3)) by {
            assert forall|k: int| 0 <= k < st3.variables.len() implies st3.module.value_ok(
                f,
                (#[trigger] st3.variables[k]).1,
            ) by {
                if k < st2.variables.len() {
                    assert(st3.variables[k] == st2.variables[k]);
                }
            }
        }
        lemma_same(st2.module);
        assert(advanced(st2, st3));
        lemma_advanced_on(st, st2, st3);
        assert(st3.module.functions[f].arity == st.module.functions[f].arity);
        lemma_bind_parameters(st3, params, i + 1);
        lemma_advanced_on(st, st3, st3.bind_parameters(params, i + 1));
    } else {
        lemma_advanced_self(st);
    }
}

/// The state at the start of the body of a new function can take code.
pub(crate) proof fn lemma_open_function(st: State, name: Name, params: Seq<Name>)
    requires
        tidy(st),
        st.module.functions.len() + 1 <= usize::MAX,
        params.len() <= usize::MAX,
    ensures
        ({
            let after = st.open_function(name, params);
            let f = st.module.functions.len() as int;
            &&& ready(after)
            &&& here(after) == f
            &&& blocks_of(after) == 1
            &&& after.block() == 0
            &&& after.functions == st.functions.push((name, f as usize))
            &&& after.foreign == st.foreign
            &&& after.objects == st.objects
            &&& after.module.functions.len() == f + 1
            &&& after.module.functions[f].name == name
            &&& after.module.functions[f].kind is Plain
            &&& after.module.functions[f].arity == params.len()
            &&& grows(st.module, after.module)
            &&& forall|g: int|
                0 <= g < f ==> #[trigger] after.module.functions[g] == st.module.functions[g]
        }),
{
    let f = st.module.functions.len() as int;
    let declared = st.declare(name, params.len() as usize);
    let module = declared.module.add_block(f, BlockKind::Entry);
    let start = State { module, variables: Seq::empty(), cursor: Some((f as usize, 0)), ..declared };
    assert(module.functions[f].blocks.len() == 1);
    assert(module.functions[f].blocks[0].instrs.len() == 0);
    assert forall|g: int| 0 <= g < f implies #[trigger] module.functions[g]
        == st.module.functions[g] by {
        assert(declared.module.functions[g] == st.module.functions[g]);
    }
    assert(grows(st.module, module)) by {
        assert forall|g: int|
            #![trigger st.module.functions[g]]
            #![trigger module.functions[g]]
            0 <= g < st.module.functions.len() implies {
            &&& st.module.functions[g].kind == module.functions[g].kind
            &&& st.module.functions[g].arity == module.functions[g].arity
            &&& st.module.functions[g].blocks.len() <= module.functions[g].blocks.len()
            &&& forall|c: int|
                #![trigger st.module.functions[g].blocks[c]]
                #![trigger module.functions[g].blocks[c]]
                0 <= c < st.module.functions[g].blocks.len() ==> st.module.functions[g].blocks[c].instrs.len()
                    <= module.functions[g].blocks[c].instrs.len()
        } by {
            assert(module.functions[g] == st.module.functions[g]);
        }
    }
    assert(sound(module, f));
    assert(ready(start)) by {
        assert forall|k: int| 0 <= k < start.functions.len() implies (
        #[trigger] start.functions[k]).1 < start.module.functions.len() by {
            if k < st.functions.len() {
                assert(start.functions[k] == st.functions[k]);
            }
        }
        assert(module.functions[0] == st.module.functions[0]);
    }
    lemma_bind_parameters(start, params, 0);
    let after = start.bind_parameters(params, 0);
    assert(st.open_function(name, params) == after);
    lemma_grows_on(st.module, module, after.module);
    assert forall|g: int| 0 <= g < f implies #[trigger] after.module.functions[g]
        == st.module.functions[g] by {
        assert(after.module.functions[g] == module.functions[g]);
        assert(module.functions[g] == st.module.functions[g]);
    }
    assert(after.module.functions[f].name == module.functions[f].name);
}

/// Whether the definition of a function called `name` with `params` and
/// `body`, compiled in `st`, has the shape that the grammar builds and
/// fits the machine: the body is a block of statements, and the numbers
/// of functions, parameters and blocks are within the range of indices.
/// An entry function takes no parameters.
pub open spec fn is_definition(st: State, name: Name, params: Seq<Name>, body: Expr) -> bool {
    &&& st.module.functions.len() + 1 <= usize::MAX
    &&& params.len() <= usize::MAX
    &&& 1 + blocks_in(body) <= usize::MAX
    &&& is_body(st.open_function(name, params), body)
    &&& name == entry_name() ==> params.len() == 0
}

/// Whether the foreign block `code`, compiled in `st`, fits the machine,
/// and declares no entry function with parameters.
pub open spec fn is_foreign(st: State, code: Seq<char>) -> bool {
    &&& st.module.functions.len() + signatures_of(code).len() <= usize::MAX
    &&& forall|k: int|
        0 <= k < signatures_of(code).len() && (#[trigger] signatures_of(code)[k]).0 == entry_name()
            ==> signatures_of(code)[k].1 == 0
}

/// Whether `items`, from item `i` on and compiled from `st` on, are the
/// items of a program: definitions of functions and foreign blocks.
pub open spec fn is_program(st: State, items: Seq<Expr>, i: int) -> bool
    decreases items.len() - i,
{
    if i < 0 || i >= items.len() {
        true
    } else {
        &&& match items[i] {
            Expr::Function(name, params, body) => is_definition(st, name, params, *body),
            Expr::InlineC(code) => is_foreign(st, code),
            _ => false,
        }
        &&& match generate(st, items[i]) {
            Ok((next, _)) => is_program(next, items, i + 1),
            Err(_) => true,
        }
    }
}

/// The definition of a function leaves the state in order.
proof fn lemma_function(st: State, name: Name, params: Seq<Name>, body: Expr)
    requires
        tidy(st),
        is_definition(st, name, params, body),
    ensures
        generate(st, Expr::Function(name, params, Box::new(body))) matches Ok((after, _)) ==> tidy(
            after,
        ),
{
    let f = st.module.functions.len() as int;
    let opened = st.open_function(name, params);
    lemma_open_function(st, name, params);
    let items = body->Block_0;
    assert(blocks_in(body) == blocks_from(items, 0));
    lemma_statements(opened, items, 0, Value::Const(0));
    if let Ok((inner, _)) = generate(opened, body) {
        let closing = InstrView::Ret { value: Value::Const(0) };
        let done = if inner.terminated() {
            inner
        } else {
            inner.place(closing)
        };
        if !inner.terminated() {
            lemma_terminate(inner, closing);
            lemma_advanced_on(opened, inner, done);
        }
        assert(advanced(opened, done));
        assert(closed(done.module, f, done.block() as int));
        assert forall|c: int| 0 <= c < done.module.functions[f].blocks.len() implies #[trigger] closed(
            done.module,
            f,
            c,
        ) by {
            if c != done.block() {
                assert((c == 0 && done.block() != 0) || (c >= 1 && c != done.block()));
            }
        }
        lemma_sound_and_closed(done.module, f);
        let after = inner.close_function(st);
        assert(after.module == done.module);
        lemma_grows_on(st.module, opened.module, done.module);
        assert forall|g: int| 0 <= g < after.module.functions.len() implies #[trigger] after.module.function_ok(
            g,
        ) by {
            if g < f {
                assert(opened.module.functions[g] == st.module.functions[g]);
                assert(done.module.functions[g] == opened.module.functions[g]);
                assert(st.module.function_ok(g));
                lemma_function_stays_ok(st.module, done.module, g);
            }
        }
        assert forall|g: int|
            0 <= g < after.module.functions.len() && (#[trigger] after.module.functions[g]).name
                == entry_name() implies after.module.functions[g].kind is Plain
            && after.module.functions[g].arity == 0 by {
            if g < f {
                assert(opened.module.functions[g] == st.module.functions[g]);
                assert(done.module.functions[g] == opened.module.functions[g]);
            } else {
                assert(opened.module.functions[g].name == done.module.functions[g].name);
            }
        }
        assert forall|k: int| 0 <= k < after.functions.len() implies (
        #[trigger] after.functions[k]).1 < after.module.functions.len() by {
            assert(after.functions == opened.functions);
            if k < st.functions.len() {
                assert(after.functions[k] == st.functions[k]);
            }
        }
        assert(after.module.functions[0].kind is Output && after.module.functions[0].arity == 1) by {
            assert(st.module.functions[0].kind == done.module.functions[0].kind);
        }
    }
}

/// The declarations of a foreign block leave the state in order.
proof fn lemma_declare_all(st: State, signatures: Seq<(Name, usize)>, i: int)
    requires
        tidy(st),
        0 <= i <= signatures.len(),
        st.module.functions.len() + signatures.len() - i <= usize::MAX,
        forall|k: int|
            0 <= k < signatures.len() && (#[trigger] signatures[k]).0 == entry_name()
                ==> signatures[k].1 == 0,
    ensures
        tidy(st.declare_all(signatures, i)),
    decreases signatures.len() - i,
{
    if i < signatures.len() {
        let name = signatures[i].0;
        let arity = signatures[i].1;
        let f = st.module.functions.len() as int;
        let next = st.declare(name, arity);
        assert(grows(st.module, next.module)) by {
            assert forall|g: int|
                #![trigger st.module.functions[g]]
                #![trigger next.module.functions[g]]
                0 <= g < st.module.functions.len() implies {
                &&& st.module.functions[g].kind == next.module.functions[g].kind
                &&& st.module.functions[g].arity == next.module.functions[g].arity
                &&& st.module.functions[g].blocks.len() <= next.module.functions[g].blocks.len()
                &&& forall|c: int|
                    #![trigger st.module.functions[g].blocks[c]]
                    #![trigger next.module.functions[g].blocks[c]]
                    0 <= c < st.module.functions[g].blocks.len() ==> st.module.functions[g].blocks[c].instrs.len()
                        <= next.module.functions[g].blocks[c].instrs.len()
            } by {
                assert(next.module.functions[g] == st.module.functions[g]);
            }
        }
        assert(tidy(next)) by {
            assert forall|g: int| 0 <= g < next.module.functions.len() implies #[trigger] next.module.function_ok(
                g,
            ) by {
                if g < f {
                    assert(next.module.functions[g] == st.module.functions[g]);
                    assert(st.module.function_ok(g));
                    lemma_function_stays_ok(st.module, next.module, g);
                }
            }
            assert forall|k: int| 0 <= k < next.functions.len() implies (
            #[trigger] next.functions[k]).1 < next.module.functions.len() by {
                if k < st.functions.len() {
                    assert(next.functions[k] == st.functions[k]);
                }
            }
            assert(next.module.functions[0] == st.module.functions[0]);
            assert forall|g: int|
                0 <= g < next.module.functions.len() && (#[trigger] next.module.functions[g]).name
                    == entry_name() implies next.module.functions[g].kind is Plain
                && next.module.functions[g].arity == 0 by {
                if g < f {
                    assert(next.module.functions[g] == st.module.functions[g]);
                }
            }
        }
        lemma_declare_all(next, signatures, i + 1);
    }
}

/// The items of a program leave the state in order.
proof fn lemma_program(st: State, items: Seq<Expr>, i: int, last: Value)
    requires
        tidy(st),
        is_program(st, items, i),
        0 <= i <= items.len(),
    ensures
        generate_block(st, items, i, last) matches Ok((after, _)) ==> tidy(after),
    decreases items.len() - i,
{
    if i < items.len() {
        match items[i] {
            Expr::Function(name, params, body) => {
                lemma_function(st, name, params, *body);
            },
            Expr::InlineC(code) => {
                let recorded = State { foreign: st.foreign.push(crate::foreign::wrapped(code)), ..st };
                lemma_declare_all(recorded, signatures_of(code), 0);
            },
            _ => {},
        }
        if let Ok((next, value)) = generate(st, items[i]) {
            lemma_program(next, items, i + 1, value);
        }
    }
}

/// The first function of a name has that name.
proof fn lemma_first_named(module: ModuleView, name: Name, from: int)
    requires
        0 <= from,
    ensures
        find_function_from(module.functions, name, from) matches Some(first) ==> from <= first
            < module.functions.len() && module.functions[first].name == name,
    decreases module.functions.len() - from,
{
    if from < module.functions.len() && module.functions[from].name != name {
        lemma_first_named(module, name, from + 1);
    }
}

/// The state of a new code generator is in order.
pub(crate) proof fn lemma_initial_tidy(name: Name)
    ensures
        tidy(initial(name)),
{
    lemma_reserved_names();
    assert(initial(name).module.function_ok(0));
}

/// Whether `r` is the failure of the structural rules.
pub open spec fn is_inconsistent<T>(r: Result<T, CompileErrorView>) -> bool {
    r matches Err(e) && e is InconsistentModule
}

/// Compiling a node does not fail the structural rules: these are tested
/// on the whole module in the end.
proof fn lemma_generate_errors(st: State, e: Expr)
    ensures
        !is_inconsistent(generate(st, e)),
    decreases e, 0nat,
{
    match e {
        Expr::Operation(op, left, right) => {
            lemma_generate_errors(st, *left);
            if let Ok((st1, _)) = generate(st, *left) {
                lemma_generate_errors(st1, *right);
            }
        },
        Expr::Assignment(_, value) => lemma_generate_errors(st, *value),
        Expr::Print(_, value) => lemma_generate_errors(st, *value),
        Expr::Block(items) => lemma_block_errors(st, items, 0, Value::Const(0)),
        Expr::Function(name, params, body) => {
            lemma_generate_errors(st.open_function(name, params), *body);
        },
        Expr::FunctionCall(_, args) => lemma_arguments_errors(st, args, 0, Seq::empty()),
        Expr::Return(value) => lemma_generate_errors(st, *value),
        Expr::Conditional { condition, true_block, false_block } => {
            lemma_generate_errors(st, *condition);
            if let Ok((st1, cv)) = generate(st, *condition) {
                if let Ok((sf, fork)) = st1.fork(cv) {
                    lemma_generate_errors(sf, *true_block);
                    if let Ok((after_then, _)) = generate(sf, *true_block) {
                        match false_block {
                            Some(inner) => lemma_generate_errors(
                                after_then.enter_else(sf.variables, fork),
                                *inner,
                            ),
                            None => {},
                        }
                    }
                }
            }
        },
        _ => {},
    }
}

proof fn lemma_block_errors(st: State, items: Seq<Expr>, i: int, last: Value)
    ensures
        !is_inconsistent(generate_block(st, items, i, last)),
    decreases items, items.len() - i,
{
    if 0 <= i < items.len() {
        lemma_generate_errors(st, items[i]);
        if let Ok((st1, value)) = generate(st, items[i]) {
            if !(items[i] is Return) {
                lemma_block_errors(st1, items, i + 1, value);
            }
        }
    }
}

proof fn lemma_arguments_errors(st: State, args: Seq<Expr>, i: int, values: Seq<Value>)
    ensures
        !is_inconsistent(generate_arguments(st, args, i, values)),
    decreases args, args.len() - i,
{
    if 0 <= i < args.len() {
        lemma_generate_errors(st, args[i]);
        if let Ok((st1, value)) = generate(st, args[i]) {
            lemma_arguments_errors(st1, args, i + 1, values.push(value));
        }
    }
}

/// Structural soundness: a program of the shape that the grammar builds
/// never fails the structural rules. Its items are definitions of
/// functions and foreign blocks; the body of a function is a block of
/// statements, a conditional has blocks of statements for branches, a
/// condition, an operand, an argument and what is assigned, printed or
/// returned is an expression, and a call passes as many arguments as the
/// function takes that the call goes to.
pub proof fn law_programs_obey_the_rules(name: Name, items: Seq<Expr>)
    requires
        is_program(initial(name), items, 0),
    ensures
        !is_inconsistent(compile(initial(name), Expr::Block(items))),
{
    let st = initial(name);
    lemma_reserved_names();
    lemma_generate_errors(st, Expr::Block(items));
    assert(tidy(st)) by {
        assert(st.module.function_ok(0));
    }
    lemma_program(st, items, 0, Value::Const(0));
    if let Ok((after, _)) = generate(st, Expr::Block(items)) {
        let module = after.module;
        let f = module.functions.len() as int;
        let declared = module.add_function(process_entry_name(), FunctionKind::ProcessEntry, 0);
        lemma_first_named(declared, entry_name(), 0);
        if let Some(entry) = declared.find_function(entry_name()) {
            assert(entry < f);
            assert(declared.functions[entry] == module.functions[entry]);
            let whole = with_process_entry(module, entry as usize);
            assert(grows(module, whole)) by {
                assert forall|g: int|
                    #![trigger module.functions[g]]
                    #![trigger whole.functions[g]]
                    0 <= g < module.functions.len() implies {
                    &&& module.functions[g].kind == whole.functions[g].kind
                    &&& module.functions[g].arity == whole.functions[g].arity
                    &&& module.functions[g].blocks.len() <= whole.functions[g].blocks.len()
                    &&& forall|c: int|
                        #![trigger module.functions[g].blocks[c]]
                        #![trigger whole.functions[g].blocks[c]]
                        0 <= c < module.functions[g].blocks.len() ==> module.functions[g].blocks[c].instrs.len()
                            <= whole.functions[g].blocks[c].instrs.len()
                } by {
                    assert(whole.functions[g] == module.functions[g]);
                }
            }
            let instrs = whole.functions[f].blocks[0].instrs;
            assert(instrs.len() == 3);
            assert(instrs[0] == InstrView::Call { callee: entry as usize, args: Seq::empty() });
            assert(instrs[1] == InstrView::Trunc { value: Value::Inst(0, 0) });
            assert(instrs[2] == InstrView::Ret { value: Value::Inst(0, 1) });
            assert(whole.functions[entry] == module.functions[entry]);
            assert(whole.position_ok(f, 0, 0));
            assert(whole.position_ok(f, 0, 1));
            assert(whole.position_ok(f, 0, 2));
            assert(whole.block_ok(f, 0));
            assert forall|g: int| 0 <= g < whole.functions.len() implies #[trigger] whole.function_ok(
                g,
            ) by {
                if g < f {
                    assert(whole.functions[g] == module.functions[g]);
                    assert(module.function_ok(g));
                    lemma_function_stays_ok(module, whole, g);
                }
            }
            assert(whole.consistent());
        }
    }
}

} // verus!
