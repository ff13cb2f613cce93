//! Scoping: what compiling a node does to the bindings of names.

use crate::foreign::signatures_of;
use crate::foreign::wrapped;
use crate::ir::InstrView;
use crate::ir::Value;
use crate::model::State;
use crate::model::changed_names;
use crate::model::generate;
use crate::model::generate_arguments;
use crate::model::generate_block;
use crate::scope::Name;
use crate::scope::lookup;
use crate::types::Expr;
use vstd::prelude::*;

verus! {

/// Every name that `before` binds, `after` binds to the same slot.
pub open spec fn keeps_bindings(before: Seq<(Name, Value)>, after: Seq<(Name, Value)>) -> bool {
    forall|name: Name|
        lookup(before, name) is Some ==> #[trigger] lookup(after, name) == lookup(before, name)
}

/// A new binding of a name that was not bound leaves the other bindings
/// as they were.
proof fn lemma_push_keeps(scope: Seq<(Name, Value)>, name: Name, slot: Value)
    requires
        lookup(scope, name) is None,
    ensures
        keeps_bindings(scope, scope.push((name, slot))),
{
    let longer = scope.push((name, slot));
    assert(longer.drop_last() =~= scope);
    assert forall|other: Name| lookup(scope, other) is Some implies #[trigger] lookup(
        longer,
        other,
    ) == lookup(scope, other) by {
        assert(other != name);
    }
}

/// Compiling a node keeps every binding: a name that is bound to a slot
/// before the node is bound to that slot after it. Assignments write the
/// slot that a name has, wherever in the function they stand, and only a
/// name that is not bound gets a new slot.
pub proof fn law_bindings_are_kept(st: State, e: Expr)
    ensures
        generate(st, e) matches Ok((after, _)) ==> keeps_bindings(st.variables, after.variables),
    decreases e, 0nat,
{
    match e {
        Expr::Number(_) => {},
        Expr::String(_) => {},
        Expr::Variable(_) => {},
        Expr::Operation(op, left, right) => {
            law_bindings_are_kept(st, *left);
            if let Ok((st1, _)) = generate(st, *left) {
                law_bindings_are_kept(st1, *right);
            }
        },
        Expr::Assignment(name, value) => {
            law_bindings_are_kept(st, *value);
            if let Ok((st1, v)) = generate(st, *value) {
                if lookup(st1.variables, name) is None {
                    if let Ok((st2, slot)) = st1.emit(InstrView::Alloca) {
                        lemma_push_keeps(st1.variables, name, slot);
                    }
                }
            }
        },
        Expr::Print(_, value) => {
            law_bindings_are_kept(st, *value);
        },
        Expr::Block(items) => {
            lemma_block_keeps_bindings(st, items, 0, Value::Const(0));
        },
        Expr::Function(_, _, _) => {},
        Expr::FunctionCall(_, args) => {
            lemma_arguments_keep_bindings(st, args, 0, Seq::empty());
        },
        Expr::Return(value) => {
            law_bindings_are_kept(st, *value);
        },
        Expr::InlineC(code) => {
            lemma_declarations_keep_scope(
                State { foreign: st.foreign.push(wrapped(code)), ..st },
                signatures_of(code),
                0,
            );
        },
        Expr::Conditional { condition, true_block, false_block } => {
            law_bindings_are_kept(st, *condition);
        },
    }
}

proof fn lemma_declarations_keep_scope(st: State, signatures: Seq<(Name, usize)>, i: int)
    ensures
        st.declare_all(signatures, i).variables == st.variables,
    decreases signatures.len() - i,
{
    if 0 <= i < signatures.len() {
        lemma_declarations_keep_scope(st.declare(signatures[i].0, signatures[i].1), signatures, i + 1);
    }
}

proof fn lemma_block_keeps_bindings(st: State, items: Seq<Expr>, i: int, last: Value)
    ensures
        generate_block(st, items, i, last) matches Ok((after, _)) ==> keeps_bindings(
            st.variables,
            after.variables,
        ),
    decreases items, items.len() - i,
{
    if 0 <= i < items.len() {
        law_bindings_are_kept(st, items[i]);
        if let Ok((st1, value)) = generate(st, items[i]) {
            if !(items[i] is Return) {
                lemma_block_keeps_bindings(st1, items, i + 1, value);
            }
        }
    }
}

proof fn lemma_arguments_keep_bindings(st: State, args: Seq<Expr>, i: int, values: Seq<Value>)
    ensures
        generate_arguments(st, args, i, values) matches Ok((after, _)) ==> keeps_bindings(
            st.variables,
            after.variables,
        ),
    decreases args, args.len() - i,
{
    if 0 <= i < args.len() {
        law_bindings_are_kept(st, args[i]);
        if let Ok((st1, value)) = generate(st, args[i]) {
            lemma_arguments_keep_bindings(st1, args, i + 1, values.push(value));
        }
    }
}

/// Whether none of `names` is bound in `scope`.
pub open spec fn all_unbound(names: Seq<Name>, scope: Seq<(Name, Value)>) -> bool {
    forall|k: int| 0 <= k < names.len() ==> lookup(scope, #[trigger] names[k]) is None
}

/// The names that a join merges are new: where a branch keeps the
/// bindings of `base`, a name whose binding after the branch differs from
/// its binding in `base` is one that `base` does not bind. Such a name is
/// first bound inside the branch, and it is unbound again after the
/// conditional.
pub proof fn law_merged_names_are_new(
    branch: Seq<(Name, Value)>,
    base: Seq<(Name, Value)>,
    seen: Seq<Name>,
    i: int,
)
    requires
        keeps_bindings(base, branch),
        all_unbound(seen, base),
    ensures
        all_unbound(changed_names(branch, base, seen, i), base),
    decreases branch.len() - i,
{
    if 0 <= i < branch.len() {
        let name = branch[i].0;
        if lookup(branch, name) != lookup(base, name) && !seen.contains(name) {
            let longer = seen.push(name);
            assert(lookup(base, name) is None);
            assert forall|k: int| 0 <= k < longer.len() implies lookup(
                base,
                #[trigger] longer[k],
            ) is None by {
                if k < seen.len() {
                    assert(longer[k] == seen[k]);
                }
            }
            law_merged_names_are_new(branch, base, longer, i + 1);
        } else {
            law_merged_names_are_new(branch, base, seen, i + 1);
        }
    }
}

} // verus!
