//! Compiling the same program again.

use crate::error::CompileError;
use crate::laws::entry_result;
use crate::model::State;
use crate::model::compiles;
use crate::types::Expr;
use vstd::prelude::*;

verus! {

/// Idempotence: two compilations of one program from one state end the
/// same way. Both fail with the same error, or both succeed with the same
/// module, whose entry function then returns the same.
pub proof fn law_same_source_same_outcome(
    before: State,
    e: Expr,
    first: Result<(), CompileError>,
    after_first: State,
    second: Result<(), CompileError>,
    after_second: State,
)
    requires
        compiles(before, e, first, after_first),
        compiles(before, e, second, after_second),
    ensures
        first is Ok <==> second is Ok,
        first is Err ==> first->Err_0@ == second->Err_0@,
        first is Ok ==> after_first == after_second,
        first is Ok ==> forall|fuel: nat|
            entry_result(after_first.module, fuel) == entry_result(after_second.module, fuel),
{
}

} // verus!
