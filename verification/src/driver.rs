//! What the driver hands to the external compiler and linker, and what
//! their outcome means.

use crate::error::CompileError;
use crate::error::CompileErrorView;
use vstd::prelude::*;

verus! {

/// The models of a list of texts, in order.
pub open spec fn texts(list: Seq<String>) -> Seq<Seq<char>> {
    list.map_values(|s: String| s@)
}

/// The arguments with which the external compiler turns the file
/// `source` into the position-independent object file `object`.
pub open spec fn compiler_command(source: Seq<char>, object: Seq<char>) -> Seq<Seq<char>> {
    seq!["-c"@, "-fPIC"@, "-o"@, object, source]
}

/// The arguments with which the external linker makes the executable
/// `output` of the object file `primary` and the object files `foreign`,
/// in this order.
pub open spec fn linker_command(primary: Seq<char>, foreign: Seq<Seq<char>>, output: Seq<char>)
    -> Seq<Seq<char>> {
    seq!["-v"@, "-o"@, output, primary] + foreign
}

/// Builds the arguments for the external compiler.
pub fn compiler_arguments(source: &str, object: &str) -> (args: Vec<String>)
    ensures
        texts(args@) == compiler_command(source@, object@),
{
    let mut args: Vec<String> = Vec::new();
    args.push(String::from_str("-c"));
    args.push(String::from_str("-fPIC"));
    args.push(String::from_str("-o"));
    args.push(String::from_str(object));
    args.push(String::from_str(source));
    assert(texts(args@) =~= compiler_command(source@, object@));
    args
}

/// Builds the arguments for the external linker.
pub fn linker_arguments(primary: &str, foreign: &Vec<String>, output: &str) -> (args: Vec<String>)
    ensures
        texts(args@) == linker_command(primary@, texts(foreign@), output@),
{
    let mut args: Vec<String> = Vec::new();
    args.push(String::from_str("-v"));
    args.push(String::from_str("-o"));
    args.push(String::from_str(output));
    args.push(String::from_str(primary));
    let ghost head = seq!["-v"@, "-o"@, output@, primary@];
    assert(texts(args@) =~= head);
    let mut i: usize = 0;
    while i < foreign.len()
        invariant
            i <= foreign.len(),
            head.len() == 4,
            texts(args@) =~= head + texts(foreign@).take(i as int),
        decreases foreign.len() - i,
    {
        let ghost before = texts(args@);
        let path = foreign[i].clone();
        args.push(path);
        proof {
            assert(texts(args@) =~= before.push(path@));
            assert(texts(foreign@).take(i + 1) =~= texts(foreign@).take(i as int).push(path@));
        }
        i += 1;
    }
    assert(texts(foreign@).take(foreign@.len() as int) =~= texts(foreign@));
    args
}

/// What the outcome of the external compiler means: a failure carries the
/// compiler's diagnostics unchanged.
pub fn check_compiler_exit(success: bool, diagnostics: String) -> (r: Result<(), CompileError>)
    ensures
        success ==> r is Ok,
        !success ==> r is Err && r->Err_0@ == CompileErrorView::ForeignCompilation(diagnostics@),
{
    if success {
        Ok(())
    } else {
        Err(CompileError::ForeignCompilation(diagnostics))
    }
}

/// What the outcome of the external linker means: a failure carries the
/// linker's diagnostics unchanged.
pub fn check_linker_exit(success: bool, diagnostics: String) -> (r: Result<(), CompileError>)
    ensures
        success ==> r is Ok,
        !success ==> r is Err && r->Err_0@ == CompileErrorView::Link(diagnostics@),
{
    if success {
        Ok(())
    } else {
        Err(CompileError::Link(diagnostics))
    }
}

} // verus!
