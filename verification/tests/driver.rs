//! What the driver hands to the external tools, and the diagnostics.

use seppolang::driver::check_compiler_exit;
use seppolang::driver::check_linker_exit;
use seppolang::driver::compiler_arguments;
use seppolang::driver::linker_arguments;
use seppolang::error::CompileError;

#[test]
fn foreign_block_is_compiled_position_independent() {
    assert_eq!(
        compiler_arguments("/tmp/x/inline.c", "/tmp/x/inline.o"),
        vec!["-c", "-fPIC", "-o", "/tmp/x/inline.o", "/tmp/x/inline.c"]
    );
}

#[test]
fn linker_gets_the_primary_object_then_the_foreign_ones() {
    let foreign = vec!["/tmp/a/inline.o".to_string(), "/tmp/b/inline.o".to_string()];
    assert_eq!(
        linker_arguments("out.o", &foreign, "out"),
        vec!["-v", "-o", "out", "out.o", "/tmp/a/inline.o", "/tmp/b/inline.o"]
    );
    assert_eq!(linker_arguments("out.o", &Vec::new(), "out"), vec!["-v", "-o", "out", "out.o"]);
}

#[test]
fn failed_tools_report_their_diagnostics_unchanged() {
    assert_eq!(check_compiler_exit(true, "ignored".to_string()), Ok(()));
    assert_eq!(
        check_compiler_exit(false, "inline.c:1: error: x\n".to_string()),
        Err(CompileError::ForeignCompilation("inline.c:1: error: x\n".to_string()))
    );
    assert_eq!(check_linker_exit(true, String::new()), Ok(()));
    assert_eq!(
        check_linker_exit(false, "undefined reference to `f'".to_string()),
        Err(CompileError::Link("undefined reference to `f'".to_string()))
    );
}

#[test]
fn every_error_has_its_message() {
    let cases = [
        (CompileError::UndefinedVariable("x".to_string()), "Undefined variable: x"),
        (CompileError::UndefinedFunction("f".to_string()), "Undefined function: f"),
        (CompileError::UnknownOperator("%".to_string()), "Unknown operator: %"),
        (CompileError::ConditionalOutsideFunction, "Conditional block outside of function"),
        (CompileError::ReturnOutsideFunction, "Return statement outside of function"),
        (CompileError::CodeOutsideFunction, "Code outside of function"),
        (CompileError::MissingEntryPoint, "No seppo function found"),
        (CompileError::MalformedForeignBlock, "Expected C code in ceppo block"),
        (CompileError::MalformedTree("Expected condition".to_string()), "Expected condition"),
        (CompileError::InconsistentModule, "Module verification failed"),
        (CompileError::ForeignCompilation("boom".to_string()), "Failed to compile C code: boom"),
        (CompileError::Link("bang".to_string()), "Linking failed: bang"),
    ];
    for (error, message) in cases {
        assert_eq!(error.message(), message);
    }
}
