//! Foreign blocks: the functions found in them and the text handed to
//! the external compiler.

use seppolang::codegen::CodeGen;
use seppolang::error::CompileError;
use seppolang::foreign::scan_signatures;
use seppolang::foreign::trimmed;
use seppolang::foreign::wrap_source;
use seppolang::foreign::ForeignSignature;
use seppolang::ir::FunctionKind;
use seppolang::ir::Instr;
use seppolang::ir::Value;
use seppolang::types::SeppoExpr;

fn found(code: &str) -> Vec<(String, usize)> {
    scan_signatures(code).into_iter().map(|s| (s.name, s.arity)).collect()
}

fn sig(name: &str, arity: usize) -> (String, usize) {
    (name.to_string(), arity)
}

#[test]
fn function_with_two_parameters() {
    assert_eq!(found("int add(int a, int b) { return a + b; }"), vec![sig("add", 2)]);
}

#[test]
fn function_without_parameters() {
    assert_eq!(found("long my_rand() {\n return 42;\n }"), vec![sig("my_rand", 0)]);
}

#[test]
fn blank_parameter_list_counts_as_none() {
    assert_eq!(found("int meaning_of_life(   )     { return     42; }"), vec![sig("meaning_of_life", 0)]);
}

#[test]
fn signature_is_a_name_and_an_arity() {
    let list = scan_signatures("int one(int a) { return a; }");
    assert_eq!(list, vec![ForeignSignature { name: "one".to_string(), arity: 1 }]);
}

#[test]
fn parenthesis_without_white_space_before_it_is_skipped() {
    assert_eq!(found("f(a, b)"), Vec::new());
    // the white space around the block does not count: it is trimmed first
    assert_eq!(found("   f(a, b)   "), Vec::new());
}

#[test]
fn parenthesis_without_a_closing_one_is_skipped() {
    assert_eq!(found("int f(a, b"), Vec::new());
}

#[test]
fn name_starts_after_the_last_white_space() {
    assert_eq!(found("void* alloc(size_t size) { }"), vec![sig("alloc", 1)]);
    assert_eq!(found("unsigned long\tbig(void)"), vec![sig("big", 1)]);
}

#[test]
fn heuristic_reports_conditions_and_calls_too() {
    let code = "int factorial(int n) {\n if (n <= 1) return 1;\n return n * factorial(n - 1);\n }";
    assert_eq!(found(code), vec![sig("factorial", 1), sig("", 1), sig("factorial", 1)]);
}

#[test]
fn parameters_end_at_the_first_closing_parenthesis() {
    assert_eq!(
        found("int f(int (*g)(int, int), int h)"),
        vec![sig("f", 1), sig("", 1), sig("(*g)", 2)]
    );
}

#[test]
fn several_functions_in_source_order() {
    let code = "int get_int() {\n return 42;\n }\n\n double calc(float x, int y) {\n return x + y;\n }";
    assert_eq!(found(code), vec![sig("get_int", 0), sig("calc", 2)]);
}

#[test]
fn only_commas_between_the_parentheses_count() {
    assert_eq!(found("int f(,) , g"), vec![sig("f", 2)]);
}

#[test]
fn exotic_white_space_separates_names() {
    assert_eq!(found("int\u{a0}f(\u{2003})"), vec![sig("f", 0)]);
}

#[test]
fn trimming_removes_white_space_at_both_ends_only() {
    assert_eq!(trimmed("  a b \n"), "a b");
    assert_eq!(trimmed("\t\n "), "");
    assert_eq!(trimmed(""), "");
    assert_eq!(trimmed("x"), "x");
}

#[test]
fn wrapped_source_has_the_preamble_and_a_final_line_end() {
    let expected = "#include <stdint.h>\n#include <stdio.h>\n#include <stdlib.h>\n#include <stddef.h>\n#include <limits.h>\nint f() { return 1; }\n";
    assert_eq!(wrap_source("\n   int f() { return 1; }  \n"), expected);
}

#[test]
fn foreign_block_declares_what_it_finds() {
    let mut codegen = CodeGen::new("unit");
    let block = SeppoExpr::InlineC("int add(int a, int b) { return a + b; }".to_string());
    assert_eq!(codegen.gen_expr(&block), Ok(Value::Const(0)));
    let module = codegen.get_module();
    assert_eq!(module.functions.len(), 2);
    assert_eq!(module.functions[1].name, "add");
    assert_eq!(module.functions[1].kind, FunctionKind::Plain);
    assert_eq!(module.functions[1].arity, 2);
    assert!(module.functions[1].blocks.is_empty());
    assert_eq!(
        codegen.foreign_sources(),
        &vec![wrap_source("int add(int a, int b) { return a + b; }")]
    );
}

#[test]
fn foreign_function_can_be_called_after_its_block() {
    // ceppo { int add(int a, int b) { return a + b; } }  fn seppo() { return add(40, 2) }
    let mut codegen = CodeGen::new("unit");
    let call = SeppoExpr::FunctionCall(
        "add".to_string(),
        vec![SeppoExpr::Number(40), SeppoExpr::Number(2)],
    );
    let program = SeppoExpr::Block(vec![
        SeppoExpr::InlineC("int add(int a, int b) { return a + b; }".to_string()),
        SeppoExpr::Function(
            "seppo".to_string(),
            Vec::new(),
            Box::new(SeppoExpr::Block(vec![SeppoExpr::Return(Box::new(call))])),
        ),
    ]);
    assert_eq!(codegen.compile(&program), Ok(()));
    let module = codegen.get_module();
    assert_eq!(
        module.functions[2].blocks[0].instrs,
        vec![
            Instr::Call { callee: 1, args: vec![Value::Const(40), Value::Const(2)] },
            Instr::Ret { value: Value::Inst(0, 0) },
        ]
    );
    // what the foreign function computes lies outside the execution model
    assert_eq!(module.execute(2, &Vec::new(), 100).map(|finished| finished.0), None);
}

#[test]
fn foreign_function_cannot_be_called_before_its_block() {
    let mut codegen = CodeGen::new("unit");
    let call = SeppoExpr::FunctionCall("my_rand".to_string(), Vec::new());
    let program = SeppoExpr::Block(vec![
        SeppoExpr::Function(
            "seppo".to_string(),
            Vec::new(),
            Box::new(SeppoExpr::Block(vec![SeppoExpr::Return(Box::new(call))])),
        ),
        SeppoExpr::InlineC("long my_rand() { return 42; }".to_string()),
    ]);
    assert_eq!(
        codegen.compile(&program),
        Err(CompileError::UndefinedFunction("my_rand".to_string()))
    );
}

#[test]
fn later_mention_of_a_name_does_not_redirect_calls() {
    let mut codegen = CodeGen::new("unit");
    let code = "int factorial(int n) {\n if (n <= 1) return 1;\n return n * factorial(n - 1);\n }";
    let call = SeppoExpr::FunctionCall("factorial".to_string(), vec![SeppoExpr::Number(5)]);
    let program = SeppoExpr::Block(vec![
        SeppoExpr::InlineC(code.to_string()),
        SeppoExpr::Function(
            "seppo".to_string(),
            Vec::new(),
            Box::new(SeppoExpr::Block(vec![SeppoExpr::Return(Box::new(call))])),
        ),
    ]);
    assert_eq!(codegen.compile(&program), Ok(()));
    let module = codegen.get_module();
    let names: Vec<&str> = module.functions.iter().map(|f| f.name.as_str()).collect();
    assert_eq!(names, vec!["printf", "factorial", "", "factorial", "seppo", "main"]);
    assert_eq!(
        module.functions[4].blocks[0].instrs[0],
        Instr::Call { callee: 1, args: vec![Value::Const(5)] }
    );
}

#[test]
fn object_files_are_kept_in_the_order_reported() {
    let mut codegen = CodeGen::new("unit");
    codegen.add_c_object_file("/tmp/a/inline.o".to_string());
    codegen.add_c_object_file("/tmp/b/inline.o".to_string());
    assert_eq!(
        codegen.c_object_files(),
        &vec!["/tmp/a/inline.o".to_string(), "/tmp/b/inline.o".to_string()]
    );
}
