//! Whole programs: from the source text to the exit code of the process.

use seppolang::codegen::CodeGen;
use seppolang::parse_seppo;

/// Parses the source, compiles it, and runs the process entry of the
/// module; yields the exit code and the lines printed, each as its template
/// and its value.
fn compile_and_print(input: &str) -> Result<(i64, Vec<(String, i64)>), String> {
    let expr = parse_seppo(input).map_err(|e| e.message())?;
    let mut codegen = CodeGen::new("test");
    codegen.compile(&expr).map_err(|e| e.message())?;
    let module = codegen.get_module();
    let main = module.functions.len() - 1;
    assert_eq!(module.functions[main].name, "main");
    let (code, output) = module
        .execute(main, &Vec::new(), 10_000)
        .ok_or_else(|| "the process entry gave no result".to_string())?;
    let lines = output.into_iter().map(|(t, v)| (module.globals[t].clone(), v)).collect();
    Ok((code, lines))
}

/// Parses the source, compiles it, and runs the process entry of the
/// module; yields the exit code.
fn compile_and_run(input: &str) -> Result<i64, String> {
    compile_and_print(input).map(|(code, _)| code)
}

#[test]
fn test_seppo_return() {
    let input = r#"
        fn seppo() {
            return 42
        }
    "#;
    assert_eq!(compile_and_run(input), Ok(42));
}

#[test]
fn test_seppo_implicit_return() {
    let input = r#"
        fn seppo() {
            x = 42
        }
    "#;
    assert_eq!(compile_and_run(input), Ok(0));
}

#[test]
fn test_variable_assignment() {
    let input = r#"
        fn seppo() {
            x = 42
            return x
        }
    "#;
    assert_eq!(compile_and_run(input), Ok(42));
}

#[test]
fn test_print_statement() {
    let input = r#"
        fn seppo() {
            x = 42
            seppo x
            return 0
        }
    "#;
    assert_eq!(compile_and_run(input), Ok(0));
}

#[test]
fn print_statements_print_in_order() {
    let input = r#"
        fn seppo() {
            x = 42
            seppo x
            0xseppo x + 213
            seppo 7
            return x
        }
    "#;
    assert_eq!(
        compile_and_print(input),
        Ok((
            42,
            vec![
                ("%ld\n".to_string(), 42),
                ("0x%lx\n".to_string(), 255),
                ("%ld\n".to_string(), 7),
            ]
        ))
    );
}

#[test]
fn test_arithmetic() {
    let input = r#"
        fn seppo() {
            x = 40
            y = 2
            return x + y
        }
    "#;
    assert_eq!(compile_and_run(input), Ok(42));
}

#[test]
fn test_multiple_statements() {
    let input = r#"
        fn seppo() {
            x = 40
            y = 2
            z = x + y
            seppo z
            return z
        }
    "#;
    assert_eq!(compile_and_run(input), Ok(42));
}

#[test]
#[should_panic(expected = "No seppo function found")]
fn test_missing_seppo() {
    let input = r#"
        fn not_seppo() {
            return 42
        }
    "#;
    compile_and_run(input).unwrap();
}

#[test]
#[should_panic(expected = "Undefined variable")]
fn test_undefined_variable() {
    let input = r#"
        fn seppo() {
            return x
        }
    "#;
    compile_and_run(input).unwrap();
}

#[test]
fn test_conditional_format() {
    let input = r#"
        fn seppo() {
            x = 42
            seppo x > 40 {
                x = 1
            }
            perkele {
                x = 0
            }
            return x
        }
    "#;
    assert_eq!(compile_and_run(input), Ok(1));
}

#[test]
fn test_conditional_less_than() {
    let input = r#"
        fn seppo() {
            x = 30
            seppo x < 40 {
                x = 1
            }
            perkele {
                x = 0
            }
            return x
        }
    "#;
    assert_eq!(compile_and_run(input), Ok(1));
}

#[test]
fn test_conditional_equals() {
    let input = r#"
        fn seppo() {
            x = 42
            seppo x == 42 {
                x = 1
            }
            perkele {
                x = 0
            }
            return x
        }
    "#;
    assert_eq!(compile_and_run(input), Ok(1));
}

#[test]
fn conditional_takes_the_other_branch_when_the_condition_fails() {
    let input = r#"
        fn seppo() {
            x = 42
            seppo x != 42 {
                x = 1
            }
            perkele {
                x = 7
            }
            return x
        }
    "#;
    assert_eq!(compile_and_run(input), Ok(7));
}

#[test]
fn variable_keeps_its_value_where_the_branch_is_not_taken() {
    let input = r#"
        fn seppo() {
            x = 42
            seppo x < 40 {
                x = 1
            }
            return x
        }
    "#;
    assert_eq!(compile_and_run(input), Ok(42));
}

#[test]
fn entry_function_can_call_what_stands_before_it() {
    let input = r#"
        fn forty() { return 40 }
        fn seppo() {
            x = forty()
            return x + 2
        }
    "#;
    assert_eq!(compile_and_run(input), Ok(42));
}

#[test]
fn function_cannot_be_called_before_its_definition() {
    let input = r#"
        fn seppo() { return forty() }
        fn forty() { return 40 }
    "#;
    assert_eq!(compile_and_run(input), Err("Undefined function: forty".to_string()));
}

#[test]
fn exit_code_is_the_low_32_bits_of_what_the_entry_function_returns() {
    // 2^32 + 42
    let input = "fn seppo() { return 4294967338 }";
    assert_eq!(compile_and_run(input), Ok(42));
}

#[test]
fn recursion_terminates_through_a_return_in_a_branch() {
    let input = r#"
        fn down() {
            seppo 1 > 0 { return 5 }
            return down()
        }
        fn seppo() { return down() }
    "#;
    assert_eq!(compile_and_run(input), Ok(5));
}

#[test]
fn arithmetic_runs_to_the_native_result() {
    assert_eq!(compile_and_run("fn seppo() { return 40 + 2 }"), Ok(42));
    assert_eq!(compile_and_run("fn seppo() { return 40 - 82 }"), Ok(-42));
    assert_eq!(compile_and_run("fn seppo() { return 6 * 7 }"), Ok(42));
    assert_eq!(compile_and_run("fn seppo() { return 85 / 2 }"), Ok(42));
    assert_eq!(compile_and_run("fn seppo() { return -85 / 2 }"), Ok(-42));
    assert_eq!(compile_and_run("fn seppo() { return 85 / -2 }"), Ok(-42));
}

#[test]
fn program_that_divides_by_zero_has_no_exit_code() {
    assert_eq!(
        compile_and_run("fn seppo() { return 1 / 0 }"),
        Err("the process entry gave no result".to_string())
    );
}

#[test]
fn comparisons_run_to_one_or_zero() {
    for (op, below, same, above) in [
        (">", 0, 0, 1),
        ("<", 1, 0, 0),
        (">=", 0, 1, 1),
        ("<=", 1, 1, 0),
        ("==", 0, 1, 0),
        ("!=", 1, 0, 1),
    ] {
        let run = |a: i64| compile_and_run(&format!("fn seppo() {{ return {} {} 5 }}", a, op));
        assert_eq!(run(4), Ok(below), "4 {} 5", op);
        assert_eq!(run(5), Ok(same), "5 {} 5", op);
        assert_eq!(run(6), Ok(above), "6 {} 5", op);
    }
}

#[test]
fn text_that_is_no_program_is_rejected_with_the_position() {
    assert_eq!(
        compile_and_run("fn seppo() { return 42 } what"),
        Err("Syntax error at character 25".to_string())
    );
    assert_eq!(
        compile_and_run("  fn seppo() { 1 + }"),
        Err("Syntax error at character 2".to_string())
    );
}
