//! The laws of the library, on chosen values.

use seppolang::codegen::CodeGen;
use seppolang::error::CompileError;
use seppolang::types::SeppoExpr;

fn num(n: i64) -> Box<SeppoExpr> {
    Box::new(SeppoExpr::Number(n))
}

fn var(name: &str) -> Box<SeppoExpr> {
    Box::new(SeppoExpr::Variable(name.to_string()))
}

fn block(items: Vec<SeppoExpr>) -> Box<SeppoExpr> {
    Box::new(SeppoExpr::Block(items))
}

fn function(name: &str, body: Vec<SeppoExpr>) -> SeppoExpr {
    SeppoExpr::Function(name.to_string(), Vec::new(), block(body))
}

fn entry(body: Vec<SeppoExpr>) -> SeppoExpr {
    SeppoExpr::Block(vec![function("seppo", body)])
}

/// Compiles the program and runs its entry function; yields what it
/// returns and what it prints.
fn run(program: &SeppoExpr) -> Result<Option<(i64, Vec<(usize, i64)>)>, CompileError> {
    let mut codegen = CodeGen::new("law");
    codegen.compile(program)?;
    let module = codegen.get_module();
    let entry = module.functions.iter().position(|f| f.name == "seppo").unwrap();
    Ok(module.execute(entry, &Vec::new(), 1000))
}

fn value_of(program: &SeppoExpr) -> Option<i64> {
    run(program).unwrap().map(|finished| finished.0)
}

fn operation(op: &str, a: i64, b: i64) -> SeppoExpr {
    entry(vec![SeppoExpr::Return(Box::new(SeppoExpr::Operation(op.to_string(), num(a), num(b))))])
}

const SAMPLES: [i64; 9] = [i64::MIN, i64::MIN + 1, -7, -1, 0, 1, 7, i64::MAX - 1, i64::MAX];

#[test]
fn program_without_entry_function_fails_with_missing_entry_point() {
    let programs = vec![
        SeppoExpr::Block(Vec::new()),
        SeppoExpr::Block(vec![function("not_seppo", vec![SeppoExpr::Return(num(42))])]),
        SeppoExpr::Block(vec![
            function("a", Vec::new()),
            SeppoExpr::InlineC("int b(int x) { return x; }".to_string()),
            function("main", Vec::new()),
            function("printf", Vec::new()),
        ]),
        SeppoExpr::Number(1),
    ];
    for program in programs {
        assert_eq!(run(&program), Err(CompileError::MissingEntryPoint));
    }
}

#[test]
fn entry_function_may_be_declared_by_a_foreign_block() {
    let program = SeppoExpr::Block(vec![SeppoExpr::InlineC("long seppo() { return 1; }".to_string())]);
    assert_eq!(run(&program), Ok(None));
}

#[test]
fn arithmetic_gives_the_64_bit_result() {
    for a in SAMPLES {
        for b in SAMPLES {
            assert_eq!(value_of(&operation("+", a, b)), Some(a.wrapping_add(b)));
            assert_eq!(value_of(&operation("-", a, b)), Some(a.wrapping_sub(b)));
            assert_eq!(value_of(&operation("*", a, b)), Some(a.wrapping_mul(b)));
            if b != 0 {
                assert_eq!(value_of(&operation("/", a, b)), Some(a.wrapping_div(b)));
            } else {
                assert_eq!(value_of(&operation("/", a, b)), None);
            }
        }
    }
}

#[test]
fn arithmetic_on_small_numbers() {
    assert_eq!(value_of(&operation("+", 40, 2)), Some(42));
    assert_eq!(value_of(&operation("-", 40, 2)), Some(38));
    assert_eq!(value_of(&operation("*", 40, 2)), Some(80));
    assert_eq!(value_of(&operation("/", 40, 2)), Some(20));
    assert_eq!(value_of(&operation("/", -7, 2)), Some(-3));
    assert_eq!(value_of(&operation("/", 7, -2)), Some(-3));
}

#[test]
fn comparison_gives_one_or_zero() {
    for a in SAMPLES {
        for b in SAMPLES {
            assert_eq!(value_of(&operation(">", a, b)), Some((a > b) as i64));
            assert_eq!(value_of(&operation("<", a, b)), Some((a < b) as i64));
            assert_eq!(value_of(&operation(">=", a, b)), Some((a >= b) as i64));
            assert_eq!(value_of(&operation("<=", a, b)), Some((a <= b) as i64));
            assert_eq!(value_of(&operation("==", a, b)), Some((a == b) as i64));
            assert_eq!(value_of(&operation("!=", a, b)), Some((a != b) as i64));
        }
    }
}

fn assigned_in_one_branch(before: i64, inside: i64, c: i64, in_true_branch: bool) -> SeppoExpr {
    let assignment = vec![SeppoExpr::Assignment("x".to_string(), num(inside))];
    let conditional = if in_true_branch {
        SeppoExpr::Conditional { condition: num(c), true_block: block(assignment), false_block: None }
    } else {
        SeppoExpr::Conditional {
            condition: num(c),
            true_block: block(Vec::new()),
            false_block: Some(block(assignment)),
        }
    };
    entry(vec![
        SeppoExpr::Assignment("x".to_string(), num(before)),
        conditional,
        SeppoExpr::Return(var("x")),
    ])
}

#[test]
fn assignment_in_one_branch_shows_on_the_taken_path_only() {
    for before in [i64::MIN, -1, 0, 42] {
        for inside in [i64::MAX, 0, 7] {
            for c in SAMPLES {
                let taken = c != 0;
                assert_eq!(
                    value_of(&assigned_in_one_branch(before, inside, c, true)),
                    Some(if taken { inside } else { before })
                );
                assert_eq!(
                    value_of(&assigned_in_one_branch(before, inside, c, false)),
                    Some(if taken { before } else { inside })
                );
            }
        }
    }
}

#[test]
fn laws_programs_print_nothing() {
    assert_eq!(run(&operation("+", 1, 2)), Ok(Some((3, Vec::new()))));
    assert_eq!(run(&assigned_in_one_branch(1, 2, 3, true)), Ok(Some((2, Vec::new()))));
}

#[test]
fn same_source_same_outcome() {
    let programs = vec![
        operation("/", 1, 0),
        operation("%", 1, 0),
        assigned_in_one_branch(1, 2, 0, false),
        SeppoExpr::Block(vec![function("other", Vec::new())]),
        entry(vec![SeppoExpr::Return(var("undeclared_name"))]),
    ];
    for program in programs {
        let mut first = CodeGen::new("law");
        let mut second = CodeGen::new("law");
        let one = first.compile(&program);
        let two = second.compile(&program.clone());
        assert_eq!(one, two);
        if one.is_ok() {
            assert_eq!(first.get_module(), second.get_module());
            assert_eq!(run(&program), run(&program));
        }
    }
}
