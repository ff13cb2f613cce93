//! The grammar: which texts are programs, and the parse trees of those
//! that are.

use seppolang::codegen::CodeGen;
use seppolang::error::CompileError;
use seppolang::grammar::Source;
use seppolang::ir::FunctionKind;
use seppolang::parse_seppo;
use seppolang::parser::Pair;
use seppolang::parser::Rule;
use seppolang::types::PrintFormat;
use seppolang::types::SeppoExpr;

fn node(rule: Rule, text: &str, children: Vec<Pair>) -> Pair {
    Pair { rule, text: text.to_string(), children }
}

fn token(rule: Rule, text: &str) -> Pair {
    node(rule, text, Vec::new())
}

fn num(n: i64) -> Box<SeppoExpr> {
    Box::new(SeppoExpr::Number(n))
}

fn var(name: &str) -> Box<SeppoExpr> {
    Box::new(SeppoExpr::Variable(name.to_string()))
}

fn op(left: Box<SeppoExpr>, sign: &str, right: Box<SeppoExpr>) -> SeppoExpr {
    SeppoExpr::Operation(sign.to_string(), left, right)
}

/// The statements of the entry function of the program `body` stands in.
fn statements(body: &str) -> Vec<SeppoExpr> {
    let text = format!("fn seppo() {{ {} }}", body);
    match parse_seppo(&text) {
        Ok(SeppoExpr::Block(mut items)) => match items.pop() {
            Some(SeppoExpr::Function(_, _, body)) => match *body {
                SeppoExpr::Block(statements) => statements,
                other => panic!("no block: {:?}", other),
            },
            other => panic!("no function: {:?}", other),
        },
        other => panic!("no program: {:?}", other),
    }
}

#[test]
fn parse_tree_of_a_function() {
    let text = " fn seppo() { return 42 }\n";
    let expected = node(
        Rule::Program,
        text,
        vec![
            node(
                Rule::Function,
                "fn seppo() { return 42 }",
                vec![
                    token(Rule::Identifier, "seppo"),
                    node(
                        Rule::Block,
                        "{ return 42 }",
                        vec![node(
                            Rule::Statement,
                            "return 42",
                            vec![node(
                                Rule::ReturnStmt,
                                "return 42",
                                vec![node(Rule::Expression, "42", vec![token(Rule::Number, "42")])],
                            )],
                        )],
                    ),
                ],
            ),
            token(Rule::Other, ""),
        ],
    );
    assert_eq!(Source::new(text).program(), Ok(expected));
}

#[test]
fn parse_tree_of_an_operation() {
    let source = Source::new("x  +\t-2");
    let expected = node(
        Rule::Expression,
        "x  +\t-2",
        vec![node(
            Rule::Operation,
            "x  +\t-2",
            vec![token(Rule::Variable, "x"), token(Rule::Other, "+"), token(Rule::Number, "-2")],
        )],
    );
    assert_eq!(source.expression(0), Some((expected, 7)));
}

#[test]
fn parse_tree_of_a_call() {
    let source = Source::new("f ( 1 , \"a,b\" ) rest");
    let expected = node(
        Rule::FunctionCall,
        "f ( 1 , \"a,b\" )",
        vec![
            token(Rule::Identifier, "f"),
            node(
                Rule::Other,
                "1 , \"a,b\"",
                vec![
                    node(Rule::Expression, "1", vec![token(Rule::Number, "1")]),
                    node(Rule::Expression, "\"a,b\"", vec![token(Rule::StringLiteral, "\"a,b\"")]),
                ],
            ),
        ],
    );
    assert_eq!(source.function_call(0), Some((expected, 15)));
    let empty = node(Rule::FunctionCall, "f()", vec![token(Rule::Identifier, "f")]);
    assert_eq!(Source::new("f()").function_call(0), Some((empty, 3)));
    assert_eq!(Source::new("f(1,)").function_call(0), None);
    assert_eq!(Source::new("f(1").function_call(0), None);
}

#[test]
fn parse_tree_of_a_conditional() {
    let source = Source::new("seppo x>1{}perkele{y=2}");
    let condition = node(
        Rule::Condition,
        "x>1",
        vec![token(Rule::Variable, "x"), token(Rule::Other, ">"), token(Rule::Number, "1")],
    );
    let assignment = node(
        Rule::Assignment,
        "y=2",
        vec![
            token(Rule::Identifier, "y"),
            node(Rule::Expression, "2", vec![token(Rule::Number, "2")]),
        ],
    );
    let expected = node(
        Rule::ConditionalBlock,
        "seppo x>1{}perkele{y=2}",
        vec![
            condition,
            token(Rule::Block, "{}"),
            node(Rule::Block, "{y=2}", vec![node(Rule::Statement, "y=2", vec![assignment])]),
        ],
    );
    assert_eq!(source.conditional_block(0), Some((expected, 23)));
}

#[test]
fn parse_tree_of_a_print_statement() {
    let source = Source::new("0xseppo x");
    let expected = node(
        Rule::PrintStmt,
        "0xseppo x",
        vec![
            token(Rule::Other, "0xseppo"),
            node(
                Rule::Other,
                "x",
                vec![node(Rule::Expression, "x", vec![token(Rule::Variable, "x")])],
            ),
        ],
    );
    assert_eq!(source.print_stmt(0), Some((expected, 9)));
}

#[test]
fn parse_tree_of_a_foreign_block() {
    let text = "ceppo {\n  int f() { return 1; }\n}";
    let expected = node(
        Rule::ExternBlock,
        text,
        vec![token(Rule::CCode, "int f() { return 1; }\n")],
    );
    assert_eq!(Source::new(text).extern_block(0), Some((expected, 33)));
}

#[test]
fn blanks_are_spaces_tabs_and_line_ends() {
    let source = Source::new(" \t\r\n x");
    assert_eq!(source.skip(0), 5);
    assert_eq!(source.skip(5), 5);
    assert_eq!(source.skip(6), 6);
    // a no-break space is no blank
    assert_eq!(Source::new("\u{a0}x").skip(0), 0);
}

#[test]
fn names_numbers_and_string_literals() {
    assert_eq!(Source::new("_a1b2 c").name(0), Some(5));
    assert_eq!(Source::new("1a").name(0), None);
    assert_eq!(Source::new("é").name(0), None);
    assert_eq!(Source::new("").name(0), None);
    assert_eq!(Source::new("123x").number(0), Some(3));
    assert_eq!(Source::new("-123").number(0), Some(4));
    assert_eq!(Source::new("-").number(0), None);
    assert_eq!(Source::new("+1").number(0), None);
    assert_eq!(Source::new("\"a b\"c").string_literal(0), Some(5));
    assert_eq!(Source::new("\"\"").string_literal(0), Some(2));
    assert_eq!(Source::new("\"open").string_literal(0), None);
}

#[test]
fn longer_operators_come_first() {
    assert_eq!(Source::new(">=").operator(0), Some(2));
    assert_eq!(Source::new("<=").operator(0), Some(2));
    assert_eq!(Source::new("==").operator(0), Some(2));
    assert_eq!(Source::new("!=").operator(0), Some(2));
    assert_eq!(Source::new(">").operator(0), Some(1));
    assert_eq!(Source::new("<3").operator(0), Some(1));
    assert_eq!(Source::new("+-").operator(0), Some(1));
    assert_eq!(Source::new("=").operator(0), None);
    assert_eq!(Source::new("!").operator(0), None);
    assert_eq!(Source::new("+").comparison(0), None);
    assert_eq!(Source::new("0xseppo").print_command(0), Some(7));
    assert_eq!(Source::new("seppo").print_command(0), Some(5));
    assert_eq!(Source::new("0xsepp").print_command(0), None);
}

#[test]
fn foreign_code_ends_at_the_brace_that_closes_none_of_its_own() {
    assert_eq!(Source::new("a{b}c}d").code_end(0), 5);
    assert_eq!(Source::new("a{b{c}}d").code_end(0), 8);
    assert_eq!(Source::new("}").code_end(0), 0);
    assert_eq!(Source::new("").code_end(0), 0);
    // a brace that nothing closes ends the code
    assert_eq!(Source::new("ab{c").code_end(0), 2);
    assert_eq!(Source::new("a{b}c{d").code_end(0), 5);
}

#[test]
fn statement_is_the_first_alternative_that_matches() {
    // a conditional before a print statement
    assert!(matches!(
        statements("x = 1 seppo x > 0 { }").as_slice(),
        [SeppoExpr::Assignment(_, _), SeppoExpr::Conditional { .. }]
    ));
    assert_eq!(
        statements("x = 1 seppo x"),
        vec![
            SeppoExpr::Assignment("x".to_string(), num(1)),
            SeppoExpr::Print(PrintFormat::Decimal, var("x")),
        ]
    );
    assert_eq!(statements("0xseppo 255"), vec![SeppoExpr::Print(PrintFormat::Hex, num(255))]);
    // one equals sign assigns, two compare
    assert_eq!(statements("x = 3"), vec![SeppoExpr::Assignment("x".to_string(), num(3))]);
    assert_eq!(statements("x == 3"), vec![op(var("x"), "==", num(3))]);
    assert_eq!(
        statements("x = y == 3"),
        vec![SeppoExpr::Assignment("x".to_string(), Box::new(op(var("y"), "==", num(3))))]
    );
    assert_eq!(statements("return x"), vec![SeppoExpr::Return(var("x"))]);
    assert_eq!(
        statements("f(1, g())"),
        vec![SeppoExpr::FunctionCall(
            "f".to_string(),
            vec![SeppoExpr::Number(1), SeppoExpr::FunctionCall("g".to_string(), Vec::new())],
        )]
    );
    assert_eq!(
        statements("x = \"hello\""),
        vec![SeppoExpr::Assignment(
            "x".to_string(),
            Box::new(SeppoExpr::String("hello".to_string())),
        )]
    );
}

#[test]
fn operation_has_two_terms() {
    // a third term starts the next statement
    assert_eq!(
        statements("x = 1 + 2 -3"),
        vec![SeppoExpr::Assignment("x".to_string(), Box::new(op(num(1), "+", num(2)))), *num(-3)]
    );
    assert_eq!(statements("1 - -1"), vec![op(num(1), "-", num(-1))]);
    assert_eq!(statements("1-1"), vec![op(num(1), "-", num(1))]);
}

#[test]
fn words_of_the_grammar_are_names_where_nothing_else_matches() {
    assert_eq!(statements("return"), vec![*var("return")]);
    assert_eq!(statements("seppo = 1"), vec![SeppoExpr::Assignment("seppo".to_string(), num(1))]);
    assert_eq!(
        statements("seppoperkele"),
        vec![SeppoExpr::Print(PrintFormat::Decimal, var("perkele"))]
    );
}

#[test]
fn conditional_without_the_other_case() {
    let parsed = statements("seppo 1 < 2 { return 1 } return 0");
    assert_eq!(
        parsed,
        vec![
            SeppoExpr::Conditional {
                condition: Box::new(op(num(1), "<", num(2))),
                true_block: Box::new(SeppoExpr::Block(vec![SeppoExpr::Return(num(1))])),
                false_block: None,
            },
            SeppoExpr::Return(num(0)),
        ]
    );
}

#[test]
fn program_is_functions_and_foreign_blocks_in_order() {
    let text = "ceppo { int one() { return 1; } }\nfn helper() { }\nfn seppo() { }";
    assert_eq!(
        parse_seppo(text),
        Ok(SeppoExpr::Block(vec![
            SeppoExpr::InlineC("int one() { return 1; }".to_string()),
            SeppoExpr::Function(
                "helper".to_string(),
                Vec::new(),
                Box::new(SeppoExpr::Block(Vec::new())),
            ),
            SeppoExpr::Function(
                "seppo".to_string(),
                Vec::new(),
                Box::new(SeppoExpr::Block(Vec::new())),
            ),
        ]))
    );
}

#[test]
fn program_needs_the_entry_function() {
    assert_eq!(parse_seppo(""), Err(CompileError::MissingEntryPoint));
    assert_eq!(parse_seppo(" \n"), Err(CompileError::MissingEntryPoint));
    assert_eq!(parse_seppo("fn other() { }"), Err(CompileError::MissingEntryPoint));
    assert_eq!(parse_seppo("ceppo { int seppo() { } }"), Err(CompileError::MissingEntryPoint));
}

#[test]
fn syntax_error_is_where_the_text_stops_being_a_program() {
    assert_eq!(parse_seppo("x"), Err(CompileError::SyntaxError(0)));
    assert_eq!(parse_seppo("fn seppo() { } }"), Err(CompileError::SyntaxError(15)));
    assert_eq!(parse_seppo("fn seppo() { } fn f( { }"), Err(CompileError::SyntaxError(15)));
    assert_eq!(parse_seppo("fn seppo() { 1 + }"), Err(CompileError::SyntaxError(0)));
    assert_eq!(parse_seppo("fn seppo() { x = 1 + 2 - 3 }"), Err(CompileError::SyntaxError(0)));
    assert_eq!(parse_seppo("fn seppo(x) { }"), Err(CompileError::SyntaxError(0)));
    assert_eq!(parse_seppo("fn seppo() { } ceppo { { }"), Err(CompileError::SyntaxError(15)));
    assert_eq!(
        CompileError::SyntaxError(15).message(),
        "Syntax error at character 15"
    );
    assert_eq!(CompileError::SyntaxError(0).message(), "Syntax error at character 0");
    assert_eq!(
        CompileError::SyntaxError(1234567890).message(),
        "Syntax error at character 1234567890"
    );
}

#[test]
fn positions_count_characters() {
    // the string literal holds two characters of several bytes each
    assert_eq!(
        parse_seppo("fn seppo() { x = \"äö\" } ?"),
        Err(CompileError::SyntaxError(24))
    );
}

/// The functions that the module of the compiled program declares, each
/// with its arity and whether it has a body.
fn declared(input: &str) -> Vec<(String, usize, bool)> {
    let expr = parse_seppo(input).unwrap();
    let mut codegen = CodeGen::new("test");
    codegen.compile(&expr).unwrap();
    assert_eq!(codegen.foreign_sources().len(), 1);
    codegen
        .get_module()
        .functions
        .iter()
        .filter(|f| f.kind == FunctionKind::Plain)
        .map(|f| (f.name.clone(), f.arity, !f.blocks.is_empty()))
        .collect()
}

#[test]
fn inline_c_function_is_declared_and_called() {
    let input = r#"
        ceppo {
            long my_rand() {
                return 42;
            }
        }

        fn seppo() {
            x = my_rand()
            seppo x
            return x
        }
    "#;
    assert_eq!(
        declared(input),
        vec![("my_rand".to_string(), 0, false), ("seppo".to_string(), 0, true)]
    );
}

#[test]
fn foreign_block_with_blanks_everywhere() {
    let input = r#"
        ceppo    {
            int meaning_of_life()     {
                return     42;
            }
        }

        fn seppo() {
            return meaning_of_life()
        }
    "#;
    assert_eq!(
        declared(input),
        vec![("meaning_of_life".to_string(), 0, false), ("seppo".to_string(), 0, true)]
    );
}

#[test]
fn foreign_function_with_a_parameter() {
    let input = r#"
        ceppo {
            int factorial(int n) {
                if (n <= 1) return 1;
                return n * factorial(n - 1);
            }
        }

        fn seppo() {
            result = factorial(5)
            seppo result
            return result
        }
    "#;
    let found = declared(input);
    assert_eq!(found[0], ("factorial".to_string(), 1, false));
    assert_eq!(found[found.len() - 1], ("seppo".to_string(), 0, true));
}

#[test]
fn foreign_functions_of_any_types() {
    let input = r#"
        ceppo {
            int get_int() {
                return 42;
            }

            double calc(float x, int y) {
                return x + y;
            }

            void* alloc(size_t size) {
                return malloc(size);
            }
        }

        fn seppo() {
            x = get_int()
            return x
        }
    "#;
    let found = declared(input);
    assert!(found.contains(&("get_int".to_string(), 0, false)));
    assert!(found.contains(&("calc".to_string(), 2, false)));
    assert!(found.contains(&("alloc".to_string(), 1, false)));
}

#[test]
fn foreign_code_with_braces_and_a_string_argument() {
    let input = r#"
        ceppo {
            uint64_t load(const uint8_t *p) {
                return (uint64_t)p[0] <<  0 | (uint64_t)p[1] <<  8;
            }

            uint64_t hash(const void *keyIn, ptrdiff_t len, uint64_t seed) {
                const uint8_t *k = (const uint8_t *)keyIn;
                uint64_t h[4] = { 1, 2, 3, seed };
                for (; len >= 32; len -= 32) {
                    for (int i = 0; i < 4; ++i, k += 8) {
                        h[i] ^= load(k);
                    }
                }
                return h[0];
            }
        }

        fn seppo() {
            result = hash("hello", 5, 42)
            seppo result
        }
    "#;
    let found = declared(input);
    assert!(found.contains(&("load".to_string(), 1, false)));
    assert!(found.contains(&("hash".to_string(), 3, false)));
}

#[test]
fn parser_yields_one_pair_for_the_program() {
    let pairs = seppolang::parser::SeppoParser::parse("fn a() { } fn b() { }").unwrap();
    assert_eq!(pairs.len(), 1);
    assert_eq!(pairs[0].rule, Rule::Program);
    let rules: Vec<Rule> = pairs[0].children.iter().map(|p| p.rule).collect();
    assert_eq!(rules, vec![Rule::Function, Rule::Function, Rule::Other]);
    assert_eq!(
        seppolang::parser::SeppoParser::parse("fn a() { } b").unwrap_err(),
        CompileError::SyntaxError(11)
    );
}

#[test]
fn matches_end_after_their_start_and_within_the_text() {
    let text = "ceppo { int f(int a) { return a; } }\nfn seppo() { x = f(1, 2) seppo x > 1 { 0xseppo x } perkele { return \"s\" } }";
    let source = Source::new(text);
    let n = source.len();
    for i in 0..=n {
        let ends = [
            source.term(i).map(|m| m.1),
            source.function_call(i).map(|m| m.1),
            source.arg_list(i).map(|m| m.1),
            source.expression(i).map(|m| m.1),
            source.operation(i).map(|m| m.1),
            source.condition(i).map(|m| m.1),
            source.print_stmt(i).map(|m| m.1),
            source.return_stmt(i).map(|m| m.1),
            source.assignment(i).map(|m| m.1),
            source.statement(i).map(|m| m.1),
            source.conditional_block(i).map(|m| m.1),
            source.block(i).map(|m| m.1),
            source.function(i).map(|m| m.1),
            source.extern_block(i).map(|m| m.1),
        ];
        for end in ends.into_iter().flatten() {
            assert!(i < end && end <= n, "from {} to {}", i, end);
        }
    }
    assert!(source.program().is_ok());
}
