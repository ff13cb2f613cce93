//! From parse trees to syntax trees.

use seppolang::error::CompileError;
use seppolang::parser::parse_block;
use seppolang::parser::parse_conditional_block;
use seppolang::parser::parse_expression;
use seppolang::parser::parse_function;
use seppolang::parser::parse_number;
use seppolang::parser::parse_print;
use seppolang::parser::parse_program;
use seppolang::parser::parse_statement;
use seppolang::parser::Pair;
use seppolang::parser::Rule;
use seppolang::types::PrintFormat;
use seppolang::types::SeppoExpr;

fn pair(rule: Rule, text: &str, children: Vec<Pair>) -> Pair {
    Pair { rule, text: text.to_string(), children }
}

fn leaf(rule: Rule, text: &str) -> Pair {
    pair(rule, text, Vec::new())
}

fn malformed(what: &str) -> CompileError {
    CompileError::MalformedTree(what.to_string())
}

fn num(n: i64) -> Box<SeppoExpr> {
    Box::new(SeppoExpr::Number(n))
}

#[test]
fn numbers_in_range() {
    assert_eq!(parse_number("0"), Some(0));
    assert_eq!(parse_number("42"), Some(42));
    assert_eq!(parse_number("-42"), Some(-42));
    assert_eq!(parse_number("+7"), Some(7));
    assert_eq!(parse_number("007"), Some(7));
    assert_eq!(parse_number("9223372036854775807"), Some(i64::MAX));
    assert_eq!(parse_number("-9223372036854775808"), Some(i64::MIN));
}

#[test]
fn numbers_out_of_range() {
    assert_eq!(parse_number("9223372036854775808"), None);
    assert_eq!(parse_number("-9223372036854775809"), None);
    assert_eq!(parse_number("99999999999999999999999"), None);
}

#[test]
fn texts_that_are_no_numbers() {
    assert_eq!(parse_number(""), None);
    assert_eq!(parse_number("-"), None);
    assert_eq!(parse_number("+"), None);
    assert_eq!(parse_number("12a"), None);
    assert_eq!(parse_number(" 12"), None);
    assert_eq!(parse_number("1 2"), None);
    assert_eq!(parse_number("--1"), None);
    assert_eq!(parse_number("٣"), None);
}

#[test]
fn number_and_variable() {
    assert_eq!(parse_expression(&leaf(Rule::Number, "42")), Ok(SeppoExpr::Number(42)));
    assert_eq!(
        parse_expression(&leaf(Rule::Variable, "x")),
        Ok(SeppoExpr::Variable("x".to_string()))
    );
    assert_eq!(
        parse_expression(&leaf(Rule::Identifier, "y")),
        Ok(SeppoExpr::Variable("y".to_string()))
    );
    assert_eq!(parse_expression(&leaf(Rule::Number, "4x")), Err(malformed("Invalid number")));
}

#[test]
fn string_literal_loses_its_quotes() {
    assert_eq!(
        parse_expression(&leaf(Rule::StringLiteral, "\"hello\"")),
        Ok(SeppoExpr::String("hello".to_string()))
    );
    assert_eq!(
        parse_expression(&leaf(Rule::StringLiteral, "\"\"")),
        Ok(SeppoExpr::String(String::new()))
    );
    assert_eq!(
        parse_expression(&leaf(Rule::StringLiteral, "\"häí\"")),
        Ok(SeppoExpr::String("häí".to_string()))
    );
    assert_eq!(
        parse_expression(&leaf(Rule::StringLiteral, "\"")),
        Err(malformed("Unterminated string literal"))
    );
}

#[test]
fn expression_wraps_what_is_inside() {
    let wrapped = pair(Rule::Expression, "42", vec![leaf(Rule::Number, "42")]);
    assert_eq!(parse_expression(&wrapped), Ok(SeppoExpr::Number(42)));
    assert_eq!(
        parse_expression(&leaf(Rule::Expression, "")),
        Err(malformed("Empty expression"))
    );
}

#[test]
fn operation_keeps_the_operator_text() {
    let tree = pair(
        Rule::Operation,
        "1 + 2",
        vec![leaf(Rule::Number, "1"), leaf(Rule::Other, "+"), leaf(Rule::Number, "2")],
    );
    assert_eq!(
        parse_expression(&tree),
        Ok(SeppoExpr::Operation("+".to_string(), num(1), num(2)))
    );
    let short = pair(Rule::Operation, "1 +", vec![leaf(Rule::Number, "1"), leaf(Rule::Other, "+")]);
    assert_eq!(
        parse_expression(&short),
        Err(malformed("Expected two operands and an operator"))
    );
}

#[test]
fn function_call_with_and_without_arguments() {
    let bare = pair(Rule::FunctionCall, "f()", vec![leaf(Rule::Identifier, "f")]);
    assert_eq!(
        parse_expression(&bare),
        Ok(SeppoExpr::FunctionCall("f".to_string(), Vec::new()))
    );
    let with = pair(
        Rule::FunctionCall,
        "add(40, 2)",
        vec![
            leaf(Rule::Identifier, "add"),
            pair(Rule::Other, "40, 2", vec![leaf(Rule::Number, "40"), leaf(Rule::Number, "2")]),
        ],
    );
    assert_eq!(
        parse_expression(&with),
        Ok(SeppoExpr::FunctionCall(
            "add".to_string(),
            vec![SeppoExpr::Number(40), SeppoExpr::Number(2)]
        ))
    );
    assert_eq!(
        parse_expression(&leaf(Rule::FunctionCall, "")),
        Err(malformed("Expected function name"))
    );
}

#[test]
fn other_rules_are_no_expressions() {
    assert_eq!(
        parse_expression(&leaf(Rule::Block, "{}")),
        Err(malformed("Unexpected rule in expression"))
    );
}

#[test]
fn statements_of_each_kind() {
    let returned = pair(Rule::ReturnStmt, "return 1", vec![leaf(Rule::Number, "1")]);
    assert_eq!(parse_statement(&returned), Ok(SeppoExpr::Return(num(1))));
    let assigned = pair(
        Rule::Assignment,
        "x = 1",
        vec![leaf(Rule::Identifier, "x"), leaf(Rule::Number, "1")],
    );
    assert_eq!(
        parse_statement(&assigned),
        Ok(SeppoExpr::Assignment("x".to_string(), num(1)))
    );
    let wrapped = pair(Rule::Statement, "return 1", vec![returned]);
    assert_eq!(parse_statement(&wrapped), Ok(SeppoExpr::Return(num(1))));
    assert_eq!(parse_statement(&leaf(Rule::Statement, "")), Err(malformed("Empty statement")));
    assert_eq!(
        parse_statement(&leaf(Rule::ReturnStmt, "return")),
        Err(malformed("Expected return value"))
    );
    assert_eq!(
        parse_statement(&leaf(Rule::Assignment, "x =")),
        Err(malformed("Expected a variable and a value"))
    );
    assert_eq!(
        parse_statement(&leaf(Rule::Function, "")),
        Err(malformed("Unexpected rule in statement"))
    );
}

#[test]
fn print_command_selects_the_format() {
    let tree = |command: &str| {
        pair(
            Rule::PrintStmt,
            "",
            vec![
                leaf(Rule::Other, command),
                pair(Rule::Other, "x", vec![leaf(Rule::Variable, "x")]),
            ],
        )
    };
    let x = || Box::new(SeppoExpr::Variable("x".to_string()));
    assert_eq!(parse_print(&tree("seppo")), Ok(SeppoExpr::Print(PrintFormat::Decimal, x())));
    assert_eq!(parse_print(&tree("0xseppo")), Ok(SeppoExpr::Print(PrintFormat::Hex, x())));
    assert_eq!(parse_print(&tree("anything")), Ok(SeppoExpr::Print(PrintFormat::Decimal, x())));
    assert_eq!(
        parse_print(&leaf(Rule::PrintStmt, "")),
        Err(malformed("Expected print command"))
    );
    assert_eq!(
        parse_print(&pair(Rule::PrintStmt, "", vec![leaf(Rule::Other, "seppo")])),
        Err(malformed("Expected expression to print"))
    );
    assert_eq!(
        parse_print(&pair(
            Rule::PrintStmt,
            "",
            vec![leaf(Rule::Other, "seppo"), leaf(Rule::Other, "")]
        )),
        Err(malformed("Empty print expression"))
    );
}

fn condition() -> Pair {
    pair(
        Rule::Condition,
        "x > 40",
        vec![leaf(Rule::Variable, "x"), leaf(Rule::Other, ">"), leaf(Rule::Number, "40")],
    )
}

#[test]
fn conditional_with_and_without_false_branch() {
    let x_gt_40 = || {
        Box::new(SeppoExpr::Operation(
            ">".to_string(),
            Box::new(SeppoExpr::Variable("x".to_string())),
            num(40),
        ))
    };
    let empty = || Box::new(SeppoExpr::Block(Vec::new()));
    let one = pair(Rule::ConditionalBlock, "", vec![condition(), leaf(Rule::Block, "{}")]);
    assert_eq!(
        parse_conditional_block(&one),
        Ok(SeppoExpr::Conditional { condition: x_gt_40(), true_block: empty(), false_block: None })
    );
    let two = pair(
        Rule::ConditionalBlock,
        "",
        vec![condition(), leaf(Rule::Block, "{}"), leaf(Rule::Block, "{}")],
    );
    assert_eq!(
        parse_conditional_block(&two),
        Ok(SeppoExpr::Conditional {
            condition: x_gt_40(),
            true_block: empty(),
            false_block: Some(empty()),
        })
    );
    assert_eq!(
        parse_conditional_block(&leaf(Rule::ConditionalBlock, "")),
        Err(malformed("Expected condition"))
    );
    assert_eq!(
        parse_conditional_block(&pair(Rule::ConditionalBlock, "", vec![condition()])),
        Err(malformed("Expected true block"))
    );
}

#[test]
fn block_keeps_the_order_and_stops_at_the_first_error() {
    let good = pair(Rule::ReturnStmt, "", vec![leaf(Rule::Number, "1")]);
    let bad = pair(Rule::ReturnStmt, "", vec![leaf(Rule::Number, "x")]);
    let worse = leaf(Rule::ReturnStmt, "");
    assert_eq!(
        parse_block(&pair(Rule::Block, "", vec![good, bad, worse])),
        Err(malformed("Invalid number"))
    );
    let first = pair(Rule::ReturnStmt, "", vec![leaf(Rule::Number, "1")]);
    let second = pair(Rule::ReturnStmt, "", vec![leaf(Rule::Number, "2")]);
    assert_eq!(
        parse_block(&pair(Rule::Block, "", vec![first, second])),
        Ok(SeppoExpr::Block(vec![SeppoExpr::Return(num(1)), SeppoExpr::Return(num(2))]))
    );
}

fn function(name: &str) -> Pair {
    pair(
        Rule::Function,
        "",
        vec![
            leaf(Rule::Identifier, name),
            pair(
                Rule::Block,
                "",
                vec![pair(Rule::ReturnStmt, "", vec![leaf(Rule::Number, "42")])],
            ),
        ],
    )
}

fn definition(name: &str) -> SeppoExpr {
    SeppoExpr::Function(
        name.to_string(),
        Vec::new(),
        Box::new(SeppoExpr::Block(vec![SeppoExpr::Return(num(42))])),
    )
}

#[test]
fn function_is_a_name_and_a_block() {
    assert_eq!(parse_function(&function("f")), Ok(definition("f")));
    assert_eq!(
        parse_function(&leaf(Rule::Function, "")),
        Err(malformed("Expected function name"))
    );
    assert_eq!(
        parse_function(&pair(Rule::Function, "", vec![leaf(Rule::Identifier, "f")])),
        Err(malformed("Expected function body"))
    );
    assert_eq!(
        parse_function(&pair(
            Rule::Function,
            "",
            vec![leaf(Rule::Identifier, "f"), leaf(Rule::Statement, "")]
        )),
        Err(malformed("Expected function body"))
    );
}

#[test]
fn program_is_the_block_of_its_items() {
    let foreign = pair(
        Rule::ExternBlock,
        "",
        vec![leaf(Rule::Other, "ceppo"), leaf(Rule::CCode, "\n  int f() { return 1; }\n ")],
    );
    let tree = vec![pair(
        Rule::Program,
        "",
        vec![foreign, function("helper"), leaf(Rule::Other, ""), function("seppo")],
    )];
    assert_eq!(
        parse_program(&tree),
        Ok(SeppoExpr::Block(vec![
            SeppoExpr::InlineC("int f() { return 1; }".to_string()),
            definition("helper"),
            definition("seppo"),
        ]))
    );
}

#[test]
fn program_without_entry_function_is_rejected() {
    let tree = vec![pair(Rule::Program, "", vec![function("not_seppo")])];
    assert_eq!(parse_program(&tree), Err(CompileError::MissingEntryPoint));
    assert_eq!(parse_program(&Vec::new()), Err(CompileError::MissingEntryPoint));
    // what is not inside a program does not count
    assert_eq!(parse_program(&vec![function("seppo")]), Err(CompileError::MissingEntryPoint));
}

#[test]
fn malformed_item_wins_over_the_missing_entry_function() {
    let tree = vec![pair(Rule::Program, "", vec![leaf(Rule::Function, "")])];
    assert_eq!(parse_program(&tree), Err(malformed("Expected function name")));
}

#[test]
fn foreign_block_without_code_is_rejected() {
    let foreign = pair(Rule::ExternBlock, "", vec![leaf(Rule::Other, "ceppo")]);
    let tree = vec![pair(Rule::Program, "", vec![foreign, function("seppo")])];
    assert_eq!(parse_program(&tree), Err(CompileError::MalformedForeignBlock));
}
