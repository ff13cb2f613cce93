//! From a source text to a syntax tree.
//!
//! The grammar is applied first. Its result is a tree of pairs, each with
//! the rule that matched, the text that it matched and the pairs inside
//! it; the syntax tree is built from that. A tree of pairs that the
//! grammar would not have produced is rejected with an error that says
//! what was missing.

use crate::error::CompileError;
use crate::error::CompileErrorView;
use crate::foreign::chars_of;
use crate::foreign::trim;
use crate::foreign::trimmed;
use crate::grammar::Source;
use crate::grammar::program;
use crate::model::entry_name;
use crate::scope::text_is;
use crate::types::Expr;
use crate::types::PrintFormat;
use crate::types::SeppoExpr;
use crate::types::models_of;
use vstd::prelude::*;

verus! {

/// The rules of the grammar that the syntax tree is built from.
#[derive(Clone, Copy, Debug, PartialEq, Eq, Structural)]
pub enum Rule {
    Program,
    Function,
    ExternBlock,
    CCode,
    Block,
    Statement,
    ConditionalBlock,
    Condition,
    PrintStmt,
    ReturnStmt,
    Assignment,
    Expression,
    FunctionCall,
    Number,
    StringLiteral,
    Variable,
    Identifier,
    Operation,
    /// Any other rule: an operator, a print command, the expression of a
    /// print statement, a list of arguments, the end of the text.
    Other,
}

/// One node of a parse tree.
#[derive(Debug, PartialEq, Eq)]
pub struct Pair {
    pub rule: Rule,
    /// The text that the rule matched.
    pub text: String,
    /// The pairs that matched inside this one, in order.
    pub children: Vec<Pair>,
}

/// The mathematical model of a [`Pair`].
pub struct PairView {
    pub rule: Rule,
    pub text: Seq<char>,
    pub children: Seq<PairView>,
}

/// The model of a pair.
pub open spec fn pair_model(p: Pair) -> PairView
    decreases p,
{
    PairView { rule: p.rule, text: p.text@, children: pair_models(p.children@) }
}

/// The models of a sequence of pairs, in order.
pub open spec fn pair_models(pairs: Seq<Pair>) -> Seq<PairView>
    decreases pairs,
{
    Seq::new(
        pairs.len(),
        |i: int|
            if 0 <= i < pairs.len() {
                pair_model(pairs[i])
            } else {
                arbitrary()
            },
    )
}

impl View for Pair {
    type V = PairView;

    open spec fn view(&self) -> PairView {
        pair_model(*self)
    }
}

/// The outcome of building a syntax tree.
pub type Lowered = Result<Expr, CompileErrorView>;

/// The error for a tree that lacks `what`.
pub open spec fn malformed(what: Seq<char>) -> CompileErrorView {
    CompileErrorView::MalformedTree(what)
}

/// The value of a decimal digit.
pub open spec fn digit_value(c: char) -> int {
    c as u32 - '0' as u32
}

/// Whether `c` is a decimal digit.
pub open spec fn is_digit(c: char) -> bool {
    '0' <= c <= '9'
}

/// Whether `s` holds decimal digits and nothing else.
pub open spec fn all_digits(s: Seq<char>) -> bool {
    forall|i: int| 0 <= i < s.len() ==> is_digit(#[trigger] s[i])
}

/// The number that a sequence of decimal digits denotes.
pub open spec fn digits_value(digits: Seq<char>) -> int
    decreases digits.len(),
{
    if digits.len() == 0 {
        0
    } else {
        digits_value(digits.drop_last()) * 10 + digit_value(digits.last())
    }
}

/// The number that `text` denotes: an optional sign, then decimal digits,
/// one at least and nothing else, with a value that fits in 64 bits.
pub open spec fn number_value(text: Seq<char>) -> Option<i64> {
    let signed = text.len() > 0 && (text[0] == '-' || text[0] == '+');
    let digits = if signed {
        text.drop_first()
    } else {
        text
    };
    let magnitude = digits_value(digits);
    let value = if text.len() > 0 && text[0] == '-' {
        -magnitude
    } else {
        magnitude
    };
    if digits.len() > 0 && all_digits(digits) && i64::MIN <= value <= i64::MAX {
        Some(value as i64)
    } else {
        None
    }
}

/// The syntax tree of an expression.
pub open spec fn lower_expression(p: PairView) -> Lowered
    decreases p, 1nat,
{
    match p.rule {
        Rule::Number => match number_value(p.text) {
            Some(n) => Ok(Expr::Number(n)),
            None => Err(malformed("Invalid number"@)),
        },
        Rule::StringLiteral => if p.text.len() >= 2 {
            Ok(Expr::String(p.text.subrange(1, p.text.len() - 1)))
        } else {
            Err(malformed("Unterminated string literal"@))
        },
        Rule::Variable => Ok(Expr::Variable(p.text)),
        Rule::Identifier => Ok(Expr::Variable(p.text)),
        Rule::Operation => lower_operation(p),
        Rule::Expression => if p.children.len() > 0 {
            lower_expression(p.children[0])
        } else {
            Err(malformed("Empty expression"@))
        },
        Rule::FunctionCall => if p.children.len() == 0 {
            Err(malformed("Expected function name"@))
        } else if p.children.len() == 1 {
            Ok(Expr::FunctionCall(p.children[0].text, Seq::empty()))
        } else {
            match lower_expressions(p.children[1].children, 0, Seq::empty()) {
                Ok(args) => Ok(Expr::FunctionCall(p.children[0].text, args)),
                Err(e) => Err(e),
            }
        },
        _ => Err(malformed("Unexpected rule in expression"@)),
    }
}

/// The syntax tree of a pair that holds a left operand, an operator and a
/// right operand.
pub open spec fn lower_operation(p: PairView) -> Lowered
    decreases p, 0nat,
{
    if p.children.len() < 3 {
        Err(malformed("Expected two operands and an operator"@))
    } else {
        match lower_expression(p.children[0]) {
            Ok(left) => match lower_expression(p.children[2]) {
                Ok(right) => Ok(
                    Expr::Operation(p.children[1].text, Box::new(left), Box::new(right)),
                ),
                Err(e) => Err(e),
            },
            Err(e) => Err(e),
        }
    }
}

/// The syntax trees of the expressions from pair `i` on, after `done`.
pub open spec fn lower_expressions(pairs: Seq<PairView>, i: int, done: Seq<Expr>) -> Result<
    Seq<Expr>,
    CompileErrorView,
>
    decreases pairs, pairs.len() - i,
{
    if i < 0 || i >= pairs.len() {
        Ok(done)
    } else {
        match lower_expression(pairs[i]) {
            Ok(e) => lower_expressions(pairs, i + 1, done.push(e)),
            Err(e) => Err(e),
        }
    }
}

/// The syntax tree of a statement.
pub open spec fn lower_statement(p: PairView) -> Lowered
    decreases p, 2nat,
{
    match p.rule {
        Rule::Statement => if p.children.len() > 0 {
            lower_statement(p.children[0])
        } else {
            Err(malformed("Empty statement"@))
        },
        Rule::ConditionalBlock => lower_conditional(p),
        Rule::PrintStmt => lower_print(p),
        Rule::Assignment => lower_assignment(p),
        Rule::Expression => lower_expression(p),
        Rule::ReturnStmt => if p.children.len() > 0 {
            match lower_expression(p.children[0]) {
                Ok(value) => Ok(Expr::Return(Box::new(value))),
                Err(e) => Err(e),
            }
        } else {
            Err(malformed("Expected return value"@))
        },
        _ => Err(malformed("Unexpected rule in statement"@)),
    }
}

/// The syntax tree of an assignment: a variable, then the expression for
/// its value.
pub open spec fn lower_assignment(p: PairView) -> Lowered
    decreases p, 0nat,
{
    if p.children.len() < 2 {
        Err(malformed("Expected a variable and a value"@))
    } else {
        match lower_expression(p.children[1]) {
            Ok(value) => Ok(Expr::Assignment(p.children[0].text, Box::new(value))),
            Err(e) => Err(e),
        }
    }
}

/// The syntax tree of a print statement: the command, which selects the
/// format, then a pair that holds the expression.
pub open spec fn lower_print(p: PairView) -> Lowered
    decreases p, 0nat,
{
    if p.children.len() == 0 {
        Err(malformed("Expected print command"@))
    } else if p.children.len() == 1 {
        Err(malformed("Expected expression to print"@))
    } else if p.children[1].children.len() == 0 {
        Err(malformed("Empty print expression"@))
    } else {
        match lower_expression(p.children[1].children[0]) {
            Ok(value) => Ok(
                Expr::Print(
                    if p.children[0].text == "0xseppo"@ {
                        PrintFormat::Hex
                    } else {
                        PrintFormat::Decimal
                    },
                    Box::new(value),
                ),
            ),
            Err(e) => Err(e),
        }
    }
}

/// The syntax tree of a conditional: a condition, a block, and a second
/// block if there is one.
pub open spec fn lower_conditional(p: PairView) -> Lowered
    decreases p, 0nat,
{
    if p.children.len() == 0 {
        Err(malformed("Expected condition"@))
    } else if p.children.len() == 1 {
        Err(malformed("Expected true block"@))
    } else {
        match lower_operation(p.children[0]) {
            Ok(condition) => match lower_block(p.children[1]) {
                Ok(true_block) => if p.children.len() == 2 {
                    Ok(
                        Expr::Conditional {
                            condition: Box::new(condition),
                            true_block: Box::new(true_block),
                            false_block: None,
                        },
                    )
                } else {
                    match lower_block(p.children[2]) {
                        Ok(false_block) => Ok(
                            Expr::Conditional {
                                condition: Box::new(condition),
                                true_block: Box::new(true_block),
                                false_block: Some(Box::new(false_block)),
                            },
                        ),
                        Err(e) => Err(e),
                    }
                },
                Err(e) => Err(e),
            },
            Err(e) => Err(e),
        }
    }
}

/// The syntax tree of a block: its statements, in order.
pub open spec fn lower_block(p: PairView) -> Lowered
    decreases p, 0nat,
{
    match lower_statements(p.children, 0, Seq::empty()) {
        Ok(statements) => Ok(Expr::Block(statements)),
        Err(e) => Err(e),
    }
}

/// The syntax trees of the statements from pair `i` on, after `done`.
pub open spec fn lower_statements(pairs: Seq<PairView>, i: int, done: Seq<Expr>) -> Result<
    Seq<Expr>,
    CompileErrorView,
>
    decreases pairs, pairs.len() - i,
{
    if i < 0 || i >= pairs.len() {
        Ok(done)
    } else {
        match lower_statement(pairs[i]) {
            Ok(e) => lower_statements(pairs, i + 1, done.push(e)),
            Err(e) => Err(e),
        }
    }
}

/// The syntax tree of a function definition: a name, then a block. A
/// function defined in the source takes no parameters.
pub open spec fn lower_function(p: PairView) -> Lowered {
    if p.children.len() == 0 {
        Err(malformed("Expected function name"@))
    } else if p.children.len() == 1 || p.children[1].rule != Rule::Block {
        Err(malformed("Expected function body"@))
    } else {
        match lower_block(p.children[1]) {
            Ok(body) => Ok(Expr::Function(p.children[0].text, Seq::empty(), Box::new(body))),
            Err(e) => Err(e),
        }
    }
}

/// The first pair at or after `i` that holds foreign code.
pub open spec fn foreign_code(pairs: Seq<PairView>, i: int) -> Option<PairView>
    decreases pairs.len() - i,
{
    if i < 0 || i >= pairs.len() {
        None
    } else if pairs[i].rule == Rule::CCode {
        Some(pairs[i])
    } else {
        foreign_code(pairs, i + 1)
    }
}

/// The syntax tree of a top-level item, if the item is a function or a
/// foreign block; other pairs at the top level stand for nothing.
pub open spec fn lower_item(p: PairView) -> Option<Lowered> {
    match p.rule {
        Rule::Function => Some(lower_function(p)),
        Rule::ExternBlock => Some(
            match foreign_code(p.children, 0) {
                Some(code) => Ok(Expr::InlineC(trim(code.text))),
                None => Err(CompileErrorView::MalformedForeignBlock),
            },
        ),
        _ => None,
    }
}

/// The syntax trees of the top-level items from pair `i` on, after `done`.
pub open spec fn lower_items(pairs: Seq<PairView>, i: int, done: Seq<Expr>) -> Result<
    Seq<Expr>,
    CompileErrorView,
>
    decreases pairs.len() - i,
{
    if i < 0 || i >= pairs.len() {
        Ok(done)
    } else {
        match lower_item(pairs[i]) {
            Some(Ok(e)) => lower_items(pairs, i + 1, done.push(e)),
            Some(Err(e)) => Err(e),
            None => lower_items(pairs, i + 1, done),
        }
    }
}

/// The syntax trees of the items of the programs from pair `i` on, after
/// `done`. A pair at the top that is no program stands for nothing.
pub open spec fn lower_programs(pairs: Seq<PairView>, i: int, done: Seq<Expr>) -> Result<
    Seq<Expr>,
    CompileErrorView,
>
    decreases pairs.len() - i,
{
    if i < 0 || i >= pairs.len() {
        Ok(done)
    } else if pairs[i].rule == Rule::Program {
        match lower_items(pairs[i].children, 0, done) {
            Ok(done) => lower_programs(pairs, i + 1, done),
            Err(e) => Err(e),
        }
    } else {
        lower_programs(pairs, i + 1, done)
    }
}

/// Whether `e` is the definition of the entry function.
pub open spec fn is_entry(e: Expr) -> bool {
    match e {
        Expr::Function(name, _, _) => name == entry_name(),
        _ => false,
    }
}

/// Whether one of `items` is the definition of the entry function.
pub open spec fn has_entry(items: Seq<Expr>) -> bool {
    exists|i: int| 0 <= i < items.len() && is_entry(#[trigger] items[i])
}

/// The syntax tree of a program: the block of its functions and foreign
/// blocks, in order. A program without an entry function is rejected.
pub open spec fn lower_program(pairs: Seq<PairView>) -> Lowered {
    match lower_programs(pairs, 0, Seq::empty()) {
        Ok(items) => if has_entry(items) {
            Ok(Expr::Block(items))
        } else {
            Err(CompileErrorView::MissingEntryPoint)
        },
        Err(e) => Err(e),
    }
}

/// The syntax tree of the program that the source text `text` is. A text
/// that is no program is rejected with the position at which it stops
/// being one.
pub open spec fn parse(text: Seq<char>) -> Lowered {
    match program(text) {
        Ok(tree) => lower_program(seq![tree]),
        Err(at) => Err(CompileErrorView::SyntaxError(at)),
    }
}

/// Whether `r` is the outcome `expected`.
pub open spec fn lowered(r: Result<SeppoExpr, CompileError>, expected: Lowered) -> bool {
    match expected {
        Ok(e) => r is Ok && r->Ok_0@ == e,
        Err(e) => r is Err && r->Err_0@ == e,
    }
}

/// How the model of a pair relates to the pair.
proof fn lemma_pair_model(p: Pair)
    ensures
        p@.rule == p.rule,
        p@.text == p.text@,
        p@.children.len() == p.children@.len(),
        forall|i: int| 0 <= i < p.children@.len() ==> (#[trigger] p@.children[i]) == p.children@[i]@,
        p@.children == pair_models(p.children@),
{
}

fn malformed_tree(what: &str) -> (e: CompileError)
    ensures
        e@ == malformed(what@),
{
    CompileError::MalformedTree(String::from_str(what))
}

proof fn lemma_digits_monotone(digits: Seq<char>, k: int)
    requires
        0 <= k <= digits.len(),
        forall|i: int| 0 <= i < digits.len() ==> is_digit(#[trigger] digits[i]),
    ensures
        0 <= digits_value(digits.take(k)) <= digits_value(digits),
    decreases digits.len() - k,
{
    if k == digits.len() {
        assert(digits.take(k) =~= digits);
        lemma_digits_nonnegative(digits);
    } else {
        let front = digits.drop_last();
        assert(front.take(k) =~= digits.take(k));
        lemma_digits_monotone(front, k);
        assert(is_digit(digits.last()));
    }
}

proof fn lemma_digits_nonnegative(digits: Seq<char>)
    requires
        forall|i: int| 0 <= i < digits.len() ==> is_digit(#[trigger] digits[i]),
    ensures
        0 <= digits_value(digits),
    decreases digits.len(),
{
    if digits.len() > 0 {
        lemma_digits_nonnegative(digits.drop_last());
        assert(is_digit(digits.last()));
    }
}

/// The number that `text` denotes.
pub fn parse_number(text: &str) -> (r: Option<i64>)
    ensures
        r == number_value(text@),
{
    let chars = chars_of(text);
    let n = chars.len();
    if n == 0 {
        return None;
    }
    let negative = chars[0] == '-';
    let start: usize = if chars[0] == '-' || chars[0] == '+' {
        1
    } else {
        0
    };
    let ghost digits = if start == 1 {
        text@.drop_first()
    } else {
        text@
    };
    assert(digits =~= chars@.subrange(start as int, n as int));
    if start == n {
        return None;
    }
    // the magnitude is gathered below zero, where the range is one wider
    let mut below: i64 = 0;
    let mut i = start;
    assert(digits.take(0) =~= Seq::<char>::empty());
    while i < n
        invariant
            start <= i <= n,
            n == chars.len(),
            digits == chars@.subrange(start as int, n as int),
            digits.len() > 0,
            text@.len() > 0,
            negative == (text@[0] == '-'),
            digits == (if text@[0] == '-' || text@[0] == '+' {
                text@.drop_first()
            } else {
                text@
            }),
            forall|j: int| 0 <= j < i - start ==> is_digit(#[trigger] digits[j]),
            below == -digits_value(digits.take(i - start)),
        decreases n - i,
    {
        let c = chars[i];
        assert(digits[i - start] == c);
        if !('0' <= c && c <= '9') {
            proof {
                let k = i - start;
                assert(0 <= k < digits.len());
                assert(!is_digit(digits[k]));
                assert(!all_digits(digits));
            }
            return None;
        }
        let d = (c as u32 - '0' as u32) as i64;
        proof {
            let next = digits.take(i - start + 1);
            assert(next.drop_last() =~= digits.take(i - start));
            assert(next.last() == c);
            assert(digits_value(next) == digits_value(digits.take(i - start)) * 10 + d);
        }
        proof {
            if all_digits(digits) {
                lemma_digits_monotone(digits, i - start + 1);
                lemma_digits_monotone(digits, i - start);
            }
        }
        assert(0 <= d <= 9);
        assert(below <= 0) by {
            if all_digits(digits) {
            } else {
                lemma_digits_nonnegative(digits.take(i - start));
            }
        }
        let shifted = match below.checked_mul(10) {
            Some(v) => v,
            None => {
                assert(below * 10 < i64::MIN);
                return None;
            },
        };
        below = match shifted.checked_sub(d) {
            Some(v) => v,
            None => {
                assert(shifted - d < i64::MIN);
                return None;
            },
        };
        i += 1;
    }
    assert(digits.take(n - start) =~= digits);
    if negative {
        Some(below)
    } else if below == i64::MIN {
        None
    } else {
        Some(-below)
    }
}

/// Builds the syntax tree of an expression.
pub fn parse_expression(pair: &Pair) -> (r: Result<SeppoExpr, CompileError>)
    ensures
        lowered(r, lower_expression(pair@)),
    decreases pair, 1nat,
{
    proof {
        lemma_pair_model(*pair);
        if pair.children@.len() > 0 {
            lemma_pair_model(pair.children@[0]);
        }
        if pair.children@.len() > 1 {
            lemma_pair_model(pair.children@[1]);
        }
        if pair.children@.len() > 2 {
            lemma_pair_model(pair.children@[2]);
        }
    }
    match pair.rule {
        Rule::Number => match parse_number(pair.text.as_str()) {
            Some(n) => Ok(SeppoExpr::Number(n)),
            None => Err(malformed_tree("Invalid number")),
        },
        Rule::StringLiteral => {
            let text = pair.text.as_str();
            let n = text.unicode_len();
            if n >= 2 {
                Ok(SeppoExpr::String(text.substring_char(1, n - 1).to_owned()))
            } else {
                Err(malformed_tree("Unterminated string literal"))
            }
        },
        Rule::Variable => Ok(SeppoExpr::Variable(pair.text.clone())),
        Rule::Identifier => Ok(SeppoExpr::Variable(pair.text.clone())),
        Rule::Operation => parse_condition(pair),
        Rule::Expression => {
            if pair.children.len() > 0 {
                parse_expression(&pair.children[0])
            } else {
                Err(malformed_tree("Empty expression"))
            }
        },
        Rule::FunctionCall => {
            if pair.children.len() == 0 {
                Err(malformed_tree("Expected function name"))
            } else if pair.children.len() == 1 {
                let args: Vec<SeppoExpr> = Vec::new();
                assert(models_of(args@) =~= Seq::<Expr>::empty());
                Ok(SeppoExpr::FunctionCall(pair.children[0].text.clone(), args))
            } else {
                let list = &pair.children[1].children;
                let mut args: Vec<SeppoExpr> = Vec::new();
                let mut i: usize = 0;
                assert(models_of(args@) =~= Seq::<Expr>::empty());
                while i < list.len()
                    invariant
                        i <= list.len(),
                        pair.children.len() > 1,
                        list == &pair.children[1].children,
                        pair.rule == Rule::FunctionCall,
                        pair@.children[1].children == pair_models(list@),
                        lower_expressions(pair_models(list@), 0, Seq::empty()) == lower_expressions(
                            pair_models(list@),
                            i as int,
                            models_of(args@),
                        ),
                    decreases list.len() - i,
                {
                    let ghost before = models_of(args@);
                    let arg = parse_expression(&list[i])?;
                    args.push(arg);
                    assert(models_of(args@) =~= before.push(arg@));
                    i += 1;
                }
                Ok(SeppoExpr::FunctionCall(pair.children[0].text.clone(), args))
            }
        },
        _ => Err(malformed_tree("Unexpected rule in expression")),
    }
}

/// Builds the syntax tree of a pair that holds a left operand, an
/// operator and a right operand: an operation or a condition.
pub fn parse_condition(pair: &Pair) -> (r: Result<SeppoExpr, CompileError>)
    ensures
        lowered(r, lower_operation(pair@)),
    decreases pair, 0nat,
{
    proof {
        lemma_pair_model(*pair);
        if pair.children@.len() > 0 {
            lemma_pair_model(pair.children@[0]);
        }
        if pair.children@.len() > 1 {
            lemma_pair_model(pair.children@[1]);
        }
        if pair.children@.len() > 2 {
            lemma_pair_model(pair.children@[2]);
        }
    }
    if pair.children.len() < 3 {
        return Err(malformed_tree("Expected two operands and an operator"));
    }
    let left = parse_expression(&pair.children[0])?;
    let right = parse_expression(&pair.children[2])?;
    Ok(SeppoExpr::Operation(pair.children[1].text.clone(), Box::new(left), Box::new(right)))
}

/// Builds the syntax tree of an assignment.
pub fn parse_assignment(pair: &Pair) -> (r: Result<SeppoExpr, CompileError>)
    ensures
        lowered(r, lower_assignment(pair@)),
{
    proof {
        lemma_pair_model(*pair);
        if pair.children@.len() > 0 {
            lemma_pair_model(pair.children@[0]);
        }
        if pair.children@.len() > 1 {
            lemma_pair_model(pair.children@[1]);
        }
        if pair.children@.len() > 2 {
            lemma_pair_model(pair.children@[2]);
        }
    }
    if pair.children.len() < 2 {
        return Err(malformed_tree("Expected a variable and a value"));
    }
    let value = parse_expression(&pair.children[1])?;
    Ok(SeppoExpr::Assignment(pair.children[0].text.clone(), Box::new(value)))
}

/// Builds the syntax tree of a print statement.
pub fn parse_print(pair: &Pair) -> (r: Result<SeppoExpr, CompileError>)
    ensures
        lowered(r, lower_print(pair@)),
{
    proof {
        lemma_pair_model(*pair);
        if pair.children@.len() > 0 {
            lemma_pair_model(pair.children@[0]);
        }
        if pair.children@.len() > 1 {
            lemma_pair_model(pair.children@[1]);
        }
        if pair.children@.len() > 2 {
            lemma_pair_model(pair.children@[2]);
        }
    }
    if pair.children.len() == 0 {
        return Err(malformed_tree("Expected print command"));
    }
    if pair.children.len() == 1 {
        return Err(malformed_tree("Expected expression to print"));
    }
    if pair.children[1].children.len() == 0 {
        return Err(malformed_tree("Empty print expression"));
    }
    let format = if text_is(&pair.children[0].text, "0xseppo") {
        PrintFormat::Hex
    } else {
        PrintFormat::Decimal
    };
    let value = parse_expression(&pair.children[1].children[0])?;
    Ok(SeppoExpr::Print(format, Box::new(value)))
}

/// Builds the syntax tree of a statement.
pub fn parse_statement(pair: &Pair) -> (r: Result<SeppoExpr, CompileError>)
    ensures
        lowered(r, lower_statement(pair@)),
    decreases pair, 2nat,
{
    proof {
        lemma_pair_model(*pair);
        if pair.children@.len() > 0 {
            lemma_pair_model(pair.children@[0]);
        }
        if pair.children@.len() > 1 {
            lemma_pair_model(pair.children@[1]);
        }
        if pair.children@.len() > 2 {
            lemma_pair_model(pair.children@[2]);
        }
    }
    match pair.rule {
        Rule::Statement => {
            if pair.children.len() > 0 {
                parse_statement(&pair.children[0])
            } else {
                Err(malformed_tree("Empty statement"))
            }
        },
        Rule::ConditionalBlock => parse_conditional_block(pair),
        Rule::PrintStmt => parse_print(pair),
        Rule::Assignment => parse_assignment(pair),
        Rule::Expression => parse_expression(pair),
        Rule::ReturnStmt => {
            if pair.children.len() > 0 {
                let value = parse_expression(&pair.children[0])?;
                Ok(SeppoExpr::Return(Box::new(value)))
            } else {
                Err(malformed_tree("Expected return value"))
            }
        },
        _ => Err(malformed_tree("Unexpected rule in statement")),
    }
}

/// Builds the syntax tree of a conditional.
pub fn parse_conditional_block(pair: &Pair) -> (r: Result<SeppoExpr, CompileError>)
    ensures
        lowered(r, lower_conditional(pair@)),
    decreases pair, 0nat,
{
    proof {
        lemma_pair_model(*pair);
        if pair.children@.len() > 0 {
            lemma_pair_model(pair.children@[0]);
        }
        if pair.children@.len() > 1 {
            lemma_pair_model(pair.children@[1]);
        }
        if pair.children@.len() > 2 {
            lemma_pair_model(pair.children@[2]);
        }
    }
    if pair.children.len() == 0 {
        return Err(malformed_tree("Expected condition"));
    }
    if pair.children.len() == 1 {
        return Err(malformed_tree("Expected true block"));
    }
    let condition = parse_condition(&pair.children[0])?;
    let true_block = parse_block(&pair.children[1])?;
    let false_block = if pair.children.len() == 2 {
        None
    } else {
        Some(Box::new(parse_block(&pair.children[2])?))
    };
    Ok(
        SeppoExpr::Conditional {
            condition: Box::new(condition),
            true_block: Box::new(true_block),
            false_block,
        },
    )
}

/// Builds the syntax tree of a block.
pub fn parse_block(pair: &Pair) -> (r: Result<SeppoExpr, CompileError>)
    ensures
        lowered(r, lower_block(pair@)),
    decreases pair, 0nat,
{
    proof {
        lemma_pair_model(*pair);
        if pair.children@.len() > 0 {
            lemma_pair_model(pair.children@[0]);
        }
        if pair.children@.len() > 1 {
            lemma_pair_model(pair.children@[1]);
        }
        if pair.children@.len() > 2 {
            lemma_pair_model(pair.children@[2]);
        }
    }
    let list = &pair.children;
    let mut statements: Vec<SeppoExpr> = Vec::new();
    let mut i: usize = 0;
    assert(models_of(statements@) =~= Seq::<Expr>::empty());
    while i < list.len()
        invariant
            i <= list.len(),
            list == &pair.children,
            pair@.children == pair_models(list@),
            lower_statements(pair_models(list@), 0, Seq::empty()) == lower_statements(
                pair_models(list@),
                i as int,
                models_of(statements@),
            ),
        decreases list.len() - i,
    {
        let ghost before = models_of(statements@);
        let statement = parse_statement(&list[i])?;
        statements.push(statement);
        assert(models_of(statements@) =~= before.push(statement@));
        i += 1;
    }
    Ok(SeppoExpr::Block(statements))
}

/// Builds the syntax tree of a function definition.
pub fn parse_function(pair: &Pair) -> (r: Result<SeppoExpr, CompileError>)
    ensures
        lowered(r, lower_function(pair@)),
{
    proof {
        lemma_pair_model(*pair);
        if pair.children@.len() > 0 {
            lemma_pair_model(pair.children@[0]);
        }
        if pair.children@.len() > 1 {
            lemma_pair_model(pair.children@[1]);
        }
        if pair.children@.len() > 2 {
            lemma_pair_model(pair.children@[2]);
        }
    }
    if pair.children.len() == 0 {
        return Err(malformed_tree("Expected function name"));
    }
    if pair.children.len() == 1 || pair.children[1].rule != Rule::Block {
        return Err(malformed_tree("Expected function body"));
    }
    let body = parse_block(&pair.children[1])?;
    let params: Vec<String> = Vec::new();
    assert(params@.map_values(|p: String| p@) =~= Seq::<Seq<char>>::empty());
    Ok(SeppoExpr::Function(pair.children[0].text.clone(), params, Box::new(body)))
}

proof fn lemma_has_entry_push(items: Seq<Expr>, e: Expr)
    ensures
        has_entry(items.push(e)) <==> has_entry(items) || is_entry(e),
{
    let longer = items.push(e);
    if has_entry(items) {
        let i = choose|i: int| 0 <= i < items.len() && is_entry(#[trigger] items[i]);
        assert(is_entry(longer[i]));
    }
    if is_entry(e) {
        assert(is_entry(longer[items.len() as int]));
    }
    if has_entry(longer) {
        let i = choose|i: int| 0 <= i < longer.len() && is_entry(#[trigger] longer[i]);
        if i < items.len() {
            assert(is_entry(items[i]));
        }
    }
}

/// Builds the syntax tree of a top-level item and appends it to `items`;
/// a pair that is neither a function nor a foreign block adds nothing.
fn parse_item(pair: &Pair, items: &mut Vec<SeppoExpr>) -> (r: Result<(), CompileError>)
    ensures
        match lower_item(pair@) {
            Some(Ok(e)) => r is Ok && models_of(final(items)@) == models_of(old(items)@).push(e),
            Some(Err(e)) => r is Err && r->Err_0@ == e,
            None => r is Ok && models_of(final(items)@) == models_of(old(items)@),
        },
{
    proof {
        lemma_pair_model(*pair);
    }
    let ghost before = models_of(items@);
    match pair.rule {
        Rule::Function => {
            let function = parse_function(pair)?;
            items.push(function);
            assert(models_of(items@) =~= before.push(function@));
            Ok(())
        },
        Rule::ExternBlock => {
            let mut i: usize = 0;
            while i < pair.children.len()
                invariant
                    i <= pair.children.len(),
                    pair@.children == pair_models(pair.children@),
                    foreign_code(pair@.children, 0) == foreign_code(pair@.children, i as int),
                    before == models_of(items@),
                    before == models_of(old(items)@),
                    pair@.rule == Rule::ExternBlock,
                decreases pair.children.len() - i,
            {
                proof {
                    lemma_pair_model(pair.children@[i as int]);
                }
                assert(pair@.children[i as int] == pair.children@[i as int]@);
                if pair.children[i].rule == Rule::CCode {
                    let code = trimmed(pair.children[i].text.as_str()).to_owned();
                    items.push(SeppoExpr::InlineC(code));
                    assert(models_of(items@) =~= before.push(Expr::InlineC(code@)));
                    assert(foreign_code(pair@.children, i as int) == Some(pair@.children[i as int]));
                    return Ok(());
                }
                i += 1;
            }
            Err(CompileError::MalformedForeignBlock)
        },
        _ => {
            assert(models_of(items@) =~= before);
            Ok(())
        },
    }
}

/// Builds the syntax tree of a program from the pairs that the grammar
/// found at the top of a source text. The program is the block of its
/// functions and foreign blocks, in the order of the source. Fails if the
/// tree is malformed, and with `MissingEntryPoint` if no function of the
/// program is the entry function.
pub fn parse_program(pairs: &Vec<Pair>) -> (r: Result<SeppoExpr, CompileError>)
    ensures
        lowered(r, lower_program(pair_models(pairs@))),
{
    let mut functions: Vec<SeppoExpr> = Vec::new();
    let mut has_main = false;
    let ghost tree = pair_models(pairs@);
    assert(models_of(functions@) =~= Seq::<Expr>::empty());
    let mut i: usize = 0;
    while i < pairs.len()
        invariant
            i <= pairs.len(),
            tree == pair_models(pairs@),
            has_main == has_entry(models_of(functions@)),
            lower_programs(tree, 0, Seq::empty()) == lower_programs(
                tree,
                i as int,
                models_of(functions@),
            ),
        decreases pairs.len() - i,
    {
        let pair = &pairs[i];
        proof {
            lemma_pair_model(*pair);
        }
        if pair.rule == Rule::Program {
            let ghost start = models_of(functions@);
            let mut k: usize = 0;
            while k < pair.children.len()
                invariant
                    k <= pair.children.len(),
                    pair@.children == pair_models(pair.children@),
                    has_main == has_entry(models_of(functions@)),
                    0 <= i < tree.len(),
                    tree == pair_models(pairs@),
                    tree[i as int] == pair@,
                    pair@.rule == Rule::Program,
                    lower_programs(tree, 0, Seq::empty()) == lower_programs(tree, i as int, start),
                    lower_items(pair@.children, 0, start) == lower_items(
                        pair@.children,
                        k as int,
                        models_of(functions@),
                    ),
                decreases pair.children.len() - k,
            {
                let ghost before = models_of(functions@);
                assert(pair@.children[k as int] == pair.children@[k as int]@);
                parse_item(&pair.children[k], &mut functions)?;
                let n = functions.len();
                if n > 0 {
                    proof {
                        if models_of(functions@) != before {
                            lemma_has_entry_push(before, models_of(functions@).last());
                            assert(models_of(functions@) =~= before.push(
                                models_of(functions@).last(),
                            ));
                        }
                    }
                    if let SeppoExpr::Function(name, _, _) = &functions[n - 1] {
                        if text_is(name, "seppo") {
                            has_main = true;
                        }
                    }
                }
                k += 1;
            }
        }
        i += 1;
    }
    if !has_main {
        return Err(CompileError::MissingEntryPoint);
    }
    Ok(SeppoExpr::Block(functions))
}

/// The parser of the language: it applies the grammar to a source text.
#[derive(Debug)]
pub struct SeppoParser;

/// Whether `r` is what the grammar makes of `text`: the pairs at the top of
/// the parse tree, which are one pair for the program, or `SyntaxError`
/// with the position at which the text stops being a program.
pub open spec fn applied(r: Result<Vec<Pair>, CompileError>, text: Seq<char>) -> bool {
    match program(text) {
        Ok(tree) => r is Ok && pair_models(r->Ok_0@) == seq![tree],
        Err(at) => r is Err && r->Err_0@ == CompileErrorView::SyntaxError(at),
    }
}

impl SeppoParser {
    /// Applies the grammar to `input`.
    pub fn parse(input: &str) -> (r: Result<Vec<Pair>, CompileError>)
        ensures
            applied(r, input@),
    {
        let source = Source::new(input);
        match source.program() {
            Ok(tree) => {
                let mut pairs: Vec<Pair> = Vec::new();
                pairs.push(tree);
                assert(pair_models(pairs@) =~= seq![tree@]);
                Ok(pairs)
            },
            Err(at) => Err(CompileError::SyntaxError(at)),
        }
    }
}

/// Parses a source text: applies the grammar and builds the syntax tree
/// of the program. Fails with `SyntaxError` if the text is no program, and
/// with `MissingEntryPoint` if no function of the program is the entry
/// function.
pub fn parse_seppo(input: &str) -> (r: Result<SeppoExpr, CompileError>)
    ensures
        lowered(r, parse(input@)),
{
    let pairs = SeppoParser::parse(input)?;
    parse_program(&pairs)
}

} // verus!
