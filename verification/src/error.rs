//! What can go wrong between a syntax tree and an executable.

use vstd::prelude::*;

verus! {

/// A fatal error. Each one aborts the whole compilation: nothing is
/// retried and no partial result is kept.
#[derive(Debug, PartialEq, Eq)]
pub enum CompileError {
    /// A variable was read before anything was assigned to it.
    UndefinedVariable(String),
    /// A call names a function that has not been declared yet.
    UndefinedFunction(String),
    /// A binary operation carries an operator that is none of
    /// `+ - * / > < >= <= == !=`.
    UnknownOperator(String),
    /// A conditional stands outside any function body.
    ConditionalOutsideFunction,
    /// A return stands outside any function body.
    ReturnOutsideFunction,
    /// Code that needs an instruction stands outside any function body.
    CodeOutsideFunction,
    /// The program defines no entry function.
    MissingEntryPoint,
    /// The source text is no program: at the position of the payload,
    /// counted in characters, it goes on with something that is neither a
    /// function nor a foreign block.
    SyntaxError(usize),
    /// A foreign block of the parse tree holds no code.
    MalformedForeignBlock,
    /// The parse tree does not have the shape of a program; the payload
    /// says what was missing.
    MalformedTree(String),
    /// The generated module breaks the structural rules of the
    /// intermediate representation.
    InconsistentModule,
    /// The external compiler rejected a foreign block; the payload is what
    /// it printed.
    ForeignCompilation(String),
    /// The external linker failed; the payload is what it printed.
    Link(String),
}

/// The mathematical model of a [`CompileError`].
pub enum CompileErrorView {
    UndefinedVariable(Seq<char>),
    UndefinedFunction(Seq<char>),
    UnknownOperator(Seq<char>),
    ConditionalOutsideFunction,
    ReturnOutsideFunction,
    CodeOutsideFunction,
    MissingEntryPoint,
    SyntaxError(int),
    MalformedForeignBlock,
    MalformedTree(Seq<char>),
    InconsistentModule,
    ForeignCompilation(Seq<char>),
    Link(Seq<char>),
}

impl View for CompileError {
    type V = CompileErrorView;

    open spec fn view(&self) -> CompileErrorView {
        match self {
            CompileError::UndefinedVariable(name) => CompileErrorView::UndefinedVariable(name@),
            CompileError::UndefinedFunction(name) => CompileErrorView::UndefinedFunction(name@),
            CompileError::UnknownOperator(op) => CompileErrorView::UnknownOperator(op@),
            CompileError::ConditionalOutsideFunction => CompileErrorView::ConditionalOutsideFunction,
            CompileError::ReturnOutsideFunction => CompileErrorView::ReturnOutsideFunction,
            CompileError::CodeOutsideFunction => CompileErrorView::CodeOutsideFunction,
            CompileError::MissingEntryPoint => CompileErrorView::MissingEntryPoint,
            CompileError::SyntaxError(at) => CompileErrorView::SyntaxError(*at as int),
            CompileError::MalformedForeignBlock => CompileErrorView::MalformedForeignBlock,
            CompileError::MalformedTree(what) => CompileErrorView::MalformedTree(what@),
            CompileError::InconsistentModule => CompileErrorView::InconsistentModule,
            CompileError::ForeignCompilation(text) => CompileErrorView::ForeignCompilation(text@),
            CompileError::Link(text) => CompileErrorView::Link(text@),
        }
    }
}

/// The decimal digit for `d`.
pub open spec fn digit(d: int) -> char {
    if d == 0 {
        '0'
    } else if d == 1 {
        '1'
    } else if d == 2 {
        '2'
    } else if d == 3 {
        '3'
    } else if d == 4 {
        '4'
    } else if d == 5 {
        '5'
    } else if d == 6 {
        '6'
    } else if d == 7 {
        '7'
    } else if d == 8 {
        '8'
    } else {
        '9'
    }
}

/// The natural number `n` in decimal digits, without leading zeros.
pub open spec fn decimal(n: int) -> Seq<char>
    decreases n,
{
    if n < 10 {
        seq![digit(n)]
    } else {
        decimal(n / 10).push(digit(n % 10))
    }
}

fn digit_text(d: usize) -> (r: &'static str)
    requires
        d < 10,
    ensures
        r@ == seq![digit(d as int)],
{
    proof {
        reveal_strlit("0");
        reveal_strlit("1");
        reveal_strlit("2");
        reveal_strlit("3");
        reveal_strlit("4");
        reveal_strlit("5");
        reveal_strlit("6");
        reveal_strlit("7");
        reveal_strlit("8");
        reveal_strlit("9");
    }
    let r = if d == 0 {
        "0"
    } else if d == 1 {
        "1"
    } else if d == 2 {
        "2"
    } else if d == 3 {
        "3"
    } else if d == 4 {
        "4"
    } else if d == 5 {
        "5"
    } else if d == 6 {
        "6"
    } else if d == 7 {
        "7"
    } else if d == 8 {
        "8"
    } else {
        "9"
    };
    assert(r@ =~= seq![digit(d as int)]);
    r
}

/// Writes `n` in decimal digits.
pub fn decimal_text(n: usize) -> (r: String)
    ensures
        r@ == decimal(n as int),
    decreases n,
{
    if n < 10 {
        String::from_str(digit_text(n))
    } else {
        let front = decimal_text(n / 10);
        let ghost before = front@;
        let r = front.concat(digit_text(n % 10));
        assert(r@ =~= before.push(digit((n % 10) as int)));
        r
    }
}

impl CompileErrorView {
    /// The text of the diagnostic.
    pub open spec fn message(self) -> Seq<char> {
        match self {
            CompileErrorView::UndefinedVariable(name) => "Undefined variable: "@ + name,
            CompileErrorView::UndefinedFunction(name) => "Undefined function: "@ + name,
            CompileErrorView::UnknownOperator(op) => "Unknown operator: "@ + op,
            CompileErrorView::ConditionalOutsideFunction => "Conditional block outside of function"@,
            CompileErrorView::ReturnOutsideFunction => "Return statement outside of function"@,
            CompileErrorView::CodeOutsideFunction => "Code outside of function"@,
            CompileErrorView::MissingEntryPoint => "No seppo function found"@,
            CompileErrorView::SyntaxError(at) => "Syntax error at character "@ + decimal(at),
            CompileErrorView::MalformedForeignBlock => "Expected C code in ceppo block"@,
            CompileErrorView::MalformedTree(what) => what,
            CompileErrorView::InconsistentModule => "Module verification failed"@,
            CompileErrorView::ForeignCompilation(text) => "Failed to compile C code: "@ + text,
            CompileErrorView::Link(text) => "Linking failed: "@ + text,
        }
    }
}

impl CompileError {
    /// The text of the diagnostic: what went wrong and, where there is one,
    /// the name or operator at fault.
    pub fn message(&self) -> (text: String)
        ensures
            text@ == self@.message(),
    {
        match self {
            CompileError::UndefinedVariable(name) => String::from_str("Undefined variable: ").concat(
                name.as_str(),
            ),
            CompileError::UndefinedFunction(name) => String::from_str("Undefined function: ").concat(
                name.as_str(),
            ),
            CompileError::UnknownOperator(op) => String::from_str("Unknown operator: ").concat(
                op.as_str(),
            ),
            CompileError::ConditionalOutsideFunction => String::from_str(
                "Conditional block outside of function",
            ),
            CompileError::ReturnOutsideFunction => String::from_str(
                "Return statement outside of function",
            ),
            CompileError::CodeOutsideFunction => String::from_str("Code outside of function"),
            CompileError::MissingEntryPoint => String::from_str("No seppo function found"),
            CompileError::SyntaxError(at) => String::from_str("Syntax error at character ").concat(
                decimal_text(*at).as_str(),
            ),
            CompileError::MalformedForeignBlock => String::from_str(
                "Expected C code in ceppo block",
            ),
            CompileError::MalformedTree(what) => what.clone(),
            CompileError::InconsistentModule => String::from_str("Module verification failed"),
            CompileError::ForeignCompilation(text) => String::from_str(
                "Failed to compile C code: ",
            ).concat(text.as_str()),
            CompileError::Link(text) => String::from_str("Linking failed: ").concat(text.as_str()),
        }
    }
}

} // verus!
