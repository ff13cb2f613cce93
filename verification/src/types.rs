//! The abstract syntax tree of a program.

use vstd::prelude::*;

verus! {

/// How a print statement renders its value.
#[derive(Debug, Clone, Copy, PartialEq, Eq, Structural)]
pub enum PrintFormat {
    Decimal,
    Hex,
}

/// One node of the syntax tree.
#[derive(Debug, PartialEq, Eq)]
pub enum SeppoExpr {
    Number(i64),
    String(String),
    Variable(String),
    Operation(String, Box<SeppoExpr>, Box<SeppoExpr>),
    Assignment(String, Box<SeppoExpr>),
    Print(PrintFormat, Box<SeppoExpr>),
    Block(Vec<SeppoExpr>),
    Function(String, Vec<String>, Box<SeppoExpr>),
    FunctionCall(String, Vec<SeppoExpr>),
    Return(Box<SeppoExpr>),
    InlineC(String),
    Conditional {
        condition: Box<SeppoExpr>,
        true_block: Box<SeppoExpr>,
        false_block: Option<Box<SeppoExpr>>,
    },
}

/// The mathematical model of a [`SeppoExpr`]: the same tree over
/// sequences of characters and sequences of nodes.
pub enum Expr {
    Number(i64),
    String(Seq<char>),
    Variable(Seq<char>),
    Operation(Seq<char>, Box<Expr>, Box<Expr>),
    Assignment(Seq<char>, Box<Expr>),
    Print(PrintFormat, Box<Expr>),
    Block(Seq<Expr>),
    Function(Seq<char>, Seq<Seq<char>>, Box<Expr>),
    FunctionCall(Seq<char>, Seq<Expr>),
    Return(Box<Expr>),
    InlineC(Seq<char>),
    Conditional { condition: Box<Expr>, true_block: Box<Expr>, false_block: Option<Box<Expr>> },
}

/// The model of a node.
pub open spec fn model_of(e: SeppoExpr) -> Expr
    decreases e,
{
    match e {
        SeppoExpr::Number(n) => Expr::Number(n),
        SeppoExpr::String(s) => Expr::String(s@),
        SeppoExpr::Variable(name) => Expr::Variable(name@),
        SeppoExpr::Operation(op, left, right) => Expr::Operation(
            op@,
            Box::new(model_of(*left)),
            Box::new(model_of(*right)),
        ),
        SeppoExpr::Assignment(name, value) => Expr::Assignment(name@, Box::new(model_of(*value))),
        SeppoExpr::Print(format, value) => Expr::Print(format, Box::new(model_of(*value))),
        SeppoExpr::Block(items) => Expr::Block(models_of(items@)),
        SeppoExpr::Function(name, params, body) => Expr::Function(
            name@,
            params@.map_values(|p: String| p@),
            Box::new(model_of(*body)),
        ),
        SeppoExpr::FunctionCall(name, args) => Expr::FunctionCall(name@, models_of(args@)),
        SeppoExpr::Return(value) => Expr::Return(Box::new(model_of(*value))),
        SeppoExpr::InlineC(code) => Expr::InlineC(code@),
        SeppoExpr::Conditional { condition, true_block, false_block } => Expr::Conditional {
            condition: Box::new(model_of(*condition)),
            true_block: Box::new(model_of(*true_block)),
            false_block: match false_block {
                Some(f) => Some(Box::new(model_of(*f))),
                None => None,
            },
        },
    }
}

/// The models of a sequence of nodes, in order.
pub open spec fn models_of(items: Seq<SeppoExpr>) -> Seq<Expr>
    decreases items,
{
    Seq::new(items.len(), |i: int| if 0 <= i < items.len() { model_of(items[i]) } else { arbitrary() })
}

impl View for SeppoExpr {
    type V = Expr;

    open spec fn view(&self) -> Expr {
        model_of(*self)
    }
}

/// A copy of a list of nodes.
fn clone_all(items: &Vec<SeppoExpr>) -> (copy: Vec<SeppoExpr>)
    ensures
        models_of(copy@) == models_of(items@),
    decreases items,
{
    let mut copy: Vec<SeppoExpr> = Vec::new();
    let mut i: usize = 0;
    while i < items.len()
        invariant
            i <= items.len(),
            copy@.len() == i,
            forall|j: int| 0 <= j < i ==> model_of(#[trigger] copy@[j]) == model_of(items@[j]),
        decreases items.len() - i,
    {
        copy.push(clone_node(&items[i]));
        i += 1;
    }
    assert(models_of(copy@) =~= models_of(items@));
    copy
}

/// A copy of a node.
fn clone_node(e: &SeppoExpr) -> (copy: SeppoExpr)
    ensures
        copy@ == e@,
    decreases e,
{
    match e {
        SeppoExpr::Number(n) => SeppoExpr::Number(*n),
        SeppoExpr::String(s) => SeppoExpr::String(s.clone()),
        SeppoExpr::Variable(name) => SeppoExpr::Variable(name.clone()),
        SeppoExpr::Operation(op, left, right) => SeppoExpr::Operation(
            op.clone(),
            Box::new(clone_node(left)),
            Box::new(clone_node(right)),
        ),
        SeppoExpr::Assignment(name, value) => SeppoExpr::Assignment(
            name.clone(),
            Box::new(clone_node(value)),
        ),
        SeppoExpr::Print(format, value) => SeppoExpr::Print(*format, Box::new(clone_node(value))),
        SeppoExpr::Block(items) => SeppoExpr::Block(clone_all(items)),
        SeppoExpr::Function(name, params, body) => {
            let mut names: Vec<String> = Vec::new();
            let mut i: usize = 0;
            while i < params.len()
                invariant
                    i <= params.len(),
                    names@.map_values(|p: String| p@) =~= params@.map_values(|p: String| p@).take(
                        i as int,
                    ),
                decreases params.len() - i,
            {
                let ghost before = names@.map_values(|p: String| p@);
                let name = params[i].clone();
                names.push(name);
                proof {
                    let all = params@.map_values(|p: String| p@);
                    assert(names@.map_values(|p: String| p@) =~= before.push(name@));
                    assert(all.take(i + 1) =~= all.take(i as int).push(name@));
                }
                i += 1;
            }
            assert(params@.map_values(|p: String| p@).take(params@.len() as int)
                =~= params@.map_values(|p: String| p@));
            SeppoExpr::Function(name.clone(), names, Box::new(clone_node(body)))
        },
        SeppoExpr::FunctionCall(name, args) => SeppoExpr::FunctionCall(
            name.clone(),
            clone_all(args),
        ),
        SeppoExpr::Return(value) => SeppoExpr::Return(Box::new(clone_node(value))),
        SeppoExpr::InlineC(code) => SeppoExpr::InlineC(code.clone()),
        SeppoExpr::Conditional { condition, true_block, false_block } => SeppoExpr::Conditional {
            condition: Box::new(clone_node(condition)),
            true_block: Box::new(clone_node(true_block)),
            false_block: match false_block {
                Some(f) => Some(Box::new(clone_node(f))),
                None => None,
            },
        },
    }
}

impl Clone for SeppoExpr {
    fn clone(&self) -> (copy: Self)
        ensures
            copy@ == self@,
    {
        clone_node(self)
    }
}

} // verus!
