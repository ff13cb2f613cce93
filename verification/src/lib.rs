//! A small ahead-of-time compiler core: source text in, SSA-form
//! intermediate representation out.

pub mod codegen;
pub mod consistency;
pub mod driver;
pub mod error;
pub mod foreign;
pub mod grammar;
pub mod interpreter;
pub mod ir;
pub mod laws;
pub mod model;
pub mod parser;
pub mod scope;
pub mod semantics;
pub mod types;

pub use codegen::CodeGen;
pub use parser::parse_seppo;
pub use types::PrintFormat;
pub use types::SeppoExpr;
