//! A compiler for Trentlang, a tiny C-like language with a single `int main()`,
//! integer expressions, `print(expr);` and `return expr;`, to LLVM IR.
pub mod ast;
pub mod codegen;
pub mod error;
pub mod ir_laws;
pub mod lexer;
pub mod lexer_laws;
pub mod parser;
pub mod roundtrip;
pub mod text;

pub use crate::ast::{BinaryOp, Expr, Program, Stmt};
pub use crate::codegen::generate_llvm_ir;
pub use crate::error::CompileError;
pub use crate::lexer::{lex, Token, TokenKind};
pub use crate::parser::parse;

use vstd::prelude::*;

use crate::codegen::spec_ir;
use crate::error::SpecError;
use crate::parser::spec_parse;

verus! {

/// Compiles a source text to the text of its LLVM IR module, or returns the
/// first lexical or syntax error.
pub fn compile_source(source: &str) -> (r: Result<String, CompileError>)
    requires
        source@.len() < usize::MAX,
    ensures
        r matches Ok(ir) ==> spec_parse(source@) matches Ok(p) && ir@ == spec_ir(p),
        r matches Err(e) ==> spec_parse(source@) == Err::<Seq<Stmt>, SpecError>(e@),
{
    let program = match parse(source) {
        Ok(p) => p,
        Err(e) => {
            return Err(e);
        },
    };
    Ok(generate_llvm_ir(&program))
}

} // verus!
