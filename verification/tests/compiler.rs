use trentlang::{generate_llvm_ir, lex, parse, BinaryOp, Expr, Program, Stmt, TokenKind};

#[test]
fn lexer_tokenizes_basic_program() {
    let tokens = lex("int main() { print(7); return 0; }").unwrap();
    let kinds: Vec<TokenKind> = tokens.into_iter().map(|token| token.kind().clone()).collect();
    assert_eq!(
        kinds,
        vec![
            TokenKind::Int,
            TokenKind::Ident("main".to_string()),
            TokenKind::LParen,
            TokenKind::RParen,
            TokenKind::LBrace,
            TokenKind::Print,
            TokenKind::LParen,
            TokenKind::Number(7),
            TokenKind::RParen,
            TokenKind::Semicolon,
            TokenKind::Return,
            TokenKind::Number(0),
            TokenKind::Semicolon,
            TokenKind::RBrace,
            TokenKind::Eof,
        ]
    );
}

#[test]
fn parser_respects_arithmetic_precedence() {
    let program = parse("int main() { return 1 + 2 * 3; }").unwrap();
    assert_eq!(
        program,
        Program {
            statements: vec![Stmt::Return(Expr::Binary {
                op: BinaryOp::Add,
                left: Box::new(Expr::Number(1)),
                right: Box::new(Expr::Binary {
                    op: BinaryOp::Mul,
                    left: Box::new(Expr::Number(2)),
                    right: Box::new(Expr::Number(3)),
                }),
            })],
        }
    );
}

#[test]
fn parser_rejects_missing_semicolon() {
    let err = parse("int main() { print(7) return 0; }").unwrap_err();
    assert!(err.message.contains("expected ';'"));
}

#[test]
fn parser_rejects_non_main_entry_point() {
    let err = parse("int not_main() { return 0; }").unwrap_err();
    assert!(err.message.contains("main"));
}

#[test]
fn codegen_emits_llvm_for_print_and_return() {
    let program = parse("int main() { print(1 + 2 * 3); return 5; }").unwrap();
    let ir = generate_llvm_ir(&program);
    assert!(ir.contains("declare i32 @printf(ptr, ...)"));
    assert!(ir.contains("mul i32 2, 3"));
    assert!(ir.contains("add i32 1, %t0"));
    assert!(ir.contains("call i32 (ptr, ...) @printf"));
    assert!(ir.contains("ret i32 5"));
}
