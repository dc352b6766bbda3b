use trentlang::{compile_source, generate_llvm_ir, lex, parse, BinaryOp, Expr, Program, Stmt, TokenKind};

fn kinds(source: &str) -> Vec<TokenKind> {
    lex(source).unwrap().into_iter().map(|t| t.kind().clone()).collect()
}

fn num(v: i32) -> Box<Expr> {
    Box::new(Expr::Number(v))
}

#[test]
fn lexer_tracks_lines_and_columns() {
    let tokens = lex("int main() {\n  return 42;\n}").unwrap();
    let positions: Vec<(usize, usize)> = tokens.iter().map(|t| (t.line(), t.column())).collect();
    assert_eq!(
        positions,
        vec![(1, 1), (1, 5), (1, 9), (1, 10), (1, 12), (2, 3), (2, 10), (2, 12), (3, 1), (3, 2)]
    );
    assert_eq!(tokens.last().unwrap().kind(), &TokenKind::Eof);
}

#[test]
fn lexer_skips_comments_and_blanks() {
    assert_eq!(
        kinds("// a comment\n\t1 // another\r\n/ 2"),
        vec![TokenKind::Number(1), TokenKind::Slash, TokenKind::Number(2), TokenKind::Eof]
    );
    let tokens = lex("// only a comment").unwrap();
    assert_eq!(tokens.len(), 1);
    assert_eq!((tokens[0].line(), tokens[0].column()), (1, 18));
}

#[test]
fn lexer_reads_identifiers_and_keywords() {
    assert_eq!(
        kinds("int integer _x9 return print printer"),
        vec![
            TokenKind::Int,
            TokenKind::Ident("integer".to_string()),
            TokenKind::Ident("_x9".to_string()),
            TokenKind::Return,
            TokenKind::Print,
            TokenKind::Ident("printer".to_string()),
            TokenKind::Eof,
        ]
    );
}

#[test]
fn lexer_reads_every_operator() {
    assert_eq!(
        kinds("+-*/(){};"),
        vec![
            TokenKind::Plus,
            TokenKind::Minus,
            TokenKind::Star,
            TokenKind::Slash,
            TokenKind::LParen,
            TokenKind::RParen,
            TokenKind::LBrace,
            TokenKind::RBrace,
            TokenKind::Semicolon,
            TokenKind::Eof,
        ]
    );
}

#[test]
fn lexer_reads_integer_limits() {
    assert_eq!(kinds("2147483647 007"), vec![TokenKind::Number(2147483647), TokenKind::Number(7), TokenKind::Eof]);
    let err = lex("x   2147483648").unwrap_err();
    assert_eq!(err.message, "integer literal must fit in a 32-bit signed int");
    assert_eq!((err.line, err.column), (1, 5));
    let err = lex("\n  99999999999999999999").unwrap_err();
    assert_eq!(err.message, "integer literal is too large");
    assert_eq!((err.line, err.column), (2, 3));
}

#[test]
fn lexer_rejects_unexpected_character() {
    let err = lex("int main() { return 1 % 2; }").unwrap_err();
    assert_eq!(err.message, "unexpected character '%'");
    assert_eq!((err.line, err.column), (1, 23));
    assert_eq!(err.to_string(), "1:23: unexpected character '%'");
    let err = lex("é").unwrap_err();
    assert_eq!(err.message, "unexpected character 'é'");
}

#[test]
fn lexer_empty_source_is_only_eof() {
    let tokens = lex("").unwrap();
    assert_eq!(tokens.len(), 1);
    assert_eq!(tokens[0].kind(), &TokenKind::Eof);
    assert_eq!((tokens[0].line(), tokens[0].column()), (1, 1));
}

#[test]
fn parser_subtraction_associates_left() {
    let program = parse("int main() { return 10 - 4 - 3; }").unwrap();
    assert_eq!(
        program.statements,
        vec![Stmt::Return(Expr::Binary {
            op: BinaryOp::Sub,
            left: Box::new(Expr::Binary { op: BinaryOp::Sub, left: num(10), right: num(4) }),
            right: num(3),
        })]
    );
}

#[test]
fn parser_handles_parentheses_and_unary_minus() {
    let program = parse("int main() { print(-(1 + 2) / --3); }").unwrap();
    assert_eq!(
        program,
        Program {
            statements: vec![Stmt::Print(Expr::Binary {
                op: BinaryOp::Div,
                left: Box::new(Expr::UnaryMinus(Box::new(Expr::Binary {
                    op: BinaryOp::Add,
                    left: num(1),
                    right: num(2),
                }))),
                right: Box::new(Expr::UnaryMinus(Box::new(Expr::UnaryMinus(num(3))))),
            })],
        }
    );
}

#[test]
fn parser_accepts_empty_main() {
    let program = parse("int main() { }").unwrap();
    assert!(program.statements.is_empty());
}

#[test]
fn parser_errors_carry_positions() {
    let cases: Vec<(&str, &str, usize, usize)> = vec![
        ("main() {}", "expected 'int' before main", 1, 1),
        ("int not_main() { return 0; }", "expected entry point named 'main'", 1, 5),
        ("int main) {}", "expected '(' after main", 1, 9),
        ("int main( {}", "expected ')' after main(", 1, 11),
        ("int main() return 0;", "expected '{' before main body", 1, 12),
        ("int main() { return 0;", "expected '}' before end of file", 1, 23),
        ("int main() { } }", "unexpected tokens after main function", 1, 16),
        ("int main() { print 1; }", "expected '(' after print", 1, 20),
        ("int main() { print(1; }", "expected ')' after print expression", 1, 21),
        ("int main() { print(7) return 0; }", "expected ';' after print statement", 1, 23),
        ("int main() { return 0 }", "expected ';' after return statement", 1, 23),
        ("int main() { 1; }", "expected statement: print(expr); or return expr;", 1, 14),
        ("int main() { return (1; }", "expected ')' after expression", 1, 23),
        ("int main() { return +; }", "expected integer literal or parenthesized expression", 1, 21),
    ];
    for (source, message, line, column) in cases {
        let err = parse(source).unwrap_err();
        assert_eq!(err.message, message, "{source}");
        assert_eq!((err.line, err.column), (line, column), "{source}");
    }
}

#[test]
fn codegen_emits_exact_module() {
    let program = parse("int main() { print(1 + 2 * 3); return 5; }").unwrap();
    let ir = generate_llvm_ir(&program);
    let expected = "@.fmt_int = private unnamed_addr constant [4 x i8] c\"%d\\0A\\00\"\n\
\n\
declare i32 @printf(ptr, ...)\n\
\n\
define i32 @main() {\n\
entry:\n  %t0 = mul i32 2, 3\n  %t1 = add i32 1, %t0\n  %t2 = call i32 (ptr, ...) @printf(ptr @.fmt_int, i32 %t1)\n  ret i32 5\n}\n";
    assert_eq!(ir, expected);
}

#[test]
fn codegen_numbers_temporaries_consecutively() {
    let program = parse("int main() { print(-7); print(8 / (9 - 10)); }").unwrap();
    let ir = generate_llvm_ir(&program);
    assert!(ir.contains("  %t0 = sub i32 0, 7\n  %t1 = call i32 (ptr, ...) @printf(ptr @.fmt_int, i32 %t0)\n"));
    assert!(ir.contains("  %t2 = sub i32 9, 10\n  %t3 = sdiv i32 8, %t2\n  %t4 = call i32 (ptr, ...) @printf(ptr @.fmt_int, i32 %t3)\n"));
}

#[test]
fn codegen_returns_zero_without_return() {
    let ir = generate_llvm_ir(&parse("int main() { print(3); }").unwrap());
    assert!(ir.ends_with("  ret i32 0\n}\n"));
    let ir = generate_llvm_ir(&Program { statements: vec![] });
    assert!(ir.ends_with("entry:\n  ret i32 0\n}\n"));
}

#[test]
fn codegen_ignores_statements_after_return() {
    let with_rest = generate_llvm_ir(&parse("int main() { print(1); return 2; print(3); return 4; }").unwrap());
    let without = generate_llvm_ir(&parse("int main() { print(1); return 2; }").unwrap());
    assert_eq!(with_rest, without);
    assert!(!with_rest.contains("ret i32 4"));
}

#[test]
fn codegen_renders_negative_literals() {
    let program = Program {
        statements: vec![
            Stmt::Print(Expr::Number(-2147483648)),
            Stmt::Return(Expr::Number(1234567890)),
        ],
    };
    let ir = generate_llvm_ir(&program);
    assert!(ir.contains("@printf(ptr @.fmt_int, i32 -2147483648)"));
    assert!(ir.contains("  ret i32 1234567890\n"));
}

#[test]
fn compile_source_parses_then_generates() {
    let source = "int main() {\n  // say seven\n  print(7);\n  return 0;\n}\n";
    let ir = compile_source(source).unwrap();
    assert_eq!(ir, generate_llvm_ir(&parse(source).unwrap()));
    let err = compile_source("int main() { print(7) }").unwrap_err();
    assert_eq!(err.to_string(), "1:23: expected ';' after print statement");
}

#[test]
fn trailing_comment_adds_no_tokens() {
    assert_eq!(kinds("print(1 + 2)"), kinds("print(1 + 2)// 3 + ) @"));
    assert_eq!(lex("x % 1").unwrap_err(), lex("x % 1 //y").unwrap_err());
}

#[test]
fn newline_join_moves_second_text_down() {
    let first = lex("int main //\n()").unwrap();
    let second = lex("{ return 7; }").unwrap();
    let joined = lex("int main //\n()\n{ return 7; }").unwrap();
    let mut expected: Vec<(TokenKind, usize, usize)> = first[..first.len() - 1]
        .iter()
        .map(|t| (t.kind().clone(), t.line(), t.column()))
        .collect();
    expected.extend(second.iter().map(|t| (t.kind().clone(), t.line() + 2, t.column())));
    let got: Vec<(TokenKind, usize, usize)> =
        joined.iter().map(|t| (t.kind().clone(), t.line(), t.column())).collect();
    assert_eq!(got, expected);
}

#[test]
fn printed_program_parses_back() {
    let program = Program {
        statements: vec![
            Stmt::Print(Expr::Binary {
                op: BinaryOp::Div,
                left: Box::new(Expr::UnaryMinus(num(12))),
                right: Box::new(Expr::Binary { op: BinaryOp::Sub, left: num(0), right: num(2147483647) }),
            }),
            Stmt::Return(Expr::UnaryMinus(Box::new(Expr::UnaryMinus(num(5))))),
        ],
    };
    let text = "int main() {print((-12 / (0 - 2147483647)));return --5;}";
    assert_eq!(parse(text).unwrap(), program);
}
