//! The parser: a recursive-descent parser from tokens to a [`Program`].
//!
//! Grammar (tokens as produced by the lexer):
//!
//! ```text
//! program        := 'int' 'main' '(' ')' '{' statement* '}' EOF
//! statement      := 'print' '(' expression ')' ';' | 'return' expression ';'
//! expression     := additive
//! additive       := multiplicative (('+' | '-') multiplicative)*
//! multiplicative := unary (('*' | '/') unary)*
//! unary          := '-' unary | primary
//! primary        := NUMBER | '(' expression ')'
//! ```
use vstd::prelude::*;

use crate::ast::{
    expr_temps, lemma_stmts_temps_push, stmt_temps, stmts_temps, BinaryOp, Expr, Program, Stmt,
};
use crate::error::{spec_error, CompileError, SpecError};
use crate::lexer::{
    lemma_lex_well_formed, lex, spec_lex, tokens_view, tokens_well_formed, SpecToken,
    SpecTokenKind, Token, TokenKind,
};

verus! {

/// The kind of token `i` of `ts`; end of file past the end.
pub open spec fn kind_at(ts: Seq<SpecToken>, i: nat) -> SpecTokenKind {
    if i < ts.len() {
        ts[i as int].kind
    } else {
        SpecTokenKind::Eof
    }
}

/// The error `message` at the position of token `i`.
pub open spec fn error_at(ts: Seq<SpecToken>, i: nat, message: Seq<char>) -> SpecError {
    spec_error(message, ts[i as int].line, ts[i as int].column)
}

/// Token `i` must be of kind `k`: the index after it, or the error `message` there.
pub open spec fn expect_at(ts: Seq<SpecToken>, i: nat, k: SpecTokenKind, message: Seq<char>) -> Result<
    nat,
    SpecError,
> {
    if kind_at(ts, i) == k {
        Ok(i + 1)
    } else {
        Err(error_at(ts, i, message))
    }
}

/// An expression parsed at some index, with the index after it.
pub type ExprAt = Result<(Expr, nat), SpecError>;

/// The binary operator of an additive operator token.
pub open spec fn additive_op(k: SpecTokenKind) -> Option<BinaryOp> {
    match k {
        SpecTokenKind::Plus => Some(BinaryOp::Add),
        SpecTokenKind::Minus => Some(BinaryOp::Sub),
        _ => None,
    }
}

/// The binary operator of a multiplicative operator token.
pub open spec fn multiplicative_op(k: SpecTokenKind) -> Option<BinaryOp> {
    match k {
        SpecTokenKind::Star => Some(BinaryOp::Mul),
        SpecTokenKind::Slash => Some(BinaryOp::Div),
        _ => None,
    }
}

/// `left op right`.
pub open spec fn binary(op: BinaryOp, left: Expr, right: Expr) -> Expr {
    Expr::Binary { op, left: Box::new(left), right: Box::new(right) }
}

// Every successful parse consumes at least one token (`lemma_expression_progress`
// and `lemma_statement_progress`); the tests `i < j <= ts.len()` below only make
// that visible to the termination check and always hold.

/// `expression` at token `i`.
pub open spec fn expression_at(ts: Seq<SpecToken>, i: nat) -> ExprAt
    decreases ts.len() - i, 4nat,
{
    additive_at(ts, i)
}

/// `additive` at token `i`.
pub open spec fn additive_at(ts: Seq<SpecToken>, i: nat) -> ExprAt
    decreases ts.len() - i, 3nat,
{
    match multiplicative_at(ts, i) {
        Ok((left, j)) => if i < j <= ts.len() {
            additive_rest(ts, j, left)
        } else {
            Ok((left, j))
        },
        Err(e) => Err(e),
    }
}

/// The operators and operands of `additive` from token `i` on, `left` being
/// what was parsed before (operators associate to the left).
pub open spec fn additive_rest(ts: Seq<SpecToken>, i: nat, left: Expr) -> ExprAt
    decreases ts.len() - i, 0nat,
{
    match additive_op(kind_at(ts, i)) {
        None => Ok((left, i)),
        Some(op) => match multiplicative_at(ts, i + 1) {
            Ok((right, j)) => if i < j <= ts.len() {
                additive_rest(ts, j, binary(op, left, right))
            } else {
                Ok((binary(op, left, right), j))
            },
            Err(e) => Err(e),
        },
    }
}

/// `multiplicative` at token `i`.
pub open spec fn multiplicative_at(ts: Seq<SpecToken>, i: nat) -> ExprAt
    decreases ts.len() - i, 2nat,
{
    match unary_at(ts, i) {
        Ok((left, j)) => if i < j <= ts.len() {
            multiplicative_rest(ts, j, left)
        } else {
            Ok((left, j))
        },
        Err(e) => Err(e),
    }
}

/// The operators and operands of `multiplicative` from token `i` on.
pub open spec fn multiplicative_rest(ts: Seq<SpecToken>, i: nat, left: Expr) -> ExprAt
    decreases ts.len() - i, 0nat,
{
    match multiplicative_op(kind_at(ts, i)) {
        None => Ok((left, i)),
        Some(op) => match unary_at(ts, i + 1) {
            Ok((right, j)) => if i < j <= ts.len() {
                multiplicative_rest(ts, j, binary(op, left, right))
            } else {
                Ok((binary(op, left, right), j))
            },
            Err(e) => Err(e),
        },
    }
}

/// `unary` at token `i`.
pub open spec fn unary_at(ts: Seq<SpecToken>, i: nat) -> ExprAt
    decreases ts.len() - i, 1nat,
{
    if kind_at(ts, i) is Minus {
        match unary_at(ts, i + 1) {
            Ok((inner, j)) => Ok((Expr::UnaryMinus(Box::new(inner)), j)),
            Err(e) => Err(e),
        }
    } else {
        primary_at(ts, i)
    }
}

/// `primary` at token `i`.
pub open spec fn primary_at(ts: Seq<SpecToken>, i: nat) -> ExprAt
    decreases ts.len() - i, 0nat,
{
    match kind_at(ts, i) {
        SpecTokenKind::Number(v) => Ok((Expr::Number(v), i + 1)),
        SpecTokenKind::LParen => match expression_at(ts, i + 1) {
            Ok((e, j)) => match expect_at(
                ts,
                j,
                SpecTokenKind::RParen,
                "expected ')' after expression"@,
            ) {
                Ok(k) => Ok((e, k)),
                Err(err) => Err(err),
            },
            Err(err) => Err(err),
        },
        _ => Err(error_at(ts, i, "expected integer literal or parenthesized expression"@)),
    }
}

/// `statement` at token `i`, with the index after it.
pub open spec fn statement_at(ts: Seq<SpecToken>, i: nat) -> Result<(Stmt, nat), SpecError> {
    if kind_at(ts, i) is Print {
        match expect_at(ts, i + 1, SpecTokenKind::LParen, "expected '(' after print"@) {
            Ok(j) => match expression_at(ts, j) {
                Ok((e, k)) => match expect_at(
                    ts,
                    k,
                    SpecTokenKind::RParen,
                    "expected ')' after print expression"@,
                ) {
                    Ok(m) => match expect_at(
                        ts,
                        m,
                        SpecTokenKind::Semicolon,
                        "expected ';' after print statement"@,
                    ) {
                        Ok(n) => Ok((Stmt::Print(e), n)),
                        Err(err) => Err(err),
                    },
                    Err(err) => Err(err),
                },
                Err(err) => Err(err),
            },
            Err(err) => Err(err),
        }
    } else if kind_at(ts, i) is Return {
        match expression_at(ts, i + 1) {
            Ok((e, k)) => match expect_at(
                ts,
                k,
                SpecTokenKind::Semicolon,
                "expected ';' after return statement"@,
            ) {
                Ok(m) => Ok((Stmt::Return(e), m)),
                Err(err) => Err(err),
            },
            Err(err) => Err(err),
        }
    } else {
        Err(error_at(ts, i, "expected statement: print(expr); or return expr;"@))
    }
}

/// The statements of the body of `main` from token `i` up to the closing brace,
/// with the index of that brace.
pub open spec fn body_at(ts: Seq<SpecToken>, i: nat) -> Result<(Seq<Stmt>, nat), SpecError>
    decreases ts.len() - i,
{
    if kind_at(ts, i) is RBrace {
        Ok((Seq::empty(), i))
    } else if kind_at(ts, i) is Eof {
        Err(error_at(ts, i, "expected '}' before end of file"@))
    } else {
        match statement_at(ts, i) {
            Ok((s, j)) => if i < j <= ts.len() {
                match body_at(ts, j) {
                    Ok((ss, k)) => Ok((seq![s] + ss, k)),
                    Err(e) => Err(e),
                }
            } else {
                Ok((seq![s], j))
            },
            Err(e) => Err(e),
        }
    }
}

/// After the statements of `main`: its closing brace and the end of the file.
pub open spec fn after_body(ts: Seq<SpecToken>, body: Result<(Seq<Stmt>, nat), SpecError>) -> Result<
    Seq<Stmt>,
    SpecError,
> {
    match body {
        Ok((ss, n)) => match expect_at(
            ts,
            n,
            SpecTokenKind::RBrace,
            "expected '}' after main body"@,
        ) {
            Ok(p) => match expect_at(
                ts,
                p,
                SpecTokenKind::Eof,
                "unexpected tokens after main function"@,
            ) {
                Ok(_) => Ok(ss),
                Err(e) => Err(e),
            },
            Err(e) => Err(e),
        },
        Err(e) => Err(e),
    }
}

/// The statements of a whole token sequence `int main() { ... }`.
pub open spec fn program_at(ts: Seq<SpecToken>) -> Result<Seq<Stmt>, SpecError> {
    match expect_at(ts, 0, SpecTokenKind::Int, "expected 'int' before main"@) {
        Ok(i) => if kind_at(ts, i) == SpecTokenKind::Ident("main"@) {
            match expect_at(ts, i + 1, SpecTokenKind::LParen, "expected '(' after main"@) {
                Ok(j) => match expect_at(ts, j, SpecTokenKind::RParen, "expected ')' after main("@) {
                    Ok(k) => match expect_at(
                        ts,
                        k,
                        SpecTokenKind::LBrace,
                        "expected '{' before main body"@,
                    ) {
                        Ok(m) => after_body(ts, body_at(ts, m)),
                        Err(e) => Err(e),
                    },
                    Err(e) => Err(e),
                },
                Err(e) => Err(e),
            }
        } else {
            Err(error_at(ts, i, "expected entry point named 'main'"@))
        },
        Err(e) => Err(e),
    }
}

/// `ss` in front of the statements of `rest`, or the error of `rest`.
pub open spec fn prepend_stmts(ss: Seq<Stmt>, rest: Result<(Seq<Stmt>, nat), SpecError>) -> Result<
    (Seq<Stmt>, nat),
    SpecError,
> {
    match rest {
        Ok((more, k)) => Ok((ss + more, k)),
        Err(e) => Err(e),
    }
}

proof fn lemma_prepend_empty(rest: Result<(Seq<Stmt>, nat), SpecError>)
    ensures
        prepend_stmts(Seq::empty(), rest) == rest,
{
    if let Ok((more, k)) = rest {
        assert(Seq::<Stmt>::empty() + more =~= more);
    }
}

proof fn lemma_prepend_push(ss: Seq<Stmt>, s: Stmt, rest: Result<(Seq<Stmt>, nat), SpecError>)
    ensures
        prepend_stmts(ss, match rest {
            Ok((more, k)) => Ok((seq![s] + more, k)),
            Err(e) => Err(e),
        }) == prepend_stmts(ss.push(s), rest),
{
    if let Ok((more, k)) = rest {
        assert(ss + (seq![s] + more) =~= ss.push(s) + more);
    }
}

/// The program of a source text: its tokens parsed, or the first error.
pub open spec fn spec_parse(s: Seq<char>) -> Result<Seq<Stmt>, SpecError> {
    match spec_lex(s) {
        Ok(ts) => program_at(ts),
        Err(e) => Err(e),
    }
}


/// Parses a source text into a [`Program`], or returns the first lexical or
/// syntax error with its position.
pub fn parse(source: &str) -> (r: Result<Program, CompileError>)
    requires
        source@.len() < usize::MAX,
    ensures
        r matches Ok(p) ==> spec_parse(source@) == Ok::<Seq<Stmt>, SpecError>(p@) && stmts_temps(
            p@,
        ) <= source@.len(),
        r matches Err(e) ==> spec_parse(source@) == Err::<Seq<Stmt>, SpecError>(e@),
{
    let tokens = match lex(source) {
        Ok(t) => t,
        Err(e) => {
            return Err(e);
        },
    };
    proof {
        lemma_lex_well_formed(source@);
    }
    Parser::new(tokens).parse_program()
}

/// The outcome of parsing from token `i`: success stays inside the tokens,
/// consuming at least one of them (`strict`) or possibly none, and an error
/// has a 1-based position.
pub open spec fn parsed_within<T>(ts: Seq<SpecToken>, i: nat, r: Result<(T, nat), SpecError>, strict: bool) -> bool {
    match r {
        Ok((_, j)) => (if strict { i < j } else { i <= j }) && j < ts.len(),
        Err(e) => e.line >= 1 && e.column >= 1,
    }
}

proof fn lemma_error_at_position(ts: Seq<SpecToken>, i: nat, message: Seq<char>)
    requires
        tokens_well_formed(ts),
        i < ts.len(),
    ensures
        error_at(ts, i, message).line >= 1,
        error_at(ts, i, message).column >= 1,
{
}

proof fn lemma_expect_within(ts: Seq<SpecToken>, i: nat, k: SpecTokenKind, message: Seq<char>)
    requires
        tokens_well_formed(ts),
        i < ts.len(),
        !(k is Eof),
    ensures
        expect_at(ts, i, k, message) matches Ok(j) ==> j == i + 1 && j < ts.len(),
        expect_at(ts, i, k, message) matches Err(e) ==> e.line >= 1 && e.column >= 1,
{
    if kind_at(ts, i) == k {
        assert(i != ts.len() - 1);
    }
}

/// Law: parsing an expression from a token inside a well-formed token sequence
/// either consumes at least one token and stops inside the sequence, or fails
/// at a 1-based position.
pub proof fn lemma_expression_progress(ts: Seq<SpecToken>, i: nat)
    requires
        tokens_well_formed(ts),
        i < ts.len(),
    ensures
        parsed_within(ts, i, expression_at(ts, i), true),
    decreases ts.len() - i, 4nat,
{
    lemma_additive_progress(ts, i);
}

proof fn lemma_additive_progress(ts: Seq<SpecToken>, i: nat)
    requires
        tokens_well_formed(ts),
        i < ts.len(),
    ensures
        parsed_within(ts, i, additive_at(ts, i), true),
    decreases ts.len() - i, 3nat,
{
    lemma_multiplicative_progress(ts, i);
    if let Ok((left, j)) = multiplicative_at(ts, i) {
        lemma_additive_rest_progress(ts, j, left);
    }
}

proof fn lemma_additive_rest_progress(ts: Seq<SpecToken>, i: nat, left: Expr)
    requires
        tokens_well_formed(ts),
        i < ts.len(),
    ensures
        parsed_within(ts, i, additive_rest(ts, i, left), false),
    decreases ts.len() - i, 0nat,
{
    if let Some(op) = additive_op(kind_at(ts, i)) {
        assert(i != ts.len() - 1);
        lemma_multiplicative_progress(ts, i + 1);
        if let Ok((right, j)) = multiplicative_at(ts, i + 1) {
            lemma_additive_rest_progress(ts, j, binary(op, left, right));
        }
    }
}

proof fn lemma_multiplicative_progress(ts: Seq<SpecToken>, i: nat)
    requires
        tokens_well_formed(ts),
        i < ts.len(),
    ensures
        parsed_within(ts, i, multiplicative_at(ts, i), true),
    decreases ts.len() - i, 2nat,
{
    lemma_unary_progress(ts, i);
    if let Ok((left, j)) = unary_at(ts, i) {
        lemma_multiplicative_rest_progress(ts, j, left);
    }
}

proof fn lemma_multiplicative_rest_progress(ts: Seq<SpecToken>, i: nat, left: Expr)
    requires
        tokens_well_formed(ts),
        i < ts.len(),
    ensures
        parsed_within(ts, i, multiplicative_rest(ts, i, left), false),
    decreases ts.len() - i, 0nat,
{
    if let Some(op) = multiplicative_op(kind_at(ts, i)) {
        assert(i != ts.len() - 1);
        lemma_unary_progress(ts, i + 1);
        if let Ok((right, j)) = unary_at(ts, i + 1) {
            lemma_multiplicative_rest_progress(ts, j, binary(op, left, right));
        }
    }
}

proof fn lemma_unary_progress(ts: Seq<SpecToken>, i: nat)
    requires
        tokens_well_formed(ts),
        i < ts.len(),
    ensures
        parsed_within(ts, i, unary_at(ts, i), true),
    decreases ts.len() - i, 1nat,
{
    if kind_at(ts, i) is Minus {
        assert(i != ts.len() - 1);
        lemma_unary_progress(ts, i + 1);
    } else {
        lemma_primary_progress(ts, i);
    }
}

proof fn lemma_primary_progress(ts: Seq<SpecToken>, i: nat)
    requires
        tokens_well_formed(ts),
        i < ts.len(),
    ensures
        parsed_within(ts, i, primary_at(ts, i), true),
    decreases ts.len() - i, 0nat,
{
    match kind_at(ts, i) {
        SpecTokenKind::Number(_) => {
            assert(i != ts.len() - 1);
        },
        SpecTokenKind::LParen => {
            assert(i != ts.len() - 1);
            lemma_expression_progress(ts, i + 1);
            if let Ok((e, j)) = expression_at(ts, i + 1) {
                lemma_expect_within(ts, j, SpecTokenKind::RParen, "expected ')' after expression"@);
            }
        },
        _ => {
            lemma_error_at_position(
                ts,
                i,
                "expected integer literal or parenthesized expression"@,
            );
        },
    }
}

/// Law: parsing a statement from a token inside a well-formed token sequence
/// either consumes at least one token and stops inside the sequence, or fails
/// at a 1-based position.
pub proof fn lemma_statement_progress(ts: Seq<SpecToken>, i: nat)
    requires
        tokens_well_formed(ts),
        i < ts.len(),
    ensures
        parsed_within(ts, i, statement_at(ts, i), true),
{
    if kind_at(ts, i) is Print {
        assert(i != ts.len() - 1);
        lemma_expect_within(ts, i + 1, SpecTokenKind::LParen, "expected '(' after print"@);
        if let Ok(j) = expect_at(ts, i + 1, SpecTokenKind::LParen, "expected '(' after print"@) {
            lemma_expression_progress(ts, j);
            if let Ok((e, k)) = expression_at(ts, j) {
                lemma_expect_within(
                    ts,
                    k,
                    SpecTokenKind::RParen,
                    "expected ')' after print expression"@,
                );
                if let Ok(m) = expect_at(
                    ts,
                    k,
                    SpecTokenKind::RParen,
                    "expected ')' after print expression"@,
                ) {
                    lemma_expect_within(
                        ts,
                        m,
                        SpecTokenKind::Semicolon,
                        "expected ';' after print statement"@,
                    );
                }
            }
        }
    } else if kind_at(ts, i) is Return {
        assert(i != ts.len() - 1);
        lemma_expression_progress(ts, i + 1);
        if let Ok((e, k)) = expression_at(ts, i + 1) {
            lemma_expect_within(
                ts,
                k,
                SpecTokenKind::Semicolon,
                "expected ';' after return statement"@,
            );
        }
    } else {
        lemma_error_at_position(ts, i, "expected statement: print(expr); or return expr;"@);
    }
}

proof fn lemma_body_progress(ts: Seq<SpecToken>, i: nat)
    requires
        tokens_well_formed(ts),
        i < ts.len(),
    ensures
        parsed_within(ts, i, body_at(ts, i), false),
    decreases ts.len() - i,
{
    if kind_at(ts, i) is RBrace {
    } else if kind_at(ts, i) is Eof {
        lemma_error_at_position(ts, i, "expected '}' before end of file"@);
    } else {
        lemma_statement_progress(ts, i);
        if let Ok((st, j)) = statement_at(ts, i) {
            lemma_body_progress(ts, j);
        }
    }
}

/// Law: every error of the parser, lexical or syntactic, refers to a 1-based
/// line and column.
pub proof fn lemma_parse_error_positions(s: Seq<char>)
    ensures
        spec_parse(s) matches Err(e) ==> e.line >= 1 && e.column >= 1,
{
    lemma_lex_well_formed(s);
    if let Ok(ts) = spec_lex(s) {
        let main_kind = SpecTokenKind::Ident("main"@);
        lemma_expect_within(ts, 0, SpecTokenKind::Int, "expected 'int' before main"@);
        if let Ok(i) = expect_at(ts, 0, SpecTokenKind::Int, "expected 'int' before main"@) {
            if kind_at(ts, i) == main_kind {
                assert(i != ts.len() - 1);
                let a = i + 1;
                lemma_expect_within(ts, a, SpecTokenKind::LParen, "expected '(' after main"@);
                if let Ok(j) = expect_at(ts, a, SpecTokenKind::LParen, "expected '(' after main"@) {
                    lemma_expect_within(ts, j, SpecTokenKind::RParen, "expected ')' after main("@);
                    if let Ok(k) = expect_at(
                        ts,
                        j,
                        SpecTokenKind::RParen,
                        "expected ')' after main("@,
                    ) {
                        lemma_expect_within(
                            ts,
                            k,
                            SpecTokenKind::LBrace,
                            "expected '{' before main body"@,
                        );
                        if let Ok(m) = expect_at(
                            ts,
                            k,
                            SpecTokenKind::LBrace,
                            "expected '{' before main body"@,
                        ) {
                            lemma_body_progress(ts, m);
                            if let Ok((ss, n)) = body_at(ts, m) {
                                lemma_expect_within(
                                    ts,
                                    n,
                                    SpecTokenKind::RBrace,
                                    "expected '}' after main body"@,
                                );
                                if let Ok(p) = expect_at(
                                    ts,
                                    n,
                                    SpecTokenKind::RBrace,
                                    "expected '}' after main body"@,
                                ) {
                                    lemma_error_at_position(
                                        ts,
                                        p,
                                        "unexpected tokens after main function"@,
                                    );
                                }
                            }
                        }
                    }
                }
            } else {
                lemma_error_at_position(ts, i, "expected entry point named 'main'"@);
            }
        }
    }
}

/// The kind is no binary operator.
pub open spec fn ends_operand(k: SpecTokenKind) -> bool {
    additive_op(k) is None && multiplicative_op(k) is None
}

proof fn lemma_number_operand(ts: Seq<SpecToken>, i: nat, v: i32)
    requires
        kind_at(ts, i) == SpecTokenKind::Number(v),
    ensures
        unary_at(ts, i) == Ok::<(Expr, nat), SpecError>((Expr::Number(v), i + 1)),
{
    assert(primary_at(ts, i) == Ok::<(Expr, nat), SpecError>((Expr::Number(v), i + 1)));
}

/// Law (precedence): in `a + b * c`, with any additive operator first and any
/// multiplicative operator second, the multiplicative operator binds tighter.
pub proof fn lemma_multiplicative_binds_tighter(
    ts: Seq<SpecToken>,
    i: nat,
    a: i32,
    b: i32,
    c: i32,
    first: SpecTokenKind,
    second: SpecTokenKind,
)
    requires
        kind_at(ts, i) == SpecTokenKind::Number(a),
        kind_at(ts, i + 1) == first,
        kind_at(ts, i + 2) == SpecTokenKind::Number(b),
        kind_at(ts, i + 3) == second,
        kind_at(ts, i + 4) == SpecTokenKind::Number(c),
        ends_operand(kind_at(ts, i + 5)),
        additive_op(first) is Some,
        multiplicative_op(second) is Some,
    ensures
        expression_at(ts, i) == Ok::<(Expr, nat), SpecError>(
            (
                binary(
                    additive_op(first).unwrap(),
                    Expr::Number(a),
                    binary(multiplicative_op(second).unwrap(), Expr::Number(b), Expr::Number(c)),
                ),
                i + 5,
            ),
        ),
{
    let inner = binary(multiplicative_op(second).unwrap(), Expr::Number(b), Expr::Number(c));
    let outer = binary(additive_op(first).unwrap(), Expr::Number(a), inner);
    lemma_number_operand(ts, i, a);
    lemma_number_operand(ts, i + 2, b);
    lemma_number_operand(ts, i + 4, c);
    assert(multiplicative_rest(ts, i + 1, Expr::Number(a)) == Ok::<(Expr, nat), SpecError>(
        (Expr::Number(a), i + 1),
    ));
    assert(multiplicative_at(ts, i) == Ok::<(Expr, nat), SpecError>((Expr::Number(a), i + 1)));
    assert(multiplicative_rest(ts, i + 5, inner) == Ok::<(Expr, nat), SpecError>((inner, i + 5)));
    assert(multiplicative_rest(ts, i + 3, Expr::Number(b)) == Ok::<(Expr, nat), SpecError>(
        (inner, i + 5),
    ));
    assert(multiplicative_at(ts, i + 2) == Ok::<(Expr, nat), SpecError>((inner, i + 5)));
    assert(additive_rest(ts, i + 5, outer) == Ok::<(Expr, nat), SpecError>((outer, i + 5)));
    assert(additive_rest(ts, i + 1, Expr::Number(a)) == Ok::<(Expr, nat), SpecError>(
        (outer, i + 5),
    ));
    assert(additive_at(ts, i) == Ok::<(Expr, nat), SpecError>((outer, i + 5)));
}

/// Law (associativity): in `a - b - c`, with any two additive operators, the
/// first operator applies first.
pub proof fn lemma_additive_associates_left(
    ts: Seq<SpecToken>,
    i: nat,
    a: i32,
    b: i32,
    c: i32,
    first: SpecTokenKind,
    second: SpecTokenKind,
)
    requires
        kind_at(ts, i) == SpecTokenKind::Number(a),
        kind_at(ts, i + 1) == first,
        kind_at(ts, i + 2) == SpecTokenKind::Number(b),
        kind_at(ts, i + 3) == second,
        kind_at(ts, i + 4) == SpecTokenKind::Number(c),
        ends_operand(kind_at(ts, i + 5)),
        additive_op(first) is Some,
        additive_op(second) is Some,
    ensures
        expression_at(ts, i) == Ok::<(Expr, nat), SpecError>(
            (
                binary(
                    additive_op(second).unwrap(),
                    binary(additive_op(first).unwrap(), Expr::Number(a), Expr::Number(b)),
                    Expr::Number(c),
                ),
                i + 5,
            ),
        ),
{
    let inner = binary(additive_op(first).unwrap(), Expr::Number(a), Expr::Number(b));
    let outer = binary(additive_op(second).unwrap(), inner, Expr::Number(c));
    lemma_number_operand(ts, i, a);
    lemma_number_operand(ts, i + 2, b);
    lemma_number_operand(ts, i + 4, c);
    assert(multiplicative_rest(ts, i + 1, Expr::Number(a)) == Ok::<(Expr, nat), SpecError>(
        (Expr::Number(a), i + 1),
    ));
    assert(multiplicative_at(ts, i) == Ok::<(Expr, nat), SpecError>((Expr::Number(a), i + 1)));
    assert(multiplicative_rest(ts, i + 3, Expr::Number(b)) == Ok::<(Expr, nat), SpecError>(
        (Expr::Number(b), i + 3),
    ));
    assert(multiplicative_at(ts, i + 2) == Ok::<(Expr, nat), SpecError>(
        (Expr::Number(b), i + 3),
    ));
    assert(multiplicative_rest(ts, i + 5, Expr::Number(c)) == Ok::<(Expr, nat), SpecError>(
        (Expr::Number(c), i + 5),
    ));
    assert(multiplicative_at(ts, i + 4) == Ok::<(Expr, nat), SpecError>(
        (Expr::Number(c), i + 5),
    ));
    assert(additive_rest(ts, i + 5, outer) == Ok::<(Expr, nat), SpecError>((outer, i + 5)));
    assert(additive_rest(ts, i + 3, inner) == Ok::<(Expr, nat), SpecError>((outer, i + 5)));
    assert(additive_rest(ts, i + 1, Expr::Number(a)) == Ok::<(Expr, nat), SpecError>(
        (outer, i + 5),
    ));
    assert(additive_at(ts, i) == Ok::<(Expr, nat), SpecError>((outer, i + 5)));
}

struct Parser {
    tokens: Vec<Token>,
    index: usize,
}

impl Parser {
    /// The tokens being parsed.
    spec fn ts(&self) -> Seq<SpecToken> {
        tokens_view(self.tokens@)
    }

    /// Every parser holds well-formed tokens (the only end-of-file token comes
    /// last) and an index into them, so `peek` always finds a token.
    #[verifier::type_invariant]
    spec fn wf(&self) -> bool {
        &&& tokens_well_formed(self.ts())
        &&& self.index < self.tokens.len()
    }

    fn new(tokens: Vec<Token>) -> (p: Self)
        requires
            tokens_well_formed(tokens_view(tokens@)),
        ensures
            p.tokens@ == tokens@,
            p.index == 0,
    {
        Parser { tokens, index: 0 }
    }

    fn peek(&self) -> (t: &Token)
        ensures
            t@ == self.ts()[self.index as int],
    {
        proof {
            use_type_invariant(&*self);
        }
        &self.tokens[self.index]
    }

    fn at_exact(&self, expected: &TokenKind) -> (b: bool)
        ensures
            b == (kind_at(self.ts(), self.index as nat) == expected@),
    {
        proof {
            use_type_invariant(&*self);
        }
        self.peek().kind().same_as(expected)
    }

    fn advance(&mut self)
        ensures
            final(self).tokens@ == old(self).tokens@,
            final(self).index == if old(self).index + 1 < old(self).tokens.len() {
                old(self).index + 1
            } else {
                old(self).index as int
            },
            !(kind_at(old(self).ts(), old(self).index as nat) is Eof) ==> final(self).index
                == old(self).index + 1,
    {
        proof {
            use_type_invariant(&*self);
        }
        if self.index < self.tokens.len() - 1 {
            self.index = self.index + 1;
        }
    }

    fn error_here(&self, message: &str) -> (e: CompileError)
        ensures
            e@ == error_at(self.ts(), self.index as nat, message@),
    {
        proof {
            use_type_invariant(&*self);
        }
        let token = self.peek();
        CompileError::new(String::from_str(message), token.line(), token.column())
    }

    fn expect_exact(&mut self, expected: TokenKind, message: &str) -> (r: Result<(), CompileError>)
        ensures
            final(self).tokens@ == old(self).tokens@,
            r is Ok ==> expect_at(old(self).ts(), old(self).index as nat, expected@, message@)
                == Ok::<nat, SpecError>(old(self).index as nat + 1) && final(self).index == if old(
                self,
            ).index + 1 < old(self).tokens.len() {
                old(self).index + 1
            } else {
                old(self).index as int
            },
            r is Ok && !(expected@ is Eof) ==> final(self).index == old(self).index + 1,
            r matches Err(e) ==> expect_at(old(self).ts(), old(self).index as nat, expected@, message@)
                == Err::<nat, SpecError>(e@) && final(self).index == old(self).index,
    {
        proof {
            use_type_invariant(&*self);
        }
        if self.at_exact(&expected) {
            self.advance();
            Ok(())
        } else {
            Err(self.error_here(message))
        }
    }

    fn parse_expression(&mut self) -> (r: Result<Expr, CompileError>)
        ensures
            final(self).tokens@ == old(self).tokens@,
            r matches Ok(e) ==> expression_at(old(self).ts(), old(self).index as nat) == Ok::<
                (Expr, nat),
                SpecError,
            >((e, final(self).index as nat)) && final(self).index >= old(self).index + expr_temps(e)
                + 1,
            r matches Err(err) ==> expression_at(old(self).ts(), old(self).index as nat) == Err::<
                (Expr, nat),
                SpecError,
            >(err@),
            r matches Err(err) ==> error_at(old(self).ts(), final(self).index as nat, err@.message)
                == err@,
        decreases old(self).tokens@.len() - old(self).index, 4nat,
    {
        proof {
            use_type_invariant(&*self);
        }
        self.parse_additive()
    }

    fn parse_additive(&mut self) -> (r: Result<Expr, CompileError>)
        ensures
            final(self).tokens@ == old(self).tokens@,
            r matches Ok(e) ==> additive_at(old(self).ts(), old(self).index as nat) == Ok::<
                (Expr, nat),
                SpecError,
            >((e, final(self).index as nat)) && final(self).index >= old(self).index + expr_temps(e)
                + 1,
            r matches Err(err) ==> additive_at(old(self).ts(), old(self).index as nat) == Err::<
                (Expr, nat),
                SpecError,
            >(err@),
            r matches Err(err) ==> error_at(old(self).ts(), final(self).index as nat, err@.message)
                == err@,
        decreases old(self).tokens@.len() - old(self).index, 3nat,
    {
        proof {
            use_type_invariant(&*self);
        }
        let ghost ts = self.ts();
        let ghost start = self.index as nat;
        let mut expr = match self.parse_multiplicative() {
            Ok(e) => e,
            Err(err) => {
                return Err(err);
            },
        };
        loop
            invariant
                self.ts() == ts,
                self.tokens@ == old(self).tokens@,
                start == old(self).index,
                start < self.index,
                self.index >= start + expr_temps(expr) + 1,
                additive_at(ts, start) == additive_rest(ts, self.index as nat, expr),
            decreases self.tokens@.len() - self.index,
        {
            proof {
                use_type_invariant(&*self);
            }
            let op = if self.at_exact(&TokenKind::Plus) {
                BinaryOp::Add
            } else if self.at_exact(&TokenKind::Minus) {
                BinaryOp::Sub
            } else {
                return Ok(expr);
            };
            self.advance();
            let right = match self.parse_multiplicative() {
                Ok(e) => e,
                Err(err) => {
                    return Err(err);
                },
            };
            expr = Expr::Binary { op, left: Box::new(expr), right: Box::new(right) };
            proof {
                use_type_invariant(&*self);
            }
        }
    }

    fn parse_multiplicative(&mut self) -> (r: Result<Expr, CompileError>)
        ensures
            final(self).tokens@ == old(self).tokens@,
            r matches Ok(e) ==> multiplicative_at(old(self).ts(), old(self).index as nat) == Ok::<
                (Expr, nat),
                SpecError,
            >((e, final(self).index as nat)) && final(self).index >= old(self).index + expr_temps(e)
                + 1,
            r matches Err(err) ==> multiplicative_at(old(self).ts(), old(self).index as nat) == Err::<
                (Expr, nat),
                SpecError,
            >(err@),
            r matches Err(err) ==> error_at(old(self).ts(), final(self).index as nat, err@.message)
                == err@,
        decreases old(self).tokens@.len() - old(self).index, 2nat,
    {
        proof {
            use_type_invariant(&*self);
        }
        let ghost ts = self.ts();
        let ghost start = self.index as nat;
        let mut expr = match self.parse_unary() {
            Ok(e) => e,
            Err(err) => {
                return Err(err);
            },
        };
        loop
            invariant
                self.ts() == ts,
                self.tokens@ == old(self).tokens@,
                start == old(self).index,
                start < self.index,
                self.index >= start + expr_temps(expr) + 1,
                multiplicative_at(ts, start) == multiplicative_rest(ts, self.index as nat, expr),
            decreases self.tokens@.len() - self.index,
        {
            proof {
                use_type_invariant(&*self);
            }
            let op = if self.at_exact(&TokenKind::Star) {
                BinaryOp::Mul
            } else if self.at_exact(&TokenKind::Slash) {
                BinaryOp::Div
            } else {
                return Ok(expr);
            };
            self.advance();
            let right = match self.parse_unary() {
                Ok(e) => e,
                Err(err) => {
                    return Err(err);
                },
            };
            expr = Expr::Binary { op, left: Box::new(expr), right: Box::new(right) };
            proof {
                use_type_invariant(&*self);
            }
        }
    }

    fn parse_unary(&mut self) -> (r: Result<Expr, CompileError>)
        ensures
            final(self).tokens@ == old(self).tokens@,
            r matches Ok(e) ==> unary_at(old(self).ts(), old(self).index as nat) == Ok::<
                (Expr, nat),
                SpecError,
            >((e, final(self).index as nat)) && final(self).index >= old(self).index + expr_temps(e)
                + 1,
            r matches Err(err) ==> unary_at(old(self).ts(), old(self).index as nat) == Err::<
                (Expr, nat),
                SpecError,
            >(err@),
            r matches Err(err) ==> error_at(old(self).ts(), final(self).index as nat, err@.message)
                == err@,
        decreases old(self).tokens@.len() - old(self).index, 1nat,
    {
        proof {
            use_type_invariant(&*self);
        }
        if self.at_exact(&TokenKind::Minus) {
            self.advance();
            return match self.parse_unary() {
                Ok(inner) => Ok(Expr::UnaryMinus(Box::new(inner))),
                Err(err) => Err(err),
            };
        }
        self.parse_primary()
    }

    fn parse_primary(&mut self) -> (r: Result<Expr, CompileError>)
        ensures
            final(self).tokens@ == old(self).tokens@,
            r matches Ok(e) ==> primary_at(old(self).ts(), old(self).index as nat) == Ok::<
                (Expr, nat),
                SpecError,
            >((e, final(self).index as nat)) && final(self).index >= old(self).index + expr_temps(e)
                + 1,
            r matches Err(err) ==> primary_at(old(self).ts(), old(self).index as nat) == Err::<
                (Expr, nat),
                SpecError,
            >(err@),
            r matches Err(err) ==> error_at(old(self).ts(), final(self).index as nat, err@.message)
                == err@,
        decreases old(self).tokens@.len() - old(self).index, 0nat,
    {
        proof {
            use_type_invariant(&*self);
        }
        match self.peek().kind() {
            TokenKind::Number(value) => {
                let value = *value;
                self.advance();
                Ok(Expr::Number(value))
            },
            TokenKind::LParen => {
                self.advance();
                let expr = match self.parse_expression() {
                    Ok(e) => e,
                    Err(err) => {
                        return Err(err);
                    },
                };
                match self.expect_exact(TokenKind::RParen, "expected ')' after expression") {
                    Ok(()) => Ok(expr),
                    Err(err) => Err(err),
                }
            },
            _ => Err(self.error_here("expected integer literal or parenthesized expression")),
        }
    }

    fn parse_statement(&mut self) -> (r: Result<Stmt, CompileError>)
        ensures
            final(self).tokens@ == old(self).tokens@,
            r matches Ok(st) ==> statement_at(old(self).ts(), old(self).index as nat) == Ok::<
                (Stmt, nat),
                SpecError,
            >((st, final(self).index as nat)) && final(self).index >= old(self).index + stmt_temps(
                st,
            ) + 1,
            r matches Err(err) ==> statement_at(old(self).ts(), old(self).index as nat) == Err::<
                (Stmt, nat),
                SpecError,
            >(err@),
            r matches Err(err) ==> error_at(old(self).ts(), final(self).index as nat, err@.message)
                == err@,
            r is Err && !(kind_at(old(self).ts(), old(self).index as nat) is Print) && !(kind_at(
                old(self).ts(),
                old(self).index as nat,
            ) is Return) ==> final(self).index == old(self).index,
    {
        proof {
            use_type_invariant(&*self);
        }
        if self.at_exact(&TokenKind::Print) {
            self.advance();
            match self.expect_exact(TokenKind::LParen, "expected '(' after print") {
                Ok(()) => {},
                Err(err) => {
                    return Err(err);
                },
            }
            let expr = match self.parse_expression() {
                Ok(e) => e,
                Err(err) => {
                    return Err(err);
                },
            };
            match self.expect_exact(TokenKind::RParen, "expected ')' after print expression") {
                Ok(()) => {},
                Err(err) => {
                    return Err(err);
                },
            }
            match self.expect_exact(TokenKind::Semicolon, "expected ';' after print statement") {
                Ok(()) => {},
                Err(err) => {
                    return Err(err);
                },
            }
            return Ok(Stmt::Print(expr));
        }
        if self.at_exact(&TokenKind::Return) {
            self.advance();
            let expr = match self.parse_expression() {
                Ok(e) => e,
                Err(err) => {
                    return Err(err);
                },
            };
            match self.expect_exact(TokenKind::Semicolon, "expected ';' after return statement") {
                Ok(()) => {},
                Err(err) => {
                    return Err(err);
                },
            }
            return Ok(Stmt::Return(expr));
        }
        Err(self.error_here("expected statement: print(expr); or return expr;"))
    }

    fn parse_program(&mut self) -> (r: Result<Program, CompileError>)
        requires
            old(self).index == 0,
        ensures
            r matches Ok(p) ==> program_at(old(self).ts()) == Ok::<Seq<Stmt>, SpecError>(p@)
                && stmts_temps(p@) < old(self).ts().len(),
            r matches Err(err) ==> program_at(old(self).ts()) == Err::<Seq<Stmt>, SpecError>(
                err@,
            ),
            r matches Err(err) ==> error_at(old(self).ts(), final(self).index as nat, err@.message)
                == err@,
    {
        proof {
            use_type_invariant(&*self);
        }
        let ghost ts = self.ts();
        match self.expect_exact(TokenKind::Int, "expected 'int' before main") {
            Ok(()) => {},
            Err(err) => {
                return Err(err);
            },
        }
        let main_name = TokenKind::Ident(String::from_str("main"));
        if self.at_exact(&main_name) {
            self.advance();
        } else {
            return Err(self.error_here("expected entry point named 'main'"));
        }
        match self.expect_exact(TokenKind::LParen, "expected '(' after main") {
            Ok(()) => {},
            Err(err) => {
                return Err(err);
            },
        }
        match self.expect_exact(TokenKind::RParen, "expected ')' after main(") {
            Ok(()) => {},
            Err(err) => {
                return Err(err);
            },
        }
        match self.expect_exact(TokenKind::LBrace, "expected '{' before main body") {
            Ok(()) => {},
            Err(err) => {
                return Err(err);
            },
        }
        let ghost body_start = self.index as nat;
        let mut statements: Vec<Stmt> = Vec::new();
        assert(prepend_stmts(statements@, body_at(ts, body_start)) == body_at(ts, body_start)) by {
            lemma_prepend_empty(body_at(ts, body_start));
        }
        while !self.at_exact(&TokenKind::RBrace)
            invariant
                self.ts() == ts,
                ts == old(self).ts(),
                program_at(ts) == after_body(ts, body_at(ts, body_start)),
                body_start <= self.index,
                self.index >= body_start + stmts_temps(statements@),
                body_at(ts, body_start) == prepend_stmts(
                    statements@,
                    body_at(ts, self.index as nat),
                ),
            decreases self.tokens@.len() - self.index,
        {
            proof {
                use_type_invariant(&*self);
            }
            if self.at_exact(&TokenKind::Eof) {
                return Err(self.error_here("expected '}' before end of file"));
            }
            let ghost before = statements@;
            let statement = match self.parse_statement() {
                Ok(st) => st,
                Err(err) => {
                    return Err(err);
                },
            };
            proof {
                lemma_stmts_temps_push(before, statement);
                lemma_prepend_push(before, statement, body_at(ts, self.index as nat));
            }
            statements.push(statement);
        }
        match self.expect_exact(TokenKind::RBrace, "expected '}' after main body") {
            Ok(()) => {},
            Err(err) => {
                return Err(err);
            },
        }
        match self.expect_exact(TokenKind::Eof, "unexpected tokens after main function") {
            Ok(()) => {},
            Err(err) => {
                return Err(err);
            },
        }
        Ok(Program { statements })
    }
}

} // verus!
