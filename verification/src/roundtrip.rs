//! Printing programs as source text, and the law that parsing a printed
//! program gives it back.
use vstd::prelude::*;

use crate::ast::{BinaryOp, Expr, Stmt};
use crate::error::SpecError;
use crate::lexer::{
    digits_value, in_class, lex_from, single_kind, span_end, spec_lex,
    word_kind, CharClass, SpecToken, SpecTokenKind,
};
use crate::lexer_laws::{ends_token, kinds_of, lemma_lex_concat, no_comment};
use crate::parser::spec_parse;
use crate::text::{digit_char, nat_decimal};
use crate::parser::{
    additive_at, additive_rest, binary, body_at, expression_at, kind_at,
    multiplicative_at, multiplicative_rest, primary_at, program_at, statement_at, unary_at,
};

verus! {

/// The token kind of a binary operator.
pub open spec fn op_kind(op: BinaryOp) -> SpecTokenKind {
    match op {
        BinaryOp::Add => SpecTokenKind::Plus,
        BinaryOp::Sub => SpecTokenKind::Minus,
        BinaryOp::Mul => SpecTokenKind::Star,
        BinaryOp::Div => SpecTokenKind::Slash,
    }
}

/// The token kinds of an expression printed with every binary operation in parentheses.
pub open spec fn expr_kinds(e: Expr) -> Seq<SpecTokenKind>
    decreases e,
{
    match e {
        Expr::Number(v) => seq![SpecTokenKind::Number(v)],
        Expr::UnaryMinus(inner) => seq![SpecTokenKind::Minus] + expr_kinds(*inner),
        Expr::Binary { op, left, right } => seq![SpecTokenKind::LParen] + expr_kinds(*left) + seq![
            op_kind(op),
        ] + expr_kinds(*right) + seq![SpecTokenKind::RParen],
    }
}

/// The token kinds of a printed statement.
pub open spec fn stmt_kinds(s: Stmt) -> Seq<SpecTokenKind> {
    match s {
        Stmt::Print(e) => seq![SpecTokenKind::Print, SpecTokenKind::LParen] + expr_kinds(e) + seq![
            SpecTokenKind::RParen,
            SpecTokenKind::Semicolon,
        ],
        Stmt::Return(e) => seq![SpecTokenKind::Return] + expr_kinds(e) + seq![
            SpecTokenKind::Semicolon,
        ],
    }
}

/// The token kinds of printed statements, one after the other.
pub open spec fn stmts_kinds(ss: Seq<Stmt>) -> Seq<SpecTokenKind>
    decreases ss.len(),
{
    if ss.len() == 0 {
        Seq::empty()
    } else {
        stmt_kinds(ss[0]) + stmts_kinds(ss.drop_first())
    }
}

/// The token kinds of a printed program, end of file included.
pub open spec fn program_kinds(ss: Seq<Stmt>) -> Seq<SpecTokenKind> {
    seq![
        SpecTokenKind::Int,
        SpecTokenKind::Ident("main"@),
        SpecTokenKind::LParen,
        SpecTokenKind::RParen,
        SpecTokenKind::LBrace,
    ] + stmts_kinds(ss) + seq![SpecTokenKind::RBrace, SpecTokenKind::Eof]
}

/// The tokens of `ts` from index `i` on start with the kinds `ks`.
pub open spec fn kinds_at(ts: Seq<SpecToken>, i: nat, ks: Seq<SpecTokenKind>) -> bool {
    &&& i + ks.len() <= ts.len()
    &&& forall|k: int| 0 <= k < ks.len() ==> #[trigger] ts[i + k].kind == ks[k]
}

proof fn lemma_kinds_at_split(ts: Seq<SpecToken>, i: nat, a: Seq<SpecTokenKind>, b: Seq<SpecTokenKind>)
    requires
        kinds_at(ts, i, a + b),
    ensures
        kinds_at(ts, i, a),
        kinds_at(ts, i + a.len(), b),
{
    assert forall|k: int| 0 <= k < a.len() implies #[trigger] ts[i + k].kind == a[k] by {
        assert((a + b)[k] == a[k]);
    }
    assert forall|k: int| 0 <= k < b.len() implies #[trigger] ts[(i + a.len()) + k].kind == b[k] by {
        assert((a + b)[a.len() + k] == b[k]);
        assert(ts[i + (a.len() + k)] == ts[(i + a.len()) + k]);
    }
}

proof fn lemma_kind_at_from(ts: Seq<SpecToken>, i: nat, k: SpecTokenKind)
    requires
        kinds_at(ts, i, seq![k]),
    ensures
        kind_at(ts, i) == k,
{
    assert(ts[i + 0int].kind == seq![k][0]);
}

/// A printed expression parses back at the `unary` level.
proof fn lemma_unary_parses_printed(ts: Seq<SpecToken>, i: nat, e: Expr)
    requires
        kinds_at(ts, i, expr_kinds(e)),
    ensures
        unary_at(ts, i) == Ok::<(Expr, nat), SpecError>((e, i + expr_kinds(e).len())),
    decreases e,
{
    match e {
        Expr::Number(v) => {
            lemma_kind_at_from(ts, i, SpecTokenKind::Number(v));
            assert(primary_at(ts, i) == Ok::<(Expr, nat), SpecError>((e, i + 1)));
        },
        Expr::UnaryMinus(inner) => {
            lemma_kinds_at_split(ts, i, seq![SpecTokenKind::Minus], expr_kinds(*inner));
            lemma_kind_at_from(ts, i, SpecTokenKind::Minus);
            lemma_unary_parses_printed(ts, i + 1, *inner);
        },
        Expr::Binary { op, left, right } => {
            let l = *left;
            let r = *right;
            let kl = expr_kinds(l);
            let kr = expr_kinds(r);
            let open = seq![SpecTokenKind::LParen];
            let opk = seq![op_kind(op)];
            let close = seq![SpecTokenKind::RParen];
            assert(expr_kinds(e) == open + kl + opk + kr + close);
            lemma_kinds_at_split(ts, i, open + kl + opk + kr, close);
            lemma_kinds_at_split(ts, i, open + kl + opk, kr);
            lemma_kinds_at_split(ts, i, open + kl, opk);
            lemma_kinds_at_split(ts, i, open, kl);
            let a = i + 1;
            let k = a + kl.len();
            let m = k + 1 + kr.len();
            lemma_kind_at_from(ts, i, SpecTokenKind::LParen);
            lemma_kind_at_from(ts, k, op_kind(op));
            lemma_kind_at_from(ts, m, SpecTokenKind::RParen);
            lemma_unary_parses_printed(ts, a, l);
            lemma_unary_parses_printed(ts, k + 1, r);
            assert(m < ts.len());
            if op is Mul || op is Div {
                assert(multiplicative_rest(ts, m, e) == Ok::<(Expr, nat), SpecError>((e, m)));
                assert(multiplicative_rest(ts, k, l) == Ok::<(Expr, nat), SpecError>((e, m)));
                assert(multiplicative_at(ts, a) == Ok::<(Expr, nat), SpecError>((e, m)));
                assert(additive_rest(ts, m, e) == Ok::<(Expr, nat), SpecError>((e, m)));
                assert(additive_at(ts, a) == Ok::<(Expr, nat), SpecError>((e, m)));
            } else {
                assert(multiplicative_rest(ts, k, l) == Ok::<(Expr, nat), SpecError>((l, k)));
                assert(multiplicative_at(ts, a) == Ok::<(Expr, nat), SpecError>((l, k)));
                assert(multiplicative_rest(ts, m, r) == Ok::<(Expr, nat), SpecError>((r, m)));
                assert(multiplicative_at(ts, k + 1) == Ok::<(Expr, nat), SpecError>((r, m)));
                assert(additive_rest(ts, m, e) == Ok::<(Expr, nat), SpecError>((e, m)));
                assert(additive_rest(ts, k, l) == Ok::<(Expr, nat), SpecError>((e, m)));
                assert(additive_at(ts, a) == Ok::<(Expr, nat), SpecError>((e, m)));
            }
            assert(expression_at(ts, a) == Ok::<(Expr, nat), SpecError>((e, m)));
            assert(primary_at(ts, i) == Ok::<(Expr, nat), SpecError>((e, m + 1)));
        },
    }
}

/// The binding strength of an operator: `*` and `/` bind tighter than `+` and `-`.
pub open spec fn precedence(op: BinaryOp) -> nat {
    match op {
        BinaryOp::Add => 1,
        BinaryOp::Sub => 1,
        BinaryOp::Mul => 2,
        BinaryOp::Div => 2,
    }
}

/// The tree of `x op1 y op2 z`: the second operator applies first only when
/// it binds tighter; otherwise the operators apply from left to right.
pub open spec fn two_operator_tree(x: Expr, op1: BinaryOp, y: Expr, op2: BinaryOp, z: Expr) -> Expr {
    if precedence(op2) > precedence(op1) {
        Expr::Binary {
            op: op1,
            left: Box::new(x),
            right: Box::new(Expr::Binary { op: op2, left: Box::new(y), right: Box::new(z) }),
        }
    } else {
        Expr::Binary {
            op: op2,
            left: Box::new(Expr::Binary { op: op1, left: Box::new(x), right: Box::new(y) }),
            right: Box::new(z),
        }
    }
}

/// Law (precedence and associativity): operands `x`, `y`, `z` (each a literal,
/// a negation or a parenthesized expression, as printed) joined by any two
/// binary operators, and followed by a token that is no operator, parse to
/// `two_operator_tree`: `*` and `/` bind tighter than `+` and `-`, and
/// operators of the same strength associate to the left.
pub proof fn lemma_two_operators(
    ts: Seq<SpecToken>,
    i: nat,
    x: Expr,
    op1: BinaryOp,
    y: Expr,
    op2: BinaryOp,
    z: Expr,
    next: SpecTokenKind,
)
    requires
        kinds_at(
            ts,
            i,
            expr_kinds(x) + seq![op_kind(op1)] + expr_kinds(y) + seq![op_kind(op2)] + expr_kinds(z)
                + seq![next],
        ),
        !(next is Plus || next is Minus || next is Star || next is Slash),
    ensures
        expression_at(ts, i) == Ok::<(Expr, nat), SpecError>(
            (
                two_operator_tree(x, op1, y, op2, z),
                i + expr_kinds(x).len() + 1 + expr_kinds(y).len() + 1 + expr_kinds(z).len(),
            ),
        ),
{
    let kx = expr_kinds(x);
    let ky = expr_kinds(y);
    let kz = expr_kinds(z);
    let o1 = seq![op_kind(op1)];
    let o2 = seq![op_kind(op2)];
    let nx = seq![next];
    lemma_kinds_at_split(ts, i, kx + o1 + ky + o2 + kz, nx);
    lemma_kinds_at_split(ts, i, kx + o1 + ky + o2, kz);
    lemma_kinds_at_split(ts, i, kx + o1 + ky, o2);
    lemma_kinds_at_split(ts, i, kx + o1, ky);
    lemma_kinds_at_split(ts, i, kx, o1);
    let k = i + kx.len();
    let k2 = k + 1 + ky.len();
    let k3 = k2 + 1 + kz.len();
    lemma_kind_at_from(ts, k, op_kind(op1));
    lemma_kind_at_from(ts, k2, op_kind(op2));
    lemma_kind_at_from(ts, k3, next);
    lemma_unary_parses_printed(ts, i, x);
    lemma_unary_parses_printed(ts, k + 1, y);
    lemma_unary_parses_printed(ts, k2 + 1, z);
    assert(k3 < ts.len());
    let t = two_operator_tree(x, op1, y, op2, z);
    let xy = binary(op1, x, y);
    let yz = binary(op2, y, z);
    if precedence(op1) == 2 && precedence(op2) == 2 {
        assert(t == binary(op2, xy, z));
        assert(multiplicative_rest(ts, k3, t) == Ok::<(Expr, nat), SpecError>((t, k3)));
        assert(multiplicative_rest(ts, k2, xy) == Ok::<(Expr, nat), SpecError>((t, k3)));
        assert(multiplicative_rest(ts, k, x) == Ok::<(Expr, nat), SpecError>((t, k3)));
        assert(multiplicative_at(ts, i) == Ok::<(Expr, nat), SpecError>((t, k3)));
        assert(additive_rest(ts, k3, t) == Ok::<(Expr, nat), SpecError>((t, k3)));
    } else if precedence(op1) == 2 {
        assert(t == binary(op2, xy, z));
        assert(multiplicative_rest(ts, k2, xy) == Ok::<(Expr, nat), SpecError>((xy, k2)));
        assert(multiplicative_rest(ts, k, x) == Ok::<(Expr, nat), SpecError>((xy, k2)));
        assert(multiplicative_at(ts, i) == Ok::<(Expr, nat), SpecError>((xy, k2)));
        assert(multiplicative_rest(ts, k3, z) == Ok::<(Expr, nat), SpecError>((z, k3)));
        assert(multiplicative_at(ts, k2 + 1) == Ok::<(Expr, nat), SpecError>((z, k3)));
        assert(additive_rest(ts, k3, t) == Ok::<(Expr, nat), SpecError>((t, k3)));
        assert(additive_rest(ts, k2, xy) == Ok::<(Expr, nat), SpecError>((t, k3)));
    } else if precedence(op2) == 2 {
        assert(t == binary(op1, x, yz));
        assert(multiplicative_rest(ts, k, x) == Ok::<(Expr, nat), SpecError>((x, k)));
        assert(multiplicative_at(ts, i) == Ok::<(Expr, nat), SpecError>((x, k)));
        assert(multiplicative_rest(ts, k3, yz) == Ok::<(Expr, nat), SpecError>((yz, k3)));
        assert(multiplicative_rest(ts, k2, y) == Ok::<(Expr, nat), SpecError>((yz, k3)));
        assert(multiplicative_at(ts, k + 1) == Ok::<(Expr, nat), SpecError>((yz, k3)));
        assert(additive_rest(ts, k3, t) == Ok::<(Expr, nat), SpecError>((t, k3)));
        assert(additive_rest(ts, k, x) == Ok::<(Expr, nat), SpecError>((t, k3)));
    } else {
        assert(t == binary(op2, xy, z));
        assert(multiplicative_rest(ts, k, x) == Ok::<(Expr, nat), SpecError>((x, k)));
        assert(multiplicative_at(ts, i) == Ok::<(Expr, nat), SpecError>((x, k)));
        assert(multiplicative_rest(ts, k2, y) == Ok::<(Expr, nat), SpecError>((y, k2)));
        assert(multiplicative_at(ts, k + 1) == Ok::<(Expr, nat), SpecError>((y, k2)));
        assert(multiplicative_rest(ts, k3, z) == Ok::<(Expr, nat), SpecError>((z, k3)));
        assert(multiplicative_at(ts, k2 + 1) == Ok::<(Expr, nat), SpecError>((z, k3)));
        assert(additive_rest(ts, k3, t) == Ok::<(Expr, nat), SpecError>((t, k3)));
        assert(additive_rest(ts, k2, xy) == Ok::<(Expr, nat), SpecError>((t, k3)));
        assert(additive_rest(ts, k, x) == Ok::<(Expr, nat), SpecError>((t, k3)));
    }
    assert(additive_at(ts, i) == Ok::<(Expr, nat), SpecError>((t, k3)));
}

/// A printed expression followed by a token that is no operator parses back.
proof fn lemma_expression_parses_printed(ts: Seq<SpecToken>, i: nat, e: Expr, next: SpecTokenKind)
    requires
        kinds_at(ts, i, expr_kinds(e) + seq![next]),
        crate::parser::ends_operand(next),
    ensures
        expression_at(ts, i) == Ok::<(Expr, nat), SpecError>((e, i + expr_kinds(e).len())),
{
    let end = i + expr_kinds(e).len();
    lemma_kinds_at_split(ts, i, expr_kinds(e), seq![next]);
    lemma_kind_at_from(ts, end, next);
    lemma_unary_parses_printed(ts, i, e);
    assert(multiplicative_rest(ts, end, e) == Ok::<(Expr, nat), SpecError>((e, end)));
    assert(multiplicative_at(ts, i) == Ok::<(Expr, nat), SpecError>((e, end)));
    assert(additive_rest(ts, end, e) == Ok::<(Expr, nat), SpecError>((e, end)));
}

/// A printed statement parses back.
proof fn lemma_statement_parses_printed(ts: Seq<SpecToken>, i: nat, s: Stmt)
    requires
        kinds_at(ts, i, stmt_kinds(s)),
    ensures
        statement_at(ts, i) == Ok::<(Stmt, nat), SpecError>((s, i + stmt_kinds(s).len())),
{
    match s {
        Stmt::Print(e) => {
            let front = seq![SpecTokenKind::Print, SpecTokenKind::LParen];
            let back = seq![SpecTokenKind::RParen, SpecTokenKind::Semicolon];
            let ke = expr_kinds(e);
            lemma_kinds_at_split(ts, i, front + ke, back);
            lemma_kinds_at_split(ts, i, front, ke);
            lemma_kinds_at_split(ts, i, seq![SpecTokenKind::Print], seq![SpecTokenKind::LParen]);
            assert(seq![SpecTokenKind::Print] + seq![SpecTokenKind::LParen] =~= front);
            lemma_kind_at_from(ts, i, SpecTokenKind::Print);
            lemma_kind_at_from(ts, i + 1, SpecTokenKind::LParen);
            let k = i + 2 + ke.len();
            lemma_kinds_at_split(ts, k, seq![SpecTokenKind::RParen], seq![SpecTokenKind::Semicolon]);
            assert(seq![SpecTokenKind::RParen] + seq![SpecTokenKind::Semicolon] =~= back);
            lemma_kind_at_from(ts, k, SpecTokenKind::RParen);
            lemma_kind_at_from(ts, k + 1, SpecTokenKind::Semicolon);
            assert(kinds_at(ts, i + 2, ke + seq![SpecTokenKind::RParen])) by {
                assert forall|m: int| 0 <= m < (ke + seq![SpecTokenKind::RParen]).len() implies #[trigger] ts[(
                i + 2) + m].kind == (ke + seq![SpecTokenKind::RParen])[m] by {
                    if m < ke.len() {
                        assert(ts[(i + 2) + m].kind == ke[m]);
                    } else {
                        assert(ts[k + 0int].kind == seq![SpecTokenKind::RParen][0]);
                    }
                }
            }
            lemma_expression_parses_printed(ts, i + 2, e, SpecTokenKind::RParen);
        },
        Stmt::Return(e) => {
            let ke = expr_kinds(e);
            let back = seq![SpecTokenKind::Semicolon];
            lemma_kinds_at_split(ts, i, seq![SpecTokenKind::Return] + ke, back);
            lemma_kinds_at_split(ts, i, seq![SpecTokenKind::Return], ke);
            lemma_kind_at_from(ts, i, SpecTokenKind::Return);
            let k = i + 1 + ke.len();
            lemma_kind_at_from(ts, k, SpecTokenKind::Semicolon);
            lemma_kinds_at_split(ts, i + 1, ke, back);
            assert(kinds_at(ts, i + 1, ke + back));
            lemma_expression_parses_printed(ts, i + 1, e, SpecTokenKind::Semicolon);
        },
    }
}

/// Printed statements followed by a closing brace parse back.
proof fn lemma_body_parses_printed(ts: Seq<SpecToken>, i: nat, ss: Seq<Stmt>)
    requires
        kinds_at(ts, i, stmts_kinds(ss) + seq![SpecTokenKind::RBrace]),
    ensures
        body_at(ts, i) == Ok::<(Seq<Stmt>, nat), SpecError>((ss, i + stmts_kinds(ss).len())),
    decreases ss.len(),
{
    if ss.len() == 0 {
        assert(stmts_kinds(ss) + seq![SpecTokenKind::RBrace] =~= seq![SpecTokenKind::RBrace]);
        lemma_kind_at_from(ts, i, SpecTokenKind::RBrace);
        assert(ss =~= Seq::<Stmt>::empty());
    } else {
        let s = ss[0];
        let rest = ss.drop_first();
        let ks = stmt_kinds(s);
        assert(stmts_kinds(ss) + seq![SpecTokenKind::RBrace] =~= ks + (stmts_kinds(rest) + seq![
            SpecTokenKind::RBrace,
        ]));
        lemma_kinds_at_split(ts, i, ks, stmts_kinds(rest) + seq![SpecTokenKind::RBrace]);
        lemma_statement_parses_printed(ts, i, s);
        lemma_body_parses_printed(ts, i + ks.len(), rest);
        assert(ks.len() > 0);
        assert(ts[i + 0int].kind == ks[0]);
        assert(ks[0] is Print || ks[0] is Return);
        assert(seq![s] + rest =~= ss);
    }
}

/// The tokens of a printed program parse back to its statements.
pub proof fn lemma_program_parses_printed(ts: Seq<SpecToken>, ss: Seq<Stmt>)
    requires
        ts.map_values(|t: SpecToken| t.kind) == program_kinds(ss),
    ensures
        program_at(ts) == Ok::<Seq<Stmt>, SpecError>(ss),
{
    let ks = program_kinds(ss);
    let head = seq![
        SpecTokenKind::Int,
        SpecTokenKind::Ident("main"@),
        SpecTokenKind::LParen,
        SpecTokenKind::RParen,
        SpecTokenKind::LBrace,
    ];
    let body = stmts_kinds(ss);
    assert(ts.len() == ks.len());
    assert(kinds_at(ts, 0, ks)) by {
        assert forall|k: int| 0 <= k < ks.len() implies #[trigger] ts[0 + k].kind == ks[k] by {
            assert(ts.map_values(|t: SpecToken| t.kind)[k] == ts[k].kind);
        }
    }
    assert(ks =~= head + (body + seq![SpecTokenKind::RBrace]) + seq![SpecTokenKind::Eof]);
    lemma_kinds_at_split(ts, 0, head + (body + seq![SpecTokenKind::RBrace]), seq![SpecTokenKind::Eof]);
    lemma_kinds_at_split(ts, 0, head, body + seq![SpecTokenKind::RBrace]);
    assert(kind_at(ts, 0) == SpecTokenKind::Int) by { assert(ts[0int + 0].kind == head[0]); }
    assert(kind_at(ts, 1) == SpecTokenKind::Ident("main"@)) by { assert(ts[0int + 1].kind == head[1]); }
    assert(kind_at(ts, 2) == SpecTokenKind::LParen) by { assert(ts[0int + 2].kind == head[2]); }
    assert(kind_at(ts, 3) == SpecTokenKind::RParen) by { assert(ts[0int + 3].kind == head[3]); }
    assert(kind_at(ts, 4) == SpecTokenKind::LBrace) by { assert(ts[0int + 4].kind == head[4]); }
    lemma_body_parses_printed(ts, 5, ss);
    let n = 5 + body.len();
    lemma_kinds_at_split(ts, 5, body, seq![SpecTokenKind::RBrace]);
    lemma_kind_at_from(ts, n, SpecTokenKind::RBrace);
    lemma_kind_at_from(ts, n + 1, SpecTokenKind::Eof);
}


/// The character of a binary operator.
pub open spec fn op_char(op: BinaryOp) -> char {
    match op {
        BinaryOp::Add => '+',
        BinaryOp::Sub => '-',
        BinaryOp::Mul => '*',
        BinaryOp::Div => '/',
    }
}

/// Every integer literal of `e` is at least 0.
pub open spec fn literals_nonneg(e: Expr) -> bool
    decreases e,
{
    match e {
        Expr::Number(v) => v >= 0,
        Expr::UnaryMinus(inner) => literals_nonneg(*inner),
        Expr::Binary { op, left, right } => literals_nonneg(*left) && literals_nonneg(*right),
    }
}

/// The literals of every statement are at least 0.
pub open spec fn stmts_literals_nonneg(ss: Seq<Stmt>) -> bool {
    forall|k: int|
        0 <= k < ss.len() ==> match #[trigger] ss[k] {
            Stmt::Print(e) => literals_nonneg(e),
            Stmt::Return(e) => literals_nonneg(e),
        }
}

/// An expression as source text, every binary operation in parentheses.
pub open spec fn print_expr(e: Expr) -> Seq<char>
    decreases e,
{
    match e {
        Expr::Number(v) => nat_decimal(v as nat),
        Expr::UnaryMinus(inner) => seq!['-'] + print_expr(*inner),
        Expr::Binary { op, left, right } => seq!['('] + print_expr(*left) + seq![
            ' ',
            op_char(op),
            ' ',
        ] + print_expr(*right) + seq![')'],
    }
}

/// A statement as source text.
pub open spec fn print_stmt(s: Stmt) -> Seq<char> {
    match s {
        Stmt::Print(e) => seq!['p', 'r', 'i', 'n', 't', '('] + print_expr(e) + seq![')', ';'],
        Stmt::Return(e) => seq!['r', 'e', 't', 'u', 'r', 'n', ' '] + print_expr(e) + seq![';'],
    }
}

/// Statements one after the other, then the closing brace of `main`.
pub open spec fn print_body(ss: Seq<Stmt>) -> Seq<char>
    decreases ss.len(),
{
    if ss.len() == 0 {
        seq!['}']
    } else {
        print_stmt(ss[0]) + print_body(ss.drop_first())
    }
}

/// The text `int main() {`.
pub open spec fn print_header() -> Seq<char> {
    seq!['i', 'n', 't', ' ', 'm', 'a', 'i', 'n', '(', ')', ' ', '{']
}

/// A program as source text: `int main() {`, the statements, `}`.
pub open spec fn print_program(ss: Seq<Stmt>) -> Seq<char> {
    print_header() + print_body(ss)
}

/// `s` lexes to the kinds `ks` and an end-of-file token, and holds no comment.
pub open spec fn lexes_to(s: Seq<char>, ks: Seq<SpecTokenKind>) -> bool {
    &&& s.len() > 0
    &&& kinds_of(spec_lex(s)) == Some(ks + seq![SpecTokenKind::Eof])
    &&& no_comment(s)
}

proof fn lemma_join(s: Seq<char>, ks: Seq<SpecTokenKind>, w: Seq<char>, kw: Seq<SpecTokenKind>)
    requires
        lexes_to(s, ks),
        lexes_to(w, kw),
        ends_token(s.last()) || ends_token(w[0]),
        !(s.last() == '/' && w[0] == '/'),
    ensures
        lexes_to(s + w, ks + kw),
        (s + w)[0] == s[0],
        (s + w).last() == w.last(),
{
    lemma_lex_concat(s, w);
    assert((ks + seq![SpecTokenKind::Eof]).drop_last() + (kw + seq![SpecTokenKind::Eof]) =~= (ks
        + kw) + seq![SpecTokenKind::Eof]);
    let x = s + w;
    assert forall|k: int| 0 <= k < x.len() - 1 implies !(#[trigger] x[k] == '/' && x[k + 1] == '/') by {
        if k < s.len() - 1 {
            assert(x[k] == s[k] && x[k + 1] == s[k + 1]);
        } else if k == s.len() - 1 {
            assert(x[k] == s.last() && x[k + 1] == w[0]);
        } else {
            assert(x[k] == w[k - s.len()] && x[k + 1] == w[k - s.len() + 1]);
        }
    }
}

proof fn lemma_lex_one(c: char)
    requires
        single_kind(c) is Some,
    ensures
        lexes_to(seq![c], seq![single_kind(c).unwrap()]),
{
    let s = seq![c];
    assert(lex_from(s, 1, 1, 2) == Ok::<Seq<SpecToken>, SpecError>(
        seq![crate::lexer::spec_token(SpecTokenKind::Eof, 1, 2)],
    ));
    let ts = seq![
        crate::lexer::spec_token(single_kind(c).unwrap(), 1, 1),
        crate::lexer::spec_token(SpecTokenKind::Eof, 1, 2),
    ];
    assert(spec_lex(s) == Ok::<Seq<SpecToken>, SpecError>(ts)) by {
        assert(seq![crate::lexer::spec_token(single_kind(c).unwrap(), 1, 1)] + seq![
            crate::lexer::spec_token(SpecTokenKind::Eof, 1, 2),
        ] =~= ts);
    }
    assert(ts.map_values(|t: SpecToken| t.kind) =~= seq![single_kind(c).unwrap()] + seq![
        SpecTokenKind::Eof,
    ]);
}

proof fn lemma_lex_blank()
    ensures
        lexes_to(seq![' '], Seq::empty()),
{
    let s = seq![' '];
    assert(lex_from(s, 1, 1, 2) == Ok::<Seq<SpecToken>, SpecError>(
        seq![crate::lexer::spec_token(SpecTokenKind::Eof, 1, 2)],
    ));
    assert(seq![crate::lexer::spec_token(SpecTokenKind::Eof, 1, 2)].map_values(
        |t: SpecToken| t.kind,
    ) =~= Seq::<SpecTokenKind>::empty() + seq![SpecTokenKind::Eof]);
}

proof fn lemma_lex_slash()
    ensures
        lexes_to(seq!['/'], seq![SpecTokenKind::Slash]),
{
    let s = seq!['/'];
    assert(lex_from(s, 1, 1, 2) == Ok::<Seq<SpecToken>, SpecError>(
        seq![crate::lexer::spec_token(SpecTokenKind::Eof, 1, 2)],
    ));
    let ts = seq![
        crate::lexer::spec_token(SpecTokenKind::Slash, 1, 1),
        crate::lexer::spec_token(SpecTokenKind::Eof, 1, 2),
    ];
    assert(spec_lex(s) == Ok::<Seq<SpecToken>, SpecError>(ts)) by {
        assert(seq![crate::lexer::spec_token(SpecTokenKind::Slash, 1, 1)] + seq![
            crate::lexer::spec_token(SpecTokenKind::Eof, 1, 2),
        ] =~= ts);
    }
    assert(ts.map_values(|t: SpecToken| t.kind) =~= seq![SpecTokenKind::Slash] + seq![
        SpecTokenKind::Eof,
    ]);
}

proof fn lemma_span_to_end(s: Seq<char>, j: nat, class: CharClass)
    requires
        j <= s.len(),
        forall|k: int| j <= k < s.len() ==> in_class(#[trigger] s[k], class),
    ensures
        span_end(s, j, class) == s.len(),
    decreases s.len() - j,
{
    if j < s.len() {
        lemma_span_to_end(s, j + 1, class);
    }
}

/// A word of identifier characters lexes to its keyword or identifier token.
proof fn lemma_lex_word(w: Seq<char>)
    requires
        w.len() > 0,
        crate::lexer::is_ident_start(w[0]),
        forall|k: int| 0 <= k < w.len() ==> in_class(#[trigger] w[k], CharClass::IdentPart),
    ensures
        lexes_to(w, seq![word_kind(w)]),
{
    lemma_span_to_end(w, 0, CharClass::IdentPart);
    assert(w.subrange(0, w.len() as int) =~= w);
    let e = w.len();
    assert(lex_from(w, e, 1, 1 + e) == Ok::<Seq<SpecToken>, SpecError>(
        seq![crate::lexer::spec_token(SpecTokenKind::Eof, 1, 1 + e)],
    ));
    let ts = seq![
        crate::lexer::spec_token(word_kind(w), 1, 1),
        crate::lexer::spec_token(SpecTokenKind::Eof, 1, 1 + e),
    ];
    assert(spec_lex(w) == Ok::<Seq<SpecToken>, SpecError>(ts)) by {
        assert(seq![crate::lexer::spec_token(word_kind(w), 1, 1)] + seq![
            crate::lexer::spec_token(SpecTokenKind::Eof, 1, 1 + e),
        ] =~= ts);
    }
    assert(ts.map_values(|t: SpecToken| t.kind) =~= seq![word_kind(w)] + seq![SpecTokenKind::Eof]);
    assert forall|k: int| 0 <= k < w.len() - 1 implies !(#[trigger] w[k] == '/' && w[k + 1] == '/') by {
        assert(in_class(w[k], CharClass::IdentPart));
    }
}

pub(crate) proof fn lemma_decimal_digits(n: nat)
    ensures
        nat_decimal(n).len() > 0,
        forall|k: int| 0 <= k < nat_decimal(n).len() ==> crate::lexer::is_digit(
            #[trigger] nat_decimal(n)[k],
        ),
        digits_value(nat_decimal(n)) == n,
    decreases n,
{
    let d = n % 10;
    assert(((d + 48) as u8) as char as int == d + 48) by {
        assert(d < 10);
    }
    if n >= 10 {
        lemma_decimal_digits(n / 10);
        let s = nat_decimal(n);
        assert(s.drop_last() =~= nat_decimal(n / 10));
        assert(s.last() == digit_char(d));
        assert(s.last() as int - 48 == d);
        assert(digits_value(s) == 10 * digits_value(s.drop_last()) + (s.last() as int - 48));
        assert(10 * (n / 10) + d == n);
        assert forall|k: int| 0 <= k < s.len() implies crate::lexer::is_digit(#[trigger] s[k]) by {
            if k < s.len() - 1 {
                assert(s[k] == nat_decimal(n / 10)[k]);
            }
        }
    } else {
        let s = nat_decimal(n);
        assert(s.drop_last() =~= Seq::<char>::empty());
        assert(s.last() as int - 48 == d);
        assert(digits_value(s) == 10 * digits_value(s.drop_last()) + (s.last() as int - 48));
    }
}

/// A literal that fits in an `i32` prints to the digits that lex back to it.
proof fn lemma_lex_number(v: i32)
    requires
        v >= 0,
    ensures
        lexes_to(nat_decimal(v as nat), seq![SpecTokenKind::Number(v)]),
{
    let s = nat_decimal(v as nat);
    lemma_decimal_digits(v as nat);
    assert forall|k: int| 0 <= k < s.len() implies in_class(#[trigger] s[k], CharClass::Digit) by {
        assert(crate::lexer::is_digit(s[k]));
    }
    lemma_span_to_end(s, 0, CharClass::Digit);
    assert(s.subrange(0, s.len() as int) =~= s);
    let e = s.len();
    assert(lex_from(s, e, 1, 1 + e) == Ok::<Seq<SpecToken>, SpecError>(
        seq![crate::lexer::spec_token(SpecTokenKind::Eof, 1, 1 + e)],
    ));
    let ts = seq![
        crate::lexer::spec_token(SpecTokenKind::Number(v), 1, 1),
        crate::lexer::spec_token(SpecTokenKind::Eof, 1, 1 + e),
    ];
    assert(spec_lex(s) == Ok::<Seq<SpecToken>, SpecError>(ts)) by {
        assert(seq![crate::lexer::spec_token(SpecTokenKind::Number(v), 1, 1)] + seq![
            crate::lexer::spec_token(SpecTokenKind::Eof, 1, 1 + e),
        ] =~= ts);
    }
    assert(ts.map_values(|t: SpecToken| t.kind) =~= seq![SpecTokenKind::Number(v)] + seq![
        SpecTokenKind::Eof,
    ]);
    assert forall|k: int| 0 <= k < s.len() - 1 implies !(#[trigger] s[k] == '/' && s[k + 1] == '/') by {
        assert(crate::lexer::is_digit(s[k]));
    }
}


proof fn lemma_lex_operator(op: BinaryOp)
    ensures
        lexes_to(seq![' ', op_char(op), ' '], seq![op_kind(op)]),
{
    let c = op_char(op);
    lemma_lex_blank();
    if op is Div {
        lemma_lex_slash();
    } else {
        lemma_lex_one(c);
    }
    assert(lexes_to(seq![c], seq![op_kind(op)]));
    lemma_join(seq![' '], Seq::empty(), seq![c], seq![op_kind(op)]);
    assert(seq![' '] + seq![c] =~= seq![' ', c]);
    assert(Seq::<SpecTokenKind>::empty() + seq![op_kind(op)] =~= seq![op_kind(op)]);
    lemma_join(seq![' ', c], seq![op_kind(op)], seq![' '], Seq::empty());
    assert(seq![' ', c] + seq![' '] =~= seq![' ', c, ' ']);
    assert(seq![op_kind(op)] + Seq::<SpecTokenKind>::empty() =~= seq![op_kind(op)]);
}

/// A printed expression lexes to its tokens.
proof fn lemma_print_expr(e: Expr)
    requires
        literals_nonneg(e),
    ensures
        lexes_to(print_expr(e), expr_kinds(e)),
        print_expr(e)[0] != '/',
        print_expr(e).last() != '/',
    decreases e,
{
    match e {
        Expr::Number(v) => {
            lemma_lex_number(v);
            lemma_decimal_digits(v as nat);
            let s = nat_decimal(v as nat);
            assert(crate::lexer::is_digit(s[0]));
            assert(crate::lexer::is_digit(s[s.len() - 1]));
        },
        Expr::UnaryMinus(inner) => {
            lemma_lex_one('-');
            lemma_print_expr(*inner);
            lemma_join(seq!['-'], seq![SpecTokenKind::Minus], print_expr(*inner), expr_kinds(*inner));
        },
        Expr::Binary { op, left, right } => {
            let l = *left;
            let r = *right;
            lemma_print_expr(l);
            lemma_print_expr(r);
            lemma_lex_one('(');
            lemma_lex_one(')');
            lemma_lex_operator(op);
            let a = seq!['('] + print_expr(l);
            lemma_join(seq!['('], seq![SpecTokenKind::LParen], print_expr(l), expr_kinds(l));
            let ka = seq![SpecTokenKind::LParen] + expr_kinds(l);
            let b = a + seq![' ', op_char(op), ' '];
            lemma_join(a, ka, seq![' ', op_char(op), ' '], seq![op_kind(op)]);
            let kb = ka + seq![op_kind(op)];
            let c = b + print_expr(r);
            lemma_join(b, kb, print_expr(r), expr_kinds(r));
            let kc = kb + expr_kinds(r);
            lemma_join(c, kc, seq![')'], seq![SpecTokenKind::RParen]);
            assert(kc + seq![SpecTokenKind::RParen] == expr_kinds(e));
        },
    }
}

proof fn lemma_word_chars(w: Seq<char>)
    requires
        w == seq!['i', 'n', 't'] || w == seq!['m', 'a', 'i', 'n'] || w == seq![
            'p',
            'r',
            'i',
            'n',
            't',
        ] || w == seq!['r', 'e', 't', 'u', 'r', 'n'],
    ensures
        lexes_to(w, seq![word_kind(w)]),
{
    assert forall|k: int| 0 <= k < w.len() implies in_class(#[trigger] w[k], CharClass::IdentPart) by {
        assert(k == 0 || k == 1 || k == 2 || k == 3 || k == 4 || k == 5);
    }
    lemma_lex_word(w);
}

proof fn lemma_keywords()
    ensures
        lexes_to(seq!['i', 'n', 't'], seq![SpecTokenKind::Int]),
        lexes_to(seq!['m', 'a', 'i', 'n'], seq![SpecTokenKind::Ident("main"@)]),
        lexes_to(seq!['p', 'r', 'i', 'n', 't'], seq![SpecTokenKind::Print]),
        lexes_to(seq!['r', 'e', 't', 'u', 'r', 'n'], seq![SpecTokenKind::Return]),
{
    reveal_strlit("int");
    reveal_strlit("main");
    reveal_strlit("print");
    reveal_strlit("return");
    lemma_word_chars(seq!['i', 'n', 't']);
    lemma_word_chars(seq!['m', 'a', 'i', 'n']);
    lemma_word_chars(seq!['p', 'r', 'i', 'n', 't']);
    lemma_word_chars(seq!['r', 'e', 't', 'u', 'r', 'n']);
    assert(seq!['i', 'n', 't'] =~= "int"@);
    assert(seq!['m', 'a', 'i', 'n'] =~= "main"@);
    assert(seq!['p', 'r', 'i', 'n', 't'] =~= "print"@);
    assert(seq!['r', 'e', 't', 'u', 'r', 'n'] =~= "return"@);
    assert(seq!['m', 'a', 'i', 'n'] != "int"@);
    assert(seq!['m', 'a', 'i', 'n'] != "return"@);
    assert(seq!['m', 'a', 'i', 'n'] != "print"@);
    assert(seq!['p', 'r', 'i', 'n', 't'] != "int"@);
    assert(seq!['p', 'r', 'i', 'n', 't'] != "return"@);
    assert(seq!['r', 'e', 't', 'u', 'r', 'n'] != "int"@);
}

/// A printed statement lexes to its tokens.
proof fn lemma_print_stmt(s: Stmt)
    requires
        match s {
            Stmt::Print(e) => literals_nonneg(e),
            Stmt::Return(e) => literals_nonneg(e),
        },
    ensures
        lexes_to(print_stmt(s), stmt_kinds(s)),
        print_stmt(s).last() == ';',
{
    lemma_keywords();
    lemma_lex_one(';');
    match s {
        Stmt::Print(e) => {
            lemma_print_expr(e);
            lemma_lex_one('(');
            lemma_lex_one(')');
            let w = seq!['p', 'r', 'i', 'n', 't'];
            lemma_join(w, seq![SpecTokenKind::Print], seq!['('], seq![SpecTokenKind::LParen]);
            let a = w + seq!['('];
            let ka = seq![SpecTokenKind::Print] + seq![SpecTokenKind::LParen];
            lemma_join(a, ka, print_expr(e), expr_kinds(e));
            let b = a + print_expr(e);
            let kb = ka + expr_kinds(e);
            lemma_join(b, kb, seq![')'], seq![SpecTokenKind::RParen]);
            let c = b + seq![')'];
            let kc = kb + seq![SpecTokenKind::RParen];
            lemma_join(c, kc, seq![';'], seq![SpecTokenKind::Semicolon]);
            assert(c + seq![';'] =~= print_stmt(s));
            assert(kc + seq![SpecTokenKind::Semicolon] =~= stmt_kinds(s));
        },
        Stmt::Return(e) => {
            lemma_print_expr(e);
            lemma_lex_blank();
            let w = seq!['r', 'e', 't', 'u', 'r', 'n'];
            lemma_join(w, seq![SpecTokenKind::Return], seq![' '], Seq::empty());
            let a = w + seq![' '];
            let ka = seq![SpecTokenKind::Return] + Seq::<SpecTokenKind>::empty();
            lemma_join(a, ka, print_expr(e), expr_kinds(e));
            let b = a + print_expr(e);
            let kb = ka + expr_kinds(e);
            lemma_join(b, kb, seq![';'], seq![SpecTokenKind::Semicolon]);
            assert(b + seq![';'] =~= print_stmt(s));
            assert(kb + seq![SpecTokenKind::Semicolon] =~= stmt_kinds(s));
        },
    }
}

/// Printed statements and the closing brace lex to their tokens.
proof fn lemma_print_body(ss: Seq<Stmt>)
    requires
        stmts_literals_nonneg(ss),
    ensures
        lexes_to(print_body(ss), stmts_kinds(ss) + seq![SpecTokenKind::RBrace]),
    decreases ss.len(),
{
    if ss.len() == 0 {
        lemma_lex_one('}');
        assert(stmts_kinds(ss) + seq![SpecTokenKind::RBrace] =~= seq![SpecTokenKind::RBrace]);
    } else {
        let rest = ss.drop_first();
        assert(stmts_literals_nonneg(rest)) by {
            assert forall|k: int| 0 <= k < rest.len() implies match #[trigger] rest[k] {
                Stmt::Print(e) => literals_nonneg(e),
                Stmt::Return(e) => literals_nonneg(e),
            } by {
                assert(rest[k] == ss[k + 1]);
            }
        }
        assert(match ss[0] {
            Stmt::Print(e) => literals_nonneg(e),
            Stmt::Return(e) => literals_nonneg(e),
        });
        lemma_print_stmt(ss[0]);
        lemma_print_body(rest);
        lemma_join(
            print_stmt(ss[0]),
            stmt_kinds(ss[0]),
            print_body(rest),
            stmts_kinds(rest) + seq![SpecTokenKind::RBrace],
        );
        assert(stmt_kinds(ss[0]) + (stmts_kinds(rest) + seq![SpecTokenKind::RBrace]) =~= stmts_kinds(
            ss,
        ) + seq![SpecTokenKind::RBrace]);
    }
}

proof fn lemma_print_header()
    ensures
        lexes_to(
            print_header(),
            seq![
                SpecTokenKind::Int,
                SpecTokenKind::Ident("main"@),
                SpecTokenKind::LParen,
                SpecTokenKind::RParen,
                SpecTokenKind::LBrace,
            ],
        ),
{
    lemma_keywords();
    lemma_lex_blank();
    lemma_lex_one('(');
    lemma_lex_one(')');
    lemma_lex_one('{');
    let int_k = SpecTokenKind::Int;
    let main_k = SpecTokenKind::Ident("main"@);
    let s1 = seq!['i', 'n', 't'];
    lemma_join(s1, seq![int_k], seq![' '], Seq::empty());
    let s2 = s1 + seq![' '];
    let k2 = seq![int_k] + Seq::<SpecTokenKind>::empty();
    lemma_join(s2, k2, seq!['m', 'a', 'i', 'n'], seq![main_k]);
    let s3 = s2 + seq!['m', 'a', 'i', 'n'];
    let k3 = k2 + seq![main_k];
    lemma_join(s3, k3, seq!['('], seq![SpecTokenKind::LParen]);
    let s4 = s3 + seq!['('];
    let k4 = k3 + seq![SpecTokenKind::LParen];
    lemma_join(s4, k4, seq![')'], seq![SpecTokenKind::RParen]);
    let s5 = s4 + seq![')'];
    let k5 = k4 + seq![SpecTokenKind::RParen];
    lemma_join(s5, k5, seq![' '], Seq::empty());
    let s6 = s5 + seq![' '];
    let k6 = k5 + Seq::<SpecTokenKind>::empty();
    lemma_join(s6, k6, seq!['{'], seq![SpecTokenKind::LBrace]);
    assert(s6 + seq!['{'] =~= print_header());
    assert(k6 + seq![SpecTokenKind::LBrace] =~= seq![
        SpecTokenKind::Int,
        SpecTokenKind::Ident("main"@),
        SpecTokenKind::LParen,
        SpecTokenKind::RParen,
        SpecTokenKind::LBrace,
    ]);
}

/// Law: a program whose literals are all at least 0, printed as
/// `int main() {` followed by its statements (every binary operation in
/// parentheses) and `}`, parses back to the same program.
pub proof fn lemma_parse_printed_program(ss: Seq<Stmt>)
    requires
        stmts_literals_nonneg(ss),
    ensures
        spec_parse(print_program(ss)) == Ok::<Seq<Stmt>, SpecError>(ss),
{
    let head = seq![
        SpecTokenKind::Int,
        SpecTokenKind::Ident("main"@),
        SpecTokenKind::LParen,
        SpecTokenKind::RParen,
        SpecTokenKind::LBrace,
    ];
    lemma_print_header();
    lemma_print_body(ss);
    lemma_join(print_header(), head, print_body(ss), stmts_kinds(ss) + seq![SpecTokenKind::RBrace]);
    assert(head + (stmts_kinds(ss) + seq![SpecTokenKind::RBrace]) + seq![SpecTokenKind::Eof]
        =~= program_kinds(ss));
    let ts = spec_lex(print_program(ss))->Ok_0;
    lemma_program_parses_printed(ts, ss);
}

} // verus!
