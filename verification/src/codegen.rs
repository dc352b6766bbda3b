//! Code generation: a [`Program`] to the text of an LLVM IR module.
//!
//! Each operator node of an expression computes into a fresh temporary
//! `%t0`, `%t1`, ... in evaluation order (left operand first); `print`
//! calls `printf` with the format `"%d\n"`, and the first `return` ends `main`.
use vstd::prelude::*;

use crate::ast::{
    expr_temps, lemma_stmts_temps_front, lemma_stmts_temps_push, lemma_stmts_temps_split,
    stmts_temps,
    BinaryOp, Expr, Program, Stmt,
};
use crate::text::{
    i32_to_decimal, int_decimal, join_lines, join_with_newlines, nat_decimal, strings_view,
    usize_to_decimal,
};

verus! {

/// The name of temporary number `n`.
pub open spec fn temp_name(n: nat) -> Seq<char> {
    "%t"@ + nat_decimal(n)
}

/// The LLVM instruction of a binary operator.
pub open spec fn instruction(op: BinaryOp) -> Seq<char> {
    match op {
        BinaryOp::Add => "add"@,
        BinaryOp::Sub => "sub"@,
        BinaryOp::Mul => "mul"@,
        BinaryOp::Div => "sdiv"@,
    }
}

/// The line that negates `value` into temporary `n`.
pub open spec fn negate_line(n: nat, value: Seq<char>) -> Seq<char> {
    "  "@ + temp_name(n) + " = sub i32 0, "@ + value
}

/// The line that applies `op` to `left` and `right` into temporary `n`.
pub open spec fn binary_line(n: nat, op: BinaryOp, left: Seq<char>, right: Seq<char>) -> Seq<char> {
    "  "@ + temp_name(n) + " = "@ + instruction(op) + " i32 "@ + left + ", "@ + right
}

/// The line that prints `value`, its result going to temporary `n`.
pub open spec fn print_line(n: nat, value: Seq<char>) -> Seq<char> {
    "  "@ + temp_name(n) + " = call i32 (ptr, ...) @printf(ptr @.fmt_int, i32 "@ + value + ")"@
}

/// The line that returns `value` from `main`.
pub open spec fn return_line(value: Seq<char>) -> Seq<char> {
    "  ret i32 "@ + value
}

/// The code of `e` with the temporaries numbered from `n`: its lines, the operand
/// that holds its value, and the number of the next free temporary.
pub open spec fn emit(e: Expr, n: nat) -> (Seq<Seq<char>>, Seq<char>, nat)
    decreases e,
{
    match e {
        Expr::Number(v) => (Seq::empty(), int_decimal(v as int), n),
        Expr::UnaryMinus(inner) => {
            let (lines, value, m) = emit(*inner, n);
            (lines.push(negate_line(m, value)), temp_name(m), m + 1)
        },
        Expr::Binary { op, left, right } => {
            let (left_lines, left_value, m1) = emit(*left, n);
            let (right_lines, right_value, m2) = emit(*right, m1);
            (
                (left_lines + right_lines).push(binary_line(m2, op, left_value, right_value)),
                temp_name(m2),
                m2 + 1,
            )
        },
    }
}

/// The lines of the body of `main` for the statements `ss`, temporaries
/// numbered from `n`: up to and with the first `return`, or else ending in `ret i32 0`.
pub open spec fn body_lines(ss: Seq<Stmt>, n: nat) -> Seq<Seq<char>>
    decreases ss.len(),
{
    if ss.len() == 0 {
        seq!["  ret i32 0"@]
    } else {
        match ss[0] {
            Stmt::Print(e) => {
                let (lines, value, m) = emit(e, n);
                lines.push(print_line(m, value)) + body_lines(ss.drop_first(), m + 1)
            },
            Stmt::Return(e) => {
                let (lines, value, m) = emit(e, n);
                lines.push(return_line(value))
            },
        }
    }
}

/// The lines before the body of `main`: the format string, `printf` and the entry block.
pub open spec fn header_lines() -> Seq<Seq<char>> {
    seq![
        "@.fmt_int = private unnamed_addr constant [4 x i8] c\"%d\\0A\\00\""@,
        ""@,
        "declare i32 @printf(ptr, ...)"@,
        ""@,
        "define i32 @main() {"@,
        "entry:"@,
    ]
}

/// All lines of the module generated for the statements `ss`.
pub open spec fn ir_lines(ss: Seq<Stmt>) -> Seq<Seq<char>> {
    header_lines() + body_lines(ss, 0) + seq!["}"@, ""@]
}

/// The text of the module generated for the statements `ss`.
pub open spec fn spec_ir(ss: Seq<Stmt>) -> Seq<char> {
    join_lines(ir_lines(ss))
}

/// Law: the code of an expression uses exactly one fresh temporary per operator
/// node, so the temporaries are numbered consecutively.
pub proof fn lemma_emit_temps(e: Expr, n: nat)
    ensures
        emit(e, n).2 == n + expr_temps(e),
    decreases e,
{
    match e {
        Expr::Number(_) => {},
        Expr::UnaryMinus(inner) => {
            lemma_emit_temps(*inner, n);
        },
        Expr::Binary { op, left, right } => {
            lemma_emit_temps(*left, n);
            lemma_emit_temps(*right, n + expr_temps(*left));
        },
    }
}


/// The LLVM IR module of `program`: `main` prints each `print` operand with
/// `printf` and returns the operand of the first `return`, or 0 if there is none.
pub fn generate_llvm_ir(program: &Program) -> (ir: String)
    requires
        stmts_temps(program@) <= usize::MAX,
    ensures
        ir@ == spec_ir(program@),
{
    let mut codegen = Codegen::new();
    codegen.generate(program)
}

proof fn lemma_body_lines_after_return(a: Seq<Stmt>, e: Expr, b: Seq<Stmt>, n: nat)
    ensures
        body_lines(a + seq![Stmt::Return(e)] + b, n) == body_lines(a + seq![Stmt::Return(e)], n),
    decreases a.len(),
{
    let with_rest = a + seq![Stmt::Return(e)] + b;
    let without = a + seq![Stmt::Return(e)];
    if a.len() == 0 {
        assert(with_rest[0] == Stmt::Return(e));
        assert(without[0] == Stmt::Return(e));
    } else {
        assert(with_rest[0] == a[0]);
        assert(without[0] == a[0]);
        assert(with_rest.drop_first() =~= a.drop_first() + seq![Stmt::Return(e)] + b);
        assert(without.drop_first() =~= a.drop_first() + seq![Stmt::Return(e)]);
        if let Stmt::Print(x) = a[0] {
            lemma_body_lines_after_return(a.drop_first(), e, b, emit(x, n).2 + 1);
        }
    }
}

/// Law: statements after the first `return` generate no code.
pub proof fn lemma_ir_ignores_statements_after_return(a: Seq<Stmt>, e: Expr, b: Seq<Stmt>)
    ensures
        spec_ir(a + seq![Stmt::Return(e)] + b) == spec_ir(a + seq![Stmt::Return(e)]),
{
    lemma_body_lines_after_return(a, e, b, 0);
}

proof fn lemma_body_lines_end_without_return(ss: Seq<Stmt>, n: nat)
    requires
        forall|k: int| 0 <= k < ss.len() ==> !(#[trigger] ss[k] is Return),
    ensures
        body_lines(ss, n).len() > 0,
        body_lines(ss, n).last() == "  ret i32 0"@,
    decreases ss.len(),
{
    if ss.len() > 0 {
        assert(!(ss[0] is Return));
        if let Stmt::Print(x) = ss[0] {
            assert forall|k: int| 0 <= k < ss.drop_first().len() implies !(
            #[trigger] ss.drop_first()[k] is Return) by {
                assert(ss.drop_first()[k] == ss[k + 1]);
            }
            lemma_body_lines_end_without_return(ss.drop_first(), emit(x, n).2 + 1);
        }
    }
}

/// Law: when no statement returns, `main` ends by returning 0.
pub proof fn lemma_ir_returns_zero_without_return(ss: Seq<Stmt>)
    requires
        forall|k: int| 0 <= k < ss.len() ==> !(#[trigger] ss[k] is Return),
    ensures
        ir_lines(ss)[ir_lines(ss).len() - 3] == "  ret i32 0"@,
        ir_lines(ss)[ir_lines(ss).len() - 2] == "}"@,
{
    lemma_body_lines_end_without_return(ss, 0);
    let body = body_lines(ss, 0);
    assert(ir_lines(ss)[ir_lines(ss).len() - 3] == body[body.len() - 1]);
}

struct Codegen {
    next_temp: usize,
    lines: Vec<String>,
}

impl Codegen {
    fn new() -> (c: Self)
        ensures
            c.next_temp == 0,
            c.lines@.len() == 0,
    {
        Codegen { next_temp: 0, lines: Vec::new() }
    }

    spec fn lines_view(&self) -> Seq<Seq<char>> {
        strings_view(self.lines@)
    }

    fn push_line(&mut self, line: String)
        ensures
            final(self).lines_view() == old(self).lines_view().push(line@),
            final(self).next_temp == old(self).next_temp,
    {
        let ghost line_view = line@;
        self.lines.push(line);
        assert(strings_view(self.lines@) =~= strings_view(old(self).lines@).push(line_view));
    }

    fn temp(&mut self) -> (t: String)
        requires
            old(self).next_temp < usize::MAX,
        ensures
            t@ == temp_name(old(self).next_temp as nat),
            final(self).next_temp == old(self).next_temp + 1,
            final(self).lines@ == old(self).lines@,
    {
        let mut temp = String::from_str("%t");
        let number = usize_to_decimal(self.next_temp);
        temp.append(number.as_str());
        self.next_temp = self.next_temp + 1;
        temp
    }

    fn emit_expr(&mut self, expr: &Expr) -> (value: String)
        requires
            old(self).next_temp + expr_temps(*expr) <= usize::MAX,
        ensures
            final(self).lines_view() == old(self).lines_view() + emit(
                *expr,
                old(self).next_temp as nat,
            ).0,
            value@ == emit(*expr, old(self).next_temp as nat).1,
            final(self).next_temp == emit(*expr, old(self).next_temp as nat).2,
        decreases expr,
    {
        proof {
            lemma_emit_temps(*expr, self.next_temp as nat);
        }
        match expr {
            Expr::Number(value) => {
                assert(self.lines_view() + Seq::<Seq<char>>::empty() =~= self.lines_view());
                i32_to_decimal(*value)
            },
            Expr::UnaryMinus(inner) => {
                let value = self.emit_expr(inner);
                let temp = self.temp();
                let mut line = String::from_str("  ");
                line.append(temp.as_str());
                line.append(" = sub i32 0, ");
                line.append(value.as_str());
                self.push_line(line);
                proof {
                    let (ls, v, m) = emit(**inner, old(self).next_temp as nat);
                    assert(self.lines_view() =~= old(self).lines_view() + ls.push(negate_line(m, v)));
                }
                temp
            },
            Expr::Binary { op, left, right } => {
                proof {
                    lemma_emit_temps(**left, self.next_temp as nat);
                }
                let left_value = self.emit_expr(left);
                let right_value = self.emit_expr(right);
                let instruction = match op {
                    BinaryOp::Add => "add",
                    BinaryOp::Sub => "sub",
                    BinaryOp::Mul => "mul",
                    BinaryOp::Div => "sdiv",
                };
                let temp = self.temp();
                let mut line = String::from_str("  ");
                line.append(temp.as_str());
                line.append(" = ");
                line.append(instruction);
                line.append(" i32 ");
                line.append(left_value.as_str());
                line.append(", ");
                line.append(right_value.as_str());
                self.push_line(line);
                proof {
                    let (l1, lv, m1) = emit(**left, old(self).next_temp as nat);
                    let (l2, rv, m2) = emit(**right, m1);
                    assert(self.lines_view() =~= old(self).lines_view() + (l1 + l2).push(
                        binary_line(m2, *op, lv, rv),
                    ));
                }
                temp
            },
        }
    }

    fn generate(&mut self, program: &Program) -> (ir: String)
        requires
            old(self).next_temp == 0,
            old(self).lines@.len() == 0,
            stmts_temps(program@) <= usize::MAX,
        ensures
            ir@ == spec_ir(program@),
    {
        let ghost ss = program@;
        self.push_line(
            String::from_str(
                "@.fmt_int = private unnamed_addr constant [4 x i8] c\"%d\\0A\\00\"",
            ),
        );
        self.push_line(String::new());
        self.push_line(String::from_str("declare i32 @printf(ptr, ...)"));
        self.push_line(String::new());
        self.push_line(String::from_str("define i32 @main() {"));
        self.push_line(String::from_str("entry:"));
        proof {
            reveal_strlit("");
        }
        assert(self.lines_view()[1] == header_lines()[1]);
        assert(self.lines_view() =~= header_lines());

        let mut returned = false;
        let mut i: usize = 0;
        assert(ss.take(0).len() == 0);
        assert(ss.skip(0) =~= ss);
        while i < program.statements.len() && !returned
            invariant
                ss == program@,
                0 <= i <= ss.len(),
                stmts_temps(ss) <= usize::MAX,
                !returned ==> self.next_temp == stmts_temps(ss.take(i as int)),
                header_lines() + body_lines(ss, 0) == self.lines_view() + (if returned {
                    Seq::empty()
                } else {
                    body_lines(ss.skip(i as int), self.next_temp as nat)
                }),
            decreases ss.len() - i + (if returned { 0int } else { 1int }),
        {
            let ghost n = self.next_temp as nat;
            let ghost rest = ss.skip(i as int);
            let ghost before = self.lines_view();
            proof {
                lemma_stmts_temps_split(ss, i as int);
                lemma_stmts_temps_front(rest);
                assert(rest[0] == ss[i as int]);
                assert(rest.drop_first() =~= ss.skip(i + 1));
                assert(ss.take(i + 1) =~= ss.take(i as int).push(ss[i as int]));
                lemma_stmts_temps_push(ss.take(i as int), ss[i as int]);
            }
            match &program.statements[i] {
                Stmt::Print(expr) => {
                    proof {
                        lemma_emit_temps(*expr, n);
                    }
                    let value = self.emit_expr(expr);
                    let temp = self.temp();
                    let mut line = String::from_str("  ");
                    line.append(temp.as_str());
                    line.append(" = call i32 (ptr, ...) @printf(ptr @.fmt_int, i32 ");
                    line.append(value.as_str());
                    line.append(")");
                    self.push_line(line);
                    proof {
                        let (ls, v, m) = emit(*expr, n);
                        assert(self.lines_view() =~= before + ls.push(print_line(m, v)));
                        assert(before + body_lines(rest, n) =~= self.lines_view() + body_lines(
                            ss.skip(i + 1),
                            self.next_temp as nat,
                        ));
                    }
                },
                Stmt::Return(expr) => {
                    proof {
                        lemma_emit_temps(*expr, n);
                    }
                    let value = self.emit_expr(expr);
                    let mut line = String::from_str("  ret i32 ");
                    line.append(value.as_str());
                    self.push_line(line);
                    returned = true;
                    proof {
                        let (ls, v, m) = emit(*expr, n);
                        assert(self.lines_view() =~= before + ls.push(return_line(v)));
                    }
                },
            }
            i = i + 1;
        }
        if !returned {
            assert(ss.skip(i as int).len() == 0);
            self.push_line(String::from_str("  ret i32 0"));
        }
        self.push_line(String::from_str("}"));
        self.push_line(String::new());
        proof {
            reveal_strlit("");
        }
        assert(self.lines_view() =~= ir_lines(ss));
        join_with_newlines(&self.lines)
    }
}

} // verus!
