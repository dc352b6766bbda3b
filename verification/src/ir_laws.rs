//! What the generated code computes: a reading of the emitted IR lines as
//! 32-bit integer instructions, and the law that the code of an expression
//! computes the arithmetic value of the expression.
use vstd::prelude::*;

use crate::ast::{BinaryOp, Expr};
use crate::codegen::{binary_line, emit, instruction, lemma_emit_temps, negate_line, temp_name};
use crate::lexer::{digits_value, is_digit};
use crate::roundtrip::lemma_decimal_digits;
use crate::text::{int_decimal, nat_decimal};

verus! {

/// `v` wrapped into the range of `i32`, as two's-complement arithmetic does.
pub open spec fn wrap_i32(v: int) -> int {
    (v + 0x8000_0000) % 0x1_0000_0000 - 0x8000_0000
}

/// Division rounding towards zero.
pub open spec fn trunc_div(a: int, b: int) -> int {
    if a >= 0 && b > 0 {
        a / b
    } else if a >= 0 {
        -(a / (-b))
    } else if b > 0 {
        -((-a) / b)
    } else {
        (-a) / (-b)
    }
}

/// The value of `op` on 32-bit integers (`add`, `sub`, `mul` wrap around;
/// `sdiv` rounds towards zero and has no value on division by zero or on
/// the one quotient that overflows).
pub open spec fn apply_op(op: BinaryOp, a: int, b: int) -> Option<int> {
    match op {
        BinaryOp::Add => Some(wrap_i32(a + b)),
        BinaryOp::Sub => Some(wrap_i32(a - b)),
        BinaryOp::Mul => Some(wrap_i32(a * b)),
        BinaryOp::Div => if b == 0 || (a == i32::MIN && b == -1) {
            None
        } else {
            Some(trunc_div(a, b))
        },
    }
}

/// The arithmetic value of an expression on 32-bit integers, if it has one.
pub open spec fn eval(e: Expr) -> Option<int>
    decreases e,
{
    match e {
        Expr::Number(v) => Some(v as int),
        Expr::UnaryMinus(inner) => match eval(*inner) {
            Some(a) => Some(wrap_i32(0 - a)),
            None => None,
        },
        Expr::Binary { op, left, right } => match (eval(*left), eval(*right)) {
            (Some(a), Some(b)) => apply_op(op, a, b),
            _ => None,
        },
    }
}

/// The pieces of `s` between single spaces.
pub open spec fn split_spaces(s: Seq<char>) -> Seq<Seq<char>>
    decreases s.len(),
{
    if s.len() == 0 {
        seq![Seq::empty()]
    } else {
        let rest = split_spaces(s.drop_first());
        if s[0] == ' ' {
            seq![Seq::<char>::empty()] + rest
        } else {
            rest.update(0, seq![s[0]] + rest[0])
        }
    }
}

/// Every character of `w` is a decimal digit.
pub open spec fn all_digits(w: Seq<char>) -> bool {
    forall|k: int| 0 <= k < w.len() ==> is_digit(#[trigger] w[k])
}

/// The number of a temporary named `w` (`%t` and decimal digits).
pub open spec fn temp_number(w: Seq<char>) -> Option<nat> {
    if w.len() >= 3 && w[0] == '%' && w[1] == 't' && all_digits(w.skip(2)) {
        Some(digits_value(w.skip(2)) as nat)
    } else {
        None
    }
}

/// The value of an operand `w`: a temporary's value in `env`, or an integer literal.
pub open spec fn operand_value(w: Seq<char>, env: Map<nat, int>) -> Option<int> {
    if temp_number(w) is Some {
        let k = temp_number(w)->0;
        if env.dom().contains(k) {
            Some(env[k])
        } else {
            None
        }
    } else if w.len() >= 2 && w[0] == '-' && all_digits(w.skip(1)) {
        Some(-digits_value(w.skip(1)))
    } else if w.len() >= 1 && all_digits(w) {
        Some(digits_value(w))
    } else {
        None
    }
}

/// The operator of an instruction name.
pub open spec fn instruction_op(w: Seq<char>) -> Option<BinaryOp> {
    if w == seq!['a', 'd', 'd'] {
        Some(BinaryOp::Add)
    } else if w == seq!['s', 'u', 'b'] {
        Some(BinaryOp::Sub)
    } else if w == seq!['m', 'u', 'l'] {
        Some(BinaryOp::Mul)
    } else if w == seq!['s', 'd', 'i', 'v'] {
        Some(BinaryOp::Div)
    } else {
        None
    }
}

/// Runs one line `  %tN = INSTR i32 A, B` on the values `env` of the
/// temporaries: `env` with temporary N set, or nothing if the line is no such
/// instruction or an operand or the result has no value.
pub open spec fn run_line(line: Seq<char>, env: Map<nat, int>) -> Option<Map<nat, int>> {
    let w = split_spaces(line);
    if w.len() == 8 && w[0].len() == 0 && w[1].len() == 0 && w[3] == seq!['='] && w[5] == seq![
        'i',
        '3',
        '2',
    ] && w[6].len() > 0 && w[6].last() == ',' && temp_number(w[2]) is Some && instruction_op(w[4]) is Some {
        match (operand_value(w[6].drop_last(), env), operand_value(w[7], env)) {
            (Some(a), Some(b)) => match apply_op(instruction_op(w[4])->0, a, b) {
                Some(v) => Some(env.insert(temp_number(w[2])->0, v)),
                None => None,
            },
            _ => None,
        }
    } else {
        None
    }
}

/// Runs lines one after the other.
pub open spec fn run_lines(lines: Seq<Seq<char>>, env: Map<nat, int>) -> Option<Map<nat, int>>
    decreases lines.len(),
{
    if lines.len() == 0 {
        Some(env)
    } else {
        match run_line(lines[0], env) {
            Some(next) => run_lines(lines.drop_first(), next),
            None => None,
        }
    }
}

/// `later` keeps every temporary of `earlier` numbered below `n`, and no other below `n`.
pub open spec fn agrees_below(earlier: Map<nat, int>, later: Map<nat, int>, n: nat) -> bool {
    forall|k: nat|
        k < n ==> (#[trigger] earlier.dom().contains(k) <==> later.dom().contains(k)) && (
        earlier.dom().contains(k) ==> earlier[k] == later[k])
}

/// `w` holds no space.
pub open spec fn spaceless(w: Seq<char>) -> bool {
    forall|k: int| 0 <= k < w.len() ==> #[trigger] w[k] != ' '
}

proof fn lemma_split_spaceless(w: Seq<char>)
    requires
        spaceless(w),
    ensures
        split_spaces(w) == seq![w],
    decreases w.len(),
{
    if w.len() > 0 {
        let t = w.drop_first();
        assert(spaceless(t)) by {
            assert forall|k: int| 0 <= k < t.len() implies #[trigger] t[k] != ' ' by {
                assert(t[k] == w[k + 1]);
            }
        }
        lemma_split_spaceless(t);
        assert(w[0] != ' ');
        assert(seq![w[0]] + t =~= w);
        assert(split_spaces(w) == split_spaces(t).update(0, seq![w[0]] + split_spaces(t)[0]));
        assert(seq![t].update(0, seq![w[0]] + t) =~= seq![w]);
    } else {
        assert(w =~= Seq::<char>::empty());
    }
}

proof fn lemma_split_cons(w: Seq<char>, rest: Seq<char>)
    requires
        spaceless(w),
    ensures
        split_spaces(w + seq![' '] + rest) == seq![w] + split_spaces(rest),
    decreases w.len(),
{
    let s = w + seq![' '] + rest;
    if w.len() == 0 {
        assert(s.drop_first() =~= rest);
        assert(s[0] == ' ');
        assert(w =~= Seq::<char>::empty());
        assert(split_spaces(s) == seq![Seq::<char>::empty()] + split_spaces(s.drop_first()));
    } else {
        let t = w.drop_first();
        assert(spaceless(t)) by {
            assert forall|k: int| 0 <= k < t.len() implies #[trigger] t[k] != ' ' by {
                assert(t[k] == w[k + 1]);
            }
        }
        lemma_split_cons(t, rest);
        assert(s.drop_first() =~= t + seq![' '] + rest);
        assert(s[0] == w[0]);
        assert(w[0] != ' ');
        assert(seq![w[0]] + t =~= w);
        let r = split_spaces(s.drop_first());
        assert(split_spaces(s) == r.update(0, seq![s[0]] + r[0]));
        assert((seq![t] + split_spaces(rest)).update(0, seq![w[0]] + t) =~= seq![w]
            + split_spaces(rest));
    }
}

proof fn lemma_decimal_facts(n: nat)
    ensures
        nat_decimal(n).len() > 0,
        all_digits(nat_decimal(n)),
        digits_value(nat_decimal(n)) == n,
        spaceless(nat_decimal(n)),
{
    lemma_decimal_digits(n);
    assert forall|k: int| 0 <= k < nat_decimal(n).len() implies #[trigger] nat_decimal(n)[k]
        != ' ' by {
        assert(is_digit(nat_decimal(n)[k]));
    }
}

proof fn lemma_temp_name(k: nat, env: Map<nat, int>)
    ensures
        temp_number(temp_name(k)) == Some(k),
        operand_value(temp_name(k), env) == if env.dom().contains(k) {
            Some(env[k])
        } else {
            None::<int>
        },
        spaceless(temp_name(k)),
{
    reveal_strlit("%t");
    lemma_decimal_facts(k);
    let w = temp_name(k);
    assert(w.skip(2) =~= nat_decimal(k));
    assert forall|j: int| 0 <= j < w.len() implies #[trigger] w[j] != ' ' by {
        if j >= 2 {
            assert(w[j] == nat_decimal(k)[j - 2]);
        }
    }
}

proof fn lemma_literal(v: i32, env: Map<nat, int>)
    ensures
        operand_value(int_decimal(v as int), env) == Some(v as int),
        spaceless(int_decimal(v as int)),
{
    let w = int_decimal(v as int);
    if v < 0 {
        let d = nat_decimal((-(v as int)) as nat);
        lemma_decimal_facts((-(v as int)) as nat);
        assert(w.skip(1) =~= d);
        assert(w[0] == '-');
        assert(temp_number(w) is None);
        assert forall|j: int| 0 <= j < w.len() implies #[trigger] w[j] != ' ' by {
            if j >= 1 {
                assert(w[j] == d[j - 1]);
            }
        }
    } else {
        lemma_decimal_facts(v as nat);
        assert(is_digit(w[0]));
        assert(temp_number(w) is None);
    }
}


proof fn lemma_instruction(op: BinaryOp)
    ensures
        instruction_op(instruction(op)) == Some(op),
        spaceless(instruction(op)),
{
    reveal_strlit("add");
    reveal_strlit("sub");
    reveal_strlit("mul");
    reveal_strlit("sdiv");
    let w = instruction(op);
    assert forall|k: int| 0 <= k < w.len() implies #[trigger] w[k] != ' ' by {
        assert(k == 0 || k == 1 || k == 2 || k == 3);
    }
    match op {
        BinaryOp::Add => assert(w =~= seq!['a', 'd', 'd']),
        BinaryOp::Sub => assert(w =~= seq!['s', 'u', 'b']),
        BinaryOp::Mul => assert(w =~= seq!['m', 'u', 'l']),
        BinaryOp::Div => assert(w =~= seq!['s', 'd', 'i', 'v']),
    }
}

proof fn lemma_binary_line_words(m: nat, op: BinaryOp, a: Seq<char>, b: Seq<char>)
    requires
        spaceless(a),
        spaceless(b),
    ensures
        split_spaces(binary_line(m, op, a, b)) == seq![
            Seq::<char>::empty(),
            Seq::<char>::empty(),
            temp_name(m),
            seq!['='],
            instruction(op),
            seq!['i', '3', '2'],
            a + seq![','],
            b,
        ],
{
    reveal_strlit("  ");
    reveal_strlit(" = ");
    reveal_strlit(" i32 ");
    reveal_strlit(", ");
    let e = Seq::<char>::empty();
    let sp = seq![' '];
    let t = temp_name(m);
    let i = instruction(op);
    let ac = a + seq![','];
    lemma_temp_name(m, Map::empty());
    lemma_instruction(op);
    assert(spaceless(ac)) by {
        assert forall|k: int| 0 <= k < ac.len() implies #[trigger] ac[k] != ' ' by {
            if k < a.len() {
                assert(ac[k] == a[k]);
            }
        }
    }
    assert(spaceless(e));
    assert(spaceless(seq!['=']));
    let width = seq!['i', '3', '2'];
    assert(spaceless(width)) by {
        assert forall|k: int| 0 <= k < width.len() implies #[trigger] width[k] != ' ' by {
            assert(k == 0 || k == 1 || k == 2);
        }
    }
    let p7 = ac + sp + b;
    let p6 = width + sp + p7;
    let p5 = i + sp + p6;
    let p4 = seq!['='] + sp + p5;
    let p3 = t + sp + p4;
    let p2 = e + sp + p3;
    let p1 = e + sp + p2;
    assert(binary_line(m, op, a, b) =~= p1);
    lemma_split_spaceless(b);
    lemma_split_cons(ac, b);
    lemma_split_cons(width, p7);
    lemma_split_cons(i, p6);
    lemma_split_cons(seq!['='], p5);
    lemma_split_cons(t, p4);
    lemma_split_cons(e, p3);
    lemma_split_cons(e, p2);
    assert(split_spaces(p1) =~= seq![e, e, t, seq!['='], i, width, ac, b]);
}

/// What running a rendered instruction line does.
proof fn lemma_run_binary_line(m: nat, op: BinaryOp, a: Seq<char>, b: Seq<char>, env: Map<nat, int>)
    requires
        spaceless(a),
        spaceless(b),
    ensures
        run_line(binary_line(m, op, a, b), env) == match (
            operand_value(a, env),
            operand_value(b, env),
        ) {
            (Some(x), Some(y)) => match apply_op(op, x, y) {
                Some(v) => Some(env.insert(m, v)),
                None => None,
            },
            _ => None,
        },
{
    lemma_binary_line_words(m, op, a, b);
    lemma_temp_name(m, env);
    lemma_instruction(op);
    assert((a + seq![',']).drop_last() =~= a);
    assert((a + seq![',']).last() == ',');
}

proof fn lemma_negate_line(m: nat, v: Seq<char>)
    ensures
        negate_line(m, v) == binary_line(m, BinaryOp::Sub, seq!['0'], v),
{
    reveal_strlit("  ");
    reveal_strlit(" = ");
    reveal_strlit(" i32 ");
    reveal_strlit(", ");
    reveal_strlit("sub");
    reveal_strlit(" = sub i32 0, ");
    assert(negate_line(m, v) =~= binary_line(m, BinaryOp::Sub, seq!['0'], v));
}

proof fn lemma_zero_operand(env: Map<nat, int>)
    ensures
        operand_value(seq!['0'], env) == Some(0int),
        spaceless(seq!['0']),
{
    let w = seq!['0'];
    assert(all_digits(w));
    assert(w.drop_last() =~= Seq::<char>::empty());
    assert(digits_value(w) == 10 * digits_value(w.drop_last()) + (w.last() as int - 48));
}

proof fn lemma_run_lines_concat(a: Seq<Seq<char>>, b: Seq<Seq<char>>, env: Map<nat, int>)
    ensures
        run_lines(a + b, env) == match run_lines(a, env) {
            Some(mid) => run_lines(b, mid),
            None => None,
        },
    decreases a.len(),
{
    if a.len() == 0 {
        assert(a + b =~= b);
    } else {
        assert((a + b)[0] == a[0]);
        assert((a + b).drop_first() =~= a.drop_first() + b);
        if let Some(next) = run_line(a[0], env) {
            lemma_run_lines_concat(a.drop_first(), b, next);
        }
    }
}

proof fn lemma_run_one_line(line: Seq<char>, env: Map<nat, int>)
    ensures
        run_lines(seq![line], env) == run_line(line, env),
{
    let s = seq![line];
    assert(s[0] == line);
    assert(s.drop_first() =~= Seq::<Seq<char>>::empty());
    if let Some(next) = run_line(line, env) {
        assert(run_lines(Seq::<Seq<char>>::empty(), next) == Some(next));
    }
}

/// The operand of an expression's code is a literal or a temporary numbered
/// below the next free one, and holds no space.
proof fn lemma_operand_frame(e: Expr, n: nat, env1: Map<nat, int>, env2: Map<nat, int>)
    requires
        agrees_below(env1, env2, emit(e, n).2),
    ensures
        operand_value(emit(e, n).1, env1) == operand_value(emit(e, n).1, env2),
        spaceless(emit(e, n).1),
{
    match e {
        Expr::Number(v) => {
            lemma_literal(v, env1);
            lemma_literal(v, env2);
        },
        Expr::UnaryMinus(inner) => {
            let m = emit(*inner, n).2;
            lemma_temp_name(m, env1);
            lemma_temp_name(m, env2);
            assert(env1.dom().contains(m) <==> env2.dom().contains(m));
        },
        Expr::Binary { op, left, right } => {
            let m1 = emit(*left, n).2;
            let m2 = emit(*right, m1).2;
            lemma_temp_name(m2, env1);
            lemma_temp_name(m2, env2);
            assert(env1.dom().contains(m2) <==> env2.dom().contains(m2));
        },
    }
}

/// One step of the evaluation law: the code of `-x`, given what the code of `x` does.
proof fn lemma_negate_step(x: Expr, n: nat, env: Map<nat, int>)
    requires
        eval(x) is Some,
        emit(x, n).2 >= n,
        run_lines(emit(x, n).0, env) is Some,
        agrees_below(env, run_lines(emit(x, n).0, env)->0, n),
        operand_value(emit(x, n).1, run_lines(emit(x, n).0, env)->0) == eval(x),
    ensures
        ({
            let e = Expr::UnaryMinus(Box::new(x));
            &&& run_lines(emit(e, n).0, env) is Some
            &&& agrees_below(env, run_lines(emit(e, n).0, env)->0, n)
            &&& operand_value(emit(e, n).1, run_lines(emit(e, n).0, env)->0) == eval(e)
        }),
{
    let e = Expr::UnaryMinus(Box::new(x));
    let (ls, v, m) = emit(x, n);
    let env1 = run_lines(ls, env)->0;
    lemma_operand_frame(x, n, env1, env1);
    lemma_negate_line(m, v);
    lemma_zero_operand(env1);
    lemma_run_binary_line(m, BinaryOp::Sub, seq!['0'], v, env1);
    assert(ls.push(negate_line(m, v)) =~= ls + seq![negate_line(m, v)]);
    lemma_run_lines_concat(ls, seq![negate_line(m, v)], env);
    lemma_run_one_line(negate_line(m, v), env1);
    let env2 = env1.insert(m, wrap_i32(0 - eval(x)->0));
    assert(emit(e, n).0 == ls.push(negate_line(m, v)));
    assert(run_lines(emit(e, n).0, env) == Some(env2));
    lemma_temp_name(m, env2);
    assert(agrees_below(env, env2, n)) by {
        assert forall|k: nat| k < n implies (#[trigger] env.dom().contains(k) <==> env2.dom().contains(k))
            && (env.dom().contains(k) ==> env[k] == env2[k]) by {
            assert(env.dom().contains(k) <==> env1.dom().contains(k));
        }
    }
}

/// One step of the evaluation law: the code of `l op r`, given what the codes
/// of `l` and `r` do.
proof fn lemma_binary_step(op: BinaryOp, l: Expr, r: Expr, n: nat, env: Map<nat, int>)
    requires
        eval(l) is Some,
        eval(r) is Some,
        apply_op(op, eval(l)->0, eval(r)->0) is Some,
        emit(l, n).2 >= n,
        emit(r, emit(l, n).2).2 >= emit(l, n).2,
        run_lines(emit(l, n).0, env) is Some,
        agrees_below(env, run_lines(emit(l, n).0, env)->0, n),
        operand_value(emit(l, n).1, run_lines(emit(l, n).0, env)->0) == eval(l),
        ({
            let env1 = run_lines(emit(l, n).0, env)->0;
            let m1 = emit(l, n).2;
            &&& run_lines(emit(r, m1).0, env1) is Some
            &&& agrees_below(env1, run_lines(emit(r, m1).0, env1)->0, m1)
            &&& operand_value(emit(r, m1).1, run_lines(emit(r, m1).0, env1)->0) == eval(r)
        }),
    ensures
        ({
            let e = Expr::Binary { op, left: Box::new(l), right: Box::new(r) };
            &&& run_lines(emit(e, n).0, env) is Some
            &&& agrees_below(env, run_lines(emit(e, n).0, env)->0, n)
            &&& operand_value(emit(e, n).1, run_lines(emit(e, n).0, env)->0) == eval(e)
        }),
{
    let e = Expr::Binary { op, left: Box::new(l), right: Box::new(r) };
    let (l1, lv, m1) = emit(l, n);
    let (l2, rv, m2) = emit(r, m1);
    let env1 = run_lines(l1, env)->0;
    let env2 = run_lines(l2, env1)->0;
    lemma_operand_frame(l, n, env1, env2);
    lemma_operand_frame(r, m1, env2, env2);
    let a = eval(l)->0;
    let b = eval(r)->0;
    let line = binary_line(m2, op, lv, rv);
    lemma_run_binary_line(m2, op, lv, rv, env2);
    let env3 = env2.insert(m2, apply_op(op, a, b)->0);
    assert(run_line(line, env2) == Some(env3));
    lemma_run_lines_concat(l1, l2, env);
    assert(run_lines(l1 + l2, env) == Some(env2));
    assert((l1 + l2).push(line) =~= (l1 + l2) + seq![line]);
    lemma_run_lines_concat(l1 + l2, seq![line], env);
    lemma_run_one_line(line, env2);
    assert(emit(e, n).0 == (l1 + l2).push(line));
    assert(run_lines(emit(e, n).0, env) == Some(env3));
    assert(eval(e) == apply_op(op, a, b));
    lemma_temp_name(m2, env3);
    assert(agrees_below(env, env3, n)) by {
        assert forall|k: nat| k < n implies (#[trigger] env.dom().contains(k) <==> env3.dom().contains(k))
            && (env.dom().contains(k) ==> env[k] == env3[k]) by {
            assert(env.dom().contains(k) <==> env1.dom().contains(k));
            assert(env1.dom().contains(k) <==> env2.dom().contains(k));
        }
    }
}

/// Law (evaluation): the code generated for an expression, run on any values
/// of the temporaries, leaves the temporaries numbered below its first one as
/// they were, and its operand then holds the arithmetic value of the
/// expression on 32-bit integers, whenever the expression has one.
pub proof fn lemma_emit_computes_value(e: Expr, n: nat, env: Map<nat, int>)
    requires
        eval(e) is Some,
    ensures
        run_lines(emit(e, n).0, env) is Some,
        agrees_below(env, run_lines(emit(e, n).0, env)->0, n),
        operand_value(emit(e, n).1, run_lines(emit(e, n).0, env)->0) == eval(e),
    decreases e,
{
    match e {
        Expr::Number(v) => {
            lemma_literal(v, env);
            assert(run_lines(Seq::<Seq<char>>::empty(), env) == Some(env));
        },
        Expr::UnaryMinus(inner) => {
            let x = *inner;
            lemma_emit_temps(x, n);
            lemma_emit_computes_value(x, n, env);
            lemma_negate_step(x, n, env);
        },
        Expr::Binary { op, left, right } => {
            let l = *left;
            let r = *right;
            let m1 = emit(l, n).2;
            lemma_emit_temps(l, n);
            lemma_emit_temps(r, m1);
            lemma_emit_computes_value(l, n, env);
            let env1 = run_lines(emit(l, n).0, env)->0;
            lemma_emit_computes_value(r, m1, env1);
            lemma_binary_step(op, l, r, n, env);
        },
    }
}

} // verus!
