//! The syntax tree of a program: the statements of `main`.
use vstd::prelude::*;

verus! {

/// A program: the statements of the body of `int main()`, in order.
#[derive(Debug, Clone, PartialEq, Eq)]
pub struct Program {
    pub statements: Vec<Stmt>,
}

/// A statement of `main`.
#[derive(Debug, Clone, PartialEq, Eq)]
pub enum Stmt {
    Print(Expr),
    Return(Expr),
}

/// An integer expression.
#[derive(Debug, PartialEq, Eq)]
pub enum Expr {
    Number(i32),
    UnaryMinus(Box<Expr>),
    Binary { op: BinaryOp, left: Box<Expr>, right: Box<Expr> },
}

/// A binary arithmetic operator.
#[derive(Debug, Clone, Copy, PartialEq, Eq)]
pub enum BinaryOp {
    Add,
    Sub,
    Mul,
    Div,
}

impl Clone for Expr {
    fn clone(&self) -> (e: Self)
        ensures
            e == *self,
        decreases self,
    {
        match self {
            Expr::Number(v) => Expr::Number(*v),
            Expr::UnaryMinus(inner) => Expr::UnaryMinus(Box::new((**inner).clone())),
            Expr::Binary { op, left, right } => Expr::Binary {
                op: *op,
                left: Box::new((**left).clone()),
                right: Box::new((**right).clone()),
            },
        }
    }
}

impl View for Program {
    type V = Seq<Stmt>;

    open spec fn view(&self) -> Seq<Stmt> {
        self.statements@
    }
}

/// The number of operator nodes of `e`: each needs one temporary in the generated code.
pub open spec fn expr_temps(e: Expr) -> nat
    decreases e,
{
    match e {
        Expr::Number(_) => 0,
        Expr::UnaryMinus(inner) => 1 + expr_temps(*inner),
        Expr::Binary { op, left, right } => 1 + expr_temps(*left) + expr_temps(*right),
    }
}

/// The number of temporaries that the generated code of `s` needs.
pub open spec fn stmt_temps(s: Stmt) -> nat {
    match s {
        Stmt::Print(e) => expr_temps(e) + 1,
        Stmt::Return(e) => expr_temps(e),
    }
}

/// The number of temporaries that the generated code of all of `ss` needs.
pub open spec fn stmts_temps(ss: Seq<Stmt>) -> nat
    decreases ss.len(),
{
    if ss.len() == 0 {
        0
    } else {
        stmts_temps(ss.drop_last()) + stmt_temps(ss.last())
    }
}

pub proof fn lemma_stmts_temps_push(ss: Seq<Stmt>, s: Stmt)
    ensures
        stmts_temps(ss.push(s)) == stmts_temps(ss) + stmt_temps(s),
{
    assert(ss.push(s).drop_last() =~= ss);
}

/// The temporaries of the statements `ss[i..]` together with those of `ss[..i]`
/// are those of `ss`.
pub proof fn lemma_stmts_temps_split(ss: Seq<Stmt>, i: int)
    requires
        0 <= i <= ss.len(),
    ensures
        stmts_temps(ss) == stmts_temps(ss.take(i)) + stmts_temps(ss.skip(i)),
    decreases ss.len() - i,
{
    if i < ss.len() {
        lemma_stmts_temps_split(ss, i + 1);
        assert(ss.take(i + 1) =~= ss.take(i).push(ss[i]));
        lemma_stmts_temps_push(ss.take(i), ss[i]);
        lemma_stmts_temps_front(ss.skip(i));
        assert(ss.skip(i).drop_first() =~= ss.skip(i + 1));
    } else {
        assert(ss.take(i) =~= ss);
        assert(ss.skip(i).len() == 0);
    }
}

/// The temporaries of a non-empty sequence: those of its first statement and
/// those of the rest.
pub proof fn lemma_stmts_temps_front(ss: Seq<Stmt>)
    requires
        ss.len() > 0,
    ensures
        stmts_temps(ss) == stmt_temps(ss[0]) + stmts_temps(ss.drop_first()),
    decreases ss.len(),
{
    if ss.len() > 1 {
        lemma_stmts_temps_front(ss.drop_last());
        assert(ss.drop_last().drop_first() =~= ss.drop_first().drop_last());
        assert(ss.drop_first().last() == ss.last());
        assert(ss.drop_last()[0] == ss[0]);
        assert(stmts_temps(ss.drop_first()) == stmts_temps(ss.drop_first().drop_last()) + stmt_temps(ss.drop_first().last()));
        assert(stmts_temps(ss) == stmts_temps(ss.drop_last()) + stmt_temps(ss.last()));
    } else {
        assert(ss.drop_last().len() == 0);
        assert(stmts_temps(ss.drop_last()) == 0);
        assert(ss.drop_first().len() == 0);
        assert(stmts_temps(ss.drop_first()) == 0);
    }
}

} // verus!
