//! The syntax tree that the parser hands to the evaluator.
//!
//! Each executable type has a ghost counterpart (`ExprView`, `StmtView`,
//! `ProgramView`) in which strings and vectors are sequences. Contracts
//! elsewhere in the crate are stated over those counterparts.

use vstd::prelude::*;

verus! {

/// A set-valued expression.
#[derive(Debug, PartialEq, Eq)]
pub enum Expr {
    /// A variable bound by an earlier `let`.
    Ident(String),
    /// The empty set.
    Empty,
    /// The listed integers; repeats are allowed and collapse on evaluation.
    SetLiteral(Vec<i32>),
    /// Every integer between the two bounds, both included, in either order.
    Range(i32, i32),
    /// What the universe holds and the operand does not.
    Complement(Box<Expr>),
    Union(Box<Expr>, Box<Expr>),
    Intersect(Box<Expr>, Box<Expr>),
    Diff(Box<Expr>, Box<Expr>),
    SymDiff(Box<Expr>, Box<Expr>),
}

/// One statement of a program.
#[derive(Debug, Clone, PartialEq, Eq)]
pub enum Stmt {
    /// Binds `name` to the value of `value`.
    Let { name: String, value: Expr },
    /// Appends the value of the expression to the output.
    Print(Expr),
}

/// Statements in source order.
#[derive(Debug, Clone, PartialEq, Eq)]
pub struct Program {
    pub stmts: Vec<Stmt>,
}

/// Ghost counterpart of [`Expr`].
pub enum ExprView {
    Ident(Seq<char>),
    Empty,
    SetLiteral(Seq<i32>),
    Range(i32, i32),
    Complement(Box<ExprView>),
    Union(Box<ExprView>, Box<ExprView>),
    Intersect(Box<ExprView>, Box<ExprView>),
    Diff(Box<ExprView>, Box<ExprView>),
    SymDiff(Box<ExprView>, Box<ExprView>),
}

/// Ghost counterpart of [`Stmt`].
pub enum StmtView {
    Let { name: Seq<char>, value: ExprView },
    Print(ExprView),
}

/// Ghost counterpart of [`Program`].
pub struct ProgramView {
    pub stmts: Seq<StmtView>,
}

impl View for Expr {
    type V = ExprView;

    open spec fn view(&self) -> ExprView
        decreases self,
    {
        match self {
            Expr::Ident(name) => ExprView::Ident(name@),
            Expr::Empty => ExprView::Empty,
            Expr::SetLiteral(values) => ExprView::SetLiteral(values@),
            Expr::Range(a, b) => ExprView::Range(*a, *b),
            Expr::Complement(inner) => ExprView::Complement(Box::new((**inner)@)),
            Expr::Union(l, r) => ExprView::Union(Box::new((**l)@), Box::new((**r)@)),
            Expr::Intersect(l, r) => ExprView::Intersect(Box::new((**l)@), Box::new((**r)@)),
            Expr::Diff(l, r) => ExprView::Diff(Box::new((**l)@), Box::new((**r)@)),
            Expr::SymDiff(l, r) => ExprView::SymDiff(Box::new((**l)@), Box::new((**r)@)),
        }
    }
}

impl Clone for Expr {
    fn clone(&self) -> (copy: Self)
        ensures
            copy@ == self@,
        decreases self,
    {
        match self {
            Expr::Ident(name) => Expr::Ident(name.clone()),
            Expr::Empty => Expr::Empty,
            Expr::SetLiteral(values) => Expr::SetLiteral(values.clone()),
            Expr::Range(a, b) => Expr::Range(*a, *b),
            Expr::Complement(inner) => Expr::Complement(Box::new((**inner).clone())),
            Expr::Union(l, r) => Expr::Union(Box::new((**l).clone()), Box::new((**r).clone())),
            Expr::Intersect(l, r) => Expr::Intersect(
                Box::new((**l).clone()),
                Box::new((**r).clone()),
            ),
            Expr::Diff(l, r) => Expr::Diff(Box::new((**l).clone()), Box::new((**r).clone())),
            Expr::SymDiff(l, r) => Expr::SymDiff(Box::new((**l).clone()), Box::new((**r).clone())),
        }
    }
}

impl View for Stmt {
    type V = StmtView;

    open spec fn view(&self) -> StmtView {
        match self {
            Stmt::Let { name, value } => StmtView::Let { name: name@, value: value@ },
            Stmt::Print(e) => StmtView::Print(e@),
        }
    }
}

impl View for Program {
    type V = ProgramView;

    open spec fn view(&self) -> ProgramView {
        ProgramView { stmts: Seq::new(self.stmts@.len(), |i: int| self.stmts@[i]@) }
    }
}

} // verus!
