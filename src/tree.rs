//! The syntax tree that the rewriter works on, and its mathematical model.
//!
//! Node kinds that the rewriter treats specially have variants of their own.
//! Every other kind is an `Other` node: an opaque tag, chosen by whoever built
//! the tree, and the node's child expressions in source order.
use vstd::prelude::*;

verus! {

broadcast use vstd::std_specs::vec::group_vec_axioms, vstd::seq::group_seq_axioms;

/// A binary operator. The arithmetic ones are named; any other is an opaque tag.
#[derive(Clone, Copy, Debug, PartialEq, Eq, Structural)]
pub enum BinOp {
    Add,
    Sub,
    Mul,
    Other(u64),
}

/// The pattern of a `let` statement.
#[derive(Clone, Debug, PartialEq, Eq)]
pub enum Pat {
    /// A single name, `x` or `mut x`, with an optional type annotation by opaque tag.
    Name { name: String, mutable: bool, ty: Option<u64> },
    /// Any other pattern, by opaque tag.
    Other(u64),
}

/// An expression.
#[derive(Debug, PartialEq, Eq)]
pub enum Expr {
    /// An integer literal.
    Lit(i64),
    /// A bare, unqualified identifier.
    Name(String),
    Binary(BinOp, Box<Expr>, Box<Expr>),
    /// `target = value`.
    Assign(Box<Expr>, Box<Expr>),
    /// `callee(args...)`.
    Call(Box<Expr>, Vec<Expr>),
    /// `{ stmts... }`; its value is that of a final statement without semicolon.
    Block(Vec<Stmt>),
    /// Any other kind of expression: an opaque tag and the child expressions.
    Other(u64, Vec<Expr>),
    /// `observer.register(name, "function", "name", type_name_of_val(&name))`.
    Register { observer: String, function: String, name: String },
    /// `observer.request(name, "function", "name")`.
    Request { observer: String, function: String, name: String },
    /// `observer.request(value)`, the form used at call arguments.
    RequestValue { observer: String, value: Box<Expr> },
    /// `{ name = value; observer.propose(name, "function", "name"); }`.
    ProposeAssign { observer: String, function: String, name: String, value: Box<Expr> },
}

/// A statement.
#[derive(Debug, PartialEq, Eq)]
pub enum Stmt {
    /// `let pat;` or `let pat = init;`.
    Let { pat: Pat, init: Option<Expr> },
    /// An expression without a trailing semicolon.
    Expr(Expr),
    /// An expression followed by a semicolon.
    Semi(Expr),
    /// Any other kind of statement: an opaque tag and the child expressions.
    Other(u64, Vec<Expr>),
    /// `let [mut] name[: ty] = { let [mut] name[: ty] = init; observer.propose(name, "function", "name"); name };`.
    ProposeLet { observer: String, function: String, name: String, mutable: bool, ty: Option<u64>, init: Expr },
}

/// The model of a pattern.
pub enum PatM {
    Name(Seq<char>, bool, Option<u64>),
    Other(u64),
}

/// The model of an expression: names are character sequences, children are sequences.
pub enum ExprM {
    Lit(i64),
    Name(Seq<char>),
    Binary(BinOp, Box<ExprM>, Box<ExprM>),
    Assign(Box<ExprM>, Box<ExprM>),
    Call(Box<ExprM>, Seq<ExprM>),
    Block(Seq<StmtM>),
    Other(u64, Seq<ExprM>),
    Register { observer: Seq<char>, function: Seq<char>, name: Seq<char> },
    Request { observer: Seq<char>, function: Seq<char>, name: Seq<char> },
    RequestValue { observer: Seq<char>, value: Box<ExprM> },
    ProposeAssign { observer: Seq<char>, function: Seq<char>, name: Seq<char>, value: Box<ExprM> },
}

/// The model of a statement.
pub enum StmtM {
    Let { pat: PatM, init: Option<ExprM> },
    Expr(ExprM),
    Semi(ExprM),
    Other(u64, Seq<ExprM>),
    ProposeLet {
        observer: Seq<char>,
        function: Seq<char>,
        name: Seq<char>,
        mutable: bool,
        ty: Option<u64>,
        init: ExprM,
    },
}

pub open spec fn pat_model(p: Pat) -> PatM {
    match p {
        Pat::Name { name, mutable, ty } => PatM::Name(name@, mutable, ty),
        Pat::Other(k) => PatM::Other(k),
    }
}

pub open spec fn expr_model(e: Expr) -> ExprM
    decreases e,
{
    match e {
        Expr::Lit(v) => ExprM::Lit(v),
        Expr::Name(n) => ExprM::Name(n@),
        Expr::Binary(op, l, r) => ExprM::Binary(op, Box::new(expr_model(*l)), Box::new(expr_model(*r))),
        Expr::Assign(t, v) => ExprM::Assign(Box::new(expr_model(*t)), Box::new(expr_model(*v))),
        Expr::Call(c, args) => ExprM::Call(Box::new(expr_model(*c)), exprs_model(args@)),
        Expr::Block(ss) => ExprM::Block(stmts_model(ss@)),
        Expr::Other(k, cs) => ExprM::Other(k, exprs_model(cs@)),
        Expr::Register { observer, function, name } => ExprM::Register {
            observer: observer@,
            function: function@,
            name: name@,
        },
        Expr::Request { observer, function, name } => ExprM::Request {
            observer: observer@,
            function: function@,
            name: name@,
        },
        Expr::RequestValue { observer, value } => ExprM::RequestValue {
            observer: observer@,
            value: Box::new(expr_model(*value)),
        },
        Expr::ProposeAssign { observer, function, name, value } => ExprM::ProposeAssign {
            observer: observer@,
            function: function@,
            name: name@,
            value: Box::new(expr_model(*value)),
        },
    }
}

pub open spec fn exprs_model(es: Seq<Expr>) -> Seq<ExprM>
    decreases es,
{
    if es.len() == 0 {
        Seq::empty()
    } else {
        exprs_model(es.drop_last()).push(expr_model(es.last()))
    }
}

pub open spec fn stmt_model(s: Stmt) -> StmtM
    decreases s,
{
    match s {
        Stmt::Let { pat, init } => StmtM::Let {
            pat: pat_model(pat),
            init: match init {
                Some(i) => Some(expr_model(i)),
                None => None,
            },
        },
        Stmt::Expr(e) => StmtM::Expr(expr_model(e)),
        Stmt::Semi(e) => StmtM::Semi(expr_model(e)),
        Stmt::Other(k, cs) => StmtM::Other(k, exprs_model(cs@)),
        Stmt::ProposeLet { observer, function, name, mutable, ty, init } => StmtM::ProposeLet {
            observer: observer@,
            function: function@,
            name: name@,
            mutable,
            ty,
            init: expr_model(init),
        },
    }
}

pub open spec fn stmts_model(ss: Seq<Stmt>) -> Seq<StmtM>
    decreases ss,
{
    if ss.len() == 0 {
        Seq::empty()
    } else {
        stmts_model(ss.drop_last()).push(stmt_model(ss.last()))
    }
}

pub proof fn lemma_exprs_model(es: Seq<Expr>)
    ensures
        exprs_model(es).len() == es.len(),
        forall|j: int| 0 <= j < es.len() ==> #[trigger] exprs_model(es)[j] == expr_model(es[j]),
    decreases es.len(),
{
    if es.len() > 0 {
        lemma_exprs_model(es.drop_last());
    }
}

pub proof fn lemma_stmts_model(ss: Seq<Stmt>)
    ensures
        stmts_model(ss).len() == ss.len(),
        forall|j: int| 0 <= j < ss.len() ==> #[trigger] stmts_model(ss)[j] == stmt_model(ss[j]),
    decreases ss.len(),
{
    if ss.len() > 0 {
        lemma_stmts_model(ss.drop_last());
    }
}

impl View for Expr {
    type V = ExprM;

    open spec fn view(&self) -> ExprM {
        expr_model(*self)
    }
}

impl View for Stmt {
    type V = StmtM;

    open spec fn view(&self) -> StmtM {
        stmt_model(*self)
    }
}

} // verus!
