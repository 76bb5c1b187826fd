//! The rewriter: a top-down fold that wraps the observed names of a body in
//! observer calls and rebuilds every other node from its rewritten children.
//!
//! Matching is by bare name alone. The rewriter keeps no symbol table, so two
//! variables of one name in different scopes are treated alike.
use vstd::prelude::*;
use crate::directive::{contains_name, parse_text, ConfigError, DirectiveM, RewriteDirective};
use crate::tree::{
    expr_model, exprs_model, lemma_exprs_model, lemma_stmts_model, stmts_model, Expr, ExprM, Pat, PatM, Stmt, StmtM,
};

verus! {

broadcast use vstd::std_specs::vec::group_vec_axioms, vstd::seq::group_seq_axioms;

/// What a bare read of `name` becomes: a register call if the name is
/// registered, else a request call if it is requested, else the read itself.
pub open spec fn read_of(d: DirectiveM, f: Seq<char>, name: Seq<char>) -> ExprM {
    if d.register.contains(name) {
        ExprM::Register { observer: d.observer, function: f, name }
    } else if d.request.contains(name) {
        ExprM::Request { observer: d.observer, function: f, name }
    } else {
        ExprM::Name(name)
    }
}

/// Whether a call argument gets the extra value-only request: it is a bare
/// name that is requested and not registered.
pub open spec fn wraps_arg(d: DirectiveM, arg: ExprM) -> bool {
    arg matches ExprM::Name(n) && d.request.contains(n) && !d.register.contains(n)
}

/// A call argument after rewriting: `rewritten` is the argument's own rewrite.
pub open spec fn arg_of(d: DirectiveM, arg: ExprM, rewritten: ExprM) -> ExprM {
    if wraps_arg(d, arg) {
        ExprM::RequestValue { observer: d.observer, value: Box::new(rewritten) }
    } else {
        rewritten
    }
}

/// Whether an assignment to `target` is reported: it is a bare name that is proposed.
pub open spec fn proposes(d: DirectiveM, target: ExprM) -> bool {
    target matches ExprM::Name(n) && d.propose.contains(n)
}

/// The rewrite of an expression of function `f` under directive `d`.
pub open spec fn rw_expr(d: DirectiveM, f: Seq<char>, e: ExprM) -> ExprM
    decreases e,
{
    match e {
        ExprM::Lit(v) => ExprM::Lit(v),
        ExprM::Name(n) => read_of(d, f, n),
        ExprM::Binary(op, l, r) => ExprM::Binary(
            op,
            Box::new(rw_expr(d, f, *l)),
            Box::new(rw_expr(d, f, *r)),
        ),
        ExprM::Assign(t, v) => if proposes(d, *t) {
            ExprM::ProposeAssign {
                observer: d.observer,
                function: f,
                name: t->Name_0,
                value: Box::new(rw_expr(d, f, *v)),
            }
        } else {
            ExprM::Assign(t, Box::new(rw_expr(d, f, *v)))
        },
        ExprM::Call(c, args) => ExprM::Call(Box::new(rw_expr(d, f, *c)), rw_args(d, f, args)),
        ExprM::Block(ss) => ExprM::Block(rw_stmts(d, f, ss)),
        ExprM::Other(k, cs) => ExprM::Other(k, rw_exprs(d, f, cs)),
        ExprM::Register { observer, function, name } => ExprM::Register { observer, function, name },
        ExprM::Request { observer, function, name } => ExprM::Request { observer, function, name },
        ExprM::RequestValue { observer, value } => ExprM::RequestValue {
            observer,
            value: Box::new(rw_expr(d, f, *value)),
        },
        ExprM::ProposeAssign { observer, function, name, value } => ExprM::ProposeAssign {
            observer,
            function,
            name,
            value: Box::new(rw_expr(d, f, *value)),
        },
    }
}

/// Each expression rewritten, in order.
pub open spec fn rw_exprs(d: DirectiveM, f: Seq<char>, es: Seq<ExprM>) -> Seq<ExprM>
    decreases es,
{
    if es.len() == 0 {
        Seq::empty()
    } else {
        rw_exprs(d, f, es.drop_last()).push(rw_expr(d, f, es.last()))
    }
}

/// Each call argument rewritten, in order.
pub open spec fn rw_args(d: DirectiveM, f: Seq<char>, es: Seq<ExprM>) -> Seq<ExprM>
    decreases es,
{
    if es.len() == 0 {
        Seq::empty()
    } else {
        rw_args(d, f, es.drop_last()).push(arg_of(d, es.last(), rw_expr(d, f, es.last())))
    }
}

/// The rewrite of a statement.
pub open spec fn rw_stmt(d: DirectiveM, f: Seq<char>, s: StmtM) -> StmtM
    decreases s,
{
    match s {
        StmtM::Let { pat, init } => match init {
            Some(i) => match pat {
                PatM::Name(n, mutable, ty) if d.propose.contains(n) => StmtM::ProposeLet {
                    observer: d.observer,
                    function: f,
                    name: n,
                    mutable,
                    ty,
                    init: rw_expr(d, f, i),
                },
                _ => StmtM::Let { pat, init: Some(rw_expr(d, f, i)) },
            },
            None => StmtM::Let { pat, init: None },
        },
        StmtM::Expr(e) => StmtM::Expr(rw_expr(d, f, e)),
        StmtM::Semi(e) => StmtM::Semi(rw_expr(d, f, e)),
        StmtM::Other(k, cs) => StmtM::Other(k, rw_exprs(d, f, cs)),
        StmtM::ProposeLet { observer, function, name, mutable, ty, init } => StmtM::ProposeLet {
            observer,
            function,
            name,
            mutable,
            ty,
            init: rw_expr(d, f, init),
        },
    }
}

/// Each statement rewritten, in order.
pub open spec fn rw_stmts(d: DirectiveM, f: Seq<char>, ss: Seq<StmtM>) -> Seq<StmtM>
    decreases ss,
{
    if ss.len() == 0 {
        Seq::empty()
    } else {
        rw_stmts(d, f, ss.drop_last()).push(rw_stmt(d, f, ss.last()))
    }
}

} // verus!

verus! {

pub proof fn lemma_rw_exprs(d: DirectiveM, f: Seq<char>, es: Seq<ExprM>)
    ensures
        rw_exprs(d, f, es).len() == es.len(),
        forall|j: int| 0 <= j < es.len() ==> #[trigger] rw_exprs(d, f, es)[j] == rw_expr(d, f, es[j]),
    decreases es.len(),
{
    if es.len() > 0 {
        lemma_rw_exprs(d, f, es.drop_last());
    }
}

pub proof fn lemma_rw_args(d: DirectiveM, f: Seq<char>, es: Seq<ExprM>)
    ensures
        rw_args(d, f, es).len() == es.len(),
        forall|j: int|
            0 <= j < es.len() ==> #[trigger] rw_args(d, f, es)[j] == arg_of(d, es[j], rw_expr(d, f, es[j])),
    decreases es.len(),
{
    if es.len() > 0 {
        lemma_rw_args(d, f, es.drop_last());
    }
}

pub proof fn lemma_rw_stmts(d: DirectiveM, f: Seq<char>, ss: Seq<StmtM>)
    ensures
        rw_stmts(d, f, ss).len() == ss.len(),
        forall|j: int| 0 <= j < ss.len() ==> #[trigger] rw_stmts(d, f, ss)[j] == rw_stmt(d, f, ss[j]),
    decreases ss.len(),
{
    if ss.len() > 0 {
        lemma_rw_stmts(d, f, ss.drop_last());
    }
}

/// A bare read of `name`, rewritten.
fn fold_read(d: &RewriteDirective, f: &String, name: String) -> (r: Expr)
    ensures
        r@ == read_of(d@, f@, name@),
{
    if contains_name(&d.register, &name) {
        Expr::Register { observer: d.observer.clone(), function: f.clone(), name }
    } else if contains_name(&d.request, &name) {
        Expr::Request { observer: d.observer.clone(), function: f.clone(), name }
    } else {
        Expr::Name(name)
    }
}

/// Rewrites an expression of function `f` under directive `d`.
pub fn fold_expr(d: &RewriteDirective, f: &String, e: Expr) -> (r: Expr)
    ensures
        r@ == rw_expr(d@, f@, e@),
    decreases e,
{
    match e {
        Expr::Lit(v) => Expr::Lit(v),
        Expr::Name(n) => fold_read(d, f, n),
        Expr::Binary(op, l, r) => {
            let l2 = fold_expr(d, f, *l);
            let r2 = fold_expr(d, f, *r);
            Expr::Binary(op, Box::new(l2), Box::new(r2))
        },
        Expr::Assign(t, v) => {
            let ghost target = expr_model(*t);
            let v2 = fold_expr(d, f, *v);
            match *t {
                Expr::Name(n) => {
                    assert(target == ExprM::Name(n@));
                    if contains_name(&d.propose, &n) {
                        Expr::ProposeAssign {
                            observer: d.observer.clone(),
                            function: f.clone(),
                            name: n,
                            value: Box::new(v2),
                        }
                    } else {
                        Expr::Assign(Box::new(Expr::Name(n)), Box::new(v2))
                    }
                },
                t0 => {
                    assert(!proposes(d@, target));
                    Expr::Assign(Box::new(t0), Box::new(v2))
                },
            }
        },
        Expr::Call(c, args) => {
            let c2 = fold_expr(d, f, *c);
            let args2 = fold_args(d, f, args);
            Expr::Call(Box::new(c2), args2)
        },
        Expr::Block(ss) => Expr::Block(fold_stmts(d, f, ss)),
        Expr::Other(k, cs) => Expr::Other(k, fold_exprs(d, f, cs)),
        Expr::Register { observer, function, name } => Expr::Register { observer, function, name },
        Expr::Request { observer, function, name } => Expr::Request { observer, function, name },
        Expr::RequestValue { observer, value } => {
            let value2 = fold_expr(d, f, *value);
            Expr::RequestValue { observer, value: Box::new(value2) }
        },
        Expr::ProposeAssign { observer, function, name, value } => {
            let value2 = fold_expr(d, f, *value);
            Expr::ProposeAssign { observer, function, name, value: Box::new(value2) }
        },
    }
}

/// Rewrites a sequence of expressions, in order.
pub fn fold_exprs(d: &RewriteDirective, f: &String, es: Vec<Expr>) -> (r: Vec<Expr>)
    ensures
        exprs_model(r@) == rw_exprs(d@, f@, exprs_model(es@)),
    decreases es,
{
    let ghost orig = es@;
    let ghost whole = es;
    let mut rest = es;
    let mut out: Vec<Expr> = Vec::new();
    while rest.len() > 0
        invariant
            whole@ == orig,
            whole == es,
            out@.len() + rest@.len() == orig.len(),
            rest@ == orig.subrange(out@.len() as int, orig.len() as int),
            forall|j: int| 0 <= j < out@.len() ==> #[trigger] out@[j]@ == rw_expr(d@, f@, orig[j]@),
        decreases rest@.len(),
    {
        let ghost i = out@.len() as int;
        let x = rest.remove(0);
        assert(x == orig[i]);
        assert(decreases_to!(whole => whole[i]));
        assert(decreases_to!(whole => x));
        let y = fold_expr(d, f, x);
        out.push(y);
        assert(rest@ =~= orig.subrange(out@.len() as int, orig.len() as int));
    }
    proof {
        lemma_exprs_model(out@);
        lemma_exprs_model(orig);
        lemma_rw_exprs(d@, f@, exprs_model(orig));
        assert forall|j: int| 0 <= j < out@.len() implies #[trigger] exprs_model(out@)[j] == rw_exprs(d@, f@, exprs_model(orig))[j] by {
            assert(out@[j]@ == exprs_model(out@)[j]);
        }
        assert(exprs_model(out@) =~= rw_exprs(d@, f@, exprs_model(orig)));
    }
    out
}

/// Rewrites the arguments of a call, in order.
pub fn fold_args(d: &RewriteDirective, f: &String, es: Vec<Expr>) -> (r: Vec<Expr>)
    ensures
        exprs_model(r@) == rw_args(d@, f@, exprs_model(es@)),
    decreases es,
{
    let ghost orig = es@;
    let ghost whole = es;
    let mut rest = es;
    let mut out: Vec<Expr> = Vec::new();
    while rest.len() > 0
        invariant
            whole@ == orig,
            whole == es,
            out@.len() + rest@.len() == orig.len(),
            rest@ == orig.subrange(out@.len() as int, orig.len() as int),
            forall|j: int|
                0 <= j < out@.len() ==> #[trigger] out@[j]@ == arg_of(
                    d@,
                    orig[j]@,
                    rw_expr(d@, f@, orig[j]@),
                ),
        decreases rest@.len(),
    {
        let ghost i = out@.len() as int;
        let x = rest.remove(0);
        assert(x == orig[i]);
        assert(decreases_to!(whole => whole[i]));
        assert(decreases_to!(whole => x));
        let wrap = match &x {
            Expr::Name(n) => contains_name(&d.request, n) && !contains_name(&d.register, n),
            _ => false,
        };
        assert(wrap == wraps_arg(d@, x@));
        let y = fold_expr(d, f, x);
        if wrap {
            out.push(Expr::RequestValue { observer: d.observer.clone(), value: Box::new(y) });
        } else {
            out.push(y);
        }
        assert(rest@ =~= orig.subrange(out@.len() as int, orig.len() as int));
    }
    proof {
        lemma_exprs_model(out@);
        lemma_exprs_model(orig);
        lemma_rw_args(d@, f@, exprs_model(orig));
        assert forall|j: int| 0 <= j < out@.len() implies #[trigger] exprs_model(out@)[j] == rw_args(d@, f@, exprs_model(orig))[j] by {
            assert(out@[j]@ == exprs_model(out@)[j]);
        }
        assert(exprs_model(out@) =~= rw_args(d@, f@, exprs_model(orig)));
    }
    out
}

/// Rewrites a statement.
pub fn fold_stmt(d: &RewriteDirective, f: &String, s: Stmt) -> (r: Stmt)
    ensures
        r@ == rw_stmt(d@, f@, s@),
    decreases s,
{
    match s {
        Stmt::Let { pat, init } => match init {
            Some(i) => {
                let i2 = fold_expr(d, f, i);
                match pat {
                    Pat::Name { name, mutable, ty } => {
                        if contains_name(&d.propose, &name) {
                            Stmt::ProposeLet {
                                observer: d.observer.clone(),
                                function: f.clone(),
                                name,
                                mutable,
                                ty,
                                init: i2,
                            }
                        } else {
                            Stmt::Let { pat: Pat::Name { name, mutable, ty }, init: Some(i2) }
                        }
                    },
                    p => Stmt::Let { pat: p, init: Some(i2) },
                }
            },
            None => Stmt::Let { pat, init: None },
        },
        Stmt::Expr(e) => Stmt::Expr(fold_expr(d, f, e)),
        Stmt::Semi(e) => Stmt::Semi(fold_expr(d, f, e)),
        Stmt::Other(k, cs) => Stmt::Other(k, fold_exprs(d, f, cs)),
        Stmt::ProposeLet { observer, function, name, mutable, ty, init } => {
            let init2 = fold_expr(d, f, init);
            Stmt::ProposeLet { observer, function, name, mutable, ty, init: init2 }
        },
    }
}

/// Rewrites a sequence of statements, in order.
pub fn fold_stmts(d: &RewriteDirective, f: &String, ss: Vec<Stmt>) -> (r: Vec<Stmt>)
    ensures
        stmts_model(r@) == rw_stmts(d@, f@, stmts_model(ss@)),
    decreases ss,
{
    let ghost orig = ss@;
    let ghost whole = ss;
    let mut rest = ss;
    let mut out: Vec<Stmt> = Vec::new();
    while rest.len() > 0
        invariant
            whole@ == orig,
            whole == ss,
            out@.len() + rest@.len() == orig.len(),
            rest@ == orig.subrange(out@.len() as int, orig.len() as int),
            forall|j: int| 0 <= j < out@.len() ==> #[trigger] out@[j]@ == rw_stmt(d@, f@, orig[j]@),
        decreases rest@.len(),
    {
        let ghost i = out@.len() as int;
        let x = rest.remove(0);
        assert(x == orig[i]);
        assert(decreases_to!(whole => whole[i]));
        assert(decreases_to!(whole => x));
        let y = fold_stmt(d, f, x);
        out.push(y);
        assert(rest@ =~= orig.subrange(out@.len() as int, orig.len() as int));
    }
    proof {
        lemma_stmts_model(out@);
        lemma_stmts_model(orig);
        lemma_rw_stmts(d@, f@, stmts_model(orig));
        assert forall|j: int| 0 <= j < out@.len() implies #[trigger] stmts_model(out@)[j] == rw_stmts(d@, f@, stmts_model(orig))[j] by {
            assert(out@[j]@ == stmts_model(out@)[j]);
        }
        assert(stmts_model(out@) =~= rw_stmts(d@, f@, stmts_model(orig)));
    }
    out
}

} // verus!

verus! {

/// Rewrites the body of the function named `function` under `directive`.
pub fn rewrite_body(directive: &RewriteDirective, function: &String, body: Vec<Stmt>) -> (r: Vec<Stmt>)
    ensures
        stmts_model(r@) == rw_stmts(directive@, function@, stmts_model(body@)),
{
    fold_stmts(directive, function, body)
}

/// Parses the directive text `config` and rewrites the body of the function
/// named `function` under it.
pub fn decorate_vars(config: &str, function: &String, body: Vec<Stmt>) -> (r: Result<Vec<Stmt>, ConfigError>)
    ensures
        match parse_text(config@) {
            Ok(d) => r matches Ok(v) && stmts_model(v@) == rw_stmts(d, function@, stmts_model(body@)),
            Err(e) => r == Err::<Vec<Stmt>, ConfigError>(e),
        },
{
    match RewriteDirective::parse(config) {
        Ok(d) => Ok(rewrite_body(&d, function, body)),
        Err(e) => Err(e),
    }
}

} // verus!
