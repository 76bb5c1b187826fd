//! Properties of the rewriter, proved over its model.
use vstd::prelude::*;
use crate::directive::{parse_text, DirectiveM};
use crate::eval::{eval_expr, eval_stmt, eval_stmts, event, lookup, Env, Hook, Outcome, Value};
use crate::rewrite::{arg_of, lemma_rw_stmts, read_of, rw_args, rw_expr, rw_exprs, rw_stmt, rw_stmts};
use crate::tree::{BinOp, ExprM, PatM, StmtM};

verus! {

broadcast use vstd::seq::group_seq_axioms;

/// A directive that observes nothing.
pub open spec fn observes_nothing(d: DirectiveM) -> bool {
    d.propose.len() == 0 && d.register.len() == 0 && d.request.len() == 0
}

/// With all three name lists empty, an expression is left exactly as it was.
pub proof fn lemma_empty_directive_expr(d: DirectiveM, f: Seq<char>, e: ExprM)
    requires
        observes_nothing(d),
    ensures
        rw_expr(d, f, e) == e,
    decreases e,
{
    match e {
        ExprM::Binary(_, l, r) => {
            lemma_empty_directive_expr(d, f, *l);
            lemma_empty_directive_expr(d, f, *r);
        },
        ExprM::Assign(_, v) => lemma_empty_directive_expr(d, f, *v),
        ExprM::Call(c, args) => {
            lemma_empty_directive_expr(d, f, *c);
            lemma_empty_directive_args(d, f, args);
        },
        ExprM::Block(ss) => lemma_empty_directive(d, f, ss),
        ExprM::Other(_, cs) => lemma_empty_directive_exprs(d, f, cs),
        ExprM::RequestValue { value, .. } => lemma_empty_directive_expr(d, f, *value),
        ExprM::ProposeAssign { value, .. } => lemma_empty_directive_expr(d, f, *value),
        _ => {},
    }
}

/// With all three name lists empty, a sequence of expressions is left as it was.
pub proof fn lemma_empty_directive_exprs(d: DirectiveM, f: Seq<char>, es: Seq<ExprM>)
    requires
        observes_nothing(d),
    ensures
        rw_exprs(d, f, es) == es,
    decreases es,
{
    if es.len() > 0 {
        lemma_empty_directive_exprs(d, f, es.drop_last());
        lemma_empty_directive_expr(d, f, es.last());
        assert(es.drop_last().push(es.last()) =~= es);
    }
}

/// With all three name lists empty, the arguments of a call are left as they were.
pub proof fn lemma_empty_directive_args(d: DirectiveM, f: Seq<char>, es: Seq<ExprM>)
    requires
        observes_nothing(d),
    ensures
        rw_args(d, f, es) == es,
    decreases es,
{
    if es.len() > 0 {
        lemma_empty_directive_args(d, f, es.drop_last());
        lemma_empty_directive_expr(d, f, es.last());
        assert(es.drop_last().push(es.last()) =~= es);
    }
}

/// With all three name lists empty, a statement is left exactly as it was.
pub proof fn lemma_empty_directive_stmt(d: DirectiveM, f: Seq<char>, s: StmtM)
    requires
        observes_nothing(d),
    ensures
        rw_stmt(d, f, s) == s,
    decreases s,
{
    match s {
        StmtM::Let { init, .. } => match init {
            Some(i) => lemma_empty_directive_expr(d, f, i),
            None => {},
        },
        StmtM::Expr(e) => lemma_empty_directive_expr(d, f, e),
        StmtM::Semi(e) => lemma_empty_directive_expr(d, f, e),
        StmtM::Other(_, cs) => lemma_empty_directive_exprs(d, f, cs),
        StmtM::ProposeLet { init, .. } => lemma_empty_directive_expr(d, f, init),
    }
}

/// Identity on an empty directive: rewriting a body with all three name lists
/// empty gives back the body unchanged.
pub proof fn lemma_empty_directive(d: DirectiveM, f: Seq<char>, body: Seq<StmtM>)
    requires
        observes_nothing(d),
    ensures
        rw_stmts(d, f, body) == body,
    decreases body,
{
    if body.len() > 0 {
        lemma_empty_directive(d, f, body.drop_last());
        lemma_empty_directive_stmt(d, f, body.last());
        assert(body.drop_last().push(body.last()) =~= body);
    }
}

/// Precedence: a name that is both registered and requested is read through
/// the register call, and a call argument of that name gets no request at all.
pub proof fn lemma_register_before_request(d: DirectiveM, f: Seq<char>, n: Seq<char>)
    requires
        d.register.contains(n),
        d.request.contains(n),
    ensures
        rw_expr(d, f, ExprM::Name(n)) == (ExprM::Register { observer: d.observer, function: f, name: n }),
        arg_of(d, ExprM::Name(n), rw_expr(d, f, ExprM::Name(n))) == rw_expr(d, f, ExprM::Name(n)),
{
}

/// Recursive discovery: a requested name read inside a binary expression, inside
/// a call argument, inside a block, is still replaced by its request call.
pub proof fn lemma_nested_request(
    d: DirectiveM,
    f: Seq<char>,
    callee: ExprM,
    op: BinOp,
    q: Seq<char>,
    other: ExprM,
)
    requires
        d.request.contains(q),
        !d.register.contains(q),
    ensures
        rw_expr(
            d,
            f,
            ExprM::Block(
                seq![
                    StmtM::Semi(
                        ExprM::Call(
                            Box::new(callee),
                            seq![ExprM::Binary(op, Box::new(ExprM::Name(q)), Box::new(other))],
                        ),
                    ),
                ],
            ),
        ) == ExprM::Block(
            seq![
                StmtM::Semi(
                    ExprM::Call(
                        Box::new(rw_expr(d, f, callee)),
                        seq![
                            ExprM::Binary(
                                op,
                                Box::new(ExprM::Request { observer: d.observer, function: f, name: q }),
                                Box::new(rw_expr(d, f, other)),
                            ),
                        ],
                    ),
                ),
            ],
        ),
{
    reveal_with_fuel(rw_args, 2);
    reveal_with_fuel(rw_stmts, 2);
    let arg = ExprM::Binary(op, Box::new(ExprM::Name(q)), Box::new(other));
    let args = seq![arg];
    assert(args.drop_last() =~= Seq::<ExprM>::empty());
    let call = ExprM::Call(Box::new(callee), args);
    let stmts = seq![StmtM::Semi(call)];
    assert(stmts.drop_last() =~= Seq::<StmtM>::empty());
    let read = ExprM::Request { observer: d.observer, function: f, name: q };
    assert(rw_expr(d, f, ExprM::Name(q)) == read);
    let arg2 = ExprM::Binary(op, Box::new(read), Box::new(rw_expr(d, f, other)));
    assert(rw_expr(d, f, arg) == arg2);
    assert(rw_args(d, f, args) =~= seq![arg2]);
    let call2 = ExprM::Call(Box::new(rw_expr(d, f, callee)), seq![arg2]);
    assert(rw_expr(d, f, call) == call2);
    assert(rw_stmts(d, f, stmts) =~= seq![StmtM::Semi(call2)]);
}

/// Scope-blindness: two blocks that each bind and then read their own variable
/// of one registered name both get the read wrapped, whatever they bind it to.
pub proof fn lemma_same_name_in_two_scopes(
    d: DirectiveM,
    f: Seq<char>,
    n: Seq<char>,
    first: Seq<StmtM>,
    second: Seq<StmtM>,
)
    requires
        d.register.contains(n),
    ensures
        ({
            let body = seq![
                StmtM::Expr(ExprM::Block(first.push(StmtM::Expr(ExprM::Name(n))))),
                StmtM::Expr(ExprM::Block(second.push(StmtM::Expr(ExprM::Name(n))))),
            ];
            let read = StmtM::Expr(ExprM::Register { observer: d.observer, function: f, name: n });
            rw_stmts(d, f, body) == seq![
                StmtM::Expr(ExprM::Block(rw_stmts(d, f, first).push(read))),
                StmtM::Expr(ExprM::Block(rw_stmts(d, f, second).push(read))),
            ]
        }),
{
    reveal_with_fuel(rw_stmts, 3);
    let b1 = first.push(StmtM::Expr(ExprM::Name(n)));
    let b2 = second.push(StmtM::Expr(ExprM::Name(n)));
    assert(b1.drop_last() =~= first);
    assert(b2.drop_last() =~= second);
    let body = seq![StmtM::Expr(ExprM::Block(b1)), StmtM::Expr(ExprM::Block(b2))];
    assert(body.drop_last() =~= seq![StmtM::Expr(ExprM::Block(b1))]);
    assert(body.drop_last().drop_last() =~= Seq::<StmtM>::empty());
    let read = StmtM::Expr(ExprM::Register { observer: d.observer, function: f, name: n });
    assert(rw_stmt(d, f, StmtM::Expr(ExprM::Name(n))) == read);
    assert(rw_stmts(d, f, b1) == rw_stmts(d, f, first).push(read));
    assert(rw_stmts(d, f, b2) == rw_stmts(d, f, second).push(read));
    let s1 = StmtM::Expr(ExprM::Block(rw_stmts(d, f, first).push(read)));
    let s2 = StmtM::Expr(ExprM::Block(rw_stmts(d, f, second).push(read)));
    assert(rw_stmt(d, f, body[0]) == s1);
    assert(rw_stmt(d, f, body[1]) == s2);
    assert(rw_stmts(d, f, body.drop_last()) =~= seq![s1]);
    assert(rw_stmts(d, f, body) =~= seq![
        StmtM::Expr(ExprM::Block(rw_stmts(d, f, first).push(read))),
        StmtM::Expr(ExprM::Block(rw_stmts(d, f, second).push(read))),
    ]);
}

/// Two outcomes that agree on success, on the value and on the bindings
/// after; the observer calls made may differ.
pub open spec fn same_effect(a: Outcome, b: Outcome) -> bool {
    match (a, b) {
        (Some((v1, env1, _)), Some((v2, env2, _))) => v1 == v2 && env1 == env2,
        (None, None) => true,
        _ => false,
    }
}

/// With the observer that hands values back, a rewritten expression
/// evaluates as it did before: same success, value and bindings.
pub proof fn lemma_rewrite_keeps_expr(d: DirectiveM, f: Seq<char>, e: ExprM, env: Env)
    ensures
        same_effect(eval_expr(rw_expr(d, f, e), env), eval_expr(e, env)),
    decreases e,
{
    match e {
        ExprM::Binary(_, l, r) => {
            lemma_rewrite_keeps_expr(d, f, *l, env);
            match eval_expr(*l, env) {
                Some((_, env1, _)) => lemma_rewrite_keeps_expr(d, f, *r, env1),
                None => {},
            }
        },
        ExprM::Assign(_, v) => lemma_rewrite_keeps_expr(d, f, *v, env),
        ExprM::Block(ss) => lemma_rewrite_keeps_stmts(d, f, ss, env),
        ExprM::RequestValue { value, .. } => lemma_rewrite_keeps_expr(d, f, *value, env),
        ExprM::ProposeAssign { value, .. } => lemma_rewrite_keeps_expr(d, f, *value, env),
        _ => {},
    }
}

proof fn lemma_rewrite_keeps_let(d: DirectiveM, f: Seq<char>, pat: PatM, i: ExprM, env: Env)
    requires
        same_effect(eval_expr(rw_expr(d, f, i), env), eval_expr(i, env)),
    ensures
        same_effect(
            eval_stmt(rw_stmt(d, f, StmtM::Let { pat, init: Some(i) }), env),
            eval_stmt(StmtM::Let { pat, init: Some(i) }, env),
        ),
{
    let ri = rw_expr(d, f, i);
    let s = StmtM::Let { pat, init: Some(i) };
    match pat {
        PatM::Name(n, m, ty) => {
            if d.propose.contains(n) {
                let r = StmtM::ProposeLet { observer: d.observer, function: f, name: n, mutable: m, ty, init: ri };
                assert(rw_stmt(d, f, s) == r);
            } else {
                assert(rw_stmt(d, f, s) == StmtM::Let { pat, init: Some(ri) });
            }
        },
        PatM::Other(_) => {
            assert(rw_stmt(d, f, s) == StmtM::Let { pat, init: Some(ri) });
        },
    }
}

pub proof fn lemma_rewrite_keeps_stmt(d: DirectiveM, f: Seq<char>, s: StmtM, env: Env)
    ensures
        same_effect(eval_stmt(rw_stmt(d, f, s), env), eval_stmt(s, env)),
    decreases s,
{
    match s {
        StmtM::Let { pat, init } => match init {
            Some(i) => {
                lemma_rewrite_keeps_expr(d, f, i, env);
                lemma_rewrite_keeps_let(d, f, pat, i, env);
            },
            None => {},
        },
        StmtM::Expr(e) => lemma_rewrite_keeps_expr(d, f, e, env),
        StmtM::Semi(e) => lemma_rewrite_keeps_expr(d, f, e, env),
        StmtM::ProposeLet { init, .. } => lemma_rewrite_keeps_expr(d, f, init, env),
        _ => {},
    }
}

pub proof fn lemma_rewrite_keeps_stmts(d: DirectiveM, f: Seq<char>, ss: Seq<StmtM>, env: Env)
    ensures
        same_effect(eval_stmts(rw_stmts(d, f, ss), env), eval_stmts(ss, env)),
    decreases ss,
{
    lemma_rw_stmts(d, f, ss);
    if ss.len() > 0 {
        let rs = rw_stmts(d, f, ss);
        lemma_rw_stmts(d, f, ss.drop_first());
        assert(rs.drop_first() =~= rw_stmts(d, f, ss.drop_first()));
        lemma_rewrite_keeps_stmt(d, f, ss[0], env);
        match eval_stmt(ss[0], env) {
            Some((_, env1, _)) => lemma_rewrite_keeps_stmts(d, f, ss.drop_first(), env1),
            None => {},
        }
    }
}

/// Value preservation: a declaration `let x = e;` (or `let x: T = e;`) of a
/// proposed `x`, rewritten,
/// succeeds exactly when the plain declaration does and binds the same value, for
/// every initializer `e`.
pub proof fn lemma_proposed_let_keeps_value(
    d: DirectiveM,
    f: Seq<char>,
    x: Seq<char>,
    mutable: bool,
    ty: Option<u64>,
    e: ExprM,
    env: Env,
)
    requires
        d.propose.contains(x),
    ensures
        ({
            let plain = StmtM::Let { pat: PatM::Name(x, mutable, ty), init: Some(e) };
            same_effect(eval_stmt(rw_stmt(d, f, plain), env), eval_stmt(plain, env))
        }),
{
    lemma_rewrite_keeps_expr(d, f, e, env);
}

/// Order preservation: in a rewritten `let x = l op r;` of a proposed `x`, the
/// observer calls of `l` come first, then those of `r`, then the propose of
/// `x` with the value bound.
pub proof fn lemma_proposed_let_order(
    d: DirectiveM,
    f: Seq<char>,
    x: Seq<char>,
    mutable: bool,
    ty: Option<u64>,
    op: BinOp,
    l: ExprM,
    r: ExprM,
    env: Env,
)
    requires
        d.propose.contains(x),
        eval_stmt(
            rw_stmt(
                d,
                f,
                StmtM::Let {
                    pat: PatM::Name(x, mutable, ty),
                    init: Some(ExprM::Binary(op, Box::new(l), Box::new(r))),
                },
            ),
            env,
        ) is Some,
    ensures
        ({
            let s = StmtM::Let {
                pat: PatM::Name(x, mutable, ty),
                init: Some(ExprM::Binary(op, Box::new(l), Box::new(r))),
            };
            let (_, env1, ev) = eval_stmt(rw_stmt(d, f, s), env)->0;
            let (_, envl, evl) = eval_expr(rw_expr(d, f, l), env)->0;
            let (_, _, evr) = eval_expr(rw_expr(d, f, r), envl)->0;
            &&& eval_expr(rw_expr(d, f, l), env) is Some
            &&& eval_expr(rw_expr(d, f, r), envl) is Some
            &&& ev == evl + evr + seq![event(Hook::Propose, f, x, env1.last().1)]
        }),
{
}

/// The request of a name read on the left of the initializer of a proposed
/// declaration comes before the propose.
pub proof fn lemma_request_before_propose(
    d: DirectiveM,
    f: Seq<char>,
    x: Seq<char>,
    mutable: bool,
    ty: Option<u64>,
    op: BinOp,
    a: Seq<char>,
    r: ExprM,
    env: Env,
)
    requires
        d.propose.contains(x),
        d.request.contains(a),
        !d.register.contains(a),
        eval_stmt(
            rw_stmt(
                d,
                f,
                StmtM::Let {
                    pat: PatM::Name(x, mutable, ty),
                    init: Some(ExprM::Binary(op, Box::new(ExprM::Name(a)), Box::new(r))),
                },
            ),
            env,
        ) is Some,
    ensures
        ({
            let s = StmtM::Let {
                pat: PatM::Name(x, mutable, ty),
                init: Some(ExprM::Binary(op, Box::new(ExprM::Name(a)), Box::new(r))),
            };
            let (_, env1, ev) = eval_stmt(rw_stmt(d, f, s), env)->0;
            &&& ev.len() >= 2
            &&& ev[0] == event(Hook::Request, f, a, lookup(env, a)->0)
            &&& ev.last() == event(Hook::Propose, f, x, env1.last().1)
        }),
{
    lemma_proposed_let_order(d, f, x, mutable, ty, op, ExprM::Name(a), r, env);
    assert(rw_expr(d, f, ExprM::Name(a)) == read_of(d, f, a));
}

/// Order preservation, for any initializer: a rewritten `let x = e;` of a
/// proposed `x` makes every observer call of `e` first, in evaluation order,
/// and then one propose of `x` with the value that `e` gave.
pub proof fn lemma_propose_after_initializer(
    d: DirectiveM,
    f: Seq<char>,
    x: Seq<char>,
    mutable: bool,
    ty: Option<u64>,
    e: ExprM,
    env: Env,
)
    requires
        d.propose.contains(x),
    ensures
        ({
            let s = StmtM::Let { pat: PatM::Name(x, mutable, ty), init: Some(e) };
            match eval_expr(rw_expr(d, f, e), env) {
                Some((v, env1, ev)) => eval_stmt(rw_stmt(d, f, s), env) == Some(
                    (Value::Unit, env1.push((x, v)), ev.push(event(Hook::Propose, f, x, v))),
                ),
                None => eval_stmt(rw_stmt(d, f, s), env) is None,
            }
        }),
{
}

/// Identity on an empty directive, from its text: when the directive text
/// parses to three empty name lists, the body comes back unchanged.
pub proof fn lemma_empty_directive_text(config: Seq<char>, f: Seq<char>, body: Seq<StmtM>)
    requires
        parse_text(config) is Ok,
        observes_nothing(parse_text(config)->Ok_0),
    ensures
        rw_stmts(parse_text(config)->Ok_0, f, body) == body,
{
    lemma_empty_directive(parse_text(config)->Ok_0, f, body);
}

} // verus!
