//! An evaluator for straight-line integer code, used to state and test what
//! rewriting does to a program's behaviour. It runs bodies with the observer
//! that hands every value back unchanged and records each call it gets.
//!
//! Integer literals, names, `+ - *` (overflow is a failure), assignments,
//! blocks, `let` with a single name, and the observer calls are evaluated;
//! any other kind of node, and a read of an unbound name, fails.
use vstd::prelude::*;
use crate::tree::{expr_model, stmts_model, lemma_stmts_model, BinOp, Expr, ExprM, Pat, PatM, Stmt, StmtM};

verus! {

broadcast use vstd::std_specs::vec::group_vec_axioms, vstd::seq::group_seq_axioms;

/// A run-time value.
#[derive(Clone, Copy, Debug, PartialEq, Eq, Structural)]
pub enum Value {
    Int(i64),
    Unit,
}

/// Which observer operation was called.
#[derive(Clone, Copy, Debug, PartialEq, Eq, Structural)]
pub enum Hook {
    Register,
    Request,
    /// The value-only request made at call arguments.
    RequestValue,
    Propose,
}

/// One observer call: the operation, the function and variable it names, and
/// the value it received. The value-only request names no function or variable.
#[derive(Debug, PartialEq, Eq)]
pub struct Event {
    pub hook: Hook,
    pub function: String,
    pub name: String,
    pub value: Value,
}

pub struct EventM {
    pub hook: Hook,
    pub function: Seq<char>,
    pub name: Seq<char>,
    pub value: Value,
}

impl View for Event {
    type V = EventM;

    open spec fn view(&self) -> EventM {
        EventM { hook: self.hook, function: self.function@, name: self.name@, value: self.value }
    }
}

/// A variable in scope and its value.
#[derive(Debug, PartialEq, Eq)]
pub struct Binding {
    pub name: String,
    pub value: Value,
}

/// The bindings in scope, innermost last.
pub type Env = Seq<(Seq<char>, Value)>;

/// What evaluation gives: the value, the bindings after it, and the observer
/// calls it made, in order. `None` when evaluation fails.
pub type Outcome = Option<(Value, Env, Seq<EventM>)>;

pub open spec fn env_model(env: Seq<Binding>) -> Env {
    env.map_values(|b: Binding| (b.name@, b.value))
}

pub open spec fn events_model(evs: Seq<Event>) -> Seq<EventM> {
    evs.map_values(|e: Event| e@)
}

/// The position of the innermost binding of `n`, or -1.
pub open spec fn find(env: Env, n: Seq<char>) -> int
    decreases env.len(),
{
    if env.len() == 0 {
        -1
    } else if env.last().0 == n {
        env.len() - 1
    } else {
        find(env.drop_last(), n)
    }
}

pub proof fn lemma_find(env: Env, n: Seq<char>)
    ensures
        -1 <= find(env, n) < env.len(),
        find(env, n) >= 0 ==> env[find(env, n)].0 == n,
    decreases env.len(),
{
    if env.len() > 0 && env.last().0 != n {
        lemma_find(env.drop_last(), n);
    }
}

pub open spec fn lookup(env: Env, n: Seq<char>) -> Option<Value> {
    if find(env, n) >= 0 {
        Some(env[find(env, n)].1)
    } else {
        None
    }
}

pub open spec fn arith(op: BinOp, a: i64, b: i64) -> Option<i64> {
    match op {
        BinOp::Add => a.checked_add(b),
        BinOp::Sub => a.checked_sub(b),
        BinOp::Mul => a.checked_mul(b),
        BinOp::Other(_) => None,
    }
}

/// The bindings of `env` left when a block that was entered with `n` of them ends.
pub open spec fn leave_scope(env: Env, n: nat) -> Env {
    if n < env.len() {
        env.take(n as int)
    } else {
        env
    }
}

/// An outcome with `ev` made before it.
pub open spec fn after(ev: Seq<EventM>, o: Outcome) -> Outcome {
    match o {
        Some((v, env, ev2)) => Some((v, env, ev + ev2)),
        None => None,
    }
}

pub open spec fn event(hook: Hook, function: Seq<char>, name: Seq<char>, value: Value) -> EventM {
    EventM { hook, function, name, value }
}

pub open spec fn eval_expr(e: ExprM, env: Env) -> Outcome
    decreases e,
{
    match e {
        ExprM::Lit(v) => Some((Value::Int(v), env, Seq::empty())),
        ExprM::Name(n) => match lookup(env, n) {
            Some(v) => Some((v, env, Seq::empty())),
            None => None,
        },
        ExprM::Binary(op, l, r) => match eval_expr(*l, env) {
            Some((Value::Int(a), env1, ev1)) => match eval_expr(*r, env1) {
                Some((Value::Int(b), env2, ev2)) => match arith(op, a, b) {
                    Some(c) => Some((Value::Int(c), env2, ev1 + ev2)),
                    None => None,
                },
                _ => None,
            },
            _ => None,
        },
        ExprM::Assign(t, v) => match *t {
            ExprM::Name(n) => match eval_expr(*v, env) {
                Some((x, env1, ev)) => if find(env1, n) >= 0 {
                    Some((Value::Unit, env1.update(find(env1, n), (n, x)), ev))
                } else {
                    None
                },
                None => None,
            },
            _ => None,
        },
        ExprM::Block(ss) => match eval_stmts(ss, env) {
            Some((v, env1, ev)) => Some((v, leave_scope(env1, env.len()), ev)),
            None => None,
        },
        ExprM::Register { function, name, .. } => match lookup(env, name) {
            Some(v) => Some((v, env, seq![event(Hook::Register, function, name, v)])),
            None => None,
        },
        ExprM::Request { function, name, .. } => match lookup(env, name) {
            Some(v) => Some((v, env, seq![event(Hook::Request, function, name, v)])),
            None => None,
        },
        ExprM::RequestValue { value, .. } => match eval_expr(*value, env) {
            Some((v, env1, ev)) => Some(
                (v, env1, ev.push(event(Hook::RequestValue, Seq::empty(), Seq::empty(), v))),
            ),
            None => None,
        },
        ExprM::ProposeAssign { function, name, value, .. } => match eval_expr(*value, env) {
            Some((x, env1, ev)) => if find(env1, name) >= 0 {
                Some(
                    (
                        Value::Unit,
                        env1.update(find(env1, name), (name, x)),
                        ev.push(event(Hook::Propose, function, name, x)),
                    ),
                )
            } else {
                None
            },
            None => None,
        },
        _ => None,
    }
}

pub open spec fn eval_stmt(s: StmtM, env: Env) -> Outcome
    decreases s,
{
    match s {
        StmtM::Let { pat: PatM::Name(n, _, _), init: Some(i) } => match eval_expr(i, env) {
            Some((v, env1, ev)) => Some((Value::Unit, env1.push((n, v)), ev)),
            None => None,
        },
        StmtM::Expr(e) => eval_expr(e, env),
        StmtM::Semi(e) => match eval_expr(e, env) {
            Some((_, env1, ev)) => Some((Value::Unit, env1, ev)),
            None => None,
        },
        StmtM::ProposeLet { function, name, init, .. } => match eval_expr(init, env) {
            Some((v, env1, ev)) => Some(
                (Value::Unit, env1.push((name, v)), ev.push(event(Hook::Propose, function, name, v))),
            ),
            None => None,
        },
        _ => None,
    }
}

/// Statements in order; the value is that of the last one, or unit if there is none.
pub open spec fn eval_stmts(ss: Seq<StmtM>, env: Env) -> Outcome
    decreases ss,
{
    if ss.len() == 0 {
        Some((Value::Unit, env, Seq::empty()))
    } else {
        match eval_stmt(ss[0], env) {
            Some((v, env1, ev1)) => if ss.len() == 1 {
                Some((v, env1, ev1))
            } else {
                after(ev1, eval_stmts(ss.drop_first(), env1))
            },
            None => None,
        }
    }
}

/// The innermost binding of `n`.
fn find_binding(env: &Vec<Binding>, n: &String) -> (r: Option<usize>)
    ensures
        match r {
            Some(i) => find(env_model(env@), n@) == i && i < env@.len() && env@[i as int].name@ == n@,
            None => find(env_model(env@), n@) == -1,
        },
{
    let ghost m = env_model(env@);
    proof {
        lemma_find(m, n@);
    }
    let mut i: usize = env.len();
    assert(m.take(env@.len() as int) =~= m);
    while i > 0
        invariant
            m == env_model(env@),
            i <= env@.len(),
            find(m, n@) == find(m.take(i as int), n@),
        decreases i,
    {
        let ghost t = m.take(i as int);
        assert(t.last() == m[i - 1]);
        assert(t.drop_last() =~= m.take(i - 1));
        if env[i - 1].name == *n {
            return Some(i - 1);
        }
        i = i - 1;
    }
    assert(m.take(0) =~= Seq::<(Seq<char>, Value)>::empty());
    None
}

/// Sets the binding at `i`, which binds `n`, to `v`.
fn set_binding(env: &mut Vec<Binding>, i: usize, n: &String, v: Value)
    requires
        i < old(env)@.len(),
        old(env)@[i as int].name@ == n@,
    ensures
        env_model(final(env)@) == env_model(old(env)@).update(i as int, (n@, v)),
{
    env.set(i, Binding { name: n.clone(), value: v });
    assert(env_model(env@) =~= env_model(old(env)@).update(i as int, (n@, v)));
}

fn push_event(events: &mut Vec<Event>, hook: Hook, function: &String, name: &String, value: Value)
    ensures
        events_model(final(events)@) == events_model(old(events)@).push(event(hook, function@, name@, value)),
{
    events.push(Event { hook, function: function.clone(), name: name.clone(), value });
    assert(events_model(events@) =~= events_model(old(events)@).push(event(hook, function@, name@, value)));
}

fn exec_arith(op: BinOp, a: i64, b: i64) -> (r: Option<i64>)
    ensures
        r == arith(op, a, b),
{
    match op {
        BinOp::Add => a.checked_add(b),
        BinOp::Sub => a.checked_sub(b),
        BinOp::Mul => a.checked_mul(b),
        BinOp::Other(_) => None,
    }
}

/// Evaluates an expression, with observer calls appended to `events`.
pub fn exec_expr(e: &Expr, env: &mut Vec<Binding>, events: &mut Vec<Event>) -> (r: Option<Value>)
    ensures
        match eval_expr(e@, env_model(old(env)@)) {
            Some((v, n, ev)) => r == Some(v) && env_model(final(env)@) == n && events_model(final(events)@)
                == events_model(old(events)@) + ev,
            None => r is None,
        },
    decreases e,
{
    let ghost ev0 = events_model(events@);
    match e {
        Expr::Lit(v) => {
            assert(ev0 + Seq::<EventM>::empty() =~= ev0);
            Some(Value::Int(*v))
        },
        Expr::Name(n) => match find_binding(env, n) {
            Some(i) => {
                assert(ev0 + Seq::<EventM>::empty() =~= ev0);
                Some(env[i].value)
            },
            None => None,
        },
        Expr::Binary(op, l, r) => {
            let a = match exec_expr(l, env, events) {
                Some(Value::Int(a)) => a,
                _ => return None,
            };
            let b = match exec_expr(r, env, events) {
                Some(Value::Int(b)) => b,
                _ => return None,
            };
            match exec_arith(*op, a, b) {
                Some(c) => {
                    assert(events_model(events@) =~= ev0 + (eval_expr(e@, env_model(old(env)@))->0).2);
                    Some(Value::Int(c))
                },
                None => None,
            }
        },
        Expr::Assign(t, v) => match &**t {
            Expr::Name(n) => {
                assert(expr_model(**t) == ExprM::Name(n@));
                let x = match exec_expr(v, env, events) {
                    Some(x) => x,
                    None => return None,
                };
                match find_binding(env, n) {
                    Some(i) => {
                        set_binding(env, i, n, x);
                        Some(Value::Unit)
                    },
                    None => None,
                }
            },
            _ => {
                assert(!(expr_model(**t) is Name));
                None
            },
        },
        Expr::Block(ss) => {
            let n0 = env.len();
            let ghost e0 = env_model(env@);
            let v = match exec_stmts(ss, env, events) {
                Some(v) => v,
                None => return None,
            };
            let ghost e1 = env_model(env@);
            env.truncate(n0);
            assert(env_model(env@) =~= leave_scope(e1, e0.len()));
            Some(v)
        },
        Expr::Register { function, name, .. } => match find_binding(env, name) {
            Some(i) => {
                let v = env[i].value;
                push_event(events, Hook::Register, function, name, v);
                assert(ev0.push(event(Hook::Register, function@, name@, v)) =~= ev0 + seq![
                    event(Hook::Register, function@, name@, v),
                ]);
                Some(v)
            },
            None => None,
        },
        Expr::Request { function, name, .. } => match find_binding(env, name) {
            Some(i) => {
                let v = env[i].value;
                push_event(events, Hook::Request, function, name, v);
                assert(ev0.push(event(Hook::Request, function@, name@, v)) =~= ev0 + seq![
                    event(Hook::Request, function@, name@, v),
                ]);
                Some(v)
            },
            None => None,
        },
        Expr::RequestValue { value, .. } => {
            let v = match exec_expr(value, env, events) {
                Some(v) => v,
                None => return None,
            };
            let empty = String::new();
            push_event(events, Hook::RequestValue, &empty, &empty, v);
            assert(events_model(events@) =~= ev0 + (eval_expr(e@, env_model(old(env)@))->0).2);
            Some(v)
        },
        Expr::ProposeAssign { function, name, value, .. } => {
            let x = match exec_expr(value, env, events) {
                Some(x) => x,
                None => return None,
            };
            match find_binding(env, name) {
                Some(i) => {
                    set_binding(env, i, name, x);
                    push_event(events, Hook::Propose, function, name, x);
                    assert(events_model(events@) =~= ev0 + (eval_expr(e@, env_model(old(env)@))->0).2);
                    Some(Value::Unit)
                },
                None => None,
            }
        },
        _ => None,
    }
}

fn push_binding(env: &mut Vec<Binding>, n: &String, v: Value)
    ensures
        env_model(final(env)@) == env_model(old(env)@).push((n@, v)),
{
    env.push(Binding { name: n.clone(), value: v });
    assert(env_model(env@) =~= env_model(old(env)@).push((n@, v)));
}

/// Evaluates a statement, with observer calls appended to `events`.
pub fn exec_stmt(s: &Stmt, env: &mut Vec<Binding>, events: &mut Vec<Event>) -> (r: Option<Value>)
    ensures
        match eval_stmt(s@, env_model(old(env)@)) {
            Some((v, n, ev)) => r == Some(v) && env_model(final(env)@) == n && events_model(final(events)@)
                == events_model(old(events)@) + ev,
            None => r is None,
        },
    decreases s,
{
    let ghost ev0 = events_model(events@);
    match s {
        Stmt::Let { pat: Pat::Name { name, .. }, init: Some(i) } => {
            let v = match exec_expr(i, env, events) {
                Some(v) => v,
                None => return None,
            };
            push_binding(env, name, v);
            Some(Value::Unit)
        },
        Stmt::Expr(e) => exec_expr(e, env, events),
        Stmt::Semi(e) => match exec_expr(e, env, events) {
            Some(_) => Some(Value::Unit),
            None => None,
        },
        Stmt::ProposeLet { function, name, init, .. } => {
            let v = match exec_expr(init, env, events) {
                Some(v) => v,
                None => return None,
            };
            push_binding(env, name, v);
            push_event(events, Hook::Propose, function, name, v);
            assert(events_model(events@) =~= ev0 + (eval_stmt(s@, env_model(old(env)@))->0).2);
            Some(Value::Unit)
        },
        _ => None,
    }
}

proof fn lemma_eval_stmts_step(m: Seq<StmtM>, i: int, env: Env)
    requires
        0 <= i < m.len(),
    ensures
        eval_stmts(m.skip(i), env) == match eval_stmt(m[i], env) {
            Some((v, env1, ev1)) => if i + 1 == m.len() {
                Some((v, env1, ev1))
            } else {
                after(ev1, eval_stmts(m.skip(i + 1), env1))
            },
            None => None,
        },
{
    let rest = m.skip(i);
    assert(rest[0] == m[i]);
    assert(rest.drop_first() =~= m.skip(i + 1));
}

proof fn lemma_after_after(a: Seq<EventM>, b: Seq<EventM>, o: Outcome)
    ensures
        after(a, after(b, o)) == after(a + b, o),
{
    match o {
        Some((_, _, c)) => assert(a + (b + c) =~= (a + b) + c),
        None => {},
    }
}

/// Evaluates statements in order, with observer calls appended to `events`.
#[verifier::rlimit(80)]
pub fn exec_stmts(ss: &Vec<Stmt>, env: &mut Vec<Binding>, events: &mut Vec<Event>) -> (r: Option<Value>)
    ensures
        match eval_stmts(stmts_model(ss@), env_model(old(env)@)) {
            Some((v, n, ev)) => r == Some(v) && env_model(final(env)@) == n && events_model(final(events)@)
                == events_model(old(events)@) + ev,
            None => r is None,
        },
    decreases ss,
{
    let ghost m = stmts_model(ss@);
    let ghost env0 = env_model(env@);
    let ghost ev0 = events_model(events@);
    let ghost whole = *ss;
    proof {
        lemma_stmts_model(ss@);
    }
    if ss.len() == 0 {
        assert(ev0 + Seq::<EventM>::empty() =~= ev0);
        return Some(Value::Unit);
    }
    let mut i: usize = 0;
    let mut last = Value::Unit;
    let ghost mut so_far: Seq<EventM> = Seq::empty();
    assert(m.skip(0) =~= m);
    assert(after(Seq::empty(), eval_stmts(m, env0)) == eval_stmts(m, env0)) by {
        match eval_stmts(m, env0) {
            Some((v, n, ev)) => assert(Seq::<EventM>::empty() + ev =~= ev),
            None => {},
        }
    }
    assert(ev0 + so_far =~= ev0);
    while i < ss.len()
        invariant
            whole == *ss,
            env0 == env_model(old(env)@),
            ev0 == events_model(old(events)@),
            m == stmts_model(ss@),
            m.len() == ss@.len(),
            forall|k: int| 0 <= k < ss@.len() ==> #[trigger] m[k] == ss@[k]@,
            0 < ss.len(),
            i <= ss.len(),
            events_model(events@) == ev0 + so_far,
            i < ss.len() ==> eval_stmts(m, env0) == after(so_far, eval_stmts(m.skip(i as int), env_model(env@))),
            i == ss.len() ==> eval_stmts(m, env0) == Some((last, env_model(env@), so_far)),
        decreases ss.len() - i,
    {
        let ghost envi = env_model(env@);
        proof {
            lemma_eval_stmts_step(m, i as int, envi);
        }
        assert(decreases_to!(whole => whole[i as int]));
        let v = match exec_stmt(&ss[i], env, events) {
            Some(v) => v,
            None => return None,
        };
        proof {
            let step = (eval_stmt(m[i as int], envi)->0).2;
            assert(events_model(events@) =~= ev0 + (so_far + step));
            if i + 1 < ss.len() {
                lemma_after_after(so_far, step, eval_stmts(m.skip(i + 1), env_model(env@)));
            }
            so_far = so_far + step;
        }
        last = v;
        i = i + 1;
    }
    Some(last)
}

/// The result of running a body.
pub struct Execution {
    /// The value of the body's last statement.
    pub value: Value,
    /// The bindings in scope at the end, innermost last.
    pub bindings: Vec<Binding>,
    /// The observer calls made, in order.
    pub events: Vec<Event>,
}

/// Runs a body from no bindings with the observer that hands every value back
/// unchanged, recording its calls; `None` where evaluation fails.
pub fn execute(body: &Vec<Stmt>) -> (r: Option<Execution>)
    ensures
        match eval_stmts(stmts_model(body@), Seq::empty()) {
            Some((v, n, ev)) => r matches Some(x) && x.value == v && env_model(x.bindings@) == n
                && events_model(x.events@) == ev,
            None => r is None,
        },
{
    let mut bindings: Vec<Binding> = Vec::new();
    let mut events: Vec<Event> = Vec::new();
    assert(env_model(bindings@) =~= Seq::<(Seq<char>, Value)>::empty());
    match exec_stmts(body, &mut bindings, &mut events) {
        Some(value) => {
            assert(events_model(Seq::<Event>::empty()) =~= Seq::<EventM>::empty());
            proof {
                let ev = (eval_stmts(stmts_model(body@), Seq::empty())->0).2;
                assert(Seq::<EventM>::empty() + ev =~= ev);
            }
            Some(Execution { value, bindings, events })
        },
        None => None,
    }
}

} // verus!
