use rx_observer::directive::RewriteDirective;
use rx_observer::eval::{execute, Hook, Value};
use rx_observer::rewrite::rewrite_body;
use rx_observer::tree::{BinOp, Expr, Pat, Stmt};

fn s(x: &str) -> String {
    x.to_string()
}

fn name(x: &str) -> Expr {
    Expr::Name(s(x))
}

fn bin(op: BinOp, l: Expr, r: Expr) -> Expr {
    Expr::Binary(op, Box::new(l), Box::new(r))
}

fn let_(x: &str, init: Expr) -> Stmt {
    Stmt::Let { pat: Pat::Name { name: s(x), mutable: false, ty: None }, init: Some(init) }
}

fn directive(propose: &[&str], register: &[&str], request: &[&str]) -> RewriteDirective {
    RewriteDirective {
        observer: s("CTX"),
        propose: propose.iter().map(|n| s(n)).collect(),
        register: register.iter().map(|n| s(n)).collect(),
        request: request.iter().map(|n| s(n)).collect(),
    }
}

fn value_of(bindings: &[rx_observer::eval::Binding], x: &str) -> Option<Value> {
    bindings.iter().rev().find(|b| b.name == x).map(|b| b.value)
}

fn scenario_body() -> Vec<Stmt> {
    vec![
        let_("k", Expr::Lit(1)),
        let_("q", Expr::Lit(2)),
        let_("s", bin(BinOp::Add, name("k"), name("q"))),
    ]
}

#[test]
fn scenario_propose_k_request_q() {
    let d = RewriteDirective::parse("context = CTX, propose = [k], register = [], request = [q]").unwrap();
    let out = rewrite_body(&d, &s("main"), scenario_body());
    let run = execute(&out).unwrap();
    assert_eq!(value_of(&run.bindings, "s"), Some(Value::Int(3)));
    let proposes: Vec<_> = run.events.iter().filter(|e| e.hook == Hook::Propose).collect();
    let requests: Vec<_> = run.events.iter().filter(|e| e.hook == Hook::Request).collect();
    assert_eq!(proposes.len(), 1);
    assert_eq!(proposes[0].name, "k");
    assert_eq!(proposes[0].value, Value::Int(1));
    assert_eq!(requests.len(), 1);
    assert_eq!(requests[0].name, "q");
    assert_eq!(requests[0].value, Value::Int(2));
    assert_eq!(run.events.len(), 2);
}

#[test]
fn proposed_let_binds_the_same_value() {
    let init = || bin(BinOp::Mul, bin(BinOp::Sub, Expr::Lit(10), Expr::Lit(4)), Expr::Lit(7));
    let body = || vec![let_("x", init())];
    let d = directive(&["x"], &[], &[]);
    let before = execute(&body()).unwrap();
    let after = execute(&rewrite_body(&d, &s("f"), body())).unwrap();
    assert_eq!(value_of(&before.bindings, "x"), Some(Value::Int(42)));
    assert_eq!(value_of(&after.bindings, "x"), Some(Value::Int(42)));
    assert!(before.events.is_empty());
    assert_eq!(after.events.len(), 1);
    assert_eq!(after.events[0].hook, Hook::Propose);
    assert_eq!(after.events[0].function, "f");
}

#[test]
fn request_fires_before_propose_in_source_order() {
    let d = directive(&["x"], &["b"], &["a"]);
    let body = vec![
        let_("a", Expr::Lit(5)),
        let_("b", Expr::Lit(6)),
        let_("x", bin(BinOp::Add, name("a"), name("b"))),
    ];
    let run = execute(&rewrite_body(&d, &s("f"), body)).unwrap();
    let hooks: Vec<Hook> = run.events.iter().map(|e| e.hook).collect();
    assert_eq!(hooks, vec![Hook::Request, Hook::Register, Hook::Propose]);
    assert_eq!(run.events[2].value, Value::Int(11));
}

#[test]
fn proposed_assignment_reports_new_value() {
    let d = directive(&["x"], &[], &[]);
    let body = vec![let_("x", Expr::Lit(1)), Stmt::Semi(Expr::Assign(Box::new(name("x")), Box::new(Expr::Lit(9))))];
    let run = execute(&rewrite_body(&d, &s("f"), body)).unwrap();
    assert_eq!(value_of(&run.bindings, "x"), Some(Value::Int(9)));
    assert_eq!(run.events.len(), 2);
    assert_eq!(run.events[1].value, Value::Int(9));
}

#[test]
fn block_bindings_end_with_the_block() {
    let body = vec![
        let_("x", Expr::Lit(1)),
        let_("y", Expr::Block(vec![let_("x", Expr::Lit(2)), Stmt::Expr(name("x"))])),
        Stmt::Expr(bin(BinOp::Add, name("x"), name("y"))),
    ];
    let run = execute(&body).unwrap();
    assert_eq!(run.value, Value::Int(3));
    assert_eq!(run.bindings.len(), 2);
}

#[test]
fn overflow_and_unbound_names_fail() {
    let body = vec![Stmt::Expr(bin(BinOp::Add, Expr::Lit(i64::MAX), Expr::Lit(1)))];
    assert!(execute(&body).is_none());
    let body = vec![Stmt::Expr(name("nope"))];
    assert!(execute(&body).is_none());
    let body = vec![Stmt::Expr(Expr::Call(Box::new(name("g")), vec![]))];
    assert!(execute(&body).is_none());
}

#[test]
fn value_request_at_call_argument_is_recorded() {
    let body = vec![
        let_("q", Expr::Lit(4)),
        Stmt::Expr(Expr::RequestValue { observer: s("CTX"), value: Box::new(name("q")) }),
    ];
    let run = execute(&body).unwrap();
    assert_eq!(run.value, Value::Int(4));
    assert_eq!(run.events.len(), 1);
    assert_eq!(run.events[0].hook, Hook::RequestValue);
    assert_eq!(run.events[0].name, "");
}

#[test]
fn proposed_typed_let_binds_and_proposes_once() {
    let d = directive(&["x"], &[], &[]);
    let body = vec![Stmt::Let { pat: Pat::Name { name: s("x"), mutable: false, ty: Some(0) }, init: Some(Expr::Lit(5)) }];
    let run = execute(&rewrite_body(&d, &s("f"), body)).unwrap();
    assert_eq!(value_of(&run.bindings, "x"), Some(Value::Int(5)));
    assert_eq!(run.events.len(), 1);
    assert_eq!(run.events[0].hook, Hook::Propose);
    assert_eq!(run.events[0].name, "x");
    assert_eq!(run.events[0].value, Value::Int(5));
}
