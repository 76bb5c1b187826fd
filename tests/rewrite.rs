use rx_observer::directive::RewriteDirective;
use rx_observer::rewrite::{decorate_vars, rewrite_body};
use rx_observer::tree::{BinOp, Expr, Pat, Stmt};

fn s(x: &str) -> String {
    x.to_string()
}

fn name(x: &str) -> Expr {
    Expr::Name(s(x))
}

fn add(l: Expr, r: Expr) -> Expr {
    Expr::Binary(BinOp::Add, Box::new(l), Box::new(r))
}

fn let_(x: &str, init: Expr) -> Stmt {
    Stmt::Let { pat: Pat::Name { name: s(x), mutable: false, ty: None }, init: Some(init) }
}

fn directive(propose: &[&str], register: &[&str], request: &[&str]) -> RewriteDirective {
    RewriteDirective {
        observer: s("CTX"),
        propose: propose.iter().map(|n| s(n)).collect(),
        register: register.iter().map(|n| s(n)).collect(),
        request: request.iter().map(|n| s(n)).collect(),
    }
}

fn register(x: &str) -> Expr {
    Expr::Register { observer: s("CTX"), function: s("f"), name: s(x) }
}

fn request(x: &str) -> Expr {
    Expr::Request { observer: s("CTX"), function: s("f"), name: s(x) }
}

fn sample_body() -> Vec<Stmt> {
    vec![
        let_("k", Expr::Lit(1)),
        let_("q", Expr::Lit(2)),
        Stmt::Semi(Expr::Call(Box::new(name("g")), vec![name("q"), add(name("k"), name("q"))])),
        Stmt::Semi(Expr::Assign(Box::new(name("k")), Box::new(name("q")))),
        Stmt::Other(7, vec![name("k")]),
        Stmt::Expr(Expr::Block(vec![Stmt::Expr(name("k"))])),
    ]
}

#[test]
fn empty_directive_leaves_body_unchanged() {
    let d = directive(&[], &[], &[]);
    assert_eq!(rewrite_body(&d, &s("f"), sample_body()), sample_body());
}

#[test]
fn unmatched_names_leave_body_unchanged() {
    let d = directive(&["absent"], &["nowhere"], &["missing"]);
    assert_eq!(rewrite_body(&d, &s("f"), sample_body()), sample_body());
}

#[test]
fn proposed_let_is_wrapped() {
    let d = directive(&["k"], &[], &[]);
    let out = rewrite_body(&d, &s("f"), vec![let_("k", Expr::Lit(1))]);
    assert_eq!(
        out,
        vec![Stmt::ProposeLet {
            observer: s("CTX"),
            function: s("f"),
            name: s("k"),
            mutable: false,
            ty: None,
            init: Expr::Lit(1),
        }]
    );
}

#[test]
fn proposed_let_keeps_mut() {
    let d = directive(&["k"], &[], &[]);
    let body = vec![Stmt::Let { pat: Pat::Name { name: s("k"), mutable: true, ty: None }, init: Some(Expr::Lit(0)) }];
    let out = rewrite_body(&d, &s("f"), body);
    assert!(matches!(&out[0], Stmt::ProposeLet { mutable: true, .. }));
}

#[test]
fn let_with_other_pattern_is_rewritten_generically() {
    let d = directive(&["k"], &[], &["q"]);
    let body = vec![Stmt::Let { pat: Pat::Other(3), init: Some(name("q")) }];
    let out = rewrite_body(&d, &s("f"), body);
    assert_eq!(out, vec![Stmt::Let { pat: Pat::Other(3), init: Some(request("q")) }]);
}

#[test]
fn let_without_initializer_is_untouched() {
    let d = directive(&["k"], &[], &[]);
    let body = vec![Stmt::Let { pat: Pat::Name { name: s("k"), mutable: false, ty: None }, init: None }];
    let out = rewrite_body(&d, &s("f"), body);
    assert_eq!(out, vec![Stmt::Let { pat: Pat::Name { name: s("k"), mutable: false, ty: None }, init: None }]);
}

#[test]
fn proposed_assignment_is_wrapped_after_its_value() {
    let d = directive(&["k"], &["k"], &["q"]);
    let body = vec![Stmt::Semi(Expr::Assign(Box::new(name("k")), Box::new(name("q"))))];
    let out = rewrite_body(&d, &s("f"), body);
    assert_eq!(
        out,
        vec![Stmt::Semi(Expr::ProposeAssign {
            observer: s("CTX"),
            function: s("f"),
            name: s("k"),
            value: Box::new(request("q")),
        })]
    );
}

#[test]
fn assignment_target_is_never_read_wrapped() {
    let d = directive(&[], &["k"], &[]);
    let body = vec![Stmt::Semi(Expr::Assign(Box::new(name("k")), Box::new(name("k"))))];
    let out = rewrite_body(&d, &s("f"), body);
    assert_eq!(out, vec![Stmt::Semi(Expr::Assign(Box::new(name("k")), Box::new(register("k"))))]);
}

#[test]
fn register_takes_precedence_over_request() {
    let d = directive(&[], &["x"], &["x"]);
    let body = vec![
        Stmt::Expr(name("x")),
        Stmt::Semi(Expr::Call(Box::new(name("g")), vec![name("x")])),
    ];
    let out = rewrite_body(&d, &s("f"), body);
    assert_eq!(
        out,
        vec![
            Stmt::Expr(register("x")),
            Stmt::Semi(Expr::Call(Box::new(name("g")), vec![register("x")])),
        ]
    );
}

#[test]
fn requested_call_argument_gets_value_request() {
    let d = directive(&[], &[], &["q"]);
    let body = vec![Stmt::Semi(Expr::Call(Box::new(name("g")), vec![name("q"), Expr::Lit(4)]))];
    let out = rewrite_body(&d, &s("f"), body);
    assert_eq!(
        out,
        vec![Stmt::Semi(Expr::Call(
            Box::new(name("g")),
            vec![
                Expr::RequestValue { observer: s("CTX"), value: Box::new(request("q")) },
                Expr::Lit(4),
            ],
        ))]
    );
}

#[test]
fn callee_name_is_matched_like_any_read() {
    let d = directive(&[], &["g"], &[]);
    let body = vec![Stmt::Semi(Expr::Call(Box::new(name("g")), vec![]))];
    let out = rewrite_body(&d, &s("f"), body);
    assert_eq!(out, vec![Stmt::Semi(Expr::Call(Box::new(register("g")), vec![]))]);
}

#[test]
fn request_nested_three_levels_is_wrapped() {
    let d = directive(&[], &[], &["q"]);
    let body = vec![Stmt::Expr(Expr::Block(vec![Stmt::Semi(Expr::Call(
        Box::new(name("g")),
        vec![add(name("q"), Expr::Lit(1))],
    ))]))];
    let out = rewrite_body(&d, &s("f"), body);
    assert_eq!(
        out,
        vec![Stmt::Expr(Expr::Block(vec![Stmt::Semi(Expr::Call(
            Box::new(name("g")),
            vec![add(request("q"), Expr::Lit(1))],
        ))]))]
    );
}

#[test]
fn same_name_in_two_scopes_is_wrapped_in_both() {
    let d = directive(&[], &["v"], &[]);
    let body = vec![
        Stmt::Expr(Expr::Block(vec![let_("v", Expr::Lit(1)), Stmt::Expr(name("v"))])),
        Stmt::Expr(Expr::Block(vec![let_("v", Expr::Lit(2)), Stmt::Expr(name("v"))])),
    ];
    let out = rewrite_body(&d, &s("f"), body);
    assert_eq!(
        out,
        vec![
            Stmt::Expr(Expr::Block(vec![let_("v", Expr::Lit(1)), Stmt::Expr(register("v"))])),
            Stmt::Expr(Expr::Block(vec![let_("v", Expr::Lit(2)), Stmt::Expr(register("v"))])),
        ]
    );
}

#[test]
fn other_nodes_are_rebuilt_from_rewritten_children() {
    let d = directive(&[], &[], &["q"]);
    let body = vec![Stmt::Other(9, vec![name("q"), name("r")]), Stmt::Expr(Expr::Other(2, vec![name("q")]))];
    let out = rewrite_body(&d, &s("f"), body);
    assert_eq!(
        out,
        vec![Stmt::Other(9, vec![request("q"), name("r")]), Stmt::Expr(Expr::Other(2, vec![request("q")]))]
    );
}

#[test]
fn decorate_vars_parses_then_rewrites() {
    let out = decorate_vars(
        "context = CTX, propose = [], register = [], request = [q]",
        &s("f"),
        vec![Stmt::Expr(name("q"))],
    );
    assert_eq!(out, Ok(vec![Stmt::Expr(request("q"))]));
    let bad = decorate_vars("context = CTX", &s("f"), vec![]);
    assert!(bad.is_err());
}

#[test]
fn proposed_typed_let_keeps_its_type() {
    let d = directive(&["x"], &[], &[]);
    let body = vec![Stmt::Let { pat: Pat::Name { name: s("x"), mutable: false, ty: Some(4) }, init: Some(Expr::Lit(5)) }];
    let out = rewrite_body(&d, &s("f"), body);
    assert_eq!(
        out,
        vec![Stmt::ProposeLet {
            observer: s("CTX"),
            function: s("f"),
            name: s("x"),
            mutable: false,
            ty: Some(4),
            init: Expr::Lit(5),
        }]
    );
}
