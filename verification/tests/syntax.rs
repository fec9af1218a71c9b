use portrait::ast::{BinOp, CovenantMode, Expr, Program, ReturnExpr, Step, Stmt, UnOp};
use portrait::parser::{parse, parse_expr, parse_return_expr};
use portrait::rejection::rejection_set;

fn first_entry_body(program: &Program) -> &[Stmt] {
    &program.app.roles[0].entrypoints[0].body
}

fn var(name: &str) -> Expr {
    Expr::Var(name.to_string())
}

fn bin(op: BinOp, lhs: Expr, rhs: Expr) -> Expr {
    Expr::Binary { op, lhs: Box::new(lhs), rhs: Box::new(rhs) }
}

#[test]
fn app_composition_grammar_yields_clear_diagnostic() {
    let src = r#"pragma portrait ^0.1.0;
use custody::TimeVault;
app PersonalVault {
    contract vault = TimeVault {
        owner = param pubkey,
    }
}
"#;
    let err = parse(src).expect_err("app-composition must be rejected");
    assert!(
        err.contains("app-composition sources") && err.contains("role/lifecycle/flow/invariant"),
        "diagnostic should name the covenant grammar, got: {err}"
    );
}

#[test]
fn opinput_covenant_id_call_parses() {
    let expr = parse_expr("parent_kov_id == OpInputCovenantId(0)").unwrap();
    assert_eq!(
        expr,
        bin(
            BinOp::Eq,
            var("parent_kov_id"),
            Expr::Call { name: "OpInputCovenantId".to_string(), args: vec![Expr::Int(0)] }
        )
    );
}

#[test]
fn precedence_climbing_orders_operators() {
    let expr = parse_expr("a || b && c == d + e * f").unwrap();
    let expected = bin(
        BinOp::Or,
        var("a"),
        bin(
            BinOp::And,
            var("b"),
            bin(BinOp::Eq, var("c"), bin(BinOp::Add, var("d"), bin(BinOp::Mul, var("e"), var("f")))),
        ),
    );
    assert_eq!(expr, expected);
}

#[test]
fn unary_and_postfix_parse() {
    assert_eq!(parse_expr("-a").unwrap(), Expr::Unary { op: UnOp::Neg, rhs: Box::new(var("a")) });
    assert_eq!(parse_expr("!b").unwrap(), Expr::Unary { op: UnOp::Not, rhs: Box::new(var("b")) });
    assert_eq!(
        parse_expr("prev_states[0].seq").unwrap(),
        Expr::Field {
            base: Box::new(Expr::Index { base: Box::new(var("prev_states")), index: Box::new(Expr::Int(0)) }),
            field: "seq".to_string(),
        }
    );
}

#[test]
fn to_silverscript_roundtrips_canonically() {
    let r = parse_return_expr("value + delta").unwrap();
    assert_eq!(r.to_silverscript(), "value + delta");
    let r = parse_return_expr("Name { a: x + 1, b: y }").unwrap();
    assert_eq!(r.to_silverscript(), "Name { a: x + 1, b: y }");
    let e = parse_expr("parent_kov_id == OpInputCovenantId(0)").unwrap();
    assert_eq!(e.to_silverscript(), "parent_kov_id == OpInputCovenantId(0)");
}

#[test]
fn raw_fallback_on_unparseable_require() {
    let src = r#"pragma portrait ^0.1.0;
app A {
  role r {
    state { int v; }
    #[covenant(mode = transition)]
    entrypoint function f() : (int v) {
      requires v @ 1;
      return v + 1;
    }
  }
  lifecycle { live -> live via r.f; }
  invariant no_undeclared_state;
}
"#;
    let program = parse(src).expect("program with a raw require still parses");
    let body = first_entry_body(&program);
    assert!(
        matches!(&body[0], Stmt::Raw(s) if s.contains("v @ 1")),
        "first stmt should be Raw fallback, got {:?}",
        body[0]
    );
    assert_eq!(body[1], Stmt::Return(ReturnExpr::Scalar(bin(BinOp::Add, var("v"), Expr::Int(1)))));
}

fn program_with_body(body_stmt: &str) -> String {
    format!(
        r#"pragma portrait ^0.1.0;
app A {{
  role r {{
    state {{ int v; }}
    #[covenant(mode = transition)]
    entrypoint function f() : (int v) {{
      {body_stmt}
      return v + 1;
    }}
  }}
  lifecycle {{ live -> live via r.f; }}
  invariant no_undeclared_state;
}}
"#
    )
}

#[test]
fn rejects_unbounded_loop_naming_construct() {
    let src = program_with_body("for (i = 0; i < n; i = i + 1) { x = x + 1 };");
    let err = parse(&src).expect_err("unbounded loop must be rejected");
    assert!(
        err.contains("unsupported construct `for`")
            && err.contains("vProgs layer")
            && err.contains("SOLIDITY-SUBSET-V0 §3"),
        "diagnostic must name the construct + vProgs route, got: {err}"
    );
}

#[test]
fn rejects_event_emit_naming_construct() {
    let src = program_with_body("emit Transfer(from, to, amount);");
    let err = parse(&src).expect_err("emit must be rejected");
    assert!(
        err.contains("unsupported construct `emit`") && err.contains("event logs"),
        "diagnostic must name emit + event logs, got: {err}"
    );
}

#[test]
fn rejects_cross_contract_call_naming_construct() {
    let src = program_with_body("target.call(payload);");
    let err = parse(&src).expect_err("synchronous cross-contract call must be rejected");
    assert!(
        err.contains("unsupported construct `call`")
            && err.contains("cross-contract")
            && err.contains("vProgs layer"),
        "diagnostic must name the call + cross-contract reason, got: {err}"
    );
}

#[test]
fn rejects_allowance_transfer_from_naming_construct() {
    let src = program_with_body("transferFrom(owner, to, amount);");
    let err = parse(&src).expect_err("transferFrom must be rejected");
    assert!(
        err.contains("unsupported construct `transferFrom`") && err.contains("allowance"),
        "diagnostic must name transferFrom + allowance reason, got: {err}"
    );
}

#[test]
fn rejects_mapping_state_field_naming_construct() {
    let src = r#"pragma portrait ^0.1.0;
app A {
  role r {
    state { map<pubkey, int> balances; }
    #[covenant(mode = transition)]
    entrypoint function f() : (int v) {
      return v + 1;
    }
  }
  lifecycle { live -> live via r.f; }
  invariant no_undeclared_state;
}
"#;
    let err = parse(src).expect_err("mapping state field must be rejected");
    assert!(
        err.contains("unsupported construct `map<K, V>`")
            && err.contains("shared mutable mappings")
            && err.contains("vProgs layer"),
        "diagnostic must name the mapping + vProgs route, got: {err}"
    );
}

#[test]
fn rejects_cross_contract_call_embedded_in_require() {
    let src = program_with_body("require strategy.call(amount);");
    let err = parse(&src).expect_err("a blacklisted .call embedded in require must be rejected");
    assert!(
        err.contains("unsupported construct `call`")
            && err.contains("cross-contract")
            && err.contains("vProgs layer"),
        "embedded require must name the construct, got: {err}"
    );
}

#[test]
fn rejects_cross_contract_call_embedded_in_return() {
    let src = program_with_body("return strategy.call(amount);");
    let err = parse(&src).expect_err("a blacklisted .call embedded in return must be rejected");
    assert!(
        err.contains("unsupported construct `call`")
            && err.contains("cross-contract")
            && err.contains("vProgs layer"),
        "embedded return must name the construct, got: {err}"
    );
}

#[test]
fn rejects_cross_contract_call_embedded_in_return_object_field() {
    let src = program_with_body("return State { next: target.call(payload) };");
    let err = parse(&src).expect_err("a blacklisted .call nested in a return object field must be rejected");
    assert!(
        err.contains("unsupported construct `call`")
            && err.contains("cross-contract")
            && err.contains("vProgs layer"),
        "nested object-field return must name the construct, got: {err}"
    );
}

#[test]
fn rejection_set_does_not_swallow_unrelated_raw_forms() {
    let src = program_with_body("v @ 1;");
    let program = parse(&src).expect("non-blacklisted raw form still parses");
    let body = first_entry_body(&program);
    assert!(
        matches!(&body[0], Stmt::Raw(s) if s.contains("v @ 1")),
        "non-blacklisted form should be Raw, got {:?}",
        body[0]
    );
}

fn program_with_vprog_body(vprog_stmt: &str) -> String {
    format!(
        r#"pragma portrait ^0.1.0;
app A {{
  role r {{
    state {{ int v; }}
    #[covenant(mode = transition)]
    entrypoint function settle(int amount) : (int v) {{
      return v - amount;
    }}
    entrypoint function tally(int n) {{
      {vprog_stmt}
      return v;
    }}
  }}
  lifecycle {{ live -> live via r.settle; }}
  invariant no_undeclared_state;
}}
"#
    )
}

#[test]
fn rejection_set_construct_allowed_in_noncovenant_entrypoint() {
    let src = program_with_vprog_body("for (i = 0; i < n; i = i + 1) { x = x + 1 };");
    let program = parse(&src).expect("a `for` loop in a vProg entrypoint must parse, not be rejected");
    let tally = &program.app.roles[0].entrypoints[1];
    assert!(matches!(tally.mode, CovenantMode::NonCovenant));
    assert!(
        matches!(&tally.body[0], Stmt::Raw(s) if s.contains("for") && s.contains("x = x + 1")),
        "the loop should be a recorded Raw hole, got {:?}",
        tally.body[0]
    );
    assert_eq!(tally.body[1], Stmt::Return(ReturnExpr::Scalar(var("v"))));
}

#[test]
fn rejection_set_construct_still_rejected_in_covenant_entrypoint() {
    let src = program_with_body("for (i = 0; i < n; i = i + 1) { x = x + 1 };");
    let err = parse(&src).expect_err("a `for` loop in a covenant entrypoint must be rejected");
    assert!(
        err.contains("unsupported construct `for`") && err.contains("vProgs layer"),
        "covenant-mode rejection must be unchanged, got: {err}"
    );
}

#[test]
fn rejection_set_method_call_allowed_in_noncovenant_entrypoint() {
    let src = program_with_vprog_body("oracle.call(payload);");
    let program = parse(&src).expect("a `.call` in a vProg entrypoint must parse");
    let tally = &program.app.roles[0].entrypoints[1];
    assert!(
        matches!(&tally.body[0], Stmt::Raw(s) if s.contains("oracle.call")),
        "the cross-call should be a recorded Raw hole, got {:?}",
        tally.body[0]
    );
}

fn parse_flow_steps(flow_body: &str) -> Vec<Step> {
    let src = format!("pragma portrait ^0.1.0;\napp F {{\n  flow {{\n{flow_body}\n  }}\n}}\n");
    let program = parse(&src).expect("flow program should parse");
    program.app.flow.expect("flow block must be present").steps
}

#[test]
fn move_only_flow_still_parses() {
    let steps = parse_flow_steps("a.first; b.second");
    assert_eq!(steps.len(), 2);
    assert!(matches!(&steps[0], Step::Move { role, entry } if role == "a" && entry == "first"));
    assert!(matches!(&steps[1], Step::Move { role, entry } if role == "b" && entry == "second"));
}

#[test]
fn choose_parses_to_choose_with_branches() {
    let steps = parse_flow_steps("choose {\n  branch { a.yes }\n  branch { b.no }\n}");
    assert_eq!(steps.len(), 1);
    let Step::Choose(branches) = &steps[0] else {
        panic!("expected Step::Choose, got {:?}", steps[0]);
    };
    assert_eq!(branches.len(), 2);
    assert!(matches!(&branches[0].steps[0], Step::Move { role, entry } if role == "a" && entry == "yes"));
    assert!(matches!(&branches[1].steps[0], Step::Move { role, entry } if role == "b" && entry == "no"));
}

#[test]
fn par_parses_to_par_with_threads() {
    let steps = parse_flow_steps("par {\n  thread { a.x }\n  thread { b.y }\n}");
    assert_eq!(steps.len(), 1);
    let Step::Par(threads) = &steps[0] else {
        panic!("expected Step::Par, got {:?}", steps[0]);
    };
    assert_eq!(threads.len(), 2);
    assert!(matches!(&threads[0].steps[0], Step::Move { role, entry } if role == "a" && entry == "x"));
    assert!(matches!(&threads[1].steps[0], Step::Move { role, entry } if role == "b" && entry == "y"));
}

#[test]
fn repeat_parses_to_repeat_with_count_and_body() {
    let steps = parse_flow_steps("repeat 3 { a.tick; b.tock }");
    assert_eq!(steps.len(), 1);
    let Step::Repeat(count, body) = &steps[0] else {
        panic!("expected Step::Repeat, got {:?}", steps[0]);
    };
    assert_eq!(*count, 3);
    assert_eq!(body.steps.len(), 2);
    assert!(matches!(&body.steps[0], Step::Move { role, entry } if role == "a" && entry == "tick"));
}

#[test]
fn nested_control_constructs_parse() {
    let steps = parse_flow_steps("repeat 2 {\n  choose {\n    branch { a.l }\n    branch { b.r }\n  }\n}");
    let Step::Repeat(2, body) = &steps[0] else {
        panic!("expected outer Step::Repeat(2, ..), got {:?}", steps[0]);
    };
    assert!(matches!(&body.steps[0], Step::Choose(b) if b.len() == 2));
}

#[test]
fn empty_choose_is_a_parse_error() {
    let src = "pragma portrait ^0.1.0;\napp F { flow { choose {} } }\n";
    let err = parse(src).expect_err("an empty choose must not parse");
    assert!(err.contains("at least one `branch"), "error should name the missing branch, got: {err}");
}

#[test]
fn bad_branch_label_is_a_parse_error() {
    let src = "pragma portrait ^0.1.0;\napp F { flow { choose { foo { a.x } } } }\n";
    let err = parse(src).expect_err("a mislabelled branch must not parse");
    assert!(err.contains("expected keyword branch"), "error should name the expected branch keyword, got: {err}");
}

#[test]
fn unterminated_choose_is_a_parse_error() {
    let src = "pragma portrait ^0.1.0;\napp F { flow { choose { branch { a.x } ";
    parse(src).expect_err("an unterminated choose must not parse");
}

#[test]
fn repeat_without_count_is_a_parse_error() {
    let src = "pragma portrait ^0.1.0;\napp F { flow { repeat { a.x } } }\n";
    let err = parse(src).expect_err("a repeat with no count must not parse");
    assert!(err.contains("repeat count"), "error should name the missing count, got: {err}");
}

#[test]
fn repeat_zero_is_a_parse_error() {
    let src = "pragma portrait ^0.1.0;\napp F { flow { repeat 0 { a.x } } }\n";
    let err = parse(src).expect_err("a repeat 0 must not parse");
    assert!(err.contains("repeat count must be >= 1"), "error should name the >= 1 requirement, got: {err}");
}

#[test]
fn rejection_set_table_is_nonempty_and_well_formed() {
    let set = rejection_set();
    assert!(!set.is_empty());
    for rc in &set {
        assert!(!rc.lead.is_empty(), "construct lead must be named");
        assert!(!rc.reason.is_empty(), "construct must carry a reason");
        assert!(rc.subset_ref.contains("SOLIDITY-SUBSET-V0 §3"), "each entry must cite SOLIDITY-SUBSET-V0 §3");
    }
}

// ── further cases ────────────────────────────────────────────────────────

#[test]
fn error_positions_are_byte_offsets() {
    let err = parse("pragma x; app A { bogus }").unwrap_err();
    assert_eq!(err, "expected role, lifecycle, flow, or invariant at byte 18");
}

#[test]
fn trailing_tokens_are_rejected() {
    assert_eq!(parse_expr("a b").unwrap_err(), "trailing tokens after expression");
    assert_eq!(parse_return_expr("a; b").unwrap_err(), "trailing tokens after return expression");
    assert_eq!(parse("pragma x; app A { } extra").unwrap_err(), "unexpected trailing tokens after app at byte 20");
}

#[test]
fn unknown_covenant_mode_is_named() {
    let src = "pragma x; app A { role r { #[covenant(mode = sideways)] entrypoint function f() { } } }";
    let err = parse(src).unwrap_err();
    assert!(err.starts_with("unknown covenant mode sideways"), "got: {err}");
}

#[test]
fn defaulted_param_is_rejected() {
    let src = "pragma x; app A { role r { param int p = 3; } }";
    let err = parse(src).unwrap_err();
    assert!(err.starts_with("defaulted params are not supported in M0"), "got: {err}");
}

#[test]
fn program_pieces_are_recorded() {
    let src = "pragma portrait ^0.1.0;\nuse a::b;\nuse c;\napp A {\n  role r = Comp {\n    param pubkey owner;\n    state { int v; set<int> s; }\n    #[covenant.singleton(mode = verification)]\n    entrypoint function f(sig auth, int n) : (int v, int w) {\n      require(checkSig(auth, owner));\n      requires n > 0;\n    }\n  }\n  lifecycle { a -> b via r.f; b -> c via r.f terminal; }\n  invariant value_conserved;\n  invariant no_undeclared_state;\n  invariant custom_thing;\n}\n";
    let p = parse(src).unwrap();
    assert_eq!(p.pragma, "portrait ^0.1.0");
    assert_eq!(p.uses, vec!["a::b", "c"]);
    let role = &p.app.roles[0];
    assert_eq!(role.component.as_deref(), Some("Comp"));
    assert_eq!(role.params.len(), 1);
    assert_eq!(role.state.len(), 2);
    let e = &role.entrypoints[0];
    assert!(matches!(e.mode, CovenantMode::Verification));
    assert_eq!(e.args.len(), 2);
    assert_eq!(e.requires, vec!["checkSig(auth, owner)", "n > 0"]);
    assert_eq!(p.app.lifecycle.len(), 2);
    assert!(p.app.lifecycle[1].terminal);
    assert_eq!(p.app.invariants.len(), 3);
}

#[test]
fn out_of_range_integer_literal_is_an_error() {
    assert!(parse_expr("99999999999999999999").is_err());
    assert_eq!(parse_expr("9223372036854775807").unwrap(), Expr::Int(i64::MAX));
}

#[test]
fn expression_errors_name_what_is_missing() {
    assert_eq!(parse_expr("a +"), Err("unexpected end of input in expression".to_string()));
    assert_eq!(parse_expr("f(a"), Err("unexpected end of input".to_string()));
    assert_eq!(parse_expr("x.1"), Err("expected identifier at byte 2".to_string()));
    assert_eq!(parse_expr("* a"), Err("expected an expression at byte 0".to_string()));
    assert_eq!(parse_expr("a b"), Err("trailing tokens after expression".to_string()));
    assert_eq!(parse_expr("99999999999999999999"), Err("integer literal out of range at byte 0".to_string()));
}

#[test]
fn return_expression_errors_name_what_is_missing() {
    assert_eq!(parse_return_expr("{}"), Err("empty object literal in return at byte 2".to_string()));
    assert_eq!(parse_return_expr("N { a 1 }"), Err("expected ':' at byte 6".to_string()));
}
