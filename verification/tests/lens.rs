use portrait::ast::{Program, Type};
use portrait::encode::{encode_expr, is_value_bearing_split, EncodeCtx, ExpectSort, Logic};
use portrait::obligations::{build_refinement_vcs, prove_program, DeclaredInvariants};
use portrait::parser::{parse, parse_expr};
use portrait::sexpr::parse_all;
use portrait::solve::{parse_verdict, reorder_assertions, Verdict};
use portrait::validate::{int_literal, validate_refutation, WitnessConfidence};
use portrait::vc::{expr_is_constant, VcKind, VcReport};
use portrait::ast::Expr;

// ---- encoding ----------------------------------------------------------------

fn ctx() -> EncodeCtx {
    EncodeCtx::new(vec![
        ("balance".to_string(), "Int".to_string()),
        ("amount".to_string(), "Int".to_string()),
        ("x".to_string(), "Int".to_string()),
        ("y".to_string(), "Int".to_string()),
        ("auth".to_string(), "Sig".to_string()),
        ("owner".to_string(), "PubKey".to_string()),
    ])
}

#[test]
fn split_predicate_matches_sema_on_worked_example_fields() {
    // MultisigTreasury: V = {balance} (name in VALUE_BEARING_NAMES).
    assert!(is_value_bearing_split("balance", &Type::Int));
    assert!(!is_value_bearing_split("signer_a", &Type::PubKey));
    // InternalSplit: V = {pool_a/b/c_balance} via the *wide* rule (ends in
    // "balance"), even though they are int-typed and not exactly "balance".
    assert!(is_value_bearing_split("pool_a_balance", &Type::Int));
    assert!(is_value_bearing_split("pool_b_balance", &Type::Int));
    assert!(is_value_bearing_split("pool_c_balance", &Type::Int));
    assert!(!is_value_bearing_split("owner", &Type::PubKey));
    // coin-typed is value-bearing regardless of name.
    assert!(is_value_bearing_split("locked", &Type::Coin));
}

#[test]
fn add_sub_stay_qf_lia() {
    let mut logic = Logic::QfLia;
    let e = parse_expr("balance - amount").unwrap();
    let t = encode_expr(&e, &mut ctx(), &mut logic, ExpectSort::Int).unwrap();
    assert_eq!(t, "(- balance amount)");
    assert_eq!(logic, Logic::QfLia);
}

#[test]
fn const_mul_stays_linear_and_is_exact() {
    // x * 2 — the case structural D4 cannot reason about (x*2 == x+x).
    let mut logic = Logic::QfLia;
    let e = parse_expr("x * 2").unwrap();
    let t = encode_expr(&e, &mut ctx(), &mut logic, ExpectSort::Int).unwrap();
    assert_eq!(t, "(* x 2)");
    assert_eq!(logic, Logic::QfLia);
}

#[test]
fn non_const_mul_is_refused() {
    let mut logic = Logic::QfLia;
    let e = parse_expr("x * y").unwrap();
    assert!(encode_expr(&e, &mut ctx(), &mut logic, ExpectSort::Int).is_err());
}

#[test]
fn checksig_call_lifts_to_auflia_and_is_declared_bool() {
    let mut logic = Logic::QfLia;
    let mut c = ctx();
    let e = parse_expr("checkSig(auth, owner)").unwrap();
    let t = encode_expr(&e, &mut c, &mut logic, ExpectSort::Bool).unwrap();
    assert_eq!(t, "(checkSig auth owner)");
    assert_eq!(logic, Logic::QfAuflia);
    let sig = &c
        .ufs()
        .iter()
        .find(|(name, _)| name == "checkSig")
        .expect("checkSig collected")
        .1;
    assert_eq!(sig.ret, "Bool");
    assert_eq!(sig.args, vec!["Sig".to_string(), "PubKey".to_string()]);
}

// ---- conservation fail-closed ---------------------------------------------

fn rhs_of(src: &str) -> Expr {
    match parse_expr(src).unwrap() {
        Expr::Binary { rhs, .. } => *rhs,
        other => other,
    }
}

#[test]
fn constant_counter_term_vs_value_term() {
    // `seq + 1` — the delta `1` is constant (a legitimate counter increment).
    assert!(expr_is_constant(&rhs_of("seq + 1")));
    // `pot + x` — the delta `x` references a variable (a value amount).
    assert!(!expr_is_constant(&rhs_of("pot + x")));
    assert!(expr_is_constant(&parse_expr("2 + 3").unwrap()));
    assert!(!expr_is_constant(&parse_expr("x + 3").unwrap()));
}

const ADV_POT: &str = r#"pragma portrait ^0.1.0;
app AdvPot {
  role pool {
    param int pool_a_balance; param int pool_b_balance; param int pot; param pubkey owner;
    state { int pool_a_balance; int pool_b_balance; int pot; pubkey owner; }
    #[covenant(mode = transition)]
    entrypoint function rebalance(sig auth, int x) : (int pool_a_balance, int pool_b_balance, int pot, pubkey owner) {
      requires checkSig(auth, owner); requires x >= 0; requires x <= pool_a_balance;
      return AdvPot { pool_a_balance: pool_a_balance - x, pool_b_balance: pool_b_balance + x, pot: pot + x, owner: owner };
    }
  }
  lifecycle { live -> live via pool.rebalance; }
  invariant authorized; invariant no_undeclared_state;
}"#;

const CTRL: &str = r#"pragma portrait ^0.1.0;
app CtrlCounter {
  role pool {
    param int pool_a_balance; param int pool_b_balance; param int seq; param pubkey owner;
    state { int pool_a_balance; int pool_b_balance; int seq; pubkey owner; }
    #[covenant(mode = transition)]
    entrypoint function rebalance(sig auth, int x) : (int pool_a_balance, int pool_b_balance, int seq, pubkey owner) {
      requires checkSig(auth, owner); requires x >= 0; requires x <= pool_a_balance;
      return CtrlCounter { pool_a_balance: pool_a_balance - x, pool_b_balance: pool_b_balance + x, seq: seq + 1, owner: owner };
    }
  }
  lifecycle { live -> live via pool.rebalance; }
  invariant authorized; invariant no_undeclared_state;
}"#;

#[test]
fn conservation_fails_closed_on_value_into_non_v_field() {
    let prog = parse(ADV_POT).expect("adv_pot parses");
    let reports = prove_program(&prog).expect("prove_program ok");
    assert!(
        !reports
            .iter()
            .any(|r| matches!(r.vc_kind, VcKind::ValueConservation)),
        "value accumulated into a non-V field must NOT yield a value-conservation VC (fail-closed)"
    );
}

#[test]
fn conservation_still_built_with_constant_counter() {
    let prog = parse(CTRL).expect("ctrl parses");
    let reports = prove_program(&prog).expect("prove_program ok");
    assert!(
        reports
            .iter()
            .any(|r| matches!(r.vc_kind, VcKind::ValueConservation)),
        "a constant counter (seq + 1) must not block the conservation VC"
    );
}

// ---- refinement ------------------------------------------------------------

const REFINE_CAP_UNGUARDED: &str = r#"pragma portrait ^0.1.0;
app RefineCapUnguarded {
  role vault {
    param pubkey owner;
    param int    balance;
    param int    limit;
    state { pubkey owner; int balance; int limit; }
    #[covenant(mode = transition)]
    entrypoint function withdraw(sig auth, int amount) : (pubkey owner, int balance, int limit) {
      requires checkSig(auth, owner);
      requires amount >= 0;
      return RefineCapUnguarded { owner: owner, balance: balance - amount, limit: limit };
    }
  }
  lifecycle { live -> live via vault.withdraw; }
  invariant spending_cap;
  invariant non_negative_amount;
  invariant no_undeclared_state;
}
"#;

fn unguarded_cap_vc() -> VcReport {
    let prog: Program = parse(REFINE_CAP_UNGUARDED).expect("fixture should parse");
    let role = &prog.app.roles[0];
    let entry = &role.entrypoints[0];
    let declared = DeclaredInvariants::from_app(&prog.app.invariants);
    let mut vcs: Vec<VcReport> = build_refinement_vcs(role, entry, &declared)
        .into_iter()
        .filter(|r| r.smtlib.contains("(not (<= amount limit))"))
        .collect();
    assert_eq!(vcs.len(), 1, "expected exactly one spending_cap refinement VC");
    vcs.pop().unwrap()
}

#[test]
fn refinement_vc_negates_phi_and_keeps_t_alone_probe() {
    // SMT-shape pin (runs without z3): the full query carries the negated φ; the
    // vacuity probe is T ALONE (no negated φ), so the SAT(T) guard governs it.
    let vc = unguarded_cap_vc();
    assert!(vc.smtlib.contains("(not (<= amount limit))"));
    assert!(
        !vc.transition_smtlib.contains("(not (<= amount limit))"),
        "vacuity probe must be T alone, without the negated VC; got:\n{}",
        vc.transition_smtlib
    );
}

// ---- solver replies --------------------------------------------------------

#[test]
fn reorder_assertions_reverses_only_the_asserts() {
    let doc = "(set-logic QF_LIA)\n(declare-const x Int)\n(assert (>= x 0))\n\
               (assert (<= x 5))\n(check-sat)\n(get-model)\n";
    let out = reorder_assertions(doc).expect("parseable");
    let i_lo = out.find("(>= x 0)").expect("lo present");
    let i_hi = out.find("(<= x 5)").expect("hi present");
    assert!(i_hi < i_lo, "asserts must be reversed; got:\n{out}");
    assert!(out.contains("(set-logic QF_LIA)"));
    assert!(out.contains("(declare-const x Int)"));
    assert!(out.contains("(check-sat)"));
}

#[test]
fn unsat_parses_to_unsat() {
    assert!(matches!(parse_verdict("unsat\n"), Verdict::Unsat));
}

#[test]
fn sat_with_model_carries_the_witness() {
    let out = "sat\n(\n  (define-fun x () Int 1)\n)";
    match parse_verdict(out) {
        Verdict::Sat { model } => assert!(model.contains("x")),
        other => panic!("expected Sat with model, got {other:?}"),
    }
}

#[test]
fn sat_without_model_is_sat_with_empty_body() {
    match parse_verdict("sat\n") {
        Verdict::Sat { model } => assert!(model.is_empty()),
        other => panic!("expected Sat with empty model, got {other:?}"),
    }
}

#[test]
fn unknown_token_is_indecisive_never_unsat() {
    assert!(matches!(
        parse_verdict("unknown\n"),
        Verdict::Indecisive { .. }
    ));
    assert!(matches!(parse_verdict(""), Verdict::Indecisive { .. }));
    assert!(matches!(
        parse_verdict("(error \"line 1\")\n"),
        Verdict::Indecisive { .. }
    ));
}

// ---- counter-model replay --------------------------------------------------

#[test]
fn pure_integer_witness_is_confirmed() {
    let full = "(set-logic QF_LIA)\n\
        (declare-const balance Int)\n\
        (declare-const other Int)\n\
        (declare-const x Int)\n\
        (declare-const balance_p Int)\n\
        (declare-const other_p Int)\n\
        (assert (>= x 0))\n\
        (assert (= balance_p (- balance x)))\n\
        (assert (= other_p (+ other x 1)))\n\
        (assert (not (= (+ balance_p other_p) (+ balance other))))\n\
        (check-sat)\n(get-model)\n";
    let model = "(\n  (define-fun balance () Int 10)\n  (define-fun other () Int 0)\n\
        (define-fun x () Int 3)\n  (define-fun balance_p () Int 7)\n\
        (define-fun other_p () Int 4)\n)";
    assert_eq!(
        validate_refutation(full, model),
        WitnessConfidence::Confirmed
    );
}

#[test]
fn witness_relying_on_uninterpreted_function_is_candidate() {
    let full = "(set-logic QF_AUFLIA)\n\
        (declare-const x Int)\n\
        (declare-fun opaque (Int) Bool)\n\
        (assert (opaque x))\n\
        (assert (not (>= x 0)))\n\
        (check-sat)\n(get-model)\n";
    let model = "(\n  (define-fun x () Int (- 1))\n\
        (define-fun opaque ((x!0 Int)) Bool true)\n)";
    match validate_refutation(full, model) {
        WitnessConfidence::Candidate { reason } => {
            assert!(
                reason.contains("opaque"),
                "reason should name the UF: {reason}"
            );
        }
        other => panic!("expected Candidate, got {other:?}"),
    }
}

#[test]
fn negative_integer_literal_is_parsed() {
    assert_eq!(int_literal(&parse_all("(- 5)").unwrap()[0]), Some(-5));
    assert_eq!(int_literal(&parse_all("12").unwrap()[0]), Some(12));
}

#[test]
fn missing_model_value_degrades_to_candidate_fail_closed() {
    let full = "(assert (>= y 0))\n(check-sat)\n";
    let model = "(\n  (define-fun x () Int 1)\n)";
    assert!(matches!(
        validate_refutation(full, model),
        WitnessConfidence::Candidate { .. }
    ));
}

#[test]
fn opaque_sort_value_makes_application_candidate() {
    let full = "(set-logic QF_AUFLIA)\n\
        (declare-sort Sig 0)\n(declare-sort PubKey 0)\n\
        (declare-const auth Sig)\n(declare-const owner PubKey)\n\
        (declare-fun checkSig (Sig PubKey) Bool)\n\
        (assert (checkSig auth owner))\n\
        (assert (not false))\n\
        (check-sat)\n(get-model)\n";
    let model = "(\n  (declare-fun Sig!val!0 () Sig)\n\
        (declare-fun PubKey!val!0 () PubKey)\n\
        (define-fun auth () Sig Sig!val!0)\n\
        (define-fun owner () PubKey PubKey!val!0)\n\
        (define-fun checkSig ((x!0 Sig) (x!1 PubKey)) Bool true)\n)";
    match validate_refutation(full, model) {
        WitnessConfidence::Candidate { reason } => {
            assert!(reason.contains("checkSig"), "reason: {reason}");
        }
        other => panic!("expected Candidate, got {other:?}"),
    }
}
