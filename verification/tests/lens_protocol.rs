use portrait::solve::{
    discharge_step, name_assertions_for_core, parse_unsat_core, parse_verdict, replay_gets_stuck,
    timeout_secs, Event, Step, Verdict,
};
use portrait::translation::{validate_translation, Correspondence};
use portrait::parser::parse;
use portrait::validate::{replay_refutation, validate_refutation, WitnessConfidence};
use portrait::vc::Outcome;

const FULL: &str = "(set-logic QF_LIA)\n(declare-const x Int)\n(assert (>= x 0))\n(assert (< x 0))\n(check-sat)\n(get-model)\n";

#[test]
fn indecisive_reason_quotes_the_first_token() {
    match parse_verdict("  \n unknown \n") {
        Verdict::Indecisive { reason } => assert_eq!(
            reason,
            "z3 did not return a decisive verdict (first token: \"unknown\")"
        ),
        other => panic!("expected Indecisive, got {other:?}"),
    }
}

#[test]
fn sat_model_is_the_rest_joined_and_trimmed() {
    match parse_verdict("\r\nsat\r\n(\r\n  (define-fun x () Int 1)\r\n)\r\n") {
        Verdict::Sat { model } => assert_eq!(model, "(\n  (define-fun x () Int 1)\n)"),
        other => panic!("expected Sat, got {other:?}"),
    }
}

#[test]
fn protocol_runs_probe_then_crosscheck_then_core() {
    assert!(matches!(
        discharge_step(FULL, Event::Primary(Verdict::Unsat)),
        Step::RunProbe
    ));
    match discharge_step(FULL, Event::Probe(Verdict::Sat { model: String::new() })) {
        Step::RunCrossCheck { doc, options } => {
            assert_eq!(
                doc,
                "(set-logic QF_LIA)\n(declare-const x Int)\n(assert (< x 0))\n(assert (>= x 0))\n(check-sat)\n(get-model)\n"
            );
            assert_eq!(options, vec!["sat.random_seed=42".to_string(), "smt.random_seed=42".to_string()]);
        }
        other => panic!("expected a cross-check, got {other:?}"),
    }
    match discharge_step(FULL, Event::CrossCheck(Verdict::Unsat)) {
        Step::RunCore { doc } => assert_eq!(
            doc,
            "(set-option :produce-unsat-cores true)\n(set-logic QF_LIA)\n(declare-const x Int)\n(assert (! (>= x 0) :named a0_ge_x_0))\n(assert (! (< x 0) :named a1_lt_x_0))\n(check-sat)\n(get-unsat-core)\n"
        ),
        other => panic!("expected the core run, got {other:?}"),
    }
    match discharge_step(FULL, Event::Core(Some("unsat\n(a0_ge_x_0 a1_lt_x_0)\n".to_string()))) {
        Step::Finish(Outcome::Proved { unsat_core }) => {
            assert_eq!(unsat_core, vec!["a0_ge_x_0".to_string(), "a1_lt_x_0".to_string()])
        }
        other => panic!("expected Proved, got {other:?}"),
    }
}

#[test]
fn vacuous_probe_and_disagreement_are_unknown() {
    match discharge_step(FULL, Event::Probe(Verdict::Unsat)) {
        Step::Finish(Outcome::Unknown { reason }) => assert_eq!(
            reason,
            "vacuous transition: guard conjunction unsatisfiable (entrypoint unreachable); reporting UNKNOWN, never PROVED"
        ),
        other => panic!("expected Unknown, got {other:?}"),
    }
    match discharge_step(FULL, Event::CrossCheck(Verdict::Sat { model: "(x)".to_string() })) {
        Step::Finish(Outcome::Unknown { reason }) => assert_eq!(
            reason,
            "negated VC unsat on the primary run, but the independent cross-check run (different-seed + reordered run returned sat) did not confirm unsat; reporting UNKNOWN, never PROVED"
        ),
        other => panic!("expected Unknown, got {other:?}"),
    }
    match discharge_step(
        FULL,
        Event::Probe(Verdict::Unavailable { reason: "gone".to_string() }),
    ) {
        Step::Finish(Outcome::Unknown { reason }) => assert_eq!(
            reason,
            "negated VC unsat but vacuity probe was indecisive (gone); reporting UNKNOWN, never PROVED"
        ),
        other => panic!("expected Unknown, got {other:?}"),
    }
    match discharge_step(FULL, Event::Primary(Verdict::Sat { model: String::new() })) {
        Step::Finish(Outcome::Unknown { reason }) => {
            assert_eq!(reason, "z3 returned sat but produced no counter-model")
        }
        other => panic!("expected Unknown, got {other:?}"),
    }
}

#[test]
fn sat_with_a_model_is_refuted_with_its_replay() {
    let full = "(declare-const x Int)\n(assert (< x 0))\n";
    match discharge_step(full, Event::Primary(Verdict::Sat { model: "((define-fun x () Int (- 2)))".to_string() })) {
        Step::Finish(Outcome::Refuted { model, confidence }) => {
            assert_eq!(model, "((define-fun x () Int (- 2)))");
            assert_eq!(confidence, WitnessConfidence::Confirmed);
        }
        other => panic!("expected Refuted, got {other:?}"),
    }
}

#[test]
fn core_labels_keep_alphanumerics_and_replace_the_rest() {
    let doc = "(assert p!q)\n(assert é)\n(get-model)\n";
    assert_eq!(
        name_assertions_for_core(doc).unwrap(),
        "(set-option :produce-unsat-cores true)\n(assert (! p!q :named a0_p_q))\n(assert (! é :named a1_é))\n(get-unsat-core)\n"
    );
    assert_eq!(parse_unsat_core("sat\n"), Vec::<String>::new());
    assert_eq!(parse_unsat_core("(a b)\nunsat\n(c (d) e)"), vec!["c".to_string(), "e".to_string()]);
}

#[test]
fn timeout_rounds_up_to_whole_seconds() {
    assert_eq!(timeout_secs(0), 1);
    assert_eq!(timeout_secs(1), 1);
    assert_eq!(timeout_secs(1000), 1);
    assert_eq!(timeout_secs(1001), 2);
    assert_eq!(timeout_secs(10_000), 10);
}

#[test]
fn replay_reasons_are_exact() {
    let big = "(assert (= (* 170141183460469231731687303715884105727 2) 0))";
    assert_eq!(
        validate_refutation(big, "()"),
        WitnessConfidence::Candidate { reason: "integer overflow during interpreted replay (*)".to_string() }
    );
    assert_eq!(
        validate_refutation("(assert 5)", "()"),
        WitnessConfidence::Candidate {
            reason: "expected a boolean assertion but got an integer term: 5".to_string()
        }
    );
    assert_eq!(
        validate_refutation("(check-sat)", "()"),
        WitnessConfidence::Candidate { reason: "no assertions to replay against the model".to_string() }
    );
    assert_eq!(
        validate_refutation("(assert (> y 1))", "((define-fun y () Int 0))"),
        WitnessConfidence::Candidate {
            reason: "an asserted term did not hold under the interpreted replay: (> y 1)".to_string()
        }
    );
    match validate_refutation("(assert true)", "(") {
        WitnessConfidence::Candidate { reason } => assert_eq!(reason, "could not parse z3 model: unterminated '(' in S-expression"),
        other => panic!("expected Candidate, got {other:?}"),
    }
}

#[test]
fn operator_short_of_operands_is_stuck() {
    assert!(replay_gets_stuck("(assert (not))", "()"));
    assert_eq!(replay_refutation("(assert (not))", "()"), None);
    assert!(!replay_gets_stuck("(assert (and))", "()"));
    assert_eq!(replay_refutation("(assert (and))", "()"), Some(WitnessConfidence::Confirmed));
}

#[test]
fn stuck_replay_fails_closed_to_candidate() {
    assert_eq!(
        validate_refutation("(assert (not))", "()"),
        WitnessConfidence::Candidate {
            reason: "an asserted term applies an operator to fewer operands than it reads; the replay cannot evaluate it"
                .to_string()
        }
    );
}

const ONE_ENTRY: &str = r#"pragma portrait ^0.1.0;
app Tiny {
  role pool {
    param int    pool_a_balance;
    param pubkey owner;
    state { int pool_a_balance; pubkey owner; }
    #[covenant(mode = transition)]
    entrypoint function rebalance(sig auth, int x) : (int pool_a_balance, pubkey owner) {
      requires checkSig(auth, owner);
      return Tiny { pool_a_balance: pool_a_balance, owner: owner };
    }
  }
  lifecycle { live -> live via pool.rebalance; }
  invariant no_undeclared_state;
}"#;

#[test]
fn missing_block_reason_is_exact() {
    let prog = parse(ONE_ENTRY).unwrap();
    match validate_translation(&prog, "contract Tiny() {}") {
        Correspondence::Diverges { reasons } => assert_eq!(
            reasons,
            vec!["pool.rebalance: no `function rebalance` block found in the emitted .sil (the model entrypoint was not emitted)".to_string()]
        ),
        other => panic!("expected Diverges, got {other:?}"),
    }
    let sil = "function rebalance(State[] prev_states, sig auth, int x) : (State) {\n  /* require(x) */ require(checkSig(auth, prev_states[0].owner));\n  return({ pool_a_balance: prev_states[0].pool_a_balance, owner: prev_states[0].owner });\n}";
    assert_eq!(validate_translation(&prog, sil), Correspondence::Corresponds);
    assert!(validate_translation(&prog, sil).corresponds());
}
