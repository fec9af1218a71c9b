use portrait::ast::Program;
use portrait::checker::check;
use portrait::obligations::prove_program;
use portrait::parser::parse;
use portrait::vc::{VcKind, VcReport};

fn checked_program(src: &str) -> Program {
    let prog = parse(src).expect("fixture should parse");
    check(&prog).expect("fixture should pass sema");
    prog
}

fn vcs_of_kind(src: &str, kind: VcKind) -> Vec<VcReport> {
    let prog = checked_program(src);
    prove_program(&prog)
        .expect("prove_program should not refuse")
        .into_iter()
        .filter(|r| r.vc_kind == kind)
        .collect()
}

fn single_vc_of_kind(src: &str, kind: VcKind) -> VcReport {
    let mut v = vcs_of_kind(src, kind);
    assert_eq!(
        v.len(),
        1,
        "fixture should yield exactly one {} VC",
        kind.label()
    );
    v.pop().unwrap()
}

const RANGE_BOUNDED: &str = r#"pragma portrait ^0.1.0;
app RangeBounded {
  role pool {
    param int    pool_a_balance;
    param int    pool_b_balance;
    param pubkey owner;
    state {
      int    pool_a_balance;
      int    pool_b_balance;
      pubkey owner;
    }
    #[covenant(mode = transition)]
    entrypoint function rebalance(
      sig auth,
      int x
    ) : (int pool_a_balance, int pool_b_balance, pubkey owner) {
      requires checkSig(auth, owner);
      requires x >= 0;
      requires x <= pool_a_balance;
      requires pool_a_balance >= 0;
      requires pool_b_balance >= 0;
      requires pool_a_balance <= 1000000;
      requires pool_b_balance <= 1000000;
      return RangeBounded {
        pool_a_balance: pool_a_balance - x,
        pool_b_balance: pool_b_balance + x,
        owner:          owner
      };
    }
  }
  lifecycle { live -> live via pool.rebalance; }
  invariant no_undeclared_state;
}
"#;

const RANGE_OVERFLOWS: &str = r#"pragma portrait ^0.1.0;
app RangeOverflows {
  role pool {
    param int    pool_a_balance;
    param int    pool_b_balance;
    param pubkey owner;
    state {
      int    pool_a_balance;
      int    pool_b_balance;
      pubkey owner;
    }
    #[covenant(mode = transition)]
    entrypoint function rebalance(
      sig auth,
      int x
    ) : (int pool_a_balance, int pool_b_balance, pubkey owner) {
      requires checkSig(auth, owner);
      requires x >= 0;
      requires x * 2 <= pool_a_balance;
      return RangeOverflows {
        pool_a_balance: pool_a_balance - x * 2,
        pool_b_balance: pool_b_balance + x + x,
        owner:          owner
      };
    }
  }
  lifecycle { live -> live via pool.rebalance; }
  invariant no_undeclared_state;
}
"#;

const REFINE_NONNEG_OK: &str = r#"pragma portrait ^0.1.0;
app RefineOk {
  role vault {
    param pubkey owner;
    param int    balance;
    state { pubkey owner; int balance; }
    #[covenant(mode = transition)]
    entrypoint function withdraw(sig auth, int amount) : (pubkey owner, int balance) {
      requires checkSig(auth, owner);
      requires amount >= 0;
      requires amount <= balance;
      return RefineOk { owner: owner, balance: balance - amount };
    }
  }
  lifecycle { live -> live via vault.withdraw; }
  invariant non_negative_amount;
  invariant no_undeclared_state;
}
"#;

const REFINE_CAP_VIOLATED: &str = r#"pragma portrait ^0.1.0;
app RefineCap {
  role vault {
    param pubkey owner;
    param int    balance;
    param int    limit;
    state { pubkey owner; int balance; int limit; }
    #[covenant(mode = transition)]
    entrypoint function withdraw(sig auth, int amount) : (pubkey owner, int balance, int limit) {
      requires checkSig(auth, owner);
      requires amount >= 0;
      requires amount <= balance;
      return RefineCap { owner: owner, balance: balance - amount, limit: limit };
    }
  }
  lifecycle { live -> live via vault.withdraw; }
  invariant no_undeclared_state;
}
"#;

const PRESERVE_SUPPLY_OK: &str = r#"pragma portrait ^0.1.0;
app SupplyOk {
  role token {
    param pubkey owner;
    param int    supply;
    param int    total;
    state { pubkey owner; int supply; int total; }
    #[covenant(mode = transition)]
    entrypoint function draw(sig auth, int amount) : (pubkey owner, int supply, int total) {
      requires checkSig(auth, owner);
      requires amount >= 0;
      requires supply + amount <= total;
      return SupplyOk { owner: owner, supply: supply + amount, total: total };
    }
  }
  lifecycle { live -> live via token.draw; }
  invariant bounded_supply;
  invariant non_negative_amount;
  invariant no_undeclared_state;
}
"#;

const PRESERVE_SUPPLY_VIOLATED: &str = r#"pragma portrait ^0.1.0;
app SupplyBad {
  role token {
    param pubkey owner;
    param int    supply;
    param int    total;
    state { pubkey owner; int supply; int total; }
    #[covenant(mode = transition)]
    entrypoint function draw(sig auth, int amount) : (pubkey owner, int supply, int total) {
      requires checkSig(auth, owner);
      requires amount >= 0;
      return SupplyBad { owner: owner, supply: supply + amount, total: total };
    }
  }
  lifecycle { live -> live via token.draw; }
  invariant no_undeclared_state;
}
"#;

#[test]
fn range_vc_is_generated_and_negates_the_u64_window() {
    let vc = single_vc_of_kind(RANGE_OVERFLOWS, VcKind::Range);
    // ¬VC asks: can a value-field result be < 0 OR >= 2^64?
    assert!(
        vc.smtlib.contains("18446744073709551616"),
        "range VC must reference the 2^64 ceiling; got:\n{}",
        vc.smtlib
    );
    assert!(
        vc.smtlib.contains("(< pool_a_balance_p 0)")
            || vc.smtlib.contains("(< pool_b_balance_p 0)"),
        "range VC must check the lower bound; got:\n{}",
        vc.smtlib
    );
}

#[test]
fn range_carried_field_has_no_obligation() {
    // `owner` is carried, the two legs do arithmetic: exactly one Range VC, and it
    // must NOT range-check the (non-value, non-arithmetic) owner.
    let vc = single_vc_of_kind(RANGE_BOUNDED, VcKind::Range);
    assert!(!vc.smtlib.contains("owner_p 0"));
}

#[test]
fn refinement_vc_generated_only_when_declared() {
    // REFINE_CAP_VIOLATED does NOT declare spending_cap or non_negative_amount, so
    // no refinement VC is generated (a VC for an undeclared refinement is never
    // asserted, never PROVED).
    let vcs = vcs_of_kind(REFINE_CAP_VIOLATED, VcKind::Refinement);
    assert!(
        vcs.is_empty(),
        "no refinement VC should be generated when none is declared"
    );
    // REFINE_NONNEG_OK declares non_negative_amount → exactly one refinement VC.
    let vcs = vcs_of_kind(REFINE_NONNEG_OK, VcKind::Refinement);
    assert_eq!(vcs.len(), 1);
    assert!(vcs[0].smtlib.contains("(not (>= amount 0))"));
}

#[test]
fn preservation_vc_generated_only_when_declared_and_stateful() {
    // SupplyBad declares nothing stateful → no preservation VC.
    assert!(vcs_of_kind(PRESERVE_SUPPLY_VIOLATED, VcKind::InvariantPreservation).is_empty());
    // SupplyOk declares bounded_supply → exactly one preservation VC, with I(pre)
    // hypothesis and the negated I(post).
    let vc = single_vc_of_kind(PRESERVE_SUPPLY_OK, VcKind::InvariantPreservation);
    assert!(vc.smtlib.contains("(assert (<= supply total))"));
    assert!(vc.smtlib.contains("(not (<= supply_p total_p))"));
    // The vacuity probe must be T ALONE — it must NOT carry the I(pre) hypothesis.
    assert!(
        !vc.transition_smtlib.contains("(assert (<= supply total))"),
        "vacuity probe must be T alone, without the I(pre) hypothesis; got:\n{}",
        vc.transition_smtlib
    );
}

const MINTER: &str = r#"pragma portrait ^0.1.0;
app Minter {
  role token {
    param int    supply;
    param pubkey owner;
    state { int supply; pubkey owner; }
    #[covenant(mode = transition)]
    entrypoint function mint(sig auth, int amount) : (int supply, pubkey owner) {
      requires checkSig(auth, owner);
      requires amount >= 0;
      return Minter { supply: supply + amount, owner: owner };
    }
  }
  lifecycle { live -> live via token.mint; }
  invariant no_undeclared_state;
}
"#;

#[test]
fn mint_entrypoint_emits_no_conservation_vc() {
    // An entrypoint named mint* is an authorised supply change (parity with
    // sema's is_mint_or_burn) — no conservation VC, so it is never spuriously
    // REFUTED.
    let src = MINTER;
    let prog = checked_program(src);
    let reports = prove_program(&prog).expect("prove_program should not refuse");
    assert!(
        !reports
            .iter()
            .any(|r| r.vc_kind == VcKind::ValueConservation),
        "mint must be exempt from conservation"
    );
}
