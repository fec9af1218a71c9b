use portrait::advisor::advise;
use portrait::ast::{App, CovenantMode, Entry, Program, Role, Stmt};
use portrait::checker::{check, warnings};
use portrait::parser::parse;
use portrait::settle::settling_transition_count;
    // ---- B2: pays(...) output-binding validation --------------------------

    /// Build an Escrow-shaped source with a single `release` transition whose
    /// body contains `pays({index}, {payee}, {amount});`.
    fn pays_src(index: &str, payee: &str, amount: &str) -> String {
        format!(
            r#"
pragma portrait ^0.1.0;
app Escrow {{
  role escrow {{
    param pubkey seller;
    param coin   amount;
    state {{ pubkey seller; coin amount; }}
    #[covenant(mode = transition)]
    entrypoint function release(sig auth, pubkey to) : (pubkey seller, coin amount) {{
      requires checkSig(auth, seller);
      pays({index}, {payee}, {amount});
      return Escrow {{ seller: seller, amount: amount }};
    }}
  }}
  lifecycle {{ live -> live via escrow.release; }}
  invariant value_conserved;
}}
"#
        )
    }

    #[test]
    fn pays_accepts_committed_payee_and_amount() {
        let program = parse(&pays_src("0", "seller", "amount")).expect("parse");
        assert!(
            check(&program).is_ok(),
            "committed payee + coin amount should pass: {:?}",
            check(&program).err()
        );
    }

    #[test]
    fn pays_rejects_spender_supplied_payee() {
        // `to` is an entrypoint arg (spender-supplied), not committed state.
        let program = parse(&pays_src("0", "to", "amount")).expect("parse");
        let errs = check(&program).expect_err("spender-supplied payee must reject");
        assert!(
            errs.iter().any(|d| d.message.contains("payee `to`")
                && d.message.contains("spender-supplied argument")),
            "diagnostic must name the spender-supplied payee: {errs:?}"
        );
    }

    #[test]
    fn pays_rejects_non_value_bearing_amount() {
        // `seller` is committed but a pubkey, not value-bearing.
        let program = parse(&pays_src("0", "seller", "seller")).expect("parse");
        let errs = check(&program).expect_err("non-value-bearing amount must reject");
        assert!(
            errs.iter()
                .any(|d| d.message.contains("amount `seller`")
                    && d.message.contains("value-bearing")),
            "diagnostic must name the non-value-bearing amount: {errs:?}"
        );
    }

    /// A Subscription-shaped source: a committed `int fee` paid out by
    /// `pays(1, provider, fee)`, with the entrypoint's guards and the successor's
    /// `balance` expression left open so a test can vary the drawdown link.
    fn drawdown_pays_src(guards: &str, balance_expr: &str) -> String {
        format!(
            r#"
pragma portrait ^0.1.0;
app Sub {{
  role sub {{
    param pubkey provider;
    param int    fee;
    param int    balance;
    state {{ pubkey provider; int fee; int balance; }}
    #[covenant(mode = transition)]
    entrypoint function charge(sig auth) : (pubkey provider, int fee, int balance) {{
      requires checkSig(auth, provider);
      {guards}
      pays(1, provider, fee);
      return Sub {{ provider: provider, fee: fee, balance: {balance_expr} }};
    }}
  }}
  lifecycle {{ live -> live via sub.charge; }}
  invariant authorized;
}}
"#
        )
    }

    #[test]
    fn accepts_pays_amount_bound_to_a_guarded_drawdown() {
        // `fee` is a committed INT and NOT value-bearing by type or by name, but
        // the same entrypoint's return decreases the value-bearing `balance` by
        // exactly it, under a `requires fee >= 0;` sign guard. That structural
        // drawdown link is what makes it the quantity leaving the model.
        let program =
            parse(&drawdown_pays_src("requires fee >= 0;", "balance - fee")).expect("parse");
        assert!(
            check(&program).is_ok(),
            "a guarded drawdown must license the pays amount: {:?}",
            check(&program).err()
        );
    }

    #[test]
    fn rejects_pays_amount_that_is_an_int_field_with_no_drawdown_link() {
        // Committed + int + sign-guarded, but the return never DECREASES anything
        // by `fee` — nothing establishes that the paid quantity leaves the model,
        // so this must stay rejected (the widening is a link, not a type waiver).
        let program = parse(&drawdown_pays_src("requires fee >= 0;", "balance")).expect("parse");
        let errs = check(&program).expect_err("an int amount with no drawdown must reject");
        assert!(
            errs.iter()
                .any(|d| d.message.contains("amount `fee`") && d.message.contains("drawn down")),
            "diagnostic must name the missing drawdown link: {errs:?}"
        );
    }

    #[test]
    fn rejects_pays_amount_whose_drawdown_term_is_unguarded() {
        // A6 interlock: the return DOES subtract `fee` from `balance`, but no
        // guard establishes `fee >= 0`. A negative `fee` inverts the subtraction
        // into a top-up, so the "drawdown" proves nothing and must not license
        // the pays amount.
        let program = parse(&drawdown_pays_src("", "balance - fee")).expect("parse");
        let errs = check(&program).expect_err("an unguarded drawdown term must reject");
        assert!(
            errs.iter()
                .any(|d| d.message.contains("amount `fee`") && d.message.contains("drawn down")),
            "diagnostic must reject the unguarded drawdown as a pays amount: {errs:?}"
        );
    }

    #[test]
    fn accepts_pays_with_a_committed_bytes32_payee() {
        // Item 3: a committed `bytes32` payee (silverscript `byte[32]`) is a SCRIPT
        // HASH, which the emitter lowers via `ScriptPubKeyP2SH` instead of
        // `ScriptPubKeyP2PK`. The checker's payee rule is about COMMITMENT, not
        // address form, so it accepts it — pinning that the P2SH payee route is
        // not gated behind a sema rejection.
        let src = r#"
pragma portrait ^0.1.0;
app Escrow {
  role escrow {
    param pubkey  buyer;
    param bytes32 seller_script;
    param coin    amount;
    state { pubkey buyer; bytes32 seller_script; coin amount; }
    #[covenant(mode = transition)]
    entrypoint function release(sig auth) : (pubkey buyer, bytes32 seller_script, coin amount) {
      requires checkSig(auth, buyer);
      pays(0, seller_script, amount);
      return Escrow { buyer: buyer, seller_script: seller_script, amount: amount };
    }
  }
  lifecycle { live -> live via escrow.release; }
  invariant value_conserved;
}
"#;
        let program = parse(src).expect("parse");
        assert!(
            check(&program).is_ok(),
            "a committed byte[32] script-hash payee must pass check_pays: {:?}",
            check(&program).err()
        );
    }

    #[test]
    fn pays_rejects_outside_a_transition_entrypoint() {
        // A `pays(...)` in a NON-transition (here a NonCovenant/vProg) entrypoint
        // is not lowered to a covenant, so the binding would be silently dropped —
        // `check_pays` must reject it, naming the transition-only requirement.
        let src = r#"
pragma portrait ^0.1.0;
app Escrow {
  role escrow {
    param pubkey seller;
    param coin   amount;
    state { pubkey seller; coin amount; }
    #[covenant(mode = transition)]
    entrypoint function release(sig auth) : (pubkey seller, coin amount) {
      requires checkSig(auth, seller);
      return Escrow { seller: seller, amount: amount };
    }
    entrypoint function compute(sig auth) {
      pays(0, seller, amount);
    }
  }
  lifecycle { live -> live via escrow.release; }
  invariant authorized;
}
"#;
        let program = parse(src).expect("parse");
        let errs = check(&program).expect_err("pays outside a transition must reject");
        assert!(
            errs.iter()
                .any(|d| d.message.contains("only valid in a `mode = transition`")),
            "diagnostic must name the transition-only requirement: {errs:?}"
        );
    }

    /// D2 helper: a two-`pays` role whose two output indices are `i0`/`i1`.
    fn dual_pays_src(i0: &str, i1: &str) -> String {
        format!(
            r#"
pragma portrait ^0.1.0;
app Split {{
  role split {{
    param pubkey a;
    param pubkey b;
    param coin   amt_a;
    param coin   amt_b;
    state {{ pubkey a; pubkey b; coin amt_a; coin amt_b; }}
    #[covenant(mode = transition)]
    entrypoint function release(sig auth) : (pubkey a, pubkey b, coin amt_a, coin amt_b) {{
      requires checkSig(auth, a);
      pays({i0}, a, amt_a);
      pays({i1}, b, amt_b);
      return Split {{ a: a, b: b, amt_a: amt_a, amt_b: amt_b }};
    }}
  }}
  lifecycle {{ live -> live via split.release; }}
  invariant no_undeclared_state;
}}
"#
        )
    }

    /// D2 ACCEPT: two `pays(...)` clauses at DISTINCT output indices are fine.
    #[test]
    fn pays_accepts_distinct_output_indices() {
        let program = parse(&dual_pays_src("0", "1")).expect("parse");
        assert!(
            check(&program).is_ok(),
            "distinct pays indices should pass: {:?}",
            check(&program).err()
        );
    }

    /// D2 REJECT: two `pays(...)` clauses at the SAME output index collide — the
    /// second binding would silently overwrite the first.
    #[test]
    fn pays_rejects_duplicate_output_index() {
        let program = parse(&dual_pays_src("0", "0")).expect("parse");
        let errs = check(&program).expect_err("duplicate pays index must reject");
        assert!(
            errs.iter()
                .any(|d| d.message.contains("bind output index 0")
                    && d.message.contains("at most once")),
            "diagnostic must name the duplicate output index: {errs:?}"
        );
    }

    // ---- REJECT cases -----------------------------------------------------

    /// Helper: parse, run check, expect Err, and assert at least one diagnostic
    /// message contains the given substring.
    fn assert_rejects_with(src: &str, needle: &str) {
        let program = parse(src).expect("source should parse (the *check* must reject, not parse)");
        let diags = check(&program).expect_err("check should reject this program");
        assert!(
            diags.iter().any(|d| d.message.contains(needle)),
            "expected a diagnostic containing `{}`, got: {:?}",
            needle,
            diags.iter().map(|d| &d.message).collect::<Vec<_>>()
        );
    }

    #[test]
    fn rejects_unknown_via_entry() {
        // Lifecycle names an entrypoint `bumpity` that does not exist on `counter`.
        let src = r#"
pragma portrait ^0.1.0;
app Counter {
  role counter {
    param int start;
    state { int value; }
    #[covenant(mode = transition)]
    entrypoint function bump(int delta) : (int value) {
      return value + delta;
    }
  }
  lifecycle { live -> live via counter.bumpity; }
}
"#;
        assert_rejects_with(src, "unknown entrypoint `counter.bumpity`");
    }

    #[test]
    fn rejects_unknown_via_role() {
        // Lifecycle names a role `ghost` that does not exist.
        let src = r#"
pragma portrait ^0.1.0;
app Counter {
  role counter {
    param int start;
    state { int value; }
    #[covenant(mode = transition)]
    entrypoint function bump(int delta) : (int value) {
      return value + delta;
    }
  }
  lifecycle { live -> live via ghost.bump; }
}
"#;
        assert_rejects_with(src, "unknown role `ghost`");
    }

    #[test]
    fn rejects_transition_missing_return() {
        // `bump` is a transition reached by a non-terminal edge but has no return.
        let src = r#"
pragma portrait ^0.1.0;
app Counter {
  role counter {
    param int start;
    state { int value; }
    #[covenant(mode = transition)]
    entrypoint function bump(int delta) : (int value) {
      require delta > 0;
    }
  }
  lifecycle { live -> live via counter.bump; }
}
"#;
        assert_rejects_with(src, "has no return statement");
    }

    #[test]
    fn rejects_verification_with_return() {
        // `attest` is a verification entrypoint but returns a value.
        let src = r#"
pragma portrait ^0.1.0;
app Attestor {
  role attestor {
    param int start;
    state { int value; }
    #[covenant(mode = verification)]
    entrypoint function attest(int proof) : (int value) {
      return proof;
    }
  }
  lifecycle { live -> live via attestor.attest; }
}
"#;
        assert_rejects_with(src, "must not return a value");
    }

    #[test]
    fn rejects_value_conserved_with_dropping_transition() {
        // value_conserved is declared, but the reachable transition drops state
        // (no return). The edge is marked terminal so rule 3 does NOT fire — only
        // rule 4 (value_conserved) should reject this, isolating that check.
        let src = r#"
pragma portrait ^0.1.0;
app Drainer {
  role vault {
    param int start;
    state { int balance; }
    #[covenant(mode = transition)]
    entrypoint function drain(int amount) : (int balance) {
      require amount > 0;
    }
  }
  lifecycle { live -> closed via vault.drain terminal; }
  invariant value_conserved;
}
"#;
        assert_rejects_with(src, "invariant `value_conserved` violated");
    }

    #[test]
    fn rejects_dangling_no_undeclared_state() {
        // `closed` is entered by a non-terminal edge but is never a source state
        // nor a terminal — a dangling state under no_undeclared_state.
        let src = r#"
pragma portrait ^0.1.0;
app Machine {
  role m {
    param int start;
    state { int value; }
    #[covenant(mode = transition)]
    entrypoint function step(int delta) : (int value) {
      return value + delta;
    }
  }
  lifecycle { live -> closed via m.step; }
  invariant no_undeclared_state;
}
"#;
        assert_rejects_with(src, "invariant `no_undeclared_state` violated");
    }

    #[test]
    fn rejects_unknown_flow_step() {
        // Flow references an entrypoint that does not exist.
        let src = r#"
pragma portrait ^0.1.0;
app Counter {
  role counter {
    param int start;
    state { int value; }
    #[covenant(mode = transition)]
    entrypoint function bump(int delta) : (int value) {
      return value + delta;
    }
  }
  lifecycle { live -> live via counter.bump; }
  flow { counter.nonexistent }
}
"#;
        assert_rejects_with(
            src,
            "flow step references unknown entrypoint `counter.nonexistent`",
        );
    }

    // ---- B3 EXPRESSION-TYPING REJECT VECTORS ------------------------------
    //
    // Each of these parses cleanly (no Raw fallback) but is ill-typed; the new
    // expression pass must reject it. Helper `assert_rejects_with` asserts the
    // program parses and that `check` returns a diagnostic containing `needle`.

    /// int + bool — arithmetic on a non-int operand.
    #[test]
    fn rejects_int_plus_bool() {
        let src = r#"
pragma portrait ^0.1.0;
app A {
  role r {
    param int start;
    state { int value; }
    #[covenant(mode = transition)]
    entrypoint function bump(int delta) : (int value) {
      return value + true;
    }
  }
  lifecycle { live -> live via r.bump; }
}
"#;
        assert_rejects_with(src, "arithmetic `+` requires int operands");
    }

    /// require(<int>) — a require whose operand is an int, not bool.
    #[test]
    fn rejects_require_non_bool() {
        let src = r#"
pragma portrait ^0.1.0;
app A {
  role r {
    param int start;
    state { int value; }
    #[covenant(mode = transition)]
    entrypoint function bump(int delta) : (int value) {
      require delta + 1;
      return value + delta;
    }
  }
  lifecycle { live -> live via r.bump; }
}
"#;
        assert_rejects_with(src, "require(...) operand must be bool");
    }

    /// return field type mismatch — assigning a bool-typed expr to an int field.
    #[test]
    fn rejects_return_field_type_mismatch() {
        let src = r#"
pragma portrait ^0.1.0;
app A {
  role r {
    param int start;
    state { int value; }
    #[covenant(mode = transition)]
    entrypoint function bump(int delta) : (int value) {
      return A { value: delta > 0 };
    }
  }
  lifecycle { live -> live via r.bump; }
}
"#;
        assert_rejects_with(src, "return field `value` has type");
    }

    /// unknown variable — a bare identifier not in params/state/args.
    #[test]
    fn rejects_unknown_variable() {
        let src = r#"
pragma portrait ^0.1.0;
app A {
  role r {
    param int start;
    state { int value; }
    #[covenant(mode = transition)]
    entrypoint function bump(int delta) : (int value) {
      return value + nonexistent;
    }
  }
  lifecycle { live -> live via r.bump; }
}
"#;
        assert_rejects_with(src, "unknown variable `nonexistent`");
    }

    /// unknown return field — object return assigning a field not in `state`.
    #[test]
    fn rejects_unknown_return_field() {
        let src = r#"
pragma portrait ^0.1.0;
app A {
  role r {
    param int start;
    state { int value; }
    #[covenant(mode = transition)]
    entrypoint function bump(int delta) : (int value) {
      return A { ghost: value + delta };
    }
  }
  lifecycle { live -> live via r.bump; }
}
"#;
        assert_rejects_with(src, "return assigns unknown state field `ghost`");
    }

    /// comparison across mismatched types — int vs bool in `==`.
    #[test]
    fn rejects_comparison_type_mismatch() {
        let src = r#"
pragma portrait ^0.1.0;
app A {
  role r {
    param int start;
    state { int value; }
    #[covenant(mode = transition)]
    entrypoint function bump(int delta) : (int value) {
      require delta == true;
      return value + delta;
    }
  }
  lifecycle { live -> live via r.bump; }
}
"#;
        assert_rejects_with(src, "comparison `==` requires operands of the same type");
    }

    /// checkSig with swapped argument types (pubkey, sig instead of sig, pubkey).
    #[test]
    fn rejects_checksig_wrong_arg_types() {
        let src = r#"
pragma portrait ^0.1.0;
app A {
  role r {
    param pubkey owner;
    param sig    s;
    state { int value; }
    #[covenant(mode = transition)]
    entrypoint function bump(int delta) : (int value) {
      require checkSig(owner, s);
      return value + delta;
    }
  }
  lifecycle { live -> live via r.bump; }
}
"#;
        assert_rejects_with(src, "checkSig: first argument must be sig");
    }

    /// call to an unknown builtin function must be rejected, not type-laundered.
    #[test]
    fn rejects_unknown_call() {
        let src = r#"
pragma portrait ^0.1.0;
app A {
  role r {
    param int start;
    state { int value; }
    #[covenant(mode = transition)]
    entrypoint function bump(int delta) : (int value) {
      require mystery(delta) >= 0;
      return value + delta;
    }
  }
  lifecycle { live -> live via r.bump; }
}
"#;
        assert_rejects_with(src, "call to unknown function `mystery`");
    }

    /// blake2b(bytes32) -> bytes32: a covenant that hashes a committed-vs-supplied
    /// preimage and gates the spend on the digest matching a committed hashlock
    /// must type-check (the digest is bytes32, comparable to the committed
    /// bytes32 hashlock).
    #[test]
    fn accepts_blake2b_hashlock() {
        let src = r#"
pragma portrait ^0.1.0;
app A {
  role r {
    param pubkey owner;
    param bytes32 hashlock;
    state { pubkey owner; bytes32 hashlock; int settled; }
    #[covenant(mode = transition)]
    entrypoint function claim(sig auth, bytes32 preimage) : (pubkey owner, bytes32 hashlock, int settled) {
      require checkSig(auth, owner);
      require blake2b(preimage) == hashlock;
      require settled == 0;
      return A { owner: owner, hashlock: hashlock, settled: 1 };
    }
  }
  lifecycle { live -> live via r.claim; }
}
"#;
        assert_accepts(src);
    }

    /// blake2b arity misuse (two args) is rejected fail-closed.
    #[test]
    fn rejects_blake2b_wrong_arity() {
        let src = r#"
pragma portrait ^0.1.0;
app A {
  role r {
    param bytes32 hashlock;
    state { bytes32 hashlock; }
    #[covenant(mode = transition)]
    entrypoint function claim(bytes32 a, bytes32 b) : (bytes32 hashlock) {
      require blake2b(a, b) == hashlock;
      return A { hashlock: hashlock };
    }
  }
  lifecycle { live -> live via r.claim; }
}
"#;
        assert_rejects_with(src, "blake2b expects 1 argument");
    }

    /// blake2b type misuse (int argument instead of bytes32) is rejected
    /// fail-closed.
    #[test]
    fn rejects_blake2b_wrong_arg_type() {
        let src = r#"
pragma portrait ^0.1.0;
app A {
  role r {
    param bytes32 hashlock;
    state { bytes32 hashlock; }
    #[covenant(mode = transition)]
    entrypoint function claim(int n) : (bytes32 hashlock) {
      require blake2b(n) == hashlock;
      return A { hashlock: hashlock };
    }
  }
  lifecycle { live -> live via r.claim; }
}
"#;
        assert_rejects_with(src, "blake2b: argument must be bytes32");
    }

    /// A `Stmt::Raw` body (parser fallback) is an untyped hole. The emitter only
    /// consumes `Require`/`Return`, so a Raw surviving to a COVENANT-role
    /// entrypoint would be silently dropped — a FALSE ACCEPT. The robust
    /// fail-CLOSED guard (adversarial-verify follow-up) rejects it here, naming
    /// the statement and routing it to the vProgs layer. (This intentionally
    /// supersedes the old "Raw is skipped, not rejected" contract, which
    /// *documented the latent bug*: the typing pass must not crash on Raw — it no
    /// longer does, it fails-closed.)
    #[test]
    fn raw_body_in_covenant_role_is_fail_closed() {
        let src = r#"
pragma portrait ^0.1.0;
app A {
  role r {
    param int start;
    state { int value; }
    #[covenant(mode = transition)]
    entrypoint function bump(int delta) : (int value) {
      requires delta @ 1;
      return value + delta;
    }
  }
  lifecycle { live -> live via r.bump; }
}
"#;
        let program = parse(src).expect("program with a raw require still parses");
        // Confirm the require really did fall back to Raw (otherwise this test
        // would not be exercising the fail-closed path).
        let body = &program.app.roles[0].entrypoints[0].body;
        assert!(
            body.iter().any(|s| matches!(s, Stmt::Raw(_))),
            "expected a Raw fallback in the body, got {body:?}"
        );
        // The typed checker must now REJECT it fail-closed: an untyped statement
        // cannot be projected to a covenant.
        let err = check(&program).expect_err("Raw in a covenant role must fail closed");
        let joined = err
            .into_iter()
            .map(|d| d.message)
            .collect::<Vec<_>>()
            .join("; ");
        assert!(
            joined.contains("cannot be projected to a covenant") && joined.contains("vProgs"),
            "fail-closed diagnostic must name the covenant-projection failure + vProgs route, \
             got: {joined}"
        );
    }

    /// Counterpart to the covenant-role guard: a `Stmt::Raw` in a NON-covenant
    /// (vProgs / Tier-3) entrypoint is NOT projected to a `.sil` covenant here
    /// (Atelier owns it), so it is left as a recorded hole rather than a hard
    /// error — the fail-closed guard is scoped to covenant roles only.
    #[test]
    fn raw_body_in_noncovenant_role_is_tolerated() {
        let src = r#"
pragma portrait ^0.1.0;
app A {
  role r {
    param int start;
    state { int value; }
    entrypoint function audit(int delta) {
      requires delta @ 1;
    }
    #[covenant(mode = transition)]
    entrypoint function bump(int delta) : (int value) {
      return value + delta;
    }
  }
  lifecycle { live -> live via r.bump; }
}
"#;
        let program = parse(src).expect("program parses");
        // The non-covenant `audit` body fell back to Raw...
        let audit_body = &program.app.roles[0].entrypoints[0].body;
        assert!(
            audit_body.iter().any(|s| matches!(s, Stmt::Raw(_))),
            "expected a Raw fallback in the non-covenant body, got {audit_body:?}"
        );
        // ...and sema tolerates it (not projected to a covenant).
        assert!(
            check(&program).is_ok(),
            "Raw in a non-covenant role should be tolerated: {:?}",
            check(&program).err()
        );
    }

    // ---- C1–C3 TYPE-STACK REJECT VECTORS ----------------------------------
    //
    // Structural / simple-relational checks (NOT an SMT solver). Each program
    // parses cleanly but violates one C-check; the relevant pass must reject it.
    // Helper to confirm acceptance of a hand-written program.
    fn assert_accepts(src: &str) {
        let program = parse(src).expect("source should parse");
        let result = check(&program);
        assert!(
            result.is_ok(),
            "expected acceptance, got: {:?}",
            result
                .err()
                .map(|ds| ds.into_iter().map(|d| d.message).collect::<Vec<_>>())
        );
    }

    // C1: value CREATED — value-bearing `balance` assigned an arg, not derived
    // from its own prior value, under value_conserved.
    #[test]
    fn c1_rejects_value_created() {
        let src = r#"
pragma portrait ^0.1.0;
app A {
  role r {
    param int start;
    state { int balance; }
    #[covenant(mode = transition)]
    entrypoint function transfer(int amount) : (int balance) {
      return A { balance: amount };
    }
  }
  lifecycle { live -> live via r.transfer; }
  invariant value_conserved;
}
"#;
        assert_rejects_with(src, "value-bearing field `balance`");
    }

    // C1: value DESTROYED/inflated — `supply` doubled (does not derive from its
    // own prior value via a conserving carry/adjust; `supply * 2` references
    // supply but the structural test only accepts carry or ±; here we use a
    // constant assignment to make the create/destroy unambiguous).
    #[test]
    fn c1_rejects_value_destroyed() {
        let src = r#"
pragma portrait ^0.1.0;
app A {
  role r {
    param int start;
    state { int supply; }
    #[covenant(mode = transition)]
    entrypoint function shrink(int amount) : (int supply) {
      return A { supply: 0 };
    }
  }
  lifecycle { live -> live via r.shrink; }
  invariant value_conserved;
}
"#;
        assert_rejects_with(src, "value-bearing field `supply`");
    }

    // C1/A2-full: the explicit `supply_change = issuer` capability exempts the
    // entry from the CONSERVATION shape (a real supply change does not conserve
    // supply). A2-full still requires the named authority to be committed AND
    // guaranteed to sign, so `mint_more` carries `checkSig(auth, issuer)`. This
    // entry is C1-exempt AND its authority signs → accepted.
    #[test]
    fn c1_accepts_mint_exemption() {
        let src = r#"
pragma portrait ^0.1.0;
app A {
  role r {
    param pubkey issuer;
    param sig auth;
    state { int supply; }
    #[covenant(mode = transition, supply_change = issuer)]
    entrypoint function mint_more(int amount) : (int supply) {
      requires checkSig(auth, issuer);
      return A { supply: amount };
    }
  }
  lifecycle { live -> live via r.mint_more; }
  invariant value_conserved;
}
"#;
        assert_accepts(src);
    }

    // A2-full: an explicit `supply_change = owner` capability whose authority is
    // committed AND mandatorily signs. The burn return drops `supply` to a
    // constant (non-conserving) — accepted ONLY because the annotation waives C1.
    #[test]
    fn supply_change_signed_authority_accepted_and_exempt() {
        let src = r#"
pragma portrait ^0.1.0;
app A {
  role r {
    param pubkey owner;
    param sig auth;
    state { int supply; }
    #[covenant(mode = transition, supply_change = owner)]
    entrypoint function burn_all(int amount) : (int supply) {
      requires checkSig(auth, owner);
      return A { supply: 0 };
    }
  }
  lifecycle { live -> live via r.burn_all; }
  invariant value_conserved;
}
"#;
        assert_accepts(src);
    }

    // A2-full reject: `supply_change = issuer` but the entry only signs a
    // DIFFERENT committed key (`owner`) — the named authority is not guaranteed
    // to sign, so the capability is invalid (check_supply_change fires).
    #[test]
    fn supply_change_unsigned_authority_rejected() {
        let src = r#"
pragma portrait ^0.1.0;
app A {
  role r {
    param pubkey issuer;
    param pubkey owner;
    param sig auth;
    state { int supply; }
    #[covenant(mode = transition, supply_change = issuer)]
    entrypoint function mint_more(int amount) : (int supply) {
      requires checkSig(auth, owner);
      return A { supply: amount };
    }
  }
  lifecycle { live -> live via r.mint_more; }
}
"#;
        assert_rejects_with(src, "authority `issuer` is not guaranteed to sign");
    }

    // A2-full reject: the authority signs ONLY in a disjunctive `||` arm — a
    // satisfying path exists on which `issuer` does not sign, so it cannot
    // guarantee the supply change.
    #[test]
    fn supply_change_disjunctive_authority_rejected() {
        let src = r#"
pragma portrait ^0.1.0;
app A {
  role r {
    param pubkey issuer;
    param pubkey backup;
    param sig auth;
    state { int supply; }
    #[covenant(mode = transition, supply_change = issuer)]
    entrypoint function mint_more(int amount) : (int supply) {
      requires checkSig(auth, issuer) || checkSig(auth, backup);
      return A { supply: amount };
    }
  }
  lifecycle { live -> live via r.mint_more; }
}
"#;
        assert_rejects_with(src, "authority `issuer` is not guaranteed to sign");
    }

    // A2-full RT-1 (soundness): the authority sits in a NESTED `||` under an `&&`
    // (`gate && (issuer || backup)`). A satisfying spend can sign `gate` + `backup`
    // and mint WITHOUT ever signing `issuer` — so the capability must be REJECTED.
    // The old mandatory-keyset membership WRONGLY accepted this (the `Or` case's
    // smaller-arm SET leaked `issuer` into `mandatory`).
    #[test]
    fn supply_change_nested_or_bypass_rejected() {
        let src = r#"
pragma portrait ^0.1.0;
app A {
  role r {
    param pubkey gate;
    param pubkey issuer;
    param pubkey backup;
    param sig auth;
    state { int supply; }
    #[covenant(mode = transition, supply_change = issuer)]
    entrypoint function mint_more(int amount) : (int supply) {
      requires checkSig(auth, gate) && (checkSig(auth, issuer) || checkSig(auth, backup));
      return A { supply: amount };
    }
  }
  lifecycle { live -> live via r.mint_more; }
}
"#;
        assert_rejects_with(src, "authority `issuer` is not guaranteed to sign");
    }

    // A2-full RT-1 (COMMUTATIVITY): the same guard with the `||` arms SWAPPED
    // (`gate && (backup || issuer)`) must ALSO reject — the verdict may not depend
    // on arm order. The old code flipped to ACCEPT here (definitive unsoundness).
    #[test]
    fn supply_change_nested_or_bypass_arms_swapped_rejected() {
        let src = r#"
pragma portrait ^0.1.0;
app A {
  role r {
    param pubkey gate;
    param pubkey issuer;
    param pubkey backup;
    param sig auth;
    state { int supply; }
    #[covenant(mode = transition, supply_change = issuer)]
    entrypoint function mint_more(int amount) : (int supply) {
      requires checkSig(auth, gate) && (checkSig(auth, backup) || checkSig(auth, issuer));
      return A { supply: amount };
    }
  }
  lifecycle { live -> live via r.mint_more; }
}
"#;
        assert_rejects_with(src, "authority `issuer` is not guaranteed to sign");
    }

    // A2-full RT-1 (asymmetric arms): `gate && (issuer || (x && y))` — the
    // authority is in the SMALLER `||` arm. A spender can take the `x && y` arm and
    // never sign `issuer`, so it must REJECT (the old smaller-arm SET admitted it).
    #[test]
    fn supply_change_asymmetric_or_arm_rejected() {
        let src = r#"
pragma portrait ^0.1.0;
app A {
  role r {
    param pubkey gate;
    param pubkey issuer;
    param pubkey x;
    param pubkey y;
    param sig auth;
    state { int supply; }
    #[covenant(mode = transition, supply_change = issuer)]
    entrypoint function mint_more(int amount) : (int supply) {
      requires checkSig(auth, gate) && (checkSig(auth, issuer) || (checkSig(auth, x) && checkSig(auth, y)));
      return A { supply: amount };
    }
  }
  lifecycle { live -> live via r.mint_more; }
}
"#;
        assert_rejects_with(src, "authority `issuer` is not guaranteed to sign");
    }

    // A2-full RT-1 (accept): the authority IS forced under an `&&`
    // (`gate && issuer`) — every satisfying path signs `issuer`. Accepted.
    #[test]
    fn supply_change_and_forced_authority_accepted() {
        let src = r#"
pragma portrait ^0.1.0;
app A {
  role r {
    param pubkey gate;
    param pubkey issuer;
    param sig auth;
    state { int supply; }
    #[covenant(mode = transition, supply_change = issuer)]
    entrypoint function mint_more(int amount) : (int supply) {
      requires checkSig(auth, gate) && checkSig(auth, issuer);
      return A { supply: amount };
    }
  }
  lifecycle { live -> live via r.mint_more; }
}
"#;
        assert_accepts(src);
    }

    // A2-full RT-2: a supply-change entry must release NO coin. One that ALSO
    // carries a `pays(...)` clause is a coin-releasing settlement masquerading as a
    // supply change — rejected (makes the payout_bound exclusion premise a fact).
    #[test]
    fn supply_change_with_pays_rejected() {
        let src = r#"
pragma portrait ^0.1.0;
app A {
  role r {
    param pubkey issuer;
    param pubkey payee;
    param sig auth;
    state { int supply; }
    #[covenant(mode = transition, supply_change = issuer)]
    entrypoint function mint_and_pay(int amount) : (int supply) {
      requires checkSig(auth, issuer);
      pays(0, payee, supply);
      return A { supply: supply + amount };
    }
  }
  lifecycle { live -> live via r.mint_and_pay; }
}
"#;
        assert_rejects_with(src, "must not release coin");
    }

    // A2-full RT-2: a supply-change entry named by a TERMINAL edge releases the
    // coin and ends the lifecycle — rejected for the same reason.
    #[test]
    fn supply_change_terminal_rejected() {
        let src = r#"
pragma portrait ^0.1.0;
app A {
  role r {
    param pubkey issuer;
    param sig auth;
    state { int supply; }
    #[covenant(mode = transition, supply_change = issuer)]
    entrypoint function mint_more(int amount) : (int supply) {
      requires checkSig(auth, issuer);
      return A { supply: supply + amount };
    }
  }
  lifecycle { live -> done via r.mint_more terminal; }
}
"#;
        assert_rejects_with(src, "must not release coin");
    }

    // A2-full reject: `supply_change = amount` names a spender ARG, not a
    // committed key — a caller-supplied authority cannot gate a supply change.
    #[test]
    fn supply_change_non_committed_authority_rejected() {
        let src = r#"
pragma portrait ^0.1.0;
app A {
  role r {
    param pubkey owner;
    param sig auth;
    state { int supply; }
    #[covenant(mode = transition, supply_change = amount)]
    entrypoint function mint_more(int amount) : (int supply) {
      requires checkSig(auth, owner);
      return A { supply: amount };
    }
  }
  lifecycle { live -> live via r.mint_more; }
}
"#;
        assert_rejects_with(src, "authority `amount` is not a committed key");
    }

    // A2-full: the name no longer buys the exemption. A `mint`-named entry with
    // NO `supply_change` annotation and a non-conserving return under
    // `value_conserved` is now conservation-CHECKED and rejected.
    #[test]
    fn unannotated_mint_name_now_conservation_checked() {
        let src = r#"
pragma portrait ^0.1.0;
app A {
  role r {
    param pubkey owner;
    param sig auth;
    state { int supply; }
    #[covenant(mode = transition)]
    entrypoint function mint_more(int amount) : (int supply) {
      requires checkSig(auth, owner);
      return A { supply: 999999999 };
    }
  }
  lifecycle { live -> live via r.mint_more; }
  invariant value_conserved;
}
"#;
        assert_rejects_with(src, "value-bearing field `supply`");
    }

    // A2: a mint with NO authorization under `value_conserved` — C1-exempt from
    // conservation, but the no-auth fail-safe now fires (mint no longer opts out).
    #[test]
    fn c2_rejects_mint_without_checksig() {
        let src = r#"
pragma portrait ^0.1.0;
app A {
  role r {
    param int start;
    state { int supply; }
    #[covenant(mode = transition)]
    entrypoint function mintDrain(int amount) : (int supply) {
      return A { supply: 999999999 };
    }
  }
  lifecycle { live -> live via r.mintDrain; }
  invariant value_conserved;
}
"#;
        assert_rejects_with(src, "state-mutating transition has NO");
    }

    // ---- LOW-1 (Phase C red-team): conservation-preserving forms only --------
    //
    // The old C1 rule accepted ANY self-referencing expression; these vectors
    // pin the tightened rule. A value-bearing field under value_conserved may
    // only be a bare carry or a single additive ± adjustment.

    /// LOW-1: value field MULTIPLIED (`balance: balance * 2`) — references its own
    /// prior value but scales it. Must now be rejected (was accepted before).
    #[test]
    fn c1_rejects_value_field_multiplied() {
        let src = r#"
pragma portrait ^0.1.0;
app A {
  role r {
    param int start;
    state { int balance; }
    #[covenant(mode = transition)]
    entrypoint function inflate(int x) : (int balance) {
      requires checkSig(auth, owner);
      return A { balance: balance * 2 };
    }
    param pubkey owner;
    param sig auth;
  }
  lifecycle { live -> live via r.inflate; }
  invariant value_conserved;
}
"#;
        assert_rejects_with(src, "value-bearing field `balance`");
    }

    /// LOW-1: value field ZEROED via self-subtract (`balance: balance - balance`).
    /// References its own prior value twice → destroys value. Must be rejected.
    #[test]
    fn c1_rejects_value_field_self_zeroed() {
        let src = r#"
pragma portrait ^0.1.0;
app A {
  role r {
    param pubkey owner;
    param sig auth;
    state { int balance; }
    #[covenant(mode = transition)]
    entrypoint function zero() : (int balance) {
      requires checkSig(auth, owner);
      return A { balance: balance - balance };
    }
  }
  lifecycle { live -> live via r.zero; }
  invariant value_conserved;
}
"#;
        assert_rejects_with(src, "value-bearing field `balance`");
    }

    /// LOW-1: value field CONSTANT-replaced (`balance: 0`). No carry of the prior
    /// value at all. Must be rejected (already was, kept as a regression guard).
    #[test]
    fn c1_rejects_value_field_constant_replaced() {
        let src = r#"
pragma portrait ^0.1.0;
app A {
  role r {
    param pubkey owner;
    param sig auth;
    state { int balance; }
    #[covenant(mode = transition)]
    entrypoint function reset() : (int balance) {
      requires checkSig(auth, owner);
      return A { balance: 0 };
    }
  }
  lifecycle { live -> live via r.reset; }
  invariant value_conserved;
}
"#;
        assert_rejects_with(src, "value-bearing field `balance`");
    }

    /// LOW-1 ACCEPT: the legitimate additive adjustment `balance: balance - amount`
    /// (the real ComplianceToken / DigitalReit shape) still passes.
    #[test]
    fn c1_accepts_additive_adjustment() {
        let src = r#"
pragma portrait ^0.1.0;
app A {
  role r {
    param pubkey owner;
    param sig auth;
    state { int balance; }
    #[covenant(mode = transition)]
    entrypoint function spend(int amount) : (int balance) {
      requires checkSig(auth, owner);
      requires amount >= 0;
      return A { balance: balance - amount };
    }
  }
  lifecycle { live -> live via r.spend; }
  invariant value_conserved;
}
"#;
        assert_accepts(src);
    }

    // ── A6-sign: the decrease/increase guard on the adjustment term ───────────────
    //
    // `f: f - e` conserves only when `e >= 0`; with `e` negative the operator
    // inverts and the field GROWS (model money-printing). The mirror hole is
    // `f: f + e`, which with a negative `e` destroys value. Both are folded into
    // C1 unconditionally — the term's sign must be established by THIS entrypoint.

    /// A6-sign REJECT: `balance - fee` where `fee` is never established non-negative.
    /// The diagnostic must NAME the term.
    #[test]
    fn rejects_value_conserved_decrease_by_an_unguarded_term() {
        let src = r#"
pragma portrait ^0.1.0;
app A {
  role r {
    param pubkey owner;
    param sig auth;
    state { int balance; }
    #[covenant(mode = transition)]
    entrypoint function settle(int fee) : (int balance) {
      requires checkSig(auth, owner);
      return A { balance: balance - fee };
    }
  }
  lifecycle { live -> live via r.settle; }
  invariant value_conserved;
}
"#;
        assert_rejects_with(src, "term containing `fee`");
    }

    /// A6-sign ACCEPT: the same decrease with the term's sign established here.
    #[test]
    fn accepts_value_conserved_decrease_when_the_term_is_guarded() {
        let src = r#"
pragma portrait ^0.1.0;
app A {
  role r {
    param pubkey owner;
    param sig auth;
    state { int balance; }
    #[covenant(mode = transition)]
    entrypoint function settle(int fee) : (int balance) {
      requires checkSig(auth, owner);
      requires fee >= 0;
      return A { balance: balance - fee };
    }
  }
  lifecycle { live -> live via r.settle; }
  invariant value_conserved;
}
"#;
        assert_accepts(src);
    }

    /// A6-sign REJECT (the symmetric hole): `balance + credit` with an unguarded
    /// `credit` DESTROYS value when `credit` is negative. Covering only the
    /// subtraction direction would be an honesty gap.
    #[test]
    fn rejects_value_conserved_increase_by_an_unguarded_term() {
        let src = r#"
pragma portrait ^0.1.0;
app A {
  role r {
    param pubkey owner;
    param sig auth;
    state { int balance; }
    #[covenant(mode = transition)]
    entrypoint function credit_in(int credit) : (int balance) {
      requires checkSig(auth, owner);
      return A { balance: balance + credit };
    }
  }
  lifecycle { live -> live via r.credit_in; }
  invariant value_conserved;
}
"#;
        assert_rejects_with(src, "term containing `credit`");
    }

    /// A6-sign ACCEPT: a compound subtrahend `- (s + m + j)` (the TrancheWaterfall
    /// shape) passes when EVERY `+`-atom is established non-negative.
    #[test]
    fn accepts_compound_subtrahend_when_every_atom_is_guarded() {
        let src = r#"
pragma portrait ^0.1.0;
app A {
  role r {
    param pubkey owner;
    param sig auth;
    state { int balance; }
    #[covenant(mode = transition)]
    entrypoint function distribute(int s, int m, int j) : (int balance) {
      requires checkSig(auth, owner);
      requires s >= 0;
      requires m >= 0;
      requires j >= 0;
      return A { balance: balance - (s + m + j) };
    }
  }
  lifecycle { live -> live via r.distribute; }
  invariant value_conserved;
}
"#;
        assert_accepts(src);
    }

    /// A6-sign REJECT: one unguarded atom is enough — a negative `j` makes the whole
    /// subtrahend able to go negative, inflating the field.
    #[test]
    fn rejects_compound_subtrahend_when_one_atom_is_unguarded() {
        let src = r#"
pragma portrait ^0.1.0;
app A {
  role r {
    param pubkey owner;
    param sig auth;
    state { int balance; }
    #[covenant(mode = transition)]
    entrypoint function distribute(int s, int m, int j) : (int balance) {
      requires checkSig(auth, owner);
      requires s >= 0;
      requires m >= 0;
      return A { balance: balance - (s + m + j) };
    }
  }
  lifecycle { live -> live via r.distribute; }
  invariant value_conserved;
}
"#;
        assert_rejects_with(src, "term containing `j`");
    }

    /// L1 — `requires fee > -1;` is documented and CHANGELOG'd as an accepted
    /// form. It was REJECTED in practice: `-1` parses as `Unary{Neg, Int(1)}`,
    /// never `Int(-1)`, so the `>= -1` arm was unreachable dead code.
    #[test]
    fn accepts_strict_gt_negative_one_as_a_non_negativity_guard() {
        let src = r#"
pragma portrait ^0.1.0;
app A {
  role r {
    param pubkey owner;
    param sig auth;
    state { int balance; }
    #[covenant(mode = transition)]
    entrypoint function settle(int fee) : (int balance) {
      requires checkSig(auth, owner);
      requires fee > -1;
      return A { balance: balance - fee };
    }
  }
  lifecycle { live -> live via r.settle; }
  invariant value_conserved;
}
"#;
        assert_accepts(src);
    }

    /// L2 — the mirrored operand order `0 <= fee` is the same guard written the
    /// other way round and must not false-reject.
    #[test]
    fn accepts_mirrored_operand_order_as_a_non_negativity_guard() {
        let src = r#"
pragma portrait ^0.1.0;
app A {
  role r {
    param pubkey owner;
    param sig auth;
    state { int balance; }
    #[covenant(mode = transition)]
    entrypoint function settle(int fee) : (int balance) {
      requires checkSig(auth, owner);
      requires 0 <= fee;
      return A { balance: balance - fee };
    }
  }
  lifecycle { live -> live via r.settle; }
  invariant value_conserved;
}
"#;
        assert_accepts(src);
    }

    /// M2 — `supply_change` authorises a SUPPLY CHANGE, not a sign inversion.
    /// The capability waives the conservation SHAPE; A6-sign still applies, so a
    /// mint authority cannot covertly inflate via an unguarded subtrahend.
    #[test]
    fn supply_change_capability_does_not_waive_the_a6_sign_check() {
        let src = r#"
pragma portrait ^0.1.0;
app A {
  role r {
    param pubkey issuer;
    param int supply;
    state { pubkey issuer; int supply; }
    #[covenant(mode = transition, supply_change = issuer)]
    entrypoint function issue(sig auth, int fee) : (pubkey issuer, int supply) {
      requires checkSig(auth, issuer);
      return A { issuer: issuer, supply: supply - fee };
    }
  }
  lifecycle { live -> live via r.issue; }
  invariant value_conserved;
}
"#;
        assert_rejects_with(src, "term containing `fee`");
        assert_rejects_with(src, "does NOT waive this check");
    }

    /// M2 control: the capability DOES still waive the conservation shape, so a
    /// genuine non-conserving mint is accepted once the sign is established.
    #[test]
    fn supply_change_capability_still_waives_the_conservation_shape() {
        let src = r#"
pragma portrait ^0.1.0;
app A {
  role r {
    param pubkey issuer;
    param int supply;
    state { pubkey issuer; int supply; }
    #[covenant(mode = transition, supply_change = issuer)]
    entrypoint function issue(sig auth, int minted) : (pubkey issuer, int supply) {
      requires checkSig(auth, issuer);
      requires minted >= 0;
      return A { issuer: issuer, supply: minted };
    }
  }
  lifecycle { live -> live via r.issue; }
  invariant value_conserved;
}
"#;
        assert_accepts(src);
    }

    /// M3 — a param named `max_ins`/`max_outs` is emitted alongside the bound the
    /// Engraver injects under the same name. silverc accepts the duplicate and
    /// the USER's param wins, handing the covenant's output-count bound to the
    /// deployer. Reject at the source level.
    #[test]
    fn rejects_a_role_param_shadowing_an_injected_emitter_name() {
        let src = r#"
pragma portrait ^0.1.0;
app A {
  role r {
    param pubkey owner;
    param sig auth;
    param int max_outs;
    state { pubkey owner; }
    #[covenant(mode = transition)]
    entrypoint function touch() : (pubkey owner) {
      requires checkSig(auth, owner);
      return A { owner: owner };
    }
  }
  lifecycle { live -> live via r.touch; }
  invariant authorized;
}
"#;
        assert_rejects_with(src, "RESERVED emitter identifier");
        assert_rejects_with(src, "max_outs");
    }

    /// M3 — the same reservation applies to a state field, which would force a
    /// duplicate ctor param of the reserved name.
    #[test]
    fn rejects_a_state_field_shadowing_an_injected_emitter_name() {
        let src = r#"
pragma portrait ^0.1.0;
app A {
  role r {
    param pubkey owner;
    param sig auth;
    param int max_ins;
    state { pubkey owner; int max_ins; }
    #[covenant(mode = transition)]
    entrypoint function touch() : (pubkey owner, int max_ins) {
      requires checkSig(auth, owner);
      return A { owner: owner, max_ins: max_ins };
    }
  }
  lifecycle { live -> live via r.touch; }
  invariant authorized;
}
"#;
        assert_rejects_with(src, "RESERVED emitter identifier");
    }

    /// M4 — genesis binding is by name, so a duplicate param makes the
    /// initialiser ambiguous and the second declaration unreachable. Reject it
    /// here rather than letting emit report a misleading TYPE mismatch.
    #[test]
    fn rejects_duplicate_role_param_names() {
        let src = r#"
pragma portrait ^0.1.0;
app A {
  role r {
    param pubkey owner;
    param sig auth;
    param pubkey balance;
    param int balance;
    state { pubkey owner; int balance; }
    #[covenant(mode = transition)]
    entrypoint function spend(int amount) : (pubkey owner, int balance) {
      requires checkSig(auth, owner);
      requires amount >= 0;
      return A { owner: owner, balance: balance - amount };
    }
  }
  lifecycle { live -> live via r.spend; }
  invariant value_conserved;
}
"#;
        assert_rejects_with(src, "declared more than once");
    }

    /// M1 — a conservation invariant on a role with no value-bearing field
    /// checks nothing yet reports ok. It must WARN. (Not a rejection: `Htlc` and
    /// `EvidenceLineage` ship in exactly this shape, and `value_conserved` is
    /// also what opts them into the C2 no-auth fail-safe, so rejecting would
    /// silently strip their authorization requirement.)
    #[test]
    fn warns_when_a_declared_conservation_invariant_matches_no_field() {
        let src = r#"
pragma portrait ^0.1.0;
app A {
  role vault {
    param pubkey owner;
    param sig auth;
    param int funds;
    state { pubkey owner; int funds; }
    #[covenant(mode = transition)]
    entrypoint function withdraw(int take) : (pubkey owner, int funds) {
      requires checkSig(auth, owner);
      return A { owner: owner, funds: funds - take };
    }
  }
  lifecycle { live -> live via vault.withdraw; }
  invariant value_conserved;
}
"#;
        let program = parse(src).expect("parses");
        // It PASSES check — that is exactly the hazard.
        assert!(
            check(&program).is_ok(),
            "the vacuous case still type-checks"
        );
        let ws = warnings(&program);
        assert!(
            ws.iter().any(
                |w| w.contains("`value_conserved` is declared but NO state field")
                    && w.contains("`vault`")
            ),
            "a vacuous conservation invariant must warn, got: {ws:?}"
        );
    }

    /// M1 control: a role WITH a value-bearing field warns about nothing.
    #[test]
    fn no_vacuity_warning_when_a_value_bearing_field_exists() {
        let src = r#"
pragma portrait ^0.1.0;
app A {
  role vault {
    param pubkey owner;
    param sig auth;
    param int balance;
    state { pubkey owner; int balance; }
    #[covenant(mode = transition)]
    entrypoint function withdraw(int amount) : (pubkey owner, int balance) {
      requires checkSig(auth, owner);
      requires amount >= 0;
      return A { owner: owner, balance: balance - amount };
    }
  }
  lifecycle { live -> live via vault.withdraw; }
  invariant value_conserved;
}
"#;
        let program = parse(src).expect("parses");
        assert!(warnings(&program).is_empty(), "no warning is owed here");
    }

    /// LOW-1 ACCEPT: a bare carry `balance: balance` (the DigitalReit `supply:
    /// supply` / CsciInstrument `amount: amount` shape) still passes.
    #[test]
    fn c1_accepts_bare_carry() {
        let src = r#"
pragma portrait ^0.1.0;
app A {
  role r {
    param pubkey owner;
    param sig auth;
    state { int balance; int seq; }
    #[covenant(mode = transition)]
    entrypoint function touch() : (int balance, int seq) {
      requires checkSig(auth, owner);
      return A { balance: balance, seq: seq };
    }
  }
  lifecycle { live -> live via r.touch; }
  invariant value_conserved;
}
"#;
        assert_accepts(src);
    }

    // ---- LOW-2 (Phase C red-team): no-checkSig state mutation -----------------

    /// LOW-2: a state-mutating transition with ZERO authorization under
    /// `value_conserved` is rejected (was silently accepted before).
    #[test]
    fn c2_rejects_unauthorized_mutation_under_value_conserved() {
        let src = r#"
pragma portrait ^0.1.0;
app A {
  role r {
    param int start;
    state { int balance; }
    #[covenant(mode = transition)]
    entrypoint function spend(int amount) : (int balance) {
      return A { balance: balance - amount };
    }
  }
  lifecycle { live -> live via r.spend; }
  invariant value_conserved;
}
"#;
        assert_rejects_with(src, "state-mutating transition has NO");
    }

    /// LOW-2: the same no-auth mutation is PERMITTED when no protection invariant
    /// is declared (it may be gated by covenant-ID lineage C2 cannot see).
    #[test]
    fn c2_accepts_unauthorized_mutation_without_invariant() {
        let src = r#"
pragma portrait ^0.1.0;
app A {
  role r {
    param int start;
    state { int counter; }
    #[covenant(mode = transition)]
    entrypoint function tick() : (int counter) {
      return A { counter: counter };
    }
  }
  lifecycle { live -> live via r.tick; }
  invariant no_undeclared_state;
}
"#;
        assert_accepts(src);
    }

    // C2: under-authorized transition — checkSig binds a caller-supplied pubkey
    // arg (the DigitalReit L1 finding as a compile-time error).
    #[test]
    fn c2_rejects_caller_supplied_pubkey() {
        let src = r#"
pragma portrait ^0.1.0;
app A {
  role r {
    param pubkey owner;
    state { int balance; }
    #[covenant(mode = transition)]
    entrypoint function withdraw(sig auth, pubkey who, int amount) : (int balance) {
      requires checkSig(auth, who);
      return A { balance: balance - amount };
    }
  }
  lifecycle { live -> live via r.withdraw; }
}
"#;
        assert_rejects_with(src, "capability check failed");
    }

    // C2: authorizing against committed state (a state field) is accepted.
    #[test]
    fn c2_accepts_committed_pubkey() {
        let src = r#"
pragma portrait ^0.1.0;
app A {
  role r {
    param pubkey owner;
    state { pubkey owner; int balance; }
    #[covenant(mode = transition)]
    entrypoint function withdraw(sig auth, int amount) : (pubkey owner, int balance) {
      requires checkSig(auth, owner);
      return A { owner: owner, balance: balance - amount };
    }
  }
  lifecycle { live -> live via r.withdraw; }
}
"#;
        assert_accepts(src);
    }

    // A1: a disjunctive authorization `checkSig(owner) || checkSig(attacker)`
    // where the `attacker` arm binds a CALLER-SUPPLIED pubkey leaves a satisfying
    // path with no committed signature → guaranteed committed signers == 0 →
    // rejected under `authorized`.
    #[test]
    fn c2_rejects_disjunctive_authorization() {
        let src = r#"
pragma portrait ^0.1.0;
app A {
  role r {
    param pubkey owner;
    state { pubkey owner; int balance; }
    #[covenant(mode = transition)]
    entrypoint function withdraw(sig owner_auth, sig attacker_auth, pubkey attacker, int amount) : (pubkey owner, int balance) {
      requires checkSig(owner_auth, owner) || checkSig(attacker_auth, attacker);
      return A { owner: owner, balance: balance - amount };
    }
  }
  lifecycle { live -> live via r.withdraw; }
  invariant authorized;
}
"#;
        assert_rejects_with(src, "capability check failed");
    }

    // A1: a negated signature check `!checkSig(auth, owner)` authorizes nothing —
    // no committed key is guaranteed to sign → rejected under `authorized`.
    #[test]
    fn c2_rejects_negated_authorization() {
        let src = r#"
pragma portrait ^0.1.0;
app A {
  role r {
    param pubkey owner;
    state { pubkey owner; int balance; }
    #[covenant(mode = transition)]
    entrypoint function withdraw(sig auth, int amount) : (pubkey owner, int balance) {
      requires !checkSig(auth, owner);
      return A { owner: owner, balance: balance - amount };
    }
  }
  lifecycle { live -> live via r.withdraw; }
  invariant authorized;
}
"#;
        assert_rejects_with(src, "capability check failed");
    }

    // A4: a role declaring `temporal_guard` whose only mutating transition has no
    // committed-time gate at all → rejected (existence tightening).
    #[test]
    fn d3_temporal_guard_rejects_missing_gate() {
        let src = r#"
pragma portrait ^0.1.0;
app A {
  role r {
    param pubkey owner;
    state { pubkey owner; int deadline; int settled; }
    #[covenant(mode = transition)]
    entrypoint function refund(sig auth) : (pubkey owner, int deadline, int settled) {
      requires checkSig(auth, owner);
      return A { owner: owner, deadline: deadline, settled: 1 };
    }
  }
  lifecycle { live -> live via r.refund; }
  invariant temporal_guard;
}
"#;
        assert_rejects_with(src, "invariant `temporal_guard` violated");
    }

    // C3: non-monotonic seq — monotonic_seq declared but the return does not
    // advance seq by exactly one.
    #[test]
    fn c3_rejects_non_monotonic_seq() {
        let src = r#"
pragma portrait ^0.1.0;
app A {
  role r {
    param int start;
    state { int seq; bytes32 commit; }
    #[covenant(mode = transition)]
    entrypoint function attest(bytes32 next_commit) : (int seq, bytes32 commit) {
      return A { seq: seq, commit: next_commit };
    }
  }
  lifecycle { live -> live via r.attest; }
  invariant monotonic_seq;
}
"#;
        assert_rejects_with(src, "invariant `monotonic_seq` violated");
    }

    // C3: a correct seq increment under monotonic_seq is accepted.
    #[test]
    fn c3_accepts_monotonic_seq() {
        let src = r#"
pragma portrait ^0.1.0;
app A {
  role r {
    param int start;
    state { int seq; bytes32 commit; }
    #[covenant(mode = transition)]
    entrypoint function attest(bytes32 next_commit) : (int seq, bytes32 commit) {
      return A { seq: seq + 1, commit: next_commit };
    }
  }
  lifecycle { live -> live via r.attest; }
  invariant monotonic_seq;
}
"#;
        assert_accepts(src);
    }

    // C3: negative amount — non_negative_amount declared but `amount` is never
    // bounded.
    #[test]
    fn c3_rejects_unbounded_amount() {
        let src = r#"
pragma portrait ^0.1.0;
app A {
  role r {
    param int start;
    state { int balance; }
    #[covenant(mode = transition)]
    entrypoint function transfer(int amount) : (int balance) {
      return A { balance: balance - amount };
    }
  }
  lifecycle { live -> live via r.transfer; }
  invariant non_negative_amount;
}
"#;
        assert_rejects_with(src, "invariant `non_negative_amount` violated");
    }

    // C3: a present `require amount >= 0` under non_negative_amount is accepted.
    #[test]
    fn c3_accepts_bounded_amount() {
        let src = r#"
pragma portrait ^0.1.0;
app A {
  role r {
    param int start;
    state { int balance; }
    #[covenant(mode = transition)]
    entrypoint function transfer(int amount) : (int balance) {
      requires amount >= 0;
      return A { balance: balance - amount };
    }
  }
  lifecycle { live -> live via r.transfer; }
  invariant non_negative_amount;
}
"#;
        assert_accepts(src);
    }

    // Red-team LOW (c): a scalar return referencing more than one state field is
    // rejected fail-closed (it would be broadcast into every referenced field).
    #[test]
    fn c_rejects_scalar_multi_field_return() {
        let src = r#"
pragma portrait ^0.1.0;
app A {
  role r {
    param int start;
    state { int a; int b; }
    #[covenant(mode = transition)]
    entrypoint function step() : (int a) {
      return a + b;
    }
  }
  lifecycle { live -> live via r.step; }
}
"#;
        assert_rejects_with(src, "scalar return references multiple state fields");
    }

    // Red-team LOW (c): a scalar return referencing exactly one state field is
    // fine (the emitter broadcasts it into just that one field).
    #[test]
    fn c_accepts_scalar_single_field_return() {
        let src = r#"
pragma portrait ^0.1.0;
app A {
  role r {
    param int start;
    state { int a; int b; }
    #[covenant(mode = transition)]
    entrypoint function step(int x) : (int a) {
      return a + x;
    }
  }
  lifecycle { live -> live via r.step; }
}
"#;
        assert_accepts(src);
    }

    // MEDIUM fix: a scalar return that inflates a value-bearing field (e.g.
    // `return balance * 2`) under value_conserved must be REJECTED by C1 even
    // though the return is not an object literal.
    #[test]
    fn c1_rejects_scalar_value_bearing_inflation() {
        let src = r#"
pragma portrait ^0.1.0;
app A {
  role r {
    param pubkey owner;
    state { int balance; }
    #[covenant(mode = transition)]
    entrypoint function inflate(sig auth) : (int balance) {
      requires checkSig(auth, owner);
      return balance * 2;
    }
  }
  lifecycle { live -> live via r.inflate; }
  invariant value_conserved;
}
"#;
        assert_rejects_with(src, "scalar return assigns value-bearing field `balance`");
    }

    // MEDIUM fix: a no-checkSig scalar-return state mutation under value_conserved
    // must be REJECTED by C2/LOW-2 (the scalar `return balance - amount` is a
    // state mutation that must be authorized when an invariant is declared).
    #[test]
    fn c2_rejects_no_checksig_scalar_mutation_under_value_conserved() {
        let src = r#"
pragma portrait ^0.1.0;
app A {
  role r {
    param pubkey owner;
    state { int balance; }
    #[covenant(mode = transition)]
    entrypoint function drain(int amount) : (int balance) {
      return balance - amount;
    }
  }
  lifecycle { live -> live via r.drain; }
  invariant value_conserved;
}
"#;
        assert_rejects_with(src, "state-mutating transition has NO");
    }

    // MEDIUM fix (accept-case): a scalar return on a non-value-bearing field
    // (`value` is int, not named balance/amount/supply, and type is not coin)
    // must still PASS C1 even when value_conserved is declared. A committed-key
    // checkSig satisfies C2 so C2 does not mask the C1 result.
    #[test]
    fn c1_accepts_scalar_non_value_bearing_field() {
        let src = r#"
pragma portrait ^0.1.0;
app Counter {
  role counter {
    param pubkey admin;
    state { int value; }
    #[covenant(mode = transition)]
    entrypoint function bump(sig auth, int delta) : (int value) {
      requires checkSig(auth, admin);
      return value + delta;
    }
  }
  lifecycle { live -> live via counter.bump; }
  invariant value_conserved;
}
"#;
        assert_accepts(src);
    }

    // Red-team LOW (a): State / State[] comparison operands are rejected
    // fail-closed. `prev_states[0] == prev_states[0]` compares two `State`
    // records — no scalar surface type — and must be rejected.
    #[test]
    fn rejects_state_equality() {
        let src = r#"
pragma portrait ^0.1.0;
app A {
  role r {
    param int start;
    state { int value; }
    #[covenant(mode = transition)]
    entrypoint function bump(int delta) : (int value) {
      requires prev_states[0] == prev_states[0];
      return value + delta;
    }
  }
  lifecycle { live -> live via r.bump; }
}
"#;
        assert_rejects_with(src, "comparison `==` requires scalar operands");
    }

    // Red-team LOW (a): comparing the whole `prev_states` array is also rejected.
    #[test]
    fn rejects_state_array_equality() {
        let src = r#"
pragma portrait ^0.1.0;
app A {
  role r {
    param int start;
    state { int value; }
    #[covenant(mode = transition)]
    entrypoint function bump(int delta) : (int value) {
      requires prev_states == prev_states;
      return value + delta;
    }
  }
  lifecycle { live -> live via r.bump; }
}
"#;
        assert_rejects_with(src, "comparison `==` requires scalar operands");
    }

    // ── D1: `coin` is a distinct strictly-conserved type ────────────────────
    //
    // The Portrait type checker treats `coin` as value-bearing and non-arithmetic:
    // a `coin` field may ONLY be a bare carry (the emitter lowers `coin` to `int`
    // in the .sil, so sema is the sole keeper of these guarantees).

    /// A covenant with a `coin` field whose value is a bare carry passes the
    /// full checker (value_conserved treats `coin` as value-bearing; bare carry
    /// is conservation-preserving).
    #[test]
    fn d1_accepts_coin_field_bare_carry() {
        let src = r#"
pragma portrait ^0.1.0;
app CoinHolder {
  role holder {
    param pubkey owner;
    param coin   amount;
    state {
      pubkey owner;
      coin   amount;
    }
    #[covenant(mode = transition)]
    entrypoint function carry(sig auth) : (pubkey owner, coin amount) {
      requires checkSig(auth, owner);
      return CoinHolder { owner: owner, amount: amount };
    }
  }
  lifecycle { live -> live via holder.carry; }
  invariant value_conserved;
  invariant no_undeclared_state;
}
"#;
        assert_accepts(src);
    }

    /// Arithmetic on a `coin` operand is rejected by the type checker — a `coin`
    /// can never be adjusted, only carried.
    #[test]
    fn d1_rejects_coin_arithmetic() {
        let src = r#"
pragma portrait ^0.1.0;
app CoinHolder {
  role holder {
    param pubkey owner;
    param coin   amount;
    state {
      pubkey owner;
      coin   amount;
    }
    #[covenant(mode = transition)]
    entrypoint function bump(sig auth) : (pubkey owner, coin amount) {
      requires checkSig(auth, owner);
      return CoinHolder { owner: owner, amount: amount + 1 };
    }
  }
  lifecycle { live -> live via holder.carry; }
  invariant value_conserved;
  invariant no_undeclared_state;
}
"#;
        assert_rejects_with(src, "arithmetic `+` requires int operands");
    }

    /// Comparing a `coin` to an `int` is rejected (operands must match type) —
    /// a `coin` cannot be used as a comparable ceiling.
    #[test]
    fn d1_rejects_coin_vs_int_comparison() {
        let src = r#"
pragma portrait ^0.1.0;
app CoinHolder {
  role holder {
    param pubkey owner;
    param coin   amount;
    state {
      pubkey owner;
      coin   amount;
    }
    #[covenant(mode = transition)]
    entrypoint function carry(sig auth) : (pubkey owner, coin amount) {
      requires checkSig(auth, owner);
      requires amount >= 0;
      return CoinHolder { owner: owner, amount: amount };
    }
  }
  lifecycle { live -> live via holder.carry; }
  invariant value_conserved;
  invariant no_undeclared_state;
}
"#;
        assert_rejects_with(src, "comparison `>=` requires operands of the same type");
    }

    // ── D2: the `authorized` capability invariant drives C2 on its own ──────
    //
    // C2's no-auth fail-safe fires under EITHER `value_conserved` OR a custom
    // `authorized` invariant. These vectors isolate `authorized`: the program
    // does NOT declare `value_conserved`, so `authorized` is the SOLE reason a
    // no-checkSig state mutation is rejected — proving the invariant is wired in
    // and actually used, not merely recognized.

    /// D2: `invariant authorized;` (no value_conserved) — a state-mutating
    /// transition with NO checkSig must be rejected purely because `authorized`
    /// is declared.
    #[test]
    fn d2_authorized_invariant_rejects_unauthorized_mutation() {
        let src = r#"
pragma portrait ^0.1.0;
app A {
  role r {
    param int start;
    state { int counter; }
    #[covenant(mode = transition)]
    entrypoint function bump(int delta) : (int counter) {
      return A { counter: counter };
    }
  }
  lifecycle { live -> live via r.bump; }
  invariant authorized;
}
"#;
        assert_rejects_with(src, "state-mutating transition has NO");
    }

    /// D2 ACCEPT: under `invariant authorized;` (no value_conserved), a
    /// state-mutating transition that DOES bind a committed key passes C2.
    #[test]
    fn d2_authorized_invariant_accepts_committed_checksig() {
        let src = r#"
pragma portrait ^0.1.0;
app A {
  role r {
    param pubkey owner;
    state { pubkey owner; int counter; }
    #[covenant(mode = transition)]
    entrypoint function bump(sig auth) : (pubkey owner, int counter) {
      requires checkSig(auth, owner);
      return A { owner: owner, counter: counter };
    }
  }
  lifecycle { live -> live via r.bump; }
  invariant authorized;
}
"#;
        assert_accepts(src);
    }

    // ── D2: `bounded_supply` ceiling refinement (C3) ────────────────────────
    //
    // NARROW + opt-in. Fires only when `invariant bounded_supply;` is declared
    // AND the role has int `supply` + `total` fields AND the transition takes an
    // int `amount` arg. It requires the StreamingVesting envelope guard
    // `require supply + amount <= total` (either operand order). Structural —
    // NOT a solver.

    /// D2: bounded_supply declared but the envelope guard is missing → reject.
    #[test]
    fn d2_bounded_supply_rejects_missing_envelope() {
        let src = r#"
pragma portrait ^0.1.0;
app A {
  role r {
    param pubkey owner;
    state { pubkey owner; int total; int supply; }
    #[covenant(mode = transition)]
    entrypoint function withdraw(sig auth, int amount) : (pubkey owner, int total, int supply) {
      requires checkSig(auth, owner);
      requires amount >= 0;
      return A { owner: owner, total: total, supply: supply + amount };
    }
  }
  lifecycle { live -> live via r.withdraw; }
  invariant bounded_supply;
}
"#;
        assert_rejects_with(src, "invariant `bounded_supply` violated");
    }

    /// D2 ACCEPT: the envelope guard present (`supply + amount <= total`) passes.
    #[test]
    fn d2_bounded_supply_accepts_envelope() {
        let src = r#"
pragma portrait ^0.1.0;
app A {
  role r {
    param pubkey owner;
    state { pubkey owner; int total; int supply; }
    #[covenant(mode = transition)]
    entrypoint function withdraw(sig auth, int amount) : (pubkey owner, int total, int supply) {
      requires checkSig(auth, owner);
      requires amount >= 0;
      requires supply + amount <= total;
      return A { owner: owner, total: total, supply: supply + amount };
    }
  }
  lifecycle { live -> live via r.withdraw; }
  invariant bounded_supply;
}
"#;
        assert_accepts(src);
    }

    /// D2 ACCEPT: the envelope guard in the reversed `amount + supply` order and
    /// `total >= ...` form is also accepted (operand-order tolerance).
    #[test]
    fn d2_bounded_supply_accepts_reversed_form() {
        let src = r#"
pragma portrait ^0.1.0;
app A {
  role r {
    param pubkey owner;
    state { pubkey owner; int total; int supply; }
    #[covenant(mode = transition)]
    entrypoint function withdraw(sig auth, int amount) : (pubkey owner, int total, int supply) {
      requires checkSig(auth, owner);
      requires amount >= 0;
      requires total >= amount + supply;
      return A { owner: owner, total: total, supply: supply + amount };
    }
  }
  lifecycle { live -> live via r.withdraw; }
  invariant bounded_supply;
}
"#;
        assert_accepts(src);
    }

    // ── D3: round-2 refinements (spending_cap / multisig_threshold /
    //        temporal_guard) ────────────────────────────────────────────────
    //
    // Each is NARROW + opt-in (fires only when its custom invariant is declared)
    // and a STRUCTURAL shape match on the require AST — NOT an SMT proof. Accept
    // + reject vectors below.

    // ---- spending_cap ---------------------------------------------------------

    /// D3 REJECT: `spending_cap` declared, an int `amount` arg is taken, but no
    /// `require amount <= limit` cap is present → rejected.
    #[test]
    fn d3_spending_cap_rejects_missing_cap() {
        let src = r#"
pragma portrait ^0.1.0;
app A {
  role vault {
    param pubkey owner;
    state { pubkey owner; int balance; int limit; }
    #[covenant(mode = transition)]
    entrypoint function withdraw(sig auth, int amount) : (pubkey owner, int balance, int limit) {
      requires checkSig(auth, owner);
      requires amount >= 0;
      requires amount <= balance;
      return A { owner: owner, balance: balance - amount, limit: limit };
    }
  }
  lifecycle { live -> live via vault.withdraw; }
  invariant spending_cap;
}
"#;
        assert_rejects_with(src, "invariant `spending_cap` violated");
    }

    /// D3 ACCEPT: the cap require `amount <= limit` (committed `limit`) is present.
    #[test]
    fn d3_spending_cap_accepts_cap() {
        let src = r#"
pragma portrait ^0.1.0;
app A {
  role vault {
    param pubkey owner;
    state { pubkey owner; int balance; int limit; }
    #[covenant(mode = transition)]
    entrypoint function withdraw(sig auth, int amount) : (pubkey owner, int balance, int limit) {
      requires checkSig(auth, owner);
      requires amount >= 0;
      requires amount <= limit;
      requires amount <= balance;
      return A { owner: owner, balance: balance - amount, limit: limit };
    }
  }
  lifecycle { live -> live via vault.withdraw; }
  invariant spending_cap;
}
"#;
        assert_accepts(src);
    }

    // ---- multisig_threshold ---------------------------------------------------

    /// D3 REJECT: `multisig_threshold` declared but the state-mutating transition
    /// authorizes with only ONE committed-key checkSig → rejected.
    #[test]
    fn d3_multisig_threshold_rejects_single_signer() {
        let src = r#"
pragma portrait ^0.1.0;
app A {
  role t {
    param pubkey signer_a;
    state { pubkey signer_a; pubkey signer_b; int balance; }
    #[covenant(mode = transition)]
    entrypoint function spend(sig auth_a, int amount) : (pubkey signer_a, pubkey signer_b, int balance) {
      requires checkSig(auth_a, signer_a);
      requires amount <= balance;
      return A { signer_a: signer_a, signer_b: signer_b, balance: balance - amount };
    }
  }
  lifecycle { live -> live via t.spend; }
  invariant multisig_threshold;
}
"#;
        assert_rejects_with(src, "invariant `multisig_threshold` violated");
    }

    /// D3 ACCEPT: two distinct committed-key checkSigs satisfy the threshold.
    #[test]
    fn d3_multisig_threshold_accepts_two_signers() {
        let src = r#"
pragma portrait ^0.1.0;
app A {
  role t {
    param pubkey signer_a;
    state { pubkey signer_a; pubkey signer_b; int balance; }
    #[covenant(mode = transition)]
    entrypoint function spend(sig auth_a, sig auth_b, int amount) : (pubkey signer_a, pubkey signer_b, int balance) {
      requires checkSig(auth_a, signer_a);
      requires checkSig(auth_b, signer_b);
      requires amount <= balance;
      return A { signer_a: signer_a, signer_b: signer_b, balance: balance - amount };
    }
  }
  lifecycle { live -> live via t.spend; }
  invariant multisig_threshold;
}
"#;
        assert_accepts(src);
    }

    // M-1: key-aliasing multisig — `checkSig(a, signer) && checkSig(b,
    // prev_states[0].signer)` names the SAME committed key twice (a self-loop
    // alias), so only 1 distinct committed key is guaranteed → `multisig_threshold`
    // must reject it (was a deployable 1-of-1 masquerading as 2-of-2).
    #[test]
    fn d3_multisig_threshold_rejects_key_aliasing() {
        let src = r#"
pragma portrait ^0.1.0;
app A {
  role treasury {
    param pubkey signer;
    param int balance;
    state { pubkey signer; int balance; }
    #[covenant(mode = transition)]
    entrypoint function spend(sig auth_a, sig auth_b, int amount) : (pubkey signer, int balance) {
      requires checkSig(auth_a, signer) && checkSig(auth_b, prev_states[0].signer);
      requires amount >= 0;
      requires amount <= balance;
      return A { signer: signer, balance: balance - amount };
    }
  }
  lifecycle { live -> live via treasury.spend; }
  invariant value_conserved;
  invariant authorized;
  invariant multisig_threshold;
}
"#;
        assert_rejects_with(src, "invariant `multisig_threshold` violated");
    }

    // L-3: `temporal_guard` declared but the only `now_bucket` comparison gates on
    // a NON-time committed field (`balance`), which is not a deadline → the role
    // has no committed-time gate → rejected.
    #[test]
    fn d3_temporal_guard_rejects_non_time_field_gate() {
        let src = r#"
pragma portrait ^0.1.0;
app A {
  role r {
    param pubkey owner;
    param int balance;
    state { pubkey owner; int balance; int settled; }
    #[covenant(mode = transition)]
    entrypoint function refund(sig auth, int now_bucket) : (pubkey owner, int balance, int settled) {
      requires checkSig(auth, owner);
      requires now_bucket >= balance;
      return A { owner: owner, balance: balance, settled: 1 };
    }
  }
  lifecycle { live -> live via r.refund; }
  invariant temporal_guard;
}
"#;
        assert_rejects_with(src, "invariant `temporal_guard` violated");
    }

    // L-1: an entrypoint argument shadowing a committed name (`owner` is both a
    // committed param/state field and a caller-supplied arg) is rejected by the
    // checker with a clean diagnostic — not left to a downstream silverc panic.
    #[test]
    fn rejects_arg_shadowing_committed_name() {
        let src = r#"
pragma portrait ^0.1.0;
app A {
  role r {
    param pubkey owner;
    param int balance;
    state { pubkey owner; int balance; }
    #[covenant(mode = transition)]
    entrypoint function withdraw(sig auth, pubkey owner, int amount) : (pubkey owner, int balance) {
      requires checkSig(auth, owner);
      return A { owner: owner, balance: balance - amount };
    }
  }
  lifecycle { live -> live via r.withdraw; }
  invariant authorized;
  invariant value_conserved;
}
"#;
        assert_rejects_with(src, "shadows a committed name");
    }

    // ---- temporal_guard -------------------------------------------------------

    /// D3 REJECT: `temporal_guard` declared, the transition reads `now_bucket` in
    /// a guard, but NOT in the `now_bucket >= <committed time>` gate form (here it
    /// compares against a caller-supplied arg, not committed state) → rejected.
    #[test]
    fn d3_temporal_guard_rejects_non_committed_gate() {
        let src = r#"
pragma portrait ^0.1.0;
app A {
  role r {
    param pubkey owner;
    state { pubkey owner; int deadline; int settled; }
    #[covenant(mode = transition)]
    entrypoint function refund(sig auth, int now_bucket, int claimed) : (pubkey owner, int deadline, int settled) {
      requires checkSig(auth, owner);
      requires now_bucket >= claimed;
      return A { owner: owner, deadline: deadline, settled: 1 };
    }
  }
  lifecycle { live -> live via r.refund; }
  invariant temporal_guard;
}
"#;
        assert_rejects_with(src, "invariant `temporal_guard` violated");
    }

    /// D3 ACCEPT: a `now_bucket >= deadline` gate against a committed `deadline`.
    #[test]
    fn d3_temporal_guard_accepts_committed_deadline() {
        let src = r#"
pragma portrait ^0.1.0;
app A {
  role r {
    param pubkey owner;
    state { pubkey owner; int deadline; int settled; }
    #[covenant(mode = transition)]
    entrypoint function refund(sig auth, int now_bucket) : (pubkey owner, int deadline, int settled) {
      requires checkSig(auth, owner);
      requires now_bucket >= deadline;
      return A { owner: owner, deadline: deadline, settled: 1 };
    }
  }
  lifecycle { live -> live via r.refund; }
  invariant temporal_guard;
}
"#;
        assert_accepts(src);
    }

    // ---- B1: after(deadline) consensus time-gate ------------------------------

    /// B1 ACCEPT: an `after(unlock_bucket)` clause naming a committed int-typed
    /// time field is well-formed.
    #[test]
    fn after_accepts_committed_time_deadline() {
        let src = r#"
pragma portrait ^0.1.0;
app Vault {
  role vault {
    param pubkey owner;
    param int    unlock_bucket;
    state { pubkey owner; int unlock_bucket; }
    #[covenant(mode = transition)]
    entrypoint function release(sig auth) : (pubkey owner, int unlock_bucket) {
      requires checkSig(auth, owner);
      after(unlock_bucket);
      return Vault { owner: owner, unlock_bucket: unlock_bucket };
    }
  }
  lifecycle { live -> live via vault.release; }
  invariant no_undeclared_state;
}
"#;
        assert_accepts(src);
    }

    /// B1 REJECT: an `after(now)` deadline that is a spender-supplied argument is
    /// no gate at all.
    #[test]
    fn after_rejects_spender_arg_deadline() {
        let src = r#"
pragma portrait ^0.1.0;
app Vault {
  role vault {
    param pubkey owner;
    state { pubkey owner; }
    #[covenant(mode = transition)]
    entrypoint function release(sig auth, int deadline) : (pubkey owner) {
      requires checkSig(auth, owner);
      after(deadline);
      return Vault { owner: owner };
    }
  }
  lifecycle { live -> live via vault.release; }
  invariant no_undeclared_state;
}
"#;
        assert_rejects_with(src, "spender-supplied argument");
    }

    /// B1 REJECT: a committed but non-time field (`balance`) cannot masquerade as
    /// a deadline.
    #[test]
    fn after_rejects_non_time_field_deadline() {
        let src = r#"
pragma portrait ^0.1.0;
app Vault {
  role vault {
    param pubkey owner;
    param int    balance;
    state { pubkey owner; int balance; }
    #[covenant(mode = transition)]
    entrypoint function release(sig auth) : (pubkey owner, int balance) {
      requires checkSig(auth, owner);
      after(balance);
      return Vault { owner: owner, balance: balance };
    }
  }
  lifecycle { live -> live via vault.release; }
  invariant no_undeclared_state;
}
"#;
        assert_rejects_with(src, "must be a committed TIME field");
    }

    /// B1 (D1) ACCEPT: `after(last_charged + period)` — the two-atom window form —
    /// is well-formed when BOTH operands are committed int-typed time fields.
    #[test]
    fn after_sum_accepts_two_committed_time_atoms() {
        let src = r#"
pragma portrait ^0.1.0;
app Sub {
  role sub {
    param pubkey owner;
    param int    last_charged;
    param int    period;
    state { pubkey owner; int last_charged; int period; }
    #[covenant(mode = transition)]
    entrypoint function charge(sig auth) : (pubkey owner, int last_charged, int period) {
      requires checkSig(auth, owner);
      after(last_charged + period);
      return Sub { owner: owner, last_charged: last_charged, period: period };
    }
  }
  lifecycle { live -> live via sub.charge; }
  invariant no_undeclared_state;
}
"#;
        assert_accepts(src);
    }

    /// B1 (D1) REJECT: a sum whose operand is a spender-supplied argument is no
    /// gate — the caller could choose the window.
    #[test]
    fn after_sum_rejects_spender_arg_operand() {
        let src = r#"
pragma portrait ^0.1.0;
app Sub {
  role sub {
    param pubkey owner;
    param int    last_charged;
    state { pubkey owner; int last_charged; }
    #[covenant(mode = transition)]
    entrypoint function charge(sig auth, int period) : (pubkey owner, int last_charged) {
      requires checkSig(auth, owner);
      after(last_charged + period);
      return Sub { owner: owner, last_charged: last_charged };
    }
  }
  lifecycle { live -> live via sub.charge; }
  invariant no_undeclared_state;
}
"#;
        assert_rejects_with(src, "spender-supplied argument");
    }

    /// RT-1 REJECT: `after(period + timeout)` is duration+duration — a tiny
    /// threshold that is no real gate, even though both names are on the time
    /// allowlist. Must be rejected with the anchor+duration diagnostic.
    #[test]
    fn after_sum_rejects_duration_plus_duration() {
        let src = r#"
pragma portrait ^0.1.0;
app Sub {
  role sub {
    param pubkey owner;
    param int    period;
    param int    timeout;
    state { pubkey owner; int period; int timeout; }
    #[covenant(mode = transition)]
    entrypoint function charge(sig auth) : (pubkey owner, int period, int timeout) {
      requires checkSig(auth, owner);
      after(period + timeout);
      return Sub { owner: owner, period: period, timeout: timeout };
    }
  }
  lifecycle { live -> live via sub.charge; }
  invariant no_undeclared_state;
}
"#;
        assert_rejects_with(
            src,
            "anchor+anchor overshoots and duration+duration is no real gate",
        );
    }

    /// RT-1 REJECT: `after(deadline + cliff)` is anchor+anchor — the threshold
    /// overshoots (sum of two absolute points), which can lock the UTXO past any
    /// real time. Must be rejected with the anchor+duration diagnostic.
    #[test]
    fn after_sum_rejects_anchor_plus_anchor() {
        let src = r#"
pragma portrait ^0.1.0;
app Grant {
  role grant {
    param pubkey owner;
    param int    deadline;
    param int    cliff;
    state { pubkey owner; int deadline; int cliff; }
    #[covenant(mode = transition)]
    entrypoint function vest(sig auth) : (pubkey owner, int deadline, int cliff) {
      requires checkSig(auth, owner);
      after(deadline + cliff);
      return Grant { owner: owner, deadline: deadline, cliff: cliff };
    }
  }
  lifecycle { live -> live via grant.vest; }
  invariant no_undeclared_state;
}
"#;
        assert_rejects_with(src, "must be a committed ANCHOR");
    }

    /// B1 (D1) REJECT: a sum whose operand is a committed but NON-time field cannot
    /// masquerade as a window bound.
    #[test]
    fn after_sum_rejects_non_time_operand() {
        let src = r#"
pragma portrait ^0.1.0;
app Sub {
  role sub {
    param pubkey owner;
    param int    last_charged;
    param int    balance;
    state { pubkey owner; int last_charged; int balance; }
    #[covenant(mode = transition)]
    entrypoint function charge(sig auth) : (pubkey owner, int last_charged, int balance) {
      requires checkSig(auth, owner);
      after(last_charged + balance);
      return Sub { owner: owner, last_charged: last_charged, balance: balance };
    }
  }
  lifecycle { live -> live via sub.charge; }
  invariant no_undeclared_state;
}
"#;
        assert_rejects_with(src, "must be a committed TIME field");
    }

    /// B1 REJECT: `after(...)` outside a `mode = transition` entrypoint would be
    /// silently dropped, so it is rejected.
    #[test]
    fn after_rejects_non_transition_entrypoint() {
        let src = r#"
pragma portrait ^0.1.0;
app Vault {
  role vault {
    param pubkey owner;
    param int    unlock_bucket;
    state { pubkey owner; int unlock_bucket; }
    #[covenant(mode = verification)]
    entrypoint function release(sig auth) : (pubkey owner, int unlock_bucket) {
      requires checkSig(auth, owner);
      after(unlock_bucket);
      return Vault { owner: owner, unlock_bucket: unlock_bucket };
    }
  }
  lifecycle { live -> live via vault.release; }
  invariant no_undeclared_state;
}
"#;
        assert_rejects_with(src, "only valid in a `mode = transition`");
    }

    /// B1 ACCEPT: an `after(unlock_bucket)` clause satisfies `invariant
    /// temporal_guard` — the consensus gate is a strictly stronger temporal gate
    /// than the caller-asserted `now_bucket` comparison.
    #[test]
    fn after_satisfies_temporal_guard_invariant() {
        let src = r#"
pragma portrait ^0.1.0;
app Vault {
  role vault {
    param pubkey owner;
    param int    unlock_bucket;
    param int    released;
    state { pubkey owner; int unlock_bucket; int released; }
    #[covenant(mode = transition)]
    entrypoint function release(sig auth) : (pubkey owner, int unlock_bucket, int released) {
      requires checkSig(auth, owner);
      requires released == 0;
      after(unlock_bucket);
      return Vault { owner: owner, unlock_bucket: unlock_bucket, released: 1 };
    }
  }
  lifecycle { live -> live via vault.release; }
  invariant temporal_guard;
}
"#;
        assert_accepts(src);
    }

    /// D3 ACCEPT: a `now_bucket >= last_active + timeout` committed window gate.
    #[test]
    fn d3_temporal_guard_accepts_committed_window() {
        let src = r#"
pragma portrait ^0.1.0;
app A {
  role r {
    param pubkey owner;
    state { pubkey owner; pubkey heir; int last_active; int timeout; }
    #[covenant(mode = transition)]
    entrypoint function claim(sig auth, int now_bucket) : (pubkey owner, pubkey heir, int last_active, int timeout) {
      requires checkSig(auth, heir);
      requires now_bucket >= last_active + timeout;
      return A { owner: heir, heir: heir, last_active: now_bucket, timeout: timeout };
    }
  }
  lifecycle { live -> live via r.claim; }
  invariant temporal_guard;
}
"#;
        assert_accepts(src);
    }

    // ── D4: conservation_split (paired two-field transfer) ───────────────────

    /// D4 ACCEPT: a matched transfer — `from_balance: from_balance - amount`
    /// paired with `to_balance: to_balance + amount` (the SAME term `amount`).
    #[test]
    fn d4_accepts_matched_transfer() {
        let src = r#"
pragma portrait ^0.1.0;
app T {
  role acct {
    param int from_balance;
    param int to_balance;
    param pubkey owner;
    state { int from_balance; int to_balance; pubkey owner; }
    #[covenant(mode = transition)]
    entrypoint function transfer(sig auth, int amount) : (int from_balance, int to_balance, pubkey owner) {
      requires checkSig(auth, owner);
      requires amount >= 0;
      return T {
        from_balance: from_balance - amount,
        to_balance:   to_balance + amount,
        owner:        owner
      };
    }
  }
  lifecycle { live -> live via acct.transfer; }
  invariant conservation_split;
  invariant authorized;
}
"#;
        assert_accepts(src);
    }

    /// D4 REJECT: mismatched terms — `from_balance - amount` but
    /// `to_balance + fee` (the +term differs from the -term).
    #[test]
    fn d4_rejects_mismatched_term() {
        let src = r#"
pragma portrait ^0.1.0;
app T {
  role acct {
    param int from_balance;
    param int to_balance;
    param pubkey owner;
    state { int from_balance; int to_balance; pubkey owner; }
    #[covenant(mode = transition)]
    entrypoint function transfer(sig auth, int amount, int fee) : (int from_balance, int to_balance, pubkey owner) {
      requires checkSig(auth, owner);
      return T {
        from_balance: from_balance - amount,
        to_balance:   to_balance + fee,
        owner:        owner
      };
    }
  }
  lifecycle { live -> live via acct.transfer; }
  invariant conservation_split;
  invariant authorized;
}
"#;
        assert_rejects_with(src, "invariant `conservation_split` violated");
    }

    /// D4 REJECT: a single-field drain — `from_balance` decreases with NO
    /// matching counter-increase on another value-bearing field.
    #[test]
    fn d4_rejects_single_field_drain() {
        let src = r#"
pragma portrait ^0.1.0;
app T {
  role acct {
    param int from_balance;
    param int to_balance;
    param pubkey owner;
    state { int from_balance; int to_balance; pubkey owner; }
    #[covenant(mode = transition)]
    entrypoint function drain(sig auth, int amount) : (int from_balance, int to_balance, pubkey owner) {
      requires checkSig(auth, owner);
      return T {
        from_balance: from_balance - amount,
        to_balance:   to_balance,
        owner:        owner
      };
    }
  }
  lifecycle { live -> live via acct.drain; }
  invariant conservation_split;
  invariant authorized;
}
"#;
        assert_rejects_with(src, "invariant `conservation_split` violated");
    }

    // ── D4 (N-field generalization): N>2 internal splits ─────────────────────

    /// D4 ACCEPT (N=3): a true three-field split — `a: a - (x + y)` paired with
    /// `b: b + x` and `c: c + y`. The subtracted atoms {x, y} cancel the added
    /// atoms {x, y}, so the deltas net to zero across THREE value-bearing fields.
    #[test]
    fn d4_accepts_three_field_split() {
        let src = r#"
pragma portrait ^0.1.0;
app S {
  role pool {
    param int a_balance;
    param int b_balance;
    param int c_balance;
    param pubkey owner;
    state { int a_balance; int b_balance; int c_balance; pubkey owner; }
    #[covenant(mode = transition)]
    entrypoint function rebalance(sig auth, int x, int y) : (int a_balance, int b_balance, int c_balance, pubkey owner) {
      requires checkSig(auth, owner);
      requires x >= 0;
      requires y >= 0;
      return S {
        a_balance: a_balance - (x + y),
        b_balance: b_balance + x,
        c_balance: c_balance + y,
        owner:     owner
      };
    }
  }
  lifecycle { live -> live via pool.rebalance; }
  invariant conservation_split;
  invariant authorized;
}
"#;
        assert_accepts(src);
    }

    /// D4 ACCEPT (N=3, carry leg): a two-field transfer with a THIRD value-bearing
    /// field carried unchanged — `a: a - x`, `b: b + x`, `c: c`. The carried leg
    /// has delta 0 and does not disturb the net-zero balance.
    #[test]
    fn d4_accepts_two_field_transfer_with_carry_leg() {
        let src = r#"
pragma portrait ^0.1.0;
app S {
  role pool {
    param int a_balance;
    param int b_balance;
    param int c_balance;
    param pubkey owner;
    state { int a_balance; int b_balance; int c_balance; pubkey owner; }
    #[covenant(mode = transition)]
    entrypoint function move_ab(sig auth, int x) : (int a_balance, int b_balance, int c_balance, pubkey owner) {
      requires checkSig(auth, owner);
      requires x >= 0;
      return S {
        a_balance: a_balance - x,
        b_balance: b_balance + x,
        c_balance: c_balance,
        owner:     owner
      };
    }
  }
  lifecycle { live -> live via pool.move_ab; }
  invariant conservation_split;
  invariant authorized;
}
"#;
        assert_accepts(src);
    }

    /// A6-sign under `conservation_split`: the two legs cancel structurally whatever
    /// the sign of `x`, so cancellation alone cannot see that a negative `x`
    /// REVERSES the transfer — draining the destination into the source. The
    /// leg-level sign guard catches it and names the term.
    #[test]
    fn rejects_conservation_split_leg_with_an_unguarded_term() {
        let src = r#"
pragma portrait ^0.1.0;
app S {
  role pool {
    param int a_balance;
    param int b_balance;
    param pubkey owner;
    state { int a_balance; int b_balance; pubkey owner; }
    #[covenant(mode = transition)]
    entrypoint function move_ab(sig auth, int x) : (int a_balance, int b_balance, pubkey owner) {
      requires checkSig(auth, owner);
      return S {
        a_balance: a_balance - x,
        b_balance: b_balance + x,
        owner:     owner
      };
    }
  }
  lifecycle { live -> live via pool.move_ab; }
  invariant conservation_split;
  invariant authorized;
}
"#;
        assert_rejects_with(src, "term containing `x`");
    }

    /// D4 REJECT (N=3, value created): `a: a - x`, `b: b + x`, `c: c + y`. The
    /// added atoms {x, y} do NOT cancel the subtracted atoms {x} — `y` is created
    /// out of nothing across the three fields.
    #[test]
    fn d4_rejects_three_field_value_created() {
        let src = r#"
pragma portrait ^0.1.0;
app S {
  role pool {
    param int a_balance;
    param int b_balance;
    param int c_balance;
    param pubkey owner;
    state { int a_balance; int b_balance; int c_balance; pubkey owner; }
    #[covenant(mode = transition)]
    entrypoint function inflate(sig auth, int x, int y) : (int a_balance, int b_balance, int c_balance, pubkey owner) {
      requires checkSig(auth, owner);
      return S {
        a_balance: a_balance - x,
        b_balance: b_balance + x,
        c_balance: c_balance + y,
        owner:     owner
      };
    }
  }
  lifecycle { live -> live via pool.inflate; }
  invariant conservation_split;
  invariant authorized;
}
"#;
        assert_rejects_with(src, "invariant `conservation_split` violated");
    }

    /// D4 REJECT (N=3, value destroyed): `a: a - (x + y)`, `b: b + x`, `c: c`.
    /// The subtracted atoms {x, y} do NOT cancel the added atoms {x} — `y` is
    /// destroyed (it leaves `a` but arrives nowhere in the covenant).
    #[test]
    fn d4_rejects_three_field_value_destroyed() {
        let src = r#"
pragma portrait ^0.1.0;
app S {
  role pool {
    param int a_balance;
    param int b_balance;
    param int c_balance;
    param pubkey owner;
    state { int a_balance; int b_balance; int c_balance; pubkey owner; }
    #[covenant(mode = transition)]
    entrypoint function lose_y(sig auth, int x, int y) : (int a_balance, int b_balance, int c_balance, pubkey owner) {
      requires checkSig(auth, owner);
      return S {
        a_balance: a_balance - (x + y),
        b_balance: b_balance + x,
        c_balance: c_balance,
        owner:     owner
      };
    }
  }
  lifecycle { live -> live via pool.lose_y; }
  invariant conservation_split;
  invariant authorized;
}
"#;
        assert_rejects_with(src, "invariant `conservation_split` violated");
    }

    /// D4 REJECT (N=3, non-additive value-field mutation): one leg scales
    /// multiplicatively (`c: c * 2`), which is not analyzable as a value delta —
    /// even though the other two legs (`a: a - x`, `b: b + x`) balance.
    #[test]
    fn d4_rejects_three_field_non_additive_mutation() {
        let src = r#"
pragma portrait ^0.1.0;
app S {
  role pool {
    param int a_balance;
    param int b_balance;
    param int c_balance;
    param pubkey owner;
    state { int a_balance; int b_balance; int c_balance; pubkey owner; }
    #[covenant(mode = transition)]
    entrypoint function scale_c(sig auth, int x) : (int a_balance, int b_balance, int c_balance, pubkey owner) {
      requires checkSig(auth, owner);
      return S {
        a_balance: a_balance - x,
        b_balance: b_balance + x,
        c_balance: c_balance * 2,
        owner:     owner
      };
    }
  }
  lifecycle { live -> live via pool.scale_c; }
  invariant conservation_split;
  invariant authorized;
}
"#;
        assert_rejects_with(src, "invariant `conservation_split` violated");
    }

    // ── Allocation advisor (read-only) ──────────────────────────────────────

    /// A two-layer source: a clean covenant entrypoint + a vProg entrypoint whose
    /// body holds a real out-of-subset construct (a `for` loop).
    fn two_layer_loop_src() -> &'static str {
        r#"pragma portrait ^0.1.0;
app A {
  role r {
    state { int v; }
    #[covenant(mode = transition)]
    entrypoint function settle(int amount) : (int v) {
      return v - amount;
    }
    entrypoint function tally(int n) {
      for (i = 0; i < n; i = i + 1) { x = x + 1 };
      return v;
    }
  }
  lifecycle { live -> live via r.settle; }
  invariant no_undeclared_state;
}
"#
    }

    #[test]
    fn advisor_flags_covenant_entrypoint_holding_rejected_construct() {
        // A `#[covenant]` entrypoint that (defensively) carries a rejection-set
        // construct as a Raw hole must be FLAGGED with a clear route-to-vProg note.
        // We build the program AST directly (the parser would reject this at parse
        // for a covenant mode, which is the primary gate; the advisor is the
        // defensive cross-check, so we assert it on a constructed mismatch).
        let program = Program {
            pragma: "portrait ^0.1.0".into(),
            uses: vec![],
            app: App {
                name: "A".into(),
                roles: vec![Role {
                    name: "r".into(),
                    component: None,
                    params: vec![],
                    state: vec![],
                    entrypoints: vec![Entry {
                        name: "bad".into(),
                        mode: CovenantMode::Transition,
                        args: vec![],
                        returns: None,
                        requires: vec![],
                        body: vec![Stmt::Raw("for (i = 0; i < n) { }".into())],
                        supply_change: None,
                    }],
                }],
                lifecycle: vec![],
                flow: None,
                invariants: vec![],
            },
        };
        let advisories = advise(&program);
        assert!(
            advisories.iter().any(|a| a.role == "r"
                && a.entry == "bad"
                && a.layer == "Covenant"
                && a.message.contains("marked covenant but uses `for`")
                && a.message.contains("vProgs")),
            "covenant entrypoint with a `for` hole must be flagged, got: {advisories:?}"
        );
    }

    #[test]
    fn advisor_notes_vprog_entrypoint_holding_rejected_construct() {
        // The vProg `tally` entrypoint holds a `for` loop (now accepted as a Raw
        // hole). The advisor should confirm it is correctly on the vProgs layer.
        let program = parse(two_layer_loop_src()).expect("two-layer source parses");
        let advisories = advise(&program);
        assert!(
            advisories.iter().any(|a| a.entry == "tally"
                && a.layer == "VProg"
                && a.message.contains("`for`")
                && a.message.contains("correctly allocated to the vProgs layer")),
            "vProg entrypoint with a loop must be noted as correctly allocated, got: {advisories:?}"
        );
    }

    #[test]
    fn advisor_does_not_false_flag_clean_covenant() {
        // A clean covenant entrypoint (only typed require/return) must NOT be
        // flagged at all — no false positives on legitimate covenants.
        let program = parse(two_layer_loop_src()).expect("two-layer source parses");
        let advisories = advise(&program);
        assert!(
            !advisories.iter().any(|a| a.entry == "settle"),
            "clean covenant `settle` must not be flagged, got: {advisories:?}"
        );
    }

    // ---- A4-full: formula-bearing temporal invariants ---------------------

    /// A `refund`-shaped app whose `after(...)` clause is `after_clause` (pass ""
    /// to DELETE it) and whose app-level temporal-path `invariant` is `invariant`.
    fn temporal_path_src(after_clause: &str, invariant: &str) -> String {
        format!(
            r#"
pragma portrait ^0.1.0;
app Vault {{
  role vault {{
    param pubkey owner;
    param int    deadline;
    param int    cliff;
    state {{ pubkey owner; int deadline; int cliff; }}
    #[covenant(mode = transition)]
    entrypoint function refund(sig auth) : (pubkey owner, int deadline, int cliff) {{
      requires checkSig(auth, owner);
      {after_clause}
      return Vault {{ owner: owner, deadline: deadline, cliff: cliff }};
    }}
  }}
  lifecycle {{ live -> live via vault.refund; }}
  {invariant}
  invariant no_undeclared_state;
}}
"#
        )
    }

    #[test]
    fn temporal_path_requires_matching_after_clause() {
        // Passes when `refund` carries the matching `after(deadline)` clause.
        assert_accepts(&temporal_path_src(
            "after(deadline);",
            "invariant refund_after_deadline: refund => after(deadline);",
        ));
        // Survives-deletion: DELETE the `after(deadline)` clause and the same
        // program now FAILS — the invariant pins the clause to the entrypoint.
        assert_rejects_with(
            &temporal_path_src(
                "",
                "invariant refund_after_deadline: refund => after(deadline);",
            ),
            "must carry the matching `after(deadline)`",
        );
    }

    #[test]
    fn temporal_path_unknown_entrypoint_rejected() {
        assert_rejects_with(
            &temporal_path_src(
                "after(deadline);",
                "invariant refund_after_deadline: settle => after(deadline);",
            ),
            "entrypoint `settle` is not declared in any role",
        );
    }

    #[test]
    fn temporal_path_deadline_mismatch_rejected() {
        // `refund` carries `after(deadline)` but the invariant names `after(cliff)`:
        // the deadline shape does not match, so the structural check rejects it.
        assert_rejects_with(
            &temporal_path_src(
                "after(deadline);",
                "invariant refund_after_deadline: refund => after(cliff);",
            ),
            "must carry the matching `after(cliff)`",
        );
    }

    // ---- A6: payout_bound -------------------------------------------------

    /// An Escrow-shaped app whose settling `release` transition (flips `settled`
    /// 0 → 1) carries `release_pays` (pass "" to OMIT the payout binding), under
    /// `invariant payout_bound;`.
    fn payout_bound_src(release_pays: &str) -> String {
        format!(
            r#"
pragma portrait ^0.1.0;
app Escrow {{
  role escrow {{
    param pubkey seller;
    param coin   amount;
    param int    settled;
    state {{ pubkey seller; coin amount; int settled; }}
    #[covenant(mode = transition)]
    entrypoint function release(sig auth) : (pubkey seller, coin amount, int settled) {{
      requires checkSig(auth, seller);
      requires settled == 0;
      {release_pays}
      return Escrow {{ seller: seller, amount: amount, settled: 1 }};
    }}
  }}
  lifecycle {{ live -> live via escrow.release; }}
  invariant payout_bound;
  invariant no_undeclared_state;
}}
"#
        )
    }

    #[test]
    fn payout_bound_passes_when_settlement_pays() {
        assert_accepts(&payout_bound_src("pays(0, seller, amount);"));
    }

    #[test]
    fn payout_bound_fails_when_settlement_omits_pays() {
        // Survives-deletion: DELETE the `pays(...)` clause and the settling path
        // now FAILS — payout_bound makes the payout binding a mandatory obligation.
        assert_rejects_with(&payout_bound_src(""), "invariant `payout_bound` violated");
    }

    #[test]
    fn payout_bound_ignores_non_settling_transitions() {
        // `release` settles and pays (so payout_bound is not vacuous); `poke` does
        // NOT flip a one-shot flag, so it is not a settlement and payout_bound does
        // not require it to pay — the app is accepted.
        let src = r#"
pragma portrait ^0.1.0;
app Escrow {
  role escrow {
    param pubkey seller;
    param coin   amount;
    param int    settled;
    state { pubkey seller; coin amount; int settled; }
    #[covenant(mode = transition)]
    entrypoint function release(sig auth) : (pubkey seller, coin amount, int settled) {
      requires checkSig(auth, seller);
      requires settled == 0;
      pays(0, seller, amount);
      return Escrow { seller: seller, amount: amount, settled: 1 };
    }
    #[covenant(mode = transition)]
    entrypoint function poke(sig auth) : (pubkey seller, coin amount, int settled) {
      requires checkSig(auth, seller);
      return Escrow { seller: seller, amount: amount, settled: settled };
    }
  }
  lifecycle {
    live -> live via escrow.release;
    live -> live via escrow.poke;
  }
  invariant payout_bound;
  invariant no_undeclared_state;
}
"#;
        assert_accepts(src);
    }

    // H-1: the recognizer catches the bool and computed one-shot flips too, so a
    // real settlement written in those shapes cannot escape payout_bound.

    #[test]
    fn payout_bound_fails_when_bool_flip_settlement_omits_pays() {
        // A bool one-shot flip (`require settled == false;` + `settled: true`) with
        // NO pays is a settlement that must be rejected (previously escaped).
        let src = r#"
pragma portrait ^0.1.0;
app Escrow {
  role escrow {
    param pubkey seller;
    param coin   amount;
    param bool   settled;
    state { pubkey seller; coin amount; bool settled; }
    #[covenant(mode = transition)]
    entrypoint function release(sig auth) : (pubkey seller, coin amount, bool settled) {
      requires checkSig(auth, seller);
      requires settled == false;
      return Escrow { seller: seller, amount: amount, settled: true };
    }
  }
  lifecycle { live -> live via escrow.release; }
  invariant payout_bound;
  invariant no_undeclared_state;
}
"#;
        assert_rejects_with(src, "invariant `payout_bound` violated");
    }

    #[test]
    fn payout_bound_fails_when_computed_flip_settlement_omits_pays() {
        // A computed one-shot flip (`require settled == 0;` + `settled: settled + 1`)
        // with NO pays is a settlement that must be rejected (previously escaped).
        let src = r#"
pragma portrait ^0.1.0;
app Escrow {
  role escrow {
    param pubkey seller;
    param coin   amount;
    param int    settled;
    state { pubkey seller; coin amount; int settled; }
    #[covenant(mode = transition)]
    entrypoint function release(sig auth) : (pubkey seller, coin amount, int settled) {
      requires checkSig(auth, seller);
      requires settled == 0;
      return Escrow { seller: seller, amount: amount, settled: settled + 1 };
    }
  }
  lifecycle { live -> live via escrow.release; }
  invariant payout_bound;
  invariant no_undeclared_state;
}
"#;
        assert_rejects_with(src, "invariant `payout_bound` violated");
    }

    #[test]
    fn payout_bound_vacuous_declaration_rejected() {
        // FAIL-LOUD ON VACUITY: payout_bound declared but NO settling transition is
        // recognized — the invariant is rejected, so a 0-match pass cannot pose as
        // enforcement.
        let src = r#"
pragma portrait ^0.1.0;
app Counter {
  role counter {
    param pubkey owner;
    param int    n;
    state { pubkey owner; int n; }
    #[covenant(mode = transition)]
    entrypoint function poke(sig auth) : (pubkey owner, int n) {
      requires checkSig(auth, owner);
      return Counter { owner: owner, n: n };
    }
  }
  lifecycle { live -> live via counter.poke; }
  invariant payout_bound;
  invariant no_undeclared_state;
}
"#;
        assert_rejects_with(src, "no settling transition was recognized");
    }

    #[test]
    fn settling_transition_count_reports_recognized_settlements() {
        // The coverage signal counts recognized settling transitions across roles.
        let program = parse(&payout_bound_src("pays(0, seller, amount);")).expect("parse");
        assert_eq!(settling_transition_count(&program.app), 1);
    }

    // ---- B3: terminal settling transitions --------------------------------

    /// An Escrow-shaped app whose `release` is a TERMINAL transition (a lifecycle
    /// edge marked `terminal`, no successor return). `release_pays` is spliced into
    /// the body (pass "" to OMIT the payout binding), under `invariant payout_bound;`.
    fn terminal_payout_src(release_pays: &str) -> String {
        format!(
            r#"
pragma portrait ^0.1.0;
app Escrow {{
  role escrow {{
    param pubkey seller;
    param coin   amount;
    state {{ pubkey seller; coin amount; }}
    #[covenant(mode = transition)]
    entrypoint function release(sig auth) {{
      requires checkSig(auth, seller);
      {release_pays}
    }}
  }}
  lifecycle {{ live -> released via escrow.release terminal; }}
  invariant payout_bound;
  invariant no_undeclared_state;
}}
"#
        )
    }

    #[test]
    fn payout_bound_recognizes_terminal_settling_transition() {
        // A TERMINAL transition (releases the coin, ends the lifecycle) is a
        // recognized settling transition; with its `pays(...)` binding present,
        // payout_bound is satisfied (and non-vacuous → 1 recognized settlement).
        let src = terminal_payout_src("pays(0, seller, amount);");
        assert_accepts(&src);
        let program = parse(&src).expect("parse");
        assert_eq!(settling_transition_count(&program.app), 1);
    }

    #[test]
    fn terminal_settle_without_pays_fails_loud() {
        // Survives-deletion: DELETE the `pays(...)` on a terminal settle and
        // payout_bound rejects it — a terminal spend must bind its payout.
        assert_rejects_with(
            &terminal_payout_src(""),
            "invariant `payout_bound` violated",
        );
    }

    #[test]
    fn terminal_transition_with_return_is_rejected() {
        // A terminal transition must not return a successor: the coin is released
        // via pays and the UTXO is consumed, so a `return` is a contradiction.
        let src = r#"
pragma portrait ^0.1.0;
app Escrow {
  role escrow {
    param pubkey seller;
    param coin   amount;
    state { pubkey seller; coin amount; }
    #[covenant(mode = transition)]
    entrypoint function release(sig auth) : (pubkey seller, coin amount) {
      requires checkSig(auth, seller);
      pays(0, seller, amount);
      return Escrow { seller: seller, amount: amount };
    }
  }
  lifecycle { live -> released via escrow.release terminal; }
  invariant payout_bound;
  invariant no_undeclared_state;
}
"#;
        assert_rejects_with(src, "must not return a successor");
    }

    #[test]
    fn terminal_burn_named_settle_without_pays_fails_loud() {
        // R2: a TERMINAL transition named `burn_out` still RELEASES coin, so the
        // mint/burn exemption must NOT apply to it — payout_bound must recognize it
        // as settling and reject the missing `pays(...)`. Survives-deletion: with a
        // `pays(...)` present it would be accepted; without one it is rejected.
        let with_pays = r#"
pragma portrait ^0.1.0;
app Vault {
  role vault {
    param pubkey owner;
    param coin   amount;
    state { pubkey owner; coin amount; }
    #[covenant(mode = transition)]
    entrypoint function burn_out(sig auth) {
      requires checkSig(auth, owner);
      pays(0, owner, amount);
    }
  }
  lifecycle { live -> burned via vault.burn_out terminal; }
  invariant payout_bound;
  invariant no_undeclared_state;
}
"#;
        assert_accepts(with_pays);
        let no_pays = with_pays.replace("      pays(0, owner, amount);\n", "");
        assert_rejects_with(&no_pays, "invariant `payout_bound` violated");
    }

    #[test]
    fn terminal_recognition_is_role_qualified() {
        // R4: a terminal `refund` in role `a` must NOT force a NON-terminal `refund`
        // in role `b` to carry `pays(...)`. Role `b.refund` continues to a successor
        // and settles nothing, so payout_bound must accept it unbound while still
        // obligating the terminal `a.refund`.
        let src = r#"
pragma portrait ^0.1.0;
app Two {
  role a {
    param pubkey owner;
    param coin   amount;
    state { pubkey owner; coin amount; }
    #[covenant(mode = transition)]
    entrypoint function refund(sig auth) {
      requires checkSig(auth, owner);
      pays(0, owner, amount);
    }
  }
  role b {
    param pubkey owner;
    param int    n;
    state { pubkey owner; int n; }
    #[covenant(mode = transition)]
    entrypoint function refund(sig auth) : (pubkey owner, int n) {
      requires checkSig(auth, owner);
      return B { owner: owner, n: n };
    }
  }
  lifecycle {
    live -> refunded via a.refund terminal;
    live -> live via b.refund;
  }
  invariant payout_bound;
  invariant no_undeclared_state;
}
"#;
        assert_accepts(src);
        // Only the terminal `a.refund` is recognized as settling (role-qualified).
        let program = parse(src).expect("parse");
        assert_eq!(settling_transition_count(&program.app), 1);
    }

    // M-1: the bare entry name binds by entrypoint NAME across every role.

    #[test]
    fn temporal_path_rejects_when_a_second_role_occurrence_lacks_the_gate() {
        // Two roles both declare `refund`: `a.refund` carries `after(deadline)` but
        // `b.refund` does not. The invariant must reject (it would otherwise read as
        // "refund is time-gated" while one occurrence is not).
        let src = r#"
pragma portrait ^0.1.0;
app Vault {
  role a {
    param pubkey owner;
    param int    deadline;
    state { pubkey owner; int deadline; }
    #[covenant(mode = transition)]
    entrypoint function refund(sig auth) : (pubkey owner, int deadline) {
      requires checkSig(auth, owner);
      after(deadline);
      return Vault { owner: owner, deadline: deadline };
    }
  }
  role b {
    param pubkey owner;
    param int    deadline;
    state { pubkey owner; int deadline; }
    #[covenant(mode = transition)]
    entrypoint function refund(sig auth) : (pubkey owner, int deadline) {
      requires checkSig(auth, owner);
      return Vault { owner: owner, deadline: deadline };
    }
  }
  lifecycle {
    live -> live via a.refund;
    live -> live via b.refund;
  }
  invariant refund_after_deadline: refund => after(deadline);
  invariant no_undeclared_state;
}
"#;
        assert_rejects_with(src, "`b.refund` must carry the matching `after(deadline)`");
    }

    #[test]
    fn temporal_path_sum_deadline_matches_either_operand_order() {
        // L-2: `after(a + b)` in the body satisfies an invariant naming
        // `after(b + a)` — a Sum window is compared unordered.
        let src = r#"
pragma portrait ^0.1.0;
app Sub {
  role sub {
    param pubkey owner;
    param int    last_charged;
    param int    period;
    state { pubkey owner; int last_charged; int period; }
    #[covenant(mode = transition)]
    entrypoint function charge(sig auth) : (pubkey owner, int last_charged, int period) {
      requires checkSig(auth, owner);
      after(last_charged + period);
      return Sub { owner: owner, last_charged: last_charged, period: period };
    }
  }
  lifecycle { live -> live via sub.charge; }
  invariant charge_after_window: charge => after(period + last_charged);
  invariant no_undeclared_state;
}
"#;
        assert_accepts(src);
    }

#[test]
fn advisor_lists_mismatches_before_notes() {
    // An earlier vProg entrypoint that could be promoted and a later covenant
    // entrypoint that holds a `for` hole: the mismatch comes first.
    let entry = |name: &str, mode: CovenantMode, body: Vec<Stmt>| Entry {
        name: name.into(),
        mode,
        args: vec![],
        returns: None,
        requires: vec![],
        body,
        supply_change: None,
    };
    let program = Program {
        pragma: "portrait ^0.1.0".into(),
        uses: vec![],
        app: App {
            name: "A".into(),
            roles: vec![Role {
                name: "r".into(),
                component: None,
                params: vec![],
                state: vec![],
                entrypoints: vec![
                    entry("early", CovenantMode::NonCovenant, vec![Stmt::Require(portrait::ast::Expr::Bool(true))]),
                    entry("late", CovenantMode::Transition, vec![Stmt::Raw("for (i = 0; i < n) { }".into())]),
                ],
            }],
            lifecycle: vec![],
            flow: None,
            invariants: vec![],
        },
    };
    let advisories = advise(&program);
    assert_eq!(advisories.len(), 2);
    assert_eq!(advisories[0].entry, "late");
    assert!(advisories[0].message.contains("marked covenant but uses `for`"));
    assert_eq!(advisories[1].entry, "early");
    assert!(advisories[1].message.contains("could be promoted"));
}
