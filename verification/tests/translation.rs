use portrait::ast::Program;
use portrait::parser::parse as parse_program;
use portrait::translation::{validate_translation, Correspondence};

    /// InternalSplit: a genuine 3-leg internal flow. The emitted .sil below is the
    /// faithful engraver output — every model guard is present and the
    /// value-bearing writes match. Must CORRESPOND.
    const INTERNAL_SPLIT: &str = r#"pragma portrait ^0.1.0;
app InternalSplit {
  role pool {
    param int    pool_a_balance;
    param int    pool_b_balance;
    param int    pool_c_balance;
    param pubkey owner;
    state {
      int    pool_a_balance;
      int    pool_b_balance;
      int    pool_c_balance;
      pubkey owner;
    }
    #[covenant(mode = transition)]
    entrypoint function rebalance(sig auth, int x, int y)
      : (int pool_a_balance, int pool_b_balance, int pool_c_balance, pubkey owner) {
      requires checkSig(auth, owner);
      requires x >= 0;
      requires y >= 0;
      requires x + y <= pool_a_balance;
      return InternalSplit {
        pool_a_balance: pool_a_balance - (x + y),
        pool_b_balance: pool_b_balance + x,
        pool_c_balance: pool_c_balance + y,
        owner:          owner
      };
    }
  }
  lifecycle { live -> live via pool.rebalance; }
  invariant conservation_split;
}"#;

    const INTERNAL_SPLIT_SIL_FAITHFUL: &str = r#"pragma silverscript ^0.1.0;
contract InternalSplit(int max_ins, int max_outs, int pool_a_balance, int pool_b_balance, int pool_c_balance, pubkey owner) {
    int pool_a_balance = pool_a_balance;
    int pool_b_balance = pool_b_balance;
    int pool_c_balance = pool_c_balance;
    pubkey owner = owner;
    #[covenant(binding = cov, from = max_ins, to = 1, mode = transition)]
    function rebalance(State[] prev_states, sig auth, int x, int y) : (State) {
        require(checkSig(auth, prev_states[0].owner));
        require(x >= 0);
        require(y >= 0);
        require(x + y <= prev_states[0].pool_a_balance);
        return({ pool_a_balance: prev_states[0].pool_a_balance - (x + y), pool_b_balance: prev_states[0].pool_b_balance + x, pool_c_balance: prev_states[0].pool_c_balance + y, owner: prev_states[0].owner });
    }
}"#;

    fn parse(src: &str) -> Program {
        parse_program(src).expect("fixture parses")
    }

    #[test]
    fn faithful_emission_corresponds() {
        let prog = parse(INTERNAL_SPLIT);
        let verdict = validate_translation(&prog, INTERNAL_SPLIT_SIL_FAITHFUL);
        assert_eq!(verdict, Correspondence::Corresponds, "{:?}", verdict);
    }

    #[test]
    fn dropped_guard_diverges_naming_it() {
        // Mutate the faithful .sil to DROP the `x + y <= pool_a_balance` overdraw
        // guard. The check must DIVERGE and name that specific dropped guard.
        let mutated = INTERNAL_SPLIT_SIL_FAITHFUL.replace(
            "        require(x + y <= prev_states[0].pool_a_balance);\n",
            "",
        );
        assert!(
            !mutated.contains("x + y <="),
            "mutation must actually remove the guard"
        );
        let prog = parse(INTERNAL_SPLIT);
        match validate_translation(&prog, &mutated) {
            Correspondence::Diverges { reasons } => {
                assert_eq!(reasons.len(), 1, "exactly one divergence: {reasons:?}");
                assert!(
                    reasons[0].contains("x + y <= pool_a_balance")
                        && reasons[0].contains("dropped"),
                    "must name the dropped guard: {}",
                    reasons[0]
                );
            }
            Correspondence::Corresponds => {
                panic!("a dropped guard MUST diverge (the check has teeth)")
            }
        }
    }

    #[test]
    fn extra_value_op_diverges_naming_it() {
        // Mutate the faithful .sil so leg b is minted MORE than the model says
        // (`+ x + 1` instead of `+ x`): an unaccounted value-bearing op. Must
        // DIVERGE naming the altered value-bearing write.
        let mutated = INTERNAL_SPLIT_SIL_FAITHFUL.replace(
            "pool_b_balance: prev_states[0].pool_b_balance + x,",
            "pool_b_balance: prev_states[0].pool_b_balance + x + 1,",
        );
        assert!(mutated.contains("+ x + 1"), "mutation applied");
        let prog = parse(INTERNAL_SPLIT);
        match validate_translation(&prog, &mutated) {
            Correspondence::Diverges { reasons } => {
                assert!(
                    reasons
                        .iter()
                        .any(|r| r.contains("pool_b_balance") && r.contains("altered")),
                    "must name the altered value-bearing op: {reasons:?}"
                );
            }
            Correspondence::Corresponds => {
                panic!("an extra value-bearing op MUST diverge (the check has teeth)")
            }
        }
    }

    #[test]
    fn injected_vprog_require_does_not_diverge() {
        // The engraver injects `require(proof_cov_id == OpInputCovenantId(0))` for
        // CSCI cross-layer binding. An ADDED guard only tightens enforcement; it is
        // NOT a dropped model guard and NOT a value-bearing op, so it must NOT
        // trigger a divergence.
        let with_injected = INTERNAL_SPLIT_SIL_FAITHFUL.replace(
            "        require(checkSig(auth, prev_states[0].owner));\n",
            "        require(proof_cov_id == OpInputCovenantId(0));\n        require(checkSig(auth, prev_states[0].owner));\n",
        );
        let prog = parse(INTERNAL_SPLIT);
        assert_eq!(
            validate_translation(&prog, &with_injected),
            Correspondence::Corresponds,
            "an injected extra require must not be flagged as a divergence"
        );
    }

    #[test]
    fn dropped_model_write_diverges() {
        // ATK1: the .sil OMITS the model's `pool_c_balance: + y` credit field
        // entirely. The source leg is debited but the destination leg never gets
        // its value — a dropped model value-bearing write (value lost / not
        // conserved). The check MUST DIVERGE naming the missing field.
        let mutated = INTERNAL_SPLIT_SIL_FAITHFUL
            .replace("pool_c_balance: prev_states[0].pool_c_balance + y, ", "");
        assert!(
            !mutated.contains("pool_c_balance: prev_states[0].pool_c_balance + y"),
            "mutation must remove the credit field"
        );
        let prog = parse(INTERNAL_SPLIT);
        match validate_translation(&prog, &mutated) {
            Correspondence::Diverges { reasons } => {
                assert!(
                    reasons
                        .iter()
                        .any(|r| r.contains("pool_c_balance") && r.contains("model")),
                    "must name the dropped model value-bearing write: {reasons:?}"
                );
            }
            Correspondence::Corresponds => {
                panic!("a DROPPED model value-bearing write MUST diverge")
            }
        }
    }

    #[test]
    fn model_write_replaced_by_pure_carry_diverges() {
        // ATK7: the .sil replaces the model's debit `pool_a_balance - (x + y)`
        // with a PURE CARRY `pool_a_balance: prev_states[0].pool_a_balance`. The
        // source leg is never debited (money printing). A pure carry on the .sil
        // side is skipped by sil_value_writes, so the only way to catch this is the
        // symmetric model->sil direction. MUST DIVERGE.
        let mutated = INTERNAL_SPLIT_SIL_FAITHFUL.replace(
            "pool_a_balance: prev_states[0].pool_a_balance - (x + y),",
            "pool_a_balance: prev_states[0].pool_a_balance,",
        );
        assert!(
            mutated.contains("pool_a_balance: prev_states[0].pool_a_balance,"),
            "mutation applied"
        );
        let prog = parse(INTERNAL_SPLIT);
        match validate_translation(&prog, &mutated) {
            Correspondence::Diverges { reasons } => {
                assert!(
                    reasons.iter().any(|r| r.contains("pool_a_balance")),
                    "must name pool_a_balance debit replaced by a carry: {reasons:?}"
                );
            }
            Correspondence::Corresponds => {
                panic!("a model debit replaced by a pure carry MUST diverge (money printing)")
            }
        }
    }

    #[test]
    fn duplicate_function_block_diverges() {
        // ATK4: a second same-name `rebalance` block that drops the overdraw guard
        // and mints +999 is appended after the faithful one. The extractor must not
        // silently inspect only the first block and miss the malicious shadow — a
        // duplicate definition is itself a structural anomaly the check must report.
        let shadow = r#"
    function rebalance(State[] prev_states, sig auth, int x, int y) : (State) {
        require(checkSig(auth, prev_states[0].owner));
        return({ pool_a_balance: prev_states[0].pool_a_balance + 999, pool_b_balance: prev_states[0].pool_b_balance, pool_c_balance: prev_states[0].pool_c_balance, owner: prev_states[0].owner });
    }
"#;
        // Insert the shadow just before the contract's closing brace.
        let mutated =
            INTERNAL_SPLIT_SIL_FAITHFUL.replacen("    }\n}", &format!("    }}\n{shadow}}}"), 1);
        assert_eq!(
            mutated.matches("function rebalance(").count(),
            2,
            "two rebalance blocks present"
        );
        let prog = parse(INTERNAL_SPLIT);
        match validate_translation(&prog, &mutated) {
            Correspondence::Diverges { reasons } => {
                assert!(
                    reasons.iter().any(|r| r.contains("rebalance")
                        && (r.contains("multiple") || r.contains("duplicate"))),
                    "must report the duplicate definition: {reasons:?}"
                );
            }
            Correspondence::Corresponds => {
                panic!("a duplicate same-name function block MUST diverge")
            }
        }
    }

    #[test]
    fn whitespace_shadow_function_block_diverges() {
        // DEFECT 1 (sweep): a second same-name `rebalance` block spelled with TWO
        // spaces (`function  rebalance(`) that drops the overdraw guard and mints
        // +999 must NOT evade the duplicate detector / extractor. A non-unique
        // entrypoint (regardless of inter-token whitespace) is a structural anomaly.
        let shadow = "
    function  rebalance(State[] prev_states, sig auth, int x, int y) : (State) {
        require(checkSig(auth, prev_states[0].owner));
        return({ pool_a_balance: prev_states[0].pool_a_balance + 999, pool_b_balance: prev_states[0].pool_b_balance, pool_c_balance: prev_states[0].pool_c_balance, owner: prev_states[0].owner });
    }
";
        let mutated =
            INTERNAL_SPLIT_SIL_FAITHFUL.replacen("    }\n}", &format!("    }}\n{shadow}}}"), 1);
        let prog = parse(INTERNAL_SPLIT);
        match validate_translation(&prog, &mutated) {
            Correspondence::Diverges { reasons } => {
                assert!(
                    reasons.iter().any(|r| r.contains("rebalance")
                        && (r.contains("multiple") || r.contains("duplicate"))),
                    "must report the whitespace-spelled duplicate definition: {reasons:?}"
                );
            }
            Correspondence::Corresponds => {
                panic!("a whitespace-spelled duplicate same-name block MUST diverge")
            }
        }
    }

    #[test]
    fn commented_out_require_does_not_count_as_a_live_guard() {
        // DEFECT 2 (sweep): dropping the LIVE overdraw guard but leaving a
        // commented-out `// require(x + y <= pool_a_balance);` must NOT let the
        // extractor harvest the commented text as a present guard. The model guard is
        // not enforced -> MUST DIVERGE naming the dropped guard.
        let mutated = INTERNAL_SPLIT_SIL_FAITHFUL.replace(
            "        require(x + y <= prev_states[0].pool_a_balance);\n",
            "        // require(x + y <= prev_states[0].pool_a_balance);\n",
        );
        assert!(
            mutated.contains("// require(x + y <="),
            "mutation must leave a commented-out guard"
        );
        let prog = parse(INTERNAL_SPLIT);
        match validate_translation(&prog, &mutated) {
            Correspondence::Diverges { reasons } => {
                assert!(
                    reasons
                        .iter()
                        .any(|r| r.contains("x + y <= pool_a_balance") && r.contains("dropped")),
                    "must name the dropped guard despite the comment: {reasons:?}"
                );
            }
            Correspondence::Corresponds => {
                panic!("a commented-out require MUST NOT count as a live guard (guard dropped)")
            }
        }
    }

    #[test]
    fn missing_function_block_diverges() {
        let prog = parse(INTERNAL_SPLIT);
        let empty = "pragma silverscript ^0.1.0;\ncontract InternalSplit() {}\n";
        match validate_translation(&prog, empty) {
            Correspondence::Diverges { reasons } => {
                assert!(
                    reasons[0].contains("no `function rebalance`"),
                    "{reasons:?}"
                );
            }
            Correspondence::Corresponds => panic!("a missing entrypoint block must diverge"),
        }
    }

