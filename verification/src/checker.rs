//! The checker: every structural, typing, clause, conservation,
//! authorization and refinement check over a program. A program passes
//! exactly when no check finds a violation; otherwise it is rejected with
//! one diagnostic per violation. Separately, [`warnings`] names declared
//! conservation invariants that match no field.

use vstd::prelude::*;
use crate::ast::{Invariant, Program, Role};
use crate::authority::{c2_count, c2_msgs, check_c2_authorization, check_supply_change, supply_count, supply_msgs};
use crate::clauses::{check_arg_shadowing, check_pays, check_reserved_and_duplicate_names, names_count, names_msgs, pays_count, pays_msgs, shadow_count, shadow_msgs};
use crate::conserve::{c1_count, c1_msgs, check_c1_value_conservation, check_conservation_split, split_count, split_msgs};
use crate::gates::{after_count, after_msgs, check_after, check_temporal_path_invariants, paths_count, paths_msgs};
use crate::lookup::{is_value_bearing, is_value_bearing_split, value_bearing, value_bearing_split};
use crate::model::{SApp, SInvariant, SRole, app_v, invariant_v, role_v};
use crate::refine::{Refinements, c3_count, c3_msgs, check_c3_refinements};
use crate::settle::{check_payout_bound, payout_count, payout_msgs};
use crate::structure::{
    Diagnostic, check_edge_modes, check_edge_refs, check_edge_returns, check_edge_states, check_flow,
    cat_to, concat, declares_value_conserved, extends, flow_count, flow_msgs, lemma_extends_refl,
    lemma_extends_trans, lemma_says_refl, lemma_says_step, lemma_says_trans, lemma_sum_step,
    lifecycle_count, msgs, says, sum_to, text_of,
};
use crate::text::str_eq;
use crate::typing::{check_role_exprs, role_type_count, role_type_msgs};

verus! {

broadcast use vstd::seq_lib::group_seq_properties;

// ── what the app declares ───────────────────────────────────────────────

/// The app declares `invariant name;` for a custom invariant `name`.
pub open spec fn declares_custom(a: SApp, name: Seq<char>) -> bool {
    exists|i: int| 0 <= i < a.invariants.len() && #[trigger] a.invariants[i] == SInvariant::Custom(name)
}

/// The refinements an app declares.
pub open spec fn refinements_of(a: SApp) -> Refinements {
    Refinements {
        monotonic_seq: declares_custom(a, "monotonic_seq"@),
        non_negative_amount: declares_custom(a, "non_negative_amount"@),
        bounded_supply: declares_custom(a, "bounded_supply"@),
        spending_cap: declares_custom(a, "spending_cap"@),
        multisig_threshold: declares_custom(a, "multisig_threshold"@),
        temporal_guard: declares_custom(a, "temporal_guard"@),
    }
}

/// Authorization is required of state-mutating transitions when the app
/// declares `value_conserved` or `authorized`.
pub open spec fn require_auth(a: SApp) -> bool {
    declares_value_conserved(a) || declares_custom(a, "authorized"@)
}

// ── the diagnostics ─────────────────────────────────────────────────────

/// The flow diagnostics: one per handoff naming an unknown role or
/// entrypoint.
pub open spec fn flow_diags(a: SApp) -> int {
    match a.flow {
        Some(f) => flow_count(f, a.roles),
        None => 0,
    }
}

/// The per-role clause diagnostics: shadowing arguments, ill-typed
/// expressions, `pays` and `after` clauses.
pub open spec fn role_clause_count(r: SRole) -> int {
    shadow_count(r) + role_type_count(r) + pays_count(r) + after_count(r)
}

/// The per-role rule diagnostics: reserved or repeated names, value
/// conservation, authorization, supply-change capabilities, refinements and
/// (when declared) the conservation split.
pub open spec fn role_rule_count(a: SApp, r: SRole) -> int {
    names_count(r) + c1_count(r, declares_value_conserved(a)) + c2_count(r, require_auth(a))
        + supply_count(a, r) + c3_count(r, refinements_of(a)) + if declares_custom(
        a,
        "conservation_split"@,
    ) {
        split_count(r)
    } else {
        0
    }
}

/// The number of diagnostics the checker reports for an app.
pub open spec fn diagnostic_count(a: SApp) -> int {
    lifecycle_count(a) + flow_diags(a) + sum_to(
        a.roles.len() as int,
        |i: int| role_clause_count(a.roles[i]),
    ) + paths_count(a) + (if declares_custom(a, "payout_bound"@) {
        payout_count(a)
    } else {
        0
    }) + sum_to(a.roles.len() as int, |i: int| role_rule_count(a, a.roles[i]))
}

/// Whether the app declares custom invariant `name`.
/// The messages of the flow check.
pub open spec fn flow_messages(a: SApp) -> Seq<Seq<char>> {
    match a.flow {
        Some(f) => flow_msgs(f, a.roles),
        None => seq![],
    }
}

/// The messages of the lifecycle and flow checks, in the order they run:
/// unresolved edges, the flow, then the mode, return and state checks of
/// the edges.
pub open spec fn structure_msgs(a: SApp) -> Seq<Seq<char>> {
    let n = a.lifecycle.len() as int;
    cat_to(n, |k: int| crate::structure::unresolved_msgs(a, k)) + flow_messages(a) + cat_to(
        n,
        |k: int| crate::structure::inconsistent_msgs(a, k),
    ) + (if declares_value_conserved(a) {
        cat_to(n, |k: int| crate::structure::unconserved_msgs(a, k))
    } else {
        seq![]
    }) + (if crate::structure::declares_no_undeclared_state(a) {
        cat_to(n, |k: int| crate::structure::dangling_msgs(a, k))
    } else {
        seq![]
    })
}

/// The messages of the per-role clause checks, in the order they run.
pub open spec fn role_clause_msgs(r: SRole) -> Seq<Seq<char>> {
    shadow_msgs(r) + role_type_msgs(r) + pays_msgs(r) + after_msgs(r)
}

/// The messages of the per-role rule checks, in the order they run.
pub open spec fn role_rule_msgs(a: SApp, r: SRole) -> Seq<Seq<char>> {
    names_msgs(r) + c1_msgs(r, declares_value_conserved(a)) + c2_msgs(r, require_auth(a)) + supply_msgs(a, r)
        + c3_msgs(r, refinements_of(a)) + if declares_custom(a, "conservation_split"@) {
        split_msgs(r)
    } else {
        seq![]
    }
}

/// The messages of every check, in the order the checks run: the
/// lifecycle, the flow, each role's clauses, the temporal-path invariants,
/// `payout_bound`, and each role's rules.
pub open spec fn diagnostic_msgs(a: SApp) -> Seq<Seq<char>> {
    structure_msgs(a) + cat_to(a.roles.len() as int, |i: int| role_clause_msgs(a.roles[i]))
        + paths_msgs(a) + (if declares_custom(a, "payout_bound"@) {
        payout_msgs(a)
    } else {
        seq![]
    }) + cat_to(a.roles.len() as int, |i: int| role_rule_msgs(a, a.roles[i]))
}

fn declares(program: &Program, name: &str) -> (b: bool)
    ensures
        b == declares_custom(app_v(program.app), name@),
{
    let ghost av = app_v(program.app);
    let invs = &program.app.invariants;
    let mut i: usize = 0;
    while i < invs.len()
        invariant
            av == app_v(program.app),
            invs == &program.app.invariants,
            i <= invs.len(),
            forall|q: int| 0 <= q < i ==> #[trigger] av.invariants[q] != SInvariant::Custom(name@),
        decreases invs.len() - i,
    {
        assert(av.invariants[i as int] == invariant_v(invs@[i as int]));
        match &invs[i] {
            Invariant::Custom(s) => {
                if str_eq(s.as_str(), name) {
                    return true;
                }
            },
            _ => {},
        }
        i += 1;
    }
    false
}

/// Whether the app declares `invariant value_conserved;`.
fn declares_conservation(program: &Program) -> (b: bool)
    ensures
        b == declares_value_conserved(app_v(program.app)),
{
    let ghost av = app_v(program.app);
    let invs = &program.app.invariants;
    let mut i: usize = 0;
    while i < invs.len()
        invariant
            av == app_v(program.app),
            invs == &program.app.invariants,
            i <= invs.len(),
            forall|q: int| 0 <= q < i ==> !(#[trigger] av.invariants[q] is ValueConserved),
        decreases invs.len() - i,
    {
        assert(av.invariants[i as int] == invariant_v(invs@[i as int]));
        match &invs[i] {
            Invariant::ValueConserved => {
                return true;
            },
            _ => {},
        }
        i += 1;
    }
    false
}

/// Runs the per-role clause checks.
fn role_clauses(role: &Role, diags: &mut Vec<Diagnostic>)
    ensures
        extends(old(diags)@, final(diags)@, role_clause_count(role_v(*role))),
        says(old(diags)@, final(diags)@, role_clause_msgs(role_v(*role))),
{
    let ghost rv = role_v(*role);
    let ghost s0 = diags@;
    check_arg_shadowing(role, diags);
    let ghost s1 = diags@;
    check_role_exprs(role, diags);
    let ghost s2 = diags@;
    check_pays(role, diags);
    let ghost s3 = diags@;
    check_after(role, diags);
    proof {
        lemma_extends_trans(s0, s1, s2, shadow_count(rv), role_type_count(rv));
        lemma_extends_trans(s0, s2, s3, shadow_count(rv) + role_type_count(rv), pays_count(rv));
        lemma_extends_trans(s0, s3, diags@, shadow_count(rv) + role_type_count(rv) + pays_count(rv), after_count(rv));
        lemma_says_trans(s0, s1, s2, shadow_msgs(rv), role_type_msgs(rv));
        lemma_says_trans(s0, s2, s3, shadow_msgs(rv) + role_type_msgs(rv), pays_msgs(rv));
        lemma_says_trans(s0, s3, diags@, shadow_msgs(rv) + role_type_msgs(rv) + pays_msgs(rv), after_msgs(rv));
    }
}

/// Runs the per-role rule checks.
fn role_rules(
    program: &Program,
    role: &Role,
    value_conserved: bool,
    auth: bool,
    w: Refinements,
    split: bool,
    diags: &mut Vec<Diagnostic>,
)
    requires
        value_conserved == declares_value_conserved(app_v(program.app)),
        auth == require_auth(app_v(program.app)),
        w == refinements_of(app_v(program.app)),
        split == declares_custom(app_v(program.app), "conservation_split"@),
    ensures
        extends(old(diags)@, final(diags)@, role_rule_count(app_v(program.app), role_v(*role))),
        says(old(diags)@, final(diags)@, role_rule_msgs(app_v(program.app), role_v(*role))),
{
    let ghost av = app_v(program.app);
    let ghost rv = role_v(*role);
    let ghost s0 = diags@;
    check_reserved_and_duplicate_names(role, diags);
    let ghost s1 = diags@;
    check_c1_value_conservation(role, value_conserved, diags);
    let ghost s2 = diags@;
    check_c2_authorization(role, auth, diags);
    let ghost s3 = diags@;
    check_supply_change(&program.app, role, diags);
    let ghost s4 = diags@;
    check_c3_refinements(role, w, diags);
    let ghost s5 = diags@;
    proof {
        lemma_extends_refl(diags@);
        lemma_says_refl(diags@);
    }
    if split {
        check_conservation_split(role, diags);
    }
    proof {
        let n1 = names_count(rv);
        let n2 = n1 + c1_count(rv, value_conserved);
        let n3 = n2 + c2_count(rv, auth);
        let n4 = n3 + supply_count(av, rv);
        let n5 = n4 + c3_count(rv, w);
        lemma_extends_trans(s0, s1, s2, n1, c1_count(rv, value_conserved));
        lemma_extends_trans(s0, s2, s3, n2, c2_count(rv, auth));
        lemma_extends_trans(s0, s3, s4, n3, supply_count(av, rv));
        lemma_extends_trans(s0, s4, s5, n4, c3_count(rv, w));
        lemma_extends_trans(s0, s5, diags@, n5, if split { split_count(rv) } else { 0 });
        let m1 = names_msgs(rv);
        let m2 = m1 + c1_msgs(rv, value_conserved);
        let m3 = m2 + c2_msgs(rv, auth);
        let m4 = m3 + supply_msgs(av, rv);
        let m5 = m4 + c3_msgs(rv, w);
        lemma_says_trans(s0, s1, s2, m1, c1_msgs(rv, value_conserved));
        lemma_says_trans(s0, s2, s3, m2, c2_msgs(rv, auth));
        lemma_says_trans(s0, s3, s4, m3, supply_msgs(av, rv));
        lemma_says_trans(s0, s4, s5, m4, c3_msgs(rv, w));
        lemma_says_trans(s0, s5, diags@, m5, if split { split_msgs(rv) } else { seq![] });
    }
}

/// Runs the lifecycle and flow checks.
fn lifecycle_and_flow(app: &crate::ast::App, diags: &mut Vec<Diagnostic>)
    ensures
        extends(old(diags)@, final(diags)@, lifecycle_count(app_v(*app)) + flow_diags(app_v(*app))),
        says(old(diags)@, final(diags)@, structure_msgs(app_v(*app))),
{
    let ghost av = app_v(*app);
    let ghost s0 = diags@;
    check_edge_refs(app, diags);
    let ghost s1 = diags@;
    let ghost n = av.lifecycle.len() as int;
    let ghost c1 = sum_to(n, |k: int| crate::structure::unresolved_edge(av, k));
    proof {
        lemma_extends_refl(diags@);
        lemma_says_refl(diags@);
    }
    match &app.flow {
        Some(f) => {
            assert(app.roles@.map_values(|x: crate::ast::Role| role_v(x)) =~= av.roles);
            check_flow(f, &app.roles, diags);
        },
        None => {},
    }
    let ghost s2 = diags@;
    check_edge_modes(app, diags);
    let ghost s3 = diags@;
    check_edge_returns(app, diags);
    let ghost s4 = diags@;
    check_edge_states(app, diags);
    let ghost c2 = sum_to(n, |k: int| crate::structure::inconsistent_edge(av, k));
    let ghost c3 = if declares_value_conserved(av) { sum_to(n, |k: int| crate::structure::unconserved_edge(av, k)) } else { 0 };
    let ghost c4 = if crate::structure::declares_no_undeclared_state(av) { sum_to(n, |k: int| crate::structure::dangling_edge(av, k)) } else { 0 };
    proof {
        lemma_extends_trans(s0, s1, s2, c1, flow_diags(av));
        lemma_extends_trans(s0, s2, s3, c1 + flow_diags(av), c2);
        lemma_extends_trans(s0, s3, s4, c1 + flow_diags(av) + c2, c3);
        lemma_extends_trans(s0, s4, diags@, c1 + flow_diags(av) + c2 + c3, c4);
        assert(lifecycle_count(av) == c1 + c2 + c3 + c4);
        let u1 = cat_to(n, |k: int| crate::structure::unresolved_msgs(av, k));
        let u2 = cat_to(n, |k: int| crate::structure::inconsistent_msgs(av, k));
        let u3 = if declares_value_conserved(av) { cat_to(n, |k: int| crate::structure::unconserved_msgs(av, k)) } else { seq![] };
        let u4 = if crate::structure::declares_no_undeclared_state(av) { cat_to(n, |k: int| crate::structure::dangling_msgs(av, k)) } else { seq![] };
        lemma_says_trans(s0, s1, s2, u1, flow_messages(av));
        lemma_says_trans(s0, s2, s3, u1 + flow_messages(av), u2);
        lemma_says_trans(s0, s3, s4, u1 + flow_messages(av) + u2, u3);
        lemma_says_trans(s0, s4, diags@, u1 + flow_messages(av) + u2 + u3, u4);
        assert(u1 + flow_messages(av) + u2 + u3 + u4 =~= structure_msgs(av));
    }
}

/// Runs the clause checks of every role.
fn all_role_clauses(app: &crate::ast::App, diags: &mut Vec<Diagnostic>)
    ensures
        extends(old(diags)@, final(diags)@, sum_to(app.roles.len() as int, |q: int| role_clause_count(app_v(*app).roles[q]))),
        says(old(diags)@, final(diags)@, cat_to(app.roles.len() as int, |q: int| role_clause_msgs(app_v(*app).roles[q]))),
{
    let ghost av = app_v(*app);
    let ghost s0 = diags@;
    let ghost gc = |q: int| role_clause_msgs(av.roles[q]);
    proof {
        lemma_extends_refl(diags@);
        lemma_says_refl(diags@);
    }
    let mut i: usize = 0;
    while i < app.roles.len()
        invariant
            av == app_v(*app),
            i <= app.roles.len(),
            extends(s0, diags@, sum_to(i as int, |q: int| role_clause_count(av.roles[q]))),
            gc == (|q: int| role_clause_msgs(av.roles[q])),
            says(s0, diags@, cat_to(i as int, gc)),
        decreases app.roles.len() - i,
    {
        let role = &app.roles[i];
        assert(av.roles[i as int] == role_v(*role));
        let ghost mid = diags@;
        role_clauses(role, diags);
        proof {
            lemma_says_step(s0, mid, diags@, gc, i as int);
            lemma_sum_step(i as int, |q: int| role_clause_count(av.roles[q]));
            lemma_extends_trans(s0, mid, diags@, sum_to(i as int, |q: int| role_clause_count(av.roles[q])), role_clause_count(role_v(*role)));
        }
        i += 1;
    }
}

/// Runs the rule checks of every role.
fn all_role_rules(program: &Program, diags: &mut Vec<Diagnostic>)
    ensures
        extends(old(diags)@, final(diags)@, sum_to(program.app.roles.len() as int, |q: int| role_rule_count(app_v(program.app), app_v(program.app).roles[q]))),
        says(old(diags)@, final(diags)@, cat_to(program.app.roles.len() as int, |q: int| role_rule_msgs(app_v(program.app), app_v(program.app).roles[q]))),
{
    let app = &program.app;
    let ghost av = app_v(*app);
    let ghost s0 = diags@;
    let ghost gr = |q: int| role_rule_msgs(av, av.roles[q]);
    proof {
        lemma_extends_refl(diags@);
        lemma_says_refl(diags@);
    }
    let value_conserved = declares_conservation(program);
    let auth = value_conserved || declares(program, "authorized");
    let w = Refinements {
        monotonic_seq: declares(program, "monotonic_seq"),
        non_negative_amount: declares(program, "non_negative_amount"),
        bounded_supply: declares(program, "bounded_supply"),
        spending_cap: declares(program, "spending_cap"),
        multisig_threshold: declares(program, "multisig_threshold"),
        temporal_guard: declares(program, "temporal_guard"),
    };
    let split = declares(program, "conservation_split");
    let mut i: usize = 0;
    while i < app.roles.len()
        invariant
            av == app_v(*app),
            app == &program.app,
            i <= app.roles.len(),
            value_conserved == declares_value_conserved(av),
            auth == require_auth(av),
            w == refinements_of(av),
            split == declares_custom(av, "conservation_split"@),
            extends(s0, diags@, sum_to(i as int, |q: int| role_rule_count(av, av.roles[q]))),
            gr == (|q: int| role_rule_msgs(av, av.roles[q])),
            says(s0, diags@, cat_to(i as int, gr)),
        decreases app.roles.len() - i,
    {
        let role = &app.roles[i];
        assert(av.roles[i as int] == role_v(*role));
        let ghost mid = diags@;
        role_rules(program, role, value_conserved, auth, w, split, diags);
        proof {
            lemma_says_step(s0, mid, diags@, gr, i as int);
            lemma_sum_step(i as int, |q: int| role_rule_count(av, av.roles[q]));
            lemma_extends_trans(s0, mid, diags@, sum_to(i as int, |q: int| role_rule_count(av, av.roles[q])), role_rule_count(av, role_v(*role)));
        }
        i += 1;
    }
}

/// Runs every check on `program`: `Ok` exactly when no check finds a
/// violation, otherwise `Err` with one diagnostic per violation, whose
/// messages are those of every check in the order the checks run.
pub fn check(program: &Program) -> (r: Result<(), Vec<Diagnostic>>)
    ensures
        match r {
            Ok(()) => diagnostic_count(app_v(program.app)) == 0,
            Err(v) => v.len() == diagnostic_count(app_v(program.app)) && v.len() > 0
                && msgs(v@) == diagnostic_msgs(app_v(program.app)),
        },
{
    let app = &program.app;
    let ghost av = app_v(*app);
    let ghost nr = av.roles.len() as int;
    let mut diags: Vec<Diagnostic> = Vec::new();
    let ghost s0 = diags@;
    lifecycle_and_flow(app, &mut diags);
    let ghost s1 = diags@;
    all_role_clauses(app, &mut diags);
    let ghost s2 = diags@;
    check_temporal_path_invariants(app, &mut diags);
    let ghost s3 = diags@;
    proof {
        lemma_extends_refl(diags@);
        lemma_says_refl(diags@);
    }
    let payout = declares(program, "payout_bound");
    if payout {
        check_payout_bound(app, &mut diags);
    }
    let ghost s4 = diags@;
    all_role_rules(program, &mut diags);
    proof {
        let k1 = lifecycle_count(av) + flow_diags(av);
        let k2 = sum_to(nr, |q: int| role_clause_count(av.roles[q]));
        let k4 = if payout { payout_count(av) } else { 0 };
        let k5 = sum_to(nr, |q: int| role_rule_count(av, av.roles[q]));
        lemma_extends_trans(s0, s1, s2, k1, k2);
        lemma_extends_trans(s0, s2, s3, k1 + k2, paths_count(av));
        lemma_extends_trans(s0, s3, s4, k1 + k2 + paths_count(av), k4);
        lemma_extends_trans(s0, s4, diags@, k1 + k2 + paths_count(av) + k4, k5);
        let m1 = structure_msgs(av);
        let m2 = cat_to(nr, |q: int| role_clause_msgs(av.roles[q]));
        let m4 = if payout { payout_msgs(av) } else { seq![] };
        let m5 = cat_to(nr, |q: int| role_rule_msgs(av, av.roles[q]));
        lemma_says_trans(s0, s1, s2, m1, m2);
        lemma_says_trans(s0, s2, s3, m1 + m2, paths_msgs(av));
        lemma_says_trans(s0, s3, s4, m1 + m2 + paths_msgs(av), m4);
        lemma_says_trans(s0, s4, diags@, m1 + m2 + paths_msgs(av) + m4, m5);
        assert(msgs(s0) =~= Seq::<Seq<char>>::empty());
        assert(msgs(s0) + (m1 + m2 + paths_msgs(av) + m4 + m5) =~= diagnostic_msgs(av));
    }
    if diags.len() == 0 {
        Ok(())
    } else {
        Err(diags)
    }
}

// ── vacuity warnings ────────────────────────────────────────────────────

/// Some state field of the role is value-bearing (by the split rule when
/// `split`).
pub open spec fn has_value_field(r: SRole, split: bool) -> bool {
    exists|j: int|
        0 <= j < r.state.len() && if split {
            value_bearing_split(r.state[j].name, (#[trigger] r.state[j]).ty)
        } else {
            value_bearing(r.state[j].name, r.state[j].ty)
        }
}

/// The warning that invariant `inv` of role `role` matches no field under
/// the field rule `rule`.
pub open spec fn vacuity_text(role: Seq<char>, inv: Seq<char>, rule: Seq<char>) -> Seq<char> {
    "warning: `"@ + role + "`: invariant `"@ + inv
        + "` is declared but NO state field on this role is value-bearing, so it checks nothing and still reports ok. A field is value-bearing only if it is "@
        + rule
        + ". Rename the field this invariant is meant to protect, or drop the invariant \u{2014} a declared guarantee that matches no field is an overclaim."@
}

/// The warnings of one role.
pub open spec fn role_warnings(r: SRole, value_conserved: bool, split: bool) -> Seq<Seq<char>> {
    (if value_conserved && !has_value_field(r, false) {
        seq![vacuity_text(r.name, "value_conserved"@, "typed `coin`, or named exactly `balance`, `amount`, or `supply`"@)]
    } else {
        Seq::empty()
    }) + (if split && !has_value_field(r, true) {
        seq![vacuity_text(r.name, "conservation_split"@, "typed `coin`, named exactly `balance`, `amount`, or `supply`, or ending in `balance`"@)]
    } else {
        Seq::empty()
    })
}

/// The warnings of the first `k` roles, in order.
pub open spec fn app_warnings(a: SApp, k: int) -> Seq<Seq<char>>
    decreases k,
{
    if k <= 0 || k > a.roles.len() {
        Seq::empty()
    } else {
        app_warnings(a, k - 1) + role_warnings(
            a.roles[k - 1],
            declares_value_conserved(a),
            declares_custom(a, "conservation_split"@),
        )
    }
}

/// Whether some state field of `role` is value-bearing.
fn any_value_field(role: &Role, split: bool) -> (b: bool)
    ensures
        b == has_value_field(role_v(*role), split),
{
    let ghost rv = role_v(*role);
    let mut j: usize = 0;
    while j < role.state.len()
        invariant
            rv == role_v(*role),
            j <= role.state.len(),
            forall|q: int|
                0 <= q < j ==> !(if split {
                    value_bearing_split(rv.state[q].name, (#[trigger] rv.state[q]).ty)
                } else {
                    value_bearing(rv.state[q].name, rv.state[q].ty)
                }),
        decreases role.state.len() - j,
    {
        let f = &role.state[j];
        assert(rv.state[j as int] == crate::model::field_v(*f));
        let hit = if split {
            is_value_bearing_split(f.name.as_str(), &f.ty)
        } else {
            is_value_bearing(f.name.as_str(), &f.ty)
        };
        if hit {
            return true;
        }
        j += 1;
    }
    false
}

/// The vacuity warning text.
fn vacuity_warning(role: &Role, inv: &str, rule: &str) -> (s: String)
    ensures
        s@ == vacuity_text(role.name@, inv@, rule@),
{
    let v = vec![
        "warning: `",
        role.name.as_str(),
        "`: invariant `",
        inv,
        "` is declared but NO state field on this role is value-bearing, so it checks nothing and still reports ok. A field is value-bearing only if it is ",
        rule,
        ". Rename the field this invariant is meant to protect, or drop the invariant \u{2014} a declared guarantee that matches no field is an overclaim.",
    ];
    proof {
        reveal_with_fuel(concat, 8);
    }
    text_of(v)
}

/// Warnings about declared conservation invariants that match no
/// value-bearing field of a role: such an invariant checks nothing yet
/// reports ok. They do not reject the program.
pub fn warnings(program: &Program) -> (out: Vec<String>)
    ensures
        crate::model::strs_v(out@) == app_warnings(app_v(program.app), program.app.roles.len() as int),
{
    let app = &program.app;
    let ghost av = app_v(*app);
    let value_conserved = declares_conservation(program);
    let split = declares(program, "conservation_split");
    let mut out: Vec<String> = Vec::new();
    assert(crate::model::strs_v(out@) =~= app_warnings(av, 0));
    let mut i: usize = 0;
    while i < app.roles.len()
        invariant
            av == app_v(*app),
            i <= app.roles.len(),
            value_conserved == declares_value_conserved(av),
            split == declares_custom(av, "conservation_split"@),
            crate::model::strs_v(out@) == app_warnings(av, i as int),
        decreases app.roles.len() - i,
    {
        let role = &app.roles[i];
        assert(av.roles[i as int] == role_v(*role));
        let ghost before = crate::model::strs_v(out@);
        if value_conserved && !any_value_field(role, false) {
            out.push(vacuity_warning(role, "value_conserved", "typed `coin`, or named exactly `balance`, `amount`, or `supply`"));
        }
        let ghost mid = crate::model::strs_v(out@);
        if split && !any_value_field(role, true) {
            out.push(vacuity_warning(role, "conservation_split", "typed `coin`, named exactly `balance`, `amount`, or `supply`, or ending in `balance`"));
        }
        assert(crate::model::strs_v(out@) =~= before + role_warnings(role_v(*role), value_conserved, split));
        i += 1;
    }
    out
}

} // verus!
