//! Opt-in refinements, each a structural shape match on the guards and
//! returns of a transition, enabled by a custom invariant:
//! `monotonic_seq` (`seq` advances by one), `non_negative_amount`
//! (`require amount >= 0`), `bounded_supply` (`require supply + amount <=
//! total`), `spending_cap` (`require amount <= limit`), `multisig_threshold`
//! (at least two committed keys forced to sign) and `temporal_guard` (some
//! state-mutating transition gates on committed time).

use vstd::prelude::*;
use crate::adjust::{asserts_non_negative, is_var, non_negative};
use crate::ast::{AfterDeadline, BinOp, CovenantMode, Entry, Expr, ReturnExpr, Role, Stmt, Type};
use crate::authority::{entry_mutates, guaranteed_committed_signers, mutates, prev_state_field, signers};
use crate::gates::{is_time_atom, time_atom};
use crate::model::{
    SDeadline, SEntry, SExpr, SReturn, SRole, SStmt, SType, entry_v, expr_v, pairs_v, role_v,
    stmt_v,
};
use crate::structure::{Diagnostic, cat_to, extends, lemma_extends_refl, lemma_extends_trans, lemma_says_push, lemma_says_refl, lemma_says_step, lemma_sum_step, says, sum_to, text_of};
use crate::text::str_eq;
use crate::typing::report;

verus! {

broadcast use vstd::seq_lib::group_seq_properties;

/// Which refinements an app declares.
#[derive(Clone, Copy)]
pub struct Refinements {
    pub monotonic_seq: bool,
    pub non_negative_amount: bool,
    pub bounded_supply: bool,
    pub spending_cap: bool,
    pub multisig_threshold: bool,
    pub temporal_guard: bool,
}

// ── shapes ──────────────────────────────────────────────────────────────

/// The role declares a state field `n`.
pub open spec fn has_state_field(r: SRole, n: Seq<char>) -> bool {
    exists|j: int| 0 <= j < r.state.len() && #[trigger] r.state[j].name == n
}

/// The role commits a `limit` (state field or param).
pub open spec fn has_limit(r: SRole) -> bool {
    has_state_field(r, "limit"@) || exists|j: int|
        0 <= j < r.params.len() && #[trigger] r.params[j].name == "limit"@
}

/// The entrypoint takes an int `amount` argument.
pub open spec fn int_amount_arg(e: SEntry) -> bool {
    exists|i: int|
        0 <= i < e.args.len() && #[trigger] e.args[i].name == "amount"@ && e.args[i].ty == SType::Int
}

/// The entrypoint has an object return.
pub open spec fn object_return(e: SEntry) -> bool {
    exists|k: int|
        0 <= k < e.body.len() && #[trigger] e.body[k] is Return && (e.body[k]->Return_0 is Object)
}

/// `seq + 1`.
pub open spec fn seq_plus_one(x: SExpr) -> bool {
    x == SExpr::Binary(BinOp::Add, Box::new(SExpr::Var("seq"@)), Box::new(SExpr::Int(1)))
}

/// Statement `s` advances `seq` by one: a return field `seq: seq + 1`, or a
/// guard `x == seq + 1` (either side).
pub open spec fn advances_seq(s: SStmt) -> bool {
    match s {
        SStmt::Return(SReturn::Object(_, fs)) => exists|i: int|
            0 <= i < fs.len() && #[trigger] fs[i].0 == "seq"@ && seq_plus_one(fs[i].1),
        SStmt::Require(SExpr::Binary(op, l, r)) => op == BinOp::Eq && (seq_plus_one(*l)
            || seq_plus_one(*r)),
        _ => false,
    }
}

/// `supply + amount`, in either order.
pub open spec fn supply_plus_amount(x: SExpr) -> bool {
    match x {
        SExpr::Binary(op, l, r) => op == BinOp::Add && ((*l == SExpr::Var("supply"@) && *r
            == SExpr::Var("amount"@)) || (*l == SExpr::Var("amount"@) && *r == SExpr::Var(
            "supply"@,
        ))),
        _ => false,
    }
}

/// A guard `supply + amount <= total` (or `total >= supply + amount`).
pub open spec fn bounds_supply(s: SStmt) -> bool {
    match s {
        SStmt::Require(SExpr::Binary(op, l, r)) => (op == BinOp::Le && supply_plus_amount(*l)
            && *r == SExpr::Var("total"@)) || (op == BinOp::Ge && *l == SExpr::Var("total"@)
            && supply_plus_amount(*r)),
        _ => false,
    }
}

/// A committed cap: `limit`, or `prev_states[i].limit`.
pub open spec fn committed_limit(x: SExpr) -> bool {
    x == SExpr::Var("limit"@) || ((x is Field) && x->Field_1 == "limit"@ && prev_state_field(x))
}

/// A guard `amount <= limit` (or `limit >= amount`).
pub open spec fn caps_amount(s: SStmt) -> bool {
    match s {
        SStmt::Require(SExpr::Binary(op, l, r)) => (op == BinOp::Le && *l == SExpr::Var(
            "amount"@,
        ) && committed_limit(*r)) || (op == BinOp::Ge && committed_limit(*l) && *r
            == SExpr::Var("amount"@)),
        _ => false,
    }
}

/// A committed time operand: a committed time field, or one of a prior
/// state.
pub open spec fn time_operand(r: SRole, x: SExpr) -> bool {
    match x {
        SExpr::Var(n) => time_atom(r, n),
        SExpr::Field(_, f) => time_atom(r, f) && prev_state_field(x),
        _ => false,
    }
}

/// A committed time: one time operand, or the sum of two.
pub open spec fn committed_time(r: SRole, x: SExpr) -> bool {
    time_operand(r, x) || match x {
        SExpr::Binary(op, l, rr) => op == BinOp::Add && time_operand(r, *l) && time_operand(r, *rr),
        _ => false,
    }
}

/// Statement `s` gates on committed time: `after(...)` over committed time
/// fields, or `require now_bucket >= <committed time>` (either way round).
pub open spec fn time_gate(r: SRole, s: SStmt) -> bool {
    match s {
        SStmt::After(SDeadline::Field(f)) => time_atom(r, f),
        SStmt::After(SDeadline::Sum(a, b)) => time_atom(r, a) && time_atom(r, b),
        SStmt::Require(SExpr::Binary(op, l, rr)) => (op == BinOp::Ge && *l == SExpr::Var(
            "now_bucket"@,
        ) && committed_time(r, *rr)) || (op == BinOp::Le && committed_time(r, *l) && *rr
            == SExpr::Var("now_bucket"@)),
        _ => false,
    }
}

/// Some statement of the entrypoint satisfies `p`.
pub open spec fn some_stmt(e: SEntry, p: spec_fn(SStmt) -> bool) -> bool {
    exists|k: int| 0 <= k < e.body.len() && p(#[trigger] e.body[k])
}

/// The role has a state-mutating transition that gates on committed time.
pub open spec fn gated(r: SRole) -> bool {
    exists|j: int|
        0 <= j < r.entrypoints.len() && (#[trigger] r.entrypoints[j]).mode == CovenantMode::Transition
            && mutates(r, r.entrypoints[j]) && some_stmt(r.entrypoints[j], |s: SStmt| time_gate(r, s))
}

// ── counts ──────────────────────────────────────────────────────────────

pub open spec fn flag(b: bool) -> int {
    if b {
        1
    } else {
        0
    }
}

/// The refinement diagnostics of one transition.
pub open spec fn c3_entry_count(r: SRole, e: SEntry, w: Refinements) -> int {
    if e.mode != CovenantMode::Transition {
        0
    } else {
        flag(w.monotonic_seq && has_state_field(r, "seq"@) && object_return(e) && !some_stmt(
            e,
            |s: SStmt| advances_seq(s),
        )) + flag(w.non_negative_amount && int_amount_arg(e) && !asserts_non_negative(
            e,
            "amount"@,
        )) + flag(w.bounded_supply && has_state_field(r, "supply"@) && has_state_field(
            r,
            "total"@,
        ) && int_amount_arg(e) && !some_stmt(e, |s: SStmt| bounds_supply(s))) + flag(
            w.spending_cap && int_amount_arg(e) && has_limit(r) && !some_stmt(
                e,
                |s: SStmt| caps_amount(s),
            ),
        ) + flag(w.multisig_threshold && mutates(r, e) && signers(r, e) < 2)
    }
}

/// The refinement diagnostics of a role: per transition, plus one when
/// `temporal_guard` is declared and no mutating transition gates on time.
pub open spec fn c3_count(r: SRole, w: Refinements) -> int {
    sum_to(r.entrypoints.len() as int, |j: int| c3_entry_count(r, r.entrypoints[j], w)) + flag(
        w.temporal_guard && !gated(r),
    )
}

/// `seq![m]` when `b`, else nothing.
pub open spec fn said_if(b: bool, m: Seq<char>) -> Seq<Seq<char>> {
    if b {
        seq![m]
    } else {
        seq![]
    }
}

/// `` `role.entry`: what ``.
pub open spec fn violation_text(r: SRole, e: SEntry, what: Seq<char>) -> Seq<char> {
    "`"@ + r.name + "."@ + e.name + "`: "@ + what
}

/// The refinement messages of one transition, in the order of
/// [`c3_entry_count`].
pub open spec fn c3_entry_msgs(r: SRole, e: SEntry, w: Refinements) -> Seq<Seq<char>> {
    if e.mode != CovenantMode::Transition {
        seq![]
    } else {
        said_if(
            w.monotonic_seq && has_state_field(r, "seq"@) && object_return(e) && !some_stmt(e, |s: SStmt| advances_seq(s)),
            violation_text(r, e, "invariant `monotonic_seq` violated: state-mutating transition does not advance `seq` by exactly one (expected `seq: seq + 1` in the return or a `require <next> == seq + 1`)"@),
        ) + said_if(
            w.non_negative_amount && int_amount_arg(e) && !asserts_non_negative(e, "amount"@),
            violation_text(r, e, "invariant `non_negative_amount` violated: int `amount` is taken but never bounded non-negative (expected `require amount >= 0`)"@),
        ) + said_if(
            w.bounded_supply && has_state_field(r, "supply"@) && has_state_field(r, "total"@) && int_amount_arg(e)
                && !some_stmt(e, |s: SStmt| bounds_supply(s)),
            violation_text(r, e, "invariant `bounded_supply` violated: the cumulative draw is not bounded by the committed ceiling (expected `require supply + amount <= total`)"@),
        ) + said_if(
            w.spending_cap && int_amount_arg(e) && has_limit(r) && !some_stmt(e, |s: SStmt| caps_amount(s)),
            violation_text(r, e, "invariant `spending_cap` violated: int `amount` is taken but is not bounded by a committed cap (expected `require amount <= limit` where `limit` is a committed state field or role param)"@),
        ) + said_if(w.multisig_threshold && mutates(r, e) && signers(r, e) < 2, violation_text(r, e, "invariant `multisig_threshold` violated: fewer than 2 distinct committed keys are GUARANTEED to sign on every satisfying path (a `||` arm that forces only one key, a negated checkSig, or a caller-supplied pubkey drops the threshold); expected at least two distinct committed keys forced on every path, e.g. `checkSig(a, signer_a) && checkSig(b, signer_b)` or a disjunction whose every arm binds two committed keys"@))
    }
}

/// The refinement messages of a role, in the order of [`c3_count`].
pub open spec fn c3_msgs(r: SRole, w: Refinements) -> Seq<Seq<char>> {
    cat_to(r.entrypoints.len() as int, |j: int| c3_entry_msgs(r, r.entrypoints[j], w)) + said_if(
        w.temporal_guard && !gated(r),
        "role `"@ + r.name + "`: invariant `temporal_guard` violated: no state-mutating transition asserts a committed-time gate (expected at least one transition to `require now_bucket >= <committed deadline>` or `require now_bucket >= last_active + timeout`)"@,
    )
}

// ── executable shapes ───────────────────────────────────────────────────

/// Whether `role` declares a state field `n`.
pub(crate) fn state_field_named(role: &Role, n: &str) -> (b: bool)
    ensures
        b == has_state_field(role_v(*role), n@),
{
    let ghost rv = role_v(*role);
    let mut j: usize = 0;
    while j < role.state.len()
        invariant
            rv == role_v(*role),
            j <= role.state.len(),
            forall|q: int| 0 <= q < j ==> #[trigger] rv.state[q].name != n@,
        decreases role.state.len() - j,
    {
        assert(rv.state[j as int] == crate::model::field_v(role.state@[j as int]));
        if str_eq(role.state[j].name.as_str(), n) {
            assert(rv.state[j as int].name == n@);
            return true;
        }
        j += 1;
    }
    false
}

/// Whether `role` commits a `limit`.
pub(crate) fn commits_limit(role: &Role) -> (b: bool)
    ensures
        b == has_limit(role_v(*role)),
{
    let ghost rv = role_v(*role);
    if state_field_named(role, "limit") {
        return true;
    }
    let mut j: usize = 0;
    while j < role.params.len()
        invariant
            rv == role_v(*role),
            j <= role.params.len(),
            forall|q: int| 0 <= q < j ==> #[trigger] rv.params[q].name != "limit"@,
        decreases role.params.len() - j,
    {
        assert(rv.params[j as int] == crate::model::param_v(role.params@[j as int]));
        if str_eq(role.params[j].name.as_str(), "limit") {
            assert(rv.params[j as int].name == "limit"@);
            return true;
        }
        j += 1;
    }
    false
}

/// Whether `entry` takes an int `amount` argument.
pub(crate) fn takes_int_amount(entry: &Entry) -> (b: bool)
    ensures
        b == int_amount_arg(entry_v(*entry)),
{
    let ghost ev = entry_v(*entry);
    let mut i: usize = 0;
    while i < entry.args.len()
        invariant
            ev == entry_v(*entry),
            i <= entry.args.len(),
            forall|q: int|
                0 <= q < i ==> !(#[trigger] ev.args[q].name == "amount"@ && ev.args[q].ty == SType::Int),
        decreases entry.args.len() - i,
    {
        assert(ev.args[i as int] == crate::model::param_v(entry.args@[i as int]));
        let a = &entry.args[i];
        let int_ty = match a.ty {
            Type::Int => true,
            _ => false,
        };
        if int_ty && str_eq(a.name.as_str(), "amount") {
            assert(ev.args[i as int].name == "amount"@ && ev.args[i as int].ty == SType::Int);
            return true;
        }
        i += 1;
    }
    false
}

/// Whether `x` is `seq + 1`.
fn is_seq_plus_one(x: &Expr) -> (b: bool)
    ensures
        b == seq_plus_one(expr_v(*x)),
{
    match x {
        Expr::Binary { op: BinOp::Add, lhs, rhs } => {
            let one = match &**rhs {
                Expr::Int(n) => {
                    assert(expr_v(**rhs) == SExpr::Int(*n));
                    *n == 1
                },
                _ => false,
            };
            is_var(lhs, "seq") && one
        },
        _ => false,
    }
}

/// Whether `x` is `supply + amount` in either order.
fn is_supply_plus_amount(x: &Expr) -> (b: bool)
    ensures
        b == supply_plus_amount(expr_v(*x)),
{
    match x {
        Expr::Binary { op: BinOp::Add, lhs, rhs } => (is_var(lhs, "supply") && is_var(rhs, "amount"))
            || (is_var(lhs, "amount") && is_var(rhs, "supply")),
        _ => false,
    }
}

/// Whether `x` is a field of a prior state.
fn is_prior_field(x: &Expr) -> (b: bool)
    ensures
        b == prev_state_field(expr_v(*x)),
{
    match x {
        Expr::Field { base, .. } => {
            assert(expr_v(*x) == SExpr::Field(Box::new(expr_v(**base)), expr_v(*x)->Field_1));
            match &**base {
                Expr::Index { base: arr, index } => {
                    assert(expr_v(**base) == SExpr::Index(Box::new(expr_v(**arr)), Box::new(expr_v(**index))));
                    is_var(arr, "prev_states")
                },
                _ => false,
            }
        },
        _ => false,
    }
}

/// Whether `x` is a committed cap.
fn is_committed_limit(x: &Expr) -> (b: bool)
    ensures
        b == committed_limit(expr_v(*x)),
{
    if is_var(x, "limit") {
        return true;
    }
    match x {
        Expr::Field { field, .. } => str_eq(field.as_str(), "limit") && is_prior_field(x),
        _ => false,
    }
}

/// Whether `x` is a committed time operand of `role`.
fn is_time_operand(role: &Role, x: &Expr) -> (b: bool)
    ensures
        b == time_operand(role_v(*role), expr_v(*x)),
{
    match x {
        Expr::Var(n) => is_time_atom(role, n),
        Expr::Field { field, .. } => is_time_atom(role, field) && is_prior_field(x),
        _ => false,
    }
}

/// Whether `x` is a committed time of `role`.
fn is_committed_time(role: &Role, x: &Expr) -> (b: bool)
    ensures
        b == committed_time(role_v(*role), expr_v(*x)),
{
    if is_time_operand(role, x) {
        return true;
    }
    match x {
        Expr::Binary { op: BinOp::Add, lhs, rhs } => is_time_operand(role, lhs) && is_time_operand(role, rhs),
        _ => false,
    }
}

/// Whether `s` advances `seq` by one.
#[verifier::loop_isolation(false)]
fn stmt_advances_seq(s: &Stmt) -> (b: bool)
    ensures
        b == advances_seq(stmt_v(*s)),
{
    match s {
        Stmt::Return(ReturnExpr::Object { fields, .. }) => {
            let ghost fv = pairs_v(fields@);
            let mut i: usize = 0;
            while i < fields.len()
                invariant
                    fv == pairs_v(fields@),
                    i <= fields.len(),
                    forall|q: int| 0 <= q < i ==> !(#[trigger] fv[q].0 == "seq"@ && seq_plus_one(fv[q].1)),
                decreases fields.len() - i,
            {
                if str_eq(fields[i].0.as_str(), "seq") && is_seq_plus_one(&fields[i].1) {
                    assert(fv[i as int].0 == "seq"@ && seq_plus_one(fv[i as int].1));
                    assert(stmt_v(*s)->Return_0->Object_1 == fv);
                    return true;
                }
                i += 1;
            }
            false
        },
        Stmt::Require(Expr::Binary { op: BinOp::Eq, lhs, rhs }) => is_seq_plus_one(lhs) || is_seq_plus_one(rhs),
        _ => false,
    }
}

/// Whether `s` bounds the supply by the total.
fn stmt_bounds_supply(s: &Stmt) -> (b: bool)
    ensures
        b == bounds_supply(stmt_v(*s)),
{
    match s {
        Stmt::Require(Expr::Binary { op, lhs, rhs }) => match op {
            BinOp::Le => is_supply_plus_amount(lhs) && is_var(rhs, "total"),
            BinOp::Ge => is_var(lhs, "total") && is_supply_plus_amount(rhs),
            _ => false,
        },
        _ => false,
    }
}

/// Whether `s` caps the amount by a committed limit.
fn stmt_caps_amount(s: &Stmt) -> (b: bool)
    ensures
        b == caps_amount(stmt_v(*s)),
{
    match s {
        Stmt::Require(Expr::Binary { op, lhs, rhs }) => match op {
            BinOp::Le => is_var(lhs, "amount") && is_committed_limit(rhs),
            BinOp::Ge => is_committed_limit(lhs) && is_var(rhs, "amount"),
            _ => false,
        },
        _ => false,
    }
}

/// Whether `s` gates on committed time of `role`.
fn stmt_time_gate(role: &Role, s: &Stmt) -> (b: bool)
    ensures
        b == time_gate(role_v(*role), stmt_v(*s)),
{
    match s {
        Stmt::After { deadline } => match deadline {
            AfterDeadline::Field(f) => is_time_atom(role, f),
            AfterDeadline::Sum(a, b) => is_time_atom(role, a) && is_time_atom(role, b),
        },
        Stmt::Require(Expr::Binary { op, lhs, rhs }) => match op {
            BinOp::Ge => is_var(lhs, "now_bucket") && is_committed_time(role, rhs),
            BinOp::Le => is_committed_time(role, lhs) && is_var(rhs, "now_bucket"),
            _ => false,
        },
        _ => false,
    }
}

/// Which of the statement shapes a search looks for.
enum Shape {
    AdvancesSeq,
    BoundsSupply,
    CapsAmount,
    TimeGate,
    ObjectReturn,
}

pub open spec fn object_stmt(s: SStmt) -> bool {
    (s is Return) && (s->Return_0 is Object)
}

spec fn shape_holds(r: SRole, w: Shape, s: SStmt) -> bool {
    match w {
        Shape::AdvancesSeq => advances_seq(s),
        Shape::BoundsSupply => bounds_supply(s),
        Shape::CapsAmount => caps_amount(s),
        Shape::TimeGate => time_gate(r, s),
        Shape::ObjectReturn => object_stmt(s),
    }
}

/// Whether some statement of `entry` has shape `w`.
fn any_stmt(role: &Role, entry: &Entry, w: Shape) -> (b: bool)
    ensures
        b == exists|k: int|
            0 <= k < entry_v(*entry).body.len() && shape_holds(
                role_v(*role),
                w,
                #[trigger] entry_v(*entry).body[k],
            ),
{
    let ghost ev = entry_v(*entry);
    let ghost rv = role_v(*role);
    let mut k: usize = 0;
    while k < entry.body.len()
        invariant
            ev == entry_v(*entry),
            rv == role_v(*role),
            k <= entry.body.len(),
            forall|q: int| 0 <= q < k ==> !shape_holds(rv, w, #[trigger] ev.body[q]),
        decreases entry.body.len() - k,
    {
        let s = &entry.body[k];
        assert(ev.body[k as int] == stmt_v(*s));
        let hit = match w {
            Shape::AdvancesSeq => stmt_advances_seq(s),
            Shape::BoundsSupply => stmt_bounds_supply(s),
            Shape::CapsAmount => stmt_caps_amount(s),
            Shape::TimeGate => stmt_time_gate(role, s),
            Shape::ObjectReturn => match s {
                Stmt::Return(ReturnExpr::Object { .. }) => true,
                _ => false,
            },
        };
        if hit {
            return true;
        }
        k += 1;
    }
    false
}

// ── the checks ──────────────────────────────────────────────────────────

fn violation(role: &Role, entry: &Entry, what: &str) -> (s: String)
    ensures
        s@ == violation_text(role_v(*role), entry_v(*entry), what@),
{
    proof {
        reveal_with_fuel(crate::structure::concat, 8);
    }
    text_of(vec!["`", role.name.as_str(), ".", entry.name.as_str(), "`: ", what])
}

/// Checks the declared refinements on one entrypoint.
fn c3_entry(role: &Role, entry: &Entry, w: Refinements, diags: &mut Vec<Diagnostic>)
    ensures
        extends(old(diags)@, final(diags)@, c3_entry_count(role_v(*role), entry_v(*entry), w)),
        says(old(diags)@, final(diags)@, c3_entry_msgs(role_v(*role), entry_v(*entry), w)),
{
    let ghost rv = role_v(*role);
    let ghost ev = entry_v(*entry);
    let ghost start = diags@;
    proof {
        lemma_extends_refl(diags@);
        lemma_says_refl(diags@);
    }
    match entry.mode {
        CovenantMode::Transition => {},
        _ => {
            return;
        },
    }
    let ghost mut acc: Seq<Seq<char>> = seq![];
    let b1 = w.monotonic_seq && state_field_named(role, "seq") && any_stmt(role, entry, Shape::ObjectReturn)
        && !any_stmt(role, entry, Shape::AdvancesSeq);
    proof {
        assert(object_return(ev) == exists|k: int| 0 <= k < ev.body.len() && shape_holds(rv, Shape::ObjectReturn, #[trigger] ev.body[k]));
        assert(some_stmt(ev, |s: SStmt| advances_seq(s)) == exists|k: int| 0 <= k < ev.body.len() && shape_holds(rv, Shape::AdvancesSeq, #[trigger] ev.body[k]));
    }
    let ghost old_d = diags@;
    if b1 {
        let m = violation(role, entry, "invariant `monotonic_seq` violated: state-mutating transition does not advance `seq` by exactly one (expected `seq: seq + 1` in the return or a `require <next> == seq + 1`)");
        report(diags, m, Ghost(start), Ghost(0));
        proof {
            lemma_says_push(start, old_d, acc, Diagnostic { message: m });
            acc = acc.push(m@);
        }
    }
    let ghost n1 = flag(b1);
    let amount = takes_int_amount(entry);
    let b2 = w.non_negative_amount && amount && !non_negative(entry, "amount");
    let ghost old_d = diags@;
    if b2 {
        let m = violation(role, entry, "invariant `non_negative_amount` violated: int `amount` is taken but never bounded non-negative (expected `require amount >= 0`)");
        report(diags, m, Ghost(start), Ghost(n1));
        proof {
            lemma_says_push(start, old_d, acc, Diagnostic { message: m });
            acc = acc.push(m@);
        }
    }
    let ghost n2 = n1 + flag(b2);
    let b3 = w.bounded_supply && state_field_named(role, "supply") && state_field_named(role, "total")
        && amount && !any_stmt(role, entry, Shape::BoundsSupply);
    proof {
        assert(some_stmt(ev, |s: SStmt| bounds_supply(s)) == exists|k: int| 0 <= k < ev.body.len() && shape_holds(rv, Shape::BoundsSupply, #[trigger] ev.body[k]));
    }
    let ghost old_d = diags@;
    if b3 {
        let m = violation(role, entry, "invariant `bounded_supply` violated: the cumulative draw is not bounded by the committed ceiling (expected `require supply + amount <= total`)");
        report(diags, m, Ghost(start), Ghost(n2));
        proof {
            lemma_says_push(start, old_d, acc, Diagnostic { message: m });
            acc = acc.push(m@);
        }
    }
    let ghost n3 = n2 + flag(b3);
    let b4 = w.spending_cap && amount && commits_limit(role) && !any_stmt(role, entry, Shape::CapsAmount);
    proof {
        assert(some_stmt(ev, |s: SStmt| caps_amount(s)) == exists|k: int| 0 <= k < ev.body.len() && shape_holds(rv, Shape::CapsAmount, #[trigger] ev.body[k]));
    }
    let ghost old_d = diags@;
    if b4 {
        let m = violation(role, entry, "invariant `spending_cap` violated: int `amount` is taken but is not bounded by a committed cap (expected `require amount <= limit` where `limit` is a committed state field or role param)");
        report(diags, m, Ghost(start), Ghost(n3));
        proof {
            lemma_says_push(start, old_d, acc, Diagnostic { message: m });
            acc = acc.push(m@);
        }
    }
    let ghost n4 = n3 + flag(b4);
    let b5 = w.multisig_threshold && entry_mutates(role, entry) && guaranteed_committed_signers(role, entry) < 2;
    let ghost old_d = diags@;
    if b5 {
        let m = violation(role, entry, "invariant `multisig_threshold` violated: fewer than 2 distinct committed keys are GUARANTEED to sign on every satisfying path (a `||` arm that forces only one key, a negated checkSig, or a caller-supplied pubkey drops the threshold); expected at least two distinct committed keys forced on every path, e.g. `checkSig(a, signer_a) && checkSig(b, signer_b)` or a disjunction whose every arm binds two committed keys");
        report(diags, m, Ghost(start), Ghost(n4));
        proof {
            lemma_says_push(start, old_d, acc, Diagnostic { message: m });
            acc = acc.push(m@);
        }
    }
    proof {
        assert(acc =~= c3_entry_msgs(rv, ev, w));
    }
}

/// Whether some state-mutating transition of `role` gates on committed
/// time.
fn has_time_gate(role: &Role) -> (b: bool)
    ensures
        b == gated(role_v(*role)),
{
    let ghost rv = role_v(*role);
    let mut j: usize = 0;
    while j < role.entrypoints.len()
        invariant
            rv == role_v(*role),
            j <= role.entrypoints.len(),
            forall|q: int|
                0 <= q < j ==> !((#[trigger] rv.entrypoints[q]).mode == CovenantMode::Transition
                    && mutates(rv, rv.entrypoints[q]) && some_stmt(rv.entrypoints[q], |s: SStmt| time_gate(rv, s))),
        decreases role.entrypoints.len() - j,
    {
        let entry = &role.entrypoints[j];
        let ghost ev = entry_v(*entry);
        assert(rv.entrypoints[j as int] == ev);
        let transition = match entry.mode {
            CovenantMode::Transition => true,
            _ => false,
        };
        let hit = transition && entry_mutates(role, entry) && any_stmt(role, entry, Shape::TimeGate);
        proof {
            assert(some_stmt(ev, |s: SStmt| time_gate(rv, s)) == exists|k: int| 0 <= k < ev.body.len() && shape_holds(rv, Shape::TimeGate, #[trigger] ev.body[k]));
        }
        if hit {
            return true;
        }
        j += 1;
    }
    false
}

/// Checks the declared refinements on every transition of `role`.
pub fn check_c3_refinements(role: &Role, w: Refinements, diags: &mut Vec<Diagnostic>)
    ensures
        extends(old(diags)@, final(diags)@, c3_count(role_v(*role), w)),
        says(old(diags)@, final(diags)@, c3_msgs(role_v(*role), w)),
{
    let ghost rv = role_v(*role);
    let ghost start = diags@;
    let ghost ge = |q: int| c3_entry_msgs(rv, rv.entrypoints[q], w);
    proof {
        lemma_extends_refl(diags@);
        lemma_says_refl(diags@);
    }
    let mut j: usize = 0;
    while j < role.entrypoints.len()
        invariant
            rv == role_v(*role),
            j <= role.entrypoints.len(),
            extends(start, diags@, sum_to(j as int, |q: int| c3_entry_count(rv, rv.entrypoints[q], w))),
            ge == (|q: int| c3_entry_msgs(rv, rv.entrypoints[q], w)),
            says(start, diags@, cat_to(j as int, ge)),
        decreases role.entrypoints.len() - j,
    {
        let entry = &role.entrypoints[j];
        assert(rv.entrypoints[j as int] == entry_v(*entry));
        let ghost mid = diags@;
        c3_entry(role, entry, w, diags);
        proof {
            lemma_sum_step(j as int, |q: int| c3_entry_count(rv, rv.entrypoints[q], w));
            lemma_extends_trans(start, mid, diags@, sum_to(j as int, |q: int| c3_entry_count(rv, rv.entrypoints[q], w)), c3_entry_count(rv, entry_v(*entry), w));
            lemma_says_step(start, mid, diags@, ge, j as int);
        }
        j += 1;
    }
    let ghost pre = diags@;
    if w.temporal_guard && !has_time_gate(role) {
        let m = text_of(
            vec![
                "role `",
                role.name.as_str(),
                "`: invariant `temporal_guard` violated: no state-mutating transition asserts a committed-time gate (expected at least one transition to `require now_bucket >= <committed deadline>` or `require now_bucket >= last_active + timeout`)",
            ],
        );
        report(diags, m, Ghost(start), Ghost(sum_to(role.entrypoints.len() as int, |q: int| c3_entry_count(rv, rv.entrypoints[q], w))));
        proof {
            reveal_with_fuel(crate::structure::concat, 4);
            lemma_says_push(start, pre, cat_to(role.entrypoints.len() as int, ge), Diagnostic { message: m });
            assert(cat_to(role.entrypoints.len() as int, ge).push(m@) =~= c3_msgs(rv, w));
        }
    } else {
        proof {
            assert(cat_to(role.entrypoints.len() as int, ge) + Seq::<Seq<char>>::empty() =~= c3_msgs(rv, w));
        }
    }
}

} // verus!
