//! Time gates: every `after(deadline)` clause sits in a transition and names
//! committed, int-typed time fields (one anchor, or an anchor plus a
//! duration), and every temporal-path invariant
//! `invariant name: entry => after(deadline);` names an entrypoint that, in
//! every role declaring it, is a transition carrying the matching clause.

use vstd::prelude::*;
use crate::ast::{AfterDeadline, App, CovenantMode, Entry, Invariant, Role, Stmt, Type};
use crate::lookup::{committed, entry_from, find_entry, has_arg, is_arg, is_committed, lemma_entry_from, same};
use crate::model::{
    SApp, SDeadline, SEntry, SInvariant, SRole, SStmt, SType, app_v, deadline_v, entry_v,
    invariant_v, role_v, stmt_v,
};
use crate::structure::{Diagnostic, cat_to, extends, lemma_extends_refl, lemma_extends_trans, lemma_says_none, lemma_says_one, lemma_says_push, lemma_says_refl, lemma_says_step, lemma_says_trans, lemma_sum_step, msgs, says, sum_to, text_of};
use crate::text::str_eq;
use crate::typing::report;

verus! {

broadcast use vstd::seq_lib::group_seq_properties;

// ── time names ──────────────────────────────────────────────────────────

/// Conventional names of absolute time points.
pub open spec fn anchor_name(n: Seq<char>) -> bool {
    n == "deadline"@ || n == "cliff"@ || n == "unlock_bucket"@ || n == "last_active"@ || n
        == "last_charged"@ || n == "last_paid"@
}

/// Conventional names of intervals.
pub open spec fn duration_name(n: Seq<char>) -> bool {
    n == "period"@ || n == "timeout"@
}

/// Conventional time names: anchors and durations.
pub open spec fn time_name(n: Seq<char>) -> bool {
    anchor_name(n) || duration_name(n)
}

/// `n` is an int-typed role param or state field with a time name.
pub open spec fn time_atom(r: SRole, n: Seq<char>) -> bool {
    time_name(n) && ((exists|i: int|
        0 <= i < r.params.len() && #[trigger] r.params[i].name == n && r.params[i].ty
            == SType::Int) || (exists|i: int|
        0 <= i < r.state.len() && #[trigger] r.state[i].name == n && r.state[i].ty == SType::Int))
}

fn is_anchor(n: &String) -> (b: bool)
    ensures
        b == anchor_name(n@),
{
    let t = n.as_str();
    str_eq(t, "deadline") || str_eq(t, "cliff") || str_eq(t, "unlock_bucket") || str_eq(
        t,
        "last_active",
    ) || str_eq(t, "last_charged") || str_eq(t, "last_paid")
}

fn is_duration(n: &String) -> (b: bool)
    ensures
        b == duration_name(n@),
{
    str_eq(n.as_str(), "period") || str_eq(n.as_str(), "timeout")
}

/// Whether `n` is a committed time field of `role`.
pub fn is_time_atom(role: &Role, n: &String) -> (b: bool)
    ensures
        b == time_atom(role_v(*role), n@),
{
    let ghost rv = role_v(*role);
    if !is_anchor(n) && !is_duration(n) {
        return false;
    }
    let mut i: usize = 0;
    while i < role.params.len()
        invariant
            rv == role_v(*role),
            time_name(n@),
            i <= role.params.len(),
            forall|k: int|
                0 <= k < i ==> !(#[trigger] rv.params[k].name == n@ && rv.params[k].ty == SType::Int),
        decreases role.params.len() - i,
    {
        let p = &role.params[i];
        assert(rv.params[i as int] == crate::model::param_v(*p));
        let int_ty = match p.ty {
            Type::Int => true,
            _ => false,
        };
        if int_ty && same(&p.name, n) {
            assert(rv.params[i as int].name == n@ && rv.params[i as int].ty == SType::Int);
            return true;
        }
        i += 1;
    }
    let mut i: usize = 0;
    while i < role.state.len()
        invariant
            rv == role_v(*role),
            time_name(n@),
            i <= role.state.len(),
            forall|k: int|
                0 <= k < role.params.len() ==> !(#[trigger] rv.params[k].name == n@
                    && rv.params[k].ty == SType::Int),
            forall|k: int|
                0 <= k < i ==> !(#[trigger] rv.state[k].name == n@ && rv.state[k].ty == SType::Int),
        decreases role.state.len() - i,
    {
        let f = &role.state[i];
        assert(rv.state[i as int] == crate::model::field_v(*f));
        let int_ty = match f.ty {
            Type::Int => true,
            _ => false,
        };
        if int_ty && same(&f.name, n) {
            assert(rv.state[i as int].name == n@ && rv.state[i as int].ty == SType::Int);
            return true;
        }
        i += 1;
    }
    false
}

// ── after clauses ───────────────────────────────────────────────────────

/// The diagnostics for one deadline operand: not committed, or not a
/// committed time field.
pub open spec fn operand_count(r: SRole, x: Seq<char>) -> int {
    if !committed(r, x) {
        1
    } else if !time_atom(r, x) {
        1
    } else {
        0
    }
}

/// The diagnostics for one `after(d)` in entrypoint `e`.
pub open spec fn after_clause_count(r: SRole, e: SEntry, d: SDeadline) -> int {
    (if e.mode != CovenantMode::Transition {
        1int
    } else {
        0int
    }) + match d {
        SDeadline::Field(a) => operand_count(r, a),
        SDeadline::Sum(a, b) => operand_count(r, a) + operand_count(r, b) + if time_atom(r, a)
            && time_atom(r, b) && !((anchor_name(a) && duration_name(b)) || (duration_name(a)
            && anchor_name(b))) {
            1int
        } else {
            0int
        },
    }
}

pub open spec fn after_stmt_count(r: SRole, e: SEntry, k: int) -> int {
    match e.body[k] {
        SStmt::After(d) => after_clause_count(r, e, d),
        _ => 0,
    }
}

pub open spec fn after_entry_count(r: SRole, e: SEntry) -> int {
    sum_to(e.body.len() as int, |k: int| after_stmt_count(r, e, k))
}

/// The `after` diagnostics of a role.
pub open spec fn after_count(r: SRole) -> int {
    sum_to(r.entrypoints.len() as int, |j: int| after_entry_count(r, r.entrypoints[j]))
}

/// The `` `role.entry` `` prefix of an `after` diagnostic.
pub open spec fn gate_where(r: SRole, e: SEntry) -> Seq<char> {
    "`"@ + r.name + "."@ + e.name + "`"@
}

/// The messages for one deadline operand, after the prefix `w`.
pub open spec fn operand_msgs(r: SRole, e: SEntry, x: Seq<char>, w: Seq<char>) -> Seq<Seq<char>> {
    if !committed(r, x) {
        seq![w + ": `after(...)` deadline `"@ + x + "` must resolve to COMMITTED state; it is "@ + (if is_arg(e, x) {
            "a spender-supplied argument \u{2014} a caller-chosen deadline is no gate at all"@
        } else {
            "not a committed name (declare it as a role param or state field)"@
        })]
    } else if !time_atom(r, x) {
        seq![w + ": `after(...)` deadline `"@ + x
            + "` must be a committed TIME field (an int-typed field carrying a conventional time name, e.g. `deadline`/`cliff`/`unlock_bucket`), so a non-time field cannot masquerade as a deadline"@]
    } else {
        seq![]
    }
}

/// The messages for one `after(d)` in entrypoint `e`, in the order of
/// [`after_clause_count`].
pub open spec fn after_clause_msgs(r: SRole, e: SEntry, d: SDeadline) -> Seq<Seq<char>> {
    let w = gate_where(r, e);
    (if e.mode != CovenantMode::Transition {
        seq![w
            + ": `after(...)` is only valid in a `mode = transition` entrypoint (a non-transition body is not lowered to a covenant, so the time gate would be silently dropped)"@]
    } else {
        seq![]
    }) + match d {
        SDeadline::Field(a) => operand_msgs(r, e, a, w),
        SDeadline::Sum(a, b) => operand_msgs(r, e, a, w) + operand_msgs(r, e, b, w) + if time_atom(r, a)
            && time_atom(r, b) && !((anchor_name(a) && duration_name(b)) || (duration_name(a)
            && anchor_name(b))) {
            seq![w + ": `after("@ + a + " + "@ + b
                + ")` must be a committed ANCHOR (an absolute time point, e.g. `deadline`/`cliff`/`last_charged`) plus a committed DURATION (an interval, e.g. `period`/`timeout`), in either order; anchor+anchor overshoots and duration+duration is no real gate"@]
        } else {
            seq![]
        },
    }
}

pub open spec fn after_stmt_msgs(r: SRole, e: SEntry, k: int) -> Seq<Seq<char>> {
    match e.body[k] {
        SStmt::After(d) => after_clause_msgs(r, e, d),
        _ => seq![],
    }
}

pub open spec fn after_entry_msgs(r: SRole, e: SEntry) -> Seq<Seq<char>> {
    cat_to(e.body.len() as int, |k: int| after_stmt_msgs(r, e, k))
}

/// The `after` messages of a role.
pub open spec fn after_msgs(r: SRole) -> Seq<Seq<char>> {
    cat_to(r.entrypoints.len() as int, |j: int| after_entry_msgs(r, r.entrypoints[j]))
}

/// Checks one deadline operand.
fn check_operand(
    role: &Role,
    entry: &Entry,
    x: &String,
    w: &String,
    diags: &mut Vec<Diagnostic>,
)
    ensures
        extends(old(diags)@, final(diags)@, operand_count(role_v(*role), x@)),
        says(old(diags)@, final(diags)@, operand_msgs(role_v(*role), entry_v(*entry), x@, w@)),
{
    let ghost start = diags@;
    proof {
        lemma_extends_refl(diags@);
        lemma_says_refl(diags@);
        reveal_with_fuel(crate::structure::concat, 8);
    }
    if !is_committed(role, x) {
        let why = if has_arg(entry, x) {
            "a spender-supplied argument \u{2014} a caller-chosen deadline is no gate at all"
        } else {
            "not a committed name (declare it as a role param or state field)"
        };
        let m = text_of(
            vec![
                w.as_str(),
                ": `after(...)` deadline `",
                x.as_str(),
                "` must resolve to COMMITTED state; it is ",
                why,
            ],
        );
        report(diags, m, Ghost(start), Ghost(0));
        proof {
            lemma_says_push(start, start, seq![], Diagnostic { message: m });
            assert(seq![].push(m@) =~= operand_msgs(role_v(*role), entry_v(*entry), x@, w@));
        }
    } else if !is_time_atom(role, x) {
        let m = text_of(
            vec![
                w.as_str(),
                ": `after(...)` deadline `",
                x.as_str(),
                "` must be a committed TIME field (an int-typed field carrying a conventional time name, e.g. `deadline`/`cliff`/`unlock_bucket`), so a non-time field cannot masquerade as a deadline",
            ],
        );
        report(diags, m, Ghost(start), Ghost(0));
        proof {
            lemma_says_push(start, start, seq![], Diagnostic { message: m });
            assert(seq![].push(m@) =~= operand_msgs(role_v(*role), entry_v(*entry), x@, w@));
        }
    }
}

/// Checks one `after(d)` clause of `entry`.
fn check_after_clause(role: &Role, entry: &Entry, d: &AfterDeadline, diags: &mut Vec<Diagnostic>)
    ensures
        extends(
            old(diags)@,
            final(diags)@,
            after_clause_count(role_v(*role), entry_v(*entry), deadline_v(*d)),
        ),
        says(old(diags)@, final(diags)@, after_clause_msgs(role_v(*role), entry_v(*entry), deadline_v(*d))),
{
    let ghost rv = role_v(*role);
    let ghost ev = entry_v(*entry);
    let ghost start = diags@;
    proof {
        lemma_extends_refl(diags@);
        lemma_says_refl(diags@);
        reveal_with_fuel(crate::structure::concat, 8);
    }
    let w = text_of(vec!["`", role.name.as_str(), ".", entry.name.as_str(), "`"]);
    assert(w@ == gate_where(rv, ev));
    let ghost mut acc: Seq<Seq<char>> = seq![];
    let transition = match entry.mode {
        CovenantMode::Transition => true,
        _ => false,
    };
    if !transition {
        let m = text_of(
            vec![
                w.as_str(),
                ": `after(...)` is only valid in a `mode = transition` entrypoint (a non-transition body is not lowered to a covenant, so the time gate would be silently dropped)",
            ],
        );
        report(diags, m, Ghost(start), Ghost(0));
        proof {
            acc = acc.push(m@);
            lemma_says_push(start, start, seq![], Diagnostic { message: m });
            assert(seq![].push(m@) =~= acc);
        }
    }
    let ghost c0: int = if !transition {
        1
    } else {
        0
    };
    match d {
        AfterDeadline::Field(a) => {
            let ghost mid = diags@;
            check_operand(role, entry, a, &w, diags);
            proof {
                lemma_extends_trans(start, mid, diags@, c0, operand_count(rv, a@));
                lemma_says_trans(start, mid, diags@, acc, operand_msgs(rv, ev, a@, w@));
                assert(acc + operand_msgs(rv, ev, a@, w@) =~= after_clause_msgs(rv, ev, deadline_v(*d)));
            }
        },
        AfterDeadline::Sum(a, b) => {
            let ghost m1 = diags@;
            check_operand(role, entry, a, &w, diags);
            proof {
                lemma_extends_trans(start, m1, diags@, c0, operand_count(rv, a@));
                lemma_says_trans(start, m1, diags@, acc, operand_msgs(rv, ev, a@, w@));
            }
            let ghost m2 = diags@;
            check_operand(role, entry, b, &w, diags);
            proof {
                lemma_extends_trans(start, m2, diags@, c0 + operand_count(rv, a@), operand_count(rv, b@));
                lemma_says_trans(start, m2, diags@, acc + operand_msgs(rv, ev, a@, w@), operand_msgs(rv, ev, b@, w@));
            }
            let ghost m3 = diags@;
            let ghost so_far = acc + operand_msgs(rv, ev, a@, w@) + operand_msgs(rv, ev, b@, w@);
            if is_time_atom(role, a) && is_time_atom(role, b) {
                let well = (is_anchor(a) && is_duration(b)) || (is_duration(a) && is_anchor(b));
                if !well {
                    let m = text_of(
                        vec![
                            w.as_str(),
                            ": `after(",
                            a.as_str(),
                            " + ",
                            b.as_str(),
                            ")` must be a committed ANCHOR (an absolute time point, e.g. `deadline`/`cliff`/`last_charged`) plus a committed DURATION (an interval, e.g. `period`/`timeout`), in either order; anchor+anchor overshoots and duration+duration is no real gate",
                        ],
                    );
                    report(diags, m, Ghost(start), Ghost(c0 + operand_count(rv, a@) + operand_count(rv, b@)));
                    proof {
                        lemma_says_push(start, m3, so_far, Diagnostic { message: m });
                        assert(so_far.push(m@) =~= after_clause_msgs(rv, ev, deadline_v(*d)));
                    }
                } else {
                    proof {
                        assert(so_far =~= after_clause_msgs(rv, ev, deadline_v(*d)));
                    }
                }
            } else {
                proof {
                    assert(so_far =~= after_clause_msgs(rv, ev, deadline_v(*d)));
                }
            }
        },
    }
}

/// Checks every `after(...)` clause of a role.
#[verifier::loop_isolation(false)]
pub fn check_after(role: &Role, diags: &mut Vec<Diagnostic>)
    ensures
        extends(old(diags)@, final(diags)@, after_count(role_v(*role))),
        says(old(diags)@, final(diags)@, after_msgs(role_v(*role))),
{
    let ghost rv = role_v(*role);
    let ghost start = diags@;
    let ghost ge = |q: int| after_entry_msgs(rv, rv.entrypoints[q]);
    proof {
        lemma_extends_refl(diags@);
        lemma_says_refl(diags@);
    }
    let mut j: usize = 0;
    while j < role.entrypoints.len()
        invariant
            j <= role.entrypoints.len(),
            extends(start, diags@, sum_to(j as int, |q: int| after_entry_count(rv, rv.entrypoints[q]))),
            ge == (|q: int| after_entry_msgs(rv, rv.entrypoints[q])),
            says(start, diags@, cat_to(j as int, ge)),
        decreases role.entrypoints.len() - j,
    {
        let entry = &role.entrypoints[j];
        assert(rv.entrypoints[j as int] == entry_v(*entry));
        let ghost ev = entry_v(*entry);
        let ghost mid = diags@;
        let ghost gs = |q: int| after_stmt_msgs(rv, ev, q);
        proof {
            lemma_extends_refl(diags@);
            lemma_says_refl(diags@);
        }
        let mut k: usize = 0;
        while k < entry.body.len()
            invariant
                k <= entry.body.len(),
                extends(mid, diags@, sum_to(k as int, |q: int| after_stmt_count(rv, ev, q))),
                gs == (|q: int| after_stmt_msgs(rv, ev, q)),
                says(mid, diags@, cat_to(k as int, gs)),
            decreases entry.body.len() - k,
        {
            assert(ev.body[k as int] == stmt_v(entry.body@[k as int]));
            let ghost before = diags@;
            match &entry.body[k] {
                Stmt::After { deadline } => {
                    check_after_clause(role, entry, deadline, diags);
                },
                _ => {
                    proof {
                        lemma_says_refl(diags@);
                    }
                },
            }
            proof {
                lemma_extends_trans(mid, before, diags@, sum_to(k as int, |q: int| after_stmt_count(rv, ev, q)), after_stmt_count(rv, ev, k as int));
                lemma_says_step(mid, before, diags@, gs, k as int);
            }
            k += 1;
        }
        proof {
            lemma_extends_trans(start, mid, diags@, sum_to(j as int, |q: int| after_entry_count(rv, rv.entrypoints[q])), after_entry_count(rv, ev));
            assert(ge(j as int) == cat_to(ev.body.len() as int, gs));
            lemma_says_step(start, mid, diags@, ge, j as int);
        }
        j += 1;
    }
}

// ── temporal-path invariants ────────────────────────────────────────────

/// Two deadlines name the same time: the same field, or the same two
/// fields in either order.
pub open spec fn deadline_matches(a: SDeadline, b: SDeadline) -> bool {
    match (a, b) {
        (SDeadline::Field(x), SDeadline::Field(y)) => x == y,
        (SDeadline::Sum(x1, x2), SDeadline::Sum(y1, y2)) => (x1 == y1 && x2 == y2) || (x1 == y2
            && x2 == y1),
        _ => false,
    }
}

/// The entrypoint carries an `after` clause matching `d`.
pub open spec fn carries(e: SEntry, d: SDeadline) -> bool {
    exists|k: int|
        0 <= k < e.body.len() && #[trigger] e.body[k] is After && deadline_matches(
            e.body[k]->After_0,
            d,
        )
}

/// The entrypoint named `entry` in role `r`, if any.
pub open spec fn named_entry(r: SRole, entry: Seq<char>) -> Option<SEntry> {
    match entry_from(r.entrypoints, entry, 0) {
        Some(k) => Some(r.entrypoints[k]),
        None => None,
    }
}

/// The diagnostic for role `r` under a temporal-path invariant: a
/// non-transition entrypoint, or one without the matching clause.
pub open spec fn path_role_count(r: SRole, entry: Seq<char>, d: SDeadline) -> int {
    match named_entry(r, entry) {
        Some(e) => if e.mode != CovenantMode::Transition {
            1
        } else if !carries(e, d) {
            1
        } else {
            0
        },
        None => 0,
    }
}

/// The diagnostics for invariant `i`: one when no role declares the
/// entrypoint, else one per role whose entrypoint fails.
pub open spec fn path_invariant_count(a: SApp, i: int) -> int {
    match a.invariants[i] {
        SInvariant::TemporalPath(_, entry, d) => if forall|r: int|
            0 <= r < a.roles.len() ==> #[trigger] named_entry(a.roles[r], entry) is None {
            1
        } else {
            sum_to(a.roles.len() as int, |r: int| path_role_count(a.roles[r], entry, d))
        },
        _ => 0,
    }
}

/// The temporal-path diagnostics of an app.
pub open spec fn paths_count(a: SApp) -> int {
    sum_to(a.invariants.len() as int, |i: int| path_invariant_count(a, i))
}

/// A deadline as written in `after(...)`.
pub open spec fn deadline_words(d: SDeadline) -> Seq<char> {
    match d {
        SDeadline::Field(f) => f,
        SDeadline::Sum(a, b) => a + " + "@ + b,
    }
}

/// The message for role `r` under temporal-path invariant `name`.
pub open spec fn path_role_msgs(r: SRole, name: Seq<char>, entry: Seq<char>, d: SDeadline) -> Seq<Seq<char>> {
    match named_entry(r, entry) {
        Some(e) => if e.mode != CovenantMode::Transition {
            seq!["invariant `"@ + name + "`: entrypoint `"@ + r.name + "."@ + entry
                + "` is not a `mode = transition` entrypoint; only a transition is lowered to a covenant carrying the consensus CLTV gate the invariant binds"@]
        } else if !carries(e, d) {
            seq!["invariant `"@ + name + "`: entrypoint `"@ + r.name + "."@ + entry
                + "` must carry the matching `after("@ + deadline_words(d)
                + ")` consensus CLTV clause (the STRUCTURAL check that the named entrypoint carries the matching consensus gate the emitter lowers to OpCheckLockTimeVerify \u{2014} NOT an SMT-discharged temporal obligation); it does not"@]
        } else {
            seq![]
        },
        None => seq![],
    }
}

/// The messages for invariant `i`, in the order of [`path_invariant_count`].
pub open spec fn path_invariant_msgs(a: SApp, i: int) -> Seq<Seq<char>> {
    match a.invariants[i] {
        SInvariant::TemporalPath(name, entry, d) => if forall|r: int|
            0 <= r < a.roles.len() ==> #[trigger] named_entry(a.roles[r], entry) is None {
            seq!["invariant `"@ + name + "`: entrypoint `"@ + entry + "` is not declared in any role"@]
        } else {
            cat_to(a.roles.len() as int, |r: int| path_role_msgs(a.roles[r], name, entry, d))
        },
        _ => seq![],
    }
}

/// The temporal-path messages of an app.
pub open spec fn paths_msgs(a: SApp) -> Seq<Seq<char>> {
    cat_to(a.invariants.len() as int, |i: int| path_invariant_msgs(a, i))
}

fn deadline_eq(a: &AfterDeadline, b: &AfterDeadline) -> (r: bool)
    ensures
        r == deadline_matches(deadline_v(*a), deadline_v(*b)),
{
    match (a, b) {
        (AfterDeadline::Field(x), AfterDeadline::Field(y)) => same(x, y),
        (AfterDeadline::Sum(x1, x2), AfterDeadline::Sum(y1, y2)) => (same(x1, y1) && same(x2, y2))
            || (same(x1, y2) && same(x2, y1)),
        _ => false,
    }
}

/// Whether `entry` carries an `after` clause matching `d`.
fn carries_gate(entry: &Entry, d: &AfterDeadline) -> (b: bool)
    ensures
        b == carries(entry_v(*entry), deadline_v(*d)),
{
    let ghost ev = entry_v(*entry);
    let mut k: usize = 0;
    while k < entry.body.len()
        invariant
            ev == entry_v(*entry),
            k <= entry.body.len(),
            forall|q: int|
                0 <= q < k ==> !(#[trigger] ev.body[q] is After && deadline_matches(
                    ev.body[q]->After_0,
                    deadline_v(*d),
                )),
        decreases entry.body.len() - k,
    {
        assert(ev.body[k as int] == stmt_v(entry.body@[k as int]));
        match &entry.body[k] {
            Stmt::After { deadline } => {
                if deadline_eq(deadline, d) {
                    return true;
                }
            },
            _ => {},
        }
        k += 1;
    }
    false
}

/// Text of a deadline as written in `after(...)`.
fn deadline_text(d: &AfterDeadline) -> (s: String)
    ensures
        s@ == deadline_words(deadline_v(*d)),
{
    proof {
        reveal_with_fuel(crate::structure::concat, 4);
    }
    match d {
        AfterDeadline::Field(f) => f.clone(),
        AfterDeadline::Sum(a, b) => text_of(vec![a.as_str(), " + ", b.as_str()]),
    }
}

/// Checks every temporal-path invariant of an app.
#[verifier::loop_isolation(false)]
pub fn check_temporal_path_invariants(app: &App, diags: &mut Vec<Diagnostic>)
    ensures
        extends(old(diags)@, final(diags)@, paths_count(app_v(*app))),
        says(old(diags)@, final(diags)@, paths_msgs(app_v(*app))),
{
    let ghost av = app_v(*app);
    let ghost start = diags@;
    let ghost gi = |q: int| path_invariant_msgs(av, q);
    proof {
        lemma_extends_refl(diags@);
        lemma_says_refl(diags@);
    }
    let mut i: usize = 0;
    while i < app.invariants.len()
        invariant
            i <= app.invariants.len(),
            extends(start, diags@, sum_to(i as int, |q: int| path_invariant_count(av, q))),
            gi == (|q: int| path_invariant_msgs(av, q)),
            says(start, diags@, cat_to(i as int, gi)),
        decreases app.invariants.len() - i,
    {
        assert(av.invariants[i as int] == invariant_v(app.invariants@[i as int]));
        let ghost before = diags@;
        match &app.invariants[i] {
            Invariant::TemporalPath { name, entry, deadline } => {
                check_one_path(app, name, entry, deadline, diags);
            },
            _ => {
                proof {
                    lemma_says_refl(diags@);
                }
            },
        }
        proof {
            lemma_extends_trans(start, before, diags@, sum_to(i as int, |q: int| path_invariant_count(av, q)), path_invariant_count(av, i as int));
            lemma_says_step(start, before, diags@, gi, i as int);
        }
        i += 1;
    }
}

/// Checks one temporal-path invariant.
#[verifier::loop_isolation(false)]
fn check_one_path(
    app: &App,
    name: &String,
    entry: &String,
    d: &AfterDeadline,
    diags: &mut Vec<Diagnostic>,
)
    ensures
        extends(
            old(diags)@,
            final(diags)@,
            if forall|r: int|
                0 <= r < app_v(*app).roles.len() ==> #[trigger] named_entry(app_v(*app).roles[r], entry@) is None {
                1
            } else {
                sum_to(
                    app_v(*app).roles.len() as int,
                    |r: int| path_role_count(app_v(*app).roles[r], entry@, deadline_v(*d)),
                )
            },
        ),
        says(
            old(diags)@,
            final(diags)@,
            if forall|r: int|
                0 <= r < app_v(*app).roles.len() ==> #[trigger] named_entry(app_v(*app).roles[r], entry@) is None {
                seq!["invariant `"@ + name@ + "`: entrypoint `"@ + entry@ + "` is not declared in any role"@]
            } else {
                cat_to(
                    app_v(*app).roles.len() as int,
                    |r: int| path_role_msgs(app_v(*app).roles[r], name@, entry@, deadline_v(*d)),
                )
            },
        ),
{
    let ghost av = app_v(*app);
    let ghost dv = deadline_v(*d);
    let ghost start = diags@;
    let ghost gr = |q: int| path_role_msgs(av.roles[q], name@, entry@, dv);
    proof {
        lemma_extends_refl(diags@);
        lemma_says_refl(diags@);
    }
    let mut any = false;
    let mut r: usize = 0;
    while r < app.roles.len()
        invariant
            r <= app.roles.len(),
            any == exists|q: int| 0 <= q < r && !(#[trigger] named_entry(av.roles[q], entry@) is None),
            extends(start, diags@, sum_to(r as int, |q: int| path_role_count(av.roles[q], entry@, dv))),
            gr == (|q: int| path_role_msgs(av.roles[q], name@, entry@, dv)),
            says(start, diags@, cat_to(r as int, gr)),
        decreases app.roles.len() - r,
    {
        let role = &app.roles[r];
        assert(av.roles[r as int] == role_v(*role));
        let ghost c = sum_to(r as int, |q: int| path_role_count(av.roles[q], entry@, dv));
        let ghost d0 = diags@;
        proof {
            reveal_with_fuel(crate::structure::concat, 12);
        }
        match find_entry(role, entry) {
            Some(k) => {
                proof {
                    lemma_entry_from(role_v(*role).entrypoints, entry@, 0);
                }
                let ep = &role.entrypoints[k];
                assert(role_v(*role).entrypoints[k as int] == entry_v(*ep));
                any = true;
                let transition = match ep.mode {
                    CovenantMode::Transition => true,
                    _ => false,
                };
                if !transition {
                    let m = text_of(
                        vec![
                            "invariant `",
                            name.as_str(),
                            "`: entrypoint `",
                            role.name.as_str(),
                            ".",
                            entry.as_str(),
                            "` is not a `mode = transition` entrypoint; only a transition is lowered to a covenant carrying the consensus CLTV gate the invariant binds",
                        ],
                    );
                    report(diags, m, Ghost(start), Ghost(c));
                    proof {
                        assert(gr(r as int) =~= seq![m@]);
                        lemma_says_one(start, d0, gr, r as int, Diagnostic { message: m });
                    }
                } else if !carries_gate(ep, d) {
                    let dt = deadline_text(d);
                    let m = text_of(
                        vec![
                            "invariant `",
                            name.as_str(),
                            "`: entrypoint `",
                            role.name.as_str(),
                            ".",
                            entry.as_str(),
                            "` must carry the matching `after(",
                            dt.as_str(),
                            ")` consensus CLTV clause (the STRUCTURAL check that the named entrypoint carries the matching consensus gate the emitter lowers to OpCheckLockTimeVerify \u{2014} NOT an SMT-discharged temporal obligation); it does not",
                        ],
                    );
                    report(diags, m, Ghost(start), Ghost(c));
                    proof {
                        assert(gr(r as int) =~= seq![m@]);
                        lemma_says_one(start, d0, gr, r as int, Diagnostic { message: m });
                    }
                } else {
                    proof {
                        assert(gr(r as int) =~= Seq::<Seq<char>>::empty());
                        lemma_says_none(start, d0, gr, r as int);
                    }
                }
            },
            None => {
                proof {
                    assert(gr(r as int) =~= Seq::<Seq<char>>::empty());
                    lemma_says_none(start, d0, gr, r as int);
                }
            },
        }
        proof {
            lemma_sum_step(r as int, |q: int| path_role_count(av.roles[q], entry@, dv));
        }
        r += 1;
    }
    if !any {
        proof {
            assert(sum_to(app.roles.len() as int, |q: int| path_role_count(av.roles[q], entry@, dv)) == 0) by {
                crate::structure::lemma_sum_zero(app.roles.len() as int, |q: int| path_role_count(av.roles[q], entry@, dv));
            }
        }
        let m = text_of(
            vec![
                "invariant `",
                name.as_str(),
                "`: entrypoint `",
                entry.as_str(),
                "` is not declared in any role",
            ],
        );
        proof {
            assert(diags@ =~= start);
            reveal_with_fuel(crate::structure::concat, 8);
        }
        report(diags, m, Ghost(start), Ghost(0));
        proof {
            lemma_says_push(start, start, seq![], Diagnostic { message: m });
            assert(seq![].push(m@) =~= seq!["invariant `"@ + name@ + "`: entrypoint `"@ + entry@ + "` is not declared in any role"@]);
        }
    }
}


// ── the time names ──────────────────────────────────────────────────────

/// The anchors are exactly the documented absolute time points
/// (`deadline`, `cliff`, `unlock_bucket`, `last_active`, `last_charged`,
/// `last_paid`), the durations exactly the documented intervals (`period`,
/// `timeout`), and no name is both.
pub proof fn law_time_names(n: Seq<char>)
    ensures
        anchor_name(n) <==> (n == "deadline"@ || n == "cliff"@ || n == "unlock_bucket"@ || n == "last_active"@
            || n == "last_charged"@ || n == "last_paid"@),
        duration_name(n) <==> (n == "period"@ || n == "timeout"@),
        !(anchor_name(n) && duration_name(n)),
{
    reveal_strlit("deadline");
    reveal_strlit("cliff");
    reveal_strlit("unlock_bucket");
    reveal_strlit("last_active");
    reveal_strlit("last_charged");
    reveal_strlit("last_paid");
    reveal_strlit("period");
    reveal_strlit("timeout");
    assert("deadline"@.len() == 8 && "cliff"@.len() == 5 && "unlock_bucket"@.len() == 13);
    assert("last_active"@.len() == 11 && "last_charged"@.len() == 12 && "last_paid"@.len() == 9);
    assert("period"@.len() == 6 && "timeout"@.len() == 7);
}

/// A gate `after(a + b)` (in either order) in a transition, where `a` is a
/// documented anchor and `b` a documented duration, both committed int
/// params of the role, draws no diagnostic.
pub proof fn law_anchor_window_is_accepted(r: SRole, e: SEntry, a: Seq<char>, b: Seq<char>, i: int, j: int)
    requires
        e.mode == CovenantMode::Transition,
        0 <= i < r.params.len(),
        r.params[i].name == a,
        r.params[i].ty == SType::Int,
        0 <= j < r.params.len(),
        r.params[j].name == b,
        r.params[j].ty == SType::Int,
        a == "deadline"@ || a == "cliff"@ || a == "unlock_bucket"@ || a == "last_active"@ || a == "last_charged"@
            || a == "last_paid"@,
        b == "period"@ || b == "timeout"@,
    ensures
        after_clause_count(r, e, SDeadline::Sum(a, b)) == 0,
        after_clause_count(r, e, SDeadline::Sum(b, a)) == 0,
        after_clause_msgs(r, e, SDeadline::Sum(a, b)) == Seq::<Seq<char>>::empty(),
        after_clause_msgs(r, e, SDeadline::Sum(b, a)) == Seq::<Seq<char>>::empty(),
{
    law_time_names(a);
    law_time_names(b);
    assert(committed(r, a) && committed(r, b));
    assert(time_atom(r, a) && time_atom(r, b));
    assert(operand_count(r, a) == 0 && operand_count(r, b) == 0);
    assert(operand_msgs(r, e, a, gate_where(r, e)) =~= Seq::<Seq<char>>::empty());
    assert(operand_msgs(r, e, b, gate_where(r, e)) =~= Seq::<Seq<char>>::empty());
    assert(after_clause_msgs(r, e, SDeadline::Sum(a, b)) =~= Seq::<Seq<char>>::empty());
    assert(after_clause_msgs(r, e, SDeadline::Sum(b, a)) =~= Seq::<Seq<char>>::empty());
}

} // verus!
