//! Value conservation. Under `invariant value_conserved;` every value-bearing
//! field a transition assigns must keep its value (a bare carry `f`) or move
//! by one additive term whose every atom is sign-guarded (`f + e`, `f - e`);
//! a supply-change capability waives the shape, never the sign. Under
//! `invariant conservation_split;` the legs of a transfer between
//! value-bearing fields must cancel atom for atom.

use vstd::prelude::*;
use vstd::multiset::Multiset;
use crate::adjust::{SAdjust, SVerdict, Verdict, Adjust, atoms, classify_split_adjust, conserving_term, first_unguarded, is_conservation_preserving, split_adjust, term_guarded, unguarded_additive_atom, verdict};
use crate::ast::{CovenantMode, Entry, Expr, ReturnExpr, Role, Stmt, Type};
use crate::lookup::{expr_eq, is_value_bearing, is_value_bearing_split, references_var, refs, value_bearing, value_bearing_split};
use crate::model::{SEntry, SExpr, SReturn, SRole, SStmt, SType, entry_v, expr_v, pairs_v, role_v, stmt_v, type_v};
use crate::text::decimal;
use crate::structure::{Diagnostic, cat_to, extends, lemma_extends_refl, lemma_extends_trans, lemma_says_push, lemma_says_refl, lemma_says_step, lemma_sum_step, says, sum_to, text_of};
use crate::render::render;
use crate::typing::{find_state_ty, report, state_ty};

verus! {

broadcast use vstd::seq_lib::group_seq_properties;

// ── value_conserved ─────────────────────────────────────────────────────

/// The diagnostics for value-bearing field `f` assigned `v` in `e`: one for
/// an unguarded adjustment atom, one for a bad shape unless the entry
/// declares a supply-change capability.
pub open spec fn c1_field_count(r: SRole, e: SEntry, f: Seq<char>, v: SExpr) -> int {
    match state_ty(r, f) {
        Some(t) => if !value_bearing(f, t) {
            0
        } else {
            match verdict(e, f, v) {
                SVerdict::Preserving => 0,
                SVerdict::Unguarded => 1,
                SVerdict::BadShape => if e.supply_change is Some {
                    0
                } else {
                    1
                },
            }
        },
        None => 0,
    }
}

/// The first state field, from index `j` on, that `x` mentions.
pub open spec fn first_ref(r: SRole, x: SExpr, j: int) -> Option<int>
    decreases r.state.len() - j,
{
    if j < 0 || j >= r.state.len() {
        None
    } else if refs(x, r.state[j].name) {
        Some(j)
    } else {
        first_ref(r, x, j + 1)
    }
}

/// The `value_conserved` diagnostics of statement `k`: each field of an
/// object return, or the field a scalar return is broadcast into (the first
/// state field it mentions).
pub open spec fn c1_stmt_count(r: SRole, e: SEntry, k: int) -> int {
    match e.body[k] {
        SStmt::Return(SReturn::Object(_, fs)) => sum_to(
            fs.len() as int,
            |i: int| c1_field_count(r, e, fs[i].0, fs[i].1),
        ),
        SStmt::Return(SReturn::Scalar(x)) => match first_ref(r, x, 0) {
            Some(j) => c1_field_count(r, e, r.state[j].name, x),
            None => 0,
        },
        _ => 0,
    }
}

/// The `value_conserved` diagnostics of a transition.
pub open spec fn c1_entry_count(r: SRole, e: SEntry) -> int {
    if e.mode != CovenantMode::Transition {
        0
    } else {
        sum_to(e.body.len() as int, |k: int| c1_stmt_count(r, e, k))
    }
}

/// The `value_conserved` diagnostics of a role (none unless declared).
pub open spec fn c1_count(r: SRole, value_conserved: bool) -> int {
    if !value_conserved {
        0
    } else {
        sum_to(r.entrypoints.len() as int, |j: int| c1_entry_count(r, r.entrypoints[j]))
    }
}

/// The message for an adjustment of `f` by atom `a`, whose sign `e` never
/// establishes.
pub open spec fn unguarded_text(r: SRole, e: SEntry, f: Seq<char>, a: SExpr) -> Seq<char> {
    "`"@ + r.name + "."@ + e.name + "`: invariant `value_conserved` violated: value-bearing field `"@ + f + "` is adjusted by a term containing `"@ + render(a) + "`, whose sign this entrypoint never establishes \u{2014} a negative value INVERTS the adjustment (`"@ + f + " - e` inflates the field; `"@ + f + " + e` drains it). Every `+`-atom of the adjustment must be a non-negative int literal or a name guarded HERE by `requires <name> >= 0;` (a genesis-committed field does not qualify \u{2014} genesis can commit a negative)."@
        + (if e.supply_change is Some {
        " The `supply_change` capability authorises a SUPPLY CHANGE, not a sign inversion, so it does NOT waive this check."@
    } else {
        ""@
    })
}

/// The message for object-return field `f: v` in a non-preserving shape.
pub open spec fn bad_field_text(r: SRole, e: SEntry, f: Seq<char>, v: SExpr) -> Seq<char> {
    "`"@ + r.name + "."@ + e.name + "`: invariant `value_conserved` violated: value-bearing field `"@ + f + "` is assigned `"@ + render(v) + "` which is not conservation-preserving (must be a bare carry `"@ + f + ": "@ + f + "` or a single additive adjustment `"@ + f + ": "@ + f
        + " + e` / `"@ + f + ": "@ + f + " - e`; multiplicative, constant, or double-self forms create or destroy value); if intentional, declare the entry `#[covenant(mode = transition, supply_change = <authority>)]` (a checked-model capability whose named committed authority must be guaranteed to sign)"@
}

/// The message for a scalar return `v` broadcast into `f` in a
/// non-preserving shape.
pub open spec fn bad_scalar_text(r: SRole, e: SEntry, f: Seq<char>, v: SExpr) -> Seq<char> {
    "`"@ + r.name + "."@ + e.name + "`: invariant `value_conserved` violated: scalar return assigns value-bearing field `"@ + f + "` via expression `"@ + render(v) + "` which is not conservation-preserving (must be a bare carry `"@ + f + "` or a single additive adjustment `"@ + f + " + e` / `"@ + f + " - e`; multiplicative, constant, or double-self forms create or destroy value); if intentional, declare the entry `#[covenant(mode = transition, supply_change = <authority>)]` (a checked-model capability whose named committed authority must be guaranteed to sign)"@
}

/// The messages for value-bearing field `f` assigned `v`, in the order of
/// [`c1_field_count`]; `scalar` selects the scalar-return wording.
pub open spec fn c1_field_msgs(r: SRole, e: SEntry, f: Seq<char>, v: SExpr, scalar: bool) -> Seq<Seq<char>> {
    match state_ty(r, f) {
        Some(t) => if !value_bearing(f, t) {
            seq![]
        } else {
            match verdict(e, f, v) {
                SVerdict::Preserving => seq![],
                SVerdict::Unguarded => seq![unguarded_text(r, e, f, first_unguarded(e, conserving_term(f, v)->0))],
                SVerdict::BadShape => if e.supply_change is Some {
                    seq![]
                } else if scalar {
                    seq![bad_scalar_text(r, e, f, v)]
                } else {
                    seq![bad_field_text(r, e, f, v)]
                },
            }
        },
        None => seq![],
    }
}

/// The `value_conserved` messages of statement `k`.
pub open spec fn c1_stmt_msgs(r: SRole, e: SEntry, k: int) -> Seq<Seq<char>> {
    match e.body[k] {
        SStmt::Return(SReturn::Object(_, fs)) => cat_to(
            fs.len() as int,
            |i: int| c1_field_msgs(r, e, fs[i].0, fs[i].1, false),
        ),
        SStmt::Return(SReturn::Scalar(x)) => match first_ref(r, x, 0) {
            Some(j) => c1_field_msgs(r, e, r.state[j].name, x, true),
            None => seq![],
        },
        _ => seq![],
    }
}

/// The `value_conserved` messages of a transition.
pub open spec fn c1_entry_msgs(r: SRole, e: SEntry) -> Seq<Seq<char>> {
    if e.mode != CovenantMode::Transition {
        seq![]
    } else {
        cat_to(e.body.len() as int, |k: int| c1_stmt_msgs(r, e, k))
    }
}

/// The `value_conserved` messages of a role.
pub open spec fn c1_msgs(r: SRole, value_conserved: bool) -> Seq<Seq<char>> {
    if !value_conserved {
        seq![]
    } else {
        cat_to(r.entrypoints.len() as int, |j: int| c1_entry_msgs(r, r.entrypoints[j]))
    }
}

/// The message for an adjustment atom whose sign the entrypoint never
/// establishes.
fn unguarded_term_message(role: &Role, entry: &Entry, field: &str, atom: &Expr, exempt: bool) -> (s: String)
    requires
        exempt == (entry_v(*entry).supply_change is Some),
    ensures
        s@ == unguarded_text(role_v(*role), entry_v(*entry), field@, expr_v(*atom)),
{
    proof {
        reveal_with_fuel(crate::structure::concat, 16);
    }
    let a = atom.to_silverscript();
    let note = if exempt {
        " The `supply_change` capability authorises a SUPPLY CHANGE, not a sign inversion, so it does NOT waive this check."
    } else {
        ""
    };
    text_of(
        vec![
            "`",
            role.name.as_str(),
            ".",
            entry.name.as_str(),
            "`: invariant `value_conserved` violated: value-bearing field `",
            field,
            "` is adjusted by a term containing `",
            a.as_str(),
            "`, whose sign this entrypoint never establishes \u{2014} a negative value INVERTS the adjustment (`",
            field,
            " - e` inflates the field; `",
            field,
            " + e` drains it). Every `+`-atom of the adjustment must be a non-negative int literal or a name guarded HERE by `requires <name> >= 0;` (a genesis-committed field does not qualify \u{2014} genesis can commit a negative).",
            note,
        ],
    )
}

/// The message for an object-return field in a shape that is not
/// conservation-preserving.
fn bad_field_message(role: &Role, entry: &Entry, field: &str, value: &Expr) -> (s: String)
    ensures
        s@ == bad_field_text(role_v(*role), entry_v(*entry), field@, expr_v(*value)),
{
    proof {
        reveal_with_fuel(crate::structure::concat, 22);
    }
    let v = value.to_silverscript();
    text_of(
        vec![
            "`",
            role.name.as_str(),
            ".",
            entry.name.as_str(),
            "`: invariant `value_conserved` violated: value-bearing field `",
            field,
            "` is assigned `",
            v.as_str(),
            "` which is not conservation-preserving (must be a bare carry `",
            field,
            ": ",
            field,
            "` or a single additive adjustment `",
            field,
            ": ",
            field,
            " + e` / `",
            field,
            ": ",
            field,
            " - e`; multiplicative, constant, or double-self forms create or destroy value); if intentional, declare the entry `#[covenant(mode = transition, supply_change = <authority>)]` (a checked-model capability whose named committed authority must be guaranteed to sign)",
        ],
    )
}

/// The message for a scalar return broadcast into a value-bearing field in a
/// shape that is not conservation-preserving.
fn bad_scalar_message(role: &Role, entry: &Entry, field: &str, value: &Expr) -> (s: String)
    ensures
        s@ == bad_scalar_text(role_v(*role), entry_v(*entry), field@, expr_v(*value)),
{
    proof {
        reveal_with_fuel(crate::structure::concat, 18);
    }
    let v = value.to_silverscript();
    text_of(
        vec![
            "`",
            role.name.as_str(),
            ".",
            entry.name.as_str(),
            "`: invariant `value_conserved` violated: scalar return assigns value-bearing field `",
            field,
            "` via expression `",
            v.as_str(),
            "` which is not conservation-preserving (must be a bare carry `",
            field,
            "` or a single additive adjustment `",
            field,
            " + e` / `",
            field,
            " - e`; multiplicative, constant, or double-self forms create or destroy value); if intentional, declare the entry `#[covenant(mode = transition, supply_change = <authority>)]` (a checked-model capability whose named committed authority must be guaranteed to sign)",
        ],
    )
}

/// The index of the first state field `x` mentions.
fn first_state_ref(role: &Role, x: &Expr) -> (r: Option<usize>)
    ensures
        match r {
            Some(j) => j < role.state.len() && first_ref(role_v(*role), expr_v(*x), 0) == Some(j as int),
            None => first_ref(role_v(*role), expr_v(*x), 0) is None,
        },
{
    let ghost rv = role_v(*role);
    let mut j: usize = 0;
    while j < role.state.len()
        invariant
            rv == role_v(*role),
            j <= role.state.len(),
            first_ref(rv, expr_v(*x), 0) == first_ref(rv, expr_v(*x), j as int),
        decreases role.state.len() - j,
    {
        assert(rv.state[j as int] == crate::model::field_v(role.state@[j as int]));
        if references_var(x, role.state[j].name.as_str()) {
            return Some(j);
        }
        j += 1;
    }
    None
}

/// Checks one value-bearing assignment `field: value`; `scalar` selects the
/// scalar-return wording.
fn check_c1_field(
    role: &Role,
    entry: &Entry,
    field: &String,
    value: &Expr,
    scalar: bool,
    diags: &mut Vec<Diagnostic>,
)
    ensures
        extends(
            old(diags)@,
            final(diags)@,
            c1_field_count(role_v(*role), entry_v(*entry), field@, expr_v(*value)),
        ),
        says(old(diags)@, final(diags)@, c1_field_msgs(role_v(*role), entry_v(*entry), field@, expr_v(*value), scalar)),
{
    let ghost start = diags@;
    let ghost target = c1_field_msgs(role_v(*role), entry_v(*entry), field@, expr_v(*value), scalar);
    proof {
        lemma_extends_refl(diags@);
        lemma_says_refl(diags@);
    }
    match find_state_ty(role, field) {
        Some(ty) => {
            if !is_value_bearing(field.as_str(), &ty) {
                return;
            }
            let exempt = entry.supply_change.is_some();
            match is_conservation_preserving(entry, field.as_str(), value) {
                Verdict::Preserving => {},
                Verdict::Unguarded(atom) => {
                    let m = unguarded_term_message(role, entry, field.as_str(), atom, exempt);
                    report(diags, m, Ghost(start), Ghost(0));
                    proof {
                        lemma_says_push(start, start, seq![], Diagnostic { message: m });
                        assert(seq![].push(m@) =~= target);
                    }
                },
                Verdict::BadShape => {
                    if !exempt {
                        let m = if scalar {
                            bad_scalar_message(role, entry, field.as_str(), value)
                        } else {
                            bad_field_message(role, entry, field.as_str(), value)
                        };
                        report(diags, m, Ghost(start), Ghost(0));
                        proof {
                            lemma_says_push(start, start, seq![], Diagnostic { message: m });
                            assert(seq![].push(m@) =~= target);
                        }
                    }
                },
            }
        },
        None => {},
    }
}

/// Checks the returns of one transition under `value_conserved`.
#[verifier::loop_isolation(false)]
fn check_c1_entry(role: &Role, entry: &Entry, diags: &mut Vec<Diagnostic>)
    ensures
        extends(old(diags)@, final(diags)@, c1_entry_count(role_v(*role), entry_v(*entry))),
        says(old(diags)@, final(diags)@, c1_entry_msgs(role_v(*role), entry_v(*entry))),
{
    let ghost rv = role_v(*role);
    let ghost ev = entry_v(*entry);
    let ghost start = diags@;
    let ghost gs = |q: int| c1_stmt_msgs(rv, ev, q);
    proof {
        lemma_extends_refl(diags@);
        lemma_says_refl(diags@);
    }
    match entry.mode {
        CovenantMode::Transition => {},
        _ => {
            return;
        },
    }
    let mut k: usize = 0;
    while k < entry.body.len()
        invariant
            rv == role_v(*role),
            ev == entry_v(*entry),
            k <= entry.body.len(),
            extends(start, diags@, sum_to(k as int, |q: int| c1_stmt_count(rv, ev, q))),
            gs == (|q: int| c1_stmt_msgs(rv, ev, q)),
            says(start, diags@, cat_to(k as int, gs)),
        decreases entry.body.len() - k,
    {
        assert(ev.body[k as int] == stmt_v(entry.body@[k as int]));
        let ghost mid = diags@;
        proof {
            lemma_extends_refl(diags@);
            lemma_says_refl(diags@);
        }
        match &entry.body[k] {
            Stmt::Return(ReturnExpr::Object { fields, .. }) => {
                let ghost fv = pairs_v(fields@);
                let ghost gf = |q: int| c1_field_msgs(rv, ev, fv[q].0, fv[q].1, false);
                let mut i: usize = 0;
                while i < fields.len()
                    invariant
                        fv == pairs_v(fields@),
                        i <= fields.len(),
                        extends(mid, diags@, sum_to(i as int, |q: int| c1_field_count(rv, ev, fv[q].0, fv[q].1))),
                        gf == (|q: int| c1_field_msgs(rv, ev, fv[q].0, fv[q].1, false)),
                        says(mid, diags@, cat_to(i as int, gf)),
                    decreases fields.len() - i,
                {
                    let ghost before = diags@;
                    assert(fv[i as int] == (fields@[i as int].0@, expr_v(fields@[i as int].1)));
                    check_c1_field(role, entry, &fields[i].0, &fields[i].1, false, diags);
                    proof {
                        lemma_sum_step(i as int, |q: int| c1_field_count(rv, ev, fv[q].0, fv[q].1));
                        lemma_extends_trans(mid, before, diags@, sum_to(i as int, |q: int| c1_field_count(rv, ev, fv[q].0, fv[q].1)), c1_field_count(rv, ev, fv[i as int].0, fv[i as int].1));
                        lemma_says_step(mid, before, diags@, gf, i as int);
                    }
                    i += 1;
                }
                assert(gs(k as int) == cat_to(fields.len() as int, gf));
            },
            Stmt::Return(ReturnExpr::Scalar(x)) => {
                match first_state_ref(role, x) {
                    Some(j) => {
                        assert(rv.state[j as int] == crate::model::field_v(role.state@[j as int]));
                        check_c1_field(role, entry, &role.state[j].name, x, true, diags);
                    },
                    None => {
                        proof {
                            lemma_says_refl(diags@);
                        }
                    },
                }
            },
            _ => {
                proof {
                    lemma_says_refl(diags@);
                }
            },
        }
        proof {
            lemma_sum_step(k as int, |q: int| c1_stmt_count(rv, ev, q));
            lemma_extends_trans(start, mid, diags@, sum_to(k as int, |q: int| c1_stmt_count(rv, ev, q)), c1_stmt_count(rv, ev, k as int));
            lemma_says_step(start, mid, diags@, gs, k as int);
        }
        k += 1;
    }
}

/// Checks, under `value_conserved`, that every value-bearing field a
/// transition assigns is carried or adjusted by one sign-guarded additive
/// term (a supply-change capability waives the shape, not the sign).
pub fn check_c1_value_conservation(role: &Role, value_conserved: bool, diags: &mut Vec<Diagnostic>)
    ensures
        extends(old(diags)@, final(diags)@, c1_count(role_v(*role), value_conserved)),
        says(old(diags)@, final(diags)@, c1_msgs(role_v(*role), value_conserved)),
{
    let ghost rv = role_v(*role);
    let ghost start = diags@;
    let ghost ge = |q: int| c1_entry_msgs(rv, rv.entrypoints[q]);
    proof {
        lemma_extends_refl(diags@);
        lemma_says_refl(diags@);
    }
    if !value_conserved {
        return;
    }
    let mut j: usize = 0;
    while j < role.entrypoints.len()
        invariant
            rv == role_v(*role),
            j <= role.entrypoints.len(),
            extends(start, diags@, sum_to(j as int, |q: int| c1_entry_count(rv, rv.entrypoints[q]))),
            ge == (|q: int| c1_entry_msgs(rv, rv.entrypoints[q])),
            says(start, diags@, cat_to(j as int, ge)),
        decreases role.entrypoints.len() - j,
    {
        let entry = &role.entrypoints[j];
        assert(rv.entrypoints[j as int] == entry_v(*entry));
        let ghost mid = diags@;
        check_c1_entry(role, entry, diags);
        proof {
            lemma_sum_step(j as int, |q: int| c1_entry_count(rv, rv.entrypoints[q]));
            lemma_extends_trans(start, mid, diags@, sum_to(j as int, |q: int| c1_entry_count(rv, rv.entrypoints[q])), c1_entry_count(rv, entry_v(*entry)));
            lemma_says_step(start, mid, diags@, ge, j as int);
        }
        j += 1;
    }
}

// ── conservation_split ──────────────────────────────────────────────────

/// The type of the first state field named `n`, from index `j` on.
pub open spec fn first_field_ty(r: SRole, n: Seq<char>, j: int) -> Option<SType>
    decreases r.state.len() - j,
{
    if j < 0 || j >= r.state.len() {
        None
    } else if r.state[j].name == n {
        Some(r.state[j].ty)
    } else {
        first_field_ty(r, n, j + 1)
    }
}

/// Return field `f` is value-bearing for the split check.
pub open spec fn split_leg(r: SRole, f: (Seq<char>, SExpr)) -> bool {
    match first_field_ty(r, f.0, 0) {
        Some(t) => value_bearing_split(f.0, t),
        None => false,
    }
}

/// What return field `f` does to its value (non-value fields are ignored,
/// as carries).
pub open spec fn leg_shape(r: SRole, f: (Seq<char>, SExpr)) -> SAdjust {
    if split_leg(r, f) {
        split_adjust(f.0, f.1)
    } else {
        SAdjust::Carry
    }
}

/// The terms by which the first `i` fields increase.
pub open spec fn increases(r: SRole, fs: Seq<(Seq<char>, SExpr)>, i: int) -> Seq<SExpr>
    decreases i,
{
    if i <= 0 || i > fs.len() {
        Seq::empty()
    } else {
        increases(r, fs, i - 1) + match leg_shape(r, fs[i - 1]) {
            SAdjust::Increase(t) => seq![t],
            _ => Seq::empty(),
        }
    }
}

/// The terms by which the first `i` fields decrease.
pub open spec fn decreases_of(r: SRole, fs: Seq<(Seq<char>, SExpr)>, i: int) -> Seq<SExpr>
    decreases i,
{
    if i <= 0 || i > fs.len() {
        Seq::empty()
    } else {
        decreases_of(r, fs, i - 1) + match leg_shape(r, fs[i - 1]) {
            SAdjust::Decrease(t) => seq![t],
            _ => Seq::empty(),
        }
    }
}

/// The terms of every moved leg among the first `i` fields, in order.
pub open spec fn moved(r: SRole, fs: Seq<(Seq<char>, SExpr)>, i: int) -> Seq<SExpr>
    decreases i,
{
    if i <= 0 || i > fs.len() {
        Seq::empty()
    } else {
        moved(r, fs, i - 1) + match leg_shape(r, fs[i - 1]) {
            SAdjust::Increase(t) => seq![t],
            SAdjust::Decrease(t) => seq![t],
            _ => Seq::empty(),
        }
    }
}

/// The value fields among the first `i` that change in a non-additive
/// shape.
pub open spec fn non_additive(r: SRole, fs: Seq<(Seq<char>, SExpr)>, i: int) -> Seq<Seq<char>>
    decreases i,
{
    if i <= 0 || i > fs.len() {
        Seq::empty()
    } else {
        non_additive(r, fs, i - 1) + match leg_shape(r, fs[i - 1]) {
            SAdjust::Other => seq![fs[i - 1].0],
            _ => Seq::empty(),
        }
    }
}

/// The atoms of all the terms, in order.
pub open spec fn flat_atoms(ts: Seq<SExpr>) -> Seq<SExpr>
    decreases ts.len(),
{
    if ts.len() == 0 {
        Seq::empty()
    } else {
        flat_atoms(ts.drop_last()) + atoms(ts.last())
    }
}

/// The `conservation_split` diagnostic of one object return (at most one):
/// a non-additive value field (unless exempt), else a leg with an unguarded
/// atom, else (unless exempt) a split that only increases or only
/// decreases, or whose added atoms do not cancel the subtracted ones as
/// multisets.
pub open spec fn split_return_count(r: SRole, e: SEntry, fs: Seq<(Seq<char>, SExpr)>) -> int {
    let n = fs.len() as int;
    let inc = increases(r, fs, n);
    let dec = decreases_of(r, fs, n);
    let legs = moved(r, fs, n);
    let bad = non_additive(r, fs, n);
    let exempt = e.supply_change is Some;
    if legs.len() == 0 && bad.len() == 0 {
        0
    } else if bad.len() > 0 && !exempt {
        1
    } else if exists|i: int| 0 <= i < legs.len() && !term_guarded(e, #[trigger] legs[i]) {
        1
    } else if exempt {
        0
    } else if inc.len() == 0 || dec.len() == 0 {
        1
    } else if flat_atoms(inc).to_multiset() != flat_atoms(dec).to_multiset() {
        1
    } else {
        0
    }
}

pub open spec fn split_stmt_count(r: SRole, e: SEntry, k: int) -> int {
    match e.body[k] {
        SStmt::Return(SReturn::Object(_, fs)) => split_return_count(r, e, fs),
        _ => 0,
    }
}

pub open spec fn split_entry_count(r: SRole, e: SEntry) -> int {
    if e.mode != CovenantMode::Transition {
        0
    } else {
        sum_to(e.body.len() as int, |k: int| split_stmt_count(r, e, k))
    }
}

/// The `conservation_split` diagnostics of a role.
pub open spec fn split_count(r: SRole) -> int {
    sum_to(r.entrypoints.len() as int, |j: int| split_entry_count(r, r.entrypoints[j]))
}

/// The fields of every moved leg among the first `i` fields, in order.
pub open spec fn moved_fields(r: SRole, fs: Seq<(Seq<char>, SExpr)>, i: int) -> Seq<Seq<char>>
    decreases i,
{
    if i <= 0 || i > fs.len() {
        Seq::empty()
    } else {
        moved_fields(r, fs, i - 1) + match leg_shape(r, fs[i - 1]) {
            SAdjust::Increase(_) => seq![fs[i - 1].0],
            SAdjust::Decrease(_) => seq![fs[i - 1].0],
            _ => Seq::empty(),
        }
    }
}

/// The index of the first of `ts[i..]` with an unguarded atom, or
/// `ts.len()`.
pub open spec fn bad_leg(e: SEntry, ts: Seq<SExpr>, i: int) -> int
    decreases ts.len() - i,
{
    if i < 0 || i >= ts.len() {
        ts.len() as int
    } else if !term_guarded(e, ts[i]) {
        i
    } else {
        bad_leg(e, ts, i + 1)
    }
}

/// The first `n` expressions rendered and joined by `", "`.
pub open spec fn render_join(ts: Seq<SExpr>, n: int) -> Seq<char>
    decreases n,
{
    if n <= 0 {
        Seq::empty()
    } else if n == 1 {
        render(ts[0])
    } else {
        render_join(ts, n - 1) + ", "@ + render(ts[n - 1])
    }
}

/// The `conservation_split` message of one object return, in the order of
/// [`split_return_count`].
pub open spec fn split_return_msgs(r: SRole, e: SEntry, fs: Seq<(Seq<char>, SExpr)>) -> Seq<Seq<char>> {
    let n = fs.len() as int;
    let inc = increases(r, fs, n);
    let dec = decreases_of(r, fs, n);
    let legs = moved(r, fs, n);
    let bad = non_additive(r, fs, n);
    let exempt = e.supply_change is Some;
    let w = "`"@ + r.name + "."@ + e.name + "`: invariant `conservation_split` violated: "@;
    if legs.len() == 0 && bad.len() == 0 {
        seq![]
    } else if bad.len() > 0 && !exempt {
        seq![w + "value-bearing field `"@ + bad[0] + "` changes in a non-additive shape (expected each value-bearing field to carry `f: f`, increase `f: f + e`, or decrease `f: f - e`; multiplicative, constant, or double-self forms are not analyzable as a value delta)"@]
    } else if exists|i: int| 0 <= i < legs.len() && !term_guarded(e, #[trigger] legs[i]) {
        let q = bad_leg(e, legs, 0);
        seq![w + "the leg on value-bearing field `"@ + moved_fields(r, fs, n)[q] + "` is adjusted by a term containing `"@ + render(first_unguarded(e, legs[q])) + "`, whose sign this entrypoint never establishes \u{2014} a negative value REVERSES the transfer (the source leg gains and the destination leg is drained). Every `+`-atom of each leg's term must be a non-negative int literal or a name guarded HERE by `requires <name> >= 0;` (a genesis-committed field does not qualify \u{2014} genesis can commit a negative)."@ + (if exempt {
            " The `supply_change` capability authorises a SUPPLY CHANGE, not a sign inversion, so it does NOT waive this check."@
        } else {
            ""@
        })]
    } else if exempt {
        seq![]
    } else if inc.len() == 0 || dec.len() == 0 {
        seq![w + "an internal split must move value BETWEEN value-bearing fields \u{2014} found "@ + decimal(inc.len()) + " field(s) increasing and "@ + decimal(dec.len()) + " decreasing (a lone increase mints value; a lone decrease drains it with no matching counter-field). Use `value_conserved` for a value-out spend."@]
    } else if flat_atoms(inc).to_multiset() != flat_atoms(dec).to_multiset() {
        seq![w + "the value added across fields ({"@ + render_join(flat_atoms(inc), flat_atoms(inc).len() as int) + "}) does not cancel the value subtracted ({"@ + render_join(
            flat_atoms(dec),
            flat_atoms(dec).len() as int,
        ) + "}) \u{2014} the deltas must net to zero (the same terms moved out of some fields and into others)"@]
    } else {
        seq![]
    }
}

pub open spec fn split_stmt_msgs(r: SRole, e: SEntry, k: int) -> Seq<Seq<char>> {
    match e.body[k] {
        SStmt::Return(SReturn::Object(_, fs)) => split_return_msgs(r, e, fs),
        _ => seq![],
    }
}

pub open spec fn split_entry_msgs(r: SRole, e: SEntry) -> Seq<Seq<char>> {
    if e.mode != CovenantMode::Transition {
        seq![]
    } else {
        cat_to(e.body.len() as int, |k: int| split_stmt_msgs(r, e, k))
    }
}

/// The `conservation_split` messages of a role.
pub open spec fn split_msgs(r: SRole) -> Seq<Seq<char>> {
    cat_to(r.entrypoints.len() as int, |j: int| split_entry_msgs(r, r.entrypoints[j]))
}

pub open spec fn views(s: Seq<&Expr>) -> Seq<SExpr> {
    s.map_values(|x: &Expr| expr_v(*x))
}

/// Whether the added atoms cancel the subtracted atoms: each added atom
/// takes away the first equal subtracted atom left, and nothing may be left
/// on either side.
pub fn atoms_cancel(plus: &Vec<&Expr>, minus: &Vec<&Expr>) -> (b: bool)
    ensures
        b == (views(plus@).to_multiset() == views(minus@).to_multiset()),
{
    broadcast use {vstd::seq_lib::group_to_multiset_ensures, vstd::multiset::group_multiset_axioms};
    let ghost pv = views(plus@);
    let ghost mm = views(minus@).to_multiset();
    let mut remaining: Vec<&Expr> = Vec::new();
    let mut q: usize = 0;
    assert(views(remaining@) =~= views(minus@).subrange(0, 0));
    while q < minus.len()
        invariant
            q <= minus.len(),
            views(remaining@) == views(minus@).subrange(0, q as int),
        decreases minus.len() - q,
    {
        let ghost before = views(remaining@);
        remaining.push(minus[q]);
        assert(views(remaining@) =~= before.push(expr_v(*minus@[q as int])));
        assert(views(remaining@) =~= views(minus@).subrange(0, q + 1));
        q += 1;
    }
    assert(views(minus@).subrange(0, minus.len() as int) =~= views(minus@));
    let ghost mut un: Multiset<SExpr> = Multiset::empty();
    let mut unmatched: usize = 0;
    let mut i: usize = 0;
    assert(pv.subrange(0, 0) =~= Seq::<SExpr>::empty());
    assert(pv.subrange(0, 0).to_multiset() =~= Multiset::<SExpr>::empty());
    assert(un.add(mm) =~= pv.subrange(0, 0).to_multiset().add(views(remaining@).to_multiset()));
    while i < plus.len()
        invariant
            pv == views(plus@),
            mm == views(minus@).to_multiset(),
            i <= plus.len(),
            unmatched == un.len(),
            unmatched <= i,
            un.add(mm) == pv.subrange(0, i as int).to_multiset().add(views(remaining@).to_multiset()),
            forall|x: SExpr| un.count(x) > 0 ==> views(remaining@).to_multiset().count(x) == 0,
        decreases plus.len() - i,
    {
        let p = plus[i];
        let ghost px = expr_v(*p);
        assert(pv[i as int] == px);
        assert(pv.subrange(0, i + 1) =~= pv.subrange(0, i as int).push(px));
        let ghost pi = pv.subrange(0, i as int).to_multiset();
        assert(pv.subrange(0, i + 1).to_multiset() =~= pi.insert(px));
        let ghost rv = views(remaining@);
        let ghost rm = rv.to_multiset();
        let mut pos: usize = 0;
        let mut found = false;
        while pos < remaining.len() && !found
            invariant
                rv == views(remaining@),
                px == expr_v(*p),
                pos <= remaining.len(),
                found ==> pos < remaining.len() && rv[pos as int] == px,
                !found ==> forall|z: int| 0 <= z < pos ==> rv[z] != px,
            decreases remaining.len() - pos + if found { 0int } else { 1int },
        {
            assert(rv[pos as int] == expr_v(*remaining@[pos as int]));
            if expr_eq(remaining[pos], p) {
                found = true;
            } else {
                pos += 1;
            }
        }
        if found {
            assert(rm.count(px) > 0);
            remaining.remove(pos);
            assert(views(remaining@) =~= rv.remove(pos as int));
            assert(views(remaining@).to_multiset() =~= rm.remove(px));
            assert(un.add(mm) =~= pv.subrange(0, i + 1).to_multiset().add(views(remaining@).to_multiset()));
        } else {
            assert forall|z: int| 0 <= z < rv.len() implies rv[z] != px by {}
            assert(!rv.contains(px));
            assert(rm.count(px) == 0);
            let ghost old_un = un;
            proof {
                un = un.insert(px);
            }
            unmatched = unmatched + 1;
            assert forall|x: SExpr| #[trigger] un.add(mm).count(x) == pi.insert(px).add(rm).count(x) by {
                assert(old_un.add(mm).count(x) == pi.add(rm).count(x));
            }
            assert(un.add(mm) =~= pv.subrange(0, i + 1).to_multiset().add(views(remaining@).to_multiset()));
        }
        i += 1;
    }
    assert(pv.subrange(0, plus.len() as int) =~= pv);
    let b = unmatched == 0 && remaining.len() == 0;
    proof {
        let rm = views(remaining@).to_multiset();
        let pm = pv.to_multiset();
        assert forall|x: SExpr| #[trigger] un.count(x) + mm.count(x) == pm.count(x) + rm.count(x) by {
            assert(un.add(mm).count(x) == pm.add(rm).count(x));
        }
        if b {
            assert(un =~= Multiset::<SExpr>::empty());
            assert(views(remaining@) =~= Seq::<SExpr>::empty());
            assert(rm =~= Multiset::<SExpr>::empty());
            assert forall|x: SExpr| pm.count(x) == mm.count(x) by {
                assert(un.count(x) + mm.count(x) == pm.count(x) + rm.count(x));
            }
            assert(pm =~= mm);
        }
        if pm == mm {
            assert forall|x: SExpr| un.count(x) == 0 by {
                assert(un.count(x) + mm.count(x) == pm.count(x) + rm.count(x));
            }
            assert(un =~= Multiset::<SExpr>::empty());
            assert forall|x: SExpr| rm.count(x) == 0 by {
                assert(un.count(x) + mm.count(x) == pm.count(x) + rm.count(x));
            }
            assert(rm =~= Multiset::<SExpr>::empty());
            assert(views(remaining@).len() == 0);
        }
    }
    b
}

/// The type of the first state field named `n`.
pub(crate) fn first_field_type<'a>(role: &'a Role, n: &String) -> (r: Option<&'a Type>)
    ensures
        match r {
            Some(t) => first_field_ty(role_v(*role), n@, 0) == Some(type_v(*t)),
            None => first_field_ty(role_v(*role), n@, 0) is None,
        },
{
    let ghost rv = role_v(*role);
    let mut j: usize = 0;
    while j < role.state.len()
        invariant
            rv == role_v(*role),
            j <= role.state.len(),
            first_field_ty(rv, n@, 0) == first_field_ty(rv, n@, j as int),
        decreases role.state.len() - j,
    {
        assert(rv.state[j as int] == crate::model::field_v(role.state@[j as int]));
        if crate::lookup::same(&role.state[j].name, n) {
            return Some(&role.state[j].ty);
        }
        j += 1;
    }
    None
}

/// Renders the expressions joined by `", "`.
fn render_all(v: &Vec<&Expr>) -> (s: String)
    ensures
        s@ == render_join(views(v@), v.len() as int),
{
    let mut s = String::new();
    let mut i: usize = 0;
    while i < v.len()
        invariant
            i <= v.len(),
            s@ == render_join(views(v@), i as int),
        decreases v.len() - i,
    {
        assert(views(v@)[i as int] == expr_v(*v@[i as int]));
        let ghost s0 = s@;
        if i > 0 {
            s.append(", ");
        }
        let r = v[i].to_silverscript();
        s.append(r.as_str());
        proof {
            if i == 0 {
                assert(s@ =~= s0 + r@);
                assert(s0 =~= Seq::<char>::empty());
                assert(s@ =~= r@);
            }
        }
        i += 1;
    }
    s
}

/// The atoms of all of `ts`, in order.
fn flatten_all<'a>(ts: &Vec<&'a Expr>) -> (out: Vec<&'a Expr>)
    ensures
        views(out@) == flat_atoms(views(ts@)),
{
    let ghost tv = views(ts@);
    let mut out: Vec<&'a Expr> = Vec::new();
    let mut q: usize = 0;
    assert(tv.subrange(0, 0) =~= Seq::<SExpr>::empty());
    assert(views(out@) =~= flat_atoms(tv.subrange(0, 0)));
    while q < ts.len()
        invariant
            tv == views(ts@),
            q <= ts.len(),
            views(out@) == flat_atoms(tv.subrange(0, q as int)),
        decreases ts.len() - q,
    {
        crate::adjust::flatten_add_atoms(ts[q], &mut out);
        assert(tv.subrange(0, q + 1).drop_last() =~= tv.subrange(0, q as int));
        assert(tv.subrange(0, q + 1).last() == expr_v(*ts@[q as int]));
        q += 1;
    }
    assert(tv.subrange(0, ts.len() as int) =~= tv);
    out
}

/// Checks one object return of a transition under `conservation_split`.
#[verifier::loop_isolation(false)]
fn split_return(role: &Role, entry: &Entry, fields: &Vec<(String, Expr)>, diags: &mut Vec<Diagnostic>)
    ensures
        extends(old(diags)@, final(diags)@, split_return_count(role_v(*role), entry_v(*entry), pairs_v(fields@))),
        says(old(diags)@, final(diags)@, split_return_msgs(role_v(*role), entry_v(*entry), pairs_v(fields@))),
{
    let ghost rv = role_v(*role);
    let ghost ev = entry_v(*entry);
    let ghost fv = pairs_v(fields@);
    let ghost start = diags@;
    let ghost target = split_return_msgs(rv, ev, fv);
    proof {
        lemma_extends_refl(diags@);
        lemma_says_refl(diags@);
    }
    let mut inc: Vec<&Expr> = Vec::new();
    let mut dec: Vec<&Expr> = Vec::new();
    let mut legs: Vec<&Expr> = Vec::new();
    let mut leg_fields: Vec<&String> = Vec::new();
    let mut bad: Vec<&String> = Vec::new();
    let mut i: usize = 0;
    assert(views(inc@) =~= increases(rv, fv, 0));
    assert(views(dec@) =~= decreases_of(rv, fv, 0));
    assert(views(legs@) =~= moved(rv, fv, 0));
    assert(bad@.map_values(|f: &String| f@) =~= non_additive(rv, fv, 0));
    assert(leg_fields@.map_values(|f: &String| f@) =~= moved_fields(rv, fv, 0));
    while i < fields.len()
        invariant
            fv == pairs_v(fields@),
            i <= fields.len(),
            views(inc@) == increases(rv, fv, i as int),
            views(dec@) == decreases_of(rv, fv, i as int),
            views(legs@) == moved(rv, fv, i as int),
            leg_fields.len() == legs.len(),
            leg_fields@.map_values(|f: &String| f@) == moved_fields(rv, fv, i as int),
            bad@.map_values(|f: &String| f@) == non_additive(rv, fv, i as int),
        decreases fields.len() - i,
    {
        let field = &fields[i].0;
        let value = &fields[i].1;
        assert(fv[i as int] == (field@, expr_v(*value)));
        let vb = match first_field_type(role, field) {
            Some(t) => is_value_bearing_split(field.as_str(), t),
            None => false,
        };
        assert(vb == split_leg(rv, fv[i as int]));
        let ghost i0 = inc@;
        let ghost d0 = dec@;
        let ghost l0 = legs@;
        let ghost b0 = bad@;
        if vb {
            match classify_split_adjust(field.as_str(), value) {
                Adjust::Carry => {},
                Adjust::Decrease(t) => {
                    dec.push(t);
                    legs.push(t);
                    leg_fields.push(field);
                },
                Adjust::Increase(t) => {
                    inc.push(t);
                    legs.push(t);
                    leg_fields.push(field);
                },
                Adjust::Other => {
                    bad.push(field);
                },
            }
        }
        assert(views(inc@) =~= increases(rv, fv, i + 1));
        assert(views(dec@) =~= decreases_of(rv, fv, i + 1));
        assert(views(legs@) =~= moved(rv, fv, i + 1));
        assert(bad@.map_values(|f: &String| f@) =~= non_additive(rv, fv, i + 1));
        assert(leg_fields@.map_values(|f: &String| f@) =~= moved_fields(rv, fv, i + 1));
        i += 1;
    }
    assert(moved_fields(rv, fv, fv.len() as int).len() == moved(rv, fv, fv.len() as int).len());
    proof {
        reveal_with_fuel(crate::structure::concat, 16);
    }
    let exempt = entry.supply_change.is_some();
    if legs.len() == 0 && bad.len() == 0 {
        return;
    }
    let w = text_of(vec!["`", role.name.as_str(), ".", entry.name.as_str(), "`: invariant `conservation_split` violated: "]);
    if bad.len() > 0 && !exempt {
        let m = text_of(
            vec![
                w.as_str(),
                "value-bearing field `",
                bad[0].as_str(),
                "` changes in a non-additive shape (expected each value-bearing field to carry `f: f`, increase `f: f + e`, or decrease `f: f - e`; multiplicative, constant, or double-self forms are not analyzable as a value delta)",
            ],
        );
        report(diags, m, Ghost(start), Ghost(0));
        proof {
            assert(bad@.map_values(|f: &String| f@)[0] == bad@[0]@);
            lemma_says_push(start, start, seq![], Diagnostic { message: m });
            assert(seq![].push(m@) =~= target);
        }
        return;
    }
    let ghost lv = views(legs@);
    let mut li: usize = 0;
    while li < legs.len()
        invariant
            lv == views(legs@),
            extends(start, diags@, 0),
            diags@ == start,
            li <= legs.len(),
            leg_fields.len() == legs.len(),
            forall|q: int| 0 <= q < li ==> term_guarded(ev, #[trigger] lv[q]),
            bad_leg(ev, lv, 0) == bad_leg(ev, lv, li as int),
        decreases legs.len() - li,
    {
        assert(lv[li as int] == expr_v(*legs@[li as int]));
        match unguarded_additive_atom(entry, legs[li]) {
            Some(atom) => {
                let a = atom.to_silverscript();
                let note = if exempt {
                    " The `supply_change` capability authorises a SUPPLY CHANGE, not a sign inversion, so it does NOT waive this check."
                } else {
                    ""
                };
                let m = text_of(
                    vec![
                        w.as_str(),
                        "the leg on value-bearing field `",
                        leg_fields[li].as_str(),
                        "` is adjusted by a term containing `",
                        a.as_str(),
                        "`, whose sign this entrypoint never establishes \u{2014} a negative value REVERSES the transfer (the source leg gains and the destination leg is drained). Every `+`-atom of each leg's term must be a non-negative int literal or a name guarded HERE by `requires <name> >= 0;` (a genesis-committed field does not qualify \u{2014} genesis can commit a negative).",
                        note,
                    ],
                );
                report(diags, m, Ghost(start), Ghost(0));
                proof {
                    assert(leg_fields@.map_values(|f: &String| f@)[li as int] == leg_fields@[li as int]@);
                    assert(bad_leg(ev, lv, li as int) == li);
                    lemma_says_push(start, start, seq![], Diagnostic { message: m });
                    assert(seq![].push(m@) =~= target);
                }
                return;
            },
            None => {},
        }
        li += 1;
    }
    assert(exempt == (ev.supply_change is Some));
    assert(!exists|q: int| 0 <= q < lv.len() && !term_guarded(ev, #[trigger] lv[q]));
    if exempt {
        return;
    }
    if inc.len() == 0 || dec.len() == 0 {
        let ni = crate::text::usize_to_string(inc.len());
        let nd = crate::text::usize_to_string(dec.len());
        let m = text_of(
            vec![
                w.as_str(),
                "an internal split must move value BETWEEN value-bearing fields \u{2014} found ",
                ni.as_str(),
                " field(s) increasing and ",
                nd.as_str(),
                " decreasing (a lone increase mints value; a lone decrease drains it with no matching counter-field). Use `value_conserved` for a value-out spend.",
            ],
        );
        report(diags, m, Ghost(start), Ghost(0));
        proof {
            lemma_says_push(start, start, seq![], Diagnostic { message: m });
            assert(seq![].push(m@) =~= target);
        }
        return;
    }
    let plus = flatten_all(&inc);
    let minus = flatten_all(&dec);
    if !atoms_cancel(&plus, &minus) {
        let added = render_all(&plus);
        let subtracted = render_all(&minus);
        let m = text_of(
            vec![
                w.as_str(),
                "the value added across fields ({",
                added.as_str(),
                "}) does not cancel the value subtracted ({",
                subtracted.as_str(),
                "}) \u{2014} the deltas must net to zero (the same terms moved out of some fields and into others)",
            ],
        );
        report(diags, m, Ghost(start), Ghost(0));
        proof {
            lemma_says_push(start, start, seq![], Diagnostic { message: m });
            assert(seq![].push(m@) =~= target);
        }
    } else {
        proof {
            assert(diags@ =~= start);
        }
    }
}

/// Checks one transition under `conservation_split`.
#[verifier::loop_isolation(false)]
fn split_entry(role: &Role, entry: &Entry, diags: &mut Vec<Diagnostic>)
    ensures
        extends(old(diags)@, final(diags)@, split_entry_count(role_v(*role), entry_v(*entry))),
        says(old(diags)@, final(diags)@, split_entry_msgs(role_v(*role), entry_v(*entry))),
{
    let ghost rv = role_v(*role);
    let ghost ev = entry_v(*entry);
    let ghost start = diags@;
    let ghost gs = |q: int| split_stmt_msgs(rv, ev, q);
    proof {
        lemma_extends_refl(diags@);
        lemma_says_refl(diags@);
    }
    match entry.mode {
        CovenantMode::Transition => {},
        _ => {
            return;
        },
    }
    let mut k: usize = 0;
    while k < entry.body.len()
        invariant
            rv == role_v(*role),
            ev == entry_v(*entry),
            k <= entry.body.len(),
            extends(start, diags@, sum_to(k as int, |q: int| split_stmt_count(rv, ev, q))),
            gs == (|q: int| split_stmt_msgs(rv, ev, q)),
            says(start, diags@, cat_to(k as int, gs)),
        decreases entry.body.len() - k,
    {
        assert(ev.body[k as int] == stmt_v(entry.body@[k as int]));
        let ghost mid = diags@;
        proof {
            lemma_extends_refl(diags@);
            lemma_says_refl(diags@);
        }
        match &entry.body[k] {
            Stmt::Return(ReturnExpr::Object { fields, .. }) => {
                split_return(role, entry, fields, diags);
            },
            _ => {},
        }
        proof {
            lemma_sum_step(k as int, |q: int| split_stmt_count(rv, ev, q));
            lemma_extends_trans(start, mid, diags@, sum_to(k as int, |q: int| split_stmt_count(rv, ev, q)), split_stmt_count(rv, ev, k as int));
            lemma_says_step(start, mid, diags@, gs, k as int);
        }
        k += 1;
    }
}

/// Checks, under `conservation_split`, that every transfer between
/// value-bearing fields nets to zero: the added atoms cancel the subtracted
/// atoms, every leg's term is sign-guarded, and nothing changes in a
/// non-additive shape.
pub fn check_conservation_split(role: &Role, diags: &mut Vec<Diagnostic>)
    ensures
        extends(old(diags)@, final(diags)@, split_count(role_v(*role))),
        says(old(diags)@, final(diags)@, split_msgs(role_v(*role))),
{
    let ghost rv = role_v(*role);
    let ghost start = diags@;
    let ghost ge = |q: int| split_entry_msgs(rv, rv.entrypoints[q]);
    proof {
        lemma_extends_refl(diags@);
        lemma_says_refl(diags@);
    }
    let mut j: usize = 0;
    while j < role.entrypoints.len()
        invariant
            rv == role_v(*role),
            j <= role.entrypoints.len(),
            extends(start, diags@, sum_to(j as int, |q: int| split_entry_count(rv, rv.entrypoints[q]))),
            ge == (|q: int| split_entry_msgs(rv, rv.entrypoints[q])),
            says(start, diags@, cat_to(j as int, ge)),
        decreases role.entrypoints.len() - j,
    {
        let entry = &role.entrypoints[j];
        assert(rv.entrypoints[j as int] == entry_v(*entry));
        let ghost mid = diags@;
        split_entry(role, entry, diags);
        proof {
            lemma_sum_step(j as int, |q: int| split_entry_count(rv, rv.entrypoints[q]));
            lemma_extends_trans(start, mid, diags@, sum_to(j as int, |q: int| split_entry_count(rv, rv.entrypoints[q])), split_entry_count(rv, entry_v(*entry)));
            lemma_says_step(start, mid, diags@, ge, j as int);
        }
        j += 1;
    }
}

} // verus!
