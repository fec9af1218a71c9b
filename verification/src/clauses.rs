//! Per-role clause checks: arguments must not shadow committed names, params
//! and fields must not take the emitter's reserved names or repeat, every
//! `pays(index, payee, amount)` binds a committed payee and a committed,
//! value-bearing (or drawn-down) amount at an unused output index of a
//! transition, and every `after(deadline)` gates a transition on committed
//! time.

use vstd::prelude::*;
use crate::adjust::{SAdjust, Adjust, atoms, atoms_of, classify_split_adjust, contains_expr, split_adjust, term_guarded, unguarded_additive_atom};
use crate::ast::{CovenantMode, Entry, Expr, ReturnExpr, Role, Stmt, Type};
use crate::lookup::{committed, has_arg, is_arg, is_committed, is_value_bearing, same, value_bearing};
use crate::model::{SEntry, SExpr, SReturn, SRole, SStmt, SType, entry_v, expr_v, pairs_v, param_v, role_v, stmt_v, type_v};
use crate::structure::{Diagnostic, cat_to, lemma_says_step, msgs, extends, lemma_extends_refl, lemma_extends_trans, lemma_says_none, lemma_says_one, lemma_says_refl, lemma_says_trans, lemma_sum_step, says, sum_to, text_of};
use crate::text::{decimal, str_eq, usize_to_string};
use crate::typing::{last_param, report, state_ty};

verus! {

broadcast use vstd::seq_lib::group_seq_properties;

// ── argument shadowing ──────────────────────────────────────────────────

/// One diagnostic per entrypoint argument that reuses a committed name.
pub open spec fn shadow_count(r: SRole) -> int {
    sum_to(
        r.entrypoints.len() as int,
        |j: int|
            sum_to(
                r.entrypoints[j].args.len() as int,
                |k: int|
                    if committed(r, r.entrypoints[j].args[k].name) {
                        1int
                    } else {
                        0int
                    },
            ),
    )
}

/// The message for argument `k` of entrypoint `e`, if it shadows.
pub open spec fn shadow_arg_msgs(r: SRole, e: SEntry, k: int) -> Seq<Seq<char>> {
    if committed(r, e.args[k].name) {
        seq!["`"@ + r.name + "."@ + e.name + "`: entrypoint argument `"@ + e.args[k].name
            + "` shadows a committed name (a role param or state field); rename the argument \u{2014} a caller-supplied binding must not reuse a genesis-committed name (it would be mistaken for committed state and is a duplicate binding at emit)"@]
    } else {
        seq![]
    }
}

/// The shadowing messages of an entrypoint.
pub open spec fn shadow_entry_msgs(r: SRole, e: SEntry) -> Seq<Seq<char>> {
    cat_to(e.args.len() as int, |k: int| shadow_arg_msgs(r, e, k))
}

/// The shadowing messages of a role.
pub open spec fn shadow_msgs(r: SRole) -> Seq<Seq<char>> {
    cat_to(r.entrypoints.len() as int, |j: int| shadow_entry_msgs(r, r.entrypoints[j]))
}

/// Checks that no entrypoint argument reuses a role param or state field
/// name.
#[verifier::loop_isolation(false)]
pub fn check_arg_shadowing(role: &Role, diags: &mut Vec<Diagnostic>)
    ensures
        extends(old(diags)@, final(diags)@, shadow_count(role_v(*role))),
        says(old(diags)@, final(diags)@, shadow_msgs(role_v(*role))),
{
    let ghost rv = role_v(*role);
    let ghost start = diags@;
    let ghost ge = |q: int| shadow_entry_msgs(rv, rv.entrypoints[q]);
    proof {
        lemma_extends_refl(diags@);
        lemma_says_refl(diags@);
    }
    let mut j: usize = 0;
    while j < role.entrypoints.len()
        invariant
            rv == role_v(*role),
            j <= role.entrypoints.len(),
            extends(
                start,
                diags@,
                sum_to(
                    j as int,
                    |q: int|
                        sum_to(
                            rv.entrypoints[q].args.len() as int,
                            |k: int|
                                if committed(rv, rv.entrypoints[q].args[k].name) {
                                    1int
                                } else {
                                    0int
                                },
                        ),
                ),
            ),
            ge == (|q: int| shadow_entry_msgs(rv, rv.entrypoints[q])),
            says(start, diags@, cat_to(j as int, ge)),
        decreases role.entrypoints.len() - j,
    {
        let entry = &role.entrypoints[j];
        assert(rv.entrypoints[j as int] == entry_v(*entry));
        let ghost ev = entry_v(*entry);
        let ghost mid = diags@;
        let ghost f = |k: int|
            if committed(rv, ev.args[k].name) {
                1int
            } else {
                0int
            };
        let ghost gm = |k: int| shadow_arg_msgs(rv, ev, k);
        proof {
            lemma_extends_refl(diags@);
            lemma_says_refl(diags@);
        }
        let mut k: usize = 0;
        while k < entry.args.len()
            invariant
                rv == role_v(*role),
                ev == entry_v(*entry),
                k <= entry.args.len(),
                extends(mid, diags@, sum_to(k as int, f)),
                gm == (|q: int| shadow_arg_msgs(rv, ev, q)),
                says(mid, diags@, cat_to(k as int, gm)),
            decreases entry.args.len() - k,
        {
            let a = &entry.args[k];
            assert(ev.args[k as int] == param_v(*a));
            let ghost d0 = diags@;
            if is_committed(role, &a.name) {
                let m = text_of(
                    vec![
                        "`",
                        role.name.as_str(),
                        ".",
                        entry.name.as_str(),
                        "`: entrypoint argument `",
                        a.name.as_str(),
                        "` shadows a committed name (a role param or state field); rename the argument \u{2014} a caller-supplied binding must not reuse a genesis-committed name (it would be mistaken for committed state and is a duplicate binding at emit)",
                    ],
                );
                report(diags, m, Ghost(mid), Ghost(sum_to(k as int, f)));
                proof {
                    reveal_with_fuel(crate::structure::concat, 8);
                    assert(gm(k as int) =~= seq![m@]);
                    lemma_says_one(mid, d0, gm, k as int, Diagnostic { message: m });
                }
            } else {
                proof {
                    assert(gm(k as int) =~= Seq::<Seq<char>>::empty());
                    lemma_says_none(mid, d0, gm, k as int);
                }
            }
            proof {
                lemma_sum_step(k as int, f);
            }
            k += 1;
        }
        proof {
            lemma_extends_trans(start, mid, diags@, sum_to(j as int, |q: int| sum_to(rv.entrypoints[q].args.len() as int, |k: int| if committed(rv, rv.entrypoints[q].args[k].name) { 1int } else { 0int })), sum_to(ev.args.len() as int, f));
            assert(sum_to(ev.args.len() as int, f) == (|q: int| sum_to(rv.entrypoints[q].args.len() as int, |k: int| if committed(rv, rv.entrypoints[q].args[k].name) { 1int } else { 0int }))(j as int));
            assert(ge(j as int) == cat_to(ev.args.len() as int, gm));
            lemma_says_step(start, mid, diags@, ge, j as int);
        }
        j += 1;
    }
}

// ── reserved and repeated names ─────────────────────────────────────────

/// The identifiers the emitter injects into every contract signature.
pub open spec fn reserved(n: Seq<char>) -> bool {
    n == "max_ins"@ || n == "max_outs"@
}

/// One diagnostic per reserved param or field name, and per param that
/// repeats an earlier param's name.
pub open spec fn names_count(r: SRole) -> int {
    sum_to(
        r.params.len() as int,
        |i: int|
            if reserved(r.params[i].name) {
                1int
            } else {
                0int
            },
    ) + sum_to(
        r.state.len() as int,
        |i: int|
            if reserved(r.state[i].name) {
                1int
            } else {
                0int
            },
    ) + sum_to(
        r.params.len() as int,
        |i: int|
            if exists|j: int| 0 <= j < i && #[trigger] r.params[j].name == r.params[i].name {
                1int
            } else {
                0int
            },
    )
}

/// The message for a reserved param name.
pub open spec fn reserved_param_msgs(r: SRole, i: int) -> Seq<Seq<char>> {
    if reserved(r.params[i].name) {
        seq!["`"@ + r.name + "`: role param `"@ + r.params[i].name
            + "` is a RESERVED emitter identifier \u{2014} the Engraver injects `int "@ + r.params[i].name
            + "` into every contract signature as the covenant's own input/output bound. A param of that name shadows it and hands control of the bound to the deployer. Rename the param."@]
    } else {
        seq![]
    }
}

/// The message for a reserved field name.
pub open spec fn reserved_field_msgs(r: SRole, i: int) -> Seq<Seq<char>> {
    if reserved(r.state[i].name) {
        seq!["`"@ + r.name + "`: state field `"@ + r.state[i].name
            + "` is a RESERVED emitter identifier \u{2014} the Engraver injects `int "@ + r.state[i].name
            + "` into every contract signature as the covenant's own input/output bound. Rename the field."@]
    } else {
        seq![]
    }
}

/// The message for a param that repeats an earlier one's name.
pub open spec fn repeated_param_msgs(r: SRole, i: int) -> Seq<Seq<char>> {
    if exists|j: int| 0 <= j < i && #[trigger] r.params[j].name == r.params[i].name {
        seq!["`"@ + r.name + "`: role param `"@ + r.params[i].name
            + "` is declared more than once. Genesis binding is by name, so a duplicate makes the initialiser for `"@
            + r.params[i].name + "` ambiguous and the second declaration unreachable; remove or rename it."@]
    } else {
        seq![]
    }
}

/// The messages for reserved param and field names and repeated params.
pub open spec fn names_msgs(r: SRole) -> Seq<Seq<char>> {
    cat_to(r.params.len() as int, |i: int| reserved_param_msgs(r, i)) + cat_to(
        r.state.len() as int,
        |i: int| reserved_field_msgs(r, i),
    ) + cat_to(r.params.len() as int, |i: int| repeated_param_msgs(r, i))
}

fn is_reserved(n: &String) -> (b: bool)
    ensures
        b == reserved(n@),
{
    str_eq(n.as_str(), "max_ins") || str_eq(n.as_str(), "max_outs")
}

/// Checks that no param or field takes a reserved emitter name and that no
/// param name repeats.
#[verifier::loop_isolation(false)]
pub fn check_reserved_and_duplicate_names(role: &Role, diags: &mut Vec<Diagnostic>)
    ensures
        extends(old(diags)@, final(diags)@, names_count(role_v(*role))),
        says(old(diags)@, final(diags)@, names_msgs(role_v(*role))),
{
    let ghost rv = role_v(*role);
    let ghost start = diags@;
    let ghost g1 = |i: int| reserved_param_msgs(rv, i);
    let ghost g2 = |i: int| reserved_field_msgs(rv, i);
    let ghost g3 = |i: int| repeated_param_msgs(rv, i);
    let ghost f1 = |i: int|
        if reserved(rv.params[i].name) {
            1int
        } else {
            0int
        };
    let ghost f2 = |i: int|
        if reserved(rv.state[i].name) {
            1int
        } else {
            0int
        };
    let ghost f3 = |i: int|
        if exists|j: int| 0 <= j < i && #[trigger] rv.params[j].name == rv.params[i].name {
            1int
        } else {
            0int
        };
    proof {
        lemma_extends_refl(diags@);
        lemma_says_refl(diags@);
        reveal_with_fuel(crate::structure::concat, 8);
    }
    let mut i: usize = 0;
    while i < role.params.len()
        invariant
            rv == role_v(*role),
            i <= role.params.len(),
            extends(start, diags@, sum_to(i as int, f1)),
            says(start, diags@, cat_to(i as int, g1)),
        decreases role.params.len() - i,
    {
        let p = &role.params[i];
        assert(rv.params[i as int] == param_v(*p));
        let ghost d0 = diags@;
        if is_reserved(&p.name) {
            let m = text_of(
                vec![
                    "`",
                    role.name.as_str(),
                    "`: role param `",
                    p.name.as_str(),
                    "` is a RESERVED emitter identifier \u{2014} the Engraver injects `int ",
                    p.name.as_str(),
                    "` into every contract signature as the covenant's own input/output bound. A param of that name shadows it and hands control of the bound to the deployer. Rename the param.",
                ],
            );
            report(diags, m, Ghost(start), Ghost(sum_to(i as int, f1)));
            proof {
                assert(g1(i as int) =~= seq![m@]);
                lemma_says_one(start, d0, g1, i as int, Diagnostic { message: m });
            }
        } else {
            proof {
                assert(g1(i as int) =~= Seq::<Seq<char>>::empty());
                lemma_says_none(start, d0, g1, i as int);
            }
        }
        proof {
            lemma_sum_step(i as int, f1);
        }
        i += 1;
    }
    let ghost a1 = diags@;
    proof {
        lemma_says_refl(diags@);
    }
    let mut i: usize = 0;
    while i < role.state.len()
        invariant
            rv == role_v(*role),
            i <= role.state.len(),
            extends(start, diags@, sum_to(role.params.len() as int, f1) + sum_to(i as int, f2)),
            says(a1, diags@, cat_to(i as int, g2)),
        decreases role.state.len() - i,
    {
        let f = &role.state[i];
        assert(rv.state[i as int] == crate::model::field_v(*f));
        let ghost d0 = diags@;
        if is_reserved(&f.name) {
            let m = text_of(
                vec![
                    "`",
                    role.name.as_str(),
                    "`: state field `",
                    f.name.as_str(),
                    "` is a RESERVED emitter identifier \u{2014} the Engraver injects `int ",
                    f.name.as_str(),
                    "` into every contract signature as the covenant's own input/output bound. Rename the field.",
                ],
            );
            report(diags, m, Ghost(start), Ghost(sum_to(role.params.len() as int, f1) + sum_to(i as int, f2)));
            proof {
                assert(g2(i as int) =~= seq![m@]);
                lemma_says_one(a1, d0, g2, i as int, Diagnostic { message: m });
            }
        } else {
            proof {
                assert(g2(i as int) =~= Seq::<Seq<char>>::empty());
                lemma_says_none(a1, d0, g2, i as int);
            }
        }
        proof {
            lemma_sum_step(i as int, f2);
        }
        i += 1;
    }
    let ghost a2 = diags@;
    proof {
        lemma_says_trans(start, a1, a2, cat_to(role.params.len() as int, g1), cat_to(role.state.len() as int, g2));
        lemma_says_refl(diags@);
    }
    let mut i: usize = 0;
    while i < role.params.len()
        invariant
            rv == role_v(*role),
            i <= role.params.len(),
            extends(
                start,
                diags@,
                sum_to(role.params.len() as int, f1) + sum_to(role.state.len() as int, f2)
                    + sum_to(i as int, f3),
            ),
            says(a2, diags@, cat_to(i as int, g3)),
        decreases role.params.len() - i,
    {
        let p = &role.params[i];
        assert(rv.params[i as int] == param_v(*p));
        let ghost d0 = diags@;
        let mut j: usize = 0;
        let mut dup = false;
        while j < i
            invariant
                rv == role_v(*role),
                i < role.params.len(),
                j <= i,
                dup == exists|q: int| 0 <= q < j && #[trigger] rv.params[q].name == rv.params[i as int].name,
            decreases i - j,
        {
            assert(rv.params[j as int] == param_v(role.params@[j as int]));
            if same(&role.params[j].name, &p.name) {
                assert(rv.params[j as int].name == rv.params[i as int].name);
                dup = true;
            }
            j += 1;
        }
        if dup {
            let m = text_of(
                vec![
                    "`",
                    role.name.as_str(),
                    "`: role param `",
                    p.name.as_str(),
                    "` is declared more than once. Genesis binding is by name, so a duplicate makes the initialiser for `",
                    p.name.as_str(),
                    "` ambiguous and the second declaration unreachable; remove or rename it.",
                ],
            );
            report(diags, m, Ghost(start), Ghost(sum_to(role.params.len() as int, f1) + sum_to(role.state.len() as int, f2) + sum_to(i as int, f3)));
            proof {
                assert(g3(i as int) =~= seq![m@]);
                lemma_says_one(a2, d0, g3, i as int, Diagnostic { message: m });
            }
        } else {
            proof {
                assert(g3(i as int) =~= Seq::<Seq<char>>::empty());
                lemma_says_none(a2, d0, g3, i as int);
            }
        }
        proof {
            lemma_sum_step(i as int, f3);
        }
        i += 1;
    }
    proof {
        lemma_says_trans(start, a2, diags@, cat_to(role.params.len() as int, g1) + cat_to(role.state.len() as int, g2), cat_to(role.params.len() as int, g3));
    }
}

// ── pays ────────────────────────────────────────────────────────────────

/// The type a committed name was declared with: a state field's, else a
/// param's.
pub open spec fn committed_ty(r: SRole, n: Seq<char>) -> Option<SType> {
    match state_ty(r, n) {
        Some(t) => Some(t),
        None => last_param(r.params, n, r.params.len() as int),
    }
}

/// The fields of the first object return from statement `k` on.
pub open spec fn first_object(body: Seq<SStmt>, k: int) -> Option<Seq<(Seq<char>, SExpr)>>
    decreases body.len() - k,
{
    if k < 0 || k >= body.len() {
        None
    } else {
        match body[k] {
            SStmt::Return(SReturn::Object(_, fs)) => Some(fs),
            _ => first_object(body, k + 1),
        }
    }
}

/// `field: value` decreases a value-bearing state field by a sign-guarded
/// term with `amount` among its atoms.
pub open spec fn draws_down(r: SRole, e: SEntry, fv: (Seq<char>, SExpr), amount: Seq<char>) -> bool {
    &&& exists|j: int|
        0 <= j < r.state.len() && #[trigger] r.state[j].name == fv.0 && value_bearing(
            r.state[j].name,
            r.state[j].ty,
        )
    &&& match split_adjust(fv.0, fv.1) {
        SAdjust::Decrease(t) => atoms(t).contains(SExpr::Var(amount)) && term_guarded(e, t),
        _ => false,
    }
}

/// The entrypoint's first object return draws `amount` down from a
/// value-bearing field.
pub open spec fn drawn_down(r: SRole, e: SEntry, amount: Seq<char>) -> bool {
    match first_object(e.body, 0) {
        Some(fs) => exists|i: int| 0 <= i < fs.len() && draws_down(r, e, #[trigger] fs[i], amount),
        None => false,
    }
}

/// An earlier statement of the body binds output `idx` too.
pub open spec fn index_repeats(e: SEntry, k: int, idx: int) -> bool {
    exists|q: int| 0 <= q < k && #[trigger] e.body[q] is Pays && e.body[q]->Pays_0 == idx
}

/// The diagnostics for statement `k` of entrypoint `e`: a repeated output
/// index, a non-transition entrypoint, an uncommitted payee, and an amount
/// that is not committed, or is neither value-bearing nor drawn down.
pub open spec fn pays_stmt_count(r: SRole, e: SEntry, k: int) -> int {
    match e.body[k] {
        SStmt::Pays(idx, payee, amount) => (if index_repeats(e, k, idx) {
            1int
        } else {
            0int
        }) + (if e.mode != CovenantMode::Transition {
            1int
        } else {
            0int
        }) + (if !committed(r, payee) {
            1int
        } else {
            0int
        }) + (if !committed(r, amount) {
            1int
        } else {
            match committed_ty(r, amount) {
                Some(t) => if !value_bearing(amount, t) && !(t == SType::Int && drawn_down(
                    r,
                    e,
                    amount,
                )) {
                    1int
                } else {
                    0int
                },
                None => 0int,
            }
        }),
        _ => 0,
    }
}

/// The `` `role.entry` `` prefix of a diagnostic.
pub open spec fn where_text(r: SRole, e: SEntry) -> Seq<char> {
    "`"@ + r.name + "."@ + e.name + "`"@
}

/// The messages for statement `k` of entrypoint `e`, in the order of
/// [`pays_stmt_count`]'s cases.
pub open spec fn pays_stmt_msgs(r: SRole, e: SEntry, k: int) -> Seq<Seq<char>> {
    let w = where_text(r, e);
    match e.body[k] {
        SStmt::Pays(idx, payee, amount) => (if index_repeats(e, k, idx) {
            seq![w + ": two `pays(...)` clauses bind output index "@ + decimal(idx as nat)
                + "; each output index may be bound at most once per entrypoint (the second binding would silently overwrite the first)"@]
        } else {
            seq![]
        }) + (if e.mode != CovenantMode::Transition {
            seq![w
                + ": `pays(...)` is only valid in a `mode = transition` entrypoint (a non-transition body is not lowered to a covenant, so the output binding would be silently dropped)"@]
        } else {
            seq![]
        }) + (if !committed(r, payee) {
            seq![w + ": `pays(...)` payee `"@ + payee + "` must resolve to COMMITTED state; it is "@ + (if is_arg(e, payee) {
                "a spender-supplied argument \u{2014} binding an output to a caller-chosen destination is no binding at all"@
            } else {
                "not a committed name (declare it as a role param or state field)"@
            })]
        } else {
            seq![]
        }) + (if !committed(r, amount) {
            seq![w + ": `pays(...)` amount `"@ + amount + "` must resolve to COMMITTED state; it is "@ + (if is_arg(e, amount) {
                "a spender-supplied argument \u{2014} the bound amount must be the committed value"@
            } else {
                "not a committed name (declare it as a role param or state field)"@
            })]
        } else {
            match committed_ty(r, amount) {
                Some(t) => if !value_bearing(amount, t) && !(t == SType::Int && drawn_down(r, e, amount)) {
                    seq![w + ": `pays(...)` amount `"@ + amount
                        + "` is not value-bearing and is not drawn down by this entrypoint; bind a `coin` field (or a conventional balance name), or have this entrypoint's return DECREASE a value-bearing field by a guarded additive term containing `"@
                        + amount + "` (e.g. `balance: balance - "@ + amount + "` with `requires "@ + amount
                        + " >= 0;`), so the committed value is what is paid"@]
                } else {
                    seq![]
                },
                None => seq![],
            }
        }),
        _ => seq![],
    }
}

/// The `pays` messages of an entrypoint.
pub open spec fn pays_entry_msgs(r: SRole, e: SEntry) -> Seq<Seq<char>> {
    cat_to(e.body.len() as int, |k: int| pays_stmt_msgs(r, e, k))
}

/// The `pays` messages of a role.
pub open spec fn pays_msgs(r: SRole) -> Seq<Seq<char>> {
    cat_to(r.entrypoints.len() as int, |j: int| pays_entry_msgs(r, r.entrypoints[j]))
}

/// The `pays` diagnostics of an entrypoint.
pub open spec fn pays_entry_count(r: SRole, e: SEntry) -> int {
    sum_to(e.body.len() as int, |k: int| pays_stmt_count(r, e, k))
}

/// The `pays` diagnostics of a role.
pub open spec fn pays_count(r: SRole) -> int {
    sum_to(r.entrypoints.len() as int, |j: int| pays_entry_count(r, r.entrypoints[j]))
}

/// The declared type of committed name `n`.
fn committed_type(role: &Role, n: &String) -> (r: Option<Type>)
    ensures
        match r {
            Some(t) => committed_ty(role_v(*role), n@) == Some(type_v(t)),
            None => committed_ty(role_v(*role), n@) is None,
        },
{
    match crate::typing::find_state_ty(role, n) {
        Some(t) => Some(t),
        None => crate::typing::find_param_ty(&role.params, n),
    }
}

/// Whether `entry`'s first object return draws `amount` down.
#[verifier::loop_isolation(false)]
fn amount_is_drawn_down(role: &Role, entry: &Entry, amount: &String) -> (b: bool)
    ensures
        b == drawn_down(role_v(*role), entry_v(*entry), amount@),
{
    let ghost rv = role_v(*role);
    let ghost ev = entry_v(*entry);
    let mut k: usize = 0;
    while k < entry.body.len()
        invariant
            ev == entry_v(*entry),
            rv == role_v(*role),
            k <= entry.body.len(),
            first_object(ev.body, 0) == first_object(ev.body, k as int),
        decreases entry.body.len() - k,
    {
        assert(ev.body[k as int] == stmt_v(entry.body@[k as int]));
        match &entry.body[k] {
            Stmt::Return(ReturnExpr::Object { fields, .. }) => {
                let ghost fv = pairs_v(fields@);
                let mut i: usize = 0;
                while i < fields.len()
                    invariant
                        ev == entry_v(*entry),
                        rv == role_v(*role),
                        fv == pairs_v(fields@),
                        first_object(ev.body, 0) == Some(fv),
                        i <= fields.len(),
                        forall|q: int| 0 <= q < i ==> !draws_down(rv, ev, #[trigger] fv[q], amount@),
                    decreases fields.len() - i,
                {
                    assert(fv[i as int] == (fields@[i as int].0@, expr_v(fields@[i as int].1)));
                    if field_draws_down(role, entry, &fields[i].0, &fields[i].1, amount) {
                        assert(draws_down(rv, ev, fv[i as int], amount@));
                        return true;
                    }
                    i += 1;
                }
                return false;
            },
            _ => {},
        }
        k += 1;
    }
    false
}

/// Whether `field: value` draws `amount` down.
#[verifier::loop_isolation(false)]
fn field_draws_down(role: &Role, entry: &Entry, field: &String, value: &Expr, amount: &String) -> (b: bool)
    ensures
        b == draws_down(role_v(*role), entry_v(*entry), (field@, expr_v(*value)), amount@),
{
    let ghost rv = role_v(*role);
    let mut j: usize = 0;
    let mut found = false;
    while j < role.state.len()
        invariant
            rv == role_v(*role),
            j <= role.state.len(),
            found == exists|q: int|
                0 <= q < j && #[trigger] rv.state[q].name == field@ && value_bearing(
                    rv.state[q].name,
                    rv.state[q].ty,
                ),
        decreases role.state.len() - j,
    {
        let f = &role.state[j];
        assert(rv.state[j as int] == crate::model::field_v(*f));
        if same(&f.name, field) && is_value_bearing(f.name.as_str(), &f.ty) {
            assert(rv.state[j as int].name == field@ && value_bearing(rv.state[j as int].name, rv.state[j as int].ty));
            found = true;
        }
        j += 1;
    }
    if !found {
        return false;
    }
    match classify_split_adjust(field.as_str(), value) {
        Adjust::Decrease(term) => {
            let v = atoms_of(term);
            let target = Expr::Var(amount.clone());
            let has = contains_expr(&v, &target);
            has && unguarded_additive_atom(entry, term).is_none()
        },
        _ => false,
    }
}

/// The `` `role.entry` `` prefix of a diagnostic.
fn where_of(role: &Role, entry: &Entry) -> (s: String)
    ensures
        s@ == where_text(role_v(*role), entry_v(*entry)),
{
    proof {
        reveal_with_fuel(crate::structure::concat, 6);
    }
    text_of(vec!["`", role.name.as_str(), ".", entry.name.as_str(), "`"])
}

/// Checks every `pays(...)` clause of a role.
pub fn check_pays(role: &Role, diags: &mut Vec<Diagnostic>)
    ensures
        extends(old(diags)@, final(diags)@, pays_count(role_v(*role))),
        says(old(diags)@, final(diags)@, pays_msgs(role_v(*role))),
{
    let ghost rv = role_v(*role);
    let ghost start = diags@;
    let ghost g = |q: int| pays_entry_msgs(rv, rv.entrypoints[q]);
    proof {
        lemma_extends_refl(diags@);
        lemma_says_refl(diags@);
    }
    let mut j: usize = 0;
    while j < role.entrypoints.len()
        invariant
            rv == role_v(*role),
            j <= role.entrypoints.len(),
            extends(start, diags@, sum_to(j as int, |q: int| pays_entry_count(rv, rv.entrypoints[q]))),
            g == (|q: int| pays_entry_msgs(rv, rv.entrypoints[q])),
            says(start, diags@, cat_to(j as int, g)),
        decreases role.entrypoints.len() - j,
    {
        let entry = &role.entrypoints[j];
        assert(rv.entrypoints[j as int] == entry_v(*entry));
        let ghost mid = diags@;
        check_entry_pays(role, entry, diags);
        proof {
            lemma_extends_trans(start, mid, diags@, sum_to(j as int, |q: int| pays_entry_count(rv, rv.entrypoints[q])), pays_entry_count(rv, entry_v(*entry)));
            lemma_says_step(start, mid, diags@, g, j as int);
        }
        j += 1;
    }
}

/// Checks one `pays(index, payee, amount)` clause, statement `k` of `entry`.
fn check_one_pays(
    role: &Role,
    entry: &Entry,
    index: usize,
    payee: &String,
    amount: &String,
    dup: bool,
    transition: bool,
    Ghost(k): Ghost<int>,
    diags: &mut Vec<Diagnostic>,
)
    requires
        0 <= k < entry_v(*entry).body.len(),
        entry_v(*entry).body[k] == SStmt::Pays(index as int, payee@, amount@),
        dup == index_repeats(entry_v(*entry), k, index as int),
        transition == (entry_v(*entry).mode == CovenantMode::Transition),
    ensures
        extends(old(diags)@, final(diags)@, pays_stmt_count(role_v(*role), entry_v(*entry), k)),
        says(old(diags)@, final(diags)@, pays_stmt_msgs(role_v(*role), entry_v(*entry), k)),
{
    let ghost rv = role_v(*role);
    let ghost ev = entry_v(*entry);
    let ghost start = diags@;
    proof {
        lemma_extends_refl(diags@);
        reveal_with_fuel(crate::structure::concat, 12);
    }
    let w = where_of(role, entry);
    let idx_text = usize_to_string(index);
    let ghost n0 = 0int;
    let ghost mut acc: Seq<Seq<char>> = seq![];
    if dup {
        let m = text_of(
            vec![
                w.as_str(),
                ": two `pays(...)` clauses bind output index ",
                idx_text.as_str(),
                "; each output index may be bound at most once per entrypoint (the second binding would silently overwrite the first)",
            ],
        );
        report(diags, m, Ghost(start), Ghost(n0));
        proof {
            acc = acc.push(m@);
        }
    }
    let ghost n1 = n0 + if dup {
        1int
    } else {
        0int
    };
    if !transition {
        let m = text_of(
            vec![
                w.as_str(),
                ": `pays(...)` is only valid in a `mode = transition` entrypoint (a non-transition body is not lowered to a covenant, so the output binding would be silently dropped)",
            ],
        );
        report(diags, m, Ghost(start), Ghost(n1));
        proof {
            acc = acc.push(m@);
        }
    }
    let ghost n2 = n1 + if !transition {
        1int
    } else {
        0int
    };
    let payee_ok = is_committed(role, payee);
    if !payee_ok {
        let why = if has_arg(entry, payee) {
            "a spender-supplied argument \u{2014} binding an output to a caller-chosen destination is no binding at all"
        } else {
            "not a committed name (declare it as a role param or state field)"
        };
        let m = text_of(
            vec![
                w.as_str(),
                ": `pays(...)` payee `",
                payee.as_str(),
                "` must resolve to COMMITTED state; it is ",
                why,
            ],
        );
        report(diags, m, Ghost(start), Ghost(n2));
        proof {
            acc = acc.push(m@);
        }
    }
    let ghost n3 = n2 + if !payee_ok {
        1int
    } else {
        0int
    };
    if !is_committed(role, amount) {
        let why = if has_arg(entry, amount) {
            "a spender-supplied argument \u{2014} the bound amount must be the committed value"
        } else {
            "not a committed name (declare it as a role param or state field)"
        };
        let m = text_of(
            vec![
                w.as_str(),
                ": `pays(...)` amount `",
                amount.as_str(),
                "` must resolve to COMMITTED state; it is ",
                why,
            ],
        );
        report(diags, m, Ghost(start), Ghost(n3));
        proof {
            acc = acc.push(m@);
        }
    } else {
        match committed_type(role, amount) {
            Some(ty) => {
                let is_int = match ty {
                    Type::Int => true,
                    _ => false,
                };
                let drawn = is_int && amount_is_drawn_down(role, entry, amount);
                if !is_value_bearing(amount.as_str(), &ty) && !drawn {
                    let m = text_of(
                        vec![
                            w.as_str(),
                            ": `pays(...)` amount `",
                            amount.as_str(),
                            "` is not value-bearing and is not drawn down by this entrypoint; bind a `coin` field (or a conventional balance name), or have this entrypoint's return DECREASE a value-bearing field by a guarded additive term containing `",
                            amount.as_str(),
                            "` (e.g. `balance: balance - ",
                            amount.as_str(),
                            "` with `requires ",
                            amount.as_str(),
                            " >= 0;`), so the committed value is what is paid",
                        ],
                    );
                    report(diags, m, Ghost(start), Ghost(n3));
                    proof {
                        acc = acc.push(m@);
                    }
                }
            },
            None => {},
        }
    }
    proof {
        assert(acc =~= pays_stmt_msgs(rv, ev, k));
        assert(msgs(diags@) =~= msgs(start) + acc);
    }
}

/// Checks the `pays(...)` clauses of one entrypoint.
#[verifier::loop_isolation(false)]
fn check_entry_pays(role: &Role, entry: &Entry, diags: &mut Vec<Diagnostic>)
    ensures
        extends(old(diags)@, final(diags)@, pays_entry_count(role_v(*role), entry_v(*entry))),
        says(old(diags)@, final(diags)@, pays_entry_msgs(role_v(*role), entry_v(*entry))),
{
    let ghost rv = role_v(*role);
    let ghost ev = entry_v(*entry);
    let ghost start = diags@;
    let ghost g = |q: int| pays_stmt_msgs(rv, ev, q);
    proof {
        lemma_extends_refl(diags@);
        lemma_says_refl(diags@);
    }
    let transition = match entry.mode {
        CovenantMode::Transition => true,
        _ => false,
    };
    let mut seen: Vec<usize> = Vec::new();
    let mut k: usize = 0;
    while k < entry.body.len()
        invariant
            rv == role_v(*role),
            ev == entry_v(*entry),
            transition == (ev.mode == CovenantMode::Transition),
            k <= entry.body.len(),
            forall|x: usize| #[trigger] seen@.contains(x) <==> index_repeats(ev, k as int, x as int),
            extends(start, diags@, sum_to(k as int, |q: int| pays_stmt_count(rv, ev, q))),
            g == (|q: int| pays_stmt_msgs(rv, ev, q)),
            says(start, diags@, cat_to(k as int, g)),
        decreases entry.body.len() - k,
    {
        assert(ev.body[k as int] == stmt_v(entry.body@[k as int]));
        let ghost c = sum_to(k as int, |q: int| pays_stmt_count(rv, ev, q));
        let ghost d0 = diags@;
        match &entry.body[k] {
            Stmt::Pays { index, payee, amount } => {
                let mut dup = false;
                let mut q: usize = 0;
                while q < seen.len()
                    invariant
                        q <= seen.len(),
                        dup == exists|z: int| 0 <= z < q && seen@[z] == *index,
                    decreases seen.len() - q,
                {
                    if seen[q] == *index {
                        dup = true;
                    }
                    q += 1;
                }
                assert(dup == seen@.contains(*index));
                check_one_pays(role, entry, *index, payee, amount, dup, transition, Ghost(k as int), diags);
                proof {
                    lemma_extends_trans(start, d0, diags@, c, pays_stmt_count(rv, ev, k as int));
                    lemma_sum_step(k as int, |q: int| pays_stmt_count(rv, ev, q));
                    lemma_says_step(start, d0, diags@, g, k as int);
                }
                seen.push(*index);
                proof {
                    assert forall|x: usize| #[trigger] seen@.contains(x) <==> index_repeats(ev, k + 1, x as int) by {
                        if index_repeats(ev, k + 1, x as int) {
                            let q = choose|q: int| 0 <= q < k + 1 && #[trigger] ev.body[q] is Pays && ev.body[q]->Pays_0 == x as int;
                            if q < k {
                                assert(index_repeats(ev, k as int, x as int));
                            } else {
                                assert(seen@[seen@.len() - 1] == x);
                            }
                        }
                        if seen@.contains(x) {
                            let z = choose|z: int| 0 <= z < seen@.len() && seen@[z] == x;
                            if z < seen@.len() - 1 {
                                assert(seen@.drop_last().contains(x));
                                assert(index_repeats(ev, k as int, x as int));
                            }
                        }
                    }
                }
            },
            _ => {
                proof {
                    assert(g(k as int) =~= Seq::<Seq<char>>::empty());
                    lemma_says_none(start, d0, g, k as int);
                    assert forall|x: usize| #[trigger] seen@.contains(x) <==> index_repeats(ev, k + 1, x as int) by {
                        if index_repeats(ev, k + 1, x as int) {
                            let q = choose|q: int| 0 <= q < k + 1 && #[trigger] ev.body[q] is Pays && ev.body[q]->Pays_0 == x as int;
                            assert(q < k);
                        }
                    }
                }
            },
        }
        k += 1;
    }
}

} // verus!
