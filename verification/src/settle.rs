//! Settlements: a transition settles when a terminal lifecycle edge names it,
//! or (with no supply-change capability) when it flips a one-shot flag from
//! its unset value (`require f == 0;` + return `f: <nonzero>` or
//! `f: f + <nonzero>`; `require f == false;` + return `f: true`). Under
//! `invariant payout_bound;` every settling transition carries a `pays`
//! clause and at least one settling transition must exist.

use vstd::prelude::*;
use crate::ast::{App, BinOp, CovenantMode, Entry, Expr, ReturnExpr, Role, Stmt};
use crate::lookup::{body_has_pays, expr_eq, has_pays, same};
use crate::model::{SApp, SEntry, SExpr, SRole, app_v, edge_v, entry_v, expr_v, pairs_v, role_v, stmt_v};
use crate::structure::{Diagnostic, cat_to, extends, lemma_extends_refl, lemma_extends_trans, lemma_says_none, lemma_says_one, lemma_says_push, lemma_says_refl, lemma_says_step, lemma_sum_step, says, sum_to, text_of};
use crate::typing::report;

verus! {

broadcast use vstd::seq_lib::group_seq_properties;

/// The field a guard `f == unset` (or `unset == f`) pins, if any.
pub open spec fn pinned(x: SExpr, unset: SExpr) -> Option<Seq<char>> {
    match x {
        SExpr::Binary(op, l, r) => if op == BinOp::Eq {
            if (*l is Var) && *r == unset {
                Some(l->Var_0)
            } else if (*r is Var) && *l == unset {
                Some(r->Var_0)
            } else {
                None
            }
        } else {
            None
        },
        _ => None,
    }
}

/// Some guard pins int flag `f` to `0`.
pub open spec fn int_guarded(e: SEntry, f: Seq<char>) -> bool {
    exists|k: int|
        0 <= k < e.body.len() && #[trigger] e.body[k] is Require && pinned(
            e.body[k]->Require_0,
            SExpr::Int(0),
        ) == Some(f)
}

/// Some guard (that pins no int flag) pins bool flag `f` to `false`.
pub open spec fn bool_guarded(e: SEntry, f: Seq<char>) -> bool {
    exists|k: int|
        0 <= k < e.body.len() && #[trigger] e.body[k] is Require && pinned(
            e.body[k]->Require_0,
            SExpr::Int(0),
        ) is None && pinned(e.body[k]->Require_0, SExpr::Bool(false)) == Some(f)
}

pub open spec fn nonzero_lit(x: SExpr) -> bool {
    (x is Int) && x->Int_0 != 0
}

/// `v` sets int flag `f` from zero: a nonzero literal, or `f + <nonzero>` in
/// either order.
pub open spec fn flips(f: Seq<char>, v: SExpr) -> bool {
    match v {
        SExpr::Int(n) => n != 0,
        SExpr::Binary(op, l, r) => op == BinOp::Add && ((*l == SExpr::Var(f) && nonzero_lit(*r))
            || (nonzero_lit(*l) && *r == SExpr::Var(f))),
        _ => false,
    }
}

/// A return field that completes a guarded flip.
pub open spec fn flip_field(e: SEntry, fv: (Seq<char>, SExpr)) -> bool {
    (int_guarded(e, fv.0) && flips(fv.0, fv.1)) || (bool_guarded(e, fv.0) && fv.1 == SExpr::Bool(
        true,
    ))
}

/// The entrypoint flips a one-shot flag.
pub open spec fn settles(e: SEntry) -> bool {
    exists|k: int|
        0 <= k < e.body.len() && #[trigger] e.body[k] is Return && (e.body[k]->Return_0 is Object)
            && exists|i: int|
            0 <= i < e.body[k]->Return_0->Object_1.len() && flip_field(
                e,
                #[trigger] e.body[k]->Return_0->Object_1[i],
            )
}

/// A terminal lifecycle edge names `role.entry`.
pub open spec fn terminal_pair(a: SApp, role: Seq<char>, entry: Seq<char>) -> bool {
    exists|k: int|
        0 <= k < a.lifecycle.len() && #[trigger] a.lifecycle[k].terminal && a.lifecycle[k].via_role
            == role && a.lifecycle[k].via_entry == entry
}

/// `e` of role `r` is a settling transition.
pub open spec fn settling(a: SApp, r: SRole, e: SEntry) -> bool {
    e.mode == CovenantMode::Transition && (terminal_pair(a, r.name, e.name) || (
    e.supply_change is None && settles(e)))
}

pub open spec fn settling_in_role(a: SApp, r: SRole) -> int {
    sum_to(
        r.entrypoints.len() as int,
        |j: int|
            if settling(a, r, r.entrypoints[j]) {
                1int
            } else {
                0int
            },
    )
}

/// The number of settling transitions of an app.
pub open spec fn settling_count(a: SApp) -> int {
    sum_to(a.roles.len() as int, |i: int| settling_in_role(a, a.roles[i]))
}

pub open spec fn unpaid_in_role(a: SApp, r: SRole) -> int {
    sum_to(
        r.entrypoints.len() as int,
        |j: int|
            if settling(a, r, r.entrypoints[j]) && !has_pays(r.entrypoints[j].body) {
                1int
            } else {
                0int
            },
    )
}

/// The `payout_bound` diagnostics: one per settling transition without a
/// `pays`, and one more when nothing settles.
pub open spec fn payout_count(a: SApp) -> int {
    sum_to(a.roles.len() as int, |i: int| unpaid_in_role(a, a.roles[i])) + if settling_count(a)
        == 0 {
        1int
    } else {
        0int
    }
}

/// The message for a settling transition without a `pays` clause.
pub open spec fn unpaid_msgs(a: SApp, r: SRole, j: int) -> Seq<Seq<char>> {
    if settling(a, r, r.entrypoints[j]) && !has_pays(r.entrypoints[j].body) {
        seq!["`"@ + r.name + "."@ + r.entrypoints[j].name
            + "`: invariant `payout_bound` violated: a settling transition (a TERMINAL release, or one that flips a recognized one-shot flag from its unset to its set value) must bind its payout to a committed output via `pays(...)`; this path carries no `pays` clause (payout_bound is EXISTENCE-ONLY \u{2014} it does not verify the pays binds THIS settlement's own coin/payee, and it is NOT a value-conservation/KIP-9 mass proof; the L1 surplus caveat still applies)"@]
    } else {
        seq![]
    }
}

/// The message when no settling transition exists.
pub open spec fn no_settlement_text() -> Seq<char> {
    "invariant `payout_bound` declared but no settling transition was recognized: a settlement must be written as a recognized one-shot flag flip \u{2014} an int flip (`require f == 0;` + return `f: <nonzero>` or `f: f + <nonzero>`) or a bool flip (`require f == false;` + return `f: true`) \u{2014} or as a TERMINAL transition (a lifecycle edge marked `terminal`, which releases the coin and ends the lifecycle). Write the settlement in a recognized shape, or remove the invariant (a vacuous payout_bound must not pass green)"@
}

/// The `payout_bound` messages, in the order of [`payout_count`].
pub open spec fn payout_msgs(a: SApp) -> Seq<Seq<char>> {
    cat_to(
        a.roles.len() as int,
        |i: int| cat_to(a.roles[i].entrypoints.len() as int, |j: int| unpaid_msgs(a, a.roles[i], j)),
    ) + if settling_count(a) == 0 {
        seq![no_settlement_text()]
    } else {
        seq![]
    }
}

// ── executable ──────────────────────────────────────────────────────────

/// The field `x` pins to `unset`, if any.
fn pinned_field<'a>(x: &'a Expr, unset: &Expr) -> (r: Option<&'a String>)
    ensures
        match pinned(expr_v(*x), expr_v(*unset)) {
            Some(f) => r is Some && r->0@ == f,
            None => r is None,
        },
{
    match x {
        Expr::Binary { op: BinOp::Eq, lhs, rhs } => {
            match &**lhs {
                Expr::Var(f) => {
                    assert(expr_v(**lhs) == SExpr::Var(f@));
                    if expr_eq(rhs, unset) {
                        return Some(f);
                    }
                },
                _ => {
                    assert(!(expr_v(**lhs) is Var));
                },
            }
            match &**rhs {
                Expr::Var(f) => {
                    assert(expr_v(**rhs) == SExpr::Var(f@));
                    if expr_eq(lhs, unset) {
                        return Some(f);
                    }
                },
                _ => {
                    assert(!(expr_v(**rhs) is Var));
                },
            }
            None
        },
        _ => None,
    }
}

/// Whether a guard of `entry` pins int flag `f` to `0` (`int_flag`) or bool
/// flag `f` to `false` (otherwise).
fn guarded(entry: &Entry, f: &String, int_flag: bool) -> (b: bool)
    ensures
        b == if int_flag {
            int_guarded(entry_v(*entry), f@)
        } else {
            bool_guarded(entry_v(*entry), f@)
        },
{
    let ghost ev = entry_v(*entry);
    let zero = Expr::Int(0);
    let no = Expr::Bool(false);
    let mut k: usize = 0;
    while k < entry.body.len()
        invariant
            ev == entry_v(*entry),
            expr_v(zero) == SExpr::Int(0),
            expr_v(no) == SExpr::Bool(false),
            k <= entry.body.len(),
            forall|q: int|
                0 <= q < k ==> if int_flag {
                    !(#[trigger] ev.body[q] is Require && pinned(ev.body[q]->Require_0, SExpr::Int(0))
                        == Some(f@))
                } else {
                    !(ev.body[q] is Require && pinned(ev.body[q]->Require_0, SExpr::Int(0)) is None
                        && pinned(ev.body[q]->Require_0, SExpr::Bool(false)) == Some(f@))
                },
        decreases entry.body.len() - k,
    {
        assert(ev.body[k as int] == stmt_v(entry.body@[k as int]));
        match &entry.body[k] {
            Stmt::Require(x) => {
                match pinned_field(x, &zero) {
                    Some(g) => {
                        if int_flag && same(g, f) {
                            return true;
                        }
                    },
                    None => {
                        if !int_flag {
                            match pinned_field(x, &no) {
                                Some(g) => {
                                    if same(g, f) {
                                        return true;
                                    }
                                },
                                None => {},
                            }
                        }
                    },
                }
            },
            _ => {},
        }
        k += 1;
    }
    false
}

fn is_nonzero_lit(x: &Expr) -> (b: bool)
    ensures
        b == nonzero_lit(expr_v(*x)),
{
    match x {
        Expr::Int(n) => *n != 0,
        _ => false,
    }
}

fn is_var_named(x: &Expr, f: &String) -> (b: bool)
    ensures
        b == (expr_v(*x) == SExpr::Var(f@)),
{
    match x {
        Expr::Var(n) => same(n, f),
        _ => false,
    }
}

/// Whether `v` sets int flag `f` from zero.
fn flips_int_from_zero(f: &String, v: &Expr) -> (b: bool)
    ensures
        b == flips(f@, expr_v(*v)),
{
    match v {
        Expr::Int(n) => *n != 0,
        Expr::Binary { op: BinOp::Add, lhs, rhs } => (is_var_named(lhs, f) && is_nonzero_lit(rhs))
            || (is_nonzero_lit(lhs) && is_var_named(rhs, f)),
        _ => false,
    }
}

/// Whether `entry` flips a one-shot flag.
pub fn entry_settles(entry: &Entry) -> (b: bool)
    ensures
        b == settles(entry_v(*entry)),
{
    let ghost ev = entry_v(*entry);
    let mut k: usize = 0;
    while k < entry.body.len()
        invariant
            ev == entry_v(*entry),
            k <= entry.body.len(),
            forall|q: int|
                0 <= q < k ==> !(#[trigger] ev.body[q] is Return && (ev.body[q]->Return_0 is Object)
                    && exists|i: int|
                    0 <= i < ev.body[q]->Return_0->Object_1.len() && flip_field(
                        ev,
                        #[trigger] ev.body[q]->Return_0->Object_1[i],
                    )),
        decreases entry.body.len() - k,
    {
        assert(ev.body[k as int] == stmt_v(entry.body@[k as int]));
        match &entry.body[k] {
            Stmt::Return(ReturnExpr::Object { fields, .. }) => {
                let ghost fv = pairs_v(fields@);
                assert(ev.body[k as int]->Return_0->Object_1 == fv);
                let mut i: usize = 0;
                while i < fields.len()
                    invariant
                        ev == entry_v(*entry),
                        fv == pairs_v(fields@),
                        k < ev.body.len(),
                        ev.body[k as int] is Return,
                        ev.body[k as int]->Return_0 is Object,
                        ev.body[k as int]->Return_0->Object_1 == fv,
                        i <= fields.len(),
                        forall|q: int| 0 <= q < i ==> !flip_field(ev, #[trigger] fv[q]),
                    decreases fields.len() - i,
                {
                    let (f, v) = (&fields[i].0, &fields[i].1);
                    assert(fv[i as int] == (f@, expr_v(*v)));
                    let hit = (guarded(entry, f, true) && flips_int_from_zero(f, v)) || (guarded(
                        entry,
                        f,
                        false,
                    ) && match v {
                        Expr::Bool(true) => true,
                        _ => false,
                    });
                    if hit {
                        assert(flip_field(ev, ev.body[k as int]->Return_0->Object_1[i as int]));
                        return true;
                    }
                    i += 1;
                }
            },
            _ => {},
        }
        k += 1;
    }
    false
}

/// Whether a terminal edge names `role.entry`.
pub(crate) fn is_terminal_pair(app: &App, role: &String, entry: &String) -> (b: bool)
    ensures
        b == terminal_pair(app_v(*app), role@, entry@),
{
    let ghost av = app_v(*app);
    let mut k: usize = 0;
    while k < app.lifecycle.len()
        invariant
            av == app_v(*app),
            k <= app.lifecycle.len(),
            forall|q: int|
                0 <= q < k ==> !(#[trigger] av.lifecycle[q].terminal && av.lifecycle[q].via_role
                    == role@ && av.lifecycle[q].via_entry == entry@),
        decreases app.lifecycle.len() - k,
    {
        let e = &app.lifecycle[k];
        assert(av.lifecycle[k as int] == edge_v(*e));
        if e.terminal && same(&e.via_role, role) && same(&e.via_entry, entry) {
            assert(av.lifecycle[k as int].terminal && av.lifecycle[k as int].via_role == role@
                && av.lifecycle[k as int].via_entry == entry@);
            return true;
        }
        k += 1;
    }
    false
}

/// Whether `entry` of `role` is a settling transition.
pub fn is_settling_transition(app: &App, role: &Role, entry: &Entry) -> (b: bool)
    ensures
        b == settling(app_v(*app), role_v(*role), entry_v(*entry)),
{
    let transition = match entry.mode {
        CovenantMode::Transition => true,
        _ => false,
    };
    if !transition {
        return false;
    }
    if is_terminal_pair(app, &role.name, &entry.name) {
        return true;
    }
    entry.supply_change.is_none() && entry_settles(entry)
}

/// The number of settling transitions across the app.
#[verifier::loop_isolation(false)]
pub fn settling_transition_count(app: &App) -> (n: usize)
    requires
        count_bound(app, app.roles.len() as int) <= usize::MAX,
    ensures
        n == settling_count(app_v(*app)),
{
    let ghost av = app_v(*app);
    let mut n: usize = 0;
    let mut i: usize = 0;
    while i < app.roles.len()
        invariant
            av == app_v(*app),
            i <= app.roles.len(),
            n == sum_to(i as int, |q: int| settling_in_role(av, av.roles[q])),
            n <= count_bound(app, i as int),
            count_bound(app, app.roles.len() as int) <= usize::MAX,
        decreases app.roles.len() - i,
    {
        let role = &app.roles[i];
        assert(av.roles[i as int] == role_v(*role));
        let ghost rv = role_v(*role);
        let mut j: usize = 0;
        let ghost base = n as int;
        proof {
            lemma_bound_mono(app, i as int + 1, app.roles.len() as int);
        }
        while j < role.entrypoints.len()
            invariant
                av == app_v(*app),
                rv == role_v(*role),
                j <= role.entrypoints.len(),
                n == base + sum_to(j as int, |q: int| if settling(av, rv, rv.entrypoints[q]) { 1int } else { 0int }),
                n <= count_bound(app, i as int) + j,
                i < app.roles.len(),
                count_bound(app, i as int + 1) <= usize::MAX,
                count_bound(app, i as int + 1) == count_bound(app, i as int) + app.roles@[i as int].entrypoints.len(),
            decreases role.entrypoints.len() - j,
        {
            assert(rv.entrypoints[j as int] == entry_v(role.entrypoints@[j as int]));
            if is_settling_transition(app, role, &role.entrypoints[j]) {
                n = n + 1;
            }
            proof {
                lemma_sum_step(j as int, |q: int| if settling(av, rv, rv.entrypoints[q]) { 1int } else { 0int });
            }
            j += 1;
        }
        proof {
            lemma_sum_step(i as int, |q: int| settling_in_role(av, av.roles[q]));
        }
        i += 1;
    }
    n
}

/// The number of entrypoints of the first `i` roles.
pub open spec fn count_bound(app: &App, i: int) -> int
    decreases i,
{
    if i <= 0 || i > app.roles.len() {
        0
    } else {
        count_bound(app, i - 1) + app.roles@[i - 1].entrypoints.len()
    }
}

pub proof fn lemma_bound_mono(app: &App, i: int, k: int)
    requires
        0 <= i <= k <= app.roles.len(),
    ensures
        count_bound(app, i) <= count_bound(app, k),
    decreases k - i,
{
    if i < k {
        lemma_bound_mono(app, i, k - 1);
    }
}

/// Checks `invariant payout_bound;`: every settling transition binds its
/// payout with a `pays(...)` clause, and at least one settling transition
/// exists.
#[verifier::loop_isolation(false)]
pub fn check_payout_bound(app: &App, diags: &mut Vec<Diagnostic>)
    ensures
        extends(old(diags)@, final(diags)@, payout_count(app_v(*app))),
        says(old(diags)@, final(diags)@, payout_msgs(app_v(*app))),
{
    let ghost av = app_v(*app);
    let ghost start = diags@;
    let ghost gr = |i: int| cat_to(av.roles[i].entrypoints.len() as int, |j: int| unpaid_msgs(av, av.roles[i], j));
    proof {
        lemma_extends_refl(diags@);
        lemma_says_refl(diags@);
    }
    let mut any = false;
    let mut i: usize = 0;
    while i < app.roles.len()
        invariant
            av == app_v(*app),
            i <= app.roles.len(),
            extends(start, diags@, sum_to(i as int, |q: int| unpaid_in_role(av, av.roles[q]))),
            sum_to(i as int, |q: int| settling_in_role(av, av.roles[q])) >= 0,
            any == (sum_to(i as int, |q: int| settling_in_role(av, av.roles[q])) > 0),
            gr == (|i: int| cat_to(av.roles[i].entrypoints.len() as int, |j: int| unpaid_msgs(av, av.roles[i], j))),
            says(start, diags@, cat_to(i as int, gr)),
        decreases app.roles.len() - i,
    {
        let role = &app.roles[i];
        assert(av.roles[i as int] == role_v(*role));
        let ghost rv = role_v(*role);
        let ghost mid = diags@;
        let ghost s0 = sum_to(i as int, |q: int| settling_in_role(av, av.roles[q]));
        let ghost gm = |j: int| unpaid_msgs(av, rv, j);
        proof {
            lemma_extends_refl(diags@);
            lemma_says_refl(diags@);
        }
        let mut j: usize = 0;
        while j < role.entrypoints.len()
            invariant
                av == app_v(*app),
                rv == role_v(*role),
                j <= role.entrypoints.len(),
                extends(mid, diags@, sum_to(j as int, |q: int| if settling(av, rv, rv.entrypoints[q]) && !has_pays(rv.entrypoints[q].body) { 1int } else { 0int })),
                s0 + sum_to(j as int, |q: int| if settling(av, rv, rv.entrypoints[q]) { 1int } else { 0int }) >= 0,
                any == (s0 + sum_to(j as int, |q: int| if settling(av, rv, rv.entrypoints[q]) { 1int } else { 0int }) > 0),
                gm == (|j: int| unpaid_msgs(av, rv, j)),
                says(mid, diags@, cat_to(j as int, gm)),
            decreases role.entrypoints.len() - j,
        {
            let entry = &role.entrypoints[j];
            assert(rv.entrypoints[j as int] == entry_v(*entry));
            let ghost d0 = diags@;
            let mut said = false;
            if is_settling_transition(app, role, entry) {
                any = true;
                if !body_has_pays(&entry.body) {
                    let m = text_of(
                        vec![
                            "`",
                            role.name.as_str(),
                            ".",
                            entry.name.as_str(),
                            "`: invariant `payout_bound` violated: a settling transition (a TERMINAL release, or one that flips a recognized one-shot flag from its unset to its set value) must bind its payout to a committed output via `pays(...)`; this path carries no `pays` clause (payout_bound is EXISTENCE-ONLY \u{2014} it does not verify the pays binds THIS settlement's own coin/payee, and it is NOT a value-conservation/KIP-9 mass proof; the L1 surplus caveat still applies)",
                        ],
                    );
                    report(diags, m, Ghost(mid), Ghost(sum_to(j as int, |q: int| if settling(av, rv, rv.entrypoints[q]) && !has_pays(rv.entrypoints[q].body) { 1int } else { 0int })));
                    proof {
                        reveal_with_fuel(crate::structure::concat, 8);
                        assert(gm(j as int) =~= seq![m@]);
                        lemma_says_one(mid, d0, gm, j as int, Diagnostic { message: m });
                    }
                    said = true;
                }
            }
            if !said {
                proof {
                    assert(gm(j as int) =~= Seq::<Seq<char>>::empty());
                    lemma_says_none(mid, d0, gm, j as int);
                }
            }
            proof {
                lemma_sum_step(j as int, |q: int| if settling(av, rv, rv.entrypoints[q]) && !has_pays(rv.entrypoints[q].body) { 1int } else { 0int });
                lemma_sum_step(j as int, |q: int| if settling(av, rv, rv.entrypoints[q]) { 1int } else { 0int });
            }
            j += 1;
        }
        proof {
            lemma_sum_step(i as int, |q: int| unpaid_in_role(av, av.roles[q]));
            lemma_sum_step(i as int, |q: int| settling_in_role(av, av.roles[q]));
            lemma_extends_trans(start, mid, diags@, sum_to(i as int, |q: int| unpaid_in_role(av, av.roles[q])), unpaid_in_role(av, rv));
            assert(gr(i as int) == cat_to(rv.entrypoints.len() as int, gm));
            lemma_says_step(start, mid, diags@, gr, i as int);
        }
        i += 1;
    }
    let ghost pre = diags@;
    if !any {
        let m = text_of(
            vec![
                "invariant `payout_bound` declared but no settling transition was recognized: a settlement must be written as a recognized one-shot flag flip \u{2014} an int flip (`require f == 0;` + return `f: <nonzero>` or `f: f + <nonzero>`) or a bool flip (`require f == false;` + return `f: true`) \u{2014} or as a TERMINAL transition (a lifecycle edge marked `terminal`, which releases the coin and ends the lifecycle). Write the settlement in a recognized shape, or remove the invariant (a vacuous payout_bound must not pass green)",
            ],
        );
        report(diags, m, Ghost(start), Ghost(sum_to(app.roles.len() as int, |q: int| unpaid_in_role(av, av.roles[q]))));
        proof {
            reveal_with_fuel(crate::structure::concat, 4);
            lemma_says_push(start, pre, cat_to(app.roles.len() as int, gr), Diagnostic { message: m });
            assert(cat_to(app.roles.len() as int, gr).push(m@) =~= payout_msgs(av));
        }
    } else {
        proof {
            assert(cat_to(app.roles.len() as int, gr) + Seq::<Seq<char>>::empty() =~= payout_msgs(av));
        }
    }
}

} // verus!
