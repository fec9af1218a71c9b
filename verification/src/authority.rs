//! Authorization. A state-mutating transition must force a signature by a
//! committed key on every satisfying path of its guards; the number of
//! distinct committed keys so forced is bounded below guard by guard (`&&`
//! unions its operands' keys, `||` keeps the weaker arm, anything else forces
//! none). A supply-change capability names a committed authority that some
//! guard forces to sign, and its entry releases no coin.

use vstd::prelude::*;
use crate::ast::{App, BinOp, CovenantMode, Entry, Expr, ReturnExpr, Role, Stmt};

use crate::lookup::{body_has_pays, committed, has_pays, is_committed, references_var, refs};
use crate::model::{SApp, SEntry, SExpr, SReturn, SRole, SStmt, app_v, entry_v, expr_v, role_v, stmt_v, strs_v};
use crate::render::lemma_exprs_v;
use crate::settle::{is_terminal_pair, terminal_pair};
use crate::structure::{Diagnostic, cat_to, extends, lemma_extends_refl, lemma_extends_trans, lemma_says_push, lemma_says_refl, lemma_says_step, lemma_sum_step, says, sum_to, text_of};
use crate::text::str_eq;
use crate::typing::report;

verus! {

broadcast use {vstd::seq_lib::group_seq_properties, vstd::set::group_set_axioms};

// ── committed pubkeys ───────────────────────────────────────────────────

/// `pk` is `prev_states[i].f`, a field of a prior committed state.
pub open spec fn prev_state_field(pk: SExpr) -> bool {
    match pk {
        SExpr::Field(b, _) => match *b {
            SExpr::Index(arr, _) => *arr == SExpr::Var("prev_states"@),
            _ => false,
        },
        _ => false,
    }
}

/// A `checkSig` pubkey operand bound to committed state: a committed name,
/// or a field of a prior state.
pub open spec fn pubkey_committed(r: SRole, pk: SExpr) -> bool {
    match pk {
        SExpr::Var(n) => committed(r, n),
        _ => prev_state_field(pk),
    }
}

/// The key a committed pubkey operand names: `prev_states[i].f` names the
/// same key as `f`.
pub open spec fn key_name(pk: SExpr) -> Seq<char> {
    match pk {
        SExpr::Var(n) => n,
        SExpr::Field(_, f) => f,
        _ => Seq::empty(),
    }
}

/// A two-argument `checkSig(sig, pubkey)` call.
pub open spec fn is_checksig(x: SExpr) -> bool {
    (x is Call) && x->Call_0 == "checkSig"@ && x->Call_1.len() == 2
}

/// The committed keys a guard forces to sign on every satisfying path,
/// counted by the weaker arm of each `||`.
pub open spec fn keyset(x: SExpr, r: SRole) -> Set<Seq<char>>
    decreases x,
{
    match x {
        SExpr::Binary(op, l, rr) => if op == BinOp::Or {
            let a = keyset(*l, r);
            let b = keyset(*rr, r);
            if a.len() <= b.len() {
                a
            } else {
                b
            }
        } else if op == BinOp::And {
            keyset(*l, r) + keyset(*rr, r)
        } else {
            Set::empty()
        },
        SExpr::Call(n, args) => if n == "checkSig"@ && args.len() == 2 && pubkey_committed(
            r,
            args[1],
        ) {
            set![key_name(args[1])]
        } else {
            Set::empty()
        },
        _ => Set::empty(),
    }
}

/// A guard whose top-level operator is `||`.
pub open spec fn is_or(x: SExpr) -> bool {
    (x is Binary) && x->Binary_0 == BinOp::Or
}

/// The keys forced by the first `k` statements' guards that are not
/// top-level disjunctions, together.
pub open spec fn mandatory_keys(r: SRole, body: Seq<SStmt>, k: int) -> Set<Seq<char>>
    decreases k,
{
    if k <= 0 || k > body.len() {
        Set::empty()
    } else {
        mandatory_keys(r, body, k - 1) + match body[k - 1] {
            SStmt::Require(x) => if is_or(x) {
                Set::empty()
            } else {
                keyset(x, r)
            },
            _ => Set::empty(),
        }
    }
}

/// The most keys one top-level disjunction among the first `k` statements
/// forces.
pub open spec fn disjunction_max(r: SRole, body: Seq<SStmt>, k: int) -> nat
    decreases k,
{
    if k <= 0 || k > body.len() {
        0
    } else {
        let p = disjunction_max(r, body, k - 1);
        let c = match body[k - 1] {
            SStmt::Require(x) => if is_or(x) {
                keyset(x, r).len()
            } else {
                0
            },
            _ => 0,
        };
        if p >= c {
            p
        } else {
            c
        }
    }
}

/// A lower bound on the distinct committed keys that sign on every
/// satisfying path of the entrypoint's guards.
pub open spec fn signers(r: SRole, e: SEntry) -> nat {
    let m = mandatory_keys(r, e.body, e.body.len() as int).len();
    let d = disjunction_max(r, e.body, e.body.len() as int);
    if m >= d {
        m
    } else {
        d
    }
}

/// Whether `pk` is a field of a prior state.
fn is_prev_state_field(pk: &Expr) -> (b: bool)
    ensures
        b == prev_state_field(expr_v(*pk)),
{
    match pk {
        Expr::Field { base, .. } => {
            assert(expr_v(*pk) == SExpr::Field(Box::new(expr_v(**base)), expr_v(*pk)->Field_1));
            match &**base {
                Expr::Index { base: arr, index } => {
                    assert(expr_v(**base) == SExpr::Index(Box::new(expr_v(**arr)), Box::new(expr_v(**index))));
                    match &**arr {
                        Expr::Var(n) => {
                            assert(expr_v(**arr) == SExpr::Var(n@));
                            str_eq(n.as_str(), "prev_states")
                        },
                        _ => false,
                    }
                },
                _ => false,
            }
        },
        _ => false,
    }
}

/// Whether a `checkSig` pubkey operand is bound to committed state.
fn pubkey_is_committed(role: &Role, pk: &Expr) -> (b: bool)
    ensures
        b == pubkey_committed(role_v(*role), expr_v(*pk)),
{
    match pk {
        Expr::Var(n) => is_committed(role, n),
        _ => is_prev_state_field(pk),
    }
}

/// The key a committed pubkey operand names.
fn committed_key_name(pk: &Expr) -> (s: String)
    ensures
        s@ == key_name(expr_v(*pk)),
{
    match pk {
        Expr::Var(n) => n.clone(),
        Expr::Field { field, .. } => field.clone(),
        _ => String::new(),
    }
}

/// The pubkey operand of `checkSig(sig, pk)`, when `x` is such a call.
fn checksig_pubkey(x: &Expr) -> (r: Option<&Expr>)
    ensures
        r is Some <==> is_checksig(expr_v(*x)),
        r matches Some(pk) ==> expr_v(*x)->Call_1[1] == expr_v(*pk),
{
    match x {
        Expr::Call { name, args } => {
            proof {
                lemma_exprs_v(args@, args@.len() as int);
            }
            if str_eq(name.as_str(), "checkSig") && args.len() == 2 {
                Some(&args[1])
            } else {
                None
            }
        },
        _ => None,
    }
}

// ── key sets ────────────────────────────────────────────────────────────

/// Whether `s` is among `v`.
fn has_name(v: &Vec<String>, s: &String) -> (b: bool)
    ensures
        b == strs_v(v@).contains(s@),
{
    let mut i: usize = 0;
    while i < v.len()
        invariant
            i <= v.len(),
            forall|k: int| 0 <= k < i ==> strs_v(v@)[k] != s@,
        decreases v.len() - i,
    {
        if crate::lookup::same(&v[i], s) {
            assert(strs_v(v@)[i as int] == s@);
            return true;
        }
        i += 1;
    }
    false
}

/// Adds to `acc` every name of `more` it lacks.
fn union_into(acc: &mut Vec<String>, more: &Vec<String>)
    requires
        strs_v(old(acc)@).no_duplicates(),
    ensures
        strs_v(final(acc)@).no_duplicates(),
        strs_v(final(acc)@).to_set() == strs_v(old(acc)@).to_set() + strs_v(more@).to_set(),
{
    let ghost a0 = strs_v(acc@).to_set();
    let ghost mv = strs_v(more@);
    let mut i: usize = 0;
    assert(mv.subrange(0, 0).to_set() =~= Set::<Seq<char>>::empty());
    assert(strs_v(acc@).to_set() =~= a0 + mv.subrange(0, 0).to_set());
    while i < more.len()
        invariant
            mv == strs_v(more@),
            i <= more.len(),
            strs_v(acc@).no_duplicates(),
            strs_v(acc@).to_set() == a0 + mv.subrange(0, i as int).to_set(),
        decreases more.len() - i,
    {
        let ghost before = strs_v(acc@);
        assert(mv.subrange(0, i + 1) =~= mv.subrange(0, i as int).push(more@[i as int]@));
        assert(mv.subrange(0, i as int).push(more@[i as int]@).to_set() =~= mv.subrange(
            0,
            i as int,
        ).to_set().insert(more@[i as int]@));
        if !has_name(acc, &more[i]) {
            acc.push(more[i].clone());
            proof {
                crate::model::lemma_strs_push(old(acc)@, more@[i as int]);
                assert(strs_v(acc@) =~= before.push(more@[i as int]@));
                assert(before.push(more@[i as int]@).to_set() =~= before.to_set().insert(
                    more@[i as int]@,
                ));
                assert forall|p: int, q: int|
                    0 <= p < strs_v(acc@).len() && 0 <= q < strs_v(acc@).len() && p != q implies strs_v(
                    acc@,
                )[p] != strs_v(acc@)[q] by {
                    if p < before.len() && q < before.len() {
                    } else if p == before.len() {
                        assert(strs_v(acc@)[q] == before[q]);
                        assert(before.contains(before[q]));
                    } else {
                        assert(strs_v(acc@)[p] == before[p]);
                        assert(before.contains(before[p]));
                    }
                }
                assert(strs_v(acc@).to_set() =~= a0 + mv.subrange(0, i + 1).to_set());
            }
        } else {
            proof {
                assert(before.to_set().contains(more@[i as int]@));
                assert(strs_v(acc@).to_set() =~= a0 + mv.subrange(0, i + 1).to_set());
            }
        }
        i += 1;
    }
    assert(mv.subrange(0, more.len() as int) =~= mv);
}

/// The committed keys guard `x` forces to sign, without repeats.
fn guard_committed_keyset(x: &Expr, role: &Role) -> (v: Vec<String>)
    ensures
        strs_v(v@).no_duplicates(),
        strs_v(v@).to_set() == keyset(expr_v(*x), role_v(*role)),
        v.len() == keyset(expr_v(*x), role_v(*role)).len(),
    decreases x,
{
    let mut out: Vec<String> = Vec::new();
    assert(strs_v(out@) =~= Seq::<Seq<char>>::empty());
    match x {
        Expr::Binary { op: BinOp::Or, lhs, rhs } => {
            let l = guard_committed_keyset(lhs, role);
            let r = guard_committed_keyset(rhs, role);
            if l.len() <= r.len() {
                l
            } else {
                r
            }
        },
        Expr::Binary { op: BinOp::And, lhs, rhs } => {
            let mut l = guard_committed_keyset(lhs, role);
            let r = guard_committed_keyset(rhs, role);
            union_into(&mut l, &r);
            proof {
                strs_v(l@).unique_seq_to_set();
            }
            l
        },
        Expr::Call { .. } => {
            match checksig_pubkey(x) {
                Some(pk) => {
                    if pubkey_is_committed(role, pk) {
                        out.push(committed_key_name(pk));
                        proof {
                            assert(strs_v(out@) =~= seq![key_name(expr_v(*pk))]);
                            assert(seq![key_name(expr_v(*pk))].to_set() =~= set![key_name(expr_v(*pk))]);
                            strs_v(out@).unique_seq_to_set();
                        }
                    } else {
                        assert(strs_v(out@).to_set() =~= Set::<Seq<char>>::empty());
                    }
                },
                None => {
                    assert(strs_v(out@).to_set() =~= Set::<Seq<char>>::empty());
                },
            }
            out
        },
        _ => {
            assert(strs_v(out@).to_set() =~= Set::<Seq<char>>::empty());
            out
        },
    }
}

/// The lower bound [`signers`] for `entry` of `role`.
#[verifier::loop_isolation(false)]
pub fn guaranteed_committed_signers(role: &Role, entry: &Entry) -> (n: usize)
    ensures
        n == signers(role_v(*role), entry_v(*entry)),
{
    let ghost rv = role_v(*role);
    let ghost ev = entry_v(*entry);
    let mut mandatory: Vec<String> = Vec::new();
    let mut disj: usize = 0;
    let mut k: usize = 0;
    assert(strs_v(mandatory@) =~= Seq::<Seq<char>>::empty());
    assert(strs_v(mandatory@).to_set() =~= Set::<Seq<char>>::empty());
    while k < entry.body.len()
        invariant
            rv == role_v(*role),
            ev == entry_v(*entry),
            k <= entry.body.len(),
            strs_v(mandatory@).no_duplicates(),
            strs_v(mandatory@).to_set() == mandatory_keys(rv, ev.body, k as int),
            disj == disjunction_max(rv, ev.body, k as int),
        decreases entry.body.len() - k,
    {
        assert(ev.body[k as int] == stmt_v(entry.body@[k as int]));
        match &entry.body[k] {
            Stmt::Require(x) => {
                let ks = guard_committed_keyset(x, role);
                let or_guard = match x {
                    Expr::Binary { op: BinOp::Or, .. } => true,
                    _ => false,
                };
                if or_guard {
                    if ks.len() > disj {
                        disj = ks.len();
                    }
                    assert(mandatory_keys(rv, ev.body, k + 1) =~= mandatory_keys(rv, ev.body, k as int));
                } else {
                    union_into(&mut mandatory, &ks);
                }
            },
            _ => {
                assert(mandatory_keys(rv, ev.body, k + 1) =~= mandatory_keys(rv, ev.body, k as int));
            },
        }
        k += 1;
    }
    proof {
        strs_v(mandatory@).unique_seq_to_set();
    }
    if mandatory.len() >= disj {
        mandatory.len()
    } else {
        disj
    }
}

// ── checkSig presence ───────────────────────────────────────────────────

/// `x` contains a two-argument `checkSig` call somewhere.
pub open spec fn has_checksig(x: SExpr) -> bool
    decreases x, 1nat,
{
    match x {
        SExpr::Call(n, args) => (n == "checkSig"@ && args.len() == 2) || checksig_list(
            args,
            args.len() as int,
        ),
        SExpr::Unary(_, r) => has_checksig(*r),
        SExpr::Binary(_, l, r) => has_checksig(*l) || has_checksig(*r),
        SExpr::Field(b, _) => has_checksig(*b),
        SExpr::Index(b, i) => has_checksig(*b) || has_checksig(*i),
        _ => false,
    }
}

/// One of the first `k` expressions contains a `checkSig` call.
pub open spec fn checksig_list(args: Seq<SExpr>, k: int) -> bool
    decreases args, 0nat, k,
{
    if k <= 0 || k > args.len() {
        false
    } else {
        checksig_list(args, k - 1) || has_checksig(args[k - 1])
    }
}

proof fn lemma_checksig_list_mono(args: Seq<SExpr>, k: int)
    requires
        0 <= k <= args.len(),
        checksig_list(args, k),
    ensures
        checksig_list(args, args.len() as int),
    decreases args.len() - k,
{
    if k < args.len() {
        lemma_checksig_list_mono(args, k + 1);
    }
}

/// Some guard of the entrypoint contains a `checkSig` call.
pub open spec fn entry_checksig(e: SEntry) -> bool {
    exists|k: int|
        0 <= k < e.body.len() && #[trigger] e.body[k] is Require && has_checksig(
            e.body[k]->Require_0,
        )
}

/// Whether `x` contains a two-argument `checkSig` call.
#[verifier::loop_isolation(false)]
fn expr_contains_checksig(x: &Expr) -> (b: bool)
    ensures
        b == has_checksig(expr_v(*x)),
    decreases x,
{
    match x {
        Expr::Call { name, args } => {
            let ghost av = crate::model::exprs_v(args@, args@.len() as int);
            proof {
                lemma_exprs_v(args@, args@.len() as int);
            }
            if str_eq(name.as_str(), "checkSig") && args.len() == 2 {
                return true;
            }
            let mut i: usize = 0;
            while i < args.len()
                invariant
                    i <= args.len(),
                    av == crate::model::exprs_v(args@, args@.len() as int),
                    av.len() == args@.len(),
                    forall|k: int| 0 <= k < args@.len() ==> #[trigger] av[k] == expr_v(args@[k]),
                    !checksig_list(av, i as int),
                decreases args.len() - i,
            {
                proof {
                    let ghost a: Vec<Expr> = *args;
                    assert(decreases_to!(*x => a));
                    assert(decreases_to!(a => a@));
                    assert(decreases_to!(a@ => a@[i as int]));
                }
                if expr_contains_checksig(&args[i]) {
                    assert(checksig_list(av, i + 1));
                    proof {
                        lemma_checksig_list_mono(av, i + 1);
                    }
                    return true;
                }
                i += 1;
            }
            false
        },
        Expr::Unary { rhs, .. } => expr_contains_checksig(rhs),
        Expr::Binary { lhs, rhs, .. } => expr_contains_checksig(lhs) || expr_contains_checksig(rhs),
        Expr::Field { base, .. } => expr_contains_checksig(base),
        Expr::Index { base, index } => expr_contains_checksig(base) || expr_contains_checksig(index),
        _ => false,
    }
}

/// Whether some guard of `entry` contains a `checkSig` call.
pub fn entry_has_checksig(entry: &Entry) -> (b: bool)
    ensures
        b == entry_checksig(entry_v(*entry)),
{
    let ghost ev = entry_v(*entry);
    let mut k: usize = 0;
    while k < entry.body.len()
        invariant
            ev == entry_v(*entry),
            k <= entry.body.len(),
            forall|q: int|
                0 <= q < k ==> !(#[trigger] ev.body[q] is Require && has_checksig(
                    ev.body[q]->Require_0,
                )),
        decreases entry.body.len() - k,
    {
        assert(ev.body[k as int] == stmt_v(entry.body@[k as int]));
        match &entry.body[k] {
            Stmt::Require(x) => {
                if expr_contains_checksig(x) {
                    return true;
                }
            },
            _ => {},
        }
        k += 1;
    }
    false
}

// ── state mutation ──────────────────────────────────────────────────────

/// A statement that writes state: an object return, or a scalar return
/// that mentions a state field (it is broadcast into that field).
pub open spec fn mutating_stmt(r: SRole, s: SStmt) -> bool {
    match s {
        SStmt::Return(SReturn::Object(_, _)) => true,
        SStmt::Return(SReturn::Scalar(x)) => exists|j: int|
            0 <= j < r.state.len() && refs(x, #[trigger] r.state[j].name),
        _ => false,
    }
}

/// The entrypoint writes state.
pub open spec fn mutates(r: SRole, e: SEntry) -> bool {
    exists|k: int| 0 <= k < e.body.len() && mutating_stmt(r, #[trigger] e.body[k])
}

/// Whether `x` mentions some state field of `role`.
fn mentions_state(role: &Role, x: &Expr) -> (b: bool)
    ensures
        b == exists|j: int|
            0 <= j < role_v(*role).state.len() && refs(expr_v(*x), #[trigger] role_v(*role).state[j].name),
{
    let ghost rv = role_v(*role);
    let mut j: usize = 0;
    while j < role.state.len()
        invariant
            rv == role_v(*role),
            j <= role.state.len(),
            forall|q: int| 0 <= q < j ==> !refs(expr_v(*x), #[trigger] rv.state[q].name),
        decreases role.state.len() - j,
    {
        assert(rv.state[j as int] == crate::model::field_v(role.state@[j as int]));
        if references_var(x, role.state[j].name.as_str()) {
            assert(refs(expr_v(*x), role_v(*role).state[j as int].name));
            return true;
        }
        j += 1;
    }
    false
}

/// Whether `entry` writes the state of `role`.
pub fn entry_mutates(role: &Role, entry: &Entry) -> (b: bool)
    ensures
        b == mutates(role_v(*role), entry_v(*entry)),
{
    let ghost rv = role_v(*role);
    let ghost ev = entry_v(*entry);
    let mut k: usize = 0;
    while k < entry.body.len()
        invariant
            rv == role_v(*role),
            ev == entry_v(*entry),
            k <= entry.body.len(),
            forall|q: int| 0 <= q < k ==> !mutating_stmt(rv, #[trigger] ev.body[q]),
        decreases entry.body.len() - k,
    {
        assert(ev.body[k as int] == stmt_v(entry.body@[k as int]));
        let hit = match &entry.body[k] {
            Stmt::Return(ReturnExpr::Object { .. }) => true,
            Stmt::Return(ReturnExpr::Scalar(x)) => mentions_state(role, x),
            _ => false,
        };
        if hit {
            return true;
        }
        k += 1;
    }
    false
}

// ── the capability check ────────────────────────────────────────────────

/// The capability diagnostics of an entrypoint: a state-mutating transition
/// with no `checkSig` at all (only when authorization is required), or one
/// whose guards force no committed key.
pub open spec fn c2_entry_count(r: SRole, e: SEntry, require_auth: bool) -> int {
    if e.mode != CovenantMode::Transition || !mutates(r, e) {
        0
    } else if !entry_checksig(e) {
        if require_auth {
            1
        } else {
            0
        }
    } else if signers(r, e) == 0 {
        1
    } else {
        0
    }
}

/// The capability diagnostics of a role.
pub open spec fn c2_count(r: SRole, require_auth: bool) -> int {
    sum_to(r.entrypoints.len() as int, |j: int| c2_entry_count(r, r.entrypoints[j], require_auth))
}

/// The capability messages of an entrypoint, in the order of
/// [`c2_entry_count`].
pub open spec fn c2_entry_msgs(r: SRole, e: SEntry, require_auth: bool) -> Seq<Seq<char>> {
    if e.mode != CovenantMode::Transition || !mutates(r, e) {
        seq![]
    } else if !entry_checksig(e) {
        if require_auth {
            seq!["`"@ + r.name + "."@ + e.name + "`: capability check failed: state-mutating transition has NO authorization (no checkSig) under a declared protection invariant (`value_conserved`/`authorized`); add a checkSig binding a committed key (role param, state field, or prev_states[..])"@]
        } else {
            seq![]
        }
    } else if signers(r, e) == 0 {
        seq!["`"@ + r.name + "."@ + e.name + "`: capability check failed: no committed key is guaranteed to sign on every satisfying path \u{2014} a disjunctive `||`, a negated checkSig, or a caller-supplied pubkey leaves a path with no committed signature; every satisfying assignment must force at least one checkSig against a committed key (a role param, state field, or prev_states[..] field)"@]
    } else {
        seq![]
    }
}

/// The capability messages of a role.
pub open spec fn c2_msgs(r: SRole, require_auth: bool) -> Seq<Seq<char>> {
    cat_to(r.entrypoints.len() as int, |j: int| c2_entry_msgs(r, r.entrypoints[j], require_auth))
}

fn c2_entry(role: &Role, entry: &Entry, require_auth: bool, diags: &mut Vec<Diagnostic>)
    ensures
        extends(
            old(diags)@,
            final(diags)@,
            c2_entry_count(role_v(*role), entry_v(*entry), require_auth),
        ),
        says(old(diags)@, final(diags)@, c2_entry_msgs(role_v(*role), entry_v(*entry), require_auth)),
{
    let ghost start = diags@;
    proof {
        lemma_extends_refl(diags@);
        lemma_says_refl(diags@);
        reveal_with_fuel(crate::structure::concat, 8);
    }
    let transition = match entry.mode {
        CovenantMode::Transition => true,
        _ => false,
    };
    if !transition || !entry_mutates(role, entry) {
        return;
    }
    if !entry_has_checksig(entry) {
        if require_auth {
            let m = text_of(
                vec![
                    "`",
                    role.name.as_str(),
                    ".",
                    entry.name.as_str(),
                    "`: capability check failed: state-mutating transition has NO authorization (no checkSig) under a declared protection invariant (`value_conserved`/`authorized`); add a checkSig binding a committed key (role param, state field, or prev_states[..])",
                ],
            );
            report(diags, m, Ghost(start), Ghost(0));
            proof {
                lemma_says_push(start, start, seq![], Diagnostic { message: m });
                assert(seq![].push(m@) =~= c2_entry_msgs(role_v(*role), entry_v(*entry), require_auth));
            }
        }
        return;
    }
    if guaranteed_committed_signers(role, entry) == 0 {
        let m = text_of(
            vec![
                "`",
                role.name.as_str(),
                ".",
                entry.name.as_str(),
                "`: capability check failed: no committed key is guaranteed to sign on every satisfying path \u{2014} a disjunctive `||`, a negated checkSig, or a caller-supplied pubkey leaves a path with no committed signature; every satisfying assignment must force at least one checkSig against a committed key (a role param, state field, or prev_states[..] field)",
            ],
        );
        report(diags, m, Ghost(start), Ghost(0));
        proof {
            lemma_says_push(start, start, seq![], Diagnostic { message: m });
            assert(seq![].push(m@) =~= c2_entry_msgs(role_v(*role), entry_v(*entry), require_auth));
        }
    }
}

/// Checks that every state-mutating transition forces a committed key to
/// sign; with `require_auth`, one with no `checkSig` at all is rejected too.
pub fn check_c2_authorization(role: &Role, require_auth: bool, diags: &mut Vec<Diagnostic>)
    ensures
        extends(old(diags)@, final(diags)@, c2_count(role_v(*role), require_auth)),
        says(old(diags)@, final(diags)@, c2_msgs(role_v(*role), require_auth)),
{
    let ghost rv = role_v(*role);
    let ghost start = diags@;
    let ghost ge = |q: int| c2_entry_msgs(rv, rv.entrypoints[q], require_auth);
    proof {
        lemma_extends_refl(diags@);
        lemma_says_refl(diags@);
    }
    let mut j: usize = 0;
    while j < role.entrypoints.len()
        invariant
            rv == role_v(*role),
            j <= role.entrypoints.len(),
            extends(start, diags@, sum_to(j as int, |q: int| c2_entry_count(rv, rv.entrypoints[q], require_auth))),
            ge == (|q: int| c2_entry_msgs(rv, rv.entrypoints[q], require_auth)),
            says(start, diags@, cat_to(j as int, ge)),
        decreases role.entrypoints.len() - j,
    {
        let entry = &role.entrypoints[j];
        assert(rv.entrypoints[j as int] == entry_v(*entry));
        let ghost mid = diags@;
        c2_entry(role, entry, require_auth, diags);
        proof {
            lemma_sum_step(j as int, |q: int| c2_entry_count(rv, rv.entrypoints[q], require_auth));
            lemma_extends_trans(start, mid, diags@, sum_to(j as int, |q: int| c2_entry_count(rv, rv.entrypoints[q], require_auth)), c2_entry_count(rv, entry_v(*entry), require_auth));
            lemma_says_step(start, mid, diags@, ge, j as int);
        }
        j += 1;
    }
}

// ── the supply-change capability ────────────────────────────────────────

/// Guard `x` forces `checkSig(_, a)` against committed key `a` on every
/// satisfying path: either operand of `&&` forcing it suffices, both arms of
/// `||` must.
pub open spec fn auth_forced(x: SExpr, a: Seq<char>, r: SRole) -> bool
    decreases x,
{
    match x {
        SExpr::Binary(op, l, rr) => if op == BinOp::And {
            auth_forced(*l, a, r) || auth_forced(*rr, a, r)
        } else if op == BinOp::Or {
            auth_forced(*l, a, r) && auth_forced(*rr, a, r)
        } else {
            false
        },
        SExpr::Call(n, args) => n == "checkSig"@ && args.len() == 2 && pubkey_committed(r, args[1])
            && key_name(args[1]) == a,
        _ => false,
    }
}

/// Some guard of the entrypoint forces authority `a` to sign.
pub open spec fn authority_guaranteed(r: SRole, e: SEntry, a: Seq<char>) -> bool {
    exists|k: int|
        0 <= k < e.body.len() && #[trigger] e.body[k] is Require && auth_forced(
            e.body[k]->Require_0,
            a,
            r,
        )
}

/// The diagnostics for an entrypoint's supply-change capability: an
/// authority that is not committed; otherwise one that no guard forces to
/// sign, and an entry that releases coin (a `pays` clause or a terminal
/// edge).
pub open spec fn supply_entry_count(app: SApp, r: SRole, e: SEntry) -> int {
    match e.supply_change {
        None => 0,
        Some(a) => if !committed(r, a) {
            1
        } else {
            (if !authority_guaranteed(r, e, a) {
                1int
            } else {
                0int
            }) + (if has_pays(e.body) || terminal_pair(app, r.name, e.name) {
                1int
            } else {
                0int
            })
        },
    }
}

/// The supply-change diagnostics of a role.
pub open spec fn supply_count(app: SApp, r: SRole) -> int {
    sum_to(r.entrypoints.len() as int, |j: int| supply_entry_count(app, r, r.entrypoints[j]))
}

/// The supply-change messages of an entrypoint, in the order of
/// [`supply_entry_count`].
pub open spec fn supply_entry_msgs(app: SApp, r: SRole, e: SEntry) -> Seq<Seq<char>> {
    let w = "`"@ + r.name + "."@ + e.name + "`: supply-change capability invalid: "@;
    match e.supply_change {
        None => seq![],
        Some(a) => if !committed(r, a) {
            seq![w + "authority `"@ + a + "` is not a committed key (must be a role param or state field, genesis-baked into the covenant); a caller-supplied or spender-arg authority cannot gate a supply change"@]
        } else {
            (if !authority_guaranteed(r, e, a) {
                seq![w + "authority `"@ + a + "` is not guaranteed to sign \u{2014} a supply change must force `checkSig(_, "@ + a + ")` on every satisfying path (a mandatory `&&` require against the committed key), not in a disjunctive `||` or negated arm that leaves a path where `"@ + a + "` does not sign"@]
            } else {
                seq![]
            }) + (if has_pays(e.body) || terminal_pair(app, r.name, e.name) {
                seq![w + "a supply change adjusts committed supply and must not release coin (no `pays(...)`, not a terminal spend); model a payout as a separate transition"@]
            } else {
                seq![]
            })
        },
    }
}

/// The supply-change messages of a role.
pub open spec fn supply_msgs(app: SApp, r: SRole) -> Seq<Seq<char>> {
    cat_to(r.entrypoints.len() as int, |j: int| supply_entry_msgs(app, r, r.entrypoints[j]))
}

/// Whether guard `x` forces authority `a` to sign.
fn authority_forced(x: &Expr, a: &String, role: &Role) -> (b: bool)
    ensures
        b == auth_forced(expr_v(*x), a@, role_v(*role)),
    decreases x,
{
    match x {
        Expr::Binary { op: BinOp::And, lhs, rhs } => authority_forced(lhs, a, role) || authority_forced(rhs, a, role),
        Expr::Binary { op: BinOp::Or, lhs, rhs } => authority_forced(lhs, a, role) && authority_forced(rhs, a, role),
        Expr::Binary { .. } => false,
        Expr::Call { .. } => match checksig_pubkey(x) {
            Some(pk) => {
                if pubkey_is_committed(role, pk) {
                    let k = committed_key_name(pk);
                    crate::lookup::same(&k, a)
                } else {
                    false
                }
            },
            None => false,
        },
        _ => false,
    }
}

/// Checks the supply-change capability of one entrypoint.
#[verifier::loop_isolation(false)]
fn supply_entry(app: &App, role: &Role, entry: &Entry, diags: &mut Vec<Diagnostic>)
    ensures
        extends(old(diags)@, final(diags)@, supply_entry_count(app_v(*app), role_v(*role), entry_v(*entry))),
        says(old(diags)@, final(diags)@, supply_entry_msgs(app_v(*app), role_v(*role), entry_v(*entry))),
{
    let ghost rv = role_v(*role);
    let ghost ev = entry_v(*entry);
    let ghost av = app_v(*app);
    let ghost start = diags@;
    proof {
        lemma_extends_refl(diags@);
        lemma_says_refl(diags@);
        reveal_with_fuel(crate::structure::concat, 12);
    }
    let authority = match &entry.supply_change {
        Some(a) => a,
        None => {
            return;
        },
    };
    let w = text_of(vec!["`", role.name.as_str(), ".", entry.name.as_str(), "`: supply-change capability invalid: "]);
    if !is_committed(role, authority) {
        let m = text_of(
            vec![
                w.as_str(),
                "authority `",
                authority.as_str(),
                "` is not a committed key (must be a role param or state field, genesis-baked into the covenant); a caller-supplied or spender-arg authority cannot gate a supply change",
            ],
        );
        report(diags, m, Ghost(start), Ghost(0));
        proof {
            lemma_says_push(start, start, seq![], Diagnostic { message: m });
            assert(seq![].push(m@) =~= supply_entry_msgs(av, rv, ev));
        }
        return;
    }
    let ghost mut acc: Seq<Seq<char>> = seq![];
    let mut guaranteed = false;
    let mut k: usize = 0;
    while k < entry.body.len()
        invariant
            ev == entry_v(*entry),
            k <= entry.body.len(),
            guaranteed == exists|q: int|
                0 <= q < k && #[trigger] ev.body[q] is Require && auth_forced(ev.body[q]->Require_0, authority@, rv),
        decreases entry.body.len() - k,
    {
        assert(ev.body[k as int] == stmt_v(entry.body@[k as int]));
        match &entry.body[k] {
            Stmt::Require(x) => {
                if authority_forced(x, authority, role) {
                    guaranteed = true;
                }
            },
            _ => {},
        }
        k += 1;
    }
    if !guaranteed {
        let m = text_of(
            vec![
                w.as_str(),
                "authority `",
                authority.as_str(),
                "` is not guaranteed to sign \u{2014} a supply change must force `checkSig(_, ",
                authority.as_str(),
                ")` on every satisfying path (a mandatory `&&` require against the committed key), not in a disjunctive `||` or negated arm that leaves a path where `",
                authority.as_str(),
                "` does not sign",
            ],
        );
        report(diags, m, Ghost(start), Ghost(0));
        proof {
            lemma_says_push(start, start, seq![], Diagnostic { message: m });
            acc = acc.push(m@);
        }
    }
    let ghost d1 = diags@;
    let ghost n1: int = if !guaranteed { 1 } else { 0 };
    if body_has_pays(&entry.body) || is_terminal_pair(app, &role.name, &entry.name) {
        let m = text_of(
            vec![
                w.as_str(),
                "a supply change adjusts committed supply and must not release coin (no `pays(...)`, not a terminal spend); model a payout as a separate transition",
            ],
        );
        report(diags, m, Ghost(start), Ghost(n1));
        proof {
            lemma_says_push(start, d1, acc, Diagnostic { message: m });
            acc = acc.push(m@);
        }
    }
    proof {
        assert(acc =~= supply_entry_msgs(av, rv, ev));
    }
}

/// Checks every supply-change capability of a role: its authority is a
/// committed key some guard forces to sign, and its entry releases no coin.
pub fn check_supply_change(app: &App, role: &Role, diags: &mut Vec<Diagnostic>)
    ensures
        extends(old(diags)@, final(diags)@, supply_count(app_v(*app), role_v(*role))),
        says(old(diags)@, final(diags)@, supply_msgs(app_v(*app), role_v(*role))),
{
    let ghost av = app_v(*app);
    let ghost rv = role_v(*role);
    let ghost start = diags@;
    let ghost ge = |q: int| supply_entry_msgs(av, rv, rv.entrypoints[q]);
    proof {
        lemma_extends_refl(diags@);
        lemma_says_refl(diags@);
    }
    let mut j: usize = 0;
    while j < role.entrypoints.len()
        invariant
            av == app_v(*app),
            rv == role_v(*role),
            j <= role.entrypoints.len(),
            extends(start, diags@, sum_to(j as int, |q: int| supply_entry_count(av, rv, rv.entrypoints[q]))),
            ge == (|q: int| supply_entry_msgs(av, rv, rv.entrypoints[q])),
            says(start, diags@, cat_to(j as int, ge)),
        decreases role.entrypoints.len() - j,
    {
        let entry = &role.entrypoints[j];
        assert(rv.entrypoints[j as int] == entry_v(*entry));
        let ghost mid = diags@;
        supply_entry(app, role, entry, diags);
        proof {
            lemma_sum_step(j as int, |q: int| supply_entry_count(av, rv, rv.entrypoints[q]));
            lemma_extends_trans(start, mid, diags@, sum_to(j as int, |q: int| supply_entry_count(av, rv, rv.entrypoints[q])), supply_entry_count(av, rv, entry_v(*entry)));
            lemma_says_step(start, mid, diags@, ge, j as int);
        }
        j += 1;
    }
}

} // verus!
