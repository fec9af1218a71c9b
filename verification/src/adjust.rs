//! The shapes of value adjustments: non-negativity guards on names, the
//! `+`-separated atoms of a term, and how a field's new value relates to its
//! old one (a carry `f`, an increase `f + e`, a decrease `f - e`, or
//! something else).

use vstd::prelude::*;
use crate::ast::{BinOp, Entry, Expr, Stmt, UnOp};
use crate::lookup::{expr_eq, references_var, refs};
use crate::model::{SEntry, SExpr, SStmt, entry_v, expr_v, stmt_v};
use crate::text::str_eq;

verus! {

broadcast use vstd::seq_lib::group_seq_properties;

// ── non-negativity guards ───────────────────────────────────────────────

/// The value of an int literal, folding one unary minus.
pub open spec fn int_literal(x: SExpr) -> Option<int> {
    match x {
        SExpr::Int(n) => Some(n as int),
        SExpr::Unary(op, r) => if op == UnOp::Neg {
            match *r {
                SExpr::Int(n) => Some(-(n as int)),
                _ => None,
            }
        } else {
            None
        },
        _ => None,
    }
}

/// `x` is an int literal of at least `lo`.
pub open spec fn literal_at_least(x: SExpr, lo: int) -> bool {
    match int_literal(x) {
        Some(n) => n >= lo,
        None => false,
    }
}

/// `op(l, r)` bounds `name` below: `name >= n` / `name > m` or mirrored,
/// with literal `n >= 0`, `m >= -1`.
pub open spec fn nonneg_guard(op: BinOp, l: SExpr, r: SExpr, name: Seq<char>) -> bool {
    match op {
        BinOp::Ge => l == SExpr::Var(name) && literal_at_least(r, 0),
        BinOp::Gt => l == SExpr::Var(name) && literal_at_least(r, -1),
        BinOp::Le => r == SExpr::Var(name) && literal_at_least(l, 0),
        BinOp::Lt => r == SExpr::Var(name) && literal_at_least(l, -1),
        _ => false,
    }
}

/// A guard of the body bounds `name` below by zero.
pub open spec fn guards_nonneg(s: SStmt, name: Seq<char>) -> bool {
    match s {
        SStmt::Require(x) => match x {
            SExpr::Binary(op, l, r) => nonneg_guard(op, *l, *r, name),
            _ => false,
        },
        _ => false,
    }
}

/// The entrypoint establishes `name >= 0`.
pub open spec fn asserts_non_negative(e: SEntry, name: Seq<char>) -> bool {
    exists|k: int| 0 <= k < e.body.len() && guards_nonneg(#[trigger] e.body[k], name)
}

/// Whether `x` is an int literal of at least `lo`.
fn at_least(x: &Expr, lo: i64) -> (b: bool)
    requires
        -1 <= lo <= 0,
    ensures
        b == literal_at_least(expr_v(*x), lo as int),
{
    match x {
        Expr::Int(n) => {
            *n >= lo
        },
        Expr::Unary { op, rhs } => match op {
            UnOp::Neg => match &**rhs {
                Expr::Int(n) => {
                    assert(expr_v(**rhs) == SExpr::Int(*n));
                    *n <= -lo
                },
                _ => false,
            },
            _ => false,
        },
        _ => false,
    }
}

/// Whether `x` is the bare variable `name`.
pub fn is_var(x: &Expr, name: &str) -> (b: bool)
    ensures
        b == (expr_v(*x) == SExpr::Var(name@)),
{
    match x {
        Expr::Var(n) => str_eq(n.as_str(), name),
        _ => false,
    }
}

/// Whether `entry` establishes `name >= 0` by a guard of its own.
pub fn non_negative(entry: &Entry, name: &str) -> (b: bool)
    ensures
        b == asserts_non_negative(entry_v(*entry), name@),
{
    let ghost ev = entry_v(*entry);
    let mut k: usize = 0;
    while k < entry.body.len()
        invariant
            ev == entry_v(*entry),
            k <= entry.body.len(),
            forall|q: int| 0 <= q < k ==> !guards_nonneg(#[trigger] ev.body[q], name@),
        decreases entry.body.len() - k,
    {
        assert(ev.body[k as int] == stmt_v(entry.body@[k as int]));
        let hit = match &entry.body[k] {
            Stmt::Require(Expr::Binary { op, lhs, rhs }) => match op {
                BinOp::Ge => is_var(lhs, name) && at_least(rhs, 0),
                BinOp::Gt => is_var(lhs, name) && at_least(rhs, -1),
                BinOp::Le => is_var(rhs, name) && at_least(lhs, 0),
                BinOp::Lt => is_var(rhs, name) && at_least(lhs, -1),
                _ => false,
            },
            _ => false,
        };
        if hit {
            return true;
        }
        k += 1;
    }
    false
}

// ── additive atoms ──────────────────────────────────────────────────────

/// The `+`-separated summands of a term.
pub open spec fn atoms(t: SExpr) -> Seq<SExpr>
    decreases t,
{
    match t {
        SExpr::Binary(op, l, r) => if op == BinOp::Add {
            atoms(*l) + atoms(*r)
        } else {
            seq![t]
        },
        _ => seq![t],
    }
}

/// An atom of an adjustment whose sign the entrypoint establishes: a
/// non-negative literal or a name guarded `>= 0`.
pub open spec fn atom_ok(e: SEntry, a: SExpr) -> bool {
    match a {
        SExpr::Int(n) => n >= 0,
        SExpr::Var(n) => asserts_non_negative(e, n),
        _ => false,
    }
}

/// Every atom of `t` has its sign established by `e`.
pub open spec fn term_guarded(e: SEntry, t: SExpr) -> bool {
    forall|i: int| 0 <= i < atoms(t).len() ==> atom_ok(e, #[trigger] atoms(t)[i])
}

/// Appends the atoms of `t` to `out`.
pub fn flatten_add_atoms<'a>(t: &'a Expr, out: &mut Vec<&'a Expr>)
    ensures
        final(out)@.map_values(|x: &Expr| expr_v(*x)) == old(out)@.map_values(
            |x: &Expr| expr_v(*x),
        ) + atoms(expr_v(*t)),
    decreases t,
{
    match t {
        Expr::Binary { op: BinOp::Add, lhs, rhs } => {
            flatten_add_atoms(lhs, out);
            flatten_add_atoms(rhs, out);
            assert(old(out)@.map_values(|x: &Expr| expr_v(*x)) + atoms(expr_v(**lhs)) + atoms(
                expr_v(**rhs),
            ) =~= old(out)@.map_values(|x: &Expr| expr_v(*x)) + atoms(expr_v(*t)));
        },
        _ => {
            out.push(t);
            assert(out@.map_values(|x: &Expr| expr_v(*x)) =~= old(out)@.map_values(
                |x: &Expr| expr_v(*x),
            ) + atoms(expr_v(*t)));
        },
    }
}

/// The atoms of `t`.
pub fn atoms_of<'a>(t: &'a Expr) -> (v: Vec<&'a Expr>)
    ensures
        v@.map_values(|x: &Expr| expr_v(*x)) == atoms(expr_v(*t)),
{
    let mut v: Vec<&'a Expr> = Vec::new();
    assert(v@.map_values(|x: &Expr| expr_v(*x)) =~= Seq::<SExpr>::empty());
    flatten_add_atoms(t, &mut v);
    assert(Seq::<SExpr>::empty() + atoms(expr_v(*t)) =~= atoms(expr_v(*t)));
    v
}

/// Whether `entry` establishes the sign of atom `a`.
fn atom_is_ok(entry: &Entry, a: &Expr) -> (b: bool)
    ensures
        b == atom_ok(entry_v(*entry), expr_v(*a)),
{
    match a {
        Expr::Int(n) => *n >= 0,
        Expr::Var(n) => non_negative(entry, n.as_str()),
        _ => false,
    }
}

/// The index of the first of `s[i..]` whose sign `e` does not establish,
/// or `s.len()`.
pub open spec fn bad_from(e: SEntry, s: Seq<SExpr>, i: int) -> int
    decreases s.len() - i,
{
    if i < 0 || i >= s.len() {
        s.len() as int
    } else if !atom_ok(e, s[i]) {
        i
    } else {
        bad_from(e, s, i + 1)
    }
}

/// The first atom of `t` whose sign `e` does not establish.
pub open spec fn first_unguarded(e: SEntry, t: SExpr) -> SExpr {
    atoms(t)[bad_from(e, atoms(t), 0)]
}

/// The first atom of `t` whose sign `entry` does not establish.
pub fn unguarded_additive_atom<'a>(entry: &Entry, t: &'a Expr) -> (r: Option<&'a Expr>)
    ensures
        r is None <==> term_guarded(entry_v(*entry), expr_v(*t)),
        r matches Some(a) ==> !atom_ok(entry_v(*entry), expr_v(*a)),
        r matches Some(a) ==> expr_v(*a) == first_unguarded(entry_v(*entry), expr_v(*t)),
{
    let v = atoms_of(t);
    let ghost av = atoms(expr_v(*t));
    let mut i: usize = 0;
    while i < v.len()
        invariant
            v@.map_values(|x: &Expr| expr_v(*x)) == av,
            av == atoms(expr_v(*t)),
            i <= v.len(),
            forall|k: int| 0 <= k < i ==> atom_ok(entry_v(*entry), #[trigger] av[k]),
            bad_from(entry_v(*entry), av, 0) == bad_from(entry_v(*entry), av, i as int),
        decreases v.len() - i,
    {
        assert(av[i as int] == expr_v(*v@[i as int]));
        if !atom_is_ok(entry, v[i]) {
            return Some(v[i]);
        }
        i += 1;
    }
    None
}

// ── adjustment shapes ───────────────────────────────────────────────────

/// How a field's new value relates to its old one.
pub enum SAdjust {
    Carry,
    Decrease(SExpr),
    Increase(SExpr),
    Other,
}

/// Executable [`SAdjust`].
pub enum Adjust<'a> {
    Carry,
    Decrease(&'a Expr),
    Increase(&'a Expr),
    Other,
}

pub open spec fn adjust_v(a: Adjust) -> SAdjust {
    match a {
        Adjust::Carry => SAdjust::Carry,
        Adjust::Decrease(t) => SAdjust::Decrease(expr_v(*t)),
        Adjust::Increase(t) => SAdjust::Increase(expr_v(*t)),
        Adjust::Other => SAdjust::Other,
    }
}

/// The split shape of `f: v`: `f` (carry), `f + t` or `t + f` (increase),
/// `f - t` (decrease), where `t` does not mention `f`; anything else is
/// other.
pub open spec fn split_adjust(f: Seq<char>, v: SExpr) -> SAdjust {
    if v == SExpr::Var(f) {
        SAdjust::Carry
    } else {
        match v {
            SExpr::Binary(op, l, r) => {
                let lf = *l == SExpr::Var(f);
                let rf = *r == SExpr::Var(f);
                if op == BinOp::Add {
                    if lf && !rf && !refs(*r, f) {
                        SAdjust::Increase(*r)
                    } else if rf && !lf && !refs(*l, f) {
                        SAdjust::Increase(*l)
                    } else {
                        SAdjust::Other
                    }
                } else if op == BinOp::Sub && lf && !rf && !refs(*r, f) {
                    SAdjust::Decrease(*r)
                } else {
                    SAdjust::Other
                }
            },
            _ => SAdjust::Other,
        }
    }
}

/// The split shape of `field: value`.
pub fn classify_split_adjust<'a>(field: &str, value: &'a Expr) -> (r: Adjust<'a>)
    ensures
        adjust_v(r) == split_adjust(field@, expr_v(*value)),
{
    if is_var(value, field) {
        return Adjust::Carry;
    }
    match value {
        Expr::Binary { op, lhs, rhs } => {
            let lf = is_var(lhs, field);
            let rf = is_var(rhs, field);
            match op {
                BinOp::Add => {
                    if lf && !rf && !references_var(rhs, field) {
                        return Adjust::Increase(rhs);
                    }
                    if rf && !lf && !references_var(lhs, field) {
                        return Adjust::Increase(lhs);
                    }
                    Adjust::Other
                },
                BinOp::Sub => {
                    if lf && !rf && !references_var(rhs, field) {
                        return Adjust::Decrease(rhs);
                    }
                    Adjust::Other
                },
                _ => Adjust::Other,
            }
        },
        _ => Adjust::Other,
    }
}

/// The conservation verdict on a value-bearing field's new value.
pub enum SVerdict {
    Preserving,
    BadShape,
    Unguarded,
}

/// The term of a conservation-preserving `f ± e` / `e ± f`, where `f`
/// stands on exactly one side and `e` does not mention it.
pub open spec fn conserving_term(f: Seq<char>, v: SExpr) -> Option<SExpr> {
    match v {
        SExpr::Binary(op, l, r) => if op == BinOp::Add || op == BinOp::Sub {
            let lf = *l == SExpr::Var(f);
            let rf = *r == SExpr::Var(f);
            if lf && !rf && !refs(*r, f) {
                Some(*r)
            } else if rf && !lf && !refs(*l, f) {
                Some(*l)
            } else {
                None
            }
        } else {
            None
        },
        _ => None,
    }
}

/// A carry, or an additive adjustment whose every atom has its sign
/// established, preserves value; an adjustment with an unguarded atom is
/// `Unguarded`; anything else is a bad shape.
pub open spec fn verdict(e: SEntry, f: Seq<char>, v: SExpr) -> SVerdict {
    if v == SExpr::Var(f) {
        SVerdict::Preserving
    } else {
        match conserving_term(f, v) {
            Some(t) => if term_guarded(e, t) {
                SVerdict::Preserving
            } else {
                SVerdict::Unguarded
            },
            None => SVerdict::BadShape,
        }
    }
}

/// A verdict that carries the unguarded atom, for the message.
pub enum Verdict<'a> {
    Preserving,
    BadShape,
    Unguarded(&'a Expr),
}

pub open spec fn verdict_v(v: Verdict) -> SVerdict {
    match v {
        Verdict::Preserving => SVerdict::Preserving,
        Verdict::BadShape => SVerdict::BadShape,
        Verdict::Unguarded(_) => SVerdict::Unguarded,
    }
}

/// The conservation verdict on `field: value` in `entry`.
pub fn is_conservation_preserving<'a>(entry: &Entry, field: &str, value: &'a Expr) -> (r: Verdict<
    'a,
>)
    ensures
        verdict_v(r) == verdict(entry_v(*entry), field@, expr_v(*value)),
        r matches Verdict::Unguarded(a) ==> !atom_ok(entry_v(*entry), expr_v(*a)),
        r matches Verdict::Unguarded(a) ==> conserving_term(field@, expr_v(*value)) is Some
            && expr_v(*a) == first_unguarded(entry_v(*entry), conserving_term(field@, expr_v(*value))->0),
{
    if is_var(value, field) {
        return Verdict::Preserving;
    }
    match value {
        Expr::Binary { op, lhs, rhs } => {
            let additive = match op {
                BinOp::Add | BinOp::Sub => true,
                _ => false,
            };
            if !additive {
                return Verdict::BadShape;
            }
            let lf = is_var(lhs, field);
            let rf = is_var(rhs, field);
            let term: Option<&'a Expr> = if lf && !rf && !references_var(rhs, field) {
                Some(&**rhs)
            } else if rf && !lf && !references_var(lhs, field) {
                Some(&**lhs)
            } else {
                None
            };
            match term {
                Some(t) => match unguarded_additive_atom(entry, t) {
                    Some(a) => Verdict::Unguarded(a),
                    None => Verdict::Preserving,
                },
                None => Verdict::BadShape,
            }
        },
        _ => Verdict::BadShape,
    }
}

/// Whether `x` is among `v` (structural equality).
pub fn contains_expr(v: &Vec<&Expr>, x: &Expr) -> (b: bool)
    ensures
        b == v@.map_values(|y: &Expr| expr_v(*y)).contains(expr_v(*x)),
{
    let ghost vv = v@.map_values(|y: &Expr| expr_v(*y));
    let mut i: usize = 0;
    while i < v.len()
        invariant
            vv == v@.map_values(|y: &Expr| expr_v(*y)),
            i <= v.len(),
            forall|k: int| 0 <= k < i ==> vv[k] != expr_v(*x),
        decreases v.len() - i,
    {
        assert(vv[i as int] == expr_v(*v@[i as int]));
        if expr_eq(v[i], x) {
            return true;
        }
        i += 1;
    }
    false
}

} // verus!
