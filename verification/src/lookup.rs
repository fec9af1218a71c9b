//! Lookups the checker shares: committed names, roles and entrypoints by
//! name, value-bearing fields, variable references, and structural equality
//! of expressions.

use vstd::prelude::*;
use crate::ast::{Entry, Expr, Role, Stmt, Type};
use crate::model::{
    SEntry, SExpr, SRole, SStmt, SType, entry_v, expr_v, exprs_v, role_v, stmt_v, stmts_v, type_v,
};
use crate::render::lemma_exprs_v;
use crate::text::str_eq;

verus! {

broadcast use vstd::seq_lib::group_seq_properties;

/// String equality.
pub(crate) fn same(a: &String, b: &String) -> (r: bool)
    ensures
        r == (a@ == b@),
{
    str_eq(a.as_str(), b.as_str())
}

// ── committed names ─────────────────────────────────────────────────────

/// `n` is a role param or a state field: a name fixed at genesis.
pub open spec fn committed(r: SRole, n: Seq<char>) -> bool {
    (exists|i: int| 0 <= i < r.params.len() && #[trigger] r.params[i].name == n) || (exists|i: int|
        0 <= i < r.state.len() && #[trigger] r.state[i].name == n)
}

/// Whether `n` is committed in `role`.
pub fn is_committed(role: &Role, n: &String) -> (b: bool)
    ensures
        b == committed(role_v(*role), n@),
{
    let ghost rv = role_v(*role);
    let mut i: usize = 0;
    while i < role.params.len()
        invariant
            rv == role_v(*role),
            i <= role.params.len(),
            forall|k: int| 0 <= k < i ==> rv.params[k].name != n@,
        decreases role.params.len() - i,
    {
        if same(&role.params[i].name, n) {
            assert(rv.params[i as int].name == n@);
            return true;
        }
        i += 1;
    }
    let mut j: usize = 0;
    while j < role.state.len()
        invariant
            rv == role_v(*role),
            j <= role.state.len(),
            forall|k: int| 0 <= k < role.params.len() ==> rv.params[k].name != n@,
            forall|k: int| 0 <= k < j ==> rv.state[k].name != n@,
        decreases role.state.len() - j,
    {
        if same(&role.state[j].name, n) {
            assert(rv.state[j as int].name == n@);
            return true;
        }
        j += 1;
    }
    false
}

/// `n` is an argument of the entrypoint.
pub open spec fn is_arg(e: SEntry, n: Seq<char>) -> bool {
    exists|i: int| 0 <= i < e.args.len() && #[trigger] e.args[i].name == n
}

/// Whether `n` is an argument of `entry`.
pub fn has_arg(entry: &Entry, n: &String) -> (b: bool)
    ensures
        b == is_arg(entry_v(*entry), n@),
{
    let ghost ev = entry_v(*entry);
    let mut i: usize = 0;
    while i < entry.args.len()
        invariant
            ev == entry_v(*entry),
            i <= entry.args.len(),
            forall|k: int| 0 <= k < i ==> ev.args[k].name != n@,
        decreases entry.args.len() - i,
    {
        if same(&entry.args[i].name, n) {
            assert(ev.args[i as int].name == n@);
            return true;
        }
        i += 1;
    }
    false
}

// ── roles and entrypoints by name ───────────────────────────────────────

/// The index of the first role named `n`, from `i` on.
pub open spec fn role_from(roles: Seq<SRole>, n: Seq<char>, i: int) -> Option<int>
    decreases roles.len() - i,
{
    if i < 0 || i >= roles.len() {
        None
    } else if roles[i].name == n {
        Some(i)
    } else {
        role_from(roles, n, i + 1)
    }
}

/// The index of the first entrypoint named `n`, from `i` on.
pub open spec fn entry_from(es: Seq<SEntry>, n: Seq<char>, i: int) -> Option<int>
    decreases es.len() - i,
{
    if i < 0 || i >= es.len() {
        None
    } else if es[i].name == n {
        Some(i)
    } else {
        entry_from(es, n, i + 1)
    }
}

pub proof fn lemma_role_from(roles: Seq<SRole>, n: Seq<char>, i: int)
    requires
        0 <= i,
    ensures
        role_from(roles, n, i) matches Some(k) ==> i <= k < roles.len() && roles[k].name == n,
        role_from(roles, n, i) is None ==> forall|k: int|
            i <= k < roles.len() ==> #[trigger] roles[k].name != n,
    decreases roles.len() - i,
{
    if i < roles.len() {
        lemma_role_from(roles, n, i + 1);
    }
}

pub proof fn lemma_entry_from(es: Seq<SEntry>, n: Seq<char>, i: int)
    requires
        0 <= i,
    ensures
        entry_from(es, n, i) matches Some(k) ==> i <= k < es.len() && es[k].name == n,
        entry_from(es, n, i) is None ==> forall|k: int|
            i <= k < es.len() ==> #[trigger] es[k].name != n,
    decreases es.len() - i,
{
    if i < es.len() {
        lemma_entry_from(es, n, i + 1);
    }
}

/// The index of the first role named `n`.
pub fn find_role(roles: &Vec<Role>, n: &String) -> (r: Option<usize>)
    ensures
        match r {
            Some(k) => role_from(roles@.map_values(|x: Role| role_v(x)), n@, 0) == Some(k as int)
                && k < roles.len(),
            None => role_from(roles@.map_values(|x: Role| role_v(x)), n@, 0) is None,
        },
{
    let ghost rs = roles@.map_values(|x: Role| role_v(x));
    let mut i: usize = 0;
    while i < roles.len()
        invariant
            rs == roles@.map_values(|x: Role| role_v(x)),
            i <= roles.len(),
            role_from(rs, n@, 0) == role_from(rs, n@, i as int),
        decreases roles.len() - i,
    {
        if same(&roles[i].name, n) {
            return Some(i);
        }
        i += 1;
    }
    None
}

/// The index of the first entrypoint of `role` named `n`.
pub fn find_entry(role: &Role, n: &String) -> (r: Option<usize>)
    ensures
        match r {
            Some(k) => entry_from(role_v(*role).entrypoints, n@, 0) == Some(k as int) && k
                < role.entrypoints.len(),
            None => entry_from(role_v(*role).entrypoints, n@, 0) is None,
        },
{
    let ghost es = role_v(*role).entrypoints;
    let mut i: usize = 0;
    while i < role.entrypoints.len()
        invariant
            es == role_v(*role).entrypoints,
            es.len() == role.entrypoints.len(),
            i <= role.entrypoints.len(),
            entry_from(es, n@, 0) == entry_from(es, n@, i as int),
        decreases role.entrypoints.len() - i,
    {
        assert(es[i as int] == entry_v(role.entrypoints@[i as int]));
        if same(&role.entrypoints[i].name, n) {
            return Some(i);
        }
        i += 1;
    }
    None
}

// ── statements ──────────────────────────────────────────────────────────

/// The body has a `return`.
pub open spec fn has_return(body: Seq<SStmt>) -> bool {
    exists|i: int| 0 <= i < body.len() && #[trigger] body[i] is Return
}

/// Whether `body` has a `return`.
pub fn body_has_return(body: &Vec<Stmt>) -> (b: bool)
    ensures
        b == has_return(stmts_v(body@)),
{
    let ghost bv = stmts_v(body@);
    let mut i: usize = 0;
    while i < body.len()
        invariant
            bv == stmts_v(body@),
            i <= body.len(),
            forall|k: int| 0 <= k < i ==> !(#[trigger] bv[k] is Return),
        decreases body.len() - i,
    {
        assert(bv[i as int] == stmt_v(body@[i as int]));
        match &body[i] {
            Stmt::Return(_) => {
                return true;
            },
            _ => {},
        }
        i += 1;
    }
    false
}

/// The body has a `pays(...)` clause.
pub open spec fn has_pays(body: Seq<SStmt>) -> bool {
    exists|i: int| 0 <= i < body.len() && #[trigger] body[i] is Pays
}

/// Whether `body` has a `pays(...)` clause.
pub fn body_has_pays(body: &Vec<Stmt>) -> (b: bool)
    ensures
        b == has_pays(stmts_v(body@)),
{
    let ghost bv = stmts_v(body@);
    let mut i: usize = 0;
    while i < body.len()
        invariant
            bv == stmts_v(body@),
            i <= body.len(),
            forall|k: int| 0 <= k < i ==> !(#[trigger] bv[k] is Pays),
        decreases body.len() - i,
    {
        assert(bv[i as int] == stmt_v(body@[i as int]));
        match &body[i] {
            Stmt::Pays { .. } => {
                return true;
            },
            _ => {},
        }
        i += 1;
    }
    false
}

// ── value-bearing fields ────────────────────────────────────────────────

/// A field is value-bearing when it is typed `coin` or named `balance`,
/// `amount` or `supply`.
pub open spec fn value_bearing(n: Seq<char>, t: SType) -> bool {
    t == SType::Coin || n == "balance"@ || n == "amount"@ || n == "supply"@
}

/// Whether a field of this name and type is value-bearing.
pub fn is_value_bearing(n: &str, t: &Type) -> (b: bool)
    ensures
        b == value_bearing(n@, type_v(*t)),
{
    let coin = match t {
        Type::Coin => true,
        _ => false,
    };
    coin || str_eq(n, "balance") || str_eq(n, "amount") || str_eq(n, "supply")
}

/// `n` ends in `suffix`.
pub open spec fn ends_with(n: Seq<char>, suffix: Seq<char>) -> bool {
    n.len() >= suffix.len() && n.subrange(n.len() - suffix.len(), n.len() as int) == suffix
}

/// Value-bearing for the conservation split: value-bearing, or a name ending
/// in `balance`.
pub open spec fn value_bearing_split(n: Seq<char>, t: SType) -> bool {
    value_bearing(n, t) || ends_with(n, "balance"@)
}

/// Whether a field is value-bearing for the conservation split.
pub fn is_value_bearing_split(name: &str, ty: &Type) -> (b: bool)
    ensures
        b == value_bearing_split(name@, type_v(*ty)),
{
    if is_value_bearing(name, ty) {
        return true;
    }
    let cs = crate::lexer::chars_of(name);
    let suffix = crate::lexer::chars_of("balance");
    if cs.len() < suffix.len() {
        return false;
    }
    let off = cs.len() - suffix.len();
    let mut i: usize = 0;
    while i < suffix.len()
        invariant
            cs@ == name@,
            suffix@ == "balance"@,
            !value_bearing(name@, type_v(*ty)),
            off == cs.len() - suffix.len(),
            i <= suffix.len(),
            forall|k: int| 0 <= k < i ==> cs@[off + k] == suffix@[k],
        decreases suffix.len() - i,
    {
        if cs[off + i] != suffix[i] {
            assert(cs@.subrange(off as int, cs.len() as int)[i as int] != suffix@[i as int]);
            return false;
        }
        i += 1;
    }
    assert(cs@.subrange(off as int, cs.len() as int) =~= suffix@);
    true
}

// ── references ──────────────────────────────────────────────────────────

/// `e` mentions the bare variable `f` somewhere.
pub open spec fn refs(e: SExpr, f: Seq<char>) -> bool
    decreases e, 1nat,
{
    match e {
        SExpr::Var(n) => n == f,
        SExpr::Field(b, _) => refs(*b, f),
        SExpr::Index(b, i) => refs(*b, f) || refs(*i, f),
        SExpr::Unary(_, r) => refs(*r, f),
        SExpr::Binary(_, l, r) => refs(*l, f) || refs(*r, f),
        SExpr::Call(_, args) => refs_list(args, args.len() as int, f),
        _ => false,
    }
}

/// One of the first `k` expressions mentions `f`.
pub open spec fn refs_list(args: Seq<SExpr>, k: int, f: Seq<char>) -> bool
    decreases args, 0nat, k,
{
    if k <= 0 || k > args.len() {
        false
    } else {
        refs_list(args, k - 1, f) || refs(args[k - 1], f)
    }
}

pub proof fn lemma_refs_list_mono(args: Seq<SExpr>, k: int, f: Seq<char>)
    requires
        0 <= k <= args.len(),
        refs_list(args, k, f),
    ensures
        refs_list(args, args.len() as int, f),
    decreases args.len() - k,
{
    if k < args.len() {
        lemma_refs_list_mono(args, k + 1, f);
    }
}

/// Whether `e` mentions the bare variable `f`.
#[verifier::loop_isolation(false)]
pub fn references_var(e: &Expr, f: &str) -> (b: bool)
    ensures
        b == refs(expr_v(*e), f@),
    decreases e,
{
    match e {
        Expr::Var(n) => str_eq(n.as_str(), f),
        Expr::Field { base, .. } => references_var(base, f),
        Expr::Index { base, index } => references_var(base, f) || references_var(index, f),
        Expr::Unary { rhs, .. } => references_var(rhs, f),
        Expr::Binary { lhs, rhs, .. } => references_var(lhs, f) || references_var(rhs, f),
        Expr::Call { args, .. } => {
            let ghost av = exprs_v(args@, args@.len() as int);
            proof {
                lemma_exprs_v(args@, args@.len() as int);
            }
            let mut i: usize = 0;
            while i < args.len()
                invariant
                    i <= args.len(),
                    av == exprs_v(args@, args@.len() as int),
                    av.len() == args@.len(),
                    forall|k: int| 0 <= k < args@.len() ==> #[trigger] av[k] == expr_v(args@[k]),
                    !refs_list(av, i as int, f@),
                decreases args.len() - i,
            {
                proof {
                    let ghost a: Vec<Expr> = *args;
                    assert(decreases_to!(*e => a));
                    assert(decreases_to!(a => a@));
                    assert(decreases_to!(a@ => a@[i as int]));
                }
                if references_var(&args[i], f) {
                    assert(refs_list(av, i + 1, f@));
                    proof {
                        lemma_refs_list_mono(av, i + 1, f@);
                    }
                    return true;
                }
                i += 1;
            }
            false
        },
        _ => false,
    }
}

// ── structural equality ─────────────────────────────────────────────────

/// Structural equality of expressions.
#[verifier::loop_isolation(false)]
pub fn expr_eq(a: &Expr, b: &Expr) -> (r: bool)
    ensures
        r == (expr_v(*a) == expr_v(*b)),
    decreases a,
{
    match (a, b) {
        (Expr::Int(x), Expr::Int(y)) => *x == *y,
        (Expr::Bool(x), Expr::Bool(y)) => *x == *y,
        (Expr::Bytes(x), Expr::Bytes(y)) => {
            if x.len() != y.len() {
                assert(x@.len() != y@.len());
                return false;
            }
            let mut i: usize = 0;
            while i < x.len()
                invariant
                    i <= x.len(),
                    x.len() == y.len(),
                    forall|k: int| 0 <= k < i ==> x@[k] == y@[k],
                decreases x.len() - i,
            {
                if x[i] != y[i] {
                    return false;
                }
                i += 1;
            }
            assert(x@ =~= y@);
            true
        },
        (Expr::Var(x), Expr::Var(y)) => same(x, y),
        (Expr::Field { base: b1, field: f1 }, Expr::Field { base: b2, field: f2 }) => same(f1, f2)
            && expr_eq(b1, b2),
        (Expr::Index { base: b1, index: i1 }, Expr::Index { base: b2, index: i2 }) => expr_eq(
            b1,
            b2,
        ) && expr_eq(i1, i2),
        (Expr::Unary { op: o1, rhs: r1 }, Expr::Unary { op: o2, rhs: r2 }) => *o1 == *o2
            && expr_eq(r1, r2),
        (Expr::Binary { op: o1, lhs: l1, rhs: r1 }, Expr::Binary { op: o2, lhs: l2, rhs: r2 }) => *o1
            == *o2 && expr_eq(l1, l2) && expr_eq(r1, r2),
        (Expr::Call { name: n1, args: a1 }, Expr::Call { name: n2, args: a2 }) => {
            if !same(n1, n2) {
                return false;
            }
            proof {
                lemma_exprs_v(a1@, a1@.len() as int);
                lemma_exprs_v(a2@, a2@.len() as int);
            }
            if a1.len() != a2.len() {
                return false;
            }
            let mut i: usize = 0;
            while i < a1.len()
                invariant
                    i <= a1.len(),
                    a1.len() == a2.len(),
                    forall|k: int| 0 <= k < i ==> expr_v(a1@[k]) == expr_v(a2@[k]),
                decreases a1.len() - i,
            {
                proof {
                    let ghost v: Vec<Expr> = *a1;
                    assert(decreases_to!(*a => v));
                    assert(decreases_to!(v => v@));
                    assert(decreases_to!(v@ => v@[i as int]));
                }
                if !expr_eq(&a1[i], &a2[i]) {
                    assert(exprs_v(a1@, a1@.len() as int)[i as int] != exprs_v(
                        a2@,
                        a2@.len() as int,
                    )[i as int]);
                    return false;
                }
                i += 1;
            }
            assert(exprs_v(a1@, a1@.len() as int) =~= exprs_v(a2@, a2@.len() as int));
            true
        },
        _ => false,
    }
}

} // verus!
