//! Expression typing of entrypoint bodies.
//!
//! In an entrypoint, the role params, the state fields, the entrypoint
//! arguments and the implicit `prev_states: State[]` are in scope; a later
//! binding of a name hides an earlier one (arguments hide state fields,
//! which hide params). `prev_states[i]` is a prior `State`, whose fields are
//! the state fields. Arithmetic takes ints, comparisons take two operands of
//! one scalar type, `&&`/`||`/`!` take bools, and the builtins are
//! `checkSig(sig, pubkey) -> bool`, `OpInputCovenantId(int) -> bytes32` and
//! `blake2b(bytes32) -> bytes32`.

use vstd::prelude::*;
use crate::ast::{BinOp, CovenantMode, Entry, Expr, ReturnExpr, Role, Stmt, Type, UnOp};
use crate::lookup::{references_var, refs, same};
use crate::model::{
    SEntry, SExpr, SField, SParam, SReturn, SRole, SStmt, SType, entry_v, expr_v, exprs_v,
    pairs_v, return_v, role_v, stmt_v, type_v,
};
use crate::render::lemma_exprs_v;
use crate::structure::{
    Diagnostic, cat_to, extends, lemma_extends_push, lemma_extends_refl, lemma_extends_trans,
    lemma_says_push, lemma_says_refl, lemma_says_step, lemma_says_trans, says, sum_to, text_of,
};
use crate::text::{str_eq, usize_to_string};
use crate::lexer::is_white;
use crate::plan::{lemma_name_lt_irreflexive, lemma_name_lt_total, lemma_name_lt_transitive, name_lt};

verus! {

broadcast use vstd::seq_lib::group_seq_properties;

/// An expression type: a surface type, a prior state, or the array of
/// prior states.
pub enum Ty {
    Surface(Type),
    State,
    StateArray,
}

/// Model of [`Ty`].
pub enum STy {
    Surface(SType),
    State,
    StateArray,
}

pub open spec fn ty_v(t: Ty) -> STy {
    match t {
        Ty::Surface(s) => STy::Surface(type_v(s)),
        Ty::State => STy::State,
        Ty::StateArray => STy::StateArray,
    }
}

/// The scalar surface types: the only comparison operands.
pub open spec fn is_scalar(t: STy) -> bool {
    match t {
        STy::Surface(s) => match s {
            SType::Int | SType::Bool | SType::PubKey | SType::Sig | SType::Bytes32 | SType::Coin => true,
            _ => false,
        },
        _ => false,
    }
}

// ── scope ───────────────────────────────────────────────────────────────

/// The type of the last of the first `k` params named `n`.
pub open spec fn last_param(ps: Seq<SParam>, n: Seq<char>, k: int) -> Option<SType>
    decreases k,
{
    if k <= 0 || k > ps.len() {
        None
    } else if ps[k - 1].name == n {
        Some(ps[k - 1].ty)
    } else {
        last_param(ps, n, k - 1)
    }
}

/// The type of the last of the first `k` fields named `n`.
pub open spec fn last_field(fs: Seq<SField>, n: Seq<char>, k: int) -> Option<SType>
    decreases k,
{
    if k <= 0 || k > fs.len() {
        None
    } else if fs[k - 1].name == n {
        Some(fs[k - 1].ty)
    } else {
        last_field(fs, n, k - 1)
    }
}

/// The declared type of state field `n`.
pub open spec fn state_ty(r: SRole, n: Seq<char>) -> Option<SType> {
    last_field(r.state, n, r.state.len() as int)
}

/// The type of variable `n` in entrypoint `e` of role `r`.
pub open spec fn var_ty(r: SRole, e: SEntry, n: Seq<char>) -> Option<STy> {
    if n == "prev_states"@ {
        Some(STy::StateArray)
    } else {
        match last_param(e.args, n, e.args.len() as int) {
            Some(t) => Some(STy::Surface(t)),
            None => match state_ty(r, n) {
                Some(t) => Some(STy::Surface(t)),
                None => match last_param(r.params, n, r.params.len() as int) {
                    Some(t) => Some(STy::Surface(t)),
                    None => None,
                },
            },
        }
    }
}

// ── typing ──────────────────────────────────────────────────────────────

pub open spec fn int_ty() -> STy {
    STy::Surface(SType::Int)
}

pub open spec fn bool_ty() -> STy {
    STy::Surface(SType::Bool)
}

/// The type of `x` in entrypoint `e` of role `r` (`None`: ill-typed).
pub open spec fn ty_of(x: SExpr, r: SRole, e: SEntry) -> Option<STy>
    decreases x, 1nat,
{
    match x {
        SExpr::Int(_) => Some(int_ty()),
        SExpr::Bool(_) => Some(bool_ty()),
        SExpr::Bytes(_) => Some(STy::Surface(SType::Bytes32)),
        SExpr::Var(n) => var_ty(r, e, n),
        SExpr::Field(b, f) => match ty_of(*b, r, e) {
            Some(STy::State) => match state_ty(r, f) {
                Some(t) => Some(STy::Surface(t)),
                None => None,
            },
            _ => None,
        },
        SExpr::Index(b, i) => match ty_of(*b, r, e) {
            Some(bt) => match ty_of(*i, r, e) {
                Some(it) => if it == int_ty() && bt == STy::StateArray {
                    Some(STy::State)
                } else {
                    None
                },
                None => None,
            },
            None => None,
        },
        SExpr::Unary(op, a) => match ty_of(*a, r, e) {
            Some(t) => match op {
                UnOp::Neg => if t == int_ty() {
                    Some(int_ty())
                } else {
                    None
                },
                UnOp::Not => if t == bool_ty() {
                    Some(bool_ty())
                } else {
                    None
                },
            },
            None => None,
        },
        SExpr::Binary(op, l, rr) => match ty_of(*l, r, e) {
            Some(lt) => match ty_of(*rr, r, e) {
                Some(rt) => binary_ty(op, lt, rt),
                None => None,
            },
            None => None,
        },
        SExpr::Call(name, args) => match tys_of(args, args.len() as int, r, e) {
            Some(ts) => call_ty(name, ts),
            None => None,
        },
    }
}

/// The types of the first `k` arguments, if all are well-typed.
pub open spec fn tys_of(args: Seq<SExpr>, k: int, r: SRole, e: SEntry) -> Option<Seq<STy>>
    decreases args, 0nat, k,
{
    if k <= 0 || k > args.len() {
        Some(seq![])
    } else {
        match tys_of(args, k - 1, r, e) {
            Some(ts) => match ty_of(args[k - 1], r, e) {
                Some(t) => Some(ts.push(t)),
                None => None,
            },
            None => None,
        }
    }
}

/// The type of a binary operation on operands of types `lt` and `rt`.
pub open spec fn binary_ty(op: BinOp, lt: STy, rt: STy) -> Option<STy> {
    match op {
        BinOp::Add | BinOp::Sub | BinOp::Mul => if lt == int_ty() && rt == int_ty() {
            Some(int_ty())
        } else {
            None
        },
        BinOp::And | BinOp::Or => if lt == bool_ty() && rt == bool_ty() {
            Some(bool_ty())
        } else {
            None
        },
        _ => if is_scalar(lt) && is_scalar(rt) && lt == rt {
            Some(bool_ty())
        } else {
            None
        },
    }
}

/// The type of a builtin call with argument types `ts`.
pub open spec fn call_ty(name: Seq<char>, ts: Seq<STy>) -> Option<STy> {
    if name == "checkSig"@ {
        if ts.len() == 2 && ts[0] == STy::Surface(SType::Sig) && ts[1] == STy::Surface(
            SType::PubKey,
        ) {
            Some(bool_ty())
        } else {
            None
        }
    } else if name == "OpInputCovenantId"@ {
        if ts.len() == 1 && ts[0] == int_ty() {
            Some(STy::Surface(SType::Bytes32))
        } else {
            None
        }
    } else if name == "blake2b"@ {
        if ts.len() == 1 && ts[0] == STy::Surface(SType::Bytes32) {
            Some(STy::Surface(SType::Bytes32))
        } else {
            None
        }
    } else {
        None
    }
}

pub proof fn lemma_tys_none_mono(args: Seq<SExpr>, k: int, r: SRole, e: SEntry)
    requires
        0 <= k <= args.len(),
        tys_of(args, k, r, e) is None,
    ensures
        tys_of(args, args.len() as int, r, e) is None,
    decreases args.len() - k,
{
    if k < args.len() {
        lemma_tys_none_mono(args, k + 1, r, e);
    }
}

// ── executable typing ───────────────────────────────────────────────────

/// Structural equality of surface types.
pub fn type_eq(a: &Type, b: &Type) -> (r: bool)
    ensures
        r == (type_v(*a) == type_v(*b)),
    decreases a,
{
    match (a, b) {
        (Type::Int, Type::Int) => true,
        (Type::Bool, Type::Bool) => true,
        (Type::PubKey, Type::PubKey) => true,
        (Type::Sig, Type::Sig) => true,
        (Type::Bytes32, Type::Bytes32) => true,
        (Type::Coin, Type::Coin) => true,
        (Type::SetOf(x), Type::SetOf(y)) => type_eq(x, y),
        (Type::MapOf(k1, v1), Type::MapOf(k2, v2)) => type_eq(k1, k2) && type_eq(v1, v2),
        (Type::Named(x), Type::Named(y)) => same(x, y),
        _ => false,
    }
}

/// Equality of expression types.
fn ty_eq(a: &Ty, b: &Ty) -> (r: bool)
    ensures
        r == (ty_v(*a) == ty_v(*b)),
{
    match (a, b) {
        (Ty::Surface(x), Ty::Surface(y)) => type_eq(x, y),
        (Ty::State, Ty::State) => true,
        (Ty::StateArray, Ty::StateArray) => true,
        _ => false,
    }
}

fn is_int(t: &Ty) -> (r: bool)
    ensures
        r == (ty_v(*t) == int_ty()),
{
    match t {
        Ty::Surface(Type::Int) => true,
        _ => false,
    }
}

fn is_bool(t: &Ty) -> (r: bool)
    ensures
        r == (ty_v(*t) == bool_ty()),
{
    match t {
        Ty::Surface(Type::Bool) => true,
        _ => false,
    }
}

fn is_scalar_ty(t: &Ty) -> (r: bool)
    ensures
        r == is_scalar(ty_v(*t)),
{
    match t {
        Ty::Surface(s) => match s {
            Type::Int | Type::Bool | Type::PubKey | Type::Sig | Type::Bytes32 | Type::Coin => true,
            _ => false,
        },
        _ => false,
    }
}

/// The surface spelling of a type in diagnostics.
pub open spec fn type_spelling(t: SType) -> Seq<char>
    decreases t,
{
    match t {
        SType::Int => "Int"@,
        SType::Bool => "Bool"@,
        SType::PubKey => "PubKey"@,
        SType::Sig => "Sig"@,
        SType::Bytes32 => "Bytes32"@,
        SType::Coin => "Coin"@,
        SType::SetOf(x) => "Set("@ + type_spelling(*x) + ")"@,
        SType::MapOf(k, v) => "Map("@ + type_spelling(*k) + ", "@ + type_spelling(*v) + ")"@,
        SType::Named(n) => "Named(\""@ + n + "\")"@,
    }
}

/// The spelling of an expression type in diagnostics.
pub open spec fn ty_display(t: STy) -> Seq<char> {
    match t {
        STy::Surface(s) => type_spelling(s),
        STy::State => "State"@,
        STy::StateArray => "State[]"@,
    }
}

/// The surface spelling of a type in diagnostics.
fn surface_name(t: &Type) -> (s: String)
    ensures
        s@ == type_spelling(type_v(*t)),
    decreases t,
{
    proof {
        reveal_with_fuel(crate::structure::concat, 6);
    }
    match t {
        Type::Int => String::from_str("Int"),
        Type::Bool => String::from_str("Bool"),
        Type::PubKey => String::from_str("PubKey"),
        Type::Sig => String::from_str("Sig"),
        Type::Bytes32 => String::from_str("Bytes32"),
        Type::Coin => String::from_str("Coin"),
        Type::SetOf(x) => {
            let inner = surface_name(x);
            text_of(vec!["Set(", inner.as_str(), ")"])
        },
        Type::MapOf(k, v) => {
            let a = surface_name(k);
            let b = surface_name(v);
            text_of(vec!["Map(", a.as_str(), ", ", b.as_str(), ")"])
        },
        Type::Named(n) => text_of(vec!["Named(\"", n.as_str(), "\")"]),
    }
}

/// The spelling of an expression type in diagnostics.
fn ty_name(t: &Ty) -> (s: String)
    ensures
        s@ == ty_display(ty_v(*t)),
{
    match t {
        Ty::Surface(s) => surface_name(s),
        Ty::State => String::from_str("State"),
        Ty::StateArray => String::from_str("State[]"),
    }
}

/// A copy of a surface type.
fn copy_type(t: &Type) -> (r: Type)
    ensures
        r == *t,
{
    t.clone()
}

/// The type of the last of the params named `n`.
pub(crate) fn find_param_ty(ps: &Vec<crate::ast::Param>, n: &String) -> (r: Option<Type>)
    ensures
        match r {
            Some(t) => last_param(crate::model::params_v(ps@), n@, ps@.len() as int) == Some(
                type_v(t),
            ),
            None => last_param(crate::model::params_v(ps@), n@, ps@.len() as int) is None,
        },
{
    let ghost pv = crate::model::params_v(ps@);
    let mut k = ps.len();
    while k > 0
        invariant
            pv == crate::model::params_v(ps@),
            k <= ps.len(),
            last_param(pv, n@, ps@.len() as int) == last_param(pv, n@, k as int),
        decreases k,
    {
        assert(pv[k - 1] == crate::model::param_v(ps@[k - 1]));
        if same(&ps[k - 1].name, n) {
            return Some(copy_type(&ps[k - 1].ty));
        }
        k -= 1;
    }
    None
}

/// The declared type of state field `n`.
pub(crate) fn find_state_ty(role: &Role, n: &String) -> (r: Option<Type>)
    ensures
        match r {
            Some(t) => state_ty(role_v(*role), n@) == Some(type_v(t)),
            None => state_ty(role_v(*role), n@) is None,
        },
{
    let ghost fv = role_v(*role).state;
    let mut k = role.state.len();
    while k > 0
        invariant
            fv == role_v(*role).state,
            fv.len() == role.state.len(),
            k <= role.state.len(),
            last_field(fv, n@, fv.len() as int) == last_field(fv, n@, k as int),
        decreases k,
    {
        assert(fv[k - 1] == crate::model::field_v(role.state@[k - 1]));
        if same(&role.state[k - 1].name, n) {
            return Some(copy_type(&role.state[k - 1].ty));
        }
        k -= 1;
    }
    None
}

/// The type of variable `n` in `entry` of `role`.
fn var_type(role: &Role, entry: &Entry, n: &String) -> (r: Option<Ty>)
    ensures
        match r {
            Some(t) => var_ty(role_v(*role), entry_v(*entry), n@) == Some(ty_v(t)),
            None => var_ty(role_v(*role), entry_v(*entry), n@) is None,
        },
{
    if str_eq(n.as_str(), "prev_states") {
        return Some(Ty::StateArray);
    }
    match find_param_ty(&entry.args, n) {
        Some(t) => Some(Ty::Surface(t)),
        None => match find_state_ty(role, n) {
            Some(t) => Some(Ty::Surface(t)),
            None => match find_param_ty(&role.params, n) {
                Some(t) => Some(Ty::Surface(t)),
                None => None,
            },
        },
    }
}

// ── the reasons an expression is ill-typed ──────────────────────────────

/// The reason a binary operation on `lt` and `rt` is ill-typed.
pub open spec fn binary_err(op: BinOp, lt: STy, rt: STy) -> Seq<char> {
    let found = ty_display(lt) + " and "@ + ty_display(rt);
    match op {
        BinOp::Add | BinOp::Sub | BinOp::Mul => "arithmetic `"@ + crate::render::binop_str(op)
            + "` requires int operands, found "@ + found,
        BinOp::And | BinOp::Or => "logical `"@ + crate::render::binop_str(op)
            + "` requires bool operands, found "@ + found,
        _ => if !is_scalar(lt) || !is_scalar(rt) {
            "comparison `"@ + crate::render::binop_str(op)
                + "` requires scalar operands (int/bool/bytes32/pubkey/sig/coin), found "@ + found
        } else {
            "comparison `"@ + crate::render::binop_str(op) + "` requires operands of the same type, found "@
                + found
        },
    }
}

/// The reason a builtin call with argument types `ts` is ill-typed.
pub open spec fn call_err(name: Seq<char>, ts: Seq<STy>) -> Seq<char> {
    let count = crate::text::decimal(ts.len());
    if name == "checkSig"@ {
        if ts.len() != 2 {
            "checkSig expects 2 arguments (sig, pubkey), found "@ + count
        } else if ts[0] != STy::Surface(SType::Sig) {
            "checkSig: first argument must be sig, found "@ + ty_display(ts[0])
        } else {
            "checkSig: second argument must be pubkey, found "@ + ty_display(ts[1])
        }
    } else if name == "OpInputCovenantId"@ {
        if ts.len() != 1 {
            "OpInputCovenantId expects 1 argument (int index), found "@ + count
        } else {
            "OpInputCovenantId: argument must be int, found "@ + ty_display(ts[0])
        }
    } else if name == "blake2b"@ {
        if ts.len() != 1 {
            "blake2b expects 1 argument (bytes32 preimage), found "@ + count
        } else {
            "blake2b: argument must be bytes32, found "@ + ty_display(ts[0])
        }
    } else {
        "call to unknown function `"@ + name + "`"@
    }
}

/// The index of the first of `args[i..]` that is ill-typed, or
/// `args.len()`.
pub open spec fn bad_arg(args: Seq<SExpr>, i: int, r: SRole, e: SEntry) -> int
    decreases args.len() - i,
{
    if i < 0 || i >= args.len() {
        args.len() as int
    } else if ty_of(args[i], r, e) is None {
        i
    } else {
        bad_arg(args, i + 1, r, e)
    }
}

/// The reason `x` is ill-typed (meaningful where [`ty_of`] is `None`): the
/// first ill-typed operand's reason, in evaluation order, else the reason
/// of the node itself.
pub open spec fn ty_err(x: SExpr, r: SRole, e: SEntry) -> Seq<char>
    decreases x,
{
    match x {
        SExpr::Var(n) => "unknown variable `"@ + n + "`"@,
        SExpr::Field(b, f) => match ty_of(*b, r, e) {
            None => ty_err(*b, r, e),
            Some(bt) => if bt == STy::State {
                "unknown state field `"@ + f + "` on a prior state"@
            } else {
                "field access `."@ + f + "` on a value of type "@ + ty_display(bt) + " (only prior states have fields)"@
            },
        },
        SExpr::Index(b, i) => match ty_of(*b, r, e) {
            None => ty_err(*b, r, e),
            Some(bt) => match ty_of(*i, r, e) {
                None => ty_err(*i, r, e),
                Some(it) => if it != int_ty() {
                    "index must be int, found "@ + ty_display(it)
                } else {
                    "cannot index a value of type "@ + ty_display(bt) + " (only `prev_states` is indexable)"@
                },
            },
        },
        SExpr::Unary(op, a) => match ty_of(*a, r, e) {
            None => ty_err(*a, r, e),
            Some(t) => match op {
                UnOp::Neg => "unary `-` operand must be int, found "@ + ty_display(t),
                UnOp::Not => "unary `!` operand must be bool, found "@ + ty_display(t),
            },
        },
        SExpr::Binary(op, l, rr) => match ty_of(*l, r, e) {
            None => ty_err(*l, r, e),
            Some(lt) => match ty_of(*rr, r, e) {
                None => ty_err(*rr, r, e),
                Some(rt) => binary_err(op, lt, rt),
            },
        },
        SExpr::Call(name, args) => match tys_of(args, args.len() as int, r, e) {
            Some(ts) => call_err(name, ts),
            None => {
                let j = bad_arg(args, 0, r, e);
                if 0 <= j < args.len() {
                    ty_err(args[j], r, e)
                } else {
                    ""@
                }
            },
        },
        _ => ""@,
    }
}

/// The type of `x` in `entry` of `role`, or the reason it is ill-typed.
#[verifier::loop_isolation(false)]
pub fn type_of(x: &Expr, role: &Role, entry: &Entry) -> (r: Result<Ty, String>)
    ensures
        match ty_of(expr_v(*x), role_v(*role), entry_v(*entry)) {
            Some(t) => r is Ok && ty_v(r->Ok_0) == t,
            None => r is Err && r->Err_0@ == ty_err(expr_v(*x), role_v(*role), entry_v(*entry)),
        },
    decreases x,
{
    proof {
        reveal_with_fuel(crate::structure::concat, 8);
    }
    match x {
        Expr::Int(_) => Ok(Ty::Surface(Type::Int)),
        Expr::Bool(_) => Ok(Ty::Surface(Type::Bool)),
        Expr::Bytes(_) => Ok(Ty::Surface(Type::Bytes32)),
        Expr::Var(n) => match var_type(role, entry, n) {
            Some(t) => Ok(t),
            None => Err(text_of(vec!["unknown variable `", n.as_str(), "`"])),
        },
        Expr::Field { base, field } => {
            let bt = type_of(base, role, entry)?;
            match bt {
                Ty::State => match find_state_ty(role, field) {
                    Some(t) => Ok(Ty::Surface(t)),
                    None => Err(
                        text_of(
                            vec!["unknown state field `", field.as_str(), "` on a prior state"],
                        ),
                    ),
                },
                other => {
                    let tn = ty_name(&other);
                    Err(
                        text_of(
                            vec![
                                "field access `.",
                                field.as_str(),
                                "` on a value of type ",
                                tn.as_str(),
                                " (only prior states have fields)",
                            ],
                        ),
                    )
                },
            }
        },
        Expr::Index { base, index } => {
            let bt = type_of(base, role, entry)?;
            let it = type_of(index, role, entry)?;
            if !is_int(&it) {
                let tn = ty_name(&it);
                return Err(text_of(vec!["index must be int, found ", tn.as_str()]));
            }
            match bt {
                Ty::StateArray => Ok(Ty::State),
                other => {
                    let tn = ty_name(&other);
                    Err(
                        text_of(
                            vec![
                                "cannot index a value of type ",
                                tn.as_str(),
                                " (only `prev_states` is indexable)",
                            ],
                        ),
                    )
                },
            }
        },
        Expr::Unary { op, rhs } => {
            let t = type_of(rhs, role, entry)?;
            match op {
                UnOp::Neg => if is_int(&t) {
                    Ok(Ty::Surface(Type::Int))
                } else {
                    let tn = ty_name(&t);
                    Err(text_of(vec!["unary `-` operand must be int, found ", tn.as_str()]))
                },
                UnOp::Not => if is_bool(&t) {
                    Ok(Ty::Surface(Type::Bool))
                } else {
                    let tn = ty_name(&t);
                    Err(text_of(vec!["unary `!` operand must be bool, found ", tn.as_str()]))
                },
            }
        },
        Expr::Binary { op, lhs, rhs } => {
            let lt = type_of(lhs, role, entry)?;
            let rt = type_of(rhs, role, entry)?;
            binary_type(*op, &lt, &rt)
        },
        Expr::Call { name, args } => {
            let ghost av = exprs_v(args@, args@.len() as int);
            proof {
                lemma_exprs_v(args@, args@.len() as int);
            }
            let mut tys: Vec<Ty> = Vec::new();
            let mut i: usize = 0;
            while i < args.len()
                invariant
                    i <= args.len(),
                    av == exprs_v(args@, args@.len() as int),
                    av.len() == args@.len(),
                    forall|k: int| 0 <= k < args@.len() ==> #[trigger] av[k] == expr_v(args@[k]),
                    tys_of(av, i as int, role_v(*role), entry_v(*entry)) == Some(
                        tys@.map_values(|t: Ty| ty_v(t)),
                    ),
                    bad_arg(av, 0, role_v(*role), entry_v(*entry)) == bad_arg(av, i as int, role_v(*role), entry_v(*entry)),
                decreases args.len() - i,
            {
                proof {
                    let ghost a: Vec<Expr> = *args;
                    assert(decreases_to!(*x => a));
                    assert(decreases_to!(a => a@));
                    assert(decreases_to!(a@ => a@[i as int]));
                }
                let t = match type_of(&args[i], role, entry) {
                    Ok(t) => t,
                    Err(m) => {
                        proof {
                            lemma_tys_none_mono(av, i + 1, role_v(*role), entry_v(*entry));
                        }
                        return Err(m);
                    },
                };
                assert(tys@.push(t).map_values(|t: Ty| ty_v(t)) =~= tys@.map_values(
                    |t: Ty| ty_v(t),
                ).push(ty_v(t)));
                tys.push(t);
                i += 1;
            }
            call_type(name, &tys)
        },
    }
}

/// The operator of a binary expression as written.
fn op_text(op: BinOp) -> (s: &'static str)
    ensures
        s@ == crate::render::binop_str(op),
{
    op.as_str()
}

/// The type of a binary operation, or the reason it is ill-typed.
fn binary_type(op: BinOp, lt: &Ty, rt: &Ty) -> (r: Result<Ty, String>)
    ensures
        match binary_ty(op, ty_v(*lt), ty_v(*rt)) {
            Some(t) => r is Ok && ty_v(r->Ok_0) == t,
            None => r is Err && r->Err_0@ == binary_err(op, ty_v(*lt), ty_v(*rt)),
        },
{
    proof {
        reveal_with_fuel(crate::structure::concat, 8);
    }
    let ln = ty_name(lt);
    let rn = ty_name(rt);
    match op {
        BinOp::Add | BinOp::Sub | BinOp::Mul => {
            if is_int(lt) && is_int(rt) {
                Ok(Ty::Surface(Type::Int))
            } else {
                Err(
                    text_of(
                        vec![
                            "arithmetic `",
                            op_text(op),
                            "` requires int operands, found ",
                            ln.as_str(),
                            " and ",
                            rn.as_str(),
                        ],
                    ),
                )
            }
        },
        BinOp::And | BinOp::Or => {
            if is_bool(lt) && is_bool(rt) {
                Ok(Ty::Surface(Type::Bool))
            } else {
                Err(
                    text_of(
                        vec![
                            "logical `",
                            op_text(op),
                            "` requires bool operands, found ",
                            ln.as_str(),
                            " and ",
                            rn.as_str(),
                        ],
                    ),
                )
            }
        },
        _ => {
            if !is_scalar_ty(lt) || !is_scalar_ty(rt) {
                return Err(
                    text_of(
                        vec![
                            "comparison `",
                            op_text(op),
                            "` requires scalar operands (int/bool/bytes32/pubkey/sig/coin), found ",
                            ln.as_str(),
                            " and ",
                            rn.as_str(),
                        ],
                    ),
                );
            }
            if ty_eq(lt, rt) {
                Ok(Ty::Surface(Type::Bool))
            } else {
                Err(
                    text_of(
                        vec![
                            "comparison `",
                            op_text(op),
                            "` requires operands of the same type, found ",
                            ln.as_str(),
                            " and ",
                            rn.as_str(),
                        ],
                    ),
                )
            }
        },
    }
}

/// The type of a builtin call, or the reason it is ill-typed.
fn call_type(name: &String, tys: &Vec<Ty>) -> (r: Result<Ty, String>)
    ensures
        match call_ty(name@, tys@.map_values(|t: Ty| ty_v(t))) {
            Some(t) => r is Ok && ty_v(r->Ok_0) == t,
            None => r is Err && r->Err_0@ == call_err(name@, tys@.map_values(|t: Ty| ty_v(t))),
        },
{
    proof {
        reveal_with_fuel(crate::structure::concat, 8);
    }
    let ghost tv = tys@.map_values(|t: Ty| ty_v(t));
    let count = usize_to_string(tys.len());
    if str_eq(name.as_str(), "checkSig") {
        if tys.len() != 2 {
            return Err(
                text_of(
                    vec!["checkSig expects 2 arguments (sig, pubkey), found ", count.as_str()],
                ),
            );
        }
        assert(tv[0] == ty_v(tys@[0]) && tv[1] == ty_v(tys@[1]));
        let sig = match &tys[0] {
            Ty::Surface(Type::Sig) => true,
            _ => false,
        };
        if !sig {
            let tn = ty_name(&tys[0]);
            return Err(text_of(vec!["checkSig: first argument must be sig, found ", tn.as_str()]));
        }
        let pk = match &tys[1] {
            Ty::Surface(Type::PubKey) => true,
            _ => false,
        };
        if !pk {
            let tn = ty_name(&tys[1]);
            return Err(
                text_of(vec!["checkSig: second argument must be pubkey, found ", tn.as_str()]),
            );
        }
        Ok(Ty::Surface(Type::Bool))
    } else if str_eq(name.as_str(), "OpInputCovenantId") {
        if tys.len() != 1 {
            return Err(
                text_of(
                    vec![
                        "OpInputCovenantId expects 1 argument (int index), found ",
                        count.as_str(),
                    ],
                ),
            );
        }
        assert(tv[0] == ty_v(tys@[0]));
        if !is_int(&tys[0]) {
            let tn = ty_name(&tys[0]);
            return Err(
                text_of(vec!["OpInputCovenantId: argument must be int, found ", tn.as_str()]),
            );
        }
        Ok(Ty::Surface(Type::Bytes32))
    } else if str_eq(name.as_str(), "blake2b") {
        if tys.len() != 1 {
            return Err(
                text_of(
                    vec!["blake2b expects 1 argument (bytes32 preimage), found ", count.as_str()],
                ),
            );
        }
        assert(tv[0] == ty_v(tys@[0]));
        let b = match &tys[0] {
            Ty::Surface(Type::Bytes32) => true,
            _ => false,
        };
        if !b {
            let tn = ty_name(&tys[0]);
            return Err(text_of(vec!["blake2b: argument must be bytes32, found ", tn.as_str()]));
        }
        Ok(Ty::Surface(Type::Bytes32))
    } else {
        Err(text_of(vec!["call to unknown function `", name.as_str(), "`"]))
    }
}

// ── body checks ─────────────────────────────────────────────────────────

/// The expression mentions two differently named state fields.
pub open spec fn multi_ref(x: SExpr, r: SRole) -> bool {
    exists|i: int, j: int|
        0 <= i < r.state.len() && 0 <= j < r.state.len() && #[trigger] r.state[i].name
            != #[trigger] r.state[j].name && refs(x, r.state[i].name) && refs(x, r.state[j].name)
}

/// The diagnostics for one `field: value` of an object return: an ill-typed
/// value, an unknown field, or a type other than the field's.
pub open spec fn field_count(f: (Seq<char>, SExpr), r: SRole, e: SEntry) -> int {
    match ty_of(f.1, r, e) {
        None => 1,
        Some(t) => match state_ty(r, f.0) {
            None => 1,
            Some(d) => if STy::Surface(d) != t {
                1
            } else {
                0
            },
        },
    }
}

/// The diagnostics for a `return`.
pub open spec fn return_count(ret: SReturn, r: SRole, e: SEntry) -> int {
    match ret {
        SReturn::Scalar(x) => (if multi_ref(x, r) {
            1int
        } else {
            0int
        }) + match ty_of(x, r, e) {
            None => 1int,
            Some(t) => match e.returns {
                Some(d) => if STy::Surface(d) != t {
                    1int
                } else {
                    0int
                },
                None => 0int,
            },
        },
        SReturn::Object(_, fs) => sum_to(fs.len() as int, |k: int| field_count(fs[k], r, e)),
    }
}

/// The diagnostics for one statement: an ill-typed or non-bool guard, a
/// mistyped return, and a raw statement in a covenant entrypoint.
pub open spec fn stmt_type_count(st: SStmt, r: SRole, e: SEntry) -> int {
    match st {
        SStmt::Require(x) => match ty_of(x, r, e) {
            None => 1,
            Some(t) => if t != bool_ty() {
                1
            } else {
                0
            },
        },
        SStmt::Return(ret) => return_count(ret, r, e),
        SStmt::Raw(_) => if e.mode != CovenantMode::NonCovenant {
            1
        } else {
            0
        },
        _ => 0,
    }
}

/// The diagnostics for an entrypoint's body.
pub open spec fn entry_type_count(r: SRole, e: SEntry) -> int {
    sum_to(e.body.len() as int, |k: int| stmt_type_count(e.body[k], r, e))
}

/// The diagnostics for every entrypoint of a role.
pub open spec fn role_type_count(r: SRole) -> int {
    sum_to(r.entrypoints.len() as int, |j: int| entry_type_count(r, r.entrypoints[j]))
}

/// The messages for one `field: value` of an object return, in the order
/// of [`field_count`].
pub open spec fn field_msgs(f: (Seq<char>, SExpr), r: SRole, e: SEntry) -> Seq<Seq<char>> {
    match ty_of(f.1, r, e) {
        None => seq![located_text(r, e, "in return field `"@ + f.0 + "`: "@ + ty_err(f.1, r, e))],
        Some(t) => match state_ty(r, f.0) {
            None => seq![located_text(r, e, "return assigns unknown state field `"@ + f.0 + "`"@)],
            Some(d) => if STy::Surface(d) != t {
                seq![located_text(r, e, "return field `"@ + f.0 + "` has type "@ + ty_display(t)
                    + " but state declares it as "@ + ty_display(STy::Surface(d)))]
            } else {
                seq![]
            },
        },
    }
}

/// The messages for a `return`, in the order of [`return_count`].
pub open spec fn return_msgs(ret: SReturn, r: SRole, e: SEntry) -> Seq<Seq<char>> {
    match ret {
        SReturn::Scalar(x) => (if multi_ref(x, r) {
            seq![located_text(r, e, "scalar return references multiple state fields ("@ + names_joined(
                mentioned_names(r, x),
                mentioned_names(r, x).len() as int,
            ) + "); a scalar return is broadcast into every referenced field, which over-writes them all \u{2014} use an explicit object return (`Name { field: expr, ... }`) to assign each field"@)]
        } else {
            seq![]
        }) + match ty_of(x, r, e) {
            None => seq![located_text(r, e, ty_err(x, r, e))],
            Some(t) => match e.returns {
                Some(d) => if STy::Surface(d) != t {
                    seq![located_text(r, e, "return expression has type "@ + ty_display(t)
                        + " but the entrypoint declares return type "@ + ty_display(STy::Surface(d)))]
                } else {
                    seq![]
                },
                None => seq![],
            },
        },
        SReturn::Object(_, fs) => cat_to(fs.len() as int, |k: int| field_msgs(fs[k], r, e)),
    }
}

/// The messages for one statement, in the order of [`stmt_type_count`].
pub open spec fn stmt_type_msgs(st: SStmt, r: SRole, e: SEntry) -> Seq<Seq<char>> {
    match st {
        SStmt::Require(x) => match ty_of(x, r, e) {
            None => seq![located_text(r, e, ty_err(x, r, e))],
            Some(t) => if t != bool_ty() {
                seq![located_text(r, e, "require(...) operand must be bool, found "@ + ty_display(t))]
            } else {
                seq![]
            },
        },
        SStmt::Return(ret) => return_msgs(ret, r, e),
        SStmt::Raw(t) => if e.mode != CovenantMode::NonCovenant {
            seq![located_text(r, e, "unsupported/untyped statement `"@ + trimmed_chars(t) + "` cannot be projected to a covenant; route it to the vProgs (Tier-3) layer (it parsed to an untyped Stmt::Raw hole the emitter would silently drop)"@)]
        } else {
            seq![]
        },
        _ => seq![],
    }
}

/// The typing messages of an entrypoint's body.
pub open spec fn entry_type_msgs(r: SRole, e: SEntry) -> Seq<Seq<char>> {
    cat_to(e.body.len() as int, |k: int| stmt_type_msgs(e.body[k], r, e))
}

/// The typing messages of every entrypoint of a role.
pub open spec fn role_type_msgs(r: SRole) -> Seq<Seq<char>> {
    cat_to(r.entrypoints.len() as int, |j: int| entry_type_msgs(r, r.entrypoints[j]))
}

/// The first state field `x` mentions.
fn first_mentioned(x: &Expr, role: &Role) -> (r: Option<usize>)
    ensures
        match r {
            Some(a) => a < role.state.len() && refs(expr_v(*x), role_v(*role).state[a as int].name),
            None => forall|k: int|
                0 <= k < role.state.len() ==> !refs(expr_v(*x), #[trigger] role_v(*role).state[k].name),
        },
{
    let ghost rv = role_v(*role);
    let ghost xv = expr_v(*x);
    let mut i: usize = 0;
    while i < role.state.len()
        invariant
            rv == role_v(*role),
            xv == expr_v(*x),
            i <= role.state.len(),
            forall|k: int| 0 <= k < i ==> !refs(xv, #[trigger] rv.state[k].name),
        decreases role.state.len() - i,
    {
        assert(rv.state[i as int].name == role.state@[i as int].name@);
        if references_var(x, role.state[i].name.as_str()) {
            return Some(i);
        }
        i += 1;
    }
    None
}

/// Whether `x` mentions two differently named state fields.
fn mentions_two_fields(x: &Expr, role: &Role) -> (b: bool)
    ensures
        b == multi_ref(expr_v(*x), role_v(*role)),
{
    let ghost rv = role_v(*role);
    let ghost xv = expr_v(*x);
    let a = match first_mentioned(x, role) {
        Some(a) => a,
        None => {
            return false;
        },
    };
    assert(rv.state[a as int].name == role.state@[a as int].name@);
    let mut j: usize = 0;
    while j < role.state.len()
        invariant
            rv == role_v(*role),
            xv == expr_v(*x),
            a < role.state.len(),
            refs(xv, rv.state[a as int].name),
            j <= role.state.len(),
            forall|k: int|
                0 <= k < j && refs(xv, #[trigger] rv.state[k].name) ==> rv.state[k].name
                    == rv.state[a as int].name,
        decreases role.state.len() - j,
    {
        assert(rv.state[j as int].name == role.state@[j as int].name@);
        if references_var(x, role.state[j].name.as_str()) && !same(
            &role.state[j].name,
            &role.state[a].name,
        ) {
            assert(rv.state[j as int].name != rv.state[a as int].name);
            return true;
        }
        j += 1;
    }
    false
}

/// One of the first `i` state fields of `r` is named `n`, and `x` mentions
/// it.
pub open spec fn field_mentioned(r: SRole, x: SExpr, n: Seq<char>, i: int) -> bool {
    exists|k: int| 0 <= k < i && #[trigger] r.state[k].name == n && refs(x, n)
}

/// Some string of `v` reads `n`.
pub open spec fn in_names(v: Seq<String>, n: Seq<char>) -> bool {
    exists|k: int| 0 <= k < v.len() && #[trigger] v[k]@ == n
}

/// The strings of `v` ascend strictly in `str` order.
pub open spec fn sorted_names(v: Seq<String>) -> bool {
    forall|a: int, b: int| 0 <= a < b < v.len() ==> name_lt(#[trigger] v[a]@, #[trigger] v[b]@)
}

/// The names ascend strictly in `str` order.
pub open spec fn ascending(v: Seq<Seq<char>>) -> bool {
    forall|a: int, b: int| 0 <= a < b < v.len() ==> name_lt(#[trigger] v[a], #[trigger] v[b])
}

/// The distinct names of the state fields of `r` that `x` mentions, in
/// `str` order (there is exactly one such sequence).
pub open spec fn mentioned_names(r: SRole, x: SExpr) -> Seq<Seq<char>> {
    choose|v: Seq<Seq<char>>|
        ascending(v) && forall|n: Seq<char>| #[trigger] v.contains(n) <==> field_mentioned(r, x, n, r.state.len() as int)
}

/// Two ascending sequences with the same elements are equal.
pub proof fn lemma_ascending_unique(a: Seq<Seq<char>>, b: Seq<Seq<char>>)
    requires
        ascending(a),
        ascending(b),
        forall|n: Seq<char>| #[trigger] a.contains(n) <==> b.contains(n),
    ensures
        a == b,
    decreases a.len(),
{
    if a.len() == 0 {
        if b.len() > 0 {
            assert(b.contains(b[0]));
            assert(a.contains(b[0]));
        }
        assert(a =~= b);
    } else {
        assert(a.contains(a[0]));
        assert(b.contains(a[0]));
        let k = choose|k: int| 0 <= k < b.len() && b[k] == a[0];
        assert(b.contains(b[0]));
        assert(a.contains(b[0]));
        let m = choose|m: int| 0 <= m < a.len() && a[m] == b[0];
        if k > 0 {
            assert(name_lt(b[0], b[k]));
            if m > 0 {
                assert(name_lt(a[0], a[m]));
                lemma_name_lt_total(a[0], b[0]);
            } else {
                lemma_name_lt_irreflexive(a[0]);
            }
        }
        assert(b[0] == a[0]);
        let a1 = a.drop_first();
        let b1 = b.drop_first();
        assert forall|n: Seq<char>| #[trigger] a1.contains(n) <==> b1.contains(n) by {
            if a1.contains(n) {
                let q = choose|q: int| 0 <= q < a1.len() && a1[q] == n;
                assert(a[q + 1] == n);
                assert(name_lt(a[0], n));
                lemma_name_lt_irreflexive(n);
                assert(a.contains(n));
                let q2 = choose|q2: int| 0 <= q2 < b.len() && b[q2] == n;
                assert(q2 != 0);
                assert(b1[q2 - 1] == n);
            }
            if b1.contains(n) {
                let q = choose|q: int| 0 <= q < b1.len() && b1[q] == n;
                assert(b[q + 1] == n);
                assert(name_lt(b[0], n));
                lemma_name_lt_irreflexive(n);
                assert(b.contains(n));
                assert(a.contains(n));
                let q2 = choose|q2: int| 0 <= q2 < a.len() && a[q2] == n;
                assert(q2 != 0);
                assert(a1[q2 - 1] == n);
            }
        }
        assert forall|x: int, y: int| 0 <= x < y < a1.len() implies name_lt(#[trigger] a1[x], #[trigger] a1[y]) by {
            assert(a1[x] == a[x + 1] && a1[y] == a[y + 1]);
        }
        assert forall|x: int, y: int| 0 <= x < y < b1.len() implies name_lt(#[trigger] b1[x], #[trigger] b1[y]) by {
            assert(b1[x] == b[x + 1] && b1[y] == b[y + 1]);
        }
        lemma_ascending_unique(a1, b1);
        assert(a =~= seq![a[0]] + a1);
        assert(b =~= seq![b[0]] + b1);
    }
}

/// The distinct state fields `x` mentions, in `str` order.
fn mentioned_fields(x: &Expr, role: &Role) -> (out: Vec<String>)
    ensures
        sorted_names(out@),
        forall|n: Seq<char>| #[trigger] in_names(out@, n) <==> field_mentioned(role_v(*role), expr_v(*x), n, role.state.len() as int),
        out@.map_values(|s: String| s@) == mentioned_names(role_v(*role), expr_v(*x)),
{
    let ghost rv = role_v(*role);
    let ghost xv = expr_v(*x);
    let mut out: Vec<String> = Vec::new();
    let mut i: usize = 0;
    while i < role.state.len()
        invariant
            rv == role_v(*role),
            xv == expr_v(*x),
            i <= role.state.len(),
            sorted_names(out@),
            forall|m: Seq<char>| #[trigger] in_names(out@, m) <==> field_mentioned(rv, xv, m, i as int),
        decreases role.state.len() - i,
    {
        let n = &role.state[i].name;
        assert(rv.state[i as int] == crate::model::field_v(role.state@[i as int]));
        assert(rv.state[i as int].name == n@);
        let ghost old_out = out@;
        let hit = references_var(x, n.as_str());
        if hit {
            let mut k: usize = 0;
            let mut dup = false;
            while k < out.len()
                invariant
                    k <= out.len(),
                    dup == exists|q: int| 0 <= q < k && #[trigger] out@[q]@ == n@,
                decreases out.len() - k,
            {
                if same(&out[k], n) {
                    dup = true;
                }
                k += 1;
            }
            assert(dup == in_names(out@, n@));
            if !dup {
                let mut p: usize = 0;
                while p < out.len() && crate::plan::name_less(&out[p], n)
                    invariant
                        p <= out.len(),
                        out@ == old_out,
                        forall|q: int| 0 <= q < p ==> name_lt(#[trigger] out@[q]@, n@),
                    decreases out.len() - p,
                {
                    p += 1;
                }
                proof {
                    if p < old_out.len() {
                        assert(old_out[p as int]@ != n@);
                        lemma_name_lt_total(old_out[p as int]@, n@);
                        assert forall|q: int| p <= q < old_out.len() implies name_lt(n@, #[trigger] old_out[q]@) by {
                            if q > p {
                                assert(name_lt(old_out[p as int]@, old_out[q]@));
                                lemma_name_lt_transitive(n@, old_out[p as int]@, old_out[q]@);
                            }
                        }
                    }
                }
                let c = n.clone();
                out.insert(p, c);
                proof {
                    let nw = out@;
                    assert(nw == old_out.insert(p as int, c));
                    assert forall|a: int, b: int| 0 <= a < b < nw.len() implies name_lt(#[trigger] nw[a]@, #[trigger] nw[b]@) by {
                        if b < p {
                            assert(nw[a] == old_out[a] && nw[b] == old_out[b]);
                        } else if b == p {
                            assert(nw[a] == old_out[a]);
                        } else if a < p {
                            assert(nw[a] == old_out[a] && nw[b] == old_out[b - 1]);
                            assert(name_lt(old_out[a]@, n@));
                            lemma_name_lt_transitive(old_out[a]@, n@, old_out[b - 1]@);
                        } else if a == p {
                            assert(nw[b] == old_out[b - 1]);
                        } else {
                            assert(nw[a] == old_out[a - 1] && nw[b] == old_out[b - 1]);
                        }
                    }
                    assert forall|m: Seq<char>| #[trigger] in_names(nw, m) <==> (in_names(old_out, m) || m == n@) by {
                        if in_names(nw, m) {
                            let q = choose|q: int| 0 <= q < nw.len() && #[trigger] nw[q]@ == m;
                            if q < p {
                                assert(old_out[q]@ == m);
                            } else if q > p {
                                assert(old_out[q - 1]@ == m);
                            }
                        }
                        if in_names(old_out, m) {
                            let q = choose|q: int| 0 <= q < old_out.len() && #[trigger] old_out[q]@ == m;
                            if q < p {
                                assert(nw[q]@ == m);
                            } else {
                                assert(nw[q + 1]@ == m);
                            }
                        }
                        if m == n@ {
                            assert(nw[p as int]@ == m);
                        }
                    }
                }
            }
        }
        proof {
            assert forall|m: Seq<char>| #[trigger] in_names(out@, m) <==> field_mentioned(rv, xv, m, i + 1) by {
                if field_mentioned(rv, xv, m, i + 1) {
                    let k = choose|k: int| 0 <= k < i + 1 && #[trigger] rv.state[k].name == m && refs(xv, m);
                    if k < i {
                        assert(field_mentioned(rv, xv, m, i as int));
                    }
                }
                if field_mentioned(rv, xv, m, i as int) {
                    let k = choose|k: int| 0 <= k < i && #[trigger] rv.state[k].name == m && refs(xv, m);
                    assert(field_mentioned(rv, xv, m, i + 1));
                }
                if hit && m == n@ {
                    assert(field_mentioned(rv, xv, m, i + 1));
                }
            }
        }
        i += 1;
    }
    proof {
        let w = out@.map_values(|s: String| s@);
        assert forall|a: int, b: int| 0 <= a < b < w.len() implies name_lt(#[trigger] w[a], #[trigger] w[b]) by {
            assert(w[a] == out@[a]@ && w[b] == out@[b]@);
        }
        assert forall|n: Seq<char>| #[trigger] w.contains(n) <==> field_mentioned(rv, xv, n, rv.state.len() as int) by {
            if w.contains(n) {
                let q = choose|q: int| 0 <= q < w.len() && w[q] == n;
                assert(out@[q]@ == n);
                assert(in_names(out@, n));
            }
            if in_names(out@, n) {
                let q = choose|q: int| 0 <= q < out@.len() && #[trigger] out@[q]@ == n;
                assert(w[q] == n);
            }
        }
        assert(ascending(w));
        let c = mentioned_names(rv, xv);
        assert(ascending(c) && forall|n: Seq<char>| #[trigger] c.contains(n) <==> field_mentioned(rv, xv, n, rv.state.len() as int));
        lemma_ascending_unique(w, c);
    }
    out
}

/// The first `n` strings of `v` joined by `", "`.
pub open spec fn names_joined(v: Seq<Seq<char>>, n: int) -> Seq<char>
    decreases n,
{
    if n <= 0 {
        Seq::empty()
    } else if n == 1 {
        v[0]
    } else {
        names_joined(v, n - 1) + ", "@ + v[n - 1]
    }
}

/// The names joined by `", "`.
fn join_names(v: &Vec<String>) -> (s: String)
    ensures
        s@ == names_joined(v@.map_values(|x: String| x@), v.len() as int),
{
    let mut s = String::new();
    let mut i: usize = 0;
    while i < v.len()
        invariant
            i <= v.len(),
            s@ == names_joined(v@.map_values(|x: String| x@), i as int),
        decreases v.len() - i,
    {
        assert(v@.map_values(|x: String| x@)[i as int] == v@[i as int]@);
        let ghost s0 = s@;
        if i > 0 {
            s.append(", ");
        }
        s.append(v[i].as_str());
        proof {
            if i == 0 {
                assert(s0 =~= Seq::<char>::empty());
                assert(s@ =~= v@[0]@);
                assert(v@.map_values(|x: String| x@)[0] == v@[0]@);
            }
        }
        i += 1;
    }
    s
}

/// `` `role.entry`: what ``.
pub open spec fn located_text(r: SRole, e: SEntry, what: Seq<char>) -> Seq<char> {
    "`"@ + r.name + "."@ + e.name + "`: "@ + what
}

/// `` `role.entry`: what ``.
fn located(role: &Role, entry: &Entry, what: &str) -> (s: String)
    ensures
        s@ == located_text(role_v(*role), entry_v(*entry), what@),
{
    proof {
        reveal_with_fuel(crate::structure::concat, 8);
    }
    text_of(vec!["`", role.name.as_str(), ".", entry.name.as_str(), "`: ", what])
}

/// Appends a diagnostic, one more than counted so far.
pub(crate) fn report(diags: &mut Vec<Diagnostic>, m: String, Ghost(start): Ghost<Seq<Diagnostic>>, Ghost(n): Ghost<int>)
    requires
        extends(start, old(diags)@, n),
    ensures
        extends(start, final(diags)@, n + 1),
        final(diags)@ == old(diags)@.push(Diagnostic { message: m }),
{
    proof {
        lemma_extends_push(start, diags@, n, Diagnostic { message: m });
    }
    diags.push(Diagnostic::new(m));
}

/// Checks one `return` against the declared types.
fn check_return(ret: &ReturnExpr, role: &Role, entry: &Entry, diags: &mut Vec<Diagnostic>)
    ensures
        extends(
            old(diags)@,
            final(diags)@,
            return_count(return_v(*ret), role_v(*role), entry_v(*entry)),
        ),
        says(old(diags)@, final(diags)@, return_msgs(return_v(*ret), role_v(*role), entry_v(*entry))),
{
    let ghost rv = role_v(*role);
    let ghost ev = entry_v(*entry);
    let ghost start = diags@;
    proof {
        lemma_extends_refl(diags@);
        lemma_says_refl(diags@);
        reveal_with_fuel(crate::structure::concat, 8);
    }
    match ret {
        ReturnExpr::Scalar(x) => {
            let ghost mut acc: Seq<Seq<char>> = seq![];
            let multi = mentions_two_fields(x, role);
            if multi {
                let names = mentioned_fields(x, role);
                let list = join_names(&names);
                let m = located(
                    role,
                    entry,
                    text_of(
                        vec![
                            "scalar return references multiple state fields (",
                            list.as_str(),
                            "); a scalar return is broadcast into every referenced field, which over-writes them all \u{2014} use an explicit object return (`Name { field: expr, ... }`) to assign each field",
                        ],
                    ).as_str(),
                );
                report(diags, m, Ghost(start), Ghost(0));
                proof {
                    lemma_says_push(start, start, acc, Diagnostic { message: m });
                    acc = acc.push(m@);
                }
            }
            let ghost d1 = diags@;
            let ghost c1: int = if multi {
                1
            } else {
                0
            };
            match type_of(x, role, entry) {
                Ok(t) => {
                    match &entry.returns {
                        Some(declared) => {
                            let want = Ty::Surface(copy_type(declared));
                            if !ty_eq(&t, &want) {
                                let tn = ty_name(&t);
                                let wn = ty_name(&want);
                                let m = located(
                                    role,
                                    entry,
                                    text_of(
                                        vec![
                                            "return expression has type ",
                                            tn.as_str(),
                                            " but the entrypoint declares return type ",
                                            wn.as_str(),
                                        ],
                                    ).as_str(),
                                );
                                report(diags, m, Ghost(start), Ghost(c1));
                                proof {
                                    lemma_says_push(start, d1, acc, Diagnostic { message: m });
                                    acc = acc.push(m@);
                                }
                            }
                        },
                        None => {},
                    }
                },
                Err(msg) => {
                    let m = located(role, entry, msg.as_str());
                    report(diags, m, Ghost(start), Ghost(c1));
                    proof {
                        lemma_says_push(start, d1, acc, Diagnostic { message: m });
                        acc = acc.push(m@);
                    }
                },
            }
            proof {
                assert(acc =~= return_msgs(return_v(*ret), rv, ev));
            }
        },
        ReturnExpr::Object { fields, .. } => {
            let ghost fv = pairs_v(fields@);
            let mut i: usize = 0;
            while i < fields.len()
                invariant
                    rv == role_v(*role),
                    ev == entry_v(*entry),
                    fv == pairs_v(fields@),
                    fv.len() == fields.len(),
                    i <= fields.len(),
                    extends(start, diags@, sum_to(i as int, |k: int| field_count(fv[k], rv, ev))),
                    says(start, diags@, cat_to(i as int, |k: int| field_msgs(fv[k], rv, ev))),
                decreases fields.len() - i,
            {
                let ghost d0 = diags@;
                let ghost mut said: Seq<Seq<char>> = seq![];
                proof {
                    lemma_says_refl(d0);
                    reveal_with_fuel(crate::structure::concat, 8);
                }
                let (field, x) = (&fields[i].0, &fields[i].1);
                assert(fv[i as int] == (field@, expr_v(*x)));
                let ghost c = sum_to(i as int, |k: int| field_count(fv[k], rv, ev));
                match type_of(x, role, entry) {
                    Err(msg) => {
                        let m = located(
                            role,
                            entry,
                            text_of(vec!["in return field `", field.as_str(), "`: ", msg.as_str()]).as_str(),
                        );
                        report(diags, m, Ghost(start), Ghost(c));
                        proof {
                            lemma_says_push(d0, d0, seq![], Diagnostic { message: m });
                            said = seq![].push(m@);
                            assert(said =~= field_msgs(fv[i as int], rv, ev));
                        }
                    },
                    Ok(t) => {
                        match find_state_ty(role, field) {
                            None => {
                                let m = located(
                                    role,
                                    entry,
                                    text_of(
                                        vec!["return assigns unknown state field `", field.as_str(), "`"],
                                    ).as_str(),
                                );
                                report(diags, m, Ghost(start), Ghost(c));
                        proof {
                            lemma_says_push(d0, d0, seq![], Diagnostic { message: m });
                            said = seq![].push(m@);
                            assert(said =~= field_msgs(fv[i as int], rv, ev));
                        }
                            },
                            Some(declared) => {
                                let want = Ty::Surface(declared);
                                if !ty_eq(&t, &want) {
                                    let tn = ty_name(&t);
                                    let wn = ty_name(&want);
                                    let m = located(
                                        role,
                                        entry,
                                        text_of(
                                            vec![
                                                "return field `",
                                                field.as_str(),
                                                "` has type ",
                                                tn.as_str(),
                                                " but state declares it as ",
                                                wn.as_str(),
                                            ],
                                        ).as_str(),
                                    );
                                    report(diags, m, Ghost(start), Ghost(c));
                        proof {
                            lemma_says_push(d0, d0, seq![], Diagnostic { message: m });
                            said = seq![].push(m@);
                            assert(said =~= field_msgs(fv[i as int], rv, ev));
                        }
                                }
                            },
                        }
                    },
                }
                proof {
                    let g = |k: int| field_msgs(fv[k], rv, ev);
                    assert(said =~= g(i as int));
                    lemma_says_step(start, d0, diags@, g, i as int);
                }
                i += 1;
            }
            proof {
                assert(return_msgs(return_v(*ret), rv, ev) == cat_to(fields.len() as int, |k: int| field_msgs(fv[k], rv, ev)));
            }
        },
    }
}

/// Checks one statement of an entrypoint body.
fn check_stmt_types(st: &Stmt, role: &Role, entry: &Entry, diags: &mut Vec<Diagnostic>)
    ensures
        extends(
            old(diags)@,
            final(diags)@,
            stmt_type_count(stmt_v(*st), role_v(*role), entry_v(*entry)),
        ),
        says(old(diags)@, final(diags)@, stmt_type_msgs(stmt_v(*st), role_v(*role), entry_v(*entry))),
{
    let ghost start = diags@;
    let ghost target = stmt_type_msgs(stmt_v(*st), role_v(*role), entry_v(*entry));
    proof {
        lemma_extends_refl(diags@);
        lemma_says_refl(diags@);
        reveal_with_fuel(crate::structure::concat, 8);
    }
    match st {
        Stmt::Require(x) => match type_of(x, role, entry) {
            Ok(t) => {
                if !is_bool(&t) {
                    let tn = ty_name(&t);
                    let m = located(
                        role,
                        entry,
                        text_of(vec!["require(...) operand must be bool, found ", tn.as_str()]).as_str(),
                    );
                    report(diags, m, Ghost(start), Ghost(0));
                    proof {
                        lemma_says_push(start, start, seq![], Diagnostic { message: m });
                        assert(seq![].push(m@) =~= target);
                    }
                }
            },
            Err(msg) => {
                let m = located(role, entry, msg.as_str());
                report(diags, m, Ghost(start), Ghost(0));
                proof {
                    lemma_says_push(start, start, seq![], Diagnostic { message: m });
                    assert(seq![].push(m@) =~= target);
                }
            },
        },
        Stmt::Return(ret) => check_return(ret, role, entry, diags),
        Stmt::Raw(text) => {
            let covenant = match entry.mode {
                CovenantMode::NonCovenant => false,
                _ => true,
            };
            if covenant {
                let t = crate::lexer::chars_of(text.as_str());
                let trimmed = trim_chars(&t);
                let m = located(
                    role,
                    entry,
                    text_of(
                        vec![
                            "unsupported/untyped statement `",
                            trimmed.as_str(),
                            "` cannot be projected to a covenant; route it to the vProgs (Tier-3) layer (it parsed to an untyped Stmt::Raw hole the emitter would silently drop)",
                        ],
                    ).as_str(),
                );
                report(diags, m, Ghost(start), Ghost(0));
                proof {
                    lemma_says_push(start, start, seq![], Diagnostic { message: m });
                    assert(seq![].push(m@) =~= target);
                }
            }
        },
        _ => {},
    }
}

/// The index of the first character of `cs[a..]` that is not white space,
/// or `cs.len()`.
pub open spec fn lead_white(cs: Seq<char>, a: int) -> int
    decreases cs.len() - a,
{
    if a < 0 || a >= cs.len() {
        cs.len() as int
    } else if is_white(cs[a]) {
        lead_white(cs, a + 1)
    } else {
        a
    }
}

/// The end of `cs[a..b]` with trailing white space dropped.
pub open spec fn trail_white(cs: Seq<char>, a: int, b: int) -> int
    decreases b - a,
{
    if b <= a {
        a
    } else if is_white(cs[b - 1]) {
        trail_white(cs, a, b - 1)
    } else {
        b
    }
}

/// `cs` with leading and trailing white space removed.
pub open spec fn trimmed_chars(cs: Seq<char>) -> Seq<char> {
    let a = lead_white(cs, 0);
    cs.subrange(a, trail_white(cs, a, cs.len() as int))
}

/// The characters with leading and trailing whitespace removed.
fn trim_chars(cs: &Vec<char>) -> (s: String)
    ensures
        s@ == trimmed_chars(cs@),
{
    let mut a: usize = 0;
    while a < cs.len() && crate::lexer::white(cs[a])
        invariant
            a <= cs.len(),
            lead_white(cs@, 0) == lead_white(cs@, a as int),
        decreases cs.len() - a,
    {
        a += 1;
    }
    assert(lead_white(cs@, 0) == a);
    let mut b = cs.len();
    while b > a && crate::lexer::white(cs[b - 1])
        invariant
            a <= b <= cs.len(),
            trail_white(cs@, a as int, cs.len() as int) == trail_white(cs@, a as int, b as int),
        decreases b - a,
    {
        b -= 1;
    }
    crate::lexer::string_of(cs, a, b)
}

/// Type-checks every entrypoint body of a role: one diagnostic per
/// ill-typed guard or return and per raw statement in a covenant
/// entrypoint.
pub fn check_role_exprs(role: &Role, diags: &mut Vec<Diagnostic>)
    ensures
        extends(old(diags)@, final(diags)@, role_type_count(role_v(*role))),
        says(old(diags)@, final(diags)@, role_type_msgs(role_v(*role))),
{
    let ghost rv = role_v(*role);
    let ghost start = diags@;
    let ghost ge = |q: int| entry_type_msgs(rv, rv.entrypoints[q]);
    proof {
        lemma_extends_refl(diags@);
        lemma_says_refl(diags@);
    }
    let mut j: usize = 0;
    while j < role.entrypoints.len()
        invariant
            rv == role_v(*role),
            j <= role.entrypoints.len(),
            extends(
                start,
                diags@,
                sum_to(j as int, |q: int| entry_type_count(rv, rv.entrypoints[q])),
            ),
            ge == (|q: int| entry_type_msgs(rv, rv.entrypoints[q])),
            says(start, diags@, cat_to(j as int, ge)),
        decreases role.entrypoints.len() - j,
    {
        let entry = &role.entrypoints[j];
        assert(rv.entrypoints[j as int] == entry_v(*entry));
        let ghost ev = entry_v(*entry);
        let ghost mid = diags@;
        let ghost gs = |q: int| stmt_type_msgs(ev.body[q], rv, ev);
        proof {
            lemma_extends_refl(diags@);
            lemma_says_refl(diags@);
        }
        let mut k: usize = 0;
        while k < entry.body.len()
            invariant
                rv == role_v(*role),
                ev == entry_v(*entry),
                k <= entry.body.len(),
                extends(mid, diags@, sum_to(k as int, |q: int| stmt_type_count(ev.body[q], rv, ev))),
                gs == (|q: int| stmt_type_msgs(ev.body[q], rv, ev)),
                says(mid, diags@, cat_to(k as int, gs)),
            decreases entry.body.len() - k,
        {
            let ghost before = diags@;
            assert(ev.body[k as int] == stmt_v(entry.body@[k as int]));
            check_stmt_types(&entry.body[k], role, entry, diags);
            proof {
                lemma_says_step(mid, before, diags@, gs, k as int);
                lemma_extends_trans(mid, before, diags@, sum_to(k as int, |q: int| stmt_type_count(ev.body[q], rv, ev)), stmt_type_count(ev.body[k as int], rv, ev));
            }
            k += 1;
        }
        proof {
            lemma_extends_trans(start, mid, diags@, sum_to(j as int, |q: int| entry_type_count(rv, rv.entrypoints[q])), entry_type_count(rv, ev));
            assert(ge(j as int) == cat_to(entry.body.len() as int, gs));
            lemma_says_step(start, mid, diags@, ge, j as int);
        }
        j += 1;
    }
}

} // verus!
