//! The term map from expressions to SMT-LIB: integers, booleans, names and
//! arithmetic and logical operators map to their SMT-LIB forms; a product
//! stays linear only when one side folds to an integer constant; calls and
//! field accesses become uninterpreted functions, collected (first use wins,
//! kept in `str` order) so the document can declare them; array indexing
//! and byte strings have no encoding.

use vstd::prelude::*;
use crate::ast::{BinOp, Expr, Field, Type, UnOp};
use crate::lookup::{is_value_bearing_split as split_rule, value_bearing_split};
use crate::model::{SExpr, SType, expr_v, exprs_v, field_v, strs_v, type_v};
use crate::plan::{lemma_name_lt_total, lemma_name_lt_transitive, name_lt};
use crate::render::lemma_exprs_v;
use crate::smt::spaced;
use crate::text::{decimal, push_decimal, signed_decimal};
use crate::sexpr::SSx;
use crate::validate::{SHalt, ev_bool, ev_int, fits_i128, law_comparisons_mean_integer_order,
    law_connectives_and_arithmetic, model_fun};

verus! {

broadcast use vstd::seq_lib::group_seq_properties;

/// A term that cannot be encoded soundly, with the reason.
#[derive(Debug, Clone, PartialEq, Eq)]
pub struct EncodeError(pub String);

/// The SMT-LIB logic a term family lands in; a document uses the larger of
/// the logics its terms need.
#[derive(Debug, Clone, Copy, PartialEq, Eq, Structural)]
pub enum Logic {
    /// Quantifier-free linear integer arithmetic.
    QfLia,
    /// Adds uninterpreted functions and arrays.
    QfAuflia,
}

pub open spec fn logic_name(l: Logic) -> Seq<char> {
    match l {
        Logic::QfLia => "QF_LIA"@,
        Logic::QfAuflia => "QF_AUFLIA"@,
    }
}

pub open spec fn logic_join(a: Logic, b: Logic) -> Logic {
    if a == Logic::QfAuflia || b == Logic::QfAuflia {
        Logic::QfAuflia
    } else {
        Logic::QfLia
    }
}

impl Logic {
    /// The `(set-logic ...)` name.
    pub fn name(self) -> (s: &'static str)
        ensures
            s@ == logic_name(self),
    {
        match self {
            Logic::QfLia => "QF_LIA",
            Logic::QfAuflia => "QF_AUFLIA",
        }
    }

    /// The larger of two logics.
    pub fn join(self, other: Logic) -> (l: Logic)
        ensures
            l == logic_join(self, other),
    {
        match (self, other) {
            (Logic::QfLia, Logic::QfLia) => Logic::QfLia,
            _ => Logic::QfAuflia,
        }
    }
}

/// The sort a position expects of its term.
#[derive(Debug, Clone, Copy, PartialEq, Eq, Structural)]
pub enum ExpectSort {
    Bool,
    Int,
}

pub open spec fn sort_word(e: ExpectSort) -> Seq<char> {
    match e {
        ExpectSort::Bool => "Bool"@,
        ExpectSort::Int => "Int"@,
    }
}

/// An uninterpreted function's signature: argument sorts and result sort.
#[derive(Debug, Clone, PartialEq, Eq)]
pub struct UfSig {
    pub args: Vec<String>,
    pub ret: String,
}

/// Model of [`UfSig`].
pub struct SUf {
    pub args: Seq<Seq<char>>,
    pub ret: Seq<char>,
}

pub open spec fn uf_v(u: UfSig) -> SUf {
    SUf { args: strs_v(u.args@), ret: u.ret@ }
}

pub open spec fn ufs_v(t: Seq<(String, UfSig)>) -> Seq<(Seq<char>, SUf)> {
    t.map_values(|p: (String, UfSig)| (p.0@, uf_v(p.1)))
}

/// The table's names are strictly increasing.
pub open spec fn table_sorted(t: Seq<(Seq<char>, SUf)>) -> bool {
    forall|i: int, j: int| 0 <= i < j < t.len() ==> name_lt(t[i].0, t[j].0)
}

/// The first position whose name is not below `n`.
pub open spec fn uf_pos(t: Seq<(Seq<char>, SUf)>, n: Seq<char>, k: int) -> int
    decreases t.len() - k,
{
    if k < 0 || k >= t.len() || !name_lt(t[k].0, n) {
        k
    } else {
        uf_pos(t, n, k + 1)
    }
}

/// The table with `(n, sig)` added in `str` order, unless `n` is already
/// there.
pub open spec fn uf_insert(t: Seq<(Seq<char>, SUf)>, n: Seq<char>, sig: SUf) -> Seq<(Seq<char>, SUf)> {
    let k = uf_pos(t, n, 0);
    if k < t.len() && t[k].0 == n {
        t
    } else {
        t.insert(k, (n, sig))
    }
}

/// Every entry of table `a` is still in table `b`.
pub open spec fn table_keeps(a: Seq<(Seq<char>, SUf)>, b: Seq<(Seq<char>, SUf)>) -> bool {
    forall|i: int| 0 <= i < a.len() ==> #[trigger] b.contains(a[i])
}

/// `b` is `a` or a larger logic.
pub open spec fn logic_grows(a: Logic, b: Logic) -> bool {
    a == b || b == Logic::QfAuflia
}

pub proof fn lemma_keeps_refl(a: Seq<(Seq<char>, SUf)>)
    ensures
        table_keeps(a, a),
{
    assert forall|i: int| 0 <= i < a.len() implies #[trigger] a.contains(a[i]) by {
        assert(a[i] == a[i]);
    }
}

pub proof fn lemma_keeps_trans(a: Seq<(Seq<char>, SUf)>, b: Seq<(Seq<char>, SUf)>, c: Seq<(Seq<char>, SUf)>)
    requires
        table_keeps(a, b),
        table_keeps(b, c),
    ensures
        table_keeps(a, c),
{
    assert forall|i: int| 0 <= i < a.len() implies #[trigger] c.contains(a[i]) by {
        assert(b.contains(a[i]));
        let j = choose|j: int| 0 <= j < b.len() && b[j] == a[i];
        assert(c.contains(b[j]));
    }
}

pub proof fn lemma_insert_keeps(t: Seq<(Seq<char>, SUf)>, n: Seq<char>, sig: SUf)
    ensures
        table_keeps(t, uf_insert(t, n, sig)),
{
    let k = uf_pos(t, n, 0);
    if k < t.len() && t[k].0 == n {
        lemma_keeps_refl(t);
    } else {
        let u = uf_insert(t, n, sig);
        assert forall|i: int| 0 <= i < t.len() implies #[trigger] u.contains(t[i]) by {
            lemma_uf_pos_range(t, n, 0);
            if i < k {
                assert(u[i] == t[i]);
            } else {
                assert(u[i + 1] == t[i]);
            }
        }
    }
}

pub proof fn lemma_uf_pos_range(t: Seq<(Seq<char>, SUf)>, n: Seq<char>, k: int)
    requires
        0 <= k,
    ensures
        k <= uf_pos(t, n, k),
        k <= t.len() ==> uf_pos(t, n, k) <= t.len(),
    decreases t.len() - k,
{
    if k < t.len() && name_lt(t[k].0, n) {
        lemma_uf_pos_range(t, n, k + 1);
    }
}

/// The sort bound to name `n`: the last binding of it.
pub open spec fn bound_sort(bs: Seq<(Seq<char>, Seq<char>)>, n: Seq<char>, k: int) -> Option<Seq<char>>
    decreases k,
{
    if k <= 0 || k > bs.len() {
        None
    } else if bs[k - 1].0 == n {
        Some(bs[k - 1].1)
    } else {
        bound_sort(bs, n, k - 1)
    }
}

/// The encoding context: the sort of every name in scope, and the
/// uninterpreted functions met so far.
pub struct EncodeCtx {
    sorts: Vec<(String, String)>,
    ufs: Vec<(String, UfSig)>,
}

impl EncodeCtx {
    pub closed spec fn bindings(&self) -> Seq<(Seq<char>, Seq<char>)> {
        self.sorts@.map_values(|p: (String, String)| (p.0@, p.1@))
    }

    /// The uninterpreted functions met so far, in `str` order of name.
    pub closed spec fn table(&self) -> Seq<(Seq<char>, SUf)> {
        ufs_v(self.ufs@)
    }

    /// A context over `(name, sort)` bindings (a later binding of a name
    /// wins), with no functions met yet.
    pub fn new(bindings: Vec<(String, String)>) -> (c: EncodeCtx)
        ensures
            c.bindings() == bindings@.map_values(|p: (String, String)| (p.0@, p.1@)),
            c.table() == Seq::<(Seq<char>, SUf)>::empty(),
            table_sorted(c.table()),
    {
        let c = EncodeCtx { sorts: bindings, ufs: Vec::new() };
        assert(ufs_v(c.ufs@) =~= Seq::<(Seq<char>, SUf)>::empty());
        c
    }

    /// The sort of name `n`, if bound.
    fn sort_of_name(&self, n: &String) -> (r: Option<&String>)
        ensures
            match r {
                Some(s) => bound_sort(self.bindings(), n@, self.bindings().len() as int) == Some(s@),
                None => bound_sort(self.bindings(), n@, self.bindings().len() as int) is None,
            },
    {
        let ghost bs = self.bindings();
        let mut k = self.sorts.len();
        while k > 0
            invariant
                bs == self.bindings(),
                bs.len() == self.sorts.len(),
                k <= self.sorts.len(),
                bound_sort(bs, n@, bs.len() as int) == bound_sort(bs, n@, k as int),
            decreases k,
        {
            assert(bs[k - 1] == (self.sorts@[k - 1].0@, self.sorts@[k - 1].1@));
            if crate::lookup::same(&self.sorts[k - 1].0, n) {
                return Some(&self.sorts[k - 1].1);
            }
            k -= 1;
        }
        None
    }

    /// The uninterpreted functions met so far, in `str` order of name.
    pub fn ufs(&self) -> (t: &Vec<(String, UfSig)>)
        ensures
            ufs_v(t@) == self.table(),
    {
        &self.ufs
    }

    /// Records function `n` with signature `sig` unless already recorded.
    fn note_uf(&mut self, n: String, sig: UfSig)
        requires
            table_sorted(old(self).table()),
        ensures
            table_sorted(final(self).table()),
            final(self).table() == uf_insert(old(self).table(), n@, uf_v(sig)),
            final(self).bindings() == old(self).bindings(),
    {
        let ghost t = self.table();
        let mut k: usize = 0;
        while k < self.ufs.len() && crate::plan::name_less(&self.ufs[k].0, &n)
            invariant
                t == ufs_v(self.ufs@),
                k <= self.ufs.len(),
                uf_pos(t, n@, 0) == uf_pos(t, n@, k as int),
                forall|j: int| 0 <= j < k ==> name_lt(#[trigger] t[j].0, n@),
            decreases self.ufs.len() - k,
        {
            assert(t[k as int].0 == self.ufs@[k as int].0@);
            k += 1;
        }
        assert(k < t.len() ==> t[k as int].0 == self.ufs@[k as int].0@);
        if k < self.ufs.len() && crate::lookup::same(&self.ufs[k].0, &n) {
            return;
        }
        proof {
            if k < t.len() {
                lemma_name_lt_total(t[k as int].0, n@);
            }
        }
        let ghost pre = self.ufs@;
        let ghost entry = (n@, uf_v(sig));
        assert(ufs_v(pre.insert(k as int, (n, sig))) =~= t.insert(k as int, entry));
        assert forall|i: int, j: int|
            0 <= i < j < t.len() + 1 implies name_lt(
            #[trigger] t.insert(k as int, entry)[i].0,
            #[trigger] t.insert(k as int, entry)[j].0,
        ) by {
            if i == k && j > k {
                if j - 1 > k {
                    lemma_name_lt_transitive(n@, t[k as int].0, t[j - 1].0);
                }
            }
        }
        self.ufs.insert(k, (n, sig));
    }
}

// ── predicates ──────────────────────────────────────────────────────────

/// The wide value-bearing rule: `coin`-typed, named `balance`, `amount` or
/// `supply`, or named with the suffix `balance`.
pub fn is_value_bearing_split(name: &str, ty: &Type) -> (b: bool)
    ensures
        b == value_bearing_split(name@, type_v(*ty)),
{
    split_rule(name, ty)
}

/// Whether a field is `coin`-typed (its values are non-negative).
pub fn is_coin(field: &Field) -> (b: bool)
    ensures
        b == (field_v(*field).ty == SType::Coin),
{
    match field.ty {
        Type::Coin => true,
        _ => false,
    }
}

/// The SMT-LIB symbol for a Portrait identifier: the identifier itself.
pub fn sanitize(name: &str) -> (s: String)
    ensures
        s@ == name@,
{
    String::from_str(name)
}

/// The SMT sort of a Portrait type.
pub open spec fn smt_sort(t: SType) -> Seq<char> {
    match t {
        SType::Int => "Int"@,
        SType::Coin => "Int"@,
        SType::Bool => "Bool"@,
        SType::Bytes32 => "Bytes32"@,
        SType::PubKey => "PubKey"@,
        SType::Sig => "Sig"@,
        SType::SetOf(_) => "Set_T"@,
        _ => "Named_T"@,
    }
}

/// The SMT sort of a Portrait type.
pub fn sort_of(ty: &Type) -> (s: &'static str)
    ensures
        s@ == smt_sort(type_v(*ty)),
{
    match ty {
        Type::Int | Type::Coin => "Int",
        Type::Bool => "Bool",
        Type::Bytes32 => "Bytes32",
        Type::PubKey => "PubKey",
        Type::Sig => "Sig",
        Type::SetOf(_) => "Set_T",
        _ => "Named_T",
    }
}

// ── the term map ────────────────────────────────────────────────────────

proof fn lemma_enc_args_none(args: Seq<SExpr>, k: int, n: int)
    requires
        0 <= k <= n <= args.len(),
        enc_args(args, k) is None,
    ensures
        enc_args(args, n) is None,
    decreases n - k,
{
    if k < n {
        lemma_enc_args_none(args, k + 1, n);
    }
}

/// The value of a constant integer term: a literal, or a negated one.
pub open spec fn const_int(x: SExpr) -> Option<int>
    decreases x,
{
    match x {
        SExpr::Int(n) => Some(n as int),
        SExpr::Unary(op, r) => if op == UnOp::Neg {
            match const_int(*r) {
                Some(k) => Some(-k),
                None => None,
            }
        } else {
            None
        },
        _ => None,
    }
}

pub open spec fn smt_op(op: BinOp) -> Seq<char> {
    match op {
        BinOp::Add => "+"@,
        BinOp::Sub => "-"@,
        BinOp::Mul => "*"@,
        BinOp::Eq => "="@,
        BinOp::Ne => "distinct"@,
        BinOp::Ge => ">="@,
        BinOp::Le => "<="@,
        BinOp::Gt => ">"@,
        BinOp::Lt => "<"@,
        BinOp::And => "and"@,
        BinOp::Or => "or"@,
    }
}

pub open spec fn operand_sort(op: BinOp) -> ExpectSort {
    if op == BinOp::And || op == BinOp::Or {
        ExpectSort::Bool
    } else {
        ExpectSort::Int
    }
}

/// The SMT-LIB term for `x` in a position expecting `ex`, or `None` when it
/// has no sound encoding.
pub open spec fn enc(x: SExpr, ex: ExpectSort) -> Option<Seq<char>>
    decreases x, 1nat,
{
    match x {
        SExpr::Int(n) => Some(signed_decimal(n as int)),
        SExpr::Bool(b) => Some(
            if b {
                "true"@
            } else {
                "false"@
            },
        ),
        SExpr::Var(n) => Some(n),
        SExpr::Unary(op, r) => {
            let inner = if op == UnOp::Neg {
                ExpectSort::Int
            } else {
                ExpectSort::Bool
            };
            let w = if op == UnOp::Neg {
                "-"@
            } else {
                "not"@
            };
            match enc(*r, inner) {
                Some(t) => Some("("@ + w + " "@ + t + ")"@),
                None => None,
            }
        },
        SExpr::Binary(op, l, r) => if op == BinOp::Mul {
            match const_int(*l) {
                Some(k) => match enc(*r, ExpectSort::Int) {
                    Some(t) => Some("(* "@ + signed_decimal(k) + " "@ + t + ")"@),
                    None => None,
                },
                None => match const_int(*r) {
                    Some(k) => match enc(*l, ExpectSort::Int) {
                        Some(t) => Some("(* "@ + t + " "@ + signed_decimal(k) + ")"@),
                        None => None,
                    },
                    None => None,
                },
            }
        } else {
            match (enc(*l, operand_sort(op)), enc(*r, operand_sort(op))) {
                (Some(a), Some(b)) => Some("("@ + smt_op(op) + " "@ + a + " "@ + b + ")"@),
                _ => None,
            }
        },
        SExpr::Call(name, args) => match enc_args(args, args.len() as int) {
            Some(ts) => if ts.len() == 0 {
                Some(name)
            } else {
                Some("("@ + name + " "@ + spaced(ts, ts.len() as int) + ")"@)
            },
            None => None,
        },
        SExpr::Field(b, f) => match enc(*b, ExpectSort::Int) {
            Some(t) => Some("(acc_"@ + f + " "@ + t + ")"@),
            None => None,
        },
        _ => None,
    }
}

/// The terms of the first `k` call arguments (integer positions).
pub open spec fn enc_args(args: Seq<SExpr>, k: int) -> Option<Seq<Seq<char>>>
    decreases args, 0nat, k,
{
    if k <= 0 || k > args.len() {
        Some(Seq::empty())
    } else {
        match (enc_args(args, k - 1), enc(args[k - 1], ExpectSort::Int)) {
            (Some(ts), Some(t)) => Some(ts.push(t)),
            _ => None,
        }
    }
}

/// The encoding of `x` needs uninterpreted functions.
pub open spec fn needs_uf(x: SExpr) -> bool
    decreases x, 1nat,
{
    match x {
        SExpr::Call(_, _) => true,
        SExpr::Field(_, _) => true,
        SExpr::Unary(_, r) => needs_uf(*r),
        SExpr::Binary(op, l, r) => if op == BinOp::Mul {
            if const_int(*l) is Some {
                needs_uf(*r)
            } else {
                needs_uf(*l)
            }
        } else {
            needs_uf(*l) || needs_uf(*r)
        },
        _ => false,
    }
}

/// The sort of a call argument: a bound name's sort, else `Int`.
pub open spec fn arg_sort_of(bs: Seq<(Seq<char>, Seq<char>)>, x: SExpr) -> Seq<char> {
    match x {
        SExpr::Var(n) => match bound_sort(bs, n, bs.len() as int) {
            Some(s) => s,
            None => "Int"@,
        },
        _ => "Int"@,
    }
}

/// The sorts of the first `k` call arguments.
pub open spec fn arg_sorts(bs: Seq<(Seq<char>, Seq<char>)>, args: Seq<SExpr>, k: int) -> Seq<Seq<char>>
    decreases k,
{
    if k <= 0 || k > args.len() {
        Seq::empty()
    } else {
        arg_sorts(bs, args, k - 1).push(arg_sort_of(bs, args[k - 1]))
    }
}

/// The function table after encoding `x` (nested functions first, then the
/// enclosing one).
pub open spec fn table_after(
    t: Seq<(Seq<char>, SUf)>,
    bs: Seq<(Seq<char>, Seq<char>)>,
    x: SExpr,
    ex: ExpectSort,
) -> Seq<(Seq<char>, SUf)>
    decreases x, 1nat,
{
    match x {
        SExpr::Unary(op, r) => table_after(
            t,
            bs,
            *r,
            if op == UnOp::Neg {
                ExpectSort::Int
            } else {
                ExpectSort::Bool
            },
        ),
        SExpr::Binary(op, l, r) => if op == BinOp::Mul {
            if const_int(*l) is Some {
                table_after(t, bs, *r, ExpectSort::Int)
            } else {
                table_after(t, bs, *l, ExpectSort::Int)
            }
        } else {
            table_after(table_after(t, bs, *l, operand_sort(op)), bs, *r, operand_sort(op))
        },
        SExpr::Call(name, args) => uf_insert(
            table_args(t, bs, args, args.len() as int),
            name,
            SUf { args: arg_sorts(bs, args, args.len() as int), ret: sort_word(ex) },
        ),
        SExpr::Field(b, f) => uf_insert(
            table_after(t, bs, *b, ExpectSort::Int),
            "acc_"@ + f,
            SUf { args: seq!["Int"@], ret: sort_word(ex) },
        ),
        _ => t,
    }
}

/// The function table after encoding the first `k` call arguments.
pub open spec fn table_args(
    t: Seq<(Seq<char>, SUf)>,
    bs: Seq<(Seq<char>, Seq<char>)>,
    args: Seq<SExpr>,
    k: int,
) -> Seq<(Seq<char>, SUf)>
    decreases args, 0nat, k,
{
    if k <= 0 || k > args.len() {
        t
    } else {
        table_after(table_args(t, bs, args, k - 1), bs, args[k - 1], ExpectSort::Int)
    }
}

/// The decimal text of an integer of magnitude below `2^64`.
fn int_text(k: i128) -> (s: String)
    requires
        -18446744073709551615 <= k <= 18446744073709551615,
    ensures
        s@ == signed_decimal(k as int),
{
    let mut s = String::new();
    if k < 0 {
        crate::text::push_char(&mut s, '-');
        let m = (-k) as u64;
        push_decimal(&mut s, m);
        assert(s@ =~= seq!['-'] + decimal((-k) as nat));
    } else {
        push_decimal(&mut s, k as u64);
        assert(s@ =~= decimal(k as nat));
    }
    s
}

/// The constant value of `x`, if it is a (possibly negated) literal.
fn const_value(x: &Expr) -> (r: Option<i128>)
    ensures
        match r {
            Some(k) => const_int(expr_v(*x)) == Some(k as int) && -9223372036854775808 <= k
                <= 9223372036854775808,
            None => const_int(expr_v(*x)) is None,
        },
    decreases x,
{
    match x {
        Expr::Int(n) => Some(*n as i128),
        Expr::Unary { op: UnOp::Neg, rhs } => match const_value(rhs) {
            Some(k) => Some(-k),
            None => None,
        },
        _ => None,
    }
}

/// Builds `(w a b)`-shaped text from its pieces.
fn wrap(parts: Vec<&str>) -> (s: String)
    ensures
        s@ == crate::structure::concat(parts@),
{
    crate::structure::text_of(parts)
}

/// Encodes `x` as an SMT-LIB term for a position expecting `ex`: the term
/// is [`enc`]; the logic grows to `QF_AUFLIA` exactly when the term needs
/// uninterpreted functions, and the functions it uses are recorded.
#[verifier::loop_isolation(false)]
pub fn encode_expr(x: &Expr, ctx: &mut EncodeCtx, logic: &mut Logic, ex: ExpectSort) -> (r: Result<
    String,
    EncodeError,
>)
    requires
        table_sorted(old(ctx).table()),
    ensures
        table_sorted(final(ctx).table()),
        final(ctx).bindings() == old(ctx).bindings(),
        logic_grows(*old(logic), *final(logic)),
        table_keeps(old(ctx).table(), final(ctx).table()),
        !needs_uf(expr_v(*x)) ==> *final(logic) == *old(logic),
        r is Ok <==> enc(expr_v(*x), ex) is Some,
        r matches Ok(t) ==> t@ == enc(expr_v(*x), ex)->0 && *final(logic) == (if needs_uf(expr_v(*x)) {
            Logic::QfAuflia
        } else {
            *old(logic)
        }) && final(ctx).table() == table_after(
            old(ctx).table(),
            old(ctx).bindings(),
            expr_v(*x),
            ex,
        ),
    decreases x, 1nat,
{
    proof {
        reveal_with_fuel(crate::structure::concat, 8);
        lemma_keeps_refl(ctx.table());
    }
    match x {
        Expr::Int(n) => Ok(int_text(*n as i128)),
        Expr::Bool(b) => Ok(String::from_str(if *b { "true" } else { "false" })),
        Expr::Var(n) => Ok(sanitize(n.as_str())),
        Expr::Unary { op, rhs } => {
            let (inner, w) = match op {
                UnOp::Neg => (ExpectSort::Int, "-"),
                UnOp::Not => (ExpectSort::Bool, "not"),
            };
            let t = encode_expr(rhs, ctx, logic, inner)?;
            let out = wrap(vec!["(", w, " ", t.as_str(), ")"]);
            assert(out@ =~= "("@ + w@ + " "@ + t@ + ")"@);
            Ok(out)
        },
        Expr::Binary { .. } => encode_binary(x, ctx, logic),
        Expr::Call { name, args } => {
            proof {
                lemma_exprs_v(args@, args@.len() as int);
            }
            let ghost av = exprs_v(args@, args@.len() as int);
            let ghost bs = ctx.bindings();
            let ghost t0 = ctx.table();
            let ghost l0 = *logic;
            *logic = logic.join(Logic::QfAuflia);
            let mut sorts: Vec<String> = Vec::new();
            let mut terms: Vec<String> = Vec::new();
            let mut i: usize = 0;
            assert(strs_v(sorts@) =~= arg_sorts(bs, av, 0));
            assert(strs_v(terms@) =~= enc_args(av, 0)->0);
            while i < args.len()
                invariant
                    i <= args.len(),
                    av == exprs_v(args@, args@.len() as int),
                    av.len() == args@.len(),
                    forall|k: int| 0 <= k < args@.len() ==> #[trigger] av[k] == expr_v(args@[k]),
                    bs == ctx.bindings(),
                    table_sorted(ctx.table()),
                    *logic == Logic::QfAuflia,
                    strs_v(sorts@) == arg_sorts(bs, av, i as int),
                    enc_args(av, i as int) is Some,
                    strs_v(terms@) == enc_args(av, i as int)->0,
                    ctx.table() == table_args(t0, bs, av, i as int),
                    table_keeps(t0, ctx.table()),
                decreases args.len() - i,
            {
                proof {
                    let ghost a: Vec<Expr> = *args;
                    assert(decreases_to!(*x => a));
                    assert(decreases_to!(a => a@));
                    assert(decreases_to!(a@ => a@[i as int]));
                }
                let a = &args[i];
                let s = match a {
                    Expr::Var(n) => match ctx.sort_of_name(n) {
                        Some(s) => s.clone(),
                        None => String::from_str("Int"),
                    },
                    _ => String::from_str("Int"),
                };
                proof {
                    crate::model::lemma_strs_push(sorts@, s);
                }
                sorts.push(s);
                let ghost tb = ctx.table();
                let t = match encode_expr(a, ctx, logic, ExpectSort::Int) {
                    Ok(t) => {
                        proof {
                            lemma_keeps_trans(t0, tb, ctx.table());
                        }
                        t
                    },
                    Err(e) => {
                        proof {
                            lemma_keeps_trans(t0, tb, ctx.table());
                            assert(enc_args(av, i + 1) is None);
                            lemma_enc_args_none(av, i + 1, av.len() as int);
                        }
                        return Err(e);
                    },
                };
                proof {
                    crate::model::lemma_strs_push(terms@, t);
                }
                terms.push(t);
                i += 1;
            }
            let ret = String::from_str(match ex {
                ExpectSort::Bool => "Bool",
                ExpectSort::Int => "Int",
            });
            let ghost tc = ctx.table();
            let sn = sanitize(name.as_str());
            let sig = UfSig { args: sorts, ret };
            let ghost sv = uf_v(sig);
            ctx.note_uf(sn, sig);
            proof {
                lemma_insert_keeps(tc, sn@, sv);
                lemma_keeps_trans(t0, tc, ctx.table());
            }
            if terms.len() == 0 {
                Ok(sanitize(name.as_str()))
            } else {
                let joined = join_spaced(&terms);
                let out = wrap(vec!["(", name.as_str(), " ", joined.as_str(), ")"]);
                assert(out@ =~= "("@ + name@ + " "@ + joined@ + ")"@);
                Ok(out)
            }
        },
        Expr::Field { base, field } => {
            *logic = logic.join(Logic::QfAuflia);
            let t = encode_expr(base, ctx, logic, ExpectSort::Int)?;
            let fname = wrap(vec!["acc_", field.as_str()]);
            assert(fname@ =~= "acc_"@ + field@);
            let ret = String::from_str(match ex {
                ExpectSort::Bool => "Bool",
                ExpectSort::Int => "Int",
            });
            let mut sargs: Vec<String> = Vec::new();
            sargs.push(String::from_str("Int"));
            assert(strs_v(sargs@) =~= seq!["Int"@]);
            let ghost tc = ctx.table();
            let fc = fname.clone();
            let sig = UfSig { args: sargs, ret };
            let ghost sv = uf_v(sig);
            ctx.note_uf(fc, sig);
            proof {
                lemma_insert_keeps(tc, fc@, sv);
                lemma_keeps_trans(old(ctx).table(), tc, ctx.table());
            }
            let out = wrap(vec!["(", fname.as_str(), " ", t.as_str(), ")"]);
            assert(out@ =~= "(acc_"@ + field@ + " "@ + t@ + ")"@) by {
                assert("(acc_"@ =~= "("@ + "acc_"@) by {
                    reveal_strlit("(acc_");
                    reveal_strlit("(");
                    reveal_strlit("acc_");
                }
            }
            Ok(out)
        },
        Expr::Index { .. } => Err(EncodeError(String::from_str("array index is outside the conservation fragment"))),
        Expr::Bytes(_) => Err(EncodeError(String::from_str("byte-string literal in an arithmetic/conservation position"))),
    }
}

/// The terms joined by single spaces.
fn join_spaced(v: &Vec<String>) -> (s: String)
    ensures
        s@ == spaced(strs_v(v@), v@.len() as int),
{
    let ghost vv = strs_v(v@);
    let mut s = String::new();
    let mut i: usize = 0;
    while i < v.len()
        invariant
            vv == strs_v(v@),
            i <= v.len(),
            s@ == spaced(vv, i as int),
        decreases v.len() - i,
    {
        if i > 0 {
            s.append(" ");
        }
        s.append(v[i].as_str());
        i += 1;
    }
    s
}

/// Encodes a binary node.
fn encode_binary(x: &Expr, ctx: &mut EncodeCtx, logic: &mut Logic) -> (r: Result<String, EncodeError>)
    requires
        table_sorted(old(ctx).table()),
        x is Binary,
    ensures
        table_sorted(final(ctx).table()),
        final(ctx).bindings() == old(ctx).bindings(),
        logic_grows(*old(logic), *final(logic)),
        table_keeps(old(ctx).table(), final(ctx).table()),
        !needs_uf(expr_v(*x)) ==> *final(logic) == *old(logic),
        r is Ok <==> enc(expr_v(*x), ExpectSort::Int) is Some,
        r matches Ok(t) ==> t@ == enc(expr_v(*x), ExpectSort::Int)->0 && *final(logic) == (if needs_uf(expr_v(*x)) {
            Logic::QfAuflia
        } else {
            *old(logic)
        }) && final(ctx).table() == table_after(old(ctx).table(), old(ctx).bindings(), expr_v(*x), ExpectSort::Int),
    decreases x, 0nat,
{
    let (op, lhs, rhs) = match x {
        Expr::Binary { op, lhs, rhs } => (*op, &**lhs, &**rhs),
        _ => {
            return Err(EncodeError(String::new()));
        },
    };
    assert(expr_v(*x) == SExpr::Binary(op, Box::new(expr_v(*lhs)), Box::new(expr_v(*rhs))));
    proof {
        reveal_with_fuel(crate::structure::concat, 8);
        lemma_keeps_refl(ctx.table());
    }
    if op == BinOp::Mul {
        match const_value(lhs) {
            Some(k) => {
                let t = encode_expr(rhs, ctx, logic, ExpectSort::Int)?;
                let kt = int_text(k);
                let out = wrap(vec!["(* ", kt.as_str(), " ", t.as_str(), ")"]);
                assert(out@ =~= "(* "@ + kt@ + " "@ + t@ + ")"@);
                return Ok(out);
            },
            None => {},
        }
        match const_value(rhs) {
            Some(k) => {
                let t = encode_expr(lhs, ctx, logic, ExpectSort::Int)?;
                let kt = int_text(k);
                let out = wrap(vec!["(* ", t.as_str(), " ", kt.as_str(), ")"]);
                assert(out@ =~= "(* "@ + t@ + " "@ + kt@ + ")"@);
                return Ok(out);
            },
            None => {},
        }
        return Err(EncodeError(String::from_str("non-constant multiplication (would require undecidable QF_NIA)")));
    }
    let operand = match op {
        BinOp::And | BinOp::Or => ExpectSort::Bool,
        _ => ExpectSort::Int,
    };
    let l = encode_expr(lhs, ctx, logic, operand)?;
    let ghost tm = ctx.table();
    let ghost lm = *logic;
    let r = match encode_expr(rhs, ctx, logic, operand) {
        Ok(r) => {
            proof {
                lemma_keeps_trans(old(ctx).table(), tm, ctx.table());
            }
            r
        },
        Err(e) => {
            proof {
                lemma_keeps_trans(old(ctx).table(), tm, ctx.table());
            }
            return Err(e);
        },
    };
    let w = match op {
        BinOp::Add => "+",
        BinOp::Sub => "-",
        BinOp::Mul => "*",
        BinOp::Eq => "=",
        BinOp::Ne => "distinct",
        BinOp::Ge => ">=",
        BinOp::Le => "<=",
        BinOp::Gt => ">",
        BinOp::Lt => "<",
        BinOp::And => "and",
        BinOp::Or => "or",
    };
    let out = wrap(vec!["(", w, " ", l.as_str(), " ", r.as_str(), ")"]);
    assert(out@ =~= "("@ + w@ + " "@ + l@ + " "@ + r@ + ")"@);
    Ok(out)
}


// ── what the emitted operators mean ─────────────────────────────────────

/// The SMT-LIB operator emitted for a Portrait comparison means that
/// comparison: under the interpreted evaluation of SMT-LIB terms, where
/// `x` and `y` evaluate to the integers `a` and `b`, the emitted
/// `(op x y)` holds exactly when `a > b` for `>` (strict), `a >= b` for
/// `>=`, `a < b` for `<` (strict) and `a <= b` for `<=`.
pub proof fn law_encoded_comparison_keeps_its_meaning(op: BinOp, m: Seq<SSx>, x: SSx, y: SSx, a: int, b: int)
    requires
        op == BinOp::Gt || op == BinOp::Ge || op == BinOp::Lt || op == BinOp::Le,
        ev_int(m, x) == Ok::<int, SHalt>(a),
        ev_int(m, y) == Ok::<int, SHalt>(b),
        !model_fun(m, "<="@),
        !model_fun(m, "<"@),
        !model_fun(m, ">="@),
        !model_fun(m, ">"@),
    ensures
        ev_bool(m, SSx::List(seq![SSx::Atom(smt_op(op)), x, y])) == Ok::<bool, SHalt>(
            match op {
                BinOp::Gt => a > b,
                BinOp::Ge => a >= b,
                BinOp::Lt => a < b,
                _ => a <= b,
            },
        ),
{
    law_comparisons_mean_integer_order(m, x, y, a, b);
}

/// The SMT-LIB operator emitted for each other Portrait operator means that
/// operator: where `p` and `q` evaluate to the booleans `u` and `v`, and
/// `x` and `y` to the integers `a` and `b`, the emitted `&&` is `u && v`,
/// `||` is `u || v`, `==` is `a == b`, `!=` is `a != b`, and `+`, `-`, `*`
/// are `a + b`, `a - b`, `a * b` wherever the replay's 128-bit range holds.
pub proof fn law_encoded_operators_keep_their_meaning(
    m: Seq<SSx>,
    p: SSx,
    q: SSx,
    u: bool,
    v: bool,
    x: SSx,
    y: SSx,
    a: int,
    b: int,
)
    requires
        ev_bool(m, p) == Ok::<bool, SHalt>(u),
        ev_bool(m, q) == Ok::<bool, SHalt>(v),
        ev_int(m, x) == Ok::<int, SHalt>(a),
        ev_int(m, y) == Ok::<int, SHalt>(b),
        !model_fun(m, "not"@),
        !model_fun(m, "and"@),
        !model_fun(m, "or"@),
        !model_fun(m, "=>"@),
        !model_fun(m, "="@),
        !model_fun(m, "distinct"@),
        !model_fun(m, "+"@),
        !model_fun(m, "-"@),
        !model_fun(m, "*"@),
    ensures
        ev_bool(m, SSx::List(seq![SSx::Atom(smt_op(BinOp::And)), p, q])) == Ok::<bool, SHalt>(u && v),
        ev_bool(m, SSx::List(seq![SSx::Atom(smt_op(BinOp::Or)), p, q])) == Ok::<bool, SHalt>(u || v),
        ev_bool(m, SSx::List(seq![SSx::Atom(smt_op(BinOp::Eq)), x, y])) == Ok::<bool, SHalt>(a == b),
        ev_bool(m, SSx::List(seq![SSx::Atom(smt_op(BinOp::Ne)), x, y])) == Ok::<bool, SHalt>(a != b),
        fits_i128(a) && fits_i128(a + b) ==> ev_int(m, SSx::List(seq![SSx::Atom(smt_op(BinOp::Add)), x, y]))
            == Ok::<int, SHalt>(a + b),
        fits_i128(a - b) ==> ev_int(m, SSx::List(seq![SSx::Atom(smt_op(BinOp::Sub)), x, y]))
            == Ok::<int, SHalt>(a - b),
        fits_i128(a) && fits_i128(a * b) ==> ev_int(m, SSx::List(seq![SSx::Atom(smt_op(BinOp::Mul)), x, y]))
            == Ok::<int, SHalt>(a * b),
{
    law_connectives_and_arithmetic(m, p, q, u, v, x, y, a, b);
}

} // verus!
