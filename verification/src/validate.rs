//! Independent replay of a solver counter-model. When the solver calls a
//! negated obligation satisfiable, the constants of its model are put into
//! every asserted term of the query, and each term is evaluated over
//! interpreted integer and boolean arithmetic alone. Only a replay in which
//! every term holds confirms the counter-example; a term that applies an
//! uninterpreted function, a constant that is opaque or missing, an
//! arithmetic overflow or a parse failure leaves it a candidate, with the
//! reason.

use vstd::prelude::*;
use crate::lexer::{chars_of, digit, is_digit};
use crate::render::put;
use crate::sexpr::{lemma_sxs_v, parse_all, sx_all, sx_lex, sx_render, sx_v, sxs_v, SSx, Sexpr};
use crate::text::str_eq;

verus! {

broadcast use vstd::seq_lib::group_seq_properties;

/// How far a counter-model can be trusted.
#[derive(Debug, Clone, PartialEq, Eq)]
pub enum WitnessConfidence {
    /// Every asserted term held when replayed over integers and booleans.
    Confirmed,
    /// The replay could not stand behind the model; `reason` says why.
    Candidate { reason: String },
}

// ── integer literals ────────────────────────────────────────────────────

/// The value of a run of decimal digits.
pub open spec fn digits_value(s: Seq<char>) -> int
    decreases s.len(),
{
    if s.len() == 0 {
        0
    } else {
        digits_value(s.drop_last()) * 10 + ((s.last() as u32) as int - 48)
    }
}

pub open spec fn all_digits(s: Seq<char>) -> bool {
    forall|i: int| 0 <= i < s.len() ==> is_digit(#[trigger] s[i])
}

pub open spec fn fits_i128(n: int) -> bool {
    i128::MIN <= n <= i128::MAX
}

/// What `str::parse::<i128>` accepts: an optional `-` or `+`, then one or
/// more ASCII digits, with the value in range.
pub open spec fn parse_i128(s: Seq<char>) -> Option<int> {
    let signed = s.len() > 0 && (s[0] == '-' || s[0] == '+');
    let body = if signed { s.drop_first() } else { s };
    let v = if s.len() > 0 && s[0] == '-' { -digits_value(body) } else { digits_value(body) };
    if body.len() > 0 && all_digits(body) && fits_i128(v) { Some(v) } else { None }
}

proof fn lemma_digits_nonneg(s: Seq<char>)
    requires
        all_digits(s),
    ensures
        digits_value(s) >= 0,
    decreases s.len(),
{
    if s.len() > 0 {
        assert(all_digits(s.drop_last()));
        lemma_digits_nonneg(s.drop_last());
    }
}

/// A prefix of a digit run is worth no more than the whole run.
proof fn lemma_digits_prefix(s: Seq<char>, k: int)
    requires
        all_digits(s),
        0 <= k <= s.len(),
    ensures
        digits_value(s.subrange(0, k)) <= digits_value(s),
    decreases s.len(),
{
    if k < s.len() {
        let t = s.drop_last();
        assert(all_digits(t));
        lemma_digits_prefix(t, k);
        assert(t.subrange(0, k) =~= s.subrange(0, k));
        lemma_digits_nonneg(t);
    } else {
        assert(s.subrange(0, k) =~= s);
    }
}

/// `str::parse::<i128>`.
#[verifier::loop_isolation(false)]
fn parse_int(s: &str) -> (r: Option<i128>)
    ensures
        match r {
            Some(n) => parse_i128(s@) == Some(n as int),
            None => parse_i128(s@) is None,
        },
{
    let cs = chars_of(s);
    let n = cs.len();
    let neg = n > 0 && cs[0] == '-';
    let start: usize = if n > 0 && (cs[0] == '-' || cs[0] == '+') { 1 } else { 0 };
    let ghost body = cs@.subrange(start as int, n as int);
    assert(body =~= (if start == 1 { s@.drop_first() } else { s@ }));
    if start >= n {
        return None;
    }
    let mut acc: i128 = 0;
    let mut i: usize = start;
    while i < n
        invariant
            start <= i <= n,
            n == cs@.len(),
            cs@ == s@,
            body == cs@.subrange(start as int, n as int),
            all_digits(cs@.subrange(start as int, i as int)),
            neg ==> acc == -digits_value(cs@.subrange(start as int, i as int)),
            !neg ==> acc == digits_value(cs@.subrange(start as int, i as int)),
        decreases n - i,
    {
        let c = cs[i];
        let ghost pre = cs@.subrange(start as int, i as int);
        let ghost next = cs@.subrange(start as int, i + 1);
        assert(next.drop_last() =~= pre);
        if !digit(c) {
            assert(body[i - start] == c);
            assert(!all_digits(body));
            return None;
        }
        assert(all_digits(next));
        let d: i128 = (c as u32 - 48) as i128;
        assert(next.last() == c);
        assert(digits_value(next) == digits_value(pre) * 10 + d);
        let grown = acc.checked_mul(10);
        let stepped = match grown {
            Some(t) => if neg { t.checked_sub(d) } else { t.checked_add(d) },
            None => None,
        };
        match stepped {
            Some(v) => {
                acc = v;
            },
            None => {
                proof {
                    lemma_digits_nonneg(pre);
                    if all_digits(body) {
                        assert(next =~= body.subrange(0, i + 1 - start));
                        lemma_digits_prefix(body, i + 1 - start);
                    }
                }
                return None;
            },
        }
        i += 1;
    }
    assert(cs@.subrange(start as int, n as int) =~= body);
    Some(acc)
}

// ── the model ───────────────────────────────────────────────────────────

/// A constant of the model.
pub enum SValue {
    Int(int),
    Bool(bool),
    /// An element of an uninterpreted sort, or a body that is no literal.
    Opaque,
}

#[derive(Clone, Copy)]
enum Value {
    Int(i128),
    Bool(bool),
    Opaque,
}

spec fn value_v(v: Value) -> SValue {
    match v {
        Value::Int(n) => SValue::Int(n as int),
        Value::Bool(b) => SValue::Bool(b),
        Value::Opaque => SValue::Opaque,
    }
}

pub open spec fn is_atom(x: SSx, a: Seq<char>) -> bool {
    x is Atom && x->Atom_0 == a
}

/// The models of all the expressions of `v`.
pub open spec fn sxs(v: Seq<Sexpr>) -> Seq<SSx> {
    sxs_v(v, v.len() as int)
}

/// The definitions of a model: the elements of its single top-level list, or
/// else its top-level forms themselves.
pub open spec fn model_items(forms: Seq<SSx>) -> Seq<SSx> {
    if forms.len() == 1 && forms[0] is List {
        forms[0]->List_0
    } else {
        forms
    }
}

/// `(define-fun NAME () SORT BODY)`: name, sort and body of a constant.
pub open spec fn const_def(f: SSx) -> Option<(Seq<char>, SSx, SSx)> {
    match f {
        SSx::List(p) => if p.len() == 5 && is_atom(p[0], "define-fun"@) && p[1] is Atom
            && p[2] is List && p[2]->List_0.len() == 0 {
            Some((p[1]->Atom_0, p[3], p[4]))
        } else {
            None
        },
        SSx::Atom(_) => None,
    }
}

/// `(declare-fun NAME () SORT)`: an element of an uninterpreted sort.
pub open spec fn const_decl(f: SSx) -> Option<Seq<char>> {
    match f {
        SSx::List(p) => if p.len() == 4 && is_atom(p[0], "declare-fun"@) && p[1] is Atom
            && p[2] is List && p[2]->List_0.len() == 0 {
            Some(p[1]->Atom_0)
        } else {
            None
        },
        SSx::Atom(_) => None,
    }
}

/// `(define-fun NAME (ARGS...) SORT BODY)` with arguments: a function.
pub open spec fn fun_def(f: SSx) -> Option<Seq<char>> {
    match f {
        SSx::List(p) => if p.len() == 5 && is_atom(p[0], "define-fun"@) && p[1] is Atom
            && p[2] is List && p[2]->List_0.len() > 0 {
            Some(p[1]->Atom_0)
        } else {
            None
        },
        SSx::Atom(_) => None,
    }
}

/// An integer literal of a model: a numeral, or `(- N)`.
pub open spec fn int_lit(b: SSx) -> Option<int> {
    match b {
        SSx::Atom(a) => parse_i128(a),
        SSx::List(p) => if p.len() == 2 && is_atom(p[0], "-"@) && p[1] is Atom {
            match parse_i128(p[1]->Atom_0) {
                Some(v) => if fits_i128(-v) { Some(-v) } else { None },
                None => None,
            }
        } else {
            None
        },
    }
}

/// The value of a constant of the given sort and body.
pub open spec fn sort_value(sort: SSx, body: SSx) -> SValue {
    if is_atom(sort, "Int"@) {
        match int_lit(body) {
            Some(n) => SValue::Int(n),
            None => SValue::Opaque,
        }
    } else if is_atom(sort, "Bool"@) {
        if is_atom(body, "true"@) {
            SValue::Bool(true)
        } else if is_atom(body, "false"@) {
            SValue::Bool(false)
        } else {
            SValue::Opaque
        }
    } else {
        SValue::Opaque
    }
}

/// The last definition of `name` among the first `k` items.
pub open spec fn last_def(items: Seq<SSx>, k: int, name: Seq<char>) -> Option<SValue>
    decreases k,
{
    if k <= 0 || k > items.len() {
        None
    } else if const_def(items[k - 1]) is Some && const_def(items[k - 1]).unwrap().0 == name {
        Some(sort_value(const_def(items[k - 1]).unwrap().1, const_def(items[k - 1]).unwrap().2))
    } else {
        last_def(items, k - 1, name)
    }
}

pub open spec fn declared(items: Seq<SSx>, name: Seq<char>) -> bool {
    exists|i: int| 0 <= i < items.len() && #[trigger] const_decl(items[i]) == Some(name)
}

/// The value the model gives a constant: its last definition; else, where it
/// is only declared, an opaque value.
pub open spec fn model_value(items: Seq<SSx>, name: Seq<char>) -> Option<SValue> {
    match last_def(items, items.len() as int, name) {
        Some(v) => Some(v),
        None => if declared(items, name) { Some(SValue::Opaque) } else { None },
    }
}

/// Whether the model defines `name` as a function of arguments.
pub open spec fn model_fun(items: Seq<SSx>, name: Seq<char>) -> bool {
    exists|i: int| 0 <= i < items.len() && #[trigger] fun_def(items[i]) == Some(name)
}

fn atom_is(x: &Sexpr, a: &str) -> (r: bool)
    ensures
        r == is_atom(sx_v(*x), a@),
{
    match x {
        Sexpr::Atom(s) => str_eq(s.as_str(), a),
        Sexpr::List(_) => false,
    }
}

fn empty_list(x: &Sexpr) -> (r: Option<bool>)
    ensures
        match r {
            Some(e) => sx_v(*x) is List && e == (sx_v(*x)->List_0.len() == 0),
            None => sx_v(*x) is Atom,
        },
{
    match x {
        Sexpr::List(v) => {
            proof {
                lemma_sxs_v(v@, v@.len() as int);
            }
            Some(v.len() == 0)
        },
        Sexpr::Atom(_) => None,
    }
}

/// An integer literal of a model: a numeral, or `(- N)`.
pub fn int_literal(body: &Sexpr) -> (r: Option<i128>)
    ensures
        match r {
            Some(n) => int_lit(sx_v(*body)) == Some(n as int),
            None => int_lit(sx_v(*body)) is None,
        },
{
    match body {
        Sexpr::Atom(a) => parse_int(a.as_str()),
        Sexpr::List(p) => {
            proof {
                lemma_sxs_v(p@, p@.len() as int);
            }
            if p.len() != 2 || !atom_is(&p[0], "-") {
                return None;
            }
            match &p[1] {
                Sexpr::Atom(n) => match parse_int(n.as_str()) {
                    Some(v) => if v == i128::MIN { None } else { Some(-v) },
                    None => None,
                },
                Sexpr::List(_) => None,
            }
        },
    }
}

fn value_of(sort: &Sexpr, body: &Sexpr) -> (r: Value)
    ensures
        value_v(r) == sort_value(sx_v(*sort), sx_v(*body)),
{
    if atom_is(sort, "Int") {
        match int_literal(body) {
            Some(n) => Value::Int(n),
            None => Value::Opaque,
        }
    } else if atom_is(sort, "Bool") {
        if atom_is(body, "true") {
            Value::Bool(true)
        } else if atom_is(body, "false") {
            Value::Bool(false)
        } else {
            Value::Opaque
        }
    } else {
        Value::Opaque
    }
}

/// The value `f` gives `name`, where `f` is a constant definition of it.
fn definition_of(f: &Sexpr, name: &str) -> (r: Option<Value>)
    ensures
        (const_def(sx_v(*f)) is Some && const_def(sx_v(*f)).unwrap().0 == name@) ==> (r is Some
            && value_v(r.unwrap()) == sort_value(
            const_def(sx_v(*f)).unwrap().1,
            const_def(sx_v(*f)).unwrap().2,
        )),
        !(const_def(sx_v(*f)) is Some && const_def(sx_v(*f)).unwrap().0 == name@) ==> r is None,
{
    match f {
        Sexpr::List(p) => {
            proof {
                lemma_sxs_v(p@, p@.len() as int);
            }
            if p.len() != 5 || !atom_is(&p[0], "define-fun") || !atom_is(&p[1], name) {
                return None;
            }
            match empty_list(&p[2]) {
                Some(true) => Some(value_of(&p[3], &p[4])),
                _ => None,
            }
        },
        Sexpr::Atom(_) => None,
    }
}

/// Whether `f` declares `name` as an element of an uninterpreted sort.
fn declares(f: &Sexpr, name: &str) -> (r: bool)
    ensures
        r == (const_decl(sx_v(*f)) == Some(name@)),
{
    match f {
        Sexpr::List(p) => {
            proof {
                lemma_sxs_v(p@, p@.len() as int);
            }
            if p.len() != 4 || !atom_is(&p[0], "declare-fun") || !atom_is(&p[1], name) {
                return false;
            }
            match empty_list(&p[2]) {
                Some(e) => e,
                None => false,
            }
        },
        Sexpr::Atom(_) => false,
    }
}

/// Whether `f` defines `name` as a function of arguments.
fn defines_fun(f: &Sexpr, name: &str) -> (r: bool)
    ensures
        r == (fun_def(sx_v(*f)) == Some(name@)),
{
    match f {
        Sexpr::List(p) => {
            proof {
                lemma_sxs_v(p@, p@.len() as int);
            }
            if p.len() != 5 || !atom_is(&p[0], "define-fun") || !atom_is(&p[1], name) {
                return false;
            }
            match empty_list(&p[2]) {
                Some(e) => !e,
                None => false,
            }
        },
        Sexpr::Atom(_) => false,
    }
}

/// The value the model gives `name`.
fn model_lookup(items: &Vec<Sexpr>, name: &str) -> (r: Option<Value>)
    ensures
        match r {
            Some(v) => model_value(sxs(items@), name@) == Some(value_v(v)),
            None => model_value(sxs(items@), name@) is None,
        },
{
    let ghost m = sxs(items@);
    proof {
        lemma_sxs_v(items@, items@.len() as int);
    }
    let mut k: usize = items.len();
    while k > 0
        invariant
            k <= items.len(),
            m == sxs(items@),
            m.len() == items@.len(),
            forall|j: int| 0 <= j < items@.len() ==> #[trigger] m[j] == sx_v(items@[j]),
            last_def(m, m.len() as int, name@) == last_def(m, k as int, name@),
        decreases k,
    {
        k -= 1;
        match definition_of(&items[k], name) {
            Some(v) => {
                return Some(v);
            },
            None => {},
        }
    }
    let mut i: usize = 0;
    while i < items.len()
        invariant
            i <= items.len(),
            m == sxs(items@),
            m.len() == items@.len(),
            forall|j: int| 0 <= j < items@.len() ==> #[trigger] m[j] == sx_v(items@[j]),
            last_def(m, m.len() as int, name@) is None,
            forall|j: int| 0 <= j < i ==> #[trigger] const_decl(m[j]) != Some(name@),
        decreases items.len() - i,
    {
        if declares(&items[i], name) {
            assert(const_decl(m[i as int]) == Some(name@));
            return Some(Value::Opaque);
        }
        i += 1;
    }
    None
}

/// Whether the model defines `name` as a function of arguments.
fn is_model_fun(items: &Vec<Sexpr>, name: &str) -> (r: bool)
    ensures
        r == model_fun(sxs(items@), name@),
{
    let ghost m = sxs(items@);
    proof {
        lemma_sxs_v(items@, items@.len() as int);
    }
    let mut i: usize = 0;
    while i < items.len()
        invariant
            i <= items.len(),
            m == sxs(items@),
            m.len() == items@.len(),
            forall|j: int| 0 <= j < items@.len() ==> #[trigger] m[j] == sx_v(items@[j]),
            forall|j: int| 0 <= j < i ==> #[trigger] fun_def(m[j]) != Some(name@),
        decreases items.len() - i,
    {
        if defines_fun(&items[i], name) {
            assert(fun_def(m[i as int]) == Some(name@));
            return true;
        }
        i += 1;
    }
    false
}


// ── the replay ──────────────────────────────────────────────────────────

/// An interpreted value.
pub enum SEval {
    Int(int),
    Bool(bool),
}

/// Why an evaluation stopped: a reason, or an operator applied to fewer
/// operands than it reads.
pub enum SHalt {
    Reason(Seq<char>),
    Arity,
}

/// The folds over operands.
#[derive(Clone, Copy)]
pub enum Arith {
    Add,
    Mul,
    Sub,
}

pub open spec fn arith(k: Arith, a: int, b: int) -> int {
    match k {
        Arith::Add => a + b,
        Arith::Mul => a * b,
        Arith::Sub => a - b,
    }
}

pub open spec fn arith_tag(k: Arith) -> Seq<char> {
    match k {
        Arith::Add => "+"@,
        Arith::Mul => "*"@,
        Arith::Sub => "-"@,
    }
}

pub open spec fn overflow_msg(tag: Seq<char>) -> Seq<char> {
    "integer overflow during interpreted replay ("@ + tag + ")"@
}

pub open spec fn opaque_msg(a: Seq<char>) -> Seq<char> {
    "symbol `"@ + a
        + "` resolves to an uninterpreted (opaque) value; witness depends on a non-integer/non-boolean value"@
}

pub open spec fn missing_msg(a: Seq<char>) -> Seq<char> {
    "symbol `"@ + a + "` has no concrete value in the model; cannot replay over integers"@
}

pub open spec fn uf_msg(op: Seq<char>) -> Seq<char> {
    "term applies uninterpreted function `"@ + op
        + "`; witness depends on an uninterpreted value (possible over-approximation artifact)"@
}

pub open spec fn op_msg(op: Seq<char>) -> Seq<char> {
    "term uses operator `"@ + op
        + "` outside the interpreted (integer/bool) replay fragment; cannot confirm witness"@
}

pub open spec fn head_msg(t: SSx) -> Seq<char> {
    "non-atom operator head in term: "@ + sx_render(t)
}

pub open spec fn not_bool_msg(t: SSx) -> Seq<char> {
    "expected a boolean assertion but got an integer term: "@ + sx_render(t)
}

pub open spec fn not_int_msg(t: SSx) -> Seq<char> {
    "expected an integer operand but got a boolean term: "@ + sx_render(t)
}

pub open spec fn is_cmp(op: Seq<char>) -> bool {
    op == "<"@ || op == "<="@ || op == ">"@ || op == ">="@
}

pub open spec fn compare(op: Seq<char>, l: int, r: int) -> bool {
    if op == "<"@ {
        l < r
    } else if op == "<="@ {
        l <= r
    } else if op == ">"@ {
        l > r
    } else {
        l >= r
    }
}

/// An atom: a boolean or integer literal, else the model's constant.
pub open spec fn ev_atom(m: Seq<SSx>, a: Seq<char>) -> Result<SEval, SHalt> {
    if a == "true"@ {
        Ok(SEval::Bool(true))
    } else if a == "false"@ {
        Ok(SEval::Bool(false))
    } else if parse_i128(a) is Some {
        Ok(SEval::Int(parse_i128(a).unwrap()))
    } else {
        match model_value(m, a) {
            Some(SValue::Int(n)) => Ok(SEval::Int(n)),
            Some(SValue::Bool(b)) => Ok(SEval::Bool(b)),
            Some(SValue::Opaque) => Err(SHalt::Reason(opaque_msg(a))),
            None => Err(SHalt::Reason(missing_msg(a))),
        }
    }
}

/// The value of a term under the model's items `m`.
pub open spec fn ev(m: Seq<SSx>, t: SSx) -> Result<SEval, SHalt>
    decreases t, 2nat, 0int,
{
    match t {
        SSx::Atom(a) => ev_atom(m, a),
        SSx::List(ps) => ev_list(m, ps),
    }
}

pub open spec fn ev_bool(m: Seq<SSx>, t: SSx) -> Result<bool, SHalt>
    decreases t, 3nat, 0int,
{
    match ev(m, t) {
        Ok(SEval::Bool(b)) => Ok(b),
        Ok(SEval::Int(_)) => Err(SHalt::Reason(not_bool_msg(t))),
        Err(h) => Err(h),
    }
}

pub open spec fn ev_int(m: Seq<SSx>, t: SSx) -> Result<int, SHalt>
    decreases t, 3nat, 0int,
{
    match ev(m, t) {
        Ok(SEval::Int(n)) => Ok(n),
        Ok(SEval::Bool(_)) => Err(SHalt::Reason(not_int_msg(t))),
        Err(h) => Err(h),
    }
}

/// `and` (`conj`) or `or` over the operands from `i` on: stops at the first
/// operand that decides it.
pub open spec fn ev_junct(m: Seq<SSx>, ps: Seq<SSx>, i: int, conj: bool) -> Result<SEval, SHalt>
    decreases ps, 0nat, ps.len() - i,
{
    if i < 0 || i >= ps.len() {
        Ok(SEval::Bool(conj))
    } else {
        match ev_bool(m, ps[i]) {
            Ok(b) => if b != conj { Ok(SEval::Bool(!conj)) } else { ev_junct(m, ps, i + 1, conj) },
            Err(h) => Err(h),
        }
    }
}

/// The fold of the operands from `i` on into `acc`, each step in range.
pub open spec fn ev_fold(m: Seq<SSx>, ps: Seq<SSx>, i: int, acc: int, k: Arith) -> Result<SEval, SHalt>
    decreases ps, 0nat, ps.len() - i,
{
    if i < 0 || i >= ps.len() {
        Ok(SEval::Int(acc))
    } else {
        match ev_int(m, ps[i]) {
            Ok(n) => if fits_i128(arith(k, acc, n)) {
                ev_fold(m, ps, i + 1, arith(k, acc, n), k)
            } else {
                Err(SHalt::Reason(overflow_msg(arith_tag(k))))
            },
            Err(h) => Err(h),
        }
    }
}

/// Whether the operands from `i` on are all the integer `n0`.
pub open spec fn ev_eq_int(m: Seq<SSx>, ps: Seq<SSx>, i: int, n0: int) -> Result<bool, SHalt>
    decreases ps, 0nat, ps.len() - i,
{
    if i < 0 || i >= ps.len() {
        Ok(true)
    } else {
        match ev_int(m, ps[i]) {
            Ok(n) => if n != n0 { Ok(false) } else { ev_eq_int(m, ps, i + 1, n0) },
            Err(h) => Err(h),
        }
    }
}

/// Whether the operands from `i` on are all the boolean `b0`.
pub open spec fn ev_eq_bool(m: Seq<SSx>, ps: Seq<SSx>, i: int, b0: bool) -> Result<bool, SHalt>
    decreases ps, 0nat, ps.len() - i,
{
    if i < 0 || i >= ps.len() {
        Ok(true)
    } else {
        match ev_bool(m, ps[i]) {
            Ok(b) => if b != b0 { Ok(false) } else { ev_eq_bool(m, ps, i + 1, b0) },
            Err(h) => Err(h),
        }
    }
}

/// Whether all operands are equal; the first decides whether they are
/// compared as integers or as booleans.
pub open spec fn ev_eq(m: Seq<SSx>, ps: Seq<SSx>) -> Result<bool, SHalt>
    decreases ps, 0nat, ps.len() + 1,
{
    if ps.len() < 3 {
        Ok(true)
    } else {
        match ev(m, ps[1]) {
            Ok(SEval::Int(n0)) => ev_eq_int(m, ps, 2, n0),
            Ok(SEval::Bool(b0)) => ev_eq_bool(m, ps, 2, b0),
            Err(h) => Err(h),
        }
    }
}

/// An application `(op operands...)`.
pub open spec fn ev_list(m: Seq<SSx>, ps: Seq<SSx>) -> Result<SEval, SHalt>
    decreases ps, 1nat, 0int,
{
    if ps.len() == 0 || !(ps[0] is Atom) {
        Err(SHalt::Reason(head_msg(SSx::List(ps))))
    } else {
        let op = ps[0]->Atom_0;
        if model_fun(m, op) {
            Err(SHalt::Reason(uf_msg(op)))
        } else if op == "not"@ {
            if ps.len() < 2 {
                Err(SHalt::Arity)
            } else {
                match ev_bool(m, ps[1]) {
                    Ok(b) => Ok(SEval::Bool(!b)),
                    Err(h) => Err(h),
                }
            }
        } else if op == "and"@ {
            ev_junct(m, ps, 1, true)
        } else if op == "or"@ {
            ev_junct(m, ps, 1, false)
        } else if op == "=>"@ {
            if ps.len() < 2 {
                Err(SHalt::Arity)
            } else {
                match ev_bool(m, ps[1]) {
                    Ok(p) => if ps.len() < 3 {
                        Err(SHalt::Arity)
                    } else {
                        match ev_bool(m, ps[2]) {
                            Ok(q) => Ok(SEval::Bool(!p || q)),
                            Err(h) => Err(h),
                        }
                    },
                    Err(h) => Err(h),
                }
            }
        } else if op == "="@ || op == "distinct"@ {
            match ev_eq(m, ps) {
                Ok(b) => Ok(SEval::Bool(if op == "="@ { b } else { !b })),
                Err(h) => Err(h),
            }
        } else if is_cmp(op) {
            if ps.len() < 2 {
                Err(SHalt::Arity)
            } else {
                match ev_int(m, ps[1]) {
                    Ok(l) => if ps.len() < 3 {
                        Err(SHalt::Arity)
                    } else {
                        match ev_int(m, ps[2]) {
                            Ok(r) => Ok(SEval::Bool(compare(op, l, r))),
                            Err(h) => Err(h),
                        }
                    },
                    Err(h) => Err(h),
                }
            }
        } else if op == "+"@ {
            ev_fold(m, ps, 1, 0, Arith::Add)
        } else if op == "*"@ {
            ev_fold(m, ps, 1, 1, Arith::Mul)
        } else if op == "-"@ {
            if ps.len() < 2 {
                Err(SHalt::Arity)
            } else {
                match ev_int(m, ps[1]) {
                    Ok(n) => if ps.len() == 2 {
                        if fits_i128(-n) {
                            Ok(SEval::Int(-n))
                        } else {
                            Err(SHalt::Reason(overflow_msg("neg"@)))
                        }
                    } else {
                        ev_fold(m, ps, 2, n, Arith::Sub)
                    },
                    Err(h) => Err(h),
                }
            }
        } else {
            Err(SHalt::Reason(op_msg(op)))
        }
    }
}

#[derive(Clone, Copy)]
enum Eval {
    Int(i128),
    Bool(bool),
}

enum Halt {
    Reason(String),
    Arity,
}

spec fn halt_v(h: Halt) -> SHalt {
    match h {
        Halt::Reason(r) => SHalt::Reason(r@),
        Halt::Arity => SHalt::Arity,
    }
}

spec fn eval_v(r: Result<Eval, Halt>) -> Result<SEval, SHalt> {
    match r {
        Ok(Eval::Int(n)) => Ok(SEval::Int(n as int)),
        Ok(Eval::Bool(b)) => Ok(SEval::Bool(b)),
        Err(h) => Err(halt_v(h)),
    }
}

spec fn bool_v(r: Result<bool, Halt>) -> Result<bool, SHalt> {
    match r {
        Ok(b) => Ok(b),
        Err(h) => Err(halt_v(h)),
    }
}

spec fn int_v(r: Result<i128, Halt>) -> Result<int, SHalt> {
    match r {
        Ok(n) => Ok(n as int),
        Err(h) => Err(halt_v(h)),
    }
}

/// `pre`, then `mid`.
fn joined(pre: &str, mid: &str) -> (s: String)
    ensures
        s@ == pre@ + mid@,
{
    let mut s = String::from_str(pre);
    put(&mut s, mid);
    s
}

/// `pre`, then `mid`, then `post`.
fn message(pre: &str, mid: &str, post: &str) -> (s: String)
    ensures
        s@ == pre@ + mid@ + post@,
{
    let mut s = String::from_str(pre);
    put(&mut s, mid);
    put(&mut s, post);
    s
}

fn eval_atom(items: &Vec<Sexpr>, a: &str) -> (r: Result<Eval, Halt>)
    ensures
        eval_v(r) == ev_atom(sxs(items@), a@),
{
    if str_eq(a, "true") {
        return Ok(Eval::Bool(true));
    }
    if str_eq(a, "false") {
        return Ok(Eval::Bool(false));
    }
    match parse_int(a) {
        Some(n) => {
            return Ok(Eval::Int(n));
        },
        None => {},
    }
    match model_lookup(items, a) {
        Some(Value::Int(n)) => Ok(Eval::Int(n)),
        Some(Value::Bool(b)) => Ok(Eval::Bool(b)),
        Some(Value::Opaque) => Err(
            Halt::Reason(
                message(
                    "symbol `",
                    a,
                    "` resolves to an uninterpreted (opaque) value; witness depends on a non-integer/non-boolean value",
                ),
            ),
        ),
        None => Err(
            Halt::Reason(
                message(
                    "symbol `",
                    a,
                    "` has no concrete value in the model; cannot replay over integers",
                ),
            ),
        ),
    }
}

fn eval(items: &Vec<Sexpr>, term: &Sexpr) -> (r: Result<Eval, Halt>)
    ensures
        eval_v(r) == ev(sxs(items@), sx_v(*term)),
    decreases term, 2nat,
{
    match term {
        Sexpr::Atom(a) => eval_atom(items, a.as_str()),
        Sexpr::List(parts) => {
            proof {
                let ghost v: Vec<Sexpr> = *parts;
                assert(decreases_to!(*term => v));
            }
            eval_list(items, term, parts)
        },
    }
}

fn eval_bool(items: &Vec<Sexpr>, term: &Sexpr) -> (r: Result<bool, Halt>)
    ensures
        bool_v(r) == ev_bool(sxs(items@), sx_v(*term)),
    decreases term, 3nat,
{
    match eval(items, term) {
        Ok(Eval::Bool(b)) => Ok(b),
        Ok(Eval::Int(_)) => Err(
            Halt::Reason(
                joined("expected a boolean assertion but got an integer term: ", term.render().as_str()),
            ),
        ),
        Err(h) => Err(h),
    }
}

fn eval_int(items: &Vec<Sexpr>, term: &Sexpr) -> (r: Result<i128, Halt>)
    ensures
        int_v(r) == ev_int(sxs(items@), sx_v(*term)),
    decreases term, 3nat,
{
    match eval(items, term) {
        Ok(Eval::Int(n)) => Ok(n),
        Ok(Eval::Bool(_)) => Err(
            Halt::Reason(
                joined("expected an integer operand but got a boolean term: ", term.render().as_str()),
            ),
        ),
        Err(h) => Err(h),
    }
}

fn eval_junct(items: &Vec<Sexpr>, parts: &Vec<Sexpr>, conj: bool) -> (r: Result<Eval, Halt>)
    ensures
        eval_v(r) == ev_junct(sxs(items@), sxs(parts@), 1, conj),
    decreases parts, 0nat,
{
    let ghost m = sxs(items@);
    let ghost ps = sxs(parts@);
    proof {
        lemma_sxs_v(parts@, parts@.len() as int);
    }
    let mut i: usize = 1;
    while i < parts.len()
        invariant
            1 <= i,
            m == sxs(items@),
            ps == sxs(parts@),
            ps.len() == parts@.len(),
            forall|j: int| 0 <= j < parts@.len() ==> #[trigger] ps[j] == sx_v(parts@[j]),
            ev_junct(m, ps, 1, conj) == ev_junct(m, ps, i as int, conj),
        decreases parts.len() - i,
    {
        proof {
            let ghost v: Vec<Sexpr> = *parts;
            assert(decreases_to!(v => v@));
            assert(decreases_to!(v@ => v@[i as int]));
        }
        match eval_bool(items, &parts[i]) {
            Ok(b) => {
                if b != conj {
                    return Ok(Eval::Bool(!conj));
                }
            },
            Err(h) => {
                return Err(h);
            },
        }
        i += 1;
    }
    Ok(Eval::Bool(conj))
}

fn eval_fold(items: &Vec<Sexpr>, parts: &Vec<Sexpr>, start: usize, acc0: i128, k: Arith) -> (r:
    Result<Eval, Halt>)
    ensures
        eval_v(r) == ev_fold(sxs(items@), sxs(parts@), start as int, acc0 as int, k),
    decreases parts, 0nat,
{
    let ghost m = sxs(items@);
    let ghost ps = sxs(parts@);
    proof {
        lemma_sxs_v(parts@, parts@.len() as int);
    }
    let mut acc = acc0;
    let mut i: usize = start;
    while i < parts.len()
        invariant
            start <= i,
            m == sxs(items@),
            ps == sxs(parts@),
            ps.len() == parts@.len(),
            forall|j: int| 0 <= j < parts@.len() ==> #[trigger] ps[j] == sx_v(parts@[j]),
            ev_fold(m, ps, start as int, acc0 as int, k) == ev_fold(m, ps, i as int, acc as int, k),
        decreases parts.len() - i,
    {
        proof {
            let ghost v: Vec<Sexpr> = *parts;
            assert(decreases_to!(v => v@));
            assert(decreases_to!(v@ => v@[i as int]));
        }
        let n = match eval_int(items, &parts[i]) {
            Ok(n) => n,
            Err(h) => {
                return Err(h);
            },
        };
        let next = match k {
            Arith::Add => acc.checked_add(n),
            Arith::Mul => acc.checked_mul(n),
            Arith::Sub => acc.checked_sub(n),
        };
        match next {
            Some(v) => {
                acc = v;
            },
            None => {
                let tag = match k {
                    Arith::Add => "+",
                    Arith::Mul => "*",
                    Arith::Sub => "-",
                };
                return Err(Halt::Reason(message("integer overflow during interpreted replay (", tag, ")")));
            },
        }
        i += 1;
    }
    Ok(Eval::Int(acc))
}

fn all_equal(items: &Vec<Sexpr>, parts: &Vec<Sexpr>) -> (r: Result<bool, Halt>)
    ensures
        bool_v(r) == ev_eq(sxs(items@), sxs(parts@)),
    decreases parts, 0nat,
{
    let ghost m = sxs(items@);
    let ghost ps = sxs(parts@);
    proof {
        lemma_sxs_v(parts@, parts@.len() as int);
    }
    if parts.len() < 3 {
        return Ok(true);
    }
    proof {
        let ghost v: Vec<Sexpr> = *parts;
        assert(decreases_to!(v => v@));
        assert(decreases_to!(v@ => v@[1]));
    }
    let first = match eval(items, &parts[1]) {
        Ok(f) => f,
        Err(h) => {
            return Err(h);
        },
    };
    let mut i: usize = 2;
    while i < parts.len()
        invariant
            2 <= i,
            m == sxs(items@),
            ps == sxs(parts@),
            ps.len() == parts@.len(),
            forall|j: int| 0 <= j < parts@.len() ==> #[trigger] ps[j] == sx_v(parts@[j]),
            match first {
                Eval::Int(n0) => ev_eq(m, ps) == ev_eq_int(m, ps, i as int, n0 as int),
                Eval::Bool(b0) => ev_eq(m, ps) == ev_eq_bool(m, ps, i as int, b0),
            },
        decreases parts.len() - i,
    {
        proof {
            let ghost v: Vec<Sexpr> = *parts;
            assert(decreases_to!(v => v@));
            assert(decreases_to!(v@ => v@[i as int]));
        }
        match first {
            Eval::Int(n0) => match eval_int(items, &parts[i]) {
                Ok(n) => {
                    if n != n0 {
                        return Ok(false);
                    }
                },
                Err(h) => {
                    return Err(h);
                },
            },
            Eval::Bool(b0) => match eval_bool(items, &parts[i]) {
                Ok(b) => {
                    if b != b0 {
                        return Ok(false);
                    }
                },
                Err(h) => {
                    return Err(h);
                },
            },
        }
        i += 1;
    }
    Ok(true)
}

/// Evaluates an application `(op operands...)`; `term` is the whole list.
#[verifier::rlimit(40)]
fn eval_list(items: &Vec<Sexpr>, term: &Sexpr, parts: &Vec<Sexpr>) -> (r: Result<Eval, Halt>)
    requires
        sx_v(*term) == SSx::List(sxs(parts@)),
    ensures
        eval_v(r) == ev_list(sxs(items@), sxs(parts@)),
    decreases parts, 1nat,
{
    let ghost m = sxs(items@);
    let ghost ps = sxs(parts@);
    proof {
        lemma_sxs_v(parts@, parts@.len() as int);
    }
    let op: &str = if parts.len() == 0 {
        return Err(Halt::Reason(joined("non-atom operator head in term: ", term.render().as_str())));
    } else {
        match &parts[0] {
            Sexpr::Atom(a) => a.as_str(),
            Sexpr::List(_) => {
                return Err(Halt::Reason(joined("non-atom operator head in term: ", term.render().as_str())));
            },
        }
    };
    assert(op@ == ps[0]->Atom_0);
    if is_model_fun(items, op) {
        return Err(
            Halt::Reason(
                message(
                    "term applies uninterpreted function `",
                    op,
                    "`; witness depends on an uninterpreted value (possible over-approximation artifact)",
                ),
            ),
        );
    }
    if str_eq(op, "not") {
        if parts.len() < 2 {
            return Err(Halt::Arity);
        }
        proof {
            let ghost v: Vec<Sexpr> = *parts;
            assert(decreases_to!(v => v@));
            assert(decreases_to!(v@ => v@[1]));
        }
        match eval_bool(items, &parts[1]) {
            Ok(b) => Ok(Eval::Bool(!b)),
            Err(h) => Err(h),
        }
    } else if str_eq(op, "and") {
        eval_junct(items, parts, true)
    } else if str_eq(op, "or") {
        eval_junct(items, parts, false)
    } else if str_eq(op, "=>") {
        if parts.len() < 2 {
            return Err(Halt::Arity);
        }
        proof {
            let ghost v: Vec<Sexpr> = *parts;
            assert(decreases_to!(v => v@));
            assert(decreases_to!(v@ => v@[1]));
        }
        let p = match eval_bool(items, &parts[1]) {
            Ok(p) => p,
            Err(h) => {
                return Err(h);
            },
        };
        if parts.len() < 3 {
            return Err(Halt::Arity);
        }
        proof {
            let ghost v: Vec<Sexpr> = *parts;
            assert(decreases_to!(v => v@));
            assert(decreases_to!(v@ => v@[2]));
        }
        match eval_bool(items, &parts[2]) {
            Ok(q) => Ok(Eval::Bool(!p || q)),
            Err(h) => Err(h),
        }
    } else if str_eq(op, "=") || str_eq(op, "distinct") {
        let is_eq = str_eq(op, "=");
        match all_equal(items, parts) {
            Ok(b) => Ok(Eval::Bool(if is_eq { b } else { !b })),
            Err(h) => Err(h),
        }
    } else if str_eq(op, "<") || str_eq(op, "<=") || str_eq(op, ">") || str_eq(op, ">=") {
        if parts.len() < 2 {
            return Err(Halt::Arity);
        }
        proof {
            let ghost v: Vec<Sexpr> = *parts;
            assert(decreases_to!(v => v@));
            assert(decreases_to!(v@ => v@[1]));
        }
        let l = match eval_int(items, &parts[1]) {
            Ok(n) => n,
            Err(h) => {
                return Err(h);
            },
        };
        if parts.len() < 3 {
            return Err(Halt::Arity);
        }
        proof {
            let ghost v: Vec<Sexpr> = *parts;
            assert(decreases_to!(v => v@));
            assert(decreases_to!(v@ => v@[2]));
        }
        let r = match eval_int(items, &parts[2]) {
            Ok(n) => n,
            Err(h) => {
                return Err(h);
            },
        };
        let holds = if str_eq(op, "<") {
            l < r
        } else if str_eq(op, "<=") {
            l <= r
        } else if str_eq(op, ">") {
            l > r
        } else {
            l >= r
        };
        Ok(Eval::Bool(holds))
    } else if str_eq(op, "+") {
        eval_fold(items, parts, 1, 0, Arith::Add)
    } else if str_eq(op, "*") {
        eval_fold(items, parts, 1, 1, Arith::Mul)
    } else if str_eq(op, "-") {
        if parts.len() < 2 {
            return Err(Halt::Arity);
        }
        proof {
            let ghost v: Vec<Sexpr> = *parts;
            assert(decreases_to!(v => v@));
            assert(decreases_to!(v@ => v@[1]));
        }
        let first = match eval_int(items, &parts[1]) {
            Ok(n) => n,
            Err(h) => {
                return Err(h);
            },
        };
        if parts.len() == 2 {
            if first == i128::MIN {
                Err(Halt::Reason(message("integer overflow during interpreted replay (", "neg", ")")))
            } else {
                Ok(Eval::Int(-first))
            }
        } else {
            eval_fold(items, parts, 2, first, Arith::Sub)
        }
    } else {
        Err(
            Halt::Reason(
                message(
                    "term uses operator `",
                    op,
                    "` outside the interpreted (integer/bool) replay fragment; cannot confirm witness",
                ),
            ),
        )
    }
}


// ── the verdict ─────────────────────────────────────────────────────────

/// The bodies of the first `k` forms `(assert TERM)` of a document.
pub open spec fn asserted(fs: Seq<SSx>, k: int) -> Seq<SSx>
    decreases k,
{
    if k <= 0 || k > fs.len() {
        seq![]
    } else if fs[k - 1] is List && fs[k - 1]->List_0.len() == 2 && is_atom(
        fs[k - 1]->List_0[0],
        "assert"@,
    ) {
        asserted(fs, k - 1).push(fs[k - 1]->List_0[1])
    } else {
        asserted(fs, k - 1)
    }
}

proof fn lemma_asserted_prefix(fs: Seq<SSx>, k: int, n: int)
    requires
        0 <= k <= n <= fs.len(),
    ensures
        asserted(fs, k).len() <= asserted(fs, n).len(),
        asserted(fs, n).subrange(0, asserted(fs, k).len() as int) == asserted(fs, k),
    decreases n - k,
{
    if k < n {
        lemma_asserted_prefix(fs, k, n - 1);
        let a = asserted(fs, n - 1);
        assert(asserted(fs, n).subrange(0, a.len() as int) =~= a);
        assert(asserted(fs, n).subrange(0, asserted(fs, k).len() as int) =~= a.subrange(
            0,
            asserted(fs, k).len() as int,
        ));
    } else {
        assert(asserted(fs, n).subrange(0, asserted(fs, k).len() as int) =~= asserted(fs, k));
    }
}

/// The outcome of a replay: confirmed, a candidate with its reason, or
/// stuck on an operator applied to too few operands.
pub enum SVerdict {
    Confirmed,
    Candidate(Seq<char>),
    Stuck,
}

/// The replay of the terms from `k` on.
pub open spec fn replay_from(m: Seq<SSx>, ts: Seq<SSx>, k: int) -> SVerdict
    decreases ts.len() - k,
{
    if k < 0 || k >= ts.len() {
        SVerdict::Confirmed
    } else {
        match ev_bool(m, ts[k]) {
            Ok(true) => replay_from(m, ts, k + 1),
            Ok(false) => SVerdict::Candidate(
                "an asserted term did not hold under the interpreted replay: "@ + sx_render(ts[k]),
            ),
            Err(SHalt::Reason(r)) => SVerdict::Candidate(r),
            Err(SHalt::Arity) => SVerdict::Stuck,
        }
    }
}

/// The replay of the document's forms `doc` under the model's forms `model`.
pub open spec fn replay(doc: Seq<SSx>, model: Seq<SSx>) -> SVerdict {
    let ts = asserted(doc, doc.len() as int);
    if ts.len() == 0 {
        SVerdict::Candidate("no assertions to replay against the model"@)
    } else {
        replay_from(model_items(model), ts, 0)
    }
}

/// The top-level forms of a text, if it reads as S-expressions.
pub open spec fn sx_parse(s: Seq<char>) -> Option<Seq<SSx>> {
    match sx_all(sx_lex(s, 0, seq![]), 0, seq![]) {
        Ok(v) => Some(v),
        Err(_) => None,
    }
}

/// Why a text does not read as S-expressions.
pub open spec fn sx_error(s: Seq<char>) -> Seq<char> {
    match sx_all(sx_lex(s, 0, seq![]), 0, seq![]) {
        Ok(_) => seq![],
        Err(m) => m,
    }
}

/// Whether the replay of `doc` under `model` gets stuck.
pub open spec fn replay_stuck(doc: Seq<char>, model: Seq<char>) -> bool {
    sx_parse(model) is Some && sx_parse(doc) is Some && replay(
        sx_parse(doc).unwrap(),
        sx_parse(model).unwrap(),
    ) is Stuck
}

pub open spec fn verdict_of(r: Option<WitnessConfidence>) -> SVerdict {
    match r {
        Some(WitnessConfidence::Confirmed) => SVerdict::Confirmed,
        Some(WitnessConfidence::Candidate { reason }) => SVerdict::Candidate(reason@),
        None => SVerdict::Stuck,
    }
}

/// What the replay of `doc` under `model` gives, where both parse.
pub open spec fn replay_result(doc: Seq<char>, model: Seq<char>, r: Option<WitnessConfidence>) -> bool {
    &&& sx_parse(model) is None ==> (r matches Some(WitnessConfidence::Candidate { reason })
        && reason@ == "could not parse z3 model: "@ + sx_error(model))
    &&& (sx_parse(model) is Some && sx_parse(doc) is None) ==> (r matches Some(
        WitnessConfidence::Candidate { reason },
    ) && reason@ == "could not parse SMT-LIB document: "@ + sx_error(doc))
    &&& (sx_parse(model) is Some && sx_parse(doc) is Some) ==> verdict_of(r) == replay(
        sx_parse(doc).unwrap(),
        sx_parse(model).unwrap(),
    )
}

/// Replays the solver's `model` against the asserted terms of
/// `full_smtlib`; `None` where the replay meets an operator applied to
/// fewer operands than it reads.
pub fn replay_refutation(full_smtlib: &str, model: &str) -> (r: Option<WitnessConfidence>)
    ensures
        replay_result(full_smtlib@, model@, r),
{
    let forms = match parse_all(model) {
        Ok(f) => f,
        Err(e) => {
            return Some(WitnessConfidence::Candidate { reason: joined("could not parse z3 model: ", e.as_str()) });
        },
    };
    let ghost mf = sxs(forms@);
    proof {
        lemma_sxs_v(forms@, forms@.len() as int);
    }
    let items: &Vec<Sexpr> = if forms.len() == 1 {
        match &forms[0] {
            Sexpr::List(inner) => inner,
            Sexpr::Atom(_) => &forms,
        }
    } else {
        &forms
    };
    assert(sxs(items@) == model_items(mf));
    let doc = match parse_all(full_smtlib) {
        Ok(d) => d,
        Err(e) => {
            return Some(
                WitnessConfidence::Candidate { reason: joined("could not parse SMT-LIB document: ", e.as_str()) },
            );
        },
    };
    let ghost df = sxs(doc@);
    let ghost m = model_items(mf);
    let ghost ts = asserted(df, df.len() as int);
    proof {
        lemma_sxs_v(doc@, doc@.len() as int);
    }
    let mut any = false;
    let mut k: usize = 0;
    while k < doc.len()
        invariant
            k <= doc.len(),
            df == sxs(doc@),
            df.len() == doc@.len(),
            forall|j: int| 0 <= j < doc@.len() ==> #[trigger] df[j] == sx_v(doc@[j]),
            any == (asserted(df, k as int).len() > 0),
        decreases doc.len() - k,
    {
        if is_assert(&doc[k]) {
            any = true;
        }
        k += 1;
    }
    if !any {
        return Some(
            WitnessConfidence::Candidate {
                reason: String::from_str("no assertions to replay against the model"),
            },
        );
    }
    let mut k: usize = 0;
    let ghost mut j: int = 0;
    while k < doc.len()
        invariant
            k <= doc.len(),
            df == sxs(doc@),
            df.len() == doc@.len(),
            forall|i: int| 0 <= i < doc@.len() ==> #[trigger] df[i] == sx_v(doc@[i]),
            m == model_items(mf),
            sxs(items@) == m,
            sx_parse(model@) == Some(mf),
            sx_parse(full_smtlib@) == Some(df),
            ts == asserted(df, df.len() as int),
            ts.len() > 0,
            j == asserted(df, k as int).len(),
            replay(df, mf) == replay_from(m, ts, j),
        decreases doc.len() - k,
    {
        proof {
            lemma_asserted_prefix(df, k as int, k + 1);
            lemma_asserted_prefix(df, k + 1, df.len() as int);
        }
        if is_assert(&doc[k]) {
            let term: &Sexpr = match &doc[k] {
                Sexpr::List(p) => {
                    proof {
                        lemma_sxs_v(p@, p@.len() as int);
                    }
                    &p[1]
                },
                Sexpr::Atom(_) => {
                    return None;
                },
            };
            assert(ts[j] == asserted(df, k + 1)[j]);
            assert(ts[j] == sx_v(*term));
            match eval_bool(items, term) {
                Ok(true) => {},
                Ok(false) => {
                    let reason = joined(
                        "an asserted term did not hold under the interpreted replay: ",
                        term.render().as_str(),
                    );
                    return Some(WitnessConfidence::Candidate { reason });
                },
                Err(Halt::Reason(reason)) => {
                    return Some(WitnessConfidence::Candidate { reason });
                },
                Err(Halt::Arity) => {
                    return None;
                },
            }
            proof {
                j = j + 1;
            }
        }
        k += 1;
    }
    proof {
        lemma_asserted_prefix(df, df.len() as int, df.len() as int);
    }
    Some(WitnessConfidence::Confirmed)
}

/// Whether `f` is a form `(assert TERM)`.
fn is_assert(f: &Sexpr) -> (r: bool)
    ensures
        r == (sx_v(*f) is List && sx_v(*f)->List_0.len() == 2 && is_atom(
            sx_v(*f)->List_0[0],
            "assert"@,
        )),
{
    match f {
        Sexpr::List(p) => {
            proof {
                lemma_sxs_v(p@, p@.len() as int);
            }
            p.len() == 2 && atom_is(&p[0], "assert")
        },
        Sexpr::Atom(_) => false,
    }
}

/// The reason given where the replay meets an operator applied to fewer
/// operands than it reads.
pub open spec fn stuck_reason() -> Seq<char> {
    "an asserted term applies an operator to fewer operands than it reads; the replay cannot evaluate it"@
}

/// What validating the counter-model `model` against `doc` gives: the
/// replay's verdict, and a `Candidate` where the replay cannot go on.
pub open spec fn validation(doc: Seq<char>, model: Seq<char>, r: WitnessConfidence) -> bool {
    if replay_stuck(doc, model) {
        r matches WitnessConfidence::Candidate { reason } && reason@ == stuck_reason()
    } else {
        replay_result(doc, model, Some(r))
    }
}

/// Independently checks a solver's counter-model: `Confirmed` exactly when
/// every asserted term of `full_smtlib` holds under the constants of `model`
/// over interpreted integers and booleans; otherwise `Candidate`, with the
/// reason. It fails closed: a replay it cannot complete is a `Candidate`.
pub fn validate_refutation(full_smtlib: &str, model: &str) -> (r: WitnessConfidence)
    ensures
        validation(full_smtlib@, model@, r),
{
    let w = replay_refutation(full_smtlib, model);
    proof {
        lemma_replay_stuck(full_smtlib@, model@, w);
    }
    match w {
        Some(w) => w,
        None => WitnessConfidence::Candidate {
            reason: String::from_str(
                "an asserted term applies an operator to fewer operands than it reads; the replay cannot evaluate it",
            ),
        },
    }
}

/// Where the replay result is `None`, the replay got stuck, and only there.
pub proof fn lemma_replay_stuck(doc: Seq<char>, model: Seq<char>, r: Option<WitnessConfidence>)
    requires
        replay_result(doc, model, r),
    ensures
        r is None <==> replay_stuck(doc, model),
{
}

/// The replay confirms only when every term from `k` on evaluates to true.
pub proof fn lemma_confirmed_from(m: Seq<SSx>, ts: Seq<SSx>, k: int)
    requires
        0 <= k,
        replay_from(m, ts, k) is Confirmed,
    ensures
        forall|j: int| k <= j < ts.len() ==> ev_bool(m, #[trigger] ts[j]) == Ok::<bool, SHalt>(true),
    decreases ts.len() - k,
{
    if k < ts.len() {
        lemma_confirmed_from(m, ts, k + 1);
    }
}

/// A confirmed counter-model is one under which the document has at least
/// one assertion and every asserted term evaluates, over interpreted
/// integers and booleans alone, to true.
pub proof fn law_confirmed_is_complete_replay(doc: Seq<SSx>, model: Seq<SSx>)
    requires
        replay(doc, model) is Confirmed,
    ensures
        asserted(doc, doc.len() as int).len() > 0,
        forall|j: int|
            0 <= j < asserted(doc, doc.len() as int).len() ==> ev_bool(
                model_items(model),
                #[trigger] asserted(doc, doc.len() as int)[j],
            ) == Ok::<bool, SHalt>(true),
{
    lemma_confirmed_from(model_items(model), asserted(doc, doc.len() as int), 0);
}

/// A counter-model is never confirmed when an asserted term applies a
/// function that the model defines with arguments (an uninterpreted value).
pub proof fn law_uninterpreted_never_confirmed(doc: Seq<SSx>, model: Seq<SSx>, j: int)
    requires
        0 <= j < asserted(doc, doc.len() as int).len(),
        asserted(doc, doc.len() as int)[j] is List,
        asserted(doc, doc.len() as int)[j]->List_0.len() > 0,
        asserted(doc, doc.len() as int)[j]->List_0[0] is Atom,
        model_fun(model_items(model), asserted(doc, doc.len() as int)[j]->List_0[0]->Atom_0),
    ensures
        !(replay(doc, model) is Confirmed),
{
    if replay(doc, model) is Confirmed {
        law_confirmed_is_complete_replay(doc, model);
        let t = asserted(doc, doc.len() as int)[j];
        assert(ev_bool(model_items(model), t) == Ok::<bool, SHalt>(true));
    }
}


// ── the meaning of the interpreted comparisons ──────────────────────────

/// The integer comparisons of SMT-LIB mean the integer order: where the two
/// operands evaluate to the integers `a` and `b` (and the model does not
/// define the operator as a function of its own), `(<= x y)` holds exactly
/// when `a <= b`, `(< x y)` when `a < b`, `(>= x y)` when `a >= b`, and
/// `(> x y)` when `a > b`.
pub proof fn law_comparisons_mean_integer_order(m: Seq<SSx>, x: SSx, y: SSx, a: int, b: int)
    requires
        ev_int(m, x) == Ok::<int, SHalt>(a),
        ev_int(m, y) == Ok::<int, SHalt>(b),
        !model_fun(m, "<="@),
        !model_fun(m, "<"@),
        !model_fun(m, ">="@),
        !model_fun(m, ">"@),
    ensures
        ev_bool(m, SSx::List(seq![SSx::Atom("<="@), x, y])) == Ok::<bool, SHalt>(a <= b),
        ev_bool(m, SSx::List(seq![SSx::Atom("<"@), x, y])) == Ok::<bool, SHalt>(a < b),
        ev_bool(m, SSx::List(seq![SSx::Atom(">="@), x, y])) == Ok::<bool, SHalt>(a >= b),
        ev_bool(m, SSx::List(seq![SSx::Atom(">"@), x, y])) == Ok::<bool, SHalt>(a > b),
{
    reveal_strlit("<=");
    reveal_strlit("<");
    reveal_strlit(">=");
    reveal_strlit(">");
    reveal_strlit("not");
    reveal_strlit("and");
    reveal_strlit("or");
    reveal_strlit("=>");
    reveal_strlit("=");
    reveal_strlit("distinct");
    lemma_cmp_not_logical("<="@);
    lemma_cmp_not_logical("<"@);
    lemma_cmp_not_logical(">="@);
    lemma_cmp_not_logical(">"@);
    lemma_comparison(m, "<="@, x, y, a, b);
    lemma_comparison(m, "<"@, x, y, a, b);
    lemma_comparison(m, ">="@, x, y, a, b);
    lemma_comparison(m, ">"@, x, y, a, b);
    assert(">"@[0] != "<"@[0] && ">"@.len() != "<="@.len() && ">"@.len() != ">="@.len());
    assert(">="@[0] != "<"@[0] && ">="@[0] != "<="@[0]);
    assert(compare(">"@, a, b) == (a > b));
    assert(compare(">="@, a, b) == (a >= b));
}

proof fn lemma_cmp_not_logical(op: Seq<char>)
    requires
        op == "<="@ || op == "<"@ || op == ">="@ || op == ">"@,
    ensures
        is_cmp(op),
        op != "not"@ && op != "and"@ && op != "or"@ && op != "=>"@ && op != "="@ && op != "distinct"@,
{
    reveal_strlit("<=");
    reveal_strlit("<");
    reveal_strlit(">=");
    reveal_strlit(">");
    reveal_strlit("not");
    reveal_strlit("and");
    reveal_strlit("or");
    reveal_strlit("=>");
    reveal_strlit("=");
    reveal_strlit("distinct");
    assert(op.len() <= 2);
    assert(op[0] == '<' || op[0] == '>');
    assert("not"@.len() == 3 && "and"@.len() == 3 && "distinct"@.len() == 8);
    assert("or"@[0] == 'o' && "=>"@[0] == '=' && "="@[0] == '=');
}

proof fn lemma_comparison(m: Seq<SSx>, op: Seq<char>, x: SSx, y: SSx, a: int, b: int)
    requires
        ev_int(m, x) == Ok::<int, SHalt>(a),
        ev_int(m, y) == Ok::<int, SHalt>(b),
        !model_fun(m, op),
        is_cmp(op),
        op != "not"@ && op != "and"@ && op != "or"@ && op != "=>"@ && op != "="@ && op != "distinct"@,
    ensures
        ev_bool(m, SSx::List(seq![SSx::Atom(op), x, y])) == Ok::<bool, SHalt>(compare(op, a, b)),
{
    let ps = seq![SSx::Atom(op), x, y];
    assert(ps[0]->Atom_0 == op);
    assert(ps[1] == x && ps[2] == y);
    assert(ev_list(m, ps) == Ok::<SEval, SHalt>(SEval::Bool(compare(op, a, b))));
}

// ── the meaning of the interpreted connectives and arithmetic ───────────

/// The operator names of the replay fragment, told apart.
proof fn lemma_op_names()
    ensures
        "not"@ != "and"@ && "not"@ != "or"@ && "not"@ != "=>"@ && "not"@ != "="@ && "not"@ != "distinct"@,
        "and"@ != "or"@ && "and"@ != "=>"@ && "and"@ != "="@ && "and"@ != "distinct"@,
        "or"@ != "=>"@ && "or"@ != "="@ && "or"@ != "distinct"@,
        "=>"@ != "="@ && "=>"@ != "distinct"@ && "="@ != "distinct"@,
        !is_cmp("not"@) && !is_cmp("and"@) && !is_cmp("or"@) && !is_cmp("=>"@) && !is_cmp("="@),
        !is_cmp("distinct"@) && !is_cmp("+"@) && !is_cmp("-"@) && !is_cmp("*"@),
        "+"@ != "not"@ && "+"@ != "and"@ && "+"@ != "or"@ && "+"@ != "=>"@ && "+"@ != "="@ && "+"@ != "distinct"@,
        "-"@ != "not"@ && "-"@ != "and"@ && "-"@ != "or"@ && "-"@ != "=>"@ && "-"@ != "="@ && "-"@ != "distinct"@,
        "*"@ != "not"@ && "*"@ != "and"@ && "*"@ != "or"@ && "*"@ != "=>"@ && "*"@ != "="@ && "*"@ != "distinct"@,
        "-"@ != "+"@ && "-"@ != "*"@ && "*"@ != "+"@,
{
    reveal_strlit("<=");
    reveal_strlit("<");
    reveal_strlit(">=");
    reveal_strlit(">");
    reveal_strlit("not");
    reveal_strlit("and");
    reveal_strlit("or");
    reveal_strlit("=>");
    reveal_strlit("=");
    reveal_strlit("distinct");
    reveal_strlit("+");
    reveal_strlit("-");
    reveal_strlit("*");
    assert("not"@[0] == 'n' && "and"@[0] == 'a' && "or"@[0] == 'o' && "=>"@[0] == '=' && "="@[0] == '=');
    assert("distinct"@[0] == 'd' && "+"@[0] == '+' && "-"@[0] == '-' && "*"@[0] == '*');
    assert("<"@[0] == '<' && "<="@[0] == '<' && ">"@[0] == '>' && ">="@[0] == '>');
    assert("=>"@.len() == 2 && "="@.len() == 1);
}

/// The connectives and the arithmetic of SMT-LIB mean what they mean on
/// booleans and integers: where `p` and `q` evaluate to the booleans `u`
/// and `v`, and `x` and `y` to the integers `a` and `b` (and the model
/// defines none of these operators as a function of its own), `(not p)` is
/// `!u`, `(and p q)` is `u && v`, `(or p q)` is `u || v`, `(=> p q)` is
/// `!u || v`, `(= x y)` is `a == b`, `(distinct x y)` is `a != b`, and
/// `(+ x y)`, `(- x y)` and `(* x y)` are `a + b`, `a - b` and `a * b`
/// wherever the replay's 128-bit range holds every step.
pub proof fn law_connectives_and_arithmetic(
    m: Seq<SSx>,
    p: SSx,
    q: SSx,
    u: bool,
    v: bool,
    x: SSx,
    y: SSx,
    a: int,
    b: int,
)
    requires
        ev_bool(m, p) == Ok::<bool, SHalt>(u),
        ev_bool(m, q) == Ok::<bool, SHalt>(v),
        ev_int(m, x) == Ok::<int, SHalt>(a),
        ev_int(m, y) == Ok::<int, SHalt>(b),
        !model_fun(m, "not"@),
        !model_fun(m, "and"@),
        !model_fun(m, "or"@),
        !model_fun(m, "=>"@),
        !model_fun(m, "="@),
        !model_fun(m, "distinct"@),
        !model_fun(m, "+"@),
        !model_fun(m, "-"@),
        !model_fun(m, "*"@),
    ensures
        ev_bool(m, SSx::List(seq![SSx::Atom("not"@), p])) == Ok::<bool, SHalt>(!u),
        ev_bool(m, SSx::List(seq![SSx::Atom("and"@), p, q])) == Ok::<bool, SHalt>(u && v),
        ev_bool(m, SSx::List(seq![SSx::Atom("or"@), p, q])) == Ok::<bool, SHalt>(u || v),
        ev_bool(m, SSx::List(seq![SSx::Atom("=>"@), p, q])) == Ok::<bool, SHalt>(!u || v),
        ev_bool(m, SSx::List(seq![SSx::Atom("="@), x, y])) == Ok::<bool, SHalt>(a == b),
        ev_bool(m, SSx::List(seq![SSx::Atom("distinct"@), x, y])) == Ok::<bool, SHalt>(a != b),
        fits_i128(a) && fits_i128(a + b) ==> ev_int(m, SSx::List(seq![SSx::Atom("+"@), x, y]))
            == Ok::<int, SHalt>(a + b),
        fits_i128(a - b) ==> ev_int(m, SSx::List(seq![SSx::Atom("-"@), x, y])) == Ok::<int, SHalt>(a - b),
        fits_i128(a) && fits_i128(a * b) ==> ev_int(m, SSx::List(seq![SSx::Atom("*"@), x, y]))
            == Ok::<int, SHalt>(a * b),
{
    lemma_op_names();
    assert(ev(m, p) == Ok::<SEval, SHalt>(SEval::Bool(u)));
    assert(ev(m, x) == Ok::<SEval, SHalt>(SEval::Int(a)));
    let pn = seq![SSx::Atom("not"@), p];
    assert(pn[0]->Atom_0 == "not"@ && pn[1] == p);
    assert(ev_list(m, pn) == Ok::<SEval, SHalt>(SEval::Bool(!u)));
    let pa = seq![SSx::Atom("and"@), p, q];
    assert(pa[0]->Atom_0 == "and"@ && pa[1] == p && pa[2] == q);
    assert(ev_junct(m, pa, 3, true) == Ok::<SEval, SHalt>(SEval::Bool(true)));
    assert(ev_junct(m, pa, 2, true) == Ok::<SEval, SHalt>(SEval::Bool(v)));
    assert(ev_list(m, pa) == Ok::<SEval, SHalt>(SEval::Bool(u && v)));
    let po = seq![SSx::Atom("or"@), p, q];
    assert(po[0]->Atom_0 == "or"@ && po[1] == p && po[2] == q);
    assert(ev_junct(m, po, 3, false) == Ok::<SEval, SHalt>(SEval::Bool(false)));
    assert(ev_junct(m, po, 2, false) == Ok::<SEval, SHalt>(SEval::Bool(v)));
    assert(ev_list(m, po) == Ok::<SEval, SHalt>(SEval::Bool(u || v)));
    let pi = seq![SSx::Atom("=>"@), p, q];
    assert(pi[0]->Atom_0 == "=>"@ && pi[1] == p && pi[2] == q);
    assert(ev_list(m, pi) == Ok::<SEval, SHalt>(SEval::Bool(!u || v)));
    let pe = seq![SSx::Atom("="@), x, y];
    assert(pe[0]->Atom_0 == "="@ && pe[1] == x && pe[2] == y);
    assert(ev_eq_int(m, pe, 3, a) == Ok::<bool, SHalt>(true));
    assert(ev_eq_int(m, pe, 2, a) == Ok::<bool, SHalt>(a == b));
    assert(ev_eq(m, pe) == Ok::<bool, SHalt>(a == b));
    assert(ev_list(m, pe) == Ok::<SEval, SHalt>(SEval::Bool(a == b)));
    let pd = seq![SSx::Atom("distinct"@), x, y];
    assert(pd[0]->Atom_0 == "distinct"@ && pd[1] == x && pd[2] == y);
    assert(ev_eq_int(m, pd, 3, a) == Ok::<bool, SHalt>(true));
    assert(ev_eq_int(m, pd, 2, a) == Ok::<bool, SHalt>(a == b));
    assert(ev_eq(m, pd) == Ok::<bool, SHalt>(a == b));
    assert(ev_list(m, pd) == Ok::<SEval, SHalt>(SEval::Bool(a != b)));
    let pp = seq![SSx::Atom("+"@), x, y];
    assert(pp[0]->Atom_0 == "+"@ && pp[1] == x && pp[2] == y);
    if fits_i128(a) && fits_i128(a + b) {
        assert(arith(Arith::Add, 0, a) == a);
        assert(ev_fold(m, pp, 3, a + b, Arith::Add) == Ok::<SEval, SHalt>(SEval::Int(a + b)));
        assert(ev_fold(m, pp, 2, a, Arith::Add) == Ok::<SEval, SHalt>(SEval::Int(a + b)));
        assert(ev_fold(m, pp, 1, 0, Arith::Add) == Ok::<SEval, SHalt>(SEval::Int(a + b)));
        assert(ev_list(m, pp) == Ok::<SEval, SHalt>(SEval::Int(a + b)));
    }
    let ps = seq![SSx::Atom("-"@), x, y];
    assert(ps[0]->Atom_0 == "-"@ && ps[1] == x && ps[2] == y);
    if fits_i128(a - b) {
        assert(ev_fold(m, ps, 3, a - b, Arith::Sub) == Ok::<SEval, SHalt>(SEval::Int(a - b)));
        assert(ev_fold(m, ps, 2, a, Arith::Sub) == Ok::<SEval, SHalt>(SEval::Int(a - b)));
        assert(ev_list(m, ps) == Ok::<SEval, SHalt>(SEval::Int(a - b)));
    }
    let pm = seq![SSx::Atom("*"@), x, y];
    assert(pm[0]->Atom_0 == "*"@ && pm[1] == x && pm[2] == y);
    if fits_i128(a) && fits_i128(a * b) {
        assert(arith(Arith::Mul, 1, a) == a);
        assert(ev_fold(m, pm, 3, a * b, Arith::Mul) == Ok::<SEval, SHalt>(SEval::Int(a * b)));
        assert(ev_fold(m, pm, 2, a, Arith::Mul) == Ok::<SEval, SHalt>(SEval::Int(a * b)));
        assert(ev_fold(m, pm, 1, 1, Arith::Mul) == Ok::<SEval, SHalt>(SEval::Int(a * b)));
        assert(ev_list(m, pm) == Ok::<SEval, SHalt>(SEval::Int(a * b)));
    }
}

} // verus!
