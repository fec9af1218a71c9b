//! The Portrait grammar as a specification: functions from a token stream
//! and a position to the parsed value and the position after it (`None`
//! when the input is rejected). The executable parser is proved to compute
//! exactly these functions.
//!
//! Expressions use precedence climbing, low to high: `||`, `&&`,
//! comparisons, `+`/`-`, `*`, unary `-`/`!`, postfix `.field`/`[index]`,
//! primaries. All binary operators are left-associative.

use vstd::prelude::*;
use crate::ast::{BinOp, CovenantMode, UnOp};
use crate::lexer::{LexKind, LexTok, is_white};
use crate::model::{SApp, SDeadline, SEdge, SEntry, SExpr, SField, SFlow, SInvariant, SParam, SProgram,
    SReturn, SRole, SStep, SStmt, SType};
use crate::render::render;

verus! {

/// A token stream together with the characters it was cut from.
pub struct Src {
    pub cs: Seq<char>,
    pub ts: Seq<LexTok>,
}

// ── tokens ──────────────────────────────────────────────────────────────

pub open spec fn in_range(s: Src, p: int) -> bool {
    0 <= p < s.ts.len()
}

/// `p < q <= len`: the parse moved forward and stayed in the input.
pub open spec fn adv(s: Src, p: int, q: int) -> bool {
    p < q <= s.ts.len()
}

pub open spec fn sym_at(s: Src, p: int, c: char) -> bool {
    in_range(s, p) && s.ts[p].kind == LexKind::Symbol(c as u32)
}

pub open spec fn text(s: Src, p: int) -> Seq<char> {
    s.cs.subrange(s.ts[p].start, s.ts[p].end)
}

pub open spec fn ident_at(s: Src, p: int) -> Option<Seq<char>> {
    if in_range(s, p) && s.ts[p].kind is Ident {
        Some(text(s, p))
    } else {
        None
    }
}

pub open spec fn kw_at(s: Src, p: int, kw: Seq<char>) -> bool {
    ident_at(s, p) == Some(kw)
}

/// The index of the first `c` symbol at or after `i` (the input length when
/// there is none).
pub open spec fn find_sym(s: Src, i: int, c: char) -> int
    decreases s.ts.len() - i,
{
    if i < 0 || i >= s.ts.len() {
        s.ts.len() as int
    } else if sym_at(s, i, c) {
        i
    } else {
        find_sym(s, i + 1, c)
    }
}

pub proof fn lemma_find_sym(s: Src, i: int, c: char)
    requires
        0 <= i,
    ensures
        i <= find_sym(s, i, c) || (i > s.ts.len() && find_sym(s, i, c) == s.ts.len()),
        find_sym(s, i, c) <= s.ts.len(),
        find_sym(s, i, c) < s.ts.len() ==> sym_at(s, find_sym(s, i, c), c),
        forall|k: int| i <= k < find_sym(s, i, c) ==> !sym_at(s, k, c),
    decreases s.ts.len() - i,
{
    if i < s.ts.len() && !sym_at(s, i, c) {
        lemma_find_sym(s, i + 1, c);
    }
}

/// The character offset where the token before position `pos` ends (the
/// first token's end at position 0; 0 for an empty stream).
pub open spec fn prev_end(s: Src, pos: int) -> int {
    let k = if pos <= 0 {
        0
    } else {
        pos - 1
    };
    if k < s.ts.len() {
        s.ts[k].end
    } else {
        0
    }
}

/// The character offset where the token at `p` starts (0 past the end).
pub open spec fn start_at(s: Src, p: int) -> int {
    if in_range(s, p) {
        s.ts[p].start
    } else {
        0
    }
}

pub open spec fn ltrim(x: Seq<char>) -> Seq<char>
    decreases x.len(),
{
    if x.len() > 0 && is_white(x[0]) {
        ltrim(x.drop_first())
    } else {
        x
    }
}

pub open spec fn rtrim(x: Seq<char>) -> Seq<char>
    decreases x.len(),
{
    if x.len() > 0 && is_white(x.last()) {
        rtrim(x.drop_last())
    } else {
        x
    }
}

/// `str::trim`: leading and trailing whitespace removed.
pub open spec fn trim(x: Seq<char>) -> Seq<char> {
    rtrim(ltrim(x))
}

/// The trimmed source text between two character offsets (empty when the
/// range is empty or reversed).
pub open spec fn slice(s: Src, from: int, to: int) -> Seq<char> {
    if 0 <= from < to <= s.cs.len() {
        trim(s.cs.subrange(from, to))
    } else {
        seq![]
    }
}

/// The value of a run of decimal digits.
pub open spec fn digits_val(t: Seq<char>) -> nat
    decreases t.len(),
{
    if t.len() == 0 {
        0
    } else {
        digits_val(t.drop_last()) * 10 + ((t.last() as u32 - 48) as nat)
    }
}

/// Every character is an ASCII digit.
pub open spec fn all_digits(t: Seq<char>) -> bool {
    forall|k: int| 0 <= k < t.len() ==> crate::lexer::is_digit(#[trigger] t[k])
}

/// A numeral as an `i64` (what `str::parse::<i64>` gives for a run of
/// digits; `None` when empty, not all digits, or overflowing).
pub open spec fn numeral_i64(t: Seq<char>) -> Option<i64> {
    if t.len() > 0 && all_digits(t) && digits_val(t) <= i64::MAX {
        Some(digits_val(t) as i64)
    } else {
        None
    }
}

/// A numeral as a `u32` (what `str::parse::<u32>` gives for a run of
/// digits; `None` when empty, not all digits, or overflowing).
pub open spec fn numeral_u32(t: Seq<char>) -> Option<u32> {
    if t.len() > 0 && all_digits(t) && digits_val(t) <= u32::MAX {
        Some(digits_val(t) as u32)
    } else {
        None
    }
}

// ── expressions ─────────────────────────────────────────────────────────

/// The binary operator at `p`, if any.
pub open spec fn binop_at(s: Src, p: int) -> Option<BinOp> {
    if !in_range(s, p) {
        None
    } else {
        match s.ts[p].kind {
            LexKind::OrOr => Some(BinOp::Or),
            LexKind::AndAnd => Some(BinOp::And),
            LexKind::EqEq => Some(BinOp::Eq),
            LexKind::Ne => Some(BinOp::Ne),
            LexKind::Ge => Some(BinOp::Ge),
            LexKind::Le => Some(BinOp::Le),
            LexKind::Symbol(c) => if c == '>' as u32 {
                Some(BinOp::Gt)
            } else if c == '<' as u32 {
                Some(BinOp::Lt)
            } else if c == '+' as u32 {
                Some(BinOp::Add)
            } else if c == '-' as u32 {
                Some(BinOp::Sub)
            } else if c == '*' as u32 {
                Some(BinOp::Mul)
            } else {
                None
            },
            _ => None,
        }
    }
}

/// Left binding power (the right binding power is one more).
pub open spec fn lbp(op: BinOp) -> int {
    match op {
        BinOp::Or => 1,
        BinOp::And => 3,
        BinOp::Eq | BinOp::Ne | BinOp::Ge | BinOp::Le | BinOp::Gt | BinOp::Lt => 5,
        BinOp::Add | BinOp::Sub => 7,
        BinOp::Mul => 9,
    }
}

/// An expression whose operators all bind at least `min_bp`.
pub open spec fn g_expr(s: Src, p: int, min_bp: int) -> Option<(SExpr, int)>
    decreases s.ts.len() - p, 5int,
{
    if p < 0 || p > s.ts.len() {
        None
    } else {
        match g_unary(s, p) {
            None => None,
            Some((lhs, q)) => if adv(s, p, q) {
                g_expr_tail(s, lhs, q, min_bp)
            } else {
                None
            },
        }
    }
}

/// Extends `lhs` (ending at `q`) by binary operators binding at least `min_bp`.
pub open spec fn g_expr_tail(s: Src, lhs: SExpr, q: int, min_bp: int) -> Option<(SExpr, int)>
    decreases s.ts.len() - q, 6int,
{
    match binop_at(s, q) {
        Some(op) => if lbp(op) >= min_bp {
            match g_expr(s, q + 1, lbp(op) + 1) {
                None => None,
                Some((rhs, r)) => if adv(s, q, r) {
                    g_expr_tail(s, SExpr::Binary(op, Box::new(lhs), Box::new(rhs)), r, min_bp)
                } else {
                    None
                },
            }
        } else {
            Some((lhs, q))
        },
        None => Some((lhs, q)),
    }
}

pub open spec fn g_unary(s: Src, p: int) -> Option<(SExpr, int)>
    decreases s.ts.len() - p, 4int,
{
    if sym_at(s, p, '-') {
        match g_unary(s, p + 1) {
            Some((r, q)) => Some((SExpr::Unary(UnOp::Neg, Box::new(r)), q)),
            None => None,
        }
    } else if sym_at(s, p, '!') {
        match g_unary(s, p + 1) {
            Some((r, q)) => Some((SExpr::Unary(UnOp::Not, Box::new(r)), q)),
            None => None,
        }
    } else {
        g_postfix(s, p)
    }
}

pub open spec fn g_postfix(s: Src, p: int) -> Option<(SExpr, int)>
    decreases s.ts.len() - p, 3int,
{
    match g_primary(s, p) {
        None => None,
        Some((e, q)) => if adv(s, p, q) {
            g_post_tail(s, e, q)
        } else {
            None
        },
    }
}

/// Applies `.field` and `[index]` suffixes to `e` (ending at `q`).
pub open spec fn g_post_tail(s: Src, e: SExpr, q: int) -> Option<(SExpr, int)>
    decreases s.ts.len() - q, 7int,
{
    if sym_at(s, q, '.') {
        match ident_at(s, q + 1) {
            Some(f) => g_post_tail(s, SExpr::Field(Box::new(e), f), q + 2),
            None => None,
        }
    } else if sym_at(s, q, '[') {
        match g_expr(s, q + 1, 0) {
            Some((idx, r)) => if adv(s, q, r) && sym_at(s, r, ']') {
                g_post_tail(s, SExpr::Index(Box::new(e), Box::new(idx)), r + 1)
            } else {
                None
            },
            None => None,
        }
    } else {
        Some((e, q))
    }
}

pub open spec fn g_primary(s: Src, p: int) -> Option<(SExpr, int)>
    decreases s.ts.len() - p, 2int,
{
    if sym_at(s, p, '(') {
        match g_expr(s, p + 1, 0) {
            Some((e, q)) => if sym_at(s, q, ')') {
                Some((e, q + 1))
            } else {
                None
            },
            None => None,
        }
    } else if !in_range(s, p) {
        None
    } else {
        match s.ts[p].kind {
            LexKind::Number => match numeral_i64(text(s, p)) {
                Some(v) => Some((SExpr::Int(v), p + 1)),
                None => None,
            },
            LexKind::Ident => {
                let name = text(s, p);
                if name == "true"@ {
                    Some((SExpr::Bool(true), p + 1))
                } else if name == "false"@ {
                    Some((SExpr::Bool(false), p + 1))
                } else if sym_at(s, p + 1, '(') {
                    if sym_at(s, p + 2, ')') {
                        Some((SExpr::Call(name, seq![]), p + 3))
                    } else {
                        match g_args(s, p + 2, seq![]) {
                            Some((args, r)) => if sym_at(s, r, ')') {
                                Some((SExpr::Call(name, args), r + 1))
                            } else {
                                None
                            },
                            None => None,
                        }
                    }
                } else {
                    Some((SExpr::Var(name), p + 1))
                }
            },
            _ => None,
        }
    }
}

/// Comma-separated call arguments, appended to `acc`.
pub open spec fn g_args(s: Src, p: int, acc: Seq<SExpr>) -> Option<(Seq<SExpr>, int)>
    decreases s.ts.len() - p, 8int,
{
    match g_expr(s, p, 0) {
        None => None,
        Some((e, q)) => if adv(s, p, q) {
            if sym_at(s, q, ',') {
                g_args(s, q + 1, acc.push(e))
            } else {
                Some((acc.push(e), q))
            }
        } else {
            None
        },
    }
}

// ── types ───────────────────────────────────────────────────────────────

pub open spec fn g_type(s: Src, p: int) -> Option<(SType, int)>
    decreases s.ts.len() - p,
{
    match ident_at(s, p) {
        None => None,
        Some(id) => if id == "int"@ {
            Some((SType::Int, p + 1))
        } else if id == "bool"@ {
            Some((SType::Bool, p + 1))
        } else if id == "pubkey"@ {
            Some((SType::PubKey, p + 1))
        } else if id == "sig"@ {
            Some((SType::Sig, p + 1))
        } else if id == "bytes32"@ {
            Some((SType::Bytes32, p + 1))
        } else if id == "coin"@ {
            Some((SType::Coin, p + 1))
        } else if id == "set"@ {
            if sym_at(s, p + 1, '<') {
                match g_type(s, p + 2) {
                    Some((t, q)) => if adv(s, p, q) && sym_at(s, q, '>') {
                        Some((SType::SetOf(Box::new(t)), q + 1))
                    } else {
                        None
                    },
                    None => None,
                }
            } else {
                None
            }
        } else if id == "map"@ {
            if sym_at(s, p + 1, '<') {
                match g_type(s, p + 2) {
                    Some((k, q)) => if adv(s, p, q) && sym_at(s, q, ',') {
                        match g_type(s, q + 1) {
                            Some((v, r)) => if adv(s, q, r) && sym_at(s, r, '>') {
                                Some((SType::MapOf(Box::new(k), Box::new(v)), r + 1))
                            } else {
                                None
                            },
                            None => None,
                        }
                    } else {
                        None
                    },
                    None => None,
                }
            } else {
                None
            }
        } else {
            Some((SType::Named(id), p + 1))
        },
    }
}

// ── statements ──────────────────────────────────────────────────────────

/// The `field: value` pairs of an object literal, appended to `acc`.
pub open spec fn g_fields(s: Src, q: int, acc: Seq<(Seq<char>, SExpr)>) -> Option<
    (Seq<(Seq<char>, SExpr)>, int),
>
    decreases s.ts.len() - q,
{
    if sym_at(s, q, '}') {
        Some((acc, q))
    } else {
        match ident_at(s, q) {
            None => None,
            Some(f) => if sym_at(s, q + 1, ':') {
                match g_expr(s, q + 2, 0) {
                    Some((v, r)) => if adv(s, q + 2, r) {
                        if sym_at(s, r, ',') {
                            g_fields(s, r + 1, acc.push((f, v)))
                        } else {
                            Some((acc.push((f, v)), r))
                        }
                    } else {
                        None
                    },
                    None => None,
                }
            } else {
                None
            },
        }
    }
}

/// `{ f: v, ... }` with head `name`; at least one field.
pub open spec fn g_object(s: Src, p: int, name: Option<Seq<char>>) -> Option<(SReturn, int)> {
    if sym_at(s, p, '{') {
        match g_fields(s, p + 1, seq![]) {
            Some((fs, q)) => if sym_at(s, q, '}') && fs.len() > 0 {
                Some((SReturn::Object(name, fs), q + 1))
            } else {
                None
            },
            None => None,
        }
    } else {
        None
    }
}

/// The expression of a `return` statement, through its `;`.
pub open spec fn g_try_return(s: Src, p: int) -> Option<(SReturn, int)> {
    if sym_at(s, p, '{') {
        match g_object(s, p, None) {
            Some((r, q)) => if sym_at(s, q, ';') {
                Some((r, q + 1))
            } else {
                None
            },
            None => None,
        }
    } else if ident_at(s, p) is Some && sym_at(s, p + 1, '{') {
        match g_object(s, p + 1, ident_at(s, p)) {
            Some((r, q)) => if sym_at(s, q, ';') {
                Some((r, q + 1))
            } else {
                None
            },
            None => None,
        }
    } else {
        match g_expr(s, p, 0) {
            Some((e, q)) => if sym_at(s, q, ';') {
                Some((SReturn::Scalar(e), q + 1))
            } else {
                None
            },
            None => None,
        }
    }
}

/// The guard of a `require` statement (`(e);` or `e;`), through its `;`.
pub open spec fn g_try_require(s: Src, p: int) -> Option<(SExpr, int)> {
    let par = sym_at(s, p, '(');
    let q0 = if par {
        p + 1
    } else {
        p
    };
    match g_expr(s, q0, 0) {
        Some((e, q)) => {
            let q2 = if par {
                if sym_at(s, q, ')') {
                    q + 1
                } else {
                    -1
                }
            } else {
                q
            };
            if q2 >= 0 && sym_at(s, q2, ';') {
                Some((e, q2 + 1))
            } else {
                None
            }
        },
        None => None,
    }
}

// ── the rejection set ───────────────────────────────────────────────────

/// The number of constructs in the rejection set.
pub open spec fn rc_count() -> int {
    8
}

/// The leading identifier of rejection-set entry `i`.
pub open spec fn rc_lead(i: int) -> Seq<char> {
    if i == 0 {
        "for"@
    } else if i == 1 {
        "while"@
    } else if i == 2 {
        "emit"@
    } else if i == 3 {
        "mapping"@
    } else if i == 4 {
        "approve"@
    } else if i == 5 {
        "transferFrom"@
    } else if i == 6 {
        "delegatecall"@
    } else {
        "call"@
    }
}

/// Whether entry `i` is matched as a `.lead(` method call.
pub open spec fn rc_method(i: int) -> bool {
    i == 6 || i == 7
}

/// The first statement-head entry (from `i` on) whose lead is `h`.
pub open spec fn head_match(h: Seq<char>, i: int) -> Option<int>
    decreases rc_count() - i,
{
    if i < 0 || i >= rc_count() {
        None
    } else if !rc_method(i) && rc_lead(i) == h {
        Some(i)
    } else {
        head_match(h, i + 1)
    }
}

/// The first method-call entry (from `i` on) whose lead is `h`.
pub open spec fn method_match(h: Seq<char>, i: int) -> Option<int>
    decreases rc_count() - i,
{
    if i < 0 || i >= rc_count() {
        None
    } else if rc_method(i) && rc_lead(i) == h {
        Some(i)
    } else {
        method_match(h, i + 1)
    }
}

/// The first `. lead (` method call before the statement's `;`, scanning
/// from `i`.
pub open spec fn scan_method(s: Src, i: int) -> Option<int>
    decreases s.ts.len() - i,
{
    if !in_range(s, i) || sym_at(s, i, ';') {
        None
    } else if sym_at(s, i, '.') && ident_at(s, i + 1) is Some && sym_at(s, i + 2, '(')
        && method_match(ident_at(s, i + 1)->0, 0) is Some {
        method_match(ident_at(s, i + 1)->0, 0)
    } else {
        scan_method(s, i + 1)
    }
}

/// The rejection-set entry the statement at `p` uses, if any: its head, or
/// else a blacklisted method call before its `;`.
pub open spec fn reject_at(s: Src, p: int) -> Option<int> {
    match ident_at(s, p) {
        Some(h) => if head_match(h, 0) is Some {
            head_match(h, 0)
        } else {
            scan_method(s, p)
        },
        None => scan_method(s, p),
    }
}

/// A rejected construct consumed as a recorded hole, depth-aware: it ends at
/// the first `;` outside parentheses and braces, or after the `}` closing
/// its block (and an optional `;`), or before an unmatched `}`, or at the
/// end of input.
pub open spec fn g_consume(s: Src, i: int, pd: int, bd: int, start: int) -> (Seq<char>, int)
    decreases s.ts.len() - i,
{
    if i < 0 || i >= s.ts.len() {
        (slice(s, start, prev_end(s, i)), i)
    } else if sym_at(s, i, '(') {
        g_consume(s, i + 1, pd + 1, bd, start)
    } else if sym_at(s, i, ')') {
        g_consume(s, i + 1, pd - 1, bd, start)
    } else if sym_at(s, i, '{') {
        g_consume(s, i + 1, pd, bd + 1, start)
    } else if sym_at(s, i, '}') {
        if bd == 0 {
            (slice(s, start, prev_end(s, i)), i)
        } else if bd - 1 == 0 && pd == 0 {
            if sym_at(s, i + 1, ';') {
                (slice(s, start, s.ts[i].end), i + 2)
            } else {
                (slice(s, start, s.ts[i].end), i + 1)
            }
        } else {
            g_consume(s, i + 1, pd, bd - 1, start)
        }
    } else if sym_at(s, i, ';') && pd == 0 && bd == 0 {
        (slice(s, start, prev_end(s, i)), i + 1)
    } else {
        g_consume(s, i + 1, pd, bd, start)
    }
}

/// A rejected construct at `p` accepted as a raw hole.
pub open spec fn g_consume_rejected(s: Src, p: int) -> Option<(SStmt, int)> {
    if in_range(s, p) {
        let r = g_consume(s, p, 0, 0, s.ts[p].start);
        Some((SStmt::Raw(r.0), r.1))
    } else {
        None
    }
}

/// A statement the grammar does not recognise, recorded verbatim to its `;`.
pub open spec fn g_raw_stmt(s: Src, p: int) -> Option<(SStmt, int)> {
    if !in_range(s, p) {
        None
    } else {
        let k = find_sym(s, p, ';');
        if k < s.ts.len() {
            Some((SStmt::Raw(slice(s, s.ts[p].start, prev_end(s, k))), k + 1))
        } else {
            None
        }
    }
}

/// After a `return`/`require` whose expression did not parse: a rejected
/// construct is an error in a covenant entrypoint and a raw hole in a
/// non-covenant one; anything else becomes a raw hole up to its `;`.
pub open spec fn g_reject_or_raw(s: Src, q: int, mode: CovenantMode) -> Option<(SStmt, int)> {
    match reject_at(s, q) {
        Some(_) => if mode == CovenantMode::NonCovenant {
            g_consume_rejected(s, q)
        } else {
            None
        },
        None => {
            let k = find_sym(s, q, ';');
            let text = slice(s, start_at(s, q), prev_end(s, k));
            let r = if k < s.ts.len() {
                k + 1
            } else {
                k
            };
            Some((SStmt::Raw(text), r))
        },
    }
}

/// An `after(...)` deadline at `q`: one committed name, or `a + b`.
pub open spec fn g_deadline(s: Src, q: int) -> Option<(SDeadline, int)> {
    match ident_at(s, q) {
        Some(a) => if sym_at(s, q + 1, '+') {
            match ident_at(s, q + 2) {
                Some(b) => Some((SDeadline::Sum(a, b), q + 3)),
                None => None,
            }
        } else {
            Some((SDeadline::Field(a), q + 1))
        },
        None => None,
    }
}

/// `pays(index, payee, amount);` at `q`.
pub open spec fn g_pays(s: Src, q: int) -> Option<(SStmt, int)> {
    if kw_at(s, q, "pays"@) && sym_at(s, q + 1, '(') && in_range(s, q + 2) && s.ts[q + 2].kind
        == LexKind::Number && numeral_u32(text(s, q + 2)) is Some && sym_at(s, q + 3, ',')
        && ident_at(s, q + 4) is Some && sym_at(s, q + 5, ',') && ident_at(s, q + 6) is Some
        && sym_at(s, q + 7, ')') && sym_at(s, q + 8, ';') {
        Some(
            (
                SStmt::Pays(
                    numeral_u32(text(s, q + 2))->0 as int,
                    ident_at(s, q + 4)->0,
                    ident_at(s, q + 6)->0,
                ),
                q + 9,
            ),
        )
    } else {
        None
    }
}

/// `after(deadline);` at `q`.
pub open spec fn g_after(s: Src, q: int) -> Option<(SStmt, int)> {
    if kw_at(s, q, "after"@) && sym_at(s, q + 1, '(') {
        match g_deadline(s, q + 2) {
            Some((d, r)) => if sym_at(s, r, ')') && sym_at(s, r + 1, ';') {
                Some((SStmt::After(d), r + 2))
            } else {
                None
            },
            None => None,
        }
    } else {
        None
    }
}

/// One body statement at `q`.
pub open spec fn g_stmt(s: Src, q: int, mode: CovenantMode) -> Option<(SStmt, int)> {
    if kw_at(s, q, "return"@) {
        match g_try_return(s, q + 1) {
            Some((r, r2)) => Some((SStmt::Return(r), r2)),
            None => g_reject_or_raw(s, q + 1, mode),
        }
    } else if kw_at(s, q, "require"@) || kw_at(s, q, "requires"@) {
        match g_try_require(s, q + 1) {
            Some((e, r2)) => Some((SStmt::Require(e), r2)),
            None => g_reject_or_raw(s, q + 1, mode),
        }
    } else if g_pays(s, q) is Some {
        g_pays(s, q)
    } else if g_after(s, q) is Some {
        g_after(s, q)
    } else if reject_at(s, q) is Some {
        if mode == CovenantMode::NonCovenant {
            g_consume_rejected(s, q)
        } else {
            None
        }
    } else {
        g_raw_stmt(s, q)
    }
}

/// Body statements up to the closing `}`, appended to `acc`.
pub open spec fn g_body(s: Src, q: int, mode: CovenantMode, acc: Seq<SStmt>) -> Option<
    (Seq<SStmt>, int),
>
    decreases s.ts.len() - q,
{
    if sym_at(s, q, '}') {
        Some((acc, q))
    } else {
        match g_stmt(s, q, mode) {
            Some((st, r)) => if adv(s, q, r) {
                g_body(s, r, mode, acc.push(st))
            } else {
                None
            },
            None => None,
        }
    }
}

/// A `{ ... }` entrypoint body.
pub open spec fn g_block(s: Src, p: int, mode: CovenantMode) -> Option<(Seq<SStmt>, int)> {
    if sym_at(s, p, '{') {
        match g_body(s, p + 1, mode, seq![]) {
            Some((b, q)) => if sym_at(s, q, '}') {
                Some((b, q + 1))
            } else {
                None
            },
            None => None,
        }
    } else {
        None
    }
}

/// The rendered guards of the `require` statements of a body, in order.
pub open spec fn requires_of(body: Seq<SStmt>) -> Seq<Seq<char>>
    decreases body.len(),
{
    if body.len() == 0 {
        seq![]
    } else {
        let rest = requires_of(body.drop_last());
        match body.last() {
            SStmt::Require(e) => rest.push(render(e)),
            _ => rest,
        }
    }
}

// ── roles and entrypoints ───────────────────────────────────────────────

/// `#[covenant(mode = ...)]` (optionally `covenant.singleton`, optionally
/// `, supply_change = authority` after the mode): the mode, the authority,
/// and the position after the `]`.
pub open spec fn g_attr(s: Src, p: int) -> Option<(CovenantMode, Option<Seq<char>>, int)> {
    if sym_at(s, p, '#') && sym_at(s, p + 1, '[') && kw_at(s, p + 2, "covenant"@) {
        let q = if sym_at(s, p + 3, '.') {
            if kw_at(s, p + 4, "singleton"@) {
                p + 5
            } else {
                -1
            }
        } else {
            p + 3
        };
        if q >= 0 && sym_at(s, q, '(') && kw_at(s, q + 1, "mode"@) && sym_at(s, q + 2, '=') {
            match ident_at(s, q + 3) {
                Some(m) => {
                    let mode = if m == "transition"@ {
                        Some(CovenantMode::Transition)
                    } else if m == "verification"@ {
                        Some(CovenantMode::Verification)
                    } else {
                        None
                    };
                    match mode {
                        Some(md) => if sym_at(s, q + 4, ',') {
                            if kw_at(s, q + 5, "supply_change"@) && sym_at(s, q + 6, '=')
                                && ident_at(s, q + 7) is Some && sym_at(s, q + 8, ')') && sym_at(
                                s,
                                q + 9,
                                ']',
                            ) {
                                Some((md, ident_at(s, q + 7), q + 10))
                            } else {
                                None
                            }
                        } else if sym_at(s, q + 4, ')') && sym_at(s, q + 5, ']') {
                            Some((md, None, q + 6))
                        } else {
                            None
                        },
                        None => None,
                    }
                },
                None => None,
            }
        } else {
            None
        }
    } else {
        None
    }
}

/// `type name, ...` entrypoint arguments, appended to `acc`.
pub open spec fn g_arg_list(s: Src, p: int, acc: Seq<SParam>) -> Option<(Seq<SParam>, int)>
    decreases s.ts.len() - p,
{
    match g_type(s, p) {
        Some((ty, q)) => if adv(s, p, q) {
            match ident_at(s, q) {
                Some(n) => {
                    let acc2 = acc.push(SParam { name: n, ty: ty, default: None });
                    if sym_at(s, q + 1, ',') {
                        g_arg_list(s, q + 2, acc2)
                    } else {
                        Some((acc2, q + 1))
                    }
                },
                None => None,
            }
        } else {
            None
        },
        None => None,
    }
}

/// Skips further `, ...` items of a return-type list.
pub open spec fn g_ret_tail(s: Src, q: int) -> Option<int>
    decreases s.ts.len() - q,
    via g_ret_tail_decreases
{
    if sym_at(s, q, ',') {
        let k = find_sym(s, q + 1, ')');
        if k < s.ts.len() {
            if ident_at(s, k) is Some {
                g_ret_tail(s, k + 1)
            } else {
                g_ret_tail(s, k)
            }
        } else {
            None
        }
    } else {
        Some(q)
    }
}

#[via_fn]
proof fn g_ret_tail_decreases(s: Src, q: int) {
    if q >= 0 {
        lemma_find_sym(s, q + 1, ')');
    }
}

/// The optional `: (type name, ...)` return declaration; its first type.
pub open spec fn g_returns(s: Src, p: int) -> Option<(Option<SType>, int)> {
    if sym_at(s, p, ':') {
        if sym_at(s, p + 1, '(') {
            match g_type(s, p + 2) {
                Some((ty, q)) => if adv(s, p + 1, q) {
                    let q2 = if ident_at(s, q) is Some {
                        q + 1
                    } else {
                        q
                    };
                    match g_ret_tail(s, q2) {
                        Some(q3) => if sym_at(s, q3, ')') {
                            Some((Some(ty), q3 + 1))
                        } else {
                            None
                        },
                        None => None,
                    }
                } else {
                    None
                },
                None => None,
            }
        } else {
            None
        }
    } else {
        Some((None, p))
    }
}

/// `entrypoint function name(args) [: (...)] { body }` in mode `mode`, with
/// supply-change authority `sc`.
pub open spec fn g_entry(s: Src, p: int, mode: CovenantMode, sc: Option<Seq<char>>) -> Option<
    (SEntry, int),
> {
    if kw_at(s, p, "entrypoint"@) && kw_at(s, p + 1, "function"@) && ident_at(s, p + 2) is Some
        && sym_at(s, p + 3, '(') {
        let name = ident_at(s, p + 2)->0;
        let args = if sym_at(s, p + 4, ')') {
            Some((Seq::<SParam>::empty(), p + 4))
        } else {
            g_arg_list(s, p + 4, seq![])
        };
        match args {
            Some((a, q)) => if sym_at(s, q, ')') {
                match g_returns(s, q + 1) {
                    Some((ret, r)) => match g_block(s, r, mode) {
                        Some((body, t)) => Some(
                            (
                                SEntry {
                                    name: name,
                                    mode: mode,
                                    args: a,
                                    returns: ret,
                                    requires: requires_of(body),
                                    body: body,
                                    supply_change: sc,
                                },
                                t,
                            ),
                        ),
                        None => None,
                    },
                    None => None,
                }
            } else {
                None
            },
            None => None,
        }
    } else {
        None
    }
}

/// `param type name;` (a `= default` is rejected).
pub open spec fn g_param(s: Src, p: int) -> Option<(SParam, int)> {
    if kw_at(s, p, "param"@) {
        match g_type(s, p + 1) {
            Some((ty, q)) => if adv(s, p + 1, q) {
                match ident_at(s, q) {
                    Some(n) => if !sym_at(s, q + 1, '=') && sym_at(s, q + 1, ';') {
                        Some((SParam { name: n, ty: ty, default: None }, q + 2))
                    } else {
                        None
                    },
                    None => None,
                }
            } else {
                None
            },
            None => None,
        }
    } else {
        None
    }
}

/// State fields up to the closing `}`, appended to `acc`; a `map<K, V>`
/// field is rejected.
pub open spec fn g_state_fields(s: Src, q: int, acc: Seq<SField>) -> Option<(Seq<SField>, int)>
    decreases s.ts.len() - q,
{
    if sym_at(s, q, '}') {
        Some((acc, q))
    } else {
        match g_type(s, q) {
            Some((ty, r)) => if adv(s, q, r) && !(ty is MapOf) {
                match ident_at(s, r) {
                    Some(n) => if sym_at(s, r + 1, ';') {
                        g_state_fields(s, r + 2, acc.push(SField { name: n, ty: ty }))
                    } else {
                        None
                    },
                    None => None,
                }
            } else {
                None
            },
            None => None,
        }
    }
}

/// `state { type name; ... }`.
pub open spec fn g_state_block(s: Src, p: int) -> Option<(Seq<SField>, int)> {
    if kw_at(s, p, "state"@) && sym_at(s, p + 1, '{') {
        match g_state_fields(s, p + 2, seq![]) {
            Some((fs, q)) => if sym_at(s, q, '}') {
                Some((fs, q + 1))
            } else {
                None
            },
            None => None,
        }
    } else {
        None
    }
}

/// Role members up to the closing `}`: params accumulate, a `state` block
/// replaces the fields, entrypoints accumulate.
pub open spec fn g_role_items(
    s: Src,
    q: int,
    params: Seq<SParam>,
    state: Seq<SField>,
    entries: Seq<SEntry>,
) -> Option<(Seq<SParam>, Seq<SField>, Seq<SEntry>, int)>
    decreases s.ts.len() - q,
{
    if sym_at(s, q, '}') {
        Some((params, state, entries, q))
    } else if kw_at(s, q, "param"@) {
        match g_param(s, q) {
            Some((pm, r)) => if adv(s, q, r) {
                g_role_items(s, r, params.push(pm), state, entries)
            } else {
                None
            },
            None => None,
        }
    } else if kw_at(s, q, "state"@) {
        match g_state_block(s, q) {
            Some((fs, r)) => if adv(s, q, r) {
                g_role_items(s, r, params, fs, entries)
            } else {
                None
            },
            None => None,
        }
    } else if sym_at(s, q, '#') {
        match g_attr(s, q) {
            Some((mode, sc, r)) => match g_entry(s, r, mode, sc) {
                Some((e, t)) => if adv(s, q, t) {
                    g_role_items(s, t, params, state, entries.push(e))
                } else {
                    None
                },
                None => None,
            },
            None => None,
        }
    } else if kw_at(s, q, "entrypoint"@) {
        match g_entry(s, q, CovenantMode::NonCovenant, None) {
            Some((e, t)) => if adv(s, q, t) {
                g_role_items(s, t, params, state, entries.push(e))
            } else {
                None
            },
            None => None,
        }
    } else {
        None
    }
}

/// `role name [= Component] { ... }`.
pub open spec fn g_role(s: Src, p: int) -> Option<(SRole, int)> {
    if kw_at(s, p, "role"@) && ident_at(s, p + 1) is Some {
        let comp = if sym_at(s, p + 2, '=') {
            match ident_at(s, p + 3) {
                Some(c) => Some((Some(c), p + 4)),
                None => None,
            }
        } else {
            Some((None, p + 2))
        };
        match comp {
            Some((c, q)) => if sym_at(s, q, '{') {
                match g_role_items(s, q + 1, seq![], seq![], seq![]) {
                    Some((ps, st, es, r)) => if sym_at(s, r, '}') {
                        Some(
                            (
                                SRole {
                                    name: ident_at(s, p + 1)->0,
                                    component: c,
                                    params: ps,
                                    state: st,
                                    entrypoints: es,
                                },
                                r + 1,
                            ),
                        )
                    } else {
                        None
                    },
                    None => None,
                }
            } else {
                None
            },
            None => None,
        }
    } else {
        None
    }
}

// ── lifecycle, flow, invariants, app, program ──────────────────────────

/// `from -> to via role.entry [terminal];` edges up to `}`.
pub open spec fn g_edges(s: Src, q: int, acc: Seq<SEdge>) -> Option<(Seq<SEdge>, int)>
    decreases s.ts.len() - q,
{
    if sym_at(s, q, '}') {
        Some((acc, q))
    } else if ident_at(s, q) is Some && in_range(s, q + 1) && s.ts[q + 1].kind == LexKind::Arrow
        && ident_at(s, q + 2) is Some && kw_at(s, q + 3, "via"@) && ident_at(s, q + 4) is Some
        && sym_at(s, q + 5, '.') && ident_at(s, q + 6) is Some {
        let term = kw_at(s, q + 7, "terminal"@);
        let r = if term {
            q + 8
        } else {
            q + 7
        };
        if sym_at(s, r, ';') {
            g_edges(
                s,
                r + 1,
                acc.push(
                    SEdge {
                        from: ident_at(s, q)->0,
                        to: ident_at(s, q + 2)->0,
                        via_role: ident_at(s, q + 4)->0,
                        via_entry: ident_at(s, q + 6)->0,
                        terminal: term,
                    },
                ),
            )
        } else {
            None
        }
    } else {
        None
    }
}

/// `lifecycle { edges }`.
pub open spec fn g_lifecycle(s: Src, p: int) -> Option<(Seq<SEdge>, int)> {
    if kw_at(s, p, "lifecycle"@) && sym_at(s, p + 1, '{') {
        match g_edges(s, p + 2, seq![]) {
            Some((es, q)) => if sym_at(s, q, '}') {
                Some((es, q + 1))
            } else {
                None
            },
            None => None,
        }
    } else {
        None
    }
}

/// A positive repeat count.
pub open spec fn g_count(s: Src, q: int) -> Option<u32> {
    if in_range(s, q) && s.ts[q].kind == LexKind::Number {
        match numeral_u32(text(s, q)) {
            Some(n) => if n != 0 {
                Some(n)
            } else {
                None
            },
            None => None,
        }
    } else {
        None
    }
}

/// One flow step.
pub open spec fn g_step(s: Src, q: int) -> Option<(SStep, int)>
    decreases s.ts.len() - q, 0int,
{
    if kw_at(s, q, "choose"@) {
        match g_labelled(s, q + 1, "branch"@) {
            Some((fs, r)) => Some((SStep::Choose(fs), r)),
            None => None,
        }
    } else if kw_at(s, q, "par"@) {
        match g_labelled(s, q + 1, "thread"@) {
            Some((fs, r)) => Some((SStep::Par(fs), r)),
            None => None,
        }
    } else if kw_at(s, q, "repeat"@) {
        match g_count(s, q + 1) {
            Some(n) => match g_flow_body(s, q + 2) {
                Some((f, r)) => Some((SStep::Repeat(n, Box::new(f)), r)),
                None => None,
            },
            None => None,
        }
    } else if ident_at(s, q) is Some && sym_at(s, q + 1, '.') && ident_at(s, q + 2) is Some {
        Some((SStep::Move(ident_at(s, q)->0, ident_at(s, q + 2)->0), q + 3))
    } else {
        None
    }
}

/// `{ label { steps } ... }` with at least one labelled sub-flow.
pub open spec fn g_labelled(s: Src, q: int, label: Seq<char>) -> Option<(Seq<SFlow>, int)>
    decreases s.ts.len() - q, 2int,
{
    if sym_at(s, q, '{') {
        match g_labels(s, q + 1, label, seq![]) {
            Some((fs, r)) => if fs.len() > 0 && sym_at(s, r, '}') {
                Some((fs, r + 1))
            } else {
                None
            },
            None => None,
        }
    } else {
        None
    }
}

/// `label { steps }` sub-flows up to `}`, appended to `acc`.
pub open spec fn g_labels(s: Src, q: int, label: Seq<char>, acc: Seq<SFlow>) -> Option<
    (Seq<SFlow>, int),
>
    decreases s.ts.len() - q, 1int,
{
    if sym_at(s, q, '}') {
        Some((acc, q))
    } else if kw_at(s, q, label) {
        match g_flow_body(s, q + 1) {
            Some((f, r)) => if adv(s, q, r) {
                g_labels(s, r, label, acc.push(f))
            } else {
                None
            },
            None => None,
        }
    } else {
        None
    }
}

/// `{ steps }`.
pub open spec fn g_flow_body(s: Src, q: int) -> Option<(SFlow, int)>
    decreases s.ts.len() - q, 2int,
{
    if sym_at(s, q, '{') {
        match g_steps(s, q + 1, seq![]) {
            Some((st, r)) => if sym_at(s, r, '}') {
                Some((SFlow { steps: st }, r + 1))
            } else {
                None
            },
            None => None,
        }
    } else {
        None
    }
}

/// Steps, each optionally followed by `;`, up to `}`, appended to `acc`.
pub open spec fn g_steps(s: Src, q: int, acc: Seq<SStep>) -> Option<(Seq<SStep>, int)>
    decreases s.ts.len() - q, 1int,
{
    if sym_at(s, q, '}') {
        Some((acc, q))
    } else {
        match g_step(s, q) {
            Some((st, r)) => if adv(s, q, r) {
                let r2 = if sym_at(s, r, ';') {
                    r + 1
                } else {
                    r
                };
                g_steps(s, r2, acc.push(st))
            } else {
                None
            },
            None => None,
        }
    }
}

/// `flow { steps }`.
pub open spec fn g_flow(s: Src, p: int) -> Option<(SFlow, int)> {
    if kw_at(s, p, "flow"@) {
        g_flow_body(s, p + 1)
    } else {
        None
    }
}

/// `invariant name;`, or `invariant name: entry => after(deadline);`.
pub open spec fn g_invariant(s: Src, p: int) -> Option<(SInvariant, int)> {
    if kw_at(s, p, "invariant"@) && ident_at(s, p + 1) is Some {
        let n = ident_at(s, p + 1)->0;
        if sym_at(s, p + 2, ';') {
            let inv = if n == "value_conserved"@ {
                SInvariant::ValueConserved
            } else if n == "no_undeclared_state"@ {
                SInvariant::NoUndeclaredState
            } else {
                SInvariant::Custom(n)
            };
            Some((inv, p + 3))
        } else if sym_at(s, p + 2, ':') && ident_at(s, p + 3) is Some && sym_at(s, p + 4, '=')
            && sym_at(s, p + 5, '>') && kw_at(s, p + 6, "after"@) && sym_at(s, p + 7, '(') {
            match g_deadline(s, p + 8) {
                Some((d, r)) => if sym_at(s, r, ')') && sym_at(s, r + 1, ';') {
                    Some((SInvariant::TemporalPath(n, ident_at(s, p + 3)->0, d), r + 2))
                } else {
                    None
                },
                None => None,
            }
        } else {
            None
        }
    } else {
        None
    }
}

/// App members up to `}`: roles and invariants accumulate; a later
/// `lifecycle` or `flow` replaces an earlier one.
pub open spec fn g_app_items(
    s: Src,
    q: int,
    roles: Seq<SRole>,
    life: Seq<SEdge>,
    flow: Option<SFlow>,
    invs: Seq<SInvariant>,
) -> Option<(Seq<SRole>, Seq<SEdge>, Option<SFlow>, Seq<SInvariant>, int)>
    decreases s.ts.len() - q,
{
    if sym_at(s, q, '}') {
        Some((roles, life, flow, invs, q))
    } else if kw_at(s, q, "role"@) {
        match g_role(s, q) {
            Some((r, t)) => if adv(s, q, t) {
                g_app_items(s, t, roles.push(r), life, flow, invs)
            } else {
                None
            },
            None => None,
        }
    } else if kw_at(s, q, "lifecycle"@) {
        match g_lifecycle(s, q) {
            Some((es, t)) => if adv(s, q, t) {
                g_app_items(s, t, roles, es, flow, invs)
            } else {
                None
            },
            None => None,
        }
    } else if kw_at(s, q, "flow"@) {
        match g_flow(s, q) {
            Some((f, t)) => if adv(s, q, t) {
                g_app_items(s, t, roles, life, Some(f), invs)
            } else {
                None
            },
            None => None,
        }
    } else if kw_at(s, q, "invariant"@) {
        match g_invariant(s, q) {
            Some((i, t)) => if adv(s, q, t) {
                g_app_items(s, t, roles, life, flow, invs.push(i))
            } else {
                None
            },
            None => None,
        }
    } else {
        None
    }
}

/// `app Name { ... }`.
pub open spec fn g_app(s: Src, p: int) -> Option<(SApp, int)> {
    if kw_at(s, p, "app"@) && ident_at(s, p + 1) is Some && sym_at(s, p + 2, '{') {
        match g_app_items(s, p + 3, seq![], seq![], None, seq![]) {
            Some((roles, life, flow, invs, r)) => if sym_at(s, r, '}') {
                Some(
                    (
                        SApp {
                            name: ident_at(s, p + 1)->0,
                            roles: roles,
                            lifecycle: life,
                            flow: flow,
                            invariants: invs,
                        },
                        r + 1,
                    ),
                )
            } else {
                None
            },
            None => None,
        }
    } else {
        None
    }
}

/// The source text of a directive from `p` to its `;`, and the position
/// after the `;`.
pub open spec fn g_payload(s: Src, p: int) -> Option<(Seq<char>, int)> {
    if in_range(s, p) {
        let k = find_sym(s, p, ';');
        if k < s.ts.len() {
            Some((slice(s, s.ts[p].start, prev_end(s, k)), k + 1))
        } else {
            None
        }
    } else {
        None
    }
}

/// `use path;` directives, appended to `acc`.
pub open spec fn g_uses(s: Src, q: int, acc: Seq<Seq<char>>) -> Option<(Seq<Seq<char>>, int)>
    decreases s.ts.len() - q,
{
    if kw_at(s, q, "use"@) {
        match g_payload(s, q + 1) {
            Some((u, r)) => if adv(s, q, r) {
                g_uses(s, r, acc.push(u))
            } else {
                None
            },
            None => None,
        }
    } else {
        Some((acc, q))
    }
}

/// A whole program: `pragma ...;`, `use ...;` directives, one app, and
/// nothing after it.
pub open spec fn g_program(s: Src) -> Option<SProgram> {
    if kw_at(s, 0, "pragma"@) {
        match g_payload(s, 1) {
            Some((pr, q)) => match g_uses(s, q, seq![]) {
                Some((us, r)) => match g_app(s, r) {
                    Some((app, t)) => if t >= s.ts.len() {
                        Some(SProgram { pragma: pr, uses: us, app: app })
                    } else {
                        None
                    },
                    None => None,
                },
                None => None,
            },
            None => None,
        }
    } else {
        None
    }
}

// ── operator chains ─────────────────────────────────────────────────────

/// A plain name at `q`: an identifier other than `true` and `false`.
pub open spec fn name_at(s: Src, q: int) -> bool {
    &&& in_range(s, q)
    &&& s.ts[q].kind == LexKind::Ident
    &&& text(s, q) != "true"@
    &&& text(s, q) != "false"@
}

/// Nothing at `q` continues an expression: the input ends there, or the
/// token is neither a binary operator nor an opening `(`, `.` or `[`.
pub open spec fn expr_stops(s: Src, q: int) -> bool {
    q == s.ts.len() || (in_range(s, q) && binop_at(s, q) is None && !sym_at(s, q, '(')
        && !sym_at(s, q, '.') && !sym_at(s, q, '['))
}

/// A name followed by a binary operator or by the end of the expression is
/// the variable of that name, at any binding power.
proof fn lemma_name_operand(s: Src, q: int, bp: int)
    requires
        name_at(s, q),
        binop_at(s, q + 1) is Some || expr_stops(s, q + 1),
    ensures
        g_unary(s, q) == Some((SExpr::Var(text(s, q)), q + 1)),
        g_expr(s, q, bp) == g_expr_tail(s, SExpr::Var(text(s, q)), q + 1, bp),
{
    assert(!sym_at(s, q, '-') && !sym_at(s, q, '!') && !sym_at(s, q, '('));
    assert(!sym_at(s, q + 1, '(') && !sym_at(s, q + 1, '.') && !sym_at(s, q + 1, '['));
    assert(g_primary(s, q) == Some((SExpr::Var(text(s, q)), q + 1)));
    assert(g_post_tail(s, SExpr::Var(text(s, q)), q + 1) == Some((SExpr::Var(text(s, q)), q + 1)));
    assert(g_postfix(s, q) == Some((SExpr::Var(text(s, q)), q + 1)));
}

/// Binary operators associate by binding power: in `a op1 b op2 c` over
/// plain names, an `op2` that binds no tighter than `op1` takes the whole
/// `a op1 b` as its left operand, so equal precedence groups to the left
/// (`a - b - c` is `(a - b) - c`); an `op2` that binds tighter takes `b`
/// as its left operand (`a + b * c` is `a + (b * c)`).
pub proof fn law_binary_chain_grouping(s: Src, p: int, op1: BinOp, op2: BinOp)
    requires
        0 <= p,
        name_at(s, p),
        name_at(s, p + 2),
        name_at(s, p + 4),
        binop_at(s, p + 1) == Some(op1),
        binop_at(s, p + 3) == Some(op2),
        expr_stops(s, p + 5),
    ensures
        lbp(op2) <= lbp(op1) ==> g_expr(s, p, 0) == Some((
            SExpr::Binary(op2, Box::new(SExpr::Binary(op1, Box::new(SExpr::Var(text(s, p))),
                Box::new(SExpr::Var(text(s, p + 2))))), Box::new(SExpr::Var(text(s, p + 4)))),
            p + 5,
        )),
        lbp(op1) < lbp(op2) ==> g_expr(s, p, 0) == Some((
            SExpr::Binary(op1, Box::new(SExpr::Var(text(s, p))), Box::new(SExpr::Binary(op2,
                Box::new(SExpr::Var(text(s, p + 2))), Box::new(SExpr::Var(text(s, p + 4)))))),
            p + 5,
        )),
{
    let a = SExpr::Var(text(s, p));
    let b = SExpr::Var(text(s, p + 2));
    let c = SExpr::Var(text(s, p + 4));
    assert(lbp(op1) >= 1 && lbp(op2) >= 1);
    assert(binop_at(s, p + 5) is None);
    lemma_name_operand(s, p, 0);
    lemma_name_operand(s, p + 2, lbp(op1) + 1);
    lemma_name_operand(s, p + 4, lbp(op2) + 1);
    assert(g_expr_tail(s, c, p + 5, lbp(op2) + 1) == Some((c, p + 5)));
    assert(g_expr(s, p + 4, lbp(op2) + 1) == Some((c, p + 5)));
    if lbp(op2) <= lbp(op1) {
        assert(g_expr_tail(s, b, p + 3, lbp(op1) + 1) == Some((b, p + 3)));
        assert(g_expr(s, p + 2, lbp(op1) + 1) == Some((b, p + 3)));
        let ab = SExpr::Binary(op1, Box::new(a), Box::new(b));
        let abc = SExpr::Binary(op2, Box::new(ab), Box::new(c));
        assert(g_expr_tail(s, abc, p + 5, 0) == Some((abc, p + 5)));
        assert(g_expr_tail(s, ab, p + 3, 0) == Some((abc, p + 5)));
        assert(g_expr_tail(s, a, p + 1, 0) == Some((abc, p + 5)));
    } else {
        let bc = SExpr::Binary(op2, Box::new(b), Box::new(c));
        assert(g_expr_tail(s, bc, p + 5, lbp(op1) + 1) == Some((bc, p + 5)));
        assert(g_expr_tail(s, b, p + 3, lbp(op1) + 1) == Some((bc, p + 5)));
        assert(g_expr(s, p + 2, lbp(op1) + 1) == Some((bc, p + 5)));
        let abc = SExpr::Binary(op1, Box::new(a), Box::new(bc));
        assert(g_expr_tail(s, abc, p + 5, 0) == Some((abc, p + 5)));
        assert(g_expr_tail(s, a, p + 1, 0) == Some((abc, p + 5)));
    }
}

/// The binary operators bind, from loosest to tightest: `||`, then `&&`,
/// then the comparisons `==`, `!=`, `<`, `<=`, `>`, `>=` (all alike), then
/// `+` and `-` (alike), then `*`.
pub proof fn law_operator_levels()
    ensures
        lbp(BinOp::Or) < lbp(BinOp::And),
        lbp(BinOp::And) < lbp(BinOp::Eq),
        lbp(BinOp::Eq) == lbp(BinOp::Ne) && lbp(BinOp::Eq) == lbp(BinOp::Lt) && lbp(BinOp::Eq) == lbp(BinOp::Le)
            && lbp(BinOp::Eq) == lbp(BinOp::Gt) && lbp(BinOp::Eq) == lbp(BinOp::Ge),
        lbp(BinOp::Eq) < lbp(BinOp::Add),
        lbp(BinOp::Add) == lbp(BinOp::Sub),
        lbp(BinOp::Add) < lbp(BinOp::Mul),
{
}

} // verus!
