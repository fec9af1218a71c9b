//! The Portrait parser: recursive descent over the token stream, with a
//! precedence-climbing expression parser. Every parsing function is proved
//! to compute the corresponding function of [`crate::grammar`].

use vstd::prelude::*;
use crate::ast::{
    AfterDeadline, App, BinOp, CovenantMode, Edge, Entry, Expr, Field, Flow, Invariant, Param,
    Program, ReturnExpr, Role, Step, Stmt, Type, UnOp,
};
use crate::grammar::{Src, adv, all_digits, g_app, g_app_items, g_payload, g_program, g_uses, binop_at, digits_val, find_sym, g_after, g_arg_list, g_args, g_attr, g_block, g_body, g_consume, g_consume_rejected, g_count, g_deadline, g_edges, g_entry, g_expr, g_expr_tail, g_fields, g_flow, g_flow_body, g_invariant, g_labelled, g_labels, g_lifecycle, g_object, g_param, g_pays, g_post_tail, g_postfix, g_primary, g_raw_stmt, g_reject_or_raw, g_ret_tail, g_returns, g_role, g_role_items, g_state_block, g_state_fields, g_step, g_steps, g_stmt, g_try_require, g_try_return, g_type, g_unary, head_match, ident_at, in_range, kw_at, lbp, lemma_find_sym, ltrim, method_match, numeral_i64, numeral_u32, prev_end, rc_count, reject_at, requires_of, rtrim, scan_method, slice, start_at, sym_at, text};
use crate::lexer::{LexKind, Token, TokenKind, byte_off, chars_of, lex, digit, is_digit, string_of, tok_view, tok_wf, tokens_of, views, white};
use crate::model::{SExpr, app_v, program_v, roles_v, invariants_v, lemma_roles_push, lemma_invariants_push, deadline_v, edges_v, entries_v, entry_v, expr_v, exprs_v, fields_v, flow_v, flows_v, invariant_v, lemma_edges_push, lemma_entries_push, lemma_fields_push, lemma_flows_extend, lemma_pairs_push, lemma_params_push, lemma_steps_extend, lemma_stmts_push, lemma_strs_push, opt_str_v, pairs_v, param_v, params_v, return_v, role_v, step_v, steps_v, stmt_v, stmts_v, strs_v, type_v};
use crate::text::{decimal, push_char, str_eq, usize_to_string};
use crate::rejection::{REJECTION_SET_LEN, rc_reason, rc_ref, rejected_construct};
use crate::grammar::rc_lead;

verus! {

broadcast use vstd::seq_lib::group_seq_properties;

/// The characters and tokens of the source being parsed.
pub struct Parser {
    pub cs: Vec<char>,
    pub toks: Vec<Token>,
}

impl Parser {
    /// The token stream as a specification input.
    pub open spec fn src(&self) -> Src {
        Src { cs: self.cs@, ts: views(self.toks@) }
    }

    /// The tokens are the token stream of the characters.
    pub open spec fn wf(&self) -> bool {
        tokens_of(self.toks@, self.cs@)
    }

    pub open spec fn len(&self) -> int {
        self.toks@.len() as int
    }
}

pub proof fn lemma_src(ps: &Parser, p: int)
    requires
        ps.wf(),
        0 <= p < ps.len(),
    ensures
        ps.src().ts.len() == ps.len(),
        ps.src().ts[p] == tok_view(ps.toks@[p]),
        tok_wf(ps.toks@[p], ps.cs@),
        ps.src().ts[p].start == ps.toks@[p].cstart,
        ps.src().ts[p].end == ps.toks@[p].cend,
{
}

// ── token access ────────────────────────────────────────────────────────

/// Whether the token at `p` is the symbol `c`.
fn sym(ps: &Parser, p: usize, c: char) -> (r: bool)
    requires
        ps.wf(),
    ensures
        r == sym_at(ps.src(), p as int, c),
        r ==> p < ps.toks.len(),
{
    if p < ps.toks.len() {
        proof {
            lemma_src(ps, p as int);
        }
        match &ps.toks[p].kind {
            TokenKind::Symbol(u) => *u == c as u32,
            _ => false,
        }
    } else {
        false
    }
}

/// Whether the token at `p` is an identifier.
fn is_ident(ps: &Parser, p: usize) -> (r: bool)
    requires
        ps.wf(),
    ensures
        r == (ident_at(ps.src(), p as int) is Some),
        r ==> p < ps.toks.len(),
{
    if p < ps.toks.len() {
        proof {
            lemma_src(ps, p as int);
        }
        match &ps.toks[p].kind {
            TokenKind::Ident(_) => true,
            _ => false,
        }
    } else {
        false
    }
}

/// The identifier at `p`, if any.
fn ident(ps: &Parser, p: usize) -> (r: Option<String>)
    requires
        ps.wf(),
    ensures
        opt_str_v(r) == ident_at(ps.src(), p as int),
        r is Some ==> p < ps.toks.len(),
{
    if p < ps.toks.len() {
        proof {
            lemma_src(ps, p as int);
        }
        match &ps.toks[p].kind {
            TokenKind::Ident(s) => Some(s.clone()),
            _ => None,
        }
    } else {
        None
    }
}

/// Whether the token at `p` is the keyword `k`.
fn kw(ps: &Parser, p: usize, k: &str) -> (r: bool)
    requires
        ps.wf(),
    ensures
        r == kw_at(ps.src(), p as int, k@),
        r ==> p < ps.toks.len(),
{
    if p < ps.toks.len() {
        proof {
            lemma_src(ps, p as int);
        }
        match &ps.toks[p].kind {
            TokenKind::Ident(s) => str_eq(s.as_str(), k),
            _ => false,
        }
    } else {
        false
    }
}

/// `msg at byte N`.
fn error_at(pos: usize, msg: &str) -> (s: String)
    ensures
        s@ == msg@ + " at byte "@ + decimal(pos as nat),
{
    let mut s = String::from_str(msg);
    s.append(" at byte ");
    let n = usize_to_string(pos);
    s.append(n.as_str());
    s
}

/// `msg at byte N` for the token at `p`, or `msg` alone past the end.
fn error(ps: &Parser, p: usize, msg: &str) -> (s: String)
    ensures
        p < ps.toks.len() ==> s@ == msg@ + " at byte "@ + decimal(ps.toks@[p as int].start as nat),
        p >= ps.toks.len() ==> s@ == msg@,
{
    if p < ps.toks.len() {
        error_at(ps.toks[p].start, msg)
    } else {
        String::from_str(msg)
    }
}

/// A one-character string.
fn char_str(c: char) -> (s: String)
    ensures
        s@ == seq![c],
{
    let mut s = String::new();
    push_char(&mut s, c);
    assert(s@ =~= seq![c]);
    s
}

/// Expects the symbol `c` at `p`.
fn expect_symbol(ps: &Parser, p: usize, c: char) -> (r: Result<usize, String>)
    requires
        ps.wf(),
    ensures
        r is Ok <==> sym_at(ps.src(), p as int, c),
        r is Ok ==> r->Ok_0 == p + 1,
        r is Err ==> r->Err_0@ == sym_err(ps.src(), p as int, c),
{
    if sym(ps, p, c) {
        Ok(p + 1)
    } else if p < ps.toks.len() {
        proof {
            lemma_src(ps, p as int);
        }
        let mut m = String::from_str("expected '");
        push_char(&mut m, c);
        m.append("'");
        assert(m@ =~= "expected '"@ + seq![c] + "'"@);
        Err(error_at(ps.toks[p].start, m.as_str()))
    } else {
        Err(String::from_str("unexpected end of input"))
    }
}

/// Expects the keyword `k` at `p`.
fn expect_keyword(ps: &Parser, p: usize, k: &str) -> (r: Result<usize, String>)
    requires
        ps.wf(),
    ensures
        r is Ok <==> kw_at(ps.src(), p as int, k@),
        r is Ok ==> r->Ok_0 == p + 1,
{
    if kw(ps, p, k) {
        Ok(p + 1)
    } else if p < ps.toks.len() {
        let mut m = String::from_str("expected keyword ");
        m.append(k);
        Err(error_at(ps.toks[p].start, m.as_str()))
    } else {
        Err(String::from_str("unexpected end of input"))
    }
}

/// Expects an identifier at `p`.
fn expect_ident(ps: &Parser, p: usize) -> (r: Result<(String, usize), String>)
    requires
        ps.wf(),
    ensures
        r is Ok <==> ident_at(ps.src(), p as int) is Some,
        r is Ok ==> Some(r->Ok_0.0@) == ident_at(ps.src(), p as int) && r->Ok_0.1 == p + 1,
        r is Err ==> r->Err_0@ == ident_err(ps.src(), p as int),
{
    match ident(ps, p) {
        Some(s) => Ok((s, p + 1)),
        None => if p < ps.toks.len() {
            proof {
                lemma_src(ps, p as int);
            }
            Err(error_at(ps.toks[p].start, "expected identifier"))
        } else {
            Err(String::from_str("unexpected end of input"))
        },
    }
}

/// The first `c` symbol at or after `i` (the token count when none).
fn find_symbol(ps: &Parser, i: usize, c: char) -> (r: usize)
    requires
        ps.wf(),
        i <= ps.len(),
    ensures
        r as int == find_sym(ps.src(), i as int, c),
        i <= r <= ps.len(),
{
    let mut k = i;
    while k < ps.toks.len() && !sym(ps, k, c)
        invariant
            ps.wf(),
            i <= k <= ps.len(),
            find_sym(ps.src(), k as int, c) == find_sym(ps.src(), i as int, c),
        decreases ps.len() - k,
    {
        k += 1;
    }
    k
}

/// The character offset where the token before `pos` ends.
fn prev_end_at(ps: &Parser, pos: usize) -> (r: usize)
    requires
        ps.wf(),
    ensures
        r as int == prev_end(ps.src(), pos as int),
        r <= ps.cs.len(),
{
    let k = if pos == 0 {
        0
    } else {
        pos - 1
    };
    if k < ps.toks.len() {
        proof {
            lemma_src(ps, k as int);
        }
        ps.toks[k].cend
    } else {
        0
    }
}

/// The character offset where the token at `p` starts (0 past the end).
fn start_of(ps: &Parser, p: usize) -> (r: usize)
    requires
        ps.wf(),
    ensures
        r as int == start_at(ps.src(), p as int),
        r <= ps.cs.len(),
{
    if p < ps.toks.len() {
        proof {
            lemma_src(ps, p as int);
        }
        ps.toks[p].cstart
    } else {
        0
    }
}

/// The trimmed source text between two character offsets.
fn slice_text(ps: &Parser, from: usize, to: usize) -> (r: String)
    requires
        ps.wf(),
    ensures
        r@ == slice(ps.src(), from as int, to as int),
{
    if from < to && to <= ps.cs.len() {
        let ghost full = ps.cs@.subrange(from as int, to as int);
        let mut a = from;
        while a < to && white(ps.cs[a])
            invariant
                from <= a <= to <= ps.cs.len(),
                full == ps.cs@.subrange(from as int, to as int),
                ltrim(full) == ltrim(ps.cs@.subrange(a as int, to as int)),
            decreases to - a,
        {
            assert(ps.cs@.subrange(a as int, to as int).drop_first() =~= ps.cs@.subrange(
                a + 1,
                to as int,
            ));
            a += 1;
        }
        proof {
            if a < to {
                assert(ps.cs@.subrange(a as int, to as int)[0] == ps.cs@[a as int]);
            } else {
                assert(ps.cs@.subrange(a as int, to as int).len() == 0);
            }
        }
        let mut b = to;
        while b > a && white(ps.cs[b - 1])
            invariant
                from <= a <= b <= to <= ps.cs.len(),
                ltrim(full) == ps.cs@.subrange(a as int, to as int),
                rtrim(ltrim(full)) == rtrim(ps.cs@.subrange(a as int, b as int)),
            decreases b - a,
        {
            assert(ps.cs@.subrange(a as int, b as int).drop_last() =~= ps.cs@.subrange(
                a as int,
                b - 1,
            ));
            b -= 1;
        }
        proof {
            if b > a {
                assert(ps.cs@.subrange(a as int, b as int).last() == ps.cs@[b - 1]);
            }
        }
        crate::lexer::string_of(&ps.cs, a, b)
    } else {
        String::new()
    }
}

// ── numerals ────────────────────────────────────────────────────────────

pub proof fn lemma_all_digits_prefix(t: Seq<char>, k: int)
    requires
        all_digits(t),
        0 <= k <= t.len(),
    ensures
        all_digits(t.take(k)),
{
}

/// `str::parse::<u64>`-style value of a digit run, saturating at
/// `limit + 1` once it exceeds `limit`.
fn numeral_value(t: &String, limit: u64) -> (r: Option<u64>)
    requires
        limit <= i64::MAX,
    ensures
        r is Some <==> (t@.len() > 0 && all_digits(t@) && digits_val(t@) <= limit),
        r is Some ==> r->0 == digits_val(t@),
{
    let cs = crate::lexer::chars_of(t.as_str());
    if cs.len() == 0 {
        return None;
    }
    let mut v: u128 = 0;
    let mut i: usize = 0;
    while i < cs.len()
        invariant
            cs@ == t@,
            i <= cs.len(),
            all_digits(cs@.take(i as int)),
            v == digits_val(cs@.take(i as int)),
            v <= limit,
            limit <= i64::MAX,
        decreases cs.len() - i,
    {
        let c = cs[i];
        if !crate::lexer::digit(c) {
            proof {
                assert(!all_digits(t@));
            }
            return None;
        }
        let d = (c as u32 - 48) as u128;
        proof {
            assert(cs@.take(i + 1).drop_last() =~= cs@.take(i as int));
            assert(digits_val(cs@.take(i + 1)) == digits_val(cs@.take(i as int)) * 10 + d);
            assert(all_digits(cs@.take(i + 1)));
        }
        let nv = v * 10 + d;
        i += 1;
        if nv > limit as u128 {
            proof {
                if all_digits(cs@) {
                    lemma_digits_val_prefix_le(cs@, i as int);
                }
            }
            return None;
        }
        v = nv;
    }
    assert(cs@.take(cs.len() as int) =~= cs@);
    Some(v as u64)
}

/// The value of a digit string is at least the value of any prefix.
pub proof fn lemma_digits_val_prefix_le(t: Seq<char>, k: int)
    requires
        all_digits(t),
        0 <= k <= t.len(),
    ensures
        digits_val(t.take(k)) <= digits_val(t),
    decreases t.len() - k,
{
    if k < t.len() {
        lemma_digits_val_prefix_le(t, k + 1);
        assert(t.take(k + 1).drop_last() =~= t.take(k));
        assert(crate::lexer::is_digit(t[k]));
    } else {
        assert(t.take(k) =~= t);
    }
}

/// A numeral token's text as an `i64`.
fn numeral_i64_of(t: &String) -> (r: Option<i64>)
    ensures
        r == numeral_i64(t@),
{
    match numeral_value(t, i64::MAX as u64) {
        Some(v) => Some(v as i64),
        None => None,
    }
}

/// A numeral token's text as a `u32`.
fn numeral_u32_of(t: &String) -> (r: Option<u32>)
    ensures
        r == numeral_u32(t@),
{
    match numeral_value(t, u32::MAX as u64) {
        Some(v) => Some(v as u32),
        None => None,
    }
}

// ── expressions ─────────────────────────────────────────────────────────

/// The parse result agrees with the grammar's expression result.
pub open spec fn expr_agrees(r: Result<(Expr, usize), String>, g: Option<(SExpr, int)>) -> bool {
    match g {
        Some((v, q)) => r is Ok && expr_v(r->Ok_0.0) == v && r->Ok_0.1 == q,
        None => r is Err,
    }
}

pub proof fn lemma_exprs_v_push(s: Seq<Expr>, e: Expr, n: int)
    requires
        0 <= n <= s.len(),
    ensures
        exprs_v(s.push(e), n) == exprs_v(s, n),
    decreases n,
{
    if n > 0 {
        lemma_exprs_v_push(s, e, n - 1);
    }
}

pub proof fn lemma_exprs_v_extend(s: Seq<Expr>, e: Expr)
    ensures
        exprs_v(s.push(e), s.len() + 1int) == exprs_v(s, s.len() as int).push(expr_v(e)),
{
    lemma_exprs_v_push(s, e, s.len() as int);
}

// ── why an expression does not parse ───────────────────────────────────

/// `m at byte N`, for the token at `p`.
pub open spec fn at_byte(s: Src, p: int, m: Seq<char>) -> Seq<char> {
    m + " at byte "@ + decimal(byte_off(s.cs, s.ts[p].start) as nat)
}

/// The error when the symbol `c` is missing at `p`.
pub open spec fn sym_err(s: Src, p: int, c: char) -> Seq<char> {
    if in_range(s, p) {
        at_byte(s, p, "expected '"@ + seq![c] + "'"@)
    } else {
        "unexpected end of input"@
    }
}

/// The error when an identifier is missing at `p`.
pub open spec fn ident_err(s: Src, p: int) -> Seq<char> {
    if in_range(s, p) {
        at_byte(s, p, "expected identifier"@)
    } else {
        "unexpected end of input"@
    }
}

/// Why no expression binding at least `min_bp` starts at `p` (meaningful
/// where [`g_expr`] is `None`).
pub open spec fn e_expr(s: Src, p: int, min_bp: int) -> Seq<char>
    decreases s.ts.len() - p, 5int,
{
    if p < 0 || p > s.ts.len() {
        seq![]
    } else {
        match g_unary(s, p) {
            None => e_unary(s, p),
            Some((lhs, q)) => if adv(s, p, q) {
                e_expr_tail(s, lhs, q, min_bp)
            } else {
                seq![]
            },
        }
    }
}

pub open spec fn e_expr_tail(s: Src, lhs: SExpr, q: int, min_bp: int) -> Seq<char>
    decreases s.ts.len() - q, 6int,
{
    match binop_at(s, q) {
        Some(op) => if lbp(op) >= min_bp {
            match g_expr(s, q + 1, lbp(op) + 1) {
                None => e_expr(s, q + 1, lbp(op) + 1),
                Some((rhs, r)) => if adv(s, q, r) {
                    e_expr_tail(s, SExpr::Binary(op, Box::new(lhs), Box::new(rhs)), r, min_bp)
                } else {
                    seq![]
                },
            }
        } else {
            seq![]
        },
        None => seq![],
    }
}

pub open spec fn e_unary(s: Src, p: int) -> Seq<char>
    decreases s.ts.len() - p, 4int,
{
    if sym_at(s, p, '-') || sym_at(s, p, '!') {
        e_unary(s, p + 1)
    } else {
        e_postfix(s, p)
    }
}

pub open spec fn e_postfix(s: Src, p: int) -> Seq<char>
    decreases s.ts.len() - p, 3int,
{
    match g_primary(s, p) {
        None => e_primary(s, p),
        Some((e, q)) => if adv(s, p, q) {
            e_post_tail(s, e, q)
        } else {
            seq![]
        },
    }
}

pub open spec fn e_post_tail(s: Src, e: SExpr, q: int) -> Seq<char>
    decreases s.ts.len() - q, 7int,
{
    if sym_at(s, q, '.') {
        match ident_at(s, q + 1) {
            Some(f) => e_post_tail(s, SExpr::Field(Box::new(e), f), q + 2),
            None => ident_err(s, q + 1),
        }
    } else if sym_at(s, q, '[') {
        match g_expr(s, q + 1, 0) {
            Some((idx, r)) => if adv(s, q, r) {
                if sym_at(s, r, ']') {
                    e_post_tail(s, SExpr::Index(Box::new(e), Box::new(idx)), r + 1)
                } else {
                    sym_err(s, r, ']')
                }
            } else {
                seq![]
            },
            None => e_expr(s, q + 1, 0),
        }
    } else {
        seq![]
    }
}

pub open spec fn e_primary(s: Src, p: int) -> Seq<char>
    decreases s.ts.len() - p, 2int,
{
    if sym_at(s, p, '(') {
        match g_expr(s, p + 1, 0) {
            Some((e, q)) => if sym_at(s, q, ')') {
                seq![]
            } else {
                sym_err(s, q, ')')
            },
            None => e_expr(s, p + 1, 0),
        }
    } else if !in_range(s, p) {
        "unexpected end of input in expression"@
    } else {
        match s.ts[p].kind {
            LexKind::Number => match numeral_i64(text(s, p)) {
                Some(_) => seq![],
                None => at_byte(s, p, "integer literal out of range"@),
            },
            LexKind::Ident => {
                let name = text(s, p);
                if name == "true"@ || name == "false"@ {
                    seq![]
                } else if sym_at(s, p + 1, '(') && !sym_at(s, p + 2, ')') {
                    match g_args(s, p + 2, seq![]) {
                        Some((args, r)) => if sym_at(s, r, ')') {
                            seq![]
                        } else {
                            sym_err(s, r, ')')
                        },
                        None => e_args(s, p + 2),
                    }
                } else {
                    seq![]
                }
            },
            _ => at_byte(s, p, "expected an expression"@),
        }
    }
}

pub open spec fn e_args(s: Src, p: int) -> Seq<char>
    decreases s.ts.len() - p, 8int,
{
    match g_expr(s, p, 0) {
        None => e_expr(s, p, 0),
        Some((e, q)) => if adv(s, p, q) && sym_at(s, q, ',') {
            e_args(s, q + 1)
        } else {
            seq![]
        },
    }
}

/// `m at byte N` for the token at `p`, or `m` alone past the end.
pub open spec fn err_at(s: Src, p: int, m: Seq<char>) -> Seq<char> {
    if in_range(s, p) {
        at_byte(s, p, m)
    } else {
        m
    }
}

/// Why the `field: value` pairs from `q` do not parse.
pub open spec fn e_fields(s: Src, q: int) -> Seq<char>
    decreases s.ts.len() - q,
{
    if sym_at(s, q, '}') {
        seq![]
    } else {
        match ident_at(s, q) {
            None => ident_err(s, q),
            Some(f) => if sym_at(s, q + 1, ':') {
                match g_expr(s, q + 2, 0) {
                    Some((v, r)) => if adv(s, q + 2, r) && sym_at(s, r, ',') {
                        e_fields(s, r + 1)
                    } else {
                        seq![]
                    },
                    None => e_expr(s, q + 2, 0),
                }
            } else {
                sym_err(s, q + 1, ':')
            },
        }
    }
}

/// Why no object literal starts at `p`.
pub open spec fn e_object(s: Src, p: int) -> Seq<char> {
    if sym_at(s, p, '{') {
        match g_fields(s, p + 1, seq![]) {
            Some((fs, q)) => if !sym_at(s, q, '}') {
                sym_err(s, q, '}')
            } else if fs.len() == 0 {
                err_at(s, q + 1, "empty object literal in return"@)
            } else {
                seq![]
            },
            None => e_fields(s, p + 1),
        }
    } else {
        sym_err(s, p, '{')
    }
}

/// Why no `return` expression (through its `;`) starts at `p`.
pub open spec fn e_try_return(s: Src, p: int) -> Seq<char> {
    if sym_at(s, p, '{') {
        match g_object(s, p, None) {
            Some((_, q)) => sym_err(s, q, ';'),
            None => e_object(s, p),
        }
    } else if ident_at(s, p) is Some && sym_at(s, p + 1, '{') {
        match g_object(s, p + 1, ident_at(s, p)) {
            Some((_, q)) => sym_err(s, q, ';'),
            None => e_object(s, p + 1),
        }
    } else {
        match g_expr(s, p, 0) {
            Some((_, q)) => sym_err(s, q, ';'),
            None => e_expr(s, p, 0),
        }
    }
}

/// The binary operator at `p`, if any.
fn peek_binop(ps: &Parser, p: usize) -> (r: Option<BinOp>)
    requires
        ps.wf(),
    ensures
        r == binop_at(ps.src(), p as int),
        r is Some ==> p < ps.toks.len(),
{
    if p < ps.toks.len() {
        proof {
            lemma_src(ps, p as int);
        }
        match &ps.toks[p].kind {
            TokenKind::OrOr => Some(BinOp::Or),
            TokenKind::AndAnd => Some(BinOp::And),
            TokenKind::EqEq => Some(BinOp::Eq),
            TokenKind::Ne => Some(BinOp::Ne),
            TokenKind::Ge => Some(BinOp::Ge),
            TokenKind::Le => Some(BinOp::Le),
            TokenKind::Symbol(c) => if *c == '>' as u32 {
                Some(BinOp::Gt)
            } else if *c == '<' as u32 {
                Some(BinOp::Lt)
            } else if *c == '+' as u32 {
                Some(BinOp::Add)
            } else if *c == '-' as u32 {
                Some(BinOp::Sub)
            } else if *c == '*' as u32 {
                Some(BinOp::Mul)
            } else {
                None
            },
            _ => None,
        }
    } else {
        None
    }
}

/// The left binding power of an operator.
fn binding_power(op: BinOp) -> (r: u8)
    ensures
        r as int == lbp(op),
        1 <= r <= 9,
{
    match op {
        BinOp::Or => 1,
        BinOp::And => 3,
        BinOp::Eq | BinOp::Ne | BinOp::Ge | BinOp::Le | BinOp::Gt | BinOp::Lt => 5,
        BinOp::Add | BinOp::Sub => 7,
        BinOp::Mul => 9,
    }
}

/// An expression whose operators bind at least `min_bp` (precedence
/// climbing; left-associative).
fn parse_expr_at(ps: &Parser, p: usize, min_bp: u8) -> (r: Result<(Expr, usize), String>)
    requires
        ps.wf(),
        p <= ps.len(),
    ensures
        expr_agrees(r, g_expr(ps.src(), p as int, min_bp as int)),
        r is Ok ==> p < r->Ok_0.1 <= ps.len(),
        r is Err ==> r->Err_0@ == e_expr(ps.src(), p as int, min_bp as int),
    decreases ps.len() - p, 5int,
{
    let (lhs0, q0) = parse_unary(ps, p)?;
    let mut lhs = lhs0;
    let mut q = q0;
    let mut done = false;
    while !done
        invariant
            ps.wf(),
            p < q <= ps.len(),
            !done ==> g_expr(ps.src(), p as int, min_bp as int) == g_expr_tail(
                ps.src(),
                expr_v(lhs),
                q as int,
                min_bp as int,
            ),
            done ==> g_expr(ps.src(), p as int, min_bp as int) == Some((expr_v(lhs), q as int)),
            !done ==> e_expr(ps.src(), p as int, min_bp as int) == e_expr_tail(
                ps.src(),
                expr_v(lhs),
                q as int,
                min_bp as int,
            ),
        decreases ps.len() - q + (if done {
            0int
        } else {
            1int
        }),
    {
        match peek_binop(ps, q) {
            Some(op) => {
                let l = binding_power(op);
                if l >= min_bp {
                    let (rhs, r) = parse_expr_at(ps, q + 1, l + 1)?;
                    lhs = Expr::Binary { op, lhs: Box::new(lhs), rhs: Box::new(rhs) };
                    q = r;
                } else {
                    done = true;
                }
            },
            None => {
                done = true;
            },
        }
    }
    Ok((lhs, q))
}

/// Prefix `-` / `!` operators, then a postfix expression.
fn parse_unary(ps: &Parser, p: usize) -> (r: Result<(Expr, usize), String>)
    requires
        ps.wf(),
        p <= ps.len(),
    ensures
        expr_agrees(r, g_unary(ps.src(), p as int)),
        r is Ok ==> p < r->Ok_0.1 <= ps.len(),
        r is Err ==> r->Err_0@ == e_unary(ps.src(), p as int),
    decreases ps.len() - p, 4int,
{
    if sym(ps, p, '-') {
        let (rhs, q) = parse_unary(ps, p + 1)?;
        return Ok((Expr::Unary { op: UnOp::Neg, rhs: Box::new(rhs) }, q));
    }
    if sym(ps, p, '!') {
        let (rhs, q) = parse_unary(ps, p + 1)?;
        return Ok((Expr::Unary { op: UnOp::Not, rhs: Box::new(rhs) }, q));
    }
    parse_postfix(ps, p)
}

/// A primary followed by `.field` / `[index]` suffixes.
fn parse_postfix(ps: &Parser, p: usize) -> (r: Result<(Expr, usize), String>)
    requires
        ps.wf(),
        p <= ps.len(),
    ensures
        expr_agrees(r, g_postfix(ps.src(), p as int)),
        r is Ok ==> p < r->Ok_0.1 <= ps.len(),
        r is Err ==> r->Err_0@ == e_postfix(ps.src(), p as int),
    decreases ps.len() - p, 3int,
{
    let (e0, q0) = parse_primary(ps, p)?;
    let mut e = e0;
    let mut q = q0;
    let mut done = false;
    while !done
        invariant
            ps.wf(),
            p < q <= ps.len(),
            !done ==> g_postfix(ps.src(), p as int) == g_post_tail(ps.src(), expr_v(e), q as int),
            done ==> g_postfix(ps.src(), p as int) == Some((expr_v(e), q as int)),
            !done ==> e_postfix(ps.src(), p as int) == e_post_tail(ps.src(), expr_v(e), q as int),
        decreases ps.len() - q + (if done {
            0int
        } else {
            1int
        }),
    {
        if sym(ps, q, '.') {
            let (field, q2) = expect_ident(ps, q + 1)?;
            e = Expr::Field { base: Box::new(e), field };
            q = q2;
        } else if sym(ps, q, '[') {
            let (index, r) = parse_expr_at(ps, q + 1, 0)?;
            let r2 = expect_symbol(ps, r, ']')?;
            e = Expr::Index { base: Box::new(e), index: Box::new(index) };
            q = r2;
        } else {
            done = true;
        }
    }
    Ok((e, q))
}

/// A parenthesised expression, a numeral, `true`/`false`, a call, or a
/// variable.
fn parse_primary(ps: &Parser, p: usize) -> (r: Result<(Expr, usize), String>)
    requires
        ps.wf(),
        p <= ps.len(),
    ensures
        expr_agrees(r, g_primary(ps.src(), p as int)),
        r is Ok ==> p < r->Ok_0.1 <= ps.len(),
        r is Err ==> r->Err_0@ == e_primary(ps.src(), p as int),
    decreases ps.len() - p, 2int,
{
    if sym(ps, p, '(') {
        let (e, q) = parse_expr_at(ps, p + 1, 0)?;
        let q2 = expect_symbol(ps, q, ')')?;
        return Ok((e, q2));
    }
    if p >= ps.toks.len() {
        return Err(String::from_str("unexpected end of input in expression"));
    }
    proof {
        lemma_src(ps, p as int);
    }
    let tok = &ps.toks[p];
    match &tok.kind {
        TokenKind::Number(n) => {
            match numeral_i64_of(n) {
                Some(v) => Ok((Expr::Int(v), p + 1)),
                None => Err(error_at(tok.start, "integer literal out of range")),
            }
        },
        TokenKind::Ident(name) => {
            if str_eq(name.as_str(), "true") {
                return Ok((Expr::Bool(true), p + 1));
            }
            if str_eq(name.as_str(), "false") {
                return Ok((Expr::Bool(false), p + 1));
            }
            if sym(ps, p + 1, '(') {
                if sym(ps, p + 2, ')') {
                    let args: Vec<Expr> = Vec::new();
                    assert(exprs_v(args@, args@.len() as int) =~= Seq::<SExpr>::empty());
                    return Ok((Expr::Call { name: name.clone(), args }, p + 3));
                }
                let (args, q) = parse_call_args(ps, p + 2)?;
                let q2 = expect_symbol(ps, q, ')')?;
                Ok((Expr::Call { name: name.clone(), args }, q2))
            } else {
                Ok((Expr::Var(name.clone()), p + 1))
            }
        },
        _ => Err(error_at(tok.start, "expected an expression")),
    }
}

/// Comma-separated call arguments starting at `p`.
fn parse_call_args(ps: &Parser, p: usize) -> (r: Result<(Vec<Expr>, usize), String>)
    requires
        ps.wf(),
        p <= ps.len(),
    ensures
        match g_args(ps.src(), p as int, seq![]) {
            Some((v, q)) => r is Ok && exprs_v(r->Ok_0.0@, r->Ok_0.0@.len() as int) == v
                && r->Ok_0.1 == q,
            None => r is Err,
        },
        r is Ok ==> p < r->Ok_0.1 <= ps.len(),
        r is Err ==> r->Err_0@ == e_args(ps.src(), p as int),
    decreases ps.len() - p, 8int,
{
    let mut args: Vec<Expr> = Vec::new();
    let mut cur = p;
    loop
        invariant
            ps.wf(),
            p <= cur <= ps.len(),
            args@.len() > 0 ==> p < cur,
            g_args(ps.src(), p as int, seq![]) == g_args(
                ps.src(),
                cur as int,
                exprs_v(args@, args@.len() as int),
            ),
            e_args(ps.src(), p as int) == e_args(ps.src(), cur as int),
        decreases ps.len() - cur,
    {
        let (e, q) = parse_expr_at(ps, cur, 0)?;
        proof {
            lemma_exprs_v_extend(args@, e);
        }
        args.push(e);
        if sym(ps, q, ',') {
            cur = q + 1;
        } else {
            return Ok((args, q));
        }
    }
}

// ── types ───────────────────────────────────────────────────────────────

pub open spec fn agrees<T, V>(
    r: Result<(T, usize), String>,
    g: Option<(V, int)>,
    view: spec_fn(T) -> V,
) -> bool {
    match g {
        Some((v, q)) => r is Ok && view(r->Ok_0.0) == v && r->Ok_0.1 == q,
        None => r is Err,
    }
}

/// A surface type.
fn parse_type(ps: &Parser, p: usize) -> (r: Result<(Type, usize), String>)
    requires
        ps.wf(),
        p <= ps.len(),
    ensures
        agrees(r, g_type(ps.src(), p as int), |t: Type| type_v(t)),
        r is Ok ==> p < r->Ok_0.1 <= ps.len(),
    decreases ps.len() - p,
{
    let (id, q) = expect_ident(ps, p)?;
    let t = id.as_str();
    if str_eq(t, "int") {
        Ok((Type::Int, q))
    } else if str_eq(t, "bool") {
        Ok((Type::Bool, q))
    } else if str_eq(t, "pubkey") {
        Ok((Type::PubKey, q))
    } else if str_eq(t, "sig") {
        Ok((Type::Sig, q))
    } else if str_eq(t, "bytes32") {
        Ok((Type::Bytes32, q))
    } else if str_eq(t, "coin") {
        Ok((Type::Coin, q))
    } else if str_eq(t, "set") {
        let q1 = expect_symbol(ps, q, '<')?;
        let (inner, q2) = parse_type(ps, q1)?;
        let q3 = expect_symbol(ps, q2, '>')?;
        Ok((Type::SetOf(Box::new(inner)), q3))
    } else if str_eq(t, "map") {
        let q1 = expect_symbol(ps, q, '<')?;
        let (key, q2) = parse_type(ps, q1)?;
        let q3 = expect_symbol(ps, q2, ',')?;
        let (value, q4) = parse_type(ps, q3)?;
        let q5 = expect_symbol(ps, q4, '>')?;
        Ok((Type::MapOf(Box::new(key), Box::new(value)), q5))
    } else {
        Ok((Type::Named(id), q))
    }
}

// ── return / require ────────────────────────────────────────────────────

/// `{ f: v, ... }` (the opening brace at `p`) with head `name`.
fn parse_object_literal(ps: &Parser, p: usize, name: Option<String>) -> (r: Result<
    (ReturnExpr, usize),
    String,
>)
    requires
        ps.wf(),
        p <= ps.len(),
    ensures
        agrees(r, g_object(ps.src(), p as int, opt_str_v(name)), |x: ReturnExpr| return_v(x)),
        r is Ok ==> p < r->Ok_0.1 <= ps.len(),
        r is Err ==> r->Err_0@ == e_object(ps.src(), p as int),
{
    let q0 = expect_symbol(ps, p, '{')?;
    let mut fields: Vec<(String, Expr)> = Vec::new();
    assert(pairs_v(fields@) =~= seq![]);
    let mut q = q0;
    let mut done = false;
    while !done
        invariant
            ps.wf(),
            q0 == p + 1,
            q0 <= q <= ps.len(),
            !done ==> g_fields(ps.src(), q0 as int, seq![]) == g_fields(
                ps.src(),
                q as int,
                pairs_v(fields@),
            ),
            done ==> g_fields(ps.src(), q0 as int, seq![]) == Some((pairs_v(fields@), q as int)),
            !done ==> e_fields(ps.src(), q0 as int) == e_fields(ps.src(), q as int),
            sym_at(ps.src(), p as int, '{'),
        decreases ps.len() - q + (if done {
            0int
        } else {
            1int
        }),
    {
        if sym(ps, q, '}') {
            done = true;
        } else {
            let (f, q1) = expect_ident(ps, q)?;
            let q2 = expect_symbol(ps, q1, ':')?;
            let (v, r) = parse_expr_at(ps, q2, 0)?;
            proof {
                lemma_pairs_push(fields@, (f, v));
            }
            fields.push((f, v));
            if sym(ps, r, ',') {
                q = r + 1;
            } else {
                q = r;
                done = true;
            }
        }
    }
    let q3 = expect_symbol(ps, q, '}')?;
    if fields.len() == 0 {
        proof {
            if q3 < ps.toks.len() {
                lemma_src(ps, q3 as int);
            }
        }
        return Err(error(ps, q3, "empty object literal in return"));
    }
    Ok((ReturnExpr::Object { name, fields }, q3))
}

/// The expression of a `return` through its `;`.
fn try_parse_return(ps: &Parser, p: usize) -> (r: Result<(ReturnExpr, usize), String>)
    requires
        ps.wf(),
        p <= ps.len(),
    ensures
        agrees(r, g_try_return(ps.src(), p as int), |x: ReturnExpr| return_v(x)),
        r is Ok ==> p < r->Ok_0.1 <= ps.len(),
        r is Err ==> r->Err_0@ == e_try_return(ps.src(), p as int),
{
    if sym(ps, p, '{') {
        let (ret, q) = parse_object_literal(ps, p, None)?;
        let q2 = expect_symbol(ps, q, ';')?;
        return Ok((ret, q2));
    }
    if is_ident(ps, p) && sym(ps, p + 1, '{') {
        let (name, q) = expect_ident(ps, p)?;
        let (ret, q1) = parse_object_literal(ps, q, Some(name))?;
        let q2 = expect_symbol(ps, q1, ';')?;
        return Ok((ret, q2));
    }
    let (e, q) = parse_expr_at(ps, p, 0)?;
    let q2 = expect_symbol(ps, q, ';')?;
    Ok((ReturnExpr::Scalar(e), q2))
}

/// The guard of a `require` (`(e);` or `e;`) through its `;`.
fn try_parse_require(ps: &Parser, p: usize) -> (r: Result<(Expr, usize), String>)
    requires
        ps.wf(),
        p <= ps.len(),
    ensures
        agrees(r, g_try_require(ps.src(), p as int), |x: Expr| expr_v(x)),
        r is Ok ==> p < r->Ok_0.1 <= ps.len(),
{
    let par = sym(ps, p, '(');
    let q0 = if par {
        p + 1
    } else {
        p
    };
    let (e, q) = parse_expr_at(ps, q0, 0)?;
    let q2 = if par {
        expect_symbol(ps, q, ')')?
    } else {
        q
    };
    let q3 = expect_symbol(ps, q2, ';')?;
    Ok((e, q3))
}

// ── the rejection set ───────────────────────────────────────────────────

/// The first statement-head entry whose lead is `h`.
fn head_match_of(h: &String) -> (r: Option<usize>)
    ensures
        match r {
            Some(i) => head_match(h@, 0) == Some(i as int),
            None => head_match(h@, 0) is None,
        },
{
    let mut i: usize = 0;
    while i < REJECTION_SET_LEN
        invariant
            i <= REJECTION_SET_LEN,
            head_match(h@, 0) == head_match(h@, i as int),
        decreases REJECTION_SET_LEN - i,
    {
        let rc = rejected_construct(i);
        if !rc.as_method_call && str_eq(rc.lead, h.as_str()) {
            return Some(i);
        }
        i += 1;
    }
    None
}

/// The first method-call entry whose lead is `h`.
fn method_match_of(h: &String) -> (r: Option<usize>)
    ensures
        match r {
            Some(i) => method_match(h@, 0) == Some(i as int),
            None => method_match(h@, 0) is None,
        },
{
    let mut i: usize = 0;
    while i < REJECTION_SET_LEN
        invariant
            i <= REJECTION_SET_LEN,
            method_match(h@, 0) == method_match(h@, i as int),
        decreases REJECTION_SET_LEN - i,
    {
        let rc = rejected_construct(i);
        if rc.as_method_call && str_eq(rc.lead, h.as_str()) {
            return Some(i);
        }
        i += 1;
    }
    None
}

/// The rejection-set entry used by the statement at `p`, if any.
fn rejected_construct_at(ps: &Parser, p: usize) -> (r: Option<usize>)
    requires
        ps.wf(),
    ensures
        match r {
            Some(i) => reject_at(ps.src(), p as int) == Some(i as int) && i < REJECTION_SET_LEN
                && p < ps.len(),
            None => reject_at(ps.src(), p as int) is None,
        },
{
    match ident(ps, p) {
        Some(h) => {
            match head_match_of(&h) {
                Some(i) => {
                    proof {
                        lemma_head_match_range(h@, 0);
                    }
                    return Some(i);
                },
                None => {},
            }
        },
        None => {},
    }
    let mut i = p;
    while i < ps.toks.len()
        invariant
            ps.wf(),
            p <= i,
            reject_at(ps.src(), p as int) == scan_method(ps.src(), p as int),
            scan_method(ps.src(), p as int) == scan_method(ps.src(), i as int),
        decreases ps.len() - i,
    {
        if sym(ps, i, ';') {
            return None;
        }
        if sym(ps, i, '.') {
            match ident(ps, i + 1) {
                Some(name) => {
                    if sym(ps, i + 2, '(') {
                        match method_match_of(&name) {
                            Some(k) => {
                                proof {
                                    lemma_method_match_range(name@, 0);
                                }
                                return Some(k);
                            },
                            None => {},
                        }
                    }
                },
                None => {},
            }
        }
        i += 1;
    }
    None
}

pub proof fn lemma_head_match_range(h: Seq<char>, i: int)
    ensures
        head_match(h, i) matches Some(k) ==> 0 <= k < rc_count(),
    decreases rc_count() - i,
{
    if 0 <= i < rc_count() {
        lemma_head_match_range(h, i + 1);
    }
}

pub proof fn lemma_method_match_range(h: Seq<char>, i: int)
    ensures
        method_match(h, i) matches Some(k) ==> 0 <= k < rc_count(),
    decreases rc_count() - i,
{
    if 0 <= i < rc_count() {
        lemma_method_match_range(h, i + 1);
    }
}

/// A rejected construct at `p` recorded as a raw hole (depth-aware).
fn consume_rejected_as_raw(ps: &Parser, p: usize) -> (r: Result<(Stmt, usize), String>)
    requires
        ps.wf(),
        p <= ps.len(),
    ensures
        agrees(r, g_consume_rejected(ps.src(), p as int), |x: Stmt| stmt_v(x)),
        r is Ok ==> p < r->Ok_0.1 <= ps.len() || r->Ok_0.1 == p,
        r is Ok ==> r->Ok_0.1 <= ps.len(),
{
    if p >= ps.toks.len() {
        return Err(error(ps, p, "expected statement"));
    }
    proof {
        lemma_src(ps, p as int);
    }
    let start = ps.toks[p].cstart;
    let mut i = p;
    let mut pd: i128 = 0;
    let mut bd: i128 = 0;
    loop
        invariant
            ps.wf(),
            p <= i <= ps.len(),
            p < ps.len(),
            ps.src().ts.len() == ps.len(),
            start as int == ps.src().ts[p as int].start,
            -(i - p) <= pd <= i - p,
            -(i - p) <= bd <= i - p,
            g_consume(ps.src(), p as int, 0, 0, start as int) == g_consume(
                ps.src(),
                i as int,
                pd as int,
                bd as int,
                start as int,
            ),
        decreases ps.len() - i,
    {
        if i >= ps.toks.len() {
            let end = prev_end_at(ps, i);
            return Ok((Stmt::Raw(slice_text(ps, start, end)), i));
        }
        if sym(ps, i, '(') {
            pd = pd + 1;
        } else if sym(ps, i, ')') {
            pd = pd - 1;
        } else if sym(ps, i, '{') {
            bd = bd + 1;
        } else if sym(ps, i, '}') {
            if bd == 0 {
                let end = prev_end_at(ps, i);
                return Ok((Stmt::Raw(slice_text(ps, start, end)), i));
            }
            bd = bd - 1;
            if bd == 0 && pd == 0 {
                proof {
                    lemma_src(ps, i as int);
                }
                let end = ps.toks[i].cend;
                let text = slice_text(ps, start, end);
                if sym(ps, i + 1, ';') {
                    return Ok((Stmt::Raw(text), i + 2));
                }
                return Ok((Stmt::Raw(text), i + 1));
            }
        } else if sym(ps, i, ';') && pd == 0 && bd == 0 {
            let end = prev_end_at(ps, i);
            return Ok((Stmt::Raw(slice_text(ps, start, end)), i + 1));
        }
        i += 1;
    }
}

/// A statement the grammar does not recognise, recorded to its `;`.
fn parse_raw_stmt(ps: &Parser, p: usize) -> (r: Result<(Stmt, usize), String>)
    requires
        ps.wf(),
        p <= ps.len(),
    ensures
        agrees(r, g_raw_stmt(ps.src(), p as int), |x: Stmt| stmt_v(x)),
        r is Ok ==> p < r->Ok_0.1 <= ps.len(),
{
    if p >= ps.toks.len() {
        return Err(error(ps, p, "expected statement"));
    }
    proof {
        lemma_src(ps, p as int);
    }
    let start = ps.toks[p].cstart;
    let k = find_symbol(ps, p, ';');
    if k >= ps.toks.len() {
        return Err(error(ps, k, "expected ';'"));
    }
    proof {
        lemma_find_sym(ps.src(), p as int, ';');
    }
    let end = prev_end_at(ps, k);
    Ok((Stmt::Raw(slice_text(ps, start, end)), k + 1))
}

/// The diagnostic for a rejected construct used in a covenant entrypoint.
fn rejection_message(i: usize) -> (m: String)
    requires
        i < REJECTION_SET_LEN,
    ensures
        m@ == "unsupported construct `"@ + rc_lead(i as int) + "`: "@ + rc_reason(i as int)
            + " (deferred to the vProgs layer; see "@ + rc_ref(i as int) + ")"@,
{
    let rc = rejected_construct(i);
    let mut m = String::from_str("unsupported construct `");
    m.append(rc.lead);
    m.append("`: ");
    m.append(rc.reason);
    m.append(" (deferred to the vProgs layer; see ");
    m.append(rc.subset_ref);
    m.append(")");
    m
}

/// After an unparseable `return`/`require` expression at `q`: reject a
/// rejection-set construct in a covenant entrypoint, record it in a
/// non-covenant one, and record anything else as a raw hole.
fn reject_or_raw(ps: &Parser, q: usize, mode: CovenantMode) -> (r: Result<(Stmt, usize), String>)
    requires
        ps.wf(),
        q <= ps.len(),
    ensures
        agrees(r, g_reject_or_raw(ps.src(), q as int, mode), |x: Stmt| stmt_v(x)),
        r is Ok ==> q <= r->Ok_0.1 <= ps.len(),
{
    match rejected_construct_at(ps, q) {
        Some(i) => {
            if mode == CovenantMode::NonCovenant {
                return consume_rejected_as_raw(ps, q);
            }
            let pos = if q < ps.toks.len() {
                ps.toks[q].start
            } else {
                0
            };
            return Err(error_at(pos, rejection_message(i).as_str()));
        },
        None => {},
    }
    let start = start_of(ps, q);
    let k = find_symbol(ps, q, ';');
    let end = prev_end_at(ps, k);
    let text = slice_text(ps, start, end);
    let r = if k < ps.toks.len() {
        k + 1
    } else {
        k
    };
    Ok((Stmt::Raw(text), r))
}

// ── statements and blocks ───────────────────────────────────────────────

/// An `after(...)` deadline at `q`.
fn parse_deadline(ps: &Parser, q: usize) -> (r: Option<(AfterDeadline, usize)>)
    requires
        ps.wf(),
    ensures
        match g_deadline(ps.src(), q as int) {
            Some((d, t)) => r is Some && deadline_v((r->0).0) == d && (r->0).1 == t,
            None => r is None,
        },
        r is Some ==> q < (r->0).1 <= ps.len(),
{
    match ident(ps, q) {
        Some(a) => if sym(ps, q + 1, '+') {
            match ident(ps, q + 2) {
                Some(b) => Some((AfterDeadline::Sum(a, b), q + 3)),
                None => None,
            }
        } else {
            Some((AfterDeadline::Field(a), q + 1))
        },
        None => None,
    }
}

/// `pays(index, payee, amount);` at `q`, if that is what stands there.
fn try_pays(ps: &Parser, q: usize) -> (r: Option<(Stmt, usize)>)
    requires
        ps.wf(),
    ensures
        match g_pays(ps.src(), q as int) {
            Some((st, t)) => r is Some && stmt_v((r->0).0) == st && (r->0).1 == t,
            None => r is None,
        },
        r is Some ==> q < (r->0).1 <= ps.len(),
{
    if !kw(ps, q, "pays") || !sym(ps, q + 1, '(') || q + 2 >= ps.toks.len() {
        return None;
    }
    proof {
        lemma_src(ps, q + 2);
    }
    let n = match &ps.toks[q + 2].kind {
        TokenKind::Number(t) => numeral_u32_of(t),
        _ => None,
    };
    let index = match n {
        Some(v) => v,
        None => {
            return None;
        },
    };
    if !sym(ps, q + 3, ',') {
        return None;
    }
    let payee = match ident(ps, q + 4) {
        Some(x) => x,
        None => {
            return None;
        },
    };
    if !sym(ps, q + 5, ',') {
        return None;
    }
    let amount = match ident(ps, q + 6) {
        Some(x) => x,
        None => {
            return None;
        },
    };
    if !sym(ps, q + 7, ')') || !sym(ps, q + 8, ';') {
        return None;
    }
    Some((Stmt::Pays { index: index as usize, payee, amount }, q + 9))
}

/// `after(deadline);` at `q`, if that is what stands there.
fn try_after(ps: &Parser, q: usize) -> (r: Option<(Stmt, usize)>)
    requires
        ps.wf(),
    ensures
        match g_after(ps.src(), q as int) {
            Some((st, t)) => r is Some && stmt_v((r->0).0) == st && (r->0).1 == t,
            None => r is None,
        },
        r is Some ==> q < (r->0).1 <= ps.len(),
{
    if !kw(ps, q, "after") || !sym(ps, q + 1, '(') {
        return None;
    }
    match parse_deadline(ps, q + 2) {
        Some((d, t)) => if sym(ps, t, ')') && sym(ps, t + 1, ';') {
            Some((Stmt::After { deadline: d }, t + 2))
        } else {
            None
        },
        None => None,
    }
}

/// One body statement at `q`.
fn parse_stmt(ps: &Parser, q: usize, mode: CovenantMode) -> (r: Result<(Stmt, usize), String>)
    requires
        ps.wf(),
        q <= ps.len(),
    ensures
        agrees(r, g_stmt(ps.src(), q as int, mode), |x: Stmt| stmt_v(x)),
        r is Ok ==> q <= r->Ok_0.1 <= ps.len(),
{
    if kw(ps, q, "return") {
        match try_parse_return(ps, q + 1) {
            Ok((ret, r)) => {
                return Ok((Stmt::Return(ret), r));
            },
            Err(_) => {
                return reject_or_raw(ps, q + 1, mode);
            },
        }
    }
    if kw(ps, q, "require") || kw(ps, q, "requires") {
        match try_parse_require(ps, q + 1) {
            Ok((e, r)) => {
                return Ok((Stmt::Require(e), r));
            },
            Err(_) => {
                return reject_or_raw(ps, q + 1, mode);
            },
        }
    }
    match try_pays(ps, q) {
        Some(r) => {
            return Ok(r);
        },
        None => {},
    }
    match try_after(ps, q) {
        Some(r) => {
            return Ok(r);
        },
        None => {},
    }
    match rejected_construct_at(ps, q) {
        Some(i) => {
            if mode == CovenantMode::NonCovenant {
                return consume_rejected_as_raw(ps, q);
            }
            return Err(error_at(ps.toks[q].start, rejection_message(i).as_str()));
        },
        None => {},
    }
    parse_raw_stmt(ps, q)
}

/// A `{ ... }` entrypoint body (the opening brace at `p`).
fn parse_block(ps: &Parser, p: usize, mode: CovenantMode) -> (r: Result<(Vec<Stmt>, usize), String>)
    requires
        ps.wf(),
        p <= ps.len(),
    ensures
        agrees(r, g_block(ps.src(), p as int, mode), |x: Vec<Stmt>| stmts_v(x@)),
        r is Ok ==> p < r->Ok_0.1 <= ps.len(),
{
    let q0 = expect_symbol(ps, p, '{')?;
    let mut body: Vec<Stmt> = Vec::new();
    let mut q = q0;
    assert(stmts_v(body@) =~= seq![]);
    while !sym(ps, q, '}')
        invariant
            ps.wf(),
            q0 == p + 1,
            q0 <= q <= ps.len(),
            g_body(ps.src(), q0 as int, mode, seq![]) == g_body(
                ps.src(),
                q as int,
                mode,
                stmts_v(body@),
            ),
        decreases ps.len() - q,
    {
        let (st, r) = parse_stmt(ps, q, mode)?;
        if r <= q {
            return Err(error(ps, q, "expected statement"));
        }
        proof {
            lemma_stmts_push(body@, st);
        }
        body.push(st);
        q = r;
    }
    let q2 = expect_symbol(ps, q, '}')?;
    Ok((body, q2))
}

/// The rendered guards of the `require` statements of `body`, in order.
fn requires_list(body: &Vec<Stmt>) -> (r: Vec<String>)
    ensures
        strs_v(r@) == requires_of(stmts_v(body@)),
{
    let mut out: Vec<String> = Vec::new();
    let mut i: usize = 0;
    assert(strs_v(out@) =~= seq![]);
    assert(stmts_v(body@.take(0)) =~= seq![]);
    while i < body.len()
        invariant
            i <= body.len(),
            strs_v(out@) == requires_of(stmts_v(body@.take(i as int))),
        decreases body.len() - i,
    {
        proof {
            assert(stmts_v(body@.take(i + 1)).drop_last() =~= stmts_v(body@.take(i as int)));
            assert(stmts_v(body@.take(i + 1)).last() == stmt_v(body@[i as int]));
        }
        match &body[i] {
            Stmt::Require(e) => {
                let t = e.to_silverscript();
                proof {
                    lemma_strs_push(out@, t);
                }
                out.push(t);
            },
            _ => {},
        }
        i += 1;
    }
    assert(body@.take(body.len() as int) =~= body@);
    out
}

// ── entrypoints ─────────────────────────────────────────────────────────

/// `#[covenant(mode = ...)]`, optionally `covenant.singleton`, optionally
/// with `, supply_change = authority`.
#[verifier::rlimit(40)]
fn parse_covenant_attr(ps: &Parser, p: usize) -> (r: Result<
    (CovenantMode, Option<String>, usize),
    String,
>)
    requires
        ps.wf(),
        p <= ps.len(),
    ensures
        match g_attr(ps.src(), p as int) {
            Some((md, sc, t)) => r is Ok && r->Ok_0.0 == md && opt_str_v(r->Ok_0.1) == sc
                && r->Ok_0.2 == t,
            None => r is Err,
        },
        r is Ok ==> p < r->Ok_0.2 <= ps.len(),
{
    let q1 = expect_symbol(ps, p, '#')?;
    let q2 = expect_symbol(ps, q1, '[')?;
    let q3 = expect_keyword(ps, q2, "covenant")?;
    let q4 = if sym(ps, q3, '.') {
        expect_keyword(ps, q3 + 1, "singleton")?
    } else {
        q3
    };
    let q5 = expect_symbol(ps, q4, '(')?;
    let q6 = expect_keyword(ps, q5, "mode")?;
    let q7 = expect_symbol(ps, q6, '=')?;
    let (m, q8) = expect_ident(ps, q7)?;
    let mode = if str_eq(m.as_str(), "transition") {
        CovenantMode::Transition
    } else if str_eq(m.as_str(), "verification") {
        CovenantMode::Verification
    } else {
        let mut msg = String::from_str("unknown covenant mode ");
        msg.append(m.as_str());
        return Err(error(ps, q8, msg.as_str()));
    };
    let (sc, q9) = if sym(ps, q8, ',') {
        let a1 = expect_keyword(ps, q8 + 1, "supply_change")?;
        let a2 = expect_symbol(ps, a1, '=')?;
        let (auth, a3) = expect_ident(ps, a2)?;
        (Some(auth), a3)
    } else {
        (None, q8)
    };
    let q10 = expect_symbol(ps, q9, ')')?;
    let q11 = expect_symbol(ps, q10, ']')?;
    Ok((mode, sc, q11))
}

/// `type name, ...` entrypoint arguments.
fn parse_args(ps: &Parser, p: usize) -> (r: Result<(Vec<Param>, usize), String>)
    requires
        ps.wf(),
        p <= ps.len(),
    ensures
        agrees(r, g_arg_list(ps.src(), p as int, seq![]), |x: Vec<Param>| params_v(x@)),
        r is Ok ==> p < r->Ok_0.1 <= ps.len(),
{
    let mut args: Vec<Param> = Vec::new();
    let mut cur = p;
    assert(params_v(args@) =~= seq![]);
    loop
        invariant
            ps.wf(),
            p <= cur <= ps.len(),
            args@.len() > 0 ==> p < cur,
            g_arg_list(ps.src(), p as int, seq![]) == g_arg_list(
                ps.src(),
                cur as int,
                params_v(args@),
            ),
        decreases ps.len() - cur,
    {
        let (ty, q) = parse_type(ps, cur)?;
        let (name, q1) = expect_ident(ps, q)?;
        let a = Param { name, ty, default: None };
        proof {
            lemma_params_push(args@, a);
        }
        args.push(a);
        if sym(ps, q1, ',') {
            cur = q1 + 1;
        } else {
            return Ok((args, q1));
        }
    }
}

/// The optional `: (type name, ...)` return declaration; its first type.
fn parse_returns(ps: &Parser, p: usize) -> (r: Result<(Option<Type>, usize), String>)
    requires
        ps.wf(),
        p <= ps.len(),
    ensures
        agrees(
            r,
            g_returns(ps.src(), p as int),
            |x: Option<Type>|
                match x {
                    Some(t) => Some(type_v(t)),
                    None => None,
                },
        ),
        r is Ok ==> p <= r->Ok_0.1 <= ps.len(),
{
    if !sym(ps, p, ':') {
        return Ok((None, p));
    }
    let q1 = expect_symbol(ps, p + 1, '(')?;
    let (ty, q2) = parse_type(ps, q1)?;
    let mut q = if is_ident(ps, q2) {
        q2 + 1
    } else {
        q2
    };
    while sym(ps, q, ',')
        invariant
            ps.wf(),
            p < q <= ps.len(),
            sym_at(ps.src(), p as int, ':'),
            sym_at(ps.src(), p + 1, '('),
            q1 == p + 2,
            q1 < q2 <= ps.len(),
            g_type(ps.src(), q1 as int) == Some((type_v(ty), q2 as int)),
            crate::grammar::g_ret_tail(ps.src(), q as int) == crate::grammar::g_ret_tail(
                ps.src(),
                (if ident_at(ps.src(), q2 as int) is Some {
                    q2 + 1
                } else {
                    q2 as int
                }),
            ),
        decreases ps.len() - q,
    {
        let k = find_symbol(ps, q + 1, ')');
        proof {
            lemma_find_sym(ps.src(), q + 1, ')');
        }
        if k >= ps.toks.len() {
            return Err(error(ps, k, "expected ')'"));
        }
        q = if is_ident(ps, k) {
            k + 1
        } else {
            k
        };
    }
    let q3 = expect_symbol(ps, q, ')')?;
    Ok((Some(ty), q3))
}

/// `entrypoint function name(args) [: (...)] { body }` in mode `mode`.
fn parse_entrypoint(ps: &Parser, p: usize, mode: CovenantMode, sc: Option<String>) -> (r: Result<
    (Entry, usize),
    String,
>)
    requires
        ps.wf(),
        p <= ps.len(),
    ensures
        agrees(r, g_entry(ps.src(), p as int, mode, opt_str_v(sc)), |x: Entry| entry_v(x)),
        r is Ok ==> p < r->Ok_0.1 <= ps.len(),
{
    let q1 = expect_keyword(ps, p, "entrypoint")?;
    let q2 = expect_keyword(ps, q1, "function")?;
    let (name, q3) = expect_ident(ps, q2)?;
    let q4 = expect_symbol(ps, q3, '(')?;
    let (args, q5) = if sym(ps, q4, ')') {
        let a: Vec<Param> = Vec::new();
        assert(params_v(a@) =~= seq![]);
        (a, q4)
    } else {
        parse_args(ps, q4)?
    };
    let q6 = expect_symbol(ps, q5, ')')?;
    let (ret_ty, q7) = parse_returns(ps, q6)?;
    let (body, q8) = parse_block(ps, q7, mode)?;
    let guards = requires_list(&body);
    Ok((
        Entry {
            name: name,
            mode: mode,
            args: args,
            returns: ret_ty,
            requires: guards,
            body: body,
            supply_change: sc,
        },
        q8,
    ))
}

// ── roles ───────────────────────────────────────────────────────────────

/// `param type name;` (a `= default` is rejected).
fn parse_param(ps: &Parser, p: usize) -> (r: Result<(Param, usize), String>)
    requires
        ps.wf(),
        p <= ps.len(),
    ensures
        agrees(r, g_param(ps.src(), p as int), |x: Param| param_v(x)),
        r is Ok ==> p < r->Ok_0.1 <= ps.len(),
{
    let q1 = expect_keyword(ps, p, "param")?;
    let (ty, q2) = parse_type(ps, q1)?;
    let (name, q3) = expect_ident(ps, q2)?;
    if sym(ps, q3, '=') {
        let k = find_symbol(ps, q3 + 1, ';');
        if k >= ps.toks.len() {
            return Err(error(ps, k, "expected ';'"));
        }
        return Err(error(ps, k, "defaulted params are not supported in M0"));
    }
    let q4 = expect_symbol(ps, q3, ';')?;
    Ok((Param { name, ty, default: None }, q4))
}

/// The message for a `map<K, V>` state field.
fn mapping_field_message() -> (s: String)
    ensures
        s@ == "unsupported construct `map<K, V>` state field: shared mutable mappings require an account model; the UTXO model has no global mutable ledger (deferred to the vProgs layer; see SOLIDITY-SUBSET-V0 §3 item 1)"@,
{
    String::from_str(
        "unsupported construct `map<K, V>` state field: shared mutable mappings require an account model; the UTXO model has no global mutable ledger (deferred to the vProgs layer; see SOLIDITY-SUBSET-V0 §3 item 1)",
    )
}

/// `state { type name; ... }`.
fn parse_state_block(ps: &Parser, p: usize) -> (r: Result<(Vec<Field>, usize), String>)
    requires
        ps.wf(),
        p <= ps.len(),
    ensures
        agrees(r, g_state_block(ps.src(), p as int), |x: Vec<Field>| fields_v(x@)),
        r is Ok ==> p < r->Ok_0.1 <= ps.len(),
{
    let q1 = expect_keyword(ps, p, "state")?;
    let q0 = expect_symbol(ps, q1, '{')?;
    let mut fields: Vec<Field> = Vec::new();
    let mut q = q0;
    assert(fields_v(fields@) =~= seq![]);
    while !sym(ps, q, '}')
        invariant
            ps.wf(),
            q0 == p + 2,
            q0 <= q <= ps.len(),
            g_state_fields(ps.src(), q0 as int, seq![]) == g_state_fields(
                ps.src(),
                q as int,
                fields_v(fields@),
            ),
        decreases ps.len() - q,
    {
        let ty_pos = if q < ps.toks.len() {
            ps.toks[q].start
        } else {
            0
        };
        let (ty, r) = parse_type(ps, q)?;
        match ty {
            Type::MapOf(_, _) => {
                return Err(error_at(ty_pos, mapping_field_message().as_str()));
            },
            _ => {},
        }
        let (name, r1) = expect_ident(ps, r)?;
        let r2 = expect_symbol(ps, r1, ';')?;
        let f = Field { name, ty };
        proof {
            lemma_fields_push(fields@, f);
        }
        fields.push(f);
        q = r2;
    }
    let q2 = expect_symbol(ps, q, '}')?;
    Ok((fields, q2))
}

/// Role members from `q0` up to the closing `}`.
#[verifier::rlimit(40)]
fn parse_role_items(ps: &Parser, q0: usize) -> (r: Result<
    (Vec<Param>, Vec<Field>, Vec<Entry>, usize),
    String,
>)
    requires
        ps.wf(),
        q0 <= ps.len(),
    ensures
        match g_role_items(ps.src(), q0 as int, seq![], seq![], seq![]) {
            Some((pv, sv, ev, t)) => r is Ok && params_v(r->Ok_0.0@) == pv && fields_v(
                r->Ok_0.1@,
            ) == sv && entries_v(r->Ok_0.2@) == ev && r->Ok_0.3 == t,
            None => r is Err,
        },
        r is Ok ==> q0 <= r->Ok_0.3 <= ps.len(),
{
    let mut params: Vec<Param> = Vec::new();
    let mut state: Vec<Field> = Vec::new();
    let mut entrypoints: Vec<Entry> = Vec::new();
    let mut q = q0;
    assert(params_v(params@) =~= seq![]);
    assert(fields_v(state@) =~= seq![]);
    assert(entries_v(entrypoints@) =~= seq![]);
    while !sym(ps, q, '}')
        invariant
            ps.wf(),
            q0 <= q <= ps.len(),
            g_role_items(ps.src(), q0 as int, seq![], seq![], seq![]) == g_role_items(
                ps.src(),
                q as int,
                params_v(params@),
                fields_v(state@),
                entries_v(entrypoints@),
            ),
        decreases ps.len() - q,
    {
        if kw(ps, q, "param") {
            let (pm, r) = parse_param(ps, q)?;
            proof {
                lemma_params_push(params@, pm);
            }
            params.push(pm);
            q = r;
        } else if kw(ps, q, "state") {
            let (fs, r) = parse_state_block(ps, q)?;
            state = fs;
            q = r;
        } else if sym(ps, q, '#') {
            let (mode, sc, r) = parse_covenant_attr(ps, q)?;
            let (e, t) = parse_entrypoint(ps, r, mode, sc)?;
            proof {
                lemma_entries_push(entrypoints@, e);
            }
            entrypoints.push(e);
            q = t;
        } else if kw(ps, q, "entrypoint") {
            let (e, t) = parse_entrypoint(ps, q, CovenantMode::NonCovenant, None)?;
            proof {
                lemma_entries_push(entrypoints@, e);
            }
            entrypoints.push(e);
            q = t;
        } else {
            return Err(error(ps, q, "expected param, state, or entrypoint"));
        }
    }
    Ok((params, state, entrypoints, q))
}

/// `role name [= Component] { ... }`.
fn parse_role(ps: &Parser, p: usize) -> (r: Result<(Role, usize), String>)
    requires
        ps.wf(),
        p <= ps.len(),
    ensures
        agrees(r, g_role(ps.src(), p as int), |x: Role| role_v(x)),
        r is Ok ==> p < r->Ok_0.1 <= ps.len(),
{
    let q1 = expect_keyword(ps, p, "role")?;
    let (name, q2) = expect_ident(ps, q1)?;
    let (component, q3) = if sym(ps, q2, '=') {
        let (c, q) = expect_ident(ps, q2 + 1)?;
        (Some(c), q)
    } else {
        (None, q2)
    };
    let q0 = expect_symbol(ps, q3, '{')?;
    let (params, state, entrypoints, q) = parse_role_items(ps, q0)?;
    let q4 = expect_symbol(ps, q, '}')?;
    Ok((Role { name, component, params, state, entrypoints }, q4))
}

// ── lifecycle ───────────────────────────────────────────────────────────

/// Expects `->` at `p`.
fn expect_arrow(ps: &Parser, p: usize) -> (r: Result<usize, String>)
    requires
        ps.wf(),
    ensures
        r is Ok <==> (in_range(ps.src(), p as int) && ps.src().ts[p as int].kind == LexKind::Arrow),
        r is Ok ==> r->Ok_0 == p + 1,
{
    if p < ps.toks.len() {
        proof {
            lemma_src(ps, p as int);
        }
        match &ps.toks[p].kind {
            TokenKind::Arrow => Ok(p + 1),
            _ => Err(error_at(ps.toks[p].start, "expected '->'")),
        }
    } else {
        Err(String::from_str("unexpected end of input"))
    }
}

/// `lifecycle { from -> to via role.entry [terminal]; ... }`.
fn parse_lifecycle(ps: &Parser, p: usize) -> (r: Result<(Vec<Edge>, usize), String>)
    requires
        ps.wf(),
        p <= ps.len(),
    ensures
        agrees(r, g_lifecycle(ps.src(), p as int), |x: Vec<Edge>| edges_v(x@)),
        r is Ok ==> p < r->Ok_0.1 <= ps.len(),
{
    let q1 = expect_keyword(ps, p, "lifecycle")?;
    let q0 = expect_symbol(ps, q1, '{')?;
    let mut edges: Vec<Edge> = Vec::new();
    let mut q = q0;
    assert(edges_v(edges@) =~= seq![]);
    while !sym(ps, q, '}')
        invariant
            ps.wf(),
            q0 == p + 2,
            q0 <= q <= ps.len(),
            g_edges(ps.src(), q0 as int, seq![]) == g_edges(ps.src(), q as int, edges_v(edges@)),
        decreases ps.len() - q,
    {
        let (from, r1) = expect_ident(ps, q)?;
        let r2 = expect_arrow(ps, r1)?;
        let (to, r3) = expect_ident(ps, r2)?;
        let r4 = expect_keyword(ps, r3, "via")?;
        let (via_role, r5) = expect_ident(ps, r4)?;
        let r6 = expect_symbol(ps, r5, '.')?;
        let (via_entry, r7) = expect_ident(ps, r6)?;
        let terminal = kw(ps, r7, "terminal");
        let r8 = if terminal {
            r7 + 1
        } else {
            r7
        };
        let r9 = expect_symbol(ps, r8, ';')?;
        let e = Edge { from, to, via_role, via_entry, terminal };
        proof {
            lemma_edges_push(edges@, e);
        }
        edges.push(e);
        q = r9;
    }
    let q2 = expect_symbol(ps, q, '}')?;
    Ok((edges, q2))
}

// ── flows ───────────────────────────────────────────────────────────────

/// A positive repeat count at `q`.
fn expect_count(ps: &Parser, q: usize) -> (r: Result<u32, String>)
    requires
        ps.wf(),
    ensures
        match g_count(ps.src(), q as int) {
            Some(n) => r is Ok && r->Ok_0 == n,
            None => r is Err,
        },
        r is Ok ==> q < ps.len(),
{
    if q >= ps.toks.len() {
        return Err(String::from_str("unexpected end of input"));
    }
    proof {
        lemma_src(ps, q as int);
    }
    let tok = &ps.toks[q];
    match &tok.kind {
        TokenKind::Number(n) => {
            match numeral_u32_of(n) {
                Some(count) => {
                    if count == 0 {
                        return Err(
                            error_at(
                                tok.start,
                                "repeat count must be >= 1 (a `repeat 0` never runs its body and is not authorable as a loop)",
                            ),
                        );
                    }
                    Ok(count)
                },
                None => Err(error_at(tok.start, "repeat count must be a non-negative integer")),
            }
        },
        _ => Err(error_at(tok.start, "expected a repeat count (integer literal)")),
    }
}

/// One flow step at `q`.
fn parse_flow_step(ps: &Parser, q: usize) -> (r: Result<(Step, usize), String>)
    requires
        ps.wf(),
        q <= ps.len(),
    ensures
        agrees(r, g_step(ps.src(), q as int), |x: Step| step_v(x)),
        r is Ok ==> q < r->Ok_0.1 <= ps.len(),
    decreases ps.len() - q, 0int,
{
    if kw(ps, q, "choose") {
        let (fs, r) = parse_labelled_flows(ps, q + 1, "branch")?;
        return Ok((Step::Choose(fs), r));
    }
    if kw(ps, q, "par") {
        let (fs, r) = parse_labelled_flows(ps, q + 1, "thread")?;
        return Ok((Step::Par(fs), r));
    }
    if kw(ps, q, "repeat") {
        let n = expect_count(ps, q + 1)?;
        let (f, r) = parse_flow_body(ps, q + 2)?;
        return Ok((Step::Repeat(n, Box::new(f)), r));
    }
    let (role, q1) = expect_ident(ps, q)?;
    let q2 = expect_symbol(ps, q1, '.')?;
    let (entry, q3) = expect_ident(ps, q2)?;
    Ok((Step::Move { role, entry }, q3))
}

/// `{ label { steps } ... }`: at least one labelled sub-flow.
fn parse_labelled_flows(ps: &Parser, q: usize, label: &str) -> (r: Result<
    (Vec<Flow>, usize),
    String,
>)
    requires
        ps.wf(),
        q <= ps.len(),
    ensures
        agrees(
            r,
            g_labelled(ps.src(), q as int, label@),
            |x: Vec<Flow>| flows_v(x@, x@.len() as int),
        ),
        r is Ok ==> q < r->Ok_0.1 <= ps.len(),
    decreases ps.len() - q, 2int,
{
    let q0 = expect_symbol(ps, q, '{')?;
    let mut flows: Vec<Flow> = Vec::new();
    let mut cur = q0;
    while !sym(ps, cur, '}')
        invariant
            ps.wf(),
            q0 == q + 1,
            q0 <= cur <= ps.len(),
            g_labels(ps.src(), q0 as int, label@, seq![]) == g_labels(
                ps.src(),
                cur as int,
                label@,
                flows_v(flows@, flows@.len() as int),
            ),
        decreases ps.len() - cur,
    {
        let c1 = expect_keyword(ps, cur, label)?;
        let (f, r) = parse_flow_body(ps, c1)?;
        proof {
            lemma_flows_extend(flows@, f);
        }
        flows.push(f);
        cur = r;
    }
    if flows.len() == 0 {
        let mut m = String::from_str("expected at least one `");
        m.append(label);
        m.append(" { .. }`");
        return Err(error(ps, cur, m.as_str()));
    }
    let q2 = expect_symbol(ps, cur, '}')?;
    Ok((flows, q2))
}

/// `{ steps }`, each step optionally followed by `;`.
fn parse_flow_body(ps: &Parser, q: usize) -> (r: Result<(Flow, usize), String>)
    requires
        ps.wf(),
        q <= ps.len(),
    ensures
        agrees(r, g_flow_body(ps.src(), q as int), |x: Flow| flow_v(x)),
        r is Ok ==> q < r->Ok_0.1 <= ps.len(),
    decreases ps.len() - q, 2int,
{
    let q0 = expect_symbol(ps, q, '{')?;
    let mut steps: Vec<Step> = Vec::new();
    let mut cur = q0;
    while !sym(ps, cur, '}')
        invariant
            ps.wf(),
            q0 == q + 1,
            q0 <= cur <= ps.len(),
            g_steps(ps.src(), q0 as int, seq![]) == g_steps(
                ps.src(),
                cur as int,
                steps_v(steps@, steps@.len() as int),
            ),
        decreases ps.len() - cur,
    {
        let (st, r) = parse_flow_step(ps, cur)?;
        proof {
            lemma_steps_extend(steps@, st);
        }
        steps.push(st);
        cur = if sym(ps, r, ';') {
            r + 1
        } else {
            r
        };
    }
    let q2 = expect_symbol(ps, cur, '}')?;
    Ok((Flow { steps }, q2))
}

/// `flow { steps }`.
fn parse_flow(ps: &Parser, p: usize) -> (r: Result<(Flow, usize), String>)
    requires
        ps.wf(),
        p <= ps.len(),
    ensures
        agrees(r, g_flow(ps.src(), p as int), |x: Flow| flow_v(x)),
        r is Ok ==> p < r->Ok_0.1 <= ps.len(),
{
    let q = expect_keyword(ps, p, "flow")?;
    parse_flow_body(ps, q)
}

/// `invariant name;`, or `invariant name: entry => after(deadline);`.
fn parse_invariant(ps: &Parser, p: usize) -> (r: Result<(Invariant, usize), String>)
    requires
        ps.wf(),
        p <= ps.len(),
    ensures
        agrees(r, g_invariant(ps.src(), p as int), |x: Invariant| invariant_v(x)),
        r is Ok ==> p < r->Ok_0.1 <= ps.len(),
{
    let q1 = expect_keyword(ps, p, "invariant")?;
    let (name, q2) = expect_ident(ps, q1)?;
    if sym(ps, q2, ':') {
        let (entry, q3) = expect_ident(ps, q2 + 1)?;
        let q4 = expect_symbol(ps, q3, '=')?;
        let q5 = expect_symbol(ps, q4, '>')?;
        let q6 = expect_keyword(ps, q5, "after")?;
        let q7 = expect_symbol(ps, q6, '(')?;
        let (deadline, r) = match parse_deadline(ps, q7) {
            Some(x) => x,
            None => {
                return Err(error(ps, q7, "expected identifier"));
            },
        };
        let r1 = expect_symbol(ps, r, ')')?;
        let r2 = expect_symbol(ps, r1, ';')?;
        return Ok((Invariant::TemporalPath { name, entry, deadline }, r2));
    }
    let q3 = expect_symbol(ps, q2, ';')?;
    let inv = if str_eq(name.as_str(), "value_conserved") {
        Invariant::ValueConserved
    } else if str_eq(name.as_str(), "no_undeclared_state") {
        Invariant::NoUndeclaredState
    } else {
        Invariant::Custom(name)
    };
    Ok((inv, q3))
}

// ── apps and programs ───────────────────────────────────────────────────

/// App members up to `}`: roles, the lifecycle, the flow and invariants.
fn parse_app_items(ps: &Parser, q0: usize) -> (r: Result<
    (Vec<Role>, Vec<Edge>, Option<Flow>, Vec<Invariant>, usize),
    String,
>)
    requires
        ps.wf(),
        q0 <= ps.len(),
    ensures
        match g_app_items(ps.src(), q0 as int, seq![], seq![], None, seq![]) {
            Some((rv, lv, fv, iv, t)) => r is Ok && roles_v(r->Ok_0.0@) == rv && edges_v(
                r->Ok_0.1@,
            ) == lv && match r->Ok_0.2 {
                Some(f) => fv == Some(flow_v(f)),
                None => fv is None,
            } && invariants_v(r->Ok_0.3@) == iv && r->Ok_0.4 == t,
            None => r is Err,
        },
        r is Ok ==> q0 <= r->Ok_0.4 <= ps.len(),
{
    let mut roles: Vec<Role> = Vec::new();
    let mut lifecycle: Vec<Edge> = Vec::new();
    let mut flow: Option<Flow> = None;
    let mut invariants: Vec<Invariant> = Vec::new();
    let mut q = q0;
    assert(roles_v(roles@) =~= seq![]);
    assert(edges_v(lifecycle@) =~= seq![]);
    assert(invariants_v(invariants@) =~= seq![]);
    while !sym(ps, q, '}')
        invariant
            ps.wf(),
            q0 <= q <= ps.len(),
            g_app_items(ps.src(), q0 as int, seq![], seq![], None, seq![]) == g_app_items(
                ps.src(),
                q as int,
                roles_v(roles@),
                edges_v(lifecycle@),
                match flow {
                    Some(f) => Some(flow_v(f)),
                    None => None,
                },
                invariants_v(invariants@),
            ),
        decreases ps.len() - q,
    {
        if kw(ps, q, "role") {
            let (role, t) = parse_role(ps, q)?;
            proof {
                lemma_roles_push(roles@, role);
            }
            roles.push(role);
            q = t;
        } else if kw(ps, q, "lifecycle") {
            let (es, t) = parse_lifecycle(ps, q)?;
            lifecycle = es;
            q = t;
        } else if kw(ps, q, "flow") {
            let (f, t) = parse_flow(ps, q)?;
            flow = Some(f);
            q = t;
        } else if kw(ps, q, "invariant") {
            let (inv, t) = parse_invariant(ps, q)?;
            proof {
                lemma_invariants_push(invariants@, inv);
            }
            invariants.push(inv);
            q = t;
        } else if kw(ps, q, "contract") {
            return Err(
                error(
                    ps,
                    q,
                    "app-composition sources (`contract <name> = <Type> { ... }`) are not covenant sources; the covenant form uses role/lifecycle/flow/invariant \u{2014} see TimeVault.portrait for the canonical covenant grammar",
                ),
            );
        } else {
            return Err(error(ps, q, "expected role, lifecycle, flow, or invariant"));
        }
    }
    Ok((roles, lifecycle, flow, invariants, q))
}

/// `app Name { ... }`.
fn parse_app(ps: &Parser, p: usize) -> (r: Result<(App, usize), String>)
    requires
        ps.wf(),
        p <= ps.len(),
    ensures
        agrees(r, g_app(ps.src(), p as int), |x: App| app_v(x)),
        r is Ok ==> p < r->Ok_0.1 <= ps.len(),
{
    let q1 = expect_keyword(ps, p, "app")?;
    let (name, q2) = expect_ident(ps, q1)?;
    let q3 = expect_symbol(ps, q2, '{')?;
    let (roles, lifecycle, flow, invariants, q) = parse_app_items(ps, q3)?;
    let q4 = expect_symbol(ps, q, '}')?;
    Ok((App { name, roles, lifecycle, flow, invariants }, q4))
}

/// The text of a directive from `p` to its `;`, and the position after the
/// `;`; `what` names the directive in the error when nothing follows.
fn parse_payload(ps: &Parser, p: usize, what: &str) -> (r: Result<(String, usize), String>)
    requires
        ps.wf(),
        p <= ps.len(),
    ensures
        agrees(r, g_payload(ps.src(), p as int), |x: String| x@),
        r is Ok ==> p < r->Ok_0.1 <= ps.len(),
{
    if p >= ps.toks.len() {
        return Err(String::from_str(what));
    }
    proof {
        lemma_src(ps, p as int);
    }
    let start = ps.toks[p].cstart;
    let k = find_symbol(ps, p, ';');
    if k >= ps.toks.len() {
        return Err(error(ps, k, "expected ';'"));
    }
    let end = prev_end_at(ps, k);
    let text = slice_text(ps, start, end);
    Ok((text, k + 1))
}

/// `use path;` directives.
fn parse_uses(ps: &Parser, q0: usize) -> (r: Result<(Vec<String>, usize), String>)
    requires
        ps.wf(),
        q0 <= ps.len(),
    ensures
        match g_uses(ps.src(), q0 as int, seq![]) {
            Some((us, t)) => r is Ok && strs_v(r->Ok_0.0@) == us && r->Ok_0.1 == t,
            None => r is Err,
        },
        r is Ok ==> q0 <= r->Ok_0.1 <= ps.len(),
{
    let mut uses: Vec<String> = Vec::new();
    let mut q = q0;
    assert(strs_v(uses@) =~= seq![]);
    while kw(ps, q, "use")
        invariant
            ps.wf(),
            q0 <= q <= ps.len(),
            g_uses(ps.src(), q0 as int, seq![]) == g_uses(ps.src(), q as int, strs_v(uses@)),
        decreases ps.len() - q,
    {
        let (u, t) = parse_payload(ps, q + 1, "expected use path")?;
        proof {
            lemma_strs_push(uses@, u);
        }
        uses.push(u);
        q = t;
    }
    Ok((uses, q))
}

/// The token stream of a text, as a specification input.
pub open spec fn source(t: Seq<char>) -> Src {
    Src { cs: t, ts: lex(t) }
}

/// The parser over a source text.
fn parser_of(src: &str) -> (ps: Parser)
    ensures
        ps.wf(),
        ps.src() == source(src@),
{
    let cs = chars_of(src);
    let toks = crate::lexer::tokenize(src);
    Parser { cs, toks }
}

/// Parses a Portrait program: `pragma ...;`, `use ...;` directives and one
/// app. The result is the grammar's program, or an error exactly when the
/// grammar has none.
pub fn parse(src: &str) -> (r: Result<Program, String>)
    ensures
        match g_program(source(src@)) {
            Some(pv) => r is Ok && program_v(r->Ok_0) == pv,
            None => r is Err,
        },
{
    let ps = parser_of(src);
    let q1 = expect_keyword(&ps, 0, "pragma")?;
    let (pragma, q2) = parse_payload(&ps, q1, "expected pragma payload")?;
    let (uses, q3) = parse_uses(&ps, q2)?;
    let (app, q4) = parse_app(&ps, q3)?;
    if q4 < ps.toks.len() {
        return Err(error(&ps, q4, "unexpected trailing tokens after app"));
    }
    Ok(Program { pragma, uses, app })
}

/// Parses a bare `return` expression (no `return` keyword, no `;`): the
/// grammar's return expression of the text followed by `;`, using every
/// token.
pub fn parse_return_expr(src: &str) -> (r: Result<ReturnExpr, String>)
    ensures
        match g_try_return(source(src@ + seq![';']), 0) {
            Some((v, q)) => if q >= lex(src@ + seq![';']).len() {
                r is Ok && return_v(r->Ok_0) == v
            } else {
                r is Err
            },
            None => r is Err,
        },
        r is Err ==> r->Err_0@ == match g_try_return(source(src@ + seq![';']), 0) {
            Some(_) => "trailing tokens after return expression"@,
            None => e_try_return(source(src@ + seq![';']), 0),
        },
{
    let mut with_terminator = String::from_str(src);
    push_char(&mut with_terminator, ';');
    assert(with_terminator@ =~= src@ + seq![';']);
    let ps = parser_of(with_terminator.as_str());
    assert(ps.src() == source(src@ + seq![';']));
    let (ret, q) = try_parse_return(&ps, 0)?;
    if q < ps.toks.len() {
        return Err(String::from_str("trailing tokens after return expression"));
    }
    Ok(ret)
}

/// Parses a bare expression (no `;`): the grammar's expression of the text,
/// using every token.
pub fn parse_expr(src: &str) -> (r: Result<Expr, String>)
    ensures
        match g_expr(source(src@), 0, 0) {
            Some((v, q)) => if q >= lex(src@).len() {
                r is Ok && expr_v(r->Ok_0) == v
            } else {
                r is Err
            },
            None => r is Err,
        },
        r is Err ==> r->Err_0@ == match g_expr(source(src@), 0, 0) {
            Some(_) => "trailing tokens after expression"@,
            None => e_expr(source(src@), 0, 0),
        },
{
    let ps = parser_of(src);
    let (e, q) = parse_expr_at(&ps, 0, 0)?;
    if q < ps.toks.len() {
        return Err(String::from_str("trailing tokens after expression"));
    }
    Ok(e)
}

} // verus!
