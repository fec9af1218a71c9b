//! A small S-expression reader for SMT-LIB documents and solver models:
//! atoms are runs of characters delimited by whitespace and parentheses,
//! and `;` starts a comment that runs to the end of the line.

use vstd::prelude::*;
use crate::lexer::{chars_of, is_white, line_end, lemma_line_end, white};
use crate::render::put;
use crate::text::push_char;

verus! {

broadcast use vstd::seq_lib::group_seq_properties;

/// A parsed S-expression: an atom or a parenthesised list.
#[derive(Debug, PartialEq, Eq)]
pub enum Sexpr {
    Atom(String),
    List(Vec<Sexpr>),
}

/// Model of [`Sexpr`].
pub enum SSx {
    Atom(Seq<char>),
    List(Seq<SSx>),
}

pub open spec fn sx_v(s: Sexpr) -> SSx
    decreases s, 0nat,
{
    match s {
        Sexpr::Atom(a) => SSx::Atom(a@),
        Sexpr::List(items) => SSx::List(sxs_v(items@, items@.len() as int)),
    }
}

/// The models of the first `n` expressions of `s`.
pub open spec fn sxs_v(s: Seq<Sexpr>, n: int) -> Seq<SSx>
    decreases s, n,
{
    if n <= 0 || n > s.len() {
        Seq::empty()
    } else {
        sxs_v(s, n - 1).push(sx_v(s[n - 1]))
    }
}

pub proof fn lemma_sxs_v_push(s: Seq<Sexpr>, e: Sexpr, n: int)
    requires
        0 <= n <= s.len(),
    ensures
        sxs_v(s.push(e), n) == sxs_v(s, n),
    decreases n,
{
    if n > 0 {
        lemma_sxs_v_push(s, e, n - 1);
    }
}

pub proof fn lemma_sxs_v(s: Seq<Sexpr>, n: int)
    requires
        0 <= n <= s.len(),
    ensures
        sxs_v(s, n).len() == n,
        forall|k: int| 0 <= k < n ==> #[trigger] sxs_v(s, n)[k] == sx_v(s[k]),
    decreases n,
{
    if n > 0 {
        lemma_sxs_v(s, n - 1);
    }
}

// ── rendering ───────────────────────────────────────────────────────────

/// The compact rendering: an atom's text, or `(item item ...)`.
pub open spec fn sx_render(s: SSx) -> Seq<char>
    decreases s, 1nat,
{
    match s {
        SSx::Atom(a) => a,
        SSx::List(items) => "("@ + sx_join(items, items.len() as int) + ")"@,
    }
}

/// The renderings of the first `k` items, separated by single spaces.
pub open spec fn sx_join(items: Seq<SSx>, k: int) -> Seq<char>
    decreases items, 0nat, k,
{
    if k <= 0 || k > items.len() {
        seq![]
    } else if k == 1 {
        sx_render(items[0])
    } else {
        sx_join(items, k - 1) + " "@ + sx_render(items[k - 1])
    }
}

impl Sexpr {
    /// Appends the rendering of this expression to `out`.
    #[verifier::loop_isolation(false)]
    fn render_into(&self, out: &mut String)
        ensures
            final(out)@ == old(out)@ + sx_render(sx_v(*self)),
        decreases self,
    {
        match self {
            Sexpr::Atom(a) => put(out, a.as_str()),
            Sexpr::List(items) => {
                put(out, "(");
                let ghost start = out@;
                let ghost iv = sxs_v(items@, items@.len() as int);
                proof {
                    lemma_sxs_v(items@, items@.len() as int);
                }
                let mut i: usize = 0;
                while i < items.len()
                    invariant
                        i <= items.len(),
                        iv == sxs_v(items@, items@.len() as int),
                        iv.len() == items@.len(),
                        forall|k: int| 0 <= k < items@.len() ==> #[trigger] iv[k] == sx_v(items@[k]),
                        out@ == start + sx_join(iv, i as int),
                    decreases items.len() - i,
                {
                    if i > 0 {
                        put(out, " ");
                    }
                    proof {
                        let ghost v: Vec<Sexpr> = *items;
                        assert(decreases_to!(*self => v));
                        assert(decreases_to!(v => v@));
                        assert(decreases_to!(v@ => v@[i as int]));
                    }
                    items[i].render_into(out);
                    i += 1;
                    assert(out@ =~= start + sx_join(iv, i as int));
                }
                put(out, ")");
                assert(out@ =~= old(out)@ + sx_render(sx_v(*self)));
            },
        }
    }

    /// The compact rendering of this expression.
    pub fn render(&self) -> (s: String)
        ensures
            s@ == sx_render(sx_v(*self)),
    {
        let mut out = String::new();
        self.render_into(&mut out);
        assert(out@ =~= sx_render(sx_v(*self)));
        out
    }
}

// ── tokens ──────────────────────────────────────────────────────────────

/// Tokens of the reader.
pub enum SxTok {
    Open,
    Close,
    Atom(Seq<char>),
}

/// The pending atom, if any, as tokens.
pub open spec fn flush(cur: Seq<char>) -> Seq<SxTok> {
    if cur.len() == 0 {
        seq![]
    } else {
        seq![SxTok::Atom(cur)]
    }
}

/// The tokens of `cs` from `i`, with the atom characters `cur` pending.
pub open spec fn sx_lex(cs: Seq<char>, i: int, cur: Seq<char>) -> Seq<SxTok>
    decreases cs.len() + 1 - i,
{
    if i < 0 || i >= cs.len() {
        flush(cur)
    } else if cs[i] == ';' {
        proof {
            lemma_line_end(cs, i + 1);
        }
        flush(cur) + sx_lex(cs, line_end(cs, i + 1) + 1, seq![])
    } else if cs[i] == '(' {
        flush(cur) + seq![SxTok::Open] + sx_lex(cs, i + 1, seq![])
    } else if cs[i] == ')' {
        flush(cur) + seq![SxTok::Close] + sx_lex(cs, i + 1, seq![])
    } else if is_white(cs[i]) {
        flush(cur) + sx_lex(cs, i + 1, seq![])
    } else {
        sx_lex(cs, i + 1, cur.push(cs[i]))
    }
}

/// Executable tokens.
enum Tok {
    Open,
    Close,
    Atom(String),
}

spec fn tok_v(t: Tok) -> SxTok {
    match t {
        Tok::Open => SxTok::Open,
        Tok::Close => SxTok::Close,
        Tok::Atom(a) => SxTok::Atom(a@),
    }
}

spec fn toks_v(ts: Seq<Tok>) -> Seq<SxTok> {
    ts.map_values(|t: Tok| tok_v(t))
}

proof fn lemma_toks_push(ts: Seq<Tok>, t: Tok)
    ensures
        toks_v(ts.push(t)) == toks_v(ts).push(tok_v(t)),
{
    assert(toks_v(ts.push(t)) =~= toks_v(ts).push(tok_v(t)));
}

/// Moves the pending atom, if any, into the tokens.
fn flush_atom(toks: &mut Vec<Tok>, cur: &mut String)
    ensures
        toks_v(final(toks)@) == toks_v(old(toks)@) + flush(old(cur)@),
        final(cur)@ == Seq::<char>::empty(),
{
    if cur.as_str().is_empty() {
        assert(toks_v(toks@) =~= toks_v(old(toks)@) + flush(old(cur)@));
        *cur = String::new();
    } else {
        let mut a = String::new();
        std::mem::swap(&mut a, cur);
        proof {
            lemma_toks_push(toks@, Tok::Atom(a));
        }
        toks.push(Tok::Atom(a));
        assert(toks_v(toks@) =~= toks_v(old(toks)@) + flush(old(cur)@));
    }
}

/// The tokens of `cs`.
fn tokenize(cs: &Vec<char>) -> (r: Vec<Tok>)
    ensures
        toks_v(r@) == sx_lex(cs@, 0, seq![]),
{
    let mut toks: Vec<Tok> = Vec::new();
    let mut cur = String::new();
    let mut i: usize = 0;
    assert(toks_v(toks@) =~= seq![]);
    while i < cs.len()
        invariant
            i <= cs.len(),
            toks_v(toks@) + sx_lex(cs@, i as int, cur@) == sx_lex(cs@, 0, seq![]),
        decreases cs.len() - i,
    {
        let c = cs[i];
        let ghost t0 = toks_v(toks@);
        let ghost c0 = cur@;
        if c == ';' {
            flush_atom(&mut toks, &mut cur);
            let mut j = i + 1;
            while j < cs.len() && cs[j] != '\n'
                invariant
                    i < j <= cs.len(),
                    line_end(cs@, i + 1) == line_end(cs@, j as int),
                decreases cs.len() - j,
            {
                j += 1;
            }
            proof {
                lemma_line_end(cs@, i + 1);
                assert(t0 + flush(c0) + sx_lex(cs@, j + 1, seq![]) =~= t0 + (flush(c0) + sx_lex(
                    cs@,
                    j + 1,
                    seq![],
                )));
            }
            i = if j < cs.len() {
                j + 1
            } else {
                j
            };
            proof {
                if i == cs.len() {
                    assert(sx_lex(cs@, i as int, cur@) == sx_lex(cs@, cs.len() + 1, seq![]));
                }
            }
        } else if c == '(' || c == ')' {
            flush_atom(&mut toks, &mut cur);
            let t = if c == '(' {
                Tok::Open
            } else {
                Tok::Close
            };
            proof {
                lemma_toks_push(toks@, t);
            }
            toks.push(t);
            proof {
                assert(t0 + (flush(c0) + seq![tok_v(t)] + sx_lex(cs@, i + 1, seq![])) =~= toks_v(
                    toks@,
                ) + sx_lex(cs@, i + 1, seq![]));
            }
            i += 1;
        } else if white(c) {
            flush_atom(&mut toks, &mut cur);
            proof {
                assert(t0 + (flush(c0) + sx_lex(cs@, i + 1, seq![])) =~= toks_v(toks@) + sx_lex(
                    cs@,
                    i + 1,
                    seq![],
                ));
            }
            i += 1;
        } else {
            push_char(&mut cur, c);
            i += 1;
        }
    }
    let ghost t0 = toks_v(toks@);
    let ghost c0 = cur@;
    flush_atom(&mut toks, &mut cur);
    assert(toks_v(toks@) =~= t0 + flush(c0));
    toks
}

// ── parsing ─────────────────────────────────────────────────────────────

/// One expression at `p`, and the position after it; else the error.
pub open spec fn sx_one(ts: Seq<SxTok>, p: int) -> Result<(SSx, int), Seq<char>>
    decreases ts.len() - p, 0nat,
{
    if p < 0 || p >= ts.len() {
        Err("unexpected end of input"@)
    } else {
        match ts[p] {
            SxTok::Atom(a) => Ok((SSx::Atom(a), p + 1)),
            SxTok::Close => Err("unexpected ')' in S-expression"@),
            SxTok::Open => sx_items(ts, p + 1, seq![]),
        }
    }
}

/// List items from `p` up to and including the closing `)`, appended to
/// `acc`; else the error.
pub open spec fn sx_items(ts: Seq<SxTok>, p: int, acc: Seq<SSx>) -> Result<(SSx, int), Seq<char>>
    decreases ts.len() - p, 1nat,
{
    if p < 0 || p >= ts.len() {
        Err("unterminated '(' in S-expression"@)
    } else if ts[p] is Close {
        Ok((SSx::List(acc), p + 1))
    } else {
        match sx_one(ts, p) {
            Ok((e, q)) => if p < q <= ts.len() {
                sx_items(ts, q, acc.push(e))
            } else {
                Err("unterminated '(' in S-expression"@)
            },
            Err(m) => Err(m),
        }
    }
}

/// Every top-level expression from `p`, appended to `acc`; else the first
/// error.
pub open spec fn sx_all(ts: Seq<SxTok>, p: int, acc: Seq<SSx>) -> Result<Seq<SSx>, Seq<char>>
    decreases ts.len() - p,
{
    if p < 0 || p >= ts.len() {
        Ok(acc)
    } else {
        match sx_one(ts, p) {
            Ok((e, q)) => if p < q <= ts.len() {
                sx_all(ts, q, acc.push(e))
            } else {
                Err("unexpected end of input"@)
            },
            Err(m) => Err(m),
        }
    }
}

/// One expression at `p`.
fn parse_one(ts: &Vec<Tok>, p: usize) -> (r: Result<(Sexpr, usize), String>)
    requires
        p <= ts.len(),
    ensures
        match sx_one(toks_v(ts@), p as int) {
            Ok((v, q)) => r is Ok && sx_v(r->Ok_0.0) == v && r->Ok_0.1 == q,
            Err(m) => r is Err && r->Err_0@ == m,
        },
        r is Ok ==> p < r->Ok_0.1 <= ts.len(),
    decreases ts.len() - p, 0nat,
{
    if p >= ts.len() {
        return Err(String::from_str("unexpected end of input"));
    }
    assert(toks_v(ts@)[p as int] == tok_v(ts@[p as int]));
    match &ts[p] {
        Tok::Atom(a) => Ok((Sexpr::Atom(a.clone()), p + 1)),
        Tok::Close => Err(String::from_str("unexpected ')' in S-expression")),
        Tok::Open => parse_items(ts, p + 1),
    }
}

/// List items from `p` through the closing `)`.
fn parse_items(ts: &Vec<Tok>, p: usize) -> (r: Result<(Sexpr, usize), String>)
    requires
        p <= ts.len(),
    ensures
        match sx_items(toks_v(ts@), p as int, seq![]) {
            Ok((v, q)) => r is Ok && sx_v(r->Ok_0.0) == v && r->Ok_0.1 == q,
            Err(m) => r is Err && r->Err_0@ == m,
        },
        r is Ok ==> p < r->Ok_0.1 <= ts.len(),
    decreases ts.len() - p, 1nat,
{
    let mut items: Vec<Sexpr> = Vec::new();
    let mut q = p;
    loop
        invariant
            p <= q <= ts.len(),
            sx_items(toks_v(ts@), p as int, seq![]) == sx_items(
                toks_v(ts@),
                q as int,
                sxs_v(items@, items@.len() as int),
            ),
        decreases ts.len() - q,
    {
        if q >= ts.len() {
            return Err(String::from_str("unterminated '(' in S-expression"));
        }
        assert(toks_v(ts@)[q as int] == tok_v(ts@[q as int]));
        match &ts[q] {
            Tok::Close => {
                return Ok((Sexpr::List(items), q + 1));
            },
            _ => {},
        }
        let (e, next) = parse_one(ts, q)?;
        proof {
            lemma_sxs_v_push(items@, e, items@.len() as int);
        }
        items.push(e);
        q = next;
    }
}

/// Every top-level S-expression of `input`, comments skipped. An error for
/// an unbalanced `)` or an unterminated `(`.
pub fn parse_all(input: &str) -> (r: Result<Vec<Sexpr>, String>)
    ensures
        match sx_all(sx_lex(input@, 0, seq![]), 0, seq![]) {
            Ok(v) => r is Ok && sxs_v(r->Ok_0@, r->Ok_0@.len() as int) == v,
            Err(m) => r is Err && r->Err_0@ == m,
        },
{
    let cs = chars_of(input);
    let ts = tokenize(&cs);
    let mut out: Vec<Sexpr> = Vec::new();
    let mut pos: usize = 0;
    while pos < ts.len()
        invariant
            pos <= ts.len(),
            toks_v(ts@) == sx_lex(input@, 0, seq![]),
            sx_all(toks_v(ts@), 0, seq![]) == sx_all(
                toks_v(ts@),
                pos as int,
                sxs_v(out@, out@.len() as int),
            ),
        decreases ts.len() - pos,
    {
        let (e, next) = parse_one(&ts, pos)?;
        proof {
            lemma_sxs_v_push(out@, e, out@.len() as int);
        }
        out.push(e);
        pos = next;
    }
    Ok(out)
}


// ── reading back a rendering ────────────────────────────────────────────

/// A character that ends an atom.
pub open spec fn sx_delim(c: char) -> bool {
    c == '(' || c == ')' || c == ';' || is_white(c)
}

/// Every atom of `s` is non-empty and free of delimiters: what the reader
/// produces.
pub open spec fn sx_wf(s: SSx) -> bool
    decreases s,
{
    match s {
        SSx::Atom(a) => a.len() > 0 && forall|i: int| 0 <= i < a.len() ==> !sx_delim(#[trigger] a[i]),
        SSx::List(items) => forall|i: int| 0 <= i < items.len() ==> sx_wf(#[trigger] items[i]),
    }
}

/// The tokens of an expression.
pub open spec fn sx_toks(s: SSx) -> Seq<SxTok>
    decreases s, 1nat,
{
    match s {
        SSx::Atom(a) => seq![SxTok::Atom(a)],
        SSx::List(items) => seq![SxTok::Open] + toks_of(items, items.len() as int) + seq![SxTok::Close],
    }
}

/// The tokens of the first `k` items.
pub open spec fn toks_of(items: Seq<SSx>, k: int) -> Seq<SxTok>
    decreases items, 0nat, k,
{
    if k <= 0 || k > items.len() {
        seq![]
    } else {
        toks_of(items, k - 1) + sx_toks(items[k - 1])
    }
}

/// Text that an atom cannot continue into: empty, or starting with a
/// parenthesis or white space.
pub open spec fn sx_boundary(y: Seq<char>) -> bool {
    y.len() == 0 || y[0] == '(' || y[0] == ')' || is_white(y[0])
}

proof fn lemma_line_end_shift(x: Seq<char>, y: Seq<char>, j: int)
    requires
        0 <= j,
    ensures
        line_end(x + y, x.len() + j) == x.len() + line_end(y, j),
    decreases y.len() - j,
{
    if j < y.len() {
        assert((x + y)[x.len() + j] == y[j]);
        if y[j] != '\n' {
            lemma_line_end_shift(x, y, j + 1);
        }
    }
}

/// Lexing from inside `y` does not depend on what precedes it.
proof fn lemma_lex_shift(x: Seq<char>, y: Seq<char>, j: int, c: Seq<char>)
    requires
        0 <= j,
    ensures
        sx_lex(x + y, x.len() + j, c) == sx_lex(y, j, c),
    decreases y.len() + 1 - j,
{
    if j < y.len() {
        assert((x + y)[x.len() + j] == y[j]);
        if y[j] == ';' {
            lemma_line_end_shift(x, y, j + 1);
            lemma_line_end(y, j + 1);
            lemma_lex_shift(x, y, line_end(y, j + 1) + 1, seq![]);
        } else if y[j] == '(' || y[j] == ')' || is_white(y[j]) {
            lemma_lex_shift(x, y, j + 1, seq![]);
        } else {
            lemma_lex_shift(x, y, j + 1, c.push(y[j]));
        }
    }
}

/// At a boundary, the pending atom is flushed first.
proof fn lemma_lex_boundary(y: Seq<char>, c: Seq<char>)
    requires
        sx_boundary(y),
    ensures
        sx_lex(y, 0, c) == flush(c) + sx_lex(y, 0, seq![]),
{
    assert(flush(seq![]) =~= Seq::<SxTok>::empty());
    if y.len() == 0 {
        assert(flush(c) + Seq::<SxTok>::empty() =~= flush(c));
    } else if y[0] == '(' {
        assert(flush(c) + seq![SxTok::Open] + sx_lex(y, 1, seq![]) =~= flush(c) + (flush(seq![]) + seq![SxTok::Open]
            + sx_lex(y, 1, seq![])));
    } else if y[0] == ')' {
        assert(flush(c) + seq![SxTok::Close] + sx_lex(y, 1, seq![]) =~= flush(c) + (flush(seq![]) + seq![SxTok::Close]
            + sx_lex(y, 1, seq![])));
    } else {
        assert(flush(c) + sx_lex(y, 1, seq![]) =~= flush(c) + (flush(seq![]) + sx_lex(y, 1, seq![])));
    }
}

/// The characters of an atom accumulate.
proof fn lemma_lex_atom(a: Seq<char>, y: Seq<char>, i: int, c: Seq<char>)
    requires
        0 <= i <= a.len(),
        forall|k: int| 0 <= k < a.len() ==> !sx_delim(#[trigger] a[k]),
    ensures
        sx_lex(a + y, i, c) == sx_lex(a + y, a.len() as int, c + a.subrange(i, a.len() as int)),
    decreases a.len() - i,
{
    if i < a.len() {
        assert((a + y)[i] == a[i]);
        assert(!sx_delim(a[i]));
        lemma_lex_atom(a, y, i + 1, c.push(a[i]));
        assert(c.push(a[i]) + a.subrange(i + 1, a.len() as int) =~= c + a.subrange(i, a.len() as int));
    } else {
        assert(c + a.subrange(i, a.len() as int) =~= c);
    }
}

/// Lexing a well-formed rendering followed by a boundary gives its tokens.
proof fn lemma_lex_render(s: SSx, y: Seq<char>)
    requires
        sx_wf(s),
        sx_boundary(y),
    ensures
        sx_lex(sx_render(s) + y, 0, seq![]) == sx_toks(s) + sx_lex(y, 0, seq![]),
    decreases s, 1nat,
{
    match s {
        SSx::Atom(a) => {
            lemma_lex_atom(a, y, 0, seq![]);
            assert(Seq::<char>::empty() + a.subrange(0, a.len() as int) =~= a);
            lemma_lex_shift(a, y, 0, a);
            assert(a + y == a + y);
            lemma_lex_boundary(y, a);
        },
        SSx::List(items) => {
            let n = items.len() as int;
            let jn = sx_join(items, n);
            let t = sx_render(s) + y;
            let z = ")"@ + y;
            reveal_strlit("(");
            reveal_strlit(")");
            assert(t =~= "("@ + (jn + z));
            assert(t[0] == '(');
            assert(sx_lex(t, 0, seq![]) =~= seq![SxTok::Open] + sx_lex(t, 1, seq![]));
            lemma_lex_shift("("@, jn + z, 0, seq![]);
            assert(z[0] == ')');
            lemma_lex_join(items, n, z);
            assert(sx_lex(z, 0, seq![]) =~= seq![SxTok::Close] + sx_lex(z, 1, seq![]));
            lemma_lex_shift(")"@, y, 0, seq![]);
            assert(sx_lex(t, 0, seq![]) =~= sx_toks(s) + sx_lex(y, 0, seq![]));
        },
    }
}

/// Lexing the joined renderings of well-formed items, followed by a
/// boundary, gives their tokens.
proof fn lemma_lex_join(items: Seq<SSx>, k: int, z: Seq<char>)
    requires
        0 <= k <= items.len(),
        forall|i: int| 0 <= i < items.len() ==> sx_wf(#[trigger] items[i]),
        sx_boundary(z),
    ensures
        sx_lex(sx_join(items, k) + z, 0, seq![]) == toks_of(items, k) + sx_lex(z, 0, seq![]),
    decreases items, 0nat, k,
{
    if k == 0 {
        assert(sx_join(items, 0) + z =~= z);
        assert(toks_of(items, 0) + sx_lex(z, 0, seq![]) =~= sx_lex(z, 0, seq![]));
    } else if k == 1 {
        lemma_lex_render(items[0], z);
        assert(toks_of(items, 0) =~= Seq::<SxTok>::empty());
        assert(toks_of(items, 1) =~= sx_toks(items[0]));
    } else {
        let r = sx_render(items[k - 1]);
        let w = " "@ + r + z;
        reveal_strlit(" ");
        assert(w[0] == ' ');
        assert(is_white(' '));
        lemma_lex_join(items, k - 1, w);
        assert(sx_join(items, k) + z =~= sx_join(items, k - 1) + w);
        assert(sx_lex(w, 0, seq![]) =~= sx_lex(w, 1, seq![]));
        lemma_lex_shift(" "@, r + z, 0, seq![]);
        assert(w =~= " "@ + (r + z));
        lemma_lex_render(items[k - 1], z);
        assert(toks_of(items, k - 1) + (sx_toks(items[k - 1]) + sx_lex(z, 0, seq![])) =~= toks_of(items, k)
            + sx_lex(z, 0, seq![]));
    }
}

/// Reading the tokens of a well-formed expression at `p` gives it back.
proof fn lemma_read_toks(s: SSx, ts: Seq<SxTok>, p: int)
    requires
        sx_wf(s),
        0 <= p,
        p + sx_toks(s).len() <= ts.len(),
        ts.subrange(p, p + sx_toks(s).len()) == sx_toks(s),
    ensures
        sx_one(ts, p) == Ok::<(SSx, int), Seq<char>>((s, p + sx_toks(s).len())),
    decreases s, 1nat,
{
    assert(ts[p] == sx_toks(s)[0]);
    match s {
        SSx::Atom(a) => {},
        SSx::List(items) => {
            let n = items.len() as int;
            let tt = toks_of(items, n);
            let st = sx_toks(s);
            let l = st.len();
            assert(st == seq![SxTok::Open] + tt + seq![SxTok::Close]);
            assert forall|i: int| 0 <= i < tt.len() implies #[trigger] ts.subrange(p + 1, p + 1 + tt.len())[i] == tt[i] by {
                assert(ts.subrange(p, p + l)[1 + i] == ts[p + 1 + i]);
                assert(st[1 + i] == tt[i]);
            }
            assert(ts.subrange(p + 1, p + 1 + tt.len()) =~= tt);
            assert(ts.subrange(p, p + l)[1 + tt.len() as int] == ts[p + 1 + tt.len() as int]);
            assert(st[1 + tt.len() as int] == SxTok::Close);
            lemma_read_items(items, n, ts, p + 1, seq![]);
            let q = p + 1 + toks_of(items, n).len();
            assert(ts[q] == sx_toks(s)[q - p]);
            assert(seq![] + items.subrange(0, n) =~= items);
        },
    }
}

/// Reading the tokens of the first `k` items, then a `)`, closes the list.
proof fn lemma_read_items(items: Seq<SSx>, k: int, ts: Seq<SxTok>, p: int, acc: Seq<SSx>)
    requires
        0 <= k <= items.len(),
        forall|i: int| 0 <= i < items.len() ==> sx_wf(#[trigger] items[i]),
        0 <= p,
        p + toks_of(items, k).len() < ts.len(),
        ts.subrange(p, p + toks_of(items, k).len()) == toks_of(items, k),
        ts[p + toks_of(items, k).len()] is Close,
    ensures
        sx_items(ts, p, acc) == Ok::<(SSx, int), Seq<char>>((SSx::List(acc + items.subrange(0, k)), p + toks_of(items, k).len() + 1)),
    decreases items, 0nat, k,
{
    if k == 0 {
        assert(acc + items.subrange(0, 0) =~= acc);
    } else {
        // the first item comes first in the tokens
        lemma_toks_of_first(items, k);
        let t0 = sx_toks(items[0]);
        let rest = items.subrange(1, items.len() as int);
        assert(t0.len() > 0) by {
            lemma_toks_nonempty(items[0]);
        }
        assert(ts.subrange(p, p + t0.len()) =~= t0) by {
            assert(toks_of(items, k) == t0 + toks_of(rest, k - 1));
            assert(ts.subrange(p, p + t0.len()) =~= toks_of(items, k).subrange(0, t0.len() as int));
        }
        assert(!(ts[p] is Close)) by {
            assert(ts[p] == t0[0]);
            lemma_toks_nonempty(items[0]);
        }
        lemma_read_toks(items[0], ts, p);
        let q = p + t0.len();
        assert(ts.subrange(q, q + toks_of(rest, k - 1).len()) =~= toks_of(rest, k - 1)) by {
            assert(toks_of(items, k) == t0 + toks_of(rest, k - 1));
            assert(ts.subrange(q, q + toks_of(rest, k - 1).len()) =~= toks_of(items, k).subrange(
                t0.len() as int,
                toks_of(items, k).len() as int,
            ));
        }
        assert forall|i: int| 0 <= i < rest.len() implies sx_wf(#[trigger] rest[i]) by {
            assert(rest[i] == items[i + 1]);
        }
        lemma_read_items(rest, k - 1, ts, q, acc.push(items[0]));
        assert(acc.push(items[0]) + rest.subrange(0, k - 1) =~= acc + items.subrange(0, k));
    }
}

/// The tokens of an expression are not empty and do not start with `)`.
proof fn lemma_toks_nonempty(s: SSx)
    ensures
        sx_toks(s).len() > 0,
        !(sx_toks(s)[0] is Close),
{
    match s {
        SSx::Atom(a) => {},
        SSx::List(items) => {},
    }
}

/// The tokens of the first `k` items: those of the first item, then those
/// of the next `k - 1`.
proof fn lemma_toks_of_first(items: Seq<SSx>, k: int)
    requires
        1 <= k <= items.len(),
    ensures
        toks_of(items, k) == sx_toks(items[0]) + toks_of(items.subrange(1, items.len() as int), k - 1),
    decreases k,
{
    let rest = items.subrange(1, items.len() as int);
    if k == 1 {
        assert(toks_of(items, 0) =~= Seq::<SxTok>::empty());
        assert(toks_of(items, 1) =~= sx_toks(items[0]));
        assert(toks_of(rest, 0) =~= Seq::<SxTok>::empty());
        assert(sx_toks(items[0]) + Seq::<SxTok>::empty() =~= sx_toks(items[0]));
    } else {
        lemma_toks_of_first(items, k - 1);
        assert(rest[k - 2] == items[k - 1]);
        assert(toks_of(items, k) =~= sx_toks(items[0]) + toks_of(rest, k - 1));
    }
}

/// Reading back the rendering of an expression the reader could have
/// produced (non-empty atoms free of parentheses, `;` and white space)
/// gives the expression again, alone.
pub proof fn law_read_render(s: SSx)
    requires
        sx_wf(s),
    ensures
        sx_all(sx_lex(sx_render(s), 0, seq![]), 0, seq![]) == Ok::<Seq<SSx>, Seq<char>>(seq![s]),
{
    reveal_with_fuel(sx_all, 2);
    let e = Seq::<char>::empty();
    lemma_lex_render(s, e);
    assert(sx_render(s) + e =~= sx_render(s));
    assert(sx_lex(e, 0, seq![]) =~= Seq::<SxTok>::empty());
    let ts = sx_toks(s);
    assert(sx_lex(sx_render(s), 0, seq![]) =~= ts);
    assert(ts.subrange(0, ts.len() as int) =~= ts);
    lemma_read_toks(s, ts, 0);
    lemma_toks_nonempty(s);
    assert(seq![].push(s) =~= seq![s]);
}

} // verus!
