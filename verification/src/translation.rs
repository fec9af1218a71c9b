//! A structural check of an emitted `.sil` script against the program it was
//! emitted from. For each transition entrypoint, every model guard must
//! reappear as a `require(...)` of the matching `function` block, and the
//! model and the script must agree on every value-bearing field write, in
//! both directions; a duplicate or missing block is a divergence too. The
//! script's comments are blanked first. Comparison is modulo a fixed
//! syntactic normalisation; this is no semantic refinement proof.

use vstd::prelude::*;
use crate::lexer::{chars_of, is_white, string_of, utf8_char_len, white};
use crate::parser::{parse_expr, source};
use crate::grammar::g_expr;
use crate::lexer::lex;
use crate::render::render;
use crate::model::SExpr;
use crate::text::{alphanumeric, is_alphanumeric, push_char};
use crate::solve::trim;
use crate::ast::{CovenantMode, Entry, Program, Role, Stmt};
use crate::clauses::first_object;
use crate::lookup::{is_value_bearing_split, value_bearing_split};
use crate::model::{entry_v, expr_v, field_v, pairs_v, program_v, role_v, stmt_v, strs_v, SEntry, SProgram, SRole, SStmt, SApp};
use crate::ast::Expr;
use crate::text::str_eq;
use crate::render::put as put_text;
use crate::vc::object_return_fields;
use vstd::utf8::encode_scalar;

verus! {

broadcast use vstd::seq_lib::group_seq_properties;

/// The footer of every translation report: what the check is, and is not.
pub const TRANSLATION_STRUCTURAL_FOOTER: &'static str =
    "STRUCTURAL correspondence between the Portrait MODEL and the emitted .sil (catches a dropped guard, or a value-bearing write added/altered/dropped between model and .sil); NOT a semantic refinement proof — it does NOT establish behavioural equivalence (that needs a .sil semantics + an SMT refinement obligation). pre-production, unaudited, testnet-only.";

// ── comments ────────────────────────────────────────────────────────────

/// One space per UTF-8 byte of `c`.
pub open spec fn blank(c: char) -> Seq<char> {
    Seq::new(encode_scalar(c as u32).len(), |k: int| ' ')
}

/// The text from `i` on outside any comment: a `//` comment becomes one
/// space per byte up to its newline, a `/* */` comment one space per byte
/// except its newlines.
pub open spec fn strip_from(s: Seq<char>, i: int) -> Seq<char>
    decreases s.len() - i, 1nat,
{
    if i < 0 || i >= s.len() {
        seq![]
    } else if s[i] == '/' && i + 1 < s.len() && s[i + 1] == '/' {
        line_blank(s, i)
    } else if s[i] == '/' && i + 1 < s.len() && s[i + 1] == '*' {
        seq![' ', ' '] + block_from(s, i + 2)
    } else {
        seq![s[i]] + strip_from(s, i + 1)
    }
}

/// Only spaces and newlines.
pub open spec fn blank_only(w: Seq<char>) -> bool {
    forall|k: int| 0 <= k < w.len() ==> w[k] == ' ' || w[k] == '\n'
}

proof fn lemma_blank_only_blank(c: char)
    ensures
        blank_only(blank(c)),
{
}

proof fn lemma_blank_only_cat(a: Seq<char>, b: Seq<char>)
    requires
        blank_only(a),
        blank_only(b),
    ensures
        blank_only(a + b),
{
    assert forall|k: int| 0 <= k < (a + b).len() implies (a + b)[k] == ' ' || (a + b)[k] == '\n' by {
        if k < a.len() {
            assert((a + b)[k] == a[k]);
        } else {
            assert((a + b)[k] == b[k - a.len()]);
        }
    }
}

/// Blanking from inside `y` does not depend on what precedes it.
proof fn lemma_strip_shift(x: Seq<char>, y: Seq<char>, j: int)
    requires
        0 <= j,
    ensures
        strip_from(x + y, x.len() + j) == strip_from(y, j),
        line_blank(x + y, x.len() + j) == line_blank(y, j),
        block_from(x + y, x.len() + j) == block_from(y, j),
    decreases y.len() - j,
{
    let t = x + y;
    if j < y.len() {
        assert(t[x.len() + j] == y[j]);
        if j + 1 < y.len() {
            assert(t[x.len() + j + 1int] == y[j + 1]);
        }
        lemma_strip_shift(x, y, j + 1);
        if j + 2 <= y.len() {
            lemma_strip_shift(x, y, j + 2);
        }
        assert(line_blank(t, x.len() + j) == line_blank(y, j));
        assert(block_from(t, x.len() + j) == block_from(y, j));
        if y[j] == '/' && j + 1 < y.len() && y[j + 1] == '/' {
            assert(strip_from(t, x.len() + j) == line_blank(t, x.len() + j));
        } else if y[j] == '/' && j + 1 < y.len() && y[j + 1] == '*' {
            assert(strip_from(t, x.len() + j) == seq![' ', ' '] + block_from(t, x.len() + j + 2));
        } else {
            assert(strip_from(t, x.len() + j) == seq![y[j]] + strip_from(t, x.len() + j + 1));
        }
    }
}

/// A stretch free of `/` is kept as it is.
proof fn lemma_strip_plain(a: Seq<char>, y: Seq<char>, i: int)
    requires
        0 <= i <= a.len(),
        forall|k: int| 0 <= k < a.len() ==> #[trigger] a[k] != '/',
    ensures
        strip_from(a + y, i) == a.subrange(i, a.len() as int) + strip_from(a + y, a.len() as int),
    decreases a.len() - i,
{
    if i < a.len() {
        assert((a + y)[i] == a[i]);
        lemma_strip_plain(a, y, i + 1);
        assert(seq![a[i]] + (a.subrange(i + 1, a.len() as int) + strip_from(a + y, a.len() as int)) =~= a.subrange(
            i,
            a.len() as int,
        ) + strip_from(a + y, a.len() as int));
    } else {
        assert(a.subrange(i, a.len() as int) + strip_from(a + y, a.len() as int) =~= strip_from(a + y, a.len() as int));
    }
}

/// Inside a block comment that closes at the end of `c`: only blanks up to
/// the close, then the text after it.
proof fn lemma_block_inside(c: Seq<char>, y: Seq<char>, i: int)
    requires
        0 <= i <= c.len(),
        forall|k: int| 0 <= k < c.len() - 1 ==> !(#[trigger] c[k] == '*' && c[k + 1] == '/'),
    ensures
        exists|w: Seq<char>|
            #[trigger] blank_only(w) && block_from(c + ("*/"@ + y), i) == w + strip_from(c + ("*/"@ + y), (c.len() + 2) as int),
    decreases c.len() - i,
{
    reveal_strlit("*/");
    let t = c + ("*/"@ + y);
    assert(t[c.len() as int] == '*' && t[c.len() + 1int] == '/');
    if i == c.len() {
        let w = seq![' ', ' '];
        assert(blank_only(w));
        assert(block_from(t, i) == w + strip_from(t, (c.len() + 2) as int));
    } else {
        assert(t[i] == c[i]);
        if i + 1 < c.len() {
            assert(t[i + 1] == c[i + 1]);
        } else {
            assert(t[i + 1] == '*');
        }
        lemma_block_inside(c, y, i + 1);
        let w1 = choose|w: Seq<char>|
            blank_only(w) && block_from(t, i + 1) == w + strip_from(t, (c.len() + 2) as int);
        let h = if t[i] == '\n' { seq!['\n'] } else { blank(t[i]) };
        lemma_blank_only_blank(t[i]);
        assert(blank_only(h));
        lemma_blank_only_cat(h, w1);
        assert(block_from(t, i) == h + block_from(t, i + 1));
        assert(block_from(t, i) =~= (h + w1) + strip_from(t, (c.len() + 2) as int));
    }
}

/// Text inside a `/* ... */` comment contributes nothing to the scanned
/// script: where the text before the comment holds no `/`, the blanked
/// script is that text, then only spaces and newlines for the whole
/// comment, then the blanked text after it.
pub proof fn law_block_comment_is_blank(a: Seq<char>, c: Seq<char>, b: Seq<char>)
    requires
        forall|k: int| 0 <= k < a.len() ==> #[trigger] a[k] != '/',
        forall|k: int| 0 <= k < c.len() - 1 ==> !(#[trigger] c[k] == '*' && c[k + 1] == '/'),
    ensures
        exists|w: Seq<char>|
            #[trigger] blank_only(w) && strip_from(a + ("/*"@ + (c + ("*/"@ + b))), 0) == a + w + strip_from(b, 0),
{
    reveal_strlit("/*");
    reveal_strlit("*/");
    let rest = "/*"@ + (c + ("*/"@ + b));
    let s = a + rest;
    lemma_strip_plain(a, rest, 0);
    assert(a.subrange(0, a.len() as int) =~= a);
    lemma_strip_shift(a, rest, 0);
    assert(rest[0] == '/' && rest[1] == '*');
    assert(strip_from(rest, 0) == seq![' ', ' '] + block_from(rest, 2));
    lemma_strip_shift("/*"@, c + ("*/"@ + b), 0);
    lemma_block_inside(c, b, 0);
    let t = c + ("*/"@ + b);
    let w1 = choose|w: Seq<char>| blank_only(w) && block_from(t, 0) == w + strip_from(t, (c.len() + 2) as int);
    lemma_strip_shift(c + "*/"@, b, 0);
    assert(t =~= (c + "*/"@) + b);
    assert(strip_from(t, (c.len() + 2) as int) == strip_from(b, 0));
    let w = seq![' ', ' '] + w1;
    assert(blank_only(seq![' ', ' ']));
    lemma_blank_only_cat(seq![' ', ' '], w1);
    assert(strip_from(s, 0) =~= a + w + strip_from(b, 0));
}

/// Inside a line comment that ends at the end of `c`: only blanks up to the
/// newline, the newline, then the text after it.
proof fn lemma_line_inside(c: Seq<char>, y: Seq<char>, i: int)
    requires
        0 <= i <= c.len(),
        forall|k: int| 0 <= k < c.len() ==> #[trigger] c[k] != '\n',
    ensures
        exists|w: Seq<char>|
            #[trigger] blank_only(w) && line_blank(c + ("\n"@ + y), i) == w + ("\n"@ + strip_from(
                c + ("\n"@ + y),
                (c.len() + 1) as int,
            )),
    decreases c.len() - i,
{
    reveal_strlit("\n");
    let t = c + ("\n"@ + y);
    assert(t[c.len() as int] == '\n');
    if i == c.len() {
        let w = Seq::<char>::empty();
        assert(blank_only(w));
        assert(line_blank(t, i) =~= w + ("\n"@ + strip_from(t, (c.len() + 1) as int)));
    } else {
        assert(t[i] == c[i]);
        lemma_line_inside(c, y, i + 1);
        let w1 = choose|w: Seq<char>|
            blank_only(w) && line_blank(t, i + 1) == w + ("\n"@ + strip_from(t, (c.len() + 1) as int));
        lemma_blank_only_blank(t[i]);
        lemma_blank_only_cat(blank(t[i]), w1);
        assert(line_blank(t, i) == blank(t[i]) + line_blank(t, i + 1));
        assert(line_blank(t, i) =~= (blank(t[i]) + w1) + ("\n"@ + strip_from(t, (c.len() + 1) as int)));
    }
}

/// Text inside a `//` comment contributes nothing to the scanned script:
/// where the text before the comment holds no `/` and the comment runs to a
/// newline, the blanked script is that text, then only spaces for the
/// comment, the newline, then the blanked text after it.
pub proof fn law_line_comment_is_blank(a: Seq<char>, c: Seq<char>, b: Seq<char>)
    requires
        forall|k: int| 0 <= k < a.len() ==> #[trigger] a[k] != '/',
        forall|k: int| 0 <= k < c.len() ==> #[trigger] c[k] != '\n',
    ensures
        exists|w: Seq<char>|
            #[trigger] blank_only(w) && strip_from(a + ("//"@ + (c + ("\n"@ + b))), 0) == a + w + ("\n"@
                + strip_from(b, 0)),
{
    reveal_strlit("//");
    reveal_strlit("\n");
    let t = c + ("\n"@ + b);
    let rest = "//"@ + t;
    let s = a + rest;
    lemma_strip_plain(a, rest, 0);
    assert(a.subrange(0, a.len() as int) =~= a);
    lemma_strip_shift(a, rest, 0);
    assert(rest[0] == '/' && rest[1] == '/');
    assert(strip_from(rest, 0) == line_blank(rest, 0));
    assert(line_blank(rest, 0) == blank('/') + line_blank(rest, 1));
    assert(line_blank(rest, 1) == blank('/') + line_blank(rest, 2));
    lemma_strip_shift("//"@, t, 0);
    lemma_line_inside(c, b, 0);
    let w1 = choose|w: Seq<char>| blank_only(w) && line_blank(t, 0) == w + ("\n"@ + strip_from(t, (c.len() + 1) as int));
    lemma_strip_shift(c + "\n"@, b, 0);
    assert(t =~= (c + "\n"@) + b);
    assert(strip_from(t, (c.len() + 1) as int) == strip_from(b, 0));
    lemma_blank_only_blank('/');
    lemma_blank_only_cat(blank('/'), blank('/'));
    lemma_blank_only_cat(blank('/') + blank('/'), w1);
    let w = (blank('/') + blank('/')) + w1;
    assert(strip_from(s, 0) =~= a + w + ("\n"@ + strip_from(b, 0)));
}

/// A `//` comment from `i` on, blanked up to its newline, then the rest.
pub open spec fn line_blank(s: Seq<char>, i: int) -> Seq<char>
    decreases s.len() - i, 0nat,
{
    if i < 0 || i >= s.len() {
        seq![]
    } else if s[i] == '\n' {
        seq!['\n'] + strip_from(s, i + 1)
    } else {
        blank(s[i]) + line_blank(s, i + 1)
    }
}

/// The inside of a `/* */` comment from `i` on, then the rest.
pub open spec fn block_from(s: Seq<char>, i: int) -> Seq<char>
    decreases s.len() - i, 0nat,
{
    if i < 0 || i >= s.len() {
        seq![]
    } else if s[i] == '*' && i + 1 < s.len() && s[i + 1] == '/' {
        seq![' ', ' '] + strip_from(s, i + 2)
    } else {
        (if s[i] == '\n' { seq!['\n'] } else { blank(s[i]) }) + block_from(s, i + 1)
    }
}

fn push_blank(out: &mut Vec<char>, c: char)
    ensures
        final(out)@ == old(out)@ + blank(c),
{
    let n = utf8_char_len(c);
    let ghost start = out@;
    let mut k: usize = 0;
    while k < n
        invariant
            k <= n,
            n == encode_scalar(c as u32).len(),
            out@ == start + Seq::new(k as nat, |j: int| ' '),
        decreases n - k,
    {
        out.push(' ');
        k += 1;
        assert(out@ =~= start + Seq::new(k as nat, |j: int| ' '));
    }
    assert(out@ =~= start + blank(c));
}

/// The script with its comments blanked.
fn strip_comments(s: &Vec<char>) -> (out: Vec<char>)
    ensures
        out@ == strip_from(s@, 0),
{
    let n = s.len();
    let mut out: Vec<char> = Vec::new();
    let mut i: usize = 0;
    // mode 0: code; 1: line comment; 2: block comment
    let mut mode: u8 = 0;
    while i < n
        invariant
            i <= n == s@.len(),
            mode <= 2,
            mode == 0 ==> strip_from(s@, 0) == out@ + strip_from(s@, i as int),
            mode == 1 ==> strip_from(s@, 0) == out@ + line_blank(s@, i as int),
            mode == 2 ==> strip_from(s@, 0) == out@ + block_from(s@, i as int),
        decreases n - i, 2 - mode,
    {
        let ghost before = out@;
        if mode == 0 {
            if s[i] == '/' && i + 1 < n && s[i + 1] == '/' {
                mode = 1;
            } else if s[i] == '/' && i + 1 < n && s[i + 1] == '*' {
                out.push(' ');
                out.push(' ');
                assert(out@ =~= before + seq![' ', ' ']);
                i += 2;
                mode = 2;
            } else {
                out.push(s[i]);
                assert(out@ =~= before + seq![s@[i as int]]);
                i += 1;
            }
        } else if mode == 1 {
            if s[i] == '\n' {
                out.push('\n');
                assert(out@ =~= before + seq!['\n']);
                i += 1;
                mode = 0;
            } else {
                push_blank(&mut out, s[i]);
                assert(out@ + line_blank(s@, i + 1) =~= before + (blank(s@[i as int]) + line_blank(
                    s@,
                    i + 1,
                )));
                i += 1;
            }
        } else {
            if s[i] == '*' && i + 1 < n && s[i + 1] == '/' {
                out.push(' ');
                out.push(' ');
                assert(out@ =~= before + seq![' ', ' ']);
                i += 2;
                mode = 0;
            } else if s[i] == '\n' {
                out.push('\n');
                assert(out@ =~= before + seq!['\n']);
                i += 1;
            } else {
                push_blank(&mut out, s[i]);
                assert(out@ + block_from(s@, i + 1) =~= before + (blank(s@[i as int]) + block_from(
                    s@,
                    i + 1,
                )));
                i += 1;
            }
        }
    }
    assert(out@ =~= out@ + Seq::<char>::empty());
    out
}

// ── scanning ────────────────────────────────────────────────────────────

/// `w` occurs in `t` at `k`.
pub open spec fn occurs(t: Seq<char>, k: int, w: Seq<char>) -> bool {
    0 <= k && k + w.len() <= t.len() && t.subrange(k, k + w.len()) == w
}

/// The first index at or after `i` that is not whitespace (or the length).
pub open spec fn skip_white(t: Seq<char>, i: int) -> int
    decreases t.len() - i,
{
    if 0 <= i < t.len() && is_white(t[i]) {
        skip_white(t, i + 1)
    } else {
        i
    }
}

/// A `function NAME (` header starts at `kw`: the keyword, at least one
/// whitespace character, the name not continued by an identifier character,
/// optional whitespace, and `(`.
pub open spec fn fn_header_at(t: Seq<char>, name: Seq<char>, kw: int) -> bool {
    let p = skip_white(t, kw + "function"@.len());
    let q = p + name.len();
    let r = skip_white(t, q);
    &&& occurs(t, kw, "function"@)
    &&& p > kw + "function"@.len()
    &&& occurs(t, p, name)
    &&& (q >= t.len() || !(alphanumeric(t[q]) || t[q] == '_'))
    &&& r < t.len() && t[r] == '('
}

/// The first header of `name` at or after `i`.
pub open spec fn find_fn(t: Seq<char>, name: Seq<char>, i: int) -> Option<int>
    decreases t.len() - i,
{
    if i < 0 || i >= t.len() {
        None
    } else if fn_header_at(t, name, i) {
        Some(i)
    } else {
        find_fn(t, name, i + 1)
    }
}

/// The number of headers of `name` at or after `i`.
pub open spec fn count_fns(t: Seq<char>, name: Seq<char>, i: int) -> nat
    decreases t.len() - i,
{
    if i < 0 || i >= t.len() {
        0
    } else {
        (if fn_header_at(t, name, i) { 1nat } else { 0nat }) + count_fns(t, name, i + 1)
    }
}

/// The first index at or after `i` holding `c`.
pub open spec fn first_from(t: Seq<char>, i: int, c: char) -> Option<int>
    decreases t.len() - i,
{
    if i < 0 || i >= t.len() {
        None
    } else if t[i] == c {
        Some(i)
    } else {
        first_from(t, i + 1, c)
    }
}

/// The first index at or after `i` where `w` occurs.
pub open spec fn find_word(t: Seq<char>, i: int, w: Seq<char>) -> Option<int>
    decreases t.len() - i,
{
    if i < 0 || i >= t.len() {
        None
    } else if occurs(t, i, w) {
        Some(i)
    } else {
        find_word(t, i + 1, w)
    }
}

/// The index of the `close` that brings the nesting depth `d` (counted
/// from `i` on) back to zero.
pub open spec fn close_of(t: Seq<char>, i: int, d: int, open: char, close: char) -> Option<int>
    decreases t.len() - i,
{
    if i < 0 || i >= t.len() {
        None
    } else if t[i] == open {
        close_of(t, i + 1, d + 1, open, close)
    } else if t[i] == close {
        if d <= 1 { Some(i) } else { close_of(t, i + 1, d - 1, open, close) }
    } else {
        close_of(t, i + 1, d, open, close)
    }
}

pub proof fn lemma_close_of(t: Seq<char>, i: int, d: int, open: char, close: char)
    ensures
        close_of(t, i, d, open, close) is Some ==> i <= close_of(t, i, d, open, close).unwrap() < t.len(),
    decreases t.len() - i,
{
    if 0 <= i < t.len() {
        lemma_close_of(t, i + 1, d + 1, open, close);
        lemma_close_of(t, i + 1, d - 1, open, close);
        lemma_close_of(t, i + 1, d, open, close);
    }
}

pub proof fn lemma_find_word(t: Seq<char>, i: int, w: Seq<char>)
    ensures
        find_word(t, i, w) is Some ==> i <= find_word(t, i, w).unwrap() && occurs(
            t,
            find_word(t, i, w).unwrap(),
            w,
        ),
    decreases t.len() - i,
{
    if 0 <= i < t.len() {
        lemma_find_word(t, i + 1, w);
    }
}

/// The body of the first `function NAME(...) ... { BODY }` block: between
/// the first `{` after the header and its matching `}`.
pub open spec fn fn_block(t: Seq<char>, name: Seq<char>) -> Option<Seq<char>> {
    match find_fn(t, name, 0) {
        None => None,
        Some(s) => match first_from(t, s, '{') {
            None => None,
            Some(o) => match close_of(t, o + 1, 1, '{', '}') {
                None => None,
                Some(c) => Some(t.subrange(o + 1, c)),
            },
        },
    }
}

/// The arguments of the `require(...)` clauses from `i` on, each up to its
/// matching `)`.
pub open spec fn req_args(b: Seq<char>, i: int) -> Seq<Seq<char>>
    decreases b.len() - i,
{
    if i < 0 || i >= b.len() {
        seq![]
    } else {
        proof {
            lemma_find_word(b, i, "require("@);
            reveal_strlit("require(");
        }
        match find_word(b, i, "require("@) {
            None => seq![],
            Some(p) => {
                let a = p + "require("@.len();
                proof {
                    lemma_close_of(b, a, 1, '(', ')');
                }
                match close_of(b, a, 1, '(', ')') {
                    None => seq![],
                    Some(c) => seq![b.subrange(a, c)] + req_args(b, c),
                }
            },
        }
    }
}

/// The inside of the first `return({ ... })` object literal.
pub open spec fn ret_object(b: Seq<char>) -> Option<Seq<char>> {
    match find_word(b, 0, "return("@) {
        None => None,
        Some(p) => match first_from(b, p + "return("@.len(), '{') {
            None => None,
            Some(o) => match close_of(b, o + 1, 1, '{', '}') {
                None => None,
                Some(c) => Some(b.subrange(o + 1, c)),
            },
        },
    }
}

pub open spec fn opens(c: char) -> bool {
    c == '(' || c == '{' || c == '['
}

pub open spec fn closes(c: char) -> bool {
    c == ')' || c == '}' || c == ']'
}

/// The `[start, end)` spans of the top-level comma-separated segments of `s`
/// from `i` on, at nesting depth `depth`, the current one from `start`; a
/// trailing empty segment is dropped.
pub open spec fn segs(s: Seq<char>, i: int, depth: int, start: int) -> Seq<(int, int)>
    decreases s.len() - i,
{
    if i < 0 || i >= s.len() {
        if start < s.len() { seq![(start, s.len() as int)] } else { seq![] }
    } else if opens(s[i]) {
        segs(s, i + 1, depth + 1, start)
    } else if closes(s[i]) {
        segs(s, i + 1, depth - 1, start)
    } else if s[i] == ',' && depth == 0 {
        seq![(start, i)] + segs(s, i + 1, depth, i + 1)
    } else {
        segs(s, i + 1, depth, start)
    }
}

/// `key: value` split at the first `:`, both trimmed; none without a `:` or
/// with an empty key.
pub open spec fn field_pair(seg: Seq<char>) -> Option<(Seq<char>, Seq<char>)> {
    match first_from(seg, 0, ':') {
        None => None,
        Some(c) => {
            let key = trim(seg.subrange(0, c));
            if key.len() == 0 { None } else { Some((key, trim(seg.subrange(c + 1, seg.len() as int)))) }
        },
    }
}

/// The `(field, value)` pairs of the first `k` segments.
pub open spec fn pairs_of(s: Seq<char>, sg: Seq<(int, int)>, k: int) -> Seq<(Seq<char>, Seq<char>)>
    decreases k,
{
    if k <= 0 || k > sg.len() {
        seq![]
    } else {
        let prev = pairs_of(s, sg, k - 1);
        match field_pair(s.subrange(sg[k - 1].0, sg[k - 1].1)) {
            Some(p) => prev.push(p),
            None => prev,
        }
    }
}

/// The fields of an object body.
pub open spec fn object_fields(s: Seq<char>) -> Seq<(Seq<char>, Seq<char>)> {
    let sg = segs(s, 0, 0, 0);
    pairs_of(s, sg, sg.len() as int)
}

// ── scanning, executably ────────────────────────────────────────────────

fn occurs_at(t: &Vec<char>, k: usize, w: &Vec<char>) -> (r: bool)
    ensures
        r == occurs(t@, k as int, w@),
{
    if k > t.len() || w.len() > t.len() - k {
        return false;
    }
    let mut j: usize = 0;
    while j < w.len()
        invariant
            j <= w.len(),
            k + w.len() <= t.len(),
            forall|m: int| 0 <= m < j ==> t@[k + m] == w@[m],
        decreases w.len() - j,
    {
        if t[k + j] != w[j] {
            assert(t@.subrange(k as int, k + w.len())[j as int] != w@[j as int]);
            return false;
        }
        j += 1;
    }
    assert(t@.subrange(k as int, k + w.len()) =~= w@);
    true
}

fn skip_ws(t: &Vec<char>, i: usize) -> (r: usize)
    requires
        i <= t.len(),
    ensures
        r as int == skip_white(t@, i as int),
        i <= r <= t.len(),
{
    let mut j = i;
    while j < t.len() && white(t[j])
        invariant
            i <= j <= t.len(),
            skip_white(t@, i as int) == skip_white(t@, j as int),
        decreases t.len() - j,
    {
        j += 1;
    }
    j
}

/// `fw` holds the keyword `function`.
fn header_at(t: &Vec<char>, name: &Vec<char>, kw: usize, fw: &Vec<char>) -> (r: bool)
    requires
        fw@ == "function"@,
    ensures
        r == fn_header_at(t@, name@, kw as int),
{
    if !occurs_at(t, kw, fw) {
        return false;
    }
    let tl = t.len();
    let fl = fw.len();
    assert(kw + fl <= tl);
    let after = kw + fl;
    let p = skip_ws(t, after);
    if p == after || !occurs_at(t, p, name) {
        return false;
    }
    let q = p + name.len();
    if q < t.len() && (is_alphanumeric(t[q]) || t[q] == '_') {
        return false;
    }
    let r = skip_ws(t, q);
    r < t.len() && t[r] == '('
}

fn find_fn_from(t: &Vec<char>, name: &Vec<char>, fw: &Vec<char>, from: usize) -> (r: Option<usize>)
    requires
        fw@ == "function"@,
    ensures
        match r {
            Some(k) => find_fn(t@, name@, from as int) == Some(k as int),
            None => find_fn(t@, name@, from as int) is None,
        },
{
    let mut i = from;
    while i < t.len()
        invariant
            from <= i,
            fw@ == "function"@,
            find_fn(t@, name@, from as int) == find_fn(t@, name@, i as int),
        decreases t.len() - i,
    {
        if header_at(t, name, i, fw) {
            return Some(i);
        }
        i += 1;
    }
    None
}

fn count_headers(t: &Vec<char>, name: &Vec<char>, fw: &Vec<char>) -> (r: usize)
    requires
        fw@ == "function"@,
    ensures
        r == count_fns(t@, name@, 0),
{
    let mut i = t.len();
    let mut c: usize = 0;
    while i > 0
        invariant
            i <= t.len(),
            fw@ == "function"@,
            c <= t.len() - i,
            c == count_fns(t@, name@, i as int),
        decreases i,
    {
        i -= 1;
        if header_at(t, name, i, fw) {
            c += 1;
        }
    }
    c
}

fn first_index(t: &Vec<char>, i: usize, c: char) -> (r: Option<usize>)
    ensures
        match r {
            Some(k) => first_from(t@, i as int, c) == Some(k as int) && i <= k < t.len(),
            None => first_from(t@, i as int, c) is None,
        },
{
    let mut j = i;
    while j < t.len()
        invariant
            i <= j,
            first_from(t@, i as int, c) == first_from(t@, j as int, c),
        decreases t.len() - j,
    {
        if t[j] == c {
            return Some(j);
        }
        j += 1;
    }
    None
}

fn find_text(t: &Vec<char>, i: usize, w: &Vec<char>) -> (r: Option<usize>)
    ensures
        match r {
            Some(k) => find_word(t@, i as int, w@) == Some(k as int) && i <= k && k + w.len() <= t.len(),
            None => find_word(t@, i as int, w@) is None,
        },
{
    let mut j = i;
    while j < t.len()
        invariant
            i <= j,
            find_word(t@, i as int, w@) == find_word(t@, j as int, w@),
        decreases t.len() - j,
    {
        if occurs_at(t, j, w) {
            return Some(j);
        }
        j += 1;
    }
    None
}

fn matching_close(t: &Vec<char>, i: usize, open: char, close: char) -> (r: Option<usize>)
    requires
        1 <= i <= t.len(),
    ensures
        match r {
            Some(k) => close_of(t@, i as int, 1, open, close) == Some(k as int) && i <= k < t.len(),
            None => close_of(t@, i as int, 1, open, close) is None,
        },
{
    let mut d: usize = 1;
    let mut j = i;
    while j < t.len()
        invariant
            1 <= i <= j <= t.len(),
            1 <= d <= 1 + j - i,
            close_of(t@, i as int, 1, open, close) == close_of(t@, j as int, d as int, open, close),
        decreases t.len() - j,
    {
        if t[j] == open {
            d += 1;
        } else if t[j] == close {
            if d <= 1 {
                return Some(j);
            }
            d -= 1;
        }
        j += 1;
    }
    None
}

fn sub_chars(t: &Vec<char>, a: usize, b: usize) -> (r: Vec<char>)
    requires
        a <= b <= t.len(),
    ensures
        r@ == t@.subrange(a as int, b as int),
{
    let mut r: Vec<char> = Vec::new();
    let mut k = a;
    while k < b
        invariant
            a <= k <= b <= t.len(),
            r@ == t@.subrange(a as int, k as int),
        decreases b - k,
    {
        r.push(t[k]);
        k += 1;
        assert(r@ =~= t@.subrange(a as int, k as int));
    }
    r
}

fn function_block(t: &Vec<char>, name: &Vec<char>, fw: &Vec<char>) -> (r: Option<Vec<char>>)
    requires
        fw@ == "function"@,
    ensures
        match fn_block(t@, name@) {
            Some(b) => r is Some && r.unwrap()@ == b,
            None => r is None,
        },
{
    let s = match find_fn_from(t, name, fw, 0) {
        Some(s) => s,
        None => {
            return None;
        },
    };
    let o = match first_index(t, s, '{') {
        Some(o) => o,
        None => {
            return None;
        },
    };
    match matching_close(t, o + 1, '{', '}') {
        Some(c) => Some(sub_chars(t, o + 1, c)),
        None => None,
    }
}

fn require_args(b: &Vec<char>) -> (r: Vec<Vec<char>>)
    ensures
        r@.len() == req_args(b@, 0).len(),
        forall|k: int| 0 <= k < r@.len() ==> #[trigger] r@[k]@ == req_args(b@, 0)[k],
{
    let rw = chars_of("require(");
    proof {
        reveal_strlit("require(");
    }
    let mut out: Vec<Vec<char>> = Vec::new();
    let mut i: usize = 0;
    let ghost mut done: Seq<Seq<char>> = seq![];
    let ghost mut ended = false;
    while i < b.len()
        invariant
            i <= b.len(),
            ended ==> req_args(b@, i as int) =~= Seq::<Seq<char>>::empty(),
            rw@ == "require("@,
            req_args(b@, 0) == done + req_args(b@, i as int),
            out@.len() == done.len(),
            forall|k: int| 0 <= k < out@.len() ==> #[trigger] out@[k]@ == done[k],
        ensures
            ended || i >= b.len(),
            ended ==> req_args(b@, i as int) =~= Seq::<Seq<char>>::empty(),
            req_args(b@, 0) == done + req_args(b@, i as int),
            out@.len() == done.len(),
            forall|k: int| 0 <= k < out@.len() ==> #[trigger] out@[k]@ == done[k],
        decreases b.len() - i,
    {
        let p = match find_text(b, i, &rw) {
            Some(p) => p,
            None => {
                proof {
                    ended = true;
                }
                break;
            },
        };
        proof {
            reveal_strlit("require(");
        }
        let a = p + rw.len();
        let c = match matching_close(b, a, '(', ')') {
            Some(c) => c,
            None => {
                proof {
                    ended = true;
                }
                break;
            },
        };
        let arg = sub_chars(b, a, c);
        proof {
            reveal_strlit("require(");
            assert(req_args(b@, i as int) == seq![arg@] + req_args(b@, c as int));
            assert(done + req_args(b@, i as int) =~= done.push(arg@) + req_args(b@, c as int));
            done = done.push(arg@);
        }
        out.push(arg);
        i = c;
    }
    proof {
        if i >= b.len() {
            assert(req_args(b@, i as int) =~= Seq::<Seq<char>>::empty());
        }
        assert(done =~= req_args(b@, 0));
    }
    out
}

fn return_object(b: &Vec<char>) -> (r: Option<Vec<char>>)
    ensures
        match ret_object(b@) {
            Some(o) => r is Some && r.unwrap()@ == o,
            None => r is None,
        },
{
    let rw = chars_of("return(");
    proof {
        reveal_strlit("return(");
    }
    let p = match find_text(b, 0, &rw) {
        Some(p) => p,
        None => {
            return None;
        },
    };
    let o = match first_index(b, p + rw.len(), '{') {
        Some(o) => o,
        None => {
            return None;
        },
    };
    match matching_close(b, o + 1, '{', '}') {
        Some(c) => Some(sub_chars(b, o + 1, c)),
        None => None,
    }
}

fn trim_span(s: &Vec<char>, a: usize, b: usize) -> (r: String)
    requires
        a <= b <= s.len(),
    ensures
        r@ == trim(s@.subrange(a as int, b as int)),
{
    let t = string_of(s, a, b);
    crate::solve::trimmed(t.as_str())
}

fn pair_of(s: &Vec<char>, a: usize, b: usize) -> (r: Option<(String, String)>)
    requires
        a <= b <= s.len(),
    ensures
        match field_pair(s@.subrange(a as int, b as int)) {
            Some(p) => r is Some && r.unwrap().0@ == p.0 && r.unwrap().1@ == p.1,
            None => r is None,
        },
{
    let seg = sub_chars(s, a, b);
    let c = match first_index(&seg, 0, ':') {
        Some(c) => c,
        None => {
            return None;
        },
    };
    let key = trim_span(&seg, 0, c);
    if key.as_str().is_empty() {
        return None;
    }
    let val = trim_span(&seg, c + 1, seg.len());
    Some((key, val))
}

/// The `(field, value)` pairs of an object body.
fn split_fields(s: &Vec<char>) -> (r: Vec<(String, String)>)
    ensures
        r@.len() == object_fields(s@).len(),
        forall|k: int| 0 <= k < r@.len() ==> (#[trigger] r@[k]).0@ == object_fields(s@)[k].0 && r@[k].1@
            == object_fields(s@)[k].1,
{
    let n = s.len();
    let mut spans: Vec<(usize, usize)> = Vec::new();
    let mut depth: i128 = 0;
    let mut start: usize = 0;
    let mut i: usize = 0;
    let ghost all = segs(s@, 0, 0, 0);
    while i < n
        invariant
            i <= n == s@.len(),
            start <= i,
            -(i as int) <= depth <= i as int,
            all == segs(s@, 0, 0, 0),
            all == spans@.map_values(|p: (usize, usize)| (p.0 as int, p.1 as int)) + segs(
                s@,
                i as int,
                depth as int,
                start as int,
            ),
            forall|k: int| 0 <= k < spans@.len() ==> (#[trigger] spans@[k]).0 <= spans@[k].1 <= n,
        decreases n - i,
    {
        let c = s[i];
        let ghost before = spans@;
        if c == '(' || c == '{' || c == '[' {
            depth += 1;
        } else if c == ')' || c == '}' || c == ']' {
            depth -= 1;
        } else if c == ',' && depth == 0 {
            spans.push((start, i));
            assert(spans@.map_values(|p: (usize, usize)| (p.0 as int, p.1 as int)) =~= before.map_values(
                |p: (usize, usize)| (p.0 as int, p.1 as int),
            ).push((start as int, i as int)));
            start = i + 1;
        }
        i += 1;
    }
    if start < n {
        let ghost before = spans@;
        spans.push((start, n));
        assert(spans@.map_values(|p: (usize, usize)| (p.0 as int, p.1 as int)) =~= before.map_values(
            |p: (usize, usize)| (p.0 as int, p.1 as int),
        ).push((start as int, n as int)));
    }
    assert(all =~= spans@.map_values(|p: (usize, usize)| (p.0 as int, p.1 as int)));
    let mut out: Vec<(String, String)> = Vec::new();
    let mut k: usize = 0;
    while k < spans.len()
        invariant
            k <= spans.len(),
            all =~= spans@.map_values(|p: (usize, usize)| (p.0 as int, p.1 as int)),
            all == segs(s@, 0, 0, 0),
            forall|j: int| 0 <= j < spans@.len() ==> (#[trigger] spans@[j]).0 <= spans@[j].1 <= s@.len(),
            out@.len() == pairs_of(s@, all, k as int).len(),
            forall|j: int| 0 <= j < out@.len() ==> (#[trigger] out@[j]).0@ == pairs_of(s@, all, k as int)[j].0
                && out@[j].1@ == pairs_of(s@, all, k as int)[j].1,
        decreases spans.len() - k,
    {
        let (a, b) = spans[k];
        assert(all[k as int] == (a as int, b as int));
        match pair_of(s, a, b) {
            Some(p) => {
                out.push(p);
            },
            None => {},
        }
        k += 1;
    }
    out
}

// ── normalisation ───────────────────────────────────────────────────────

/// `s` with every occurrence of `pat` removed, left to right
/// (`str::replace(pat, "")`).
pub open spec fn drop_all(s: Seq<char>, pat: Seq<char>) -> Seq<char>
    decreases s.len(),
{
    if pat.len() == 0 || s.len() == 0 {
        s
    } else if pat.is_prefix_of(s) {
        drop_all(s.subrange(pat.len() as int, s.len() as int), pat)
    } else {
        seq![s[0]] + drop_all(s.drop_first(), pat)
    }
}

/// The whitespace-separated words from `i` on, `cur` the word in progress.
pub open spec fn ws_words(s: Seq<char>, i: int, cur: Seq<char>) -> Seq<Seq<char>>
    decreases s.len() - i,
{
    if i < 0 || i >= s.len() {
        if cur.len() > 0 { seq![cur] } else { seq![] }
    } else if is_white(s[i]) {
        (if cur.len() > 0 { seq![cur] } else { seq![] }) + ws_words(s, i + 1, seq![])
    } else {
        ws_words(s, i + 1, cur.push(s[i]))
    }
}

/// The words joined by single spaces.
pub open spec fn join_sp(ws: Seq<Seq<char>>) -> Seq<char>
    decreases ws.len(),
{
    if ws.len() == 0 {
        seq![]
    } else if ws.len() == 1 {
        ws[0]
    } else {
        join_sp(ws.drop_last()) + seq![' '] + ws.last()
    }
}

/// The expression the text parses to, using every token.
pub open spec fn parsed(s: Seq<char>) -> Option<SExpr> {
    match g_expr(source(s), 0, 0) {
        Some((v, q)) => if q >= lex(s).len() { Some(v) } else { None },
        None => None,
    }
}

/// The fixed syntactic normalisation of a predicate or value: the state
/// prefix `prev_states[0].` removed, then the canonical rendering of the
/// expression it parses to, or else its words joined by single spaces.
pub open spec fn normalized(s: Seq<char>) -> Seq<char> {
    let st = drop_all(s, "prev_states[0]."@);
    match parsed(trim(st)) {
        Some(v) => render(v),
        None => join_sp(ws_words(st, 0, seq![])),
    }
}

fn drop_text(s: &Vec<char>, pat: &Vec<char>) -> (r: Vec<char>)
    requires
        pat.len() > 0,
    ensures
        r@ == drop_all(s@, pat@),
{
    let n = s.len();
    let mut out: Vec<char> = Vec::new();
    let mut i: usize = 0;
    assert(s@.subrange(0, n as int) =~= s@);
    assert(out@ + s@ =~= s@);
    while i < n
        invariant
            i <= n == s@.len(),
            pat@.len() > 0,
            drop_all(s@, pat@) == out@ + drop_all(s@.subrange(i as int, n as int), pat@),
        decreases n - i,
    {
        let ghost rest = s@.subrange(i as int, n as int);
        let ghost before = out@;
        if occurs_at(s, i, pat) {
            assert(rest.subrange(0, pat@.len() as int) =~= s@.subrange(i as int, i + pat@.len()));
            assert(rest.subrange(pat@.len() as int, rest.len() as int) =~= s@.subrange(
                i + pat@.len(),
                n as int,
            ));
            i += pat.len();
        } else {
            assert(!pat@.is_prefix_of(rest)) by {
                if pat@.is_prefix_of(rest) {
                    assert(s@.subrange(i as int, i + pat@.len()) =~= rest.subrange(0, pat@.len() as int));
                }
            }
            assert(rest.drop_first() =~= s@.subrange(i + 1, n as int));
            out.push(s[i]);
            assert(out@ =~= before + seq![s@[i as int]]);
            i += 1;
        }
    }
    assert(s@.subrange(n as int, n as int) =~= Seq::<char>::empty());
    assert(out@ + Seq::<char>::empty() =~= out@);
    out
}

/// The words of `s` joined by single spaces.
fn squeeze(s: &Vec<char>) -> (r: String)
    ensures
        r@ == join_sp(ws_words(s@, 0, seq![])),
{
    let n = s.len();
    let mut words: Vec<String> = Vec::new();
    let mut cur = String::new();
    let mut i: usize = 0;
    while i < n
        invariant
            i <= n == s@.len(),
            ws_words(s@, 0, seq![]) == words@.map_values(|w: String| w@) + ws_words(s@, i as int, cur@),
        decreases n - i,
    {
        let ghost before = words@;
        let ghost cv = cur@;
        if white(s[i]) {
            if !cur.as_str().is_empty() {
                words.push(cur);
                assert(words@.map_values(|w: String| w@) =~= before.map_values(|w: String| w@).push(cv));
                assert(before.map_values(|w: String| w@) + ws_words(s@, i as int, cv) =~= words@.map_values(
                    |w: String| w@,
                ) + ws_words(s@, i + 1, seq![]));
            } else {
                assert(ws_words(s@, i as int, cv) =~= ws_words(s@, i + 1, seq![]));
            }
            cur = String::new();
        } else {
            push_char(&mut cur, s[i]);
        }
        i += 1;
    }
    let ghost before = words@;
    let ghost cv = cur@;
    if !cur.as_str().is_empty() {
        words.push(cur);
        assert(words@.map_values(|w: String| w@) =~= before.map_values(|w: String| w@).push(cv));
    } else {
        assert(before.map_values(|w: String| w@) + ws_words(s@, n as int, cv) =~= before.map_values(
            |w: String| w@,
        ));
    }
    let ghost ws = words@.map_values(|w: String| w@);
    assert(ws == ws_words(s@, 0, seq![]));
    let mut out = String::new();
    let mut k: usize = 0;
    while k < words.len()
        invariant
            k <= words.len(),
            ws == words@.map_values(|w: String| w@),
            out@ == join_sp(ws.subrange(0, k as int)),
        decreases words.len() - k,
    {
        if k > 0 {
            push_char(&mut out, ' ');
        }
        put_text(&mut out, words[k].as_str());
        proof {
            let a = ws.subrange(0, k + 1);
            assert(a.drop_last() =~= ws.subrange(0, k as int));
        }
        k += 1;
    }
    assert(ws.subrange(0, words.len() as int) =~= ws);
    out
}

/// The fixed normalisation of a predicate or value.
fn normalize(s: &str) -> (r: String)
    ensures
        r@ == normalized(s@),
{
    let cs = chars_of(s);
    let pat = chars_of("prev_states[0].");
    proof {
        reveal_strlit("prev_states[0].");
    }
    let st = drop_text(&cs, &pat);
    let st_text = string_of(&st, 0, st.len());
    assert(st@.subrange(0, st@.len() as int) =~= st@);
    let t = crate::solve::trimmed(st_text.as_str());
    match parse_expr(t.as_str()) {
        Ok(e) => e.to_silverscript(),
        Err(_) => squeeze(&st),
    }
}

// ── the check ───────────────────────────────────────────────────────────

/// The verdict of the structural check.
#[derive(Debug, Clone, PartialEq, Eq)]
pub enum Correspondence {
    /// Every model guard reappears, and the value-bearing writes agree.
    Corresponds,
    /// One line per divergence found.
    Diverges { reasons: Vec<String> },
}

impl Correspondence {
    /// Whether this is `Corresponds`.
    pub fn corresponds(&self) -> (r: bool)
        ensures
            r == (*self is Corresponds),
    {
        match self {
            Correspondence::Corresponds => true,
            Correspondence::Diverges { .. } => false,
        }
    }
}

/// `f` names a value-bearing state field of the role.
pub open spec fn vb_state(r: SRole, f: Seq<char>) -> bool {
    exists|i: int|
        0 <= i < r.state.len() && #[trigger] r.state[i].name == f && value_bearing_split(
            r.state[i].name,
            r.state[i].ty,
        )
}

/// The model's value-bearing writes among the first `k` fields of its
/// object return: value-bearing state fields not carried as themselves,
/// each with its normalised value.
pub open spec fn model_writes_of(r: SRole, fs: Seq<(Seq<char>, SExpr)>, k: int) -> Seq<(Seq<char>, Seq<char>)>
    decreases k,
{
    if k <= 0 || k > fs.len() {
        seq![]
    } else {
        let prev = model_writes_of(r, fs, k - 1);
        let f = fs[k - 1].0;
        let v = fs[k - 1].1;
        if vb_state(r, f) && v != SExpr::Var(f) {
            prev.push((f, normalized(render(v))))
        } else {
            prev
        }
    }
}

pub open spec fn model_writes(r: SRole, e: SEntry) -> Seq<(Seq<char>, Seq<char>)> {
    match first_object(e.body, 0) {
        None => seq![],
        Some(fs) => model_writes_of(r, fs, fs.len() as int),
    }
}

/// The script's value-bearing writes among the first `k` fields of its
/// `return({...})`: value-bearing state fields whose normalised value is not
/// the field itself.
pub open spec fn sil_writes_of(r: SRole, ps: Seq<(Seq<char>, Seq<char>)>, k: int) -> Seq<(Seq<char>, Seq<char>)>
    decreases k,
{
    if k <= 0 || k > ps.len() {
        seq![]
    } else {
        let prev = sil_writes_of(r, ps, k - 1);
        let f = ps[k - 1].0;
        let nv = normalized(ps[k - 1].1);
        if vb_state(r, f) && nv != f {
            prev.push((f, nv))
        } else {
            prev
        }
    }
}

pub open spec fn sil_writes(r: SRole, b: Seq<char>) -> Seq<(Seq<char>, Seq<char>)> {
    match ret_object(b) {
        None => seq![],
        Some(o) => sil_writes_of(r, object_fields(o), object_fields(o).len() as int),
    }
}

/// The normalised `require(...)` arguments of a block.
pub open spec fn req_norms(b: Seq<char>) -> Seq<Seq<char>> {
    req_args(b, 0).map_values(|a: Seq<char>| normalized(a))
}

pub open spec fn dup_msg(q: Seq<char>, name: Seq<char>) -> Seq<char> {
    q + ": multiple `function "@ + name
        + "` blocks in the emitted .sil (duplicate / shadowing definition — cannot structurally validate a non-unique entrypoint)"@
}

pub open spec fn missing_msg(q: Seq<char>, name: Seq<char>) -> Seq<char> {
    q + ": no `function "@ + name
        + "` block found in the emitted .sil (the model entrypoint was not emitted)"@
}

pub open spec fn guard_msg(q: Seq<char>, g: Seq<char>) -> Seq<char> {
    q + ": model guard `requires "@ + g
        + "` has NO corresponding require(...) in the emitted .sil (guard dropped in emission)"@
}

pub open spec fn extra_msg(q: Seq<char>, f: Seq<char>, v: Seq<char>) -> Seq<char> {
    q + ": emitted .sil writes value-bearing field `"@ + f + "` (= `"@ + v
        + "`) that the model does not write (unaccounted value-bearing op / extra output)"@
}

pub open spec fn altered_msg(q: Seq<char>, f: Seq<char>, sv: Seq<char>, mv: Seq<char>) -> Seq<char> {
    q + ": emitted .sil writes value-bearing field `"@ + f + "` as `"@ + sv + "` but the model writes `"@
        + mv + "` (value-bearing op altered in emission)"@
}

pub open spec fn lost_msg(q: Seq<char>, f: Seq<char>, v: Seq<char>) -> Seq<char> {
    q + ": model writes value-bearing field `"@ + f + "` (= `"@ + v
        + "`) but the emitted .sil does not (write dropped or replaced by a pure carry in emission — value lost / leg never moved)"@
}

/// A dropped-guard line for each of the first `k` statements that is a
/// `requires` whose normalised rendering is not among `reqs`.
pub open spec fn guard_reasons(q: Seq<char>, body: Seq<SStmt>, reqs: Seq<Seq<char>>, k: int) -> Seq<Seq<char>>
    decreases k,
{
    if k <= 0 || k > body.len() {
        seq![]
    } else {
        let prev = guard_reasons(q, body, reqs, k - 1);
        match body[k - 1] {
            SStmt::Require(x) => if reqs.contains(normalized(render(x))) {
                prev
            } else {
                prev.push(guard_msg(q, render(x)))
            },
            _ => prev,
        }
    }
}

/// An added guard never causes a divergence: where the script's requires
/// `reqs2` include every require of `reqs1`, each dropped-guard reason
/// against `reqs2` is also one against `reqs1`, so there are no more of
/// them, and none where there were none.
pub proof fn law_added_guard_never_diverges(
    q: Seq<char>,
    body: Seq<SStmt>,
    reqs1: Seq<Seq<char>>,
    reqs2: Seq<Seq<char>>,
    k: int,
)
    requires
        forall|i: int| 0 <= i < reqs1.len() ==> reqs2.contains(#[trigger] reqs1[i]),
    ensures
        guard_reasons(q, body, reqs2, k).len() <= guard_reasons(q, body, reqs1, k).len(),
        forall|m: Seq<char>| #[trigger] guard_reasons(q, body, reqs2, k).contains(m) ==> guard_reasons(q, body, reqs1, k).contains(m),
        guard_reasons(q, body, reqs1, k).len() == 0 ==> guard_reasons(q, body, reqs2, k).len() == 0,
    decreases k,
{
    if k > 0 && k <= body.len() {
        law_added_guard_never_diverges(q, body, reqs1, reqs2, k - 1);
        let p1 = guard_reasons(q, body, reqs1, k - 1);
        let p2 = guard_reasons(q, body, reqs2, k - 1);
        match body[k - 1] {
            SStmt::Require(x) => {
                let g = normalized(render(x));
                if reqs1.contains(g) {
                    let i = choose|i: int| 0 <= i < reqs1.len() && reqs1[i] == g;
                    assert(reqs2.contains(reqs1[i]));
                    assert(guard_reasons(q, body, reqs2, k) == p2);
                } else {
                    let n1 = guard_reasons(q, body, reqs1, k);
                    assert(n1 == p1.push(guard_msg(q, render(x))));
                    assert forall|m: Seq<char>| #[trigger] guard_reasons(q, body, reqs2, k).contains(m) implies n1.contains(m) by {
                        if p1.contains(m) {
                            let j = choose|j: int| 0 <= j < p1.len() && p1[j] == m;
                            assert(n1[j] == m);
                        } else if m == guard_msg(q, render(x)) {
                            assert(n1[p1.len() as int] == m);
                        } else {
                            if reqs2.contains(g) {
                                assert(p2.contains(m));
                            } else {
                                let n2 = p2.push(guard_msg(q, render(x)));
                                let j = choose|j: int| 0 <= j < n2.len() && n2[j] == m;
                                if j < p2.len() {
                                    assert(p2[j] == m);
                                    assert(p2.contains(m));
                                }
                            }
                        }
                    }
                }
            },
            _ => {},
        }
    }
}

/// The value of the first write to `f` in `ws`.
pub open spec fn first_write(ws: Seq<(Seq<char>, Seq<char>)>, f: Seq<char>, k: int) -> Option<Seq<char>>
    decreases ws.len() - k,
{
    if k < 0 || k >= ws.len() {
        None
    } else if ws[k].0 == f {
        Some(ws[k].1)
    } else {
        first_write(ws, f, k + 1)
    }
}

/// For the first `k` script writes: one the model does not make, or makes
/// with another value.
pub open spec fn sil_side(q: Seq<char>, sw: Seq<(Seq<char>, Seq<char>)>, mw: Seq<(Seq<char>, Seq<char>)>, k: int) -> Seq<Seq<char>>
    decreases k,
{
    if k <= 0 || k > sw.len() {
        seq![]
    } else {
        let prev = sil_side(q, sw, mw, k - 1);
        let f = sw[k - 1].0;
        let sv = sw[k - 1].1;
        match first_write(mw, f, 0) {
            None => prev.push(extra_msg(q, f, sv)),
            Some(mv) => if mv != sv { prev.push(altered_msg(q, f, sv, mv)) } else { prev },
        }
    }
}

/// For the first `k` model writes: one the script does not make.
pub open spec fn model_side(q: Seq<char>, mw: Seq<(Seq<char>, Seq<char>)>, sw: Seq<(Seq<char>, Seq<char>)>, k: int) -> Seq<Seq<char>>
    decreases k,
{
    if k <= 0 || k > mw.len() {
        seq![]
    } else {
        let prev = model_side(q, mw, sw, k - 1);
        if first_write(sw, mw[k - 1].0, 0) is None {
            prev.push(lost_msg(q, mw[k - 1].0, mw[k - 1].1))
        } else {
            prev
        }
    }
}

/// The divergences of one transition entrypoint against the comment-free
/// script `t`.
pub open spec fn entry_reasons(r: SRole, e: SEntry, t: Seq<char>) -> Seq<Seq<char>> {
    let q = r.name + "."@ + e.name;
    if count_fns(t, e.name, 0) > 1 {
        seq![dup_msg(q, e.name)]
    } else {
        match fn_block(t, e.name) {
            None => seq![missing_msg(q, e.name)],
            Some(b) => {
                let mw = model_writes(r, e);
                let sw = sil_writes(r, b);
                guard_reasons(q, e.body, req_norms(b), e.body.len() as int) + sil_side(q, sw, mw, sw.len() as int)
                    + model_side(q, mw, sw, mw.len() as int)
            },
        }
    }
}

/// The divergences of the first `k` entrypoints of a role.
pub open spec fn role_reasons(r: SRole, t: Seq<char>, k: int) -> Seq<Seq<char>>
    decreases k,
{
    if k <= 0 || k > r.entrypoints.len() {
        seq![]
    } else if r.entrypoints[k - 1].mode == CovenantMode::Transition {
        role_reasons(r, t, k - 1) + entry_reasons(r, r.entrypoints[k - 1], t)
    } else {
        role_reasons(r, t, k - 1)
    }
}

/// The divergences of the first `k` roles.
pub open spec fn app_reasons(a: SApp, t: Seq<char>, k: int) -> Seq<Seq<char>>
    decreases k,
{
    if k <= 0 || k > a.roles.len() {
        seq![]
    } else {
        app_reasons(a, t, k - 1) + role_reasons(a.roles[k - 1], t, a.roles[k - 1].entrypoints.len() as int)
    }
}

/// All divergences of a program against its emitted script.
pub open spec fn translation_reasons(p: SProgram, sil: Seq<char>) -> Seq<Seq<char>> {
    app_reasons(p.app, strip_from(sil, 0), p.app.roles.len() as int)
}

// ── the check, executably ───────────────────────────────────────────────

pub open spec fn spairs(v: Seq<(String, String)>) -> Seq<(Seq<char>, Seq<char>)> {
    v.map_values(|p: (String, String)| (p.0@, p.1@))
}

fn in_vb_state(role: &Role, f: &str) -> (r: bool)
    ensures
        r == vb_state(role_v(*role), f@),
{
    let ghost rv = role_v(*role);
    let mut i: usize = 0;
    while i < role.state.len()
        invariant
            i <= role.state.len(),
            rv == role_v(*role),
            rv.state.len() == role.state@.len(),
            forall|j: int| 0 <= j < i ==> !(#[trigger] rv.state[j].name == f@ && value_bearing_split(
                rv.state[j].name,
                rv.state[j].ty,
            )),
        decreases role.state.len() - i,
    {
        assert(rv.state[i as int] == field_v(role.state@[i as int]));
        if str_eq(role.state[i].name.as_str(), f) && is_value_bearing_split(
            role.state[i].name.as_str(),
            &role.state[i].ty,
        ) {
            assert(rv.state[i as int].name == f@);
            return true;
        }
        i += 1;
    }
    false
}

fn model_value_writes(role: &Role, entry: &Entry) -> (r: Vec<(String, String)>)
    ensures
        spairs(r@) == model_writes(role_v(*role), entry_v(*entry)),
{
    let ghost rv = role_v(*role);
    let mut out: Vec<(String, String)> = Vec::new();
    let fields = match object_return_fields(entry) {
        Some(fs) => fs,
        None => {
            assert(spairs(out@) =~= Seq::<(Seq<char>, Seq<char>)>::empty());
            return out;
        },
    };
    let ghost fv = pairs_v(fields@);
    let mut k: usize = 0;
    while k < fields.len()
        invariant
            k <= fields.len(),
            rv == role_v(*role),
            fv == pairs_v(fields@),
            fv.len() == fields@.len(),
            spairs(out@) == model_writes_of(rv, fv, k as int),
        decreases fields.len() - k,
    {
        let (field, value) = (&fields[k].0, &fields[k].1);
        assert(fv[k as int] == (field@, expr_v(*value)));
        let carry = match value {
            Expr::Var(n) => str_eq(n.as_str(), field.as_str()),
            _ => false,
        };
        if in_vb_state(role, field.as_str()) && !carry {
            let norm = normalize(value.to_silverscript().as_str());
            let ghost before = out@;
            out.push((field.clone(), norm));
            assert(spairs(out@) =~= spairs(before).push((field@, normalized(render(expr_v(*value))))));
        }
        k += 1;
    }
    out
}

fn sil_value_writes(role: &Role, block: &Vec<char>) -> (r: Vec<(String, String)>)
    ensures
        spairs(r@) == sil_writes(role_v(*role), block@),
{
    let ghost rv = role_v(*role);
    let mut out: Vec<(String, String)> = Vec::new();
    let inner = match return_object(block) {
        Some(o) => o,
        None => {
            assert(spairs(out@) =~= Seq::<(Seq<char>, Seq<char>)>::empty());
            return out;
        },
    };
    let ps = split_fields(&inner);
    let ghost pv = object_fields(inner@);
    let mut k: usize = 0;
    while k < ps.len()
        invariant
            k <= ps.len(),
            rv == role_v(*role),
            pv == object_fields(inner@),
            ps@.len() == pv.len(),
            forall|j: int| 0 <= j < ps@.len() ==> (#[trigger] ps@[j]).0@ == pv[j].0 && ps@[j].1@ == pv[j].1,
            spairs(out@) == sil_writes_of(rv, pv, k as int),
        decreases ps.len() - k,
    {
        let norm = normalize(ps[k].1.as_str());
        assert(ps@[k as int].0@ == pv[k as int].0);
        if in_vb_state(role, ps[k].0.as_str()) && !str_eq(norm.as_str(), ps[k].0.as_str()) {
            let ghost before = out@;
            out.push((ps[k].0.clone(), norm));
            assert(spairs(out@) =~= spairs(before).push((pv[k as int].0, normalized(pv[k as int].1))));
        }
        k += 1;
    }
    out
}

/// The index of the first write to `f`.
fn find_write(ws: &Vec<(String, String)>, f: &str) -> (r: Option<usize>)
    ensures
        match r {
            Some(k) => k < ws.len() && first_write(spairs(ws@), f@, 0) == Some(ws@[k as int].1@),
            None => first_write(spairs(ws@), f@, 0) is None,
        },
{
    let mut k: usize = 0;
    while k < ws.len()
        invariant
            k <= ws.len(),
            first_write(spairs(ws@), f@, 0) == first_write(spairs(ws@), f@, k as int),
        decreases ws.len() - k,
    {
        if str_eq(ws[k].0.as_str(), f) {
            return Some(k);
        }
        k += 1;
    }
    None
}

/// Checks one transition entrypoint against the comment-free script `t`.
#[verifier::rlimit(40)]
fn check_entrypoint(role: &Role, entry: &Entry, t: &Vec<char>, fw: &Vec<char>, reasons: &mut Vec<String>)
    requires
        fw@ == "function"@,
    ensures
        strs_v(final(reasons)@) == strs_v(old(reasons)@) + entry_reasons(role_v(*role), entry_v(*entry), t@),
{
    let ghost rv = role_v(*role);
    let ghost ev = entry_v(*entry);
    let ghost start = strs_v(reasons@);
    let mut qual = role.name.clone();
    put_text(&mut qual, ".");
    put_text(&mut qual, entry.name.as_str());
    let ghost q = qual@;
    assert(q == rv.name + "."@ + ev.name);
    let name = chars_of(entry.name.as_str());
    if count_headers(t, &name, fw) > 1 {
        let mut m = qual.clone();
        put_text(&mut m, ": multiple `function ");
        put_text(&mut m, entry.name.as_str());
        put_text(
            &mut m,
            "` blocks in the emitted .sil (duplicate / shadowing definition — cannot structurally validate a non-unique entrypoint)",
        );
        let ghost before = reasons@;
        reasons.push(m);
        assert(strs_v(reasons@) =~= start + seq![dup_msg(q, ev.name)]);
        return;
    }
    let block = match function_block(t, &name, fw) {
        Some(b) => b,
        None => {
            let mut m = qual.clone();
            put_text(&mut m, ": no `function ");
            put_text(&mut m, entry.name.as_str());
            put_text(&mut m, "` block found in the emitted .sil (the model entrypoint was not emitted)");
            reasons.push(m);
            assert(strs_v(reasons@) =~= start + seq![missing_msg(q, ev.name)]);
            return;
        },
    };
    let args = require_args(&block);
    let mut reqs: Vec<String> = Vec::new();
    let mut k: usize = 0;
    while k < args.len()
        invariant
            k <= args.len(),
            args@.len() == req_args(block@, 0).len(),
            forall|j: int| 0 <= j < args@.len() ==> #[trigger] args@[j]@ == req_args(block@, 0)[j],
            strs_v(reqs@) == req_norms(block@).subrange(0, k as int),
        decreases args.len() - k,
    {
        let a = string_of(&args[k], 0, args[k].len());
        assert(args@[k as int]@.subrange(0, args@[k as int]@.len() as int) =~= args@[k as int]@);
        let ghost before = reqs@;
        assert(req_norms(block@)[k as int] == normalized(args@[k as int]@));
        let na = normalize(a.as_str());
        assert(na@ == req_norms(block@)[k as int]);
        reqs.push(na);
        assert(strs_v(reqs@) =~= strs_v(before).push(na@));
        assert(strs_v(before).push(na@) =~= req_norms(block@).subrange(0, k + 1));
        k += 1;
    }
    let ghost rn = req_norms(block@);
    assert(strs_v(reqs@) =~= rn);
    // Rule 1: every model guard reappears.
    let mut i: usize = 0;
    while i < entry.body.len()
        invariant
            i <= entry.body.len(),
            ev == entry_v(*entry),
            ev.body.len() == entry.body@.len(),
            strs_v(reqs@) == rn,
            qual@ == q,
            strs_v(reasons@) == start + guard_reasons(q, ev.body, rn, i as int),
        decreases entry.body.len() - i,
    {
        assert(ev.body[i as int] == stmt_v(entry.body@[i as int]));
        match &entry.body[i] {
            Stmt::Require(x) => {
                let g = x.to_silverscript();
                let ng = normalize(g.as_str());
                let mut found = false;
                let mut j: usize = 0;
                while j < reqs.len()
                    invariant
                        j <= reqs.len(),
                        strs_v(reqs@) == rn,
                        found == exists|m: int| 0 <= m < j && rn[m] == ng@,
                    decreases reqs.len() - j,
                {
                    assert(rn[j as int] == reqs@[j as int]@);
                    if str_eq(reqs[j].as_str(), ng.as_str()) {
                        found = true;
                    }
                    j += 1;
                }
                assert(found == rn.contains(ng@));
                if !found {
                    let mut m = qual.clone();
                    put_text(&mut m, ": model guard `requires ");
                    put_text(&mut m, g.as_str());
                    put_text(&mut m, "` has NO corresponding require(...) in the emitted .sil (guard dropped in emission)");
                    let ghost before = strs_v(reasons@);
                    reasons.push(m);
                    assert(strs_v(reasons@) =~= before.push(m@));
                }
            },
            _ => {},
        }
        i += 1;
    }
    let ghost after_guards = strs_v(reasons@);
    // Rule 2: the value-bearing writes agree, both ways.
    let mw = model_value_writes(role, entry);
    let sw = sil_value_writes(role, &block);
    let ghost mv = spairs(mw@);
    let ghost sv = spairs(sw@);
    let mut k: usize = 0;
    while k < sw.len()
        invariant
            k <= sw.len(),
            mv == spairs(mw@),
            sv == spairs(sw@),
            qual@ == q,
            strs_v(reasons@) == after_guards + sil_side(q, sv, mv, k as int),
        decreases sw.len() - k,
    {
        let f = sw[k].0.as_str();
        let val = sw[k].1.as_str();
        assert(sv[k as int] == (sw@[k as int].0@, sw@[k as int].1@));
        let ghost before = strs_v(reasons@);
        match find_write(&mw, f) {
            None => {
                let mut m = qual.clone();
                put_text(&mut m, ": emitted .sil writes value-bearing field `");
                put_text(&mut m, f);
                put_text(&mut m, "` (= `");
                put_text(&mut m, val);
                put_text(&mut m, "`) that the model does not write (unaccounted value-bearing op / extra output)");
                reasons.push(m);
                assert(strs_v(reasons@) =~= before.push(m@));
            },
            Some(j) => {
                if !str_eq(mw[j].1.as_str(), val) {
                    let mut m = qual.clone();
                    put_text(&mut m, ": emitted .sil writes value-bearing field `");
                    put_text(&mut m, f);
                    put_text(&mut m, "` as `");
                    put_text(&mut m, val);
                    put_text(&mut m, "` but the model writes `");
                    put_text(&mut m, mw[j].1.as_str());
                    put_text(&mut m, "` (value-bearing op altered in emission)");
                    reasons.push(m);
                    assert(strs_v(reasons@) =~= before.push(m@));
                }
            },
        }
        k += 1;
    }
    let ghost after_sil = strs_v(reasons@);
    let mut k: usize = 0;
    while k < mw.len()
        invariant
            k <= mw.len(),
            mv == spairs(mw@),
            sv == spairs(sw@),
            qual@ == q,
            strs_v(reasons@) == after_sil + model_side(q, mv, sv, k as int),
        decreases mw.len() - k,
    {
        let f = mw[k].0.as_str();
        assert(mv[k as int] == (mw@[k as int].0@, mw@[k as int].1@));
        let ghost before = strs_v(reasons@);
        if find_write(&sw, f).is_none() {
            let mut m = qual.clone();
            put_text(&mut m, ": model writes value-bearing field `");
            put_text(&mut m, f);
            put_text(&mut m, "` (= `");
            put_text(&mut m, mw[k].1.as_str());
            put_text(
                &mut m,
                "`) but the emitted .sil does not (write dropped or replaced by a pure carry in emission — value lost / leg never moved)",
            );
            reasons.push(m);
            assert(strs_v(reasons@) =~= before.push(m@));
        }
        k += 1;
    }
    assert(strs_v(reasons@) =~= start + entry_reasons(rv, ev, t@));
}

/// The structural check of `program` against its emitted script: every
/// transition entrypoint of every role, in order; `Corresponds` exactly
/// when no divergence is found, else every divergence, one line each.
pub fn validate_translation(program: &Program, sil_text: &str) -> (r: Correspondence)
    ensures
        translation_reasons(program_v(*program), sil_text@).len() == 0 ==> r is Corresponds,
        translation_reasons(program_v(*program), sil_text@).len() > 0 ==> (r matches Correspondence::Diverges {
            reasons,
        } && strs_v(reasons@) == translation_reasons(program_v(*program), sil_text@)),
{
    let ghost pv = program_v(*program);
    let cs = chars_of(sil_text);
    let t = strip_comments(&cs);
    let fw = chars_of("function");
    let mut reasons: Vec<String> = Vec::new();
    let roles = &program.app.roles;
    let mut i: usize = 0;
    assert(strs_v(reasons@) =~= Seq::<Seq<char>>::empty());
    while i < roles.len()
        invariant
            i <= roles.len(),
            pv == program_v(*program),
            *roles == program.app.roles,
            pv.app.roles.len() == roles@.len(),
            fw@ == "function"@,
            t@ == strip_from(sil_text@, 0),
            strs_v(reasons@) == app_reasons(pv.app, t@, i as int),
        decreases roles.len() - i,
    {
        let role = &roles[i];
        let ghost rv = role_v(*role);
        assert(pv.app.roles[i as int] == rv);
        let ghost base = strs_v(reasons@);
        let mut j: usize = 0;
        while j < role.entrypoints.len()
            invariant
                j <= role.entrypoints.len(),
                rv == role_v(*role),
                rv.entrypoints.len() == role.entrypoints@.len(),
                fw@ == "function"@,
                strs_v(reasons@) == base + role_reasons(rv, t@, j as int),
            decreases role.entrypoints.len() - j,
        {
            let entry = &role.entrypoints[j];
            assert(rv.entrypoints[j as int] == entry_v(*entry));
            let ghost mid = strs_v(reasons@);
            if entry.mode == CovenantMode::Transition {
                check_entrypoint(role, entry, &t, &fw, &mut reasons);
                assert(base + role_reasons(rv, t@, j + 1) =~= mid + entry_reasons(rv, entry_v(*entry), t@));
            }
            j += 1;
        }
        i += 1;
    }
    if reasons.len() == 0 {
        Correspondence::Corresponds
    } else {
        Correspondence::Diverges { reasons }
    }
}

} // verus!
