//! The solver protocol's decisions. Running the solver is the caller's part;
//! this module reads the solver's replies and decides, step by step, what is
//! run next and what is finally reported. A `Proved` needs the negated
//! obligation `unsat`, the transition alone `sat` (the entrypoint is
//! reachable), and a second, re-seeded run over the reordered query that
//! again answers `unsat`. A `sat` is a `Refuted` with its counter-model and
//! the replay's confidence. Everything else is `Unknown`.

use vstd::prelude::*;
use crate::lexer::{
    byte_off, chars_of, is_white, lemma_byte_off_mono, lemma_byte_off_step, lemma_line_end, line_end,
    string_of, utf8_char_len, white,
};
use crate::render::put;
use crate::sexpr::{lemma_sxs_v, parse_all, sx_render, sx_v, SSx, Sexpr};
use crate::text::{alphanumeric, decimal, is_alphanumeric, push_decimal, str_eq};
use crate::validate::{is_atom, replay_refutation, replay_result, replay_stuck, sx_parse, sxs, validation};
use crate::vc::Outcome;

verus! {

broadcast use vstd::seq_lib::group_seq_properties;

/// What is reported where no solver could be run.
pub const Z3_ABSENT_MESSAGE: &'static str =
    "z3 not found on PATH or $PORTRAIT_Z3; install z3 to discharge VCs — reporting UNKNOWN, never PROVED";

// ── lines and trimming ──────────────────────────────────────────────────

/// A line without the `\r` of a `\r\n` ending.
pub open spec fn strip_cr(raw: Seq<char>) -> Seq<char> {
    if raw.len() > 0 && raw.last() == '\r' {
        raw.drop_last()
    } else {
        raw
    }
}

/// The lines of `s` from index `i` on, as `str::lines` splits them: at each
/// `\n`, with the `\r` of a `\r\n` removed, and no empty line after a final
/// `\n`.
pub open spec fn lines_from(s: Seq<char>, i: int) -> Seq<Seq<char>>
    decreases s.len() - i,
{
    if i < 0 || i >= s.len() {
        seq![]
    } else {
        proof {
            lemma_line_end(s, i);
        }
        let e = line_end(s, i);
        let raw = s.subrange(i, e);
        if e < s.len() {
            seq![strip_cr(raw)] + lines_from(s, e + 1)
        } else {
            seq![raw]
        }
    }
}

pub open spec fn trim_left(s: Seq<char>) -> Seq<char>
    decreases s.len(),
{
    if s.len() > 0 && is_white(s[0]) {
        trim_left(s.drop_first())
    } else {
        s
    }
}

pub open spec fn trim_right(s: Seq<char>) -> Seq<char>
    decreases s.len(),
{
    if s.len() > 0 && is_white(s.last()) {
        trim_right(s.drop_last())
    } else {
        s
    }
}

/// `str::trim`: without leading and trailing whitespace.
pub open spec fn trim(s: Seq<char>) -> Seq<char> {
    trim_right(trim_left(s))
}

/// The lines joined with `\n`.
pub open spec fn join_lines(ls: Seq<Seq<char>>) -> Seq<char>
    decreases ls.len(),
{
    if ls.len() == 0 {
        seq![]
    } else if ls.len() == 1 {
        ls[0]
    } else {
        join_lines(ls.drop_last()) + seq!['\n'] + ls.last()
    }
}

/// The index of the first line from `i` on that is not blank, or the count.
pub open spec fn first_nonblank(ls: Seq<Seq<char>>, i: int) -> int
    decreases ls.len() - i,
{
    if i < 0 || i >= ls.len() {
        ls.len() as int
    } else if trim(ls[i]).len() > 0 {
        i
    } else {
        first_nonblank(ls, i + 1)
    }
}

pub open spec fn strings_v(v: Seq<String>) -> Seq<Seq<char>> {
    v.map_values(|s: String| s@)
}

/// `str::trim`.
pub(crate) fn trimmed(s: &str) -> (r: String)
    ensures
        r@ == trim(s@),
{
    let cs = chars_of(s);
    let n = cs.len();
    let mut a: usize = 0;
    assert(cs@.subrange(0, n as int) =~= cs@);
    while a < n && white(cs[a])
        invariant
            a <= n == cs@.len(),
            trim_left(cs@) == trim_left(cs@.subrange(a as int, n as int)),
        decreases n - a,
    {
        assert(cs@.subrange(a as int, n as int).drop_first() =~= cs@.subrange(a + 1, n as int));
        a += 1;
    }
    assert(trim_left(cs@) == cs@.subrange(a as int, n as int));
    let mut b: usize = n;
    while b > a && white(cs[b - 1])
        invariant
            a <= b <= n == cs@.len(),
            trim_right(cs@.subrange(a as int, n as int)) == trim_right(cs@.subrange(a as int, b as int)),
        decreases b - a,
    {
        assert(cs@.subrange(a as int, b as int).drop_last() =~= cs@.subrange(a as int, b - 1));
        b -= 1;
    }
    assert(cs@ == s@);
    string_of(&cs, a, b)
}

/// `str::lines`, each line as a new `String`.
fn split_lines(s: &str) -> (ls: Vec<String>)
    ensures
        strings_v(ls@) == lines_from(s@, 0),
{
    let cs = chars_of(s);
    let n = cs.len();
    let mut ls: Vec<String> = Vec::new();
    let mut i: usize = 0;
    while i < n
        invariant
            i <= n == cs@.len(),
            cs@ == s@,
            lines_from(s@, 0) == strings_v(ls@) + lines_from(s@, i as int),
        decreases n - i,
    {
        let mut e = i;
        while e < n && cs[e] != '\n'
            invariant
                i <= e <= n == cs@.len(),
                line_end(cs@, i as int) == line_end(cs@, e as int),
            decreases n - e,
        {
            e += 1;
        }
        let mut stop = e;
        if e < n && stop > i && cs[stop - 1] == '\r' {
            stop -= 1;
        }
        let line = string_of(&cs, i, stop);
        let ghost old_ls = ls@;
        let next = if e < n { e + 1 } else { e };
        proof {
            lemma_line_end(cs@, i as int);
            assert(line_end(cs@, e as int) == e);
            let raw = cs@.subrange(i as int, e as int);
            let want = if e < n { strip_cr(raw) } else { raw };
            assert(want =~= cs@.subrange(i as int, stop as int));
            assert(lines_from(s@, i as int) =~= seq![want] + lines_from(s@, next as int));
            assert(strings_v(old_ls.push(line)) =~= strings_v(old_ls).push(line@));
            assert(strings_v(old_ls).push(line@) + lines_from(s@, next as int) =~= strings_v(old_ls)
                + (seq![want] + lines_from(s@, next as int)));
        }
        ls.push(line);
        i = next;
    }
    ls
}

/// The verdicts of one solver run.
#[derive(Debug)]
pub enum Verdict {
    /// `unsat`.
    Unsat,
    /// `sat`, with the counter-model that followed (possibly empty).
    Sat { model: String },
    /// `unknown`, a timeout, an error line, empty output or any other reply.
    Indecisive { reason: String },
    /// The solver could not be run.
    Unavailable { reason: String },
}

/// `<str as Debug>`'s rendering of a text: quoted, with Rust's escapes.
pub uninterp spec fn str_debug(s: Seq<char>) -> Seq<char>;

/// The text in double quotes with Rust's string escapes (`format!("{:?}")`
/// on a `&str`). What the escapes are is left to std; the result depends on
/// the text alone.
#[verifier::external_body]
fn debug_quoted(s: &str) -> (r: String)
    ensures
        r@ == str_debug(s@),
{
    format!("{:?}", s)
}

/// What a solver's standard output says: its first non-blank line, trimmed,
/// is the verdict; after a `sat`, the rest, trimmed, is the counter-model.
pub open spec fn reads_as(out: Seq<char>, r: Verdict) -> bool {
    let ls = lines_from(out, 0);
    let k = first_nonblank(ls, 0);
    let v = if k < ls.len() { trim(ls[k]) } else { seq![] };
    &&& v == "unsat"@ ==> r is Unsat
    &&& v == "sat"@ ==> (r matches Verdict::Sat { model } && model@ == trim(
        join_lines(ls.subrange(k + 1, ls.len() as int)),
    ))
    &&& (v != "unsat"@ && v != "sat"@) ==> (r matches Verdict::Indecisive { reason } && reason@
        == "z3 did not return a decisive verdict (first token: "@ + str_debug(v) + ")"@)
}

/// Reads the solver's standard output.
pub fn parse_verdict(stdout: &str) -> (r: Verdict)
    ensures
        reads_as(stdout@, r),
{
    proof {
        reveal_strlit("unsat");
        reveal_strlit("sat");
    }
    let ls = split_lines(stdout);
    let ghost lv = strings_v(ls@);
    let mut k: usize = 0;
    while k < ls.len()
        invariant
            k <= ls.len(),
            lv == strings_v(ls@),
            lv.len() == ls@.len(),
            first_nonblank(lv, 0) == first_nonblank(lv, k as int),
        ensures
            k <= ls.len(),
            first_nonblank(lv, 0) == k as int,
        decreases ls.len() - k,
    {
        let t = trimmed(ls[k].as_str());
        assert(lv[k as int] == ls@[k as int]@);
        if !t.as_str().is_empty() {
            break;
        }
        k += 1;
    }
    assert(k < ls.len() ==> lv[k as int] == ls@[k as int]@);
    let verdict = if k < ls.len() {
        trimmed(ls[k].as_str())
    } else {
        String::new()
    };
    if crate::text::str_eq(verdict.as_str(), "unsat") {
        return Verdict::Unsat;
    }
    if crate::text::str_eq(verdict.as_str(), "sat") {
        let mut rest = String::new();
        let mut j = k + 1;
        while j < ls.len()
            invariant
                k + 1 <= j <= ls.len(),
                lv == strings_v(ls@),
                lv.len() == ls@.len(),
                rest@ == join_lines(lv.subrange(k + 1, j as int)),
            decreases ls.len() - j,
        {
            if j > k + 1 {
                put(&mut rest, "\n");
            }
            put(&mut rest, ls[j].as_str());
            proof {
                reveal_strlit("\n");
                let a = lv.subrange(k + 1, j + 1);
                assert(a.drop_last() =~= lv.subrange(k + 1, j as int));
            }
            j += 1;
        }
        let model = trimmed(rest.as_str());
        return Verdict::Sat { model };
    }
    let mut reason = String::from_str("z3 did not return a decisive verdict (first token: ");
    put(&mut reason, debug_quoted(verdict.as_str()).as_str());
    put(&mut reason, ")");
    Verdict::Indecisive { reason }
}

// ── the reordered query ─────────────────────────────────────────────────

/// Whether `f` is a list whose head is the atom `name`.
pub open spec fn head_is(f: SSx, name: Seq<char>) -> bool {
    f is List && f->List_0.len() > 0 && is_atom(f->List_0[0], name)
}

/// The `(assert ...)` forms among the first `k` forms.
pub open spec fn assert_forms(fs: Seq<SSx>, k: int) -> Seq<SSx>
    decreases k,
{
    if k <= 0 || k > fs.len() {
        seq![]
    } else if head_is(fs[k - 1], "assert"@) {
        assert_forms(fs, k - 1).push(fs[k - 1])
    } else {
        assert_forms(fs, k - 1)
    }
}

/// The first `k` forms rendered one per line, with the assertions taken in
/// reverse order at the places the assertions held.
pub open spec fn reordered(fs: Seq<SSx>, k: int) -> Seq<char>
    decreases k,
{
    if k <= 0 || k > fs.len() {
        seq![]
    } else {
        let all = assert_forms(fs, fs.len() as int);
        let f = if head_is(fs[k - 1], "assert"@) {
            all[all.len() - 1 - assert_forms(fs, k - 1).len()]
        } else {
            fs[k - 1]
        };
        reordered(fs, k - 1) + sx_render(f) + "\n"@
    }
}

proof fn lemma_assert_forms_prefix(fs: Seq<SSx>, k: int, n: int)
    requires
        0 <= k <= n <= fs.len(),
    ensures
        assert_forms(fs, k).len() <= assert_forms(fs, n).len(),
        assert_forms(fs, n).subrange(0, assert_forms(fs, k).len() as int) == assert_forms(fs, k),
    decreases n - k,
{
    if k < n {
        lemma_assert_forms_prefix(fs, k, n - 1);
        let a = assert_forms(fs, n - 1);
        assert(assert_forms(fs, n).subrange(0, a.len() as int) =~= a);
        assert(assert_forms(fs, n).subrange(0, assert_forms(fs, k).len() as int) =~= a.subrange(
            0,
            assert_forms(fs, k).len() as int,
        ));
    } else {
        assert(assert_forms(fs, n).subrange(0, assert_forms(fs, k).len() as int) =~= assert_forms(fs, k));
    }
}

/// Whether `f` is a list headed by the atom `name`.
fn head_is_atom(f: &Sexpr, name: &str) -> (r: bool)
    ensures
        r == head_is(sx_v(*f), name@),
{
    match f {
        Sexpr::List(p) => {
            proof {
                lemma_sxs_v(p@, p@.len() as int);
            }
            if p.len() == 0 {
                return false;
            }
            match &p[0] {
                Sexpr::Atom(a) => str_eq(a.as_str(), name),
                Sexpr::List(_) => false,
            }
        },
        Sexpr::Atom(_) => false,
    }
}

/// The query with its `(assert ...)` forms in reverse order, every other
/// form in place, one form per line; `None` where it does not parse.
pub fn reorder_assertions(smtlib: &str) -> (r: Option<String>)
    ensures
        match sx_parse(smtlib@) {
            None => r is None,
            Some(fs) => r is Some && r.unwrap()@ == reordered(fs, fs.len() as int),
        },
{
    let forms = match parse_all(smtlib) {
        Ok(f) => f,
        Err(_) => {
            return None;
        },
    };
    let ghost fs = sxs(forms@);
    proof {
        lemma_sxs_v(forms@, forms@.len() as int);
    }
    let mut at: Vec<usize> = Vec::new();
    let mut k: usize = 0;
    while k < forms.len()
        invariant
            k <= forms.len(),
            fs == sxs(forms@),
            fs.len() == forms@.len(),
            forall|j: int| 0 <= j < forms@.len() ==> #[trigger] fs[j] == sx_v(forms@[j]),
            at@.len() == assert_forms(fs, k as int).len(),
            forall|j: int| 0 <= j < at@.len() ==> #[trigger] at@[j] < k && fs[at@[j] as int] == assert_forms(fs, k as int)[j],
        decreases forms.len() - k,
    {
        if head_is_atom(&forms[k], "assert") {
            at.push(k);
        }
        k += 1;
    }
    let ghost all = assert_forms(fs, fs.len() as int);
    let mut out = String::new();
    let mut used: usize = 0;
    let mut k: usize = 0;
    while k < forms.len()
        invariant
            k <= forms.len(),
            fs == sxs(forms@),
            fs.len() == forms@.len(),
            forall|j: int| 0 <= j < forms@.len() ==> #[trigger] fs[j] == sx_v(forms@[j]),
            all == assert_forms(fs, fs.len() as int),
            at@.len() == all.len(),
            forall|j: int| 0 <= j < at@.len() ==> #[trigger] at@[j] < forms.len() && fs[at@[j] as int] == all[j],
            used == assert_forms(fs, k as int).len(),
            out@ == reordered(fs, k as int),
        decreases forms.len() - k,
    {
        proof {
            lemma_assert_forms_prefix(fs, k as int, k + 1);
            lemma_assert_forms_prefix(fs, k + 1, fs.len() as int);
        }
        if head_is_atom(&forms[k], "assert") {
            let pick = at.len() - 1 - used;
            forms[at[pick]].render_into_line(&mut out);
            used += 1;
        } else {
            forms[k].render_into_line(&mut out);
        }
        k += 1;
    }
    Some(out)
}

impl Sexpr {
    /// Appends the rendering and a newline.
    fn render_into_line(&self, out: &mut String)
        ensures
            final(out)@ == old(out)@ + sx_render(sx_v(*self)) + "\n"@,
    {
        put(out, self.render().as_str());
        put(out, "\n");
    }
}

// ── the query that names its assertions ─────────────────────────────────

/// Readable words for the operators in a label.
pub open spec fn op_word(a: Seq<char>) -> Seq<char> {
    if a == "="@ {
        "eq"@
    } else if a == "distinct"@ {
        "ne"@
    } else if a == ">="@ {
        "ge"@
    } else if a == "<="@ {
        "le"@
    } else if a == ">"@ {
        "gt"@
    } else if a == "<"@ {
        "lt"@
    } else if a == "+"@ {
        "add"@
    } else if a == "-"@ {
        "sub"@
    } else if a == "*"@ {
        "mul"@
    } else {
        a
    }
}

pub open spec fn token_word(t: SSx) -> Seq<char> {
    match t {
        SSx::Atom(a) => op_word(a),
        SSx::List(_) => "expr"@,
    }
}

/// The words of the first `k` items, joined by `_`.
pub open spec fn words(ps: Seq<SSx>, k: int) -> Seq<char>
    decreases k,
{
    if k <= 0 || k > ps.len() {
        seq![]
    } else if k == 1 {
        token_word(ps[0])
    } else {
        words(ps, k - 1) + "_"@ + token_word(ps[k - 1])
    }
}

/// The text a label is made from: an atom itself, or the words of a list's
/// first three items.
pub open spec fn raw_hint(t: SSx) -> Seq<char> {
    match t {
        SSx::Atom(a) => a,
        SSx::List(ps) => words(ps, if ps.len() < 3 { ps.len() as int } else { 3 }),
    }
}

/// Each character that is neither alphanumeric nor `_` becomes `_`.
pub open spec fn label_chars(s: Seq<char>) -> Seq<char> {
    s.map_values(|c: char| if alphanumeric(c) || c == '_' { c } else { '_' })
}

/// `String::truncate(40)`: at most the first 40 bytes; `None` where byte 40
/// falls inside a character.
pub open spec fn cut40(cs: Seq<char>) -> Option<Seq<char>> {
    if byte_off(cs, cs.len() as int) <= 40 {
        Some(cs)
    } else if exists|k: int| 0 <= k <= cs.len() && byte_off(cs, k) == 40 {
        Some(cs.take(choose|k: int| 0 <= k <= cs.len() && byte_off(cs, k) == 40))
    } else {
        None
    }
}

/// The label text of a term: sanitised and cut to 40 bytes, `t` if empty.
pub open spec fn label_hint(t: SSx) -> Option<Seq<char>> {
    match cut40(label_chars(raw_hint(t))) {
        Some(s) => Some(if s.len() == 0 { "t"@ } else { s }),
        None => None,
    }
}

/// The label of the `n`-th assertion: `a<n>_<hint>`.
pub open spec fn core_label(t: SSx, n: nat) -> Option<Seq<char>> {
    match label_hint(t) {
        Some(h) => Some("a"@ + decimal(n) + "_"@ + h),
        None => None,
    }
}

/// The number of named assertions `(assert X)` among the first `k` forms.
pub open spec fn named_count(fs: Seq<SSx>, k: int) -> nat
    decreases k,
{
    if k <= 0 || k > fs.len() {
        0
    } else if head_is(fs[k - 1], "assert"@) && fs[k - 1]->List_0.len() == 2 {
        named_count(fs, k - 1) + 1
    } else {
        named_count(fs, k - 1)
    }
}

/// The first `k` forms with each `(assert X)` named, `(get-model)` and
/// `(get-unsat-core)` dropped, and every other form kept.
pub open spec fn named_body(fs: Seq<SSx>, k: int) -> Option<Seq<char>>
    decreases k,
{
    if k <= 0 || k > fs.len() {
        Some(seq![])
    } else {
        match named_body(fs, k - 1) {
            None => None,
            Some(pre) => {
                let f = fs[k - 1];
                if head_is(f, "assert"@) && f->List_0.len() == 2 {
                    match core_label(f->List_0[1], named_count(fs, k - 1)) {
                        Some(l) => Some(pre + "(assert (! "@ + sx_render(f->List_0[1]) + " :named "@ + l
                            + "))\n"@),
                        None => None,
                    }
                } else if head_is(f, "get-model"@) || head_is(f, "get-unsat-core"@) {
                    Some(pre)
                } else {
                    Some(pre + sx_render(f) + "\n"@)
                }
            },
        }
    }
}

/// The query asking for an unsat core.
pub open spec fn core_query(fs: Seq<SSx>) -> Option<Seq<char>> {
    match named_body(fs, fs.len() as int) {
        Some(b) => Some("(set-option :produce-unsat-cores true)\n"@ + b + "(get-unsat-core)\n"@),
        None => None,
    }
}

proof fn lemma_byte_off_strict(cs: Seq<char>, k: int, i: int)
    requires
        0 <= k < i <= cs.len(),
    ensures
        byte_off(cs, k) < byte_off(cs, i),
{
    lemma_byte_off_mono(cs, k, i - 1);
    lemma_byte_off_step(cs, i - 1);
}

/// `String::truncate(40)` on characters.
fn cut_40(cs: &Vec<char>) -> (r: Option<Vec<char>>)
    ensures
        match cut40(cs@) {
            Some(t) => r is Some && r.unwrap()@ == t,
            None => r is None,
        },
{
    let n = cs.len();
    let mut total: usize = 0;
    let mut i: usize = 0;
    assert(cs@.take(0) =~= Seq::<char>::empty());
    while i < n
        invariant
            i <= n == cs@.len(),
            total == byte_off(cs@, i as int),
            total <= 40,
        decreases n - i,
    {
        let w = utf8_char_len(cs[i]);
        proof {
            lemma_byte_off_step(cs@, i as int);
        }
        if total + w > 40 {
            proof {
                lemma_byte_off_mono(cs@, i + 1, n as int);
                assert forall|k: int| 0 <= k <= cs@.len() && byte_off(cs@, k) == 40 implies k == i by {
                    if k < i {
                        lemma_byte_off_strict(cs@, k, i as int);
                    } else if k > i {
                        lemma_byte_off_mono(cs@, i + 1, k);
                    }
                }
            }
            if total == 40 {
                let mut t: Vec<char> = Vec::new();
                let mut j: usize = 0;
                while j < i
                    invariant
                        j <= i < n == cs@.len(),
                        t@ == cs@.take(j as int),
                    decreases i - j,
                {
                    t.push(cs[j]);
                    j += 1;
                    assert(t@ =~= cs@.take(j as int));
                }
                return Some(t);
            }
            return None;
        }
        total += w;
        i += 1;
    }
    assert(cs@.take(n as int) =~= cs@);
    let mut t: Vec<char> = Vec::new();
    let mut j: usize = 0;
    while j < n
        invariant
            j <= n == cs@.len(),
            t@ == cs@.take(j as int),
        decreases n - j,
    {
        t.push(cs[j]);
        j += 1;
        assert(t@ =~= cs@.take(j as int));
    }
    Some(t)
}

fn op_word_of<'a>(a: &'a str) -> (r: &'a str)
    ensures
        r@ == op_word(a@),
{
    if str_eq(a, "=") {
        "eq"
    } else if str_eq(a, "distinct") {
        "ne"
    } else if str_eq(a, ">=") {
        "ge"
    } else if str_eq(a, "<=") {
        "le"
    } else if str_eq(a, ">") {
        "gt"
    } else if str_eq(a, "<") {
        "lt"
    } else if str_eq(a, "+") {
        "add"
    } else if str_eq(a, "-") {
        "sub"
    } else if str_eq(a, "*") {
        "mul"
    } else {
        a
    }
}

fn token_word_of(x: &Sexpr) -> (r: &str)
    ensures
        r@ == token_word(sx_v(*x)),
{
    match x {
        Sexpr::Atom(a) => op_word_of(a.as_str()),
        Sexpr::List(_) => "expr",
    }
}

/// The label text of a term.
fn label_hint_of(term: &Sexpr) -> (r: Option<String>)
    ensures
        match label_hint(sx_v(*term)) {
            Some(h) => r is Some && r.unwrap()@ == h,
            None => r is None,
        },
{
    let raw: Vec<char> = match term {
        Sexpr::Atom(a) => chars_of(a.as_str()),
        Sexpr::List(ps) => {
            let ghost pv = sxs(ps@);
            proof {
                lemma_sxs_v(ps@, ps@.len() as int);
            }
            let k: usize = if ps.len() < 3 { ps.len() } else { 3 };
            let mut w = String::new();
            let mut j: usize = 0;
            while j < k
                invariant
                    j <= k <= ps.len(),
                    pv == sxs(ps@),
                    pv.len() == ps@.len(),
                    forall|i: int| 0 <= i < ps@.len() ==> #[trigger] pv[i] == sx_v(ps@[i]),
                    w@ == words(pv, j as int),
                decreases k - j,
            {
                if j > 0 {
                    put(&mut w, "_");
                }
                put(&mut w, token_word_of(&ps[j]));
                j += 1;
            }
            chars_of(w.as_str())
        },
    };
    assert(raw@ == raw_hint(sx_v(*term)));
    let mut m: Vec<char> = Vec::new();
    let mut i: usize = 0;
    while i < raw.len()
        invariant
            i <= raw.len(),
            m@ == label_chars(raw@.take(i as int)),
        decreases raw.len() - i,
    {
        let c = raw[i];
        if is_alphanumeric(c) || c == '_' {
            m.push(c);
        } else {
            m.push('_');
        }
        i += 1;
        assert(m@ =~= label_chars(raw@.take(i as int)));
    }
    assert(raw@.take(raw@.len() as int) =~= raw@);
    match cut_40(&m) {
        None => None,
        Some(t) => {
            if t.len() == 0 {
                Some(String::from_str("t"))
            } else {
                Some(string_of(&t, 0, t.len()))
            }
        },
    }
}

/// The query for an unsat core: each `(assert X)` named with a readable
/// label, `(get-model)` and any `(get-unsat-core)` dropped, the rest kept,
/// between a line enabling cores and a line asking for one. `None` where the
/// query does not parse, or where a label would cut a character in two.
pub fn name_assertions_for_core(full_smtlib: &str) -> (r: Option<String>)
    ensures
        match sx_parse(full_smtlib@) {
            None => r is None,
            Some(fs) => match core_query(fs) {
                Some(q) => r is Some && r.unwrap()@ == q,
                None => r is None,
            },
        },
{
    let forms = match parse_all(full_smtlib) {
        Ok(f) => f,
        Err(_) => {
            return None;
        },
    };
    proof {
        lemma_sxs_v(forms@, forms@.len() as int);
    }
    let body = match named_body_of(&forms) {
        Some(b) => b,
        None => {
            return None;
        },
    };
    let mut out = String::from_str("(set-option :produce-unsat-cores true)\n");
    put(&mut out, body.as_str());
    put(&mut out, "(get-unsat-core)\n");
    Some(out)
}

/// The named body of a query's forms.
#[verifier::rlimit(30)]
fn named_body_of(forms: &Vec<Sexpr>) -> (r: Option<String>)
    ensures
        match named_body(sxs(forms@), forms@.len() as int) {
            Some(b) => r is Some && r.unwrap()@ == b,
            None => r is None,
        },
{
    let ghost fs = sxs(forms@);
    proof {
        lemma_sxs_v(forms@, forms@.len() as int);
    }
    let mut body = String::new();
    let mut count: usize = 0;
    let mut k: usize = 0;
    while k < forms.len()
        invariant
            k <= forms.len(),
            fs == sxs(forms@),
            fs.len() == forms@.len(),
            forall|j: int| 0 <= j < forms@.len() ==> #[trigger] fs[j] == sx_v(forms@[j]),
            count == named_count(fs, k as int),
            count <= k,
            named_body(fs, k as int) == Some(body@),
        decreases forms.len() - k,
    {
        let f = &forms[k];
        if head_is_atom(f, "assert") {
            match f {
                Sexpr::List(p) => {
                    proof {
                        lemma_sxs_v(p@, p@.len() as int);
                    }
                    if p.len() == 2 {
                        let hint = match label_hint_of(&p[1]) {
                            Some(h) => h,
                            None => {
                                proof {
                                    assert(fs[k as int]->List_0[1] == sx_v(p@[1]));
                                    assert(core_label(fs[k as int]->List_0[1], count as nat) is None);
                                    assert(named_body(fs, k + 1) is None);
                                    lemma_body_stays_none(fs, k + 1, fs.len() as int);
                                }
                                return None;
                            },
                        };
                        put(&mut body, "(assert (! ");
                        put(&mut body, p[1].render().as_str());
                        put(&mut body, " :named ");
                        put(&mut body, "a");
                        push_decimal(&mut body, count as u64);
                        put(&mut body, "_");
                        put(&mut body, hint.as_str());
                        put(&mut body, "))\n");
                        count += 1;
                        k += 1;
                        continue;
                    }
                },
                Sexpr::Atom(_) => {},
            }
        }
        if !(head_is_atom(f, "get-model") || head_is_atom(f, "get-unsat-core")) {
            put(&mut body, f.render().as_str());
            put(&mut body, "\n");
        }
        k += 1;
    }
    Some(body)
}

proof fn lemma_body_stays_none(fs: Seq<SSx>, k: int, n: int)
    requires
        0 < k <= n <= fs.len(),
        named_body(fs, k) is None,
    ensures
        named_body(fs, n) is None,
    decreases n - k,
{
    if k < n {
        lemma_body_stays_none(fs, k, n - 1);
    }
}

/// The atoms of the items.
pub open spec fn atoms_of(items: Seq<SSx>, k: int) -> Seq<Seq<char>>
    decreases k,
{
    if k <= 0 || k > items.len() {
        seq![]
    } else if items[k - 1] is Atom {
        atoms_of(items, k - 1).push(items[k - 1]->Atom_0)
    } else {
        atoms_of(items, k - 1)
    }
}

/// The labels of the first list after an `unsat` atom, from form `k` on.
pub open spec fn core_from(fs: Seq<SSx>, k: int, saw: bool) -> Seq<Seq<char>>
    decreases fs.len() - k,
{
    if k < 0 || k >= fs.len() {
        seq![]
    } else if is_atom(fs[k], "unsat"@) {
        core_from(fs, k + 1, true)
    } else if fs[k] is List && saw {
        atoms_of(fs[k]->List_0, fs[k]->List_0.len() as int)
    } else {
        core_from(fs, k + 1, saw)
    }
}

/// The labels of an unsat-core reply: the atoms of the first list after the
/// `unsat` verdict; none where there is no such list or the reply does not
/// parse.
#[verifier::loop_isolation(false)]
pub fn parse_unsat_core(stdout: &str) -> (r: Vec<String>)
    ensures
        match sx_parse(stdout@) {
            None => r@.len() == 0,
            Some(fs) => strings_v(r@) == core_from(fs, 0, false),
        },
{
    let forms = match parse_all(stdout) {
        Ok(f) => f,
        Err(_) => {
            return Vec::new();
        },
    };
    let ghost fs = sxs(forms@);
    proof {
        lemma_sxs_v(forms@, forms@.len() as int);
    }
    let mut saw = false;
    let mut k: usize = 0;
    while k < forms.len()
        invariant
            k <= forms.len(),
            fs == sxs(forms@),
            fs.len() == forms@.len(),
            forall|j: int| 0 <= j < forms@.len() ==> #[trigger] fs[j] == sx_v(forms@[j]),
            core_from(fs, 0, false) == core_from(fs, k as int, saw),
        decreases forms.len() - k,
    {
        match &forms[k] {
            Sexpr::Atom(a) => {
                if str_eq(a.as_str(), "unsat") {
                    saw = true;
                }
            },
            Sexpr::List(items) => {
                if saw {
                    let ghost iv = sxs(items@);
                    proof {
                        lemma_sxs_v(items@, items@.len() as int);
                    }
                    let mut out: Vec<String> = Vec::new();
                    let mut j: usize = 0;
                    while j < items.len()
                        invariant
                            j <= items.len(),
                            iv == sxs(items@),
                            iv.len() == items@.len(),
                            forall|i: int| 0 <= i < items@.len() ==> #[trigger] iv[i] == sx_v(items@[i]),
                            strings_v(out@) == atoms_of(iv, j as int),
                        decreases items.len() - j,
                    {
                        match &items[j] {
                            Sexpr::Atom(a) => {
                                let ghost before = out@;
                                out.push(a.clone());
                                assert(strings_v(out@) =~= strings_v(before).push(a@));
                            },
                            Sexpr::List(_) => {},
                        }
                        j += 1;
                    }
                    return out;
                }
            },
        }
        k += 1;
    }
    Vec::new()
}

// ── the protocol ────────────────────────────────────────────────────────

/// The solver's per-query time limit in whole seconds, at least one: the
/// milliseconds rounded up.
pub fn timeout_secs(timeout_ms: u64) -> (r: u64)
    ensures
        r as int == if timeout_ms == 0 { 1 } else { (timeout_ms + 999) / 1000 },
{
    let q = timeout_ms / 1000;
    let up = if timeout_ms % 1000 != 0 { q + 1 } else { q };
    if up == 0 { 1 } else { up }
}

/// What the solver last answered, by the run it answered.
#[derive(Debug)]
pub enum Event {
    /// The negated obligation, the transition and the obligation together.
    Primary(Verdict),
    /// The transition alone: is the entrypoint reachable?
    Probe(Verdict),
    /// The re-seeded run over the reordered negated obligation.
    CrossCheck(Verdict),
    /// The standard output of the unsat-core run, if it could be run.
    Core(Option<String>),
}

/// What to do next.
#[derive(Debug)]
pub enum Step {
    /// Run the transition alone; answer with `Event::Probe`.
    RunProbe,
    /// Run `doc` with the solver options `options`; answer with
    /// `Event::CrossCheck`.
    RunCrossCheck { doc: String, options: Vec<String> },
    /// Run `doc` and hand back its raw output; answer with `Event::Core`.
    RunCore { doc: String },
    /// Report this outcome.
    Finish(Outcome),
}

pub open spec fn disagree_msg(why: Seq<char>) -> Seq<char> {
    "negated VC unsat on the primary run, but the independent cross-check run ("@ + why
        + ") did not confirm unsat; reporting UNKNOWN, never PROVED"@
}

pub open spec fn probe_msg(why: Seq<char>) -> Seq<char> {
    "negated VC unsat but vacuity probe was indecisive ("@ + why + "); reporting UNKNOWN, never PROVED"@
}

pub open spec fn unknown_with(s: Step, msg: Seq<char>) -> bool {
    s matches Step::Finish(Outcome::Unknown { reason }) && reason@ == msg
}

pub open spec fn proved_with(s: Step, core: Seq<Seq<char>>) -> bool {
    s matches Step::Finish(Outcome::Proved { unsat_core }) && strings_v(unsat_core@) == core
}

/// The protocol's step on the query `full` (the transition with the negated
/// obligation) after the event `e`.
pub open spec fn next_step(full: Seq<char>, e: Event, s: Step) -> bool {
    match e {
        Event::Primary(v) => match v {
            Verdict::Sat { model } => if model@.len() == 0 {
                unknown_with(s, "z3 returned sat but produced no counter-model"@)
            } else {
                s matches Step::Finish(Outcome::Refuted { model: m, confidence }) && m@ == model@
                    && validation(full, model@, confidence)
            },
            Verdict::Unsat => s is RunProbe,
            Verdict::Indecisive { reason } => unknown_with(s, reason@),
            Verdict::Unavailable { reason } => unknown_with(s, reason@),
        },
        Event::Probe(v) => match v {
            Verdict::Sat { .. } => match sx_parse(full) {
                None => unknown_with(s, disagree_msg("could not reorder the query for an independent run"@)),
                Some(fs) => s matches Step::RunCrossCheck { doc, options } && doc@ == reordered(
                    fs,
                    fs.len() as int,
                ) && strings_v(options@) == seq!["sat.random_seed=42"@, "smt.random_seed=42"@],
            },
            Verdict::Unsat => unknown_with(
                s,
                "vacuous transition: guard conjunction unsatisfiable (entrypoint unreachable); reporting UNKNOWN, never PROVED"@,
            ),
            Verdict::Indecisive { reason } => unknown_with(s, probe_msg(reason@)),
            Verdict::Unavailable { reason } => unknown_with(s, probe_msg(reason@)),
        },
        Event::CrossCheck(v) => match v {
            Verdict::Unsat => if sx_parse(full) is Some && core_query(sx_parse(full).unwrap()) is Some {
                s matches Step::RunCore { doc } && doc@ == core_query(sx_parse(full).unwrap()).unwrap()
            } else {
                proved_with(s, seq![])
            },
            Verdict::Sat { .. } => unknown_with(s, disagree_msg("different-seed + reordered run returned sat"@)),
            Verdict::Indecisive { reason } => unknown_with(s, disagree_msg(reason@)),
            Verdict::Unavailable { reason } => unknown_with(s, disagree_msg(reason@)),
        },
        Event::Core(o) => match o {
            None => proved_with(s, seq![]),
            Some(out) => proved_with(
                s,
                match sx_parse(out@) {
                    None => seq![],
                    Some(fs) => core_from(fs, 0, false),
                },
            ),
        },
    }
}

fn disagreement(why: &str) -> (s: Step)
    ensures
        unknown_with(s, disagree_msg(why@)),
{
    let mut reason = String::from_str("negated VC unsat on the primary run, but the independent cross-check run (");
    put(&mut reason, why);
    put(&mut reason, ") did not confirm unsat; reporting UNKNOWN, never PROVED");
    Step::Finish(Outcome::Unknown { reason })
}

fn probe_indecisive(why: &str) -> (s: Step)
    ensures
        unknown_with(s, probe_msg(why@)),
{
    let mut reason = String::from_str("negated VC unsat but vacuity probe was indecisive (");
    put(&mut reason, why);
    put(&mut reason, "); reporting UNKNOWN, never PROVED");
    Step::Finish(Outcome::Unknown { reason })
}

/// One step of discharging an obligation: given the query `full_smtlib`
/// (transition and negated obligation) and what the solver last answered,
/// what to run next or what to report.
pub fn discharge_step(full_smtlib: &str, event: Event) -> (s: Step)
    ensures
        next_step(full_smtlib@, event, s),
{
    match event {
        Event::Primary(v) => match v {
            Verdict::Sat { model } => {
                if model.as_str().is_empty() {
                    Step::Finish(
                        Outcome::Unknown {
                            reason: String::from_str("z3 returned sat but produced no counter-model"),
                        },
                    )
                } else {
                    let confidence = crate::validate::validate_refutation(full_smtlib, model.as_str());
                    Step::Finish(Outcome::Refuted { model, confidence })
                }
            },
            Verdict::Unsat => Step::RunProbe,
            Verdict::Indecisive { reason } => Step::Finish(Outcome::Unknown { reason }),
            Verdict::Unavailable { reason } => Step::Finish(Outcome::Unknown { reason }),
        },
        Event::Probe(v) => match v {
            Verdict::Sat { .. } => match reorder_assertions(full_smtlib) {
                None => disagreement("could not reorder the query for an independent run"),
                Some(doc) => {
                    let mut options: Vec<String> = Vec::new();
                    options.push(String::from_str("sat.random_seed=42"));
                    options.push(String::from_str("smt.random_seed=42"));
                    assert(strings_v(options@) =~= seq!["sat.random_seed=42"@, "smt.random_seed=42"@]);
                    Step::RunCrossCheck { doc, options }
                },
            },
            Verdict::Unsat => Step::Finish(
                Outcome::Unknown {
                    reason: String::from_str(
                        "vacuous transition: guard conjunction unsatisfiable (entrypoint unreachable); reporting UNKNOWN, never PROVED",
                    ),
                },
            ),
            Verdict::Indecisive { reason } => probe_indecisive(reason.as_str()),
            Verdict::Unavailable { reason } => probe_indecisive(reason.as_str()),
        },
        Event::CrossCheck(v) => match v {
            Verdict::Unsat => match name_assertions_for_core(full_smtlib) {
                Some(doc) => Step::RunCore { doc },
                None => {
                    let unsat_core: Vec<String> = Vec::new();
                    assert(strings_v(unsat_core@) =~= Seq::<Seq<char>>::empty());
                    Step::Finish(Outcome::Proved { unsat_core })
                },
            },
            Verdict::Sat { .. } => disagreement("different-seed + reordered run returned sat"),
            Verdict::Indecisive { reason } => disagreement(reason.as_str()),
            Verdict::Unavailable { reason } => disagreement(reason.as_str()),
        },
        Event::Core(o) => match o {
            None => {
                let unsat_core: Vec<String> = Vec::new();
                assert(strings_v(unsat_core@) =~= Seq::<Seq<char>>::empty());
                Step::Finish(Outcome::Proved { unsat_core })
            },
            Some(out) => {
                let unsat_core = parse_unsat_core(out.as_str());
                assert(sx_parse(out@) is None ==> strings_v(unsat_core@) =~= Seq::<Seq<char>>::empty());
                Step::Finish(Outcome::Proved { unsat_core })
            },
        },
    }
}

/// Whether the replay of `model` against `full_smtlib` would meet an
/// operator applied to too few operands (its counter-model then stays a
/// `Candidate`).
pub fn replay_gets_stuck(full_smtlib: &str, model: &str) -> (r: bool)
    ensures
        r == replay_stuck(full_smtlib@, model@),
{
    let w = replay_refutation(full_smtlib, model);
    proof {
        crate::validate::lemma_replay_stuck(full_smtlib@, model@, w);
    }
    w.is_none()
}

// ── laws of the protocol ────────────────────────────────────────────────

/// Only the literal verdict `unsat` (the first non-blank line, trimmed)
/// reads as `Unsat`.
pub proof fn law_only_literal_unsat(out: Seq<char>, r: Verdict)
    requires
        reads_as(out, r),
        r is Unsat,
    ensures
        first_nonblank(lines_from(out, 0), 0) < lines_from(out, 0).len(),
        trim(lines_from(out, 0)[first_nonblank(lines_from(out, 0), 0)]) == "unsat"@,
{
    reveal_strlit("unsat");
    reveal_strlit("sat");
    let ls = lines_from(out, 0);
    let k = first_nonblank(ls, 0);
    if k >= ls.len() {
        assert(Seq::<char>::empty() != "unsat"@);
    }
}

/// The protocol reports `Proved` only at its last steps: after the
/// re-seeded cross-check answered `unsat` (itself run only after the
/// transition probe answered `sat`, which follows only an `unsat` of the
/// negated obligation), or with the unsat core of such a run.
pub proof fn law_proved_only_after_agreement(full: Seq<char>, e: Event, s: Step)
    requires
        next_step(full, e, s),
    ensures
        s matches Step::Finish(Outcome::Proved { .. }) ==> (e matches Event::CrossCheck(Verdict::Unsat)
            || e is Core),
        s is RunCore ==> e matches Event::CrossCheck(Verdict::Unsat),
        s is RunCrossCheck ==> e matches Event::Probe(Verdict::Sat { .. }),
        s is RunProbe ==> e matches Event::Primary(Verdict::Unsat),
{
}

/// A `sat` of the negated obligation is a `Refuted` carrying the model, and
/// only such a `sat` is; a vacuous transition (the probe answered `unsat`) is
/// never `Proved`.
pub proof fn law_refuted_only_from_sat(full: Seq<char>, e: Event, s: Step)
    requires
        next_step(full, e, s),
    ensures
        s matches Step::Finish(Outcome::Refuted { .. }) ==> e matches Event::Primary(Verdict::Sat { .. }),
        e matches Event::Probe(Verdict::Unsat) ==> s matches Step::Finish(Outcome::Unknown { .. }),
{
}

} // verus!
