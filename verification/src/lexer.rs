//! The Portrait tokenizer. Source text is split into identifiers, decimal
//! numerals, the two-character operators `->`, `<=`, `>=`, `==`, `!=`,
//! `&&`, `||`, and single-character symbols; whitespace and `//` line
//! comments are skipped. Every token records its byte span in the source
//! (for diagnostics) and its character span (for slicing).

use vstd::prelude::*;
use vstd::utf8::*;

verus! {

broadcast use vstd::seq_lib::group_seq_properties;

// ── character classes ───────────────────────────────────────────────────

/// Unicode `White_Space` (what `char::is_whitespace` tests).
pub open spec fn is_white(c: char) -> bool {
    let u = c as u32;
    ||| 9 <= u <= 13
    ||| u == 32
    ||| u == 0x85
    ||| u == 0xA0
    ||| u == 0x1680
    ||| 0x2000 <= u <= 0x200A
    ||| u == 0x2028
    ||| u == 0x2029
    ||| u == 0x202F
    ||| u == 0x205F
    ||| u == 0x3000
}

/// ASCII letter.
pub open spec fn is_alpha(c: char) -> bool {
    let u = c as u32;
    (65 <= u <= 90) || (97 <= u <= 122)
}

/// ASCII decimal digit.
pub open spec fn is_digit(c: char) -> bool {
    let u = c as u32;
    48 <= u <= 57
}

/// A character that may begin an identifier.
pub open spec fn is_ident_start(c: char) -> bool {
    is_alpha(c) || c == '_'
}

/// A character that may continue an identifier.
pub open spec fn is_ident_char(c: char) -> bool {
    is_alpha(c) || is_digit(c) || c == '_'
}

/// Whether `c` is whitespace (`char::is_whitespace`).
pub fn white(c: char) -> (r: bool)
    ensures
        r == is_white(c),
{
    let u = c as u32;
    (9 <= u && u <= 13) || u == 32 || u == 0x85 || u == 0xA0 || u == 0x1680 || (0x2000 <= u && u
        <= 0x200A) || u == 0x2028 || u == 0x2029 || u == 0x202F || u == 0x205F || u == 0x3000
}

/// Whether `c` is an ASCII letter.
pub fn alpha(c: char) -> (r: bool)
    ensures
        r == is_alpha(c),
{
    let u = c as u32;
    (65 <= u && u <= 90) || (97 <= u && u <= 122)
}

/// Whether `c` is an ASCII decimal digit.
pub fn digit(c: char) -> (r: bool)
    ensures
        r == is_digit(c),
{
    let u = c as u32;
    48 <= u && u <= 57
}

/// Whether `c` may continue an identifier.
pub fn ident_char(c: char) -> (r: bool)
    ensures
        r == is_ident_char(c),
{
    alpha(c) || digit(c) || c == '_'
}

// ── byte offsets ────────────────────────────────────────────────────────

/// The byte offset, in the UTF-8 encoding of `cs`, of character index `i`.
pub open spec fn byte_off(cs: Seq<char>, i: int) -> int {
    encode_utf8(cs.take(i)).len() as int
}

/// The number of bytes `c` takes in UTF-8 (`char::len_utf8`).
pub fn utf8_char_len(c: char) -> (r: usize)
    ensures
        r == encode_scalar(c as u32).len(),
        1 <= r <= 4,
{
    let u = c as u32;
    if u <= 0x7F {
        1
    } else if u <= 0x7FF {
        2
    } else if u <= 0xFFFF {
        proof {
            char_is_scalar(c);
        }
        3
    } else {
        proof {
            char_is_scalar(c);
        }
        4
    }
}

/// The UTF-8 encoding of a concatenation is the concatenation of encodings.
pub proof fn lemma_encode_append(a: Seq<char>, b: Seq<char>)
    ensures
        encode_utf8(a + b) == encode_utf8(a) + encode_utf8(b),
    decreases a.len(),
{
    if a.len() == 0 {
        assert(a + b =~= b);
    } else {
        assert((a + b).drop_first() =~= a.drop_first() + b);
        lemma_encode_append(a.drop_first(), b);
        assert(encode_utf8(a + b) =~= encode_utf8(a) + encode_utf8(b));
    }
}

/// Advancing one character advances the byte offset by that character's width.
pub proof fn lemma_byte_off_step(cs: Seq<char>, i: int)
    requires
        0 <= i < cs.len(),
    ensures
        byte_off(cs, i + 1) == byte_off(cs, i) + encode_scalar(cs[i] as u32).len(),
{
    assert(cs.take(i + 1) =~= cs.take(i) + seq![cs[i]]);
    lemma_encode_append(cs.take(i), seq![cs[i]]);
    assert(seq![cs[i]].drop_first() =~= Seq::<char>::empty());
    reveal_with_fuel(encode_utf8, 2);
    assert(encode_utf8(seq![cs[i]]) =~= encode_scalar(cs[i] as u32));
}

/// Byte offsets grow with the character index.
pub proof fn lemma_byte_off_mono(cs: Seq<char>, i: int, j: int)
    requires
        0 <= i <= j <= cs.len(),
    ensures
        byte_off(cs, i) <= byte_off(cs, j),
{
    assert(cs.take(j) =~= cs.take(i) + cs.subrange(i, j));
    lemma_encode_append(cs.take(i), cs.subrange(i, j));
}

// ── the token stream, as a specification ────────────────────────────────

/// Token kinds. `Ident` and `Number` carry their text in the source span;
/// `Symbol` carries the code of its character.
pub enum LexKind {
    Ident,
    Number,
    Symbol(u32),
    Arrow,
    Le,
    Ge,
    EqEq,
    Ne,
    AndAnd,
    OrOr,
}

/// A token over character indices `[start, end)` of the source.
pub struct LexTok {
    pub kind: LexKind,
    pub start: int,
    pub end: int,
}

/// The end of the identifier run that continues at `j`.
pub open spec fn ident_end(cs: Seq<char>, j: int) -> int
    decreases cs.len() - j,
{
    if 0 <= j < cs.len() && is_ident_char(cs[j]) {
        ident_end(cs, j + 1)
    } else {
        j
    }
}

/// The end of the digit run that continues at `j`.
pub open spec fn digits_end(cs: Seq<char>, j: int) -> int
    decreases cs.len() - j,
{
    if 0 <= j < cs.len() && is_digit(cs[j]) {
        digits_end(cs, j + 1)
    } else {
        j
    }
}

/// The index of the first newline at or after `j` (or the end of input).
pub open spec fn line_end(cs: Seq<char>, j: int) -> int
    decreases cs.len() - j,
{
    if 0 <= j < cs.len() && cs[j] != '\n' {
        line_end(cs, j + 1)
    } else {
        j
    }
}

pub proof fn lemma_ident_end(cs: Seq<char>, j: int)
    ensures
        j <= ident_end(cs, j),
        0 <= j <= cs.len() ==> ident_end(cs, j) <= cs.len(),
        forall|k: int| j <= k < ident_end(cs, j) ==> is_ident_char(#[trigger] cs[k]),
    decreases cs.len() - j,
{
    if 0 <= j < cs.len() && is_ident_char(cs[j]) {
        lemma_ident_end(cs, j + 1);
    }
}

pub proof fn lemma_digits_end(cs: Seq<char>, j: int)
    ensures
        j <= digits_end(cs, j),
        0 <= j <= cs.len() ==> digits_end(cs, j) <= cs.len(),
        forall|k: int| j <= k < digits_end(cs, j) ==> is_digit(#[trigger] cs[k]),
    decreases cs.len() - j,
{
    if 0 <= j < cs.len() && is_digit(cs[j]) {
        lemma_digits_end(cs, j + 1);
    }
}

pub proof fn lemma_line_end(cs: Seq<char>, j: int)
    ensures
        j <= line_end(cs, j),
        0 <= j <= cs.len() ==> line_end(cs, j) <= cs.len(),
    decreases cs.len() - j,
{
    if 0 <= j < cs.len() && cs[j] != '\n' {
        lemma_line_end(cs, j + 1);
    }
}

/// The two-character operator that `c` followed by `d` spells, if any.
pub open spec fn pair_kind(c: char, d: char) -> Option<LexKind> {
    if c == '-' && d == '>' {
        Some(LexKind::Arrow)
    } else if c == '<' && d == '=' {
        Some(LexKind::Le)
    } else if c == '>' && d == '=' {
        Some(LexKind::Ge)
    } else if c == '=' && d == '=' {
        Some(LexKind::EqEq)
    } else if c == '!' && d == '=' {
        Some(LexKind::Ne)
    } else if c == '&' && d == '&' {
        Some(LexKind::AndAnd)
    } else if c == '|' && d == '|' {
        Some(LexKind::OrOr)
    } else {
        None
    }
}

/// The two-character operator starting at index `i`, if any.
pub open spec fn next_pair(cs: Seq<char>, i: int) -> Option<LexKind> {
    if 0 <= i && i + 1 < cs.len() {
        pair_kind(cs[i], cs[i + 1])
    } else {
        None
    }
}

/// The tokens of `cs` from character index `i` on.
pub open spec fn lex_from(cs: Seq<char>, i: int) -> Seq<LexTok>
    decreases cs.len() - i,
    via lex_from_decreases
{
    if i < 0 || i >= cs.len() {
        seq![]
    } else if is_white(cs[i]) {
        lex_from(cs, i + 1)
    } else if cs[i] == '/' && i + 1 < cs.len() && cs[i + 1] == '/' {
        lex_from(cs, line_end(cs, i + 2))
    } else if is_ident_start(cs[i]) {
        let j = ident_end(cs, i + 1);
        seq![LexTok { kind: LexKind::Ident, start: i, end: j }] + lex_from(cs, j)
    } else if is_digit(cs[i]) {
        let j = digits_end(cs, i + 1);
        seq![LexTok { kind: LexKind::Number, start: i, end: j }] + lex_from(cs, j)
    } else {
        match next_pair(cs, i) {
            Some(k) => seq![LexTok { kind: k, start: i, end: i + 2 }] + lex_from(cs, i + 2),
            None => seq![LexTok { kind: LexKind::Symbol(cs[i] as u32), start: i, end: i + 1 }]
                + lex_from(cs, i + 1),
        }
    }
}

#[via_fn]
proof fn lex_from_decreases(cs: Seq<char>, i: int) {
    lemma_line_end(cs, i + 2);
    lemma_ident_end(cs, i + 1);
    lemma_digits_end(cs, i + 1);
}

/// A character that starts no skip, word, numeral or operator is a
/// single-character symbol token.
pub proof fn lemma_lex_symbol(cs: Seq<char>, i: int)
    requires
        0 <= i < cs.len(),
        !is_white(cs[i]),
        !(cs[i] == '/' && i + 1 < cs.len() && cs[i + 1] == '/'),
        !is_ident_start(cs[i]),
        !is_digit(cs[i]),
        next_pair(cs, i) is None,
    ensures
        lex_from(cs, i) == seq![LexTok { kind: LexKind::Symbol(cs[i] as u32), start: i, end: i + 1 }]
            + lex_from(cs, i + 1),
{
}

/// The tokens of a whole source text.
pub open spec fn lex(cs: Seq<char>) -> Seq<LexTok> {
    lex_from(cs, 0)
}

// ── executable tokens ───────────────────────────────────────────────────

/// Token kinds, with the text of identifiers and numerals and the code of
/// a symbol character.
#[derive(Debug, Clone, PartialEq)]
pub enum TokenKind {
    Ident(String),
    Number(String),
    Symbol(u32),
    Arrow,
    Le,
    Ge,
    EqEq,
    Ne,
    AndAnd,
    OrOr,
}

/// A token: its kind, its byte span `[start, end)` and its character span
/// `[cstart, cend)` in the source.
#[derive(Debug, Clone)]
pub struct Token {
    pub kind: TokenKind,
    pub start: usize,
    pub end: usize,
    pub cstart: usize,
    pub cend: usize,
}

/// The specification kind of an executable kind.
pub open spec fn kind_view(k: TokenKind) -> LexKind {
    match k {
        TokenKind::Ident(_) => LexKind::Ident,
        TokenKind::Number(_) => LexKind::Number,
        TokenKind::Symbol(c) => LexKind::Symbol(c),
        TokenKind::Arrow => LexKind::Arrow,
        TokenKind::Le => LexKind::Le,
        TokenKind::Ge => LexKind::Ge,
        TokenKind::EqEq => LexKind::EqEq,
        TokenKind::Ne => LexKind::Ne,
        TokenKind::AndAnd => LexKind::AndAnd,
        TokenKind::OrOr => LexKind::OrOr,
    }
}

/// The specification token of an executable token (character span).
pub open spec fn tok_view(t: Token) -> LexTok {
    LexTok { kind: kind_view(t.kind), start: t.cstart as int, end: t.cend as int }
}

/// An executable token agrees with the source `cs`: its text is the source
/// span, and its byte span is the UTF-8 offset of its character span.
pub open spec fn tok_wf(t: Token, cs: Seq<char>) -> bool {
    &&& t.cstart < t.cend <= cs.len()
    &&& t.start == byte_off(cs, t.cstart as int)
    &&& t.end == byte_off(cs, t.cend as int)
    &&& match t.kind {
        TokenKind::Ident(s) => s@ == cs.subrange(t.cstart as int, t.cend as int),
        TokenKind::Number(s) => s@ == cs.subrange(t.cstart as int, t.cend as int),
        _ => true,
    }
}

/// The specification tokens of a token sequence.
pub open spec fn views(toks: Seq<Token>) -> Seq<LexTok> {
    toks.map_values(|t: Token| tok_view(t))
}

pub proof fn lemma_views_push(toks: Seq<Token>, t: Token)
    ensures
        views(toks.push(t)) == views(toks).push(tok_view(t)),
{
    assert(views(toks.push(t)) =~= views(toks).push(tok_view(t)));
}

/// A token vector is exactly the token stream of `cs`, each token agreeing
/// with the source.
pub open spec fn tokens_of(toks: Seq<Token>, cs: Seq<char>) -> bool {
    &&& views(toks) == lex(cs)
    &&& forall|k: int| 0 <= k < toks.len() ==> tok_wf(#[trigger] toks[k], cs)
}

/// The characters of a string slice, in order.
pub fn chars_of(src: &str) -> (v: Vec<char>)
    ensures
        v@ == src@,
{
    let mut v: Vec<char> = Vec::new();
    for c in it: src.chars()
        invariant
            v@ == it.seq().take(it.index() as int),
            it.seq() == src@,
    {
        v.push(c);
    }
    v
}

/// A `String` holding the characters `cs[from..to]`.
pub fn string_of(cs: &Vec<char>, from: usize, to: usize) -> (s: String)
    requires
        from <= to <= cs.len(),
    ensures
        s@ == cs@.subrange(from as int, to as int),
{
    let mut s = String::new();
    let mut k = from;
    while k < to
        invariant
            from <= k <= to <= cs.len(),
            s@ == cs@.subrange(from as int, k as int),
        decreases to - k,
    {
        crate::text::push_char(&mut s, cs[k]);
        k += 1;
        assert(s@ =~= cs@.subrange(from as int, k as int));
    }
    s
}

/// The two-character operator `c` `d`, if any.
fn pair_token(c: char, d: char) -> (r: Option<TokenKind>)
    ensures
        r is Some <==> pair_kind(c, d) is Some,
        r is Some ==> kind_view(r->0) == pair_kind(c, d)->0,
        r is Some ==> !(r->0 is Ident) && !(r->0 is Number),
{
    if c == '-' && d == '>' {
        Some(TokenKind::Arrow)
    } else if c == '<' && d == '=' {
        Some(TokenKind::Le)
    } else if c == '>' && d == '=' {
        Some(TokenKind::Ge)
    } else if c == '=' && d == '=' {
        Some(TokenKind::EqEq)
    } else if c == '!' && d == '=' {
        Some(TokenKind::Ne)
    } else if c == '&' && d == '&' {
        Some(TokenKind::AndAnd)
    } else if c == '|' && d == '|' {
        Some(TokenKind::OrOr)
    } else {
        None
    }
}

/// Advances `(j, b)` over the characters `cs[j..to]`, keeping `b` the byte
/// offset of `j`.
fn advance_bytes(cs: &Vec<char>, j: usize, b: usize, to: usize, total: usize) -> (r: usize)
    requires
        j <= to <= cs.len(),
        b == byte_off(cs@, j as int),
        total == byte_off(cs@, cs.len() as int),
    ensures
        r == byte_off(cs@, to as int),
{
    let mut k = j;
    let mut bb = b;
    while k < to
        invariant
            j <= k <= to <= cs.len(),
            bb == byte_off(cs@, k as int),
            total == byte_off(cs@, cs.len() as int),
        decreases to - k,
    {
        proof {
            lemma_byte_off_step(cs@, k as int);
            lemma_byte_off_mono(cs@, k + 1, cs.len() as int);
        }
        bb = bb + utf8_char_len(cs[k]);
        k += 1;
    }
    bb
}

/// One step of the tokenizer at character `i` (byte offset `b`): the token
/// that starts there, if any, and the index and byte offset where the next
/// step begins.
fn lex_step(cs: &Vec<char>, i: usize, b: usize, total: usize) -> (r: (Option<Token>, usize, usize))
    requires
        i < cs.len(),
        b == byte_off(cs@, i as int),
        total == byte_off(cs@, cs.len() as int),
    ensures
        i < r.1 <= cs.len(),
        r.2 == byte_off(cs@, r.1 as int),
        lex_from(cs@, i as int) == (match r.0 {
            Some(t) => seq![tok_view(t)],
            None => Seq::<LexTok>::empty(),
        }) + lex_from(cs@, r.1 as int),
        r.0 matches Some(t) ==> tok_wf(t, cs@),
{
    let n = cs.len();
    let c = cs[i];
    let ghost gi = i as int;
    if white(c) {
        let e = advance_bytes(cs, i, b, i + 1, total);
        assert(Seq::<LexTok>::empty() + lex_from(cs@, gi + 1) =~= lex_from(cs@, gi + 1));
        (None, i + 1, e)
    } else if c == '/' && i + 1 < n && cs[i + 1] == '/' {
        let mut j = i + 2;
        while j < n && cs[j] != '\n'
            invariant
                i + 2 <= j <= n,
                n == cs.len(),
                line_end(cs@, j as int) == line_end(cs@, gi + 2),
            decreases n - j,
        {
            j += 1;
        }
        let e = advance_bytes(cs, i, b, j, total);
        assert(Seq::<LexTok>::empty() + lex_from(cs@, j as int) =~= lex_from(cs@, j as int));
        (None, j, e)
    } else if alpha(c) || c == '_' {
        let mut j = i + 1;
        while j < n && ident_char(cs[j])
            invariant
                i + 1 <= j <= n,
                n == cs.len(),
                ident_end(cs@, j as int) == ident_end(cs@, gi + 1),
            decreases n - j,
        {
            j += 1;
        }
        let text = string_of(cs, i, j);
        let e = advance_bytes(cs, i, b, j, total);
        let t = Token { kind: TokenKind::Ident(text), start: b, end: e, cstart: i, cend: j };
        (Some(t), j, e)
    } else if digit(c) {
        let mut j = i + 1;
        while j < n && digit(cs[j])
            invariant
                i + 1 <= j <= n,
                n == cs.len(),
                digits_end(cs@, j as int) == digits_end(cs@, gi + 1),
            decreases n - j,
        {
            j += 1;
        }
        let text = string_of(cs, i, j);
        let e = advance_bytes(cs, i, b, j, total);
        let t = Token { kind: TokenKind::Number(text), start: b, end: e, cstart: i, cend: j };
        (Some(t), j, e)
    } else {
        let pair = if i + 1 < n {
            pair_token(c, cs[i + 1])
        } else {
            None
        };
        let j = if pair.is_some() {
            i + 2
        } else {
            i + 1
        };
        let kind = match pair {
            Some(k) => k,
            None => TokenKind::Symbol(c as u32),
        };
        let e = advance_bytes(cs, i, b, j, total);
        let t = Token { kind: kind, start: b, end: e, cstart: i, cend: j };
        proof {
            if next_pair(cs@, gi) is None {
                lemma_lex_symbol(cs@, gi);
            }
        }
        (Some(t), j, e)
    }
}

/// Tokenizes a whole source text (as characters). `total` is the byte length
/// of the UTF-8 encoding of `cs`.
pub fn tokenize_chars(cs: &Vec<char>, total: usize) -> (toks: Vec<Token>)
    requires
        total == byte_off(cs@, cs.len() as int),
    ensures
        tokens_of(toks@, cs@),
{
    let n = cs.len();
    let mut toks: Vec<Token> = Vec::new();
    let mut i: usize = 0;
    let mut b: usize = 0;
    proof {
        assert(cs@.take(0) =~= Seq::<char>::empty());
    }
    while i < n
        invariant
            n == cs.len(),
            i <= n,
            b == byte_off(cs@, i as int),
            total == byte_off(cs@, n as int),
            views(toks@) + lex_from(cs@, i as int) == lex(cs@),
            forall|k: int| 0 <= k < toks@.len() ==> tok_wf(#[trigger] toks@[k], cs@),
        decreases n - i,
    {
        let ghost old_toks = toks@;
        let ghost gi = i as int;
        let (tok, j, e) = lex_step(cs, i, b, total);
        match tok {
            Some(t) => {
                let ghost tv = tok_view(t);
                toks.push(t);
                proof {
                    lemma_views_push(old_toks, t);
                    assert(views(old_toks) + seq![tv] + lex_from(cs@, j as int) =~= views(
                        old_toks,
                    ) + (seq![tv] + lex_from(cs@, j as int)));
                }
            },
            None => {
                assert(Seq::<LexTok>::empty() + lex_from(cs@, j as int) =~= lex_from(
                    cs@,
                    j as int,
                ));
            },
        }
        i = j;
        b = e;
    }
    assert(views(toks@) + lex_from(cs@, n as int) =~= views(toks@));
    toks
}

/// The characters of `src` together with the byte length of its encoding.
pub fn source_chars(src: &str) -> (r: (Vec<char>, usize))
    ensures
        r.0@ == src@,
        r.1 == byte_off(src@, src@.len() as int),
{
    let cs = chars_of(src);
    let bytes = src.as_bytes();
    let total = bytes.len();
    assert(src@.take(src@.len() as int) =~= src@);
    (cs, total)
}

/// Tokenizes a source text: the result is exactly the token stream [`lex`]
/// of its characters.
pub fn tokenize(src: &str) -> (toks: Vec<Token>)
    ensures
        tokens_of(toks@, src@),
{
    let (cs, total) = source_chars(src);
    tokenize_chars(&cs, total)
}

} // verus!
