//! Rendering expressions and `return` expressions back to silverscript
//! surface syntax: canonical spacing, operators spelled as in the source,
//! no added parentheses.

use vstd::prelude::*;
use crate::ast::{BinOp, Expr, ReturnExpr, UnOp};
use crate::model::{SExpr, SReturn, expr_v, exprs_v, return_v};
use crate::text::{digit_char, signed_decimal};

verus! {

/// The surface spelling of a binary operator.
pub open spec fn binop_str(op: BinOp) -> Seq<char> {
    match op {
        BinOp::Add => "+"@,
        BinOp::Sub => "-"@,
        BinOp::Mul => "*"@,
        BinOp::Eq => "=="@,
        BinOp::Ne => "!="@,
        BinOp::Ge => ">="@,
        BinOp::Le => "<="@,
        BinOp::Gt => ">"@,
        BinOp::Lt => "<"@,
        BinOp::And => "&&"@,
        BinOp::Or => "||"@,
    }
}

/// The surface spelling of a unary operator.
pub open spec fn unop_str(op: UnOp) -> Seq<char> {
    match op {
        UnOp::Neg => "-"@,
        UnOp::Not => "!"@,
    }
}

/// A lowercase hexadecimal digit.
pub open spec fn hex_char(d: nat) -> char {
    if d < 10 {
        digit_char(d)
    } else {
        (87 + d) as char
    }
}

/// Two lowercase hex digits per byte.
pub open spec fn hex(bs: Seq<u8>) -> Seq<char>
    decreases bs.len(),
{
    if bs.len() == 0 {
        seq![]
    } else {
        hex(bs.drop_last()) + seq![
            hex_char((bs.last() / 16) as nat),
            hex_char((bs.last() % 16) as nat),
        ]
    }
}

/// The canonical rendering of an expression.
pub open spec fn render(e: SExpr) -> Seq<char>
    decreases e, 1nat,
{
    match e {
        SExpr::Int(n) => signed_decimal(n as int),
        SExpr::Bool(b) => if b {
            "true"@
        } else {
            "false"@
        },
        SExpr::Bytes(bs) => "0x"@ + hex(bs),
        SExpr::Var(n) => n,
        SExpr::Field(b, f) => render(*b) + "."@ + f,
        SExpr::Index(b, i) => render(*b) + "["@ + render(*i) + "]"@,
        SExpr::Unary(op, r) => unop_str(op) + render(*r),
        SExpr::Binary(op, l, r) => render(*l) + " "@ + binop_str(op) + " "@ + render(*r),
        SExpr::Call(n, args) => n + "("@ + render_list(args, args.len() as int) + ")"@,
    }
}

/// The renderings of the first `k` expressions of `args`, joined by `", "`.
pub open spec fn render_list(args: Seq<SExpr>, k: int) -> Seq<char>
    decreases args, 0nat, k,
{
    if k <= 0 || k > args.len() {
        seq![]
    } else if k == 1 {
        render(args[0])
    } else {
        render_list(args, k - 1) + ", "@ + render(args[k - 1])
    }
}

/// The rendering of the first `k` `field: value` pairs, joined by `", "`.
pub open spec fn render_fields(fields: Seq<(Seq<char>, SExpr)>, k: int) -> Seq<char>
    decreases k,
{
    if k <= 0 || k > fields.len() {
        seq![]
    } else if k == 1 {
        fields[0].0 + ": "@ + render(fields[0].1)
    } else {
        render_fields(fields, k - 1) + ", "@ + fields[k - 1].0 + ": "@ + render(fields[k - 1].1)
    }
}

/// The canonical rendering of a `return` expression: the scalar expression,
/// or `Head { f: v, ... }` (`{ f: v, ... }` without a head).
pub open spec fn render_return(r: SReturn) -> Seq<char> {
    match r {
        SReturn::Scalar(e) => render(e),
        SReturn::Object(name, fields) => {
            let head = match name {
                Some(n) => n,
                None => seq![],
            };
            let body = render_fields(fields, fields.len() as int);
            if head.len() == 0 {
                "{ "@ + body + " }"@
            } else {
                head + " { "@ + body + " }"@
            }
        },
    }
}

pub proof fn lemma_exprs_v(s: Seq<Expr>, n: int)
    requires
        0 <= n <= s.len(),
    ensures
        exprs_v(s, n).len() == n,
        forall|k: int| 0 <= k < n ==> #[trigger] exprs_v(s, n)[k] == expr_v(s[k]),
    decreases n,
{
    if n > 0 {
        lemma_exprs_v(s, n - 1);
    }
}

/// Appends a literal.
pub(crate) fn put(out: &mut String, s: &str)
    ensures
        final(out)@ == old(out)@ + s@,
{
    out.append(s);
}

/// Appends the two hex digits of one byte.
fn put_hex_byte(out: &mut String, b: u8)
    ensures
        final(out)@ == old(out)@ + seq![hex_char((b / 16) as nat), hex_char((b % 16) as nat)],
{
    let hi = b / 16;
    let lo = b % 16;
    crate::text::push_char(out, hex_digit(hi));
    crate::text::push_char(out, hex_digit(lo));
    assert(final(out)@ =~= old(out)@ + seq![hex_char((b / 16) as nat), hex_char((b % 16) as nat)]);
}

/// The lowercase hex digit of `d < 16`.
fn hex_digit(d: u8) -> (c: char)
    requires
        d < 16,
    ensures
        c == hex_char(d as nat),
{
    if d < 10 {
        crate::text::char_from_digit(d as u32)
    } else {
        match d {
            10 => 'a',
            11 => 'b',
            12 => 'c',
            13 => 'd',
            14 => 'e',
            _ => 'f',
        }
    }
}

impl BinOp {
    /// The silverscript surface spelling of this operator.
    pub fn as_str(self) -> (s: &'static str)
        ensures
            s@ == binop_str(self),
    {
        match self {
            BinOp::Add => "+",
            BinOp::Sub => "-",
            BinOp::Mul => "*",
            BinOp::Eq => "==",
            BinOp::Ne => "!=",
            BinOp::Ge => ">=",
            BinOp::Le => "<=",
            BinOp::Gt => ">",
            BinOp::Lt => "<",
            BinOp::And => "&&",
            BinOp::Or => "||",
        }
    }
}

impl UnOp {
    /// The surface spelling of this operator.
    pub fn as_str(self) -> (s: &'static str)
        ensures
            s@ == unop_str(self),
    {
        match self {
            UnOp::Neg => "-",
            UnOp::Not => "!",
        }
    }
}

impl Expr {
    /// Appends the canonical rendering of this expression to `out`.
    #[verifier::loop_isolation(false)]
    pub fn render_into(&self, out: &mut String)
        ensures
            final(out)@ == old(out)@ + render(expr_v(*self)),
        decreases self,
    {
        match self {
            Expr::Int(n) => {
                let s = crate::text::i64_to_string(*n);
                put(out, s.as_str());
            },
            Expr::Bool(b) => {
                if *b {
                    put(out, "true");
                } else {
                    put(out, "false");
                }
            },
            Expr::Bytes(bytes) => {
                put(out, "0x");
                let ghost start = out@;
                let mut i: usize = 0;
                while i < bytes.len()
                    invariant
                        i <= bytes.len(),
                        out@ == start + hex(bytes@.take(i as int)),
                    decreases bytes.len() - i,
                {
                    put_hex_byte(out, bytes[i]);
                    i += 1;
                    assert(bytes@.take(i as int).drop_last() =~= bytes@.take(i - 1));
                    assert(out@ =~= start + hex(bytes@.take(i as int)));
                }
                assert(bytes@.take(bytes.len() as int) =~= bytes@);
                assert(out@ =~= old(out)@ + render(expr_v(*self)));
            },
            Expr::Var(name) => {
                put(out, name.as_str());
            },
            Expr::Field { base, field } => {
                (**base).render_into(out);
                put(out, ".");
                put(out, field.as_str());
                assert(out@ =~= old(out)@ + render(expr_v(*self)));
            },
            Expr::Index { base, index } => {
                (**base).render_into(out);
                put(out, "[");
                (**index).render_into(out);
                put(out, "]");
                assert(out@ =~= old(out)@ + render(expr_v(*self)));
            },
            Expr::Unary { op, rhs } => {
                put(out, op.as_str());
                (**rhs).render_into(out);
                assert(out@ =~= old(out)@ + render(expr_v(*self)));
            },
            Expr::Binary { op, lhs, rhs } => {
                (**lhs).render_into(out);
                put(out, " ");
                put(out, op.as_str());
                put(out, " ");
                (**rhs).render_into(out);
                assert(out@ =~= old(out)@ + render(expr_v(*self)));
            },
            Expr::Call { name, args } => {
                put(out, name.as_str());
                put(out, "(");
                let ghost start = out@;
                let ghost av = exprs_v(args@, args@.len() as int);
                proof {
                    lemma_exprs_v(args@, args@.len() as int);
                }
                let mut i: usize = 0;
                while i < args.len()
                    invariant
                        i <= args.len(),
                        av == exprs_v(args@, args@.len() as int),
                        av.len() == args@.len(),
                        forall|k: int| 0 <= k < args@.len() ==> #[trigger] av[k] == expr_v(
                            args@[k],
                        ),
                        out@ == start + render_list(av, i as int),
                    decreases args.len() - i,
                {
                    if i > 0 {
                        put(out, ", ");
                    }
                    proof {
                        let ghost a: Vec<Expr> = *args;
                        assert(decreases_to!(*self => a));
                        assert(decreases_to!(a => a@));
                        assert(decreases_to!(a@ => a@[i as int]));
                    }
                    args[i].render_into(out);
                    i += 1;
                    assert(out@ =~= start + render_list(av, i as int));
                }
                put(out, ")");
                assert(out@ =~= old(out)@ + render(expr_v(*self)));
            },
        }
    }

    /// Renders this expression back to silverscript surface syntax.
    pub fn to_silverscript(&self) -> (s: String)
        ensures
            s@ == render(expr_v(*self)),
    {
        let mut out = String::new();
        self.render_into(&mut out);
        assert(out@ =~= render(expr_v(*self)));
        out
    }
}

impl ReturnExpr {
    /// Renders back to silverscript surface syntax: the scalar, or
    /// `Head { f: v, ... }` for an object literal.
    pub fn to_silverscript(&self) -> (s: String)
        ensures
            s@ == render_return(return_v(*self)),
    {
        match self {
            ReturnExpr::Scalar(e) => e.to_silverscript(),
            ReturnExpr::Object { name, fields } => {
                let ghost fv = fields@.map_values(|p: (String, Expr)| (p.0@, expr_v(p.1)));
                let mut body = String::new();
                let mut i: usize = 0;
                while i < fields.len()
                    invariant
                        i <= fields.len(),
                        fv == fields@.map_values(|p: (String, Expr)| (p.0@, expr_v(p.1))),
                        body@ == render_fields(fv, i as int),
                    decreases fields.len() - i,
                {
                    if i > 0 {
                        put(&mut body, ", ");
                    }
                    put(&mut body, fields[i].0.as_str());
                    put(&mut body, ": ");
                    fields[i].1.render_into(&mut body);
                    i += 1;
                    assert(body@ =~= render_fields(fv, i as int));
                }
                let mut out = String::new();
                let head_empty = match name {
                    Some(n) => n.as_str().is_empty(),
                    None => true,
                };
                if !head_empty {
                    match name {
                        Some(n) => put(&mut out, n.as_str()),
                        None => {},
                    }
                    put(&mut out, " { ");
                } else {
                    put(&mut out, "{ ");
                }
                put(&mut out, body.as_str());
                put(&mut out, " }");
                assert(out@ =~= render_return(return_v(*self)));
                out
            },
        }
    }
}

} // verus!
