//! Verification conditions over the covenant model. The transition relation
//! of a transition entrypoint, `T ≡ G ∧ s' = ⟦return⟧`, declares every state
//! field, argument and primed state field, every uninterpreted function its
//! terms use, the non-negativity of `coin` values, the guards, and the next
//! state (an unmentioned field carries over). A VC appends its negation to
//! `T`; the document for `T` alone is the vacuity probe.

use vstd::prelude::*;
use crate::ast::{CovenantMode, Entry, Expr, Field, ReturnExpr, Role, Stmt, Type};
use crate::clauses::first_object;
use crate::lookup::value_bearing_split;
use crate::encode::{EncodeCtx, ExpectSort, Logic, SUf, UfSig, enc, encode_expr, logic_name, needs_uf, smt_sort, sort_of, table_after, table_sorted, ufs_v};
use crate::model::{SEntry, SExpr, SField, SParam, SRole, SStmt, SType, entry_v, expr_v, field_v, pairs_v, param_v, role_v, stmt_v, strs_v};

use crate::smt::{SmtBuilder, add_line, const_line, fun_line, is_opaque, smt_doc, sorted_names};
use crate::validate::WitnessConfidence;

verus! {

broadcast use vstd::seq_lib::group_seq_properties;

// ── reports ─────────────────────────────────────────────────────────────

/// Which obligation a report covers.
#[derive(Debug, Clone, Copy, PartialEq, Eq, Structural)]
pub enum VcKind {
    /// The value-bearing total is the same after the transition.
    ValueConservation,
    /// A spend creates no value: the total does not increase.
    Spend,
    /// Every value-bearing arithmetic result fits `[0, 2^64)`.
    Range,
    /// A declared refinement holds under the guards.
    Refinement,
    /// A declared stateful invariant is preserved.
    InvariantPreservation,
}

pub open spec fn kind_label(k: VcKind) -> Seq<char> {
    match k {
        VcKind::ValueConservation => "value-conservation"@,
        VcKind::Spend => "spend-no-value-created"@,
        VcKind::Range => "range-overflow"@,
        VcKind::Refinement => "refinement"@,
        VcKind::InvariantPreservation => "invariant-preservation"@,
    }
}

impl VcKind {
    /// A short label for output.
    pub fn label(self) -> (s: &'static str)
        ensures
            s@ == kind_label(self),
    {
        match self {
            VcKind::ValueConservation => "value-conservation",
            VcKind::Spend => "spend-no-value-created",
            VcKind::Range => "range-overflow",
            VcKind::Refinement => "refinement",
            VcKind::InvariantPreservation => "invariant-preservation",
        }
    }
}

/// What every verdict is relative to: the model, not the emitted script.
pub const MODEL_NOT_SIL_CAVEAT: &'static str =
    "Proven over the Portrait MODEL under assumptions A1-A4; NOT a proof of the emitted .sil script or the deployed covenant. pre-production, unaudited, testnet-only.";

/// `2^64`: a value-bearing result must stay below it.
pub const U64_EXCL_MAX: &'static str = "18446744073709551616";

/// A solver verdict for one VC.
#[derive(Debug, Clone, PartialEq, Eq)]
pub enum Outcome {
    /// The negated VC is unsatisfiable (and the transition is reachable).
    Proved { unsat_core: Vec<String> },
    /// A counter-model satisfies the guards and breaks the VC.
    Refuted { model: String, confidence: WitnessConfidence },
    /// Undecided, unreachable, or no solver.
    Unknown { reason: String },
}

/// A refusal to emit any encoding (never a verdict).
#[derive(Debug, Clone, PartialEq, Eq)]
pub enum LensError {
    /// The checker did not pass.
    SemaNotPassed,
    /// A raw statement reached a covenant entrypoint.
    RawStmtInCovenant,
    /// Outside the supported scope, with the reason.
    Unsupported(String),
}

impl LensError {
    /// The error's message (what `Display` would print).
    pub fn message(&self) -> (s: String)
        ensures
            s@ == match *self {
                LensError::SemaNotPassed => "portrait-sema did not pass; Lens runs only behind a passing sema (A4)"@,
                LensError::RawStmtInCovenant => "a raw (untyped) statement reached a covenant entrypoint; no sound encoding exists"@,
                LensError::Unsupported(why) => "unsupported by Lens M1/M2: "@ + why@,
            },
    {
        match self {
            LensError::SemaNotPassed => String::from_str(
                "portrait-sema did not pass; Lens runs only behind a passing sema (A4)",
            ),
            LensError::RawStmtInCovenant => String::from_str(
                "a raw (untyped) statement reached a covenant entrypoint; no sound encoding exists",
            ),
            LensError::Unsupported(why) => {
                let mut s = String::from_str("unsupported by Lens M1/M2: ");
                crate::render::put(&mut s, why.as_str());
                s
            },
        }
    }
}

/// One VC of one entrypoint.
#[derive(Debug, Clone)]
pub struct VcReport {
    /// `role.entry`.
    pub entrypoint: String,
    pub vc_kind: VcKind,
    /// The document: `T` and the negated VC.
    pub smtlib: String,
    /// The document for `T` alone (the vacuity probe).
    pub transition_smtlib: String,
    /// The verdict, once discharged.
    pub outcome: Option<Outcome>,
}

// ── the transition relation, as a specification ─────────────────────────

/// `(name, sort)` of every state field.
pub open spec fn state_bindings(r: SRole) -> Seq<(Seq<char>, Seq<char>)> {
    r.state.map_values(|f: SField| (f.name, smt_sort(f.ty)))
}

/// `(name, sort)` of every argument.
pub open spec fn arg_bindings(e: SEntry) -> Seq<(Seq<char>, Seq<char>)> {
    e.args.map_values(|p: SParam| (p.name, smt_sort(p.ty)))
}

pub open spec fn primed_name(n: Seq<char>) -> Seq<char> {
    n + "_p"@
}

/// `(name_p, sort)` of every state field.
pub open spec fn primed_bindings(r: SRole) -> Seq<(Seq<char>, Seq<char>)> {
    r.state.map_values(|f: SField| (primed_name(f.name), smt_sort(f.ty)))
}

/// The guards of the first `k` statements, in order.
pub open spec fn guards(body: Seq<SStmt>, k: int) -> Seq<SExpr>
    decreases k,
{
    if k <= 0 || k > body.len() {
        Seq::empty()
    } else {
        guards(body, k - 1) + match body[k - 1] {
            SStmt::Require(x) => seq![x],
            _ => Seq::empty(),
        }
    }
}

pub open spec fn guards_of(e: SEntry) -> Seq<SExpr> {
    guards(e.body, e.body.len() as int)
}

pub open spec fn values_of(fs: Seq<(Seq<char>, SExpr)>) -> Seq<SExpr> {
    fs.map_values(|p: (Seq<char>, SExpr)| p.1)
}

/// Every term encodes in a position expecting `ex`.
pub open spec fn all_encode(xs: Seq<SExpr>, ex: ExpectSort) -> bool {
    forall|i: int| 0 <= i < xs.len() ==> #[trigger] enc(xs[i], ex) is Some
}

/// The function table after encoding the first `k` terms.
pub open spec fn table_seq(
    t: Seq<(Seq<char>, SUf)>,
    bs: Seq<(Seq<char>, Seq<char>)>,
    xs: Seq<SExpr>,
    ex: ExpectSort,
    k: int,
) -> Seq<(Seq<char>, SUf)>
    decreases k,
{
    if k <= 0 || k > xs.len() {
        t
    } else {
        table_after(table_seq(t, bs, xs, ex, k - 1), bs, xs[k - 1], ex)
    }
}

/// The functions `T` declares: those of the guards, then of the return
/// values.
pub open spec fn trans_table(r: SRole, e: SEntry, fs: Seq<(Seq<char>, SExpr)>) -> Seq<(Seq<char>, SUf)> {
    let bs = state_bindings(r) + arg_bindings(e);
    let g = guards_of(e);
    let v = values_of(fs);
    table_seq(
        table_seq(Seq::empty(), bs, g, ExpectSort::Bool, g.len() as int),
        bs,
        v,
        ExpectSort::Int,
        v.len() as int,
    )
}

/// Some term needs uninterpreted functions.
pub open spec fn any_uf(xs: Seq<SExpr>) -> bool {
    exists|i: int| 0 <= i < xs.len() && needs_uf(#[trigger] xs[i])
}

/// The logic of `T`.
pub open spec fn trans_logic(e: SEntry, fs: Seq<(Seq<char>, SExpr)>) -> Logic {
    if any_uf(guards_of(e)) || any_uf(values_of(fs)) {
        Logic::QfAuflia
    } else {
        Logic::QfLia
    }
}

/// `d` with every line of `ls[..k]` added once.
pub open spec fn add_all(d: Seq<Seq<char>>, ls: Seq<Seq<char>>, k: int) -> Seq<Seq<char>>
    decreases k,
{
    if k <= 0 || k > ls.len() {
        d
    } else {
        add_line(add_all(d, ls, k - 1), ls[k - 1])
    }
}

pub open spec fn const_lines(bs: Seq<(Seq<char>, Seq<char>)>) -> Seq<Seq<char>> {
    bs.map_values(|p: (Seq<char>, Seq<char>)| const_line(p.0, p.1))
}

pub open spec fn fun_lines(t: Seq<(Seq<char>, SUf)>) -> Seq<Seq<char>> {
    t.map_values(|p: (Seq<char>, SUf)| fun_line(p.0, p.1.args, p.1.ret))
}

/// The declaration lines of `T`, before removing repeats.
pub open spec fn decl_list(r: SRole, e: SEntry, fs: Seq<(Seq<char>, SExpr)>) -> Seq<Seq<char>> {
    const_lines(state_bindings(r)) + const_lines(arg_bindings(e)) + const_lines(primed_bindings(r))
        + fun_lines(trans_table(r, e, fs))
}

/// The declarations of `T`.
pub open spec fn trans_decls(r: SRole, e: SEntry, fs: Seq<(Seq<char>, SExpr)>) -> Seq<Seq<char>> {
    let l = decl_list(r, e, fs);
    add_all(Seq::empty(), l, l.len() as int)
}

pub open spec fn opaque_of(xs: Seq<Seq<char>>) -> Set<Seq<char>> {
    xs.filter(|a: Seq<char>| is_opaque(a)).to_set()
}

/// The opaque sorts of a function table.
pub open spec fn table_sorts(t: Seq<(Seq<char>, SUf)>, k: int) -> Set<Seq<char>>
    decreases k,
{
    if k <= 0 || k > t.len() {
        Set::empty()
    } else {
        table_sorts(t, k - 1) + opaque_of(t[k - 1].1.args) + if is_opaque(t[k - 1].1.ret) {
            set![t[k - 1].1.ret]
        } else {
            Set::empty()
        }
    }
}

/// The opaque sorts `T` declares.
pub open spec fn trans_sorts(r: SRole, e: SEntry, fs: Seq<(Seq<char>, SExpr)>) -> Set<Seq<char>> {
    let t = trans_table(r, e, fs);
    opaque_of(state_bindings(r).map_values(|p: (Seq<char>, Seq<char>)| p.1)) + opaque_of(
        arg_bindings(e).map_values(|p: (Seq<char>, Seq<char>)| p.1),
    ) + table_sorts(t, t.len() as int)
}

pub open spec fn assert_line(t: Seq<char>) -> Seq<char> {
    "(assert "@ + t + ")"@
}

/// The non-negativity of the `coin` state fields (before and after) among
/// the first `k`.
pub open spec fn state_axioms(r: SRole, k: int) -> Seq<Seq<char>>
    decreases k,
{
    if k <= 0 || k > r.state.len() {
        Seq::empty()
    } else {
        state_axioms(r, k - 1) + if r.state[k - 1].ty == SType::Coin {
            seq![
                assert_line("(>= "@ + r.state[k - 1].name + " 0)"@),
                assert_line("(>= "@ + primed_name(r.state[k - 1].name) + " 0)"@),
            ]
        } else {
            Seq::empty()
        }
    }
}

/// The non-negativity of the `coin` arguments among the first `k`.
pub open spec fn arg_axioms(e: SEntry, k: int) -> Seq<Seq<char>>
    decreases k,
{
    if k <= 0 || k > e.args.len() {
        Seq::empty()
    } else {
        arg_axioms(e, k - 1) + if e.args[k - 1].ty == SType::Coin {
            seq![assert_line("(>= "@ + e.args[k - 1].name + " 0)"@)]
        } else {
            Seq::empty()
        }
    }
}

/// `f_p = value` for each return field.
pub open spec fn next_lines(fs: Seq<(Seq<char>, SExpr)>) -> Seq<Seq<char>> {
    fs.map_values(
        |p: (Seq<char>, SExpr)|
            assert_line("(= "@ + primed_name(p.0) + " "@ + enc(p.1, ExpectSort::Int)->0 + ")"@),
    )
}

/// `f_p = f` for the first `k` state fields the return does not mention.
pub open spec fn frame_lines(r: SRole, fs: Seq<(Seq<char>, SExpr)>, k: int) -> Seq<Seq<char>>
    decreases k,
{
    if k <= 0 || k > r.state.len() {
        Seq::empty()
    } else {
        frame_lines(r, fs, k - 1) + if exists|i: int| 0 <= i < fs.len() && #[trigger] fs[i].0 == r.state[k - 1].name {
            Seq::empty()
        } else {
            seq![assert_line("(= "@ + primed_name(r.state[k - 1].name) + " "@ + r.state[k - 1].name + ")"@)]
        }
    }
}

/// The assertions of `T`: domain axioms, guards, next state.
pub open spec fn trans_asserts(r: SRole, e: SEntry, fs: Seq<(Seq<char>, SExpr)>) -> Seq<Seq<char>> {
    state_axioms(r, r.state.len() as int) + arg_axioms(e, e.args.len() as int) + guards_of(e).map_values(
        |g: SExpr| assert_line(enc(g, ExpectSort::Bool)->0),
    ) + next_lines(fs) + frame_lines(r, fs, r.state.len() as int)
}

/// `T` has an encoding: every guard and return value encodes.
pub open spec fn encodable(e: SEntry, fs: Seq<(Seq<char>, SExpr)>) -> bool {
    all_encode(guards_of(e), ExpectSort::Bool) && all_encode(values_of(fs), ExpectSort::Int)
}

/// A document over the given logic, declarations and assertions, its
/// opaque sorts being `sorts` in `str` order.
pub open spec fn doc_with(
    logic: Seq<char>,
    sorts: Set<Seq<char>>,
    decls: Seq<Seq<char>>,
    asserts: Seq<Seq<char>>,
    text: Seq<char>,
) -> bool {
    exists|q: Seq<Seq<char>>|
        sorted_names(q) && q.to_set() == sorts && text == smt_doc(logic, q, decls, asserts)
}

// ── building the transition relation ───────────────────────────────────

proof fn lemma_add_all_concat(d: Seq<Seq<char>>, a: Seq<Seq<char>>, b: Seq<Seq<char>>, k: int)
    requires
        0 <= k <= b.len(),
    ensures
        add_all(d, a + b, a.len() + k) == add_all(add_all(d, a, a.len() as int), b, k),
    decreases k,
{
    if k > 0 {
        lemma_add_all_concat(d, a, b, k - 1);
        assert((a + b)[a.len() + k - 1] == b[k - 1]);
    } else {
        lemma_add_all_prefix(d, a, b, a.len() as int);
    }
}

proof fn lemma_add_all_prefix(d: Seq<Seq<char>>, a: Seq<Seq<char>>, b: Seq<Seq<char>>, k: int)
    requires
        0 <= k <= a.len(),
    ensures
        add_all(d, a + b, k) == add_all(d, a, k),
    decreases k,
{
    if k > 0 {
        lemma_add_all_prefix(d, a, b, k - 1);
        assert((a + b)[k - 1] == a[k - 1]);
    }
}

/// Declares a constant for every binding.
fn declare_all(b: &mut SmtBuilder, bs: &Vec<(String, String)>)
    requires
        sorted_names(old(b).sorts_v()),
    ensures
        sorted_names(final(b).sorts_v()),
        final(b).decls_v() == add_all(
            old(b).decls_v(),
            const_lines(pairs_of(bs@)),
            bs@.len() as int,
        ),
        final(b).sorts_v().to_set() == old(b).sorts_v().to_set() + opaque_of(
            pairs_of(bs@).map_values(|p: (Seq<char>, Seq<char>)| p.1),
        ),
        final(b).asserts_v() == old(b).asserts_v(),
{
    let ghost pv = pairs_of(bs@);
    let ghost sv = pv.map_values(|p: (Seq<char>, Seq<char>)| p.1);
    let ghost s0 = b.sorts_v().to_set();
    let mut i: usize = 0;
    assert(sv.take(0).filter(|a: Seq<char>| is_opaque(a)).to_set() =~= Set::<Seq<char>>::empty()) by {
        reveal(Seq::filter);
    }
    assert(b.sorts_v().to_set() =~= s0 + sv.take(0).filter(|a: Seq<char>| is_opaque(a)).to_set());
    while i < bs.len()
        invariant
            pv == pairs_of(bs@),
            sv == pv.map_values(|p: (Seq<char>, Seq<char>)| p.1),
            i <= bs.len(),
            sorted_names(b.sorts_v()),
            b.decls_v() == add_all(old(b).decls_v(), const_lines(pv), i as int),
            b.sorts_v().to_set() == s0 + sv.take(i as int).filter(|a: Seq<char>| is_opaque(a)).to_set(),
            b.asserts_v() == old(b).asserts_v(),
            s0 == old(b).sorts_v().to_set(),
        decreases bs.len() - i,
    {
        b.declare_const(bs[i].0.as_str(), bs[i].1.as_str());
        proof {
            let f = |a: Seq<char>| is_opaque(a);
            assert(sv[i as int] == bs@[i as int].1@);
            assert(sv.take(i + 1).drop_last() =~= sv.take(i as int));
            reveal(Seq::filter);
            if is_opaque(sv[i as int]) {
                assert(sv.take(i + 1).filter(f).to_set() =~= sv.take(i as int).filter(f).to_set().insert(sv[i as int]));
            } else {
                assert(sv.take(i + 1).filter(f) =~= sv.take(i as int).filter(f));
            }
        }
        i += 1;
    }
    assert(sv.take(bs.len() as int) =~= sv);
}

pub open spec fn pairs_of(bs: Seq<(String, String)>) -> Seq<(Seq<char>, Seq<char>)> {
    bs.map_values(|p: (String, String)| (p.0@, p.1@))
}

/// `name_p`.
pub fn primed(name: &str) -> (s: String)
    ensures
        s@ == primed_name(name@),
{
    let mut s = String::from_str(name);
    s.append("_p");
    s
}

/// The state bindings of a role.
fn state_pairs(role: &Role, primes: bool) -> (v: Vec<(String, String)>)
    ensures
        pairs_of(v@) == if primes { primed_bindings(role_v(*role)) } else { state_bindings(role_v(*role)) },
{
    let ghost rv = role_v(*role);
    let mut v: Vec<(String, String)> = Vec::new();
    let mut i: usize = 0;
    while i < role.state.len()
        invariant
            rv == role_v(*role),
            i <= role.state.len(),
            pairs_of(v@) == if primes { primed_bindings(rv).take(i as int) } else { state_bindings(rv).take(i as int) },
        decreases role.state.len() - i,
    {
        let f = &role.state[i];
        assert(rv.state[i as int] == field_v(*f));
        let n = if primes { primed(f.name.as_str()) } else { f.name.clone() };
        let so = String::from_str(sort_of(&f.ty));
        let ghost before = v@;
        let ghost item = (n@, so@);
        v.push((n, so));
        assert(pairs_of(v@) =~= pairs_of(before).push(item));
        assert(primed_bindings(rv).take(i + 1) =~= primed_bindings(rv).take(i as int).push(primed_bindings(rv)[i as int]));
        assert(state_bindings(rv).take(i + 1) =~= state_bindings(rv).take(i as int).push(state_bindings(rv)[i as int]));
        i += 1;
    }
    assert(primed_bindings(rv).take(role.state.len() as int) =~= primed_bindings(rv));
    assert(state_bindings(rv).take(role.state.len() as int) =~= state_bindings(rv));
    v
}

/// The argument bindings of an entrypoint.
fn arg_pairs(entry: &Entry) -> (v: Vec<(String, String)>)
    ensures
        pairs_of(v@) == arg_bindings(entry_v(*entry)),
{
    let ghost ev = entry_v(*entry);
    let mut v: Vec<(String, String)> = Vec::new();
    let mut i: usize = 0;
    while i < entry.args.len()
        invariant
            ev == entry_v(*entry),
            i <= entry.args.len(),
            pairs_of(v@) == arg_bindings(ev).take(i as int),
        decreases entry.args.len() - i,
    {
        let a = &entry.args[i];
        assert(ev.args[i as int] == param_v(*a));
        let so = String::from_str(sort_of(&a.ty));
        let nm = a.name.clone();
        let ghost before = v@;
        let ghost item = (nm@, so@);
        v.push((nm, so));
        assert(pairs_of(v@) =~= pairs_of(before).push(item));
        assert(arg_bindings(ev).take(i + 1) =~= arg_bindings(ev).take(i as int).push(arg_bindings(ev)[i as int]));
        i += 1;
    }
    assert(arg_bindings(ev).take(entry.args.len() as int) =~= arg_bindings(ev));
    v
}

proof fn lemma_guards_prefix(body: Seq<SStmt>, k: int, n: int)
    requires
        0 <= k <= n <= body.len(),
    ensures
        guards(body, k).len() <= guards(body, n).len(),
        forall|i: int| 0 <= i < guards(body, k).len() ==> #[trigger] guards(body, n)[i] == guards(body, k)[i],
    decreases n - k,
{
    if k < n {
        lemma_guards_prefix(body, k, n - 1);
    }
}

proof fn lemma_table_seq_prefix(
    t: Seq<(Seq<char>, SUf)>,
    bs: Seq<(Seq<char>, Seq<char>)>,
    a: Seq<SExpr>,
    b: Seq<SExpr>,
    ex: ExpectSort,
    k: int,
)
    requires
        0 <= k <= a.len(),
        a.len() <= b.len(),
        forall|i: int| 0 <= i < a.len() ==> #[trigger] b[i] == a[i],
    ensures
        table_seq(t, bs, b, ex, k) == table_seq(t, bs, a, ex, k),
    decreases k,
{
    if k > 0 {
        lemma_table_seq_prefix(t, bs, a, b, ex, k - 1);
    }
}

proof fn lemma_any_uf_push(a: Seq<SExpr>, x: SExpr)
    ensures
        any_uf(a.push(x)) == (any_uf(a) || needs_uf(x)),
{
    if any_uf(a) {
        let i = choose|i: int| 0 <= i < a.len() && needs_uf(#[trigger] a[i]);
        assert(a.push(x)[i] == a[i]);
    }
    if needs_uf(x) {
        assert(a.push(x)[a.len() as int] == x);
    }
    if any_uf(a.push(x)) {
        let i = choose|i: int| 0 <= i < a.push(x).len() && needs_uf(#[trigger] a.push(x)[i]);
        if i < a.len() {
            assert(a.push(x)[i] == a[i]);
        }
    }
}

/// Encodes the guards of `entry` (boolean positions), in order.
#[verifier::loop_isolation(false)]
fn encode_guards(entry: &Entry, ctx: &mut EncodeCtx, logic: &mut Logic) -> (r: Result<Vec<String>, LensError>)
    requires
        table_sorted(old(ctx).table()),
    ensures
        table_sorted(final(ctx).table()),
        final(ctx).bindings() == old(ctx).bindings(),
        r is Ok <==> all_encode(guards_of(entry_v(*entry)), ExpectSort::Bool),
        r matches Err(e) ==> e is Unsupported,
        r matches Ok(ts) ==> strs_v(ts@) == guards_of(entry_v(*entry)).map_values(|g: SExpr| enc(g, ExpectSort::Bool)->0)
            && final(ctx).table() == table_seq(old(ctx).table(), old(ctx).bindings(), guards_of(entry_v(*entry)), ExpectSort::Bool, guards_of(entry_v(*entry)).len() as int)
            && *final(logic) == (if any_uf(guards_of(entry_v(*entry))) { Logic::QfAuflia } else { *old(logic) }),
{
    let ghost ev = entry_v(*entry);
    let ghost n = ev.body.len() as int;
    let ghost t0 = ctx.table();
    let ghost bs = ctx.bindings();
    let ghost l0 = *logic;
    let mut ts: Vec<String> = Vec::new();
    let mut k: usize = 0;
    assert(strs_v(ts@) =~= guards(ev.body, 0).map_values(|g: SExpr| enc(g, ExpectSort::Bool)->0));
    while k < entry.body.len()
        invariant
            ev == entry_v(*entry),
            k <= entry.body.len(),
            bs == ctx.bindings(),
            table_sorted(ctx.table()),
            all_encode(guards(ev.body, k as int), ExpectSort::Bool),
            strs_v(ts@) == guards(ev.body, k as int).map_values(|g: SExpr| enc(g, ExpectSort::Bool)->0),
            ctx.table() == table_seq(t0, bs, guards(ev.body, k as int), ExpectSort::Bool, guards(ev.body, k as int).len() as int),
            *logic == (if any_uf(guards(ev.body, k as int)) { Logic::QfAuflia } else { l0 }),
        decreases entry.body.len() - k,
    {
        assert(ev.body[k as int] == stmt_v(entry.body@[k as int]));
        let ghost g0 = guards(ev.body, k as int);
        match &entry.body[k] {
            Stmt::Require(x) => {
                let ghost g1 = guards(ev.body, k + 1);
                assert(g1 =~= g0.push(expr_v(*x)));
                match encode_expr(x, ctx, logic, ExpectSort::Bool) {
                    Ok(t) => {
                        proof {
                            crate::model::lemma_strs_push(ts@, t);
                            lemma_table_seq_prefix(t0, bs, g0, g1, ExpectSort::Bool, g0.len() as int);
                            lemma_any_uf_push(g0, expr_v(*x));
                        }
                        ts.push(t);
                        assert(strs_v(ts@) =~= g1.map_values(|g: SExpr| enc(g, ExpectSort::Bool)->0));
                    },
                    Err(e) => {
                        proof {
                            lemma_guards_prefix(ev.body, k + 1, n);
                            assert(guards_of(ev)[g0.len() as int] == expr_v(*x));
                        }
                        return Err(LensError::Unsupported(e.0));
                    },
                }
            },
            _ => {
                assert(guards(ev.body, k + 1) =~= g0);
            },
        }
        k += 1;
    }
    Ok(ts)
}

/// Encodes the return values (integer positions), in order.
#[verifier::loop_isolation(false)]
fn encode_values(fields: &Vec<(String, Expr)>, ctx: &mut EncodeCtx, logic: &mut Logic) -> (r: Result<Vec<String>, LensError>)
    requires
        table_sorted(old(ctx).table()),
    ensures
        table_sorted(final(ctx).table()),
        final(ctx).bindings() == old(ctx).bindings(),
        r is Ok <==> all_encode(values_of(pairs_v(fields@)), ExpectSort::Int),
        r matches Err(e) ==> e is Unsupported,
        r matches Ok(ts) ==> strs_v(ts@) == values_of(pairs_v(fields@)).map_values(|g: SExpr| enc(g, ExpectSort::Int)->0)
            && final(ctx).table() == table_seq(old(ctx).table(), old(ctx).bindings(), values_of(pairs_v(fields@)), ExpectSort::Int, fields@.len() as int)
            && *final(logic) == (if any_uf(values_of(pairs_v(fields@))) { Logic::QfAuflia } else { *old(logic) }),
{
    let ghost vs = values_of(pairs_v(fields@));
    let ghost t0 = ctx.table();
    let ghost bs = ctx.bindings();
    let ghost l0 = *logic;
    let mut ts: Vec<String> = Vec::new();
    let mut i: usize = 0;
    assert(strs_v(ts@) =~= vs.take(0).map_values(|g: SExpr| enc(g, ExpectSort::Int)->0));
    while i < fields.len()
        invariant
            vs == values_of(pairs_v(fields@)),
            vs.len() == fields@.len(),
            i <= fields.len(),
            bs == ctx.bindings(),
            table_sorted(ctx.table()),
            all_encode(vs.take(i as int), ExpectSort::Int),
            strs_v(ts@) == vs.take(i as int).map_values(|g: SExpr| enc(g, ExpectSort::Int)->0),
            ctx.table() == table_seq(t0, bs, vs.take(i as int), ExpectSort::Int, i as int),
            *logic == (if any_uf(vs.take(i as int)) { Logic::QfAuflia } else { l0 }),
        decreases fields.len() - i,
    {
        let x = &fields[i].1;
        assert(vs[i as int] == expr_v(*x));
        let ghost a = vs.take(i as int);
        let ghost b = vs.take(i + 1);
        assert(b =~= a.push(expr_v(*x)));
        match encode_expr(x, ctx, logic, ExpectSort::Int) {
            Ok(t) => {
                proof {
                    crate::model::lemma_strs_push(ts@, t);
                    lemma_table_seq_prefix(t0, bs, a, b, ExpectSort::Int, i as int);
                    lemma_any_uf_push(a, expr_v(*x));
                }
                ts.push(t);
                assert(strs_v(ts@) =~= b.map_values(|g: SExpr| enc(g, ExpectSort::Int)->0));
            },
            Err(e) => {
                return Err(LensError::Unsupported(e.0));
            },
        }
        i += 1;
    }
    assert(vs.take(fields.len() as int) =~= vs);
    Ok(ts)
}

/// `a b c` concatenated.
fn cat3(a: &str, b: &str, c: &str) -> (s: String)
    ensures
        s@ == a@ + b@ + c@,
{
    let mut s = String::from_str(a);
    s.append(b);
    s.append(c);
    s
}

/// `a b c d e` concatenated.
fn cat5(a: &str, b: &str, c: &str, d: &str, e: &str) -> (s: String)
    ensures
        s@ == a@ + b@ + c@ + d@ + e@,
{
    let mut s = String::from_str(a);
    s.append(b);
    s.append(c);
    s.append(d);
    s.append(e);
    s
}

/// Declares every function of the table, in order.
fn declare_funs(b: &mut SmtBuilder, ufs: &Vec<(String, UfSig)>)
    requires
        sorted_names(old(b).sorts_v()),
    ensures
        sorted_names(final(b).sorts_v()),
        final(b).decls_v() == add_all(old(b).decls_v(), fun_lines(ufs_v(ufs@)), ufs@.len() as int),
        final(b).sorts_v().to_set() == old(b).sorts_v().to_set() + table_sorts(ufs_v(ufs@), ufs@.len() as int),
        final(b).asserts_v() == old(b).asserts_v(),
{
    let ghost t = ufs_v(ufs@);
    let ghost s0 = b.sorts_v().to_set();
    let mut i: usize = 0;
    assert(b.sorts_v().to_set() =~= s0 + table_sorts(t, 0));
    while i < ufs.len()
        invariant
            t == ufs_v(ufs@),
            i <= ufs.len(),
            sorted_names(b.sorts_v()),
            b.decls_v() == add_all(old(b).decls_v(), fun_lines(t), i as int),
            b.sorts_v().to_set() == s0 + table_sorts(t, i as int),
            b.asserts_v() == old(b).asserts_v(),
            s0 == old(b).sorts_v().to_set(),
        decreases ufs.len() - i,
    {
        let name = &ufs[i].0;
        let sig = &ufs[i].1;
        assert(t[i as int] == (name@, crate::encode::uf_v(*sig)));
        let ghost before = b.sorts_v().to_set();
        b.declare_fun(name.as_str(), sig.args.as_slice(), sig.ret.as_str());
        proof {
            assert(sig.args@.map_values(|a: String| a@) =~= t[i as int].1.args);
            let o = opaque_of(t[i as int].1.args);
            assert(t[i as int].1.args.filter(|a: Seq<char>| is_opaque(a)).to_set() == o);
            assert(b.sorts_v().to_set() =~= s0 + table_sorts(t, i + 1));
        }
        i += 1;
    }
}

/// Asserts each term, in order.
fn assert_all(b: &mut SmtBuilder, ts: &Vec<String>)
    ensures
        final(b).asserts_v() == old(b).asserts_v() + strs_v(ts@).map_values(|t: Seq<char>| assert_line(t)),
        final(b).decls_v() == old(b).decls_v(),
        final(b).sorts_v() == old(b).sorts_v(),
{
    let ghost tv = strs_v(ts@);
    let mut i: usize = 0;
    assert(b.asserts_v() =~= old(b).asserts_v() + tv.take(0).map_values(|t: Seq<char>| assert_line(t)));
    while i < ts.len()
        invariant
            tv == strs_v(ts@),
            i <= ts.len(),
            b.asserts_v() == old(b).asserts_v() + tv.take(i as int).map_values(|t: Seq<char>| assert_line(t)),
            b.decls_v() == old(b).decls_v(),
            b.sorts_v() == old(b).sorts_v(),
        decreases ts.len() - i,
    {
        b.assert_term(ts[i].as_str());
        assert(tv.take(i + 1) =~= tv.take(i as int).push(tv[i as int]));
        assert(b.asserts_v() =~= old(b).asserts_v() + tv.take(i + 1).map_values(|t: Seq<char>| assert_line(t)));
        i += 1;
    }
    assert(tv.take(ts.len() as int) =~= tv);
}

/// The non-negativity axioms of the `coin` state fields and arguments.
fn axioms(role: &Role, entry: &Entry) -> (ts: Vec<String>)
    ensures
        strs_v(ts@).map_values(|t: Seq<char>| assert_line(t)) == state_axioms(role_v(*role), role.state.len() as int)
            + arg_axioms(entry_v(*entry), entry.args.len() as int),
{
    proof {
        reveal_with_fuel(crate::structure::concat, 4);
    }
    let ghost rv = role_v(*role);
    let ghost ev = entry_v(*entry);
    let mut ts: Vec<String> = Vec::new();
    let mut i: usize = 0;
    assert(strs_v(ts@).map_values(|t: Seq<char>| assert_line(t)) =~= state_axioms(rv, 0));
    while i < role.state.len()
        invariant
            rv == role_v(*role),
            i <= role.state.len(),
            strs_v(ts@).map_values(|t: Seq<char>| assert_line(t)) == state_axioms(rv, i as int),
        decreases role.state.len() - i,
    {
        let f = &role.state[i];
        assert(rv.state[i as int] == field_v(*f));
        let ghost before = ts@;
        if crate::encode::is_coin(f) {
            let a = cat3("(>= ", f.name.as_str(), " 0)");
            let pn = primed(f.name.as_str());
            let c = cat3("(>= ", pn.as_str(), " 0)");
            assert(a@ =~= "(>= "@ + f.name@ + " 0)"@);
            assert(c@ =~= "(>= "@ + primed_name(f.name@) + " 0)"@);
            ts.push(a);
            ts.push(c);
            assert(strs_v(ts@).map_values(|t: Seq<char>| assert_line(t)) =~= state_axioms(rv, i + 1));
        } else {
            assert(strs_v(ts@).map_values(|t: Seq<char>| assert_line(t)) =~= state_axioms(rv, i + 1));
        }
        i += 1;
    }
    let ghost mid = state_axioms(rv, role.state.len() as int);
    let mut j: usize = 0;
    assert(strs_v(ts@).map_values(|t: Seq<char>| assert_line(t)) =~= mid + arg_axioms(ev, 0));
    while j < entry.args.len()
        invariant
            ev == entry_v(*entry),
            j <= entry.args.len(),
            strs_v(ts@).map_values(|t: Seq<char>| assert_line(t)) == mid + arg_axioms(ev, j as int),
        decreases entry.args.len() - j,
    {
        let a = &entry.args[j];
        assert(ev.args[j as int] == param_v(*a));
        let coin = match a.ty {
            Type::Coin => true,
            _ => false,
        };
        let ghost before = ts@;
        if coin {
            let t = cat3("(>= ", a.name.as_str(), " 0)");
            assert(t@ =~= "(>= "@ + a.name@ + " 0)"@);
            ts.push(t);
            assert(strs_v(ts@).map_values(|t: Seq<char>| assert_line(t)) =~= strs_v(before).map_values(|t: Seq<char>| assert_line(t)).push(assert_line(t@)));
        }
        assert(strs_v(ts@).map_values(|t: Seq<char>| assert_line(t)) =~= mid + arg_axioms(ev, j + 1));
        j += 1;
    }
    ts
}

/// Whether some return field is named `n`.
fn mentions(fields: &Vec<(String, Expr)>, n: &String) -> (b: bool)
    ensures
        b == exists|i: int| 0 <= i < pairs_v(fields@).len() && #[trigger] pairs_v(fields@)[i].0 == n@,
{
    let ghost fv = pairs_v(fields@);
    let mut i: usize = 0;
    while i < fields.len()
        invariant
            fv == pairs_v(fields@),
            i <= fields.len(),
            forall|q: int| 0 <= q < i ==> #[trigger] fv[q].0 != n@,
        decreases fields.len() - i,
    {
        if crate::lookup::same(&fields[i].0, n) {
            assert(fv[i as int].0 == n@);
            return true;
        }
        i += 1;
    }
    false
}

/// The next-state and frame equalities.
fn next_state(role: &Role, fields: &Vec<(String, Expr)>, vts: &Vec<String>) -> (ts: Vec<String>)
    requires
        strs_v(vts@) == values_of(pairs_v(fields@)).map_values(|g: SExpr| enc(g, ExpectSort::Int)->0),
    ensures
        strs_v(ts@).map_values(|t: Seq<char>| assert_line(t)) == next_lines(pairs_v(fields@))
            + frame_lines(role_v(*role), pairs_v(fields@), role.state.len() as int),
{
    proof {
        reveal_with_fuel(crate::structure::concat, 6);
    }
    let ghost rv = role_v(*role);
    let ghost fv = pairs_v(fields@);
    let mut ts: Vec<String> = Vec::new();
    let mut i: usize = 0;
    assert(strs_v(vts@).len() == vts@.len());
    assert(strs_v(ts@).map_values(|t: Seq<char>| assert_line(t)) =~= next_lines(fv).take(0));
    while i < fields.len()
        invariant
            fv == pairs_v(fields@),
            strs_v(vts@) == values_of(fv).map_values(|g: SExpr| enc(g, ExpectSort::Int)->0),
            vts.len() == fields.len(),
            i <= fields.len(),
            strs_v(ts@).map_values(|t: Seq<char>| assert_line(t)) == next_lines(fv).take(i as int),
        decreases fields.len() - i,
    {
        let pn = primed(fields[i].0.as_str());
        assert(strs_v(vts@)[i as int] == vts@[i as int]@);
        let t = cat5("(= ", pn.as_str(), " ", vts[i].as_str(), ")");
        assert(t@ =~= "(= "@ + primed_name(fv[i as int].0) + " "@ + enc(fv[i as int].1, ExpectSort::Int)->0 + ")"@);
        let ghost before = ts@;
        ts.push(t);
        assert(strs_v(ts@).map_values(|t: Seq<char>| assert_line(t)) =~= strs_v(before).map_values(|t: Seq<char>| assert_line(t)).push(assert_line(t@)));
        assert(next_lines(fv).take(i + 1) =~= next_lines(fv).take(i as int).push(next_lines(fv)[i as int]));
        assert(strs_v(ts@).map_values(|t: Seq<char>| assert_line(t)) =~= next_lines(fv).take(i + 1));
        i += 1;
    }
    assert(next_lines(fv).take(fields.len() as int) =~= next_lines(fv));
    let ghost mid = next_lines(fv);
    let mut j: usize = 0;
    assert(strs_v(ts@).map_values(|t: Seq<char>| assert_line(t)) =~= mid + frame_lines(rv, fv, 0));
    while j < role.state.len()
        invariant
            rv == role_v(*role),
            fv == pairs_v(fields@),
            j <= role.state.len(),
            strs_v(ts@).map_values(|t: Seq<char>| assert_line(t)) == mid + frame_lines(rv, fv, j as int),
        decreases role.state.len() - j,
    {
        let f = &role.state[j];
        assert(rv.state[j as int] == field_v(*f));
        if !mentions(fields, &f.name) {
            let pn = primed(f.name.as_str());
            let t = cat5("(= ", pn.as_str(), " ", f.name.as_str(), ")");
            assert(t@ =~= "(= "@ + primed_name(f.name@) + " "@ + f.name@ + ")"@);
            let ghost before = ts@;
            ts.push(t);
            assert(strs_v(ts@).map_values(|t: Seq<char>| assert_line(t)) =~= strs_v(before).map_values(|t: Seq<char>| assert_line(t)).push(assert_line(t@)));
        }
        assert(strs_v(ts@).map_values(|t: Seq<char>| assert_line(t)) =~= mid + frame_lines(rv, fv, j + 1));
        j += 1;
    }
    ts
}

/// The transition relation of an entrypoint: the builder holding `T`, and
/// the logic its terms need.
pub struct Transition {
    pub builder: SmtBuilder,
    pub logic: Logic,
}

/// `t` holds exactly the transition relation of `e` (in role `r`, with
/// return fields `fs`).
pub open spec fn models_transition(t: Transition, r: SRole, e: SEntry, fs: Seq<(Seq<char>, SExpr)>) -> bool {
    &&& sorted_names(t.builder.sorts_v())
    &&& t.builder.sorts_v().to_set() == trans_sorts(r, e, fs)
    &&& t.builder.decls_v() == trans_decls(r, e, fs)
    &&& t.builder.asserts_v() == trans_asserts(r, e, fs)
    &&& t.logic == trans_logic(e, fs)
}

impl Transition {
    /// The document for `T` alone (the vacuity probe).
    pub fn transition_only(&self) -> (s: String)
        ensures
            s@ == smt_doc(logic_name(self.logic), self.builder.sorts_v(), self.builder.decls_v(), self.builder.asserts_v()),
    {
        self.builder.finish(self.logic.name())
    }
}

/// Builds the transition relation `T ≡ G ∧ s' = ⟦return⟧` of `entry` with
/// the return fields `fields`: refused exactly when a guard or a return
/// value has no encoding.
pub fn build_transition(role: &Role, entry: &Entry, fields: &Vec<(String, Expr)>) -> (r: Result<Transition, LensError>)
    ensures
        r is Ok <==> encodable(entry_v(*entry), pairs_v(fields@)),
        r matches Err(e) ==> e is Unsupported,
        r matches Ok(t) ==> models_transition(t, role_v(*role), entry_v(*entry), pairs_v(fields@)),
{
    let ghost rv = role_v(*role);
    let ghost ev = entry_v(*entry);
    let ghost fv = pairs_v(fields@);
    let sp = state_pairs(role, false);
    let ap = arg_pairs(entry);
    let pp = state_pairs(role, true);
    let mut bindings: Vec<(String, String)> = Vec::new();
    let mut i: usize = 0;
    assert(pairs_of(bindings@) =~= pairs_of(sp@).take(0));
    while i < sp.len()
        invariant
            i <= sp.len(),
            pairs_of(bindings@) == pairs_of(sp@).take(i as int),
        decreases sp.len() - i,
    {
        let ghost before = bindings@;
        let x = sp[i].0.clone();
        let y = sp[i].1.clone();
        bindings.push((x, y));
        assert(pairs_of(bindings@) =~= pairs_of(before).push((x@, y@)));
        assert(pairs_of(sp@).take(i + 1) =~= pairs_of(sp@).take(i as int).push(pairs_of(sp@)[i as int]));
        i += 1;
    }
    let mut j: usize = 0;
    assert(pairs_of(bindings@) =~= pairs_of(sp@) + pairs_of(ap@).take(0));
    while j < ap.len()
        invariant
            j <= ap.len(),
            pairs_of(bindings@) == pairs_of(sp@) + pairs_of(ap@).take(j as int),
        decreases ap.len() - j,
    {
        let ghost before = bindings@;
        let x = ap[j].0.clone();
        let y = ap[j].1.clone();
        bindings.push((x, y));
        assert(pairs_of(bindings@) =~= pairs_of(before).push((x@, y@)));
        assert(pairs_of(ap@).take(j + 1) =~= pairs_of(ap@).take(j as int).push(pairs_of(ap@)[j as int]));
        assert(pairs_of(bindings@) =~= pairs_of(sp@) + pairs_of(ap@).take(j + 1));
        j += 1;
    }
    assert(pairs_of(ap@).take(ap.len() as int) =~= pairs_of(ap@));
    let mut ctx = EncodeCtx::new(bindings);
    assert(ctx.bindings() == pairs_of(bindings@));
    let mut logic = Logic::QfLia;
    let mut b = SmtBuilder::new();
    declare_all(&mut b, &sp);
    declare_all(&mut b, &ap);
    declare_all(&mut b, &pp);
    let gts = encode_guards(entry, &mut ctx, &mut logic)?;
    let vts = encode_values(fields, &mut ctx, &mut logic)?;
    let nexts = next_state(role, fields, &vts);
    declare_funs(&mut b, ctx.ufs());
    let ax = axioms(role, entry);
    assert_all(&mut b, &ax);
    assert_all(&mut b, &gts);
    assert_all(&mut b, &nexts);
    proof {
        let a1 = const_lines(state_bindings(rv));
        let a2 = const_lines(arg_bindings(ev));
        let a3 = const_lines(primed_bindings(rv));
        let a4 = fun_lines(trans_table(rv, ev, fv));
        let e = Seq::<Seq<char>>::empty();
        lemma_add_all_concat(e, a1, a2, a2.len() as int);
        lemma_add_all_concat(e, a1 + a2, a3, a3.len() as int);
        lemma_add_all_concat(e, a1 + a2 + a3, a4, a4.len() as int);
        assert(decl_list(rv, ev, fv) == a1 + a2 + a3 + a4);
        assert(primed_bindings(rv).map_values(|p: (Seq<char>, Seq<char>)| p.1) =~= state_bindings(rv).map_values(|p: (Seq<char>, Seq<char>)| p.1));
        assert(b.sorts_v().to_set() =~= trans_sorts(rv, ev, fv));
        assert(guards_of(ev).map_values(|g: SExpr| enc(g, ExpectSort::Bool)->0).map_values(|t: Seq<char>| assert_line(t)) =~= guards_of(ev).map_values(|g: SExpr| assert_line(enc(g, ExpectSort::Bool)->0)));
        assert(b.asserts_v() =~= trans_asserts(rv, ev, fv));
    }
    Ok(Transition { builder: b, logic })
}

// ── the conservation and spend VCs ──────────────────────────────────────

/// The fields of the entrypoint's first object return.
pub fn object_return_fields(entry: &Entry) -> (r: Option<&Vec<(String, Expr)>>)
    ensures
        match r {
            Some(fs) => first_object(entry_v(*entry).body, 0) == Some(pairs_v(fs@)),
            None => first_object(entry_v(*entry).body, 0) is None,
        },
{
    let ghost ev = entry_v(*entry);
    let mut k: usize = 0;
    while k < entry.body.len()
        invariant
            ev == entry_v(*entry),
            k <= entry.body.len(),
            first_object(ev.body, 0) == first_object(ev.body, k as int),
        decreases entry.body.len() - k,
    {
        assert(ev.body[k as int] == stmt_v(entry.body@[k as int]));
        match &entry.body[k] {
            Stmt::Return(ReturnExpr::Object { fields, .. }) => {
                return Some(fields);
            },
            _ => {},
        }
        k += 1;
    }
    None
}

/// The body has a raw statement.
pub open spec fn has_raw(e: SEntry) -> bool {
    exists|k: int| 0 <= k < e.body.len() && #[trigger] e.body[k] is Raw
}

/// Whether `entry`'s body has a raw statement.
pub fn body_has_raw(entry: &Entry) -> (b: bool)
    ensures
        b == has_raw(entry_v(*entry)),
{
    let ghost ev = entry_v(*entry);
    let mut k: usize = 0;
    while k < entry.body.len()
        invariant
            ev == entry_v(*entry),
            k <= entry.body.len(),
            forall|q: int| 0 <= q < k ==> !(#[trigger] ev.body[q] is Raw),
        decreases entry.body.len() - k,
    {
        assert(ev.body[k as int] == stmt_v(entry.body@[k as int]));
        match &entry.body[k] {
            Stmt::Raw(_) => {
                return true;
            },
            _ => {},
        }
        k += 1;
    }
    false
}

/// The names of the value-bearing state fields among the first `k`, in
/// order (the wide rule).
pub open spec fn v_names(r: SRole, k: int) -> Seq<Seq<char>>
    decreases k,
{
    if k <= 0 || k > r.state.len() {
        Seq::empty()
    } else {
        v_names(r, k - 1) + if value_bearing_split(r.state[k - 1].name, r.state[k - 1].ty) {
            seq![r.state[k - 1].name]
        } else {
            Seq::empty()
        }
    }
}

pub open spec fn value_names(r: SRole) -> Seq<Seq<char>> {
    v_names(r, r.state.len() as int)
}

/// The fields among the first `n` of `fs` that are value-bearing by the
/// wide rule, in order.
pub open spec fn value_fields(fs: Seq<Field>, n: int) -> Seq<Field>
    decreases n,
{
    if n <= 0 || n > fs.len() {
        Seq::empty()
    } else {
        value_fields(fs, n - 1) + if value_bearing_split(fs[n - 1].name@, crate::model::type_v(fs[n - 1].ty)) {
            seq![fs[n - 1]]
        } else {
            Seq::empty()
        }
    }
}

/// The value-bearing state fields of a role, in order (the wide rule).
pub fn value_bearing_fields(role: &Role) -> (v: Vec<&Field>)
    ensures
        v@.map_values(|f: &Field| *f) == value_fields(role.state@, role.state@.len() as int),
        v@.map_values(|f: &Field| f.name@) == value_names(role_v(*role)),
        forall|i: int| 0 <= i < v@.len() ==> value_bearing_split(v@[i].name@, crate::model::type_v(v@[i].ty)),
{
    let ghost rv = role_v(*role);
    let mut v: Vec<&Field> = Vec::new();
    let mut i: usize = 0;
    assert(v@.map_values(|f: &Field| f.name@) =~= v_names(rv, 0));
    assert(v@.map_values(|f: &Field| *f) =~= value_fields(role.state@, 0));
    while i < role.state.len()
        invariant
            rv == role_v(*role),
            i <= role.state.len(),
            v@.map_values(|f: &Field| f.name@) == v_names(rv, i as int),
            v@.map_values(|f: &Field| *f) == value_fields(role.state@, i as int),
            forall|q: int| 0 <= q < v@.len() ==> value_bearing_split(v@[q].name@, crate::model::type_v(v@[q].ty)),
        decreases role.state.len() - i,
    {
        let f = &role.state[i];
        assert(rv.state[i as int] == field_v(*f));
        if crate::encode::is_value_bearing_split(f.name.as_str(), &f.ty) {
            v.push(f);
        }
        assert(v@.map_values(|f: &Field| f.name@) =~= v_names(rv, i + 1));
        assert(v@.map_values(|f: &Field| *f) =~= value_fields(role.state@, i + 1));
        i += 1;
    }
    v
}

/// Whether `n` names one of the fields.
fn names_field(v: &Vec<&Field>, n: &String) -> (b: bool)
    ensures
        b == v@.map_values(|f: &Field| f.name@).contains(n@),
{
    let ghost vv = v@.map_values(|f: &Field| f.name@);
    let mut i: usize = 0;
    while i < v.len()
        invariant
            vv == v@.map_values(|f: &Field| f.name@),
            i <= v.len(),
            forall|q: int| 0 <= q < i ==> vv[q] != n@,
        decreases v.len() - i,
    {
        if crate::lookup::same(&v[i].name, n) {
            assert(vv[i as int] == n@);
            return true;
        }
        i += 1;
    }
    false
}

/// A term built from literals alone.
pub open spec fn constant(x: SExpr) -> bool
    decreases x,
{
    match x {
        SExpr::Int(_) => true,
        SExpr::Bool(_) => true,
        SExpr::Bytes(_) => true,
        SExpr::Unary(_, r) => constant(*r),
        SExpr::Binary(_, l, r) => constant(*l) && constant(*r),
        _ => false,
    }
}

/// Whether `x` is built from literals alone.
pub fn expr_is_constant(x: &Expr) -> (b: bool)
    ensures
        b == constant(expr_v(*x)),
    decreases x,
{
    match x {
        Expr::Int(_) | Expr::Bool(_) | Expr::Bytes(_) => true,
        Expr::Unary { rhs, .. } => expr_is_constant(rhs),
        Expr::Binary { lhs, rhs, .. } => expr_is_constant(lhs) && expr_is_constant(rhs),
        _ => false,
    }
}

/// How a field's return value moves it.
pub enum Delta {
    Carry,
    Increase,
    Decrease,
    Other,
}

/// `f: f` carries, `f: f + e` increases, `f: f - e` decreases; anything
/// else is other.
pub open spec fn delta(f: Seq<char>, v: SExpr) -> Delta {
    if v == SExpr::Var(f) {
        Delta::Carry
    } else {
        match v {
            SExpr::Binary(op, l, _) => if *l == SExpr::Var(f) && op == crate::ast::BinOp::Add {
                Delta::Increase
            } else if *l == SExpr::Var(f) && op == crate::ast::BinOp::Sub {
                Delta::Decrease
            } else {
                Delta::Other
            },
            _ => Delta::Other,
        }
    }
}

fn classify_delta(field: &str, value: &Expr) -> (d: Delta)
    ensures
        d == delta(field@, expr_v(*value)),
{
    if crate::adjust::is_var(value, field) {
        return Delta::Carry;
    }
    match value {
        Expr::Binary { op, lhs, .. } => {
            let lf = crate::adjust::is_var(lhs, field);
            match op {
                crate::ast::BinOp::Add => if lf { Delta::Increase } else { Delta::Other },
                crate::ast::BinOp::Sub => if lf { Delta::Decrease } else { Delta::Other },
                _ => Delta::Other,
            }
        },
        _ => Delta::Other,
    }
}

/// A field outside the value set that accumulates a non-constant amount
/// (`f: f + e` or `f: f - e`, `e` not constant).
pub open spec fn leaks(r: SRole, fv: (Seq<char>, SExpr)) -> bool {
    !value_names(r).contains(fv.0) && match fv.1 {
        SExpr::Binary(op, l, rr) => (op == crate::ast::BinOp::Add || op == crate::ast::BinOp::Sub)
            && *l == SExpr::Var(fv.0) && !constant(*rr),
        _ => false,
    }
}

/// The number of value fields among the first `k` return fields whose
/// move satisfies `p`.
pub open spec fn count_moves(r: SRole, fs: Seq<(Seq<char>, SExpr)>, p: spec_fn(Delta) -> bool, k: int) -> int
    decreases k,
{
    if k <= 0 || k > fs.len() {
        0
    } else {
        count_moves(r, fs, p, k - 1) + if value_names(r).contains(fs[k - 1].0) && p(delta(fs[k - 1].0, fs[k - 1].1)) {
            1int
        } else {
            0int
        }
    }
}

pub open spec fn increases_n(r: SRole, fs: Seq<(Seq<char>, SExpr)>) -> int {
    count_moves(r, fs, |d: Delta| d is Increase, fs.len() as int)
}

pub open spec fn decreases_n(r: SRole, fs: Seq<(Seq<char>, SExpr)>) -> int {
    count_moves(r, fs, |d: Delta| d is Decrease, fs.len() as int)
}

pub open spec fn others_n(r: SRole, fs: Seq<(Seq<char>, SExpr)>) -> int {
    count_moves(r, fs, |d: Delta| d is Other, fs.len() as int)
}

/// The SMT-LIB sum of the terms: `0`, the term alone, or `(+ ...)`.
pub open spec fn sum_text(xs: Seq<Seq<char>>) -> Seq<char> {
    if xs.len() == 0 {
        "0"@
    } else if xs.len() == 1 {
        xs[0]
    } else {
        "(+ "@ + crate::smt::spaced(xs, xs.len() as int) + ")"@
    }
}

pub open spec fn pre_sum(r: SRole) -> Seq<char> {
    sum_text(value_names(r))
}

pub open spec fn post_sum(r: SRole) -> Seq<char> {
    sum_text(value_names(r).map_values(|n: Seq<char>| primed_name(n)))
}

/// The probe text is `T` alone and the full text is the document with the
/// declarations `decls` and assertions `asserts` (over the same sorts).
pub open spec fn vc_texts(
    r: SRole,
    e: SEntry,
    fs: Seq<(Seq<char>, SExpr)>,
    decls: Seq<Seq<char>>,
    asserts: Seq<Seq<char>>,
    probe: Seq<char>,
    full: Seq<char>,
) -> bool {
    exists|q: Seq<Seq<char>>|
        sorted_names(q) && q.to_set() == trans_sorts(r, e, fs) && probe == smt_doc(
            logic_name(trans_logic(e, fs)),
            q,
            trans_decls(r, e, fs),
            trans_asserts(r, e, fs),
        ) && full == smt_doc(logic_name(trans_logic(e, fs)), q, decls, asserts)
}

/// What the conservation VC of an entrypoint is: refused (and why), a spend
/// VC, or an internal-flow conservation VC.
pub enum ConservationShape {
    NotTransition,
    Exempt,
    Raw,
    NoObjectReturn,
    NoValueFields,
    Leak,
    NoMove,
    Spend,
    MintLike,
    Flow,
}

/// The shape of the conservation VC of `e` in `r`.
pub open spec fn conservation_shape(r: SRole, e: SEntry) -> ConservationShape {
    if e.mode != CovenantMode::Transition {
        ConservationShape::NotTransition
    } else if has_prefix(e.name, "mint"@) || has_prefix(e.name, "burn"@) {
        ConservationShape::Exempt
    } else if has_raw(e) {
        ConservationShape::Raw
    } else {
        match first_object(e.body, 0) {
            None => ConservationShape::NoObjectReturn,
            Some(fs) => if value_names(r).len() == 0 {
                ConservationShape::NoValueFields
            } else if exists|i: int| 0 <= i < fs.len() && leaks(r, #[trigger] fs[i]) {
                ConservationShape::Leak
            } else if increases_n(r, fs) + decreases_n(r, fs) + others_n(r, fs) == 0 {
                ConservationShape::NoMove
            } else if decreases_n(r, fs) > 0 && increases_n(r, fs) == 0 && others_n(r, fs) == 0 {
                ConservationShape::Spend
            } else if increases_n(r, fs) > 0 && decreases_n(r, fs) == 0 && others_n(r, fs) == 0 {
                ConservationShape::MintLike
            } else {
                ConservationShape::Flow
            },
        }
    }
}

/// `w` begins `n`.
pub open spec fn has_prefix(n: Seq<char>, w: Seq<char>) -> bool {
    n.len() >= w.len() && n.take(w.len() as int) == w
}

/// Whether `w` begins `n`.
fn starts_with(n: &str, w: &str) -> (b: bool)
    ensures
        b == has_prefix(n@, w@),
{
    let a = crate::lexer::chars_of(n);
    let c = crate::lexer::chars_of(w);
    if a.len() < c.len() {
        return false;
    }
    let mut i: usize = 0;
    while i < c.len()
        invariant
            a@ == n@,
            c@ == w@,
            c.len() <= a.len(),
            i <= c.len(),
            forall|q: int| 0 <= q < i ==> a@[q] == c@[q],
        decreases c.len() - i,
    {
        if a[i] != c[i] {
            assert(n@.take(w@.len() as int)[i as int] != w@[i as int]);
            return false;
        }
        i += 1;
    }
    assert(n@.take(w@.len() as int) =~= w@);
    true
}

/// The SMT-LIB sum of the terms.
pub fn sum_terms(v: &Vec<String>) -> (s: String)
    ensures
        s@ == sum_text(strs_v(v@)),
{
    if v.len() == 0 {
        return String::from_str("0");
    }
    if v.len() == 1 {
        return v[0].clone();
    }
    let mut s = String::from_str("(+ ");
    let ghost p0 = s@;
    let ghost vv = strs_v(v@);
    let mut i: usize = 0;
    while i < v.len()
        invariant
            vv == strs_v(v@),
            i <= v.len(),
            s@ == p0 + crate::smt::spaced(vv, i as int),
        decreases v.len() - i,
    {
        if i > 0 {
            s.append(" ");
        }
        s.append(v[i].as_str());
        i += 1;
        assert(s@ =~= p0 + crate::smt::spaced(vv, i as int));
    }
    s.append(")");
    s
}

/// The sums of the value fields before and after.
fn value_sums(vfs: &Vec<&Field>) -> (r: (String, String))
    ensures
        r.0@ == sum_text(vfs@.map_values(|f: &Field| f.name@)),
        r.1@ == sum_text(vfs@.map_values(|f: &Field| f.name@).map_values(|n: Seq<char>| primed_name(n))),
{
    let ghost names = vfs@.map_values(|f: &Field| f.name@);
    let mut pre: Vec<String> = Vec::new();
    let mut post: Vec<String> = Vec::new();
    let mut i: usize = 0;
    while i < vfs.len()
        invariant
            names == vfs@.map_values(|f: &Field| f.name@),
            i <= vfs.len(),
            strs_v(pre@) == names.take(i as int),
            strs_v(post@) == names.take(i as int).map_values(|n: Seq<char>| primed_name(n)),
        decreases vfs.len() - i,
    {
        let a = vfs[i].name.clone();
        let b = primed(vfs[i].name.as_str());
        let ghost p0 = pre@;
        let ghost q0 = post@;
        pre.push(a);
        post.push(b);
        assert(strs_v(pre@) =~= strs_v(p0).push(a@));
        assert(strs_v(post@) =~= strs_v(q0).push(b@));
        assert(names.take(i + 1) =~= names.take(i as int).push(names[i as int]));
        assert(names.take(i + 1).map_values(|n: Seq<char>| primed_name(n)) =~= names.take(i as int).map_values(|n: Seq<char>| primed_name(n)).push(primed_name(names[i as int])));
        i += 1;
    }
    assert(names.take(vfs.len() as int) =~= names);
    (sum_terms(&pre), sum_terms(&post))
}

/// The internal-flow conservation VC: `T` and `Σf' ≠ Σf` over the value
/// fields.
fn emit_internal_flow_vc(role: &Role, entry: &Entry, fields: &Vec<(String, Expr)>, vfs: &Vec<&Field>) -> (r: Result<(String, String), LensError>)
    requires
        vfs@.map_values(|f: &Field| f.name@) == value_names(role_v(*role)),
    ensures
        r is Ok <==> encodable(entry_v(*entry), pairs_v(fields@)),
        r matches Err(e) ==> e is Unsupported,
        r matches Ok(p) ==> vc_texts(
            role_v(*role),
            entry_v(*entry),
            pairs_v(fields@),
            trans_decls(role_v(*role), entry_v(*entry), pairs_v(fields@)),
            trans_asserts(role_v(*role), entry_v(*entry), pairs_v(fields@)).push(
                assert_line("(not (= "@ + post_sum(role_v(*role)) + " "@ + pre_sum(role_v(*role)) + "))"@),
            ),
            p.0@,
            p.1@,
        ),
{
    let t = build_transition(role, entry, fields)?;
    let probe = t.transition_only();
    let mut b = t.builder;
    let (pre, post) = value_sums(vfs);
    let neg = cat5("(not (= ", post.as_str(), " ", pre.as_str(), "))");
    b.assert_term(neg.as_str());
    let full = b.finish(t.logic.name());
    Ok((probe, full))
}

/// The spend VC: `T`, a fresh `spent_out` bound to `Σf − Σf'`, and
/// `spent_out < 0` (value created).
fn emit_spend_vc(role: &Role, entry: &Entry, fields: &Vec<(String, Expr)>, vfs: &Vec<&Field>) -> (r: Result<(String, String), LensError>)
    requires
        vfs@.map_values(|f: &Field| f.name@) == value_names(role_v(*role)),
    ensures
        r is Ok <==> encodable(entry_v(*entry), pairs_v(fields@)),
        r matches Err(e) ==> e is Unsupported,
        r matches Ok(p) ==> vc_texts(
            role_v(*role),
            entry_v(*entry),
            pairs_v(fields@),
            add_line(trans_decls(role_v(*role), entry_v(*entry), pairs_v(fields@)), const_line("spent_out"@, "Int"@)),
            trans_asserts(role_v(*role), entry_v(*entry), pairs_v(fields@)).push(
                assert_line("(= spent_out (- "@ + pre_sum(role_v(*role)) + " "@ + post_sum(role_v(*role)) + "))"@),
            ).push(assert_line("(< spent_out 0)"@)),
            p.0@,
            p.1@,
        ),
{
    let t = build_transition(role, entry, fields)?;
    let probe = t.transition_only();
    let ghost s0 = t.builder.sorts_v();
    let mut b = t.builder;
    let (pre, post) = value_sums(vfs);
    b.declare_const("spent_out", "Int");
    let bind = cat5("(= spent_out (- ", pre.as_str(), " ", post.as_str(), "))");
    b.assert_term(bind.as_str());
    b.assert_term("(< spent_out 0)");
    let full = b.finish(t.logic.name());
    proof {
        crate::smt::lemma_sorted_unique(b.sorts_v(), s0);
    }
    Ok((probe, full))
}

/// `role.entry`.
pub open spec fn qualified(r: SRole, e: SEntry) -> Seq<char> {
    r.name + "."@ + e.name
}

fn qualified_name(role: &Role, entry: &Entry) -> (s: String)
    ensures
        s@ == qualified(role_v(*role), entry_v(*entry)),
{
    cat3(role.name.as_str(), ".", entry.name.as_str())
}

/// The report for a VC of `kind` with the given texts.
pub open spec fn report_of(rep: VcReport, r: SRole, e: SEntry, kind: VcKind) -> bool {
    rep.entrypoint@ == qualified(r, e) && rep.vc_kind == kind && rep.outcome is None
}

/// Builds the conservation VC of a transition: for an internal flow
/// (value moves between value-bearing fields) `Σf' = Σf`; for a clean
/// spend (only decreases) that no value is created. Refused when the entry
/// is not a transition, is a `mint*`/`burn*` supply change, has a raw
/// statement, has no object return, the role has no value-bearing field,
/// a field outside the value set accumulates a non-constant amount, no
/// value field moves, value only increases, or a term has no encoding.
#[verifier::loop_isolation(false)]
pub fn build_conservation_vc(role: &Role, entry: &Entry) -> (r: Result<VcReport, LensError>)
    ensures
        match conservation_shape(role_v(*role), entry_v(*entry)) {
            ConservationShape::Raw => r matches Err(LensError::RawStmtInCovenant),
            ConservationShape::Spend => {
                let fs = first_object(entry_v(*entry).body, 0)->0;
                &&& (r is Ok <==> encodable(entry_v(*entry), fs))
                &&& (r matches Err(e) ==> e is Unsupported)
                &&& (r matches Ok(rep) ==> report_of(rep, role_v(*role), entry_v(*entry), VcKind::Spend) && vc_texts(
                    role_v(*role),
                    entry_v(*entry),
                    fs,
                    add_line(trans_decls(role_v(*role), entry_v(*entry), fs), const_line("spent_out"@, "Int"@)),
                    trans_asserts(role_v(*role), entry_v(*entry), fs).push(
                        assert_line("(= spent_out (- "@ + pre_sum(role_v(*role)) + " "@ + post_sum(role_v(*role)) + "))"@),
                    ).push(assert_line("(< spent_out 0)"@)),
                    rep.transition_smtlib@,
                    rep.smtlib@,
                ))
            },
            ConservationShape::Flow => {
                let fs = first_object(entry_v(*entry).body, 0)->0;
                &&& (r is Ok <==> encodable(entry_v(*entry), fs))
                &&& (r matches Err(e) ==> e is Unsupported)
                &&& (r matches Ok(rep) ==> report_of(rep, role_v(*role), entry_v(*entry), VcKind::ValueConservation) && vc_texts(
                    role_v(*role),
                    entry_v(*entry),
                    fs,
                    trans_decls(role_v(*role), entry_v(*entry), fs),
                    trans_asserts(role_v(*role), entry_v(*entry), fs).push(
                        assert_line("(not (= "@ + post_sum(role_v(*role)) + " "@ + pre_sum(role_v(*role)) + "))"@),
                    ),
                    rep.transition_smtlib@,
                    rep.smtlib@,
                ))
            },
            _ => r matches Err(LensError::Unsupported(_)),
        },
{
    let ghost rv = role_v(*role);
    let ghost ev = entry_v(*entry);
    match entry.mode {
        CovenantMode::Transition => {},
        _ => {
            return Err(LensError::Unsupported(String::from_str("not a transition entrypoint")));
        },
    }
    if starts_with(entry.name.as_str(), "mint") || starts_with(entry.name.as_str(), "burn") {
        return Err(LensError::Unsupported(cat3("", entry.name.as_str(), " is a mint/burn entrypoint (exempt from conservation)")));
    }
    if body_has_raw(entry) {
        return Err(LensError::RawStmtInCovenant);
    }
    let fields = match object_return_fields(entry) {
        Some(f) => f,
        None => {
            return Err(LensError::Unsupported(String::from_str("no object-return next-state to conserve over")));
        },
    };
    let ghost fv = pairs_v(fields@);
    let vfs = value_bearing_fields(role);
    if vfs.len() == 0 {
        return Err(LensError::Unsupported(String::from_str("no value-bearing fields; conservation VC would be vacuous (0 = 0)")));
    }
    let mut i: usize = 0;
    while i < fields.len()
        invariant
            fv == pairs_v(fields@),
            vfs@.map_values(|f: &Field| f.name@) == value_names(rv),
            i <= fields.len(),
            forall|q: int| 0 <= q < i ==> !leaks(rv, #[trigger] fv[q]),
        decreases fields.len() - i,
    {
        let field = &fields[i].0;
        let value = &fields[i].1;
        assert(fv[i as int] == (field@, expr_v(*value)));
        if !names_field(&vfs, field) {
            let acc = match value {
                Expr::Binary { op, lhs, rhs } => {
                    let additive = match op {
                        crate::ast::BinOp::Add | crate::ast::BinOp::Sub => true,
                        _ => false,
                    };
                    additive && crate::adjust::is_var(lhs, field.as_str()) && !expr_is_constant(rhs)
                },
                _ => false,
            };
            if acc {
                assert(leaks(rv, fv[i as int]));
                return Err(LensError::Unsupported(cat3("field `", field.as_str(), "` accumulates a non-constant amount but is not in the value-bearing set V; conservation over a partial V could be a false proof \u{2014} refusing (fail-closed). Make it coin-typed or name it `*balance` so it is conserved.")));
            }
        }
        i += 1;
    }
    let mut inc: usize = 0;
    let mut dec: usize = 0;
    let mut oth: usize = 0;
    let mut i: usize = 0;
    while i < fields.len()
        invariant
            fv == pairs_v(fields@),
            vfs@.map_values(|f: &Field| f.name@) == value_names(rv),
            i <= fields.len(),
            inc <= i && dec <= i && oth <= i,
            inc == count_moves(rv, fv, |d: Delta| d is Increase, i as int),
            dec == count_moves(rv, fv, |d: Delta| d is Decrease, i as int),
            oth == count_moves(rv, fv, |d: Delta| d is Other, i as int),
        decreases fields.len() - i,
    {
        let field = &fields[i].0;
        let value = &fields[i].1;
        assert(fv[i as int] == (field@, expr_v(*value)));
        if names_field(&vfs, field) {
            match classify_delta(field.as_str(), value) {
                Delta::Carry => {},
                Delta::Increase => {
                    inc += 1;
                },
                Delta::Decrease => {
                    dec += 1;
                },
                Delta::Other => {
                    oth += 1;
                },
            }
        }
        i += 1;
    }
    if inc == 0 && dec == 0 && oth == 0 {
        return Err(LensError::Unsupported(String::from_str("no value-bearing field moves; nothing to conserve")));
    }
    if dec > 0 && inc == 0 && oth == 0 {
        let (probe, full) = emit_spend_vc(role, entry, fields, &vfs)?;
        return Ok(VcReport {
            entrypoint: qualified_name(role, entry),
            vc_kind: VcKind::Spend,
            smtlib: full,
            transition_smtlib: probe,
            outcome: None,
        });
    }
    if inc > 0 && dec == 0 && oth == 0 {
        return Err(LensError::Unsupported(cat3("", entry.name.as_str(), " increases value with no counter-decrease (mint-like); out of internal-flow scope")));
    }
    let (probe, full) = emit_internal_flow_vc(role, entry, fields, &vfs)?;
    Ok(VcReport {
        entrypoint: qualified_name(role, entry),
        vc_kind: VcKind::ValueConservation,
        smtlib: full,
        transition_smtlib: probe,
        outcome: None,
    })
}

} // verus!
