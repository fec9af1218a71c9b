//! The VC classes beyond conservation, and the whole-program VC set.
//! Range: every value-bearing field whose return does arithmetic stays in
//! `[0, 2^64)`. Refinement (when declared): `non_negative_amount` gives
//! `amount >= 0`, `spending_cap` gives `amount <= limit`. Preservation (when
//! declared): `bounded_supply` keeps `supply <= total`, `monotonic_seq`
//! steps `seq' = seq + 1`. Every VC is `T` plus its negation; `T` alone is
//! the vacuity probe.

use vstd::prelude::*;
use crate::ast::{CovenantMode, Entry, Expr, Invariant, Program, Role};
use crate::clauses::first_object;
use crate::conserve::first_field_ty;
use crate::lookup::value_bearing_split;
use crate::checker::{declares_custom, diagnostic_count};
use crate::model::{SApp, SEntry, SExpr, SInvariant, SRole, app_v, entry_v, expr_v, invariant_v, pairs_v, role_v, strs_v};
use crate::refine::{has_state_field, int_amount_arg, has_limit};
use crate::smt::{add_line, const_line, spaced};
use crate::vc::{ConservationShape, LensError, VcKind, VcReport, assert_line, body_has_raw, build_conservation_vc, build_transition, conservation_shape, encodable, has_raw, post_sum, pre_sum, object_return_fields, primed, primed_name, report_of, trans_asserts, trans_decls, vc_texts};

verus! {

broadcast use vstd::seq_lib::group_seq_properties;

/// `a b c` concatenated.
fn cat3(a: &str, b: &str, c: &str) -> (s: String)
    ensures
        s@ == a@ + b@ + c@,
{
    let mut s = String::from_str(a);
    s.append(b);
    s.append(c);
    s
}

// ── range ───────────────────────────────────────────────────────────────

/// The primed names of the first `k` return fields that are value-bearing
/// (by their first declaration) and not a bare carry.
pub open spec fn ranged(r: SRole, fs: Seq<(Seq<char>, SExpr)>, k: int) -> Seq<Seq<char>>
    decreases k,
{
    if k <= 0 || k > fs.len() {
        Seq::empty()
    } else {
        ranged(r, fs, k - 1) + match first_field_ty(r, fs[k - 1].0, 0) {
            Some(t) => if value_bearing_split(fs[k - 1].0, t) && fs[k - 1].1 != SExpr::Var(fs[k - 1].0) {
                seq![primed_name(fs[k - 1].0)]
            } else {
                Seq::empty()
            },
            None => Seq::empty(),
        }
    }
}

/// `(< f 0)` and `(>= f 2^64)` for each of the first `k` names.
pub open spec fn out_of_range(ns: Seq<Seq<char>>, k: int) -> Seq<Seq<char>>
    decreases k,
{
    if k <= 0 || k > ns.len() {
        Seq::empty()
    } else {
        out_of_range(ns, k - 1) + seq![
            "(< "@ + ns[k - 1] + " 0)"@,
            "(>= "@ + ns[k - 1] + " 18446744073709551616)"@,
        ]
    }
}

/// The negated range VC: one disjunct alone, or their `or`.
pub open spec fn range_negation(ns: Seq<Seq<char>>) -> Seq<char> {
    let d = out_of_range(ns, ns.len() as int);
    if d.len() == 1 {
        d[0]
    } else {
        "(or "@ + spaced(d, d.len() as int) + ")"@
    }
}

/// The range VC applies: a transition without raw statements whose first
/// object return does arithmetic on a value-bearing field.
pub open spec fn range_applies(r: SRole, e: SEntry) -> bool {
    e.mode == CovenantMode::Transition && !has_raw(e) && match first_object(e.body, 0) {
        Some(fs) => ranged(r, fs, fs.len() as int).len() > 0,
        None => false,
    }
}

/// Builds the range VC of a transition.
#[verifier::loop_isolation(false)]
pub fn build_range_vc(role: &Role, entry: &Entry) -> (r: Result<VcReport, LensError>)
    ensures
        entry_v(*entry).mode == CovenantMode::Transition && has_raw(entry_v(*entry)) ==> r matches Err(LensError::RawStmtInCovenant),
        r is Ok <==> range_applies(role_v(*role), entry_v(*entry)) && encodable(entry_v(*entry), first_object(entry_v(*entry).body, 0)->0),
        r matches Ok(rep) ==> {
            let fs = first_object(entry_v(*entry).body, 0)->0;
            report_of(rep, role_v(*role), entry_v(*entry), VcKind::Range) && vc_texts(
                role_v(*role),
                entry_v(*entry),
                fs,
                trans_decls(role_v(*role), entry_v(*entry), fs),
                trans_asserts(role_v(*role), entry_v(*entry), fs).push(
                    assert_line(range_negation(ranged(role_v(*role), fs, fs.len() as int))),
                ),
                rep.transition_smtlib@,
                rep.smtlib@,
            )
        },
        r matches Err(e) ==> (e is Unsupported || e is RawStmtInCovenant),
        r matches Err(LensError::RawStmtInCovenant) ==> entry_v(*entry).mode == CovenantMode::Transition && has_raw(entry_v(*entry)),
{
    let ghost rv = role_v(*role);
    let ghost ev = entry_v(*entry);
    match entry.mode {
        CovenantMode::Transition => {},
        _ => {
            return Err(LensError::Unsupported(String::from_str("not a transition entrypoint")));
        },
    }
    if body_has_raw(entry) {
        return Err(LensError::RawStmtInCovenant);
    }
    let fields = match object_return_fields(entry) {
        Some(f) => f,
        None => {
            return Err(LensError::Unsupported(String::from_str("no object-return next-state to range-check")));
        },
    };
    let ghost fv = pairs_v(fields@);
    let mut names: Vec<String> = Vec::new();
    let mut i: usize = 0;
    while i < fields.len()
        invariant
            fv == pairs_v(fields@),
            i <= fields.len(),
            strs_v(names@) == ranged(rv, fv, i as int),
        decreases fields.len() - i,
    {
        let field = &fields[i].0;
        let value = &fields[i].1;
        assert(fv[i as int] == (field@, expr_v(*value)));
        let keep = match crate::conserve::first_field_type(role, field) {
            Some(t) => crate::encode::is_value_bearing_split(field.as_str(), t) && !crate::adjust::is_var(value, field.as_str()),
            None => false,
        };
        let ghost before = names@;
        if keep {
            let p = primed(field.as_str());
            names.push(p);
            assert(strs_v(names@) =~= strs_v(before).push(p@));
        }
        assert(strs_v(names@) =~= ranged(rv, fv, i + 1));
        i += 1;
    }
    if names.len() == 0 {
        return Err(LensError::Unsupported(String::from_str("no value-bearing field performs arithmetic; nothing to range-check")));
    }
    let t = build_transition(role, entry, fields)?;
    let probe = t.transition_only();
    let mut b = t.builder;
    let ghost ns = strs_v(names@);
    let mut ds: Vec<String> = Vec::new();
    let mut k: usize = 0;
    while k < names.len()
        invariant
            ns == strs_v(names@),
            k <= names.len(),
            strs_v(ds@) == out_of_range(ns, k as int),
        decreases names.len() - k,
    {
        let a = cat3("(< ", names[k].as_str(), " 0)");
        let c = cat3("(>= ", names[k].as_str(), " 18446744073709551616)");
        let ghost before = ds@;
        ds.push(a);
        ds.push(c);
        assert(strs_v(ds@) =~= strs_v(before).push(a@).push(c@));
        k += 1;
    }
    let neg = if ds.len() == 1 {
        ds[0].clone()
    } else {
        let mut s = String::from_str("(or ");
        let ghost p0 = s@;
        let ghost dv = strs_v(ds@);
        let mut j: usize = 0;
        while j < ds.len()
            invariant
                dv == strs_v(ds@),
                j <= ds.len(),
                s@ == p0 + spaced(dv, j as int),
            decreases ds.len() - j,
        {
            if j > 0 {
                s.append(" ");
            }
            s.append(ds[j].as_str());
            j += 1;
            assert(s@ =~= p0 + spaced(dv, j as int));
        }
        s.append(")");
        s
    };
    b.assert_term(neg.as_str());
    let full = b.finish(t.logic.name());
    Ok(VcReport {
        entrypoint: cat3(role.name.as_str(), ".", entry.name.as_str()),
        vc_kind: VcKind::Range,
        smtlib: full,
        transition_smtlib: probe,
        outcome: None,
    })
}

// ── declared invariants ─────────────────────────────────────────────────

/// The names of the custom invariants an app declares.
pub struct DeclaredInvariants {
    names: Vec<String>,
}

impl DeclaredInvariants {
    pub closed spec fn declares_v(&self, n: Seq<char>) -> bool {
        strs_v(self.names@).contains(n)
    }

    /// The custom invariants among `invariants`.
    pub fn from_app(invariants: &Vec<Invariant>) -> (d: DeclaredInvariants)
        ensures
            forall|n: Seq<char>|
                d.declares_v(n) <==> exists|i: int|
                    0 <= i < invariants@.len() && #[trigger] invariant_v(invariants@[i]) == SInvariant::Custom(n),
    {
        let mut names: Vec<String> = Vec::new();
        let mut i: usize = 0;
        while i < invariants.len()
            invariant
                i <= invariants.len(),
                forall|n: Seq<char>|
                    strs_v(names@).contains(n) <==> exists|q: int|
                        0 <= q < i && #[trigger] invariant_v(invariants@[q]) == SInvariant::Custom(n),
            decreases invariants.len() - i,
        {
            let ghost before = names@;
            match &invariants[i] {
                Invariant::Custom(s) => {
                    let c = s.clone();
                    names.push(c);
                    proof {
                        crate::model::lemma_strs_push(before, c);
                        assert forall|n: Seq<char>| strs_v(names@).contains(n) <==> exists|q: int|
                            0 <= q < i + 1 && #[trigger] invariant_v(invariants@[q]) == SInvariant::Custom(n) by {
                            if n == s@ {
                                assert(invariant_v(invariants@[i as int]) == SInvariant::Custom(n));
                                assert(strs_v(names@)[before.len() as int] == n);
                            }
                            if strs_v(names@).contains(n) && n != s@ {
                                let z = choose|z: int| 0 <= z < strs_v(names@).len() && strs_v(names@)[z] == n;
                                assert(strs_v(before)[z] == n);
                            }
                            if strs_v(before).contains(n) {
                                let z = choose|z: int| 0 <= z < strs_v(before).len() && strs_v(before)[z] == n;
                                assert(strs_v(names@)[z] == n);
                            }
                        }
                    }
                },
                _ => {
                    assert forall|n: Seq<char>| strs_v(names@).contains(n) <==> exists|q: int|
                        0 <= q < i + 1 && #[trigger] invariant_v(invariants@[q]) == SInvariant::Custom(n) by {
                        if exists|q: int| 0 <= q < i + 1 && #[trigger] invariant_v(invariants@[q]) == SInvariant::Custom(n) {
                            let q = choose|q: int| 0 <= q < i + 1 && #[trigger] invariant_v(invariants@[q]) == SInvariant::Custom(n);
                            assert(q < i);
                        }
                    }
                },
            }
            i += 1;
        }
        DeclaredInvariants { names }
    }

    /// Whether `n` is declared.
    pub fn declares(&self, n: &str) -> (b: bool)
        ensures
            b == self.declares_v(n@),
    {
        let ghost nv = strs_v(self.names@);
        let mut i: usize = 0;
        while i < self.names.len()
            invariant
                nv == strs_v(self.names@),
                i <= self.names.len(),
                forall|q: int| 0 <= q < i ==> nv[q] != n@,
            decreases self.names.len() - i,
        {
            if crate::text::str_eq(self.names[i].as_str(), n) {
                assert(nv[i as int] == n@);
                return true;
            }
            i += 1;
        }
        false
    }
}

// ── refinement and preservation ─────────────────────────────────────────

/// A transition without raw statements, with an object return whose
/// transition relation encodes.
pub open spec fn provable(e: SEntry) -> bool {
    e.mode == CovenantMode::Transition && !has_raw(e) && first_object(e.body, 0) is Some && encodable(
        e,
        first_object(e.body, 0)->0,
    )
}

/// The refinement predicates `G ⟹ φ` that apply to `e` under `d`.
pub open spec fn refinement_phis(r: SRole, e: SEntry, non_negative: bool, cap: bool) -> Seq<Seq<char>> {
    (if non_negative && int_amount_arg(e) {
        seq!["(>= amount 0)"@]
    } else {
        Seq::empty()
    }) + (if cap && int_amount_arg(e) && has_limit(r) {
        seq!["(<= amount limit)"@]
    } else {
        Seq::empty()
    })
}

/// The preservation obligations `(I(pre), I(post))` that apply to `e`
/// under `d` (`true` stands for no hypothesis).
pub open spec fn preservations(r: SRole, bounded: bool, monotonic: bool) -> Seq<(Seq<char>, Seq<char>)> {
    (if bounded && has_state_field(r, "supply"@) && has_state_field(r, "total"@) {
        seq![("(<= supply total)"@, "(<= supply_p total_p)"@)]
    } else {
        Seq::empty()
    }) + (if monotonic && has_state_field(r, "seq"@) {
        seq![("true"@, "(= seq_p (+ seq 1))"@)]
    } else {
        Seq::empty()
    })
}

/// `rep` is the VC of `kind` for `e` whose negation adds `extra`.
pub open spec fn vc_with(rep: VcReport, r: SRole, e: SEntry, kind: VcKind, extra: Seq<Seq<char>>) -> bool {
    let fs = first_object(e.body, 0)->0;
    report_of(rep, r, e, kind) && vc_texts(
        r,
        e,
        fs,
        trans_decls(r, e, fs),
        trans_asserts(r, e, fs) + extra,
        rep.transition_smtlib@,
        rep.smtlib@,
    )
}

/// Emits one VC: `T` and the extra assertions.
fn emit(role: &Role, entry: &Entry, fields: &Vec<(String, Expr)>, kind: VcKind, extra: &Vec<String>) -> (r: Option<VcReport>)
    requires
        first_object(entry_v(*entry).body, 0) == Some(pairs_v(fields@)),
    ensures
        r is Some <==> encodable(entry_v(*entry), pairs_v(fields@)),
        r matches Some(rep) ==> vc_with(rep, role_v(*role), entry_v(*entry), kind, strs_v(extra@).map_values(|t: Seq<char>| assert_line(t))),
{
    let t = match build_transition(role, entry, fields) {
        Ok(t) => t,
        Err(_) => {
            return None;
        },
    };
    let probe = t.transition_only();
    let mut b = t.builder;
    let ghost a0 = b.asserts_v();
    let ghost ev = strs_v(extra@);
    let mut i: usize = 0;
    while i < extra.len()
        invariant
            ev == strs_v(extra@),
            i <= extra.len(),
            b.asserts_v() == a0 + ev.take(i as int).map_values(|t: Seq<char>| assert_line(t)),
            b.decls_v() == t.builder.decls_v(),
            b.sorts_v() == t.builder.sorts_v(),
        decreases extra.len() - i,
    {
        b.assert_term(extra[i].as_str());
        assert(ev.take(i + 1) =~= ev.take(i as int).push(ev[i as int]));
        assert(b.asserts_v() =~= a0 + ev.take(i + 1).map_values(|t: Seq<char>| assert_line(t)));
        i += 1;
    }
    assert(ev.take(extra.len() as int) =~= ev);
    let full = b.finish(t.logic.name());
    Some(VcReport {
        entrypoint: cat3(role.name.as_str(), ".", entry.name.as_str()),
        vc_kind: kind,
        smtlib: full,
        transition_smtlib: probe,
        outcome: None,
    })
}

/// Builds the declared refinement VCs of an entrypoint, in order.
pub fn build_refinement_vcs(role: &Role, entry: &Entry, declared: &DeclaredInvariants) -> (out: Vec<VcReport>)
    ensures
        out@.len() == if provable(entry_v(*entry)) { refinement_phis(role_v(*role), entry_v(*entry), declared.declares_v("non_negative_amount"@), declared.declares_v("spending_cap"@)).len() } else { 0 },
        forall|i: int| 0 <= i < out@.len() ==> vc_with(
            #[trigger] out@[i],
            role_v(*role),
            entry_v(*entry),
            VcKind::Refinement,
            seq![assert_line("(not "@ + refinement_phis(role_v(*role), entry_v(*entry), declared.declares_v("non_negative_amount"@), declared.declares_v("spending_cap"@))[i] + ")"@)],
        ),
{
    let mut out: Vec<VcReport> = Vec::new();
    match entry.mode {
        CovenantMode::Transition => {},
        _ => {
            return out;
        },
    }
    if body_has_raw(entry) {
        return out;
    }
    let fields = match object_return_fields(entry) {
        Some(f) => f,
        None => {
            return out;
        },
    };
    let ghost phis = refinement_phis(role_v(*role), entry_v(*entry), declared.declares_v("non_negative_amount"@), declared.declares_v("spending_cap"@));
    let amount = crate::refine::takes_int_amount(entry);
    let mut phi_list: Vec<&str> = Vec::new();
    if declared.declares("non_negative_amount") && amount {
        phi_list.push("(>= amount 0)");
    }
    if declared.declares("spending_cap") && amount && crate::refine::commits_limit(role) {
        phi_list.push("(<= amount limit)");
    }
    assert(phi_list@.map_values(|p: &str| p@) =~= phis);
    let mut i: usize = 0;
    while i < phi_list.len()
        invariant
            phi_list@.map_values(|p: &str| p@) == phis,
            first_object(entry_v(*entry).body, 0) == Some(pairs_v(fields@)),
            i <= phi_list.len(),
            out@.len() == if encodable(entry_v(*entry), pairs_v(fields@)) { i as int } else { 0 },
            forall|q: int| 0 <= q < out@.len() ==> vc_with(
                #[trigger] out@[q],
                role_v(*role),
                entry_v(*entry),
                VcKind::Refinement,
                seq![assert_line("(not "@ + phis[q] + ")"@)],
            ),
        decreases phi_list.len() - i,
    {
        let mut extra: Vec<String> = Vec::new();
        let t = cat3("(not ", phi_list[i], ")");
        extra.push(t);
        assert(strs_v(extra@).map_values(|t: Seq<char>| assert_line(t)) =~= seq![assert_line("(not "@ + phis[i as int] + ")"@)]);
        match emit(role, entry, fields, VcKind::Refinement, &extra) {
            Some(rep) => {
                out.push(rep);
            },
            None => {},
        }
        i += 1;
    }
    out
}

/// Builds the declared preservation VCs of an entrypoint, in order.
pub fn build_preservation_vcs(role: &Role, entry: &Entry, declared: &DeclaredInvariants) -> (out: Vec<VcReport>)
    ensures
        out@.len() == if provable(entry_v(*entry)) { preservations(role_v(*role), declared.declares_v("bounded_supply"@), declared.declares_v("monotonic_seq"@)).len() } else { 0 },
        forall|i: int| 0 <= i < out@.len() ==> vc_with(
            #[trigger] out@[i],
            role_v(*role),
            entry_v(*entry),
            VcKind::InvariantPreservation,
            (if preservations(role_v(*role), declared.declares_v("bounded_supply"@), declared.declares_v("monotonic_seq"@))[i].0 == "true"@ {
                Seq::empty()
            } else {
                seq![assert_line(preservations(role_v(*role), declared.declares_v("bounded_supply"@), declared.declares_v("monotonic_seq"@))[i].0)]
            }) + seq![assert_line("(not "@ + preservations(role_v(*role), declared.declares_v("bounded_supply"@), declared.declares_v("monotonic_seq"@))[i].1 + ")"@)],
        ),
{
    let mut out: Vec<VcReport> = Vec::new();
    match entry.mode {
        CovenantMode::Transition => {},
        _ => {
            return out;
        },
    }
    if body_has_raw(entry) {
        return out;
    }
    let fields = match object_return_fields(entry) {
        Some(f) => f,
        None => {
            return out;
        },
    };
    let ghost ps = preservations(role_v(*role), declared.declares_v("bounded_supply"@), declared.declares_v("monotonic_seq"@));
    let mut pres: Vec<(&str, &str)> = Vec::new();
    if declared.declares("bounded_supply") && crate::refine::state_field_named(role, "supply") && crate::refine::state_field_named(role, "total") {
        pres.push(("(<= supply total)", "(<= supply_p total_p)"));
    }
    if declared.declares("monotonic_seq") && crate::refine::state_field_named(role, "seq") {
        pres.push(("true", "(= seq_p (+ seq 1))"));
    }
    assert(pres@.map_values(|p: (&str, &str)| (p.0@, p.1@)) =~= ps);
    let mut i: usize = 0;
    while i < pres.len()
        invariant
            pres@.map_values(|p: (&str, &str)| (p.0@, p.1@)) == ps,
            first_object(entry_v(*entry).body, 0) == Some(pairs_v(fields@)),
            i <= pres.len(),
            out@.len() == if encodable(entry_v(*entry), pairs_v(fields@)) { i as int } else { 0 },
            forall|q: int| 0 <= q < out@.len() ==> vc_with(
                #[trigger] out@[q],
                role_v(*role),
                entry_v(*entry),
                VcKind::InvariantPreservation,
                (if ps[q].0 == "true"@ {
                    Seq::empty()
                } else {
                    seq![assert_line(ps[q].0)]
                }) + seq![assert_line("(not "@ + ps[q].1 + ")"@)],
            ),
        decreases pres.len() - i,
    {
        let (pre, post) = pres[i];
        assert(ps[i as int] == (pre@, post@));
        let mut extra: Vec<String> = Vec::new();
        if !crate::text::str_eq(pre, "true") {
            extra.push(String::from_str(pre));
        }
        let t = cat3("(not ", post, ")");
        extra.push(t);
        assert(strs_v(extra@).map_values(|t: Seq<char>| assert_line(t)) =~= (if ps[i as int].0 == "true"@ {
            Seq::empty()
        } else {
            seq![assert_line(ps[i as int].0)]
        }) + seq![assert_line("(not "@ + ps[i as int].1 + ")"@)]);
        match emit(role, entry, fields, VcKind::InvariantPreservation, &extra) {
            Some(rep) => {
                out.push(rep);
            },
            None => {},
        }
        i += 1;
    }
    out
}

// ── the program ─────────────────────────────────────────────────────────

/// The kinds of the VCs of one entrypoint, in order: conservation or spend,
/// range, the declared refinements, the declared preservations.
pub open spec fn entry_kinds(a: SApp, r: SRole, e: SEntry) -> Seq<VcKind> {
    let fs = first_object(e.body, 0)->0;
    (match conservation_shape(r, e) {
        ConservationShape::Spend => if encodable(e, fs) {
            seq![VcKind::Spend]
        } else {
            Seq::empty()
        },
        ConservationShape::Flow => if encodable(e, fs) {
            seq![VcKind::ValueConservation]
        } else {
            Seq::empty()
        },
        _ => Seq::empty(),
    }) + (if range_applies(r, e) && encodable(e, fs) {
        seq![VcKind::Range]
    } else {
        Seq::empty()
    }) + (if provable(e) {
        Seq::new(
            refinement_phis(r, e, declares_custom(a, "non_negative_amount"@), declares_custom(a, "spending_cap"@)).len(),
            |i: int| VcKind::Refinement,
        )
    } else {
        Seq::empty()
    }) + (if provable(e) {
        Seq::new(
            preservations(r, declares_custom(a, "bounded_supply"@), declares_custom(a, "monotonic_seq"@)).len(),
            |i: int| VcKind::InvariantPreservation,
        )
    } else {
        Seq::empty()
    })
}

pub open spec fn role_kinds(a: SApp, r: SRole, j: int) -> Seq<VcKind>
    decreases j,
{
    if j <= 0 || j > r.entrypoints.len() {
        Seq::empty()
    } else {
        role_kinds(a, r, j - 1) + entry_kinds(a, r, r.entrypoints[j - 1])
    }
}

/// The kinds of all the VCs of the first `i` roles.
pub open spec fn app_kinds(a: SApp, i: int) -> Seq<VcKind>
    decreases i,
{
    if i <= 0 || i > a.roles.len() {
        Seq::empty()
    } else {
        app_kinds(a, i - 1) + role_kinds(a, a.roles[i - 1], a.roles[i - 1].entrypoints.len() as int)
    }
}

/// Some transition has a raw statement.
pub open spec fn raw_transition(a: SApp) -> bool {
    exists|i: int, j: int|
        0 <= i < a.roles.len() && 0 <= j < a.roles[i].entrypoints.len() && (#[trigger] a.roles[i].entrypoints[j]).mode
            == CovenantMode::Transition && has_raw(a.roles[i].entrypoints[j])
}

pub open spec fn kinds(v: Seq<VcReport>) -> Seq<VcKind> {
    v.map_values(|x: VcReport| x.vc_kind)
}

/// What one VC is made of: its role, entrypoint and kind, and the
/// declarations and assertions of its full document.
pub struct VcSpec {
    pub r: SRole,
    pub e: SEntry,
    pub kind: VcKind,
    pub decls: Seq<Seq<char>>,
    pub asserts: Seq<Seq<char>>,
}

/// A report is the VC the spec describes: named after its entrypoint, of
/// its kind, undischarged, with the probe `T` alone and the full document.
pub open spec fn meets(rep: VcReport, d: VcSpec) -> bool {
    let fs = first_object(d.e.body, 0)->0;
    report_of(rep, d.r, d.e, d.kind) && vc_texts(
        d.r,
        d.e,
        fs,
        d.decls,
        d.asserts,
        rep.transition_smtlib@,
        rep.smtlib@,
    )
}

/// `new` is `old` followed by one report meeting each spec of `ds`.
pub open spec fn grows_by(old: Seq<VcReport>, new: Seq<VcReport>, ds: Seq<VcSpec>) -> bool {
    &&& new.len() == old.len() + ds.len()
    &&& forall|i: int| 0 <= i < old.len() ==> #[trigger] new[i] == old[i]
    &&& forall|i: int| 0 <= i < ds.len() ==> meets(new[old.len() + i], #[trigger] ds[i])
}

/// One report per spec, in order, each meeting its spec.
pub open spec fn meets_all(v: Seq<VcReport>, ds: Seq<VcSpec>) -> bool {
    v.len() == ds.len() && forall|i: int| 0 <= i < v.len() ==> meets(v[i], #[trigger] ds[i])
}

pub proof fn lemma_grows_refl(v: Seq<VcReport>)
    ensures
        grows_by(v, v, seq![]),
{
}

pub proof fn lemma_grows_trans(a: Seq<VcReport>, b: Seq<VcReport>, c: Seq<VcReport>, d1: Seq<VcSpec>, d2: Seq<VcSpec>)
    requires
        grows_by(a, b, d1),
        grows_by(b, c, d2),
    ensures
        grows_by(a, c, d1 + d2),
{
    assert forall|i: int| 0 <= i < (d1 + d2).len() implies meets(c[a.len() + i], #[trigger] (d1 + d2)[i]) by {
        if i < d1.len() {
            assert(c[a.len() + i] == b[a.len() + i]);
        } else {
            assert(c[a.len() + i] == c[b.len() + (i - d1.len())]);
            assert((d1 + d2)[i] == d2[i - d1.len()]);
        }
    }
}

/// The conservation VC of a transition, if any.
pub open spec fn cons_specs(r: SRole, e: SEntry) -> Seq<VcSpec> {
    let fs = first_object(e.body, 0)->0;
    match conservation_shape(r, e) {
        ConservationShape::Spend => if encodable(e, fs) {
            seq![VcSpec {
                r,
                e,
                kind: VcKind::Spend,
                decls: add_line(trans_decls(r, e, fs), const_line("spent_out"@, "Int"@)),
                asserts: trans_asserts(r, e, fs).push(
                    assert_line("(= spent_out (- "@ + pre_sum(r) + " "@ + post_sum(r) + "))"@),
                ).push(assert_line("(< spent_out 0)"@)),
            }]
        } else {
            Seq::empty()
        },
        ConservationShape::Flow => if encodable(e, fs) {
            seq![VcSpec {
                r,
                e,
                kind: VcKind::ValueConservation,
                decls: trans_decls(r, e, fs),
                asserts: trans_asserts(r, e, fs).push(
                    assert_line("(not (= "@ + post_sum(r) + " "@ + pre_sum(r) + "))"@),
                ),
            }]
        } else {
            Seq::empty()
        },
        _ => Seq::empty(),
    }
}

/// The range VC of a transition, if any.
pub open spec fn range_specs(r: SRole, e: SEntry) -> Seq<VcSpec> {
    let fs = first_object(e.body, 0)->0;
    if range_applies(r, e) && encodable(e, fs) {
        seq![VcSpec {
            r,
            e,
            kind: VcKind::Range,
            decls: trans_decls(r, e, fs),
            asserts: trans_asserts(r, e, fs).push(assert_line(range_negation(ranged(r, fs, fs.len() as int)))),
        }]
    } else {
        Seq::empty()
    }
}

/// The declared refinement VCs of a transition.
pub open spec fn refine_specs(a: SApp, r: SRole, e: SEntry) -> Seq<VcSpec> {
    let fs = first_object(e.body, 0)->0;
    let phis = refinement_phis(r, e, declares_custom(a, "non_negative_amount"@), declares_custom(a, "spending_cap"@));
    if provable(e) {
        Seq::new(
            phis.len(),
            |i: int|
                VcSpec {
                    r,
                    e,
                    kind: VcKind::Refinement,
                    decls: trans_decls(r, e, fs),
                    asserts: trans_asserts(r, e, fs) + seq![assert_line("(not "@ + phis[i] + ")"@)],
                },
        )
    } else {
        Seq::empty()
    }
}

/// The declared preservation VCs of a transition.
pub open spec fn preserve_specs(a: SApp, r: SRole, e: SEntry) -> Seq<VcSpec> {
    let fs = first_object(e.body, 0)->0;
    let ps = preservations(r, declares_custom(a, "bounded_supply"@), declares_custom(a, "monotonic_seq"@));
    if provable(e) {
        Seq::new(
            ps.len(),
            |i: int|
                VcSpec {
                    r,
                    e,
                    kind: VcKind::InvariantPreservation,
                    decls: trans_decls(r, e, fs),
                    asserts: trans_asserts(r, e, fs) + ((if ps[i].0 == "true"@ {
                        Seq::empty()
                    } else {
                        seq![assert_line(ps[i].0)]
                    }) + seq![assert_line("(not "@ + ps[i].1 + ")"@)]),
                },
        )
    } else {
        Seq::empty()
    }
}

/// Every VC of an entrypoint, in order.
pub open spec fn entry_specs(a: SApp, r: SRole, e: SEntry) -> Seq<VcSpec> {
    if e.mode == CovenantMode::Transition {
        cons_specs(r, e) + range_specs(r, e) + refine_specs(a, r, e) + preserve_specs(a, r, e)
    } else {
        Seq::empty()
    }
}

/// The VCs of the first `j` entrypoints of a role.
pub open spec fn role_specs(a: SApp, r: SRole, j: int) -> Seq<VcSpec>
    decreases j,
{
    if j <= 0 || j > r.entrypoints.len() {
        Seq::empty()
    } else {
        role_specs(a, r, j - 1) + entry_specs(a, r, r.entrypoints[j - 1])
    }
}

/// The VCs of the first `i` roles.
pub open spec fn app_specs(a: SApp, i: int) -> Seq<VcSpec>
    decreases i,
{
    if i <= 0 || i > a.roles.len() {
        Seq::empty()
    } else {
        app_specs(a, i - 1) + role_specs(a, a.roles[i - 1], a.roles[i - 1].entrypoints.len() as int)
    }
}

/// The conservation part of an entrypoint's VC kinds.
pub open spec fn cons_kinds(r: SRole, e: SEntry) -> Seq<VcKind> {
    let fs = first_object(e.body, 0)->0;
    match conservation_shape(r, e) {
        ConservationShape::Spend => if encodable(e, fs) {
            seq![VcKind::Spend]
        } else {
            Seq::empty()
        },
        ConservationShape::Flow => if encodable(e, fs) {
            seq![VcKind::ValueConservation]
        } else {
            Seq::empty()
        },
        _ => Seq::empty(),
    }
}

/// Appends the conservation VC of a transition, if any.
fn cons_part(role: &Role, entry: &Entry, out: &mut Vec<VcReport>) -> (r: Result<(), LensError>)
    requires
        entry_v(*entry).mode == CovenantMode::Transition,
    ensures
        r is Err ==> (r matches Err(LensError::RawStmtInCovenant) && has_raw(entry_v(*entry))),
        r is Ok ==> kinds(final(out)@) == kinds(old(out)@) + cons_kinds(role_v(*role), entry_v(*entry)),
        r is Ok ==> grows_by(old(out)@, final(out)@, cons_specs(role_v(*role), entry_v(*entry))),
{
    let ghost before = kinds(out@);
    let ghost o0 = out@;
    match build_conservation_vc(role, entry) {
        Ok(rep) => {
            let ghost k = rep.vc_kind;
            out.push(rep);
            assert(kinds(out@) =~= before.push(k));
            assert(meets(out@[o0.len() as int], cons_specs(role_v(*role), entry_v(*entry))[0]));
        },
        Err(LensError::RawStmtInCovenant) => {
            return Err(LensError::RawStmtInCovenant);
        },
        Err(LensError::SemaNotPassed) => {
            return Err(LensError::SemaNotPassed);
        },
        Err(LensError::Unsupported(_)) => {},
    }
    assert(kinds(out@) =~= before + cons_kinds(role_v(*role), entry_v(*entry)));
    Ok(())
}

/// Appends the range VC of a transition, if any.
fn range_part(role: &Role, entry: &Entry, out: &mut Vec<VcReport>) -> (r: Result<(), LensError>)
    requires
        entry_v(*entry).mode == CovenantMode::Transition,
    ensures
        r is Err ==> (r matches Err(LensError::RawStmtInCovenant) && has_raw(entry_v(*entry))),
        r is Ok ==> !has_raw(entry_v(*entry)) && kinds(final(out)@) == kinds(old(out)@) + (if range_applies(role_v(*role), entry_v(*entry)) && encodable(entry_v(*entry), first_object(entry_v(*entry).body, 0)->0) {
            seq![VcKind::Range]
        } else {
            Seq::<VcKind>::empty()
        }),
        r is Ok ==> grows_by(old(out)@, final(out)@, range_specs(role_v(*role), entry_v(*entry))),
{
    let ghost before = kinds(out@);
    let ghost o0 = out@;
    match build_range_vc(role, entry) {
        Ok(rep) => {
            let ghost k = rep.vc_kind;
            out.push(rep);
            assert(kinds(out@) =~= before.push(k));
            assert(meets(out@[o0.len() as int], range_specs(role_v(*role), entry_v(*entry))[0]));
        },
        Err(LensError::RawStmtInCovenant) => {
            return Err(LensError::RawStmtInCovenant);
        },
        Err(LensError::SemaNotPassed) => {
            return Err(LensError::SemaNotPassed);
        },
        Err(LensError::Unsupported(_)) => {},
    }
    Ok(())
}

/// Appends the declared refinement and preservation VCs of an entrypoint.
fn declared_part(role: &Role, entry: &Entry, declared: &DeclaredInvariants, out: &mut Vec<VcReport>, Ghost(a): Ghost<SApp>)
    requires
        forall|n: Seq<char>| declared.declares_v(n) == declares_custom(a, n),
    ensures
        kinds(final(out)@) == kinds(old(out)@) + (if provable(entry_v(*entry)) {
            Seq::new(
                refinement_phis(role_v(*role), entry_v(*entry), declares_custom(a, "non_negative_amount"@), declares_custom(a, "spending_cap"@)).len(),
                |i: int| VcKind::Refinement,
            )
        } else {
            Seq::empty()
        }) + (if provable(entry_v(*entry)) {
            Seq::new(
                preservations(role_v(*role), declares_custom(a, "bounded_supply"@), declares_custom(a, "monotonic_seq"@)).len(),
                |i: int| VcKind::InvariantPreservation,
            )
        } else {
            Seq::empty()
        }),
        grows_by(old(out)@, final(out)@, refine_specs(a, role_v(*role), entry_v(*entry)) + preserve_specs(a, role_v(*role), entry_v(*entry))),
{
    let ghost rv = role_v(*role);
    let ghost ev = entry_v(*entry);
    let ghost o0 = out@;
    let mut refs = build_refinement_vcs(role, entry, declared);
    let ghost rk = kinds(refs@);
    let ghost m1 = out@;
    let ghost r1 = refs@;
    out.append(&mut refs);
    assert(kinds(out@) =~= kinds(m1) + kinds(r1));
    proof {
        let ds = refine_specs(a, rv, ev);
        assert forall|i: int| 0 <= i < ds.len() implies meets(out@[m1.len() + i], #[trigger] ds[i]) by {
            assert(out@[m1.len() + i] == r1[i]);
        }
        assert(grows_by(m1, out@, ds));
    }
    let mut pres = build_preservation_vcs(role, entry, declared);
    let ghost pk = kinds(pres@);
    let ghost m2 = out@;
    let ghost p2 = pres@;
    out.append(&mut pres);
    assert(kinds(out@) =~= kinds(m2) + kinds(p2));
    proof {
        let ds = preserve_specs(a, rv, ev);
        assert forall|i: int| 0 <= i < ds.len() implies meets(out@[m2.len() + i], #[trigger] ds[i]) by {
            assert(out@[m2.len() + i] == p2[i]);
        }
        assert(grows_by(m2, out@, ds));
        lemma_grows_trans(o0, m2, out@, refine_specs(a, rv, ev), ds);
    }
    assert(rk =~= if provable(ev) {
        Seq::new(refinement_phis(rv, ev, declares_custom(a, "non_negative_amount"@), declares_custom(a, "spending_cap"@)).len(), |i: int| VcKind::Refinement)
    } else {
        Seq::empty()
    });
    assert(pk =~= if provable(ev) {
        Seq::new(preservations(rv, declares_custom(a, "bounded_supply"@), declares_custom(a, "monotonic_seq"@)).len(), |i: int| VcKind::InvariantPreservation)
    } else {
        Seq::empty()
    });
}

/// Appends the VCs of one entrypoint; refused when it is a transition with
/// a raw statement.
#[verifier::loop_isolation(false)]
#[verifier::rlimit(40)]
fn entry_vcs(role: &Role, entry: &Entry, declared: &DeclaredInvariants, out: &mut Vec<VcReport>, Ghost(a): Ghost<SApp>) -> (r: Result<(), LensError>)
    requires
        forall|n: Seq<char>| declared.declares_v(n) == declares_custom(a, n),
    ensures
        r is Err ==> (r matches Err(LensError::RawStmtInCovenant) && entry_v(*entry).mode == CovenantMode::Transition && has_raw(entry_v(*entry))),
        r is Ok ==> !(entry_v(*entry).mode == CovenantMode::Transition && has_raw(entry_v(*entry))) && kinds(final(out)@) == kinds(old(out)@) + entry_kinds(a, role_v(*role), entry_v(*entry)),
        r is Ok ==> grows_by(old(out)@, final(out)@, entry_specs(a, role_v(*role), entry_v(*entry))),
{
    let ghost rv = role_v(*role);
    let ghost ev = entry_v(*entry);
    let ghost before = kinds(out@);
    let ghost o0 = out@;
    let transition = match entry.mode {
        CovenantMode::Transition => true,
        _ => false,
    };
    if !transition {
        assert(entry_kinds(a, rv, ev) =~= Seq::<VcKind>::empty());
        assert(kinds(out@) =~= before + entry_kinds(a, rv, ev));
        proof {
            lemma_grows_refl(out@);
            assert(entry_specs(a, rv, ev) =~= Seq::<VcSpec>::empty());
        }
        return Ok(());
    }
    cons_part(role, entry, out)?;
    let ghost o1 = out@;
    range_part(role, entry, out)?;
    let ghost o2 = out@;
    let ghost m0 = kinds(out@);
    declared_part(role, entry, declared, out, Ghost(a));
    assert(kinds(out@) =~= before + entry_kinds(a, rv, ev));
    proof {
        lemma_grows_trans(o0, o1, o2, cons_specs(rv, ev), range_specs(rv, ev));
        lemma_grows_trans(o0, o2, out@, cons_specs(rv, ev) + range_specs(rv, ev), refine_specs(a, rv, ev) + preserve_specs(a, rv, ev));
        assert(cons_specs(rv, ev) + range_specs(rv, ev) + (refine_specs(a, rv, ev) + preserve_specs(a, rv, ev))
            =~= entry_specs(a, rv, ev));
    }
    Ok(())
}

/// Appends the VCs of every entrypoint of a role; refused at the first
/// transition with a raw statement.
fn role_vcs(role: &Role, declared: &DeclaredInvariants, out: &mut Vec<VcReport>, Ghost(a): Ghost<SApp>) -> (r: Result<(), LensError>)
    requires
        forall|n: Seq<char>| declared.declares_v(n) == declares_custom(a, n),
    ensures
        r is Err ==> (r matches Err(LensError::RawStmtInCovenant) && exists|q: int|
            0 <= q < role_v(*role).entrypoints.len() && (#[trigger] role_v(*role).entrypoints[q]).mode
                == CovenantMode::Transition && has_raw(role_v(*role).entrypoints[q])),
        r is Ok ==> (forall|q: int|
            0 <= q < role_v(*role).entrypoints.len() ==> !((#[trigger] role_v(*role).entrypoints[q]).mode
                == CovenantMode::Transition && has_raw(role_v(*role).entrypoints[q]))) && kinds(final(out)@)
            == kinds(old(out)@) + role_kinds(a, role_v(*role), role.entrypoints.len() as int),
        r is Ok ==> grows_by(old(out)@, final(out)@, role_specs(a, role_v(*role), role.entrypoints.len() as int)),
{
    let ghost rv = role_v(*role);
    let ghost base = kinds(out@);
    let ghost o0 = out@;
    let mut j: usize = 0;
    assert(base + role_kinds(a, rv, 0) =~= base);
    proof {
        lemma_grows_refl(out@);
    }
    while j < role.entrypoints.len()
        invariant
            rv == role_v(*role),
            forall|n: Seq<char>| declared.declares_v(n) == declares_custom(a, n),
            j <= role.entrypoints.len(),
            base == kinds(old(out)@),
            kinds(out@) == base + role_kinds(a, rv, j as int),
            o0 == old(out)@,
            grows_by(o0, out@, role_specs(a, rv, j as int)),
            forall|q: int| 0 <= q < j ==> !((#[trigger] rv.entrypoints[q]).mode == CovenantMode::Transition && has_raw(rv.entrypoints[q])),
        decreases role.entrypoints.len() - j,
    {
        let entry = &role.entrypoints[j];
        assert(rv.entrypoints[j as int] == entry_v(*entry));
        let ghost mid = kinds(out@);
        let ghost om = out@;
        match entry_vcs(role, entry, declared, out, Ghost(a)) {
            Ok(()) => {},
            Err(e) => {
                return Err(e);
            },
        }
        assert(kinds(out@) =~= base + role_kinds(a, rv, j + 1));
        proof {
            lemma_grows_trans(o0, om, out@, role_specs(a, rv, j as int), entry_specs(a, rv, entry_v(*entry)));
        }
        j += 1;
    }
    Ok(())
}

/// Builds every VC of every transition, behind a passing checker: refused
/// when the checker rejects the program, or when a transition has a raw
/// statement; otherwise the VCs in order, role by role and entrypoint by
/// entrypoint.
pub fn prove_program(program: &Program) -> (r: Result<Vec<VcReport>, LensError>)
    ensures
        diagnostic_count(app_v(program.app)) != 0 ==> (r matches Err(LensError::SemaNotPassed)),
        diagnostic_count(app_v(program.app)) == 0 && raw_transition(app_v(program.app)) ==> (r matches Err(LensError::RawStmtInCovenant)),
        diagnostic_count(app_v(program.app)) == 0 && !raw_transition(app_v(program.app)) ==> (r matches Ok(v) && kinds(v@) == app_kinds(app_v(program.app), program.app.roles.len() as int)
            && meets_all(v@, app_specs(app_v(program.app), program.app.roles.len() as int))),
{
    match crate::checker::check(program) {
        Ok(()) => {},
        Err(_) => {
            return Err(LensError::SemaNotPassed);
        },
    }
    let app = &program.app;
    let ghost av = app_v(*app);
    let declared = DeclaredInvariants::from_app(&app.invariants);
    proof {
        assert forall|n: Seq<char>| declared.declares_v(n) == declares_custom(av, n) by {
            if declared.declares_v(n) {
                let i = choose|i: int| 0 <= i < app.invariants@.len() && #[trigger] invariant_v(app.invariants@[i]) == SInvariant::Custom(n);
                assert(av.invariants[i] == invariant_v(app.invariants@[i]));
            }
            if declares_custom(av, n) {
                let i = choose|i: int| 0 <= i < av.invariants.len() && #[trigger] av.invariants[i] == SInvariant::Custom(n);
                assert(av.invariants[i] == invariant_v(app.invariants@[i]));
            }
        }
    }
    let mut out: Vec<VcReport> = Vec::new();
    let mut i: usize = 0;
    assert(kinds(out@) =~= app_kinds(av, 0));
    proof {
        lemma_grows_refl(out@);
    }
    while i < app.roles.len()
        invariant
            av == app_v(*app),
            av == app_v(program.app),
            diagnostic_count(av) == 0,
            i <= app.roles.len(),
            forall|n: Seq<char>| declared.declares_v(n) == declares_custom(av, n),
            kinds(out@) == app_kinds(av, i as int),
            grows_by(Seq::empty(), out@, app_specs(av, i as int)),
            forall|p: int, q: int|
                0 <= p < i && 0 <= q < av.roles[p].entrypoints.len() ==> !((#[trigger] av.roles[p].entrypoints[q]).mode
                    == CovenantMode::Transition && has_raw(av.roles[p].entrypoints[q])),
        decreases app.roles.len() - i,
    {
        let role = &app.roles[i];
        assert(av.roles[i as int] == role_v(*role));
        let ghost om = out@;
        match role_vcs(role, &declared, &mut out, Ghost(av)) {
            Ok(()) => {},
            Err(e) => {
                proof {
                    let q = choose|q: int| 0 <= q < role_v(*role).entrypoints.len() && (#[trigger] role_v(*role).entrypoints[q]).mode
                        == CovenantMode::Transition && has_raw(role_v(*role).entrypoints[q]);
                    assert(av.roles[i as int].entrypoints[q] == role_v(*role).entrypoints[q]);
                    assert(raw_transition(av));
                }
                return Err(e);
            },
        }
        assert(kinds(out@) =~= app_kinds(av, i + 1));
        proof {
            lemma_grows_trans(Seq::empty(), om, out@, app_specs(av, i as int), role_specs(av, role_v(*role), role.entrypoints.len() as int));
        }
        i += 1;
    }
    proof {
        assert forall|p: int, q: int|
            0 <= p < av.roles.len() && 0 <= q < av.roles[p].entrypoints.len() implies !((#[trigger] av.roles[p].entrypoints[q]).mode
                == CovenantMode::Transition && has_raw(av.roles[p].entrypoints[q])) by {}
        assert forall|k: int| 0 <= k < out@.len() implies meets(out@[k], #[trigger] app_specs(av, av.roles.len() as int)[k]) by {
            assert(out@[k] == out@[0 + k]);
        }
    }
    Ok(out)
}

} // verus!
