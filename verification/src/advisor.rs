//! The allocation advisor: read-only routing notes per entrypoint. A
//! covenant entrypoint whose untyped hole names a construct of the rejection
//! set is flagged for the vProgs layer; a vProg entrypoint holding such a
//! construct is confirmed; a vProg entrypoint with a non-empty, fully typed
//! body is noted as promotable.

use vstd::prelude::*;
use crate::ast::{App, CovenantMode, Entry, Program, Role, Stmt};
use crate::grammar::{rc_lead, rc_method};
use crate::lexer::{chars_of, ident_char, ident_end, is_white, white};
use crate::model::{SApp, SEntry, SRole, SStmt, app_v, entry_v, role_v, stmt_v};
use crate::rejection::{REJECTION_SET_LEN, rejection_set};
use crate::structure::{concat, text_of};

verus! {

broadcast use vstd::seq_lib::group_seq_properties;

// ── naming a rejected construct ─────────────────────────────────────────

/// The index of the first non-whitespace character from `i` on.
pub open spec fn skip_white(t: Seq<char>, i: int) -> int
    decreases t.len() - i,
{
    if 0 <= i < t.len() && is_white(t[i]) {
        skip_white(t, i + 1)
    } else {
        i
    }
}

/// The leading word of `t` after leading whitespace: its run of ASCII
/// letters, digits and underscores.
pub open spec fn head_word(t: Seq<char>) -> Seq<char> {
    let s = skip_white(t, 0);
    t.subrange(s, ident_end(t, s))
}

/// `p` occurs in `t`.
pub open spec fn contains_text(t: Seq<char>, p: Seq<char>) -> bool {
    exists|i: int| 0 <= i && i + p.len() <= t.len() && #[trigger] t.subrange(i, i + p.len()) == p
}

/// `t` names construct `i` of the rejection set: as its leading word, or,
/// for a method-call construct, as `.lead(` anywhere.
pub open spec fn names_construct(t: Seq<char>, i: int) -> bool {
    (!rc_method(i) && rc_lead(i) == head_word(t)) || (rc_method(i) && contains_text(
        t,
        seq!['.'] + rc_lead(i) + seq!['('],
    ))
}

/// The lead of the first construct, from index `i` on, that `t` names.
pub open spec fn rejected_from(t: Seq<char>, i: int) -> Option<Seq<char>>
    decreases REJECTION_SET_LEN - i,
{
    if i < 0 || i >= REJECTION_SET_LEN {
        None
    } else if names_construct(t, i) {
        Some(rc_lead(i))
    } else {
        rejected_from(t, i + 1)
    }
}

/// Whether `cs[from..to]` spells `w`.
fn spells(cs: &Vec<char>, from: usize, to: usize, w: &str) -> (b: bool)
    requires
        from <= to <= cs.len(),
    ensures
        b == (cs@.subrange(from as int, to as int) == w@),
{
    let wc = chars_of(w);
    if to - from != wc.len() {
        assert(cs@.subrange(from as int, to as int).len() != w@.len());
        return false;
    }
    let mut k: usize = 0;
    while k < wc.len()
        invariant
            from <= to <= cs.len(),
            to - from == wc.len(),
            wc@ == w@,
            k <= wc.len(),
            forall|q: int| 0 <= q < k ==> cs@[from + q] == wc@[q],
        decreases wc.len() - k,
    {
        if cs[from + k] != wc[k] {
            assert(cs@.subrange(from as int, to as int)[k as int] != w@[k as int]);
            return false;
        }
        k += 1;
    }
    assert(cs@.subrange(from as int, to as int) =~= w@);
    true
}

/// Whether `.lead(` occurs in `cs`.
fn contains_call(cs: &Vec<char>, lead: &str) -> (b: bool)
    ensures
        b == contains_text(cs@, seq!['.'] + lead@ + seq!['(']),
{
    let lc = chars_of(lead);
    let mut p: Vec<char> = Vec::new();
    p.push('.');
    let mut k: usize = 0;
    while k < lc.len()
        invariant
            k <= lc.len(),
            p@ == seq!['.'] + lc@.subrange(0, k as int),
        decreases lc.len() - k,
    {
        p.push(lc[k]);
        assert(p@ =~= seq!['.'] + lc@.subrange(0, k + 1));
        k += 1;
    }
    p.push('(');
    let ghost pat = seq!['.'] + lead@ + seq!['('];
    assert(p@ =~= pat);
    if p.len() > cs.len() {
        assert forall|i: int| 0 <= i && i + pat.len() <= cs@.len() implies #[trigger] cs@.subrange(i, i + pat.len()) != pat by {}
        return false;
    }
    let mut i: usize = 0;
    while i <= cs.len() - p.len()
        invariant
            p@ == pat,
            pat == seq!['.'] + lead@ + seq!['('],
            p.len() <= cs.len(),
            i <= cs.len(),
            forall|q: int| 0 <= q < i && q + pat.len() <= cs@.len() ==> #[trigger] cs@.subrange(q, q + pat.len()) != pat,
        decreases cs.len() - i,
    {
        let mut j: usize = 0;
        let mut ok = true;
        while j < p.len()
            invariant
                p@ == pat,
                i + p.len() <= cs.len(),
                j <= p.len(),
                ok == forall|q: int| 0 <= q < j ==> cs@[i + q] == pat[q],
            decreases p.len() - j,
        {
            if cs[i + j] != p[j] {
                ok = false;
            }
            j += 1;
        }
        if ok {
            assert(cs@.subrange(i as int, i + pat.len()) =~= pat);
            assert(contains_text(cs@, pat));
            return true;
        }
        assert(cs@.subrange(i as int, i + pat.len()) != pat) by {
            let q = choose|q: int| 0 <= q < p.len() && cs@[i + q] != pat[q];
            assert(cs@.subrange(i as int, i + pat.len())[q] != pat[q]);
        }
        i += 1;
    }
    false
}

/// The lead of the first construct of the rejection set that a raw hole's
/// text names, if any.
pub fn raw_names_rejected_construct(text: &str) -> (r: Option<&'static str>)
    ensures
        match r {
            Some(l) => rejected_from(text@, 0) == Some(l@),
            None => rejected_from(text@, 0) is None,
        },
{
    let cs = chars_of(text);
    let mut s: usize = 0;
    while s < cs.len() && white(cs[s])
        invariant
            cs@ == text@,
            s <= cs.len(),
            skip_white(cs@, 0) == skip_white(cs@, s as int),
        decreases cs.len() - s,
    {
        s += 1;
    }
    let mut e: usize = s;
    while e < cs.len() && ident_char(cs[e])
        invariant
            cs@ == text@,
            s <= e <= cs.len(),
            ident_end(cs@, s as int) == ident_end(cs@, e as int),
        decreases cs.len() - e,
    {
        e += 1;
    }
    let set = rejection_set();
    let mut i: usize = 0;
    while i < set.len()
        invariant
            cs@ == text@,
            s <= e <= cs.len(),
            head_word(cs@) == cs@.subrange(s as int, e as int),
            set@.len() == REJECTION_SET_LEN,
            forall|q: int|
                0 <= q < REJECTION_SET_LEN ==> (#[trigger] set@[q]).lead@ == rc_lead(q)
                    && set@[q].as_method_call == rc_method(q),
            i <= set.len(),
            rejected_from(cs@, 0) == rejected_from(cs@, i as int),
        decreases set.len() - i,
    {
        let rc = &set[i];
        assert(set@[i as int].lead@ == rc_lead(i as int));
        let hit = if rc.as_method_call {
            contains_call(&cs, rc.lead)
        } else {
            spells(&cs, s, e, rc.lead)
        };
        if hit {
            return Some(rc.lead);
        }
        i += 1;
    }
    None
}

// ── advisories ──────────────────────────────────────────────────────────

/// One routing note: the entrypoint, the layer it is allocated to today,
/// and the note.
#[derive(Debug, Clone)]
pub struct Advisory {
    pub role: String,
    pub entry: String,
    pub layer: &'static str,
    pub message: String,
}

/// Model of [`Advisory`].
pub struct SAdvisory {
    pub role: Seq<char>,
    pub entry: Seq<char>,
    pub layer: Seq<char>,
    pub message: Seq<char>,
}

pub open spec fn advisory_v(a: Advisory) -> SAdvisory {
    SAdvisory { role: a.role@, entry: a.entry@, layer: a.layer@, message: a.message@ }
}

/// The layer an entrypoint mode allocates to.
pub open spec fn layer_of(m: CovenantMode) -> Seq<char> {
    if m == CovenantMode::NonCovenant {
        "VProg"@
    } else {
        "Covenant"@
    }
}

/// The lead named by the first raw hole, from statement `k` on, that names
/// a rejected construct.
pub open spec fn first_rejected(body: Seq<SStmt>, k: int) -> Option<Seq<char>>
    decreases body.len() - k,
{
    if k < 0 || k >= body.len() {
        None
    } else {
        match body[k] {
            SStmt::Raw(t) => match rejected_from(t, 0) {
                Some(l) => Some(l),
                None => first_rejected(body, k + 1),
            },
            _ => first_rejected(body, k + 1),
        }
    }
}

pub open spec fn covenant_note(lead: Seq<char>) -> Seq<char> {
    "marked covenant but uses `"@ + lead
        + "`, which cannot be a covenant construct \u{2014} route this entrypoint to the vProgs (Tier-3) layer by removing its `#[covenant(...)]` attribute"@
}

pub open spec fn vprog_note(lead: Seq<char>) -> Seq<char> {
    "vProg entrypoint uses `"@ + lead
        + "` (a construct that cannot be a covenant) \u{2014} correctly allocated to the vProgs layer"@
}

pub open spec fn promotable_note() -> Seq<char> {
    "vProg entrypoint is fully covenant-legal (only typed require/return) \u{2014} it could be promoted to a covenant by adding a `#[covenant(mode = ...)]` attribute"@
}

/// The advisories for one entrypoint (at most one).
pub open spec fn entry_advice(r: SRole, e: SEntry) -> Seq<SAdvisory> {
    let note = |m: Seq<char>| seq![SAdvisory { role: r.name, entry: e.name, layer: layer_of(e.mode), message: m }];
    match first_rejected(e.body, 0) {
        Some(l) => if e.mode != CovenantMode::NonCovenant {
            note(covenant_note(l))
        } else {
            note(vprog_note(l))
        },
        None => if e.mode == CovenantMode::NonCovenant && e.body.len() > 0 && !(exists|k: int|
            0 <= k < e.body.len() && #[trigger] e.body[k] is Raw) {
            note(promotable_note())
        } else {
            Seq::empty()
        },
    }
}

/// The advisories of one pass for an entrypoint: with `mismatches`, those
/// of covenant entrypoints (a covenant that uses a rejected construct);
/// otherwise those of vProg entrypoints (suitability notes).
pub open spec fn pass_advice(r: SRole, e: SEntry, mismatches: bool) -> Seq<SAdvisory> {
    if (e.mode != CovenantMode::NonCovenant) == mismatches {
        entry_advice(r, e)
    } else {
        Seq::empty()
    }
}

/// The advisories of one pass for the first `j` entrypoints of a role.
pub open spec fn role_advice(r: SRole, j: int, mismatches: bool) -> Seq<SAdvisory>
    decreases j,
{
    if j <= 0 || j > r.entrypoints.len() {
        Seq::empty()
    } else {
        role_advice(r, j - 1, mismatches) + pass_advice(r, r.entrypoints[j - 1], mismatches)
    }
}

/// The advisories of one pass for the first `i` roles of an app.
pub open spec fn app_advice(a: SApp, i: int, mismatches: bool) -> Seq<SAdvisory>
    decreases i,
{
    if i <= 0 || i > a.roles.len() {
        Seq::empty()
    } else {
        app_advice(a, i - 1, mismatches) + role_advice(
            a.roles[i - 1],
            a.roles[i - 1].entrypoints.len() as int,
            mismatches,
        )
    }
}

/// All advisories of an app: every mismatch first, in role and entrypoint
/// order, then every suitability note, in the same order.
pub open spec fn all_advice(a: SApp) -> Seq<SAdvisory> {
    app_advice(a, a.roles.len() as int, true) + app_advice(a, a.roles.len() as int, false)
}

/// The layer label of an entrypoint mode.
fn layer_label(mode: CovenantMode) -> (s: &'static str)
    ensures
        s@ == layer_of(mode),
{
    match mode {
        CovenantMode::NonCovenant => "VProg",
        _ => "Covenant",
    }
}

/// The first rejected construct a raw hole of `entry` names, and whether
/// the body has any raw hole at all.
#[verifier::loop_isolation(false)]
fn scan_body(entry: &Entry) -> (r: (Option<&'static str>, bool))
    ensures
        match r.0 {
            Some(l) => first_rejected(entry_v(*entry).body, 0) == Some(l@),
            None => first_rejected(entry_v(*entry).body, 0) is None,
        },
        r.1 == exists|k: int| 0 <= k < entry_v(*entry).body.len() && #[trigger] entry_v(*entry).body[k] is Raw,
{
    let ghost ev = entry_v(*entry);
    let mut found: Option<&'static str> = None;
    let mut any_raw = false;
    let mut k: usize = 0;
    while k < entry.body.len()
        invariant
            ev == entry_v(*entry),
            k <= entry.body.len(),
            found is None ==> first_rejected(ev.body, 0) == first_rejected(ev.body, k as int),
            found matches Some(l) ==> first_rejected(ev.body, 0) == Some(l@),
            any_raw == exists|q: int| 0 <= q < k && #[trigger] ev.body[q] is Raw,
        decreases entry.body.len() - k,
    {
        assert(ev.body[k as int] == stmt_v(entry.body@[k as int]));
        match &entry.body[k] {
            Stmt::Raw(t) => {
                any_raw = true;
                if found.is_none() {
                    found = raw_names_rejected_construct(t.as_str());
                }
            },
            _ => {},
        }
        k += 1;
    }
    (found, any_raw)
}

/// A note on `entry` of `role`.
fn note(role: &Role, entry: &Entry, message: String) -> (a: Advisory)
    ensures
        advisory_v(a) == (SAdvisory { role: role.name@, entry: entry.name@, layer: layer_of(entry.mode), message: message@ }),
{
    Advisory { role: role.name.clone(), entry: entry.name.clone(), layer: layer_label(entry.mode), message }
}

/// Read-only routing notes, one per entrypoint that warrants one:
/// mismatches first (covenant entrypoints whose raw holes name a rejected
/// construct), suitability notes second (vProg entrypoints confirmed in
/// place, and vProg entrypoints that could be promoted to covenants).
pub fn advise(program: &Program) -> (out: Vec<Advisory>)
    ensures
        out@.map_values(|a: Advisory| advisory_v(a)) == all_advice(app_v(program.app)),
{
    let mut out: Vec<Advisory> = Vec::new();
    assert(out@.map_values(|a: Advisory| advisory_v(a)) =~= Seq::<SAdvisory>::empty());
    advise_pass(&program.app, true, &mut out);
    advise_pass(&program.app, false, &mut out);
    assert(Seq::<SAdvisory>::empty() + app_advice(app_v(program.app), program.app.roles.len() as int, true)
        =~= app_advice(app_v(program.app), program.app.roles.len() as int, true));
    out
}

/// Appends the advisories of one pass: the mismatches, or the notes.
fn advise_pass(app: &App, mismatches: bool, out: &mut Vec<Advisory>)
    ensures
        final(out)@.map_values(|a: Advisory| advisory_v(a)) == old(out)@.map_values(|a: Advisory| advisory_v(a))
            + app_advice(app_v(*app), app.roles.len() as int, mismatches),
{
    let ghost av = app_v(*app);
    let ghost start = out@.map_values(|a: Advisory| advisory_v(a));
    assert(start + app_advice(av, 0, mismatches) =~= start);
    let mut i: usize = 0;
    while i < app.roles.len()
        invariant
            av == app_v(*app),
            i <= app.roles.len(),
            out@.map_values(|a: Advisory| advisory_v(a)) == start + app_advice(av, i as int, mismatches),
        decreases app.roles.len() - i,
    {
        let role = &app.roles[i];
        let ghost rv = role_v(*role);
        assert(av.roles[i as int] == rv);
        let ghost base = out@.map_values(|a: Advisory| advisory_v(a));
        let mut j: usize = 0;
        assert(base + role_advice(rv, 0, mismatches) =~= base);
        while j < role.entrypoints.len()
            invariant
                rv == role_v(*role),
                j <= role.entrypoints.len(),
                out@.map_values(|a: Advisory| advisory_v(a)) == base + role_advice(rv, j as int, mismatches),
            decreases role.entrypoints.len() - j,
        {
            let entry = &role.entrypoints[j];
            let ghost ev = entry_v(*entry);
            assert(rv.entrypoints[j as int] == ev);
            let ghost before = out@.map_values(|a: Advisory| advisory_v(a));
            let covenant = match entry.mode {
                CovenantMode::NonCovenant => false,
                _ => true,
            };
            if covenant == mismatches {
                let (rejected, any_raw) = scan_body(entry);
                match rejected {
                    Some(lead) => {
                        let m = if covenant {
                            text_of(vec!["marked covenant but uses `", lead, "`, which cannot be a covenant construct \u{2014} route this entrypoint to the vProgs (Tier-3) layer by removing its `#[covenant(...)]` attribute"])
                        } else {
                            text_of(vec!["vProg entrypoint uses `", lead, "` (a construct that cannot be a covenant) \u{2014} correctly allocated to the vProgs layer"])
                        };
                        proof {
                            reveal_with_fuel(concat, 4);
                        }
                        out.push(note(role, entry, m));
                    },
                    None => {
                        if !covenant && !any_raw && entry.body.len() > 0 {
                            let m = text_of(vec!["vProg entrypoint is fully covenant-legal (only typed require/return) \u{2014} it could be promoted to a covenant by adding a `#[covenant(mode = ...)]` attribute"]);
                            proof {
                                reveal_with_fuel(concat, 2);
                            }
                            out.push(note(role, entry, m));
                        }
                    },
                }
            }
            assert(out@.map_values(|a: Advisory| advisory_v(a)) =~= before + pass_advice(rv, ev, mismatches));
            j += 1;
        }
        i += 1;
    }
}

} // verus!
