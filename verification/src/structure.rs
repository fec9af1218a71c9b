//! Structural checks over an app: lifecycle edges and flow steps resolve to
//! real roles and entrypoints, transitions and verifications return (or not)
//! as their edges require, and the `value_conserved` /
//! `no_undeclared_state` invariants hold of the lifecycle.
//!
//! Each check appends one diagnostic per violation; its contract gives the
//! number of diagnostics it appends.

use vstd::prelude::*;
use crate::ast::{App, CovenantMode, Edge, Flow, Invariant, Role, Step};
use crate::lookup::{body_has_return, entry_from, find_entry, find_role, has_return, lemma_role_from, role_from, same};
use crate::model::{SApp, SEdge, SFlow, SRole, SStep, app_v, edge_v, entry_v, flow_v, flows_v, invariant_v, invariants_v, role_v, step_v, steps_v};

verus! {

broadcast use vstd::seq_lib::group_seq_properties;

/// One finding of the checker.
#[derive(Debug)]
pub struct Diagnostic {
    pub message: String,
}

impl Diagnostic {
    pub(crate) fn new(message: String) -> (d: Diagnostic)
        ensures
            d.message == message,
    {
        Diagnostic { message }
    }
}

/// The concatenation of the texts of `parts`.
pub open spec fn concat(parts: Seq<&str>) -> Seq<char>
    decreases parts.len(),
{
    if parts.len() == 0 {
        Seq::empty()
    } else {
        concat(parts.drop_last()) + parts.last()@
    }
}

/// The concatenation of `parts`.
pub(crate) fn text_of(parts: Vec<&str>) -> (s: String)
    ensures
        s@ == concat(parts@),
{
    let mut s = String::new();
    let mut i: usize = 0;
    assert(parts@.subrange(0, 0) =~= Seq::<&str>::empty());
    while i < parts.len()
        invariant
            i <= parts.len(),
            s@ == concat(parts@.subrange(0, i as int)),
        decreases parts.len() - i,
    {
        s.append(parts[i]);
        assert(parts@.subrange(0, i + 1).drop_last() =~= parts@.subrange(0, i as int));
        i += 1;
    }
    assert(parts@.subrange(0, parts.len() as int) =~= parts@);
    s
}

/// `b` is `a` with `n` more diagnostics appended.
pub open spec fn extends(a: Seq<Diagnostic>, b: Seq<Diagnostic>, n: int) -> bool {
    &&& b.len() == a.len() + n
    &&& a.len() <= b.len()
    &&& forall|i: int| 0 <= i < a.len() ==> #[trigger] b[i] == a[i]
}

pub proof fn lemma_extends_push(a: Seq<Diagnostic>, b: Seq<Diagnostic>, n: int, d: Diagnostic)
    requires
        extends(a, b, n),
    ensures
        extends(a, b.push(d), n + 1),
{
}

pub proof fn lemma_extends_trans(
    a: Seq<Diagnostic>,
    b: Seq<Diagnostic>,
    c: Seq<Diagnostic>,
    n: int,
    m: int,
)
    requires
        extends(a, b, n),
        extends(b, c, m),
    ensures
        extends(a, c, n + m),
{
}

pub proof fn lemma_extends_refl(a: Seq<Diagnostic>)
    ensures
        extends(a, a, 0),
{
}

/// The messages of the diagnostics.
pub open spec fn msgs(v: Seq<Diagnostic>) -> Seq<Seq<char>> {
    v.map_values(|d: Diagnostic| d.message@)
}

/// `b` is `a` with diagnostics carrying the messages `ms` appended.
pub open spec fn says(a: Seq<Diagnostic>, b: Seq<Diagnostic>, ms: Seq<Seq<char>>) -> bool {
    msgs(b) == msgs(a) + ms
}

pub proof fn lemma_says_refl(a: Seq<Diagnostic>)
    ensures
        says(a, a, seq![]),
{
    assert(msgs(a) + seq![] =~= msgs(a));
}

pub proof fn lemma_says_push(a: Seq<Diagnostic>, b: Seq<Diagnostic>, ms: Seq<Seq<char>>, d: Diagnostic)
    requires
        says(a, b, ms),
    ensures
        says(a, b.push(d), ms.push(d.message@)),
{
    assert(msgs(b.push(d)) =~= msgs(b).push(d.message@));
    assert(msgs(a) + ms.push(d.message@) =~= (msgs(a) + ms).push(d.message@));
}

pub proof fn lemma_says_trans(a: Seq<Diagnostic>, b: Seq<Diagnostic>, c: Seq<Diagnostic>, m1: Seq<Seq<char>>, m2: Seq<Seq<char>>)
    requires
        says(a, b, m1),
        says(b, c, m2),
    ensures
        says(a, c, m1 + m2),
{
    assert(msgs(a) + m1 + m2 =~= msgs(a) + (m1 + m2));
}

/// A step of a loop that reports `f(k)`: one message.
pub proof fn lemma_says_one(start: Seq<Diagnostic>, d: Seq<Diagnostic>, f: spec_fn(int) -> Seq<Seq<char>>, k: int, m: Diagnostic)
    requires
        0 <= k,
        says(start, d, cat_to(k, f)),
        f(k) == seq![m.message@],
    ensures
        says(start, d.push(m), cat_to(k + 1, f)),
{
    lemma_says_push(start, d, cat_to(k, f), m);
    assert(cat_to(k, f).push(m.message@) =~= cat_to(k + 1, f));
}

/// A step of a loop that reports nothing.
pub proof fn lemma_says_none(start: Seq<Diagnostic>, d: Seq<Diagnostic>, f: spec_fn(int) -> Seq<Seq<char>>, k: int)
    requires
        0 <= k,
        says(start, d, cat_to(k, f)),
        f(k) == Seq::<Seq<char>>::empty(),
    ensures
        says(start, d, cat_to(k + 1, f)),
{
    assert(cat_to(k, f) =~= cat_to(k + 1, f));
}

/// A step of a loop whose body reported `m2` for item `k`.
pub proof fn lemma_says_step(start: Seq<Diagnostic>, mid: Seq<Diagnostic>, d: Seq<Diagnostic>, f: spec_fn(int) -> Seq<Seq<char>>, k: int)
    requires
        0 <= k,
        says(start, mid, cat_to(k, f)),
        says(mid, d, f(k)),
    ensures
        says(start, d, cat_to(k + 1, f)),
{
    lemma_says_trans(start, mid, d, cat_to(k, f), f(k));
}

/// `f(0) + ... + f(n - 1)`, concatenated.
pub open spec fn cat_to(n: int, f: spec_fn(int) -> Seq<Seq<char>>) -> Seq<Seq<char>>
    decreases n,
{
    if n <= 0 {
        seq![]
    } else {
        cat_to(n - 1, f) + f(n - 1)
    }
}

/// `f(0) + ... + f(n - 1)`.
pub open spec fn sum_to(n: int, f: spec_fn(int) -> int) -> int
    decreases n,
{
    if n <= 0 {
        0
    } else {
        sum_to(n - 1, f) + f(n - 1)
    }
}

pub proof fn lemma_sum_step(n: int, f: spec_fn(int) -> int)
    requires
        0 <= n,
    ensures
        sum_to(n + 1, f) == sum_to(n, f) + f(n),
{
}

pub proof fn lemma_sum_nonneg(n: int, f: spec_fn(int) -> int)
    requires
        forall|k: int| 0 <= k < n ==> #[trigger] f(k) >= 0,
    ensures
        sum_to(n, f) >= 0,
    decreases n,
{
    if n > 0 {
        lemma_sum_nonneg(n - 1, f);
    }
}

pub proof fn lemma_sum_zero(n: int, f: spec_fn(int) -> int)
    requires
        forall|k: int| 0 <= k < n ==> #[trigger] f(k) >= 0,
    ensures
        sum_to(n, f) == 0 <==> forall|k: int| 0 <= k < n ==> #[trigger] f(k) == 0,
    decreases n,
{
    if n > 0 {
        lemma_sum_zero(n - 1, f);
        lemma_sum_nonneg(n - 1, f);
    }
}

// ── lifecycle references ────────────────────────────────────────────────

/// The role of an edge, if it resolves.
pub open spec fn edge_role(a: SApp, e: SEdge) -> Option<int> {
    role_from(a.roles, e.via_role, 0)
}

/// The entrypoint of an edge, if its role and entrypoint resolve.
pub open spec fn edge_entry(a: SApp, e: SEdge) -> Option<(int, int)> {
    match edge_role(a, e) {
        Some(r) => match entry_from(a.roles[r].entrypoints, e.via_entry, 0) {
            Some(k) => Some((r, k)),
            None => None,
        },
        None => None,
    }
}

/// One diagnostic when an edge names an unknown role or entrypoint.
pub open spec fn unresolved_edge(a: SApp, k: int) -> int {
    if edge_entry(a, a.lifecycle[k]) is None {
        1
    } else {
        0
    }
}

/// The message when an edge names an unknown role or entrypoint.
pub open spec fn unresolved_msgs(a: SApp, k: int) -> Seq<Seq<char>> {
    let e = a.lifecycle[k];
    match edge_role(a, e) {
        None => seq!["lifecycle edge "@ + e.from + " -> "@ + e.to + " references unknown role `"@ + e.via_role + "`"@],
        Some(r) => if entry_from(a.roles[r].entrypoints, e.via_entry, 0) is None {
            seq!["lifecycle edge "@ + e.from + " -> "@ + e.to + " references unknown entrypoint `"@ + e.via_role + "."@ + e.via_entry + "`"@]
        } else {
            seq![]
        },
    }
}

/// One diagnostic when a resolved edge's entrypoint returns (or fails to)
/// against its mode: a transition on a non-terminal edge must return, one
/// on a terminal edge must not, and a verification never returns.
pub open spec fn inconsistent_edge(a: SApp, k: int) -> int {
    let e = a.lifecycle[k];
    match edge_entry(a, e) {
        Some((r, i)) => {
            let ent = a.roles[r].entrypoints[i];
            let ret = has_return(ent.body);
            if ent.mode == CovenantMode::Transition && !e.terminal && !ret {
                1
            } else if ent.mode == CovenantMode::Transition && e.terminal && ret {
                1
            } else if ent.mode == CovenantMode::Verification && ret {
                1
            } else {
                0
            }
        },
        None => 0,
    }
}

/// One diagnostic when a resolved edge's transition has no `return`.
pub open spec fn unconserved_edge(a: SApp, k: int) -> int {
    match edge_entry(a, a.lifecycle[k]) {
        Some((r, i)) => {
            let ent = a.roles[r].entrypoints[i];
            if ent.mode == CovenantMode::Transition && !has_return(ent.body) {
                1
            } else {
                0
            }
        },
        None => 0,
    }
}

/// The message when a resolved edge's entrypoint returns (or fails to)
/// against its mode.
pub open spec fn inconsistent_msgs(a: SApp, k: int) -> Seq<Seq<char>> {
    let e = a.lifecycle[k];
    match edge_entry(a, e) {
        Some((r, i)) => {
            let ent = a.roles[r].entrypoints[i];
            let ret = has_return(ent.body);
            if ent.mode == CovenantMode::Transition && !e.terminal && !ret {
                seq!["transition entrypoint `"@ + e.via_role + "."@ + e.via_entry + "` is reachable by non-terminal edge "@
                    + e.from + " -> "@ + e.to + " but has no return statement (would silently drop state)"@]
            } else if ent.mode == CovenantMode::Transition && e.terminal && ret {
                seq!["terminal transition `"@ + e.via_role + "."@ + e.via_entry + "` (edge "@ + e.from + " -> "@ + e.to
                    + ") must not return a successor; the coin is released via pays and the UTXO is consumed"@]
            } else if ent.mode == CovenantMode::Verification && ret {
                seq!["verification entrypoint `"@ + e.via_role + "."@ + e.via_entry + "` must not return a value"@]
            } else {
                seq![]
            }
        },
        None => seq![],
    }
}

/// The message when a resolved edge's transition has no `return`.
pub open spec fn unconserved_msgs(a: SApp, k: int) -> Seq<Seq<char>> {
    let e = a.lifecycle[k];
    match edge_entry(a, e) {
        Some((r, i)) => {
            let ent = a.roles[r].entrypoints[i];
            if ent.mode == CovenantMode::Transition && !has_return(ent.body) {
                seq!["invariant `value_conserved` violated: reachable transition entrypoint `"@ + e.via_role + "."@
                    + e.via_entry + "` has no return statement (state not conserved)"@]
            } else {
                seq![]
            }
        },
        None => seq![],
    }
}

/// The app declares `invariant value_conserved;`.
pub open spec fn declares_value_conserved(a: SApp) -> bool {
    exists|i: int| 0 <= i < a.invariants.len() && #[trigger] a.invariants[i] is ValueConserved
}

/// The app declares `invariant no_undeclared_state;`.
pub open spec fn declares_no_undeclared_state(a: SApp) -> bool {
    exists|i: int| 0 <= i < a.invariants.len() && #[trigger] a.invariants[i] is NoUndeclaredState
}

/// State `n` is the source of some edge.
pub open spec fn is_source(a: SApp, n: Seq<char>) -> bool {
    exists|i: int| 0 <= i < a.lifecycle.len() && #[trigger] a.lifecycle[i].from == n
}

/// State `n` is the target of some terminal edge.
pub open spec fn is_terminal_state(a: SApp, n: Seq<char>) -> bool {
    exists|i: int|
        0 <= i < a.lifecycle.len() && #[trigger] a.lifecycle[i].terminal && a.lifecycle[i].to
            == n
}

/// One diagnostic when a non-terminal edge enters a state that neither
/// starts an edge nor ends one terminally.
pub open spec fn dangling_edge(a: SApp, k: int) -> int {
    let e = a.lifecycle[k];
    if !e.terminal && !is_source(a, e.to) && !is_terminal_state(a, e.to) {
        1
    } else {
        0
    }
}

/// The message when a non-terminal edge enters an undeclared state.
pub open spec fn dangling_msgs(a: SApp, k: int) -> Seq<Seq<char>> {
    let e = a.lifecycle[k];
    if !e.terminal && !is_source(a, e.to) && !is_terminal_state(a, e.to) {
        seq!["invariant `no_undeclared_state` violated: state `"@ + e.to + "` is entered (edge "@ + e.from + " -> "@
            + e.to + ") but never declared as a source state or terminal"@]
    } else {
        seq![]
    }
}

/// The messages of the lifecycle checks.
pub open spec fn lifecycle_msgs(a: SApp) -> Seq<Seq<char>> {
    let n = a.lifecycle.len() as int;
    cat_to(n, |k: int| unresolved_msgs(a, k)) + cat_to(n, |k: int| inconsistent_msgs(a, k)) + (
    if declares_value_conserved(a) {
        cat_to(n, |k: int| unconserved_msgs(a, k))
    } else {
        seq![]
    }) + (if declares_no_undeclared_state(a) {
        cat_to(n, |k: int| dangling_msgs(a, k))
    } else {
        seq![]
    })
}

/// The diagnostics of the lifecycle checks.
pub open spec fn lifecycle_count(a: SApp) -> int {
    let n = a.lifecycle.len() as int;
    sum_to(n, |k: int| unresolved_edge(a, k)) + sum_to(n, |k: int| inconsistent_edge(a, k)) + (
    if declares_value_conserved(a) {
        sum_to(n, |k: int| unconserved_edge(a, k))
    } else {
        0
    }) + (if declares_no_undeclared_state(a) {
        sum_to(n, |k: int| dangling_edge(a, k))
    } else {
        0
    })
}

/// The role and entrypoint an edge resolves to.
fn resolve_edge(app: &App, e: &Edge) -> (r: Option<(usize, usize)>)
    ensures
        r is Some <==> edge_entry(app_v(*app), edge_v(*e)) is Some,
        r matches Some((ri, ki)) ==> edge_entry(app_v(*app), edge_v(*e)) == Some(
            (ri as int, ki as int),
        ) && ri < app.roles.len() && ki < app.roles@[ri as int].entrypoints.len(),
{
    let ghost av = app_v(*app);
    match find_role(&app.roles, &e.via_role) {
        Some(ri) => {
            proof {
                lemma_role_from(av.roles, e.via_role@, 0);
            }
            assert(av.roles[ri as int] == role_v(app.roles@[ri as int]));
            match find_entry(&app.roles[ri], &e.via_entry) {
                Some(ki) => Some((ri, ki)),
                None => None,
            }
        },
        None => None,
    }
}

/// Checks that every lifecycle edge names a real role and entrypoint.
pub fn check_edge_refs(app: &App, diags: &mut Vec<Diagnostic>)
    ensures
        extends(
            old(diags)@,
            final(diags)@,
            sum_to(app_v(*app).lifecycle.len() as int, |k: int| unresolved_edge(app_v(*app), k)),
        ),
        says(old(diags)@, final(diags)@, cat_to(app_v(*app).lifecycle.len() as int, |k: int| unresolved_msgs(app_v(*app), k))),
{
    let ghost av = app_v(*app);
    let ghost n = av.lifecycle.len() as int;
    let ghost start = diags@;
    proof {
        lemma_extends_refl(diags@);
        lemma_says_refl(diags@);
        reveal_with_fuel(concat, 10);
    }
    // 1. references resolve
    let mut k: usize = 0;
    while k < app.lifecycle.len()
        invariant
            av == app_v(*app),
            n == app.lifecycle.len(),
            k <= app.lifecycle.len(),
            extends(start, diags@, sum_to(k as int, |j: int| unresolved_edge(av, j))),
            says(start, diags@, cat_to(k as int, |j: int| unresolved_msgs(av, j))),
        decreases app.lifecycle.len() - k,
    {
        let e = &app.lifecycle[k];
        assert(av.lifecycle[k as int] == edge_v(*e));
        let ghost d0 = diags@;
        proof {
            reveal_with_fuel(concat, 10);
            lemma_role_from(av.roles, e.via_role@, 0);
        }
        match find_role(&app.roles, &e.via_role) {
            None => {
                let m = text_of(
                    vec![
                        "lifecycle edge ",
                        e.from.as_str(),
                        " -> ",
                        e.to.as_str(),
                        " references unknown role `",
                        e.via_role.as_str(),
                        "`",
                    ],
                );
                proof {
                    lemma_extends_push(start, diags@, sum_to(k as int, |j: int| unresolved_edge(av, j)), Diagnostic { message: m });
                    lemma_says_push(start, diags@, cat_to(k as int, |j: int| unresolved_msgs(av, j)), Diagnostic { message: m });
                    assert(unresolved_msgs(av, k as int) =~= seq![m@]);
                    assert(cat_to(k as int, |j: int| unresolved_msgs(av, j)).push(m@) =~= cat_to(k as int, |j: int| unresolved_msgs(av, j)) + unresolved_msgs(av, k as int));
                }
                diags.push(Diagnostic::new(m));
            },
            Some(ri) => {
                assert(av.roles[ri as int] == role_v(app.roles@[ri as int]));
                assert(app.roles@.map_values(|x: Role| role_v(x)) =~= av.roles);
                if find_entry(&app.roles[ri], &e.via_entry).is_none() {
                    let m = text_of(
                        vec![
                            "lifecycle edge ",
                            e.from.as_str(),
                            " -> ",
                            e.to.as_str(),
                            " references unknown entrypoint `",
                            e.via_role.as_str(),
                            ".",
                            e.via_entry.as_str(),
                            "`",
                        ],
                    );
                    proof {
                        lemma_extends_push(start, diags@, sum_to(k as int, |j: int| unresolved_edge(av, j)), Diagnostic { message: m });
                        lemma_says_push(start, diags@, cat_to(k as int, |j: int| unresolved_msgs(av, j)), Diagnostic { message: m });
                        assert(unresolved_msgs(av, k as int) =~= seq![m@]);
                        assert(cat_to(k as int, |j: int| unresolved_msgs(av, j)).push(m@) =~= cat_to(k as int, |j: int| unresolved_msgs(av, j)) + unresolved_msgs(av, k as int));
                    }
                    diags.push(Diagnostic::new(m));
                } else {
                    assert(unresolved_msgs(av, k as int) =~= Seq::<Seq<char>>::empty());
                    assert(cat_to(k as int, |j: int| unresolved_msgs(av, j)) + unresolved_msgs(av, k as int) =~= cat_to(k as int, |j: int| unresolved_msgs(av, j)));
                }
            },
        }
        assert(cat_to(k + 1, |j: int| unresolved_msgs(av, j)) =~= cat_to(k as int, |j: int| unresolved_msgs(av, j)) + unresolved_msgs(av, k as int));
        k += 1;
    }
}

/// Checks that each resolved edge's entrypoint returns as its mode and the
/// edge require.
pub fn check_edge_modes(app: &App, diags: &mut Vec<Diagnostic>)
    ensures
        extends(
            old(diags)@,
            final(diags)@,
            sum_to(app_v(*app).lifecycle.len() as int, |k: int| inconsistent_edge(app_v(*app), k)),
        ),
        says(old(diags)@, final(diags)@, cat_to(app_v(*app).lifecycle.len() as int, |k: int| inconsistent_msgs(app_v(*app), k))),
{
    let ghost av = app_v(*app);
    let ghost n = av.lifecycle.len() as int;
    let ghost start = diags@;
    let ghost f = |k: int| inconsistent_msgs(av, k);
    proof {
        lemma_extends_refl(diags@);
        lemma_says_refl(diags@);
    }
    // 3. transition / return consistency
    let mut k: usize = 0;
    while k < app.lifecycle.len()
        invariant
            av == app_v(*app),
            n == app.lifecycle.len(),
            k <= app.lifecycle.len(),
            extends(start, diags@, sum_to(k as int, |j: int| inconsistent_edge(av, j))),
            f == (|j: int| inconsistent_msgs(av, j)),
            says(start, diags@, cat_to(k as int, f)),
        decreases app.lifecycle.len() - k,
    {
        let e = &app.lifecycle[k];
        assert(av.lifecycle[k as int] == edge_v(*e));
        let ghost before = diags@;
        proof {
            reveal_with_fuel(concat, 12);
        }
        let ghost c = sum_to(k as int, |j: int| inconsistent_edge(av, j));
        match resolve_edge(app, e) {
            Some((ri, ki)) => {
                let entry = &app.roles[ri].entrypoints[ki];
                assert(av.roles[ri as int].entrypoints[ki as int] == entry_v(*entry));
                let has_ret = body_has_return(&entry.body);
                let bad = match entry.mode {
                    CovenantMode::Transition => {
                        if !e.terminal && !has_ret {
                            Some(
                                text_of(
                                    vec![
                                        "transition entrypoint `",
                                        e.via_role.as_str(),
                                        ".",
                                        e.via_entry.as_str(),
                                        "` is reachable by non-terminal edge ",
                                        e.from.as_str(),
                                        " -> ",
                                        e.to.as_str(),
                                        " but has no return statement (would silently drop state)",
                                    ],
                                ),
                            )
                        } else if e.terminal && has_ret {
                            Some(
                                text_of(
                                    vec![
                                        "terminal transition `",
                                        e.via_role.as_str(),
                                        ".",
                                        e.via_entry.as_str(),
                                        "` (edge ",
                                        e.from.as_str(),
                                        " -> ",
                                        e.to.as_str(),
                                        ") must not return a successor; the coin is released via pays and the UTXO is consumed",
                                    ],
                                ),
                            )
                        } else {
                            None
                        }
                    },
                    CovenantMode::Verification => {
                        if has_ret {
                            Some(
                                text_of(
                                    vec![
                                        "verification entrypoint `",
                                        e.via_role.as_str(),
                                        ".",
                                        e.via_entry.as_str(),
                                        "` must not return a value",
                                    ],
                                ),
                            )
                        } else {
                            None
                        }
                    },
                    CovenantMode::NonCovenant => None,
                };
                match bad {
                    Some(m) => {
                        proof {
                            lemma_extends_push(start, diags@, c, Diagnostic { message: m });
                            assert(f(k as int) =~= seq![m@]);
                            lemma_says_one(start, diags@, f, k as int, Diagnostic { message: m });
                        }
                        diags.push(Diagnostic::new(m));
                    },
                    None => {
                        proof {
                            assert(f(k as int) =~= Seq::<Seq<char>>::empty());
                            lemma_says_none(start, diags@, f, k as int);
                        }
                    },
                }
            },
            None => {
                proof {
                    assert(f(k as int) =~= Seq::<Seq<char>>::empty());
                    lemma_says_none(start, diags@, f, k as int);
                }
            },
        }
        k += 1;
    }
}

/// Under `value_conserved`, checks that every reachable transition returns.
pub fn check_edge_returns(app: &App, diags: &mut Vec<Diagnostic>)
    ensures
        extends(
            old(diags)@,
            final(diags)@,
            if declares_value_conserved(app_v(*app)) {
                sum_to(app_v(*app).lifecycle.len() as int, |k: int| unconserved_edge(app_v(*app), k))
            } else {
                0
            },
        ),
        says(old(diags)@, final(diags)@, if declares_value_conserved(app_v(*app)) {
            cat_to(app_v(*app).lifecycle.len() as int, |k: int| unconserved_msgs(app_v(*app), k))
        } else {
            seq![]
        }),
{
    let ghost av = app_v(*app);
    let ghost n = av.lifecycle.len() as int;
    let ghost start = diags@;
    let ghost f = |k: int| unconserved_msgs(av, k);
    proof {
        lemma_extends_refl(diags@);
        lemma_says_refl(diags@);
    }
    // 4. value_conserved: every reachable transition returns
    let conserved = declares_invariant(&app.invariants, true);
    if conserved {
        let mut k: usize = 0;
        while k < app.lifecycle.len()
            invariant
                av == app_v(*app),
                n == app.lifecycle.len(),
                k <= app.lifecycle.len(),
                extends(start, diags@, sum_to(k as int, |j: int| unconserved_edge(av, j))),
                f == (|j: int| unconserved_msgs(av, j)),
                says(start, diags@, cat_to(k as int, f)),
            decreases app.lifecycle.len() - k,
        {
            let e = &app.lifecycle[k];
            assert(av.lifecycle[k as int] == edge_v(*e));
            proof {
                reveal_with_fuel(concat, 8);
            }
            match resolve_edge(app, e) {
                Some((ri, ki)) => {
                    let entry = &app.roles[ri].entrypoints[ki];
                    assert(av.roles[ri as int].entrypoints[ki as int] == entry_v(*entry));
                    let is_transition = match entry.mode {
                        CovenantMode::Transition => true,
                        _ => false,
                    };
                    if is_transition && !body_has_return(&entry.body) {
                        let m = text_of(
                            vec![
                                "invariant `value_conserved` violated: reachable transition entrypoint `",
                                e.via_role.as_str(),
                                ".",
                                e.via_entry.as_str(),
                                "` has no return statement (state not conserved)",
                            ],
                        );
                        proof {
                            lemma_extends_push(start, diags@, sum_to(k as int, |j: int| unconserved_edge(av, j)), Diagnostic { message: m });
                            assert(f(k as int) =~= seq![m@]);
                            lemma_says_one(start, diags@, f, k as int, Diagnostic { message: m });
                        }
                        diags.push(Diagnostic::new(m));
                    } else {
                        proof {
                            assert(f(k as int) =~= Seq::<Seq<char>>::empty());
                            lemma_says_none(start, diags@, f, k as int);
                        }
                    }
                },
                None => {
                    proof {
                        assert(f(k as int) =~= Seq::<Seq<char>>::empty());
                        lemma_says_none(start, diags@, f, k as int);
                    }
                },
            }
            k += 1;
        }
    }
}

/// Under `no_undeclared_state`, checks that every state a non-terminal edge
/// enters is declared.
pub fn check_edge_states(app: &App, diags: &mut Vec<Diagnostic>)
    ensures
        extends(
            old(diags)@,
            final(diags)@,
            if declares_no_undeclared_state(app_v(*app)) {
                sum_to(app_v(*app).lifecycle.len() as int, |k: int| dangling_edge(app_v(*app), k))
            } else {
                0
            },
        ),
        says(old(diags)@, final(diags)@, if declares_no_undeclared_state(app_v(*app)) {
            cat_to(app_v(*app).lifecycle.len() as int, |k: int| dangling_msgs(app_v(*app), k))
        } else {
            seq![]
        }),
{
    let ghost av = app_v(*app);
    let ghost n = av.lifecycle.len() as int;
    let ghost start = diags@;
    let ghost f = |k: int| dangling_msgs(av, k);
    proof {
        lemma_extends_refl(diags@);
        lemma_says_refl(diags@);
    }
    // 5. no_undeclared_state: every entered state is declared
    let undeclared = declares_invariant(&app.invariants, false);
    if undeclared {
        let mut k: usize = 0;
        while k < app.lifecycle.len()
            invariant
                av == app_v(*app),
                n == app.lifecycle.len(),
                k <= app.lifecycle.len(),
                extends(start, diags@, sum_to(k as int, |j: int| dangling_edge(av, j))),
                f == (|j: int| dangling_msgs(av, j)),
                says(start, diags@, cat_to(k as int, f)),
            decreases app.lifecycle.len() - k,
        {
            let e = &app.lifecycle[k];
            assert(av.lifecycle[k as int] == edge_v(*e));
            proof {
                reveal_with_fuel(concat, 10);
            }
            if !e.terminal && !state_is_declared(app, &e.to) {
                let m = text_of(
                    vec![
                        "invariant `no_undeclared_state` violated: state `",
                        e.to.as_str(),
                        "` is entered (edge ",
                        e.from.as_str(),
                        " -> ",
                        e.to.as_str(),
                        ") but never declared as a source state or terminal",
                    ],
                );
                proof {
                    lemma_extends_push(start, diags@, sum_to(k as int, |j: int| dangling_edge(av, j)), Diagnostic { message: m });
                    assert(f(k as int) =~= seq![m@]);
                    lemma_says_one(start, diags@, f, k as int, Diagnostic { message: m });
                }
                diags.push(Diagnostic::new(m));
            } else {
                proof {
                    assert(f(k as int) =~= Seq::<Seq<char>>::empty());
                    lemma_says_none(start, diags@, f, k as int);
                }
            }
            k += 1;
        }
    }
}

/// Whether the invariants include `value_conserved` (`conserved`) or
/// `no_undeclared_state` (otherwise).
fn declares_invariant(invs: &Vec<Invariant>, conserved: bool) -> (b: bool)
    ensures
        b == if conserved {
            exists|i: int|
                0 <= i < invs@.len() && #[trigger] invariants_v(invs@)[i] is ValueConserved
        } else {
            exists|i: int|
                0 <= i < invs@.len() && #[trigger] invariants_v(invs@)[i] is NoUndeclaredState
        },
{
    let ghost iv = invariants_v(invs@);
    let mut i: usize = 0;
    while i < invs.len()
        invariant
            iv == invariants_v(invs@),
            i <= invs.len(),
            forall|k: int|
                0 <= k < i ==> if conserved {
                    !(#[trigger] iv[k] is ValueConserved)
                } else {
                    !(iv[k] is NoUndeclaredState)
                },
        decreases invs.len() - i,
    {
        assert(iv[i as int] == invariant_v(invs@[i as int]));
        let hit = match &invs[i] {
            Invariant::ValueConserved => conserved,
            Invariant::NoUndeclaredState => !conserved,
            _ => false,
        };
        if hit {
            return true;
        }
        i += 1;
    }
    false
}

/// Whether state `n` starts an edge or is entered by a terminal edge.
fn state_is_declared(app: &App, n: &String) -> (b: bool)
    ensures
        b == (is_source(app_v(*app), n@) || is_terminal_state(app_v(*app), n@)),
{
    let ghost av = app_v(*app);
    let mut i: usize = 0;
    while i < app.lifecycle.len()
        invariant
            av == app_v(*app),
            i <= app.lifecycle.len(),
            forall|k: int| 0 <= k < i ==> #[trigger] av.lifecycle[k].from != n@,
            forall|k: int|
                0 <= k < i ==> !(#[trigger] av.lifecycle[k].terminal && av.lifecycle[k].to == n@),
        decreases app.lifecycle.len() - i,
    {
        let e = &app.lifecycle[i];
        assert(av.lifecycle[i as int] == edge_v(*e));
        if same(&e.from, n) {
            assert(av.lifecycle[i as int].from == n@);
            return true;
        }
        if e.terminal && same(&e.to, n) {
            assert(av.lifecycle[i as int].terminal && av.lifecycle[i as int].to == n@);
            return true;
        }
        i += 1;
    }
    false
}

// ── flow steps ──────────────────────────────────────────────────────────

/// One diagnostic when a handoff names an unknown role or entrypoint.
pub open spec fn move_count(roles: Seq<SRole>, role: Seq<char>, entry: Seq<char>) -> int {
    match role_from(roles, role, 0) {
        Some(r) => if entry_from(roles[r].entrypoints, entry, 0) is None {
            1
        } else {
            0
        },
        None => 1,
    }
}

/// The diagnostics for a flow: every handoff, through nested sub-flows.
pub open spec fn flow_count(f: SFlow, roles: Seq<SRole>) -> int
    decreases f, 1nat,
{
    steps_count(f.steps, f.steps.len() as int, roles)
}

/// The diagnostics for the first `k` steps.
pub open spec fn steps_count(steps: Seq<SStep>, k: int, roles: Seq<SRole>) -> int
    decreases steps, k,
{
    if k <= 0 || k > steps.len() {
        0
    } else {
        steps_count(steps, k - 1, roles) + step_count(steps[k - 1], roles)
    }
}

pub open spec fn step_count(s: SStep, roles: Seq<SRole>) -> int
    decreases s, 0nat,
{
    match s {
        SStep::Move(r, e) => move_count(roles, r, e),
        SStep::Choose(fs) => flows_count(fs, fs.len() as int, roles),
        SStep::Par(fs) => flows_count(fs, fs.len() as int, roles),
        SStep::Repeat(_, f) => flow_count(*f, roles),
    }
}

/// The diagnostics for the first `k` sub-flows.
pub open spec fn flows_count(fs: Seq<SFlow>, k: int, roles: Seq<SRole>) -> int
    decreases fs, k,
{
    if k <= 0 || k > fs.len() {
        0
    } else {
        flows_count(fs, k - 1, roles) + flow_count(fs[k - 1], roles)
    }
}

/// The message when a handoff names an unknown role or entrypoint.
pub open spec fn move_msgs(roles: Seq<SRole>, role: Seq<char>, entry: Seq<char>) -> Seq<Seq<char>> {
    match role_from(roles, role, 0) {
        Some(r) => if entry_from(roles[r].entrypoints, entry, 0) is None {
            seq!["flow step references unknown entrypoint `"@ + role + "."@ + entry + "`"@]
        } else {
            seq![]
        },
        None => seq!["flow step references unknown role `"@ + role + "`"@],
    }
}

/// The messages for a flow.
pub open spec fn flow_msgs(f: SFlow, roles: Seq<SRole>) -> Seq<Seq<char>>
    decreases f, 1nat,
{
    steps_msgs(f.steps, f.steps.len() as int, roles)
}

/// The messages for the first `k` steps.
pub open spec fn steps_msgs(steps: Seq<SStep>, k: int, roles: Seq<SRole>) -> Seq<Seq<char>>
    decreases steps, k,
{
    if k <= 0 || k > steps.len() {
        seq![]
    } else {
        steps_msgs(steps, k - 1, roles) + step_msgs(steps[k - 1], roles)
    }
}

pub open spec fn step_msgs(s: SStep, roles: Seq<SRole>) -> Seq<Seq<char>>
    decreases s, 0nat,
{
    match s {
        SStep::Move(r, e) => move_msgs(roles, r, e),
        SStep::Choose(fs) => flows_msgs(fs, fs.len() as int, roles),
        SStep::Par(fs) => flows_msgs(fs, fs.len() as int, roles),
        SStep::Repeat(_, f) => flow_msgs(*f, roles),
    }
}

/// The messages for the first `k` sub-flows.
pub open spec fn flows_msgs(fs: Seq<SFlow>, k: int, roles: Seq<SRole>) -> Seq<Seq<char>>
    decreases fs, k,
{
    if k <= 0 || k > fs.len() {
        seq![]
    } else {
        flows_msgs(fs, k - 1, roles) + flow_msgs(fs[k - 1], roles)
    }
}

pub proof fn lemma_steps_v(s: Seq<Step>, n: int)
    requires
        0 <= n <= s.len(),
    ensures
        steps_v(s, n).len() == n,
        forall|k: int| 0 <= k < n ==> #[trigger] steps_v(s, n)[k] == step_v(s[k]),
    decreases n,
{
    if n > 0 {
        lemma_steps_v(s, n - 1);
    }
}

pub proof fn lemma_flows_v(s: Seq<Flow>, n: int)
    requires
        0 <= n <= s.len(),
    ensures
        flows_v(s, n).len() == n,
        forall|k: int| 0 <= k < n ==> #[trigger] flows_v(s, n)[k] == flow_v(s[k]),
    decreases n,
{
    if n > 0 {
        lemma_flows_v(s, n - 1);
    }
}

/// Checks that every handoff of a flow (through nested `choose`, `par` and
/// `repeat` sub-flows) names a real role and entrypoint.
#[verifier::loop_isolation(false)]
pub fn check_flow(flow: &Flow, roles: &Vec<Role>, diags: &mut Vec<Diagnostic>)
    ensures
        extends(
            old(diags)@,
            final(diags)@,
            flow_count(flow_v(*flow), roles@.map_values(|x: Role| role_v(x))),
        ),
        says(old(diags)@, final(diags)@, flow_msgs(flow_v(*flow), roles@.map_values(|x: Role| role_v(x)))),
    decreases flow, 1nat,
{
    let ghost rs = roles@.map_values(|x: Role| role_v(x));
    let ghost sv = steps_v(flow.steps@, flow.steps@.len() as int);
    proof {
        lemma_steps_v(flow.steps@, flow.steps@.len() as int);
        lemma_extends_refl(diags@);
        lemma_says_refl(diags@);
    }
    let ghost start = diags@;
    let mut i: usize = 0;
    while i < flow.steps.len()
        invariant
            i <= flow.steps.len(),
            extends(start, diags@, steps_count(sv, i as int, rs)),
            says(start, diags@, steps_msgs(sv, i as int, rs)),
        decreases flow.steps.len() - i,
    {
        let ghost before = diags@;
        proof {
            let ghost st: Vec<Step> = flow.steps;
            assert(decreases_to!(*flow => st));
            assert(decreases_to!(st => st@));
            assert(decreases_to!(st@ => st@[i as int]));
        }
        check_step(&flow.steps[i], roles, diags);
        proof {
            lemma_extends_trans(start, before, diags@, steps_count(sv, i as int, rs), step_count(sv[i as int], rs));
            lemma_says_trans(start, before, diags@, steps_msgs(sv, i as int, rs), step_msgs(sv[i as int], rs));
        }
        i += 1;
    }
}

/// Checks one flow step.
#[verifier::loop_isolation(false)]
fn check_step(step: &Step, roles: &Vec<Role>, diags: &mut Vec<Diagnostic>)
    ensures
        extends(
            old(diags)@,
            final(diags)@,
            step_count(step_v(*step), roles@.map_values(|x: Role| role_v(x))),
        ),
        says(old(diags)@, final(diags)@, step_msgs(step_v(*step), roles@.map_values(|x: Role| role_v(x)))),
    decreases step, 0nat,
{
    let ghost rs = roles@.map_values(|x: Role| role_v(x));
    proof {
        lemma_extends_refl(diags@);
        lemma_says_refl(diags@);
        reveal_with_fuel(concat, 8);
    }
    match step {
        Step::Move { role, entry } => {
            match find_role(roles, role) {
                None => {
                    let m = text_of(vec!["flow step references unknown role `", role.as_str(), "`"]);
                    proof {
                        lemma_extends_push(diags@, diags@, 0, Diagnostic { message: m });
                        lemma_says_push(diags@, diags@, seq![], Diagnostic { message: m });
                        assert(seq![].push(m@) =~= step_msgs(step_v(*step), rs));
                    }
                    diags.push(Diagnostic::new(m));
                },
                Some(r) => {
                    proof {
                        lemma_role_from(rs, role@, 0);
                    }
                    assert(rs[r as int] == role_v(roles@[r as int]));
                    if find_entry(&roles[r], entry).is_none() {
                        let m = text_of(
                            vec![
                                "flow step references unknown entrypoint `",
                                role.as_str(),
                                ".",
                                entry.as_str(),
                                "`",
                            ],
                        );
                        proof {
                            lemma_extends_push(diags@, diags@, 0, Diagnostic { message: m });
                            lemma_says_push(diags@, diags@, seq![], Diagnostic { message: m });
                            assert(seq![].push(m@) =~= step_msgs(step_v(*step), rs));
                        }
                        diags.push(Diagnostic::new(m));
                    } else {
                        assert(step_msgs(step_v(*step), rs) =~= Seq::<Seq<char>>::empty());
                    }
                },
            }
        },
        Step::Choose(fs) | Step::Par(fs) => {
            let ghost fv = flows_v(fs@, fs@.len() as int);
            proof {
                lemma_flows_v(fs@, fs@.len() as int);
            }
            let ghost start = diags@;
            let mut i: usize = 0;
            while i < fs.len()
                invariant
                    i <= fs.len(),
                    extends(start, diags@, flows_count(fv, i as int, rs)),
                    says(start, diags@, flows_msgs(fv, i as int, rs)),
                decreases fs.len() - i,
            {
                let ghost before = diags@;
                proof {
                    let ghost v: Vec<Flow> = *fs;
                    assert(decreases_to!(*step => v));
                    assert(decreases_to!(v => v@));
                    assert(decreases_to!(v@ => v@[i as int]));
                }
                check_flow(&fs[i], roles, diags);
                proof {
                    lemma_extends_trans(start, before, diags@, flows_count(fv, i as int, rs), flow_count(fv[i as int], rs));
                    lemma_says_trans(start, before, diags@, flows_msgs(fv, i as int, rs), flow_msgs(fv[i as int], rs));
                }
                i += 1;
            }
        },
        Step::Repeat(_, f) => {
            check_flow(f, roles, diags);
        },
    }
}

} // verus!
