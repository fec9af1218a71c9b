//! The per-transition graph of an app (its roles, state nodes and
//! transitions), the allocation of each transition to the covenant layer or
//! the off-chain prover layer, and the projection of the graph into one
//! covenant model per role.

use vstd::prelude::*;
use crate::ast::Type;
use crate::lexer::chars_of;
use crate::render::put;
use crate::text::{push_char, str_eq};

verus! {

broadcast use vstd::seq_lib::group_seq_properties;

/// How a transition is enforced.
#[derive(Debug, Clone, Copy, PartialEq, Eq, Structural)]
pub enum Mode {
    Transition,
    Verification,
    NonCovenant,
}

/// One transition of a role: its entrypoint, the state node it leaves and
/// the one it reaches (none for a terminal transition), and its mode.
#[derive(Debug)]
pub struct Transition {
    pub entry: String,
    pub from: String,
    pub to: Option<String>,
    pub mode: Mode,
}

impl Clone for Transition {
    fn clone(&self) -> (r: Self)
        ensures
            r == *self,
    {
        Transition {
            entry: self.entry.clone(),
            from: self.from.clone(),
            to: match &self.to {
                Some(s) => Some(s.clone()),
                None => None,
            },
            mode: self.mode,
        }
    }
}

/// A state node and its typed fields.
#[derive(Debug)]
pub struct StateNode {
    pub label: String,
    pub fields: Vec<(String, Type)>,
}

/// A role's graph: its params, state nodes and transitions.
#[derive(Debug)]
pub struct RoleGraph {
    pub role: String,
    pub params: Vec<(String, Type)>,
    pub states: Vec<StateNode>,
    pub transitions: Vec<Transition>,
}

/// An app's graph.
#[derive(Debug)]
pub struct Cartoon {
    pub app: String,
    pub roles: Vec<RoleGraph>,
}

/// The layer a transition is allocated to.
#[derive(Debug, Clone, Copy, PartialEq, Eq, Structural)]
pub enum Layer {
    /// The on-chain covenant script.
    Covenant,
    /// The off-chain prover program.
    VProg,
}

/// A transition with its layer.
#[derive(Debug)]
pub struct AllocatedTransition<'a> {
    pub transition: &'a Transition,
    pub layer: Layer,
}

/// The allocation of every transition of a graph.
#[derive(Debug)]
pub struct PounceResult<'a> {
    pub cartoon: &'a Cartoon,
    pub allocations: Vec<AllocatedTransition<'a>>,
}

/// A transition that reaches a state, or only verifies one, is enforced by
/// the covenant; a terminal transition or an off-chain one by the prover.
pub open spec fn layer_of(t: Transition) -> Layer {
    match t.mode {
        Mode::Transition => if t.to is Some { Layer::Covenant } else { Layer::VProg },
        Mode::Verification => Layer::Covenant,
        Mode::NonCovenant => Layer::VProg,
    }
}

/// The transitions of the first `k` roles, role by role.
pub open spec fn transitions_of(roles: Seq<RoleGraph>, k: int) -> Seq<Transition>
    decreases k,
{
    if k <= 0 || k > roles.len() {
        seq![]
    } else {
        transitions_of(roles, k - 1) + roles[k - 1].transitions@
    }
}

fn classify(tr: &Transition) -> (l: Layer)
    ensures
        l == layer_of(*tr),
{
    match tr.mode {
        Mode::Transition => if tr.to.is_some() {
            Layer::Covenant
        } else {
            Layer::VProg
        },
        Mode::Verification => Layer::Covenant,
        Mode::NonCovenant => Layer::VProg,
    }
}

/// Allocates every transition of every role, in order.
pub fn allocate(cartoon: &Cartoon) -> (r: PounceResult<'_>)
    ensures
        *r.cartoon == *cartoon,
        r.allocations@.len() == transitions_of(cartoon.roles@, cartoon.roles@.len() as int).len(),
        forall|k: int|
            0 <= k < r.allocations@.len() ==> *(#[trigger] r.allocations@[k]).transition == transitions_of(
                cartoon.roles@,
                cartoon.roles@.len() as int,
            )[k] && r.allocations@[k].layer == layer_of(*r.allocations@[k].transition),
{
    let ghost all = transitions_of(cartoon.roles@, cartoon.roles@.len() as int);
    let mut allocations: Vec<AllocatedTransition<'_>> = Vec::new();
    let mut i: usize = 0;
    while i < cartoon.roles.len()
        invariant
            i <= cartoon.roles.len(),
            allocations@.len() == transitions_of(cartoon.roles@, i as int).len(),
            forall|k: int|
                0 <= k < allocations@.len() ==> *(#[trigger] allocations@[k]).transition == transitions_of(
                    cartoon.roles@,
                    i as int,
                )[k] && allocations@[k].layer == layer_of(*allocations@[k].transition),
        decreases cartoon.roles.len() - i,
    {
        let rg = &cartoon.roles[i];
        let ghost before = transitions_of(cartoon.roles@, i as int);
        let mut j: usize = 0;
        while j < rg.transitions.len()
            invariant
                i < cartoon.roles.len(),
                *rg == cartoon.roles@[i as int],
                j <= rg.transitions.len(),
                before == transitions_of(cartoon.roles@, i as int),
                allocations@.len() == before.len() + j,
                forall|k: int|
                    0 <= k < allocations@.len() ==> *(#[trigger] allocations@[k]).transition == (before
                        + rg.transitions@)[k] && allocations@[k].layer == layer_of(*allocations@[k].transition),
            decreases rg.transitions.len() - j,
        {
            let tr = &rg.transitions[j];
            allocations.push(AllocatedTransition { transition: tr, layer: classify(tr) });
            j += 1;
        }
        assert(transitions_of(cartoon.roles@, i + 1) == before + rg.transitions@);
        i += 1;
    }
    PounceResult { cartoon, allocations }
}

// ── projection ──────────────────────────────────────────────────────────

/// The upper-case mapping of a character (`char::to_uppercase`), by std's
/// Unicode tables; one or more characters.
pub uninterp spec fn upper(c: char) -> Seq<char>;

/// `char::to_uppercase`, collected. Which characters it yields is left to
/// std's tables; the result depends on `c` alone.
#[verifier::external_body]
fn to_upper(c: char) -> (r: String)
    ensures
        r@ == upper(c),
{
    c.to_uppercase().collect::<String>()
}

/// PascalCase of a snake_case name: each `_` dropped, and the character
/// after it (and the first one) upper-cased; `cap` is whether the next
/// character starts a word.
pub open spec fn pascal_from(s: Seq<char>, i: int, cap: bool) -> Seq<char>
    decreases s.len() - i,
{
    if i < 0 || i >= s.len() {
        seq![]
    } else if s[i] == '_' {
        pascal_from(s, i + 1, true)
    } else if cap {
        upper(s[i]) + pascal_from(s, i + 1, false)
    } else {
        seq![s[i]] + pascal_from(s, i + 1, false)
    }
}

fn pascal_case(s: &str) -> (r: String)
    ensures
        r@ == pascal_from(s@, 0, true),
{
    let cs = chars_of(s);
    let mut out = String::new();
    let mut cap = true;
    let mut i: usize = 0;
    while i < cs.len()
        invariant
            i <= cs.len(),
            cs@ == s@,
            pascal_from(s@, 0, true) == out@ + pascal_from(s@, i as int, cap),
        decreases cs.len() - i,
    {
        let ch = cs[i];
        let ghost before = out@;
        if ch == '_' {
            cap = true;
        } else if cap {
            put(&mut out, to_upper(ch).as_str());
            assert(before + (upper(ch) + pascal_from(s@, i + 1, false)) =~= out@ + pascal_from(s@, i + 1, false));
            cap = false;
        } else {
            push_char(&mut out, ch);
            assert(before + (seq![ch] + pascal_from(s@, i + 1, false)) =~= out@ + pascal_from(s@, i + 1, false));
        }
        i += 1;
    }
    assert(out@ + pascal_from(s@, cs.len() as int, cap) =~= out@);
    out
}

/// A covenant model of one role: its name, params, state fields,
/// transitions, and whether any of them runs off-chain.
#[derive(Debug)]
pub struct CovenantModel {
    pub name: String,
    pub params: Vec<(String, Type)>,
    pub state: Vec<(String, Type)>,
    pub transitions: Vec<Transition>,
    pub has_vprog: bool,
}

pub open spec fn names_of(fs: Seq<(String, Type)>) -> Seq<Seq<char>> {
    fs.map_values(|f: (String, Type)| f.0@)
}

/// The fields of the first `k` state nodes, each name kept at its first
/// occurrence, with that occurrence's type.
pub open spec fn union_fields(nodes: Seq<StateNode>, k: int) -> Seq<(String, Type)>
    decreases k,
{
    if k <= 0 || k > nodes.len() {
        seq![]
    } else {
        add_fields(union_fields(nodes, k - 1), nodes[k - 1].fields@, nodes[k - 1].fields@.len() as int)
    }
}

/// `acc` with the first `k` of `fs` appended, skipping names already held.
pub open spec fn add_fields(acc: Seq<(String, Type)>, fs: Seq<(String, Type)>, k: int) -> Seq<(String, Type)>
    decreases k,
{
    if k <= 0 || k > fs.len() {
        acc
    } else {
        let prev = add_fields(acc, fs, k - 1);
        if names_of(prev).contains(fs[k - 1].0@) {
            prev
        } else {
            prev.push(fs[k - 1])
        }
    }
}

/// The model of a role of the app `app`; `single` when the app has one role.
pub open spec fn model_of(app: Seq<char>, single: bool, rg: RoleGraph, m: CovenantModel) -> bool {
    &&& m.name@ == if single { app } else { app + pascal_from(rg.role@, 0, true) }
    &&& m.params@ == rg.params@
    &&& m.state@ == union_fields(rg.states@, rg.states@.len() as int)
    &&& m.transitions@ == rg.transitions@
    &&& m.has_vprog == exists|t: int| 0 <= t < rg.transitions@.len() && #[trigger] rg.transitions@[t].mode == Mode::NonCovenant
}

fn copy_field(f: &(String, Type)) -> (r: (String, Type))
    ensures
        r == *f,
{
    (f.0.clone(), f.1.clone())
}

fn copy_fields(fs: &Vec<(String, Type)>) -> (r: Vec<(String, Type)>)
    ensures
        r@ == fs@,
{
    let mut r: Vec<(String, Type)> = Vec::new();
    let mut i: usize = 0;
    while i < fs.len()
        invariant
            i <= fs.len(),
            r@ == fs@.subrange(0, i as int),
        decreases fs.len() - i,
    {
        r.push(copy_field(&fs[i]));
        i += 1;
        assert(r@ =~= fs@.subrange(0, i as int));
    }
    assert(fs@.subrange(0, fs.len() as int) =~= fs@);
    r
}

fn copy_transitions(ts: &Vec<Transition>) -> (r: Vec<Transition>)
    ensures
        r@ == ts@,
{
    let mut r: Vec<Transition> = Vec::new();
    let mut i: usize = 0;
    while i < ts.len()
        invariant
            i <= ts.len(),
            r@ == ts@.subrange(0, i as int),
        decreases ts.len() - i,
    {
        r.push(ts[i].clone());
        i += 1;
        assert(r@ =~= ts@.subrange(0, i as int));
    }
    assert(ts@.subrange(0, ts.len() as int) =~= ts@);
    r
}

/// Whether a field named `n` is among `fs`.
fn has_field(fs: &Vec<(String, Type)>, n: &String) -> (r: bool)
    ensures
        r == names_of(fs@).contains(n@),
{
    let mut i: usize = 0;
    while i < fs.len()
        invariant
            i <= fs.len(),
            forall|k: int| 0 <= k < i ==> names_of(fs@)[k] != n@,
        decreases fs.len() - i,
    {
        if str_eq(fs[i].0.as_str(), n.as_str()) {
            assert(names_of(fs@)[i as int] == n@);
            return true;
        }
        i += 1;
    }
    false
}

fn project_role(app: &String, single: bool, rg: &RoleGraph) -> (m: CovenantModel)
    ensures
        model_of(app@, single, *rg, m),
{
    let mut state: Vec<(String, Type)> = Vec::new();
    let mut i: usize = 0;
    while i < rg.states.len()
        invariant
            i <= rg.states.len(),
            state@ == union_fields(rg.states@, i as int),
        decreases rg.states.len() - i,
    {
        let node = &rg.states[i];
        let ghost base = union_fields(rg.states@, i as int);
        let mut j: usize = 0;
        while j < node.fields.len()
            invariant
                i < rg.states.len(),
                *node == rg.states@[i as int],
                j <= node.fields.len(),
                state@ == add_fields(base, node.fields@, j as int),
            decreases node.fields.len() - j,
        {
            if !has_field(&state, &node.fields[j].0) {
                state.push(copy_field(&node.fields[j]));
            }
            j += 1;
        }
        i += 1;
    }
    let name = if single {
        app.clone()
    } else {
        let mut n = app.clone();
        put(&mut n, pascal_case(rg.role.as_str()).as_str());
        n
    };
    let mut has_vprog = false;
    let mut t: usize = 0;
    while t < rg.transitions.len()
        invariant
            t <= rg.transitions.len(),
            has_vprog == exists|q: int| 0 <= q < t && #[trigger] rg.transitions@[q].mode == Mode::NonCovenant,
        decreases rg.transitions.len() - t,
    {
        if rg.transitions[t].mode == Mode::NonCovenant {
            has_vprog = true;
        }
        t += 1;
    }
    CovenantModel {
        name,
        params: copy_fields(&rg.params),
        state,
        transitions: copy_transitions(&rg.transitions),
        has_vprog,
    }
}

/// One covenant model per role, in order: named after the app when it has
/// a single role, else the app's name followed by the role's name in
/// PascalCase.
pub fn project(cartoon: &Cartoon) -> (r: Vec<CovenantModel>)
    ensures
        r@.len() == cartoon.roles@.len(),
        forall|k: int|
            0 <= k < r@.len() ==> model_of(
                cartoon.app@,
                cartoon.roles@.len() == 1,
                cartoon.roles@[k],
                #[trigger] r@[k],
            ),
{
    let single = cartoon.roles.len() == 1;
    let mut out: Vec<CovenantModel> = Vec::new();
    let mut i: usize = 0;
    while i < cartoon.roles.len()
        invariant
            i <= cartoon.roles.len(),
            single == (cartoon.roles@.len() == 1),
            out@.len() == i,
            forall|k: int|
                0 <= k < i ==> model_of(cartoon.app@, single, cartoon.roles@[k], #[trigger] out@[k]),
        decreases cartoon.roles.len() - i,
    {
        out.push(project_role(&cartoon.app, single, &cartoon.roles[i]));
        i += 1;
    }
    out
}

} // verus!
