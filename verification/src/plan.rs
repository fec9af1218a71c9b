//! Covenant-ID lineage planning: a multi-role app projects to several
//! covenants, and a child covenant that binds its parent's covenant ID can
//! only be deployed after the parent. A [`LineagePlan`] records the covenants
//! and the parent → child lineage edges; [`LineagePlan::deploy_order`] orders
//! the covenants so that every parent comes before each of its children, and
//! [`DeployManifest::to_json`] serialises the validated plan.
//!
//! The order is Kahn's: repeatedly place a covenant all of whose parents are
//! already placed; when several are ready, the smallest name (in `str`
//! order) goes first, which makes the order independent of input order.

use vstd::prelude::*;
use crate::lexer::chars_of;
use crate::model::{lemma_strs_push, strs_v};
use crate::render::put;
use crate::text::push_char;

verus! {

broadcast use vstd::seq_lib::group_seq_properties;

/// One covenant of a multi-role app (one emitted contract).
#[derive(Debug, PartialEq, Eq)]
pub struct Covenant {
    /// Emitted contract name.
    pub name: String,
    /// The role it was projected from.
    pub role: String,
    /// The concrete covenant ID (hex) once deployed.
    pub kov_id: Option<String>,
}

/// A lineage edge: `child` binds `parent`'s covenant ID, so `parent` deploys
/// first.
#[derive(Debug, PartialEq, Eq)]
pub struct LineageEdge {
    pub parent: String,
    pub child: String,
    /// The child state field holding the parent's covenant ID.
    pub binding_field: String,
}

/// Why a plan has no deploy order.
#[derive(Debug, PartialEq, Eq)]
pub enum PlanError {
    /// An edge names a covenant that is not in the covenant set.
    UnknownCovenant(String),
    /// The lineage graph has a cycle (or two covenants share a name).
    Cycle,
    /// The app declares no covenants.
    Empty,
}

impl PlanError {
    /// The error's message (what `Display` would print).
    pub fn message(&self) -> (s: String)
        ensures
            s@ == match *self {
                PlanError::UnknownCovenant(n) => "lineage edge references unknown covenant `"@ + n@ + "`"@,
                PlanError::Cycle => "lineage graph has a cycle; no valid deploy order"@,
                PlanError::Empty => "app declares no covenants"@,
            },
    {
        match self {
            PlanError::UnknownCovenant(n) => {
                let mut s = String::from_str("lineage edge references unknown covenant `");
                put(&mut s, n.as_str());
                put(&mut s, "`");
                s
            },
            PlanError::Cycle => String::from_str("lineage graph has a cycle; no valid deploy order"),
            PlanError::Empty => String::from_str("app declares no covenants"),
        }
    }
}

/// An app's covenants and lineage edges.
#[derive(Debug)]
pub struct LineagePlan {
    pub app: String,
    pub covenants: Vec<Covenant>,
    pub edges: Vec<LineageEdge>,
}

/// A validated, ordered deploy plan.
#[derive(Debug)]
pub struct DeployManifest {
    pub app: String,
    /// Covenant names, parents before children.
    pub order: Vec<String>,
    pub covenants: Vec<Covenant>,
    pub edges: Vec<LineageEdge>,
}

// ── the order on names ──────────────────────────────────────────────────

/// `str` order: lexicographic on characters (UTF-8 byte order and code point
/// order agree).
pub open spec fn name_lt(a: Seq<char>, b: Seq<char>) -> bool
    decreases a.len(),
{
    if a.len() == 0 {
        b.len() > 0
    } else if b.len() == 0 {
        false
    } else if a[0] != b[0] {
        (a[0] as int) < (b[0] as int)
    } else {
        name_lt(a.drop_first(), b.drop_first())
    }
}

pub proof fn lemma_name_lt_irreflexive(a: Seq<char>)
    ensures
        !name_lt(a, a),
    decreases a.len(),
{
    if a.len() > 0 {
        lemma_name_lt_irreflexive(a.drop_first());
    }
}

pub proof fn lemma_name_lt_total(a: Seq<char>, b: Seq<char>)
    ensures
        a != b ==> name_lt(a, b) || name_lt(b, a),
        !(name_lt(a, b) && name_lt(b, a)),
    decreases a.len(),
{
    if a.len() > 0 && b.len() > 0 {
        lemma_name_lt_total(a.drop_first(), b.drop_first());
        if a[0] == b[0] && a.drop_first() == b.drop_first() {
            assert(a =~= seq![a[0]] + a.drop_first());
            assert(b =~= seq![b[0]] + b.drop_first());
        }
    } else if a.len() == 0 && b.len() == 0 {
        assert(a =~= b);
    }
}

pub proof fn lemma_name_lt_transitive(a: Seq<char>, b: Seq<char>, c: Seq<char>)
    requires
        name_lt(a, b),
        name_lt(b, c),
    ensures
        name_lt(a, c),
    decreases a.len(),
{
    if a.len() > 0 && b.len() > 0 && c.len() > 0 && a[0] == b[0] && b[0] == c[0] {
        lemma_name_lt_transitive(a.drop_first(), b.drop_first(), c.drop_first());
    }
}

proof fn lemma_char_code(c: char)
    ensures
        (c as u32) as int == c as int,
{
}

/// `a < b` in `str` order.
pub(crate) fn name_less(a: &String, b: &String) -> (r: bool)
    ensures
        r == name_lt(a@, b@),
{
    let x = chars_of(a.as_str());
    let y = chars_of(b.as_str());
    let mut i: usize = 0;
    while i < x.len() && i < y.len() && x[i] == y[i]
        invariant
            x@ == a@,
            y@ == b@,
            i <= x.len(),
            i <= y.len(),
            name_lt(a@, b@) == name_lt(x@.skip(i as int), y@.skip(i as int)),
        decreases x.len() - i,
    {
        assert(x@.skip(i as int).drop_first() =~= x@.skip(i + 1));
        assert(y@.skip(i as int).drop_first() =~= y@.skip(i + 1));
        i += 1;
    }
    proof {
        if i < x.len() {
            assert(x@.skip(i as int)[0] == x@[i as int]);
        }
        if i < y.len() {
            assert(y@.skip(i as int)[0] == y@[i as int]);
        }
    }
    if i == x.len() {
        assert(x@.skip(i as int).len() == 0);
        i < y.len()
    } else if i == y.len() {
        assert(y@.skip(i as int).len() == 0);
        false
    } else {
        let c1 = x[i];
        let c2 = y[i];
        proof {
            lemma_char_code(c1);
            lemma_char_code(c2);
        }
        (c1 as u32) < (c2 as u32)
    }
}

/// Name equality.
fn name_eq(a: &String, b: &String) -> (r: bool)
    ensures
        r == (a@ == b@),
{
    crate::text::str_eq(a.as_str(), b.as_str())
}

// ── the specification of the order ──────────────────────────────────────

/// The covenant names, in declaration order.
pub open spec fn names_of(cs: Seq<Covenant>) -> Seq<Seq<char>> {
    cs.map_values(|c: Covenant| c.name@)
}

/// The edges as (parent, child) name pairs.
pub open spec fn links_of(es: Seq<LineageEdge>) -> Seq<(Seq<char>, Seq<char>)> {
    es.map_values(|e: LineageEdge| (e.parent@, e.child@))
}

/// The name of the first unknown endpoint among edges `i..`: an edge's
/// parent is looked at before its child.
pub open spec fn first_unknown(
    names: Seq<Seq<char>>,
    links: Seq<(Seq<char>, Seq<char>)>,
    i: int,
) -> Option<Seq<char>>
    decreases links.len() - i,
{
    if i < 0 || i >= links.len() {
        None
    } else if !names.contains(links[i].0) {
        Some(links[i].0)
    } else if !names.contains(links[i].1) {
        Some(links[i].1)
    } else {
        first_unknown(names, links, i + 1)
    }
}

/// `n` can be placed after `placed`: it is a covenant, not yet placed, and
/// every parent it has is placed.
pub open spec fn ready(
    names: Seq<Seq<char>>,
    links: Seq<(Seq<char>, Seq<char>)>,
    placed: Seq<Seq<char>>,
    n: Seq<char>,
) -> bool {
    &&& names.contains(n)
    &&& !placed.contains(n)
    &&& forall|k: int| 0 <= k < links.len() && #[trigger] links[k].1 == n ==> placed.contains(links[k].0)
}

/// Every element of `o` was ready when it was placed and was the smallest
/// ready name at that point.
pub open spec fn greedy(
    names: Seq<Seq<char>>,
    links: Seq<(Seq<char>, Seq<char>)>,
    o: Seq<Seq<char>>,
) -> bool {
    forall|i: int|
        0 <= i < o.len() ==> {
            &&& ready(names, links, o.take(i), #[trigger] o[i])
            &&& forall|n: Seq<char>| ready(names, links, o.take(i), n) ==> !name_lt(n, o[i])
        }
}

/// Nothing is ready after `o`.
pub open spec fn stuck(
    names: Seq<Seq<char>>,
    links: Seq<(Seq<char>, Seq<char>)>,
    o: Seq<Seq<char>>,
) -> bool {
    forall|n: Seq<char>| !ready(names, links, o, n)
}

/// The deploy order of Kahn's algorithm: placed greedily until stuck.
pub open spec fn kahn_order(
    names: Seq<Seq<char>>,
    links: Seq<(Seq<char>, Seq<char>)>,
    o: Seq<Seq<char>>,
) -> bool {
    greedy(names, links, o) && stuck(names, links, o)
}

/// The result `deploy_order` gives, over the names and links.
pub open spec fn deploy_result(
    names: Seq<Seq<char>>,
    links: Seq<(Seq<char>, Seq<char>)>,
    r: Result<Seq<Seq<char>>, PlanError>,
) -> bool {
    if names.len() == 0 {
        r == Result::<Seq<Seq<char>>, PlanError>::Err(PlanError::Empty)
    } else {
        match first_unknown(names, links, 0) {
            Some(n) => r matches Err(PlanError::UnknownCovenant(m)) && m@ == n,
            None => match r {
                Ok(o) => kahn_order(names, links, o) && o.len() == names.len(),
                Err(e) => e == PlanError::Cycle && exists|o: Seq<Seq<char>>|
                    kahn_order(names, links, o) && o.len() != names.len(),
            },
        }
    }
}

// ── laws ────────────────────────────────────────────────────────────────

/// Two greedy orders agree on their first `i` names.
pub proof fn lemma_greedy_prefix(
    names: Seq<Seq<char>>,
    links: Seq<(Seq<char>, Seq<char>)>,
    o1: Seq<Seq<char>>,
    o2: Seq<Seq<char>>,
    i: int,
)
    requires
        greedy(names, links, o1),
        greedy(names, links, o2),
        0 <= i <= o1.len(),
        i <= o2.len(),
    ensures
        o1.take(i) == o2.take(i),
    decreases i,
{
    if i > 0 {
        lemma_greedy_prefix(names, links, o1, o2, i - 1);
        let a = o1[i - 1];
        let b = o2[i - 1];
        assert(ready(names, links, o1.take(i - 1), a));
        assert(ready(names, links, o2.take(i - 1), b));
        lemma_name_lt_total(a, b);
        assert(o1.take(i) =~= o1.take(i - 1).push(a));
        assert(o2.take(i) =~= o2.take(i - 1).push(b));
    } else {
        assert(o1.take(0) =~= o2.take(0));
    }
}

/// The greedy order is determined: two greedy placements that both end
/// stuck are the same sequence.
pub proof fn lemma_kahn_order_unique(
    names: Seq<Seq<char>>,
    links: Seq<(Seq<char>, Seq<char>)>,
    o1: Seq<Seq<char>>,
    o2: Seq<Seq<char>>,
)
    requires
        kahn_order(names, links, o1),
        kahn_order(names, links, o2),
    ensures
        o1 == o2,
{
    let m = if o1.len() < o2.len() {
        o1.len() as int
    } else {
        o2.len() as int
    };
    lemma_greedy_prefix(names, links, o1, o2, m);
    if o1.len() < o2.len() {
        assert(o1.take(m) =~= o1);
        assert(ready(names, links, o2.take(m), o2[m]));
    } else if o2.len() < o1.len() {
        assert(o2.take(m) =~= o2);
        assert(ready(names, links, o1.take(m), o1[m]));
    } else {
        assert(o1.take(m) =~= o1);
        assert(o2.take(m) =~= o2);
    }
}

/// In a deploy order every parent comes before each of its children.
pub proof fn lemma_parent_before_child(
    names: Seq<Seq<char>>,
    links: Seq<(Seq<char>, Seq<char>)>,
    o: Seq<Seq<char>>,
    k: int,
    j: int,
)
    requires
        greedy(names, links, o),
        0 <= k < links.len(),
        0 <= j < o.len(),
        o[j] == links[k].1,
    ensures
        exists|i: int| 0 <= i < j && o[i] == links[k].0,
{
    assert(ready(names, links, o.take(j), o[j]));
    assert(o.take(j).contains(links[k].0));
    let i = choose|i: int| 0 <= i < o.take(j).len() && o.take(j)[i] == links[k].0;
    assert(o[i] == links[k].0);
}

/// A greedy order never repeats a name and only places covenant names.
pub proof fn lemma_greedy_distinct(
    names: Seq<Seq<char>>,
    links: Seq<(Seq<char>, Seq<char>)>,
    o: Seq<Seq<char>>,
)
    requires
        greedy(names, links, o),
    ensures
        o.no_duplicates(),
        forall|i: int| 0 <= i < o.len() ==> names.contains(#[trigger] o[i]),
{
    assert forall|i: int, j: int| 0 <= i < j < o.len() implies o[i] != o[j] by {
        assert(ready(names, links, o.take(j), o[j]));
        assert(o.take(j)[i] == o[i]);
    }
    assert forall|i: int| 0 <= i < o.len() implies names.contains(#[trigger] o[i]) by {
        assert(ready(names, links, o.take(i), o[i]));
    }
}

/// A repeat-free sequence of covenant names is no longer than the list of
/// covenant names.
pub proof fn lemma_distinct_within(o: Seq<Seq<char>>, names: Seq<Seq<char>>)
    requires
        o.no_duplicates(),
        forall|i: int| 0 <= i < o.len() ==> names.contains(#[trigger] o[i]),
    ensures
        o.len() <= names.len(),
{
    o.unique_seq_to_set();
    names.lemma_cardinality_of_set();
    vstd::seq_lib::seq_to_set_is_finite(names);
    vstd::seq_lib::seq_to_set_is_finite(o);
    assert(o.to_set().subset_of(names.to_set()));
    vstd::set_lib::lemma_len_subset(o.to_set(), names.to_set());
}

/// A successful deploy order contains every covenant, exactly once.
pub proof fn lemma_order_is_permutation(
    names: Seq<Seq<char>>,
    links: Seq<(Seq<char>, Seq<char>)>,
    o: Seq<Seq<char>>,
)
    requires
        kahn_order(names, links, o),
        o.len() == names.len(),
    ensures
        o.no_duplicates(),
        forall|n: Seq<char>| names.contains(n) <==> o.contains(n),
{
    lemma_greedy_distinct(names, links, o);
    o.unique_seq_to_set();
    names.lemma_cardinality_of_set();
    vstd::seq_lib::seq_to_set_is_finite(names);
    vstd::seq_lib::seq_to_set_is_finite(o);
    assert(o.to_set().subset_of(names.to_set()));
    vstd::set_lib::lemma_len_subset(o.to_set(), names.to_set());
    assert(o.to_set().len() == names.to_set().len());
    vstd::set_lib::lemma_subset_equality(o.to_set(), names.to_set());
    assert forall|n: Seq<char>| names.contains(n) <==> o.contains(n) by {
        assert(names.to_set().contains(n) == names.contains(n));
        assert(o.to_set().contains(n) == o.contains(n));
    }
}

/// When the order gets stuck before placing every covenant, the lineage
/// has a cycle or a repeated name: the covenants left over all have a
/// parent among the left-over covenants.
pub proof fn lemma_stuck_has_cycle(
    names: Seq<Seq<char>>,
    links: Seq<(Seq<char>, Seq<char>)>,
    o: Seq<Seq<char>>,
)
    requires
        kahn_order(names, links, o),
        o.len() != names.len(),
        first_unknown(names, links, 0) is None,
    ensures
        !names.no_duplicates() || (exists|n: Seq<char>| names.contains(n) && !o.contains(n)) && (
        forall|n: Seq<char>|
            names.contains(n) && !o.contains(n) ==> exists|k: int|
                0 <= k < links.len() && links[k].1 == n && names.contains(links[k].0)
                    && !o.contains(links[k].0)),
{
    lemma_greedy_distinct(names, links, o);
    lemma_distinct_within(o, names);
    lemma_first_unknown_none(names, links, 0);
    if names.no_duplicates() {
        if forall|n: Seq<char>| names.contains(n) ==> o.contains(n) {
            lemma_distinct_within(names, o);
        }
        assert forall|n: Seq<char>| names.contains(n) && !o.contains(n) implies exists|k: int|
            0 <= k < links.len() && links[k].1 == n && names.contains(links[k].0) && !o.contains(
                links[k].0,
            ) by {
            assert(!ready(names, links, o, n));
        }
    }
}

/// A successful deploy order lists every covenant exactly once, and for
/// every lineage edge the parent is listed before the child.
pub proof fn law_deploy_order_sound(
    names: Seq<Seq<char>>,
    links: Seq<(Seq<char>, Seq<char>)>,
    o: Seq<Seq<char>>,
)
    requires
        deploy_result(names, links, Ok(o)),
    ensures
        o.no_duplicates(),
        forall|n: Seq<char>| names.contains(n) <==> o.contains(n),
        forall|k: int, j: int|
            0 <= k < links.len() && 0 <= j < o.len() && #[trigger] o[j] == #[trigger] links[k].1 ==> exists|
                i: int,
            |
                0 <= i < j && o[i] == links[k].0,
{
    lemma_order_is_permutation(names, links, o);
    assert forall|k: int, j: int|
        0 <= k < links.len() && 0 <= j < o.len() && #[trigger] o[j] == #[trigger] links[k].1 implies exists|
            i: int,
        |
            0 <= i < j && o[i] == links[k].0 by {
        lemma_parent_before_child(names, links, o, k, j);
    }
}

/// A refused deploy order names a real defect: an unknown endpoint, no
/// covenants, or covenants left over that each wait on a left-over parent
/// (a cycle) unless two covenants share a name.
pub proof fn law_deploy_cycle_witness(
    names: Seq<Seq<char>>,
    links: Seq<(Seq<char>, Seq<char>)>,
)
    requires
        deploy_result(names, links, Err(PlanError::Cycle)),
    ensures
        names.no_duplicates() ==> exists|o: Seq<Seq<char>>|
            kahn_order(names, links, o) && (exists|n: Seq<char>|
                names.contains(n) && !o.contains(n)) && forall|n: Seq<char>|
                names.contains(n) && !o.contains(n) ==> exists|k: int|
                    0 <= k < links.len() && links[k].1 == n && names.contains(links[k].0)
                        && !o.contains(links[k].0),
{
    let o = choose|o: Seq<Seq<char>>| kahn_order(names, links, o) && o.len() != names.len();
    lemma_stuck_has_cycle(names, links, o);
}

pub proof fn lemma_first_unknown_none(
    names: Seq<Seq<char>>,
    links: Seq<(Seq<char>, Seq<char>)>,
    i: int,
)
    requires
        0 <= i,
        first_unknown(names, links, i) is None,
    ensures
        forall|k: int|
            i <= k < links.len() ==> names.contains(#[trigger] links[k].0) && names.contains(
                links[k].1,
            ),
    decreases links.len() - i,
{
    if i < links.len() {
        lemma_first_unknown_none(names, links, i + 1);
    }
}

// ── construction ────────────────────────────────────────────────────────

impl Covenant {
    /// A covenant with no known ID yet (pre-deploy).
    pub fn new(name: &str, role: &str) -> (c: Covenant)
        ensures
            c.name@ == name@,
            c.role@ == role@,
            c.kov_id is None,
    {
        Covenant { name: String::from_str(name), role: String::from_str(role), kov_id: None }
    }

    /// The same covenant with its deployed ID filled in.
    pub fn with_kov_id(self, kov_id: String) -> (c: Covenant)
        ensures
            c.name == self.name,
            c.role == self.role,
            c.kov_id == Some(kov_id),
    {
        Covenant { name: self.name, role: self.role, kov_id: Some(kov_id) }
    }
}

impl LineageEdge {
    /// The edge `parent -> child` via `binding_field`.
    pub fn new(parent: &str, child: &str, binding_field: &str) -> (e: LineageEdge)
        ensures
            e.parent@ == parent@,
            e.child@ == child@,
            e.binding_field@ == binding_field@,
    {
        LineageEdge {
            parent: String::from_str(parent),
            child: String::from_str(child),
            binding_field: String::from_str(binding_field),
        }
    }
}

/// A copy of a covenant list.
fn copy_covenants(v: &Vec<Covenant>) -> (r: Vec<Covenant>)
    ensures
        r@ == v@,
{
    let mut r: Vec<Covenant> = Vec::new();
    let mut i: usize = 0;
    while i < v.len()
        invariant
            i <= v.len(),
            r@ == v@.take(i as int),
        decreases v.len() - i,
    {
        let c = &v[i];
        let kov = match &c.kov_id {
            Some(k) => Some(k.clone()),
            None => None,
        };
        r.push(Covenant { name: c.name.clone(), role: c.role.clone(), kov_id: kov });
        i += 1;
        assert(r@ =~= v@.take(i as int));
    }
    assert(v@.take(v.len() as int) =~= v@);
    r
}

/// A copy of an edge list.
fn copy_edges(v: &Vec<LineageEdge>) -> (r: Vec<LineageEdge>)
    ensures
        r@ == v@,
{
    let mut r: Vec<LineageEdge> = Vec::new();
    let mut i: usize = 0;
    while i < v.len()
        invariant
            i <= v.len(),
            r@ == v@.take(i as int),
        decreases v.len() - i,
    {
        let e = &v[i];
        r.push(
            LineageEdge {
                parent: e.parent.clone(),
                child: e.child.clone(),
                binding_field: e.binding_field.clone(),
            },
        );
        i += 1;
        assert(r@ =~= v@.take(i as int));
    }
    assert(v@.take(v.len() as int) =~= v@);
    r
}

// ── the deploy order ────────────────────────────────────────────────────

/// Whether some covenant is named `n`.
fn has_name(cs: &Vec<Covenant>, n: &String) -> (r: bool)
    ensures
        r == names_of(cs@).contains(n@),
{
    let mut i: usize = 0;
    while i < cs.len()
        invariant
            i <= cs.len(),
            forall|k: int| 0 <= k < i ==> cs@[k].name@ != n@,
        decreases cs.len() - i,
    {
        if name_eq(&cs[i].name, n) {
            assert(names_of(cs@)[i as int] == n@);
            return true;
        }
        i += 1;
    }
    false
}

/// Whether `n` is among `o`.
fn placed(o: &Vec<String>, n: &String) -> (r: bool)
    ensures
        r == strs_v(o@).contains(n@),
{
    let mut i: usize = 0;
    while i < o.len()
        invariant
            i <= o.len(),
            forall|k: int| 0 <= k < i ==> o@[k]@ != n@,
        decreases o.len() - i,
    {
        if name_eq(&o[i], n) {
            assert(strs_v(o@)[i as int] == n@);
            return true;
        }
        i += 1;
    }
    false
}

impl LineagePlan {
    /// A plan from an app name, its covenants and its lineage edges.
    pub fn new(app: &str, covenants: Vec<Covenant>, edges: Vec<LineageEdge>) -> (p: LineagePlan)
        ensures
            p.app@ == app@,
            p.covenants == covenants,
            p.edges == edges,
    {
        LineagePlan { app: String::from_str(app), covenants, edges }
    }

    /// Whether covenant `n` can be placed after `o`.
    fn is_ready(&self, o: &Vec<String>, n: &String) -> (r: bool)
        ensures
            r == ready(names_of(self.covenants@), links_of(self.edges@), strs_v(o@), n@),
    {
        if !has_name(&self.covenants, n) || placed(o, n) {
            return false;
        }
        let ghost links = links_of(self.edges@);
        let mut k: usize = 0;
        while k < self.edges.len()
            invariant
                k <= self.edges.len(),
                links == links_of(self.edges@),
                forall|j: int|
                    0 <= j < k && #[trigger] links[j].1 == n@ ==> strs_v(o@).contains(links[j].0),
            decreases self.edges.len() - k,
        {
            let e = &self.edges[k];
            assert(links[k as int] == (e.parent@, e.child@));
            if name_eq(&e.child, n) && !placed(o, &e.parent) {
                assert(links[k as int].1 == n@);
                return false;
            }
            k += 1;
        }
        true
    }

    /// The deploy order: every parent before each of its children.
    ///
    /// `Empty` when there are no covenants; `UnknownCovenant` naming the
    /// first unknown endpoint (an edge's parent before its child, edges in
    /// order); otherwise the greedy Kahn order ([`kahn_order`]), which is
    /// `Ok` exactly when it places every covenant and `Cycle` otherwise.
    pub fn deploy_order(&self) -> (r: Result<Vec<String>, PlanError>)
        ensures
            deploy_result(
                names_of(self.covenants@),
                links_of(self.edges@),
                match r {
                    Ok(v) => Ok(strs_v(v@)),
                    Err(e) => Err(e),
                },
            ),
    {
        let ghost names = names_of(self.covenants@);
        let ghost links = links_of(self.edges@);
        assert(names.len() == self.covenants.len());
        if self.covenants.len() == 0 {
            return Err(PlanError::Empty);
        }
        let mut k: usize = 0;
        while k < self.edges.len()
            invariant
                k <= self.edges.len(),
                names.len() == self.covenants.len(),
                names.len() > 0,
                names == names_of(self.covenants@),
                links == links_of(self.edges@),
                first_unknown(names, links, 0) == first_unknown(names, links, k as int),
            decreases self.edges.len() - k,
        {
            let e = &self.edges[k];
            assert(links[k as int] == (e.parent@, e.child@));
            if !has_name(&self.covenants, &e.parent) {
                return Err(PlanError::UnknownCovenant(e.parent.clone()));
            }
            if !has_name(&self.covenants, &e.child) {
                return Err(PlanError::UnknownCovenant(e.child.clone()));
            }
            k += 1;
        }
        let mut order: Vec<String> = Vec::new();
        assert(strs_v(order@) =~= seq![]);
        loop
            invariant
                names == names_of(self.covenants@),
                links == links_of(self.edges@),
                names.len() == self.covenants.len(),
                greedy(names, links, strs_v(order@)),
                order.len() <= self.covenants.len(),
            ensures
                names == names_of(self.covenants@),
                links == links_of(self.edges@),
                names.len() == self.covenants.len(),
                kahn_order(names, links, strs_v(order@)),
            decreases self.covenants.len() - order.len(),
        {
            let ghost o = strs_v(order@);
            let mut best: Option<usize> = None;
            let mut i: usize = 0;
            while i < self.covenants.len()
                invariant
                    i <= self.covenants.len(),
                    names == names_of(self.covenants@),
                    links == links_of(self.edges@),
                    o == strs_v(order@),
                    match best {
                        Some(b) => b < i && ready(names, links, o, names[b as int]) && forall|
                            j: int,
                        |
                            0 <= j < i && ready(names, links, o, #[trigger] names[j]) ==> !name_lt(
                                names[j],
                                names[b as int],
                            ),
                        None => forall|j: int|
                            0 <= j < i ==> !ready(names, links, o, #[trigger] names[j]),
                    },
                decreases self.covenants.len() - i,
            {
                let cand = &self.covenants[i].name;
                assert(names[i as int] == cand@);
                if self.is_ready(&order, cand) {
                    match best {
                        None => {
                            proof {
                                lemma_name_lt_irreflexive(names[i as int]);
                            }
                            best = Some(i);
                        },
                        Some(b) => {
                            if name_less(cand, &self.covenants[b].name) {
                                proof {
                                    assert forall|j: int|
                                        0 <= j < i && ready(
                                            names,
                                            links,
                                            o,
                                            #[trigger] names[j],
                                        ) implies !name_lt(names[j], names[i as int]) by {
                                        if name_lt(names[j], names[i as int]) {
                                            lemma_name_lt_transitive(
                                                names[j],
                                                names[i as int],
                                                names[b as int],
                                            );
                                        }
                                    }
                                    lemma_name_lt_irreflexive(names[i as int]);
                                }
                                best = Some(i);
                            } else {
                                proof {
                                    lemma_name_lt_irreflexive(names[b as int]);
                                }
                            }
                        },
                    }
                } else {
                    proof {
                        if best is Some {
                            lemma_name_lt_irreflexive(names[best->0 as int]);
                        }
                    }
                }
                i += 1;
            }
            match best {
                None => {
                    proof {
                        assert forall|n: Seq<char>| !ready(names, links, o, n) by {
                            if ready(names, links, o, n) {
                                let j = choose|j: int| 0 <= j < names.len() && names[j] == n;
                                assert(!ready(names, links, o, names[j]));
                            }
                        }
                    }
                    break ;
                },
                Some(b) => {
                    let nm = self.covenants[b].name.clone();
                    proof {
                        assert forall|n: Seq<char>| ready(names, links, o, n) implies !name_lt(
                            n,
                            names[b as int],
                        ) by {
                            let j = choose|j: int| 0 <= j < names.len() && names[j] == n;
                            assert(ready(names, links, o, names[j]));
                        }
                        lemma_strs_push(order@, nm);
                        let o2 = o.push(nm@);
                        assert(o2.take(o.len() as int) =~= o);
                        assert forall|i2: int| 0 <= i2 < o2.len() implies {
                            &&& ready(names, links, o2.take(i2), #[trigger] o2[i2])
                            &&& forall|n: Seq<char>|
                                ready(names, links, o2.take(i2), n) ==> !name_lt(n, o2[i2])
                        } by {
                            if i2 < o.len() {
                                assert(o2.take(i2) =~= o.take(i2));
                            }
                        }
                        lemma_greedy_distinct(names, links, o2);
                        lemma_distinct_within(o2, names);
                    }
                    order.push(nm);
                },
            }
        }
        proof {
            lemma_first_unknown_none(names, links, 0);
        }
        if order.len() != self.covenants.len() {
            assert(kahn_order(names, links, strs_v(order@)) && strs_v(order@).len() != names.len());
            return Err(PlanError::Cycle);
        }
        Ok(order)
    }

    /// The deploy manifest: the plan with its deploy order.
    pub fn manifest(&self) -> (r: Result<DeployManifest, PlanError>)
        ensures
            match r {
                Ok(m) => m.app == self.app && m.covenants@ == self.covenants@ && m.edges@
                    == self.edges@ && deploy_result(
                    names_of(self.covenants@),
                    links_of(self.edges@),
                    Ok(strs_v(m.order@)),
                ),
                Err(e) => deploy_result(
                    names_of(self.covenants@),
                    links_of(self.edges@),
                    Err(e),
                ),
            },
    {
        let order = self.deploy_order()?;
        Ok(
            DeployManifest {
                app: self.app.clone(),
                order,
                covenants: copy_covenants(&self.covenants),
                edges: copy_edges(&self.edges),
            },
        )
    }
}

// ── the manifest as JSON ────────────────────────────────────────────────

/// The JSON escape of one character.
pub open spec fn json_escape(c: char) -> Seq<char> {
    if c == '"' {
        seq!['\\', '"']
    } else if c == '\\' {
        seq!['\\', '\\']
    } else if c == '\n' {
        seq!['\\', 'n']
    } else if c == '\r' {
        seq!['\\', 'r']
    } else if c == '\t' {
        seq!['\\', 't']
    } else {
        seq![c]
    }
}

/// The JSON escape of a string's characters.
pub open spec fn json_escaped(s: Seq<char>) -> Seq<char>
    decreases s.len(),
{
    if s.len() == 0 {
        seq![]
    } else {
        json_escaped(s.drop_last()) + json_escape(s.last())
    }
}

/// A JSON string literal.
pub open spec fn json_quote(s: Seq<char>) -> Seq<char> {
    seq!['"'] + json_escaped(s) + seq!['"']
}

/// The first `k` names as JSON strings, joined by `", "`.
pub open spec fn json_names(xs: Seq<Seq<char>>, k: int) -> Seq<char>
    decreases k,
{
    if k <= 0 || k > xs.len() {
        seq![]
    } else if k == 1 {
        json_quote(xs[0])
    } else {
        json_names(xs, k - 1) + ", "@ + json_quote(xs[k - 1])
    }
}

/// `null`, or the covenant ID as a JSON string.
pub open spec fn json_kov(k: Option<String>) -> Seq<char> {
    match k {
        Some(id) => json_quote(id@),
        None => "null"@,
    }
}

/// A trailing `,` unless this is the last item.
pub open spec fn json_comma(last: bool) -> Seq<char> {
    if last {
        seq![]
    } else {
        ","@
    }
}

/// The JSON line of one covenant.
pub open spec fn covenant_json(c: Covenant, last: bool) -> Seq<char> {
    "    { \"name\": "@ + json_quote(c.name@) + ", \"role\": "@ + json_quote(c.role@)
        + ", \"kov_id\": "@ + json_kov(c.kov_id) + " }"@ + json_comma(last) + "\n"@
}

/// The JSON lines of the first `k` covenants.
pub open spec fn covenants_json(cs: Seq<Covenant>, k: int) -> Seq<char>
    decreases k,
{
    if k <= 0 || k > cs.len() {
        seq![]
    } else {
        covenants_json(cs, k - 1) + covenant_json(cs[k - 1], k == cs.len())
    }
}

/// The JSON line of one lineage edge.
pub open spec fn edge_json(e: LineageEdge, last: bool) -> Seq<char> {
    "    { \"parent\": "@ + json_quote(e.parent@) + ", \"child\": "@ + json_quote(e.child@)
        + ", \"binding_field\": "@ + json_quote(e.binding_field@) + " }"@ + json_comma(last)
        + "\n"@
}

/// The JSON lines of the first `k` edges.
pub open spec fn edges_json(es: Seq<LineageEdge>, k: int) -> Seq<char>
    decreases k,
{
    if k <= 0 || k > es.len() {
        seq![]
    } else {
        edges_json(es, k - 1) + edge_json(es[k - 1], k == es.len())
    }
}

/// The manifest's JSON text.
pub open spec fn manifest_json(m: DeployManifest) -> Seq<char> {
    "{\n"@ + "  \"app\": "@ + json_quote(m.app@) + ",\n"@ + "  \"deploy_order\": ["@ + json_names(
        strs_v(m.order@),
        m.order@.len() as int,
    ) + "],\n"@ + "  \"covenants\": [\n"@ + covenants_json(m.covenants@, m.covenants@.len() as int)
        + "  ],\n"@ + "  \"lineage\": [\n"@ + edges_json(m.edges@, m.edges@.len() as int) + "  ]\n"@
        + "}\n"@
}

/// Appends `s` as a JSON string literal.
fn put_json_str(out: &mut String, s: &String)
    ensures
        final(out)@ == old(out)@ + json_quote(s@),
{
    let cs = chars_of(s.as_str());
    push_char(out, '"');
    let ghost start = out@;
    let mut i: usize = 0;
    while i < cs.len()
        invariant
            cs@ == s@,
            i <= cs.len(),
            out@ == start + json_escaped(cs@.take(i as int)),
        decreases cs.len() - i,
    {
        let c = cs[i];
        if c == '"' {
            push_char(out, '\\');
            push_char(out, '"');
        } else if c == '\\' {
            push_char(out, '\\');
            push_char(out, '\\');
        } else if c == '\n' {
            push_char(out, '\\');
            push_char(out, 'n');
        } else if c == '\r' {
            push_char(out, '\\');
            push_char(out, 'r');
        } else if c == '\t' {
            push_char(out, '\\');
            push_char(out, 't');
        } else {
            push_char(out, c);
        }
        assert(cs@.take(i + 1).drop_last() =~= cs@.take(i as int));
        i += 1;
        assert(out@ =~= start + json_escaped(cs@.take(i as int)));
    }
    assert(cs@.take(cs.len() as int) =~= cs@);
    push_char(out, '"');
    assert(out@ =~= old(out)@ + json_quote(s@));
}

/// A JSON string literal for `s`.
fn json_str(s: &String) -> (r: String)
    ensures
        r@ == json_quote(s@),
{
    let mut out = String::new();
    put_json_str(&mut out, s);
    assert(out@ =~= json_quote(s@));
    out
}

/// Appends the JSON line of a covenant.
fn put_covenant_json(s: &mut String, c: &Covenant, last: bool)
    ensures
        final(s)@ == old(s)@ + covenant_json(*c, last),
{
    put(s, "    { \"name\": ");
    put_json_str(s, &c.name);
    put(s, ", \"role\": ");
    put_json_str(s, &c.role);
    put(s, ", \"kov_id\": ");
    match &c.kov_id {
        Some(id) => put_json_str(s, id),
        None => put(s, "null"),
    }
    put(s, " }");
    if !last {
        put(s, ",");
    }
    put(s, "\n");
    assert(final(s)@ =~= old(s)@ + covenant_json(*c, last));
}

/// Appends the JSON line of a lineage edge.
fn put_edge_json(s: &mut String, e: &LineageEdge, last: bool)
    ensures
        final(s)@ == old(s)@ + edge_json(*e, last),
{
    put(s, "    { \"parent\": ");
    put_json_str(s, &e.parent);
    put(s, ", \"child\": ");
    put_json_str(s, &e.child);
    put(s, ", \"binding_field\": ");
    put_json_str(s, &e.binding_field);
    put(s, " }");
    if !last {
        put(s, ",");
    }
    put(s, "\n");
    assert(final(s)@ =~= old(s)@ + edge_json(*e, last));
}

impl DeployManifest {
    /// The manifest as stable JSON: the app, the deploy order, the covenants
    /// (with `kov_id` `null` until known) and the lineage edges.
    pub fn to_json(&self) -> (s: String)
        ensures
            s@ == manifest_json(*self),
    {
        let mut s = String::new();
        put(&mut s, "{\n");
        put(&mut s, "  \"app\": ");
        put_json_str(&mut s, &self.app);
        put(&mut s, ",\n");
        put(&mut s, "  \"deploy_order\": [");
        let ghost p0 = s@;
        let ghost ov = strs_v(self.order@);
        let mut i: usize = 0;
        while i < self.order.len()
            invariant
                i <= self.order.len(),
                ov == strs_v(self.order@),
                s@ == p0 + json_names(ov, i as int),
            decreases self.order.len() - i,
        {
            if i > 0 {
                put(&mut s, ", ");
            }
            put_json_str(&mut s, &self.order[i]);
            i += 1;
            assert(s@ =~= p0 + json_names(ov, i as int));
        }
        put(&mut s, "],\n");
        put(&mut s, "  \"covenants\": [\n");
        let ghost p1 = s@;
        let n = self.covenants.len();
        let mut i: usize = 0;
        while i < n
            invariant
                n == self.covenants.len(),
                i <= n,
                s@ == p1 + covenants_json(self.covenants@, i as int),
            decreases n - i,
        {
            put_covenant_json(&mut s, &self.covenants[i], i + 1 == n);
            i += 1;
            assert(s@ =~= p1 + covenants_json(self.covenants@, i as int));
        }
        put(&mut s, "  ],\n");
        put(&mut s, "  \"lineage\": [\n");
        let ghost p2 = s@;
        let m = self.edges.len();
        let mut i: usize = 0;
        while i < m
            invariant
                m == self.edges.len(),
                i <= m,
                s@ == p2 + edges_json(self.edges@, i as int),
            decreases m - i,
        {
            put_edge_json(&mut s, &self.edges[i], i + 1 == m);
            i += 1;
            assert(s@ =~= p2 + edges_json(self.edges@, i as int));
        }
        put(&mut s, "  ]\n");
        put(&mut s, "}\n");
        assert(s@ =~= manifest_json(*self));
        s
    }
}

} // verus!
