//! The mathematical model of the AST: every executable AST value has a view
//! in which names are character sequences and vectors are sequences. The
//! parser's and checker's contracts are stated over these views.

use vstd::prelude::*;
use crate::ast::{
    AfterDeadline, App, BinOp, CovenantMode, Edge, Entry, Expr, Field, Flow, Invariant, Param,
    Program, ReturnExpr, Role, Step, Stmt, Type, UnOp,
};

verus! {

/// Model of [`Type`].
pub enum SType {
    Int,
    Bool,
    PubKey,
    Sig,
    Bytes32,
    Coin,
    SetOf(Box<SType>),
    MapOf(Box<SType>, Box<SType>),
    Named(Seq<char>),
}

/// Model of [`Expr`].
pub enum SExpr {
    Int(i64),
    Bool(bool),
    Bytes(Seq<u8>),
    Var(Seq<char>),
    Field(Box<SExpr>, Seq<char>),
    Index(Box<SExpr>, Box<SExpr>),
    Unary(UnOp, Box<SExpr>),
    Binary(BinOp, Box<SExpr>, Box<SExpr>),
    Call(Seq<char>, Seq<SExpr>),
}

/// Model of [`ReturnExpr`].
pub enum SReturn {
    Scalar(SExpr),
    Object(Option<Seq<char>>, Seq<(Seq<char>, SExpr)>),
}

/// Model of [`AfterDeadline`].
pub enum SDeadline {
    Field(Seq<char>),
    Sum(Seq<char>, Seq<char>),
}

/// Model of [`Stmt`].
pub enum SStmt {
    Require(SExpr),
    Return(SReturn),
    Raw(Seq<char>),
    Pays(int, Seq<char>, Seq<char>),
    After(SDeadline),
}

/// Model of [`Param`] (name, type, default).
pub struct SParam {
    pub name: Seq<char>,
    pub ty: SType,
    pub default: Option<Seq<char>>,
}

/// Model of [`Field`].
pub struct SField {
    pub name: Seq<char>,
    pub ty: SType,
}

/// Model of [`Entry`].
pub struct SEntry {
    pub name: Seq<char>,
    pub mode: CovenantMode,
    pub args: Seq<SParam>,
    pub returns: Option<SType>,
    pub requires: Seq<Seq<char>>,
    pub body: Seq<SStmt>,
    pub supply_change: Option<Seq<char>>,
}

/// Model of [`Role`].
pub struct SRole {
    pub name: Seq<char>,
    pub component: Option<Seq<char>>,
    pub params: Seq<SParam>,
    pub state: Seq<SField>,
    pub entrypoints: Seq<SEntry>,
}

/// Model of [`Edge`].
pub struct SEdge {
    pub from: Seq<char>,
    pub to: Seq<char>,
    pub via_role: Seq<char>,
    pub via_entry: Seq<char>,
    pub terminal: bool,
}

/// Model of [`Flow`].
pub struct SFlow {
    pub steps: Seq<SStep>,
}

/// Model of [`Step`].
pub enum SStep {
    Move(Seq<char>, Seq<char>),
    Choose(Seq<SFlow>),
    Par(Seq<SFlow>),
    Repeat(u32, Box<SFlow>),
}

/// Model of [`Invariant`].
pub enum SInvariant {
    ValueConserved,
    NoUndeclaredState,
    Custom(Seq<char>),
    TemporalPath(Seq<char>, Seq<char>, SDeadline),
}

/// Model of [`App`].
pub struct SApp {
    pub name: Seq<char>,
    pub roles: Seq<SRole>,
    pub lifecycle: Seq<SEdge>,
    pub flow: Option<SFlow>,
    pub invariants: Seq<SInvariant>,
}

/// Model of [`Program`].
pub struct SProgram {
    pub pragma: Seq<char>,
    pub uses: Seq<Seq<char>>,
    pub app: SApp,
}

// ── views ───────────────────────────────────────────────────────────────

pub open spec fn type_v(t: Type) -> SType
    decreases t,
{
    match t {
        Type::Int => SType::Int,
        Type::Bool => SType::Bool,
        Type::PubKey => SType::PubKey,
        Type::Sig => SType::Sig,
        Type::Bytes32 => SType::Bytes32,
        Type::Coin => SType::Coin,
        Type::SetOf(b) => SType::SetOf(Box::new(type_v(*b))),
        Type::MapOf(k, v) => SType::MapOf(Box::new(type_v(*k)), Box::new(type_v(*v))),
        Type::Named(n) => SType::Named(n@),
    }
}

pub open spec fn expr_v(e: Expr) -> SExpr
    decreases e, 0nat,
{
    match e {
        Expr::Int(n) => SExpr::Int(n),
        Expr::Bool(b) => SExpr::Bool(b),
        Expr::Bytes(b) => SExpr::Bytes(b@),
        Expr::Var(n) => SExpr::Var(n@),
        Expr::Field { base, field } => SExpr::Field(Box::new(expr_v(*base)), field@),
        Expr::Index { base, index } => SExpr::Index(
            Box::new(expr_v(*base)),
            Box::new(expr_v(*index)),
        ),
        Expr::Unary { op, rhs } => SExpr::Unary(op, Box::new(expr_v(*rhs))),
        Expr::Binary { op, lhs, rhs } => SExpr::Binary(
            op,
            Box::new(expr_v(*lhs)),
            Box::new(expr_v(*rhs)),
        ),
        Expr::Call { name, args } => SExpr::Call(name@, exprs_v(args@, args@.len() as int)),
    }
}

/// The views of the first `n` expressions of `s`.
pub open spec fn exprs_v(s: Seq<Expr>, n: int) -> Seq<SExpr>
    decreases s, n,
{
    if n <= 0 || n > s.len() {
        Seq::empty()
    } else {
        exprs_v(s, n - 1).push(expr_v(s[n - 1]))
    }
}

pub open spec fn return_v(r: ReturnExpr) -> SReturn {
    match r {
        ReturnExpr::Scalar(e) => SReturn::Scalar(expr_v(e)),
        ReturnExpr::Object { name, fields } => SReturn::Object(
            match name {
                Some(n) => Some(n@),
                None => None,
            },
            pairs_v(fields@),
        ),
    }
}

pub open spec fn deadline_v(d: AfterDeadline) -> SDeadline {
    match d {
        AfterDeadline::Field(f) => SDeadline::Field(f@),
        AfterDeadline::Sum(a, b) => SDeadline::Sum(a@, b@),
    }
}

pub open spec fn stmt_v(s: Stmt) -> SStmt {
    match s {
        Stmt::Require(e) => SStmt::Require(expr_v(e)),
        Stmt::Return(r) => SStmt::Return(return_v(r)),
        Stmt::Raw(t) => SStmt::Raw(t@),
        Stmt::Pays { index, payee, amount } => SStmt::Pays(index as int, payee@, amount@),
        Stmt::After { deadline } => SStmt::After(deadline_v(deadline)),
    }
}

pub open spec fn opt_str_v(o: Option<String>) -> Option<Seq<char>> {
    match o {
        Some(s) => Some(s@),
        None => None,
    }
}

pub open spec fn param_v(p: Param) -> SParam {
    SParam { name: p.name@, ty: type_v(p.ty), default: opt_str_v(p.default) }
}

pub open spec fn field_v(f: Field) -> SField {
    SField { name: f.name@, ty: type_v(f.ty) }
}

pub open spec fn entry_v(e: Entry) -> SEntry {
    SEntry {
        name: e.name@,
        mode: e.mode,
        args: params_v(e.args@),
        returns: match e.returns {
            Some(t) => Some(type_v(t)),
            None => None,
        },
        requires: strs_v(e.requires@),
        body: stmts_v(e.body@),
        supply_change: opt_str_v(e.supply_change),
    }
}

pub open spec fn role_v(r: Role) -> SRole {
    SRole {
        name: r.name@,
        component: opt_str_v(r.component),
        params: params_v(r.params@),
        state: fields_v(r.state@),
        entrypoints: entries_v(r.entrypoints@),
    }
}

pub open spec fn edge_v(e: Edge) -> SEdge {
    SEdge {
        from: e.from@,
        to: e.to@,
        via_role: e.via_role@,
        via_entry: e.via_entry@,
        terminal: e.terminal,
    }
}

pub open spec fn flow_v(f: Flow) -> SFlow
    decreases f, 1nat,
{
    SFlow { steps: steps_v(f.steps@, f.steps@.len() as int) }
}

/// The views of the first `n` steps of `s`.
pub open spec fn steps_v(s: Seq<Step>, n: int) -> Seq<SStep>
    decreases s, n,
{
    if n <= 0 || n > s.len() {
        Seq::empty()
    } else {
        steps_v(s, n - 1).push(step_v(s[n - 1]))
    }
}

pub open spec fn step_v(s: Step) -> SStep
    decreases s, 0nat,
{
    match s {
        Step::Move { role, entry } => SStep::Move(role@, entry@),
        Step::Choose(fs) => SStep::Choose(flows_v(fs@, fs@.len() as int)),
        Step::Par(fs) => SStep::Par(flows_v(fs@, fs@.len() as int)),
        Step::Repeat(n, f) => SStep::Repeat(n, Box::new(flow_v(*f))),
    }
}

/// The views of the first `n` flows of `s`.
pub open spec fn flows_v(s: Seq<Flow>, n: int) -> Seq<SFlow>
    decreases s, n,
{
    if n <= 0 || n > s.len() {
        Seq::empty()
    } else {
        flows_v(s, n - 1).push(flow_v(s[n - 1]))
    }
}

pub open spec fn invariant_v(i: Invariant) -> SInvariant {
    match i {
        Invariant::ValueConserved => SInvariant::ValueConserved,
        Invariant::NoUndeclaredState => SInvariant::NoUndeclaredState,
        Invariant::Custom(s) => SInvariant::Custom(s@),
        Invariant::TemporalPath { name, entry, deadline } => SInvariant::TemporalPath(
            name@,
            entry@,
            deadline_v(deadline),
        ),
    }
}

pub open spec fn app_v(a: App) -> SApp {
    SApp {
        name: a.name@,
        roles: roles_v(a.roles@),
        lifecycle: edges_v(a.lifecycle@),
        flow: match a.flow {
            Some(f) => Some(flow_v(f)),
            None => None,
        },
        invariants: invariants_v(a.invariants@),
    }
}

pub open spec fn program_v(p: Program) -> SProgram {
    SProgram {
        pragma: p.pragma@,
        uses: strs_v(p.uses@),
        app: app_v(p.app),
    }
}

// ── views of sequences ──────────────────────────────────────────────────

pub open spec fn pairs_v(s: Seq<(String, Expr)>) -> Seq<(Seq<char>, SExpr)> {
    s.map_values(|p: (String, Expr)| (p.0@, expr_v(p.1)))
}

pub open spec fn strs_v(s: Seq<String>) -> Seq<Seq<char>> {
    s.map_values(|x: String| x@)
}

pub open spec fn params_v(s: Seq<Param>) -> Seq<SParam> {
    s.map_values(|p: Param| param_v(p))
}

pub open spec fn fields_v(s: Seq<Field>) -> Seq<SField> {
    s.map_values(|f: Field| field_v(f))
}

pub open spec fn stmts_v(s: Seq<Stmt>) -> Seq<SStmt> {
    s.map_values(|x: Stmt| stmt_v(x))
}

pub open spec fn entries_v(s: Seq<Entry>) -> Seq<SEntry> {
    s.map_values(|e: Entry| entry_v(e))
}

pub open spec fn roles_v(s: Seq<Role>) -> Seq<SRole> {
    s.map_values(|r: Role| role_v(r))
}

pub open spec fn edges_v(s: Seq<Edge>) -> Seq<SEdge> {
    s.map_values(|e: Edge| edge_v(e))
}

pub open spec fn invariants_v(s: Seq<Invariant>) -> Seq<SInvariant> {
    s.map_values(|i: Invariant| invariant_v(i))
}

pub proof fn lemma_pairs_push(s: Seq<(String, Expr)>, x: (String, Expr))
    ensures
        pairs_v(s.push(x)) == pairs_v(s).push((x.0@, expr_v(x.1))),
{
    assert(pairs_v(s.push(x)) =~= pairs_v(s).push((x.0@, expr_v(x.1))));
}

pub proof fn lemma_strs_push(s: Seq<String>, x: String)
    ensures
        strs_v(s.push(x)) == strs_v(s).push(x@),
{
    assert(strs_v(s.push(x)) =~= strs_v(s).push(x@));
}

pub proof fn lemma_params_push(s: Seq<Param>, x: Param)
    ensures
        params_v(s.push(x)) == params_v(s).push(param_v(x)),
{
    assert(params_v(s.push(x)) =~= params_v(s).push(param_v(x)));
}

pub proof fn lemma_fields_push(s: Seq<Field>, x: Field)
    ensures
        fields_v(s.push(x)) == fields_v(s).push(field_v(x)),
{
    assert(fields_v(s.push(x)) =~= fields_v(s).push(field_v(x)));
}

pub proof fn lemma_stmts_push(s: Seq<Stmt>, x: Stmt)
    ensures
        stmts_v(s.push(x)) == stmts_v(s).push(stmt_v(x)),
{
    assert(stmts_v(s.push(x)) =~= stmts_v(s).push(stmt_v(x)));
}

pub proof fn lemma_entries_push(s: Seq<Entry>, x: Entry)
    ensures
        entries_v(s.push(x)) == entries_v(s).push(entry_v(x)),
{
    assert(entries_v(s.push(x)) =~= entries_v(s).push(entry_v(x)));
}

pub proof fn lemma_roles_push(s: Seq<Role>, x: Role)
    ensures
        roles_v(s.push(x)) == roles_v(s).push(role_v(x)),
{
    assert(roles_v(s.push(x)) =~= roles_v(s).push(role_v(x)));
}

pub proof fn lemma_edges_push(s: Seq<Edge>, x: Edge)
    ensures
        edges_v(s.push(x)) == edges_v(s).push(edge_v(x)),
{
    assert(edges_v(s.push(x)) =~= edges_v(s).push(edge_v(x)));
}

pub proof fn lemma_invariants_push(s: Seq<Invariant>, x: Invariant)
    ensures
        invariants_v(s.push(x)) == invariants_v(s).push(invariant_v(x)),
{
    assert(invariants_v(s.push(x)) =~= invariants_v(s).push(invariant_v(x)));
}

pub proof fn lemma_steps_v_push(s: Seq<Step>, x: Step, n: int)
    requires
        0 <= n <= s.len(),
    ensures
        steps_v(s.push(x), n) == steps_v(s, n),
    decreases n,
{
    if n > 0 {
        lemma_steps_v_push(s, x, n - 1);
    }
}

pub proof fn lemma_steps_extend(s: Seq<Step>, x: Step)
    ensures
        steps_v(s.push(x), s.len() + 1int) == steps_v(s, s.len() as int).push(step_v(x)),
{
    lemma_steps_v_push(s, x, s.len() as int);
}

pub proof fn lemma_flows_v_push(s: Seq<Flow>, x: Flow, n: int)
    requires
        0 <= n <= s.len(),
    ensures
        flows_v(s.push(x), n) == flows_v(s, n),
    decreases n,
{
    if n > 0 {
        lemma_flows_v_push(s, x, n - 1);
    }
}

pub proof fn lemma_flows_extend(s: Seq<Flow>, x: Flow)
    ensures
        flows_v(s.push(x), s.len() + 1int) == flows_v(s, s.len() as int).push(flow_v(x)),
{
    lemma_flows_v_push(s, x, s.len() as int);
}

} // verus!
