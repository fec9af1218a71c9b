//! The Portrait surface AST: a program is a pragma, `use` paths and one app;
//! an app declares roles (params, state fields, entrypoints), a lifecycle of
//! state edges, an optional flow of role handoffs, and invariants.

use vstd::prelude::*;
use crate::model::{expr_v, exprs_v, flow_v, flows_v, lemma_flows_extend, lemma_steps_extend, step_v, steps_v};
use crate::parser::lemma_exprs_v_extend;

verus! {

/// A parsed Portrait source file.
#[derive(Debug, Clone)]
pub struct Program {
    pub pragma: String,
    pub uses: Vec<String>,
    pub app: App,
}

/// The single `app Name { ... }` block of a program.
#[derive(Debug, Clone)]
pub struct App {
    pub name: String,
    pub roles: Vec<Role>,
    pub lifecycle: Vec<Edge>,
    pub flow: Option<Flow>,
    pub invariants: Vec<Invariant>,
}

/// A `role name [= Component] { ... }` block.
#[derive(Debug, Clone)]
pub struct Role {
    pub name: String,
    pub component: Option<String>,
    pub params: Vec<Param>,
    pub state: Vec<Field>,
    pub entrypoints: Vec<Entry>,
}

/// A typed state field.
#[derive(Debug, Clone)]
pub struct Field {
    pub name: String,
    pub ty: Type,
}

/// A role param or entrypoint argument.
#[derive(Debug, Clone)]
pub struct Param {
    pub name: String,
    pub ty: Type,
    pub default: Option<String>,
}

/// Surface types.
#[derive(Debug, PartialEq)]
pub enum Type {
    Int,
    Bool,
    PubKey,
    Sig,
    Bytes32,
    Coin,
    SetOf(Box<Type>),
    MapOf(Box<Type>, Box<Type>),
    Named(String),
}

/// How an entrypoint is projected: a covenant transition, a covenant
/// verification, or (no attribute) a non-covenant entrypoint.
#[derive(Debug, Clone, Copy, PartialEq, Eq, Structural)]
pub enum CovenantMode {
    Transition,
    Verification,
    NonCovenant,
}

/// An entrypoint. `requires` holds the rendered text of every `require`
/// guard of the body, in order. `supply_change` names the committed
/// authority of a declared supply-change capability, if any.
#[derive(Debug, Clone)]
pub struct Entry {
    pub name: String,
    pub mode: CovenantMode,
    pub args: Vec<Param>,
    pub returns: Option<Type>,
    pub requires: Vec<String>,
    pub body: Vec<Stmt>,
    pub supply_change: Option<String>,
}

/// The deadline operand of an `after(...)` time gate: one committed field,
/// or the sum of two.
#[derive(Debug, Clone, PartialEq)]
pub enum AfterDeadline {
    Field(String),
    Sum(String, String),
}

/// A body statement. `Raw` carries, verbatim, a statement the expression
/// grammar could not parse (an untyped hole). `Pays` binds a transaction
/// output to a committed payee and amount; `After` is a time gate.
#[derive(Debug, Clone, PartialEq)]
pub enum Stmt {
    Require(Expr),
    Return(ReturnExpr),
    Raw(String),
    Pays { index: usize, payee: String, amount: String },
    After { deadline: AfterDeadline },
}

/// Binary operators.
#[derive(Debug, Clone, Copy, PartialEq, Eq, Structural)]
pub enum BinOp {
    Add,
    Sub,
    Mul,
    Eq,
    Ne,
    Ge,
    Le,
    Gt,
    Lt,
    And,
    Or,
}

/// Unary operators.
#[derive(Debug, Clone, Copy, PartialEq, Eq, Structural)]
pub enum UnOp {
    Neg,
    Not,
}

/// Typed surface expressions.
#[derive(Debug, PartialEq)]
pub enum Expr {
    Int(i64),
    Bool(bool),
    Bytes(Vec<u8>),
    Var(String),
    Field { base: Box<Expr>, field: String },
    Index { base: Box<Expr>, index: Box<Expr> },
    Unary { op: UnOp, rhs: Box<Expr> },
    Binary { op: BinOp, lhs: Box<Expr>, rhs: Box<Expr> },
    Call { name: String, args: Vec<Expr> },
}

/// A `return`: a scalar expression, or an object literal with an optional
/// head name and ordered `(field, value)` pairs.
#[derive(Debug, Clone, PartialEq)]
pub enum ReturnExpr {
    Scalar(Expr),
    Object { name: Option<String>, fields: Vec<(String, Expr)> },
}

/// A lifecycle edge `from -> to via role.entry [terminal];`.
#[derive(Debug, Clone)]
pub struct Edge {
    pub from: String,
    pub to: String,
    pub via_role: String,
    pub via_entry: String,
    pub terminal: bool,
}

/// A `flow { ... }` step sequence.
#[derive(Debug)]
pub struct Flow {
    pub steps: Vec<Step>,
}

/// One flow step: a handoff, an internal choice, parallel threads, or a
/// bounded repetition.
#[derive(Debug)]
pub enum Step {
    Move { role: String, entry: String },
    Choose(Vec<Flow>),
    Par(Vec<Flow>),
    Repeat(u32, Box<Flow>),
}

/// A declared invariant. `TemporalPath` binds an entrypoint to carry a
/// matching `after(...)` gate.
#[derive(Debug, Clone)]
pub enum Invariant {
    ValueConserved,
    NoUndeclaredState,
    Custom(String),
    TemporalPath { name: String, entry: String, deadline: AfterDeadline },
}

impl Clone for Type {
    fn clone(&self) -> (r: Self)
        ensures
            r == *self,
        decreases self,
    {
        match self {
            Type::Int => Type::Int,
            Type::Bool => Type::Bool,
            Type::PubKey => Type::PubKey,
            Type::Sig => Type::Sig,
            Type::Bytes32 => Type::Bytes32,
            Type::Coin => Type::Coin,
            Type::SetOf(t) => Type::SetOf(Box::new((**t).clone())),
            Type::MapOf(k, v) => Type::MapOf(Box::new((**k).clone()), Box::new((**v).clone())),
            Type::Named(n) => Type::Named(n.clone()),
        }
    }
}

fn clone_exprs(v: &Vec<Expr>) -> (r: Vec<Expr>)
    ensures
        r.len() == v.len(),
        exprs_v(r@, r@.len() as int) == exprs_v(v@, v@.len() as int),
    decreases v,
{
    let mut r: Vec<Expr> = Vec::new();
    let mut i: usize = 0;
    while i < v.len()
        invariant
            i <= v.len(),
            r.len() == i,
            exprs_v(r@, i as int) == exprs_v(v@, i as int),
        decreases v.len() - i,
    {
        assert(decreases_to!(v => v@[i as int]));
        let c = v[i].clone();
        proof {
            lemma_exprs_v_extend(r@, c);
        }
        r.push(c);
        i += 1;
    }
    r
}

impl Clone for Expr {
    fn clone(&self) -> (r: Self)
        ensures
            expr_v(r) == expr_v(*self),
        decreases self,
    {
        match self {
            Expr::Int(n) => Expr::Int(*n),
            Expr::Bool(b) => Expr::Bool(*b),
            Expr::Bytes(b) => {
                let c = b.clone();
                assert(c@ =~= b@);
                Expr::Bytes(c)
            },
            Expr::Var(n) => Expr::Var(n.clone()),
            Expr::Field { base, field } => Expr::Field {
                base: Box::new((**base).clone()),
                field: field.clone(),
            },
            Expr::Index { base, index } => Expr::Index {
                base: Box::new((**base).clone()),
                index: Box::new((**index).clone()),
            },
            Expr::Unary { op, rhs } => Expr::Unary { op: *op, rhs: Box::new((**rhs).clone()) },
            Expr::Binary { op, lhs, rhs } => Expr::Binary {
                op: *op,
                lhs: Box::new((**lhs).clone()),
                rhs: Box::new((**rhs).clone()),
            },
            Expr::Call { name, args } => Expr::Call { name: name.clone(), args: clone_exprs(args) },
        }
    }
}

fn clone_flows(v: &Vec<Flow>) -> (r: Vec<Flow>)
    ensures
        r.len() == v.len(),
        flows_v(r@, r@.len() as int) == flows_v(v@, v@.len() as int),
    decreases v,
{
    let mut r: Vec<Flow> = Vec::new();
    let mut i: usize = 0;
    while i < v.len()
        invariant
            i <= v.len(),
            r.len() == i,
            flows_v(r@, i as int) == flows_v(v@, i as int),
        decreases v.len() - i,
    {
        assert(decreases_to!(v => v@[i as int]));
        let c = v[i].clone();
        proof {
            lemma_flows_extend(r@, c);
        }
        r.push(c);
        i += 1;
    }
    r
}

fn clone_steps(v: &Vec<Step>) -> (r: Vec<Step>)
    ensures
        r.len() == v.len(),
        steps_v(r@, r@.len() as int) == steps_v(v@, v@.len() as int),
    decreases v,
{
    let mut r: Vec<Step> = Vec::new();
    let mut i: usize = 0;
    while i < v.len()
        invariant
            i <= v.len(),
            r.len() == i,
            steps_v(r@, i as int) == steps_v(v@, i as int),
        decreases v.len() - i,
    {
        assert(decreases_to!(v => v@[i as int]));
        let c = v[i].clone();
        proof {
            lemma_steps_extend(r@, c);
        }
        r.push(c);
        i += 1;
    }
    r
}

impl Clone for Flow {
    fn clone(&self) -> (r: Self)
        ensures
            flow_v(r) == flow_v(*self),
        decreases self,
    {
        Flow { steps: clone_steps(&self.steps) }
    }
}

impl Clone for Step {
    fn clone(&self) -> (r: Self)
        ensures
            step_v(r) == step_v(*self),
        decreases self,
    {
        match self {
            Step::Move { role, entry } => Step::Move { role: role.clone(), entry: entry.clone() },
            Step::Choose(fs) => Step::Choose(clone_flows(fs)),
            Step::Par(fs) => Step::Par(clone_flows(fs)),
            Step::Repeat(n, f) => Step::Repeat(*n, Box::new((**f).clone())),
        }
    }
}

} // verus!
