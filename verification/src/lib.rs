//! Portrait: the covenant language front end (tokenizer, parser, AST),
//! its structural checker, and the deploy-order planner, with their
//! behaviour stated as Verus contracts.

pub mod adjust;
pub mod advisor;
pub mod authority;
pub mod ast;
pub mod checker;
pub mod clauses;
pub mod encode;
pub mod conserve;
pub mod gates;
pub mod grammar;
pub mod lexer;
pub mod lookup;
pub mod model;
pub mod obligations;
pub mod parser;
pub mod plan;
pub mod pounce;
pub mod refine;
pub mod rejection;
pub mod render;
pub mod settle;
pub mod sexpr;
pub mod smt;
pub mod solve;
pub mod structure;
pub mod text;
pub mod translation;
pub mod typing;
pub mod validate;
pub mod vc;

use vstd::prelude::*;

verus! {

} // verus!
