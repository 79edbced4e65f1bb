//! A first-order logic programming engine: formulas are turned into clauses
//! (implication elimination, negation normal form, quantifier pulling,
//! Skolemization, clause flattening), unified by a most general unifier with
//! occurs check, and queried by SLD resolution with built-in predicates.
use vstd::prelude::*;

pub mod ast;
pub mod builtins;
pub mod clause;
pub mod cnf;
pub mod display;
pub mod errors;
pub mod laws;
pub mod parser;
pub mod resolution;
pub mod skolem;
pub mod substitution;
pub mod symbols;
pub mod text;
pub mod unify;
