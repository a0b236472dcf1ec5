//! A conflict-driven SAT solver for propositional formulas in conjunctive
//! normal form, with a checker for assignments and refutations.
pub mod answer;
pub mod cnf;
pub mod config;
pub mod dimacs;
pub mod driver;
pub mod eliminator;
pub mod heuristics;
pub mod restart;
pub mod rup;
pub mod solver;
pub mod validator;
