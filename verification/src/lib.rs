//! A deduction engine for finite-domain constraint puzzles.
//!
//! A puzzle is compiled into a Boolean satisfiability problem whose literals
//! keep their puzzle-level meaning.  The engine finds the facts that follow
//! logically from the current state, justifies each one by a minimal
//! unsatisfiable subset (MUS) of the puzzle's constraints, and arranges the
//! deductions into a step-by-step solution plan.

pub mod cnf;
pub mod connect;
pub mod litvec;
pub mod model;
pub mod musdict;
pub mod params;
pub mod parse;
pub mod planner;
pub mod puzzle;
pub mod rng;
pub mod satcore;
pub mod solver;
pub mod strutil;
pub mod timer;
