//! Scenario generation and replay scoring for a two-agent garbage-collection
//! planning problem.
//!
//! A scenario is a set of integer grid points in three categories (burnable,
//! non-burnable, recyclable), placed by a clustered sampler under domain,
//! minimum-spacing and quadrant-coverage constraints.  A candidate solution is
//! an ordered list of agent frames; replaying it against a scenario removes
//! the points swept by each agent and produces a score from the elapsed time.

pub mod gen;
pub mod geom;
pub mod model;
pub mod num;
pub mod parse;
pub mod sim;
pub mod text;
