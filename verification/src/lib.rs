//! Verified core of a declarative task runner.
//!
//! A configuration names "targets", each with a command template, optional
//! dependencies, optional local variables and optional wildcard value lists.
//! The modules below hold the task-graph logic: dependency-cycle detection,
//! three-tier variable resolution, wildcard expansion into concrete command
//! strings, and the ordered execution plan with failure propagation.
//!
//! Command strings are modelled as byte strings (`Vec<u8>`); the thin
//! unverified front end converts between `String` and bytes, parses the
//! configuration file, and spawns the shell commands that the functions here
//! ask for.

pub mod bytes;
pub mod config;
pub mod cycle;
pub mod engine;
pub mod subst;
pub mod vars;
pub mod wildcard;
