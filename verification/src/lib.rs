//! Detection of forbidden combinations of dependencies in a resolved package
//! graph.
//!
//! A ruleset names groups of packages and states rules over those groups. The
//! engine cross-references the groups with the resolved graph, evaluates each
//! rule, and explains every conflict by the shortest chain of dependents that
//! leads from a conflicting package back to an entry of the manifest.
//!
//! The parts, from the leaves up:
//!
//! - [`manifest`]: the manifest and the spans of the names it declares;
//! - [`graph`] and [`package`]: the resolved graph and its packages;
//! - [`ruleset`]: groups, rules and the state machine of a rule;
//! - [`dependency`] and [`group`]: the two indexes of the ruleset over the
//!   graph;
//! - [`adjacency`] and [`reach`]: the reverse walk from a conflicting package
//!   up to the first declarations;
//! - [`path`]: the shortest causal path in what a walk recorded;
//! - [`order`] and [`cause`]: the causal path of a dependency in terms of the
//!   graph;
//! - [`engine`]: the evaluation of the rules;
//! - [`report`] and [`error`]: what a conflict is reported as;
//! - [`cli`]: the arguments of a run and the paths they stand for.

pub mod adjacency;
pub mod cause;
pub mod cli;
pub mod dependency;
pub mod engine;
pub mod error;
pub mod graph;
pub mod group;
pub mod manifest;
pub mod order;
pub mod package;
pub mod path;
pub mod reach;
pub mod report;
pub mod ruleset;
mod walks;
