//! Finds packages that a resolved lockfile holds at several versions at once and
//! recommends one version of each to consolidate on.
//!
//! Package records ([`parser`]) are turned into a dependency graph ([`graph`]),
//! the graph is scanned for names that occur more than once and the best of the
//! candidate versions of each is selected by score ([`analysis`], over
//! [`version`] and [`time`]), the possible savings are estimated ([`impact`])
//! and the findings are laid out as report rows ([`report`]).
//!
//! Scores are whole numbers of thirtieths of a point: a thirtieth is the
//! largest unit in which every term of a score is whole.
pub mod analysis;
pub mod cli;
pub mod graph;
pub mod impact;
pub mod parser;
pub mod report;
pub mod time;
pub mod version;
