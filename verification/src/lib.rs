//! A chart parser for context-free grammars.
//!
//! A [`grammar::Grammar`] is validated once and then only read. A [`parser::Parser`]
//! borrows it, owns a chart of edges, and grows the chart in rounds of three phases
//! (predict, scan, complete) until an edge accepts the input or a round adds nothing.
//! The history of an accepting edge is then unfolded into a derivation.
//!
//! - [`grammar`]: symbols, rules, the sets that hold them, and grammars.
//! - [`chart`]: edges, the inference rules as relations between them, and what holds
//!   of every chart.
//! - [`passes`]: the phases as functions from chart to chart.
//! - [`parser`]: the parser and its phases, verified against the two modules above.
//! - [`deduction`]: the items that follow from the seed, whatever the order of search.
//! - [`derivation`]: the derivation that a history stands for, and its soundness.

pub mod chart;
pub mod deduction;
pub mod derivation;
pub mod grammar;
pub mod parser;
pub mod passes;
