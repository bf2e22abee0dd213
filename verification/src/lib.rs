//! Read-only analytics over version-control history: ownership concentration,
//! churn hotspots and per-file contributor expertise, computed from the text
//! that the version-control tool prints.

pub mod attribution;
pub mod bus_factor;
pub mod error;
pub mod git;
pub mod history;
pub mod hotspots;
pub mod index;
pub mod music;
pub mod path;
pub mod power;
pub mod rank;
pub mod source;
pub mod tally;
pub mod text;
pub mod threshold;
pub mod time;
pub mod vcs;
pub mod who_knows;
