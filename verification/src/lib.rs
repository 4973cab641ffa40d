//! Verified parser for Quake-3-style death-match server logs.
//!
//! The pipeline tokenizes raw log lines into typed actions, groups the
//! action stream into match segments bounded by `InitGame:` /
//! `ShutdownGame:` markers, and replays each segment against a match
//! accumulator to derive per-match statistics: total kills, the roster in
//! connection order, a per-name kill score, and a histogram of kill causes.
//!
//! Every stage is specified by a spec-level functional model and the
//! executable code is proved to compute exactly that model.

pub mod actions;
pub mod assoc;
pub mod errors;
pub mod game;
pub mod laws;
pub mod parser;
pub mod player;
pub mod text;
