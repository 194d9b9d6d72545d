//! Swede: a graph-first recipe language. Parsing, static validation, graph
//! model, table projections, scheduling, formatting, editor analysis, and
//! what scaling a recipe rewrites.

pub mod text;
pub mod number;
pub mod ast;
pub mod amount;
pub mod parse;
pub mod diagnostic;
pub mod uses;
pub mod validate;
pub mod validate_laws;
pub mod fmt;
pub mod model;
pub mod basis;
pub mod render;
pub mod grid;
pub mod schedule;
pub mod analysis;
pub mod scale;
pub mod units;
