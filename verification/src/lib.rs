//! Historical record and narrative generation for ternary state systems.
//!
//! Timestamped events, timelines, a multi-agent chronicle, narrative text,
//! an index for searching, pattern-based forecasting and conservation checks,
//! each stated over a mathematical model and verified.

pub mod ternary;
pub mod event;
pub mod text;
pub mod timeline;
pub mod chronicle;
pub mod narrative;
pub mod index;
pub mod prophet;
pub mod conservation;
