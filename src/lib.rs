//! Batch generation of per-group tournament score sheets: a roster of
//! players is split into groups of four records, and each group's names are
//! written into the placeholders of a vector-graphics template.

pub mod batch;
pub mod engine;
pub mod group;
pub mod record;
pub mod roster;
pub mod text;
