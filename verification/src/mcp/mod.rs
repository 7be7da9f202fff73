//! The agent-facing tool surface: what of it is plain computation.

pub mod hits;
pub mod search;
