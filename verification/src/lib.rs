//! Range marks for a replicated sequence: named, valued annotations over
//! half-open ranges, and the state machine that resolves overlapping marks of
//! one name into the ranges a reader sees.

pub mod mark_isolation;
pub mod mark_laws;
pub mod mark_model;
pub mod mark_state;
pub mod marks;
pub mod order;
pub mod parents;
pub mod text;
pub mod transactable;
pub mod types;
pub mod value;
