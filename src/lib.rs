//! Operational transformation on plain text: an edit is a sequence of
//! retain / insert / delete steps over Unicode scalar values, with apply,
//! invert, compose and transform.
pub mod algebra;
pub mod atoms;
pub mod canonical;
pub mod error;
pub mod history;
pub mod laws;
pub mod operation;
pub mod render;
pub mod text;
