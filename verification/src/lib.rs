//! A typed driver for the Jev decision model: question composition, wire
//! shapes, reference checking, and strict answer validation.

pub mod answer;
pub mod attrs;
pub mod client;
pub mod derive_rules;
pub mod endpoint;
pub mod error;
pub mod keyed;
pub mod naming;
pub mod question;
pub mod refs;
pub mod text;
pub mod triage;
pub mod wire;

pub use error::{JevError, JevResult};
