//! The Porkbun API: its messages, and what is asked and understood of it.

pub mod client;
pub mod types;
