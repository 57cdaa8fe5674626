//! The webhook: endpoints, changes to them, and the steps that carry the changes out.

pub mod agenda;
pub mod apply;
pub mod assurance;
pub mod cache;
pub mod conduct;
pub mod handlers;
pub mod laws;
pub mod outcome;
pub mod plan;
pub mod readout;
pub mod records;
pub mod request;
pub mod retry;
pub mod rules;
pub mod types;
