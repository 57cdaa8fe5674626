//! Decision logic of an ExternalDNS webhook provider for Porkbun DNS.

pub mod config;
pub mod error;
pub mod middleware;
pub mod number;
pub mod porkbun;
pub mod text;
pub mod webhook;

pub use config::Config;
pub use error::Error;
pub use porkbun::client::Client as PorkbunClient;
