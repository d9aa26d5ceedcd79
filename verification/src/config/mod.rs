//! Settings.

pub mod dns;
pub mod experimental;
pub mod global;
pub mod outbound;
pub mod route;
