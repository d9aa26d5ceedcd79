//! The verified core of a rule-based proxy kernel: packet rewriting, protocol
//! sniffing, DNS wire handling and caching, route planning, dispatch decisions
//! and the control API.

pub mod app;
pub mod buf;
pub mod cli;
pub mod config;
pub mod crypto;
pub mod dns;
pub mod inbound;
pub mod net;
pub mod table;
pub mod text;
