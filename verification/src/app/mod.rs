//! The kernel's services: sniffing, dispatch, outbound management and the
//! control API.

pub mod clash_api;
pub mod client_hello;
pub mod dispatcher;
pub mod outbound_mgr;
pub mod ruleset_registry;
pub mod sniff;
pub mod sniff_forms;
