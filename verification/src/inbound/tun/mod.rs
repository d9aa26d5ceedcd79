//! The TUN inbound: address translation, packet rewriting and route planning.

pub mod checksum;
pub mod desktop;
pub mod device;
pub mod forms;
pub mod forms_datagram;
pub mod forms_v6;
pub mod linux;
pub mod linux_rules;
pub mod macos;
pub mod other;
pub mod packet;
pub mod route;
pub mod translation;
pub mod uid;
pub mod windows;
