//! Inbound side of the kernel.

pub mod dns;
pub mod stream;
pub mod target;
pub mod tproxy;
pub mod tun;
