//! Settings of the kernel as a whole.
use vstd::prelude::*;

verus! {

/// Settings of the kernel as a whole.
#[derive(Debug)]
pub struct GlobalConfig {
    /// Whether IPv6 traffic is let through. If not, names are looked up for
    /// IPv4 addresses only, whatever the resolver's strategy.
    pub ipv6: bool,
    /// The mark of outgoing sockets; zero stands for none.
    pub routing_mark: u32,
}

impl Default for GlobalConfig {
    fn default() -> (r: Self)
        ensures
            r.ipv6,
            r.routing_mark == 0,
    {
        GlobalConfig { ipv6: true, routing_mark: 0 }
    }
}

} // verus!
