//! Route planning on platforms without support for it: nothing is run.
use vstd::prelude::*;
use crate::inbound::tun::route::{CommandLine, TunInboundConfig};

verus! {

/// Plans no commands.
pub fn setup(_cfg: &TunInboundConfig, _if_name: &str) -> (r: Vec<CommandLine>)
    ensures
        r@ == Seq::<CommandLine>::empty(),
{
    Vec::new()
}

/// Plans no commands.
pub fn teardown(_cfg: &TunInboundConfig, _if_name: &str) -> (r: Vec<CommandLine>)
    ensures
        r@ == Seq::<CommandLine>::empty(),
{
    Vec::new()
}

} // verus!
