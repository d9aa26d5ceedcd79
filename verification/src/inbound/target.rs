//! Where a connection goes.
use vstd::prelude::*;
use crate::net;
use crate::net::{IpAddr, SocketAddr};
use crate::text;

verus! {

/// A destination: a name or an address, with a port.
pub enum Target {
    Domain(String, u16),
    Socket(SocketAddr),
}

/// A destination by its characters.
#[verifier::ext_equal]
pub ghost enum Destination {
    Domain(Seq<char>, u16),
    Socket(SocketAddr),
}

impl View for Target {
    type V = Destination;

    open spec fn view(&self) -> Destination {
        match self {
            Target::Domain(d, p) => Destination::Domain(d@, *p),
            Target::Socket(a) => Destination::Socket(*a),
        }
    }
}

/// The port of a destination.
pub open spec fn port_of(t: Destination) -> u16 {
    match t {
        Destination::Domain(_, p) => p,
        Destination::Socket(a) => a.port,
    }
}

/// The name or the address of a destination.
pub open spec fn host_of(t: Destination) -> Seq<char> {
    match t {
        Destination::Domain(d, _) => d,
        Destination::Socket(a) => net::ip_text(a.ip),
    }
}

/// A destination in one text.
pub open spec fn destination_text(t: Destination) -> Seq<char> {
    match t {
        Destination::Domain(d, p) => d + seq![':'] + text::decimal(p as nat),
        Destination::Socket(a) => net::socket_text(a),
    }
}

impl Target {
    /// The port.
    pub fn port(&self) -> (r: u16)
        ensures
            r == port_of(self@),
    {
        match self {
            Target::Domain(_, p) => *p,
            Target::Socket(a) => a.port,
        }
    }

    /// The name or the address.
    pub fn host(&self) -> (r: String)
        ensures
            r@ == host_of(self@),
    {
        match self {
            Target::Domain(d, _) => d.as_str().to_owned(),
            Target::Socket(a) => net::ip_string(a.ip),
        }
    }

    /// The address; `0.0.0.0` stands for a name.
    pub fn to_socket_addr_lossy(&self) -> (r: SocketAddr)
        ensures
            r == (match self@ {
                Destination::Domain(_, p) => SocketAddr { ip: IpAddr::V4(0), port: p },
                Destination::Socket(a) => a,
            }),
    {
        match self {
            Target::Domain(_, p) => SocketAddr { ip: IpAddr::V4(0), port: *p },
            Target::Socket(a) => *a,
        }
    }

    /// Name or address, and port, in one text.
    pub fn to_string(&self) -> (r: String)
        ensures
            r@ == destination_text(self@),
    {
        match self {
            Target::Domain(d, p) => {
                let mut t: Vec<char> = text::chars_of(d.as_str());
                t.push(':');
                let n: Vec<char> = text::decimal_chars(*p as u64);
                text::push_chars(&mut t, n.as_slice());
                assert(t@ =~= destination_text(self@));
                text::string_of(t.as_slice())
            },
            Target::Socket(a) => net::socket_string(*a),
        }
    }

    /// The same destination.
    pub fn copy(&self) -> (r: Target)
        ensures
            r@ == self@,
    {
        match self {
            Target::Domain(d, p) => Target::Domain(d.as_str().to_owned(), *p),
            Target::Socket(a) => Target::Socket(*a),
        }
    }
}

/// The text of a destination is its host and its port with a colon between them;
/// an IPv6 address stands in square brackets.
pub proof fn law_destination_text(t: Destination)
    ensures
        match t {
            Destination::Socket(SocketAddr { ip: IpAddr::V6(v), port }) => destination_text(t)
                == seq!['['] + net::ip_text(IpAddr::V6(v)) + seq![']', ':'] + text::decimal(
                port as nat,
            ),
            _ => destination_text(t) == host_of(t) + seq![':'] + text::decimal(port_of(t) as nat),
        },
{
}

} // verus!
