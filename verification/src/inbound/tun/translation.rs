//! The TCP address translation table of the TUN inbound.
//!
//! Every source address holds at most one port out of a fixed pool. Ports are
//! handed out in a circle; when the pool is exhausted, the entry that has been
//! inactive the longest gives up its port.
use std::collections::HashMap;
use vstd::prelude::*;
use crate::net::{IpAddr, SocketAddr};

verus! {

broadcast use vstd::std_specs::hash::group_hash_axioms;

/// The first port of the pool.
pub const NAT_PORT_START: u16 = 10000;

/// The last port of the pool.
pub const NAT_PORT_END: u16 = 60000;

/// The number of ports in the pool.
pub const NAT_PORTS: usize = 50001;

/// A translated connection. `last_active` is a reading of the monotonic clock, in
/// nanoseconds.
#[derive(Clone, Copy, Debug, PartialEq, Eq, Structural)]
pub struct TcpNatEntry {
    pub source: SocketAddr,
    pub destination: SocketAddr,
    pub last_active: u64,
}

/// A map from socket addresses to ports.
pub struct AddrIndex {
    by_ip: HashMap<u128, HashMap<u32, u16>>,
}

/// The number of an address, whatever its family.
pub open spec fn ip_number(a: SocketAddr) -> u128 {
    match a.ip {
        IpAddr::V4(v) => v as u128,
        IpAddr::V6(v) => v,
    }
}

/// The family and the port of a socket address as one number.
pub open spec fn family_port(a: SocketAddr) -> u32 {
    match a.ip {
        IpAddr::V4(_) => a.port as u32,
        IpAddr::V6(_) => (65536 + a.port) as u32,
    }
}

impl View for AddrIndex {
    type V = Map<SocketAddr, u16>;

    closed spec fn view(&self) -> Map<SocketAddr, u16> {
        Map::new(
            |a: SocketAddr|
                self.by_ip@.contains_key(ip_number(a)) && self.by_ip@[ip_number(
                    a,
                )]@.contains_key(family_port(a)),
            |a: SocketAddr| self.by_ip@[ip_number(a)]@[family_port(a)],
        )
    }
}

fn ip_number_of(a: SocketAddr) -> (r: u128)
    ensures
        r == ip_number(a),
{
    match a.ip {
        IpAddr::V4(v) => v as u128,
        IpAddr::V6(v) => v,
    }
}

fn family_port_of(a: SocketAddr) -> (r: u32)
    ensures
        r == family_port(a),
{
    match a.ip {
        IpAddr::V4(_) => a.port as u32,
        IpAddr::V6(_) => 65536 + a.port as u32,
    }
}

proof fn lemma_key_injective(a: SocketAddr, b: SocketAddr)
    requires
        ip_number(a) == ip_number(b),
        family_port(a) == family_port(b),
    ensures
        a == b,
{
}

impl AddrIndex {
    /// The empty map.
    pub fn new() -> (r: Self)
        ensures
            r@ == Map::<SocketAddr, u16>::empty(),
    {
        let r: AddrIndex = AddrIndex { by_ip: HashMap::new() };
        assert(r@ =~= Map::<SocketAddr, u16>::empty());
        r
    }

    /// The port of `a`.
    pub fn get(&self, a: SocketAddr) -> (r: Option<u16>)
        ensures
            r == (if self@.contains_key(a) {
                Some(self@[a])
            } else {
                None
            }),
    {
        match self.by_ip.get(&ip_number_of(a)) {
            Some(inner) => match inner.get(&family_port_of(a)) {
                Some(p) => Some(*p),
                None => None,
            },
            None => None,
        }
    }

    /// Maps `a` to `p`.
    pub fn insert(&mut self, a: SocketAddr, p: u16)
        ensures
            final(self)@ == old(self)@.insert(a, p),
    {
        let k: u128 = ip_number_of(a);
        let f: u32 = family_port_of(a);
        let mut inner: HashMap<u32, u16> = match self.by_ip.remove(&k) {
            Some(m) => m,
            None => HashMap::new(),
        };
        inner.insert(f, p);
        self.by_ip.insert(k, inner);
        proof {
            assert forall|b: SocketAddr| ip_number(b) == k && family_port(b) == f implies b
                == a by {
                lemma_key_injective(a, b);
            }
            assert(self@ =~= old(self)@.insert(a, p));
        }
    }

    /// Forgets `a`.
    pub fn remove(&mut self, a: SocketAddr)
        ensures
            final(self)@ == old(self)@.remove(a),
    {
        let k: u128 = ip_number_of(a);
        let f: u32 = family_port_of(a);
        match self.by_ip.remove(&k) {
            Some(m) => {
                let mut inner: HashMap<u32, u16> = m;
                inner.remove(&f);
                if inner.len() > 0 {
                    self.by_ip.insert(k, inner);
                } else {
                    assert(inner@ =~= Map::<u32, u16>::empty());
                }
            },
            None => {},
        }
        proof {
            assert forall|b: SocketAddr| ip_number(b) == k && family_port(b) == f implies b
                == a by {
                lemma_key_injective(a, b);
            }
            assert(self@ =~= old(self)@.remove(a));
        }
    }
}

/// The translation table.
pub struct TcpNat {
    port_index: u16,
    addr_map: AddrIndex,
    slots: Vec<Option<TcpNatEntry>>,
}

/// Whether `p` belongs to the pool.
pub open spec fn in_pool(p: u16) -> bool {
    NAT_PORT_START <= p <= NAT_PORT_END
}

/// The port after `p` in the circle.
pub open spec fn next_port(p: u16) -> u16 {
    if p >= NAT_PORT_END {
        NAT_PORT_START
    } else {
        (p + 1) as u16
    }
}

/// The first of the `steps` ports from `from` on that `ports` does not hold.
pub open spec fn first_free(ports: Map<u16, TcpNatEntry>, from: u16, steps: nat) -> Option<u16>
    decreases steps,
{
    if steps == 0 {
        None
    } else if !ports.contains_key(from) {
        Some(from)
    } else {
        first_free(ports, next_port(from), (steps - 1) as nat)
    }
}

/// How long ago `then` was, at `now`; zero if it lies in the future.
pub open spec fn age(now: u64, then: u64) -> u64 {
    if then <= now {
        (now - then) as u64
    } else {
        0
    }
}

/// Whether no entry of `ports` has been inactive longer than that of `p`.
pub open spec fn is_oldest(ports: Map<u16, TcpNatEntry>, p: u16) -> bool {
    &&& ports.contains_key(p)
    &&& forall|q: u16|
        #![trigger ports[q]]
        ports.contains_key(q) ==> ports[p].last_active <= ports[q].last_active
}

impl TcpNat {
    /// The entries by port.
    pub closed spec fn ports(self) -> Map<u16, TcpNatEntry> {
        Map::new(
            |p: u16| in_pool(p) && self.slots@[p - NAT_PORT_START] is Some,
            |p: u16| self.slots@[p - NAT_PORT_START]->0,
        )
    }

    /// The ports by source address.
    pub closed spec fn addrs(self) -> Map<SocketAddr, u16> {
        self.addr_map@
    }

    /// The port at which the next search begins.
    pub closed spec fn cursor(self) -> u16 {
        self.port_index
    }

    /// The two directions of the table agree, and all ports are of the pool.
    pub closed spec fn wf(self) -> bool {
        &&& self.slots@.len() == NAT_PORTS
        &&& in_pool(self.port_index)
        &&& forall|p: u16|
            #![trigger self.ports()[p]]
            self.ports().contains_key(p) ==> self.addrs().contains_key(self.ports()[p].source)
                && self.addrs()[self.ports()[p].source] == p
        &&& forall|a: SocketAddr|
            #![trigger self.addrs()[a]]
            self.addrs().contains_key(a) ==> self.ports().contains_key(self.addrs()[a])
                && self.ports()[self.addrs()[a]].source == a
    }

    /// What becomes of the table when `src` is given the port `r`. A known
    /// source keeps its port and becomes active; a new one gets the next free
    /// port of the circle, or, when there is none, the port of an entry that
    /// has been inactive the longest, which is forgotten.
    pub open spec fn assigned(
        self,
        after: Self,
        src: SocketAddr,
        dst: SocketAddr,
        now: u64,
        r: u16,
    ) -> bool {
        if self.addrs().contains_key(src) {
            &&& r == self.addrs()[src]
            &&& after.addrs() == self.addrs()
            &&& after.ports() == self.ports().insert(
                r,
                TcpNatEntry { last_active: now, ..self.ports()[r] },
            )
            &&& after.cursor() == self.cursor()
        } else {
            &&& after.ports() == self.ports().insert(
                r,
                TcpNatEntry { source: src, destination: dst, last_active: now },
            )
            &&& match first_free(self.ports(), self.cursor(), NAT_PORTS as nat) {
                Some(p) => {
                    &&& r == p
                    &&& after.addrs() == self.addrs().insert(src, r)
                    &&& after.cursor() == next_port(p)
                },
                None => {
                    &&& is_oldest(self.ports(), r)
                    &&& after.addrs() == self.addrs().remove(self.ports()[r].source).insert(src, r)
                    &&& after.cursor() == self.cursor()
                },
            }
        }
    }

    /// What looking up `nat_port` returns and what becomes of the table: the
    /// entry, if there is one, becomes active.
    pub open spec fn looked_back(
        self,
        after: Self,
        nat_port: u16,
        now: u64,
        r: Option<(SocketAddr, SocketAddr)>,
    ) -> bool {
        &&& after.addrs() == self.addrs()
        &&& after.cursor() == self.cursor()
        &&& if self.ports().contains_key(nat_port) {
            let entry = self.ports()[nat_port];
            &&& r == Some((entry.source, entry.destination))
            &&& after.ports() == self.ports().insert(
                nat_port,
                TcpNatEntry { last_active: now, ..entry },
            )
        } else {
            &&& r is None
            &&& after.ports() == self.ports()
        }
    }

    /// The empty table.
    pub fn new() -> (r: Self)
        ensures
            r.wf(),
            r.ports() == Map::<u16, TcpNatEntry>::empty(),
            r.addrs() == Map::<SocketAddr, u16>::empty(),
            r.cursor() == NAT_PORT_START,
    {
        let mut slots: Vec<Option<TcpNatEntry>> = Vec::new();
        let mut i: usize = 0;
        while i < NAT_PORTS
            invariant
                i <= NAT_PORTS,
                slots@.len() == i,
                forall|k: int| 0 <= k < i ==> slots@[k] is None,
            decreases NAT_PORTS - i,
        {
            slots.push(None);
            i = i + 1;
        }
        let r: TcpNat = TcpNat { port_index: NAT_PORT_START, addr_map: AddrIndex::new(), slots };
        assert(r.ports() =~= Map::<u16, TcpNatEntry>::empty());
        r
    }

    /// Whether the table holds no entry in either direction.
    pub fn is_empty(&self) -> (r: bool)
        requires
            self.wf(),
        ensures
            r == (self.ports() == Map::<u16, TcpNatEntry>::empty()),
            r == (self.addrs() == Map::<SocketAddr, u16>::empty()),
    {
        let mut i: usize = 0;
        while i < NAT_PORTS
            invariant
                self.wf(),
                i <= NAT_PORTS,
                forall|k: int| 0 <= k < i ==> self.slots@[k] is None,
            decreases NAT_PORTS - i,
        {
            if self.slots[i].is_some() {
                proof {
                    let p = (i + NAT_PORT_START) as u16;
                    assert(self.ports().contains_key(p));
                    assert(self.addrs().contains_key(self.ports()[p].source));
                }
                return false;
            }
            i = i + 1;
        }
        proof {
            assert(self.ports() =~= Map::<u16, TcpNatEntry>::empty());
            assert forall|a: SocketAddr| !self.addrs().contains_key(a) by {
                if self.addrs().contains_key(a) {
                    assert(self.ports().contains_key(self.addrs()[a]));
                }
            }
            assert(self.addrs() =~= Map::<SocketAddr, u16>::empty());
        }
        true
    }

    /// Stores an entry under `port`, whose entry, if any, belongs to no other
    /// source any more.
    fn do_insert(&mut self, port: u16, src: SocketAddr, dst: SocketAddr, now: u64)
        requires
            old(self).slots@.len() == NAT_PORTS,
            in_pool(port),
        ensures
            final(self).slots@.len() == NAT_PORTS,
            final(self).port_index == old(self).port_index,
            final(self).addrs() == old(self).addrs().insert(src, port),
            final(self).ports() == old(self).ports().insert(
                port,
                (TcpNatEntry { source: src, destination: dst, last_active: now }),
            ),
    {
        self.addr_map.insert(src, port);
        self.slots[(port - NAT_PORT_START) as usize] = Some(
            TcpNatEntry { source: src, destination: dst, last_active: now },
        );
        assert(self.ports() =~= old(self).ports().insert(
            port,
            TcpNatEntry { source: src, destination: dst, last_active: now },
        ));
    }

    /// The port whose entry has been inactive the longest.
    fn oldest(&self) -> (r: u16)
        requires
            self.wf(),
            forall|p: u16| in_pool(p) ==> self.ports().contains_key(p),
        ensures
            in_pool(r),
            is_oldest(self.ports(), r),
    {
        assert(in_pool(NAT_PORT_START));
        assert(self.ports().contains_key(NAT_PORT_START));
        let mut best: usize = 0;
        let mut best_time: u64 = match self.slots[0] {
            Some(e) => e.last_active,
            None => 0,
        };
        let mut i: usize = 1;
        while i < NAT_PORTS
            invariant
                self.wf(),
                forall|p: u16| in_pool(p) ==> self.ports().contains_key(p),
                1 <= i <= NAT_PORTS,
                best < i,
                self.slots@[best as int] is Some,
                best_time == self.slots@[best as int]->0.last_active,
                forall|k: int|
                    0 <= k < i ==> (#[trigger] self.slots@[k]) is Some && best_time
                        <= self.slots@[k]->0.last_active,
            decreases NAT_PORTS - i,
        {
            assert(in_pool((i + NAT_PORT_START) as u16));
            assert(self.ports().contains_key((i + NAT_PORT_START) as u16));
            match self.slots[i] {
                Some(e) => {
                    if e.last_active < best_time {
                        best = i;
                        best_time = e.last_active;
                    }
                },
                None => {},
            }
            i = i + 1;
        }
        let r: u16 = best as u16 + NAT_PORT_START;
        assert(self.ports()[r] == self.slots@[best as int]->0);
        assert forall|q: u16| #![trigger self.ports()[q]] self.ports().contains_key(q) implies
            self.ports()[r].last_active <= self.ports()[q].last_active by {
            assert(self.slots@[q - NAT_PORT_START] is Some);
        }
        r
    }

    /// The port that stands for `src`. A known source keeps its port and
    /// becomes active; a new one gets the next free port of the circle, or,
    /// when there is none, the port of the entry that has been inactive the
    /// longest, which is forgotten.
    pub fn lookup_or_insert(&mut self, src: SocketAddr, dst: SocketAddr, now: u64) -> (r: u16)
        requires
            old(self).wf(),
        ensures
            final(self).wf(),
            in_pool(r),
            old(self).assigned(*final(self), src, dst, now, r),
    {
        match self.addr_map.get(src) {
            Some(port) => {
                assert(self.addrs().contains_key(src));
                assert(self.ports().contains_key(self.addrs()[src]));
                let at: usize = (port - NAT_PORT_START) as usize;
                match self.slots[at] {
                    Some(e) => {
                        self.slots[at] = Some(
                            TcpNatEntry {
                                source: e.source,
                                destination: e.destination,
                                last_active: now,
                            },
                        );
                    },
                    None => {},
                }
                proof {
                    let updated = TcpNatEntry { last_active: now, ..old(self).ports()[port] };
                    assert(self.ports() =~= old(self).ports().insert(port, updated));
                    assert(self.addrs() == old(self).addrs());
                    assert forall|p: u16| #![trigger self.ports()[p]] self.ports().contains_key(
                        p,
                    ) implies self.addrs().contains_key(self.ports()[p].source)
                        && self.addrs()[self.ports()[p].source] == p by {
                        assert(old(self).ports().contains_key(p));
                        assert(old(self).ports()[p].source == self.ports()[p].source);
                    }
                    assert forall|a: SocketAddr| #![trigger self.addrs()[a]]
                        self.addrs().contains_key(a) implies self.ports().contains_key(
                        self.addrs()[a],
                    ) && self.ports()[self.addrs()[a]].source == a by {
                        assert(old(self).ports().contains_key(old(self).addrs()[a]));
                    }
                }
                return port;
            },
            None => {},
        }
        assert(!self.addrs().contains_key(src));
        let start: u16 = self.port_index;
        let mut steps: usize = 0;
        while steps < NAT_PORTS
            invariant
                old(self).wf(),
                start == old(self).port_index,
                steps <= NAT_PORTS,
                self.slots == old(self).slots,
                self.addr_map == old(self).addr_map,
                in_pool(self.port_index),
                self.port_index == NAT_PORT_START + (start - NAT_PORT_START + steps)
                    % NAT_PORTS as int,
                !old(self).addrs().contains_key(src),
                first_free(old(self).ports(), start, NAT_PORTS as nat) == first_free(
                    old(self).ports(),
                    self.port_index,
                    (NAT_PORTS - steps) as nat,
                ),
                forall|k: int|
                    0 <= k < steps ==> #[trigger] old(self).ports().contains_key(
                        (NAT_PORT_START + (start - NAT_PORT_START + k) % NAT_PORTS as int) as u16,
                    ),
            decreases NAT_PORTS - steps,
        {
            let port: u16 = self.port_index;
            self.port_index = if port >= NAT_PORT_END {
                NAT_PORT_START
            } else {
                port + 1
            };
            assert(self.ports() =~= old(self).ports());
            if self.slots[(port - NAT_PORT_START) as usize].is_none() {
                assert(!old(self).ports().contains_key(port));
                self.do_insert(port, src, dst, now);
                proof {
                    old(self).lemma_insert_keeps_wf(*self, port, src, dst, now);
                }
                return port;
            }
            assert(old(self).ports().contains_key(port));
            steps = steps + 1;
        }
        assert forall|p: u16| in_pool(p) implies old(self).ports().contains_key(p) by {
            let k: int = (p - start) % (NAT_PORTS as int);
            assert((start - NAT_PORT_START + k) % (NAT_PORTS as int) == p - NAT_PORT_START);
            assert(old(self).ports().contains_key(
                (NAT_PORT_START + (start - NAT_PORT_START + k) % NAT_PORTS as int) as u16,
            ));
        }
        assert(self.port_index == start);
        assert(self.ports() =~= old(self).ports());
        assert(self.addrs() == old(self).addrs());
        let evict: u16 = self.oldest();
        let at: usize = (evict - NAT_PORT_START) as usize;
        assert(self.ports().contains_key(evict));
        match self.slots[at] {
            Some(e) => {
                assert(e == old(self).ports()[evict]);
                self.addr_map.remove(e.source);
            },
            None => {},
        }
        let ghost mid = *self;
        assert(mid.ports() =~= old(self).ports());
        self.do_insert(evict, src, dst, now);
        proof {
            old(self).lemma_evict_keeps_wf(*self, evict, src, dst, now);
        }
        evict
    }

    proof fn lemma_insert_keeps_wf(
        self,
        after: Self,
        port: u16,
        src: SocketAddr,
        dst: SocketAddr,
        now: u64,
    )
        requires
            self.wf(),
            in_pool(port),
            !self.ports().contains_key(port),
            !self.addrs().contains_key(src),
            after.slots@.len() == NAT_PORTS,
            in_pool(after.port_index),
            after.addrs() == self.addrs().insert(src, port),
            after.ports() == self.ports().insert(
                port,
                (TcpNatEntry { source: src, destination: dst, last_active: now }),
            ),
        ensures
            after.wf(),
    {
        assert forall|p: u16| #![trigger after.ports()[p]] after.ports().contains_key(p) implies
            after.addrs().contains_key(after.ports()[p].source)
            && after.addrs()[after.ports()[p].source] == p by {
            if p != port {
                assert(self.ports().contains_key(p));
                assert(self.addrs().contains_key(self.ports()[p].source));
            }
        }
        assert forall|a: SocketAddr| #![trigger after.addrs()[a]] after.addrs().contains_key(
            a,
        ) implies after.ports().contains_key(after.addrs()[a])
            && after.ports()[after.addrs()[a]].source == a by {
            if a != src {
                assert(self.ports().contains_key(self.addrs()[a]));
            }
        }
    }

    proof fn lemma_evict_keeps_wf(
        self,
        after: Self,
        port: u16,
        src: SocketAddr,
        dst: SocketAddr,
        now: u64,
    )
        requires
            self.wf(),
            in_pool(port),
            self.ports().contains_key(port),
            !self.addrs().contains_key(src),
            after.slots@.len() == NAT_PORTS,
            in_pool(after.port_index),
            after.addrs() == self.addrs().remove(self.ports()[port].source).insert(src, port),
            after.ports() == self.ports().insert(
                port,
                (TcpNatEntry { source: src, destination: dst, last_active: now }),
            ),
        ensures
            after.wf(),
    {
        assert forall|p: u16| #![trigger after.ports()[p]] after.ports().contains_key(p) implies
            after.addrs().contains_key(after.ports()[p].source)
            && after.addrs()[after.ports()[p].source] == p by {
            if p != port {
                assert(self.ports().contains_key(p));
                assert(self.addrs()[self.ports()[p].source] == p);
                assert(self.addrs()[self.ports()[port].source] == port);
            }
        }
        assert forall|a: SocketAddr| #![trigger after.addrs()[a]] after.addrs().contains_key(
            a,
        ) implies after.ports().contains_key(after.addrs()[a])
            && after.ports()[after.addrs()[a]].source == a by {
            if a != src {
                assert(self.addrs().contains_key(a));
                assert(self.ports().contains_key(self.addrs()[a]));
                assert(self.ports()[self.addrs()[a]].source == a);
            }
        }
    }

    /// The connection that `nat_port` stands for, which becomes active.
    pub fn lookup_back(&mut self, nat_port: u16, now: u64) -> (r: Option<(SocketAddr, SocketAddr)>)
        requires
            old(self).wf(),
        ensures
            final(self).wf(),
            old(self).looked_back(*final(self), nat_port, now, r),
    {
        if nat_port < NAT_PORT_START || nat_port > NAT_PORT_END {
            return None;
        }
        let at: usize = (nat_port - NAT_PORT_START) as usize;
        match self.slots[at] {
            Some(e) => {
                self.slots[at] = Some(
                    TcpNatEntry {
                        source: e.source,
                        destination: e.destination,
                        last_active: now,
                    },
                );
                proof {
                    let updated = TcpNatEntry { last_active: now, ..old(self).ports()[nat_port] };
                    assert(self.ports() =~= old(self).ports().insert(nat_port, updated));
                    assert(old(self).ports()[nat_port] == e);
                    assert(self.addrs() == old(self).addrs());
                    assert forall|p: u16| #![trigger self.ports()[p]] self.ports().contains_key(
                        p,
                    ) implies self.addrs().contains_key(self.ports()[p].source)
                        && self.addrs()[self.ports()[p].source] == p by {
                        assert(old(self).ports().contains_key(p));
                        assert(old(self).ports()[p].source == self.ports()[p].source);
                    }
                    assert forall|a: SocketAddr| #![trigger self.addrs()[a]]
                        self.addrs().contains_key(a) implies self.ports().contains_key(
                        self.addrs()[a],
                    ) && self.ports()[self.addrs()[a]].source == a by {
                        assert(old(self).ports().contains_key(old(self).addrs()[a]));
                    }
                }
                Some((e.source, e.destination))
            },
            None => None,
        }
    }

    /// Forgets the entries that have been inactive for longer than `timeout`,
    /// which is in nanoseconds.
    pub fn gc(&mut self, timeout: u128, now: u64)
        requires
            old(self).wf(),
        ensures
            final(self).wf(),
            final(self).cursor() == old(self).cursor(),
            forall|p: u16| #[trigger]
                final(self).ports().contains_key(p) <==> old(self).ports().contains_key(p) && age(
                    now,
                    old(self).ports()[p].last_active,
                ) <= timeout,
            forall|p: u16|
                final(self).ports().contains_key(p) ==> #[trigger] final(self).ports()[p] == old(self).ports()[p],
            forall|a: SocketAddr| #[trigger]
                final(self).addrs().contains_key(a) <==> old(self).addrs().contains_key(a) && final(self).ports().contains_key(old(self).addrs()[a]),
    {
        let mut i: usize = 0;
        while i < NAT_PORTS
            invariant
                old(self).wf(),
                self.wf(),
                self.port_index == old(self).port_index,
                i <= NAT_PORTS,
                forall|p: u16| #[trigger]
                    self.ports().contains_key(p) <==> old(self).ports().contains_key(p) && (p
                        >= NAT_PORT_START + i || age(now, old(self).ports()[p].last_active)
                        <= timeout),
                forall|p: u16|
                    self.ports().contains_key(p) ==> #[trigger] self.ports()[p] == old(self).ports()[p],
                forall|a: SocketAddr| #[trigger]
                    self.addrs().contains_key(a) <==> old(self).addrs().contains_key(a)
                        && self.ports().contains_key(old(self).addrs()[a]),
                forall|a: SocketAddr| #[trigger]
                    self.addrs().contains_key(a) ==> self.addrs()[a] == old(self).addrs()[a],
            decreases NAT_PORTS - i,
        {
            let ghost port = (i + NAT_PORT_START) as u16;
            let ghost before = *self;
            match self.slots[i] {
                Some(e) => {
                    let old_enough: bool = e.last_active <= now && (now - e.last_active) as u128 > timeout;
                    assert(before.ports().contains_key(port));
                    assert(before.ports()[port] == e);
                    if old_enough {
                        self.addr_map.remove(e.source);
                        self.slots[i] = None;
                        proof {
                            assert(self.ports() =~= before.ports().remove(port));
                            assert(self.addrs() == before.addrs().remove(e.source));
                            assert(before.addrs()[e.source] == port);
                            assert forall|p: u16| #![trigger self.ports()[p]]
                                self.ports().contains_key(p) implies self.addrs().contains_key(
                                self.ports()[p].source,
                            ) && self.addrs()[self.ports()[p].source] == p by {
                                assert(before.ports().contains_key(p));
                                assert(before.addrs()[before.ports()[p].source] == p);
                            }
                            assert forall|a: SocketAddr| #![trigger self.addrs()[a]]
                                self.addrs().contains_key(a) implies self.ports().contains_key(
                                self.addrs()[a],
                            ) && self.ports()[self.addrs()[a]].source == a by {
                                assert(before.addrs().contains_key(a));
                                assert(before.ports()[before.addrs()[a]].source == a);
                            }
                            assert forall|a: SocketAddr|
                                #[trigger] self.addrs().contains_key(a) <==> old(self).addrs().contains_key(a) && self.ports().contains_key(
                                    old(self).addrs()[a],
                                ) by {
                                if old(self).addrs().contains_key(a) {
                                    assert(old(self).ports()[old(self).addrs()[a]].source == a);
                                }
                                if before.addrs().contains_key(a) {
                                    assert(before.ports()[before.addrs()[a]].source == a);
                                }
                            }
                        }
                    }
                },
                None => {
                    assert(!before.ports().contains_key(port));
                },
            }
            assert forall|p: u16| #[trigger] self.ports().contains_key(p) <==> old(self).ports().contains_key(p) && (p >= NAT_PORT_START + i + 1 || age(
                now,
                old(self).ports()[p].last_active,
            ) <= timeout) by {
                assert(before.ports().contains_key(p) <==> old(self).ports().contains_key(p) && (p
                    >= NAT_PORT_START + i || age(now, old(self).ports()[p].last_active)
                    <= timeout));
                if p == port && before.ports().contains_key(p) {
                    assert(before.ports()[p] == old(self).ports()[p]);
                }
            }
            i = i + 1;
        }
        assert forall|p: u16| #[trigger] self.ports().contains_key(p) <==> old(self).ports().contains_key(p) && age(now, old(self).ports()[p].last_active) <= timeout by {
            if old(self).ports().contains_key(p) {
                assert(in_pool(p));
            }
        }
    }

    /// No two sources share a port, and no two ports belong to one source.
    pub proof fn law_one_port_per_source(self, a: SocketAddr, b: SocketAddr)
        requires
            self.wf(),
            self.addrs().contains_key(a),
            self.addrs().contains_key(b),
            self.addrs()[a] == self.addrs()[b],
        ensures
            a == b,
            self.ports()[self.addrs()[a]].source == a,
    {
    }

    /// The two directions of the table are inverse to each other: a port leads
    /// to a source whose port it is, and a source to a port whose source it is.
    pub proof fn law_directions_agree(self, p: u16, a: SocketAddr)
        requires
            self.wf(),
        ensures
            self.ports().contains_key(p) ==> in_pool(p) && self.addrs().contains_key(
                self.ports()[p].source,
            ) && self.addrs()[self.ports()[p].source] == p,
            self.addrs().contains_key(a) ==> self.ports().contains_key(self.addrs()[a])
                && self.ports()[self.addrs()[a]].source == a,
    {
    }

    /// The port that a source is given leads back to that source, and, for a
    /// source that the table did not know, to the destination that it asked
    /// for; a known source keeps the destination that it came with first.
    pub proof fn law_assignment_leads_back(
        self,
        after: Self,
        src: SocketAddr,
        dst: SocketAddr,
        now: u64,
        port: u16,
    )
        requires
            self.wf(),
            self.assigned(after, src, dst, now, port),
        ensures
            after.ports().contains_key(port),
            after.ports()[port].source == src,
            after.ports()[port].destination == (if self.addrs().contains_key(src) {
                self.ports()[self.addrs()[src]].destination
            } else {
                dst
            }),
    {
    }

    /// The search finds no free port exactly when every port of the pool is
    /// taken, and what it finds is free.
    pub proof fn law_search_is_exhaustive(self)
        requires
            self.wf(),
        ensures
            ({
                let found = first_free(self.ports(), self.cursor(), NAT_PORTS as nat);
                &&& found is None <==> forall|p: u16| in_pool(p) ==> self.ports().contains_key(p)
                &&& found matches Some(p) ==> in_pool(p) && !self.ports().contains_key(p)
            }),
    {
        lemma_first_free(self.ports(), self.cursor(), NAT_PORTS as nat);
        let found = first_free(self.ports(), self.cursor(), NAT_PORTS as nat);
        if found is None {
            assert forall|p: u16| in_pool(p) implies self.ports().contains_key(p) by {
                let k: int = (p - self.cursor()) % (NAT_PORTS as int);
                assert(nth_port(self.cursor(), k) == p);
            }
        }
    }
}

/// The port `k` steps after `from` in the circle.
pub open spec fn nth_port(from: u16, k: int) -> u16 {
    (NAT_PORT_START + (from - NAT_PORT_START + k) % NAT_PORTS as int) as u16
}

proof fn lemma_first_free(ports: Map<u16, TcpNatEntry>, from: u16, steps: nat)
    requires
        in_pool(from),
    ensures
        first_free(ports, from, steps) is None ==> forall|k: int|
            0 <= k < steps ==> #[trigger] ports.contains_key(nth_port(from, k)),
        first_free(ports, from, steps) matches Some(p) ==> in_pool(p) && !ports.contains_key(p),
    decreases steps,
{
    if steps > 0 && ports.contains_key(from) {
        lemma_first_free(ports, next_port(from), (steps - 1) as nat);
        if first_free(ports, from, steps) is None {
            assert forall|k: int| 0 <= k < steps implies #[trigger] ports.contains_key(
                nth_port(from, k),
            ) by {
                if k > 0 {
                    assert(nth_port(from, k) == nth_port(next_port(from), k - 1));
                } else {
                    assert(nth_port(from, 0) == from);
                }
            }
        }
    }
}

/// The pool is the ports from 10000 to 60000, and the search goes round in it.
pub proof fn law_pool_of_ports(p: u16)
    ensures
        in_pool(p) <==> 10000 <= p <= 60000,
        10000 <= p < 60000 ==> next_port(p) == p + 1,
        p == 60000 ==> next_port(p) == 10000,
        NAT_PORTS == 60000 - 10000 + 1,
{
}

/// Giving a port to a source changes nothing for other connections: each keeps
/// its port, its addresses and its time, but for the one that makes room when all
/// ports are taken, and that one has been inactive for the longest. The source
/// itself becomes active.
pub proof fn law_others_keep_their_ports(
    before: TcpNat,
    after: TcpNat,
    src: SocketAddr,
    dst: SocketAddr,
    now: u64,
    port: u16,
    other: u16,
)
    requires
        before.wf(),
        before.assigned(after, src, dst, now, port),
        before.ports().contains_key(other),
        other != port,
    ensures
        after.ports().contains_key(other),
        after.ports()[other] == before.ports()[other],
        after.ports()[port].last_active == now,
        before.addrs().contains_key(src) ==> port == before.addrs()[src],
        !before.addrs().contains_key(src) && before.ports().contains_key(port)
            ==> before.ports()[port].last_active <= before.ports()[other].last_active && forall|
            p: u16,
        |
            10000 <= p <= 60000 ==> before.ports().contains_key(p),
{
    before.law_search_is_exhaustive();
    if !before.addrs().contains_key(src) && before.ports().contains_key(port) {
        assert(before.ports()[other].last_active >= before.ports()[port].last_active);
        assert forall|p: u16| 10000 <= p <= 60000 implies before.ports().contains_key(p) by {
            assert(in_pool(p));
        }
    }
}

} // verus!
