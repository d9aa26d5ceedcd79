//! The connections that are open, and what is known of each.
use vstd::prelude::*;
use std::sync::Arc;
use crate::net;
use crate::net::SocketAddr;

verus! {

/// The concurrent map of the `dashmap` crate.
#[verifier::external_type_specification]
#[verifier::external_body]
#[verifier::reject_recursive_types(K)]
#[verifier::reject_recursive_types(V)]
#[verifier::reject_recursive_types(S)]
pub struct ExDashMap<K, V, S>(dashmap::DashMap<K, V, S>);

/// The rule that decided about a connection.
pub struct RuleInfo {
    pub rule_type: String,
    pub rule_payload: String,
}

/// What a new connection is.
pub struct ConnInfo<'a> {
    pub network: &'a str,
    pub host: &'a str,
    pub source: SocketAddr,
    pub dest_port: u16,
    pub inbound: &'a str,
    pub outbound: &'a str,
}

/// What is known of a connection.
pub struct ConnMeta {
    pub id: u64,
    pub network: String,
    pub host: String,
    pub source_ip: String,
    pub source_port: u16,
    pub dest_port: u16,
    pub inbound: String,
    pub outbound: String,
    pub rule: String,
    pub rule_payload: String,
    /// When it began, in milliseconds since 1970.
    pub started_ms: u64,
    /// Bytes so far.
    pub upload: i64,
    pub download: i64,
}

/// What is known of a connection, by its characters.
#[verifier::ext_equal]
pub ghost struct ConnView {
    pub id: u64,
    pub network: Seq<char>,
    pub host: Seq<char>,
    pub source_ip: Seq<char>,
    pub source_port: u16,
    pub dest_port: u16,
    pub inbound: Seq<char>,
    pub outbound: Seq<char>,
    pub rule: Seq<char>,
    pub rule_payload: Seq<char>,
    pub started_ms: u64,
    pub upload: i64,
    pub download: i64,
}

impl View for ConnMeta {
    type V = ConnView;

    open spec fn view(&self) -> ConnView {
        ConnView {
            id: self.id,
            network: self.network@,
            host: self.host@,
            source_ip: self.source_ip@,
            source_port: self.source_port,
            dest_port: self.dest_port,
            inbound: self.inbound@,
            outbound: self.outbound@,
            rule: self.rule@,
            rule_payload: self.rule_payload@,
            started_ms: self.started_ms,
            upload: self.upload,
            download: self.download,
        }
    }
}

/// The connections that a concurrent map holds, by number.
pub uninterp spec fn open_conns(m: dashmap::DashMap<u64, Arc<ConnMeta>>) -> Map<u64, ConnView>;

/// No connections.
pub open spec fn no_conns() -> Map<u64, ConnView> {
    Map::empty()
}

/// Whether a list holds every connection of a map once, in any order.
pub open spec fn is_listing(v: Seq<(u64, Arc<ConnMeta>)>, m: Map<u64, ConnView>) -> bool {
    &&& forall|i: int|
        0 <= i < v.len() ==> m.contains_key((#[trigger] v[i]).0) && m[v[i].0] == v[i].1@
    &&& forall|i: int, j: int|
        0 <= i < j < v.len() ==> (#[trigger] v[i]).0 != (#[trigger] v[j]).0
    &&& forall|k: u64| #[trigger] m.contains_key(k) ==> exists|i: int|
        0 <= i < v.len() && (#[trigger] v[i]).0 == k
}

/// Trusted: `DashMap::new` makes an empty map.
#[verifier::external_body]
fn map_new() -> (r: dashmap::DashMap<u64, Arc<ConnMeta>>)
    ensures
        open_conns(r) == no_conns(),
{
    dashmap::DashMap::new()
}

/// Trusted: `DashMap::insert` gives a key a value, in place of the one that it
/// had.
#[verifier::external_body]
fn map_insert(m: &mut dashmap::DashMap<u64, Arc<ConnMeta>>, id: u64, c: Arc<ConnMeta>)
    ensures
        open_conns(*final(m)) == open_conns(*old(m)).insert(id, c@),
{
    m.insert(id, c);
}

/// Trusted: `DashMap::remove` takes a key out.
#[verifier::external_body]
fn map_remove(m: &mut dashmap::DashMap<u64, Arc<ConnMeta>>, id: u64)
    ensures
        open_conns(*final(m)) == open_conns(*old(m)).remove(id),
{
    m.remove(&id);
}

/// Trusted: `DashMap::get` finds the value of a key, which is handed out as a
/// second handle on it.
#[verifier::external_body]
fn map_get(m: &dashmap::DashMap<u64, Arc<ConnMeta>>, id: u64) -> (r: Option<Arc<ConnMeta>>)
    ensures
        match r {
            Some(c) => open_conns(*m).contains_key(id) && open_conns(*m)[id] == c@,
            None => !open_conns(*m).contains_key(id),
        },
{
    m.get(&id).map(|c| c.value().clone())
}

/// Trusted: `DashMap::len` is the number of keys.
#[verifier::external_body]
fn map_len(m: &dashmap::DashMap<u64, Arc<ConnMeta>>) -> (r: usize)
    ensures
        r == open_conns(*m).len(),
{
    m.len()
}

/// Trusted: `DashMap::is_empty` tells whether there are no keys.
#[verifier::external_body]
fn map_is_empty(m: &dashmap::DashMap<u64, Arc<ConnMeta>>) -> (r: bool)
    ensures
        r == (open_conns(*m) == no_conns()),
{
    m.is_empty()
}

/// Trusted: `DashMap::iter` walks over every entry once, in an order that is
/// left open; the values are handed out as second handles.
#[verifier::external_body]
fn map_entries(m: &dashmap::DashMap<u64, Arc<ConnMeta>>) -> (r: Vec<(u64, Arc<ConnMeta>)>)
    ensures
        is_listing(r@, open_conns(*m)),
{
    m.iter().map(|e| (*e.key(), e.value().clone())).collect()
}

/// The connections that are open.
pub struct ConnectionTracker {
    next_id: u64,
    conns: dashmap::DashMap<u64, Arc<ConnMeta>>,
}

/// What is known of a connection with some bytes more; the counters wrap.
pub open spec fn with_bytes(c: ConnView, up: i64, down: i64) -> ConnView {
    ConnView {
        upload: vstd::wrapping::i64_specs::wrapping_add(c.upload, up),
        download: vstd::wrapping::i64_specs::wrapping_add(c.download, down),
        ..c
    }
}

impl ConnectionTracker {
    /// The connections by number.
    pub closed spec fn conns(self) -> Map<u64, ConnView> {
        open_conns(self.conns)
    }

    /// The number of the next connection.
    pub closed spec fn next(self) -> u64 {
        self.next_id
    }

    /// Every connection is noted under its number, and the next number is above
    /// them.
    pub open spec fn wf(self) -> bool {
        forall|k: u64| #[trigger]
            self.conns().contains_key(k) ==> k < self.next() && self.conns()[k].id == k
    }

    /// No connections; numbers begin with 1.
    pub fn new() -> (r: Self)
        ensures
            r.wf(),
            r.conns() == no_conns(),
            r.next() == 1,
    {
        ConnectionTracker { next_id: 1, conns: map_new() }
    }

    /// Whether there is a number for one more connection.
    pub fn can_register(&self) -> (r: bool)
        ensures
            r == (self.next() < u64::MAX),
    {
        self.next_id < u64::MAX
    }

    /// Notes a connection under a new number.
    pub fn register(&mut self, info: ConnInfo<'_>, rule_info: &RuleInfo, now_ms: u64) -> (id: u64)
        requires
            old(self).wf(),
            old(self).next() < u64::MAX,
        ensures
            final(self).wf(),
            id == old(self).next(),
            final(self).next() == id + 1,
            !old(self).conns().contains_key(id),
            final(self).conns() == old(self).conns().insert(
                id,
                (ConnView {
                    id,
                    network: info.network@,
                    host: info.host@,
                    source_ip: net::ip_text(info.source.ip),
                    source_port: info.source.port,
                    dest_port: info.dest_port,
                    inbound: info.inbound@,
                    outbound: info.outbound@,
                    rule: rule_info.rule_type@,
                    rule_payload: rule_info.rule_payload@,
                    started_ms: now_ms,
                    upload: 0,
                    download: 0,
                }),
            ),
    {
        let id: u64 = self.next_id;
        self.next_id = id + 1;
        let meta = ConnMeta {
            id,
            network: info.network.to_owned(),
            host: info.host.to_owned(),
            source_ip: net::ip_string(info.source.ip),
            source_port: info.source.port,
            dest_port: info.dest_port,
            inbound: info.inbound.to_owned(),
            outbound: info.outbound.to_owned(),
            rule: rule_info.rule_type.as_str().to_owned(),
            rule_payload: rule_info.rule_payload.as_str().to_owned(),
            started_ms: now_ms,
            upload: 0,
            download: 0,
        };
        map_insert(&mut self.conns, id, Arc::new(meta));
        proof {
            assert forall|k: u64| #[trigger] self.conns().contains_key(k) implies k < self.next()
                && self.conns()[k].id == k by {
                if k != id {
                    assert(old(self).conns().contains_key(k));
                }
            }
        }
        id
    }

    /// Forgets a connection.
    pub fn remove_by_id(&mut self, id: u64)
        requires
            old(self).wf(),
        ensures
            final(self).wf(),
            final(self).next() == old(self).next(),
            final(self).conns() == old(self).conns().remove(id),
    {
        map_remove(&mut self.conns, id);
        proof {
            assert forall|k: u64| #[trigger] self.conns().contains_key(k) implies k < self.next()
                && self.conns()[k].id == k by {
                if k != id {
                    assert(old(self).conns().contains_key(k));
                }
            }
        }
    }

    /// What is known of a connection.
    pub fn get(&self, id: u64) -> (r: Option<Arc<ConnMeta>>)
        ensures
            match r {
                Some(c) => self.conns().contains_key(id) && self.conns()[id] == c@,
                None => !self.conns().contains_key(id),
            },
    {
        map_get(&self.conns, id)
    }

    /// Adds bytes to the counters of a connection, if it is still open.
    pub fn add_bytes(&mut self, id: u64, up: i64, down: i64)
        requires
            old(self).wf(),
        ensures
            final(self).wf(),
            final(self).next() == old(self).next(),
            final(self).conns() == (if old(self).conns().contains_key(id) {
                old(self).conns().insert(id, with_bytes(old(self).conns()[id], up, down))
            } else {
                old(self).conns()
            }),
    {
        if let Some(c) = map_get(&self.conns, id) {
            let meta = ConnMeta {
                id: c.id,
                network: c.network.as_str().to_owned(),
                host: c.host.as_str().to_owned(),
                source_ip: c.source_ip.as_str().to_owned(),
                source_port: c.source_port,
                dest_port: c.dest_port,
                inbound: c.inbound.as_str().to_owned(),
                outbound: c.outbound.as_str().to_owned(),
                rule: c.rule.as_str().to_owned(),
                rule_payload: c.rule_payload.as_str().to_owned(),
                started_ms: c.started_ms,
                upload: c.upload.wrapping_add(up),
                download: c.download.wrapping_add(down),
            };
            assert(meta@ =~= with_bytes(c@, up, down));
            map_insert(&mut self.conns, id, Arc::new(meta));
            assert(old(self).conns().contains_key(id));
        }
        proof {
            assert forall|k: u64| #[trigger] self.conns().contains_key(k) implies k < self.next()
                && self.conns()[k].id == k by {
                if k != id {
                    assert(old(self).conns().contains_key(k));
                }
            }
        }
    }

    /// The bytes that a connection has sent and received so far.
    pub fn live_counters(&self, id: u64) -> (r: Option<(i64, i64)>)
        ensures
            match r {
                Some(c) => self.conns().contains_key(id) && c == (
                    self.conns()[id].upload,
                    self.conns()[id].download,
                ),
                None => !self.conns().contains_key(id),
            },
    {
        match map_get(&self.conns, id) {
            Some(c) => Some((c.upload, c.download)),
            None => None,
        }
    }

    /// All connections, in any order.
    pub fn snapshot(&self) -> (r: Vec<(u64, Arc<ConnMeta>)>)
        ensures
            is_listing(r@, self.conns()),
    {
        map_entries(&self.conns)
    }

    /// The number of connections.
    pub fn len(&self) -> (r: usize)
        ensures
            r == self.conns().len(),
    {
        map_len(&self.conns)
    }

    /// Whether there are none.
    pub fn is_empty(&self) -> (r: bool)
        ensures
            r == (self.conns() == no_conns()),
    {
        map_is_empty(&self.conns)
    }
}

/// A connection that has come and gone leaves no trace.
pub proof fn law_closed_connection_is_gone(open: Map<u64, ConnView>, id: u64, c: ConnView)
    requires
        !open.contains_key(id),
    ensures
        open.insert(id, c).contains_key(id),
        open.insert(id, c)[id] == c,
        open.insert(id, c).remove(id) == open,
{
    assert(open.insert(id, c).remove(id) =~= open);
}

/// Bytes that were sent are added to the upload, bytes that were received to the
/// download, and nothing else of the connection changes.
pub proof fn law_bytes_are_added(c: ConnView, up: i64, down: i64)
    requires
        i64::MIN <= c.upload + up <= i64::MAX,
        i64::MIN <= c.download + down <= i64::MAX,
    ensures
        with_bytes(c, up, down).upload == c.upload + up,
        with_bytes(c, up, down).download == c.download + down,
        with_bytes(c, up, down) == (ConnView {
            upload: (c.upload + up) as i64,
            download: (c.download + down) as i64,
            ..c
        }),
{
}

} // verus!
