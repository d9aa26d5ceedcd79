//! What becomes of a DNS query, step by step. The caller asks the servers and
//! the disk; every step takes what came back and says what comes next.
use vstd::prelude::*;
use crate::buf;
use crate::dns::cache;
use crate::dns::message;
use crate::dns::cache::{CacheResult, InflightResult};
use crate::dns::resolver::DnsResolver;
use crate::dns::wire;

verus! {

/// The time to live of a response that gives none.
pub const DEFAULT_TTL: u32 = 60;

/// The name and type that a query asks for; a query without a name asks for the
/// empty one, and one without a type for addresses.
pub open spec fn question_of(msg: Seq<u8>) -> (Seq<char>, u16) {
    (
        match wire::question_name(msg) {
            Some(n) => n,
            None => Seq::empty(),
        },
        match wire::question_type(msg) {
            Some(t) => t,
            None => 1,
        },
    )
}

/// The name and type that a query asks for.
pub fn question(msg: &[u8]) -> (r: (String, u16))
    requires
        msg@.len() + 1000 <= usize::MAX,
    ensures
        (r.0@, r.1) == question_of(msg@),
{
    let name: String = match wire::extract_qname(msg) {
        Some(n) => n,
        None => {
            proof {
                reveal_strlit("");
                assert(""@ =~= Seq::<char>::empty());
            }
            "".to_owned()
        },
    };
    let qtype: u16 = match wire::extract_qtype(msg) {
        Some(t) => t,
        None => 1,
    };
    (name, qtype)
}

/// A query on its way.
pub struct Inquiry {
    pub qname: String,
    pub qtype: u16,
    /// The place of its server.
    pub upstream: usize,
    pub disable_cache: bool,
}

/// What comes next.
pub enum Step {
    /// The answer.
    Reply(bytes::Bytes),
    /// The answer, and the server is to be asked once more in the background.
    ReplyAndRefresh(bytes::Bytes),
    /// The disk is to be asked.
    LoadPersisted,
    /// The server is to be asked, for others too.
    Lead,
    /// An equal query is out; its answer is to be waited for.
    Wait,
    /// The server is to be asked, and the answer kept.
    Retry,
    /// The server is to be asked.
    Direct,
}

/// For whom a server was asked.
#[derive(Clone, Copy, Debug, PartialEq, Eq, Structural)]
pub enum Role {
    Lead,
    Retry,
    Refresh,
    Direct,
}

/// The end of a query.
pub struct Outcome {
    /// The answer; there is none if the server gave none.
    pub reply: Option<bytes::Bytes>,
    /// What the waiting queries are told.
    pub broadcast: Option<bytes::Bytes>,
    /// Until when the answer is to be kept on disk.
    pub persist_until: Option<u64>,
}

/// The key of an inquiry.
pub open spec fn key_of(r: DnsResolver, q: Inquiry) -> cache::KeyView {
    cache::cache_key(r.upstreams@[q.upstream as int].tag@, q.qname@, q.qtype)
}

/// Whether the cache is asked.
pub open spec fn cached(r: DnsResolver, q: Inquiry) -> bool {
    r.cache is Some && !q.disable_cache
}

/// Whether nothing but the cache differs.
pub open spec fn same_but_cache(a: DnsResolver, b: DnsResolver) -> bool {
    &&& a.rules == b.rules
    &&& a.upstreams == b.upstreams
    &&& a.default == b.default
    &&& a.strategy == b.strategy
    &&& a.proxy_domain_resolver == b.proxy_domain_resolver
    &&& a.cache is Some <==> b.cache is Some
}

/// Whether `step` joins the queries that are out, and the cache notes it.
pub open spec fn joined(
    before: cache::DnsCache,
    after: cache::DnsCache,
    key: cache::KeyView,
    step: Step,
) -> bool {
    &&& after.inflight() == before.inflight().insert(key)
    &&& if before.inflight().contains(key) {
        step is Wait
    } else {
        step is Lead
    }
}

/// What the cache holds and notes once an answer has come in: the answer, if it
/// may be kept, for the time that it gives, and whether it is to go to disk.
pub open spec fn kept(
    before: cache::DnsCache,
    after: cache::DnsCache,
    key: cache::KeyView,
    resp: Seq<u8>,
    now: u64,
    unix_now: u64,
    persist_until: Option<u64>,
) -> bool {
    if wire::may_be_kept(resp) {
        let ttl = cache::effective_ttl(
            match wire::keeping_time(resp) {
                Some(t) => t,
                None => DEFAULT_TTL,
            },
            before.ttl_cap(),
        );
        &&& after.items() == cache::stored(
            before.items(),
            before.capacity(),
            key,
            (resp, (now + ttl * cache::NANOS) as u64),
        )
        &&& persist_until == (if before.persistent() {
            Some((unix_now + ttl) as u64)
        } else {
            None
        })
    } else {
        &&& after.items() == before.items()
        &&& persist_until is None
    }
}

impl DnsResolver {
    /// Takes a query in: chooses its server and asks the cache. `hits` tells for
    /// every rule whether the name is in one of its sets of domains.
    pub fn begin(
        &mut self,
        msg: &[u8],
        inbound_tag: &str,
        current_mode: &str,
        hits: &[bool],
        now: u64,
    ) -> (r: (Inquiry, Step))
        requires
            old(self).wf(),
            hits@.len() == old(self).rules@.len(),
            msg@.len() + 1000 <= usize::MAX,
        ensures
            final(self).wf(),
            same_but_cache(*old(self), *final(self)),
            (r.0.qname@, r.0.qtype) == question_of(msg@),
            r.0.upstream < old(self).upstreams@.len(),
            (r.0.upstream, r.0.disable_cache) == old(self).chosen(
                hits@,
                inbound_tag@,
                r.0.qtype,
                current_mode@,
            ),
            !cached(*old(self), r.0) ==> r.1 is Direct && final(self).cache == old(self).cache,
            cached(*old(self), r.0) ==> looked_up(
                old(self).cache->0,
                final(self).cache->0,
                key_of(*old(self), r.0),
                msg@,
                now,
                r.1,
            ),
    {
        let (qname, qtype): (String, u16) = question(msg);
        let (upstream, disable_cache): (usize, bool) = self.select(
            inbound_tag,
            qtype,
            current_mode,
            hits,
        );
        let q = Inquiry { qname, qtype, upstream, disable_cache };
        if disable_cache {
            return (q, Step::Direct);
        }
        let mut held: Option<cache::DnsCache> = None;
        std::mem::swap(&mut held, &mut self.cache);
        match held {
            None => (q, Step::Direct),
            Some(mut c) => {
                let tag: &str = self.upstreams[upstream].tag.as_str();
                let step = look_up(&mut c, tag, &q, msg, now);
                self.cache = Some(c);
                (q, step)
            },
        }
    }

    /// Goes on with what the disk holds: a response and when it expires.
    pub fn after_persisted(
        &mut self,
        q: &Inquiry,
        msg: &[u8],
        found: Option<(bytes::Bytes, u64)>,
        now: u64,
        unix_now: u64,
    ) -> (r: Step)
        requires
            old(self).wf(),
            cached(*old(self), *q),
            q.upstream < old(self).upstreams@.len(),
            now <= cache::LAST_NOW,
            found matches Some((b, _)) ==> buf::contents(b).len() + 70000 <= usize::MAX,
        ensures
            final(self).wf(),
            same_but_cache(*old(self), *final(self)),
            restored(
                old(self).cache->0,
                final(self).cache->0,
                key_of(*old(self), *q),
                match found {
                    Some((b, e)) => Some((buf::contents(b), e)),
                    None => None,
                },
                msg@,
                now,
                unix_now,
                r,
            ),
    {
        let mut held: Option<cache::DnsCache> = None;
        std::mem::swap(&mut held, &mut self.cache);
        match held {
            None => Step::Direct,
            Some(mut c) => {
                let tag: &str = self.upstreams[q.upstream].tag.as_str();
                let step = restore(&mut c, tag, q, msg, found, now, unix_now);
                self.cache = Some(c);
                step
            },
        }
    }

    /// Goes on with what a waiting query was told, if it was told anything.
    pub fn after_wait(received: Option<bytes::Bytes>, msg: &[u8]) -> (r: Step)
        ensures
            match received {
                Some(b) => r matches Step::Reply(x) && buf::contents(x) == wire::with_id(
                    buf::contents(b),
                    msg@,
                ),
                None => r is Retry,
            },
    {
        match received {
            Some(b) => Step::Reply(wire::patch_id(b, msg)),
            None => Step::Retry,
        }
    }

    /// Takes in what the server said, if it said anything.
    pub fn finish(
        &mut self,
        q: &Inquiry,
        role: Role,
        resp: Option<bytes::Bytes>,
        now: u64,
        unix_now: u64,
    ) -> (r: Outcome)
        requires
            old(self).wf(),
            q.upstream < old(self).upstreams@.len(),
            now <= cache::LAST_NOW,
            unix_now + u32::MAX <= u64::MAX,
            resp matches Some(b) ==> buf::contents(b).len() + 70000 <= usize::MAX,
        ensures
            final(self).wf(),
            same_but_cache(*old(self), *final(self)),
            r.reply is Some <==> resp is Some && role != Role::Refresh,
            r.reply matches Some(b) ==> buf::contents(b) == buf::contents(resp->0),
            role == Role::Direct || !cached(*old(self), *q) ==> final(self).cache
                == old(self).cache && r.broadcast is None && r.persist_until is None,
            role != Role::Direct && cached(*old(self), *q) ==> concluded(
                old(self).cache->0,
                final(self).cache->0,
                key_of(*old(self), *q),
                role,
                match resp {
                    Some(b) => Some(buf::contents(b)),
                    None => None,
                },
                now,
                unix_now,
                match r.broadcast {
                    Some(b) => Some(buf::contents(b)),
                    None => None,
                },
                r.persist_until,
            ),
    {
        let reply: Option<bytes::Bytes> = match (&resp, role) {
            (_, Role::Refresh) => None,
            (Some(b), _) => Some(b.clone()),
            (None, _) => None,
        };
        if role == Role::Direct || q.disable_cache {
            return Outcome { reply, broadcast: None, persist_until: None };
        }
        let mut held: Option<cache::DnsCache> = None;
        std::mem::swap(&mut held, &mut self.cache);
        match held {
            None => Outcome { reply, broadcast: None, persist_until: None },
            Some(mut c) => {
                let tag: &str = self.upstreams[q.upstream].tag.as_str();
                let (broadcast, persist_until) = conclude(
                    &mut c,
                    tag,
                    q,
                    role,
                    resp,
                    now,
                    unix_now,
                );
                self.cache = Some(c);
                Outcome { reply, broadcast, persist_until }
            },
        }
    }

    /// The answer that goes out: a failure where there is none.
    pub fn final_reply(query: &[u8], reply: Option<bytes::Bytes>) -> (r: bytes::Bytes)
        ensures
            buf::contents(r) == (match reply {
                Some(b) => buf::contents(b),
                None => wire::bare_response(query@, 2),
            }),
    {
        match reply {
            Some(b) => b,
            None => wire::make_servfail(query),
        }
    }

    /// Empties the cache.
    pub fn clear_cache(&mut self)
        requires
            old(self).wf(),
        ensures
            final(self).wf(),
            same_but_cache(*old(self), *final(self)),
            final(self).cache matches Some(c) ==> c.items() == Seq::<cache::ItemView>::empty()
                && c.same_settings(old(self).cache->0),
    {
        let mut held: Option<cache::DnsCache> = None;
        std::mem::swap(&mut held, &mut self.cache);
        if let Some(mut c) = held {
            c.clear();
            self.cache = Some(c);
        }
    }
}

/// Whether the cache was asked for a query, and `step` follows from what it
/// knows.
pub open spec fn looked_up(
    before: cache::DnsCache,
    after: cache::DnsCache,
    key: cache::KeyView,
    msg: Seq<u8>,
    now: u64,
    step: Step,
) -> bool {
    let found = cache::value_of(before.items(), key);
    let grace = before.optimistic_ttl();
    &&& after.items() == cache::after_lookup(before.items(), key, now, grace)
    &&& after.capacity() == before.capacity()
    &&& after.ttl_cap() == before.ttl_cap()
    &&& after.optimistic_ttl() == grace
    &&& after.persistent() == before.persistent()
    &&& match found {
        Some((resp, expires)) => if now < expires {
            &&& after.inflight() == before.inflight()
            &&& step matches Step::Reply(r) && buf::contents(r) == wire::with_id(resp, msg)
        } else if cache::within_grace(now, expires, grace) {
            &&& after.inflight() == before.inflight()
            &&& step matches Step::ReplyAndRefresh(r) && buf::contents(r) == wire::with_id(
                wire::normalized(resp, cache::STALE_TTL),
                msg,
            )
        } else {
            missed(before, after, key, step)
        },
        None => missed(before, after, key, step),
    }
}

/// What follows a miss in memory: the disk is asked where it is in use, and the
/// queries that are out are joined where it is not.
pub open spec fn missed(
    before: cache::DnsCache,
    after: cache::DnsCache,
    key: cache::KeyView,
    step: Step,
) -> bool {
    if before.persistent() {
        after.inflight() == before.inflight() && step is LoadPersisted
    } else {
        joined(before, after, key, step)
    }
}

fn join_queries(c: &mut cache::DnsCache, tag: &str, q: &Inquiry) -> (r: Step)
    requires
        old(c).wf(),
    ensures
        final(c).wf(),
        final(c).items() == old(c).items(),
        final(c).capacity() == old(c).capacity(),
        final(c).ttl_cap() == old(c).ttl_cap(),
        final(c).optimistic_ttl() == old(c).optimistic_ttl(),
        final(c).persistent() == old(c).persistent(),
        joined(*old(c), *final(c), cache::cache_key(tag@, q.qname@, q.qtype), r),
{
    match c.try_lead_inflight(tag, q.qname.as_str(), q.qtype) {
        InflightResult::Leader => Step::Lead,
        InflightResult::Waiter => Step::Wait,
    }
}

fn look_up(c: &mut cache::DnsCache, tag: &str, q: &Inquiry, msg: &[u8], now: u64) -> (r: Step)
    requires
        old(c).wf(),
    ensures
        final(c).wf(),
        looked_up(
            *old(c),
            *final(c),
            cache::cache_key(tag@, q.qname@, q.qtype),
            msg@,
            now,
            r,
        ),
{
    match c.get(tag, q.qname.as_str(), q.qtype, now) {
        CacheResult::Hit(b) => Step::Reply(wire::patch_id(b, msg)),
        CacheResult::Stale(b) => Step::ReplyAndRefresh(wire::patch_id(b, msg)),
        CacheResult::Miss => {
            if c.is_persistent() {
                Step::LoadPersisted
            } else {
                join_queries(c, tag, q)
            }
        },
    }
}

/// Whether the cache took in what the disk holds, and `step` follows from it: a
/// response that has not expired is kept for the rest of its time and handed
/// out, one that has is handed out in optimistic mode.
pub open spec fn restored(
    before: cache::DnsCache,
    after: cache::DnsCache,
    key: cache::KeyView,
    found: Option<(Seq<u8>, u64)>,
    msg: Seq<u8>,
    now: u64,
    unix_now: u64,
    step: Step,
) -> bool {
    &&& after.capacity() == before.capacity()
    &&& after.ttl_cap() == before.ttl_cap()
    &&& after.optimistic_ttl() == before.optimistic_ttl()
    &&& after.persistent() == before.persistent()
    &&& match found {
        Some((raw, expire_at)) => if expire_at > unix_now {
            let left = if expire_at - unix_now < before.ttl_cap() {
                expire_at - unix_now
            } else {
                before.ttl_cap() as int
            };
            &&& after.inflight() == before.inflight()
            &&& step matches Step::Reply(r) && buf::contents(r) == wire::with_id(raw, msg)
            &&& after.items() == cache::stored(
                before.items(),
                before.capacity(),
                key,
                (raw, (now + left * cache::NANOS) as u64),
            )
        } else if before.optimistic_ttl() matches Some(t) && unix_now - expire_at < t {
            &&& after.inflight() == before.inflight()
            &&& after.items() == before.items()
            &&& step matches Step::ReplyAndRefresh(r) && buf::contents(r) == wire::with_id(
                wire::normalized(raw, cache::STALE_TTL),
                msg,
            )
        } else {
            &&& after.items() == before.items()
            &&& joined(before, after, key, step)
        },
        None => {
            &&& after.items() == before.items()
            &&& joined(before, after, key, step)
        },
    }
}

fn restore(
    c: &mut cache::DnsCache,
    tag: &str,
    q: &Inquiry,
    msg: &[u8],
    found: Option<(bytes::Bytes, u64)>,
    now: u64,
    unix_now: u64,
) -> (r: Step)
    requires
        old(c).wf(),
        now <= cache::LAST_NOW,
        found matches Some((b, _)) ==> buf::contents(b).len() + 70000 <= usize::MAX,
    ensures
        final(c).wf(),
        restored(
            *old(c),
            *final(c),
            cache::cache_key(tag@, q.qname@, q.qtype),
            match found {
                Some((b, e)) => Some((buf::contents(b), e)),
                None => None,
            },
            msg@,
            now,
            unix_now,
            r,
        ),
{
    match found {
        None => join_queries(c, tag, q),
        Some((raw, expire_at)) => {
            match c.admit_persisted(
                tag,
                q.qname.as_str(),
                q.qtype,
                raw,
                expire_at,
                now,
                unix_now,
            ) {
                CacheResult::Hit(b) => Step::Reply(wire::patch_id(b, msg)),
                CacheResult::Stale(b) => Step::ReplyAndRefresh(wire::patch_id(b, msg)),
                CacheResult::Miss => join_queries(c, tag, q),
            }
        },
    }
}

/// Whether the cache took in what a server said: the answer is kept, and the
/// end of a leading query is told to those that wait.
pub open spec fn concluded(
    before: cache::DnsCache,
    after: cache::DnsCache,
    key: cache::KeyView,
    role: Role,
    resp: Option<Seq<u8>>,
    now: u64,
    unix_now: u64,
    broadcast: Option<Seq<u8>>,
    persist_until: Option<u64>,
) -> bool {
    &&& after.capacity() == before.capacity()
    &&& after.ttl_cap() == before.ttl_cap()
    &&& after.optimistic_ttl() == before.optimistic_ttl()
    &&& after.persistent() == before.persistent()
    &&& match resp {
        Some(b) => kept(before, after, key, b, now, unix_now, persist_until),
        None => after.items() == before.items() && persist_until is None,
    }
    &&& after.inflight() == (if role == Role::Lead {
        before.inflight().remove(key)
    } else {
        before.inflight()
    })
    &&& broadcast == (if role == Role::Lead && before.inflight().contains(key) {
        resp
    } else {
        None
    })
}

fn conclude(
    c: &mut cache::DnsCache,
    tag: &str,
    q: &Inquiry,
    role: Role,
    resp: Option<bytes::Bytes>,
    now: u64,
    unix_now: u64,
) -> (r: (Option<bytes::Bytes>, Option<u64>))
    requires
        old(c).wf(),
        now <= cache::LAST_NOW,
        unix_now + u32::MAX <= u64::MAX,
        resp matches Some(b) ==> buf::contents(b).len() + 70000 <= usize::MAX,
    ensures
        final(c).wf(),
        concluded(
            *old(c),
            *final(c),
            cache::cache_key(tag@, q.qname@, q.qtype),
            role,
            match resp {
                Some(b) => Some(buf::contents(b)),
                None => None,
            },
            now,
            unix_now,
            match r.0 {
                Some(b) => Some(buf::contents(b)),
                None => None,
            },
            r.1,
        ),
{
    let mut persist_until: Option<u64> = None;
    if let Some(b) = &resp {
        if wire::is_cacheable_or_negative(buf::bytes_slice(b)) {
            let ttl: u32 = match wire::extract_min_ttl_or_negative(buf::bytes_slice(b)) {
                Some(t) => t,
                None => DEFAULT_TTL,
            };
            persist_until = c.set(
                tag,
                q.qname.as_str(),
                q.qtype,
                b.clone(),
                ttl,
                now,
                unix_now,
            );
        }
    }
    let broadcast: Option<bytes::Bytes> = if role == Role::Lead {
        match &resp {
            Some(b) => c.complete_inflight(tag, q.qname.as_str(), q.qtype, Some(b)),
            None => c.complete_inflight(tag, q.qname.as_str(), q.qtype, None),
        }
    } else {
        None
    };
    (broadcast, persist_until)
}

/// An answer that was kept answers every equal query until its time is over:
/// the same bytes, with the identifier of the new query.
pub proof fn law_kept_answers_are_reused(
    before: cache::DnsCache,
    between: cache::DnsCache,
    after: cache::DnsCache,
    key: cache::KeyView,
    resp: Seq<u8>,
    now: u64,
    unix_now: u64,
    persist_until: Option<u64>,
    msg: Seq<u8>,
    later: u64,
    step: Step,
)
    requires
        before.wf(),
        now <= cache::LAST_NOW,
        wire::may_be_kept(resp),
        kept(before, between, key, resp, now, unix_now, persist_until),
        looked_up(between, after, key, msg, later, step),
        later < now + cache::effective_ttl(
            match wire::keeping_time(resp) {
                Some(t) => t,
                None => DEFAULT_TTL,
            },
            before.ttl_cap(),
        ) * cache::NANOS,
    ensures
        step matches Step::Reply(r) && buf::contents(r) == wire::with_id(resp, msg),
{
    let ttl = cache::effective_ttl(
        match wire::keeping_time(resp) {
            Some(t) => t,
            None => DEFAULT_TTL,
        },
        before.ttl_cap(),
    );
    assert(ttl * cache::NANOS <= u32::MAX * cache::NANOS) by (nonlinear_arith)
        requires
            ttl <= u32::MAX,
            cache::NANOS == 1_000_000_000u64,
    ;
    before.law_well_formed();
    cache::law_stored_is_found(
        before.items(),
        before.capacity(),
        key,
        (resp, (now + ttl * cache::NANOS) as u64),
    );
}

/// While a query is out, an equal one waits; once it has ended, the next one
/// goes out.
pub proof fn law_one_query_at_a_time(
    c0: cache::DnsCache,
    c1: cache::DnsCache,
    c2: cache::DnsCache,
    key: cache::KeyView,
    first: Step,
    second: Step,
)
    requires
        joined(c0, c1, key, first),
        joined(c1, c2, key, second),
    ensures
        second is Wait,
        first is Lead <==> !c0.inflight().contains(key),
{
}

/// Once the leading query has ended, whether it was answered or not, no equal
/// query is out, and the next one leads.
pub proof fn law_end_frees_the_key(
    c0: cache::DnsCache,
    c1: cache::DnsCache,
    c2: cache::DnsCache,
    key: cache::KeyView,
    resp: Option<Seq<u8>>,
    now: u64,
    unix_now: u64,
    broadcast: Option<Seq<u8>>,
    persist_until: Option<u64>,
    step: Step,
)
    requires
        concluded(c0, c1, key, Role::Lead, resp, now, unix_now, broadcast, persist_until),
        joined(c1, c2, key, step),
    ensures
        step is Lead,
{
}

/// A response with answers is kept as long as its least time to live, or as the
/// cap if that is less: until then every equal query is answered by it, with the
/// new query's identifier, and afterwards none is, unless stale answers are
/// allowed.
pub proof fn law_answers_live_as_their_records(
    m: message::Message,
    least: u32,
    before: cache::DnsCache,
    between: cache::DnsCache,
    after: cache::DnsCache,
    key: cache::KeyView,
    role: Role,
    now: u64,
    unix_now: u64,
    broadcast: Option<Seq<u8>>,
    persist_until: Option<u64>,
    msg: Seq<u8>,
    later: u64,
    step: Step,
)
    requires
        message::writable(m),
        m.code % 16 == 0,
        message::is_least_ttl(m.answers, least),
        1 <= least < 0xffff_ffff,
        before.wf(),
        before.ttl_cap() >= 1,
        before.optimistic_ttl() is None,
        now <= cache::LAST_NOW,
        concluded(
            before,
            between,
            key,
            role,
            Some(message::message_bytes(m)),
            now,
            unix_now,
            broadcast,
            persist_until,
        ),
        looked_up(between, after, key, msg, later, step),
    ensures
        ({
            let life: int = if least <= before.ttl_cap() {
                least as int
            } else {
                before.ttl_cap() as int
            };
            &&& later < now + life * 1_000_000_000 ==> (step matches Step::Reply(r)
                && buf::contents(r) == wire::with_id(message::message_bytes(m), msg))
            &&& later >= now + life * 1_000_000_000 ==> !(step is Reply)
                && !(step is ReplyAndRefresh)
        }),
{
    let resp = message::message_bytes(m);
    message::law_keeping_of_responses(m);
    message::law_least_ttl_is_found(m);
    let i = choose|i: int| 0 <= i < m.answers.len() && (#[trigger] m.answers[i]).ttl == least;
    assert(m.answers[i].ttl == least);
    assert(m.answers.len() > 0);
    match wire::least_ttl(resp) {
        Some(t) => {
            let j = choose|j: int| 0 <= j < m.answers.len() && (#[trigger] m.answers[j]).ttl == t;
            assert(t <= m.answers[i].ttl);
            assert(least <= m.answers[j].ttl);
            assert(t == least);
        },
        None => {
            assert(m.answers[i].ttl == 0xffff_ffff);
        },
    }
    let ttl = cache::effective_ttl(least, before.ttl_cap());
    assert(ttl * cache::NANOS <= u32::MAX * cache::NANOS) by (nonlinear_arith)
        requires
            ttl <= u32::MAX,
            cache::NANOS == 1_000_000_000u64,
    ;
    before.law_well_formed();
    cache::law_stored_is_found(
        before.items(),
        before.capacity(),
        key,
        (resp, (now + ttl * cache::NANOS) as u64),
    );
}

} // verus!
