//! The DNS cache: responses by transport, name and type, for a limited time.
//!
//! - Responses of different transports are kept apart.
//! - The least recently used response leaves when the cache is full.
//! - In optimistic mode an expired response is still handed out for a while,
//!   with the time to live of its records set to one second, and is to be
//!   refreshed in the background.
//! - Of several equal queries at the same time only the first goes out; the
//!   others wait for its answer.
//!
//! Times are readings of the caller's clocks: `now` in nanoseconds of a
//! monotonic clock, `unix_now` in seconds.
use vstd::prelude::*;
use crate::buf;
use crate::dns::wire;
use crate::text;

verus! {

/// The least-recently-used cache of the `lru` crate.
#[verifier::external_type_specification]
#[verifier::external_body]
#[verifier::reject_recursive_types(K)]
#[verifier::reject_recursive_types(V)]
#[verifier::reject_recursive_types(S)]
pub struct ExLruCache<K, V, S>(lru::LruCache<K, V, S>);

/// The hasher that caches of the `lru` crate use by default.
#[verifier::external_type_specification]
#[verifier::external_body]
pub struct ExLruHasher(lru::DefaultHasher);

/// Nanoseconds in a second.
pub const NANOS: u64 = 1_000_000_000;

/// The time to live of the records of a stale response.
pub const STALE_TTL: u32 = 1;

/// The last reading of the monotonic clock at which responses are taken in:
/// from it on, an expiry might not be representable.
pub const LAST_NOW: u64 = 14_000_000_000_000_000_000;

/// A key: transport, name in small letters, type.
pub type KeyView = (Seq<char>, Seq<char>, u16);

/// An entry: a key, and the response with the time at which it expires.
pub type ItemView = (KeyView, (Seq<u8>, u64));

/// The entries of a cache, the most recently used first.
pub uninterp spec fn lru_items(
    c: lru::LruCache<(String, String, u16), (bytes::Bytes, u64)>,
) -> Seq<((Seq<char>, Seq<char>, u16), (Seq<u8>, u64))>;

/// The number of entries that a cache holds at most.
pub uninterp spec fn lru_capacity(
    c: lru::LruCache<(String, String, u16), (bytes::Bytes, u64)>,
) -> nat;

/// What is stored under a key.
pub open spec fn value_of(items: Seq<ItemView>, key: KeyView) -> Option<(Seq<u8>, u64)>
    decreases items.len(),
{
    if items.len() == 0 {
        None
    } else if items[0].0 == key {
        Some(items[0].1)
    } else {
        value_of(items.skip(1), key)
    }
}

/// The entries without that of a key.
pub open spec fn without(items: Seq<ItemView>, key: KeyView) -> Seq<ItemView>
    decreases items.len(),
{
    if items.len() == 0 {
        items
    } else if items[0].0 == key {
        without(items.skip(1), key)
    } else {
        seq![items[0]] + without(items.skip(1), key)
    }
}

/// The entries after one of them has been used: it comes first.
pub open spec fn used(items: Seq<ItemView>, key: KeyView) -> Seq<ItemView> {
    match value_of(items, key) {
        Some(v) => seq![(key, v)] + without(items, key),
        None => items,
    }
}

/// The entries after one has been stored: it comes first, in place of the one
/// of the same key, or, when the cache is full, of the last one.
pub open spec fn stored(
    items: Seq<ItemView>,
    capacity: nat,
    key: KeyView,
    v: (Seq<u8>, u64),
) -> Seq<ItemView> {
    seq![(key, v)] + (if value_of(items, key) is Some {
        without(items, key)
    } else if items.len() == capacity {
        items.drop_last()
    } else {
        items
    })
}

/// The view of a key.
pub open spec fn key_view(k: (String, String, u16)) -> KeyView {
    (k.0@, k.1@, k.2)
}

/// The key of a query. The case of letters in the name does not matter.
pub open spec fn cache_key(transport: Seq<char>, qname: Seq<char>, qtype: u16) -> KeyView {
    (transport, text::lowercase(qname), qtype)
}

/// Trusted: `LruCache::new` makes an empty cache that holds at most `cap`
/// entries. It reserves room for them at once; capacities for which the size of
/// the table does not fit in a machine word are left out.
#[verifier::external_body]
fn lru_new(cap: usize) -> (r: lru::LruCache<(String, String, u16), (bytes::Bytes, u64)>)
    requires
        0 < cap <= usize::MAX / 256,
    ensures
        lru_items(r) == Seq::<((Seq<char>, Seq<char>, u16), (Seq<u8>, u64))>::empty(),
        lru_capacity(r) == cap,
{
    lru::LruCache::new(std::num::NonZeroUsize::new(cap).unwrap())
}

/// Trusted: `LruCache::get` finds what is stored under a key and makes its
/// entry the most recently used one. The value is handed out as a copy.
#[verifier::external_body]
fn lru_get(
    c: &mut lru::LruCache<(String, String, u16), (bytes::Bytes, u64)>,
    key: &(String, String, u16),
) -> (r: Option<(bytes::Bytes, u64)>)
    ensures
        match r {
            Some((b, t)) => value_of(lru_items(*old(c)), key_view(*key)) == Some(
                (buf::contents(b), t),
            ),
            None => value_of(lru_items(*old(c)), key_view(*key)) is None,
        },
        lru_items(*final(c)) == used(lru_items(*old(c)), key_view(*key)),
        lru_capacity(*final(c)) == lru_capacity(*old(c)),
{
    match c.get(key) {
        Some(v) => Some((v.0.clone(), v.1)),
        None => None,
    }
}

/// Trusted: `LruCache::put` stores an entry as the most recently used one, in
/// place of the one of the same key, or, when the cache is full, of the least
/// recently used one.
#[verifier::external_body]
fn lru_put(
    c: &mut lru::LruCache<(String, String, u16), (bytes::Bytes, u64)>,
    key: (String, String, u16),
    v: (bytes::Bytes, u64),
)
    ensures
        lru_items(*final(c)) == stored(
            lru_items(*old(c)),
            lru_capacity(*old(c)),
            key_view(key),
            (buf::contents(v.0), v.1),
        ),
        lru_capacity(*final(c)) == lru_capacity(*old(c)),
{
    c.put(key, v);
}

/// Trusted: `LruCache::pop` takes the entry of a key out.
#[verifier::external_body]
fn lru_pop(
    c: &mut lru::LruCache<(String, String, u16), (bytes::Bytes, u64)>,
    key: &(String, String, u16),
)
    ensures
        lru_items(*final(c)) == without(lru_items(*old(c)), key_view(*key)),
        lru_capacity(*final(c)) == lru_capacity(*old(c)),
{
    c.pop(key);
}

/// Trusted: `LruCache::len` is the number of entries.
#[verifier::external_body]
fn lru_len(c: &lru::LruCache<(String, String, u16), (bytes::Bytes, u64)>) -> (r: usize)
    ensures
        r == lru_items(*c).len(),
{
    c.len()
}

/// Trusted: `LruCache::clear` takes all entries out.
#[verifier::external_body]
fn lru_clear(c: &mut lru::LruCache<(String, String, u16), (bytes::Bytes, u64)>)
    ensures
        lru_items(*final(c)) == Seq::<((Seq<char>, Seq<char>, u16), (Seq<u8>, u64))>::empty(),
        lru_capacity(*final(c)) == lru_capacity(*old(c)),
{
    c.clear();
}

/// What the cache knows about a query.
pub enum CacheResult {
    /// A response that has not expired.
    Hit(bytes::Bytes),
    /// An expired response that may still be handed out while it is refreshed.
    Stale(bytes::Bytes),
    /// Nothing.
    Miss,
}

/// Whether a query goes out or waits.
#[derive(Clone, Copy, Debug, PartialEq, Eq, Structural)]
pub enum InflightResult {
    /// The first of its kind: it goes out, and its end is to be reported.
    Leader,
    /// An equal query is out already.
    Waiter,
}

/// The DNS cache.
pub struct DnsCache {
    inner: lru::LruCache<(String, String, u16), (bytes::Bytes, u64)>,
    ttl_cap: u32,
    optimistic_ttl: Option<u64>,
    persistent: bool,
    inflight: Vec<(String, String, u16)>,
}

/// Whether a response that expires at `expires` is still handed out at `now`
/// although it has expired.
pub open spec fn within_grace(now: u64, expires: u64, optimistic_ttl: Option<u64>) -> bool {
    optimistic_ttl matches Some(t) && now < expires + t * NANOS
}

/// What a lookup returns, by the entry found.
pub open spec fn lookup_result(
    found: Option<(Seq<u8>, u64)>,
    now: u64,
    optimistic_ttl: Option<u64>,
    r: CacheResult,
) -> bool {
    match found {
        None => r is Miss,
        Some((resp, expires)) => if now < expires {
            r matches CacheResult::Hit(b) && buf::contents(b) == resp
        } else if within_grace(now, expires, optimistic_ttl) {
            r matches CacheResult::Stale(b) && buf::contents(b) == wire::normalized(resp, STALE_TTL)
        } else {
            r is Miss
        },
    }
}

/// The entries after a lookup: an entry that was handed out comes first, one
/// that has expired for good is gone.
pub open spec fn after_lookup(
    items: Seq<ItemView>,
    key: KeyView,
    now: u64,
    optimistic_ttl: Option<u64>,
) -> Seq<ItemView> {
    match value_of(items, key) {
        None => items,
        Some((_, expires)) => if now < expires || within_grace(now, expires, optimistic_ttl) {
            used(items, key)
        } else {
            without(items, key)
        },
    }
}

/// The time for which a response is kept: what is asked for, but no longer than
/// the cap, and at least a second.
pub open spec fn effective_ttl(ttl: u32, ttl_cap: u32) -> u32 {
    let t = if ttl < ttl_cap {
        ttl
    } else {
        ttl_cap
    };
    if t < 1 {
        1
    } else {
        t
    }
}

/// Whether no two entries have the same key.
pub open spec fn distinct_keys(items: Seq<ItemView>) -> bool {
    forall|i: int, j: int|
        0 <= i < j < items.len() ==> (#[trigger] items[i]).0 != (#[trigger] items[j]).0
}

/// Whether every response is short enough to be taken apart.
pub open spec fn all_short(items: Seq<ItemView>) -> bool {
    forall|i: int| 0 <= i < items.len() ==> (#[trigger] items[i]).1.0.len() + 70000 <= usize::MAX
}

proof fn lemma_value_of(items: Seq<ItemView>, key: KeyView)
    ensures
        value_of(items, key) matches Some(v) ==> exists|i: int|
            0 <= i < items.len() && #[trigger] items[i] == (key, v),
        value_of(items, key) is None ==> forall|i: int|
            0 <= i < items.len() ==> (#[trigger] items[i]).0 != key,
    decreases items.len(),
{
    if items.len() > 0 {
        if items[0].0 == key {
            assert(items[0] == (key, items[0].1));
        } else {
            lemma_value_of(items.skip(1), key);
            match value_of(items.skip(1), key) {
                Some(v) => {
                    let i = choose|i: int|
                        0 <= i < items.skip(1).len() && #[trigger] items.skip(1)[i] == (key, v);
                    assert(items[i + 1] == (key, v));
                },
                None => {
                    assert forall|i: int| 0 <= i < items.len() implies (#[trigger] items[i]).0
                        != key by {
                        if i > 0 {
                            assert(items.skip(1)[i - 1] == items[i]);
                        }
                    }
                },
            }
        }
    }
}

proof fn lemma_without(items: Seq<ItemView>, key: KeyView)
    ensures
        without(items, key).len() <= items.len(),
        value_of(items, key) is Some ==> without(items, key).len() < items.len(),
        value_of(without(items, key), key) is None,
        forall|k: KeyView|
            k != key ==> #[trigger] value_of(without(items, key), k) == value_of(items, k),
        forall|i: int|
            0 <= i < without(items, key).len() ==> items.contains(
                #[trigger] without(items, key)[i],
            ),
        distinct_keys(items) ==> distinct_keys(without(items, key)),
        all_short(items) ==> all_short(without(items, key)),
    decreases items.len(),
{
    if items.len() > 0 {
        let rest = items.skip(1);
        lemma_without(rest, key);
        let w = without(items, key);
        let wr = without(rest, key);
        if items[0].0 == key {
            assert(w == wr);
        } else {
            assert(w.skip(1) =~= wr);
            assert(w[0] == items[0]);
        }
        assert forall|i: int| 0 <= i < w.len() implies items.contains(#[trigger] w[i]) by {
            if items[0].0 != key && i == 0 {
                assert(items[0] == w[0]);
            } else {
                let m = if items[0].0 == key { i } else { i - 1 };
                assert(w[i] == wr[m]);
                assert(rest.contains(wr[m]));
                let j = choose|j: int| 0 <= j < rest.len() && rest[j] == wr[m];
                assert(items[j + 1] == w[i]);
            }
        }
        assert forall|k: KeyView| k != key implies #[trigger] value_of(w, k) == value_of(
            items,
            k,
        ) by {
            assert(value_of(wr, k) == value_of(rest, k));
        }
        if distinct_keys(items) {
            assert(distinct_keys(rest)) by {
                assert forall|i: int, j: int| 0 <= i < j < rest.len() implies (
                #[trigger] rest[i]).0 != (#[trigger] rest[j]).0 by {
                    assert(items[i + 1].0 != items[j + 1].0);
                }
            }
            assert forall|i: int, j: int| 0 <= i < j < w.len() implies (#[trigger] w[i]).0 != (
            #[trigger] w[j]).0 by {
                if items[0].0 == key {
                    assert(wr[i].0 != wr[j].0);
                } else if i > 0 {
                    assert(w[i] == wr[i - 1] && w[j] == wr[j - 1]);
                    assert(wr[i - 1].0 != wr[j - 1].0);
                } else {
                    assert(w[j] == wr[j - 1]);
                    assert(rest.contains(wr[j - 1]));
                    let m = choose|m: int| 0 <= m < rest.len() && rest[m] == wr[j - 1];
                    assert(items[m + 1] == rest[m]);
                    assert(items[0].0 != items[m + 1].0);
                }
            }
        }
        if all_short(items) {
            assert forall|i: int| 0 <= i < w.len() implies (#[trigger] w[i]).1.0.len() + 70000
                <= usize::MAX by {
                assert(items.contains(w[i]));
                let j = choose|j: int| 0 <= j < items.len() && items[j] == w[i];
                assert(items[j].1.0.len() + 70000 <= usize::MAX);
            }
        }
    }
}

proof fn lemma_used(items: Seq<ItemView>, key: KeyView)
    requires
        distinct_keys(items),
        all_short(items),
    ensures
        distinct_keys(used(items, key)),
        all_short(used(items, key)),
        used(items, key).len() <= items.len(),
        forall|k: KeyView| #[trigger] value_of(used(items, key), k) == value_of(items, k),
{
    lemma_without(items, key);
    lemma_value_of(items, key);
    if let Some(v) = value_of(items, key) {
        lemma_fronted(without(items, key), key, v);
    }
}

proof fn lemma_fronted(rest: Seq<ItemView>, key: KeyView, v: (Seq<u8>, u64))
    requires
        distinct_keys(rest),
        all_short(rest),
        value_of(rest, key) is None,
    ensures
        distinct_keys(seq![(key, v)] + rest),
        v.0.len() + 70000 <= usize::MAX ==> all_short(seq![(key, v)] + rest),
        value_of(seq![(key, v)] + rest, key) == Some(v),
        forall|k: KeyView|
            k != key ==> #[trigger] value_of(seq![(key, v)] + rest, k) == value_of(rest, k),
{
    let u = seq![(key, v)] + rest;
    lemma_value_of(rest, key);
    assert(u.skip(1) =~= rest);
    assert forall|i: int, j: int| 0 <= i < j < u.len() implies (#[trigger] u[i]).0 != (
    #[trigger] u[j]).0 by {
        if i > 0 {
            assert(rest[i - 1].0 != rest[j - 1].0);
        } else {
            assert(u[j] == rest[j - 1]);
        }
    }
    if v.0.len() + 70000 <= usize::MAX {
        assert forall|i: int| 0 <= i < u.len() implies (#[trigger] u[i]).1.0.len() + 70000
            <= usize::MAX by {
            if i > 0 {
                assert(u[i] == rest[i - 1]);
            }
        }
    }
}

proof fn lemma_drop_last(items: Seq<ItemView>)
    requires
        items.len() > 0,
        distinct_keys(items),
    ensures
        distinct_keys(items.drop_last()),
        all_short(items) ==> all_short(items.drop_last()),
        forall|k: KeyView|
            k != items.last().0 ==> #[trigger] value_of(items.drop_last(), k) == value_of(items, k),
        value_of(items.drop_last(), items.last().0) is None,
    decreases items.len(),
{
    let d = items.drop_last();
    assert forall|i: int, j: int| 0 <= i < j < d.len() implies (#[trigger] d[i]).0 != (
    #[trigger] d[j]).0 by {
        assert(items[i].0 != items[j].0);
    }
    if all_short(items) {
        assert forall|i: int| 0 <= i < d.len() implies (#[trigger] d[i]).1.0.len() + 70000
            <= usize::MAX by {
            assert(d[i] == items[i]);
        }
    }
    if items.len() > 1 {
        let rest = items.skip(1);
        assert(distinct_keys(rest)) by {
            assert forall|i: int, j: int| 0 <= i < j < rest.len() implies (#[trigger] rest[i]).0
                != (#[trigger] rest[j]).0 by {
                assert(items[i + 1].0 != items[j + 1].0);
            }
        }
        lemma_drop_last(rest);
        assert(d.skip(1) =~= rest.drop_last());
        assert(rest.last() == items.last());
        assert(items[0].0 != items[items.len() - 1].0);
        assert forall|k: KeyView| k != items.last().0 implies #[trigger] value_of(d, k) == value_of(
            items,
            k,
        ) by {
            assert(value_of(rest.drop_last(), k) == value_of(rest, k));
        }
    } else {
        assert forall|k: KeyView| k != items.last().0 implies #[trigger] value_of(d, k) == value_of(
            items,
            k,
        ) by {
            assert(value_of(items.skip(1), k) is None);
        }
    }
}

proof fn lemma_stored(items: Seq<ItemView>, capacity: nat, key: KeyView, v: (Seq<u8>, u64))
    requires
        distinct_keys(items),
        all_short(items),
        0 < capacity,
        items.len() <= capacity,
    ensures
        distinct_keys(stored(items, capacity, key, v)),
        v.0.len() + 70000 <= usize::MAX ==> all_short(stored(items, capacity, key, v)),
        stored(items, capacity, key, v).len() <= capacity,
        value_of(stored(items, capacity, key, v), key) == Some(v),
{
    lemma_without(items, key);
    if value_of(items, key) is Some {
        lemma_fronted(without(items, key), key, v);
    } else if items.len() == capacity {
        lemma_drop_last(items);
        lemma_fronted(items.drop_last(), key, v);
    } else {
        lemma_fronted(items, key, v);
    }
}

proof fn lemma_without_len(items: Seq<ItemView>, key: KeyView)
    requires
        distinct_keys(items),
    ensures
        without(items, key).len() == items.len() - (if value_of(items, key) is Some {
            1int
        } else {
            0
        }),
    decreases items.len(),
{
    if items.len() > 0 {
        let rest = items.skip(1);
        assert forall|i: int, j: int| 0 <= i < j < rest.len() implies (#[trigger] rest[i]).0 != (
        #[trigger] rest[j]).0 by {
            assert(items[i + 1].0 != items[j + 1].0);
        }
        lemma_without_len(rest, key);
        if items[0].0 == key {
            lemma_value_of(rest, key);
            if let Some(v) = value_of(rest, key) {
                let i = choose|i: int| 0 <= i < rest.len() && #[trigger] rest[i] == (key, v);
                assert(items[i + 1].0 == items[0].0);
            }
        }
    }
}

/// A response that has been stored is found under its key, whatever the cache
/// held before. The number of entries stays the same if the key was held, and
/// never exceeds the capacity.
pub proof fn law_stored_is_found(
    items: Seq<ItemView>,
    capacity: nat,
    key: KeyView,
    v: (Seq<u8>, u64),
)
    requires
        distinct_keys(items),
        all_short(items),
        0 < capacity,
        items.len() <= capacity,
    ensures
        value_of(stored(items, capacity, key, v), key) == Some(v),
        stored(items, capacity, key, v).len() <= capacity,
        value_of(items, key) is Some ==> stored(items, capacity, key, v).len() == items.len(),
{
    lemma_stored(items, capacity, key, v);
    lemma_without_len(items, key);
}

/// Storing under one key does not change what is found under another, be it of
/// another transport, name or type, except that the least recently used entry
/// leaves a full cache.
pub proof fn law_other_keys_unchanged(
    items: Seq<ItemView>,
    capacity: nat,
    key: KeyView,
    v: (Seq<u8>, u64),
    other: KeyView,
)
    requires
        distinct_keys(items),
        all_short(items),
        0 < capacity,
        items.len() <= capacity,
        other != key,
    ensures
        value_of(stored(items, capacity, key, v), other) == (if value_of(items, key) is None
            && items.len() == capacity && items.last().0 == other {
            None
        } else {
            value_of(items, other)
        }),
{
    lemma_without(items, key);
    if value_of(items, key) is Some {
        lemma_fronted(without(items, key), key, v);
    } else if items.len() == capacity {
        lemma_drop_last(items);
        lemma_fronted(items.drop_last(), key, v);
    } else {
        lemma_fronted(items, key, v);
    }
}

/// A lookup changes only what is found under its own key, and that only if the
/// entry has expired for good.
pub proof fn law_lookup_keeps_entries(
    items: Seq<ItemView>,
    key: KeyView,
    now: u64,
    optimistic_ttl: Option<u64>,
    other: KeyView,
)
    requires
        distinct_keys(items),
        all_short(items),
    ensures
        other != key ==> value_of(after_lookup(items, key, now, optimistic_ttl), other) == value_of(
            items,
            other,
        ),
        value_of(items, key) matches Some((_, expires)) && now < expires ==> value_of(
            after_lookup(items, key, now, optimistic_ttl),
            key,
        ) == value_of(items, key),
{
    lemma_used(items, key);
    lemma_without(items, key);
}

/// The case of letters in a name does not matter.
pub proof fn law_key_ignores_case(transport: Seq<char>, a: Seq<char>, b: Seq<char>, qtype: u16)
    ensures
        text::lowercase(a) == text::lowercase(b) ==> cache_key(transport, a, qtype) == cache_key(
            transport,
            b,
            qtype,
        ),
        cache_key(transport, text::lowercase(a), qtype) == cache_key(transport, a, qtype),
{
    text::law_lowercase_idempotent(a);
}

/// A call that reads or changes the entries of a cache, with the reading of the
/// clock at which it is made.
pub ghost enum CacheCall {
    Look { transport: Seq<char>, qname: Seq<char>, qtype: u16, now: u64 },
    Store {
        transport: Seq<char>,
        qname: Seq<char>,
        qtype: u16,
        resp: Seq<u8>,
        ttl: u32,
        now: u64,
    },
}

/// The settings of a cache.
pub ghost struct CacheSettings {
    pub capacity: nat,
    pub ttl_cap: u32,
    pub optimistic_ttl: Option<u64>,
}

/// The key that a call is about.
pub open spec fn key_of(call: CacheCall) -> KeyView {
    match call {
        CacheCall::Look { transport, qname, qtype, .. } => cache_key(transport, qname, qtype),
        CacheCall::Store { transport, qname, qtype, .. } => cache_key(transport, qname, qtype),
    }
}

/// When a response that is stored at `now` expires.
pub open spec fn expiry(now: u64, ttl: u32, ttl_cap: u32) -> u64 {
    (now + effective_ttl(ttl, ttl_cap) * NANOS) as u64
}

/// The entries after a call.
pub open spec fn after_call(
    items: Seq<ItemView>,
    s: CacheSettings,
    call: CacheCall,
) -> Seq<ItemView> {
    match call {
        CacheCall::Look { now, .. } => after_lookup(items, key_of(call), now, s.optimistic_ttl),
        CacheCall::Store { resp, ttl, now, .. } => stored(
            items,
            s.capacity,
            key_of(call),
            (resp, expiry(now, ttl, s.ttl_cap)),
        ),
    }
}

/// The entries after one call after the other.
pub open spec fn after_calls(
    items: Seq<ItemView>,
    s: CacheSettings,
    calls: Seq<CacheCall>,
) -> Seq<ItemView>
    decreases calls.len(),
{
    if calls.len() == 0 {
        items
    } else {
        after_call(after_calls(items, s, calls.drop_last()), s, calls.last())
    }
}

/// Whether a call is one that a cache accepts: its response is short enough, and
/// the clock is not at its end.
pub open spec fn acceptable(call: CacheCall) -> bool {
    call matches CacheCall::Store { resp, now, .. } ==> now <= LAST_NOW && resp.len() + 70000
        <= usize::MAX
}

/// What a well-formed cache holds stays well-formed, whatever calls are made.
pub proof fn law_calls_keep_order(items: Seq<ItemView>, s: CacheSettings, calls: Seq<CacheCall>)
    requires
        distinct_keys(items),
        all_short(items),
        0 < s.capacity,
        items.len() <= s.capacity,
        forall|i: int| 0 <= i < calls.len() ==> acceptable(#[trigger] calls[i]),
    ensures
        distinct_keys(after_calls(items, s, calls)),
        all_short(after_calls(items, s, calls)),
        after_calls(items, s, calls).len() <= s.capacity,
    decreases calls.len(),
{
    if calls.len() > 0 {
        assert forall|i: int| 0 <= i < calls.drop_last().len() implies acceptable(
            #[trigger] calls.drop_last()[i],
        ) by {
            assert(acceptable(calls[i]));
        }
        law_calls_keep_order(items, s, calls.drop_last());
        let before = after_calls(items, s, calls.drop_last());
        let key = key_of(calls.last());
        assert(acceptable(calls[calls.len() - 1]));
        lemma_used(before, key);
        lemma_without(before, key);
        if let CacheCall::Store { resp, ttl, now, .. } = calls.last() {
            lemma_stored(before, s.capacity, key, (resp, expiry(now, ttl, s.ttl_cap)));
        }
    }
}

/// A key under which no response was ever stored is not found, whatever other
/// calls were made on a cache that was empty: neither another transport nor
/// another name or type answers for it.
pub proof fn law_never_set_is_missed(
    s: CacheSettings,
    calls: Seq<CacheCall>,
    key: KeyView,
    now: u64,
    r: CacheResult,
)
    requires
        0 < s.capacity,
        forall|i: int| 0 <= i < calls.len() ==> acceptable(#[trigger] calls[i]),
        forall|i: int|
            0 <= i < calls.len() && (#[trigger] calls[i]) is Store ==> key_of(calls[i]) != key,
        lookup_result(
            value_of(after_calls(Seq::empty(), s, calls), key),
            now,
            s.optimistic_ttl,
            r,
        ),
    ensures
        r is Miss,
{
    lemma_never_set(s, calls, key);
}

proof fn lemma_never_set(s: CacheSettings, calls: Seq<CacheCall>, key: KeyView)
    requires
        0 < s.capacity,
        forall|i: int| 0 <= i < calls.len() ==> acceptable(#[trigger] calls[i]),
        forall|i: int|
            0 <= i < calls.len() && (#[trigger] calls[i]) is Store ==> key_of(calls[i]) != key,
    ensures
        value_of(after_calls(Seq::empty(), s, calls), key) is None,
    decreases calls.len(),
{
    if calls.len() > 0 {
        let front = calls.drop_last();
        assert forall|i: int| 0 <= i < front.len() implies acceptable(#[trigger] front[i]) by {
            assert(acceptable(calls[i]));
        }
        assert forall|i: int| 0 <= i < front.len() && (#[trigger] front[i]) is Store implies key_of(
            front[i],
        ) != key by {
            assert(front[i] == calls[i]);
        }
        lemma_never_set(s, front, key);
        law_calls_keep_order(Seq::empty(), s, front);
        let before = after_calls(Seq::empty(), s, front);
        let call = calls[calls.len() - 1];
        match call {
            CacheCall::Store { resp, ttl, now, .. } => {
                law_other_keys_unchanged(
                    before,
                    s.capacity,
                    key_of(call),
                    (resp, expiry(now, ttl, s.ttl_cap)),
                    key,
                );
            },
            CacheCall::Look { .. } => {
                lemma_used(before, key_of(call));
                lemma_without(before, key_of(call));
            },
        }
    }
}

/// Lookups up to `now` leave an entry alone, unless it has expired for good.
proof fn lemma_gets_keep(
    items: Seq<ItemView>,
    s: CacheSettings,
    gets: Seq<CacheCall>,
    key: KeyView,
    v: (Seq<u8>, u64),
    now: u64,
)
    requires
        distinct_keys(items),
        all_short(items),
        0 < s.capacity,
        items.len() <= s.capacity,
        value_of(items, key) == Some(v),
        forall|i: int|
            0 <= i < gets.len() ==> (#[trigger] gets[i]) is Look && gets[i]->Look_now <= now,
    ensures
        ({
            let found = value_of(after_calls(items, s, gets), key);
            found == Some(v) || (found is None && v.1 <= now && !within_grace(
                now,
                v.1,
                s.optimistic_ttl,
            ))
        }),
    decreases gets.len(),
{
    if gets.len() > 0 {
        let front = gets.drop_last();
        assert forall|i: int| 0 <= i < front.len() implies (#[trigger] front[i]) is Look
            && front[i]->Look_now <= now by {
            assert(front[i] == gets[i]);
        }
        assert forall|i: int| 0 <= i < front.len() implies acceptable(#[trigger] front[i]) by {
            assert(front[i] is Look);
        }
        lemma_gets_keep(items, s, front, key, v, now);
        law_calls_keep_order(items, s, front);
        let before = after_calls(items, s, front);
        let call = gets[gets.len() - 1];
        assert(call is Look);
        law_lookup_keeps_entries(before, key_of(call), call->Look_now, s.optimistic_ttl, key);
        lemma_used(before, key_of(call));
        lemma_without(before, key_of(call));
    }
}

fn make_key(transport: &str, qname: &str, qtype: u16) -> (r: (String, String, u16))
    ensures
        key_view(r) == cache_key(transport@, qname@, qtype),
{
    (transport.to_owned(), text::lowercase_text(qname), qtype)
}

fn same_key(a: &(String, String, u16), b: &(String, String, u16)) -> (r: bool)
    ensures
        r == (key_view(*a) == key_view(*b)),
{
    a.2 == b.2 && a.1 == b.1 && a.0 == b.0
}

/// The views of keys.
pub open spec fn key_views(keys: Seq<(String, String, u16)>) -> Seq<KeyView> {
    keys.map_values(|k: (String, String, u16)| key_view(k))
}

impl DnsCache {
    /// The entries, the most recently used first.
    pub closed spec fn items(self) -> Seq<ItemView> {
        lru_items(self.inner)
    }

    /// The number of entries at most.
    pub closed spec fn capacity(self) -> nat {
        lru_capacity(self.inner)
    }

    /// Seconds for which a response is kept at most.
    pub closed spec fn ttl_cap(self) -> u32 {
        self.ttl_cap
    }

    /// Seconds for which an expired response is still handed out.
    pub closed spec fn optimistic_ttl(self) -> Option<u64> {
        self.optimistic_ttl
    }

    /// Whether responses are to be written to disk.
    pub closed spec fn persistent(self) -> bool {
        self.persistent
    }

    /// The keys of the queries that are out.
    pub closed spec fn inflight(self) -> Set<KeyView> {
        key_views(self.inflight@).to_set()
    }

    /// Every key has one entry, the capacity is not exceeded, and no query is
    /// out twice.
    pub closed spec fn wf(self) -> bool {
        &&& 0 < self.capacity()
        &&& self.items().len() <= self.capacity()
        &&& distinct_keys(self.items())
        &&& all_short(self.items())
        &&& key_views(self.inflight@).no_duplicates()
    }

    /// The settings that decide what becomes of the entries.
    pub open spec fn settings(self) -> CacheSettings {
        CacheSettings {
            capacity: self.capacity(),
            ttl_cap: self.ttl_cap(),
            optimistic_ttl: self.optimistic_ttl(),
        }
    }

    /// A well-formed cache has one entry for a key, keeps to its capacity, and
    /// holds what the laws on entries ask for.
    pub proof fn law_well_formed(self)
        requires
            self.wf(),
        ensures
            0 < self.capacity(),
            self.items().len() <= self.capacity(),
            distinct_keys(self.items()),
            all_short(self.items()),
    {
    }

    /// A response is a hit at once after it has been stored, even with no time
    /// to live; the cache keeps to its capacity, and only the least recently
    /// used entry of a full cache leaves for a new key.
    pub proof fn law_set_is_hit_at_once(self, set: CacheCall, r: CacheResult, other: KeyView)
        requires
            self.wf(),
            set is Store,
            acceptable(set),
            lookup_result(
                value_of(after_call(self.items(), self.settings(), set), key_of(set)),
                set->Store_now,
                self.optimistic_ttl(),
                r,
            ),
        ensures
            r matches CacheResult::Hit(b) && buf::contents(b) == set->Store_resp,
            ({
                let held = value_of(self.items(), key_of(set)) is Some;
                let after = after_call(self.items(), self.settings(), set);
                &&& after.len() <= self.capacity()
                &&& held ==> after.len() == self.items().len()
                &&& other != key_of(set) && value_of(self.items(), other) is Some && value_of(
                    after,
                    other,
                ) is None ==> !held && self.items().len() == self.capacity()
                    && self.items().last().0 == other
                &&& other != key_of(set) && value_of(after, other) is Some ==> value_of(
                    after,
                    other,
                ) == value_of(self.items(), other)
            }),
    {
        let v = (set->Store_resp, expiry(set->Store_now, set->Store_ttl, self.ttl_cap()));
        let kept = effective_ttl(set->Store_ttl, self.ttl_cap());
        assert(NANOS <= kept * NANOS <= 0xffff_ffff * 1_000_000_000) by (nonlinear_arith)
            requires
                1 <= kept <= 0xffff_ffff,
                NANOS == 1_000_000_000,
        ;
        law_stored_is_found(self.items(), self.capacity(), key_of(set), v);
        if other != key_of(set) {
            law_other_keys_unchanged(self.items(), self.capacity(), key_of(set), v, other);
        }
    }

    /// After the last call that stored a response, whatever calls came before it,
    /// and after any lookups since, a lookup finds that response under its name,
    /// whatever the case of its letters: it is a hit until it expires, and
    /// nothing from then on, unless the optimistic mode hands it out as stale
    /// for a while. The clock does not run backwards.
    pub proof fn law_last_set_is_found(
        self,
        set: CacheCall,
        gets: Seq<CacheCall>,
        last: CacheCall,
        r: CacheResult,
    )
        requires
            self.wf(),
            set is Store,
            acceptable(set),
            last is Look,
            text::lowercase(last->Look_qname) == text::lowercase(set->Store_qname),
            last->Look_transport == set->Store_transport,
            last->Look_qtype == set->Store_qtype,
            forall|i: int|
                0 <= i < gets.len() ==> (#[trigger] gets[i]) is Look && gets[i]->Look_now
                    <= last->Look_now,
            lookup_result(
                value_of(
                    after_calls(
                        after_call(self.items(), self.settings(), set),
                        self.settings(),
                        gets,
                    ),
                    key_of(last),
                ),
                last->Look_now,
                self.optimistic_ttl(),
                r,
            ),
        ensures
            ({
                let now = last->Look_now;
                let expires = expiry(set->Store_now, set->Store_ttl, self.ttl_cap());
                &&& expires == set->Store_now + effective_ttl(set->Store_ttl, self.ttl_cap())
                    * NANOS
                &&& lookup_result(Some((set->Store_resp, expires)), now, self.optimistic_ttl(), r)
                &&& now < expires ==> (r matches CacheResult::Hit(b) && buf::contents(b)
                    == set->Store_resp)
                &&& now >= expires && self.optimistic_ttl() is None ==> r is Miss
            }),
    {
        let now = last->Look_now;
        let v = (set->Store_resp, expiry(set->Store_now, set->Store_ttl, self.ttl_cap()));
        let kept = effective_ttl(set->Store_ttl, self.ttl_cap());
        assert(kept * NANOS <= 0xffff_ffff * 1_000_000_000) by (nonlinear_arith)
            requires
                kept <= 0xffff_ffff,
                NANOS == 1_000_000_000,
        ;
        lemma_stored(self.items(), self.capacity(), key_of(set), v);
        lemma_gets_keep(
            after_call(self.items(), self.settings(), set),
            self.settings(),
            gets,
            key_of(set),
            v,
            now,
        );
    }

    /// Whether nothing but the entries differs.
    pub open spec fn same_settings(self, other: Self) -> bool {
        &&& self.capacity() == other.capacity()
        &&& self.ttl_cap() == other.ttl_cap()
        &&& self.optimistic_ttl() == other.optimistic_ttl()
        &&& self.persistent() == other.persistent()
        &&& self.inflight() == other.inflight()
    }

    /// A cache in memory only, without optimistic mode.
    pub fn new(capacity: usize, ttl_cap: u32) -> (r: Self)
        requires
            capacity <= usize::MAX / 256,
        ensures
            r.wf(),
            r.items() == Seq::<ItemView>::empty(),
            r.capacity() == (if capacity < 1 {
                1
            } else {
                capacity as nat
            }),
            r.ttl_cap() == ttl_cap,
            r.optimistic_ttl() is None,
            !r.persistent(),
            r.inflight() == Set::<KeyView>::empty(),
    {
        DnsCache::with_options(capacity, ttl_cap, None, false)
    }

    /// A cache with all options: seconds of optimistic mode, and whether
    /// responses are to be written to disk. It holds at least one entry.
    pub fn with_options(
        capacity: usize,
        ttl_cap: u32,
        optimistic_ttl: Option<u64>,
        persistent: bool,
    ) -> (r: Self)
        requires
            capacity <= usize::MAX / 256,
        ensures
            r.wf(),
            r.items() == Seq::<ItemView>::empty(),
            r.capacity() == (if capacity < 1 {
                1
            } else {
                capacity as nat
            }),
            r.ttl_cap() == ttl_cap,
            r.optimistic_ttl() == optimistic_ttl,
            r.persistent() == persistent,
            r.inflight() == Set::<KeyView>::empty(),
    {
        let cap: usize = if capacity < 1 {
            1
        } else {
            capacity
        };
        let r: DnsCache = DnsCache {
            inner: lru_new(cap),
            ttl_cap,
            optimistic_ttl,
            persistent,
            inflight: Vec::new(),
        };
        assert(key_views(r.inflight@) =~= Seq::<KeyView>::empty());
        assert(r.inflight() =~= Set::<KeyView>::empty());
        r
    }

    /// Whether a response that expires at `expires` is still handed out.
    fn in_grace(&self, now: u64, expires: u64) -> (r: bool)
        ensures
            r == within_grace(now, expires, self.optimistic_ttl()),
    {
        match self.optimistic_ttl {
            Some(t) => (now as u128) < expires as u128 + t as u128 * NANOS as u128,
            None => false,
        }
    }

    /// A response with the time to live of its records set for a stale one.
    fn stale(resp: &bytes::Bytes) -> (r: bytes::Bytes)
        requires
            buf::contents(*resp).len() + 70000 <= usize::MAX,
        ensures
            buf::contents(r) == wire::normalized(buf::contents(*resp), STALE_TTL),
    {
        buf::bytes_of(wire::normalize_ttl(buf::bytes_slice(resp), STALE_TTL))
    }

    /// Looks a query up in memory.
    pub fn get(&mut self, transport: &str, qname: &str, qtype: u16, now: u64) -> (r: CacheResult)
        requires
            old(self).wf(),
        ensures
            final(self).wf(),
            final(self).same_settings(*old(self)),
            ({
                let key = cache_key(transport@, qname@, qtype);
                &&& lookup_result(
                    value_of(old(self).items(), key),
                    now,
                    old(self).optimistic_ttl(),
                    r,
                )
                &&& final(self).items() == after_call(
                    old(self).items(),
                    old(self).settings(),
                    CacheCall::Look { transport: transport@, qname: qname@, qtype, now },
                )
            }),
    {
        let key: (String, String, u16) = make_key(transport, qname, qtype);
        let ghost k = key_view(key);
        let ghost before = self.items();
        proof {
            lemma_used(before, k);
            lemma_value_of(before, k);
            lemma_without(before, k);
            lemma_without(used(before, k), k);
        }
        match lru_get(&mut self.inner, &key) {
            Some((resp, expires)) => {
                if now < expires {
                    return CacheResult::Hit(resp);
                }
                if self.in_grace(now, expires) {
                    proof {
                        let i = choose|i: int|
                            0 <= i < before.len() && #[trigger] before[i] == (
                                k,
                                (buf::contents(resp), expires),
                            );
                        assert(before[i].1.0 == buf::contents(resp));
                    }
                    return CacheResult::Stale(DnsCache::stale(&resp));
                }
                lru_pop(&mut self.inner, &key);
                proof {
                    lemma_without_used(before, k);
                }
                CacheResult::Miss
            },
            None => CacheResult::Miss,
        }
    }

    /// Takes in a response that was found on disk after a miss: one that has
    /// not expired is stored for the rest of its time, one that has is handed
    /// out only in optimistic mode.
    pub fn admit_persisted(
        &mut self,
        transport: &str,
        qname: &str,
        qtype: u16,
        raw: bytes::Bytes,
        expire_at: u64,
        now: u64,
        unix_now: u64,
    ) -> (r: CacheResult)
        requires
            old(self).wf(),
            now <= LAST_NOW,
            buf::contents(raw).len() + 70000 <= usize::MAX,
        ensures
            final(self).wf(),
            final(self).same_settings(*old(self)),
            if expire_at > unix_now {
                let left = if expire_at - unix_now < old(self).ttl_cap() {
                    expire_at - unix_now
                } else {
                    old(self).ttl_cap() as int
                };
                &&& r matches CacheResult::Hit(b) && buf::contents(b) == buf::contents(raw)
                &&& final(self).items() == stored(
                    old(self).items(),
                    old(self).capacity(),
                    cache_key(transport@, qname@, qtype),
                    (buf::contents(raw), (now + left * NANOS) as u64),
                )
            } else {
                &&& final(self).items() == old(self).items()
                &&& if old(self).optimistic_ttl() matches Some(t) && unix_now - expire_at < t {
                    r matches CacheResult::Stale(b) && buf::contents(b) == wire::normalized(
                        buf::contents(raw),
                        STALE_TTL,
                    )
                } else {
                    r is Miss
                }
            },
    {
        if expire_at > unix_now {
            let rest: u64 = expire_at - unix_now;
            let left: u32 = if rest < self.ttl_cap as u64 {
                rest as u32
            } else {
                self.ttl_cap
            };
            self.insert_memory(make_key(transport, qname, qtype), raw.clone(), left, now);
            return CacheResult::Hit(raw);
        }
        if let Some(t) = self.optimistic_ttl {
            if unix_now - expire_at < t {
                return CacheResult::Stale(DnsCache::stale(&raw));
            }
        }
        CacheResult::Miss
    }

    /// Stores a response for `ttl` seconds, but no longer than the cap and at
    /// least one. Returns when it expires on disk, if it is to be written there.
    pub fn set(
        &mut self,
        transport: &str,
        qname: &str,
        qtype: u16,
        resp: bytes::Bytes,
        ttl: u32,
        now: u64,
        unix_now: u64,
    ) -> (r: Option<u64>)
        requires
            old(self).wf(),
            now <= LAST_NOW,
            unix_now + u32::MAX <= u64::MAX,
            buf::contents(resp).len() + 70000 <= usize::MAX,
        ensures
            final(self).wf(),
            final(self).same_settings(*old(self)),
            ({
                let kept = effective_ttl(ttl, old(self).ttl_cap());
                &&& final(self).items() == after_call(
                    old(self).items(),
                    old(self).settings(),
                    CacheCall::Store {
                        transport: transport@,
                        qname: qname@,
                        qtype,
                        resp: buf::contents(resp),
                        ttl,
                        now,
                    },
                )
                &&& r == (if old(self).persistent() {
                    Some((unix_now + kept) as u64)
                } else {
                    None
                })
            }),
    {
        let t: u32 = if ttl < self.ttl_cap {
            ttl
        } else {
            self.ttl_cap
        };
        let kept: u32 = if t < 1 {
            1
        } else {
            t
        };
        self.insert_memory(make_key(transport, qname, qtype), resp, kept, now);
        if self.persistent {
            Some(unix_now + kept as u64)
        } else {
            None
        }
    }

    fn insert_memory(
        &mut self,
        key: (String, String, u16),
        resp: bytes::Bytes,
        ttl_secs: u32,
        now: u64,
    )
        requires
            old(self).wf(),
            now <= LAST_NOW,
            buf::contents(resp).len() + 70000 <= usize::MAX,
        ensures
            final(self).wf(),
            final(self).same_settings(*old(self)),
            final(self).items() == stored(
                old(self).items(),
                old(self).capacity(),
                key_view(key),
                (buf::contents(resp), (now + ttl_secs * NANOS) as u64),
            ),
    {
        let expires: u64 = now + ttl_secs as u64 * NANOS;
        proof {
            lemma_stored(
                self.items(),
                self.capacity(),
                key_view(key),
                (buf::contents(resp), expires),
            );
        }
        lru_put(&mut self.inner, key, (resp, expires));
    }

    /// Notes a query: the first of its kind is to go out, others wait.
    pub fn try_lead_inflight(&mut self, transport: &str, qname: &str, qtype: u16) -> (r:
        InflightResult)
        requires
            old(self).wf(),
        ensures
            final(self).wf(),
            final(self).items() == old(self).items(),
            final(self).capacity() == old(self).capacity(),
            final(self).ttl_cap() == old(self).ttl_cap(),
            final(self).optimistic_ttl() == old(self).optimistic_ttl(),
            final(self).persistent() == old(self).persistent(),
            final(self).inflight() == old(self).inflight().insert(
                cache_key(transport@, qname@, qtype),
            ),
            r == (if old(self).inflight().contains(cache_key(transport@, qname@, qtype)) {
                InflightResult::Waiter
            } else {
                InflightResult::Leader
            }),
    {
        let key: (String, String, u16) = make_key(transport, qname, qtype);
        let ghost k = key_view(key);
        let ghost before = key_views(self.inflight@);
        let mut i: usize = 0;
        while i < self.inflight.len()
            invariant
                *self == *old(self),
                old(self).wf(),
                i <= self.inflight@.len(),
                k == key_view(key),
                k == cache_key(transport@, qname@, qtype),
                before == key_views(self.inflight@),
                forall|j: int| 0 <= j < i ==> before[j] != k,
            decreases self.inflight@.len() - i,
        {
            if same_key(&self.inflight[i], &key) {
                assert(before[i as int] == k);
                assert(before.contains(k));
                assert(before.to_set().insert(k) =~= before.to_set());
                return InflightResult::Waiter;
            }
            i = i + 1;
        }
        self.inflight.push(key);
        proof {
            let after = key_views(self.inflight@);
            assert(!before.contains(k));
            assert(after =~= before.push(k));
            assert(after.to_set() =~= before.to_set().insert(k)) by {
                assert forall|x: KeyView| after.contains(x) <==> before.contains(x) || x == k by {
                    if before.contains(x) {
                        let j = choose|j: int| 0 <= j < before.len() && before[j] == x;
                        assert(after[j] == x);
                    }
                    assert(after[before.len() as int] == k);
                }
            }
            assert(after.no_duplicates());
        }
        InflightResult::Leader
    }

    /// Ends a query that was out. Returns the response that is to be handed to
    /// those that wait; there is none if the query has failed or was not out.
    pub fn complete_inflight(
        &mut self,
        transport: &str,
        qname: &str,
        qtype: u16,
        resp: Option<&bytes::Bytes>,
    ) -> (r: Option<bytes::Bytes>)
        requires
            old(self).wf(),
        ensures
            final(self).wf(),
            final(self).items() == old(self).items(),
            final(self).capacity() == old(self).capacity(),
            final(self).ttl_cap() == old(self).ttl_cap(),
            final(self).optimistic_ttl() == old(self).optimistic_ttl(),
            final(self).persistent() == old(self).persistent(),
            final(self).inflight() == old(self).inflight().remove(
                cache_key(transport@, qname@, qtype),
            ),
            r is Some <==> resp is Some && old(self).inflight().contains(
                cache_key(transport@, qname@, qtype),
            ),
            r matches Some(b) ==> buf::contents(b) == buf::contents(*resp->0),
    {
        let key: (String, String, u16) = make_key(transport, qname, qtype);
        let ghost k = key_view(key);
        let ghost before = key_views(self.inflight@);
        let mut i: usize = 0;
        while i < self.inflight.len()
            invariant
                *self == *old(self),
                old(self).wf(),
                i <= self.inflight@.len(),
                k == key_view(key),
                k == cache_key(transport@, qname@, qtype),
                before == key_views(self.inflight@),
                forall|j: int| 0 <= j < i ==> before[j] != k,
            decreases self.inflight@.len() - i,
        {
            if same_key(&self.inflight[i], &key) {
                self.inflight.remove(i);
                proof {
                    let after = key_views(self.inflight@);
                    assert(before[i as int] == k);
                    assert(before.contains(k));
                    assert(after =~= before.remove(i as int));
                    assert forall|x: KeyView| after.contains(x) <==> before.contains(x) && x
                        != k by {
                        if after.contains(x) {
                            let j = choose|j: int| 0 <= j < after.len() && after[j] == x;
                            let m = if j < i { j } else { j + 1 };
                            assert(before[m] == x);
                        }
                        if before.contains(x) && x != k {
                            let m = choose|m: int| 0 <= m < before.len() && before[m] == x;
                            assert(after[if m < i { m } else { m - 1 }] == x);
                        }
                    }
                    assert(after.to_set() =~= before.to_set().remove(k));
                    assert(after.no_duplicates());
                }
                return match resp {
                    Some(b) => Some(b.clone()),
                    None => None,
                };
            }
            i = i + 1;
        }
        proof {
            assert(!before.contains(k));
            assert(before.to_set().remove(k) =~= before.to_set());
        }
        None
    }

    /// The number of queries that are out.
    pub fn inflight_len(&self) -> (r: usize)
        requires
            self.wf(),
        ensures
            r == self.inflight().len(),
    {
        proof {
            key_views(self.inflight@).unique_seq_to_set();
        }
        self.inflight.len()
    }

    /// Whether responses are to be written to disk.
    pub fn is_persistent(&self) -> (r: bool)
        ensures
            r == self.persistent(),
    {
        self.persistent
    }

    /// The number of entries.
    pub fn len(&self) -> (r: usize)
        ensures
            r == self.items().len(),
    {
        lru_len(&self.inner)
    }

    /// Whether there are no entries.
    pub fn is_empty(&self) -> (r: bool)
        ensures
            r == (self.items().len() == 0),
    {
        self.len() == 0
    }

    /// Forgets all entries.
    pub fn clear(&mut self)
        requires
            old(self).wf(),
        ensures
            final(self).wf(),
            final(self).same_settings(*old(self)),
            final(self).items() == Seq::<ItemView>::empty(),
    {
        lru_clear(&mut self.inner);
    }
}

proof fn lemma_without_used(items: Seq<ItemView>, key: KeyView)
    ensures
        without(used(items, key), key) == without(items, key),
{
    if let Some(v) = value_of(items, key) {
        let u = used(items, key);
        let w = without(items, key);
        assert(u.skip(1) =~= w);
        lemma_without(items, key);
        lemma_without_absent(w, key);
    } else {
    }
}

proof fn lemma_without_absent(items: Seq<ItemView>, key: KeyView)
    requires
        value_of(items, key) is None,
    ensures
        without(items, key) == items,
    decreases items.len(),
{
    if items.len() > 0 {
        lemma_without_absent(items.skip(1), key);
        assert(seq![items[0]] + items.skip(1) =~= items);
    }
}

/// How long a response is handed out. It is kept for the time that is asked for,
/// at least a second and no longer than the cap; until then it is a hit, and is
/// handed out as it is. Afterwards it is stale for as long as the settings say,
/// and its records then live for a second. After that it is a miss.
pub proof fn law_life_of_a_response(
    resp: Seq<u8>,
    ttl: u32,
    ttl_cap: u32,
    stored_at: u64,
    expires: u64,
    now: u64,
    optimistic_ttl: Option<u64>,
    r: CacheResult,
)
    requires
        expires == stored_at + effective_ttl(ttl, ttl_cap) * NANOS,
        lookup_result(Some((resp, expires)), now, optimistic_ttl, r),
    ensures
        ({
            let kept: int = if ttl == 0 || ttl_cap == 0 {
                1
            } else if ttl <= ttl_cap {
                ttl as int
            } else {
                ttl_cap as int
            };
            let end = stored_at + kept * 1_000_000_000;
            let grace: int = match optimistic_ttl {
                Some(t) => t as int,
                None => 0,
            };
            &&& r is Hit <==> now < end
            &&& r matches CacheResult::Hit(b) ==> buf::contents(b) == resp
            &&& r is Stale <==> end <= now < end + grace * 1_000_000_000
            &&& r matches CacheResult::Stale(b) ==> buf::contents(b) == wire::normalized(resp, 1)
        }),
{
}

/// Two queries share an entry exactly if they go the same way, ask for the same
/// type, and for names that differ in nothing but the case of letters.
pub proof fn law_what_shares_an_entry(
    t1: Seq<char>,
    n1: Seq<char>,
    q1: u16,
    t2: Seq<char>,
    n2: Seq<char>,
    q2: u16,
)
    ensures
        cache_key(t1, n1, q1) == cache_key(t2, n2, q2) <==> t1 == t2 && q1 == q2
            && text::lowercase(n1) == text::lowercase(n2),
{
}

} // verus!
