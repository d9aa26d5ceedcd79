//! DNS messages as bytes (RFC 1035).
use vstd::prelude::*;
use crate::buf;
use crate::inbound::tun::checksum;
use crate::net;
use crate::net::IpAddr;
use crate::text;

verus! {

/// How many compression pointers of one name are followed at most.
pub const MAX_JUMPS: u16 = 16;

/// The big-endian word at `at`.
pub open spec fn word(msg: Seq<u8>, at: int) -> int {
    checksum::be_word(msg[at], msg[at + 1]) as int
}

/// The big-endian double word at `at`.
pub open spec fn double_word(msg: Seq<u8>, at: int) -> u32 {
    net::from_octets(msg.subrange(at, at + 4)) as u32
}

/// The position after the name at `pos`: after its zero byte, or after its
/// first compression pointer.
pub open spec fn name_end(msg: Seq<u8>, pos: int) -> Option<int>
    decreases msg.len() + 256 - pos,
{
    if pos < 0 || pos >= msg.len() {
        None
    } else if msg[pos] == 0 {
        Some(pos + 1)
    } else if msg[pos] >= 192 {
        Some(pos + 2)
    } else {
        name_end(msg, pos + 1 + msg[pos])
    }
}

/// The labels of the name at `pos` after `jumps` pointers. Pointers lead
/// towards the start, but not into the header.
pub open spec fn name_labels(msg: Seq<u8>, pos: int, jumps: int) -> Option<Seq<Seq<char>>>
    decreases MAX_JUMPS - jumps, msg.len() - pos,
{
    if pos < 0 || pos >= msg.len() {
        None
    } else if msg[pos] == 0 {
        Some(Seq::empty())
    } else if msg[pos] >= 192 {
        let offset = word(msg, pos) - 0xc000;
        if pos + 1 >= msg.len() || offset < 12 || offset >= pos || jumps >= MAX_JUMPS {
            None
        } else {
            name_labels(msg, offset, jumps + 1)
        }
    } else {
        let next = pos + 1 + msg[pos];
        if next > msg.len() {
            None
        } else {
            match name_labels(msg, next, jumps) {
                Some(rest) => Some(seq![text::lossy_utf8(msg.subrange(pos + 1, next))] + rest),
                None => None,
            }
        }
    }
}

/// The name that a message asks for, with dots between its labels.
pub open spec fn question_name(msg: Seq<u8>) -> Option<Seq<char>> {
    if msg.len() < 13 {
        None
    } else {
        match name_labels(msg, 12, 0) {
            Some(l) => if l.len() > 0 {
                Some(text::joined(l, '.'))
            } else {
                None
            },
            None => None,
        }
    }
}

/// The type that a message asks for.
pub open spec fn question_type(msg: Seq<u8>) -> Option<u16> {
    if msg.len() < 13 {
        None
    } else {
        match name_end(msg, 12) {
            Some(p) => if p + 2 <= msg.len() {
                Some(word(msg, p) as u16)
            } else {
                None
            },
            None => None,
        }
    }
}

/// The response code of a message.
pub open spec fn rcode(msg: Seq<u8>) -> int {
    msg[3] as int % 16
}

/// The number of answers of a message.
pub open spec fn answer_count(msg: Seq<u8>) -> int {
    word(msg, 6)
}

/// Where the answers of a message begin.
pub open spec fn answers_start(msg: Seq<u8>) -> Option<int> {
    match name_end(msg, 12) {
        Some(p) => Some(p + 4),
        None => None,
    }
}

/// The smaller of two numbers.
pub open spec fn lesser(a: u32, b: u32) -> u32 {
    if a < b {
        a
    } else {
        b
    }
}

fn word_at(msg: &[u8], at: usize) -> (r: u16)
    requires
        at + 2 <= msg@.len(),
    ensures
        r == word(msg@, at as int),
{
    let n: usize = msg.len();
    assert(at + 1 < n);
    checksum::be16(msg[at], msg[at + 1])
}

fn double_word_at(msg: &[u8], at: usize) -> (r: u32)
    requires
        at + 4 <= msg@.len(),
    ensures
        r == double_word(msg@, at as int),
{
    let n: usize = msg.len();
    assert(at + 4 <= n);
    net::v4_of_octets(&msg[at..at + 4])
}

/// The position after the name at `start`.
pub fn skip_name(msg: &[u8], start: usize) -> (r: Option<usize>)
    requires
        msg@.len() + 1000 <= usize::MAX,
    ensures
        r is Some <==> name_end(msg@, start as int) is Some,
        r matches Some(p) ==> Some(p as int) == name_end(msg@, start as int) && start < p <= msg@.len()
            + 1,
{
    let n: usize = msg.len();
    let mut pos: usize = start;
    loop
        invariant
            n == msg@.len(),
            n + 1000 <= usize::MAX,
            start <= pos,
            name_end(msg@, start as int) == name_end(msg@, pos as int),
        decreases n + 1000 - pos,
    {
        if pos >= n {
            return None;
        }
        let l: usize = msg[pos] as usize;
        if l == 0 {
            return Some(pos + 1);
        }
        if l >= 192 {
            return Some(pos + 2);
        }
        pos = pos + 1 + l;
    }
}

/// The name that a message asks for.
pub fn extract_qname(msg: &[u8]) -> (r: Option<String>)
    requires
        msg@.len() + 1000 <= usize::MAX,
    ensures
        r is Some <==> question_name(msg@) is Some,
        r matches Some(s) ==> s@ == question_name(msg@)->0,
{
    let n: usize = msg.len();
    if n < 13 {
        return None;
    }
    let mut pos: usize = 12;
    let mut labels: Vec<Vec<char>> = Vec::new();
    let mut jumps: u16 = 0;
    let ghost all = name_labels(msg@, 12, 0);
    assert(all is Some ==> Seq::<Vec<char>>::empty().map_values(|v: Vec<char>| v@) + all->0
        =~= all->0);
    loop
        invariant
            n == msg@.len(),
            n >= 13,
            n + 1000 <= usize::MAX,
            jumps <= MAX_JUMPS,
            all == name_labels(msg@, 12, 0),
            all == match name_labels(msg@, pos as int, jumps as int) {
                Some(rest) => Some(labels@.map_values(|v: Vec<char>| v@) + rest),
                None => None,
            },
        decreases MAX_JUMPS - jumps, n + 1000 - pos,
    {
        if pos >= n {
            return None;
        }
        let len: usize = msg[pos] as usize;
        if len == 0 {
            proof {
                let v = labels@.map_values(|v: Vec<char>| v@);
                assert(v + Seq::<Seq<char>>::empty() =~= v);
            }
            if labels.len() == 0 {
                return None;
            }
            return Some(text::string_of(&text::join(&labels, '.')));
        }
        if len >= 192 {
            if pos + 1 >= n {
                return None;
            }
            let offset: usize = (len - 192) * 256 + msg[pos + 1] as usize;
            assert(offset == word(msg@, pos as int) - 0xc000);
            if offset < 12 || offset >= pos || jumps >= MAX_JUMPS {
                return None;
            }
            jumps = jumps + 1;
            pos = offset;
        } else {
            let next: usize = pos + 1 + len;
            if next > n {
                return None;
            }
            let t: String = text::lossy_text(&msg[pos + 1..next]);
            let label: Vec<char> = text::chars_of(t.as_str());
            let ghost before = labels@.map_values(|v: Vec<char>| v@);
            let ghost lv = label@;
            labels.push(label);
            proof {
                assert(labels@.map_values(|v: Vec<char>| v@) =~= before.push(lv));
                let rest = name_labels(msg@, next as int, jumps as int);
                if rest is Some {
                    assert(before + (seq![lv] + rest->0) =~= before.push(lv) + rest->0);
                }
            }
            pos = next;
        }
    }
}

/// The type that a message asks for.
pub fn extract_qtype(msg: &[u8]) -> (r: Option<u16>)
    requires
        msg@.len() + 1000 <= usize::MAX,
    ensures
        r == question_type(msg@),
{
    let n: usize = msg.len();
    if n < 13 {
        return None;
    }
    match skip_name(msg, 12) {
        Some(p) => if p + 2 > n {
            None
        } else {
            Some(word_at(msg, p))
        },
        None => None,
    }
}

// Answers

/// The addresses in up to `n` records from `pos` on that are of the given
/// type: IPv4 in records of type 1 with four bytes, IPv6 in records of type 28
/// with sixteen. The walk ends with the first record that is not complete.
pub open spec fn addresses_from(msg: Seq<u8>, pos: int, n: nat, qtype: u16) -> Seq<IpAddr>
    decreases n,
{
    if n == 0 || pos >= msg.len() {
        Seq::empty()
    } else {
        match name_end(msg, pos) {
            None => Seq::empty(),
            Some(p) => {
                let len = word(msg, p + 8);
                let data = p + 10;
                if data > msg.len() || data + len > msg.len() {
                    Seq::empty()
                } else {
                    let rest = addresses_from(msg, data + len, (n - 1) as nat, qtype);
                    if word(msg, p) != qtype {
                        rest
                    } else if qtype == 1 && len == 4 {
                        seq![
                            IpAddr::V4(net::from_octets(msg.subrange(data, data + 4)) as u32),
                        ] + rest
                    } else if qtype == 28 && len == 16 {
                        seq![
                            IpAddr::V6(net::from_octets(msg.subrange(data, data + 16)) as u128),
                        ] + rest
                    } else {
                        rest
                    }
                }
            },
        }
    }
}

/// The addresses of a type that a response answers with.
pub open spec fn answered(msg: Seq<u8>, qtype: u16) -> Seq<IpAddr> {
    if msg.len() < 12 {
        Seq::empty()
    } else {
        match answers_start(msg) {
            None => Seq::empty(),
            Some(p) => addresses_from(msg, p, answer_count(msg) as nat, qtype),
        }
    }
}

/// The first address of a type that a response answers with.
pub open spec fn first_answered(msg: Seq<u8>, qtype: u16) -> Option<IpAddr> {
    if answered(msg, qtype).len() > 0 {
        Some(answered(msg, qtype)[0])
    } else {
        None
    }
}

/// Collects the addresses of a type that a response answers with.
pub fn extract_all_ips(resp: &[u8], qtype: u16) -> (r: Vec<IpAddr>)
    requires
        resp@.len() + 70000 <= usize::MAX,
    ensures
        r@ == answered(resp@, qtype),
{
    let n: usize = resp.len();
    let mut out: Vec<IpAddr> = Vec::new();
    if n < 12 {
        return out;
    }
    let count: usize = word_at(resp, 6) as usize;
    if count == 0 {
        assert(answered(resp@, qtype) =~= Seq::<IpAddr>::empty());
        return out;
    }
    let mut pos: usize = match skip_name(resp, 12) {
        Some(p) => p + 4,
        None => {
            return out;
        },
    };
    let mut i: usize = 0;
    let ghost goal = answered(resp@, qtype);
    assert(out@ + goal =~= goal);
    while i < count
        invariant
            n == resp@.len(),
            n + 70000 <= usize::MAX,
            i <= count,
            goal == answered(resp@, qtype),
            goal == out@ + addresses_from(resp@, pos as int, (count - i) as nat, qtype),
        decreases count - i,
    {
        let ghost before = out@;
        if pos >= n {
            assert(goal =~= out@);
            return out;
        }
        let p: usize = match skip_name(resp, pos) {
            Some(p) => p,
            None => {
                assert(goal =~= out@);
                return out;
            },
        };
        if p + 10 > n {
            assert(goal =~= out@);
            return out;
        }
        let kind: u16 = word_at(resp, p);
        let len: usize = word_at(resp, p + 8) as usize;
        let data: usize = p + 10;
        if data + len > n {
            assert(goal =~= out@);
            return out;
        }
        let ghost rest = addresses_from(resp@, data + len, (count - i - 1) as nat, qtype);
        if kind == qtype {
            if qtype == 1 && len == 4 {
                let ip: IpAddr = IpAddr::V4(net::v4_of_octets(&resp[data..data + 4]));
                out.push(ip);
                assert(before + (seq![ip] + rest) =~= out@ + rest);
            } else if qtype == 28 && len == 16 {
                let ip: IpAddr = IpAddr::V6(net::v6_of_octets(&resp[data..data + 16]));
                out.push(ip);
                assert(before + (seq![ip] + rest) =~= out@ + rest);
            }
        }
        pos = data + len;
        i = i + 1;
    }
    assert(goal =~= out@);
    out
}

/// The first address of a type that a response answers with.
pub fn extract_first_ip(resp: &[u8], qtype: u16) -> (r: Option<IpAddr>)
    requires
        resp@.len() + 70000 <= usize::MAX,
    ensures
        r == first_answered(resp@, qtype),
{
    let n: usize = resp.len();
    if n < 12 {
        return None;
    }
    let count: usize = word_at(resp, 6) as usize;
    if count == 0 {
        assert(answered(resp@, qtype) =~= Seq::<IpAddr>::empty());
        return None;
    }
    let mut pos: usize = match skip_name(resp, 12) {
        Some(p) => p + 4,
        None => {
            return None;
        },
    };
    let mut i: usize = 0;
    while i < count
        invariant
            n == resp@.len(),
            n + 70000 <= usize::MAX,
            i <= count,
            answered(resp@, qtype) == addresses_from(
                resp@,
                pos as int,
                (count - i) as nat,
                qtype,
            ),
        decreases count - i,
    {
        if pos >= n {
            return None;
        }
        let p: usize = match skip_name(resp, pos) {
            Some(p) => p,
            None => {
                return None;
            },
        };
        if p + 10 > n {
            return None;
        }
        let kind: u16 = word_at(resp, p);
        let len: usize = word_at(resp, p + 8) as usize;
        let data: usize = p + 10;
        if data + len > n {
            return None;
        }
        if kind == qtype {
            if qtype == 1 && len == 4 {
                return Some(IpAddr::V4(net::v4_of_octets(&resp[data..data + 4])));
            } else if qtype == 28 && len == 16 {
                return Some(IpAddr::V6(net::v6_of_octets(&resp[data..data + 16])));
            }
        }
        pos = data + len;
        i = i + 1;
    }
    None
}

/// The first address of a type that a response answers with.
pub fn extract_first_ip_from_resp(resp: &[u8], qtype: u16) -> (r: Option<IpAddr>)
    requires
        resp@.len() + 70000 <= usize::MAX,
    ensures
        r == first_answered(resp@, qtype),
{
    extract_first_ip(resp, qtype)
}

// Times to live

/// The least of `least` and the times to live of up to `n` records from `pos`
/// on. The walk ends with the first record whose fixed part is not complete; a
/// name that does not end leaves nothing.
pub open spec fn least_ttl_from(msg: Seq<u8>, pos: int, n: nat, least: u32) -> Option<u32>
    decreases n,
{
    if n == 0 || pos >= msg.len() {
        Some(least)
    } else {
        match name_end(msg, pos) {
            None => None,
            Some(p) => if p + 10 > msg.len() {
                Some(least)
            } else {
                least_ttl_from(
                    msg,
                    p + 10 + word(msg, p + 8),
                    (n - 1) as nat,
                    lesser(double_word(msg, p + 4), least),
                )
            },
        }
    }
}

/// The least time to live of the answers, unless there are none or it is the
/// largest number.
pub open spec fn least_ttl(msg: Seq<u8>) -> Option<u32> {
    if msg.len() < 12 || answer_count(msg) == 0 {
        None
    } else {
        match answers_start(msg) {
            None => None,
            Some(p) => match least_ttl_from(msg, p, answer_count(msg) as nat, u32::MAX) {
                Some(t) => if t == u32::MAX {
                    None
                } else {
                    Some(t)
                },
                None => None,
            },
        }
    }
}

/// The position after the record at `pos`.
pub open spec fn record_end(msg: Seq<u8>, pos: int) -> Option<int> {
    match name_end(msg, pos) {
        None => None,
        Some(p) => if p + 10 > msg.len() {
            None
        } else {
            Some(p + 10 + word(msg, p + 8))
        },
    }
}

/// The position after `n` records from `pos` on.
pub open spec fn records_end(msg: Seq<u8>, pos: int, n: nat) -> Option<int>
    decreases n,
{
    if n == 0 {
        Some(pos)
    } else {
        match record_end(msg, pos) {
            None => None,
            Some(p) => records_end(msg, p, (n - 1) as nat),
        }
    }
}

/// The lesser of the time to live and the minimum of the first SOA record
/// among `n` records from `pos` on.
pub open spec fn soa_ttl_from(msg: Seq<u8>, pos: int, n: nat) -> Option<u32>
    decreases n,
{
    if n == 0 {
        None
    } else {
        match name_end(msg, pos) {
            None => None,
            Some(p) => if p + 10 > msg.len() {
                None
            } else if word(msg, p) == 6 {
                match name_end(msg, p + 10) {
                    None => None,
                    Some(q) => match name_end(msg, q) {
                        None => None,
                        Some(f) => if f + 20 > msg.len() {
                            None
                        } else {
                            Some(lesser(double_word(msg, p + 4), double_word(msg, f + 16)))
                        },
                    },
                }
            } else {
                soa_ttl_from(msg, p + 10 + word(msg, p + 8), (n - 1) as nat)
            },
        }
    }
}

/// The time for which a negative answer may be kept, as the SOA record of its
/// authority section says.
pub open spec fn soa_ttl(msg: Seq<u8>) -> Option<u32> {
    if msg.len() < 12 || word(msg, 8) == 0 {
        None
    } else {
        match answers_start(msg) {
            None => None,
            Some(a) => match records_end(msg, a, answer_count(msg) as nat) {
                None => None,
                Some(p) => soa_ttl_from(msg, p, word(msg, 8) as nat),
            },
        }
    }
}

/// The position after the record at `pos`.
pub fn skip_rr(msg: &[u8], pos: usize) -> (r: Option<usize>)
    requires
        msg@.len() + 70000 <= usize::MAX,
    ensures
        r is Some <==> record_end(msg@, pos as int) is Some,
        r matches Some(p) ==> Some(p as int) == record_end(msg@, pos as int),
{
    let n: usize = msg.len();
    match skip_name(msg, pos) {
        Some(p) => if p + 10 > n {
            None
        } else {
            Some(p + 10 + word_at(msg, p + 8) as usize)
        },
        None => None,
    }
}

/// The least time to live of the answers.
pub fn extract_min_ttl(resp: &[u8]) -> (r: Option<u32>)
    requires
        resp@.len() + 70000 <= usize::MAX,
    ensures
        r == least_ttl(resp@),
{
    let n: usize = resp.len();
    if n < 12 {
        return None;
    }
    let count: usize = word_at(resp, 6) as usize;
    if count == 0 {
        return None;
    }
    let start: usize = match skip_name(resp, 12) {
        Some(p) => p + 4,
        None => {
            return None;
        },
    };
    let mut pos: usize = start;
    let mut least: u32 = u32::MAX;
    let mut i: usize = 0;
    let ghost goal = least_ttl_from(resp@, start as int, count as nat, u32::MAX);
    while i < count
        invariant_except_break
            goal == least_ttl_from(resp@, pos as int, (count - i) as nat, least),
        invariant
            n == resp@.len(),
            n + 70000 <= usize::MAX,
            i <= count,
            n >= 12,
            count > 0,
            count == answer_count(resp@),
            answers_start(resp@) == Some(start as int),
            goal == least_ttl_from(resp@, start as int, count as nat, u32::MAX),
        ensures
            goal == Some(least),
        decreases count - i,
    {
        if pos >= n {
            break;
        }
        let p: usize = match skip_name(resp, pos) {
            Some(p) => p,
            None => {
                return None;
            },
        };
        if p + 10 > n {
            break;
        }
        let ttl: u32 = double_word_at(resp, p + 4);
        pos = p + 10 + word_at(resp, p + 8) as usize;
        if ttl < least {
            least = ttl;
        }
        i = i + 1;
    }
    if least == u32::MAX {
        None
    } else {
        Some(least)
    }
}

/// The time for which a negative answer may be kept.
pub fn extract_soa_ttl(resp: &[u8]) -> (r: Option<u32>)
    requires
        resp@.len() + 70000 <= usize::MAX,
    ensures
        r == soa_ttl(resp@),
{
    let n: usize = resp.len();
    if n < 12 {
        return None;
    }
    let authorities: usize = word_at(resp, 8) as usize;
    if authorities == 0 {
        return None;
    }
    let answers: usize = word_at(resp, 6) as usize;
    let start: usize = match skip_name(resp, 12) {
        Some(p) => p + 4,
        None => {
            return None;
        },
    };
    let mut pos: usize = start;
    let mut i: usize = 0;
    while i < answers
        invariant
            n == resp@.len(),
            n + 70000 <= usize::MAX,
            n >= 12,
            word(resp@, 8) > 0,
            answers == answer_count(resp@),
            answers_start(resp@) == Some(start as int),
            i <= answers,
            records_end(resp@, start as int, answers as nat) == records_end(
                resp@,
                pos as int,
                (answers - i) as nat,
            ),
        decreases answers - i,
    {
        pos = match skip_rr(resp, pos) {
            Some(p) => p,
            None => {
                return None;
            },
        };
        i = i + 1;
    }
    let ghost first = pos;
    let mut k: usize = 0;
    while k < authorities
        invariant
            n == resp@.len(),
            n + 70000 <= usize::MAX,
            n >= 12,
            authorities == word(resp@, 8),
            authorities > 0,
            answers_start(resp@) == Some(start as int),
            answers == answer_count(resp@),
            records_end(resp@, start as int, answers as nat) == Some(first as int),
            k <= authorities,
            soa_ttl_from(resp@, first as int, authorities as nat) == soa_ttl_from(
                resp@,
                pos as int,
                (authorities - k) as nat,
            ),
        decreases authorities - k,
    {
        let p: usize = match skip_name(resp, pos) {
            Some(p) => p,
            None => {
                return None;
            },
        };
        if p + 10 > n {
            return None;
        }
        if word_at(resp, p) == 6 {
            let ttl: u32 = double_word_at(resp, p + 4);
            let q: usize = match skip_name(resp, p + 10) {
                Some(q) => q,
                None => {
                    return None;
                },
            };
            let f: usize = match skip_name(resp, q) {
                Some(f) => f,
                None => {
                    return None;
                },
            };
            if f + 20 > n {
                return None;
            }
            let minimum: u32 = double_word_at(resp, f + 16);
            return Some(
                if ttl < minimum {
                    ttl
                } else {
                    minimum
                },
            );
        }
        pos = p + 10 + word_at(resp, p + 8) as usize;
        k = k + 1;
    }
    None
}

/// Whether a response has answers and no error.
pub open spec fn is_positive(msg: Seq<u8>) -> bool {
    msg.len() >= 12 && rcode(msg) == 0 && answer_count(msg) > 0
}

/// Whether a response has answers and no error.
pub fn is_cacheable(resp: &[u8]) -> (r: bool)
    ensures
        r == is_positive(resp@),
{
    if resp.len() < 12 {
        return false;
    }
    resp[3] % 16 == 0 && word_at(resp, 6) > 0
}

/// Whether a response may be kept: one with answers and no error, or a negative
/// one whose SOA record says for how long.
pub open spec fn may_be_kept(msg: Seq<u8>) -> bool {
    is_positive(msg) || (msg.len() >= 12 && (rcode(msg) == 0 || rcode(msg) == 3) && soa_ttl(
        msg,
    ) is Some)
}

/// Whether a response may be kept.
pub fn is_cacheable_or_negative(resp: &[u8]) -> (r: bool)
    requires
        resp@.len() + 70000 <= usize::MAX,
    ensures
        r == may_be_kept(resp@),
{
    if resp.len() < 12 {
        return false;
    }
    let code: u8 = resp[3] % 16;
    if code == 0 && word_at(resp, 6) > 0 {
        return true;
    }
    if code == 0 || code == 3 {
        return extract_soa_ttl(resp).is_some();
    }
    false
}

/// The time for which a response is kept: for a negative one what its SOA
/// record says, or 300 seconds, but no longer than that; else the least time to
/// live of its answers.
pub open spec fn keeping_time(msg: Seq<u8>) -> Option<u32> {
    if msg.len() < 12 {
        None
    } else if (rcode(msg) == 0 || rcode(msg) == 3) && answer_count(msg) == 0 {
        Some(
            lesser(
                match soa_ttl(msg) {
                    Some(t) => t,
                    None => 300,
                },
                300,
            ),
        )
    } else {
        least_ttl(msg)
    }
}

/// The time for which a response is kept.
pub fn extract_min_ttl_or_negative(resp: &[u8]) -> (r: Option<u32>)
    requires
        resp@.len() + 70000 <= usize::MAX,
    ensures
        r == keeping_time(resp@),
{
    if resp.len() < 12 {
        return None;
    }
    let code: u8 = resp[3] % 16;
    if (code == 0 || code == 3) && word_at(resp, 6) == 0 {
        let t: u32 = match extract_soa_ttl(resp) {
            Some(t) => t,
            None => 300,
        };
        return Some(
            if t < 300 {
                t
            } else {
                300
            },
        );
    }
    extract_min_ttl(resp)
}

// Making messages

/// A header with the identifier of `query` that answers it with `code` and no
/// records.
pub open spec fn bare_response(query: Seq<u8>, code: u8) -> Seq<u8> {
    let known = query.len() >= 2;
    seq![
        if known {
            query[0]
        } else {
            0
        },
        if known {
            query[1]
        } else {
            0
        },
        0x80,
        code,
        0,
        0,
        0,
        0,
        0,
        0,
        0,
        0,
    ]
}

fn bare_response_of(query: &[u8], code: u8) -> (r: bytes::Bytes)
    ensures
        buf::contents(r) == bare_response(query@, code),
{
    let mut v: Vec<u8> = Vec::new();
    if query.len() >= 2 {
        v.push(query[0]);
        v.push(query[1]);
    } else {
        v.push(0);
        v.push(0);
    }
    v.push(0x80);
    v.push(code);
    v.push(0);
    v.push(0);
    v.push(0);
    v.push(0);
    v.push(0);
    v.push(0);
    v.push(0);
    v.push(0);
    assert(v@ =~= bare_response(query@, code));
    buf::bytes_of(v)
}

/// Answers that the server failed.
pub fn make_servfail(query: &[u8]) -> (r: bytes::Bytes)
    ensures
        buf::contents(r) == bare_response(query@, 2),
{
    bare_response_of(query, 2)
}

/// Answers that the query is refused.
pub fn make_refused(query: &[u8]) -> (r: bytes::Bytes)
    ensures
        buf::contents(r) == bare_response(query@, 5),
{
    bare_response_of(query, 5)
}

/// Answers without error and without records.
pub fn make_noerror_empty(query: &[u8]) -> (r: bytes::Bytes)
    ensures
        buf::contents(r) == bare_response(query@, 0),
{
    bare_response_of(query, 0)
}

/// Answers that the name does not exist.
pub fn make_nxdomain(query: &[u8]) -> (r: bytes::Bytes)
    ensures
        buf::contents(r) == bare_response(query@, 3),
{
    bare_response_of(query, 3)
}

/// A response with the identifier of `query`; unchanged if either is too short
/// to have one.
pub open spec fn with_id(resp: Seq<u8>, query: Seq<u8>) -> Seq<u8> {
    if resp.len() >= 2 && query.len() >= 2 {
        resp.update(0, query[0]).update(1, query[1])
    } else {
        resp
    }
}

/// Gives a response the identifier of `query`.
pub fn patch_id(resp: bytes::Bytes, query: &[u8]) -> (r: bytes::Bytes)
    ensures
        buf::contents(r) == with_id(buf::contents(resp), query@),
{
    if resp.len() >= 2 && query.len() >= 2 {
        let mut v: Vec<u8> = vstd::slice::slice_to_vec(buf::bytes_slice(&resp));
        v[0] = query[0];
        v[1] = query[1];
        buf::bytes_of(v)
    } else {
        resp
    }
}

/// The bytes of labels: each with its length before it, cut to a byte; empty
/// ones are left out.
pub open spec fn label_bytes(labels: Seq<Seq<char>>) -> Seq<u8>
    decreases labels.len(),
{
    if labels.len() == 0 {
        Seq::empty()
    } else {
        let b = vstd::utf8::encode_utf8(labels[0]);
        (if labels[0].len() == 0 {
            Seq::empty()
        } else {
            seq![(b.len() % 256) as u8] + b
        }) + label_bytes(labels.skip(1))
    }
}

/// The header of a query.
pub open spec fn query_header() -> Seq<u8> {
    seq![0x00u8, 0x01, 0x01, 0x00, 0x00, 0x01, 0x00, 0x00, 0x00, 0x00, 0x00, 0x00]
}

/// A query for a name and a type, in class IN.
pub open spec fn query_bytes(name: Seq<char>, qtype: u16) -> Seq<u8> {
    query_header() + label_bytes(text::parts(name, '.')) + seq![0u8] + checksum::be_bytes(qtype)
        + seq![0u8, 1u8]
}

/// Makes a query for a name and a type.
pub fn build_query(name: &str, qtype: u16) -> (r: Vec<u8>)
    ensures
        r@ == query_bytes(name@, qtype),
{
    let c: Vec<char> = text::chars_of(name);
    let labels: Vec<Vec<char>> = text::split(&c, '.');
    let ghost views = labels@.map_values(|v: Vec<char>| v@);
    let mut msg: Vec<u8> = Vec::new();
    msg.push(0x00);
    msg.push(0x01);
    msg.push(0x01);
    msg.push(0x00);
    msg.push(0x00);
    msg.push(0x01);
    msg.push(0x00);
    msg.push(0x00);
    msg.push(0x00);
    msg.push(0x00);
    msg.push(0x00);
    msg.push(0x00);
    assert(msg@ =~= query_header());
    let mut i: usize = 0;
    assert(views.skip(0) =~= views);
    while i < labels.len()
        invariant
            i <= labels@.len(),
            views == labels@.map_values(|v: Vec<char>| v@),
            query_header() + label_bytes(views) == msg@ + label_bytes(views.skip(i as int)),
        decreases labels@.len() - i,
    {
        let label: String = text::string_of(labels[i].as_slice());
        let ghost before = msg@;
        let ghost t = views.skip(i as int);
        assert(t[0] == labels@[i as int]@);
        assert(t.skip(1) =~= views.skip(i + 1));
        if labels[i].len() > 0 {
            let b: &[u8] = label.as_str().as_bytes();
            msg.push((b.len() % 256) as u8);
            msg.extend_from_slice(b);
            assert(msg@ =~= before + (seq![(b@.len() % 256) as u8] + b@));
            assert(before + label_bytes(t) =~= msg@ + label_bytes(t.skip(1)));
        } else {
            assert(Seq::<u8>::empty() + label_bytes(t.skip(1)) =~= label_bytes(t.skip(1)));
        }
        i = i + 1;
    }
    assert(views.skip(i as int).len() == 0);
    assert(msg@ + label_bytes(views.skip(i as int)) =~= msg@);
    msg.push(0);
    msg.push((qtype / 256) as u8);
    msg.push((qtype % 256) as u8);
    msg.push(0);
    msg.push(1);
    assert(msg@ =~= query_bytes(name@, qtype));
    msg
}

/// Makes a query for a name and a type.
pub fn build_query_bytes(name: &str, qtype: u16) -> (r: Vec<u8>)
    ensures
        r@ == query_bytes(name@, qtype),
{
    build_query(name, qtype)
}

// Times to live of stale answers

/// The position after `n` questions from `pos` on.
pub open spec fn questions_end(msg: Seq<u8>, pos: int, n: nat) -> Option<int>
    decreases n,
{
    if n == 0 {
        Some(pos)
    } else {
        match name_end(msg, pos) {
            None => None,
            Some(p) => questions_end(msg, p + 4, (n - 1) as nat),
        }
    }
}

/// `msg` with the double word at `at` replaced by `w`.
pub open spec fn with_double_word(msg: Seq<u8>, at: int, w: u32) -> Seq<u8> {
    let o = net::be_octets(w as nat, 4);
    msg.update(at, o[0]).update(at + 1, o[1]).update(at + 2, o[2]).update(at + 3, o[3])
}

/// `msg` with the time to live of up to `n` records from `pos` on replaced by
/// `ttl`. Pseudo records of type 41, which have none, keep theirs. The walk
/// ends with the first record whose fixed part is not complete.
pub open spec fn with_ttls(msg: Seq<u8>, pos: int, n: nat, ttl: u32) -> Seq<u8>
    decreases n,
{
    if n == 0 {
        msg
    } else {
        match name_end(msg, pos) {
            None => msg,
            Some(p) => if p + 10 > msg.len() {
                msg
            } else {
                with_ttls(
                    if word(msg, p) == 41 {
                        msg
                    } else {
                        with_double_word(msg, p + 4, ttl)
                    },
                    p + 10 + word(msg, p + 8),
                    (n - 1) as nat,
                    ttl,
                )
            },
        }
    }
}

/// The number of records in all sections of a message.
pub open spec fn record_count(msg: Seq<u8>) -> nat {
    (word(msg, 6) + word(msg, 8) + word(msg, 10)) as nat
}

/// A message with the time to live of all its records replaced by `ttl`.
pub open spec fn normalized(msg: Seq<u8>, ttl: u32) -> Seq<u8> {
    if msg.len() < 12 {
        msg
    } else {
        match questions_end(msg, 12, word(msg, 4) as nat) {
            None => msg,
            Some(p) => with_ttls(msg, p, record_count(msg), ttl),
        }
    }
}

fn put_double_word(msg: &mut Vec<u8>, at: usize, w: u32)
    requires
        at + 4 <= old(msg)@.len(),
    ensures
        final(msg)@ == with_double_word(old(msg)@, at as int, w),
{
    let n: usize = msg.len();
    assert(at + 3 < n);
    let o: [u8; 4] = net::octets_v4(w);
    msg[at] = o[0];
    msg[at + 1] = o[1];
    msg[at + 2] = o[2];
    msg[at + 3] = o[3];
}

/// Replaces the time to live of all records of a message.
pub fn normalize_ttl(resp: &[u8], ttl: u32) -> (r: Vec<u8>)
    requires
        resp@.len() + 70000 <= usize::MAX,
    ensures
        r@ == normalized(resp@, ttl),
{
    let n: usize = resp.len();
    let mut msg: Vec<u8> = vstd::slice::slice_to_vec(resp);
    if n < 12 {
        return msg;
    }
    let questions: usize = word_at(resp, 4) as usize;
    let count: usize = word_at(resp, 6) as usize + word_at(resp, 8) as usize + word_at(
        resp,
        10,
    ) as usize;
    let mut pos: usize = 12;
    let mut i: usize = 0;
    while i < questions
        invariant
            n == resp@.len(),
            n >= 12,
            n + 70000 <= usize::MAX,
            questions == word(resp@, 4),
            msg@ == resp@,
            i <= questions,
            questions_end(resp@, 12, questions as nat) == questions_end(
                resp@,
                pos as int,
                (questions - i) as nat,
            ),
        decreases questions - i,
    {
        pos = match skip_name(resp, pos) {
            Some(p) => p + 4,
            None => {
                return msg;
            },
        };
        i = i + 1;
    }
    let ghost start = pos;
    let mut k: usize = 0;
    while k < count
        invariant
            n == resp@.len(),
            n >= 12,
            n + 70000 <= usize::MAX,
            count == record_count(resp@),
            questions_end(resp@, 12, word(resp@, 4) as nat) == Some(start as int),
            msg@.len() == n,
            k <= count,
            with_ttls(resp@, start as int, count as nat, ttl) == with_ttls(
                msg@,
                pos as int,
                (count - k) as nat,
                ttl,
            ),
        decreases count - k,
    {
        let p: usize = match skip_name(msg.as_slice(), pos) {
            Some(p) => p,
            None => {
                return msg;
            },
        };
        if p + 10 > n {
            return msg;
        }
        let kind: u16 = word_at(msg.as_slice(), p);
        pos = p + 10 + word_at(msg.as_slice(), p + 8) as usize;
        if kind != 41 {
            put_double_word(&mut msg, p + 4, ttl);
        }
        k = k + 1;
    }
    msg
}

// Laws

/// The times to live of up to `n` records from `pos` on, but for pseudo records
/// of type 41.
pub open spec fn ttls_from(msg: Seq<u8>, pos: int, n: nat) -> Seq<u32>
    decreases n,
{
    if n == 0 {
        Seq::empty()
    } else {
        match name_end(msg, pos) {
            None => Seq::empty(),
            Some(p) => if p + 10 > msg.len() {
                Seq::empty()
            } else {
                let rest = ttls_from(msg, p + 10 + word(msg, p + 8), (n - 1) as nat);
                if word(msg, p) == 41 {
                    rest
                } else {
                    seq![double_word(msg, p + 4)] + rest
                }
            },
        }
    }
}

proof fn lemma_name_end_range(msg: Seq<u8>, pos: int)
    ensures
        name_end(msg, pos) matches Some(p) ==> 0 <= pos < p,
    decreases msg.len() + 256 - pos,
{
    if 0 <= pos < msg.len() && msg[pos] != 0 && msg[pos] < 192 {
        lemma_name_end_range(msg, pos + 1 + msg[pos]);
    }
}

proof fn lemma_name_end_frame(a: Seq<u8>, b: Seq<u8>, pos: int)
    requires
        a.len() == b.len(),
        forall|i: int|
            pos <= i < a.len() && (name_end(a, pos) matches Some(p) ==> i < p) ==> a[i] == b[i],
    ensures
        name_end(a, pos) == name_end(b, pos),
    decreases a.len() + 256 - pos,
{
    lemma_name_end_range(a, pos);
    if 0 <= pos < a.len() {
        assert(a[pos] == b[pos]);
        if a[pos] != 0 && a[pos] < 192 {
            lemma_name_end_frame(a, b, pos + 1 + a[pos]);
        }
    }
}

proof fn lemma_with_ttls_frame(msg: Seq<u8>, pos: int, n: nat, ttl: u32)
    ensures
        with_ttls(msg, pos, n, ttl).len() == msg.len(),
        forall|i: int| 0 <= i < pos && i < msg.len() ==> with_ttls(msg, pos, n, ttl)[i] == msg[i],
    decreases n,
{
    if n > 0 {
        lemma_name_end_range(msg, pos);
        if let Some(p) = name_end(msg, pos) {
            if p + 10 <= msg.len() {
                let m = if word(msg, p) == 41 {
                    msg
                } else {
                    with_double_word(msg, p + 4, ttl)
                };
                let next = p + 10 + word(msg, p + 8);
                let done = with_ttls(m, next, (n - 1) as nat, ttl);
                lemma_with_ttls_frame(m, next, (n - 1) as nat, ttl);
                assert(with_ttls(msg, pos, n, ttl) == done);
                assert forall|i: int| 0 <= i < pos && i < msg.len() implies with_ttls(
                    msg,
                    pos,
                    n,
                    ttl,
                )[i] == msg[i] by {
                    assert(done[i] == m[i]);
                }
            }
        }
    }
}

/// Records whose time to live has been replaced have the new one.
proof fn lemma_ttls_replaced(msg: Seq<u8>, pos: int, n: nat, ttl: u32)
    ensures
        ({
            let t = ttls_from(with_ttls(msg, pos, n, ttl), pos, n);
            forall|i: int| 0 <= i < t.len() ==> t[i] == ttl
        }),
        ttls_from(with_ttls(msg, pos, n, ttl), pos, n).len() == ttls_from(msg, pos, n).len(),
    decreases n,
{
    if n > 0 {
        lemma_name_end_range(msg, pos);
        match name_end(msg, pos) {
            None => {},
            Some(p) => {
                if p + 10 <= msg.len() {
                    let opt = word(msg, p) == 41;
                    let m = if opt {
                        msg
                    } else {
                        with_double_word(msg, p + 4, ttl)
                    };
                    let next = p + 10 + word(msg, p + 8);
                    let done = with_ttls(m, next, (n - 1) as nat, ttl);
                    lemma_with_ttls_frame(m, next, (n - 1) as nat, ttl);
                    lemma_ttls_replaced(m, next, (n - 1) as nat, ttl);
                    assert forall|i: int| 0 <= i < next && i < msg.len() && !(p + 4 <= i < p + 8)
                        implies done[i] == msg[i] by {
                        assert(done[i] == m[i]);
                    }
                    assert forall|i: int| p + 4 <= i < p + 8 implies done[i] == m[i] by {
                    }
                    lemma_name_end_frame(msg, done, pos);
                    lemma_ttls_frame(msg, m, next, (n - 1) as nat);
                    assert(word(done, p) == word(msg, p));
                    assert(word(done, p + 8) == word(msg, p + 8));
                    if !opt {
                        net::lemma_be_octets_len(ttl as nat, 4);
                        assert(done.subrange(p + 4, p + 8) =~= net::be_octets(ttl as nat, 4));
                        assert(net::pow256(4) == 0x1_0000_0000) by {
                            reveal_with_fuel(net::pow256, 5);
                        }
                        net::law_octets_roundtrip(ttl as nat, 4);
                    }
                }
            },
        }
    }
}

proof fn lemma_ttls_frame(a: Seq<u8>, b: Seq<u8>, pos: int, n: nat)
    requires
        a.len() == b.len(),
        forall|i: int| pos <= i < a.len() ==> a[i] == b[i],
    ensures
        ttls_from(a, pos, n) == ttls_from(b, pos, n),
    decreases n,
{
    if n > 0 {
        lemma_name_end_frame(a, b, pos);
        lemma_name_end_range(a, pos);
        if let Some(p) = name_end(a, pos) {
            if p + 10 <= a.len() {
                lemma_ttls_frame(a, b, p + 10 + word(a, p + 8), (n - 1) as nat);
                assert(a.subrange(p + 4, p + 8) =~= b.subrange(p + 4, p + 8));
            }
        }
    }
}

/// Every record of a normalised message has the given time to live; as many
/// records are found as before, and length and header are unchanged.
pub proof fn law_normalized_ttls(msg: Seq<u8>, ttl: u32)
    requires
        msg.len() >= 12,
    ensures
        normalized(msg, ttl).len() == msg.len(),
        normalized(msg, ttl).take(12) == msg.take(12),
        questions_end(msg, 12, word(msg, 4) as nat) matches Some(p) ==> {
            let t = ttls_from(normalized(msg, ttl), p, record_count(msg));
            &&& t.len() == ttls_from(msg, p, record_count(msg)).len()
            &&& forall|i: int| 0 <= i < t.len() ==> t[i] == ttl
        },
{
    if let Some(p) = questions_end(msg, 12, word(msg, 4) as nat) {
        lemma_questions_range(msg, 12, word(msg, 4) as nat);
        lemma_with_ttls_frame(msg, p, record_count(msg), ttl);
        lemma_ttls_replaced(msg, p, record_count(msg), ttl);
        assert(normalized(msg, ttl).take(12) =~= msg.take(12));
    }
}

proof fn lemma_questions_range(msg: Seq<u8>, pos: int, n: nat)
    ensures
        questions_end(msg, pos, n) matches Some(p) ==> pos <= p,
    decreases n,
{
    if n > 0 {
        lemma_name_end_range(msg, pos);
        if let Some(p) = name_end(msg, pos) {
            lemma_questions_range(msg, p + 4, (n - 1) as nat);
        }
    }
}

proof fn lemma_labels_of_bytes(labels: Seq<Seq<char>>, head: Seq<u8>, tail: Seq<u8>, jumps: int)
    requires
        forall|i: int|
            0 <= i < labels.len() ==> (#[trigger] labels[i]).len() > 0 && 1
                <= vstd::utf8::encode_utf8(labels[i]).len() < 192,
    ensures
        name_labels(head + label_bytes(labels) + seq![0u8] + tail, head.len() as int, jumps)
            == Some(labels),
        name_end(head + label_bytes(labels) + seq![0u8] + tail, head.len() as int) == Some(
            (head.len() + label_bytes(labels).len() + 1) as int,
        ),
    decreases labels.len(),
{
    let msg = head + label_bytes(labels) + seq![0u8] + tail;
    let pos = head.len() as int;
    if labels.len() == 0 {
        assert(msg[pos] == 0);
        assert(labels =~= Seq::<Seq<char>>::empty());
    } else {
        let l = labels[0];
        let b = vstd::utf8::encode_utf8(l);
        let first = seq![(b.len() % 256) as u8] + b;
        let rest = labels.skip(1);
        let head2 = head + first;
        assert forall|i: int| 0 <= i < rest.len() implies (#[trigger] rest[i]).len() > 0 && 1
            <= vstd::utf8::encode_utf8(rest[i]).len() < 192 by {
            assert(rest[i] == labels[i + 1]);
        }
        assert(label_bytes(labels) =~= first + label_bytes(rest));
        assert(msg =~= head2 + label_bytes(rest) + seq![0u8] + tail);
        lemma_labels_of_bytes(rest, head2, tail, jumps);
        assert(msg[pos] == b.len());
        let next = pos + 1 + b.len();
        assert(next == head2.len());
        assert(msg.subrange(pos + 1, next) =~= b);
        vstd::utf8::encode_utf8_valid_utf8(l);
        vstd::utf8::encode_utf8_decode_utf8(l);
        assert(seq![l] + rest =~= labels);
    }
}

/// A query asks for the name and the type that it was made for, if every part
/// of the name between dots has 1 to 191 bytes. A label of a domain name, with
/// its 63 bytes at most, always has.
pub proof fn law_query_roundtrip(name: Seq<char>, qtype: u16)
    requires
        forall|i: int|
            0 <= i < text::parts(name, '.').len() ==> (#[trigger] text::parts(name, '.')[i]).len()
                > 0 && 1 <= vstd::utf8::encode_utf8(text::parts(name, '.')[i]).len() < 192,
    ensures
        question_name(query_bytes(name, qtype)) == Some(name),
        question_type(query_bytes(name, qtype)) == Some(qtype),
{
    let labels = text::parts(name, '.');
    let tail = checksum::be_bytes(qtype) + seq![0u8, 1u8];
    let msg = query_bytes(name, qtype);
    assert(msg =~= query_header() + label_bytes(labels) + seq![0u8] + tail);
    lemma_labels_of_bytes(labels, query_header(), tail, 0);
    text::law_joined_parts(name, '.');
    let p = (12 + label_bytes(labels).len() + 1) as int;
    assert(msg.skip(p) =~= tail);
    assert(msg[p] == tail[0]);
    assert(msg[p + 1] == tail[1]);
}

proof fn lemma_addresses_have_their_type(msg: Seq<u8>, pos: int, n: nat, qtype: u16)
    ensures
        ({
            let all = addresses_from(msg, pos, n, qtype);
            &&& qtype != 1 && qtype != 28 ==> all.len() == 0
            &&& forall|i: int|
                0 <= i < all.len() ==> if qtype == 1 {
                    #[trigger] all[i] is V4
                } else {
                    all[i] is V6
                }
        }),
    decreases n,
{
    if n > 0 && pos < msg.len() {
        if let Some(p) = name_end(msg, pos) {
            lemma_addresses_have_their_type(
                msg,
                p + 10 + word(msg, p + 8),
                (n - 1) as nat,
                qtype,
            );
        }
    }
}

/// The first address of a response is the first of all its addresses. Those of
/// type 1 are IPv4 addresses, those of type 28 are IPv6 addresses, and no other
/// type has any.
pub proof fn law_addresses_have_their_type(msg: Seq<u8>, qtype: u16)
    ensures
        first_answered(msg, qtype) is Some <==> answered(msg, qtype).len() > 0,
        first_answered(msg, qtype) matches Some(ip) ==> ip == answered(msg, qtype).first(),
        qtype == 1 ==> forall|i: int|
            0 <= i < answered(msg, qtype).len() ==> (#[trigger] answered(msg, qtype)[i]) is V4,
        qtype == 28 ==> forall|i: int|
            0 <= i < answered(msg, qtype).len() ==> (#[trigger] answered(msg, qtype)[i]) is V6,
        qtype != 1 && qtype != 28 ==> answered(msg, qtype).len() == 0,
{
    if let Some(p) = answers_start(msg) {
        lemma_addresses_have_their_type(msg, p, answer_count(msg) as nat, qtype);
    }
}

/// A response that has been given a query's identifier has it, and is
/// otherwise unchanged.
pub proof fn law_patched_id(resp: Seq<u8>, query: Seq<u8>)
    requires
        resp.len() >= 2,
        query.len() >= 2,
    ensures
        with_id(resp, query).take(2) == query.take(2),
        with_id(resp, query).skip(2) == resp.skip(2),
        with_id(resp, query).len() == resp.len(),
{
    assert(with_id(resp, query).take(2) =~= query.take(2));
    assert(with_id(resp, query).skip(2) =~= resp.skip(2));
}

/// A failure that was made for a query is never kept.
pub proof fn law_failures_not_kept(query: Seq<u8>)
    ensures
        !may_be_kept(bare_response(query, 2)),
        !may_be_kept(bare_response(query, 5)),
        !may_be_kept(bare_response(query, 0)),
        !may_be_kept(bare_response(query, 3)),
{
}

} // verus!
