//! Measuring delays.
use vstd::prelude::*;
use crate::app::clash_api::history;
use crate::app::clash_api::history::DelayHistory;
use crate::app::clash_api::http;
use crate::app::clash_api::http::HttpResponse;
use crate::app::clash_api::json;
use crate::app::clash_api::json::Json;
use crate::app::clash_api::path;
use crate::app::clash_api::proxies;
use crate::app::outbound_mgr;
use crate::app::outbound_mgr::{OutboundManager, OutboundSlot, OutboundStatus};
use crate::text;

verus! {

/// What is connected to where a request gives nothing.
pub const DEFAULT_PROBE_URL: &'static str = "https://www.gstatic.com/generate_204";

/// Milliseconds to wait where a request gives nothing.
pub const DEFAULT_TIMEOUT_MS: u64 = 5000;

/// The address that the first `n` parts of a query ask to connect to: the last
/// one counts.
pub open spec fn probe_url(parts: Seq<Seq<char>>, n: int) -> Seq<char>
    decreases n,
{
    if n <= 0 {
        DEFAULT_PROBE_URL@
    } else if text::has_prefix(parts[n - 1], "url="@) {
        proxies::decoded(parts[n - 1].skip("url="@.len() as int))
    } else {
        probe_url(parts, n - 1)
    }
}

/// The milliseconds that the first `n` parts of a query ask to wait: the last
/// number counts.
pub open spec fn probe_timeout(parts: Seq<Seq<char>>, n: int) -> nat
    decreases n,
{
    if n <= 0 {
        DEFAULT_TIMEOUT_MS as nat
    } else if text::has_prefix(parts[n - 1], "timeout="@) && text::unsigned_value(
        parts[n - 1].skip("timeout="@.len() as int),
        u64::MAX as nat,
    ) is Some {
        text::unsigned_value(
            parts[n - 1].skip("timeout="@.len() as int),
            u64::MAX as nat,
        )->0
    } else {
        probe_timeout(parts, n - 1)
    }
}

/// Whether every address in a query can be decoded.
pub open spec fn probe_decodable(query: Seq<char>) -> bool {
    forall|i: int|
        0 <= i < text::parts(query, '&').len() && text::has_prefix(
            #[trigger] text::parts(query, '&')[i],
            "url="@,
        ) ==> path::decodable(
            vstd::utf8::encode_utf8(text::parts(query, '&')[i].skip("url="@.len() as int)),
        )
}

/// Whether every address in a query can be decoded.
pub fn is_probe_decodable(query: &str) -> (r: bool)
    ensures
        r == probe_decodable(query@),
{
    let chars: Vec<char> = text::chars_of(query);
    let all: Vec<Vec<char>> = text::split(chars.as_slice(), '&');
    let ghost p = text::parts(query@, '&');
    let mut i: usize = 0;
    while i < all.len()
        invariant
            i <= all@.len(),
            p == text::parts(query@, '&'),
            all@.map_values(|v: Vec<char>| v@) == p,
            forall|k: int|
                0 <= k < i && text::has_prefix(#[trigger] p[k], "url="@) ==> path::decodable(
                    vstd::utf8::encode_utf8(p[k].skip("url="@.len() as int)),
                ),
        decreases all@.len() - i,
    {
        assert(p[i as int] == all@[i as int]@);
        if let Some(v) = text::strip_prefix(all[i].as_slice(), "url=") {
            let t: String = text::string_of(v);
            if !path::is_decodable(t.as_str()) {
                assert(text::has_prefix(p[i as int], "url="@));
                return false;
            }
        }
        i = i + 1;
    }
    assert(p.len() == all@.len());
    true
}

/// What a query asks to connect to, and how long to wait in milliseconds.
pub fn probe_request(query: &str) -> (r: (String, u64))
    requires
        probe_decodable(query@),
    ensures
        ({
            let p = text::parts(query@, '&');
            r.0@ == probe_url(p, p.len() as int) && r.1 == probe_timeout(p, p.len() as int)
        }),
{
    let chars: Vec<char> = text::chars_of(query);
    let all: Vec<Vec<char>> = text::split(chars.as_slice(), '&');
    let ghost p = text::parts(query@, '&');
    let mut url: String = DEFAULT_PROBE_URL.to_owned();
    let mut timeout: u64 = DEFAULT_TIMEOUT_MS;
    let mut i: usize = 0;
    proof {
        reveal_strlit("url=");
        reveal_strlit("timeout=");
    }
    while i < all.len()
        invariant
            i <= all@.len(),
            p == text::parts(query@, '&'),
            "url="@.len() == 4,
            "url="@[0] == 'u',
            "timeout="@.len() == 8,
            "timeout="@[0] == 't',
            probe_decodable(query@),
            all@.map_values(|v: Vec<char>| v@) == p,
            url@ == probe_url(p, i as int),
            timeout == probe_timeout(p, i as int),
        decreases all@.len() - i,
    {
        assert(p[i as int] == all@[i as int]@);
        let part: &[char] = all[i].as_slice();
        if let Some(v) = text::strip_prefix(part, "url=") {
            assert(text::has_prefix(p[i as int], "url="@));
            assert(!text::has_prefix(p[i as int], "timeout="@)) by {
                assert(p[i as int].take(4)[0] == "url="@[0]);
                if text::has_prefix(p[i as int], "timeout="@) {
                    assert(p[i as int].take(8)[0] == "timeout="@[0]);
                }
            }
            url = path::percent_decode(text::string_of(v).as_str());
        } else if let Some(v) = text::strip_prefix(part, "timeout=") {
            if let Some(n) = text::parse_unsigned(v, u64::MAX) {
                timeout = n;
            }
        }
        i = i + 1;
    }
    assert(p.len() == all@.len());
    (url, timeout)
}

/// Why an address cannot be connected to.
#[derive(Clone, Copy, Debug, PartialEq, Eq, Structural)]
pub enum ProbeError {
    Scheme,
    Port,
}

/// Host and port of what follows the scheme of an address.
pub open spec fn authority_target(rest: Seq<char>, default_port: u16) -> Result<
    (Seq<char>, u16),
    ProbeError,
> {
    let a = rest.take(text::index_of(rest, '/'));
    let c = text::last_index_of(a, ':');
    if c >= 0 {
        match text::unsigned_value(a.skip(c + 1), 65535) {
            Some(p) => Ok((a.take(c), p as u16)),
            None => Err(ProbeError::Port),
        }
    } else {
        Ok((a, default_port))
    }
}

/// Host and port of an address.
pub open spec fn url_target(url: Seq<char>) -> Result<(Seq<char>, u16), ProbeError> {
    if text::has_prefix(url, "https://"@) {
        authority_target(url.skip("https://"@.len() as int), 443)
    } else if text::has_prefix(url, "http://"@) {
        authority_target(url.skip("http://"@.len() as int), 80)
    } else {
        Err(ProbeError::Scheme)
    }
}

fn split_authority(rest: &[char], default_port: u16) -> (r: Result<(String, u16), ProbeError>)
    ensures
        match r {
            Ok((h, p)) => authority_target(rest@, default_port) == Ok::<
                (Seq<char>, u16),
                ProbeError,
            >((h@, p)),
            Err(e) => authority_target(rest@, default_port) == Err::<(Seq<char>, u16), ProbeError>(
                e,
            ),
        },
{
    let end: usize = text::find_from(rest, '/', 0);
    let a: &[char] = text::slice_of(rest, 0, end);
    assert(a@ =~= rest@.take(end as int));
    match text::rfind(a, ':') {
        Some(c) => {
            let port: &[char] = text::slice_of(a, c + 1, end);
            assert(port@ =~= a@.skip(c + 1));
            match text::parse_unsigned(port, 65535) {
                Some(p) => {
                    let host: &[char] = text::slice_of(a, 0, c);
                    assert(host@ =~= a@.take(c as int));
                    Ok((text::string_of(host), p as u16))
                },
                None => Err(ProbeError::Port),
            }
        },
        None => Ok((text::string_of(a), default_port)),
    }
}

/// Host and port of an address.
pub fn probe_target(url: &str) -> (r: Result<(String, u16), ProbeError>)
    ensures
        match r {
            Ok((h, p)) => url_target(url@) == Ok::<(Seq<char>, u16), ProbeError>((h@, p)),
            Err(e) => url_target(url@) == Err::<(Seq<char>, u16), ProbeError>(e),
        },
{
    let chars: Vec<char> = text::chars_of(url);
    if let Some(rest) = text::strip_prefix(chars.as_slice(), "https://") {
        split_authority(rest, 443)
    } else if let Some(rest) = text::strip_prefix(chars.as_slice(), "http://") {
        split_authority(rest, 80)
    } else {
        Err(ProbeError::Scheme)
    }
}

proof fn lemma_authority(host: Seq<char>, port: Seq<char>, path: Seq<char>, default_port: u16)
    requires
        !host.contains('/'),
        !host.contains(':'),
        text::all_digits(port),
        path.len() == 0 || path[0] == '/',
    ensures
        authority_target(host + path, default_port) == Ok::<(Seq<char>, u16), ProbeError>(
            (host, default_port),
        ),
        authority_target(host + seq![':'] + port + path, default_port) == (
        match text::unsigned_value(port, 65535) {
            Some(p) => Ok::<(Seq<char>, u16), ProbeError>((host, p as u16)),
            None => Err(ProbeError::Port),
        }),
{
    assert forall|k: int| 0 <= k < host.len() implies host[k] != '/' && host[k] != ':' by {
        assert(host.contains(host[k]));
    }
    assert forall|k: int| 0 <= k < port.len() implies port[k] != '/' && port[k] != ':' by {
        assert(text::is_digit(port[k]));
    }
    let plain = host + path;
    text::lemma_index_of(plain, '/', host.len() as int);
    assert(plain.take(host.len() as int) =~= host);
    text::lemma_last_index_of(host, ':', -1);
    let full = host + seq![':'] + port;
    let whole = full + path;
    assert forall|k: int| 0 <= k < full.len() implies full[k] != '/' by {
        if k > host.len() {
            assert(full[k] == port[k - host.len() - 1]);
        }
    }
    text::lemma_index_of(whole, '/', full.len() as int);
    assert(whole.take(full.len() as int) =~= full);
    assert forall|k: int| host.len() < k < full.len() implies full[k] != ':' by {
        assert(full[k] == port[k - host.len() - 1]);
    }
    text::lemma_last_index_of(full, ':', host.len() as int);
    assert(full.skip((host.len() + 1) as int) =~= port);
    assert(full.take(host.len() as int) =~= host);
}

proof fn lemma_schemes(rest: Seq<char>)
    ensures
        url_target("https://"@ + rest) == authority_target(rest, 443),
        url_target("http://"@ + rest) == authority_target(rest, 80),
{
    reveal_strlit("https://");
    reveal_strlit("http://");
    let s = "https://"@ + rest;
    let p = "http://"@ + rest;
    assert(s.take(8) =~= "https://"@);
    assert(s.skip(8) =~= rest);
    assert(p.take(7) =~= "http://"@);
    assert(p.skip(7) =~= rest);
    if p.len() >= 8 {
        assert(p.take(8)[4] == ':');
        assert("https://"@[4] == 's');
    }
}

/// Where an address leads to: `https` means port 443 and `http` port 80, unless
/// the address gives a port of its own; the path does not matter.
pub proof fn law_probe_ports(host: Seq<char>, path: Seq<char>, port: nat)
    requires
        !host.contains('/'),
        !host.contains(':'),
        path.len() == 0 || path[0] == '/',
    ensures
        url_target("https://"@ + (host + path)) == Ok::<(Seq<char>, u16), ProbeError>((host, 443)),
        url_target("http://"@ + (host + path)) == Ok::<(Seq<char>, u16), ProbeError>((host, 80)),
        port <= 65535 ==> url_target(
            "https://"@ + (host + seq![':'] + text::decimal(port) + path),
        ) == Ok::<(Seq<char>, u16), ProbeError>((host, port as u16)) && url_target(
            "http://"@ + (host + seq![':'] + text::decimal(port) + path),
        ) == Ok::<(Seq<char>, u16), ProbeError>((host, port as u16)),
        port > 65535 ==> url_target(
            "https://"@ + (host + seq![':'] + text::decimal(port) + path),
        ) == Err::<(Seq<char>, u16), ProbeError>(ProbeError::Port) && url_target(
            "http://"@ + (host + seq![':'] + text::decimal(port) + path),
        ) == Err::<(Seq<char>, u16), ProbeError>(ProbeError::Port),
{
    text::law_decimal_roundtrip(port);
    text::law_parse_of_decimal(port, 65535);
    lemma_authority(host, text::decimal(port), path, 443);
    lemma_authority(host, text::decimal(port), path, 80);
    lemma_schemes(host + path);
    lemma_schemes(host + seq![':'] + text::decimal(port) + path);
}

/// An address that begins neither with `https://` nor with `http://` leads
/// nowhere.
pub proof fn law_probe_schemes(url: Seq<char>)
    ensures
        url_target(url) == Err::<(Seq<char>, u16), ProbeError>(ProbeError::Scheme) <==> !(
        "https://"@.is_prefix_of(url)) && !("http://"@.is_prefix_of(url)),
{
    reveal_strlit("https://");
    reveal_strlit("http://");
    if "https://"@.is_prefix_of(url) {
        assert(url =~= "https://"@ + url.skip(8));
        lemma_schemes(url.skip(8));
        assert(url_target(url) == authority_target(url.skip(8), 443));
    } else if "http://"@.is_prefix_of(url) {
        assert(url =~= "http://"@ + url.skip(7));
        lemma_schemes(url.skip(7));
        assert(url_target(url) == authority_target(url.skip(7), 80));
    } else {
        if url.len() >= 8 {
            assert(url.take(8) =~= url.subrange(0, 8));
        }
        if url.len() >= 7 {
            assert(url.take(7) =~= url.subrange(0, 7));
        }
    }
}

proof fn lemma_nothing_given(parts: Seq<Seq<char>>, n: int)
    requires
        0 <= n <= parts.len(),
        forall|i: int|
            0 <= i < n ==> !text::has_prefix(#[trigger] parts[i], "url="@) && !text::has_prefix(
                parts[i],
                "timeout="@,
            ),
    ensures
        probe_url(parts, n) == DEFAULT_PROBE_URL@,
        probe_timeout(parts, n) == DEFAULT_TIMEOUT_MS,
    decreases n,
{
    if n > 0 {
        lemma_nothing_given(parts, n - 1);
    }
}

/// Without an address and a time in the query, `www.gstatic.com` is connected to
/// at port 443, for five seconds at most.
pub proof fn law_default_probe(parts: Seq<Seq<char>>)
    requires
        forall|i: int|
            0 <= i < parts.len() ==> !text::has_prefix(#[trigger] parts[i], "url="@)
                && !text::has_prefix(parts[i], "timeout="@),
    ensures
        url_target(probe_url(parts, parts.len() as int)) == Ok::<(Seq<char>, u16), ProbeError>(
            ("www.gstatic.com"@, 443),
        ),
        probe_timeout(parts, parts.len() as int) == 5000,
{
    lemma_nothing_given(parts, parts.len() as int);
    reveal_strlit("https://www.gstatic.com/generate_204");
    reveal_strlit("https://");
    reveal_strlit("www.gstatic.com");
    reveal_strlit("/generate_204");
    let host = "www.gstatic.com"@;
    let path = "/generate_204"@;
    assert("https://www.gstatic.com/generate_204"@ =~= "https://"@ + (host + path));
    assert forall|k: int| 0 <= k < host.len() implies host[k] != '/' && host[k] != ':' by {
    }
    law_probe_ports(host, path, 0);
}

/// The last address and the last time in a query count, whatever stands before
/// them: an address is decoded, a time is the number of milliseconds.
pub proof fn law_last_probe_counts(parts: Seq<Seq<char>>, url: Seq<char>, time: nat)
    requires
        time <= u64::MAX,
    ensures
        ({
            let p = parts.push("url="@ + url);
            &&& probe_url(p, p.len() as int) == proxies::decoded(url)
            &&& probe_timeout(p, p.len() as int) == probe_timeout(parts, parts.len() as int)
        }),
        ({
            let p = parts.push("timeout="@ + text::decimal(time));
            &&& probe_timeout(p, p.len() as int) == time
            &&& probe_url(p, p.len() as int) == probe_url(parts, parts.len() as int)
        }),
{
    reveal_strlit("url=");
    reveal_strlit("timeout=");
    let a = "url="@ + url;
    let b = "timeout="@ + text::decimal(time);
    assert(a.take(4) =~= "url="@);
    assert(a.skip(4) =~= url);
    assert(b.take(8) =~= "timeout="@);
    assert(b.skip(8) =~= text::decimal(time));
    if a.len() >= 8 {
        assert(a.take(8)[0] == 'u');
    }
    assert(b.take(4)[0] == 't');
    text::law_parse_of_decimal(time, u64::MAX as nat);
    lemma_probe_front(parts, parts.push(a), parts.len() as int);
    lemma_probe_front(parts, parts.push(b), parts.len() as int);
}

proof fn lemma_probe_front(a: Seq<Seq<char>>, b: Seq<Seq<char>>, n: int)
    requires
        0 <= n <= a.len(),
        n <= b.len(),
        forall|i: int| 0 <= i < n ==> a[i] == b[i],
    ensures
        probe_url(a, n) == probe_url(b, n),
        probe_timeout(a, n) == probe_timeout(b, n),
    decreases n,
{
    if n > 0 {
        lemma_probe_front(a, b, n - 1);
    }
}

// One outbound

/// What a request to measure an outbound leads to.
pub enum ProbeStep {
    Respond(HttpResponse),
    /// The outbound at a place is to connect.
    Connect { place: usize, host: String, port: u16, timeout_ms: u64 },
}

/// Whether a request to measure an outbound leads to this step.
pub open spec fn proxy_step(
    slots: Seq<OutboundSlot>,
    name: Seq<char>,
    query: Seq<char>,
    r: ProbeStep,
) -> bool {
    let p = text::parts(query, '&');
    let i = outbound_mgr::slot_of(
        slots,
        slots.len() as int,
        proxies::decoded(name),
    );
    match url_target(probe_url(p, p.len() as int)) {
        Err(ProbeError::Scheme) => r matches ProbeStep::Respond(x) && x@
            == http::text_reply(400, "Bad Request"@, "invalid probe url scheme"@),
        Err(ProbeError::Port) => r matches ProbeStep::Respond(x) && x@ == http::text_reply(
            400,
            "Bad Request"@,
            "invalid port in url"@,
        ),
        Ok((h, port)) => if i < 0 {
            r matches ProbeStep::Respond(x) && x@ == http::text_reply(
                404,
                "Not Found"@,
                "proxy not found"@,
            )
        } else {
            r matches ProbeStep::Connect { place, host, port: q, timeout_ms } && place == i
                && host@ == h && q == port && timeout_ms == probe_timeout(
                p,
                p.len() as int,
            )
        },
    }
}

/// What a request to measure an outbound leads to.
pub fn get_proxy_delay(mgr: &OutboundManager, encoded_name: &str, query: &str) -> (r: ProbeStep)
    requires
        path::decodable(vstd::utf8::encode_utf8(encoded_name@)),
        probe_decodable(query@),
    ensures
        proxy_step(mgr.slots(), encoded_name@, query@, r),
{
    let name: String = path::percent_decode(encoded_name);
    let (url, timeout_ms): (String, u64) = probe_request(query);
    match probe_target(url.as_str()) {
        Err(ProbeError::Scheme) => ProbeStep::Respond(
            http::text_response(400, "Bad Request", "invalid probe url scheme"),
        ),
        Err(ProbeError::Port) => ProbeStep::Respond(
            http::text_response(400, "Bad Request", "invalid port in url"),
        ),
        Ok((host, port)) => match mgr.get(name.as_str()) {
            None => ProbeStep::Respond(http::text_response(404, "Not Found", "proxy not found")),
            Some(place) => ProbeStep::Connect { place, host, port, timeout_ms },
        },
    }
}

/// How connecting went.
pub enum ProbeOutcome {
    /// It took so many milliseconds.
    Connected(u64),
    Failed(String),
    TimedOut,
}

/// The delays after connecting: a new one is noted, and none is kept of an
/// outbound that did not connect.
pub open spec fn noted(
    h: Map<Seq<char>, history::DelayRecord>,
    tag: Seq<char>,
    delay: Option<u64>,
    now_ms: u64,
) -> Map<Seq<char>, history::DelayRecord> {
    match delay {
        Some(d) => h.insert(tag, history::DelayRecord { time_ms: now_ms, delay: d }),
        None => h.remove(tag),
    }
}

/// The response once an outbound was measured.
pub fn after_proxy_delay(
    h: &mut DelayHistory,
    name: &str,
    outcome: ProbeOutcome,
    now_ms: u64,
) -> (r: HttpResponse)
    requires
        old(h).wf(),
    ensures
        final(h).wf(),
        match outcome {
            ProbeOutcome::Connected(d) => final(h)@ == noted(old(h)@, name@, Some(d), now_ms) && r@
                == json::json_reply(
                200,
                "OK"@,
                Json::Object(
                    json::nothing().insert("delay"@, Json::Number(d as int)).insert(
                        "meanDelay"@,
                        Json::Number(d as int),
                    ),
                ),
            ),
            ProbeOutcome::Failed(e) => final(h)@ == noted(old(h)@, name@, None, now_ms) && r@
                == json::json_reply(
                500,
                "Internal Server Error"@,
                json::one_text("message"@, e@),
            ),
            ProbeOutcome::TimedOut => final(h)@ == noted(old(h)@, name@, None, now_ms) && r@
                == json::json_reply(
                500,
                "Internal Server Error"@,
                json::one_text("message"@, "timeout"@),
            ),
        },
{
    match outcome {
        ProbeOutcome::Connected(d) => {
            h.store(name, d, now_ms);
            let mut m = json::no_entries();
            json::put_entry(&mut m, "delay", json::json_count(d));
            json::put_entry(&mut m, "meanDelay", json::json_count(d));
            json::json_response(&json::json_object(m))
        },
        ProbeOutcome::Failed(e) => {
            h.delete(name);
            json::message_response(500, "Internal Server Error", "message", e.as_str())
        },
        ProbeOutcome::TimedOut => {
            h.delete(name);
            json::message_response(500, "Internal Server Error", "message", "timeout")
        },
    }
}

// A group

/// What a request to measure a group leads to.
pub enum GroupProbeStep {
    Respond(HttpResponse),
    /// The members are to connect; one without a place does not exist.
    Connect { members: Vec<(String, Option<usize>)>, host: String, port: u16, timeout_ms: u64 },
}

/// The place of the outbound of a tag.
pub open spec fn place_of(slots: Seq<OutboundSlot>, tag: Seq<char>) -> Option<usize> {
    let i = outbound_mgr::slot_of(slots, slots.len() as int, tag);
    if i >= 0 {
        Some(i as usize)
    } else {
        None
    }
}

/// Whether `v` are the members of a group with their places.
pub open spec fn placed(
    v: Seq<(String, Option<usize>)>,
    all: Seq<String>,
    slots: Seq<OutboundSlot>,
) -> bool {
    &&& v.len() == all.len()
    &&& forall|k: int|
        0 <= k < v.len() ==> (#[trigger] v[k]).0@ == all[k]@ && v[k].1 == place_of(slots, all[k]@)
}

/// Whether a request to measure a group leads to this step.
pub open spec fn group_step(
    slots: Seq<OutboundSlot>,
    statuses: Seq<OutboundStatus>,
    name: Seq<char>,
    query: Seq<char>,
    r: GroupProbeStep,
) -> bool {
    let p = text::parts(query, '&');
    let g = proxies::first_named(statuses, proxies::decoded(name), 0);
    if g >= statuses.len() {
        r matches GroupProbeStep::Respond(x) && x@ == http::text_reply(
            404,
            "Not Found"@,
            "group not found"@,
        )
    } else if statuses[g].all@.len() == 0 {
        r matches GroupProbeStep::Respond(x) && x@ == json::json_reply(
            200,
            "OK"@,
            Json::Object(json::nothing()),
        )
    } else {
        match url_target(probe_url(p, p.len() as int)) {
            Err(ProbeError::Scheme) => r matches GroupProbeStep::Respond(x) && x@
                == http::text_reply(400, "Bad Request"@, "invalid probe url scheme"@),
            Err(ProbeError::Port) => r matches GroupProbeStep::Respond(x) && x@
                == http::text_reply(400, "Bad Request"@, "invalid port"@),
            Ok((h, port)) => r matches GroupProbeStep::Connect {
                members,
                host,
                port: q,
                timeout_ms,
            } && placed(members@, statuses[g].all@, slots) && host@ == h && q
                == port && timeout_ms == probe_timeout(p, p.len() as int),
        }
    }
}

/// What a request to measure a group leads to.
pub fn get_group_delay(
    mgr: &OutboundManager,
    statuses: &Vec<OutboundStatus>,
    encoded_name: &str,
    query: &str,
) -> (r: GroupProbeStep)
    requires
        path::decodable(vstd::utf8::encode_utf8(encoded_name@)),
        probe_decodable(query@),
    ensures
        group_step(mgr.slots(), statuses@, encoded_name@, query@, r),
{
    let name: String = path::percent_decode(encoded_name);
    let g: usize = match proxies::find_status(statuses, name.as_str()) {
        Some(g) => g,
        None => {
            return GroupProbeStep::Respond(
                http::text_response(404, "Not Found", "group not found"),
            );
        },
    };
    let all: &Vec<String> = &statuses[g].all;
    if all.len() == 0 {
        return GroupProbeStep::Respond(
            json::json_response(&json::json_object(json::no_entries())),
        );
    }
    let (url, timeout_ms): (String, u64) = probe_request(query);
    match probe_target(url.as_str()) {
        Err(ProbeError::Scheme) => GroupProbeStep::Respond(
            http::text_response(400, "Bad Request", "invalid probe url scheme"),
        ),
        Err(ProbeError::Port) => GroupProbeStep::Respond(
            http::text_response(400, "Bad Request", "invalid port"),
        ),
        Ok((host, port)) => {
            let mut members: Vec<(String, Option<usize>)> = Vec::new();
            let mut i: usize = 0;
            while i < all.len()
                invariant
                    i <= all@.len(),
                    members@.len() == i,
                    forall|k: int|
                        0 <= k < i ==> (#[trigger] members@[k]).0@ == all@[k]@ && members@[k].1
                            == place_of(mgr.slots(), all@[k]@),
                decreases all@.len() - i,
            {
                let tag: &str = all[i].as_str();
                members.push((tag.to_owned(), mgr.get(tag)));
                i = i + 1;
            }
            GroupProbeStep::Connect { members, host, port, timeout_ms }
        },
    }
}

/// How a member of a group was measured.
pub struct MemberOutcome {
    pub tag: String,
    /// Whether there is such an outbound.
    pub exists: bool,
    /// Milliseconds, if it connected in time.
    pub delay: Option<u64>,
    pub now_ms: u64,
}

/// The delays after the first `n` members were measured.
pub open spec fn group_noted(
    h: Map<Seq<char>, history::DelayRecord>,
    v: Seq<MemberOutcome>,
    n: int,
) -> Map<Seq<char>, history::DelayRecord>
    decreases n,
{
    if n <= 0 {
        h
    } else if v[n - 1].exists {
        noted(group_noted(h, v, n - 1), v[n - 1].tag@, v[n - 1].delay, v[n - 1].now_ms)
    } else {
        group_noted(h, v, n - 1)
    }
}

/// The delays of the first `n` members, by tag.
pub open spec fn group_delays(v: Seq<MemberOutcome>, n: int) -> Map<Seq<char>, Json>
    decreases n,
{
    if n <= 0 {
        json::nothing()
    } else {
        group_delays(v, n - 1).insert(
            v[n - 1].tag@,
            match (v[n - 1].exists, v[n - 1].delay) {
                (true, Some(d)) => Json::Number(d as int),
                _ => Json::Null,
            },
        )
    }
}

/// The response once a group was measured.
pub fn after_group_delay(h: &mut DelayHistory, v: &Vec<MemberOutcome>) -> (r: HttpResponse)
    requires
        old(h).wf(),
    ensures
        final(h).wf(),
        final(h)@ == group_noted(old(h)@, v@, v@.len() as int),
        r@ == json::json_reply(200, "OK"@, Json::Object(group_delays(v@, v@.len() as int))),
{
    let mut m = json::no_entries();
    let mut i: usize = 0;
    while i < v.len()
        invariant
            i <= v@.len(),
            h.wf(),
            h@ == group_noted(old(h)@, v@, i as int),
            json::entries(m) == group_delays(v@, i as int),
        decreases v@.len() - i,
    {
        let o: &MemberOutcome = &v[i];
        let tag: &str = o.tag.as_str();
        if o.exists {
            match o.delay {
                Some(d) => {
                    h.store(tag, d, o.now_ms);
                    json::put_entry(&mut m, tag, json::json_count(d));
                },
                None => {
                    h.delete(tag);
                    json::put_entry(&mut m, tag, json::json_null());
                },
            }
        } else {
            json::put_entry(&mut m, tag, json::json_null());
        }
        i = i + 1;
    }
    json::json_response(&json::json_object(m))
}

proof fn lemma_group_delays(v: Seq<MemberOutcome>, n: int, k: int)
    requires
        0 <= k < n <= v.len(),
        forall|j: int| k < j < n ==> (#[trigger] v[j]).tag@ != v[k].tag@,
    ensures
        json::entry(Json::Object(group_delays(v, n)), v[k].tag@) == Some(
            match (v[k].exists, v[k].delay) {
                (true, Some(d)) => Json::Number(d as int),
                _ => Json::Null,
            },
        ),
    decreases n,
{
    if n - 1 > k {
        assert(v[n - 1].tag@ != v[k].tag@);
        lemma_group_delays(v, n - 1, k);
    }
}

/// Of every member of a group its delay is shown, under its tag; nothing if it
/// does not exist or did not connect in time.
pub proof fn law_delays_of_members_are_shown(v: Seq<MemberOutcome>, k: int)
    requires
        0 <= k < v.len(),
        forall|j: int| k < j < v.len() ==> (#[trigger] v[j]).tag@ != v[k].tag@,
    ensures
        v[k].exists && v[k].delay is Some ==> json::entry(
            Json::Object(group_delays(v, v.len() as int)),
            v[k].tag@,
        ) == Some(Json::Number(v[k].delay->0 as int)),
        !v[k].exists || v[k].delay is None ==> json::entry(
            Json::Object(group_delays(v, v.len() as int)),
            v[k].tag@,
        ) == Some(Json::Null),
{
    lemma_group_delays(v, v.len() as int, k);
}

proof fn lemma_group_noted(
    h: Map<Seq<char>, history::DelayRecord>,
    v: Seq<MemberOutcome>,
    n: int,
    k: int,
)
    requires
        0 <= k < n <= v.len(),
        v[k].exists,
        forall|j: int| k < j < n ==> (#[trigger] v[j]).tag@ != v[k].tag@,
    ensures
        ({
            let g = group_noted(h, v, n);
            match v[k].delay {
                Some(d) => g.contains_key(v[k].tag@) && g[v[k].tag@] == (history::DelayRecord {
                    time_ms: v[k].now_ms,
                    delay: d,
                }),
                None => !g.contains_key(v[k].tag@),
            }
        }),
    decreases n,
{
    if n - 1 > k {
        assert(v[n - 1].tag@ != v[k].tag@);
        lemma_group_noted(h, v, n - 1, k);
    }
}

/// The delay of every member of a group that exists is noted, with the time at
/// which it was measured; that of one which did not connect in time is forgotten.
pub proof fn law_delays_of_members_are_noted(
    h: Map<Seq<char>, history::DelayRecord>,
    v: Seq<MemberOutcome>,
    k: int,
)
    requires
        0 <= k < v.len(),
        v[k].exists,
        forall|j: int| k < j < v.len() ==> (#[trigger] v[j]).tag@ != v[k].tag@,
    ensures
        ({
            let g = group_noted(h, v, v.len() as int);
            match v[k].delay {
                Some(d) => g.contains_key(v[k].tag@) && g[v[k].tag@] == (history::DelayRecord {
                    time_ms: v[k].now_ms,
                    delay: d,
                }),
                None => !g.contains_key(v[k].tag@),
            }
        }),
{
    lemma_group_noted(h, v, v.len() as int, k);
}

} // verus!
