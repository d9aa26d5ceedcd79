//! Settings of outbounds.
use vstd::prelude::*;
use std::collections::HashMap;
use crate::app::sniff_forms;
use crate::text;

verus! {

/// An outbound.
#[derive(Debug)]
pub enum OutboundConfig {
    Vless(VlessOutboundConfig),
    Vmess(VmessOutboundConfig),
    Shadowsocks(ShadowsocksOutboundConfig),
    Hysteria2(Hysteria2OutboundConfig),
    Tuic(TuicOutboundConfig),
    Trojan(TrojanOutboundConfig),
    AnyTls(AnyTlsOutboundConfig),
    Direct(DirectOutboundConfig),
    Block(BlockOutboundConfig),
    Socks(SocksOutboundConfig),
    Selector(SelectorOutboundConfig),
    UrlTest(UrlTestOutboundConfig),
}

/// Providers of further outbounds for a group.
#[derive(Debug)]
pub struct ProviderRef {
    pub tags: Vec<String>,
    /// Which of their outbounds are taken.
    pub filter: Option<String>,
}

impl OutboundConfig {
    /// The tag.
    pub open spec fn tag_of(self) -> Seq<char> {
        match self {
            OutboundConfig::Vless(c) => c.tag@,
            OutboundConfig::Vmess(c) => c.tag@,
            OutboundConfig::Shadowsocks(c) => c.tag@,
            OutboundConfig::Hysteria2(c) => c.tag@,
            OutboundConfig::Tuic(c) => c.tag@,
            OutboundConfig::Trojan(c) => c.tag@,
            OutboundConfig::AnyTls(c) => c.tag@,
            OutboundConfig::Direct(c) => c.tag@,
            OutboundConfig::Block(c) => c.tag@,
            OutboundConfig::Socks(c) => c.tag@,
            OutboundConfig::Selector(c) => c.tag@,
            OutboundConfig::UrlTest(c) => c.tag@,
        }
    }

    /// The tag.
    pub fn tag(&self) -> (r: &str)
        ensures
            r@ == self.tag_of(),
    {
        match self {
            OutboundConfig::Vless(c) => c.tag.as_str(),
            OutboundConfig::Vmess(c) => c.tag.as_str(),
            OutboundConfig::Shadowsocks(c) => c.tag.as_str(),
            OutboundConfig::Hysteria2(c) => c.tag.as_str(),
            OutboundConfig::Tuic(c) => c.tag.as_str(),
            OutboundConfig::Trojan(c) => c.tag.as_str(),
            OutboundConfig::AnyTls(c) => c.tag.as_str(),
            OutboundConfig::Direct(c) => c.tag.as_str(),
            OutboundConfig::Block(c) => c.tag.as_str(),
            OutboundConfig::Socks(c) => c.tag.as_str(),
            OutboundConfig::Selector(c) => c.tag.as_str(),
            OutboundConfig::UrlTest(c) => c.tag.as_str(),
        }
    }

    /// The outbounds of a group; others have none.
    pub fn child_outbounds(&self) -> (r: &[String])
        ensures
            r@ == (match *self {
                OutboundConfig::Selector(c) => c.outbounds@,
                OutboundConfig::UrlTest(c) => c.outbounds@,
                _ => Seq::empty(),
            }),
    {
        match self {
            OutboundConfig::Selector(c) => c.outbounds.as_slice(),
            OutboundConfig::UrlTest(c) => c.outbounds.as_slice(),
            _ => {
                let none: &[String] = &[];
                assert(none@ =~= Seq::<String>::empty());
                none
            },
        }
    }

    /// The providers of a group.
    pub fn group_providers(&self) -> (r: Option<&ProviderRef>)
        ensures
            match r {
                Some(p) => (match *self {
                    OutboundConfig::Selector(c) => c.providers == Some(*p),
                    OutboundConfig::UrlTest(c) => c.providers == Some(*p),
                    _ => false,
                }),
                None => (match *self {
                    OutboundConfig::Selector(c) => c.providers is None,
                    OutboundConfig::UrlTest(c) => c.providers is None,
                    _ => true,
                }),
            },
    {
        match self {
            OutboundConfig::Selector(c) => c.providers.as_ref(),
            OutboundConfig::UrlTest(c) => c.providers.as_ref(),
            _ => None,
        }
    }

    /// The outbound that a group begins with, where the settings give one.
    pub fn group_default(&self) -> (r: Option<&str>)
        ensures
            match r {
                Some(d) => *self is Selector && self->Selector_0.default is Some
                    && self->Selector_0.default->0@ == d@,
                None => !(*self is Selector && self->Selector_0.default is Some),
            },
    {
        match self {
            OutboundConfig::Selector(c) => match &c.default {
                Some(d) => Some(d.as_str()),
                None => None,
            },
            _ => None,
        }
    }

    /// Whether this is a group.
    pub fn is_group(&self) -> (r: bool)
        ensures
            r == (*self is Selector || *self is UrlTest),
    {
        match self {
            OutboundConfig::Selector(_) => true,
            OutboundConfig::UrlTest(_) => true,
            _ => false,
        }
    }
}

#[derive(Debug)]
pub struct AnyTlsOutboundConfig {
    pub tag: String,
    pub server: String,
    pub server_port: u16,
    pub password: String,
    pub tls: TlsConfig,
    /// Such as `30s`.
    pub idle_session_check_interval: Option<String>,
    pub idle_session_timeout: Option<String>,
    /// Idle sessions that are kept at least.
    pub min_idle_session: u32,
    pub detour: Option<String>,
}

#[derive(Debug)]
pub struct ShadowsocksOutboundConfig {
    pub tag: String,
    pub server: String,
    pub server_port: u16,
    pub method: String,
    pub password: String,
    pub plugin: Option<String>,
    pub plugin_opts: Option<String>,
    pub transport: Option<ShadowsocksTransportConfig>,
    pub tls: Option<TlsConfig>,
    pub detour: Option<String>,
}

#[derive(Debug)]
pub enum ShadowsocksTransportConfig {
    Ws(WsTransportConfig),
    Xhttp(XhttpTransportConfig),
}

#[derive(Debug)]
pub struct VlessOutboundConfig {
    pub tag: String,
    pub server: String,
    pub server_port: u16,
    pub uuid: String,
    /// Plain TCP if there is none.
    pub transport: Option<VlessTransportConfig>,
    pub tls: Option<VlessTlsConfig>,
    pub detour: Option<String>,
}

#[derive(Debug)]
pub enum VlessTransportConfig {
    Ws(WsTransportConfig),
    Tcp(TcpTransportConfig),
    Xhttp(XhttpTransportConfig),
}

#[derive(Debug)]
pub struct TcpTransportConfig {
    pub http_upgrade: bool,
}

#[derive(Debug)]
pub struct VlessTlsConfig {
    pub enabled: bool,
    /// The server's name if it differs from `server`.
    pub server_name: Option<String>,
    pub insecure: bool,
    pub ca_path: Option<String>,
    pub alpn: Vec<String>,
    pub reality: Option<RealityConfig>,
}

#[derive(Debug)]
pub struct RealityConfig {
    pub enabled: bool,
    pub public_key: String,
    pub short_id: String,
}

#[derive(Debug)]
pub struct WsTransportConfig {
    pub path: String,
    pub headers: HashMap<String, String>,
    pub early_data_header_name: Option<String>,
    /// Bytes; zero stands for none.
    pub max_early_data: u32,
}

#[derive(Debug)]
pub struct XhttpTransportConfig {
    pub host: Option<String>,
    pub path: Option<String>,
    pub mode: Option<String>,
    pub headers: HashMap<String, String>,
    pub sc_max_each_post_bytes: Option<u64>,
    pub sc_min_posts_interval_ms: Option<u64>,
    pub sc_max_buffered_posts: Option<u64>,
    pub no_grpc_header: bool,
    pub no_sse_header: bool,
    pub uplink_http_method: Option<String>,
    pub xmux: Option<XmuxConfig>,
}

#[derive(Debug)]
pub struct XmuxConfig {
    pub max_concurrency: Option<u32>,
    pub max_connections: Option<u32>,
    pub c_max_reuse_times: Option<u32>,
    pub h_max_request_times: Option<u32>,
    pub h_max_reusable_secs: Option<u32>,
    pub h_keep_alive_period: Option<u64>,
}

#[derive(Debug)]
pub struct VmessOutboundConfig {
    pub tag: String,
    pub server: String,
    pub server_port: u16,
    pub uuid: String,
    pub security: String,
    pub transport: VmessTransportConfig,
    pub tls: TlsConfig,
    pub detour: Option<String>,
}

#[derive(Debug)]
pub enum VmessTransportConfig {
    Tcp,
    Ws(WsTransportConfig),
    Xhttp(XhttpTransportConfig),
}

#[derive(Debug)]
pub struct Hysteria2OutboundConfig {
    pub tag: String,
    pub server: String,
    pub server_port: u16,
    pub password: String,
    pub tls: TlsConfig,
    /// Megabits per second; zero stands for no limit.
    pub up_mbps: u64,
    pub down_mbps: u64,
    pub detour: Option<String>,
}

/// Bytes per second of a number of megabits per second.
pub fn mbps_to_bps(mbps: u64) -> (r: u64)
    requires
        mbps * 1_000_000 <= u64::MAX,
    ensures
        r == mbps * 125_000,
{
    mbps * 1_000_000 / 8
}

#[derive(Debug)]
pub struct TuicOutboundConfig {
    pub tag: String,
    pub server: String,
    pub server_port: u16,
    pub uuid: String,
    pub password: String,
    pub congestion_control: String,
    pub udp_relay_mode: String,
    pub tls: TlsConfig,
    pub heartbeat: Option<String>,
    pub zero_rtt_handshake: bool,
    pub detour: Option<String>,
}

#[derive(Debug)]
pub struct TrojanOutboundConfig {
    pub tag: String,
    pub server: String,
    pub server_port: u16,
    pub password: String,
    /// Plain TCP if there is none.
    pub transport: Option<TrojanTransportConfig>,
    pub tls: TlsConfig,
    pub detour: Option<String>,
}

#[derive(Debug)]
pub enum TrojanTransportConfig {
    Tcp(TrojanTcpConfig),
    Ws(WsTransportConfig),
    Xhttp(XhttpTransportConfig),
}

impl Default for TrojanTransportConfig {
    fn default() -> (r: Self)
        ensures
            r is Tcp,
    {
        TrojanTransportConfig::Tcp(TrojanTcpConfig {  })
    }
}

#[derive(Debug)]
pub struct TrojanTcpConfig {}

#[derive(Debug)]
pub struct DirectOutboundConfig {
    pub tag: String,
    /// The local address to go out from.
    pub bind_address: Option<String>,
}

#[derive(Debug)]
pub struct BlockOutboundConfig {
    pub tag: String,
}

#[derive(Debug)]
pub struct SocksOutboundConfig {
    pub tag: String,
    pub server: String,
    pub server_port: u16,
    /// `5`, `4a` or `4`.
    pub version: Option<String>,
    pub username: Option<String>,
    pub password: Option<String>,
}

#[derive(Clone, Copy, Debug, PartialEq, Eq, Structural)]
pub enum SocksVersion {
    V5,
    V4a,
    V4,
}

/// A version of SOCKS that does not exist.
#[derive(Debug)]
pub struct UnsupportedVersion {
    pub version: String,
}

impl UnsupportedVersion {
    /// The message.
    pub fn message(&self) -> (r: String)
        ensures
            r@ == "unsupported socks version: '"@ + self.version@ + "', expected 5 / 4a / 4"@,
    {
        let mut t: Vec<char> = text::chars_of("unsupported socks version: '");
        text::push_text(&mut t, self.version.as_str());
        text::push_text(&mut t, "', expected 5 / 4a / 4");
        text::string_of(t.as_slice())
    }
}

/// The version that a text stands for; where no text is given, the latest.
pub open spec fn version_of(v: Option<String>) -> Option<SocksVersion> {
    match v {
        None => Some(SocksVersion::V5),
        Some(t) => if t@ == "5"@ {
            Some(SocksVersion::V5)
        } else if t@ == "4a"@ {
            Some(SocksVersion::V4a)
        } else if t@ == "4"@ {
            Some(SocksVersion::V4)
        } else {
            None
        },
    }
}

impl SocksOutboundConfig {
    /// The version.
    pub fn parsed_version(&self) -> (r: Result<SocksVersion, UnsupportedVersion>)
        ensures
            match r {
                Ok(v) => version_of(self.version) == Some(v),
                Err(e) => version_of(self.version) is None && e.version@ == self.version->0@,
            },
    {
        match &self.version {
            None => Ok(SocksVersion::V5),
            Some(t) => {
                let s: &str = t.as_str();
                if text::same_text(s, "5") {
                    Ok(SocksVersion::V5)
                } else if text::same_text(s, "4a") {
                    Ok(SocksVersion::V4a)
                } else if text::same_text(s, "4") {
                    Ok(SocksVersion::V4)
                } else {
                    Err(UnsupportedVersion { version: s.to_owned() })
                }
            },
        }
    }
}

/// A group from which the user picks.
#[derive(Debug)]
pub struct SelectorOutboundConfig {
    pub tag: String,
    pub outbounds: Vec<String>,
    pub providers: Option<ProviderRef>,
    /// The one to begin with; the first if there is none.
    pub default: Option<String>,
    pub interrupt_existing_connections: bool,
}

/// A group from which the fastest is picked.
#[derive(Debug)]
pub struct UrlTestOutboundConfig {
    pub tag: String,
    pub outbounds: Vec<String>,
    pub providers: Option<ProviderRef>,
    pub url: String,
    /// Such as `3m`.
    pub interval: String,
    pub idle_timeout: String,
    /// Milliseconds by which another one has to be faster.
    pub tolerance: u64,
}

impl UrlTestOutboundConfig {
    /// Seconds between two measurements.
    pub fn interval_duration(&self) -> (r: Result<u64, DurationError>)
        requires
            fits(self.interval@),
        ensures
            parsed(self.interval@, r),
    {
        parse_duration(self.interval.as_str())
    }

    /// Seconds without use after which no more is measured.
    pub fn idle_timeout_duration(&self) -> (r: Result<u64, DurationError>)
        requires
            fits(self.idle_timeout@),
        ensures
            parsed(self.idle_timeout@, r),
    {
        parse_duration(self.idle_timeout.as_str())
    }
}

#[derive(Debug)]
pub struct TlsConfig {
    pub enabled: bool,
    /// The server's name if it differs from `server`.
    pub server_name: Option<String>,
    pub insecure: bool,
    pub ca_path: Option<String>,
    pub alpn: Vec<String>,
    pub min_version: Option<TlsVersion>,
    pub max_version: Option<TlsVersion>,
}

impl Default for TlsConfig {
    fn default() -> (r: Self)
        ensures
            r.enabled,
            r.server_name is None,
            !r.insecure,
            r.ca_path is None,
            r.alpn@.len() == 0,
            r.min_version is None,
            r.max_version is None,
    {
        TlsConfig {
            enabled: true,
            server_name: None,
            insecure: false,
            ca_path: None,
            alpn: Vec::new(),
            min_version: None,
            max_version: None,
        }
    }
}

#[derive(Clone, Copy, Debug, PartialEq, Eq, Structural)]
pub enum TlsVersion {
    Tls12,
    Tls13,
}

/// What a REALITY connection takes.
#[derive(Debug)]
pub struct RealityDialConfig {
    pub public_key: String,
    pub short_id: String,
    pub server_name: Option<String>,
    pub server: String,
    pub alpn: Vec<String>,
    pub fingerprint: String,
}

// Durations

/// Why a text is no duration.
#[derive(Debug)]
pub enum DurationError {
    Empty,
    MissingNumber(String),
    /// The number is too large.
    TooLarge,
    UnsupportedUnit(String),
}

/// Why a text is no duration, without the text.
pub ghost enum DurationFault {
    Empty,
    MissingNumber,
    TooLarge,
    UnsupportedUnit,
}

/// The number of digits at the start from `i` on, plus `i`.
pub open spec fn digits_end(s: Seq<char>, i: int) -> int
    decreases s.len() - i,
{
    if i < 0 || i >= s.len() || !text::is_digit(s[i]) {
        i
    } else {
        digits_end(s, i + 1)
    }
}

/// The seconds of a unit.
pub open spec fn unit_seconds(unit: Seq<char>) -> Option<nat> {
    if unit == ""@ || unit == "s"@ {
        Some(1)
    } else if unit == "m"@ {
        Some(60)
    } else if unit == "h"@ {
        Some(3600)
    } else if unit == "d"@ {
        Some(86400)
    } else {
        None
    }
}

/// The seconds of a duration: a number and a unit, with or without space around
/// them.
pub open spec fn duration_value(s: Seq<char>) -> Result<nat, DurationFault> {
    let t = text::trimmed(s);
    let k = digits_end(t, 0);
    if t.len() == 0 {
        Err(DurationFault::Empty)
    } else if k == 0 {
        Err(DurationFault::MissingNumber)
    } else if text::decimal_value(t.take(k)) > u64::MAX {
        Err(DurationFault::TooLarge)
    } else {
        match unit_seconds(t.skip(k)) {
            None => Err(DurationFault::UnsupportedUnit),
            Some(u) => Ok(text::decimal_value(t.take(k)) * u),
        }
    }
}

/// Whether the seconds of a duration, if it is one, fit.
pub open spec fn fits(s: Seq<char>) -> bool {
    duration_value(s) matches Ok(v) ==> v <= u64::MAX
}

/// Whether `r` is the duration in a text.
pub open spec fn parsed(s: Seq<char>, r: Result<u64, DurationError>) -> bool {
    match (duration_value(s), r) {
        (Ok(v), Ok(x)) => v == x,
        (Err(DurationFault::Empty), Err(DurationError::Empty)) => true,
        (Err(DurationFault::MissingNumber), Err(DurationError::MissingNumber(t))) => t@
            == text::trimmed(s),
        (Err(DurationFault::TooLarge), Err(DurationError::TooLarge)) => true,
        (Err(DurationFault::UnsupportedUnit), Err(DurationError::UnsupportedUnit(t))) => t@
            == text::trimmed(s),
        _ => false,
    }
}

impl DurationError {
    /// The message.
    pub fn message(&self) -> (r: String)
        ensures
            r@ == (match self {
                DurationError::Empty => "duration cannot be empty"@,
                DurationError::MissingNumber(s) => "duration missing number: '"@ + s@ + "'"@,
                DurationError::TooLarge => "number too large to fit in target type"@,
                DurationError::UnsupportedUnit(s) => "unsupported duration unit in '"@ + s@ + "'"@,
            }),
    {
        match self {
            DurationError::Empty => "duration cannot be empty".to_owned(),
            DurationError::MissingNumber(s) => quoted("duration missing number: '", s.as_str()),
            DurationError::TooLarge => "number too large to fit in target type".to_owned(),
            DurationError::UnsupportedUnit(s) => quoted(
                "unsupported duration unit in '",
                s.as_str(),
            ),
        }
    }
}

fn quoted(before: &str, s: &str) -> (r: String)
    ensures
        r@ == before@ + s@ + "'"@,
{
    let mut t: Vec<char> = text::chars_of(before);
    text::push_text(&mut t, s);
    text::push_text(&mut t, "'");
    text::string_of(t.as_slice())
}

fn unit_of(unit: &[char]) -> (r: Option<u64>)
    ensures
        match r {
            Some(u) => unit_seconds(unit@) == Some(u as nat),
            None => unit_seconds(unit@) is None,
        },
        r matches Some(u) ==> 1 <= u <= 86400,
{
    let t: String = text::string_of(unit);
    let s: &str = t.as_str();
    if text::same_text(s, "") || text::same_text(s, "s") {
        Some(1)
    } else if text::same_text(s, "m") {
        Some(60)
    } else if text::same_text(s, "h") {
        Some(3600)
    } else if text::same_text(s, "d") {
        Some(86400)
    } else {
        None
    }
}

proof fn lemma_digits_end(s: Seq<char>, i: int)
    requires
        0 <= i <= s.len(),
    ensures
        i <= digits_end(s, i) <= s.len(),
        forall|k: int| i <= k < digits_end(s, i) ==> text::is_digit(#[trigger] s[k]),
    decreases s.len() - i,
{
    if i < s.len() && text::is_digit(s[i]) {
        lemma_digits_end(s, i + 1);
    }
}

/// The seconds of a duration such as `30s`, `3m`, `1h` or `2d`; without a unit
/// the number stands for seconds.
pub fn parse_duration(s: &str) -> (r: Result<u64, DurationError>)
    requires
        fits(s@),
    ensures
        parsed(s@, r),
{
    let chars: Vec<char> = text::chars_of(s);
    let t: &[char] = text::trim(chars.as_slice());
    let n: usize = t.len();
    if n == 0 {
        return Err(DurationError::Empty);
    }
    let mut k: usize = 0;
    while k < n && t[k] >= '0' && t[k] <= '9'
        invariant
            n == t@.len(),
            k <= n,
            digits_end(t@, 0) == digits_end(t@, k as int),
        decreases n - k,
    {
        k = k + 1;
    }
    proof {
        lemma_digits_end(t@, 0);
    }
    if k == 0 {
        return Err(DurationError::MissingNumber(text::string_of(t)));
    }
    let num: &[char] = text::slice_of(t, 0, k);
    let unit: &[char] = text::slice_of(t, k, n);
    assert(num@ =~= t@.take(k as int));
    assert(unit@ =~= t@.skip(k as int));
    assert(text::all_digits(num@));
    assert(text::is_digit(num@[0]));
    assert(text::unsigned_digits(num@) == num@);
    let value: u64 = match text::parse_unsigned(num, u64::MAX) {
        Some(v) => v,
        None => {
            return Err(DurationError::TooLarge);
        },
    };
    match unit_of(unit) {
        Some(u) => {
            assert(value * u <= u64::MAX) by {
                assert(duration_value(s@) == Ok::<nat, DurationFault>(
                    text::decimal_value(t@.take(k as int)) * (u as nat),
                ));
            }
            Ok(value * u)
        },
        None => Err(DurationError::UnsupportedUnit(text::string_of(t))),
    }
}

/// A number with a unit reads as that many seconds.
pub proof fn law_duration_of_number(n: nat, unit: Seq<char>)
    requires
        n <= u64::MAX,
        unit == "s"@ || unit == "m"@ || unit == "h"@ || unit == "d"@,
    ensures
        duration_value(text::decimal(n) + unit) == Ok::<nat, DurationFault>(
            n * unit_seconds(unit)->0,
        ),
{
    reveal_strlit("s");
    reveal_strlit("m");
    reveal_strlit("h");
    reveal_strlit("d");
    text::law_decimal_roundtrip(n);
    let d = text::decimal(n);
    let t = d + unit;
    assert(text::is_digit(d[0]));
    assert(t[0] == d[0]);
    assert(text::trimmed_start(t) == t);
    assert(t[t.len() - 1] == unit[0]);
    assert(text::trimmed_end(t) == t);
    lemma_digits_end_at(t, 0, d.len() as int);
    assert(t.take(d.len() as int) =~= d);
    assert(t.skip(d.len() as int) =~= unit);
}

proof fn lemma_digits_end_at(s: Seq<char>, i: int, end: int)
    requires
        0 <= i <= end < s.len(),
        forall|k: int| i <= k < end ==> text::is_digit(#[trigger] s[k]),
        !text::is_digit(s[end]),
    ensures
        digits_end(s, i) == end,
    decreases end - i,
{
    if i < end {
        assert(text::is_digit(s[i]));
        lemma_digits_end_at(s, i + 1, end);
    }
}

/// A duration in seconds: a number alone or with `s` counts seconds, with `m`
/// minutes of 60 seconds, with `h` hours of 3600, with `d` days of 86400. Space
/// around it does not matter. Any other letter is no unit.
pub proof fn law_units_of_durations(n: nat, unit: char, front: Seq<char>, back: Seq<char>)
    requires
        n <= u64::MAX,
        !text::is_digit(unit),
        !text::is_space(unit),
        forall|i: int| 0 <= i < front.len() ==> text::is_space(#[trigger] front[i]),
        forall|i: int| 0 <= i < back.len() ==> text::is_space(#[trigger] back[i]),
    ensures
        duration_value(front + text::decimal(n) + back) == Ok::<nat, DurationFault>(n),
        duration_value(front + (text::decimal(n) + seq![unit]) + back) == (if unit == 's' {
            Ok::<nat, DurationFault>(n)
        } else if unit == 'm' {
            Ok((n * 60) as nat)
        } else if unit == 'h' {
            Ok((n * 3600) as nat)
        } else if unit == 'd' {
            Ok((n * 86400) as nat)
        } else {
            Err(DurationFault::UnsupportedUnit)
        }),
        duration_value(front + (seq![unit] + text::decimal(n)) + back) == Err::<nat, DurationFault>(
            DurationFault::MissingNumber,
        ),
        duration_value(front) == Err::<nat, DurationFault>(DurationFault::Empty),
{
    reveal_strlit("");
    reveal_strlit("s");
    reveal_strlit("m");
    reveal_strlit("h");
    reveal_strlit("d");
    text::law_decimal_roundtrip(n);
    let d = text::decimal(n);
    let k = d.len() as int;
    assert(text::is_digit(d[0]) && text::is_digit(d.last()));
    let t = d + seq![unit];
    let w = seq![unit] + d;
    assert(t[0] == d[0] && t.last() == unit && w[0] == unit && w.last() == d.last());
    lemma_trimmed(front, d, back);
    lemma_trimmed(front, t, back);
    lemma_trimmed(front, w, back);
    lemma_all_space(front);
    lemma_all_digits(d, 0);
    assert(d.take(k) =~= d);
    assert(d.skip(k) =~= ""@);
    lemma_digits_end_at(t, 0, k);
    assert(t.take(k) =~= d);
    assert(t.skip(k) =~= seq![unit]);
    assert(seq![unit][0] == unit);
    assert("s"@[0] == 's' && "m"@[0] == 'm' && "h"@[0] == 'h' && "d"@[0] == 'd');
    if unit == 's' {
        assert(seq![unit] =~= "s"@);
    } else if unit == 'm' {
        assert(seq![unit] =~= "m"@);
    } else if unit == 'h' {
        assert(seq![unit] =~= "h"@);
    } else if unit == 'd' {
        assert(seq![unit] =~= "d"@);
    }
}

proof fn lemma_trimmed(front: Seq<char>, s: Seq<char>, back: Seq<char>)
    requires
        forall|i: int| 0 <= i < front.len() ==> text::is_space(#[trigger] front[i]),
        forall|i: int| 0 <= i < back.len() ==> text::is_space(#[trigger] back[i]),
        s.len() > 0,
        !text::is_space(s[0]),
        !text::is_space(s.last()),
    ensures
        text::trimmed(front + s + back) == s,
{
    assert(front + s + back =~= front + (s + back));
    assert((s + back)[0] == s[0]);
    sniff_forms::lemma_trimmed_start(front, s + back);
    sniff_forms::lemma_trimmed_end(s, back);
}

proof fn lemma_all_space(s: Seq<char>)
    requires
        forall|i: int| 0 <= i < s.len() ==> text::is_space(#[trigger] s[i]),
    ensures
        text::trimmed(s).len() == 0,
    decreases s.len(),
{
    if s.len() > 0 {
        assert forall|i: int| 0 <= i < s.skip(1).len() implies text::is_space(
            #[trigger] s.skip(1)[i],
        ) by {
            assert(s.skip(1)[i] == s[i + 1]);
        }
        assert(text::is_space(s[0]));
        lemma_all_space(s.skip(1));
    }
}

proof fn lemma_all_digits(s: Seq<char>, i: int)
    requires
        0 <= i <= s.len(),
        text::all_digits(s),
    ensures
        digits_end(s, i) == s.len(),
    decreases s.len() - i,
{
    if i < s.len() {
        lemma_all_digits(s, i + 1);
    }
}

} // verus!
