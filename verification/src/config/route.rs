//! Settings of routing.
use vstd::prelude::*;
use crate::app::sniff_forms;
use crate::text;

verus! {

/// Settings of routing.
#[derive(Debug)]
pub struct RouteConfig {
    /// The rules; the first that matches decides.
    pub rules: Vec<RouteRuleConfig>,
    /// The outbound if no rule matches.
    pub final_outbound: String,
    pub rule_set: Vec<RuleSetRef>,
    /// Whether addresses in DNS responses are routed too.
    pub resolve_dns: bool,
}

/// A rule. All conditions that are given have to hold; of the values of one
/// condition, one.
#[derive(Clone, Debug)]
pub struct RouteRuleConfig {
    pub inbound: Vec<String>,
    pub network: Option<NetworkFilter>,
    pub ruleset: Vec<String>,
    pub domain: Vec<String>,
    pub domain_suffix: Vec<String>,
    pub domain_keyword: Vec<String>,
    pub ip_cidr: Vec<String>,
    pub port: Vec<PortFilter>,
    pub port_range: Vec<String>,
    /// Whether the rule reads ahead to recognise protocol and name.
    pub sniff: bool,
    /// Milliseconds for that; zero stands for the default.
    pub sniff_timeout_ms: u64,
    /// What is looked for; nothing stands for everything.
    pub sniff_type: Vec<String>,
    /// Whether a recognised name replaces the destination.
    pub sniff_override_destination: bool,
    pub protocol: Vec<String>,
    /// Whether the rule looks the name up.
    pub resolve: bool,
    /// The DNS server for that.
    pub resolve_server: Option<String>,
    /// Whether the rule matches private addresses, which go out directly.
    pub private_ip: bool,
    /// Whether the rule hands queries to the resolver.
    pub hijack_dns: bool,
    pub outbound: String,
}

impl Default for RouteRuleConfig {
    fn default() -> (r: Self)
        ensures
            !conditional(r),
            !r.sniff && !r.sniff_override_destination && !r.resolve && !r.hijack_dns,
            r.sniff_timeout_ms == 0,
            r.sniff_type@.len() == 0,
            r.resolve_server is None,
            r.outbound@.len() == 0,
    {
        proof {
            reveal_strlit("");
        }
        RouteRuleConfig {
            inbound: Vec::new(),
            network: None,
            ruleset: Vec::new(),
            domain: Vec::new(),
            domain_suffix: Vec::new(),
            domain_keyword: Vec::new(),
            ip_cidr: Vec::new(),
            port: Vec::new(),
            port_range: Vec::new(),
            sniff: false,
            sniff_timeout_ms: 0,
            sniff_type: Vec::new(),
            sniff_override_destination: false,
            protocol: Vec::new(),
            resolve: false,
            resolve_server: None,
            private_ip: false,
            hijack_dns: false,
            outbound: "".to_owned(),
        }
    }
}

/// Whether a rule has a condition: sniffing, resolving and taking queries over
/// are none.
pub open spec fn conditional(r: RouteRuleConfig) -> bool {
    ||| r.inbound@.len() > 0
    ||| r.network is Some
    ||| r.protocol@.len() > 0
    ||| r.ruleset@.len() > 0
    ||| r.domain@.len() > 0
    ||| r.domain_suffix@.len() > 0
    ||| r.domain_keyword@.len() > 0
    ||| r.ip_cidr@.len() > 0
    ||| r.port@.len() > 0
    ||| r.port_range@.len() > 0
    ||| r.private_ip
}

impl RouteRuleConfig {
    /// Whether the rule has a condition.
    pub fn has_conditions(&self) -> (r: bool)
        ensures
            r == conditional(*self),
    {
        self.inbound.len() > 0 || self.network.is_some() || self.protocol.len() > 0
            || self.ruleset.len() > 0 || self.domain.len() > 0 || self.domain_suffix.len() > 0
            || self.domain_keyword.len() > 0 || self.ip_cidr.len() > 0 || self.port.len() > 0
            || self.port_range.len() > 0 || self.private_ip
    }
}

/// Where a set of rules comes from.
#[derive(Clone, Copy, Debug, PartialEq, Eq, Structural)]
pub enum RuleSetType {
    /// A file.
    Local,
    /// A download.
    Remote,
}

/// How a set of rules is written down.
#[derive(Clone, Copy, Debug, PartialEq, Eq, Structural)]
pub enum RuleSetFormat {
    Binary,
    Source,
}

/// A set of rules.
#[derive(Debug)]
pub struct RuleSetRef {
    pub tag: String,
    pub kind: RuleSetType,
    pub format: RuleSetFormat,
    /// The file, or where the download is kept.
    pub path: Option<String>,
    pub url: Option<String>,
    /// The outbound of the download.
    pub download_detour: Option<String>,
}

#[derive(Clone, Copy, Debug, PartialEq, Eq, Structural)]
pub enum NetworkFilter {
    Tcp,
    Udp,
}

/// The ports from the first to the second.
#[derive(Clone, Copy, Debug, PartialEq, Eq, Structural)]
pub struct PortFilter(pub u16, pub u16);

/// Why a text or a number is no port filter.
#[derive(Debug)]
pub enum PortError {
    /// A number above all ports.
    OutOfRange(u64),
    /// No number.
    NotANumber,
    /// A range that ends before it begins.
    InvalidRange,
}

/// A port filter as a value of a settings file.
pub enum PortText {
    Number(u16),
    Range(String),
}

/// The number of a port in a text, with or without space around it.
pub open spec fn port_value(s: Seq<char>) -> Option<nat> {
    text::unsigned_value(text::trimmed(s), 65535)
}

/// The port filter in a text: a port, or two with a hyphen between them.
pub open spec fn filter_value(s: Seq<char>) -> Result<(nat, nat), PortError> {
    let i = text::index_of(s, '-');
    if i < s.len() {
        match port_value(s.take(i)) {
            None => Err(PortError::NotANumber),
            Some(a) => match port_value(s.skip(i + 1)) {
                None => Err(PortError::NotANumber),
                Some(b) => if a > b {
                    Err(PortError::InvalidRange)
                } else {
                    Ok((a, b))
                },
            },
        }
    } else {
        match port_value(s) {
            None => Err(PortError::NotANumber),
            Some(a) => Ok((a, a)),
        }
    }
}

/// The text of a range.
pub open spec fn range_text(p: PortFilter) -> Seq<char> {
    text::decimal(p.0 as nat) + seq!['-'] + text::decimal(p.1 as nat)
}

fn parse_port(s: &[char]) -> (r: Option<u16>)
    ensures
        match r {
            Some(p) => port_value(s@) == Some(p as nat),
            None => port_value(s@) is None,
        },
{
    match text::parse_unsigned(text::trim(s), 65535) {
        Some(v) => Some(v as u16),
        None => None,
    }
}

impl PortFilter {
    /// Whether a port passes.
    pub fn contains(&self, port: u16) -> (r: bool)
        ensures
            r == (self.0 <= port <= self.1),
    {
        port >= self.0 && port <= self.1
    }

    /// The filter of a single port.
    pub fn from_number(v: u64) -> (r: Result<PortFilter, PortError>)
        ensures
            r == (if v > 65535 {
                Err::<PortFilter, PortError>(PortError::OutOfRange(v))
            } else {
                Ok(PortFilter(v as u16, v as u16))
            }),
    {
        if v > 65535 {
            Err(PortError::OutOfRange(v))
        } else {
            Ok(PortFilter(v as u16, v as u16))
        }
    }

    /// The filter in a text, such as `443` or `8000-9000`.
    pub fn from_text(v: &str) -> (r: Result<PortFilter, PortError>)
        ensures
            match r {
                Ok(p) => filter_value(v@) == Ok::<(nat, nat), PortError>(
                    (p.0 as nat, p.1 as nat),
                ),
                Err(e) => filter_value(v@) == Err::<(nat, nat), PortError>(e),
            },
    {
        let chars: Vec<char> = text::chars_of(v);
        let n: usize = chars.len();
        let i: usize = text::find_from(chars.as_slice(), '-', 0);
        if i < n {
            assert(v@.subrange(0, i as int) =~= v@.take(i as int));
            assert(v@.subrange(i + 1, n as int) =~= v@.skip(i + 1));
            let start: u16 = match parse_port(text::slice_of(chars.as_slice(), 0, i)) {
                Some(p) => p,
                None => {
                    return Err(PortError::NotANumber);
                },
            };
            let end: u16 = match parse_port(text::slice_of(chars.as_slice(), i + 1, n)) {
                Some(p) => p,
                None => {
                    return Err(PortError::NotANumber);
                },
            };
            if start > end {
                return Err(PortError::InvalidRange);
            }
            Ok(PortFilter(start, end))
        } else {
            match parse_port(chars.as_slice()) {
                Some(p) => Ok(PortFilter(p, p)),
                None => Err(PortError::NotANumber),
            }
        }
    }

    /// The filter as a value of a settings file: a number for a single port.
    pub fn to_value(&self) -> (r: PortText)
        ensures
            if self.0 == self.1 {
                r == PortText::Number(self.0)
            } else {
                r matches PortText::Range(s) && s@ == range_text(*self)
            },
    {
        if self.0 == self.1 {
            PortText::Number(self.0)
        } else {
            let mut t: Vec<char> = text::decimal_chars(self.0 as u64);
            t.push('-');
            let n: Vec<char> = text::decimal_chars(self.1 as u64);
            text::push_chars(&mut t, n.as_slice());
            assert(t@ =~= range_text(*self));
            PortText::Range(text::string_of(t.as_slice()))
        }
    }
}

/// A range that is written down reads back as the same range, and a port as
/// itself.
pub proof fn law_port_filter_roundtrip(p: PortFilter)
    requires
        p.0 <= p.1,
    ensures
        filter_value(range_text(p)) == Ok::<(nat, nat), PortError>((p.0 as nat, p.1 as nat)),
        filter_value(text::decimal(p.0 as nat)) == Ok::<(nat, nat), PortError>(
            (p.0 as nat, p.0 as nat),
        ),
{
    let a = text::decimal(p.0 as nat);
    let b = text::decimal(p.1 as nat);
    let t = range_text(p);
    text::law_decimal_roundtrip(p.0 as nat);
    text::law_decimal_roundtrip(p.1 as nat);
    text::law_parse_of_decimal(p.0 as nat, 65535);
    text::law_parse_of_decimal(p.1 as nat, 65535);
    text::lemma_index_from(t, '-', 0);
    text::lemma_index_from(a, '-', 0);
    let i = text::index_of(t, '-');
    assert(t[a.len() as int] == '-');
    if i < a.len() {
        assert(text::is_digit(a[i]));
        assert(t[i] == a[i]);
    }
    assert(i == a.len());
    if text::index_of(a, '-') < a.len() {
        assert(text::is_digit(a[text::index_of(a, '-')]));
    }
    assert(t.take(i) =~= a);
    assert(t.skip(i + 1) =~= b);
    lemma_digits_trimmed(a);
    lemma_digits_trimmed(b);
}

proof fn lemma_digits_trimmed(s: Seq<char>)
    requires
        s.len() > 0,
        text::all_digits(s),
    ensures
        text::trimmed(s) == s,
{
    assert(text::is_digit(s[0]));
    assert(text::is_digit(s[s.len() - 1]));
    assert(text::trimmed_start(s) == s);
    assert(text::trimmed_end(s) == s);
}

/// A range with space around its numbers reads as without it; one that ends
/// before it begins is no range, and a number above 65535 is no port.
pub proof fn law_ranges_of_ports(
    a: nat,
    b: nat,
    g1: Seq<char>,
    g2: Seq<char>,
    g3: Seq<char>,
    g4: Seq<char>,
)
    requires
        forall|i: int| 0 <= i < g1.len() ==> #[trigger] g1[i] == ' ',
        forall|i: int| 0 <= i < g2.len() ==> #[trigger] g2[i] == ' ',
        forall|i: int| 0 <= i < g3.len() ==> #[trigger] g3[i] == ' ',
        forall|i: int| 0 <= i < g4.len() ==> #[trigger] g4[i] == ' ',
    ensures
        filter_value(
            (g1 + text::decimal(a) + g2) + seq!['-'] + (g3 + text::decimal(b) + g4),
        ) == (if a > 65535 || b > 65535 {
            Err::<(nat, nat), PortError>(PortError::NotANumber)
        } else if a > b {
            Err(PortError::InvalidRange)
        } else {
            Ok((a, b))
        }),
        filter_value(g1 + text::decimal(a) + g2) == (if a > 65535 {
            Err::<(nat, nat), PortError>(PortError::NotANumber)
        } else {
            Ok((a, a))
        }),
{
    let x = g1 + text::decimal(a) + g2;
    let y = g3 + text::decimal(b) + g4;
    let s = x + seq!['-'] + y;
    let n = x.len() as int;
    lemma_port(g1, a, g2);
    lemma_port(g3, b, g4);
    text::lemma_index_of(s, '-', n);
    text::lemma_index_of(x, '-', n);
    assert(s.take(n) =~= x);
    assert(s.skip(n + 1) =~= y);
}

proof fn lemma_port(front: Seq<char>, n: nat, back: Seq<char>)
    requires
        forall|i: int| 0 <= i < front.len() ==> #[trigger] front[i] == ' ',
        forall|i: int| 0 <= i < back.len() ==> #[trigger] back[i] == ' ',
    ensures
        port_value(front + text::decimal(n) + back) == (if n <= 65535 {
            Some(n)
        } else {
            None
        }),
        forall|i: int|
            0 <= i < (front + text::decimal(n) + back).len() ==> #[trigger] (front + text::decimal(n)
                + back)[i] != '-',
{
    let d = text::decimal(n);
    let s = front + d + back;
    text::law_decimal_roundtrip(n);
    text::law_parse_of_decimal(n, 65535);
    assert(text::is_digit(d[0]) && text::is_digit(d.last()));
    assert(s =~= front + (d + back));
    assert((d + back)[0] == d[0]);
    sniff_forms::lemma_trimmed_start(front, d + back);
    sniff_forms::lemma_trimmed_end(d, back);
    assert forall|i: int| 0 <= i < s.len() implies #[trigger] s[i] != '-' by {
        if front.len() <= i < front.len() + d.len() {
            assert(text::is_digit(d[i - front.len()]));
        } else if i < front.len() {
            assert(front[i] == ' ');
        } else {
            assert(back[i - front.len() - d.len()] == ' ');
        }
    }
}

} // verus!
