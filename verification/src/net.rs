//! IP addresses, socket addresses and their text forms.
use vstd::prelude::*;
use crate::text;

verus! {

/// An IP address, by its number.
#[derive(Clone, Copy, Debug, PartialEq, Eq, Structural)]
pub enum IpAddr {
    V4(u32),
    V6(u128),
}

/// An IP address and a port.
#[derive(Clone, Copy, Debug, PartialEq, Eq, Structural)]
pub struct SocketAddr {
    pub ip: IpAddr,
    pub port: u16,
}

/// The last `n` base-256 digits of `x`, most significant first.
pub open spec fn be_octets(x: nat, n: nat) -> Seq<u8>
    decreases n,
{
    if n == 0 {
        Seq::empty()
    } else {
        be_octets(x / 256, (n - 1) as nat).push((x % 256) as u8)
    }
}

/// The number whose base-256 digits are `s`, most significant first.
pub open spec fn from_octets(s: Seq<u8>) -> nat
    decreases s.len(),
{
    if s.len() == 0 {
        0
    } else {
        from_octets(s.drop_last()) * 256 + s.last() as nat
    }
}

/// 256 to the power of `n`.
pub open spec fn pow256(n: nat) -> nat
    decreases n,
{
    if n == 0 {
        1
    } else {
        256 * pow256((n - 1) as nat)
    }
}

pub(crate) proof fn lemma_be_octets_len(x: nat, n: nat)
    ensures
        be_octets(x, n).len() == n,
    decreases n,
{
    if n > 0 {
        lemma_be_octets_len(x / 256, (n - 1) as nat);
    }
}

pub(crate) proof fn lemma_from_octets_bound(s: Seq<u8>)
    ensures
        from_octets(s) < pow256(s.len()),
    decreases s.len(),
{
    if s.len() > 0 {
        lemma_from_octets_bound(s.drop_last());
        assert(from_octets(s.drop_last()) * 256 + 256 <= 256 * pow256(s.drop_last().len()));
    }
}

/// An address's octets give the address back.
pub proof fn law_octets_roundtrip(x: nat, n: nat)
    requires
        x < pow256(n),
    ensures
        be_octets(x, n).len() == n,
        from_octets(be_octets(x, n)) == x,
    decreases n,
{
    lemma_be_octets_len(x, n);
    if n > 0 {
        assert(x / 256 < pow256((n - 1) as nat));
        law_octets_roundtrip(x / 256, (n - 1) as nat);
        assert(be_octets(x, n).drop_last() =~= be_octets(x / 256, (n - 1) as nat));
    }
}

/// Octets are the octets of the number that they denote.
pub proof fn law_octets_of_number(s: Seq<u8>)
    ensures
        be_octets(from_octets(s), s.len()) == s,
    decreases s.len(),
{
    if s.len() > 0 {
        law_octets_of_number(s.drop_last());
        assert(s =~= s.drop_last().push(s.last()));
    } else {
        assert(s =~= Seq::<u8>::empty());
    }
}

/// The octets of `x`.
pub(crate) fn octets_vec(x: u128, n: usize) -> (r: Vec<u8>)
    ensures
        r@ == be_octets(x as nat, n as nat),
        r@.len() == n,
    decreases n,
{
    if n == 0 {
        Vec::new()
    } else {
        let mut v: Vec<u8> = octets_vec(x / 256, n - 1);
        v.push((x % 256) as u8);
        v
    }
}

/// The four octets of an IPv4 address.
pub fn octets_v4(ip: u32) -> (r: [u8; 4])
    ensures
        r@ == be_octets(ip as nat, 4),
{
    let v: Vec<u8> = octets_vec(ip as u128, 4);
    let r: [u8; 4] = [v[0], v[1], v[2], v[3]];
    assert(r@ =~= v@);
    r
}

/// The sixteen octets of an IPv6 address.
pub fn octets_v6(ip: u128) -> (r: [u8; 16])
    ensures
        r@ == be_octets(ip as nat, 16),
{
    let v: Vec<u8> = octets_vec(ip, 16);
    let r: [u8; 16] = [
        v[0],
        v[1],
        v[2],
        v[3],
        v[4],
        v[5],
        v[6],
        v[7],
        v[8],
        v[9],
        v[10],
        v[11],
        v[12],
        v[13],
        v[14],
        v[15],
    ];
    assert(r@ =~= v@);
    r
}

proof fn lemma_pow256_values()
    ensures
        pow256(4) == 0x1_0000_0000,
        pow256(16) == 0x1_0000_0000_0000_0000_0000_0000_0000_0000,
{
    reveal_with_fuel(pow256, 17);
}

proof fn lemma_pow256_monotonic(a: nat, b: nat)
    requires
        a <= b,
    ensures
        pow256(a) <= pow256(b),
    decreases b,
{
    if a < b {
        lemma_pow256_monotonic(a, (b - 1) as nat);
    }
}

/// The number that up to sixteen octets denote.
pub fn number_of_octets(s: &[u8]) -> (r: u128)
    requires
        s@.len() <= 16,
    ensures
        r == from_octets(s@),
{
    let mut acc: u128 = 0;
    let mut i: usize = 0;
    assert(s@.take(0).len() == 0);
    while i < s.len()
        invariant
            s@.len() <= 16,
            i <= s@.len(),
            acc == from_octets(s@.take(i as int)),
        decreases s@.len() - i,
    {
        proof {
            let t = s@.take(i + 1);
            assert(t.drop_last() =~= s@.take(i as int));
            assert(t.last() == s@[i as int]);
            lemma_from_octets_bound(t);
            lemma_pow256_values();
            lemma_pow256_monotonic(t.len(), 16);
        }
        acc = acc * 256 + s[i] as u128;
        i = i + 1;
    }
    assert(s@.take(i as int) =~= s@);
    acc
}

/// The IPv4 address with the given octets.
pub fn v4_of_octets(s: &[u8]) -> (r: u32)
    requires
        s@.len() == 4,
    ensures
        r == from_octets(s@),
{
    proof {
        lemma_from_octets_bound(s@);
        lemma_pow256_values();
    }
    number_of_octets(s) as u32
}

/// The IPv6 address with the given octets.
pub fn v6_of_octets(s: &[u8]) -> (r: u128)
    requires
        s@.len() == 16,
    ensures
        r == from_octets(s@),
{
    number_of_octets(s)
}

impl IpAddr {
    /// Whether this is an IPv4 address.
    pub fn is_ipv4(&self) -> (r: bool)
        ensures
            r == (*self is V4),
    {
        match self {
            IpAddr::V4(_) => true,
            IpAddr::V6(_) => false,
        }
    }

    /// Whether this is an IPv6 address.
    pub fn is_ipv6(&self) -> (r: bool)
        ensures
            r == (*self is V6),
    {
        !self.is_ipv4()
    }
}

/// Destinations that no TCP connection is made to: the broadcast address,
/// multicast groups (first octet 224 to 239) and the unspecified address.
pub open spec fn is_special_v4(ip: u32) -> bool {
    ip == 0xffff_ffff || 224 <= ip / 0x100_0000 <= 239 || ip == 0
}

/// Destinations that no TCP connection is made to: multicast groups (first
/// octet 255) and the unspecified address.
pub open spec fn is_special_v6(ip: u128) -> bool {
    ip / 0x100_0000_0000_0000_0000_0000_0000_0000 == 255 || ip == 0
}

/// Whether `ip` is broadcast, multicast or unspecified.
pub fn special_v4(ip: u32) -> (r: bool)
    ensures
        r == is_special_v4(ip),
{
    let first: u32 = ip / 0x100_0000;
    ip == 0xffff_ffff || (224 <= first && first <= 239) || ip == 0
}

/// Whether `ip` is multicast or unspecified.
pub fn special_v6(ip: u128) -> (r: bool)
    ensures
        r == is_special_v6(ip),
{
    ip / 0x100_0000_0000_0000_0000_0000_0000_0000 == 255 || ip == 0
}

// Text forms

/// The value of a decimal octet: one to three digits, no leading zero, at most
/// 255.
pub open spec fn octet_value(s: Seq<char>) -> Option<u8> {
    if 1 <= s.len() <= 3 && text::all_digits(s) && (s.len() == 1 || s[0] != '0') && text::decimal_value(s)
        <= 255 {
        Some(text::decimal_value(s) as u8)
    } else {
        None
    }
}

/// The octets of `n` decimal numbers with dots between them.
pub open spec fn dotted_octets(s: Seq<char>, n: nat) -> Option<Seq<u8>>
    decreases n,
{
    if n <= 1 {
        match octet_value(s) {
            Some(v) => Some(seq![v]),
            None => None,
        }
    } else {
        let i = text::index_of(s, '.');
        if i < s.len() {
            match (octet_value(s.take(i)), dotted_octets(s.skip(i + 1), (n - 1) as nat)) {
                (Some(v), Some(rest)) => Some(seq![v] + rest),
                _ => None,
            }
        } else {
            None
        }
    }
}

/// The IPv4 address that `s` writes in dotted decimal form.
pub open spec fn v4_value(s: Seq<char>) -> Option<u32> {
    match dotted_octets(s, 4) {
        Some(o) => Some(from_octets(o) as u32),
        None => None,
    }
}

/// Whether `c` is a hexadecimal digit.
pub open spec fn is_hex(c: char) -> bool {
    text::is_digit(c) || ('a' <= c && c <= 'f') || ('A' <= c && c <= 'F')
}

/// The value of a hexadecimal digit.
pub open spec fn hex_digit(c: char) -> nat {
    if text::is_digit(c) {
        (c as u32 - '0' as u32) as nat
    } else if 'a' <= c {
        (c as u32 - 'a' as u32 + 10) as nat
    } else {
        (c as u32 - 'A' as u32 + 10) as nat
    }
}

/// The number that the hexadecimal digits `s` denote.
pub open spec fn hex_value(s: Seq<char>) -> nat
    decreases s.len(),
{
    if s.len() == 0 {
        0
    } else {
        hex_value(s.drop_last()) * 16 + hex_digit(s.last())
    }
}

/// Whether `s` is a group of an IPv6 address: one to four hexadecimal digits.
pub open spec fn is_group(s: Seq<char>) -> bool {
    1 <= s.len() <= 4 && forall|i: int| 0 <= i < s.len() ==> is_hex(#[trigger] s[i])
}

/// The two groups that four octets make.
pub open spec fn octet_groups(o: Seq<u8>) -> Seq<u16> {
    seq![(o[0] * 256 + o[1]) as u16, (o[2] * 256 + o[3]) as u16]
}

/// The groups that `s` writes with colons between them. Where `v4` holds, the
/// last two may be written as a dotted decimal address.
pub open spec fn colon_groups(s: Seq<char>, v4: bool) -> Option<Seq<u16>>
    decreases s.len(),
{
    let i = text::index_of(s, ':');
    if i < 0 || i >= s.len() {
        if is_group(s) {
            Some(seq![hex_value(s) as u16])
        } else if v4 && dotted_octets(s, 4) is Some {
            Some(octet_groups(dotted_octets(s, 4)->0))
        } else {
            None
        }
    } else if is_group(s.take(i)) {
        match colon_groups(s.skip(i + 1), v4) {
            Some(rest) => Some(seq![hex_value(s.take(i)) as u16] + rest),
            None => None,
        }
    } else {
        None
    }
}

/// The first position at or after `from` at which two colons stand side by
/// side in `s`, or -1.
pub open spec fn double_colon(s: Seq<char>, from: int) -> int
    decreases s.len() - from,
{
    if from + 1 >= s.len() {
        -1
    } else if s[from] == ':' && s[from + 1] == ':' {
        from
    } else {
        double_colon(s, from + 1)
    }
}

/// The groups of one side of a double colon, which may be empty.
pub open spec fn side_groups(s: Seq<char>, v4: bool) -> Option<Seq<u16>> {
    if s.len() == 0 {
        Some(Seq::empty())
    } else {
        colon_groups(s, v4)
    }
}

/// `n` zero groups.
pub open spec fn zero_groups(n: nat) -> Seq<u16> {
    Seq::new(n, |i: int| 0u16)
}

/// The eight groups of the IPv6 address that `s` writes: all eight, or fewer
/// on the two sides of one double colon, which stands for the rest.
pub open spec fn v6_groups(s: Seq<char>) -> Option<Seq<u16>> {
    let k = double_colon(s, 0);
    if k < 0 {
        match colon_groups(s, true) {
            Some(g) => if g.len() == 8 {
                Some(g)
            } else {
                None
            },
            None => None,
        }
    } else {
        match (side_groups(s.take(k), false), side_groups(s.skip(k + 2), true)) {
            (Some(h), Some(t)) => if h.len() + t.len() <= 7 {
                Some(h + zero_groups((8 - h.len() - t.len()) as nat) + t)
            } else {
                None
            },
            _ => None,
        }
    }
}

/// The number whose base-65536 digits are `g`, most significant first.
pub open spec fn from_groups(g: Seq<u16>) -> nat
    decreases g.len(),
{
    if g.len() == 0 {
        0
    } else {
        from_groups(g.drop_last()) * 65536 + g.last() as nat
    }
}

/// The address that `s` writes.
pub open spec fn ip_value(s: Seq<char>) -> Option<IpAddr> {
    match v4_value(s) {
        Some(v) => Some(IpAddr::V4(v)),
        None => match v6_groups(s) {
            Some(g) => Some(IpAddr::V6(from_groups(g) as u128)),
            None => None,
        },
    }
}

/// Parses a decimal octet.
fn parse_octet(s: &[char]) -> (r: Option<u8>)
    ensures
        r == octet_value(s@),
{
    let n: usize = s.len();
    if n < 1 || n > 3 {
        return None;
    }
    let mut v: u32 = 0;
    let mut i: usize = 0;
    assert(s@.take(0).len() == 0);
    while i < n
        invariant
            n == s@.len(),
            n <= 3,
            i <= n,
            forall|k: int| 0 <= k < i ==> text::is_digit(#[trigger] s@[k]),
            v == text::decimal_value(s@.take(i as int)),
            i == 0 ==> v == 0,
            i == 1 ==> v <= 9,
            i == 2 ==> v <= 99,
            i == 3 ==> v <= 999,
        decreases n - i,
    {
        let c: char = s[i];
        if !('0' <= c && c <= '9') {
            assert(!text::is_digit(s@[i as int]));
            return None;
        }
        assert(s@.take(i + 1).drop_last() =~= s@.take(i as int));
        v = v * 10 + (c as u32 - 48);
        i = i + 1;
    }
    assert(s@.take(i as int) =~= s@);
    if (n > 1 && s[0] == '0') || v > 255 {
        None
    } else {
        Some(v as u8)
    }
}

/// Parses `n` decimal octets with dots between them.
fn parse_dotted(s: &[char], n: usize) -> (r: Option<Vec<u8>>)
    requires
        n >= 1,
    ensures
        r is Some <==> dotted_octets(s@, n as nat) is Some,
        r matches Some(o) ==> o@ == dotted_octets(s@, n as nat)->0 && o@.len() == n,
    decreases n,
{
    if n == 1 {
        match parse_octet(s) {
            Some(v) => {
                let mut o: Vec<u8> = Vec::new();
                o.push(v);
                assert(o@ =~= seq![v]);
                Some(o)
            },
            None => None,
        }
    } else {
        let i: usize = text::find_from(s, '.', 0);
        if i >= s.len() {
            return None;
        }
        assert(s@.subrange(0, i as int) =~= s@.take(i as int));
        assert(s@.subrange(i + 1, s@.len() as int) =~= s@.skip(i + 1));
        match (parse_octet(&s[0..i]), parse_dotted(&s[i + 1..s.len()], n - 1)) {
            (Some(v), Some(rest)) => {
                let mut o: Vec<u8> = Vec::new();
                o.push(v);
                let mut rest = rest;
                let ghost tail = rest@;
                o.append(&mut rest);
                assert(o@ =~= seq![v] + tail);
                Some(o)
            },
            _ => None,
        }
    }
}

/// Whether `c` is a hexadecimal digit.
pub fn hex_char(c: char) -> (r: bool)
    ensures
        r == is_hex(c),
{
    ('0' <= c && c <= '9') || ('a' <= c && c <= 'f') || ('A' <= c && c <= 'F')
}

/// The value of a hexadecimal digit.
pub fn hex_char_value(c: char) -> (r: u8)
    requires
        is_hex(c),
    ensures
        r == hex_digit(c),
        r < 16,
{
    if '0' <= c && c <= '9' {
        c as u8 - 48
    } else if 'a' <= c {
        c as u8 - 87
    } else {
        c as u8 - 55
    }
}

/// Parses one group of an IPv6 address.
fn parse_group(s: &[char]) -> (r: Option<u16>)
    ensures
        r is Some <==> is_group(s@),
        r matches Some(v) ==> v == hex_value(s@),
{
    let n: usize = s.len();
    if n < 1 || n > 4 {
        return None;
    }
    let mut v: u32 = 0;
    let mut i: usize = 0;
    assert(s@.take(0).len() == 0);
    while i < n
        invariant
            n == s@.len(),
            n <= 4,
            i <= n,
            forall|k: int| 0 <= k < i ==> is_hex(#[trigger] s@[k]),
            v == hex_value(s@.take(i as int)),
            i == 0 ==> v == 0,
            i == 1 ==> v <= 0xf,
            i == 2 ==> v <= 0xff,
            i == 3 ==> v <= 0xfff,
            i == 4 ==> v <= 0xffff,
        decreases n - i,
    {
        if !hex_char(s[i]) {
            assert(!is_hex(s@[i as int]));
            return None;
        }
        assert(s@.take(i + 1).drop_last() =~= s@.take(i as int));
        v = v * 16 + hex_char_value(s[i]) as u32;
        i = i + 1;
    }
    assert(s@.take(i as int) =~= s@);
    Some(v as u16)
}

/// Parses groups with colons between them.
fn parse_groups(s: &[char], v4: bool) -> (r: Option<Vec<u16>>)
    ensures
        r is Some <==> colon_groups(s@, v4) is Some,
        r matches Some(g) ==> g@ == colon_groups(s@, v4)->0,
{
    let n: usize = s.len();
    let mut out: Vec<u16> = Vec::new();
    let mut at: usize = 0;
    assert(s@.skip(0) =~= s@);
    loop
        invariant
            n == s@.len(),
            at <= n,
            colon_groups(s@, v4) == match colon_groups(s@.skip(at as int), v4) {
                Some(rest) => Some(out@ + rest),
                None => None,
            },
        decreases n - at,
    {
        let rest: &[char] = &s[at..n];
        assert(rest@ =~= s@.skip(at as int));
        let i: usize = text::find_from(rest, ':', 0);
        if i >= rest.len() {
            match parse_group(rest) {
                Some(v) => {
                    let ghost before = out@;
                    out.push(v);
                    assert(out@ =~= before + seq![v]);
                    return Some(out);
                },
                None => {
                    if !v4 {
                        return None;
                    }
                    match parse_dotted(rest, 4) {
                        Some(o) => {
                            let ghost before = out@;
                            out.push(o[0] as u16 * 256 + o[1] as u16);
                            out.push(o[2] as u16 * 256 + o[3] as u16);
                            assert(out@ =~= before + octet_groups(o@));
                            return Some(out);
                        },
                        None => {
                            return None;
                        },
                    }
                },
            }
        }
        assert(rest@.subrange(0, i as int) =~= rest@.take(i as int));
        match parse_group(&rest[0..i]) {
            Some(v) => {
                proof {
                    assert(rest@.skip(i + 1) =~= s@.skip(at + i + 1));
                    let tail = colon_groups(s@.skip(at + i + 1), v4);
                    if tail is Some {
                        assert(out@ + (seq![v] + tail->0) =~= out@.push(v) + tail->0);
                    }
                }
                out.push(v);
                at = at + i + 1;
            },
            None => {
                return None;
            },
        }
    }
}

/// The position of the first double colon.
fn find_double_colon(s: &[char]) -> (r: Option<usize>)
    ensures
        r is Some <==> double_colon(s@, 0) >= 0,
        r matches Some(k) ==> k == double_colon(s@, 0) && k + 2 <= s@.len(),
{
    let n: usize = s.len();
    let mut i: usize = 0;
    while n - i >= 2
        invariant
            n == s@.len(),
            i <= n,
            double_colon(s@, 0) == double_colon(s@, i as int),
        decreases n - i,
    {
        if s[i] == ':' && s[i + 1] == ':' {
            return Some(i);
        }
        i = i + 1;
    }
    None
}

/// Parses one side of a double colon.
fn parse_side(s: &[char], v4: bool) -> (r: Option<Vec<u16>>)
    ensures
        r is Some <==> side_groups(s@, v4) is Some,
        r matches Some(g) ==> g@ == side_groups(s@, v4)->0,
{
    if s.len() == 0 {
        let v: Vec<u16> = Vec::new();
        assert(v@ =~= Seq::<u16>::empty());
        Some(v)
    } else {
        parse_groups(s, v4)
    }
}

/// Parses the groups of an IPv6 address.
fn parse_v6(s: &[char]) -> (r: Option<Vec<u16>>)
    ensures
        r is Some <==> v6_groups(s@) is Some,
        r matches Some(g) ==> g@ == v6_groups(s@)->0 && g@.len() == 8,
{
    let n: usize = s.len();
    match find_double_colon(s) {
        None => match parse_groups(s, true) {
            Some(g) => if g.len() == 8 {
                Some(g)
            } else {
                None
            },
            None => None,
        },
        Some(k) => {
            assert(s@.subrange(0, k as int) =~= s@.take(k as int));
            assert(s@.subrange(k + 2, s@.len() as int) =~= s@.skip(k + 2));
            match (parse_side(&s[0..k], false), parse_side(&s[k + 2..n], true)) {
                (Some(h), Some(t)) => {
                    if h.len() > 7 || t.len() > 7 - h.len() {
                        return None;
                    }
                    let zeros: usize = 8 - h.len() - t.len();
                    let mut g = h;
                    let ghost head = g@;
                    let mut i: usize = 0;
                    while i < zeros
                        invariant
                            i <= zeros,
                            g@ == head + zero_groups(i as nat),
                        decreases zeros - i,
                    {
                        g.push(0);
                        i = i + 1;
                        assert(g@ =~= head + zero_groups(i as nat));
                    }
                    let mut t = t;
                    g.append(&mut t);
                    Some(g)
                },
                _ => None,
            }
        },
    }
}

/// 65536 to the power of `n`.
pub open spec fn pow65536(n: nat) -> nat
    decreases n,
{
    if n == 0 {
        1
    } else {
        65536 * pow65536((n - 1) as nat)
    }
}

proof fn lemma_from_groups_bound(g: Seq<u16>)
    ensures
        from_groups(g) < pow65536(g.len()),
    decreases g.len(),
{
    if g.len() > 0 {
        lemma_from_groups_bound(g.drop_last());
    }
}

proof fn lemma_pow65536_8(n: nat)
    requires
        n <= 8,
    ensures
        pow65536(n) <= 0x1_0000_0000_0000_0000_0000_0000_0000_0000,
{
    reveal_with_fuel(pow65536, 9);
}

/// The number that eight groups denote.
fn number_of_groups(g: &Vec<u16>) -> (r: u128)
    requires
        g@.len() == 8,
    ensures
        r == from_groups(g@),
{
    let mut acc: u128 = 0;
    let mut i: usize = 0;
    assert(g@.take(0).len() == 0);
    while i < 8
        invariant
            g@.len() == 8,
            i <= 8,
            acc == from_groups(g@.take(i as int)),
        decreases 8 - i,
    {
        proof {
            let t = g@.take(i + 1);
            assert(t.drop_last() =~= g@.take(i as int));
            lemma_from_groups_bound(t);
            lemma_pow65536_8(t.len());
        }
        acc = acc * 65536 + g[i] as u128;
        i = i + 1;
    }
    assert(g@.take(8) =~= g@);
    acc
}

/// Parses an IP address: dotted decimal IPv4, or IPv6 groups with at most one
/// double colon.
pub fn parse_ip_chars(s: &[char]) -> (r: Option<IpAddr>)
    ensures
        r == ip_value(s@),
{
    match parse_dotted(s, 4) {
        Some(o) => Some(IpAddr::V4(v4_of_octets(&o))),
        None => match parse_v6(s) {
            Some(g) => Some(IpAddr::V6(number_of_groups(&g))),
            None => None,
        },
    }
}

/// Parses an IP address.
pub fn parse_ip(s: &str) -> (r: Option<IpAddr>)
    ensures
        r == ip_value(s@),
{
    parse_ip_chars(&text::chars_of(s))
}

/// An IPv4 address in dotted decimal form.
pub open spec fn v4_text(ip: u32) -> Seq<char> {
    let o = be_octets(ip as nat, 4);
    text::decimal(o[0] as nat) + seq!['.'] + (text::decimal(o[1] as nat) + seq!['.'] + (
    text::decimal(o[2] as nat) + seq!['.'] + text::decimal(o[3] as nat)))
}

/// The last `n` base-65536 digits of `x`, most significant first.
pub open spec fn be_groups(x: nat, n: nat) -> Seq<u16>
    decreases n,
{
    if n == 0 {
        Seq::empty()
    } else {
        be_groups(x / 65536, (n - 1) as nat).push((x % 65536) as u16)
    }
}

/// Groups in hexadecimal with colons between them.
pub open spec fn colon_text(g: Seq<u16>) -> Seq<char>
    decreases g.len(),
{
    if g.len() == 0 {
        Seq::empty()
    } else if g.len() == 1 {
        text::hexadecimal(g[0] as nat)
    } else {
        text::hexadecimal(g[0] as nat) + seq![':'] + colon_text(g.skip(1))
    }
}

/// The number of zero groups from `i` on.
pub open spec fn zeros_at(g: Seq<u16>, i: int) -> nat
    decreases g.len() - i,
{
    if 0 <= i < g.len() && g[i] == 0 {
        1 + zeros_at(g, i + 1)
    } else {
        0
    }
}

/// Where the longest run of zero groups from `i` on begins; the first of
/// several equally long ones.
pub open spec fn longest_zeros(g: Seq<u16>, i: int) -> int
    decreases g.len() - i,
{
    if i + 1 >= g.len() {
        i
    } else {
        let rest = longest_zeros(g, i + 1);
        if zeros_at(g, i) >= zeros_at(g, rest) {
            i
        } else {
            rest
        }
    }
}

/// Whether an IPv6 address maps an IPv4 address: five zero groups and 0xffff
/// before the last two.
pub open spec fn is_mapped(g: Seq<u16>) -> bool {
    g[0] == 0 && g[1] == 0 && g[2] == 0 && g[3] == 0 && g[4] == 0 && g[5] == 0xffff
}

/// An IPv6 address in its canonical form: the first longest run of at least
/// two zero groups becomes a double colon, and a mapped IPv4 address is
/// written in dotted decimal form.
pub open spec fn v6_text(ip: u128) -> Seq<char> {
    let g = be_groups(ip as nat, 8);
    let at = longest_zeros(g, 0);
    let n = zeros_at(g, at);
    if is_mapped(g) {
        seq![':', ':', 'f', 'f', 'f', 'f', ':'] + v4_text((ip % 0x1_0000_0000) as u32)
    } else if n > 1 {
        colon_text(g.take(at)) + seq![':', ':'] + colon_text(g.skip(at + n))
    } else {
        colon_text(g)
    }
}

/// An IP address as text.
pub open spec fn ip_text(ip: IpAddr) -> Seq<char> {
    match ip {
        IpAddr::V4(v) => v4_text(v),
        IpAddr::V6(v) => v6_text(v),
    }
}

/// A socket address as text; an IPv6 address stands in square brackets.
pub open spec fn socket_text(a: SocketAddr) -> Seq<char> {
    match a.ip {
        IpAddr::V4(v) => v4_text(v) + seq![':'] + text::decimal(a.port as nat),
        IpAddr::V6(v) => seq!['['] + v6_text(v) + seq![']', ':'] + text::decimal(a.port as nat),
    }
}

/// An IPv4 address in dotted decimal form.
fn v4_chars(ip: u32) -> (r: Vec<char>)
    ensures
        r@ == v4_text(ip),
{
    let o: [u8; 4] = octets_v4(ip);
    let mut out: Vec<char> = text::decimal_chars(o[0] as u64);
    out.push('.');
    text::push_chars(&mut out, &text::decimal_chars(o[1] as u64));
    out.push('.');
    text::push_chars(&mut out, &text::decimal_chars(o[2] as u64));
    out.push('.');
    text::push_chars(&mut out, &text::decimal_chars(o[3] as u64));
    assert(out@ =~= v4_text(ip));
    out
}

/// The groups of an IPv6 address.
fn groups_vec(x: u128, n: usize) -> (r: Vec<u16>)
    ensures
        r@ == be_groups(x as nat, n as nat),
        r@.len() == n,
    decreases n,
{
    if n == 0 {
        Vec::new()
    } else {
        let mut v: Vec<u16> = groups_vec(x / 65536, n - 1);
        v.push((x % 65536) as u16);
        v
    }
}

/// Appends groups in hexadecimal with colons between them.
fn push_groups(out: &mut Vec<char>, g: &[u16])
    ensures
        final(out)@ == old(out)@ + colon_text(g@),
{
    let n: usize = g.len();
    if n == 0 {
        assert(old(out)@ + colon_text(g@) =~= old(out)@);
        return ;
    }
    let mut i: usize = 0;
    assert(g@.skip(0) =~= g@);
    while n - i > 1
        invariant
            n == g@.len(),
            i < n,
            old(out)@ + colon_text(g@) == out@ + colon_text(g@.skip(i as int)),
        decreases n - i,
    {
        let ghost before = out@;
        text::push_chars(out, &text::hexadecimal_chars(g[i] as u64));
        out.push(':');
        proof {
            let t = g@.skip(i as int);
            assert(t.skip(1) =~= g@.skip(i + 1));
            assert(before + colon_text(t) =~= out@ + colon_text(g@.skip(i + 1)));
        }
        i = i + 1;
    }
    text::push_chars(out, &text::hexadecimal_chars(g[i] as u64));
    assert(g@.skip(i as int).len() == 1);
}

/// The number of zero groups from `i` on.
fn count_zeros(g: &Vec<u16>, i: usize) -> (r: usize)
    requires
        i <= g@.len(),
    ensures
        r == zeros_at(g@, i as int),
        i + r <= g@.len(),
    decreases g@.len() - i,
{
    if i < g.len() && g[i] == 0 {
        1 + count_zeros(g, i + 1)
    } else {
        0
    }
}

/// Where the first longest run of zero groups from `i` on begins.
fn find_zeros(g: &Vec<u16>, i: usize) -> (r: usize)
    requires
        i < g@.len(),
    ensures
        r == longest_zeros(g@, i as int),
        i <= r < g@.len(),
    decreases g@.len() - i,
{
    let n: usize = g.len();
    if n - i <= 1 {
        i
    } else {
        let rest: usize = find_zeros(g, i + 1);
        if count_zeros(g, i) >= count_zeros(g, rest) {
            i
        } else {
            rest
        }
    }
}

/// An IPv6 address in its canonical form.
fn v6_chars(ip: u128) -> (r: Vec<char>)
    ensures
        r@ == v6_text(ip),
{
    let g: Vec<u16> = groups_vec(ip, 8);
    let mut out: Vec<char> = Vec::new();
    if g[0] == 0 && g[1] == 0 && g[2] == 0 && g[3] == 0 && g[4] == 0 && g[5] == 0xffff {
        out.push(':');
        out.push(':');
        out.push('f');
        out.push('f');
        out.push('f');
        out.push('f');
        out.push(':');
        text::push_chars(&mut out, &v4_chars((ip % 0x1_0000_0000) as u32));
        assert(out@ =~= v6_text(ip));
        return out;
    }
    let at: usize = find_zeros(&g, 0);
    let n: usize = count_zeros(&g, at);
    if n > 1 {
        assert(g@.subrange(0, at as int) =~= g@.take(at as int));
        assert(g@.subrange(at + n, 8) =~= g@.skip(at + n));
        push_groups(&mut out, vstd::slice::slice_subrange(g.as_slice(), 0, at));
        out.push(':');
        out.push(':');
        push_groups(&mut out, vstd::slice::slice_subrange(g.as_slice(), at + n, 8));
        assert(out@ =~= v6_text(ip));
    } else {
        push_groups(&mut out, g.as_slice());
        assert(out@ =~= v6_text(ip));
    }
    out
}

/// An IP address as text.
pub fn ip_string(ip: IpAddr) -> (r: String)
    ensures
        r@ == ip_text(ip),
{
    match ip {
        IpAddr::V4(v) => text::string_of(&v4_chars(v)),
        IpAddr::V6(v) => text::string_of(&v6_chars(v)),
    }
}

/// A socket address as text; an IPv6 address stands in square brackets.
pub fn socket_string(a: SocketAddr) -> (r: String)
    ensures
        r@ == socket_text(a),
{
    let mut out: Vec<char> = Vec::new();
    match a.ip {
        IpAddr::V4(v) => {
            text::push_chars(&mut out, &v4_chars(v));
        },
        IpAddr::V6(v) => {
            out.push('[');
            text::push_chars(&mut out, &v6_chars(v));
            out.push(']');
        },
    }
    out.push(':');
    text::push_chars(&mut out, &text::decimal_chars(a.port as u64));
    assert(out@ =~= socket_text(a));
    text::string_of(&out)
}

proof fn lemma_octet_roundtrip(o: u8)
    ensures
        octet_value(text::decimal(o as nat)) == Some(o),
{
    let d = text::decimal(o as nat);
    text::law_decimal_roundtrip(o as nat);
    reveal_with_fuel(text::digits_in, 4);
    if o >= 100 {
        assert(d =~= seq![
            text::digit_char((o / 100) as nat),
            text::digit_char(((o / 10) % 10) as nat),
            text::digit_char((o % 10) as nat),
        ]);
    } else if o >= 10 {
        assert(d =~= seq![
            text::digit_char((o / 10) as nat),
            text::digit_char((o % 10) as nat),
        ]);
    } else {
        assert(d =~= seq![text::digit_char(o as nat)]);
    }
}

proof fn lemma_index_of_join(a: Seq<char>, c: char, b: Seq<char>, from: int)
    requires
        0 <= from <= a.len(),
        forall|i: int| from <= i < a.len() ==> a[i] != c,
    ensures
        text::index_from(a + seq![c] + b, c, from) == a.len(),
    decreases a.len() - from,
{
    if from < a.len() {
        lemma_index_of_join(a, c, b, from + 1);
        assert((a + seq![c] + b)[from] == a[from]);
    } else {
        assert((a + seq![c] + b)[from] == c);
    }
}

proof fn lemma_dotted_join(o: u8, rest: Seq<char>, n: nat)
    requires
        n >= 1,
        dotted_octets(rest, n) is Some,
    ensures
        dotted_octets(text::decimal(o as nat) + seq!['.'] + rest, n + 1) == Some(
            seq![o] + dotted_octets(rest, n)->0,
        ),
{
    let d = text::decimal(o as nat);
    let s = d + seq!['.'] + rest;
    text::law_decimal_roundtrip(o as nat);
    assert forall|i: int| 0 <= i < d.len() implies d[i] != '.' by {
        assert(text::is_digit(d[i]));
    }
    lemma_index_of_join(d, '.', rest, 0);
    assert(s.take(d.len() as int) =~= d);
    assert(s.skip(d.len() as int + 1) =~= rest);
    lemma_octet_roundtrip(o);
}

proof fn lemma_v4_octets(ip: u32)
    ensures
        dotted_octets(v4_text(ip), 4) == Some(be_octets(ip as nat, 4)),
{
    let o = be_octets(ip as nat, 4);
    lemma_be_octets_len(ip as nat, 4);
    let t3 = text::decimal(o[3] as nat);
    lemma_octet_roundtrip(o[3]);
    assert(dotted_octets(t3, 1) == Some(seq![o[3]]));
    let t2 = text::decimal(o[2] as nat) + seq!['.'] + t3;
    lemma_dotted_join(o[2], t3, 1);
    let t1 = text::decimal(o[1] as nat) + seq!['.'] + t2;
    lemma_dotted_join(o[1], t2, 2);
    lemma_dotted_join(o[0], t1, 3);
    assert(seq![o[0]] + (seq![o[1]] + (seq![o[2]] + seq![o[3]])) =~= o);
}

proof fn lemma_dotted_chars(s: Seq<char>, n: nat)
    requires
        n >= 1,
        dotted_octets(s, n) is Some,
    ensures
        forall|i: int| 0 <= i < s.len() ==> s[i] != ':',
    decreases n,
{
    if n == 1 {
        assert forall|i: int| 0 <= i < s.len() implies s[i] != ':' by {
            assert(text::is_digit(s[i]));
        }
    } else {
        let k = text::index_of(s, '.');
        text::lemma_index_from(s, '.', 0);
        lemma_dotted_chars(s.skip(k + 1), (n - 1) as nat);
        assert forall|i: int| 0 <= i < s.len() implies s[i] != ':' by {
            if i < k {
                assert(text::is_digit(s.take(k)[i]));
            } else if i > k {
                assert(s.skip(k + 1)[i - k - 1] == s[i]);
            }
        }
    }
}

proof fn lemma_hex_roundtrip(g: u16)
    ensures
        is_group(text::hexadecimal(g as nat)),
        hex_value(text::hexadecimal(g as nat)) == g,
{
    let d = text::hexadecimal(g as nat);
    reveal_with_fuel(text::digits_in, 5);
    reveal_with_fuel(hex_value, 5);
    assert forall|v: nat| v < 16 implies is_hex(#[trigger] text::digit_char(v)) && hex_digit(
        text::digit_char(v),
    ) == v by {
    }
    let d0 = text::digit_char((g % 16) as nat);
    let d1 = text::digit_char(((g / 16) % 16) as nat);
    let d2 = text::digit_char(((g / 256) % 16) as nat);
    let d3 = text::digit_char((g / 4096) as nat);
    if g >= 4096 {
        assert(g as nat / 16 / 16 / 16 == g as nat / 4096);
        assert(d =~= seq![d3, d2, d1, d0]);
        assert(d.drop_last() =~= seq![d3, d2, d1]);
        assert(d.drop_last().drop_last() =~= seq![d3, d2]);
        assert(d.drop_last().drop_last().drop_last() =~= seq![d3]);
    } else if g >= 256 {
        assert(d =~= seq![d2, d1, d0]);
        assert(d.drop_last() =~= seq![d2, d1]);
        assert(d.drop_last().drop_last() =~= seq![d2]);
    } else if g >= 16 {
        assert(d =~= seq![d1, d0]);
        assert(d.drop_last() =~= seq![d1]);
    } else {
        assert(d =~= seq![d0]);
    }
}

proof fn lemma_hex_no_colon(s: Seq<char>)
    requires
        is_group(s),
    ensures
        forall|i: int| 0 <= i < s.len() ==> s[i] != ':',
{
    assert forall|i: int| 0 <= i < s.len() implies s[i] != ':' by {
        assert(is_hex(s[i]));
    }
}

proof fn lemma_index_absent(s: Seq<char>, c: char, from: int)
    requires
        0 <= from <= s.len(),
        forall|i: int| from <= i < s.len() ==> s[i] != c,
    ensures
        text::index_from(s, c, from) == s.len(),
    decreases s.len() - from,
{
    if from < s.len() {
        lemma_index_absent(s, c, from + 1);
    }
}

/// Joined groups parse back, have no double colon, and neither begin nor end
/// with a colon.
proof fn lemma_colon_text(g: Seq<u16>, v4: bool)
    requires
        g.len() >= 1,
    ensures
        colon_groups(colon_text(g), v4) == Some(g),
        colon_text(g).len() >= 1,
        colon_text(g)[0] != ':',
        colon_text(g).last() != ':',
        forall|i: int|
            0 <= i < colon_text(g).len() - 1 ==> !(#[trigger] colon_text(g)[i] == ':' && colon_text(
                g,
            )[i + 1] == ':'),
    decreases g.len(),
{
    let h = text::hexadecimal(g[0] as nat);
    lemma_hex_roundtrip(g[0]);
    lemma_hex_no_colon(h);
    let s = colon_text(g);
    if g.len() == 1 {
        lemma_index_absent(h, ':', 0);
        assert(seq![g[0]] =~= g);
    } else {
        let rest = colon_text(g.skip(1));
        lemma_colon_text(g.skip(1), v4);
        lemma_index_of_join(h, ':', rest, 0);
        assert(s.take(h.len() as int) =~= h);
        assert(s.skip(h.len() as int + 1) =~= rest);
        assert(seq![g[0]] + g.skip(1) =~= g);
        assert forall|i: int| 0 <= i < s.len() - 1 implies !(#[trigger] s[i] == ':' && s[i + 1]
            == ':') by {
            if i < h.len() {
                assert(s[i] == h[i]);
            } else if i == h.len() {
                assert(s[i + 1] == rest[0]);
            } else {
                assert(s[i] == rest[i - h.len() - 1]);
                assert(s[i + 1] == rest[i - h.len()]);
            }
        }
        assert(s[0] == h[0]);
        assert(s.last() == rest.last());
    }
}

proof fn lemma_no_double_colon(s: Seq<char>, from: int)
    requires
        0 <= from,
        forall|i: int|
            0 <= i < s.len() - 1 ==> !(#[trigger] s[i] == ':' && s[i + 1] == ':'),
    ensures
        double_colon(s, from) == -1,
    decreases s.len() - from,
{
    if from + 1 < s.len() {
        lemma_no_double_colon(s, from + 1);
    }
}

proof fn lemma_first_double_colon(s: Seq<char>, k: int, from: int)
    requires
        0 <= from <= k,
        k + 1 < s.len(),
        s[k] == ':' && s[k + 1] == ':',
        forall|i: int| from <= i < k ==> !(#[trigger] s[i] == ':' && s[i + 1] == ':'),
    ensures
        double_colon(s, from) == k,
    decreases k - from,
{
    if from < k {
        lemma_first_double_colon(s, k, from + 1);
    }
}

proof fn lemma_zeros(g: Seq<u16>, i: int)
    requires
        0 <= i <= g.len(),
    ensures
        i + zeros_at(g, i) <= g.len(),
        forall|k: int| i <= k < i + zeros_at(g, i) ==> g[k] == 0,
    decreases g.len() - i,
{
    if i < g.len() && g[i] == 0 {
        lemma_zeros(g, i + 1);
    }
}

proof fn lemma_longest_range(g: Seq<u16>, i: int)
    requires
        0 <= i < g.len(),
    ensures
        i <= longest_zeros(g, i) < g.len(),
    decreases g.len() - i,
{
    if i + 1 < g.len() {
        lemma_longest_range(g, i + 1);
    }
}

proof fn lemma_groups_roundtrip(x: nat, n: nat)
    requires
        x < pow65536(n),
    ensures
        be_groups(x, n).len() == n,
        from_groups(be_groups(x, n)) == x,
    decreases n,
{
    if n > 0 {
        lemma_groups_roundtrip(x / 65536, (n - 1) as nat);
        assert(be_groups(x, n).drop_last() =~= be_groups(x / 65536, (n - 1) as nat));
    }
}

/// The groups of a compressed address are those that were written.
proof fn lemma_v6_compressed(g: Seq<u16>, at: int, n: int)
    requires
        g.len() == 8,
        0 <= at,
        n > 1,
        at + n <= 8,
        forall|k: int| at <= k < at + n ==> g[k] == 0,
    ensures
        v6_groups(colon_text(g.take(at)) + seq![':', ':'] + colon_text(g.skip(at + n))) == Some(g),
{
    let h = colon_text(g.take(at));
    let t = colon_text(g.skip(at + n));
    let s = h + seq![':', ':'] + t;
    if at > 0 {
        lemma_colon_text(g.take(at), false);
    }
    if at + n < 8 {
        lemma_colon_text(g.skip(at + n), true);
    }
    let k = h.len() as int;
    assert(s[k] == ':' && s[k + 1] == ':');
    assert forall|i: int| 0 <= i < k implies !(#[trigger] s[i] == ':' && s[i + 1] == ':') by {
        assert(s[i] == h[i]);
        if i + 1 < k {
            assert(s[i + 1] == h[i + 1]);
        } else {
            assert(h.last() == h[i]);
        }
    }
    lemma_first_double_colon(s, k, 0);
    assert(s.take(k) =~= h);
    assert(s.skip(k + 2) =~= t);
    assert(side_groups(h, false) == Some(g.take(at))) by {
        if at == 0 {
            assert(g.take(0) =~= Seq::<u16>::empty());
        }
    }
    assert(side_groups(t, true) == Some(g.skip(at + n))) by {
        if at + n == 8 {
            assert(g.skip(8) =~= Seq::<u16>::empty());
        }
    }
    assert(g.take(at) + zero_groups(n as nat) + g.skip(at + n) =~= g);
}

/// The last four octets of an IPv6 address make its last two groups.
proof fn lemma_low_groups(ip: u128)
    ensures
        octet_groups(be_octets((ip % 0x1_0000_0000) as u32 as nat, 4)) == seq![
            be_groups(ip as nat, 8)[6],
            be_groups(ip as nat, 8)[7],
        ],
{
    let low = (ip % 0x1_0000_0000) as u32;
    let g = be_groups(ip as nat, 8);
    let y = ip as nat;
    lemma_four_octets(low);
    lemma_groups_len(y / 65536 / 65536, 6);
    assert(g[7] == y % 65536) by {
        lemma_groups_len(y / 65536, 7);
    }
    assert(g[6] == y / 65536 % 65536) by {
        lemma_groups_len(y / 65536, 7);
        assert(g[6] == be_groups(y / 65536, 7)[6]);
    }
    assert((ip % 0x1_0000_0000) % 65536 == ip % 65536 && (ip % 0x1_0000_0000) / 65536 == (ip
        / 65536) % 65536 && ip % 0x1_0000_0000 < 0x1_0000_0000) by (bit_vector);
    assert(octet_groups(be_octets(low as nat, 4)) =~= seq![g[6], g[7]]);
}

/// The two groups that the octets of an IPv4 address make.
proof fn lemma_four_octets(x: u32)
    ensures
        octet_groups(be_octets(x as nat, 4)) == seq![(x / 65536) as u16, (x % 65536) as u16],
{
    let o = be_octets(x as nat, 4);
    let n = x as nat;
    reveal_with_fuel(be_octets, 5);
    assert(o =~= seq![
        (n / 256 / 256 / 256 % 256) as u8,
        (n / 256 / 256 % 256) as u8,
        (n / 256 % 256) as u8,
        (n % 256) as u8,
    ]);
    assert(octet_groups(o) =~= seq![(x / 65536) as u16, (x % 65536) as u16]);
}

/// The groups of a mapped IPv4 address are those that were written.
proof fn lemma_v6_mapped(ip: u128)
    requires
        is_mapped(be_groups(ip as nat, 8)),
    ensures
        v6_groups(v6_text(ip)) == Some(be_groups(ip as nat, 8)),
{
    let g = be_groups(ip as nat, 8);
    let v = (ip % 0x1_0000_0000) as u32;
    let d = v4_text(v);
    let s = v6_text(ip);
    let f = seq!['f', 'f', 'f', 'f'];
    let t = f + seq![':'] + d;
    lemma_v4_octets(v);
    lemma_dotted_chars(d, 4);
    lemma_index_of_join(f, ':', d, 0);
    lemma_index_absent(d, ':', 0);
    assert(t.take(4) =~= f);
    assert(t.skip(5) =~= d);
    assert(is_group(f));
    assert(hex_value(f) == 0xffff) by {
        reveal_with_fuel(hex_value, 5);
        assert(f.drop_last() =~= seq!['f', 'f', 'f']);
        assert(f.drop_last().drop_last() =~= seq!['f', 'f']);
        assert(f.drop_last().drop_last().drop_last() =~= seq!['f']);
    }
    let o = be_octets(v as nat, 4);
    assert(!is_group(d)) by {
        // the text of an IPv4 address holds a dot
        let a = text::decimal(o[0] as nat);
        assert(d[a.len() as int] == '.');
        assert(!is_hex('.'));
    }
    lemma_first_double_colon(s, 0, 0);
    assert(s.take(0) =~= Seq::<char>::empty());
    assert(s.skip(2) =~= t);
    assert(colon_groups(d, true) == Some(octet_groups(o)));
    lemma_low_groups(ip);
    let tail = seq![0xffffu16] + octet_groups(o);
    assert(colon_groups(t, true) == Some(tail));
    lemma_groups_len(ip as nat, 8);
    assert(Seq::<u16>::empty() + zero_groups(5) + tail =~= g);
}

proof fn lemma_groups_len(x: nat, n: nat)
    ensures
        be_groups(x, n).len() == n,
    decreases n,
{
    if n > 0 {
        lemma_groups_len(x / 65536, (n - 1) as nat);
    }
}

proof fn lemma_v6_text_has_colon(ip: u128)
    ensures
        exists|i: int| 0 <= i < v6_text(ip).len() && v6_text(ip)[i] == ':',
{
    let g = be_groups(ip as nat, 8);
    let at = longest_zeros(g, 0);
    let n = zeros_at(g, at);
    let s = v6_text(ip);
    lemma_groups_len(ip as nat, 8);
    if is_mapped(g) {
        assert(s[0] == ':');
    } else if n > 1 {
        assert(s[colon_text(g.take(at)).len() as int] == ':');
    } else {
        assert(s[text::hexadecimal(g[0] as nat).len() as int] == ':');
    }
}

/// Parsing the text of an address gives the address back.
pub proof fn law_ip_text_roundtrip(ip: IpAddr)
    ensures
        ip_value(ip_text(ip)) == Some(ip),
{
    match ip {
        IpAddr::V4(v) => {
            lemma_v4_octets(v);
            lemma_pow256_values();
            law_octets_roundtrip(v as nat, 4);
        },
        IpAddr::V6(v) => {
            let g = be_groups(v as nat, 8);
            let s = v6_text(v);
            lemma_groups_len(v as nat, 8);
            let at = longest_zeros(g, 0);
            let n = zeros_at(g, at);
            lemma_longest_range(g, 0);
            lemma_zeros(g, at);
            if is_mapped(g) {
                lemma_v6_mapped(v);
            } else if n > 1 {
                lemma_v6_compressed(g, at, n as int);
            } else {
                lemma_colon_text(g, true);
                lemma_no_double_colon(s, 0);
            }
            assert(v6_groups(s) == Some(g));
            lemma_v6_text_has_colon(v);
            if dotted_octets(s, 4) is Some {
                lemma_dotted_chars(s, 4);
                assert(false);
            }
            assert(pow65536(8) == 0x1_0000_0000_0000_0000_0000_0000_0000_0000) by {
                reveal_with_fuel(pow65536, 9);
            }
            lemma_groups_roundtrip(v as nat, 8);
        },
    }
}

proof fn lemma_digits_back(s: Seq<char>)
    requires
        s.len() > 0,
        text::all_digits(s),
        s.len() == 1 || s[0] != '0',
    ensures
        text::decimal(text::decimal_value(s)) == s,
        s[0] != '0' ==> text::decimal_value(s) > 0,
    decreases s.len(),
{
    let d = s.last();
    let front = s.drop_last();
    assert(text::is_digit(s[s.len() - 1]));
    let v = (d as u32 - '0' as u32) as nat;
    assert(text::digit_char(v) == d);
    if s.len() == 1 {
        assert(front =~= Seq::<char>::empty());
        assert(text::decimal_value(front) == 0);
        assert(text::decimal_value(s) == v);
        assert(text::decimal(v) =~= s);
    } else {
        assert forall|i: int| 0 <= i < front.len() implies text::is_digit(#[trigger] front[i]) by {
            assert(text::is_digit(s[i]));
        }
        lemma_digits_back(front);
        assert(front[0] == s[0]);
        let a = text::decimal_value(front);
        let n = (a * 10 + v) as nat;
        assert(text::decimal_value(s) == n);
        assert(n / 10 == a && n % 10 == v);
        assert(text::decimal(n) =~= front.push(d));
        assert(front.push(d) =~= s);
    }
}

/// Octets in decimal with dots between them.
spec fn dotted_text(o: Seq<u8>) -> Seq<char>
    decreases o.len(),
{
    if o.len() == 0 {
        Seq::empty()
    } else if o.len() == 1 {
        text::decimal(o[0] as nat)
    } else {
        text::decimal(o[0] as nat) + seq!['.'] + dotted_text(o.skip(1))
    }
}

proof fn lemma_dotted_back(s: Seq<char>, n: nat)
    requires
        n >= 1,
        dotted_octets(s, n) is Some,
    ensures
        dotted_octets(s, n)->0.len() == n,
        dotted_text(dotted_octets(s, n)->0) == s,
    decreases n,
{
    let o = dotted_octets(s, n)->0;
    if n == 1 {
        lemma_digits_back(s);
    } else {
        let i = text::index_of(s, '.');
        text::lemma_index_from(s, '.', 0);
        lemma_digits_back(s.take(i));
        lemma_dotted_back(s.skip(i + 1), (n - 1) as nat);
        assert(o.skip(1) =~= dotted_octets(s.skip(i + 1), (n - 1) as nat)->0);
        assert(s =~= s.take(i) + seq!['.'] + s.skip(i + 1));
    }
}

/// An IPv4 address is written in one way only: four numbers without zeros before
/// them. Every text that is read as one is the text of the address.
pub proof fn law_v4_text_is_canonical(s: Seq<char>)
    ensures
        v4_value(s) matches Some(v) ==> s == v4_text(v),
        v4_value(s) is Some <==> exists|v: u32| s == #[trigger] v4_text(v),
{
    if v4_value(s) is Some {
        lemma_dotted_back(s, 4);
        let o = dotted_octets(s, 4)->0;
        law_octets_of_number(o);
        lemma_from_octets_bound(o);
        lemma_pow256_values();
        let v = v4_value(s)->0;
        assert(be_octets(v as nat, 4) == o);
        reveal_with_fuel(dotted_text, 5);
        assert(o.skip(1).skip(1).skip(1) =~= seq![o[3]]);
        assert(o.skip(1)[0] == o[1] && o.skip(1).skip(1)[0] == o[2]);
        assert(s =~= v4_text(v));
    }
    if exists|v: u32| s == #[trigger] v4_text(v) {
        let v = choose|v: u32| s == #[trigger] v4_text(v);
        lemma_v4_octets(v);
    }
}

/// The numbers of groups, each in one to four hexadecimal digits.
pub open spec fn group_numbers(h: Seq<Seq<char>>) -> Seq<u16> {
    h.map_values(|s: Seq<char>| hex_value(s) as u16)
}

proof fn lemma_groups(h: Seq<Seq<char>>, v4: bool)
    requires
        h.len() > 0,
        forall|i: int| 0 <= i < h.len() ==> is_group(#[trigger] h[i]),
    ensures
        ({
            let s = text::joined(h, ':');
            &&& colon_groups(s, v4) == Some(group_numbers(h))
            &&& s.len() > 0
            &&& s[0] != ':'
            &&& s.last() != ':'
            &&& forall|i: int|
                0 <= i < s.len() - 1 ==> !(#[trigger] s[i] == ':' && s[i + 1] == ':')
            &&& h.len() > 1 ==> s.contains(':')
        }),
    decreases h.len(),
{
    let s = text::joined(h, ':');
    let f = h[0];
    let n = f.len() as int;
    assert(is_group(h[0]));
    assert forall|k: int| 0 <= k < n implies f[k] != ':' by {
        assert(is_hex(f[k]));
    }
    text::lemma_index_of(s, ':', n);
    if h.len() == 1 {
        assert(group_numbers(h) =~= seq![hex_value(f) as u16]);
    } else {
        let r = h.skip(1);
        let t = text::joined(r, ':');
        assert forall|i: int| 0 <= i < r.len() implies is_group(#[trigger] r[i]) by {
            assert(r[i] == h[i + 1]);
        }
        lemma_groups(r, v4);
        assert(s =~= f + seq![':'] + t);
        assert(s.take(n) =~= f);
        assert(s.skip(n + 1) =~= t);
        assert(group_numbers(h) =~= seq![hex_value(f) as u16] + group_numbers(r));
        assert(s[n] == ':');
        assert forall|i: int| 0 <= i < s.len() - 1 implies !(#[trigger] s[i] == ':' && s[i + 1]
            == ':') by {
            if i < n {
                assert(s[i] == f[i]);
            } else if i == n {
                assert(s[i + 1] == t[0]);
            } else {
                assert(s[i] == t[i - n - 1] && s[i + 1] == t[i - n]);
            }
        }
    }
}

/// An IPv6 address is read from its eight groups, each in one to four digits of
/// any case, with or without zeros before them.
pub proof fn law_eight_groups_are_read(h: Seq<Seq<char>>)
    requires
        h.len() == 8,
        forall|i: int| 0 <= i < h.len() ==> is_group(#[trigger] h[i]),
    ensures
        ip_value(text::joined(h, ':')) == Some(
            IpAddr::V6(from_groups(group_numbers(h)) as u128),
        ),
{
    let s = text::joined(h, ':');
    lemma_groups(h, true);
    lemma_no_double_colon(s, 0);
    lemma_no_dotted(s);
}

proof fn lemma_no_dotted(s: Seq<char>)
    requires
        s.contains(':'),
    ensures
        v4_value(s) is None,
{
    if dotted_octets(s, 4) is Some {
        lemma_dotted_chars(s, 4);
        let i = choose|i: int| 0 <= i < s.len() && s[i] == ':';
        assert(s[i] != ':');
    }
}

/// Two colons stand for as many zero groups as are missing between the groups
/// before and behind them, one at least.
pub proof fn law_missing_groups_are_zero(a: Seq<Seq<char>>, b: Seq<Seq<char>>)
    requires
        a.len() + b.len() <= 7,
        forall|i: int| 0 <= i < a.len() ==> is_group(#[trigger] a[i]),
        forall|i: int| 0 <= i < b.len() ==> is_group(#[trigger] b[i]),
    ensures
        ip_value(text::joined(a, ':') + seq![':', ':'] + text::joined(b, ':')) == Some(
            IpAddr::V6(
                from_groups(
                    group_numbers(a) + Seq::new((8 - a.len() - b.len()) as nat, |i: int| 0u16)
                        + group_numbers(b),
                ) as u128,
            ),
        ),
{
    let x = text::joined(a, ':');
    let y = text::joined(b, ':');
    let s = x + seq![':', ':'] + y;
    let k = x.len() as int;
    if a.len() > 0 {
        lemma_groups(a, false);
    } else {
        assert(group_numbers(a) =~= Seq::<u16>::empty());
    }
    if b.len() > 0 {
        lemma_groups(b, true);
    } else {
        assert(group_numbers(b) =~= Seq::<u16>::empty());
    }
    assert(s[k] == ':' && s[k + 1] == ':');
    assert forall|i: int| 0 <= i < k implies !(#[trigger] s[i] == ':' && s[i + 1] == ':') by {
        assert(s[i] == x[i]);
        if i + 1 < k {
            assert(s[i + 1] == x[i + 1]);
        } else {
            assert(x.last() == x[i]);
        }
    }
    lemma_first_double_colon(s, k, 0);
    assert(s.take(k) =~= x);
    assert(s.skip(k + 2) =~= y);
    lemma_no_dotted(s);
    assert(zero_groups((8 - a.len() - b.len()) as nat) =~= Seq::new(
        (8 - a.len() - b.len()) as nat,
        |i: int| 0u16,
    ));
}

} // verus!
