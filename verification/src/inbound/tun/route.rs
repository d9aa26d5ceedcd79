//! What the route plans of all platforms share: settings, command lines,
//! addresses with prefix lengths.
use vstd::prelude::*;
use crate::net;
use crate::net::IpAddr;
use crate::text;

verus! {

/// The settings of a TUN inbound.
pub struct TunInboundConfig {
    pub tag: String,
    pub interface_name: Option<String>,
    pub address: Vec<String>,
    pub mtu: u32,
    pub auto_route: bool,
    pub strict_route: bool,
    pub include_interface: Vec<String>,
    pub exclude_interface: Vec<String>,
    pub include_uid: Vec<u32>,
    pub exclude_uid: Vec<u32>,
    pub iproute2_table_index: u32,
    pub iproute2_rule_index: u32,
    pub udp_timeout: u64,
}

/// A program and its arguments.
pub struct CommandLine {
    pub words: Vec<String>,
}

/// The characters of each string.
pub open spec fn texts(v: Seq<String>) -> Seq<Seq<char>> {
    v.map_values(|s: String| s@)
}

impl View for CommandLine {
    type V = Seq<Seq<char>>;

    open spec fn view(&self) -> Seq<Seq<char>> {
        texts(self.words@)
    }
}

/// The words of each command.
pub open spec fn command_words(v: Seq<CommandLine>) -> Seq<Seq<Seq<char>>> {
    v.map_values(|c: CommandLine| c@)
}

impl CommandLine {
    /// A program without arguments.
    pub fn new(program: &str) -> (r: Self)
        ensures
            r@ == seq![program@],
    {
        let r: CommandLine = CommandLine { words: Vec::new() };
        assert(r@ =~= Seq::<Seq<char>>::empty());
        let r: CommandLine = r.arg(program);
        assert(r@ =~= seq![program@]);
        r
    }

    /// The command with one more argument.
    pub fn arg(self, t: &str) -> (r: Self)
        ensures
            r@ == self@.push(t@),
    {
        let mut words: Vec<String> = self.words;
        words.push(t.to_owned());
        let r: CommandLine = CommandLine { words };
        assert(r@ =~= self@.push(t@));
        r
    }

    /// The command with one more argument.
    pub fn arg_string(self, t: String) -> (r: Self)
        ensures
            r@ == self@.push(t@),
    {
        let mut words: Vec<String> = self.words;
        words.push(t);
        let r: CommandLine = CommandLine { words };
        assert(r@ =~= self@.push(t@));
        r
    }

    /// The command with a decimal number as one more argument.
    pub fn arg_number(self, n: u32) -> (r: Self)
        ensures
            r@ == self@.push(text::decimal(n as nat)),
    {
        self.arg_string(text::decimal_text(n as u64))
    }
}

/// Appends a command.
pub(crate) fn push_command(out: &mut Vec<CommandLine>, c: CommandLine)
    ensures
        command_words(final(out)@) == command_words(old(out)@).push(c@),
{
    out.push(c);
    assert(command_words(out@) =~= command_words(old(out)@).push(c@));
}

// Addresses with prefix lengths

/// The address and prefix length that `s` writes, with a slash between them.
/// The length is at most 32 for IPv4 and 128 for IPv6.
pub open spec fn addr_prefix(s: Seq<char>) -> Option<(IpAddr, u8)> {
    let i = text::index_of(s, '/');
    if i < s.len() {
        match (net::ip_value(s.take(i)), text::unsigned_value(s.skip(i + 1), 255)) {
            (Some(ip), Some(n)) => if n <= (if ip is V4 {
                32nat
            } else {
                128nat
            }) {
                Some((ip, n as u8))
            } else {
                None
            },
            _ => None,
        }
    } else {
        None
    }
}

/// Parses an address with a prefix length.
pub fn parse_addr_prefix(s: &str) -> (r: Option<(IpAddr, u8)>)
    ensures
        r == addr_prefix(s@),
{
    let c: Vec<char> = text::chars_of(s);
    let n: usize = c.len();
    let i: usize = text::find_from(&c, '/', 0);
    if i >= n {
        return None;
    }
    assert(c@.subrange(0, i as int) =~= c@.take(i as int));
    assert(c@.subrange(i + 1, n as int) =~= c@.skip(i + 1));
    let ip: IpAddr = match net::parse_ip_chars(text::slice_of(&c, 0, i)) {
        Some(ip) => ip,
        None => {
            return None;
        },
    };
    let len: u64 = match text::parse_unsigned(text::slice_of(&c, i + 1, n), 255) {
        Some(len) => len,
        None => {
            return None;
        },
    };
    let max: u64 = if ip.is_ipv4() {
        32
    } else {
        128
    };
    if len > max {
        None
    } else {
        Some((ip, len as u8))
    }
}

/// The IPv4 netmask of a prefix length; lengths above 32 count as 32.
pub open spec fn mask_v4(len: u8) -> nat {
    (0x1_0000_0000 - vstd::arithmetic::power2::pow2((32 - if len < 32 {
        len as int
    } else {
        32
    }) as nat)) as nat
}

/// Two to the power of `n`.
fn power_of_two(n: u8) -> (r: u128)
    requires
        n <= 127,
    ensures
        r == vstd::arithmetic::power2::pow2(n as nat),
{
    let mut r: u128 = 1;
    let mut i: u8 = 0;
    proof {
        vstd::arithmetic::power2::lemma2_to64();
    }
    while i < n
        invariant
            i <= n <= 127,
            r == vstd::arithmetic::power2::pow2(i as nat),
        decreases n - i,
    {
        proof {
            vstd::arithmetic::power2::lemma_pow2_unfold((i + 1) as nat);
            vstd::arithmetic::power2::lemma_pow2_unfold(128);
            vstd::arithmetic::power2::lemma_pow2_adds(64, 63);
            vstd::arithmetic::power2::lemma2_to64();
            vstd::arithmetic::power2::lemma2_to64_rest();
            if i + 1 < 127 {
                vstd::arithmetic::power2::lemma_pow2_strictly_increases((i + 1) as nat, 127);
            }
            assert(vstd::arithmetic::power2::pow2(127) == 0x8000_0000_0000_0000_0000_0000_0000_0000);
        }
        r = r * 2;
        i = i + 1;
    }
    r
}

/// The IPv4 netmask of a prefix length; lengths above 32 count as 32.
pub fn prefix_len_to_mask_v4(len: u8) -> (r: u32)
    ensures
        r == mask_v4(len),
{
    let bits: u8 = if len < 32 {
        32 - len
    } else {
        0
    };
    proof {
        vstd::arithmetic::power2::lemma2_to64();
        vstd::arithmetic::power2::lemma_pow2_pos(bits as nat);
        if bits < 32 {
            vstd::arithmetic::power2::lemma_pow2_strictly_increases(bits as nat, 32);
        }
    }
    (0x1_0000_0000 - power_of_two(bits)) as u32
}

/// The first address of the network of `ip` with `host_bits` bits for hosts.
pub open spec fn network_of(ip: nat, host_bits: nat) -> nat {
    (ip - ip % vstd::arithmetic::power2::pow2(host_bits)) as nat
}

/// The first address of an IPv4 address's network.
pub fn v4_network(ip: u32, pl: u8) -> (r: u32)
    requires
        1 <= pl <= 32,
    ensures
        r == network_of(ip as nat, (32 - pl) as nat),
{
    proof {
        vstd::arithmetic::power2::lemma_pow2_pos((32 - pl) as nat);
    }
    let size: u128 = power_of_two(32 - pl);
    assert(ip as nat % vstd::arithmetic::power2::pow2((32 - pl) as nat) <= ip) by {
        vstd::arithmetic::div_mod::lemma_mod_decreases(ip as nat, vstd::arithmetic::power2::pow2((32 - pl) as nat));
    }
    (ip as u128 - ip as u128 % size) as u32
}

/// The first address of an IPv6 address's network.
pub fn v6_network(ip: u128, pl: u8) -> (r: u128)
    requires
        1 <= pl <= 128,
    ensures
        r == network_of(ip as nat, (128 - pl) as nat),
{
    proof {
        vstd::arithmetic::power2::lemma_pow2_pos((128 - pl) as nat);
    }
    let size: u128 = power_of_two(128 - pl);
    assert(ip as nat % vstd::arithmetic::power2::pow2((128 - pl) as nat) <= ip) by {
        vstd::arithmetic::div_mod::lemma_mod_decreases(ip as nat, vstd::arithmetic::power2::pow2((128 - pl) as nat));
    }
    ip - ip % size
}

/// The addresses of one family, with their prefix lengths, in order.
pub open spec fn addresses_of(address: Seq<Seq<char>>, v4: bool) -> Seq<(IpAddr, u8)>
    decreases address.len(),
{
    if address.len() == 0 {
        Seq::empty()
    } else {
        let rest = addresses_of(address.drop_last(), v4);
        match addr_prefix(address.last()) {
            Some((ip, n)) => if (ip is V4) == v4 {
                rest.push((ip, n))
            } else {
                rest
            },
            None => rest,
        }
    }
}

/// Collects the addresses of one family.
pub fn parse_addresses(address: &Vec<String>, v4: bool) -> (r: Vec<(IpAddr, u8)>)
    ensures
        r@ == addresses_of(texts(address@), v4),
{
    let mut r: Vec<(IpAddr, u8)> = Vec::new();
    let mut i: usize = 0;
    assert(texts(address@.take(0)) =~= Seq::<Seq<char>>::empty());
    while i < address.len()
        invariant
            i <= address@.len(),
            r@ == addresses_of(texts(address@.take(i as int)), v4),
        decreases address@.len() - i,
    {
        proof {
            let t = texts(address@.take(i + 1));
            assert(t.drop_last() =~= texts(address@.take(i as int)));
            assert(t.last() == address@[i as int]@);
        }
        if let Some((ip, n)) = parse_addr_prefix(address[i].as_str()) {
            if ip.is_ipv4() == v4 {
                r.push((ip, n));
            }
        }
        i = i + 1;
    }
    assert(address@.take(i as int) =~= address@);
    r
}

/// The address after the one that is given.
pub open spec fn next_address(ip: IpAddr) -> IpAddr {
    match ip {
        IpAddr::V4(v) => IpAddr::V4(if v == u32::MAX {
            0
        } else {
            (v + 1) as u32
        }),
        IpAddr::V6(v) => IpAddr::V6(if v == u128::MAX {
            0
        } else {
            (v + 1) as u128
        }),
    }
}

/// Whether every address that parses has a prefix length other than zero.
pub open spec fn prefixes_positive(address: Seq<Seq<char>>) -> bool {
    forall|i: int|
        0 <= i < address.len() ==> (addr_prefix(#[trigger] address[i]) matches Some((ip, n))
            ==> n >= 1)
}

pub(crate) proof fn lemma_addresses(address: Seq<Seq<char>>, v4: bool)
    ensures
        forall|i: int|
            0 <= i < addresses_of(address, v4).len() ==> {
                let a = #[trigger] addresses_of(address, v4)[i];
                &&& (a.0 is V4) == v4
                &&& a.1 <= (if v4 {
                    32int
                } else {
                    128int
                })
                &&& prefixes_positive(address) ==> a.1 >= 1
            },
    decreases address.len(),
{
    if address.len() > 0 {
        lemma_addresses(address.drop_last(), v4);
        if prefixes_positive(address) {
            assert(prefixes_positive(address.drop_last())) by {
                assert forall|i: int| 0 <= i < address.drop_last().len() implies (addr_prefix(
                    #[trigger] address.drop_last()[i],
                ) matches Some((ip, n)) ==> n >= 1) by {
                    assert(address.drop_last()[i] == address[i]);
                }
            }
            assert(address.last() == address[address.len() - 1]);
        }
    }
}

/// The address after the one that is given.
pub fn address_after(ip: IpAddr) -> (r: IpAddr)
    ensures
        r == next_address(ip),
{
    match ip {
        IpAddr::V4(v) => IpAddr::V4(v.wrapping_add(1)),
        IpAddr::V6(v) => IpAddr::V6(v.wrapping_add(1)),
    }
}

/// An address with a prefix length is read as it is written: any text of an
/// address, a slash, and a number that the address has room for.
pub proof fn law_prefix_is_read(address: Seq<char>, ip: IpAddr, n: nat)
    requires
        net::ip_value(address) == Some(ip),
        !address.contains('/'),
    ensures
        ip is V4 ==> addr_prefix(address + seq!['/'] + text::decimal(n)) == (if n <= 32 {
            Some((ip, n as u8))
        } else {
            None
        }),
        ip is V6 ==> addr_prefix(address + seq!['/'] + text::decimal(n)) == (if n <= 128 {
            Some((ip, n as u8))
        } else {
            None
        }),
        addr_prefix(address) is None,
{
    let s = address + seq!['/'] + text::decimal(n);
    let i = address.len() as int;
    assert forall|k: int| 0 <= k < i implies address[k] != '/' by {
        assert(address.contains(address[k]));
    }
    text::lemma_index_of(s, '/', i);
    text::lemma_index_of(address, '/', i);
    assert(s.take(i) =~= address);
    assert(s.skip(i + 1) =~= text::decimal(n));
    text::law_parse_of_decimal(n, 255);
}

/// The first address of a network: it is a multiple of the network's size, and
/// the address that it was asked for lies in the network.
pub proof fn law_network_holds_address(ip: nat, host_bits: nat)
    ensures
        ({
            let size = vstd::arithmetic::power2::pow2(host_bits);
            &&& network_of(ip, host_bits) % size == 0
            &&& network_of(ip, host_bits) <= ip < network_of(ip, host_bits) + size
        }),
{
    let size = vstd::arithmetic::power2::pow2(host_bits);
    vstd::arithmetic::power2::lemma_pow2_pos(host_bits);
    vstd::arithmetic::div_mod::lemma_fundamental_div_mod(ip as int, size as int);
    vstd::arithmetic::div_mod::lemma_mod_bound(ip as int, size as int);
    let q = ip as int / size as int;
    assert(ip - ip % size == size * q + 0);
    assert(size * q >= 0) by (nonlinear_arith)
        requires
            size > 0,
            q >= 0,
    ;
    assert((size * q) % (size as int) == 0) by {
        vstd::arithmetic::div_mod::lemma_mod_multiples_basic(q, size as int);
        assert(size * q == q * size) by (nonlinear_arith);
    }
}

/// A netmask has ones for the prefix and zeros behind it: the mask of the next
/// length has one more of the value that its place gives, from none to all.
pub proof fn law_masks_grow_by_one_bit(len: u8)
    ensures
        mask_v4(0) == 0,
        mask_v4(32) == 0xffff_ffff,
        len < 32 ==> mask_v4((len + 1) as u8) == mask_v4(len) + vstd::arithmetic::power2::pow2(
            (31 - len) as nat,
        ),
        len >= 32 ==> mask_v4(len) == 0xffff_ffff,
{
    vstd::arithmetic::power2::lemma2_to64();
    if len < 32 {
        vstd::arithmetic::power2::lemma_pow2_unfold((32 - len) as nat);
        if len > 0 {
            vstd::arithmetic::power2::lemma_pow2_strictly_increases((32 - len) as nat, 32);
        }
    }
}

/// The addresses of a family are those of the texts that are addresses of it, in
/// their order: one more text adds its address, or nothing.
pub proof fn law_addresses_by_family(address: Seq<Seq<char>>, t: Seq<char>)
    ensures
        addresses_of(address.push(t), true) + addresses_of(address.push(t), false) == (match
            addr_prefix(t) {
            Some((ip, n)) => if ip is V4 {
                addresses_of(address, true).push((ip, n)) + addresses_of(address, false)
            } else {
                addresses_of(address, true) + addresses_of(address, false).push((ip, n))
            },
            None => addresses_of(address, true) + addresses_of(address, false),
        }),
{
    let a = address.push(t);
    assert(a.drop_last() =~= address);
    assert(a.last() == t);
}

/// The next address is one higher; behind the last comes the first.
pub proof fn law_next_address(v4: u32, v6: u128)
    ensures
        v4 < 0xffff_ffff ==> next_address(IpAddr::V4(v4)) == IpAddr::V4((v4 + 1) as u32),
        v6 < 0xffff_ffff_ffff_ffff_ffff_ffff_ffff_ffff ==> next_address(IpAddr::V6(v6))
            == IpAddr::V6((v6 + 1) as u128),
        next_address(IpAddr::V4(0xffff_ffff)) == IpAddr::V4(0),
        next_address(IpAddr::V6(0xffff_ffff_ffff_ffff_ffff_ffff_ffff_ffff)) == IpAddr::V6(0),
{
}

} // verus!
