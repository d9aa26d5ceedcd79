//! What the route plans of macOS and Windows share: networks that cover
//! everything but the default route, and the commands that give the device its
//! addresses.
use vstd::prelude::*;
use crate::inbound::tun::route;
use crate::inbound::tun::route::{CommandLine, TunInboundConfig};
use crate::net;
use crate::net::IpAddr;
use crate::text;

verus! {

/// IPv4 networks that cover all addresses from 1.0.0.0 on.
pub open spec fn v4_sub_ranges() -> Seq<Seq<char>> {
    seq![
        "1.0.0.0/8"@,
        "2.0.0.0/7"@,
        "4.0.0.0/6"@,
        "8.0.0.0/5"@,
        "16.0.0.0/4"@,
        "32.0.0.0/3"@,
        "64.0.0.0/2"@,
        "128.0.0.0/1"@,
    ]
}

/// IPv6 networks that cover all addresses from 100:: on.
pub open spec fn v6_sub_ranges() -> Seq<Seq<char>> {
    seq![
        "100::/8"@,
        "200::/7"@,
        "400::/6"@,
        "800::/5"@,
        "1000::/4"@,
        "2000::/3"@,
        "4000::/2"@,
        "8000::/1"@,
    ]
}

/// The networks of a family.
pub open spec fn sub_ranges(v6: bool) -> Seq<Seq<char>> {
    if v6 {
        v6_sub_ranges()
    } else {
        v4_sub_ranges()
    }
}

pub(crate) fn sub_range_words(v6: bool) -> (r: CommandLine)
    ensures
        r@ == sub_ranges(v6),
{
    if v6 {
        let r: CommandLine = CommandLine::new("100::/8").arg("200::/7").arg("400::/6").arg(
            "800::/5",
        ).arg("1000::/4").arg("2000::/3").arg("4000::/2").arg("8000::/1");
        assert(r@ =~= v6_sub_ranges());
        r
    } else {
        let r: CommandLine = CommandLine::new("1.0.0.0/8").arg("2.0.0.0/7").arg("4.0.0.0/6").arg(
            "8.0.0.0/5",
        ).arg("16.0.0.0/4").arg("32.0.0.0/3").arg("64.0.0.0/2").arg("128.0.0.0/1");
        assert(r@ =~= v4_sub_ranges());
        r
    }
}

/// A command for each network of a family: `before`, the network, `after`.
pub open spec fn per_range(v6: bool, before: Seq<Seq<char>>, after: Seq<Seq<char>>) -> Seq<
    Seq<Seq<char>>,
> {
    sub_ranges(v6).map_values(|c: Seq<char>| before.push(c) + after)
}

pub(crate) fn copy_words(c: &CommandLine) -> (r: CommandLine)
    ensures
        r@ == c@,
{
    let mut words: Vec<String> = Vec::new();
    let mut i: usize = 0;
    while i < c.words.len()
        invariant
            i <= c.words@.len(),
            route::texts(words@) == c@.take(i as int),
        decreases c.words@.len() - i,
    {
        let ghost before = words@;
        words.push(c.words[i].as_str().to_owned());
        i = i + 1;
        assert(route::texts(words@) =~= route::texts(before).push(c.words@[i - 1]@));
        assert(c@.take(i as int) =~= c@.take(i - 1).push(c.words@[i - 1]@));
    }
    let r: CommandLine = CommandLine { words };
    assert(r@ =~= c@);
    r
}

pub(crate) fn append_words(c: CommandLine, tail: &CommandLine) -> (r: CommandLine)
    ensures
        r@ == c@ + tail@,
{
    let mut words: Vec<String> = c.words;
    let mut t: CommandLine = copy_words(tail);
    words.append(&mut t.words);
    let r: CommandLine = CommandLine { words };
    assert(r@ =~= c@ + tail@);
    r
}

/// Appends a command for each network of a family.
pub(crate) fn push_per_range(out: &mut Vec<CommandLine>, v6: bool, before: &CommandLine, after: &CommandLine)
    ensures
        route::command_words(final(out)@) == route::command_words(old(out)@) + per_range(
            v6,
            before@,
            after@,
        ),
{
    let ranges: CommandLine = sub_range_words(v6);
    let ghost all = per_range(v6, before@, after@);
    let mut i: usize = 0;
    assert(route::command_words(out@) =~= route::command_words(old(out)@) + all.take(0));
    while i < ranges.words.len()
        invariant
            i <= ranges.words@.len(),
            ranges@ == sub_ranges(v6),
            all == per_range(v6, before@, after@),
            route::command_words(out@) == route::command_words(old(out)@) + all.take(i as int),
        decreases ranges.words@.len() - i,
    {
        let c: CommandLine = append_words(
            copy_words(before).arg(ranges.words[i].as_str()),
            after,
        );
        assert(ranges@[i as int] == ranges.words@[i as int]@);
        route::push_command(out, c);
        i = i + 1;
        assert(all.take(i as int) =~= all.take(i - 1).push(c@));
        assert(route::command_words(out@) =~= route::command_words(old(out)@) + all.take(i as int));
    }
    assert(all.take(i as int) =~= all);
}

/// Whether an address of a family is among the settings.
pub open spec fn has_family(cfg: TunInboundConfig, v4: bool) -> bool {
    route::addresses_of(route::texts(cfg.address@), v4).len() > 0
}

pub(crate) fn family_present(cfg: &TunInboundConfig, v4: bool) -> (r: bool)
    ensures
        r == has_family(*cfg, v4),
{
    route::parse_addresses(&cfg.address, v4).len() > 0
}

/// An address and its prefix length with a slash between them.
pub open spec fn cidr_text(ip: IpAddr, len: u8) -> Seq<char> {
    net::ip_text(ip) + seq!['/'] + text::decimal(len as nat)
}

pub(crate) fn cidr_string(ip: IpAddr, len: u8) -> (r: String)
    ensures
        r@ == cidr_text(ip, len),
{
    let mut t: Vec<char> = text::chars_of(net::ip_string(ip).as_str());
    t.push('/');
    text::push_chars(&mut t, &text::decimal_chars(len as u64));
    assert(t@ =~= cidr_text(ip, len));
    text::string_of(&t)
}

/// The command that gives the device an address on macOS.
pub open spec fn macos_address(if_name: Seq<char>, ip: IpAddr, len: u8) -> Seq<Seq<char>> {
    match ip {
        IpAddr::V4(_) => seq!["ifconfig"@, if_name, net::ip_text(ip), net::ip_text(ip)],
        IpAddr::V6(_) => seq![
            "ifconfig"@,
            if_name,
            "inet6"@,
            cidr_text(ip, len),
            "prefixlen"@,
            text::decimal(len as nat),
            "alias"@,
        ],
    }
}

/// The commands that give the device its addresses, on macOS or on Windows.
/// Addresses that do not parse are passed over.
pub open spec fn address_commands(
    macos: bool,
    address: Seq<Seq<char>>,
    if_name: Seq<char>,
) -> Seq<Seq<Seq<char>>>
    decreases address.len(),
{
    if address.len() == 0 {
        Seq::empty()
    } else {
        let rest = address_commands(macos, address.drop_last(), if_name);
        match route::addr_prefix(address.last()) {
            Some((ip, len)) => rest.push(
                if macos {
                    macos_address(if_name, ip, len)
                } else {
                    windows_address(if_name, ip, len)
                },
            ),
            None => rest,
        }
    }
}

pub(crate) fn address_command(macos: bool, if_name: &str, ip: IpAddr, len: u8) -> (r: CommandLine)
    requires
        len <= 128,
    ensures
        r@ == (if macos {
            macos_address(if_name@, ip, len)
        } else {
            windows_address(if_name@, ip, len)
        }),
{
    if macos {
        match ip {
            IpAddr::V4(_) => {
                let r: CommandLine = CommandLine::new("ifconfig").arg(if_name).arg_string(
                    net::ip_string(ip),
                ).arg_string(net::ip_string(ip));
                assert(r@ =~= macos_address(if_name@, ip, len));
                r
            },
            IpAddr::V6(_) => {
                let r: CommandLine = CommandLine::new("ifconfig").arg(if_name).arg(
                    "inet6",
                ).arg_string(cidr_string(ip, len)).arg("prefixlen").arg_number(len as u32).arg(
                    "alias",
                );
                assert(r@ =~= macos_address(if_name@, ip, len));
                r
            },
        }
    } else {
        match ip {
            IpAddr::V4(_) => {
                let mask: IpAddr = IpAddr::V4(route::prefix_len_to_mask_v4(len));
                let r: CommandLine = CommandLine::new("netsh").arg("interface").arg("ipv4").arg(
                    "set",
                ).arg("address").arg("name").arg(if_name).arg("static").arg_string(
                    net::ip_string(ip),
                ).arg_string(net::ip_string(mask));
                assert(r@ =~= windows_address(if_name@, ip, len));
                r
            },
            IpAddr::V6(_) => {
                let r: CommandLine = CommandLine::new("netsh").arg("interface").arg("ipv6").arg(
                    "add",
                ).arg("address").arg(if_name).arg_string(cidr_string(ip, len));
                assert(r@ =~= windows_address(if_name@, ip, len));
                r
            },
        }
    }
}

/// Collects the commands that give the device its addresses.
pub(crate) fn make_address_commands(macos: bool, address: &Vec<String>, if_name: &str) -> (r: Vec<CommandLine>)
    ensures
        route::command_words(r@) == address_commands(macos, route::texts(address@), if_name@),
{
    let mut r: Vec<CommandLine> = Vec::new();
    let mut i: usize = 0;
    assert(route::texts(address@.take(0)) =~= Seq::<Seq<char>>::empty());
    assert(route::command_words(r@) =~= Seq::<Seq<Seq<char>>>::empty());
    while i < address.len()
        invariant
            i <= address@.len(),
            route::command_words(r@) == address_commands(
                macos,
                route::texts(address@.take(i as int)),
                if_name@,
            ),
        decreases address@.len() - i,
    {
        proof {
            let t = route::texts(address@.take(i + 1));
            assert(t.drop_last() =~= route::texts(address@.take(i as int)));
            assert(t.last() == address@[i as int]@);
        }
        if let Some((ip, len)) = route::parse_addr_prefix(address[i].as_str()) {
            route::push_command(&mut r, address_command(macos, if_name, ip, len));
        }
        i = i + 1;
    }
    assert(address@.take(i as int) =~= address@);
    r
}

pub(crate) fn three_words(a: &str, b: &str, c: &str) -> (r: CommandLine)
    ensures
        r@ == seq![a@, b@, c@],
{
    let r: CommandLine = CommandLine::new(a).arg(b).arg(c);
    assert(r@ =~= seq![a@, b@, c@]);
    r
}

pub(crate) fn two_words(a: &str, b: &str) -> (r: CommandLine)
    ensures
        r@ == seq![a@, b@],
{
    let r: CommandLine = CommandLine::new(a).arg(b);
    assert(r@ =~= seq![a@, b@]);
    r
}

pub(crate) fn nothing() -> (r: CommandLine)
    ensures
        r@ == Seq::<Seq<char>>::empty(),
{
    let r: CommandLine = CommandLine { words: Vec::new() };
    assert(r@ =~= Seq::<Seq<char>>::empty());
    r
}

/// The command that gives the device an address on Windows.
pub open spec fn windows_address(if_name: Seq<char>, ip: IpAddr, len: u8) -> Seq<Seq<char>> {
    match ip {
        IpAddr::V4(_) => seq![
            "netsh"@,
            "interface"@,
            "ipv4"@,
            "set"@,
            "address"@,
            "name"@,
            if_name,
            "static"@,
            net::ip_text(ip),
            net::ip_text(IpAddr::V4(route::mask_v4(len) as u32)),
        ],
        IpAddr::V6(_) => seq![
            "netsh"@,
            "interface"@,
            "ipv6"@,
            "add"@,
            "address"@,
            if_name,
            cidr_text(ip, len),
        ],
    }
}

/// The commands that give the device its addresses: one for each text that is an
/// address with a prefix length, in their order.
pub proof fn law_one_command_per_address(
    macos: bool,
    address: Seq<Seq<char>>,
    t: Seq<char>,
    if_name: Seq<char>,
)
    ensures
        ({
            let before = address_commands(macos, address, if_name);
            let after = address_commands(macos, address.push(t), if_name);
            match route::addr_prefix(t) {
                Some((ip, len)) => after.drop_last() == before && after.len() == before.len() + 1
                    && after.last().contains(if_name) && (ip is V4 ==> after.last().contains(
                    net::ip_text(ip),
                )) && (ip is V6 ==> after.last().contains(
                    net::ip_text(ip) + seq!['/'] + text::decimal(len as nat),
                )),
                None => after == before,
            }
        }),
{
    let a = address.push(t);
    assert(a.drop_last() =~= address);
    assert(a.last() == t);
    let before = address_commands(macos, address, if_name);
    let after = address_commands(macos, a, if_name);
    if let Some((ip, len)) = route::addr_prefix(t) {
        assert(after.drop_last() =~= before);
        let c = after.last();
        if macos {
            assert(c[1] == if_name);
            if ip is V4 {
                assert(c[2] == net::ip_text(ip));
            } else {
                assert(c[3] == cidr_text(ip, len));
            }
        } else {
            if ip is V4 {
                assert(c[6] == if_name && c[8] == net::ip_text(ip));
            } else {
                assert(c[5] == if_name && c[6] == cidr_text(ip, len));
            }
        }
    }
}

/// The networks are the halves, quarters and so on of the address space that do
/// not hold its first address: network `i` begins at two to the power of 24 + `i`
/// for IPv4 and has a prefix of 8 - `i` bits.
pub proof fn law_ranges_double(i: int)
    requires
        0 <= i < 8,
    ensures
        sub_ranges(false).len() == 8,
        sub_ranges(false)[i] == cidr_text(IpAddr::V4(range_start(i)), (8 - i) as u8),
{
    lemma_starts();
    let r = v4_sub_ranges();
    assert(r.len() == 8);
    if i == 0 {
        lemma_range_text(1, "1.0.0.0/8"@, 8);
        assert(r[0] == "1.0.0.0/8"@);
    } else if i == 1 {
        lemma_range_text(2, "2.0.0.0/7"@, 7);
        assert(r[1] == "2.0.0.0/7"@);
    } else if i == 2 {
        lemma_range_text(4, "4.0.0.0/6"@, 6);
        assert(r[2] == "4.0.0.0/6"@);
    } else if i == 3 {
        lemma_range_text(8, "8.0.0.0/5"@, 5);
        assert(r[3] == "8.0.0.0/5"@);
    } else if i == 4 {
        lemma_range_text(16, "16.0.0.0/4"@, 4);
        assert(r[4] == "16.0.0.0/4"@);
    } else if i == 5 {
        lemma_range_text(32, "32.0.0.0/3"@, 3);
        assert(r[5] == "32.0.0.0/3"@);
    } else if i == 6 {
        lemma_range_text(64, "64.0.0.0/2"@, 2);
        assert(r[6] == "64.0.0.0/2"@);
    } else {
        lemma_range_text(128, "128.0.0.0/1"@, 1);
        assert(r[7] == "128.0.0.0/1"@);
    }
}

/// Where network `i` begins.
pub open spec fn range_start(i: int) -> u32
    decreases i,
{
    if i <= 0 {
        0x0100_0000
    } else {
        (2 * range_start(i - 1)) as u32
    }
}

/// Every address from 1.0.0.0 on lies in exactly one of the networks, and none
/// below it does.
pub proof fn law_ranges_cover(ip: u32)
    ensures
        ip >= 0x0100_0000 <==> exists|i: int|
            0 <= i < 8 && #[trigger] range_start(i) <= ip < 2 * range_start(i),
        forall|i: int, j: int|
            0 <= i < j < 8 && #[trigger] range_start(i) <= ip < 2 * range_start(i) ==> !(
            #[trigger] range_start(j) <= ip),
{
    lemma_starts();
    assert forall|i: int, j: int|
        0 <= i < j < 8 && #[trigger] range_start(i) <= ip < 2 * range_start(i) implies !(
    #[trigger] range_start(j) <= ip) by {
        lemma_starts();
    }
    if ip >= 0x0100_0000 {
        let i: int = if ip < 0x0200_0000 {
            0
        } else if ip < 0x0400_0000 {
            1
        } else if ip < 0x0800_0000 {
            2
        } else if ip < 0x1000_0000 {
            3
        } else if ip < 0x2000_0000 {
            4
        } else if ip < 0x4000_0000 {
            5
        } else if ip < 0x8000_0000 {
            6
        } else {
            7
        };
        assert(range_start(i) <= ip < 2 * range_start(i));
    }
}

proof fn lemma_starts()
    ensures
        range_start(0) == 0x0100_0000,
        range_start(1) == 0x0200_0000,
        range_start(2) == 0x0400_0000,
        range_start(3) == 0x0800_0000,
        range_start(4) == 0x1000_0000,
        range_start(5) == 0x2000_0000,
        range_start(6) == 0x4000_0000,
        range_start(7) == 0x8000_0000,
{
    reveal_with_fuel(range_start, 9);
}

proof fn lemma_range_text(first: u8, t: Seq<char>, len: u8)
    requires
        first == 1 && t == "1.0.0.0/8"@ && len == 8 || first == 2 && t == "2.0.0.0/7"@ && len == 7
            || first == 4 && t == "4.0.0.0/6"@ && len == 6 || first == 8 && t == "8.0.0.0/5"@
            && len == 5 || first == 16 && t == "16.0.0.0/4"@ && len == 4 || first == 32 && t
            == "32.0.0.0/3"@ && len == 3 || first == 64 && t == "64.0.0.0/2"@ && len == 2 || first
            == 128 && t == "128.0.0.0/1"@ && len == 1,
    ensures
        t == cidr_text(IpAddr::V4((first * 0x0100_0000) as u32), len),
{
    reveal_strlit("1.0.0.0/8");
    reveal_strlit("2.0.0.0/7");
    reveal_strlit("4.0.0.0/6");
    reveal_strlit("8.0.0.0/5");
    reveal_strlit("16.0.0.0/4");
    reveal_strlit("32.0.0.0/3");
    reveal_strlit("64.0.0.0/2");
    reveal_strlit("128.0.0.0/1");
    let n: nat = (first * 0x0100_0000) as nat;
    reveal_with_fuel(net::be_octets, 5);
    let o = net::be_octets(n, 4);
    assert(n % 256 == 0 && n / 256 == first * 0x1_0000);
    assert(o =~= seq![first, 0u8, 0u8, 0u8]);
    reveal_with_fuel(text::digits_in, 4);
    assert(text::decimal(0) =~= seq!['0']);
    assert(text::decimal(len as nat) =~= seq![('0' as u32 + len) as char]);
    assert(text::decimal(first as nat) =~= (if first < 10 {
        seq![text::digit_char(first as nat)]
    } else if first < 100 {
        seq![text::digit_char(first as nat / 10), text::digit_char(first as nat % 10)]
    } else {
        seq![
            text::digit_char(first as nat / 100),
            text::digit_char((first as nat / 10) % 10),
            text::digit_char(first as nat % 10),
        ]
    }));
    assert(t =~= cidr_text(IpAddr::V4((first * 0x0100_0000) as u32), len));
}

} // verus!
