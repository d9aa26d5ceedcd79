//! Route planning on Windows.
use vstd::prelude::*;
use crate::inbound::tun::desktop;
use crate::inbound::tun::route;
use crate::inbound::tun::route::{CommandLine, TunInboundConfig};
use crate::text;

verus! {

/// The two commands that delete the firewall rules.
pub open spec fn delete_firewall_rules() -> Seq<Seq<Seq<char>>> {
    seq![
        seq!["netsh"@, "advfirewall"@, "firewall"@, "delete"@, "rule"@, "name=reflex-tun-strict-allow"@],
        seq!["netsh"@, "advfirewall"@, "firewall"@, "delete"@, "rule"@, "name=reflex-tun-strict-block"@],
    ]
}

/// The firewall rules of strict routing on Windows. The old ones are deleted;
/// DNS over UDP is allowed to the program `exe`, if it is known, and then
/// blocked for all others.
pub open spec fn firewall_rules(exe: Option<Seq<char>>) -> Seq<Seq<Seq<char>>> {
    delete_firewall_rules() + (match exe {
        Some(path) => seq![
            seq![
                "netsh"@,
                "advfirewall"@,
                "firewall"@,
                "add"@,
                "rule"@,
                "name=reflex-tun-strict-allow"@,
                "protocol=UDP"@,
                "dir=out"@,
                "remoteport=53"@,
                "action=allow"@,
                "program="@ + path,
            ],
        ],
        None => Seq::empty(),
    }) + seq![
        seq![
            "netsh"@,
            "advfirewall"@,
            "firewall"@,
            "add"@,
            "rule"@,
            "name=reflex-tun-strict-block"@,
            "protocol=UDP"@,
            "dir=out"@,
            "remoteport=53"@,
            "action=block"@,
        ],
    ]
}

/// The commands that add or delete the routes of a family on Windows.
pub open spec fn windows_routes(v6: bool, verb: Seq<char>, after: Seq<Seq<char>>) -> Seq<
    Seq<Seq<char>>,
> {
    desktop::per_range(
        v6,
        seq![
            "netsh"@,
            "interface"@,
            if v6 {
                "ipv6"@
            } else {
                "ipv4"@
            },
            verb,
            "route"@,
        ],
        after,
    )
}

/// The commands that lead traffic into the device on Windows.
pub open spec fn windows_setup(
    cfg: TunInboundConfig,
    if_name: Seq<char>,
    exe: Option<Seq<char>>,
) -> Seq<Seq<Seq<char>>> {
    desktop::address_commands(false, route::texts(cfg.address@), if_name) + (if desktop::has_family(cfg, true) {
        windows_routes(false, "add"@, seq![if_name, "metric=1"@])
    } else {
        Seq::empty()
    }) + (if desktop::has_family(cfg, false) {
        windows_routes(true, "add"@, seq![if_name, "metric=1"@])
    } else {
        Seq::empty()
    }) + (if cfg.strict_route {
        firewall_rules(exe)
    } else {
        Seq::empty()
    }) + seq![seq!["ipconfig"@, "/flushdns"@]]
}

/// The commands that take the routes away on Windows.
pub open spec fn windows_teardown(cfg: TunInboundConfig, if_name: Seq<char>) -> Seq<
    Seq<Seq<char>>,
> {
    (if desktop::has_family(cfg, true) {
        windows_routes(false, "delete"@, seq![if_name])
    } else {
        Seq::empty()
    }) + (if desktop::has_family(cfg, false) {
        windows_routes(true, "delete"@, seq![if_name])
    } else {
        Seq::empty()
    }) + (if cfg.strict_route {
        delete_firewall_rules()
    } else {
        Seq::empty()
    }) + seq![seq!["ipconfig"@, "/flushdns"@]]
}

fn push_windows_routes(out: &mut Vec<CommandLine>, v6: bool, verb: &str, after: &CommandLine)
    ensures
        route::command_words(final(out)@) == route::command_words(old(out)@) + windows_routes(
            v6,
            verb@,
            after@,
        ),
{
    let before: CommandLine = CommandLine::new("netsh").arg("interface").arg(
        if v6 {
            "ipv6"
        } else {
            "ipv4"
        },
    ).arg(verb).arg("route");
    assert(before@ =~= seq![
        "netsh"@,
        "interface"@,
        if v6 {
            "ipv6"@
        } else {
            "ipv4"@
        },
        verb@,
        "route"@,
    ]);
    desktop::push_per_range(out, v6, &before, after);
}

fn push_delete_firewall_rules(out: &mut Vec<CommandLine>)
    ensures
        route::command_words(final(out)@) == route::command_words(old(out)@)
            + delete_firewall_rules(),
{
    let allow: CommandLine = CommandLine::new("netsh").arg("advfirewall").arg("firewall").arg(
        "delete",
    ).arg("rule").arg("name=reflex-tun-strict-allow");
    assert(allow@ =~= delete_firewall_rules()[0]);
    let block: CommandLine = CommandLine::new("netsh").arg("advfirewall").arg("firewall").arg(
        "delete",
    ).arg("rule").arg("name=reflex-tun-strict-block");
    assert(block@ =~= delete_firewall_rules()[1]);
    route::push_command(out, allow);
    route::push_command(out, block);
    assert(route::command_words(out@) =~= route::command_words(old(out)@)
        + delete_firewall_rules());
}

fn push_firewall_rules(out: &mut Vec<CommandLine>, exe: Option<&str>)
    ensures
        route::command_words(final(out)@) == route::command_words(old(out)@) + firewall_rules(
            match exe {
                Some(e) => Some(e@),
                None => None,
            },
        ),
{
    let ghost path = match exe {
        Some(e) => Some(e@),
        None => None,
    };
    push_delete_firewall_rules(out);
    if let Some(e) = exe {
        let mut t: Vec<char> = text::chars_of("program=");
        text::push_text(&mut t, e);
        let allow: CommandLine = CommandLine::new("netsh").arg("advfirewall").arg("firewall").arg(
            "add",
        ).arg("rule").arg("name=reflex-tun-strict-allow").arg("protocol=UDP").arg("dir=out").arg(
            "remoteport=53",
        ).arg("action=allow").arg_string(text::string_of(&t));
        assert(allow@ =~= firewall_rules(path)[2]);
        route::push_command(out, allow);
    }
    let block: CommandLine = CommandLine::new("netsh").arg("advfirewall").arg("firewall").arg(
        "add",
    ).arg("rule").arg("name=reflex-tun-strict-block").arg("protocol=UDP").arg("dir=out").arg(
        "remoteport=53",
    ).arg("action=block");
    assert(block@ =~= firewall_rules(path).last());
    route::push_command(out, block);
    assert(route::command_words(out@) =~= route::command_words(old(out)@) + firewall_rules(path));
}

fn flush_dns_windows() -> (r: CommandLine)
    ensures
        r@ == seq!["ipconfig"@, "/flushdns"@],
{
    desktop::two_words("ipconfig", "/flushdns")
}

/// Plans the commands that lead traffic into the device on Windows; `exe` is
/// the path of the running program, if it is known.
pub fn setup(cfg: &TunInboundConfig, if_name: &str, exe: Option<&str>) -> (r: Vec<
    CommandLine,
>)
    ensures
        route::command_words(r@) == windows_setup(
            *cfg,
            if_name@,
            match exe {
                Some(e) => Some(e@),
                None => None,
            },
        ),
{
    let ghost none = Seq::<Seq<Seq<char>>>::empty();
    let mut r: Vec<CommandLine> = desktop::make_address_commands(false, &cfg.address, if_name);
    let ghost s1 = route::command_words(r@);
    if desktop::family_present(cfg, true) {
        push_windows_routes(&mut r, false, "add", &desktop::two_words(if_name, "metric=1"));
    } else {
        assert(s1 + none =~= s1);
    }
    let ghost s2 = route::command_words(r@);
    if desktop::family_present(cfg, false) {
        push_windows_routes(&mut r, true, "add", &desktop::two_words(if_name, "metric=1"));
    } else {
        assert(s2 + none =~= s2);
    }
    let ghost s3 = route::command_words(r@);
    if cfg.strict_route {
        push_firewall_rules(&mut r, exe);
    } else {
        assert(s3 + none =~= s3);
    }
    let ghost s4 = route::command_words(r@);
    route::push_command(&mut r, flush_dns_windows());
    assert(route::command_words(r@) =~= s4 + seq![seq!["ipconfig"@, "/flushdns"@]]);
    r
}

/// Plans the commands that take the routes away on Windows.
pub fn teardown(cfg: &TunInboundConfig, if_name: &str) -> (r: Vec<CommandLine>)
    ensures
        route::command_words(r@) == windows_teardown(*cfg, if_name@),
{
    let ghost none = Seq::<Seq<Seq<char>>>::empty();
    let mut r: Vec<CommandLine> = Vec::new();
    assert(route::command_words(r@) =~= none);
    if desktop::family_present(cfg, true) {
        push_windows_routes(&mut r, false, "delete", &CommandLine::new(if_name));
    }
    let ghost s1 = route::command_words(r@);
    assert(s1 =~= if desktop::has_family(*cfg, true) {
        windows_routes(false, "delete"@, seq![if_name@])
    } else {
        none
    });
    if desktop::family_present(cfg, false) {
        push_windows_routes(&mut r, true, "delete", &CommandLine::new(if_name));
    } else {
        assert(s1 + none =~= s1);
    }
    let ghost s2 = route::command_words(r@);
    if cfg.strict_route {
        push_delete_firewall_rules(&mut r);
    } else {
        assert(s2 + none =~= s2);
    }
    let ghost s3 = route::command_words(r@);
    route::push_command(&mut r, flush_dns_windows());
    assert(route::command_words(r@) =~= s3 + seq![seq!["ipconfig"@, "/flushdns"@]]);
    r
}

/// The command that asks for a property of the adapter of a name.
pub open spec fn adapter_query(if_name: Seq<char>, property: Seq<char>) -> Seq<Seq<char>> {
    seq![
        "powershell"@,
        "-NoProfile"@,
        "-NonInteractive"@,
        "-Command"@,
        "(Get-NetAdapter -Name '"@ + if_name + "' -ErrorAction SilentlyContinue)."@ + property,
    ]
}

fn query_adapter(if_name: &str, property: &str) -> (r: CommandLine)
    ensures
        r@ == adapter_query(if_name@, property@),
{
    let mut t: Vec<char> = text::chars_of("(Get-NetAdapter -Name '");
    text::push_text(&mut t, if_name);
    text::push_text(&mut t, "' -ErrorAction SilentlyContinue).");
    text::push_text(&mut t, property);
    let r: CommandLine = CommandLine::new("powershell").arg("-NoProfile").arg(
        "-NonInteractive",
    ).arg("-Command").arg_string(text::string_of(&t));
    assert(r@ =~= adapter_query(if_name@, property@));
    r
}

/// The command that asks for an adapter's name.
pub fn query_adapter_name(if_name: &str) -> (r: CommandLine)
    ensures
        r@ == adapter_query(if_name@, "Name"@),
{
    query_adapter(if_name, "Name")
}

/// The command that asks for an adapter's index.
pub fn query_adapter_index(if_name: &str) -> (r: CommandLine)
    ensures
        r@ == adapter_query(if_name@, "ifIndex"@),
{
    query_adapter(if_name, "ifIndex")
}

/// The name that an adapter goes by: what the query printed, without white
/// space around it, unless that is empty or the query could not be run.
pub fn resolve_actual_interface_name(expected: &str, output: Option<&[u8]>) -> (r: String)
    ensures
        r@ == match output {
            Some(out) => if text::trimmed(text::lossy_utf8(out@)).len() > 0 {
                text::trimmed(text::lossy_utf8(out@))
            } else {
                expected@
            },
            None => expected@,
        },
{
    if let Some(out) = output {
        let c: Vec<char> = text::chars_of(text::lossy_text(out).as_str());
        let name: &[char] = text::trim(&c);
        if name.len() > 0 {
            return text::string_of(name);
        }
    }
    expected.to_owned()
}

/// Whether an adapter is there: the query for its index printed a number.
pub fn interface_is_visible(output: &[u8]) -> (r: bool)
    ensures
        r == (text::unsigned_value(
            text::trimmed(text::lossy_utf8(output@)),
            u32::MAX as nat,
        ) is Some),
{
    let c: Vec<char> = text::chars_of(text::lossy_text(output).as_str());
    text::parse_unsigned(text::trim(&c), u32::MAX as u64).is_some()
}

/// The start of the device id of a Windows adapter.
pub const GUID_SEED: u128 = 0xdeadbeef_cafebabe_12345678_9abcdef0;

/// The factor of the device id of a Windows adapter.
pub const GUID_FACTOR: u128 = 0x6c62272e07bb0142;

/// The device id of a Windows adapter: the bytes of its name mixed in one by
/// one.
pub open spec fn device_guid(name: Seq<u8>) -> u128
    decreases name.len(),
{
    if name.len() == 0 {
        GUID_SEED
    } else {
        let before = device_guid(name.drop_last());
        let shift = (((name.len() - 1) % 16) * 8) as u32;
        let mixed = before ^ ((name.last() as u128) << shift);
        ((mixed * GUID_FACTOR) % (u128::MAX + 1)) as u128
    }
}

/// Computes the device id of a Windows adapter from its name.
pub fn adapter_guid(name: &str) -> (r: u128)
    ensures
        r == device_guid(vstd::utf8::encode_utf8(name@)),
{
    let bytes: &[u8] = name.as_bytes();
    let mut g: u128 = GUID_SEED;
    let mut i: usize = 0;
    assert(bytes@.take(0).len() == 0);
    while i < bytes.len()
        invariant
            i <= bytes@.len(),
            g == device_guid(bytes@.take(i as int)),
        decreases bytes@.len() - i,
    {
        proof {
            let t = bytes@.take(i + 1);
            assert(t.drop_last() =~= bytes@.take(i as int));
            assert(t.last() == bytes@[i as int]);
        }
        let shift: u32 = (i % 16) as u32 * 8;
        g = g ^ ((bytes[i] as u128) << shift);
        g = g.wrapping_mul(GUID_FACTOR);
        i = i + 1;
    }
    assert(bytes@.take(i as int) =~= bytes@);
    g
}

/// Every route that is set up is taken away again: for each network there is one
/// command that adds it, to the device, and one that deletes it. Strict routing
/// leaves no firewall rule behind.
pub proof fn law_routes_are_taken_away(
    cfg: TunInboundConfig,
    if_name: Seq<char>,
    exe: Option<Seq<char>>,
    v6: bool,
    i: int,
)
    requires
        desktop::has_family(cfg, !v6),
        0 <= i < desktop::sub_ranges(v6).len(),
    ensures
        ({
            let family = if v6 {
                "ipv6"@
            } else {
                "ipv4"@
            };
            let network = desktop::sub_ranges(v6)[i];
            &&& windows_setup(cfg, if_name, exe).contains(
                seq![
                    "netsh"@,
                    "interface"@,
                    family,
                    "add"@,
                    "route"@,
                    network,
                    if_name,
                    "metric=1"@,
                ],
            )
            &&& windows_teardown(cfg, if_name).contains(
                seq!["netsh"@, "interface"@, family, "delete"@, "route"@, network, if_name],
            )
        }),
{
    let family = if v6 {
        "ipv6"@
    } else {
        "ipv4"@
    };
    let network = desktop::sub_ranges(v6)[i];
    let s = windows_setup(cfg, if_name, exe);
    let t = windows_teardown(cfg, if_name);
    let add = seq![
        "netsh"@,
        "interface"@,
        family,
        "add"@,
        "route"@,
        network,
        if_name,
        "metric=1"@,
    ];
    let del = seq!["netsh"@, "interface"@, family, "delete"@, "route"@, network, if_name];
    let n = desktop::address_commands(false, route::texts(cfg.address@), if_name).len() as int;
    let m: int = if v6 && desktop::has_family(cfg, true) {
        8
    } else {
        0
    };
    assert(desktop::sub_ranges(false).len() == 8 && desktop::sub_ranges(true).len() == 8);
    assert(s[n + m + i] =~= add);
    assert(t[m + i] =~= del);
}

} // verus!
