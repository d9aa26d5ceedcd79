//! Route planning on macOS.
use vstd::prelude::*;
use crate::inbound::tun::desktop;
use crate::inbound::tun::route;
use crate::inbound::tun::route::{CommandLine, TunInboundConfig};

verus! {

/// The commands that lead traffic into the device on macOS.
pub open spec fn macos_setup(cfg: TunInboundConfig, if_name: Seq<char>) -> Seq<Seq<Seq<char>>> {
    desktop::address_commands(true, route::texts(cfg.address@), if_name).push(
        seq!["ifconfig"@, if_name, "up"@],
    ) + (if desktop::has_family(cfg, true) {
        desktop::per_range(false, seq!["route"@, "add"@, "-net"@], seq!["-interface"@, if_name])
    } else {
        Seq::empty()
    }) + (if desktop::has_family(cfg, false) {
        desktop::per_range(true, seq!["route"@, "add"@, "-inet6"@], seq!["-interface"@, if_name])
    } else {
        Seq::empty()
    }) + seq![seq!["dscacheutil"@, "-flushcache"@]]
}

/// The commands that take the routes away on macOS.
pub open spec fn macos_teardown(cfg: TunInboundConfig) -> Seq<Seq<Seq<char>>> {
    (if desktop::has_family(cfg, true) {
        desktop::per_range(false, seq!["route"@, "delete"@, "-net"@], Seq::empty())
    } else {
        Seq::empty()
    }) + (if desktop::has_family(cfg, false) {
        desktop::per_range(true, seq!["route"@, "delete"@, "-inet6"@], Seq::empty())
    } else {
        Seq::empty()
    }) + seq![seq!["dscacheutil"@, "-flushcache"@]]
}

fn flush_dns_cache_macos() -> (r: CommandLine)
    ensures
        r@ == seq!["dscacheutil"@, "-flushcache"@],
{
    let r: CommandLine = CommandLine::new("dscacheutil").arg("-flushcache");
    assert(r@ =~= seq!["dscacheutil"@, "-flushcache"@]);
    r
}

/// Plans the commands that lead traffic into the device on macOS.
pub fn setup(cfg: &TunInboundConfig, if_name: &str) -> (r: Vec<CommandLine>)
    ensures
        route::command_words(r@) == macos_setup(*cfg, if_name@),
{
    let mut r: Vec<CommandLine> = desktop::make_address_commands(true, &cfg.address, if_name);
    route::push_command(&mut r, desktop::three_words("ifconfig", if_name, "up"));
    let ghost s1 = route::command_words(r@);
    if desktop::family_present(cfg, true) {
        desktop::push_per_range(
            &mut r,
            false,
            &desktop::three_words("route", "add", "-net"),
            &desktop::two_words("-interface", if_name),
        );
    } else {
        assert(s1 + Seq::<Seq<Seq<char>>>::empty() =~= s1);
    }
    let ghost s2 = route::command_words(r@);
    if desktop::family_present(cfg, false) {
        desktop::push_per_range(
            &mut r,
            true,
            &desktop::three_words("route", "add", "-inet6"),
            &desktop::two_words("-interface", if_name),
        );
    } else {
        assert(s2 + Seq::<Seq<Seq<char>>>::empty() =~= s2);
    }
    route::push_command(&mut r, flush_dns_cache_macos());
    assert(route::command_words(r@) =~= macos_setup(*cfg, if_name@));
    r
}

/// Plans the commands that take the routes away on macOS.
pub fn teardown(cfg: &TunInboundConfig) -> (r: Vec<CommandLine>)
    ensures
        route::command_words(r@) == macos_teardown(*cfg),
{
    let mut r: Vec<CommandLine> = Vec::new();
    assert(route::command_words(r@) =~= Seq::<Seq<Seq<char>>>::empty());
    if desktop::family_present(cfg, true) {
        desktop::push_per_range(&mut r, false, &desktop::three_words("route", "delete", "-net"), &desktop::nothing());
    }
    let ghost s1 = route::command_words(r@);
    assert(s1 =~= if desktop::has_family(*cfg, true) {
        desktop::per_range(false, seq!["route"@, "delete"@, "-net"@], Seq::empty())
    } else {
        Seq::empty()
    });
    if desktop::family_present(cfg, false) {
        desktop::push_per_range(&mut r, true, &desktop::three_words("route", "delete", "-inet6"), &desktop::nothing());
    } else {
        assert(s1 + Seq::<Seq<Seq<char>>>::empty() =~= s1);
    }
    route::push_command(&mut r, flush_dns_cache_macos());
    assert(route::command_words(r@) =~= macos_teardown(*cfg));
    r
}

/// Every route that is set up is taken away again: for each network there is one
/// command that adds it, to the device, and one that deletes it.
pub proof fn law_routes_are_taken_away(cfg: TunInboundConfig, if_name: Seq<char>, v6: bool, i: int)
    requires
        desktop::has_family(cfg, !v6),
        0 <= i < desktop::sub_ranges(v6).len(),
    ensures
        ({
            let family = if v6 {
                "-inet6"@
            } else {
                "-net"@
            };
            let network = desktop::sub_ranges(v6)[i];
            &&& macos_setup(cfg, if_name).contains(
                seq!["route"@, "add"@, family, network, "-interface"@, if_name],
            )
            &&& macos_teardown(cfg).contains(seq!["route"@, "delete"@, family, network])
        }),
{
    let family = if v6 {
        "-inet6"@
    } else {
        "-net"@
    };
    let network = desktop::sub_ranges(v6)[i];
    let s = macos_setup(cfg, if_name);
    let t = macos_teardown(cfg);
    let add = seq!["route"@, "add"@, family, network, "-interface"@, if_name];
    let del = seq!["route"@, "delete"@, family, network];
    let n = desktop::address_commands(true, route::texts(cfg.address@), if_name).len() as int + 1;
    let m: int = if v6 && desktop::has_family(cfg, true) {
        8
    } else {
        0
    };
    assert(desktop::sub_ranges(false).len() == 8 && desktop::sub_ranges(true).len() == 8);
    assert(s[n + m + i] =~= add);
    assert(t[m + i] =~= del);
}

} // verus!
