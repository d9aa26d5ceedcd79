//! What the routing rules on Linux say, and in which order.
use vstd::prelude::*;
use crate::inbound::tun::linux;
use crate::inbound::tun::route;
use crate::inbound::tun::route::TunInboundConfig;
use crate::net;
use crate::net::IpAddr;
use crate::text;

verus! {

/// The command that adds a rule of a priority to a family.
pub open spec fn rule_words(v6: bool, prio: int, tail: Seq<Seq<char>>) -> Seq<Seq<char>> {
    (if v6 {
        seq!["ip"@, "-6"@]
    } else {
        seq!["ip"@]
    }) + (seq!["rule"@, "add"@, "priority"@, text::decimal(prio as nat)] + tail)
}

/// Whether commands add a rule of a priority from `lo` on and before `hi`.
#[verifier::opaque]
pub open spec fn has_rule(
    commands: Seq<Seq<Seq<char>>>,
    v6: bool,
    lo: int,
    hi: int,
    tail: Seq<Seq<char>>,
) -> bool {
    exists|n: int| lo <= n < hi && #[trigger] commands.contains(rule_words(v6, n, tail))
}

/// The network of an address with a prefix length, as text: the bits behind the
/// prefix are zero.
pub open spec fn network(a: (IpAddr, u8)) -> Seq<char> {
    net::ip_text(
        match a.0 {
            IpAddr::V4(v) => {
                let size = vstd::arithmetic::power2::pow2((32 - a.1) as nat);
                IpAddr::V4(((v as nat / size) * size) as u32)
            },
            IpAddr::V6(v) => {
                let size = vstd::arithmetic::power2::pow2((128 - a.1) as nat);
                IpAddr::V6(((v as nat / size) * size) as u128)
            },
        },
    ) + seq!['/'] + text::decimal(a.1 as nat)
}

/// The addresses of a family.
pub open spec fn addresses(cfg: TunInboundConfig, v6: bool) -> Seq<(IpAddr, u8)> {
    route::addresses_of(route::texts(cfg.address@), !v6)
}

/// Whether commands lead the traffic of a family into the device as they should.
/// Rules of lower priorities come first. Before `a1`: whoever is left out goes
/// to the anchor. Before `a2`: interfaces that are taken in are led into the
/// table, and all others to the anchor; or those that are left out to the anchor.
/// Before `a3`: the device's own networks are led into the table. Then what has a
/// route of its own is led there, what comes from the device goes to the anchor,
/// and all that is left is led into the table.
pub open spec fn leads_into_device(
    commands: Seq<Seq<Seq<char>>>,
    cfg: TunInboundConfig,
    if_name: Seq<char>,
    v6: bool,
    a1: int,
    a2: int,
    a3: int,
) -> bool {
    let base = cfg.iproute2_rule_index as int;
    let table = text::decimal(cfg.iproute2_table_index as nat);
    let anchor = text::decimal((base + 100) as nat);
    let ranges = linux::excluded_ranges(cfg.include_uid@, cfg.exclude_uid@);
    let taken = cfg.include_interface@;
    let left = cfg.exclude_interface@;
    let own = addresses(cfg, v6);
    &&& base <= a1 <= a2 <= a3
    &&& forall|i: int|
        0 <= i < ranges.len() ==> has_rule(
            commands,
            v6,
            base,
            a1,
            seq![
                "uidrange"@,
                text::decimal((#[trigger] ranges[i]).0 as nat) + seq!['-'] + text::decimal(
                    ranges[i].1 as nat,
                ),
                "goto"@,
                anchor,
            ],
        )
    &&& taken.len() > 0 ==> {
        &&& forall|i: int|
            0 <= i < taken.len() ==> has_rule(
                commands,
                v6,
                a1,
                a2 - 1,
                seq!["iif"@, (#[trigger] taken[i])@, "lookup"@, table],
            )
        &&& commands.contains(rule_words(v6, a2 - 1, seq!["goto"@, anchor]))
    }
    &&& taken.len() == 0 ==> forall|i: int|
        0 <= i < left.len() ==> has_rule(
            commands,
            v6,
            a1,
            a2,
            seq!["iif"@, (#[trigger] left[i])@, "goto"@, anchor],
        )
    &&& forall|i: int|
        0 <= i < own.len() ==> has_rule(
            commands,
            v6,
            a2,
            a3,
            seq!["to"@, network(#[trigger] own[i]), "lookup"@, table],
        )
    &&& commands.contains(
        rule_words(
            v6,
            a3,
            seq!["not"@, "iif"@, "lo"@, "lookup"@, table, "suppress_prefixlength"@, "0"@],
        ),
    )
    &&& commands.contains(rule_words(v6, a3 + 1, seq!["iif"@, if_name, "goto"@, anchor]))
    &&& commands.contains(rule_words(v6, a3 + 2, seq!["not"@, "iif"@, "lo"@, "lookup"@, table]))
    &&& forall|i: int|
        0 <= i < own.len() ==> has_rule(
            commands,
            v6,
            a3 + 3,
            a3 + 3 + own.len(),
            seq!["iif"@, "lo"@, "from"@, network(#[trigger] own[i]), "lookup"@, table],
        )
    &&& commands.contains(rule_words(v6, base + 100, Seq::empty()))
}

/// The next free priority of a family.
spec fn next(p: linux::RulePlan, v6: bool) -> int {
    if v6 {
        p.p6
    } else {
        p.p4
    }
}

/// Whether a plan holds all commands of another.
#[verifier::opaque]
spec fn grows(p: linux::RulePlan, q: linux::RulePlan) -> bool {
    forall|c: Seq<Seq<char>>| p.commands.contains(c) ==> #[trigger] q.commands.contains(c)
}

proof fn lemma_push(a: Seq<Seq<Seq<char>>>, c: Seq<Seq<char>>)
    ensures
        a.push(c).contains(c),
        forall|x: Seq<Seq<char>>| a.contains(x) ==> #[trigger] a.push(c).contains(x),
{
    assert(a.push(c)[a.len() as int] == c);
    assert forall|x: Seq<Seq<char>>| a.contains(x) implies #[trigger] a.push(c).contains(x) by {
        let i = choose|i: int| 0 <= i < a.len() && a[i] == x;
        assert(a.push(c)[i] == x);
    }
}

proof fn lemma_command(p: linux::RulePlan, c: Seq<Seq<char>>)
    ensures
        grows(p, linux::with_command(p, c)),
        linux::with_command(p, c).commands.contains(c),
{
    reveal(grows);
    lemma_push(p.commands, c);
}

proof fn lemma_rule(p: linux::RulePlan, v6: bool, tail: Seq<Seq<char>>)
    ensures
        ({
            let q = linux::with_rule(p, v6, tail);
            &&& grows(p, q)
            &&& q.commands.contains(rule_words(v6, next(p, v6), tail))
            &&& next(q, v6) == next(p, v6) + 1
            &&& next(q, !v6) == next(p, !v6)
        }),
{
    reveal(grows);
    lemma_push(p.commands, rule_words(v6, next(p, v6), tail));
}

proof fn lemma_rules(p: linux::RulePlan, has4: bool, has6: bool, tail: Seq<Seq<char>>, v6: bool)
    ensures
        ({
            let q = linux::with_rules(p, has4, has6, tail);
            let used = if v6 {
                has6
            } else {
                has4
            };
            &&& grows(p, q)
            &&& used ==> q.commands.contains(rule_words(v6, next(p, v6), tail)) && next(q, v6)
                == next(p, v6) + 1
            &&& !used ==> next(q, v6) == next(p, v6)
        }),
{
    reveal(grows);
    let a = if has4 {
        linux::with_rule(p, false, tail)
    } else {
        p
    };
    lemma_rule(p, false, tail);
    lemma_rule(a, true, tail);
}

proof fn lemma_uid_rules(
    p: linux::RulePlan,
    has4: bool,
    has6: bool,
    ranges: Seq<(u32, u32)>,
    anchor: Seq<char>,
    v6: bool,
)
    requires
        if v6 {
            has6
        } else {
            has4
        },
    ensures
        ({
            let q = linux::with_uid_rules(p, has4, has6, ranges, anchor);
            &&& grows(p, q)
            &&& next(q, v6) == next(p, v6) + ranges.len()
            &&& forall|i: int|
                0 <= i < ranges.len() ==> has_rule(
                    q.commands,
                    v6,
                    next(p, v6),
                    next(q, v6),
                    seq!["uidrange"@, linux::range_text(#[trigger] ranges[i]), "goto"@, anchor],
                )
        }),
    decreases ranges.len(),
{
    reveal(grows);
    reveal(has_rule);
    if ranges.len() > 0 {
        let r = linux::with_uid_rules(p, has4, has6, ranges.drop_last(), anchor);
        let q = linux::with_uid_rules(p, has4, has6, ranges, anchor);
        let tail = seq!["uidrange"@, linux::range_text(ranges.last()), "goto"@, anchor];
        lemma_uid_rules(p, has4, has6, ranges.drop_last(), anchor, v6);
        lemma_rules(r, has4, has6, tail, v6);
        assert forall|i: int| 0 <= i < ranges.len() implies has_rule(
            q.commands,
            v6,
            next(p, v6),
            next(q, v6),
            seq!["uidrange"@, linux::range_text(#[trigger] ranges[i]), "goto"@, anchor],
        ) by {
            let t = seq!["uidrange"@, linux::range_text(ranges[i]), "goto"@, anchor];
            if i < ranges.len() - 1 {
                assert(ranges.drop_last()[i] == ranges[i]);
                let n = choose|n: int|
                    next(p, v6) <= n < next(r, v6) && #[trigger] r.commands.contains(
                        rule_words(v6, n, t),
                    );
                assert(q.commands.contains(rule_words(v6, n, t)));
            } else {
                assert(q.commands.contains(rule_words(v6, next(r, v6), t)));
            }
        }
    }
}

proof fn lemma_interface_rules(
    p: linux::RulePlan,
    has4: bool,
    has6: bool,
    interfaces: Seq<Seq<char>>,
    action: Seq<char>,
    target: Seq<char>,
    v6: bool,
)
    requires
        if v6 {
            has6
        } else {
            has4
        },
    ensures
        ({
            let q = linux::with_interface_rules(p, has4, has6, interfaces, action, target);
            &&& grows(p, q)
            &&& next(q, v6) == next(p, v6) + interfaces.len()
            &&& forall|i: int|
                0 <= i < interfaces.len() ==> has_rule(
                    q.commands,
                    v6,
                    next(p, v6),
                    next(q, v6),
                    seq!["iif"@, #[trigger] interfaces[i], action, target],
                )
        }),
    decreases interfaces.len(),
{
    reveal(grows);
    reveal(has_rule);
    if interfaces.len() > 0 {
        let r = linux::with_interface_rules(
            p,
            has4,
            has6,
            interfaces.drop_last(),
            action,
            target,
        );
        let q = linux::with_interface_rules(p, has4, has6, interfaces, action, target);
        let tail = seq!["iif"@, interfaces.last(), action, target];
        lemma_interface_rules(p, has4, has6, interfaces.drop_last(), action, target, v6);
        lemma_rules(r, has4, has6, tail, v6);
        assert forall|i: int| 0 <= i < interfaces.len() implies has_rule(
            q.commands,
            v6,
            next(p, v6),
            next(q, v6),
            seq!["iif"@, #[trigger] interfaces[i], action, target],
        ) by {
            let t = seq!["iif"@, interfaces[i], action, target];
            if i < interfaces.len() - 1 {
                assert(interfaces.drop_last()[i] == interfaces[i]);
                let n = choose|n: int|
                    next(p, v6) <= n < next(r, v6) && #[trigger] r.commands.contains(
                        rule_words(v6, n, t),
                    );
                assert(q.commands.contains(rule_words(v6, n, t)));
            } else {
                assert(q.commands.contains(rule_words(v6, next(r, v6), t)));
            }
        }
    }
}

proof fn lemma_network(a: (IpAddr, u8))
    requires
        a.0 is V4 ==> a.1 <= 32,
        a.0 is V6 ==> a.1 <= 128,
    ensures
        network(a) == linux::network_text(a),
{
    let bits = if a.0 is V4 {
        (32 - a.1) as nat
    } else {
        (128 - a.1) as nat
    };
    let size = vstd::arithmetic::power2::pow2(bits) as int;
    vstd::arithmetic::power2::lemma_pow2_pos(bits);
    let v = match a.0 {
        IpAddr::V4(v) => v as int,
        IpAddr::V6(v) => v as int,
    };
    vstd::arithmetic::div_mod::lemma_fundamental_div_mod(v, size);
    assert(size * (v / size) == (v / size) * size) by (nonlinear_arith);
}

proof fn lemma_network_rules(
    p: linux::RulePlan,
    family: bool,
    networks: Seq<(IpAddr, u8)>,
    selector: Seq<Seq<char>>,
    table: Seq<char>,
    v6: bool,
)
    requires
        forall|i: int|
            0 <= i < networks.len() ==> ((#[trigger] networks[i]).0 is V4 ==> networks[i].1 <= 32)
                && (networks[i].0 is V6 ==> networks[i].1 <= 128),
    ensures
        ({
            let q = linux::with_network_rules(p, family, networks, selector, table);
            &&& grows(p, q)
            &&& family == v6 ==> next(q, v6) == next(p, v6) + networks.len()
            &&& family != v6 ==> next(q, v6) == next(p, v6)
            &&& family == v6 ==> forall|i: int|
                0 <= i < networks.len() ==> has_rule(
                    q.commands,
                    v6,
                    next(p, v6),
                    next(q, v6),
                    selector + seq![network(#[trigger] networks[i]), "lookup"@, table],
                )
        }),
    decreases networks.len(),
{
    reveal(grows);
    reveal(has_rule);
    if networks.len() > 0 {
        let r = linux::with_network_rules(p, family, networks.drop_last(), selector, table);
        let q = linux::with_network_rules(p, family, networks, selector, table);
        let tail = selector + seq![linux::network_text(networks.last()), "lookup"@, table];
        assert forall|i: int| 0 <= i < networks.drop_last().len() implies ((
        #[trigger] networks.drop_last()[i]).0 is V4 ==> networks.drop_last()[i].1 <= 32) && (
        networks.drop_last()[i].0 is V6 ==> networks.drop_last()[i].1 <= 128) by {
            assert(networks.drop_last()[i] == networks[i]);
        }
        lemma_network_rules(p, family, networks.drop_last(), selector, table, v6);
        lemma_rule(r, family, tail);
        if family == v6 {
            assert forall|i: int| 0 <= i < networks.len() implies has_rule(
                q.commands,
                v6,
                next(p, v6),
                next(q, v6),
                selector + seq![network(#[trigger] networks[i]), "lookup"@, table],
            ) by {
                let t = selector + seq![network(networks[i]), "lookup"@, table];
                lemma_network(networks[i]);
                if i < networks.len() - 1 {
                    assert(networks.drop_last()[i] == networks[i]);
                    let n = choose|n: int|
                        next(p, v6) <= n < next(r, v6) && #[trigger] r.commands.contains(
                            rule_words(v6, n, t),
                        );
                    assert(q.commands.contains(rule_words(v6, n, t)));
                } else {
                    assert(networks[i] == networks.last());
                    assert(q.commands.contains(rule_words(v6, next(r, v6), t)));
                }
            }
        }
    }
}

/// A rule that one plan has, every larger one has.
proof fn lemma_kept(
    p: linux::RulePlan,
    q: linux::RulePlan,
    v6: bool,
    lo: int,
    hi: int,
    tail: Seq<Seq<char>>,
)
    requires
        grows(p, q),
        has_rule(p.commands, v6, lo, hi, tail),
    ensures
        has_rule(q.commands, v6, lo, hi, tail),
{
    reveal(grows);
    reveal(has_rule);
    let n = choose|n: int| lo <= n < hi && #[trigger] p.commands.contains(rule_words(v6, n, tail));
    assert(q.commands.contains(rule_words(v6, n, tail)));
}

proof fn lemma_larger(a: linux::RulePlan, b: linux::RulePlan, c: linux::RulePlan)
    requires
        grows(a, b),
        grows(b, c),
    ensures
        grows(a, c),
{
    reveal(grows);
}

proof fn lemma_same(a: linux::RulePlan)
    ensures
        grows(a, a),
{
    reveal(grows);
}

proof fn lemma_still(a: linux::RulePlan, b: linux::RulePlan, c: Seq<Seq<char>>)
    requires
        grows(a, b),
        a.commands.contains(c),
    ensures
        b.commands.contains(c),
{
    reveal(grows);
}

/// The rules for interfaces.
proof fn lemma_all_interfaces(
    p: linux::RulePlan,
    cfg: TunInboundConfig,
    has4: bool,
    has6: bool,
    table: Seq<char>,
    anchor: Seq<char>,
    v6: bool,
)
    requires
        if v6 {
            has6
        } else {
            has4
        },
    ensures
        ({
            let q = linux::with_all_interfaces(p, cfg, has4, has6, table, anchor);
            let taken = route::texts(cfg.include_interface@);
            let left = route::texts(cfg.exclude_interface@);
            let a1 = next(p, v6);
            let a2 = next(q, v6);
            &&& grows(p, q)
            &&& a1 <= a2
            &&& taken.len() > 0 ==> {
                &&& forall|i: int|
                    0 <= i < taken.len() ==> has_rule(
                        q.commands,
                        v6,
                        a1,
                        a2 - 1,
                        seq!["iif"@, #[trigger] taken[i], "lookup"@, table],
                    )
                &&& q.commands.contains(rule_words(v6, a2 - 1, seq!["goto"@, anchor]))
            }
            &&& taken.len() == 0 ==> forall|i: int|
                0 <= i < left.len() ==> has_rule(
                    q.commands,
                    v6,
                    a1,
                    a2,
                    seq!["iif"@, #[trigger] left[i], "goto"@, anchor],
                )
        }),
{
    let q = linux::with_all_interfaces(p, cfg, has4, has6, table, anchor);
    let taken = route::texts(cfg.include_interface@);
    let left = route::texts(cfg.exclude_interface@);
    if taken.len() > 0 {
        let m = linux::with_interface_rules(p, has4, has6, taken, "lookup"@, table);
        lemma_interface_rules(p, has4, has6, taken, "lookup"@, table, v6);
        lemma_rules(m, has4, has6, seq!["goto"@, anchor], v6);
        lemma_larger(p, m, q);
        assert forall|i: int| 0 <= i < taken.len() implies has_rule(
            q.commands,
            v6,
            next(p, v6),
            next(q, v6) - 1,
            seq!["iif"@, #[trigger] taken[i], "lookup"@, table],
        ) by {
            lemma_kept(
                m,
                q,
                v6,
                next(p, v6),
                next(m, v6),
                seq!["iif"@, taken[i], "lookup"@, table],
            );
        }
    } else {
        lemma_interface_rules(p, has4, has6, left, "goto"@, anchor, v6);
    }
}

/// The rules for the device's own networks, behind those for families that are
/// not in use.
spec fn with_own_networks(p: linux::RulePlan, cfg: TunInboundConfig, table: Seq<char>) -> linux::RulePlan {
    let inet4 = addresses(cfg, false);
    let inet6 = addresses(cfg, true);
    let s5 = if cfg.strict_route {
        linux::with_rules(
            p,
            !(inet4.len() > 0),
            !(inet6.len() > 0),
            seq!["type"@, "unreachable"@],
        )
    } else {
        p
    };
    let s6 = linux::with_network_rules(s5, false, inet4, seq!["to"@], table);
    linux::with_network_rules(s6, true, inet6, seq!["to"@], table)
}

proof fn lemma_own_networks(
    p: linux::RulePlan,
    cfg: TunInboundConfig,
    table: Seq<char>,
    v6: bool,
)
    requires
        addresses(cfg, v6).len() > 0,
    ensures
        ({
            let q = with_own_networks(p, cfg, table);
            let own = addresses(cfg, v6);
            &&& grows(p, q)
            &&& next(p, v6) <= next(q, v6)
            &&& forall|i: int|
                0 <= i < own.len() ==> has_rule(
                    q.commands,
                    v6,
                    next(p, v6),
                    next(q, v6),
                    seq!["to"@] + seq![network(#[trigger] own[i]), "lookup"@, table],
                )
        }),
{
    let inet4 = addresses(cfg, false);
    let inet6 = addresses(cfg, true);
    let has4 = inet4.len() > 0;
    let has6 = inet6.len() > 0;
    let t5 = seq!["type"@, "unreachable"@];
    let s5 = if cfg.strict_route {
        linux::with_rules(p, !has4, !has6, t5)
    } else {
        p
    };
    route::lemma_addresses(route::texts(cfg.address@), true);
    route::lemma_addresses(route::texts(cfg.address@), false);
    lemma_rules(p, !has4, !has6, t5, v6);
    lemma_same(p);
    let s6 = linux::with_network_rules(s5, false, inet4, seq!["to"@], table);
    lemma_network_rules(s5, false, inet4, seq!["to"@], table, v6);
    let s7 = linux::with_network_rules(s6, true, inet6, seq!["to"@], table);
    lemma_network_rules(s6, true, inet6, seq!["to"@], table, v6);
    lemma_larger(p, s5, s6);
    lemma_larger(p, s6, s7);
    let own = addresses(cfg, v6);
    if !v6 {
        assert forall|i: int| 0 <= i < own.len() implies has_rule(
            s7.commands,
            v6,
            next(p, v6),
            next(s7, v6),
            seq!["to"@] + seq![network(#[trigger] own[i]), "lookup"@, table],
        ) by {
            lemma_kept(
                s6,
                s7,
                v6,
                next(s5, v6),
                next(s6, v6),
                seq!["to"@] + seq![network(own[i]), "lookup"@, table],
            );
        }
    }
}

/// The rules that come last, for one family.
spec fn with_last_rules(
    p: linux::RulePlan,
    family: bool,
    own: Seq<(IpAddr, u8)>,
    table: Seq<char>,
) -> linux::RulePlan {
    if own.len() > 0 {
        linux::with_network_rules(
            linux::with_rule(p, family, seq!["not"@, "iif"@, "lo"@, "lookup"@, table]),
            family,
            own,
            seq!["iif"@, "lo"@, "from"@],
            table,
        )
    } else {
        p
    }
}

proof fn lemma_last_rules(
    p: linux::RulePlan,
    cfg: TunInboundConfig,
    family: bool,
    table: Seq<char>,
    v6: bool,
)
    ensures
        ({
            let own = addresses(cfg, family);
            let q = with_last_rules(p, family, own, table);
            let a = next(p, v6);
            &&& grows(p, q)
            &&& family != v6 ==> next(q, v6) == a
            &&& family == v6 && own.len() > 0 ==> {
                &&& next(q, v6) == a + 1 + own.len()
                &&& q.commands.contains(
                    rule_words(v6, a, seq!["not"@, "iif"@, "lo"@, "lookup"@, table]),
                )
                &&& forall|i: int|
                    0 <= i < own.len() ==> has_rule(
                        q.commands,
                        v6,
                        a + 1,
                        a + 1 + own.len(),
                        seq!["iif"@, "lo"@, "from"@] + seq![
                            network(#[trigger] own[i]),
                            "lookup"@,
                            table,
                        ],
                    )
            }
        }),
{
    let own = addresses(cfg, family);
    let t = seq!["not"@, "iif"@, "lo"@, "lookup"@, table];
    let r = linux::with_rule(p, family, t);
    let q = with_last_rules(p, family, own, table);
    route::lemma_addresses(route::texts(cfg.address@), true);
    route::lemma_addresses(route::texts(cfg.address@), false);
    lemma_same(p);
    lemma_rule(p, family, t);
    if own.len() > 0 {
        lemma_network_rules(r, family, own, seq!["iif"@, "lo"@, "from"@], table, v6);
        lemma_larger(p, r, q);
        if family == v6 {
            lemma_still(r, q, rule_words(v6, next(p, v6), t));
        }
    }
}

/// The anchors.
proof fn lemma_anchors(p: linux::RulePlan, has4: bool, has6: bool, base: int, v6: bool)
    requires
        if v6 {
            has6
        } else {
            has4
        },
    ensures
        ({
            let a = if has4 {
                linux::with_command(p, linux::anchor_words(false, base))
            } else {
                p
            };
            let q = if has6 {
                linux::with_command(a, linux::anchor_words(true, base))
            } else {
                a
            };
            grows(p, q) && q.commands.contains(rule_words(v6, base + 100, Seq::empty()))
        }),
{
    let c4 = linux::anchor_words(false, base);
    let c6 = linux::anchor_words(true, base);
    let a = if has4 {
        linux::with_command(p, c4)
    } else {
        p
    };
    let q = if has6 {
        linux::with_command(a, c6)
    } else {
        a
    };
    lemma_same(p);
    lemma_same(a);
    lemma_command(p, c4);
    lemma_command(a, c6);
    lemma_larger(p, a, q);
    assert(c4 =~= rule_words(false, base + 100, Seq::empty()));
    assert(c6 =~= rule_words(true, base + 100, Seq::empty()));
    if !v6 {
        lemma_still(a, q, c4);
    }
}

/// The plan step by step.
proof fn lemma_steps(cfg: TunInboundConfig, if_name: Seq<char>)
    ensures
        ({
            let base = cfg.iproute2_rule_index as int;
            let table = text::decimal(cfg.iproute2_table_index as nat);
            let anchor = text::decimal((base + 100) as nat);
            let has4 = addresses(cfg, false).len() > 0;
            let has6 = addresses(cfg, true).len() > 0;
            let s2 = linux::prepared(cfg, if_name);
            let s3 = linux::with_uid_rules(
                s2,
                has4,
                has6,
                linux::excluded_ranges(cfg.include_uid@, cfg.exclude_uid@),
                anchor,
            );
            let s4 = linux::with_all_interfaces(s3, cfg, has4, has6, table, anchor);
            let s7 = with_own_networks(s4, cfg, table);
            let s8 = linux::with_rules(
                s7,
                has4,
                has6,
                seq!["not"@, "iif"@, "lo"@, "lookup"@, table, "suppress_prefixlength"@, "0"@],
            );
            let s9 = linux::with_rules(s8, has4, has6, seq!["iif"@, if_name, "goto"@, anchor]);
            let s10 = with_last_rules(s9, false, addresses(cfg, false), table);
            let s11 = with_last_rules(s10, true, addresses(cfg, true), table);
            &&& s2.p4 == base
            &&& s2.p6 == base
            &&& linux::rules_before_anchor(cfg, if_name) == s11
        }),
{
}

/// Every family with an address is led into the device, and the rules come in the
/// right order.
pub proof fn law_traffic_is_led_into_device(cfg: TunInboundConfig, if_name: Seq<char>, v6: bool)
    requires
        addresses(cfg, v6).len() > 0,
    ensures
        exists|a1: int, a2: int, a3: int| #[trigger]
            leads_into_device(
                linux::linux_setup(cfg, if_name).commands,
                cfg,
                if_name,
                v6,
                a1,
                a2,
                a3,
            ),
{
    let base = cfg.iproute2_rule_index as int;
    let table = text::decimal(cfg.iproute2_table_index as nat);
    let anchor = text::decimal((base + 100) as nat);
    let ranges = linux::excluded_ranges(cfg.include_uid@, cfg.exclude_uid@);
    let has4 = addresses(cfg, false).len() > 0;
    let has6 = addresses(cfg, true).len() > 0;
    let t8 = seq!["not"@, "iif"@, "lo"@, "lookup"@, table, "suppress_prefixlength"@, "0"@];
    let t9 = seq!["iif"@, if_name, "goto"@, anchor];
    let s2 = linux::prepared(cfg, if_name);
    let s3 = linux::with_uid_rules(s2, has4, has6, ranges, anchor);
    let s4 = linux::with_all_interfaces(s3, cfg, has4, has6, table, anchor);
    let s7 = with_own_networks(s4, cfg, table);
    let s8 = linux::with_rules(s7, has4, has6, t8);
    let s9 = linux::with_rules(s8, has4, has6, t9);
    let s10 = with_last_rules(s9, false, addresses(cfg, false), table);
    let s11 = with_last_rules(s10, true, addresses(cfg, true), table);
    let end = linux::linux_setup(cfg, if_name);
    lemma_steps(cfg, if_name);
    lemma_uid_rules(s2, has4, has6, ranges, anchor, v6);
    lemma_all_interfaces(s3, cfg, has4, has6, table, anchor, v6);
    lemma_own_networks(s4, cfg, table, v6);
    lemma_rules(s7, has4, has6, t8, v6);
    lemma_rules(s8, has4, has6, t9, v6);
    lemma_last_rules(s9, cfg, false, table, v6);
    lemma_last_rules(s10, cfg, true, table, v6);
    lemma_anchors(s11, has4, has6, base, v6);
    lemma_larger(s10, s11, end);
    lemma_larger(s9, s10, end);
    lemma_larger(s8, s9, end);
    lemma_larger(s7, s8, end);
    lemma_larger(s4, s7, end);
    lemma_larger(s3, s4, end);
    let last = if v6 {
        s11
    } else {
        s10
    };
    lemma_collected(cfg, if_name, v6, s3, s4, s7, s8, s9, last, end);
}

/// What the steps have comes together in the plan.
proof fn lemma_collected(
    cfg: TunInboundConfig,
    if_name: Seq<char>,
    v6: bool,
    s3: linux::RulePlan,
    s4: linux::RulePlan,
    s7: linux::RulePlan,
    s8: linux::RulePlan,
    s9: linux::RulePlan,
    last: linux::RulePlan,
    end: linux::RulePlan,
)
    requires
        grows(s3, end),
        grows(s4, end),
        grows(s7, end),
        grows(s8, end),
        grows(s9, end),
        grows(last, end),
        ({
            let base = cfg.iproute2_rule_index as int;
            let table = text::decimal(cfg.iproute2_table_index as nat);
            let anchor = text::decimal((base + 100) as nat);
            let ranges = linux::excluded_ranges(cfg.include_uid@, cfg.exclude_uid@);
            let taken = route::texts(cfg.include_interface@);
            let left = route::texts(cfg.exclude_interface@);
            let own = addresses(cfg, v6);
            let a1 = next(s3, v6);
            let a2 = next(s4, v6);
            let a3 = next(s7, v6);
            &&& base <= a1 <= a2 <= a3
            &&& forall|i: int|
                0 <= i < ranges.len() ==> has_rule(
                    s3.commands,
                    v6,
                    base,
                    a1,
                    seq!["uidrange"@, linux::range_text(#[trigger] ranges[i]), "goto"@, anchor],
                )
            &&& taken.len() > 0 ==> {
                &&& forall|i: int|
                    0 <= i < taken.len() ==> has_rule(
                        s4.commands,
                        v6,
                        a1,
                        a2 - 1,
                        seq!["iif"@, #[trigger] taken[i], "lookup"@, table],
                    )
                &&& s4.commands.contains(rule_words(v6, a2 - 1, seq!["goto"@, anchor]))
            }
            &&& taken.len() == 0 ==> forall|i: int|
                0 <= i < left.len() ==> has_rule(
                    s4.commands,
                    v6,
                    a1,
                    a2,
                    seq!["iif"@, #[trigger] left[i], "goto"@, anchor],
                )
            &&& forall|i: int|
                0 <= i < own.len() ==> has_rule(
                    s7.commands,
                    v6,
                    a2,
                    a3,
                    seq!["to"@] + seq![network(#[trigger] own[i]), "lookup"@, table],
                )
            &&& s8.commands.contains(
                rule_words(
                    v6,
                    a3,
                    seq!["not"@, "iif"@, "lo"@, "lookup"@, table, "suppress_prefixlength"@, "0"@],
                ),
            )
            &&& s9.commands.contains(
                rule_words(v6, a3 + 1, seq!["iif"@, if_name, "goto"@, anchor]),
            )
            &&& last.commands.contains(
                rule_words(v6, a3 + 2, seq!["not"@, "iif"@, "lo"@, "lookup"@, table]),
            )
            &&& forall|i: int|
                0 <= i < own.len() ==> has_rule(
                    last.commands,
                    v6,
                    a3 + 3,
                    a3 + 3 + own.len(),
                    seq!["iif"@, "lo"@, "from"@] + seq![
                        network(#[trigger] own[i]),
                        "lookup"@,
                        table,
                    ],
                )
            &&& end.commands.contains(rule_words(v6, base + 100, Seq::empty()))
        }),
    ensures
        leads_into_device(
            end.commands,
            cfg,
            if_name,
            v6,
            next(s3, v6),
            next(s4, v6),
            next(s7, v6),
        ),
{
    let base = cfg.iproute2_rule_index as int;
    let table = text::decimal(cfg.iproute2_table_index as nat);
    let anchor = text::decimal((base + 100) as nat);
    let ranges = linux::excluded_ranges(cfg.include_uid@, cfg.exclude_uid@);
    let taken = route::texts(cfg.include_interface@);
    let left = route::texts(cfg.exclude_interface@);
    let own = addresses(cfg, v6);
    let a1 = next(s3, v6);
    let a2 = next(s4, v6);
    let a3 = next(s7, v6);
    let c = end.commands;
    assert forall|i: int| 0 <= i < ranges.len() implies has_rule(
        c,
        v6,
        base,
        a1,
        seq![
            "uidrange"@,
            text::decimal((#[trigger] ranges[i]).0 as nat) + seq!['-'] + text::decimal(
                ranges[i].1 as nat,
            ),
            "goto"@,
            anchor,
        ],
    ) by {
        lemma_kept(
            s3,
            end,
            v6,
            base,
            a1,
            seq!["uidrange"@, linux::range_text(ranges[i]), "goto"@, anchor],
        );
    }
    if taken.len() > 0 {
        assert forall|i: int| 0 <= i < cfg.include_interface@.len() implies has_rule(
            c,
            v6,
            a1,
            a2 - 1,
            seq!["iif"@, (#[trigger] cfg.include_interface@[i])@, "lookup"@, table],
        ) by {
            assert(taken[i] == cfg.include_interface@[i]@);
            lemma_kept(s4, end, v6, a1, a2 - 1, seq!["iif"@, taken[i], "lookup"@, table]);
        }
        lemma_still(s4, end, rule_words(v6, a2 - 1, seq!["goto"@, anchor]));
    } else {
        assert forall|i: int| 0 <= i < cfg.exclude_interface@.len() implies has_rule(
            c,
            v6,
            a1,
            a2,
            seq!["iif"@, (#[trigger] cfg.exclude_interface@[i])@, "goto"@, anchor],
        ) by {
            assert(left[i] == cfg.exclude_interface@[i]@);
            lemma_kept(s4, end, v6, a1, a2, seq!["iif"@, left[i], "goto"@, anchor]);
        }
    }
    assert forall|i: int| 0 <= i < own.len() implies has_rule(
        c,
        v6,
        a2,
        a3,
        seq!["to"@, network(#[trigger] own[i]), "lookup"@, table],
    ) by {
        let t = seq!["to"@] + seq![network(own[i]), "lookup"@, table];
        assert(t =~= seq!["to"@, network(own[i]), "lookup"@, table]);
        lemma_kept(s7, end, v6, a2, a3, t);
    }
    lemma_still(
        s8,
        end,
        rule_words(
            v6,
            a3,
            seq!["not"@, "iif"@, "lo"@, "lookup"@, table, "suppress_prefixlength"@, "0"@],
        ),
    );
    lemma_still(s9, end, rule_words(v6, a3 + 1, seq!["iif"@, if_name, "goto"@, anchor]));
    lemma_still(
        last,
        end,
        rule_words(v6, a3 + 2, seq!["not"@, "iif"@, "lo"@, "lookup"@, table]),
    );
    assert forall|i: int| 0 <= i < own.len() implies has_rule(
        c,
        v6,
        a3 + 3,
        a3 + 3 + own.len(),
        seq!["iif"@, "lo"@, "from"@, network(#[trigger] own[i]), "lookup"@, table],
    ) by {
        let t = seq!["iif"@, "lo"@, "from"@] + seq![network(own[i]), "lookup"@, table];
        assert(t =~= seq!["iif"@, "lo"@, "from"@, network(own[i]), "lookup"@, table]);
        lemma_kept(last, end, v6, a3 + 3, a3 + 3 + own.len(), t);
    }
}

/// The device is brought up first, and each family with an address gets a default
/// route in the table, by way of the address after the device's own.
pub proof fn law_default_routes(cfg: TunInboundConfig, if_name: Seq<char>, v6: bool)
    requires
        addresses(cfg, v6).len() > 0,
    ensures
        ({
            let p = linux::prepared(cfg, if_name);
            &&& p.commands.len() > 0
            &&& p.commands[0] == seq!["ip"@, "link"@, "set"@, if_name, "up"@]
            &&& p.commands.contains(
                (if v6 {
                    seq!["ip"@, "-6"@]
                } else {
                    seq!["ip"@]
                }) + seq![
                    "route"@,
                    "add"@,
                    if v6 {
                        "::/0"@
                    } else {
                        "0.0.0.0/0"@
                    },
                    "via"@,
                    net::ip_text(route::next_address(addresses(cfg, v6)[0].0)),
                    "dev"@,
                    if_name,
                    "table"@,
                    text::decimal(cfg.iproute2_table_index as nat),
                ],
            )
        }),
{
    let p = linux::prepared(cfg, if_name);
    let table = text::decimal(cfg.iproute2_table_index as nat);
    let inet4 = addresses(cfg, false);
    let inet6 = addresses(cfg, true);
    assert(p.commands[0] =~= seq!["ip"@, "link"@, "set"@, if_name, "up"@]);
    if v6 {
        let c = linux::default_route(true, route::next_address(inet6[0].0), if_name, table);
        assert(p.commands.last() == c);
        assert(p.commands[p.commands.len() - 1] == c);
    } else {
        let c = linux::default_route(false, route::next_address(inet4[0].0), if_name, table);
        assert(p.commands[1] == c);
    }
}

/// The rule that closes a family.
pub open spec fn closing_rule(v6: bool, prio: int) -> Seq<Seq<char>> {
    rule_words(v6, prio, seq!["type"@, "unreachable"@])
}

/// With strict routing nothing goes past the device by way of a family that it has
/// no address of.
pub proof fn law_unused_family_is_closed(cfg: TunInboundConfig, if_name: Seq<char>, v6: bool)
    requires
        cfg.strict_route,
        addresses(cfg, v6).len() == 0,
        addresses(cfg, !v6).len() > 0,
    ensures
        exists|n: int| #[trigger]
            linux::linux_setup(cfg, if_name).commands.contains(closing_rule(v6, n)),
{
    let base = cfg.iproute2_rule_index as int;
    let table = text::decimal(cfg.iproute2_table_index as nat);
    let anchor = text::decimal((base + 100) as nat);
    let ranges = linux::excluded_ranges(cfg.include_uid@, cfg.exclude_uid@);
    let inet4 = addresses(cfg, false);
    let inet6 = addresses(cfg, true);
    let has4 = inet4.len() > 0;
    let has6 = inet6.len() > 0;
    let t5 = seq!["type"@, "unreachable"@];
    let t8 = seq!["not"@, "iif"@, "lo"@, "lookup"@, table, "suppress_prefixlength"@, "0"@];
    let t9 = seq!["iif"@, if_name, "goto"@, anchor];
    let s2 = linux::prepared(cfg, if_name);
    let s3 = linux::with_uid_rules(s2, has4, has6, ranges, anchor);
    let s4 = linux::with_all_interfaces(s3, cfg, has4, has6, table, anchor);
    let s5 = linux::with_rules(s4, !has4, !has6, t5);
    let s6 = linux::with_network_rules(s5, false, inet4, seq!["to"@], table);
    let s7 = linux::with_network_rules(s6, true, inet6, seq!["to"@], table);
    let s8 = linux::with_rules(s7, has4, has6, t8);
    let s9 = linux::with_rules(s8, has4, has6, t9);
    let s10 = with_last_rules(s9, false, inet4, table);
    let s11 = with_last_rules(s10, true, inet6, table);
    let end = linux::linux_setup(cfg, if_name);
    lemma_steps(cfg, if_name);
    route::lemma_addresses(route::texts(cfg.address@), true);
    route::lemma_addresses(route::texts(cfg.address@), false);
    lemma_rules(s4, !has4, !has6, t5, v6);
    lemma_network_rules(s5, false, inet4, seq!["to"@], table, v6);
    lemma_network_rules(s6, true, inet6, seq!["to"@], table, v6);
    lemma_rules(s7, has4, has6, t8, v6);
    lemma_rules(s8, has4, has6, t9, v6);
    lemma_last_rules(s9, cfg, false, table, v6);
    lemma_last_rules(s10, cfg, true, table, v6);
    lemma_anchors(s11, has4, has6, base, !v6);
    lemma_larger(s10, s11, end);
    lemma_larger(s9, s10, end);
    lemma_larger(s8, s9, end);
    lemma_larger(s7, s8, end);
    lemma_larger(s6, s7, end);
    lemma_larger(s5, s6, end);
    let c = rule_words(v6, next(s4, v6), t5);
    lemma_still(s5, end, c);
    assert(end.commands.contains(closing_rule(v6, next(s4, v6))));
}

} // verus!
