//! Route planning on Linux: the `ip` commands that lead traffic into the device,
//! and those that take routes and rules away again.
use vstd::prelude::*;
use crate::inbound::tun::route;
use crate::inbound::tun::route::{CommandLine, TunInboundConfig};
use crate::inbound::tun::uid;
use crate::net;
use crate::net::IpAddr;
use crate::text;

verus! {

/// Commands and the next free rule priority of either family.
#[verifier::ext_equal]
pub ghost struct RulePlan {
    pub commands: Seq<Seq<Seq<char>>>,
    pub p4: int,
    pub p6: int,
}

/// The `ip` command of a family.
pub open spec fn ip_command(v6: bool, tail: Seq<Seq<char>>) -> Seq<Seq<char>> {
    if v6 {
        seq!["ip"@, "-6"@] + tail
    } else {
        seq!["ip"@] + tail
    }
}

/// A plan with one more command.
pub open spec fn with_command(p: RulePlan, c: Seq<Seq<char>>) -> RulePlan {
    RulePlan { commands: p.commands.push(c), ..p }
}

/// A plan with one more rule, at the next priority of its family.
pub open spec fn with_rule(p: RulePlan, v6: bool, tail: Seq<Seq<char>>) -> RulePlan {
    let prio = text::decimal((if v6 {
        p.p6
    } else {
        p.p4
    }) as nat);
    RulePlan {
        commands: p.commands.push(
            ip_command(v6, seq!["rule"@, "add"@, "priority"@, prio] + tail),
        ),
        p4: if v6 {
            p.p4
        } else {
            p.p4 + 1
        },
        p6: if v6 {
            p.p6 + 1
        } else {
            p.p6
        },
    }
}

/// A plan with one more rule for each family in use.
pub open spec fn with_rules(p: RulePlan, has4: bool, has6: bool, tail: Seq<Seq<char>>) -> RulePlan {
    let p = if has4 {
        with_rule(p, false, tail)
    } else {
        p
    };
    if has6 {
        with_rule(p, true, tail)
    } else {
        p
    }
}

/// A range of user ids as text.
pub open spec fn range_text(r: (u32, u32)) -> Seq<char> {
    text::decimal(r.0 as nat) + seq!['-'] + text::decimal(r.1 as nat)
}

/// A plan with a rule past the others for each range of user ids.
pub open spec fn with_uid_rules(
    p: RulePlan,
    has4: bool,
    has6: bool,
    ranges: Seq<(u32, u32)>,
    anchor: Seq<char>,
) -> RulePlan
    decreases ranges.len(),
{
    if ranges.len() == 0 {
        p
    } else {
        with_rules(
            with_uid_rules(p, has4, has6, ranges.drop_last(), anchor),
            has4,
            has6,
            seq!["uidrange"@, range_text(ranges.last()), "goto"@, anchor],
        )
    }
}

/// A plan with a rule for each interface.
pub open spec fn with_interface_rules(
    p: RulePlan,
    has4: bool,
    has6: bool,
    interfaces: Seq<Seq<char>>,
    action: Seq<char>,
    target: Seq<char>,
) -> RulePlan
    decreases interfaces.len(),
{
    if interfaces.len() == 0 {
        p
    } else {
        with_rules(
            with_interface_rules(p, has4, has6, interfaces.drop_last(), action, target),
            has4,
            has6,
            seq!["iif"@, interfaces.last(), action, target],
        )
    }
}

/// The network of an address with a prefix length, as text.
pub open spec fn network_text(a: (IpAddr, u8)) -> Seq<char> {
    let network = match a.0 {
        IpAddr::V4(v) => IpAddr::V4(route::network_of(v as nat, (32 - a.1) as nat) as u32),
        IpAddr::V6(v) => IpAddr::V6(route::network_of(v as nat, (128 - a.1) as nat) as u128),
    };
    net::ip_text(network) + seq!['/'] + text::decimal(a.1 as nat)
}

/// A plan with a rule for each network of a family.
pub open spec fn with_network_rules(
    p: RulePlan,
    v6: bool,
    networks: Seq<(IpAddr, u8)>,
    selector: Seq<Seq<char>>,
    table: Seq<char>,
) -> RulePlan
    decreases networks.len(),
{
    if networks.len() == 0 {
        p
    } else {
        with_rule(
            with_network_rules(p, v6, networks.drop_last(), selector, table),
            v6,
            selector + seq![network_text(networks.last()), "lookup"@, table],
        )
    }
}

/// The default route of a family's table, by way of the address after the
/// device's own.
pub open spec fn default_route(
    v6: bool,
    gateway: IpAddr,
    if_name: Seq<char>,
    table: Seq<char>,
) -> Seq<Seq<char>> {
    ip_command(
        v6,
        seq![
            "route"@,
            "add"@,
            if v6 {
                "::/0"@
            } else {
                "0.0.0.0/0"@
            },
            "via"@,
            net::ip_text(gateway),
            "dev"@,
            if_name,
            "table"@,
            table,
        ],
    )
}

/// The user ids that the rules leave out, as the one merged list of ranges.
pub open spec fn excluded_ranges(take_in: Seq<u32>, leave_out: Seq<u32>) -> Seq<(u32, u32)> {
    choose|r: Seq<(u32, u32)>| #[trigger]
        uid::merged(r) && (forall|u: u32| #[trigger]
            uid::covers(r, u) <==> if take_in.len() > 0 {
                u <= uid::UID_MAX && !(take_in.contains(u) && !leave_out.contains(u))
            } else {
                leave_out.contains(u)
            })
}

/// The commands that come before the rules: the device is set up, and each family
/// in use gets its default route.
pub open spec fn prepared(cfg: TunInboundConfig, if_name: Seq<char>) -> RulePlan {
    let table = text::decimal(cfg.iproute2_table_index as nat);
    let base = cfg.iproute2_rule_index as int;
    let inet4 = route::addresses_of(route::texts(cfg.address@), true);
    let inet6 = route::addresses_of(route::texts(cfg.address@), false);
    let has4 = inet4.len() > 0;
    let has6 = inet6.len() > 0;
    let s0 = RulePlan {
        commands: seq![ip_command(false, seq!["link"@, "set"@, if_name, "up"@])],
        p4: base,
        p6: base,
    };
    let s1 = if has4 {
        with_command(s0, default_route(false, route::next_address(inet4[0].0), if_name, table))
    } else {
        s0
    };
    if has6 {
        with_command(s1, default_route(true, route::next_address(inet6[0].0), if_name, table))
    } else {
        s1
    }
}

/// A plan with the rules for interfaces: only those to be taken in, or all but
/// those to be left out.
pub open spec fn with_all_interfaces(
    p: RulePlan,
    cfg: TunInboundConfig,
    has4: bool,
    has6: bool,
    table: Seq<char>,
    anchor: Seq<char>,
) -> RulePlan {
    let taken = route::texts(cfg.include_interface@);
    let left = route::texts(cfg.exclude_interface@);
    if cfg.include_interface@.len() > 0 {
        with_rules(
            with_interface_rules(p, has4, has6, taken, "lookup"@, table),
            has4,
            has6,
            seq!["goto"@, anchor],
        )
    } else {
        with_interface_rules(p, has4, has6, left, "goto"@, anchor)
    }
}

/// The commands that lead traffic into the device on Linux, but for the anchors.
pub open spec fn rules_before_anchor(cfg: TunInboundConfig, if_name: Seq<char>) -> RulePlan {
    let table = text::decimal(cfg.iproute2_table_index as nat);
    let base = cfg.iproute2_rule_index as int;
    let anchor = text::decimal((base + ANCHOR_OFFSET) as nat);
    let inet4 = route::addresses_of(route::texts(cfg.address@), true);
    let inet6 = route::addresses_of(route::texts(cfg.address@), false);
    let has4 = inet4.len() > 0;
    let has6 = inet6.len() > 0;
    let s2 = prepared(cfg, if_name);
    let s3 = with_uid_rules(
        s2,
        has4,
        has6,
        excluded_ranges(cfg.include_uid@, cfg.exclude_uid@),
        anchor,
    );
    let s4 = with_all_interfaces(s3, cfg, has4, has6, table, anchor);
    let s5 = if cfg.strict_route {
        with_rules(s4, !has4, !has6, seq!["type"@, "unreachable"@])
    } else {
        s4
    };
    let s6 = with_network_rules(s5, false, inet4, seq!["to"@], table);
    let s7 = with_network_rules(s6, true, inet6, seq!["to"@], table);
    let s8 = with_rules(
        s7,
        has4,
        has6,
        seq!["not"@, "iif"@, "lo"@, "lookup"@, table, "suppress_prefixlength"@, "0"@],
    );
    let s9 = with_rules(s8, has4, has6, seq!["iif"@, if_name, "goto"@, anchor]);
    let s10 = if has4 {
        with_network_rules(
            with_rule(s9, false, seq!["not"@, "iif"@, "lo"@, "lookup"@, table]),
            false,
            inet4,
            seq!["iif"@, "lo"@, "from"@],
            table,
        )
    } else {
        s9
    };
    if has6 {
        with_network_rules(
            with_rule(s10, true, seq!["not"@, "iif"@, "lo"@, "lookup"@, table]),
            true,
            inet6,
            seq!["iif"@, "lo"@, "from"@],
            table,
        )
    } else {
        s10
    }
}

/// The commands that lead traffic into the device on Linux: an anchor for each
/// family in use comes last.
pub open spec fn linux_setup(cfg: TunInboundConfig, if_name: Seq<char>) -> RulePlan {
    let base = cfg.iproute2_rule_index as int;
    let s0 = rules_before_anchor(cfg, if_name);
    let s1 = if route::addresses_of(route::texts(cfg.address@), true).len() > 0 {
        with_command(s0, anchor_words(false, base))
    } else {
        s0
    };
    if route::addresses_of(route::texts(cfg.address@), false).len() > 0 {
        with_command(s1, anchor_words(true, base))
    } else {
        s1
    }
}

/// How far the anchor lies above the first priority.
pub const ANCHOR_OFFSET: u32 = 100;

/// Whether every rule of a plan comes before the anchor.
pub open spec fn fits(p: RulePlan, base: int) -> bool {
    p.p4 <= base + ANCHOR_OFFSET && p.p6 <= base + ANCHOR_OFFSET
}

/// The rule that others go to: it does nothing.
pub open spec fn anchor_words(v6: bool, base: int) -> Seq<Seq<char>> {
    ip_command(
        v6,
        seq!["rule"@, "add"@, "priority"@, text::decimal((base + ANCHOR_OFFSET) as nat)],
    )
}

/// The priority of the rule that a command adds to a family, if it adds one.
pub open spec fn rule_priority(c: Seq<Seq<char>>, v6: bool) -> Option<nat> {
    let start = ip_command(v6, seq!["rule"@, "add"@, "priority"@]);
    if c.len() > start.len() && c.take(start.len() as int) == start {
        text::unsigned_value(c[start.len() as int], u32::MAX as nat)
    } else {
        None
    }
}

/// Whether commands use priorities as they should: those of rules other than
/// the anchor lie from `base` on and before it, and within a family none is
/// used twice.
pub open spec fn priorities_apart(commands: Seq<Seq<Seq<char>>>, base: int) -> bool {
    &&& forall|v6: bool, i: int|
        0 <= i < commands.len() ==> (#[trigger] rule_priority(commands[i], v6) matches Some(p) ==> {
            if commands[i] == anchor_words(v6, base) {
                p == base + ANCHOR_OFFSET
            } else {
                base <= p < base + ANCHOR_OFFSET
            }
        })
    &&& forall|v6: bool, i: int, j: int|
        0 <= i < j < commands.len() && rule_priority(commands[i], v6) is Some && rule_priority(
            commands[j],
            v6,
        ) is Some ==> #[trigger] rule_priority(commands[i], v6) != #[trigger] rule_priority(
            commands[j],
            v6,
        )
}

/// The number of rules that a family needs, without its anchor.
pub open spec fn rules_needed(cfg: TunInboundConfig, v6: bool) -> nat {
    let n = route::addresses_of(route::texts(cfg.address@), !v6).len();
    if n > 0 {
        excluded_ranges(cfg.include_uid@, cfg.exclude_uid@).len() + (
        if cfg.include_interface@.len() > 0 {
            cfg.include_interface@.len() + 1
        } else {
            cfg.exclude_interface@.len()
        }) + 2 * n + 3
    } else if cfg.strict_route {
        1
    } else {
        0
    }
}

/// The file that remembers which priorities are in use.
pub open spec fn state_path(table_index: u32) -> Seq<char> {
    "/tmp/reflex-tun-"@ + text::decimal(table_index as nat) + ".state"@
}

/// What the file holds: the first unused priority of either family, and that
/// of the anchor.
pub open spec fn state_text(p4: nat, p6: nat, anchor: nat) -> Seq<char> {
    text::decimal(p4) + seq![' '] + text::decimal(p6) + seq![' '] + text::decimal(anchor)
}

/// Commands under construction.
struct Rules {
    commands: Vec<CommandLine>,
    p4: u32,
    p6: u32,
}

impl View for Rules {
    type V = RulePlan;

    closed spec fn view(&self) -> RulePlan {
        RulePlan {
            commands: route::command_words(self.commands@),
            p4: self.p4 as int,
            p6: self.p6 as int,
        }
    }
}

/// The start of an `ip` command of a family.
fn ip_start(v6: bool) -> (r: CommandLine)
    ensures
        forall|tail: Seq<Seq<char>>| #[trigger] (r@ + tail) == ip_command(v6, tail),
        r@ == ip_command(v6, Seq::empty()),
{
    if v6 {
        let r: CommandLine = CommandLine::new("ip").arg("-6");
        assert(r@ =~= seq!["ip"@, "-6"@]);
        assert(r@ =~= ip_command(true, Seq::empty()));
        r
    } else {
        let r: CommandLine = CommandLine::new("ip");
        assert(r@ =~= ip_command(false, Seq::empty()));
        r
    }
}

/// Arguments without a program.
fn no_words() -> (r: CommandLine)
    ensures
        r@ == Seq::<Seq<char>>::empty(),
{
    let r: CommandLine = CommandLine { words: Vec::new() };
    assert(r@ =~= Seq::<Seq<char>>::empty());
    r
}

/// The command with all of `tail` as further arguments.
fn with_words(c: CommandLine, tail: &CommandLine) -> (r: CommandLine)
    ensures
        r@ == c@ + tail@,
{
    let mut r: CommandLine = c;
    let mut i: usize = 0;
    assert(c@ + tail@.take(0) =~= c@);
    while i < tail.words.len()
        invariant
            i <= tail.words@.len(),
            r@ == c@ + tail@.take(i as int),
        decreases tail.words@.len() - i,
    {
        r = r.arg(tail.words[i].as_str());
        i = i + 1;
        assert(tail@.take(i as int) =~= tail@.take(i - 1).push(tail.words@[i - 1]@));
        assert(c@ + tail@.take(i as int) =~= (c@ + tail@.take(i - 1)).push(tail.words@[i - 1]@));
    }
    assert(tail@.take(i as int) =~= tail@);
    r
}

impl Rules {
    fn add_command(&mut self, c: CommandLine)
        ensures
            final(self)@ == with_command(old(self)@, c@),
    {
        route::push_command(&mut self.commands, c);
    }

    fn add_rule(&mut self, v6: bool, tail: &CommandLine)
        requires
            if v6 {
                old(self)@.p6 < u32::MAX
            } else {
                old(self)@.p4 < u32::MAX
            },
        ensures
            final(self)@ == with_rule(old(self)@, v6, tail@),
    {
        let prio: u32 = if v6 {
            self.p6
        } else {
            self.p4
        };
        let start: CommandLine = ip_start(v6);
        let ghost s0 = start@;
        let c: CommandLine = start.arg("rule").arg("add").arg("priority").arg_number(prio);
        let c: CommandLine = with_words(c, tail);
        proof {
            let words = seq!["rule"@, "add"@, "priority"@, text::decimal(prio as nat)] + tail@;
            assert(c@ =~= s0 + words);
            assert(c@ == ip_command(v6, words));
        }
        route::push_command(&mut self.commands, c);
        if v6 {
            self.p6 = self.p6 + 1;
        } else {
            self.p4 = self.p4 + 1;
        }
    }

    fn add_rules(&mut self, has4: bool, has6: bool, tail: &CommandLine)
        requires
            has4 ==> old(self)@.p4 < u32::MAX,
            has6 ==> old(self)@.p6 < u32::MAX,
        ensures
            final(self)@ == with_rules(old(self)@, has4, has6, tail@),
    {
        if has4 {
            self.add_rule(false, tail);
        }
        if has6 {
            self.add_rule(true, tail);
        }
    }

    fn add_uid_rules(&mut self, has4: bool, has6: bool, ranges: &Vec<(u32, u32)>, anchor: &str)
        requires
            has4 ==> old(self)@.p4 + ranges@.len() <= u32::MAX,
            has6 ==> old(self)@.p6 + ranges@.len() <= u32::MAX,
        ensures
            final(self)@ == with_uid_rules(old(self)@, has4, has6, ranges@, anchor@),
    {
        let mut i: usize = 0;
        while i < ranges.len()
            invariant
                has4 ==> old(self)@.p4 + ranges@.len() <= u32::MAX,
                has6 ==> old(self)@.p6 + ranges@.len() <= u32::MAX,
                i <= ranges@.len(),
                self@ == with_uid_rules(old(self)@, has4, has6, ranges@.take(i as int), anchor@),
            decreases ranges@.len() - i,
        {
            proof {
                lemma_uid_priorities(old(self)@, has4, has6, ranges@.take(i as int), anchor@);
                assert(ranges@.take(i + 1).drop_last() =~= ranges@.take(i as int));
            }
            let (lo, hi): (u32, u32) = ranges[i];
            let mut t: Vec<char> = text::decimal_chars(lo as u64);
            t.push('-');
            text::push_chars(&mut t, &text::decimal_chars(hi as u64));
            assert(t@ =~= range_text(ranges@[i as int]));
            let tail: CommandLine = no_words().arg("uidrange").arg_string(
                text::string_of(&t),
            ).arg("goto").arg(anchor);
            assert(tail@ =~= seq![
                "uidrange"@,
                range_text(ranges@[i as int]),
                "goto"@,
                anchor@,
            ]);
            self.add_rules(has4, has6, &tail);
            i = i + 1;
        }
        assert(ranges@.take(i as int) =~= ranges@);
    }

    fn add_interface_rules(
        &mut self,
        has4: bool,
        has6: bool,
        interfaces: &Vec<String>,
        action: &str,
        target: &str,
    )
        requires
            has4 ==> old(self)@.p4 + interfaces@.len() <= u32::MAX,
            has6 ==> old(self)@.p6 + interfaces@.len() <= u32::MAX,
        ensures
            final(self)@ == with_interface_rules(
                old(self)@,
                has4,
                has6,
                route::texts(interfaces@),
                action@,
                target@,
            ),
    {
        let mut i: usize = 0;
        assert(route::texts(interfaces@.take(0)) =~= Seq::<Seq<char>>::empty());
        while i < interfaces.len()
            invariant
                has4 ==> old(self)@.p4 + interfaces@.len() <= u32::MAX,
                has6 ==> old(self)@.p6 + interfaces@.len() <= u32::MAX,
                i <= interfaces@.len(),
                self@ == with_interface_rules(
                    old(self)@,
                    has4,
                    has6,
                    route::texts(interfaces@.take(i as int)),
                    action@,
                    target@,
                ),
            decreases interfaces@.len() - i,
        {
            proof {
                let t = route::texts(interfaces@.take(i + 1));
                lemma_interface_priorities(
                    old(self)@,
                    has4,
                    has6,
                    route::texts(interfaces@.take(i as int)),
                    action@,
                    target@,
                );
                assert(t.drop_last() =~= route::texts(interfaces@.take(i as int)));
                assert(t.last() == interfaces@[i as int]@);
            }
            let tail: CommandLine = no_words().arg("iif").arg(interfaces[i].as_str()).arg(
                action,
            ).arg(target);
            assert(tail@ =~= seq!["iif"@, interfaces@[i as int]@, action@, target@]);
            self.add_rules(has4, has6, &tail);
            i = i + 1;
        }
        assert(interfaces@.take(i as int) =~= interfaces@);
    }

    fn add_network_rules(
        &mut self,
        v6: bool,
        networks: &Vec<(IpAddr, u8)>,
        selector: &CommandLine,
        table: &str,
    )
        requires
            if v6 {
                old(self)@.p6 + networks@.len() <= u32::MAX
            } else {
                old(self)@.p4 + networks@.len() <= u32::MAX
            },
            forall|i: int|
                0 <= i < networks@.len() ==> (#[trigger] networks@[i]).1 >= 1 && networks@[i].1
                    <= (if networks@[i].0 is V4 {
                    32int
                } else {
                    128int
                }),
        ensures
            final(self)@ == with_network_rules(old(self)@, v6, networks@, selector@, table@),
    {
        let mut i: usize = 0;
        while i < networks.len()
            invariant
                if v6 {
                    old(self)@.p6 + networks@.len() <= u32::MAX
                } else {
                    old(self)@.p4 + networks@.len() <= u32::MAX
                },
                forall|k: int|
                    0 <= k < networks@.len() ==> (#[trigger] networks@[k]).1 >= 1 && networks@[k].1
                        <= (if networks@[k].0 is V4 {
                        32int
                    } else {
                        128int
                    }),
                i <= networks@.len(),
                self@ == with_network_rules(
                    old(self)@,
                    v6,
                    networks@.take(i as int),
                    selector@,
                    table@,
                ),
            decreases networks@.len() - i,
        {
            proof {
                lemma_network_priorities(
                    old(self)@,
                    v6,
                    networks@.take(i as int),
                    selector@,
                    table@,
                );
                assert(networks@.take(i + 1).drop_last() =~= networks@.take(i as int));
            }
            let (ip, len): (IpAddr, u8) = networks[i];
            let network: IpAddr = match ip {
                IpAddr::V4(v) => IpAddr::V4(route::v4_network(v, len)),
                IpAddr::V6(v) => IpAddr::V6(route::v6_network(v, len)),
            };
            let mut t: Vec<char> = text::chars_of(net::ip_string(network).as_str());
            t.push('/');
            text::push_chars(&mut t, &text::decimal_chars(len as u64));
            assert(t@ =~= network_text(networks@[i as int]));
            let tail: CommandLine = with_words(no_words(), selector).arg_string(
                text::string_of(&t),
            ).arg("lookup").arg(table);
            assert(tail@ =~= selector@ + seq![
                network_text(networks@[i as int]),
                "lookup"@,
                table@,
            ]);
            self.add_rule(v6, &tail);
            i = i + 1;
        }
        assert(networks@.take(i as int) =~= networks@);
    }
}

proof fn lemma_uid_priorities(
    p: RulePlan,
    has4: bool,
    has6: bool,
    ranges: Seq<(u32, u32)>,
    anchor: Seq<char>,
)
    ensures
        with_uid_rules(p, has4, has6, ranges, anchor).p4 == p.p4 + if has4 {
            ranges.len() as int
        } else {
            0
        },
        with_uid_rules(p, has4, has6, ranges, anchor).p6 == p.p6 + if has6 {
            ranges.len() as int
        } else {
            0
        },
    decreases ranges.len(),
{
    if ranges.len() > 0 {
        lemma_uid_priorities(p, has4, has6, ranges.drop_last(), anchor);
    }
}

proof fn lemma_interface_priorities(
    p: RulePlan,
    has4: bool,
    has6: bool,
    interfaces: Seq<Seq<char>>,
    action: Seq<char>,
    target: Seq<char>,
)
    ensures
        with_interface_rules(p, has4, has6, interfaces, action, target).p4 == p.p4 + if has4 {
            interfaces.len() as int
        } else {
            0
        },
        with_interface_rules(p, has4, has6, interfaces, action, target).p6 == p.p6 + if has6 {
            interfaces.len() as int
        } else {
            0
        },
    decreases interfaces.len(),
{
    if interfaces.len() > 0 {
        lemma_interface_priorities(p, has4, has6, interfaces.drop_last(), action, target);
    }
}

proof fn lemma_network_priorities(
    p: RulePlan,
    v6: bool,
    networks: Seq<(IpAddr, u8)>,
    selector: Seq<Seq<char>>,
    table: Seq<char>,
)
    ensures
        with_network_rules(p, v6, networks, selector, table).p4 == p.p4 + if v6 {
            0
        } else {
            networks.len() as int
        },
        with_network_rules(p, v6, networks, selector, table).p6 == p.p6 + if v6 {
            networks.len() as int
        } else {
            0
        },
    decreases networks.len(),
{
    if networks.len() > 0 {
        lemma_network_priorities(p, v6, networks.drop_last(), selector, table);
    }
}

/// A plan uses the next priorities of a family for as many rules as the family
/// needs.
proof fn lemma_rules_needed(cfg: TunInboundConfig, if_name: Seq<char>)
    ensures
        linux_setup(cfg, if_name).p4 == cfg.iproute2_rule_index + rules_needed(cfg, false),
        linux_setup(cfg, if_name).p6 == cfg.iproute2_rule_index + rules_needed(cfg, true),
{
    let table = text::decimal(cfg.iproute2_table_index as nat);
    let base = cfg.iproute2_rule_index as int;
    let anchor = text::decimal((base + ANCHOR_OFFSET) as nat);
    let inet4 = route::addresses_of(route::texts(cfg.address@), true);
    let inet6 = route::addresses_of(route::texts(cfg.address@), false);
    let has4 = inet4.len() > 0;
    let has6 = inet6.len() > 0;
    let s2 = prepared(cfg, if_name);
    let ranges = excluded_ranges(cfg.include_uid@, cfg.exclude_uid@);
    let s3 = with_uid_rules(s2, has4, has6, ranges, anchor);
    lemma_uid_priorities(s2, has4, has6, ranges, anchor);
    let s4 = with_all_interfaces(s3, cfg, has4, has6, table, anchor);
    lemma_interface_priorities(
        s3,
        has4,
        has6,
        route::texts(cfg.include_interface@),
        "lookup"@,
        table,
    );
    lemma_interface_priorities(
        s3,
        has4,
        has6,
        route::texts(cfg.exclude_interface@),
        "goto"@,
        anchor,
    );
    let s5 = if cfg.strict_route {
        with_rules(s4, !has4, !has6, seq!["type"@, "unreachable"@])
    } else {
        s4
    };
    let s6 = with_network_rules(s5, false, inet4, seq!["to"@], table);
    lemma_network_priorities(s5, false, inet4, seq!["to"@], table);
    let s7 = with_network_rules(s6, true, inet6, seq!["to"@], table);
    lemma_network_priorities(s6, true, inet6, seq!["to"@], table);
    let s8 = with_rules(
        s7,
        has4,
        has6,
        seq!["not"@, "iif"@, "lo"@, "lookup"@, table, "suppress_prefixlength"@, "0"@],
    );
    let s9 = with_rules(s8, has4, has6, seq!["iif"@, if_name, "goto"@, anchor]);
    let s10a = with_rule(s9, false, seq!["not"@, "iif"@, "lo"@, "lookup"@, table]);
    let s10 = if has4 {
        with_network_rules(s10a, false, inet4, seq!["iif"@, "lo"@, "from"@], table)
    } else {
        s9
    };
    lemma_network_priorities(s10a, false, inet4, seq!["iif"@, "lo"@, "from"@], table);
    let s11a = with_rule(s10, true, seq!["not"@, "iif"@, "lo"@, "lookup"@, table]);
    lemma_network_priorities(s11a, true, inet6, seq!["iif"@, "lo"@, "from"@], table);
}

/// Whether the rules of a plan have priorities from `base` up to the next free
/// one, each used once.
#[verifier::opaque]
spec fn tidy(p: RulePlan, base: int) -> bool {
    &&& 0 <= base <= p.p4
    &&& base <= p.p6
    &&& forall|v6: bool, i: int|
        0 <= i < p.commands.len() ==> (#[trigger] rule_priority(p.commands[i], v6) matches Some(
            n,
        ) ==> base <= n < if v6 {
            p.p6
        } else {
            p.p4
        })
    &&& forall|v6: bool, i: int, j: int|
        0 <= i < j < p.commands.len() && rule_priority(p.commands[i], v6) is Some && rule_priority(
            p.commands[j],
            v6,
        ) is Some ==> #[trigger] rule_priority(p.commands[i], v6) != #[trigger] rule_priority(
            p.commands[j],
            v6,
        )
}

proof fn lemma_words_differ()
    ensures
        "-6"@ != "rule"@,
        "-6"@ != "route"@,
        "-6"@ != "link"@,
        "rule"@ != "route"@,
        "rule"@ != "link"@,
{
    reveal_strlit("-6");
    reveal_strlit("rule");
    reveal_strlit("route");
    reveal_strlit("link");
    assert("rule"@[0] != "link"@[0]);
    assert("-6"@[0] == '-');
    assert("route"@[0] == 'r');
    assert("rule"@[1] == 'u');
    assert("route"@[1] == 'o');
}

/// What a command says of a family.
proof fn lemma_rule_priority(v6: bool, tail: Seq<Seq<char>>, n: nat, rest: Seq<Seq<char>>)
    requires
        tail.len() > 0,
        n <= u32::MAX,
    ensures
        tail[0] != "rule"@ && tail[0] != "-6"@ ==> rule_priority(ip_command(v6, tail), true) is None
            && rule_priority(ip_command(v6, tail), false) is None,
        rule_priority(
            ip_command(v6, seq!["rule"@, "add"@, "priority"@, text::decimal(n)] + rest),
            v6,
        ) == Some(n),
        rule_priority(
            ip_command(v6, seq!["rule"@, "add"@, "priority"@, text::decimal(n)] + rest),
            !v6,
        ) is None,
{
    lemma_words_differ();
    text::law_parse_of_decimal(n, u32::MAX as nat);
    let start4 = ip_command(false, seq!["rule"@, "add"@, "priority"@]);
    let start6 = ip_command(true, seq!["rule"@, "add"@, "priority"@]);
    let own = if v6 {
        start6
    } else {
        start4
    };
    let other = ip_command(v6, tail);
    assert(start4[1] == "rule"@ && start6[1] == "-6"@ && start6[2] == "rule"@);
    if tail[0] != "rule"@ && tail[0] != "-6"@ {
        if v6 {
            assert(other[1] == "-6"@ && other[2] == tail[0]);
        } else {
            assert(other[1] == tail[0]);
        }
        if other.len() > start4.len() {
            assert(other.take(start4.len() as int)[1] == other[1]);
        }
        if other.len() > start6.len() {
            assert(other.take(start6.len() as int)[1] == other[1]);
            assert(other.take(start6.len() as int)[2] == other[2]);
        }
    }
    let c = ip_command(v6, seq!["rule"@, "add"@, "priority"@, text::decimal(n)] + rest);
    assert(c.take(own.len() as int) =~= own);
    assert(c[own.len() as int] == text::decimal(n));
    if v6 {
        assert(c.take(start4.len() as int)[1] == "-6"@);
    } else if c.len() > start6.len() {
        assert(c.take(start6.len() as int)[1] == "rule"@);
    }
}

proof fn lemma_tidy_command(p: RulePlan, base: int, c: Seq<Seq<char>>)
    requires
        tidy(p, base),
        rule_priority(c, false) is None,
        rule_priority(c, true) is None,
    ensures
        tidy(with_command(p, c), base),
{
    reveal(tidy);
    let q = with_command(p, c);
    assert forall|v6: bool, i: int| 0 <= i < q.commands.len() implies (
    #[trigger] rule_priority(q.commands[i], v6) matches Some(n) ==> base <= n < if v6 {
        q.p6
    } else {
        q.p4
    }) by {
        if i < p.commands.len() {
            assert(q.commands[i] == p.commands[i]);
        }
    }
    assert forall|v6: bool, i: int, j: int|
        0 <= i < j < q.commands.len() && rule_priority(q.commands[i], v6) is Some && rule_priority(
            q.commands[j],
            v6,
        ) is Some implies #[trigger] rule_priority(q.commands[i], v6) != #[trigger] rule_priority(
        q.commands[j],
        v6,
    ) by {
        if j < p.commands.len() {
            assert(q.commands[i] == p.commands[i] && q.commands[j] == p.commands[j]);
        }
    }
}

proof fn lemma_tidy_rule(p: RulePlan, base: int, v6: bool, tail: Seq<Seq<char>>)
    requires
        tidy(p, base),
        with_rule(p, v6, tail).p4 <= u32::MAX,
        with_rule(p, v6, tail).p6 <= u32::MAX,
    ensures
        tidy(with_rule(p, v6, tail), base),
{
    reveal(tidy);
    let q = with_rule(p, v6, tail);
    let prio = (if v6 {
        p.p6
    } else {
        p.p4
    }) as nat;
    let n = p.commands.len() as int;
    lemma_rule_priority(v6, seq!["rule"@], prio, tail);
    assert(rule_priority(q.commands[n], v6) == Some(prio));
    assert(rule_priority(q.commands[n], !v6) is None);
    assert forall|w: bool, i: int| 0 <= i < q.commands.len() implies (
    #[trigger] rule_priority(q.commands[i], w) matches Some(n) ==> base <= n < if w {
        q.p6
    } else {
        q.p4
    }) by {
        if i < n {
            assert(q.commands[i] == p.commands[i]);
        } else {
            assert(w == v6 || w == !v6);
        }
    }
    assert forall|w: bool, i: int, j: int|
        0 <= i < j < q.commands.len() && rule_priority(q.commands[i], w) is Some && rule_priority(
            q.commands[j],
            w,
        ) is Some implies #[trigger] rule_priority(q.commands[i], w) != #[trigger] rule_priority(
        q.commands[j],
        w,
    ) by {
        assert(q.commands[i] == p.commands[i]);
        if j < n {
            assert(q.commands[j] == p.commands[j]);
        } else {
            assert(w == v6 || w == !v6);
        }
    }
}

proof fn lemma_tidy_rules(p: RulePlan, base: int, has4: bool, has6: bool, tail: Seq<Seq<char>>)
    requires
        tidy(p, base),
        with_rules(p, has4, has6, tail).p4 <= u32::MAX,
        with_rules(p, has4, has6, tail).p6 <= u32::MAX,
    ensures
        tidy(with_rules(p, has4, has6, tail), base),
{
    let q = if has4 {
        with_rule(p, false, tail)
    } else {
        p
    };
    if has4 {
        lemma_tidy_rule(p, base, false, tail);
    }
    if has6 {
        lemma_tidy_rule(q, base, true, tail);
    }
}

proof fn lemma_tidy_uid_rules(
    p: RulePlan,
    base: int,
    has4: bool,
    has6: bool,
    ranges: Seq<(u32, u32)>,
    anchor: Seq<char>,
)
    requires
        tidy(p, base),
        with_uid_rules(p, has4, has6, ranges, anchor).p4 <= u32::MAX,
        with_uid_rules(p, has4, has6, ranges, anchor).p6 <= u32::MAX,
    ensures
        tidy(with_uid_rules(p, has4, has6, ranges, anchor), base),
    decreases ranges.len(),
{
    if ranges.len() > 0 {
        lemma_tidy_uid_rules(p, base, has4, has6, ranges.drop_last(), anchor);
        lemma_tidy_rules(
            with_uid_rules(p, has4, has6, ranges.drop_last(), anchor),
            base,
            has4,
            has6,
            seq!["uidrange"@, range_text(ranges.last()), "goto"@, anchor],
        );
    }
}

proof fn lemma_tidy_interface_rules(
    p: RulePlan,
    base: int,
    has4: bool,
    has6: bool,
    interfaces: Seq<Seq<char>>,
    action: Seq<char>,
    target: Seq<char>,
)
    requires
        tidy(p, base),
        with_interface_rules(p, has4, has6, interfaces, action, target).p4 <= u32::MAX,
        with_interface_rules(p, has4, has6, interfaces, action, target).p6 <= u32::MAX,
    ensures
        tidy(with_interface_rules(p, has4, has6, interfaces, action, target), base),
    decreases interfaces.len(),
{
    if interfaces.len() > 0 {
        let rest = interfaces.drop_last();
        lemma_tidy_interface_rules(p, base, has4, has6, rest, action, target);
        lemma_tidy_rules(
            with_interface_rules(p, has4, has6, rest, action, target),
            base,
            has4,
            has6,
            seq!["iif"@, interfaces.last(), action, target],
        );
    }
}

proof fn lemma_tidy_network_rules(
    p: RulePlan,
    base: int,
    v6: bool,
    networks: Seq<(IpAddr, u8)>,
    selector: Seq<Seq<char>>,
    table: Seq<char>,
)
    requires
        tidy(p, base),
        with_network_rules(p, v6, networks, selector, table).p4 <= u32::MAX,
        with_network_rules(p, v6, networks, selector, table).p6 <= u32::MAX,
    ensures
        tidy(with_network_rules(p, v6, networks, selector, table), base),
    decreases networks.len(),
{
    if networks.len() > 0 {
        lemma_tidy_network_rules(p, base, v6, networks.drop_last(), selector, table);
        lemma_tidy_rule(
            with_network_rules(p, v6, networks.drop_last(), selector, table),
            base,
            v6,
            selector + seq![network_text(networks.last()), "lookup"@, table],
        );
    }
}

/// The rules before the anchor are in order if their priorities can be written.
proof fn lemma_tidy_setup(cfg: TunInboundConfig, if_name: Seq<char>)
    requires
        rules_before_anchor(cfg, if_name).p4 <= u32::MAX,
        rules_before_anchor(cfg, if_name).p6 <= u32::MAX,
    ensures
        tidy(rules_before_anchor(cfg, if_name), cfg.iproute2_rule_index as int),
{
    let table = text::decimal(cfg.iproute2_table_index as nat);
    let base = cfg.iproute2_rule_index as int;
    let anchor = text::decimal((base + ANCHOR_OFFSET) as nat);
    let inet4 = route::addresses_of(route::texts(cfg.address@), true);
    let inet6 = route::addresses_of(route::texts(cfg.address@), false);
    let has4 = inet4.len() > 0;
    let has6 = inet6.len() > 0;
    lemma_words_differ();
    let link = seq!["link"@, "set"@, if_name, "up"@];
    lemma_rule_priority(false, link, 0, Seq::empty());
    let s0 = RulePlan { commands: seq![ip_command(false, link)], p4: base, p6: base };
    assert(tidy(s0, base)) by {
        reveal(tidy);
    }
    let s1 = if has4 {
        with_command(s0, default_route(false, route::next_address(inet4[0].0), if_name, table))
    } else {
        s0
    };
    if has4 {
        lemma_tidy_default_route(s0, base, false, inet4[0].0, if_name, table);
    }
    if has6 {
        lemma_tidy_default_route(s1, base, true, inet6[0].0, if_name, table);
    }
    let s2 = prepared(cfg, if_name);
    assert(tidy(s2, base));
    let ranges = excluded_ranges(cfg.include_uid@, cfg.exclude_uid@);
    let s3 = with_uid_rules(s2, has4, has6, ranges, anchor);
    lemma_uid_priorities(s2, has4, has6, ranges, anchor);
    let s4 = with_all_interfaces(s3, cfg, has4, has6, table, anchor);
    let taken = route::texts(cfg.include_interface@);
    let left = route::texts(cfg.exclude_interface@);
    lemma_interface_priorities(s3, has4, has6, taken, "lookup"@, table);
    lemma_interface_priorities(s3, has4, has6, left, "goto"@, anchor);
    let s5 = if cfg.strict_route {
        with_rules(s4, !has4, !has6, seq!["type"@, "unreachable"@])
    } else {
        s4
    };
    let s6 = with_network_rules(s5, false, inet4, seq!["to"@], table);
    lemma_network_priorities(s5, false, inet4, seq!["to"@], table);
    let s7 = with_network_rules(s6, true, inet6, seq!["to"@], table);
    lemma_network_priorities(s6, true, inet6, seq!["to"@], table);
    let past = seq!["not"@, "iif"@, "lo"@, "lookup"@, table, "suppress_prefixlength"@, "0"@];
    let s8 = with_rules(s7, has4, has6, past);
    let s9 = with_rules(s8, has4, has6, seq!["iif"@, if_name, "goto"@, anchor]);
    let out = seq!["not"@, "iif"@, "lo"@, "lookup"@, table];
    let from = seq!["iif"@, "lo"@, "from"@];
    let s10a = with_rule(s9, false, out);
    let s10 = if has4 {
        with_network_rules(s10a, false, inet4, from, table)
    } else {
        s9
    };
    lemma_network_priorities(s10a, false, inet4, from, table);
    let s11a = with_rule(s10, true, out);
    lemma_network_priorities(s11a, true, inet6, from, table);
    lemma_tidy_uid_rules(s2, base, has4, has6, ranges, anchor);
    if cfg.include_interface@.len() > 0 {
        let all = with_interface_rules(s3, has4, has6, taken, "lookup"@, table);
        lemma_tidy_interface_rules(s3, base, has4, has6, taken, "lookup"@, table);
        lemma_tidy_rules(all, base, has4, has6, seq!["goto"@, anchor]);
    } else {
        lemma_tidy_interface_rules(s3, base, has4, has6, left, "goto"@, anchor);
    }
    if cfg.strict_route {
        lemma_tidy_rules(s4, base, !has4, !has6, seq!["type"@, "unreachable"@]);
    }
    lemma_tidy_network_rules(s5, base, false, inet4, seq!["to"@], table);
    lemma_tidy_network_rules(s6, base, true, inet6, seq!["to"@], table);
    lemma_tidy_rules(s7, base, has4, has6, past);
    lemma_tidy_rules(s8, base, has4, has6, seq!["iif"@, if_name, "goto"@, anchor]);
    if has4 {
        lemma_tidy_rule(s9, base, false, out);
        lemma_tidy_network_rules(s10a, base, false, inet4, from, table);
    }
    if has6 {
        lemma_tidy_rule(s10, base, true, out);
        lemma_tidy_network_rules(s11a, base, true, inet6, from, table);
    }
}

proof fn lemma_tidy_default_route(
    p: RulePlan,
    base: int,
    v6: bool,
    own: IpAddr,
    if_name: Seq<char>,
    table: Seq<char>,
)
    requires
        tidy(p, base),
    ensures
        tidy(with_command(p, default_route(v6, route::next_address(own), if_name, table)), base),
{
    lemma_words_differ();
    let words = seq![
        "route"@,
        "add"@,
        if v6 {
            "::/0"@
        } else {
            "0.0.0.0/0"@
        },
        "via"@,
        net::ip_text(route::next_address(own)),
        "dev"@,
        if_name,
        "table"@,
        table,
    ];
    lemma_rule_priority(v6, words, 0, Seq::empty());
    lemma_tidy_command(p, base, ip_command(v6, words));
}

/// The rules of a plan that fits come before the anchor, which has the priority
/// that they go to; within a family no priority is used twice.
pub proof fn law_rules_stay_before_anchor(cfg: TunInboundConfig, if_name: Seq<char>)
    requires
        cfg.iproute2_rule_index + ANCHOR_OFFSET <= u32::MAX,
        fits(linux_setup(cfg, if_name), cfg.iproute2_rule_index as int),
    ensures
        priorities_apart(
            linux_setup(cfg, if_name).commands,
            cfg.iproute2_rule_index as int,
        ),
{
    let base = cfg.iproute2_rule_index as int;
    let p = rules_before_anchor(cfg, if_name);
    let q = linux_setup(cfg, if_name);
    let prio = (base + ANCHOR_OFFSET) as nat;
    let n = p.commands.len() as int;
    reveal(tidy);
    lemma_tidy_setup(cfg, if_name);
    lemma_anchor_priority(false, base);
    lemma_anchor_priority(true, base);
    assert forall|v6: bool, i: int| 0 <= i < q.commands.len() implies (
    #[trigger] rule_priority(q.commands[i], v6) matches Some(k) ==> {
        if q.commands[i] == anchor_words(v6, base) {
            k == base + ANCHOR_OFFSET
        } else {
            base <= k < base + ANCHOR_OFFSET
        }
    }) by {
        if i < n {
            assert(q.commands[i] == p.commands[i]);
        } else {
            assert(q.commands[i] == anchor_words(false, base) || q.commands[i] == anchor_words(
                true,
                base,
            ));
        }
    }
    assert forall|v6: bool, i: int, j: int|
        0 <= i < j < q.commands.len() && rule_priority(q.commands[i], v6) is Some && rule_priority(
            q.commands[j],
            v6,
        ) is Some implies #[trigger] rule_priority(q.commands[i], v6) != #[trigger] rule_priority(
        q.commands[j],
        v6,
    ) by {
        if j < n {
            assert(q.commands[i] == p.commands[i] && q.commands[j] == p.commands[j]);
        } else if i < n {
            assert(q.commands[i] == p.commands[i]);
            assert(q.commands[j] == anchor_words(false, base) || q.commands[j] == anchor_words(
                true,
                base,
            ));
        } else {
            assert(q.commands[i] == anchor_words(false, base));
            assert(q.commands[j] == anchor_words(true, base));
        }
    }
}

proof fn lemma_anchor_priority(v6: bool, base: int)
    requires
        0 <= base,
        base + ANCHOR_OFFSET <= u32::MAX,
    ensures
        rule_priority(anchor_words(v6, base), v6) == Some((base + ANCHOR_OFFSET) as nat),
        rule_priority(anchor_words(v6, base), !v6) is None,
{
    let prio = (base + ANCHOR_OFFSET) as nat;
    lemma_rule_priority(v6, seq!["rule"@], prio, Seq::empty());
    let words = seq!["rule"@, "add"@, "priority"@, text::decimal(prio)];
    assert(words + Seq::<Seq<char>>::empty() =~= words);
}

/// Commands to be run, and what is to be written to the state file.
pub struct SetupPlan {
    pub commands: Vec<CommandLine>,
    pub state_path: String,
    pub state: String,
}

fn default_route_command(v6: bool, gateway: IpAddr, if_name: &str, table: &str) -> (r: CommandLine)
    ensures
        r@ == default_route(v6, gateway, if_name@, table@),
{
    let start: CommandLine = ip_start(v6);
    let ghost s0 = start@;
    let r: CommandLine = start.arg("route").arg("add").arg(
        if v6 {
            "::/0"
        } else {
            "0.0.0.0/0"
        },
    ).arg("via").arg_string(net::ip_string(gateway)).arg("dev").arg(if_name).arg("table").arg(
        table,
    );
    proof {
        let words = seq![
            "route"@,
            "add"@,
            if v6 {
                "::/0"@
            } else {
                "0.0.0.0/0"@
            },
            "via"@,
            net::ip_text(gateway),
            "dev"@,
            if_name@,
            "table"@,
            table@,
        ];
        assert(r@ =~= s0 + words);
        assert(r@ == ip_command(v6, words));
    }
    r
}

fn anchor_command(v6: bool, anchor: &str, base: u32) -> (r: CommandLine)
    requires
        anchor@ == text::decimal((base + ANCHOR_OFFSET) as nat),
    ensures
        r@ == anchor_words(v6, base as int),
{
    let start: CommandLine = ip_start(v6);
    let ghost s0 = start@;
    let r: CommandLine = start.arg("rule").arg("add").arg("priority").arg(anchor);
    proof {
        let words = seq!["rule"@, "add"@, "priority"@, anchor@];
        assert(r@ =~= s0 + words);
        assert(r@ == ip_command(v6, words));
    }
    r
}

/// The path of the state file of a table.
pub fn state_file(table_index: u32) -> (r: String)
    ensures
        r@ == state_path(table_index),
{
    let mut t: Vec<char> = text::chars_of("/tmp/reflex-tun-");
    text::push_chars(&mut t, &text::decimal_chars(table_index as u64));
    text::push_text(&mut t, ".state");
    text::string_of(&t)
}

/// What the state file holds.
fn state_string(p4: u32, p6: u32, anchor: u32) -> (r: String)
    ensures
        r@ == state_text(p4 as nat, p6 as nat, anchor as nat),
{
    let mut t: Vec<char> = text::decimal_chars(p4 as u64);
    t.push(' ');
    text::push_chars(&mut t, &text::decimal_chars(p6 as u64));
    t.push(' ');
    text::push_chars(&mut t, &text::decimal_chars(anchor as u64));
    assert(t@ =~= state_text(p4 as nat, p6 as nat, anchor as nat));
    text::string_of(&t)
}

/// The list of excluded ranges is the one that the search returns.
proof fn lemma_excluded_ranges(take_in: Seq<u32>, leave_out: Seq<u32>, r: Seq<(u32, u32)>)
    requires
        uid::merged(r),
        forall|u: u32| #[trigger]
            uid::covers(r, u) <==> if take_in.len() > 0 {
                u <= uid::UID_MAX && !(take_in.contains(u) && !leave_out.contains(u))
            } else {
                leave_out.contains(u)
            },
    ensures
        excluded_ranges(take_in, leave_out) == r,
{
    let e = excluded_ranges(take_in, leave_out);
    assert(uid::merged(e) && (forall|u: u32| #[trigger]
        uid::covers(e, u) <==> if take_in.len() > 0 {
            u <= uid::UID_MAX && !(take_in.contains(u) && !leave_out.contains(u))
        } else {
            leave_out.contains(u)
        }));
    assert forall|u: u32| uid::covers(e, u) <==> uid::covers(r, u) by {
    }
    uid::law_merged_is_canonical(e, r);
}

/// There are too many rules: one of them would reach the anchor.
#[derive(Debug)]
pub struct TooManyRules {}

impl TooManyRules {
    /// The message.
    pub fn message(&self) -> (r: &'static str)
        ensures
            r@ == "too many routing rules: they would reach the anchor"@,
    {
        "too many routing rules: they would reach the anchor"
    }
}

/// The number of rules that a family with `n` addresses needs.
fn count_rules(cfg: &TunInboundConfig, ranges: usize, n: usize) -> (r: u128)
    ensures
        r == (if n > 0 {
            ranges + (if cfg.include_interface@.len() > 0 {
                cfg.include_interface@.len() + 1
            } else {
                cfg.exclude_interface@.len()
            }) + 2 * n + 3
        } else if cfg.strict_route {
            1
        } else {
            0
        }),
{
    if n > 0 {
        let interfaces: u128 = if cfg.include_interface.len() > 0 {
            cfg.include_interface.len() as u128 + 1
        } else {
            cfg.exclude_interface.len() as u128
        };
        ranges as u128 + interfaces + 2 * (n as u128) + 3
    } else if cfg.strict_route {
        1
    } else {
        0
    }
}

/// Plans the commands, given what the settings come to.
#[verifier::rlimit(60)]
fn plan_commands(
    cfg: &TunInboundConfig,
    if_name: &str,
    ranges: &Vec<(u32, u32)>,
    inet4: &Vec<(IpAddr, u8)>,
    inet6: &Vec<(IpAddr, u8)>,
) -> (r: SetupPlan)
    requires
        cfg.iproute2_rule_index + ANCHOR_OFFSET <= u32::MAX,
        linux_setup(*cfg, if_name@).p4 <= u32::MAX,
        linux_setup(*cfg, if_name@).p6 <= u32::MAX,
        route::prefixes_positive(route::texts(cfg.address@)),
        ranges@ == excluded_ranges(cfg.include_uid@, cfg.exclude_uid@),
        inet4@ == route::addresses_of(route::texts(cfg.address@), true),
        inet6@ == route::addresses_of(route::texts(cfg.address@), false),
    ensures
        route::command_words(r.commands@) == linux_setup(*cfg, if_name@).commands,
        r.state_path@ == state_path(cfg.iproute2_table_index),
        r.state@ == state_text(
            linux_setup(*cfg, if_name@).p4 as nat,
            linux_setup(*cfg, if_name@).p6 as nat,
            (cfg.iproute2_rule_index + ANCHOR_OFFSET) as nat,
        ),
{
    let table: String = text::decimal_text(cfg.iproute2_table_index as u64);
    let base: u32 = cfg.iproute2_rule_index;
    let anchor_prio: u32 = base + ANCHOR_OFFSET;
    let anchor: String = text::decimal_text(anchor_prio as u64);
    let has4: bool = inet4.len() > 0;
    let has6: bool = inet6.len() > 0;
    proof {
        route::lemma_addresses(route::texts(cfg.address@), true);
        route::lemma_addresses(route::texts(cfg.address@), false);
    }
    let start: CommandLine = ip_start(false);
    let ghost w0 = start@;
    let up: CommandLine = start.arg("link").arg("set").arg(if_name).arg("up");
    proof {
        let words = seq!["link"@, "set"@, if_name@, "up"@];
        assert(up@ =~= w0 + words);
        assert(up@ == ip_command(false, words));
    }
    let mut rules: Rules = Rules { commands: Vec::new(), p4: base, p6: base };
    assert(route::command_words(rules.commands@) =~= Seq::<Seq<Seq<char>>>::empty());
    rules.add_command(up);
    let ghost s0 = RulePlan {
        commands: seq![ip_command(false, seq!["link"@, "set"@, if_name@, "up"@])],
        p4: base as int,
        p6: base as int,
    };
    assert(rules@ =~= s0);
    if has4 {
        let gateway: IpAddr = route::address_after(inet4[0].0);
        rules.add_command(default_route_command(false, gateway, if_name, table.as_str()));
    }
    if has6 {
        let gateway: IpAddr = route::address_after(inet6[0].0);
        rules.add_command(default_route_command(true, gateway, if_name, table.as_str()));
    }
    let ghost s2 = rules@;
    let ghost s3 = with_uid_rules(s2, has4, has6, ranges@, anchor@);
    let ghost s4a = if cfg.include_interface@.len() > 0 {
        with_interface_rules(s3, has4, has6, route::texts(cfg.include_interface@), "lookup"@, table@)
    } else {
        with_interface_rules(s3, has4, has6, route::texts(cfg.exclude_interface@), "goto"@, anchor@)
    };
    let ghost s4 = if cfg.include_interface@.len() > 0 {
        with_rules(s4a, has4, has6, seq!["goto"@, anchor@])
    } else {
        s4a
    };
    let ghost s5 = if cfg.strict_route {
        with_rules(s4, !has4, !has6, seq!["type"@, "unreachable"@])
    } else {
        s4
    };
    let ghost s6 = with_network_rules(s5, false, inet4@, seq!["to"@], table@);
    let ghost s7 = with_network_rules(s6, true, inet6@, seq!["to"@], table@);
    let ghost s8 = with_rules(
        s7,
        has4,
        has6,
        seq!["not"@, "iif"@, "lo"@, "lookup"@, table@, "suppress_prefixlength"@, "0"@],
    );
    let ghost s9 = with_rules(s8, has4, has6, seq!["iif"@, if_name@, "goto"@, anchor@]);
    let ghost s10a = with_rule(s9, false, seq!["not"@, "iif"@, "lo"@, "lookup"@, table@]);
    let ghost s10 = if has4 {
        with_network_rules(s10a, false, inet4@, seq!["iif"@, "lo"@, "from"@], table@)
    } else {
        s9
    };
    let ghost s11a = with_rule(s10, true, seq!["not"@, "iif"@, "lo"@, "lookup"@, table@]);
    let ghost s11 = if has6 {
        with_network_rules(s11a, true, inet6@, seq!["iif"@, "lo"@, "from"@], table@)
    } else {
        s10
    };
    proof {
        lemma_uid_priorities(s2, has4, has6, ranges@, anchor@);
        lemma_interface_priorities(
            s3,
            has4,
            has6,
            route::texts(cfg.include_interface@),
            "lookup"@,
            table@,
        );
        lemma_interface_priorities(
            s3,
            has4,
            has6,
            route::texts(cfg.exclude_interface@),
            "goto"@,
            anchor@,
        );
        lemma_network_priorities(s5, false, inet4@, seq!["to"@], table@);
        lemma_network_priorities(s6, true, inet6@, seq!["to"@], table@);
        lemma_network_priorities(s10a, false, inet4@, seq!["iif"@, "lo"@, "from"@], table@);
        lemma_network_priorities(s11a, true, inet6@, seq!["iif"@, "lo"@, "from"@], table@);
        assert(linux_setup(*cfg, if_name@).p4 == s11.p4);
        assert(linux_setup(*cfg, if_name@).p6 == s11.p6);
    }
    rules.add_uid_rules(has4, has6, ranges, anchor.as_str());
    if cfg.include_interface.len() > 0 {
        rules.add_interface_rules(has4, has6, &cfg.include_interface, "lookup", table.as_str());
        let tail: CommandLine = no_words().arg("goto").arg(anchor.as_str());
        assert(tail@ =~= seq!["goto"@, anchor@]);
        rules.add_rules(has4, has6, &tail);
    } else {
        rules.add_interface_rules(has4, has6, &cfg.exclude_interface, "goto", anchor.as_str());
    }
    assert(rules@ == s4);
    if cfg.strict_route {
        let tail: CommandLine = no_words().arg("type").arg("unreachable");
        assert(tail@ =~= seq!["type"@, "unreachable"@]);
        rules.add_rules(!has4, !has6, &tail);
    }
    assert(rules@ == s5);
    let to: CommandLine = no_words().arg("to");
    assert(to@ =~= seq!["to"@]);
    rules.add_network_rules(false, inet4, &to, table.as_str());
    rules.add_network_rules(true, inet6, &to, table.as_str());
    assert(rules@ == s7);
    let tail: CommandLine = no_words().arg("not").arg("iif").arg("lo").arg("lookup").arg(
        table.as_str(),
    ).arg("suppress_prefixlength").arg("0");
    assert(tail@ =~= seq![
        "not"@,
        "iif"@,
        "lo"@,
        "lookup"@,
        table@,
        "suppress_prefixlength"@,
        "0"@,
    ]);
    rules.add_rules(has4, has6, &tail);
    let tail: CommandLine = no_words().arg("iif").arg(if_name).arg("goto").arg(anchor.as_str());
    assert(tail@ =~= seq!["iif"@, if_name@, "goto"@, anchor@]);
    rules.add_rules(has4, has6, &tail);
    assert(rules@ == s9);
    let out: CommandLine = no_words().arg("not").arg("iif").arg("lo").arg("lookup").arg(
        table.as_str(),
    );
    assert(out@ =~= seq!["not"@, "iif"@, "lo"@, "lookup"@, table@]);
    let from: CommandLine = no_words().arg("iif").arg("lo").arg("from");
    assert(from@ =~= seq!["iif"@, "lo"@, "from"@]);
    if has4 {
        rules.add_rule(false, &out);
        rules.add_network_rules(false, inet4, &from, table.as_str());
    }
    assert(rules@ == s10);
    if has6 {
        rules.add_rule(true, &out);
        rules.add_network_rules(true, inet6, &from, table.as_str());
    }
    assert(rules@ == s11);
    if has4 {
        rules.add_command(anchor_command(false, anchor.as_str(), base));
    }
    if has6 {
        rules.add_command(anchor_command(true, anchor.as_str(), base));
    }
    assert(rules@ == linux_setup(*cfg, if_name@));
    let state: String = state_string(rules.p4, rules.p6, anchor_prio);
    SetupPlan { commands: rules.commands, state_path: state_file(cfg.iproute2_table_index), state }
}

/// Plans the commands that lead traffic into the device on Linux. It is an error
/// if one of the rules would reach the anchor.
pub fn setup(cfg: &TunInboundConfig, if_name: &str) -> (r: Result<SetupPlan, TooManyRules>)
    requires
        cfg.iproute2_rule_index + ANCHOR_OFFSET <= u32::MAX,
        route::prefixes_positive(route::texts(cfg.address@)),
    ensures
        r is Ok <==> fits(linux_setup(*cfg, if_name@), cfg.iproute2_rule_index as int),
        r is Ok <==> rules_needed(*cfg, false) <= ANCHOR_OFFSET && rules_needed(*cfg, true)
            <= ANCHOR_OFFSET,
        r matches Ok(plan) ==> {
            &&& route::command_words(plan.commands@) == linux_setup(*cfg, if_name@).commands
            &&& priorities_apart(
                route::command_words(plan.commands@),
                cfg.iproute2_rule_index as int,
            )
            &&& plan.state_path@ == state_path(cfg.iproute2_table_index)
            &&& plan.state@ == state_text(
                linux_setup(*cfg, if_name@).p4 as nat,
                linux_setup(*cfg, if_name@).p6 as nat,
                (cfg.iproute2_rule_index + ANCHOR_OFFSET) as nat,
            )
        },
{
    let inet4: Vec<(IpAddr, u8)> = route::parse_addresses(&cfg.address, true);
    let inet6: Vec<(IpAddr, u8)> = route::parse_addresses(&cfg.address, false);
    let ranges: Vec<(u32, u32)> = uid::build_excluded_uid_ranges(
        &cfg.include_uid,
        &cfg.exclude_uid,
    );
    proof {
        lemma_excluded_ranges(cfg.include_uid@, cfg.exclude_uid@, ranges@);
        lemma_rules_needed(*cfg, if_name@);
    }
    let needed4: u128 = count_rules(cfg, ranges.len(), inet4.len());
    let needed6: u128 = count_rules(cfg, ranges.len(), inet6.len());
    if needed4 > ANCHOR_OFFSET as u128 || needed6 > ANCHOR_OFFSET as u128 {
        return Err(TooManyRules {  });
    }
    proof {
        law_rules_stay_before_anchor(*cfg, if_name@);
    }
    Ok(plan_commands(cfg, if_name, &ranges, &inet4, &inet6))
}

/// How often the deletion of the rules of one priority is tried.
pub const DELETES_PER_PRIORITY: usize = 3;

/// The numbers in the state file: the first unused priority of either family
/// and that of the anchor. Without three numbers, a margin above the base.
pub open spec fn remembered(state: Option<Seq<char>>, base: int) -> (int, int, int) {
    let n = match state {
        Some(s) => text::numbers_among(text::words(s), u32::MAX as nat),
        None => Seq::empty(),
    };
    if n.len() == 3 {
        (n[0] as int, n[1] as int, n[2] as int)
    } else {
        (base + 120, base + 120, base + ANCHOR_OFFSET)
    }
}

/// Whether the rules of a priority are deleted: those from `base` up to the
/// remembered one of the family, and those of the anchor.
pub open spec fn to_be_deleted(base: int, known: (int, int, int), v6: bool, prio: int) -> bool {
    base <= prio <= (if v6 {
        known.1
    } else {
        known.0
    }) || prio == known.2
}

/// The command that empties a family's routing table.
pub open spec fn flush_words(v6: bool, table_index: u32) -> Seq<Seq<char>> {
    ip_command(
        v6,
        seq!["route"@, "flush"@, "table"@, text::decimal(table_index as nat)],
    )
}

/// The command that deletes a rule of a priority.
pub open spec fn delete_words(v6: bool, prio: u32) -> Seq<Seq<char>> {
    ip_command(v6, seq!["rule"@, "del"@, "priority"@, text::decimal(prio as nat)])
}

/// Commands to be run first, and the priorities whose rules are then deleted:
/// from `first` up to and with the last of either family, and the anchor.
pub struct TeardownPlan {
    pub flush: Vec<CommandLine>,
    pub first: u32,
    pub last_v4: u32,
    pub last_v6: u32,
    pub anchor: u32,
}

impl TeardownPlan {
    /// Whether the rules of a priority are deleted.
    pub open spec fn deletes(self, v6: bool, prio: int) -> bool {
        self.first <= prio <= (if v6 {
            self.last_v6
        } else {
            self.last_v4
        }) || prio == self.anchor
    }

    /// Whether the anchor lies apart from the other priorities of a family.
    pub fn anchor_is_apart(&self, v6: bool) -> (r: bool)
        ensures
            r == !(self.first <= self.anchor <= (if v6 {
                self.last_v6
            } else {
                self.last_v4
            })),
    {
        let last: u32 = if v6 {
            self.last_v6
        } else {
            self.last_v4
        };
        self.anchor < self.first || last < self.anchor
    }
}

/// Plans how routes and rules are taken away on Linux; `state` is what the
/// state file holds, if it could be read.
pub fn teardown(cfg: &TunInboundConfig, state: Option<&str>) -> (r: TeardownPlan)
    requires
        state is None || text::numbers_among(
            text::words(state->0@),
            u32::MAX as nat,
        ).len() != 3 ==> cfg.iproute2_rule_index + 120 <= u32::MAX,
    ensures
        ({
            let known = remembered(
                match state {
                    Some(s) => Some(s@),
                    None => None,
                },
                cfg.iproute2_rule_index as int,
            );
            &&& r.first == cfg.iproute2_rule_index
            &&& r.last_v4 == known.0
            &&& r.last_v6 == known.1
            &&& r.anchor == known.2
            &&& forall|v6: bool, prio: int| #[trigger]
                r.deletes(v6, prio) <==> to_be_deleted(r.first as int, known, v6, prio)
        }),
        route::command_words(r.flush@) == seq![
            flush_words(false, cfg.iproute2_table_index),
            flush_words(true, cfg.iproute2_table_index),
        ],
{
    let base: u32 = cfg.iproute2_rule_index;
    let numbers: Vec<u64> = match state {
        Some(s) => text::numbers_in(&text::chars_of(s), u32::MAX as u64),
        None => Vec::new(),
    };
    proof {
        let n = numbers@.map_values(|n: u64| n as nat);
        if let Some(s) = state {
            assert(n == text::numbers_among(text::words(s@), u32::MAX as nat));
            lemma_numbers_bounded(text::words(s@), u32::MAX as nat);
            assert forall|i: int| 0 <= i < numbers@.len() implies numbers@[i] <= u32::MAX by {
                assert(n[i] <= u32::MAX);
            }
        } else {
            assert(n =~= Seq::<nat>::empty());
        }
        if n.len() == 3 {
            assert(n[0] == numbers@[0] && n[1] == numbers@[1] && n[2] == numbers@[2]);
        }
    }
    let (p4, p6, anchor): (u32, u32, u32) = if numbers.len() == 3 {
        (numbers[0] as u32, numbers[1] as u32, numbers[2] as u32)
    } else {
        (base + 120, base + 120, base + ANCHOR_OFFSET)
    };
    let mut flush: Vec<CommandLine> = Vec::new();
    assert(route::command_words(flush@) =~= Seq::<Seq<Seq<char>>>::empty());
    route::push_command(&mut flush, flush_command(false, cfg.iproute2_table_index));
    route::push_command(&mut flush, flush_command(true, cfg.iproute2_table_index));
    assert(route::command_words(flush@) =~= seq![
        flush_words(false, cfg.iproute2_table_index),
        flush_words(true, cfg.iproute2_table_index),
    ]);
    TeardownPlan { flush, first: base, last_v4: p4, last_v6: p6, anchor }
}

proof fn lemma_numbers_bounded(parts: Seq<Seq<char>>, max: nat)
    ensures
        forall|i: int|
            0 <= i < text::numbers_among(parts, max).len() ==> #[trigger] text::numbers_among(
                parts,
                max,
            )[i] <= max,
    decreases parts.len(),
{
    if parts.len() > 0 {
        lemma_numbers_bounded(parts.skip(1), max);
        let rest = text::numbers_among(parts.skip(1), max);
        let all = text::numbers_among(parts, max);
        assert forall|i: int| 0 <= i < all.len() implies #[trigger] all[i] <= max by {
            if text::unsigned_value(parts[0], max) is Some {
                if i > 0 {
                    assert(all[i] == rest[i - 1]);
                }
            } else {
                assert(all[i] == rest[i]);
            }
        }
    }
}

/// The command that empties a family's routing table.
fn flush_command(v6: bool, table_index: u32) -> (r: CommandLine)
    ensures
        r@ == flush_words(v6, table_index),
{
    let start: CommandLine = ip_start(v6);
    let ghost s0 = start@;
    let r: CommandLine = start.arg("route").arg("flush").arg("table").arg_number(table_index);
    proof {
        let words = seq!["route"@, "flush"@, "table"@, text::decimal(table_index as nat)];
        assert(r@ =~= s0 + words);
        assert(r@ == ip_command(v6, words));
    }
    r
}

/// The command that deletes a rule of a priority.
pub fn delete_rule(v6: bool, prio: u32) -> (r: CommandLine)
    ensures
        r@ == delete_words(v6, prio),
{
    let start: CommandLine = ip_start(v6);
    let ghost s0 = start@;
    let r: CommandLine = start.arg("rule").arg("del").arg("priority").arg_number(prio);
    proof {
        let words = seq!["rule"@, "del"@, "priority"@, text::decimal(prio as nat)];
        assert(r@ =~= s0 + words);
        assert(r@ == ip_command(v6, words));
    }
    r
}

proof fn lemma_digits_not_space(d: Seq<char>)
    requires
        text::all_digits(d),
    ensures
        forall|i: int| 0 <= i < d.len() ==> !text::is_space(#[trigger] d[i]),
{
    assert forall|i: int| 0 <= i < d.len() implies !text::is_space(#[trigger] d[i]) by {
        assert(text::is_digit(d[i]));
    }
}

proof fn lemma_space_after(d: Seq<char>, rest: Seq<char>, from: int)
    requires
        0 <= from <= d.len(),
        forall|i: int| 0 <= i < d.len() ==> !text::is_space(#[trigger] d[i]),
        rest.len() > 0 ==> text::is_space(rest[0]),
    ensures
        text::space_from(d + rest, from) == d.len(),
    decreases d.len() - from,
{
    if from < d.len() {
        assert((d + rest)[from] == d[from]);
        lemma_space_after(d, rest, from + 1);
    } else if rest.len() > 0 {
        assert((d + rest)[from] == rest[0]);
    }
}

/// The words of a number followed by nothing or by a space and more.
proof fn lemma_words_of_number(n: nat, rest: Seq<char>)
    requires
        rest.len() > 0 ==> rest[0] == ' ',
    ensures
        text::words(text::decimal(n) + rest) == seq![text::decimal(n)] + text::words(rest),
{
    let d = text::decimal(n);
    let s = d + rest;
    text::law_decimal_roundtrip(n);
    lemma_digits_not_space(d);
    assert(s[0] == d[0]);
    assert(text::trimmed_start(s) == s);
    lemma_space_after(d, rest, 0);
    assert(s.take(d.len() as int) =~= d);
    assert(s.skip(d.len() as int) =~= rest);
}

/// The words after a space.
proof fn lemma_words_skip_space(rest: Seq<char>)
    ensures
        text::words(seq![' '] + rest) == text::words(rest),
{
    let s = seq![' '] + rest;
    assert(s.skip(1) =~= rest);
    assert(text::trimmed_start(s) == text::trimmed_start(rest));
}

/// What the setup writes to the state file, the teardown reads back: the first
/// unused priority of either family and that of the anchor. Exactly the
/// priorities from the base up to that one, and the anchor, are deleted.
pub proof fn law_state_roundtrip(p4: u32, p6: u32, anchor: u32, base: int, v6: bool, prio: int)
    ensures
        ({
            let known = remembered(
                Some(state_text(p4 as nat, p6 as nat, anchor as nat)),
                base,
            );
            &&& known == (p4 as int, p6 as int, anchor as int)
            &&& to_be_deleted(base, known, v6, prio) <==> base <= prio <= (if v6 {
                p6
            } else {
                p4
            }) || prio == anchor
        }),
{
    let a = text::decimal(p4 as nat);
    let b = text::decimal(p6 as nat);
    let c = text::decimal(anchor as nat);
    let s = state_text(p4 as nat, p6 as nat, anchor as nat);
    let t2 = seq![' '] + c;
    let t1 = seq![' '] + (b + t2);
    assert(s =~= a + t1);
    assert(c + Seq::<char>::empty() =~= c);
    lemma_words_of_number(p4 as nat, t1);
    lemma_words_skip_space(b + t2);
    lemma_words_of_number(p6 as nat, t2);
    lemma_words_skip_space(c);
    lemma_words_of_number(anchor as nat, Seq::empty());
    assert(text::words(Seq::<char>::empty()) =~= Seq::<Seq<char>>::empty());
    let w = text::words(s);
    assert(w =~= seq![a, b, c]);
    let max = u32::MAX as nat;
    text::law_parse_of_decimal(p4 as nat, max);
    text::law_parse_of_decimal(p6 as nat, max);
    text::law_parse_of_decimal(anchor as nat, max);
    assert(w.skip(1) =~= seq![b, c]);
    assert(w.skip(1).skip(1) =~= seq![c]);
    assert(w.skip(1).skip(1).skip(1) =~= Seq::<Seq<char>>::empty());
    reveal_with_fuel(text::numbers_among, 4);
    assert(text::numbers_among(w, max) =~= seq![p4 as nat, p6 as nat, anchor as nat]);
}

/// The teardown deletes every rule that the setup has added: with the state file
/// that the setup has written, the priority of each is among those deleted.
pub proof fn law_teardown_undoes_setup(cfg: TunInboundConfig, if_name: Seq<char>, v6: bool, i: int)
    requires
        cfg.iproute2_rule_index + ANCHOR_OFFSET <= u32::MAX,
        fits(linux_setup(cfg, if_name), cfg.iproute2_rule_index as int),
        0 <= i < linux_setup(cfg, if_name).commands.len(),
    ensures
        ({
            let plan = linux_setup(cfg, if_name);
            let base = cfg.iproute2_rule_index as int;
            let state = state_text(
                plan.p4 as nat,
                plan.p6 as nat,
                (base + ANCHOR_OFFSET) as nat,
            );
            rule_priority(plan.commands[i], v6) matches Some(prio) ==> to_be_deleted(
                base,
                remembered(Some(state), base),
                v6,
                prio as int,
            )
        }),
{
    let plan = linux_setup(cfg, if_name);
    let p = rules_before_anchor(cfg, if_name);
    let base = cfg.iproute2_rule_index as int;
    reveal(tidy);
    lemma_tidy_setup(cfg, if_name);
    lemma_anchor_priority(false, base);
    lemma_anchor_priority(true, base);
    law_state_roundtrip(
        plan.p4 as u32,
        plan.p6 as u32,
        (base + ANCHOR_OFFSET) as u32,
        base,
        v6,
        0,
    );
    if i < p.commands.len() {
        assert(plan.commands[i] == p.commands[i]);
        assert(rule_priority(p.commands[i], v6) == rule_priority(plan.commands[i], v6));
    } else {
        assert(plan.commands[i] == anchor_words(false, base) || plan.commands[i] == anchor_words(
            true,
            base,
        ));
    }
}

} // verus!
