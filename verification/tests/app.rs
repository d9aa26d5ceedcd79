use bytes::Bytes;
use reflex::app::dispatcher::{
    after_lookup, after_route_tcp, after_route_udp, dispatch_tcp, dispatch_udp, missing_outbound,
    peer_or_none, restore_target, stage_after, udp_timeout_for_port, Flow, Next, RouteAction, Stage,
    Taker, UdpSessionTable,
};
use reflex::app::outbound_mgr::{
    outbound_kind, OutboundKind, OutboundManager, OutboundParts, OutboundStatus,
};
use reflex::app::ruleset_registry::{
    classify_download, find_rule_set, Downloaded, ReloadError, RuleSetMeta, RuleSetRegistry,
};
use reflex::app::sniff::{SniffResult, SniffType};
use reflex::config::outbound::{
    BlockOutboundConfig, DirectOutboundConfig, OutboundConfig, SelectorOutboundConfig,
};
use reflex::config::route::{RouteConfig, RuleSetFormat, RuleSetRef, RuleSetType};
use reflex::dns::cache::NANOS;
use reflex::dns::resolver::FakeIpLookup;
use reflex::inbound::dns::{frame_message, split_message, too_large_message, Framed};
use reflex::inbound::stream::SniffedStream;
use reflex::inbound::target::Target;
use reflex::inbound::tproxy::{
    accept_backoff_ms, extract_original_dst_from_cmsg, sockaddr_storage_to_socketaddr,
    tproxy_udp_timeout_for_port, ControlItem, TProxySessions, AF_INET, AF_INET6, EMFILE,
    IPPROTO_IP, IPPROTO_IPV6, IPV6_ORIGDSTADDR, IP_ORIGDSTADDR,
};
use reflex::net::{parse_ip, SocketAddr};

fn sock(ip: &str, port: u16) -> SocketAddr {
    SocketAddr { ip: parse_ip(ip).unwrap(), port }
}

fn domain(t: &Target) -> Option<(&str, u16)> {
    match t {
        Target::Domain(d, p) => Some((d.as_str(), *p)),
        Target::Socket(_) => None,
    }
}

// Targets

#[test]
fn targets_are_written() {
    let d = Target::Domain("a.com".into(), 443);
    assert_eq!((d.port(), d.host(), d.to_string()), (443, "a.com".into(), "a.com:443".into()));
    let s = Target::Socket(sock("::1", 53));
    assert_eq!(s.to_string(), "[::1]:53");
    assert_eq!(s.host(), "::1");
    assert_eq!(s.to_socket_addr_lossy(), sock("::1", 53));
    assert_eq!(d.to_socket_addr_lossy(), sock("0.0.0.0", 443));
    assert_eq!(domain(&d.copy()), Some(("a.com", 443)));
}

#[test]
fn a_prefix_is_read_before_the_rest() {
    let mut s = SniffedStream::new();
    assert!(s.read(4).is_empty());
    s.prepend(Bytes::from_static(b"world"));
    s.prepend(Bytes::from_static(b"hello "));
    assert_eq!(s.read(7), b"worldhe".to_vec());
    assert_eq!(s.read(100), b"llo ".to_vec());
    assert!(s.read(4).is_empty());
}

#[test]
fn messages_are_framed() {
    let f = frame_message(b"abc");
    assert_eq!(f, vec![0, 3, b'a', b'b', b'c']);
    let mut two = f.clone();
    two.extend_from_slice(&f[..3]);
    let Framed::Message { body, next } = split_message(&two) else { panic!() };
    assert_eq!((body, next), (b"abc".to_vec(), 5));
    assert!(matches!(split_message(&two[5..]), Framed::Incomplete));
    assert!(matches!(split_message(&[0]), Framed::Incomplete));
    assert!(matches!(split_message(&[0x10, 0x01]), Framed::TooLarge(4097)));
    assert!(too_large_message(4097).contains("4097"));
}

// Transparent proxying

#[test]
fn kernel_addresses_are_read() {
    let mut v4 = vec![2u8, 0, 0, 80, 1, 2, 3, 4];
    v4.resize(16, 0);
    assert_eq!(sockaddr_storage_to_socketaddr(AF_INET, &v4), Ok(sock("1.2.3.4", 80)));
    let mut v6 = vec![10u8, 0, 1, 187, 0, 0, 0, 0];
    v6.extend_from_slice(&[0, 0, 0, 0, 0, 0, 0, 0, 0, 0, 0, 0, 0, 0, 0, 1]);
    v6.resize(28, 0);
    assert_eq!(sockaddr_storage_to_socketaddr(AF_INET6, &v6), Ok(sock("::1", 443)));
    assert_eq!(sockaddr_storage_to_socketaddr(7, &v6), Err(7));

    let items = vec![
        ControlItem { level: 1, kind: 2, data: vec![] },
        ControlItem { level: IPPROTO_IP, kind: IP_ORIGDSTADDR, data: v4 },
    ];
    assert_eq!(extract_original_dst_from_cmsg(&items), Some(sock("1.2.3.4", 80)));
    let items = vec![ControlItem { level: IPPROTO_IPV6, kind: IPV6_ORIGDSTADDR, data: v6 }];
    assert_eq!(extract_original_dst_from_cmsg(&items), Some(sock("::1", 443)));
    assert_eq!(extract_original_dst_from_cmsg(&vec![]), None);
}

#[test]
fn accepting_slows_down_when_files_run_out() {
    assert_eq!(accept_backoff_ms(Some(EMFILE)), 200);
    assert!(accept_backoff_ms(None) < 200);
}

#[test]
fn idle_transparent_sessions_end() {
    let mut t = TProxySessions::new();
    let (a, b) = (sock("10.0.0.1", 1), sock("8.8.8.8", 53));
    assert!(t.touch(a, b, 0));
    assert!(!t.touch(a, b, 900_000_000));
    assert!(t.touch(b, a, NANOS));
    // Seen at 0.9 s, with ten seconds to go: still there at 10.1 s.
    t.gc(10_100_000_000);
    assert!(!t.touch(a, b, 900_000_000));
    t.gc(900_000_000 + tproxy_udp_timeout_for_port(53) * NANOS - 1);
    assert!(!t.touch(a, b, 900_000_000));
    t.gc(900_000_000 + tproxy_udp_timeout_for_port(53) * NANOS);
    assert!(t.touch(a, b, 100 * NANOS));
}

// Dispatching

#[test]
fn timeouts_depend_on_the_port() {
    assert!(udp_timeout_for_port(53) < udp_timeout_for_port(5000));
    assert_eq!(udp_timeout_for_port(5000), 300);
}

#[test]
fn made_up_addresses_become_names() {
    let t = || Target::Socket(sock("198.18.0.9", 443));
    let found = restore_target(t(), FakeIpLookup::Found("a.com".into())).unwrap();
    assert_eq!(domain(&found), Some(("a.com", 443)));
    assert!(restore_target(t(), FakeIpLookup::Missing).is_none());
    let same = restore_target(t(), FakeIpLookup::NotFakeIp).unwrap();
    assert_eq!(same.to_socket_addr_lossy(), sock("198.18.0.9", 443));
}

#[test]
fn what_was_sniffed_is_applied() {
    let hello = || {
        Some(SniffResult { domain: Some("a.com".to_string()), protocol: "tls" })
    };
    let mut f = Flow::new(Target::Socket(sock("1.2.3.4", 443)));
    f.apply_sniff(hello(), false, b"");
    assert_eq!(f.sniffed_protocol.as_deref(), Some("tls"));
    assert_eq!(f.sniffed_domain.as_deref(), Some("a.com"));
    assert!(domain(&f.target).is_none());
    f.apply_sniff(hello(), true, b"");
    assert_eq!(domain(&f.target), Some(("a.com", 443)));
}

#[test]
fn routes_are_followed() {
    let t = Target::Domain("a.com".into(), 443);
    let sniff = || RouteAction::Sniff {
        timeout_ms: 9,
        override_destination: true,
        sniff_types: vec![SniffType::Tls],
    };
    assert!(matches!(
        after_route_tcp(Stage::First, sniff(), &t),
        Next::Sniff { timeout_ms: 9, override_destination: true, .. }
    ));
    let resolve = || RouteAction::Resolve { server: Some("dns".into()) };
    assert!(matches!(
        after_route_tcp(Stage::AfterSniff, resolve(), &t),
        Next::Lookup { host, port: 443, server: Some(_) } if host == "a.com"
    ));
    assert!(matches!(
        after_route_udp(Stage::AfterResolve, RouteAction::Outbound("x".into()), &t),
        Next::Dispatch(RouteAction::Outbound(o)) if o == "x"
    ));
    assert_eq!(stage_after(&Next::RouteAfterSniff), Some(Stage::AfterSniff));
    assert_eq!(stage_after(&Next::RouteAfterResolve(t.copy())), Some(Stage::AfterResolve));
    assert_eq!(stage_after(&Next::Dispatch(RouteAction::DnsOut)), None);
    let Next::RouteAfterResolve(to) = after_lookup(&t, parse_ip("9.9.9.9")) else { panic!() };
    assert_eq!(to.to_socket_addr_lossy(), sock("9.9.9.9", 443));
    assert!(matches!(dispatch_tcp(RouteAction::DnsOut), Taker::Dns));
    assert!(matches!(dispatch_udp(RouteAction::Outbound("x".into())), Taker::Outbound(o) if o == "x"));
    assert!(missing_outbound("x").contains('x'));
    assert_eq!(peer_or_none(None), sock("0.0.0.0", 0));
    assert_eq!(peer_or_none(Some(sock("1.1.1.1", 1))), sock("1.1.1.1", 1));
}

#[test]
fn datagram_sessions_are_reused() {
    let mut s = UdpSessionTable::new();
    let src = sock("10.0.0.1", 1);
    let t = Target::Domain("a.com".into(), 5000);
    s.insert(src, &t, "out", 7, 0);
    assert_eq!(s.find(src, &t, "out"), Some(7));
    assert_eq!(s.find(src, &t, "other"), None);
    assert_eq!(s.get_live(src, &t, "out", false, 200 * NANOS + 5), Some(7));
    s.gc(&[], 800 * NANOS + 4);
    assert_eq!(s.find(src, &t, "out"), Some(7));
    s.gc(&[], 800 * NANOS + 5);
    assert_eq!(s.find(src, &t, "out"), None);
    s.insert(src, &t, "out", 8, 600);
    assert_eq!(s.get_live(src, &t, "out", true, 601), None);
    assert_eq!(s.find(src, &t, "out"), None);
}

// Outbounds

fn direct(tag: &str) -> OutboundConfig {
    OutboundConfig::Direct(DirectOutboundConfig { tag: tag.into(), bind_address: None })
}

#[test]
fn outbounds_are_found() {
    let group = OutboundConfig::Selector(SelectorOutboundConfig {
        tag: "pick".into(),
        outbounds: vec!["d".into()],
        providers: None,
        default: None,
        interrupt_existing_connections: false,
    });
    assert_eq!(outbound_kind(&group, true), OutboundKind::Selector);
    let block = OutboundConfig::Block(BlockOutboundConfig { tag: "block".into() });
    let m = OutboundManager::from_config(&[direct("d"), group, block]).unwrap();
    assert!(!m.is_empty());
    // An outbound that goes out directly is always there.
    assert_eq!(m.len(), 4);
    for tag in ["d", "pick", "block", "direct"] {
        let i = m.get(tag).unwrap();
        assert_eq!(m.as_map()[i].tag, tag);
        assert!(m.as_registry().contains(&(tag.to_string(), i)));
    }
    assert_eq!(m.get("nobody"), None);
    assert!(m.select("pick").is_ok());
    assert!(m.select("nobody").is_err());
    let e = OutboundManager::from_config(&[direct("d"), direct("d")]).err().unwrap();
    assert_eq!(e.tag, "d");
    assert!(e.message().contains('d'));
}

#[test]
fn outbounds_get_their_parts() {
    let group = OutboundConfig::Selector(SelectorOutboundConfig {
        tag: "pick".into(),
        outbounds: vec!["d".into()],
        providers: None,
        default: None,
        interrupt_existing_connections: false,
    });
    let block = OutboundConfig::Block(BlockOutboundConfig { tag: "block".into() });
    let all = OutboundParts {
        resolver: true,
        cache_writer: true,
        cache_reader: false,
        providers: true,
    };
    let none = OutboundParts {
        resolver: false,
        cache_writer: false,
        cache_reader: false,
        providers: false,
    };
    let m = OutboundManager::from_config_full(&[group, block], all, 100, true).unwrap();
    let slots = m.as_map();
    assert_eq!(slots[0].parts, OutboundParts { resolver: false, ..all });
    assert_eq!(slots[0].mark, None);
    assert_eq!(slots[1].parts, none);
    assert_eq!(slots[1].mark, None);
    // The direct outbound that is always there.
    assert_eq!(slots[2].tag, "direct");
    assert_eq!(slots[2].config, None);
    assert_eq!(slots[2].parts, OutboundParts { resolver: true, ..none });
    assert_eq!(slots[2].mark, Some(100));
    let m = OutboundManager::from_config(&[direct("d")]).unwrap();
    assert_eq!(m.as_map()[0].parts, none);
    assert_eq!(m.as_map()[0].mark, Some(0));
}

#[test]
fn statuses_are_sorted() {
    let m = OutboundManager::from_config_with_resolver(&[direct("b"), direct("a")], true).unwrap();
    let one = |n: &str| OutboundStatus {
        name: n.into(),
        kind_name: "Direct".into(),
        now: None,
        all: vec![],
    };
    let sorted = m.statuses(vec![one("b"), one("direct"), one("a")]);
    let names: Vec<&str> = sorted.iter().map(|s| s.name.as_str()).collect();
    assert_eq!(names, ["a", "b", "direct"]);
    let reported: Vec<OutboundStatus> = m.as_map().iter().map(|s| one(&s.tag)).collect();
    assert_eq!(m.status("a", &reported).unwrap().name, "a");
    assert!(m.status("nobody", &reported).is_none());
}

// Rule sets

fn remote(tag: &str, url: Option<&str>) -> RuleSetRef {
    RuleSetRef {
        tag: tag.into(),
        kind: RuleSetType::Remote,
        format: RuleSetFormat::Source,
        path: None,
        url: url.map(|u| u.to_string()),
        download_detour: None,
    }
}

#[test]
fn rule_sets_are_reloaded() {
    let mut local = remote("local", None);
    local.kind = RuleSetType::Local;
    let route = RouteConfig {
        rules: vec![],
        final_outbound: "direct".into(),
        rule_set: vec![remote("geo", Some("http://a/x")), remote("blank", None), local],
        resolve_dns: false,
    };
    assert_eq!(find_rule_set(&route.rule_set, "blank"), Some(1));
    let meta = vec![("geo".to_string(), RuleSetMeta { rule_count: 1, updated_at_ms: 2 })];
    let mut r = RuleSetRegistry::from_router_meta(route, meta);
    assert_eq!(r.lookup("geo"), Some(RuleSetMeta { rule_count: 1, updated_at_ms: 2 }));
    assert_eq!(r.reload_remote("geo").ok().unwrap().url, "http://a/x");
    assert_eq!(r.reload_remote("nobody").err(), Some(ReloadError::NotFound));
    assert_eq!(r.reload_remote("local").err(), Some(ReloadError::NotRemote));
    assert_eq!(r.reload_remote("blank").err(), Some(ReloadError::MissingUrl));
    assert!(ReloadError::NotRemote.message("local").contains("local"));
    r.finish_reload("geo", 50, 99);
    assert_eq!(r.lookup("geo"), Some(RuleSetMeta { rule_count: 50, updated_at_ms: 99 }));
    assert_eq!(r.snapshot().len(), 1);
    assert_eq!(r.lookup("nobody"), None);
}

#[test]
fn downloads_are_told_apart() {
    assert!(matches!(
        classify_download(RuleSetFormat::Binary, &[0xff]),
        Ok(Downloaded::Binary)
    ));
    assert!(matches!(
        classify_download(RuleSetFormat::Source, b" {\"rules\":[]}"),
        Ok(Downloaded::Json { .. })
    ));
    assert!(matches!(
        classify_download(RuleSetFormat::Source, b"a.com\n"),
        Ok(Downloaded::Lines { .. })
    ));
    let e = classify_download(RuleSetFormat::Source, &[b'a', 0xff, 0xfe]).err().unwrap();
    let fault = String::from_utf8(vec![b'a', 0xff, 0xfe]).unwrap_err().to_string();
    assert_eq!(
        e.message("ads"),
        format!("rule_set 'ads': downloaded source is not UTF-8: {fault}")
    );
}
