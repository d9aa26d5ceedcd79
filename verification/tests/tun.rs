use reflex::inbound::tun::checksum::{
    checksum_with_pseudo_v4, checksum_with_pseudo_v6, internet_checksum, recompute_echo_checksum_v6,
    recompute_ipv4_checksum, recompute_tcp_checksum_v4, recompute_tcp_checksum_v6, udp_checksum_v4,
    udp_checksum_v6,
};
use reflex::inbound::tun::device::{
    after_bind, after_read, device_netmask, idle_nanos, interface_name, packet_buffer_len,
    tun_addresses, udp_timeout_secs, BindStep, ReadEvent, ReadStep, TunError, UdpSessions,
};
use reflex::inbound::tun::linux;
use reflex::inbound::tun::macos;
use reflex::inbound::tun::other;
use reflex::inbound::tun::packet::{
    build_udp_reply_packet, parse_udp_v4, process_packet, TunAction, TunEndpoint,
};
use reflex::inbound::tun::route::{
    address_after, parse_addr_prefix, parse_addresses, prefix_len_to_mask_v4, v4_network,
    v6_network, CommandLine, TunInboundConfig,
};
use reflex::inbound::tun::translation::{TcpNat, NAT_PORT_END, NAT_PORT_START};
use reflex::inbound::tun::uid::{
    build_excluded_uid_ranges, complement_ranges, merge_ranges, subtract_ranges,
};
use reflex::inbound::tun::windows;
use reflex::net::{parse_ip, IpAddr, SocketAddr};

fn sock(ip: &str, port: u16) -> SocketAddr {
    SocketAddr { ip: parse_ip(ip).unwrap(), port }
}

fn v4(ip: &str) -> u32 {
    match parse_ip(ip) {
        Some(IpAddr::V4(x)) => x,
        _ => panic!(),
    }
}

fn v6(ip: &str) -> u128 {
    match parse_ip(ip) {
        Some(IpAddr::V6(x)) => x,
        _ => panic!(),
    }
}

#[test]
fn test_parse_addr_prefix() {
    let (ip, len) = parse_addr_prefix("198.18.0.1/16").unwrap();
    assert_eq!(ip, parse_ip("198.18.0.1").unwrap());
    assert_eq!(len, 16);
}

#[test]
fn test_parse_addr_prefix_ipv6() {
    let (ip, len) = parse_addr_prefix("fd00::1/126").unwrap();
    assert!(ip.is_ipv6());
    assert_eq!(len, 126);
}

#[test]
fn test_parse_addr_prefix_invalid() {
    assert!(parse_addr_prefix("198.18.0.1").is_none());
    assert!(parse_addr_prefix("198.18.0.1/33").is_none());
}

#[test]
fn test_internet_checksum_nonzero() {
    let hdr = [
        0x45u8, 0x00, 0x00, 0x3c, 0x1c, 0x46, 0x40, 0x00, 0x40, 0x06, 0x00, 0x00, 0xac, 0x10, 0x0a,
        0x63, 0xac, 0x10, 0x0a, 0x0c,
    ];
    assert_ne!(internet_checksum(&hdr), 0);
    assert_eq!(internet_checksum(&hdr), 0xb1e6);
}

#[test]
fn test_tcp_nat_alloc_and_lookup() {
    let mut nat = TcpNat::new();
    let src = sock("1.2.3.4", 5678);
    let dst = sock("8.8.8.8", 80);
    let port = nat.lookup_or_insert(src, dst, 0);
    assert!(port >= NAT_PORT_START && port <= NAT_PORT_END);
    assert_eq!(nat.lookup_or_insert(src, dst, 0), port);
    let (got_src, got_dst) = nat.lookup_back(port, 0).unwrap();
    assert_eq!(got_src, src);
    assert_eq!(got_dst, dst);
}

#[test]
fn test_tcp_nat_gc() {
    let mut nat = TcpNat::new();
    let src = sock("1.2.3.4", 9999);
    let dst = sock("9.9.9.9", 443);
    nat.lookup_or_insert(src, dst, 0);
    nat.gc(0, 1);
    assert!(nat.is_empty());
}

#[test]
fn test_tcp_nat_eviction_correctness() {
    let mut nat = TcpNat::new();
    for i in 0..(NAT_PORT_END - NAT_PORT_START + 1) {
        let src = sock(&format!("10.0.{}.{}", i / 256, i % 256), 1000);
        nat.lookup_or_insert(src, sock("8.8.8.8", 80), i as u64);
    }
    let new_src = sock("192.168.99.1", 9999);
    let new_dst = sock("1.1.1.1", 443);
    let port = nat.lookup_or_insert(new_src, new_dst, 60000);
    assert!(port >= NAT_PORT_START && port <= NAT_PORT_END);
    assert_eq!(nat.lookup_back(port, 60000), Some((new_src, new_dst)));
    // The entry that was idle longest made room; the next oldest is still there.
    let second = nat.lookup_or_insert(sock("10.0.0.1", 1000), sock("8.8.8.8", 80), 60001);
    assert_eq!(nat.lookup_back(second, 60001), Some((sock("10.0.0.1", 1000), sock("8.8.8.8", 80))));
    assert_ne!(second, port);
}

#[test]
fn idle_entries_leave_first() {
    let mut nat = TcpNat::new();
    let a = nat.lookup_or_insert(sock("1.1.1.1", 1), sock("8.8.8.8", 80), 0);
    let b = nat.lookup_or_insert(sock("1.1.1.1", 2), sock("8.8.8.8", 80), 50);
    assert_ne!(a, b);
    nat.gc(60, 100);
    assert!(nat.lookup_back(a, 100).is_none());
    assert!(nat.lookup_back(b, 100).is_some());
    assert!(nat.lookup_back(9, 100).is_none());
}

#[test]
fn test_build_udp_reply_v4_no_pi() {
    let src = sock("8.8.8.8", 53);
    let dst = sock("192.168.1.1", 12345);
    let payload = b"hello world";
    let pkt = build_udp_reply_packet(src, dst, payload).unwrap();
    assert_eq!(pkt.len(), 20 + 8 + payload.len());
    assert_eq!(pkt[0] >> 4, 4);
    let (s, d, data) = parse_udp_v4(&pkt[20..], v4("8.8.8.8"), v4("192.168.1.1")).unwrap();
    assert_eq!((s, d), (src, dst));
    assert_eq!(&data[..], payload);
}

#[test]
fn test_build_udp_reply_v6_no_pi() {
    let src = sock("2001:db8::1", 53);
    let dst = sock("fe80::1", 12345);
    let payload = b"test";
    let pkt = build_udp_reply_packet(src, dst, payload).unwrap();
    assert_eq!(pkt.len(), 40 + 8 + payload.len());
    assert_eq!(pkt[0] >> 4, 6);
}

#[test]
fn replies_need_one_family() {
    assert!(build_udp_reply_packet(sock("1.1.1.1", 1), sock("::1", 1), b"x").is_none());
    assert!(build_udp_reply_packet(sock("1.1.1.1", 1), sock("2.2.2.2", 1), &[0; 65507]).is_some());
}

#[test]
fn test_udp_checksum_v4_nonzero() {
    let src = [8u8, 8, 8, 8];
    let dst = [192u8, 168, 1, 1];
    let udp = [0x00, 0x35, 0x30, 0x39, 0x00, 0x0c, 0x00, 0x00, b'h', b'i', b'!', b'!'];
    let cksum = udp_checksum_v4(&src, &dst, &udp);
    assert_ne!(cksum, 0);
}

#[test]
fn checksums_verify() {
    let mut pkt = [
        0x45u8, 0, 0, 0x28, 0, 1, 0, 0, 64, 6, 0, 0, 10, 0, 0, 1, 10, 0, 0, 2, 0, 80, 1, 0, 0, 0, 0,
        1, 0, 0, 0, 2, 0x50, 2, 1, 0, 0, 0, 0, 0,
    ];
    recompute_ipv4_checksum(&mut pkt);
    assert_eq!(internet_checksum(&pkt[..20]), 0);
    recompute_tcp_checksum_v4(&mut pkt, 20);
    assert_eq!(checksum_with_pseudo_v4(&[10, 0, 0, 1], &[10, 0, 0, 2], 6, &pkt[20..]), 0);

    let mut six = vec![0x60u8, 0, 0, 0, 0, 20, 6, 64];
    six.extend_from_slice(&[1; 16]);
    six.extend_from_slice(&[2; 16]);
    six.extend_from_slice(&pkt[20..]);
    recompute_tcp_checksum_v6(&mut six);
    assert_eq!(checksum_with_pseudo_v6(&[1; 16], &[2; 16], 6, &six[40..]), 0);
    recompute_echo_checksum_v6(&mut six);
    assert_eq!(checksum_with_pseudo_v6(&[1; 16], &[2; 16], 58, &six[40..]), 0);
    assert_ne!(udp_checksum_v6(&[1; 16], &[2; 16], &[0, 1, 0, 2, 0, 8, 0, 0]), 0);
}

fn endpoint() -> TunEndpoint {
    TunEndpoint {
        inet4_addr: Some(v4("198.18.0.1")),
        inet4_next: Some(v4("198.18.0.2")),
        inet6_addr: Some(v6("fd00::1")),
        inet6_next: Some(v6("fd00::2")),
        tcp_port_v4: 4000,
        tcp_port_v6: 6000,
    }
}

fn tcp_v4(src: [u8; 4], sport: u16, dst: [u8; 4], dport: u16) -> Vec<u8> {
    let mut p = vec![0x45u8, 0, 0, 40, 0, 1, 0, 0, 64, 6, 0, 0];
    p.extend_from_slice(&src);
    p.extend_from_slice(&dst);
    p.extend_from_slice(&sport.to_be_bytes());
    p.extend_from_slice(&dport.to_be_bytes());
    p.extend_from_slice(&[0, 0, 0, 1, 0, 0, 0, 0, 0x50, 2, 1, 0, 0, 0, 0, 0]);
    p
}

#[test]
fn connections_go_to_the_listener_and_back() {
    let mut nat = TcpNat::new();
    let out = tcp_v4([198, 18, 0, 1], 5555, [93, 184, 216, 34], 443);
    let TunAction::Write(p) = process_packet(&out, &endpoint(), &mut nat, 0) else { panic!() };
    // From the address next to ours, from a port that stands for the connection.
    assert_eq!(&p[12..16], &[198, 18, 0, 2]);
    assert_eq!(&p[16..20], &[198, 18, 0, 1]);
    let port = u16::from_be_bytes([p[20], p[21]]);
    assert!((NAT_PORT_START..=NAT_PORT_END).contains(&port));
    assert_eq!(u16::from_be_bytes([p[22], p[23]]), 4000);
    assert_eq!(internet_checksum(&p[..20]), 0);

    let back = tcp_v4([198, 18, 0, 1], 4000, [198, 18, 0, 2], port);
    let TunAction::Write(p) = process_packet(&back, &endpoint(), &mut nat, 0) else { panic!() };
    assert_eq!(&p[12..16], &[93, 184, 216, 34]);
    assert_eq!(&p[16..20], &[198, 18, 0, 1]);
    assert_eq!(u16::from_be_bytes([p[20], p[21]]), 443);
    assert_eq!(u16::from_be_bytes([p[22], p[23]]), 5555);
}

#[test]
fn datagrams_and_pings() {
    let mut nat = TcpNat::new();
    let pkt = build_udp_reply_packet(sock("10.0.0.9", 1111), sock("8.8.8.8", 53), b"q").unwrap();
    let TunAction::Udp { src, dst, data } = process_packet(&pkt, &endpoint(), &mut nat, 0) else {
        panic!()
    };
    assert_eq!((src, dst), (sock("10.0.0.9", 1111), sock("8.8.8.8", 53)));
    assert_eq!(&data[..], b"q");

    let mut ping = vec![0x45u8, 0, 0, 28, 0, 1, 0, 0, 64, 1, 0, 0, 10, 0, 0, 9, 198, 18, 0, 1];
    ping.extend_from_slice(&[8, 0, 0, 0, 0, 7, 0, 1]);
    let TunAction::Write(pong) = process_packet(&ping, &endpoint(), &mut nat, 0) else { panic!() };
    assert_eq!(&pong[12..20], &[198, 18, 0, 1, 10, 0, 0, 9]);
    assert_eq!(pong[20], 0);
    assert_eq!(internet_checksum(&pong[20..]), 0);

    assert!(matches!(process_packet(&[], &endpoint(), &mut nat, 0), TunAction::Drop));
    assert!(matches!(process_packet(&[0x10; 40], &endpoint(), &mut nat, 0), TunAction::Drop));
}

fn v6_packet(proto: u8, src: &str, dst: &str, payload: &[u8]) -> Vec<u8> {
    let mut p = vec![0x60u8, 0, 0, 0, 0, payload.len() as u8, proto, 64];
    p.extend_from_slice(&v6(src).to_be_bytes());
    p.extend_from_slice(&v6(dst).to_be_bytes());
    p.extend_from_slice(payload);
    p
}

fn six(p: &[u8], at: usize) -> [u8; 16] {
    p[at..at + 16].try_into().unwrap()
}

#[test]
fn connections_over_ipv6_go_to_the_listener_and_back() {
    let mut nat = TcpNat::new();
    let mut tcp = vec![0x15, 0xb3, 1, 0xbb, 0, 0, 0, 1, 0, 0, 0, 0, 0x50, 2, 1, 0, 0, 0, 0, 0];
    let out = v6_packet(6, "fd00::1", "2001:db8::9", &tcp);
    let TunAction::Write(p) = process_packet(&out, &endpoint(), &mut nat, 0) else { panic!() };
    assert_eq!(six(&p, 8), v6("fd00::2").to_be_bytes());
    assert_eq!(six(&p, 24), v6("fd00::1").to_be_bytes());
    assert_eq!(u16::from_be_bytes([p[42], p[43]]), 6000);
    assert_eq!(checksum_with_pseudo_v6(&six(&p, 8), &six(&p, 24), 6, &p[40..]), 0);
    let port = [p[40], p[41]];

    tcp[0..2].copy_from_slice(&6000u16.to_be_bytes());
    tcp[2..4].copy_from_slice(&port);
    let back = v6_packet(6, "fd00::1", "fd00::2", &tcp);
    let TunAction::Write(p) = process_packet(&back, &endpoint(), &mut nat, 0) else { panic!() };
    assert_eq!(six(&p, 8), v6("2001:db8::9").to_be_bytes());
    assert_eq!(six(&p, 24), v6("fd00::1").to_be_bytes());
    assert_eq!(&p[40..44], &[1, 0xbb, 0x15, 0xb3]);
}

#[test]
fn pings_over_ipv6_are_answered() {
    let mut nat = TcpNat::new();
    let ping = v6_packet(58, "fd00::77", "fd00::1", &[128, 0, 0, 0, 0, 7, 0, 1, 9]);
    let TunAction::Write(pong) = process_packet(&ping, &endpoint(), &mut nat, 0) else { panic!() };
    assert_eq!(six(&pong, 8), v6("fd00::1").to_be_bytes());
    assert_eq!(six(&pong, 24), v6("fd00::77").to_be_bytes());
    assert_eq!(pong[40], 129);
    assert_eq!(&pong[44..], &ping[44..]);
    assert_eq!(checksum_with_pseudo_v6(&six(&pong, 8), &six(&pong, 24), 58, &pong[40..]), 0);
}

#[test]
fn networks_and_masks() {
    assert_eq!(prefix_len_to_mask_v4(16), 0xffff0000);
    assert_eq!(prefix_len_to_mask_v4(0), 0);
    assert_eq!(prefix_len_to_mask_v4(32), 0xffffffff);
    assert_eq!(v4_network(v4("198.18.7.9"), 16), v4("198.18.0.0"));
    assert_eq!(v6_network(v6("fd00::7"), 126), v6("fd00::4"));
    assert_eq!(address_after(parse_ip("198.18.0.1").unwrap()), parse_ip("198.18.0.2").unwrap());
    let all = vec!["198.18.0.1/16".to_string(), "fd00::1/126".to_string(), "junk".to_string()];
    assert_eq!(parse_addresses(&all, true).len(), 1);
    assert_eq!(parse_addresses(&all, false).len(), 1);
}

#[test]
fn ranges_of_users() {
    assert_eq!(subtract_ranges(vec![(0, 10)], &[(3, 4)]), vec![(0, 2), (5, 10)]);
    assert_eq!(complement_ranges(&[(3, 4)], 0, 10), vec![(0, 2), (5, 10)]);
    assert_eq!(merge_ranges(vec![(5, 6), (0, 2), (3, 4)]), vec![(0, 6)]);
    assert_eq!(build_excluded_uid_ranges(&[], &[7]), vec![(7, 7)]);
    assert_eq!(
        build_excluded_uid_ranges(&[1000], &[]),
        vec![(0, 999), (1001, 0xffff_fffe)]
    );
}

fn cfg() -> TunInboundConfig {
    TunInboundConfig {
        tag: "tun".into(),
        interface_name: Some("tun7".into()),
        address: vec!["198.18.0.1/16".into(), "fd00::1/126".into()],
        mtu: 1500,
        auto_route: true,
        strict_route: false,
        include_interface: vec![],
        exclude_interface: vec![],
        include_uid: vec![],
        exclude_uid: vec![],
        iproute2_table_index: 2022,
        iproute2_rule_index: 9000,
        udp_timeout: 0,
    }
}

#[test]
fn device_settings() {
    let c = cfg();
    assert_eq!(udp_timeout_secs(&c), 300);
    assert_eq!(idle_nanos(&c), 300_000_000_000);
    let e = tun_addresses(&c).unwrap();
    assert_eq!(e.inet4_addr, Some(v4("198.18.0.1")));
    assert_eq!(e.inet6_next, Some(v6("fd00::2")));
    assert_eq!(device_netmask(&c), Some(0xffff0000));
    assert_eq!(interface_name(None, Some("tun7")), "tun7");
    assert_eq!(interface_name(Some("utun3"), Some("tun7")), "utun3");
    assert_eq!(packet_buffer_len(&c), 1564);
    let mut none = cfg();
    none.address = vec![];
    assert_eq!(tun_addresses(&none), Err(TunError::NoAddress));
    none.udp_timeout = 42;
    assert_eq!(udp_timeout_secs(&none), 42);
}

#[test]
fn device_steps() {
    assert_eq!(after_bind(0, true), BindStep::Ready);
    assert!(matches!(after_bind(0, false), BindStep::RetryAfter(_)));
    assert_eq!(after_bind(2, false), BindStep::GiveUp);
    assert_eq!(after_read(ReadEvent::Bytes(0)), ReadStep::Stop);
    assert_eq!(after_read(ReadEvent::Bytes(9)), ReadStep::Process(9));
    assert!(matches!(after_read(ReadEvent::Failed), ReadStep::RetryAfterMillis(_)));
}

#[test]
fn idle_datagram_sessions_end() {
    let mut s = UdpSessions::new();
    let (a, b) = (sock("10.0.0.9", 1), sock("8.8.8.8", 53));
    assert!(s.touch(a, b, 0));
    assert!(!s.touch(a, b, 5));
    s.gc(10, 20);
    assert!(s.touch(a, b, 21));
}

fn words(v: &[CommandLine]) -> Vec<String> {
    v.iter().map(|c| c.words.join(" ")).collect()
}

#[test]
fn routes_on_linux() {
    let plan = linux::setup(&cfg(), "tun7").unwrap();
    let all = words(&plan.commands);
    assert!(all.iter().all(|c| c.starts_with("ip ")));
    assert!(all.iter().any(|c| c.contains("dev tun7") && c.contains("table 2022")));
    assert_eq!(plan.state_path, linux::state_file(2022));
    let down = linux::teardown(&cfg(), Some(&plan.state));
    let state: Vec<u32> = plan.state.split(' ').map(|n| n.parse().unwrap()).collect();
    assert_eq!(down.first, 9000);
    assert_eq!([down.last_v4, down.last_v6, down.anchor], state[..]);
    assert_eq!(down.anchor, 9100);
    assert!(down.last_v4 < 9100 && down.anchor_is_apart(false));
    let unknown = linux::teardown(&cfg(), Some("9001 9002"));
    assert_eq!([unknown.last_v4, unknown.last_v6, unknown.anchor], [9120, 9120, 9100]);
    assert!(!unknown.anchor_is_apart(true));
    assert!(!down.flush.is_empty());
    let del = words(&[linux::delete_rule(true, 9001)]);
    assert_eq!(del[0], "ip -6 rule del priority 9001");
}

#[test]
fn rules_on_linux_stay_before_the_anchor() {
    let with_users = |n: u32| {
        let mut c = cfg();
        // Ranges of single users that cannot be merged.
        c.exclude_uid = (0..n).map(|i| 1000 + 2 * i).collect();
        c
    };
    let free = linux::setup(&cfg(), "tun7").unwrap().state;
    let used: u32 = free.split(' ').next().unwrap().parse::<u32>().unwrap() - 9000;
    let plan = linux::setup(&with_users(100 - used), "tun7").unwrap();
    let prefix = "ip rule add priority ";
    let mut priorities: Vec<u32> = words(&plan.commands)
        .iter()
        .filter_map(|c| c.strip_prefix(prefix))
        .map(|c| c.split(' ').next().unwrap().parse().unwrap())
        .collect();
    let count = priorities.len();
    priorities.sort();
    priorities.dedup();
    assert_eq!(priorities.len(), count);
    assert_eq!(priorities, (9000..=9100).collect::<Vec<u32>>());
    let e = linux::setup(&with_users(101 - used), "tun7").err().unwrap();
    assert!(e.message().contains("anchor"));
    assert!(linux::setup(&with_users(150), "tun7").is_err());
}

#[test]
fn routes_elsewhere() {
    let up = words(&macos::setup(&cfg(), "utun3"));
    assert!(!up.is_empty());
    assert!(up.contains(&"ifconfig utun3 up".to_string()));
    assert!(up.iter().any(|c| c.starts_with("route add -net") && c.ends_with("-interface utun3")));
    assert!(!words(&macos::teardown(&cfg())).is_empty());
    assert!(!windows::setup(&cfg(), "tun7", Some("C:\\reflex.exe")).is_empty());
    assert!(!windows::teardown(&cfg(), "tun7").is_empty());
    assert!(other::setup(&cfg(), "tun7").is_empty());
    assert!(other::teardown(&cfg(), "tun7").is_empty());
    assert_eq!(windows::resolve_actual_interface_name("tun7", None), "tun7");
    assert_eq!(windows::resolve_actual_interface_name("tun7", Some(b" wintun \r\n")), "wintun");
    assert!(windows::interface_is_visible(b"17\r\n"));
    assert!(!windows::interface_is_visible(b"\r\n"));
    assert_ne!(windows::adapter_guid("a"), windows::adapter_guid("b"));
    assert!(!windows::query_adapter_name("tun7").words.is_empty());
    assert!(!windows::query_adapter_index("tun7").words.is_empty());
}
