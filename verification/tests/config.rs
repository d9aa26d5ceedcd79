use reflex::config::experimental::{CacheFileConfig, ClashApiConfig, ExperimentalConfig};
use reflex::config::global::GlobalConfig;
use reflex::config::outbound::{
    mbps_to_bps, parse_duration, BlockOutboundConfig, DirectOutboundConfig, DurationError,
    Hysteria2OutboundConfig, OutboundConfig, ProviderRef, SelectorOutboundConfig,
    SocksOutboundConfig, SocksVersion, TlsConfig, TrojanTransportConfig, UrlTestOutboundConfig,
};
use reflex::config::route::{NetworkFilter, PortError, PortFilter, PortText, RouteRuleConfig};

#[test]
fn default_ipv6_true() {
    let g = GlobalConfig::default();
    assert!(g.ipv6);
    assert_eq!(g.routing_mark, 0);
}

#[test]
fn bandwidth_mbps_to_bps() {
    assert_eq!(mbps_to_bps(100), 12_500_000);
    assert_eq!(mbps_to_bps(0), 0);
    assert_eq!(mbps_to_bps(1000), 125_000_000);
}

#[test]
fn tls_defaults() {
    let tls = TlsConfig::default();
    assert!(tls.enabled);
    assert!(!tls.insecure);
    assert!(tls.server_name.is_none());
}

#[test]
fn transport_defaults_to_a_plain_stream() {
    assert!(matches!(TrojanTransportConfig::default(), TrojanTransportConfig::Tcp(_)));
}

#[test]
fn rule_has_conditions() {
    let empty = RouteRuleConfig {
        inbound: vec![],
        network: None,
        protocol: vec![],
        ruleset: vec![],
        domain: vec![],
        domain_suffix: vec![],
        domain_keyword: vec![],
        ip_cidr: vec![],
        port: vec![],
        port_range: vec![],
        sniff: false,
        sniff_timeout_ms: 0,
        sniff_type: vec![],
        sniff_override_destination: false,
        resolve: false,
        resolve_server: None,
        private_ip: false,
        hijack_dns: false,
        outbound: "direct".into(),
    };
    assert!(!empty.has_conditions());

    let hijack_only = RouteRuleConfig { hijack_dns: true, ..empty.clone() };
    assert!(!hijack_only.has_conditions());

    let with_private_ip = RouteRuleConfig { private_ip: true, ..empty.clone() };
    assert!(with_private_ip.has_conditions());

    let with_ruleset = RouteRuleConfig { ruleset: vec!["geosite-cn".into()], ..empty.clone() };
    assert!(with_ruleset.has_conditions());

    let with_protocol = RouteRuleConfig { protocol: vec!["dns".into()], ..empty };
    assert!(with_protocol.has_conditions());
}

#[test]
fn every_condition_counts() {
    let one = || vec!["x".to_string()];
    let rule = RouteRuleConfig::default();
    assert!(!rule.has_conditions());
    assert!(RouteRuleConfig { inbound: one(), ..rule.clone() }.has_conditions());
    assert!(RouteRuleConfig { network: Some(NetworkFilter::Udp), ..rule.clone() }.has_conditions());
    assert!(RouteRuleConfig { domain: one(), ..rule.clone() }.has_conditions());
    assert!(RouteRuleConfig { domain_suffix: one(), ..rule.clone() }.has_conditions());
    assert!(RouteRuleConfig { domain_keyword: one(), ..rule.clone() }.has_conditions());
    assert!(RouteRuleConfig { ip_cidr: one(), ..rule.clone() }.has_conditions());
    assert!(RouteRuleConfig { port: vec![PortFilter(1, 2)], ..rule.clone() }.has_conditions());
}

#[test]
fn port_filter_number() {
    let pf = PortFilter::from_number(443).unwrap();
    assert_eq!(pf, PortFilter(443, 443));
    assert!(pf.contains(443));
    assert!(!pf.contains(80));
}

#[test]
fn port_filter_range_str() {
    let pf = PortFilter::from_text("8000-9000").unwrap();
    assert_eq!(pf, PortFilter(8000, 9000));
    assert!(pf.contains(8000));
    assert!(pf.contains(8500));
    assert!(pf.contains(9000));
    assert!(!pf.contains(7999));
}

#[test]
fn port_filter_invalid_range() {
    let r = PortFilter::from_text("9000-8000");
    assert!(r.is_err());
}

#[test]
fn port_filter_serialize() {
    let single = PortFilter(443, 443);
    assert!(matches!(single.to_value(), PortText::Number(443)));
    let range = PortFilter(8000, 9000);
    let PortText::Range(text) = range.to_value() else { panic!() };
    assert_eq!(serde_json::Value::from(text).to_string(), "\"8000-9000\"");
    assert_eq!(serde_json::Value::from(443u16).to_string(), "443");
}

#[test]
fn port_filter_errors() {
    assert!(matches!(PortFilter::from_number(65536), Err(PortError::OutOfRange(65536))));
    assert!(matches!(PortFilter::from_text("http"), Err(PortError::NotANumber)));
    assert!(matches!(PortFilter::from_text("1-x"), Err(PortError::NotANumber)));
    assert!(matches!(PortFilter::from_text("2-1"), Err(PortError::InvalidRange)));
    assert_eq!(PortFilter::from_text("53").unwrap(), PortFilter(53, 53));
}

#[test]
fn a_port_filter_reads_back_what_it_writes() {
    for f in [PortFilter(1, 1), PortFilter(1024, 65535), PortFilter(0, 9)] {
        let back = match f.to_value() {
            PortText::Number(n) => PortFilter::from_number(n as u64).unwrap(),
            PortText::Range(t) => PortFilter::from_text(&t).unwrap(),
        };
        assert_eq!(back, f);
    }
}

fn socks(version: Option<&str>) -> SocksOutboundConfig {
    SocksOutboundConfig {
        tag: "socks-out".into(),
        server: "127.0.0.1".into(),
        server_port: 1080,
        version: version.map(|v| v.to_string()),
        username: None,
        password: None,
    }
}

#[test]
fn parse_socks_defaults() {
    let c = socks(None);
    assert_eq!(c.server, "127.0.0.1");
    assert_eq!(c.server_port, 1080);
    assert!(c.version.is_none());
    assert!(c.username.is_none());
    assert!(c.password.is_none());
    assert_eq!(c.parsed_version().unwrap(), SocksVersion::V5);
    assert_eq!(OutboundConfig::Socks(c).tag(), "socks-out");
}

#[test]
fn parse_socks5_with_auth() {
    let mut c = socks(Some("5"));
    c.username = Some("alice".into());
    c.password = Some("s3cr3t".into());
    assert_eq!(c.parsed_version().unwrap(), SocksVersion::V5);
    assert_eq!(c.username.as_deref(), Some("alice"));
    assert_eq!(c.password.as_deref(), Some("s3cr3t"));
}

#[test]
fn parse_socks4a() {
    assert_eq!(socks(Some("4a")).parsed_version().unwrap(), SocksVersion::V4a);
}

#[test]
fn unknown_socks_versions_are_refused() {
    assert_eq!(socks(Some("4")).parsed_version().unwrap(), SocksVersion::V4);
    assert_eq!(socks(Some("")).parsed_version().unwrap_err().version, "");
    let e = socks(Some("6")).parsed_version().unwrap_err();
    assert_eq!(e.version, "6");
    assert!(e.message().contains('6'));
}

#[test]
fn parse_hysteria2() {
    let ob = OutboundConfig::Hysteria2(Hysteria2OutboundConfig {
        tag: "hy2".into(),
        server: "example.com".into(),
        server_port: 443,
        password: "secret".into(),
        tls: TlsConfig::default(),
        up_mbps: 50,
        down_mbps: 200,
        detour: None,
    });
    assert_eq!(ob.tag(), "hy2");
}

#[test]
fn parse_direct_block() {
    let direct =
        OutboundConfig::Direct(DirectOutboundConfig { tag: "direct".into(), bind_address: None });
    let block = OutboundConfig::Block(BlockOutboundConfig { tag: "block".into() });
    assert_eq!(direct.tag(), "direct");
    assert_eq!(block.tag(), "block");
    assert!(!direct.is_group());
    assert!(direct.child_outbounds().is_empty());
    assert!(direct.group_default().is_none());
    assert!(direct.group_providers().is_none());
}

#[test]
fn parse_selector_and_url_test() {
    let selector = OutboundConfig::Selector(SelectorOutboundConfig {
        tag: "🚀 节点选择".into(),
        outbounds: vec!["自动选择".into(), "香港节点 01".into(), "direct".into()],
        providers: Some(ProviderRef { tags: vec!["p".into()], filter: None }),
        default: Some("自动选择".into()),
        interrupt_existing_connections: false,
    });
    assert_eq!(selector.tag(), "🚀 节点选择");
    assert_eq!(selector.child_outbounds().len(), 3);
    assert_eq!(selector.group_default(), Some("自动选择"));
    assert_eq!(selector.group_providers().unwrap().tags, vec!["p".to_string()]);
    assert!(selector.is_group());

    let c = UrlTestOutboundConfig {
        tag: "自动选择".into(),
        outbounds: vec!["香港节点 01".into(), "台湾节点 01".into(), "美国节点 01".into()],
        providers: None,
        url: "https://www.gstatic.com/generate_204".into(),
        interval: "3m".into(),
        idle_timeout: "30m".into(),
        tolerance: 50,
    };
    assert_eq!(c.interval_duration().unwrap(), 180);
    assert_eq!(c.idle_timeout_duration().unwrap(), 1800);
    assert_eq!(c.tolerance, 50);
    let url_test = OutboundConfig::UrlTest(c);
    assert_eq!(url_test.tag(), "自动选择");
    assert!(url_test.group_default().is_none());
}

#[test]
fn durations() {
    assert_eq!(parse_duration("45s").unwrap(), 45);
    assert_eq!(parse_duration("2h").unwrap(), 7200);
    assert_eq!(parse_duration(" 10 ").unwrap(), 10);
    assert!(matches!(parse_duration(""), Err(DurationError::Empty)));
    assert!(matches!(parse_duration("m"), Err(DurationError::MissingNumber(_))));
    assert!(matches!(parse_duration("3w"), Err(DurationError::UnsupportedUnit(_))));
    assert!(matches!(parse_duration("99999999999999999999s"), Err(DurationError::TooLarge)));
    assert!(!parse_duration("3w").unwrap_err().message().is_empty());
}

#[test]
fn experimental_defaults() {
    let e = ExperimentalConfig::default();
    assert!(e.cache_file.is_none());
    assert!(e.clash_api.is_none());
    let cf = CacheFileConfig::default();
    assert_eq!(cf.path, "cache.db");
    assert!(!cf.store_fakeip);
    assert_eq!(cf.fakeip_ttl_days, 7);
    let api = ClashApiConfig::default();
    assert!(api.enabled);
    assert_eq!(api.default_mode, "rule");
    assert_eq!(api.external_controller, "127.0.0.1:9090");
    assert!(api.external_ui.is_none());
}
