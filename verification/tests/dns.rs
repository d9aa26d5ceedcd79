use bytes::Bytes;
use reflex::config::dns::{
    DnsConfig, DnsQueryType, DnsRuleConfig, DnsServerConfig, ResolveStrategy,
};
use reflex::dns::answer::{question, Role, Step};
use reflex::dns::cache::{CacheResult, DnsCache, InflightResult, NANOS};
use reflex::dns::lookup::{Lookup, Unresolved};
use reflex::dns::order::{toposort_servers, OrderError};
use reflex::dns::resolver::{
    plan_upstreams, query_type_number, CompiledDnsRule, DnsConfigError, DnsResolver, FakeIpLookup,
    StoreAnswer,
};
use reflex::dns::wire::{
    build_query, build_query_bytes, extract_all_ips, extract_first_ip, extract_first_ip_from_resp,
    extract_min_ttl, extract_min_ttl_or_negative, extract_qname, extract_qtype, extract_soa_ttl,
    is_cacheable, is_cacheable_or_negative, make_noerror_empty, make_nxdomain, make_refused,
    make_servfail, normalize_ttl, patch_id, skip_name, skip_rr,
};
use reflex::net::{parse_ip, IpAddr};

fn ip(s: &str) -> IpAddr {
    parse_ip(s).unwrap()
}

fn make_query(name: &str, qtype: u16) -> Vec<u8> {
    let mut msg = vec![0x00, 0x01, 0x01, 0x00, 0x00, 0x01, 0x00, 0x00, 0x00, 0x00, 0x00, 0x00];
    for label in name.split('.') {
        msg.push(label.len() as u8);
        msg.extend_from_slice(label.as_bytes());
    }
    msg.push(0x00);
    msg.extend_from_slice(&qtype.to_be_bytes());
    msg.extend_from_slice(&[0x00, 0x01]);
    msg
}

fn make_response_with_records(
    qname: &str,
    qtype_for_question: u16,
    records: &[(u16, Vec<u8>)],
) -> Vec<u8> {
    let mut msg = Vec::new();
    msg.extend_from_slice(&[0x00, 0x01]);
    msg.extend_from_slice(&[0x81, 0x80]);
    msg.extend_from_slice(&[0x00, 0x01]);
    msg.extend_from_slice(&(records.len() as u16).to_be_bytes());
    msg.extend_from_slice(&[0x00, 0x00]);
    msg.extend_from_slice(&[0x00, 0x00]);
    for label in qname.split('.') {
        msg.push(label.len() as u8);
        msg.extend_from_slice(label.as_bytes());
    }
    msg.push(0x00);
    msg.extend_from_slice(&qtype_for_question.to_be_bytes());
    msg.extend_from_slice(&[0x00, 0x01]);
    for (rtype, rdata) in records {
        msg.extend_from_slice(&[0xC0, 0x0C]);
        msg.extend_from_slice(&rtype.to_be_bytes());
        msg.extend_from_slice(&[0x00, 0x01]);
        msg.extend_from_slice(&[0x00, 0x00, 0x0E, 0x10]);
        msg.extend_from_slice(&(rdata.len() as u16).to_be_bytes());
        msg.extend_from_slice(rdata);
    }
    msg
}

// Messages

#[test]
fn extract_all_ips_collects_multiple_a_records() {
    let resp = make_response_with_records(
        "example.com",
        1,
        &[(1, vec![1, 2, 3, 4]), (1, vec![5, 6, 7, 8])],
    );
    let ips = extract_all_ips(&resp, 1);
    assert_eq!(ips, vec![ip("1.2.3.4"), ip("5.6.7.8")]);
}

#[test]
fn names_may_end_in_a_pointer() {
    let resp = [
        0, 1, 0x81, 0x80, 0, 1, 0, 1, 0, 0, 0, 0, 1, b'a', 0, 0, 1, 0, 1, 1, b'b', 0xC0, 0x0C, 0, 1,
        0, 1, 0, 0, 0, 60, 0, 4, 1, 2, 3, 4,
    ];
    assert_eq!(extract_all_ips(&resp, 1), vec![ip("1.2.3.4")]);
    assert_eq!(extract_first_ip(&resp, 1), Some(ip("1.2.3.4")));
    assert_eq!(extract_first_ip(&resp, 28), None);
    assert_eq!(extract_min_ttl(&resp), Some(60));
}

#[test]
fn extract_all_ips_empty_when_qtype_not_present() {
    let resp = make_response_with_records("example.com", 1, &[(1, vec![1, 2, 3, 4])]);
    assert!(extract_all_ips(&resp, 28).is_empty());
}

#[test]
fn extract_all_ips_filters_by_qtype_in_mixed_response() {
    let v6_bytes = vec![0x20, 0x01, 0x0d, 0xb8, 0, 0, 0, 0, 0, 0, 0, 0, 0, 0, 0, 1];
    let resp =
        make_response_with_records("example.com", 1, &[(1, vec![9, 9, 9, 9]), (28, v6_bytes)]);
    assert_eq!(extract_all_ips(&resp, 1), vec![ip("9.9.9.9")]);
    assert_eq!(extract_all_ips(&resp, 28), vec![ip("2001:db8::1")]);
}

#[test]
fn extract_qname_basic() {
    assert_eq!(extract_qname(&make_query("www.google.com", 1)), Some("www.google.com".into()));
}

#[test]
fn extract_qtype_a() {
    assert_eq!(extract_qtype(&make_query("x.com", 1)), Some(1));
}

#[test]
fn extract_qtype_aaaa() {
    assert_eq!(extract_qtype(&make_query("x.com", 28)), Some(28));
}

#[test]
fn patch_id_works() {
    let query = make_query("x.com", 1);
    let mut resp = query.clone();
    resp[0] = 0xFF;
    resp[1] = 0xFF;
    let patched = patch_id(Bytes::from(resp), &query);
    assert_eq!(patched[0], query[0]);
    assert_eq!(patched[1], query[1]);
}

#[test]
fn rcode_values() {
    let q = &make_query("a.com", 1);
    assert_eq!(make_refused(q)[3] & 0x0F, 5);
    assert_eq!(make_noerror_empty(q)[3] & 0x0F, 0);
    assert_eq!(make_nxdomain(q)[3] & 0x0F, 3);
}

#[test]
fn is_cacheable_false_no_answer() {
    assert!(!is_cacheable(&make_query("a.com", 1)));
}

#[test]
fn negative_ttl_nxdomain_without_soa_not_cached() {
    let mut resp = make_query("nx.com", 1);
    resp[3] = 0x83;
    assert!(!is_cacheable_or_negative(&resp));
}

#[test]
fn queries_are_built_and_read_back() {
    let q = build_query("www.example.org", 28);
    assert_eq!(extract_qname(&q), Some("www.example.org".to_string()));
    assert_eq!(extract_qtype(&q), Some(28));
    assert_eq!(build_query_bytes("a.b", 1), build_query("a.b", 1));
    assert_eq!(&q[2..12], &[1, 0, 0, 1, 0, 0, 0, 0, 0, 0]);
    assert_eq!(question(&q), ("www.example.org".to_string(), 28));
    assert_eq!(question(&[0; 3]), (String::new(), 1));
}

#[test]
fn names_are_passed_over() {
    let q = make_query("a.com", 1);
    assert_eq!(skip_name(&q, 12), Some(19));
    assert_eq!(skip_name(&[0xc0, 0x0c], 0), Some(2));
    assert_eq!(skip_name(&[3, b'a'], 0), None);
    let resp = make_response_with_records("a.com", 1, &[(1, vec![1, 2, 3, 4])]);
    assert_eq!(skip_rr(&resp, 23), Some(resp.len()));
    assert_eq!(skip_rr(&resp, resp.len()), None);
}

#[test]
fn failures_carry_the_question() {
    let q = make_query("a.com", 1);
    let r = make_servfail(&q);
    assert_eq!(r[3] & 0x0F, 2);
    assert_eq!(r[0..2], q[0..2]);
    assert!(r[2] & 0x80 != 0);
    assert!(!is_cacheable_or_negative(&r));
}

#[test]
fn the_first_address_wins() {
    let resp = make_response_with_records(
        "a.com",
        1,
        &[(5, vec![0]), (1, vec![1, 1, 1, 1]), (1, vec![2, 2, 2, 2])],
    );
    assert_eq!(extract_first_ip(&resp, 1), Some(ip("1.1.1.1")));
    assert_eq!(extract_first_ip_from_resp(&resp, 1), Some(ip("1.1.1.1")));
    assert_eq!(extract_first_ip(&resp, 28), None);
}

#[test]
fn times_to_live_are_read_and_replaced() {
    let resp = make_response_with_records("a.com", 1, &[(1, vec![1, 2, 3, 4])]);
    assert_eq!(extract_min_ttl(&resp), Some(3600));
    assert_eq!(extract_min_ttl_or_negative(&resp), Some(3600));
    assert!(is_cacheable(&resp));
    let n = normalize_ttl(&resp, 1);
    assert_eq!(n.len(), resp.len());
    assert_eq!(extract_min_ttl(&n), Some(1));
    assert_eq!(extract_all_ips(&n, 1), vec![ip("1.2.3.4")]);
}

#[test]
fn negative_answers_live_as_long_as_the_zone_says() {
    let mut msg = make_query("nx.com", 1);
    msg[2] = 0x81;
    msg[3] = 0x83;
    msg[9] = 1;
    msg.extend_from_slice(&[0xC0, 0x0C, 0, 6, 0, 1, 0, 0, 2, 0, 0, 22]);
    msg.extend_from_slice(&[0, 0]);
    msg.extend_from_slice(&[0u8; 16]);
    msg.extend_from_slice(&[0, 0, 0, 90]);
    assert_eq!(extract_soa_ttl(&msg), Some(90));
    assert!(is_cacheable_or_negative(&msg));
    assert_eq!(extract_min_ttl_or_negative(&msg), Some(90));
}

// The cache

fn resp(id: u8) -> Bytes {
    Bytes::from(vec![id, 0, 0x81, 0x80, 0, 0, 0, 1, 0, 0, 0, 0])
}

const NOW: u64 = 1000 * NANOS;

#[test]
fn basic_hit() {
    let mut c = DnsCache::new(16, 300);
    c.set("t", "example.com", 1, resp(1), 60, NOW, 0);
    assert!(matches!(c.get("t", "example.com", 1, NOW), CacheResult::Hit(_)));
    assert!(matches!(c.get("t", "other.com", 1, NOW), CacheResult::Miss));
}

#[test]
fn transport_isolation() {
    let mut c = DnsCache::new(16, 300);
    c.set("ta", "x.com", 1, resp(1), 60, NOW, 0);
    c.set("tb", "x.com", 1, resp(2), 60, NOW, 0);
    let CacheResult::Hit(r1) = c.get("ta", "x.com", 1, NOW) else { panic!() };
    let CacheResult::Hit(r2) = c.get("tb", "x.com", 1, NOW) else { panic!() };
    assert_eq!(r1[0], 1);
    assert_eq!(r2[0], 2);
    assert!(matches!(c.get("ta", "x.com", 28, NOW), CacheResult::Miss));
}

#[test]
fn qtype_separation() {
    let mut c = DnsCache::new(16, 300);
    c.set("t", "x.com", 1, resp(1), 60, NOW, 0);
    c.set("t", "x.com", 28, resp(2), 60, NOW, 0);
    let CacheResult::Hit(a) = c.get("t", "x.com", 1, NOW) else { panic!() };
    let CacheResult::Hit(aaaa) = c.get("t", "x.com", 28, NOW) else { panic!() };
    assert_eq!(a[0], 1);
    assert_eq!(aaaa[0], 2);
}

#[test]
fn case_insensitive() {
    let mut c = DnsCache::new(16, 300);
    c.set("t", "Example.COM", 1, resp(1), 60, NOW, 0);
    assert!(matches!(c.get("t", "example.com", 1, NOW), CacheResult::Hit(_)));
    assert!(matches!(c.get("t", "EXAMPLE.COM", 1, NOW), CacheResult::Hit(_)));
}

#[test]
fn ttl_cap() {
    let mut c = DnsCache::new(16, 10);
    c.set("t", "capped.com", 1, resp(1), 9999, NOW, 0);
    assert!(matches!(c.get("t", "capped.com", 1, NOW), CacheResult::Hit(_)));
    assert!(matches!(c.get("t", "capped.com", 1, NOW + 10 * NANOS), CacheResult::Miss));
}

#[test]
fn expired_miss() {
    let mut c = DnsCache::new(16, 300);
    c.set("t", "expire.com", 1, resp(5), 60, NOW, 0);
    assert!(matches!(c.get("t", "expire.com", 1, NOW + 61 * NANOS), CacheResult::Miss));
    assert_eq!(c.len(), 0);
}

#[test]
fn optimistic_stale() {
    let mut c = DnsCache::with_options(16, 300, Some(60), false);
    c.set("t", "stale.com", 1, resp(7), 60, NOW, 0);
    assert!(matches!(c.get("t", "stale.com", 1, NOW + 65 * NANOS), CacheResult::Stale(_)));
}

#[test]
fn optimistic_expired_beyond_window() {
    let mut c = DnsCache::with_options(16, 300, Some(10), false);
    c.set("t", "old.com", 1, resp(8), 60, NOW, 0);
    assert!(matches!(c.get("t", "old.com", 1, NOW + 90 * NANOS), CacheResult::Miss));
}

#[test]
fn capacity_eviction() {
    let mut c = DnsCache::new(4, 300);
    for i in 0u8..6 {
        c.set("t", &format!("host{i}.com"), 1, resp(i), 60, NOW, 0);
    }
    assert!(c.len() <= 4);
    // The two that were used least recently are gone.
    assert!(matches!(c.get("t", "host0.com", 1, NOW), CacheResult::Miss));
    assert!(matches!(c.get("t", "host1.com", 1, NOW), CacheResult::Miss));
    assert!(matches!(c.get("t", "host2.com", 1, NOW), CacheResult::Hit(_)));
    assert!(matches!(c.get("t", "host5.com", 1, NOW), CacheResult::Hit(_)));
}

#[test]
fn reading_an_entry_keeps_it() {
    let mut c = DnsCache::new(2, 300);
    c.set("t", "a.com", 1, resp(1), 60, NOW, 0);
    c.set("t", "b.com", 1, resp(2), 60, NOW, 0);
    assert!(matches!(c.get("t", "a.com", 1, NOW), CacheResult::Hit(_)));
    c.set("t", "c.com", 1, resp(3), 60, NOW, 0);
    assert!(matches!(c.get("t", "a.com", 1, NOW), CacheResult::Hit(_)));
    assert!(matches!(c.get("t", "b.com", 1, NOW), CacheResult::Miss));
    c.clear();
    assert!(c.is_empty());
}

#[test]
fn inflight_dedup_basic() {
    let mut c = DnsCache::new(16, 300);
    assert!(matches!(c.try_lead_inflight("t", "dedup.com", 1), InflightResult::Leader));
    assert!(matches!(c.try_lead_inflight("t", "dedup.com", 1), InflightResult::Waiter));
    assert_eq!(c.inflight_len(), 1);
    let fake_resp = Bytes::from_static(b"\x00\x01\x81\x80\x00\x00\x00\x01\x00\x00\x00\x00");
    let got = c.complete_inflight("t", "dedup.com", 1, Some(&fake_resp)).expect("broadcast");
    assert!(!got.is_empty());
    assert_eq!(got, fake_resp);
    assert_eq!(c.inflight_len(), 0);
    assert!(matches!(c.try_lead_inflight("t", "dedup.com", 1), InflightResult::Leader));
    assert!(c.complete_inflight("t", "dedup.com", 1, None).is_none());
}

#[test]
fn persisted_answers_are_taken_in() {
    let mut c = DnsCache::with_options(16, 300, Some(60), true);
    assert!(c.is_persistent());
    assert_eq!(c.set("t", "p.com", 1, resp(1), 60, NOW, 5000), Some(5060));
    let raw = make_response_with_records("q.com", 1, &[(1, vec![1, 2, 3, 4])]);
    let r = c.admit_persisted("t", "q.com", 1, Bytes::from(raw.clone()), 5100, NOW, 5000);
    assert!(matches!(r, CacheResult::Hit(_)));
    assert!(matches!(c.get("t", "q.com", 1, NOW + 99 * NANOS), CacheResult::Hit(_)));
    let r = c.admit_persisted("t", "r.com", 1, Bytes::from(raw.clone()), 4990, NOW, 5000);
    let CacheResult::Stale(b) = r else { panic!() };
    assert_eq!(extract_min_ttl(&b), Some(1));
    let r = c.admit_persisted("t", "r.com", 1, Bytes::from(raw), 4900, NOW, 5000);
    assert!(matches!(r, CacheResult::Miss));
}

// The resolver

fn server(tag: &str) -> DnsServerConfig {
    DnsServerConfig { tag: tag.into(), detour: None, domain_resolver: None, fakeip: false }
}

fn rule(server: &str) -> DnsRuleConfig {
    DnsRuleConfig {
        server: server.into(),
        inbound: vec![],
        query_type: vec![],
        domain: vec![],
        domain_suffix: vec![],
        domain_keyword: vec![],
        ruleset: vec![],
        clash_mode: None,
        disable_cache: false,
    }
}

fn config(servers: Vec<DnsServerConfig>, rules: Vec<DnsRuleConfig>, last: &str) -> DnsConfig {
    DnsConfig {
        servers,
        rules,
        final_server: last.into(),
        strategy: ResolveStrategy::PreferIpv4,
        disable_cache: false,
        cache_capacity: 64,
        cache_ttl_max: 0,
        optimistic_timeout: 0,
        proxy_domain_resolver: None,
    }
}

#[test]
fn servers_come_after_their_resolvers() {
    let mut a = server("a");
    a.domain_resolver = Some("b".into());
    let order = toposort_servers(&[a, server("b"), server("c")]).unwrap();
    let place = |i: usize| order.iter().position(|&x| x == i).unwrap();
    assert_eq!(order.len(), 3);
    assert!(place(1) < place(0));
}

#[test]
fn bad_orders_are_refused() {
    let mut a = server("a");
    a.domain_resolver = Some("nowhere".into());
    assert_eq!(toposort_servers(&[a]), Err(OrderError::Missing { server: 0 }));

    let mut a = server("a");
    a.domain_resolver = Some("b".into());
    let mut b = server("b");
    b.domain_resolver = Some("a".into());
    assert!(matches!(toposort_servers(&[a, b]), Err(OrderError::Pair { .. })));

    let mut a = server("a");
    a.domain_resolver = Some("b".into());
    let mut b = server("b");
    b.domain_resolver = Some("c".into());
    let mut c = server("c");
    c.domain_resolver = Some("a".into());
    assert!(toposort_servers(&[a, b, c]).is_err());
}

#[test]
fn unknown_names_in_the_settings_are_refused() {
    let c = config(vec![server("a")], vec![], "b");
    let e = DnsResolver::from_config(&c).err().unwrap();
    assert!(matches!(&e, DnsConfigError::FinalServer { server } if server == "b"));
    assert!(e.message().contains('b'));

    let c = config(vec![server("a")], vec![rule("x")], "a");
    assert!(matches!(DnsResolver::from_config(&c), Err(DnsConfigError::RuleServer { .. })));

    let mut c = config(vec![server("a")], vec![], "a");
    c.proxy_domain_resolver = Some("x".into());
    assert!(matches!(DnsResolver::from_config(&c), Err(DnsConfigError::ProxyResolver { .. })));

    let mut c = config(vec![server("a")], vec![], "a");
    c.disable_cache = true;
    c.optimistic_timeout = 30;
    assert!(matches!(DnsResolver::from_config(&c), Err(DnsConfigError::OptimisticWithoutCache)));

    let mut s = server("a");
    s.detour = Some("proxy".into());
    let c = config(vec![s], vec![], "a");
    let tags = vec!["direct".to_string()];
    assert!(matches!(
        DnsResolver::from_config_with_rulesets_and_outbounds(&c, &[], Some(&tags)),
        Err(DnsConfigError::UnknownDetour { .. })
    ));
    let tags = vec!["proxy".to_string()];
    assert!(DnsResolver::from_config_with_rulesets_and_outbounds(&c, &[], Some(&tags)).is_ok());

    let mut s = server("a");
    s.domain_resolver = Some("gone".into());
    assert!(matches!(
        plan_upstreams(&[s], None),
        Err(DnsConfigError::MissingResolver { .. })
    ));
}

#[test]
fn rules_choose_the_server() {
    let mut by_type = rule("six");
    by_type.query_type = vec![DnsQueryType::Aaaa];
    let mut by_mode = rule("global");
    by_mode.clash_mode = Some("global".into());
    by_mode.disable_cache = true;
    let c = config(
        vec![server("main"), server("six"), server("global")],
        vec![by_type, by_mode],
        "main",
    );
    let r = DnsResolver::from_config_with_rulesets(&c, &[]).unwrap();
    let tag = |i: usize| r.upstreams[i].tag.clone();
    let hits = [true, true];
    assert_eq!(tag(r.select("in", 28, "rule", &hits).0), "six");
    assert_eq!(tag(r.select("in", 1, "rule", &hits).0), "main");
    let (i, no_cache) = r.select("in", 1, "Global", &hits);
    assert_eq!(tag(i), "global");
    assert!(no_cache);
    assert_eq!(tag(r.select_tag("six")), "six");
    assert_eq!(tag(r.select_tag("nobody")), "main");
    assert_eq!(query_type_number(DnsQueryType::Https), 65);
    assert_eq!(query_type_number(DnsQueryType::Aaaa), 28);
}

#[test]
fn a_rule_asks_for_every_condition() {
    let mut one = rule("a");
    one.inbound = vec!["tun".into()];
    one.domain_suffix = vec!["cn".into()];
    let ups = plan_upstreams(&[server("a")], None).unwrap();
    let compiled = CompiledDnsRule::compile(&one, &ups, &[]).unwrap();
    assert!(compiled.matches("tun", 1, "rule", true));
    assert!(!compiled.matches("tun", 1, "rule", false));
    assert!(!compiled.matches("other", 1, "rule", true));
}

#[test]
fn own_lookups_avoid_made_up_addresses() {
    let mut fake = server("fake");
    fake.fakeip = true;
    let c = config(vec![fake, server("real")], vec![], "fake");
    let r = DnsResolver::from_config(&c).unwrap();
    assert_eq!(r.upstreams[r.select_own("rule", &[])].tag, "real");
    let told = r.set_fakeip_strategy(ResolveStrategy::Ipv4Only);
    assert_eq!(told.len(), 1);
    let (place, strategy) = told[0];
    assert_eq!(r.upstreams[place].tag, "fake");
    assert_eq!(strategy, ResolveStrategy::Ipv4Only);
    let answers = |a: StoreAnswer| {
        let mut v = vec![StoreAnswer::OutOfRange, StoreAnswer::OutOfRange];
        v[place] = a;
        v
    };
    let looked_up = |a: StoreAnswer| r.lookup_fakeip(&answers(a));
    assert!(matches!(looked_up(StoreAnswer::OutOfRange), FakeIpLookup::NotFakeIp));
    assert!(matches!(looked_up(StoreAnswer::Unknown), FakeIpLookup::Missing));
    assert!(matches!(
        looked_up(StoreAnswer::Known("a.com".into())),
        FakeIpLookup::Found(d) if d == "a.com"
    ));
}

#[test]
fn lookups_follow_the_strategy() {
    let mut c = config(vec![server("main")], vec![], "main");
    let r = DnsResolver::from_config(&c).unwrap();
    assert!(matches!(r.resolve_domain("1.2.3.4", "rule", &[]), Lookup::Known(a) if a == ip("1.2.3.4")));
    let Lookup::Ask { upstream, a, aaaa } = r.resolve_domain("a.com", "rule", &[]) else { panic!() };
    assert_eq!(upstream, 0);
    assert_eq!(extract_qname(&a.unwrap()), Some("a.com".to_string()));
    assert_eq!(extract_qtype(&aaaa.unwrap()), Some(28));
    assert!(matches!(r.resolve_proxy_domain("a.com", "rule", &[]), Lookup::Ask { upstream: 0, .. }));
    assert!(matches!(r.resolve_domain_via("a.com", "main"), Lookup::Ask { upstream: 0, .. }));
    let (u, q) = r.resolve_raw("b.com", 16);
    assert_eq!(u, 0);
    assert_eq!(extract_qtype(&q), Some(16));

    let v4 = make_response_with_records("a.com", 1, &[(1, vec![1, 2, 3, 4]), (1, vec![5, 6, 7, 8])]);
    let v6 = make_response_with_records("a.com", 28, &[(28, vec![9u8; 16])]);
    assert_eq!(r.pick_address(Some(&v4), Some(&v6)), Ok(ip("1.2.3.4")));
    assert_eq!(r.resolve_domain_all(Some(&v4), Some(&v6)).unwrap().len(), 3);
    assert_eq!(r.pick_address(None, None), Err(Unresolved::NoAnswer));

    c.strategy = ResolveStrategy::Ipv6Only;
    let r = DnsResolver::from_config(&c).unwrap();
    assert_eq!(r.pick_address(Some(&v4), None), Err(Unresolved::NoAaaa));
    c.strategy = ResolveStrategy::Ipv4Only;
    let r = DnsResolver::from_config(&c).unwrap();
    assert_eq!(r.pick_address(None, Some(&v6)), Err(Unresolved::NoA));
    assert!(Unresolved::NoA.message("a.com").contains("a.com"));
}

#[test]
fn a_query_goes_out_once_and_its_answer_is_kept() {
    let c = config(vec![server("main")], vec![], "main");
    let mut r = DnsResolver::from_config(&c).unwrap();
    let msg = make_query("a.com", 1);
    let (q, step) = r.begin(&msg, "in", "rule", &[], NOW);
    assert!(matches!(step, Step::Lead));
    assert_eq!((q.qname.as_str(), q.qtype, q.upstream), ("a.com", 1, 0));
    let (_, step) = r.begin(&msg, "in", "rule", &[], NOW);
    assert!(matches!(step, Step::Wait));

    let answer = make_response_with_records("a.com", 1, &[(1, vec![1, 2, 3, 4])]);
    let o = r.finish(&q, Role::Lead, Some(Bytes::from(answer.clone())), NOW, 0);
    assert_eq!(o.broadcast.as_deref(), Some(&answer[..]));
    assert_eq!(o.persist_until, None);
    let reply = DnsResolver::final_reply(&msg, o.reply);
    assert_eq!(reply[0..2], msg[0..2]);

    let mut again = msg.clone();
    again[0] = 0x77;
    let (_, step) = r.begin(&again, "in", "rule", &[], NOW);
    let Step::Reply(kept) = step else { panic!() };
    assert_eq!(kept[0], 0x77);
    assert_eq!(extract_all_ips(&kept, 1), vec![ip("1.2.3.4")]);

    r.clear_cache();
    assert!(matches!(r.begin(&again, "in", "rule", &[], NOW).1, Step::Lead));
}

#[test]
fn a_lost_answer_becomes_a_failure() {
    let c = config(vec![server("main")], vec![], "main");
    let mut r = DnsResolver::from_config(&c).unwrap();
    let msg = make_query("a.com", 1);
    let (q, _) = r.begin(&msg, "in", "rule", &[], NOW);
    let o = r.finish(&q, Role::Lead, None, NOW, 0);
    assert!(o.broadcast.is_none());
    let reply = DnsResolver::final_reply(&msg, o.reply);
    assert_eq!(reply[3] & 0x0F, 2);
    assert!(matches!(r.begin(&msg, "in", "rule", &[], NOW).1, Step::Lead));
    assert!(matches!(DnsResolver::after_wait(None, &msg), Step::Retry));
    let got = Bytes::from(make_response_with_records("a.com", 1, &[(1, vec![1, 2, 3, 4])]));
    assert!(matches!(DnsResolver::after_wait(Some(got), &msg), Step::Reply(_)));
}

#[test]
fn stale_answers_are_refreshed() {
    let mut c = config(vec![server("main")], vec![], "main");
    c.optimistic_timeout = 100;
    c.cache_ttl_max = 50;
    let mut r = DnsResolver::from_config(&c).unwrap();
    let msg = make_query("a.com", 1);
    let (q, _) = r.begin(&msg, "in", "rule", &[], NOW);
    let answer = make_response_with_records("a.com", 1, &[(1, vec![1, 2, 3, 4])]);
    r.finish(&q, Role::Lead, Some(Bytes::from(answer)), NOW, 0);
    let (_, step) = r.begin(&msg, "in", "rule", &[], NOW + 60 * NANOS);
    let Step::ReplyAndRefresh(stale) = step else { panic!() };
    assert_eq!(extract_min_ttl(&stale), Some(1));
}

#[test]
fn kept_answers_of_an_earlier_run_are_asked_for() {
    let c = config(vec![server("main")], vec![], "main");
    let mut r = DnsResolver::from_config_full(&c, &[], None, true).unwrap();
    let msg = make_query("a.com", 1);
    let (q, step) = r.begin(&msg, "in", "rule", &[], NOW);
    assert!(matches!(step, Step::LoadPersisted));
    let answer = Bytes::from(make_response_with_records("a.com", 1, &[(1, vec![1, 2, 3, 4])]));
    let step = r.after_persisted(&q, &msg, Some((answer.clone(), 500)), NOW, 400);
    assert!(matches!(step, Step::Reply(_)));
    let mut other = DnsResolver::from_config_full(&c, &[], None, true).unwrap();
    let (q, _) = other.begin(&msg, "in", "rule", &[], NOW);
    assert!(matches!(other.after_persisted(&q, &msg, None, NOW, 400), Step::Lead));
    let o = other.finish(&q, Role::Lead, Some(answer), NOW, 400);
    assert_eq!(o.persist_until, Some(4000));
}

#[test]
fn without_a_cache_every_query_goes_out() {
    let mut c = config(vec![server("main")], vec![], "main");
    c.disable_cache = true;
    let mut r = DnsResolver::from_config(&c).unwrap();
    let msg = make_query("a.com", 1);
    assert!(matches!(r.begin(&msg, "in", "rule", &[], NOW).1, Step::Direct));
    assert!(matches!(r.begin(&msg, "in", "rule", &[], NOW).1, Step::Direct));
    assert_eq!(r.diag(&vec![(1, 2, 3)]), (0, 0, None));
}

#[test]
fn the_last_response_is_found_until_it_expires() {
    let mut c = DnsCache::new(2, 300);
    let (old, new) = (Bytes::from_static(&[1; 12]), Bytes::from_static(&[2; 12]));
    c.set("udp", "a.com", 1, old.clone(), 60, NANOS, 1000);
    c.set("udp", "b.com", 1, old, 60, NANOS, 1000);
    c.get("udp", "a.com", 1, 2 * NANOS);
    c.set("udp", "A.com", 1, new.clone(), 9, 5 * NANOS, 1004);
    assert_eq!(c.len(), 2);
    assert!(matches!(c.get("udp", "b.com", 1, 6 * NANOS), CacheResult::Hit(_)));
    assert!(matches!(c.get("udp", "a.COM", 1, 14 * NANOS - 1), CacheResult::Hit(b) if b == new));
    assert!(matches!(c.get("tls", "a.com", 1, 6 * NANOS), CacheResult::Miss));
    assert!(matches!(c.get("udp", "a.com", 28, 6 * NANOS), CacheResult::Miss));
    assert!(matches!(c.get("udp", "a.com", 1, 14 * NANOS), CacheResult::Miss));
    // Without a time to live it is still a hit at once.
    c.set("udp", "c.com", 1, new.clone(), 0, 20 * NANOS, 1020);
    assert!(matches!(c.get("udp", "c.com", 1, 20 * NANOS), CacheResult::Hit(b) if b == new));
    assert!(matches!(c.get("udp", "c.com", 1, 21 * NANOS), CacheResult::Miss));
}
