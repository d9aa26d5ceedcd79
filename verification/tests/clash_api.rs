use reflex::app::clash_api::calendar::{days_to_ymd, is_leap, ms_to_iso};
use reflex::app::clash_api::configs::{
    allows_lan, bad_json, conn_to_json, connections_message, delete_connection, get_configs,
    get_traffic, log_message, memory_message, traffic_message, InboundKind, InboundPort, LogLevel,
    ModeState,
};
use reflex::app::clash_api::delay::{
    after_group_delay, after_proxy_delay, get_group_delay, get_proxy_delay, is_probe_decodable,
    probe_request, probe_target, GroupProbeStep, MemberOutcome, ProbeError, ProbeOutcome, ProbeStep,
    DEFAULT_PROBE_URL,
};
use reflex::app::clash_api::history::DelayHistory;
use reflex::app::clash_api::http::{
    closed_during, find_header_end, plain_response, preflight_response, read_request, HttpRequest,
    HttpResponse, RequestError, RequestStep,
};
use reflex::app::clash_api::json::{json_response, message_response, text_field};
use reflex::app::clash_api::logs::{
    broadcast_log, follows, level_rank, log_chunk, query_value, LogEntry,
};
use reflex::app::clash_api::memory::{in_use, resident_kb};
use reflex::app::clash_api::path::{content_type, is_decodable, percent_decode, safe_join};
use reflex::app::clash_api::proxies::{
    after_select, build_group_entry, get_group, get_groups, get_proxies, get_proxy, put_proxy,
    put_proxy_child, SelectStep,
};
use reflex::app::clash_api::routing::{is_authorized, route_request, split_path, RouteKind};
use reflex::app::clash_api::rules::{
    after_update, get_rule_providers, get_rules, update_rule_provider,
};
use reflex::app::clash_api::server::{Answer, ClashApi, Feed, Surroundings};
use reflex::app::clash_api::tracker::{ConnInfo, ConnectionTracker, RuleInfo};
use reflex::app::clash_api::ui::{
    after_ui_read, get_version, redirect_to_ui, serve_ui, ui_file, unauthorized_response, UiStep,
};
use reflex::app::clash_api::websocket::{ws_accept_key, ws_text_frame, ws_upgrade_response};
use reflex::app::outbound_mgr::{OutboundManager, OutboundStatus};
use reflex::app::ruleset_registry::{RuleSetMeta, RuleSetRegistry};
use reflex::config::experimental::ClashApiConfig;
use reflex::config::outbound::{
    DirectOutboundConfig, OutboundConfig, SelectorOutboundConfig,
};
use reflex::config::route::{
    RouteConfig, RouteRuleConfig, RuleSetFormat, RuleSetRef, RuleSetType,
};
use reflex::net::{parse_ip, SocketAddr};
use serde_json::Value;

#[test]
fn percent_decode_utf8() {
    assert_eq!(percent_decode("%E8%87%AA%E5%8A%A8"), "自动");
}

#[test]
fn safe_join_rejects_parent() {
    assert!(safe_join("ui", "../secret").is_none());
    assert_eq!(safe_join("ui", "index.html").unwrap(), "ui/index.html");
}

#[test]
fn ws_accept_key_rfc_example() {
    let accept = ws_accept_key("dGhlIHNhbXBsZSBub25jZQ==");
    assert_eq!(accept, "s3pPLMBiTxaQ9kYGzzhZRbK+xOo=");
}

#[test]
fn ms_to_iso_epoch() {
    let s = ms_to_iso(0);
    assert!(s.starts_with("1970-01-01T00:00:00"), "got: {s}");
}

#[test]
fn ms_to_iso_known_date() {
    let s = ms_to_iso(1704067200_000);
    assert!(s.starts_with("2024-01-01T00:00:00"), "got: {s}");
}

#[test]
fn delay_history_roundtrip() {
    let mut h = DelayHistory::default();
    h.store("proxy1", 123, 5);
    let r = h.load("proxy1").unwrap();
    assert_eq!(r.delay, 123);
    assert_eq!(r.time_ms, 5);
    h.delete("proxy1");
    assert!(h.load("proxy1").is_none());
}

// Paths, dates, frames

#[test]
fn escapes_that_are_none_stay() {
    assert_eq!(percent_decode("plain text"), "plain text");
    assert_eq!(percent_decode("a%zzb%2"), "a%zzb%2");
    assert_eq!(percent_decode("a%20b+c"), "a b+c");
    assert_eq!(percent_decode("%ff"), "\u{fffd}");
    assert!(is_decodable("%E8%87%AA"));
    assert!(!is_decodable("%aé"));
}

#[test]
fn joined_paths_stay_below() {
    assert_eq!(safe_join("ui/", "a/./b").unwrap(), "ui/a/b");
    assert_eq!(safe_join("ui", "").unwrap(), "ui");
    assert!(safe_join("ui", "/etc/passwd").is_none());
    assert!(safe_join("ui", "a/../../b").is_none());
}

#[test]
fn media_types() {
    assert_eq!(content_type("ui/index.html"), "text/html; charset=utf-8");
    assert_eq!(content_type("ui/app.js"), "application/javascript; charset=utf-8");
    assert_eq!(content_type("ui/logo.svg"), "image/svg+xml");
    assert_eq!(content_type("ui/unknown"), "application/octet-stream");
}

#[test]
fn dates() {
    assert!(is_leap(2000));
    assert!(!is_leap(1900));
    assert!(is_leap(2024));
    assert_eq!(days_to_ymd(0), (1970, 1, 1));
    assert_eq!(days_to_ymd(59), (1970, 3, 1));
    assert_eq!(days_to_ymd(19782), (2024, 2, 29));
    assert_eq!(ms_to_iso(1709251199_999), "2024-02-29T23:59:59.000000000Z");
}

#[test]
fn text_frames() {
    assert_eq!(ws_text_frame(b"hi"), vec![0x81, 2, b'h', b'i']);
    let long = vec![7u8; 300];
    let f = ws_text_frame(&long);
    assert_eq!(&f[..4], &[0x81, 126, 1, 44]);
    assert_eq!(&f[4..], &long[..]);
    let longer = vec![7u8; 70000];
    let f = ws_text_frame(&longer);
    assert_eq!(&f[..10], &[0x81, 127, 0, 0, 0, 0, 0, 1, 0x11, 0x70]);
    let up = ws_upgrade_response("dGhlIHNhbXBsZSBub25jZQ==");
    assert!(up.starts_with("HTTP/1.1 101 Switching Protocols\r\n"));
    assert!(up.contains("Sec-WebSocket-Accept: s3pPLMBiTxaQ9kYGzzhZRbK+xOo=\r\n"));
    assert!(up.ends_with("\r\n\r\n"));
}

#[test]
fn logs_are_followed_by_level() {
    assert_eq!(level_rank("debug"), 0);
    let e = broadcast_log("warning", "disk".to_string());
    assert_eq!((e.level.as_str(), e.message.as_str()), ("warning", "disk"));
    assert!(follows("level=info", &e));
    assert!(follows("", &e));
    assert!(!follows("level=error", &e));
    assert!(!follows("level=info", &broadcast_log("debug", String::new())));
    assert_eq!(query_value("a=1&level=x&level=y", "level=", "z"), "x");
    assert_eq!(query_value("a=1", "level=", "z"), "z");
    assert_eq!(log_chunk(b"{}"), b"3\r\n{}\n\r\n".to_vec());
}

#[test]
fn memory_in_use() {
    assert_eq!(resident_kb("Name:\tx\nVmRSS:\t   1234 kB\nThreads: 1\n"), Some(1234));
    assert_eq!(resident_kb("Name:\tx\n"), None);
    assert_eq!(in_use(Some(3)), 3072);
    assert_eq!(in_use(None), 0);
}

// Requests and responses

const REQUEST: &[u8] =
    b"PUT /proxies/a%20b?x=1 HTTP/1.1\r\nHost: h\r\nContent-Length: 4\r\n\r\nbody";

#[test]
fn requests_are_read() {
    assert_eq!(find_header_end(REQUEST), Some(REQUEST.len() - 8));
    let RequestStep::Ready(r) = read_request(REQUEST) else { panic!() };
    assert_eq!(r.method, "PUT");
    assert_eq!(r.path, "/proxies/a%20b?x=1");
    assert_eq!(r.header("host"), Some("h"));
    assert_eq!(r.header("HOST"), None);
    assert_eq!(r.body, b"body");
    assert!(!r.is_websocket());
    let mut more = REQUEST.to_vec();
    more.extend_from_slice(b"GET / HTTP/1.1\r\n\r\n");
    let RequestStep::Ready(same) = read_request(&more) else { panic!() };
    assert_eq!((same.path, same.body), (r.path, r.body));
    assert!(matches!(read_request(&REQUEST[..20]), RequestStep::NeedHead));
    assert!(matches!(read_request(&REQUEST[..REQUEST.len() - 1]), RequestStep::NeedBody));
}

#[test]
fn bad_requests_are_refused() {
    let fails = |b: &[u8]| match read_request(b) {
        RequestStep::Failed(e) => Some(e),
        _ => None,
    };
    assert_eq!(fails(b"\r\n\r\n"), Some(RequestError::MissingMethod));
    assert_eq!(fails(b"GET\r\n\r\n"), Some(RequestError::MissingPath));
    let e = fails(b"\xff\xfe\r\n\r\n").unwrap();
    let fault = String::from_utf8(vec![0xff, 0xfe]).unwrap_err().to_string();
    assert_eq!(e, RequestError::NotText(fault.clone()));
    assert_eq!(e.message(), fault);
    assert_eq!(fails(&vec![b'a'; 70000]), Some(RequestError::HeadersTooLarge));
    let mut long = b"GET / HTTP/1.1\r\nContent-Length: 3000000\r\n\r\n".to_vec();
    assert!(matches!(read_request(&long), RequestStep::NeedBody));
    long.resize(2_100_000, b'x');
    assert_eq!(fails(&long), Some(RequestError::BodyTooLarge));
    assert_eq!(closed_during(&RequestStep::NeedHead), Some(RequestError::ClosedBeforeRequest));
    assert_eq!(closed_during(&RequestStep::NeedBody), Some(RequestError::ClosedBeforeBody));
    assert!(!RequestError::BodyTooLarge.message().is_empty());
}

fn request(method: &str, path: &str, headers: &[(&str, &str)], body: &[u8]) -> HttpRequest {
    HttpRequest {
        method: method.into(),
        path: path.into(),
        headers: headers.iter().map(|(a, b)| (a.to_string(), b.to_string())).collect(),
        body: body.to_vec(),
    }
}

#[test]
fn responses_are_written() {
    let r = plain_response(200, "OK", b"hi".to_vec(), "text/plain");
    let text = String::from_utf8(r.to_bytes()).unwrap();
    assert!(text.starts_with("HTTP/1.1 200 OK\r\n"));
    assert!(text.contains("Content-Length: 2\r\n"));
    assert!(text.ends_with("\r\n\r\nhi"));
    let r = HttpResponse::new(204, "No Content").header("X-A", "b");
    assert!(String::from_utf8(r.to_bytes()).unwrap().contains("X-A: b\r\n"));
    assert_eq!(preflight_response().status, 204);
}

fn body_of(r: &HttpResponse) -> Value {
    serde_json::from_slice(&r.body).unwrap()
}

#[test]
fn json_goes_out_and_comes_in() {
    let r = message_response(404, "Not Found", "message", "no \"such\" thing");
    assert_eq!(r.status, 404);
    assert_eq!(body_of(&r)["message"], "no \"such\" thing");
    let v: Value = serde_json::from_slice(b"{\"name\":\"x\",\"n\":1}").unwrap();
    assert_eq!(text_field(&v, "name"), Some("x".to_string()));
    assert_eq!(text_field(&v, "n"), None);
    assert_eq!(text_field(&v, "m"), None);
    assert_eq!(json_response(&v).body, b"{\"n\":1,\"name\":\"x\"}".to_vec());
}

// Routing

#[test]
fn paths_are_told_apart() {
    let kind = |m: &str, p: &str| route_request(&request(m, p, &[], b""), "").kind;
    assert_eq!(kind("GET", "/"), RouteKind::Home);
    assert_eq!(kind("GET", "/version"), RouteKind::Version);
    assert_eq!(kind("PATCH", "/configs"), RouteKind::PatchConfigs);
    assert_eq!(kind("DELETE", "/connections"), RouteKind::DeleteConnections);
    assert_eq!(kind("GET", "/nowhere"), RouteKind::Ui);
    assert_eq!(kind("POST", "/nowhere"), RouteKind::NotFound);
    assert_eq!(kind("OPTIONS", "/configs"), RouteKind::Preflight);
    let r = route_request(&request("GET", "/proxies/a%20b/delay?url=x", &[], b""), "");
    assert_eq!(r.kind, RouteKind::ProxyDelay);
    assert_eq!(r.name, "a%20b");
    assert_eq!(split_path("/a?b=c?d"), ("/a".to_string(), "b=c?d".to_string()));
}

#[test]
fn the_secret_is_asked_for() {
    let with = |h: &[(&str, &str)], p: &str| is_authorized(&request("GET", p, h, b""), "s3");
    assert!(with(&[("authorization", "Bearer s3")], "/configs"));
    assert!(!with(&[("authorization", "Bearer s4")], "/configs"));
    assert!(!with(&[], "/configs"));
    assert!(is_authorized(&request("GET", "/configs", &[], b""), ""));
    let r = route_request(&request("GET", "/configs", &[], b""), "s3");
    assert_eq!(r.kind, RouteKind::Unauthorized);
    assert_eq!(unauthorized_response().status, 401);
}

// State

#[test]
fn modes_change() {
    let mut m = ModeState::new("rule", &vec!["rule".into(), "global".into()]);
    assert_eq!(m.mode, "rule");
    let r = m.patch_configs(b"{\"mode\":\"global\"}");
    assert_eq!(r.status, 204);
    assert_eq!(m.mode, "global");
    assert_eq!(m.patch_configs(b"{").status, 400);
    assert_eq!(m.mode, "global");
    m.apply_mode(None);
    assert_eq!(m.mode, "global");
    assert_eq!(bad_json("x").status, 400);
    let ports = vec![InboundPort { kind: InboundKind::Mixed, listen: "0.0.0.0".into(), port: 7890 }];
    assert!(allows_lan(&ports));
    let c = body_of(&get_configs(&m, &ports, LogLevel::Warn));
    assert_eq!(c["mode"], "global");
    assert_eq!(c["mixed-port"], 7890);
    assert_eq!(c["log-level"], "warning");
}

#[test]
fn counters_are_reported() {
    assert_eq!(body_of(&get_traffic(3, 4))["up"], 3);
    let v: Value = serde_json::from_slice(&traffic_message(1, 10, 5, 12)).unwrap();
    assert_eq!((v["up"].clone(), v["down"].clone()), (Value::from(4), Value::from(2)));
    let v: Value = serde_json::from_slice(&memory_message(77)).unwrap();
    assert_eq!(v["inuse"], 77);
    let e = LogEntry { level: "info".into(), message: "m".into() };
    let v: Value = serde_json::from_slice(&log_message(&e)).unwrap();
    assert_eq!(v["type"], "info");
    assert_eq!(v["payload"], "m");
}

fn info(host: &str) -> ConnInfo<'_> {
    ConnInfo {
        network: "tcp",
        host,
        source: SocketAddr { ip: parse_ip("10.0.0.1").unwrap(), port: 99 },
        dest_port: 443,
        inbound: "in",
        outbound: "out",
    }
}

fn by_rule() -> RuleInfo {
    RuleInfo { rule_type: "Domain".into(), rule_payload: "a.com".into() }
}

#[test]
fn connections_come_and_go() {
    let mut t = ConnectionTracker::new();
    assert!(t.is_empty());
    let a = t.register(info("a.com"), &by_rule(), 1);
    let b = t.register(info("b.com"), &by_rule(), 2);
    assert_ne!(a, b);
    assert_eq!(t.len(), 2);
    t.add_bytes(a, 5, 7);
    t.add_bytes(a, 1, 1);
    assert_eq!(t.live_counters(a), Some((6, 8)));
    assert_eq!(t.live_counters(999), None);
    let c = t.get(a).unwrap();
    assert_eq!(c.source_ip, "10.0.0.1");
    let j = conn_to_json(&c);
    assert_eq!(j["upload"], 6);
    assert_eq!(j["metadata"]["host"], "a.com");
    assert_eq!(j["chains"][0], "out");
    let all = t.snapshot();
    let v: Value = serde_json::from_slice(&connections_message(1, 2, &all)).unwrap();
    assert_eq!(v["connections"].as_array().unwrap().len(), 2);
    assert_eq!(v["downloadTotal"], 2);
    let r = delete_connection(&mut t, &b.to_string());
    assert_eq!(r.status, 204);
    assert!(t.get(b).is_none());
    t.remove_by_id(a);
    assert!(t.is_empty());
}

// Proxies

fn manager() -> OutboundManager {
    OutboundManager::from_config(&[
        OutboundConfig::Direct(DirectOutboundConfig { tag: "direct".into(), bind_address: None }),
        OutboundConfig::Selector(SelectorOutboundConfig {
            tag: "pick".into(),
            outbounds: vec!["direct".into()],
            providers: None,
            default: None,
            interrupt_existing_connections: false,
        }),
    ])
    .unwrap()
}

fn statuses() -> Vec<OutboundStatus> {
    vec![
        OutboundStatus {
            name: "direct".into(),
            kind_name: "Direct".into(),
            now: None,
            all: vec![],
        },
        OutboundStatus {
            name: "pick".into(),
            kind_name: "Selector".into(),
            now: Some("direct".into()),
            all: vec!["direct".into()],
        },
    ]
}

#[test]
fn proxies_are_listed() {
    let (m, s) = (manager(), statuses());
    let mut h = DelayHistory::default();
    h.store("direct", 42, 0);
    let v = body_of(&get_proxies(&h, &s));
    assert_eq!(v["proxies"]["pick"]["now"], "direct");
    assert_eq!(v["proxies"]["direct"]["history"][0]["delay"], 42);
    let v = body_of(&get_proxy(&h, &m, &s, &s, "direct"));
    assert_eq!(v["type"], "Direct");
    assert_eq!(get_proxy(&h, &m, &s, &s, "nobody").status, 404);
    let v = body_of(&get_groups(&h, &m, &s, &s));
    assert_eq!(v["proxies"].as_array().unwrap().len(), 1);
    assert_eq!(body_of(&get_group(&h, &m, &s, &s, "pick"))["name"], "pick");
    assert_eq!(get_group(&h, &m, &s, &s, "direct").status, 404);
    assert_eq!(build_group_entry(&h, &m, &s, &s[1])["all"][0]["name"], "direct");
}

#[test]
fn a_member_is_chosen() {
    let m = manager();
    let step = put_proxy(&m, "pick", b"{\"name\":\"direct\"}");
    let SelectStep::Select { place, child } = step else { panic!() };
    assert_eq!(place, m.get("pick").unwrap());
    assert_eq!(child, "direct");
    let refused = |s: SelectStep| match s {
        SelectStep::Respond(r) => r.status,
        _ => 0,
    };
    assert_eq!(refused(put_proxy(&m, "pick", b"nonsense")), 400);
    assert_eq!(refused(put_proxy_child(&m, "pick", None)), 400);
    assert_eq!(refused(put_proxy_child(&m, "nobody", Some("x".into()))), 400);
    assert_eq!(after_select(None).status, 204);
    assert_eq!(after_select(Some("no".into())).status, 400);
}

#[test]
fn delays_are_measured() {
    assert_eq!(probe_request(""), (DEFAULT_PROBE_URL.to_string(), 5000));
    assert_eq!(
        probe_request("timeout=900&url=http%3A%2F%2Fa.com"),
        ("http://a.com".to_string(), 900)
    );
    assert!(is_probe_decodable("url=http%3A%2F%2Fa.com"));
    assert_eq!(probe_target("http://a.com/x"), Ok(("a.com".to_string(), 80)));
    assert_eq!(probe_target("https://a.com:8443"), Ok(("a.com".to_string(), 8443)));
    assert_eq!(probe_target("ftp://a.com"), Err(ProbeError::Scheme));
    assert_eq!(probe_target("http://a.com:x"), Err(ProbeError::Port));

    let m = manager();
    let ProbeStep::Connect { host, port, timeout_ms, place } =
        get_proxy_delay(&m, "direct", "url=http%3A%2F%2Fa.com")
    else {
        panic!()
    };
    assert_eq!((host.as_str(), port, timeout_ms), ("a.com", 80, 5000));
    assert_eq!(Some(place), m.get("direct"));
    assert!(matches!(get_proxy_delay(&m, "nobody", ""), ProbeStep::Respond(r) if r.status == 404));

    let mut h = DelayHistory::default();
    let r = after_proxy_delay(&mut h, "direct", ProbeOutcome::Connected(31), 9);
    assert_eq!(body_of(&r)["delay"], 31);
    assert_eq!(h.load("direct").unwrap().delay, 31);
    assert_eq!(after_proxy_delay(&mut h, "direct", ProbeOutcome::TimedOut, 9).status, 500);
    assert_eq!(
        after_proxy_delay(&mut h, "direct", ProbeOutcome::Failed("x".into()), 9).status,
        500
    );
    assert!(h.load("direct").is_none());

    let GroupProbeStep::Connect { members, .. } = get_group_delay(&m, &statuses(), "pick", "") else {
        panic!()
    };
    assert_eq!(members[0].0, "direct");
    let r = after_group_delay(
        &mut h,
        &vec![
            MemberOutcome { tag: "direct".into(), exists: true, delay: Some(8), now_ms: 1 },
            MemberOutcome { tag: "gone".into(), exists: false, delay: None, now_ms: 1 },
        ],
    );
    assert_eq!(body_of(&r)["direct"], 8);
}

// Rules and files

fn route_config() -> RouteConfig {
    RouteConfig {
        rules: vec![RouteRuleConfig {
            domain_suffix: vec![".cn".into()],
            outbound: "direct".into(),
            ..RouteRuleConfig::default()
        }],
        final_outbound: "pick".into(),
        rule_set: vec![
            RuleSetRef {
                tag: "geo".into(),
                kind: RuleSetType::Remote,
                format: RuleSetFormat::Binary,
                path: None,
                url: Some("http://a.com/geo.rrs".into()),
                download_detour: None,
            },
            RuleSetRef {
                tag: "here".into(),
                kind: RuleSetType::Local,
                format: RuleSetFormat::Source,
                path: Some("here.json".into()),
                url: None,
                download_detour: None,
            },
        ],
        resolve_dns: false,
    }
}

#[test]
fn rules_are_listed() {
    let c = route_config();
    let v = body_of(&get_rules(&c));
    let rules = v["rules"].as_array().unwrap();
    assert_eq!(rules.last().unwrap()["proxy"], "pick");
    assert_eq!(rules[0]["proxy"], "direct");
    let meta = vec![("geo".to_string(), RuleSetMeta { rule_count: 5, updated_at_ms: 0 })];
    let reg = RuleSetRegistry::from_router_meta(route_config(), meta);
    let v = body_of(&get_rule_providers(&c.rule_set, &reg));
    assert_eq!(v["providers"]["geo"]["ruleCount"], 5);
    assert!(update_rule_provider(&c.rule_set, "geo").is_none());
    assert_eq!(update_rule_provider(&c.rule_set, "nobody").unwrap().status, 400);
    assert_eq!(after_update(None).status, 204);
    assert!(after_update(Some("down".into())).status >= 500);
}

#[test]
fn dashboard_files() {
    assert!(matches!(serve_ui(None, "/ui/x"), UiStep::Respond(r) if r.status == 404));
    assert!(matches!(serve_ui(Some("www"), "/ui/a.js"), UiStep::Look(p) if p == "www/a.js"));
    assert!(matches!(serve_ui(Some("www"), "/ui/../x"), UiStep::Respond(_)));
    assert_eq!(ui_file("www", true), "www/index.html");
    assert_eq!(ui_file("www/a.js", false), "www/a.js");
    let r = after_ui_read("www/a.js", Some(b"x".to_vec()), None);
    assert_eq!((r.status, r.body), (200, b"x".to_vec()));
    assert_eq!(after_ui_read("www/a.js", None, Some(b"index".to_vec())).body, b"index".to_vec());
    assert_eq!(after_ui_read("www/a.js", None, None).status, 404);
    assert_ne!(redirect_to_ui(true).status, redirect_to_ui(false).status);
    assert_eq!(body_of(&get_version("1.2"))["version"], "reflex 1.2");
}

// The server

#[test]
fn requests_are_answered() {
    let config = ClashApiConfig { secret: "s3".into(), ..ClashApiConfig::default() };
    let mut api = ClashApi::new(config, route_config(), vec![], LogLevel::Info);
    let (m, st) = (manager(), statuses());
    let reg = RuleSetRegistry::from_router_meta(route_config(), vec![]);
    let mut t = ConnectionTracker::new();
    let s = Surroundings {
        version: "1.2",
        up: 1,
        down: 2,
        inuse: 3,
        outbounds: &m,
        reported: &st,
        statuses: &st,
        rule_sets: &reg,
    };
    let auth = [("authorization", "Bearer s3")];
    let bare = request("GET", "/version", &[], b"");
    assert!(matches!(
        api.handle_request(&bare, &s, &mut t),
        Answer::Respond(r) if r.status == 401
    ));
    let get = request("GET", "/version", &auth, b"");
    assert!(api.is_request_decodable(&get));
    let Answer::Respond(r) = api.handle_request(&get, &s, &mut t) else { panic!() };
    assert_eq!(body_of(&r)["version"], "reflex 1.2");

    let patch = request("PATCH", "/configs", &auth, b"{\"mode\":\"global\"}");
    api.handle_request(&patch, &s, &mut t);
    assert_eq!(api.modes.mode, "global");

    let id = t.register(info("a.com"), &by_rule(), 1);
    let del = request("DELETE", &format!("/connections/{id}"), &auth, b"");
    api.handle_request(&del, &s, &mut t);
    assert!(t.is_empty());

    let ws = request(
        "GET",
        "/traffic?token=s3",
        &[
            ("upgrade", "websocket"),
            ("sec-websocket-key", "dGhlIHNhbXBsZSBub25jZQ=="),
        ],
        b"",
    );
    let Answer::Upgrade { feed, handshake } = api.handle_request(&ws, &s, &mut t) else { panic!() };
    assert_eq!(feed, Feed::Traffic);
    assert!(handshake.contains("s3pPLMBiTxaQ9kYGzzhZRbK+xOo="));

    let up = request("PUT", "/providers/rules/geo", &auth, b"");
    assert!(matches!(api.handle_request(&up, &s, &mut t), Answer::Reload(n) if n == "geo"));
    let bad = request("GET", "/proxies/%aé", &auth, b"");
    assert!(!api.is_request_decodable(&bad));
}
