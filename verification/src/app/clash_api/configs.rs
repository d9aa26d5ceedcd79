//! Modes, settings, traffic and connections, as the control API shows them.
use vstd::prelude::*;
use std::sync::Arc;
use crate::app::clash_api::calendar;
use crate::app::clash_api::http;
use crate::app::clash_api::http::HttpResponse;
use crate::app::clash_api::json;
use crate::app::clash_api::json::Json;
use crate::app::clash_api::logs::LogEntry;
use crate::app::clash_api::tracker;
use crate::app::clash_api::tracker::{ConnMeta, ConnectionTracker};
use crate::net;
use crate::text;

verus! {

/// The modes where the settings give none.
pub open spec fn usual_modes() -> Seq<Seq<char>> {
    seq!["rule"@, "global"@, "direct"@]
}

/// The texts of strings.
pub open spec fn views(v: Seq<String>) -> Seq<Seq<char>> {
    v.map_values(|s: String| s@)
}

/// The modes to choose from: those of the settings, with the default one before
/// them if it is not among them.
pub open spec fn modes(list: Seq<Seq<char>>, default_mode: Seq<char>) -> Seq<Seq<char>> {
    let l = if list.len() == 0 {
        usual_modes()
    } else {
        list
    };
    if l.contains(default_mode) {
        l
    } else {
        seq![default_mode] + l
    }
}

/// The mode and the modes to choose from.
pub struct ModeState {
    pub mode: String,
    pub mode_list: Vec<String>,
}

/// Whether a mode is among those to choose from; the case of letters does not
/// matter.
pub open spec fn offered(list: Seq<Seq<char>>, mode: Seq<char>) -> bool {
    exists|i: int| 0 <= i < list.len() && text::lowercase(#[trigger] list[i]) == text::lowercase(mode)
}

fn push_texts(out: &mut Vec<String>, v: &Vec<String>)
    ensures
        views(final(out)@) == views(old(out)@) + views(v@),
{
    let ghost start = views(out@);
    let mut i: usize = 0;
    assert(start + views(v@).take(0) =~= start);
    while i < v.len()
        invariant
            i <= v@.len(),
            views(out@) == start + views(v@).take(i as int),
        decreases v@.len() - i,
    {
        let ghost before = views(out@);
        out.push(v[i].as_str().to_owned());
        i = i + 1;
        assert(views(out@) =~= before.push(v@[i - 1]@));
        assert(views(v@).take(i as int) =~= views(v@).take(i - 1).push(v@[i - 1]@));
        assert(start + views(v@).take(i as int) =~= before.push(v@[i - 1]@));
    }
    assert(views(v@).take(i as int) =~= views(v@));
}

fn among(v: &Vec<String>, t: &str) -> (r: bool)
    ensures
        r == views(v@).contains(t@),
{
    let mut i: usize = 0;
    while i < v.len()
        invariant
            i <= v@.len(),
            forall|k: int| 0 <= k < i ==> views(v@)[k] != t@,
        decreases v@.len() - i,
    {
        if text::same_text(v[i].as_str(), t) {
            assert(views(v@)[i as int] == t@);
            return true;
        }
        i = i + 1;
    }
    false
}

impl ModeState {
    /// The default mode, and the modes to choose from.
    pub fn new(default_mode: &str, mode_list: &Vec<String>) -> (r: Self)
        ensures
            r.mode@ == default_mode@,
            views(r.mode_list@) == modes(views(mode_list@), default_mode@),
    {
        let mut list: Vec<String> = Vec::new();
        if mode_list.len() == 0 {
            list.push("rule".to_owned());
            list.push("global".to_owned());
            list.push("direct".to_owned());
            assert(views(list@) =~= usual_modes());
        } else {
            assert(views(list@) =~= Seq::<Seq<char>>::empty());
            push_texts(&mut list, mode_list);
            assert(views(list@) =~= views(mode_list@));
        }
        if !among(&list, default_mode) {
            let ghost before = views(list@);
            list.insert(0, default_mode.to_owned());
            assert(views(list@) =~= seq![default_mode@] + before);
        }
        ModeState { mode: default_mode.to_owned(), mode_list: list }
    }

    /// Takes on a mode if it is offered; what is asked for is kept as it is
    /// written.
    pub fn apply_mode(&mut self, mode: Option<String>)
        ensures
            final(self).mode_list == old(self).mode_list,
            final(self).mode@ == (match mode {
                Some(m) => if offered(views(old(self).mode_list@), m@) {
                    m@
                } else {
                    old(self).mode@
                },
                None => old(self).mode@,
            }),
    {
        if let Some(m) = mode {
            let mut i: usize = 0;
            while i < self.mode_list.len()
                invariant
                    *self == *old(self),
                    mode == Some(m),
                    i <= self.mode_list@.len(),
                    forall|k: int|
                        0 <= k < i ==> text::lowercase(#[trigger] views(self.mode_list@)[k])
                            != text::lowercase(m@),
                decreases self.mode_list@.len() - i,
            {
                if text::same_text_ignoring_case(self.mode_list[i].as_str(), m.as_str()) {
                    assert(text::lowercase(views(self.mode_list@)[i as int]) == text::lowercase(
                        m@,
                    ));
                    self.mode = m;
                    return ;
                }
                i = i + 1;
            }
        }
    }

    /// Answers a request to change settings: the mode is all that can be
    /// changed.
    pub fn patch_configs(&mut self, body: &[u8]) -> (r: HttpResponse)
        ensures
            final(self).mode_list == old(self).mode_list,
            patched(*old(self), final(self).mode@, body@, r@),
    {
        match json::parse_json(body) {
            Ok(v) => {
                self.apply_mode(json::text_field(&v, "mode"));
                http::empty_response(204, "No Content")
            },
            Err(e) => bad_json(e.as_str()),
        }
    }
}

/// Whether a request to change settings leads to this mode and this response.
pub open spec fn patched(
    before: ModeState,
    mode: Seq<char>,
    body: Seq<u8>,
    r: http::ResponseView,
) -> bool {
    match json::decoded_json(body) {
        Ok(j) => r == http::empty_reply(204, "No Content"@) && mode == (match json::text_under(
            j,
            "mode"@,
        ) {
            Some(m) => if offered(views(before.mode_list@), m) {
                m
            } else {
                before.mode@
            },
            None => before.mode@,
        }),
        Err(e) => r == http::text_reply(400, "Bad Request"@, "invalid json: "@ + e) && mode
            == before.mode@,
    }
}

/// The response to a body that is no JSON.
pub fn bad_json(error: &str) -> (r: HttpResponse)
    ensures
        r@ == http::text_reply(400, "Bad Request"@, "invalid json: "@ + error@),
{
    let mut t: Vec<char> = text::chars_of("invalid json: ");
    text::push_text(&mut t, error);
    http::text_response(400, "Bad Request", text::string_of(t.as_slice()).as_str())
}

/// What an inbound is.
#[derive(Clone, Copy, Debug, PartialEq, Eq, Structural)]
pub enum InboundKind {
    Mixed,
    Redir,
    TProxy,
    Dns,
    Tun,
}

/// Where an inbound listens.
pub struct InboundPort {
    pub kind: InboundKind,
    pub listen: String,
    pub port: u16,
}

/// How much is logged.
#[derive(Clone, Copy, Debug, PartialEq, Eq, Structural)]
pub enum LogLevel {
    Trace,
    Debug,
    Info,
    Warn,
    Error,
    Off,
}

/// The port of the first inbound of a kind, from `i` on, that has one.
pub open spec fn port_of_kind(v: Seq<InboundPort>, kind: InboundKind, i: int) -> u16
    decreases v.len() - i,
{
    if i < 0 || i >= v.len() {
        0
    } else if v[i].kind == kind && v[i].port != 0 {
        v[i].port
    } else {
        port_of_kind(v, kind, i + 1)
    }
}

/// Whether an inbound listens for others than this machine.
pub open spec fn is_open(p: InboundPort) -> bool {
    &&& p.kind != InboundKind::Dns && p.kind != InboundKind::Tun
    &&& p.listen@ == "0.0.0.0"@ || p.listen@ == "::"@ || p.listen@ == "0"@
}

/// The name of a level.
pub open spec fn level_name(l: LogLevel) -> Seq<char> {
    match l {
        LogLevel::Trace | LogLevel::Debug => "debug"@,
        LogLevel::Info => "info"@,
        LogLevel::Warn => "warning"@,
        LogLevel::Error => "error"@,
        LogLevel::Off => "silent"@,
    }
}

fn find_port(v: &Vec<InboundPort>, kind: InboundKind) -> (r: u16)
    ensures
        r == port_of_kind(v@, kind, 0),
{
    let mut i: usize = 0;
    while i < v.len()
        invariant
            i <= v@.len(),
            port_of_kind(v@, kind, 0) == port_of_kind(v@, kind, i as int),
        decreases v@.len() - i,
    {
        if v[i].kind == kind && v[i].port != 0 {
            return v[i].port;
        }
        i = i + 1;
    }
    0
}

/// Whether some inbound listens for others than this machine.
pub fn allows_lan(v: &Vec<InboundPort>) -> (r: bool)
    ensures
        r == exists|i: int| 0 <= i < v@.len() && is_open(#[trigger] v@[i]),
{
    let mut i: usize = 0;
    while i < v.len()
        invariant
            i <= v@.len(),
            forall|k: int| 0 <= k < i ==> !is_open(#[trigger] v@[k]),
        decreases v@.len() - i,
    {
        let p: &InboundPort = &v[i];
        let s: &str = p.listen.as_str();
        if p.kind != InboundKind::Dns && p.kind != InboundKind::Tun && (text::same_text(
            s,
            "0.0.0.0",
        ) || text::same_text(s, "::") || text::same_text(s, "0")) {
            assert(is_open(v@[i as int]));
            return true;
        }
        i = i + 1;
    }
    false
}

/// The settings as the control API shows them.
pub open spec fn configs_json(
    inbounds: Seq<InboundPort>,
    mode: Seq<char>,
    mode_list: Seq<String>,
    level: LogLevel,
) -> Json {
    Json::Object(
        json::nothing().insert("port"@, Json::Number(0)).insert(
            "socks-port"@,
            Json::Number(0),
        ).insert(
            "redir-port"@,
            Json::Number(port_of_kind(inbounds, InboundKind::Redir, 0) as int),
        ).insert(
            "tproxy-port"@,
            Json::Number(port_of_kind(inbounds, InboundKind::TProxy, 0) as int),
        ).insert(
            "mixed-port"@,
            Json::Number(port_of_kind(inbounds, InboundKind::Mixed, 0) as int),
        ).insert(
            "allow-lan"@,
            Json::Flag(exists|i: int| 0 <= i < inbounds.len() && is_open(#[trigger] inbounds[i])),
        ).insert("bind-address"@, Json::Text("*"@)).insert("mode"@, Json::Text(mode)).insert(
            "mode-list"@,
            json::texts(mode_list),
        ).insert("log-level"@, Json::Text(level_name(level))).insert("ipv6"@, Json::Flag(true)),
    )
}

/// The settings as the control API shows them.
pub fn get_configs(state: &ModeState, inbounds: &Vec<InboundPort>, level: LogLevel) -> (r:
    HttpResponse)
    ensures
        r@ == json::json_reply(
            200,
            "OK"@,
            configs_json(inbounds@, state.mode@, state.mode_list@, level),
        ),
{
    let name: &str = match level {
        LogLevel::Trace => "debug",
        LogLevel::Debug => "debug",
        LogLevel::Info => "info",
        LogLevel::Warn => "warning",
        LogLevel::Error => "error",
        LogLevel::Off => "silent",
    };
    let mut m = json::no_entries();
    json::put_entry(&mut m, "port", json::json_count(0));
    json::put_entry(&mut m, "socks-port", json::json_count(0));
    json::put_entry(
        &mut m,
        "redir-port",
        json::json_count(find_port(inbounds, InboundKind::Redir) as u64),
    );
    json::put_entry(
        &mut m,
        "tproxy-port",
        json::json_count(find_port(inbounds, InboundKind::TProxy) as u64),
    );
    json::put_entry(
        &mut m,
        "mixed-port",
        json::json_count(find_port(inbounds, InboundKind::Mixed) as u64),
    );
    json::put_entry(&mut m, "allow-lan", json::json_flag(allows_lan(inbounds)));
    json::put_entry(&mut m, "bind-address", json::json_text("*"));
    json::put_entry(&mut m, "mode", json::json_text(state.mode.as_str()));
    json::put_entry(&mut m, "mode-list", json::text_list(&state.mode_list));
    json::put_entry(&mut m, "log-level", json::json_text(name));
    json::put_entry(&mut m, "ipv6", json::json_flag(true));
    json::json_response(&json::json_object(m))
}

// Traffic

/// The traffic so far.
pub open spec fn traffic_json(up: u64, down: u64) -> Json {
    Json::Object(
        json::nothing().insert("up"@, Json::Number(up as int)).insert(
            "down"@,
            Json::Number(down as int),
        ).insert("uploadTotal"@, Json::Number(up as int)).insert(
            "downloadTotal"@,
            Json::Number(down as int),
        ),
    )
}

/// The traffic so far.
pub fn get_traffic(up: u64, down: u64) -> (r: HttpResponse)
    ensures
        r@ == json::json_reply(200, "OK"@, traffic_json(up, down)),
{
    let mut m = json::no_entries();
    json::put_entry(&mut m, "up", json::json_count(up));
    json::put_entry(&mut m, "down", json::json_count(down));
    json::put_entry(&mut m, "uploadTotal", json::json_count(up));
    json::put_entry(&mut m, "downloadTotal", json::json_count(down));
    json::json_response(&json::json_object(m))
}

/// How much a counter has grown; nothing if it has shrunk.
pub open spec fn growth(before: u64, after: u64) -> int {
    if after >= before {
        after - before
    } else {
        0
    }
}

/// The message about the traffic between two looks at the counters.
pub fn traffic_message(prev_up: u64, prev_down: u64, up: u64, down: u64) -> (r: Vec<u8>)
    ensures
        r@ == json::encoded_json(
            Json::Object(
                json::nothing().insert("up"@, Json::Number(growth(prev_up, up))).insert(
                    "down"@,
                    Json::Number(growth(prev_down, down)),
                ),
            ),
        ),
{
    let u: u64 = if up >= prev_up {
        up - prev_up
    } else {
        0
    };
    let d: u64 = if down >= prev_down {
        down - prev_down
    } else {
        0
    };
    let mut m = json::no_entries();
    json::put_entry(&mut m, "up", json::json_count(u));
    json::put_entry(&mut m, "down", json::json_count(d));
    json::json_bytes(&json::json_object(m))
}

/// The memory in use.
pub open spec fn memory_json(inuse: u64) -> Json {
    Json::Object(
        json::nothing().insert("inuse"@, Json::Number(inuse as int)).insert(
            "oslimit"@,
            Json::Number(0),
        ),
    )
}

/// The message about the memory in use.
pub fn memory_message(inuse: u64) -> (r: Vec<u8>)
    ensures
        r@ == json::encoded_json(memory_json(inuse)),
{
    let mut m = json::no_entries();
    json::put_entry(&mut m, "inuse", json::json_count(inuse));
    json::put_entry(&mut m, "oslimit", json::json_count(0));
    json::json_bytes(&json::json_object(m))
}

/// The memory in use.
pub fn get_memory(inuse: u64) -> (r: HttpResponse)
    ensures
        r@ == json::json_reply(200, "OK"@, memory_json(inuse)),
{
    http::plain_response(
        200,
        "OK",
        memory_message(inuse),
        "application/json; charset=utf-8",
    )
}

/// The message about an entry of the log.
pub fn log_message(entry: &LogEntry) -> (r: Vec<u8>)
    ensures
        r@ == json::encoded_json(
            Json::Object(
                json::nothing().insert("type"@, Json::Text(entry.level@)).insert(
                    "payload"@,
                    Json::Text(entry.message@),
                ),
            ),
        ),
{
    let mut m = json::no_entries();
    json::put_entry(&mut m, "type", json::json_text(entry.level.as_str()));
    json::put_entry(&mut m, "payload", json::json_text(entry.message.as_str()));
    json::json_bytes(&json::json_object(m))
}

// Connections

/// What a connection goes to, as the control API shows it: an address is shown
/// as such, and not as a name.
pub open spec fn metadata_json(c: tracker::ConnView) -> Json {
    let is_ip = net::ip_value(c.host) is Some;
    Json::Object(
        json::nothing().insert("network"@, Json::Text(c.network)).insert(
            "type"@,
            Json::Text(c.inbound),
        ).insert(
            "host"@,
            Json::Text(
                if is_ip {
                    ""@
                } else {
                    c.host
                },
            ),
        ).insert("sniffHost"@, Json::Text(""@)).insert(
            "destinationIP"@,
            Json::Text(
                if is_ip {
                    c.host
                } else {
                    ""@
                },
            ),
        ).insert("destinationPort"@, Json::Text(text::decimal(c.dest_port as nat))).insert(
            "sourceIP"@,
            Json::Text(c.source_ip),
        ).insert("sourcePort"@, Json::Text(text::decimal(c.source_port as nat))).insert(
            "inboundName"@,
            Json::Text(c.inbound),
        ).insert("inboundPort"@, Json::Text(""@)).insert("inboundUser"@, Json::Text(""@)).insert(
            "process"@,
            Json::Text(""@),
        ).insert("processPath"@, Json::Text(""@)).insert("dnsMode"@, Json::Text("normal"@)),
    )
}

/// A connection as the control API shows it.
pub open spec fn conn_json(c: tracker::ConnView) -> Json {
    Json::Object(
        json::nothing().insert("id"@, Json::Text(text::decimal(c.id as nat))).insert(
            "metadata"@,
            metadata_json(c),
        ).insert("upload"@, Json::Number(c.upload as int)).insert(
            "download"@,
            Json::Number(c.download as int),
        ).insert("start"@, Json::Text(calendar::iso_of(c.started_ms))).insert(
            "chains"@,
            Json::List(seq![Json::Text(c.outbound)]),
        ).insert("rule"@, Json::Text(c.rule)).insert("rulePayload"@, Json::Text(c.rule_payload)),
    )
}

/// A connection as the control API shows it.
pub fn conn_to_json(c: &ConnMeta) -> (r: serde_json::Value)
    ensures
        json::json(r) == conn_json(c@),
{
    let is_ip: bool = net::parse_ip(c.host.as_str()).is_some();
    let (host, ip): (&str, &str) = if is_ip {
        ("", c.host.as_str())
    } else {
        (c.host.as_str(), "")
    };
    let mut d = json::no_entries();
    json::put_entry(&mut d, "network", json::json_text(c.network.as_str()));
    json::put_entry(&mut d, "type", json::json_text(c.inbound.as_str()));
    json::put_entry(&mut d, "host", json::json_text(host));
    json::put_entry(&mut d, "sniffHost", json::json_text(""));
    json::put_entry(&mut d, "destinationIP", json::json_text(ip));
    json::put_entry(
        &mut d,
        "destinationPort",
        json::json_text(text::decimal_text(c.dest_port as u64).as_str()),
    );
    json::put_entry(&mut d, "sourceIP", json::json_text(c.source_ip.as_str()));
    json::put_entry(
        &mut d,
        "sourcePort",
        json::json_text(text::decimal_text(c.source_port as u64).as_str()),
    );
    json::put_entry(&mut d, "inboundName", json::json_text(c.inbound.as_str()));
    json::put_entry(&mut d, "inboundPort", json::json_text(""));
    json::put_entry(&mut d, "inboundUser", json::json_text(""));
    json::put_entry(&mut d, "process", json::json_text(""));
    json::put_entry(&mut d, "processPath", json::json_text(""));
    json::put_entry(&mut d, "dnsMode", json::json_text("normal"));
    let start: String = calendar::ms_to_iso(c.started_ms);
    let mut chains: Vec<serde_json::Value> = Vec::new();
    chains.push(json::json_text(c.outbound.as_str()));
    assert(json::held(chains@) =~= seq![Json::Text(c.outbound@)]);
    let mut m = json::no_entries();
    json::put_entry(&mut m, "id", json::json_text(text::decimal_text(c.id).as_str()));
    json::put_entry(&mut m, "metadata", json::json_object(d));
    json::put_entry(&mut m, "upload", json::json_signed(c.upload));
    json::put_entry(&mut m, "download", json::json_signed(c.download));
    json::put_entry(&mut m, "start", json::json_text(start.as_str()));
    json::put_entry(&mut m, "chains", json::json_list(chains));
    json::put_entry(&mut m, "rule", json::json_text(c.rule.as_str()));
    json::put_entry(&mut m, "rulePayload", json::json_text(c.rule_payload.as_str()));
    json::json_object(m)
}

/// The traffic so far and connections, in their order.
pub open spec fn connections_json(up: u64, down: u64, conns: Seq<(u64, Arc<ConnMeta>)>) -> Json {
    Json::Object(
        json::nothing().insert("downloadTotal"@, Json::Number(down as int)).insert(
            "uploadTotal"@,
            Json::Number(up as int),
        ).insert(
            "connections"@,
            Json::List(conns.map_values(|c: (u64, Arc<ConnMeta>)| conn_json(c.1@))),
        ),
    )
}

/// The message about the traffic so far and all connections.
pub fn connections_message(up: u64, down: u64, conns: &Vec<(u64, Arc<ConnMeta>)>) -> (r: Vec<u8>)
    ensures
        r@ == json::encoded_json(connections_json(up, down, conns@)),
{
    let mut list: Vec<serde_json::Value> = Vec::new();
    let mut i: usize = 0;
    while i < conns.len()
        invariant
            i <= conns@.len(),
            list@.len() == i,
            forall|k: int| 0 <= k < i ==> json::json(#[trigger] list@[k]) == conn_json(conns@[k].1@),
        decreases conns@.len() - i,
    {
        list.push(conn_to_json(&*conns[i].1));
        i = i + 1;
    }
    assert(json::held(list@) =~= conns@.map_values(|c: (u64, Arc<ConnMeta>)| conn_json(c.1@)));
    let mut m = json::no_entries();
    json::put_entry(&mut m, "downloadTotal", json::json_count(down));
    json::put_entry(&mut m, "uploadTotal", json::json_count(up));
    json::put_entry(&mut m, "connections", json::json_list(list));
    json::json_bytes(&json::json_object(m))
}

/// The traffic so far and all connections.
pub fn get_connections(up: u64, down: u64, conns: &Vec<(u64, Arc<ConnMeta>)>) -> (r: HttpResponse)
    ensures
        r@ == json::json_reply(200, "OK"@, connections_json(up, down, conns@)),
{
    http::plain_response(
        200,
        "OK",
        connections_message(up, down, conns),
        "application/json; charset=utf-8",
    )
}

/// Whether a request to forget a connection leads to these connections and this
/// response.
pub open spec fn deleted(
    before: Map<u64, tracker::ConnView>,
    after: Map<u64, tracker::ConnView>,
    id: Seq<char>,
    r: http::ResponseView,
) -> bool {
    match text::unsigned_value(id, u64::MAX as nat) {
        Some(n) => after == before.remove(n as u64) && r == http::empty_reply(204, "No Content"@),
        None => after == before && r == http::text_reply(
            400,
            "Bad Request"@,
            "invalid connection id"@,
        ),
    }
}

/// Forgets a connection.
pub fn delete_connection(t: &mut ConnectionTracker, id: &str) -> (r: HttpResponse)
    requires
        old(t).wf(),
    ensures
        final(t).wf(),
        deleted(old(t).conns(), final(t).conns(), id@, r@),
{
    let chars: Vec<char> = text::chars_of(id);
    match text::parse_unsigned(chars.as_slice(), u64::MAX) {
        Some(n) => {
            t.remove_by_id(n);
            http::empty_response(204, "No Content")
        },
        None => http::text_response(400, "Bad Request", "invalid connection id"),
    }
}

proof fn lemma_port_of_kind(v: Seq<InboundPort>, kind: InboundKind, i: int, k: int)
    requires
        0 <= i <= k <= v.len(),
        forall|j: int| i <= j < k ==> (#[trigger] v[j]).kind != kind || v[j].port == 0,
    ensures
        port_of_kind(v, kind, i) == port_of_kind(v, kind, k),
    decreases k - i,
{
    if i < k {
        assert(v[i].kind != kind || v[i].port == 0);
        lemma_port_of_kind(v, kind, i + 1, k);
    }
}

/// The port of a kind of inbound is that of the first one that has a port, and
/// zero if there is none.
pub proof fn law_first_port_counts(v: Seq<InboundPort>, kind: InboundKind, k: int)
    requires
        0 <= k <= v.len(),
        forall|j: int| 0 <= j < k ==> (#[trigger] v[j]).kind != kind || v[j].port == 0,
        k < v.len() ==> v[k].kind == kind && v[k].port != 0,
    ensures
        port_of_kind(v, kind, 0) == (if k < v.len() {
            v[k].port
        } else {
            0
        }),
{
    lemma_port_of_kind(v, kind, 0, k);
}

/// The default mode is among those to choose from, and so is every mode of the
/// settings, or each of the three usual ones if there are none. Nothing else is.
pub proof fn law_modes_to_choose_from(list: Seq<Seq<char>>, default_mode: Seq<char>, m: Seq<char>)
    ensures
        modes(list, default_mode).contains(m) <==> m == default_mode || list.contains(m) || (
        list.len() == 0 && (m == "rule"@ || m == "global"@ || m == "direct"@)),
{
    let l = if list.len() == 0 {
        usual_modes()
    } else {
        list
    };
    let all = seq![default_mode] + l;
    assert(usual_modes()[0] == "rule"@ && usual_modes()[1] == "global"@ && usual_modes()[2]
        == "direct"@);
    if all.contains(m) {
        let i = choose|i: int| 0 <= i < all.len() && all[i] == m;
        if i > 0 {
            assert(l[i - 1] == m);
        }
    }
    assert(all[0] == default_mode);
    if l.contains(m) {
        let i = choose|i: int| 0 <= i < l.len() && l[i] == m;
        assert(all[i + 1] == m);
    }
}

/// The keys differ.
proof fn lemma_metadata_keys()
    ensures
        "network"@ != "type"@,
        "network"@ != "host"@,
        "network"@ != "sniffHost"@,
        "network"@ != "destinationIP"@,
        "network"@ != "destinationPort"@,
        "network"@ != "sourceIP"@,
        "network"@ != "sourcePort"@,
        "network"@ != "inboundName"@,
        "network"@ != "inboundPort"@,
        "network"@ != "inboundUser"@,
        "network"@ != "process"@,
        "network"@ != "processPath"@,
        "network"@ != "dnsMode"@,
        "type"@ != "host"@,
        "type"@ != "sniffHost"@,
        "type"@ != "destinationIP"@,
        "type"@ != "destinationPort"@,
        "type"@ != "sourceIP"@,
        "type"@ != "sourcePort"@,
        "type"@ != "inboundName"@,
        "type"@ != "inboundPort"@,
        "type"@ != "inboundUser"@,
        "type"@ != "process"@,
        "type"@ != "processPath"@,
        "type"@ != "dnsMode"@,
        "host"@ != "sniffHost"@,
        "host"@ != "destinationIP"@,
        "host"@ != "destinationPort"@,
        "host"@ != "sourceIP"@,
        "host"@ != "sourcePort"@,
        "host"@ != "inboundName"@,
        "host"@ != "inboundPort"@,
        "host"@ != "inboundUser"@,
        "host"@ != "process"@,
        "host"@ != "processPath"@,
        "host"@ != "dnsMode"@,
        "sniffHost"@ != "destinationIP"@,
        "sniffHost"@ != "destinationPort"@,
        "sniffHost"@ != "sourceIP"@,
        "sniffHost"@ != "sourcePort"@,
        "sniffHost"@ != "inboundName"@,
        "sniffHost"@ != "inboundPort"@,
        "sniffHost"@ != "inboundUser"@,
        "sniffHost"@ != "process"@,
        "sniffHost"@ != "processPath"@,
        "sniffHost"@ != "dnsMode"@,
        "destinationIP"@ != "destinationPort"@,
        "destinationIP"@ != "sourceIP"@,
        "destinationIP"@ != "sourcePort"@,
        "destinationIP"@ != "inboundName"@,
        "destinationIP"@ != "inboundPort"@,
        "destinationIP"@ != "inboundUser"@,
        "destinationIP"@ != "process"@,
        "destinationIP"@ != "processPath"@,
        "destinationIP"@ != "dnsMode"@,
        "destinationPort"@ != "sourceIP"@,
        "destinationPort"@ != "sourcePort"@,
        "destinationPort"@ != "inboundName"@,
        "destinationPort"@ != "inboundPort"@,
        "destinationPort"@ != "inboundUser"@,
        "destinationPort"@ != "process"@,
        "destinationPort"@ != "processPath"@,
        "destinationPort"@ != "dnsMode"@,
        "sourceIP"@ != "sourcePort"@,
        "sourceIP"@ != "inboundName"@,
        "sourceIP"@ != "inboundPort"@,
        "sourceIP"@ != "inboundUser"@,
        "sourceIP"@ != "process"@,
        "sourceIP"@ != "processPath"@,
        "sourceIP"@ != "dnsMode"@,
        "sourcePort"@ != "inboundName"@,
        "sourcePort"@ != "inboundPort"@,
        "sourcePort"@ != "inboundUser"@,
        "sourcePort"@ != "process"@,
        "sourcePort"@ != "processPath"@,
        "sourcePort"@ != "dnsMode"@,
        "inboundName"@ != "inboundPort"@,
        "inboundName"@ != "inboundUser"@,
        "inboundName"@ != "process"@,
        "inboundName"@ != "processPath"@,
        "inboundName"@ != "dnsMode"@,
        "inboundPort"@ != "inboundUser"@,
        "inboundPort"@ != "process"@,
        "inboundPort"@ != "processPath"@,
        "inboundPort"@ != "dnsMode"@,
        "inboundUser"@ != "process"@,
        "inboundUser"@ != "processPath"@,
        "inboundUser"@ != "dnsMode"@,
        "process"@ != "processPath"@,
        "process"@ != "dnsMode"@,
        "processPath"@ != "dnsMode"@,
{
    reveal_strlit("network");
    assert("network"@.len() == 7);
    reveal_strlit("type");
    assert("type"@.len() == 4);
    reveal_strlit("host");
    assert("host"@.len() == 4);
    reveal_strlit("sniffHost");
    assert("sniffHost"@.len() == 9);
    reveal_strlit("destinationIP");
    assert("destinationIP"@.len() == 13);
    reveal_strlit("destinationPort");
    assert("destinationPort"@.len() == 15);
    reveal_strlit("sourceIP");
    assert("sourceIP"@.len() == 8);
    reveal_strlit("sourcePort");
    assert("sourcePort"@.len() == 10);
    reveal_strlit("inboundName");
    assert("inboundName"@.len() == 11);
    reveal_strlit("inboundPort");
    assert("inboundPort"@.len() == 11);
    reveal_strlit("inboundUser");
    assert("inboundUser"@.len() == 11);
    reveal_strlit("process");
    assert("process"@.len() == 7);
    reveal_strlit("processPath");
    assert("processPath"@.len() == 11);
    reveal_strlit("dnsMode");
    assert("dnsMode"@.len() == 7);
    assert("network"@[0] == 'n' && "process"@[0] == 'p');
    assert("network"@[0] == 'n' && "dnsMode"@[0] == 'd');
    assert("type"@[0] == 't' && "host"@[0] == 'h');
    assert("inboundName"@[7] == 'N' && "inboundPort"@[7] == 'P');
    assert("inboundName"@[7] == 'N' && "inboundUser"@[7] == 'U');
    assert("inboundName"@[0] == 'i' && "processPath"@[0] == 'p');
    assert("inboundPort"@[7] == 'P' && "inboundUser"@[7] == 'U');
    assert("inboundPort"@[0] == 'i' && "processPath"@[0] == 'p');
    assert("inboundUser"@[0] == 'i' && "processPath"@[0] == 'p');
    assert("process"@[0] == 'p' && "dnsMode"@[0] == 'd');
}

/// The keys differ.
proof fn lemma_connection_keys()
    ensures
        "id"@ != "metadata"@,
        "id"@ != "upload"@,
        "id"@ != "download"@,
        "id"@ != "start"@,
        "id"@ != "chains"@,
        "id"@ != "rule"@,
        "id"@ != "rulePayload"@,
        "metadata"@ != "upload"@,
        "metadata"@ != "download"@,
        "metadata"@ != "start"@,
        "metadata"@ != "chains"@,
        "metadata"@ != "rule"@,
        "metadata"@ != "rulePayload"@,
        "upload"@ != "download"@,
        "upload"@ != "start"@,
        "upload"@ != "chains"@,
        "upload"@ != "rule"@,
        "upload"@ != "rulePayload"@,
        "download"@ != "start"@,
        "download"@ != "chains"@,
        "download"@ != "rule"@,
        "download"@ != "rulePayload"@,
        "start"@ != "chains"@,
        "start"@ != "rule"@,
        "start"@ != "rulePayload"@,
        "chains"@ != "rule"@,
        "chains"@ != "rulePayload"@,
        "rule"@ != "rulePayload"@,
{
    reveal_strlit("id");
    assert("id"@.len() == 2);
    reveal_strlit("metadata");
    assert("metadata"@.len() == 8);
    reveal_strlit("upload");
    assert("upload"@.len() == 6);
    reveal_strlit("download");
    assert("download"@.len() == 8);
    reveal_strlit("start");
    assert("start"@.len() == 5);
    reveal_strlit("chains");
    assert("chains"@.len() == 6);
    reveal_strlit("rule");
    assert("rule"@.len() == 4);
    reveal_strlit("rulePayload");
    assert("rulePayload"@.len() == 11);
    assert("metadata"@[0] == 'm' && "download"@[0] == 'd');
    assert("upload"@[0] == 'u' && "chains"@[0] == 'c');
}

/// The keys differ.
proof fn lemma_setting_keys()
    ensures
        "port"@ != "socks-port"@,
        "port"@ != "redir-port"@,
        "port"@ != "tproxy-port"@,
        "port"@ != "mixed-port"@,
        "port"@ != "allow-lan"@,
        "port"@ != "bind-address"@,
        "port"@ != "mode"@,
        "port"@ != "mode-list"@,
        "port"@ != "log-level"@,
        "port"@ != "ipv6"@,
        "socks-port"@ != "redir-port"@,
        "socks-port"@ != "tproxy-port"@,
        "socks-port"@ != "mixed-port"@,
        "socks-port"@ != "allow-lan"@,
        "socks-port"@ != "bind-address"@,
        "socks-port"@ != "mode"@,
        "socks-port"@ != "mode-list"@,
        "socks-port"@ != "log-level"@,
        "socks-port"@ != "ipv6"@,
        "redir-port"@ != "tproxy-port"@,
        "redir-port"@ != "mixed-port"@,
        "redir-port"@ != "allow-lan"@,
        "redir-port"@ != "bind-address"@,
        "redir-port"@ != "mode"@,
        "redir-port"@ != "mode-list"@,
        "redir-port"@ != "log-level"@,
        "redir-port"@ != "ipv6"@,
        "tproxy-port"@ != "mixed-port"@,
        "tproxy-port"@ != "allow-lan"@,
        "tproxy-port"@ != "bind-address"@,
        "tproxy-port"@ != "mode"@,
        "tproxy-port"@ != "mode-list"@,
        "tproxy-port"@ != "log-level"@,
        "tproxy-port"@ != "ipv6"@,
        "mixed-port"@ != "allow-lan"@,
        "mixed-port"@ != "bind-address"@,
        "mixed-port"@ != "mode"@,
        "mixed-port"@ != "mode-list"@,
        "mixed-port"@ != "log-level"@,
        "mixed-port"@ != "ipv6"@,
        "allow-lan"@ != "bind-address"@,
        "allow-lan"@ != "mode"@,
        "allow-lan"@ != "mode-list"@,
        "allow-lan"@ != "log-level"@,
        "allow-lan"@ != "ipv6"@,
        "bind-address"@ != "mode"@,
        "bind-address"@ != "mode-list"@,
        "bind-address"@ != "log-level"@,
        "bind-address"@ != "ipv6"@,
        "mode"@ != "mode-list"@,
        "mode"@ != "log-level"@,
        "mode"@ != "ipv6"@,
        "mode-list"@ != "log-level"@,
        "mode-list"@ != "ipv6"@,
        "log-level"@ != "ipv6"@,
{
    reveal_strlit("port");
    assert("port"@.len() == 4);
    reveal_strlit("socks-port");
    assert("socks-port"@.len() == 10);
    reveal_strlit("redir-port");
    assert("redir-port"@.len() == 10);
    reveal_strlit("tproxy-port");
    assert("tproxy-port"@.len() == 11);
    reveal_strlit("mixed-port");
    assert("mixed-port"@.len() == 10);
    reveal_strlit("allow-lan");
    assert("allow-lan"@.len() == 9);
    reveal_strlit("bind-address");
    assert("bind-address"@.len() == 12);
    reveal_strlit("mode");
    assert("mode"@.len() == 4);
    reveal_strlit("mode-list");
    assert("mode-list"@.len() == 9);
    reveal_strlit("log-level");
    assert("log-level"@.len() == 9);
    reveal_strlit("ipv6");
    assert("ipv6"@.len() == 4);
    assert("port"@[0] == 'p' && "mode"@[0] == 'm');
    assert("port"@[0] == 'p' && "ipv6"@[0] == 'i');
    assert("socks-port"@[0] == 's' && "redir-port"@[0] == 'r');
    assert("socks-port"@[0] == 's' && "mixed-port"@[0] == 'm');
    assert("redir-port"@[0] == 'r' && "mixed-port"@[0] == 'm');
    assert("allow-lan"@[0] == 'a' && "mode-list"@[0] == 'm');
    assert("allow-lan"@[0] == 'a' && "log-level"@[0] == 'l');
    assert("mode"@[0] == 'm' && "ipv6"@[0] == 'i');
    assert("mode-list"@[0] == 'm' && "log-level"@[0] == 'l');
}

/// The keys differ.
proof fn lemma_traffic_keys()
    ensures
        "up"@ != "down"@,
        "up"@ != "uploadTotal"@,
        "up"@ != "downloadTotal"@,
        "up"@ != "connections"@,
        "down"@ != "uploadTotal"@,
        "down"@ != "downloadTotal"@,
        "down"@ != "connections"@,
        "uploadTotal"@ != "downloadTotal"@,
        "uploadTotal"@ != "connections"@,
        "downloadTotal"@ != "connections"@,
{
    reveal_strlit("up");
    assert("up"@.len() == 2);
    reveal_strlit("down");
    assert("down"@.len() == 4);
    reveal_strlit("uploadTotal");
    assert("uploadTotal"@.len() == 11);
    reveal_strlit("downloadTotal");
    assert("downloadTotal"@.len() == 13);
    reveal_strlit("connections");
    assert("connections"@.len() == 11);
    assert("uploadTotal"@[0] == 'u' && "connections"@[0] == 'c');
}

/// What is shown of a connection: what came from the client is upload and the
/// rest download, and the source and the destination stand each in their place.
/// An address is shown as such, and a name as host.
pub proof fn law_connection_is_shown(c: tracker::ConnView)
    ensures
        ({
            let j = conn_json(c);
            &&& json::entry(j, "id"@) == Some(Json::Text(text::decimal(c.id as nat)))
            &&& json::entry(j, "upload"@) == Some(Json::Number(c.upload as int))
            &&& json::entry(j, "download"@) == Some(Json::Number(c.download as int))
            &&& json::entry(j, "start"@) == Some(Json::Text(calendar::iso_of(c.started_ms)))
            &&& json::entry(j, "chains"@) == Some(Json::List(seq![Json::Text(c.outbound)]))
            &&& json::entry(j, "rule"@) == Some(Json::Text(c.rule))
            &&& json::entry(j, "rulePayload"@) == Some(Json::Text(c.rule_payload))
            &&& json::entry(j, "metadata"@) == Some(metadata_json(c))
        }),
        ({
            let m = metadata_json(c);
            &&& json::entry(m, "network"@) == Some(Json::Text(c.network))
            &&& json::entry(m, "type"@) == Some(Json::Text(c.inbound))
            &&& json::entry(m, "inboundName"@) == Some(Json::Text(c.inbound))
            &&& json::entry(m, "sourceIP"@) == Some(Json::Text(c.source_ip))
            &&& json::entry(m, "sourcePort"@) == Some(
                Json::Text(text::decimal(c.source_port as nat)),
            )
            &&& json::entry(m, "destinationPort"@) == Some(
                Json::Text(text::decimal(c.dest_port as nat)),
            )
            &&& net::ip_value(c.host) is Some ==> json::entry(m, "destinationIP"@) == Some(
                Json::Text(c.host),
            ) && json::entry(m, "host"@) == Some(Json::Text(""@))
            &&& net::ip_value(c.host) is None ==> json::entry(m, "host"@) == Some(
                Json::Text(c.host),
            ) && json::entry(m, "destinationIP"@) == Some(Json::Text(""@))
        }),
{
    lemma_metadata_keys();
    lemma_connection_keys();
}

/// What is shown of the traffic: upload under `up`, download under `down`, and
/// connections in their order.
pub proof fn law_traffic_is_shown(up: u64, down: u64, conns: Seq<(u64, Arc<ConnMeta>)>, i: int)
    requires
        0 <= i < conns.len(),
    ensures
        json::entry(traffic_json(up, down), "up"@) == Some(Json::Number(up as int)),
        json::entry(traffic_json(up, down), "down"@) == Some(Json::Number(down as int)),
        json::entry(traffic_json(up, down), "uploadTotal"@) == Some(Json::Number(up as int)),
        json::entry(traffic_json(up, down), "downloadTotal"@) == Some(Json::Number(down as int)),
        json::entry(connections_json(up, down, conns), "uploadTotal"@) == Some(
            Json::Number(up as int),
        ),
        json::entry(connections_json(up, down, conns), "downloadTotal"@) == Some(
            Json::Number(down as int),
        ),
        json::entry(connections_json(up, down, conns), "connections"@) matches Some(
            Json::List(l),
        ) && l.len() == conns.len() && l[i] == conn_json(conns[i].1@),
{
    lemma_traffic_keys();
}

/// What is shown of the settings: each port under the name of its kind, the mode
/// with those to choose from, and whether others may connect.
pub proof fn law_settings_are_shown(
    inbounds: Seq<InboundPort>,
    mode: Seq<char>,
    mode_list: Seq<String>,
    level: LogLevel,
)
    ensures
        ({
            let j = configs_json(inbounds, mode, mode_list, level);
            &&& json::entry(j, "port"@) == Some(Json::Number(0))
            &&& json::entry(j, "socks-port"@) == Some(Json::Number(0))
            &&& json::entry(j, "redir-port"@) == Some(
                Json::Number(port_of_kind(inbounds, InboundKind::Redir, 0) as int),
            )
            &&& json::entry(j, "tproxy-port"@) == Some(
                Json::Number(port_of_kind(inbounds, InboundKind::TProxy, 0) as int),
            )
            &&& json::entry(j, "mixed-port"@) == Some(
                Json::Number(port_of_kind(inbounds, InboundKind::Mixed, 0) as int),
            )
            &&& json::entry(j, "mode"@) == Some(Json::Text(mode))
            &&& json::entry(j, "mode-list"@) == Some(json::texts(mode_list))
            &&& json::entry(j, "log-level"@) == Some(Json::Text(level_name(level)))
            &&& json::entry(j, "allow-lan"@) == Some(
                Json::Flag(
                    exists|i: int|
                        0 <= i < inbounds.len() && (#[trigger] inbounds[i]).kind
                            != InboundKind::Dns && inbounds[i].kind != InboundKind::Tun && (
                        inbounds[i].listen@ == "0.0.0.0"@ || inbounds[i].listen@ == "::"@
                            || inbounds[i].listen@ == "0"@),
                ),
            )
        }),
{
    lemma_setting_keys();
    let open = exists|i: int| 0 <= i < inbounds.len() && is_open(#[trigger] inbounds[i]);
    if open {
        let i = choose|i: int| 0 <= i < inbounds.len() && is_open(#[trigger] inbounds[i]);
        assert(inbounds[i].kind != InboundKind::Dns);
    }
    if exists|i: int|
        0 <= i < inbounds.len() && (#[trigger] inbounds[i]).kind != InboundKind::Dns
            && inbounds[i].kind != InboundKind::Tun && (inbounds[i].listen@ == "0.0.0.0"@
            || inbounds[i].listen@ == "::"@ || inbounds[i].listen@ == "0"@) {
        let i = choose|i: int|
            0 <= i < inbounds.len() && (#[trigger] inbounds[i]).kind != InboundKind::Dns
                && inbounds[i].kind != InboundKind::Tun && (inbounds[i].listen@ == "0.0.0.0"@
                || inbounds[i].listen@ == "::"@ || inbounds[i].listen@ == "0"@);
        assert(is_open(inbounds[i]));
    }
}

} // verus!
