//! The control API as a whole: from a request to its answer, or to what has to
//! be done before there is one.
use vstd::prelude::*;
use std::sync::Arc;
use crate::app::clash_api::configs;
use crate::app::clash_api::configs::{InboundPort, LogLevel, ModeState};
use crate::app::clash_api::delay;
use crate::app::clash_api::delay::{GroupProbeStep, ProbeStep};
use crate::app::clash_api::history::DelayHistory;
use crate::app::clash_api::http;
use crate::app::clash_api::http::{HttpRequest, HttpResponse};
use crate::app::clash_api::json;
use crate::app::clash_api::json::Json;
use crate::app::clash_api::path;
use crate::app::clash_api::proxies;
use crate::app::clash_api::proxies::SelectStep;
use crate::app::clash_api::routing;
use crate::app::clash_api::routing::{Route, RouteKind};
use crate::app::clash_api::rules;
use crate::app::clash_api::tracker;
use crate::app::clash_api::tracker::{ConnMeta, ConnectionTracker};
use crate::app::clash_api::ui;
use crate::app::clash_api::ui::UiStep;
use crate::app::clash_api::websocket;
use crate::app::outbound_mgr;
use crate::app::outbound_mgr::{OutboundManager, OutboundStatus};
use crate::app::ruleset_registry;
use crate::app::ruleset_registry::RuleSetRegistry;
use crate::config::experimental::ClashApiConfig;
use crate::config::route::{RouteConfig, RuleSetRef, RuleSetType};

verus! {

/// The control API.
pub struct ClashApi {
    pub config: ClashApiConfig,
    pub route_config: RouteConfig,
    pub modes: ModeState,
    pub delay_history: DelayHistory,
    pub inbounds: Vec<InboundPort>,
    pub log_level: LogLevel,
}

/// What the rest of the kernel looks like at the time of a request.
pub struct Surroundings<'a> {
    pub version: &'a str,
    /// Bytes so far.
    pub up: u64,
    pub down: u64,
    /// Bytes of memory in use.
    pub inuse: u64,
    pub outbounds: &'a OutboundManager,
    /// What every outbound reports, by place.
    pub reported: &'a Vec<OutboundStatus>,
    /// The same, by name.
    pub statuses: &'a Vec<OutboundStatus>,
    pub rule_sets: &'a RuleSetRegistry,
}

/// What is sent over a WebSocket.
#[derive(Clone, Copy, Debug, PartialEq, Eq, Structural)]
pub enum Feed {
    Traffic,
    Logs,
    Connections,
    Memory,
}

/// The answer to a request, or what has to be done for it.
pub enum Answer {
    Respond(HttpResponse),
    /// The handshake is to be sent, and then the feed.
    Upgrade { feed: Feed, handshake: String },
    /// The connection is to be closed.
    Close,
    /// The log is to be followed.
    StreamLogs,
    Probe(ProbeStep),
    GroupProbe(GroupProbeStep),
    Select(SelectStep),
    /// A set of rules is to be brought up to date.
    Reload(String),
    Ui(UiStep),
}

/// Whether an answer is a response.
pub open spec fn responds(a: Answer, r: http::ResponseView) -> bool {
    a matches Answer::Respond(x) && x@ == r
}

/// Whether an answer to a WebSocket request is the handshake for a feed; a
/// request without a key gets none.
pub open spec fn upgrades(a: Answer, r: http::RequestView, f: Feed) -> bool {
    match http::header_of(r, "sec-websocket-key"@) {
        Some(k) => a matches Answer::Upgrade { feed, handshake } && feed == f && handshake@
            == websocket::upgrade_text(k),
        None => a is Close,
    }
}

/// Whether a request of a kind has a name in its path that is decoded.
pub open spec fn decodes(k: RouteKind) -> bool {
    ||| k == RouteKind::Group
    ||| k == RouteKind::GroupDelay
    ||| k == RouteKind::Proxy
    ||| k == RouteKind::ProxyDelay
    ||| k == RouteKind::SelectProxy
    ||| k == RouteKind::UpdateRuleProvider
}

/// Whether everything in a request that is decoded can be.
pub open spec fn request_decodable(r: http::RequestView, secret: Seq<char>) -> bool {
    let (kind, name) = routing::route_of(r, secret);
    &&& decodes(kind) ==> path::decodable(vstd::utf8::encode_utf8(name))
    &&& kind == RouteKind::GroupDelay || kind == RouteKind::ProxyDelay ==> delay::probe_decodable(
        routing::query_of(r.path),
    )
    &&& http::header_of(r, "sec-websocket-key"@) matches Some(k) ==> vstd::utf8::encode_utf8(
        k,
    ).len() < 0x1000_0000_0000_0000
}

/// Whether an answer about settings, traffic and fixed things is right.
pub open spec fn answers_plainly(
    api: ClashApi,
    s: Surroundings<'_>,
    kind: RouteKind,
    a: Answer,
) -> bool {
    match kind {
        RouteKind::Preflight => responds(a, http::preflight_reply()),
        RouteKind::Unauthorized => responds(
            a,
            json::json_reply(
                401,
                "Unauthorized"@,
                json::one_text("message"@, "Unauthorized"@),
            ),
        ),
        RouteKind::Version => responds(
            a,
            json::json_reply(200, "OK"@, ui::version_json(s.version@)),
        ),
        RouteKind::GetConfigs => responds(
            a,
            json::json_reply(
                200,
                "OK"@,
                configs::configs_json(
                    api.inbounds@,
                    api.modes.mode@,
                    api.modes.mode_list@,
                    api.log_level,
                ),
            ),
        ),
        RouteKind::Traffic => responds(
            a,
            json::json_reply(200, "OK"@, configs::traffic_json(s.up, s.down)),
        ),
        RouteKind::Memory => responds(
            a,
            json::json_reply(200, "OK"@, configs::memory_json(s.inuse)),
        ),
        RouteKind::Rules => responds(
            a,
            json::json_reply(200, "OK"@, rules::rules_json(api.route_config)),
        ),
        RouteKind::ProxyProviders => responds(
            a,
            json::json_reply(
                200,
                "OK"@,
                Json::Object(json::nothing().insert("providers"@, Json::Object(json::nothing()))),
            ),
        ),
        RouteKind::RuleProviders => responds(
            a,
            json::json_reply(
                200,
                "OK"@,
                Json::Object(
                    json::nothing().insert(
                        "providers"@,
                        Json::Object(
                            rules::providers_json(
                                api.route_config.rule_set@,
                                s.rule_sets@,
                                api.route_config.rule_set@.len() as int,
                            ),
                        ),
                    ),
                ),
            ),
        ),
        RouteKind::Script => responds(
            a,
            json::json_reply(200, "OK"@, json::one_text("code"@, ""@)),
        ),
        RouteKind::Profile => responds(
            a,
            json::json_reply(200, "OK"@, json::one_text("payload"@, ""@)),
        ),
        RouteKind::DnsQuery => responds(
            a,
            json::json_reply(
                200,
                "OK"@,
                Json::Object(json::nothing().insert("Answer"@, Json::List(Seq::empty()))),
            ),
        ),
        RouteKind::PutConfigs | RouteKind::DeleteConnections | RouteKind::Cache
        | RouteKind::ProxyProvider => responds(
            a,
            http::empty_reply(204, "No Content"@),
        ),
        RouteKind::NotFound => responds(a, http::text_reply(404, "Not Found"@, "not found"@)),
        RouteKind::Logs => a is StreamLogs,
        _ => true,
    }
}

/// Whether an answer about outbounds and groups is right.
pub open spec fn answers_proxies(
    api: ClashApi,
    s: Surroundings<'_>,
    kind: RouteKind,
    name: Seq<char>,
    a: Answer,
) -> bool {
    let h = api.delay_history@;
    let slots = s.outbounds.slots();
    let plain = proxies::decoded(name);
    let place = outbound_mgr::slot_of(slots, slots.len() as int, plain);
    let group = proxies::first_named(s.statuses@, plain, 0);
    match kind {
        RouteKind::Proxies => responds(
            a,
            json::json_reply(
                200,
                "OK"@,
                Json::Object(
                    json::nothing().insert(
                        "proxies"@,
                        Json::Object(
                            proxies::proxies_json(h, s.statuses@, s.statuses@.len() as int),
                        ),
                    ),
                ),
            ),
        ),
        RouteKind::Groups => responds(
            a,
            json::json_reply(
                200,
                "OK"@,
                Json::Object(
                    json::nothing().insert(
                        "proxies"@,
                        Json::List(
                            proxies::groups_among(
                                h,
                                slots,
                                s.reported@,
                                s.statuses@,
                                s.statuses@.len() as int,
                            ),
                        ),
                    ),
                ),
            ),
        ),
        RouteKind::Group => responds(
            a,
            if group < s.statuses@.len() && proxies::is_group(s.statuses@[group]) {
                json::json_reply(
                    200,
                    "OK"@,
                    proxies::group_json(h, slots, s.reported@, s.statuses@[group]),
                )
            } else {
                http::text_reply(404, "Not Found"@, "group not found"@)
            },
        ),
        RouteKind::Proxy => responds(
            a,
            if plain == "GLOBAL"@ {
                json::json_reply(200, "OK"@, proxies::global_json(s.statuses@))
            } else if place >= 0 {
                json::json_reply(200, "OK"@, proxies::proxy_json(h, s.reported@[place]))
            } else {
                http::text_reply(404, "Not Found"@, "proxy not found"@)
            },
        ),
        _ => true,
    }
}

/// Whether a request to bring a set of rules up to date leads to this answer.
pub open spec fn reload_step(sets: Seq<RuleSetRef>, name: Seq<char>, a: Answer) -> bool {
    let i = ruleset_registry::first_set(sets, name, 0);
    if i < sets.len() && sets[i].kind == RuleSetType::Remote {
        a matches Answer::Reload(n) && n@ == name
    } else {
        responds(
            a,
            http::text_reply(400, "Bad Request"@, "rule_set is not remote or does not exist"@),
        )
    }
}

impl ClashApi {
    /// The control API with its settings.
    pub fn new(
        config: ClashApiConfig,
        route_config: RouteConfig,
        inbounds: Vec<InboundPort>,
        log_level: LogLevel,
    ) -> (r: Self)
        ensures
            r.config == config,
            r.route_config == route_config,
            r.inbounds == inbounds,
            r.log_level == log_level,
            r.modes.mode@ == config.default_mode@,
            configs::views(r.modes.mode_list@) == configs::modes(
                configs::views(config.mode_list@),
                config.default_mode@,
            ),
            r.delay_history.wf(),
            r.delay_history@.dom() == Set::<Seq<char>>::empty(),
    {
        let modes = ModeState::new(config.default_mode.as_str(), &config.mode_list);
        let delay_history = DelayHistory::default();
        assert(delay_history@.dom() =~= Set::<Seq<char>>::empty());
        ClashApi { config, route_config, modes, delay_history, inbounds, log_level }
    }

    /// Whether everything in a request that is decoded can be.
    pub fn is_request_decodable(&self, r: &HttpRequest) -> (ok: bool)
        ensures
            ok == request_decodable(r@, self.config.secret@),
    {
        let route: Route = routing::route_request(r, self.config.secret.as_str());
        let k: RouteKind = route.kind;
        if k == RouteKind::Group || k == RouteKind::GroupDelay || k == RouteKind::Proxy || k
            == RouteKind::ProxyDelay || k == RouteKind::SelectProxy || k
            == RouteKind::UpdateRuleProvider {
            if !path::is_decodable(route.name.as_str()) {
                return false;
            }
        }
        if k == RouteKind::GroupDelay || k == RouteKind::ProxyDelay {
            let (_, query): (String, String) = routing::split_path(r.path.as_str());
            if !delay::is_probe_decodable(query.as_str()) {
                return false;
            }
        }
        match r.header("sec-websocket-key") {
            Some(key) => (key.as_bytes().len() as u64) < 0x1000_0000_0000_0000,
            None => true,
        }
    }

    fn upgrade(r: &HttpRequest, feed: Feed) -> (a: Answer)
        requires
            http::header_of(r@, "sec-websocket-key"@) matches Some(k) ==> vstd::utf8::encode_utf8(
                k,
            ).len() < 0x1000_0000_0000_0000,
        ensures
            upgrades(a, r@, feed),
    {
        match r.header("sec-websocket-key") {
            Some(key) => Answer::Upgrade { feed, handshake: websocket::ws_upgrade_response(key) },
            None => Answer::Close,
        }
    }

    /// Answers a request. Nothing but the mode and the list of connections
    /// changes.
    pub fn handle_request(
        &mut self,
        r: &HttpRequest,
        s: &Surroundings<'_>,
        conns: &mut ConnectionTracker,
    ) -> (a: Answer)
        requires
            request_decodable(r@, old(self).config.secret@),
            s.reported@.len() == s.outbounds.slots().len(),
            old(conns).wf(),
        ensures
            final(conns).wf(),
            final(self).config == old(self).config,
            final(self).route_config == old(self).route_config,
            final(self).delay_history == old(self).delay_history,
            final(self).inbounds == old(self).inbounds,
            final(self).log_level == old(self).log_level,
            final(self).modes.mode_list == old(self).modes.mode_list,
            ({
                let (kind, name) = routing::route_of(r@, old(self).config.secret@);
                let query = routing::query_of(r@.path);
                &&& kind != RouteKind::DeleteConnection ==> final(conns).conns() == old(conns).conns()
                &&& kind != RouteKind::PatchConfigs ==> final(self).modes.mode@ == old(self).modes.mode@
                &&& answers_plainly(*old(self), *s, kind, a)
                &&& answers_proxies(*old(self), *s, kind, name, a)
                &&& kind == RouteKind::WsTraffic ==> upgrades(a, r@, Feed::Traffic)
                &&& kind == RouteKind::WsLogs ==> upgrades(a, r@, Feed::Logs)
                &&& kind == RouteKind::WsConnections ==> upgrades(a, r@, Feed::Connections)
                &&& kind == RouteKind::WsMemory ==> upgrades(a, r@, Feed::Memory)
                &&& kind == RouteKind::Home ==> responds(
                    a,
                    ui::home_reply(old(self).config.external_ui is Some),
                )
                &&& kind == RouteKind::PatchConfigs ==> (a matches Answer::Respond(x)
                    && configs::patched(
                    old(self).modes,
                    final(self).modes.mode@,
                    r@.body,
                    x@,
                ))
                &&& kind == RouteKind::Connections ==> exists|all: Seq<(u64, Arc<ConnMeta>)>|
                    #[trigger] tracker::is_listing(all, old(conns).conns()) && responds(
                        a,
                        json::json_reply(
                            200,
                            "OK"@,
                            configs::connections_json(s.up, s.down, all),
                        ),
                    )
                &&& kind == RouteKind::DeleteConnection ==> (a matches Answer::Respond(x)
                    && configs::deleted(old(conns).conns(), final(conns).conns(), name, x@))
                &&& kind == RouteKind::ProxyDelay ==> (a matches Answer::Probe(x)
                    && delay::proxy_step(s.outbounds.slots(), name, query, x))
                &&& kind == RouteKind::GroupDelay ==> (a matches Answer::GroupProbe(x)
                    && delay::group_step(s.outbounds.slots(), s.statuses@, name, query, x))
                &&& kind == RouteKind::SelectProxy ==> (a matches Answer::Select(x)
                    && proxies::put_step(s.outbounds.slots(), name, r@.body, x))
                &&& kind == RouteKind::UpdateRuleProvider ==> reload_step(
                    old(self).route_config.rule_set@,
                    proxies::decoded(name),
                    a,
                )
                &&& kind == RouteKind::Ui ==> (a matches Answer::Ui(x) && ui::ui_step(
                    match old(self).config.external_ui {
                        Some(d) => Some(d@),
                        None => None,
                    },
                    name,
                    x,
                ))
            }),
    {
        let route: Route = routing::route_request(r, self.config.secret.as_str());
        let (_, query): (String, String) = routing::split_path(r.path.as_str());
        let name: &str = route.name.as_str();
        match route.kind {
            RouteKind::Preflight => Answer::Respond(http::preflight_response()),
            RouteKind::Unauthorized => Answer::Respond(ui::unauthorized_response()),
            RouteKind::WsTraffic => ClashApi::upgrade(r, Feed::Traffic),
            RouteKind::WsLogs => ClashApi::upgrade(r, Feed::Logs),
            RouteKind::WsConnections => ClashApi::upgrade(r, Feed::Connections),
            RouteKind::WsMemory => ClashApi::upgrade(r, Feed::Memory),
            RouteKind::Home => Answer::Respond(
                ui::redirect_to_ui(self.config.external_ui.is_some()),
            ),
            RouteKind::Version => Answer::Respond(ui::get_version(s.version)),
            RouteKind::GetConfigs => Answer::Respond(
                configs::get_configs(&self.modes, &self.inbounds, self.log_level),
            ),
            RouteKind::PatchConfigs => Answer::Respond(
                self.modes.patch_configs(r.body.as_slice()),
            ),
            RouteKind::PutConfigs => Answer::Respond(http::empty_response(204, "No Content")),
            RouteKind::Traffic => Answer::Respond(configs::get_traffic(s.up, s.down)),
            RouteKind::Logs => Answer::StreamLogs,
            RouteKind::Rules => Answer::Respond(rules::get_rules(&self.route_config)),
            RouteKind::Connections => {
                let all: Vec<(u64, Arc<ConnMeta>)> = conns.snapshot();
                Answer::Respond(configs::get_connections(s.up, s.down, &all))
            },
            RouteKind::DeleteConnections => Answer::Respond(
                http::empty_response(204, "No Content"),
            ),
            RouteKind::Proxies => Answer::Respond(
                proxies::get_proxies(&self.delay_history, s.statuses),
            ),
            RouteKind::ProxyProviders => Answer::Respond(ui::empty_object_response("providers")),
            RouteKind::RuleProviders => Answer::Respond(
                rules::get_rule_providers(&self.route_config.rule_set, s.rule_sets),
            ),
            RouteKind::Script => Answer::Respond(json::message_response(200, "OK", "code", "")),
            RouteKind::Cache => Answer::Respond(http::empty_response(204, "No Content")),
            RouteKind::Profile => Answer::Respond(
                json::message_response(200, "OK", "payload", ""),
            ),
            RouteKind::DnsQuery => Answer::Respond(ui::empty_list_response("Answer")),
            RouteKind::Memory => Answer::Respond(configs::get_memory(s.inuse)),
            RouteKind::Groups => Answer::Respond(
                proxies::get_groups(&self.delay_history, s.outbounds, s.reported, s.statuses),
            ),
            RouteKind::GroupDelay => Answer::GroupProbe(
                delay::get_group_delay(s.outbounds, s.statuses, name, query.as_str()),
            ),
            RouteKind::Group => Answer::Respond(
                proxies::get_group(
                    &self.delay_history,
                    s.outbounds,
                    s.reported,
                    s.statuses,
                    name,
                ),
            ),
            RouteKind::SelectProxy => Answer::Select(
                proxies::put_proxy(s.outbounds, name, r.body.as_slice()),
            ),
            RouteKind::DeleteConnection => Answer::Respond(configs::delete_connection(conns, name)),
            RouteKind::ProxyDelay => Answer::Probe(
                delay::get_proxy_delay(s.outbounds, name, query.as_str()),
            ),
            RouteKind::Proxy => Answer::Respond(
                proxies::get_proxy(
                    &self.delay_history,
                    s.outbounds,
                    s.reported,
                    s.statuses,
                    name,
                ),
            ),
            RouteKind::ProxyProvider => Answer::Respond(http::empty_response(204, "No Content")),
            RouteKind::UpdateRuleProvider => {
                let set: String = path::percent_decode(name);
                match rules::update_rule_provider(&self.route_config.rule_set, set.as_str()) {
                    Some(refusal) => Answer::Respond(refusal),
                    None => Answer::Reload(set),
                }
            },
            RouteKind::Ui => Answer::Ui(
                ui::serve_ui(
                    match &self.config.external_ui {
                        Some(d) => Some(d.as_str()),
                        None => None,
                    },
                    name,
                ),
            ),
            RouteKind::NotFound => Answer::Respond(
                http::text_response(404, "Not Found", "not found"),
            ),
        }
    }
}

} // verus!
