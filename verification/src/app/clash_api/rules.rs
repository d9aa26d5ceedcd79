//! Rules and sets of rules, as the control API shows them.
use vstd::prelude::*;
use crate::app::clash_api::calendar;
use crate::app::clash_api::http;
use crate::app::clash_api::http::HttpResponse;
use crate::app::clash_api::json;
use crate::app::clash_api::json::Json;
use crate::app::ruleset_registry;
use crate::app::ruleset_registry::{RuleSetMeta, RuleSetRegistry};
use crate::config::route::{NetworkFilter, RouteConfig, RouteRuleConfig, RuleSetRef, RuleSetType};
use crate::text;

verus! {

/// Texts with commas between them.
pub open spec fn with_commas(v: Seq<String>) -> Seq<char> {
    text::joined(v.map_values(|s: String| s@), ',')
}

fn join_commas(v: &Vec<String>) -> (r: String)
    ensures
        r@ == with_commas(v@),
{
    let mut all: Vec<Vec<char>> = Vec::new();
    let mut i: usize = 0;
    while i < v.len()
        invariant
            i <= v@.len(),
            all@.len() == i,
            forall|k: int| 0 <= k < i ==> (#[trigger] all@[k])@ == v@[k]@,
        decreases v@.len() - i,
    {
        all.push(text::chars_of(v[i].as_str()));
        i = i + 1;
    }
    assert(all@.map_values(|c: Vec<char>| c@) =~= v@.map_values(|s: String| s@));
    text::string_of(text::join(&all, ',').as_slice())
}

/// What a rule goes by: the first of its conditions, in this order.
pub open spec fn rule_kind(r: RouteRuleConfig) -> (Seq<char>, Seq<char>) {
    if r.ruleset@.len() > 0 {
        ("rule-set"@, with_commas(r.ruleset@))
    } else if r.domain@.len() > 0 {
        ("DOMAIN"@, with_commas(r.domain@))
    } else if r.domain_suffix@.len() > 0 {
        ("DOMAIN-SUFFIX"@, with_commas(r.domain_suffix@))
    } else if r.domain_keyword@.len() > 0 {
        ("DOMAIN-KEYWORD"@, with_commas(r.domain_keyword@))
    } else if r.ip_cidr@.len() > 0 {
        ("IP-CIDR"@, with_commas(r.ip_cidr@))
    } else if r.network is Some {
        (
            "NETWORK"@,
            match r.network->0 {
                NetworkFilter::Tcp => "tcp"@,
                NetworkFilter::Udp => "udp"@,
            },
        )
    } else if r.protocol@.len() > 0 {
        ("PROTOCOL"@, with_commas(r.protocol@))
    } else if r.inbound@.len() > 0 {
        ("IN-NAME"@, with_commas(r.inbound@))
    } else if r.sniff {
        ("SNIFF"@, ""@)
    } else {
        ("MATCH"@, ""@)
    }
}

/// A rule as the control API shows it.
pub open spec fn shown(kind: Seq<char>, payload: Seq<char>, proxy: Seq<char>) -> Json {
    Json::Object(
        json::nothing().insert("type"@, Json::Text(kind)).insert(
            "payload"@,
            Json::Text(payload),
        ).insert("proxy"@, Json::Text(proxy)).insert("size"@, Json::Number(-1)),
    )
}

/// A rule as the control API shows it.
pub open spec fn rule_json(r: RouteRuleConfig) -> Json {
    shown(
        rule_kind(r).0,
        rule_kind(r).1,
        if r.hijack_dns {
            "dns-out"@
        } else {
            r.outbound@
        },
    )
}

fn show(kind: &str, payload: &str, proxy: &str) -> (r: serde_json::Value)
    ensures
        json::json(r) == shown(kind@, payload@, proxy@),
{
    let mut m = json::no_entries();
    json::put_entry(&mut m, "type", json::json_text(kind));
    json::put_entry(&mut m, "payload", json::json_text(payload));
    json::put_entry(&mut m, "proxy", json::json_text(proxy));
    json::put_entry(&mut m, "size", json::json_signed(-1));
    json::json_object(m)
}

fn kind_of_rule(r: &RouteRuleConfig) -> (k: (&'static str, String))
    ensures
        (k.0@, k.1@) == rule_kind(*r),
{
    if r.ruleset.len() > 0 {
        ("rule-set", join_commas(&r.ruleset))
    } else if r.domain.len() > 0 {
        ("DOMAIN", join_commas(&r.domain))
    } else if r.domain_suffix.len() > 0 {
        ("DOMAIN-SUFFIX", join_commas(&r.domain_suffix))
    } else if r.domain_keyword.len() > 0 {
        ("DOMAIN-KEYWORD", join_commas(&r.domain_keyword))
    } else if r.ip_cidr.len() > 0 {
        ("IP-CIDR", join_commas(&r.ip_cidr))
    } else if let Some(n) = r.network {
        (
            "NETWORK",
            match n {
                NetworkFilter::Tcp => "tcp".to_owned(),
                NetworkFilter::Udp => "udp".to_owned(),
            },
        )
    } else if r.protocol.len() > 0 {
        ("PROTOCOL", join_commas(&r.protocol))
    } else if r.inbound.len() > 0 {
        ("IN-NAME", join_commas(&r.inbound))
    } else if r.sniff {
        ("SNIFF", "".to_owned())
    } else {
        ("MATCH", "".to_owned())
    }
}

/// All rules in order, and behind them what happens if none matches.
pub open spec fn rules_json(c: RouteConfig) -> Json {
    Json::Object(
        json::nothing().insert(
            "rules"@,
            Json::List(
                c.rules@.map_values(|r: RouteRuleConfig| rule_json(r)).push(
                    shown("MATCH"@, ""@, c.final_outbound@),
                ),
            ),
        ),
    )
}

/// All rules.
pub fn get_rules(c: &RouteConfig) -> (r: HttpResponse)
    ensures
        r@ == json::json_reply(200, "OK"@, rules_json(*c)),
{
    let mut list: Vec<serde_json::Value> = Vec::new();
    let mut i: usize = 0;
    while i < c.rules.len()
        invariant
            i <= c.rules@.len(),
            list@.len() == i,
            forall|k: int| 0 <= k < i ==> json::json(#[trigger] list@[k]) == rule_json(c.rules@[k]),
        decreases c.rules@.len() - i,
    {
        let rule: &RouteRuleConfig = &c.rules[i];
        let (kind, payload): (&'static str, String) = kind_of_rule(rule);
        let proxy: &str = if rule.hijack_dns {
            "dns-out"
        } else {
            rule.outbound.as_str()
        };
        list.push(show(kind, payload.as_str(), proxy));
        i = i + 1;
    }
    list.push(show("MATCH", "", c.final_outbound.as_str()));
    assert(json::held(list@) =~= c.rules@.map_values(|r: RouteRuleConfig| rule_json(r)).push(
        shown("MATCH"@, ""@, c.final_outbound@),
    ));
    let mut m = json::no_entries();
    json::put_entry(&mut m, "rules", json::json_list(list));
    json::json_response(&json::json_object(m))
}

// Sets of rules

/// A set of rules as the control API shows it.
pub open spec fn provider_json(s: RuleSetRef, meta: Map<Seq<char>, RuleSetMeta>) -> Json {
    let known = meta.contains_key(s.tag@);
    Json::Object(
        json::nothing().insert("behavior"@, Json::Text("domain"@)).insert(
            "format"@,
            Json::Text("binary"@),
        ).insert("name"@, Json::Text(s.tag@)).insert(
            "ruleCount"@,
            Json::Number(
                if known {
                    meta[s.tag@].rule_count as int
                } else {
                    0
                },
            ),
        ).insert("type"@, Json::Text("Rule"@)).insert(
            "updatedAt"@,
            Json::Text(
                if known {
                    calendar::iso_of(meta[s.tag@].updated_at_ms)
                } else {
                    ""@
                },
            ),
        ).insert(
            "vehicleType"@,
            Json::Text(
                match s.kind {
                    RuleSetType::Local => "File"@,
                    RuleSetType::Remote => "HTTP"@,
                },
            ),
        ),
    )
}

/// The first `n` sets of rules, by tag.
pub open spec fn providers_json(
    sets: Seq<RuleSetRef>,
    meta: Map<Seq<char>, RuleSetMeta>,
    n: int,
) -> Map<Seq<char>, Json>
    decreases n,
{
    if n <= 0 {
        json::nothing()
    } else {
        providers_json(sets, meta, n - 1).insert(
            sets[n - 1].tag@,
            provider_json(sets[n - 1], meta),
        )
    }
}

fn provider_value(s: &RuleSetRef, known: Option<RuleSetMeta>) -> (r: serde_json::Value)
    ensures
        forall|meta: Map<Seq<char>, RuleSetMeta>|
            (match known {
                Some(k) => meta.contains_key(s.tag@) && meta[s.tag@] == k,
                None => !meta.contains_key(s.tag@),
            }) ==> json::json(r) == #[trigger] provider_json(*s, meta),
{
    let (count, updated): (u64, String) = match known {
        Some(k) => (k.rule_count as u64, calendar::ms_to_iso(k.updated_at_ms)),
        None => (0, "".to_owned()),
    };
    let vehicle: &str = match s.kind {
        RuleSetType::Local => "File",
        RuleSetType::Remote => "HTTP",
    };
    let mut m = json::no_entries();
    json::put_entry(&mut m, "behavior", json::json_text("domain"));
    json::put_entry(&mut m, "format", json::json_text("binary"));
    json::put_entry(&mut m, "name", json::json_text(s.tag.as_str()));
    json::put_entry(&mut m, "ruleCount", json::json_count(count));
    json::put_entry(&mut m, "type", json::json_text("Rule"));
    json::put_entry(&mut m, "updatedAt", json::json_text(updated.as_str()));
    json::put_entry(&mut m, "vehicleType", json::json_text(vehicle));
    json::json_object(m)
}

/// All sets of rules, by tag.
pub fn get_rule_providers(sets: &Vec<RuleSetRef>, reg: &RuleSetRegistry) -> (r: HttpResponse)
    ensures
        r@ == json::json_reply(
            200,
            "OK"@,
            Json::Object(
                json::nothing().insert(
                    "providers"@,
                    Json::Object(providers_json(sets@, reg@, sets@.len() as int)),
                ),
            ),
        ),
{
    let mut all = json::no_entries();
    let mut i: usize = 0;
    while i < sets.len()
        invariant
            i <= sets@.len(),
            json::entries(all) == providers_json(sets@, reg@, i as int),
        decreases sets@.len() - i,
    {
        let s: &RuleSetRef = &sets[i];
        let v = provider_value(s, reg.lookup(s.tag.as_str()));
        assert(json::json(v) == provider_json(*s, reg@));
        json::put_entry(&mut all, s.tag.as_str(), v);
        i = i + 1;
    }
    let mut m = json::no_entries();
    json::put_entry(&mut m, "providers", json::json_object(all));
    json::json_response(&json::json_object(m))
}

/// Whether a set of rules may be brought up to date; if not, the response says
/// so.
pub fn update_rule_provider(sets: &Vec<RuleSetRef>, name: &str) -> (r: Option<HttpResponse>)
    ensures
        ({
            let i = ruleset_registry::first_set(sets@, name@, 0);
            if i < sets@.len() && sets@[i].kind == RuleSetType::Remote {
                r is None
            } else {
                r matches Some(x) && x@ == http::text_reply(
                    400,
                    "Bad Request"@,
                    "rule_set is not remote or does not exist"@,
                )
            }
        }),
{
    if let Some(i) = ruleset_registry::find_rule_set(sets, name) {
        if sets[i].kind == RuleSetType::Remote {
            return None;
        }
    }
    Some(http::text_response(400, "Bad Request", "rule_set is not remote or does not exist"))
}

/// The response once a set of rules was brought up to date, or could not be.
pub fn after_update(error: Option<String>) -> (r: HttpResponse)
    ensures
        r@ == (match error {
            None => http::empty_reply(204, "No Content"@),
            Some(e) => http::text_reply(500, "Internal Server Error"@, e@),
        }),
{
    match error {
        None => http::empty_response(204, "No Content"),
        Some(e) => http::text_response(500, "Internal Server Error", e.as_str()),
    }
}

/// The keys differ.
proof fn lemma_rule_keys()
    ensures
        "type"@ != "payload"@,
        "type"@ != "proxy"@,
        "type"@ != "size"@,
        "payload"@ != "proxy"@,
        "payload"@ != "size"@,
        "proxy"@ != "size"@,
{
    reveal_strlit("type");
    assert("type"@.len() == 4);
    reveal_strlit("payload");
    assert("payload"@.len() == 7);
    reveal_strlit("proxy");
    assert("proxy"@.len() == 5);
    reveal_strlit("size");
    assert("size"@.len() == 4);
    assert("type"@[0] == 't' && "size"@[0] == 's');
}

/// The keys differ.
proof fn lemma_provider_keys()
    ensures
        "behavior"@ != "format"@,
        "behavior"@ != "name"@,
        "behavior"@ != "ruleCount"@,
        "behavior"@ != "type"@,
        "behavior"@ != "updatedAt"@,
        "behavior"@ != "vehicleType"@,
        "format"@ != "name"@,
        "format"@ != "ruleCount"@,
        "format"@ != "type"@,
        "format"@ != "updatedAt"@,
        "format"@ != "vehicleType"@,
        "name"@ != "ruleCount"@,
        "name"@ != "type"@,
        "name"@ != "updatedAt"@,
        "name"@ != "vehicleType"@,
        "ruleCount"@ != "type"@,
        "ruleCount"@ != "updatedAt"@,
        "ruleCount"@ != "vehicleType"@,
        "type"@ != "updatedAt"@,
        "type"@ != "vehicleType"@,
        "updatedAt"@ != "vehicleType"@,
{
    reveal_strlit("behavior");
    assert("behavior"@.len() == 8);
    reveal_strlit("format");
    assert("format"@.len() == 6);
    reveal_strlit("name");
    assert("name"@.len() == 4);
    reveal_strlit("ruleCount");
    assert("ruleCount"@.len() == 9);
    reveal_strlit("type");
    assert("type"@.len() == 4);
    reveal_strlit("updatedAt");
    assert("updatedAt"@.len() == 9);
    reveal_strlit("vehicleType");
    assert("vehicleType"@.len() == 11);
    assert("name"@[0] == 'n' && "type"@[0] == 't');
    assert("ruleCount"@[0] == 'r' && "updatedAt"@[0] == 'u');
}

/// What a rule is shown as: a set of rules comes before all other conditions, a
/// domain before a suffix, that before a keyword, and so on down to a rule
/// without conditions.
pub proof fn law_first_condition_is_shown(r: RouteRuleConfig)
    ensures
        ({
            let name = r.domain@.len() == 0 && r.domain_suffix@.len() == 0
                && r.domain_keyword@.len() == 0;
            let kind = json::entry(rule_json(r), "type"@);
            let payload = json::entry(rule_json(r), "payload"@);
            &&& r.ruleset@.len() > 0 ==> kind == Some(Json::Text("rule-set"@)) && payload == Some(
                Json::Text(with_commas(r.ruleset@)),
            )
            &&& r.ruleset@.len() == 0 ==> {
                &&& r.domain@.len() > 0 ==> kind == Some(Json::Text("DOMAIN"@)) && payload == Some(
                    Json::Text(with_commas(r.domain@)),
                )
                &&& r.domain@.len() == 0 && r.domain_suffix@.len() > 0 ==> kind == Some(
                    Json::Text("DOMAIN-SUFFIX"@),
                ) && payload == Some(Json::Text(with_commas(r.domain_suffix@)))
                &&& r.domain@.len() == 0 && r.domain_suffix@.len() == 0 && r.domain_keyword@.len()
                    > 0 ==> kind == Some(Json::Text("DOMAIN-KEYWORD"@)) && payload == Some(
                    Json::Text(with_commas(r.domain_keyword@)),
                )
                &&& name && r.ip_cidr@.len() > 0 ==> kind == Some(Json::Text("IP-CIDR"@))
                    && payload == Some(Json::Text(with_commas(r.ip_cidr@)))
                &&& name && r.ip_cidr@.len() == 0 ==> {
                    &&& r.network == Some(NetworkFilter::Tcp) ==> kind == Some(
                        Json::Text("NETWORK"@),
                    ) && payload == Some(Json::Text("tcp"@))
                    &&& r.network == Some(NetworkFilter::Udp) ==> kind == Some(
                        Json::Text("NETWORK"@),
                    ) && payload == Some(Json::Text("udp"@))
                    &&& r.network is None && r.protocol@.len() > 0 ==> kind == Some(
                        Json::Text("PROTOCOL"@),
                    ) && payload == Some(Json::Text(with_commas(r.protocol@)))
                    &&& r.network is None && r.protocol@.len() == 0 && r.inbound@.len() > 0 ==> kind
                        == Some(Json::Text("IN-NAME"@)) && payload == Some(
                        Json::Text(with_commas(r.inbound@)),
                    )
                    &&& r.network is None && r.protocol@.len() == 0 && r.inbound@.len() == 0
                        && r.sniff ==> kind == Some(Json::Text("SNIFF"@))
                    &&& r.network is None && r.protocol@.len() == 0 && r.inbound@.len() == 0
                        && !r.sniff ==> kind == Some(Json::Text("MATCH"@))
                }
            }
            &&& json::entry(rule_json(r), "proxy"@) == Some(
                Json::Text(
                    if r.hijack_dns {
                        "dns-out"@
                    } else {
                        r.outbound@
                    },
                ),
            )
        }),
{
    lemma_rule_keys();
}

/// What is shown of a set of rules: how many rules it has and since when, if that
/// is known, and whether it comes from a file or over HTTP.
pub proof fn law_rule_set_is_shown(s: RuleSetRef, meta: Map<Seq<char>, RuleSetMeta>)
    ensures
        ({
            let j = provider_json(s, meta);
            &&& json::entry(j, "name"@) == Some(Json::Text(s.tag@))
            &&& meta.contains_key(s.tag@) ==> json::entry(j, "ruleCount"@) == Some(
                Json::Number(meta[s.tag@].rule_count as int),
            ) && json::entry(j, "updatedAt"@) == Some(
                Json::Text(calendar::iso_of(meta[s.tag@].updated_at_ms)),
            )
            &&& !meta.contains_key(s.tag@) ==> json::entry(j, "ruleCount"@) == Some(
                Json::Number(0),
            ) && json::entry(j, "updatedAt"@) == Some(Json::Text(""@))
            &&& s.kind == RuleSetType::Local ==> json::entry(j, "vehicleType"@) == Some(
                Json::Text("File"@),
            )
            &&& s.kind == RuleSetType::Remote ==> json::entry(j, "vehicleType"@) == Some(
                Json::Text("HTTP"@),
            )
        }),
{
    lemma_provider_keys();
}

proof fn lemma_providers(
    sets: Seq<RuleSetRef>,
    meta: Map<Seq<char>, RuleSetMeta>,
    n: int,
    k: int,
)
    requires
        0 <= k < n <= sets.len(),
        forall|j: int| k < j < n ==> (#[trigger] sets[j]).tag@ != sets[k].tag@,
    ensures
        providers_json(sets, meta, n).contains_key(sets[k].tag@),
        providers_json(sets, meta, n)[sets[k].tag@] == provider_json(sets[k], meta),
    decreases n,
{
    if n - 1 > k {
        assert(sets[n - 1].tag@ != sets[k].tag@);
        lemma_providers(sets, meta, n - 1, k);
    }
}

/// Every set of rules is shown under its tag.
pub proof fn law_every_rule_set_is_shown(
    sets: Seq<RuleSetRef>,
    meta: Map<Seq<char>, RuleSetMeta>,
    k: int,
)
    requires
        0 <= k < sets.len(),
        forall|j: int| k < j < sets.len() ==> (#[trigger] sets[j]).tag@ != sets[k].tag@,
    ensures
        json::entry(
            Json::Object(providers_json(sets, meta, sets.len() as int)),
            sets[k].tag@,
        ) == Some(provider_json(sets[k], meta)),
{
    lemma_providers(sets, meta, sets.len() as int, k);
}

/// All rules are shown in their order, and behind them what happens if none
/// matches.
pub proof fn law_rules_are_shown_in_order(c: RouteConfig)
    ensures
        json::entry(rules_json(c), "rules"@) matches Some(Json::List(l)) && l.len()
            == c.rules@.len() + 1 && (forall|i: int|
            0 <= i < c.rules@.len() ==> #[trigger] l[i] == rule_json(c.rules@[i])) && json::entry(
            l.last(),
            "type"@,
        ) == Some(Json::Text("MATCH"@)) && json::entry(l.last(), "proxy"@) == Some(
            Json::Text(c.final_outbound@),
        ),
{
    lemma_rule_keys();
}

} // verus!
