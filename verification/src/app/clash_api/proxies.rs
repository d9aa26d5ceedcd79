//! Outbounds, groups and delays, as the control API shows them.
use vstd::prelude::*;
use crate::app::clash_api::calendar;
use crate::app::clash_api::configs;
use crate::app::clash_api::history::{DelayHistory, DelayRecord};
use crate::app::clash_api::http;
use crate::app::clash_api::http::HttpResponse;
use crate::app::clash_api::json;
use crate::app::clash_api::json::Json;
use crate::app::clash_api::path;
use crate::app::outbound_mgr;
use crate::app::outbound_mgr::{OutboundManager, OutboundSlot, OutboundStatus};
use crate::text;

verus! {

/// The last delay of an outbound, in a list of at most one.
pub open spec fn history_json(h: Map<Seq<char>, DelayRecord>, tag: Seq<char>) -> Json {
    if h.contains_key(tag) {
        Json::List(
            seq![
                Json::Object(
                    json::nothing().insert(
                        "time"@,
                        Json::Text(calendar::iso_of(h[tag].time_ms)),
                    ).insert("delay"@, Json::Number(h[tag].delay as int)).insert(
                        "meanDelay"@,
                        Json::Number(h[tag].delay as int),
                    ),
                ),
            ],
        )
    } else {
        Json::List(Seq::empty())
    }
}

fn history_value(h: &DelayHistory, tag: &str) -> (r: serde_json::Value)
    ensures
        json::json(r) == history_json(h@, tag@),
{
    let mut list: Vec<serde_json::Value> = Vec::new();
    match h.load(tag) {
        Some(d) => {
            let mut m = json::no_entries();
            json::put_entry(
                &mut m,
                "time",
                json::json_text(calendar::ms_to_iso(d.time_ms).as_str()),
            );
            json::put_entry(&mut m, "delay", json::json_count(d.delay));
            json::put_entry(&mut m, "meanDelay", json::json_count(d.delay));
            let ghost e = Json::Object(json::entries(m));
            list.push(json::json_object(m));
            assert(json::held(list@) =~= seq![e]);
        },
        None => {
            assert(json::held(list@) =~= Seq::<Json>::empty());
        },
    }
    json::json_list(list)
}

/// An outbound: kind, name and last delay.
pub open spec fn outline(
    h: Map<Seq<char>, DelayRecord>,
    kind: Seq<char>,
    name: Seq<char>,
) -> Map<Seq<char>, Json> {
    json::nothing().insert("type"@, Json::Text(kind)).insert("name"@, Json::Text(name)).insert(
        "udp"@,
        Json::Flag(true),
    ).insert("history"@, history_json(h, name))
}

fn outline_of(h: &DelayHistory, kind: &str, name: &str) -> (r: serde_json::Map<
    String,
    serde_json::Value,
>)
    ensures
        json::entries(r) == outline(h@, kind@, name@),
{
    let mut m = json::no_entries();
    json::put_entry(&mut m, "type", json::json_text(kind));
    json::put_entry(&mut m, "name", json::json_text(name));
    json::put_entry(&mut m, "udp", json::json_flag(true));
    json::put_entry(&mut m, "history", history_value(h, name));
    m
}

// Groups

/// Whether an outbound reports that it is a group.
pub open spec fn is_group(s: OutboundStatus) -> bool {
    s.kind_name@ == "Selector"@ || s.kind_name@ == "URLTest"@ || s.kind_name@ == "UrlTest"@
}

fn reports_group(s: &OutboundStatus) -> (r: bool)
    ensures
        r == is_group(*s),
{
    let k: &str = s.kind_name.as_str();
    text::same_text(k, "Selector") || text::same_text(k, "URLTest") || text::same_text(k, "UrlTest")
}

/// The kind that the outbound of a tag reports.
pub open spec fn member_kind(
    slots: Seq<OutboundSlot>,
    reported: Seq<OutboundStatus>,
    tag: Seq<char>,
) -> Seq<char> {
    let i = outbound_mgr::slot_of(slots, slots.len() as int, tag);
    if i >= 0 {
        reported[i].kind_name@
    } else {
        "Unknown"@
    }
}

/// A group with its members.
pub open spec fn group_json(
    h: Map<Seq<char>, DelayRecord>,
    slots: Seq<OutboundSlot>,
    reported: Seq<OutboundStatus>,
    s: OutboundStatus,
) -> Json {
    let base = outline(h, s.kind_name@, s.name@).insert(
        "all"@,
        Json::List(
            s.all@.map_values(
                |t: String| Json::Object(outline(h, member_kind(slots, reported, t@), t@)),
            ),
        ),
    );
    Json::Object(
        match s.now {
            Some(n) => base.insert("now"@, Json::Text(n@)),
            None => base,
        },
    )
}

/// A group with its members.
pub fn build_group_entry(
    h: &DelayHistory,
    mgr: &OutboundManager,
    reported: &Vec<OutboundStatus>,
    s: &OutboundStatus,
) -> (r: serde_json::Value)
    requires
        reported@.len() == mgr.slots().len(),
    ensures
        json::json(r) == group_json(h@, mgr.slots(), reported@, *s),
{
    let mut members: Vec<serde_json::Value> = Vec::new();
    let mut i: usize = 0;
    while i < s.all.len()
        invariant
            i <= s.all@.len(),
            reported@.len() == mgr.slots().len(),
            members@.len() == i,
            forall|k: int|
                0 <= k < i ==> json::json(#[trigger] members@[k]) == Json::Object(
                    outline(h@, member_kind(mgr.slots(), reported@, s.all@[k]@), s.all@[k]@),
                ),
        decreases s.all@.len() - i,
    {
        let tag: &str = s.all[i].as_str();
        let kind: &str = match mgr.status(tag, reported) {
            Some(m) => m.kind_name.as_str(),
            None => "Unknown",
        };
        members.push(json::json_object(outline_of(h, kind, tag)));
        i = i + 1;
    }
    assert(json::held(members@) =~= s.all@.map_values(
        |t: String| Json::Object(outline(h@, member_kind(mgr.slots(), reported@, t@), t@)),
    ));
    let mut m = outline_of(h, s.kind_name.as_str(), s.name.as_str());
    json::put_entry(&mut m, "all", json::json_list(members));
    if let Some(n) = &s.now {
        json::put_entry(&mut m, "now", json::json_text(n.as_str()));
    }
    json::json_object(m)
}

/// The groups among the first `n` statuses.
pub open spec fn groups_among(
    h: Map<Seq<char>, DelayRecord>,
    slots: Seq<OutboundSlot>,
    reported: Seq<OutboundStatus>,
    statuses: Seq<OutboundStatus>,
    n: int,
) -> Seq<Json>
    decreases n,
{
    if n <= 0 {
        Seq::empty()
    } else if is_group(statuses[n - 1]) {
        groups_among(h, slots, reported, statuses, n - 1).push(
            group_json(h, slots, reported, statuses[n - 1]),
        )
    } else {
        groups_among(h, slots, reported, statuses, n - 1)
    }
}

/// All groups, in the order of `statuses`.
pub fn get_groups(
    h: &DelayHistory,
    mgr: &OutboundManager,
    reported: &Vec<OutboundStatus>,
    statuses: &Vec<OutboundStatus>,
) -> (r: HttpResponse)
    requires
        reported@.len() == mgr.slots().len(),
    ensures
        r@ == json::json_reply(
            200,
            "OK"@,
            Json::Object(
                json::nothing().insert(
                    "proxies"@,
                    Json::List(
                        groups_among(
                            h@,
                            mgr.slots(),
                            reported@,
                            statuses@,
                            statuses@.len() as int,
                        ),
                    ),
                ),
            ),
        ),
{
    let mut list: Vec<serde_json::Value> = Vec::new();
    let mut i: usize = 0;
    assert(json::held(list@) =~= Seq::<Json>::empty());
    while i < statuses.len()
        invariant
            i <= statuses@.len(),
            reported@.len() == mgr.slots().len(),
            json::held(list@) == groups_among(h@, mgr.slots(), reported@, statuses@, i as int),
        decreases statuses@.len() - i,
    {
        if reports_group(&statuses[i]) {
            let ghost before = json::held(list@);
            let v = build_group_entry(h, mgr, reported, &statuses[i]);
            let ghost j = json::json(v);
            list.push(v);
            assert(json::held(list@) =~= before.push(j));
        }
        i = i + 1;
    }
    let mut m = json::no_entries();
    json::put_entry(&mut m, "proxies", json::json_list(list));
    json::json_response(&json::json_object(m))
}

/// The first status of a name, from `i` on, or the number of statuses.
pub open spec fn first_named(statuses: Seq<OutboundStatus>, name: Seq<char>, i: int) -> int
    decreases statuses.len() - i,
{
    if i < 0 || i >= statuses.len() {
        statuses.len() as int
    } else if statuses[i].name@ == name {
        i
    } else {
        first_named(statuses, name, i + 1)
    }
}

pub(crate) fn find_status(statuses: &Vec<OutboundStatus>, name: &str) -> (r: Option<usize>)
    ensures
        match r {
            Some(i) => i < statuses@.len() && i == first_named(statuses@, name@, 0),
            None => first_named(statuses@, name@, 0) == statuses@.len(),
        },
{
    let mut i: usize = 0;
    while i < statuses.len()
        invariant
            i <= statuses@.len(),
            first_named(statuses@, name@, 0) == first_named(statuses@, name@, i as int),
        decreases statuses@.len() - i,
    {
        if text::same_text(statuses[i].name.as_str(), name) {
            return Some(i);
        }
        i = i + 1;
    }
    None
}

/// The name that an escaped text stands for.
pub open spec fn decoded(name: Seq<char>) -> Seq<char> {
    text::lossy_utf8(path::unescaped(vstd::utf8::encode_utf8(name)))
}

/// One group.
pub fn get_group(
    h: &DelayHistory,
    mgr: &OutboundManager,
    reported: &Vec<OutboundStatus>,
    statuses: &Vec<OutboundStatus>,
    encoded_name: &str,
) -> (r: HttpResponse)
    requires
        reported@.len() == mgr.slots().len(),
        path::decodable(vstd::utf8::encode_utf8(encoded_name@)),
    ensures
        ({
            let i = first_named(statuses@, decoded(encoded_name@), 0);
            r@ == (if i < statuses@.len() && is_group(statuses@[i]) {
                json::json_reply(
                    200,
                    "OK"@,
                    group_json(h@, mgr.slots(), reported@, statuses@[i]),
                )
            } else {
                http::text_reply(404, "Not Found"@, "group not found"@)
            })
        }),
{
    let name: String = path::percent_decode(encoded_name);
    if let Some(i) = find_status(statuses, name.as_str()) {
        if reports_group(&statuses[i]) {
            let v = build_group_entry(h, mgr, reported, &statuses[i]);
            return json::json_response(&v);
        }
    }
    http::text_response(404, "Not Found", "group not found")
}

// Outbounds

/// The names among the first `n` statuses that are no direct or blocking
/// outbounds.
pub open spec fn proxy_names(statuses: Seq<OutboundStatus>, n: int) -> Seq<Seq<char>>
    decreases n,
{
    if n <= 0 {
        Seq::empty()
    } else if statuses[n - 1].kind_name@ != "Direct"@ && statuses[n - 1].kind_name@ != "Block"@ {
        proxy_names(statuses, n - 1).push(statuses[n - 1].name@)
    } else {
        proxy_names(statuses, n - 1)
    }
}

/// The group of all outbounds.
pub open spec fn global_json(statuses: Seq<OutboundStatus>) -> Json {
    let all = proxy_names(statuses, statuses.len() as int);
    Json::Object(
        json::nothing().insert("type"@, Json::Text("Selector"@)).insert(
            "name"@,
            Json::Text("GLOBAL"@),
        ).insert("udp"@, Json::Flag(true)).insert("history"@, Json::List(Seq::empty())).insert(
            "all"@,
            Json::List(all.map_values(|t: Seq<char>| Json::Text(t))),
        ).insert(
            "now"@,
            Json::Text(
                if all.len() > 0 {
                    all[0]
                } else {
                    Seq::empty()
                },
            ),
        ),
    )
}

fn global_value(statuses: &Vec<OutboundStatus>) -> (r: serde_json::Value)
    ensures
        json::json(r) == global_json(statuses@),
{
    let mut all: Vec<String> = Vec::new();
    let mut i: usize = 0;
    assert(configs::views(all@) =~= proxy_names(statuses@, 0));
    while i < statuses.len()
        invariant
            i <= statuses@.len(),
            configs::views(all@) == proxy_names(statuses@, i as int),
        decreases statuses@.len() - i,
    {
        let k: &str = statuses[i].kind_name.as_str();
        if !text::same_text(k, "Direct") && !text::same_text(k, "Block") {
            let ghost before = configs::views(all@);
            all.push(statuses[i].name.as_str().to_owned());
            assert(configs::views(all@) =~= before.push(statuses@[i as int].name@));
        }
        i = i + 1;
    }
    let ghost names = proxy_names(statuses@, statuses@.len() as int);
    let now: String = if all.len() > 0 {
        assert(names[0] == all@[0]@);
        all[0].as_str().to_owned()
    } else {
        String::new()
    };
    assert(names.len() == all@.len());
    proof {
        assert(all@.map_values(|s: String| Json::Text(s@)) =~= names.map_values(
            |t: Seq<char>| Json::Text(t),
        )) by {
            assert forall|k: int| 0 <= k < all@.len() implies names[k] == #[trigger] all@[k]@ by {
                assert(configs::views(all@)[k] == all@[k]@);
            }
        }
    }
    let none: Vec<serde_json::Value> = Vec::new();
    assert(json::held(none@) =~= Seq::<Json>::empty());
    let mut m = json::no_entries();
    json::put_entry(&mut m, "type", json::json_text("Selector"));
    json::put_entry(&mut m, "name", json::json_text("GLOBAL"));
    json::put_entry(&mut m, "udp", json::json_flag(true));
    json::put_entry(&mut m, "history", json::json_list(none));
    json::put_entry(&mut m, "all", json::text_list(&all));
    json::put_entry(&mut m, "now", json::json_text(now.as_str()));
    json::json_object(m)
}

/// An outbound.
pub open spec fn proxy_json(h: Map<Seq<char>, DelayRecord>, s: OutboundStatus) -> Json {
    let base = outline(h, s.kind_name@, s.name@);
    let with_now = match s.now {
        Some(n) => base.insert("now"@, Json::Text(n@)),
        None => base,
    };
    Json::Object(
        if s.all@.len() > 0 {
            with_now.insert("all"@, json::texts(s.all@))
        } else {
            with_now
        },
    )
}

fn proxy_value(h: &DelayHistory, s: &OutboundStatus) -> (r: serde_json::Value)
    ensures
        json::json(r) == proxy_json(h@, *s),
{
    let mut m = outline_of(h, s.kind_name.as_str(), s.name.as_str());
    if let Some(n) = &s.now {
        json::put_entry(&mut m, "now", json::json_text(n.as_str()));
    }
    if s.all.len() > 0 {
        json::put_entry(&mut m, "all", json::text_list(&s.all));
    }
    json::json_object(m)
}

/// The group of all outbounds and the first `n` outbounds, by name.
pub open spec fn proxies_json(
    h: Map<Seq<char>, DelayRecord>,
    statuses: Seq<OutboundStatus>,
    n: int,
) -> Map<Seq<char>, Json>
    decreases n,
{
    if n <= 0 {
        json::nothing().insert("GLOBAL"@, global_json(statuses))
    } else {
        proxies_json(h, statuses, n - 1).insert(
            statuses[n - 1].name@,
            proxy_json(h, statuses[n - 1]),
        )
    }
}

/// All outbounds by name.
pub fn get_proxies(h: &DelayHistory, statuses: &Vec<OutboundStatus>) -> (r: HttpResponse)
    ensures
        r@ == json::json_reply(
            200,
            "OK"@,
            Json::Object(
                json::nothing().insert(
                    "proxies"@,
                    Json::Object(proxies_json(h@, statuses@, statuses@.len() as int)),
                ),
            ),
        ),
{
    let mut all = json::no_entries();
    json::put_entry(&mut all, "GLOBAL", global_value(statuses));
    let mut i: usize = 0;
    while i < statuses.len()
        invariant
            i <= statuses@.len(),
            json::entries(all) == proxies_json(h@, statuses@, i as int),
        decreases statuses@.len() - i,
    {
        let s: &OutboundStatus = &statuses[i];
        json::put_entry(&mut all, s.name.as_str(), proxy_value(h, s));
        i = i + 1;
    }
    let mut m = json::no_entries();
    json::put_entry(&mut m, "proxies", json::json_object(all));
    json::json_response(&json::json_object(m))
}

/// One outbound.
pub fn get_proxy(
    h: &DelayHistory,
    mgr: &OutboundManager,
    reported: &Vec<OutboundStatus>,
    statuses: &Vec<OutboundStatus>,
    encoded_name: &str,
) -> (r: HttpResponse)
    requires
        reported@.len() == mgr.slots().len(),
        path::decodable(vstd::utf8::encode_utf8(encoded_name@)),
    ensures
        ({
            let name = decoded(encoded_name@);
            let i = outbound_mgr::slot_of(mgr.slots(), mgr.slots().len() as int, name);
            r@ == (if name == "GLOBAL"@ {
                json::json_reply(200, "OK"@, global_json(statuses@))
            } else if i >= 0 {
                json::json_reply(200, "OK"@, proxy_json(h@, reported@[i]))
            } else {
                http::text_reply(404, "Not Found"@, "proxy not found"@)
            })
        }),
{
    let name: String = path::percent_decode(encoded_name);
    if text::same_text(name.as_str(), "GLOBAL") {
        let v = global_value(statuses);
        return json::json_response(&v);
    }
    match mgr.status(name.as_str(), reported) {
        Some(s) => {
            let v = proxy_value(h, s);
            json::json_response(&v)
        },
        None => http::text_response(404, "Not Found", "proxy not found"),
    }
}

// Selecting

/// What a request to use another outbound leads to.
pub enum SelectStep {
    Respond(HttpResponse),
    /// The group at a place is to be told to use `child`.
    Select { place: usize, child: String },
}

/// What follows from the name in the body of such a request.
pub fn put_proxy_child(mgr: &OutboundManager, name: &str, child: Option<String>) -> (r: SelectStep)
    ensures
        select_step(mgr.slots(), name@, match child {
            Some(c) => Some(c@),
            None => None,
        }, r),
{
    match child {
        None => SelectStep::Respond(
            http::text_response(400, "Bad Request", "missing proxy name"),
        ),
        Some(c) => match mgr.select(name) {
            Ok(place) => SelectStep::Select { place, child: c },
            Err(e) => SelectStep::Respond(http::text_response(400, "Bad Request", e.as_str())),
        },
    }
}

/// Whether `r` follows from the name in the body of such a request.
pub open spec fn select_step(
    slots: Seq<OutboundSlot>,
    name: Seq<char>,
    child: Option<Seq<char>>,
    r: SelectStep,
) -> bool {
    let i = outbound_mgr::slot_of(slots, slots.len() as int, name);
    match child {
        None => r matches SelectStep::Respond(x) && x@ == http::text_reply(
            400,
            "Bad Request"@,
            "missing proxy name"@,
        ),
        Some(c) => if i >= 0 {
            r matches SelectStep::Select { place, child: y } && place == i && y@ == c
        } else {
            r matches SelectStep::Respond(x) && x@ == http::text_reply(
                400,
                "Bad Request"@,
                "outbound '"@ + name + "' not found"@,
            )
        },
    }
}

/// Whether a request to use another outbound leads to this step.
pub open spec fn put_step(
    slots: Seq<OutboundSlot>,
    name: Seq<char>,
    body: Seq<u8>,
    r: SelectStep,
) -> bool {
    match json::decoded_json(body) {
        Ok(j) => select_step(slots, decoded(name), json::text_under(j, "name"@), r),
        Err(e) => r matches SelectStep::Respond(x) && x@ == http::text_reply(
            400,
            "Bad Request"@,
            "invalid json: "@ + e,
        ),
    }
}

/// What a request to use another outbound leads to.
pub fn put_proxy(mgr: &OutboundManager, encoded_name: &str, body: &[u8]) -> (r: SelectStep)
    requires
        path::decodable(vstd::utf8::encode_utf8(encoded_name@)),
    ensures
        put_step(mgr.slots(), encoded_name@, body@, r),
{
    let name: String = path::percent_decode(encoded_name);
    match json::parse_json(body) {
        Ok(v) => put_proxy_child(mgr, name.as_str(), json::text_field(&v, "name")),
        Err(e) => SelectStep::Respond(configs::bad_json(e.as_str())),
    }
}

/// The response once the group was told; it may have refused.
pub fn after_select(refusal: Option<String>) -> (r: HttpResponse)
    ensures
        r@ == (match refusal {
            None => http::empty_reply(204, "No Content"@),
            Some(e) => http::text_reply(400, "Bad Request"@, e@),
        }),
{
    match refusal {
        None => http::empty_response(204, "No Content"),
        Some(e) => http::text_response(400, "Bad Request", e.as_str()),
    }
}

/// The keys differ.
proof fn lemma_outline_keys()
    ensures
        "type"@ != "name"@,
        "type"@ != "udp"@,
        "type"@ != "history"@,
        "type"@ != "all"@,
        "type"@ != "now"@,
        "name"@ != "udp"@,
        "name"@ != "history"@,
        "name"@ != "all"@,
        "name"@ != "now"@,
        "udp"@ != "history"@,
        "udp"@ != "all"@,
        "udp"@ != "now"@,
        "history"@ != "all"@,
        "history"@ != "now"@,
        "all"@ != "now"@,
{
    reveal_strlit("type");
    assert("type"@.len() == 4);
    reveal_strlit("name");
    assert("name"@.len() == 4);
    reveal_strlit("udp");
    assert("udp"@.len() == 3);
    reveal_strlit("history");
    assert("history"@.len() == 7);
    reveal_strlit("all");
    assert("all"@.len() == 3);
    reveal_strlit("now");
    assert("now"@.len() == 3);
    assert("type"@[0] == 't' && "name"@[0] == 'n');
    assert("udp"@[0] == 'u' && "all"@[0] == 'a');
    assert("udp"@[0] == 'u' && "now"@[0] == 'n');
    assert("all"@[0] == 'a' && "now"@[0] == 'n');
}

/// What is shown of an outbound: its kind, its name and its last delay; of a
/// group also what it uses and its members.
pub proof fn law_outbound_is_shown(h: Map<Seq<char>, DelayRecord>, s: OutboundStatus)
    ensures
        ({
            let j = proxy_json(h, s);
            &&& json::entry(j, "type"@) == Some(Json::Text(s.kind_name@))
            &&& json::entry(j, "name"@) == Some(Json::Text(s.name@))
            &&& json::entry(j, "history"@) == Some(history_json(h, s.name@))
            &&& json::entry(j, "now"@) == (match s.now {
                Some(n) => Some(Json::Text(n@)),
                None => None,
            })
            &&& json::entry(j, "all"@) == (if s.all@.len() > 0 {
                Some(json::texts(s.all@))
            } else {
                None
            })
        }),
{
    lemma_outline_keys();
}

proof fn lemma_proxies(h: Map<Seq<char>, DelayRecord>, statuses: Seq<OutboundStatus>, n: int, k: int)
    requires
        0 <= k < n <= statuses.len(),
        forall|j: int| k < j < n ==> (#[trigger] statuses[j]).name@ != statuses[k].name@,
    ensures
        proxies_json(h, statuses, n).contains_key(statuses[k].name@),
        proxies_json(h, statuses, n)[statuses[k].name@] == proxy_json(h, statuses[k]),
    decreases n,
{
    if n - 1 > k {
        assert(statuses[n - 1].name@ != statuses[k].name@);
        lemma_proxies(h, statuses, n - 1, k);
    }
}

/// Every outbound is shown under its name.
pub proof fn law_every_outbound_is_shown(
    h: Map<Seq<char>, DelayRecord>,
    statuses: Seq<OutboundStatus>,
    k: int,
)
    requires
        0 <= k < statuses.len(),
        forall|j: int| k < j < statuses.len() ==> (#[trigger] statuses[j]).name@ != statuses[k].name@,
    ensures
        json::entry(
            Json::Object(proxies_json(h, statuses, statuses.len() as int)),
            statuses[k].name@,
        ) == Some(proxy_json(h, statuses[k])),
{
    lemma_proxies(h, statuses, statuses.len() as int, k);
}

proof fn lemma_names(statuses: Seq<OutboundStatus>, n: int, name: Seq<char>)
    requires
        0 <= n <= statuses.len(),
    ensures
        proxy_names(statuses, n).contains(name) <==> exists|i: int|
            0 <= i < n && (#[trigger] statuses[i]).name@ == name && statuses[i].kind_name@
                != "Direct"@ && statuses[i].kind_name@ != "Block"@,
    decreases n,
{
    if n > 0 {
        let before = proxy_names(statuses, n - 1);
        let s = statuses[n - 1];
        lemma_names(statuses, n - 1, name);
        if s.kind_name@ != "Direct"@ && s.kind_name@ != "Block"@ {
            let all = before.push(s.name@);
            assert(all.last() == s.name@);
            if all.contains(name) {
                let i = choose|i: int| 0 <= i < all.len() && all[i] == name;
                if i < before.len() {
                    assert(before[i] == name);
                }
            }
            if before.contains(name) {
                let i = choose|i: int| 0 <= i < before.len() && before[i] == name;
                assert(all[i] == name);
            }
            if s.name@ == name {
                assert(all[before.len() as int] == name);
            }
        }
    }
}

/// The group of all outbounds has as members exactly those that neither connect
/// directly nor block.
pub proof fn law_members_of_global(statuses: Seq<OutboundStatus>, name: Seq<char>)
    ensures
        proxy_names(statuses, statuses.len() as int).contains(name) <==> exists|i: int|
            0 <= i < statuses.len() && (#[trigger] statuses[i]).name@ == name
                && statuses[i].kind_name@ != "Direct"@ && statuses[i].kind_name@ != "Block"@,
{
    lemma_names(statuses, statuses.len() as int, name);
}

proof fn lemma_groups(
    h: Map<Seq<char>, DelayRecord>,
    slots: Seq<OutboundSlot>,
    reported: Seq<OutboundStatus>,
    statuses: Seq<OutboundStatus>,
    n: int,
    k: int,
)
    requires
        0 <= k < n <= statuses.len(),
        is_group(statuses[k]),
    ensures
        groups_among(h, slots, reported, statuses, n).contains(
            group_json(h, slots, reported, statuses[k]),
        ),
    decreases n,
{
    let x = group_json(h, slots, reported, statuses[k]);
    let all = groups_among(h, slots, reported, statuses, n);
    if k == n - 1 {
        assert(all.last() == x);
    } else {
        lemma_groups(h, slots, reported, statuses, n - 1, k);
        let before = groups_among(h, slots, reported, statuses, n - 1);
        let i = choose|i: int| 0 <= i < before.len() && before[i] == x;
        assert(all[i] == x);
    }
}

/// Every selector and every group that tests its members is among the groups.
pub proof fn law_groups_are_shown(
    h: Map<Seq<char>, DelayRecord>,
    slots: Seq<OutboundSlot>,
    reported: Seq<OutboundStatus>,
    statuses: Seq<OutboundStatus>,
    k: int,
)
    requires
        0 <= k < statuses.len(),
        statuses[k].kind_name@ == "Selector"@ || statuses[k].kind_name@ == "URLTest"@
            || statuses[k].kind_name@ == "UrlTest"@,
    ensures
        groups_among(h, slots, reported, statuses, statuses.len() as int).contains(
            group_json(h, slots, reported, statuses[k]),
        ),
{
    lemma_groups(h, slots, reported, statuses, statuses.len() as int, k);
}

proof fn lemma_first_named(statuses: Seq<OutboundStatus>, name: Seq<char>, i: int, k: int)
    requires
        0 <= i <= k <= statuses.len(),
        forall|j: int| i <= j < k ==> (#[trigger] statuses[j]).name@ != name,
    ensures
        first_named(statuses, name, i) == first_named(statuses, name, k),
    decreases k - i,
{
    if i < k {
        assert(statuses[i].name@ != name);
        lemma_first_named(statuses, name, i + 1, k);
    }
}

/// The outbound of a name is the first one that has it.
pub proof fn law_first_of_a_name(statuses: Seq<OutboundStatus>, name: Seq<char>, k: int)
    requires
        0 <= k <= statuses.len(),
        forall|j: int| 0 <= j < k ==> (#[trigger] statuses[j]).name@ != name,
        k < statuses.len() ==> statuses[k].name@ == name,
    ensures
        first_named(statuses, name, 0) == k,
{
    lemma_first_named(statuses, name, 0, k);
}

} // verus!
