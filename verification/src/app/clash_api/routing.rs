//! Which request asks for what, and who may ask.
use vstd::prelude::*;
use crate::app::clash_api::http;
use crate::app::clash_api::requests;
use crate::app::clash_api::http::HttpRequest;
use crate::text;

verus! {

/// What a request asks for.
#[derive(Clone, Copy, Debug, PartialEq, Eq, Structural)]
pub enum RouteKind {
    /// Which requests another site may make.
    Preflight,
    /// Nothing that this client may have.
    Unauthorized,
    WsTraffic,
    WsLogs,
    WsConnections,
    WsMemory,
    Home,
    Version,
    GetConfigs,
    PatchConfigs,
    PutConfigs,
    Traffic,
    Logs,
    Rules,
    Connections,
    DeleteConnections,
    Proxies,
    ProxyProviders,
    RuleProviders,
    Script,
    Cache,
    Profile,
    DnsQuery,
    Memory,
    Groups,
    GroupDelay,
    Group,
    SelectProxy,
    DeleteConnection,
    ProxyDelay,
    Proxy,
    ProxyProvider,
    UpdateRuleProvider,
    Ui,
    NotFound,
}

/// What a request asks for, and of whom: a name as it stands in the path.
pub struct Route {
    pub kind: RouteKind,
    pub name: String,
}

/// The path of a request, without its query.
pub open spec fn path_of(full: Seq<char>) -> Seq<char> {
    full.take(text::index_of(full, '?'))
}

/// The query of a request.
pub open spec fn query_of(full: Seq<char>) -> Seq<char> {
    if text::index_of(full, '?') < full.len() {
        full.skip(text::index_of(full, '?') + 1)
    } else {
        Seq::empty()
    }
}

/// Whether a request gives the secret, if there is one: a WebSocket request in
/// its query, others in a header.
pub open spec fn authorized(r: http::RequestView, secret: Seq<char>) -> bool {
    secret.len() == 0 || (if http::wants_websocket(r) {
        text::parts(query_of(r.path), '&').contains("token="@ + secret)
    } else {
        http::header_of(r, "authorization"@) == Some("Bearer "@ + secret)
    })
}

/// A text without what it begins with, as often as it begins with it.
pub open spec fn without_prefixes(s: Seq<char>, prefix: Seq<char>) -> Seq<char>
    decreases s.len(),
{
    if prefix.len() > 0 && text::has_prefix(s, prefix) {
        without_prefixes(s.skip(prefix.len() as int), prefix)
    } else {
        s
    }
}

/// What a WebSocket request asks for.
pub open spec fn socket_route(path: Seq<char>) -> Option<RouteKind> {
    if path == "/traffic"@ {
        Some(RouteKind::WsTraffic)
    } else if path == "/logs"@ {
        Some(RouteKind::WsLogs)
    } else if path == "/connections"@ {
        Some(RouteKind::WsConnections)
    } else if path == "/memory"@ {
        Some(RouteKind::WsMemory)
    } else {
        None
    }
}

/// What a request with a path that names nobody asks for.
pub open spec fn fixed_route(method: Seq<char>, path: Seq<char>) -> Option<RouteKind> {
    if method == "GET"@ {
        if path == "/"@ {
            Some(RouteKind::Home)
        } else if path == "/version"@ {
            Some(RouteKind::Version)
        } else if path == "/configs"@ {
            Some(RouteKind::GetConfigs)
        } else if path == "/traffic"@ {
            Some(RouteKind::Traffic)
        } else if path == "/logs"@ {
            Some(RouteKind::Logs)
        } else if path == "/rules"@ {
            Some(RouteKind::Rules)
        } else if path == "/connections"@ {
            Some(RouteKind::Connections)
        } else if path == "/proxies"@ {
            Some(RouteKind::Proxies)
        } else if path == "/providers/proxies"@ {
            Some(RouteKind::ProxyProviders)
        } else if path == "/providers/rules"@ {
            Some(RouteKind::RuleProviders)
        } else if path == "/script"@ {
            Some(RouteKind::Script)
        } else if path == "/cache"@ {
            Some(RouteKind::Cache)
        } else if path == "/profile"@ {
            Some(RouteKind::Profile)
        } else if path == "/dns/query"@ {
            Some(RouteKind::DnsQuery)
        } else if path == "/memory"@ {
            Some(RouteKind::Memory)
        } else if path == "/group"@ {
            Some(RouteKind::Groups)
        } else {
            None
        }
    } else if method == "PATCH"@ && path == "/configs"@ {
        Some(RouteKind::PatchConfigs)
    } else if method == "PUT"@ && path == "/configs"@ {
        Some(RouteKind::PutConfigs)
    } else if method == "DELETE"@ && path == "/connections"@ {
        Some(RouteKind::DeleteConnections)
    } else {
        None
    }
}

/// The name in a path behind `prefix`, and whether its delay is asked for.
pub open spec fn named(path: Seq<char>, prefix: Seq<char>) -> (Seq<char>, bool) {
    let rest = without_prefixes(path, prefix);
    if text::has_suffix(rest, "/delay"@) {
        (rest.take(rest.len() - "/delay"@.len()), true)
    } else {
        (rest, false)
    }
}

/// What a request with a path that names somebody asks for, and of whom.
pub open spec fn named_route(method: Seq<char>, path: Seq<char>) -> (RouteKind, Seq<char>) {
    if method == "GET"@ && text::has_prefix(path, "/group/"@) {
        let (name, delay) = named(path, "/group/"@);
        (
            if delay {
                RouteKind::GroupDelay
            } else {
                RouteKind::Group
            },
            name,
        )
    } else if method == "PUT"@ && text::has_prefix(path, "/group/"@) {
        (RouteKind::SelectProxy, without_prefixes(path, "/group/"@))
    } else if method == "DELETE"@ && text::has_prefix(path, "/connections/"@) {
        (RouteKind::DeleteConnection, without_prefixes(path, "/connections/"@))
    } else if method == "GET"@ && text::has_prefix(path, "/proxies/"@) {
        let (name, delay) = named(path, "/proxies/"@);
        (
            if delay {
                RouteKind::ProxyDelay
            } else {
                RouteKind::Proxy
            },
            name,
        )
    } else if method == "PUT"@ && text::has_prefix(path, "/proxies/"@) {
        (RouteKind::SelectProxy, without_prefixes(path, "/proxies/"@))
    } else if method == "GET"@ && text::has_prefix(path, "/providers/proxies/"@) {
        (RouteKind::ProxyProvider, Seq::empty())
    } else if method == "PUT"@ && text::has_prefix(path, "/providers/rules/"@) {
        (RouteKind::UpdateRuleProvider, without_prefixes(path, "/providers/rules/"@))
    } else if method == "GET"@ {
        (RouteKind::Ui, path)
    } else {
        (RouteKind::NotFound, Seq::empty())
    }
}

/// What a request asks for, and of whom. Everybody may ask which requests are
/// allowed; for all else the secret is needed.
pub open spec fn route_of(r: http::RequestView, secret: Seq<char>) -> (RouteKind, Seq<char>) {
    let path = path_of(r.path);
    if r.method == "OPTIONS"@ {
        (RouteKind::Preflight, Seq::empty())
    } else if !authorized(r, secret) {
        (RouteKind::Unauthorized, Seq::empty())
    } else if http::wants_websocket(r) && socket_route(path) is Some {
        (socket_route(path)->0, Seq::empty())
    } else if fixed_route(r.method, path) is Some {
        (fixed_route(r.method, path)->0, Seq::empty())
    } else {
        named_route(r.method, path)
    }
}

/// Path and query of a request.
pub fn split_path(full: &str) -> (r: (String, String))
    ensures
        r.0@ == path_of(full@),
        r.1@ == query_of(full@),
{
    let chars: Vec<char> = text::chars_of(full);
    let n: usize = chars.len();
    let i: usize = text::find_from(chars.as_slice(), '?', 0);
    let path: &[char] = text::slice_of(chars.as_slice(), 0, i);
    assert(path@ =~= path_of(full@));
    if i < n {
        let query: &[char] = text::slice_of(chars.as_slice(), i + 1, n);
        assert(query@ =~= query_of(full@));
        (text::string_of(path), text::string_of(query))
    } else {
        let none: Vec<char> = Vec::new();
        assert(none@ =~= query_of(full@));
        (text::string_of(path), text::string_of(none.as_slice()))
    }
}

fn has_part(query: &str, part: &str) -> (r: bool)
    ensures
        r == text::parts(query@, '&').contains(part@),
{
    let chars: Vec<char> = text::chars_of(query);
    let want: Vec<char> = text::chars_of(part);
    let all: Vec<Vec<char>> = text::split(chars.as_slice(), '&');
    let ghost p = text::parts(query@, '&');
    let mut i: usize = 0;
    while i < all.len()
        invariant
            i <= all@.len(),
            p == text::parts(query@, '&'),
            want@ == part@,
            all@.map_values(|v: Vec<char>| v@) == p,
            forall|k: int| 0 <= k < i ==> p[k] != part@,
        decreases all@.len() - i,
    {
        assert(p[i as int] == all@[i as int]@);
        if text::same_chars(all[i].as_slice(), want.as_slice()) {
            assert(p[i as int] == part@);
            return true;
        }
        i = i + 1;
    }
    assert(p.len() == all@.len());
    false
}

fn two(a: &str, b: &str) -> (r: String)
    ensures
        r@ == a@ + b@,
{
    let mut t: Vec<char> = text::chars_of(a);
    text::push_text(&mut t, b);
    text::string_of(t.as_slice())
}

/// Whether a request gives the secret, if there is one.
pub fn is_authorized(r: &HttpRequest, secret: &str) -> (ok: bool)
    ensures
        ok == authorized(r@, secret@),
{
    if secret.is_empty() {
        return true;
    }
    if r.is_websocket() {
        let (_, query): (String, String) = split_path(r.path.as_str());
        has_part(query.as_str(), two("token=", secret).as_str())
    } else {
        match r.header("authorization") {
            Some(v) => text::same_text(v, two("Bearer ", secret).as_str()),
            None => false,
        }
    }
}

pub(crate) fn strip_prefixes<'a>(s: &'a [char], prefix: &str) -> (r: &'a [char])
    requires
        prefix@.len() > 0,
    ensures
        r@ == without_prefixes(s@, prefix@),
{
    let mut cur: &'a [char] = s;
    loop
        invariant
            prefix@.len() > 0,
            without_prefixes(s@, prefix@) == without_prefixes(cur@, prefix@),
        decreases cur@.len(),
    {
        match text::strip_prefix(cur, prefix) {
            Some(rest) => {
                cur = rest;
            },
            None => {
                return cur;
            },
        }
    }
}

fn socket_kind(path: &str) -> (r: Option<RouteKind>)
    ensures
        r == socket_route(path@),
{
    if text::same_text(path, "/traffic") {
        Some(RouteKind::WsTraffic)
    } else if text::same_text(path, "/logs") {
        Some(RouteKind::WsLogs)
    } else if text::same_text(path, "/connections") {
        Some(RouteKind::WsConnections)
    } else if text::same_text(path, "/memory") {
        Some(RouteKind::WsMemory)
    } else {
        None
    }
}

fn fixed_kind(method: &str, path: &str) -> (r: Option<RouteKind>)
    ensures
        r == fixed_route(method@, path@),
{
    if text::same_text(method, "GET") {
        if text::same_text(path, "/") {
            Some(RouteKind::Home)
        } else if text::same_text(path, "/version") {
            Some(RouteKind::Version)
        } else if text::same_text(path, "/configs") {
            Some(RouteKind::GetConfigs)
        } else if text::same_text(path, "/traffic") {
            Some(RouteKind::Traffic)
        } else if text::same_text(path, "/logs") {
            Some(RouteKind::Logs)
        } else if text::same_text(path, "/rules") {
            Some(RouteKind::Rules)
        } else if text::same_text(path, "/connections") {
            Some(RouteKind::Connections)
        } else if text::same_text(path, "/proxies") {
            Some(RouteKind::Proxies)
        } else if text::same_text(path, "/providers/proxies") {
            Some(RouteKind::ProxyProviders)
        } else if text::same_text(path, "/providers/rules") {
            Some(RouteKind::RuleProviders)
        } else if text::same_text(path, "/script") {
            Some(RouteKind::Script)
        } else if text::same_text(path, "/cache") {
            Some(RouteKind::Cache)
        } else if text::same_text(path, "/profile") {
            Some(RouteKind::Profile)
        } else if text::same_text(path, "/dns/query") {
            Some(RouteKind::DnsQuery)
        } else if text::same_text(path, "/memory") {
            Some(RouteKind::Memory)
        } else if text::same_text(path, "/group") {
            Some(RouteKind::Groups)
        } else {
            None
        }
    } else if text::same_text(method, "PATCH") && text::same_text(path, "/configs") {
        Some(RouteKind::PatchConfigs)
    } else if text::same_text(method, "PUT") && text::same_text(path, "/configs") {
        Some(RouteKind::PutConfigs)
    } else if text::same_text(method, "DELETE") && text::same_text(path, "/connections") {
        Some(RouteKind::DeleteConnections)
    } else {
        None
    }
}

fn split_delay(path: &[char], prefix: &str) -> (r: (String, bool))
    requires
        prefix@.len() > 0,
    ensures
        (r.0@, r.1) == named(path@, prefix@),
{
    let rest: &[char] = strip_prefixes(path, prefix);
    let n: usize = rest.len();
    if text::ends_with(rest, "/delay") {
        proof {
            reveal_strlit("/delay");
        }
        let name: &[char] = text::slice_of(rest, 0, n - 6);
        assert(name@ =~= rest@.take(rest@.len() - "/delay"@.len()));
        (text::string_of(name), true)
    } else {
        (text::string_of(rest), false)
    }
}

fn empty_text() -> (r: String)
    ensures
        r@ == Seq::<char>::empty(),
{
    String::new()
}

fn named_kind(method: &str, path: &str) -> (r: Route)
    ensures
        (r.kind, r.name@) == named_route(method@, path@),
{
    proof {
        reveal_strlit("/group/");
        reveal_strlit("/connections/");
        reveal_strlit("/proxies/");
        reveal_strlit("/providers/rules/");
    }
    let p: Vec<char> = text::chars_of(path);
    let get: bool = text::same_text(method, "GET");
    let put: bool = text::same_text(method, "PUT");
    if get && text::starts_with(p.as_slice(), "/group/") {
        let (name, delay): (String, bool) = split_delay(p.as_slice(), "/group/");
        Route {
            kind: if delay {
                RouteKind::GroupDelay
            } else {
                RouteKind::Group
            },
            name,
        }
    } else if put && text::starts_with(p.as_slice(), "/group/") {
        Route {
            kind: RouteKind::SelectProxy,
            name: text::string_of(strip_prefixes(p.as_slice(), "/group/")),
        }
    } else if text::same_text(method, "DELETE") && text::starts_with(
        p.as_slice(),
        "/connections/",
    ) {
        Route {
            kind: RouteKind::DeleteConnection,
            name: text::string_of(strip_prefixes(p.as_slice(), "/connections/")),
        }
    } else if get && text::starts_with(p.as_slice(), "/proxies/") {
        let (name, delay): (String, bool) = split_delay(p.as_slice(), "/proxies/");
        Route {
            kind: if delay {
                RouteKind::ProxyDelay
            } else {
                RouteKind::Proxy
            },
            name,
        }
    } else if put && text::starts_with(p.as_slice(), "/proxies/") {
        Route {
            kind: RouteKind::SelectProxy,
            name: text::string_of(strip_prefixes(p.as_slice(), "/proxies/")),
        }
    } else if get && text::starts_with(p.as_slice(), "/providers/proxies/") {
        Route { kind: RouteKind::ProxyProvider, name: empty_text() }
    } else if put && text::starts_with(p.as_slice(), "/providers/rules/") {
        Route {
            kind: RouteKind::UpdateRuleProvider,
            name: text::string_of(strip_prefixes(p.as_slice(), "/providers/rules/")),
        }
    } else if get {
        Route { kind: RouteKind::Ui, name: path.to_owned() }
    } else {
        Route { kind: RouteKind::NotFound, name: empty_text() }
    }
}

/// What a request asks for, and of whom.
pub fn route_request(r: &HttpRequest, secret: &str) -> (route: Route)
    ensures
        (route.kind, route.name@) == route_of(r@, secret@),
{
    if text::same_text(r.method.as_str(), "OPTIONS") {
        return Route { kind: RouteKind::Preflight, name: empty_text() };
    }
    if !is_authorized(r, secret) {
        return Route { kind: RouteKind::Unauthorized, name: empty_text() };
    }
    let (path, _): (String, String) = split_path(r.path.as_str());
    if r.is_websocket() {
        if let Some(kind) = socket_kind(path.as_str()) {
            return Route { kind, name: empty_text() };
        }
    }
    match fixed_kind(r.method.as_str(), path.as_str()) {
        Some(kind) => Route { kind, name: empty_text() },
        None => named_kind(r.method.as_str(), path.as_str()),
    }
}

/// Without the secret a request gets nothing but the answer which requests are
/// allowed, or a refusal.
pub proof fn law_secret_is_needed(r: http::RequestView, secret: Seq<char>)
    requires
        !authorized(r, secret),
    ensures
        route_of(r, secret).0 == RouteKind::Preflight || route_of(r, secret).0
            == RouteKind::Unauthorized,
{
}

/// Path and query of a request are what stands before and behind its first
/// question mark.
pub proof fn law_path_and_query(path: Seq<char>, query: Seq<char>)
    requires
        !path.contains('?'),
    ensures
        path_of(path + seq!['?'] + query) == path,
        query_of(path + seq!['?'] + query) == query,
        path_of(path) == path,
        query_of(path).len() == 0,
{
    let full = path + seq!['?'] + query;
    let n = path.len() as int;
    assert forall|k: int| 0 <= k < n implies path[k] != '?' by {
        assert(path.contains(path[k]));
    }
    text::lemma_index_of(full, '?', n);
    text::lemma_index_of(path, '?', n);
    assert(full.take(n) =~= path);
    assert(full.skip(n + 1) =~= query);
    assert(path.take(n) =~= path);
}

/// A WebSocket request gives the secret in a part `token=` of its query, wherever
/// it stands among the parts.
pub proof fn law_token_opens(
    r: http::RequestView,
    path: Seq<char>,
    parts: Seq<Seq<char>>,
    secret: Seq<char>,
)
    requires
        secret.len() > 0,
        http::wants_websocket(r),
        !path.contains('?'),
        parts.len() > 0,
        forall|i: int| 0 <= i < parts.len() ==> !(#[trigger] parts[i]).contains('&'),
        r.path == path + seq!['?'] + text::joined(parts, '&'),
    ensures
        authorized(r, secret) <==> parts.contains("token="@ + secret),
{
    law_path_and_query(path, text::joined(parts, '&'));
    text::law_parts_of_joined(parts, '&');
}

/// Any other request gives the secret in the last header `authorization`, behind
/// the word `Bearer`. Without a secret everybody may ask.
pub proof fn law_bearer_opens(r: http::RequestView, k: int, secret: Seq<char>)
    requires
        0 <= k < r.headers.len(),
        r.headers[k].0 == "authorization"@,
        forall|j: int|
            k < j < r.headers.len() ==> (#[trigger] r.headers[j]).0 != "authorization"@,
        !http::wants_websocket(r),
    ensures
        authorized(r, secret) <==> secret.len() == 0 || r.headers[k].1 == "Bearer "@ + secret,
{
    requests::lemma_last_field(
        r.headers,
        r.headers.len() as int,
        k,
        "authorization"@,
    );
}

/// Whether a request that may be made is for a path, with whatever query, and is
/// no WebSocket request.
pub open spec fn plain_path(
    r: http::RequestView,
    secret: Seq<char>,
    method: Seq<char>,
    path: Seq<char>,
) -> bool {
    authorized(r, secret) && !http::wants_websocket(r) && r.method == method && path_of(r.path)
        == path
}

/// Whether a WebSocket request that may be made is for a path, with whatever
/// query.
pub open spec fn socket_path(
    r: http::RequestView,
    secret: Seq<char>,
    method: Seq<char>,
    path: Seq<char>,
) -> bool {
    authorized(r, secret) && http::wants_websocket(r) && r.method == method && path_of(r.path)
        == path
}

/// What paths without a name lead to.
pub proof fn law_plain_paths(r: http::RequestView, secret: Seq<char>)
    ensures
        r.method == "OPTIONS"@ ==> route_of(r, secret).0 == RouteKind::Preflight,
        r.method != "OPTIONS"@ && !authorized(r, secret) ==> route_of(r, secret).0
            == RouteKind::Unauthorized,
        plain_path(r, secret, "GET"@, "/"@) ==> route_of(r, secret).0 == RouteKind::Home,
        plain_path(r, secret, "GET"@, "/version"@) ==> route_of(r, secret).0 == RouteKind::Version,
        plain_path(r, secret, "GET"@, "/configs"@) ==> route_of(r, secret).0 == RouteKind::GetConfigs,
        plain_path(r, secret, "GET"@, "/traffic"@) ==> route_of(r, secret).0 == RouteKind::Traffic,
        plain_path(r, secret, "GET"@, "/logs"@) ==> route_of(r, secret).0 == RouteKind::Logs,
        plain_path(r, secret, "GET"@, "/rules"@) ==> route_of(r, secret).0 == RouteKind::Rules,
        plain_path(r, secret, "GET"@, "/connections"@) ==> route_of(r, secret).0 == RouteKind::Connections,
        plain_path(r, secret, "GET"@, "/proxies"@) ==> route_of(r, secret).0 == RouteKind::Proxies,
        plain_path(r, secret, "GET"@, "/providers/proxies"@) ==> route_of(r, secret).0 == RouteKind::ProxyProviders,
        plain_path(r, secret, "GET"@, "/providers/rules"@) ==> route_of(r, secret).0 == RouteKind::RuleProviders,
        plain_path(r, secret, "GET"@, "/script"@) ==> route_of(r, secret).0 == RouteKind::Script,
        plain_path(r, secret, "GET"@, "/cache"@) ==> route_of(r, secret).0 == RouteKind::Cache,
        plain_path(r, secret, "GET"@, "/profile"@) ==> route_of(r, secret).0 == RouteKind::Profile,
        plain_path(r, secret, "GET"@, "/dns/query"@) ==> route_of(r, secret).0 == RouteKind::DnsQuery,
        plain_path(r, secret, "GET"@, "/memory"@) ==> route_of(r, secret).0 == RouteKind::Memory,
        plain_path(r, secret, "GET"@, "/group"@) ==> route_of(r, secret).0 == RouteKind::Groups,
        plain_path(r, secret, "PATCH"@, "/configs"@) ==> route_of(r, secret).0
            == RouteKind::PatchConfigs,
        plain_path(r, secret, "PUT"@, "/configs"@) ==> route_of(r, secret).0
            == RouteKind::PutConfigs,
        plain_path(r, secret, "DELETE"@, "/connections"@) ==> route_of(r, secret).0
            == RouteKind::DeleteConnections,
        socket_path(r, secret, "GET"@, "/traffic"@) ==> route_of(r, secret).0
            == RouteKind::WsTraffic,
        socket_path(r, secret, "GET"@, "/logs"@) ==> route_of(r, secret).0 == RouteKind::WsLogs,
        socket_path(r, secret, "GET"@, "/connections"@) ==> route_of(r, secret).0
            == RouteKind::WsConnections,
        socket_path(r, secret, "GET"@, "/memory"@) ==> route_of(r, secret).0
            == RouteKind::WsMemory,
{
    lemma_methods();
    lemma_fixed_paths();
}

proof fn lemma_methods()
    ensures
        "GET"@ != "OPTIONS"@,
        "PATCH"@ != "OPTIONS"@,
        "PUT"@ != "OPTIONS"@,
        "DELETE"@ != "OPTIONS"@,
        "GET"@ != "PATCH"@,
        "GET"@ != "PUT"@,
        "GET"@ != "DELETE"@,
        "PATCH"@ != "PUT"@,
        "PATCH"@ != "DELETE"@,
        "PUT"@ != "DELETE"@,
{
    reveal_strlit("OPTIONS");
    assert("OPTIONS"@.len() == 7);
    reveal_strlit("GET");
    assert("GET"@.len() == 3);
    reveal_strlit("PATCH");
    assert("PATCH"@.len() == 5);
    reveal_strlit("PUT");
    assert("PUT"@.len() == 3);
    reveal_strlit("DELETE");
    assert("DELETE"@.len() == 6);
    assert("GET"@[0] == 'G' && "PUT"@[0] == 'P');
}

/// The paths without a name differ.
proof fn lemma_fixed_paths()
    ensures
        "/"@ != "/version"@,
        "/"@ != "/configs"@,
        "/"@ != "/traffic"@,
        "/"@ != "/logs"@,
        "/"@ != "/rules"@,
        "/"@ != "/connections"@,
        "/"@ != "/proxies"@,
        "/"@ != "/providers/proxies"@,
        "/"@ != "/providers/rules"@,
        "/"@ != "/script"@,
        "/"@ != "/cache"@,
        "/"@ != "/profile"@,
        "/"@ != "/dns/query"@,
        "/"@ != "/memory"@,
        "/"@ != "/group"@,
        "/version"@ != "/configs"@,
        "/version"@ != "/traffic"@,
        "/version"@ != "/logs"@,
        "/version"@ != "/rules"@,
        "/version"@ != "/connections"@,
        "/version"@ != "/proxies"@,
        "/version"@ != "/providers/proxies"@,
        "/version"@ != "/providers/rules"@,
        "/version"@ != "/script"@,
        "/version"@ != "/cache"@,
        "/version"@ != "/profile"@,
        "/version"@ != "/dns/query"@,
        "/version"@ != "/memory"@,
        "/version"@ != "/group"@,
        "/configs"@ != "/traffic"@,
        "/configs"@ != "/logs"@,
        "/configs"@ != "/rules"@,
        "/configs"@ != "/connections"@,
        "/configs"@ != "/proxies"@,
        "/configs"@ != "/providers/proxies"@,
        "/configs"@ != "/providers/rules"@,
        "/configs"@ != "/script"@,
        "/configs"@ != "/cache"@,
        "/configs"@ != "/profile"@,
        "/configs"@ != "/dns/query"@,
        "/configs"@ != "/memory"@,
        "/configs"@ != "/group"@,
        "/traffic"@ != "/logs"@,
        "/traffic"@ != "/rules"@,
        "/traffic"@ != "/connections"@,
        "/traffic"@ != "/proxies"@,
        "/traffic"@ != "/providers/proxies"@,
        "/traffic"@ != "/providers/rules"@,
        "/traffic"@ != "/script"@,
        "/traffic"@ != "/cache"@,
        "/traffic"@ != "/profile"@,
        "/traffic"@ != "/dns/query"@,
        "/traffic"@ != "/memory"@,
        "/traffic"@ != "/group"@,
        "/logs"@ != "/rules"@,
        "/logs"@ != "/connections"@,
        "/logs"@ != "/proxies"@,
        "/logs"@ != "/providers/proxies"@,
        "/logs"@ != "/providers/rules"@,
        "/logs"@ != "/script"@,
        "/logs"@ != "/cache"@,
        "/logs"@ != "/profile"@,
        "/logs"@ != "/dns/query"@,
        "/logs"@ != "/memory"@,
        "/logs"@ != "/group"@,
        "/rules"@ != "/connections"@,
        "/rules"@ != "/proxies"@,
        "/rules"@ != "/providers/proxies"@,
        "/rules"@ != "/providers/rules"@,
        "/rules"@ != "/script"@,
        "/rules"@ != "/cache"@,
        "/rules"@ != "/profile"@,
        "/rules"@ != "/dns/query"@,
        "/rules"@ != "/memory"@,
        "/rules"@ != "/group"@,
        "/connections"@ != "/proxies"@,
        "/connections"@ != "/providers/proxies"@,
        "/connections"@ != "/providers/rules"@,
        "/connections"@ != "/script"@,
        "/connections"@ != "/cache"@,
        "/connections"@ != "/profile"@,
        "/connections"@ != "/dns/query"@,
        "/connections"@ != "/memory"@,
        "/connections"@ != "/group"@,
        "/proxies"@ != "/providers/proxies"@,
        "/proxies"@ != "/providers/rules"@,
        "/proxies"@ != "/script"@,
        "/proxies"@ != "/cache"@,
        "/proxies"@ != "/profile"@,
        "/proxies"@ != "/dns/query"@,
        "/proxies"@ != "/memory"@,
        "/proxies"@ != "/group"@,
        "/providers/proxies"@ != "/providers/rules"@,
        "/providers/proxies"@ != "/script"@,
        "/providers/proxies"@ != "/cache"@,
        "/providers/proxies"@ != "/profile"@,
        "/providers/proxies"@ != "/dns/query"@,
        "/providers/proxies"@ != "/memory"@,
        "/providers/proxies"@ != "/group"@,
        "/providers/rules"@ != "/script"@,
        "/providers/rules"@ != "/cache"@,
        "/providers/rules"@ != "/profile"@,
        "/providers/rules"@ != "/dns/query"@,
        "/providers/rules"@ != "/memory"@,
        "/providers/rules"@ != "/group"@,
        "/script"@ != "/cache"@,
        "/script"@ != "/profile"@,
        "/script"@ != "/dns/query"@,
        "/script"@ != "/memory"@,
        "/script"@ != "/group"@,
        "/cache"@ != "/profile"@,
        "/cache"@ != "/dns/query"@,
        "/cache"@ != "/memory"@,
        "/cache"@ != "/group"@,
        "/profile"@ != "/dns/query"@,
        "/profile"@ != "/memory"@,
        "/profile"@ != "/group"@,
        "/dns/query"@ != "/memory"@,
        "/dns/query"@ != "/group"@,
        "/memory"@ != "/group"@,
{
    reveal_strlit("/");
    assert("/"@.len() == 1);
    reveal_strlit("/version");
    assert("/version"@.len() == 8);
    reveal_strlit("/configs");
    assert("/configs"@.len() == 8);
    reveal_strlit("/traffic");
    assert("/traffic"@.len() == 8);
    reveal_strlit("/logs");
    assert("/logs"@.len() == 5);
    reveal_strlit("/rules");
    assert("/rules"@.len() == 6);
    reveal_strlit("/connections");
    assert("/connections"@.len() == 12);
    reveal_strlit("/proxies");
    assert("/proxies"@.len() == 8);
    reveal_strlit("/providers/proxies");
    assert("/providers/proxies"@.len() == 18);
    reveal_strlit("/providers/rules");
    assert("/providers/rules"@.len() == 16);
    reveal_strlit("/script");
    assert("/script"@.len() == 7);
    reveal_strlit("/cache");
    assert("/cache"@.len() == 6);
    reveal_strlit("/profile");
    assert("/profile"@.len() == 8);
    reveal_strlit("/dns/query");
    assert("/dns/query"@.len() == 10);
    reveal_strlit("/memory");
    assert("/memory"@.len() == 7);
    reveal_strlit("/group");
    assert("/group"@.len() == 6);
    assert("/version"@[1] == 'v' && "/configs"@[1] == 'c');
    assert("/version"@[1] == 'v' && "/traffic"@[1] == 't');
    assert("/version"@[1] == 'v' && "/proxies"@[1] == 'p');
    assert("/version"@[1] == 'v' && "/profile"@[1] == 'p');
    assert("/configs"@[1] == 'c' && "/traffic"@[1] == 't');
    assert("/configs"@[1] == 'c' && "/proxies"@[1] == 'p');
    assert("/configs"@[1] == 'c' && "/profile"@[1] == 'p');
    assert("/traffic"@[1] == 't' && "/proxies"@[1] == 'p');
    assert("/traffic"@[1] == 't' && "/profile"@[1] == 'p');
    assert("/rules"@[1] == 'r' && "/cache"@[1] == 'c');
    assert("/rules"@[1] == 'r' && "/group"@[1] == 'g');
    assert("/proxies"@[4] == 'x' && "/profile"@[4] == 'f');
    assert("/script"@[1] == 's' && "/memory"@[1] == 'm');
    assert("/cache"@[1] == 'c' && "/group"@[1] == 'g');
}

/// No path without a name begins like one with a name, and those with a name
/// begin differently.
proof fn lemma_named_path(prefix: Seq<char>, rest: Seq<char>)
    requires
        prefix == "/group/"@ || prefix == "/proxies/"@ || prefix == "/connections/"@ || prefix
            == "/providers/proxies/"@ || prefix == "/providers/rules/"@,
    ensures
        ({
            let path = prefix + rest;
            &&& fixed_route("GET"@, path) is None
            &&& fixed_route("PUT"@, path) is None
            &&& fixed_route("DELETE"@, path) is None
            &&& text::has_prefix(path, "/group/"@) <==> prefix == "/group/"@
            &&& text::has_prefix(path, "/proxies/"@) <==> prefix == "/proxies/"@
            &&& text::has_prefix(path, "/connections/"@) <==> prefix == "/connections/"@
            &&& text::has_prefix(path, "/providers/proxies/"@) <==> prefix
                == "/providers/proxies/"@
            &&& text::has_prefix(path, "/providers/rules/"@) <==> prefix == "/providers/rules/"@
            &&& prefix.len() > 0
        }),
{
    lemma_methods();
    let path = prefix + rest;
    reveal_strlit("/");
    assert("/"@.len() == 1);
    reveal_strlit("/version");
    assert("/version"@.len() == 8);
    reveal_strlit("/configs");
    assert("/configs"@.len() == 8);
    reveal_strlit("/traffic");
    assert("/traffic"@.len() == 8);
    reveal_strlit("/logs");
    assert("/logs"@.len() == 5);
    reveal_strlit("/rules");
    assert("/rules"@.len() == 6);
    reveal_strlit("/connections");
    assert("/connections"@.len() == 12);
    reveal_strlit("/proxies");
    assert("/proxies"@.len() == 8);
    reveal_strlit("/providers/proxies");
    assert("/providers/proxies"@.len() == 18);
    reveal_strlit("/providers/rules");
    assert("/providers/rules"@.len() == 16);
    reveal_strlit("/script");
    assert("/script"@.len() == 7);
    reveal_strlit("/cache");
    assert("/cache"@.len() == 6);
    reveal_strlit("/profile");
    assert("/profile"@.len() == 8);
    reveal_strlit("/dns/query");
    assert("/dns/query"@.len() == 10);
    reveal_strlit("/memory");
    assert("/memory"@.len() == 7);
    reveal_strlit("/group");
    assert("/group"@.len() == 6);
    reveal_strlit("/group/");
    assert("/group/"@.len() == 7);
    reveal_strlit("/proxies/");
    assert("/proxies/"@.len() == 9);
    reveal_strlit("/connections/");
    assert("/connections/"@.len() == 13);
    reveal_strlit("/providers/proxies/");
    assert("/providers/proxies/"@.len() == 19);
    reveal_strlit("/providers/rules/");
    assert("/providers/rules/"@.len() == 17);
    assert(path.take(prefix.len() as int) =~= prefix);
    assert forall|i: int| 0 <= i < prefix.len() implies path[i] == prefix[i] by {
    }
    if prefix == "/group/"@ {
        assert(path[1] == 'g' && "/version"@[1] == 'v');
        assert(path[1] == 'g' && "/configs"@[1] == 'c');
        assert(path[1] == 'g' && "/traffic"@[1] == 't');
        assert(path[1] == 'g' && "/connections"@[1] == 'c');
        assert(path[1] == 'g' && "/proxies"@[1] == 'p');
        assert(path[1] == 'g' && "/providers/proxies"@[1] == 'p');
        assert(path[1] == 'g' && "/providers/rules"@[1] == 'p');
        assert(path[1] == 'g' && "/script"@[1] == 's');
        assert(path[1] == 'g' && "/profile"@[1] == 'p');
        assert(path[1] == 'g' && "/dns/query"@[1] == 'd');
        assert(path[1] == 'g' && "/memory"@[1] == 'm');
        assert(path.len() >= 9 ==> path.take(9)[1] == 'g' && "/proxies/"@[1] == 'p');
        assert(path.len() >= 13 ==> path.take(13)[1] == 'g' && "/connections/"@[1] == 'c');
        assert(path.len() >= 19 ==> path.take(19)[1] == 'g' && "/providers/proxies/"@[1] == 'p');
        assert(path.len() >= 17 ==> path.take(17)[1] == 'g' && "/providers/rules/"@[1] == 'p');
    }
    if prefix == "/proxies/"@ {
        assert(path[1] == 'p' && "/connections"@[1] == 'c');
        assert(path[4] == 'x' && "/providers/proxies"@[4] == 'v');
        assert(path[4] == 'x' && "/providers/rules"@[4] == 'v');
        assert(path[1] == 'p' && "/dns/query"@[1] == 'd');
        assert(path.len() >= 7 ==> path.take(7)[1] == 'p' && "/group/"@[1] == 'g');
        assert(path.len() >= 13 ==> path.take(13)[1] == 'p' && "/connections/"@[1] == 'c');
        assert(path.len() >= 19 ==> path.take(19)[4] == 'x' && "/providers/proxies/"@[4] == 'v');
        assert(path.len() >= 17 ==> path.take(17)[4] == 'x' && "/providers/rules/"@[4] == 'v');
    }
    if prefix == "/connections/"@ {
        assert(path[1] == 'c' && "/providers/proxies"@[1] == 'p');
        assert(path[1] == 'c' && "/providers/rules"@[1] == 'p');
        assert(path.len() >= 7 ==> path.take(7)[1] == 'c' && "/group/"@[1] == 'g');
        assert(path.len() >= 9 ==> path.take(9)[1] == 'c' && "/proxies/"@[1] == 'p');
        assert(path.len() >= 19 ==> path.take(19)[1] == 'c' && "/providers/proxies/"@[1] == 'p');
        assert(path.len() >= 17 ==> path.take(17)[1] == 'c' && "/providers/rules/"@[1] == 'p');
    }
    if prefix == "/providers/proxies/"@ {
        assert(path.len() >= 7 ==> path.take(7)[1] == 'p' && "/group/"@[1] == 'g');
        assert(path.len() >= 9 ==> path.take(9)[4] == 'v' && "/proxies/"@[4] == 'x');
        assert(path.len() >= 13 ==> path.take(13)[1] == 'p' && "/connections/"@[1] == 'c');
        assert(path.len() >= 17 ==> path.take(17)[11] == 'p' && "/providers/rules/"@[11] == 'r');
    }
    if prefix == "/providers/rules/"@ {
        assert(path[11] == 'r' && "/providers/proxies"@[11] == 'p');
        assert(path.len() >= 7 ==> path.take(7)[1] == 'p' && "/group/"@[1] == 'g');
        assert(path.len() >= 9 ==> path.take(9)[4] == 'v' && "/proxies/"@[4] == 'x');
        assert(path.len() >= 13 ==> path.take(13)[1] == 'p' && "/connections/"@[1] == 'c');
        assert(path.len() >= 19 ==> path.take(19)[11] == 'r' && "/providers/proxies/"@[11] == 'p');
    }
}

/// A name in a path: it does not begin like the path itself, and does not end
/// like a question for a delay.
pub open spec fn is_plain_name(name: Seq<char>, prefix: Seq<char>) -> bool {
    !text::has_prefix(name, prefix) && !text::has_suffix(name, "/delay"@)
}

proof fn lemma_named(prefix: Seq<char>, name: Seq<char>)
    requires
        prefix == "/group/"@ || prefix == "/proxies/"@,
        is_plain_name(name, prefix),
        !text::has_prefix(name + "/delay"@, prefix),
        prefix.len() > 0,
    ensures
        without_prefixes(prefix + name, prefix) == name,
        named(prefix + name, prefix) == (name, false),
        named(prefix + name + "/delay"@, prefix) == (name, true),
{
    reveal_strlit("/delay");
    assert("/delay"@.len() == 6);
    reveal_with_fuel(without_prefixes, 2);
    let p = prefix + name;
    let d = prefix + name + "/delay"@;
    let n = prefix.len() as int;
    assert(p.take(n) =~= prefix && p.skip(n) =~= name);
    assert(d.take(n) =~= prefix && d.skip(n) =~= name + "/delay"@);
    let nd = name + "/delay"@;
    assert(nd.skip(nd.len() - 6) =~= "/delay"@);
    assert(nd.take(nd.len() - 6) =~= name);
}

/// What paths with a name lead to, for every name.
pub proof fn law_named_paths(
    r: http::RequestView,
    secret: Seq<char>,
    name: Seq<char>,
    prefix: Seq<char>,
)
    requires
        prefix == "/group/"@ || prefix == "/proxies/"@,
        is_plain_name(name, prefix),
        !text::has_prefix(name + "/delay"@, prefix),
    ensures
        plain_path(r, secret, "GET"@, prefix + name) ==> route_of(r, secret) == (if prefix
            == "/group/"@ {
            (RouteKind::Group, name)
        } else {
            (RouteKind::Proxy, name)
        }),
        plain_path(r, secret, "GET"@, prefix + name + "/delay"@) ==> route_of(r, secret) == (
        if prefix == "/group/"@ {
            (RouteKind::GroupDelay, name)
        } else {
            (RouteKind::ProxyDelay, name)
        }),
        plain_path(r, secret, "PUT"@, prefix + name) ==> route_of(r, secret) == (
            RouteKind::SelectProxy,
            name,
        ),
{
    lemma_methods();
    lemma_named_path(prefix, name);
    lemma_named_path(prefix, name + "/delay"@);
    assert(prefix + (name + "/delay"@) =~= prefix + name + "/delay"@);
    lemma_named(prefix, name);
}

/// The beginnings of paths with a name differ.
proof fn lemma_prefixes()
    ensures
        "/group/"@ != "/proxies/"@,
        "/group/"@ != "/connections/"@,
        "/group/"@ != "/providers/proxies/"@,
        "/group/"@ != "/providers/rules/"@,
        "/proxies/"@ != "/connections/"@,
        "/proxies/"@ != "/providers/proxies/"@,
        "/proxies/"@ != "/providers/rules/"@,
        "/connections/"@ != "/providers/proxies/"@,
        "/connections/"@ != "/providers/rules/"@,
        "/providers/proxies/"@ != "/providers/rules/"@,
{
    reveal_strlit("/group/");
    assert("/group/"@.len() == 7);
    reveal_strlit("/proxies/");
    assert("/proxies/"@.len() == 9);
    reveal_strlit("/connections/");
    assert("/connections/"@.len() == 13);
    reveal_strlit("/providers/proxies/");
    assert("/providers/proxies/"@.len() == 19);
    reveal_strlit("/providers/rules/");
    assert("/providers/rules/"@.len() == 17);
}

/// What paths with a name lead to that have one method only.
pub proof fn law_other_named_paths(r: http::RequestView, secret: Seq<char>, name: Seq<char>)
    ensures
        !text::has_prefix(name, "/connections/"@) && plain_path(
            r,
            secret,
            "DELETE"@,
            "/connections/"@ + name,
        ) ==> route_of(r, secret) == (RouteKind::DeleteConnection, name),
        !text::has_prefix(name, "/providers/rules/"@) && plain_path(
            r,
            secret,
            "PUT"@,
            "/providers/rules/"@ + name,
        ) ==> route_of(r, secret) == (RouteKind::UpdateRuleProvider, name),
        plain_path(r, secret, "GET"@, "/providers/proxies/"@ + name) ==> route_of(r, secret).0
            == RouteKind::ProxyProvider,
{
    lemma_methods();
    lemma_prefixes();
    lemma_named_path("/connections/"@, name);
    lemma_named_path("/providers/rules/"@, name);
    lemma_named_path("/providers/proxies/"@, name);
    reveal_with_fuel(without_prefixes, 2);
    let c = "/connections/"@;
    let p = "/providers/rules/"@;
    assert((c + name).take(c.len() as int) =~= c && (c + name).skip(c.len() as int) =~= name);
    assert((p + name).take(p.len() as int) =~= p && (p + name).skip(p.len() as int) =~= name);
}

} // verus!
