//! The dashboard's files and the small fixed answers.
use vstd::prelude::*;
use crate::app::clash_api::http;
use crate::app::clash_api::http::HttpResponse;
use crate::app::clash_api::json;
use crate::app::clash_api::json::Json;
use crate::app::clash_api::path;
use crate::app::clash_api::routing;
use crate::text;

verus! {

/// The version as the control API shows it.
pub open spec fn version_json(version: Seq<char>) -> Json {
    Json::Object(
        json::nothing().insert("premium"@, Json::Flag(false)).insert(
            "version"@,
            Json::Text("reflex "@ + version),
        ).insert("meta"@, Json::Flag(true)),
    )
}

/// The version.
pub fn get_version(version: &str) -> (r: HttpResponse)
    ensures
        r@ == json::json_reply(200, "OK"@, version_json(version@)),
{
    let mut t: Vec<char> = text::chars_of("reflex ");
    text::push_text(&mut t, version);
    let mut m = json::no_entries();
    json::put_entry(&mut m, "premium", json::json_flag(false));
    json::put_entry(&mut m, "version", json::json_text(text::string_of(t.as_slice()).as_str()));
    json::put_entry(&mut m, "meta", json::json_flag(true));
    json::json_response(&json::json_object(m))
}

/// A response that holds an object with one empty object.
pub fn empty_object_response(key: &str) -> (r: HttpResponse)
    ensures
        r@ == json::json_reply(
            200,
            "OK"@,
            Json::Object(json::nothing().insert(key@, Json::Object(json::nothing()))),
        ),
{
    let mut m = json::no_entries();
    json::put_entry(&mut m, key, json::json_object(json::no_entries()));
    json::json_response(&json::json_object(m))
}

/// A response that holds an object with one empty list.
pub fn empty_list_response(key: &str) -> (r: HttpResponse)
    ensures
        r@ == json::json_reply(
            200,
            "OK"@,
            Json::Object(json::nothing().insert(key@, Json::List(Seq::empty()))),
        ),
{
    let none: Vec<serde_json::Value> = Vec::new();
    assert(json::held(none@) =~= Seq::<Json>::empty());
    let mut m = json::no_entries();
    json::put_entry(&mut m, key, json::json_list(none));
    json::json_response(&json::json_object(m))
}

/// The refusal of a request that does not give the secret.
pub fn unauthorized_response() -> (r: HttpResponse)
    ensures
        r@ == json::json_reply(
            401,
            "Unauthorized"@,
            json::one_text("message"@, "Unauthorized"@),
        ),
{
    json::message_response(401, "Unauthorized", "message", "Unauthorized")
}

/// The answer at the top: the dashboard, if there is one.
pub open spec fn home_reply(has_ui: bool) -> http::ResponseView {
    if has_ui {
        http::ResponseView {
            status: 302,
            reason: "Found"@,
            headers: seq![
                ("Location"@, "/ui/"@),
                ("Content-Type"@, "text/plain; charset=utf-8"@),
            ],
            body: Seq::empty(),
        }
    } else {
        json::json_reply(200, "OK"@, json::one_text("hello"@, "clash"@))
    }
}

/// The answer at the top: the dashboard, if there is one.
pub fn redirect_to_ui(has_ui: bool) -> (r: HttpResponse)
    ensures
        r@ == home_reply(has_ui),
{
    if has_ui {
        let none: Vec<u8> = Vec::new();
        let r = HttpResponse::new(302, "Found").header("Location", "/ui/").body(
            none,
            "text/plain; charset=utf-8",
        );
        assert(r@ =~= home_reply(has_ui));
        r
    } else {
        json::message_response(200, "OK", "hello", "clash")
    }
}

/// What a request for a file leads to.
pub enum UiStep {
    Respond(HttpResponse),
    /// The file or directory at a path is to be looked at.
    Look(String),
}

/// What follows the dashboard's part of a path, without slashes before it.
pub open spec fn ui_relative(p: Seq<char>) -> Seq<char> {
    routing::without_prefixes(p.skip("/ui"@.len() as int), "/"@)
}

/// Whether a request for a file leads to this step.
pub open spec fn ui_step(dir: Option<Seq<char>>, p: Seq<char>, r: UiStep) -> bool {
    match dir {
        None => r matches UiStep::Respond(x) && x@ == http::text_reply(
            404,
            "Not Found"@,
            "not found"@,
        ),
        Some(dir) => if !text::has_prefix(p, "/ui"@) {
            r matches UiStep::Respond(x) && x@ == http::text_reply(
                404,
                "Not Found"@,
                "not found"@,
            )
        } else if !path::stays_below(ui_relative(p)) {
            r matches UiStep::Respond(x) && x@ == http::text_reply(
                403,
                "Forbidden"@,
                "forbidden"@,
            )
        } else {
            let parts = text::parts(ui_relative(p), '/');
            r matches UiStep::Look(x) && x@ == path::below(dir, parts, parts.len() as int)
        },
    }
}

/// What a request for a file leads to. Only files below the dashboard's
/// directory are handed out.
pub fn serve_ui(ui_dir: Option<&str>, request_path: &str) -> (r: UiStep)
    ensures
        ui_step(
            match ui_dir {
                Some(d) => Some(d@),
                None => None,
            },
            request_path@,
            r,
        ),
{
    let dir: &str = match ui_dir {
        Some(d) => d,
        None => {
            return UiStep::Respond(http::text_response(404, "Not Found", "not found"));
        },
    };
    let chars: Vec<char> = text::chars_of(request_path);
    match text::strip_prefix(chars.as_slice(), "/ui") {
        None => UiStep::Respond(http::text_response(404, "Not Found", "not found")),
        Some(rest) => {
            proof {
                reveal_strlit("/");
            }
            let relative: String = text::string_of(routing::strip_prefixes(rest, "/"));
            match path::safe_join(dir, relative.as_str()) {
                Some(p) => UiStep::Look(p),
                None => UiStep::Respond(http::text_response(403, "Forbidden", "forbidden")),
            }
        },
    }
}

/// The file to read at a path: in a directory, its index.
pub fn ui_file(p: &str, is_dir: bool) -> (r: String)
    ensures
        r@ == (if is_dir {
            path::pushed(p@, "index.html"@)
        } else {
            p@
        }),
{
    if is_dir {
        let mut t: Vec<char> = text::chars_of(p);
        let n: usize = t.len();
        if n > 0 && t[n - 1] != '/' {
            t.push('/');
        }
        text::push_text(&mut t, "index.html");
        assert(t@ =~= path::pushed(p@, "index.html"@));
        text::string_of(t.as_slice())
    } else {
        p.to_owned()
    }
}

/// The response once the file was read. Where it cannot be, the index of the
/// dashboard stands in for it.
pub fn after_ui_read(file: &str, contents: Option<Vec<u8>>, index: Option<Vec<u8>>) -> (r:
    HttpResponse)
    ensures
        r@ == (match (contents, index) {
            (Some(c), _) => http::plain(200, "OK"@, c@, path::media_type(path::extension(file@))),
            (None, Some(i)) => http::plain(200, "OK"@, i@, "text/html; charset=utf-8"@),
            (None, None) => http::text_reply(404, "Not Found"@, "not found"@),
        }),
{
    match contents {
        Some(c) => http::plain_response(200, "OK", c, path::content_type(file)),
        None => match index {
            Some(i) => http::plain_response(200, "OK", i, "text/html; charset=utf-8"),
            None => http::text_response(404, "Not Found", "not found"),
        },
    }
}

/// A file of the dashboard is looked for below its directory, at the path that
/// follows `/ui` in the request, however many slashes stand between them. A path
/// that goes up anywhere is forbidden, and one that begins otherwise is not
/// found.
pub proof fn law_dashboard_files(
    dir: Seq<char>,
    slashes: Seq<char>,
    cs: Seq<Seq<char>>,
    p: Seq<char>,
    r: UiStep,
)
    requires
        dir.len() > 0,
        dir.last() != '/',
        forall|i: int| 0 <= i < slashes.len() ==> #[trigger] slashes[i] == '/',
        cs.len() > 0,
        cs[0].len() > 0,
        forall|i: int| 0 <= i < cs.len() ==> !(#[trigger] cs[i]).contains('/'),
        p == "/ui"@ + (slashes + text::joined(cs, '/')),
        ui_step(Some(dir), p, r),
    ensures
        (forall|i: int| 0 <= i < cs.len() ==> path::leads_down(#[trigger] cs[i])) ==> (
        r matches UiStep::Look(x) && x@ == dir + seq!['/'] + text::joined(cs, '/')),
        (exists|i: int| 0 <= i < cs.len() && #[trigger] cs[i] == ".."@) ==> (
        r matches UiStep::Respond(x) && x@.status == 403),
{
    reveal_strlit("/ui");
    reveal_strlit("/");
    let rel = text::joined(cs, '/');
    assert(p.take(3) =~= "/ui"@);
    assert(p.skip(3) =~= slashes + rel);
    assert(rel.len() > 0 && rel[0] == cs[0][0]);
    assert(cs[0].contains(cs[0][0]));
    lemma_slashes(slashes, rel);
    if forall|i: int| 0 <= i < cs.len() ==> path::leads_down(#[trigger] cs[i]) {
        path::law_relative_path_is_joined(dir, cs);
    }
    if exists|i: int| 0 <= i < cs.len() && #[trigger] cs[i] == ".."@ {
        let i = choose|i: int| 0 <= i < cs.len() && #[trigger] cs[i] == ".."@;
        path::law_going_up_is_refused(cs, i);
    }
}

proof fn lemma_slashes(slashes: Seq<char>, rel: Seq<char>)
    requires
        forall|i: int| 0 <= i < slashes.len() ==> #[trigger] slashes[i] == '/',
        rel.len() > 0,
        rel[0] != '/',
    ensures
        routing::without_prefixes(slashes + rel, "/"@) == rel,
    decreases slashes.len(),
{
    reveal_strlit("/");
    let s = slashes + rel;
    assert("/"@.len() == 1 && "/"@[0] == '/');
    if slashes.len() == 0 {
        assert(s =~= rel);
        if text::has_prefix(rel, "/"@) {
            assert(rel.take(1)[0] == rel[0]);
        }
    } else {
        let rest = slashes.skip(1);
        assert forall|i: int| 0 <= i < rest.len() implies #[trigger] rest[i] == '/' by {
            assert(slashes[i + 1] == '/');
        }
        assert(slashes[0] == '/');
        assert(s.take(1) =~= "/"@);
        assert(s.skip(1) =~= rest + rel);
        lemma_slashes(rest, rel);
    }
}

} // verus!
