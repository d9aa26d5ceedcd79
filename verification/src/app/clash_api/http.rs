//! Requests and responses of HTTP/1.1.
use vstd::prelude::*;
use crate::text;

verus! {

/// The head of a request is at most this long.
pub const MAX_HEAD: usize = 65536;

/// A request is at most this long.
pub const MAX_REQUEST: usize = 2097152;

/// A request.
pub struct HttpRequest {
    pub method: String,
    pub path: String,
    /// Names in small letters, and values; of a name the last one counts.
    pub headers: Vec<(String, String)>,
    pub body: Vec<u8>,
}

/// Names and values.
pub type Fields = Seq<(Seq<char>, Seq<char>)>;

/// A request by its characters.
#[verifier::ext_equal]
pub ghost struct RequestView {
    pub method: Seq<char>,
    pub path: Seq<char>,
    pub headers: Fields,
    pub body: Seq<u8>,
}

/// Names and values by their characters.
pub open spec fn fields(v: Seq<(String, String)>) -> Fields {
    v.map_values(|f: (String, String)| (f.0@, f.1@))
}

impl View for HttpRequest {
    type V = RequestView;

    open spec fn view(&self) -> RequestView {
        RequestView {
            method: self.method@,
            path: self.path@,
            headers: fields(self.headers@),
            body: self.body@,
        }
    }
}

/// Why there is no request.
#[derive(Debug, PartialEq, Eq)]
pub enum RequestError {
    ClosedBeforeRequest,
    ClosedBeforeBody,
    HeadersTooLarge,
    BodyTooLarge,
    /// The head is no text; with the fault that was found.
    NotText(String),
    MissingMethod,
    MissingPath,
}

impl RequestError {
    /// The message.
    pub fn message(&self) -> (r: &str)
        ensures
            r@ == (match *self {
                RequestError::ClosedBeforeRequest => "connection closed before request"@,
                RequestError::ClosedBeforeBody => "connection closed before body"@,
                RequestError::HeadersTooLarge => "request headers too large"@,
                RequestError::BodyTooLarge => "request body too large"@,
                RequestError::NotText(fault) => fault@,
                RequestError::MissingMethod => "missing method"@,
                RequestError::MissingPath => "missing path"@,
            }),
    {
        match self {
            RequestError::ClosedBeforeRequest => "connection closed before request",
            RequestError::ClosedBeforeBody => "connection closed before body",
            RequestError::HeadersTooLarge => "request headers too large",
            RequestError::BodyTooLarge => "request body too large",
            RequestError::NotText(fault) => fault.as_str(),
            RequestError::MissingMethod => "missing method",
            RequestError::MissingPath => "missing path",
        }
    }
}

/// What the bytes read so far come to.
pub enum RequestStep {
    /// More is to be read for the head.
    NeedHead,
    /// More is to be read for the body.
    NeedBody,
    Failed(RequestError),
    Ready(HttpRequest),
}

/// The value of a name among the first `n` fields: the last one.
pub open spec fn field(f: Fields, n: int, name: Seq<char>) -> Option<Seq<char>>
    decreases n,
{
    if n <= 0 {
        None
    } else if f[n - 1].0 == name {
        Some(f[n - 1].1)
    } else {
        field(f, n - 1, name)
    }
}

/// The value of a header.
pub open spec fn header_of(r: RequestView, name: Seq<char>) -> Option<Seq<char>> {
    field(r.headers, r.headers.len() as int, name)
}

/// Whether a request asks for a WebSocket.
pub open spec fn wants_websocket(r: RequestView) -> bool {
    header_of(r, "upgrade"@) matches Some(v) && text::lowercase(v) == text::lowercase(
        "websocket"@,
    )
}

impl HttpRequest {
    /// The value of a header; its name is given in small letters.
    pub fn header(&self, name: &str) -> (r: Option<&str>)
        ensures
            match r {
                Some(v) => header_of(self@, name@) == Some(v@),
                None => header_of(self@, name@) is None,
            },
    {
        let mut n: usize = self.headers.len();
        while n > 0
            invariant
                n <= self.headers@.len(),
                header_of(self@, name@) == field(fields(self.headers@), n as int, name@),
            decreases n,
        {
            if text::same_text(self.headers[n - 1].0.as_str(), name) {
                return Some(self.headers[n - 1].1.as_str());
            }
            n = n - 1;
        }
        None
    }

    /// Whether the request asks for a WebSocket.
    pub fn is_websocket(&self) -> (r: bool)
        ensures
            r == wants_websocket(self@),
    {
        match self.header("upgrade") {
            Some(v) => text::same_text_ignoring_case(v, "websocket"),
            None => false,
        }
    }
}

// Reading

/// Whether the head ends at `i`: two ends of lines in a row.
pub open spec fn ends_at(b: Seq<u8>, i: int) -> bool {
    &&& 0 <= i
    &&& i + 4 <= b.len()
    &&& b[i] == 13 && b[i + 1] == 10 && b[i + 2] == 13 && b[i + 3] == 10
}

/// Where the head ends, if it does: at the first such place.
pub open spec fn is_head_end(b: Seq<u8>, r: Option<usize>) -> bool {
    match r {
        Some(i) => ends_at(b, i as int) && forall|k: int| 0 <= k < i ==> !#[trigger] ends_at(b, k),
        None => forall|k: int| !#[trigger] ends_at(b, k),
    }
}

/// Where the head ends.
pub fn find_header_end(b: &[u8]) -> (r: Option<usize>)
    ensures
        is_head_end(b@, r),
{
    let n: usize = b.len();
    let mut i: usize = 0;
    while i < n && n - i >= 4
        invariant
            n == b@.len(),
            i <= n,
            forall|k: int| 0 <= k < i ==> !#[trigger] ends_at(b@, k),
        decreases n - i,
    {
        if b[i] == 13 && b[i + 1] == 10 && b[i + 2] == 13 && b[i + 3] == 10 {
            assert(ends_at(b@, i as int));
            return Some(i);
        }
        i = i + 1;
    }
    None
}

/// The first end of a line at or after `i`, or the length.
pub open spec fn line_end(s: Seq<char>, i: int) -> int
    decreases s.len() - i,
{
    if i < 0 || i + 1 >= s.len() {
        s.len() as int
    } else if s[i] == '\r' && s[i + 1] == '\n' {
        i
    } else {
        line_end(s, i + 1)
    }
}

pub proof fn lemma_line_end(s: Seq<char>, i: int)
    requires
        0 <= i <= s.len(),
    ensures
        i <= line_end(s, i) <= s.len(),
        line_end(s, i) < s.len() ==> line_end(s, i) + 2 <= s.len(),
    decreases s.len() - i,
{
    if i + 1 < s.len() && !(s[i] == '\r' && s[i + 1] == '\n') {
        lemma_line_end(s, i + 1);
    }
}

/// The fields of the lines of a text: name in small letters and value, without
/// space around them. Lines without a colon are passed over.
pub open spec fn fields_in(s: Seq<char>) -> Fields
    decreases s.len(),
{
    proof {
        lemma_line_end(s, 0);
    }
    let e = line_end(s, 0);
    let first = field_in(s.take(e));
    if e >= s.len() {
        first
    } else {
        first + fields_in(s.skip(e + 2))
    }
}

/// The field of a line, if it is one.
pub open spec fn field_in(line: Seq<char>) -> Fields {
    let c = text::index_of(line, ':');
    if c < line.len() {
        seq![
            (
                text::lowercase(text::trimmed(line.take(c))),
                text::trimmed(line.skip(c + 1)),
            ),
        ]
    } else {
        Seq::empty()
    }
}

/// The fields behind the first line of a head.
pub open spec fn head_fields(s: Seq<char>) -> Fields {
    let e = line_end(s, 0);
    if e >= s.len() {
        Seq::empty()
    } else {
        fields_in(s.skip(e + 2))
    }
}

/// The length of the body that a head gives; none where there is no number.
pub open spec fn body_len(f: Fields) -> nat {
    match field(f, f.len() as int, "content-length"@) {
        Some(v) => match text::unsigned_value(v, usize::MAX as nat) {
            Some(n) => n,
            None => 0,
        },
        None => 0,
    }
}

/// The fields of text.
fn read_fields(s: &[char]) -> (r: Vec<(String, String)>)
    ensures
        fields(r@) == fields_in(s@),
{
    let mut out: Vec<(String, String)> = Vec::new();
    let n: usize = s.len();
    let mut at: usize = 0;
    let ghost all = fields_in(s@);
    assert(s@.skip(0) =~= s@);
    assert(fields(out@) + all =~= all);
    loop
        invariant
            n == s@.len(),
            at <= n,
            all == fields(out@) + fields_in(s@.skip(at as int)),
            all == fields_in(s@),
        decreases n - at,
    {
        let rest: &[char] = text::slice_of(s, at, n);
        let len: usize = rest.len();
        assert(rest@ =~= s@.skip(at as int));
        let mut e: usize = 0;
        while e < len && len - e > 1 && !(rest[e] == '\r' && rest[e + 1] == '\n')
            invariant
                len == rest@.len(),
                e <= len,
                line_end(rest@, 0) == line_end(rest@, e as int),
            decreases len - e,
        {
            e = e + 1;
        }
        let last: bool = e >= len || len - e <= 1;
        let stop: usize = if last {
            len
        } else {
            e
        };
        assert(stop == line_end(rest@, 0));
        let line: &[char] = text::slice_of(rest, 0, stop);
        assert(line@ =~= rest@.take(stop as int));
        let ghost before = fields(out@);
        let c: usize = text::find_from(line, ':', 0);
        if c < stop {
            let name: &[char] = text::trim(text::slice_of(line, 0, c));
            let value: &[char] = text::trim(text::slice_of(line, c + 1, stop));
            assert(line@.subrange(0, c as int) =~= line@.take(c as int));
            assert(line@.subrange(c + 1, stop as int) =~= line@.skip(c + 1));
            let low: Vec<char> = text::lowercase_chars(name);
            out.push((text::string_of(low.as_slice()), text::string_of(value)));
        }
        assert(fields(out@) =~= before + field_in(line@));
        if last {
            assert(all =~= fields(out@));
            return out;
        }
        proof {
            lemma_line_end(rest@, 0);
            assert(rest@.skip(stop + 2) =~= s@.skip(at + stop + 2));
            assert(fields(out@) + fields_in(s@.skip(at + stop + 2)) =~= before + fields_in(rest@));
        }
        at = at + stop + 2;
    }
}

/// The first word of a text and what follows it.
fn first_word(s: &[char]) -> (r: Option<(Vec<char>, Vec<char>)>)
    ensures
        match r {
            Some((w, rest)) => text::words(s@) == seq![w@] + text::words(rest@),
            None => text::words(s@).len() == 0,
        },
{
    let t: &[char] = text::trim_start(s);
    let n: usize = t.len();
    proof {
        text::lemma_trimmed_start_len(s@);
        text::lemma_space_from(t@, 0);
    }
    if n == 0 {
        return None;
    }
    let mut i: usize = 0;
    while i < n && !text::space_char(t[i])
        invariant
            n == t@.len(),
            i <= n,
            text::space_from(t@, 0) == text::space_from(t@, i as int),
        decreases n - i,
    {
        i = i + 1;
    }
    let w: Vec<char> = vstd::slice::slice_to_vec(text::slice_of(t, 0, i));
    let rest: Vec<char> = vstd::slice::slice_to_vec(text::slice_of(t, i, n));
    assert(w@ =~= t@.take(i as int));
    assert(rest@ =~= t@.skip(i as int));
    Some((w, rest))
}

/// Whether `step` is what the bytes read so far come to.
pub open spec fn comes_to(b: Seq<u8>, step: RequestStep) -> bool {
    exists|end: Option<usize>| #[trigger]
        is_head_end(b, end) && match end {
            None => if b.len() > MAX_HEAD {
                step == RequestStep::Failed(RequestError::HeadersTooLarge)
            } else {
                step is NeedHead
            },
            Some(e) => if !vstd::utf8::valid_utf8(b.take(e as int)) {
                step matches RequestStep::Failed(RequestError::NotText(fault)) && fault@
                    == text::utf8_fault(b.take(e as int))
            } else {
                head_comes_to(b, e as int, vstd::utf8::decode_utf8(b.take(e as int)), step)
            },
        }
}

/// Whether `step` is what the bytes read so far come to once the head is there.
pub open spec fn head_comes_to(b: Seq<u8>, e: int, head: Seq<char>, step: RequestStep) -> bool {
    let words = text::words(head.take(line_end(head, 0)));
    let f = head_fields(head);
    let n = body_len(f);
    if words.len() == 0 {
        step == RequestStep::Failed(RequestError::MissingMethod)
    } else if words.len() == 1 {
        step == RequestStep::Failed(RequestError::MissingPath)
    } else if b.len() > MAX_REQUEST {
        step == RequestStep::Failed(RequestError::BodyTooLarge)
    } else if b.len() < e + 4 + n {
        step is NeedBody
    } else {
        step matches RequestStep::Ready(r) && r@ == (RequestView {
            method: words[0],
            path: words[1],
            headers: f,
            body: b.subrange(e + 4, e + 4 + n),
        })
    }
}

/// What the bytes read so far come to: a request, or what is still missing.
pub fn read_request(b: &[u8]) -> (r: RequestStep)
    ensures
        comes_to(b@, r),
{
    let len: usize = b.len();
    let found: Option<usize> = find_header_end(b);
    assert(is_head_end(b@, found));
    let e: usize = match found {
        None => {
            if len > MAX_HEAD {
                return RequestStep::Failed(RequestError::HeadersTooLarge);
            }
            return RequestStep::NeedHead;
        },
        Some(e) => e,
    };
    assert(ends_at(b@, e as int));
    let head_bytes: &[u8] = vstd::slice::slice_subrange(b, 0, e);
    assert(head_bytes@ =~= b@.take(e as int));
    match text::utf8_text(head_bytes) {
        Err(fault) => RequestStep::Failed(RequestError::NotText(fault)),
        Ok(head) => read_head(b, e, head.as_str()),
    }
}

fn read_head(b: &[u8], e: usize, head: &str) -> (r: RequestStep)
    requires
        e + 4 <= b@.len(),
    ensures
        head_comes_to(b@, e as int, head@, r),
{
    let len: usize = b.len();
    let chars: Vec<char> = text::chars_of(head);
    let n: usize = chars.len();
    let mut k: usize = 0;
    while k < n && n - k > 1 && !(chars[k] == '\r' && chars[k + 1] == '\n')
        invariant
            n == chars@.len(),
            k <= n,
            line_end(chars@, 0) == line_end(chars@, k as int),
        decreases n - k,
    {
        k = k + 1;
    }
    let last: bool = k >= n || n - k <= 1;
    let stop: usize = if last {
        n
    } else {
        k
    };
    assert(stop == line_end(head@, 0));
    let line: &[char] = text::slice_of(chars.as_slice(), 0, stop);
    assert(line@ =~= head@.take(stop as int));
    let (method, after): (Vec<char>, Vec<char>) = match first_word(line) {
        Some(x) => x,
        None => {
            return RequestStep::Failed(RequestError::MissingMethod);
        },
    };
    let (path, _): (Vec<char>, Vec<char>) = match first_word(after.as_slice()) {
        Some(x) => x,
        None => {
            return RequestStep::Failed(RequestError::MissingPath);
        },
    };
    let headers: Vec<(String, String)> = if last {
        let none: Vec<(String, String)> = Vec::new();
        assert(fields(none@) =~= head_fields(head@));
        none
    } else {
        let rest: &[char] = text::slice_of(chars.as_slice(), stop + 2, n);
        assert(rest@ =~= head@.skip(stop + 2));
        read_fields(rest)
    };
    assert(fields(headers@) == head_fields(head@));
    if len > MAX_REQUEST {
        return RequestStep::Failed(RequestError::BodyTooLarge);
    }
    let content: usize = content_len(&headers);
    let room: usize = len - e - 4;
    if content > room {
        return RequestStep::NeedBody;
    }
    let body: Vec<u8> = vstd::slice::slice_to_vec(
        vstd::slice::slice_subrange(b, e + 4, e + 4 + content),
    );
    let req = HttpRequest {
        method: text::string_of(method.as_slice()),
        path: text::string_of(path.as_slice()),
        headers,
        body,
    };
    RequestStep::Ready(req)
}

fn content_len(headers: &Vec<(String, String)>) -> (r: usize)
    ensures
        r == body_len(fields(headers@)),
{
    let ghost f = fields(headers@);
    let mut n: usize = headers.len();
    while n > 0
        invariant
            n <= headers@.len(),
            f == fields(headers@),
            field(f, f.len() as int, "content-length"@) == field(f, n as int, "content-length"@),
        decreases n,
    {
        if text::same_text(headers[n - 1].0.as_str(), "content-length") {
            let v: Vec<char> = text::chars_of(headers[n - 1].1.as_str());
            return match text::parse_unsigned(v.as_slice(), usize::MAX as u64) {
                Some(x) => x as usize,
                None => 0,
            };
        }
        n = n - 1;
    }
    0
}

/// The error when the connection ends while more is to be read.
pub fn closed_during(step: &RequestStep) -> (r: Option<RequestError>)
    ensures
        r == (match *step {
            RequestStep::NeedHead => Some(RequestError::ClosedBeforeRequest),
            RequestStep::NeedBody => Some(RequestError::ClosedBeforeBody),
            _ => None,
        }),
{
    match step {
        RequestStep::NeedHead => Some(RequestError::ClosedBeforeRequest),
        RequestStep::NeedBody => Some(RequestError::ClosedBeforeBody),
        _ => None,
    }
}

// Writing

/// A response.
pub struct HttpResponse {
    pub status: u16,
    pub reason: &'static str,
    pub headers: Vec<(String, String)>,
    pub body: Vec<u8>,
}

/// A response by its characters.
#[verifier::ext_equal]
pub ghost struct ResponseView {
    pub status: u16,
    pub reason: Seq<char>,
    pub headers: Fields,
    pub body: Seq<u8>,
}

impl View for HttpResponse {
    type V = ResponseView;

    open spec fn view(&self) -> ResponseView {
        ResponseView {
            status: self.status,
            reason: self.reason@,
            headers: fields(self.headers@),
            body: self.body@,
        }
    }
}

/// The lines of the first `n` fields.
pub open spec fn field_lines(f: Fields, n: int) -> Seq<char>
    decreases n,
{
    if n <= 0 {
        Seq::empty()
    } else {
        field_lines(f, n - 1) + f[n - 1].0 + ": "@ + f[n - 1].1 + "\r\n"@
    }
}

/// The head of a response.
pub open spec fn response_head(r: ResponseView) -> Seq<char> {
    "HTTP/1.1 "@ + text::decimal(r.status as nat) + " "@ + r.reason + "\r\nContent-Length: "@
        + text::decimal(r.body.len())
        + "\r\nConnection: close\r\nAccess-Control-Allow-Origin: *\r\n"@ + field_lines(
        r.headers,
        r.headers.len() as int,
    ) + "\r\n"@
}

/// A response as bytes.
pub open spec fn response_bytes(r: ResponseView) -> Seq<u8> {
    vstd::utf8::encode_utf8(response_head(r)) + r.body
}

impl HttpResponse {
    /// A response without headers and body.
    pub fn new(status: u16, reason: &'static str) -> (r: Self)
        ensures
            r@ == (ResponseView {
                status,
                reason: reason@,
                headers: Seq::empty(),
                body: Seq::empty(),
            }),
    {
        let r = HttpResponse { status, reason, headers: Vec::new(), body: Vec::new() };
        assert(r@ =~= ResponseView {
            status,
            reason: reason@,
            headers: Seq::empty(),
            body: Seq::empty(),
        });
        r
    }

    /// The response with a header behind the others.
    pub fn header(self, name: &str, value: &str) -> (r: Self)
        ensures
            r@ == (ResponseView { headers: self@.headers.push((name@, value@)), ..self@ }),
    {
        let mut out = self;
        let ghost before = out@;
        out.headers.push((name.to_owned(), value.to_owned()));
        assert(out@ =~= ResponseView { headers: before.headers.push((name@, value@)), ..before });
        out
    }

    /// The response with a body and the header that gives its type.
    pub fn body(self, body: Vec<u8>, content_type: &str) -> (r: Self)
        ensures
            r@ == (ResponseView {
                headers: self@.headers.push(("Content-Type"@, content_type@)),
                body: body@,
                ..self@
            }),
    {
        let mut out = self.header("Content-Type", content_type);
        out.body = body;
        out
    }

    /// The response as bytes.
    pub fn to_bytes(&self) -> (r: Vec<u8>)
        ensures
            r@ == response_bytes(self@),
    {
        let mut t: Vec<char> = text::chars_of("HTTP/1.1 ");
        let status: Vec<char> = text::decimal_chars(self.status as u64);
        text::push_chars(&mut t, status.as_slice());
        text::push_text(&mut t, " ");
        text::push_text(&mut t, self.reason);
        text::push_text(&mut t, "\r\nContent-Length: ");
        let len: Vec<char> = text::decimal_chars(self.body.len() as u64);
        text::push_chars(&mut t, len.as_slice());
        text::push_text(
            &mut t,
            "\r\nConnection: close\r\nAccess-Control-Allow-Origin: *\r\n",
        );
        let ghost start = t@;
        let ghost f = fields(self.headers@);
        let mut i: usize = 0;
        assert(t@ =~= start + field_lines(f, 0));
        while i < self.headers.len()
            invariant
                i <= self.headers@.len(),
                f == fields(self.headers@),
                t@ == start + field_lines(f, i as int),
            decreases self.headers@.len() - i,
        {
            text::push_text(&mut t, self.headers[i].0.as_str());
            text::push_text(&mut t, ": ");
            text::push_text(&mut t, self.headers[i].1.as_str());
            text::push_text(&mut t, "\r\n");
            i = i + 1;
            assert(t@ =~= start + field_lines(f, i as int));
        }
        text::push_text(&mut t, "\r\n");
        assert(t@ =~= response_head(self@));
        let head: String = text::string_of(t.as_slice());
        let mut out: Vec<u8> = vstd::slice::slice_to_vec(head.as_str().as_bytes());
        out.extend_from_slice(self.body.as_slice());
        assert(out@ =~= response_bytes(self@));
        out
    }
}

/// A response with a body of a type and no other header.
pub open spec fn plain(
    status: u16,
    reason: Seq<char>,
    body: Seq<u8>,
    content_type: Seq<char>,
) -> ResponseView {
    ResponseView { status, reason, headers: seq![("Content-Type"@, content_type)], body }
}

/// A response that holds text.
pub open spec fn text_reply(status: u16, reason: Seq<char>, t: Seq<char>) -> ResponseView {
    plain(status, reason, vstd::utf8::encode_utf8(t), "text/plain; charset=utf-8"@)
}

/// A response that holds nothing.
pub open spec fn empty_reply(status: u16, reason: Seq<char>) -> ResponseView {
    plain(status, reason, Seq::empty(), "text/plain; charset=utf-8"@)
}

/// A response with a body of a type.
pub fn plain_response(
    status: u16,
    reason: &'static str,
    body: Vec<u8>,
    content_type: &str,
) -> (r: HttpResponse)
    ensures
        r@ == plain(status, reason@, body@, content_type@),
{
    let r = HttpResponse::new(status, reason).body(body, content_type);
    assert(r@ =~= plain(status, reason@, body@, content_type@));
    r
}

/// A response that holds text.
pub fn text_response(status: u16, reason: &'static str, t: &str) -> (r: HttpResponse)
    ensures
        r@ == text_reply(status, reason@, t@),
{
    plain_response(
        status,
        reason,
        vstd::slice::slice_to_vec(t.as_bytes()),
        "text/plain; charset=utf-8",
    )
}

/// A response that holds nothing.
pub fn empty_response(status: u16, reason: &'static str) -> (r: HttpResponse)
    ensures
        r@ == empty_reply(status, reason@),
{
    let none: Vec<u8> = Vec::new();
    assert(none@ =~= Seq::<u8>::empty());
    plain_response(status, reason, none, "text/plain; charset=utf-8")
}

/// The response to the question which requests another site may make.
pub open spec fn preflight_reply() -> ResponseView {
    ResponseView {
        status: 204,
        reason: "No Content"@,
        headers: seq![
            ("Access-Control-Allow-Methods"@, "GET, POST, PUT, PATCH, DELETE, OPTIONS"@),
            ("Access-Control-Allow-Headers"@, "Content-Type, Authorization"@),
            ("Content-Type"@, "text/plain; charset=utf-8"@),
        ],
        body: Seq::empty(),
    }
}

/// The response to the question which requests another site may make.
pub fn preflight_response() -> (r: HttpResponse)
    ensures
        r@ == preflight_reply(),
{
    let none: Vec<u8> = Vec::new();
    let r = HttpResponse::new(204, "No Content").header(
        "Access-Control-Allow-Methods",
        "GET, POST, PUT, PATCH, DELETE, OPTIONS",
    ).header("Access-Control-Allow-Headers", "Content-Type, Authorization").body(
        none,
        "text/plain; charset=utf-8",
    );
    assert(r@ =~= preflight_reply());
    r
}

/// A request that has been read does not change when more bytes follow: what is
/// read does not depend on the pieces in which the bytes arrive.
pub proof fn law_request_does_not_change(b: Seq<u8>, more: Seq<u8>, step: RequestStep)
    requires
        comes_to(b, step),
        step is Ready,
        b.len() + more.len() <= MAX_REQUEST,
    ensures
        comes_to(b + more, step),
{
    let end = choose|end: Option<usize>| #[trigger]
        is_head_end(b, end) && match end {
            None => if b.len() > MAX_HEAD {
                step == RequestStep::Failed(RequestError::HeadersTooLarge)
            } else {
                step is NeedHead
            },
            Some(e) => if !vstd::utf8::valid_utf8(b.take(e as int)) {
                step matches RequestStep::Failed(RequestError::NotText(fault)) && fault@
                    == text::utf8_fault(b.take(e as int))
            } else {
                head_comes_to(b, e as int, vstd::utf8::decode_utf8(b.take(e as int)), step)
            },
        };
    let e = end->0 as int;
    let all = b + more;
    let head = vstd::utf8::decode_utf8(b.take(e));
    let n = body_len(head_fields(head));
    assert(all.take(e) =~= b.take(e));
    assert(ends_at(b, e));
    assert(ends_at(all, e));
    assert forall|i: int| 0 <= i < e implies !#[trigger] ends_at(all, i) by {
        assert(!ends_at(b, i));
    }
    assert(is_head_end(all, end));
    assert(all.subrange(e + 4, e + 4 + n) =~= b.subrange(e + 4, e + 4 + n));
    assert(head_comes_to(all, e, head, step));
}

} // verus!
