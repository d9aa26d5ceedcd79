//! How requests are written (RFC 9112), and that a request is read as it was
//! written.
use vstd::prelude::*;
use crate::app::clash_api::http;
use crate::app::clash_api::http::{RequestStep, RequestView};
use crate::app::sniff_forms;
use crate::text;

verus! {

/// A word: not empty, and without white space.
pub open spec fn is_word(s: Seq<char>) -> bool {
    s.len() > 0 && forall|i: int| 0 <= i < s.len() ==> !text::is_space(#[trigger] s[i])
}

/// A name of a header: a word without colon.
pub open spec fn is_name(s: Seq<char>) -> bool {
    is_word(s) && !s.contains(':')
}

/// A value of a header: without line end, and without white space at either end.
pub open spec fn is_value(s: Seq<char>) -> bool {
    !s.contains('\r') && (s.len() > 0 ==> !text::is_space(s[0]) && !text::is_space(s.last()))
}

/// Headers, each on a line of its own.
pub open spec fn header_lines(hs: http::Fields) -> Seq<char>
    decreases hs.len(),
{
    if hs.len() == 0 {
        Seq::empty()
    } else {
        seq!['\r', '\n'] + hs[0].0 + seq![':', ' '] + hs[0].1 + header_lines(hs.skip(1))
    }
}

/// The head of a request.
pub open spec fn request_head(
    method: Seq<char>,
    path: Seq<char>,
    version: Seq<char>,
    hs: http::Fields,
) -> Seq<char> {
    method + seq![' '] + path + seq![' '] + version + header_lines(hs)
}

/// A request: its head, an empty line, its body.
pub open spec fn request_bytes(head: Seq<char>, body: Seq<u8>) -> Seq<u8> {
    vstd::utf8::encode_utf8(head) + seq![13u8, 10u8, 13u8, 10u8] + body
}

/// Headers with their names in small letters.
pub open spec fn small_names(hs: http::Fields) -> http::Fields {
    hs.map_values(|f: (Seq<char>, Seq<char>)| (text::lowercase(f.0), f.1))
}

/// Whether headers can be written.
pub open spec fn writable(hs: http::Fields) -> bool {
    forall|i: int| 0 <= i < hs.len() ==> is_name((#[trigger] hs[i]).0) && is_value(hs[i].1)
}

proof fn lemma_line_end(s: Seq<char>, i: int, n: int)
    requires
        0 <= i <= n <= s.len(),
        forall|k: int| i <= k < n ==> s[k] != '\r',
        n == s.len() || (n + 1 < s.len() && s[n] == '\r' && s[n + 1] == '\n'),
    ensures
        http::line_end(s, i) == n,
    decreases n - i,
{
    if i < n {
        lemma_line_end(s, i + 1, n);
    }
}

proof fn lemma_space_at(s: Seq<char>, i: int, n: int)
    requires
        0 <= i <= n <= s.len(),
        forall|k: int| i <= k < n ==> !text::is_space(#[trigger] s[k]),
        n == s.len() || text::is_space(s[n]),
    ensures
        text::space_from(s, i) == n,
    decreases n - i,
{
    if i < n {
        lemma_space_at(s, i + 1, n);
    }
}

/// The first word of a text.
proof fn lemma_word(gap: Seq<char>, w: Seq<char>, rest: Seq<char>)
    requires
        forall|i: int| 0 <= i < gap.len() ==> text::is_space(#[trigger] gap[i]),
        is_word(w),
        rest.len() == 0 || text::is_space(rest[0]),
    ensures
        text::words(gap + w + rest) == seq![w] + text::words(rest),
{
    let t = w + rest;
    assert(gap + w + rest =~= gap + t);
    assert(t[0] == w[0]);
    sniff_forms::lemma_trimmed_start(gap, t);
    assert forall|k: int| 0 <= k < w.len() implies !text::is_space(#[trigger] t[k]) by {
        assert(t[k] == w[k]);
    }
    lemma_space_at(t, 0, w.len() as int);
    assert(t.take(w.len() as int) =~= w);
    assert(t.skip(w.len() as int) =~= rest);
}

/// The field of one line.
proof fn lemma_field(name: Seq<char>, value: Seq<char>)
    requires
        is_name(name),
        is_value(value),
    ensures
        http::field_in(name + seq![':', ' '] + value) == seq![(text::lowercase(name), value)],
{
    let line = name + seq![':', ' '] + value;
    let n = name.len() as int;
    assert forall|k: int| 0 <= k < n implies line[k] != ':' by {
        assert(name.contains(name[k]));
    }
    text::lemma_index_of(line, ':', n);
    let e = Seq::<char>::empty();
    assert(line.take(n) =~= name);
    assert(line.skip(n + 1) =~= seq![' '] + value);
    assert(name =~= e + name);
    assert(name =~= name + e);
    sniff_forms::lemma_trimmed_start(e, name);
    sniff_forms::lemma_trimmed_end(name, e);
    if value.len() > 0 {
        sniff_forms::lemma_trimmed_start(seq![' '], value);
        assert(value =~= value + e);
        sniff_forms::lemma_trimmed_end(value, e);
    } else {
        let g = seq![' '] + value;
        assert(g.skip(1) =~= e);
        assert(text::trimmed_start(e) =~= e);
        assert(text::trimmed_start(g) =~= e);
        assert(text::trimmed_end(e) =~= e);
        assert(value =~= e);
    }
}

/// The fields of headers.
proof fn lemma_fields(hs: http::Fields)
    requires
        hs.len() > 0,
        writable(hs),
    ensures
        http::fields_in(header_lines(hs).skip(2)) == small_names(hs),
    decreases hs.len(),
{
    let name = hs[0].0;
    let value = hs[0].1;
    let line = name + seq![':', ' '] + value;
    let rest = hs.skip(1);
    let s = header_lines(hs).skip(2);
    let n = line.len() as int;
    assert(s =~= line + header_lines(rest));
    assert(is_name(hs[0].0));
    assert forall|k: int| 0 <= k < n implies s[k] != '\r' by {
        if k < name.len() {
            assert(!text::is_space(name[k]));
        } else if k >= name.len() + 2 {
            assert(value.contains(value[k - name.len() - 2]));
        }
    }
    lemma_line_end(s, 0, n);
    assert(s.take(n) =~= line);
    lemma_field(name, value);
    if rest.len() == 0 {
        assert(small_names(hs) =~= seq![(text::lowercase(name), value)]);
    } else {
        assert forall|i: int| 0 <= i < rest.len() implies is_name((#[trigger] rest[i]).0)
            && is_value(rest[i].1) by {
            assert(rest[i] == hs[i + 1]);
        }
        lemma_fields(rest);
        assert(s.skip(n + 2) =~= header_lines(rest).skip(2));
        assert(small_names(hs) =~= seq![(text::lowercase(name), value)] + small_names(rest));
    }
}

/// Where line ends stand among headers.
proof fn lemma_breaks(hs: http::Fields)
    requires
        writable(hs),
    ensures
        ({
            let s = header_lines(hs);
            forall|k: int|
                0 <= k < s.len() && #[trigger] s[k] == '\r' ==> k + 2 < s.len() && s[k + 2] != '\r'
        }),
    decreases hs.len(),
{
    if hs.len() > 0 {
        let name = hs[0].0;
        let value = hs[0].1;
        let rest = hs.skip(1);
        let s = header_lines(hs);
        let line = seq!['\r', '\n'] + name + seq![':', ' '] + value;
        let n = line.len() as int;
        assert forall|i: int| 0 <= i < rest.len() implies is_name((#[trigger] rest[i]).0)
            && is_value(rest[i].1) by {
            assert(rest[i] == hs[i + 1]);
        }
        lemma_breaks(rest);
        assert(is_name(hs[0].0));
        assert(s =~= line + header_lines(rest));
        let t = header_lines(rest);
        assert forall|k: int| 0 <= k < s.len() && #[trigger] s[k] == '\r' implies k + 2 < s.len()
            && s[k + 2] != '\r' by {
            if k == 0 {
                assert(s[2] == name[0]);
                assert(!text::is_space(name[0]));
            } else if k < n {
                assert(s[k] == line[k]);
                if 2 <= k < 2 + name.len() {
                    assert(!text::is_space(name[k - 2]));
                } else if k >= 4 + name.len() {
                    assert(value.contains(value[k - 4 - name.len()]));
                }
            } else {
                assert(s[k] == t[k - n]);
                assert(s[k + 2] == t[k - n + 2]);
            }
        }
    }
}

/// The last field of a name.
pub(crate) proof fn lemma_last_field(f: http::Fields, n: int, k: int, name: Seq<char>)
    requires
        -1 <= k < n <= f.len(),
        forall|j: int| k < j < n ==> (#[trigger] f[j]).0 != name,
        k >= 0 ==> f[k].0 == name,
    ensures
        http::field(f, n, name) == (if k >= 0 {
            Some(f[k].1)
        } else {
            None
        }),
    decreases n,
{
    if n - 1 > k {
        assert(f[n - 1].0 != name);
        if n - 1 > 0 || k >= 0 {
            if n - 1 == 0 {
            } else {
                lemma_last_field(f, n - 1, k, name);
            }
        }
    }
}

/// A request is read as it was written: its method, its path, all its headers in
/// their order, with their names in small letters, and as much of a body as the
/// last `content-length` says. What follows the body does not matter.
pub proof fn law_request_is_read(
    method: Seq<char>,
    path: Seq<char>,
    version: Seq<char>,
    hs: http::Fields,
    k: int,
    body: Seq<u8>,
    more: Seq<u8>,
    step: RequestStep,
)
    requires
        is_word(method),
        is_word(path),
        is_word(version),
        writable(hs),
        vstd::utf8::is_ascii_chars(request_head(method, path, version, hs)),
        -1 <= k < hs.len(),
        forall|j: int|
            k < j < hs.len() ==> text::lowercase((#[trigger] hs[j]).0) != "content-length"@,
        k >= 0 ==> text::lowercase(hs[k].0) == "content-length"@ && hs[k].1 == text::decimal(
            body.len(),
        ),
        k == -1 ==> body.len() == 0,
        request_bytes(request_head(method, path, version, hs), body + more).len() <= 2097152,
        http::comes_to(
            request_bytes(request_head(method, path, version, hs), body + more),
            step,
        ),
    ensures
        step matches RequestStep::Ready(r) && r@ == (RequestView {
            method,
            path,
            headers: small_names(hs),
            body,
        }),
{
    let head = request_head(method, path, version, hs);
    let b = request_bytes(head, body + more);
    let hb = vstd::utf8::encode_utf8(head);
    let e = head.len() as int;
    vstd::utf8::is_ascii_chars_encode_utf8(head);
    vstd::utf8::encode_utf8_valid_utf8(head);
    vstd::utf8::encode_utf8_decode_utf8(head);
    lemma_head_breaks(method, path, version, hs);
    lemma_head_end(b, head, body + more);
    assert(b.take(e) =~= hb);
    lemma_head_words(method, path, version, hs);
    lemma_head_fields(method, path, version, hs);
    let f = small_names(hs);
    if hs.len() > 0 {
        lemma_last_field(f, f.len() as int, k, "content-length"@);
    }
    text::law_parse_of_decimal(body.len(), usize::MAX as nat);
    assert(http::body_len(f) == body.len());
    assert(b.subrange(e + 4, e + 4 + body.len()) =~= body);
    let end = choose|end: Option<usize>| #[trigger]
        http::is_head_end(b, end) && match end {
            None => if b.len() > http::MAX_HEAD {
                step == RequestStep::Failed(http::RequestError::HeadersTooLarge)
            } else {
                step is NeedHead
            },
            Some(e) => if !vstd::utf8::valid_utf8(b.take(e as int)) {
                step matches RequestStep::Failed(http::RequestError::NotText(fault)) && fault@
                    == text::utf8_fault(b.take(e as int))
            } else {
                http::head_comes_to(b, e as int, vstd::utf8::decode_utf8(b.take(e as int)), step)
            },
        };
    assert(http::ends_at(b, e));
    match end {
        None => {},
        Some(x) => {
            if x < e {
                assert(!http::ends_at(b, x as int));
            }
            if x > e {
                assert(!http::ends_at(b, e));
            }
            assert(x == e);
        },
    }
}

proof fn lemma_head_breaks(
    method: Seq<char>,
    path: Seq<char>,
    version: Seq<char>,
    hs: http::Fields,
)
    requires
        is_word(method),
        is_word(path),
        is_word(version),
        writable(hs),
    ensures
        ({
            let s = request_head(method, path, version, hs);
            forall|k: int|
                0 <= k < s.len() && #[trigger] s[k] == '\r' ==> k + 2 < s.len() && s[k + 2] != '\r'
        }),
{
    let s = request_head(method, path, version, hs);
    let first = method + seq![' '] + path + seq![' '] + version;
    let t = header_lines(hs);
    lemma_breaks(hs);
    lemma_first_line(method, path, version);
    assert forall|k: int| 0 <= k < s.len() && #[trigger] s[k] == '\r' implies k + 2 < s.len()
        && s[k + 2] != '\r' by {
        let n = first.len() as int;
        if k < n {
            assert(s[k] == first[k]);
        } else {
            assert(s[k] == t[k - n]);
            assert(s[k + 2] == t[k - n + 2]);
        }
    }
}

proof fn lemma_first_line(method: Seq<char>, path: Seq<char>, version: Seq<char>)
    requires
        is_word(method),
        is_word(path),
        is_word(version),
    ensures
        ({
            let s = method + seq![' '] + path + seq![' '] + version;
            forall|k: int| 0 <= k < s.len() ==> #[trigger] s[k] != '\r'
        }),
{
    let s = method + seq![' '] + path + seq![' '] + version;
    let m = method.len() as int;
    let p = path.len() as int;
    assert forall|k: int| 0 <= k < s.len() implies #[trigger] s[k] != '\r' by {
        if k < m {
            assert(!text::is_space(method[k]));
        } else if m < k <= m + p {
            assert(!text::is_space(path[k - m - 1]));
        } else if k > m + p + 1 {
            assert(!text::is_space(version[k - m - p - 2]));
        }
    }
}

/// The head ends where its bytes end.
proof fn lemma_head_end(b: Seq<u8>, head: Seq<char>, rest: Seq<u8>)
    requires
        vstd::utf8::is_ascii_chars(head),
        b == request_bytes(head, rest),
        forall|k: int|
            0 <= k < head.len() && #[trigger] head[k] == '\r' ==> k + 2 < head.len() && head[k + 2]
                != '\r',
    ensures
        http::ends_at(b, head.len() as int),
        forall|k: int| 0 <= k < head.len() ==> !#[trigger] http::ends_at(b, k),
{
    let hb = vstd::utf8::encode_utf8(head);
    let e = head.len() as int;
    vstd::utf8::is_ascii_chars_encode_utf8(head);
    assert(b[e] == 13 && b[e + 1] == 10 && b[e + 2] == 13 && b[e + 3] == 10);
    assert forall|k: int| 0 <= k < e implies !#[trigger] http::ends_at(b, k) by {
        if http::ends_at(b, k) {
            assert(b[k] == hb[k]);
            assert(head[k] as u8 == hb[k]);
            assert('\0' <= head[k] <= '\u{7f}');
            assert(head[k] == '\r');
            assert(head[k + 2] as u8 == hb[k + 2]);
            assert('\0' <= head[k + 2] <= '\u{7f}');
            assert(b[k + 2] == hb[k + 2]);
        }
    }
}

proof fn lemma_head_words(
    method: Seq<char>,
    path: Seq<char>,
    version: Seq<char>,
    hs: http::Fields,
)
    requires
        is_word(method),
        is_word(path),
        is_word(version),
    ensures
        ({
            let head = request_head(method, path, version, hs);
            let w = text::words(head.take(http::line_end(head, 0)));
            w.len() >= 2 && w[0] == method && w[1] == path
        }),
{
    let head = request_head(method, path, version, hs);
    let first = method + seq![' '] + path + seq![' '] + version;
    let n = first.len() as int;
    lemma_first_line(method, path, version);
    assert forall|k: int| 0 <= k < n implies head[k] != '\r' by {
        assert(head[k] == first[k]);
    }
    if hs.len() == 0 {
        assert(head =~= first);
    }
    lemma_line_end(head, 0, n);
    assert(head.take(n) =~= first);
    let e = Seq::<char>::empty();
    let gap = seq![' '];
    let rest = gap + path + (gap + version);
    assert(first =~= e + method + rest);
    lemma_word(e, method, rest);
    lemma_word(gap, path, gap + version);
}

proof fn lemma_head_fields(
    method: Seq<char>,
    path: Seq<char>,
    version: Seq<char>,
    hs: http::Fields,
)
    requires
        is_word(method),
        is_word(path),
        is_word(version),
        writable(hs),
    ensures
        http::head_fields(request_head(method, path, version, hs)) == small_names(hs),
{
    let head = request_head(method, path, version, hs);
    let first = method + seq![' '] + path + seq![' '] + version;
    let n = first.len() as int;
    lemma_first_line(method, path, version);
    assert forall|k: int| 0 <= k < n implies head[k] != '\r' by {
        assert(head[k] == first[k]);
    }
    if hs.len() == 0 {
        assert(head =~= first);
        lemma_line_end(head, 0, n);
        assert(small_names(hs) =~= Seq::empty());
    } else {
        lemma_line_end(head, 0, n);
        assert(head.skip(n + 2) =~= header_lines(hs).skip(2));
        lemma_fields(hs);
    }
}

} // verus!
