//! The stream of log entries.
use vstd::prelude::*;
use crate::text;

verus! {

/// An entry of the log.
#[derive(Debug)]
pub struct LogEntry {
    pub level: String,
    pub message: String,
}

/// The entry that goes out to those who follow the log.
pub fn broadcast_log(level: &str, message: String) -> (r: LogEntry)
    ensures
        r.level@ == level@,
        r.message@ == message@,
{
    LogEntry { level: level.to_owned(), message }
}

/// How high a level is. What is no level is above all of them: asked for as the
/// least level it lets nothing through but entries that have no level either.
pub open spec fn rank(level: Seq<char>) -> u8 {
    if level == "debug"@ {
        0
    } else if level == "info"@ {
        1
    } else if level == "warning"@ || level == "warn"@ {
        2
    } else if level == "error"@ {
        3
    } else {
        255
    }
}

/// How high a level is.
pub fn level_rank(level: &str) -> (r: u8)
    ensures
        r == rank(level@),
{
    if text::same_text(level, "debug") {
        0
    } else if text::same_text(level, "info") {
        1
    } else if text::same_text(level, "warning") || text::same_text(level, "warn") {
        2
    } else if text::same_text(level, "error") {
        3
    } else {
        255
    }
}

/// The value of the first of the parts, from `i` on, that begins with a prefix.
pub open spec fn first_value(parts: Seq<Seq<char>>, prefix: Seq<char>, i: int) -> Option<Seq<char>>
    decreases parts.len() - i,
{
    if i < 0 || i >= parts.len() {
        None
    } else if text::has_prefix(parts[i], prefix) {
        Some(parts[i].skip(prefix.len() as int))
    } else {
        first_value(parts, prefix, i + 1)
    }
}

/// The least level that a query asks for.
pub open spec fn least_level(query: Seq<char>) -> Seq<char> {
    match first_value(text::parts(query, '&'), "level="@, 0) {
        Some(l) => l,
        None => "info"@,
    }
}

/// Whether an entry goes to a follower, by the query that they came with.
pub fn follows(query: &str, entry: &LogEntry) -> (r: bool)
    ensures
        r == (rank(entry.level@) >= rank(least_level(query@))),
{
    let least: String = query_value(query, "level=", "info");
    level_rank(entry.level.as_str()) >= level_rank(least.as_str())
}

/// The value of a query's first part that begins with a prefix, or another
/// text.
pub fn query_value(query: &str, prefix: &str, otherwise: &str) -> (r: String)
    ensures
        r@ == (match first_value(text::parts(query@, '&'), prefix@, 0) {
            Some(v) => v,
            None => otherwise@,
        }),
{
    let chars: Vec<char> = text::chars_of(query);
    let all: Vec<Vec<char>> = text::split(chars.as_slice(), '&');
    let ghost p = text::parts(query@, '&');
    let mut i: usize = 0;
    while i < all.len()
        invariant
            i <= all@.len(),
            p == text::parts(query@, '&'),
            all@.map_values(|v: Vec<char>| v@) == p,
            first_value(p, prefix@, 0) == first_value(p, prefix@, i as int),
        decreases all@.len() - i,
    {
        assert(p[i as int] == all@[i as int]@);
        if let Some(v) = text::strip_prefix(all[i].as_slice(), prefix) {
            return text::string_of(v);
        }
        i = i + 1;
    }
    otherwise.to_owned()
}

/// The head of a response that lasts as long as the log is followed.
pub const STREAM_HEAD: &'static str =
    "HTTP/1.1 200 OK\r\nContent-Type: application/json\r\nTransfer-Encoding: chunked\r\nConnection: close\r\nAccess-Control-Allow-Origin: *\r\n\r\n";

/// What keeps such a response open while nothing is logged.
pub const KEEPALIVE_CHUNK: &'static str = "1\r\n \r\n";

/// Seconds without an entry after which that is sent.
pub const KEEPALIVE_SECS: u64 = 30;

/// A line as a chunk: the length in hexadecimal, the line and its end.
pub open spec fn chunk(line: Seq<u8>) -> Seq<u8> {
    vstd::utf8::encode_utf8(text::hexadecimal(line.len() + 1) + "\r\n"@) + line + seq![
        10u8,
        13u8,
        10u8,
    ]
}

/// A line as a chunk.
pub fn log_chunk(line: &[u8]) -> (r: Vec<u8>)
    requires
        line@.len() < usize::MAX,
    ensures
        r@ == chunk(line@),
{
    let n: usize = line.len();
    let mut head: Vec<char> = text::hexadecimal_chars(n as u64 + 1);
    text::push_text(&mut head, "\r\n");
    let t: String = text::string_of(head.as_slice());
    let mut r: Vec<u8> = vstd::slice::slice_to_vec(t.as_str().as_bytes());
    r.extend_from_slice(line);
    r.push(10);
    r.push(13);
    r.push(10);
    assert(r@ =~= chunk(line@));
    r
}

/// Levels in their order: debug, info, warning, error. `warn` is the same as
/// `warning`, and any other text is above them all.
pub proof fn law_levels_are_ordered(other: Seq<char>)
    requires
        other != "debug"@,
        other != "info"@,
        other != "warning"@,
        other != "warn"@,
        other != "error"@,
    ensures
        rank("debug"@) < rank("info"@),
        rank("info"@) < rank("warning"@),
        rank("warn"@) == rank("warning"@),
        rank("warning"@) < rank("error"@),
        rank("error"@) < rank(other),
{
    reveal_strlit("debug");
    reveal_strlit("info");
    reveal_strlit("warning");
    reveal_strlit("warn");
    reveal_strlit("error");
    assert("debug"@[0] == 'd' && "error"@[0] == 'e');
    assert("info"@[0] == 'i' && "warn"@[0] == 'w');
}

proof fn lemma_first_value(parts: Seq<Seq<char>>, prefix: Seq<char>, i: int, k: int)
    requires
        0 <= i <= k <= parts.len(),
        forall|j: int| i <= j < k ==> !text::has_prefix(#[trigger] parts[j], prefix),
    ensures
        first_value(parts, prefix, i) == first_value(parts, prefix, k),
    decreases k - i,
{
    if i < k {
        assert(!text::has_prefix(parts[i], prefix));
        lemma_first_value(parts, prefix, i + 1, k);
    }
}

/// The value of a query is what stands behind its name in the first part that
/// begins with it, whatever the parts before and behind are.
pub proof fn law_value_is_found(
    parts: Seq<Seq<char>>,
    k: int,
    prefix: Seq<char>,
    value: Seq<char>,
)
    requires
        parts.len() > 0,
        forall|i: int| 0 <= i < parts.len() ==> !(#[trigger] parts[i]).contains('&'),
        0 <= k <= parts.len(),
        forall|j: int| 0 <= j < k ==> !text::has_prefix(#[trigger] parts[j], prefix),
        k < parts.len() ==> parts[k] == prefix + value,
    ensures
        first_value(text::parts(text::joined(parts, '&'), '&'), prefix, 0) == (if k < parts.len() {
            Some(value)
        } else {
            None
        }),
{
    text::law_parts_of_joined(parts, '&');
    lemma_first_value(parts, prefix, 0, k);
    if k < parts.len() {
        let n = prefix.len() as int;
        assert(parts[k].take(n) =~= prefix);
        assert(parts[k].skip(n) =~= value);
    }
}

} // verus!
