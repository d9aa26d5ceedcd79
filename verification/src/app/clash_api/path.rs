//! Paths of requests and of the dashboard's files.
use vstd::prelude::*;
use crate::net;
use crate::text;

verus! {

/// The byte that two characters stand for: two hexadecimal digits, or a plus
/// sign and one.
pub open spec fn hex_pair(a: u8, b: u8) -> Option<u8> {
    if net::is_hex(b as char) && a == 43 {
        Some(net::hex_digit(b as char) as u8)
    } else if net::is_hex(a as char) && net::is_hex(b as char) {
        Some((net::hex_digit(a as char) * 16 + net::hex_digit(b as char)) as u8)
    } else {
        None
    }
}

/// Bytes with every percent sign that two digits follow replaced.
pub open spec fn unescaped(s: Seq<u8>) -> Seq<u8>
    decreases s.len(),
{
    if s.len() == 0 {
        Seq::empty()
    } else if s[0] == 37 && s.len() > 2 && hex_pair(s[1], s[2]) is Some {
        seq![hex_pair(s[1], s[2])->0] + unescaped(s.skip(3))
    } else {
        seq![s[0]] + unescaped(s.skip(1))
    }
}

/// Whether no percent sign stands two bytes before the inside of a character.
pub open spec fn decodable(s: Seq<u8>) -> bool {
    forall|i: int|
        0 <= i && i + 3 < s.len() && #[trigger] s[i] == 37 ==> !vstd::utf8::is_continuation_byte(
            s[i + 3],
        )
}

/// Whether a text can be decoded.
pub fn is_decodable(s: &str) -> (r: bool)
    ensures
        r == decodable(vstd::utf8::encode_utf8(s@)),
{
    let b: &[u8] = s.as_bytes();
    let n: usize = b.len();
    let mut i: usize = 0;
    while i < n && n - i > 3
        invariant
            n == b@.len(),
            i <= n,
            b@ == vstd::utf8::encode_utf8(s@),
            forall|k: int|
                0 <= k < i && k + 3 < n && #[trigger] b@[k] == 37
                    ==> !vstd::utf8::is_continuation_byte(b@[k + 3]),
        decreases n - i,
    {
        if b[i] == 37 && b[i + 3] >= 128 && b[i + 3] < 192 {
            assert(b@[i as int] == 37);
            assert(vstd::utf8::is_continuation_byte(b@[i + 3]));
            return false;
        }
        i = i + 1;
    }
    true
}

fn hex_of(a: u8, b: u8) -> (r: Option<u8>)
    ensures
        r == hex_pair(a, b),
{
    let x: char = a as char;
    let y: char = b as char;
    if !net::hex_char(y) {
        return None;
    }
    if a == 43 {
        return Some(net::hex_char_value(y));
    }
    if net::hex_char(x) {
        return Some(net::hex_char_value(x) * 16 + net::hex_char_value(y));
    }
    None
}

/// A text with its escapes resolved: the bytes that they stand for, as text.
pub fn percent_decode(s: &str) -> (r: String)
    requires
        decodable(vstd::utf8::encode_utf8(s@)),
    ensures
        r@ == text::lossy_utf8(unescaped(vstd::utf8::encode_utf8(s@))),
{
    let b: &[u8] = s.as_bytes();
    let n: usize = b.len();
    let ghost all = unescaped(b@);
    let mut out: Vec<u8> = Vec::new();
    let mut i: usize = 0;
    assert(b@.skip(0) =~= b@);
    assert(out@ + unescaped(b@.skip(0)) =~= all);
    while i < n
        invariant
            n == b@.len(),
            i <= n,
            out@ + unescaped(b@.skip(i as int)) == all,
        decreases n - i,
    {
        let ghost rest = b@.skip(i as int);
        let ghost before = out@;
        assert(rest[0] == b@[i as int]);
        let pair: Option<u8> = if b[i] == 37 && n - i > 2 {
            hex_of(b[i + 1], b[i + 2])
        } else {
            None
        };
        match pair {
            Some(v) => {
                out.push(v);
                i = i + 3;
                proof {
                    assert(rest[1] == b@[i - 2] && rest[2] == b@[i - 1]);
                    assert(rest.skip(3) =~= b@.skip(i as int));
                    assert(out@ + unescaped(b@.skip(i as int)) =~= before + unescaped(rest));
                }
            },
            None => {
                out.push(b[i]);
                i = i + 1;
                proof {
                    if rest.len() > 2 {
                        assert(rest[1] == b@[i as int] && rest[2] == b@[i + 1]);
                    }
                    assert(rest.skip(1) =~= b@.skip(i as int));
                    assert(out@ + unescaped(b@.skip(i as int)) =~= before + unescaped(rest));
                }
            },
        }
    }
    proof {
        assert(b@.skip(n as int) =~= Seq::<u8>::empty());
        assert(out@ =~= all);
    }
    text::lossy_text(out.as_slice())
}

/// A text without percent signs decodes to itself.
pub proof fn law_plain_text_is_kept(s: Seq<char>)
    requires
        forall|i: int|
            0 <= i < vstd::utf8::encode_utf8(s).len() ==> #[trigger] vstd::utf8::encode_utf8(s)[i]
                != 37,
    ensures
        text::lossy_utf8(unescaped(vstd::utf8::encode_utf8(s))) == s,
{
    lemma_unescaped_plain(vstd::utf8::encode_utf8(s));
    vstd::utf8::encode_utf8_valid_utf8(s);
    vstd::utf8::encode_utf8_decode_utf8(s);
}

proof fn lemma_unescaped_plain(s: Seq<u8>)
    requires
        forall|i: int| 0 <= i < s.len() ==> #[trigger] s[i] != 37,
    ensures
        unescaped(s) == s,
    decreases s.len(),
{
    if s.len() > 0 {
        assert(s[0] != 37);
        lemma_unescaped_plain(s.skip(1));
        assert(seq![s[0]] + s.skip(1) =~= s);
    } else {
        assert(s =~= Seq::<u8>::empty());
    }
}

// Files

/// Whether a component of a path says nothing: two separators in a row, or the
/// directory itself.
pub open spec fn is_idle(c: Seq<char>) -> bool {
    c.len() == 0 || c == "."@
}

/// A path with a component behind it.
pub open spec fn pushed(root: Seq<char>, c: Seq<char>) -> Seq<char> {
    if root.len() == 0 || root.last() == '/' {
        root + c
    } else {
        root + seq!['/'] + c
    }
}

/// A path with the first `n` components behind it.
pub open spec fn below(root: Seq<char>, parts: Seq<Seq<char>>, n: int) -> Seq<char>
    decreases n,
{
    if n <= 0 {
        root
    } else if is_idle(parts[n - 1]) {
        below(root, parts, n - 1)
    } else {
        pushed(below(root, parts, n - 1), parts[n - 1])
    }
}

/// Whether a relative path stays below where it begins: it does not begin at
/// the root, and never goes up.
pub open spec fn stays_below(relative: Seq<char>) -> bool {
    &&& !(relative.len() > 0 && relative[0] == '/')
    &&& forall|i: int|
        0 <= i < text::parts(relative, '/').len() ==> #[trigger] text::parts(relative, '/')[i]
            != ".."@
}

/// A relative path below `root`, with slashes between components. There is none
/// if the path would lead out of it.
pub fn safe_join(root: &str, relative: &str) -> (r: Option<String>)
    ensures
        match r {
            Some(p) => stays_below(relative@) && p@ == below(
                root@,
                text::parts(relative@, '/'),
                text::parts(relative@, '/').len() as int,
            ),
            None => !stays_below(relative@),
        },
{
    let chars: Vec<char> = text::chars_of(relative);
    if chars.len() > 0 && chars[0] == '/' {
        return None;
    }
    let all: Vec<Vec<char>> = text::split(chars.as_slice(), '/');
    let ghost p = text::parts(relative@, '/');
    let dot: Vec<char> = text::chars_of(".");
    let up: Vec<char> = text::chars_of("..");
    let mut out: Vec<char> = text::chars_of(root);
    let mut i: usize = 0;
    while i < all.len()
        invariant
            i <= all@.len(),
            p == text::parts(relative@, '/'),
            all@.map_values(|v: Vec<char>| v@) == p,
            dot@ == "."@,
            up@ == ".."@,
            out@ == below(root@, p, i as int),
            forall|k: int| 0 <= k < i ==> #[trigger] p[k] != ".."@,
        decreases all@.len() - i,
    {
        assert(p[i as int] == all@[i as int]@);
        let c: &[char] = all[i].as_slice();
        if text::same_chars(c, up.as_slice()) {
            return None;
        }
        if c.len() > 0 && !text::same_chars(c, dot.as_slice()) {
            let n: usize = out.len();
            if n > 0 && out[n - 1] != '/' {
                out.push('/');
            }
            text::push_chars(&mut out, c);
        }
        i = i + 1;
        assert(out@ =~= below(root@, p, i as int));
    }
    Some(text::string_of(out.as_slice()))
}

/// What is below a directory has its path at the front.
pub proof fn law_joined_path_begins_with_root(root: Seq<char>, parts: Seq<Seq<char>>, n: int)
    requires
        0 <= n <= parts.len(),
    ensures
        text::has_prefix(below(root, parts, n), root),
    decreases n,
{
    if n > 0 {
        law_joined_path_begins_with_root(root, parts, n - 1);
        let b = below(root, parts, n - 1);
        assert(b.take(root.len() as int) =~= root);
        assert(below(root, parts, n).take(root.len() as int) =~= root);
    } else {
        assert(root.take(root.len() as int) =~= root);
    }
}

/// The last of the first `n` components that says something, or -1.
pub open spec fn last_component(parts: Seq<Seq<char>>, n: int) -> int
    decreases n,
{
    if n <= 0 {
        -1
    } else if is_idle(parts[n - 1]) {
        last_component(parts, n - 1)
    } else {
        n - 1
    }
}

/// What follows the last dot of a file's name, if it is not the name's first
/// character.
pub open spec fn extension(path: Seq<char>) -> Option<Seq<char>> {
    let parts = text::parts(path, '/');
    let k = last_component(parts, parts.len() as int);
    if k < 0 || parts[k] == ".."@ {
        None
    } else {
        let dot = text::last_index_of(parts[k], '.');
        if dot <= 0 {
            None
        } else {
            Some(parts[k].skip(dot + 1))
        }
    }
}

/// The type of a file's contents, by its extension.
pub open spec fn media_type(ext: Option<Seq<char>>) -> Seq<char> {
    match ext {
        None => "application/octet-stream"@,
        Some(e) => if e == "html"@ {
            "text/html; charset=utf-8"@
        } else if e == "js"@ || e == "mjs"@ {
            "application/javascript; charset=utf-8"@
        } else if e == "css"@ {
            "text/css; charset=utf-8"@
        } else if e == "json"@ {
            "application/json; charset=utf-8"@
        } else if e == "png"@ {
            "image/png"@
        } else if e == "jpg"@ || e == "jpeg"@ {
            "image/jpeg"@
        } else if e == "svg"@ {
            "image/svg+xml"@
        } else if e == "ico"@ {
            "image/x-icon"@
        } else if e == "woff"@ {
            "font/woff"@
        } else if e == "woff2"@ {
            "font/woff2"@
        } else {
            "application/octet-stream"@
        },
    }
}

pub(crate) fn extension_of(path: &str) -> (r: Option<String>)
    ensures
        match r {
            Some(e) => extension(path@) == Some(e@),
            None => extension(path@) is None,
        },
{
    let chars: Vec<char> = text::chars_of(path);
    let all: Vec<Vec<char>> = text::split(chars.as_slice(), '/');
    let ghost p = text::parts(path@, '/');
    let dot: Vec<char> = text::chars_of(".");
    let up: Vec<char> = text::chars_of("..");
    let mut n: usize = all.len();
    while n > 0
        invariant
            n <= all@.len(),
            p == text::parts(path@, '/'),
            all@.map_values(|v: Vec<char>| v@) == p,
            dot@ == "."@,
            up@ == ".."@,
            last_component(p, p.len() as int) == last_component(p, n as int),
        decreases n,
    {
        assert(p[n - 1] == all@[n - 1]@);
        let c: &[char] = all[n - 1].as_slice();
        if c.len() > 0 && !text::same_chars(c, dot.as_slice()) {
            if text::same_chars(c, up.as_slice()) {
                return None;
            }
            let len: usize = c.len();
            match text::rfind(c, '.') {
                Some(k) => {
                    if k == 0 {
                        return None;
                    }
                    let e: &[char] = text::slice_of(c, k + 1, len);
                    assert(e@ =~= c@.skip(k + 1));
                    return Some(text::string_of(e));
                },
                None => {
                    return None;
                },
            }
        }
        n = n - 1;
    }
    None
}

/// The type of a file's contents, by its name.
pub fn content_type(path: &str) -> (r: &'static str)
    ensures
        r@ == media_type(extension(path@)),
{
    match extension_of(path) {
        None => "application/octet-stream",
        Some(ext) => {
            let e: &str = ext.as_str();
            if text::same_text(e, "html") {
                "text/html; charset=utf-8"
            } else if text::same_text(e, "js") || text::same_text(e, "mjs") {
                "application/javascript; charset=utf-8"
            } else if text::same_text(e, "css") {
                "text/css; charset=utf-8"
            } else if text::same_text(e, "json") {
                "application/json; charset=utf-8"
            } else if text::same_text(e, "png") {
                "image/png"
            } else if text::same_text(e, "jpg") || text::same_text(e, "jpeg") {
                "image/jpeg"
            } else if text::same_text(e, "svg") {
                "image/svg+xml"
            } else if text::same_text(e, "ico") {
                "image/x-icon"
            } else if text::same_text(e, "woff") {
                "font/woff"
            } else if text::same_text(e, "woff2") {
                "font/woff2"
            } else {
                "application/octet-stream"
            }
        },
    }
}

/// A byte of an address: as it is, or escaped by a percent sign and two
/// hexadecimal digits.
pub ghost enum Written {
    Plain(u8),
    Escaped { byte: u8, capitals: bool },
}

/// The character of a hexadecimal digit, as a byte.
pub open spec fn hex_byte(d: int, capitals: bool) -> u8 {
    if d < 10 {
        (48 + d) as u8
    } else if capitals {
        (55 + d) as u8
    } else {
        (87 + d) as u8
    }
}

/// Bytes as they are written.
pub open spec fn written_bytes(w: Seq<Written>) -> Seq<u8>
    decreases w.len(),
{
    if w.len() == 0 {
        Seq::empty()
    } else {
        (match w[0] {
            Written::Plain(b) => seq![b],
            Written::Escaped { byte, capitals } => seq![
                37u8,
                hex_byte(byte as int / 16, capitals),
                hex_byte(byte as int % 16, capitals),
            ],
        }) + written_bytes(w.skip(1))
    }
}

/// The bytes that are meant.
pub open spec fn meant_bytes(w: Seq<Written>) -> Seq<u8> {
    w.map_values(
        |x: Written|
            match x {
                Written::Plain(b) => b,
                Written::Escaped { byte, .. } => byte,
            },
    )
}

/// Every byte that is escaped comes back, in small digits or capitals, and every
/// other byte but the percent sign is kept.
pub proof fn law_escapes_are_resolved(w: Seq<Written>)
    requires
        forall|i: int| 0 <= i < w.len() ==> #[trigger] w[i] != Written::Plain(37),
    ensures
        unescaped(written_bytes(w)) == meant_bytes(w),
    decreases w.len(),
{
    let s = written_bytes(w);
    if w.len() == 0 {
        assert(meant_bytes(w) =~= Seq::empty());
    } else {
        let rest = w.skip(1);
        assert forall|i: int| 0 <= i < rest.len() implies #[trigger] rest[i] != Written::Plain(
            37,
        ) by {
            assert(rest[i] == w[i + 1]);
        }
        law_escapes_are_resolved(rest);
        assert(w[0] != Written::Plain(37));
        match w[0] {
            Written::Plain(b) => {
                assert(s[0] == b);
                assert(s.skip(1) =~= written_bytes(rest));
                assert(meant_bytes(w) =~= seq![b] + meant_bytes(rest));
            },
            Written::Escaped { byte, capitals } => {
                let hi = byte as int / 16;
                let lo = byte as int % 16;
                let a = hex_byte(hi, capitals);
                let b = hex_byte(lo, capitals);
                assert(s[0] == 37 && s[1] == a && s[2] == b);
                lemma_hex_byte(hi, capitals);
                lemma_hex_byte(lo, capitals);
                assert(hex_pair(a, b) == Some(byte));
                assert(s.skip(3) =~= written_bytes(rest));
                assert(meant_bytes(w) =~= seq![byte] + meant_bytes(rest));
            },
        }
    }
}

proof fn lemma_hex_byte(d: int, capitals: bool)
    requires
        0 <= d < 16,
    ensures
        net::is_hex(hex_byte(d, capitals) as char),
        net::hex_digit(hex_byte(d, capitals) as char) == d,
        hex_byte(d, capitals) != 43,
{
}

/// A component that leads down: it says something, and does not go up.
pub open spec fn leads_down(c: Seq<char>) -> bool {
    c.len() > 0 && c != "."@ && c != ".."@ && !c.contains('/')
}

/// A relative path of components that lead down is allowed, and comes to the
/// directory, a slash, and the path as it is.
pub proof fn law_relative_path_is_joined(root: Seq<char>, cs: Seq<Seq<char>>)
    requires
        root.len() > 0,
        root.last() != '/',
        cs.len() > 0,
        forall|i: int| 0 <= i < cs.len() ==> leads_down(#[trigger] cs[i]),
    ensures
        stays_below(text::joined(cs, '/')),
        below(
            root,
            text::parts(text::joined(cs, '/'), '/'),
            text::parts(text::joined(cs, '/'), '/').len() as int,
        ) == root + seq!['/'] + text::joined(cs, '/'),
{
    assert forall|i: int| 0 <= i < cs.len() implies !(#[trigger] cs[i]).contains('/') by {
        assert(leads_down(cs[i]));
    }
    text::law_parts_of_joined(cs, '/');
    assert(leads_down(cs[0]));
    let s = text::joined(cs, '/');
    assert(s[0] == cs[0][0]);
    assert(cs[0].contains(cs[0][0]));
    assert forall|i: int| 0 <= i < cs.len() implies #[trigger] cs[i] != ".."@ by {
        assert(leads_down(cs[i]));
    }
    lemma_below(root, cs, cs.len() as int);
    assert(cs.take(cs.len() as int) =~= cs);
}

proof fn lemma_below(root: Seq<char>, cs: Seq<Seq<char>>, n: int)
    requires
        root.len() > 0,
        root.last() != '/',
        1 <= n <= cs.len(),
        forall|i: int| 0 <= i < cs.len() ==> leads_down(#[trigger] cs[i]),
    ensures
        below(root, cs, n) == root + seq!['/'] + text::joined(cs.take(n), '/'),
        below(root, cs, n).last() != '/',
    decreases n,
{
    let c = cs[n - 1];
    assert(leads_down(c));
    assert(c.last() != '/') by {
        assert(c.contains(c.last()));
    }
    if n == 1 {
        assert(below(root, cs, 0) == root);
        assert(cs.take(1) =~= seq![c]);
        assert(below(root, cs, 1) =~= root + seq!['/'] + c);
    } else {
        lemma_below(root, cs, n - 1);
        assert(cs.take(n) =~= cs.take(n - 1).push(c));
        lemma_joined_push(cs.take(n - 1), c);
        assert(below(root, cs, n) =~= root + seq!['/'] + text::joined(cs.take(n), '/'));
    }
}

proof fn lemma_joined_push(a: Seq<Seq<char>>, c: Seq<char>)
    requires
        a.len() > 0,
    ensures
        text::joined(a.push(c), '/') == text::joined(a, '/') + seq!['/'] + c,
    decreases a.len(),
{
    let b = a.push(c);
    assert(b.skip(1) =~= a.skip(1).push(c));
    if a.len() == 1 {
        assert(b.skip(1) =~= seq![c]);
        assert(text::joined(b.skip(1), '/') == c);
        assert(text::joined(b, '/') =~= text::joined(a, '/') + seq!['/'] + c);
    } else {
        lemma_joined_push(a.skip(1), c);
        assert(text::joined(b, '/') =~= text::joined(a, '/') + seq!['/'] + c);
    }
}

/// Whether a path leads out is told by each of its components, wherever it
/// stands: one that goes up is never allowed, nor a path from the root.
pub proof fn law_going_up_is_refused(cs: Seq<Seq<char>>, k: int)
    requires
        0 <= k < cs.len(),
        forall|i: int| 0 <= i < cs.len() ==> !(#[trigger] cs[i]).contains('/'),
    ensures
        cs[k] == ".."@ ==> !stays_below(text::joined(cs, '/')),
        cs.len() > 1 && cs[0].len() == 0 ==> !stays_below(text::joined(cs, '/')),
{
    text::law_parts_of_joined(cs, '/');
    let s = text::joined(cs, '/');
    if cs.len() > 1 && cs[0].len() == 0 {
        assert(s[0] == '/');
    }
}

/// The extension of a file is what follows the last dot of its name, wherever
/// the file is.
pub proof fn law_extension_is_found(dirs: Seq<Seq<char>>, stem: Seq<char>, ext: Seq<char>)
    requires
        forall|i: int| 0 <= i < dirs.len() ==> !(#[trigger] dirs[i]).contains('/'),
        stem.len() > 0,
        !stem.contains('/'),
        !ext.contains('/'),
        !ext.contains('.'),
        ext.len() > 0,
    ensures
        extension(text::joined(dirs.push(stem + seq!['.'] + ext), '/')) == Some(ext),
{
    let file = stem + seq!['.'] + ext;
    let cs = dirs.push(file);
    let n = stem.len() as int;
    assert(!file.contains('/')) by {
        if file.contains('/') {
            let i = choose|i: int| 0 <= i < file.len() && file[i] == '/';
            if i < n {
                assert(stem[i] == '/');
            } else if i > n {
                assert(ext[i - n - 1] == '/');
            }
        }
    }
    assert forall|i: int| 0 <= i < cs.len() implies !(#[trigger] cs[i]).contains('/') by {
        if i < dirs.len() {
            assert(cs[i] == dirs[i]);
        }
    }
    text::law_parts_of_joined(cs, '/');
    reveal_strlit(".");
    reveal_strlit("..");
    assert(file.len() >= 3);
    assert(cs[cs.len() - 1] == file);
    assert forall|k: int| n < k < file.len() implies file[k] != '.' by {
        assert(ext.contains(ext[k - n - 1]));
    }
    text::lemma_last_index_of(file, '.', n);
    assert(file.skip(n + 1) =~= ext);
}

} // verus!
