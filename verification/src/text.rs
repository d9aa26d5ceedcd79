//! Text: characters, trimming, splitting, case, and decimal numbers.
//!
//! Strings are taken apart into vectors of characters, worked on there, and
//! put together again.
use vstd::prelude::*;

verus! {

/// Trusted: `String::push` appends one character.
pub assume_specification[ String::push ](s: &mut String, c: char)
    ensures
        final(s)@ == old(s)@.push(c),
;

/// The message of the error with which `std::str::from_utf8` refuses a byte
/// sequence.
pub uninterp spec fn utf8_fault(bytes: Seq<u8>) -> Seq<char>;

/// Trusted: `std::str::from_utf8` accepts exactly the well-formed UTF-8
/// sequences, and what it returns holds the characters that they encode. The
/// message of its error depends on the bytes alone; its wording is left unsaid.
#[verifier::external_body]
pub(crate) fn utf8_text(bytes: &[u8]) -> (r: Result<String, String>)
    ensures
        r is Ok <==> vstd::utf8::valid_utf8(bytes@),
        r matches Ok(s) ==> s@ == vstd::utf8::decode_utf8(bytes@),
        r matches Err(e) ==> e@ == utf8_fault(bytes@),
{
    match std::str::from_utf8(bytes) {
        Ok(s) => Ok(s.to_string()),
        Err(e) => Err(e.to_string()),
    }
}

/// What `String::from_utf8_lossy` makes of a byte sequence that is not
/// well-formed UTF-8.
pub uninterp spec fn replaced_utf8(bytes: Seq<u8>) -> Seq<char>;

/// The text of a byte sequence: the characters that it encodes, or, where it
/// is not well-formed UTF-8, those with replacement characters among them.
pub open spec fn lossy_utf8(bytes: Seq<u8>) -> Seq<char> {
    if vstd::utf8::valid_utf8(bytes) {
        vstd::utf8::decode_utf8(bytes)
    } else {
        replaced_utf8(bytes)
    }
}

/// Trusted: `String::from_utf8_lossy` returns the encoded characters where the
/// bytes are well-formed UTF-8, and else a text that depends on the bytes
/// alone. Where replacement characters stand in that text is left unsaid.
#[verifier::external_body]
pub(crate) fn lossy_text(bytes: &[u8]) -> (r: String)
    ensures
        vstd::utf8::valid_utf8(bytes@) ==> r@ == vstd::utf8::decode_utf8(bytes@),
        !vstd::utf8::valid_utf8(bytes@) ==> r@ == replaced_utf8(bytes@),
{
    String::from_utf8_lossy(bytes).into_owned()
}

/// The characters of `s`.
pub fn chars_of(s: &str) -> (r: Vec<char>)
    ensures
        r@ == s@,
{
    let mut r: Vec<char> = Vec::new();
    for c in it: s.chars()
        invariant
            it.seq() == s@,
            r@ == s@.take(it.index()),
    {
        proof {
            assert(s@.take(it.index() + 1) =~= s@.take(it.index()).push(c));
        }
        r.push(c);
    }
    assert(s@.take(s@.len() as int) =~= s@);
    r
}

/// The string made of `chars`.
pub fn string_of(chars: &[char]) -> (r: String)
    ensures
        r@ == chars@,
{
    let mut r: String = String::new();
    let mut i: usize = 0;
    while i < chars.len()
        invariant
            i <= chars@.len(),
            r@ == chars@.take(i as int),
        decreases chars@.len() - i,
    {
        r.push(chars[i]);
        i = i + 1;
        assert(chars@.take(i as int) =~= chars@.take(i - 1).push(chars@[i - 1]));
    }
    assert(chars@.take(i as int) =~= chars@);
    r
}

/// Whether two character slices hold the same characters.
pub fn same_chars(a: &[char], b: &[char]) -> (r: bool)
    ensures
        r == (a@ == b@),
{
    if a.len() != b.len() {
        return false;
    }
    let mut i: usize = 0;
    while i < a.len()
        invariant
            a@.len() == b@.len(),
            i <= a@.len(),
            forall|k: int| 0 <= k < i ==> a@[k] == b@[k],
        decreases a@.len() - i,
    {
        if a[i] != b[i] {
            assert(a@[i as int] != b@[i as int]);
            return false;
        }
        i = i + 1;
    }
    assert(a@ =~= b@);
    true
}

/// Whether two strings are equal.
pub fn same_text(a: &str, b: &str) -> (r: bool)
    ensures
        r == (a@ == b@),
{
    let x: Vec<char> = chars_of(a);
    let y: Vec<char> = chars_of(b);
    same_chars(&x, &y)
}

/// An ASCII capital's small letter; any other character unchanged.
pub open spec fn lower(c: char) -> char {
    if 'A' <= c && c <= 'Z' {
        (c as u32 + 32) as char
    } else {
        c
    }
}

/// `s` with ASCII capitals made small.
pub open spec fn lowercase(s: Seq<char>) -> Seq<char> {
    s.map_values(|c: char| lower(c))
}

/// An ASCII capital's small letter; any other character unchanged.
pub fn lower_char(c: char) -> (r: char)
    ensures
        r == lower(c),
{
    if 'A' <= c && c <= 'Z' {
        ((c as u8) + 32) as char
    } else {
        c
    }
}

/// `s` with ASCII capitals made small.
pub fn lowercase_chars(s: &[char]) -> (r: Vec<char>)
    ensures
        r@ == lowercase(s@),
{
    let mut r: Vec<char> = Vec::new();
    let mut i: usize = 0;
    while i < s.len()
        invariant
            i <= s@.len(),
            r@ == lowercase(s@.take(i as int)),
        decreases s@.len() - i,
    {
        r.push(lower_char(s[i]));
        i = i + 1;
        assert(lowercase(s@.take(i as int)) =~= lowercase(s@.take(i - 1)).push(lower(s@[i - 1])));
    }
    assert(s@.take(i as int) =~= s@);
    r
}

/// `s` with ASCII capitals made small.
pub fn lowercase_text(s: &str) -> (r: String)
    ensures
        r@ == lowercase(s@),
{
    let c: Vec<char> = chars_of(s);
    let l: Vec<char> = lowercase_chars(&c);
    string_of(&l)
}

/// Whether two strings are equal but for the case of ASCII letters.
pub fn same_text_ignoring_case(a: &str, b: &str) -> (r: bool)
    ensures
        r == (lowercase(a@) == lowercase(b@)),
{
    let x: Vec<char> = lowercase_chars(&chars_of(a));
    let y: Vec<char> = lowercase_chars(&chars_of(b));
    same_chars(&x, &y)
}

/// Lowercasing twice is lowercasing once.
pub proof fn law_lowercase_idempotent(s: Seq<char>)
    ensures
        lowercase(lowercase(s)) == lowercase(s),
{
    assert forall|i: int| 0 <= i < s.len() implies lower(lower(#[trigger] s[i])) == lower(s[i]) by {
    }
    assert(lowercase(lowercase(s)) =~= lowercase(s));
}

/// The Unicode White_Space characters.
pub open spec fn is_space(c: char) -> bool {
    ||| '\u{9}' <= c && c <= '\u{d}'
    ||| c == ' '
    ||| c == '\u{85}'
    ||| c == '\u{a0}'
    ||| c == '\u{1680}'
    ||| '\u{2000}' <= c && c <= '\u{200a}'
    ||| c == '\u{2028}'
    ||| c == '\u{2029}'
    ||| c == '\u{202f}'
    ||| c == '\u{205f}'
    ||| c == '\u{3000}'
}

/// Whether `c` is a Unicode White_Space character.
pub fn space_char(c: char) -> (r: bool)
    ensures
        r == is_space(c),
{
    ('\u{9}' <= c && c <= '\u{d}') || c == ' ' || c == '\u{85}' || c == '\u{a0}' || c == '\u{1680}'
        || ('\u{2000}' <= c && c <= '\u{200a}') || c == '\u{2028}' || c == '\u{2029}' || c
        == '\u{202f}' || c == '\u{205f}' || c == '\u{3000}'
}

/// `s` without the white space at its start.
pub open spec fn trimmed_start(s: Seq<char>) -> Seq<char>
    decreases s.len(),
{
    if s.len() > 0 && is_space(s[0]) {
        trimmed_start(s.skip(1))
    } else {
        s
    }
}

/// `s` without the white space at its end.
pub open spec fn trimmed_end(s: Seq<char>) -> Seq<char>
    decreases s.len(),
{
    if s.len() > 0 && is_space(s.last()) {
        trimmed_end(s.drop_last())
    } else {
        s
    }
}

/// `s` without the white space at either end.
pub open spec fn trimmed(s: Seq<char>) -> Seq<char> {
    trimmed_end(trimmed_start(s))
}

/// `s` without the white space at its start.
pub fn trim_start<'a>(s: &'a [char]) -> (r: &'a [char])
    ensures
        r@ == trimmed_start(s@),
{
    let n: usize = s.len();
    let mut i: usize = 0;
    assert(s@.skip(0) =~= s@);
    while i < n && space_char(s[i])
        invariant
            n == s@.len(),
            i <= n,
            trimmed_start(s@) == trimmed_start(s@.skip(i as int)),
        decreases n - i,
    {
        assert(s@.skip(i as int).skip(1) =~= s@.skip(i + 1));
        i = i + 1;
    }
    assert(s@.subrange(i as int, n as int) =~= s@.skip(i as int));
    &s[i..n]
}

/// `s` without the white space at its end.
pub fn trim_end<'a>(s: &'a [char]) -> (r: &'a [char])
    ensures
        r@ == trimmed_end(s@),
{
    let mut n: usize = s.len();
    assert(s@.take(n as int) =~= s@);
    while n > 0 && space_char(s[n - 1])
        invariant
            n <= s@.len(),
            trimmed_end(s@) == trimmed_end(s@.take(n as int)),
        decreases n,
    {
        assert(s@.take(n as int).drop_last() =~= s@.take(n - 1));
        n = n - 1;
    }
    assert(s@.subrange(0, n as int) =~= s@.take(n as int));
    &s[0..n]
}

/// `s` without the white space at either end.
pub fn trim<'a>(s: &'a [char]) -> (r: &'a [char])
    ensures
        r@ == trimmed(s@),
{
    trim_end(trim_start(s))
}

/// Whether `s` begins with `prefix`.
pub open spec fn has_prefix(s: Seq<char>, prefix: Seq<char>) -> bool {
    prefix.len() <= s.len() && s.take(prefix.len() as int) == prefix
}

/// Whether `s` ends with `suffix`.
pub open spec fn has_suffix(s: Seq<char>, suffix: Seq<char>) -> bool {
    suffix.len() <= s.len() && s.skip(s.len() - suffix.len()) == suffix
}

/// Whether `s` begins with `prefix`.
pub fn starts_with(s: &[char], prefix: &str) -> (r: bool)
    ensures
        r == has_prefix(s@, prefix@),
{
    let p: Vec<char> = chars_of(prefix);
    if p.len() > s.len() {
        return false;
    }
    assert(s@.subrange(0, p@.len() as int) =~= s@.take(p@.len() as int));
    same_chars(&s[0..p.len()], &p)
}

/// Whether `s` ends with `suffix`.
pub fn ends_with(s: &[char], suffix: &str) -> (r: bool)
    ensures
        r == has_suffix(s@, suffix@),
{
    let p: Vec<char> = chars_of(suffix);
    if p.len() > s.len() {
        return false;
    }
    assert(s@.subrange(s@.len() - p@.len(), s@.len() as int) =~= s@.skip(s@.len() - p@.len()));
    same_chars(&s[s.len() - p.len()..s.len()], &p)
}

/// What follows `prefix` in `s`, if `s` begins with it.
pub fn strip_prefix<'a>(s: &'a [char], prefix: &str) -> (r: Option<&'a [char]>)
    ensures
        r is Some <==> has_prefix(s@, prefix@),
        r matches Some(t) ==> t@ == s@.skip(prefix@.len() as int),
{
    if starts_with(s, prefix) {
        let n: usize = chars_of(prefix).len();
        assert(s@.subrange(n as int, s@.len() as int) =~= s@.skip(n as int));
        Some(&s[n..s.len()])
    } else {
        None
    }
}

/// The first position at or after `from` at which `c` stands in `s`, or the
/// length of `s`.
pub open spec fn index_from(s: Seq<char>, c: char, from: int) -> int
    decreases s.len() - from,
{
    if from >= s.len() {
        s.len() as int
    } else if s[from] == c {
        from
    } else {
        index_from(s, c, from + 1)
    }
}

/// The first position at which `c` stands in `s`, or the length of `s`.
pub open spec fn index_of(s: Seq<char>, c: char) -> int {
    index_from(s, c, 0)
}

/// The last position at which `c` stands in `s`, or -1.
pub open spec fn last_index_of(s: Seq<char>, c: char) -> int
    decreases s.len(),
{
    if s.len() == 0 {
        -1
    } else if s.last() == c {
        s.len() - 1
    } else {
        last_index_of(s.drop_last(), c)
    }
}

/// What `index_from` returns: no `c` stands before it, and one stands at it
/// unless it is the length.
pub proof fn lemma_index_from(s: Seq<char>, c: char, from: int)
    requires
        0 <= from <= s.len(),
    ensures
        from <= index_from(s, c, from) <= s.len(),
        index_from(s, c, from) < s.len() ==> s[index_from(s, c, from)] == c,
        forall|k: int| from <= k < index_from(s, c, from) ==> s[k] != c,
    decreases s.len() - from,
{
    if from < s.len() && s[from] != c {
        lemma_index_from(s, c, from + 1);
    }
}

/// The first position at or after `from` at which `c` stands in `s`, or the
/// length of `s`.
pub fn find_from(s: &[char], c: char, from: usize) -> (r: usize)
    requires
        from <= s@.len(),
    ensures
        r == index_from(s@, c, from as int),
        from <= r <= s@.len(),
        r < s@.len() ==> s@[r as int] == c,
        forall|k: int| from <= k < r ==> s@[k] != c,
{
    let mut i: usize = from;
    while i < s.len()
        invariant
            from <= i <= s@.len(),
            index_from(s@, c, from as int) == index_from(s@, c, i as int),
            forall|k: int| from <= k < i ==> s@[k] != c,
        decreases s@.len() - i,
    {
        if s[i] == c {
            return i;
        }
        i = i + 1;
    }
    i
}

/// The last position at which `c` stands in `s`.
pub fn rfind(s: &[char], c: char) -> (r: Option<usize>)
    ensures
        r is Some <==> last_index_of(s@, c) >= 0,
        r matches Some(i) ==> i == last_index_of(s@, c) && i < s@.len() && s@[i as int] == c,
{
    let mut n: usize = s.len();
    assert(s@.take(n as int) =~= s@);
    while n > 0
        invariant
            n <= s@.len(),
            last_index_of(s@, c) == last_index_of(s@.take(n as int), c),
        decreases n,
    {
        assert(s@.take(n as int).last() == s@[n - 1]);
        assert(s@.take(n as int).drop_last() =~= s@.take(n - 1));
        if s[n - 1] == c {
            return Some(n - 1);
        }
        n = n - 1;
    }
    None
}

/// Whether `c` is an ASCII digit.
pub open spec fn is_digit(c: char) -> bool {
    '0' <= c && c <= '9'
}

/// Whether `s` holds ASCII digits only.
pub open spec fn all_digits(s: Seq<char>) -> bool {
    forall|i: int| 0 <= i < s.len() ==> is_digit(#[trigger] s[i])
}

/// The number that the decimal digits `s` denote.
pub open spec fn decimal_value(s: Seq<char>) -> nat
    decreases s.len(),
{
    if s.len() == 0 {
        0
    } else {
        decimal_value(s.drop_last()) * 10 + (s.last() as u32 - '0' as u32) as nat
    }
}

/// The digits of an unsigned decimal number as it is parsed: a single leading
/// plus sign is not one of them.
pub open spec fn unsigned_digits(s: Seq<char>) -> Seq<char> {
    if s.len() > 1 && s[0] == '+' {
        s.skip(1)
    } else {
        s
    }
}

/// The unsigned number that `s` denotes, if it denotes one of at most `max`.
pub open spec fn unsigned_value(s: Seq<char>, max: nat) -> Option<nat> {
    let d = unsigned_digits(s);
    if d.len() > 0 && all_digits(d) && decimal_value(d) <= max {
        Some(decimal_value(d))
    } else {
        None
    }
}

proof fn lemma_decimal_value_prefix(s: Seq<char>, n: int)
    requires
        0 <= n <= s.len(),
        all_digits(s),
    ensures
        decimal_value(s.take(n)) <= decimal_value(s),
    decreases s.len(),
{
    if n == s.len() {
        assert(s.take(n) =~= s);
    } else {
        lemma_decimal_value_prefix(s.drop_last(), n);
        assert(s.drop_last().take(n) =~= s.take(n));
        assert(is_digit(s[s.len() - 1]));
    }
}

/// Parses an unsigned decimal number of at most `max`.
pub fn parse_unsigned(s: &[char], max: u64) -> (r: Option<u64>)
    ensures
        r is Some <==> unsigned_value(s@, max as nat) is Some,
        r matches Some(v) ==> Some(v as nat) == unsigned_value(s@, max as nat),
{
    let n: usize = s.len();
    let start: usize = if n > 1 && s[0] == '+' { 1 } else { 0 };
    let ghost d = unsigned_digits(s@);
    assert(d =~= s@.skip(start as int));
    if start == n {
        return None;
    }
    let mut v: u64 = 0;
    let mut i: usize = start;
    assert(d.take(0).len() == 0);
    while i < n
        invariant
            n == s@.len(),
            start <= i <= n,
            start <= 1,
            d == s@.skip(start as int),
            d == unsigned_digits(s@),
            forall|k: int| 0 <= k < i - start ==> is_digit(#[trigger] d[k]),
            v == decimal_value(d.take(i - start)),
            v <= max,
        decreases n - i,
    {
        let c: char = s[i];
        assert(d[i - start] == c);
        if !('0' <= c && c <= '9') {
            assert(!is_digit(d[i - start]));
            return None;
        }
        let digit: u64 = c as u64 - 48;
        proof {
            let t = d.take(i - start + 1);
            assert(t.drop_last() =~= d.take(i - start));
            assert(t.last() == c);
            assert(decimal_value(t) == v * 10 + digit);
            if all_digits(d) {
                lemma_decimal_value_prefix(d, i - start + 1);
            }
        }
        if digit > max || v > (max - digit) / 10 {
            return None;
        }
        v = v * 10 + digit;
        i = i + 1;
    }
    assert(d.take(i - start) =~= d);
    Some(v)
}

/// The character of a digit below 16.
pub open spec fn digit_char(d: nat) -> char {
    if d < 10 {
        ('0' as u32 + d) as char
    } else {
        ('a' as u32 + (d - 10)) as char
    }
}

/// The digits of `n` in `base`, most significant first, without leading zeros.
pub open spec fn digits_in(n: nat, base: nat) -> Seq<char>
    decreases n,
{
    if base < 2 || n < base {
        seq![digit_char(n)]
    } else {
        proof {
            vstd::arithmetic::div_mod::lemma_div_decreases(n as int, base as int);
        }
        digits_in(n / base, base).push(digit_char(n % base))
    }
}

/// The decimal digits of `n`.
pub open spec fn decimal(n: nat) -> Seq<char> {
    digits_in(n, 10)
}

/// The hexadecimal digits of `n`.
pub open spec fn hexadecimal(n: nat) -> Seq<char> {
    digits_in(n, 16)
}

/// The character of a digit below 16.
fn digit_of(d: u8) -> (r: char)
    requires
        d < 16,
    ensures
        r == digit_char(d as nat),
{
    if d < 10 {
        (48 + d) as char
    } else {
        (87 + d) as char
    }
}

/// The digits of `n` in a base of at most 16.
fn digits_vec(n: u64, base: u64) -> (r: Vec<char>)
    requires
        2 <= base <= 16,
    ensures
        r@ == digits_in(n as nat, base as nat),
    decreases n,
{
    if n < base {
        let mut v: Vec<char> = Vec::new();
        v.push(digit_of(n as u8));
        assert(v@ =~= seq![digit_char(n as nat)]);
        v
    } else {
        proof {
            vstd::arithmetic::div_mod::lemma_div_decreases(n as int, base as int);
        }
        let mut v: Vec<char> = digits_vec(n / base, base);
        v.push(digit_of((n % base) as u8));
        v
    }
}

/// The decimal digits of `n`.
pub fn decimal_chars(n: u64) -> (r: Vec<char>)
    ensures
        r@ == decimal(n as nat),
{
    digits_vec(n, 10)
}

/// The hexadecimal digits of `n`.
pub fn hexadecimal_chars(n: u64) -> (r: Vec<char>)
    ensures
        r@ == hexadecimal(n as nat),
{
    digits_vec(n, 16)
}

/// The decimal digits of `n`.
pub fn decimal_text(n: u64) -> (r: String)
    ensures
        r@ == decimal(n as nat),
{
    string_of(&digits_vec(n, 10))
}

/// A number's decimal digits denote it.
pub proof fn law_decimal_roundtrip(n: nat)
    ensures
        decimal(n).len() > 0,
        all_digits(decimal(n)),
        decimal_value(decimal(n)) == n,
    decreases n,
{
    let d = decimal(n);
    if n < 10 {
        assert(d =~= seq![digit_char(n)]);
        assert(d.drop_last().len() == 0);
        assert(decimal_value(d.drop_last()) == 0);
    } else {
        law_decimal_roundtrip(n / 10);
        assert(d.drop_last() =~= decimal(n / 10));
        assert(d.last() == digit_char(n % 10));
    }
}

/// What a number's decimal digits parse to.
pub proof fn law_parse_of_decimal(n: nat, max: nat)
    ensures
        unsigned_value(decimal(n), max) == (if n <= max { Some(n) } else { None }),
{
    law_decimal_roundtrip(n);
    assert(is_digit(decimal(n)[0]));
    assert(unsigned_digits(decimal(n)) == decimal(n));
}

/// Appends the characters of `t`.
pub fn push_text(out: &mut Vec<char>, t: &str)
    ensures
        final(out)@ == old(out)@ + t@,
{
    let mut v: Vec<char> = chars_of(t);
    out.append(&mut v);
}

/// Appends the characters of `t`.
pub fn push_chars(out: &mut Vec<char>, t: &[char])
    ensures
        final(out)@ == old(out)@ + t@,
{
    let mut i: usize = 0;
    assert(out@ =~= old(out)@ + t@.take(0));
    while i < t.len()
        invariant
            i <= t@.len(),
            out@ == old(out)@ + t@.take(i as int),
        decreases t@.len() - i,
    {
        out.push(t[i]);
        i = i + 1;
        assert(t@.take(i as int) =~= t@.take(i - 1).push(t@[i - 1]));
        assert(out@ =~= old(out)@ + t@.take(i as int));
    }
    assert(t@.take(i as int) =~= t@);
}

/// The first position at or after `from` at which white space stands in `s`,
/// or the length of `s`.
pub open spec fn space_from(s: Seq<char>, from: int) -> int
    decreases s.len() - from,
{
    if from >= s.len() {
        s.len() as int
    } else if is_space(s[from]) {
        from
    } else {
        space_from(s, from + 1)
    }
}

pub proof fn lemma_space_from(s: Seq<char>, from: int)
    requires
        0 <= from <= s.len(),
    ensures
        from <= space_from(s, from) <= s.len(),
        from < s.len() && !is_space(s[from]) ==> from < space_from(s, from),
    decreases s.len() - from,
{
    if from < s.len() && !is_space(s[from]) {
        lemma_space_from(s, from + 1);
    }
}

pub proof fn lemma_trimmed_start_len(s: Seq<char>)
    ensures
        trimmed_start(s).len() <= s.len(),
        trimmed_start(s).len() > 0 ==> !is_space(trimmed_start(s)[0]),
    decreases s.len(),
{
    if s.len() > 0 && is_space(s[0]) {
        lemma_trimmed_start_len(s.skip(1));
    }
}

/// The parts of `s` between white space.
pub open spec fn words(s: Seq<char>) -> Seq<Seq<char>>
    decreases s.len(),
{
    let t = trimmed_start(s);
    if t.len() == 0 {
        Seq::empty()
    } else {
        let i = space_from(t, 0);
        proof {
            lemma_trimmed_start_len(s);
            lemma_space_from(t, 0);
        }
        seq![t.take(i)] + words(t.skip(i))
    }
}

/// The numbers of at most `max` among `parts`.
pub open spec fn numbers_among(parts: Seq<Seq<char>>, max: nat) -> Seq<nat>
    decreases parts.len(),
{
    if parts.len() == 0 {
        Seq::empty()
    } else {
        let rest = numbers_among(parts.skip(1), max);
        match unsigned_value(parts[0], max) {
            Some(n) => seq![n] + rest,
            None => rest,
        }
    }
}

/// The numbers of at most `max` that stand between white space in `s`; other
/// words are passed over.
pub fn numbers_in(s: &[char], max: u64) -> (r: Vec<u64>)
    ensures
        r@.map_values(|n: u64| n as nat) == numbers_among(words(s@), max as nat),
{
    let mut out: Vec<u64> = Vec::new();
    let mut rest: &[char] = s;
    let ghost all = numbers_among(words(s@), max as nat);
    assert(Seq::<u64>::empty().map_values(|n: u64| n as nat) + all =~= all);
    loop
        invariant
            all == numbers_among(words(s@), max as nat),
            all == out@.map_values(|n: u64| n as nat) + numbers_among(words(rest@), max as nat),
        decreases rest@.len(),
    {
        let t: &[char] = trim_start(rest);
        let n: usize = t.len();
        proof {
            lemma_trimmed_start_len(rest@);
        }
        if n == 0 {
            assert(numbers_among(words(rest@), max as nat) =~= Seq::<nat>::empty());
            assert(all =~= out@.map_values(|n: u64| n as nat));
            return out;
        }
        let mut i: usize = 0;
        while i < n && !space_char(t[i])
            invariant
                n == t@.len(),
                i <= n,
                space_from(t@, 0) == space_from(t@, i as int),
            decreases n - i,
        {
            i = i + 1;
        }
        proof {
            lemma_space_from(t@, 0);
            let w = words(rest@);
            assert(w.len() > 0 && w[0] == t@.take(i as int));
            assert(w.skip(1) =~= words(t@.skip(i as int)));
            assert(t@.subrange(0, i as int) =~= t@.take(i as int));
            assert(t@.subrange(i as int, n as int) =~= t@.skip(i as int));
        }
        let ghost before = out@.map_values(|n: u64| n as nat);
        if let Some(v) = parse_unsigned(&t[0..i], max) {
            out.push(v);
            proof {
                let tail = numbers_among(words(t@.skip(i as int)), max as nat);
                assert(out@.map_values(|n: u64| n as nat) =~= before.push(v as nat));
                assert(before + (seq![v as nat] + tail) =~= before.push(v as nat) + tail);
            }
        }
        rest = &t[i..n];
    }
}

/// The parts of `s` between the characters `c`; one more than there are of
/// these.
pub open spec fn parts(s: Seq<char>, c: char) -> Seq<Seq<char>>
    decreases s.len(),
{
    let i = index_of(s, c);
    if i < 0 || i >= s.len() {
        seq![s]
    } else {
        seq![s.take(i)] + parts(s.skip(i + 1), c)
    }
}

/// Parts with the character `c` between them.
pub open spec fn joined(p: Seq<Seq<char>>, c: char) -> Seq<char>
    decreases p.len(),
{
    if p.len() == 0 {
        Seq::empty()
    } else if p.len() == 1 {
        p[0]
    } else {
        p[0] + seq![c] + joined(p.skip(1), c)
    }
}

/// Joining the parts of a text gives the text back.
pub proof fn law_joined_parts(s: Seq<char>, c: char)
    ensures
        joined(parts(s, c), c) == s,
        parts(s, c).len() >= 1,
    decreases s.len(),
{
    let i = index_of(s, c);
    lemma_index_from(s, c, 0);
    if i < s.len() {
        law_joined_parts(s.skip(i + 1), c);
        let p = parts(s, c);
        assert(p.skip(1) =~= parts(s.skip(i + 1), c));
        assert(p[0] == s.take(i));
        assert(s.take(i) + seq![c] + s.skip(i + 1) =~= s);
    }
}

/// A position that `index_of` cannot go past.
pub proof fn lemma_index_of(s: Seq<char>, c: char, i: int)
    requires
        0 <= i <= s.len(),
        forall|k: int| 0 <= k < i ==> s[k] != c,
        i == s.len() || s[i] == c,
    ensures
        index_of(s, c) == i,
{
    lemma_index_from(s, c, 0);
}

/// Texts without a character come back when they are joined by it and the whole
/// is taken apart again.
pub proof fn law_parts_of_joined(p: Seq<Seq<char>>, c: char)
    requires
        p.len() > 0,
        forall|i: int| 0 <= i < p.len() ==> !(#[trigger] p[i]).contains(c),
    ensures
        parts(joined(p, c), c) == p,
    decreases p.len(),
{
    let s = joined(p, c);
    assert(!p[0].contains(c));
    assert forall|k: int| 0 <= k < p[0].len() implies p[0][k] != c by {
        assert(p[0].contains(p[0][k]));
    }
    lemma_index_of(s, c, p[0].len() as int);
    if p.len() == 1 {
        assert(p =~= seq![p[0]]);
    } else {
        let rest = p.skip(1);
        assert forall|i: int| 0 <= i < rest.len() implies !(#[trigger] rest[i]).contains(c) by {
            assert(rest[i] == p[i + 1]);
        }
        law_parts_of_joined(rest, c);
        assert(s.take(p[0].len() as int) =~= p[0]);
        assert(s.skip((p[0].len() + 1) as int) =~= joined(rest, c));
        assert(seq![p[0]] + rest =~= p);
    }
}

/// The last place of a character is where it stands and does not stand again.
pub proof fn lemma_last_index_of(s: Seq<char>, c: char, i: int)
    requires
        -1 <= i < s.len(),
        i >= 0 ==> s[i] == c,
        forall|k: int| i < k < s.len() ==> s[k] != c,
    ensures
        last_index_of(s, c) == i,
    decreases s.len(),
{
    if s.len() > 0 && s.last() != c {
        assert forall|k: int| i < k < s.drop_last().len() implies s.drop_last()[k] != c by {
            assert(s[k] != c);
        }
        lemma_last_index_of(s.drop_last(), c, i);
    }
}

/// The parts of `s` between the characters `c`.
pub fn split(s: &[char], c: char) -> (r: Vec<Vec<char>>)
    ensures
        r@.map_values(|v: Vec<char>| v@) == parts(s@, c),
{
    let n: usize = s.len();
    let mut out: Vec<Vec<char>> = Vec::new();
    let mut at: usize = 0;
    let ghost all = parts(s@, c);
    assert(s@.skip(0) =~= s@);
    assert(Seq::<Vec<char>>::empty().map_values(|v: Vec<char>| v@) + all =~= all);
    loop
        invariant
            n == s@.len(),
            at <= n,
            all == parts(s@, c),
            all == out@.map_values(|v: Vec<char>| v@) + parts(s@.skip(at as int), c),
        decreases n - at,
    {
        let rest: &[char] = &s[at..n];
        assert(rest@ =~= s@.skip(at as int));
        let i: usize = find_from(rest, c, 0);
        let ghost before = out@.map_values(|v: Vec<char>| v@);
        let part: Vec<char> = vstd::slice::slice_to_vec(&rest[0..i]);
        let ghost pv = part@;
        assert(pv =~= rest@.take(i as int));
        let last: bool = i >= rest.len();
        out.push(part);
        assert(out@.map_values(|v: Vec<char>| v@) =~= before.push(pv));
        if last {
            assert(pv =~= rest@);
            assert(all =~= before.push(pv));
            return out;
        }
        proof {
            let tail = parts(s@.skip(at + i + 1), c);
            assert(rest@.skip(i + 1) =~= s@.skip(at + i + 1));
            assert(before + (seq![pv] + tail) =~= before.push(pv) + tail);
        }
        at = at + i + 1;
    }
}

/// Parts with the character `c` between them.
pub fn join(p: &Vec<Vec<char>>, c: char) -> (r: Vec<char>)
    ensures
        r@ == joined(p@.map_values(|v: Vec<char>| v@), c),
{
    let ghost views = p@.map_values(|v: Vec<char>| v@);
    let n: usize = p.len();
    let mut out: Vec<char> = Vec::new();
    if n == 0 {
        assert(out@ =~= joined(views, c));
        return out;
    }
    let mut i: usize = 0;
    assert(views.skip(0) =~= views);
    assert(Seq::<char>::empty() + joined(views, c) =~= joined(views, c));
    while n - i > 1
        invariant
            n == p@.len(),
            i < n,
            views == p@.map_values(|v: Vec<char>| v@),
            joined(views, c) == out@ + joined(views.skip(i as int), c),
        decreases n - i,
    {
        let ghost before = out@;
        push_chars(&mut out, p[i].as_slice());
        out.push(c);
        proof {
            let t = views.skip(i as int);
            assert(t[0] == p@[i as int]@);
            assert(t.skip(1) =~= views.skip(i + 1));
            assert(before + joined(t, c) =~= out@ + joined(views.skip(i + 1), c));
        }
        i = i + 1;
    }
    push_chars(&mut out, p[i].as_slice());
    assert(views.skip(i as int).len() == 1);
    assert(views.skip(i as int)[0] == p@[i as int]@);
    out
}

/// The part of `s` from `from` up to `to`.
pub fn slice_of<'a>(s: &'a [char], from: usize, to: usize) -> (r: &'a [char])
    requires
        from <= to <= s@.len(),
    ensures
        r@ == s@.subrange(from as int, to as int),
{
    &s[from..to]
}

/// Whether a text does not come after another in the order of their
/// characters.
pub open spec fn not_after(a: Seq<char>, b: Seq<char>) -> bool
    decreases a.len(),
{
    if a.len() == 0 {
        true
    } else if b.len() == 0 {
        false
    } else if a[0] != b[0] {
        a[0] < b[0]
    } else {
        not_after(a.skip(1), b.skip(1))
    }
}

/// Whether a text does not come after another in the order of their
/// characters.
pub fn in_order(a: &str, b: &str) -> (r: bool)
    ensures
        r == not_after(a@, b@),
{
    let x: Vec<char> = chars_of(a);
    let y: Vec<char> = chars_of(b);
    let mut i: usize = 0;
    assert(a@.skip(0) =~= a@);
    assert(b@.skip(0) =~= b@);
    loop
        invariant
            x@ == a@,
            y@ == b@,
            i <= x@.len(),
            i <= y@.len(),
            not_after(a@, b@) == not_after(a@.skip(i as int), b@.skip(i as int)),
        decreases x@.len() - i,
    {
        if i == x.len() {
            return true;
        }
        if i == y.len() {
            return false;
        }
        assert(a@.skip(i as int)[0] == x@[i as int]);
        assert(b@.skip(i as int)[0] == y@[i as int]);
        if x[i] != y[i] {
            return x[i] < y[i];
        }
        assert(a@.skip(i as int).skip(1) =~= a@.skip(i + 1));
        assert(b@.skip(i as int).skip(1) =~= b@.skip(i + 1));
        i = i + 1;
    }
}

/// The order of texts is total.
pub proof fn lemma_not_after_total(a: Seq<char>, b: Seq<char>)
    ensures
        not_after(a, b) || not_after(b, a),
    decreases a.len(),
{
    if a.len() > 0 && b.len() > 0 && a[0] == b[0] {
        lemma_not_after_total(a.skip(1), b.skip(1));
    }
}

/// The order of texts is transitive.
pub proof fn lemma_not_after_transitive(a: Seq<char>, b: Seq<char>, c: Seq<char>)
    requires
        not_after(a, b),
        not_after(b, c),
    ensures
        not_after(a, c),
    decreases a.len(),
{
    if a.len() > 0 && b.len() > 0 && c.len() > 0 && a[0] == b[0] && b[0] == c[0] {
        lemma_not_after_transitive(a.skip(1), b.skip(1), c.skip(1));
    }
}

/// Capitals are made small, and nothing else changes: two texts become the same
/// exactly if they have the same length and, place by place, the same character
/// or the same letter of the alphabet in another case.
pub proof fn law_letters_are_made_small(s: Seq<char>, i: int)
    requires
        0 <= i < s.len(),
    ensures
        lowercase(s).len() == s.len(),
        'A' <= s[i] && s[i] <= 'Z' ==> lowercase(s)[i] as int == s[i] as int + 32,
        !('A' <= s[i] && s[i] <= 'Z') ==> lowercase(s)[i] == s[i],
{
}

/// Texts are ordered by the first character in which they differ; where one goes
/// on behind the end of the other, the shorter one comes first.
pub proof fn law_order_of_texts(common: Seq<char>, a: Seq<char>, b: Seq<char>)
    ensures
        a.len() > 0 && b.len() > 0 && a[0] != b[0] ==> (not_after(common + a, common + b) <==> a[0]
            < b[0]),
        not_after(common, common + b),
        a.len() > 0 ==> !not_after(common + a, common),
    decreases common.len(),
{
    if common.len() == 0 {
        assert(common + a =~= a);
        assert(common + b =~= b);
    } else {
        let c = common.skip(1);
        law_order_of_texts(c, a, b);
        assert((common + a).skip(1) =~= c + a);
        assert((common + b).skip(1) =~= c + b);
    }
}

} // verus!
