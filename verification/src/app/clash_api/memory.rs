//! The memory that the process uses.
use vstd::prelude::*;
use crate::app::sniff_forms;
use crate::text;

verus! {

/// A text without what it ends with, as often as it ends with it.
pub open spec fn without_suffixes(s: Seq<char>, suffix: Seq<char>) -> Seq<char>
    decreases s.len(),
{
    if suffix.len() > 0 && text::has_suffix(s, suffix) {
        without_suffixes(s.take(s.len() - suffix.len()), suffix)
    } else {
        s
    }
}

/// The number of kilobytes in what follows the name of the entry.
pub open spec fn kilobytes(rest: Seq<char>) -> Option<nat> {
    text::unsigned_value(
        text::trimmed(without_suffixes(text::trimmed(rest), " kB"@)),
        u64::MAX as nat,
    )
}

/// The number of kilobytes in the first of the lines, from `i` on, that begins
/// with the name of the entry.
pub open spec fn resident_from(lines: Seq<Seq<char>>, i: int) -> Option<nat>
    decreases lines.len() - i,
{
    if i < 0 || i >= lines.len() {
        None
    } else if text::has_prefix(lines[i], "VmRSS:"@) {
        kilobytes(lines[i].skip("VmRSS:"@.len() as int))
    } else {
        resident_from(lines, i + 1)
    }
}

/// The kilobytes of memory that a process uses, out of what the system says of
/// it.
pub open spec fn resident(status: Seq<char>) -> Option<nat> {
    resident_from(text::parts(status, '\n'), 0)
}

fn strip_suffixes<'a>(s: &'a [char], suffix: &str) -> (r: &'a [char])
    requires
        suffix@.len() > 0,
    ensures
        r@ == without_suffixes(s@, suffix@),
{
    let k: Vec<char> = text::chars_of(suffix);
    let len: usize = k.len();
    let mut n: usize = s.len();
    let mut cur: &'a [char] = s;
    while text::ends_with(cur, suffix)
        invariant
            k@ == suffix@,
            len == k@.len(),
            len > 0,
            without_suffixes(s@, suffix@) == without_suffixes(cur@, suffix@),
            n == cur@.len(),
        decreases n,
    {
        let ghost before = cur@;
        cur = text::slice_of(cur, 0, n - len);
        n = n - len;
        assert(cur@ =~= before.take(before.len() - suffix@.len()));
    }
    cur
}

/// The kilobytes of memory that a process uses, out of what the system says of
/// it.
pub fn resident_kb(status: &str) -> (r: Option<u64>)
    ensures
        match r {
            Some(k) => resident(status@) == Some(k as nat),
            None => resident(status@) is None,
        },
{
    proof {
        reveal_strlit(" kB");
        reveal_strlit("VmRSS:");
    }
    let chars: Vec<char> = text::chars_of(status);
    let lines: Vec<Vec<char>> = text::split(chars.as_slice(), '\n');
    let ghost p = text::parts(status@, '\n');
    let mut i: usize = 0;
    while i < lines.len()
        invariant
            i <= lines@.len(),
            p == text::parts(status@, '\n'),
            lines@.map_values(|v: Vec<char>| v@) == p,
            " kB"@.len() > 0,
            resident_from(p, 0) == resident_from(p, i as int),
        decreases lines@.len() - i,
    {
        assert(p[i as int] == lines@[i as int]@);
        if let Some(rest) = text::strip_prefix(lines[i].as_slice(), "VmRSS:") {
            let t: &[char] = text::trim(strip_suffixes(text::trim(rest), " kB"));
            return text::parse_unsigned(t, u64::MAX);
        }
        i = i + 1;
    }
    None
}

/// The bytes of memory in use: none where nothing is known.
pub fn in_use(kb: Option<u64>) -> (r: u64)
    requires
        kb matches Some(k) ==> k * 1024 <= u64::MAX,
    ensures
        r == (match kb {
            Some(k) => k * 1024,
            None => 0,
        }),
{
    match kb {
        Some(k) => k * 1024,
        None => 0,
    }
}

proof fn lemma_resident(lines: Seq<Seq<char>>, i: int, k: int)
    requires
        0 <= i <= k <= lines.len(),
        forall|j: int| i <= j < k ==> !text::has_prefix(#[trigger] lines[j], "VmRSS:"@),
    ensures
        resident_from(lines, i) == resident_from(lines, k),
    decreases k - i,
{
    if i < k {
        assert(!text::has_prefix(lines[i], "VmRSS:"@));
        lemma_resident(lines, i + 1, k);
    }
}

/// The memory of a process is the number in the first line that begins with
/// `VmRSS:`, before `kB`, whatever the other lines are.
pub proof fn law_resident_memory_is_read(
    lines: Seq<Seq<char>>,
    k: int,
    gap: Seq<char>,
    n: nat,
)
    requires
        lines.len() > 0,
        forall|i: int| 0 <= i < lines.len() ==> !(#[trigger] lines[i]).contains('\n'),
        0 <= k <= lines.len(),
        forall|j: int| 0 <= j < k ==> !text::has_prefix(#[trigger] lines[j], "VmRSS:"@),
        k < lines.len() ==> lines[k] == "VmRSS:"@ + gap + text::decimal(n) + " kB"@,
        forall|i: int| 0 <= i < gap.len() ==> #[trigger] gap[i] == ' ' || gap[i] == '\t',
        n <= u64::MAX,
    ensures
        resident(text::joined(lines, '\n')) == (if k < lines.len() {
            Some(n)
        } else {
            None
        }),
{
    text::law_parts_of_joined(lines, '\n');
    lemma_resident(lines, 0, k);
    if k < lines.len() {
        reveal_strlit("VmRSS:");
        reveal_strlit(" kB");
        let line = lines[k];
        let d = text::decimal(n);
        let e = Seq::<char>::empty();
        assert(line.take(6) =~= "VmRSS:"@);
        let rest = line.skip(6);
        let v = d + " kB"@;
        assert(rest =~= gap + v);
        text::law_decimal_roundtrip(n);
        assert(text::is_digit(d[0]) && text::is_digit(d.last()));
        assert forall|i: int| 0 <= i < gap.len() implies text::is_space(#[trigger] gap[i]) by {
            assert(gap[i] == ' ' || gap[i] == '\t');
        }
        assert(v[0] == d[0]);
        sniff_forms::lemma_trimmed_start(gap, v);
        assert(v.last() == 'B');
        assert(v =~= v + e);
        sniff_forms::lemma_trimmed_end(v, e);
        assert(v.skip(v.len() - 3) =~= " kB"@);
        assert(v.take(v.len() - 3) =~= d);
        assert(!text::has_suffix(d, " kB"@)) by {
            if text::has_suffix(d, " kB"@) {
                assert(d.skip(d.len() - 3)[2] == d.last());
            }
        }
        reveal_with_fuel(without_suffixes, 2);
        assert(without_suffixes(v, " kB"@) == d);
        assert(e + d =~= d && d + e =~= d);
        sniff_forms::lemma_trimmed_start(e, d);
        sniff_forms::lemma_trimmed_end(d, e);
        text::law_parse_of_decimal(n, u64::MAX as nat);
    }
}

} // verus!
