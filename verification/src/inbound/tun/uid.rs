//! Ranges of user ids.
use vstd::prelude::*;

verus! {

/// The largest user id that a range ends with.
pub const UID_MAX: u32 = 0xffff_fffe;

/// Whether `u` lies in one of `ranges`, bounds included.
pub open spec fn covers(ranges: Seq<(u32, u32)>, u: u32) -> bool {
    exists|i: int| 0 <= i < ranges.len() && #[trigger] ranges[i].0 <= u <= ranges[i].1
}

/// Whether no range ends before it begins.
pub open spec fn proper(ranges: Seq<(u32, u32)>) -> bool {
    forall|i: int| 0 <= i < ranges.len() ==> #[trigger] ranges[i].0 <= ranges[i].1
}

/// Whether each range ends before the next begins.
pub open spec fn ascending(ranges: Seq<(u32, u32)>) -> bool {
    &&& proper(ranges)
    &&& forall|i: int, j: int| 0 <= i < j < ranges.len() ==> #[trigger] ranges[i].1 < #[trigger] ranges[j].0
}

/// Whether `ranges` is the shortest ascending list of the ids that it covers:
/// at least one id lies between two ranges.
pub open spec fn merged(ranges: Seq<(u32, u32)>) -> bool {
    &&& proper(ranges)
    &&& forall|i: int, j: int|
        0 <= i < j < ranges.len() ==> #[trigger] ranges[i].1 + 1 < #[trigger] ranges[j].0
}

/// The ids without duplicates, ascending.
fn sorted_ids(ids: &[u32]) -> (r: Vec<u32>)
    ensures
        forall|i: int, j: int| 0 <= i < j < r@.len() ==> r@[i] < r@[j],
        forall|u: u32| r@.contains(u) <==> ids@.contains(u),
{
    let mut r: Vec<u32> = Vec::new();
    let mut k: usize = 0;
    while k < ids.len()
        invariant
            k <= ids@.len(),
            forall|i: int, j: int| 0 <= i < j < r@.len() ==> r@[i] < r@[j],
            forall|u: u32| r@.contains(u) <==> ids@.take(k as int).contains(u),
        decreases ids@.len() - k,
    {
        let x: u32 = ids[k];
        let ghost before = r@;
        let mut at: usize = 0;
        while at < r.len() && r[at] < x
            invariant
                at <= r@.len(),
                forall|i: int| 0 <= i < at ==> r@[i] < x,
            decreases r@.len() - at,
        {
            at = at + 1;
        }
        proof {
            let t = ids@.take(k as int);
            let t1 = ids@.take(k + 1);
            assert(t1 =~= t.push(x));
            assert forall|u: u32| t1.contains(u) <==> t.contains(u) || u == x by {
                if t1.contains(u) {
                    let i = choose|i: int| 0 <= i < t1.len() && t1[i] == u;
                    if i < k {
                        assert(t[i] == u);
                    }
                }
                if t.contains(u) {
                    let i = choose|i: int| 0 <= i < t.len() && t[i] == u;
                    assert(t1[i] == u);
                }
                assert(t1[k as int] == x);
            }
        }
        if at == r.len() || r[at] != x {
            r.insert(at, x);
            proof {
                assert forall|u: u32| r@.contains(u) <==> before.contains(u) || u == x by {
                    if before.contains(u) {
                        let i = choose|i: int| 0 <= i < before.len() && before[i] == u;
                        assert(r@[if i < at { i } else { i + 1 }] == u);
                    }
                    assert(r@[at as int] == x);
                    if r@.contains(u) && u != x {
                        let i = choose|i: int| 0 <= i < r@.len() && r@[i] == u;
                        assert(before[if i < at { i } else { i - 1 }] == u);
                    }
                }
            }
        } else {
            assert(r@[at as int] == x);
            assert(r@.contains(x));
        }
        assert forall|u: u32| r@.contains(u) <==> ids@.take(k + 1).contains(u) by {
            assert(before.contains(u) <==> ids@.take(k as int).contains(u));
        }
        k = k + 1;
    }
    assert(ids@.take(k as int) =~= ids@);
    r
}

/// One range per id, ascending.
fn to_sorted_ranges(ids: &[u32]) -> (r: Vec<(u32, u32)>)
    ensures
        ascending(r@),
        forall|u: u32| covers(r@, u) <==> ids@.contains(u),
        r@.len() == 0 <==> ids@.len() == 0,
{
    let v: Vec<u32> = sorted_ids(ids);
    let mut r: Vec<(u32, u32)> = Vec::new();
    let mut i: usize = 0;
    while i < v.len()
        invariant
            i <= v@.len(),
            r@.len() == i,
            forall|k: int| 0 <= k < i ==> r@[k] == (v@[k], v@[k]),
        decreases v@.len() - i,
    {
        r.push((v[i], v[i]));
        i = i + 1;
    }
    proof {
        assert forall|u: u32| covers(r@, u) <==> ids@.contains(u) by {
            if covers(r@, u) {
                let k = choose|k: int| 0 <= k < r@.len() && #[trigger] r@[k].0 <= u <= r@[k].1;
                assert(v@[k] == u);
                assert(v@.contains(u));
            }
            if ids@.contains(u) {
                assert(v@.contains(u));
                let k = choose|k: int| 0 <= k < v@.len() && v@[k] == u;
                assert(r@[k].0 <= u <= r@[k].1);
            }
        }
        if ids@.len() > 0 {
            assert(ids@.contains(ids@[0]));
            assert(covers(r@, ids@[0]));
        }
        if r@.len() > 0 {
            assert(covers(r@, r@[0].0)) by {
                assert(r@[0].0 <= r@[0].0 <= r@[0].1);
            }
        }
    }
    r
}

proof fn lemma_covers_push(r: Seq<(u32, u32)>, x: (u32, u32))
    ensures
        forall|u: u32| #[trigger] covers(r.push(x), u) <==> covers(r, u) || x.0 <= u <= x.1,
{
    assert forall|u: u32| #[trigger] covers(r.push(x), u) <==> covers(r, u) || x.0 <= u <= x.1 by {
        if covers(r, u) {
            let k = choose|k: int| 0 <= k < r.len() && #[trigger] r[k].0 <= u <= r[k].1;
            assert(r.push(x)[k].0 <= u <= r.push(x)[k].1);
        }
        if x.0 <= u <= x.1 {
            assert(r.push(x)[r.len() as int].0 <= u <= r.push(x)[r.len() as int].1);
        }
        if covers(r.push(x), u) {
            let k = choose|k: int|
                0 <= k < r.len() + 1 && #[trigger] r.push(x)[k].0 <= u <= r.push(x)[k].1;
            if k < r.len() {
                assert(r[k].0 <= u <= r[k].1);
            }
        }
    }
}

/// The parts of `base` that do not lie in `lo..=hi`.
fn subtract_range(base: &Vec<(u32, u32)>, lo: u32, hi: u32) -> (r: Vec<(u32, u32)>)
    requires
        proper(base@),
        lo <= hi,
    ensures
        proper(r@),
        ascending(base@) ==> ascending(r@),
        forall|u: u32| covers(r@, u) <==> covers(base@, u) && !(lo <= u <= hi),
{
    let mut r: Vec<(u32, u32)> = Vec::new();
    let mut i: usize = 0;
    assert forall|u: u32| !covers(base@.take(0), u) by {
    }
    while i < base.len()
        invariant
            proper(base@),
            lo <= hi,
            i <= base@.len(),
            proper(r@),
            ascending(base@) ==> ascending(r@) && forall|k: int, m: int|
                0 <= k < r@.len() && i <= m < base@.len() ==> #[trigger] r@[k].1
                    < #[trigger] base@[m].0,
            forall|u: u32|
                covers(r@, u) <==> covers(base@.take(i as int), u) && !(lo <= u <= hi),
        decreases base@.len() - i,
    {
        let (a, b): (u32, u32) = base[i];
        let ghost before = r@;
        proof {
            assert(base@[i as int].0 <= base@[i as int].1);
            assert(base@.take(i + 1) =~= base@.take(i as int).push((a, b)));
            lemma_covers_push(base@.take(i as int), (a, b));
        }
        if hi < a || lo > b {
            r.push((a, b));
            proof {
                lemma_covers_push(before, (a, b));
            }
        } else {
            if a < lo {
                r.push((a, lo - 1));
                proof {
                    lemma_covers_push(before, (a, (lo - 1) as u32));
                }
            }
            let ghost mid = r@;
            if b > hi {
                r.push((hi + 1, b));
                proof {
                    lemma_covers_push(mid, ((hi + 1) as u32, b));
                }
            }
        }
        i = i + 1;
    }
    assert(base@.take(i as int) =~= base@);
    r
}

/// The parts of `base` that do not lie in any range of `sub`.
pub fn subtract_ranges(base: Vec<(u32, u32)>, sub: &[(u32, u32)]) -> (r: Vec<(u32, u32)>)
    requires
        proper(base@),
        proper(sub@),
    ensures
        proper(r@),
        ascending(base@) ==> ascending(r@),
        forall|u: u32| covers(r@, u) <==> covers(base@, u) && !covers(sub@, u),
{
    let mut r: Vec<(u32, u32)> = base;
    let mut i: usize = 0;
    assert forall|u: u32| !covers(sub@.take(0), u) by {
    }
    while i < sub.len()
        invariant
            proper(sub@),
            i <= sub@.len(),
            proper(r@),
            ascending(base@) ==> ascending(r@),
            forall|u: u32|
                covers(r@, u) <==> covers(base@, u) && !covers(sub@.take(i as int), u),
        decreases sub@.len() - i,
    {
        let (lo, hi): (u32, u32) = sub[i];
        proof {
            assert(sub@[i as int].0 <= sub@[i as int].1);
            assert(sub@.take(i + 1) =~= sub@.take(i as int).push((lo, hi)));
            lemma_covers_push(sub@.take(i as int), (lo, hi));
        }
        r = subtract_range(&r, lo, hi);
        i = i + 1;
    }
    assert(sub@.take(i as int) =~= sub@);
    r
}

/// The ids from `lo` to `hi` that do not lie in any of the ranges.
pub fn complement_ranges(ranges: &[(u32, u32)], lo: u32, hi: u32) -> (r: Vec<(u32, u32)>)
    requires
        ascending(ranges@),
        lo <= hi < u32::MAX,
        forall|i: int| 0 <= i < ranges@.len() ==> lo <= #[trigger] ranges@[i].0 <= hi + 1,
    ensures
        ascending(r@),
        forall|u: u32| covers(r@, u) <==> lo <= u <= hi && !covers(ranges@, u),
{
    let mut r: Vec<(u32, u32)> = Vec::new();
    let mut cur: u32 = lo;
    let mut i: usize = 0;
    assert forall|u: u32| !covers(ranges@.take(0), u) by {
    }
    while i < ranges.len()
        invariant
            ascending(ranges@),
            lo <= hi < u32::MAX,
            forall|k: int| 0 <= k < ranges@.len() ==> lo <= #[trigger] ranges@[k].0 <= hi + 1,
            i <= ranges@.len(),
            lo <= cur,
            i == 0 ==> cur == lo,
            i > 0 ==> cur == (if ranges@[i - 1].1 == u32::MAX {
                u32::MAX as int
            } else {
                ranges@[i - 1].1 + 1
            }),
            ascending(r@),
            forall|k: int| 0 <= k < r@.len() ==> #[trigger] r@[k].1 < cur,
            forall|u: u32|
                covers(r@, u) <==> lo <= u < cur && u <= hi && !covers(ranges@.take(i as int), u),
            forall|u: u32| covers(ranges@.take(i as int), u) ==> u <= cur,
            i > 0 && ranges@[i - 1].1 < u32::MAX ==> forall|u: u32|
                covers(ranges@.take(i as int), u) ==> u < cur,
        decreases ranges@.len() - i,
    {
        let (a, b): (u32, u32) = ranges[i];
        let ghost before = r@;
        let ghost cur0 = cur;
        proof {
            assert(ranges@[i as int].0 <= ranges@[i as int].1);
            assert(ranges@.take(i + 1) =~= ranges@.take(i as int).push((a, b)));
            lemma_covers_push(ranges@.take(i as int), (a, b));
            if i > 0 {
                assert(ranges@[i - 1].1 < ranges@[i as int].0);
            }
            assert(cur <= a);
        }
        if cur < a {
            r.push((cur, a - 1));
            proof {
                lemma_covers_push(before, (cur0, (a - 1) as u32));
            }
        }
        cur = if b == u32::MAX {
            u32::MAX
        } else {
            b + 1
        };
        i = i + 1;
    }
    assert(ranges@.take(i as int) =~= ranges@);
    let ghost before = r@;
    if cur <= hi {
        r.push((cur, hi));
        proof {
            lemma_covers_push(before, (cur, hi));
        }
    }
    r
}

/// The ranges ordered by where they begin.
fn sorted_by_start(ranges: &Vec<(u32, u32)>) -> (r: Vec<(u32, u32)>)
    requires
        proper(ranges@),
    ensures
        proper(r@),
        r@.len() == ranges@.len(),
        forall|i: int, j: int| 0 <= i < j < r@.len() ==> r@[i].0 <= r@[j].0,
        forall|u: u32| covers(r@, u) <==> covers(ranges@, u),
{
    let mut r: Vec<(u32, u32)> = Vec::new();
    let mut k: usize = 0;
    while k < ranges.len()
        invariant
            proper(ranges@),
            k <= ranges@.len(),
            r@.len() == k,
            proper(r@),
            forall|i: int, j: int| 0 <= i < j < r@.len() ==> r@[i].0 <= r@[j].0,
            forall|u: u32| covers(r@, u) <==> covers(ranges@.take(k as int), u),
        decreases ranges@.len() - k,
    {
        let x: (u32, u32) = ranges[k];
        let ghost before = r@;
        let mut at: usize = 0;
        while at < r.len() && r[at].0 < x.0
            invariant
                at <= r@.len(),
                forall|i: int| 0 <= i < at ==> r@[i].0 < x.0,
            decreases r@.len() - at,
        {
            at = at + 1;
        }
        r.insert(at, x);
        proof {
            assert(ranges@[k as int].0 <= ranges@[k as int].1);
            assert(ranges@.take(k + 1) =~= ranges@.take(k as int).push(x));
            lemma_covers_push(ranges@.take(k as int), x);
            assert forall|i: int| 0 <= i < r@.len() implies #[trigger] r@[i].0 <= r@[i].1 by {
                if i < at {
                    assert(before[i].0 <= before[i].1);
                } else if i > at {
                    assert(before[i - 1].0 <= before[i - 1].1);
                }
            }
            assert forall|u: u32| covers(r@, u) <==> covers(before, u) || x.0 <= u <= x.1 by {
                if covers(before, u) {
                    let i = choose|i: int|
                        0 <= i < before.len() && #[trigger] before[i].0 <= u <= before[i].1;
                    let m = if i < at { i } else { i + 1 };
                    assert(r@[m].0 <= u <= r@[m].1);
                }
                if x.0 <= u <= x.1 {
                    assert(r@[at as int].0 <= u <= r@[at as int].1);
                }
                if covers(r@, u) && !(x.0 <= u <= x.1) {
                    let i = choose|i: int|
                        0 <= i < r@.len() && #[trigger] r@[i].0 <= u <= r@[i].1;
                    let m = if i < at { i } else { i - 1 };
                    assert(before[m].0 <= u <= before[m].1);
                }
            }
            assert forall|u: u32| covers(r@, u) <==> covers(ranges@.take(k + 1), u) by {
                assert(covers(before, u) <==> covers(ranges@.take(k as int), u));
            }
        }
        k = k + 1;
    }
    assert(ranges@.take(k as int) =~= ranges@);
    r
}

/// The shortest ascending list of the ids that `ranges` covers.
pub fn merge_ranges(ranges: Vec<(u32, u32)>) -> (r: Vec<(u32, u32)>)
    requires
        proper(ranges@),
    ensures
        merged(r@),
        forall|u: u32| covers(r@, u) <==> covers(ranges@, u),
{
    if ranges.len() == 0 {
        return ranges;
    }
    let s: Vec<(u32, u32)> = sorted_by_start(&ranges);
    let mut r: Vec<(u32, u32)> = Vec::new();
    r.push(s[0]);
    let mut i: usize = 1;
    proof {
        assert(s@[0].0 <= s@[0].1);
        assert(s@.take(1) =~= Seq::<(u32, u32)>::empty().push(s@[0]));
        assert(r@ =~= s@.take(1));
    }
    while i < s.len()
        invariant
            proper(s@),
            forall|k: int, m: int| 0 <= k < m < s@.len() ==> s@[k].0 <= s@[m].0,
            1 <= i <= s@.len(),
            r@.len() > 0,
            merged(r@),
            r@.last().0 <= s@[i - 1].0,
            forall|u: u32| covers(r@, u) <==> covers(s@.take(i as int), u),
        decreases s@.len() - i,
    {
        let (a, b): (u32, u32) = s[i];
        let last: usize = r.len() - 1;
        let (c, d): (u32, u32) = r[last];
        let ghost before = r@;
        proof {
            assert(s@[i as int].0 <= s@[i as int].1);
            assert(r@[last as int].0 <= r@[last as int].1);
            assert(s@.take(i + 1) =~= s@.take(i as int).push((a, b)));
            lemma_covers_push(s@.take(i as int), (a, b));
            assert(before =~= before.drop_last().push((c, d)));
            lemma_covers_push(before.drop_last(), (c, d));
        }
        if d == u32::MAX || a <= d + 1 {
            let e: u32 = if d < b {
                b
            } else {
                d
            };
            r[last] = (c, e);
            proof {
                assert(r@ =~= before.drop_last().push((c, e)));
                lemma_covers_push(before.drop_last(), (c, e));
                assert forall|k: int, m: int| 0 <= k < m < r@.len() implies #[trigger] r@[k].1 + 1
                    < #[trigger] r@[m].0 by {
                    assert(before[k].1 + 1 < before[m].0);
                }
                assert forall|k: int| 0 <= k < r@.len() implies #[trigger] r@[k].0 <= r@[k].1 by {
                    assert(before[k].0 <= before[k].1);
                }
            }
        } else {
            r.push((a, b));
            proof {
                lemma_covers_push(before, (a, b));
                assert forall|k: int, m: int| 0 <= k < m < r@.len() implies #[trigger] r@[k].1 + 1
                    < #[trigger] r@[m].0 by {
                    if m < before.len() {
                        assert(before[k].1 + 1 < before[m].0);
                    } else if k < last {
                        assert(before[k].1 + 1 < before[last as int].0);
                    }
                }
                assert forall|k: int| 0 <= k < r@.len() implies #[trigger] r@[k].0 <= r@[k].1 by {
                    if k < before.len() {
                        assert(before[k].0 <= before[k].1);
                    }
                }
            }
        }
        assert forall|u: u32| covers(r@, u) <==> covers(s@.take(i + 1), u) by {
            assert(covers(before, u) <==> covers(s@.take(i as int), u));
            assert(covers(before.drop_last().push((c, d)), u) <==> covers(before.drop_last(), u)
                || c <= u <= d);
        }
        i = i + 1;
    }
    assert(s@.take(i as int) =~= s@);
    r
}

/// The ids that traffic rules leave out, as a merged list of ranges. With ids
/// to be taken in, all others up to the largest id, and those that are also to
/// be left out; else the ids to be left out.
pub fn build_excluded_uid_ranges(take_in: &[u32], leave_out: &[u32]) -> (r: Vec<(u32, u32)>)
    ensures
        merged(r@),
        forall|u: u32| #[trigger]
            covers(r@, u) <==> if take_in@.len() > 0 {
                u <= UID_MAX && !(take_in@.contains(u) && !leave_out@.contains(u))
            } else {
                leave_out@.contains(u)
            },
{
    if take_in.len() == 0 && leave_out.len() == 0 {
        return Vec::new();
    }
    let wanted: Vec<(u32, u32)> = to_sorted_ranges(take_in);
    let unwanted: Vec<(u32, u32)> = to_sorted_ranges(leave_out);
    if wanted.len() > 0 {
        let kept: Vec<(u32, u32)> = subtract_ranges(wanted, &unwanted);
        merge_ranges(complement_ranges(&kept, 0, UID_MAX))
    } else {
        merge_ranges(unwanted)
    }
}

/// A merged list of ranges is determined by the ids that it covers.
pub proof fn law_merged_is_canonical(a: Seq<(u32, u32)>, b: Seq<(u32, u32)>)
    requires
        merged(a),
        merged(b),
        forall|u: u32| covers(a, u) <==> covers(b, u),
    ensures
        a == b,
    decreases a.len(),
{
    if a.len() == 0 {
        if b.len() > 0 {
            assert(b[0].0 <= b[0].1);
            assert(covers(b, b[0].0));
            assert(covers(a, b[0].0));
        }
        assert(a =~= b);
    } else {
        let x = a.last();
        assert(a[a.len() - 1].0 <= a[a.len() - 1].1);
        assert(covers(a, x.1));
        assert(covers(b, x.1));
        let y = b.last();
        assert(b[b.len() - 1].0 <= b[b.len() - 1].1);
        assert(covers(b, y.1));
        assert(covers(a, y.1));
        lemma_last_is_top(a, y.1);
        lemma_last_is_top(b, x.1);
        assert(x.1 == y.1);
        lemma_last_start(a, b);
        lemma_last_start(b, a);
        assert(x == y);
        lemma_covers_drop_last(a);
        lemma_covers_drop_last(b);
        assert forall|u: u32| covers(a.drop_last(), u) <==> covers(b.drop_last(), u) by {
        }
        law_merged_is_canonical(a.drop_last(), b.drop_last());
        assert(a =~= a.drop_last().push(x));
        assert(b =~= b.drop_last().push(y));
    }
}

proof fn lemma_last_is_top(a: Seq<(u32, u32)>, u: u32)
    requires
        merged(a),
        covers(a, u),
    ensures
        a.len() > 0,
        u <= a.last().1,
{
    let k = choose|k: int| 0 <= k < a.len() && #[trigger] a[k].0 <= u <= a[k].1;
    if k < a.len() - 1 {
        assert(a[k].1 + 1 < a[a.len() - 1].0);
        assert(a[a.len() - 1].0 <= a[a.len() - 1].1);
    }
}

proof fn lemma_last_start(a: Seq<(u32, u32)>, b: Seq<(u32, u32)>)
    requires
        merged(a),
        merged(b),
        a.len() > 0,
        b.len() > 0,
        a.last().1 == b.last().1,
        forall|u: u32| covers(a, u) <==> covers(b, u),
    ensures
        a.last().0 <= b.last().0,
{
    let x = a.last();
    let y = b.last();
    assert(a[a.len() - 1].0 <= a[a.len() - 1].1);
    assert(b[b.len() - 1].0 <= b[b.len() - 1].1);
    if y.0 < x.0 {
        let u = (x.0 - 1) as u32;
        assert(b[b.len() - 1].0 <= u <= b[b.len() - 1].1);
        assert(covers(b, u));
        assert(covers(a, u));
        let k = choose|k: int| 0 <= k < a.len() && #[trigger] a[k].0 <= u <= a[k].1;
        assert(k < a.len() - 1);
        assert(a[k].1 + 1 < a[a.len() - 1].0);
    }
}

proof fn lemma_covers_drop_last(a: Seq<(u32, u32)>)
    requires
        merged(a),
        a.len() > 0,
    ensures
        merged(a.drop_last()),
        forall|u: u32| #[trigger]
            covers(a.drop_last(), u) <==> covers(a, u) && !(a.last().0 <= u <= a.last().1),
{
    let d = a.drop_last();
    assert(a =~= d.push(a.last()));
    lemma_covers_push(d, a.last());
    assert forall|i: int| 0 <= i < d.len() implies #[trigger] d[i].0 <= d[i].1 by {
        assert(a[i].0 <= a[i].1);
    }
    assert forall|i: int, j: int| 0 <= i < j < d.len() implies #[trigger] d[i].1 + 1
        < #[trigger] d[j].0 by {
        assert(a[i].1 + 1 < a[j].0);
    }
    assert forall|u: u32| #[trigger] covers(d, u) <==> covers(a, u) && !(a.last().0 <= u
        <= a.last().1) by {
        if covers(d, u) {
            let k = choose|k: int| 0 <= k < d.len() && #[trigger] d[k].0 <= u <= d[k].1;
            assert(a[k].1 + 1 < a[a.len() - 1].0);
        }
    }
}

} // verus!
