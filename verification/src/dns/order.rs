//! The order in which DNS servers are set up: each after the one that resolves
//! its own name.
use vstd::prelude::*;
use crate::config::dns::DnsServerConfig;

verus! {

/// Why there is no order.
#[derive(Clone, Copy, Debug, PartialEq, Eq, Structural)]
pub enum OrderError {
    /// The resolver of this server does not exist.
    Missing { server: usize },
    /// These two servers resolve each other's names, or one its own.
    Pair { server: usize, resolver: usize },
    /// Some servers resolve each other's names in a circle.
    Cycle,
}

/// The last server among the first `n` with a tag, or -1.
pub open spec fn last_with_tag(servers: Seq<DnsServerConfig>, n: int, tag: Seq<char>) -> int
    decreases n,
{
    if n <= 0 {
        -1
    } else if servers[n - 1].tag@ == tag {
        n - 1
    } else {
        last_with_tag(servers, n - 1, tag)
    }
}

/// The server that each server waits for; -1 stands for one that does not
/// exist.
pub open spec fn waits_for(servers: Seq<DnsServerConfig>) -> Seq<Option<int>> {
    Seq::new(
        servers.len(),
        |i: int|
            match servers[i].domain_resolver {
                Some(t) => Some(last_with_tag(servers, servers.len() as int, t@)),
                None => None,
            },
    )
}

/// The first server from `i` on that waits for one that does not exist, or for
/// one up to itself that waits for it.
pub open spec fn scan_error(deps: Seq<Option<int>>, i: int) -> Option<OrderError>
    decreases deps.len() - i,
{
    if i < 0 || i >= deps.len() {
        None
    } else {
        match deps[i] {
            None => scan_error(deps, i + 1),
            Some(j) => if j < 0 {
                Some(OrderError::Missing { server: i as usize })
            } else if j <= i && deps[j] == Some(i) {
                Some(OrderError::Pair { server: i as usize, resolver: j as usize })
            } else {
                scan_error(deps, i + 1)
            },
        }
    }
}

/// Whether at most `fuel` steps of waiting lead from `i` to a server that waits
/// for none.
pub open spec fn grounded(deps: Seq<Option<int>>, i: int, fuel: nat) -> bool
    decreases fuel,
{
    match deps[i] {
        None => true,
        Some(j) => fuel > 0 && grounded(deps, j, (fuel - 1) as nat),
    }
}

/// Whether waiting leads from `i` to a server that waits for none.
pub open spec fn ends(deps: Seq<Option<int>>, i: int) -> bool {
    exists|fuel: nat| grounded(deps, i, fuel)
}

/// Those of the first `n` servers that wait for none.
pub open spec fn roots(deps: Seq<Option<int>>, n: int) -> Seq<int>
    decreases n,
{
    if n <= 0 {
        Seq::empty()
    } else if deps[n - 1] is None {
        roots(deps, n - 1).push(n - 1)
    } else {
        roots(deps, n - 1)
    }
}

/// Those of the first `n` servers that wait for `node`.
pub open spec fn waiting(deps: Seq<Option<int>>, node: int, n: int) -> Seq<int>
    decreases n,
{
    if n <= 0 {
        Seq::empty()
    } else if deps[n - 1] == Some(node) {
        waiting(deps, node, n - 1).push(n - 1)
    } else {
        waiting(deps, node, n - 1)
    }
}

/// Those that wait for the nodes of `s`, node by node.
pub open spec fn waiting_for_all(deps: Seq<Option<int>>, s: Seq<int>) -> Seq<int>
    decreases s.len(),
{
    if s.len() == 0 {
        Seq::empty()
    } else {
        waiting_for_all(deps, s.drop_last()) + waiting(deps, s.last(), deps.len() as int)
    }
}

/// Whether `order` is the order of setting up: first those that wait for none,
/// then, for each server in the order itself, those that wait for it. As every
/// server comes after the one that puts it there, this determines the order.
pub open spec fn is_order(deps: Seq<Option<int>>, order: Seq<int>) -> bool {
    order == roots(deps, deps.len() as int) + waiting_for_all(deps, order)
}

/// Whether every server comes after the one that it waits for.
pub open spec fn respects(deps: Seq<Option<int>>, order: Seq<int>) -> bool {
    forall|k: int|
        0 <= k < order.len() ==> (deps[#[trigger] order[k]] matches Some(j) ==> order.take(
            k,
        ).contains(j))
}

/// The numbers as integers.
pub open spec fn ints(v: Seq<usize>) -> Seq<int> {
    v.map_values(|x: usize| x as int)
}

spec fn in_range(deps: Seq<Option<int>>) -> bool {
    forall|i: int|
        0 <= i < deps.len() ==> (#[trigger] deps[i] matches Some(j) ==> 0 <= j < deps.len())
}

proof fn lemma_roots(deps: Seq<Option<int>>, n: int)
    requires
        0 <= n <= deps.len(),
    ensures
        roots(deps, n).no_duplicates(),
        forall|x: int| #[trigger] roots(deps, n).contains(x) <==> 0 <= x < n && deps[x] is None,
    decreases n,
{
    if n > 0 {
        lemma_roots(deps, n - 1);
        let r = roots(deps, n - 1);
        let s = roots(deps, n);
        assert forall|x: int| #[trigger] s.contains(x) <==> 0 <= x < n && deps[x] is None by {
            if deps[n - 1] is None {
                lemma_push_contains(r, n - 1, x);
            }
            assert(r.contains(x) <==> 0 <= x < n - 1 && deps[x] is None);
        }
        assert(!r.contains(n - 1));
    }
}

proof fn lemma_push_contains(s: Seq<int>, y: int, x: int)
    ensures
        s.push(y).contains(x) <==> s.contains(x) || x == y,
{
    if s.contains(x) {
        let i = choose|i: int| 0 <= i < s.len() && s[i] == x;
        assert(s.push(y)[i] == x);
    }
    assert(s.push(y)[s.len() as int] == y);
    if s.push(y).contains(x) && x != y {
        let i = choose|i: int| 0 <= i < s.push(y).len() && s.push(y)[i] == x;
        assert(s[i] == x);
    }
}

proof fn lemma_concat_contains(a: Seq<int>, b: Seq<int>, x: int)
    ensures
        (a + b).contains(x) <==> a.contains(x) || b.contains(x),
{
    if a.contains(x) {
        let i = choose|i: int| 0 <= i < a.len() && a[i] == x;
        assert((a + b)[i] == x);
    }
    if b.contains(x) {
        let i = choose|i: int| 0 <= i < b.len() && b[i] == x;
        assert((a + b)[a.len() + i] == x);
    }
    if (a + b).contains(x) {
        let i = choose|i: int| 0 <= i < (a + b).len() && (a + b)[i] == x;
        if i < a.len() {
            assert(a[i] == x);
        } else {
            assert(b[i - a.len()] == x);
        }
    }
}

proof fn lemma_concat_unique(a: Seq<int>, b: Seq<int>)
    requires
        a.no_duplicates(),
        b.no_duplicates(),
        forall|x: int| a.contains(x) ==> !b.contains(x),
    ensures
        (a + b).no_duplicates(),
{
    let c = a + b;
    assert forall|i: int, j: int| 0 <= i < c.len() && 0 <= j < c.len() && i != j implies c[i]
        != c[j] by {
        if i < a.len() && j >= a.len() {
            assert(a.contains(a[i]));
            assert(b.contains(b[j - a.len()]));
        } else if j < a.len() && i >= a.len() {
            assert(a.contains(a[j]));
            assert(b.contains(b[i - a.len()]));
        }
    }
}

proof fn lemma_waiting(deps: Seq<Option<int>>, node: int, n: int)
    requires
        0 <= n <= deps.len(),
    ensures
        waiting(deps, node, n).no_duplicates(),
        forall|x: int| #[trigger]
            waiting(deps, node, n).contains(x) <==> 0 <= x < n && deps[x] == Some(node),
    decreases n,
{
    if n > 0 {
        lemma_waiting(deps, node, n - 1);
        let r = waiting(deps, node, n - 1);
        let s = waiting(deps, node, n);
        assert forall|x: int| #[trigger] s.contains(x) <==> 0 <= x < n && deps[x] == Some(node) by {
            if deps[n - 1] == Some(node) {
                lemma_push_contains(r, n - 1, x);
            }
            assert(r.contains(x) <==> 0 <= x < n - 1 && deps[x] == Some(node));
        }
        assert(!r.contains(n - 1));
    }
}

proof fn lemma_waiting_for_all(deps: Seq<Option<int>>, s: Seq<int>)
    requires
        s.no_duplicates(),
    ensures
        waiting_for_all(deps, s).no_duplicates(),
        forall|x: int| #[trigger]
            waiting_for_all(deps, s).contains(x) <==> 0 <= x < deps.len() && deps[x] is Some
                && s.contains(deps[x]->0),
    decreases s.len(),
{
    if s.len() > 0 {
        let d = s.drop_last();
        lemma_waiting_for_all(deps, d);
        lemma_waiting(deps, s.last(), deps.len() as int);
        let a = waiting_for_all(deps, d);
        let b = waiting(deps, s.last(), deps.len() as int);
        assert(s =~= d.push(s.last()));
        assert(!d.contains(s.last())) by {
            if d.contains(s.last()) {
                let i = choose|i: int| 0 <= i < d.len() && d[i] == s.last();
                assert(s[i] == s[s.len() - 1]);
            }
        }
        assert forall|x: int| #[trigger]
            waiting_for_all(deps, s).contains(x) <==> 0 <= x < deps.len() && deps[x] is Some
                && s.contains(deps[x]->0) by {
            lemma_concat_contains(a, b, x);
            assert(a.contains(x) <==> 0 <= x < deps.len() && deps[x] is Some && d.contains(
                deps[x]->0,
            ));
            assert(b.contains(x) <==> 0 <= x < deps.len() && deps[x] == Some(s.last()));
            if 0 <= x < deps.len() && deps[x] is Some {
                lemma_push_contains(d, s.last(), deps[x]->0);
            }
        }
        assert forall|x: int| a.contains(x) implies !b.contains(x) by {
        }
        lemma_concat_unique(a, b);
    }
}

proof fn lemma_pigeonhole(s: Seq<int>, n: int)
    requires
        0 <= n,
        s.no_duplicates(),
        forall|i: int| 0 <= i < s.len() ==> 0 <= #[trigger] s[i] < n,
    ensures
        s.len() <= n,
        s.len() == n ==> forall|x: int| 0 <= x < n ==> #[trigger] s.contains(x),
{
    let all = vstd::set_lib::set_int_range(0, n);
    vstd::set_lib::lemma_int_range(0, n);
    s.unique_seq_to_set();
    assert(s.to_set().subset_of(all)) by {
        assert forall|x: int| s.to_set().contains(x) implies all.contains(x) by {
            let i = choose|i: int| 0 <= i < s.len() && s[i] == x;
        }
    }
    vstd::set_lib::lemma_len_subset(s.to_set(), all);
    if s.len() == n {
        vstd::set_lib::lemma_subset_equality(s.to_set(), all);
        assert forall|x: int| 0 <= x < n implies #[trigger] s.contains(x) by {
            assert(all.contains(x));
            assert(s.to_set().contains(x));
        }
    }
}

proof fn lemma_grounded_in(deps: Seq<Option<int>>, s: Seq<int>, i: int, fuel: nat)
    requires
        in_range(deps),
        0 <= i < deps.len(),
        grounded(deps, i, fuel),
        forall|x: int|
            0 <= x < deps.len() && (deps[x] is None || s.contains(deps[x]->0))
                ==> #[trigger] s.contains(x),
    ensures
        s.contains(i),
    decreases fuel,
{
    if let Some(j) = deps[i] {
        lemma_grounded_in(deps, s, j, (fuel - 1) as nat);
    }
    assert(deps[i] is None || s.contains(deps[i]->0));
}

proof fn lemma_ordered_grounded(deps: Seq<Option<int>>, order: Seq<int>, k: int)
    requires
        respects(deps, order),
        0 <= k < order.len(),
    ensures
        grounded(deps, order[k], k as nat),
    decreases k,
{
    if let Some(j) = deps[order[k]] {
        assert(order.take(k).contains(j));
        let m = choose|m: int| 0 <= m < order.take(k).len() && order.take(k)[m] == j;
        assert(order[m] == j);
        lemma_ordered_grounded(deps, order, m);
        lemma_grounded_more(deps, j, m as nat, (k - 1) as nat);
    }
}

proof fn lemma_grounded_more(deps: Seq<Option<int>>, i: int, a: nat, b: nat)
    requires
        grounded(deps, i, a),
        a <= b,
    ensures
        grounded(deps, i, b),
    decreases a,
{
    if let Some(j) = deps[i] {
        lemma_grounded_more(deps, j, (a - 1) as nat, (b - 1) as nat);
    }
}

proof fn lemma_waiting_prefix(deps: Seq<Option<int>>, s: Seq<int>, k: int)
    requires
        0 <= k <= s.len(),
    ensures
        waiting_for_all(deps, s.take(k)).len() <= waiting_for_all(deps, s).len(),
        waiting_for_all(deps, s).take(waiting_for_all(deps, s.take(k)).len() as int)
            == waiting_for_all(deps, s.take(k)),
    decreases s.len(),
{
    if k == s.len() {
        assert(s.take(k) =~= s);
        assert(waiting_for_all(deps, s).take(waiting_for_all(deps, s).len() as int)
            =~= waiting_for_all(deps, s));
    } else {
        let d = s.drop_last();
        lemma_waiting_prefix(deps, d, k);
        assert(d.take(k) =~= s.take(k));
        let a = waiting_for_all(deps, s.take(k));
        assert(waiting_for_all(deps, s).take(a.len() as int) =~= waiting_for_all(deps, d).take(
            a.len() as int,
        ));
    }
}

/// Whether `order` holds every server once.
pub open spec fn is_complete(deps: Seq<Option<int>>, order: Seq<int>) -> bool {
    &&& order.len() == deps.len()
    &&& order.no_duplicates()
    &&& forall|k: int| 0 <= k < order.len() ==> 0 <= #[trigger] order[k] < deps.len()
}

proof fn lemma_same_prefix(deps: Seq<Option<int>>, a: Seq<int>, b: Seq<int>, k: int)
    requires
        forall|i: int|
            0 <= i < deps.len() ==> (#[trigger] deps[i] matches Some(j) ==> 0 <= j < deps.len()),
        forall|i: int| 0 <= i < deps.len() ==> #[trigger] ends(deps, i),
        is_order(deps, a),
        is_complete(deps, a),
        is_order(deps, b),
        is_complete(deps, b),
        0 <= k <= deps.len(),
    ensures
        a.take(k) == b.take(k),
    decreases k,
{
    let n = deps.len() as int;
    if k == 0 {
        assert(a.take(0) =~= b.take(0));
    } else {
        lemma_same_prefix(deps, a, b, k - 1);
        let p = a.take(k - 1);
        let f = roots(deps, n) + waiting_for_all(deps, p);
        lemma_waiting_prefix(deps, a, k - 1);
        lemma_waiting_prefix(deps, b, k - 1);
        assert(a.take(f.len() as int) =~= f);
        assert(b.take(f.len() as int) =~= f);
        if f.len() < k {
            // nothing is left to put at the place before `k`, yet something is there
            let x = a[k - 1];
            assert(in_range(deps));
            assert(p.no_duplicates());
            lemma_roots(deps, n);
            lemma_waiting_for_all(deps, p);
            assert forall|y: int|
                0 <= y < deps.len() && (deps[y] is None || f.contains(
                    deps[y]->0,
                )) implies #[trigger] f.contains(y) by {
                lemma_concat_contains(roots(deps, n), waiting_for_all(deps, p), y);
                if deps[y] is Some {
                    let m = choose|m: int| 0 <= m < f.len() && f[m] == deps[y]->0;
                    assert(a.take(f.len() as int)[m] == deps[y]->0);
                    assert(p[m] == deps[y]->0);
                    assert(p.contains(deps[y]->0));
                    assert(waiting_for_all(deps, p).contains(y));
                } else {
                    assert(roots(deps, n).contains(y));
                }
            }
            assert(ends(deps, x));
            let fuel = choose|fuel: nat| grounded(deps, x, fuel);
            lemma_grounded_in(deps, f, x, fuel);
            let m = choose|m: int| 0 <= m < f.len() && f[m] == x;
            assert(a.take(f.len() as int)[m] == x);
            assert(a[m] == a[k - 1]);
            assert(false);
        }
        assert(a.take(f.len() as int)[k - 1] == b.take(f.len() as int)[k - 1]);
        assert(a.take(k) =~= a.take(k - 1).push(a[k - 1]));
        assert(b.take(k) =~= b.take(k - 1).push(b[k - 1]));
    }
}

/// There is only one order of setting up.
pub proof fn law_order_is_unique(deps: Seq<Option<int>>, a: Seq<int>, b: Seq<int>)
    requires
        forall|i: int|
            0 <= i < deps.len() ==> (#[trigger] deps[i] matches Some(j) ==> 0 <= j < deps.len()),
        forall|i: int| 0 <= i < deps.len() ==> #[trigger] ends(deps, i),
        is_order(deps, a),
        is_complete(deps, a),
        is_order(deps, b),
        is_complete(deps, b),
    ensures
        a == b,
{
    lemma_same_prefix(deps, a, b, deps.len() as int);
    assert(a.take(deps.len() as int) =~= a);
    assert(b.take(deps.len() as int) =~= b);
}

/// The last server with a tag.
fn find_tag(servers: &[DnsServerConfig], tag: &String) -> (r: Option<usize>)
    ensures
        match r {
            Some(i) => i == last_with_tag(servers@, servers@.len() as int, tag@) && i
                < servers@.len(),
            None => last_with_tag(servers@, servers@.len() as int, tag@) == -1,
        },
{
    let mut n: usize = servers.len();
    while n > 0
        invariant
            n <= servers@.len(),
            last_with_tag(servers@, servers@.len() as int, tag@) == last_with_tag(
                servers@,
                n as int,
                tag@,
            ),
        decreases n,
    {
        if servers[n - 1].tag == *tag {
            return Some(n - 1);
        }
        n = n - 1;
    }
    None
}

spec fn dep_view(d: Option<usize>) -> Option<int> {
    match d {
        Some(j) => Some(j as int),
        None => None,
    }
}

/// What each server waits for.
fn collect_deps(servers: &[DnsServerConfig]) -> (r: Result<Vec<Option<usize>>, OrderError>)
    ensures
        match r {
            Ok(d) => {
                &&& scan_error(waits_for(servers@), 0) is None
                &&& d@.len() == servers@.len()
                &&& forall|i: int|
                    0 <= i < d@.len() ==> dep_view(#[trigger] d@[i]) == waits_for(servers@)[i]
                        && (d@[i] matches Some(j) ==> j < servers@.len())
            },
            Err(e) => scan_error(waits_for(servers@), 0) == Some(e),
        },
{
    let ghost deps = waits_for(servers@);
    let mut d: Vec<Option<usize>> = Vec::new();
    let mut i: usize = 0;
    while i < servers.len()
        invariant
            deps == waits_for(servers@),
            i <= servers@.len(),
            d@.len() == i,
            forall|k: int|
                0 <= k < i ==> dep_view(#[trigger] d@[k]) == deps[k] && (d@[k] matches Some(j)
                    ==> j < servers@.len()),
            scan_error(deps, 0) == scan_error(deps, i as int),
        decreases servers@.len() - i,
    {
        let dep: Option<usize> = match &servers[i].domain_resolver {
            Some(tag) => match find_tag(servers, tag) {
                Some(j) => Some(j),
                None => {
                    assert(deps[i as int] == Some(-1int));
                    return Err(OrderError::Missing { server: i });
                },
            },
            None => None,
        };
        d.push(dep);
        assert(dep_view(d@[i as int]) == deps[i as int]);
        if let Some(j) = dep {
            if j <= i {
                assert(dep_view(d@[j as int]) == deps[j as int]);
                if let Some(k) = d[j] {
                    if k == i {
                        return Err(OrderError::Pair { server: i, resolver: j });
                    }
                }
            }
        }
        i = i + 1;
    }
    Ok(d)
}

/// Orders servers so that each comes after the one that resolves its name.
pub fn toposort_servers(servers: &[DnsServerConfig]) -> (r: Result<Vec<usize>, OrderError>)
    ensures
        match r {
            Ok(order) => {
                let deps = waits_for(servers@);
                &&& scan_error(deps, 0) is None
                &&& forall|i: int| 0 <= i < deps.len() ==> #[trigger] ends(deps, i)
                &&& is_order(deps, ints(order@))
                &&& is_complete(deps, ints(order@))
                &&& forall|x: int|
                    0 <= x < servers@.len() ==> #[trigger] ints(order@).contains(x)
                &&& respects(deps, ints(order@))
            },
            Err(OrderError::Cycle) => {
                let deps = waits_for(servers@);
                &&& scan_error(deps, 0) is None
                &&& exists|i: int| 0 <= i < deps.len() && !#[trigger] ends(deps, i)
            },
            Err(e) => scan_error(waits_for(servers@), 0) == Some(e),
        },
{
    let n: usize = servers.len();
    let d: Vec<Option<usize>> = match collect_deps(servers) {
        Ok(d) => d,
        Err(e) => {
            proof {
                lemma_scan_is_no_cycle(waits_for(servers@), 0);
            }
            return Err(e);
        },
    };
    let ghost deps = waits_for(servers@);
    assert(in_range(deps)) by {
        assert forall|i: int| 0 <= i < deps.len() implies (#[trigger] deps[i] matches Some(j)
            ==> 0 <= j < deps.len()) by {
            assert(dep_view(d@[i]) == deps[i]);
        }
    }
    let mut order: Vec<usize> = Vec::new();
    let mut i: usize = 0;
    assert(ints(order@) =~= Seq::<int>::empty());
    while i < n
        invariant
            n == d@.len(),
            n == deps.len(),
            forall|k: int| 0 <= k < n ==> dep_view(#[trigger] d@[k]) == deps[k],
            i <= n,
            ints(order@) == roots(deps, i as int),
            forall|k: int| 0 <= k < order@.len() ==> #[trigger] order@[k] < n,
        decreases n - i,
    {
        assert(dep_view(d@[i as int]) == deps[i as int]);
        if d[i].is_none() {
            let ghost before = ints(order@);
            order.push(i);
            assert(ints(order@) =~= before.push(i as int));
        }
        i = i + 1;
    }
    proof {
        lemma_roots(deps, n as int);
        let o = ints(order@);
        assert(o.take(0) =~= Seq::<int>::empty());
        assert(o + Seq::<int>::empty() =~= o);
        assert forall|k: int| 0 <= k < o.len() implies (deps[#[trigger] o[k]] matches Some(j)
            ==> o.take(k).contains(j)) by {
            assert(roots(deps, n as int).contains(o[k]));
        }
        assert forall|k: int| 0 <= k < o.len() implies 0 <= #[trigger] o[k] < n by {
            assert(order@[k] < n);
        }
        lemma_pigeonhole(o, n as int);
    }
    let mut head: usize = 0;
    while head < order.len()
        invariant
            n == d@.len(),
            n == deps.len(),
            in_range(deps),
            forall|k: int| 0 <= k < n ==> dep_view(#[trigger] d@[k]) == deps[k],
            head <= order@.len() <= n,
            ints(order@) == roots(deps, n as int) + waiting_for_all(
                deps,
                ints(order@).take(head as int),
            ),
            ints(order@).no_duplicates(),
            forall|k: int| 0 <= k < order@.len() ==> #[trigger] order@[k] < n,
            respects(deps, ints(order@)),
        decreases n - head,
    {
        let node: usize = order[head];
        let ghost before = ints(order@);
        let ghost done = before.take(head as int);
        let mut k: usize = 0;
        assert(before + Seq::<int>::empty() =~= before);
        while k < n
            invariant
                n == d@.len(),
                n == deps.len(),
                forall|k: int| 0 <= k < n ==> dep_view(#[trigger] d@[k]) == deps[k],
                k <= n,
                ints(order@) == before + waiting(deps, node as int, k as int),
                forall|k: int| 0 <= k < order@.len() ==> #[trigger] order@[k] < n,
            decreases n - k,
        {
            assert(dep_view(d@[k as int]) == deps[k as int]);
            if let Some(j) = d[k] {
                if j == node {
                    let ghost mid = ints(order@);
                    order.push(k);
                    assert(ints(order@) =~= mid.push(k as int));
                    assert(before + waiting(deps, node as int, k as int).push(k as int) =~= (before
                        + waiting(deps, node as int, k as int)).push(k as int));
                }
            }
            k = k + 1;
        }
        proof {
            let o = ints(order@);
            let w = waiting(deps, node as int, n as int);
            let next = o.take(head + 1);
            assert(node as int == before[head as int]);
            assert(next =~= before.take(head + 1));
            assert(next.drop_last() =~= done);
            assert(next.last() == node);
            assert(o =~= roots(deps, n as int) + waiting_for_all(deps, next));
            assert(next.no_duplicates());
            lemma_waiting_for_all(deps, next);
            lemma_waiting_for_all(deps, done);
            lemma_roots(deps, n as int);
            assert forall|x: int| roots(deps, n as int).contains(x) implies !waiting_for_all(
                deps,
                next,
            ).contains(x) by {
            }
            lemma_concat_unique(roots(deps, n as int), waiting_for_all(deps, next));
            assert forall|k: int| 0 <= k < o.len() implies 0 <= #[trigger] o[k] < n by {
                assert(order@[k] < n);
            }
            lemma_pigeonhole(o, n as int);
            assert forall|k: int| 0 <= k < o.len() implies (deps[#[trigger] o[k]] matches Some(j)
                ==> o.take(k).contains(j)) by {
                if k < before.len() {
                    assert(o[k] == before[k]);
                    assert(o.take(k) =~= before.take(k));
                } else {
                    lemma_waiting(deps, node as int, n as int);
                    assert(o[k] == w[k - before.len()]);
                    assert(w.contains(o[k]));
                    assert(deps[o[k]] == Some(node as int));
                    assert(o.take(k)[head as int] == node);
                }
            }
        }
        head = head + 1;
    }
    proof {
        let o = ints(order@);
        assert(o.take(head as int) =~= o);
        lemma_roots(deps, n as int);
        lemma_waiting_for_all(deps, o);
        assert forall|k: int| 0 <= k < o.len() implies 0 <= #[trigger] o[k] < n by {
            assert(order@[k] < n);
        }
        lemma_pigeonhole(o, n as int);
        if o.len() == n {
            assert forall|i: int| 0 <= i < deps.len() implies #[trigger] ends(deps, i) by {
                assert(o.contains(i));
                let k = choose|k: int| 0 <= k < o.len() && o[k] == i;
                lemma_ordered_grounded(deps, o, k);
            }
        } else {
            assert(exists|i: int| 0 <= i < n && !o.contains(i)) by {
                if forall|i: int| 0 <= i < n ==> o.contains(i) {
                    let all = vstd::set_lib::set_int_range(0, n as int);
                    vstd::set_lib::lemma_int_range(0, n as int);
                    o.unique_seq_to_set();
                    assert(o.to_set() =~= all) by {
                        assert forall|x: int| o.to_set().contains(x) implies all.contains(x) by {
                            let k = choose|k: int| 0 <= k < o.len() && o[k] == x;
                        }
                    }
                }
            }
            let i = choose|i: int| 0 <= i < n && !o.contains(i);
            assert forall|fuel: nat| !#[trigger] grounded(deps, i, fuel) by {
                if grounded(deps, i, fuel) {
                    assert forall|x: int|
                        0 <= x < deps.len() && (deps[x] is None || o.contains(
                            deps[x]->0,
                        )) implies #[trigger] o.contains(x) by {
                        lemma_concat_contains(
                            roots(deps, n as int),
                            waiting_for_all(deps, o),
                            x,
                        );
                        assert(roots(deps, n as int).contains(x) <==> 0 <= x < n
                            && deps[x] is None);
                        assert(waiting_for_all(deps, o).contains(x) <==> 0 <= x < deps.len()
                            && deps[x] is Some && o.contains(deps[x]->0));
                    }
                    lemma_grounded_in(deps, o, i, fuel);
                }
            }
            assert(!ends(deps, i));
        }
    }
    if order.len() != n {
        return Err(OrderError::Cycle);
    }
    Ok(order)
}

proof fn lemma_scan_is_no_cycle(deps: Seq<Option<int>>, i: int)
    ensures
        scan_error(deps, i) != Some(OrderError::Cycle),
    decreases deps.len() - i,
{
    if 0 <= i < deps.len() {
        lemma_scan_is_no_cycle(deps, i + 1);
    }
}

} // verus!
