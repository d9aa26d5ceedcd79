//! A small table: values by key, every key at most once, in the order in which
//! the keys came in.
use vstd::prelude::*;
use crate::net::SocketAddr;
use crate::text;

verus! {

/// A key of a table.
pub trait Key: Sized {
    /// What makes two keys the same.
    type View;

    /// What makes this key the same as another.
    spec fn key(&self) -> Self::View;

    /// Whether two keys are the same.
    fn same(&self, other: &Self) -> (r: bool)
        ensures
            r == (self.key() == other.key()),
    ;
}

impl Key for u64 {
    type View = u64;

    open spec fn key(&self) -> u64 {
        *self
    }

    fn same(&self, other: &Self) -> (r: bool) {
        *self == *other
    }
}

impl Key for String {
    type View = Seq<char>;

    open spec fn key(&self) -> Seq<char> {
        self@
    }

    fn same(&self, other: &Self) -> (r: bool) {
        text::same_text(self.as_str(), other.as_str())
    }
}

impl Key for (SocketAddr, SocketAddr) {
    type View = (SocketAddr, SocketAddr);

    open spec fn key(&self) -> (SocketAddr, SocketAddr) {
        *self
    }

    fn same(&self, other: &Self) -> (r: bool) {
        self.0 == other.0 && self.1 == other.1
    }
}

impl Key for (SocketAddr, String, String) {
    type View = (SocketAddr, Seq<char>, Seq<char>);

    open spec fn key(&self) -> (SocketAddr, Seq<char>, Seq<char>) {
        (self.0, self.1@, self.2@)
    }

    fn same(&self, other: &Self) -> (r: bool) {
        self.0 == other.0 && text::same_text(self.1.as_str(), other.1.as_str())
            && text::same_text(self.2.as_str(), other.2.as_str())
    }
}

/// A table.
pub struct Table<K: Key, T> {
    entries: Vec<(K, T)>,
}

/// The place of a key among the first `n` entries, or -1.
pub closed spec fn place<K: Key, T>(entries: Seq<(K, T)>, n: int, k: K::View) -> int
    decreases n,
{
    if n <= 0 {
        -1
    } else if entries[n - 1].0.key() == k {
        n - 1
    } else {
        place(entries, n - 1, k)
    }
}

spec fn distinct<K: Key, T>(entries: Seq<(K, T)>) -> bool {
    forall|i: int, j: int|
        0 <= i < j < entries.len() ==> (#[trigger] entries[i]).0.key() != (
        #[trigger] entries[j]).0.key()
}

proof fn lemma_place<K: Key, T>(entries: Seq<(K, T)>, n: int, k: K::View)
    requires
        0 <= n <= entries.len(),
    ensures
        -1 <= place(entries, n, k) < n,
        place(entries, n, k) >= 0 ==> entries[place(entries, n, k)].0.key() == k,
        place(entries, n, k) == -1 ==> forall|i: int|
            0 <= i < n ==> (#[trigger] entries[i]).0.key() != k,
    decreases n,
{
    if n > 0 {
        lemma_place(entries, n - 1, k);
    }
}

proof fn lemma_place_is<K: Key, T>(entries: Seq<(K, T)>, i: int)
    requires
        distinct(entries),
        0 <= i < entries.len(),
    ensures
        place(entries, entries.len() as int, entries[i].0.key()) == i,
{
    lemma_place(entries, entries.len() as int, entries[i].0.key());
}

impl<K: Key, T> View for Table<K, T> {
    type V = Map<K::View, T>;

    /// The values by key.
    closed spec fn view(&self) -> Map<K::View, T> {
        Map::new(
            |k: K::View| place(self.entries@, self.entries@.len() as int, k) >= 0,
            |k: K::View| self.entries@[place(self.entries@, self.entries@.len() as int, k)].1,
        )
    }
}

impl<K: Key, T> Table<K, T> {
    /// No key occurs twice.
    pub closed spec fn wf(self) -> bool {
        distinct(self.entries@)
    }

    /// The entries in order.
    pub closed spec fn entries(self) -> Seq<(K, T)> {
        self.entries@
    }

    /// An empty table.
    pub fn new() -> (r: Self)
        ensures
            r.wf(),
            r@ == Map::<K::View, T>::empty(),
            r.entries() == Seq::<(K, T)>::empty(),
    {
        let r = Table { entries: Vec::new() };
        proof {
            assert forall|k: K::View| !r@.contains_key(k) by {
                lemma_place(r.entries@, 0, k);
            }
            assert(r@ =~= Map::<K::View, T>::empty());
            assert(r.entries@ =~= Seq::<(K, T)>::empty());
        }
        r
    }

    /// The number of entries.
    pub fn len(&self) -> (r: usize)
        ensures
            r == self.entries().len(),
    {
        self.entries.len()
    }

    /// The entry at a place.
    pub fn at(&self, i: usize) -> (r: &(K, T))
        requires
            i < self.entries().len(),
        ensures
            *r == self.entries()[i as int],
    {
        &self.entries[i]
    }

    /// No two entries have the same key.
    pub proof fn lemma_distinct(self)
        requires
            self.wf(),
        ensures
            forall|i: int, j: int|
                0 <= i < j < self.entries().len() ==> (#[trigger] self.entries()[i]).0.key() != (
                #[trigger] self.entries()[j]).0.key(),
    {
    }

    /// Every entry is the one of its key.
    pub proof fn lemma_entry(self, i: int)
        requires
            self.wf(),
            0 <= i < self.entries().len(),
        ensures
            self@.contains_key(self.entries()[i].0.key()),
            self@[self.entries()[i].0.key()] == self.entries()[i].1,
    {
        lemma_place_is(self.entries@, i);
    }

    /// Every key has an entry.
    pub proof fn lemma_key(self, k: K::View) -> (i: int)
        requires
            self@.contains_key(k),
        ensures
            0 <= i < self.entries().len(),
            self.entries()[i].0.key() == k,
            self.entries()[i].1 == self@[k],
    {
        lemma_place(self.entries@, self.entries@.len() as int, k);
        place(self.entries@, self.entries@.len() as int, k)
    }

    fn find(&self, k: &K) -> (r: Option<usize>)
        ensures
            match r {
                Some(i) => i < self.entries@.len() && i == place(
                    self.entries@,
                    self.entries@.len() as int,
                    k.key(),
                ) && self.entries@[i as int].0.key() == k.key(),
                None => place(self.entries@, self.entries@.len() as int, k.key()) == -1,
            },
    {
        let mut n: usize = self.entries.len();
        while n > 0
            invariant
                n <= self.entries@.len(),
                place(self.entries@, self.entries@.len() as int, k.key()) == place(
                    self.entries@,
                    n as int,
                    k.key(),
                ),
            decreases n,
        {
            if self.entries[n - 1].0.same(k) {
                return Some(n - 1);
            }
            n = n - 1;
        }
        None
    }

    /// The value of a key.
    pub fn get(&self, k: &K) -> (r: Option<&T>)
        ensures
            match r {
                Some(v) => self@.contains_key(k.key()) && *v == self@[k.key()],
                None => !self@.contains_key(k.key()),
            },
    {
        match self.find(k) {
            Some(i) => Some(&self.entries[i].1),
            None => None,
        }
    }

    /// Gives a key a value.
    pub fn insert(&mut self, k: K, v: T)
        requires
            old(self).wf(),
        ensures
            final(self).wf(),
            final(self)@ == old(self)@.insert(k.key(), v),
            old(self)@.contains_key(k.key()) ==> final(self).entries().len() == old(self).entries().len(),
            !old(self)@.contains_key(k.key()) ==> final(self).entries() == old(self).entries().push((k, v)),
    {
        let ghost before = *self;
        match self.find(&k) {
            Some(i) => {
                let ghost key = k.key();
                self.entries[i] = (k, v);
                proof {
                    let a = before.entries@;
                    let b = self.entries@;
                    assert forall|x: int, y: int| 0 <= x < y < b.len() implies (
                    #[trigger] b[x]).0.key() != (#[trigger] b[y]).0.key() by {
                        assert(a[x].0.key() != a[y].0.key());
                    }
                    assert(self@ =~= before@.insert(key, v)) by {
                        assert forall|q: K::View| #[trigger]
                            self@.contains_key(q) <==> before@.insert(key, v).contains_key(q) by {
                            lemma_same_places(a, b, i as int, q);
                        }
                        assert forall|q: K::View| #[trigger] self@.contains_key(q) implies self@[q]
                            == before@.insert(key, v)[q] by {
                            lemma_same_places(a, b, i as int, q);
                        }
                    }
                }
            },
            None => {
                let ghost key = k.key();
                proof {
                    lemma_place(self.entries@, self.entries@.len() as int, key);
                }
                self.entries.push((k, v));
                proof {
                    let a = before.entries@;
                    let b = self.entries@;
                    let n = a.len() as int;
                    assert forall|x: int, y: int| 0 <= x < y < b.len() implies (
                    #[trigger] b[x]).0.key() != (#[trigger] b[y]).0.key() by {
                        if y < n {
                            assert(a[x].0.key() != a[y].0.key());
                        } else {
                            assert(a[x].0.key() != key);
                        }
                    }
                    assert forall|q: K::View| place(b, n, q) == #[trigger] place(a, n, q) by {
                        lemma_prefix_places(a, b, n, q);
                    }
                    assert forall|q: K::View| q != key implies #[trigger] place(b, n + 1, q)
                        == place(a, n, q) by {
                        lemma_prefix_places(a, b, n, q);
                    }
                    assert(place(b, n + 1, key) == n);
                    assert(self@ =~= before@.insert(key, v)) by {
                        assert forall|q: K::View| #[trigger]
                            self@.contains_key(q) <==> before@.insert(key, v).contains_key(q) by {
                            assert(place(b, n + 1, q) == if q == key {
                                n
                            } else {
                                place(a, n, q)
                            });
                        }
                        assert forall|q: K::View| #[trigger] self@.contains_key(q) implies self@[q]
                            == before@.insert(key, v)[q] by {
                            lemma_place(a, n, q);
                            assert(place(b, n + 1, q) == if q == key {
                                n
                            } else {
                                place(a, n, q)
                            });
                        }
                    }
                }
            },
        }
    }

    /// Takes a key out.
    pub fn remove(&mut self, k: &K) -> (r: Option<T>)
        requires
            old(self).wf(),
        ensures
            final(self).wf(),
            final(self)@ == old(self)@.remove(k.key()),
            match r {
                Some(v) => old(self)@.contains_key(k.key()) && v == old(self)@[k.key()],
                None => !old(self)@.contains_key(k.key()),
            },
    {
        let ghost before = *self;
        match self.find(k) {
            Some(i) => {
                let e: (K, T) = self.entries.remove(i);
                proof {
                    let a = before.entries@;
                    let b = self.entries@;
                    assert forall|x: int, y: int| 0 <= x < y < b.len() implies (
                    #[trigger] b[x]).0.key() != (#[trigger] b[y]).0.key() by {
                        let p = if x < i { x } else { x + 1 };
                        let q = if y < i { y } else { y + 1 };
                        assert(b[x] == a[p] && b[y] == a[q]);
                        assert(a[p].0.key() != a[q].0.key());
                    }
                    assert(self@ =~= before@.remove(k.key())) by {
                        assert forall|q: K::View| #[trigger]
                            self@.contains_key(q) <==> before@.remove(k.key()).contains_key(q) by {
                            lemma_removed(a, b, i as int, q);
                        }
                        assert forall|q: K::View| #[trigger] self@.contains_key(q) implies self@[q]
                            == before@.remove(k.key())[q] by {
                            lemma_removed(a, b, i as int, q);
                        }
                    }
                }
                Some(e.1)
            },
            None => {
                assert(before@ =~= before@.remove(k.key()));
                None
            },
        }
    }

    /// Keeps the entries that are marked in `keep`, in order.
    pub fn retain(&mut self, keep: &Vec<bool>, p: Ghost<spec_fn(K::View, T) -> bool>)
        requires
            old(self).wf(),
            keep@.len() == old(self).entries().len(),
            forall|i: int|
                0 <= i < keep@.len() ==> #[trigger] keep@[i] == (p@)(
                    old(self).entries()[i].0.key(),
                    old(self).entries()[i].1,
                ),
        ensures
            final(self).wf(),
            final(self)@ == old(self)@.restrict(
                Set::new(|k: K::View| old(self)@.contains_key(k) && (p@)(k, old(self)@[k])),
            ),
    {
        let ghost before = *self;
        let ghost a = before.entries@;
        let mut i: usize = 0;
        let mut from: usize = 0;
        let total: usize = keep.len();
        while i < self.entries.len()
            invariant
                before.wf(),
                a == before.entries@,
                keep@.len() == a.len(),
                total == keep@.len(),
                forall|j: int|
                    0 <= j < keep@.len() ==> #[trigger] keep@[j] == (p@)(
                        a[j].0.key(),
                        a[j].1,
                    ),
                0 <= i <= self.entries@.len(),
                i <= from <= a.len(),
                self.entries@.len() - i == a.len() - from,
                self.entries@.skip(i as int) == a.skip(from as int),
                self.wf(),
                forall|x: int|
                    0 <= x < i ==> a.take(from as int).contains(#[trigger] self.entries@[x]) && (p@)(
                        self.entries@[x].0.key(),
                        self.entries@[x].1,
                    ),
                forall|y: int|
                    0 <= y < from && (p@)((#[trigger] a[y]).0.key(), a[y].1) ==> self.entries@.take(
                        i as int,
                    ).contains(a[y]),
            decreases self.entries@.len() - i,
        {
            let ghost cur = self.entries@;
            assert(cur[i as int] == cur.skip(i as int)[0]);
            assert(cur[i as int] == a[from as int]);
            let ok: bool = keep[from];
            let ghost prior = from as int;
            from = from + 1;
            if ok {
                i = i + 1;
                proof {
                    let last = i - 1;
                    assert(cur.skip(i as int) =~= cur.skip(i - 1).skip(1));
                    assert(a.skip(from as int) =~= a.skip(prior).skip(1));
                    assert forall|x: int| 0 <= x < i implies a.take(from as int).contains(
                        #[trigger] self.entries@[x],
                    ) && (p@)(self.entries@[x].0.key(), self.entries@[x].1) by {
                        if x < i - 1 {
                            let z = choose|z: int|
                                0 <= z < prior && #[trigger] a.take(prior)[z] == cur[x];
                            assert(a.take(from as int)[z] == cur[x]);
                        } else {
                            assert(a.take(from as int)[prior] == cur[x]);
                        }
                    }
                    assert forall|y: int| 0 <= y < from && (p@)(
                        (#[trigger] a[y]).0.key(),
                        a[y].1,
                    ) implies self.entries@.take(i as int).contains(a[y]) by {
                        if y < from - 1 {
                            let z = choose|z: int|
                                0 <= z < last && #[trigger] cur.take(last)[z] == a[y];
                            assert(cur.take(i as int)[z] == a[y]);
                        } else {
                            assert(cur.take(i as int)[i - 1] == a[y]);
                        }
                    }
                }
            } else {
                let _ = self.entries.remove(i);
                proof {
                    let b = self.entries@;
                    assert(b.skip(i as int) =~= cur.skip(i as int).skip(1));
                    assert(a.skip(from as int) =~= a.skip(prior).skip(1));
                    assert forall|x: int, y: int| 0 <= x < y < b.len() implies (
                    #[trigger] b[x]).0.key() != (#[trigger] b[y]).0.key() by {
                        let u = if x < i { x } else { x + 1 };
                        let w = if y < i { y } else { y + 1 };
                        assert(b[x] == cur[u] && b[y] == cur[w]);
                        assert(cur[u].0.key() != cur[w].0.key());
                    }
                    assert forall|x: int| 0 <= x < i implies a.take(from as int).contains(
                        #[trigger] self.entries@[x],
                    ) && (p@)(self.entries@[x].0.key(), self.entries@[x].1) by {
                        assert(b[x] == cur[x]);
                        let z = choose|z: int|
                            0 <= z < prior && #[trigger] a.take(prior)[z] == cur[x];
                        assert(a.take(from as int)[z] == cur[x]);
                    }
                    assert(b.take(i as int) =~= cur.take(i as int));
                }
            }
        }
        proof {
            let b = self.entries@;
            let goal = before@.restrict(
                Set::new(|k: K::View| before@.contains_key(k) && (p@)(k, before@[k])),
            );
            assert(b.take(i as int) =~= b);
            assert(a.take(from as int) =~= a);
            assert forall|q: K::View| #[trigger] self@.contains_key(q) implies goal.contains_key(q)
                && self@[q] == goal[q] by {
                let x = self.lemma_key(q);
                let y = choose|y: int| 0 <= y < a.len() && a[y] == b[x];
                before.lemma_entry(y);
            }
            assert forall|q: K::View| #[trigger] goal.contains_key(q) implies self@.contains_key(
                q,
            ) by {
                let y = before.lemma_key(q);
                assert(b.contains(a[y]));
                let x = choose|x: int| 0 <= x < b.len() && b[x] == a[y];
                self.lemma_entry(x);
            }
            assert(self@ =~= goal);
        }
    }
}

proof fn lemma_prefix_places<K: Key, T>(a: Seq<(K, T)>, b: Seq<(K, T)>, n: int, q: K::View)
    requires
        0 <= n <= a.len(),
        n <= b.len(),
        forall|i: int| 0 <= i < n ==> #[trigger] b[i] == a[i],
    ensures
        place(b, n, q) == place(a, n, q),
    decreases n,
{
    if n > 0 {
        assert(b[n - 1] == a[n - 1]);
        lemma_prefix_places(a, b, n - 1, q);
    }
}

proof fn lemma_same_places<K: Key, T>(a: Seq<(K, T)>, b: Seq<(K, T)>, i: int, q: K::View)
    requires
        0 <= i < a.len(),
        a.len() == b.len(),
        b[i].0.key() == a[i].0.key(),
        forall|x: int| 0 <= x < a.len() && x != i ==> #[trigger] b[x] == a[x],
    ensures
        place(b, b.len() as int, q) == place(a, a.len() as int, q),
        -1 <= place(a, a.len() as int, q) < a.len(),
        place(a, a.len() as int, q) >= 0 ==> a[place(a, a.len() as int, q)].0.key() == q,
        q == a[i].0.key() && distinct(a) ==> place(a, a.len() as int, q) == i,
{
    lemma_same_places_upto(a, b, i, q, a.len() as int);
    lemma_place(a, a.len() as int, q);
}

proof fn lemma_same_places_upto<K: Key, T>(
    a: Seq<(K, T)>,
    b: Seq<(K, T)>,
    i: int,
    q: K::View,
    n: int,
)
    requires
        0 <= i < a.len(),
        a.len() == b.len(),
        b[i].0.key() == a[i].0.key(),
        forall|x: int| 0 <= x < a.len() && x != i ==> #[trigger] b[x] == a[x],
        0 <= n <= a.len(),
    ensures
        place(b, n, q) == place(a, n, q),
    decreases n,
{
    if n > 0 {
        lemma_same_places_upto(a, b, i, q, n - 1);
        if n - 1 != i {
            assert(b[n - 1] == a[n - 1]);
        }
    }
}

proof fn lemma_removed<K: Key, T>(a: Seq<(K, T)>, b: Seq<(K, T)>, i: int, q: K::View)
    requires
        distinct(a),
        distinct(b),
        0 <= i < a.len(),
        b == a.remove(i),
    ensures
        place(b, b.len() as int, q) >= 0 <==> place(a, a.len() as int, q) >= 0 && q
            != a[i].0.key(),
        place(b, b.len() as int, q) >= 0 ==> b[place(b, b.len() as int, q)].1 == a[place(
            a,
            a.len() as int,
            q,
        )].1,
{
    lemma_place(a, a.len() as int, q);
    lemma_place(b, b.len() as int, q);
    let x = place(b, b.len() as int, q);
    let y = place(a, a.len() as int, q);
    if x >= 0 {
        let p = if x < i { x } else { x + 1 };
        assert(b[x] == a[p]);
        lemma_place_is(a, p);
        if p < i {
            assert(a[p].0.key() != a[i].0.key());
        } else {
            assert(a[i].0.key() != a[p].0.key());
        }
    } else if y >= 0 && y != i {
        let p = if y < i { y } else { y - 1 };
        assert(b[p] == a[y]);
    }
}

} // verus!
