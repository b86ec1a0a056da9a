//! A cache of query results that grow stale.

use crate::text::same;
use vstd::prelude::*;
use vstd::string::*;

verus! {

/// A cached value and when it was put there.
#[derive(Debug)]
pub struct Entry<V> {
    pub key: String,
    pub value: V,
    pub at: u64,
}

/// A small cache for repeated read-only queries, keyed by a text that the caller
/// makes up. Times are milliseconds on a clock that never goes back.
#[derive(Debug)]
pub struct QueryCache<V> {
    ttl: u64,
    entries: Vec<Entry<V>>,
}

/// How long an entry stays fresh by default: long enough to skip redundant queries
/// within one session, short enough that a refreshed database shows.
pub const DEFAULT_TTL: u64 = 300_000;

/// A cache as a value: how long an entry stays fresh, and what is held, with the times
/// it was put there.
pub struct Cache<V> {
    pub ttl: int,
    pub held: Map<Seq<char>, (V, int)>,
}

impl<V> QueryCache<V> {
    pub closed spec fn view(&self) -> Cache<V> {
        Cache { ttl: self.ttl as int, held: cached(self.entries@, self.entries@.len() as int) }
    }

    /// No key is held twice.
    pub closed spec fn well_formed(&self) -> bool {
        forall|i: int, j: int|
            0 <= i < j < self.entries.len() ==> (#[trigger] self.entries[i]).key@ != (
            #[trigger] self.entries[j]).key@
    }

    /// A cache that holds nothing.
    pub fn new(ttl: u64) -> (r: QueryCache<V>)
        ensures
            r.well_formed(),
            r.view() == (Cache { ttl: ttl as int, held: Map::<Seq<char>, (V, int)>::empty() }),
    {
        QueryCache { ttl, entries: Vec::new() }
    }

    fn find(&self, key: &str) -> (r: Option<usize>)
        requires
            self.well_formed(),
        ensures
            match r {
                Some(i) => i < self.entries.len() && self.entries[i as int].key@ == key@
                    && self.view().held.contains_key(key@) && self.view().held[key@] == (
                    self.entries[i as int].value,
                    self.entries[i as int].at as int,
                ),
                None => !self.view().held.contains_key(key@) && forall|i: int|
                    0 <= i < self.entries.len() ==> (#[trigger] self.entries[i]).key@ != key@,
            },
    {
        let mut i: usize = 0;
        while i < self.entries.len()
            invariant
                i <= self.entries.len(),
                self.well_formed(),
                forall|k: int| 0 <= k < i ==> (#[trigger] self.entries[k]).key@ != key@,
            decreases self.entries.len() - i,
        {
            if same(self.entries[i].key.as_str(), key) {
                proof {
                    lemma_cached(self.entries@, self.entries@.len() as int);
                    assert(self.entries@[i as int].key@ == key@);
                }
                return Some(i);
            }
            i += 1;
        }
        proof {
            lemma_cached(self.entries@, self.entries@.len() as int);
        }
        None
    }

    /// The value under `key`, if there is one and it is still fresh at `now`.
    pub fn get(&self, key: &str, now: u64) -> (r: Option<&V>)
        requires
            self.well_formed(),
        ensures
            match r {
                Some(v) => fresh(self.view(), key@, now as int) && *v == self.view().held[key@].0,
                None => !fresh(self.view(), key@, now as int),
            },
    {
        match self.find(key) {
            None => None,
            Some(i) => {
                let at = self.entries[i].at;
                let age: u64 = if now >= at {
                    now - at
                } else {
                    0
                };
                if age < self.ttl {
                    Some(&self.entries[i].value)
                } else {
                    None
                }
            },
        }
    }

    /// Store `value` under `key`, in place of what stood there.
    pub fn put(&mut self, key: String, value: V, now: u64)
        requires
            old(self).well_formed(),
        ensures
            final(self).well_formed(),
            final(self).view() == (Cache {
                held: old(self).view().held.insert(key@, (value, now as int)),
                ..old(self).view()
            }),
    {
        let ghost before = self.entries@;
        match self.find(key.as_str()) {
            Some(i) => {
                let ghost k = key@;
                self.entries.set(i, Entry { key, value, at: now });
                proof {
                    lemma_cached(before, before.len() as int);
                    lemma_cached(self.entries@, self.entries@.len() as int);
                    assert(self.well_formed()) by {
                        assert forall|a: int, b: int| 0 <= a < b < self.entries.len() implies (
                        #[trigger] self.entries[a]).key@ != (#[trigger] self.entries[b]).key@ by {
                            assert(before[a].key@ != before[b].key@);
                        }
                    }
                    lemma_updated(before, self.entries@, i as int);
                    assert(self.view().held =~= old(self).view().held.insert(k, (value, now as int)));
                }
            },
            None => {
                let ghost k = key@;
                self.entries.push(Entry { key, value, at: now });
                proof {
                    let after = self.entries@;
                    assert(cached(after, before.len() as int) == cached(before, before.len() as int))
                        by {
                        lemma_cached_same(before, after, before.len() as int);
                    }
                    assert(self.well_formed()) by {
                        assert forall|a: int, b: int| 0 <= a < b < self.entries.len() implies (
                        #[trigger] self.entries[a]).key@ != (#[trigger] self.entries[b]).key@ by {
                            if b < before.len() {
                                assert(before[a].key@ != before[b].key@);
                            } else {
                                assert(before[a].key@ != k);
                            }
                        }
                    }
                }
            },
        }
    }
}

/// What the first `n` entries hold.
pub open spec fn cached<V>(entries: Seq<Entry<V>>, n: int) -> Map<Seq<char>, (V, int)>
    decreases n,
{
    if n <= 0 {
        Map::empty()
    } else {
        cached(entries, n - 1).insert(
            entries[n - 1].key@,
            (entries[n - 1].value, entries[n - 1].at as int),
        )
    }
}

/// An entry is there and still fresh at `now`.
pub open spec fn fresh<V>(c: Cache<V>, key: Seq<char>, now: int) -> bool {
    c.held.contains_key(key) && (if now >= c.held[key].1 {
        now - c.held[key].1
    } else {
        0
    }) < c.ttl
}

proof fn lemma_cached_same<V>(a: Seq<Entry<V>>, b: Seq<Entry<V>>, n: int)
    requires
        n <= a.len(),
        n <= b.len(),
        forall|i: int| 0 <= i < n ==> a[i] == b[i],
    ensures
        cached(a, n) == cached(b, n),
    decreases n,
{
    if n > 0 {
        lemma_cached_same(a, b, n - 1);
    }
}

proof fn lemma_cached<V>(e: Seq<Entry<V>>, n: int)
    requires
        n <= e.len(),
        forall|i: int, j: int|
            0 <= i < j < e.len() ==> (#[trigger] e[i]).key@ != (#[trigger] e[j]).key@,
    ensures
        forall|i: int|
            0 <= i < n ==> cached(e, n).contains_key((#[trigger] e[i]).key@) && cached(e, n)[e[i].key@]
                == (e[i].value, e[i].at as int),
        forall|k: Seq<char>| #[trigger]
            cached(e, n).contains_key(k) ==> exists|i: int| 0 <= i < n && (#[trigger] e[i]).key@ == k,
    decreases n,
{
    if n > 0 {
        lemma_cached(e, n - 1);
        assert forall|k: Seq<char>| #[trigger] cached(e, n).contains_key(k) implies exists|i: int|
            0 <= i < n && (#[trigger] e[i]).key@ == k by {
            if k == e[n - 1].key@ {
                assert(e[n - 1].key@ == k);
            } else {
                assert(cached(e, n - 1).contains_key(k));
            }
        }
    }
}

proof fn lemma_updated<V>(a: Seq<Entry<V>>, b: Seq<Entry<V>>, i: int)
    requires
        0 <= i < a.len(),
        b == a.update(i, b[i]),
        b[i].key@ == a[i].key@,
        forall|x: int, y: int|
            0 <= x < y < a.len() ==> (#[trigger] a[x]).key@ != (#[trigger] a[y]).key@,
        forall|x: int, y: int|
            0 <= x < y < b.len() ==> (#[trigger] b[x]).key@ != (#[trigger] b[y]).key@,
    ensures
        cached(b, b.len() as int) == cached(a, a.len() as int).insert(
            b[i].key@,
            (b[i].value, b[i].at as int),
        ),
{
    let n = a.len() as int;
    lemma_cached(a, n);
    lemma_cached(b, n);
    let l = cached(b, n);
    let r = cached(a, n).insert(b[i].key@, (b[i].value, b[i].at as int));
    assert forall|k: Seq<char>| #[trigger] l.contains_key(k) == r.contains_key(k) by {
        if l.contains_key(k) {
            let x = choose|x: int| 0 <= x < n && (#[trigger] b[x]).key@ == k;
            assert(a[x].key@ == k);
        }
        if r.contains_key(k) {
            if k == b[i].key@ {
                assert(b[i].key@ == k);
            } else {
                let x = choose|x: int| 0 <= x < n && (#[trigger] a[x]).key@ == k;
                assert(b[x].key@ == k);
            }
        }
    }
    assert forall|k: Seq<char>| #[trigger] l.contains_key(k) implies l[k] == r[k] by {
        let x = choose|x: int| 0 <= x < n && (#[trigger] b[x]).key@ == k;
        if x != i {
            assert(a[x] == b[x]);
            assert(a[x].key@ == k);
            if x < i {
                assert(b[x].key@ != b[i].key@);
            } else {
                assert(b[i].key@ != b[x].key@);
            }
        }
    }
    assert(l =~= r);
}

impl<V> Default for QueryCache<V> {
    /// A cache whose entries stay fresh for five minutes.
    fn default() -> (r: QueryCache<V>)
        ensures
            r.well_formed(),
            r.view() == (Cache {
                ttl: DEFAULT_TTL as int,
                held: Map::<Seq<char>, (V, int)>::empty(),
            }),
    {
        QueryCache::new(DEFAULT_TTL)
    }
}

/// What was put is there until it grows stale, and no other key is touched.
pub proof fn law_put_then_get<V>(c: Cache<V>, key: Seq<char>, value: V, at: int)
    ensures
        forall|now: int|
            at <= now ==> #[trigger] fresh(
                (Cache { held: c.held.insert(key, (value, at)), ..c }),
                key,
                now,
            ) == (now < at + c.ttl),
        forall|other: Seq<char>, now: int|
            other != key ==> #[trigger] fresh(
                (Cache { held: c.held.insert(key, (value, at)), ..c }),
                other,
                now,
            ) == fresh(c, other, now),
{
}

} // verus!
