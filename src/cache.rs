use vstd::prelude::*;

verus! {

/// Freshness window, in seconds, of a store made by `Cache::new`.
pub const DEFAULT_TTL_SECONDS: u64 = 30;

/// Nanoseconds in one second.
pub const NANOS_PER_SECOND: u128 = 1_000_000_000;

/// A key of the store. Two keys name the same entry exactly when their views are equal.
pub trait CacheKey: View + Sized {
    fn same_key(&self, other: &Self) -> (r: bool)
        ensures
            r == (self@ == other@),
    ;
}

/// Whole seconds from `inserted` to `now`, both nanoseconds since the Unix epoch.
/// A clock that went back counts as no time at all.
pub open spec fn elapsed_secs(inserted: u128, now: u128) -> nat {
    if now >= inserted {
        ((now - inserted) as nat) / (NANOS_PER_SECOND as nat)
    } else {
        0
    }
}

/// An entry stored at `inserted` is still fresh at `now`: no more than `ttl` whole
/// seconds have gone by.
pub open spec fn is_fresh(inserted: u128, now: u128, ttl: u64) -> bool {
    elapsed_secs(inserted, now) <= ttl
}

/// What a read of key `k` at `now` gives on stored entries `m` (value and insertion
/// instant) with freshness window `ttl`.
pub open spec fn fresh_lookup<K, V>(m: Map<K, (V, u128)>, ttl: u64, k: K, now: u128) -> Option<V> {
    if m.contains_key(k) && is_fresh(m[k].1, now, ttl) {
        Some(m[k].0)
    } else {
        None
    }
}

/// An entry more than `ttl` whole seconds old is read as absent.
pub proof fn lemma_expired_is_absent<K, V>(m: Map<K, (V, u128)>, ttl: u64, k: K, now: u128)
    requires
        m.contains_key(k),
        elapsed_secs(m[k].1, now) > ttl,
    ensures
        fresh_lookup(m, ttl, k, now) is None,
{
}

/// An entry exactly `ttl` whole seconds old is still read: expiry needs strictly more.
pub proof fn lemma_boundary_is_fresh<K, V>(m: Map<K, (V, u128)>, ttl: u64, k: K, now: u128)
    requires
        m.contains_key(k),
        elapsed_secs(m[k].1, now) == ttl,
    ensures
        fresh_lookup(m, ttl, k, now) == Some(m[k].0),
{
}

/// Relies on `SystemTime::elapsed`, taken from the Unix epoch: the wall clock now, in
/// nanoseconds since the epoch, or `None` for a clock set before it. Nothing is known of
/// the value.
#[verifier::external_body]
pub(crate) fn clock_nanos() -> (r: Option<u128>) {
    match std::time::UNIX_EPOCH.elapsed() {
        Ok(d) => Some(d.as_nanos()),
        Err(_) => None,
    }
}

/// The wall clock now, in nanoseconds since the Unix epoch (0 for a clock set before it).
pub fn now_nanos() -> (r: u128) {
    match clock_nanos() {
        Some(t) => t,
        None => 0,
    }
}

struct TtlEntry<K, V> {
    key: K,
    value: V,
    inserted_at: u128,
}

spec fn lookup_in<K: View, V>(s: Seq<TtlEntry<K, V>>, k: K::V) -> Option<(V, u128)>
    decreases s.len(),
{
    if s.len() == 0 {
        None
    } else if s.last().key@ == k {
        Some((s.last().value, s.last().inserted_at))
    } else {
        lookup_in(s.drop_last(), k)
    }
}

spec fn keys_unique<K: View, V>(s: Seq<TtlEntry<K, V>>) -> bool {
    forall|i: int, j: int| 0 <= i < s.len() && 0 <= j < s.len() && i != j ==> s[i].key@ != s[j].key@
}

proof fn lemma_lookup_absent<K: View, V>(s: Seq<TtlEntry<K, V>>, k: K::V)
    requires
        forall|j: int| 0 <= j < s.len() ==> s[j].key@ != k,
    ensures
        lookup_in(s, k) is None,
    decreases s.len(),
{
    if s.len() > 0 {
        lemma_lookup_absent(s.drop_last(), k);
    }
}

proof fn lemma_lookup_found<K: View, V>(s: Seq<TtlEntry<K, V>>, i: int)
    requires
        keys_unique(s),
        0 <= i < s.len(),
    ensures
        lookup_in(s, s[i].key@) == Some((s[i].value, s[i].inserted_at)),
    decreases s.len(),
{
    if i != s.len() - 1 {
        assert(s.drop_last()[i] == s[i]);
        lemma_lookup_found(s.drop_last(), i);
    }
}

proof fn lemma_lookup_remove<K: View, V>(s: Seq<TtlEntry<K, V>>, i: int, k: K::V)
    requires
        0 <= i < s.len(),
        s[i].key@ != k,
    ensures
        lookup_in(s.remove(i), k) == lookup_in(s, k),
    decreases s.len(),
{
    let t = s.remove(i);
    if i == s.len() - 1 {
        assert(t =~= s.drop_last());
    } else {
        assert(t.last() == s.last());
        assert(t.drop_last() =~= s.drop_last().remove(i));
        lemma_lookup_remove(s.drop_last(), i, k);
    }
}

/// An expiring key-value store. A read finds an entry only while it is fresh; entries
/// that are no longer fresh are kept, not evicted, and a write replaces them.
pub struct Cache<K: CacheKey, V> {
    entries: Vec<TtlEntry<K, V>>,
    ttl: u64,
}

impl<K: CacheKey, V> View for Cache<K, V> {
    /// Each stored key with its value and insertion instant, fresh or not.
    type V = Map<<K as View>::V, (V, u128)>;

    closed spec fn view(&self) -> Self::V {
        Map::new(
            |k: <K as View>::V| lookup_in(self.entries@, k) is Some,
            |k: <K as View>::V| lookup_in(self.entries@, k).unwrap(),
        )
    }
}

impl<K: CacheKey, V> Cache<K, V> {
    pub closed spec fn wf(&self) -> bool {
        keys_unique(self.entries@)
    }

    /// The freshness window, in whole seconds.
    pub closed spec fn ttl(&self) -> u64 {
        self.ttl
    }

    /// An empty store whose entries stay fresh for `DEFAULT_TTL_SECONDS`.
    pub fn new() -> (r: Cache<K, V>)
        ensures
            r.wf(),
            r@ == Map::<<K as View>::V, (V, u128)>::empty(),
            r.ttl() == DEFAULT_TTL_SECONDS,
    {
        Cache::with_ttl(DEFAULT_TTL_SECONDS)
    }

    /// An empty store whose entries stay fresh for `ttl_seconds`.
    pub fn with_ttl(ttl_seconds: u64) -> (r: Cache<K, V>)
        ensures
            r.wf(),
            r@ == Map::<<K as View>::V, (V, u128)>::empty(),
            r.ttl() == ttl_seconds,
    {
        let r = Cache { entries: Vec::new(), ttl: ttl_seconds };
        assert(r@ =~= Map::<<K as View>::V, (V, u128)>::empty());
        r
    }

    /// The freshness window, in whole seconds.
    pub fn ttl_seconds(&self) -> (r: u64)
        ensures
            r == self.ttl(),
    {
        self.ttl
    }

    fn find(&self, key: &K) -> (r: Option<usize>)
        requires
            self.wf(),
        ensures
            match r {
                Some(i) => i < self.entries@.len() && self.entries@[i as int].key@ == key@,
                None => forall|j: int|
                    0 <= j < self.entries@.len() ==> self.entries@[j].key@ != key@,
            },
    {
        let n = self.entries.len();
        let mut i: usize = 0;
        while i < n
            invariant
                n == self.entries@.len(),
                i <= n,
                forall|j: int| 0 <= j < i ==> self.entries@[j].key@ != key@,
            decreases n - i,
        {
            if self.entries[i].key.same_key(key) {
                return Some(i);
            }
            i = i + 1;
        }
        None
    }

    /// Stores `value` under `key` as inserted at `now`, replacing any entry for `key`,
    /// fresh or not, and returns the value it replaced.
    pub fn set_at(&mut self, key: K, value: V, now: u128) -> (r: Option<V>)
        requires
            old(self).wf(),
        ensures
            final(self).wf(),
            final(self).ttl() == old(self).ttl(),
            final(self)@ == old(self)@.insert(key@, (value, now)),
            r == (if old(self)@.contains_key(key@) {
                Some(old(self)@[key@].0)
            } else {
                None
            }),
    {
        let ghost s = self.entries@;
        let ghost k = key@;
        let found = self.find(&key);
        let r = match found {
            Some(i) => {
                proof {
                    lemma_lookup_found(s, i as int);
                }
                let e = self.entries.remove(i);
                proof {
                    let t = s.remove(i as int);
                    assert(self.entries@ =~= t);
                    assert forall|j: int| 0 <= j < t.len() implies t[j].key@ != k by {
                        if j < i {
                            assert(t[j] == s[j]);
                        } else {
                            assert(t[j] == s[j + 1]);
                        }
                    }
                    assert forall|kk: <K as View>::V| kk != k implies lookup_in(t, kk) == lookup_in(
                        s,
                        kk,
                    ) by {
                        lemma_lookup_remove(s, i as int, kk);
                    }
                }
                Some(e.value)
            },
            None => {
                proof {
                    lemma_lookup_absent(s, k);
                }
                None
            },
        };
        let ghost t = self.entries@;
        self.entries.push(TtlEntry { key, value, inserted_at: now });
        proof {
            let u = self.entries@;
            assert(u.drop_last() =~= t);
            assert forall|kk: <K as View>::V| kk != k implies lookup_in(u, kk) == lookup_in(s, kk) by {}
            assert(lookup_in(u, k) == Some((value, now)));
            assert(self@ =~= old(self)@.insert(k, (value, now)));
        }
        r
    }

    /// Stores `value` under `key` as inserted now, by the wall clock, replacing any entry
    /// for `key`, fresh or not, and returns the value it replaced.
    pub fn set(&mut self, key: K, value: V) -> (r: Option<V>)
        requires
            old(self).wf(),
        ensures
            final(self).wf(),
            final(self).ttl() == old(self).ttl(),
            exists|t: u128| final(self)@ == old(self)@.insert(key@, (value, t)),
            r == (if old(self)@.contains_key(key@) {
                Some(old(self)@[key@].0)
            } else {
                None
            }),
    {
        let now = now_nanos();
        self.set_at(key, value, now)
    }

    /// The value stored under `key` if it is still fresh at `now`; `None` if there is
    /// none or it has expired. The store is left as it is.
    pub fn get_at(&self, key: &K, now: u128) -> (r: Option<&V>)
        requires
            self.wf(),
        ensures
            match r {
                Some(v) => fresh_lookup(self@, self.ttl(), key@, now) == Some(*v),
                None => fresh_lookup(self@, self.ttl(), key@, now) is None,
            },
    {
        match self.find(key) {
            Some(i) => {
                proof {
                    lemma_lookup_found(self.entries@, i as int);
                }
                let e = &self.entries[i];
                let inserted = e.inserted_at;
                let elapsed: u128 = if now >= inserted {
                    (now - inserted) / NANOS_PER_SECOND
                } else {
                    0
                };
                if elapsed > self.ttl as u128 {
                    None
                } else {
                    Some(&e.value)
                }
            },
            None => {
                proof {
                    lemma_lookup_absent(self.entries@, key@);
                }
                None
            },
        }
    }

    /// The value stored under `key` if it is still fresh now, by the wall clock.
    pub fn get(&self, key: &K) -> (r: Option<&V>)
        requires
            self.wf(),
        ensures
            exists|t: u128|
                match r {
                    Some(v) => fresh_lookup(self@, self.ttl(), key@, t) == Some(*v),
                    None => fresh_lookup(self@, self.ttl(), key@, t) is None,
                },
    {
        let now = now_nanos();
        self.get_at(key, now)
    }
}

impl<K: CacheKey, V> Default for Cache<K, V> {
    fn default() -> (r: Cache<K, V>)
        ensures
            r.wf(),
            r@ == Map::<<K as View>::V, (V, u128)>::empty(),
            r.ttl() == DEFAULT_TTL_SECONDS,
    {
        Cache::new()
    }
}

} // verus!
