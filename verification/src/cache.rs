//! The cache: a TTL-bounded store from request keys to rendered results,
//! with single-flight bookkeeping so at most one computation per key runs
//! at a time.
//!
//! Time is injected by the caller as a seconds counter, and the store is an
//! explicitly owned value, so TTL and single-flight behaviour can be driven
//! deterministically. An entry serves while `now` is strictly below its
//! expiry instant; entries past expiry are dead at lookup, with no separate
//! deletion path.
use vstd::prelude::*;

verus! {

/// Default time-to-live of a cache entry, in seconds.
pub const DEFAULT_TTL: u64 = 300;

/// One stored result with its expiry instant.
pub struct CacheEntry {
    pub key: String,
    pub value: String,
    pub expires_at: u64,
}

/// A TTL cache keyed by request identity. A later entry for the same key
/// shadows earlier ones.
pub struct ResultCache {
    pub entries: Vec<CacheEntry>,
    pub in_flight: Vec<String>,
    pub ttl: u64,
}

/// The map a sequence of entries denotes: later entries overwrite earlier.
pub open spec fn entries_model(es: Seq<CacheEntry>) -> Map<Seq<char>, (Seq<char>, int)>
    decreases es.len(),
{
    if es.len() == 0 {
        Map::empty()
    } else {
        entries_model(es.drop_last()).insert(
            es.last().key@,
            (es.last().value@, es.last().expires_at as int),
        )
    }
}

impl View for ResultCache {
    type V = Map<Seq<char>, (Seq<char>, int)>;

    open spec fn view(&self) -> Map<Seq<char>, (Seq<char>, int)> {
        entries_model(self.entries@)
    }
}

/// `k` is among the keys of `s`.
pub open spec fn in_keys(s: Seq<String>, k: Seq<char>) -> bool {
    exists|t: int| 0 <= t < s.len() && (#[trigger] s[t])@ == k
}

/// A computation for `k` is in flight.
pub open spec fn is_in_flight(c: &ResultCache, k: Seq<char>) -> bool {
    in_keys(c.in_flight@, k)
}

/// The entry model serves `k` at time `now`.
pub open spec fn serves(m: Map<Seq<char>, (Seq<char>, int)>, k: Seq<char>, now: int) -> bool {
    m.contains_key(k) && now < m[k].1
}

/// The latest entry for a key decides what the model holds for it.
#[verifier::rlimit(100)]
#[verifier::spinoff_prover]
proof fn lemma_model_lookup(es: Seq<CacheEntry>, k: Seq<char>)
    ensures
        entries_model(es).contains_key(k) <==> exists|t: int|
            0 <= t < es.len() && (#[trigger] es[t]).key@ == k,
        forall|t: int|
            0 <= t < es.len() && (#[trigger] es[t]).key@ == k && (forall|u: int|
                t < u < es.len() ==> (#[trigger] es[u]).key@ != k) ==> entries_model(es)[k] == (
                es[t].value@,
                es[t].expires_at as int,
            ),
    decreases es.len(),
{
    if es.len() > 0 {
        let pre = es.drop_last();
        lemma_model_lookup(pre, k);
        if es.last().key@ == k {
            assert((#[trigger] es[es.len() - 1]).key@ == k);
        } else {
            assert forall|t: int|
                0 <= t < es.len() && (#[trigger] es[t]).key@ == k && (forall|u: int|
                    t < u < es.len() ==> (#[trigger] es[u]).key@ != k) implies entries_model(es)[k]
                == (es[t].value@, es[t].expires_at as int) by {
                assert(t < es.len() - 1);
                assert(pre[t].key@ == k);
                assert(forall|u: int| t < u < pre.len() ==> (#[trigger] pre[u]).key@ != k);
            }
            if entries_model(es).contains_key(k) {
                let t0 = choose|t: int| 0 <= t < pre.len() && (#[trigger] pre[t]).key@ == k;
                assert((#[trigger] es[t0]).key@ == k);
            }
            if exists|t: int| 0 <= t < es.len() && (#[trigger] es[t]).key@ == k {
                let t0 = choose|t: int| 0 <= t < es.len() && (#[trigger] es[t]).key@ == k;
                assert((#[trigger] pre[t0]).key@ == k);
            }
        }
    }
}

impl ResultCache {
    /// An empty cache with the given time-to-live.
    pub fn new(ttl: u64) -> (c: ResultCache)
        ensures
            c@ == Map::<Seq<char>, (Seq<char>, int)>::empty(),
            c.ttl == ttl,
            forall|k: Seq<char>| !is_in_flight(&c, k),
    {
        let c = ResultCache { entries: Vec::new(), in_flight: Vec::new(), ttl };
        proof {
            assert(c.entries@.len() == 0);
        }
        c
    }

    /// The stored value for `key`, while unexpired; `None` on a miss or
    /// once `now` has reached the entry's expiry instant.
    pub fn lookup(&self, key: &String, now: u64) -> (r: Option<String>)
        ensures
            match r {
                Some(v) => serves(self@, key@, now as int) && v@ == self@[key@].0,
                None => !serves(self@, key@, now as int),
            },
    {
        proof {
            lemma_model_lookup(self.entries@, key@);
        }
        let n = self.entries.len();
        let mut t: usize = n;
        let mut found: usize = n;
        loop
            invariant_except_break
                t <= n,
                n == self.entries@.len(),
                found == n,
                forall|u: int| t <= u < n ==> (#[trigger] self.entries@[u]).key@ != key@,
            ensures
                n == self.entries@.len(),
                found <= n,
                found < n ==> self.entries@[found as int].key@ == key@ && forall|u: int|
                    found < u < n ==> (#[trigger] self.entries@[u]).key@ != key@,
                found == n ==> forall|u: int|
                    0 <= u < n ==> (#[trigger] self.entries@[u]).key@ != key@,
            decreases t,
        {
            if t == 0 {
                break ;
            }
            if self.entries[t - 1].key == *key {
                found = t - 1;
                break ;
            }
            t -= 1;
        }
        if found == n {
            return None;
        }
        let e = &self.entries[found];
        if now < e.expires_at {
            Some(e.value.clone())
        } else {
            None
        }
    }

    /// Store a result computed at `now`, to serve until `now + ttl`.
    pub fn store(&mut self, key: &String, value: String, now: u64)
        requires
            now + old(self).ttl <= u64::MAX,
        ensures
            final (self)@ == old(self)@.insert(key@, (value@, now + old(self).ttl)),
            final (self).ttl == old(self).ttl,
            final (self).in_flight == old(self).in_flight,
    {
        let expires_at = now + self.ttl;
        let ghost before = self.entries@;
        self.entries.push(CacheEntry { key: key.clone(), value, expires_at });
        proof {
            assert(self.entries@.drop_last() =~= before);
        }
    }

    /// Decide a request at `now`: serve the cached value while fresh;
    /// otherwise start a fetch only if none is in flight for this key,
    /// else the caller awaits the in-flight result.
    pub fn begin_request(&mut self, key: &String, now: u64) -> (d: FetchDecision)
        ensures
            final (self)@ == old(self)@,
            final (self).ttl == old(self).ttl,
            final (self).entries == old(self).entries,
            match d {
                FetchDecision::Hit(v) => serves(old(self)@, key@, now as int) && v@ == old(
                    self,
                )@[key@].0 && final (self).in_flight == old(self).in_flight,
                FetchDecision::Fetch => !serves(old(self)@, key@, now as int) && !is_in_flight(
                    &*old(self),
                    key@,
                ) && is_in_flight(&*final (self), key@) && forall|k: Seq<char>|
                    k != key@ ==> is_in_flight(&*final (self), k) == is_in_flight(&*old(self), k),
                FetchDecision::Wait => !serves(old(self)@, key@, now as int) && is_in_flight(
                    &*old(self),
                    key@,
                ) && final (self).in_flight == old(self).in_flight,
            },
    {
        let looked = self.lookup(key, now);
        match looked {
            Some(v) => {
                return FetchDecision::Hit(v);
            },
            None => {},
        }
        let n = self.in_flight.len();
        let mut t: usize = 0;
        while t < n
            invariant
                t <= n,
                n == self.in_flight@.len(),
                *self == *old(self),
                !serves(old(self)@, key@, now as int),
                forall|u: int| 0 <= u < t ==> (#[trigger] self.in_flight@[u])@ != key@,
            decreases n - t,
        {
            if self.in_flight[t] == *key {
                proof {
                    assert((#[trigger] self.in_flight@[t as int])@ == key@);
                }
                return FetchDecision::Wait;
            }
            t += 1;
        }
        let ghost before = self.in_flight@;
        self.in_flight.push(key.clone());
        proof {
            assert((#[trigger] self.in_flight@[before.len() as int])@ == key@);
            assert forall|k: Seq<char>| k != key@ implies is_in_flight(&*self, k) == in_keys(
                before,
                k,
            ) by {
                if in_keys(before, k) {
                    let u = choose|u: int| 0 <= u < before.len() && (#[trigger] before[u])@ == k;
                    assert((#[trigger] self.in_flight@[u])@ == k);
                }
                if is_in_flight(&*self, k) {
                    let u = choose|u: int|
                        0 <= u < self.in_flight@.len() && (#[trigger] self.in_flight@[u])@ == k;
                    assert(u < before.len());
                    assert((#[trigger] before[u])@ == k);
                }
            }
        }
        FetchDecision::Fetch
    }

    /// Give up a fetch for `key` without storing a result: clear the
    /// key's in-flight mark so a later request may fetch again.
    pub fn abort_request(&mut self, key: &String)
        ensures
            final (self)@ == old(self)@,
            final (self).ttl == old(self).ttl,
            final (self).entries == old(self).entries,
            !is_in_flight(&*final (self), key@),
            forall|k: Seq<char>|
                k != key@ ==> is_in_flight(&*final (self), k) == is_in_flight(&*old(self), k),
    {
        let ghost before = self.in_flight@;
        let mut kept: Vec<String> = Vec::new();
        let mut t: usize = 0;
        while t < self.in_flight.len()
            invariant
                t <= self.in_flight@.len(),
                self.in_flight@ == before,
                self.entries == old(self).entries,
                self.ttl == old(self).ttl,
                forall|k: Seq<char>|
                    in_keys(kept@, k) <==> (in_keys(before.subrange(0, t as int), k) && k != key@),
            decreases self.in_flight@.len() - t,
        {
            let ghost kept_before = kept@;
            if self.in_flight[t] != *key {
                kept.push(self.in_flight[t].clone());
            }
            proof {
                let prefix = before.subrange(0, t + 1);
                assert forall|k: Seq<char>| in_keys(kept@, k) implies (in_keys(prefix, k) && k
                    != key@) by {
                    let u = choose|u: int| 0 <= u < kept@.len() && (#[trigger] kept@[u])@ == k;
                    if u < kept_before.len() {
                        assert(in_keys(kept_before, k));
                        let w = choose|w: int|
                            0 <= w < t && (#[trigger] before.subrange(0, t as int)[w])@ == k;
                        assert((#[trigger] prefix[w])@ == k);
                    } else {
                        assert(kept@[u]@ == before[t as int]@);
                        assert((#[trigger] prefix[t as int])@ == k);
                    }
                }
                assert forall|k: Seq<char>| (in_keys(prefix, k) && k != key@) implies in_keys(
                    kept@,
                    k,
                ) by {
                    let w = choose|w: int| 0 <= w < prefix.len() && (#[trigger] prefix[w])@ == k;
                    if w < t {
                        assert((#[trigger] before.subrange(0, t as int)[w])@ == k);
                        assert(in_keys(kept_before, k));
                        let u = choose|u: int|
                            0 <= u < kept_before.len() && (#[trigger] kept_before[u])@ == k;
                        assert((#[trigger] kept@[u])@ == k);
                    } else {
                        assert(before[t as int]@ == k);
                        assert((#[trigger] kept@[kept@.len() - 1])@ == k);
                    }
                }
            }
            t += 1;
        }
        proof {
            assert(before.subrange(0, before.len() as int) =~= before);
        }
        self.in_flight = kept;
    }

    /// Finish a fetch for `key`: store the result and clear the key's
    /// in-flight mark.
    pub fn complete_request(&mut self, key: &String, value: String, now: u64)
        requires
            now + old(self).ttl <= u64::MAX,
        ensures
            final (self)@ == old(self)@.insert(key@, (value@, now + old(self).ttl)),
            final (self).ttl == old(self).ttl,
            !is_in_flight(&*final (self), key@),
            forall|k: Seq<char>|
                k != key@ ==> is_in_flight(&*final (self), k) == is_in_flight(&*old(self), k),
    {
        self.abort_request(key);
        self.store(key, value, now);
    }
}

/// What a request decision is: serve the cached value, start the one
/// fetch, or await the fetch already in flight.
pub enum FetchDecision {
    Hit(String),
    Fetch,
    Wait,
}

/// Two requests for the same key within the TTL window reach the
/// underlying pipeline at most once: after a result is stored at `t0`,
/// any request at `t1` before `t0 + ttl` is served from the store.
pub proof fn lemma_cache_hit_within_ttl(
    m: Map<Seq<char>, (Seq<char>, int)>,
    k: Seq<char>,
    v: Seq<char>,
    t0: int,
    t1: int,
    ttl: int,
)
    requires
        t0 <= t1 < t0 + ttl,
    ensures
        serves(m.insert(k, (v, t0 + ttl)), k, t1),
        m.insert(k, (v, t0 + ttl))[k].0 == v,
{
}

/// A request at or after the expiry instant is not served from the store,
/// so the pipeline runs again.
pub proof fn lemma_cache_expired(
    m: Map<Seq<char>, (Seq<char>, int)>,
    k: Seq<char>,
    v: Seq<char>,
    t0: int,
    t1: int,
    ttl: int,
)
    requires
        t1 >= t0 + ttl,
    ensures
        !serves(m.insert(k, (v, t0 + ttl)), k, t1),
{
}

} // verus!
