//! The cache engine: slot-indexed storage of values and their metadata, a key
//! index for O(1)-style lookup, a recency queue enforcing least-recently-used
//! eviction, and frequency-ordered iteration over a snapshot of the entries.

use vstd::prelude::*;

use crate::statistics::Statistics;

verus! {

/// The metadata associated with each element in the cache.
pub struct Metadata<K> {
    /// The last time the element was accessed as a UTC UNIX timestamp in us.
    last_accessed: i64,
    /// The number of times the element has been accessed.
    frequency: usize,
    /// The number of cache hits for the element.
    hits: usize,
    /// The user-provided key for the element.
    user_key: K,
}

impl<K> Metadata<K> {
    /// The last access time, as a UTC UNIX timestamp in microseconds;
    /// 0 until the entry is first accessed.
    pub closed spec fn spec_last_accessed(self) -> i64 {
        self.last_accessed
    }

    /// How many times the entry has been returned by a lookup.
    pub closed spec fn spec_frequency(self) -> usize {
        self.frequency
    }

    /// The number of cache hits for the entry.
    pub closed spec fn spec_hits(self) -> usize {
        self.hits
    }

    /// The copy of the user key held for reverse lookup during eviction.
    pub closed spec fn spec_user_key(self) -> K {
        self.user_key
    }

    /// The last access time, as a UTC UNIX timestamp in microseconds.
    pub fn last_accessed(&self) -> (r: i64)
        ensures
            r == self.spec_last_accessed(),
    {
        self.last_accessed
    }

    /// How many times the entry has been returned by a lookup.
    pub fn frequency(&self) -> (r: usize)
        ensures
            r == self.spec_frequency(),
    {
        self.frequency
    }

    /// The number of cache hits for the entry.
    pub fn hits(&self) -> (r: usize)
        ensures
            r == self.spec_hits(),
    {
        self.hits
    }

    /// The user key the entry was inserted under.
    pub fn user_key(&self) -> (r: &K)
        ensures
            *r == self.spec_user_key(),
    {
        &self.user_key
    }
}

/// The order in which `iter_frequency` walks the entries.
pub enum SortOrder {
    Ascending,
    Descending,
}

/// A cache key: a type with an executable equality test and an executable
/// duplication, each specified against the type's mathematical view, so that
/// the cache's contracts can speak of key views.
pub trait CacheKey: View + Sized {
    /// Decide whether two keys are the same key.
    fn eq_key(&self, other: &Self) -> (r: bool)
        ensures
            r == (self@ == other@),
    ;

    /// Produce a key with the same view, for storage inside the cache.
    fn clone_key(&self) -> (r: Self)
        ensures
            r@ == self@,
    ;
}

/// Relies on `str`'s `PartialEq`: string slices compare equal exactly when
/// their character sequences are equal.
#[verifier::external_body]
fn str_eq(a: &str, b: &str) -> (r: bool)
    ensures
        r == (a@ == b@),
{
    a == b
}

impl<'a> CacheKey for &'a str {
    fn eq_key(&self, other: &Self) -> (r: bool) {
        str_eq(*self, *other)
    }

    fn clone_key(&self) -> (r: Self) {
        *self
    }
}

impl CacheKey for String {
    fn eq_key(&self, other: &Self) -> (r: bool) {
        self.eq(other)
    }

    fn clone_key(&self) -> (r: Self) {
        self.clone()
    }
}

impl CacheKey for u32 {
    fn eq_key(&self, other: &Self) -> (r: bool) {
        *self == *other
    }

    fn clone_key(&self) -> (r: Self) {
        *self
    }
}

impl CacheKey for u64 {
    fn eq_key(&self, other: &Self) -> (r: bool) {
        *self == *other
    }

    fn clone_key(&self) -> (r: Self) {
        *self
    }
}

impl CacheKey for usize {
    fn eq_key(&self, other: &Self) -> (r: bool) {
        *self == *other
    }

    fn clone_key(&self) -> (r: Self) {
        *self
    }
}

impl CacheKey for i32 {
    fn eq_key(&self, other: &Self) -> (r: bool) {
        *self == *other
    }

    fn clone_key(&self) -> (r: Self) {
        *self
    }
}

impl CacheKey for i64 {
    fn eq_key(&self, other: &Self) -> (r: bool) {
        *self == *other
    }

    fn clone_key(&self) -> (r: Self) {
        *self
    }
}

/// Relies on `chrono::Utc::now` and `chrono::DateTime::timestamp_micros`:
/// the current UTC wall-clock time in microseconds since the UNIX epoch.
/// Nothing is promised of the value, since it depends on the clock.
#[verifier::external_body]
fn now_micros() -> i64 {
    chrono::Utc::now().timestamp_micros()
}

/// Removing a value that occurs exactly once, at position `p`, is the same
/// as removing position `p`.
proof fn lemma_remove_value_unique<A>(s: Seq<A>, v: A, p: int)
    requires
        0 <= p < s.len(),
        s[p] == v,
        forall|j: int| 0 <= j < s.len() && j != p ==> s[j] != v,
    ensures
        s.remove_value(v) == s.remove(p),
{
    assert(s.contains(v));
    s.index_of_first_ensures(v);
}

/// Two enumerations of the same distinct elements, one non-decreasing and
/// one non-increasing in a measure that distinguishes any two of them, are
/// exact reverses of each other.
proof fn lemma_opposite_orders_reverse<E>(x: Seq<E>, y: Seq<E>, f: spec_fn(E) -> int)
    requires
        x.len() == y.len(),
        forall|i: int, j: int| 0 <= i < j < x.len() ==> x[i] != x[j],
        forall|i: int, j: int| 0 <= i < j < y.len() ==> y[i] != y[j],
        forall|e: E| x.contains(e) <==> y.contains(e),
        forall|i: int, j: int| 0 <= i < j < x.len() ==> #[trigger] f(x[i]) <= #[trigger] f(x[j]),
        forall|i: int, j: int| 0 <= i < j < y.len() ==> #[trigger] f(y[i]) >= #[trigger] f(y[j]),
        forall|i: int, j: int| 0 <= i < j < x.len() ==> f(x[i]) != f(x[j]),
    ensures
        forall|t: int| 0 <= t < y.len() ==> y[t] == x[x.len() - 1 - t],
    decreases x.len(),
{
    if x.len() > 0 {
        assert(x.contains(x.last()));
        assert(y.contains(y[0]));
        assert(x.contains(y[0]));
        let i = choose|i: int| 0 <= i < x.len() && x[i] == y[0];
        assert(y.contains(x.last()));
        let j = choose|j: int| 0 <= j < y.len() && y[j] == x.last();
        assert(f(x[i]) <= f(x[x.len() - 1]));
        assert(f(y[j]) <= f(y[0]));
        assert(f(x[i]) == f(x[x.len() - 1]));
        assert(i == x.len() - 1);
        assert(y[0] == x.last());
        let x1 = x.drop_last();
        let y1 = y.drop_first();
        assert(forall|t: int| 0 <= t < x1.len() ==> x1[t] == x[t]);
        assert(forall|t: int| 0 <= t < y1.len() ==> y1[t] == y[t + 1]);
        assert forall|e: E| x1.contains(e) implies y1.contains(e) by {
            let a = choose|a: int| 0 <= a < x1.len() && x1[a] == e;
            assert(x[a] == e);
            assert(x.contains(e));
            assert(y.contains(e));
            let b = choose|b: int| 0 <= b < y.len() && y[b] == e;
            assert(x[a] != x[x.len() - 1]);
            assert(b != 0);
            assert(y1[b - 1] == e);
            assert(y1.contains(e));
        }
        assert forall|e: E| y1.contains(e) implies x1.contains(e) by {
            let b = choose|b: int| 0 <= b < y1.len() && y1[b] == e;
            assert(y[b + 1] == e);
            assert(y.contains(e));
            assert(x.contains(e));
            let a = choose|a: int| 0 <= a < x.len() && x[a] == e;
            assert(y[b + 1] != y[0]);
            assert(a != x.len() - 1);
            assert(x1[a] == e);
            assert(x1.contains(e));
        }
        lemma_opposite_orders_reverse(x1, y1, f);
        assert forall|t: int| 0 <= t < y.len() implies y[t] == x[x.len() - 1 - t] by {
            if t > 0 {
                assert(y[t] == y1[t - 1]);
                assert(y1[t - 1] == x1[x1.len() - 1 - (t - 1)]);
            }
        }
    }
}

/// An efficient LRU in-memory cache over a reusable-slot storage arena.
///
/// Values are stored in slots addressed by stable integer handles; a
/// parallel metadata table keeps each entry's access statistics; a key
/// index maps each user key to its slot; and a recency queue of handles,
/// least-recently-used first, drives eviction when an insertion exceeds the
/// configured capacity.
pub struct Cache<K, V> {
    /// The storage arena: each position is vacant or holds one value.
    values: Vec<Option<V>>,
    /// The metadata table, parallel to the arena slot for slot.
    metas: Vec<Option<Metadata<K>>>,
    /// The key index: user key to slot handle.
    key_map: Vec<(K, usize)>,
    /// The recency queue of slot handles, least-recently-used first.
    usage: Vec<usize>,
    /// Vacant slot handles available for reuse.
    free: Vec<usize>,
    /// The maximum number of elements that the cache can hold.
    capacity: usize,
    /// Statistics about the cache.
    statistics: Statistics,
}

impl<K: CacheKey, V> Cache<K, V> {
    /// Slot handle `h` holds a live entry.
    pub closed spec fn live(self, h: int) -> bool {
        0 <= h < self.values@.len() && self.values@[h] is Some
    }

    /// The view of the key stored in slot `h`.
    spec fn slot_key(self, h: int) -> K::V {
        self.metas@[h].unwrap().user_key@
    }

    /// The value stored in slot `h`.
    spec fn slot_value(self, h: int) -> V {
        self.values@[h].unwrap()
    }

    /// The metadata stored in slot `h`.
    spec fn slot_meta(self, h: int) -> Metadata<K> {
        self.metas@[h].unwrap()
    }

    /// The configured maximum number of live entries.
    pub closed spec fn spec_capacity(self) -> usize {
        self.capacity
    }

    /// The number of live entries.
    pub closed spec fn spec_len(self) -> nat {
        self.usage@.len()
    }

    /// The keys of the live entries in recency order, least-recently-used
    /// first.
    pub closed spec fn recency(self) -> Seq<K::V> {
        self.usage@.map(|i: int, h: usize| self.slot_key(h as int))
    }

    /// The view of the key of the `i`-th key-index entry.
    spec fn key_at(self, i: int) -> K::V {
        self.key_map@[i].0@
    }

    /// Some live entry is stored under key view `k`.
    pub closed spec fn contains(self, k: K::V) -> bool {
        exists|i: int| 0 <= i < self.key_map@.len() && self.key_at(i) == k
    }

    /// The position of key view `k` in the key index.
    spec fn key_index(self, k: K::V) -> int {
        choose|i: int| 0 <= i < self.key_map@.len() && self.key_at(i) == k
    }

    /// The slot handle of the entry stored under key view `k`.
    spec fn slot_of(self, k: K::V) -> int {
        self.key_map@[self.key_index(k)].1 as int
    }

    /// The value stored under key view `k`.
    pub closed spec fn value_of(self, k: K::V) -> V {
        self.slot_value(self.slot_of(k))
    }

    /// The metadata of the entry stored under key view `k`.
    pub closed spec fn meta_of(self, k: K::V) -> Metadata<K> {
        self.slot_meta(self.slot_of(k))
    }

    /// The usage statistics tracker.
    pub closed spec fn spec_statistics(self) -> Statistics {
        self.statistics
    }

    /// Structural consistency: the key index, the storage arena and the
    /// recency queue agree on the set of live entries; keys are unique; the
    /// recency queue holds each live handle exactly once; and free handles
    /// are vacant.
    spec fn inv(self) -> bool {
        &&& self.capacity >= 1
        &&& self.values@.len() == self.metas@.len()
        &&& forall|h: int|
            0 <= h < self.values@.len() ==> ((#[trigger] self.values@[h]) is Some <==> self.metas@[h] is Some)
        &&& forall|i: int|
            0 <= i < self.key_map@.len() ==> {
                &&& self.live(#[trigger] self.key_map@[i].1 as int)
                &&& self.slot_key(self.key_map@[i].1 as int) == self.key_at(i)
            }
        &&& forall|i: int, j: int|
            0 <= i < j < self.key_map@.len() ==> self.key_at(i) != self.key_at(j)
        &&& forall|i: int|
            0 <= i < self.usage@.len() ==> self.live(#[trigger] self.usage@[i] as int)
        &&& forall|i: int, j: int|
            0 <= i < j < self.usage@.len() ==> self.usage@[i] != self.usage@[j]
        &&& forall|h: int| #[trigger]
            self.live(h) ==> exists|i: int|
                0 <= i < self.key_map@.len() && self.key_map@[i].1 == h
        &&& forall|h: int| #[trigger]
            self.live(h) ==> exists|i: int| 0 <= i < self.usage@.len() && self.usage@[i] == h
        &&& forall|i: int|
            0 <= i < self.free@.len() ==> (#[trigger] self.free@[i] as int) < self.values@.len()
                && self.values@[self.free@[i] as int] is None
        &&& forall|i: int, j: int|
            0 <= i < j < self.free@.len() ==> self.free@[i] != self.free@[j]
    }

    /// Well-formedness: structural consistency, and the live entry count
    /// never exceeds the capacity.
    pub closed spec fn wf(self) -> bool {
        self.inv() && self.usage@.len() <= self.capacity
    }

    /// Build an empty cache that will hold at most `capacity` entries,
    /// pre-sizing every internal structure. A capacity of zero is rejected
    /// at the call site: the cache always admits at least one entry.
    pub fn new(capacity: usize) -> (r: Cache<K, V>)
        requires
            capacity >= 1,
        ensures
            r.wf(),
            r.spec_capacity() == capacity,
            r.spec_len() == 0,
            forall|k: K::V| !r.contains(k),
            r.spec_statistics().spec_hits() == 0,
            r.spec_statistics().spec_misses() == 0,
            r.spec_statistics().spec_current_size() == 0,
    {
        Cache {
            values: Vec::with_capacity(capacity),
            metas: Vec::with_capacity(capacity),
            key_map: Vec::with_capacity(capacity),
            usage: Vec::with_capacity(capacity),
            free: Vec::with_capacity(capacity),
            capacity: capacity,
            statistics: Statistics::new(),
        }
    }

    /// Two live slots holding the same key are the same slot.
    proof fn lemma_slot_key_injective(self, h1: int, h2: int)
        requires
            self.inv(),
            self.live(h1),
            self.live(h2),
            self.slot_key(h1) == self.slot_key(h2),
        ensures
            h1 == h2,
    {
        let i1 = choose|i: int| 0 <= i < self.key_map@.len() && self.key_map@[i].1 == h1;
        let i2 = choose|i: int| 0 <= i < self.key_map@.len() && self.key_map@[i].1 == h2;
        assert(self.key_at(i1) == self.slot_key(h1));
        assert(self.key_at(i2) == self.slot_key(h2));
        assert(i1 == i2);
    }

    /// A live slot is found again through the key index under its own key.
    proof fn lemma_slot_roundtrip(self, h: int)
        requires
            self.inv(),
            self.live(h),
        ensures
            self.contains(self.slot_key(h)),
            0 <= self.key_index(self.slot_key(h)) < self.key_map@.len(),
            self.key_at(self.key_index(self.slot_key(h))) == self.slot_key(h),
            self.slot_of(self.slot_key(h)) == h,
    {
        let i = choose|i: int| 0 <= i < self.key_map@.len() && self.key_map@[i].1 == h;
        assert(self.key_at(i) == self.slot_key(h));
        assert(self.contains(self.slot_key(h)));
        let j = self.key_index(self.slot_key(h));
        assert(0 <= j < self.key_map@.len() && self.key_at(j) == self.slot_key(h));
        assert(i == j);
    }

    /// A key-index entry is the one the lookup model picks for its key.
    proof fn lemma_key_lookup(self, i: int)
        requires
            self.inv(),
            0 <= i < self.key_map@.len(),
        ensures
            self.contains(self.key_at(i)),
            self.key_index(self.key_at(i)) == i,
            self.slot_of(self.key_at(i)) == self.key_map@[i].1,
            self.live(self.key_map@[i].1 as int),
    {
        assert(self.contains(self.key_at(i)));
        let j = self.key_index(self.key_at(i));
        assert(0 <= j < self.key_map@.len() && self.key_at(j) == self.key_at(i));
        assert(i == j);
    }

    /// Find the position of `key` in the key index.
    fn find_key_index(&self, key: &K) -> (r: Option<usize>)
        requires
            self.inv(),
        ensures
            match r {
                Some(i) => {
                    &&& i < self.key_map@.len()
                    &&& self.key_at(i as int) == key@
                    &&& self.contains(key@)
                    &&& self.key_index(key@) == i as int
                },
                None => !self.contains(key@),
            },
    {
        let mut i: usize = 0;
        while i < self.key_map.len()
            invariant
                self.inv(),
                i <= self.key_map@.len(),
                forall|j: int| 0 <= j < i ==> self.key_at(j) != key@,
            decreases self.key_map@.len() - i,
        {
            let pair = &self.key_map[i];
            if pair.0.eq_key(key) {
                proof {
                    self.lemma_key_lookup(i as int);
                }
                return Some(i);
            }
            i = i + 1;
        }
        None
    }

    /// Find the position of live slot handle `h` in the recency queue.
    fn find_usage_pos(&self, h: usize) -> (p: usize)
        requires
            self.inv(),
            self.live(h as int),
        ensures
            p < self.usage@.len(),
            self.usage@[p as int] == h,
    {
        let mut i: usize = 0;
        while i < self.usage.len()
            invariant
                self.inv(),
                i <= self.usage@.len(),
                forall|j: int| 0 <= j < i ==> self.usage@[j] != h,
            decreases self.usage@.len() - i,
        {
            if self.usage[i] == h {
                return i;
            }
            i = i + 1;
        }
        proof {
            assert(self.live(h as int));
            assert(false);
        }
        0
    }

    /// Two states with the same key index agree on which keys are present
    /// and on the slot each key resolves to.
    proof fn lemma_lookup_eq(pre: Self, post: Self)
        requires
            pre.inv(),
            pre.key_map@ == post.key_map@,
        ensures
            forall|k2: K::V| pre.contains(k2) <==> post.contains(k2),
            forall|k2: K::V| #[trigger] pre.contains(k2) ==> pre.slot_of(k2) == post.slot_of(k2),
    {
        assert(forall|i: int| 0 <= i < pre.key_map@.len() ==> pre.key_at(i) == post.key_at(i));
        assert forall|k2: K::V| pre.contains(k2) implies post.contains(k2) by {
            let i = pre.key_index(k2);
            assert(0 <= i < post.key_map@.len() && post.key_at(i) == k2);
        }
        assert forall|k2: K::V| post.contains(k2) implies pre.contains(k2) by {
            let i = post.key_index(k2);
            assert(0 <= i < pre.key_map@.len() && pre.key_at(i) == k2);
        }
        assert forall|k2: K::V| #[trigger] pre.contains(k2) implies pre.slot_of(k2) == post.slot_of(
            k2,
        ) by {
            let i1 = pre.key_index(k2);
            let i2 = post.key_index(k2);
            assert(0 <= i1 < pre.key_map@.len() && pre.key_at(i1) == k2);
            assert(0 <= i2 < post.key_map@.len() && post.key_at(i2) == k2);
            assert(pre.key_at(i2) == k2);
            assert(i1 == i2);
        }
    }

    /// Find the key-index position whose entry points at slot `h`.
    fn find_handle_index(&self, h: usize) -> (ki: usize)
        requires
            self.inv(),
            self.live(h as int),
        ensures
            ki < self.key_map@.len(),
            self.key_map@[ki as int].1 == h,
    {
        let mut i: usize = 0;
        while i < self.key_map.len()
            invariant
                self.inv(),
                i <= self.key_map@.len(),
                forall|j: int| 0 <= j < i ==> self.key_map@[j].1 != h,
            decreases self.key_map@.len() - i,
        {
            if self.key_map[i].1 == h {
                return i;
            }
            i = i + 1;
        }
        proof {
            assert(self.live(h as int));
            assert(false);
        }
        0
    }

    /// Remove the live entry in slot `h` from the arena, the metadata table,
    /// the key index and the recency queue, and free the slot for reuse.
    fn remove_slot(&mut self, h: usize)
        requires
            old(self).inv(),
            old(self).live(h as int),
        ensures
            final(self).inv(),
            final(self).spec_len() == old(self).spec_len() - 1,
            final(self).spec_capacity() == old(self).spec_capacity(),
            final(self).spec_statistics() == old(self).spec_statistics(),
            !final(self).contains(old(self).slot_key(h as int)),
            final(self).recency() == old(self).recency().remove_value(
                old(self).slot_key(h as int),
            ),
            forall|k2: K::V|
                k2 != old(self).slot_key(h as int) ==> (final(self).contains(k2)
                    <==> old(self).contains(k2)),
            forall|k2: K::V|
                k2 != old(self).slot_key(h as int) && old(self).contains(k2)
                    ==> final(self).value_of(k2) == old(self).value_of(k2)
                    && final(self).meta_of(k2) == old(self).meta_of(k2),
    {
        let pos = self.find_usage_pos(h);
        let ki = self.find_handle_index(h);
        proof {
            self.lemma_slot_roundtrip(h as int);
            assert(self.key_at(ki as int) == self.slot_key(h as int));
        }
        self.usage.remove(pos);
        self.key_map.remove(ki);
        self.values[h] = None;
        self.metas[h] = None;
        self.free.push(h);
        proof {
            let pre = *old(self);
            let post = *self;
            let k = pre.slot_key(h as int);
            let u1 = pre.usage@;
            let u2 = post.usage@;
            let m1 = pre.key_map@;
            let m2 = post.key_map@;
            assert(u2 == u1.remove(pos as int));
            assert(m2 == m1.remove(ki as int));
            assert(forall|j: int| 0 <= j < pos as int ==> u2[j] == u1[j]);
            assert(forall|j: int| pos as int <= j < u2.len() ==> u2[j] == u1[j + 1]);
            assert(forall|j: int| 0 <= j < ki as int ==> m2[j] == m1[j]);
            assert(forall|j: int| ki as int <= j < m2.len() ==> m2[j] == m1[j + 1]);
            // liveness and slot data change only at h
            assert(forall|h2: int| post.live(h2) <==> pre.live(h2) && h2 != h as int);
            assert(forall|h2: int|
                pre.live(h2) && h2 != h as int ==> post.slot_key(h2) == pre.slot_key(h2)
                    && post.slot_value(h2) == pre.slot_value(h2) && post.slot_meta(h2)
                    == pre.slot_meta(h2));
            // only the key-index entry at ki held slot h
            assert forall|j: int| 0 <= j < m1.len() && j != ki as int implies m1[j].1 != h by {
                if m1[j].1 == h {
                    assert(pre.key_at(j) == pre.slot_key(h as int));
                    assert(pre.key_at(ki as int) == pre.slot_key(h as int));
                }
            }
            // structural consistency, clause by clause
            assert forall|h2: int|
                0 <= h2 < post.values@.len() implies ((#[trigger] post.values@[h2]) is Some
                <==> post.metas@[h2] is Some) by {
                assert(pre.values@[h2] is Some <==> pre.metas@[h2] is Some);
            }
            assert forall|j: int| 0 <= j < m2.len() implies {
                &&& post.live(#[trigger] m2[j].1 as int)
                &&& post.slot_key(m2[j].1 as int) == post.key_at(j)
            } by {
                let j1 = if j < ki as int {
                    j
                } else {
                    j + 1
                };
                assert(m2[j] == m1[j1]);
                assert(pre.live(m1[j1].1 as int));
                assert(pre.slot_key(m1[j1].1 as int) == pre.key_at(j1));
                assert(m1[j1].1 != h);
            }
            assert forall|i2: int, j: int|
                0 <= i2 < j < m2.len() implies post.key_at(i2) != post.key_at(j) by {
                let a = if i2 < ki as int {
                    i2
                } else {
                    i2 + 1
                };
                let b = if j < ki as int {
                    j
                } else {
                    j + 1
                };
                assert(pre.key_at(a) != pre.key_at(b));
            }
            assert forall|j: int|
                0 <= j < u2.len() implies post.live(#[trigger] u2[j] as int) by {
                let j1 = if j < pos as int {
                    j
                } else {
                    j + 1
                };
                assert(u2[j] == u1[j1]);
                assert(pre.live(u1[j1] as int));
                assert(u1[j1] != u1[pos as int]);
            }
            assert forall|i2: int, j: int|
                0 <= i2 < j < u2.len() implies u2[i2] != u2[j] by {
                let a = if i2 < pos as int {
                    i2
                } else {
                    i2 + 1
                };
                let b = if j < pos as int {
                    j
                } else {
                    j + 1
                };
                assert(u2[i2] == u1[a] && u2[j] == u1[b] && a < b);
            }
            assert forall|h2: int| #[trigger] post.live(h2) implies exists|j: int|
                0 <= j < m2.len() && m2[j].1 == h2 by {
                assert(pre.live(h2));
                let j0 = choose|j: int| 0 <= j < m1.len() && m1[j].1 == h2;
                assert(j0 != ki as int);
                if j0 < ki as int {
                    assert(m2[j0].1 == h2);
                } else {
                    assert(m2[j0 - 1].1 == h2);
                }
            }
            assert forall|h2: int| #[trigger] post.live(h2) implies exists|j: int|
                0 <= j < u2.len() && u2[j] == h2 by {
                assert(pre.live(h2));
                let j0 = choose|j: int| 0 <= j < u1.len() && u1[j] == h2;
                assert(j0 != pos as int);
                if j0 < pos as int {
                    assert(u2[j0] == h2);
                } else {
                    assert(u2[j0 - 1] == h2);
                }
            }
            assert forall|j: int|
                0 <= j < post.free@.len() implies (#[trigger] post.free@[j] as int)
                    < post.values@.len() && post.values@[post.free@[j] as int] is None by {
                if j < pre.free@.len() {
                    assert((pre.free@[j] as int) < pre.values@.len());
                    assert(pre.values@[pre.free@[j] as int] is None);
                } else {
                    assert(post.free@[j] == h);
                }
            }
            assert forall|i2: int, j: int|
                0 <= i2 < j < post.free@.len() implies post.free@[i2] != post.free@[j] by {
                if j < pre.free@.len() {
                    assert(pre.free@[i2] != pre.free@[j]);
                } else {
                    assert(post.free@[j] == h);
                    assert(pre.values@[pre.free@[i2] as int] is None);
                }
            }
            assert(post.inv());
            // the removed key is gone
            assert forall|j: int| 0 <= j < m2.len() implies post.key_at(j) != k by {
                let j1 = if j < ki as int {
                    j
                } else {
                    j + 1
                };
                assert(pre.key_at(j1) != pre.key_at(ki as int));
            }
            // presence and data of every other key are preserved
            assert forall|k2: K::V|
                k2 != k && pre.contains(k2) implies post.contains(k2) by {
                let i0 = pre.key_index(k2);
                assert(0 <= i0 < m1.len() && pre.key_at(i0) == k2);
                assert(i0 != ki as int);
                if i0 < ki as int {
                    assert(post.key_at(i0) == k2);
                } else {
                    assert(post.key_at(i0 - 1) == k2);
                }
            }
            assert forall|k2: K::V|
                k2 != k && post.contains(k2) implies pre.contains(k2) by {
                let i0 = post.key_index(k2);
                let j1 = if i0 < ki as int {
                    i0
                } else {
                    i0 + 1
                };
                assert(pre.key_at(j1) == k2);
            }
            assert forall|k2: K::V|
                k2 != k && pre.contains(k2) implies post.value_of(k2) == pre.value_of(k2)
                    && post.meta_of(k2) == pre.meta_of(k2) by {
                let i0 = pre.key_index(k2);
                pre.lemma_key_lookup(i0);
                let s = pre.slot_of(k2);
                assert(pre.slot_key(s) == k2);
                assert(s != h as int);
                let i2 = post.key_index(k2);
                assert(0 <= i2 < m2.len() && post.key_at(i2) == k2);
                let j1 = if i2 < ki as int {
                    i2
                } else {
                    i2 + 1
                };
                assert(m2[i2] == m1[j1]);
                assert(pre.key_at(j1) == k2);
                assert(j1 == i0);
                assert(post.slot_of(k2) == s);
            }
            // the recency queue lost exactly the removed entry
            assert(pre.recency()[pos as int] == k);
            assert forall|j: int|
                0 <= j < pre.recency().len() && j != pos as int implies pre.recency()[j] != k by {
                if pre.slot_key(u1[j] as int) == k {
                    pre.lemma_slot_key_injective(u1[j] as int, h as int);
                }
            }
            lemma_remove_value_unique(pre.recency(), k, pos as int);
            assert(post.recency() =~= pre.recency().remove(pos as int));
        }
    }

    /// A state that keeps every field but the statistics of a well-formed
    /// state is well-formed and observably unchanged.
    proof fn lemma_wf_same_core(pre: Self, post: Self)
        requires
            pre.inv(),
            post.values@ == pre.values@,
            post.metas@ == pre.metas@,
            post.key_map@ == pre.key_map@,
            post.usage@ == pre.usage@,
            post.free@ == pre.free@,
            post.capacity == pre.capacity,
        ensures
            post.inv(),
            post.spec_len() == pre.spec_len(),
            post.recency() == pre.recency(),
            forall|k2: K::V| post.contains(k2) <==> pre.contains(k2),
            forall|k2: K::V| #[trigger]
                pre.contains(k2) ==> post.value_of(k2) == pre.value_of(k2) && post.meta_of(k2)
                    == pre.meta_of(k2),
    {
        assert(forall|h2: int| post.live(h2) <==> pre.live(h2));
        assert forall|h2: int|
            0 <= h2 < post.values@.len() implies ((#[trigger] post.values@[h2]) is Some
            <==> post.metas@[h2] is Some) by {
            assert(pre.values@[h2] is Some <==> pre.metas@[h2] is Some);
        }
        assert forall|j: int| 0 <= j < post.key_map@.len() implies {
            &&& post.live(#[trigger] post.key_map@[j].1 as int)
            &&& post.slot_key(post.key_map@[j].1 as int) == post.key_at(j)
        } by {
            assert(pre.live(pre.key_map@[j].1 as int));
            assert(pre.slot_key(pre.key_map@[j].1 as int) == pre.key_at(j));
        }
        assert forall|i2: int, j: int|
            0 <= i2 < j < post.key_map@.len() implies post.key_at(i2) != post.key_at(j) by {
            assert(pre.key_at(i2) != pre.key_at(j));
        }
        assert forall|j: int|
            0 <= j < post.usage@.len() implies post.live(#[trigger] post.usage@[j] as int) by {
            assert(pre.live(pre.usage@[j] as int));
        }
        assert forall|i2: int, j: int|
            0 <= i2 < j < post.usage@.len() implies post.usage@[i2] != post.usage@[j] by {
            assert(pre.usage@[i2] != pre.usage@[j]);
        }
        assert forall|h2: int| #[trigger] post.live(h2) implies exists|j: int|
            0 <= j < post.key_map@.len() && post.key_map@[j].1 == h2 by {
            assert(pre.live(h2));
            let j0 = choose|j: int| 0 <= j < pre.key_map@.len() && pre.key_map@[j].1 == h2;
            assert(post.key_map@[j0].1 == h2);
        }
        assert forall|h2: int| #[trigger] post.live(h2) implies exists|j: int|
            0 <= j < post.usage@.len() && post.usage@[j] == h2 by {
            assert(pre.live(h2));
            let j0 = choose|j: int| 0 <= j < pre.usage@.len() && pre.usage@[j] == h2;
            assert(post.usage@[j0] == h2);
        }
        assert forall|j: int|
            0 <= j < post.free@.len() implies (#[trigger] post.free@[j] as int)
                < post.values@.len() && post.values@[post.free@[j] as int] is None by {
            assert((pre.free@[j] as int) < pre.values@.len());
            assert(pre.values@[pre.free@[j] as int] is None);
        }
        assert forall|i2: int, j: int|
            0 <= i2 < j < post.free@.len() implies post.free@[i2] != post.free@[j] by {
            assert(pre.free@[i2] != pre.free@[j]);
        }
        assert(post.inv());
        Self::lemma_lookup_eq(pre, post);
        assert(post.recency() =~= pre.recency());
        assert forall|k2: K::V| #[trigger] pre.contains(k2) implies post.value_of(k2)
            == pre.value_of(k2) && post.meta_of(k2) == pre.meta_of(k2) by {
            pre.lemma_key_lookup(pre.key_index(k2));
        }
    }

    /// Insert a value into the cache under `key` and return the key.
    ///
    /// The new entry starts with zeroed metadata and sits at the
    /// most-recently-used end of the recency queue. Inserting a key that is
    /// already present replaces that entry. When the insertion would exceed
    /// the capacity, the least-recently-used entry is evicted: overflow is
    /// always resolved by eviction, never by rejection. The occupancy
    /// statistic is updated to the new live count.
    pub fn insert(&mut self, key: K, value: V) -> (r: K)
        requires
            old(self).wf(),
        ensures
            final(self).wf(),
            r == key,
            final(self).spec_capacity() == old(self).spec_capacity(),
            final(self).spec_len() <= final(self).spec_capacity(),
            final(self).contains(key@),
            final(self).value_of(key@) == value,
            final(self).meta_of(key@).spec_frequency() == 0,
            final(self).meta_of(key@).spec_hits() == 0,
            final(self).meta_of(key@).spec_last_accessed() == 0,
            final(self).meta_of(key@).spec_user_key()@ == key@,
            final(self).spec_statistics().spec_hits() == old(self).spec_statistics().spec_hits(),
            final(self).spec_statistics().spec_misses() == old(self).spec_statistics().spec_misses(),
            final(self).spec_statistics().spec_current_size() == final(self).spec_len(),
            old(self).contains(key@) ==> {
                &&& final(self).spec_len() == old(self).spec_len()
                &&& final(self).recency() == old(self).recency().remove_value(key@).push(key@)
                &&& (forall|k2: K::V|
                    final(self).contains(k2) <==> (old(self).contains(k2) || k2 == key@))
                &&& (forall|k2: K::V|
                    k2 != key@ && old(self).contains(k2) ==> final(self).value_of(k2) == old(self).value_of(k2) && final(self).meta_of(k2) == old(self).meta_of(k2))
            },
            !old(self).contains(key@) && old(self).spec_len() < old(self).spec_capacity() ==> {
                &&& final(self).spec_len() == old(self).spec_len() + 1
                &&& final(self).recency() == old(self).recency().push(key@)
                &&& (forall|k2: K::V|
                    final(self).contains(k2) <==> (old(self).contains(k2) || k2 == key@))
                &&& (forall|k2: K::V|
                    k2 != key@ && old(self).contains(k2) ==> final(self).value_of(k2) == old(self).value_of(k2) && final(self).meta_of(k2) == old(self).meta_of(k2))
            },
            !old(self).contains(key@) && old(self).spec_len() == old(self).spec_capacity() ==> {
                &&& final(self).spec_len() == old(self).spec_capacity()
                &&& final(self).recency() == old(self).recency().drop_first().push(key@)
                &&& !final(self).contains(old(self).recency()[0])
                &&& (forall|k2: K::V|
                    k2 != old(self).recency()[0] ==> (final(self).contains(k2) <==> (old(self).contains(k2) || k2 == key@)))
                &&& (forall|k2: K::V|
                    k2 != key@ && k2 != old(self).recency()[0] && old(self).contains(k2)
                        ==> final(self).value_of(k2) == old(self).value_of(k2) && final(self).meta_of(k2) == old(self).meta_of(k2))
            },
    {
        // replace an existing entry stored under the same key
        match self.find_key_index(&key) {
            Some(i) => {
                let h_old = self.key_map[i].1;
                proof {
                    self.lemma_key_lookup(i as int);
                    assert(self.slot_key(h_old as int) == key@);
                }
                self.remove_slot(h_old);
            },
            None => {},
        }
        let ghost s1 = *self;
        // allocate a slot, reusing a freed one when there is any
        let meta0 = Metadata {
            last_accessed: 0,
            frequency: 0,
            hits: 0,
            user_key: key.clone_key(),
        };
        let h: usize = match self.free.pop() {
            Some(hf) => hf,
            None => self.values.len(),
        };
        if h < self.values.len() {
            self.values[h] = Some(value);
            self.metas[h] = Some(meta0);
        } else {
            self.values.push(Some(value));
            self.metas.push(Some(meta0));
        }
        // register the slot in the key index and the recency queue
        self.key_map.push((key.clone_key(), h));
        self.usage.push(h);
        proof {
            let post = *self;
            let m1 = s1.key_map@;
            let m2 = post.key_map@;
            let u1 = s1.usage@;
            let u2 = post.usage@;
            assert(!s1.live(h as int));
            assert(m2 == m1.push((post.key_map@[m1.len() as int].0, h)));
            assert(u2 == u1.push(h));
            assert(forall|j: int| 0 <= j < m1.len() ==> m2[j] == m1[j]);
            assert(m2[m1.len() as int].1 == h);
            assert(m2[m1.len() as int].0@ == key@);
            assert(forall|h2: int| post.live(h2) <==> (s1.live(h2) || h2 == h as int));
            assert(forall|h2: int|
                s1.live(h2) ==> post.slot_key(h2) == s1.slot_key(h2) && post.slot_value(h2)
                    == s1.slot_value(h2) && post.slot_meta(h2) == s1.slot_meta(h2));
            assert(post.slot_key(h as int) == key@);
            assert(post.slot_value(h as int) == value);
            assert(post.slot_meta(h as int) == meta0);
            // no old entry holds the new key or the new slot
            assert(forall|j: int| 0 <= j < m1.len() ==> s1.key_at(j) != key@);
            assert forall|j: int| 0 <= j < m1.len() implies m1[j].1 != h by {
                assert(s1.live(m1[j].1 as int));
            }
            assert forall|j: int| 0 <= j < u1.len() implies u1[j] != h by {
                assert(s1.live(u1[j] as int));
            }
            // structural consistency, clause by clause
            assert forall|h2: int|
                0 <= h2 < post.values@.len() implies ((#[trigger] post.values@[h2]) is Some
                <==> post.metas@[h2] is Some) by {
                if h2 != h as int {
                    assert(s1.values@[h2] is Some <==> s1.metas@[h2] is Some);
                }
            }
            assert forall|j: int| 0 <= j < m2.len() implies {
                &&& post.live(#[trigger] m2[j].1 as int)
                &&& post.slot_key(m2[j].1 as int) == post.key_at(j)
            } by {
                if j < m1.len() {
                    assert(s1.live(m1[j].1 as int));
                    assert(s1.slot_key(m1[j].1 as int) == s1.key_at(j));
                }
            }
            assert forall|i2: int, j: int|
                0 <= i2 < j < m2.len() implies post.key_at(i2) != post.key_at(j) by {
                if j < m1.len() {
                    assert(s1.key_at(i2) != s1.key_at(j));
                } else {
                    assert(s1.key_at(i2) != key@);
                }
            }
            assert forall|j: int|
                0 <= j < u2.len() implies post.live(#[trigger] u2[j] as int) by {
                if j < u1.len() {
                    assert(s1.live(u1[j] as int));
                }
            }
            assert forall|i2: int, j: int|
                0 <= i2 < j < u2.len() implies u2[i2] != u2[j] by {
                if j < u1.len() {
                    assert(s1.usage@[i2] != s1.usage@[j]);
                } else {
                    assert(u2[i2] == u1[i2] && u1[i2] != h);
                }
            }
            assert forall|h2: int| #[trigger] post.live(h2) implies exists|j: int|
                0 <= j < m2.len() && m2[j].1 == h2 by {
                if h2 == h as int {
                    assert(m2[m1.len() as int].1 == h2);
                } else {
                    assert(s1.live(h2));
                    let j0 = choose|j: int| 0 <= j < m1.len() && m1[j].1 == h2;
                    assert(m2[j0].1 == h2);
                }
            }
            assert forall|h2: int| #[trigger] post.live(h2) implies exists|j: int|
                0 <= j < u2.len() && u2[j] == h2 by {
                if h2 == h as int {
                    assert(u2[u1.len() as int] == h2);
                } else {
                    assert(s1.live(h2));
                    let j0 = choose|j: int| 0 <= j < u1.len() && u1[j] == h2;
                    assert(u2[j0] == h2);
                }
            }
            assert forall|j: int|
                0 <= j < post.free@.len() implies (#[trigger] post.free@[j] as int)
                    < post.values@.len() && post.values@[post.free@[j] as int] is None by {
                assert((s1.free@[j] as int) < s1.values@.len());
                assert(s1.values@[s1.free@[j] as int] is None);
                if s1.free@.len() > 0 && h == s1.free@.last() {
                    assert(s1.free@[j] != s1.free@[s1.free@.len() - 1]);
                } else {
                    assert((s1.free@[j] as int) < s1.values@.len());
                }
            }
            assert forall|i2: int, j: int|
                0 <= i2 < j < post.free@.len() implies post.free@[i2] != post.free@[j] by {
                assert(s1.free@[i2] != s1.free@[j]);
            }
            assert(post.inv());
            // the new key resolves to the new slot
            assert(post.contains(key@));
            assert forall|j: int|
                0 <= j < m2.len() && post.key_at(j) == key@ implies j == m1.len() as int by {
                if j < m1.len() {
                    assert(s1.key_at(j) != key@);
                }
            }
            assert(post.key_index(key@) == m1.len() as int);
            assert(post.slot_of(key@) == h as int);
            assert(post.value_of(key@) == value);
            assert(post.meta_of(key@) == meta0);
            // presence and data of the other keys are untouched
            assert forall|k2: K::V|
                post.contains(k2) <==> (s1.contains(k2) || k2 == key@) by {
                if post.contains(k2) && k2 != key@ {
                    let i0 = post.key_index(k2);
                    assert(0 <= i0 < m2.len() && post.key_at(i0) == k2);
                    assert(i0 != m1.len() as int);
                    assert(s1.key_at(i0) == k2);
                    assert(s1.contains(k2));
                }
                if s1.contains(k2) {
                    let i0 = s1.key_index(k2);
                    assert(0 <= i0 < m1.len() && s1.key_at(i0) == k2);
                    assert(post.key_at(i0) == k2);
                }
            }
            assert forall|k2: K::V|
                k2 != key@ && s1.contains(k2) implies post.value_of(k2) == s1.value_of(k2)
                    && post.meta_of(k2) == s1.meta_of(k2) by {
                let i0 = s1.key_index(k2);
                s1.lemma_key_lookup(i0);
                let s = s1.slot_of(k2);
                assert(s1.slot_key(s) == k2);
                assert(s != h as int);
                let i2 = post.key_index(k2);
                assert(0 <= i2 < m2.len() && post.key_at(i2) == k2);
                assert(i2 != m1.len() as int);
                assert(s1.key_at(i2) == k2);
                assert(i2 == i0);
                assert(post.slot_of(k2) == s);
            }
            // the recency queue gained the new key at the back
            assert(post.recency() =~= s1.recency().push(key@));
        }
        let ghost s3 = *self;
        // evict the least recently used entry if the capacity is exceeded
        if self.usage.len() > self.capacity {
            let h_front = self.usage[0];
            proof {
                assert(s3.live(s3.usage@[0] as int));
                assert(s3.slot_key(h_front as int) == s3.recency()[0]);
                assert(s3.recency()[0] == s1.recency()[0]);
                // the front key occurs exactly once in the recency order
                assert forall|j: int| #![trigger s3.recency()[j]]
                    0 <= j < s3.recency().len() && j != 0 implies s3.recency()[j]
                    != s3.recency()[0] by {
                    if s3.slot_key(s3.usage@[j] as int) == s3.slot_key(s3.usage@[0] as int) {
                        s3.lemma_slot_key_injective(s3.usage@[j] as int, s3.usage@[0] as int);
                    }
                }
            }
            self.remove_slot(h_front);
            proof {
                let fk = s3.slot_key(h_front as int);
                lemma_remove_value_unique(s3.recency(), fk, 0);
                assert(self.recency() == s3.recency().remove(0));
                assert(self.recency() =~= s1.recency().drop_first().push(key@));
                assert(key@ != fk);
                assert(self.contains(key@));
                assert(self.value_of(key@) == value);
                assert(self.meta_of(key@) == meta0);
            }
        }
        let ghost s4 = *self;
        let n = self.usage.len();
        self.statistics.update_size(n);
        proof {
            Self::lemma_wf_same_core(s4, *self);
            assert(self.wf());
        }
        key
    }

    /// Get a value from the cache. A hit updates the entry's access time,
    /// frequency and hit count, moves it to the most-recently-used end of
    /// the recency queue, and records a hit statistic; a miss records a miss
    /// statistic and mutates nothing else.
    pub fn get(&mut self, key: K) -> (r: Option<&V>)
        requires
            old(self).wf(),
            old(self).contains(key@) ==> {
                &&& old(self).meta_of(key@).spec_frequency() < usize::MAX
                &&& old(self).meta_of(key@).spec_hits() < usize::MAX
                &&& old(self).spec_statistics().spec_hits() < usize::MAX
            },
            !old(self).contains(key@) ==> old(self).spec_statistics().spec_misses() < usize::MAX,
        ensures
            final(self).wf(),
            final(self).spec_capacity() == old(self).spec_capacity(),
            final(self).spec_len() == old(self).spec_len(),
            forall|k2: K::V| final(self).contains(k2) <==> old(self).contains(k2),
            forall|k2: K::V|
                old(self).contains(k2) ==> final(self).value_of(k2) == old(self).value_of(k2),
            old(self).contains(key@) ==> {
                &&& r is Some
                &&& *r.unwrap() == old(self).value_of(key@)
                &&& final(self).meta_of(key@).spec_frequency() == old(self).meta_of(
                    key@,
                ).spec_frequency() + 1
                &&& final(self).meta_of(key@).spec_hits() == old(self).meta_of(key@).spec_hits() + 1
                &&& final(self).meta_of(key@).spec_user_key()@ == key@
                &&& (forall|k2: K::V|
                    k2 != key@ && old(self).contains(k2) ==> final(self).meta_of(k2) == old(self).meta_of(k2))
                &&& final(self).recency() == old(self).recency().remove_value(key@).push(key@)
                &&& final(self).spec_statistics().spec_hits() == old(self).spec_statistics().spec_hits() + 1
                &&& final(self).spec_statistics().spec_misses() == old(self).spec_statistics().spec_misses()
            },
            !old(self).contains(key@) ==> {
                &&& r is None
                &&& final(self).recency() == old(self).recency()
                &&& (forall|k2: K::V|
                    old(self).contains(k2) ==> final(self).meta_of(k2) == old(self).meta_of(k2))
                &&& final(self).spec_statistics().spec_misses() == old(self).spec_statistics().spec_misses() + 1
                &&& final(self).spec_statistics().spec_hits() == old(self).spec_statistics().spec_hits()
            },
            final(self).spec_statistics().spec_current_size() == old(self).spec_statistics().spec_current_size(),
    {
        match self.find_key_index(&key) {
            None => {
                self.statistics.miss();
                proof {
                    Self::lemma_wf_same_core(*old(self), *self);
                }
                None
            },
            Some(i) => {
                let h = self.key_map[i].1;
                proof {
                    self.lemma_key_lookup(i as int);
                    assert(self.slot_of(key@) == h as int);
                    assert(self.meta_of(key@) == self.slot_meta(h as int));
                }
                let now = now_micros();
                let m = self.metas[h].as_ref().unwrap();
                let new_meta = Metadata {
                    last_accessed: now,
                    frequency: m.frequency + 1,
                    hits: m.hits + 1,
                    user_key: m.user_key.clone_key(),
                };
                self.metas[h] = Some(new_meta);
                self.statistics.hit();
                proof {
                    let pre = *old(self);
                    let mid = *self;
                    assert(forall|h2: int| pre.live(h2) <==> mid.live(h2));
                    assert(forall|h2: int|
                        pre.live(h2) ==> mid.slot_key(h2) == pre.slot_key(h2));
                    assert forall|h2: int|
                        0 <= h2 < mid.values@.len() implies ((#[trigger] mid.values@[h2]) is Some
                        <==> mid.metas@[h2] is Some) by {
                        assert(pre.values@[h2] is Some <==> pre.metas@[h2] is Some);
                    }
                    assert forall|j: int| 0 <= j < mid.key_map@.len() implies {
                        &&& mid.live(#[trigger] mid.key_map@[j].1 as int)
                        &&& mid.slot_key(mid.key_map@[j].1 as int) == mid.key_at(j)
                    } by {
                        assert(pre.live(pre.key_map@[j].1 as int));
                    }
                    assert forall|h2: int| #[trigger] mid.live(h2) implies exists|j: int|
                        0 <= j < mid.key_map@.len() && mid.key_map@[j].1 == h2 by {
                        assert(pre.live(h2));
                        let j0 = choose|j: int|
                            0 <= j < pre.key_map@.len() && pre.key_map@[j].1 == h2;
                        assert(mid.key_map@[j0].1 == h2);
                    }
                    assert forall|h2: int| #[trigger] mid.live(h2) implies exists|j: int|
                        0 <= j < mid.usage@.len() && mid.usage@[j] == h2 by {
                        assert(pre.live(h2));
                        let j0 = choose|j: int| 0 <= j < pre.usage@.len() && pre.usage@[j] == h2;
                        assert(mid.usage@[j0] == h2);
                    }
                    assert(mid.capacity >= 1);
                    assert(mid.usage@.len() <= mid.capacity);
                    assert(mid.values@.len() == mid.metas@.len());
                    assert forall|i: int, j: int|
                        0 <= i < j < mid.key_map@.len() implies mid.key_at(i) != mid.key_at(
                        j,
                    ) by {
                        assert(pre.key_at(i) != pre.key_at(j));
                    }
                    assert(forall|i: int|
                        0 <= i < mid.usage@.len() ==> mid.live(#[trigger] mid.usage@[i] as int));
                    assert(forall|i: int, j: int|
                        0 <= i < j < mid.usage@.len() ==> mid.usage@[i] != mid.usage@[j]);
                    assert(forall|i: int|
                        0 <= i < mid.free@.len() ==> (#[trigger] mid.free@[i] as int)
                            < mid.values@.len() && mid.values@[mid.free@[i] as int] is None);
                    assert(forall|i: int, j: int|
                        0 <= i < j < mid.free@.len() ==> mid.free@[i] != mid.free@[j]);
                    assert(mid.wf());
                }
                let ghost mid = *self;
                let p = self.find_usage_pos(h);
                let moved = self.usage.remove(p);
                self.usage.push(moved);
                proof {
                    let pre = *old(self);
                    let post = *self;
                    let u1 = mid.usage@;
                    let u2 = post.usage@;
                    assert(moved == h);
                    assert(u1 == pre.usage@);
                    assert(u2 == u1.remove(p as int).push(h));
                    assert(u2.len() == u1.len());
                    assert(forall|j: int| 0 <= j < p as int ==> u2[j] == u1[j]);
                    assert(forall|j: int| p as int <= j < u1.len() - 1 ==> u2[j] == u1[j + 1]);
                    assert(u2[u1.len() - 1] == h);
                    // the key view in slot h, and so every slot key, is unchanged
                    assert(forall|h2: int|
                        pre.live(h2) ==> post.slot_key(h2) == pre.slot_key(h2));
                    assert(forall|h2: int| post.live(h2) <==> pre.live(h2));
                    assert(forall|h2: int| post.live(h2) <==> mid.live(h2));
                    assert(forall|h2: int|
                        mid.live(h2) ==> post.slot_key(h2) == mid.slot_key(h2));
                    // well-formedness carries over clause by clause
                    assert forall|h2: int|
                        0 <= h2 < post.values@.len() implies ((#[trigger] post.values@[h2]) is Some
                        <==> post.metas@[h2] is Some) by {
                        assert(mid.values@[h2] is Some <==> mid.metas@[h2] is Some);
                    }
                    assert forall|j: int| 0 <= j < post.key_map@.len() implies {
                        &&& post.live(#[trigger] post.key_map@[j].1 as int)
                        &&& post.slot_key(post.key_map@[j].1 as int) == post.key_at(j)
                    } by {
                        assert(mid.live(mid.key_map@[j].1 as int));
                        assert(mid.slot_key(mid.key_map@[j].1 as int) == mid.key_at(j));
                    }
                    assert forall|i2: int, j: int|
                        0 <= i2 < j < post.key_map@.len() implies post.key_at(i2) != post.key_at(
                        j,
                    ) by {
                        assert(mid.key_at(i2) != mid.key_at(j));
                    }
                    assert forall|j: int|
                        0 <= j < u2.len() implies post.live(#[trigger] u2[j] as int) by {
                        if j < p as int {
                            assert(mid.live(u1[j] as int));
                        } else if j < u1.len() - 1 {
                            assert(mid.live(u1[j + 1] as int));
                        } else {
                            assert(mid.live(h as int));
                        }
                    }
                    assert forall|i2: int, j: int|
                        0 <= i2 < j < u2.len() implies u2[i2] != u2[j] by {
                        let a = if i2 < p as int {
                            i2
                        } else {
                            i2 + 1
                        };
                        if j < u1.len() - 1 {
                            let b = if j < p as int {
                                j
                            } else {
                                j + 1
                            };
                            assert(u2[i2] == u1[a] && u2[j] == u1[b] && a < b);
                        } else {
                            assert(u2[j] == u1[p as int] && u2[i2] == u1[a] && a != p as int);
                        }
                    }
                    assert forall|h2: int| #[trigger] post.live(h2) implies exists|j: int|
                        0 <= j < post.key_map@.len() && post.key_map@[j].1 == h2 by {
                        assert(mid.live(h2));
                        let j0 = choose|j: int|
                            0 <= j < mid.key_map@.len() && mid.key_map@[j].1 == h2;
                        assert(post.key_map@[j0].1 == h2);
                    }
                    assert forall|h2: int| #[trigger] post.live(h2) implies exists|j: int|
                        0 <= j < u2.len() && u2[j] == h2 by {
                        assert(mid.live(h2));
                        let j0 = choose|j: int| 0 <= j < u1.len() && u1[j] == h2;
                        if j0 < p as int {
                            assert(u2[j0] == h2);
                        } else if j0 == p as int {
                            assert(u2[u2.len() - 1] == h2);
                        } else {
                            assert(u2[j0 - 1] == h2);
                        }
                    }
                    assert forall|j: int|
                        0 <= j < post.free@.len() implies (#[trigger] post.free@[j] as int)
                            < post.values@.len() && post.values@[post.free@[j] as int] is None by {
                        assert((mid.free@[j] as int) < mid.values@.len());
                        assert(mid.values@[mid.free@[j] as int] is None);
                    }
                    assert forall|i2: int, j: int|
                        0 <= i2 < j < post.free@.len() implies post.free@[i2] != post.free@[j] by {
                        assert(mid.free@[i2] != mid.free@[j]);
                    }
                    assert(post.wf());
                    Self::lemma_lookup_eq(pre, post);
                    // the recency queue: the accessed handle moved to the back
                    assert(pre.recency()[p as int] == key@);
                    assert forall|j: int|
                        0 <= j < pre.recency().len() && j != p as int implies pre.recency()[j]
                        != key@ by {
                        if pre.slot_key(pre.usage@[j] as int) == key@ {
                            pre.lemma_slot_key_injective(pre.usage@[j] as int, h as int);
                        }
                    }
                    lemma_remove_value_unique(pre.recency(), key@, p as int);
                    assert(post.recency() =~= pre.recency().remove(p as int).push(key@));
                    // untouched entries keep their metadata and values
                    assert forall|k2: K::V|
                        k2 != key@ && pre.contains(k2) implies post.meta_of(k2) == pre.meta_of(
                        k2,
                    ) by {
                        let s = pre.slot_of(k2);
                        pre.lemma_key_lookup(pre.key_index(k2));
                        assert(pre.slot_key(s) == k2);
                        assert(s != h as int);
                    }
                    assert forall|k2: K::V| pre.contains(k2) implies post.value_of(k2)
                        == pre.value_of(k2) by {
                        pre.lemma_key_lookup(pre.key_index(k2));
                    }
                }
                let v = self.values[h].as_ref();
                Some(v.unwrap())
            },
        }
    }

    /// The access frequency stored in live slot `h`.
    fn slot_frequency(&self, h: usize) -> (r: usize)
        requires
            self.inv(),
            self.live(h as int),
        ensures
            r == self.slot_meta(h as int).spec_frequency(),
    {
        self.metas[h].as_ref().unwrap().frequency
    }

    /// Non-strict lexicographic order on (frequency, slot handle) of two
    /// live slots: the tie between equal frequencies is broken by the handle.
    spec fn freq_le(self, h1: usize, h2: usize) -> bool {
        let f1 = self.slot_meta(h1 as int).spec_frequency();
        let f2 = self.slot_meta(h2 as int).spec_frequency();
        f1 < f2 || (f1 == f2 && h1 <= h2)
    }

    /// Decide the strict (frequency, handle) order between two live slots.
    fn slot_before(&self, h1: usize, h2: usize) -> (r: bool)
        requires
            self.inv(),
            self.live(h1 as int),
            self.live(h2 as int),
        ensures
            r == (self.freq_le(h1, h2) && h1 != h2),
    {
        let f1 = self.slot_frequency(h1);
        let f2 = self.slot_frequency(h2);
        f1 < f2 || (f1 == f2 && h1 < h2)
    }

    /// Distinct positions of the recency order hold distinct keys.
    ///
    /// Together with the contracts of `get` and `insert` this states the
    /// recency law: an access moves a key to the most-recently-used end, and
    /// a capacity-triggered eviction removes the front of the queue, so an
    /// entry just accessed is not evicted before every entry that stood
    /// ahead of it has been evicted or accessed again.
    pub proof fn lemma_recency_distinct(self, i: int, j: int)
        requires
            self.wf(),
            0 <= i < j < self.recency().len(),
        ensures
            self.recency()[i] != self.recency()[j],
    {
        assert(self.usage@[i] != self.usage@[j]);
        assert(self.live(self.usage@[i] as int));
        assert(self.live(self.usage@[j] as int));
        if self.slot_key(self.usage@[i] as int) == self.slot_key(self.usage@[j] as int) {
            self.lemma_slot_key_injective(self.usage@[i] as int, self.usage@[j] as int);
        }
    }

    /// Read access to the usage statistics.
    pub fn statistics(&self) -> (r: &Statistics)
        ensures
            *r == self.spec_statistics(),
    {
        &self.statistics
    }

    /// Return the least recently used element in the cache, without touching
    /// any entry state or statistic.
    pub fn get_lru(&self) -> (r: Option<&V>)
        requires
            self.wf(),
        ensures
            self.spec_len() == 0 ==> r is None,
            self.spec_len() > 0 ==> r is Some && *r.unwrap() == self.value_of(self.recency()[0]),
    {
        if self.usage.len() == 0 {
            None
        } else {
            let h = self.usage[0];
            proof {
                self.lemma_slot_roundtrip(h as int);
                assert(self.recency()[0] == self.slot_key(h as int));
            }
            let v = self.values[h].as_ref();
            Some(v.unwrap())
        }
    }

    /// Insert the live handle `h` into `sorted`, a sequence of live handles
    /// ordered by (frequency, handle), keeping that order.
    #[verifier::spinoff_prover]
    fn insert_sorted(&self, sorted: &mut Vec<usize>, h: usize)
        requires
            self.inv(),
            self.live(h as int),
            forall|a: int|
                0 <= a < old(sorted)@.len() ==> self.live(#[trigger] old(sorted)@[a] as int),
            forall|a: int, b: int|
                0 <= a < b < old(sorted)@.len() ==> self.freq_le(old(sorted)@[a], old(sorted)@[b]),
            forall|a: int, b: int|
                0 <= a < b < old(sorted)@.len() ==> old(sorted)@[a] != old(sorted)@[b],
            forall|a: int| 0 <= a < old(sorted)@.len() ==> old(sorted)@[a] != h,
        ensures
            final(sorted)@.len() == old(sorted)@.len() + 1,
            forall|a: int|
                0 <= a < final(sorted)@.len() ==> self.live(#[trigger] final(sorted)@[a] as int),
            forall|a: int, b: int|
                0 <= a < b < final(sorted)@.len() ==> self.freq_le(
                    final(sorted)@[a],
                    final(sorted)@[b],
                ),
            forall|a: int, b: int|
                0 <= a < b < final(sorted)@.len() ==> final(sorted)@[a] != final(sorted)@[b],
            forall|x: usize|
                #[trigger] final(sorted)@.contains(x) <==> (old(sorted)@.contains(x) || x == h),
    {
        let mut j: usize = 0;
        while j < sorted.len() && self.slot_before(sorted[j], h)
            invariant
                self.inv(),
                j <= sorted@.len(),
                self.live(h as int),
                sorted@ == old(sorted)@,
                forall|a: int| 0 <= a < sorted@.len() ==> self.live(#[trigger] sorted@[a] as int),
                forall|a: int| 0 <= a < j ==> self.freq_le(#[trigger] sorted@[a], h),
            decreases sorted@.len() - j,
        {
            j = j + 1;
        }
        let ghost pre = sorted@;
        proof {
            if (j as int) < pre.len() {
                assert(self.freq_le(h, pre[j as int]));
            }
        }
        sorted.insert(j, h);
        proof {
            pre.insert_ensures(j as int, h);
            assert(sorted@ == pre.insert(j as int, h));
            assert(forall|t: int| 0 <= t < j ==> sorted@[t] == pre[t]);
            assert(sorted@[j as int] == h);
            assert(forall|t: int| j < t < sorted@.len() ==> sorted@[t] == pre[t - 1]);
            assert forall|a: int|
                0 <= a < sorted@.len() implies self.live(#[trigger] sorted@[a] as int) by {
                if a < j as int {
                    assert(self.live(pre[a] as int));
                } else if a > j as int {
                    assert(self.live(pre[a - 1] as int));
                }
            }
            assert forall|a: int, b: int|
                0 <= a < b < sorted@.len() implies sorted@[a] != sorted@[b] by {
                if a != j as int && b != j as int {
                    let a1 = if a < j as int {
                        a
                    } else {
                        a - 1
                    };
                    let b1 = if b < j as int {
                        b
                    } else {
                        b - 1
                    };
                    assert(pre[a1] != pre[b1]);
                }
            }
            assert forall|a: int, b: int|
                0 <= a < b < sorted@.len() implies self.freq_le(sorted@[a], sorted@[b]) by {
                if b < j as int {
                    assert(self.freq_le(pre[a], pre[b]));
                } else if b == j as int {
                    assert(self.freq_le(pre[a], h));
                } else if a == j as int {
                    if j as int == b - 1 {
                        assert(self.freq_le(h, pre[b - 1]));
                    } else {
                        assert(self.freq_le(h, pre[j as int]));
                        assert(self.freq_le(pre[j as int], pre[b - 1]));
                    }
                } else if a < j as int {
                    assert(self.freq_le(pre[a], pre[b - 1]));
                } else {
                    assert(self.freq_le(pre[a - 1], pre[b - 1]));
                }
            }
            assert forall|x: usize| #[trigger]
                sorted@.contains(x) implies (pre.contains(x) || x == h) by {
                let t = choose|t: int| 0 <= t < sorted@.len() && sorted@[t] == x;
                if t != j as int {
                    let t1 = if t < j as int {
                        t
                    } else {
                        t - 1
                    };
                    assert(pre[t1] == x);
                }
            }
            assert forall|x: usize|
                pre.contains(x) || x == h implies #[trigger] sorted@.contains(x) by {
                if x == h {
                    assert(sorted@[j as int] == x);
                } else {
                    let t = choose|t: int| 0 <= t < pre.len() && pre[t] == x;
                    if t < j as int {
                        assert(sorted@[t] == x);
                    } else {
                        assert(sorted@[t + 1] == x);
                    }
                }
            }
        }
    }

    /// A fresh snapshot iterator whose handles are an ascending
    /// (frequency, handle) ordering of the live slots, walked forwards or
    /// backwards, enumerates exactly the live entries in frequency order.
    #[verifier::spinoff_prover]
    #[verifier::rlimit(100)]
    proof fn lemma_snapshot_entries(
        self,
        it: CacheIterFrequency<K, V>,
        asc: Seq<usize>,
        order: SortOrder,
    )
        requires
            self.wf(),
            *it.cache == self,
            it.pos == 0,
            asc.len() == self.usage@.len(),
            it.keys@.len() == asc.len(),
            forall|a: int| 0 <= a < asc.len() ==> self.live(#[trigger] asc[a] as int),
            forall|a: int, b: int| 0 <= a < b < asc.len() ==> asc[a] != asc[b],
            forall|a: int, b: int| 0 <= a < b < asc.len() ==> self.freq_le(asc[a], asc[b]),
            forall|b: int| 0 <= b < self.usage@.len() ==> asc.contains(#[trigger] self.usage@[b]),
            order is Ascending ==> it.keys@ == asc,
            order is Descending ==> forall|a: int|
                0 <= a < asc.len() ==> #[trigger] it.keys@[a] == asc[asc.len() - 1 - a],
        ensures
            it.valid(),
            it.spec_pos() == 0,
            it.entries().len() == self.spec_len(),
            forall|i: int|
                0 <= i < it.entries().len() ==> {
                    &&& self.contains(#[trigger] it.entries()[i].0)
                    &&& it.entries()[i].1 == self.value_of(it.entries()[i].0)
                    &&& it.entries()[i].2 == self.meta_of(it.entries()[i].0)
                },
            forall|i: int, j: int|
                0 <= i < j < it.entries().len() ==> it.entries()[i].0 != it.entries()[j].0,
            forall|k: K::V|
                self.contains(k) ==> exists|i: int|
                    0 <= i < it.entries().len() && it.entries()[i].0 == k,
            order is Ascending ==> forall|i: int, j: int|
                0 <= i <= j < it.entries().len() ==> it.entries()[i].2.spec_frequency()
                    <= it.entries()[j].2.spec_frequency(),
            order is Descending ==> forall|i: int, j: int|
                0 <= i <= j < it.entries().len() ==> it.entries()[i].2.spec_frequency()
                    >= it.entries()[j].2.spec_frequency(),
    {
        let ks = it.keys@;
        let len = asc.len();
        assert forall|a: int| 0 <= a < len implies self.live(#[trigger] ks[a] as int) by {
            if order is Descending {
                assert(self.live(asc[len - 1 - a] as int));
            }
        }
        assert forall|a: int, b: int| 0 <= a < b < len implies ks[a] != ks[b] by {
            if order is Descending {
                assert(asc[len - 1 - b] != asc[len - 1 - a]);
            }
        }
        assert forall|b: int| 0 <= b < len implies exists|a: int|
            0 <= a < len && ks[a] == #[trigger] asc[b] by {
            if order is Descending {
                assert(ks[len - 1 - b] == asc[b]);
            } else {
                assert(ks[b] == asc[b]);
            }
        }
        // each snapshot entry is the live entry of its key
        assert forall|a: int| 0 <= a < it.entries().len() implies {
            &&& self.contains(#[trigger] it.entries()[a].0)
            &&& it.entries()[a].1 == self.value_of(it.entries()[a].0)
            &&& it.entries()[a].2 == self.meta_of(it.entries()[a].0)
        } by {
            assert(self.live(ks[a] as int));
            self.lemma_slot_roundtrip(ks[a] as int);
        }
        assert forall|a: int, b: int|
            0 <= a < b < it.entries().len() implies it.entries()[a].0 != it.entries()[b].0 by {
            if self.slot_key(ks[a] as int) == self.slot_key(ks[b] as int) {
                self.lemma_slot_key_injective(ks[a] as int, ks[b] as int);
            }
        }
        assert forall|k: K::V| self.contains(k) implies exists|i: int|
            0 <= i < it.entries().len() && it.entries()[i].0 == k by {
            let i0 = self.key_index(k);
            self.lemma_key_lookup(i0);
            let s = self.slot_of(k);
            assert(self.live(s));
            let b0 = choose|b: int| 0 <= b < self.usage@.len() && self.usage@[b] == s;
            assert(asc.contains(self.usage@[b0]));
            let b1 = choose|b: int| 0 <= b < asc.len() && asc[b] == self.usage@[b0];
            let a1 = choose|a: int| 0 <= a < len && ks[a] == asc[b1];
            assert(it.entries()[a1].0 == self.slot_key(s));
            assert(self.slot_key(s) == k);
        }
        if order is Ascending {
            assert forall|a: int, b: int|
                0 <= a <= b < it.entries().len() implies it.entries()[a].2.spec_frequency()
                <= it.entries()[b].2.spec_frequency() by {
                if a < b {
                    assert(self.freq_le(asc[a], asc[b]));
                }
            }
        }
        if order is Descending {
            assert forall|a: int, b: int|
                0 <= a <= b < it.entries().len() implies it.entries()[a].2.spec_frequency()
                >= it.entries()[b].2.spec_frequency() by {
                if a < b {
                    assert(self.freq_le(asc[len - 1 - b], asc[len - 1 - a]));
                }
            }
        }
    }

    /// Returns an iterator over the cache in order of access frequency.
    ///
    /// The iterator is a finite snapshot computed at call time: it yields
    /// every live entry exactly once, ordered by frequency ascending or
    /// descending per `order`; entries of equal frequency come in a
    /// deterministic but unspecified relative order. Nothing in the cache
    /// is mutated: no metadata, recency order or statistic changes.
    #[verifier::spinoff_prover]
    #[verifier::rlimit(60)]
    pub fn iter_frequency(&self, order: SortOrder) -> (it: CacheIterFrequency<K, V>)
        requires
            self.wf(),
        ensures
            it.valid(),
            it.spec_pos() == 0,
            it.entries().len() == self.spec_len(),
            forall|i: int|
                0 <= i < it.entries().len() ==> {
                    &&& self.contains(#[trigger] it.entries()[i].0)
                    &&& it.entries()[i].1 == self.value_of(it.entries()[i].0)
                    &&& it.entries()[i].2 == self.meta_of(it.entries()[i].0)
                },
            forall|i: int, j: int|
                0 <= i < j < it.entries().len() ==> it.entries()[i].0 != it.entries()[j].0,
            forall|k: K::V|
                self.contains(k) ==> exists|i: int|
                    0 <= i < it.entries().len() && it.entries()[i].0 == k,
            order is Ascending ==> forall|i: int, j: int|
                0 <= i <= j < it.entries().len() ==> it.entries()[i].2.spec_frequency()
                    <= it.entries()[j].2.spec_frequency(),
            order is Descending ==> forall|i: int, j: int|
                0 <= i <= j < it.entries().len() ==> it.entries()[i].2.spec_frequency()
                    >= it.entries()[j].2.spec_frequency(),
    {
        // snapshot the live handles
        let mut keys: Vec<usize> = Vec::new();
        let mut i: usize = 0;
        while i < self.usage.len()
            invariant
                self.wf(),
                i <= self.usage@.len(),
                keys@ == self.usage@.subrange(0, i as int),
            decreases self.usage@.len() - i,
        {
            let h0 = self.usage[i];
            keys.push(h0);
            proof {
                assert(keys@ =~= self.usage@.subrange(0, i + 1));
            }
            i = i + 1;
        }
        proof {
            assert(keys@ =~= self.usage@);
        }
        // insertion sort, ascending in (frequency, handle)
        let mut sorted: Vec<usize> = Vec::new();
        let mut n: usize = 0;
        while n < keys.len()
            invariant
                self.wf(),
                n <= keys@.len(),
                keys@ == self.usage@,
                sorted@.len() == n as int,
                forall|a: int| 0 <= a < n ==> self.live(#[trigger] sorted@[a] as int),
                forall|a: int, b: int| 0 <= a < b < n ==> sorted@[a] != sorted@[b],
                forall|a: int, b: int| 0 <= a < b < n ==> self.freq_le(sorted@[a], sorted@[b]),
                forall|b: int| 0 <= b < n ==> sorted@.contains(#[trigger] keys@[b]),
                forall|x: usize| #[trigger]
                    sorted@.contains(x) ==> exists|b: int| 0 <= b < n && keys@[b] == x,
            decreases keys@.len() - n,
        {
            let h = keys[n];
            proof {
                assert(self.live(self.usage@[n as int] as int));
                // h is not yet in the sorted prefix: recency handles are distinct
                assert forall|a: int| 0 <= a < sorted@.len() implies sorted@[a] != h by {
                    if sorted@[a] == h {
                        assert(sorted@.contains(sorted@[a]));
                        let b = choose|b: int| 0 <= b < n && keys@[b] == sorted@[a];
                        assert(self.usage@[b] == self.usage@[n as int]);
                        assert(false);
                    }
                }
            }
            let ghost pre = sorted@;
            self.insert_sorted(&mut sorted, h);
            proof {
                assert forall|b: int|
                    0 <= b < n + 1 implies sorted@.contains(#[trigger] keys@[b]) by {
                    if b == n as int {
                        assert(sorted@.contains(h));
                    } else {
                        assert(pre.contains(keys@[b]));
                    }
                }
                assert forall|x: usize| #[trigger] sorted@.contains(x) implies exists|b: int|
                    0 <= b < n + 1 && keys@[b] == x by {
                    if x != h {
                        assert(pre.contains(x));
                        let b = choose|b: int| 0 <= b < n && keys@[b] == x;
                        assert(keys@[b] == x);
                    } else {
                        assert(keys@[n as int] == x);
                    }
                }
            }
            n = n + 1;
        }
        let ghost asc = sorted@;
        // walk the snapshot in the requested direction
        let snapshot: Vec<usize> = match order {
            SortOrder::Ascending => sorted,
            SortOrder::Descending => {
                let mut rev: Vec<usize> = Vec::new();
                let mut t: usize = sorted.len();
                while t > 0
                    invariant
                        t <= sorted@.len(),
                        sorted@ == asc,
                        rev@.len() == sorted@.len() - t,
                        forall|a: int|
                            0 <= a < rev@.len() ==> #[trigger] rev@[a] == sorted@[sorted@.len() - 1
                                - a],
                    decreases t,
                {
                    t = t - 1;
                    let h2 = sorted[t];
                    rev.push(h2);
                }
                rev
            },
        };
        let it = CacheIterFrequency { keys: snapshot, pos: 0, cache: self };
        proof {
            self.lemma_snapshot_entries(it, asc, order);
        }
        it
    }

    /// The frequency-ordering law: when the live entries have pairwise
    /// distinct access frequencies, any descending frequency enumeration of
    /// them — such as `iter_frequency(Descending)` yields — is the exact
    /// reverse of any ascending one, element for element.
    #[verifier::spinoff_prover]
    #[verifier::rlimit(60)]
    pub proof fn lemma_frequency_orders_reverse(
        self,
        asc: Seq<(K::V, V, Metadata<K>)>,
        desc: Seq<(K::V, V, Metadata<K>)>,
    )
        requires
            self.wf(),
            asc.len() == self.spec_len(),
            desc.len() == self.spec_len(),
            forall|i: int|
                0 <= i < asc.len() ==> {
                    &&& self.contains(#[trigger] asc[i].0)
                    &&& asc[i].1 == self.value_of(asc[i].0)
                    &&& asc[i].2 == self.meta_of(asc[i].0)
                },
            forall|i: int|
                0 <= i < desc.len() ==> {
                    &&& self.contains(#[trigger] desc[i].0)
                    &&& desc[i].1 == self.value_of(desc[i].0)
                    &&& desc[i].2 == self.meta_of(desc[i].0)
                },
            forall|i: int, j: int| 0 <= i < j < asc.len() ==> asc[i].0 != asc[j].0,
            forall|i: int, j: int| 0 <= i < j < desc.len() ==> desc[i].0 != desc[j].0,
            forall|k: K::V|
                self.contains(k) ==> exists|i: int| 0 <= i < asc.len() && asc[i].0 == k,
            forall|k: K::V|
                self.contains(k) ==> exists|i: int| 0 <= i < desc.len() && desc[i].0 == k,
            forall|i: int, j: int|
                0 <= i <= j < asc.len() ==> asc[i].2.spec_frequency()
                    <= asc[j].2.spec_frequency(),
            forall|i: int, j: int|
                0 <= i <= j < desc.len() ==> desc[i].2.spec_frequency()
                    >= desc[j].2.spec_frequency(),
            forall|k1: K::V, k2: K::V|
                self.contains(k1) && self.contains(k2) && k1 != k2
                    ==> self.meta_of(k1).spec_frequency() != self.meta_of(k2).spec_frequency(),
        ensures
            forall|i: int| 0 <= i < desc.len() ==> desc[i] == asc[asc.len() - 1 - i],
    {
        let f = |e: (K::V, V, Metadata<K>)| e.2.spec_frequency() as int;
        assert forall|e: (K::V, V, Metadata<K>)| asc.contains(e) implies desc.contains(e) by {
            let i = choose|i: int| 0 <= i < asc.len() && asc[i] == e;
            assert(self.contains(asc[i].0));
            let j = choose|j: int| 0 <= j < desc.len() && desc[j].0 == asc[i].0;
            assert(desc[j].1 == e.1 && desc[j].2 == e.2);
            assert(desc[j] == e);
        }
        assert forall|e: (K::V, V, Metadata<K>)| desc.contains(e) implies asc.contains(e) by {
            let i = choose|i: int| 0 <= i < desc.len() && desc[i] == e;
            assert(self.contains(desc[i].0));
            let j = choose|j: int| 0 <= j < asc.len() && asc[j].0 == desc[i].0;
            assert(asc[j].1 == e.1 && asc[j].2 == e.2);
            assert(asc[j] == e);
        }
        assert forall|i: int, j: int|
            0 <= i < j < asc.len() implies #[trigger] f(asc[i]) <= #[trigger] f(asc[j]) by {
            assert(asc[i].2.spec_frequency() <= asc[j].2.spec_frequency());
        }
        assert forall|i: int, j: int|
            0 <= i < j < desc.len() implies #[trigger] f(desc[i]) >= #[trigger] f(desc[j]) by {
            assert(desc[i].2.spec_frequency() >= desc[j].2.spec_frequency());
        }
        assert forall|i: int, j: int|
            0 <= i < j < asc.len() implies f(asc[i]) != f(asc[j]) by {
            assert(asc[i].0 != asc[j].0);
            assert(self.meta_of(asc[i].0).spec_frequency() != self.meta_of(
                asc[j].0,
            ).spec_frequency());
        }
        lemma_opposite_orders_reverse(asc, desc, f);
    }

    /// Remove all elements from the cache but preserve allocated memory.
    /// Cumulative statistics are left untouched.
    pub fn flush(&mut self)
        requires
            old(self).wf(),
        ensures
            final(self).wf(),
            final(self).spec_len() == 0,
            forall|k: K::V| !final(self).contains(k),
            final(self).spec_capacity() == old(self).spec_capacity(),
            final(self).spec_statistics() == old(self).spec_statistics(),
    {
        self.values.clear();
        self.metas.clear();
        self.key_map.clear();
        self.usage.clear();
        self.free.clear();
    }
}

/// An iterator over cache entries in recency order, least-recently-used
/// first, produced as a snapshot of the recency queue.
pub struct CacheIter<'a, K, V> {
    usage: Vec<usize>,
    pos: usize,
    cache: &'a Cache<K, V>,
}

/// An iterator over cache entries in access-frequency order, produced as a
/// snapshot sorted at the time `iter_frequency` was called.
pub struct CacheIterFrequency<'a, K, V> {
    keys: Vec<usize>,
    pos: usize,
    cache: &'a Cache<K, V>,
}

impl<'a, K: CacheKey, V> CacheIter<'a, K, V> {
    /// The whole sequence of entries this snapshot yields, each as
    /// (key view, value, metadata), least-recently-used first.
    pub closed spec fn entries(self) -> Seq<(K::V, V, Metadata<K>)> {
        self.usage@.map(
            |i: int, h: usize|
                (
                    self.cache.slot_key(h as int),
                    self.cache.slot_value(h as int),
                    self.cache.slot_meta(h as int),
                ),
        )
    }

    /// How many entries have been yielded so far.
    pub closed spec fn spec_pos(self) -> nat {
        self.pos as nat
    }

    /// The snapshot is consistent with the cache it borrows.
    pub closed spec fn valid(self) -> bool {
        &&& self.cache.inv()
        &&& self.pos <= self.usage@.len()
        &&& forall|i: int|
            0 <= i < self.usage@.len() ==> self.cache.live(#[trigger] self.usage@[i] as int)
    }

    /// Yield the next entry of the snapshot, or nothing once every entry
    /// has been produced.
    pub fn next(&mut self) -> (r: Option<(&'a K, &'a V, &'a Metadata<K>)>)
        requires
            old(self).valid(),
        ensures
            final(self).valid(),
            final(self).entries() == old(self).entries(),
            old(self).spec_pos() < old(self).entries().len() ==> {
                &&& final(self).spec_pos() == old(self).spec_pos() + 1
                &&& r is Some
                &&& r.unwrap().0@ == old(self).entries()[old(self).spec_pos() as int].0
                &&& *r.unwrap().1 == old(self).entries()[old(self).spec_pos() as int].1
                &&& *r.unwrap().2 == old(self).entries()[old(self).spec_pos() as int].2
            },
            old(self).spec_pos() >= old(self).entries().len() ==> {
                &&& r is None
                &&& final(self).spec_pos() == old(self).spec_pos()
            },
    {
        if self.pos < self.usage.len() {
            let h = self.usage[self.pos];
            self.pos = self.pos + 1;
            let c: &'a Cache<K, V> = self.cache;
            proof {
                assert(c.live(h as int));
            }
            let m = c.metas[h].as_ref().unwrap();
            let v = c.values[h].as_ref().unwrap();
            Some((m.user_key(), v, m))
        } else {
            None
        }
    }
}

impl<'a, K: CacheKey, V> CacheIterFrequency<'a, K, V> {
    /// The whole sequence of entries this snapshot yields, each as
    /// (key view, value, metadata).
    pub closed spec fn entries(self) -> Seq<(K::V, V, Metadata<K>)> {
        self.keys@.map(
            |i: int, h: usize|
                (
                    self.cache.slot_key(h as int),
                    self.cache.slot_value(h as int),
                    self.cache.slot_meta(h as int),
                ),
        )
    }

    /// How many entries have been yielded so far.
    pub closed spec fn spec_pos(self) -> nat {
        self.pos as nat
    }

    /// The snapshot is consistent with the cache it borrows.
    pub closed spec fn valid(self) -> bool {
        &&& self.cache.inv()
        &&& self.pos <= self.keys@.len()
        &&& forall|i: int|
            0 <= i < self.keys@.len() ==> self.cache.live(#[trigger] self.keys@[i] as int)
    }

    /// Yield the next entry of the snapshot, or nothing once every entry
    /// has been produced.
    pub fn next(&mut self) -> (r: Option<(&'a K, &'a V, &'a Metadata<K>)>)
        requires
            old(self).valid(),
        ensures
            final(self).valid(),
            final(self).entries() == old(self).entries(),
            old(self).spec_pos() < old(self).entries().len() ==> {
                &&& final(self).spec_pos() == old(self).spec_pos() + 1
                &&& r is Some
                &&& r.unwrap().0@ == old(self).entries()[old(self).spec_pos() as int].0
                &&& *r.unwrap().1 == old(self).entries()[old(self).spec_pos() as int].1
                &&& *r.unwrap().2 == old(self).entries()[old(self).spec_pos() as int].2
            },
            old(self).spec_pos() >= old(self).entries().len() ==> {
                &&& r is None
                &&& final(self).spec_pos() == old(self).spec_pos()
            },
    {
        if self.pos < self.keys.len() {
            let h = self.keys[self.pos];
            self.pos = self.pos + 1;
            let c: &'a Cache<K, V> = self.cache;
            proof {
                assert(c.live(h as int));
            }
            let m = c.metas[h].as_ref().unwrap();
            let v = c.values[h].as_ref().unwrap();
            Some((m.user_key(), v, m))
        } else {
            None
        }
    }
}

} // verus!
