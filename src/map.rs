use vstd::prelude::*;

use crate::bucket::{Bucket, OptionBucket, VecBucket};
use crate::hash::{DefaultHasher, Hasher};
use crate::key::Key;
use crate::list::{
    all_empty, lemma_union_finite, list_wf, union_entries, BucketList, BucketListNew, DEFAULT_SLOTS,
};

use core::marker::PhantomData;

verus! {

/// The slot visited at step `step` of a probe that starts at `start`:
/// increasing addresses, wrapping round at `len`.
pub open spec fn probe_slot(start: int, step: int, len: int) -> int {
    (start + step) % len
}

/// The address at which the probe for a key with code `code` starts, in a
/// list of `len` slots hashed by `H`.
pub open spec fn address_of<H: Hasher>(code: u64, len: nat) -> nat {
    H::spec_compress(H::spec_hash(code), len)
}

/// An insert found no bucket with room for the key.
#[derive(Debug, Clone, Copy, PartialEq, Eq, Structural)]
pub struct CapacityExhausted;

/// A map from keys to values over a list of buckets, probed from the
/// address that the hasher `H` gives the key.
#[derive(Clone)]
pub struct PrimitiveMap<K, V, B, H = DefaultHasher> {
    buckets: Vec<B>,
    contents: Ghost<Map<u64, V>>,
    _strategy: Ghost<PhantomData<(K, H)>>,
}

/// The general-purpose map: chaining over a growable list of vector buckets.
pub type VecPrimitiveMap<K, V> = PrimitiveMap<K, V, VecBucket<K, V>, DefaultHasher>;

/// A chaining map over a list of fixed length: vector buckets in slots
/// built once, such as `Array64`.
pub type ArrayPrimitiveMap<K, V> = PrimitiveMap<K, V, VecBucket<K, V>, DefaultHasher>;

/// The linear-probing map: single-slot buckets, so its capacity is its
/// number of slots.
pub type LinearPrimitiveMap<K, V> = PrimitiveMap<K, V, OptionBucket<K, V>, DefaultHasher>;

impl<K: Key, V, B: Bucket<K, V>, H: Hasher> View for PrimitiveMap<K, V, B, H> {
    type V = Map<u64, V>;

    /// The entries of the map, by key code.
    closed spec fn view(&self) -> Map<u64, V> {
        self.contents@
    }
}

impl<K: Key, V, B: Bucket<K, V>, H: Hasher> PrimitiveMap<K, V, B, H> {
    /// The buckets, by address.
    pub closed spec fn slots(&self) -> Seq<B> {
        self.buckets@
    }

    /// There is a bucket with room for a key with code `code`.
    pub open spec fn has_room(&self, code: u64) -> bool {
        exists|i: int| 0 <= i < self.slots().len() && !(#[trigger] self.slots()[i]).full_for(code)
    }

    /// Slot `i` is the first slot, in probe order from `start`, whose
    /// bucket has room for a key with code `code`.
    pub open spec fn first_room_from(&self, start: int, i: int, code: u64) -> bool {
        let n = self.slots().len() as int;
        exists|j: int|
            0 <= j < n && i == #[trigger] probe_slot(start, j, n) && !self.slots()[i].full_for(code)
                && forall|t: int|
                0 <= t < j ==> (#[trigger] self.slots()[probe_slot(start, t, n)]).full_for(code)
    }

    /// An insert of a key with code `code` fails: the key is new and no
    /// bucket has room for it.
    pub open spec fn insert_fails(&self, code: u64) -> bool {
        !self@.contains_key(code) && !self.has_room(code)
    }

    /// The map's invariant: at least one slot, every bucket well formed,
    /// each key in at most one bucket, and the view is the union of the
    /// buckets' entries.
    pub closed spec fn wf(&self) -> bool {
        &&& self.buckets@.len() > 0
        &&& self.contents@.dom().finite()
        &&& forall|i: int| 0 <= i < self.buckets@.len() ==> (#[trigger] self.buckets@[i]).wf()
        &&& forall|i: int, j: int, c: u64|
            0 <= i < self.buckets@.len() && 0 <= j < self.buckets@.len()
                && #[trigger] self.buckets@[i].entries().contains_key(c)
                && #[trigger] self.buckets@[j].entries().contains_key(c) ==> i == j
        &&& forall|i: int, c: u64|
            0 <= i < self.buckets@.len() && #[trigger] self.buckets@[i].entries().contains_key(c)
                ==> self.contents@.contains_key(c) && self.contents@[c]
                == self.buckets@[i].entries()[c]
        &&& forall|c: u64|
            #[trigger] self.contents@.contains_key(c) ==> exists|i: int|
                0 <= i < self.buckets@.len() && #[trigger] self.buckets@[i].entries().contains_key(c)
    }

    /// A map that holds the given buckets as they are.
    fn from_list<L: BucketList<K, V, B>>(buckets: L) -> (r: Self)
        requires
            list_wf(buckets.slots()),
        ensures
            r.wf(),
            r@ == union_entries(buckets.slots()),
            r.slots() == buckets.slots(),
    {
        let buckets = buckets.into_buckets();
        let ghost s = buckets@;
        proof {
            lemma_union_finite::<K, V, B>(s);
        }
        let r = PrimitiveMap {
            buckets,
            contents: Ghost(union_entries(s)),
            _strategy: Ghost(PhantomData),
        };
        assert forall|i: int, c: u64|
            0 <= i < s.len() && #[trigger] s[i].entries().contains_key(c) implies r.contents@.contains_key(c)
            && r.contents@[c] == s[i].entries()[c] by {
            let k = choose|k: int| 0 <= k < s.len() && #[trigger] s[k].entries().contains_key(c);
            assert(s[k].entries().contains_key(c));
        };
        r
    }

    /// A map over the default number of empty growable-list slots.
    pub fn default() -> (r: Self)
        ensures
            r.wf(),
            r@ == Map::<u64, V>::empty(),
            r.slots().len() == DEFAULT_SLOTS,
            all_empty(r.slots()),
    {
        let buckets: Vec<B> = <Vec<B> as BucketListNew<K, V, B>>::initialized();
        Self::from_list(buckets)
    }

    /// A map over `cap` empty growable-list slots.
    pub fn with_capacity(cap: usize) -> (r: Self)
        requires
            cap > 0,
        ensures
            r.wf(),
            r@ == Map::<u64, V>::empty(),
            r.slots().len() == cap,
            all_empty(r.slots()),
    {
        let buckets: Vec<B> = <Vec<B> as BucketListNew<K, V, B>>::initialized_with_capacity(cap);
        Self::from_list(buckets)
    }

    /// A map that holds the given buckets as they are, hashed by the
    /// strategy of `hasher`.
    pub fn custom<L: BucketList<K, V, B>>(buckets: L, hasher: H) -> (r: Self)
        requires
            list_wf(buckets.slots()),
        ensures
            r.wf(),
            r@ == union_entries(buckets.slots()),
            r.slots() == buckets.slots(),
    {
        let _ = hasher;
        Self::from_list(buckets)
    }

    /// The address at which the probe for `key` starts.
    pub fn get_addr(&self, key: K) -> (r: usize)
        requires
            self.wf(),
        ensures
            r == address_of::<H>(key.spec_code(), self.slots().len()),
            r < self.slots().len(),
    {
        let hash = H::hash(key.code());
        H::compress(hash, self.buckets.len())
    }

    /// The first slot, in probe order from `start`, whose bucket holds `key`.
    fn find_holding(&self, start: usize, key: K) -> (r: Option<usize>)
        requires
            self.wf(),
            start < self.slots().len(),
        ensures
            match r {
                Some(i) => i < self.slots().len() && self.slots()[i as int].entries().contains_key(
                    key.spec_code(),
                ),
                None => forall|i: int|
                    0 <= i < self.slots().len() ==> !#[trigger] self.slots()[i].entries().contains_key(
                        key.spec_code(),
                    ),
            },
    {
        let len = self.buckets.len();
        let mut i: usize = start;
        let mut step: usize = 0;
        proof {
            vstd::arithmetic::div_mod::lemma_small_mod(start as nat, len as nat);
        }
        while step < len
            invariant
                len == self.buckets@.len(),
                self.wf(),
                step <= len,
                i < len,
                i == probe_slot(start as int, step as int, len as int),
                forall|t: int|
                    0 <= t < step ==> !self.buckets@[probe_slot(
                        start as int,
                        t,
                        len as int,
                    )].entries().contains_key(key.spec_code()),
            decreases len - step,
        {
            if self.buckets[i].get(key).is_some() {
                return Some(i);
            }
            proof {
                lemma_probe_next(start as int, step as int, len as int);
            }
            i = if i + 1 == len { 0 } else { i + 1 };
            step = step + 1;
        }
        proof {
            lemma_probe_covers(start as int, len as int);
            assert forall|j: int| 0 <= j < len implies !#[trigger] self.slots()[j].entries().contains_key(
                key.spec_code(),
            ) by {
                let t = probe_step_to(start as int, j, len as int);
                assert(0 <= t < step);
            };
        }
        None
    }

    /// The first slot, in probe order from `start`, whose bucket has room for
    /// `key`.
    fn find_room(&self, start: usize, key: K) -> (r: Option<usize>)
        requires
            self.wf(),
            start < self.slots().len(),
        ensures
            match r {
                Some(i) => i < self.slots().len() && self.first_room_from(
                    start as int,
                    i as int,
                    key.spec_code(),
                ),
                None => !self.has_room(key.spec_code()),
            },
    {
        let len = self.buckets.len();
        let mut i: usize = start;
        let mut step: usize = 0;
        proof {
            vstd::arithmetic::div_mod::lemma_small_mod(start as nat, len as nat);
        }
        while step < len
            invariant
                len == self.buckets@.len(),
                self.wf(),
                step <= len,
                i < len,
                i == probe_slot(start as int, step as int, len as int),
                forall|t: int|
                    0 <= t < step ==> self.buckets@[probe_slot(
                        start as int,
                        t,
                        len as int,
                    )].full_for(key.spec_code()),
            decreases len - step,
        {
            if !self.buckets[i].reached_max_capacity(key) {
                proof {
                    assert(probe_slot(start as int, step as int, len as int) == i);
                }
                return Some(i);
            }
            proof {
                lemma_probe_next(start as int, step as int, len as int);
            }
            i = if i + 1 == len { 0 } else { i + 1 };
            step = step + 1;
        }
        proof {
            lemma_probe_covers(start as int, len as int);
            assert forall|j: int| 0 <= j < len implies (#[trigger] self.slots()[j]).full_for(
                key.spec_code(),
            ) by {
                let t = probe_step_to(start as int, j, len as int);
                assert(0 <= t < step);
            };
        }
        None
    }

    /// Stores `value` in bucket `i` under `key`, which no other bucket holds.
    fn store_at(&mut self, i: usize, key: K, value: V)
        requires
            old(self).wf(),
            i < old(self).slots().len(),
            !old(self).slots()[i as int].full_for(key.spec_code()),
            forall|j: int|
                0 <= j < old(self).slots().len() && j != i ==> !#[trigger] old(
                    self,
                ).slots()[j].entries().contains_key(key.spec_code()),
        ensures
            final(self).wf(),
            final(self)@ == old(self)@.insert(key.spec_code(), value),
            final(self).slots().len() == old(self).slots().len(),
            final(self).slots()[i as int].entries() == old(self).slots()[i as int].entries().insert(
                key.spec_code(),
                value,
            ),
            forall|j: int|
                0 <= j < old(self).slots().len() && j != i ==> #[trigger] final(self).slots()[j]
                    == old(self).slots()[j],
    {
        let ghost c = key.spec_code();
        let ghost before = self.buckets@;
        self.buckets[i].insert(key, value);
        self.contents = Ghost(self.contents@.insert(c, value));
        proof {
            let after = self.buckets@;
            assert(after.len() == before.len());
            assert(forall|j: int| 0 <= j < after.len() && j != i ==> after[j] == before[j]);
            assert forall|j: int, k: int, d: u64|
                0 <= j < after.len() && 0 <= k < after.len()
                    && #[trigger] after[j].entries().contains_key(d)
                    && #[trigger] after[k].entries().contains_key(d) implies j == k by {
                if d != c {
                    assert(before[j].entries().contains_key(d));
                    assert(before[k].entries().contains_key(d));
                }
            };
            assert forall|j: int, d: u64|
                0 <= j < after.len() && #[trigger] after[j].entries().contains_key(d) implies self.contents@.contains_key(d)
                && self.contents@[d] == after[j].entries()[d] by {
                if d != c {
                    assert(before[j].entries().contains_key(d));
                }
            };
            assert forall|d: u64| #[trigger] self.contents@.contains_key(d) implies exists|j: int|
                0 <= j < after.len() && #[trigger] after[j].entries().contains_key(d) by {
                if d == c {
                    assert(after[i as int].entries().contains_key(d));
                } else {
                    let j = choose|j: int|
                        0 <= j < before.len() && #[trigger] before[j].entries().contains_key(d);
                    assert(after[j].entries().contains_key(d));
                }
            };
        }
    }

    /// Stores `value` under `key`: in the bucket that holds `key`, else in
    /// the first bucket in probe order with room for it. Fails, changing
    /// nothing, exactly when `key` is new and no bucket has room for it.
    pub fn insert(&mut self, key: K, value: V) -> (r: Result<(), CapacityExhausted>)
        requires
            old(self).wf(),
        ensures
            final(self).wf(),
            final(self).slots().len() == old(self).slots().len(),
            r is Err <==> old(self).insert_fails(key.spec_code()),
            r is Ok ==> final(self)@ == old(self)@.insert(key.spec_code(), value),
            r is Err ==> *final(self) == *old(self),
            r is Ok ==> exists|i: int|
                0 <= i < old(self).slots().len() && (if old(self)@.contains_key(key.spec_code()) {
                    old(self).slots()[i].entries().contains_key(key.spec_code())
                } else {
                    old(self).first_room_from(
                        address_of::<H>(key.spec_code(), old(self).slots().len()) as int,
                        i,
                        key.spec_code(),
                    )
                }) && final(self).slots()[i].entries() == old(self).slots()[i].entries().insert(
                    key.spec_code(),
                    value,
                ) && forall|j: int|
                    0 <= j < old(self).slots().len() && j != i ==> #[trigger] final(self).slots()[j]
                        == old(self).slots()[j],
    {
        let addr = self.get_addr(key);
        match self.find_holding(addr, key) {
            Some(i) => {
                proof {
                    let c = key.spec_code();
                    self.slots()[i as int].lemma_room_for_held_key(c);
                    assert forall|j: int|
                        0 <= j < self.slots().len() && j != i implies !#[trigger] self.slots()[j].entries().contains_key(
                            c,
                        ) by {
                        if self.slots()[j].entries().contains_key(c) {
                            assert(self.buckets@[i as int].entries().contains_key(c));
                        }
                    };
                    assert(self@.contains_key(c));
                }
                self.store_at(i, key, value);
                Ok(())
            },
            None => {
                proof {
                    let c = key.spec_code();
                    if self@.contains_key(c) {
                        let j = choose|j: int|
                            0 <= j < self.buckets@.len()
                                && #[trigger] self.buckets@[j].entries().contains_key(c);
                        assert(self.slots()[j].entries().contains_key(c));
                    }
                }
                match self.find_room(addr, key) {
                    Some(i) => {
                        self.store_at(i, key, value);
                        Ok(())
                    },
                    None => Err(CapacityExhausted),
                }
            },
        }
    }

    /// The value stored under `key`, if any.
    pub fn get(&self, key: K) -> (r: Option<&V>)
        requires
            self.wf(),
        ensures
            r.is_some() == self@.contains_key(key.spec_code()),
            r.is_some() ==> *r.unwrap() == self@[key.spec_code()],
    {
        let addr = self.get_addr(key);
        match self.find_holding(addr, key) {
            Some(i) => self.buckets[i].get(key),
            None => None,
        }
    }
}

impl<K: Key, V, B: Bucket<K, V>> PrimitiveMap<K, V, B, DefaultHasher> {
    /// A map that holds the given buckets as they are.
    pub fn with_buckets<L: BucketList<K, V, B>>(buckets: L) -> (r: Self)
        requires
            list_wf(buckets.slots()),
        ensures
            r.wf(),
            r@ == union_entries(buckets.slots()),
            r.slots() == buckets.slots(),
    {
        Self::custom(buckets, DefaultHasher::new())
    }
}

impl<K: Key, V> PrimitiveMap<K, V, OptionBucket<K, V>, DefaultHasher> {
    /// A linear-probing map that holds the given single-slot buckets as they
    /// are.
    pub fn with_linear_probing<L: BucketList<K, V, OptionBucket<K, V>>>(buckets: L) -> (r: Self)
        requires
            list_wf(buckets.slots()),
        ensures
            r.wf(),
            r@ == union_entries(buckets.slots()),
            r.slots() == buckets.slots(),
    {
        Self::custom(buckets, DefaultHasher::new())
    }
}

/// The map after a sequence of successful inserts, given as (code, value)
/// pairs in the order they were made.
pub open spec fn apply_inserts<V>(m: Map<u64, V>, inserts: Seq<(u64, V)>) -> Map<u64, V>
    decreases inserts.len(),
{
    if inserts.len() == 0 {
        m
    } else {
        apply_inserts(m, inserts.drop_last()).insert(inserts.last().0, inserts.last().1)
    }
}

/// Inserting `v1` and then `v2` under one key leaves the map as the insert
/// of `v2` alone would: one entry for the key, holding `v2`. The second
/// insert cannot fail, as the key is then held.
pub proof fn lemma_overwrite<K: Key, V, B: Bucket<K, V>, H: Hasher>(
    before: PrimitiveMap<K, V, B, H>,
    between: PrimitiveMap<K, V, B, H>,
    key: K,
    v1: V,
    v2: V,
)
    requires
        before.wf(),
        between.wf(),
        between@ == before@.insert(key.spec_code(), v1),
    ensures
        !between.insert_fails(key.spec_code()),
        between@.insert(key.spec_code(), v2) == before@.insert(key.spec_code(), v2),
        between@.insert(key.spec_code(), v2)[key.spec_code()] == v2,
{
    assert(between@.insert(key.spec_code(), v2) =~= before@.insert(key.spec_code(), v2));
}

/// After `key` is stored with `value`, it is found with `value` whatever
/// inserts of other keys follow.
pub proof fn lemma_round_trip<K: Key, V>(m: Map<u64, V>, key: K, value: V, later: Seq<(u64, V)>)
    requires
        forall|i: int| 0 <= i < later.len() ==> (#[trigger] later[i]).0 != key.spec_code(),
    ensures
        apply_inserts(m.insert(key.spec_code(), value), later).contains_key(key.spec_code()),
        apply_inserts(m.insert(key.spec_code(), value), later)[key.spec_code()] == value,
    decreases later.len(),
{
    if later.len() > 0 {
        let rest = later.drop_last();
        assert forall|i: int| 0 <= i < rest.len() implies (#[trigger] rest[i]).0 != key.spec_code() by {
            assert(rest[i] == later[i]);
        };
        lemma_round_trip(m, key, value, rest);
        assert(later[later.len() - 1].0 != key.spec_code());
    }
}

/// A map with no entries finds no key.
pub proof fn lemma_empty_misses<K: Key, V, B: Bucket<K, V>, H: Hasher>(
    m: PrimitiveMap<K, V, B, H>,
    key: K,
)
    requires
        m.wf(),
        m@ == Map::<u64, V>::empty(),
    ensures
        !m@.contains_key(key.spec_code()),
{
}

/// A well-formed map holds finitely many entries.
pub proof fn lemma_view_finite<K: Key, V, B: Bucket<K, V>, H: Hasher>(m: PrimitiveMap<K, V, B, H>)
    requires
        m.wf(),
    ensures
        m@.dom().finite(),
{
}

/// A key the map holds always has a bucket with room for it, so an insert
/// fails exactly when no bucket has room for the key.
pub proof fn lemma_held_key_has_room<K: Key, V, B: Bucket<K, V>, H: Hasher>(
    m: PrimitiveMap<K, V, B, H>,
    code: u64,
)
    requires
        m.wf(),
    ensures
        m@.contains_key(code) ==> m.has_room(code),
        m.insert_fails(code) <==> !m.has_room(code),
{
    if m@.contains_key(code) {
        let i = choose|i: int| 0 <= i < m.buckets@.len() && #[trigger] m.buckets@[i].entries().contains_key(code);
        m.buckets@[i].lemma_room_for_held_key(code);
        assert(!m.slots()[i].full_for(code));
    }
}

/// A map of single-slot buckets holds at most one entry per slot, and a new
/// key has room exactly while some slot is still free of entries.
pub proof fn lemma_linear_capacity<K: Key, V>(m: LinearPrimitiveMap<K, V>, code: u64)
    requires
        m.wf(),
        !m@.contains_key(code),
    ensures
        m@.len() <= m.slots().len(),
        m.has_room(code) <==> m@.len() < m.slots().len(),
{
    let s = m.buckets@;
    let n = s.len() as int;
    let dom = m@.dom();
    let f = |c: u64| choose|i: int| 0 <= i < n && #[trigger] s[i].entries().contains_key(c);
    let occ = Set::new(|i: int| 0 <= i < n && s[i].occupant() is Some);
    assert forall|c1: u64, c2: u64| dom.contains(c1) && dom.contains(c2) && #[trigger] f(c1) == #[trigger] f(c2)
        implies c1 == c2 by {
        let i = f(c1);
        assert(s[i].entries().contains_key(c1));
        assert(s[i].entries().contains_key(c2));
    };
    assert(vstd::relations::injective_on(f, dom));
    assert forall|i: int| #[trigger] occ.contains(i) implies dom.map(f).contains(i) by {
        let p = s[i].occupant()->Some_0;
        let c = p.0.spec_code();
        assert(s[i].entries().contains_key(c));
        assert(dom.contains(c));
        let j = f(c);
        assert(s[j].entries().contains_key(c));
        assert(j == i);
    };
    assert forall|i: int| dom.map(f).contains(i) implies #[trigger] occ.contains(i) by {
        let c = choose|c: u64| dom.contains(c) && f(c) == i;
        assert(s[f(c)].entries().contains_key(c));
    };
    assert(dom.map(f) =~= occ);
    vstd::set_lib::lemma_map_size(dom, occ, f);
    vstd::set_lib::lemma_int_range(0, n);
    let range = vstd::set_lib::set_int_range(0, n);
    assert(occ.subset_of(range));
    vstd::set_lib::lemma_len_subset(occ, range);
    if m.has_room(code) {
        let j = choose|j: int| 0 <= j < n && !(#[trigger] m.slots()[j]).full_for(code);
        if s[j].occupant() is Some {
            assert(s[j].entries().contains_key(code));
        }
        assert(occ.subset_of(range.remove(j)));
        vstd::set_lib::lemma_len_subset(occ, range.remove(j));
    } else {
        assert forall|i: int| #[trigger] range.contains(i) implies occ.contains(i) by {
            assert(m.slots()[i].full_for(code));
        };
        assert(occ =~= range);
    }
}

/// A map of chaining buckets never runs out of room.
pub proof fn lemma_chaining_never_exhausts<K: Key, V>(m: VecPrimitiveMap<K, V>, code: u64)
    requires
        m.wf(),
    ensures
        !m.insert_fails(code),
{
    assert(!m.slots()[0].full_for(code));
}

/// The probe from any address below `len` visits each of the `len`
/// addresses exactly once in its first `len` steps.
pub proof fn lemma_probe_order(start: int, len: int)
    requires
        0 <= start < len,
    ensures
        forall|j: int|
            0 <= j < len ==> 0 <= #[trigger] probe_step_to(start, j, len) < len && probe_slot(
                start,
                probe_step_to(start, j, len),
                len,
            ) == j,
        forall|t1: int, t2: int|
            0 <= t1 < len && 0 <= t2 < len && #[trigger] probe_slot(start, t1, len)
                == #[trigger] probe_slot(start, t2, len) ==> t1 == t2,
{
    lemma_probe_covers(start, len);
    assert forall|t1: int, t2: int|
        0 <= t1 < len && 0 <= t2 < len && #[trigger] probe_slot(start, t1, len)
            == #[trigger] probe_slot(start, t2, len) implies t1 == t2 by {
        lemma_probe_step_unique(start, t1, t2, len);
    };
}

/// Two steps of one cycle of the probe land on distinct addresses.
proof fn lemma_probe_step_unique(start: int, t1: int, t2: int, len: int)
    requires
        0 <= start < len,
        0 <= t1 < len,
        0 <= t2 < len,
        probe_slot(start, t1, len) == probe_slot(start, t2, len),
    ensures
        t1 == t2,
{
    let a = start + t1;
    let b = start + t2;
    vstd::arithmetic::div_mod::lemma_fundamental_div_mod(a, len);
    vstd::arithmetic::div_mod::lemma_fundamental_div_mod(b, len);
    assert(0 <= a < 2 * len);
    assert(0 <= b < 2 * len);
    if a < len {
        vstd::arithmetic::div_mod::lemma_small_mod(a as nat, len as nat);
    } else {
        vstd::arithmetic::div_mod::lemma_mod_sub_multiples_vanish(a, len);
        vstd::arithmetic::div_mod::lemma_small_mod((a - len) as nat, len as nat);
    }
    if b < len {
        vstd::arithmetic::div_mod::lemma_small_mod(b as nat, len as nat);
    } else {
        vstd::arithmetic::div_mod::lemma_mod_sub_multiples_vanish(b, len);
        vstd::arithmetic::div_mod::lemma_small_mod((b - len) as nat, len as nat);
    }
}

/// Taking one more step of a probe moves to the next address, wrapping round.
proof fn lemma_probe_next(start: int, step: int, len: int)
    requires
        start >= 0,
        step >= 0,
        len > 0,
    ensures
        probe_slot(start, step + 1, len) == (if probe_slot(start, step, len) + 1 == len {
            0
        } else {
            probe_slot(start, step, len) + 1
        }),
{
    vstd::arithmetic::div_mod::lemma_add_mod_noop(start + step, 1, len);
    vstd::arithmetic::div_mod::lemma_mod_bound(start + step, len);
    if len == 1 {
        vstd::arithmetic::div_mod::lemma_mod_self_0(1);
    } else {
        vstd::arithmetic::div_mod::lemma_small_mod(1, len as nat);
    }
    let p = probe_slot(start, step, len) + 1;
    if p == len {
        vstd::arithmetic::div_mod::lemma_mod_self_0(len);
    } else {
        vstd::arithmetic::div_mod::lemma_small_mod(p as nat, len as nat);
    }
}

/// The step at which a probe from `start` reaches address `j`.
pub open spec fn probe_step_to(start: int, j: int, len: int) -> int {
    if j >= start {
        j - start
    } else {
        j + len - start
    }
}

/// A probe of `len` steps from an address below `len` visits every address.
proof fn lemma_probe_covers(start: int, len: int)
    requires
        0 <= start < len,
    ensures
        forall|j: int|
            0 <= j < len ==> 0 <= #[trigger] probe_step_to(start, j, len) < len && probe_slot(
                start,
                probe_step_to(start, j, len),
                len,
            ) == j,
{
    assert forall|j: int| 0 <= j < len implies 0 <= #[trigger] probe_step_to(start, j, len) < len
        && probe_slot(start, probe_step_to(start, j, len), len) == j by {
        vstd::arithmetic::div_mod::lemma_small_mod(j as nat, len as nat);
        if j < start {
            vstd::arithmetic::div_mod::lemma_mod_add_multiples_vanish(j, len);
        }
    };
}

} // verus!
