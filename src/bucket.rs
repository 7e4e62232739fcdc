use vstd::prelude::*;

use crate::key::Key;

verus! {

/// One slot of the map: it stores the entries whose keys were sent to it.
///
/// Its contents are modelled as a map from key codes to values.
pub trait Bucket<K: Key, V>: Sized {
    /// The entries held, by key code.
    spec fn entries(&self) -> Map<u64, V>;

    /// The bucket's own invariant.
    spec fn wf(&self) -> bool;

    /// The bucket has no room for an entry with key code `code`.
    spec fn full_for(&self, code: u64) -> bool;

    /// A bucket always has room for a key that it already holds.
    proof fn lemma_room_for_held_key(&self, code: u64)
        requires
            self.wf(),
            self.entries().contains_key(code),
        ensures
            !self.full_for(code),
    ;

    /// A well-formed bucket holds finitely many entries.
    proof fn lemma_entries_finite(&self)
        requires
            self.wf(),
        ensures
            self.entries().dom().finite(),
    ;

    /// An empty bucket.
    fn new() -> (r: Self)
        ensures
            r.wf(),
            r.entries() == Map::<u64, V>::empty(),
            forall|c: u64| !r.full_for(c),
    ;

    /// Stores `(key, value)`, replacing the entry of the same key, whose value
    /// is returned. The caller first checks `reached_max_capacity`.
    fn insert(&mut self, key: K, value: V) -> (r: Option<V>)
        requires
            old(self).wf(),
            !old(self).full_for(key.spec_code()),
        ensures
            final(self).wf(),
            final(self).entries() == old(self).entries().insert(key.spec_code(), value),
            r == (if old(self).entries().contains_key(key.spec_code()) {
                Some(old(self).entries()[key.spec_code()])
            } else {
                None::<V>
            }),
    ;

    /// The value stored under `key`, if any.
    fn get(&self, key: K) -> (r: Option<&V>)
        requires
            self.wf(),
        ensures
            r.is_some() == self.entries().contains_key(key.spec_code()),
            r.is_some() ==> *r.unwrap() == self.entries()[key.spec_code()],
    ;

    /// The value stored under `key`, if any, for update in place: what is
    /// left behind the reference becomes the key's value.
    fn get_mut(&mut self, key: K) -> (r: Option<&mut V>)
        requires
            old(self).wf(),
        ensures
            r.is_some() == old(self).entries().contains_key(key.spec_code()),
            match r {
                Some(v) => {
                    &&& *v == old(self).entries()[key.spec_code()]
                    &&& final(self).wf()
                    &&& final(self).entries() == old(self).entries().insert(
                        key.spec_code(),
                        *final(v),
                    )
                    &&& forall|c: u64| #[trigger] final(self).full_for(c) == old(self).full_for(c)
                },
                None => *final(self) == *old(self),
            },
    ;

    /// Whether the bucket has no room for an entry with this key.
    fn reached_max_capacity(&self, key: K) -> (r: bool)
        requires
            self.wf(),
        ensures
            r == self.full_for(key.spec_code()),
    ;
}

/// The entries of a sequence of pairs, by key code.
pub open spec fn pairs_entries<K: Key, V>(s: Seq<(K, V)>) -> Map<u64, V> {
    Map::new(
        |c: u64| exists|i: int| 0 <= i < s.len() && s[i].0.spec_code() == c,
        |c: u64| s[choose|i: int| 0 <= i < s.len() && s[i].0.spec_code() == c].1,
    )
}

/// No two pairs of `s` have keys with the same code.
pub open spec fn codes_unique<K: Key, V>(s: Seq<(K, V)>) -> bool {
    forall|i: int, j: int| 0 <= i < j < s.len() ==> s[i].0.spec_code() != s[j].0.spec_code()
}

/// Changing the value of one pair changes the entry of its key alone.
proof fn lemma_update_value<K: Key, V>(s: Seq<(K, V)>, idx: int, v: V)
    requires
        codes_unique(s),
        0 <= idx < s.len(),
    ensures
        codes_unique(s.update(idx, (s[idx].0, v))),
        pairs_entries(s.update(idx, (s[idx].0, v))) == pairs_entries(s).insert(s[idx].0.spec_code(), v),
{
    let t = s.update(idx, (s[idx].0, v));
    let c = s[idx].0.spec_code();
    assert forall|i: int| 0 <= i < s.len() implies #[trigger] t[i].0 == s[i].0 by {};
    assert forall|d: u64| #[trigger] pairs_entries(t).contains_key(d) implies pairs_entries(t)[d]
        == pairs_entries(s).insert(c, v)[d] by {
        let i = choose|i: int| 0 <= i < t.len() && t[i].0.spec_code() == d;
        if d == c {
            assert(t[idx].0.spec_code() == c);
            if i != idx {
                if i < idx {
                    assert(s[i].0.spec_code() != s[idx].0.spec_code());
                } else {
                    assert(s[idx].0.spec_code() != s[i].0.spec_code());
                }
            }
        } else {
            assert(s[i].0.spec_code() == d);
            let k = choose|k: int| 0 <= k < s.len() && s[k].0.spec_code() == d;
            if k != i {
                if i < k {
                    assert(s[i].0.spec_code() != s[k].0.spec_code());
                } else {
                    assert(s[k].0.spec_code() != s[i].0.spec_code());
                }
            }
        }
    };
    assert forall|d: u64| #[trigger] pairs_entries(t).contains_key(d) == pairs_entries(s).insert(c, v).contains_key(d) by {
        if d == c {
            assert(t[idx].0.spec_code() == c);
        } else if pairs_entries(s).contains_key(d) {
            let k = choose|k: int| 0 <= k < s.len() && s[k].0.spec_code() == d;
            assert(t[k].0.spec_code() == d);
        }
    };
    assert(pairs_entries(t) =~= pairs_entries(s).insert(c, v));
}

/// A chaining bucket backed by a growable vector; it is never full.
#[derive(Clone)]
pub struct VecBucket<K, V> {
    items: Vec<(K, V)>,
}

impl<K: Key, V> VecBucket<K, V> {
    /// Position of the pair whose key has the code of `key`.
    fn index_of(&self, key: K) -> (r: Option<usize>)
        ensures
            match r {
                Some(i) => {
                    &&& i < self.items@.len()
                    &&& self.items@[i as int].0.spec_code() == key.spec_code()
                    &&& forall|j: int| 0 <= j < i ==> self.items@[j].0.spec_code() != key.spec_code()
                },
                None => forall|i: int|
                    0 <= i < self.items@.len() ==> self.items@[i].0.spec_code()
                        != key.spec_code(),
            },
    {
        let code = key.code();
        let mut i: usize = 0;
        while i < self.items.len()
            invariant
                i <= self.items@.len(),
                code == key.spec_code(),
                forall|j: int| 0 <= j < i ==> self.items@[j].0.spec_code() != code,
            decreases self.items@.len() - i,
        {
            if self.items[i].0.code() == code {
                return Some(i);
            }
            i = i + 1;
        }
        None
    }
}

impl<K: Key, V> Bucket<K, V> for VecBucket<K, V> {
    closed spec fn entries(&self) -> Map<u64, V> {
        pairs_entries(self.items@)
    }

    closed spec fn wf(&self) -> bool {
        codes_unique(self.items@)
    }

    open spec fn full_for(&self, code: u64) -> bool {
        false
    }

    proof fn lemma_room_for_held_key(&self, code: u64) {
    }

    proof fn lemma_entries_finite(&self) {
        let s = self.items@;
        let codes = s.map_values(|p: (K, V)| p.0.spec_code()).to_set();
        assert forall|c: u64| #[trigger] self.entries().dom().contains(c) implies codes.contains(c) by {
            let i = choose|i: int| 0 <= i < s.len() && s[i].0.spec_code() == c;
            assert(s.map_values(|p: (K, V)| p.0.spec_code())[i] == c);
        };
        vstd::set_lib::lemma_len_subset(self.entries().dom(), codes);
    }

    fn new() -> (r: Self) {
        let r = VecBucket { items: Vec::new() };
        assert(r.entries() =~= Map::<u64, V>::empty());
        r
    }

    fn insert(&mut self, key: K, value: V) -> (r: Option<V>) {
        let ghost c = key.spec_code();
        let ghost before = self.items@;
        let found = self.index_of(key);
        let old_value = match found {
            Some(idx) => {
                let (_, v) = self.items.swap_remove(idx);
                Some(v)
            },
            None => None,
        };
        let ghost mid = self.items@;
        // Each remaining pair comes from `before`, and every pair of `before`
        // with another key remains.
        let ghost src = |j: int|
            match found {
                Some(idx) => if j == idx { before.len() - 1 } else { j },
                None => j,
            };
        assert forall|j: int| 0 <= j < mid.len() implies 0 <= #[trigger] src(j) < before.len()
            && mid[j] == before[src(j)] && before[src(j)].0.spec_code() != c by {
            if let Some(idx) = found {
                assert(before[idx as int].0.spec_code() == c);
                let k = src(j);
                assert(k != idx);
                if k < idx {
                    assert(before[k].0.spec_code() != before[idx as int].0.spec_code());
                } else {
                    assert(before[idx as int].0.spec_code() != before[k].0.spec_code());
                }
            }
        };
        assert forall|k: int|
            0 <= k < before.len() && before[k].0.spec_code() != c implies exists|j: int|
            0 <= j < mid.len() && #[trigger] mid[j] == before[k] by {
            if let Some(idx) = found {
                if k == before.len() - 1 {
                    assert(mid[idx as int] == before[k]);
                } else {
                    assert(mid[k] == before[k]);
                }
            } else {
                assert(mid[k] == before[k]);
            }
        };
        assert forall|i: int, j: int| 0 <= i < j < mid.len() implies mid[i].0.spec_code()
            != mid[j].0.spec_code() by {
            let (a, b) = (src(i), src(j));
            assert(0 <= a < before.len() && 0 <= b < before.len());
            assert(mid[i] == before[a] && mid[j] == before[b]);
            assert(a != b);
            if a < b {
                assert(before[a].0.spec_code() != before[b].0.spec_code());
            } else {
                assert(before[b].0.spec_code() != before[a].0.spec_code());
            }
        };
        self.items.push((key, value));
        proof {
            let s = self.items@;
            assert(s.len() == mid.len() + 1);
            assert(forall|j: int| 0 <= j < mid.len() ==> s[j] == mid[j]);
            assert(s[mid.len() as int] == (key, value));
            assert forall|d: u64| #[trigger]
                self.entries().contains_key(d) == old(self).entries().insert(
                    c,
                    value,
                ).contains_key(d) by {
                if d == c {
                    assert(s[mid.len() as int].0.spec_code() == c);
                } else {
                    if self.entries().contains_key(d) {
                        let i = choose|i: int| 0 <= i < s.len() && s[i].0.spec_code() == d;
                        assert(i < mid.len());
                        assert(mid[i] == before[src(i)]);
                    }
                    if old(self).entries().contains_key(d) {
                        let k = choose|k: int| 0 <= k < before.len() && before[k].0.spec_code() == d;
                        let j = choose|j: int| 0 <= j < mid.len() && #[trigger] mid[j] == before[k];
                        assert(s[j] == mid[j]);
                    }
                }
            };
            assert forall|d: u64| #[trigger] self.entries().contains_key(d) implies self.entries()[d]
                == old(self).entries().insert(c, value)[d] by {
                let i = choose|i: int| 0 <= i < s.len() && s[i].0.spec_code() == d;
                if d == c {
                    assert(s[mid.len() as int].0.spec_code() == c);
                } else {
                    assert(i < mid.len());
                    assert(mid[i] == before[src(i)]);
                    let k = choose|k: int| 0 <= k < before.len() && before[k].0.spec_code() == d;
                    assert(k == src(i));
                }
            };
            assert(self.entries() =~= old(self).entries().insert(c, value));
        }
        old_value
    }

    fn get(&self, key: K) -> (r: Option<&V>) {
        match self.index_of(key) {
            Some(idx) => Some(&self.items[idx].1),
            None => None,
        }
    }

    fn get_mut(&mut self, key: K) -> (r: Option<&mut V>) {
        match self.index_of(key) {
            Some(idx) => {
                let ghost before = self.items@;
                proof {
                    assert forall|v: V|
                        #[trigger] pairs_entries(before.update(idx as int, (before[idx as int].0, v)))
                            == pairs_entries(before).insert(key.spec_code(), v) && codes_unique(
                            before.update(idx as int, (before[idx as int].0, v)),
                        ) by {
                        lemma_update_value(before, idx as int, v);
                    };
                }
                let pair = &mut self.items[idx];
                Some(&mut pair.1)
            },
            None => None,
        }
    }

    fn reached_max_capacity(&self, key: K) -> (r: bool) {
        false
    }
}

/// A single-slot bucket for open addressing: empty, or holding one pair.
#[derive(Clone)]
pub struct OptionBucket<K, V> {
    slot: Option<(K, V)>,
}

impl<K: Key, V> OptionBucket<K, V> {
    /// The pair in the slot, if any.
    pub closed spec fn occupant(&self) -> Option<(K, V)> {
        self.slot
    }
}

impl<K: Key, V> Bucket<K, V> for OptionBucket<K, V> {
    open spec fn entries(&self) -> Map<u64, V> {
        match self.occupant() {
            Some(p) => map![p.0.spec_code() => p.1],
            None => Map::empty(),
        }
    }

    open spec fn wf(&self) -> bool {
        true
    }

    /// Occupied by a pair with another key.
    open spec fn full_for(&self, code: u64) -> bool {
        match self.occupant() {
            Some(p) => p.0.spec_code() != code,
            None => false,
        }
    }

    proof fn lemma_room_for_held_key(&self, code: u64) {
    }

    proof fn lemma_entries_finite(&self) {
    }

    fn new() -> (r: Self) {
        OptionBucket { slot: None }
    }

    fn insert(&mut self, key: K, value: V) -> (r: Option<V>) {
        let mut prev = Some((key, value));
        std::mem::swap(&mut self.slot, &mut prev);
        let r = match prev {
            Some((_, v)) => Some(v),
            None => None,
        };
        assert(self.entries() =~= old(self).entries().insert(key.spec_code(), value));
        r
    }

    fn get(&self, key: K) -> (r: Option<&V>) {
        match &self.slot {
            Some((k, v)) => {
                if k.code() == key.code() {
                    Some(v)
                } else {
                    None
                }
            },
            None => None,
        }
    }

    fn get_mut(&mut self, key: K) -> (r: Option<&mut V>) {
        match &mut self.slot {
            Some((k, v)) => {
                if k.code() == key.code() {
                    Some(v)
                } else {
                    None
                }
            },
            None => None,
        }
    }

    fn reached_max_capacity(&self, key: K) -> (r: bool) {
        match &self.slot {
            Some((k, _)) => k.code() != key.code(),
            None => false,
        }
    }
}

} // verus!
