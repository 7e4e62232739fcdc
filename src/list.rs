use vstd::prelude::*;

use crate::bucket::Bucket;
use crate::key::Key;

verus! {

/// Number of slots of a dynamic list built without a requested size.
pub const DEFAULT_SLOTS: usize = 16;

/// An addressable sequence of buckets, handed to the map as its storage.
pub trait BucketList<K: Key, V, B: Bucket<K, V>>: Sized {
    /// The buckets, by address.
    spec fn slots(&self) -> Seq<B>;

    /// The number of slots.
    fn len(&self) -> (r: usize)
        ensures
            r == self.slots().len(),
    ;

    /// The buckets as a vector, in address order.
    fn into_buckets(self) -> (r: Vec<B>)
        ensures
            r@ == self.slots(),
    ;
}

/// A bucket list that can be built with every slot empty.
pub trait BucketListNew<K: Key, V, B: Bucket<K, V>>: BucketList<K, V, B> {
    /// The number of slots of a list built for a requested size `cap`.
    spec fn len_for(cap: nat) -> nat;

    /// The number of slots of a list built without a requested size.
    spec fn default_len() -> nat;

    fn initialized() -> (r: Self)
        ensures
            r.slots().len() == Self::default_len(),
            all_empty(r.slots()),
    ;

    fn initialized_with_capacity(cap: usize) -> (r: Self)
        requires
            cap > 0,
        ensures
            r.slots().len() == Self::len_for(cap as nat),
            all_empty(r.slots()),
    ;
}

/// Every bucket is well formed, holds nothing and has room for any key.
pub open spec fn all_empty<K: Key, V, B: Bucket<K, V>>(s: Seq<B>) -> bool {
    forall|i: int|
        0 <= i < s.len() ==> {
            &&& (#[trigger] s[i]).wf()
            &&& s[i].entries() == Map::<u64, V>::empty()
            &&& forall|c: u64| !s[i].full_for(c)
        }
}

/// A list the map can be built on: at least one slot, every bucket well
/// formed, and no key code held by two buckets.
pub open spec fn list_wf<K: Key, V, B: Bucket<K, V>>(s: Seq<B>) -> bool {
    &&& s.len() > 0
    &&& forall|i: int| 0 <= i < s.len() ==> (#[trigger] s[i]).wf()
    &&& forall|i: int, j: int, c: u64|
        0 <= i < s.len() && 0 <= j < s.len() && #[trigger] s[i].entries().contains_key(c)
            && #[trigger] s[j].entries().contains_key(c) ==> i == j
}

/// The entries of all the buckets of `s` together, by key code.
pub open spec fn union_entries<K: Key, V, B: Bucket<K, V>>(s: Seq<B>) -> Map<u64, V> {
    Map::new(
        |c: u64| exists|i: int| 0 <= i < s.len() && #[trigger] s[i].entries().contains_key(c),
        |c: u64|
            s[choose|i: int| 0 <= i < s.len() && #[trigger] s[i].entries().contains_key(c)].entries()[c],
    )
}

/// The key codes held by the first `n` buckets of `s`.
pub open spec fn held_codes<K: Key, V, B: Bucket<K, V>>(s: Seq<B>, n: int) -> Set<u64>
    decreases n,
{
    if n <= 0 {
        Set::empty()
    } else {
        held_codes::<K, V, B>(s, n - 1).union(s[n - 1].entries().dom())
    }
}

/// The codes held by the first `n` buckets are finitely many, and are those
/// that one of these buckets holds.
proof fn lemma_held_codes<K: Key, V, B: Bucket<K, V>>(s: Seq<B>, n: int)
    requires
        0 <= n <= s.len(),
        forall|i: int| 0 <= i < s.len() ==> (#[trigger] s[i]).wf(),
    ensures
        held_codes::<K, V, B>(s, n).finite(),
        forall|c: u64|
            #[trigger] held_codes::<K, V, B>(s, n).contains(c) <==> exists|i: int|
                0 <= i < n && #[trigger] s[i].entries().contains_key(c),
    decreases n,
{
    if n > 0 {
        lemma_held_codes::<K, V, B>(s, n - 1);
        s[n - 1].lemma_entries_finite();
        assert forall|c: u64|
            #[trigger] held_codes::<K, V, B>(s, n).contains(c) <==> exists|i: int|
                0 <= i < n && #[trigger] s[i].entries().contains_key(c) by {
            if s[n - 1].entries().contains_key(c) {
                assert(s[n - 1].entries().contains_key(c));
            }
            if exists|i: int| 0 <= i < n && #[trigger] s[i].entries().contains_key(c) {
                let i = choose|i: int| 0 <= i < n && #[trigger] s[i].entries().contains_key(c);
                if i < n - 1 {
                    assert(held_codes::<K, V, B>(s, n - 1).contains(c));
                }
            }
        };
    }
}

/// The buckets of a list hold finitely many entries together.
pub proof fn lemma_union_finite<K: Key, V, B: Bucket<K, V>>(s: Seq<B>)
    requires
        forall|i: int| 0 <= i < s.len() ==> (#[trigger] s[i]).wf(),
    ensures
        union_entries(s).dom().finite(),
{
    lemma_held_codes::<K, V, B>(s, s.len() as int);
    assert(union_entries(s).dom() =~= held_codes::<K, V, B>(s, s.len() as int));
}

/// `n` empty buckets.
fn empty_buckets<K: Key, V, B: Bucket<K, V>>(n: usize) -> (r: Vec<B>)
    ensures
        r@.len() == n,
        all_empty(r@),
{
    let mut v: Vec<B> = Vec::with_capacity(n);
    let mut i: usize = 0;
    while i < n
        invariant
            i <= n,
            v@.len() == i,
            all_empty(v@),
        decreases n - i,
    {
        v.push(B::new());
        i = i + 1;
    }
    v
}

impl<K: Key, V, B: Bucket<K, V>> BucketList<K, V, B> for Vec<B> {
    open spec fn slots(&self) -> Seq<B> {
        self@
    }

    fn len(&self) -> (r: usize) {
        Vec::len(self)
    }

    fn into_buckets(self) -> (r: Vec<B>) {
        self
    }
}

impl<K: Key, V, B: Bucket<K, V>> BucketListNew<K, V, B> for Vec<B> {
    open spec fn len_for(cap: nat) -> nat {
        cap
    }

    open spec fn default_len() -> nat {
        DEFAULT_SLOTS as nat
    }

    fn initialized() -> (r: Self) {
        empty_buckets(DEFAULT_SLOTS)
    }

    fn initialized_with_capacity(cap: usize) -> (r: Self) {
        empty_buckets(cap)
    }
}

/// A list of exactly `N` buckets, built once and never resized.
#[derive(Clone)]
pub struct FixedBuckets<B, const N: usize> {
    slots: Vec<B>,
}

/// Sixty-four fixed slots.
pub type Array64<B> = FixedBuckets<B, 64>;

/// One thousand and twenty-four fixed slots.
pub type Array1024<B> = FixedBuckets<B, 1024>;

impl<K: Key, V, B: Bucket<K, V>, const N: usize> BucketList<K, V, B> for FixedBuckets<B, N> {
    closed spec fn slots(&self) -> Seq<B> {
        self.slots@
    }

    fn len(&self) -> (r: usize) {
        self.slots.len()
    }

    fn into_buckets(self) -> (r: Vec<B>) {
        self.slots
    }
}

impl<K: Key, V, B: Bucket<K, V>, const N: usize> BucketListNew<K, V, B> for FixedBuckets<B, N> {
    /// The requested size is ignored: the list always has `N` slots.
    open spec fn len_for(cap: nat) -> nat {
        N as nat
    }

    open spec fn default_len() -> nat {
        N as nat
    }

    fn initialized() -> (r: Self) {
        FixedBuckets { slots: empty_buckets(N) }
    }

    fn initialized_with_capacity(cap: usize) -> (r: Self) {
        FixedBuckets { slots: empty_buckets(N) }
    }
}

} // verus!
