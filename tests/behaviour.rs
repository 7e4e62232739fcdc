use primitive_map::{
    Array64, ArrayPrimitiveMap, Bucket, BucketList, BucketListNew, CapacityExhausted, FixedBuckets, Key,
    LinearPrimitiveMap, OptionBucket, PrimitiveMap, VecBucket, VecPrimitiveMap,
};

#[test]
fn overwrite_keeps_last_value_dynamic() {
    let mut map = VecPrimitiveMap::default();
    map.insert(7u32, 1u32).unwrap();
    map.insert(7u32, 2u32).unwrap();
    assert_eq!(map.get(7u32), Some(&2u32));
}

#[test]
fn overwrite_keeps_last_value_fixed() {
    // Four slots: keys 0, 4 and 8 all start their probe at address 0.
    let mut map = LinearPrimitiveMap::with_buckets(FixedBuckets::<_, 4>::initialized());
    map.insert(0u64, 1u64).unwrap();
    map.insert(4u64, 2u64).unwrap();
    map.insert(8u64, 3u64).unwrap();
    map.insert(4u64, 20u64).unwrap();
    assert_eq!(map.get(0u64), Some(&1u64));
    assert_eq!(map.get(4u64), Some(&20u64));
    assert_eq!(map.get(8u64), Some(&3u64));
    // The overwrite took no slot of its own: one slot is still free.
    map.insert(12u64, 4u64).unwrap();
    assert_eq!(map.insert(16u64, 5u64), Err(CapacityExhausted));
    // A held key can still be overwritten in a full map.
    map.insert(12u64, 40u64).unwrap();
    assert_eq!(map.get(12u64), Some(&40u64));
}

#[test]
fn round_trip_survives_other_inserts() {
    let mut map = VecPrimitiveMap::with_capacity(3);
    map.insert(5i64, 50i64).unwrap();
    for k in 6i64..40 {
        map.insert(k, -k).unwrap();
    }
    assert_eq!(map.get(5i64), Some(&50i64));
    assert_eq!(map.get(39i64), Some(&-39i64));
}

#[test]
fn miss_on_fresh_maps() {
    let dynamic: VecPrimitiveMap<u16, u8> = VecPrimitiveMap::default();
    let fixed: LinearPrimitiveMap<u16, u8> = LinearPrimitiveMap::with_linear_probing(Array64::initialized());
    for k in [0u16, 1, 63, 64, 65535] {
        assert_eq!(dynamic.get(k), None);
        assert_eq!(fixed.get(k), None);
    }
}

#[test]
fn sixty_four_slots_saturate() {
    let mut map = LinearPrimitiveMap::with_buckets(Array64::initialized());
    for i in 0u32..64 {
        map.insert(i, i).unwrap();
    }
    for i in 0u32..64 {
        assert_eq!(map.get(i), Some(&i));
    }
    assert_eq!(map.insert(64u32, 64u32), Err(CapacityExhausted));
    for i in 0u32..64 {
        assert_eq!(map.get(i), Some(&i));
    }
    assert_eq!(map.get(64u32), None);
}

#[test]
fn colliding_keys_wrap_round() {
    // Keys 3, 7 and 11 start at the last of four slots; the probe wraps.
    let mut map = LinearPrimitiveMap::with_buckets(FixedBuckets::<_, 4>::initialized());
    map.insert(3u8, 'a').unwrap();
    map.insert(7u8, 'b').unwrap();
    map.insert(11u8, 'c').unwrap();
    assert_eq!(map.get(3u8), Some(&'a'));
    assert_eq!(map.get(7u8), Some(&'b'));
    assert_eq!(map.get(11u8), Some(&'c'));
    assert_eq!(map.get(15u8), None);
}

#[test]
fn address_is_deterministic() {
    let map: VecPrimitiveMap<u64, u64> = VecPrimitiveMap::with_capacity(10);
    assert_eq!(map.get_addr(23u64), 3);
    assert_eq!(map.get_addr(23u64), map.get_addr(23u64));
    // The high half of the code is folded onto the low half before reducing.
    // (2^32 + 1) mod 10 == 7.
    assert_eq!(map.get_addr(1u64 << 32), 7);
    let big: VecPrimitiveMap<u64, u64> = VecPrimitiveMap::default();
    assert_eq!(big.get_addr(17u64), 1);
}

#[test]
fn signed_keys_are_distinct() {
    let mut map = VecPrimitiveMap::default();
    map.insert(-1i8, 1u8).unwrap();
    map.insert(127i8, 2u8).unwrap();
    map.insert(-128i8, 3u8).unwrap();
    assert_eq!(map.get(-1i8), Some(&1u8));
    assert_eq!(map.get(127i8), Some(&2u8));
    assert_eq!(map.get(-128i8), Some(&3u8));
    assert_eq!(map.get(0i8), None);
    assert_eq!((-1i32).code(), 0xffff_ffff);
}

#[test]
fn vec_bucket_replaces_and_returns_old_value() {
    let mut b = <VecBucket<u32, u32> as Bucket<u32, u32>>::new();
    assert_eq!(b.insert(1, 10), None);
    assert_eq!(b.insert(2, 20), None);
    assert_eq!(b.insert(1, 11), Some(10));
    assert_eq!(b.get(1), Some(&11));
    assert_eq!(b.get(2), Some(&20));
    assert_eq!(b.get(3), None);
    assert!(!b.reached_max_capacity(3));
}

#[test]
fn option_bucket_is_full_only_for_other_keys() {
    let mut b = <OptionBucket<u32, u32> as Bucket<u32, u32>>::new();
    assert!(!b.reached_max_capacity(1));
    assert_eq!(b.insert(1, 10), None);
    assert!(!b.reached_max_capacity(1));
    assert!(b.reached_max_capacity(2));
    assert_eq!(b.insert(1, 12), Some(10));
    assert_eq!(b.get(1), Some(&12));
    assert_eq!(b.get(2), None);
}

#[test]
fn fixed_list_ignores_requested_size() {
    let mut map = LinearPrimitiveMap::with_buckets(Array64::initialized_with_capacity(3));
    for i in 0u32..64 {
        map.insert(i, i).unwrap();
    }
    assert_eq!(map.insert(100u32, 0u32), Err(CapacityExhausted));
}

#[test]
fn clone_is_independent() {
    let mut map = VecPrimitiveMap::with_capacity(4);
    map.insert(1u32, 10u32).unwrap();
    let copy = map.clone();
    map.insert(1u32, 11u32).unwrap();
    map.insert(2u32, 20u32).unwrap();
    assert_eq!(copy.get(1u32), Some(&10u32));
    assert_eq!(copy.get(2u32), None);
    assert_eq!(map.get(1u32), Some(&11u32));
}

#[test]
fn bucket_get_mut_updates_in_place() {
    let mut b = <VecBucket<u32, u32> as Bucket<u32, u32>>::new();
    b.insert(1, 10);
    b.insert(2, 20);
    *b.get_mut(2).unwrap() += 5;
    assert_eq!(b.get(2), Some(&25));
    assert_eq!(b.get(1), Some(&10));
    assert!(b.get_mut(3).is_none());

    let mut o = <OptionBucket<u32, u32> as Bucket<u32, u32>>::new();
    assert!(o.get_mut(1).is_none());
    o.insert(1, 7);
    *o.get_mut(1).unwrap() = 8;
    assert_eq!(o.get(1), Some(&8));
    assert!(o.get_mut(2).is_none());
}

#[test]
fn custom_keeps_filled_buckets() {
    // Key 5 starts its probe at address 1 of four, but is held in slot 2.
    let mut buckets = Vec::<OptionBucket<u32, u32>>::initialized_with_capacity(4);
    buckets[2].insert(5, 50);
    buckets[0].insert(8, 80);
    let mut map = PrimitiveMap::custom(buckets, primitive_map::DefaultHasher::new());
    assert_eq!(map.get(5), Some(&50));
    assert_eq!(map.get(8), Some(&80));
    assert_eq!(map.get(1), None);
    // Overwriting 5 uses its own slot, not the free slot 1.
    map.insert(5, 55).unwrap();
    map.insert(1, 10).unwrap();
    map.insert(3, 30).unwrap();
    assert_eq!(map.get(5), Some(&55));
    assert_eq!(map.insert(7, 70), Err(CapacityExhausted));
}

#[test]
fn with_buckets_keeps_filled_chaining_buckets() {
    let buckets = Array64::<VecBucket<u8, u8>>::initialized();
    let mut map_buckets = Vec::new();
    map_buckets.push(<VecBucket<u8, u8> as Bucket<u8, u8>>::new());
    map_buckets[0].insert(3, 33);
    map_buckets[0].insert(4, 44);
    let map = VecPrimitiveMap::with_buckets(map_buckets);
    assert_eq!(map.get(3), Some(&33));
    assert_eq!(map.get(4), Some(&44));
    let mut array_map: ArrayPrimitiveMap<u8, u8> = ArrayPrimitiveMap::with_buckets(buckets);
    array_map.insert(200, 1).unwrap();
    assert_eq!(array_map.get(200), Some(&1));
}

#[test]
fn bucket_lists_report_their_length() {
    let fixed = Array64::<OptionBucket<u8, u8>>::initialized_with_capacity(3);
    assert_eq!(BucketList::len(&fixed), 64);
    let dynamic = Vec::<OptionBucket<u8, u8>>::initialized_with_capacity(3);
    assert_eq!(BucketList::<u8, u8, OptionBucket<u8, u8>>::len(&dynamic), 3);
}
