use primitive_map::{
    Array1024, Array64, BucketListNew, DefaultHasher, LinearPrimitiveMap, OptionBucket,
    PrimitiveMap, VecPrimitiveMap,
};

#[test]
fn create_vec() {
    let mut map = VecPrimitiveMap::default();
    map.insert(1, 1).unwrap();
    map.get(1);
}

#[test]
fn create_lp() {
    let mut map = LinearPrimitiveMap::with_buckets(Array64::initialized());
    map.insert(1, 1).unwrap();
    map.get(1);
}

#[test]
fn create_custom() {
    let buckets = Vec::<OptionBucket<_, _>>::initialized_with_capacity(1000);
    let hasher = DefaultHasher::new();
    let mut map = PrimitiveMap::custom(buckets, hasher);
    map.insert(1, 1).unwrap();
    map.get(1);
}

#[test]
fn insert_dynamic() {
    let mut map = VecPrimitiveMap::default();
    map.insert(0u8, 10u32).unwrap();
}

#[test]
fn insert_fixed() {
    let mut map = LinearPrimitiveMap::with_buckets(Array64::initialized());
    map.insert(0u16, 10u32).unwrap();
}

#[test]
fn get_empty_dynamic() {
    let map = VecPrimitiveMap::default();
    assert_eq!(map.get(0u32), None::<&u32>);
}

#[test]
fn get_empty_fixed() {
    let map = LinearPrimitiveMap::with_buckets(Array64::initialized());
    assert_eq!(map.get(0u32), None::<&u32>);
}

#[test]
fn insert_and_get_dynamic() {
    let mut map = VecPrimitiveMap::default();
    map.insert(0i8, 10u32).unwrap();
    assert_eq!(map.get(0i8), Some(&10u32));
}

#[test]
fn insert_and_get_fixed() {
    let mut map = LinearPrimitiveMap::with_buckets(Array64::initialized());
    map.insert(0i16, 10u32).unwrap();
    assert_eq!(map.get(0i16), Some(&10u32));
}

#[test]
fn insert_saturate_buckets_dynamic() {
    let mut map = VecPrimitiveMap::with_capacity(100);
    for i in 0..10000 {
        map.insert(i, i).unwrap();
    }
    for i in 0..10000 {
        assert_eq!(map.get(i), Some(&i))
    }
}

#[test]
fn insert_full_load_linear_probing() {
    let mut map = LinearPrimitiveMap::with_buckets(Array1024::initialized());
    for i in 0..1024 {
        map.insert(i, i).unwrap();
    }
    for i in 0..1024 {
        assert_eq!(map.get(i), Some(&i))
    }
}
