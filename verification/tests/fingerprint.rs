use cache_db::{CacheDBHash, FastInsecureHasher, Hashable};
use std::collections::HashSet;

fn fingerprint_under<T: Hashable>(marker: &str, value: T) -> CacheDBHash {
    CacheDBHash::new(
        FastInsecureHasher::new_without_deno_version()
            .write_str(marker)
            .write_hashable(value)
            .finish(),
    )
}

#[test]
fn raw_value_passes_through() {
    for value in [0u64, 1, 42, 0xdead_beef_cafe_f00d, u64::MAX - 1, u64::MAX] {
        assert_eq!(CacheDBHash::new(value).digest(), value);
    }
}

#[test]
fn raw_value_is_not_hashed() {
    assert_ne!(CacheDBHash::new(42), CacheDBHash::from_hashable(42u64));
    assert_eq!(CacheDBHash::new(0).digest(), 0);
}

#[test]
fn from_hashable_is_deterministic() {
    assert_eq!(CacheDBHash::from_hashable("foo"), CacheDBHash::from_hashable("foo"));
    assert_eq!(
        CacheDBHash::from_hashable((vec![1u64, 2, 3], Some("x"))),
        CacheDBHash::from_hashable((vec![1u64, 2, 3], Some("x")))
    );
    assert_eq!(
        CacheDBHash::from_hashable(String::from("foo")).digest(),
        CacheDBHash::from_hashable("foo").digest()
    );
}

#[test]
fn from_hashable_scenario() {
    assert_eq!(CacheDBHash::from_hashable("foo"), CacheDBHash::from_hashable("foo"));
    assert_ne!(CacheDBHash::from_hashable("foo"), CacheDBHash::from_hashable("bar"));
    assert_ne!(fingerprint_under("v1", "foo"), fingerprint_under("v2", "foo"));
    assert_eq!(fingerprint_under("v1", "foo"), fingerprint_under("v1", "foo"));
}

#[test]
fn from_hashable_exact_values() {
    assert_eq!(CacheDBHash::from_hashable("foo").digest(), 0xb6cc_1984_c8bb_7a63);
    assert_eq!(CacheDBHash::from_hashable("bar").digest(), 0x4579_ff8e_9cc2_018a);
    assert_eq!(CacheDBHash::from_hashable(42u64).digest(), 0xfc68_0c49_358c_2a42);
    assert_eq!(CacheDBHash::from_hashable(true).digest(), 0x83d1_960c_70f9_2d50);
    assert_eq!(CacheDBHash::from_hashable((1u8, 2u64)).digest(), 0xc30c_63ac_9830_f8b5);
    assert_eq!(CacheDBHash::from_hashable(vec![1u8, 2, 3]).digest(), 0xc410_f85b_be1d_e53e);
    assert_eq!(CacheDBHash::from_hashable(Some(7u8)).digest(), 0x9efe_4d89_4cad_c013);
    assert_eq!(CacheDBHash::from_hashable(None::<u8>).digest(), 0x9548_b424_2139_0864);
}

#[test]
fn from_hashable_of_a_long_value() {
    let bytes: Vec<u8> = (0u8..200).collect();
    let mut hasher = FastInsecureHasher::new_deno_versioned();
    hasher.write(&bytes);
    assert_eq!(hasher.finish(), 0x7de7_1720_e378_8846);
    let mut by_parts = FastInsecureHasher::new_deno_versioned();
    by_parts.write_u64(200);
    by_parts.write(&bytes);
    assert_eq!(CacheDBHash::from_hashable(bytes).digest(), by_parts.finish());
}

#[test]
fn from_hashable_salts_with_the_version_marker() {
    let salted = CacheDBHash::from_hashable("foo");
    let by_hand = FastInsecureHasher::new_deno_versioned().write_hashable("foo").finish();
    let unsalted = FastInsecureHasher::new_without_deno_version().write_hashable("foo").finish();
    assert_eq!(salted.digest(), by_hand);
    assert_ne!(salted.digest(), unsalted);
    assert_eq!(salted, fingerprint_under("ai-deno-v0", "foo"));
}

#[test]
fn another_version_marker_gives_another_fingerprint() {
    assert_eq!(fingerprint_under("v1", "foo").digest(), 0x9978_795b_8328_5cf0);
    assert_eq!(fingerprint_under("v2", "foo").digest(), 0x9f49_f693_bf00_c123);
    assert_ne!(fingerprint_under("ai-deno-v0", 42u64), fingerprint_under("ai-deno-v1", 42u64));
    assert_ne!(CacheDBHash::from_hashable(42u64), fingerprint_under("ai-deno-v1", 42u64));
}

#[test]
fn the_salt_is_applied_even_to_versioned_input() {
    let inner = CacheDBHash::from_hashable(("ai-deno-v0", "foo"));
    assert_ne!(inner, CacheDBHash::from_hashable("foo"));
    assert_eq!(inner, fingerprint_under("ai-deno-v0", ("ai-deno-v0", "foo")));
}

#[test]
fn fingerprints_compare_by_digest() {
    assert_eq!(CacheDBHash::new(7), CacheDBHash::new(7));
    assert_ne!(CacheDBHash::new(7), CacheDBHash::new(8));
    let source = CacheDBHash::from_hashable("foo");
    let copy = source;
    assert_eq!(copy, source);
    assert_eq!(copy.clone().digest(), source.digest());
}

#[test]
fn fingerprints_serve_as_keys() {
    let mut seen = HashSet::new();
    assert!(seen.insert(CacheDBHash::from_hashable("foo")));
    assert!(seen.insert(CacheDBHash::from_hashable("bar")));
    assert!(!seen.insert(CacheDBHash::from_hashable("foo")));
    assert!(seen.contains(&CacheDBHash::new(0xb6cc_1984_c8bb_7a63)));
    assert_eq!(seen.len(), 2);
}

#[test]
fn fingerprints_can_be_fingerprinted() {
    let left = CacheDBHash::from_hashable("foo");
    let right = CacheDBHash::from_hashable("bar");
    let combined = CacheDBHash::from_hashable((left, right));
    assert_eq!(combined, CacheDBHash::from_hashable((left.digest(), right.digest())));
    assert_ne!(combined, CacheDBHash::from_hashable((right, left)));
}

#[test]
fn fingerprint_can_be_printed_for_debugging() {
    assert_eq!(format!("{:?}", CacheDBHash::new(5)), "CacheDBHash(5)");
}
