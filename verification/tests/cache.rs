use china_operator_ip::cache::{CacheKey, FORMAT_VERSION, cache_file_name, cache_matches, operator_key_input, sorted_sources};
use china_operator_ip::asn::Asn;
use std::collections::HashSet;

fn names(list: &[&str]) -> Vec<String> {
    list.iter().map(|s| s.to_string()).collect()
}

#[test]
fn cache_path_changes_when_origin_only_changes() {
    let mrt_files = names(&["rib-a.gz", "rib-b.gz"]);
    assert_ne!(
        CacheKey::new(false, false, None, &HashSet::new()).path(&mrt_files),
        CacheKey::new(false, true, None, &HashSet::new()).path(&mrt_files)
    );
}

#[test]
fn cache_path_changes_with_domestic_policy() {
    let mrt_files = names(&["rib-a.gz"]);
    assert_ne!(
        CacheKey::new(false, true, None, &HashSet::new()).path(&mrt_files),
        CacheKey::new(false, true, Some(1), &HashSet::new()).path(&mrt_files)
    );
    assert_ne!(
        CacheKey::new(false, true, Some(1), &HashSet::new()).path(&mrt_files),
        CacheKey::new(false, true, Some(2), &HashSet::new()).path(&mrt_files)
    );
}

#[test]
fn cache_path_tracks_operator_asns_independently_of_order() {
    let mrt_files = names(&["rib-a.gz"]);
    let operators = HashSet::from([64496, 64497]);
    let reversed = HashSet::from([64497, 64496]);
    assert_eq!(
        CacheKey::new(false, false, None, &operators).path(&mrt_files),
        CacheKey::new(false, false, None, &reversed).path(&mrt_files)
    );
    assert_ne!(
        CacheKey::new(false, false, None, &operators).path(&mrt_files),
        CacheKey::new(false, false, None, &HashSet::from([64496])).path(&mrt_files)
    );
}

#[test]
fn cache_path_ignores_the_order_of_rib_files() {
    let key = CacheKey::new(true, false, None, &HashSet::new());
    assert_eq!(
        key.path(&names(&["rib-b.gz", "rib-a.gz"])),
        key.path(&names(&["rib-a.gz", "rib-b.gz"]))
    );
    assert_eq!(sorted_sources(&names(&["b", "a", "ab"])), names(&["a", "ab", "b"]));
}

#[test]
fn cache_file_name_has_sixteen_hex_digits() {
    assert_eq!(cache_file_name(0x1234), "cache-0000000000001234.bin");
    assert_eq!(cache_file_name(u64::MAX), "cache-ffffffffffffffff.bin");
    let name = CacheKey::new(false, false, None, &HashSet::new()).path(&names(&["rib-a.gz"]));
    assert!(name.starts_with("cache-") && name.ends_with(".bin") && name.len() == 26);
}

#[test]
fn cache_key_records_options() {
    let key = CacheKey::new(true, false, Some(9), &HashSet::from([1]));
    assert!(key.ignore_private_asn);
    assert!(!key.origin_only);
    assert_eq!(key.domestic_policy_fingerprint, Some(9));
    assert_eq!(key.operator_asns_fingerprint, CacheKey::new(false, true, None, &HashSet::from([1])).operator_asns_fingerprint);
}

#[test]
fn cache_is_used_only_for_the_same_version_and_key() {
    let key = CacheKey::new(false, false, None, &HashSet::new());
    let other = CacheKey::new(false, true, None, &HashSet::new());
    assert!(cache_matches(FORMAT_VERSION, key, key));
    assert!(!cache_matches(FORMAT_VERSION + 1, key, key));
    assert!(!cache_matches(FORMAT_VERSION, other, key));
}

#[test]
fn operator_key_input_is_sorted_and_unique() {
    assert_eq!(
        operator_key_input(&HashSet::from([64497, 4134, 64496])),
        vec![Asn::from(4134), Asn::from(64496), Asn::from(64497)]
    );
}
