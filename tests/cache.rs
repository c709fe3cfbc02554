use audioserve::cache::{CacheError, CacheIndex};
use std::collections::HashMap;

const MY_KEY: &str = "muj_test_1";
const MSG: &str = "Hello there you lonely bastard";

#[test]
fn test_async() {
    // Files are held in memory, by the id the index gives them.
    let mut files: HashMap<u64, Vec<u8>> = HashMap::new();
    let mut c = CacheIndex::new(10, 10000).unwrap();
    let fin = c.add(MY_KEY).unwrap();
    files.insert(fin.file_id(), MSG.as_bytes().to_vec());
    let gone = fin.commit(&mut c, MSG.len() as u64, 1).unwrap();
    assert!(gone.is_empty());
    let got = c.get(MY_KEY, 2).unwrap();
    let s = String::from_utf8(files[&got].clone()).unwrap();
    assert_eq!(MSG, s);
    assert_eq!(s.len(), 30);
}

#[test]
fn limits_must_not_be_zero() {
    assert_eq!(CacheIndex::new(0, 100).unwrap_err(), CacheError::LimitMisconfigured);
    assert_eq!(CacheIndex::new(10, 0).unwrap_err(), CacheError::LimitMisconfigured);
}

#[test]
fn eleventh_entry_evicts_oldest() {
    let mut c = CacheIndex::new(10, 10000).unwrap();
    let mut ids = Vec::new();
    for k in 0..11u64 {
        let key = format!("key{}", k);
        let id = c.add(&key).unwrap().file_id();
        ids.push(id);
        let gone = c.commit(&key, 100, 100 + k).unwrap();
        if k < 10 {
            assert!(gone.is_empty());
        } else {
            assert_eq!(gone, vec![ids[0]]);
        }
    }
    assert_eq!(c.len(), 10);
    assert_eq!(c.total_bytes(), 1000);
    assert_eq!(c.get("key0", 200), None);
    assert_eq!(c.get("key10", 200), Some(ids[10]));
}

#[test]
fn eviction_follows_last_access() {
    let mut c = CacheIndex::new(2, 10000).unwrap();
    for (k, t) in [("a", 1u64), ("b", 2)] {
        c.add(k).unwrap().file_id();
        c.commit(k, 10, t).unwrap();
    }
    let a = c.get("a", 3).unwrap();
    let b_id = c.get("b", 0).unwrap();
    let _ = a;
    c.add("c").unwrap().file_id();
    let gone = c.commit("c", 10, 4).unwrap();
    assert_eq!(gone, vec![b_id]);
    assert!(c.get("a", 5).is_some());
}

#[test]
fn eviction_ties_go_by_fingerprint() {
    let mut c = CacheIndex::new(2, 10000).unwrap();
    let b = c.add("b").unwrap().file_id();
    c.commit("b", 1, 7).unwrap();
    let a = c.add("a").unwrap().file_id();
    c.commit("a", 1, 7).unwrap();
    c.add("z").unwrap().file_id();
    assert_eq!(c.commit("z", 1, 8).unwrap(), vec![a]);
    assert_eq!(c.get("b", 9), Some(b));
}

#[test]
fn byte_limit_evicts_until_it_fits() {
    let mut c = CacheIndex::new(10, 250).unwrap();
    let x = c.add("x").unwrap().file_id();
    c.commit("x", 100, 1).unwrap();
    let y = c.add("y").unwrap().file_id();
    c.commit("y", 100, 2).unwrap();
    let z = c.add("z").unwrap().file_id();
    assert_eq!(c.commit("z", 150, 3).unwrap(), vec![x]);
    assert_eq!(c.total_bytes(), 250);
    assert_eq!(c.free_capacity(), (8, 0));
    c.add("w").unwrap().file_id();
    assert_eq!(c.commit("w", 200, 4).unwrap(), vec![y, z]);
    assert_eq!(c.total_bytes(), 200);
}

#[test]
fn too_large_artifact_is_not_kept() {
    let mut c = CacheIndex::new(10, 250).unwrap();
    let id = c.add("big").unwrap().file_id();
    assert_eq!(c.commit("big", 251, 1).unwrap(), vec![id]);
    assert_eq!(c.len(), 0);
    assert_eq!(c.get("big", 2), None);
}

#[test]
fn second_add_is_refused() {
    let mut c = CacheIndex::new(10, 1000).unwrap();
    assert!(c.add("k").is_ok());
    assert_eq!(c.add("k").unwrap_err(), CacheError::AlreadyPending);
    assert_eq!(c.add("k").unwrap_err(), CacheError::AlreadyPending);
    assert!(c.add("other").is_ok());
}

#[test]
fn rollback_leaves_nothing() {
    let mut c = CacheIndex::new(10, 1000).unwrap();
    let id = c.add("k").unwrap().file_id();
    assert_eq!(c.rollback("k"), Ok(id));
    assert_eq!(c.get("k", 1), None);
    assert_eq!(c.rollback("k"), Err(CacheError::NotPending));
    assert_eq!(c.commit("k", 1, 1), Err(CacheError::NotPending));
    assert!(c.add("k").is_ok());
}

#[test]
fn recommit_replaces_entry() {
    let mut c = CacheIndex::new(10, 1000).unwrap();
    let first = c.add("k").unwrap().file_id();
    c.commit("k", 10, 1).unwrap();
    let second = c.add("k").unwrap().file_id();
    assert_eq!(c.get("k", 2), Some(first));
    assert_eq!(c.commit("k", 20, 3).unwrap(), vec![first]);
    assert_eq!(c.get("k", 4), Some(second));
    assert_eq!(c.len(), 1);
    assert_eq!(c.total_bytes(), 20);
}

#[test]
fn commit_keeps_other_entry() {
    let mut c = CacheIndex::new(10, 1000).unwrap();
    let a = c.add("a").unwrap().file_id();
    c.commit("a", 10, 1).unwrap();
    assert_eq!(c.get("a", 2), Some(a));
    c.add("b").unwrap().file_id();
    c.commit("b", 10, 3).unwrap();
    assert_eq!(c.get("a", 4), Some(a));
    assert_eq!(c.total_bytes(), 20);
}

#[test]
fn zero_byte_artifact_is_stored() {
    let mut c = CacheIndex::new(10, 1000).unwrap();
    let id = c.add("empty").unwrap().file_id();
    assert!(c.commit("empty", 0, 1).unwrap().is_empty());
    assert_eq!(c.get("empty", 2), Some(id));
    assert_eq!(c.total_bytes(), 0);
    assert_eq!(c.len(), 1);
}

#[test]
fn finisher_rolls_back() {
    let mut c = CacheIndex::new(10, 1000).unwrap();
    let fin = c.add("k").unwrap();
    let id = fin.file_id();
    assert_eq!(fin.roll_back(&mut c), Ok(id));
    assert_eq!(c.get("k", 1), None);
    assert!(c.add("k").is_ok());
}

#[test]
fn concurrent_requests_leave_one_entry() {
    // Two requests for the same artifact: the second add is refused, so
    // only the first writes to the cache.
    let mut c = CacheIndex::new(10, 10000).unwrap();
    let first = c.add("/c/long.mp3/h").unwrap();
    assert_eq!(c.add("/c/long.mp3/h").unwrap_err(), CacheError::AlreadyPending);
    first.commit(&mut c, 500, 1).unwrap();
    assert_eq!(c.len(), 1);
    assert!(c.get("/c/long.mp3/h", 2).is_some());
}

#[test]
fn cache_at_capacity_evicts_exactly_one() {
    let mut c = CacheIndex::new(3, 300).unwrap();
    for (k, t) in [("a", 1u64), ("b", 2), ("c", 3)] {
        c.add(k).unwrap().commit(&mut c, 100, t).unwrap();
    }
    assert_eq!(c.free_capacity(), (0, 0));
    let gone = c.add("d").unwrap().commit(&mut c, 100, 4).unwrap();
    assert_eq!(gone.len(), 1);
    assert_eq!(c.len(), 3);
    assert_eq!(c.get("a", 5), None);
}
