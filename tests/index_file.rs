use audioserve::cache::{CacheEntry, CacheIndex};
use audioserve::index_file::{index_to_text, parse_index};

fn entry(key: &str, size: u64, last: u64, id: u64) -> CacheEntry {
    CacheEntry { key: key.to_string(), size, last_access: last, file_id: id }
}

#[test]
fn index_text_format() {
    let v = vec![entry("a b", 10, 20, 3), entry("ž\n|", 0, 1, 4)];
    assert_eq!(index_to_text(&v), "3 10 20 3 a b\n4 0 1 3 ž\n|\n");
}

#[test]
fn index_round_trip() {
    let v = vec![entry("/m/a.mp3/h", 1000, 17, 0), entry("weird key\nwith 5 6 7", 5, 9, 12)];
    let back = parse_index(&index_to_text(&v)).unwrap();
    assert_eq!(back.len(), 2);
    for (a, b) in v.iter().zip(back.iter()) {
        assert_eq!((&a.key, a.size, a.last_access, a.file_id), (&b.key, b.size, b.last_access, b.file_id));
    }
    assert_eq!(parse_index("").unwrap().len(), 0);
}

#[test]
fn malformed_index() {
    assert!(parse_index("1 2 3").is_none());
    assert!(parse_index("1 2 3 5 ab\n").is_none());
    assert!(parse_index("x 2 3 1 a\n").is_none());
    assert!(parse_index("99999999999999999999 2 3 1 a\n").is_none());
}

#[test]
fn save_and_open_keeps_entries() {
    let mut c = CacheIndex::new(10, 1000).unwrap();
    for (k, t) in [("a", 5u64), ("b", 6), ("c", 7)] {
        c.add(k).unwrap().file_id();
        c.commit(k, 100, t).unwrap();
    }
    let text = index_to_text(c.entries_list());
    let saved = parse_index(&text).unwrap();
    let present: Vec<u64> = c.entries_list().iter().map(|e| e.file_id).collect();
    let mut d = CacheIndex::restore(10, 1000, saved, &present).unwrap();
    assert_eq!(d.len(), 3);
    assert_eq!(d.total_bytes(), 300);
    assert_eq!(d.get("b", 8), c.get("b", 8));
    // A new artifact gets an id that no restored entry uses.
    let id = d.add("z").unwrap().file_id();
    assert!(!present.contains(&id));
}

#[test]
fn open_drops_missing_files_and_orphans() {
    let saved = vec![entry("a", 10, 1, 0), entry("b", 10, 2, 1), entry("a", 10, 3, 2)];
    let present = vec![1, 2, 0, 7];
    let c = CacheIndex::restore(10, 1000, saved, &present).unwrap();
    assert_eq!(c.len(), 2);
    let mut orphans = c.orphan_ids(&present);
    orphans.sort();
    assert_eq!(orphans, vec![2, 7]);
    let saved = vec![entry("a", 10, 1, 0), entry("b", 10, 2, 1)];
    let c = CacheIndex::restore(10, 1000, saved, &vec![1]).unwrap();
    assert_eq!(c.len(), 1);
    assert_eq!(c.orphan_ids(&vec![1]), Vec::<u64>::new());
}

#[test]
fn open_respects_limits() {
    let saved = vec![entry("a", 600, 1, 0), entry("b", 600, 2, 1), entry("c", 1, 3, 2)];
    let c = CacheIndex::restore(2, 1000, saved, &vec![0, 1, 2]).unwrap();
    assert_eq!(c.len(), 2);
    assert_eq!(c.total_bytes(), 601);
    assert!(CacheIndex::restore(0, 1000, vec![], &vec![]).is_err());
}
