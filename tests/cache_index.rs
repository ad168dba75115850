use peepsat::cache::{CacheIndex, EntryInfo};
use peepsat::recovery::{from_listing, key_of_file, StoredFile};
use std::cell::RefCell;

fn never_fails(_: &str) -> bool {
    true
}

fn index_with(max: u64, entries: &[(&str, u64, u64)]) -> CacheIndex {
    let mut idx = CacheIndex::new(max);
    for (k, size, t) in entries {
        let r = idx.put(k.to_string(), *size, *t, &never_fails);
        assert!(r.removed.is_empty());
    }
    idx
}

#[test]
fn put_then_lookup_reports_size_and_time() {
    let mut idx = CacheIndex::new(1000);
    let r = idx.put("19_0_4_7_8".to_string(), 120, 5, &never_fails);
    assert!(r.removed.is_empty() && r.failed.is_empty());
    assert_eq!(r.freed, 0);
    assert_eq!(idx.lookup("19_0_4_7_8"), Some(EntryInfo { size: 120, last_access: 5 }));
    assert_eq!(idx.lookup("19_0_4_7_9"), None);
    assert_eq!(idx.total_size(), 120);
    assert_eq!(idx.len(), 1);
}

#[test]
fn put_same_bytes_twice_keeps_size() {
    let mut idx = CacheIndex::new(1000);
    idx.put("k".to_string(), 300, 10, &never_fails);
    idx.put("k".to_string(), 300, 12, &never_fails);
    let e = idx.lookup("k").unwrap();
    assert_eq!(e.size, 300);
    assert!(e.last_access >= 10);
    assert_eq!(e.last_access, 12);
    assert_eq!(idx.total_size(), 300);
    assert_eq!(idx.len(), 1);
}

#[test]
fn replacing_an_entry_updates_the_total() {
    let mut idx = index_with(1000, &[("a", 100, 1), ("b", 200, 2)]);
    idx.put("a".to_string(), 50, 3, &never_fails);
    assert_eq!(idx.total_size(), 250);
    assert_eq!(idx.lookup("a"), Some(EntryInfo { size: 50, last_access: 3 }));
}

#[test]
fn touch_refreshes_last_access_only() {
    let mut idx = index_with(1000, &[("a", 100, 1)]);
    assert!(idx.touch("a", 40));
    assert_eq!(idx.lookup("a"), Some(EntryInfo { size: 100, last_access: 40 }));
    assert!(!idx.touch("missing", 41));
    assert_eq!(idx.len(), 1);
}

#[test]
fn put_over_budget_evicts_oldest_first() {
    let mut idx = index_with(1000, &[("a", 400, 3), ("b", 400, 1), ("c", 150, 2)]);
    // total becomes 1250: 250 bytes must go, and "b" is the oldest
    let r = idx.put("d".to_string(), 300, 4, &never_fails);
    assert_eq!(r.removed, vec!["b".to_string()]);
    assert!(r.failed.is_empty());
    assert_eq!(r.freed, 400);
    assert_eq!(idx.total_size(), 850);
    assert!(idx.total_size() <= idx.max_size());
    assert_eq!(idx.lookup("b"), None);
    assert!(idx.lookup("a").is_some() && idx.lookup("c").is_some() && idx.lookup("d").is_some());
}

#[test]
fn eviction_stops_once_enough_is_freed() {
    let mut idx = index_with(10_000, &[("a", 100, 1), ("b", 100, 2), ("c", 100, 3), ("d", 100, 4)]);
    let r = idx.evict_lru(150, &never_fails);
    assert_eq!(r.removed, vec!["a".to_string(), "b".to_string()]);
    assert_eq!(r.freed, 200);
    assert_eq!(idx.len(), 2);
}

#[test]
fn eviction_of_exact_amount_takes_one_entry() {
    let mut idx = index_with(10_000, &[("a", 100, 1), ("b", 100, 2)]);
    let r = idx.evict_lru(100, &never_fails);
    assert_eq!(r.removed, vec!["a".to_string()]);
    assert_eq!(r.freed, 100);
}

#[test]
fn eviction_of_nothing_removes_nothing() {
    let mut idx = index_with(10_000, &[("a", 100, 1)]);
    let r = idx.evict_lru(0, &never_fails);
    assert!(r.removed.is_empty());
    assert_eq!(r.freed, 0);
    assert_eq!(idx.len(), 1);
}

#[test]
fn eviction_ties_go_to_the_smaller_key() {
    let mut idx = index_with(10_000, &[("zeta", 10, 5), ("alpha", 10, 5), ("mid", 10, 5)]);
    let r = idx.evict_lru(15, &never_fails);
    assert_eq!(r.removed, vec!["alpha".to_string(), "mid".to_string()]);
}

#[test]
fn failed_deletion_keeps_entry_and_moves_on() {
    let mut idx = index_with(10_000, &[("a", 100, 1), ("b", 100, 2), ("c", 100, 3)]);
    let tried = RefCell::new(Vec::new());
    let remove = |k: &str| {
        tried.borrow_mut().push(k.to_string());
        k != "a"
    };
    let r = idx.evict_lru(150, &remove);
    assert_eq!(*tried.borrow(), vec!["a".to_string(), "b".to_string(), "c".to_string()]);
    assert_eq!(r.failed, vec!["a".to_string()]);
    assert_eq!(r.removed, vec!["b".to_string(), "c".to_string()]);
    assert_eq!(r.freed, 200);
    assert_eq!(idx.lookup("a"), Some(EntryInfo { size: 100, last_access: 1 }));
    assert_eq!(idx.len(), 1);
}

#[test]
fn eviction_runs_out_of_entries() {
    let mut idx = index_with(10_000, &[("a", 100, 1), ("b", 100, 2)]);
    let r = idx.evict_lru(500, &never_fails);
    assert_eq!(r.removed.len(), 2);
    assert_eq!(r.freed, 200);
    assert_eq!(idx.len(), 0);
    assert_eq!(idx.total_size(), 0);
}

#[test]
fn over_budget_with_failures_reports_them() {
    let mut idx = index_with(100, &[("a", 80, 1)]);
    let r = idx.put("b".to_string(), 80, 2, &|_: &str| false);
    assert!(r.removed.is_empty());
    assert_eq!(r.failed, vec!["a".to_string(), "b".to_string()]);
    assert_eq!(idx.total_size(), 160);
}

#[test]
fn entry_larger_than_budget_evicts_itself_last() {
    let mut idx = index_with(100, &[("a", 50, 1)]);
    let r = idx.put("big".to_string(), 500, 2, &never_fails);
    assert_eq!(r.removed, vec!["a".to_string(), "big".to_string()]);
    assert_eq!(idx.total_size(), 0);
}

#[test]
fn file_stem_is_the_key() {
    assert_eq!(key_of_file("19_2024_4_7_8.png"), "19_2024_4_7_8");
    assert_eq!(key_of_file("a.b.png"), "a.b");
    assert_eq!(key_of_file("noext"), "noext");
    assert_eq!(key_of_file(".hidden"), ".hidden");
    assert_eq!(key_of_file("trailing."), "trailing");
    assert_eq!(key_of_file(".."), "..");
}

#[test]
fn startup_adopts_listed_files() {
    let files = vec![
        StoredFile { name: "19_0_4_7_8.png".to_string(), size: 1234, modified: 100 },
        StoredFile { name: "18_0_2_1_1.png".to_string(), size: 10, modified: 90 },
        StoredFile { name: "stray.txt".to_string(), size: 3, modified: 80 },
    ];
    let idx = from_listing(&files, 1 << 20);
    assert_eq!(idx.len(), 3);
    assert_eq!(idx.lookup("19_0_4_7_8"), Some(EntryInfo { size: 1234, last_access: 100 }));
    assert_eq!(idx.lookup("18_0_2_1_1"), Some(EntryInfo { size: 10, last_access: 90 }));
    assert_eq!(idx.lookup("stray"), Some(EntryInfo { size: 3, last_access: 80 }));
    assert_eq!(idx.total_size(), 1247);
}

#[test]
fn startup_later_file_with_same_stem_wins() {
    let files = vec![
        StoredFile { name: "k.png".to_string(), size: 5, modified: 1 },
        StoredFile { name: "k.jpg".to_string(), size: 7, modified: 2 },
    ];
    let idx = from_listing(&files, 100);
    assert_eq!(idx.len(), 1);
    assert_eq!(idx.lookup("k"), Some(EntryInfo { size: 7, last_access: 2 }));
    assert_eq!(idx.total_size(), 7);
}

#[test]
fn startup_with_empty_directory() {
    let idx = from_listing(&Vec::new(), 100);
    assert_eq!(idx.len(), 0);
    assert_eq!(idx.total_size(), 0);
    assert_eq!(idx.max_size(), 100);
}

#[test]
fn sizes_up_to_the_largest_total() {
    let mut idx = CacheIndex::new(u64::MAX);
    idx.put("a".to_string(), u64::MAX - 1, 1, &never_fails);
    let r = idx.put("b".to_string(), 1, 2, &never_fails);
    assert!(r.removed.is_empty());
    assert_eq!(idx.total_size(), u64::MAX);
    idx.put("a".to_string(), 5, 3, &never_fails);
    assert_eq!(idx.total_size(), 6);
}
