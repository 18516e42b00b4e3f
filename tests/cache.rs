use ogma::cache::{FsCache, LIFESPAN_MS};
use ogma::watch::{apply_changes, changed_paths, relative_path, FsEvent};
use std::sync::Arc;

#[test]
fn get_after_insert_returns_the_value() {
    let mut c: FsCache<String> = FsCache::new();
    let v = Arc::new("table".to_string());
    c.insert("a.csv", "Table", v.clone(), 10);
    let got = c.get("a.csv", "Table", 20).expect("cached");
    assert!(Arc::ptr_eq(&got, &v));
    assert_eq!(c.len(), 1);
}

#[test]
fn second_read_is_a_hit_with_an_equal_value() {
    let mut c: FsCache<Vec<u32>> = FsCache::new();
    assert!(c.get("a.csv", "Table", 0).is_none());
    c.insert("a.csv", "Table", Arc::new(vec![1, 2, 3]), 1);
    let first = c.get("a.csv", "Table", 2).unwrap();
    let second = c.get("a.csv", "Table", 3).unwrap();
    assert_eq!(first, second);
    assert_eq!(*second, vec![1, 2, 3]);
}

#[test]
fn keys_ignore_case_of_path() {
    let mut c: FsCache<u32> = FsCache::new();
    c.insert("Data/A.CSV", "Table", Arc::new(7), 0);
    assert_eq!(c.get("data/a.csv", "Table", 1).as_deref(), Some(&7));
    assert!(c.get("data/a.csv", "Str", 1).is_none());
}

#[test]
fn same_path_different_types_are_separate() {
    let mut c: FsCache<u32> = FsCache::new();
    c.insert("a.csv", "Table", Arc::new(1), 0);
    c.insert("a.csv", "Str", Arc::new(2), 0);
    assert_eq!(c.len(), 2);
    assert_eq!(c.get("a.csv", "Table", 0).as_deref(), Some(&1));
    assert_eq!(c.get("a.csv", "Str", 0).as_deref(), Some(&2));
}

#[test]
fn insert_replaces_existing_key() {
    let mut c: FsCache<u32> = FsCache::new();
    c.insert("a.csv", "Table", Arc::new(1), 0);
    c.insert("A.csv", "Table", Arc::new(2), 5);
    assert_eq!(c.len(), 1);
    assert_eq!(c.get("a.csv", "Table", 6).as_deref(), Some(&2));
}

#[test]
fn remove_path_changes_drops_every_type() {
    let mut c: FsCache<u32> = FsCache::new();
    c.insert("a.csv", "Table", Arc::new(1), 0);
    c.insert("a.csv", "Str", Arc::new(2), 0);
    c.insert("b.csv", "Table", Arc::new(3), 0);
    c.remove_path_changes(&vec!["A.CSV".to_string()]);
    assert!(c.get("a.csv", "Table", 1).is_none());
    assert!(c.get("a.csv", "Str", 1).is_none());
    assert_eq!(c.get("b.csv", "Table", 1).as_deref(), Some(&3));
    c.insert("a.csv", "Table", Arc::new(4), 2);
    assert_eq!(c.get("a.csv", "Table", 3).as_deref(), Some(&4));
}

#[test]
fn remove_path_changes_with_no_paths_keeps_all() {
    let mut c: FsCache<u32> = FsCache::new();
    c.insert("a.csv", "Table", Arc::new(1), 0);
    c.remove_path_changes(&Vec::new());
    assert_eq!(c.len(), 1);
}

#[test]
fn sweep_drops_stale_and_keeps_recent() {
    let mut c: FsCache<u32> = FsCache::new();
    c.insert("old.csv", "Table", Arc::new(1), 0);
    c.insert("new.csv", "Table", Arc::new(2), 100_000);
    c.remove_expired(LIFESPAN_MS + 1, LIFESPAN_MS);
    assert!(c.get("old.csv", "Table", LIFESPAN_MS + 2).is_none());
    assert_eq!(c.get("new.csv", "Table", LIFESPAN_MS + 2).as_deref(), Some(&2));
}

#[test]
fn sweep_boundary_age_is_removed() {
    let mut c: FsCache<u32> = FsCache::new();
    c.insert("a.csv", "Table", Arc::new(1), 0);
    c.remove_expired(LIFESPAN_MS - 1, LIFESPAN_MS);
    assert_eq!(c.len(), 1);
    c.remove_expired(LIFESPAN_MS, LIFESPAN_MS);
    assert_eq!(c.len(), 0);
}

#[test]
fn read_refreshes_access_time() {
    let mut c: FsCache<u32> = FsCache::new();
    c.insert("a.csv", "Table", Arc::new(1), 0);
    assert!(c.get("a.csv", "Table", 150_000).is_some());
    c.remove_expired(200_000, LIFESPAN_MS);
    assert_eq!(c.get("a.csv", "Table", 200_001).as_deref(), Some(&1));
}

#[test]
fn relative_path_strips_root() {
    assert_eq!(relative_path("/data", "/data/a.csv"), Some("a.csv".to_string()));
    assert_eq!(relative_path("/data", "/data/sub/b.csv"), Some("sub/b.csv".to_string()));
    assert_eq!(relative_path("/data", "/database/a.csv"), None);
    assert_eq!(relative_path("/data", "/other/a.csv"), None);
    assert_eq!(relative_path("/data", "/data"), Some(String::new()));
    assert_eq!(relative_path("/", "/a"), Some("a".to_string()));
    assert_eq!(relative_path("/", "/x/y.csv"), Some("x/y.csv".to_string()));
    assert_eq!(relative_path("/data/", "/data/a.csv"), Some("a.csv".to_string()));
}

#[test]
fn changed_paths_collects_each_once() {
    let events = vec![
        FsEvent::Write("/data/a.csv".to_string()),
        FsEvent::Rename("/data/b.csv".to_string(), "/data/c.csv".to_string()),
        FsEvent::Create("/data/a.csv".to_string()),
        FsEvent::Remove("/elsewhere/d.csv".to_string()),
        FsEvent::Other,
    ];
    let mut got = changed_paths("/data", &events);
    got.sort();
    assert_eq!(got, vec!["a.csv".to_string(), "b.csv".to_string(), "c.csv".to_string()]);
}

#[test]
fn change_event_between_reads_forces_reread() {
    let mut c: FsCache<u32> = FsCache::new();
    c.insert("a.csv", "Table", Arc::new(1), 0);
    assert!(c.get("a.csv", "Table", 1).is_some());
    apply_changes(&mut c, "/data", &vec![FsEvent::Write("/data/A.csv".to_string())]);
    assert!(c.get("a.csv", "Table", 2).is_none());
}

#[test]
fn change_under_filesystem_root_reaches_cache() {
    let mut c: FsCache<u32> = FsCache::new();
    c.insert("a", "Table", Arc::new(1), 0);
    assert_eq!(changed_paths("/", &vec![FsEvent::Write("/a".to_string())]), vec!["a".to_string()]);
    apply_changes(&mut c, "/", &vec![FsEvent::Write("/a".to_string())]);
    assert!(c.get("a", "Table", 1).is_none());
}

#[test]
fn unchanged_filesystem_keeps_entry() {
    let mut c: FsCache<u32> = FsCache::new();
    c.insert("a.csv", "Table", Arc::new(1), 0);
    apply_changes(&mut c, "/data", &vec![FsEvent::Other, FsEvent::Write("/data/b.csv".to_string())]);
    assert_eq!(c.get("a.csv", "Table", 2).as_deref(), Some(&1));
}
