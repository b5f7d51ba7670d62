use disk_usage_core::cache::{decode_record, encode_record, CacheRecord, SizeCache};
use disk_usage_core::dir_info::{dir_size, DirTree, TreeEntry};
use disk_usage_core::FsError;

fn file(path: &str, size: usize) -> TreeEntry {
    TreeEntry::FileEntry { path: path.to_string(), size }
}

fn dir(path: &str, mtime: u64, entries: Option<Vec<TreeEntry>>) -> DirTree {
    DirTree { path: path.to_string(), mtime, entries }
}

fn temp_cache() -> SizeCache {
    let db = sled::Config::new().temporary(true).open().unwrap();
    SizeCache::new(db)
}

#[test]
fn codec_round_trips() {
    let rec = CacheRecord { size: 0x0123_4567_89ab_cdef, last_modified: 42 };
    let bytes = encode_record(&rec);
    assert_eq!(bytes.len(), 16);
    assert_eq!(decode_record(&bytes), Some(rec));
}

#[test]
fn codec_rejects_wrong_length() {
    assert_eq!(decode_record(&vec![1u8, 2, 3]), None);
    assert_eq!(decode_record(&Vec::new()), None);
}

#[test]
fn second_unchanged_computation_comes_from_the_cache() {
    let d = dir("/d", 5, Some(vec![file("/d/f", 50)]));
    let mut cache = temp_cache();
    assert_eq!(dir_size(&d, &mut cache), Ok(50));
    assert_eq!(cache.enum_count(), 1);
    // nothing changed: the stored modification time is not older than the
    // current one, so the children are not enumerated again
    assert_eq!(dir_size(&d, &mut cache), Ok(50));
    assert_eq!(cache.enum_count(), 1);
}

#[test]
fn advanced_modification_time_forces_recomputation() {
    let d = dir("/d", 5, Some(vec![file("/d/f", 50)]));
    let mut cache = temp_cache();
    assert_eq!(dir_size(&d, &mut cache), Ok(50));
    assert_eq!(cache.enum_count(), 1);
    // a touched file advanced the directory's own modification time
    let touched = dir("/d", 6, Some(vec![file("/d/f", 70)]));
    assert_eq!(dir_size(&touched, &mut cache), Ok(70));
    assert_eq!(cache.enum_count(), 2);
    // and the fresh record now answers without another enumeration
    assert_eq!(dir_size(&touched, &mut cache), Ok(70));
    assert_eq!(cache.enum_count(), 2);
}

#[test]
fn stale_record_older_than_current_mtime_is_recomputed() {
    let mut cache = temp_cache();
    let old = dir("/s", 3, Some(vec![file("/s/f", 9)]));
    assert_eq!(dir_size(&old, &mut cache), Ok(9));
    let newer = dir("/s", 4, Some(vec![file("/s/f", 11), file("/s/g", 1)]));
    assert_eq!(dir_size(&newer, &mut cache), Ok(12));
}

#[test]
fn unreadable_entries_are_skipped_not_fatal() {
    let d = dir(
        "/lenient",
        1,
        Some(vec![file("/lenient/a", 8), TreeEntry::BrokenEntry, TreeEntry::OtherEntry]),
    );
    let mut cache = temp_cache();
    assert_eq!(dir_size(&d, &mut cache), Ok(8));
}

#[test]
fn corrupt_record_is_surfaced_not_treated_as_miss() {
    let db = sled::Config::new().temporary(true).open().unwrap();
    db.insert("/c".as_bytes(), vec![1u8, 2, 3]).unwrap();
    let mut cache = SizeCache::new(db);
    let d = dir("/c", 1, Some(vec![file("/c/f", 4)]));
    assert_eq!(dir_size(&d, &mut cache), Err(FsError::Corrupt));
}

#[test]
fn preexisting_fresh_record_answers_without_any_walk() {
    let db = sled::Config::new().temporary(true).open().unwrap();
    let rec = CacheRecord { size: 1234, last_modified: 10 };
    let bytes = encode_record(&rec);
    db.insert("/pre".as_bytes(), bytes.as_slice()).unwrap();
    let mut cache = SizeCache::new(db);
    // the directory was last modified at 5, the record at 10: fresh
    let d = dir("/pre", 5, Some(vec![file("/pre/f", 50)]));
    assert_eq!(dir_size(&d, &mut cache), Ok(1234));
    assert_eq!(cache.enum_count(), 0);
}

#[test]
fn nested_recomputation_populates_records_bottom_up() {
    let sub = dir("/n/sub", 2, Some(vec![file("/n/sub/x", 30)]));
    let root = dir("/n", 2, Some(vec![file("/n/top", 5), TreeEntry::DirEntry(sub)]));
    let mut cache = temp_cache();
    assert_eq!(dir_size(&root, &mut cache), Ok(35));
    assert_eq!(cache.enum_count(), 2);
    // the subdirectory's own record is now fresh on its own
    let sub_again = dir("/n/sub", 2, Some(vec![file("/n/sub/x", 30)]));
    assert_eq!(dir_size(&sub_again, &mut cache), Ok(30));
    assert_eq!(cache.enum_count(), 2);
}
