use disk_usage_core::cache::SizeCache;
use disk_usage_core::dir_info::{ls, DirTree, TreeEntry};
use disk_usage_core::FsError;

fn file(path: &str, size: usize) -> TreeEntry {
    TreeEntry::FileEntry { path: path.to_string(), size }
}

fn dir(path: &str, mtime: u64, entries: Option<Vec<TreeEntry>>) -> DirTree {
    DirTree { path: path.to_string(), mtime, entries }
}

fn temp_cache() -> SizeCache {
    let db = sled::Config::new().temporary(true).open().unwrap();
    SizeCache::new(db)
}

fn sample_tree() -> DirTree {
    let sub_a = dir("/p/a", 1, Some(vec![file("/p/a/x", 20)]));
    let sub_b = dir("/p/b", 1, Some(vec![file("/p/b/y", 90)]));
    dir(
        "/p",
        1,
        Some(vec![
            file("/p/small", 10),
            TreeEntry::DirEntry(sub_a),
            file("/p/large", 30),
            TreeEntry::DirEntry(sub_b),
            TreeEntry::OtherEntry,
        ]),
    )
}

#[test]
fn listing_without_sizes_reads_nothing_below_one_level() {
    let tree = sample_tree();
    let mut cache = temp_cache();
    let c = ls(&tree, false, &mut cache).unwrap();
    // no directory sizing happened: nothing was enumerated at all
    assert_eq!(cache.enum_count(), 0);
    assert!(c.directories.iter().all(|d| d.size.is_none()));
    assert_eq!(c.directories.len(), 2);
    // files are still sorted by falling size; absent sizes contribute nothing
    let fs: Vec<usize> = c.files.iter().map(|f| f.size).collect();
    assert_eq!(fs, vec![30, 10]);
    assert_eq!(c.size, 40);
}

#[test]
fn listing_with_sizes_resolves_and_sorts_directories() {
    let tree = sample_tree();
    let mut cache = temp_cache();
    let c = ls(&tree, true, &mut cache).unwrap();
    let fs: Vec<usize> = c.files.iter().map(|f| f.size).collect();
    assert_eq!(fs, vec![30, 10]);
    let ds: Vec<(String, Option<usize>)> =
        c.directories.iter().map(|d| (d.path.clone(), d.size)).collect();
    assert_eq!(
        ds,
        vec![("/p/b".to_string(), Some(90)), ("/p/a".to_string(), Some(20))]
    );
    assert_eq!(c.size, 150);
    assert_eq!(cache.enum_count(), 2);
}

#[test]
fn sized_listing_without_subdirectories_always_succeeds() {
    let tree = dir("/flat", 1, Some(vec![file("/flat/a", 7), file("/flat/b", 3)]));
    let mut cache = temp_cache();
    let c = ls(&tree, true, &mut cache).unwrap();
    assert_eq!(c.size, 10);
    assert!(c.directories.is_empty());
    assert_eq!(cache.enum_count(), 0);
}

#[test]
fn listing_surfaces_an_unreadable_entry() {
    let tree = dir("/e", 1, Some(vec![file("/e/a", 1), TreeEntry::BrokenEntry]));
    let mut cache = temp_cache();
    assert_eq!(ls(&tree, false, &mut cache).unwrap_err(), FsError::Metadata);
}

#[test]
fn listing_an_unenumerable_directory_is_empty() {
    let tree = dir("/none", 1, None);
    let mut cache = temp_cache();
    let c = ls(&tree, true, &mut cache).unwrap();
    assert!(c.files.is_empty());
    assert!(c.directories.is_empty());
    assert_eq!(c.size, 0);
}

#[test]
fn listing_with_sizes_reuses_fresh_records() {
    let tree = sample_tree();
    let mut cache = temp_cache();
    let first = ls(&tree, true, &mut cache).unwrap();
    let walked = cache.enum_count();
    let second = ls(&tree, true, &mut cache).unwrap();
    assert_eq!(cache.enum_count(), walked);
    assert_eq!(first.size, second.size);
}
