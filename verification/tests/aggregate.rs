use disk_usage_core::biggest::Biggest;
use disk_usage_core::dir_info::{dir_info, DirTree, TreeEntry};
use disk_usage_core::FsError;

fn file(path: &str, size: usize) -> TreeEntry {
    TreeEntry::FileEntry { path: path.to_string(), size }
}

fn dir(path: &str, mtime: u64, entries: Option<Vec<TreeEntry>>) -> DirTree {
    DirTree { path: path.to_string(), mtime, entries }
}

#[test]
fn unreadable_subdirectory_counts_as_empty() {
    let tree = dir(
        "/parent",
        1,
        Some(vec![
            file("/parent/a.txt", 100),
            file("/parent/b.txt", 300),
            TreeEntry::DirEntry(dir("/parent/locked", 1, None)),
        ]),
    );
    let mut bd = Biggest::new(10);
    let mut bf = Biggest::new(10);
    let info = dir_info(&tree, &mut bd, &mut bf).unwrap();
    assert_eq!(info.size, 400);
    assert_eq!(info.files_count, 2);
}

#[test]
fn broken_entry_aborts_the_walk() {
    let tree = dir(
        "/parent",
        1,
        Some(vec![file("/parent/a.txt", 1), TreeEntry::BrokenEntry]),
    );
    let mut bd = Biggest::new(2);
    let mut bf = Biggest::new(2);
    assert_eq!(dir_info(&tree, &mut bd, &mut bf), Err(FsError::Metadata));
}

#[test]
fn nested_directories_aggregate_and_feed_the_retainers() {
    let sub = dir(
        "/r/sub",
        1,
        Some(vec![file("/r/sub/x", 40), file("/r/sub/y", 60)]),
    );
    let tree = dir(
        "/r",
        1,
        Some(vec![
            file("/r/top", 10),
            TreeEntry::DirEntry(sub),
            TreeEntry::OtherEntry,
        ]),
    );
    let mut bd = Biggest::new(5);
    let mut bf = Biggest::new(5);
    let info = dir_info(&tree, &mut bd, &mut bf).unwrap();
    assert_eq!(info.size, 110);
    assert_eq!(info.files_count, 3);

    let mut file_sizes: Vec<usize> = bf.values().iter().map(|d| d.size).collect();
    file_sizes.sort();
    assert_eq!(file_sizes, vec![10, 40, 60]);

    let dirs = bd.values();
    assert_eq!(dirs.len(), 1);
    assert_eq!(dirs[0].path, "/r/sub");
    assert_eq!(dirs[0].size, 100);
}

#[test]
fn zero_sized_files_are_counted_but_never_retained() {
    let tree = dir("/z", 1, Some(vec![file("/z/empty", 0), file("/z/full", 2)]));
    let mut bd = Biggest::new(3);
    let mut bf = Biggest::new(3);
    let info = dir_info(&tree, &mut bd, &mut bf).unwrap();
    assert_eq!(info.size, 2);
    assert_eq!(info.files_count, 2);
    assert_eq!(bf.values().len(), 1);
    assert_eq!(bf.values()[0].path, "/z/full");
}

#[test]
fn missing_root_listing_counts_as_empty() {
    let tree = dir("/gone", 1, None);
    let mut bd = Biggest::new(1);
    let mut bf = Biggest::new(1);
    let info = dir_info(&tree, &mut bd, &mut bf).unwrap();
    assert_eq!(info.size, 0);
    assert_eq!(info.files_count, 0);
}
