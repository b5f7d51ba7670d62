//! Aggregation over a directory tree: total size, file count, and the
//! biggest files and subdirectories.
//!
//! The tree is taken as a value: a snapshot of what the filesystem reported,
//! with one node per directory. An entry whose metadata could not be read is
//! a `BrokenEntry`; a directory that could not be enumerated has `entries`
//! absent; entries that are neither plain files nor directories (symbolic
//! links, sockets, devices) are `OtherEntry` and contribute nothing.
use crate::biggest::{lemma_reinsert_prefix_sorted, Biggest, DocInfo};
use crate::cache::{decode_record, encode_record, record_bytes, spec_decode, CacheRecord, SizeCache};
use crate::FsError;
use vstd::prelude::*;

verus! {

/// One enumerated child of a directory, classified by link-aware metadata.
pub enum TreeEntry {
    /// A plain file with its path and size in bytes.
    FileEntry { path: String, size: usize },
    /// A subdirectory to recurse into.
    DirEntry(DirTree),
    /// Neither a plain file nor a directory: skipped.
    OtherEntry,
    /// The metadata of this entry could not be read.
    BrokenEntry,
}

/// A directory node: its path, its own modification time (seconds or any
/// monotone stamp), and its immediate children; `entries` is `None` when
/// the directory could not be enumerated, which counts as empty.
pub struct DirTree {
    pub path: String,
    pub mtime: u64,
    pub entries: Option<Vec<TreeEntry>>,
}

/// Total size in bytes contributed by one entry.
pub open spec fn entry_size(e: TreeEntry) -> nat
    decreases e,
{
    match e {
        TreeEntry::FileEntry { path: _, size } => size as nat,
        TreeEntry::DirEntry(d) => tree_size(d),
        TreeEntry::OtherEntry => 0,
        TreeEntry::BrokenEntry => 0,
    }
}

/// Total size in bytes of a list of entries.
pub open spec fn entries_size(s: Seq<TreeEntry>) -> nat
    decreases s,
{
    if s.len() == 0 {
        0
    } else {
        entries_size(s.drop_last()) + entry_size(s.last())
    }
}

/// Total size in bytes of a directory tree.
pub open spec fn tree_size(t: DirTree) -> nat
    decreases t,
{
    match t.entries {
        Option::Some(es) => entries_size(es@),
        Option::None => 0,
    }
}

/// Number of plain files contributed by one entry.
pub open spec fn entry_files(e: TreeEntry) -> nat
    decreases e,
{
    match e {
        TreeEntry::FileEntry { path: _, size: _ } => 1,
        TreeEntry::DirEntry(d) => tree_files(d),
        TreeEntry::OtherEntry => 0,
        TreeEntry::BrokenEntry => 0,
    }
}

/// Number of plain files in a list of entries.
pub open spec fn entries_files(s: Seq<TreeEntry>) -> nat
    decreases s,
{
    if s.len() == 0 {
        0
    } else {
        entries_files(s.drop_last()) + entry_files(s.last())
    }
}

/// Number of plain files in a directory tree.
pub open spec fn tree_files(t: DirTree) -> nat
    decreases t,
{
    match t.entries {
        Option::Some(es) => entries_files(es@),
        Option::None => 0,
    }
}

/// No entry with unreadable metadata anywhere under this entry.
pub open spec fn entry_ok(e: TreeEntry) -> bool
    decreases e,
{
    match e {
        TreeEntry::FileEntry { path: _, size: _ } => true,
        TreeEntry::DirEntry(d) => tree_ok(d),
        TreeEntry::OtherEntry => true,
        TreeEntry::BrokenEntry => false,
    }
}

/// No entry with unreadable metadata in the list.
pub open spec fn entries_all_ok(s: Seq<TreeEntry>) -> bool
    decreases s,
{
    forall|i: int| 0 <= i < s.len() ==> entry_ok(#[trigger] s[i])
}

/// No entry with unreadable metadata anywhere in the tree.
pub open spec fn tree_ok(t: DirTree) -> bool
    decreases t,
{
    match t.entries {
        Option::Some(es) => entries_all_ok(es@),
        Option::None => true,
    }
}

/// The candidates offered to the file retainer by a walk of one entry, in
/// traversal order: every plain file of positive size, files of a
/// subdirectory before the subdirectory's siblings.
pub open spec fn entry_file_docs(e: TreeEntry) -> Seq<DocInfo>
    decreases e,
{
    match e {
        TreeEntry::FileEntry { path, size } => if size > 0 {
            seq![DocInfo { path, size }]
        } else {
            Seq::empty()
        },
        TreeEntry::DirEntry(d) => tree_file_docs(d),
        TreeEntry::OtherEntry => Seq::empty(),
        TreeEntry::BrokenEntry => Seq::empty(),
    }
}

/// The file candidates of a list of entries, in order.
pub open spec fn entries_file_docs(s: Seq<TreeEntry>) -> Seq<DocInfo>
    decreases s,
{
    if s.len() == 0 {
        Seq::empty()
    } else {
        entries_file_docs(s.drop_last()) + entry_file_docs(s.last())
    }
}

/// The file candidates of a whole tree, in traversal order.
pub open spec fn tree_file_docs(t: DirTree) -> Seq<DocInfo>
    decreases t,
{
    match t.entries {
        Option::Some(es) => entries_file_docs(es@),
        Option::None => Seq::empty(),
    }
}

/// The candidates offered to the directory retainer by a walk of one
/// entry: every subdirectory of positive aggregate size, deepest first.
pub open spec fn entry_dir_docs(e: TreeEntry) -> Seq<DocInfo>
    decreases e,
{
    match e {
        TreeEntry::FileEntry { path: _, size: _ } => Seq::empty(),
        TreeEntry::DirEntry(d) => tree_dir_docs(d) + (if tree_size(d) > 0 {
            seq![DocInfo { path: d.path, size: tree_size(d) as usize }]
        } else {
            Seq::empty()
        }),
        TreeEntry::OtherEntry => Seq::empty(),
        TreeEntry::BrokenEntry => Seq::empty(),
    }
}

/// The directory candidates of a list of entries, in order.
pub open spec fn entries_dir_docs(s: Seq<TreeEntry>) -> Seq<DocInfo>
    decreases s,
{
    if s.len() == 0 {
        Seq::empty()
    } else {
        entries_dir_docs(s.drop_last()) + entry_dir_docs(s.last())
    }
}

/// The directory candidates of a whole tree.
pub open spec fn tree_dir_docs(t: DirTree) -> Seq<DocInfo>
    decreases t,
{
    match t.entries {
        Option::Some(es) => entries_dir_docs(es@),
        Option::None => Seq::empty(),
    }
}

/// Prefixes contribute no more than the whole list, for every measure the
/// walk accumulates.
proof fn lemma_prefix_bounds(s: Seq<TreeEntry>, j: int)
    requires
        0 <= j <= s.len(),
    ensures
        entries_size(s.subrange(0, j)) <= entries_size(s),
        entries_files(s.subrange(0, j)) <= entries_files(s),
        entries_file_docs(s.subrange(0, j)).len() <= entries_file_docs(s).len(),
        entries_dir_docs(s.subrange(0, j)).len() <= entries_dir_docs(s).len(),
    decreases s.len() - j,
{
    if j == s.len() {
        assert(s.subrange(0, j) =~= s);
    } else {
        lemma_prefix_bounds(s, j + 1);
        let pre = s.subrange(0, j);
        let post = s.subrange(0, j + 1);
        assert(post.drop_last() =~= pre);
        assert(post.last() == s[j]);
    }
}

/// Walking one more entry extends every accumulated measure by that entry's
/// own contribution.
proof fn lemma_docs_step(s: Seq<TreeEntry>, i: int)
    requires
        0 <= i < s.len(),
    ensures
        entries_file_docs(s.subrange(0, i + 1)) == entries_file_docs(s.subrange(0, i))
            + entry_file_docs(s[i]),
        entries_dir_docs(s.subrange(0, i + 1)) == entries_dir_docs(s.subrange(0, i))
            + entry_dir_docs(s[i]),
        entries_size(s.subrange(0, i + 1)) == entries_size(s.subrange(0, i)) + entry_size(s[i]),
        entries_files(s.subrange(0, i + 1)) == entries_files(s.subrange(0, i)) + entry_files(s[i]),
{
    let pre = s.subrange(0, i);
    let post = s.subrange(0, i + 1);
    assert(post.drop_last() =~= pre);
    assert(post.last() == s[i]);
    assert(post.len() != 0);
}

/// The aggregate of one directory level: total bytes and file count.
#[derive(Debug, PartialEq, Eq, Structural)]
pub struct DirInfo {
    pub size: usize,
    pub files_count: usize,
}

/// Walk the tree, computing total size and file count, and offer every
/// positive-sized file and subdirectory to the two retainers. A directory
/// that could not be enumerated contributes nothing; an entry whose
/// metadata could not be read aborts the whole walk with an error.
pub fn dir_info(tree: &DirTree, biggest_dirs: &mut Biggest, biggest_files: &mut Biggest) -> (r:
    Result<DirInfo, FsError>)
    requires
        old(biggest_dirs).inv(),
        old(biggest_files).inv(),
        tree_size(*tree) <= usize::MAX,
        tree_files(*tree) <= usize::MAX,
        old(biggest_files).history().len() + tree_file_docs(*tree).len() <= usize::MAX,
        old(biggest_dirs).history().len() + tree_dir_docs(*tree).len() <= usize::MAX,
    ensures
        final(biggest_dirs).inv(),
        final(biggest_files).inv(),
        final(biggest_dirs).capacity() == old(biggest_dirs).capacity(),
        final(biggest_files).capacity() == old(biggest_files).capacity(),
        r is Ok <==> tree_ok(*tree),
        r matches Ok(info) ==> {
            &&& info.size == tree_size(*tree)
            &&& info.files_count == tree_files(*tree)
            &&& final(biggest_files).history() == old(biggest_files).history()
                + tree_file_docs(*tree)
            &&& final(biggest_dirs).history() == old(biggest_dirs).history() + tree_dir_docs(*tree)
        },
        final(biggest_files).history().len() <= old(biggest_files).history().len()
            + tree_file_docs(*tree).len(),
        final(biggest_dirs).history().len() <= old(biggest_dirs).history().len() + tree_dir_docs(
            *tree,
        ).len(),
    decreases *tree,
{
    let mut total_size: usize = 0;
    let mut files_count: usize = 0;

    match &tree.entries {
        Option::None => {
            proof {
                assert(final(biggest_files).history() =~= old(biggest_files).history()
                    + tree_file_docs(*tree));
                assert(final(biggest_dirs).history() =~= old(biggest_dirs).history()
                    + tree_dir_docs(*tree));
            }
            Ok(DirInfo { size: total_size, files_count })
        },
        Option::Some(entries) => {
            let ghost es = entries@;
            let ghost hf0 = biggest_files.history();
            let ghost hd0 = biggest_dirs.history();
            let mut i: usize = 0;
            while i < entries.len()
                invariant
                    i <= es.len(),
                    entries@ == es,
                    tree.entries == Option::Some(*entries),
                    biggest_files.inv(),
                    biggest_dirs.inv(),
                    biggest_files.capacity() == old(biggest_files).capacity(),
                    biggest_dirs.capacity() == old(biggest_dirs).capacity(),
                    entries_size(es) <= usize::MAX,
                    entries_files(es) <= usize::MAX,
                    hf0 == old(biggest_files).history(),
                    hd0 == old(biggest_dirs).history(),
                    hf0.len() + entries_file_docs(es).len() <= usize::MAX,
                    hd0.len() + entries_dir_docs(es).len() <= usize::MAX,
                    total_size == entries_size(es.subrange(0, i as int)),
                    files_count == entries_files(es.subrange(0, i as int)),
                    entries_all_ok(es.subrange(0, i as int)),
                    biggest_files.history() == hf0 + entries_file_docs(es.subrange(0, i as int)),
                    biggest_dirs.history() == hd0 + entries_dir_docs(es.subrange(0, i as int)),
                decreases es.len() - i,
            {
                let ghost pre = es.subrange(0, i as int);
                let ghost post = es.subrange(0, i as int + 1);
                proof {
                    lemma_docs_step(es, i as int);
                    lemma_prefix_bounds(es, i as int + 1);
                }
                match &entries[i] {
                    TreeEntry::BrokenEntry => {
                        proof {
                            assert(!entry_ok(es[i as int]));
                            assert(!entries_all_ok(es));
                        }
                        return Err(FsError::Metadata);
                    },
                    TreeEntry::OtherEntry => {
                        proof {
                            assert(es[i as int] is OtherEntry);
                            assert(entries_file_docs(post) =~= entries_file_docs(pre));
                            assert(entries_dir_docs(post) =~= entries_dir_docs(pre));
                            assert(biggest_files.history() =~= hf0 + entries_file_docs(post));
                            assert(biggest_dirs.history() =~= hd0 + entries_dir_docs(post));
                        }
                    },
                    TreeEntry::FileEntry { path, size } => {
                        total_size += *size;
                        files_count += 1;
                        if biggest_files.is_big_enough(*size) {
                            let doc = DocInfo { path: path.clone(), size: *size };
                            proof {
                                assert(doc == DocInfo { path: *path, size: *size });
                            }
                            biggest_files.insert(doc);
                            proof {
                                assert(biggest_files.history() =~= hf0 + entries_file_docs(post));
                            }
                        } else {
                            proof {
                                if *size > 0 {
                                    // the floor is at least the size, so it is
                                    // positive, so the retainer must be full
                                    crate::biggest::lemma_inv_facts(*biggest_files);
                                    assert(biggest_files.entries().len()
                                        == biggest_files.capacity());
                                }
                            }
                            if *size > 0 {
                                let ghost rdoc = DocInfo { path: *path, size: *size };
                                biggest_files.note_rejected(Ghost(rdoc));
                            }
                            proof {
                                assert(biggest_files.history() =~= hf0 + entries_file_docs(post));
                            }
                        }
                        proof {
                            assert(biggest_dirs.history() =~= hd0 + entries_dir_docs(post));
                        }
                    },
                    TreeEntry::DirEntry(d) => {
                        proof {
                            assert(entry_size(es[i as int]) == tree_size(*d));
                            assert(entry_files(es[i as int]) == tree_files(*d));
                            assert(entry_file_docs(es[i as int]) == tree_file_docs(*d));
                            broadcast use vstd::std_specs::vec::group_vec_axioms;

                            // the recursion descends into a strictly
                            // smaller node: tree -> entry list -> entry -> child
                            assert(decreases_to!(es => es[i as int]));
                            assert(decreases_to!(es[i as int] => *d));
                            let oe = tree.entries;
                            match oe {
                                Option::Some(v) => {
                                    assert(decreases_to!(oe => v));
                                    assert(decreases_to!(v => v@));
                                    assert(v@ == es);
                                },
                                Option::None => {},
                            }
                            assert(decreases_to!(*tree => es));
                        }
                        let sub = dir_info(d, biggest_dirs, biggest_files);
                        match sub {
                            Err(e) => {
                                proof {
                                    assert(!entry_ok(es[i as int]));
                                    assert(!entries_all_ok(es));
                                }
                                return Err(e);
                            },
                            Ok(info) => {
                                total_size += info.size;
                                files_count += info.files_count;
                                proof {
                                    assert(biggest_files.history() =~= hf0 + entries_file_docs(
                                        post,
                                    ));
                                }
                                if biggest_dirs.is_big_enough(info.size) {
                                    let doc = DocInfo { path: d.path.clone(), size: info.size };
                                    proof {
                                        assert(doc == DocInfo {
                                            path: d.path,
                                            size: tree_size(*d) as usize,
                                        });
                                    }
                                    biggest_dirs.insert(doc);
                                    proof {
                                        assert(biggest_dirs.history() =~= hd0 + entries_dir_docs(
                                            post,
                                        ));
                                    }
                                } else {
                                    proof {
                                        if info.size > 0 {
                                            crate::biggest::lemma_inv_facts(*biggest_dirs);
                                            assert(biggest_dirs.entries().len()
                                                == biggest_dirs.capacity());
                                        }
                                    }
                                    if info.size > 0 {
                                        let ghost rdoc = DocInfo {
                                            path: d.path,
                                            size: tree_size(*d) as usize,
                                        };
                                        biggest_dirs.note_rejected(Ghost(rdoc));
                                    }
                                    proof {
                                        assert(biggest_dirs.history() =~= hd0 + entries_dir_docs(
                                            post,
                                        ));
                                    }
                                }
                            },
                        }
                    },
                }
                i += 1;
            }
            proof {
                assert(es.subrange(0, es.len() as int) =~= es);
            }
            Ok(DirInfo { size: total_size, files_count })
        },
    }
}

/// An upper bound on the directory nodes a cache-aware walk of one entry
/// can enumerate.
pub open spec fn entry_dirs(e: TreeEntry) -> nat
    decreases e,
{
    match e {
        TreeEntry::FileEntry { path: _, size: _ } => 0,
        TreeEntry::DirEntry(d) => tree_dirs(d),
        TreeEntry::OtherEntry => 0,
        TreeEntry::BrokenEntry => 0,
    }
}

/// The same bound for a list of entries.
pub open spec fn entries_dirs(s: Seq<TreeEntry>) -> nat
    decreases s,
{
    if s.len() == 0 {
        0
    } else {
        entries_dirs(s.drop_last()) + entry_dirs(s.last())
    }
}

/// An upper bound on the directory nodes a cache-aware walk of the tree
/// can enumerate: the tree's directory nodes, this one included.
pub open spec fn tree_dirs(t: DirTree) -> nat
    decreases t,
{
    1 + match t.entries {
        Option::Some(es) => entries_dirs(es@),
        Option::None => 0,
    }
}

/// The immediate children, with an unenumerable directory counting as empty.
pub open spec fn tree_entries(t: DirTree) -> Seq<TreeEntry> {
    match t.entries {
        Option::Some(es) => es@,
        Option::None => Seq::empty(),
    }
}

/// A stored record is usable and current: present, well-formed, its size
/// representable, and not older than the directory's modification time.
pub open spec fn cache_fresh(m: Map<Seq<char>, Seq<u8>>, key: Seq<char>, mtime: u64) -> bool {
    &&& m.contains_key(key)
    &&& spec_decode(m[key]) is Some
    &&& spec_decode(m[key]).unwrap().size <= usize::MAX
    &&& spec_decode(m[key]).unwrap().last_modified >= mtime
}

/// A stored record is present but unusable: it does not decode, or it
/// claims a size the machine cannot represent.
pub open spec fn cache_corrupt(m: Map<Seq<char>, Seq<u8>>, key: Seq<char>) -> bool {
    &&& m.contains_key(key)
    &&& (spec_decode(m[key]) is None || spec_decode(m[key]).unwrap().size > usize::MAX)
}

/// What the cache-aware walk of one entry computes and how it leaves the
/// store: files contribute their size, directories what their own walk
/// gives, everything else nothing.
pub open spec fn cas_entry(e: TreeEntry, m: Map<Seq<char>, Seq<u8>>) -> (nat, Map<
    Seq<char>,
    Seq<u8>,
>)
    decreases e,
{
    match e {
        TreeEntry::FileEntry { path: _, size } => (size as nat, m),
        TreeEntry::DirEntry(d) => cas_tree(d, m),
        TreeEntry::OtherEntry => (0, m),
        TreeEntry::BrokenEntry => (0, m),
    }
}

/// The cache-aware walk of a list of entries, left to right, threading the
/// store through.
pub open spec fn cas_entries(s: Seq<TreeEntry>, m: Map<Seq<char>, Seq<u8>>) -> (nat, Map<
    Seq<char>,
    Seq<u8>,
>)
    decreases s,
{
    if s.len() == 0 {
        (0, m)
    } else {
        let (v1, m1) = cas_entries(s.drop_last(), m);
        let (v2, m2) = cas_entry(s.last(), m1);
        (v1 + v2, m2)
    }
}

/// The cache-aware size of a directory: the stored size when the stored
/// record is fresh, else the recomputed total, which is then stored under
/// the directory's path together with its modification time.
pub open spec fn cas_tree(t: DirTree, m: Map<Seq<char>, Seq<u8>>) -> (nat, Map<Seq<char>, Seq<u8>>)
    decreases t,
{
    if cache_fresh(m, t.path@, t.mtime) {
        (spec_decode(m[t.path@]).unwrap().size as nat, m)
    } else {
        let (v, m1) = match t.entries {
            Option::Some(es) => cas_entries(es@, m),
            Option::None => (0nat, m),
        };
        (
            v,
            m1.insert(
                t.path@,
                record_bytes(CacheRecord { size: v as u64, last_modified: t.mtime }),
            ),
        )
    }
}

/// Whether the cache-aware walk of one entry consults a key that holds a
/// corrupt record.
pub open spec fn entry_hits_corrupt(e: TreeEntry, m: Map<Seq<char>, Seq<u8>>) -> bool
    decreases e,
{
    match e {
        TreeEntry::DirEntry(d) => cas_hits_corrupt(d, m),
        _ => false,
    }
}

/// Whether the cache-aware walk of a list of entries consults a key that
/// holds a corrupt record, each entry seeing the store its predecessors
/// left behind.
pub open spec fn cas_entries_corrupt(s: Seq<TreeEntry>, m: Map<Seq<char>, Seq<u8>>) -> bool
    decreases s,
{
    if s.len() == 0 {
        false
    } else {
        cas_entries_corrupt(s.drop_last(), m) || entry_hits_corrupt(
            s.last(),
            cas_entries(s.drop_last(), m).1,
        )
    }
}

/// Whether the cache-aware walk of the tree consults a key that holds a
/// corrupt record: the root's own key unless a fresh record answers first,
/// and every key a recursive recomputation reads below it.
pub open spec fn cas_hits_corrupt(t: DirTree, m: Map<Seq<char>, Seq<u8>>) -> bool
    decreases t,
{
    if cache_fresh(m, t.path@, t.mtime) {
        false
    } else if cache_corrupt(m, t.path@) {
        true
    } else {
        match t.entries {
            Option::Some(es) => cas_entries_corrupt(es@, m),
            Option::None => false,
        }
    }
}

/// One more step of the cache-aware walk: the accumulated value and store
/// after `i + 1` entries extend those after `i` by the entry's own walk.
proof fn lemma_cas_step(s: Seq<TreeEntry>, i: int, m: Map<Seq<char>, Seq<u8>>)
    requires
        0 <= i < s.len(),
    ensures
        cas_entries(s.subrange(0, i + 1), m).0 == cas_entries(s.subrange(0, i), m).0 + cas_entry(
            s[i],
            cas_entries(s.subrange(0, i), m).1,
        ).0,
        cas_entries(s.subrange(0, i + 1), m).1 == cas_entry(
            s[i],
            cas_entries(s.subrange(0, i), m).1,
        ).1,
        entries_dirs(s.subrange(0, i + 1)) == entries_dirs(s.subrange(0, i)) + entry_dirs(s[i]),
        cas_entries_corrupt(s.subrange(0, i + 1), m) == (cas_entries_corrupt(s.subrange(0, i), m)
            || entry_hits_corrupt(s[i], cas_entries(s.subrange(0, i), m).1)),
{
    let pre = s.subrange(0, i);
    let post = s.subrange(0, i + 1);
    assert(post.drop_last() =~= pre);
    assert(post.last() == s[i]);
    assert(post.len() != 0);
}

/// Prefixes of the cache-aware walk contribute no more than the whole.
proof fn lemma_cas_prefix(s: Seq<TreeEntry>, j: int, m: Map<Seq<char>, Seq<u8>>)
    requires
        0 <= j <= s.len(),
    ensures
        cas_entries(s.subrange(0, j), m).0 <= cas_entries(s, m).0,
        entries_dirs(s.subrange(0, j)) <= entries_dirs(s),
        cas_entries_corrupt(s.subrange(0, j), m) ==> cas_entries_corrupt(s, m),
    decreases s.len() - j,
{
    if j == s.len() {
        assert(s.subrange(0, j) =~= s);
    } else {
        lemma_cas_prefix(s, j + 1, m);
        lemma_cas_step(s, j, m);
    }
}

/// Compute one directory's aggregate size through the cache: return the
/// stored size when the stored record is not older than the directory's
/// modification time, else recompute bottom-up (entries with unreadable
/// metadata are skipped) and store the new record. Fails when the backing
/// store fails or a stored record is corrupt; a corrupt record is never
/// treated as a miss.
///
/// Staleness is judged by the directory's own modification time alone:
/// this assumes a filesystem that bumps a parent's time when a direct
/// child changes, and detection degrades where that does not hold.
pub fn dir_size(tree: &DirTree, cache: &mut SizeCache) -> (r: Result<usize, FsError>)
    requires
        cas_tree(*tree, old(cache).stored()).0 <= usize::MAX,
        old(cache).enumerations() + tree_dirs(*tree) <= usize::MAX,
    ensures
        final(cache).enumerations() >= old(cache).enumerations(),
        final(cache).enumerations() <= old(cache).enumerations() + tree_dirs(*tree),
        r matches Ok(sz) ==> {
            &&& sz == cas_tree(*tree, old(cache).stored()).0
            &&& final(cache).stored() == cas_tree(*tree, old(cache).stored()).1
        },
        cache_fresh(old(cache).stored(), tree.path@, tree.mtime) && r is Ok ==> {
            &&& final(cache).enumerations() == old(cache).enumerations()
            &&& final(cache).stored() == old(cache).stored()
        },
        cache_corrupt(old(cache).stored(), tree.path@) ==> !(r is Ok),
        r is Ok ==> !cas_hits_corrupt(*tree, old(cache).stored()),
        r == Err::<usize, FsError>(FsError::Corrupt) ==> cas_hits_corrupt(
            *tree,
            old(cache).stored(),
        ),
        r matches Err(e) ==> e == FsError::Store || e == FsError::Corrupt,
        r is Ok && !cache_fresh(old(cache).stored(), tree.path@, tree.mtime) && tree.entries
            is Some ==> final(cache).enumerations() >= old(cache).enumerations() + 1,
    decreases *tree,
{
    let ghost m0 = old(cache).stored();
    let ghost enum0 = old(cache).enumerations();
    proof {
        (*cache).lemma_model();
    }
    match cache.db_get(&tree.path) {
        Err(e) => {
            return Err(e);
        },
        Ok(Some(bytes)) => {
            match decode_record(&bytes) {
                None => {
                    proof {
                        assert(cache_corrupt(m0, tree.path@));
                        assert(cas_hits_corrupt(*tree, m0));
                    }
                    return Err(FsError::Corrupt);
                },
                Some(rec) => {
                    if rec.size <= usize::MAX as u64 {
                        if rec.last_modified >= tree.mtime {
                            proof {
                                assert(cache_fresh(m0, tree.path@, tree.mtime));
                            }
                            return Ok(rec.size as usize);
                        }
                    } else {
                        proof {
                            assert(cache_corrupt(m0, tree.path@));
                            assert(cas_hits_corrupt(*tree, m0));
                        }
                        return Err(FsError::Corrupt);
                    }
                },
            }
        },
        Ok(None) => {},
    }
    proof {
        assert(!cache_fresh(m0, tree.path@, tree.mtime));
        assert(!cache_corrupt(m0, tree.path@));
    }
    let mut total: usize = 0;
    match &tree.entries {
        Option::None => {},
        Option::Some(entries) => {
            let ghost es = entries@;
            cache.count_enumeration();
            let mut i: usize = 0;
            while i < entries.len()
                invariant
                    i <= es.len(),
                    entries@ == es,
                    tree.entries == Option::Some(*entries),
                    cas_entries(es, m0).0 <= usize::MAX,
                    enum0 == old(cache).enumerations(),
                    m0 == old(cache).stored(),
                    enum0 + 1 + entries_dirs(es) <= usize::MAX,
                    total == cas_entries(es.subrange(0, i as int), m0).0,
                    cache.stored() == cas_entries(es.subrange(0, i as int), m0).1,
                    !cas_entries_corrupt(es.subrange(0, i as int), m0),
                    !cache_fresh(m0, tree.path@, tree.mtime),
                    !cache_corrupt(m0, tree.path@),
                    cache.enumerations() >= enum0 + 1,
                    cache.enumerations() <= enum0 + 1 + entries_dirs(es.subrange(0, i as int)),
                decreases es.len() - i,
            {
                let ghost pre = es.subrange(0, i as int);
                let ghost post = es.subrange(0, i as int + 1);
                proof {
                    lemma_cas_step(es, i as int, m0);
                    lemma_cas_prefix(es, i as int + 1, m0);
                }
                match &entries[i] {
                    TreeEntry::BrokenEntry => {},
                    TreeEntry::OtherEntry => {},
                    TreeEntry::FileEntry { path: _, size } => {
                        total += *size;
                    },
                    TreeEntry::DirEntry(d) => {
                        proof {
                            assert(cas_entry(es[i as int], cas_entries(pre, m0).1) == cas_tree(
                                *d,
                                cas_entries(pre, m0).1,
                            ));
                            assert(entry_dirs(es[i as int]) == tree_dirs(*d));
                            // the recursion descends into a strictly
                            // smaller node: tree -> entry list -> entry -> child
                            assert(decreases_to!(es => es[i as int]));
                            assert(decreases_to!(es[i as int] => *d));
                            let oe = tree.entries;
                            match oe {
                                Option::Some(v) => {
                                    assert(decreases_to!(oe => v));
                                    assert(decreases_to!(v => v@));
                                    assert(v@ == es);
                                },
                                Option::None => {},
                            }
                            assert(decreases_to!(*tree => es));
                        }
                        let sub = dir_size(d, cache)?;
                        total += sub;
                    },
                }
                i += 1;
            }
            proof {
                assert(es.subrange(0, es.len() as int) =~= es);
            }
        },
    }
    proof {
        (*cache).lemma_model();
    }
    let rec = CacheRecord { size: total as u64, last_modified: tree.mtime };
    let bytes = encode_record(&rec);
    match cache.db_put(&tree.path, &bytes) {
        Err(e) => Err(e),
        Ok(()) => {
            proof {
                (*cache).lemma_model();
            }
            Ok(total)
        },
    }
}

/// A listed subdirectory: its path and, when directory sizing was
/// requested, its cache-aware aggregate size.
#[derive(Debug)]
pub struct DirContentsInfo {
    pub path: String,
    pub size: Option<usize>,
}

/// A listed plain file: its path and size.
#[derive(Debug)]
pub struct DirContentsFileInfo {
    pub path: String,
    pub size: usize,
}

/// A one-level listing: subdirectories, files, and the total of all file
/// sizes plus all resolved directory sizes (an absent size contributes
/// nothing).
#[derive(Debug)]
pub struct DirContents {
    pub directories: Vec<DirContentsInfo>,
    pub files: Vec<DirContentsFileInfo>,
    pub size: usize,
}

/// What a one-level listing accumulates while walking the immediate
/// children in order.
pub ghost struct LsWalk {
    pub files: Seq<DirContentsFileInfo>,
    pub dirs: Seq<DirContentsInfo>,
    pub total: nat,
    pub map: Map<Seq<char>, Seq<u8>>,
}

/// The listing walk: files are recorded with their size; directories with
/// their cache-aware size when sizing is on, with no size otherwise; other
/// entries are skipped. The store is threaded through the directory sizing.
pub open spec fn ls_walk(s: Seq<TreeEntry>, m: Map<Seq<char>, Seq<u8>>, with_sizes: bool) -> LsWalk
    decreases s,
{
    if s.len() == 0 {
        LsWalk { files: Seq::empty(), dirs: Seq::empty(), total: 0, map: m }
    } else {
        let w = ls_walk(s.drop_last(), m, with_sizes);
        match s.last() {
            TreeEntry::FileEntry { path, size } => LsWalk {
                files: w.files.push(DirContentsFileInfo { path, size }),
                dirs: w.dirs,
                total: w.total + size as nat,
                map: w.map,
            },
            TreeEntry::DirEntry(d) => if with_sizes {
                LsWalk {
                    files: w.files,
                    dirs: w.dirs.push(
                        DirContentsInfo {
                            path: d.path,
                            size: Option::Some(cas_tree(d, w.map).0 as usize),
                        },
                    ),
                    total: w.total + cas_tree(d, w.map).0,
                    map: cas_tree(d, w.map).1,
                }
            } else {
                LsWalk {
                    files: w.files,
                    dirs: w.dirs.push(DirContentsInfo { path: d.path, size: Option::None }),
                    total: w.total,
                    map: w.map,
                }
            },
            TreeEntry::OtherEntry => w,
            TreeEntry::BrokenEntry => w,
        }
    }
}

/// No immediate child has unreadable metadata.
pub open spec fn entries_shallow_ok(s: Seq<TreeEntry>) -> bool {
    forall|i: int| 0 <= i < s.len() ==> !(#[trigger] s[i] is BrokenEntry)
}

/// One more step of the listing walk.
proof fn lemma_ls_step(s: Seq<TreeEntry>, i: int, m: Map<Seq<char>, Seq<u8>>, with_sizes: bool)
    requires
        0 <= i < s.len(),
    ensures
        ls_walk(s.subrange(0, i + 1), m, with_sizes) == (match s[i] {
            TreeEntry::FileEntry { path, size } => LsWalk {
                files: ls_walk(s.subrange(0, i), m, with_sizes).files.push(
                    DirContentsFileInfo { path, size },
                ),
                dirs: ls_walk(s.subrange(0, i), m, with_sizes).dirs,
                total: ls_walk(s.subrange(0, i), m, with_sizes).total + size as nat,
                map: ls_walk(s.subrange(0, i), m, with_sizes).map,
            },
            TreeEntry::DirEntry(d) => if with_sizes {
                LsWalk {
                    files: ls_walk(s.subrange(0, i), m, with_sizes).files,
                    dirs: ls_walk(s.subrange(0, i), m, with_sizes).dirs.push(
                        DirContentsInfo {
                            path: d.path,
                            size: Option::Some(
                                cas_tree(d, ls_walk(s.subrange(0, i), m, with_sizes).map).0 as usize,
                            ),
                        },
                    ),
                    total: ls_walk(s.subrange(0, i), m, with_sizes).total + cas_tree(
                        d,
                        ls_walk(s.subrange(0, i), m, with_sizes).map,
                    ).0,
                    map: cas_tree(d, ls_walk(s.subrange(0, i), m, with_sizes).map).1,
                }
            } else {
                LsWalk {
                    files: ls_walk(s.subrange(0, i), m, with_sizes).files,
                    dirs: ls_walk(s.subrange(0, i), m, with_sizes).dirs.push(
                        DirContentsInfo { path: d.path, size: Option::None },
                    ),
                    total: ls_walk(s.subrange(0, i), m, with_sizes).total,
                    map: ls_walk(s.subrange(0, i), m, with_sizes).map,
                }
            },
            TreeEntry::OtherEntry => ls_walk(s.subrange(0, i), m, with_sizes),
            TreeEntry::BrokenEntry => ls_walk(s.subrange(0, i), m, with_sizes),
        }),
        entries_dirs(s.subrange(0, i + 1)) == entries_dirs(s.subrange(0, i)) + entry_dirs(s[i]),
{
    let pre = s.subrange(0, i);
    let post = s.subrange(0, i + 1);
    assert(post.drop_last() =~= pre);
    assert(post.last() == s[i]);
    assert(post.len() != 0);
}

/// Prefixes of the listing walk contribute no more than the whole.
proof fn lemma_ls_prefix(s: Seq<TreeEntry>, j: int, m: Map<Seq<char>, Seq<u8>>, with_sizes: bool)
    requires
        0 <= j <= s.len(),
    ensures
        ls_walk(s.subrange(0, j), m, with_sizes).total <= ls_walk(s, m, with_sizes).total,
    decreases s.len() - j,
{
    if j == s.len() {
        assert(s.subrange(0, j) =~= s);
    } else {
        lemma_ls_prefix(s, j + 1, m, with_sizes);
        lemma_ls_step(s, j, m, with_sizes);
    }
}

/// The listed files are ordered by non-increasing size.
pub open spec fn files_sorted_desc(s: Seq<DirContentsFileInfo>) -> bool {
    forall|i: int, j: int| 0 <= i <= j < s.len() ==> s[i].size >= s[j].size
}

/// A directory's sort key: its resolved size, with an absent size counting
/// as zero.
pub open spec fn dir_sort_key(d: DirContentsInfo) -> usize {
    match d.size {
        Option::Some(v) => v,
        Option::None => 0,
    }
}

/// The listed directories are ordered by non-increasing resolved size.
pub open spec fn dirs_sorted_desc(s: Seq<DirContentsInfo>) -> bool {
    forall|i: int, j: int| 0 <= i <= j < s.len() ==> dir_sort_key(s[i]) >= dir_sort_key(s[j])
}

/// Sort the listed files by non-increasing size, keeping them as a
/// multiset.
fn sort_files_desc(v: &mut Vec<DirContentsFileInfo>)
    ensures
        final(v)@.to_multiset() == old(v)@.to_multiset(),
        final(v)@.len() == old(v)@.len(),
        files_sorted_desc(final(v)@),
{
    broadcast use vstd::seq_lib::group_to_multiset_ensures;

    let mut i: usize = 1;
    while i < v.len()
        invariant
            v@.len() == 0 || (1 <= i && i <= v@.len()),
            v@.to_multiset() == old(v)@.to_multiset(),
            v@.len() == old(v)@.len(),
            v@.len() > 0 ==> files_sorted_desc(v@.subrange(0, i as int)),
        decreases v@.len() - i,
    {
        let ghost pre = v@;
        let mut j: usize = 0;
        while j < i && v[j].size >= v[i].size
            invariant
                j <= i < v@.len(),
                v@ == pre,
                forall|k: int| 0 <= k < j ==> pre[k].size >= pre[i as int].size,
            decreases i - j,
        {
            j += 1;
        }
        proof {
            pre.to_multiset_ensures();
            assert(pre.contains(pre[i as int]));
            assert(pre.to_multiset().count(pre[i as int]) > 0);
        }
        let ghost jj = j as int;
        let ghost ii = i as int;
        let x = v.remove(i);
        v.insert(j, x);
        proof {
            broadcast use vstd::multiset::group_multiset_axioms;

            let s = pre.remove(ii).insert(jj, pre[ii]);
            let rm = pre.remove(ii);
            assert(v@ =~= s);
            vstd::seq_lib::to_multiset_remove(pre, ii);
            vstd::seq_lib::to_multiset_insert(rm, jj, pre[ii]);
            assert(v@.to_multiset() =~= pre.to_multiset());
            assert(forall|k: int| 0 <= k < i ==> pre.subrange(0, ii)[k] == pre[k]);
            let kpre = Seq::new(pre.len(), |k: int| pre[k].size);
            let kpost = Seq::new(s.len(), |k: int| s[k].size);
            assert(forall|k: int| 0 <= k < jj ==> s[k] == pre[k]);
            assert(s[jj] == pre[ii]);
            assert(forall|k: int| jj < k <= ii ==> s[k] == pre[k - 1]);
            lemma_reinsert_prefix_sorted(kpre, kpost, ii, jj);
            assert(forall|a: int, b: int| 0 <= a <= b <= ii ==> s[a].size >= s[b].size);
            assert(forall|k: int|
                0 <= k <= ii ==> v@.subrange(0, ii + 1)[k] == v@[k]);
        }
        i += 1;
    }
    proof {
        if v@.len() > 0 {
            assert(v@.subrange(0, v@.len() as int) =~= v@);
        }
        assert(files_sorted_desc(v@));
    }
}

/// The resolved size a directory sorts by.
fn dir_key(d: &DirContentsInfo) -> (k: usize)
    ensures
        k == dir_sort_key(*d),
{
    match &d.size {
        Option::Some(v) => *v,
        Option::None => 0,
    }
}

/// Sort the listed directories by non-increasing resolved size, keeping
/// them as a multiset.
fn sort_dirs_desc(v: &mut Vec<DirContentsInfo>)
    ensures
        final(v)@.to_multiset() == old(v)@.to_multiset(),
        final(v)@.len() == old(v)@.len(),
        dirs_sorted_desc(final(v)@),
{
    broadcast use vstd::seq_lib::group_to_multiset_ensures;

    let mut i: usize = 1;
    while i < v.len()
        invariant
            v@.len() == 0 || (1 <= i && i <= v@.len()),
            v@.to_multiset() == old(v)@.to_multiset(),
            v@.len() == old(v)@.len(),
            v@.len() > 0 ==> dirs_sorted_desc(v@.subrange(0, i as int)),
        decreases v@.len() - i,
    {
        let ghost pre = v@;
        let mut j: usize = 0;
        while j < i && dir_key(&v[j]) >= dir_key(&v[i])
            invariant
                j <= i < v@.len(),
                v@ == pre,
                forall|k: int| 0 <= k < j ==> dir_sort_key(pre[k]) >= dir_sort_key(pre[i as int]),
            decreases i - j,
        {
            j += 1;
        }
        proof {
            pre.to_multiset_ensures();
            assert(pre.contains(pre[i as int]));
            assert(pre.to_multiset().count(pre[i as int]) > 0);
        }
        let ghost jj = j as int;
        let ghost ii = i as int;
        let x = v.remove(i);
        v.insert(j, x);
        proof {
            broadcast use vstd::multiset::group_multiset_axioms;

            let s = pre.remove(ii).insert(jj, pre[ii]);
            let rm = pre.remove(ii);
            assert(v@ =~= s);
            vstd::seq_lib::to_multiset_remove(pre, ii);
            vstd::seq_lib::to_multiset_insert(rm, jj, pre[ii]);
            assert(v@.to_multiset() =~= pre.to_multiset());
            assert(forall|k: int| 0 <= k < i ==> pre.subrange(0, ii)[k] == pre[k]);
            let kpre = Seq::new(pre.len(), |k: int| dir_sort_key(pre[k]));
            let kpost = Seq::new(s.len(), |k: int| dir_sort_key(s[k]));
            assert(forall|k: int| 0 <= k < jj ==> s[k] == pre[k]);
            assert(s[jj] == pre[ii]);
            assert(forall|k: int| jj < k <= ii ==> s[k] == pre[k - 1]);
            lemma_reinsert_prefix_sorted(kpre, kpost, ii, jj);
            assert(forall|a: int, b: int|
                0 <= a <= b <= ii ==> dir_sort_key(s[a]) >= dir_sort_key(s[b]));
            assert(forall|k: int|
                0 <= k <= ii ==> v@.subrange(0, ii + 1)[k] == v@[k]);
        }
        i += 1;
    }
    proof {
        if v@.len() > 0 {
            assert(v@.subrange(0, v@.len() as int) =~= v@);
        }
        assert(dirs_sorted_desc(v@));
    }
}

/// List the immediate children of a directory. Files carry their size;
/// subdirectories carry their cache-aware aggregate size when sizing is
/// requested and no size otherwise. Files are ordered by non-increasing
/// size, directories likewise but only when sizes were computed. The total
/// is every file size plus every resolved directory size. An entry with
/// unreadable metadata aborts the listing; without sizing the listing
/// touches neither the cache nor anything below the immediate children.
pub fn ls(tree: &DirTree, show_dir_size: bool, cache: &mut SizeCache) -> (r: Result<
    DirContents,
    FsError,
>)
    requires
        ls_walk(tree_entries(*tree), old(cache).stored(), show_dir_size).total <= usize::MAX,
        show_dir_size ==> old(cache).enumerations() + entries_dirs(tree_entries(*tree))
            <= usize::MAX,
    ensures
        final(cache).enumerations() >= old(cache).enumerations(),
        !show_dir_size ==> {
            &&& final(cache).stored() == old(cache).stored()
            &&& final(cache).enumerations() == old(cache).enumerations()
            &&& (r is Ok <==> entries_shallow_ok(tree_entries(*tree)))
        },
        r is Ok ==> entries_shallow_ok(tree_entries(*tree)),
        show_dir_size && (forall|i: int|
            0 <= i < tree_entries(*tree).len() ==> !(#[trigger] tree_entries(*tree)[i]
                is DirEntry)) ==> (r is Ok <==> entries_shallow_ok(tree_entries(*tree))),
        r matches Err(e) ==> {
            &&& (e == FsError::Metadata ==> !entries_shallow_ok(tree_entries(*tree)))
            &&& (e != FsError::Metadata ==> show_dir_size && (e == FsError::Store || e
                == FsError::Corrupt))
        },
        r matches Ok(c) ==> {
            let w = ls_walk(tree_entries(*tree), old(cache).stored(), show_dir_size);
            &&& c.files@.to_multiset() == w.files.to_multiset()
            &&& files_sorted_desc(c.files@)
            &&& c.size == w.total
            &&& final(cache).stored() == w.map
            &&& (show_dir_size ==> c.directories@.to_multiset() == w.dirs.to_multiset()
                && dirs_sorted_desc(c.directories@))
            &&& (!show_dir_size ==> c.directories@ == w.dirs && (forall|k: int|
                0 <= k < c.directories@.len() ==> (#[trigger] c.directories@[k]).size is None))
        },
{
    broadcast use vstd::seq_lib::group_to_multiset_ensures;

    let ghost m0 = old(cache).stored();
    let ghost enum0 = old(cache).enumerations();
    let mut files: Vec<DirContentsFileInfo> = Vec::new();
    let mut dirs: Vec<DirContentsInfo> = Vec::new();
    let mut total: usize = 0;

    match &tree.entries {
        Option::None => {},
        Option::Some(entries) => {
            let ghost es = entries@;
            let mut i: usize = 0;
            while i < entries.len()
                invariant
                    i <= es.len(),
                    entries@ == es,
                    tree.entries == Option::Some(*entries),
                    m0 == old(cache).stored(),
                    enum0 == old(cache).enumerations(),
                    ls_walk(es, m0, show_dir_size).total <= usize::MAX,
                    show_dir_size ==> enum0 + entries_dirs(es) <= usize::MAX,
                    files@ == ls_walk(es.subrange(0, i as int), m0, show_dir_size).files,
                    dirs@ == ls_walk(es.subrange(0, i as int), m0, show_dir_size).dirs,
                    total == ls_walk(es.subrange(0, i as int), m0, show_dir_size).total,
                    cache.stored() == ls_walk(es.subrange(0, i as int), m0, show_dir_size).map,
                    cache.enumerations() >= enum0,
                    cache.enumerations() <= enum0 + entries_dirs(es.subrange(0, i as int)),
                    !show_dir_size ==> cache.stored() == m0 && cache.enumerations() == enum0,
                    !show_dir_size ==> forall|k: int|
                        0 <= k < dirs@.len() ==> (#[trigger] dirs@[k]).size is None,
                    entries_shallow_ok(es.subrange(0, i as int)),
                decreases es.len() - i,
            {
                let ghost pre = es.subrange(0, i as int);
                let ghost post = es.subrange(0, i as int + 1);
                proof {
                    lemma_ls_step(es, i as int, m0, show_dir_size);
                    lemma_ls_prefix(es, i as int + 1, m0, show_dir_size);
                    lemma_cas_prefix(es, i as int + 1, m0);
                }
                match &entries[i] {
                    TreeEntry::BrokenEntry => {
                        proof {
                            assert(es[i as int] is BrokenEntry);
                            assert(!entries_shallow_ok(es));
                        }
                        return Err(FsError::Metadata);
                    },
                    TreeEntry::OtherEntry => {},
                    TreeEntry::FileEntry { path, size } => {
                        files.push(DirContentsFileInfo { path: path.clone(), size: *size });
                        total += *size;
                    },
                    TreeEntry::DirEntry(d) => {
                        if show_dir_size {
                            proof {
                                assert(entry_dirs(es[i as int]) == tree_dirs(*d));
                                assert(tree_entries(*tree)[i as int] is DirEntry);
                            }
                            let sub = match dir_size(d, cache) {
                                Ok(v) => v,
                                Err(e) => {
                                    return Err(e);
                                },
                            };
                            dirs.push(
                                DirContentsInfo { path: d.path.clone(), size: Some(sub) },
                            );
                            total += sub;
                        } else {
                            dirs.push(DirContentsInfo { path: d.path.clone(), size: None });
                        }
                    },
                }
                i += 1;
            }
            proof {
                assert(es.subrange(0, es.len() as int) =~= es);
            }
        },
    }
    sort_files_desc(&mut files);
    if show_dir_size {
        sort_dirs_desc(&mut dirs);
    }
    Ok(DirContents { directories: dirs, files, size: total })
}

} // verus!
