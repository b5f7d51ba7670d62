//! A bounded retainer that keeps only the `keep_count` largest entries,
//! by size, out of an arbitrarily long stream of insertions.
use vstd::multiset::Multiset;
use vstd::prelude::*;

verus! {

/// A labelled size: a filesystem path together with the number of bytes
/// it occupies.
pub struct DocInfo {
    pub path: String,
    pub size: usize,
}

impl Clone for DocInfo {
    fn clone(&self) -> (r: Self)
        ensures
            r == *self,
    {
        DocInfo { path: self.path.clone(), size: self.size }
    }
}

/// The entries of `s` are ordered by non-increasing size.
pub open spec fn sorted_desc(s: Seq<DocInfo>) -> bool {
    forall|i: int, j: int| 0 <= i <= j < s.len() ==> s[i].size >= s[j].size
}

/// After removing the entry at `i` and re-inserting it at `j` — the first
/// position whose key is strictly smaller — a prefix of keys sorted
/// non-increasingly up to `i` stays sorted up to and including `i`.
pub(crate) proof fn lemma_reinsert_prefix_sorted(
    pre: Seq<usize>,
    post: Seq<usize>,
    i: int,
    j: int,
)
    requires
        0 <= j <= i < pre.len(),
        i < post.len(),
        forall|a: int, b: int| 0 <= a <= b < i ==> pre[a] >= pre[b],
        forall|k: int| 0 <= k < j ==> pre[k] >= pre[i],
        j < i ==> pre[j] < pre[i],
        forall|k: int| 0 <= k < j ==> post[k] == pre[k],
        post[j] == pre[i],
        forall|k: int| j < k <= i ==> post[k] == pre[k - 1],
    ensures
        forall|a: int, b: int| 0 <= a <= b <= i ==> post[a] >= post[b],
{
    assert forall|a: int, b: int| 0 <= a <= b <= i implies post[a] >= post[b] by {
        if b < j {
            assert(post[a] >= post[b]);
        } else if b == j {
            if a < j {
                assert(pre[a] >= pre[i]);
            }
        } else {
            // b > j, so post[b] == pre[b - 1] with j <= b - 1 < i
            if a < j {
                assert(pre[a] >= pre[b - 1]);
            } else if a == j {
                assert(pre[j] < pre[i]);
                assert(pre[j] >= pre[b - 1]);
            } else {
                assert(pre[a - 1] >= pre[b - 1]);
            }
        }
    }
}

/// Where a stable descending sort puts one entry into an already sorted
/// sequence: after every entry at least as big, before the first strictly
/// smaller one.
pub open spec fn place_desc(s: Seq<DocInfo>, x: DocInfo) -> Seq<DocInfo>
    decreases s.len(),
{
    if s.len() == 0 {
        seq![x]
    } else if s[0].size >= x.size {
        seq![s[0]] + place_desc(s.drop_first(), x)
    } else {
        seq![x] + s
    }
}

/// The stable sort by non-increasing size: entries of equal size keep
/// their relative order.
pub open spec fn stable_sort_desc(s: Seq<DocInfo>) -> Seq<DocInfo>
    decreases s.len(),
{
    if s.len() == 0 {
        Seq::empty()
    } else {
        place_desc(stable_sort_desc(s.drop_last()), s.last())
    }
}

/// Placing into a sorted sequence splits it exactly at the first strictly
/// smaller entry.
proof fn lemma_place_at(s: Seq<DocInfo>, x: DocInfo, j: int)
    requires
        sorted_desc(s),
        0 <= j <= s.len(),
        forall|k: int| 0 <= k < j ==> s[k].size >= x.size,
        j < s.len() ==> s[j].size < x.size,
    ensures
        place_desc(s, x) == s.subrange(0, j) + seq![x] + s.subrange(j, s.len() as int),
    decreases j,
{
    if j == 0 {
        if s.len() == 0 {
            assert(place_desc(s, x) =~= s.subrange(0, 0) + seq![x] + s.subrange(0, 0));
        } else {
            assert(place_desc(s, x) =~= s.subrange(0, 0) + seq![x] + s.subrange(
                0,
                s.len() as int,
            ));
        }
    } else {
        let t = s.drop_first();
        assert(forall|k: int| 0 <= k < t.len() ==> t[k] == s[k + 1]);
        lemma_place_at(t, x, j - 1);
        assert(place_desc(s, x) == seq![s[0]] + place_desc(t, x));
        assert(place_desc(s, x) =~= s.subrange(0, j) + seq![x] + s.subrange(j, s.len() as int));
    }
}

/// A data structure that retains only the `keep_count` biggest inserted
/// entries. `min_size` is the admission floor: once the retainer is full
/// and has re-sorted, it equals the smallest retained size; before that
/// it stays at zero.
pub struct Biggest {
    values: Vec<DocInfo>,
    min_size: usize,
    keep_count: usize,
    sort_count: usize,
    hist: Ghost<Seq<DocInfo>>,
}

impl Biggest {
    /// The fixed capacity chosen at construction.
    pub closed spec fn capacity(self) -> usize {
        self.keep_count
    }

    /// The current admission floor.
    pub closed spec fn floor(self) -> usize {
        self.min_size
    }

    /// The currently retained entries, in their current order.
    pub closed spec fn entries(self) -> Seq<DocInfo> {
        self.values@
    }

    /// Every entry ever inserted, in insertion order.
    pub closed spec fn history(self) -> Seq<DocInfo> {
        self.hist@
    }

    /// How many full re-sorts have happened.
    pub closed spec fn sorts(self) -> usize {
        self.sort_count
    }

    /// Well-formedness: the retained entries are at most `capacity` many,
    /// and they are always among the largest of everything inserted so far:
    /// while filling, they are exactly the history; once full, every entry
    /// that was left out is no bigger than the floor, and the floor is no
    /// bigger than any retained entry.
    pub closed spec fn inv(self) -> bool {
        &&& self.keep_count > 0
        &&& self.values@.len() <= self.keep_count
        &&& self.sort_count <= self.hist@.len()
        &&& if self.hist@.len() < self.keep_count {
            &&& self.values@ == self.hist@
            &&& self.min_size == 0
        } else {
            &&& self.values@.len() == self.keep_count
            &&& forall|i: int|
                0 <= i < self.values@.len() ==> self.min_size <= #[trigger] self.values@[i].size
            &&& self.values@.to_multiset().subset_of(self.hist@.to_multiset())
            &&& forall|d: DocInfo|
                #[trigger] self.hist@.to_multiset().count(d) > self.values@.to_multiset().count(d)
                    ==> d.size <= self.min_size
        }
    }

    /// Make an empty retainer for the `keep_count` biggest entries.
    pub fn new(keep_count: usize) -> (r: Biggest)
        requires
            keep_count > 0,
        ensures
            r.inv(),
            r.capacity() == keep_count,
            r.entries() == Seq::<DocInfo>::empty(),
            r.history() == Seq::<DocInfo>::empty(),
            r.floor() == 0,
            r.sorts() == 0,
    {
        Biggest {
            values: Vec::new(),
            min_size: 0,
            keep_count,
            sort_count: 0,
            hist: Ghost(Seq::empty()),
        }
    }

    /// Is an entry of this size big enough to possibly belong among the
    /// `keep_count` biggest? Advisory: `insert` re-checks on its own.
    pub fn is_big_enough(&self, size: usize) -> (r: bool)
        ensures
            r == (size > self.floor()),
    {
        size > self.min_size
    }

    /// The number of full re-sorts performed so far (diagnostic).
    pub fn sort_count(&self) -> (r: usize)
        ensures
            r == self.sorts(),
    {
        self.sort_count
    }

    /// A copy of the retained entries, in their current order.
    pub fn values(&self) -> (r: Vec<DocInfo>)
        ensures
            r@ == self.entries(),
    {
        let mut out: Vec<DocInfo> = Vec::new();
        let mut i: usize = 0;
        while i < self.values.len()
            invariant
                i <= self.values@.len(),
                out@ == self.values@.subrange(0, i as int),
            decreases self.values@.len() - i,
        {
            out.push(self.values[i].clone());
            i += 1;
        }
        proof {
            assert(out@ =~= self.values@);
        }
        out
    }

    /// Re-sort the retained entries by non-increasing size and count the
    /// re-sort. The sort is stable: entries of equal size keep their
    /// relative order, so ties go on being broken by insertion order.
    fn sort(&mut self)
        requires
            old(self).sort_count < usize::MAX,
        ensures
            final(self).values@ == stable_sort_desc(old(self).values@),
            final(self).values@.to_multiset() == old(self).values@.to_multiset(),
            final(self).values@.len() == old(self).values@.len(),
            sorted_desc(final(self).values@),
            final(self).sort_count == old(self).sort_count + 1,
            final(self).min_size == old(self).min_size,
            final(self).keep_count == old(self).keep_count,
            final(self).hist == old(self).hist,
    {
        broadcast use vstd::seq_lib::group_to_multiset_ensures;

        self.sort_count += 1;
        proof {
            assert(stable_sort_desc(Seq::<DocInfo>::empty()) == Seq::<DocInfo>::empty());
            if self.values@.len() > 0 {
                let o1 = self.values@.subrange(0, 1);
                assert(o1.drop_last() =~= Seq::<DocInfo>::empty());
                assert(place_desc(Seq::<DocInfo>::empty(), o1.last()) =~= seq![o1.last()]);
                assert(stable_sort_desc(o1) =~= self.values@.subrange(0, 1));
            }
        }
        let mut i: usize = 1;
        while i < self.values.len()
            invariant
                self.values@.len() == 0 || (1 <= i && i <= self.values@.len()),
                self.values@.to_multiset() == old(self).values@.to_multiset(),
                self.values@.len() == old(self).values@.len(),
                self.values@.subrange(i as int, self.values@.len() as int) == old(
                    self,
                ).values@.subrange(i as int, old(self).values@.len() as int),
                self.values@.len() > 0 ==> self.values@.subrange(0, i as int) == stable_sort_desc(
                    old(self).values@.subrange(0, i as int),
                ),
                self.values@.len() > 0 ==> sorted_desc(self.values@.subrange(0, i as int)),
                self.sort_count == old(self).sort_count + 1,
                self.min_size == old(self).min_size,
                self.keep_count == old(self).keep_count,
                self.hist == old(self).hist,
            decreases self.values@.len() - i,
        {
            let ghost pre = self.values@;
            let mut j: usize = 0;
            while j < i && self.values[j].size >= self.values[i].size
                invariant
                    j <= i < self.values@.len(),
                    self.values@ == pre,
                    forall|k: int| 0 <= k < j ==> pre[k].size >= pre[i as int].size,
                decreases i - j,
            {
                j += 1;
            }
            proof {
                pre.to_multiset_ensures();
                assert(pre.contains(pre[i as int]));
                assert(pre.to_multiset().count(pre[i as int]) > 0);
            }
            let ghost jj = j as int;
            let ghost ii = i as int;
            let x = self.values.remove(i);
            self.values.insert(j, x);
            proof {
                broadcast use vstd::multiset::group_multiset_axioms;

                let s = pre.remove(ii).insert(jj, pre[ii]);
                let rm = pre.remove(ii);
                assert(self.values@ =~= s);
                vstd::seq_lib::to_multiset_remove(pre, ii);
                vstd::seq_lib::to_multiset_insert(rm, jj, pre[ii]);
                assert(rm.to_multiset() == pre.to_multiset().remove(pre[ii]));
                assert(s.to_multiset() == rm.to_multiset().insert(pre[ii]));
                assert(self.values@.to_multiset() =~= pre.to_multiset());
                assert(forall|k: int| 0 <= k < i ==> pre.subrange(0, ii)[k] == pre[k]);
                let kpre = Seq::new(pre.len(), |k: int| pre[k].size);
                let kpost = Seq::new(s.len(), |k: int| s[k].size);
                assert(forall|k: int| 0 <= k < jj ==> s[k] == pre[k]);
                assert(s[jj] == pre[ii]);
                assert(forall|k: int| jj < k <= ii ==> s[k] == pre[k - 1]);
                lemma_reinsert_prefix_sorted(kpre, kpost, ii, jj);
                assert(forall|a: int, b: int| 0 <= a <= b <= ii ==> s[a].size >= s[b].size);
                assert(forall|k: int| 0 <= k <= ii ==> self.values@.subrange(0, ii + 1)[k]
                    == self.values@[k]);
                // the new prefix is the stable placement of the next original
                // entry into the sorted prefix
                let orig = old(self).values@;
                let sp = pre.subrange(0, ii);
                let x = pre[ii];
                assert(pre.subrange(ii, pre.len() as int)[0] == pre[ii]);
                assert(x == orig[ii]);
                assert(sorted_desc(sp));
                assert(forall|k: int| 0 <= k < jj ==> sp[k].size >= x.size);
                assert(jj < ii ==> sp[jj].size < x.size);
                lemma_place_at(sp, x, jj);
                assert(s.subrange(0, ii + 1) =~= sp.subrange(0, jj) + seq![x] + sp.subrange(
                    jj,
                    ii,
                ));
                assert(s.subrange(0, ii + 1) == place_desc(sp, x));
                assert(orig.subrange(0, ii + 1).drop_last() =~= orig.subrange(0, ii));
                assert(orig.subrange(0, ii + 1).last() == orig[ii]);
                assert(stable_sort_desc(orig.subrange(0, ii + 1)) == place_desc(sp, x));
                assert(forall|k: int| ii < k < s.len() ==> s[k] == pre[k]);
                assert(forall|k: int|
                    ii <= k < pre.len() ==> pre.subrange(ii, pre.len() as int)[k - ii] == pre[k]);
                assert(forall|k: int| ii <= k < pre.len() ==> pre[k] == orig[k]);
                assert(s.subrange(ii + 1, s.len() as int) =~= orig.subrange(
                    ii + 1,
                    orig.len() as int,
                ));
            }
            i += 1;
        }
        proof {
            if self.values@.len() > 0 {
                assert(self.values@.subrange(0, self.values@.len() as int) =~= self.values@);
                assert(old(self).values@.subrange(0, old(self).values@.len() as int) =~= old(
                    self,
                ).values@);
            } else {
                assert(old(self).values@ =~= Seq::<DocInfo>::empty());
                assert(stable_sort_desc(old(self).values@) == Seq::<DocInfo>::empty());
                assert(self.values@ =~= Seq::<DocInfo>::empty());
            }
            assert(sorted_desc(self.values@));
            assert(self.values@ == stable_sort_desc(old(self).values@));
        }
    }

    /// Record a candidate that the admission pre-check turned away without
    /// an `insert` call. Inserting it would have changed nothing (the
    /// retainer is full and the entry does not beat the floor), but the
    /// history should still list every candidate that was offered. This
    /// does no work at run time.
    pub(crate) fn note_rejected(&mut self, doc: Ghost<DocInfo>)
        requires
            old(self).inv(),
            old(self).history().len() < usize::MAX,
            old(self).entries().len() == old(self).capacity(),
            doc@.size <= old(self).floor(),
        ensures
            final(self).inv(),
            final(self).history() == old(self).history().push(doc@),
            final(self).entries() == old(self).entries(),
            final(self).floor() == old(self).floor(),
            final(self).capacity() == old(self).capacity(),
            final(self).sorts() == old(self).sorts(),
    {
        proof {
            broadcast use vstd::seq_lib::group_to_multiset_ensures;
            broadcast use vstd::multiset::group_multiset_axioms;

            let old_hist = self.hist@;
            self.hist@ = self.hist@.push(doc@);
            assert(self.hist@.to_multiset() == old_hist.to_multiset().insert(doc@));
            assert forall|d: DocInfo| #[trigger] self.hist@.to_multiset().count(d)
                > self.values@.to_multiset().count(d) implies d.size <= self.min_size by {
                if d != doc@ {
                    assert(old_hist.to_multiset().count(d) > self.values@.to_multiset().count(d));
                }
            }
            lemma_subset_still(self.values@.to_multiset(), old_hist.to_multiset(), doc@);
        }
    }

    /// Insert one entry. While not yet full, every entry is retained and the
    /// floor stays where it was (it starts at zero and sizes are never
    /// negative, so it stays zero). Once full, an entry no bigger than the
    /// floor is discarded; a bigger one is added, the entries are stably
    /// re-sorted by non-increasing size, the last entry — the smallest, and
    /// among equal smallest the latest inserted — is dropped, and the floor
    /// becomes the smallest retained size.
    pub fn insert(&mut self, doc: DocInfo)
        requires
            old(self).inv(),
            old(self).history().len() < usize::MAX,
        ensures
            final(self).inv(),
            final(self).history() == old(self).history().push(doc),
            final(self).capacity() == old(self).capacity(),
            old(self).entries().len() < old(self).capacity() ==> {
                &&& final(self).entries() == old(self).entries().push(doc)
                &&& final(self).floor() == old(self).floor()
                &&& final(self).sorts() == old(self).sorts()
            },
            old(self).entries().len() == old(self).capacity() && doc.size <= old(self).floor()
                ==> {
                &&& final(self).entries() == old(self).entries()
                &&& final(self).floor() == old(self).floor()
                &&& final(self).sorts() == old(self).sorts()
            },
            old(self).entries().len() == old(self).capacity() && doc.size > old(self).floor()
                ==> {
                &&& final(self).sorts() == old(self).sorts() + 1
                &&& final(self).entries().len() == old(self).capacity()
                &&& final(self).entries() == stable_sort_desc(
                    old(self).entries().push(doc),
                ).drop_last()
                &&& sorted_desc(final(self).entries())
                &&& exists|d: DocInfo|
                    {
                        &&& old(self).entries().push(doc).to_multiset().count(d) > 0
                        &&& forall|i: int|
                            0 <= i < old(self).entries().push(doc).len() ==> d.size <= #[trigger] old(self).entries().push(doc)[i].size
                        &&& final(self).entries().to_multiset() == old(self).entries().push(doc).to_multiset().remove(d)
                    }
                &&& forall|i: int|
                    0 <= i < final(self).entries().len() ==> final(self).floor() <= #[trigger] final(self).entries()[i].size
                &&& exists|i: int|
                    0 <= i < final(self).entries().len() && final(self).floor() == #[trigger] final(self).entries()[i].size
            },
    {
        broadcast use vstd::seq_lib::group_to_multiset_ensures;

        let ghost old_hist = self.hist@;
        proof {
            self.hist@ = self.hist@.push(doc);
        }
        if self.values.len() < self.keep_count {
            if doc.size < self.min_size {
                self.min_size = doc.size;
            }
            self.values.push(doc);
            proof {
                if self.hist@.len() >= self.keep_count {
                    assert(self.values@.to_multiset() =~= self.hist@.to_multiset());
                    lemma_subset_refl(self.values@.to_multiset());
                }
            }
        } else if doc.size > self.min_size {
            let ghost pre = self.values@;
            self.values.push(doc);
            self.sort();
            let ghost sorted = self.values@;
            let dropped = self.values.pop().unwrap();
            self.min_size = self.values[self.values.len() - 1].size;
            proof {
                assert(sorted.drop_last() =~= sorted.remove(sorted.len() - 1));
                assert(self.values@.to_multiset() == sorted.to_multiset().remove(dropped));
                assert(sorted.to_multiset() == pre.push(doc).to_multiset());
                // the popped entry is a minimal one
                assert forall|i: int| 0 <= i < pre.push(doc).len() implies dropped.size
                    <= #[trigger] pre.push(doc)[i].size by {
                    lemma_count_positive_in_seq(sorted, pre.push(doc)[i]);
                }
                assert(exists|d: DocInfo|
                    {
                        &&& pre.push(doc).to_multiset().count(d) > 0
                        &&& forall|i: int|
                            0 <= i < pre.push(doc).len() ==> d.size <= #[trigger] pre.push(
                                doc,
                            )[i].size
                        &&& self.values@.to_multiset() == pre.push(doc).to_multiset().remove(d)
                    }) by {
                    assert(pre.push(doc).to_multiset().count(dropped) > 0) by {
                        assert(sorted.to_multiset().count(dropped) > 0);
                    }
                }
                lemma_insert_retains_top(
                    *old(self),
                    *self,
                    doc,
                    pre,
                    sorted,
                    dropped,
                );
            }
        } else {
            proof {
                assert(self.hist@.to_multiset() == old_hist.to_multiset().insert(doc));
                assert forall|d: DocInfo| #[trigger] self.hist@.to_multiset().count(d)
                    > self.values@.to_multiset().count(d) implies d.size <= self.min_size by {
                    if d != doc {
                        assert(old_hist.to_multiset().count(d)
                            > self.values@.to_multiset().count(d));
                    }
                }
                lemma_subset_still(self.values@.to_multiset(), old_hist.to_multiset(), doc);
            }
        }
    }
}

proof fn lemma_subset_refl(m: Multiset<DocInfo>)
    ensures
        m.subset_of(m),
{
}

proof fn lemma_subset_still(a: Multiset<DocInfo>, b: Multiset<DocInfo>, d: DocInfo)
    requires
        a.subset_of(b),
    ensures
        a.subset_of(b.insert(d)),
{
    broadcast use vstd::multiset::group_multiset_axioms;

}

/// In a sequence sorted by non-increasing size, the last entry's size is a
/// lower bound for the size of any entry the multiset counts.
proof fn lemma_count_positive_in_seq(s: Seq<DocInfo>, d: DocInfo)
    requires
        s.len() > 0,
        sorted_desc(s),
        s.to_multiset().count(d) > 0,
    ensures
        s.last().size <= d.size,
{
    broadcast use vstd::seq_lib::group_to_multiset_ensures;

    assert(s.contains(d));
    let i = choose|i: int| 0 <= i < s.len() && s[i] == d;
    assert(s[i].size >= s[s.len() - 1].size);
}

/// The heart of the top-K argument for the full case: after pushing an
/// admitted entry, sorting, popping a minimal entry and refreshing the
/// floor, the invariant still holds.
proof fn lemma_insert_retains_top(
    pre_state: Biggest,
    post_state: Biggest,
    doc: DocInfo,
    pre: Seq<DocInfo>,
    sorted: Seq<DocInfo>,
    dropped: DocInfo,
)
    requires
        pre_state.inv(),
        pre == pre_state.entries(),
        pre.len() == pre_state.capacity(),
        doc.size > pre_state.floor(),
        sorted.to_multiset() == pre.push(doc).to_multiset(),
        sorted.len() == pre.len() + 1,
        sorted_desc(sorted),
        dropped == sorted.last(),
        post_state.entries() == sorted.drop_last(),
        post_state.history() == pre_state.history().push(doc),
        post_state.capacity() == pre_state.capacity(),
        post_state.sorts() <= post_state.history().len(),
        post_state.floor() == post_state.entries().last().size,
        post_state.entries().len() == post_state.capacity(),
    ensures
        post_state.inv(),
{
    broadcast use vstd::seq_lib::group_to_multiset_ensures;
    broadcast use vstd::multiset::group_multiset_axioms;

    let hist = pre_state.history();
    let hist2 = post_state.history();
    let vals = post_state.entries();
    let m = post_state.floor();

    assert(sorted.drop_last() =~= sorted.remove(sorted.len() - 1));
    assert(vals.to_multiset() == sorted.to_multiset().remove(dropped));

    // the floor is a lower bound on every retained size
    assert forall|i: int| 0 <= i < vals.len() implies m <= #[trigger] vals[i].size by {
        assert(vals[i] == sorted[i]);
        assert(vals.last() == sorted[sorted.len() - 2]);
        assert(sorted[i].size >= sorted[sorted.len() - 2].size);
    }

    // the retained entries come from the history
    assert(vals.to_multiset().subset_of(hist2.to_multiset())) by {
        assert(hist2.to_multiset() == hist.to_multiset().insert(doc));
        assert forall|d: DocInfo| #[trigger] vals.to_multiset().count(d)
            <= hist2.to_multiset().count(d) by {
            assert(vals.to_multiset().count(d) <= pre.push(doc).to_multiset().count(d));
            assert(pre.push(doc).to_multiset().count(d) == pre.to_multiset().count(d) + (if d
                == doc {
                1int
            } else {
                0int
            }));
            assert(pre.to_multiset().count(d) <= hist.to_multiset().count(d));
        }
    }

    // everything the history has beyond the retained entries is below the floor
    assert forall|d: DocInfo| #[trigger] hist2.to_multiset().count(d) > vals.to_multiset().count(d)
        implies d.size <= m by {
        let in_pre_push = pre.push(doc).to_multiset().count(d);
        let in_vals = vals.to_multiset().count(d);
        if in_pre_push > in_vals {
            // d is the dropped entry: a minimal entry of the sorted sequence
            assert(d == dropped);
            lemma_count_positive_in_seq(sorted, vals.last());
            assert(vals.last() == sorted[sorted.len() - 2]);
            assert(dropped.size <= sorted[sorted.len() - 2].size);
        } else {
            // d was already left out before: it is at most the old floor,
            // and the floor never goes down here
            assert(hist.to_multiset().count(d) > pre.to_multiset().count(d));
            assert(d.size <= pre_state.floor());
            // old floor <= every old retained size; the new floor is the size
            // of some entry of pre.push(doc), each of which is >= old floor
            lemma_count_positive_in_seq(sorted, vals.last());
            assert(sorted.to_multiset().count(vals.last()) > 0);
            assert(pre.push(doc).contains(vals.last()));
            let i = choose|i: int| 0 <= i < pre.push(doc).len() && pre.push(doc)[i] == vals.last();
            if i < pre.len() {
                assert(pre_state.floor() <= pre[i].size);
            } else {
                assert(pre.push(doc)[i] == doc);
            }
        }
    }
}

/// Facts every well-formed retainer obeys: it never holds more than its
/// capacity, and while it is not yet full its floor is still zero.
pub proof fn lemma_inv_facts(b: Biggest)
    requires
        b.inv(),
    ensures
        b.entries().len() <= b.capacity(),
        b.entries().len() < b.capacity() ==> b.floor() == 0,
{
}

/// LAW: a retainer with capacity K never holds more than K entries, and the
/// entries it holds are always among the biggest of everything inserted:
/// they are a sub-multiset of the history, there are `min(K, inserted)` of
/// them, and every inserted entry that is not retained has a size no bigger
/// than that of every retained entry.
pub proof fn lemma_top_k_retained(b: Biggest)
    requires
        b.inv(),
    ensures
        b.entries().len() <= b.capacity(),
        b.entries().len() == if b.history().len() < b.capacity() {
            b.history().len() as int
        } else {
            b.capacity() as int
        },
        b.entries().to_multiset().subset_of(b.history().to_multiset()),
        forall|d: DocInfo, i: int|
            #![trigger b.history().to_multiset().count(d), b.entries()[i]]
            b.history().to_multiset().count(d) > b.entries().to_multiset().count(d) && 0 <= i
                < b.entries().len() ==> d.size <= b.entries()[i].size,
{
    broadcast use vstd::seq_lib::group_to_multiset_ensures;
    broadcast use vstd::multiset::group_multiset_axioms;

    if b.history().len() < b.capacity() {
        assert(b.entries() == b.history());
        assert(b.entries().to_multiset().subset_of(b.history().to_multiset()));
        assert forall|d: DocInfo| #[trigger] b.history().to_multiset().count(d)
            <= b.entries().to_multiset().count(d) by {}
    }
}

} // verus!
