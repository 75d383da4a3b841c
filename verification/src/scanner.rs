//! Collecting scanned files: the walk over the directory tree is the caller's
//! part; this collector decides which files are kept.
use vstd::prelude::*;

use crate::types::FileEntry;

verus! {

/// The files that a threshold of `min_size` keeps among the offered ones, in
/// the order they were offered: those larger than `min_size`.
pub open spec fn kept_from(offers: Seq<FileEntry>, min_size: u64) -> Seq<FileEntry>
    decreases offers.len(),
{
    if offers.len() == 0 {
        Seq::empty()
    } else {
        let earlier = kept_from(offers.drop_last(), min_size);
        if offers.last().size > min_size {
            earlier.push(offers.last())
        } else {
            earlier
        }
    }
}

/// The files kept by a scan that keeps only files larger than a threshold.
pub struct ScanCollector {
    min_size: u64,
    entries: Vec<FileEntry>,
    offered: Ghost<Seq<FileEntry>>,
}

impl ScanCollector {
    /// The kept files are those of the offered ones larger than the threshold.
    #[verifier::type_invariant]
    spec fn keeps_the_large_files(self) -> bool {
        self.entries@ == kept_from(self.offered@, self.min_size)
    }

    /// Files of this many bytes or fewer are ignored.
    pub closed spec fn threshold(&self) -> u64 {
        self.min_size
    }

    /// The files offered so far, kept or not, in order.
    pub closed spec fn offered(&self) -> Seq<FileEntry> {
        self.offered@
    }

    /// The files kept so far, in the order they were offered.
    pub closed spec fn kept(&self) -> Seq<FileEntry> {
        self.entries@
    }

    pub fn new(min_size: u64) -> (r: ScanCollector)
        ensures
            r.threshold() == min_size,
            r.offered() == Seq::<FileEntry>::empty(),
            r.kept() == Seq::<FileEntry>::empty(),
    {
        ScanCollector { min_size, entries: Vec::new(), offered: Ghost(Seq::empty()) }
    }

    /// Whether a file of `size` bytes is kept.
    pub fn admits(&self, size: u64) -> (r: bool)
        ensures
            r == (size > self.threshold()),
    {
        size > self.min_size
    }

    /// Offers a scanned file; it is kept when it is larger than the threshold.
    pub fn offer(&mut self, entry: FileEntry) -> (r: bool)
        ensures
            r == (entry.size > old(self).threshold()),
            final(self).threshold() == old(self).threshold(),
            final(self).offered() == old(self).offered().push(entry),
            final(self).kept() == if r {
                old(self).kept().push(entry)
            } else {
                old(self).kept()
            },
    {
        proof {
            use_type_invariant(&*self);
        }
        let keep = entry.size > self.min_size;
        let ghost offered_entry = entry;
        let mut taken = ScanCollector::new(self.min_size);
        std::mem::swap(&mut taken, self);
        proof {
            use_type_invariant(&taken);
        }
        let ScanCollector { min_size, entries, offered } = taken;
        let mut entries = entries;
        if keep {
            entries.push(entry);
        }
        let ghost now = offered@.push(offered_entry);
        assert(now.drop_last() =~= offered@);
        *self = ScanCollector { min_size, entries, offered: Ghost(now) };
        keep
    }

    /// The kept files, and whether the scan found nothing at all: no file kept
    /// while no file was too small to keep.
    pub fn finish(self) -> (r: (Vec<FileEntry>, bool))
        ensures
            r.0@ == self.kept(),
            r.0@ == kept_from(self.offered(), self.threshold()),
            forall|i: int| 0 <= i < r.0@.len() ==> (#[trigger] r.0@[i]).size > self.threshold(),
            r.1 == (self.kept().len() == 0 && self.threshold() == 0),
    {
        proof {
            use_type_invariant(&self);
            lemma_kept_are_large(self.offered@, self.min_size);
        }
        let nothing = self.entries.len() == 0 && self.min_size == 0;
        (self.entries, nothing)
    }
}

/// Every kept file is larger than the threshold, and was offered.
proof fn lemma_kept_are_large(offers: Seq<FileEntry>, min_size: u64)
    ensures
        forall|i: int|
            0 <= i < kept_from(offers, min_size).len() ==> (#[trigger] kept_from(offers, min_size)[i]).size
                > min_size && offers.contains(kept_from(offers, min_size)[i]),
    decreases offers.len(),
{
    if offers.len() > 0 {
        let rest = offers.drop_last();
        lemma_kept_are_large(rest, min_size);
        let k = kept_from(offers, min_size);
        let kr = kept_from(rest, min_size);
        assert forall|i: int| 0 <= i < k.len() implies (#[trigger] k[i]).size > min_size && offers.contains(k[i]) by {
            if i < kr.len() {
                assert(k[i] == kr[i]);
                let j = choose|j: int| 0 <= j < rest.len() && rest[j] == kr[i];
                assert(offers[j] == rest[j]);
            } else {
                assert(k[i] == offers.last());
                assert(offers[offers.len() - 1] == offers.last());
            }
        }
    }
}

/// Law: raising the threshold keeps, of the files a lower threshold keeps,
/// exactly those larger than the higher one, in the same order. So the files
/// kept at a higher threshold are among those kept at a lower one.
pub proof fn law_higher_threshold_keeps_subset(offers: Seq<FileEntry>, low: u64, high: u64)
    requires
        low <= high,
    ensures
        kept_from(offers, high) == kept_from(kept_from(offers, low), high),
        forall|e: FileEntry| #[trigger] kept_from(offers, high).contains(e) ==> kept_from(offers, low).contains(e),
        forall|e: FileEntry|
            #[trigger] kept_from(offers, low).contains(e) && e.size > high ==> kept_from(offers, high).contains(e),
    decreases offers.len(),
{
    let kl = kept_from(offers, low);
    let kh = kept_from(offers, high);
    if offers.len() > 0 {
        let rest = offers.drop_last();
        law_higher_threshold_keeps_subset(rest, low, high);
        if offers.last().size > low {
            assert(kl.drop_last() =~= kept_from(rest, low));
        } else {
            assert(kl == kept_from(rest, low));
        }
    }
    assert(kh == kept_from(kl, high));
    assert forall|e: FileEntry| #[trigger] kh.contains(e) implies kl.contains(e) by {
        let i = choose|i: int| 0 <= i < kh.len() && kh[i] == e;
        lemma_kept_are_large(kl, high);
    }
    assert forall|e: FileEntry| #[trigger] kl.contains(e) && e.size > high implies kh.contains(e) by {
        lemma_kept_has_large(kl, high, e);
    }
}

/// A file offered and larger than the threshold is kept.
proof fn lemma_kept_has_large(offers: Seq<FileEntry>, min_size: u64, e: FileEntry)
    requires
        offers.contains(e),
        e.size > min_size,
    ensures
        kept_from(offers, min_size).contains(e),
    decreases offers.len(),
{
    let rest = offers.drop_last();
    let k = kept_from(offers, min_size);
    if offers.last() == e {
        assert(k[k.len() - 1] == e);
    } else {
        let i = choose|i: int| 0 <= i < offers.len() && offers[i] == e;
        assert(i < offers.len() - 1);
        assert(rest[i] == e);
        lemma_kept_has_large(rest, min_size, e);
        let kr = kept_from(rest, min_size);
        let j = choose|j: int| 0 <= j < kr.len() && kr[j] == e;
        assert(k[j] == kr[j]);
    }
}

} // verus!
