//! The four layers run as one search. The search says which candidate group
//! goes through which layer next; the caller reads the files of that group and
//! hands back what it found, and the search decides what follows.
//!
//! Candidates are taken up in the order they were queued. The size groups are
//! queued first; each layer queues what it keeps at the end, so every group of
//! one layer is taken up before any group of the next.
use vstd::prelude::*;

use std::path::PathBuf;

use crate::duplicates::{
    confirmed_group, entry_paths, total_size, wasted_bytes, entry_sizes, full_keys, full_paths, group_by_size,
    partial_paths, picked, quick_keys, split_by_full_hash, split_by_quick_hash, Candidate,
};
use crate::grouping::{dup_groups, law_duplicate_groups};
use crate::hasher::{blake3_digest, QUICK_HASH_BYTES};
use crate::types::{DuplicateGroup, FileEntry, FullHash, HashBytes, PartialHash};

verus! {

/// The layer a waiting candidate goes through next.
#[derive(Debug, Clone, Copy)]
pub enum Layer {
    /// Hash the first bytes of each file.
    QuickHash,
    /// Hash each file whole.
    FullHash,
    /// Compare the files byte by byte.
    Compare,
}

/// A candidate group waiting for a layer.
#[derive(Debug)]
pub struct Pending {
    pub layer: Layer,
    pub size: u64,
    pub files: Vec<PathBuf>,
}

/// A waiting candidate as the contracts see it: its layer, its size and its files.
pub open spec fn pending_view(p: Pending) -> (Layer, u64, Seq<PathBuf>) {
    (p.layer, p.size, p.files@)
}

/// The candidates a layer queues: one per duplicate group of the keys, holding
/// the paths of the group's items.
pub open spec fn layer_queue(
    layer: Layer,
    size: u64,
    groups: Seq<Seq<usize>>,
    paths: Seq<PathBuf>,
) -> Seq<(Layer, u64, Seq<PathBuf>)> {
    groups.map_values(|g: Seq<usize>| (layer, size, picked(paths, g)))
}

/// The candidates a search starts from: the size groups of the entries.
pub open spec fn start_queue(entries: Seq<FileEntry>) -> Seq<(Layer, u64, Seq<PathBuf>)> {
    dup_groups(entry_sizes(entries)).map_values(
        |g: Seq<usize>| (Layer::QuickHash, entries[g[0] as int].size, picked(entry_paths(entries), g)),
    )
}

/// One duplicate search: the candidates in the order they are taken up, how
/// many have been taken up, and the groups confirmed so far.
pub struct Search {
    pending: Vec<Pending>,
    cursor: usize,
    found: Vec<DuplicateGroup>,
}

impl Search {
    /// Every candidate queued so far, taken up or not.
    pub closed spec fn queue(&self) -> Seq<(Layer, u64, Seq<PathBuf>)> {
        self.pending@.map_values(|p: Pending| pending_view(p))
    }

    /// How many candidates have been taken up.
    pub closed spec fn cursor(&self) -> int {
        self.cursor as int
    }

    /// The groups confirmed so far.
    pub closed spec fn found(&self) -> Seq<DuplicateGroup> {
        self.found@
    }

    pub open spec fn is_done(&self) -> bool {
        self.cursor() >= self.queue().len()
    }

    /// The candidate to take up next.
    pub open spec fn current_view(&self) -> (Layer, u64, Seq<PathBuf>) {
        self.queue()[self.cursor()]
    }
}

/// `s` is a new search over `entries`.
pub open spec fn started_from(s: Search, entries: Seq<FileEntry>) -> bool {
    &&& s.queue() == start_queue(entries)
    &&& s.cursor() == 0
    &&& s.found() == Seq::<DuplicateGroup>::empty()
}

/// The next candidate of `s` waits for `layer`.
pub open spec fn waits_for(s: Search, layer: Layer) -> bool {
    !s.is_done() && s.current_view().0 == layer
}

/// `after` is `before` once the quick hashes of its current candidate came back.
pub open spec fn after_quick_hashes(before: Search, after: Search, partials: Seq<PartialHash>) -> bool {
    &&& after.cursor() == before.cursor() + 1
    &&& after.found() == before.found()
    &&& after.queue() == before.queue() + layer_queue(
        Layer::FullHash,
        before.current_view().1,
        dup_groups(quick_keys(partials)),
        partial_paths(partials),
    )
}

/// `after` is `before` once the full hashes of its current candidate came back.
pub open spec fn after_full_hashes(before: Search, after: Search, fulls: Seq<FullHash>) -> bool {
    &&& after.cursor() == before.cursor() + 1
    &&& after.found() == before.found()
    &&& after.queue() == before.queue() + layer_queue(
        Layer::Compare,
        before.current_view().1,
        dup_groups(full_keys(fulls)),
        full_paths(fulls),
    )
}

/// `after` is `before` once its current candidate was compared byte by byte.
pub open spec fn after_comparison(
    before: Search,
    after: Search,
    identical: bool,
    first_hash: Option<HashBytes>,
) -> bool {
    &&& after.cursor() == before.cursor() + 1
    &&& after.queue() == before.queue()
    &&& if identical {
        &&& after.found().len() == before.found().len() + 1
        &&& after.found().drop_last() == before.found()
        &&& after.found().last().size == before.current_view().1
        &&& after.found().last().files@ == before.current_view().2
        &&& after.found().last().hash@ == match first_hash {
            Some(h) => h@,
            None => blake3_digest(Seq::empty()),
        }
    } else {
        after.found() == before.found()
    }
}

/// Copies a list of paths.
fn copy_paths(v: &Vec<PathBuf>) -> (r: Vec<PathBuf>)
    ensures
        r@ == v@,
{
    let mut out: Vec<PathBuf> = Vec::new();
    let mut i: usize = 0;
    while i < v.len()
        invariant
            i <= v@.len(),
            out@ == v@.take(i as int),
        decreases v@.len() - i,
    {
        out.push(v[i].clone());
        assert(v@.take(i + 1) =~= v@.take(i as int).push(v@[i as int]));
        i = i + 1;
    }
    assert(v@.take(v@.len() as int) =~= v@);
    out
}

/// Queues the candidates for `layer`, in their order.
fn queue_candidates(pending: &mut Vec<Pending>, cands: &Vec<Candidate>, layer: Layer)
    ensures
        final(pending)@.map_values(|p: Pending| pending_view(p)) == old(pending)@.map_values(
            |p: Pending| pending_view(p),
        ) + cands@.map_values(|c: Candidate| (layer, c.size, c.files@)),
{
    let ghost start = old(pending)@.map_values(|p: Pending| pending_view(p));
    let mut g: usize = 0;
    while g < cands.len()
        invariant
            g <= cands@.len(),
            pending@.map_values(|p: Pending| pending_view(p)) == start + cands@.take(
                g as int,
            ).map_values(|c: Candidate| (layer, c.size, c.files@)),
        decreases cands@.len() - g,
    {
        let c = &cands[g];
        let files = copy_paths(&c.files);
        let ghost before = pending@;
        let item = Pending { layer, size: c.size, files };
        assert(pending_view(item) == (layer, cands@[g as int].size, cands@[g as int].files@));
        pending.push(item);
        assert(pending@ == before.push(item));
        assert(pending@.map_values(|p: Pending| pending_view(p)) =~= before.map_values(
            |p: Pending| pending_view(p),
        ).push(pending_view(item)));
        assert(cands@.take(g + 1) =~= cands@.take(g as int).push(cands@[g as int]));
        assert(cands@.take(g + 1).map_values(|c: Candidate| (layer, c.size, c.files@)) =~= cands@.take(
            g as int,
        ).map_values(|c: Candidate| (layer, c.size, c.files@)).push(pending_view(item)));
        assert(pending@.map_values(|p: Pending| pending_view(p)) =~= start + cands@.take(
            g + 1,
        ).map_values(|c: Candidate| (layer, c.size, c.files@)));
        g = g + 1;
    }
    assert(cands@.take(cands@.len() as int) =~= cands@);
}

impl Search {
    /// A search over the scanned entries: its first candidates are the groups
    /// of entries that share a size (layer 1), each waiting for quick hashes.
    pub fn start(entries: &Vec<FileEntry>) -> (r: Search)
        ensures
            started_from(r, entries@),
    {
        let cands = group_by_size(entries);
        let mut pending: Vec<Pending> = Vec::new();
        queue_candidates(&mut pending, &cands, Layer::QuickHash);
        let ghost gs = dup_groups(entry_sizes(entries@));
        assert(cands@.map_values(|c: Candidate| (Layer::QuickHash, c.size, c.files@))
            =~= start_queue(entries@)) by {
            assert forall|g: int| 0 <= g < gs.len() implies cands@[g].size == entries@[gs[g][0] as int].size
                && cands@[g].files@ == picked(entry_paths(entries@), gs[g]) by {
                assert(cands@[g].size == (|g: Seq<usize>| entries@[g[0] as int].size)(gs[g]));
            }
        }
        assert(Seq::<Pending>::empty().map_values(|p: Pending| pending_view(p)) =~= Seq::<
            (Layer, u64, Seq<PathBuf>),
        >::empty());
        let r = Search { pending, cursor: 0, found: Vec::new() };
        assert(r.queue() =~= start_queue(entries@));
        r
    }

    /// The candidate to take up next, or `None` when the search is done.
    pub fn current(&self) -> (r: Option<&Pending>)
        ensures
            match r {
                None => self.is_done(),
                Some(p) => !self.is_done() && pending_view(*p) == self.current_view(),
            },
    {
        if self.cursor < self.pending.len() {
            Some(&self.pending[self.cursor])
        } else {
            None
        }
    }

    /// Layer 2 for the current candidate: `partials` holds the quick hashes of
    /// its files that could be computed, in its order. The groups sharing a
    /// quick hash are queued for full hashing.
    pub fn quick_hashes_read(&mut self, partials: &Vec<PartialHash>)
        requires
            !old(self).is_done(),
        ensures
            after_quick_hashes(*old(self), *final(self), partials@),
    {
        assert(self.cursor < self.pending.len());
        let next = self.cursor + 1;
        let size = self.pending[self.cursor].size;
        let cands = split_by_quick_hash(size, partials);
        let ghost gs = dup_groups(quick_keys(partials@));
        assert(cands@.map_values(|c: Candidate| (Layer::FullHash, c.size, c.files@)) =~= layer_queue(
            Layer::FullHash,
            size,
            gs,
            partial_paths(partials@),
        )) by {
            assert forall|g: int| 0 <= g < gs.len() implies cands@[g].size == size by {
                assert(cands@[g].size == (|g: Seq<usize>| size)(gs[g]));
            }
        }
        queue_candidates(&mut self.pending, &cands, Layer::FullHash);
        self.cursor = next;
    }

    /// Layer 3 for the current candidate: `fulls` holds the full hashes of its
    /// files that could be computed, in its order. The groups sharing a full
    /// hash are queued for comparison.
    pub fn full_hashes_read(&mut self, fulls: &Vec<FullHash>)
        requires
            !old(self).is_done(),
        ensures
            after_full_hashes(*old(self), *final(self), fulls@),
    {
        assert(self.cursor < self.pending.len());
        let next = self.cursor + 1;
        let size = self.pending[self.cursor].size;
        let cands = split_by_full_hash(size, fulls);
        let ghost gs = dup_groups(full_keys(fulls@));
        assert(cands@.map_values(|c: Candidate| (Layer::Compare, c.size, c.files@)) =~= layer_queue(
            Layer::Compare,
            size,
            gs,
            full_paths(fulls@),
        )) by {
            assert forall|g: int| 0 <= g < gs.len() implies cands@[g].size == size by {
                assert(cands@[g].size == (|g: Seq<usize>| size)(gs[g]));
            }
        }
        queue_candidates(&mut self.pending, &cands, Layer::Compare);
        self.cursor = next;
    }

    /// Layer 4 for the current candidate: `identical` tells whether all its
    /// files compared equal byte by byte. If so it is confirmed as a duplicate
    /// group, with `first_hash` as the full hash of its first file when that
    /// could be recomputed.
    pub fn group_compared(&mut self, identical: bool, first_hash: Option<HashBytes>)
        requires
            !old(self).is_done(),
        ensures
            after_comparison(*old(self), *final(self), identical, first_hash),
    {
        assert(self.cursor < self.pending.len());
        let next = self.cursor + 1;
        if identical {
            let c = &self.pending[self.cursor];
            let files = copy_paths(&c.files);
            let group = confirmed_group(Candidate { size: c.size, files }, first_hash);
            self.found.push(group);
            assert(self.found@.drop_last() =~= old(self).found@);
        }
        self.cursor = next;
    }

    /// The confirmed duplicate groups, in the order they were confirmed.
    pub fn finish(self) -> (r: Vec<DuplicateGroup>)
        ensures
            r@ == self.found(),
    {
        self.found
    }
}

/* What the search keeps, for files whose bytes are known. */

/// What hashing the first bytes of a file of the given size gives.
pub open spec fn quick_digest(data: Seq<u8>, size: u64) -> Seq<u8> {
    blake3_digest(
        data.take(
            if size < QUICK_HASH_BYTES {
                size as int
            } else {
                QUICK_HASH_BYTES as int
            },
        ),
    )
}

/// Both files can be read, and they hold the same bytes.
pub open spec fn same_bytes(content: Map<PathBuf, Seq<u8>>, p: PathBuf, q: PathBuf) -> bool {
    &&& content.contains_key(p)
    &&& content.contains_key(q)
    &&& content[p] == content[q]
}

/// Files with the same BLAKE3 digest hold the same bytes.
pub open spec fn no_collisions(content: Map<PathBuf, Seq<u8>>) -> bool {
    forall|p: PathBuf, q: PathBuf|
        #![trigger content[p], content[q]]
        content.contains_key(p) && content.contains_key(q) && blake3_digest(content[p])
            == blake3_digest(content[q]) ==> content[p] == content[q]
}

/// Each entry's size is the length of the file, where the file can be read.
pub open spec fn sizes_of(entries: Seq<FileEntry>, content: Map<PathBuf, Seq<u8>>) -> bool {
    forall|i: int|
        0 <= i < entries.len() && content.contains_key(#[trigger] entries[i].path)
            ==> content[entries[i].path].len() == entries[i].size
}

/// Whether a file can be read.
pub open spec fn readable(content: Map<PathBuf, Seq<u8>>) -> spec_fn(PathBuf) -> bool {
    |p: PathBuf| content.contains_key(p)
}

/// `partials` are the quick hashes read from the candidate's files: one for
/// each readable file, in the candidate's order, each of that file's bytes.
pub open spec fn quick_hashes_of(
    partials: Seq<PartialHash>,
    files: Seq<PathBuf>,
    size: u64,
    content: Map<PathBuf, Seq<u8>>,
) -> bool {
    &&& partial_paths(partials) == files.filter(readable(content))
    &&& forall|k: int|
        0 <= k < partials.len() ==> content.contains_key(#[trigger] partials[k].path)
            && partials[k].quick_hash@ == quick_digest(content[partials[k].path], size)
}

/// `fulls` are the full hashes read from the candidate's files: one for each
/// readable file, in the candidate's order, each of that file's bytes.
pub open spec fn full_hashes_of(
    fulls: Seq<FullHash>,
    files: Seq<PathBuf>,
    content: Map<PathBuf, Seq<u8>>,
) -> bool {
    &&& full_paths(fulls) == files.filter(readable(content))
    &&& forall|k: int|
        0 <= k < fulls.len() ==> content.contains_key(#[trigger] fulls[k].path) && fulls[k].hash@
            == blake3_digest(content[fulls[k].path])
}

/// The readable files of a list, in its order: each comes from the list, every
/// readable file of the list is there, and none twice if the list has none twice.
proof fn lemma_readable_files(files: Seq<PathBuf>, content: Map<PathBuf, Seq<u8>>)
    ensures
        forall|k: int|
            0 <= k < files.filter(readable(content)).len() ==> files.contains(
                #[trigger] files.filter(readable(content))[k],
            ),
        forall|p: PathBuf|
            #[trigger] files.contains(p) && content.contains_key(p) ==> files.filter(readable(content)).contains(p),
        files.no_duplicates() ==> files.filter(readable(content)).no_duplicates(),
    decreases files.len(),
{
    let r = readable(content);
    let out = files.filter(r);
    assert forall|k: int| 0 <= k < out.len() implies files.contains(#[trigger] out[k]) by {
        assert(out.contains(out[k]));
        files.lemma_filter_contains_rev(r, out[k]);
    }
    assert forall|p: PathBuf| #[trigger] files.contains(p) && content.contains_key(p) implies out.contains(p) by {
        let i = choose|i: int| 0 <= i < files.len() && files[i] == p;
        files.lemma_filter_contains(r, i);
    }
    if files.len() > 0 {
        let rest = files.drop_last();
        lemma_readable_files(rest, content);
        reveal(Seq::filter);
        assert(out == if r(files.last()) {
            rest.filter(r).push(files.last())
        } else {
            rest.filter(r)
        });
        if files.no_duplicates() {
            assert(rest.no_duplicates()) by {
                assert forall|i: int, j: int| 0 <= i < rest.len() && 0 <= j < rest.len() && i != j implies rest[i] != rest[j] by {
                    assert(rest[i] == files[i] && rest[j] == files[j]);
                }
            }
            let rf = rest.filter(r);
            if r(files.last()) {
                assert forall|k: int| 0 <= k < rf.len() implies rf[k] != files.last() by {
                    assert(rest.contains(rf[k]));
                    let i = choose|i: int| 0 <= i < rest.len() && rest[i] == rf[k];
                    assert(files[i] == rest[i]);
                    assert(files[files.len() - 1] == files.last());
                }
                assert forall|i: int, j: int| 0 <= i < out.len() && 0 <= j < out.len() && i != j implies out[i] != out[j] by {
                    if i < rf.len() && j < rf.len() {
                        assert(out[i] == rf[i] && out[j] == rf[j]);
                    } else if i < rf.len() {
                        assert(out[i] == rf[i]);
                    } else if j < rf.len() {
                        assert(out[j] == rf[j]);
                    }
                }
            }
        }
    }
}

/// `identical` tells whether every file of the candidate holds the bytes of its first.
pub open spec fn comparison_of(
    identical: bool,
    files: Seq<PathBuf>,
    content: Map<PathBuf, Seq<u8>>,
) -> bool {
    identical == forall|f: int| 0 <= f < files.len() ==> same_bytes(content, #[trigger] files[f], files[0])
}

/// Every confirmed group holds readable files with the bytes of its first file.
pub open spec fn reports_equal_files(s: Search, content: Map<PathBuf, Seq<u8>>) -> bool {
    forall|g: int, f: int|
        0 <= g < s.found().len() && 0 <= f < s.found()[g].files@.len() ==> same_bytes(
            content,
            #[trigger] s.found()[g].files@[f],
            s.found()[g].files@[0],
        )
}

/// Law: a new search has confirmed nothing, so it reports only equal files.
pub proof fn law_sound_start(s: Search, entries: Seq<FileEntry>, content: Map<PathBuf, Seq<u8>>)
    requires
        started_from(s, entries),
    ensures
        reports_equal_files(s, content),
{
}

/// Law: the quick hashes of a candidate, whatever they are, confirm nothing,
/// so the search still reports only equal files.
pub proof fn law_sound_quick(before: Search, after: Search, partials: Seq<PartialHash>, content: Map<PathBuf, Seq<u8>>)
    requires
        reports_equal_files(before, content),
        after_quick_hashes(before, after, partials),
    ensures
        reports_equal_files(after, content),
{
}

/// Law: the full hashes of a candidate, whatever they are, confirm nothing,
/// so the search still reports only equal files.
pub proof fn law_sound_full(before: Search, after: Search, fulls: Seq<FullHash>, content: Map<PathBuf, Seq<u8>>)
    requires
        reports_equal_files(before, content),
        after_full_hashes(before, after, fulls),
    ensures
        reports_equal_files(after, content),
{
}

/// Law: a candidate is confirmed only when its files compared equal byte by
/// byte, so the search still reports only equal files, whatever the digests
/// were, collisions included.
pub proof fn law_sound_comparison(
    before: Search,
    after: Search,
    identical: bool,
    first_hash: Option<HashBytes>,
    content: Map<PathBuf, Seq<u8>>,
)
    requires
        reports_equal_files(before, content),
        !before.is_done(),
        after_comparison(before, after, identical, first_hash),
        comparison_of(identical, before.current_view().2, content),
    ensures
        reports_equal_files(after, content),
{
    let files = before.current_view().2;
    let m = before.found().len();
    assert forall|g: int| 0 <= g < m implies after.found()[g] == before.found()[g] by {
        if identical {
            assert(after.found().drop_last()[g] == after.found()[g]);
        }
    }
    assert forall|g: int, f: int|
        0 <= g < after.found().len() && 0 <= f < after.found()[g].files@.len() implies same_bytes(
        content,
        #[trigger] after.found()[g].files@[f],
        after.found()[g].files@[0],
    ) by {
        if g < m {
            assert(after.found()[g] == before.found()[g]);
        } else {
            assert(after.found()[g] == after.found().last());
            assert(same_bytes(content, files[f], files[0]));
        }
    }
}

/// Law: a search that reports only equal files reports groups whose files,
/// any two of them, can be read and hold the same bytes.
pub proof fn law_search_sound(s: Search, content: Map<PathBuf, Seq<u8>>)
    requires
        reports_equal_files(s, content),
    ensures
        forall|g: int, a: int, b: int|
            0 <= g < s.found().len() && 0 <= a < s.found()[g].files@.len() && 0 <= b < s.found()[g].files@.len()
                ==> same_bytes(content, #[trigger] s.found()[g].files@[a], #[trigger] s.found()[g].files@[b]),
{
    assert forall|g: int, a: int, b: int|
        0 <= g < s.found().len() && 0 <= a < s.found()[g].files@.len() && 0 <= b < s.found()[g].files@.len()
            implies same_bytes(content, #[trigger] s.found()[g].files@[a], #[trigger] s.found()[g].files@[b]) by {
        assert(same_bytes(content, s.found()[g].files@[a], s.found()[g].files@[0]));
        assert(same_bytes(content, s.found()[g].files@[b], s.found()[g].files@[0]));
    }
}

/// Files `p` and `q` wait in one candidate, or were confirmed in one group.
pub open spec fn kept_together(s: Search, p: PathBuf, q: PathBuf) -> bool {
    ||| exists|k: int|
        s.cursor() <= k < s.queue().len() && #[trigger] s.queue()[k].2.contains(p) && s.queue()[k].2.contains(q)
    ||| exists|g: int|
        0 <= g < s.found().len() && #[trigger] s.found()[g].files@.contains(p) && s.found()[g].files@.contains(q)
}

/// What holds of a search over files with the given bytes, at every step:
/// - every confirmed group holds files with the bytes of its first file;
/// - every candidate waiting for comparison holds readable files with one full digest;
/// - any two distinct files among `paths` with the same bytes wait in one
///   candidate or were confirmed in one group.
pub open spec fn keeps_duplicates(s: Search, paths: Seq<PathBuf>, content: Map<PathBuf, Seq<u8>>) -> bool {
    &&& reports_equal_files(s, content)
    &&& forall|k: int, f: int|
        s.cursor() <= k < s.queue().len() && s.queue()[k].0 == Layer::Compare && 0 <= f < s.queue()[k].2.len()
            ==> content.contains_key(#[trigger] s.queue()[k].2[f]) && blake3_digest(content[s.queue()[k].2[f]])
            == blake3_digest(content[s.queue()[k].2[0]])
    &&& forall|p: PathBuf, q: PathBuf|
        #![trigger same_bytes(content, p, q), paths.contains(p), paths.contains(q)]
        p != q && paths.contains(p) && paths.contains(q) && same_bytes(content, p, q) ==> kept_together(s, p, q)
}

/// Two distinct items with one key fall into one duplicate group.
proof fn lemma_pair_grouped<K>(keys: Seq<K>, i: int, j: int) -> (g: int)
    requires
        keys.len() <= usize::MAX,
        0 <= i < keys.len(),
        0 <= j < keys.len(),
        i != j,
        keys[i] == keys[j],
    ensures
        0 <= g < dup_groups(keys).len(),
        dup_groups(keys)[g].contains(i as usize),
        dup_groups(keys)[g].contains(j as usize),
        forall|a: int| 0 <= a < dup_groups(keys)[g].len() ==> #[trigger] dup_groups(keys)[g][a] < keys.len(),
{
    law_duplicate_groups(keys);
    assert(keys[i] == keys[j]);
    let g = choose|g: int| 0 <= g < dup_groups(keys).len() && #[trigger] dup_groups(keys)[g].contains(i as usize);
    let a = choose|a: int| 0 <= a < dup_groups(keys)[g].len() && dup_groups(keys)[g][a] == i as usize;
    assert(keys[dup_groups(keys)[g][a] as int] == keys[dup_groups(keys)[g][0] as int]);
    assert(dup_groups(keys)[g].contains(j as usize));
    g
}

/// The paths picked by a group contain the path of each of its items.
proof fn lemma_picked_contains(paths: Seq<PathBuf>, idx: Seq<usize>, i: int)
    requires
        idx.contains(i as usize),
        0 <= i < paths.len() <= usize::MAX,
    ensures
        picked(paths, idx).contains(paths[i]),
{
    let a = choose|a: int| 0 <= a < idx.len() && idx[a] == i as usize;
    assert(idx[a] as int == i);
    assert(picked(paths, idx)[a] == paths[i]);
}

/// Two distinct paths found among the keyed items, with equal keys, end up in
/// one candidate of the layer queue.
proof fn lemma_pair_queued<K>(
    layer: Layer,
    size: u64,
    keys: Seq<K>,
    paths: Seq<PathBuf>,
    p: PathBuf,
    q: PathBuf,
) -> (g: int)
    requires
        keys.len() == paths.len() <= usize::MAX,
        p != q,
        paths.contains(p),
        paths.contains(q),
        forall|i: int, j: int|
            0 <= i < paths.len() && 0 <= j < paths.len() && #[trigger] paths[i] == p && #[trigger] paths[j] == q
                ==> keys[i] == keys[j],
    ensures
        0 <= g < layer_queue(layer, size, dup_groups(keys), paths).len(),
        layer_queue(layer, size, dup_groups(keys), paths)[g].2.contains(p),
        layer_queue(layer, size, dup_groups(keys), paths)[g].2.contains(q),
{
    let i = choose|i: int| 0 <= i < paths.len() && paths[i] == p;
    let j = choose|j: int| 0 <= j < paths.len() && paths[j] == q;
    assert(keys[i] == keys[j]);
    let g = lemma_pair_grouped(keys, i, j);
    lemma_picked_contains(paths, dup_groups(keys)[g], i);
    lemma_picked_contains(paths, dup_groups(keys)[g], j);
    g
}

/// Law: a new search holds every two distinct entries with the same bytes in
/// one candidate, and nothing else is owed yet.
pub proof fn law_search_start(s: Search, entries: Seq<FileEntry>, content: Map<PathBuf, Seq<u8>>)
    requires
        entries.len() <= usize::MAX,
        started_from(s, entries),
        sizes_of(entries, content),
    ensures
        keeps_duplicates(s, entry_paths(entries), content),
{
    let paths = entry_paths(entries);
    let keys = entry_sizes(entries);
    assert forall|p: PathBuf, q: PathBuf|
        #![trigger same_bytes(content, p, q), paths.contains(p), paths.contains(q)]
        p != q && paths.contains(p) && paths.contains(q) && same_bytes(content, p, q) implies kept_together(s, p, q) by {
        assert forall|i: int, j: int|
            0 <= i < paths.len() && 0 <= j < paths.len() && #[trigger] paths[i] == p && #[trigger] paths[j] == q
                implies keys[i] == keys[j] by {
            assert(entries[i].path == p);
            assert(entries[j].path == q);
        }
        let g = lemma_pair_queued(Layer::QuickHash, 0, keys, paths, p, q);
        assert(s.queue()[g].2 == layer_queue(Layer::QuickHash, 0, dup_groups(keys), paths)[g].2);
    }
}

/// Law: the quick hashes of a size group, read from the files, keep what the
/// search holds (no two equal files are parted).
pub proof fn law_quick_hashes_keep(
    before: Search,
    after: Search,
    partials: Seq<PartialHash>,
    paths: Seq<PathBuf>,
    content: Map<PathBuf, Seq<u8>>,
)
    requires
        partials.len() <= usize::MAX,
        keeps_duplicates(before, paths, content),
        waits_for(before, Layer::QuickHash),
        after_quick_hashes(before, after, partials),
        quick_hashes_of(partials, before.current_view().2, before.current_view().1, content),
    ensures
        keeps_duplicates(after, paths, content),
{
    let n = before.queue().len();
    let c = before.cursor();
    let size = before.current_view().1;
    let keys = quick_keys(partials);
    let ps = partial_paths(partials);
    assert forall|k: int| 0 <= k < n implies after.queue()[k] == before.queue()[k] by {}
    assert forall|k: int, f: int|
        after.cursor() <= k < after.queue().len() && after.queue()[k].0 == Layer::Compare && 0 <= f
            < after.queue()[k].2.len() implies content.contains_key(#[trigger] after.queue()[k].2[f])
        && blake3_digest(content[after.queue()[k].2[f]]) == blake3_digest(content[after.queue()[k].2[0]]) by {
        if k >= n {
            assert(after.queue()[k].0 == Layer::FullHash);
        }
    }
    assert forall|p: PathBuf, q: PathBuf|
        #![trigger same_bytes(content, p, q), paths.contains(p), paths.contains(q)]
        p != q && paths.contains(p) && paths.contains(q) && same_bytes(content, p, q) implies kept_together(after, p, q) by {
        assert(kept_together(before, p, q));
        if exists|k: int|
            before.cursor() <= k < before.queue().len() && #[trigger] before.queue()[k].2.contains(p)
                && before.queue()[k].2.contains(q) {
            let k = choose|k: int|
                before.cursor() <= k < before.queue().len() && #[trigger] before.queue()[k].2.contains(p)
                    && before.queue()[k].2.contains(q);
            if k > c {
                assert(after.queue()[k] == before.queue()[k]);
            } else {
                let files = before.current_view().2;
                assert(files.contains(p) && files.contains(q));
                lemma_readable_files(files, content);
                assert(ps.contains(p));
                assert(ps.contains(q));
                assert forall|i: int, j: int|
                    0 <= i < ps.len() && 0 <= j < ps.len() && #[trigger] ps[i] == p && #[trigger] ps[j] == q
                        implies keys[i] == keys[j] by {
                    assert(partials[i].path == p);
                    assert(partials[j].path == q);
                }
                let g = lemma_pair_queued(Layer::FullHash, size, keys, ps, p, q);
                assert(after.queue()[n + g] == layer_queue(Layer::FullHash, size, dup_groups(keys), ps)[g]);
            }
        } else {
            let g = choose|g: int|
                0 <= g < before.found().len() && #[trigger] before.found()[g].files@.contains(p)
                    && before.found()[g].files@.contains(q);
            assert(after.found()[g] == before.found()[g]);
        }
    }
}

/// Law: the full hashes of a candidate, read from the files, keep what the
/// search holds; the groups they queue for comparison hold readable files with
/// one full digest.
pub proof fn law_full_hashes_keep(
    before: Search,
    after: Search,
    fulls: Seq<FullHash>,
    paths: Seq<PathBuf>,
    content: Map<PathBuf, Seq<u8>>,
)
    requires
        fulls.len() <= usize::MAX,
        keeps_duplicates(before, paths, content),
        waits_for(before, Layer::FullHash),
        after_full_hashes(before, after, fulls),
        full_hashes_of(fulls, before.current_view().2, content),
    ensures
        keeps_duplicates(after, paths, content),
{
    let n = before.queue().len();
    let c = before.cursor();
    let size = before.current_view().1;
    let keys = full_keys(fulls);
    let fps = full_paths(fulls);
    let gs = dup_groups(keys);
    law_duplicate_groups(keys);
    assert forall|k: int| 0 <= k < n implies after.queue()[k] == before.queue()[k] by {}
    assert forall|k: int, f: int|
        after.cursor() <= k < after.queue().len() && after.queue()[k].0 == Layer::Compare && 0 <= f
            < after.queue()[k].2.len() implies content.contains_key(#[trigger] after.queue()[k].2[f])
        && blake3_digest(content[after.queue()[k].2[f]]) == blake3_digest(content[after.queue()[k].2[0]]) by {
        if k >= n {
            let g = k - n;
            assert(after.queue()[k] == layer_queue(Layer::Compare, size, gs, fps)[g]);
            let x = gs[g][f] as int;
            let y = gs[g][0] as int;
            assert(gs[g][f] < keys.len());
            assert(gs[g][0] < keys.len());
            assert(keys[x] == keys[y]);
            assert(after.queue()[k].2[f] == fulls[x].path);
            assert(after.queue()[k].2[0] == fulls[y].path);
            assert(content.contains_key(fulls[x].path));
            assert(content.contains_key(fulls[y].path));
        } else {
            assert(after.queue()[k] == before.queue()[k]);
        }
    }
    assert forall|p: PathBuf, q: PathBuf|
        #![trigger same_bytes(content, p, q), paths.contains(p), paths.contains(q)]
        p != q && paths.contains(p) && paths.contains(q) && same_bytes(content, p, q) implies kept_together(after, p, q) by {
        assert(kept_together(before, p, q));
        if exists|k: int|
            before.cursor() <= k < before.queue().len() && #[trigger] before.queue()[k].2.contains(p)
                && before.queue()[k].2.contains(q) {
            let k = choose|k: int|
                before.cursor() <= k < before.queue().len() && #[trigger] before.queue()[k].2.contains(p)
                    && before.queue()[k].2.contains(q);
            if k > c {
                assert(after.queue()[k] == before.queue()[k]);
            } else {
                let files = before.current_view().2;
                assert(files.contains(p) && files.contains(q));
                lemma_readable_files(files, content);
                assert(fps.contains(p));
                assert(fps.contains(q));
                assert forall|i: int, j: int|
                    0 <= i < fps.len() && 0 <= j < fps.len() && #[trigger] fps[i] == p && #[trigger] fps[j] == q
                        implies keys[i] == keys[j] by {
                    assert(fulls[i].path == p);
                    assert(fulls[j].path == q);
                }
                let g = lemma_pair_queued(Layer::Compare, size, keys, fps, p, q);
                assert(after.queue()[n + g] == layer_queue(Layer::Compare, size, gs, fps)[g]);
            }
        } else {
            let g = choose|g: int|
                0 <= g < before.found().len() && #[trigger] before.found()[g].files@.contains(p)
                    && before.found()[g].files@.contains(q);
            assert(after.found()[g] == before.found()[g]);
        }
    }
}

/// Law: comparing a candidate byte by byte keeps what the search holds, when
/// files with one BLAKE3 digest hold the same bytes: a candidate holding two
/// equal files is confirmed whole, and a confirmed group holds equal files.
pub proof fn law_comparison_keeps(
    before: Search,
    after: Search,
    identical: bool,
    first_hash: Option<HashBytes>,
    paths: Seq<PathBuf>,
    content: Map<PathBuf, Seq<u8>>,
)
    requires
        no_collisions(content),
        keeps_duplicates(before, paths, content),
        waits_for(before, Layer::Compare),
        after_comparison(before, after, identical, first_hash),
        comparison_of(identical, before.current_view().2, content),
    ensures
        keeps_duplicates(after, paths, content),
{
    let c = before.cursor();
    let files = before.current_view().2;
    let m = before.found().len();
    assert forall|g: int| 0 <= g < m implies after.found()[g] == before.found()[g] by {
        if identical {
            assert(after.found().drop_last()[g] == after.found()[g]);
        }
    }
    assert forall|g: int, f: int|
        0 <= g < after.found().len() && 0 <= f < after.found()[g].files@.len() implies same_bytes(
        content,
        #[trigger] after.found()[g].files@[f],
        after.found()[g].files@[0],
    ) by {
        if g < m {
            assert(after.found()[g] == before.found()[g]);
        } else {
            assert(identical);
            assert(after.found()[g] == after.found().last());
            assert(same_bytes(content, files[f], files[0]));
        }
    }
    assert forall|p: PathBuf, q: PathBuf|
        #![trigger same_bytes(content, p, q), paths.contains(p), paths.contains(q)]
        p != q && paths.contains(p) && paths.contains(q) && same_bytes(content, p, q) implies kept_together(after, p, q) by {
        assert(kept_together(before, p, q));
        if exists|k: int|
            before.cursor() <= k < before.queue().len() && #[trigger] before.queue()[k].2.contains(p)
                && before.queue()[k].2.contains(q) {
            let k = choose|k: int|
                before.cursor() <= k < before.queue().len() && #[trigger] before.queue()[k].2.contains(p)
                    && before.queue()[k].2.contains(q);
            if k > c {
                assert(after.queue()[k] == before.queue()[k]);
            } else {
                assert(files.contains(p));
                assert forall|f: int| 0 <= f < files.len() implies same_bytes(content, #[trigger] files[f], files[0]) by {
                    assert(content.contains_key(before.queue()[c].2[f]));
                    assert(content.contains_key(before.queue()[c].2[0]));
                    assert(blake3_digest(content[files[f]]) == blake3_digest(content[files[0]]));
                    assert(content[files[f]] == content[files[0]]);
                }
                assert(identical);
                assert(after.found()[m as int] == after.found().last());
            }
        } else {
            let g = choose|g: int|
                0 <= g < before.found().len() && #[trigger] before.found()[g].files@.contains(p)
                    && before.found()[g].files@.contains(q);
            assert(after.found()[g] == before.found()[g]);
        }
    }
}

/// Law: when a search that kept its invariant is done, every confirmed group
/// holds files with the same bytes, and any two distinct files among `paths`
/// with the same bytes are in one confirmed group: no duplicate pair is lost.
pub proof fn law_search_done(s: Search, paths: Seq<PathBuf>, content: Map<PathBuf, Seq<u8>>)
    requires
        keeps_duplicates(s, paths, content),
        s.is_done(),
    ensures
        forall|g: int, f: int|
            0 <= g < s.found().len() && 0 <= f < s.found()[g].files@.len() ==> same_bytes(
                content,
                #[trigger] s.found()[g].files@[f],
                s.found()[g].files@[0],
            ),
        forall|p: PathBuf, q: PathBuf|
            #![trigger same_bytes(content, p, q), paths.contains(p), paths.contains(q)]
            p != q && paths.contains(p) && paths.contains(q) && same_bytes(content, p, q) ==> exists|g: int|
                0 <= g < s.found().len() && #[trigger] s.found()[g].files@.contains(p)
                    && s.found()[g].files@.contains(q),
{
}

/// Files `p` and `q` are in one confirmed group.
pub open spec fn reported_together(s: Search, p: PathBuf, q: PathBuf) -> bool {
    exists|g: int|
        0 <= g < s.found().len() && #[trigger] s.found()[g].files@.contains(p) && s.found()[g].files@.contains(q)
}

/// Law: a finished search reports two distinct files among `paths` in one
/// group exactly when they hold the same bytes, and a file that cannot be read
/// is in no group.
pub proof fn law_reported_pairs(s: Search, paths: Seq<PathBuf>, content: Map<PathBuf, Seq<u8>>)
    requires
        keeps_duplicates(s, paths, content),
        s.is_done(),
    ensures
        forall|p: PathBuf, q: PathBuf|
            #![trigger reported_together(s, p, q), paths.contains(p), paths.contains(q)]
            p != q && paths.contains(p) && paths.contains(q) ==> (reported_together(s, p, q) <==> same_bytes(
                content,
                p,
                q,
            )),
        forall|g: int, f: int|
            0 <= g < s.found().len() && 0 <= f < s.found()[g].files@.len() ==> content.contains_key(
                #[trigger] s.found()[g].files@[f],
            ),
{
    assert forall|p: PathBuf, q: PathBuf|
        #![trigger reported_together(s, p, q), paths.contains(p), paths.contains(q)]
        p != q && paths.contains(p) && paths.contains(q) implies (reported_together(s, p, q) <==> same_bytes(
        content,
        p,
        q,
    )) by {
        if reported_together(s, p, q) {
            let g = choose|g: int|
                0 <= g < s.found().len() && #[trigger] s.found()[g].files@.contains(p)
                    && s.found()[g].files@.contains(q);
            let files = s.found()[g].files@;
            let a = choose|a: int| 0 <= a < files.len() && files[a] == p;
            let b = choose|b: int| 0 <= b < files.len() && files[b] == q;
            assert(same_bytes(content, files[a], files[0]));
            assert(same_bytes(content, files[b], files[0]));
        }
        if same_bytes(content, p, q) {
            assert(kept_together(s, p, q));
        }
    }
}

/// Law: two finished searches over entries with the same readable files
/// report the same pairs of files together. So neither the order of the
/// entries nor an entry that cannot be read changes which files are grouped.
pub proof fn law_runs_agree(
    s1: Search,
    paths1: Seq<PathBuf>,
    s2: Search,
    paths2: Seq<PathBuf>,
    content: Map<PathBuf, Seq<u8>>,
)
    requires
        keeps_duplicates(s1, paths1, content),
        s1.is_done(),
        keeps_duplicates(s2, paths2, content),
        s2.is_done(),
        forall|p: PathBuf| #[trigger] content.contains_key(p) ==> (paths1.contains(p) <==> paths2.contains(p)),
    ensures
        forall|p: PathBuf, q: PathBuf|
            #![trigger reported_together(s1, p, q), reported_together(s2, p, q)]
            p != q && paths1.contains(p) && paths1.contains(q) ==> (reported_together(s1, p, q)
                <==> reported_together(s2, p, q)),
{
    law_reported_pairs(s1, paths1, content);
    law_reported_pairs(s2, paths2, content);
    assert forall|p: PathBuf, q: PathBuf|
        #![trigger reported_together(s1, p, q), reported_together(s2, p, q)]
        p != q && paths1.contains(p) && paths1.contains(q) implies (reported_together(s1, p, q)
        <==> reported_together(s2, p, q)) by {
        if reported_together(s1, p, q) {
            assert(same_bytes(content, p, q));
            assert(paths2.contains(p) && paths2.contains(q));
        }
        if reported_together(s2, p, q) {
            let g = choose|g: int|
                0 <= g < s2.found().len() && #[trigger] s2.found()[g].files@.contains(p)
                    && s2.found()[g].files@.contains(q);
            let files = s2.found()[g].files@;
            let a = choose|a: int| 0 <= a < files.len() && files[a] == p;
            let b = choose|b: int| 0 <= b < files.len() && files[b] == q;
            assert(content.contains_key(files[a]) && content.contains_key(files[b]));
            assert(paths2.contains(p) && paths2.contains(q));
        }
    }
}

/* How the candidates and groups of a search hold the entries. */

/// `p` is the path of an entry of the given size.
pub open spec fn is_entry_of_size(entries: Seq<FileEntry>, p: PathBuf, size: u64) -> bool {
    exists|i: int| 0 <= i < entries.len() && #[trigger] entries[i].path == p && entries[i].size == size
}

/// No file is in both lists.
pub open spec fn share_no_file(a: Seq<PathBuf>, b: Seq<PathBuf>) -> bool {
    forall|p: PathBuf| #![trigger a.contains(p), b.contains(p)] a.contains(p) ==> !b.contains(p)
}

/// When a confirmed group was compared equal, `first_hash` is the full hash
/// of its first file's bytes.
pub open spec fn first_hash_of(
    identical: bool,
    first_hash: Option<HashBytes>,
    files: Seq<PathBuf>,
    content: Map<PathBuf, Seq<u8>>,
) -> bool {
    identical ==> (first_hash matches Some(h) && h@ == blake3_digest(content[files[0]]))
}

/// What holds of the candidates and groups of a search over `entries`, at every step:
/// - each waiting candidate and each confirmed group holds two or more files, none twice;
/// - its files are paths of entries of its size;
/// - no file is in two of them;
/// - each confirmed group carries the full digest of its first file's bytes.
pub open spec fn keeps_groups_apart(s: Search, entries: Seq<FileEntry>, content: Map<PathBuf, Seq<u8>>) -> bool {
    &&& forall|k: int|
        s.cursor() <= k < s.queue().len() ==> (#[trigger] s.queue()[k]).2.len() >= 2
            && s.queue()[k].2.no_duplicates()
    &&& forall|k: int, f: int|
        s.cursor() <= k < s.queue().len() && 0 <= f < s.queue()[k].2.len() ==> is_entry_of_size(
            entries,
            #[trigger] s.queue()[k].2[f],
            s.queue()[k].1,
        )
    &&& forall|k1: int, k2: int|
        s.cursor() <= k1 < k2 < s.queue().len() ==> share_no_file(
            #[trigger] s.queue()[k1].2,
            #[trigger] s.queue()[k2].2,
        )
    &&& forall|g: int|
        0 <= g < s.found().len() ==> {
            &&& (#[trigger] s.found()[g]).files@.len() >= 2
            &&& s.found()[g].files@.no_duplicates()
            &&& s.found()[g].hash@ == blake3_digest(content[s.found()[g].files@[0]])
        }
    &&& forall|g: int, f: int|
        0 <= g < s.found().len() && 0 <= f < s.found()[g].files@.len() ==> is_entry_of_size(
            entries,
            #[trigger] s.found()[g].files@[f],
            s.found()[g].size,
        )
    &&& forall|g1: int, g2: int|
        0 <= g1 < g2 < s.found().len() ==> share_no_file(
            #[trigger] s.found()[g1].files@,
            #[trigger] s.found()[g2].files@,
        )
    &&& forall|k: int, g: int|
        s.cursor() <= k < s.queue().len() && 0 <= g < s.found().len() ==> share_no_file(
            #[trigger] s.queue()[k].2,
            #[trigger] s.found()[g].files@,
        )
}

/// The paths picked by a duplicate group of distinct paths hold no path twice,
/// and two groups pick no common path.
proof fn lemma_picked_apart<K>(keys: Seq<K>, ps: Seq<PathBuf>)
    requires
        keys.len() == ps.len() <= usize::MAX,
        ps.no_duplicates(),
    ensures
        forall|g: int|
            0 <= g < dup_groups(keys).len() ==> {
                &&& (#[trigger] picked(ps, dup_groups(keys)[g])).len() >= 2
                &&& picked(ps, dup_groups(keys)[g]).no_duplicates()
                &&& forall|f: int|
                    0 <= f < picked(ps, dup_groups(keys)[g]).len() ==> ps.contains(
                        #[trigger] picked(ps, dup_groups(keys)[g])[f],
                    )
            },
        forall|g: int, h: int|
            0 <= g < h < dup_groups(keys).len() ==> share_no_file(
                #[trigger] picked(ps, dup_groups(keys)[g]),
                #[trigger] picked(ps, dup_groups(keys)[h]),
            ),
{
    let gs = dup_groups(keys);
    law_duplicate_groups(keys);
    assert forall|g: int| 0 <= g < gs.len() implies {
        &&& (#[trigger] picked(ps, gs[g])).len() >= 2
        &&& picked(ps, gs[g]).no_duplicates()
        &&& forall|f: int| 0 <= f < picked(ps, gs[g]).len() ==> ps.contains(#[trigger] picked(ps, gs[g])[f])
    } by {
        let pk = picked(ps, gs[g]);
        assert forall|a: int, b: int| 0 <= a < pk.len() && 0 <= b < pk.len() && a != b implies pk[a] != pk[b] by {
            assert(gs[g][a] < keys.len() && gs[g][b] < keys.len());
            if a < b {
                assert(gs[g][a] < gs[g][b]);
            } else {
                assert(gs[g][b] < gs[g][a]);
            }
            assert(pk[a] == ps[gs[g][a] as int] && pk[b] == ps[gs[g][b] as int]);
        }
        assert forall|f: int| 0 <= f < pk.len() implies ps.contains(#[trigger] pk[f]) by {
            assert(gs[g][f] < keys.len());
            assert(pk[f] == ps[gs[g][f] as int]);
        }
    }
    assert forall|g: int, h: int| 0 <= g < h < gs.len() implies share_no_file(
        #[trigger] picked(ps, gs[g]),
        #[trigger] picked(ps, gs[h]),
    ) by {
        let a = picked(ps, gs[g]);
        let b = picked(ps, gs[h]);
        assert forall|p: PathBuf| #![trigger a.contains(p), b.contains(p)] a.contains(p) implies !b.contains(p) by {
            if b.contains(p) {
                let x = choose|x: int| 0 <= x < a.len() && a[x] == p;
                let y = choose|y: int| 0 <= y < b.len() && b[y] == p;
                assert(gs[g][x] < keys.len() && gs[h][y] < keys.len());
                assert(a[x] == ps[gs[g][x] as int] && b[y] == ps[gs[h][y] as int]);
                assert(gs[g][x] == gs[h][y]);
                assert(gs[g].contains(gs[g][x]));
                assert(gs[h].contains(gs[g][x]));
            }
        }
    }
}

/// A layer that splits the current candidate into groups of its own files
/// keeps the candidates and groups apart.
proof fn lemma_split_keeps_apart<K>(
    before: Search,
    after: Search,
    layer: Layer,
    keys: Seq<K>,
    ps: Seq<PathBuf>,
    entries: Seq<FileEntry>,
    content: Map<PathBuf, Seq<u8>>,
)
    requires
        keeps_groups_apart(before, entries, content),
        !before.is_done(),
        keys.len() == ps.len() <= usize::MAX,
        ps.no_duplicates(),
        forall|x: int| 0 <= x < ps.len() ==> before.current_view().2.contains(#[trigger] ps[x]),
        after.cursor() == before.cursor() + 1,
        after.found() == before.found(),
        after.queue() == before.queue() + layer_queue(layer, before.current_view().1, dup_groups(keys), ps),
    ensures
        keeps_groups_apart(after, entries, content),
{
    let c = before.cursor();
    let n = before.queue().len();
    let cur = before.current_view().2;
    let size = before.current_view().1;
    let gs = dup_groups(keys);
    lemma_picked_apart(keys, ps);
    assert forall|k: int| 0 <= k < n implies after.queue()[k] == before.queue()[k] by {}
    assert forall|g: int| 0 <= g < gs.len() implies after.queue()[n + g] == (layer, size, picked(ps, gs[g])) by {
        assert(after.queue()[n + g] == layer_queue(layer, size, gs, ps)[g]);
    }
    // Every file of a new candidate is a file of the current one.
    assert forall|k: int, p: PathBuf| n <= k < after.queue().len() && #[trigger] after.queue()[k].2.contains(p) implies cur.contains(p) by {
        let g = k - n;
        let f = choose|f: int| 0 <= f < after.queue()[k].2.len() && after.queue()[k].2[f] == p;
        assert(after.queue()[n + g] == (layer, size, picked(ps, gs[g])));
        assert(ps.contains(picked(ps, gs[g])[f]));
        let x = choose|x: int| 0 <= x < ps.len() && ps[x] == p;
        assert(cur.contains(ps[x]));
    }
    assert forall|k: int| after.cursor() <= k < after.queue().len() implies (#[trigger] after.queue()[k]).2.len() >= 2
        && after.queue()[k].2.no_duplicates() by {
        if k >= n {
            assert(after.queue()[n + (k - n)] == (layer, size, picked(ps, gs[k - n])));
        }
    }
    assert forall|k: int, f: int|
        after.cursor() <= k < after.queue().len() && 0 <= f < after.queue()[k].2.len() implies is_entry_of_size(
        entries,
        #[trigger] after.queue()[k].2[f],
        after.queue()[k].1,
    ) by {
        if k >= n {
            let p = after.queue()[k].2[f];
            assert(after.queue()[k].2.contains(p));
            assert(cur.contains(p));
            let f2 = choose|f2: int| 0 <= f2 < cur.len() && cur[f2] == p;
            assert(before.queue()[c].2[f2] == p);
            assert(after.queue()[n + (k - n)] == (layer, size, picked(ps, gs[k - n])));
        }
    }
    assert forall|k1: int, k2: int| after.cursor() <= k1 < k2 < after.queue().len() implies share_no_file(
        #[trigger] after.queue()[k1].2,
        #[trigger] after.queue()[k2].2,
    ) by {
        let a = after.queue()[k1].2;
        let b = after.queue()[k2].2;
        if k2 < n {
        } else if k1 < n {
            assert(share_no_file(before.queue()[c].2, before.queue()[k1].2));
            assert forall|p: PathBuf| #![trigger a.contains(p), b.contains(p)] a.contains(p) implies !b.contains(p) by {
                if b.contains(p) {
                    assert(cur.contains(p));
                }
            }
        } else {
            assert(after.queue()[n + (k1 - n)] == (layer, size, picked(ps, gs[k1 - n])));
            assert(after.queue()[n + (k2 - n)] == (layer, size, picked(ps, gs[k2 - n])));
            assert(share_no_file(picked(ps, gs[k1 - n]), picked(ps, gs[k2 - n])));
        }
    }
    assert forall|k: int, g: int| after.cursor() <= k < after.queue().len() && 0 <= g < after.found().len() implies share_no_file(
        #[trigger] after.queue()[k].2,
        #[trigger] after.found()[g].files@,
    ) by {
        let a = after.queue()[k].2;
        let b = after.found()[g].files@;
        if k >= n {
            assert(share_no_file(before.queue()[c].2, before.found()[g].files@));
            assert forall|p: PathBuf| #![trigger a.contains(p), b.contains(p)] a.contains(p) implies !b.contains(p) by {
                assert(cur.contains(p));
            }
        }
    }
}

/// Law: a new search over entries whose paths are distinct holds them apart:
/// each size group holds two or more paths of entries of its size, and no
/// path is in two groups.
pub proof fn law_groups_apart_start(s: Search, entries: Seq<FileEntry>, content: Map<PathBuf, Seq<u8>>)
    requires
        entries.len() <= usize::MAX,
        entry_paths(entries).no_duplicates(),
        started_from(s, entries),
    ensures
        keeps_groups_apart(s, entries, content),
{
    let keys = entry_sizes(entries);
    let ps = entry_paths(entries);
    let gs = dup_groups(keys);
    lemma_picked_apart(keys, ps);
    law_duplicate_groups(keys);
    assert forall|g: int| 0 <= g < gs.len() implies s.queue()[g] == (
        Layer::QuickHash,
        entries[gs[g][0] as int].size,
        picked(ps, gs[g]),
    ) by {}
    assert forall|k: int| s.cursor() <= k < s.queue().len() implies (#[trigger] s.queue()[k]).2.len() >= 2
        && s.queue()[k].2.no_duplicates() by {
        assert(s.queue()[k].2 == picked(ps, gs[k]));
    }
    assert forall|k: int, f: int|
        s.cursor() <= k < s.queue().len() && 0 <= f < s.queue()[k].2.len() implies is_entry_of_size(
        entries,
        #[trigger] s.queue()[k].2[f],
        s.queue()[k].1,
    ) by {
        let x = gs[k][f] as int;
        assert(gs[k][f] < keys.len());
        assert(gs[k][0] < keys.len());
        assert(keys[x] == keys[gs[k][0] as int]);
        assert(s.queue()[k].2[f] == entries[x].path);
    }
    assert forall|k1: int, k2: int| s.cursor() <= k1 < k2 < s.queue().len() implies share_no_file(
        #[trigger] s.queue()[k1].2,
        #[trigger] s.queue()[k2].2,
    ) by {
        assert(s.queue()[k1].2 == picked(ps, gs[k1]));
        assert(s.queue()[k2].2 == picked(ps, gs[k2]));
        assert(share_no_file(picked(ps, gs[k1]), picked(ps, gs[k2])));
    }
}

/// Law: the quick hashes of the current candidate, read from its own files,
/// keep the candidates and groups apart.
pub proof fn law_groups_apart_quick(
    before: Search,
    after: Search,
    partials: Seq<PartialHash>,
    entries: Seq<FileEntry>,
    content: Map<PathBuf, Seq<u8>>,
)
    requires
        partials.len() <= usize::MAX,
        keeps_groups_apart(before, entries, content),
        waits_for(before, Layer::QuickHash),
        after_quick_hashes(before, after, partials),
        quick_hashes_of(partials, before.current_view().2, before.current_view().1, content),
    ensures
        keeps_groups_apart(after, entries, content),
{
    let cur = before.current_view().2;
    lemma_readable_files(cur, content);
    assert(before.queue()[before.cursor()] == before.current_view());
    lemma_split_keeps_apart(
        before,
        after,
        Layer::FullHash,
        quick_keys(partials),
        partial_paths(partials),
        entries,
        content,
    );
}

/// Law: the full hashes of the current candidate, read from its own files,
/// keep the candidates and groups apart.
pub proof fn law_groups_apart_full(
    before: Search,
    after: Search,
    fulls: Seq<FullHash>,
    entries: Seq<FileEntry>,
    content: Map<PathBuf, Seq<u8>>,
)
    requires
        fulls.len() <= usize::MAX,
        keeps_groups_apart(before, entries, content),
        waits_for(before, Layer::FullHash),
        after_full_hashes(before, after, fulls),
        full_hashes_of(fulls, before.current_view().2, content),
    ensures
        keeps_groups_apart(after, entries, content),
{
    let cur = before.current_view().2;
    lemma_readable_files(cur, content);
    assert(before.queue()[before.cursor()] == before.current_view());
    lemma_split_keeps_apart(before, after, Layer::Compare, full_keys(fulls), full_paths(fulls), entries, content);
}

/// Law: confirming the current candidate, with the full hash of its first
/// file, keeps the candidates and groups apart.
pub proof fn law_groups_apart_comparison(
    before: Search,
    after: Search,
    identical: bool,
    first_hash: Option<HashBytes>,
    entries: Seq<FileEntry>,
    content: Map<PathBuf, Seq<u8>>,
)
    requires
        keeps_groups_apart(before, entries, content),
        waits_for(before, Layer::Compare),
        after_comparison(before, after, identical, first_hash),
        first_hash_of(identical, first_hash, before.current_view().2, content),
    ensures
        keeps_groups_apart(after, entries, content),
{
    let c = before.cursor();
    let cur = before.current_view().2;
    let m = before.found().len();
    assert(before.queue()[c] == before.current_view());
    assert forall|g: int| 0 <= g < m implies after.found()[g] == before.found()[g] by {
        if identical {
            assert(after.found().drop_last()[g] == after.found()[g]);
        }
    }
    if identical {
        let last = after.found()[m as int];
        assert(last == after.found().last());
        assert forall|g: int| 0 <= g < after.found().len() implies {
            &&& (#[trigger] after.found()[g]).files@.len() >= 2
            &&& after.found()[g].files@.no_duplicates()
            &&& after.found()[g].hash@ == blake3_digest(content[after.found()[g].files@[0]])
        } by {}
        assert forall|g: int, f: int|
            0 <= g < after.found().len() && 0 <= f < after.found()[g].files@.len() implies is_entry_of_size(
            entries,
            #[trigger] after.found()[g].files@[f],
            after.found()[g].size,
        ) by {
            if g == m {
                assert(before.queue()[c].2[f] == cur[f]);
            }
        }
        assert forall|g1: int, g2: int| 0 <= g1 < g2 < after.found().len() implies share_no_file(
            #[trigger] after.found()[g1].files@,
            #[trigger] after.found()[g2].files@,
        ) by {
            if g2 == m {
                let a = after.found()[g1].files@;
                let b = after.found()[g2].files@;
                assert(share_no_file(before.queue()[c].2, before.found()[g1].files@));
                assert forall|p: PathBuf| #![trigger a.contains(p), b.contains(p)] a.contains(p) implies !b.contains(p) by {
                    if b.contains(p) {
                        assert(cur.contains(p));
                    }
                }
            }
        }
        assert forall|k: int, g: int| after.cursor() <= k < after.queue().len() && 0 <= g < after.found().len() implies share_no_file(
            #[trigger] after.queue()[k].2,
            #[trigger] after.found()[g].files@,
        ) by {
            if g == m {
                let a = after.queue()[k].2;
                let b = after.found()[g].files@;
                assert(share_no_file(before.queue()[c].2, before.queue()[k].2));
                assert forall|p: PathBuf| #![trigger a.contains(p), b.contains(p)] a.contains(p) implies !b.contains(p) by {
                    if b.contains(p) {
                        assert(cur.contains(p));
                    }
                }
            }
        }
    }
}

/// Law: the confirmed groups of a search that kept its candidates apart hold
/// two or more files each, only paths of entries of the group's size, no file
/// in two groups, and carry the full digest of their first file's bytes.
pub proof fn law_confirmed_groups(s: Search, entries: Seq<FileEntry>, content: Map<PathBuf, Seq<u8>>)
    requires
        keeps_groups_apart(s, entries, content),
    ensures
        forall|g: int|
            0 <= g < s.found().len() ==> {
                &&& (#[trigger] s.found()[g]).files@.len() >= 2
                &&& s.found()[g].hash@ == blake3_digest(content[s.found()[g].files@[0]])
            },
        forall|g: int, f: int|
            0 <= g < s.found().len() && 0 <= f < s.found()[g].files@.len() ==> is_entry_of_size(
                entries,
                #[trigger] s.found()[g].files@[f],
                s.found()[g].size,
            ),
        forall|g1: int, g2: int, p: PathBuf|
            0 <= g1 < s.found().len() && 0 <= g2 < s.found().len() && #[trigger] s.found()[g1].files@.contains(p)
                && #[trigger] s.found()[g2].files@.contains(p) ==> g1 == g2,
{
    assert forall|g1: int, g2: int, p: PathBuf|
        0 <= g1 < s.found().len() && 0 <= g2 < s.found().len() && #[trigger] s.found()[g1].files@.contains(p)
            && #[trigger] s.found()[g2].files@.contains(p) implies g1 == g2 by {
        if g1 < g2 {
            assert(share_no_file(s.found()[g1].files@, s.found()[g2].files@));
        } else if g2 < g1 {
            assert(share_no_file(s.found()[g2].files@, s.found()[g1].files@));
        }
    }
}

/* What a finished search reports, seen as sizes, digests and sets of files. */

/// A confirmed group seen apart from the order of its files.
pub open spec fn group_view(g: DuplicateGroup) -> (u64, Seq<u8>, Set<PathBuf>) {
    (g.size, g.hash@, g.files@.to_set())
}

/// The groups a search reports, each seen apart from the order of its files.
pub open spec fn reported_views(s: Search) -> Set<(u64, Seq<u8>, Set<PathBuf>)> {
    s.found().map_values(|g: DuplicateGroup| group_view(g)).to_set()
}

/// A search over `entries` that is done and kept its classes and its groups
/// apart, with the entries' sizes those of the readable files.
pub open spec fn finished_over(s: Search, entries: Seq<FileEntry>, content: Map<PathBuf, Seq<u8>>) -> bool {
    &&& reports_classes(s, entries, content)
    &&& keeps_groups_apart(s, entries, content)
    &&& s.is_done()
    &&& sizes_of(entries, content)
}

/// Distinct groups of a finished search are seen differently, so it reports
/// as many groups as it has views.
proof fn lemma_views_distinct(s: Search, entries: Seq<FileEntry>, content: Map<PathBuf, Seq<u8>>)
    requires
        keeps_groups_apart(s, entries, content),
    ensures
        s.found().map_values(|g: DuplicateGroup| group_view(g)).no_duplicates(),
        reported_views(s).len() == s.found().len(),
{
    let vs = s.found().map_values(|g: DuplicateGroup| group_view(g));
    law_confirmed_groups(s, entries, content);
    assert forall|a: int, b: int| 0 <= a < vs.len() && 0 <= b < vs.len() && a != b implies vs[a] != vs[b] by {
        let fa = s.found()[a].files@;
        let fb = s.found()[b].files@;
        assert(fa.len() >= 2);
        assert(fa.contains(fa[0]));
        assert(fa.to_set().contains(fa[0]));
        if vs[a] == vs[b] {
            assert(fb.to_set().contains(fa[0]));
            assert(fb.contains(fa[0]));
        }
    }
    vs.unique_seq_to_set();
}

/// Law: two finished searches over entries with the same readable files, and
/// the same bytes in them, report the same groups, each seen as its size, its
/// digest and its set of files, and as many of them, whatever the digests are
/// (collisions included). So neither the order of the entries nor an entry
/// that cannot be read changes what is reported.
pub proof fn law_same_groups(
    s1: Search,
    entries1: Seq<FileEntry>,
    s2: Search,
    entries2: Seq<FileEntry>,
    content: Map<PathBuf, Seq<u8>>,
)
    requires
        finished_over(s1, entries1, content),
        finished_over(s2, entries2, content),
        forall|p: PathBuf|
            #[trigger] content.contains_key(p) ==> (entry_paths(entries1).contains(p) <==> entry_paths(
                entries2,
            ).contains(p)),
    ensures
        reported_views(s1) == reported_views(s2),
        s1.found().len() == s2.found().len(),
{
    law_reports_owed_groups(s1, entries1, content);
    law_reports_owed_groups(s2, entries2, content);
    lemma_owed_views_agree(entries1, entries2, content);
    lemma_views_distinct(s1, entries1, content);
    lemma_views_distinct(s2, entries2, content);
}

/* Totals that do not depend on the order of what is summed. */

/// The sum of `f` over a sequence.
pub open spec fn sum_of<A>(s: Seq<A>, f: spec_fn(A) -> int) -> int
    decreases s.len(),
{
    if s.len() == 0 {
        0
    } else {
        sum_of(s.drop_last(), f) + f(s.last())
    }
}

/// Taking one item out of a sum.
proof fn lemma_sum_of_remove<A>(s: Seq<A>, f: spec_fn(A) -> int, i: int)
    requires
        0 <= i < s.len(),
    ensures
        sum_of(s, f) == sum_of(s.remove(i), f) + f(s[i]),
    decreases s.len(),
{
    if i == s.len() - 1 {
        assert(s.remove(i) =~= s.drop_last());
    } else {
        lemma_sum_of_remove(s.drop_last(), f, i);
        assert(s.remove(i).drop_last() =~= s.drop_last().remove(i));
        assert(s.remove(i).last() == s.last());
    }
}

/// A sum does not depend on the order of its items.
proof fn lemma_sum_of_reordered<A>(a: Seq<A>, b: Seq<A>, f: spec_fn(A) -> int)
    requires
        a.to_multiset() == b.to_multiset(),
    ensures
        sum_of(a, f) == sum_of(b, f),
    decreases a.len(),
{
    broadcast use vstd::seq_lib::to_multiset_build, vstd::seq_lib::to_multiset_remove,
        vstd::seq_lib::to_multiset_len, vstd::seq_lib::to_multiset_contains;

    if a.len() == 0 {
        assert(b.len() == b.to_multiset().len());
    } else {
        let x = a.last();
        let rest = a.drop_last();
        assert(rest.push(x) =~= a);
        assert(a.to_multiset() == rest.to_multiset().insert(x));
        assert(a.to_multiset().count(x) > 0);
        assert(b.to_multiset().count(x) > 0);
        assert(b.contains(x));
        let j = choose|j: int| 0 <= j < b.len() && b[j] == x;
        let b2 = b.remove(j);
        assert(b2.to_multiset() == b.to_multiset().remove(x));
        assert(rest.to_multiset() =~= b2.to_multiset());
        lemma_sum_of_reordered(rest, b2, f);
        lemma_sum_of_remove(b, f, j);
    }
}

/// The bytes a group wastes, from its view.
pub open spec fn view_waste(v: (u64, Seq<u8>, Set<PathBuf>)) -> int {
    v.0 * (v.2.len() - 1)
}

/// The wasted bytes of groups whose files occur once each, summed over their views.
proof fn lemma_wasted_by_views(groups: Seq<DuplicateGroup>)
    requires
        forall|g: int| 0 <= g < groups.len() ==> (#[trigger] groups[g]).files@.no_duplicates(),
    ensures
        wasted_bytes(groups) == sum_of(groups.map_values(|g: DuplicateGroup| group_view(g)), |v: (u64, Seq<u8>, Set<PathBuf>)| view_waste(v)),
    decreases groups.len(),
{
    let vs = groups.map_values(|g: DuplicateGroup| group_view(g));
    if groups.len() > 0 {
        let rest = groups.drop_last();
        assert forall|g: int| 0 <= g < rest.len() implies (#[trigger] rest[g]).files@.no_duplicates() by {
            assert(rest[g] == groups[g]);
        }
        lemma_wasted_by_views(rest);
        assert(vs.drop_last() =~= rest.map_values(|g: DuplicateGroup| group_view(g)));
        let last = groups.last();
        assert(groups[groups.len() - 1] == last);
        last.files@.unique_seq_to_set();
        assert(vs.last() == group_view(last));
    }
}

/// The total size of the entries, as a sum.
proof fn lemma_total_size_sum(entries: Seq<FileEntry>)
    ensures
        total_size(entries) == sum_of(entries, |e: FileEntry| e.size as int),
    decreases entries.len(),
{
    if entries.len() > 0 {
        lemma_total_size_sum(entries.drop_last());
    }
}

/// Law: two finished searches as in `law_same_groups` report as many groups
/// and the same wasted bytes; when the entries are a reordering of each other,
/// their count and total size agree too. These are the totals of the scan.
pub proof fn law_same_totals(
    s1: Search,
    entries1: Seq<FileEntry>,
    s2: Search,
    entries2: Seq<FileEntry>,
    content: Map<PathBuf, Seq<u8>>,
)
    requires
        finished_over(s1, entries1, content),
        finished_over(s2, entries2, content),
        forall|p: PathBuf|
            #[trigger] content.contains_key(p) ==> (entry_paths(entries1).contains(p) <==> entry_paths(
                entries2,
            ).contains(p)),
    ensures
        s1.found().len() == s2.found().len(),
        wasted_bytes(s1.found()) == wasted_bytes(s2.found()),
        entries1.to_multiset() == entries2.to_multiset() ==> entries1.len() == entries2.len() && total_size(
            entries1,
        ) == total_size(entries2),
{
    broadcast use vstd::seq_lib::to_multiset_len, vstd::seq_lib::to_multiset_contains;

    law_same_groups(s1, entries1, s2, entries2, content);
    lemma_views_distinct(s1, entries1, content);
    lemma_views_distinct(s2, entries2, content);
    let vs1 = s1.found().map_values(|g: DuplicateGroup| group_view(g));
    let vs2 = s2.found().map_values(|g: DuplicateGroup| group_view(g));
    vs1.lemma_multiset_has_no_duplicates();
    vs2.lemma_multiset_has_no_duplicates();
    assert forall|v: (u64, Seq<u8>, Set<PathBuf>)| vs1.to_multiset().count(v) == vs2.to_multiset().count(v) by {
        if vs1.contains(v) {
            assert(vs1.to_set().contains(v));
            assert(vs2.to_set().contains(v));
            assert(vs2.contains(v));
        } else if vs2.contains(v) {
            assert(vs2.to_set().contains(v));
            assert(vs1.to_set().contains(v));
        }
    }
    assert(vs1.to_multiset() =~= vs2.to_multiset());
    lemma_sum_of_reordered(vs1, vs2, |v: (u64, Seq<u8>, Set<PathBuf>)| view_waste(v));
    law_confirmed_groups(s1, entries1, content);
    law_confirmed_groups(s2, entries2, content);
    lemma_wasted_by_views(s1.found());
    lemma_wasted_by_views(s2.found());
    if entries1.to_multiset() == entries2.to_multiset() {
        lemma_total_size_sum(entries1);
        lemma_total_size_sum(entries2);
        lemma_sum_of_reordered(entries1, entries2, |e: FileEntry| e.size as int);
        assert(entries1.len() == entries1.to_multiset().len());
        assert(entries2.len() == entries2.to_multiset().len());
    }
}

/* Which groups a finished search reports, whatever the digests: one for each
   class of readable entries sharing size, quick digest and full digest, when
   the class has two or more files and all of them hold the same bytes. */

/// The entries of size `n`.
pub open spec fn size_class(entries: Seq<FileEntry>, n: u64) -> Set<PathBuf> {
    Set::new(|q: PathBuf| is_entry_of_size(entries, q, n))
}

/// The readable entries of size `n` with the quick digest of `p`.
pub open spec fn quick_class(entries: Seq<FileEntry>, content: Map<PathBuf, Seq<u8>>, n: u64, p: PathBuf) -> Set<PathBuf> {
    Set::new(
        |q: PathBuf|
            is_entry_of_size(entries, q, n) && content.contains_key(q) && quick_digest(content[q], n)
                == quick_digest(content[p], n),
    )
}

/// The readable entries of size `n` with the quick and the full digest of `p`.
pub open spec fn full_class(entries: Seq<FileEntry>, content: Map<PathBuf, Seq<u8>>, n: u64, p: PathBuf) -> Set<PathBuf> {
    Set::new(
        |q: PathBuf|
            quick_class(entries, content, n, p).contains(q) && blake3_digest(content[q]) == blake3_digest(
                content[p],
            ),
    )
}

/// The files that no layer can tell apart from `p`.
pub open spec fn file_class(entries: Seq<FileEntry>, content: Map<PathBuf, Seq<u8>>, p: PathBuf) -> Set<PathBuf> {
    full_class(entries, content, content[p].len() as u64, p)
}

/// The group owed for the class of `p`: its size, its digest and its files.
pub open spec fn owed_group(entries: Seq<FileEntry>, content: Map<PathBuf, Seq<u8>>, p: PathBuf) -> (
    u64,
    Seq<u8>,
    Set<PathBuf>,
) {
    (content[p].len() as u64, blake3_digest(content[p]), file_class(entries, content, p))
}

/// The class of `p` is reported: `p` is a readable entry, its class holds
/// another file, and every file of it holds the bytes of `p`.
pub open spec fn is_owed(entries: Seq<FileEntry>, content: Map<PathBuf, Seq<u8>>, p: PathBuf) -> bool {
    &&& entry_paths(entries).contains(p)
    &&& content.contains_key(p)
    &&& exists|q: PathBuf| q != p && #[trigger] file_class(entries, content, p).contains(q)
    &&& forall|q: PathBuf| #[trigger] file_class(entries, content, p).contains(q) ==> content[q] == content[p]
}

/// The groups owed for the entries, each seen as size, digest and set of files.
pub open spec fn owed_views(entries: Seq<FileEntry>, content: Map<PathBuf, Seq<u8>>) -> Set<(u64, Seq<u8>, Set<PathBuf>)> {
    Set::new(
        |v: (u64, Seq<u8>, Set<PathBuf>)| exists|p: PathBuf| #[trigger] is_owed(entries, content, p) && v == owed_group(entries, content, p),
    )
}

/// The files a waiting candidate must hold for its layer.
pub open spec fn candidate_class(
    entries: Seq<FileEntry>,
    content: Map<PathBuf, Seq<u8>>,
    c: (Layer, u64, Seq<PathBuf>),
) -> Set<PathBuf> {
    match c.0 {
        Layer::QuickHash => size_class(entries, c.1),
        Layer::FullHash => quick_class(entries, content, c.1, c.2[0]),
        Layer::Compare => full_class(entries, content, c.1, c.2[0]),
    }
}

/// What holds of a search at every step, whatever the digests are:
/// - each waiting candidate holds exactly the files of its class for its layer;
/// - each confirmed group is the owed group of its first file;
/// - every file whose class is owed waits in a candidate or is in a confirmed group.
pub open spec fn reports_classes(s: Search, entries: Seq<FileEntry>, content: Map<PathBuf, Seq<u8>>) -> bool {
    &&& forall|k: int|
        s.cursor() <= k < s.queue().len() ==> (#[trigger] s.queue()[k]).2.to_set() == candidate_class(
            entries,
            content,
            s.queue()[k],
        )
    &&& forall|g: int|
        0 <= g < s.found().len() ==> group_view(#[trigger] s.found()[g]) == owed_group(
            entries,
            content,
            s.found()[g].files@[0],
        ) && is_owed(entries, content, s.found()[g].files@[0])
    &&& forall|p: PathBuf|
        #[trigger] is_owed(entries, content, p) ==> (exists|k: int|
            s.cursor() <= k < s.queue().len() && #[trigger] s.queue()[k].2.contains(p)) || (exists|g: int|
            0 <= g < s.found().len() && #[trigger] s.found()[g].files@.contains(p))
}

/// An entry path of a known size, when readable, has that many bytes.
proof fn lemma_entry_size(entries: Seq<FileEntry>, content: Map<PathBuf, Seq<u8>>, q: PathBuf, n: u64)
    requires
        sizes_of(entries, content),
        content.contains_key(q),
        is_entry_of_size(entries, q, n),
    ensures
        content[q].len() == n,
        entry_paths(entries).contains(q),
{
    let i = choose|i: int| 0 <= i < entries.len() && #[trigger] entries[i].path == q && entries[i].size == n;
    assert(entry_paths(entries)[i] == q);
}

/// A readable entry path is an entry of the size of its bytes.
proof fn lemma_entry_of_its_size(entries: Seq<FileEntry>, content: Map<PathBuf, Seq<u8>>, q: PathBuf)
    requires
        sizes_of(entries, content),
        content.contains_key(q),
        entry_paths(entries).contains(q),
    ensures
        is_entry_of_size(entries, q, content[q].len() as u64),
{
    let i = choose|i: int| 0 <= i < entry_paths(entries).len() && entry_paths(entries)[i] == q;
    assert(entries[i].path == q);
}

/// Two files with the same size, quick digest and full digest have one class.
proof fn lemma_same_class(entries: Seq<FileEntry>, content: Map<PathBuf, Seq<u8>>, n: u64, p: PathBuf, q: PathBuf)
    requires
        full_class(entries, content, n, p).contains(q),
    ensures
        full_class(entries, content, n, q) == full_class(entries, content, n, p),
        quick_class(entries, content, n, q) == quick_class(entries, content, n, p),
{
    assert(full_class(entries, content, n, q) =~= full_class(entries, content, n, p));
    assert(quick_class(entries, content, n, q) =~= quick_class(entries, content, n, p));
}

/// Law: a new search over entries holds each size group whole, and every
/// file whose class is owed waits in one of them.
pub proof fn law_classes_start(s: Search, entries: Seq<FileEntry>, content: Map<PathBuf, Seq<u8>>)
    requires
        entries.len() <= usize::MAX,
        started_from(s, entries),
        sizes_of(entries, content),
    ensures
        reports_classes(s, entries, content),
{
    let keys = entry_sizes(entries);
    let ps = entry_paths(entries);
    let gs = dup_groups(keys);
    law_duplicate_groups(keys);
    assert forall|g: int| 0 <= g < gs.len() implies s.queue()[g] == (
        Layer::QuickHash,
        entries[gs[g][0] as int].size,
        picked(ps, gs[g]),
    ) by {}
    assert forall|k: int| s.cursor() <= k < s.queue().len() implies (#[trigger] s.queue()[k]).2.to_set()
        == candidate_class(entries, content, s.queue()[k]) by {
        let n = entries[gs[k][0] as int].size;
        let files = picked(ps, gs[k]);
        assert(gs[k].len() >= 2);
        assert(gs[k][0] < keys.len());
        assert forall|q: PathBuf| files.to_set().contains(q) <==> size_class(entries, n).contains(q) by {
            if files.contains(q) {
                let a = choose|a: int| 0 <= a < files.len() && files[a] == q;
                let x = gs[k][a] as int;
                assert(gs[k][a] < keys.len());
                assert(keys[x] == keys[gs[k][0] as int]);
                assert(entries[x].path == q);
            }
            if is_entry_of_size(entries, q, n) {
                let i = choose|i: int| 0 <= i < entries.len() && #[trigger] entries[i].path == q && entries[i].size == n;
                assert(keys[i] == keys[gs[k][0] as int]);
                assert(gs[k].contains(i as usize));
                lemma_picked_contains(ps, gs[k], i);
                assert(ps[i] == q);
            }
        }
        assert(files.to_set() =~= size_class(entries, n));
    }
    assert forall|p: PathBuf| #[trigger] is_owed(entries, content, p) implies (exists|k: int|
        s.cursor() <= k < s.queue().len() && #[trigger] s.queue()[k].2.contains(p)) || (exists|g: int|
        0 <= g < s.found().len() && #[trigger] s.found()[g].files@.contains(p)) by {
        let q = choose|q: PathBuf| q != p && #[trigger] file_class(entries, content, p).contains(q);
        let n = content[p].len() as u64;
        lemma_entry_of_its_size(entries, content, p);
        let i = choose|i: int| 0 <= i < entries.len() && #[trigger] entries[i].path == p && entries[i].size == n;
        let j = choose|j: int| 0 <= j < entries.len() && #[trigger] entries[j].path == q && entries[j].size == n;
        let g = lemma_pair_grouped(keys, i, j);
        lemma_picked_contains(ps, gs[g], i);
        assert(ps[i] == p);
        assert(s.queue()[g].2.contains(p));
    }
}

/// A layer splitting the current candidate by a key that is a function of the
/// class keeps the classes: the shape shared by the quick and full hash laws.
proof fn lemma_split_keeps_classes<K>(
    before: Search,
    after: Search,
    layer: Layer,
    keys: Seq<K>,
    ps: Seq<PathBuf>,
    entries: Seq<FileEntry>,
    content: Map<PathBuf, Seq<u8>>,
    cls: spec_fn(PathBuf) -> Set<PathBuf>,
)
    requires
        reports_classes(before, entries, content),
        keeps_groups_apart(before, entries, content),
        !before.is_done(),
        keys.len() == ps.len() <= usize::MAX,
        after.cursor() == before.cursor() + 1,
        after.found() == before.found(),
        after.queue() == before.queue() + layer_queue(layer, before.current_view().1, dup_groups(keys), ps),
        // the classes of the new layer
        forall|f0: PathBuf| #[trigger] cls(f0) == candidate_class(entries, content, (layer, before.current_view().1, seq![f0])),
        // an item is in the class of another exactly when it has its key
        forall|x: int, y: int|
            0 <= x < ps.len() && 0 <= y < ps.len() ==> (keys[x] == keys[y] <==> #[trigger] cls(ps[y]).contains(
                #[trigger] ps[x],
            )),
        // the class of any item holds only items
        forall|y: int, q: PathBuf| 0 <= y < ps.len() && #[trigger] cls(ps[y]).contains(q) ==> ps.contains(q),
        // an owed file of the current candidate is an item, with its class partner
        forall|p: PathBuf|
            is_owed(entries, content, p) && #[trigger] before.current_view().2.contains(p) ==> exists|x: int, y: int|
                0 <= x < ps.len() && 0 <= y < ps.len() && x != y && ps[x] == p && keys[x] == keys[y],
    ensures
        reports_classes(after, entries, content),
{
    let c = before.cursor();
    let n = before.queue().len();
    let size = before.current_view().1;
    let gs = dup_groups(keys);
    law_duplicate_groups(keys);
    assert forall|k: int| 0 <= k < n implies after.queue()[k] == before.queue()[k] by {}
    assert forall|g: int| 0 <= g < gs.len() implies after.queue()[n + g] == (layer, size, picked(ps, gs[g])) by {
        assert(after.queue()[n + g] == layer_queue(layer, size, gs, ps)[g]);
    }
    assert forall|k: int| after.cursor() <= k < after.queue().len() implies (#[trigger] after.queue()[k]).2.to_set()
        == candidate_class(entries, content, after.queue()[k]) by {
        if k >= n {
            let g = k - n;
            let files = picked(ps, gs[g]);
            assert(after.queue()[n + g] == (layer, size, files));
            assert(gs[g].len() >= 2);
            assert(gs[g][0] < keys.len());
            let y = gs[g][0] as int;
            let f0 = ps[y];
            assert(files[0] == f0);
            assert(cls(f0) == candidate_class(entries, content, (layer, size, seq![f0])));
            assert(candidate_class(entries, content, (layer, size, seq![f0])) == candidate_class(
                entries,
                content,
                after.queue()[k],
            ));
            assert forall|q: PathBuf| files.to_set().contains(q) <==> cls(f0).contains(q) by {
                if files.contains(q) {
                    let a = choose|a: int| 0 <= a < files.len() && files[a] == q;
                    let x = gs[g][a] as int;
                    assert(gs[g][a] < keys.len());
                    assert(keys[x] == keys[y]);
                    assert(ps[x] == q);
                }
                if cls(f0).contains(q) {
                    assert(ps.contains(q));
                    let x = choose|x: int| 0 <= x < ps.len() && ps[x] == q;
                    assert(keys[x] == keys[y]);
                    assert(gs[g].contains(x as usize));
                    lemma_picked_contains(ps, gs[g], x);
                }
            }
            assert(files.to_set() =~= cls(f0));
        }
    }
    assert forall|p: PathBuf| #[trigger] is_owed(entries, content, p) implies (exists|k: int|
        after.cursor() <= k < after.queue().len() && #[trigger] after.queue()[k].2.contains(p)) || (exists|g: int|
        0 <= g < after.found().len() && #[trigger] after.found()[g].files@.contains(p)) by {
        if exists|k: int| before.cursor() <= k < before.queue().len() && #[trigger] before.queue()[k].2.contains(p) {
            let k = choose|k: int| before.cursor() <= k < before.queue().len() && #[trigger] before.queue()[k].2.contains(p);
            if k > c {
                assert(after.queue()[k] == before.queue()[k]);
            } else {
                assert(before.current_view() == before.queue()[c]);
                let (x, y) = choose|x: int, y: int|
                    0 <= x < ps.len() && 0 <= y < ps.len() && x != y && ps[x] == p && keys[x] == keys[y];
                let g = lemma_pair_grouped(keys, x, y);
                lemma_picked_contains(ps, gs[g], x);
                assert(after.queue()[n + g].2.contains(p));
            }
        } else {
            let g = choose|g: int| 0 <= g < before.found().len() && #[trigger] before.found()[g].files@.contains(p);
            assert(after.found()[g] == before.found()[g]);
        }
    }
}

/// Law: the quick hashes of a size group, read from its own files, keep the
/// classes, whatever the digests are.
pub proof fn law_classes_quick(
    before: Search,
    after: Search,
    partials: Seq<PartialHash>,
    entries: Seq<FileEntry>,
    content: Map<PathBuf, Seq<u8>>,
)
    requires
        partials.len() <= usize::MAX,
        sizes_of(entries, content),
        reports_classes(before, entries, content),
        keeps_groups_apart(before, entries, content),
        waits_for(before, Layer::QuickHash),
        after_quick_hashes(before, after, partials),
        quick_hashes_of(partials, before.current_view().2, before.current_view().1, content),
    ensures
        reports_classes(after, entries, content),
{
    let c = before.cursor();
    let files = before.current_view().2;
    let n = before.current_view().1;
    let ps = partial_paths(partials);
    let keys = quick_keys(partials);
    let cls = |f0: PathBuf| quick_class(entries, content, n, f0);
    assert(before.queue()[c] == before.current_view());
    assert(files.to_set() == size_class(entries, n));
    lemma_readable_files(files, content);
    assert forall|x: int| 0 <= x < ps.len() implies files.contains(#[trigger] ps[x]) && content.contains_key(ps[x])
        && is_entry_of_size(entries, ps[x], n) && keys[x] == quick_digest(content[ps[x]], n) by {
        assert(partials[x].path == ps[x]);
        assert(files.to_set().contains(ps[x]));
    }
    assert forall|f0: PathBuf| #[trigger] cls(f0) == candidate_class(entries, content, (Layer::FullHash, n, seq![f0])) by {}
    assert forall|x: int, y: int| 0 <= x < ps.len() && 0 <= y < ps.len() implies (keys[x] == keys[y] <==> #[trigger] cls(
        ps[y],
    ).contains(#[trigger] ps[x])) by {}
    assert forall|y: int, q: PathBuf| 0 <= y < ps.len() && #[trigger] cls(ps[y]).contains(q) implies ps.contains(q) by {
        assert(size_class(entries, n).contains(q));
        assert(files.to_set().contains(q));
    }
    assert forall|p: PathBuf| is_owed(entries, content, p) && #[trigger] files.contains(p) implies exists|x: int, y: int|
        0 <= x < ps.len() && 0 <= y < ps.len() && x != y && ps[x] == p && keys[x] == keys[y] by {
        let q = choose|q: PathBuf| q != p && #[trigger] file_class(entries, content, p).contains(q);
        assert(files.to_set().contains(p));
        lemma_entry_size(entries, content, p, n);
        assert(size_class(entries, n).contains(q));
        assert(files.to_set().contains(q));
        assert(ps.contains(p) && ps.contains(q));
        let x = choose|x: int| 0 <= x < ps.len() && ps[x] == p;
        let y = choose|y: int| 0 <= y < ps.len() && ps[y] == q;
        assert(keys[x] == quick_digest(content[ps[x]], n));
        assert(keys[y] == quick_digest(content[ps[y]], n));
    }
    lemma_split_keeps_classes(before, after, Layer::FullHash, keys, ps, entries, content, cls);
}

/// Law: the full hashes of a candidate, read from its own files, keep the
/// classes, whatever the digests are.
pub proof fn law_classes_full(
    before: Search,
    after: Search,
    fulls: Seq<FullHash>,
    entries: Seq<FileEntry>,
    content: Map<PathBuf, Seq<u8>>,
)
    requires
        fulls.len() <= usize::MAX,
        sizes_of(entries, content),
        reports_classes(before, entries, content),
        keeps_groups_apart(before, entries, content),
        waits_for(before, Layer::FullHash),
        after_full_hashes(before, after, fulls),
        full_hashes_of(fulls, before.current_view().2, content),
    ensures
        reports_classes(after, entries, content),
{
    let c = before.cursor();
    let files = before.current_view().2;
    let n = before.current_view().1;
    let ps = full_paths(fulls);
    let keys = full_keys(fulls);
    let cls = |f0: PathBuf| full_class(entries, content, n, f0);
    assert(before.queue()[c] == before.current_view());
    let h = files[0];
    assert(files.to_set() == quick_class(entries, content, n, h));
    lemma_readable_files(files, content);
    assert forall|x: int| 0 <= x < ps.len() implies files.contains(#[trigger] ps[x]) && quick_class(
        entries,
        content,
        n,
        h,
    ).contains(ps[x]) && keys[x] == blake3_digest(content[ps[x]]) by {
        assert(fulls[x].path == ps[x]);
        assert(files.to_set().contains(ps[x]));
    }
    assert forall|f0: PathBuf| #[trigger] cls(f0) == candidate_class(entries, content, (Layer::Compare, n, seq![f0])) by {}
    assert forall|x: int, y: int| 0 <= x < ps.len() && 0 <= y < ps.len() implies (keys[x] == keys[y] <==> #[trigger] cls(
        ps[y],
    ).contains(#[trigger] ps[x])) by {
        assert(quick_class(entries, content, n, h).contains(ps[x]));
        assert(quick_class(entries, content, n, h).contains(ps[y]));
        assert(quick_class(entries, content, n, ps[y]).contains(ps[x]));
    }
    assert forall|y: int, q: PathBuf| 0 <= y < ps.len() && #[trigger] cls(ps[y]).contains(q) implies ps.contains(q) by {
        assert(quick_class(entries, content, n, h).contains(ps[y]));
        assert(quick_class(entries, content, n, h).contains(q));
        assert(files.to_set().contains(q));
    }
    assert forall|p: PathBuf| is_owed(entries, content, p) && #[trigger] files.contains(p) implies exists|x: int, y: int|
        0 <= x < ps.len() && 0 <= y < ps.len() && x != y && ps[x] == p && keys[x] == keys[y] by {
        let q = choose|q: PathBuf| q != p && #[trigger] file_class(entries, content, p).contains(q);
        assert(files.to_set().contains(p));
        assert(quick_class(entries, content, n, h).contains(p));
        lemma_entry_size(entries, content, p, n);
        assert(quick_class(entries, content, n, h).contains(q));
        assert(files.to_set().contains(q));
        assert(ps.contains(p) && ps.contains(q));
        let x = choose|x: int| 0 <= x < ps.len() && ps[x] == p;
        let y = choose|y: int| 0 <= y < ps.len() && ps[y] == q;
        assert(keys[x] == blake3_digest(content[ps[x]]));
        assert(keys[y] == blake3_digest(content[ps[y]]));
    }
    lemma_split_keeps_classes(before, after, Layer::Compare, keys, ps, entries, content, cls);
}

/// Law: comparing a candidate byte by byte keeps the classes, whatever the
/// digests are: it is confirmed exactly when all its files hold the same bytes,
/// and then it is the owed group of its first file.
pub proof fn law_classes_comparison(
    before: Search,
    after: Search,
    identical: bool,
    first_hash: Option<HashBytes>,
    entries: Seq<FileEntry>,
    content: Map<PathBuf, Seq<u8>>,
)
    requires
        sizes_of(entries, content),
        reports_classes(before, entries, content),
        keeps_groups_apart(before, entries, content),
        waits_for(before, Layer::Compare),
        after_comparison(before, after, identical, first_hash),
        comparison_of(identical, before.current_view().2, content),
        first_hash_of(identical, first_hash, before.current_view().2, content),
    ensures
        reports_classes(after, entries, content),
{
    let c = before.cursor();
    let files = before.current_view().2;
    let n = before.current_view().1;
    let m = before.found().len();
    assert(before.queue()[c] == before.current_view());
    let f0 = files[0];
    assert(files.len() >= 2 && files.no_duplicates());
    assert(files.to_set() == full_class(entries, content, n, f0));
    assert(files.contains(f0));
    assert(full_class(entries, content, n, f0).contains(f0));
    lemma_entry_size(entries, content, f0, n);
    assert(file_class(entries, content, f0) == full_class(entries, content, n, f0));
    assert forall|g: int| 0 <= g < m implies after.found()[g] == before.found()[g] by {
        if identical {
            assert(after.found().drop_last()[g] == after.found()[g]);
        }
    }
    if identical {
        let last = after.found()[m as int];
        assert(last == after.found().last());
        assert(last.files@ == files);
        assert(group_view(last) == owed_group(entries, content, f0));
        assert(files[1] != f0);
        assert(files.contains(files[1]));
        assert(file_class(entries, content, f0).contains(files[1]));
        assert forall|q: PathBuf| #[trigger] file_class(entries, content, f0).contains(q) implies content[q] == content[f0] by {
            assert(files.to_set().contains(q));
            let f = choose|f: int| 0 <= f < files.len() && files[f] == q;
            assert(same_bytes(content, files[f], files[0]));
        }
        assert(is_owed(entries, content, f0));
    }
    assert forall|g: int| 0 <= g < after.found().len() implies group_view(#[trigger] after.found()[g]) == owed_group(
        entries,
        content,
        after.found()[g].files@[0],
    ) && is_owed(entries, content, after.found()[g].files@[0]) by {
        if g < m {
            assert(after.found()[g] == before.found()[g]);
        }
    }
    assert forall|p: PathBuf| #[trigger] is_owed(entries, content, p) implies (exists|k: int|
        after.cursor() <= k < after.queue().len() && #[trigger] after.queue()[k].2.contains(p)) || (exists|g: int|
        0 <= g < after.found().len() && #[trigger] after.found()[g].files@.contains(p)) by {
        if exists|k: int| before.cursor() <= k < before.queue().len() && #[trigger] before.queue()[k].2.contains(p) {
            let k = choose|k: int| before.cursor() <= k < before.queue().len() && #[trigger] before.queue()[k].2.contains(p);
            if k > c {
                assert(after.queue()[k] == before.queue()[k]);
            } else {
                assert(files.to_set().contains(p));
                lemma_entry_size(entries, content, p, n);
                lemma_same_class(entries, content, n, f0, p);
                assert(file_class(entries, content, p) == full_class(entries, content, n, f0));
                assert forall|f: int| 0 <= f < files.len() implies same_bytes(content, #[trigger] files[f], files[0]) by {
                    assert(files.to_set().contains(files[f]));
                    assert(file_class(entries, content, p).contains(files[f]));
                    assert(file_class(entries, content, p).contains(files[0]));
                }
                assert(identical);
                assert(after.found()[m as int] == after.found().last());
                assert(after.found()[m as int].files@.contains(p));
            }
        } else {
            let g = choose|g: int| 0 <= g < before.found().len() && #[trigger] before.found()[g].files@.contains(p);
            assert(after.found()[g] == before.found()[g]);
        }
    }
}

/// Law: a finished search that kept its classes reports exactly the owed
/// groups, each seen as size, digest and set of files, whatever the digests;
/// a file that cannot be read is in no group.
pub proof fn law_reports_owed_groups(s: Search, entries: Seq<FileEntry>, content: Map<PathBuf, Seq<u8>>)
    requires
        sizes_of(entries, content),
        reports_classes(s, entries, content),
        s.is_done(),
    ensures
        reported_views(s) == owed_views(entries, content),
        forall|g: int, f: int|
            0 <= g < s.found().len() && 0 <= f < s.found()[g].files@.len() ==> content.contains_key(
                #[trigger] s.found()[g].files@[f],
            ),
{
    assert forall|g: int, f: int|
        0 <= g < s.found().len() && 0 <= f < s.found()[g].files@.len() implies content.contains_key(
        #[trigger] s.found()[g].files@[f],
    ) by {
        let files = s.found()[g].files@;
        assert(group_view(s.found()[g]) == owed_group(entries, content, files[0]));
        assert(files.to_set().contains(files[f]));
        assert(file_class(entries, content, files[0]).contains(files[f]));
    }
    let vs = s.found().map_values(|g: DuplicateGroup| group_view(g));
    assert forall|v: (u64, Seq<u8>, Set<PathBuf>)| reported_views(s).contains(v) <==> owed_views(entries, content).contains(v) by {
        if reported_views(s).contains(v) {
            let g = choose|g: int| 0 <= g < vs.len() && vs[g] == v;
            assert(is_owed(entries, content, s.found()[g].files@[0]));
        }
        if owed_views(entries, content).contains(v) {
            let p = choose|p: PathBuf| #[trigger] is_owed(entries, content, p) && v == owed_group(entries, content, p);
            let g = choose|g: int| 0 <= g < s.found().len() && #[trigger] s.found()[g].files@.contains(p);
            let f0 = s.found()[g].files@[0];
            assert(group_view(s.found()[g]) == owed_group(entries, content, f0));
            assert(s.found()[g].files@.to_set().contains(p));
            assert(file_class(entries, content, f0).contains(p));
            assert(is_owed(entries, content, f0));
            assert(content[p] == content[f0]);
            assert(file_class(entries, content, p) =~= file_class(entries, content, f0));
            assert(vs[g] == v);
        }
    }
    assert(reported_views(s) =~= owed_views(entries, content));
}

/// The owed groups depend only on the readable entry paths and their bytes.
proof fn lemma_owed_views_agree(entries1: Seq<FileEntry>, entries2: Seq<FileEntry>, content: Map<PathBuf, Seq<u8>>)
    requires
        sizes_of(entries1, content),
        sizes_of(entries2, content),
        forall|p: PathBuf|
            #[trigger] content.contains_key(p) ==> (entry_paths(entries1).contains(p) <==> entry_paths(
                entries2,
            ).contains(p)),
    ensures
        owed_views(entries1, content) == owed_views(entries2, content),
{
    assert forall|p: PathBuf| #[trigger] content.contains_key(p) implies file_class(entries1, content, p) == file_class(entries2, content, p) by {
        let n = content[p].len() as u64;
        assert forall|q: PathBuf| file_class(entries1, content, p).contains(q) <==> file_class(entries2, content, p).contains(q) by {
            if file_class(entries1, content, p).contains(q) {
                lemma_entry_size(entries1, content, q, n);
                lemma_entry_of_its_size(entries2, content, q);
            }
            if file_class(entries2, content, p).contains(q) {
                lemma_entry_size(entries2, content, q, n);
                lemma_entry_of_its_size(entries1, content, q);
            }
        }
        assert(file_class(entries1, content, p) =~= file_class(entries2, content, p));
    }
    assert forall|p: PathBuf| is_owed(entries1, content, p) <==> is_owed(entries2, content, p) by {
        if content.contains_key(p) {
            assert(file_class(entries1, content, p) == file_class(entries2, content, p));
        }
    }
    assert forall|v: (u64, Seq<u8>, Set<PathBuf>)| owed_views(entries1, content).contains(v) <==> owed_views(entries2, content).contains(v) by {
        if owed_views(entries1, content).contains(v) {
            let p = choose|p: PathBuf| #[trigger] is_owed(entries1, content, p) && v == owed_group(entries1, content, p);
            assert(is_owed(entries2, content, p));
            assert(owed_group(entries2, content, p) == v);
        }
        if owed_views(entries2, content).contains(v) {
            let p = choose|p: PathBuf| #[trigger] is_owed(entries2, content, p) && v == owed_group(entries2, content, p);
            assert(is_owed(entries1, content, p));
            assert(owed_group(entries1, content, p) == v);
        }
    }
    assert(owed_views(entries1, content) =~= owed_views(entries2, content));
}

/// The bytes a group's files take together, from its view.
pub open spec fn view_bytes(v: (u64, Seq<u8>, Set<PathBuf>)) -> int {
    v.0 * v.2.len()
}

/// Changing one item of a sum.
proof fn lemma_sum_of_update<A>(s: Seq<A>, f: spec_fn(A) -> int, j: int, v: A)
    requires
        0 <= j < s.len(),
    ensures
        sum_of(s.update(j, v), f) == sum_of(s, f) - f(s[j]) + f(v),
    decreases s.len(),
{
    let t = s.update(j, v);
    if j == s.len() - 1 {
        assert(t.drop_last() =~= s.drop_last());
    } else {
        lemma_sum_of_update(s.drop_last(), f, j, v);
        assert(t.drop_last() =~= s.drop_last().update(j, v));
    }
}

/// A sum of items each no larger than another sum's items is no larger.
proof fn lemma_sum_of_le<A>(s: Seq<A>, f: spec_fn(A) -> int, h: spec_fn(A) -> int)
    requires
        forall|i: int| 0 <= i < s.len() ==> f(#[trigger] s[i]) <= h(s[i]),
    ensures
        sum_of(s, f) <= sum_of(s, h),
    decreases s.len(),
{
    if s.len() > 0 {
        assert(s[s.len() - 1] == s.last());
        lemma_sum_of_le(s.drop_last(), f, h);
    }
}

/// Disjoint groups of distinct entries, each of its own size, take together no
/// more bytes than all the entries.
proof fn lemma_groups_within_entries(vs: Seq<(u64, Seq<u8>, Set<PathBuf>)>, entries: Seq<FileEntry>)
    requires
        entry_paths(entries).no_duplicates(),
        forall|j: int| 0 <= j < vs.len() ==> (#[trigger] vs[j]).2.finite(),
        forall|j: int, q: PathBuf| 0 <= j < vs.len() && #[trigger] vs[j].2.contains(q) ==> is_entry_of_size(entries, q, vs[j].0),
        forall|j1: int, j2: int, q: PathBuf|
            0 <= j1 < vs.len() && 0 <= j2 < vs.len() && #[trigger] vs[j1].2.contains(q) && #[trigger] vs[j2].2.contains(q) ==> j1 == j2,
    ensures
        sum_of(vs, |v: (u64, Seq<u8>, Set<PathBuf>)| view_bytes(v)) <= total_size(entries),
    decreases entries.len(),
{
    let w = |v: (u64, Seq<u8>, Set<PathBuf>)| view_bytes(v);
    if entries.len() == 0 {
        assert forall|i: int| 0 <= i < vs.len() implies w(#[trigger] vs[i]) <= (|v: (u64, Seq<u8>, Set<PathBuf>)| 0int)(vs[i]) by {
            if vs[i].2.len() > 0 {
                let q = vs[i].2.choose();
                assert(vs[i].2.contains(q));
            }
        }
        lemma_sum_of_le(vs, w, |v: (u64, Seq<u8>, Set<PathBuf>)| 0int);
        lemma_sum_of_zero(vs);
    } else {
        let e = entries.last();
        let rest = entries.drop_last();
        let last = entries.len() - 1;
        assert(entries[last] == e);
        assert(entry_paths(rest) =~= entry_paths(entries).drop_last());
        // A member other than the last entry's path is an entry of the rest.
        assert forall|q: PathBuf, n: u64| q != e.path && is_entry_of_size(entries, q, n) implies is_entry_of_size(rest, q, n) by {
            let i = choose|i: int| 0 <= i < entries.len() && #[trigger] entries[i].path == q && entries[i].size == n;
            assert(rest[i] == entries[i]);
        }
        if exists|j: int| 0 <= j < vs.len() && #[trigger] vs[j].2.contains(e.path) {
            let j = choose|j: int| 0 <= j < vs.len() && #[trigger] vs[j].2.contains(e.path);
            let vj = vs[j];
            let nv = (vj.0, vj.1, vj.2.remove(e.path));
            let vs2 = vs.update(j, nv);
            assert(is_entry_of_size(entries, e.path, vj.0));
            let i = choose|i: int| 0 <= i < entries.len() && #[trigger] entries[i].path == e.path && entries[i].size == vj.0;
            if i != last {
                assert(entry_paths(entries)[i] == entry_paths(entries)[last]);
            }
            assert(e.size == vj.0);
            assert forall|k: int, q: PathBuf| 0 <= k < vs2.len() && #[trigger] vs2[k].2.contains(q) implies is_entry_of_size(rest, q, vs2[k].0) by {
                if k == j {
                    assert(vs[j].2.contains(q));
                } else {
                    assert(vs2[k] == vs[k]);
                    if q == e.path {
                        assert(vs[j].2.contains(q));
                    }
                }
            }
            assert forall|j1: int, j2: int, q: PathBuf|
                0 <= j1 < vs2.len() && 0 <= j2 < vs2.len() && #[trigger] vs2[j1].2.contains(q) && #[trigger] vs2[j2].2.contains(q) implies j1 == j2 by {
                assert(vs[j1].2.contains(q));
                assert(vs[j2].2.contains(q));
            }
            assert forall|k: int| 0 <= k < vs2.len() implies (#[trigger] vs2[k]).2.finite() by {}
            lemma_groups_within_entries(vs2, rest);
            lemma_sum_of_update(vs, w, j, nv);
            assert(vj.2.remove(e.path).len() == vj.2.len() - 1);
            assert(w(nv) == w(vj) - vj.0) by (nonlinear_arith)
                requires
                    w(nv) == vj.0 * (vj.2.len() - 1),
                    w(vj) == vj.0 * vj.2.len(),
            ;
        } else {
            assert forall|k: int, q: PathBuf| 0 <= k < vs.len() && #[trigger] vs[k].2.contains(q) implies is_entry_of_size(rest, q, vs[k].0) by {}
            lemma_groups_within_entries(vs, rest);
        }
    }
}

/// A sum of zeros is zero.
proof fn lemma_sum_of_zero(vs: Seq<(u64, Seq<u8>, Set<PathBuf>)>)
    ensures
        sum_of(vs, |v: (u64, Seq<u8>, Set<PathBuf>)| 0int) == 0,
    decreases vs.len(),
{
    if vs.len() > 0 {
        lemma_sum_of_zero(vs.drop_last());
    }
}

/// Law: the groups a search keeps apart, over entries with distinct paths,
/// waste no more bytes than the entries take in all. So when the entries'
/// total size fits in `u64`, so do the wasted bytes.
pub proof fn law_wasted_within_total(s: Search, entries: Seq<FileEntry>, content: Map<PathBuf, Seq<u8>>)
    requires
        entry_paths(entries).no_duplicates(),
        keeps_groups_apart(s, entries, content),
    ensures
        wasted_bytes(s.found()) <= total_size(entries),
{
    let vs = s.found().map_values(|g: DuplicateGroup| group_view(g));
    law_confirmed_groups(s, entries, content);
    lemma_wasted_by_views(s.found());
    assert forall|j: int| 0 <= j < vs.len() implies (#[trigger] vs[j]).2.finite() by {}
    assert forall|j: int, q: PathBuf| 0 <= j < vs.len() && #[trigger] vs[j].2.contains(q) implies is_entry_of_size(entries, q, vs[j].0) by {
        assert(s.found()[j].files@.contains(q));
        let f = choose|f: int| 0 <= f < s.found()[j].files@.len() && s.found()[j].files@[f] == q;
    }
    assert forall|j1: int, j2: int, q: PathBuf|
        0 <= j1 < vs.len() && 0 <= j2 < vs.len() && #[trigger] vs[j1].2.contains(q) && #[trigger] vs[j2].2.contains(q) implies j1 == j2 by {
        assert(s.found()[j1].files@.contains(q));
        assert(s.found()[j2].files@.contains(q));
    }
    lemma_groups_within_entries(vs, entries);
    assert forall|i: int| 0 <= i < vs.len() implies view_waste(#[trigger] vs[i]) <= view_bytes(vs[i]) by {
        let v = vs[i];
        assert(v.0 * (v.2.len() - 1) <= v.0 * v.2.len()) by (nonlinear_arith);
    }
    lemma_sum_of_le(vs, |v: (u64, Seq<u8>, Set<PathBuf>)| view_waste(v), |v: (u64, Seq<u8>, Set<PathBuf>)| view_bytes(v));
}

} // verus!
