//! The decisions of the four-layer duplicate search.
//!
//! 1. Files are grouped by size; sizes held by one file only drop out.
//! 2. Each size group is split by the hash of the files' first bytes.
//! 3. Each remaining group is split by the hash of the whole files.
//! 4. A group whose files all compare equal byte by byte is confirmed.
//!
//! Only groups of two or more files go on to the next layer. Hashing and comparing
//! need the files' bytes, which the caller reads between the layers.
use vstd::prelude::*;

use std::collections::HashMap;
use std::path::PathBuf;

use crate::grouping::{are_first_indices, dup_groups, groups_from_firsts, is_first_of, law_duplicate_groups};
use crate::hasher::{blake3_digest, empty_digest};
use crate::types::{DuplicateGroup, FileEntry, FullHash, HashBytes, PartialHash, ScanStats};

verus! {

/// Files that are still candidates for being duplicates of one another.
#[derive(Debug)]
pub struct Candidate {
    pub size: u64,
    pub files: Vec<PathBuf>,
}

pub open spec fn entry_sizes(entries: Seq<FileEntry>) -> Seq<u64> {
    entries.map_values(|e: FileEntry| e.size)
}

pub open spec fn entry_paths(entries: Seq<FileEntry>) -> Seq<PathBuf> {
    entries.map_values(|e: FileEntry| e.path)
}

pub open spec fn quick_keys(partials: Seq<PartialHash>) -> Seq<Seq<u8>> {
    partials.map_values(|p: PartialHash| p.quick_hash@)
}

pub open spec fn partial_paths(partials: Seq<PartialHash>) -> Seq<PathBuf> {
    partials.map_values(|p: PartialHash| p.path)
}

pub open spec fn full_keys(fulls: Seq<FullHash>) -> Seq<Seq<u8>> {
    fulls.map_values(|f: FullHash| f.hash@)
}

pub open spec fn full_paths(fulls: Seq<FullHash>) -> Seq<PathBuf> {
    fulls.map_values(|f: FullHash| f.path)
}

/// The items at the given indices, in that order.
pub open spec fn picked<T>(items: Seq<T>, idx: Seq<usize>) -> Seq<T> {
    idx.map_values(|i: usize| items[i as int])
}

/// The candidates owed for the given keys and paths: one per duplicate group of
/// the keys, holding the paths of the group's items.
pub open spec fn candidates_match(
    r: Seq<Candidate>,
    keys_groups: Seq<Seq<usize>>,
    paths: Seq<PathBuf>,
    sizes: spec_fn(Seq<usize>) -> u64,
) -> bool {
    &&& r.len() == keys_groups.len()
    &&& forall|g: int|
        0 <= g < r.len() ==> {
            &&& (#[trigger] r[g]).size == sizes(keys_groups[g])
            &&& r[g].files@ == picked(paths, keys_groups[g])
        }
}

/// For each size, the index of the first entry with that size.
fn first_indices_by_size(keys: &Vec<u64>) -> (r: Vec<usize>)
    ensures
        are_first_indices(keys@, r@),
{
    let n = keys.len();
    let mut seen: HashMap<u64, usize> = HashMap::new();
    let mut firsts: Vec<usize> = Vec::new();
    let mut i: usize = 0;
    while i < n
        invariant
            n == keys@.len(),
            i <= n,
            firsts@.len() == i,
            forall|j: int|
                0 <= j < i ==> {
                    &&& #[trigger] firsts@[j] <= j
                    &&& keys@[firsts@[j] as int] == keys@[j]
                    &&& is_first_of(keys@, firsts@[j] as int)
                },
            forall|k: u64| #[trigger] seen@.contains_key(k) ==> {
                &&& seen@[k] < i
                &&& keys@[seen@[k] as int] == k
                &&& is_first_of(keys@, seen@[k] as int)
            },
            forall|j: int| 0 <= j < i ==> #[trigger] seen@.contains_key(keys@[j]),
        decreases n - i,
    {
        let k = keys[i];
        match seen.get(&k) {
            Some(f) => {
                firsts.push(*f);
            },
            None => {
                assert forall|j: int| 0 <= j < i implies keys@[j] != keys@[i as int] by {
                    assert(seen@.contains_key(keys@[j]));
                }
                seen.insert(k, i);
                firsts.push(i);
            },
        }
        i = i + 1;
    }
    firsts
}

/// For each digest, the index of the first item with the same digest.
fn first_indices_by_hash(keys: &Vec<HashBytes>) -> (r: Vec<usize>)
    ensures
        are_first_indices(keys@.map_values(|h: HashBytes| h@), r@),
{
    let ghost kv = keys@.map_values(|h: HashBytes| h@);
    let n = keys.len();
    let mut distinct: Vec<usize> = Vec::new();
    let mut firsts: Vec<usize> = Vec::new();
    let mut i: usize = 0;
    while i < n
        invariant
            n == keys@.len() == kv.len(),
            kv == keys@.map_values(|h: HashBytes| h@),
            i <= n,
            firsts@.len() == i,
            forall|j: int|
                0 <= j < i ==> {
                    &&& #[trigger] firsts@[j] <= j
                    &&& kv[firsts@[j] as int] == kv[j]
                    &&& is_first_of(kv, firsts@[j] as int)
                },
            forall|t: int|
                0 <= t < distinct@.len() ==> #[trigger] distinct@[t] < i && is_first_of(
                    kv,
                    distinct@[t] as int,
                ),
            forall|j: int| 0 <= j < i ==> #[trigger] distinct@.contains(firsts@[j]),
        decreases n - i,
    {
        let ghost old_distinct = distinct@;
        let mut t: usize = 0;
        let mut found: Option<usize> = None;
        while t < distinct.len()
            invariant
                n == keys@.len() == kv.len(),
                kv == keys@.map_values(|h: HashBytes| h@),
                i < n,
                t <= distinct@.len(),
                forall|u: int| 0 <= u < distinct@.len() ==> #[trigger] distinct@[u] < i,
                found is None ==> forall|u: int| 0 <= u < t ==> kv[#[trigger] distinct@[u] as int] != kv[i as int],
                found matches Some(f) ==> distinct@.contains(f) && kv[f as int] == kv[i as int],
            ensures
                found is None ==> forall|u: int| 0 <= u < distinct@.len() ==> kv[#[trigger] distinct@[u] as int] != kv[i as int],
                found matches Some(f) ==> distinct@.contains(f) && kv[f as int] == kv[i as int],
            decreases distinct@.len() - t,
        {
            let d = distinct[t];
            if keys[d].same_as(&keys[i]) {
                assert(distinct@[t as int] == d);
                found = Some(d);
                break;
            }
            t = t + 1;
        }
        match found {
            Some(f) => {
                firsts.push(f);
            },
            None => {
                assert forall|j: int| 0 <= j < i implies kv[j] != kv[i as int] by {
                    let f = firsts@[j];
                    assert(distinct@.contains(f));
                    let u = choose|u: int| 0 <= u < distinct@.len() && distinct@[u] == f;
                    assert(kv[distinct@[u] as int] != kv[i as int]);
                }
                distinct.push(i);
                firsts.push(i);
                assert(distinct@[distinct@.len() - 1] == i);
            },
        }
        proof {
            assert forall|j: int| 0 <= j < i + 1 implies #[trigger] distinct@.contains(firsts@[j]) by {
                if j < i {
                    assert(old_distinct.contains(firsts@[j]));
                    let u = choose|u: int| 0 <= u < old_distinct.len() && old_distinct[u] == firsts@[j];
                    assert(distinct@[u] == old_distinct[u]);
                } else {
                    match found {
                        Some(f) => {},
                        None => {
                            assert(distinct@[distinct@.len() - 1] == firsts@[j]);
                        },
                    }
                }
            }
        }
        i = i + 1;
    }
    firsts
}

/// Copies out the paths at the given indices.
fn paths_at(paths: &Vec<PathBuf>, idx: &Vec<usize>) -> (r: Vec<PathBuf>)
    requires
        forall|a: int| 0 <= a < idx@.len() ==> #[trigger] idx@[a] < paths@.len(),
    ensures
        r@ == picked(paths@, idx@),
{
    let mut out: Vec<PathBuf> = Vec::new();
    let mut a: usize = 0;
    while a < idx.len()
        invariant
            a <= idx@.len(),
            forall|b: int| 0 <= b < idx@.len() ==> #[trigger] idx@[b] < paths@.len(),
            out@ == picked(paths@, idx@.take(a as int)),
        decreases idx@.len() - a,
    {
        let p = paths[idx[a]].clone();
        out.push(p);
        assert(idx@.take(a + 1) =~= idx@.take(a as int).push(idx@[a as int]));
        assert(out@ =~= picked(paths@, idx@.take(a + 1)));
        a = a + 1;
    }
    assert(idx@.take(idx@.len() as int) =~= idx@);
    out
}

/// Layer 1: groups the entries by size, keeping the sizes held by two or more
/// entries. Entries keep their input order inside a group; groups come in the
/// order of their first entries.
pub fn group_by_size(entries: &Vec<FileEntry>) -> (r: Vec<Candidate>)
    ensures
        candidates_match(
            r@,
            dup_groups(entry_sizes(entries@)),
            entry_paths(entries@),
            |g: Seq<usize>| entries@[g[0] as int].size,
        ),
{
    let n = entries.len();
    let mut sizes: Vec<u64> = Vec::new();
    let mut paths: Vec<PathBuf> = Vec::new();
    let mut i: usize = 0;
    while i < n
        invariant
            n == entries@.len(),
            i <= n,
            sizes@ == entry_sizes(entries@.take(i as int)),
            paths@ == entry_paths(entries@.take(i as int)),
        decreases n - i,
    {
        sizes.push(entries[i].size);
        paths.push(entries[i].path.clone());
        assert(entries@.take(i + 1) =~= entries@.take(i as int).push(entries@[i as int]));
        assert(sizes@ =~= entry_sizes(entries@.take(i + 1)));
        assert(paths@ =~= entry_paths(entries@.take(i + 1)));
        i = i + 1;
    }
    assert(entries@.take(n as int) =~= entries@);
    let firsts = first_indices_by_size(&sizes);
    let groups = groups_from_firsts::<u64>(&firsts, Ghost(sizes@));
    proof {
        law_duplicate_groups(sizes@);
    }
    let mut out: Vec<Candidate> = Vec::new();
    let mut g: usize = 0;
    while g < groups.len()
        invariant
            n == entries@.len() == sizes@.len() == paths@.len(),
            sizes@ == entry_sizes(entries@),
            paths@ == entry_paths(entries@),
            groups@.len() == dup_groups(sizes@).len(),
            forall|h: int| 0 <= h < groups@.len() ==> (#[trigger] groups@[h])@ == dup_groups(sizes@)[h],
            forall|h: int| 0 <= h < dup_groups(sizes@).len() ==> (#[trigger] dup_groups(sizes@)[h]).len() >= 2,
            forall|h: int, a: int|
                0 <= h < dup_groups(sizes@).len() && 0 <= a < dup_groups(sizes@)[h].len()
                    ==> #[trigger] dup_groups(sizes@)[h][a] < n,
            g <= groups@.len(),
            candidates_match(
                out@,
                dup_groups(sizes@).take(g as int),
                paths@,
                |gr: Seq<usize>| entries@[gr[0] as int].size,
            ),
        decreases groups@.len() - g,
    {
        let idx = &groups[g];
        assert(idx@ == dup_groups(sizes@)[g as int]);
        let files = paths_at(&paths, idx);
        let size = entries[idx[0]].size;
        out.push(Candidate { size, files });
        assert(dup_groups(sizes@).take(g + 1) =~= dup_groups(sizes@).take(g as int).push(
            dup_groups(sizes@)[g as int],
        ));
        g = g + 1;
    }
    assert(dup_groups(sizes@).take(groups@.len() as int) =~= dup_groups(sizes@));
    out
}


/// Splits items of one size by digest, keeping the digests held by two or more items.
fn split_by_digest(size: u64, digests: &Vec<HashBytes>, paths: &Vec<PathBuf>) -> (r: Vec<Candidate>)
    requires
        digests@.len() == paths@.len(),
    ensures
        candidates_match(
            r@,
            dup_groups(digests@.map_values(|h: HashBytes| h@)),
            paths@,
            |g: Seq<usize>| size,
        ),
{
    let ghost keys = digests@.map_values(|h: HashBytes| h@);
    let n = digests.len();
    let firsts = first_indices_by_hash(digests);
    let groups = groups_from_firsts::<Seq<u8>>(&firsts, Ghost(keys));
    proof {
        law_duplicate_groups(keys);
    }
    let mut out: Vec<Candidate> = Vec::new();
    let mut g: usize = 0;
    while g < groups.len()
        invariant
            n == keys.len() == paths@.len(),
            groups@.len() == dup_groups(keys).len(),
            forall|h: int| 0 <= h < groups@.len() ==> (#[trigger] groups@[h])@ == dup_groups(keys)[h],
            forall|h: int, a: int|
                0 <= h < dup_groups(keys).len() && 0 <= a < dup_groups(keys)[h].len()
                    ==> #[trigger] dup_groups(keys)[h][a] < n,
            g <= groups@.len(),
            candidates_match(out@, dup_groups(keys).take(g as int), paths@, |gr: Seq<usize>| size),
        decreases groups@.len() - g,
    {
        let idx = &groups[g];
        assert(idx@ == dup_groups(keys)[g as int]);
        let files = paths_at(paths, idx);
        out.push(Candidate { size, files });
        assert(dup_groups(keys).take(g + 1) =~= dup_groups(keys).take(g as int).push(
            dup_groups(keys)[g as int],
        ));
        g = g + 1;
    }
    assert(dup_groups(keys).take(groups@.len() as int) =~= dup_groups(keys));
    out
}

/// Layer 2: splits the files of one size group by the hash of their first bytes,
/// keeping the hashes shared by two or more files. `partials` holds the quick
/// hashes that could be computed, in the group's order.
pub fn split_by_quick_hash(size: u64, partials: &Vec<PartialHash>) -> (r: Vec<Candidate>)
    ensures
        candidates_match(r@, dup_groups(quick_keys(partials@)), partial_paths(partials@), |g: Seq<usize>| size),
{
    let n = partials.len();
    let mut digests: Vec<HashBytes> = Vec::new();
    let mut paths: Vec<PathBuf> = Vec::new();
    let mut i: usize = 0;
    while i < n
        invariant
            n == partials@.len(),
            i <= n,
            digests@.len() == i,
            forall|j: int| 0 <= j < i ==> (#[trigger] digests@[j])@ == partials@[j].quick_hash@,
            paths@ == partial_paths(partials@.take(i as int)),
        decreases n - i,
    {
        digests.push(partials[i].quick_hash);
        paths.push(partials[i].path.clone());
        assert(partials@.take(i + 1) =~= partials@.take(i as int).push(partials@[i as int]));
        assert(paths@ =~= partial_paths(partials@.take(i + 1)));
        i = i + 1;
    }
    assert(partials@.take(n as int) =~= partials@);
    assert(digests@.map_values(|h: HashBytes| h@) =~= quick_keys(partials@));
    split_by_digest(size, &digests, &paths)
}

/// Layer 3: splits the files of one candidate group by the hash of their whole
/// contents, keeping the hashes shared by two or more files. `fulls` holds the
/// full hashes that could be computed, in the group's order.
pub fn split_by_full_hash(size: u64, fulls: &Vec<FullHash>) -> (r: Vec<Candidate>)
    ensures
        candidates_match(r@, dup_groups(full_keys(fulls@)), full_paths(fulls@), |g: Seq<usize>| size),
{
    let n = fulls.len();
    let mut digests: Vec<HashBytes> = Vec::new();
    let mut paths: Vec<PathBuf> = Vec::new();
    let mut i: usize = 0;
    while i < n
        invariant
            n == fulls@.len(),
            i <= n,
            digests@.len() == i,
            forall|j: int| 0 <= j < i ==> (#[trigger] digests@[j])@ == fulls@[j].hash@,
            paths@ == full_paths(fulls@.take(i as int)),
        decreases n - i,
    {
        digests.push(fulls[i].hash);
        paths.push(fulls[i].path.clone());
        assert(fulls@.take(i + 1) =~= fulls@.take(i as int).push(fulls@[i as int]));
        assert(paths@ =~= full_paths(fulls@.take(i + 1)));
        i = i + 1;
    }
    assert(fulls@.take(n as int) =~= fulls@);
    assert(digests@.map_values(|h: HashBytes| h@) =~= full_keys(fulls@));
    split_by_digest(size, &digests, &paths)
}

/// Layer 4: a candidate whose files were all found equal byte by byte becomes a
/// duplicate group. Its digest is the full hash of its first file when that
/// could be recomputed (`first_hash`), else the digest of empty input.
pub fn confirmed_group(candidate: Candidate, first_hash: Option<HashBytes>) -> (r: DuplicateGroup)
    ensures
        r.size == candidate.size,
        r.files@ == candidate.files@,
        r.hash@ == match first_hash {
            Some(h) => h@,
            None => blake3_digest(Seq::empty()),
        },
{
    let hash = match first_hash {
        Some(h) => h,
        None => empty_digest(),
    };
    DuplicateGroup { size: candidate.size, hash, files: candidate.files }
}


/// The sum of the entries' sizes.
pub open spec fn total_size(entries: Seq<FileEntry>) -> int
    decreases entries.len(),
{
    if entries.len() == 0 {
        0
    } else {
        total_size(entries.drop_last()) + entries.last().size
    }
}

/// The bytes that deleting all but one file of each group would free:
/// the sum of `size * (files - 1)` over the groups.
pub open spec fn wasted_bytes(groups: Seq<DuplicateGroup>) -> int
    decreases groups.len(),
{
    if groups.len() == 0 {
        0
    } else {
        wasted_bytes(groups.drop_last()) + groups.last().size * (groups.last().files@.len() - 1)
    }
}

proof fn lemma_total_size_prefix(entries: Seq<FileEntry>, i: int)
    requires
        0 <= i <= entries.len(),
    ensures
        0 <= total_size(entries.take(i)) <= total_size(entries),
    decreases entries.len() - i,
{
    if i < entries.len() {
        lemma_total_size_prefix(entries, i + 1);
        assert(entries.take(i + 1).drop_last() =~= entries.take(i));
        assert(entries.take(i + 1).last() == entries[i]);
        lemma_total_size_nonneg(entries.take(i));
    } else {
        assert(entries.take(i) =~= entries);
        lemma_total_size_nonneg(entries);
    }
}

proof fn lemma_total_size_nonneg(entries: Seq<FileEntry>)
    ensures
        total_size(entries) >= 0,
    decreases entries.len(),
{
    if entries.len() > 0 {
        lemma_total_size_nonneg(entries.drop_last());
    }
}

proof fn lemma_wasted_prefix(groups: Seq<DuplicateGroup>, i: int)
    requires
        0 <= i <= groups.len(),
        forall|g: int| 0 <= g < groups.len() ==> (#[trigger] groups[g]).files@.len() >= 1,
    ensures
        0 <= wasted_bytes(groups.take(i)) <= wasted_bytes(groups),
    decreases groups.len() - i,
{
    if i < groups.len() {
        lemma_wasted_prefix(groups, i + 1);
        let t = groups.take(i + 1);
        assert(t.drop_last() =~= groups.take(i));
        assert(t.last() == groups[i]);
        let x = groups[i];
        assert(x.size * (x.files@.len() - 1) >= 0) by (nonlinear_arith)
            requires
                x.files@.len() >= 1,
        ;
        let p = groups.take(i);
        assert forall|g: int| 0 <= g < p.len() implies (#[trigger] p[g]).files@.len() >= 1 by {
            assert(p[g] == groups[g]);
        }
        lemma_wasted_nonneg(p);
    } else {
        assert(groups.take(i) =~= groups);
        lemma_wasted_nonneg(groups);
    }
}

proof fn lemma_wasted_nonneg(groups: Seq<DuplicateGroup>)
    requires
        forall|g: int| 0 <= g < groups.len() ==> (#[trigger] groups[g]).files@.len() >= 1,
    ensures
        wasted_bytes(groups) >= 0,
    decreases groups.len(),
{
    if groups.len() > 0 {
        let x = groups.last();
        assert(groups[groups.len() - 1] == x);
        assert(x.size * (x.files@.len() - 1) >= 0) by (nonlinear_arith)
            requires
                x.files@.len() >= 1,
        ;
        lemma_wasted_nonneg(groups.drop_last());
    }
}

/// The totals of a scan: how many files and bytes were looked at, how many
/// duplicate groups were found and how many bytes they waste.
pub fn scan_stats(entries: &Vec<FileEntry>, groups: &Vec<DuplicateGroup>) -> (r: ScanStats)
    requires
        total_size(entries@) <= u64::MAX,
        forall|g: int| 0 <= g < groups@.len() ==> (#[trigger] groups@[g]).files@.len() >= 1,
        wasted_bytes(groups@) <= u64::MAX,
    ensures
        r.total_files == entries@.len(),
        r.total_size == total_size(entries@),
        r.duplicate_groups == groups@.len(),
        r.wasted_bytes == wasted_bytes(groups@),
{
    let mut size: u64 = 0;
    let mut i: usize = 0;
    while i < entries.len()
        invariant
            i <= entries@.len(),
            total_size(entries@) <= u64::MAX,
            size == total_size(entries@.take(i as int)),
        decreases entries@.len() - i,
    {
        proof {
            lemma_total_size_prefix(entries@, i + 1);
            assert(entries@.take(i + 1).drop_last() =~= entries@.take(i as int));
        }
        size = size + entries[i].size;
        i = i + 1;
    }
    assert(entries@.take(entries@.len() as int) =~= entries@);
    let mut wasted: u64 = 0;
    let mut g: usize = 0;
    while g < groups.len()
        invariant
            g <= groups@.len(),
            forall|h: int| 0 <= h < groups@.len() ==> (#[trigger] groups@[h]).files@.len() >= 1,
            wasted_bytes(groups@) <= u64::MAX,
            wasted == wasted_bytes(groups@.take(g as int)),
        decreases groups@.len() - g,
    {
        let ghost t = groups@.take(g + 1);
        proof {
            lemma_wasted_prefix(groups@, g + 1);
            lemma_wasted_prefix(groups@, g as int);
            assert(t.drop_last() =~= groups@.take(g as int));
            assert(t.last() == groups@[g as int]);
        }
        let x = &groups[g];
        let extra = x.files.len() as u64 - 1;
        assert(x.size * extra <= u64::MAX) by (nonlinear_arith)
            requires
                wasted + x.size * extra == wasted_bytes(t),
                wasted_bytes(t) <= u64::MAX,
                wasted >= 0,
        ;
        wasted = wasted + x.size * extra;
        g = g + 1;
    }
    assert(groups@.take(groups@.len() as int) =~= groups@);
    ScanStats {
        total_files: entries.len() as u64,
        total_size: size,
        duplicate_groups: groups.len(),
        wasted_bytes: wasted,
    }
}

} // verus!
