use std::path::PathBuf;
use std::time::SystemTime;

use dupe_killer::duplicates::{
    confirmed_group, group_by_size, scan_stats, split_by_quick_hash, Candidate,
};
use dupe_killer::search::{Layer, Search};
use dupe_killer::hasher::{
    empty_digest, group_step, partial_hash_from_head, quick_hash_len, FullHasher, GroupStep,
    StreamComparison, StreamVerdict,
};
use dupe_killer::scanner::ScanCollector;
use dupe_killer::types::{DuplicateGroup, FileEntry, FullHash, ScanStats};

/// In-memory files: a name and its bytes.
struct Disk(Vec<(PathBuf, Vec<u8>)>);

impl Disk {
    fn content(&self, p: &PathBuf) -> &[u8] {
        &self.0.iter().find(|(q, _)| q == p).unwrap().1
    }

    fn entries(&self) -> Vec<FileEntry> {
        self.0
            .iter()
            .map(|(p, c)| FileEntry { path: p.clone(), size: c.len() as u64, modified: SystemTime::now() })
            .collect()
    }

    fn identical(&self, a: &PathBuf, b: &PathBuf) -> bool {
        let (a, b) = (self.content(a), self.content(b));
        let (mut pa, mut pb) = (0, 0);
        let mut cmp = StreamComparison::new();
        loop {
            let ea = (pa + 65536).min(a.len());
            let eb = (pb + 4096).min(b.len());
            match cmp.step(&a[pa..ea], &b[pb..eb]) {
                StreamVerdict::Continue => {
                    pa = ea;
                    pb = eb;
                }
                StreamVerdict::Identical => return true,
                StreamVerdict::Different => return false,
            }
        }
    }

    /// The four layers as the library runs them, with the disk reads done in memory.
    fn find_duplicates(&self, entries: Vec<FileEntry>) -> (Vec<DuplicateGroup>, ScanStats) {
        let mut search = Search::start(&entries);
        loop {
            let (layer, size, files) = match search.current() {
                None => break,
                Some(p) => (p.layer, p.size, p.files.clone()),
            };
            match layer {
                Layer::QuickHash => {
                    let partials: Vec<_> = files
                        .iter()
                        .map(|p| {
                            let n = quick_hash_len(size);
                            partial_hash_from_head(p.clone(), size, &self.content(p)[..n])
                        })
                        .collect();
                    search.quick_hashes_read(&partials);
                }
                Layer::FullHash => {
                    let fulls: Vec<_> = files.iter().map(|p| self.full_hash(p, size)).collect();
                    search.full_hashes_read(&fulls);
                }
                Layer::Compare => {
                    let mut outcomes = Vec::new();
                    let same = loop {
                        match group_step(files.len(), &outcomes) {
                            GroupStep::Compare(j) => outcomes.push(self.identical(&files[0], &files[j])),
                            GroupStep::Identical => break true,
                            GroupStep::Different => break false,
                        }
                    };
                    let first = if same { Some(self.full_hash(&files[0], size).hash) } else { None };
                    search.group_compared(same, first);
                }
            }
        }
        let groups = search.finish();
        let stats = scan_stats(&entries, &groups);
        (groups, stats)
    }

    fn full_hash(&self, p: &PathBuf, size: u64) -> FullHash {
        let mut h = FullHasher::new();
        h.update(self.content(p));
        h.finish(p.clone(), size)
    }
}

fn disk(files: &[(&str, &[u8])]) -> Disk {
    Disk(files.iter().map(|(n, c)| (PathBuf::from(n), c.to_vec())).collect())
}

#[test]
fn test_duplicate_grouping() {
    let content_a = b"this is file A - duplicated content";
    let content_b = b"this is file B - different content entirely";
    let d = disk(&[("a1.txt", content_a), ("a2.txt", content_a), ("b1.txt", content_b)]);
    let entries = d.entries();
    let (groups, stats) = d.find_duplicates(entries);
    assert_eq!(groups.len(), 1);
    assert_eq!(groups[0].files.len(), 2);
    assert_eq!(stats.total_files, 3);
    assert_eq!(stats.duplicate_groups, 1);
    assert_eq!(stats.wasted_bytes, content_a.len() as u64);
}

#[test]
fn test_different_files_not_grouped() {
    let d = disk(&[
        ("file1.txt", b"111111111111111111111111111111111111111111"),
        ("file2.txt", b"222222222222222222222222222222222222222222"),
        ("file3.txt", b"333333333333333333333333333333333333333333"),
    ]);
    let mut entries = d.entries();
    for e in entries.iter_mut() {
        e.size = 42;
    }
    let (groups, _stats) = d.find_duplicates(entries);
    assert!(groups.is_empty(), "no duplicates should be found");
}

#[test]
fn test_no_duplicates_with_unique_files() {
    let d = disk(&[
        ("small.txt", b"tiny"),
        ("big.txt", b"this is a much larger file with completely different content"),
    ]);
    let mut entries = d.entries();
    entries[0].size = 4;
    entries[1].size = 60;
    let (groups, stats) = d.find_duplicates(entries);
    assert!(groups.is_empty());
    assert_eq!(stats.total_files, 2);
    assert_eq!(stats.duplicate_groups, 0);
}

#[test]
fn test_min_size_filter() {
    let mut collector = ScanCollector::new(10);
    for (name, content) in [("small.txt", &b"tiny"[..]), ("big.txt", &b"this is a much bigger file"[..])] {
        let size = content.len() as u64;
        if collector.admits(size) {
            collector.offer(FileEntry { path: PathBuf::from(name), size, modified: SystemTime::now() });
        }
    }
    let (entries, nothing) = collector.finish();
    let paths: Vec<_> = entries.iter().map(|e| e.path.file_name().unwrap().to_str().unwrap()).collect();
    assert!(paths.contains(&"big.txt"), "big file should be included. Found: {paths:?}");
    assert!(!paths.contains(&"small.txt"), "small file should be excluded");
    assert_eq!(entries.len(), 1, "expected 1 entry, got {entries:?}");
    assert!(!nothing);
}

#[test]
fn empty_scan_is_noted_only_without_threshold() {
    let (entries, nothing) = ScanCollector::new(0).finish();
    assert!(entries.is_empty());
    assert!(nothing);
    let (_, nothing) = ScanCollector::new(5).finish();
    assert!(!nothing);
    let mut c = ScanCollector::new(3);
    assert!(!c.offer(FileEntry { path: PathBuf::from("x"), size: 2, modified: SystemTime::now() }));
    assert!(!c.offer(FileEntry { path: PathBuf::from("y"), size: 3, modified: SystemTime::now() }));
    assert!(c.offer(FileEntry { path: PathBuf::from("z"), size: 4, modified: SystemTime::now() }));
    assert_eq!(c.finish().0.len(), 1);
    let c = ScanCollector::new(10);
    assert!(!c.admits(10));
    assert!(c.admits(11));
}

#[test]
fn same_head_different_tail_is_not_a_duplicate() {
    let mut a = vec![9u8; 9000];
    let mut b = vec![9u8; 9000];
    a[8999] = 0;
    b[8999] = 1;
    let c = a.clone();
    let d = Disk(vec![
        (PathBuf::from("a"), a),
        (PathBuf::from("b"), b),
        (PathBuf::from("c"), c),
    ]);
    let (groups, stats) = d.find_duplicates(d.entries());
    assert_eq!(groups.len(), 1);
    assert_eq!(groups[0].files, vec![PathBuf::from("a"), PathBuf::from("c")]);
    assert_eq!(stats.wasted_bytes, 9000);
    assert_eq!(stats.total_size, 27000);
}

#[test]
fn groups_keep_input_order() {
    let d = disk(&[
        ("x1", b"xx"),
        ("y1", b"yyy"),
        ("x2", b"xx"),
        ("z1", b"zzzz"),
        ("y2", b"yyy"),
        ("x3", b"xx"),
    ]);
    let candidates = group_by_size(&d.entries());
    assert_eq!(candidates.len(), 2);
    assert_eq!(candidates[0].size, 2);
    assert_eq!(candidates[0].files, vec![PathBuf::from("x1"), PathBuf::from("x2"), PathBuf::from("x3")]);
    assert_eq!(candidates[1].size, 3);
    assert_eq!(candidates[1].files, vec![PathBuf::from("y1"), PathBuf::from("y2")]);
    let (groups, stats) = d.find_duplicates(d.entries());
    assert_eq!(groups.len(), 2);
    assert_eq!(stats.wasted_bytes, 2 * 2 + 3);
    assert_eq!(stats.total_files, 6);
    assert_eq!(stats.total_size, 2 + 3 + 2 + 4 + 3 + 2);
}

#[test]
fn quick_hash_split_keeps_only_shared_hashes() {
    let parts = vec![
        partial_hash_from_head(PathBuf::from("p"), 3, b"abc"),
        partial_hash_from_head(PathBuf::from("q"), 3, b"abd"),
        partial_hash_from_head(PathBuf::from("r"), 3, b"abc"),
    ];
    let split = split_by_quick_hash(3, &parts);
    assert_eq!(split.len(), 1);
    assert_eq!(split[0].size, 3);
    assert_eq!(split[0].files, vec![PathBuf::from("p"), PathBuf::from("r")]);
}

#[test]
fn confirmed_group_without_recomputed_hash() {
    let c = Candidate { size: 5, files: vec![PathBuf::from("a"), PathBuf::from("b")] };
    let g = confirmed_group(c, None);
    assert_eq!(g.hash, empty_digest());
    assert_eq!(g.size, 5);
    assert_eq!(g.files.len(), 2);
}

#[test]
fn stats_of_nothing() {
    let s = scan_stats(&Vec::new(), &Vec::new());
    assert_eq!(s, ScanStats { total_files: 0, total_size: 0, duplicate_groups: 0, wasted_bytes: 0 });
}

#[test]
fn search_runs_layer_by_layer_and_skips_unreadable_files() {
    let d = disk(&[("a", b"same"), ("b", b"same"), ("c", b"same"), ("d", b"diff")]);
    let entries = d.entries();
    let mut search = Search::start(&entries);
    // One size group: all four files wait for quick hashes.
    let p = search.current().unwrap();
    assert!(matches!(p.layer, Layer::QuickHash));
    assert_eq!(p.size, 4);
    assert_eq!(p.files.len(), 4);
    // File "c" cannot be read: no quick hash comes back for it.
    let partials: Vec<_> = ["a", "b", "d"]
        .iter()
        .map(|n| {
            let p = PathBuf::from(n);
            partial_hash_from_head(p.clone(), 4, d.content(&p))
        })
        .collect();
    search.quick_hashes_read(&partials);
    let p = search.current().unwrap();
    assert!(matches!(p.layer, Layer::FullHash));
    assert_eq!(p.files, vec![PathBuf::from("a"), PathBuf::from("b")]);
    let fulls: Vec<_> = ["a", "b"].iter().map(|n| d.full_hash(&PathBuf::from(n), 4)).collect();
    search.full_hashes_read(&fulls);
    let p = search.current().unwrap();
    assert!(matches!(p.layer, Layer::Compare));
    search.group_compared(true, None);
    assert!(search.current().is_none());
    let groups = search.finish();
    assert_eq!(groups.len(), 1);
    assert_eq!(groups[0].files, vec![PathBuf::from("a"), PathBuf::from("b")]);
    assert_eq!(groups[0].hash, empty_digest());
}

#[test]
fn search_drops_a_group_that_compares_different() {
    let d = disk(&[("a", b"12"), ("b", b"12")]);
    let entries = d.entries();
    let mut search = Search::start(&entries);
    let partials: Vec<_> = ["a", "b"]
        .iter()
        .map(|n| partial_hash_from_head(PathBuf::from(n), 2, b"12"))
        .collect();
    search.quick_hashes_read(&partials);
    let fulls: Vec<_> = ["a", "b"].iter().map(|n| d.full_hash(&PathBuf::from(n), 2)).collect();
    search.full_hashes_read(&fulls);
    search.group_compared(false, None);
    assert!(search.current().is_none());
    assert!(search.finish().is_empty());
}

#[test]
fn reordered_entries_give_the_same_groups_and_totals() {
    let d = disk(&[("a", b"xx"), ("b", b"yyy"), ("c", b"xx"), ("d", b"yyy"), ("e", b"zzzz"), ("f", b"xx")]);
    let entries = d.entries();
    let mut reversed = d.entries();
    reversed.reverse();
    let (g1, s1) = d.find_duplicates(entries);
    let (g2, s2) = d.find_duplicates(reversed);
    let view = |gs: &Vec<DuplicateGroup>| {
        let mut v: Vec<_> = gs
            .iter()
            .map(|g| {
                let mut files = g.files.clone();
                files.sort();
                (g.size, g.hash, files)
            })
            .collect();
        v.sort_by(|a, b| a.2.cmp(&b.2));
        v
    };
    assert_eq!(view(&g1), view(&g2));
    assert_eq!(s1, s2);
    assert_eq!(s1.duplicate_groups, 2);
    assert_eq!(s1.wasted_bytes, 2 * 2 + 3);
}

#[test]
fn higher_threshold_keeps_a_subset() {
    let offers = [("a", 3u64), ("b", 10), ("c", 11), ("d", 50)];
    let run = |m: u64| {
        let mut c = ScanCollector::new(m);
        for (n, size) in offers {
            c.offer(FileEntry { path: PathBuf::from(n), size, modified: SystemTime::UNIX_EPOCH });
        }
        c.finish().0.into_iter().map(|e| e.path).collect::<Vec<_>>()
    };
    assert_eq!(run(3), vec![PathBuf::from("b"), PathBuf::from("c"), PathBuf::from("d")]);
    assert_eq!(run(10), vec![PathBuf::from("c"), PathBuf::from("d")]);
    assert_eq!(run(11), vec![PathBuf::from("d")]);
}
