use std::path::PathBuf;

use dupe_killer::hasher::{
    empty_digest, group_step, partial_hash_from_head, quick_hash_len, FullHasher, GroupStep,
    StreamComparison, StreamVerdict, QUICK_HASH_BYTES,
};
use dupe_killer::types::{FullHash, PartialHash};

/// The quick hash of in-memory file contents, read as a file would be.
fn quick_hash(name: &str, content: &[u8], size: u64) -> PartialHash {
    let n = quick_hash_len(size);
    partial_hash_from_head(PathBuf::from(name), size, &content[..n])
}

/// The full hash of in-memory file contents, fed in chunks of `chunk` bytes.
fn full_hash(name: &str, content: &[u8], chunk: usize) -> FullHash {
    let mut h = FullHasher::new();
    for piece in content.chunks(chunk) {
        h.update(piece);
    }
    h.finish(PathBuf::from(name), content.len() as u64)
}

/// Compares two in-memory contents, read in chunks of `ca` and `cb` bytes.
fn verify_chunked(a: &[u8], b: &[u8], ca: usize, cb: usize) -> bool {
    let mut cmp = StreamComparison::new();
    let (mut pa, mut pb) = (0, 0);
    loop {
        let ea = (pa + ca).min(a.len());
        let eb = (pb + cb).min(b.len());
        match cmp.step(&a[pa..ea], &b[pb..eb]) {
            StreamVerdict::Continue => {
                pa = ea;
                pb = eb;
            }
            StreamVerdict::Identical => return true,
            StreamVerdict::Different => return false,
        }
    }
}

fn verify_in_memory(a: &[u8], b: &[u8], chunk: usize) -> bool {
    verify_chunked(a, b, chunk, chunk)
}

#[test]
fn test_quick_hash_consistency() {
    let content = "hello world this is a test file for hashing";
    let hash1 = quick_hash("test.txt", content.as_bytes(), content.len() as u64);
    let hash2 = quick_hash("test.txt", content.as_bytes(), content.len() as u64);
    assert_eq!(hash1.quick_hash, hash2.quick_hash);
}

#[test]
fn test_quick_hash_different_files() {
    let hash_a = quick_hash("a.txt", b"aaaaaaaaaaaaaaaaaaaaaaaaaaaaaaaaaaaaaaaa", 40);
    let hash_b = quick_hash("b.txt", b"bbbbbbbbbbbbbbbbbbbbbbbbbbbbbbbbbbbbbbbb", 40);
    assert_ne!(hash_a.quick_hash, hash_b.quick_hash);
}

#[test]
fn test_verify_identical() {
    let content = b"some test content that is identical across files";
    assert!(verify_in_memory(content, content, 65536));
}

#[test]
fn test_verify_different() {
    assert!(!verify_in_memory(b"content one", b"content two", 65536));
}

#[test]
fn test_full_hash_same_content() {
    let content = b"this is the full content of both files, they are identical";
    let hash_a = full_hash("a.txt", content, 65536);
    let hash_b = full_hash("b.txt", content, 65536);
    assert_eq!(hash_a.hash, hash_b.hash);
}

#[test]
fn known_blake3_digests() {
    assert_eq!(
        empty_digest().to_hex(),
        "af1349b9f5f9a1a6a0404dea36dcc9499bcb25c9adc112b7cc9a93cae41f3262"
    );
    let abc = full_hash("abc", b"abc", 65536);
    assert_eq!(
        abc.hash.to_hex(),
        "6437b3ac38465133ffb63b75273a8db548c558465d79db03fd359c6cd5bd9d85"
    );
    let head = quick_hash("abc", b"abc", 3);
    assert_eq!(head.quick_hash, abc.hash);
    assert_eq!(head.size, 3);
    assert_eq!(head.path, PathBuf::from("abc"));
}

#[test]
fn full_hash_does_not_depend_on_chunking() {
    let content: Vec<u8> = (0..20_000u32).map(|i| (i % 251) as u8).collect();
    let whole = full_hash("x", &content, 65536);
    let small = full_hash("x", &content, 7);
    let mid = full_hash("x", &content, 1024);
    assert_eq!(whole.hash, small.hash);
    assert_eq!(whole.hash, mid.hash);
}

#[test]
fn quick_hash_covers_only_the_head() {
    assert_eq!(quick_hash_len(0), 0);
    assert_eq!(quick_hash_len(100), 100);
    assert_eq!(quick_hash_len(8192), QUICK_HASH_BYTES);
    assert_eq!(quick_hash_len(1 << 40), 8192);
    let mut a = vec![7u8; 10_000];
    let mut b = vec![7u8; 10_000];
    a[9_000] = 1;
    b[9_000] = 2;
    assert_eq!(quick_hash("a", &a, 10_000).quick_hash, quick_hash("b", &b, 10_000).quick_hash);
    assert_ne!(full_hash("a", &a, 4096).hash, full_hash("b", &b, 4096).hash);
}

#[test]
fn stream_verdicts() {
    let mut c = StreamComparison::new();
    assert_eq!(c.step(b"ab", b"a"), StreamVerdict::Continue);
    assert_eq!(c.step(b"cd", b"bcd"), StreamVerdict::Continue);
    assert_eq!(c.step(b"", b""), StreamVerdict::Identical);

    let mut c = StreamComparison::new();
    assert_eq!(c.step(b"abc", b"a"), StreamVerdict::Continue);
    assert_eq!(c.step(b"", b"bd"), StreamVerdict::Different);

    let mut c = StreamComparison::new();
    assert_eq!(c.step(b"ab", b"ab"), StreamVerdict::Continue);
    assert_eq!(c.step(b"", b"c"), StreamVerdict::Different);

    let mut c = StreamComparison::new();
    assert_eq!(c.step(b"", b""), StreamVerdict::Identical);
}

#[test]
fn short_reads_do_not_hide_equal_files() {
    let content: Vec<u8> = (0..5_000u32).map(|i| (i % 253) as u8).collect();
    assert!(verify_chunked(&content, &content, 4096, 1000));
    assert!(verify_chunked(&content, &content, 1, 65536));
    let mut other = content.clone();
    other[4_321] ^= 1;
    assert!(!verify_chunked(&content, &other, 4096, 1000));
    assert!(!verify_chunked(&content, &content[..4_999], 7, 3));
}

#[test]
fn comparing_streams_of_different_lengths() {
    assert!(!verify_in_memory(b"abcdef", b"abcdefg", 3));
    assert!(verify_in_memory(b"abcdefg", b"abcdefg", 3));
}

#[test]
fn group_steps() {
    assert_eq!(group_step(0, &[]), GroupStep::Identical);
    assert_eq!(group_step(1, &[]), GroupStep::Identical);
    assert_eq!(group_step(3, &[]), GroupStep::Compare(1));
    assert_eq!(group_step(3, &[true]), GroupStep::Compare(2));
    assert_eq!(group_step(3, &[true, true]), GroupStep::Identical);
    assert_eq!(group_step(3, &[false]), GroupStep::Different);
    assert_eq!(group_step(3, &[true, false]), GroupStep::Different);
}

#[test]
fn comparison_is_symmetric_and_reflexive() {
    let x = vec![5u8; 10_000];
    let mut y = x.clone();
    y[7_777] = 6;
    let z = vec![5u8; 9_999];
    for (ca, cb) in [(1, 4096), (4096, 1), (333, 65536)] {
        assert_eq!(verify_chunked(&x, &y, ca, cb), verify_chunked(&y, &x, cb, ca));
        assert_eq!(verify_chunked(&x, &z, ca, cb), verify_chunked(&z, &x, cb, ca));
        assert!(verify_chunked(&x, &x, ca, cb));
        assert!(verify_chunked(&z, &z, cb, ca));
    }
}
