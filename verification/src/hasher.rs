//! Hashing and comparison steps: BLAKE3 digests of a file's head and of the whole
//! file, the decision made on each pair of chunks read from two files, and the
//! decision made while checking a group of files against its first member.
//! Reading the files is the caller's part; it hands the bytes to these functions.
use vstd::prelude::*;

use std::path::PathBuf;

use crate::types::{FullHash, HashBytes, PartialHash};

verus! {

/// `blake3::Hasher`, the incremental BLAKE3 state; what it has been fed is
/// named by `hasher_input`.
#[verifier::external_type_specification]
#[verifier::external_body]
pub struct ExBlake3Hasher(blake3::Hasher);

/// The BLAKE3 digest of a byte sequence (what `blake3::hash` returns).
pub uninterp spec fn blake3_digest(input: Seq<u8>) -> Seq<u8>;

/// The bytes fed so far to an incremental BLAKE3 hasher.
pub uninterp spec fn hasher_input(h: blake3::Hasher) -> Seq<u8>;

/// `blake3::hash`: the digest of `input`, as its 32 raw bytes.
#[verifier::external_body]
fn blake3_hash(input: &[u8]) -> (r: HashBytes)
    ensures
        r@ == blake3_digest(input@),
{
    HashBytes(blake3::hash(input).into())
}

/// `blake3::Hasher::new`: a hasher that has been fed nothing.
#[verifier::external_body]
fn hasher_new() -> (h: blake3::Hasher)
    ensures
        hasher_input(h) == Seq::<u8>::empty(),
{
    blake3::Hasher::new()
}

/// `blake3::Hasher::update`: appends `input` to what the hasher has been fed.
#[verifier::external_body]
fn hasher_update(h: &mut blake3::Hasher, input: &[u8])
    ensures
        hasher_input(*final(h)) == hasher_input(*old(h)) + input@,
{
    h.update(input);
}

/// `blake3::Hasher::finalize`: the digest of everything fed so far, which the
/// crate documents to equal `blake3::hash` of the concatenated input.
#[verifier::external_body]
fn hasher_finalize(h: &blake3::Hasher) -> (r: HashBytes)
    ensures
        r@ == blake3_digest(hasher_input(*h)),
{
    HashBytes(h.finalize().into())
}

/// How many leading bytes of a file the quick hash covers.
pub const QUICK_HASH_BYTES: usize = 8192;

/// The number of bytes to read for the quick hash of a file of `size` bytes:
/// the whole file when it is shorter than `QUICK_HASH_BYTES`.
pub fn quick_hash_len(size: u64) -> (r: usize)
    ensures
        r == if (size as usize) < QUICK_HASH_BYTES {
            size as usize
        } else {
            QUICK_HASH_BYTES
        },
{
    let s = size as usize;
    if s < QUICK_HASH_BYTES {
        s
    } else {
        QUICK_HASH_BYTES
    }
}

/// The quick hash of a file whose first bytes are `head`.
pub fn partial_hash_from_head(path: PathBuf, size: u64, head: &[u8]) -> (r: PartialHash)
    ensures
        r.path == path,
        r.size == size,
        r.quick_hash@ == blake3_digest(head@),
{
    let quick_hash = blake3_hash(head);
    PartialHash { path, size, quick_hash }
}

/// The digest of a file with no bytes, used when a confirmed group's digest
/// cannot be recomputed.
pub fn empty_digest() -> (r: HashBytes)
    ensures
        r@ == blake3_digest(Seq::empty()),
{
    let none: [u8; 0] = [];
    let r = blake3_hash(none.as_slice());
    assert(none@ =~= Seq::<u8>::empty());
    r
}

/// Incremental hashing of a whole file, fed chunk by chunk as it is read.
pub struct FullHasher {
    state: blake3::Hasher,
}

impl View for FullHasher {
    type V = Seq<u8>;

    /// The bytes fed so far.
    closed spec fn view(&self) -> Seq<u8> {
        hasher_input(self.state)
    }
}

impl FullHasher {
    pub fn new() -> (r: FullHasher)
        ensures
            r@ == Seq::<u8>::empty(),
    {
        FullHasher { state: hasher_new() }
    }

    /// Feeds the next chunk of the file.
    pub fn update(&mut self, chunk: &[u8])
        ensures
            final(self)@ == old(self)@ + chunk@,
    {
        hasher_update(&mut self.state, chunk);
    }

    /// The full hash of the file whose bytes were fed.
    pub fn finish(&self, path: PathBuf, size: u64) -> (r: FullHash)
        ensures
            r.path == path,
            r.size == size,
            r.hash@ == blake3_digest(self@),
    {
        let hash = hasher_finalize(&self.state);
        FullHash { path, size, hash }
    }
}

/// What comparing two files read so far tells.
#[derive(Debug, Clone, Copy, PartialEq, Eq)]
pub enum StreamVerdict {
    /// No difference so far and at least one file has not ended: read on.
    Continue,
    /// Both files ended, with the same bytes.
    Identical,
    /// The files differ: in some byte, or one ended before the other.
    Different,
}

/// No position that both byte sequences reach holds different bytes.
pub open spec fn prefix_compatible(a: Seq<u8>, b: Seq<u8>) -> bool {
    forall|i: int| 0 <= i < a.len() && 0 <= i < b.len() ==> a[i] == b[i]
}

/// The verdict on two files of which `a` and `b` have been read, `a_ended` and
/// `b_ended` telling whether each has reached its end.
pub open spec fn stream_verdict(a: Seq<u8>, a_ended: bool, b: Seq<u8>, b_ended: bool) -> StreamVerdict {
    if !prefix_compatible(a, b) {
        StreamVerdict::Different
    } else if (a_ended && b.len() > a.len()) || (b_ended && a.len() > b.len()) {
        StreamVerdict::Different
    } else if a_ended && b_ended {
        StreamVerdict::Identical
    } else {
        StreamVerdict::Continue
    }
}

/// Law: the verdict speaks of the whole files, however they were cut into chunks.
/// Whatever the rest of each file holds (`a_full` extends what was read of the
/// first, and equals it once that file ended; likewise `b_full`), `Identical`
/// means the files are equal and `Different` that they differ; once both files
/// have ended the comparison is decided.
pub proof fn law_stream_verdict(
    a: Seq<u8>,
    a_ended: bool,
    b: Seq<u8>,
    b_ended: bool,
    a_full: Seq<u8>,
    b_full: Seq<u8>,
)
    requires
        a.len() <= a_full.len(),
        a_full.take(a.len() as int) == a,
        a_ended ==> a_full == a,
        b.len() <= b_full.len(),
        b_full.take(b.len() as int) == b,
        b_ended ==> b_full == b,
    ensures
        stream_verdict(a, a_ended, b, b_ended) == StreamVerdict::Identical ==> a_full == b_full,
        stream_verdict(a, a_ended, b, b_ended) == StreamVerdict::Different ==> a_full != b_full,
        a_ended && b_ended ==> stream_verdict(a, a_ended, b, b_ended) != StreamVerdict::Continue,
{
    if !prefix_compatible(a, b) {
        let i = choose|i: int| 0 <= i < a.len() && 0 <= i < b.len() && a[i] != b[i];
        assert(a_full[i] == a_full.take(a.len() as int)[i]);
        assert(b_full[i] == b_full.take(b.len() as int)[i]);
    } else if stream_verdict(a, a_ended, b, b_ended) == StreamVerdict::Identical {
        assert(a =~= b);
    }
}

/// `read` is what has been read of a file whose bytes are `full`: a prefix of
/// it, and all of it once the file ended.
pub open spec fn read_from(read: Seq<u8>, ended: bool, full: Seq<u8>) -> bool {
    &&& read.len() <= full.len()
    &&& full.take(read.len() as int) == read
    &&& ended ==> full == read
}

/// Law: comparing two files gives the same decided verdict in either order,
/// however each comparison cut the files into chunks.
pub proof fn law_verdict_symmetric(
    a: Seq<u8>,
    a_ended: bool,
    b: Seq<u8>,
    b_ended: bool,
    c: Seq<u8>,
    c_ended: bool,
    d: Seq<u8>,
    d_ended: bool,
    x: Seq<u8>,
    y: Seq<u8>,
)
    requires
        read_from(a, a_ended, x),
        read_from(b, b_ended, y),
        read_from(c, c_ended, y),
        read_from(d, d_ended, x),
        stream_verdict(a, a_ended, b, b_ended) != StreamVerdict::Continue,
        stream_verdict(c, c_ended, d, d_ended) != StreamVerdict::Continue,
    ensures
        stream_verdict(a, a_ended, b, b_ended) == stream_verdict(c, c_ended, d, d_ended),
{
    law_stream_verdict(a, a_ended, b, b_ended, x, y);
    law_stream_verdict(c, c_ended, d, d_ended, y, x);
}

/// Law: a file compared with itself is identical, once the comparison is decided.
pub proof fn law_verdict_reflexive(a: Seq<u8>, a_ended: bool, b: Seq<u8>, b_ended: bool, x: Seq<u8>)
    requires
        read_from(a, a_ended, x),
        read_from(b, b_ended, x),
        stream_verdict(a, a_ended, b, b_ended) != StreamVerdict::Continue,
    ensures
        stream_verdict(a, a_ended, b, b_ended) == StreamVerdict::Identical,
{
    law_stream_verdict(a, a_ended, b, b_ended, x, x);
}

/// The comparison of two files read in chunks of any lengths. The bytes read
/// from one file beyond what has been read from the other wait in `pending_*`.
pub struct StreamComparison {
    pending_a: Vec<u8>,
    pending_b: Vec<u8>,
    a_ended: bool,
    b_ended: bool,
    verdict: StreamVerdict,
    seen_a: Ghost<Seq<u8>>,
    seen_b: Ghost<Seq<u8>>,
}

impl StreamComparison {
    #[verifier::type_invariant]
    spec fn consistent(self) -> bool {
        let m = self.seen_a@.len() - self.pending_a@.len();
        &&& self.pending_a@.len() <= self.seen_a@.len()
        &&& m == self.seen_b@.len() - self.pending_b@.len()
        &&& self.pending_b@.len() <= self.seen_b@.len()
        &&& self.verdict == stream_verdict(self.seen_a@, self.a_ended, self.seen_b@, self.b_ended)
        &&& self.verdict != StreamVerdict::Different ==> {
            &&& self.pending_a@ == self.seen_a@.skip(m)
            &&& self.pending_b@ == self.seen_b@.skip(m)
            &&& self.seen_a@.take(m) == self.seen_b@.take(m)
            &&& (self.pending_a@.len() == 0 || self.pending_b@.len() == 0)
        }
    }

    /// The bytes read so far from the first file.
    pub closed spec fn read_a(&self) -> Seq<u8> {
        self.seen_a@
    }

    /// The bytes read so far from the second file.
    pub closed spec fn read_b(&self) -> Seq<u8> {
        self.seen_b@
    }

    /// Whether the first file has ended (an empty chunk was read from it).
    pub closed spec fn ended_a(&self) -> bool {
        self.a_ended
    }

    /// Whether the second file has ended.
    pub closed spec fn ended_b(&self) -> bool {
        self.b_ended
    }

    /// The verdict on what has been read.
    pub open spec fn verdict(&self) -> StreamVerdict {
        stream_verdict(self.read_a(), self.ended_a(), self.read_b(), self.ended_b())
    }

    pub fn new() -> (r: StreamComparison)
        ensures
            r.read_a() == Seq::<u8>::empty(),
            r.read_b() == Seq::<u8>::empty(),
            !r.ended_a(),
            !r.ended_b(),
            r.verdict() == StreamVerdict::Continue,
    {
        let ghost e = Seq::<u8>::empty();
        assert(e.skip(0) =~= e);
        assert(e.take(0) =~= e);
        assert(prefix_compatible(e, e));
        StreamComparison {
            pending_a: Vec::new(),
            pending_b: Vec::new(),
            a_ended: false,
            b_ended: false,
            verdict: StreamVerdict::Continue,
            seen_a: Ghost(Seq::empty()),
            seen_b: Ghost(Seq::empty()),
        }
    }

    /// Takes the next chunk read from each file (an empty chunk: that file has
    /// ended) and gives the verdict on everything read so far.
    pub fn step(&mut self, a: &[u8], b: &[u8]) -> (r: StreamVerdict)
        requires
            old(self).verdict() == StreamVerdict::Continue,
        ensures
            final(self).read_a() == old(self).read_a() + a@,
            final(self).read_b() == old(self).read_b() + b@,
            final(self).ended_a() == (old(self).ended_a() || a@.len() == 0),
            final(self).ended_b() == (old(self).ended_b() || b@.len() == 0),
            r == final(self).verdict(),
    {
        proof {
            use_type_invariant(&*self);
        }
        let ghost sa = self.seen_a@ + a@;
        let ghost sb = self.seen_b@ + b@;
        let ghost m = self.seen_a@.len() - self.pending_a@.len();
        let a_ended = self.a_ended || a.len() == 0;
        let b_ended = self.b_ended || b.len() == 0;
        let pa = join(&self.pending_a, a);
        let pb = join(&self.pending_b, b);
        assert(pa@ =~= sa.skip(m));
        assert(pb@ =~= sb.skip(m));
        assert(sa.take(m) =~= self.seen_a@.take(m));
        assert(sb.take(m) =~= self.seen_b@.take(m));
        let k = if pa.len() < pb.len() {
            pa.len()
        } else {
            pb.len()
        };
        let mut i: usize = 0;
        let mut mismatch = false;
        while i < k
            invariant
                k <= pa@.len(),
                k <= pb@.len(),
                i <= k,
                !mismatch ==> forall|j: int| 0 <= j < i ==> pa@[j] == pb@[j],
                mismatch ==> i < k && pa@[i as int] != pb@[i as int],
            ensures
                !mismatch ==> forall|j: int| 0 <= j < k ==> pa@[j] == pb@[j],
                mismatch ==> i < k && pa@[i as int] != pb@[i as int],
            decreases k - i,
        {
            if pa[i] != pb[i] {
                mismatch = true;
                break;
            }
            i = i + 1;
        }
        if mismatch {
            proof {
                assert(sa[m + i] == pa@[i as int]);
                assert(sb[m + i] == pb@[i as int]);
            }
            let ghost verdict = stream_verdict(sa, a_ended, sb, b_ended);
            assert(verdict == StreamVerdict::Different);
            *self = StreamComparison {
                pending_a: pa,
                pending_b: pb,
                a_ended,
                b_ended,
                verdict: StreamVerdict::Different,
                seen_a: Ghost(sa),
                seen_b: Ghost(sb),
            };
            return StreamVerdict::Different;
        }
        let ra = tail(&pa, k);
        let rb = tail(&pb, k);
        proof {
            assert forall|j: int| 0 <= j < sa.len() && 0 <= j < sb.len() implies sa[j] == sb[j] by {
                if j < m {
                    assert(sa[j] == sa.take(m)[j]);
                    assert(sb[j] == sb.take(m)[j]);
                } else {
                    assert(sa[j] == pa@[j - m]);
                    assert(sb[j] == pb@[j - m]);
                }
            }
            assert(sa.take(m + k) =~= sb.take(m + k)) by {
                assert forall|j: int| 0 <= j < m + k implies #[trigger] sa.take(m + k)[j] == sb.take(m + k)[j] by {
                    assert(sa[j] == sb[j]);
                }
            }
            assert(ra@ =~= sa.skip(m + k));
            assert(rb@ =~= sb.skip(m + k));
        }
        let verdict = if (a_ended && rb.len() > 0) || (b_ended && ra.len() > 0) {
            StreamVerdict::Different
        } else if a_ended && b_ended {
            StreamVerdict::Identical
        } else {
            StreamVerdict::Continue
        };
        *self = StreamComparison {
            pending_a: ra,
            pending_b: rb,
            a_ended,
            b_ended,
            verdict,
            seen_a: Ghost(sa),
            seen_b: Ghost(sb),
        };
        verdict
    }
}

/// `x` followed by `y`.
fn join(x: &Vec<u8>, y: &[u8]) -> (r: Vec<u8>)
    ensures
        r@ == x@ + y@,
{
    let mut r: Vec<u8> = Vec::new();
    let mut i: usize = 0;
    while i < x.len()
        invariant
            i <= x@.len(),
            r@ == x@.take(i as int),
        decreases x@.len() - i,
    {
        r.push(x[i]);
        assert(x@.take(i + 1) =~= x@.take(i as int).push(x@[i as int]));
        i = i + 1;
    }
    let mut j: usize = 0;
    while j < y.len()
        invariant
            i == x@.len(),
            j <= y@.len(),
            r@ == x@ + y@.take(j as int),
        decreases y@.len() - j,
    {
        r.push(y[j]);
        assert(y@.take(j + 1) =~= y@.take(j as int).push(y@[j as int]));
        j = j + 1;
    }
    assert(x@.take(i as int) =~= x@);
    assert(y@.take(j as int) =~= y@);
    r
}

/// `x` without its first `k` bytes.
fn tail(x: &Vec<u8>, k: usize) -> (r: Vec<u8>)
    requires
        k <= x@.len(),
    ensures
        r@ == x@.skip(k as int),
{
    let mut r: Vec<u8> = Vec::new();
    let mut i: usize = k;
    while i < x.len()
        invariant
            k <= i <= x@.len(),
            r@ == x@.subrange(k as int, i as int),
        decreases x@.len() - i,
    {
        r.push(x[i]);
        assert(x@.subrange(k as int, i + 1) =~= x@.subrange(k as int, i as int).push(x@[i as int]));
        i = i + 1;
    }
    assert(x@.subrange(k as int, i as int) =~= x@.skip(k as int));
    r
}

/// The next move while checking that every file of a group equals its first file.
#[derive(Debug, Clone, Copy, PartialEq, Eq)]
pub enum GroupStep {
    /// Compare the file at this index with the first file.
    Compare(usize),
    /// Every file equals the first one.
    Identical,
    /// Some file differs from the first one.
    Different,
}

/// Files `1, 2, ...` are compared with file `0` in turn, stopping at the first
/// difference; a group of fewer than two files is trivially identical.
/// `outcomes[i]` is whether file `i + 1` matched.
pub open spec fn group_step_spec(count: nat, outcomes: Seq<bool>) -> GroupStep {
    if count < 2 {
        GroupStep::Identical
    } else if outcomes.contains(false) {
        GroupStep::Different
    } else if outcomes.len() >= count - 1 {
        GroupStep::Identical
    } else {
        GroupStep::Compare((outcomes.len() + 1) as usize)
    }
}

/// Decides the next move from the outcomes of the comparisons made so far.
pub fn group_step(count: usize, outcomes: &[bool]) -> (r: GroupStep)
    ensures
        r == group_step_spec(count as nat, outcomes@),
{
    if count < 2 {
        return GroupStep::Identical;
    }
    let mut i: usize = 0;
    while i < outcomes.len()
        invariant
            count >= 2,
            i <= outcomes@.len(),
            forall|j: int| 0 <= j < i ==> outcomes@[j],
        decreases outcomes@.len() - i,
    {
        if !outcomes[i] {
            assert(outcomes@[i as int] == false);
            assert(outcomes@.contains(false));
            return GroupStep::Different;
        }
        i = i + 1;
    }
    assert(!outcomes@.contains(false));
    if outcomes.len() >= count - 1 {
        GroupStep::Identical
    } else {
        GroupStep::Compare(outcomes.len() + 1)
    }
}

/// Law: a group of two or more files is judged identical only once every other
/// file has been compared with the first one and found equal to it.
pub proof fn law_group_identical_needs_all(count: nat, outcomes: Seq<bool>)
    requires
        count >= 2,
        outcomes.len() <= count - 1,
        group_step_spec(count, outcomes) == GroupStep::Identical,
    ensures
        outcomes.len() == count - 1,
        forall|i: int| 0 <= i < outcomes.len() ==> outcomes[i],
{
    assert forall|i: int| 0 <= i < outcomes.len() implies outcomes[i] by {
        if !outcomes[i] {
            assert(outcomes.contains(false));
        }
    }
}

/// Law: the group verdict follows the comparisons made so far. A group of two
/// or more files is judged different only once some file was found to differ
/// from the first; while every comparison matched and files are left, the next
/// file in order is compared; once every other file matched, it is identical;
/// a group of fewer than two files is identical.
pub proof fn law_group_step_progress(count: nat, outcomes: Seq<bool>)
    ensures
        group_step_spec(count, outcomes) == GroupStep::Different ==> exists|i: int|
            0 <= i < outcomes.len() && !#[trigger] outcomes[i],
        count >= 2 && (forall|i: int| 0 <= i < outcomes.len() ==> #[trigger] outcomes[i]) && outcomes.len() < count - 1
            ==> group_step_spec(count, outcomes) == GroupStep::Compare((outcomes.len() + 1) as usize),
        count >= 2 && (forall|i: int| 0 <= i < outcomes.len() ==> #[trigger] outcomes[i]) && outcomes.len() == count - 1
            ==> group_step_spec(count, outcomes) == GroupStep::Identical,
        count >= 2 && outcomes.len() > 0 && !outcomes.last() ==> group_step_spec(count, outcomes) == GroupStep::Different,
        count >= 2 && (exists|i: int| 0 <= i < outcomes.len() && !#[trigger] outcomes[i]) ==> group_step_spec(
            count,
            outcomes,
        ) == GroupStep::Different,
        count < 2 ==> group_step_spec(count, outcomes) == GroupStep::Identical,
{
    if exists|i: int| 0 <= i < outcomes.len() && !#[trigger] outcomes[i] {
        let i = choose|i: int| 0 <= i < outcomes.len() && !#[trigger] outcomes[i];
        assert(outcomes[i] == false);
        assert(outcomes.contains(false));
    }
    if outcomes.contains(false) {
        let i = choose|i: int| 0 <= i < outcomes.len() && outcomes[i] == false;
        assert(!outcomes[i]);
    }
    if forall|i: int| 0 <= i < outcomes.len() ==> #[trigger] outcomes[i] {
        assert(!outcomes.contains(false));
    }
    if outcomes.len() > 0 && !outcomes.last() {
        assert(outcomes[outcomes.len() - 1] == false);
        assert(outcomes.contains(false));
    }
}

} // verus!
