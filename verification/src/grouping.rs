//! Grouping items by a key: the groups of items whose key occurs more than once,
//! each listing its items in input order, the groups ordered by their first item.
use vstd::prelude::*;

verus! {

/// No earlier item has the same key as item `r`.
pub open spec fn is_first_of<K>(keys: Seq<K>, r: int) -> bool {
    forall|j: int| 0 <= j < r ==> keys[j] != keys[r]
}

/// The indices below `n` whose key is `k`, in increasing order.
pub open spec fn class_members<K>(keys: Seq<K>, k: K, n: int) -> Seq<usize>
    decreases n,
{
    if n <= 0 {
        Seq::empty()
    } else {
        let prev = class_members(keys, k, n - 1);
        if keys[n - 1] == k {
            prev.push((n - 1) as usize)
        } else {
            prev
        }
    }
}

/// The duplicate groups among the first `r` items: for each item below `r`
/// that is the first with its key and shares that key with another item, the
/// indices of all items with that key.
pub open spec fn dup_groups_upto<K>(keys: Seq<K>, r: int) -> Seq<Seq<usize>>
    decreases r,
{
    if r <= 0 {
        Seq::empty()
    } else {
        let prev = dup_groups_upto(keys, r - 1);
        let m = class_members(keys, keys[r - 1], keys.len() as int);
        if is_first_of(keys, r - 1) && m.len() >= 2 {
            prev.push(m)
        } else {
            prev
        }
    }
}

/// The duplicate groups of a key sequence.
pub open spec fn dup_groups<K>(keys: Seq<K>) -> Seq<Seq<usize>> {
    dup_groups_upto(keys, keys.len() as int)
}

/// For each item, the index of the first item with the same key.
pub open spec fn are_first_indices<K>(keys: Seq<K>, firsts: Seq<usize>) -> bool {
    &&& firsts.len() == keys.len()
    &&& forall|i: int|
        0 <= i < keys.len() ==> {
            &&& #[trigger] firsts[i] <= i
            &&& keys[firsts[i] as int] == keys[i]
            &&& is_first_of(keys, firsts[i] as int)
        }
}

/// `class_members` holds exactly the indices below `n` with key `k`, increasing.
pub proof fn lemma_class_members<K>(keys: Seq<K>, k: K, n: int)
    requires
        0 <= n <= keys.len() <= usize::MAX,
    ensures
        forall|a: int|
            0 <= a < class_members(keys, k, n).len() ==> {
                &&& 0 <= #[trigger] class_members(keys, k, n)[a] < n
                &&& keys[class_members(keys, k, n)[a] as int] == k
            },
        forall|a: int, b: int|
            0 <= a < b < class_members(keys, k, n).len() ==> #[trigger] class_members(keys, k, n)[a]
                < #[trigger] class_members(keys, k, n)[b],
        forall|j: int|
            0 <= j < n && keys[j] == k ==> #[trigger] class_members(keys, k, n).contains(j as usize),
    decreases n,
{
    if n > 0 {
        lemma_class_members(keys, k, n - 1);
        let prev = class_members(keys, k, n - 1);
        let cur = class_members(keys, k, n);
        assert forall|a: int| 0 <= a < cur.len() implies {
            &&& 0 <= #[trigger] cur[a] < n
            &&& keys[cur[a] as int] == k
        } by {
            if a < prev.len() {
                assert(cur[a] == prev[a]);
            }
        }
        assert forall|a: int, b: int| 0 <= a < b < cur.len() implies #[trigger] cur[a] < #[trigger] cur[b] by {
            assert(cur[a] == prev[a]);
            if b < prev.len() {
                assert(cur[b] == prev[b]);
            } else {
                assert(cur[b] == (n - 1) as usize);
            }
        }
        assert forall|j: int| 0 <= j < n && keys[j] == k implies #[trigger] cur.contains(
            j as usize,
        ) by {
            if j < n - 1 {
                assert(prev.contains(j as usize));
                let a = choose|a: int| 0 <= a < prev.len() && prev[a] == j as usize;
                assert(cur[a] == prev[a]);
            } else {
                assert(cur[cur.len() - 1] == j as usize);
            }
        }
    }
}

/// In a class whose smallest member is a first occurrence `r`, that member comes first.
proof fn lemma_class_starts_at_first<K>(keys: Seq<K>, r: int)
    requires
        0 <= r < keys.len() <= usize::MAX,
        is_first_of(keys, r),
    ensures
        class_members(keys, keys[r], keys.len() as int).len() >= 1,
        class_members(keys, keys[r], keys.len() as int)[0] == r,
{
    let n = keys.len() as int;
    let cm = class_members(keys, keys[r], n);
    lemma_class_members(keys, keys[r], n);
    assert(cm.contains(r as usize));
    let a = choose|a: int| 0 <= a < cm.len() && cm[a] == r as usize;
    if a > 0 {
        assert(cm[0] < cm[a]);
        assert(keys[cm[0] as int] == keys[r]);
    }
}

/// The shape of the duplicate groups: each is the whole class of a first
/// occurrence below `r` that has two or more members, in order of those first occurrences.
pub proof fn lemma_dup_groups_upto<K>(keys: Seq<K>, r: int)
    requires
        0 <= r <= keys.len() <= usize::MAX,
    ensures
        forall|g: int|
            0 <= g < dup_groups_upto(keys, r).len() ==> {
                &&& (#[trigger] dup_groups_upto(keys, r)[g]).len() >= 2
                &&& dup_groups_upto(keys, r)[g][0] < r
                &&& is_first_of(keys, dup_groups_upto(keys, r)[g][0] as int)
                &&& dup_groups_upto(keys, r)[g] == class_members(
                    keys,
                    keys[dup_groups_upto(keys, r)[g][0] as int],
                    keys.len() as int,
                )
            },
        forall|g: int, h: int|
            0 <= g < h < dup_groups_upto(keys, r).len() ==> #[trigger] dup_groups_upto(keys, r)[g][0]
                < #[trigger] dup_groups_upto(keys, r)[h][0],
        forall|f: int|
            0 <= f < r && is_first_of(keys, f) && class_members(keys, keys[f], keys.len() as int).len()
                >= 2 ==> exists|g: int|
                0 <= g < dup_groups_upto(keys, r).len() && #[trigger] dup_groups_upto(keys, r)[g][0]
                    == f,
    decreases r,
{
    if r > 0 {
        lemma_dup_groups_upto(keys, r - 1);
        let prev = dup_groups_upto(keys, r - 1);
        let cur = dup_groups_upto(keys, r);
        let n = keys.len() as int;
        let m = class_members(keys, keys[r - 1], n);
        if is_first_of(keys, r - 1) && m.len() >= 2 {
            lemma_class_starts_at_first(keys, r - 1);
            assert(cur[cur.len() - 1] == m);
            assert forall|g: int| 0 <= g < cur.len() implies {
                &&& (#[trigger] cur[g]).len() >= 2
                &&& cur[g][0] < r
                &&& is_first_of(keys, cur[g][0] as int)
                &&& cur[g] == class_members(keys, keys[cur[g][0] as int], n)
            } by {
                if g < prev.len() {
                    assert(cur[g] == prev[g]);
                }
            }
            assert forall|g: int, h: int| 0 <= g < h < cur.len() implies #[trigger] cur[g][0]
                < #[trigger] cur[h][0] by {
                assert(cur[g] == prev[g]);
                if h < prev.len() {
                    assert(cur[h] == prev[h]);
                }
            }
            assert forall|f: int|
                0 <= f < r && is_first_of(keys, f) && class_members(keys, keys[f], n).len()
                    >= 2 implies exists|g: int|
                0 <= g < cur.len() && #[trigger] cur[g][0] == f by {
                if f < r - 1 {
                    let g = choose|g: int| 0 <= g < prev.len() && #[trigger] prev[g][0] == f;
                    assert(cur[g] == prev[g]);
                } else {
                    assert(cur[cur.len() - 1][0] == f);
                }
            }
        } else {
            assert(cur == prev);
            assert forall|f: int|
                0 <= f < r && is_first_of(keys, f) && class_members(keys, keys[f], n).len()
                    >= 2 implies exists|g: int|
                0 <= g < cur.len() && #[trigger] cur[g][0] == f by {
                if f < r - 1 {
                    let g = choose|g: int| 0 <= g < prev.len() && #[trigger] prev[g][0] == f;
                    assert(cur[g] == prev[g]);
                }
            }
        }
    }
}

/// Law: the duplicate groups of a key sequence
/// - hold two or more items each,
/// - hold items with one and the same key, in increasing order,
/// - hold every item that has that key,
/// - between them hold every item whose key occurs more than once,
/// - share no item,
/// - come in the order of their first items.
pub proof fn law_duplicate_groups<K>(keys: Seq<K>)
    requires
        keys.len() <= usize::MAX,
    ensures
        forall|g: int| 0 <= g < dup_groups(keys).len() ==> (#[trigger] dup_groups(keys)[g]).len() >= 2,
        forall|g: int, a: int|
            0 <= g < dup_groups(keys).len() && 0 <= a < dup_groups(keys)[g].len() ==> {
                &&& #[trigger] dup_groups(keys)[g][a] < keys.len()
                &&& keys[dup_groups(keys)[g][a] as int] == keys[dup_groups(keys)[g][0] as int]
            },
        forall|g: int, a: int, b: int|
            0 <= g < dup_groups(keys).len() && 0 <= a < b < dup_groups(keys)[g].len()
                ==> #[trigger] dup_groups(keys)[g][a] < #[trigger] dup_groups(keys)[g][b],
        forall|g: int, i: int|
            0 <= g < dup_groups(keys).len() && 0 <= i < keys.len() && keys[i] == keys[dup_groups(
                keys,
            )[g][0] as int] ==> #[trigger] dup_groups(keys)[g].contains(i as usize),
        forall|i: int, j: int|
            0 <= i < keys.len() && 0 <= j < keys.len() && i != j && #[trigger] keys[i]
                == #[trigger] keys[j] ==> exists|g: int|
                0 <= g < dup_groups(keys).len() && #[trigger] dup_groups(keys)[g].contains(
                    i as usize,
                ),
        forall|g: int, h: int, i: usize|
            0 <= g < dup_groups(keys).len() && 0 <= h < dup_groups(keys).len()
                && #[trigger] dup_groups(keys)[g].contains(i) && #[trigger] dup_groups(
                keys,
            )[h].contains(i) ==> g == h,
        forall|g: int, h: int|
            0 <= g < h < dup_groups(keys).len() ==> #[trigger] dup_groups(keys)[g][0]
                < #[trigger] dup_groups(keys)[h][0],
{
    let n = keys.len() as int;
    let gs = dup_groups(keys);
    lemma_dup_groups_upto(keys, n);
    assert forall|g: int, a: int| 0 <= g < gs.len() && 0 <= a < gs[g].len() implies {
        &&& #[trigger] gs[g][a] < keys.len()
        &&& keys[gs[g][a] as int] == keys[gs[g][0] as int]
    } by {
        lemma_class_members(keys, keys[gs[g][0] as int], n);
    }
    assert forall|g: int, a: int, b: int|
        0 <= g < gs.len() && 0 <= a < b < gs[g].len() implies #[trigger] gs[g][a]
        < #[trigger] gs[g][b] by {
        lemma_class_members(keys, keys[gs[g][0] as int], n);
    }
    assert forall|g: int, i: int|
        0 <= g < gs.len() && 0 <= i < keys.len() && keys[i] == keys[gs[g][0] as int] implies #[trigger] gs[g].contains(
        i as usize,
    ) by {
        lemma_class_members(keys, keys[gs[g][0] as int], n);
    }
    assert forall|i: int, j: int|
        0 <= i < keys.len() && 0 <= j < keys.len() && i != j && #[trigger] keys[i]
            == #[trigger] keys[j] implies exists|g: int|
        0 <= g < gs.len() && #[trigger] gs[g].contains(i as usize) by {
        let cm = class_members(keys, keys[i], n);
        lemma_class_members(keys, keys[i], n);
        assert(cm.contains(i as usize));
        assert(cm.contains(j as usize));
        let ai = choose|a: int| 0 <= a < cm.len() && cm[a] == i as usize;
        let aj = choose|a: int| 0 <= a < cm.len() && cm[a] == j as usize;
        assert(cm.len() >= 2);
        let f = cm[0] as int;
        assert(keys[f] == keys[i]);
        assert forall|x: int| 0 <= x < f implies keys[x] != keys[f] by {
            if keys[x] == keys[f] {
                assert(cm.contains(x as usize));
                let ax = choose|a: int| 0 <= a < cm.len() && cm[a] == x as usize;
                if ax > 0 {
                    assert(cm[0] < cm[ax]);
                }
            }
        }
        assert(cm =~= class_members(keys, keys[f], n));
        assert(is_first_of(keys, f));
        assert(class_members(keys, keys[f], n).len() >= 2);
        assert(0 <= f < n);
        let g = choose|g: int| 0 <= g < gs.len() && #[trigger] gs[g][0] == f;
        lemma_class_members(keys, keys[gs[g][0] as int], n);
    }
    assert forall|g: int, h: int, i: usize|
        0 <= g < gs.len() && 0 <= h < gs.len() && #[trigger] gs[g].contains(i) && #[trigger] gs[h].contains(
            i,
        ) implies g == h by {
        lemma_class_members(keys, keys[gs[g][0] as int], n);
        lemma_class_members(keys, keys[gs[h][0] as int], n);
        let a = choose|a: int| 0 <= a < gs[g].len() && gs[g][a] == i;
        let b = choose|b: int| 0 <= b < gs[h].len() && gs[h][b] == i;
        lemma_firsts_unique(keys, gs[g][0] as int, gs[h][0] as int);
        if g < h {
            assert(gs[g][0] < gs[h][0]);
        } else if h < g {
            assert(gs[h][0] < gs[g][0]);
        }
    }
}

/// Two first-occurrence indices with the same key are the same index.
pub proof fn lemma_firsts_unique<K>(keys: Seq<K>, r1: int, r2: int)
    requires
        0 <= r1 < keys.len(),
        0 <= r2 < keys.len(),
        is_first_of(keys, r1),
        is_first_of(keys, r2),
        keys[r1] == keys[r2],
    ensures
        r1 == r2,
{
    if r1 < r2 {
        assert(keys[r1] != keys[r2]);
    } else if r2 < r1 {
        assert(keys[r2] != keys[r1]);
    }
}

/// Builds the duplicate groups of `keys` from the first-occurrence index of each item.
pub(crate) fn groups_from_firsts<K>(firsts: &Vec<usize>, Ghost(keys): Ghost<Seq<K>>) -> (r: Vec<Vec<usize>>)
    requires
        are_first_indices(keys, firsts@),
    ensures
        r@.len() == dup_groups(keys).len(),
        forall|g: int| 0 <= g < r@.len() ==> (#[trigger] r@[g])@ == dup_groups(keys)[g],
{
    let n = firsts.len();
    let mut members: Vec<Vec<usize>> = Vec::new();
    let mut i: usize = 0;
    while i < n
        invariant
            i <= n,
            members@.len() == i,
            forall|r: int| 0 <= r < i ==> (#[trigger] members@[r])@ == Seq::<usize>::empty(),
        decreases n - i,
    {
        members.push(Vec::new());
        i = i + 1;
    }
    let mut i: usize = 0;
    while i < n
        invariant
            n == firsts@.len() == keys.len(),
            are_first_indices(keys, firsts@),
            i <= n,
            members@.len() == n,
            forall|r: int|
                0 <= r < n ==> (#[trigger] members@[r])@ == if is_first_of(keys, r) {
                    class_members(keys, keys[r], i as int)
                } else {
                    Seq::<usize>::empty()
                },
        decreases n - i,
    {
        let f = firsts[i];
        let ghost old_members = members@;
        let mut list = Vec::new();
        std::mem::swap(&mut list, &mut members[f]);
        list.push(i);
        std::mem::swap(&mut list, &mut members[f]);
        proof {
            assert forall|r: int| 0 <= r < n implies (#[trigger] members@[r])@ == if is_first_of(
                keys,
                r,
            ) {
                class_members(keys, keys[r], i + 1)
            } else {
                Seq::<usize>::empty()
            } by {
                if r == f as int {
                    assert(keys[i as int] == keys[r]);
                } else {
                    assert(members@[r] == old_members[r]);
                    if is_first_of(keys, r) && keys[i as int] == keys[r] {
                        lemma_firsts_unique(keys, r, f as int);
                    }
                }
            }
        }
        i = i + 1;
    }
    let mut groups: Vec<Vec<usize>> = Vec::new();
    let mut r: usize = 0;
    while r < n
        invariant
            n == firsts@.len() == keys.len(),
            are_first_indices(keys, firsts@),
            r <= n,
            members@.len() == n,
            forall|q: int|
                r <= q < n ==> (#[trigger] members@[q])@ == if is_first_of(keys, q) {
                    class_members(keys, keys[q], n as int)
                } else {
                    Seq::<usize>::empty()
                },
            groups@.len() == dup_groups_upto(keys, r as int).len(),
            forall|g: int| 0 <= g < groups@.len() ==> (#[trigger] groups@[g])@ == dup_groups_upto(keys, r as int)[g],
        decreases n - r,
    {
        let is_first = firsts[r] == r;
        proof {
            if !is_first {
                assert(keys[firsts[r as int] as int] == keys[r as int]);
                assert(firsts[r as int] < r);
            }
        }
        let mut list = Vec::new();
        std::mem::swap(&mut list, &mut members[r]);
        let ghost old_groups = groups@;
        if is_first && list.len() >= 2 {
            groups.push(list);
        }
        proof {
            assert forall|g: int| 0 <= g < groups@.len() implies (#[trigger] groups@[g])@ == dup_groups_upto(
                keys,
                r + 1,
            )[g] by {
                if g < old_groups.len() {
                    assert(groups@[g] == old_groups[g]);
                }
            }
        }
        r = r + 1;
    }
    groups
}

} // verus!
