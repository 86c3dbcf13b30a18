//! The three core algorithms of the fingerprinting pipeline: stable k-gram
//! hashing, winnowing (representative hash selection), and the lower-bound
//! binary search used to translate canonical positions back to byte offsets.

use vstd::prelude::*;

verus! {

/// Offset basis of the 64-bit FNV-1a hash.
pub const FNV_OFFSET_BASIS: u64 = 0xcbf29ce484222325;

/// Prime multiplier of the 64-bit FNV-1a hash.
pub const FNV_PRIME: u64 = 0x100000001b3;

/// One FNV-1a round: fold one byte into the running hash.
pub open spec fn hash_step(h: u64, b: u8) -> u64 {
    (h ^ (b as u64)).wrapping_mul(FNV_PRIME)
}

/// The 64-bit FNV-1a hash of a byte sequence. The hash depends on the byte
/// content alone, so identical content hashes identically within and across
/// documents; this stability is what makes cross-document comparison sound.
pub open spec fn spec_hash(s: Seq<u8>) -> u64
    decreases s.len(),
{
    if s.len() == 0 {
        FNV_OFFSET_BASIS
    } else {
        hash_step(spec_hash(s.drop_last()), s.last())
    }
}

/// Hash one byte slice with the stable 64-bit FNV-1a function.
pub fn my_hash(data: &[u8]) -> (r: u64)
    ensures
        r == spec_hash(data@),
{
    let mut h: u64 = FNV_OFFSET_BASIS;
    let mut i: usize = 0;
    while i < data.len()
        invariant
            0 <= i <= data@.len(),
            h == spec_hash(data@.take(i as int)),
        decreases data@.len() - i,
    {
        proof {
            assert(data@.take(i + 1 as int).drop_last() =~= data@.take(i as int));
            assert(data@.take(i + 1 as int).last() == data@[i as int]);
        }
        h = (h ^ (data[i] as u64)).wrapping_mul(FNV_PRIME);
        i = i + 1;
    }
    proof {
        assert(data@.take(data@.len() as int) =~= data@);
    }
    h
}

/// One stable hash per k-gram (k-byte contiguous window) of `code`, in order.
/// A text shorter than `k` has no k-gram: the result is explicitly empty
/// rather than an arithmetic underflow.
pub fn hash_kgrams(code: &[u8], k: usize) -> (r: Vec<u64>)
    requires
        1 <= k,
    ensures
        code@.len() >= k ==> r@.len() == code@.len() - k + 1,
        code@.len() < k ==> r@.len() == 0,
        forall|i: int| 0 <= i < r@.len() ==> r@[i] == spec_hash(code@.subrange(i, i + k)),
{
    let mut hashes: Vec<u64> = Vec::new();
    if code.len() < k {
        return hashes;
    }
    let len: usize = code.len();
    let n: usize = len - k + 1;
    let mut i: usize = 0;
    while i < n
        invariant
            1 <= k <= len,
            len == code@.len(),
            n == len - k + 1,
            0 <= i <= n,
            hashes@.len() == i,
            forall|p: int| 0 <= p < i ==> hashes@[p] == spec_hash(code@.subrange(p, p + k)),
        decreases n - i,
    {
        let window: &[u8] = &code[i..i + k];
        hashes.push(my_hash(window));
        i = i + 1;
    }
    hashes
}

/// `m` is the index of the minimum hash of the window `[s, s + w)`, and on
/// ties the rightmost occurrence of that minimum within the window.
pub open spec fn is_rightmost_min(h: Seq<u64>, s: int, w: int, m: int) -> bool {
    &&& s <= m < s + w
    &&& forall|j: int| s <= j < s + w ==> h[m] <= #[trigger] h[j]
    &&& forall|j: int| m < j < s + w ==> h[m] < #[trigger] h[j]
}

/// `m` is the rightmost minimum of some full window of `h`.
pub open spec fn from_some_window(h: Seq<u64>, w: int, m: int) -> bool {
    exists|s: int| 0 <= s <= h.len() - w && is_rightmost_min(h, s, w, m)
}

/// The window starting at `s` has its rightmost minimum among `sel`.
pub open spec fn window_covered(h: Seq<u64>, w: int, sel: Seq<usize>, s: int) -> bool {
    exists|j: int| 0 <= j < sel.len() && is_rightmost_min(h, s, w, sel[j] as int)
}

pub open spec fn strictly_increasing(s: Seq<usize>) -> bool {
    forall|p: int, q: int| 0 <= p < q < s.len() ==> #[trigger] s[p] < #[trigger] s[q]
}

/// What winnowing selects: exactly the rightmost-minimum index of every full
/// window of the hash sequence, deduplicated and in ascending order. Since
/// each window has a unique rightmost minimum, this pins the selection down
/// completely.
pub open spec fn winnowed(h: Seq<u64>, w: int, sel: Seq<usize>) -> bool {
    &&& strictly_increasing(sel)
    &&& forall|j: int| 0 <= j < sel.len() ==> #[trigger] sel[j] < h.len()
    &&& forall|j: int| 0 <= j < sel.len() ==> from_some_window(h, w, #[trigger] sel[j] as int)
    &&& forall|s: int| 0 <= s <= h.len() - w ==> #[trigger] window_covered(h, w, sel, s)
}

/// Select one representative hash index per window of `window_size`
/// consecutive hashes: the window's minimum, preferring the rightmost
/// occurrence on ties. Duplicate selections across overlapping windows are
/// kept once; the result is strictly ascending.
pub fn winnow(hashes: &Vec<u64>, window_size: usize) -> (r: Vec<usize>)
    requires
        1 <= window_size,
    ensures
        winnowed(hashes@, window_size as int, r@),
{
    _local_winnow(hashes, window_size)
}

fn _local_winnow(hashes: &Vec<u64>, window_size: usize) -> (r: Vec<usize>)
    requires
        1 <= window_size,
    ensures
        winnowed(hashes@, window_size as int, r@),
{
    let ghost h: Seq<u64> = hashes@;
    let ghost w: int = window_size as int;
    let mut selected_indices: Vec<usize> = Vec::new();
    if hashes.len() < window_size {
        return selected_indices;
    }
    let hn: usize = hashes.len();
    let n_windows: usize = hn - window_size + 1;
    let mut idx: usize = 0;
    while idx < n_windows
        invariant
            1 <= window_size <= hn,
            hn == hashes@.len(),
            h == hashes@,
            w == window_size as int,
            n_windows == hn - window_size + 1,
            0 <= idx <= n_windows,
            strictly_increasing(selected_indices@),
            forall|j: int| 0 <= j < selected_indices@.len() ==> #[trigger] selected_indices@[j]
                < hn,
            forall|j: int| 0 <= j < selected_indices@.len() ==> from_window_before(
                h,
                w,
                idx as int,
                #[trigger] selected_indices@[j] as int,
            ),
            forall|s: int| 0 <= s < idx ==> #[trigger] window_covered(
                h,
                w,
                selected_indices@,
                s,
            ),
            idx >= 1 ==> selected_indices@.len() >= 1 && is_rightmost_min(
                h,
                idx - 1,
                w,
                selected_indices@.last() as int,
            ),
        decreases n_windows - idx,
    {
        let mut min_idx: usize = idx;
        let mut min_hash: u64 = u64::MAX;
        let mut i: usize = 0;
        while i < window_size
            invariant
                1 <= window_size <= hn,
                hn == hashes@.len(),
                h == hashes@,
                w == window_size as int,
                idx + window_size <= hn,
                0 <= i <= window_size,
                i == 0 ==> min_idx == idx && min_hash == u64::MAX,
                i >= 1 ==> idx <= min_idx < idx + i && min_hash == h[min_idx as int]
                    && is_rightmost_min(h, idx as int, i as int, min_idx as int),
            decreases window_size - i,
        {
            let hv: u64 = hashes[idx + i];
            if hv <= min_hash {
                min_hash = hv;
                min_idx = idx + i;
            }
            i = i + 1;
        }
        assert(is_rightmost_min(h, idx as int, w, min_idx as int));
        let do_push: bool = if selected_indices.len() == 0 {
            true
        } else {
            let last: usize = selected_indices[selected_indices.len() - 1];
            if min_idx > last {
                true
            } else {
                proof {
                    lemma_new_min_not_left_of_last(h, w, idx as int, min_idx as int, last as int);
                }
                assert(min_idx == last);
                false
            }
        };
        if do_push {
            let ghost old_sel: Seq<usize> = selected_indices@;
            selected_indices.push(min_idx);
            proof {
                lemma_selection_extended(h, w, old_sel, min_idx, idx as int);
                assert(selected_indices@ == old_sel.push(min_idx));
            }
        } else {
            proof {
                let sel = selected_indices@;
                assert(sel[sel.len() - 1] == sel.last());
                assert(is_rightmost_min(h, idx as int, w, sel[sel.len() - 1] as int));
                assert(window_covered(h, w, sel, idx as int));
            }
        }
        assert(window_covered(h, w, selected_indices@, idx as int));
        assert(is_rightmost_min(h, idx as int, w, selected_indices@.last() as int));
        idx = idx + 1;
    }
    assert forall|j: int|
        0 <= j < selected_indices@.len() implies from_some_window(
        h,
        w,
        #[trigger] selected_indices@[j] as int,
    ) by {
        assert(from_window_before(h, w, n_windows as int, selected_indices@[j] as int));
        let s = choose|s: int|
            0 <= s < n_windows && is_rightmost_min(h, s, w, selected_indices@[j] as int);
        assert(0 <= s <= h.len() - w && is_rightmost_min(h, s, w, selected_indices@[j] as int));
    }
    selected_indices
}

/// `m` is the rightmost minimum of some window starting before `bound`.
pub open spec fn from_window_before(h: Seq<u64>, w: int, bound: int, m: int) -> bool {
    exists|s: int| 0 <= s < bound && is_rightmost_min(h, s, w, m)
}

/// The rightmost minimum of the window starting at `idx` cannot lie strictly
/// left of the rightmost minimum of the previous window: winnowing selections
/// come out in ascending order.
proof fn lemma_new_min_not_left_of_last(h: Seq<u64>, w: int, idx: int, m: int, last: int)
    requires
        1 <= w,
        1 <= idx,
        idx + w <= h.len(),
        is_rightmost_min(h, idx, w, m),
        is_rightmost_min(h, idx - 1, w, last),
    ensures
        m >= last,
{
    if m < last {
        assert(last >= idx);
        assert(h[m] <= h[last]);
        assert(h[last] <= h[m]);
        assert(h[last] > h[m]);
    }
}

/// Pushing a strictly larger selection preserves every clause of the loop's
/// selection invariant.
proof fn lemma_selection_extended(h: Seq<u64>, w: int, old_sel: Seq<usize>, m: usize, idx: int)
    requires
        1 <= w,
        0 <= idx,
        idx + w <= h.len(),
        strictly_increasing(old_sel),
        forall|j: int| 0 <= j < old_sel.len() ==> from_window_before(
            h,
            w,
            idx,
            #[trigger] old_sel[j] as int,
        ),
        forall|s: int| 0 <= s < idx ==> #[trigger] window_covered(h, w, old_sel, s),
        is_rightmost_min(h, idx, w, m as int),
        old_sel.len() >= 1 ==> m > old_sel.last(),
    ensures
        strictly_increasing(old_sel.push(m)),
        forall|j: int| 0 <= j < old_sel.push(m).len() ==> #[trigger] old_sel.push(m)[j]
            < h.len(),
        forall|j: int| 0 <= j < old_sel.push(m).len() ==> from_window_before(
            h,
            w,
            idx + 1,
            #[trigger] old_sel.push(m)[j] as int,
        ),
        forall|s: int| 0 <= s < idx + 1 ==> #[trigger] window_covered(h, w, old_sel.push(m), s),
        old_sel.push(m).last() == m,
{
    let new_sel = old_sel.push(m);
    assert forall|p: int, q: int| 0 <= p < q < new_sel.len() implies #[trigger] new_sel[p]
        < #[trigger] new_sel[q] by {
        if q < new_sel.len() - 1 {
            assert(old_sel[p] < old_sel[q]);
        } else {
            if p < old_sel.len() - 1 {
                assert(old_sel[p] < old_sel[old_sel.len() - 1]);
            }
        }
    }
    assert forall|j: int| 0 <= j < new_sel.len() implies #[trigger] new_sel[j] < h.len() by {
        if j < old_sel.len() {
            assert(from_window_before(h, w, idx, old_sel[j] as int));
            let s = choose|s: int| 0 <= s < idx && is_rightmost_min(h, s, w, old_sel[j] as int);
            assert(old_sel[j] < s + w <= h.len());
        }
    }
    assert forall|j: int| 0 <= j < new_sel.len() implies from_window_before(
        h,
        w,
        idx + 1,
        #[trigger] new_sel[j] as int,
    ) by {
        if j < old_sel.len() {
            assert(new_sel[j] == old_sel[j]);
            assert(from_window_before(h, w, idx, old_sel[j] as int));
            let s = choose|s: int| 0 <= s < idx && is_rightmost_min(h, s, w, old_sel[j] as int);
            assert(0 <= s < idx + 1 && is_rightmost_min(h, s, w, new_sel[j] as int));
        } else {
            assert(new_sel[j] == m);
            assert(0 <= idx < idx + 1 && is_rightmost_min(h, idx, w, new_sel[j] as int));
        }
    }
    assert forall|s: int| 0 <= s < idx + 1 implies #[trigger] window_covered(h, w, new_sel, s) by {
        if s < idx {
            assert(window_covered(h, w, old_sel, s));
            let j = choose|j: int|
                0 <= j < old_sel.len() && is_rightmost_min(h, s, w, old_sel[j] as int);
            assert(new_sel[j] == old_sel[j]);
            assert(is_rightmost_min(h, s, w, new_sel[j] as int));
        } else {
            let j = new_sel.len() - 1;
            assert(new_sel[j] == m);
            assert(is_rightmost_min(h, s, w, new_sel[j] as int));
        }
    }
}

/// LAW (winnow guarantee): for any stretch of `w` consecutive windows' worth
/// of hash indices — equivalently, any canonical-text region long enough to
/// hold one guarantee window — at least one index inside it is selected.
pub proof fn lemma_winnow_guarantee(h: Seq<u64>, w: int, sel: Seq<usize>, s: int)
    requires
        1 <= w,
        winnowed(h, w, sel),
        0 <= s,
        s + w <= h.len(),
    ensures
        exists|j: int| 0 <= j < sel.len() && s <= #[trigger] sel[j] < s + w,
{
    assert(window_covered(h, w, sel, s));
    let j = choose|j: int| 0 <= j < sel.len() && is_rightmost_min(h, s, w, sel[j] as int);
    assert(0 <= j < sel.len() && s <= sel[j] < s + w);
}

/// Strict lexicographic order on offset-table entries.
pub open spec fn pair_lt(a: (usize, usize), b: (usize, usize)) -> bool {
    a.0 < b.0 || (a.0 == b.0 && a.1 < b.1)
}

/// The entries are sorted, lexicographically non-decreasing.
pub open spec fn pairs_sorted(s: Seq<(usize, usize)>) -> bool {
    forall|p: int, q: int| 0 <= p < q < s.len() ==> pair_lt(#[trigger] s[p], #[trigger] s[q])
        || s[p] == s[q]
}

/// Binary search over a lexicographically sorted table of pairs: either the
/// index of an entry equal to `t`, or the index that splits the table into
/// the entries below `t` and the entries above it (the lower bound of `t`).
pub fn binary_search(t: &(usize, usize), a: &Vec<(usize, usize)>) -> (r: usize)
    requires
        pairs_sorted(a@),
        a@.len() < usize::MAX / 2,
    ensures
        r <= a@.len(),
        (r < a@.len() && a@[r as int] == *t) || ((forall|j: int| 0 <= j < r ==> pair_lt(
            #[trigger] a@[j],
            *t,
        )) && (forall|j: int| r <= j < a@.len() ==> pair_lt(*t, #[trigger] a@[j]))),
{
    let mut low: usize = 0;
    let mut high: usize = a.len();
    let mut mid: usize = (low + high) / 2;

    while low < high
        invariant
            pairs_sorted(a@),
            a@.len() < usize::MAX / 2,
            0 <= low <= high <= a@.len(),
            low < high ==> low <= mid < high,
            forall|j: int| 0 <= j < low ==> pair_lt(#[trigger] a@[j], *t),
            forall|j: int| high <= j < a@.len() ==> pair_lt(*t, #[trigger] a@[j]),
        decreases high - low,
    {
        let e: (usize, usize) = a[mid];
        if e.0 == t.0 && e.1 == t.1 {
            return mid;
        } else if e.0 < t.0 || (e.0 == t.0 && e.1 < t.1) {
            assert forall|j: int| 0 <= j < mid + 1 implies pair_lt(#[trigger] a@[j], *t) by {
                if j < mid {
                    assert(pair_lt(a@[j], a@[mid as int]) || a@[j] == a@[mid as int]);
                }
            }
            low = mid + 1;
        } else {
            assert forall|j: int| mid <= j < a@.len() implies pair_lt(*t, #[trigger] a@[j]) by {
                if j > mid {
                    assert(pair_lt(a@[mid as int], a@[j]) || a@[mid as int] == a@[j]);
                }
            }
            high = mid;
        }
        mid = (low + high) / 2;
    }

    return high;
}

/// A window has exactly one rightmost minimum.
proof fn lemma_rightmost_min_unique(h: Seq<u64>, s: int, w: int, m1: int, m2: int)
    requires
        is_rightmost_min(h, s, w, m1),
        is_rightmost_min(h, s, w, m2),
    ensures
        m1 == m2,
{
    if m1 < m2 {
        assert(h[m1] <= h[m2]);
        assert(h[m2] > h[m1]);
        assert(h[m2] <= h[m1]);
    }
    if m2 < m1 {
        assert(h[m2] <= h[m1]);
        assert(h[m1] > h[m2]);
        assert(h[m1] <= h[m2]);
    }
}

/// Two strictly increasing sequences with the same members are equal.
proof fn lemma_strictly_increasing_same_members(a: Seq<usize>, b: Seq<usize>)
    requires
        strictly_increasing(a),
        strictly_increasing(b),
        forall|x: usize| a.contains(x) <==> b.contains(x),
    ensures
        a =~= b,
    decreases a.len(),
{
    if a.len() == 0 {
        if b.len() > 0 {
            assert(b.contains(b[0]));
            assert(a.contains(b[0]));
        }
    } else {
        assert(a.contains(a[0]));
        assert(b.contains(a[0]));
        if b.len() == 0 {
            assert(!b.contains(a[0]));
        }
        assert(b.contains(b[0]));
        assert(a.contains(b[0]));
        let ia = choose|i: int| 0 <= i < a.len() && a[i] == b[0];
        let ib = choose|i: int| 0 <= i < b.len() && b[i] == a[0];
        if ia > 0 {
            assert(a[0] < a[ia]);
        }
        if ib > 0 {
            assert(b[0] < b[ib]);
        }
        assert(a[0] == b[0]);
        let at = a.drop_first();
        let bt = b.drop_first();
        assert forall|x: usize| at.contains(x) implies bt.contains(x) by {
            let i = choose|i: int| 0 <= i < at.len() && at[i] == x;
            assert(a[i + 1] == x);
            assert(a[0] < a[i + 1]);
            assert(a.contains(x));
            assert(b.contains(x));
            let jx = choose|j: int| 0 <= j < b.len() && b[j] == x;
            assert(jx != 0);
            assert(bt[jx - 1] == x);
            assert(bt.contains(x));
        }
        assert forall|x: usize| bt.contains(x) implies at.contains(x) by {
            let i = choose|i: int| 0 <= i < bt.len() && bt[i] == x;
            assert(b[i + 1] == x);
            assert(b[0] < b[i + 1]);
            assert(b.contains(x));
            assert(a.contains(x));
            let jx = choose|j: int| 0 <= j < a.len() && a[j] == x;
            assert(jx != 0);
            assert(at[jx - 1] == x);
            assert(at.contains(x));
        }
        lemma_strictly_increasing_same_members(at, bt);
        assert forall|i: int| 0 <= i < a.len() implies a[i] == b[i] by {
            if i > 0 {
                assert(at[i - 1] == bt[i - 1]);
            }
        }
    }
}

/// LAW (determinism of winnowing): the winnowing characterization admits only
/// one selection for a given hash sequence and window size.
pub proof fn lemma_winnowed_unique(h: Seq<u64>, w: int, sel1: Seq<usize>, sel2: Seq<usize>)
    requires
        1 <= w,
        winnowed(h, w, sel1),
        winnowed(h, w, sel2),
    ensures
        sel1 == sel2,
{
    assert forall|x: usize| sel1.contains(x) implies sel2.contains(x) by {
        lemma_member_transfers(h, w, sel1, sel2, x);
    }
    assert forall|x: usize| sel2.contains(x) implies sel1.contains(x) by {
        lemma_member_transfers(h, w, sel2, sel1, x);
    }
    lemma_strictly_increasing_same_members(sel1, sel2);
}

proof fn lemma_member_transfers(h: Seq<u64>, w: int, sel1: Seq<usize>, sel2: Seq<usize>, x: usize)
    requires
        1 <= w,
        winnowed(h, w, sel1),
        winnowed(h, w, sel2),
        sel1.contains(x),
    ensures
        sel2.contains(x),
{
    let j = choose|j: int| 0 <= j < sel1.len() && sel1[j] == x;
    assert(from_some_window(h, w, sel1[j] as int));
    let s = choose|s: int| 0 <= s <= h.len() - w && is_rightmost_min(h, s, w, sel1[j] as int);
    assert(window_covered(h, w, sel2, s));
    let j2 = choose|j2: int| 0 <= j2 < sel2.len() && is_rightmost_min(h, s, w, sel2[j2] as int);
    lemma_rightmost_min_unique(h, s, w, sel1[j] as int, sel2[j2] as int);
    assert(sel2[j2] == x);
}

} // verus!
