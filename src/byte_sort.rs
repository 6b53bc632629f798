use vstd::prelude::*;

verus! {

broadcast use vstd::seq_lib::group_to_multiset_ensures;

/// `a` and `b` have the same length and agree at every index outside `[lo, hi)`.
pub open spec fn same_outside(a: Seq<u8>, b: Seq<u8>, lo: int, hi: int) -> bool {
    &&& a.len() == b.len()
    &&& forall|k: int| 0 <= k < a.len() && !(lo <= k < hi) ==> a[k] == b[k]
}

/// `a[lo..hi]` and `b[lo..hi]` hold the same bytes, counted with multiplicity.
pub open spec fn same_bytes_in(a: Seq<u8>, b: Seq<u8>, lo: int, hi: int) -> bool {
    a.subrange(lo, hi).to_multiset() == b.subrange(lo, hi).to_multiset()
}

/// `s[lo..hi]` is in non-decreasing order.
pub open spec fn sorted_in(s: Seq<u8>, lo: int, hi: int) -> bool {
    forall|i: int, j: int| lo <= i < j < hi ==> s[i] <= s[j]
}

/// Exchanges two bytes by three exclusive-ors; equal values are left as they are.
pub fn my_swap(a: &mut u8, b: &mut u8)
    ensures
        *final(a) == *old(b),
        *final(b) == *old(a),
{
    if *a == *b {
        return;
    }
    let x: u8 = *a;
    let y: u8 = *b;
    assert((x ^ y) ^ y == x) by (bit_vector);
    assert((x ^ y) ^ x == y) by (bit_vector);
    *a = *a ^ *b;
    *b = *a ^ *b;
    *a = *a ^ *b;
}

fn swap_at(vec: &mut Vec<u8>, i: usize, j: usize)
    requires
        i < old(vec).len(),
        j < old(vec).len(),
    ensures
        final(vec)@ == old(vec)@.update(i as int, old(vec)@[j as int]).update(
            j as int,
            old(vec)@[i as int],
        ),
{
    let mut a: u8 = vec[i];
    let mut b: u8 = vec[j];
    my_swap(&mut a, &mut b);
    vec.set(i, a);
    vec.set(j, b);
}

/// Swapping two positions inside `[lo, hi)` keeps the bytes of that range.
proof fn lemma_swap_keeps_bytes(s: Seq<u8>, i: int, j: int, lo: int, hi: int)
    requires
        0 <= lo <= i < hi <= s.len(),
        lo <= j < hi,
    ensures
        same_bytes_in(s, s.update(i, s[j]).update(j, s[i]), lo, hi),
        same_outside(s, s.update(i, s[j]).update(j, s[i]), lo, hi),
{
    let t = s.update(i, s[j]).update(j, s[i]);
    let r = s.subrange(lo, hi);
    assert(t.subrange(lo, hi) == r.update(i - lo, s[j]).update(j - lo, s[i]));
    assert(t.subrange(lo, hi).to_multiset() =~= r.to_multiset());
}

/// Two sequences that agree outside `[lo, hi)` and hold the same bytes inside
/// it hold the same bytes in every range that encloses it.
proof fn lemma_enclosing_bytes(a: Seq<u8>, b: Seq<u8>, lo: int, hi: int, outer_lo: int, outer_hi: int)
    requires
        0 <= outer_lo <= lo <= hi <= outer_hi <= a.len(),
        same_outside(a, b, lo, hi),
        same_bytes_in(a, b, lo, hi),
    ensures
        same_bytes_in(a, b, outer_lo, outer_hi),
{
    assert(a.subrange(outer_lo, lo) == b.subrange(outer_lo, lo));
    assert(a.subrange(hi, outer_hi) == b.subrange(hi, outer_hi));
    assert(a.subrange(outer_lo, outer_hi) == a.subrange(outer_lo, lo) + a.subrange(lo, hi)
        + a.subrange(hi, outer_hi));
    assert(b.subrange(outer_lo, outer_hi) == b.subrange(outer_lo, lo) + b.subrange(lo, hi)
        + b.subrange(hi, outer_hi));
    vstd::seq_lib::lemma_multiset_commutative(a.subrange(outer_lo, lo), a.subrange(lo, hi));
    vstd::seq_lib::lemma_multiset_commutative(
        a.subrange(outer_lo, lo) + a.subrange(lo, hi),
        a.subrange(hi, outer_hi),
    );
    vstd::seq_lib::lemma_multiset_commutative(b.subrange(outer_lo, lo), b.subrange(lo, hi));
    vstd::seq_lib::lemma_multiset_commutative(
        b.subrange(outer_lo, lo) + b.subrange(lo, hi),
        b.subrange(hi, outer_hi),
    );
}

/// A byte found in `b[lo..hi]` is found in `a[lo..hi]` when the two ranges hold the same bytes.
proof fn lemma_found_in_range(a: Seq<u8>, b: Seq<u8>, lo: int, hi: int, k: int) -> (m: int)
    requires
        0 <= lo <= k < hi <= a.len(),
        hi <= b.len(),
        same_bytes_in(a, b, lo, hi),
    ensures
        lo <= m < hi,
        a[m] == b[k],
{
    assert(b.subrange(lo, hi)[k - lo] == b[k]);
    assert(b.subrange(lo, hi).to_multiset().count(b[k]) > 0);
    assert(a.subrange(lo, hi).contains(b[k]));
    let m = choose|m: int| 0 <= m < hi - lo && a.subrange(lo, hi)[m] == b[k];
    m + lo
}

/// Lomuto partition of `vec[low..=high]` around the byte at `high`: the bytes at
/// most the pivot come first, then the pivot, at the returned index, then the
/// bytes above it.
pub fn partition(vec: &mut Vec<u8>, low: isize, high: isize) -> (r: isize)
    requires
        0 <= low <= high < old(vec).len(),
    ensures
        low <= r <= high,
        same_outside(old(vec)@, final(vec)@, low as int, high + 1),
        same_bytes_in(old(vec)@, final(vec)@, low as int, high + 1),
        final(vec)@[r as int] == old(vec)@[high as int],
        forall|k: int| low <= k < r ==> final(vec)@[k] <= final(vec)@[r as int],
        forall|k: int| r < k <= high ==> final(vec)@[k] > final(vec)@[r as int],
{
    let ghost orig = vec@;
    let lo = low as usize;
    let hi = high as usize;
    let pivot: u8 = vec[hi];
    let mut store: usize = lo;
    let mut j: usize = lo;
    while j < hi
        invariant
            lo <= store <= j <= hi < vec.len(),
            lo == low,
            hi == high,
            vec@[hi as int] == pivot,
            pivot == orig[hi as int],
            same_outside(orig, vec@, lo as int, hi + 1),
            same_bytes_in(orig, vec@, lo as int, hi + 1),
            forall|k: int| lo <= k < store ==> vec@[k] <= pivot,
            forall|k: int| store <= k < j ==> vec@[k] > pivot,
        decreases hi - j,
    {
        if vec[j] <= pivot {
            let ghost before = vec@;
            swap_at(vec, store, j);
            proof {
                lemma_swap_keeps_bytes(before, store as int, j as int, lo as int, hi + 1);
            }
            store += 1;
        }
        j += 1;
    }
    let ghost before = vec@;
    swap_at(vec, hi, store);
    proof {
        lemma_swap_keeps_bytes(before, hi as int, store as int, lo as int, hi + 1);
    }
    store as isize
}

/// Sorts `vec[low..=high]` in place by recursive partitioning; an empty or
/// one-byte range is left as it is.
pub fn boring_quick_sort(vec: &mut Vec<u8>, low: isize, high: isize)
    requires
        low < high ==> 0 <= low && high < old(vec).len(),
    ensures
        low >= high ==> final(vec)@ == old(vec)@,
        low < high ==> same_outside(old(vec)@, final(vec)@, low as int, high + 1),
        low < high ==> same_bytes_in(old(vec)@, final(vec)@, low as int, high + 1),
        low < high ==> sorted_in(final(vec)@, low as int, high + 1),
    decreases high - low,
{
    if low < high {
        let ghost v0 = vec@;
        let pi = partition(vec, low, high);
        let ghost v1 = vec@;
        if pi > low {
            boring_quick_sort(vec, low, pi - 1);
        }
        let ghost v2 = vec@;
        if pi < high {
            boring_quick_sort(vec, pi + 1, high);
        }
        let ghost v3 = vec@;
        proof {
            let lo = low as int;
            let hi = high + 1;
            let p = pi as int;
            if pi > low {
                lemma_enclosing_bytes(v1, v2, lo, p, lo, hi);
            } else {
                assert(v2 == v1);
            }
            if pi < high {
                lemma_enclosing_bytes(v2, v3, p + 1, hi, lo, hi);
            } else {
                assert(v3 == v2);
            }
            assert forall|k: int| lo <= k < p implies v3[k] <= v3[p] by {
                if pi > low {
                    let m = lemma_found_in_range(v1, v2, lo, p, k);
                }
            }
            assert forall|k: int| p < k < hi implies v3[k] > v3[p] by {
                if pi < high {
                    let m = lemma_found_in_range(v2, v3, p + 1, hi, k);
                }
            }
        }
    }
}

} // verus!
