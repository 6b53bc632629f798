use vstd::prelude::*;
use crate::pixel::{Pixel, pixel_le, is_sorted, is_sort_of, pixel_le_exec, lemma_pixel_le_trans, lemma_pixel_le_total, lemma_pixel_le_antisym};

verus! {

broadcast use vstd::seq_lib::group_to_multiset_ensures;

/// Joining two sorted runs around a pivot that separates them gives a sorted sequence.
proof fn lemma_sorted_join(a: Seq<Pixel>, p: Pixel, b: Seq<Pixel>)
    requires
        is_sorted(a),
        is_sorted(b),
        forall|k: int| 0 <= k < a.len() ==> pixel_le(#[trigger] a[k], p),
        forall|k: int| 0 <= k < b.len() ==> pixel_le(p, #[trigger] b[k]),
    ensures
        is_sorted(a.push(p) + b),
{
    let s = a.push(p) + b;
    assert forall|i: int, j: int| 0 <= i < j < s.len() implies pixel_le(s[i], s[j]) by {
        let n = a.len() as int;
        if j < n {
        } else if j == n {
        } else if i <= n {
            if i < n {
                lemma_pixel_le_trans(a[i], p, b[j - n - 1]);
            }
        } else {
        }
    }
}

/// Sorts a sequence of pixels: the pivot is the middle element, the rest is
/// split into the pixels at most the pivot and those above it, and each part
/// is sorted in turn.
pub fn quick_sort(pixels: Vec<Pixel>) -> (r: Vec<Pixel>)
    ensures
        is_sort_of(pixels@, r@),
    decreases pixels@.len(),
{
    let mut pixels = pixels;
    if pixels.len() <= 1 {
        return pixels;
    }
    let ghost orig = pixels@;
    let pivot_index: usize = pixels.len() / 2;
    let pivot = pixels.remove(pivot_index);
    let mut less: Vec<Pixel> = Vec::new();
    let mut greater: Vec<Pixel> = Vec::new();
    let mut i: usize = 0;
    while i < pixels.len()
        invariant
            0 <= i <= pixels.len(),
            less.len() + greater.len() == i,
            less@.to_multiset().add(greater@.to_multiset()) == pixels@.subrange(
                0,
                i as int,
            ).to_multiset(),
            forall|k: int| 0 <= k < less.len() ==> pixel_le(#[trigger] less@[k], pivot),
            forall|k: int| 0 <= k < greater.len() ==> !pixel_le(#[trigger] greater@[k], pivot),
        decreases pixels.len() - i,
    {
        let pixel = pixels[i];
        assert(pixels@.subrange(0, i + 1) == pixels@.subrange(0, i as int).push(pixel));
        if pixel_le_exec(&pixel, &pivot) {
            less.push(pixel);
        } else {
            greater.push(pixel);
        }
        i += 1;
    }
    assert(pixels@.subrange(0, i as int) == pixels@);
    let ghost less_v = less@;
    let ghost greater_v = greater@;
    let sorted_less = quick_sort(less);
    let mut sorted_greater = quick_sort(greater);
    let ghost sg = sorted_greater@;
    let mut out = sorted_less;
    out.push(pivot);
    out.append(&mut sorted_greater);
    proof {
        assert forall|k: int| 0 <= k < sorted_less@.len() implies pixel_le(
            #[trigger] sorted_less@[k],
            pivot,
        ) by {
            assert(sorted_less@.to_multiset().count(sorted_less@[k]) > 0);
            assert(less_v.contains(sorted_less@[k]));
        }
        assert forall|k: int| 0 <= k < sg.len() implies pixel_le(
            pivot,
            #[trigger] sg[k],
        ) by {
            let x = sg[k];
            assert(sg.to_multiset().count(x) > 0);
            assert(greater_v.contains(x));
            lemma_pixel_le_total(x, pivot);
        }
        lemma_sorted_join(sorted_less@, pivot, sg);
        assert(out@ == sorted_less@.push(pivot) + sg);
        vstd::seq_lib::lemma_multiset_commutative(sorted_less@.push(pivot), sg);
        assert(pixels@ == orig.remove(pivot_index as int));
        assert(pixels@.to_multiset() == orig.to_multiset().remove(pivot));
        assert(orig.to_multiset().count(pivot) > 0);
        assert(sorted_less@.push(pivot).to_multiset() == sorted_less@.to_multiset().insert(pivot));
        assert(out@.to_multiset() == sorted_less@.to_multiset().insert(pivot).add(sg.to_multiset()));
        assert(out@.to_multiset() =~= pixels@.to_multiset().insert(pivot));
        assert(out@.to_multiset() =~= orig.to_multiset());
    }
    out
}

/// Two sorted sequences that hold the same pixels are equal.
pub proof fn lemma_sorted_unique(s: Seq<Pixel>, t: Seq<Pixel>)
    requires
        is_sorted(s),
        is_sort_of(s, t),
    ensures
        t == s,
    decreases s.len(),
{
    if s.len() == 0 {
        assert(t.to_multiset().len() == 0);
        assert(t =~= s);
    } else {
        assert(t.to_multiset().len() == s.to_multiset().len());
        assert(t.len() == s.len());
        let a = s[0];
        let b = t[0];
        assert(t.to_multiset().count(b) > 0);
        assert(s.contains(b));
        let kb = choose|k: int| 0 <= k < s.len() && s[k] == b;
        if kb > 0 {
            assert(pixel_le(s[0], s[kb]));
        }
        assert(s.to_multiset().count(a) > 0);
        assert(t.contains(a));
        let ka = choose|k: int| 0 <= k < t.len() && t[k] == a;
        if ka > 0 {
            assert(pixel_le(t[0], t[ka]));
        }
        lemma_pixel_le_antisym(a, b);
        assert(s.remove(0) == s.drop_first());
        assert(t.remove(0) == t.drop_first());
        assert(t.drop_first().to_multiset() == s.drop_first().to_multiset());
        lemma_sorted_unique(s.drop_first(), t.drop_first());
        assert forall|i: int| 0 <= i < s.len() implies t[i] == s[i] by {
            if i > 0 {
                assert(t[i] == t.drop_first()[i - 1]);
                assert(s[i] == s.drop_first()[i - 1]);
            }
        }
        assert(t =~= s);
    }
}

/// Sorting is idempotent: sorting a sorted result again yields that same result.
pub proof fn lemma_sort_idempotent(input: Seq<Pixel>, once: Seq<Pixel>, twice: Seq<Pixel>)
    requires
        is_sort_of(input, once),
        is_sort_of(once, twice),
    ensures
        twice == once,
{
    lemma_sorted_unique(once, twice);
}

} // verus!
