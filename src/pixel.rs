use vstd::prelude::*;

verus! {

/// A pixel: four 8-bit channels, first channel most significant in the order.
pub type Pixel = [u8; 4];

/// Lexicographic order on pixels, channel by channel.
pub open spec fn pixel_le(a: Pixel, b: Pixel) -> bool {
    a[0] < b[0] || (a[0] == b[0] && (a[1] < b[1] || (a[1] == b[1] && (a[2] < b[2] || (a[2]
        == b[2] && a[3] <= b[3])))))
}

/// Every earlier pixel is at most every later one.
pub open spec fn is_sorted(s: Seq<Pixel>) -> bool {
    forall|i: int, j: int| 0 <= i < j < s.len() ==> pixel_le(s[i], s[j])
}

/// `output` holds the pixels of `input`, in non-decreasing order.
pub open spec fn is_sort_of(input: Seq<Pixel>, output: Seq<Pixel>) -> bool {
    &&& is_sorted(output)
    &&& output.to_multiset() == input.to_multiset()
}

/// Compares two pixels channel by channel.
pub fn pixel_le_exec(a: &Pixel, b: &Pixel) -> (r: bool)
    ensures
        r == pixel_le(*a, *b),
{
    if a[0] != b[0] {
        a[0] < b[0]
    } else if a[1] != b[1] {
        a[1] < b[1]
    } else if a[2] != b[2] {
        a[2] < b[2]
    } else {
        a[3] <= b[3]
    }
}

pub proof fn lemma_pixel_le_total(a: Pixel, b: Pixel)
    ensures
        pixel_le(a, b) || pixel_le(b, a),
{
}

pub proof fn lemma_pixel_le_trans(a: Pixel, b: Pixel, c: Pixel)
    requires
        pixel_le(a, b),
        pixel_le(b, c),
    ensures
        pixel_le(a, c),
{
}

pub proof fn lemma_pixel_le_antisym(a: Pixel, b: Pixel)
    requires
        pixel_le(a, b),
        pixel_le(b, a),
    ensures
        a == b,
{
    assert(a =~= b);
}

} // verus!
