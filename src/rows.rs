use vstd::prelude::*;
use crate::pixel::{Pixel, is_sort_of};
use crate::quicksort::quick_sort;

verus! {

/// Smallest start column a random range may take; the start also stays this
/// far from the right edge.
pub const EDGE_MARGIN: usize = 3;

/// Largest intensity; a larger one counts as this.
pub const MAX_INTENSITY: u8 = 100;

/// `new` is `old` with the columns `[lo, hi)` sorted and every other column kept.
pub open spec fn sorts_range(old_row: Seq<Pixel>, new_row: Seq<Pixel>, lo: int, hi: int) -> bool {
    &&& 0 <= lo <= hi <= old_row.len()
    &&& new_row.len() == old_row.len()
    &&& new_row.subrange(0, lo) == old_row.subrange(0, lo)
    &&& new_row.subrange(hi, new_row.len() as int) == old_row.subrange(hi, old_row.len() as int)
    &&& is_sort_of(old_row.subrange(lo, hi), new_row.subrange(lo, hi))
}

/// The intensity in effect: values above the maximum count as the maximum.
pub open spec fn clamp_intensity(intensity: int) -> int {
    if intensity > MAX_INTENSITY as int {
        MAX_INTENSITY as int
    } else {
        intensity
    }
}

/// A row whose gate draw is `gate` gets a partial sort at this intensity:
/// gates are drawn from `[0, 100)`, so the chance is the intensity in percent.
pub open spec fn row_selected(intensity: int, gate: int) -> bool {
    gate < clamp_intensity(intensity)
}

/// `[lo, hi)` is a range that the random policies may draw on a row of `width` columns.
pub open spec fn valid_random_range(width: int, lo: int, hi: int) -> bool {
    &&& EDGE_MARGIN <= lo < width - EDGE_MARGIN
    &&& lo <= hi < width
}

/// Copies a row pixel by pixel.
pub fn copy_row(row: &Vec<Pixel>) -> (r: Vec<Pixel>)
    ensures
        r@ == row@,
{
    let mut out: Vec<Pixel> = Vec::new();
    let mut x: usize = 0;
    while x < row.len()
        invariant
            x <= row.len(),
            out@ == row@.subrange(0, x as int),
        decreases row.len() - x,
    {
        out.push(row[x]);
        x += 1;
        assert(out@ =~= row@.subrange(0, x as int));
    }
    assert(out@ =~= row@);
    out
}

/// Sorts the columns `[minsort, maxsort)` of a row in place, leaving the others as they were.
pub fn sort_range(row: &mut Vec<Pixel>, minsort: usize, maxsort: usize)
    requires
        minsort <= maxsort <= old(row).len(),
    ensures
        sorts_range(old(row)@, final(row)@, minsort as int, maxsort as int),
{
    let ghost orig = row@;
    let mut part: Vec<Pixel> = Vec::new();
    let mut x: usize = minsort;
    while x < maxsort
        invariant
            minsort <= x <= maxsort <= row.len(),
            row@ == orig,
            part@ == orig.subrange(minsort as int, x as int),
        decreases maxsort - x,
    {
        part.push(row[x]);
        x += 1;
        assert(part@ =~= orig.subrange(minsort as int, x as int));
    }
    let ghost part_v = part@;
    let sorted = quick_sort(part);
    proof {
        broadcast use vstd::seq_lib::group_to_multiset_ensures;
        assert(sorted@.to_multiset().len() == part_v.to_multiset().len());
    }
    let mut i: usize = 0;
    x = minsort;
    while x < maxsort
        invariant
            minsort <= x <= maxsort <= row.len(),
            row.len() == orig.len(),
            i == x - minsort,
            sorted@.len() == maxsort - minsort,
            forall|k: int| 0 <= k < minsort || maxsort <= k < orig.len() ==> row@[k] == orig[k],
            forall|k: int| minsort <= k < x ==> row@[k] == sorted@[k - minsort],
            forall|k: int| x <= k < maxsort ==> row@[k] == orig[k],
        decreases maxsort - x,
    {
        row.set(x, sorted[i]);
        i += 1;
        x += 1;
    }
    assert(row@.subrange(minsort as int, maxsort as int) =~= sorted@);
    assert(row@.subrange(0, minsort as int) =~= orig.subrange(0, minsort as int));
    assert(row@.subrange(maxsort as int, row@.len() as int) =~= orig.subrange(
        maxsort as int,
        orig.len() as int,
    ));
}

/// One row of the random partial policy, given its draws: a row whose gate
/// draw is not below the intensity is left as it is; any other row gets the columns
/// `[minsort, maxsort)` sorted.
pub fn random_sort_row(row: &mut Vec<Pixel>, intensity: u8, gate: usize, minsort: usize, maxsort: usize)
    requires
        minsort <= maxsort <= old(row).len(),
    ensures
        !row_selected(intensity as int, gate as int) ==> final(row)@ == old(row)@,
        row_selected(intensity as int, gate as int) ==> sorts_range(
            old(row)@,
            final(row)@,
            minsort as int,
            maxsort as int,
        ),
{
    let intensity = if intensity > MAX_INTENSITY {
        MAX_INTENSITY
    } else {
        intensity
    };
    if gate < intensity as usize {
        sort_range(row, minsort, maxsort);
    }
}

/// Raising the intensity never deselects a row: a gate draw that selects a
/// row at some intensity selects it at every higher one. With uniform gate
/// draws the share of rows sorted is thus non-decreasing in the intensity.
pub proof fn lemma_selection_monotone(lower: int, higher: int, gate: int)
    requires
        lower <= higher,
        row_selected(lower, gate),
    ensures
        row_selected(higher, gate),
{
}

/// At full intensity (100 or more) every gate draw of `[0, 100)` selects the row.
pub proof fn lemma_full_intensity_selects(intensity: int, gate: int)
    requires
        intensity >= MAX_INTENSITY,
        0 <= gate < MAX_INTENSITY,
    ensures
        row_selected(intensity, gate),
{
}

/// At intensity zero no gate draw selects the row.
pub proof fn lemma_zero_intensity_skips(gate: int)
    requires
        gate >= 0,
    ensures
        !row_selected(0, gate),
{
}

} // verus!
