use vstd::prelude::*;
use crate::pixel::{Pixel, is_sort_of};
use crate::quicksort::quick_sort;
use crate::random::random_in_range;
use crate::rows::{
    EDGE_MARGIN, MAX_INTENSITY, clamp_intensity, copy_row, random_sort_row, row_selected, sort_range, sorts_range,
    valid_random_range,
};

verus! {

/// Why a run of the pixel sorter failed.
#[derive(Clone, Copy, Debug, PartialEq, Eq, Structural)]
pub enum SortError {
    /// The input image is missing, unreadable or in an unknown format.
    DecodeError,
    /// The output image could not be written.
    EncodeError,
    /// A row is too narrow to draw a partial-sort range from.
    RangeError,
}

/// Rows at most this wide admit no random range.
pub const MIN_PARTIAL_WIDTH: usize = 6;

/// The rows of a grid, each as a sequence of pixels.
pub open spec fn grid_view(g: Seq<Vec<Pixel>>) -> Seq<Seq<Pixel>> {
    g.map_values(|r: Vec<Pixel>| r@)
}

/// Some row has no more than `MIN_PARTIAL_WIDTH` columns.
pub open spec fn has_narrow_row(g: Seq<Seq<Pixel>>) -> bool {
    exists|y: int| 0 <= y < g.len() && #[trigger] g[y].len() <= MIN_PARTIAL_WIDTH
}

/// The grid has rows, and either its first row is narrow or its rows differ in length.
pub open spec fn unfit_for_pivot(g: Seq<Seq<Pixel>>) -> bool {
    &&& g.len() > 0
    &&& (g[0].len() <= MIN_PARTIAL_WIDTH || exists|y: int|
        0 <= y < g.len() && #[trigger] g[y].len() != g[0].len())
}

/// `new_row` is `old_row` sorted on a range that the random policies may draw.
pub open spec fn random_row_sorted(old_row: Seq<Pixel>, new_row: Seq<Pixel>) -> bool {
    exists|lo: int, hi: int|
        valid_random_range(old_row.len() as int, lo, hi) && #[trigger] sorts_range(
            old_row,
            new_row,
            lo,
            hi,
        )
}

/// A row after the random partial policy: unchanged, or sorted on a drawable range.
pub open spec fn random_row_outcome(old_row: Seq<Pixel>, new_row: Seq<Pixel>) -> bool {
    new_row == old_row || random_row_sorted(old_row, new_row)
}

/// A row after the pivot policy: sorted on `[minsort, hi)` for some end `hi` of its own.
pub open spec fn pivot_row_outcome(old_row: Seq<Pixel>, new_row: Seq<Pixel>, minsort: int) -> bool {
    exists|hi: int|
        valid_random_range(old_row.len() as int, minsort, hi) && #[trigger] sorts_range(
            old_row,
            new_row,
            minsort,
            hi,
        )
}

/// Every row of `new_grid` is its row of `old_grid` sorted from the column
/// `minsort`, which all rows share.
pub open spec fn pivot_outcome(old_grid: Seq<Seq<Pixel>>, new_grid: Seq<Seq<Pixel>>, minsort: int) -> bool {
    &&& new_grid.len() == old_grid.len()
    &&& forall|y: int|
        0 <= y < old_grid.len() ==> #[trigger] pivot_row_outcome(old_grid[y], new_grid[y], minsort)
}

/// Sorts every row of the grid whole.
pub fn sort_all_pixels(pixels: Vec<Vec<Pixel>>) -> (r: Vec<Vec<Pixel>>)
    ensures
        r.len() == pixels.len(),
        forall|y: int| 0 <= y < pixels.len() ==> is_sort_of(#[trigger] pixels@[y]@, r@[y]@),
        forall|y: int| 0 <= y < pixels.len() ==> (#[trigger] r@[y]@).len() == pixels@[y]@.len(),
{
    let mut out: Vec<Vec<Pixel>> = Vec::new();
    let mut y: usize = 0;
    while y < pixels.len()
        invariant
            y <= pixels.len(),
            out.len() == y,
            forall|k: int| 0 <= k < y ==> is_sort_of(#[trigger] pixels@[k]@, out@[k]@),
            forall|k: int| 0 <= k < y ==> (#[trigger] out@[k]@).len() == pixels@[k]@.len(),
        decreases pixels.len() - y,
    {
        let row = copy_row(&pixels[y]);
        let sorted = quick_sort(row);
        proof {
            broadcast use vstd::seq_lib::group_to_multiset_ensures;
            assert(sorted@.to_multiset().len() == pixels@[y as int]@.to_multiset().len());
        }
        out.push(sorted);
        y += 1;
    }
    out
}

fn find_narrow_row(pixels: &Vec<Vec<Pixel>>) -> (r: bool)
    ensures
        r == has_narrow_row(grid_view(pixels@)),
{
    let mut y: usize = 0;
    while y < pixels.len()
        invariant
            y <= pixels.len(),
            forall|k: int| 0 <= k < y ==> pixels@[k]@.len() > MIN_PARTIAL_WIDTH,
        decreases pixels.len() - y,
    {
        if pixels[y].len() <= MIN_PARTIAL_WIDTH {
            assert(grid_view(pixels@)[y as int].len() <= MIN_PARTIAL_WIDTH);
            return true;
        }
        y += 1;
    }
    assert forall|k: int| 0 <= k < pixels.len() implies #[trigger] grid_view(pixels@)[k].len()
        > MIN_PARTIAL_WIDTH by {
        assert(grid_view(pixels@)[k] == pixels@[k]@);
    }
    false
}

/// For each row, with a chance of `intensity` percent (more than 100 counts
/// as 100), sorts a randomly drawn range of its columns. At intensity 0 the
/// grid comes back as it is; at any other intensity a grid with a row of at
/// most six columns is refused with `RangeError`.
pub fn random_sort_pixels(pixels: Vec<Vec<Pixel>>, intensity: u8) -> (r: Result<
    Vec<Vec<Pixel>>,
    SortError,
>)
    ensures
        r is Err <==> clamp_intensity(intensity as int) > 0 && has_narrow_row(grid_view(pixels@)),
        intensity == 0 ==> r is Ok && grid_view(r->Ok_0@) == grid_view(pixels@),
        r is Err ==> r == Err::<Vec<Vec<Pixel>>, SortError>(SortError::RangeError),
        r matches Ok(g) ==> g.len() == pixels.len() && forall|y: int|
            0 <= y < pixels.len() ==> (#[trigger] grid_view(g@)[y]).len() == grid_view(
                pixels@,
            )[y].len(),
        r matches Ok(g) ==> forall|y: int|
            0 <= y < pixels.len() ==> random_row_outcome(
                #[trigger] grid_view(pixels@)[y],
                grid_view(g@)[y],
            ),
        r matches Ok(g) ==> intensity >= MAX_INTENSITY ==> forall|y: int|
            0 <= y < pixels.len() ==> random_row_sorted(
                #[trigger] grid_view(pixels@)[y],
                grid_view(g@)[y],
            ),
{
    let full_intensity = intensity;
    let intensity = if intensity > MAX_INTENSITY {
        MAX_INTENSITY
    } else {
        intensity
    };
    if intensity > 0 && find_narrow_row(&pixels) {
        return Err(SortError::RangeError);
    }
    let mut out: Vec<Vec<Pixel>> = Vec::new();
    let mut y: usize = 0;
    while y < pixels.len()
        invariant
            y <= pixels.len(),
            out.len() == y,
            intensity > 0 ==> !has_narrow_row(grid_view(pixels@)),
            full_intensity == 0 ==> forall|k: int|
                0 <= k < y ==> #[trigger] grid_view(out@)[k] == grid_view(pixels@)[k],
            forall|k: int|
                0 <= k < y ==> random_row_outcome(
                    #[trigger] grid_view(pixels@)[k],
                    grid_view(out@)[k],
                ),
            intensity == clamp_intensity(full_intensity as int),
            full_intensity >= MAX_INTENSITY ==> forall|k: int|
                0 <= k < y ==> random_row_sorted(
                    #[trigger] grid_view(pixels@)[k],
                    grid_view(out@)[k],
                ),
        decreases pixels.len() - y,
    {
        let mut row = copy_row(&pixels[y]);
        let ghost before = row@;
        assert(grid_view(pixels@)[y as int] == before);
        let width = row.len();
        let gate = random_in_range(0, MAX_INTENSITY as usize);
        if gate < intensity as usize {
            let minsort = random_in_range(EDGE_MARGIN, width - EDGE_MARGIN);
            let maxsort = random_in_range(minsort, width);
            random_sort_row(&mut row, intensity, gate, minsort, maxsort);
            assert(row_selected(intensity as int, gate as int));
            assert(valid_random_range(before.len() as int, minsort as int, maxsort as int));
            assert(sorts_range(before, row@, minsort as int, maxsort as int));
        }
        assert(random_row_outcome(before, row@));
        assert(full_intensity >= MAX_INTENSITY ==> random_row_sorted(before, row@));
        let ghost prev = out@;
        out.push(row);
        proof {
            assert forall|k: int| 0 <= k <= y implies random_row_outcome(
                #[trigger] grid_view(pixels@)[k],
                grid_view(out@)[k],
            ) && (full_intensity >= MAX_INTENSITY ==> random_row_sorted(
                grid_view(pixels@)[k],
                grid_view(out@)[k],
            )) && (full_intensity == 0 ==> grid_view(out@)[k] == grid_view(pixels@)[k]) by {
                if k < y {
                    assert(grid_view(out@)[k] == grid_view(prev)[k]);
                }
            }
        }
        y += 1;
    }
    assert(full_intensity == 0 ==> grid_view(out@) =~= grid_view(pixels@));
    Ok(out)
}

fn rows_differ_from(pixels: &Vec<Vec<Pixel>>, width: usize) -> (r: bool)
    ensures
        r == exists|y: int| 0 <= y < pixels.len() && #[trigger] grid_view(pixels@)[y].len() != width,
{
    let mut y: usize = 0;
    while y < pixels.len()
        invariant
            y <= pixels.len(),
            forall|k: int| 0 <= k < y ==> pixels@[k]@.len() == width,
        decreases pixels.len() - y,
    {
        if pixels[y].len() != width {
            assert(grid_view(pixels@)[y as int].len() != width);
            return true;
        }
        y += 1;
    }
    assert forall|k: int| 0 <= k < pixels.len() implies #[trigger] grid_view(pixels@)[k].len()
        == width by {
        assert(grid_view(pixels@)[k] == pixels@[k]@);
    }
    false
}

/// Draws one start column shared by all rows, then sorts each row from that
/// column to an end drawn for that row. Grids whose rows differ in width, or
/// are at most six columns wide, are refused with `RangeError`.
pub fn sort_pixels_pivot(pixels: Vec<Vec<Pixel>>) -> (r: Result<Vec<Vec<Pixel>>, SortError>)
    ensures
        r is Err <==> unfit_for_pivot(grid_view(pixels@)),
        r is Err ==> r == Err::<Vec<Vec<Pixel>>, SortError>(SortError::RangeError),
        r is Ok ==> r->Ok_0.len() == pixels.len() && forall|y: int|
            0 <= y < pixels.len() ==> (#[trigger] grid_view(r->Ok_0@)[y]).len() == grid_view(
                pixels@,
            )[y].len(),
        r is Ok ==> exists|minsort: int|
            #[trigger] pivot_outcome(grid_view(pixels@), grid_view(r->Ok_0@), minsort),
{
    let mut out: Vec<Vec<Pixel>> = Vec::new();
    if pixels.len() == 0 {
        assert(pivot_outcome(grid_view(pixels@), grid_view(out@), 0));
        let res: Result<Vec<Vec<Pixel>>, SortError> = Ok(out);
        assert(pivot_outcome(grid_view(pixels@), grid_view(res->Ok_0@), 0));
        return res;
    }
    let width = pixels[0].len();
    assert(grid_view(pixels@)[0] == pixels@[0]@);
    if width <= MIN_PARTIAL_WIDTH {
        return Err(SortError::RangeError);
    }
    if rows_differ_from(&pixels, width) {
        return Err(SortError::RangeError);
    }
    let minsort = random_in_range(EDGE_MARGIN, width - EDGE_MARGIN);
    let mut y: usize = 0;
    while y < pixels.len()
        invariant
            y <= pixels.len(),
            out.len() == y,
            EDGE_MARGIN <= minsort < width - EDGE_MARGIN,
            forall|k: int| 0 <= k < pixels.len() ==> #[trigger] grid_view(pixels@)[k].len() == width,
            forall|k: int| 0 <= k < y ==> (#[trigger] grid_view(out@)[k]).len() == width,
            forall|k: int|
                0 <= k < y ==> #[trigger] pivot_row_outcome(
                    grid_view(pixels@)[k],
                    grid_view(out@)[k],
                    minsort as int,
                ),
        decreases pixels.len() - y,
    {
        let mut row = copy_row(&pixels[y]);
        let ghost before = row@;
        assert(grid_view(pixels@)[y as int] == before);
        let maxsort = random_in_range(minsort, width);
        sort_range(&mut row, minsort, maxsort);
        assert(valid_random_range(before.len() as int, minsort as int, maxsort as int));
        assert(sorts_range(before, row@, minsort as int, maxsort as int));
        let ghost prev = out@;
        out.push(row);
        proof {
            assert(grid_view(out@)[y as int] == row@);
            assert forall|k: int| 0 <= k <= y implies (#[trigger] grid_view(out@)[k]).len() == width by {
                if k < y {
                    assert(grid_view(out@)[k] == grid_view(prev)[k]);
                }
            }
            assert forall|k: int| 0 <= k <= y implies #[trigger] pivot_row_outcome(
                grid_view(pixels@)[k],
                grid_view(out@)[k],
                minsort as int,
            ) by {
                if k < y {
                    assert(grid_view(out@)[k] == grid_view(prev)[k]);
                }
            }
        }
        y += 1;
    }
    let ghost m: int = minsort as int;
    assert(pivot_outcome(grid_view(pixels@), grid_view(out@), m));
    let res: Result<Vec<Vec<Pixel>>, SortError> = Ok(out);
    assert(pivot_outcome(grid_view(pixels@), grid_view(res->Ok_0@), m));
    assert(grid_view(res->Ok_0@) == grid_view(out@));
    res
}

} // verus!
