use pixel_sorter::noise::generate_unsorted_image;
use pixel_sorter::policy::{random_sort_pixels, sort_all_pixels, sort_pixels_pivot, SortError};
use pixel_sorter::rows::{copy_row, random_sort_row, sort_range};

type Grid = Vec<Vec<[u8; 4]>>;

fn sample_grid(width: usize, height: usize) -> Grid {
    let mut g = Vec::new();
    for y in 0..height {
        let mut row = Vec::new();
        for x in 0..width {
            let v = ((x * 37 + y * 101 + 13) % 251) as u8;
            row.push([v, (v ^ 0x5a), (x % 4) as u8, 255]);
        }
        g.push(row);
    }
    g
}

fn is_non_decreasing(v: &[[u8; 4]]) -> bool {
    v.windows(2).all(|w| w[0] <= w[1])
}

fn same_pixels(a: &[[u8; 4]], b: &[[u8; 4]]) -> bool {
    let mut x = a.to_vec();
    let mut y = b.to_vec();
    x.sort();
    y.sort();
    x == y
}

/// Some drawable `[lo, hi)` explains `new` as `old` sorted there.
fn explained_by_range(old: &[[u8; 4]], new: &[[u8; 4]], fixed_lo: Option<usize>) -> bool {
    let w = old.len();
    for lo in 3..w - 3 {
        if fixed_lo.map_or(false, |f| f != lo) {
            continue;
        }
        for hi in lo..w {
            if old[..lo] == new[..lo]
                && old[hi..] == new[hi..]
                && is_non_decreasing(&new[lo..hi])
                && same_pixels(&old[lo..hi], &new[lo..hi])
            {
                return true;
            }
        }
    }
    false
}

#[test]
fn full_sort_single_pixel_image() {
    let grid = vec![vec![[10, 20, 30, 255]]];
    assert_eq!(sort_all_pixels(grid.clone()), grid);
}

#[test]
fn full_sort_three_pixel_row() {
    let grid = vec![vec![[255, 0, 0, 255], [0, 255, 0, 255], [0, 0, 255, 255]]];
    assert_eq!(
        sort_all_pixels(grid),
        vec![vec![[0, 0, 255, 255], [0, 255, 0, 255], [255, 0, 0, 255]]]
    );
}

#[test]
fn full_sort_keeps_dimensions_and_sorts_each_row() {
    let grid = sample_grid(17, 5);
    let out = sort_all_pixels(grid.clone());
    assert_eq!(out.len(), 5);
    for (a, b) in grid.iter().zip(out.iter()) {
        assert_eq!(b.len(), 17);
        assert!(is_non_decreasing(b));
        assert!(same_pixels(a, b));
    }
}

#[test]
fn full_sort_empty_grid() {
    assert_eq!(sort_all_pixels(Vec::new()), Grid::new());
}

#[test]
fn sort_range_only_touches_range() {
    let mut row = vec![[9, 0, 0, 0], [8, 0, 0, 0], [7, 0, 0, 0], [6, 0, 0, 0], [5, 0, 0, 0]];
    sort_range(&mut row, 1, 4);
    assert_eq!(
        row,
        vec![[9, 0, 0, 0], [6, 0, 0, 0], [7, 0, 0, 0], [8, 0, 0, 0], [5, 0, 0, 0]]
    );
}

#[test]
fn sort_range_empty_range_is_identity() {
    let mut row = vec![[3, 0, 0, 0], [1, 0, 0, 0], [2, 0, 0, 0]];
    sort_range(&mut row, 2, 2);
    assert_eq!(row, vec![[3, 0, 0, 0], [1, 0, 0, 0], [2, 0, 0, 0]]);
}

#[test]
fn copy_row_copies() {
    let row = vec![[1, 2, 3, 4], [5, 6, 7, 8]];
    assert_eq!(copy_row(&row), row);
}

#[test]
fn random_row_gate_at_or_above_intensity_leaves_row() {
    let mut row = vec![[5, 0, 0, 0], [4, 0, 0, 0], [3, 0, 0, 0], [2, 0, 0, 0], [1, 0, 0, 0]];
    let orig = row.clone();
    random_sort_row(&mut row, 0, 0, 0, 5);
    assert_eq!(row, orig);
    random_sort_row(&mut row, 0, 1, 0, 5);
    assert_eq!(row, orig);
    random_sort_row(&mut row, 40, 40, 1, 4);
    assert_eq!(row, orig);
}

#[test]
fn random_row_gate_within_intensity_sorts_range() {
    let mut row = vec![[5, 0, 0, 0], [4, 0, 0, 0], [3, 0, 0, 0], [2, 0, 0, 0], [1, 0, 0, 0]];
    random_sort_row(&mut row, 40, 39, 1, 4);
    assert_eq!(
        row,
        vec![[5, 0, 0, 0], [2, 0, 0, 0], [3, 0, 0, 0], [4, 0, 0, 0], [1, 0, 0, 0]]
    );
}

#[test]
fn random_row_intensity_above_hundred_counts_as_hundred() {
    let mut row = vec![[2, 0, 0, 0], [1, 0, 0, 0]];
    random_sort_row(&mut row, 250, 100, 0, 2);
    assert_eq!(row, vec![[2, 0, 0, 0], [1, 0, 0, 0]]);
    random_sort_row(&mut row, 250, 99, 0, 2);
    assert_eq!(row, vec![[1, 0, 0, 0], [2, 0, 0, 0]]);
}

#[test]
fn random_sort_rows_are_unchanged_or_range_sorted() {
    let grid = sample_grid(20, 30);
    let out = random_sort_pixels(grid.clone(), 50).unwrap();
    assert_eq!(out.len(), grid.len());
    for (a, b) in grid.iter().zip(out.iter()) {
        assert_eq!(b.len(), a.len());
        assert!(a == b || explained_by_range(a, b, None));
    }
}

#[test]
fn random_sort_full_intensity_sorts_every_row() {
    let grid = sample_grid(12, 25);
    let out = random_sort_pixels(grid.clone(), 100).unwrap();
    for (a, b) in grid.iter().zip(out.iter()) {
        assert!(explained_by_range(a, b, None));
    }
}

#[test]
fn random_sort_narrow_rows_are_refused() {
    assert_eq!(random_sort_pixels(sample_grid(6, 3), 100), Err(SortError::RangeError));
    let mut grid = sample_grid(10, 3);
    grid[1].truncate(4);
    assert_eq!(random_sort_pixels(grid, 1), Err(SortError::RangeError));
}

#[test]
fn random_sort_zero_intensity_is_identity() {
    let grid = sample_grid(20, 200);
    assert_eq!(random_sort_pixels(grid.clone(), 0), Ok(grid));
    let narrow = vec![vec![[3, 2, 1, 0], [1, 2, 3, 4], [0, 0, 0, 0]]];
    assert_eq!(random_sort_pixels(narrow.clone(), 0), Ok(narrow));
}

#[test]
fn random_sort_empty_grid() {
    assert_eq!(random_sort_pixels(Vec::new(), 100), Ok(Grid::new()));
}

#[test]
fn pivot_sort_shares_start_column() {
    let grid = sample_grid(16, 40);
    let out = sort_pixels_pivot(grid.clone()).unwrap();
    assert_eq!(out.len(), grid.len());
    let starts: Vec<usize> = (3..13)
        .filter(|&lo| grid.iter().zip(out.iter()).all(|(a, b)| explained_by_range(a, b, Some(lo))))
        .collect();
    assert!(!starts.is_empty());
}

#[test]
fn pivot_sort_refuses_narrow_or_ragged_grids() {
    assert_eq!(sort_pixels_pivot(sample_grid(6, 2)), Err(SortError::RangeError));
    let mut grid = sample_grid(10, 3);
    grid[2].push([0, 0, 0, 0]);
    assert_eq!(sort_pixels_pivot(grid), Err(SortError::RangeError));
}

#[test]
fn pivot_sort_empty_grid() {
    assert_eq!(sort_pixels_pivot(Vec::new()), Ok(Grid::new()));
}

#[test]
fn noise_image_has_opaque_pixels_in_range() {
    let g = generate_unsorted_image(32, 24);
    assert_eq!(g.len(), 24);
    for row in &g {
        assert_eq!(row.len(), 32);
        for p in row {
            assert!(p[0] < 255 && p[1] < 255 && p[2] < 255);
            assert_eq!(p[3], 255);
        }
    }
    let first = g[0][0];
    assert!(g.iter().flatten().any(|p| *p != first));
}

#[test]
fn noise_image_empty() {
    assert!(generate_unsorted_image(0, 0).is_empty());
    let g = generate_unsorted_image(0, 3);
    assert_eq!(g.len(), 3);
    assert!(g.iter().all(|r| r.is_empty()));
}
