//! Pixel sorting: row-wise sorting of RGBA pixel grids, with full-row,
//! random partial and fixed-pivot transform policies.

pub mod pixel;
pub mod quicksort;
pub mod byte_sort;
pub mod rows;
pub mod policy;
mod random;
pub mod noise;
