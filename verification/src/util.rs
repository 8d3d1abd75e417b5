//! Small numeric helpers shared across the crate.

use vstd::prelude::*;

verus! {

/// The smaller of two values.
pub fn min(a: isize, b: isize) -> (r: isize)
    ensures
        r == if b < a {
            b
        } else {
            a
        },
{
    if b < a {
        b
    } else {
        a
    }
}

/// The larger of two values.
pub fn max(a: isize, b: isize) -> (r: isize)
    ensures
        r == if b > a {
            b
        } else {
            a
        },
{
    if b > a {
        b
    } else {
        a
    }
}

/// Clamps `x` into the closed interval `[lo, hi]`.
pub fn clamp(x: isize, lo: isize, hi: isize) -> (r: isize)
    requires
        lo <= hi,
    ensures
        lo <= r <= hi,
        r == if x < lo {
            lo
        } else if x > hi {
            hi
        } else {
            x
        },
{
    if hi < x {
        hi
    } else if x < lo {
        lo
    } else {
        x
    }
}

/// Pixel coordinates of the sprite at tile index `(x, y)` in an atlas of
/// `tile_w` by `tile_h` tiles.
pub fn get_sprite_coords(x: usize, y: usize, tile_w: usize, tile_h: usize) -> (r: (usize, usize))
    requires
        x * tile_w <= usize::MAX,
        y * tile_h <= usize::MAX,
    ensures
        r == (((x * tile_w) as usize), ((y * tile_h) as usize)),
{
    (x * tile_w, y * tile_h)
}

} // verus!
