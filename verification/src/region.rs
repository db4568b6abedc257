//! Screen-region arithmetic: the two fixed capture presets and the pixel
//! bounds they denote on a window of a given size. A region is given as
//! fractions of the window, in whole percent; a pixel bound is the dimension
//! scaled by the percentage and truncated.

use vstd::prelude::*;

verus! {

/// Fractions of a window taken by a capture region, in whole percent.
pub struct Region {
    pub x0: u32,
    pub x1: u32,
    pub y0: u32,
    pub y1: u32,
}

/// The percentages are ordered and within the window.
pub open spec fn region_wf(r: Region) -> bool {
    r.x0 <= r.x1 <= 100 && r.y0 <= r.y1 <= 100
}

/// The bottom strip, where the trigger phrase appears: 6% to 70% of the
/// width, 60% to 78% of the height.
pub fn bottom_region() -> (r: Region)
    ensures
        r.x0 == 6 && r.x1 == 70 && r.y0 == 60 && r.y1 == 78,
        region_wf(r),
{
    Region { x0: 6, x1: 70, y0: 60, y1: 78 }
}

/// The top strip, where species and level-marker lines appear: 6% to 94% of
/// the width, 6% to 30% of the height.
pub fn top_region() -> (r: Region)
    ensures
        r.x0 == 6 && r.x1 == 94 && r.y0 == 6 && r.y1 == 30,
        region_wf(r),
{
    Region { x0: 6, x1: 94, y0: 6, y1: 30 }
}

/// A dimension scaled by a percentage, truncated to a whole pixel.
pub open spec fn scaled(dim: u32, pct: u32) -> int {
    (dim * pct) / 100
}

fn scale(dim: u32, pct: u32) -> (r: u32)
    requires
        pct <= 100,
    ensures
        r == scaled(dim, pct),
        r <= dim,
{
    proof {
        vstd::arithmetic::mul::lemma_mul_inequality(pct as int, 100, dim as int);
        vstd::arithmetic::div_mod::lemma_div_is_ordered(
            dim as int * pct as int,
            dim as int * 100,
            100,
        );
        vstd::arithmetic::div_mod::lemma_div_multiples_vanish(dim as int, 100);
    }
    (((dim as u64) * (pct as u64)) / 100) as u32
}

/// The pixel bounds of a region on a window of the given size, in the order
/// left, right, top, bottom: each dimension scaled by its percentage and
/// truncated. The bounds are ordered and lie within the window.
pub fn pixel_bounds(width: u32, height: u32, r: &Region) -> (b: (u32, u32, u32, u32))
    requires
        region_wf(*r),
    ensures
        b.0 == scaled(width, r.x0),
        b.1 == scaled(width, r.x1),
        b.2 == scaled(height, r.y0),
        b.3 == scaled(height, r.y1),
        b.0 <= b.1 <= width,
        b.2 <= b.3 <= height,
{
    proof {
        vstd::arithmetic::mul::lemma_mul_inequality(r.x0 as int, r.x1 as int, width as int);
        vstd::arithmetic::div_mod::lemma_div_is_ordered(
            width as int * r.x0 as int,
            width as int * r.x1 as int,
            100,
        );
        vstd::arithmetic::mul::lemma_mul_inequality(r.y0 as int, r.y1 as int, height as int);
        vstd::arithmetic::div_mod::lemma_div_is_ordered(
            height as int * r.y0 as int,
            height as int * r.y1 as int,
            100,
        );
    }
    let x0: u32 = scale(width, r.x0);
    let x1: u32 = scale(width, r.x1);
    let y0: u32 = scale(height, r.y0);
    let y1: u32 = scale(height, r.y1);
    (x0, x1, y0, y1)
}

} // verus!
