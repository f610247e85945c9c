//! Normalized screen regions.
//!
//! A region describes a rectangle relative to the image that contains it,
//! in fixed-point fractions of the image's current pixel size: one unit is
//! 1/10000 of the width or height. Regions are recomputed for every frame
//! and never persisted, so they stay valid across resolution changes.

use crate::frame::Frame;
use crate::frame::lemma_dims_bounded;
use crate::frame::lemma_flat_offset;
use crate::frame::lemma_mod4;
use vstd::arithmetic::div_mod::lemma_fundamental_div_mod;
use vstd::arithmetic::div_mod::lemma_fundamental_div_mod_converse;
use vstd::arithmetic::div_mod::lemma_mod_bound;
use vstd::prelude::*;

verus! {

/// Number of fixed-point units that span a whole image edge.
pub const REGION_SCALE: u32 = 10000;

/// Normalized screen region (fixed-point coordinates, units of
/// 1/`REGION_SCALE` of the containing image's width or height).
#[derive(Debug, Clone, PartialEq, Eq, Structural)]
pub struct ScreenRegion {
    pub x: u32,
    pub y: u32,
    pub width: u32,
    pub height: u32,
}

impl ScreenRegion {
    /// The region lies entirely inside the unit square.
    pub open spec fn in_unit(self) -> bool {
        &&& self.x + self.width <= REGION_SCALE
        &&& self.y + self.height <= REGION_SCALE
    }
}

/// Shop card slot `index` for a reference 16:9 game window (five slots along
/// the bottom of the HUD). A starting point only; the detector recomputes
/// every region per frame.
pub fn shop_slot(index: usize) -> (r: ScreenRegion)
    requires
        index < 5,
    ensures
        r.x == 2840 + index * 755,
        r.y == 7690,
        r.width == 724,
        r.height == 1670,
        r.in_unit(),
{
    ScreenRegion {
        x: 2840 + (index as u32) * 755,
        y: 7690,
        width: 724,
        height: 1670,
    }
}

/// Gold counter text box for the reference window.
pub fn gold() -> (r: ScreenRegion)
    ensures
        r == (ScreenRegion { x: 8700, y: 8800, width: 350, height: 250 }),
        r.in_unit(),
{
    ScreenRegion { x: 8700, y: 8800, width: 350, height: 250 }
}

/// Player level text box for the reference window.
pub fn level() -> (r: ScreenRegion)
    ensures
        r == (ScreenRegion { x: 2550, y: 8900, width: 200, height: 250 }),
        r.in_unit(),
{
    ScreenRegion { x: 2550, y: 8900, width: 200, height: 250 }
}

/// Stage indicator text box at the top center of the reference window.
pub fn stage() -> (r: ScreenRegion)
    ensures
        r == (ScreenRegion { x: 4650, y: 50, width: 700, height: 300 }),
        r.in_unit(),
{
    ScreenRegion { x: 4650, y: 50, width: 700, height: 300 }
}

/// A fixed-point fraction of an image edge, rounded to the nearest pixel.
pub open spec fn scaled_px(v: u32, size: u32) -> int {
    (v * size + REGION_SCALE / 2) / (REGION_SCALE as int)
}

/// Pixel origin of a region along one axis, clamped onto the image.
pub open spec fn clamped_origin(v: u32, size: u32) -> int {
    let p = scaled_px(v, size);
    if size == 0 {
        0
    } else if p > size - 1 {
        size - 1
    } else {
        p
    }
}

/// Pixel extent of a region along one axis, clamped to what remains right
/// of (or below) the clamped origin.
pub open spec fn clamped_extent(v: u32, origin: int, size: u32) -> int {
    let p = scaled_px(v, size);
    if p > size - origin {
        size - origin
    } else {
        p
    }
}

/// Copy the `w x h` sub-rectangle of `frame` whose top-left pixel is
/// `(x0, y0)`. Every output pixel equals the corresponding input pixel.
pub fn crop_px(frame: &Frame, x0: u32, y0: u32, w: u32, h: u32) -> (r: Frame)
    requires
        frame.wf(),
        x0 + w <= frame.width,
        y0 + h <= frame.height,
    ensures
        r.wf(),
        r.width == w,
        r.height == h,
        forall|i: int, j: int, c: int|
            0 <= i < w && 0 <= j < h && 0 <= c < 4 ==> #[trigger] r.chan(i, j, c) == frame.chan(
                x0 + i,
                y0 + j,
                c,
            ),
{
    let mut data: Vec<u8> = Vec::new();
    let mut j: u32 = 0;
    proof {
        lemma_dims_bounded(w as int, h as int);
    }
    while j < h
        invariant
            j <= h,
            frame.wf(),
            x0 + w <= frame.width,
            y0 + h <= frame.height,
            w * h <= 0x10000000,
            data@.len() == 4 * (j * w),
            forall|k: int|
                0 <= k < 4 * (j * w) ==> #[trigger] data@[k] == frame.chan(
                    x0 + (k / 4) % (w as int),
                    y0 + (k / 4) / (w as int),
                    k % 4,
                ),
        decreases h - j,
    {
        let mut i: u32 = 0;
        while i < w
            invariant
                i <= w,
                j < h,
                frame.wf(),
                x0 + w <= frame.width,
                y0 + h <= frame.height,
                w * h <= 0x10000000,
                data@.len() == 4 * (j * w + i),
                forall|k: int|
                    0 <= k < 4 * (j * w + i) ==> #[trigger] data@[k] == frame.chan(
                        x0 + (k / 4) % (w as int),
                        y0 + (k / 4) / (w as int),
                        k % 4,
                    ),
            decreases w - i,
        {
            proof {
                lemma_flat_offset(w as int, h as int, i as int, j as int);
            }
            let px = frame.pixel(x0 + i, y0 + j);
            data.push(px.0);
            data.push(px.1);
            data.push(px.2);
            data.push(px.3);
            proof {
                let q = j * w + i;
                lemma_flat_decompose(w as int, i as int, j as int);
                assert forall|k: int| 0 <= k < 4 * (q + 1) implies #[trigger] data@[k] == frame
                    .chan(x0 + (k / 4) % (w as int), y0 + (k / 4) / (w as int), k % 4) by {
                    if k >= 4 * q {
                        lemma_mod4(q, k - 4 * q);
                    }
                }
            }
            i = i + 1;
        }
        j = j + 1;
        proof {
            assert(j * w == (j - 1) * w + w) by (nonlinear_arith);
        }
    }
    let r = Frame { width: w, height: h, data };
    proof {
        assert(r.data@.len() == 4 * (h * w));
        assert(h * w == w * h) by (nonlinear_arith);
        assert forall|i: int, j2: int, c: int|
            0 <= i < w && 0 <= j2 < h && 0 <= c < 4 implies #[trigger] r.chan(i, j2, c)
            == frame.chan(x0 + i, y0 + j2, c) by {
            let q = j2 * w + i;
            lemma_flat_offset(w as int, h as int, i, j2);
            lemma_mod4(q, c);
            lemma_flat_decompose(w as int, i, j2);
        }
    }
    r
}

/// Crop a region from a frame using normalized fixed-point coordinates.
///
/// Coordinates are clamped to the frame bounds before cropping, so the
/// call never fails on a region that numerically overshoots the frame:
/// the origin is clamped onto the frame, and each extent to what remains
/// after the origin clamp. For a region inside the unit square the output
/// size is within one pixel of the exact fraction of the frame size.
pub fn crop_region(frame: &Frame, region: &ScreenRegion) -> (r: Frame)
    requires
        frame.wf(),
    ensures
        r.wf(),
        r.width == clamped_extent(region.width, clamped_origin(region.x, frame.width), frame.width),
        r.height == clamped_extent(
            region.height,
            clamped_origin(region.y, frame.height),
            frame.height,
        ),
        forall|i: int, j: int, c: int|
            0 <= i < r.width && 0 <= j < r.height && 0 <= c < 4 ==> #[trigger] r.chan(i, j, c)
                == frame.chan(
                clamped_origin(region.x, frame.width) + i,
                clamped_origin(region.y, frame.height) + j,
                c,
            ),
        region.in_unit() ==> region.width * frame.width <= REGION_SCALE * r.width + REGION_SCALE
            && REGION_SCALE * r.width <= region.width * frame.width + REGION_SCALE / 2,
        region.in_unit() ==> region.height * frame.height <= REGION_SCALE * r.height + REGION_SCALE
            && REGION_SCALE * r.height <= region.height * frame.height + REGION_SCALE / 2,
{
    let x64 = scale_axis(region.x, frame.width);
    let y64 = scale_axis(region.y, frame.height);
    let x: u32 = if frame.width == 0 {
        0
    } else if x64 > ((frame.width - 1) as u64) {
        frame.width - 1
    } else {
        x64 as u32
    };
    let y: u32 = if frame.height == 0 {
        0
    } else if y64 > ((frame.height - 1) as u64) {
        frame.height - 1
    } else {
        y64 as u32
    };
    let rw64 = scale_axis(region.width, frame.width);
    let rh64 = scale_axis(region.height, frame.height);
    let rw: u32 = if rw64 > ((frame.width - x) as u64) {
        frame.width - x
    } else {
        rw64 as u32
    };
    let rh: u32 = if rh64 > ((frame.height - y) as u64) {
        frame.height - y
    } else {
        rh64 as u32
    };
    proof {
        if region.in_unit() {
            lemma_clamped_extent_close(region.x, region.width, frame.width);
            lemma_clamped_extent_close(region.y, region.height, frame.height);
        }
    }
    crop_px(frame, x, y, rw, rh)
}

/// Round `v / REGION_SCALE` of `size` to the nearest pixel, in wide
/// arithmetic so that even out-of-range region values cannot overflow.
fn scale_axis(v: u32, size: u32) -> (r: u64)
    requires
        size <= crate::frame::MAX_DIM,
    ensures
        r == scaled_px(v, size),
{
    proof {
        assert(0 <= (v as int) * (size as int) <= 0xffff_ffff * 0x4000) by (nonlinear_arith)
            requires
                0 <= v <= 0xffff_ffff,
                0 <= size <= 0x4000,
        ;
    }
    (((v as u64) * (size as u64)) + (REGION_SCALE as u64) / 2) / (REGION_SCALE as u64)
}

/// For a region inside the unit square, the clamped pixel extent is within
/// one pixel of the exact fraction `extent * size / REGION_SCALE`.
proof fn lemma_clamped_extent_close(origin_v: u32, extent_v: u32, size: u32)
    requires
        origin_v + extent_v <= REGION_SCALE,
        size <= crate::frame::MAX_DIM,
    ensures
        extent_v * size <= REGION_SCALE * clamped_extent(
            extent_v,
            clamped_origin(origin_v, size),
            size,
        ) + REGION_SCALE,
        REGION_SCALE * clamped_extent(extent_v, clamped_origin(origin_v, size), size) <= extent_v
            * size + REGION_SCALE / 2,
{
    let s = REGION_SCALE as int;
    let a = origin_v * size;
    let b = extent_v * size;
    let pa = (a + s / 2) / s;
    let pb = (b + s / 2) / s;
    lemma_fundamental_div_mod(a + s / 2, s);
    lemma_mod_bound(a + s / 2, s);
    lemma_fundamental_div_mod(b + s / 2, s);
    lemma_mod_bound(b + s / 2, s);
    assert(a >= 0 && b >= 0 && a + b <= s * size) by (nonlinear_arith)
        requires
            origin_v + extent_v <= s,
            0 <= origin_v,
            0 <= extent_v,
            0 <= size,
            a == origin_v * size,
            b == extent_v * size,
    ;
    let o = clamped_origin(origin_v, size);
    let e = clamped_extent(extent_v, o, size);
    if size == 0 {
        assert(b == 0) by (nonlinear_arith)
            requires
                b == extent_v * size,
                size == 0,
        ;
        assert(e == (5000int) / 10000);
    } else {
        assert(o <= pa && o >= 0);
        if pb > size - o {
            assert(e == size - o);
            assert(b <= s * e + s && s * e <= b + s / 2) by (nonlinear_arith)
                requires
                    e == size - o,
                    o <= pa,
                    s * pa + s / 2 > a,
                    s * pa <= a + s / 2,
                    s * pb > b + s / 2 - s,
                    s * pb <= b + s / 2,
                    a + b <= s * size,
                    s == 10000,
                    0 <= o,
                    pb > size - o,
                    a >= 0,
                    b >= 0,
            ;
        } else {
            assert(e == pb);
            assert(b <= s * pb + s);
            assert(s * pb <= b + s / 2);
        }
    }
}

/// The flat index `j * w + i` decomposes back into `i` and `j`.
pub proof fn lemma_flat_decompose(w: int, i: int, j: int)
    requires
        0 <= i < w,
        0 <= j,
    ensures
        (j * w + i) / w == j,
        (j * w + i) % w == i,
{
    lemma_fundamental_div_mod_converse(j * w + i, w, j, i);
}

}
