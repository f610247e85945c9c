//! Pixel buffers.
//!
//! `Frame` is an immutable-by-convention RGBA buffer (4 bytes per pixel,
//! row-major); `GrayFrame` holds one luma byte per pixel. Every analysis
//! stage reads frames through these types, so their well-formedness
//! invariants (buffer length matches the dimensions, dimensions bounded)
//! make all downstream index arithmetic overflow-free.

use vstd::prelude::*;

verus! {

/// Largest width or height a frame may have. Keeps every index product
/// comfortably inside `usize`/`u64` ranges.
pub const MAX_DIM: u32 = 16384;

/// An RGBA pixel buffer, row-major, 4 bytes per pixel.
#[derive(Debug, Clone)]
pub struct Frame {
    pub width: u32,
    pub height: u32,
    pub data: Vec<u8>,
}

impl Frame {
    /// Number of pixels.
    pub open spec fn npix(self) -> int {
        self.width * self.height
    }

    /// The buffer length matches the dimensions and the dimensions are bounded.
    pub open spec fn wf(self) -> bool {
        &&& self.width <= MAX_DIM
        &&& self.height <= MAX_DIM
        &&& self.data@.len() == 4 * self.npix()
    }

    /// Channel `c` (0=red, 1=green, 2=blue, 3=alpha) of the pixel at `(x, y)`.
    pub open spec fn chan(self, x: int, y: int, c: int) -> u8 {
        self.data@[4 * (y * self.width + x) + c]
    }

    /// Sum of the three color channels of the pixel at `(x, y)` (0..=765).
    pub open spec fn sum3(self, x: int, y: int) -> int {
        self.chan(x, y, 0) + self.chan(x, y, 1) + self.chan(x, y, 2)
    }

    /// Every pixel has the same color as the pixel at the origin.
    pub open spec fn is_uniform(self) -> bool {
        forall|x: int, y: int, c: int|
            0 <= x < self.width && 0 <= y < self.height && 0 <= c < 3 ==> #[trigger] self.chan(
                x,
                y,
                c,
            ) == self.chan(0, 0, c)
    }

    /// New frame of the given size, every pixel set to the given color with
    /// opaque alpha.
    pub fn filled(width: u32, height: u32, r: u8, g: u8, b: u8) -> (f: Frame)
        requires
            width <= MAX_DIM,
            height <= MAX_DIM,
        ensures
            f.wf(),
            f.width == width,
            f.height == height,
            forall|x: int, y: int, c: int|
                0 <= x < width && 0 <= y < height && 0 <= c < 4 ==> #[trigger] f.chan(x, y, c)
                    == chan_fill(c, r, g, b),
    {
        proof {
            lemma_dims_bounded(width as int, height as int);
        }
        let n: usize = (width as usize) * (height as usize);
        let mut data: Vec<u8> = Vec::new();
        let mut p: usize = 0;
        while p < n
            invariant
                p <= n,
                n == width * height,
                data@.len() == 4 * p,
                forall|k: int| 0 <= k < 4 * p ==> #[trigger] data@[k] == fill_byte(k, r, g, b),
            decreases n - p,
        {
            data.push(r);
            data.push(g);
            data.push(b);
            data.push(255);
            p = p + 1;
            proof {
                assert forall|k: int| 0 <= k < 4 * p implies #[trigger] data@[k] == fill_byte(
                    k,
                    r,
                    g,
                    b,
                ) by {
                    if k >= 4 * (p - 1) {
                        lemma_mod4(p - 1, k - 4 * (p - 1));
                    }
                }
            }
        }
        let f = Frame { width, height, data };
        proof {
            assert forall|x: int, y: int, c: int|
                0 <= x < width && 0 <= y < height && 0 <= c < 4 implies #[trigger] f.chan(x, y, c)
                == chan_fill(c, r, g, b) by {
                lemma_flat_offset(width as int, height as int, x, y);
                lemma_mod4(y * width + x, c);
            }
        }
        f
    }

    /// Rebuild a frame from raw RGBA bytes; `None` when the buffer length
    /// does not match the dimensions or a dimension is out of range.
    pub fn from_raw(width: u32, height: u32, data: Vec<u8>) -> (r: Option<Frame>)
        ensures
            match r {
                Some(f) => {
                    &&& f.wf()
                    &&& f.width == width
                    &&& f.height == height
                    &&& f.data@ == data@
                },
                None => width > MAX_DIM || height > MAX_DIM || data@.len() != 4 * (width
                    * height),
            },
    {
        if width > MAX_DIM || height > MAX_DIM {
            return None;
        }
        proof {
            lemma_dims_bounded(width as int, height as int);
        }
        let expect: usize = 4 * ((width as usize) * (height as usize));
        if data.len() != expect {
            return None;
        }
        Some(Frame { width, height, data })
    }

    /// An exact copy of this frame.
    pub fn clone_frame(&self) -> (r: Frame)
        ensures
            r.width == self.width,
            r.height == self.height,
            r.data@ == self.data@,
    {
        let n: usize = self.data.len();
        let mut data: Vec<u8> = Vec::new();
        let mut i: usize = 0;
        while i < n
            invariant
                i <= n,
                n == self.data@.len(),
                data@ == self.data@.take(i as int),
            decreases n - i,
        {
            data.push(self.data[i]);
            proof {
                assert(self.data@.take(i + 1) =~= self.data@.take(i as int).push(self.data@[
                i as int]));
            }
            i = i + 1;
        }
        proof {
            assert(self.data@.take(n as int) =~= self.data@);
        }
        Frame { width: self.width, height: self.height, data }
    }

    /// Read the four channels of the pixel at `(x, y)`.
    pub fn pixel(&self, x: u32, y: u32) -> (px: (u8, u8, u8, u8))
        requires
            self.wf(),
            x < self.width,
            y < self.height,
        ensures
            px.0 == self.chan(x as int, y as int, 0),
            px.1 == self.chan(x as int, y as int, 1),
            px.2 == self.chan(x as int, y as int, 2),
            px.3 == self.chan(x as int, y as int, 3),
    {
        proof {
            lemma_flat_offset(self.width as int, self.height as int, x as int, y as int);
        }
        let base: usize = 4 * ((y as usize) * (self.width as usize) + (x as usize));
        (self.data[base], self.data[base + 1], self.data[base + 2], self.data[base + 3])
    }

    /// Overwrite the pixel at `(x, y)` with the given color, opaque alpha.
    pub fn set_pixel(&mut self, x: u32, y: u32, r: u8, g: u8, b: u8)
        requires
            old(self).wf(),
            x < old(self).width,
            y < old(self).height,
        ensures
            final(self).wf(),
            final(self).width == old(self).width,
            final(self).height == old(self).height,
            final(self).chan(x as int, y as int, 0) == r,
            final(self).chan(x as int, y as int, 1) == g,
            final(self).chan(x as int, y as int, 2) == b,
            final(self).chan(x as int, y as int, 3) == 255,
            forall|i: int, j: int, c: int|
                0 <= i < old(self).width && 0 <= j < old(self).height && 0 <= c < 4 && !(i == x && j
                    == y) ==> #[trigger] final(self).chan(i, j, c) == old(self).chan(i, j, c),
    {
        proof {
            lemma_flat_offset(self.width as int, self.height as int, x as int, y as int);
        }
        let base: usize = 4 * ((y as usize) * (self.width as usize) + (x as usize));
        self.data.set(base, r);
        self.data.set(base + 1, g);
        self.data.set(base + 2, b);
        self.data.set(base + 3, 255);
        proof {
            assert forall|i: int, j: int, c: int|
                0 <= i < old(self).width && 0 <= j < old(self).height && 0 <= c < 4 && !(i == x && j
                    == y) implies #[trigger] self.chan(i, j, c) == old(self).chan(i, j, c) by {
                lemma_flat_offset(self.width as int, self.height as int, i, j);
                lemma_pixel_index_injective(self.width as int, i, j, x as int, y as int);
            }
        }
    }
}

/// A single-channel (luma) pixel buffer, row-major.
#[derive(Debug, Clone)]
pub struct GrayFrame {
    pub width: u32,
    pub height: u32,
    pub data: Vec<u8>,
}

impl GrayFrame {
    /// Number of pixels.
    pub open spec fn npix(self) -> int {
        self.width * self.height
    }

    /// The buffer length matches the dimensions and the dimensions are bounded.
    pub open spec fn wf(self) -> bool {
        &&& self.width <= MAX_DIM
        &&& self.height <= MAX_DIM
        &&& self.data@.len() == self.npix()
    }

    /// Luma of the pixel at `(x, y)`.
    pub open spec fn at(self, x: int, y: int) -> u8 {
        self.data@[y * self.width + x]
    }

    /// Rebuild a gray frame from raw luma bytes; `None` when the buffer
    /// length does not match the dimensions or a dimension is out of range.
    pub fn from_raw(width: u32, height: u32, data: Vec<u8>) -> (r: Option<GrayFrame>)
        ensures
            match r {
                Some(g) => {
                    &&& g.wf()
                    &&& g.width == width
                    &&& g.height == height
                    &&& g.data@ == data@
                },
                None => width > MAX_DIM || height > MAX_DIM || data@.len() != width * height,
            },
    {
        if width > MAX_DIM || height > MAX_DIM {
            return None;
        }
        proof {
            lemma_dims_bounded(width as int, height as int);
        }
        let expect: usize = (width as usize) * (height as usize);
        if data.len() != expect {
            return None;
        }
        Some(GrayFrame { width, height, data })
    }

    /// Read the luma byte at `(x, y)`.
    pub fn get(&self, x: u32, y: u32) -> (v: u8)
        requires
            self.wf(),
            x < self.width,
            y < self.height,
        ensures
            v == self.at(x as int, y as int),
    {
        proof {
            lemma_flat_offset(self.width as int, self.height as int, x as int, y as int);
        }
        self.data[(y as usize) * (self.width as usize) + (x as usize)]
    }
}

/// Channel value `c` of a uniformly filled RGBA pixel.
pub open spec fn chan_fill(c: int, r: u8, g: u8, b: u8) -> u8 {
    if c == 0 {
        r
    } else if c == 1 {
        g
    } else if c == 2 {
        b
    } else {
        255u8
    }
}

/// Byte `k` of a uniformly filled RGBA buffer.
pub open spec fn fill_byte(k: int, r: u8, g: u8, b: u8) -> u8 {
    chan_fill(k % 4, r, g, b)
}

/// Byte offset `4 q + c` of pixel `q` has remainder `c` mod 4.
pub proof fn lemma_mod4(q: int, c: int)
    requires
        0 <= q,
        0 <= c < 4,
    ensures
        (4 * q + c) % 4 == c,
{
    assert((4 * q + c) % 4 == c) by (nonlinear_arith)
        requires
            0 <= q,
            0 <= c < 4,
    ;
}

/// Luma of an RGBA pixel: the BT.709 integer weighting
/// `(2126 r + 7152 g + 722 b) / 10000`, which never exceeds 255.
pub open spec fn luma_val(r: u8, g: u8, b: u8) -> u8 {
    ((2126 * r + 7152 * g + 722 * b) / 10000) as u8
}

/// The luma sequence of an RGBA byte buffer with `npix` pixels.
pub open spec fn luma_seq(data: Seq<u8>, npix: int) -> Seq<u8> {
    Seq::new(npix as nat, |p: int| luma_val(data[4 * p], data[4 * p + 1], data[4 * p + 2]))
}

/// Convert an RGBA frame to luma, pixel by pixel.
pub fn to_gray(f: &Frame) -> (g: GrayFrame)
    requires
        f.wf(),
    ensures
        g.wf(),
        g.width == f.width,
        g.height == f.height,
        g.data@ == luma_seq(f.data@, f.npix()),
        forall|p: int|
            0 <= p < f.npix() ==> #[trigger] g.data@[p] == luma_val(
                f.data@[4 * p],
                f.data@[4 * p + 1],
                f.data@[4 * p + 2],
            ),
        forall|x: int, y: int|
            0 <= x < f.width && 0 <= y < f.height ==> #[trigger] g.at(x, y) == luma_val(
                f.chan(x, y, 0),
                f.chan(x, y, 1),
                f.chan(x, y, 2),
            ),
{
    proof {
        lemma_dims_bounded(f.width as int, f.height as int);
    }
    let n: usize = (f.width as usize) * (f.height as usize);
    let mut data: Vec<u8> = Vec::new();
    let mut p: usize = 0;
    while p < n
        invariant
            p <= n,
            n == f.npix(),
            n <= 0x10000000,
            f.wf(),
            data@.len() == p,
            forall|q: int|
                0 <= q < p ==> #[trigger] data@[q] == luma_val(
                    f.data@[4 * q],
                    f.data@[4 * q + 1],
                    f.data@[4 * q + 2],
                ),
        decreases n - p,
    {
        let r: u8 = f.data[4 * p];
        let gch: u8 = f.data[4 * p + 1];
        let b: u8 = f.data[4 * p + 2];
        let v: u32 = (2126 * (r as u32) + 7152 * (gch as u32) + 722 * (b as u32)) / 10000;
        assert(v <= 255);
        data.push(v as u8);
        p = p + 1;
    }
    let g = GrayFrame { width: f.width, height: f.height, data };
    proof {
        assert(g.data@ =~= luma_seq(f.data@, f.npix()));
        assert forall|x: int, y: int| 0 <= x < f.width && 0 <= y < f.height implies #[trigger] g.at(
            x,
            y,
        ) == luma_val(f.chan(x, y, 0), f.chan(x, y, 1), f.chan(x, y, 2)) by {
            lemma_flat_offset(f.width as int, f.height as int, x, y);
        }
    }
    g
}

/// Pack a strided pixel buffer (rows padded to `stride` bytes, as video
/// decoders hand them out) into a tight RGBA frame: row `y` of the result
/// is bytes `[y * stride, y * stride + 4 * width)` of the input.
pub fn frame_from_strided(width: u32, height: u32, stride: usize, data: &Vec<u8>) -> (r: Option<
    Frame,
>)
    ensures
        match r {
            Some(f) => {
                &&& f.wf()
                &&& f.width == width
                &&& f.height == height
                &&& 4 * width <= stride
                &&& height * stride <= data@.len()
                &&& forall|y: int, k: int|
                    0 <= y < height && 0 <= k < 4 * width ==> #[trigger] f.data@[y * (4 * width)
                        + k] == data@[y * stride + k]
            },
            None => width > MAX_DIM || height > MAX_DIM || stride < 4 * width || data@.len()
                < height * stride,
        },
{
    if width > MAX_DIM || height > MAX_DIM {
        return None;
    }
    if stride < 4 * (width as usize) {
        return None;
    }
    proof {
        lemma_dims_bounded(width as int, height as int);
    }
    proof {
        assert((height as int) * (stride as int) < 0x100000000000000000000000000000000)
            by (nonlinear_arith)
            requires
                0 <= height < 0x100000000,
                0 <= stride < 0x10000000000000000,
        ;
    }
    let need: u128 = (height as u128) * (stride as u128);
    if need > data.len() as u128 {
        proof {
            assert(data@.len() < height * stride);
        }
        return None;
    }
    let row_bytes: usize = 4 * (width as usize);
    let dlen: usize = data.len();
    let mut out: Vec<u8> = Vec::new();
    let mut y: usize = 0;
    while y < height as usize
        invariant
            y <= height,
            width <= MAX_DIM,
            height <= MAX_DIM,
            4 * width <= stride,
            height * stride <= data@.len(),
            data@.len() == dlen,
            row_bytes == 4 * width,
            out@.len() == y * row_bytes,
            forall|y2: int, k: int|
                0 <= y2 < y && 0 <= k < row_bytes ==> #[trigger] out@[y2 * (4 * width as int) + k]
                    == data@[y2 * stride + k],
        decreases height - y,
    {
        proof {
            assert((y + 1) * stride <= height * stride && y * stride + stride == (y + 1) * stride
                && (y + 1) * row_bytes == y * row_bytes + row_bytes && y * row_bytes <= y * stride)
                by (nonlinear_arith)
                requires
                    0 <= y < height,
                    row_bytes <= stride,
                    0 <= stride,
                    0 <= row_bytes,
            ;
        }
        let base: usize = y * stride;
        let mut k: usize = 0;
        while k < row_bytes
            invariant
                k <= row_bytes,
                y < height,
                base == y * stride,
                base + stride <= data@.len(),
                data@.len() == dlen,
                row_bytes <= stride,
                row_bytes == 4 * width,
                out@.len() == y * row_bytes + k,
                forall|y2: int, k2: int|
                    0 <= y2 < y && 0 <= k2 < row_bytes ==> #[trigger] out@[y2 * (4
                        * width as int) + k2] == data@[y2 * stride + k2],
                forall|k2: int|
                    0 <= k2 < k ==> #[trigger] out@[y * (4 * width as int) + k2] == data@[y
                        * stride + k2],
            decreases row_bytes - k,
        {
            proof {
                assert forall|y2: int, k2: int|
                    0 <= y2 < y && 0 <= k2 < row_bytes implies #[trigger] (y2 * (4
                    * width as int) + k2) < y * (4 * width as int) by {
                    assert(y2 * (4 * width as int) + (4 * width as int) <= y * (4
                        * width as int)) by (nonlinear_arith)
                        requires
                            0 <= y2 < y,
                            0 <= 4 * width as int,
                    ;
                }
            }
            out.push(data[base + k]);
            k = k + 1;
        }
        y = y + 1;
    }
    proof {
        assert((height as int) * (4 * width as int) == 4 * (width * height))
            by (nonlinear_arith);
    }
    Some(Frame { width, height, data: out })
}

/// Bounded dimensions give a bounded pixel count.
pub proof fn lemma_dims_bounded(w: int, h: int)
    requires
        0 <= w <= MAX_DIM,
        0 <= h <= MAX_DIM,
    ensures
        0 <= w * h <= 0x10000000,
{
    assert(0 <= w * h <= 0x10000000) by (nonlinear_arith)
        requires
            0 <= w <= 0x4000,
            0 <= h <= 0x4000,
    ;
}

/// The flat pixel index `y * w + x` stays below the pixel count, and the
/// RGBA byte offset below four times it.
pub proof fn lemma_flat_offset(w: int, h: int, x: int, y: int)
    requires
        0 <= x < w,
        0 <= y < h,
        w <= MAX_DIM,
        h <= MAX_DIM,
    ensures
        0 <= y * w + x < w * h,
        0 <= 4 * (y * w + x) && 4 * (y * w + x) + 3 < 4 * (w * h),
        w * h <= 0x10000000,
{
    assert(y * w + x < w * h) by (nonlinear_arith)
        requires
            0 <= x < w,
            0 <= y < h,
    ;
    lemma_dims_bounded(w, h);
}

/// Distinct pixel coordinates give distinct flat indices.
pub proof fn lemma_pixel_index_injective(w: int, x1: int, y1: int, x2: int, y2: int)
    requires
        0 <= x1 < w,
        0 <= x2 < w,
        0 <= y1,
        0 <= y2,
        !(x1 == x2 && y1 == y2),
    ensures
        y1 * w + x1 != y2 * w + x2,
{
    assert(y1 * w + x1 != y2 * w + x2) by (nonlinear_arith)
        requires
            0 <= x1 < w,
            0 <= x2 < w,
            0 <= y1,
            0 <= y2,
            !(x1 == x2 && y1 == y2),
    ;
}

}
