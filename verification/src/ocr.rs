//! Digit and stage text reading support.
//!
//! The external text reader converts a small cropped image into a number
//! or a stage string. This module owns everything around that call: the
//! image preprocessing contract (upscaling of small crops, grayscale,
//! contrast threshold and inversion), the parsing of the returned digit
//! text, and the stage-format validation. The reader itself may be
//! unavailable entirely, in which case every read degrades to `None`.

use crate::frame::Frame;
use crate::frame::GrayFrame;
use crate::frame::luma_seq;
use crate::frame::to_gray;
use crate::profile::lemma_sorted_elem_from;
use crate::profile::sort_u32;
use crate::profile::sorted_version;
use vstd::arithmetic::div_mod::lemma_fundamental_div_mod;
use vstd::prelude::*;

verus! {

/// The widened (u32) copy of a byte sequence, as handed to the sorter.
pub open spec fn widened(s: Seq<u8>) -> Seq<u32> {
    Seq::new(s.len(), |i: int| s[i] as u32)
}

/// The binarization threshold derived from a sorted luma sequence: the
/// 30th percentile plus 40% of the spread up to the 85th percentile.
pub open spec fn ocr_threshold_of_sorted(t: Seq<u32>) -> int {
    let dark = t[t.len() as int * 30 / 100];
    let bright = t[t.len() as int * 85 / 100];
    dark + (bright - dark) * 4 / 10
}

/// The upscale factor applied before handing a crop to the text reader:
/// small crops are tripled or doubled (the reader needs a minimum glyph
/// height), and a crop too large to upscale inside the frame bound is
/// left alone.
pub open spec fn ocr_scale(w: int, h: int) -> int {
    let base: int = if h < 30 {
        3
    } else if h < 60 {
        2
    } else {
        1
    };
    if w * base <= 16384 && h * base <= 16384 {
        base
    } else {
        1
    }
}

/// Replicate every pixel of `f` into an `s x s` block.
pub fn upscale_nearest(f: &Frame, s: u32) -> (r: Frame)
    requires
        f.wf(),
        1 <= s <= 4,
        f.width * s <= 16384,
        f.height * s <= 16384,
    ensures
        r.wf(),
        r.width == f.width * s,
        r.height == f.height * s,
        forall|x: int, y: int, c: int|
            0 <= x < r.width && 0 <= y < r.height && 0 <= c < 4 ==> #[trigger] r.chan(x, y, c)
                == f.chan(x / (s as int), y / (s as int), c),
{
    let nw: u32 = f.width * s;
    let nh: u32 = f.height * s;
    let mut data: Vec<u8> = Vec::new();
    let mut j: u32 = 0;
    proof {
        crate::frame::lemma_dims_bounded(nw as int, nh as int);
    }
    while j < nh
        invariant
            f.wf(),
            1 <= s <= 4,
            nw == f.width * s,
            nh == f.height * s,
            nw <= 16384,
            nh <= 16384,
            j <= nh,
            data@.len() == 4 * (j * nw),
            forall|k: int|
                0 <= k < 4 * (j * nw) ==> #[trigger] data@[k] == f.chan(
                    ((k / 4) % (nw as int)) / (s as int),
                    ((k / 4) / (nw as int)) / (s as int),
                    k % 4,
                ),
        decreases nh - j,
    {
        let mut i: u32 = 0;
        while i < nw
            invariant
                f.wf(),
                1 <= s <= 4,
                nw == f.width * s,
                nh == f.height * s,
                nw <= 16384,
                nh <= 16384,
                j < nh,
                i <= nw,
                data@.len() == 4 * (j * nw + i),
                forall|k: int|
                    0 <= k < 4 * (j * nw + i) ==> #[trigger] data@[k] == f.chan(
                        ((k / 4) % (nw as int)) / (s as int),
                        ((k / 4) / (nw as int)) / (s as int),
                        k % 4,
                    ),
            decreases nw - i,
        {
            proof {
                crate::frame::lemma_flat_offset(nw as int, nh as int, i as int, j as int);
                lemma_scaled_coord(i as int, nw as int, f.width as int, s as int);
                lemma_scaled_coord(j as int, nh as int, f.height as int, s as int);
            }
            let px = f.pixel(i / s, j / s);
            data.push(px.0);
            data.push(px.1);
            data.push(px.2);
            data.push(px.3);
            proof {
                let q = j * nw + i;
                crate::region::lemma_flat_decompose(nw as int, i as int, j as int);
                assert forall|k: int| 0 <= k < 4 * (q + 1) implies #[trigger] data@[k] == f.chan(
                    ((k / 4) % (nw as int)) / (s as int),
                    ((k / 4) / (nw as int)) / (s as int),
                    k % 4,
                ) by {
                    if k >= 4 * q {
                        crate::frame::lemma_mod4(q, k - 4 * q);
                    }
                }
            }
            i = i + 1;
        }
        j = j + 1;
        proof {
            assert(j * nw == (j - 1) * nw + nw) by (nonlinear_arith);
        }
    }
    let r = Frame { width: nw, height: nh, data };
    proof {
        assert(r.data@.len() == 4 * (nh * nw));
        assert(nh * nw == nw * nh) by (nonlinear_arith);
        assert forall|x: int, y: int, c: int|
            0 <= x < r.width && 0 <= y < r.height && 0 <= c < 4 implies #[trigger] r.chan(x, y, c)
            == f.chan(x / (s as int), y / (s as int), c) by {
            let q = y * nw + x;
            crate::frame::lemma_flat_offset(nw as int, nh as int, x, y);
            crate::frame::lemma_mod4(q, c);
            crate::region::lemma_flat_decompose(nw as int, x, y);
        }
    }
    r
}

/// A scaled coordinate divides back into the source image.
proof fn lemma_scaled_coord(i: int, n: int, orig: int, s: int)
    requires
        0 <= i < n,
        n == orig * s,
        1 <= s,
    ensures
        0 <= i / s < orig,
{
    lemma_fundamental_div_mod(i, s);
    vstd::arithmetic::div_mod::lemma_mod_bound(i, s);
    assert(i / s < orig) by (nonlinear_arith)
        requires
            s >= 1,
            s * (i / s) <= i,
            i < orig * s,
            i / s >= 0,
    ;
    assert(i / s >= 0) by (nonlinear_arith)
        requires
            i >= 0,
            s >= 1,
    ;
}

/// Binarize a crop for the text reader: convert to luma, derive an
/// adaptive threshold from the 30th/85th percentiles of the luma values,
/// and invert, so bright UI text comes out black on white.
pub fn preprocess_for_ocr(image: &Frame) -> (r: GrayFrame)
    requires
        image.wf(),
        image.npix() >= 1,
    ensures
        r.wf(),
        r.width == image.width,
        r.height == image.height,
        exists|t: Seq<u32>|
            {
                &&& #[trigger] sorted_version(t, widened(luma_seq(image.data@, image.npix())))
                &&& forall|p: int|
                    0 <= p < r.data@.len() ==> #[trigger] r.data@[p] == (if luma_seq(
                        image.data@,
                        image.npix(),
                    )[p] > ocr_threshold_of_sorted(t) {
                        0u8
                    } else {
                        255u8
                    })
            },
{
    let gray = to_gray(image);
    let n: usize = gray.data.len();
    let mut wide: Vec<u32> = Vec::new();
    let mut i: usize = 0;
    while i < n
        invariant
            i <= n,
            n == gray.data@.len(),
            wide@.len() == i,
            forall|p: int| 0 <= p < i ==> #[trigger] wide@[p] == gray.data@[p] as u32,
        decreases n - i,
    {
        wide.push(gray.data[i] as u32);
        i = i + 1;
    }
    proof {
        assert(wide@ =~= widened(gray.data@));
    }
    let sorted = sort_u32(&wide);
    proof {
        lemma_fundamental_div_mod((n as int) * 30, 100);
        lemma_fundamental_div_mod((n as int) * 85, 100);
    }
    let k30: usize = (((n as u128) * 30) / 100) as usize;
    let k85: usize = (((n as u128) * 85) / 100) as usize;
    let dark: u32 = sorted[k30];
    let bright: u32 = sorted[k85];
    proof {
        lemma_sorted_elem_from(sorted@, wide@, k30 as int);
        lemma_sorted_elem_from(sorted@, wide@, k85 as int);
        assert forall|q: int| 0 <= q < sorted@.len() implies #[trigger] sorted@[q] <= 255 by {
            lemma_sorted_elem_from(sorted@, wide@, q);
            let j = choose|j: int| 0 <= j < wide@.len() && wide@[j] == sorted@[q];
        }
        assert(dark <= bright);
    }
    let threshold: u32 = dark + (bright - dark) * 4 / 10;
    proof {
        lemma_fundamental_div_mod(((bright - dark) * 4) as int, 10);
    }
    let mut out: Vec<u8> = Vec::new();
    let mut p: usize = 0;
    while p < n
        invariant
            p <= n,
            n == gray.data@.len(),
            out@.len() == p,
            threshold == ocr_threshold_of_sorted(sorted@),
            forall|q: int|
                0 <= q < p ==> #[trigger] out@[q] == (if gray.data@[q] > threshold {
                    0u8
                } else {
                    255u8
                }),
        decreases n - p,
    {
        let v: u8 = gray.data[p];
        if (v as u32) > threshold {
            out.push(0);
        } else {
            out.push(255);
        }
        p = p + 1;
    }
    GrayFrame { width: gray.width, height: gray.height, data: out }
}

/// Prepare a crop for the external text reader: upscale small crops so
/// glyphs are tall enough, then binarize. Crops that end up smaller than
/// five pixels either way are rejected (`None`), matching the reader's
/// own minimum.
pub fn prepare_ocr_input(image: &Frame) -> (r: Option<GrayFrame>)
    requires
        image.wf(),
    ensures
        match r {
            Some(g) => {
                &&& g.wf()
                &&& g.width == image.width * ocr_scale(image.width as int, image.height as int)
                &&& g.height == image.height * ocr_scale(image.width as int, image.height as int)
                &&& g.width >= 5
                &&& g.height >= 5
            },
            None => image.width * ocr_scale(image.width as int, image.height as int) < 5
                || image.height * ocr_scale(image.width as int, image.height as int) < 5,
        },
{
    let w = image.width;
    let h = image.height;
    let base: u32 = if h < 30 {
        3
    } else if h < 60 {
        2
    } else {
        1
    };
    let scale: u32 = if w * base <= 16384 && h * base <= 16384 {
        base
    } else {
        1
    };
    if w * scale < 5 || h * scale < 5 {
        return None;
    }
    let scaled = if scale > 1 {
        upscale_nearest(image, scale)
    } else {
        image.clone_frame()
    };
    proof {
        if scale == 1 {
            assert(scaled.width == w * 1 && scaled.height == h * 1) by (nonlinear_arith)
                requires
                    scaled.width == w,
                    scaled.height == h,
            ;
        }
        assert(scaled.npix() >= 1) by (nonlinear_arith)
            requires
                scaled.npix() == scaled.width * scaled.height,
                scaled.width >= 5,
                scaled.height >= 5,
        ;
    }
    Some(preprocess_for_ocr(&scaled))
}

/// A decimal digit byte.
pub open spec fn is_digit(b: u8) -> bool {
    48 <= b <= 57
}

/// The number a sequence of digit bytes denotes.
pub open spec fn digits_val(s: Seq<u8>) -> int
    decreases s.len(),
{
    if s.len() == 0 {
        0
    } else {
        digits_val(s.drop_last()) * 10 + (s.last() - 48)
    }
}

/// Parse a decimal number from text the reader returned. `Some` exactly
/// when the text is nonempty, all digits, and the value fits in `u32`.
pub fn parse_number(text: &Vec<u8>) -> (r: Option<u32>)
    ensures
        match r {
            Some(v) => text@.len() > 0 && (forall|i: int|
                0 <= i < text@.len() ==> is_digit(#[trigger] text@[i])) && v == digits_val(text@)
                && digits_val(text@) <= u32::MAX,
            None => text@.len() == 0 || (exists|i: int|
                0 <= i < text@.len() && !is_digit(#[trigger] text@[i])) || digits_val(text@)
                > u32::MAX,
        },
{
    if text.len() == 0 {
        return None;
    }
    let mut val: u64 = 0;
    let mut i: usize = 0;
    while i < text.len()
        invariant
            0 <= i <= text@.len(),
            forall|j: int| 0 <= j < i ==> is_digit(#[trigger] text@[j]),
            val == digits_val(text@.take(i as int)),
            val <= 0xffffffff,
        decreases text@.len() - i,
    {
        let b: u8 = text[i];
        if b < 48 || b > 57 {
            return None;
        }
        proof {
            assert(text@.take(i + 1).drop_last() =~= text@.take(i as int));
            assert(text@.take(i + 1).last() == text@[i as int]);
        }
        val = val * 10 + ((b - 48) as u64);
        if val > 0xffffffff {
            proof {
                if forall|j: int| 0 <= j < text@.len() ==> is_digit(#[trigger] text@[j]) {
                    lemma_digits_monotone(text@, i + 1);
                }
            }
            return None;
        }
        i = i + 1;
    }
    proof {
        assert(text@.take(text@.len() as int) =~= text@);
    }
    Some(val as u32)
}

/// Appending digits never shrinks the denoted value.
proof fn lemma_digits_monotone(s: Seq<u8>, k: int)
    requires
        0 <= k <= s.len(),
        digits_val(s.take(k)) >= 0,
        forall|j: int| 0 <= j < s.len() ==> is_digit(#[trigger] s[j]),
    ensures
        digits_val(s) >= digits_val(s.take(k)),
    decreases s.len() - k,
{
    if k < s.len() {
        assert(s.take(k + 1).drop_last() =~= s.take(k));
        assert(s.take(k + 1).last() == s[k]);
        assert(digits_val(s.take(k + 1)) == digits_val(s.take(k)) * 10 + (s[k] - 48));
        assert(digits_val(s.take(k)) * 10 >= digits_val(s.take(k))) by (nonlinear_arith)
            requires
                digits_val(s.take(k)) >= 0,
        ;
        lemma_digits_monotone(s, k + 1);
    } else {
        assert(s.take(k) =~= s);
    }
}

/// Validate a stage string the reader returned: it must contain the
/// stage separator and be at least three bytes long ("digit-digit").
pub fn validate_stage(text: Vec<u8>) -> (r: Option<Vec<u8>>)
    ensures
        match r {
            Some(t) => t@ == text@ && t@.len() >= 3 && (exists|i: int|
                0 <= i < t@.len() && t@[i] == 45),
            None => text@.len() < 3 || (forall|i: int|
                0 <= i < text@.len() ==> #[trigger] text@[i] != 45),
        },
{
    if text.len() < 3 {
        return None;
    }
    let mut i: usize = 0;
    while i < text.len()
        invariant
            0 <= i <= text@.len(),
            text@.len() >= 3,
            forall|j: int| 0 <= j < i ==> #[trigger] text@[j] != 45,
        decreases text@.len() - i,
    {
        if text[i] == 45 {
            proof {
                assert(text@[i as int] == 45);
            }
            return Some(text);
        }
        i = i + 1;
    }
    None
}

/// Reads digits from cropped game UI regions through an external text
/// reader, degrading gracefully when none is installed.
pub struct DigitReader {
    tesseract_available: bool,
}

impl DigitReader {
    /// Whether the external reader was found at startup.
    pub closed spec fn available(self) -> bool {
        self.tesseract_available
    }

    /// A reader handle with the given availability (the probe for the
    /// external engine happens outside this library, once, at startup).
    pub fn new(tesseract_available: bool) -> (r: DigitReader)
        ensures
            r.available() == tesseract_available,
    {
        DigitReader { tesseract_available }
    }

    /// Whether text reading is available at all.
    pub fn is_available(&self) -> (r: bool)
        ensures
            r == self.available(),
    {
        self.tesseract_available
    }

    /// Interpret the reader's output for a number region: `None` when the
    /// reader is unavailable or returned nothing; otherwise the parsed
    /// decimal value of the returned text.
    pub fn read_number(&self, text: &Option<Vec<u8>>) -> (r: Option<u32>)
        ensures
            !self.available() ==> r is None,
            text is None ==> r is None,
            self.available() && text is Some ==> {
                let t = text->Some_0@;
                &&& (r is Some <==> t.len() > 0 && (forall|i: int|
                    0 <= i < t.len() ==> is_digit(#[trigger] t[i])) && digits_val(t) <= u32::MAX)
                &&& (r is Some ==> r->Some_0 == digits_val(t))
            },
    {
        if !self.tesseract_available {
            return None;
        }
        match text {
            Some(t) => parse_number(t),
            None => None,
        }
    }

    /// Interpret the reader's output for the stage region: `None` when
    /// the reader is unavailable, returned nothing, or returned text not
    /// shaped like a stage ("digit-digit").
    pub fn read_stage(&self, text: Option<Vec<u8>>) -> (r: Option<Vec<u8>>)
        ensures
            !self.available() ==> r is None,
            self.available() ==> match text {
                Some(t) => {
                    &&& (r is Some <==> t@.len() >= 3 && (exists|i: int|
                        0 <= i < t@.len() && t@[i] == 45))
                    &&& (r is Some ==> r->Some_0@ == t@)
                },
                None => r is None,
            },
    {
        if !self.tesseract_available {
            return None;
        }
        match text {
            Some(t) => validate_stage(t),
            None => None,
        }
    }
}

}
