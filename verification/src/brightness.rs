//! Row and column brightness sampling.
//!
//! The detectors never read every pixel: a row's brightness is the mean
//! over samples of its middle 60%, a column's over a vertical stride.
//! All means are exact integers in milli-units (the mean of
//! `(r + g + b) / 3` scaled by 1000).

use crate::frame::Frame;
use vstd::arithmetic::div_mod::lemma_div_multiples_vanish_quotient;
use vstd::arithmetic::div_mod::lemma_fundamental_div_mod;
use vstd::arithmetic::div_mod::lemma_mod_bound;
use vstd::prelude::*;

verus! {

/// Number of samples at `x0, x0 + step, ...` strictly below `x_end`.
pub open spec fn sample_count(x0: int, x_end: int, step: int) -> int
    decreases x_end - x0 + step,
{
    if step < 1 || x0 >= x_end {
        0
    } else {
        1 + sample_count(x0 + step, x_end, step)
    }
}

/// Sum of `sum3` over the horizontal samples of row `y`.
pub open spec fn row_sample_sum(f: Frame, y: int, x0: int, x_end: int, step: int) -> int
    decreases x_end - x0 + step,
{
    if step < 1 || x0 >= x_end {
        0
    } else {
        f.sum3(x0, y) + row_sample_sum(f, y, x0 + step, x_end, step)
    }
}

/// Sum of `sum3` over the vertical samples of column `x`.
pub open spec fn col_sample_sum(f: Frame, x: int, y0: int, y_end: int, step: int) -> int
    decreases y_end - y0 + step,
{
    if step < 1 || y0 >= y_end {
        0
    } else {
        f.sum3(x, y0) + col_sample_sum(f, x, y0 + step, y_end, step)
    }
}

/// The horizontal sampling stride for a frame of width `w`.
pub open spec fn row_step(w: int) -> int {
    if w / 50 >= 1 {
        w / 50
    } else {
        1
    }
}

/// Mean brightness (milli-units) of the sampled middle 60% of row `y`.
pub open spec fn row_milli(f: Frame, y: int) -> int {
    let w = f.width as int;
    let cnt = sample_count(w / 5, w * 4 / 5, row_step(w));
    if cnt == 0 {
        0
    } else {
        row_sample_sum(f, y, w / 5, w * 4 / 5, row_step(w)) * 1000 / (3 * cnt)
    }
}

/// Sum of `row_milli` over the `k` rows from `y0` that lie inside the
/// frame; rows at or below the bottom edge contribute nothing.
pub open spec fn rows_milli_sum(f: Frame, y0: int, k: int) -> int
    decreases k,
{
    if k <= 0 {
        0
    } else {
        rows_milli_sum(f, y0, k - 1) + (if y0 + k - 1 < f.height {
            row_milli(f, y0 + k - 1)
        } else {
            0
        })
    }
}

/// Number of the `k` rows from `y0` that lie inside the frame.
pub open spec fn rows_in_frame(f: Frame, y0: int, k: int) -> int
    decreases k,
{
    if k <= 0 {
        0
    } else {
        rows_in_frame(f, y0, k - 1) + (if y0 + k - 1 < f.height {
            1int
        } else {
            0int
        })
    }
}

/// Mean of `row_milli` over the rows `[y0, y0 + k)` that lie inside the
/// frame; 0 when none does.
pub open spec fn rows_avg_milli(f: Frame, y0: int, k: int) -> int {
    let n = rows_in_frame(f, y0, k);
    if n == 0 {
        0
    } else {
        rows_milli_sum(f, y0, k) / n
    }
}

/// Mean brightness (milli-units) of column `x` sampled at `step` from
/// `y0` up to `y_end`; 0 when nothing is sampled.
pub open spec fn col_milli(f: Frame, x: int, y0: int, y_end: int, step: int) -> int {
    let cnt = sample_count(y0, y_end, step);
    if cnt == 0 {
        0
    } else {
        col_sample_sum(f, x, y0, y_end, step) * 1000 / (3 * cnt)
    }
}

/// Brightness of the pixel every pixel of a uniform frame shows, in
/// milli-units.
pub open spec fn uniform_milli(f: Frame) -> int {
    f.sum3(0, 0) * 1000 / 3
}

/// Sample sums are bounded by 765 per sample, and counts are nonnegative.
pub proof fn lemma_row_sum_bounded(f: Frame, y: int, x0: int, x_end: int, step: int)
    requires
        f.wf(),
        0 <= y < f.height,
        0 <= x0,
        x_end <= f.width,
    ensures
        0 <= sample_count(x0, x_end, step),
        x0 < x_end ==> sample_count(x0, x_end, step) <= x_end - x0,
        x0 >= x_end ==> sample_count(x0, x_end, step) == 0,
        0 <= row_sample_sum(f, y, x0, x_end, step) <= 765 * sample_count(x0, x_end, step),
        f.is_uniform() ==> row_sample_sum(f, y, x0, x_end, step) == f.sum3(0, 0) * sample_count(
            x0,
            x_end,
            step,
        ),
    decreases x_end - x0 + step,
{
    if step < 1 || x0 >= x_end {
    } else {
        lemma_row_sum_bounded(f, y, x0 + step, x_end, step);
        let c1 = sample_count(x0 + step, x_end, step);
        assert(0 <= f.sum3(x0, y) <= 765);
        assert(765 * (c1 + 1) == 765 * c1 + 765) by (nonlinear_arith);
        if f.is_uniform() {
            assert(f.chan(x0, y, 0) == f.chan(0, 0, 0));
            assert(f.chan(x0, y, 1) == f.chan(0, 0, 1));
            assert(f.chan(x0, y, 2) == f.chan(0, 0, 2));
            assert(f.sum3(0, 0) * (c1 + 1) == f.sum3(0, 0) * c1 + f.sum3(0, 0))
                by (nonlinear_arith);
        }
    }
}

/// Column sample sums are bounded by 765 per sample.
pub proof fn lemma_col_sum_bounded(f: Frame, x: int, y0: int, y_end: int, step: int)
    requires
        f.wf(),
        0 <= x < f.width,
        0 <= y0,
        y_end <= f.height,
    ensures
        0 <= sample_count(y0, y_end, step),
        y0 < y_end ==> sample_count(y0, y_end, step) <= y_end - y0,
        y0 >= y_end ==> sample_count(y0, y_end, step) == 0,
        0 <= col_sample_sum(f, x, y0, y_end, step) <= 765 * sample_count(y0, y_end, step),
    decreases y_end - y0 + step,
{
    if step < 1 || y0 >= y_end {
    } else {
        lemma_col_sum_bounded(f, x, y0 + step, y_end, step);
        let c1 = sample_count(y0 + step, y_end, step);
        assert(0 <= f.sum3(x, y0) <= 765);
        assert(765 * (c1 + 1) == 765 * c1 + 765) by (nonlinear_arith);
    }
}

/// On a uniform frame every in-frame row reads `uniform_milli`, provided
/// anything is sampled at all.
pub proof fn lemma_uniform_row_milli(f: Frame, y: int)
    requires
        f.wf(),
        f.is_uniform(),
        0 <= y < f.height,
        sample_count(f.width as int / 5, f.width as int * 4 / 5, row_step(f.width as int)) > 0,
    ensures
        row_milli(f, y) == uniform_milli(f),
{
    let w = f.width as int;
    let x0 = w / 5;
    let x_end = w * 4 / 5;
    let step = row_step(w);
    let cnt = sample_count(x0, x_end, step);
    lemma_row_sum_bounded(f, y, x0, x_end, step);
    let s = f.sum3(0, 0);
    assert(row_sample_sum(f, y, x0, x_end, step) == s * cnt);
    assert((s * cnt) * 1000 == cnt * (s * 1000)) by (nonlinear_arith);
    assert(3 * cnt == cnt * 3) by (nonlinear_arith);
    lemma_div_multiples_vanish_quotient(cnt, s * 1000, 3);
}

/// Mean brightness (milli-units) of the sampled middle 60% of row `y`.
pub fn row_brightness(f: &Frame, y: u32) -> (r: u64)
    requires
        f.wf(),
        y < f.height,
    ensures
        r == row_milli(*f, y as int),
        r <= 255000,
{
    let w = f.width;
    let step: u32 = if w / 50 >= 1 {
        w / 50
    } else {
        1
    };
    let x_start: u32 = w / 5;
    let x_end: u32 = w * 4 / 5;
    proof {
        lemma_fundamental_div_mod(w as int, 5);
        lemma_fundamental_div_mod((w * 4) as int, 5);
        lemma_row_sum_bounded(*f, y as int, x_start as int, x_end as int, step as int);
    }
    let mut sum: u64 = 0;
    let mut count: u32 = 0;
    let mut x: u32 = x_start;
    while x < x_end
        invariant
            f.wf(),
            y < f.height,
            step >= 1,
            step == row_step(f.width as int),
            x_start == f.width as int / 5,
            x_end == f.width as int * 4 / 5,
            x_end <= f.width,
            x_start <= x,
            sum + row_sample_sum(*f, y as int, x as int, x_end as int, step as int)
                == row_sample_sum(
                *f,
                y as int,
                x_start as int,
                x_end as int,
                step as int,
            ),
            count + sample_count(x as int, x_end as int, step as int) == sample_count(
                x_start as int,
                x_end as int,
                step as int,
            ),
            sum <= 765 * (count as int),
            count <= f.width,
            sample_count(x_start as int, x_end as int, step as int) <= f.width,
        decreases x_end + step - x,
    {
        proof {
            lemma_row_sum_bounded(*f, y as int, x as int, x_end as int, step as int);
            lemma_row_sum_bounded(*f, y as int, x as int + step, x_end as int, step as int);
            assert(sample_count(x as int, x_end as int, step as int) == 1 + sample_count(
                x as int + step,
                x_end as int,
                step as int,
            ));
            assert(row_sample_sum(*f, y as int, x as int, x_end as int, step as int) == f.sum3(
                x as int,
                y as int,
            ) + row_sample_sum(*f, y as int, x as int + step, x_end as int, step as int));
            assert(765 * (count as int + 1) == 765 * (count as int) + 765) by (nonlinear_arith);
        }
        let px = f.pixel(x, y);
        sum = sum + (px.0 as u64) + (px.1 as u64) + (px.2 as u64);
        count = count + 1;
        x = x + step;
    }
    if count > 0 {
        proof {
            lemma_avg_milli_bounded(
                row_sample_sum(*f, y as int, x_start as int, x_end as int, step as int),
                count as int,
            );
        }
        (sum * 1000) / (3 * (count as u64))
    } else {
        0
    }
}

/// `sum * 1000 / (3 * cnt) <= 255000` for a sum of at most `765 * cnt`.
pub proof fn lemma_avg_milli_bounded(sum: int, cnt: int)
    requires
        cnt >= 1,
        0 <= sum <= 765 * cnt,
    ensures
        0 <= sum * 1000 / (3 * cnt) <= 255000,
{
    lemma_fundamental_div_mod(sum * 1000, 3 * cnt);
    lemma_mod_bound(sum * 1000, 3 * cnt);
    assert(sum * 1000 <= (3 * cnt) * 255000) by (nonlinear_arith)
        requires
            sum <= 765 * cnt,
    ;
    assert(sum * 1000 / (3 * cnt) <= 255000) by (nonlinear_arith)
        requires
            cnt >= 1,
            (3 * cnt) * (sum * 1000 / (3 * cnt)) <= sum * 1000,
            sum * 1000 <= (3 * cnt) * 255000,
    ;
    assert(sum * 1000 >= 0) by (nonlinear_arith)
        requires
            sum >= 0,
    ;
    assert(sum * 1000 / (3 * cnt) >= 0) by (nonlinear_arith)
        requires
            sum * 1000 >= 0,
            3 * cnt >= 1,
            (3 * cnt) * (sum * 1000 / (3 * cnt)) + (sum * 1000) % (3 * cnt) == sum * 1000,
            0 <= (sum * 1000) % (3 * cnt) < 3 * cnt,
    ;
}

/// Mean of `row_brightness` over `count` consecutive rows, ignoring rows
/// below the bottom edge.
pub fn avg_brightness_rows(f: &Frame, start_y: u32, count: u32) -> (r: u64)
    requires
        f.wf(),
        count <= 16384,
        start_y <= 0x1000000,
    ensures
        r == rows_avg_milli(*f, start_y as int, count as int),
        r <= 255000,
        f.is_uniform() && start_y + count <= f.height && count > 0 && sample_count(
            f.width as int / 5,
            f.width as int * 4 / 5,
            row_step(f.width as int),
        ) > 0 ==> r == uniform_milli(*f),
{
    let mut sum: u64 = 0;
    let mut n: u32 = 0;
    let mut i: u32 = 0;
    while i < count
        invariant
            f.wf(),
            i <= count,
            count <= 16384,
            start_y <= 0x1000000,
            sum == rows_milli_sum(*f, start_y as int, i as int),
            n == rows_in_frame(*f, start_y as int, i as int),
            n <= i,
            sum <= 255000 * (n as int),
            f.is_uniform() && start_y + i <= f.height && sample_count(
                f.width as int / 5,
                f.width as int * 4 / 5,
                row_step(f.width as int),
            ) > 0 ==> sum == uniform_milli(*f) * n && n == i,
        decreases count - i,
    {
        let y = start_y + i;
        if y < f.height {
            let rb = row_brightness(f, y);
            proof {
                assert(255000 * (n as int + 1) == 255000 * (n as int) + 255000)
                    by (nonlinear_arith);
                if f.is_uniform() && start_y + i + 1 <= f.height && sample_count(
                    f.width as int / 5,
                    f.width as int * 4 / 5,
                    row_step(f.width as int),
                ) > 0 {
                    lemma_uniform_row_milli(*f, y as int);
                    assert(uniform_milli(*f) * (n as int + 1) == uniform_milli(*f) * (n as int)
                        + uniform_milli(*f)) by (nonlinear_arith);
                }
            }
            sum = sum + rb;
            n = n + 1;
        }
        i = i + 1;
    }
    if n > 0 {
        proof {
            lemma_avg_of_bounded(sum as int, n as int, 255000);
            if f.is_uniform() && start_y + count <= f.height && sample_count(
                f.width as int / 5,
                f.width as int * 4 / 5,
                row_step(f.width as int),
            ) > 0 {
                assert(uniform_milli(*f) >= 0) by {
                    lemma_avg_milli_bounded(f.sum3(0, 0), 1);
                }
                assert((uniform_milli(*f) * (n as int)) == (n as int) * uniform_milli(*f))
                    by (nonlinear_arith);
                vstd::arithmetic::div_mod::lemma_div_multiples_vanish(
                    uniform_milli(*f),
                    n as int,
                );
            }
        }
        sum / (n as u64)
    } else {
        0
    }
}

/// A mean of values in `[0, m]` lies in `[0, m]`.
pub proof fn lemma_avg_of_bounded(sum: int, n: int, m: int)
    requires
        n >= 1,
        m >= 0,
        0 <= sum <= m * n,
    ensures
        0 <= sum / n <= m,
{
    lemma_fundamental_div_mod(sum, n);
    lemma_mod_bound(sum, n);
    assert(sum / n <= m) by (nonlinear_arith)
        requires
            n >= 1,
            n * (sum / n) <= sum,
            sum <= m * n,
            sum / n >= 0,
    ;
    assert(sum / n >= 0) by (nonlinear_arith)
        requires
            sum >= 0,
            n >= 1,
    ;
}

/// Per-column mean brightness (milli-units) over `[y0, y_end)` sampled at
/// `step`, for every column of the frame.
pub fn column_profile(f: &Frame, y0: u32, y_end: u32, step: u32) -> (r: Vec<u32>)
    requires
        f.wf(),
        1 <= step <= 16384,
        y_end <= f.height,
    ensures
        r@.len() == f.width,
        forall|x: int|
            0 <= x < f.width ==> #[trigger] r@[x] == col_milli(
                *f,
                x,
                y0 as int,
                y_end as int,
                step as int,
            ),
        forall|x: int| 0 <= x < f.width ==> #[trigger] r@[x] <= 255000,
{
    let mut out: Vec<u32> = Vec::new();
    let mut x: u32 = 0;
    while x < f.width
        invariant
            f.wf(),
            1 <= step <= 16384,
            y_end <= f.height,
            x <= f.width,
            out@.len() == x,
            forall|p: int|
                0 <= p < x ==> #[trigger] out@[p] == col_milli(
                    *f,
                    p,
                    y0 as int,
                    y_end as int,
                    step as int,
                ),
            forall|p: int| 0 <= p < x ==> #[trigger] out@[p] <= 255000,
        decreases f.width - x,
    {
        proof {
            lemma_col_sum_bounded(*f, x as int, y0 as int, y_end as int, step as int);
        }
        let mut sum: u64 = 0;
        let mut cnt: u32 = 0;
        let mut y: u32 = y0;
        while y < y_end
            invariant
                f.wf(),
                x < f.width,
                1 <= step <= 16384,
                y_end <= f.height,
                y0 <= y,
                sum + col_sample_sum(*f, x as int, y as int, y_end as int, step as int)
                    == col_sample_sum(*f, x as int, y0 as int, y_end as int, step as int),
                cnt + sample_count(y as int, y_end as int, step as int) == sample_count(
                    y0 as int,
                    y_end as int,
                    step as int,
                ),
                sum <= 765 * (cnt as int),
                cnt <= f.height,
                sample_count(y0 as int, y_end as int, step as int) <= f.height,
            decreases y_end + step - y,
        {
            proof {
                lemma_col_sum_bounded(*f, x as int, y as int, y_end as int, step as int);
                lemma_col_sum_bounded(*f, x as int, y as int + step, y_end as int, step as int);
                assert(sample_count(y as int, y_end as int, step as int) == 1 + sample_count(
                    y as int + step,
                    y_end as int,
                    step as int,
                ));
                assert(col_sample_sum(*f, x as int, y as int, y_end as int, step as int) == f.sum3(
                    x as int,
                    y as int,
                ) + col_sample_sum(*f, x as int, y as int + step, y_end as int, step as int));
                assert(765 * (cnt as int + 1) == 765 * (cnt as int) + 765) by (nonlinear_arith);
            }
            let px = f.pixel(x, y);
            sum = sum + (px.0 as u64) + (px.1 as u64) + (px.2 as u64);
            cnt = cnt + 1;
            y = y + step;
        }
        if cnt > 0 {
            proof {
                lemma_avg_milli_bounded(
                    col_sample_sum(*f, x as int, y0 as int, y_end as int, step as int),
                    cnt as int,
                );
            }
            let avg: u64 = (sum * 1000) / (3 * (cnt as u64));
            out.push(avg as u32);
        } else {
            out.push(0);
        }
        x = x + 1;
    }
    out
}

}
