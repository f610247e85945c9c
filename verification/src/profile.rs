//! Brightness-profile analysis.
//!
//! The detectors reduce an image to one-dimensional brightness profiles
//! (per row or per column, in milli-units: 1/1000 of one brightness step)
//! and then work on those: smoothing, percentile-based adaptive
//! thresholds, extraction of contiguous bright segments, and the
//! normalization of an imperfect segmentation to the five shop slots.

use vstd::arithmetic::div_mod::lemma_fundamental_div_mod;
use vstd::multiset::Multiset;
use vstd::prelude::*;
use vstd::seq_lib::group_to_multiset_ensures;

verus! {

broadcast use group_to_multiset_ensures;

/// Largest value a milli-brightness profile entry can take (255 * 1000).
pub const MAX_MILLI: u32 = 255000;

/// `s` is ascending.
pub open spec fn is_sorted(s: Seq<u32>) -> bool {
    forall|i: int, j: int| 0 <= i <= j < s.len() ==> #[trigger] s[i] <= #[trigger] s[j]
}

/// `t` is the ascending rearrangement of `s`.
pub open spec fn sorted_version(t: Seq<u32>, s: Seq<u32>) -> bool {
    &&& is_sorted(t)
    &&& t.to_multiset() == s.to_multiset()
    &&& t.len() == s.len()
}

/// Ascending copy of `v`, by selection sort.
pub fn sort_u32(v: &Vec<u32>) -> (r: Vec<u32>)
    ensures
        sorted_version(r@, v@),
{
    let mut rest: Vec<u32> = Vec::new();
    let mut i: usize = 0;
    while i < v.len()
        invariant
            i <= v@.len(),
            rest@ == v@.take(i as int),
        decreases v@.len() - i,
    {
        rest.push(v[i]);
        proof {
            assert(v@.take(i + 1) =~= v@.take(i as int).push(v@[i as int]));
        }
        i = i + 1;
    }
    proof {
        assert(v@.take(v@.len() as int) =~= v@);
    }
    let ghost all = v@.to_multiset();
    let mut out: Vec<u32> = Vec::new();
    while rest.len() > 0
        invariant
            out@.to_multiset().add(rest@.to_multiset()) =~= all,
            all == v@.to_multiset(),
            out@.len() + rest@.len() == v@.len(),
            is_sorted(out@),
            forall|a: int, b: int|
                0 <= a < out@.len() && 0 <= b < rest@.len() ==> #[trigger] out@[a]
                    <= #[trigger] rest@[b],
        decreases rest@.len(),
    {
        let mut m: usize = 0;
        let mut k: usize = 1;
        while k < rest.len()
            invariant
                0 <= m < k <= rest@.len(),
                rest@.len() > 0,
                forall|b: int| 0 <= b < k ==> rest@[m as int] <= #[trigger] rest@[b],
            decreases rest@.len() - k,
        {
            if rest[k] < rest[m] {
                m = k;
            }
            k = k + 1;
        }
        let ghost out_before = out@;
        let ghost rest_before = rest@;
        let x = rest.remove(m);
        out.push(x);
        proof {
            assert(rest@ == rest_before.remove(m as int));
            assert(out@ == out_before.push(x));
            assert(out@.to_multiset().add(rest@.to_multiset()) =~= all);
            assert forall|a: int, b: int|
                0 <= a < out@.len() && 0 <= b < rest@.len() implies #[trigger] out@[a]
                <= #[trigger] rest@[b] by {
                if b < m {
                    assert(rest@[b] == rest_before[b]);
                } else {
                    assert(rest@[b] == rest_before[b + 1]);
                }
            }
            assert forall|a: int, b: int| 0 <= a <= b < out@.len() implies #[trigger] out@[a]
                <= #[trigger] out@[b] by {
            }
        }
    }
    proof {
        assert(rest@.to_multiset() =~= Multiset::<u32>::empty());
        assert(out@.to_multiset() =~= all);
    }
    out
}

/// Sum of `s[lo..hi]`.
pub open spec fn range_sum(s: Seq<u32>, lo: int, hi: int) -> int
    decreases hi - lo,
{
    if lo >= hi {
        0
    } else {
        range_sum(s, lo, hi - 1) + s[hi - 1]
    }
}

/// The smoothing window around index `i`: `[lo, hi)` for a window of the
/// given width, clipped to the profile.
pub open spec fn smooth_lo(i: int, window: int) -> int {
    if i - window / 2 < 0 {
        0
    } else {
        i - window / 2
    }
}

pub open spec fn smooth_hi(i: int, window: int, len: int) -> int {
    if i + window / 2 + 1 > len {
        len
    } else {
        i + window / 2 + 1
    }
}

/// The moving average of `s` at `i` for the given window.
pub open spec fn smoothed_at(s: Seq<u32>, window: int, i: int) -> int {
    let lo = smooth_lo(i, window);
    let hi = smooth_hi(i, window, s.len() as int);
    range_sum(s, lo, hi) / (hi - lo)
}

/// Moving average of a profile with the given window width (the window is
/// clipped at both ends, so the output has the same length).
pub fn smooth(data: &Vec<u32>, window: usize) -> (r: Vec<u32>)
    requires
        data@.len() <= 16384,
        window <= 16384,
        forall|i: int| 0 <= i < data@.len() ==> data@[i] <= MAX_MILLI,
    ensures
        r@.len() == data@.len(),
        forall|i: int| 0 <= i < r@.len() ==> #[trigger] r@[i] == smoothed_at(data@, window as int, i),
        forall|i: int| 0 <= i < r@.len() ==> #[trigger] r@[i] <= MAX_MILLI,
{
    let n: usize = data.len();
    let half: usize = window / 2;
    let mut out: Vec<u32> = Vec::new();
    let mut i: usize = 0;
    while i < n
        invariant
            i <= n,
            n == data@.len(),
            n <= 16384,
            half == window / 2,
            window <= 16384,
            forall|p: int| 0 <= p < data@.len() ==> data@[p] <= MAX_MILLI,
            out@.len() == i,
            forall|p: int|
                0 <= p < i ==> #[trigger] out@[p] == smoothed_at(data@, window as int, p),
            forall|p: int| 0 <= p < i ==> #[trigger] out@[p] <= MAX_MILLI,
        decreases n - i,
    {
        let lo: usize = if i >= half {
            i - half
        } else {
            0
        };
        let hi: usize = if i + half + 1 <= n {
            i + half + 1
        } else {
            n
        };
        let mut sum: u64 = 0;
        let mut j: usize = lo;
        proof {
            assert(lo < hi);
        }
        while j < hi
            invariant
                lo <= j <= hi <= n,
                n == data@.len(),
                n <= 16384,
                forall|p: int| 0 <= p < data@.len() ==> data@[p] <= MAX_MILLI,
                sum == range_sum(data@, lo as int, j as int),
                sum <= (j - lo) * (MAX_MILLI as int),
            decreases hi - j,
        {
            proof {
                assert((j - lo) * (MAX_MILLI as int) <= 16384 * (MAX_MILLI as int))
                    by (nonlinear_arith)
                    requires
                        0 <= j - lo <= 16384,
                ;
                assert((j + 1 - lo) * (MAX_MILLI as int) == (j - lo) * (MAX_MILLI as int) + (
                MAX_MILLI as int)) by (nonlinear_arith);
            }
            sum = sum + (data[j] as u64);
            j = j + 1;
        }
        let cnt: u64 = (hi - lo) as u64;
        let avg: u64 = sum / cnt;
        proof {
            lemma_avg_bounded(sum as int, (hi - lo) as int, MAX_MILLI as int);
        }
        out.push(avg as u32);
        i = i + 1;
    }
    out
}

/// An average of values bounded by `m` is bounded by `m`.
proof fn lemma_avg_bounded(sum: int, cnt: int, m: int)
    requires
        cnt >= 1,
        m >= 0,
        0 <= sum <= cnt * m,
    ensures
        0 <= sum / cnt <= m,
{
    lemma_fundamental_div_mod(sum, cnt);
    vstd::arithmetic::div_mod::lemma_mod_bound(sum, cnt);
    assert(sum / cnt <= m) by (nonlinear_arith)
        requires
            cnt >= 1,
            m >= 0,
            sum <= cnt * m,
            cnt * (sum / cnt) <= sum,
            sum / cnt >= 0,
    ;
    assert(sum / cnt >= 0) by (nonlinear_arith)
        requires
            sum >= 0,
            cnt >= 1,
    ;
}

/// The threshold the detectors derive from a sorted profile: the 40th
/// percentile plus 35% of the spread up to the 85th percentile.
pub open spec fn threshold_of_sorted(t: Seq<u32>) -> int {
    let dark = t[t.len() as int * 40 / 100];
    let bright = t[t.len() as int * 85 / 100];
    dark + (bright - dark) * 35 / 100
}

/// Percentile-based adaptive brightness threshold, separating dark gaps
/// from bright card columns whatever the overall exposure.
pub fn adaptive_threshold(profile: &Vec<u32>) -> (r: u32)
    requires
        profile@.len() >= 1,
        profile@.len() <= 16384,
        forall|i: int| 0 <= i < profile@.len() ==> profile@[i] <= MAX_MILLI,
    ensures
        exists|t: Seq<u32>|
            #[trigger] sorted_version(t, profile@) && r == threshold_of_sorted(t),
        r <= 2 * MAX_MILLI,
{
    let sorted = sort_u32(profile);
    let n: usize = sorted.len();
    let k40: usize = n * 40 / 100;
    let k85: usize = n * 85 / 100;
    proof {
        lemma_fundamental_div_mod((n as int) * 40, 100);
        lemma_fundamental_div_mod((n as int) * 85, 100);
        assert(k40 < n && k85 < n);
        lemma_sorted_elems_bounded(sorted@, profile@);
    }
    let dark: u32 = sorted[k40];
    let bright: u32 = sorted[k85];
    proof {
        assert(k40 <= k85) by {
            vstd::arithmetic::div_mod::lemma_div_is_ordered(
                (n as int) * 40,
                (n as int) * 85,
                100,
            );
        }
        assert(dark <= bright);
    }
    let r: u32 = dark + ((bright - dark) * 35) / 100;
    proof {
        lemma_avg_bounded(((bright - dark) * 35) as int, 100, MAX_MILLI as int);
    }
    r
}

/// Elements of the sorted rearrangement satisfy the same bound.
proof fn lemma_sorted_elems_bounded(t: Seq<u32>, s: Seq<u32>)
    requires
        t.to_multiset() == s.to_multiset(),
        forall|i: int| 0 <= i < s.len() ==> s[i] <= MAX_MILLI,
    ensures
        forall|i: int| 0 <= i < t.len() ==> #[trigger] t[i] <= MAX_MILLI,
{
    assert forall|i: int| 0 <= i < t.len() implies #[trigger] t[i] <= MAX_MILLI by {
        assert(t.to_multiset().count(t[i]) > 0);
        assert(s.to_multiset().count(t[i]) > 0);
        assert(s.contains(t[i]));
        let j = choose|j: int| 0 <= j < s.len() && s[j] == t[i];
        assert(s[j] <= MAX_MILLI);
    }
}

/// Every element of a sorted rearrangement occurs in the unsorted one.
pub proof fn lemma_sorted_elem_from(t: Seq<u32>, s: Seq<u32>, k: int)
    requires
        sorted_version(t, s),
        0 <= k < t.len(),
    ensures
        s.contains(t[k]),
{
    assert(t.to_multiset().count(t[k]) > 0) by {
        assert(t.contains(t[k]));
    }
    assert(s.to_multiset().count(t[k]) > 0);
}

/// `(start, end)` is a maximal run of values above `threshold` in `s`,
/// wide enough to count as a card.
pub open spec fn is_bright_segment(
    s: Seq<u32>,
    threshold: u32,
    min_width: int,
    start: int,
    end: int,
) -> bool {
    &&& 0 <= start < end <= s.len()
    &&& end - start >= min_width
    &&& forall|i: int| start <= i < end ==> #[trigger] s[i] > threshold
    &&& (start == 0 || s[start - 1] <= threshold)
    &&& (end == s.len() || s[end] <= threshold)
}

/// `(s2, e2)` appears among the returned segments.
pub open spec fn seg_listed(segs: Seq<(usize, usize)>, s2: int, e2: int) -> bool {
    exists|k: int| 0 <= k < segs.len() && (#[trigger] segs[k]).0 == s2 && segs[k].1 == e2
}

/// `segs` is exactly the ordered listing of the qualifying maximal
/// bright runs of `p`: every listed pair is such a run, the listing is
/// ordered, and every such run is listed.
pub open spec fn segments_listing(
    p: Seq<u32>,
    threshold: u32,
    min_width: int,
    segs: Seq<(usize, usize)>,
) -> bool {
    &&& forall|k: int|
        0 <= k < segs.len() ==> is_bright_segment(
            p,
            threshold,
            min_width,
            (#[trigger] segs[k]).0 as int,
            segs[k].1 as int,
        )
    &&& forall|k: int| 0 <= k < segs.len() - 1 ==> (#[trigger] segs[k]).1 < segs[k + 1].0
    &&& forall|s2: int, e2: int|
        #[trigger] is_bright_segment(p, threshold, min_width, s2, e2) ==> seg_listed(segs, s2, e2)
}

/// Contiguous runs of profile values above the threshold, at least
/// `min_width` wide, in order. Narrower runs are dropped. The result is
/// complete: every qualifying maximal run is listed.
pub fn find_bright_segments(profile: &Vec<u32>, threshold: u32, min_width: usize) -> (r: Vec<
    (usize, usize),
>)
    requires
        min_width >= 1,
    ensures
        segments_listing(profile@, threshold, min_width as int, r@),
        forall|k: int|
            0 <= k < r@.len() ==> is_bright_segment(
                profile@,
                threshold,
                min_width as int,
                #[trigger] r@[k].0 as int,
                r@[k].1 as int,
            ),
        forall|k: int| 0 <= k < r@.len() - 1 ==> #[trigger] r@[k].1 < #[trigger] r@[k + 1].0,
        forall|s2: int, e2: int|
            #[trigger] is_bright_segment(profile@, threshold, min_width as int, s2, e2)
                ==> seg_listed(r@, s2, e2),
{
    let n: usize = profile.len();
    let mut segments: Vec<(usize, usize)> = Vec::new();
    let mut in_bright: bool = false;
    let mut start: usize = 0;
    let mut i: usize = 0;
    while i < n
        invariant
            i <= n,
            n == profile@.len(),
            min_width >= 1,
            forall|k: int|
                0 <= k < segments@.len() ==> is_bright_segment(
                    profile@,
                    threshold,
                    min_width as int,
                    #[trigger] segments@[k].0 as int,
                    segments@[k].1 as int,
                ),
            forall|k: int|
                0 <= k < segments@.len() - 1 ==> #[trigger] segments@[k].1
                    < #[trigger] segments@[k + 1].0,
            in_bright ==> {
                &&& 0 <= start < i
                &&& (forall|p: int| start <= p < i ==> #[trigger] profile@[p] > threshold)
                &&& (start == 0 || profile@[start - 1] <= threshold)
                &&& (segments@.len() > 0 ==> segments@[segments@.len() - 1].1 < start)
            },
            !in_bright && segments@.len() > 0 ==> segments@[segments@.len() - 1].1 < i,
            !in_bright && i > 0 ==> profile@[i - 1] <= threshold,
            forall|s2: int, e2: int|
                #[trigger] is_bright_segment(profile@, threshold, min_width as int, s2, e2) && e2
                    < i ==> seg_listed(segments@, s2, e2),
        decreases n - i,
    {
        let val: u32 = profile[i];
        let ghost segs0 = segments@;
        let ghost in_bright0 = in_bright;
        let ghost start0 = start as int;
        if !in_bright && val > threshold {
            start = i;
            in_bright = true;
        } else if in_bright && val <= threshold {
            if i - start >= min_width {
                segments.push((start, i));
            }
            in_bright = false;
        }
        proof {
            assert forall|s2: int, e2: int|
                #[trigger] is_bright_segment(profile@, threshold, min_width as int, s2, e2) && e2
                    < i + 1 implies seg_listed(segments@, s2, e2) by {
                if e2 < i {
                    let k = choose|k: int|
                        0 <= k < segs0.len() && (#[trigger] segs0[k]).0 == s2 && segs0[k].1 == e2;
                    assert(segments@[k].0 == s2 && segments@[k].1 == e2);
                } else {
                    // A qualifying maximal run ends exactly at `i`: the
                    // profile is dark at `i` and bright at `i - 1`, so a
                    // bright stretch was open, its start coincides with
                    // the run's, and its closing push listed the run.
                    assert(profile@[e2] <= threshold);
                    assert(profile@[e2 - 1] > threshold);
                    assert(in_bright0);
                    assert(s2 == start0) by {
                        if s2 < start0 {
                            assert(profile@[start0 - 1] > threshold);
                        }
                        if s2 > start0 {
                            assert(profile@[s2 - 1] > threshold);
                            assert(profile@[s2 - 1] <= threshold);
                        }
                    }
                    assert(segments@[segments@.len() - 1].0 == s2 && segments@[segments@.len()
                        - 1].1 == e2);
                }
            }
        }
        i = i + 1;
    }
    let ghost segs_before = segments@;
    if in_bright && n - start >= min_width {
        segments.push((start, n));
    }
    proof {
        assert forall|s2: int, e2: int|
            #[trigger] is_bright_segment(profile@, threshold, min_width as int, s2, e2) implies
            seg_listed(segments@, s2, e2) by {
            if e2 < n {
                let k = choose|k: int|
                    0 <= k < segs_before.len() && (#[trigger] segs_before[k]).0 == s2
                        && segs_before[k].1 == e2;
                assert(segments@[k].0 == s2 && segments@[k].1 == e2);
            } else {
                // The run reaches the right edge: a bright stretch must
                // still be open, with the same start, and the trailing
                // push listed it.
                assert(e2 == n);
                assert(profile@[e2 - 1] > threshold);
                assert(in_bright);
                assert(s2 == start) by {
                    if s2 < start {
                        assert(profile@[start - 1] > threshold);
                    }
                    if s2 > start {
                        assert(profile@[s2 - 1] > threshold);
                        assert(profile@[s2 - 1] <= threshold);
                    }
                }
                assert(segments@[segments@.len() - 1].0 == s2 && segments@[segments@.len() - 1].1
                    == e2);
            }
        }
    }
    segments
}

/// Turn whatever segmentation came out of thresholding into exactly five
/// card slots: a perfect five is kept as is; otherwise the full span from
/// the first to the last segment is split into five equal slices with a
/// small inset on each side. An empty segmentation stays empty. This
/// degrade-gracefully policy yields a plausible grid even when cards
/// merged or split during thresholding; it does not validate the
/// resulting slot width.
pub fn normalize_to_five(segments: &Vec<(usize, usize)>, frame_width: usize) -> (r: Vec<
    (usize, usize),
>)
    requires
        frame_width <= 16384,
        forall|k: int|
            0 <= k < segments@.len() ==> (#[trigger] segments@[k]).0 <= segments@[k].1
                <= frame_width,
        segments@.len() > 0 ==> segments@[0].0 <= segments@[segments@.len() - 1].1,
    ensures
        r@.len() == 0 <==> segments@.len() == 0,
        r@.len() == 0 || r@.len() == 5,
        segments@.len() == 5 ==> r@ == segments@,
        segments@.len() > 0 && segments@.len() != 5 ==> {
            let total_start = segments@[0].0 as int;
            let total_end = segments@[segments@.len() - 1].1 as int;
            let card_width = (total_end - total_start) / 5;
            let gap = card_width * 3 / 100;
            forall|k: int|
                0 <= k < 5 ==> #[trigger] r@[k] == (
                ((total_start + k * card_width + gap) as usize), ((total_start + (k + 1)
                    * card_width - gap) as usize))
        },
{
    let len: usize = segments.len();
    if len == 0 {
        return Vec::new();
    }
    if len == 5 {
        let mut out: Vec<(usize, usize)> = Vec::new();
        let mut i: usize = 0;
        while i < 5
            invariant
                i <= 5,
                segments@.len() == 5,
                out@ == segments@.take(i as int),
            decreases 5 - i,
        {
            out.push(segments[i]);
            proof {
                assert(segments@.take(i + 1) =~= segments@.take(i as int).push(segments@[i as int]));
            }
            i = i + 1;
        }
        proof {
            assert(segments@.take(5) =~= segments@);
        }
        return out;
    }
    let total_start: usize = segments[0].0;
    let total_end: usize = segments[len - 1].1;
    let total_width: usize = total_end - total_start;
    let card_width: usize = total_width / 5;
    let gap: usize = card_width * 3 / 100;
    proof {
        lemma_fundamental_div_mod(total_width as int, 5);
        lemma_fundamental_div_mod((card_width * 3) as int, 100);
    }
    let mut out: Vec<(usize, usize)> = Vec::new();
    let mut k: usize = 0;
    while k < 5
        invariant
            k <= 5,
            out@.len() == k,
            total_start + 5 * card_width <= total_end <= 16384,
            gap <= card_width,
            forall|k2: int|
                0 <= k2 < k ==> #[trigger] out@[k2] == (
                    (total_start + k2 * card_width + gap) as usize,
                    (total_start + (k2 + 1) * card_width - gap) as usize,
                ),
        decreases 5 - k,
    {
        proof {
            assert(k * card_width <= 5 * card_width && (k + 1) * card_width <= 5 * card_width && (k
                + 1) * card_width >= k * card_width + card_width) by (nonlinear_arith)
                requires
                    0 <= k < 5,
                    card_width >= 0,
            ;
        }
        let s: usize = total_start + k * card_width + gap;
        let e: usize = total_start + (k + 1) * card_width - gap;
        out.push((s, e));
        k = k + 1;
    }
    out
}

}
