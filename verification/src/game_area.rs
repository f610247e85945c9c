//! Game-area location.
//!
//! A captured frame may show the game fullscreen, windowed, or embedded
//! in other desktop content. The locator finds the distinctive bottom HUD
//! bar (a sharp brightness drop into a dark strip) anywhere in the frame,
//! checks the region below each candidate for the five-card shop pattern,
//! and infers the game rectangle from the winning candidate assuming the
//! HUD sits at 80% of game height and a 16:9 aspect ratio.

use crate::brightness::col_milli;
use crate::brightness::column_profile;
use crate::brightness::avg_brightness_rows;
use crate::brightness::row_step;
use crate::brightness::rows_avg_milli;
use crate::brightness::sample_count;
use crate::frame::Frame;
use crate::ncc::isqrt;
use crate::profile::adaptive_threshold;
use crate::profile::find_bright_segments;
use crate::profile::segments_listing;
use crate::profile::smooth;
use crate::profile::smoothed_at;
use crate::profile::sorted_version;
use crate::profile::threshold_of_sorted;
use crate::region::REGION_SCALE;
use crate::region::ScreenRegion;
use vstd::arithmetic::div_mod::lemma_fundamental_div_mod;
use vstd::arithmetic::div_mod::lemma_mod_bound;
use vstd::prelude::*;

verus! {

/// Smallest frame edge the locator will look at.
pub const MIN_FRAME_DIM: u32 = 100;

/// A brightness drop (milli-units) must exceed this to qualify as a HUD
/// candidate.
pub const HUD_DROP_FLOOR_MILLI: i64 = 15000;

/// The strip below a HUD candidate must be darker than this (milli-units).
pub const HUD_DARK_CEIL_MILLI: u64 = 55000;

/// Number of rows averaged on each side of a candidate boundary.
pub const HUD_WINDOW: u32 = 5;

/// A card-pattern score (milli-units) must exceed this for a candidate to
/// count as a game HUD.
pub const CARD_SCORE_FLOOR_MILLI: u32 = 300;

/// Detected game area within a frame.
#[derive(Debug, Clone)]
pub struct GameArea {
    /// Normalized region of the game area within the frame.
    pub region: ScreenRegion,
    /// Heuristic confidence in milli-units (0..=1000); not a probability.
    pub confidence: u32,
}

/// A candidate HUD boundary: the top row of a dark strip, with the size
/// of the brightness drop into it.
#[derive(Debug, Clone)]
pub struct HudCandidate {
    pub y: u32,
    /// Drop magnitude in milli-units.
    pub drop: u64,
}

/// The candidate's drop is the measured difference of the five-row means
/// just above and just below its boundary, it exceeds the drop floor, and
/// the strip below is genuinely dark.
pub open spec fn hud_candidate_ok(f: Frame, c: HudCandidate) -> bool {
    &&& HUD_WINDOW < c.y < f.height
    &&& c.drop == rows_avg_milli(f, c.y - HUD_WINDOW, HUD_WINDOW as int) - rows_avg_milli(
        f,
        c.y as int,
        HUD_WINDOW as int,
    )
    &&& c.drop > HUD_DROP_FLOOR_MILLI
    &&& rows_avg_milli(f, c.y as int, HUD_WINDOW as int) < HUD_DARK_CEIL_MILLI
}

/// One step of the HUD-candidate scan at row `y`: a qualifying drop
/// either starts a new candidate or, within 20 rows of the previous
/// qualifying row, replaces the last one when its drop is larger
/// (merging adjacent candidates, keeping the better). The state is the
/// candidate list plus the previous qualifying row's drop and position.
pub open spec fn hud_scan_step(
    f: Frame,
    st: (Seq<HudCandidate>, int, int),
    y: int,
) -> (Seq<HudCandidate>, int, int) {
    let drop = rows_avg_milli(f, y, HUD_WINDOW as int) - rows_avg_milli(
        f,
        y + HUD_WINDOW,
        HUD_WINDOW as int,
    );
    let below = rows_avg_milli(f, y + HUD_WINDOW, HUD_WINDOW as int);
    if drop > HUD_DROP_FLOOR_MILLI && below < HUD_DARK_CEIL_MILLI {
        let cand = HudCandidate { y: (y + HUD_WINDOW) as u32, drop: drop as u64 };
        if y - st.2 < 20 {
            if drop > st.1 {
                (
                    if st.0.len() > 0 {
                        st.0.update(st.0.len() - 1, cand)
                    } else {
                        st.0
                    },
                    drop,
                    y,
                )
            } else {
                st
            }
        } else {
            (st.0.push(cand), drop, y)
        }
    } else {
        st
    }
}

/// The scan state after processing rows `[lo, y)`.
pub open spec fn hud_scan_state(f: Frame, lo: int, y: int) -> (Seq<HudCandidate>, int, int)
    decreases y - lo,
{
    if y <= lo {
        (Seq::empty(), 0int, 0int)
    } else {
        hud_scan_step(f, hud_scan_state(f, lo, y - 1), y - 1)
    }
}

/// The HUD candidates of a frame: the scan of the band between the 10%
/// margins, or nothing when that band is degenerate.
pub open spec fn hud_candidates_spec(f: Frame) -> Seq<HudCandidate> {
    let lo = f.height as int / 10;
    let sb = f.height as int - f.height as int / 10;
    if sb < 2 * HUD_WINDOW || lo >= sb - 2 * HUD_WINDOW {
        Seq::empty()
    } else {
        hud_scan_state(f, lo, sb - 2 * HUD_WINDOW).0
    }
}

/// Scan the whole frame (minus a 10% margin top and bottom) for rows
/// where the smoothed brightness drops sharply into a dark strip. Nearby
/// candidates are merged, keeping the larger drop. A uniform frame yields
/// no candidate.
pub fn find_hud_candidates(f: &Frame) -> (r: Vec<HudCandidate>)
    requires
        f.wf(),
        f.width >= MIN_FRAME_DIM,
        f.height >= MIN_FRAME_DIM,
    ensures
        r@ == hud_candidates_spec(*f),
        forall|k: int| 0 <= k < r@.len() ==> hud_candidate_ok(*f, #[trigger] r@[k]),
        f.is_uniform() ==> r@.len() == 0,
{
    let h = f.height;
    let window = HUD_WINDOW;
    let mut candidates: Vec<HudCandidate> = Vec::new();
    let search_top = h / 10;
    let search_bottom = h - h / 10;
    if search_bottom < window * 2 {
        return candidates;
    }
    let end = search_bottom - window * 2;
    if search_top >= end {
        return candidates;
    }
    proof {
        lemma_fundamental_div_mod(h as int, 10);
        lemma_fundamental_div_mod(f.width as int, 5);
        lemma_fundamental_div_mod((f.width * 4) as int, 5);
        lemma_fundamental_div_mod(f.width as int, 50);
    }
    let mut prev_drop: i64 = 0;
    let mut prev_y: u32 = 0;
    let mut y: u32 = search_top;
    while y < end
        invariant
            f.wf(),
            f.width >= MIN_FRAME_DIM,
            f.height >= MIN_FRAME_DIM,
            window == HUD_WINDOW,
            end + 2 * window <= f.height,
            10 <= search_top <= y <= end,
            search_top == f.height as int / 10,
            end == (f.height as int - f.height as int / 10) - 2 * HUD_WINDOW,
            prev_y <= y,
            ({
                let st = hud_scan_state(*f, search_top as int, y as int);
                candidates@ == st.0 && prev_drop == st.1 && prev_y == st.2
            }),
            forall|k: int|
                0 <= k < candidates@.len() ==> hud_candidate_ok(*f, #[trigger] candidates@[k]),
            f.is_uniform() ==> candidates@.len() == 0,
        decreases end - y,
    {
        let above = avg_brightness_rows(f, y, window);
        let below = avg_brightness_rows(f, y + window, window);
        let drop: i64 = (above as i64) - (below as i64);
        proof {
            if f.is_uniform() {
                lemma_sampling_nonempty(f.width as int);
            }
        }
        if drop > HUD_DROP_FLOOR_MILLI && below < HUD_DARK_CEIL_MILLI {
            let cand = HudCandidate { y: y + window, drop: drop as u64 };
            proof {
                assert(hud_candidate_ok(*f, cand));
            }
            if y - prev_y < 20 {
                if drop > prev_drop {
                    let n = candidates.len();
                    if n > 0 {
                        candidates.set(n - 1, cand);
                    }
                    prev_drop = drop;
                    prev_y = y;
                }
            } else {
                candidates.push(cand);
                prev_drop = drop;
                prev_y = y;
            }
        }
        proof {
            assert(hud_scan_state(*f, search_top as int, y + 1) == hud_scan_step(
                *f,
                hud_scan_state(*f, search_top as int, y as int),
                y as int,
            ));
        }
        y = y + 1;
    }
    proof {
        assert(candidates@ == hud_candidates_spec(*f));
    }
    candidates
}

/// For a frame at least `MIN_FRAME_DIM` wide, the middle-60% row sampling
/// takes at least one sample.
pub proof fn lemma_sampling_nonempty(w: int)
    requires
        100 <= w <= 16384,
    ensures
        sample_count(w / 5, w * 4 / 5, row_step(w)) > 0,
{
    lemma_fundamental_div_mod(w, 5);
    lemma_fundamental_div_mod(w * 4, 5);
    lemma_fundamental_div_mod(w, 50);
    assert(w / 5 < w * 4 / 5);
    assert(row_step(w) >= 1);
    lemma_sample_count_nonneg(w / 5 + row_step(w), w * 4 / 5, row_step(w));
}

/// Sample counts are never negative.
pub proof fn lemma_sample_count_nonneg(x0: int, x_end: int, step: int)
    ensures
        sample_count(x0, x_end, step) >= 0,
    decreases x_end - x0 + step,
{
    if step < 1 || x0 >= x_end {
    } else {
        lemma_sample_count_nonneg(x0 + step, x_end, step);
    }
}

/// The per-column brightness profile of the card strip, as a sequence.
pub open spec fn col_profile_spec(f: Frame, y0: int, y_end: int, step: int) -> Seq<u32> {
    Seq::new(f.width as nat, |x: int| col_milli(f, x, y0, y_end, step) as u32)
}

/// The smoothed copy of a profile, as a sequence.
pub open spec fn smoothed_profile_spec(p: Seq<u32>, window: int) -> Seq<u32> {
    Seq::new(p.len(), |i: int| smoothed_at(p, window, i) as u32)
}

/// The count contribution to the card score: 5 segments are perfect, 4
/// or 6 close, anything else in range weak.
pub open spec fn count_score_of(n: int) -> int {
    if n == 5 {
        1000
    } else if n == 4 || n == 6 {
        700
    } else {
        400
    }
}

/// The weighted mix of the three card-score components.
pub open spec fn score_mix(count: int, evenness: int, gaps: int) -> int {
    (count * 400 + evenness * 300 + gaps * 300) / 1000
}

/// The adaptive threshold of a sorted profile, as the unsigned value the
/// segment extraction compares against.
pub open spec fn thr_of(t: Seq<u32>) -> u32 {
    (threshold_of_sorted(t)) as u32
}

/// `s` mixes the count score for `n` segments with some width and gap
/// regularities, each a coefficient-of-variation complement in 0..=1000.
pub open spec fn mixed_score_ok(n: int, s: int) -> bool {
    exists|ev: int, gr: int|
        0 <= ev <= 1000 && 0 <= gr <= 1000 && s == #[trigger] score_mix(count_score_of(n), ev, gr)
}

/// `s` is the card-pattern score of the strip below a HUD candidate at
/// `hud_y`: zero for a degenerate strip or a segment count far from
/// five; otherwise the weighted mix of the count score with the width
/// and gap regularities (each a coefficient-of-variation complement in
/// 0..=1000, left abstract here), over the adaptively thresholded
/// smoothed column profile of the strip.
pub open spec fn card_score_rel(f: Frame, hud_y: int, s: int) -> bool {
    let h = f.height as int;
    let w = f.width as int;
    let cah = h * 15 / 100;
    let limit = if h >= 5 {
        h - 5
    } else {
        0
    };
    let cat = hud_y + 5;
    let cab = if hud_y + cah < limit {
        hud_y + cah
    } else {
        limit
    };
    if cat >= cab || cab - cat < 10 {
        s == 0
    } else {
        let ystep = if (cab - cat) / 10 >= 1 {
            (cab - cat) / 10
        } else {
            1
        };
        let win = if w / 200 >= 3 {
            w / 200
        } else {
            3
        };
        let minw = if w / 60 >= 10 {
            w / 60
        } else {
            10
        };
        card_score_body(smoothed_profile_spec(col_profile_spec(f, cat, cab, ystep), win), minw, s)
    }
}

/// The scoring of a concrete smoothed profile: over its sorted
/// rearrangement's threshold and the resulting segment listing, the
/// score is zero for a segment count far from five and otherwise the
/// weighted mix.
pub open spec fn card_score_body(sm: Seq<u32>, minw: int, s: int) -> bool {
    exists|t: Seq<u32>, segs: Seq<(usize, usize)>|
        #![trigger sorted_version(t, sm), segments_listing(sm, thr_of(t), minw, segs)]
        {
            &&& sorted_version(t, sm)
            &&& segments_listing(sm, thr_of(t), minw, segs)
            &&& if segs.len() < 3 || segs.len() > 7 {
                s == 0
            } else {
                mixed_score_ok(segs.len() as int, s)
            }
        }
}

/// Score (milli-units, 0..=1000) of how well the strip below a HUD
/// candidate matches five evenly spaced bright cards on a dark
/// background: a weighted mix of how close the bright-segment count is to
/// five, how even the segment widths are, and how even the gaps are.
pub fn score_card_pattern(f: &Frame, candidate: &HudCandidate) -> (r: u32)
    requires
        f.wf(),
        f.width >= MIN_FRAME_DIM,
        f.height >= MIN_FRAME_DIM,
        candidate.y < f.height,
    ensures
        r <= 1000,
        card_score_rel(*f, candidate.y as int, r as int),
{
    let w = f.width;
    let h = f.height;
    let hud_y = candidate.y;
    let card_area_height = h * 15 / 100;
    let card_area_top = hud_y + 5;
    let limit = if h >= 5 {
        h - 5
    } else {
        0
    };
    let card_area_bottom = if hud_y + card_area_height < limit {
        hud_y + card_area_height
    } else {
        limit
    };
    proof {
        lemma_fundamental_div_mod((h * 15) as int, 100);
    }
    if card_area_top >= card_area_bottom || card_area_bottom - card_area_top < 10 {
        proof {
            assert(card_score_rel(*f, hud_y as int, 0));
        }
        return 0;
    }
    let y_step = if (card_area_bottom - card_area_top) / 10 >= 1 {
        (card_area_bottom - card_area_top) / 10
    } else {
        1
    };
    proof {
        lemma_fundamental_div_mod((card_area_bottom - card_area_top) as int, 10);
    }
    let col_bright = column_profile(f, card_area_top, card_area_bottom, y_step);
    let smooth_window = if (w as usize) / 200 >= 3 {
        (w as usize) / 200
    } else {
        3
    };
    proof {
        lemma_fundamental_div_mod(w as int, 200);
        lemma_fundamental_div_mod(w as int, 60);
    }
    let smoothed = smooth(&col_bright, smooth_window);
    let threshold = adaptive_threshold(&smoothed);
    let min_seg_width = if (w as usize) / 60 >= 10 {
        (w as usize) / 60
    } else {
        10
    };
    let segments = find_bright_segments(&smoothed, threshold, min_seg_width);
    proof {
        assert(col_bright@ =~= col_profile_spec(
            *f,
            card_area_top as int,
            card_area_bottom as int,
            y_step as int,
        ));
        assert(smoothed@ =~= smoothed_profile_spec(col_bright@, smooth_window as int));
    }
    proof {
        assert(exists|t: Seq<u32>|
            #[trigger] sorted_version(t, smoothed@) && threshold == threshold_of_sorted(t));
    }
    let ghost sorted_wit = choose|t: Seq<u32>|
        #[trigger] sorted_version(t, smoothed@) && threshold == threshold_of_sorted(t);
    proof {
        assert(sorted_version(sorted_wit, smoothed@) && threshold == threshold_of_sorted(
            sorted_wit,
        ));
        assert(thr_of(sorted_wit) == threshold);
    }
    let nseg = segments.len();
    if nseg < 3 || nseg > 7 {
        proof {
            assert(segments_listing(smoothed@, thr_of(sorted_wit), min_seg_width as int, segments@));
            lemma_card_score_witnesses(
                *f,
                hud_y as int,
                smoothed@,
                sorted_wit,
                segments@,
                min_seg_width as int,
                0,
            );
        }
        return 0;
    }
    let width_cv = spread_cv_milli_widths(&segments, w);
    let evenness_score: u32 = if width_cv < 1000 {
        1000 - width_cv
    } else {
        0
    };
    let gap_regularity = gap_regularity_milli(&segments, w);
    let count_score: u32 = if nseg == 5 {
        1000
    } else if nseg == 4 || nseg == 6 {
        700
    } else {
        400
    };
    let total_weighted: u32 = count_score * 400 + evenness_score * 300 + gap_regularity * 300;
    let score = total_weighted / 1000;
    proof {
        lemma_fundamental_div_mod(total_weighted as int, 1000);
        assert(score == score_mix(
            count_score_of(segments@.len() as int),
            evenness_score as int,
            gap_regularity as int,
        ));
        assert(mixed_score_ok(segments@.len() as int, score as int));
        assert(segments_listing(smoothed@, thr_of(sorted_wit), min_seg_width as int, segments@));
        lemma_card_score_witnesses(
            *f,
            hud_y as int,
            smoothed@,
            sorted_wit,
            segments@,
            min_seg_width as int,
            score as int,
        );
    }
    score
}

/// Package the witnesses of one concrete scoring run into the score
/// relation.
proof fn lemma_card_score_witnesses(
    f: Frame,
    hud_y: int,
    sm: Seq<u32>,
    t: Seq<u32>,
    segs: Seq<(usize, usize)>,
    minw: int,
    s: int,
)
    requires
        ({
            let h = f.height as int;
            let w = f.width as int;
            let cah = h * 15 / 100;
            let limit = if h >= 5 {
                h - 5
            } else {
                0
            };
            let cat = hud_y + 5;
            let cab = if hud_y + cah < limit {
                hud_y + cah
            } else {
                limit
            };
            let ystep = if (cab - cat) / 10 >= 1 {
                (cab - cat) / 10
            } else {
                1
            };
            let win = if w / 200 >= 3 {
                w / 200
            } else {
                3
            };
            &&& cat < cab && cab - cat >= 10
            &&& minw == (if w / 60 >= 10 {
                w / 60
            } else {
                10
            })
            &&& sm == smoothed_profile_spec(col_profile_spec(f, cat, cab, ystep), win)
        }),
        sorted_version(t, sm),
        segments_listing(sm, thr_of(t), minw, segs),
        if segs.len() < 3 || segs.len() > 7 {
            s == 0
        } else {
            mixed_score_ok(segs.len() as int, s)
        },
    ensures
        card_score_rel(f, hud_y, s),
{
    let h = f.height as int;
    let w = f.width as int;
    let cah = h * 15 / 100;
    let limit = if h >= 5 {
        h - 5
    } else {
        0
    };
    let cat = hud_y + 5;
    let cab = if hud_y + cah < limit {
        hud_y + cah
    } else {
        limit
    };
    let ystep = if (cab - cat) / 10 >= 1 {
        (cab - cat) / 10
    } else {
        1
    };
    let win = if w / 200 >= 3 {
        w / 200
    } else {
        3
    };
    let minw2 = if w / 60 >= 10 {
        w / 60
    } else {
        10int
    };
    let smx = smoothed_profile_spec(col_profile_spec(f, cat, cab, ystep), win);
    assert(minw == minw2);
    assert(sm == smx);
    assert(sorted_version(t, smx));
    assert(segments_listing(smx, thr_of(t), minw2, segs));
    assert(card_score_body(smx, minw2, s)) by {
        assert(sorted_version(t, smx) && segments_listing(smx, thr_of(t), minw2, segs));
    }
    assert(card_score_rel(f, hud_y, s));
}

/// Coefficient of variation (milli-units) of the segment widths.
fn spread_cv_milli_widths(segments: &Vec<(usize, usize)>, frame_width: u32) -> (r: u32)
    requires
        frame_width <= 16384,
        1 <= segments@.len() <= 7,
        forall|k: int|
            0 <= k < segments@.len() ==> (#[trigger] segments@[k]).0 <= segments@[k].1
                <= frame_width,
{
    let n = segments.len();
    let mut total: u64 = 0;
    let mut i: usize = 0;
    while i < n
        invariant
            i <= n,
            n == segments@.len(),
            n <= 7,
            forall|k: int|
                0 <= k < segments@.len() ==> (#[trigger] segments@[k]).0 <= segments@[k].1
                    <= frame_width,
            frame_width <= 16384,
            total <= (i as int) * 16384,
        decreases n - i,
    {
        let seg = segments[i];
        total = total + ((seg.1 - seg.0) as u64);
        proof {
            assert((i as int + 1) * 16384 == (i as int) * 16384 + 16384) by (nonlinear_arith);
        }
        i = i + 1;
    }
    cv_milli_of(total, segments, frame_width, true)
}

/// Coefficient of variation (milli-units) of the gaps between adjacent
/// segments; 1000 stands for perfectly regular when there are no gaps.
fn gap_regularity_milli(segments: &Vec<(usize, usize)>, frame_width: u32) -> (r: u32)
    requires
        frame_width <= 16384,
        1 <= segments@.len() <= 7,
        forall|k: int|
            0 <= k < segments@.len() ==> (#[trigger] segments@[k]).0 <= segments@[k].1
                <= frame_width,
    ensures
        r <= 1000,
{
    let n = segments.len();
    if n < 2 {
        return 1000;
    }
    let mut gaps: Vec<u64> = Vec::new();
    let mut i: usize = 0;
    while i < n - 1
        invariant
            i <= n - 1,
            n == segments@.len(),
            2 <= n <= 7,
            frame_width <= 16384,
            forall|k: int|
                0 <= k < segments@.len() ==> (#[trigger] segments@[k]).0 <= segments@[k].1
                    <= frame_width,
            gaps@.len() == i,
            forall|k: int| 0 <= k < i ==> #[trigger] gaps@[k] <= 16384,
        decreases n - 1 - i,
    {
        let a = segments[i].1;
        let b = segments[i + 1].0;
        let g: u64 = if b > a {
            (b - a) as u64
        } else {
            0
        };
        gaps.push(g);
        i = i + 1;
    }
    let mut total: u64 = 0;
    let mut j: usize = 0;
    while j < gaps.len()
        invariant
            j <= gaps@.len(),
            gaps@.len() <= 6,
            forall|k: int| 0 <= k < gaps@.len() ==> #[trigger] gaps@[k] <= 16384,
            total <= (j as int) * 16384,
        decreases gaps@.len() - j,
    {
        total = total + gaps[j];
        proof {
            assert((j as int + 1) * 16384 == (j as int) * 16384 + 16384) by (nonlinear_arith);
        }
        j = j + 1;
    }
    if total == 0 {
        return 1000;
    }
    let cv = cv_milli_values(total, &gaps);
    if cv < 1000 {
        1000 - cv
    } else {
        0
    }
}

/// Coefficient of variation (milli-units) of the segment widths around
/// their mean, computed as `1000 * stddev / max(mean, 1)` in fixed point.
fn cv_milli_of(total: u64, segments: &Vec<(usize, usize)>, frame_width: u32, widths: bool) -> (r:
    u32)
    requires
        1 <= segments@.len() <= 7,
        frame_width <= 16384,
        total <= segments@.len() * 16384,
        forall|k: int|
            0 <= k < segments@.len() ==> (#[trigger] segments@[k]).0 <= segments@[k].1
                <= frame_width,
{
    let n = segments.len() as u64;
    let avg_milli: u64 = total * 1000 / n;
    proof {
        lemma_avg_bound_simple(total as int, n as int);
    }
    let mut var_sum: u64 = 0;
    let mut i: usize = 0;
    while i < segments.len()
        invariant
            i <= segments@.len(),
            1 <= segments@.len() <= 7,
            n == segments@.len(),
            frame_width <= 16384,
            avg_milli <= 16384000,
            forall|k: int|
                0 <= k < segments@.len() ==> (#[trigger] segments@[k]).0 <= segments@[k].1
                    <= frame_width,
            var_sum <= (i as int) * 0x1000000000000,
        decreases segments@.len() - i,
    {
        let seg = segments[i];
        let wm: u64 = ((seg.1 - seg.0) as u64) * 1000;
        let diff: u64 = if wm >= avg_milli {
            wm - avg_milli
        } else {
            avg_milli - wm
        };
        proof {
            assert(diff <= 16384000);
            assert(diff * diff <= 0x1000000000000) by (nonlinear_arith)
                requires
                    diff <= 16384000,
            ;
            assert((i as int + 1) * 0x1000000000000 == (i as int) * 0x1000000000000 + 0x1000000000000)
                by (nonlinear_arith);
        }
        var_sum = var_sum + diff * diff;
        i = i + 1;
    }
    let variance: u64 = var_sum / n;
    proof {
        vstd::arithmetic::div_mod::lemma_div_nonincreasing(var_sum as int, n as int);
    }
    let std_milli: u64 = isqrt(variance as u128);
    proof {
        assert((std_milli as int) * (std_milli as int) <= 0x7000000000000);
        assert(std_milli <= 0x8000000) by (nonlinear_arith)
            requires
                (std_milli as int) * (std_milli as int) <= 0x7000000000000,
        ;
    }
    let denom: u64 = if avg_milli >= 1000 {
        avg_milli
    } else {
        1000
    };
    let cv: u64 = std_milli * 1000 / denom;
    if cv > 0xffffffff {
        0xffffffff
    } else {
        cv as u32
    }
}

/// Coefficient of variation (milli-units) of plain values.
fn cv_milli_values(total: u64, vals: &Vec<u64>) -> (r: u32)
    requires
        1 <= vals@.len() <= 6,
        total >= 1,
        forall|k: int| 0 <= k < vals@.len() ==> #[trigger] vals@[k] <= 16384,
        total <= vals@.len() * 16384,
{
    let n = vals.len() as u64;
    let avg_milli: u64 = total * 1000 / n;
    proof {
        lemma_avg_bound_simple(total as int, n as int);
    }
    let mut var_sum: u64 = 0;
    let mut i: usize = 0;
    while i < vals.len()
        invariant
            i <= vals@.len(),
            1 <= vals@.len() <= 6,
            n == vals@.len(),
            avg_milli <= 16384000,
            forall|k: int| 0 <= k < vals@.len() ==> #[trigger] vals@[k] <= 16384,
            var_sum <= (i as int) * 0x1000000000000,
        decreases vals@.len() - i,
    {
        let wm: u64 = vals[i] * 1000;
        let diff: u64 = if wm >= avg_milli {
            wm - avg_milli
        } else {
            avg_milli - wm
        };
        proof {
            assert(diff <= 16384000);
            assert(diff * diff <= 0x1000000000000) by (nonlinear_arith)
                requires
                    diff <= 16384000,
            ;
            assert((i as int + 1) * 0x1000000000000 == (i as int) * 0x1000000000000 + 0x1000000000000)
                by (nonlinear_arith);
        }
        var_sum = var_sum + diff * diff;
        i = i + 1;
    }
    let variance: u64 = var_sum / n;
    proof {
        vstd::arithmetic::div_mod::lemma_div_nonincreasing(var_sum as int, n as int);
    }
    let std_milli: u64 = isqrt(variance as u128);
    proof {
        assert((std_milli as int) * (std_milli as int) <= 0x7000000000000);
        assert(std_milli <= 0x8000000) by (nonlinear_arith)
            requires
                (std_milli as int) * (std_milli as int) <= 0x7000000000000,
        ;
    }
    let denom: u64 = if avg_milli >= 1 {
        avg_milli
    } else {
        1
    };
    let cv: u64 = std_milli * 1000 / denom;
    if cv > 0xffffffff {
        0xffffffff
    } else {
        cv as u32
    }
}

/// A scaled mean of values at most 16384 each is at most `16384000`.
proof fn lemma_avg_bound_simple(total: int, n: int)
    requires
        1 <= n,
        0 <= total <= n * 16384,
    ensures
        0 <= total * 1000 / n <= 16384000,
{
    lemma_fundamental_div_mod(total * 1000, n);
    lemma_mod_bound(total * 1000, n);
    assert(total * 1000 <= n * 16384000) by (nonlinear_arith)
        requires
            total <= n * 16384,
            n >= 1,
    ;
    assert(total * 1000 / n <= 16384000) by (nonlinear_arith)
        requires
            n >= 1,
            n * (total * 1000 / n) <= total * 1000,
            total * 1000 <= n * 16384000,
            total * 1000 / n >= 0,
    ;
    assert(total * 1000 / n >= 0) by (nonlinear_arith)
        requires
            n >= 1,
            total * 1000 >= 0,
            n * (total * 1000 / n) + (total * 1000) % n == total * 1000,
            0 <= (total * 1000) % n < n,
    ;
}

/// The combined selection score of a candidate: 70% card-pattern score,
/// 30% capped drop size.
pub open spec fn combined_of(s: int, drop: int) -> int {
    (s * 700 + (if drop / 100 < 1000 {
        drop / 100
    } else {
        1000
    }) * 300) / 1000
}

/// The game rectangle inferred from a winning HUD boundary at `hud_y`:
/// the HUD sits at 80% of game height, the width follows from a 16:9
/// aspect ratio centered in the frame, and an area covering more than
/// 85% of the frame short-circuits to the whole frame.
pub open spec fn region_from_hud(f: Frame, hud_y: int) -> ScreenRegion {
    let w = f.width as int;
    let h = f.height as int;
    let est = hud_y * 100 / 80;
    let est_back = est * 80 / 100;
    let top = if est_back <= hud_y {
        hud_y - est_back
    } else {
        0
    };
    let bottom = if top + est < h {
        top + est
    } else {
        h
    };
    let gh = bottom - top;
    let ideal = gh * 16 / 9;
    let gw = if ideal < w {
        ideal
    } else {
        w
    };
    let left = (w - gw) / 2;
    if gh * gw * 100 > 85 * (w * h) {
        ScreenRegion { x: 0, y: 0, width: REGION_SCALE, height: REGION_SCALE }
    } else {
        ScreenRegion {
            x: (left * 10000 / w) as u32,
            y: (top * 10000 / h) as u32,
            width: (gw * 10000 / w) as u32,
            height: (gh * 10000 / h) as u32,
        }
    }
}

/// Candidate `k` scores above the floor with score `s`, and `ga` is the
/// confidence and region derived from it.
pub open spec fn candidate_chosen(f: Frame, k: int, s: int, ga: GameArea) -> bool {
    &&& 0 <= k < hud_candidates_spec(f).len()
    &&& card_score_rel(f, hud_candidates_spec(f)[k].y as int, s)
    &&& s > CARD_SCORE_FLOOR_MILLI
    &&& ga.confidence == combined_of(s, hud_candidates_spec(f)[k].drop as int)
    &&& ga.region == region_from_hud(f, hud_candidates_spec(f)[k].y as int)
}

/// The detected game area comes from one of the frame's HUD candidates:
/// its card score clears the floor, the confidence is the combined
/// score, and the region is the rectangle inferred from the candidate.
pub open spec fn game_area_choice_ok(f: Frame, ga: GameArea) -> bool {
    exists|k: int, s: int| #[trigger] candidate_chosen(f, k, s, ga)
}

/// Candidate `k` admits a card score at or below the floor.
pub open spec fn candidate_scores_low(f: Frame, k: int) -> bool {
    exists|s: int|
        #[trigger] card_score_rel(f, hud_candidates_spec(f)[k].y as int, s) && s
            <= CARD_SCORE_FLOOR_MILLI
}

/// Every HUD candidate of the frame admits a card score at or below the
/// floor (vacuously true when there is no candidate at all).
pub open spec fn no_scoring_candidate(f: Frame) -> bool {
    forall|k: int|
        0 <= k < hud_candidates_spec(f).len() ==> #[trigger] candidate_scores_low(f, k)
}

/// Every candidate the scan produces sits at least one averaging window
/// below the band start.
pub proof fn lemma_hud_scan_ys(f: Frame, lo: int, y: int)
    requires
        0 <= lo,
        y <= f.height,
        f.wf(),
    ensures
        forall|k: int|
            0 <= k < hud_scan_state(f, lo, y).0.len() ==> (#[trigger] hud_scan_state(
                f,
                lo,
                y,
            ).0[k]).y >= lo + HUD_WINDOW,
    decreases y - lo,
{
    if y <= lo {
    } else {
        lemma_hud_scan_ys(f, lo, y - 1);
        let st = hud_scan_state(f, lo, y - 1);
        assert(hud_scan_state(f, lo, y) == hud_scan_step(f, st, y - 1));
        assert forall|k: int|
            0 <= k < hud_scan_state(f, lo, y).0.len() implies (#[trigger] hud_scan_state(
            f,
            lo,
            y,
        ).0[k]).y >= lo + HUD_WINDOW by {
            let next = hud_scan_step(f, st, y - 1);
            if next.0 != st.0 {
                assert((y - 1) + HUD_WINDOW < 0x10000000);
            }
        }
    }
}

/// The candidates of a frame all sit below the top margin plus one
/// averaging window.
pub proof fn lemma_candidates_ys(f: Frame)
    requires
        f.wf(),
    ensures
        forall|k: int|
            0 <= k < hud_candidates_spec(f).len() ==> (#[trigger] hud_candidates_spec(f)[k]).y
                >= f.height as int / 10 + HUD_WINDOW,
{
    let lo = f.height as int / 10;
    let sb = f.height as int - f.height as int / 10;
    if sb < 2 * HUD_WINDOW || lo >= sb - 2 * HUD_WINDOW {
    } else {
        lemma_hud_scan_ys(f, lo, sb - 2 * HUD_WINDOW);
    }
}

/// The inferred game rectangle of a candidate boundary below the top
/// margin is inside the unit square with a positive size.
pub proof fn lemma_region_from_hud_positive(f: Frame, hud_y: int)
    requires
        f.wf(),
        f.width >= MIN_FRAME_DIM,
        f.height >= MIN_FRAME_DIM,
        f.height as int / 10 + HUD_WINDOW <= hud_y < f.height,
    ensures
        (region_from_hud(f, hud_y)).width >= 1,
        (region_from_hud(f, hud_y)).height >= 1,
        (region_from_hud(f, hud_y)).in_unit(),
{
    let w = f.width as int;
    let h = f.height as int;
    let est = hud_y * 100 / 80;
    let est_back = est * 80 / 100;
    lemma_fundamental_div_mod(h, 10);
    lemma_fundamental_div_mod(hud_y * 100, 80);
    lemma_mod_bound(hud_y * 100, 80);
    lemma_fundamental_div_mod(est * 80, 100);
    lemma_mod_bound(est * 80, 100);
    assert(hud_y >= 15);
    assert(est >= hud_y && est_back <= hud_y && hud_y - est_back <= 1);
    let top = if est_back <= hud_y {
        hud_y - est_back
    } else {
        0
    };
    let bottom = if top + est < h {
        top + est
    } else {
        h
    };
    let gh = bottom - top;
    assert(h as int / 10 >= 10);
    assert(gh >= 15 && top + gh <= h && top >= 0);
    let ideal = gh * 16 / 9;
    lemma_fundamental_div_mod(gh * 16, 9);
    lemma_mod_bound(gh * 16, 9);
    assert(ideal >= 25);
    let gw = if ideal < w {
        ideal
    } else {
        w
    };
    assert(gw >= 25);
    let left = (w - gw) / 2;
    lemma_fundamental_div_mod(w - gw, 2);
    lemma_mod_bound(w - gw, 2);
    assert(0 <= left && left + gw <= w);
    lemma_scaled_pair_in_unit(left, gw, w);
    lemma_scaled_pair_in_unit(top, gh, h);
    lemma_fundamental_div_mod(gw * 10000, w);
    lemma_mod_bound(gw * 10000, w);
    lemma_fundamental_div_mod(gh * 10000, h);
    lemma_mod_bound(gh * 10000, h);
    assert(gw * 10000 >= 250000 && gh * 10000 >= 150000) by (nonlinear_arith)
        requires
            gw >= 25,
            gh >= 15,
    ;
    assert(gw * 10000 / w >= 1) by (nonlinear_arith)
        requires
            1 <= w <= 16384,
            gw * 10000 >= 250000,
            w * (gw * 10000 / w) + (gw * 10000) % w == gw * 10000,
            0 <= (gw * 10000) % w < w,
    ;
    assert(gh * 10000 / h >= 1) by (nonlinear_arith)
        requires
            1 <= h <= 16384,
            gh * 10000 >= 150000,
            h * (gh * 10000 / h) + (gh * 10000) % h == gh * 10000,
            0 <= (gh * 10000) % h < h,
    ;
}

/// Detect the game area within an arbitrary frame: find HUD candidates,
/// score the five-card pattern below each, pick the best combination of
/// card score and drop size, and infer the game rectangle from it.
///
/// Returns `None` when the frame is too small, shows no qualifying
/// brightness drop (in particular on any uniform frame), or no candidate
/// clears the card-pattern floor.
pub fn detect_game_area(frame: &Frame) -> (r: Option<GameArea>)
    requires
        frame.wf(),
    ensures
        frame.width < MIN_FRAME_DIM || frame.height < MIN_FRAME_DIM ==> r is None,
        frame.is_uniform() ==> r is None,
        match r {
            Some(ga) => {
                &&& ga.region.in_unit()
                &&& ga.region.width >= 1 && ga.region.height >= 1
                &&& 200 < ga.confidence <= 1000
                &&& game_area_choice_ok(*frame, ga)
                &&& exists|c: HudCandidate| #[trigger] hud_candidate_ok(*frame, c)
            },
            None => frame.width < MIN_FRAME_DIM || frame.height < MIN_FRAME_DIM
                || no_scoring_candidate(*frame),
        },
{
    let w = frame.width;
    let h = frame.height;
    if w < MIN_FRAME_DIM || h < MIN_FRAME_DIM {
        return None;
    }
    let candidates = find_hud_candidates(frame);
    if candidates.len() == 0 {
        return None;
    }
    let mut best: Option<(u32, u32)> = None;
    let ghost mut best_k: int = 0;
    let ghost mut best_s: int = 0;
    let mut i: usize = 0;
    while i < candidates.len()
        invariant
            frame.wf(),
            frame.width == w,
            frame.height == h,
            w >= MIN_FRAME_DIM,
            h >= MIN_FRAME_DIM,
            candidates@ == hud_candidates_spec(*frame),
            forall|k: int|
                0 <= k < candidates@.len() ==> hud_candidate_ok(*frame, #[trigger] candidates@[k]),
            i <= candidates@.len(),
            match best {
                Some(b) => {
                    &&& b.0 < h && 200 < b.1 <= 1000
                    &&& b.0 == candidates@[best_k].y
                    &&& card_score_rel(*frame, candidates@[best_k].y as int, best_s)
                    &&& 0 <= best_k < candidates@.len()
                    &&& best_s > CARD_SCORE_FLOOR_MILLI
                    &&& b.1 == combined_of(best_s, candidates@[best_k].drop as int)
                    &&& exists|c: HudCandidate| #[trigger] hud_candidate_ok(*frame, c)
                },
                None => forall|j: int| 0 <= j < i ==> #[trigger] candidate_scores_low(*frame, j),
            },
        decreases candidates@.len() - i,
    {
        let cand = &candidates[i];
        let card_score = score_card_pattern(frame, cand);
        if card_score > CARD_SCORE_FLOOR_MILLI {
            let drop_score: u64 = if cand.drop / 100 < 1000 {
                cand.drop / 100
            } else {
                1000
            };
            proof {
                lemma_fundamental_div_mod(
                    (card_score as int) * 700 + (drop_score as int) * 300,
                    1000,
                );
            }
            let combined: u32 = ((card_score as u64 * 700 + drop_score * 300) / 1000) as u32;
            let better = match best {
                Some(b) => combined > b.1,
                None => true,
            };
            if better {
                proof {
                    assert(hud_candidate_ok(*frame, candidates@[i as int]));
                    best_k = i as int;
                    best_s = card_score as int;
                    assert(card_score_rel(
                        *frame,
                        candidates@[i as int].y as int,
                        card_score as int,
                    ));
                    assert(combined == combined_of(
                        card_score as int,
                        candidates@[i as int].drop as int,
                    ));
                    assert(200 < combined <= 1000);
                }
                best = Some((cand.y, combined));
            }
        } else {
            proof {
                if best is None {
                    assert(card_score_rel(
                        *frame,
                        hud_candidates_spec(*frame)[i as int].y as int,
                        card_score as int,
                    ));
                    assert(candidate_scores_low(*frame, i as int));
                }
            }
        }
        i = i + 1;
    }
    let (hud_y, confidence) = match best {
        Some(b) => b,
        None => {
            proof {
                assert(no_scoring_candidate(*frame));
            }
            return None;
        },
    };
    proof {
        lemma_candidates_ys(*frame);
        assert(hud_y >= h as int / 10 + HUD_WINDOW);
        lemma_region_from_hud_positive(*frame, hud_y as int);
    }
    // The HUD sits at ~80% of game height; infer the game rectangle.
    let est: u64 = (hud_y as u64) * 100 / 80;
    let est_back: u64 = est * 80 / 100;
    let game_top: u64 = if est_back <= (hud_y as u64) {
        (hud_y as u64) - est_back
    } else {
        0
    };
    proof {
        lemma_fundamental_div_mod((hud_y as int) * 100, 80);
        lemma_fundamental_div_mod((est as int) * 80, 100);
        assert(est <= 0x100000 && est_back <= 0x100000);
    }
    let game_bottom: u64 = if game_top + est < (h as u64) {
        game_top + est
    } else {
        h as u64
    };
    let game_height: u64 = game_bottom - game_top;
    let ideal_width: u64 = game_height * 16 / 9;
    let game_width: u64 = if ideal_width < (w as u64) {
        ideal_width
    } else {
        w as u64
    };
    let game_left: u64 = ((w as u64) - game_width) / 2;
    proof {
        lemma_fundamental_div_mod((game_height * 16) as int, 9);
        lemma_fundamental_div_mod(((w as u64) - game_width) as int, 2);
    }
    // Fullscreen fast path: a game area covering most of the frame is the
    // whole frame.
    proof {
        vstd::arithmetic::div_mod::lemma_div_nonincreasing(((w as u64) - game_width) as int, 2);
        assert(game_left <= 16384 && game_top <= 16384 && game_width <= 16384 && game_height
            <= 16384);
        assert((game_height as int) * (game_width as int) <= 0x10000000 && (w as int) * (h as int)
            <= 0x10000000) by (nonlinear_arith)
            requires
                0 <= game_height <= 16384,
                0 <= game_width <= 16384,
                0 <= w <= 16384,
                0 <= h <= 16384,
        ;
    }
    if (game_height * game_width) * 100 > 85 * ((w as u64) * (h as u64)) {
        let ga = GameArea {
            region: ScreenRegion { x: 0, y: 0, width: REGION_SCALE, height: REGION_SCALE },
            confidence,
        };
        proof {
            assert(ga.region == region_from_hud(*frame, hud_y as int));
            assert(candidate_chosen(*frame, best_k, best_s, ga));
            assert(game_area_choice_ok(*frame, ga));
        }
        return Some(ga);
    }
    let sx: u64 = game_left * 10000 / (w as u64);
    let sy: u64 = game_top * 10000 / (h as u64);
    let sw: u64 = game_width * 10000 / (w as u64);
    let sh: u64 = game_height * 10000 / (h as u64);
    proof {
        lemma_scaled_pair_in_unit(game_left as int, game_width as int, w as int);
        lemma_scaled_pair_in_unit(game_top as int, game_height as int, h as int);
    }
    let ga = GameArea {
        region: ScreenRegion { x: sx as u32, y: sy as u32, width: sw as u32, height: sh as u32 },
        confidence,
    };
    proof {
        assert(ga.region == region_from_hud(*frame, hud_y as int));
        assert(candidate_chosen(*frame, best_k, best_s, ga));
        assert(game_area_choice_ok(*frame, ga));
    }
    Some(ga)
}

/// Two pixel spans that fit in `size` scale to fixed-point fractions that
/// fit in the unit interval.
pub proof fn lemma_scaled_pair_in_unit(a: int, b: int, size: int)
    requires
        0 <= a,
        0 <= b,
        a + b <= size,
        1 <= size,
    ensures
        0 <= a * 10000 / size,
        0 <= b * 10000 / size,
        a * 10000 / size + b * 10000 / size <= 10000,
        a * 10000 / size <= 10000,
        b * 10000 / size <= 10000,
{
    lemma_fundamental_div_mod(a * 10000, size);
    lemma_mod_bound(a * 10000, size);
    lemma_fundamental_div_mod(b * 10000, size);
    lemma_mod_bound(b * 10000, size);
    let qa = a * 10000 / size;
    let qb = b * 10000 / size;
    assert(qa >= 0 && qb >= 0 && size * qa <= a * 10000 && size * qb <= b * 10000)
        by (nonlinear_arith)
        requires
            size >= 1,
            a >= 0,
            b >= 0,
            size * qa + (a * 10000) % size == a * 10000,
            size * qb + (b * 10000) % size == b * 10000,
            0 <= (a * 10000) % size < size,
            0 <= (b * 10000) % size < size,
    ;
    assert(qa + qb <= 10000) by (nonlinear_arith)
        requires
            size >= 1,
            qa >= 0,
            qb >= 0,
            size * qa <= a * 10000,
            size * qb <= b * 10000,
            a + b <= size,
    ;
}

}
