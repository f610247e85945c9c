//! Layout detection on a game-area frame.
//!
//! Given a frame already cropped to the game area, find the HUD boundary,
//! the five shop-slot rectangles and the gold/level/stage text boxes,
//! purely from brightness and color statistics. Every sub-detection may
//! fail on its own (an absent `Option`) without aborting the others.

use crate::brightness::avg_brightness_rows;
use crate::brightness::column_profile;
use crate::brightness::rows_avg_milli;
use crate::brightness::row_sample_sum;
use crate::brightness::row_step;
use crate::brightness::sample_count;
use crate::frame::Frame;
use crate::profile::adaptive_threshold;
use crate::profile::find_bright_segments;
use crate::profile::normalize_to_five;
use crate::profile::smooth;
use crate::region::REGION_SCALE;
use crate::region::ScreenRegion;
use crate::game_area::col_profile_spec;
use crate::game_area::lemma_scaled_pair_in_unit;
use crate::game_area::smoothed_profile_spec;
use crate::game_area::thr_of;
use crate::profile::segments_listing;
use crate::profile::sorted_version;
use crate::profile::threshold_of_sorted;
use vstd::arithmetic::div_mod::lemma_fundamental_div_mod;
use vstd::arithmetic::div_mod::lemma_mod_bound;
use vstd::multiset::Multiset;
use vstd::prelude::*;

verus! {

/// Detected positions of the game's UI elements for one frame.
#[derive(Debug, Clone)]
pub struct DetectedLayout {
    /// Exactly zero or five shop-slot regions, left to right.
    pub shop_slots: Vec<ScreenRegion>,
    pub gold: Option<ScreenRegion>,
    pub level: Option<ScreenRegion>,
    pub stage: Option<ScreenRegion>,
    /// Normalized y of the HUD top boundary (fixed-point fraction).
    pub hud_top: u32,
}

/// The brightness drop at candidate row `y`: the five-row mean above the
/// boundary minus the five-row mean below it.
pub open spec fn hud_drop_at(f: Frame, y: int) -> int {
    rows_avg_milli(f, y, 5) - rows_avg_milli(f, y + 5, 5)
}

/// Row `y` qualifies as a HUD boundary candidate: the drop is large
/// enough and the strip below is genuinely dark.
pub open spec fn hud_row_qualifies(f: Frame, y: int) -> bool {
    &&& hud_drop_at(f, y) > 5000
    &&& rows_avg_milli(f, y + 5, 5) < 55000
}

/// First scanned row of the HUD search band (74% of frame height).
pub open spec fn hud_band_lo(f: Frame) -> int {
    f.height as int * 74 / 100
}

/// One past the last scanned row of the HUD search band (90% of frame
/// height, minus the two averaging windows).
pub open spec fn hud_band_end(f: Frame) -> int {
    f.height as int * 90 / 100 - 10
}

/// The fallback HUD boundary: 80% of frame height.
pub open spec fn hud_default(f: Frame) -> int {
    f.height as int * 80 / 100
}

/// `r` is what the HUD-top search returns: the fallback when the band is
/// degenerate or no row qualifies; otherwise five rows below the
/// earliest qualifying row attaining the maximum drop.
pub open spec fn hud_top_rel(f: Frame, r: int) -> bool {
    ||| {
        &&& r == hud_default(f)
        &&& (hud_band_lo(f) >= hud_band_end(f) || forall|y: int|
            hud_band_lo(f) <= y < hud_band_end(f) ==> !hud_row_qualifies(f, #[trigger] (y + 0)))
    }
    ||| exists|y: int|
        {
            &&& hud_band_lo(f) <= #[trigger] (y + 0) < hud_band_end(f)
            &&& hud_row_qualifies(f, y)
            &&& r == y + 5
            &&& forall|y2: int|
                hud_band_lo(f) <= y2 < hud_band_end(f) && hud_row_qualifies(f, #[trigger] (y2 + 0))
                    ==> hud_drop_at(f, y2) <= hud_drop_at(f, y)
            &&& forall|y2: int|
                hud_band_lo(f) <= y2 < y && hud_row_qualifies(f, #[trigger] (y2 + 0))
                    ==> hud_drop_at(f, y2) < hud_drop_at(f, y)
        }
}

/// Find where the bottom HUD starts: the biggest brightness drop into a
/// genuinely dark strip, searched in the 74%..90% band of frame height
/// where the HUD is known to live once the frame is game-area-cropped;
/// the earliest row wins a tie. Falls back to 80% of frame height when
/// no qualifying drop exists — in particular on any uniform frame at
/// least 100 pixels wide.
#[verifier::rlimit(60)]
pub fn find_hud_top(f: &Frame) -> (r: u32)
    requires
        f.wf(),
    ensures
        f.height > 0 ==> r < f.height,
        f.height == 0 ==> r == 0,
        f.is_uniform() && f.width >= 100 ==> r == hud_default(*f),
        hud_top_rel(*f, r as int),
{
    let h = f.height;
    let search_top = h * 74 / 100;
    let search_bottom = h * 90 / 100;
    let window: u32 = 5;
    let default_y = h * 80 / 100;
    proof {
        lemma_fundamental_div_mod((h * 74) as int, 100);
        lemma_fundamental_div_mod((h * 90) as int, 100);
        lemma_fundamental_div_mod((h * 80) as int, 100);
    }
    let mut best_drop: i64 = 0;
    let mut best_y: u32 = default_y;
    if search_bottom < window * 2 {
        return best_y;
    }
    let end = search_bottom - window * 2;
    if search_top >= end {
        return best_y;
    }
    let ghost mut best_src: int = 0;
    let mut y: u32 = search_top;
    while y < end
        invariant
            f.wf(),
            window == 5,
            end + 2 * window <= f.height,
            search_top <= y <= end,
            search_top == hud_band_lo(*f),
            end == hud_band_end(*f),
            f.height > 0,
            best_y < f.height,
            default_y == hud_default(*f),
            f.is_uniform() && f.width >= 100 ==> best_y == default_y,
            best_drop == 0 || best_drop > 5000,
            best_drop == 0 ==> best_y == default_y && (forall|y2: int|
                search_top <= y2 < y ==> !hud_row_qualifies(*f, #[trigger] (y2 + 0))),
            best_drop > 5000 ==> {
                &&& search_top <= best_src < y
                &&& hud_row_qualifies(*f, best_src)
                &&& best_y == best_src + 5
                &&& best_drop == hud_drop_at(*f, best_src)
                &&& forall|y2: int|
                    search_top <= y2 < y && hud_row_qualifies(*f, #[trigger] (y2 + 0))
                        ==> hud_drop_at(*f, y2) <= best_drop
                &&& forall|y2: int|
                    search_top <= y2 < best_src && hud_row_qualifies(*f, #[trigger] (y2 + 0))
                        ==> hud_drop_at(*f, y2) < best_drop
            },
        decreases end - y,
    {
        let above = avg_brightness_rows(f, y, window);
        let below = avg_brightness_rows(f, y + window, window);
        let drop: i64 = (above as i64) - (below as i64);
        proof {
            assert(drop == hud_drop_at(*f, y as int));
            if f.is_uniform() && f.width >= 100 {
                crate::game_area::lemma_sampling_nonempty(f.width as int);
            }
        }
        if drop > best_drop && below < 55000 && drop > 5000 {
            best_drop = drop;
            best_y = y + window;
            proof {
                best_src = y as int;
            }
        }
        y = y + 1;
    }
    proof {
        if best_drop == 0 {
            assert(hud_top_rel(*f, best_y as int));
        } else {
            assert(hud_band_lo(*f) <= (best_src + 0) < hud_band_end(*f) && hud_row_qualifies(
                *f,
                best_src,
            ) && best_y == best_src + 5);
            assert(hud_top_rel(*f, best_y as int));
        }
    }
    best_y
}

/// Slot `k` of the normalization of a segmentation to five cards: a
/// perfect five is kept, anything else becomes five equal slices of the
/// overall span with a small inset.
pub open spec fn norm5_start(segs: Seq<(usize, usize)>, k: int) -> int {
    if segs.len() == 5 {
        segs[k].0 as int
    } else {
        let ts = segs[0].0 as int;
        let te = segs[segs.len() - 1].1 as int;
        let cw = (te - ts) / 5;
        ts + k * cw + cw * 3 / 100
    }
}

pub open spec fn norm5_end(segs: Seq<(usize, usize)>, k: int) -> int {
    if segs.len() == 5 {
        segs[k].1 as int
    } else {
        let ts = segs[0].0 as int;
        let te = segs[segs.len() - 1].1 as int;
        let cw = (te - ts) / 5;
        ts + (k + 1) * cw - cw * 3 / 100
    }
}

/// The fixed-point region of normalized slot `k`, spanning vertically
/// from the detected card start down to eight pixels above the bottom.
pub open spec fn slot_region_of(f: Frame, segs: Seq<(usize, usize)>, cys: int, k: int) -> ScreenRegion {
    let h = f.height as int;
    let w = f.width as int;
    let cab = if h >= 8 {
        h - 8
    } else {
        0
    };
    let cys_bp = cys * 10000 / h;
    let cab_bp = cab * 10000 / h;
    let ch_bp = if cab_bp >= cys_bp {
        cab_bp - cys_bp
    } else {
        0
    };
    let s = norm5_start(segs, k);
    let e = norm5_end(segs, k);
    ScreenRegion {
        x: (s * 10000 / w) as u32,
        y: cys_bp as u32,
        width: ((e - s) * 10000 / w) as u32,
        height: ch_bp as u32,
    }
}

/// The smoothed per-column brightness profile of the shop-card strip.
pub open spec fn shop_profile_spec(f: Frame, hud_top: int) -> Seq<u32> {
    let h = f.height as int;
    let w = f.width as int;
    let cat = hud_top + (h - hud_top) / 4;
    let cab = if h >= 8 {
        h - 8
    } else {
        0
    };
    let ystep = if (cab - cat) / 15 >= 1 {
        (cab - cat) / 15
    } else {
        1
    };
    let win = if w / 200 >= 3 {
        w / 200
    } else {
        3
    };
    smoothed_profile_spec(col_profile_spec(f, cat, cab, ystep), win)
}

/// What the shop-card search returns for a HUD boundary at `hud_top`:
/// nothing for a degenerate card band, else — over the thresholded
/// smoothed profile's segment listing — nothing when no segment was
/// found, or the five normalized slots, all sharing the vertical extent
/// from the detected card start.
pub open spec fn shop_cards_rel(f: Frame, hud_top: int, r: Seq<ScreenRegion>) -> bool {
    let h = f.height as int;
    let w = f.width as int;
    let cat = hud_top + (h - hud_top) / 4;
    let cab = if h >= 8 {
        h - 8
    } else {
        0
    };
    if h - hud_top < 20 || cat >= cab || w == 0 {
        r.len() == 0
    } else {
        let sm = shop_profile_spec(f, hud_top);
        exists|t: Seq<u32>, segs: Seq<(usize, usize)>|
            #![trigger sorted_version(t, sm), segments_listing(sm, crate::game_area::thr_of(t), 30, segs)]
            {
                &&& sorted_version(t, sm)
                &&& segments_listing(sm, crate::game_area::thr_of(t), 30, segs)
                &&& if segs.len() == 0 {
                    r.len() == 0
                } else {
                    exists|cys: int|
                        {
                            &&& #[trigger] first_bright_row(
                                f,
                                (segs[0].0 + segs[0].1) / 2,
                                hud_top,
                                cys,
                            )
                            &&& r.len() == 5
                            &&& forall|k: int|
                                0 <= k < 5 ==> r[k] == #[trigger] slot_region_of(f, segs, cys, k)
                        }
                }
            }
    }
}

/// Find the five shop-card regions: build a per-column brightness profile
/// of the lower part of the HUD area, threshold it adaptively, extract
/// bright segments and normalize them to exactly five slots. Returns
/// either five regions inside the unit square or none at all.
#[verifier::rlimit(100)]
pub fn find_shop_cards(f: &Frame, hud_top: u32) -> (r: Vec<ScreenRegion>)
    requires
        f.wf(),
        hud_top <= f.height,
    ensures
        r@.len() == 0 || r@.len() == 5,
        forall|k: int| 0 <= k < r@.len() ==> (#[trigger] r@[k]).in_unit(),
        shop_cards_rel(*f, hud_top as int, r@),
{
    let w = f.width;
    let h = f.height;
    let hud_h = h - hud_top;
    if hud_h < 20 {
        proof {
            assert(shop_cards_rel(*f, hud_top as int, Seq::<ScreenRegion>::empty()));
        }
        return Vec::new();
    }
    let card_area_top = hud_top + hud_h / 4;
    let card_area_bottom = if h >= 8 {
        h - 8
    } else {
        0
    };
    proof {
        lemma_fundamental_div_mod(hud_h as int, 4);
    }
    if card_area_top >= card_area_bottom {
        proof {
            assert(shop_cards_rel(*f, hud_top as int, Seq::<ScreenRegion>::empty()));
        }
        return Vec::new();
    }
    let y_step = if (card_area_bottom - card_area_top) / 15 >= 1 {
        (card_area_bottom - card_area_top) / 15
    } else {
        1
    };
    proof {
        lemma_fundamental_div_mod((card_area_bottom - card_area_top) as int, 15);
        lemma_fundamental_div_mod(w as int, 200);
    }
    let col_bright = column_profile(f, card_area_top, card_area_bottom, y_step);
    let window = if (w as usize) / 200 >= 3 {
        (w as usize) / 200
    } else {
        3
    };
    let smoothed = smooth(&col_bright, window);
    if smoothed.len() == 0 {
        proof {
            assert(w == 0);
            assert(shop_cards_rel(*f, hud_top as int, Seq::<ScreenRegion>::empty()));
        }
        return Vec::new();
    }
    proof {
        assert(col_bright@ =~= col_profile_spec(
            *f,
            card_area_top as int,
            card_area_bottom as int,
            y_step as int,
        ));
        assert(smoothed@ =~= smoothed_profile_spec(col_bright@, window as int));
        assert(smoothed@ == shop_profile_spec(*f, hud_top as int));
    }
    let threshold = adaptive_threshold(&smoothed);
    proof {
        assert(exists|t: Seq<u32>|
            #[trigger] sorted_version(t, smoothed@) && threshold == threshold_of_sorted(t));
    }
    let ghost sorted_wit = choose|t: Seq<u32>|
        #[trigger] sorted_version(t, smoothed@) && threshold == threshold_of_sorted(t);
    proof {
        assert(sorted_version(sorted_wit, smoothed@) && threshold == threshold_of_sorted(
            sorted_wit,
        ));
        assert(thr_of(sorted_wit) == threshold);
    }
    let segments = find_bright_segments(&smoothed, threshold, 30);
    proof {
        if segments@.len() > 0 {
            assert forall|j: int| 0 <= j < segments@.len() implies (#[trigger] segments@[j]).0
                < segments@[j].1 <= f.width by {
                assert(crate::profile::is_bright_segment(
                    smoothed@,
                    threshold,
                    30,
                    segments@[j].0 as int,
                    segments@[j].1 as int,
                ));
            }
            assert forall|j: int| 0 <= j < segments@.len() - 1 implies (#[trigger] segments@[j]).1
                < segments@[j + 1].0 by {
            }
            lemma_segment_chain(segments@, segments@.len() - 1);
        }
    }
    let card_y_start = find_card_y_start(f, hud_top, &segments);
    let cards = normalize_to_five(&segments, w as usize);
    if cards.len() == 0 {
        proof {
            assert(segments@.len() == 0);
            assert(segments_listing(smoothed@, thr_of(sorted_wit), 30, segments@));
            lemma_shop_cards_witnesses(
                *f,
                hud_top as int,
                smoothed@,
                sorted_wit,
                segments@,
                0,
                Seq::<ScreenRegion>::empty(),
            );
        }
        return Vec::new();
    }
    proof {
        lemma_norm_cards_in_frame(segments@, cards@, w as int);
        lemma_cards_are_norm5(segments@, cards@, w as int);
    }
    let out = build_slot_regions(f, &cards, Ghost(segments@), card_y_start, card_area_bottom);
    proof {
        assert(segments_listing(smoothed@, thr_of(sorted_wit), 30, segments@));
        lemma_shop_cards_witnesses(
            *f,
            hud_top as int,
            smoothed@,
            sorted_wit,
            segments@,
            card_y_start as int,
            out@,
        );
    }
    out
}

/// Scale the five normalized card slices into fixed-point regions, all
/// sharing the vertical extent from the detected card start down to the
/// card band's bottom.
fn build_slot_regions(
    f: &Frame,
    cards: &Vec<(usize, usize)>,
    Ghost(segs): Ghost<Seq<(usize, usize)>>,
    card_y_start: u32,
    card_area_bottom: u32,
) -> (out: Vec<ScreenRegion>)
    requires
        f.wf(),
        f.width > 0,
        f.height > 0,
        cards@.len() == 5,
        card_y_start <= f.height,
        card_area_bottom == (if f.height >= 8 {
            (f.height - 8) as int
        } else {
            0int
        }),
        forall|k: int|
            0 <= k < 5 ==> (#[trigger] cards@[k]).0 == norm5_start(segs, k) && cards@[k].1
                == norm5_end(segs, k),
        forall|k: int| 0 <= k < cards@.len() ==> (#[trigger] cards@[k]).0 <= cards@[k].1 <= f.width,
    ensures
        out@.len() == 5,
        forall|k: int| 0 <= k < out@.len() ==> (#[trigger] out@[k]).in_unit(),
        forall|k: int|
            0 <= k < 5 ==> #[trigger] out@[k] == slot_region_of(*f, segs, card_y_start as int, k),
{
    let w = f.width;
    let h = f.height;
    let cys_bp: u32 = (((card_y_start as u64) * 10000) / (h as u64)) as u32;
    let cab_bp: u32 = (((card_area_bottom as u64) * 10000) / (h as u64)) as u32;
    proof {
        lemma_scaled_pair_in_unit(card_y_start as int, 0, h as int);
        lemma_scaled_pair_in_unit(card_area_bottom as int, 0, h as int);
    }
    let card_h_bp: u32 = if cab_bp >= cys_bp {
        cab_bp - cys_bp
    } else {
        0
    };
    let mut out: Vec<ScreenRegion> = Vec::new();
    let mut i: usize = 0;
    while i < cards.len()
        invariant
            f.wf(),
            w == f.width,
            h == f.height,
            h > 0,
            w > 0,
            i <= cards@.len(),
            cards@.len() == 5,
            out@.len() == i,
            cys_bp + card_h_bp <= REGION_SCALE,
            cys_bp == (card_y_start as int) * 10000 / (h as int),
            card_area_bottom == (if h >= 8 {
                (h - 8) as int
            } else {
                0int
            }),
            cab_bp == (card_area_bottom as int) * 10000 / (h as int),
            card_h_bp == (if cab_bp >= cys_bp {
                (cab_bp - cys_bp) as int
            } else {
                0int
            }),
            forall|k: int|
                0 <= k < 5 ==> (#[trigger] cards@[k]).0 == norm5_start(segs, k) && cards@[k].1
                    == norm5_end(segs, k),
            forall|k: int|
                0 <= k < cards@.len() ==> (#[trigger] cards@[k]).0 <= cards@[k].1 <= w,
            forall|k: int| 0 <= k < out@.len() ==> (#[trigger] out@[k]).in_unit(),
            forall|k: int|
                0 <= k < i ==> #[trigger] out@[k] == slot_region_of(
                    *f,
                    segs,
                    card_y_start as int,
                    k,
                ),
        decreases cards@.len() - i,
    {
        let (s, e) = cards[i];
        let x_bp: u32 = (((s as u64) * 10000) / (w as u64)) as u32;
        let w_bp: u32 = ((((e - s) as u64) * 10000) / (w as u64)) as u32;
        proof {
            lemma_scaled_pair_in_unit(s as int, (e - s) as int, w as int);
            assert(s as int == norm5_start(segs, i as int) && e as int == norm5_end(
                segs,
                i as int,
            ));
            assert(out@.push(
                ScreenRegion { x: x_bp, y: cys_bp, width: w_bp, height: card_h_bp },
            )[i as int] == slot_region_of(*f, segs, card_y_start as int, i as int));
        }
        out.push(ScreenRegion { x: x_bp, y: cys_bp, width: w_bp, height: card_h_bp });
        i = i + 1;
    }
    out
}

/// The normalized cards are the `norm5` slices of the segmentation.
proof fn lemma_cards_are_norm5(segs: Seq<(usize, usize)>, cards: Seq<(usize, usize)>, w: int)
    requires
        cards.len() == 5,
        segs.len() > 0,
        segs[0].0 <= segs[segs.len() - 1].1,
        forall|k: int| 0 <= k < segs.len() ==> (#[trigger] segs[k]).0 <= segs[k].1 <= w,
        w <= 16384,
        segs.len() == 5 ==> cards == segs,
        segs.len() != 5 ==> {
            let total_start = segs[0].0 as int;
            let total_end = segs[segs.len() - 1].1 as int;
            let card_width = (total_end - total_start) / 5;
            let gap = card_width * 3 / 100;
            forall|k: int|
                0 <= k < 5 ==> #[trigger] cards[k] == (
                ((total_start + k * card_width + gap) as usize), ((total_start + (k + 1)
                    * card_width - gap) as usize))
        },
    ensures
        forall|k: int|
            0 <= k < 5 ==> (#[trigger] cards[k]).0 == norm5_start(segs, k) && cards[k].1
                == norm5_end(segs, k),
{
    if segs.len() == 5 {
    } else {
        let ts = segs[0].0 as int;
        let te = segs[segs.len() - 1].1 as int;
        let cw = (te - ts) / 5;
        let gap = cw * 3 / 100;
        lemma_fundamental_div_mod(te - ts, 5);
        lemma_mod_bound(te - ts, 5);
        lemma_fundamental_div_mod(cw * 3, 100);
        lemma_mod_bound(cw * 3, 100);
        assert(0 <= cw && 5 * cw <= te - ts && 0 <= gap && 100 * gap <= cw * 3);
        assert forall|k: int|
            0 <= k < 5 implies (#[trigger] cards[k]).0 == norm5_start(segs, k) && cards[k].1
            == norm5_end(segs, k) by {
            assert(0 <= k * cw && (k + 1) * cw <= 5 * cw && k * cw + cw == (k + 1) * cw && gap
                <= cw) by (nonlinear_arith)
                requires
                    0 <= k < 5,
                    cw >= 0,
                    100 * gap <= cw * 3,
                    gap >= 0,
            ;
            assert(0 <= ts + k * cw + gap <= te && 0 <= ts + (k + 1) * cw - gap <= te);
        }
    }
}

/// Package the witnesses of one concrete shop-card run into the
/// shop-card relation.
proof fn lemma_shop_cards_witnesses(
    f: Frame,
    hud_top: int,
    sm: Seq<u32>,
    t: Seq<u32>,
    segs: Seq<(usize, usize)>,
    cys: int,
    r: Seq<ScreenRegion>,
)
    requires
        ({
            let h = f.height as int;
            let w = f.width as int;
            let cat = hud_top + (h - hud_top) / 4;
            let cab = if h >= 8 {
                h - 8
            } else {
                0
            };
            &&& !(h - hud_top < 20 || cat >= cab || w == 0)
            &&& sm == shop_profile_spec(f, hud_top)
        }),
        sorted_version(t, sm),
        segments_listing(sm, thr_of(t), 30, segs),
        segs.len() == 0 ==> r.len() == 0,
        segs.len() > 0 ==> {
            &&& first_bright_row(f, (segs[0].0 + segs[0].1) / 2, hud_top, cys)
            &&& r.len() == 5
            &&& forall|k: int| 0 <= k < 5 ==> r[k] == #[trigger] slot_region_of(f, segs, cys, k)
        },
    ensures
        shop_cards_rel(f, hud_top, r),
{
    let smx = shop_profile_spec(f, hud_top);
    assert(sorted_version(t, smx));
    assert(segments_listing(smx, thr_of(t), 30, segs));
    if segs.len() > 0 {
        assert(first_bright_row(f, (segs[0].0 + segs[0].1) / 2, hud_top, cys));
        assert(exists|cys2: int|
            {
                &&& #[trigger] first_bright_row(f, (segs[0].0 + segs[0].1) / 2, hud_top, cys2)
                &&& r.len() == 5
                &&& forall|k: int|
                    0 <= k < 5 ==> r[k] == #[trigger] slot_region_of(f, segs, cys2, k)
            });
    }
}

/// In an ordered segmentation, the first start never passes any end.
proof fn lemma_segment_chain(segs: Seq<(usize, usize)>, k: int)
    requires
        0 <= k < segs.len(),
        forall|j: int| 0 <= j < segs.len() ==> (#[trigger] segs[j]).0 < segs[j].1,
        forall|j: int| 0 <= j < segs.len() - 1 ==> (#[trigger] segs[j]).1 < segs[j + 1].0,
    ensures
        segs[0].0 <= segs[k].1,
    decreases k,
{
    if k > 0 {
        lemma_segment_chain(segs, k - 1);
        assert((segs[k - 1]).1 < segs[k].0);
        assert((segs[k]).0 < segs[k].1);
    }
}

/// The normalized five-card slices stay inside the frame width.
proof fn lemma_norm_cards_in_frame(segments: Seq<(usize, usize)>, cards: Seq<(usize, usize)>, w: int)
    requires
        cards.len() == 5,
        segments.len() > 0,
        segments[0].0 <= segments[segments.len() - 1].1,
        forall|k: int| 0 <= k < segments.len() ==> (#[trigger] segments[k]).0 <= segments[k].1 <= w,
        segments.len() != 5 ==> {
            let total_start = segments[0].0 as int;
            let total_end = segments[segments.len() - 1].1 as int;
            let card_width = (total_end - total_start) / 5;
            let gap = card_width * 3 / 100;
            forall|k: int|
                0 <= k < 5 ==> #[trigger] cards[k] == (
                ((total_start + k * card_width + gap) as usize), ((total_start + (k + 1)
                    * card_width - gap) as usize))
        },
        segments.len() == 5 ==> cards == segments,
    ensures
        forall|k: int| 0 <= k < cards.len() ==> (#[trigger] cards[k]).0 <= cards[k].1 <= w,
{
    if segments.len() == 5 {
    } else {
        let ts = segments[0].0 as int;
        let te = segments[segments.len() - 1].1 as int;
        let cw = (te - ts) / 5;
        let gap = cw * 3 / 100;
        lemma_fundamental_div_mod(te - ts, 5);
        lemma_mod_bound(te - ts, 5);
        lemma_fundamental_div_mod(cw * 3, 100);
        lemma_mod_bound(cw * 3, 100);
        assert(0 <= ts <= te <= w);
        assert(cw >= 0 && 5 * cw <= te - ts);
        assert(100 * gap <= cw * 3);
        assert(gap <= cw);
        assert forall|k: int| 0 <= k < cards.len() implies (#[trigger] cards[k]).0 <= cards[k].1
            <= w by {
            assert(k * cw + cw == (k + 1) * cw && 0 <= k * cw && (k + 1) * cw <= 5 * cw)
                by (nonlinear_arith)
                requires
                    0 <= k < 5,
                    cw >= 0,
            ;
        }
    }
}

/// `r` is the first row at or below `hud_top` whose pixel in column
/// `mid` exceeds the card-art brightness floor, or `hud_top` itself when
/// no row below does.
pub open spec fn first_bright_row(f: Frame, mid: int, hud_top: int, r: int) -> bool {
    ||| {
        &&& hud_top <= r < f.height
        &&& f.sum3(mid, r) > 135
        &&& forall|y: int| hud_top <= y < r ==> f.sum3(mid, #[trigger] (y + 0)) <= 135
    }
    ||| {
        &&& r == hud_top
        &&& forall|y: int| hud_top <= y < f.height ==> f.sum3(mid, #[trigger] (y + 0)) <= 135
    }
}

/// Scan one representative card column downward from the HUD boundary
/// until the brightness rises above the card-art floor; that row is where
/// card content actually starts. Falls back to the HUD boundary itself.
pub fn find_card_y_start(f: &Frame, hud_top: u32, cards: &Vec<(usize, usize)>) -> (r: u32)
    requires
        f.wf(),
        hud_top <= f.height,
        forall|k: int|
            0 <= k < cards@.len() ==> (#[trigger] cards@[k]).0 < cards@[k].1 <= f.width,
    ensures
        hud_top <= r,
        r <= f.height,
        r < f.height || r == hud_top,
        cards@.len() == 0 ==> r == hud_top,
        cards@.len() > 0 ==> first_bright_row(
            *f,
            (cards@[0].0 + cards@[0].1) / 2,
            hud_top as int,
            r as int,
        ),
{
    if cards.len() == 0 {
        return hud_top;
    }
    let c0 = cards[0];
    let mid_x: u32 = ((c0.0 + c0.1) / 2) as u32;
    proof {
        lemma_fundamental_div_mod((c0.0 + c0.1) as int, 2);
    }
    let mut y: u32 = hud_top;
    while y < f.height
        invariant
            f.wf(),
            hud_top <= y <= f.height,
            cards@.len() > 0,
            c0 == cards@[0],
            mid_x < f.width,
            mid_x == (c0.0 + c0.1) / 2,
            forall|y2: int|
                hud_top <= y2 < y ==> f.sum3(mid_x as int, #[trigger] (y2 + 0)) <= 135,
        decreases f.height - y,
    {
        let px = f.pixel(mid_x, y);
        let b: u32 = (px.0 as u32) + (px.1 as u32) + (px.2 as u32);
        if b > 135 {
            return y;
        }
        y = y + 1;
    }
    hud_top
}

/// A gold-coin colored pixel: red high, green moderate-high, blue low,
/// with a clear red-blue spread.
pub open spec fn is_gold_pixel(f: Frame, x: int, y: int) -> bool {
    &&& f.chan(x, y, 0) > 160
    &&& f.chan(x, y, 1) > 120
    &&& f.chan(x, y, 2) < 120
    &&& f.chan(x, y, 0) - f.chan(x, y, 2) > 60
}

/// Some gold-colored pixel exists in the middle 60% of the rows
/// `[bar_top, bar_bottom)`.
pub open spec fn has_gold_pixel(f: Frame, bar_top: int, bar_bottom: int) -> bool {
    exists|x: int, y: int|
        f.width as int / 5 <= x < f.width as int * 4 / 5 && bar_top <= y < bar_bottom
            && #[trigger] is_gold_pixel(f, x, y)
}

/// The multiset of x coordinates of the gold-colored pixels in columns
/// `[x0, x1)` of row `y`.
pub open spec fn gold_xs_in_row(f: Frame, y: int, x0: int, x1: int) -> Multiset<u32>
    decreases x1 - x0,
{
    if x0 >= x1 {
        Multiset::empty()
    } else {
        let rest = gold_xs_in_row(f, y, x0, x1 - 1);
        if is_gold_pixel(f, x1 - 1, y) {
            rest.insert((x1 - 1) as u32)
        } else {
            rest
        }
    }
}

/// The multiset of y coordinates of the gold-colored pixels in columns
/// `[x0, x1)` of row `y` (one copy of `y` per match).
pub open spec fn gold_ys_in_row(f: Frame, y: int, x0: int, x1: int) -> Multiset<u32>
    decreases x1 - x0,
{
    if x0 >= x1 {
        Multiset::empty()
    } else {
        let rest = gold_ys_in_row(f, y, x0, x1 - 1);
        if is_gold_pixel(f, x1 - 1, y) {
            rest.insert(y as u32)
        } else {
            rest
        }
    }
}

/// The multisets over the rows `[y0, y1)`.
pub open spec fn gold_xs_in_band(f: Frame, y0: int, y1: int, x0: int, x1: int) -> Multiset<u32>
    decreases y1 - y0,
{
    if y0 >= y1 {
        Multiset::empty()
    } else {
        gold_xs_in_band(f, y0, y1 - 1, x0, x1).add(gold_xs_in_row(f, y1 - 1, x0, x1))
    }
}

pub open spec fn gold_ys_in_band(f: Frame, y0: int, y1: int, x0: int, x1: int) -> Multiset<u32>
    decreases y1 - y0,
{
    if y0 >= y1 {
        Multiset::empty()
    } else {
        gold_ys_in_band(f, y0, y1 - 1, x0, x1).add(gold_ys_in_row(f, y1 - 1, x0, x1))
    }
}

/// `t` is the ascending listing of the multiset `m`.
pub open spec fn sorted_of_mset(t: Seq<u32>, m: Multiset<u32>) -> bool {
    &&& crate::profile::is_sorted(t)
    &&& t.to_multiset() == m
}

/// Find the gold counter: locate gold-coin colored pixels in the HUD bar,
/// take the median x and the vertical extent of the matches as the coin,
/// and place the number region just right of the coin with a fixed width
/// budget. `None` exactly when the band is degenerate or no gold-colored
/// pixel is found.
pub fn find_gold_region(f: &Frame, bar_top: u32, bar_bottom: u32) -> (r: Option<ScreenRegion>)
    requires
        f.wf(),
        bar_bottom <= f.height,
    ensures
        bar_top >= bar_bottom || bar_bottom - bar_top < 3 ==> r is None,
        bar_top < bar_bottom && bar_bottom - bar_top >= 3 ==> (r is Some <==> has_gold_pixel(
            *f,
            bar_top as int,
            bar_bottom as int,
        )),
        match r {
            Some(reg) => f.width > 0 && f.height > 0 && exists|xs: Seq<u32>, ys: Seq<u32>|
                #![trigger sorted_of_mset(xs, gold_xs_in_band(*f, bar_top as int, bar_bottom as int, f.width as int / 5, f.width as int * 4 / 5)), sorted_of_mset(ys, gold_ys_in_band(*f, bar_top as int, bar_bottom as int, f.width as int / 5, f.width as int * 4 / 5))]
                {
                    &&& sorted_of_mset(
                        xs,
                        gold_xs_in_band(
                            *f,
                            bar_top as int,
                            bar_bottom as int,
                            f.width as int / 5,
                            f.width as int * 4 / 5,
                        ),
                    )
                    &&& sorted_of_mset(
                        ys,
                        gold_ys_in_band(
                            *f,
                            bar_top as int,
                            bar_bottom as int,
                            f.width as int / 5,
                            f.width as int * 4 / 5,
                        ),
                    )
                    &&& xs.len() > 0
                    &&& ys.len() == xs.len()
                    &&& reg.x == (xs[xs.len() as int / 2] + 12) * 10000 / (f.width as int)
                    &&& reg.width == 500000int / (f.width as int)
                    &&& reg.y == (if ys[0] >= 3 {
                        ys[0] - 3
                    } else {
                        0int
                    }) * 10000 / (f.height as int)
                    &&& reg.height == (if ys[ys.len() - 1] - ys[0] + 8 >= 15 {
                        ys[ys.len() - 1] - ys[0] + 8
                    } else {
                        15int
                    }) * 10000 / (f.height as int)
                },
            None => true,
        },
{
    let w = f.width;
    let h = f.height;
    if bar_top >= bar_bottom || bar_bottom - bar_top < 3 {
        return None;
    }
    let mut gold_xs: Vec<u32> = Vec::new();
    let mut gold_ys: Vec<u32> = Vec::new();
    let x_lo = w / 5;
    let x_hi = w * 4 / 5;
    proof {
        lemma_fundamental_div_mod(w as int, 5);
        lemma_fundamental_div_mod((w * 4) as int, 5);
    }
    proof {
        broadcast use vstd::seq_lib::group_to_multiset_ensures;

        assert(gold_xs@.to_multiset() =~= gold_xs_in_band(
            *f,
            bar_top as int,
            bar_top as int,
            x_lo as int,
            x_hi as int,
        ));
        assert(gold_ys@.to_multiset() =~= gold_ys_in_band(
            *f,
            bar_top as int,
            bar_top as int,
            x_lo as int,
            x_hi as int,
        ));
    }
    let mut y: u32 = bar_top;
    while y < bar_bottom
        invariant
            f.wf(),
            w == f.width,
            h == f.height,
            bar_top <= y <= bar_bottom,
            bar_bottom <= f.height,
            x_lo == f.width as int / 5,
            x_hi == f.width as int * 4 / 5,
            x_hi <= f.width,
            gold_xs@.len() == gold_ys@.len(),
            gold_xs@.len() > 0 <==> (exists|xx: int, yy: int|
                x_lo <= xx < x_hi && bar_top <= yy < y && #[trigger] is_gold_pixel(*f, xx, yy)),
            forall|k: int|
                0 <= k < gold_xs@.len() ==> x_lo <= #[trigger] gold_xs@[k] < x_hi,
            forall|k: int|
                0 <= k < gold_ys@.len() ==> bar_top <= #[trigger] gold_ys@[k] < bar_bottom,
            forall|k: int|
                0 <= k < gold_xs@.len() ==> is_gold_pixel(
                    *f,
                    #[trigger] gold_xs@[k] as int,
                    gold_ys@[k] as int,
                ),
            gold_xs@.to_multiset() == gold_xs_in_band(
                *f,
                bar_top as int,
                y as int,
                x_lo as int,
                x_hi as int,
            ),
            gold_ys@.to_multiset() == gold_ys_in_band(
                *f,
                bar_top as int,
                y as int,
                x_lo as int,
                x_hi as int,
            ),
        decreases bar_bottom - y,
    {
        proof {
            assert(gold_xs@.to_multiset() =~= gold_xs_in_band(
                *f,
                bar_top as int,
                y as int,
                x_lo as int,
                x_hi as int,
            ).add(gold_xs_in_row(*f, y as int, x_lo as int, x_lo as int)));
            assert(gold_ys@.to_multiset() =~= gold_ys_in_band(
                *f,
                bar_top as int,
                y as int,
                x_lo as int,
                x_hi as int,
            ).add(gold_ys_in_row(*f, y as int, x_lo as int, x_lo as int)));
        }
        let mut x: u32 = x_lo;
        while x < x_hi
            invariant
                f.wf(),
                w == f.width,
                h == f.height,
                bar_top <= y < bar_bottom,
                bar_bottom <= f.height,
                x_lo == f.width as int / 5,
                x_hi == f.width as int * 4 / 5,
                x_hi <= f.width,
                x_lo <= x <= x_hi,
                gold_xs@.len() == gold_ys@.len(),
                gold_xs@.len() > 0 <==> ((exists|xx: int, yy: int|
                    x_lo <= xx < x_hi && bar_top <= yy < y && #[trigger] is_gold_pixel(
                        *f,
                        xx,
                        yy,
                    )) || (exists|xx: int|
                    x_lo <= xx < x && #[trigger] is_gold_pixel(*f, xx, y as int))),
                forall|k: int|
                    0 <= k < gold_xs@.len() ==> x_lo <= #[trigger] gold_xs@[k] < x_hi,
                forall|k: int|
                    0 <= k < gold_ys@.len() ==> bar_top <= #[trigger] gold_ys@[k] < bar_bottom,
                forall|k: int|
                    0 <= k < gold_xs@.len() ==> is_gold_pixel(
                        *f,
                        #[trigger] gold_xs@[k] as int,
                        gold_ys@[k] as int,
                    ),
                gold_xs@.to_multiset() == gold_xs_in_band(
                    *f,
                    bar_top as int,
                    y as int,
                    x_lo as int,
                    x_hi as int,
                ).add(gold_xs_in_row(*f, y as int, x_lo as int, x as int)),
                gold_ys@.to_multiset() == gold_ys_in_band(
                    *f,
                    bar_top as int,
                    y as int,
                    x_lo as int,
                    x_hi as int,
                ).add(gold_ys_in_row(*f, y as int, x_lo as int, x as int)),
            decreases x_hi - x,
        {
            proof {
                broadcast use vstd::seq_lib::group_to_multiset_ensures;

            }
            let px = f.pixel(x, y);
            if px.0 > 160 && px.1 > 120 && px.2 < 120 && (px.0 as i32) - (px.2 as i32) > 60 {
                proof {
                    assert(is_gold_pixel(*f, x as int, y as int));
                }
                gold_xs.push(x);
                gold_ys.push(y);
                proof {
                    assert(gold_xs_in_row(*f, y as int, x_lo as int, x + 1) == gold_xs_in_row(
                        *f,
                        y as int,
                        x_lo as int,
                        x as int,
                    ).insert(x));
                    assert(gold_xs@.to_multiset() =~= gold_xs_in_band(
                        *f,
                        bar_top as int,
                        y as int,
                        x_lo as int,
                        x_hi as int,
                    ).add(gold_xs_in_row(*f, y as int, x_lo as int, x + 1)));
                    assert(gold_ys@.to_multiset() =~= gold_ys_in_band(
                        *f,
                        bar_top as int,
                        y as int,
                        x_lo as int,
                        x_hi as int,
                    ).add(gold_ys_in_row(*f, y as int, x_lo as int, x + 1)));
                }
            }
            x = x + 1;
        }
        proof {
            assert(gold_xs@.to_multiset() =~= gold_xs_in_band(
                *f,
                bar_top as int,
                y + 1,
                x_lo as int,
                x_hi as int,
            ));
            assert(gold_ys@.to_multiset() =~= gold_ys_in_band(
                *f,
                bar_top as int,
                y + 1,
                x_lo as int,
                x_hi as int,
            ));
        }
        y = y + 1;
    }
    if gold_xs.len() == 0 {
        return None;
    }
    let sorted_xs = crate::profile::sort_u32(&gold_xs);
    let sorted_ys = crate::profile::sort_u32(&gold_ys);
    proof {
        assert(sorted_xs@.len() == gold_xs@.len());
        assert(sorted_ys@.len() == gold_ys@.len());
    }
    let kmid: usize = sorted_xs.len() / 2;
    let coin_x = sorted_xs[kmid];
    let coin_y_min = sorted_ys[0];
    let coin_y_max = sorted_ys[sorted_ys.len() - 1];
    let ghost coin_src: int = 0;
    proof {
        lemma_fundamental_div_mod(sorted_xs@.len() as int, 2);
        crate::profile::lemma_sorted_elem_from(sorted_xs@, gold_xs@, kmid as int);
        crate::profile::lemma_sorted_elem_from(sorted_ys@, gold_ys@, 0);
        crate::profile::lemma_sorted_elem_from(sorted_ys@, gold_ys@, sorted_ys@.len() - 1);
        lemma_sorted_pair_ordered(sorted_ys@, 0, sorted_ys@.len() - 1);
        let j = choose|j: int| 0 <= j < gold_xs@.len() && gold_xs@[j] == coin_x;
        assert(is_gold_pixel(*f, gold_xs@[j] as int, gold_ys@[j] as int));
    }
    let text_x: u32 = coin_x + 12;
    let region_y: u32 = if coin_y_min >= 3 {
        coin_y_min - 3
    } else {
        0
    };
    let region_h: u32 = if coin_y_max - coin_y_min + 8 >= 15 {
        coin_y_max - coin_y_min + 8
    } else {
        15
    };
    let out = ScreenRegion {
        x: (((text_x as u64) * 10000) / (w as u64)) as u32,
        y: (((region_y as u64) * 10000) / (h as u64)) as u32,
        width: ((50u64 * 10000) / (w as u64)) as u32,
        height: (((region_h as u64) * 10000) / (h as u64)) as u32,
    };
    proof {
        assert(sorted_of_mset(
            sorted_xs@,
            gold_xs_in_band(
                *f,
                bar_top as int,
                bar_bottom as int,
                f.width as int / 5,
                f.width as int * 4 / 5,
            ),
        ));
        assert(sorted_of_mset(
            sorted_ys@,
            gold_ys_in_band(
                *f,
                bar_top as int,
                bar_bottom as int,
                f.width as int / 5,
                f.width as int * 4 / 5,
            ),
        ));
        assert(out.x == (sorted_xs@[sorted_xs@.len() as int / 2] + 12) * 10000 / (f.width as int));
        assert(out.y == (if sorted_ys@[0] >= 3 {
            sorted_ys@[0] - 3
        } else {
            0int
        }) * 10000 / (f.height as int));
        assert(out.height == (if sorted_ys@[sorted_ys@.len() - 1] - sorted_ys@[0] + 8 >= 15 {
            sorted_ys@[sorted_ys@.len() - 1] - sorted_ys@[0] + 8
        } else {
            15int
        }) * 10000 / (f.height as int));
    }
    Some(out)
}

/// A pixel bright or gold-toned enough to be level text.
pub open spec fn is_level_pixel(f: Frame, x: int, y: int) -> bool {
    ||| (f.chan(x, y, 0) + f.chan(x, y, 1) + f.chan(x, y, 2)) / 3 > 150
    ||| (f.chan(x, y, 0) > 180 && f.chan(x, y, 1) > 150 && f.chan(x, y, 2) < 120)
}

/// Number of level-text pixels in one row of the search band.
pub open spec fn level_row_count(f: Frame, y: int, x0: int, x1: int) -> int
    decreases x1 - x0,
{
    if x0 >= x1 {
        0
    } else {
        level_row_count(f, y, x0, x1 - 1) + (if is_level_pixel(f, x1 - 1, y) {
            1int
        } else {
            0int
        })
    }
}

/// Number of level-text pixels in the whole search band.
pub open spec fn level_count(f: Frame, y0: int, y1: int, x0: int, x1: int) -> int
    decreases y1 - y0,
{
    if y0 >= y1 {
        0
    } else {
        level_count(f, y0, y1 - 1, x0, x1) + level_row_count(f, y1 - 1, x0, x1)
    }
}

/// The multisets of x and y coordinates of level-text pixels, per row
/// and over the band, mirroring the gold-pixel versions.
pub open spec fn level_xs_in_row(f: Frame, y: int, x0: int, x1: int) -> Multiset<u32>
    decreases x1 - x0,
{
    if x0 >= x1 {
        Multiset::empty()
    } else {
        let rest = level_xs_in_row(f, y, x0, x1 - 1);
        if is_level_pixel(f, x1 - 1, y) {
            rest.insert((x1 - 1) as u32)
        } else {
            rest
        }
    }
}

pub open spec fn level_ys_in_row(f: Frame, y: int, x0: int, x1: int) -> Multiset<u32>
    decreases x1 - x0,
{
    if x0 >= x1 {
        Multiset::empty()
    } else {
        let rest = level_ys_in_row(f, y, x0, x1 - 1);
        if is_level_pixel(f, x1 - 1, y) {
            rest.insert(y as u32)
        } else {
            rest
        }
    }
}

pub open spec fn level_xs_in_band(f: Frame, y0: int, y1: int, x0: int, x1: int) -> Multiset<u32>
    decreases y1 - y0,
{
    if y0 >= y1 {
        Multiset::empty()
    } else {
        level_xs_in_band(f, y0, y1 - 1, x0, x1).add(level_xs_in_row(f, y1 - 1, x0, x1))
    }
}

pub open spec fn level_ys_in_band(f: Frame, y0: int, y1: int, x0: int, x1: int) -> Multiset<u32>
    decreases y1 - y0,
{
    if y0 >= y1 {
        Multiset::empty()
    } else {
        level_ys_in_band(f, y0, y1 - 1, x0, x1).add(level_ys_in_row(f, y1 - 1, x0, x1))
    }
}

/// Find the level indicator: bright or gold-toned text pixels in a fixed
/// 10%..22% horizontal band of the HUD bar, bounded by trimmed
/// percentiles of the matches to reject outliers, then padded. `None`
/// exactly when the band is degenerate or fewer than five pixels match.
pub fn find_level_region(f: &Frame, bar_top: u32, bar_bottom: u32) -> (r: Option<ScreenRegion>)
    requires
        f.wf(),
        bar_bottom <= f.height,
    ensures
        bar_top >= bar_bottom ==> r is None,
        bar_top < bar_bottom ==> ((r is Some) <==> level_count(
            *f,
            bar_top as int,
            bar_bottom as int,
            f.width as int * 10 / 100,
            f.width as int * 22 / 100,
        ) >= 5),
        match r {
            Some(reg) => f.width > 0 && f.height > 0 && exists|xs: Seq<u32>, ys: Seq<u32>|
                #![trigger sorted_of_mset(xs, level_xs_in_band(*f, bar_top as int, bar_bottom as int, f.width as int * 10 / 100, f.width as int * 22 / 100)), sorted_of_mset(ys, level_ys_in_band(*f, bar_top as int, bar_bottom as int, f.width as int * 10 / 100, f.width as int * 22 / 100))]
                {
                    &&& sorted_of_mset(
                        xs,
                        level_xs_in_band(
                            *f,
                            bar_top as int,
                            bar_bottom as int,
                            f.width as int * 10 / 100,
                            f.width as int * 22 / 100,
                        ),
                    )
                    &&& sorted_of_mset(
                        ys,
                        level_ys_in_band(
                            *f,
                            bar_top as int,
                            bar_bottom as int,
                            f.width as int * 10 / 100,
                            f.width as int * 22 / 100,
                        ),
                    )
                    &&& xs.len() >= 5
                    &&& ys.len() == xs.len()
                    &&& ({
                        let klo = xs.len() as int * 5 / 100;
                        let khi = xs.len() as int * 95 / 100;
                        let rx = if xs[klo] >= 4 {
                            xs[klo] - 4
                        } else {
                            0int
                        };
                        let ry = if ys[klo] >= 4 {
                            ys[klo] - 4
                        } else {
                            0int
                        };
                        let rw = if xs[khi] - xs[klo] + 8 >= 20 {
                            xs[khi] - xs[klo] + 8
                        } else {
                            20int
                        };
                        let rh = if ys[khi] - ys[klo] + 8 >= 15 {
                            ys[khi] - ys[klo] + 8
                        } else {
                            15int
                        };
                        &&& reg.x == rx * 10000 / (f.width as int)
                        &&& reg.y == ry * 10000 / (f.height as int)
                        &&& reg.width == rw * 10000 / (f.width as int)
                        &&& reg.height == rh * 10000 / (f.height as int)
                    })
                },
            None => true,
        },
{
    let w = f.width;
    let h = f.height;
    if bar_top >= bar_bottom {
        return None;
    }
    let x_lo = w * 10 / 100;
    let x_hi = w * 22 / 100;
    proof {
        lemma_fundamental_div_mod((w * 10) as int, 100);
        lemma_fundamental_div_mod((w * 22) as int, 100);
    }
    let mut text_xs: Vec<u32> = Vec::new();
    let mut text_ys: Vec<u32> = Vec::new();
    proof {
        broadcast use vstd::seq_lib::group_to_multiset_ensures;

        assert(text_xs@.to_multiset() =~= level_xs_in_band(
            *f,
            bar_top as int,
            bar_top as int,
            x_lo as int,
            x_hi as int,
        ));
        assert(text_ys@.to_multiset() =~= level_ys_in_band(
            *f,
            bar_top as int,
            bar_top as int,
            x_lo as int,
            x_hi as int,
        ));
    }
    let mut y: u32 = bar_top;
    while y < bar_bottom
        invariant
            f.wf(),
            w == f.width,
            h == f.height,
            bar_top <= y <= bar_bottom,
            bar_bottom <= f.height,
            x_lo == f.width as int * 10 / 100,
            x_hi == f.width as int * 22 / 100,
            x_hi <= f.width,
            text_xs@.len() == text_ys@.len(),
            text_xs@.len() == level_count(*f, bar_top as int, y as int, x_lo as int, x_hi as int),
            forall|k: int| 0 <= k < text_xs@.len() ==> x_lo <= #[trigger] text_xs@[k] < x_hi,
            forall|k: int|
                0 <= k < text_ys@.len() ==> bar_top <= #[trigger] text_ys@[k] < bar_bottom,
            text_xs@.to_multiset() == level_xs_in_band(
                *f,
                bar_top as int,
                y as int,
                x_lo as int,
                x_hi as int,
            ),
            text_ys@.to_multiset() == level_ys_in_band(
                *f,
                bar_top as int,
                y as int,
                x_lo as int,
                x_hi as int,
            ),
        decreases bar_bottom - y,
    {
        proof {
            assert(text_xs@.to_multiset() =~= level_xs_in_band(
                *f,
                bar_top as int,
                y as int,
                x_lo as int,
                x_hi as int,
            ).add(level_xs_in_row(*f, y as int, x_lo as int, x_lo as int)));
            assert(text_ys@.to_multiset() =~= level_ys_in_band(
                *f,
                bar_top as int,
                y as int,
                x_lo as int,
                x_hi as int,
            ).add(level_ys_in_row(*f, y as int, x_lo as int, x_lo as int)));
        }
        let mut x: u32 = x_lo;
        while x < x_hi
            invariant
                f.wf(),
                w == f.width,
                h == f.height,
                bar_top <= y < bar_bottom,
                bar_bottom <= f.height,
                x_lo == f.width as int * 10 / 100,
                x_hi == f.width as int * 22 / 100,
                x_hi <= f.width,
                x_lo <= x <= x_hi,
                text_xs@.len() == text_ys@.len(),
                text_xs@.len() == level_count(
                    *f,
                    bar_top as int,
                    y as int,
                    x_lo as int,
                    x_hi as int,
                ) + level_row_count(*f, y as int, x_lo as int, x as int),
                forall|k: int| 0 <= k < text_xs@.len() ==> x_lo <= #[trigger] text_xs@[k] < x_hi,
                forall|k: int|
                    0 <= k < text_ys@.len() ==> bar_top <= #[trigger] text_ys@[k] < bar_bottom,
                text_xs@.to_multiset() == level_xs_in_band(
                    *f,
                    bar_top as int,
                    y as int,
                    x_lo as int,
                    x_hi as int,
                ).add(level_xs_in_row(*f, y as int, x_lo as int, x as int)),
                text_ys@.to_multiset() == level_ys_in_band(
                    *f,
                    bar_top as int,
                    y as int,
                    x_lo as int,
                    x_hi as int,
                ).add(level_ys_in_row(*f, y as int, x_lo as int, x as int)),
            decreases x_hi - x,
        {
            proof {
                broadcast use vstd::seq_lib::group_to_multiset_ensures;

            }
            let px = f.pixel(x, y);
            let brightness: u32 = ((px.0 as u32) + (px.1 as u32) + (px.2 as u32)) / 3;
            if brightness > 150 || (px.0 > 180 && px.1 > 150 && px.2 < 120) {
                proof {
                    assert(is_level_pixel(*f, x as int, y as int));
                }
                text_xs.push(x);
                text_ys.push(y);
                proof {
                    assert(text_xs@.to_multiset() =~= level_xs_in_band(
                        *f,
                        bar_top as int,
                        y as int,
                        x_lo as int,
                        x_hi as int,
                    ).add(level_xs_in_row(*f, y as int, x_lo as int, x + 1)));
                    assert(text_ys@.to_multiset() =~= level_ys_in_band(
                        *f,
                        bar_top as int,
                        y as int,
                        x_lo as int,
                        x_hi as int,
                    ).add(level_ys_in_row(*f, y as int, x_lo as int, x + 1)));
                }
            } else {
                proof {
                    assert(!is_level_pixel(*f, x as int, y as int));
                }
            }
            x = x + 1;
        }
        proof {
            assert(text_xs@.to_multiset() =~= level_xs_in_band(
                *f,
                bar_top as int,
                y + 1,
                x_lo as int,
                x_hi as int,
            ));
            assert(text_ys@.to_multiset() =~= level_ys_in_band(
                *f,
                bar_top as int,
                y + 1,
                x_lo as int,
                x_hi as int,
            ));
        }
        y = y + 1;
    }
    if text_xs.len() < 5 {
        return None;
    }
    let sorted_xs = crate::profile::sort_u32(&text_xs);
    let sorted_ys = crate::profile::sort_u32(&text_ys);
    let n = sorted_xs.len();
    proof {
        lemma_fundamental_div_mod((n as int) * 5, 100);
        lemma_fundamental_div_mod((n as int) * 95, 100);
    }
    let k_lo: usize = (((n as u128) * 5) / 100) as usize;
    let k_hi: usize = (((n as u128) * 95) / 100) as usize;
    proof {
        assert(k_lo <= k_hi < n);
    }
    let x_min = sorted_xs[k_lo];
    let x_max = sorted_xs[k_hi];
    let y_min = sorted_ys[k_lo];
    let y_max = sorted_ys[k_hi];
    proof {
        crate::profile::lemma_sorted_elem_from(sorted_xs@, text_xs@, k_lo as int);
        crate::profile::lemma_sorted_elem_from(sorted_xs@, text_xs@, k_hi as int);
        crate::profile::lemma_sorted_elem_from(sorted_ys@, text_ys@, k_lo as int);
        crate::profile::lemma_sorted_elem_from(sorted_ys@, text_ys@, k_hi as int);
        lemma_sorted_pair_ordered(sorted_xs@, k_lo as int, k_hi as int);
        lemma_sorted_pair_ordered(sorted_ys@, k_lo as int, k_hi as int);
    }
    let pad: u32 = 4;
    let region_x: u32 = if x_min >= pad {
        x_min - pad
    } else {
        0
    };
    let region_y: u32 = if y_min >= pad {
        y_min - pad
    } else {
        0
    };
    let region_w: u32 = if x_max - x_min + pad * 2 >= 20 {
        x_max - x_min + pad * 2
    } else {
        20
    };
    let region_h: u32 = if y_max - y_min + pad * 2 >= 15 {
        y_max - y_min + pad * 2
    } else {
        15
    };
    let out = ScreenRegion {
        x: (((region_x as u64) * 10000) / (w as u64)) as u32,
        y: (((region_y as u64) * 10000) / (h as u64)) as u32,
        width: (((region_w as u64) * 10000) / (w as u64)) as u32,
        height: (((region_h as u64) * 10000) / (h as u64)) as u32,
    };
    proof {
        assert(sorted_of_mset(
            sorted_xs@,
            level_xs_in_band(
                *f,
                bar_top as int,
                bar_bottom as int,
                f.width as int * 10 / 100,
                f.width as int * 22 / 100,
            ),
        ));
        assert(sorted_of_mset(
            sorted_ys@,
            level_ys_in_band(
                *f,
                bar_top as int,
                bar_bottom as int,
                f.width as int * 10 / 100,
                f.width as int * 22 / 100,
            ),
        ));
    }
    Some(out)
}

/// In an ascending sequence, an earlier element is no larger.
proof fn lemma_sorted_pair_ordered(t: Seq<u32>, i: int, j: int)
    requires
        crate::profile::is_sorted(t),
        0 <= i <= j < t.len(),
    ensures
        t[i] <= t[j],
{
}

/// A pixel bright enough to be stage text.
pub open spec fn is_stage_pixel(f: Frame, x: int, y: int) -> bool {
    (f.chan(x, y, 0) + f.chan(x, y, 1) + f.chan(x, y, 2)) / 3 > 170
}

/// The mean brightness (milli-units) of the sampled central strip of row
/// `y` used to find the top of game content.
pub open spec fn strip_milli(f: Frame, y: int) -> int {
    let w = f.width as int;
    let cnt = sample_count(w / 4, w * 3 / 4, row_step(w));
    if cnt == 0 {
        0
    } else {
        row_sample_sum(f, y, w / 4, w * 3 / 4, row_step(w)) * 1000 / (3 * cnt)
    }
}

/// The rows inspected when looking for the top of game content: the top
/// tenth of the frame, at most 60 rows.
pub open spec fn game_top_scan_limit(f: Frame) -> int {
    if f.height as int / 10 < 60 {
        f.height as int / 10
    } else {
        60
    }
}

/// `r` is the first scanned row whose central strip exceeds the content
/// brightness floor, or 0 when no scanned row does.
pub open spec fn game_top_rel(f: Frame, r: int) -> bool {
    &&& forall|y: int| 0 <= y < r ==> strip_milli(f, #[trigger] (y + 0)) <= 30000
    &&& ((r < game_top_scan_limit(f) && strip_milli(f, r) > 30000) || (r == 0 && forall|y: int|
        0 <= y < game_top_scan_limit(f) ==> strip_milli(f, #[trigger] (y + 0)) <= 30000))
}

/// Detect the top of actual game content (skipping a window title bar):
/// the first row in the top tenth of the frame whose central strip is
/// brighter than the content floor; 0 when none is.
pub fn find_game_top(f: &Frame) -> (r: u32)
    requires
        f.wf(),
    ensures
        r <= f.height,
        r <= 60,
        game_top_rel(*f, r as int),
{
    let w = f.width;
    let h = f.height;
    let step: u32 = if w / 50 >= 1 {
        w / 50
    } else {
        1
    };
    let max_scan: u32 = if h / 10 < 60 {
        h / 10
    } else {
        60
    };
    proof {
        lemma_fundamental_div_mod(h as int, 10);
        lemma_fundamental_div_mod(w as int, 4);
        lemma_fundamental_div_mod((w * 3) as int, 4);
        lemma_fundamental_div_mod(w as int, 50);
    }
    let mut y: u32 = 0;
    while y < max_scan
        invariant
            f.wf(),
            w == f.width,
            h == f.height,
            step == row_step(f.width as int),
            1 <= step <= 16384,
            max_scan <= h,
            max_scan <= 60,
            max_scan == game_top_scan_limit(*f),
            y <= max_scan,
            forall|y2: int| 0 <= y2 < y ==> strip_milli(*f, #[trigger] (y2 + 0)) <= 30000,
        decreases max_scan - y,
    {
        let mut sum: u64 = 0;
        let mut count: u32 = 0;
        let x_lo = w / 4;
        let x_hi = w * 3 / 4;
        let mut x: u32 = x_lo;
        proof {
            crate::brightness::lemma_row_sum_bounded(
                *f,
                y as int,
                x_lo as int,
                x_hi as int,
                step as int,
            );
        }
        while x < x_hi
            invariant
                f.wf(),
                y < f.height,
                1 <= step <= 16384,
                x_lo == f.width as int / 4,
                x_hi == f.width as int * 3 / 4,
                x_hi <= f.width,
                x_lo <= x,
                sum + row_sample_sum(*f, y as int, x as int, x_hi as int, step as int)
                    == row_sample_sum(*f, y as int, x_lo as int, x_hi as int, step as int),
                count + sample_count(x as int, x_hi as int, step as int) == sample_count(
                    x_lo as int,
                    x_hi as int,
                    step as int,
                ),
                sum <= 765 * (count as int),
                count <= f.width,
                sample_count(x_lo as int, x_hi as int, step as int) <= f.width,
            decreases x_hi + step - x,
        {
            proof {
                crate::brightness::lemma_row_sum_bounded(
                    *f,
                    y as int,
                    x as int,
                    x_hi as int,
                    step as int,
                );
                crate::brightness::lemma_row_sum_bounded(
                    *f,
                    y as int,
                    x as int + step,
                    x_hi as int,
                    step as int,
                );
            }
            let px = f.pixel(x, y);
            sum = sum + (px.0 as u64) + (px.1 as u64) + (px.2 as u64);
            count = count + 1;
            x = x + step;
        }
        let avg: u64 = if count > 0 {
            proof {
                crate::brightness::lemma_avg_milli_bounded(
                    row_sample_sum(*f, y as int, x_lo as int, x_hi as int, step as int),
                    count as int,
                );
            }
            (sum * 1000) / (3 * (count as u64))
        } else {
            0
        };
        proof {
            assert(avg == strip_milli(*f, y as int));
        }
        if avg > 30000 {
            return y;
        }
        y = y + 1;
    }
    0
}

/// A stage-text pixel inside the scanned top-center band for content
/// starting at row `gt`.
pub open spec fn stage_px_in_band(f: Frame, gt: int, x: int, y: int) -> bool {
    &&& f.width as int * 2 / 5 <= x < f.width as int * 3 / 5
    &&& gt <= y < stage_scan_bottom(f, gt)
    &&& is_stage_pixel(f, x, y)
}

/// One past the last scanned row of the stage band: 6% of frame height
/// below the top of game content, clipped to the frame.
pub open spec fn stage_scan_bottom(f: Frame, gt: int) -> int {
    if gt + f.height as int * 6 / 100 < f.height {
        gt + f.height as int * 6 / 100
    } else {
        f.height as int
    }
}

/// `(minx, maxx, miny, maxy)` is the bounding box of the stage-text
/// pixels in the band: each bound is attained by some pixel and every
/// pixel lies inside it.
pub open spec fn stage_bounds(f: Frame, gt: int, minx: int, maxx: int, miny: int, maxy: int) -> bool {
    &&& (exists|y: int| #[trigger] stage_px_in_band(f, gt, minx, y))
    &&& (exists|y: int| #[trigger] stage_px_in_band(f, gt, maxx, y))
    &&& (exists|x: int| #[trigger] stage_px_in_band(f, gt, x, miny))
    &&& (exists|x: int| #[trigger] stage_px_in_band(f, gt, x, maxy))
    &&& forall|x: int, y: int|
        #[trigger] stage_px_in_band(f, gt, x, y) ==> minx <= x <= maxx && miny <= y <= maxy
}

/// The stage box computed from a bounding box: an implausibly wide box
/// (wider than 200 px) collapses to a fixed window around its midpoint,
/// then 5 px of padding is applied and everything scales to fixed point.
pub open spec fn stage_region_of(f: Frame, minx: int, maxx: int, miny: int, maxy: int) -> ScreenRegion {
    let fmin = if maxx - minx > 200 {
        if (minx + maxx) / 2 >= 40 {
            (minx + maxx) / 2 - 40
        } else {
            0
        }
    } else {
        minx
    };
    let fmax = if maxx - minx > 200 {
        (minx + maxx) / 2 + 40
    } else {
        maxx
    };
    let rx = if fmin >= 5 {
        fmin - 5
    } else {
        0
    };
    let ry = if miny >= 5 {
        miny - 5
    } else {
        0
    };
    ScreenRegion {
        x: (rx * 10000 / (f.width as int)) as u32,
        y: (ry * 10000 / (f.height as int)) as u32,
        width: ((fmax - fmin + 10) * 10000 / (f.width as int)) as u32,
        height: ((maxy - miny + 10) * 10000 / (f.height as int)) as u32,
    }
}

/// What the stage search returns, relative to the detected top of game
/// content: `None` exactly when no two stage pixels in the band span
/// five columns; otherwise the (possibly collapsed) padded bounding box.
pub open spec fn stage_rel(f: Frame, gt: int, r: Option<ScreenRegion>) -> bool {
    match r {
        None => forall|x1: int, y1: int, x2: int, y2: int|
            #[trigger] stage_px_in_band(f, gt, x1, y1) && #[trigger] stage_px_in_band(
                f,
                gt,
                x2,
                y2,
            ) ==> x2 - x1 < 5,
        Some(reg) => exists|minx: int, maxx: int, miny: int, maxy: int|
            {
                &&& #[trigger] stage_bounds(f, gt, minx, maxx, miny, maxy)
                &&& maxx - minx >= 5
                &&& reg == stage_region_of(f, minx, maxx, miny, maxy)
            },
    }
}

/// Find the stage indicator: starting at the top of game content, scan a
/// narrow top-center band for bright text. An implausibly wide bounding
/// box (wider than 200 px) collapses to a fixed window around its
/// midpoint. `None` exactly when no bright pixels are found or the found
/// pixels span less than five columns.
pub fn find_stage_region(f: &Frame) -> (r: Option<ScreenRegion>)
    requires
        f.wf(),
    ensures
        exists|gt: int| #[trigger] game_top_rel(*f, gt) && stage_rel(*f, gt, r),
        r is Some ==> exists|xx: int, yy: int|
            f.width as int * 2 / 5 <= xx < f.width as int * 3 / 5 && 0 <= yy < f.height
                && #[trigger] is_stage_pixel(*f, xx, yy),
{
    let w = f.width;
    let h = f.height;
    let game_top = find_game_top(f);
    let ghost gt = game_top as int;
    let band = h * 6 / 100;
    let scan_bottom = if game_top + band < h {
        game_top + band
    } else {
        h
    };
    let center_start = w * 2 / 5;
    let center_end = w * 3 / 5;
    proof {
        lemma_fundamental_div_mod((h * 6) as int, 100);
        lemma_fundamental_div_mod((w * 2) as int, 5);
        lemma_fundamental_div_mod((w * 3) as int, 5);
        assert(scan_bottom == stage_scan_bottom(*f, gt));
    }
    let mut min_x: u32 = w;
    let mut max_x: u32 = 0;
    let mut min_y: u32 = h;
    let mut max_y: u32 = 0;
    let mut found: bool = false;
    let mut y: u32 = game_top;
    while y < scan_bottom
        invariant
            f.wf(),
            w == f.width,
            h == f.height,
            gt == game_top,
            game_top <= y <= scan_bottom,
            scan_bottom == stage_scan_bottom(*f, gt),
            center_start == f.width as int * 2 / 5,
            center_end == f.width as int * 3 / 5,
            center_start <= center_end,
            center_end <= f.width,
            found ==> min_x <= max_x < f.width && min_y <= max_y < f.height,
            !found ==> min_x == w && max_x == 0 && min_y == h && max_y == 0,
            found ==> (exists|y2: int| #[trigger] stage_px_in_band(*f, gt, min_x as int, y2))
                && (exists|y2: int| #[trigger] stage_px_in_band(*f, gt, max_x as int, y2)) && (
            exists|x2: int| #[trigger] stage_px_in_band(*f, gt, x2, min_y as int)) && (exists|
            x2: int|
                #[trigger] stage_px_in_band(*f, gt, x2, max_y as int)),
            forall|x2: int, y2: int|
                #[trigger] stage_px_in_band(*f, gt, x2, y2) && y2 < y ==> found && min_x <= x2
                    <= max_x && min_y <= y2 <= max_y,
        decreases scan_bottom - y,
    {
        let mut x: u32 = center_start;
        while x < center_end
            invariant
                f.wf(),
                w == f.width,
                h == f.height,
                gt == game_top,
                game_top <= y < scan_bottom,
                scan_bottom == stage_scan_bottom(*f, gt),
                center_start == f.width as int * 2 / 5,
                center_end == f.width as int * 3 / 5,
                center_start <= x <= center_end,
                center_end <= f.width,
                found ==> min_x <= max_x < f.width && min_y <= max_y < f.height,
                !found ==> min_x == w && max_x == 0 && min_y == h && max_y == 0,
                found ==> (exists|y2: int| #[trigger] stage_px_in_band(*f, gt, min_x as int, y2))
                    && (exists|y2: int| #[trigger] stage_px_in_band(*f, gt, max_x as int, y2)) && (
                exists|x2: int| #[trigger] stage_px_in_band(*f, gt, x2, min_y as int)) && (exists|
                x2: int|
                    #[trigger] stage_px_in_band(*f, gt, x2, max_y as int)),
                forall|x2: int, y2: int|
                    #[trigger] stage_px_in_band(*f, gt, x2, y2) && (y2 < y || (y2 == y && x2 < x))
                        ==> found && min_x <= x2 <= max_x && min_y <= y2 <= max_y,
            decreases center_end - x,
        {
            let px = f.pixel(x, y);
            let brightness: u32 = ((px.0 as u32) + (px.1 as u32) + (px.2 as u32)) / 3;
            if brightness > 170 {
                proof {
                    assert(is_stage_pixel(*f, x as int, y as int));
                    assert(stage_px_in_band(*f, gt, x as int, y as int));
                }
                min_x = if x < min_x {
                    x
                } else {
                    min_x
                };
                max_x = if x > max_x {
                    x
                } else {
                    max_x
                };
                min_y = if y < min_y {
                    y
                } else {
                    min_y
                };
                max_y = if y > max_y {
                    y
                } else {
                    max_y
                };
                found = true;
            }
            x = x + 1;
        }
        y = y + 1;
    }
    if !found || max_x - min_x < 5 {
        proof {
            assert(stage_rel(*f, gt, None::<ScreenRegion>)) by {
                assert forall|x1: int, y1: int, x2: int, y2: int|
                    #[trigger] stage_px_in_band(*f, gt, x1, y1) && #[trigger] stage_px_in_band(
                        *f,
                        gt,
                        x2,
                        y2,
                    ) implies x2 - x1 < 5 by {
                }
            }
        }
        return None;
    }
    let detected_width = max_x - min_x;
    let (final_min_x, final_max_x) = if detected_width > 200 {
        let center = (min_x + max_x) / 2;
        let lo = if center >= 40 {
            center - 40
        } else {
            0
        };
        (lo, center + 40)
    } else {
        (min_x, max_x)
    };
    let pad: u32 = 5;
    let rx: u32 = if final_min_x >= pad {
        final_min_x - pad
    } else {
        0
    };
    let ry: u32 = if min_y >= pad {
        min_y - pad
    } else {
        0
    };
    proof {
        lemma_fundamental_div_mod((min_x + max_x) as int, 2);
    }
    let out = ScreenRegion {
        x: (((rx as u64) * 10000) / (w as u64)) as u32,
        y: (((ry as u64) * 10000) / (h as u64)) as u32,
        width: ((((final_max_x - final_min_x + pad * 2) as u64) * 10000) / (w as u64)) as u32,
        height: ((((max_y - min_y + pad * 2) as u64) * 10000) / (h as u64)) as u32,
    };
    proof {
        assert(stage_bounds(*f, gt, min_x as int, max_x as int, min_y as int, max_y as int));
        assert(out == stage_region_of(*f, min_x as int, max_x as int, min_y as int, max_y as int));
        assert(stage_rel(*f, gt, Some(out)));
    }
    Some(out)
}

/// The pixel row the gold/level search band ends at: ten pixels below
/// the top of the shop row (or the 25% fallback under the HUD when no
/// slots were found), clipped to the frame.
pub open spec fn card_top_of(f: Frame, hpx: int, slots: Seq<ScreenRegion>) -> int {
    if slots.len() > 0 {
        slots[0].y * (f.height as int) / 10000
    } else {
        hpx + (f.height - hpx) * 25 / 100
    }
}

/// What layout detection returns for a frame: the HUD boundary satisfies
/// the HUD-top search relation and scales to the published fixed-point
/// value; the shop slots satisfy the shop-card relation at that
/// boundary; the gold and level boxes are present exactly as their pixel
/// predicates dictate over the search band derived from the boundary and
/// the shop row; and the stage box satisfies the stage relation at the
/// detected top of game content.
pub open spec fn layout_rel(f: Frame, lay: DetectedLayout) -> bool {
    if f.height == 0 {
        &&& lay.hud_top == 0
        &&& lay.shop_slots@.len() == 0
        &&& lay.gold is None
        &&& lay.level is None
        &&& lay.stage is None
    } else {
        exists|hpx: int|
            {
                &&& #[trigger] hud_top_rel(f, hpx)
                &&& 0 <= hpx < f.height
                &&& lay.hud_top == hpx * 10000 / (f.height as int)
                &&& shop_cards_rel(f, hpx, lay.shop_slots@)
                &&& ({
                    let ct = card_top_of(f, hpx, lay.shop_slots@);
                    let bt = if hpx >= 10 {
                        hpx - 10
                    } else {
                        0
                    };
                    let bb = if ct + 10 < f.height {
                        ct + 10
                    } else {
                        f.height as int
                    };
                    &&& (bt >= bb || bb - bt < 3 ==> lay.gold is None)
                    &&& (bt < bb && bb - bt >= 3 ==> (lay.gold is Some <==> has_gold_pixel(
                        f,
                        bt,
                        bb,
                    )))
                    &&& (bt >= bb ==> lay.level is None)
                    &&& (bt < bb ==> (lay.level is Some <==> level_count(
                        f,
                        bt,
                        bb,
                        f.width as int * 10 / 100,
                        f.width as int * 22 / 100,
                    ) >= 5))
                })
                &&& exists|gt: int| #[trigger] game_top_rel(f, gt) && stage_rel(f, gt, lay.stage)
            }
    }
}

/// Analyze a game-area frame and find every recognizable UI element.
/// The shop row always comes back with exactly zero or five slots; the
/// gold, level and stage boxes are each independently optional.
pub fn detect_layout(frame: &Frame) -> (r: DetectedLayout)
    requires
        frame.wf(),
    ensures
        r.shop_slots@.len() == 0 || r.shop_slots@.len() == 5,
        forall|k: int| 0 <= k < r.shop_slots@.len() ==> (#[trigger] r.shop_slots@[k]).in_unit(),
        r.hud_top <= REGION_SCALE,
        layout_rel(*frame, r),
{
    let h = frame.height;
    if h == 0 {
        return DetectedLayout {
            shop_slots: Vec::new(),
            gold: None,
            level: None,
            stage: None,
            hud_top: 0,
        };
    }
    let hud_top_px = find_hud_top(frame);
    proof {
        lemma_scaled_pair_in_unit(hud_top_px as int, 0, h as int);
    }
    let hud_top_bp: u32 = (((hud_top_px as u64) * 10000) / (h as u64)) as u32;
    let shop_slots = find_shop_cards(frame, hud_top_px);
    let card_top_px: u32 = if shop_slots.len() > 0 {
        let sy = shop_slots[0].y;
        proof {
            lemma_card_top_bounded(sy as int, h as int);
        }
        let ct = ((sy as u64) * (h as u64) / 10000) as u32;
        ct
    } else {
        let rest = h - hud_top_px;
        proof {
            lemma_fundamental_div_mod((rest * 25) as int, 100);
        }
        hud_top_px + (rest * 25 / 100)
    };
    let bar_search_top: u32 = if hud_top_px >= 10 {
        hud_top_px - 10
    } else {
        0
    };
    let bar_search_bottom: u32 = if card_top_px + 10 < h {
        card_top_px + 10
    } else {
        h
    };
    let gold = find_gold_region(frame, bar_search_top, bar_search_bottom);
    let level = find_level_region(frame, bar_search_top, bar_search_bottom);
    let stage = find_stage_region(frame);
    let lay = DetectedLayout { shop_slots, gold, level, stage, hud_top: hud_top_bp };
    proof {
        assert(hud_top_rel(*frame, hud_top_px as int));
        assert(card_top_px as int == card_top_of(*frame, hud_top_px as int, lay.shop_slots@));
        assert(layout_rel(*frame, lay));
    }
    lay
}

/// A fixed-point fraction inside the unit range maps back into the frame.
proof fn lemma_card_top_bounded(sy: int, h: int)
    requires
        0 <= sy <= 10000,
        1 <= h <= 16384,
    ensures
        0 <= sy * h / 10000 <= h,
        sy * h / 10000 < 0x10000000,
{
    lemma_fundamental_div_mod(sy * h, 10000);
    lemma_mod_bound(sy * h, 10000);
    assert(0 <= sy * h <= 10000 * h) by (nonlinear_arith)
        requires
            0 <= sy <= 10000,
            h >= 0,
    ;
    assert(sy * h / 10000 <= h && sy * h / 10000 >= 0) by (nonlinear_arith)
        requires
            10000 * (sy * h / 10000) <= sy * h,
            sy * h <= 10000 * h,
            0 <= sy * h,
            10000 * (sy * h / 10000) + (sy * h) % 10000 == sy * h,
            0 <= (sy * h) % 10000 < 10000,
    ;
}

}
