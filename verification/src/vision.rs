//! The per-frame vision pass.
//!
//! One frame flows through layout detection, champion matching on every
//! detected shop slot, and preprocessing of the gold/level/stage crops
//! for the external text reader. The reader runs outside this library;
//! its text comes back into `process_frame`, which parses and validates
//! it and assembles the final `VisionResult`.

use crate::frame::Frame;
use crate::frame::GrayFrame;
use crate::layout::DetectedLayout;
use crate::layout::detect_layout;
use crate::matcher::ChampionMatcher;
use crate::matcher::MIN_CONFIDENCE_MILLI;
use crate::matcher::extract_portrait;
use crate::ocr::DigitReader;
use crate::ocr::digits_val;
use crate::ocr::prepare_ocr_input;
use crate::layout::layout_rel;
use crate::matcher::MatchResult;
use crate::matcher::query_of;
use crate::ocr::ocr_scale;
use crate::region::ScreenRegion;
use crate::region::clamped_extent;
use crate::region::clamped_origin;
use crate::region::crop_region;
use vstd::prelude::*;

verus! {

/// Combined result of the vision pipeline for a single frame. A new one
/// supersedes the previous one: no history is retained.
#[derive(Debug, Clone)]
pub struct VisionResult {
    pub shop: Vec<ShopSlotResult>,
    pub gold: Option<u32>,
    pub level: Option<u32>,
    pub stage: Option<String>,
}

/// One recognized shop slot: the best-matching champion, if any cleared
/// the confidence floor. `confidence` is in milli-units, 0 for no match.
#[derive(Debug, Clone)]
pub struct ShopSlotResult {
    pub slot_index: usize,
    pub champion_id: Option<String>,
    pub champion_name: Option<String>,
    pub cost: Option<u32>,
    pub confidence: i64,
}

impl VisionResult {
    /// The empty result published when a frame shows no game area:
    /// consumers can then tell "actively failing to detect" from
    /// "pipeline not running".
    pub fn empty() -> (r: VisionResult)
        ensures
            r.shop@.len() == 0,
            r.gold is None,
            r.level is None,
            r.stage is None,
    {
        VisionResult { shop: Vec::new(), gold: None, level: None, stage: None }
    }
}

/// A slot result is internally consistent: index set, identification
/// all-or-nothing, and a confident match exactly when identified.
pub open spec fn slot_result_ok(s: ShopSlotResult, idx: int) -> bool {
    &&& s.slot_index == idx
    &&& (s.champion_id is Some <==> s.champion_name is Some)
    &&& (s.champion_id is Some <==> s.cost is Some)
    &&& (s.champion_id is Some ==> s.confidence >= MIN_CONFIDENCE_MILLI)
    &&& (s.champion_id is None ==> s.confidence == 0)
}

/// Everything of one frame that can be computed before the external text
/// reader runs: the detected layout, the matched shop slots, and the
/// reader-ready crops of the gold/level/stage boxes.
pub struct FrameAnalysis {
    pub layout: DetectedLayout,
    pub shop: Vec<ShopSlotResult>,
    pub gold_input: Option<GrayFrame>,
    pub level_input: Option<GrayFrame>,
    pub stage_input: Option<GrayFrame>,
}

/// `c` is the clamped crop of `f` at `region` (the pointwise contract of
/// the crop, stated relationally).
pub open spec fn crop_of_ok(f: Frame, region: ScreenRegion, c: Frame) -> bool {
    &&& c.wf()
    &&& c.width == clamped_extent(region.width, clamped_origin(region.x, f.width), f.width)
    &&& c.height == clamped_extent(region.height, clamped_origin(region.y, f.height), f.height)
    &&& forall|i: int, j: int, ch: int|
        0 <= i < c.width && 0 <= j < c.height && 0 <= ch < 4 ==> #[trigger] c.chan(i, j, ch)
            == f.chan(
            clamped_origin(region.x, f.width) + i,
            clamped_origin(region.y, f.height) + j,
            ch,
        )
}

/// `p` is the portrait cut of the card crop `card`: the center 80% of
/// the width and top 75% of the height, or the whole card when it is
/// smaller than 4 pixels either way.
pub open spec fn portrait_of_ok(card: Frame, p: Frame) -> bool {
    &&& p.wf()
    &&& if card.width < 4 || card.height < 4 {
        p.width == card.width && p.height == card.height && p.data@ == card.data@
    } else {
        &&& p.width == card.width * 8 as int / 10
        &&& p.height == card.height * 3 as int / 4
        &&& forall|i: int, j: int, ch: int|
            0 <= i < p.width && 0 <= j < p.height && 0 <= ch < 4 ==> #[trigger] p.chan(i, j, ch)
                == card.chan(card.width as int / 10 + i, j, ch)
    }
}

/// The slot result fields unpack the match outcome: identification and
/// confidence for a match, all-absent with zero confidence for none.
pub open spec fn slot_fields_of(res: Option<MatchResult>, s: ShopSlotResult) -> bool {
    match res {
        Some(mr) => {
            &&& s.champion_id == Some(mr.champion_id)
            &&& s.champion_name == Some(mr.champion_name)
            &&& s.cost == Some(mr.cost)
            &&& s.confidence == mr.confidence
        },
        None => {
            &&& s.champion_id is None
            &&& s.champion_name is None
            &&& s.cost is None
            &&& s.confidence == 0
        },
    }
}

/// Slot `idx`'s result comes from matching the portrait of the crop of
/// its detected region: through the crop and portrait contracts, the
/// matcher's outcome predicate over the prepared query, and the field
/// unpacking.
pub open spec fn slot_outcome_rel(
    m: ChampionMatcher,
    f: Frame,
    region: ScreenRegion,
    s: ShopSlotResult,
    idx: int,
) -> bool {
    &&& s.slot_index == idx
    &&& exists|crop: Frame, portrait: Frame, res: Option<MatchResult>|
        #![trigger crop_of_ok(f, region, crop), portrait_of_ok(crop, portrait), slot_fields_of(res, s)]
        {
            &&& crop_of_ok(f, region, crop)
            &&& portrait_of_ok(crop, portrait)
            &&& (m.count() == 0 ==> res is None)
            &&& (portrait.npix() == 0 ==> res is None)
            &&& (portrait.npix() > 0 && m.count() > 0 ==> m.match_outcome_ok(
                query_of(portrait),
                res,
            ))
            &&& slot_fields_of(res, s)
        }
}

/// `out` is what OCR preparation returns for the crop `c`: a binarized
/// image of the upscaled size when that is at least five pixels each
/// way, nothing otherwise.
pub open spec fn ocr_input_rel(c: Frame, out: Option<GrayFrame>) -> bool {
    match out {
        Some(g) => {
            &&& g.wf()
            &&& g.width == c.width * ocr_scale(c.width as int, c.height as int)
            &&& g.height == c.height * ocr_scale(c.width as int, c.height as int)
            &&& g.width >= 5
            &&& g.height >= 5
        },
        None => c.width * ocr_scale(c.width as int, c.height as int) < 5 || c.height * ocr_scale(
            c.width as int,
            c.height as int,
        ) < 5,
    }
}

/// The whole pre-reader analysis of one game-area frame: the layout
/// satisfies the layout relation, each slot result comes from its slot
/// region, and each reader input comes from its detected box.
pub open spec fn analysis_rel(m: ChampionMatcher, f: Frame, a: FrameAnalysis) -> bool {
    &&& layout_rel(f, a.layout)
    &&& a.shop@.len() == a.layout.shop_slots@.len()
    &&& forall|i: int|
        0 <= i < a.shop@.len() ==> #[trigger] slot_outcome_rel(
            m,
            f,
            a.layout.shop_slots@[i],
            a.shop@[i],
            i,
        )
    &&& match a.layout.gold {
        Some(reg) => exists|crop: Frame|
            #[trigger] crop_of_ok(f, reg, crop) && ocr_input_rel(crop, a.gold_input),
        None => a.gold_input is None,
    }
    &&& match a.layout.level {
        Some(reg) => exists|crop: Frame|
            #[trigger] crop_of_ok(f, reg, crop) && ocr_input_rel(crop, a.level_input),
        None => a.level_input is None,
    }
    &&& match a.layout.stage {
        Some(reg) => exists|crop: Frame|
            #[trigger] crop_of_ok(f, reg, crop) && ocr_input_rel(crop, a.stage_input),
        None => a.stage_input is None,
    }
}

/// `gf` is the frame the layout pass runs on: the whole frame when the
/// detected area is the full unit square, else the crop at the area.
pub open spec fn game_frame_of_ok(f: Frame, ga: crate::game_area::GameArea, gf: Frame) -> bool {
    if ga.region.width >= crate::region::REGION_SCALE && ga.region.height
        >= crate::region::REGION_SCALE {
        gf.width == f.width && gf.height == f.height && gf.data@ == f.data@
    } else {
        crop_of_ok(f, ga.region, gf)
    }
}

/// Run layout detection and champion matching on a game-area frame and
/// prepare the text-reader inputs. The shop comes back with one result
/// per detected slot (so exactly zero or five), each internally
/// consistent; with an empty template catalog every slot is unmatched.
pub fn analyze_frame(frame: &Frame, matcher: &ChampionMatcher) -> (r: FrameAnalysis)
    requires
        frame.wf(),
        matcher.wf(),
    ensures
        r.shop@.len() == r.layout.shop_slots@.len(),
        r.shop@.len() == 0 || r.shop@.len() == 5,
        forall|i: int| 0 <= i < r.shop@.len() ==> slot_result_ok(#[trigger] r.shop@[i], i),
        matcher.count() == 0 ==> forall|i: int|
            0 <= i < r.shop@.len() ==> (#[trigger] r.shop@[i]).champion_id is None,
        r.layout.gold is None ==> r.gold_input is None,
        r.layout.level is None ==> r.level_input is None,
        r.layout.stage is None ==> r.stage_input is None,
        r.gold_input is Some ==> r.gold_input->Some_0.width >= 5 && r.gold_input->Some_0.height
            >= 5,
        r.level_input is Some ==> r.level_input->Some_0.width >= 5 && r.level_input->Some_0.height
            >= 5,
        r.stage_input is Some ==> r.stage_input->Some_0.width >= 5 && r.stage_input->Some_0.height
            >= 5,
        analysis_rel(*matcher, *frame, r),
{
    let layout = detect_layout(frame);
    let mut shop: Vec<ShopSlotResult> = Vec::new();
    let mut i: usize = 0;
    while i < layout.shop_slots.len()
        invariant
            frame.wf(),
            matcher.wf(),
            i <= layout.shop_slots@.len(),
            shop@.len() == i,
            forall|k: int| 0 <= k < i ==> slot_result_ok(#[trigger] shop@[k], k),
            matcher.count() == 0 ==> forall|k: int|
                0 <= k < i ==> (#[trigger] shop@[k]).champion_id is None,
            forall|k: int|
                0 <= k < i ==> #[trigger] slot_outcome_rel(
                    *matcher,
                    *frame,
                    layout.shop_slots@[k],
                    shop@[k],
                    k,
                ),
        decreases layout.shop_slots@.len() - i,
    {
        let crop = crop_region(frame, &layout.shop_slots[i]);
        let portrait = extract_portrait(&crop);
        let result = matcher.match_champion(&portrait);
        let ghost gres = result;
        proof {
            assert(portrait.npix() >= 0) by (nonlinear_arith)
                requires
                    portrait.npix() == portrait.width * portrait.height,
                    portrait.width >= 0,
                    portrait.height >= 0,
            ;
            assert(crop_of_ok(*frame, layout.shop_slots@[i as int], crop));
            assert(portrait_of_ok(crop, portrait));
        }
        let slot = match result {
            Some(m) => ShopSlotResult {
                slot_index: i,
                champion_id: Some(m.champion_id),
                champion_name: Some(m.champion_name),
                cost: Some(m.cost),
                confidence: m.confidence,
            },
            None => ShopSlotResult {
                slot_index: i,
                champion_id: None,
                champion_name: None,
                cost: None,
                confidence: 0,
            },
        };
        proof {
            assert(slot_fields_of(gres, slot));
            assert(slot_outcome_rel(
                *matcher,
                *frame,
                layout.shop_slots@[i as int],
                slot,
                i as int,
            ));
        }
        shop.push(slot);
        i = i + 1;
    }
    let gold_input = match &layout.gold {
        Some(region) => {
            let crop = crop_region(frame, region);
            let out = prepare_ocr_input(&crop);
            proof {
                assert(crop_of_ok(*frame, layout.gold->Some_0, crop) && ocr_input_rel(crop, out));
            }
            out
        },
        None => None,
    };
    let level_input = match &layout.level {
        Some(region) => {
            let crop = crop_region(frame, region);
            let out = prepare_ocr_input(&crop);
            proof {
                assert(crop_of_ok(*frame, layout.level->Some_0, crop) && ocr_input_rel(crop, out));
            }
            out
        },
        None => None,
    };
    let stage_input = match &layout.stage {
        Some(region) => {
            let crop = crop_region(frame, region);
            let out = prepare_ocr_input(&crop);
            proof {
                assert(crop_of_ok(*frame, layout.stage->Some_0, crop) && ocr_input_rel(crop, out));
            }
            out
        },
        None => None,
    };
    FrameAnalysis { layout, shop, gold_input, level_input, stage_input }
}

/// The per-tick analysis decision of the pipeline: locate the game area
/// in the raw frame, crop to it (skipping the crop when the area is the
/// whole frame), and analyze the result. `None` when no game area was
/// detected — the caller then publishes an empty result for this tick
/// rather than withholding an update. In particular a uniform frame or
/// one smaller than the detector's minimum yields `None`.
pub fn analyze_full_frame(frame: &Frame, matcher: &ChampionMatcher) -> (r: Option<FrameAnalysis>)
    requires
        frame.wf(),
        matcher.wf(),
    ensures
        frame.is_uniform() ==> r is None,
        frame.width < crate::game_area::MIN_FRAME_DIM || frame.height
            < crate::game_area::MIN_FRAME_DIM ==> r is None,
        match r {
            Some(a) => {
                &&& a.shop@.len() == a.layout.shop_slots@.len()
                &&& (a.shop@.len() == 0 || a.shop@.len() == 5)
                &&& forall|i: int| 0 <= i < a.shop@.len() ==> slot_result_ok(#[trigger] a.shop@[i], i)
                &&& exists|ga: crate::game_area::GameArea, gf: Frame|
                    #![trigger crate::game_area::game_area_choice_ok(*frame, ga), game_frame_of_ok(*frame, ga, gf)]
                    {
                        &&& crate::game_area::game_area_choice_ok(*frame, ga)
                        &&& ga.region.in_unit()
                        &&& game_frame_of_ok(*frame, ga, gf)
                        &&& analysis_rel(*matcher, gf, a)
                    }
            },
            None => frame.width < crate::game_area::MIN_FRAME_DIM || frame.height
                < crate::game_area::MIN_FRAME_DIM || crate::game_area::no_scoring_candidate(
                *frame,
            ),
        },
{
    let area = match crate::game_area::detect_game_area(frame) {
        Some(a) => a,
        None => {
            return None;
        },
    };
    let game_frame = if area.region.width >= crate::region::REGION_SCALE && area.region.height
        >= crate::region::REGION_SCALE {
        frame.clone_frame()
    } else {
        crop_region(frame, &area.region)
    };
    proof {
        assert(game_frame.wf());
        assert(game_frame_of_ok(*frame, area, game_frame));
    }
    let analysis = analyze_frame(&game_frame, matcher);
    proof {
        assert(crate::game_area::game_area_choice_ok(*frame, area) && game_frame_of_ok(
            *frame,
            area,
            game_frame,
        ) && analysis_rel(*matcher, game_frame, analysis));
    }
    Some(analysis)
}

/// Assemble the final result from an analysis and the text the external
/// reader returned for each prepared crop (as raw bytes). The gold and
/// level numbers are the parsed decimal values of their texts; the stage
/// is kept only in valid "digit-digit" shape; everything reads as absent
/// when the reader is unavailable.
pub fn process_frame(
    analysis: FrameAnalysis,
    reader: &DigitReader,
    gold_text: Option<Vec<u8>>,
    level_text: Option<Vec<u8>>,
    stage_text: Option<Vec<u8>>,
) -> (r: VisionResult)
    ensures
        r.shop@ == analysis.shop@,
        !reader.available() ==> r.gold is None && r.level is None && r.stage is None,
        reader.available() ==> match gold_text {
            Some(t) => {
                &&& (r.gold is Some <==> t@.len() > 0 && (forall|i: int|
                    0 <= i < t@.len() ==> crate::ocr::is_digit(#[trigger] t@[i])) && digits_val(t@)
                    <= u32::MAX)
                &&& (r.gold is Some ==> r.gold->Some_0 == digits_val(t@))
            },
            None => r.gold is None,
        },
        reader.available() ==> match level_text {
            Some(t) => {
                &&& (r.level is Some <==> t@.len() > 0 && (forall|i: int|
                    0 <= i < t@.len() ==> crate::ocr::is_digit(#[trigger] t@[i])) && digits_val(t@)
                    <= u32::MAX)
                &&& (r.level is Some ==> r.level->Some_0 == digits_val(t@))
            },
            None => r.level is None,
        },
        reader.available() ==> match stage_text {
            Some(t) => {
                &&& (r.stage is Some <==> t@.len() >= 3 && (exists|i: int|
                    0 <= i < t@.len() && t@[i] == 45) && vstd::utf8::valid_utf8(t@))
                &&& (r.stage is Some ==> vstd::utf8::encode_utf8(r.stage->Some_0@) == t@)
            },
            None => r.stage is None,
        },
{
    let gold = reader.read_number(&gold_text);
    let level = reader.read_number(&level_text);
    let stage_bytes = reader.read_stage(stage_text);
    let stage = match stage_bytes {
        Some(b) => string_of_stage_bytes(b),
        None => None,
    };
    VisionResult { shop: analysis.shop, gold, level, stage }
}

/// Relies on `String::from_utf8`: it succeeds exactly on valid UTF-8,
/// and then returns the string whose UTF-8 encoding is exactly the given
/// bytes.
#[verifier::external_body]
fn string_of_stage_bytes(b: Vec<u8>) -> (r: Option<String>)
    ensures
        r is Some <==> vstd::utf8::valid_utf8(b@),
        r is Some ==> vstd::utf8::encode_utf8(r->Some_0@) == b@,
{
    String::from_utf8(b).ok()
}

}
