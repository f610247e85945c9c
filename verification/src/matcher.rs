//! Champion template matching.
//!
//! The matcher holds a catalog of pre-processed champion icons (gray,
//! resized to a fixed square) and classifies a shop-slot crop as the
//! best-correlating template, or "no match" when the crop is near-uniform
//! (an empty slot) or no template clears the confidence floor.

use crate::frame::Frame;
use crate::frame::GrayFrame;
use crate::frame::luma_seq;
use crate::frame::to_gray;
use crate::ncc::den_of;
use crate::ncc::ncc_milli;
use crate::ncc::ncc_of;
use crate::region::crop_px;
use vstd::arithmetic::div_mod::lemma_fundamental_div_mod;
use vstd::prelude::*;

verus! {

/// Square size both templates and query crops are resized to.
pub const MATCH_SIZE: u32 = 48;

/// Minimum correlation (milli-units) for a match to be accepted.
pub const MIN_CONFIDENCE_MILLI: i64 = 400;

/// A query whose scaled variance `den_of` is below this is treated as an
/// empty slot and never matched. This is `25 * n^2` for `n = 48 * 48`
/// pixels, i.e. a population standard deviation below 5 brightness steps.
pub const EMPTY_SLOT_DEN_FLOOR: i128 = 132710400;

/// What the triangle-filter resize of a gray image to `MATCH_SIZE` square
/// returns: a pure function of the pixels and the source dimensions.
pub uninterp spec fn resized48(pixels: Seq<u8>, width: int, height: int) -> Seq<u8>;

/// Relies on `image::imageops::resize` with `FilterType::Triangle`: it
/// returns an image of exactly the requested dimensions, and its pixels
/// depend on the input pixels and dimensions alone.
#[verifier::external_body]
fn resize48(g: &GrayFrame) -> (r: GrayFrame)
    requires
        g.wf(),
        g.width >= 1,
        g.height >= 1,
    ensures
        r.wf(),
        r.width == MATCH_SIZE,
        r.height == MATCH_SIZE,
        r.data@ == resized48(g.data@, g.width as int, g.height as int),
{
    let img = image::GrayImage::from_raw(g.width, g.height, g.data.clone()).unwrap();
    let out = image::imageops::resize(&img, MATCH_SIZE, MATCH_SIZE, image::imageops::FilterType::Triangle);
    GrayFrame { width: MATCH_SIZE, height: MATCH_SIZE, data: out.into_raw() }
}

/// The pre-processed query a shop-slot crop turns into before matching:
/// gray conversion followed by the fixed-size resize.
pub open spec fn query_of(slot: Frame) -> Seq<u8> {
    resized48(luma_seq(slot.data@, slot.npix()), slot.width as int, slot.height as int)
}

/// Result of matching a shop slot against the champion templates.
/// `confidence` is the winning correlation in milli-units (0..=1000 in
/// practice; at least `MIN_CONFIDENCE_MILLI`).
#[derive(Debug, Clone)]
pub struct MatchResult {
    pub champion_id: String,
    pub champion_name: String,
    pub cost: u32,
    pub confidence: i64,
}

/// One pre-processed champion icon.
struct ChampionTemplate {
    id: String,
    name: String,
    cost: u32,
    gray: GrayFrame,
}

/// Matches shop-slot crops against champion icon templates.
pub struct ChampionMatcher {
    templates: Vec<ChampionTemplate>,
}

impl ChampionMatcher {
    /// Every stored template is a well-formed `MATCH_SIZE` square.
    pub closed spec fn wf(self) -> bool {
        forall|i: int|
            0 <= i < self.templates@.len() ==> (#[trigger] self.templates@[i].gray).wf()
                && self.templates@[i].gray.width == MATCH_SIZE && self.templates@[i].gray.height
                == MATCH_SIZE
    }

    /// Number of loaded templates.
    pub closed spec fn count(self) -> nat {
        self.templates@.len()
    }

    /// Pixels of template `i`.
    pub closed spec fn tmpl_gray(self, i: int) -> Seq<u8> {
        self.templates@[i].gray.data@
    }

    /// Identifier of template `i`.
    pub closed spec fn tmpl_id(self, i: int) -> Seq<char> {
        self.templates@[i].id@
    }

    /// Display name of template `i`.
    pub closed spec fn tmpl_name(self, i: int) -> Seq<char> {
        self.templates@[i].name@
    }

    /// Gold cost of template `i`.
    pub closed spec fn tmpl_cost(self, i: int) -> u32 {
        self.templates@[i].cost
    }

    /// Correlation score of query `q` against template `i`.
    pub open spec fn score(self, q: Seq<u8>, i: int) -> int {
        ncc_of(q, self.tmpl_gray(i))
    }

    /// `i` is the first index achieving the maximum score for `q`.
    pub open spec fn is_best_idx(self, q: Seq<u8>, i: int) -> bool {
        &&& 0 <= i < self.count()
        &&& forall|j: int| 0 <= j < self.count() ==> #[trigger] self.score(q, j) <= self.score(q, i)
        &&& forall|j: int| 0 <= j < i ==> #[trigger] self.score(q, j) < self.score(q, i)
    }

    /// What `match_prepared` (and through it `match_champion`) returns for
    /// a prepared query `q`: the first best-scoring template when the query
    /// has enough variance and the best score clears the floor, nothing
    /// otherwise.
    pub open spec fn match_outcome_ok(self, q: Seq<u8>, r: Option<MatchResult>) -> bool {
        match r {
            Some(res) => {
                &&& den_of(q) >= EMPTY_SLOT_DEN_FLOOR
                &&& exists|i: int|
                    {
                        &&& #[trigger] self.is_best_idx(q, i)
                        &&& res.champion_id@ == self.tmpl_id(i)
                        &&& res.champion_name@ == self.tmpl_name(i)
                        &&& res.cost == self.tmpl_cost(i)
                        &&& res.confidence == self.score(q, i)
                    }
                &&& MIN_CONFIDENCE_MILLI <= res.confidence <= 1000
            },
            None => self.count() == 0 || den_of(q) < EMPTY_SLOT_DEN_FLOOR || (forall|i: int|
                0 <= i < self.count() ==> #[trigger] self.score(q, i) < MIN_CONFIDENCE_MILLI),
        }
    }

    /// Empty matcher; every match degrades to "no match".
    pub fn new() -> (r: ChampionMatcher)
        ensures
            r.wf(),
            r.count() == 0,
    {
        ChampionMatcher { templates: Vec::new() }
    }

    /// Pre-process one champion icon (gray conversion, fixed-size resize)
    /// and add it to the catalog.
    pub fn add_template(&mut self, id: String, name: String, cost: u32, icon: &Frame)
        requires
            old(self).wf(),
            icon.wf(),
            icon.width >= 1,
            icon.height >= 1,
        ensures
            final(self).wf(),
            final(self).count() == old(self).count() + 1,
            forall|i: int|
                0 <= i < old(self).count() ==> #[trigger] final(self).tmpl_gray(i) == old(self).tmpl_gray(i)
                    && final(self).tmpl_id(i) == old(self).tmpl_id(i)
                    && final(self).tmpl_name(i) == old(self).tmpl_name(i)
                    && final(self).tmpl_cost(i) == old(self).tmpl_cost(i),
            final(self).tmpl_gray(old(self).count() as int) == query_of(*icon),
            final(self).tmpl_id(old(self).count() as int) == id@,
            final(self).tmpl_name(old(self).count() as int) == name@,
            final(self).tmpl_cost(old(self).count() as int) == cost,
    {
        let gray = to_gray(icon);
        let resized = resize48(&gray);
        self.templates.push(ChampionTemplate { id, name, cost, gray: resized });
    }

    /// Number of loaded templates.
    pub fn template_count(&self) -> (n: usize)
        ensures
            n == self.count(),
    {
        self.templates.len()
    }

    /// Match an already prepared (gray, resized) query against every
    /// template and return the best match above the confidence floor.
    pub fn match_prepared(&self, q: &GrayFrame) -> (r: Option<MatchResult>)
        requires
            self.wf(),
            q.wf(),
            q.width == MATCH_SIZE,
            q.height == MATCH_SIZE,
        ensures
            self.match_outcome_ok(q.data@, r),
            den_of(q.data@) < EMPTY_SLOT_DEN_FLOOR ==> r is None,
            self.count() == 0 ==> r is None,
    {
        if self.templates.len() == 0 {
            return None;
        }
        let (s, qsq, _, _, _) = crate::ncc::compute_moments(q, q);
        proof {
            crate::ncc::lemma_sums_bounded(q.data@, q.data@);
            assert(q.data@.len() == 2304);
        }
        let n: u64 = q.data.len() as u64;
        proof {
            assert((s as int) * (s as int) <= 0x8000000000000000 && (n as int) * (qsq as int)
                <= 0x8000000000000000) by (nonlinear_arith)
                requires
                    0 <= s <= 587520,
                    0 <= qsq <= 149817600,
                    n == 2304,
            ;
        }
        let den: i128 = (n as i128) * (qsq as i128) - (s as i128) * (s as i128);
        if den < EMPTY_SLOT_DEN_FLOOR {
            return None;
        }
        let mut best_score: i64 = -2000;
        let mut best_idx: usize = 0;
        let mut j: usize = 0;
        while j < self.templates.len()
            invariant
                self.wf(),
                q.wf(),
                q.width == MATCH_SIZE,
                q.height == MATCH_SIZE,
                0 < self.templates@.len(),
                0 <= j <= self.templates@.len(),
                j == 0 ==> best_score == -2000,
                j > 0 ==> {
                    &&& 0 <= best_idx < j
                    &&& best_score == self.score(q.data@, best_idx as int)
                    &&& -1000 <= best_score <= 1000
                    &&& forall|k: int|
                        0 <= k < j ==> #[trigger] self.score(q.data@, k) <= best_score
                    &&& forall|k: int|
                        0 <= k < best_idx ==> #[trigger] self.score(q.data@, k) < best_score
                },
            decreases self.templates@.len() - j,
        {
            let tmpl_gray = &self.templates[j].gray;
            let sc = ncc_milli(q, tmpl_gray);
            if sc > best_score {
                best_score = sc;
                best_idx = j;
            }
            j = j + 1;
        }
        if best_score >= MIN_CONFIDENCE_MILLI {
            proof {
                assert(self.is_best_idx(q.data@, best_idx as int));
            }
            let t = &self.templates[best_idx];
            Some(
                MatchResult {
                    champion_id: t.id.clone(),
                    champion_name: t.name.clone(),
                    cost: t.cost,
                    confidence: best_score,
                },
            )
        } else {
            None
        }
    }

    /// Match a shop-slot crop against all templates: convert to gray,
    /// resize to the match square, then correlate. Returns the best match
    /// above the confidence floor, `None` for empty or unrecognizable
    /// slots.
    pub fn match_champion(&self, slot: &Frame) -> (r: Option<MatchResult>)
        requires
            self.wf(),
            slot.wf(),
        ensures
            self.count() == 0 ==> r is None,
            slot.npix() == 0 ==> r is None,
            slot.npix() > 0 && self.count() > 0 ==> self.match_outcome_ok(query_of(*slot), r),
    {
        if self.templates.len() == 0 {
            return None;
        }
        if slot.width == 0 || slot.height == 0 {
            proof {
                assert(slot.npix() == 0) by (nonlinear_arith)
                    requires
                        slot.width == 0 || slot.height == 0,
                        slot.npix() == slot.width * slot.height,
                ;
            }
            return None;
        }
        proof {
            assert(slot.npix() > 0) by (nonlinear_arith)
                requires
                    slot.width >= 1,
                    slot.height >= 1,
                    slot.npix() == slot.width * slot.height,
            ;
        }
        let gray = to_gray(slot);
        let q = resize48(&gray);
        self.match_prepared(&q)
    }
}

/// Extract the champion portrait from a shop-card crop: the center 80% of
/// the width and the top 75% of the height, excluding the cost/name text
/// baked into the card art. Cards smaller than 4 pixels either way are
/// returned whole.
pub fn extract_portrait(card: &Frame) -> (r: Frame)
    requires
        card.wf(),
    ensures
        r.wf(),
        card.width < 4 || card.height < 4 ==> r.width == card.width && r.height == card.height
            && r.data@ == card.data@,
        card.width >= 4 && card.height >= 4 ==> {
            &&& r.width == card.width * 8 as int / 10
            &&& r.height == card.height * 3 as int / 4
            &&& forall|i: int, j: int, c: int|
                0 <= i < r.width && 0 <= j < r.height && 0 <= c < 4 ==> #[trigger] r.chan(i, j, c)
                    == card.chan(card.width as int / 10 + i, j, c)
        },
{
    let w = card.width;
    let h = card.height;
    if w < 4 || h < 4 {
        return card.clone_frame();
    }
    let x = w / 10;
    let pw = w * 8 / 10;
    let ph = h * 3 / 4;
    proof {
        lemma_fundamental_div_mod(w as int, 10);
        lemma_fundamental_div_mod((w * 8) as int, 10);
        lemma_fundamental_div_mod((h * 3) as int, 4);
        assert(10 * (w as int / 10) + 10 * ((w * 8) as int / 10) <= w + w * 8);
        assert(x + pw <= w && ph <= h);
    }
    crop_px(card, x, 0, pw, ph)
}

}
