//! Window selection and capture health.
//!
//! Enumerating OS windows and grabbing their pixels happens outside this
//! library; what it owns are the decisions on the enumeration results:
//! which windows are worth listing, whether the visible set suggests that
//! screen-recording permission was granted, and which window matches the
//! capture target (a user-chosen title, or the default title patterns).

use vstd::prelude::*;

verus! {

/// Info about one visible window on the system.
#[derive(Debug, Clone)]
pub struct WindowInfo {
    pub title: String,
    pub app_name: String,
    pub width: u32,
    pub height: u32,
}

/// Result of listing windows, with diagnostic info: how many the OS
/// returned before filtering, and whether screen-recording permission
/// appears granted.
#[derive(Debug, Clone)]
pub struct WindowListResult {
    pub windows: Vec<WindowInfo>,
    pub raw_count: usize,
    pub has_permission: bool,
}

/// A window worth listing: titled and at least 100 pixels each way.
pub open spec fn window_visible(w: WindowInfo) -> bool {
    &&& w.title@.len() > 0
    &&& w.width >= 100
    &&& w.height >= 100
}

/// Keep the windows worth listing, in order.
pub fn filter_windows(raw: Vec<WindowInfo>) -> (r: Vec<WindowInfo>)
    ensures
        r@ == raw@.filter(|w: WindowInfo| window_visible(w)),
{
    let ghost orig = raw@;
    let mut rest = raw;
    let n0: usize = rest.len();
    let mut out: Vec<WindowInfo> = Vec::new();
    let mut i: usize = 0;
    proof {
        assert(orig.len() == n0);
        reveal(Seq::filter);
        assert(orig.take(0) =~= Seq::<WindowInfo>::empty());
    }
    while rest.len() > 0
        invariant
            orig.len() <= usize::MAX,
            i + rest@.len() == orig.len(),
            rest@ == orig.skip(i as int),
            out@ == orig.take(i as int).filter(|w: WindowInfo| window_visible(w)),
        decreases rest@.len(),
    {
        let w = rest.remove(0);
        proof {
            assert(rest@ =~= orig.skip(i + 1));
            assert(w == orig[i as int]);
        }
        let keep = !w.title.as_str().is_empty() && w.width >= 100 && w.height >= 100;
        if keep {
            out.push(w);
        }
        proof {
            reveal(Seq::filter);
            assert(orig.take(i + 1).drop_last() =~= orig.take(i as int));
            assert(orig.take(i + 1).last() == orig[i as int]);
        }
        i = i + 1;
    }
    proof {
        assert(orig.take(orig.len() as int) =~= orig);
    }
    out
}

/// Three pairwise-different nonempty app names are visible among the
/// first `n` entries.
pub open spec fn three_distinct_apps(names: Seq<Seq<char>>, n: int) -> bool {
    exists|a: int, b: int, c: int|
        {
            &&& 0 <= a < b < c < n
            &&& (#[trigger] names[a]).len() > 0
            &&& (#[trigger] names[b]).len() > 0
            &&& (#[trigger] names[c]).len() > 0
            &&& names[a] != names[b]
            &&& names[a] != names[c]
            &&& names[b] != names[c]
        }
}

/// Whether screen-recording permission is likely granted: without it the
/// OS only reports the caller's own windows, so seeing three or more
/// different app names is taken as permission granted.
pub fn check_screen_recording_permission(app_names: &Vec<String>) -> (r: bool)
    ensures
        r == three_distinct_apps(app_names@.map_values(|s: String| s@), app_names@.len() as int),
{
    let ghost views = app_names@.map_values(|s: String| s@);
    let mut seen: Vec<String> = Vec::new();
    let ghost mut seen_src: Seq<int> = Seq::empty();
    let mut i: usize = 0;
    while i < app_names.len()
        invariant
            i <= app_names@.len(),
            views == app_names@.map_values(|s: String| s@),
            views.len() == app_names@.len(),
            seen@.len() == seen_src.len(),
            seen@.len() <= 3,
            forall|q: int|
                0 <= q < seen@.len() ==> 0 <= #[trigger] seen_src[q] < i && views[seen_src[q]]
                    == seen@[q]@ && seen@[q]@.len() > 0,
            forall|q1: int, q2: int|
                0 <= q1 < q2 < seen@.len() ==> (#[trigger] seen@[q1])@ != (#[trigger] seen@[q2])@,
            forall|q1: int, q2: int|
                0 <= q1 < q2 < seen_src.len() ==> #[trigger] seen_src[q1]
                    < #[trigger] seen_src[q2],
            seen@.len() < 3 ==> forall|p: int|
                0 <= p < i && (#[trigger] views[p]).len() > 0 ==> exists|q: int|
                    0 <= q < seen@.len() && (#[trigger] seen@[q])@ == views[p],
        decreases app_names@.len() - i,
    {
        if seen.len() >= 3 {
            proof {
                let a = seen_src[0];
                let b = seen_src[1];
                let c = seen_src[2];
                assert(three_distinct_apps(views, app_names@.len() as int)) by {
                    assert(0 <= a < b < c < app_names@.len());
                    assert(views[a].len() > 0 && views[b].len() > 0 && views[c].len() > 0);
                    assert(views[a] != views[b] && views[a] != views[c] && views[b] != views[c]);
                }
            }
            return true;
        }
        let ghost seen0 = seen@;
        let ghost src0 = seen_src;
        let name = &app_names[i];
        let mut pushed: bool = false;
        if !name.as_str().is_empty() {
            let mut dup = false;
            let mut q: usize = 0;
            while q < seen.len()
                invariant
                    q <= seen@.len(),
                    i < app_names@.len(),
                    views == app_names@.map_values(|s: String| s@),
                    dup <==> exists|q2: int|
                        0 <= q2 < q && (#[trigger] seen@[q2])@ == app_names@[i as int]@,
                decreases seen@.len() - q,
            {
                if seen[q] == app_names[i] {
                    dup = true;
                }
                q = q + 1;
            }
            if !dup {
                seen.push(app_names[i].clone());
                proof {
                    seen_src = seen_src.push(i as int);
                }
                pushed = true;
            }
        }
        proof {
            assert(views[i as int] == app_names@[i as int]@);
            assert forall|q: int|
                0 <= q < seen@.len() implies 0 <= #[trigger] seen_src[q] < i + 1
                && views[seen_src[q]] == seen@[q]@ && seen@[q]@.len() > 0 by {
                if q < seen0.len() {
                    assert(seen@[q] == seen0[q]);
                    assert(seen_src[q] == src0[q]);
                } else {
                    assert(seen@[q] == app_names@[i as int]);
                    assert(seen_src[q] == i as int);
                }
            }
            if seen@.len() < 3 {
                assert forall|p: int|
                    0 <= p < i + 1 && (#[trigger] views[p]).len() > 0 implies exists|q: int|
                    0 <= q < seen@.len() && (#[trigger] seen@[q])@ == views[p] by {
                    if p == i {
                        if pushed {
                            assert((seen@[seen0.len() as int])@ == views[p]);
                        } else {
                            let q0 = choose|q2: int|
                                0 <= q2 < seen0.len() && (#[trigger] seen0[q2])@
                                    == app_names@[i as int]@;
                            assert((seen@[q0])@ == views[p]);
                        }
                    } else {
                        let q0 = choose|q2: int|
                            0 <= q2 < seen0.len() && (#[trigger] seen0[q2])@ == views[p];
                        assert((seen@[q0])@ == views[p]);
                    }
                }
            }
        }
        i = i + 1;
    }
    let r = seen.len() >= 3;
    proof {
        if r {
            let a = seen_src[0];
            let b = seen_src[1];
            let c = seen_src[2];
            assert(0 <= a < b < c < app_names@.len());
            assert(views[a].len() > 0 && views[b].len() > 0 && views[c].len() > 0);
            assert(views[a] != views[b] && views[a] != views[c] && views[b] != views[c]);
        } else {
            if three_distinct_apps(views, app_names@.len() as int) {
                let (a, b, c) = choose|a: int, b: int, c: int|
                    {
                        &&& 0 <= a < b < c < views.len()
                        &&& (#[trigger] views[a]).len() > 0
                        &&& (#[trigger] views[b]).len() > 0
                        &&& (#[trigger] views[c]).len() > 0
                        &&& views[a] != views[b]
                        &&& views[a] != views[c]
                        &&& views[b] != views[c]
                    };
                assert(exists|q: int| 0 <= q < seen@.len() && (#[trigger] seen@[q])@ == views[a]);
                assert(exists|q: int| 0 <= q < seen@.len() && (#[trigger] seen@[q])@ == views[b]);
                assert(exists|q: int| 0 <= q < seen@.len() && (#[trigger] seen@[q])@ == views[c]);
                let qa = choose|q: int| 0 <= q < seen@.len() && (#[trigger] seen@[q])@ == views[a];
                let qb = choose|q: int| 0 <= q < seen@.len() && (#[trigger] seen@[q])@ == views[b];
                let qc = choose|q: int| 0 <= q < seen@.len() && (#[trigger] seen@[q])@ == views[c];
                assert(qa != qb && qa != qc && qb != qc);
                assert(false);
            }
        }
    }
    r
}

/// ASCII lowercase of one byte.
pub open spec fn lower_byte(b: u8) -> u8 {
    if 65 <= b <= 90 {
        (b + 32) as u8
    } else {
        b
    }
}

/// ASCII lowercase of a byte sequence.
pub open spec fn lower_seq(s: Seq<u8>) -> Seq<u8> {
    Seq::new(s.len(), |i: int| lower_byte(s[i]))
}

/// `needle` occurs in `hay` starting at `off`.
pub open spec fn matches_at(hay: Seq<u8>, needle: Seq<u8>, off: int) -> bool {
    &&& 0 <= off
    &&& off + needle.len() <= hay.len()
    &&& forall|j: int| 0 <= j < needle.len() ==> #[trigger] hay[off + j] == needle[j]
}

/// `needle` occurs somewhere in `hay`.
pub open spec fn contains_seq(hay: Seq<u8>, needle: Seq<u8>) -> bool {
    exists|off: int| #[trigger] matches_at(hay, needle, off)
}

/// ASCII-lowercase copy of a byte string.
pub fn ascii_lowercase(v: &Vec<u8>) -> (r: Vec<u8>)
    ensures
        r@ == lower_seq(v@),
{
    let mut out: Vec<u8> = Vec::new();
    let mut i: usize = 0;
    while i < v.len()
        invariant
            i <= v@.len(),
            out@.len() == i,
            forall|j: int| 0 <= j < i ==> #[trigger] out@[j] == lower_byte(v@[j]),
        decreases v@.len() - i,
    {
        let b: u8 = v[i];
        if 65 <= b && b <= 90 {
            out.push(b + 32);
        } else {
            out.push(b);
        }
        i = i + 1;
    }
    proof {
        assert(out@ =~= lower_seq(v@));
    }
    out
}

/// Whether the (case-insensitively lowered) title contains the pattern.
pub fn title_contains(title: &Vec<u8>, pattern: &Vec<u8>) -> (r: bool)
    ensures
        r == contains_seq(lower_seq(title@), pattern@),
{
    let hay = ascii_lowercase(title);
    if pattern.len() > hay.len() {
        proof {
            assert forall|off: int| !matches_at(hay@, pattern@, off) by {}
        }
        return false;
    }
    let mut off: usize = 0;
    let hlen: usize = hay.len();
    while off <= hay.len() - pattern.len()
        invariant
            hay@ == lower_seq(title@),
            hay@.len() == hlen,
            pattern@.len() <= hay@.len(),
            off <= hay@.len() - pattern@.len() + 1,
            forall|o: int| 0 <= o < off ==> !matches_at(hay@, pattern@, o),
        decreases hay@.len() - pattern@.len() + 1 - off,
    {
        let mut j: usize = 0;
        let mut all: bool = true;
        while j < pattern.len()
            invariant
                j <= pattern@.len(),
                hay@.len() <= usize::MAX,
                off + pattern@.len() <= hay@.len(),
                all <==> (forall|k: int| 0 <= k < j ==> #[trigger] hay@[off + k] == pattern@[k]),
            decreases pattern@.len() - j,
        {
            proof {
                assert(off + j < hay@.len());
            }
            if hay[off + j] != pattern[j] {
                all = false;
            }
            j = j + 1;
        }
        if all {
            proof {
                assert(matches_at(hay@, pattern@, off as int));
            }
            return true;
        }
        proof {
            assert(!matches_at(hay@, pattern@, off as int));
        }
        off = off + 1;
    }
    proof {
        assert forall|o: int| !matches_at(hay@, pattern@, o) by {
            if 0 <= o && o + pattern@.len() <= hay@.len() {
                assert(o < off);
            }
        }
    }
    false
}

/// A title matches the selection when it contains any of the patterns,
/// case-insensitively.
pub open spec fn title_selected(title: Seq<u8>, patterns: Seq<Seq<u8>>) -> bool {
    exists|p: int| 0 <= p < patterns.len() && contains_seq(lower_seq(title), #[trigger] patterns[p])
}

/// Select the capture target: the first window whose title contains any
/// of the given (already lowercased) patterns, or `None` when no title
/// matches.
pub fn select_window(titles: &Vec<Vec<u8>>, patterns: &Vec<Vec<u8>>) -> (r: Option<usize>)
    ensures
        match r {
            Some(i) => {
                &&& 0 <= i < titles@.len()
                &&& title_selected(titles@[i as int]@, patterns@.map_values(|p: Vec<u8>| p@))
                &&& forall|j: int|
                    0 <= j < i ==> !title_selected(
                        (#[trigger] titles@[j])@,
                        patterns@.map_values(|p: Vec<u8>| p@),
                    )
            },
            None => forall|j: int|
                0 <= j < titles@.len() ==> !title_selected(
                    (#[trigger] titles@[j])@,
                    patterns@.map_values(|p: Vec<u8>| p@),
                ),
        },
{
    let ghost pviews = patterns@.map_values(|p: Vec<u8>| p@);
    let mut i: usize = 0;
    while i < titles.len()
        invariant
            i <= titles@.len(),
            pviews == patterns@.map_values(|p: Vec<u8>| p@),
            pviews.len() == patterns@.len(),
            forall|j: int| 0 <= j < i ==> !title_selected((#[trigger] titles@[j])@, pviews),
        decreases titles@.len() - i,
    {
        let mut p: usize = 0;
        let mut hit = false;
        while p < patterns.len()
            invariant
                p <= patterns@.len(),
                i < titles@.len(),
                pviews == patterns@.map_values(|p2: Vec<u8>| p2@),
                pviews.len() == patterns@.len(),
                hit <==> exists|p2: int|
                    0 <= p2 < p && contains_seq(
                        lower_seq(titles@[i as int]@),
                        #[trigger] pviews[p2],
                    ),
            decreases patterns@.len() - p,
        {
            if title_contains(&titles[i], &patterns[p]) {
                hit = true;
                proof {
                    assert(pviews[p as int] == patterns@[p as int]@);
                }
            }
            p = p + 1;
        }
        if hit {
            proof {
                assert(title_selected(titles@[i as int]@, pviews));
            }
            return Some(i);
        }
        proof {
            assert(!title_selected(titles@[i as int]@, pviews));
        }
        i = i + 1;
    }
    None
}

/// The default title patterns the capture target is auto-detected by
/// (matched case-insensitively).
pub fn default_title_patterns() -> (r: Vec<Vec<u8>>)
    ensures
        r@.len() == 5,
{
    let mut out: Vec<Vec<u8>> = Vec::new();
    out.push(crate::windows::bytes_of("league of legends"));
    out.push(crate::windows::bytes_of("riot games"));
    out.push(crate::windows::bytes_of("tft"));
    out.push(crate::windows::bytes_of("teamfight tactics"));
    out.push(crate::windows::bytes_of("leagueclient"));
    out
}

/// The UTF-8 bytes of a string slice, as an owned vector.
pub fn bytes_of(s: &str) -> (r: Vec<u8>)
    ensures
        r@ == vstd::utf8::encode_utf8(s@),
{
    let b = s.as_bytes();
    vstd::slice::slice_to_vec(b)
}

/// The shared target-window selector: a user-chosen title substring, or
/// `None` for auto-detection by the default patterns. Shared-ownership
/// and locking around it belong to the embedding application.
#[derive(Debug, Clone)]
pub struct TargetWindow {
    pub title: Option<String>,
}

/// A fresh target-window selector in auto-detection mode.
pub fn new_target_window() -> (r: TargetWindow)
    ensures
        r.title is None,
{
    TargetWindow { title: None }
}

}
