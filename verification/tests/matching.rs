//! Normalized cross-correlation and champion matching.

use tft_vision::ChampionMatcher;
use tft_vision::Frame;
use tft_vision::GrayFrame;
use tft_vision::ncc::ncc_milli;

fn gray_from_fn(width: u32, height: u32, f: impl Fn(u32, u32) -> u8) -> GrayFrame {
    let mut data = Vec::with_capacity((width * height) as usize);
    for y in 0..height {
        for x in 0..width {
            data.push(f(x, y));
        }
    }
    GrayFrame::from_raw(width, height, data).expect("dimensions fit")
}

fn frame_from_fn(width: u32, height: u32, f: impl Fn(u32, u32) -> (u8, u8, u8)) -> Frame {
    let mut data = Vec::with_capacity((width * height * 4) as usize);
    for y in 0..height {
        for x in 0..width {
            let (r, g, b) = f(x, y);
            data.push(r);
            data.push(g);
            data.push(b);
            data.push(255);
        }
    }
    Frame::from_raw(width, height, data).expect("dimensions fit")
}

#[test]
fn test_ncc_identical() {
    let img = gray_from_fn(48, 48, |x, y| {
        (x.wrapping_mul(7).wrapping_add(y.wrapping_mul(13)) % 256) as u8
    });
    let score = ncc_milli(&img, &img);
    assert_eq!(
        score, 1000,
        "Identical images should have NCC = 1.0, got {} milli",
        score
    );
}

#[test]
fn test_ncc_different() {
    let img1 = gray_from_fn(48, 48, |x, _| (x % 256) as u8);
    let img2 = gray_from_fn(48, 48, |_, y| (y % 256) as u8);
    let score = ncc_milli(&img1, &img2);
    assert!(score < 500, "Different images should have low NCC, got {}", score);
}

#[test]
fn test_ncc_brightness_shift() {
    // A uniform brightness/contrast shift leaves the correlation at
    // exactly 1: img2 = 2 * img1 + 30 pointwise, no clamping involved.
    let img1 = gray_from_fn(48, 48, |x, y| ((x * 2 + y) % 100) as u8);
    let img2 = gray_from_fn(48, 48, |x, y| (((x * 2 + y) % 100) * 2 + 30) as u8);
    let score = ncc_milli(&img1, &img2);
    assert_eq!(score, 1000, "Affine-shifted image should correlate at 1.0, got {}", score);
}

#[test]
fn test_uniform_image_returns_none() {
    let matcher = ChampionMatcher::new();
    let img = frame_from_fn(100, 100, |_, _| (128, 128, 128));
    assert!(matcher.match_champion(&img).is_none());
}

#[test]
fn test_uniform_image_returns_none_with_templates() {
    // The near-uniform guard fires whatever the template set holds.
    let mut matcher = ChampionMatcher::new();
    let icon = frame_from_fn(96, 96, |x, y| (((x * 2) % 256) as u8, ((y * 2) % 256) as u8, 7));
    matcher.add_template("champ1".to_string(), "Champ One".to_string(), 3, &icon);
    assert_eq!(matcher.template_count(), 1);
    let img = frame_from_fn(100, 100, |_, _| (128, 128, 128));
    assert!(matcher.match_champion(&img).is_none());
}

#[test]
fn test_matching_recovers_template() {
    // The same artwork at a different size must match its template with
    // high confidence; an unrelated uniform-ish slot must not.
    let mut matcher = ChampionMatcher::new();
    let icon = frame_from_fn(96, 96, |x, y| {
        (((x * 37) % 200) as u8, ((y * 53) % 200) as u8, ((x + y) % 200) as u8)
    });
    matcher.add_template("champ1".to_string(), "Champ One".to_string(), 3, &icon);
    let query = frame_from_fn(192, 192, |x, y| {
        let sx = x / 2;
        let sy = y / 2;
        (((sx * 37) % 200) as u8, ((sy * 53) % 200) as u8, ((sx + sy) % 200) as u8)
    });
    let result = matcher.match_champion(&query).expect("should match its own artwork");
    assert_eq!(result.champion_id, "champ1");
    assert_eq!(result.champion_name, "Champ One");
    assert_eq!(result.cost, 3);
    assert!(result.confidence >= 400, "confidence {} too low", result.confidence);
}
