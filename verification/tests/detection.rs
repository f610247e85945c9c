//! Game-area location on synthetic frames.

use tft_vision::ChampionMatcher;
use tft_vision::DigitReader;
use tft_vision::Frame;
use tft_vision::detect_game_area;
use tft_vision::vision;

/// A synthetic game frame: bright board, dark HUD bar, five evenly
/// spaced bright card columns, dark bottom edge.
fn make_tft_frame(width: u32, height: u32) -> Frame {
    let hud_y = (height as u64 * 78 / 100) as u32;
    let card_top = (height as u64 * 82 / 100) as u32;
    let card_bottom = (height as u64 * 96 / 100) as u32;
    let card_area_width = (width as u64 * 43 / 100) as u32;
    let card_start_x = (width as u64 * 285 / 1000) as u32;
    let card_width = card_area_width / 5;
    let gap = card_width / 10;

    let mut data = Vec::with_capacity((width * height * 4) as usize);
    for y in 0..height {
        for x in 0..width {
            let rgb: (u8, u8, u8) = if y < hud_y {
                (100, 120, 90)
            } else if y < card_top {
                (15, 15, 20)
            } else if y < card_bottom {
                let mut px = (10, 10, 10);
                for i in 0..5 {
                    let cx = card_start_x + i * card_width + gap;
                    let cw = card_width - gap * 2;
                    if x >= cx && x < cx + cw {
                        px = (140, 130, 120);
                    }
                }
                px
            } else {
                (5, 5, 5)
            };
            data.push(rgb.0);
            data.push(rgb.1);
            data.push(rgb.2);
            data.push(255);
        }
    }
    Frame::from_raw(width, height, data).expect("dimensions fit")
}

#[test]
fn test_fullscreen_tft_returns_full_frame() {
    let frame = make_tft_frame(1920, 1080);
    let result = detect_game_area(&frame);
    assert!(result.is_some(), "Should detect game area in fullscreen TFT");
    let area = result.unwrap();
    assert!(
        area.region.width > 8000 && area.region.height > 8000,
        "Fullscreen TFT should return ~full frame, got w={} h={}",
        area.region.width,
        area.region.height
    );
}

#[test]
fn test_windowed_tft_detected() {
    // The game in a window surrounded by uniform desktop-like content.
    let mut frame = {
        let mut data = Vec::with_capacity(2560usize * 1440 * 4);
        for _ in 0..2560usize * 1440 {
            data.push(80);
            data.push(80);
            data.push(85);
            data.push(255);
        }
        Frame::from_raw(2560, 1440, data).expect("dimensions fit")
    };
    let tft = make_tft_frame(1920, 1080);
    let offset_x = (2560 - 1920) / 2;
    let offset_y = (1440 - 1080) / 2;
    for y in 0..1080u32 {
        for x in 0..1920u32 {
            let px = tft.pixel(x, y);
            frame.set_pixel(x + offset_x, y + offset_y, px.0, px.1, px.2);
        }
    }

    let result = detect_game_area(&frame);
    assert!(result.is_some(), "Should detect game area in windowed TFT");
    let area = result.unwrap();
    assert!(
        area.region.width < 9500 || area.region.height < 9500,
        "Windowed TFT should not return full frame"
    );
    assert!(area.confidence > 300, "Should have reasonable confidence");
}

#[test]
fn test_non_tft_returns_none() {
    let mut data = Vec::with_capacity(1920usize * 1080 * 4);
    for _ in 0..1920usize * 1080 {
        data.push(128);
        data.push(128);
        data.push(128);
        data.push(255);
    }
    let frame = Frame::from_raw(1920, 1080, data).expect("dimensions fit");
    let result = detect_game_area(&frame);
    assert!(result.is_none(), "Uniform gray should not be detected as TFT");
}

#[test]
fn test_small_frame_returns_none() {
    let mut data = Vec::with_capacity(50usize * 50 * 4);
    for _ in 0..50usize * 50 {
        data.push(0);
        data.push(0);
        data.push(0);
        data.push(255);
    }
    let frame = Frame::from_raw(50, 50, data).expect("dimensions fit");
    assert!(detect_game_area(&frame).is_none());
}

#[test]
fn test_analyze_full_frame_end_to_end() {
    let matcher = ChampionMatcher::new();
    let reader = DigitReader::new(true);

    // A uniform frame has no game area, so there is nothing to analyze.
    let mut gray = Vec::with_capacity(200usize * 200 * 4);
    for _ in 0..200usize * 200 {
        gray.extend_from_slice(&[90, 90, 90, 255]);
    }
    let uniform = Frame::from_raw(200, 200, gray).expect("dimensions fit");
    assert!(vision::analyze_full_frame(&uniform, &matcher).is_none());

    // The synthetic game frame yields an analysis with all-or-nothing
    // shop slots, and the reader texts flow into the final result.
    let frame = make_tft_frame(1920, 1080);
    let analysis = vision::analyze_full_frame(&frame, &matcher).expect("game area expected");
    let n = analysis.shop.len();
    assert!(n == 0 || n == 5, "slots must be all-or-nothing, got {}", n);
    let result = vision::process_frame(
        analysis,
        &reader,
        Some(b"47".to_vec()),
        Some(b"8".to_vec()),
        Some(b"4-2".to_vec()),
    );
    assert_eq!(result.gold, Some(47));
    assert_eq!(result.level, Some(8));
    assert_eq!(result.stage.as_deref(), Some("4-2"));
}
