//! Text-reader support: preprocessing, parsing, validation.

use tft_vision::DigitReader;
use tft_vision::Frame;
use tft_vision::ocr::parse_number;
use tft_vision::ocr::prepare_ocr_input;
use tft_vision::ocr::preprocess_for_ocr;
use tft_vision::ocr::upscale_nearest;
use tft_vision::ocr::validate_stage;

fn frame_from_fn(width: u32, height: u32, f: impl Fn(u32, u32) -> (u8, u8, u8)) -> Frame {
    let mut data = Vec::with_capacity((width * height * 4) as usize);
    for y in 0..height {
        for x in 0..width {
            let (r, g, b) = f(x, y);
            data.push(r);
            data.push(g);
            data.push(b);
            data.push(255);
        }
    }
    Frame::from_raw(width, height, data).expect("dimensions fit")
}

#[test]
fn test_preprocess() {
    let img = frame_from_fn(10, 10, |x, _| {
        if x < 5 {
            (200, 200, 200)
        } else {
            (30, 30, 30)
        }
    });
    let processed = preprocess_for_ocr(&img);
    assert_eq!(processed.get(0, 0), 0);
    assert_eq!(processed.get(9, 0), 255);
}

#[test]
fn test_upscale_nearest_replicates_pixels() {
    let img = frame_from_fn(2, 2, |x, y| ((x * 100) as u8, (y * 100) as u8, 7));
    let big = upscale_nearest(&img, 3);
    assert_eq!(big.width, 6);
    assert_eq!(big.height, 6);
    for y in 0..6 {
        for x in 0..6 {
            let px = big.pixel(x, y);
            let src = img.pixel(x / 3, y / 3);
            assert_eq!(px, src);
        }
    }
}

#[test]
fn test_prepare_ocr_input_upscales_small_crops() {
    let img = frame_from_fn(20, 10, |x, _| {
        if x < 10 {
            (220, 220, 220)
        } else {
            (20, 20, 20)
        }
    });
    let prepared = prepare_ocr_input(&img).expect("large enough after upscaling");
    assert_eq!(prepared.width, 60);
    assert_eq!(prepared.height, 30);
}

#[test]
fn test_prepare_ocr_input_rejects_tiny_crops() {
    let img = frame_from_fn(1, 1, |_, _| (200, 200, 200));
    assert!(prepare_ocr_input(&img).is_none());
}

#[test]
fn test_parse_number() {
    assert_eq!(parse_number(&b"0".to_vec()), Some(0));
    assert_eq!(parse_number(&b"47".to_vec()), Some(47));
    assert_eq!(parse_number(&b"4294967295".to_vec()), Some(u32::MAX));
    assert_eq!(parse_number(&b"4294967296".to_vec()), None);
    assert_eq!(parse_number(&b"".to_vec()), None);
    assert_eq!(parse_number(&b"12a".to_vec()), None);
    assert_eq!(parse_number(&b"-5".to_vec()), None);
}

#[test]
fn test_validate_stage() {
    assert_eq!(validate_stage(b"3-2".to_vec()), Some(b"3-2".to_vec()));
    assert_eq!(validate_stage(b"32".to_vec()), None);
    assert_eq!(validate_stage(b"-1".to_vec()), None);
    assert_eq!(validate_stage(b"666".to_vec()), None);
    assert_eq!(validate_stage(b"10-3".to_vec()), Some(b"10-3".to_vec()));
}

#[test]
fn test_reader_unavailable_reads_nothing() {
    let reader = DigitReader::new(false);
    assert!(!reader.is_available());
    assert_eq!(reader.read_number(&Some(b"42".to_vec())), None);
    assert_eq!(reader.read_stage(Some(b"3-2".to_vec())), None);
}

#[test]
fn test_reader_available_parses() {
    let reader = DigitReader::new(true);
    assert!(reader.is_available());
    assert_eq!(reader.read_number(&Some(b"42".to_vec())), Some(42));
    assert_eq!(reader.read_number(&None), None);
    assert_eq!(reader.read_stage(Some(b"4-7".to_vec())), Some(b"4-7".to_vec()));
    assert_eq!(reader.read_stage(Some(b"47".to_vec())), None);
}
