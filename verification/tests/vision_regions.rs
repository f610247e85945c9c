//! Region arithmetic: the reference regions and the clamped crop.

use tft_vision::Frame;
use tft_vision::ScreenRegion;
use tft_vision::region;
use tft_vision::region::crop_region;

fn solid_frame(width: u32, height: u32, rgb: (u8, u8, u8)) -> Frame {
    let mut data = Vec::with_capacity((width * height * 4) as usize);
    for _ in 0..width * height {
        data.push(rgb.0);
        data.push(rgb.1);
        data.push(rgb.2);
        data.push(255);
    }
    Frame::from_raw(width, height, data).expect("dimensions fit")
}

#[test]
fn test_shop_slot_regions() {
    for i in 0..5 {
        let region = region::shop_slot(i);
        assert!(region.x <= 10000);
        assert!(region.y <= 10000);
        assert!(region.x + region.width <= 10100);
    }
}

#[test]
fn test_crop_region() {
    let img = solid_frame(1920, 1080, (0, 0, 0));
    let region = ScreenRegion { x: 5000, y: 5000, width: 1000, height: 1000 };
    let cropped = crop_region(&img, &region);
    assert_eq!(cropped.width, 192);
    assert_eq!(cropped.height, 108);
}

#[test]
fn test_crop_region_clamps_overshoot() {
    // A region that numerically overshoots the frame is clamped, never a
    // panic, and the output stays inside the frame.
    let img = solid_frame(100, 100, (10, 20, 30));
    let region = ScreenRegion { x: 9000, y: 9500, width: 5000, height: 5000 };
    let cropped = crop_region(&img, &region);
    assert!(cropped.width <= 10);
    assert!(cropped.height <= 5);
}

#[test]
fn test_crop_region_pixels() {
    let mut img = solid_frame(10, 10, (1, 2, 3));
    img.set_pixel(5, 5, 200, 100, 50);
    let region = ScreenRegion { x: 5000, y: 5000, width: 1000, height: 1000 };
    let cropped = crop_region(&img, &region);
    assert_eq!(cropped.width, 1);
    assert_eq!(cropped.height, 1);
    let px = cropped.pixel(0, 0);
    assert_eq!((px.0, px.1, px.2), (200, 100, 50));
}

#[test]
fn test_reference_boxes_inside_unit_square() {
    for r in [region::gold(), region::level(), region::stage()] {
        assert!(r.x + r.width <= 10000);
        assert!(r.y + r.height <= 10000);
    }
}
