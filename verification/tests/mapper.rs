use face_prediction::geometry::BoundingBox;
use face_prediction::mapper::{
    map_detection_box, CropRegion, ULTRA_INPUT_HEIGHT, ULTRA_INPUT_WIDTH,
};

fn bb(x_tl: i64, y_tl: i64, x_br: i64, y_br: i64) -> BoundingBox {
    BoundingBox { x_tl, y_tl, x_br, y_br }
}

const FULL: i64 = 1_000_000;

#[test]
fn equal_ratio_scales_directly_with_zero_offset() {
    // Image and detector frame share the 4:3 ratio: each fraction scales
    // by the image dimension alone.
    let b = bb(250_000, 250_000, 750_000, 750_000);
    let region = map_detection_box(&b, 640, 480, ULTRA_INPUT_WIDTH, ULTRA_INPUT_HEIGHT);
    assert_eq!(
        region,
        CropRegion::Usable { x: 160, y: 120, width: 320, height: 240 }
    );
}

#[test]
fn wider_image_gets_a_horizontal_offset() {
    // A 1000 x 500 image is wider than 4:3: the detector saw it shrunk to a
    // scaled width of 4/3 * 500 = 666.67 pixels with 166.67 pixels of
    // padding on each side. The full-frame box lands on that inner region.
    let b = bb(0, 0, FULL, FULL);
    let region = map_detection_box(&b, 1000, 500, ULTRA_INPUT_WIDTH, ULTRA_INPUT_HEIGHT);
    assert_eq!(
        region,
        CropRegion::Usable { x: 166, y: 0, width: 666, height: 500 }
    );
}

#[test]
fn taller_image_gets_a_vertical_offset() {
    // A 480 x 960 image is taller than 4:3: scaled height 480 / (4/3) = 360
    // with 300 pixels of padding above and below.
    let b = bb(0, 0, FULL, FULL);
    let region = map_detection_box(&b, 480, 960, ULTRA_INPUT_WIDTH, ULTRA_INPUT_HEIGHT);
    assert_eq!(
        region,
        CropRegion::Usable { x: 0, y: 300, width: 480, height: 360 }
    );
}

#[test]
fn full_frame_box_never_exceeds_the_image() {
    let b = bb(0, 0, FULL, FULL);
    let dims = [(1000u64, 500u64), (480, 960), (640, 480), (3, 7), (1, 1)];
    for (w, h) in dims.iter() {
        match map_detection_box(&b, *w, *h, ULTRA_INPUT_WIDTH, ULTRA_INPUT_HEIGHT) {
            CropRegion::Usable { x, y, width, height } => {
                assert!(x + width <= *w, "crop sticks out of {}x{}", w, h);
                assert!(y + height <= *h);
                assert!(x <= *w);
                assert!(y <= *h);
            }
            CropRegion::Degenerate => {
                // A tiny image may leave no whole pixel; that is a valid
                // outcome, not an error.
            }
        }
    }
}

#[test]
fn inverted_box_maps_to_a_degenerate_crop() {
    let b = bb(700_000, 700_000, 200_000, 200_000);
    let region = map_detection_box(&b, 640, 480, ULTRA_INPUT_WIDTH, ULTRA_INPUT_HEIGHT);
    assert_eq!(region, CropRegion::Degenerate);
}

#[test]
fn sub_pixel_box_maps_to_a_degenerate_crop() {
    // Half a pixel wide on a 640-wide image: no whole pixel survives the
    // truncation.
    let b = bb(500_000, 0, 500_700, FULL);
    let region = map_detection_box(&b, 640, 480, ULTRA_INPUT_WIDTH, ULTRA_INPUT_HEIGHT);
    assert_eq!(region, CropRegion::Degenerate);
}

#[test]
fn detector_frame_rect_for_drawing() {
    // Drawing boxes back onto the detector-sized frame itself is the
    // equal-ratio case with the frame's own dimensions.
    let b = bb(100_000, 200_000, 400_000, 900_000);
    let region = map_detection_box(
        &b,
        ULTRA_INPUT_WIDTH,
        ULTRA_INPUT_HEIGHT,
        ULTRA_INPUT_WIDTH,
        ULTRA_INPUT_HEIGHT,
    );
    assert_eq!(
        region,
        CropRegion::Usable { x: 64, y: 96, width: 192, height: 336 }
    );
}
