use face_prediction::geometry::{bbox_area, iou, iou_exceeds, BoundingBox, COORD_SCALE};

fn bb(x_tl: i64, y_tl: i64, x_br: i64, y_br: i64) -> BoundingBox {
    BoundingBox { x_tl, y_tl, x_br, y_br }
}

#[test]
fn area_of_half_frame_box() {
    // A box over [0, 0.5] x [0, 0.25] has area 0.125 in normalized units.
    let b = bb(0, 0, 500_000, 250_000);
    assert_eq!(bbox_area(&b), 500_000 * 250_000);
}

#[test]
fn area_of_full_frame_box() {
    let b = bb(0, 0, COORD_SCALE, COORD_SCALE);
    assert_eq!(bbox_area(&b), COORD_SCALE * COORD_SCALE);
}

#[test]
fn area_of_inverted_box_is_zero() {
    // Bottom-right above and to the left of top-left: degenerate, exactly zero.
    let b = bb(700_000, 700_000, 200_000, 100_000);
    assert_eq!(bbox_area(&b), 0);

    let only_x_inverted = bb(700_000, 100_000, 200_000, 900_000);
    assert_eq!(bbox_area(&only_x_inverted), 0);

    let only_y_inverted = bb(100_000, 700_000, 900_000, 200_000);
    assert_eq!(bbox_area(&only_y_inverted), 0);
}

#[test]
fn area_is_never_negative() {
    let boxes = [
        bb(0, 0, 0, 0),
        bb(1_000_000, 1_000_000, 0, 0),
        bb(300_000, 300_000, 300_000, 300_000),
        bb(0, 0, 1, 1),
    ];
    for b in boxes.iter() {
        assert!(bbox_area(b) >= 0);
    }
}

#[test]
fn iou_of_box_with_itself_is_one() {
    let b = bb(0, 0, 500_000, 500_000);
    let r = iou(&b, &b);
    assert!(r.num > 0);
    assert_eq!(r.num, r.den);
}

#[test]
fn iou_is_symmetric() {
    let a = bb(0, 0, 500_000, 500_000);
    let b = bb(50_000, 50_000, 550_000, 550_000);
    let ab = iou(&a, &b);
    let ba = iou(&b, &a);
    assert_eq!(ab.num, ba.num);
    assert_eq!(ab.den, ba.den);
}

#[test]
fn iou_stays_in_unit_range() {
    let boxes = [
        bb(0, 0, 500_000, 500_000),
        bb(50_000, 50_000, 550_000, 550_000),
        bb(600_000, 600_000, 900_000, 900_000),
        bb(700_000, 700_000, 200_000, 100_000),
        bb(0, 0, 0, 0),
    ];
    for a in boxes.iter() {
        for b in boxes.iter() {
            let r = iou(a, b);
            assert!(r.den >= 1);
            assert!(r.num >= 0);
            assert!(r.num <= r.den);
        }
    }
}

#[test]
fn iou_of_two_degenerate_boxes_is_zero() {
    // Both areas are zero; the union is empty and the ratio is defined as 0/1.
    let a = bb(300_000, 300_000, 300_000, 300_000);
    let b = bb(900_000, 900_000, 100_000, 100_000);
    let r = iou(&a, &b);
    assert_eq!(r.num, 0);
    assert_eq!(r.den, 1);
}

#[test]
fn iou_of_disjoint_boxes_is_zero() {
    let a = bb(0, 0, 200_000, 200_000);
    let b = bb(600_000, 600_000, 900_000, 900_000);
    let r = iou(&a, &b);
    assert_eq!(r.num, 0);
}

#[test]
fn iou_of_the_example_pair_exceeds_half() {
    // A = [0, 0, 0.5, 0.5], B = [0.05, 0.05, 0.55, 0.55]: the overlap is a
    // 0.45 x 0.45 square, the union 0.2975, so the ratio is about 0.68.
    let a = bb(0, 0, 500_000, 500_000);
    let b = bb(50_000, 50_000, 550_000, 550_000);
    let r = iou(&a, &b);
    assert_eq!(r.num, 450_000 * 450_000);
    assert_eq!(r.den, 2 * 500_000 * 500_000 - 450_000 * 450_000);
    assert!(iou_exceeds(&a, &b, 500_000));
    assert!(!iou_exceeds(&a, &b, 700_000));
}
