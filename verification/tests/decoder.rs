use face_prediction::geometry::BoundingBox;
use face_prediction::post_processor::{
    confidences_from_pairs, filter_by_confidence, non_maximum_suppression, sort_by_confidence,
    DecodeError, Detection, UltraOutput,
};

const HALF: i64 = 500_000;

fn bb(x_tl: i64, y_tl: i64, x_br: i64, y_br: i64) -> BoundingBox {
    BoundingBox { x_tl, y_tl, x_br, y_br }
}

#[test]
fn nms_example_keeps_only_the_more_confident_box() {
    // A = [0, 0, 0.5, 0.5] at confidence 0.9 and B = [0.05, 0.05, 0.55, 0.55]
    // at confidence 0.6 overlap with an IoU above 0.5: only A survives.
    let confidences = vec![900_000, 600_000];
    let bbox_flat = vec![
        0, 0, 500_000, 500_000, // A
        50_000, 50_000, 550_000, 550_000, // B
    ];
    let output = UltraOutput::new(&confidences, &bbox_flat, HALF, HALF).unwrap();
    let selected = &output.bbox_with_confidences;
    assert_eq!(selected.len(), 1);
    assert_eq!(selected[0].confidence, 900_000);
    assert_eq!(selected[0].bbox, bb(0, 0, 500_000, 500_000));
}

#[test]
fn decode_with_no_candidate_above_threshold_is_empty() {
    let confidences = vec![400_000, 500_000];
    let bbox_flat = vec![0, 0, 500_000, 500_000, 100_000, 100_000, 600_000, 600_000];
    // 0.4 is below and 0.5 is exactly at the threshold; neither survives.
    let output = UltraOutput::new(&confidences, &bbox_flat, HALF, HALF).unwrap();
    assert_eq!(output.bbox_with_confidences.len(), 0);
}

#[test]
fn face_scores_are_the_second_of_each_pair() {
    let score_flat = vec![100_000, 900_000, 800_000, 200_000];
    let confidences = confidences_from_pairs(&score_flat).unwrap();
    assert_eq!(confidences, vec![900_000, 200_000]);
}

#[test]
fn face_scores_reject_a_misaligned_score_tensor() {
    let score_flat = vec![100_000, 900_000, 800_000];
    let result = confidences_from_pairs(&score_flat);
    assert!(matches!(result, Err(DecodeError::ScoreTensorMisaligned)));
}

#[test]
fn decode_rejects_a_misaligned_box_tensor() {
    let confidences = vec![900_000];
    let bbox_flat = vec![0, 0, 500_000, 500_000, 100_000];
    let result = UltraOutput::new(&confidences, &bbox_flat, HALF, HALF);
    assert!(matches!(result, Err(DecodeError::BoxTensorMisaligned)));
}

#[test]
fn decode_rejects_a_candidate_count_mismatch() {
    let confidences = vec![900_000];
    let bbox_flat = vec![0, 0, 500_000, 500_000, 100_000, 100_000, 600_000, 600_000];
    let result = UltraOutput::new(&confidences, &bbox_flat, HALF, HALF);
    assert!(matches!(result, Err(DecodeError::CandidateCountMismatch)));
}

#[test]
fn decoded_detections_come_most_confident_first() {
    // Three boxes far apart, handed over in mixed confidence order.
    let confidences = vec![600_000, 900_000, 750_000];
    let bbox_flat = vec![
        0, 0, 100_000, 100_000, //
        400_000, 400_000, 500_000, 500_000, //
        800_000, 800_000, 900_000, 900_000,
    ];
    let output = UltraOutput::new(&confidences, &bbox_flat, HALF, HALF).unwrap();
    let selected = &output.bbox_with_confidences;
    assert_eq!(selected.len(), 3);
    assert_eq!(selected[0].confidence, 900_000);
    assert_eq!(selected[1].confidence, 750_000);
    assert_eq!(selected[2].confidence, 600_000);
}

#[test]
fn equal_confidences_keep_a_deterministic_order() {
    // Two distant boxes with the same confidence: the ascending sort is
    // stable, and suppression takes candidates from the back, so the later
    // input box comes out first.
    let confidences = vec![800_000, 800_000];
    let bbox_flat = vec![
        0, 0, 100_000, 100_000, //
        800_000, 800_000, 900_000, 900_000,
    ];
    let output = UltraOutput::new(&confidences, &bbox_flat, HALF, HALF).unwrap();
    let selected = &output.bbox_with_confidences;
    assert_eq!(selected.len(), 2);
    assert_eq!(selected[0].bbox, bb(800_000, 800_000, 900_000, 900_000));
    assert_eq!(selected[1].bbox, bb(0, 0, 100_000, 100_000));
}

#[test]
fn nms_output_is_a_subset_of_its_input() {
    let input = vec![
        Detection { bbox: bb(0, 0, 300_000, 300_000), confidence: 600_000 },
        Detection { bbox: bb(20_000, 20_000, 320_000, 320_000), confidence: 700_000 },
        Detection { bbox: bb(600_000, 600_000, 900_000, 900_000), confidence: 800_000 },
    ];
    let selected = non_maximum_suppression(input.clone(), HALF);
    for d in selected.iter() {
        assert!(input.iter().any(|orig| orig == d));
    }
}

#[test]
fn filter_drops_everything_at_or_below_the_threshold() {
    let confidences = vec![500_001, 500_000, 499_999, 1_000_000];
    let boxes = vec![
        bb(0, 0, 100_000, 100_000),
        bb(0, 0, 200_000, 200_000),
        bb(0, 0, 300_000, 300_000),
        bb(0, 0, 400_000, 400_000),
    ];
    let kept = filter_by_confidence(&confidences, &boxes, HALF);
    assert_eq!(kept.len(), 2);
    assert_eq!(kept[0].confidence, 500_001);
    assert_eq!(kept[1].confidence, 1_000_000);
}

#[test]
fn sort_by_confidence_is_ascending_and_stable() {
    let a = Detection { bbox: bb(0, 0, 100_000, 100_000), confidence: 700_000 };
    let b = Detection { bbox: bb(0, 0, 200_000, 200_000), confidence: 600_000 };
    let c = Detection { bbox: bb(0, 0, 300_000, 300_000), confidence: 700_000 };
    let sorted = sort_by_confidence(&vec![a, b, c]);
    assert_eq!(sorted.len(), 3);
    assert_eq!(sorted[0], b);
    // a and c share a confidence; a came first and stays first.
    assert_eq!(sorted[1], a);
    assert_eq!(sorted[2], c);
}
