use face_validator::decode::{create_detection, process_predictions, RawDetection};
use face_validator::types::{BBox, CONF_SCALE, CONF_THRESHOLD};

fn row(cx: i64, cy: i64, w: i64, h: i64, confidence: i64) -> RawDetection {
    RawDetection { cx, cy, w, h, confidence }
}

#[test]
fn decode_centered_box_at_matching_resolution() {
    // (0.5, 0.5, 0.2, 0.2, 0.9) at 640x640: center (320, 320),
    // half-sizes 64: corners (256, 256) and (384, 384).
    let prediction = row(500_000, 500_000, 200_000, 200_000, 900_000);
    let d = create_detection(&prediction, 640, 640);
    assert_eq!(d.bbox, BBox { x1: 256, y1: 256, x2: 384, y2: 384 });
    assert_eq!(d.confidence, 900_000);
}

#[test]
fn decode_scales_each_axis_independently() {
    // Same box on a 1280x320 original: x doubles, y halves.
    let prediction = row(500_000, 500_000, 200_000, 200_000, 700_000);
    let d = create_detection(&prediction, 1280, 320);
    assert_eq!(d.bbox, BBox { x1: 512, y1: 128, x2: 768, y2: 192 });
}

#[test]
fn decode_clamps_to_image_bounds() {
    // A box hanging over the left edge clamps its low corner to 0; one
    // hanging over the right edge clamps its high corner to the width.
    let left = row(10_000, 500_000, 400_000, 200_000, 800_000);
    let d = create_detection(&left, 640, 640);
    assert_eq!(d.bbox.x1, 0);
    let right = row(990_000, 500_000, 400_000, 200_000, 800_000);
    let d2 = create_detection(&right, 640, 640);
    assert_eq!(d2.bbox.x2, 640);
}

#[test]
fn decode_rounds_halves_away_from_zero() {
    // cx = 0.5, w = 0.25 at a 6-pixel-wide image: corners at
    // (0.5 - 0.125) * 6 = 2.25 -> 2 and (0.5 + 0.125) * 6 = 3.75 -> 4;
    // and with w = 0.5: corners 1.5 -> 2 and 4.5 -> 5.
    let a = create_detection(&row(500_000, 500_000, 250_000, 250_000, 800_000), 6, 6);
    assert_eq!((a.bbox.x1, a.bbox.x2), (2, 4));
    let b = create_detection(&row(500_000, 500_000, 500_000, 500_000, 800_000), 6, 6);
    assert_eq!((b.bbox.x1, b.bbox.x2), (2, 5));
}

#[test]
fn predictions_below_threshold_are_dropped() {
    let rows = vec![
        row(500_000, 500_000, 200_000, 200_000, CONF_THRESHOLD as i64 - 1),
        row(500_000, 500_000, 200_000, 200_000, CONF_THRESHOLD as i64),
    ];
    let detections = process_predictions(&rows, 640, 640).unwrap();
    assert_eq!(detections.len(), 1);
    assert_eq!(detections[0].confidence, CONF_THRESHOLD);
}

#[test]
fn predictions_come_back_sorted_by_confidence_descending() {
    let rows = vec![
        row(100_000, 100_000, 50_000, 50_000, 650_000),
        row(500_000, 500_000, 200_000, 200_000, CONF_SCALE as i64),
        row(800_000, 800_000, 100_000, 100_000, 700_000),
    ];
    let detections = process_predictions(&rows, 640, 640).unwrap();
    let confidences: Vec<u32> = detections.iter().map(|d| d.confidence).collect();
    assert_eq!(confidences, vec![1_000_000, 700_000, 650_000]);
}

#[test]
fn empty_predictions_decode_to_no_detections() {
    let rows: Vec<RawDetection> = Vec::new();
    let detections = process_predictions(&rows, 640, 640).unwrap();
    assert!(detections.is_empty());
}
