use face_validator::decode::RawDetection;
use face_validator::pipeline::decode_and_cluster;
use face_validator::response::build_validation_response;
use face_validator::types::BBox;

fn row(cx: i64, cy: i64, w: i64, h: i64, confidence: i64) -> RawDetection {
    RawDetection { cx, cy, w, h, confidence }
}

#[test]
fn one_face_with_overlapping_candidates_validates() {
    // The detector typically emits several overlapping candidates for
    // one face; the pipeline must collapse them to a single box.
    let predictions = vec![
        row(500_000, 500_000, 200_000, 200_000, 950_000),
        row(505_000, 505_000, 200_000, 200_000, 900_000),
        row(495_000, 495_000, 210_000, 210_000, 870_000),
        row(100_000, 100_000, 50_000, 50_000, 100_000),  // low-confidence clutter
    ];
    let boxes = decode_and_cluster(&predictions, 640, 640).unwrap();
    assert_eq!(boxes.len(), 1);
    let response = build_validation_response(boxes.len());
    assert!(response.is_valid);
    assert_eq!(response.face_count, 1);
    assert_eq!(response.message, "Valid single face detected");
}

#[test]
fn two_separate_faces_fail_validation() {
    let predictions = vec![
        row(200_000, 500_000, 150_000, 150_000, 950_000),
        row(800_000, 500_000, 150_000, 150_000, 940_000),
    ];
    let boxes = decode_and_cluster(&predictions, 640, 640).unwrap();
    assert_eq!(boxes.len(), 2);
    let response = build_validation_response(boxes.len());
    assert!(!response.is_valid);
    assert_eq!(response.face_count, 2);
    assert_eq!(response.message, "Multiple faces detected: 2");
}

#[test]
fn no_confident_candidates_mean_no_faces() {
    let predictions = vec![row(500_000, 500_000, 200_000, 200_000, 300_000)];
    let boxes = decode_and_cluster(&predictions, 640, 640).unwrap();
    assert!(boxes.is_empty());
    let response = build_validation_response(boxes.len());
    assert!(!response.is_valid);
    assert_eq!(response.message, "No faces detected");
}

#[test]
fn single_candidate_passes_through_exactly() {
    let predictions = vec![row(500_000, 500_000, 200_000, 200_000, 900_000)];
    let boxes = decode_and_cluster(&predictions, 640, 640).unwrap();
    assert_eq!(boxes, vec![BBox { x1: 256, y1: 256, x2: 384, y2: 384 }]);
}
