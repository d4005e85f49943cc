use face_validator::clustering::{
    calculate_iou, cluster_boxes, convert_to_corners, iou_exceeds_threshold, merge_boxes,
    process_clusters,
};
use face_validator::dbscan::{dbscan_classify, Classification};
use face_validator::types::{BBox, Detection};

fn det(x1: i32, y1: i32, x2: i32, y2: i32) -> Detection {
    Detection { bbox: BBox { x1, y1, x2, y2 }, confidence: 900_000 }
}

#[test]
fn cluster_empty_input_gives_empty_output() {
    let detections: Vec<Detection> = Vec::new();
    let boxes = cluster_boxes(&detections);
    assert!(boxes.is_empty());
}

#[test]
fn cluster_single_detection_is_unchanged() {
    let detections = vec![det(37, 41, 181, 199)];
    let boxes = cluster_boxes(&detections);
    assert_eq!(boxes, vec![BBox { x1: 37, y1: 41, x2: 181, y2: 199 }]);
}

#[test]
fn cluster_two_overlapping_detections_merge_into_union_box() {
    // Overlap ratio 8100 / 11900 > 0.45, corner distance well within eps.
    let detections = vec![det(100, 100, 200, 200), det(110, 110, 210, 210)];
    let boxes = cluster_boxes(&detections);
    assert_eq!(boxes, vec![BBox { x1: 100, y1: 100, x2: 210, y2: 210 }]);
}

#[test]
fn cluster_two_far_detections_stay_separate() {
    let detections = vec![det(0, 0, 50, 50), det(500, 500, 560, 560)];
    let boxes = cluster_boxes(&detections);
    assert_eq!(
        boxes,
        vec![
            BBox { x1: 0, y1: 0, x2: 50, y2: 50 },
            BBox { x1: 500, y1: 500, x2: 560, y2: 560 },
        ]
    );
}

#[test]
fn cluster_attaches_stray_box_by_overlap() {
    // Four tight boxes form a cluster; the fifth is outside eps but
    // overlaps the first member by more than the merge threshold, so it
    // joins the group instead of standing alone.
    let detections = vec![
        det(0, 0, 100, 100),
        det(2, 2, 102, 102),
        det(1, 0, 101, 100),
        det(0, 1, 100, 101),
        det(0, 0, 140, 140),
    ];
    let boxes = cluster_boxes(&detections);
    assert_eq!(boxes, vec![BBox { x1: 0, y1: 0, x2: 140, y2: 140 }]);
}

#[test]
fn cluster_retries_with_widened_radius_when_all_points_are_noise() {
    // Five boxes in a chain, consecutive ones at corner distance
    // sqrt(5000): outside the base radius (d2 < 2500) but inside the
    // widened one (d2 < 5625), so the first pass is all noise and the
    // retry connects the chain into one cluster.
    let detections = vec![
        det(0, 0, 100, 100),
        det(50, 0, 150, 100),
        det(100, 0, 200, 100),
        det(150, 0, 250, 100),
        det(200, 0, 300, 100),
    ];
    let boxes = cluster_boxes(&detections);
    assert_eq!(boxes, vec![BBox { x1: 0, y1: 0, x2: 300, y2: 100 }]);
}

#[test]
fn dbscan_marks_isolated_point_as_noise() {
    let detections = vec![
        det(0, 0, 10, 10),
        det(1, 1, 11, 11),
        det(2, 2, 12, 12),
        det(1000, 1000, 1010, 1010),
    ];
    let (classifications, clusters) = dbscan_classify(&detections, 4000, 4, 2);
    assert_eq!(clusters, 1);
    assert_eq!(
        classifications,
        vec![
            Classification::Core(0),
            Classification::Core(0),
            Classification::Core(0),
            Classification::Noise,
        ]
    );
}

#[test]
fn dbscan_with_min_points_one_clusters_every_point() {
    let detections = vec![det(0, 0, 10, 10), det(500, 500, 510, 510)];
    let (classifications, clusters) = dbscan_classify(&detections, 100, 4, 1);
    assert_eq!(clusters, 2);
    assert_eq!(
        classifications,
        vec![Classification::Core(0), Classification::Core(1)]
    );
}

#[test]
fn process_clusters_emits_unmatched_noise_directly() {
    let detections = vec![det(0, 0, 10, 10), det(500, 500, 510, 510)];
    let classifications = vec![Classification::Noise, Classification::Noise];
    let boxes = process_clusters(&detections, &classifications, 0);
    assert_eq!(
        boxes,
        vec![
            BBox { x1: 0, y1: 0, x2: 10, y2: 10 },
            BBox { x1: 500, y1: 500, x2: 510, y2: 510 },
        ]
    );
}

#[test]
fn merge_boxes_takes_elementwise_extremes() {
    let group = vec![
        BBox { x1: 10, y1: 40, x2: 100, y2: 90 },
        BBox { x1: 5, y1: 50, x2: 120, y2: 80 },
        BBox { x1: 20, y1: 30, x2: 110, y2: 95 },
    ];
    assert_eq!(merge_boxes(&group), BBox { x1: 5, y1: 30, x2: 120, y2: 95 });
}

#[test]
fn merge_boxes_of_empty_group_is_zero_box() {
    let group: Vec<BBox> = Vec::new();
    assert_eq!(merge_boxes(&group), BBox { x1: 0, y1: 0, x2: 0, y2: 0 });
}

#[test]
fn calculate_iou_returns_intersection_and_union_areas() {
    let a = BBox { x1: 0, y1: 0, x2: 29, y2: 1 };
    let b = BBox { x1: 11, y1: 0, x2: 40, y2: 1 };
    assert_eq!(calculate_iou(&a, &b), (18, 40));
    let far = BBox { x1: 100, y1: 100, x2: 129, y2: 101 };
    assert_eq!(calculate_iou(&a, &far), (0, 58));
}

#[test]
fn iou_threshold_is_strict() {
    // Exactly 18/40 = 0.45: not strictly above the threshold.
    let a = BBox { x1: 0, y1: 0, x2: 29, y2: 1 };
    let b = BBox { x1: 11, y1: 0, x2: 40, y2: 1 };
    assert!(!iou_exceeds_threshold(&a, &b));
    // 19/39 > 0.45.
    let c = BBox { x1: 10, y1: 0, x2: 39, y2: 1 };
    assert!(iou_exceeds_threshold(&a, &c));
}

#[test]
fn degenerate_zero_area_union_never_matches() {
    let a = BBox { x1: 5, y1: 5, x2: 5, y2: 5 };
    let b = BBox { x1: 5, y1: 5, x2: 5, y2: 5 };
    assert_eq!(calculate_iou(&a, &b), (0, 0));
    assert!(!iou_exceeds_threshold(&a, &b));
}

#[test]
fn convert_to_corners_splits_sizes_in_half() {
    assert_eq!(
        convert_to_corners(100, 100, 50, 30),
        BBox { x1: 75, y1: 85, x2: 125, y2: 115 }
    );
    assert_eq!(convert_to_corners(0, 0, 7, 7), BBox { x1: -3, y1: -3, x2: 3, y2: 3 });
}
