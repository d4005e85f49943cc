//! Raw output decoding: the inference engine's prediction rows become
//! confidence-filtered detections in original-image pixel coordinates,
//! sorted by confidence descending.
//!
//! A raw row holds `(x_center, y_center, width, height, confidence)`,
//! each a fraction of the model's input resolution stored as a
//! fixed-point integer scaled by `CONF_SCALE`. Decoding converts center
//! and size to corner coordinates, scales by the original image
//! dimension per axis, rounds to the nearest pixel (halves away from
//! zero) and clamps to the image bounds — all exactly, on integers.

use vstd::prelude::*;

use crate::types::{BBox, Detection, ProcessingError, bbox_wf, detection_wf};
use crate::types::{CONF_SCALE, CONF_THRESHOLD, MAX_DIM};

verus! {

/// One row of the reshaped prediction tensor: center, size and
/// confidence as fractions of the input resolution, scaled by
/// `CONF_SCALE`.
#[derive(Clone, Copy, Debug, PartialEq, Eq, Structural)]
pub struct RawDetection {
    pub cx: i64,
    pub cy: i64,
    pub w: i64,
    pub h: i64,
    pub confidence: i64,
}

/// A raw row is well formed when every field is a scaled fraction in
/// `[0, 1]`.
pub open spec fn raw_wf(r: RawDetection) -> bool {
    &&& 0 <= r.cx <= CONF_SCALE
    &&& 0 <= r.cy <= CONF_SCALE
    &&& 0 <= r.w <= CONF_SCALE
    &&& 0 <= r.h <= CONF_SCALE
    &&& 0 <= r.confidence <= CONF_SCALE
}

/// Rounds `n / d` to the nearest integer (halves away from zero) and
/// clamps the result to `[0, hi]`. A non-positive numerator always lands
/// on the lower bound.
pub open spec fn scaled_corner(n: int, d: int, hi: int) -> int {
    if n <= 0 {
        0
    } else {
        let r = (2 * n + d) / (2 * d);
        if r > hi {
            hi
        } else {
            r
        }
    }
}

/// The detection a raw row decodes to, for an original image of
/// `ow × oh` pixels.
pub open spec fn decode_row(r: RawDetection, ow: int, oh: int) -> Detection {
    Detection {
        bbox: BBox {
            x1: scaled_corner((2 * r.cx - r.w) * ow, 2 * CONF_SCALE, ow) as i32,
            y1: scaled_corner((2 * r.cy - r.h) * oh, 2 * CONF_SCALE, oh) as i32,
            x2: scaled_corner((2 * r.cx + r.w) * ow, 2 * CONF_SCALE, ow) as i32,
            y2: scaled_corner((2 * r.cy + r.h) * oh, 2 * CONF_SCALE, oh) as i32,
        },
        confidence: r.confidence as u32,
    }
}

/// The detections of all rows at or above the confidence threshold, in
/// row order.
pub open spec fn decoded_seq(rows: Seq<RawDetection>, ow: int, oh: int) -> Seq<Detection>
    decreases rows.len(),
{
    if rows.len() == 0 {
        Seq::empty()
    } else {
        let rest = decoded_seq(rows.drop_last(), ow, oh);
        if rows.last().confidence >= CONF_THRESHOLD {
            rest.push(decode_row(rows.last(), ow, oh))
        } else {
            rest
        }
    }
}

/// Confidences never increase along the sequence.
pub open spec fn sorted_desc(s: Seq<Detection>) -> bool {
    forall|i: int, j: int| 0 <= i <= j < s.len() ==> s[i].confidence >= s[j].confidence
}

/// Rounds one scaled corner numerator to a clamped pixel coordinate.
fn scale_corner(n: i64, hi: u32) -> (c: i32)
    requires
        -3_000_000_000_000 <= n <= 3_000_000_000_000,
        hi <= MAX_DIM,
    ensures
        c as int == scaled_corner(n as int, 2 * CONF_SCALE, hi as int),
        0 <= c <= hi,
{
    if n <= 0 {
        0
    } else {
        let d: i64 = 2 * (CONF_SCALE as i64);
        let r: i64 = (2 * n + d) / (2 * d);
        if r > hi as i64 {
            hi as i32
        } else {
            r as i32
        }
    }
}

/// Decodes one raw row into a detection for an original image of
/// `original_width × original_height` pixels: corner conversion, per-axis
/// scaling, rounding to the nearest pixel and clamping to the image.
pub fn create_detection(prediction: &RawDetection, original_width: u32, original_height: u32) -> (d:
    Detection)
    requires
        raw_wf(*prediction),
        original_width <= MAX_DIM,
        original_height <= MAX_DIM,
    ensures
        d == decode_row(*prediction, original_width as int, original_height as int),
        detection_wf(d),
{
    let ow = original_width;
    let oh = original_height;
    let ax1: i64 = 2 * prediction.cx - prediction.w;
    let ay1: i64 = 2 * prediction.cy - prediction.h;
    let ax2: i64 = 2 * prediction.cx + prediction.w;
    let ay2: i64 = 2 * prediction.cy + prediction.h;
    proof {
        assert(-3_000_000_000_000 <= ax1 * (ow as i64) <= 3_000_000_000_000 && -3_000_000_000_000
            <= ax2 * (ow as i64) <= 3_000_000_000_000 && ax1 * (ow as i64) <= ax2 * (ow as i64))
            by (nonlinear_arith)
            requires
                -1_000_000 <= ax1 <= 3_000_000,
                -1_000_000 <= ay1 <= 3_000_000,
                ax1 <= ax2,
                0 <= ax2 <= 3_000_000,
                0 <= ow <= 1_000_000,
        ;
        assert(-3_000_000_000_000 <= ay1 * (oh as i64) <= 3_000_000_000_000 && -3_000_000_000_000
            <= ay2 * (oh as i64) <= 3_000_000_000_000 && ay1 * (oh as i64) <= ay2 * (oh as i64))
            by (nonlinear_arith)
            requires
                -1_000_000 <= ay1 <= 3_000_000,
                ay1 <= ay2,
                0 <= ay2 <= 3_000_000,
                0 <= oh <= 1_000_000,
        ;
    }
    let n_x1: i64 = ax1 * (ow as i64);
    let n_y1: i64 = ay1 * (oh as i64);
    let n_x2: i64 = ax2 * (ow as i64);
    let n_y2: i64 = ay2 * (oh as i64);
    let x1 = scale_corner(n_x1, ow);
    let y1 = scale_corner(n_y1, oh);
    let x2 = scale_corner(n_x2, ow);
    let y2 = scale_corner(n_y2, oh);
    proof {
        if n_x1 > 0 {
            vstd::arithmetic::div_mod::lemma_div_is_ordered(
                2 * n_x1 + 2 * CONF_SCALE,
                2 * n_x2 + 2 * CONF_SCALE,
                4 * CONF_SCALE,
            );
        }
        if n_y1 > 0 {
            vstd::arithmetic::div_mod::lemma_div_is_ordered(
                2 * n_y1 + 2 * CONF_SCALE,
                2 * n_y2 + 2 * CONF_SCALE,
                4 * CONF_SCALE,
            );
        }
        assert(x1 <= x2);
        assert(y1 <= y2);
    }
    Detection { bbox: BBox { x1, y1, x2, y2 }, confidence: prediction.confidence as u32 }
}

/// Sorts detections by confidence descending (insertion sort; order of
/// equal confidences is unspecified).
fn sort_by_confidence(dets: Vec<Detection>) -> (r: Vec<Detection>)
    ensures
        r@.to_multiset() == dets@.to_multiset(),
        sorted_desc(r@),
        r@.len() == dets@.len(),
{
    broadcast use vstd::seq_lib::group_to_multiset_ensures;

    let n = dets.len();
    let mut out: Vec<Detection> = Vec::new();
    let mut i: usize = 0;
    while i < n
        invariant
            n == dets@.len(),
            0 <= i <= n,
            out@.len() == i,
            sorted_desc(out@),
            out@.to_multiset() == dets@.take(i as int).to_multiset(),
        decreases n - i,
    {
        let x = dets[i];
        let mut j: usize = 0;
        while j < out.len() && out[j].confidence >= x.confidence
            invariant
                0 <= j <= out@.len(),
                forall|k: int| 0 <= k < j ==> (#[trigger] out@[k]).confidence >= x.confidence,
            decreases out@.len() - j,
        {
            j = j + 1;
        }
        let ghost pre = out@;
        out.insert(j, x);
        proof {
            assert(dets@.take(i + 1).drop_last() =~= dets@.take(i as int));
            assert(dets@.take(i + 1) =~= dets@.take(i as int).push(x));
            vstd::seq_lib::to_multiset_insert(pre, j as int, x);
            vstd::seq_lib::to_multiset_build(dets@.take(i as int), x);
            assert(out@.to_multiset() == dets@.take(i + 1).to_multiset());
            assert forall|a: int, b: int| 0 <= a <= b < out@.len() implies out@[a].confidence
                >= out@[b].confidence by {
                if a < j && b < j {
                    assert(out@[a] == pre[a] && out@[b] == pre[b]);
                } else if a < j && b == j as int {
                    assert(out@[a] == pre[a]);
                } else if a < j && b > j {
                    assert(out@[a] == pre[a] && out@[b] == pre[b - 1]);
                } else if a == j as int && b > j {
                    assert(out@[b] == pre[b - 1]);
                    assert(pre[j as int].confidence < x.confidence);
                } else if a > j && b > j {
                    assert(out@[a] == pre[a - 1] && out@[b] == pre[b - 1]);
                } else {
                    assert(a == j && b == j);
                }
            }
        }
        i = i + 1;
    }
    proof {
        assert(dets@.take(n as int) =~= dets@);
    }
    out
}

/// Decodes the reshaped prediction rows: keeps every row at or above the
/// confidence threshold, converts it to a detection in original-image
/// pixels, and returns the detections sorted by confidence descending.
/// Decoding itself cannot fail; the `Result` mirrors the pipeline's
/// error channel.
pub fn process_predictions(
    predictions: &Vec<RawDetection>,
    original_width: u32,
    original_height: u32,
) -> (r: Result<Vec<Detection>, ProcessingError>)
    requires
        forall|i: int| 0 <= i < predictions@.len() ==> raw_wf(#[trigger] predictions@[i]),
        original_width <= MAX_DIM,
        original_height <= MAX_DIM,
    ensures
        r is Ok,
        r->Ok_0@.to_multiset() == decoded_seq(
            predictions@,
            original_width as int,
            original_height as int,
        ).to_multiset(),
        sorted_desc(r->Ok_0@),
        forall|i: int| 0 <= i < r->Ok_0@.len() ==> detection_wf(#[trigger] r->Ok_0@[i]),
        r->Ok_0@.len() == decoded_seq(
            predictions@,
            original_width as int,
            original_height as int,
        ).len(),
{
    broadcast use vstd::seq_lib::group_to_multiset_ensures;

    let ghost ow = original_width as int;
    let ghost oh = original_height as int;
    let n = predictions.len();
    let mut dets: Vec<Detection> = Vec::new();
    let mut i: usize = 0;
    while i < n
        invariant
            n == predictions@.len(),
            forall|k: int| 0 <= k < n ==> raw_wf(#[trigger] predictions@[k]),
            original_width <= MAX_DIM,
            original_height <= MAX_DIM,
            ow == original_width as int,
            oh == original_height as int,
            0 <= i <= n,
            dets@ == decoded_seq(predictions@.take(i as int), ow, oh),
            forall|k: int| 0 <= k < dets@.len() ==> detection_wf(#[trigger] dets@[k]),
        decreases n - i,
    {
        proof {
            assert(predictions@.take(i + 1).drop_last() =~= predictions@.take(i as int));
            assert(predictions@.take(i + 1).last() == predictions@[i as int]);
        }
        let row = predictions[i];
        if row.confidence >= CONF_THRESHOLD as i64 {
            let d = create_detection(&row, original_width, original_height);
            dets.push(d);
        }
        i = i + 1;
    }
    proof {
        assert(predictions@.take(n as int) =~= predictions@);
    }
    let ghost unsorted = dets@;
    let sorted = sort_by_confidence(dets);
    proof {
        assert forall|k: int| 0 <= k < sorted@.len() implies detection_wf(
            #[trigger] sorted@[k],
        ) by {
            assert(sorted@.to_multiset().contains(sorted@[k]));
            assert(unsorted.contains(sorted@[k]));
        }
    }
    Ok(sorted)
}

} // verus!
