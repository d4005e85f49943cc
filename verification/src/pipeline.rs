//! The verified processing chain: raw prediction rows through decoding,
//! confidence filtering and clustering to final face boxes.
//!
//! Resizing the image and running the inference engine happen outside;
//! everything from the engine's (reshaped) output onwards is here.

use vstd::prelude::*;

use crate::clustering::{bboxes_of, cluster_boxes, is_union_of_some, merge_of};
use crate::decode::{RawDetection, decoded_seq, process_predictions, raw_wf};
use crate::types::{BBox, ProcessingError, MAX_DIM};

verus! {

/// The boxes of the detections the rows decode to, in row order.
pub open spec fn decoded_bboxes(rows: Seq<RawDetection>, ow: int, oh: int) -> Seq<BBox> {
    bboxes_of(decoded_seq(rows, ow, oh))
}

/// A union of boxes from one list is a union of boxes from any list
/// holding them all.
proof fn lemma_union_from_superset(b: BBox, from1: Seq<BBox>, from2: Seq<BBox>)
    requires
        is_union_of_some(b, from1),
        forall|x: BBox| from1.contains(x) ==> from2.contains(x),
    ensures
        is_union_of_some(b, from2),
{
    let g = choose|g: Seq<BBox>|
        {
            &&& g.len() >= 1
            &&& (forall|m: int| 0 <= m < g.len() ==> from1.contains(#[trigger] g[m]))
            &&& b == merge_of(g)
        };
    assert(g.len() >= 1 && (forall|m: int| 0 <= m < g.len() ==> from2.contains(#[trigger] g[m]))
        && b == merge_of(g));
}

/// Runs the verified tail of one attempt: decodes the prediction rows,
/// filters and sorts them, and clusters the detections into final boxes.
/// It cannot fail; the `Result` mirrors the pipeline's error channel.
pub fn decode_and_cluster(
    predictions: &Vec<RawDetection>,
    original_width: u32,
    original_height: u32,
) -> (r: Result<Vec<BBox>, ProcessingError>)
    requires
        forall|i: int| 0 <= i < predictions@.len() ==> raw_wf(#[trigger] predictions@[i]),
        original_width <= MAX_DIM,
        original_height <= MAX_DIM,
    ensures
        r is Ok,
        decoded_seq(predictions@, original_width as int, original_height as int).len() == 0 <==> r
            ->Ok_0@.len() == 0,
        r->Ok_0@.len() <= decoded_seq(
            predictions@,
            original_width as int,
            original_height as int,
        ).len(),
        forall|m: int|
            0 <= m < r->Ok_0@.len() ==> is_union_of_some(
                #[trigger] r->Ok_0@[m],
                decoded_bboxes(predictions@, original_width as int, original_height as int),
            ),
{
    broadcast use vstd::seq_lib::group_to_multiset_ensures;

    let ghost ow = original_width as int;
    let ghost oh = original_height as int;
    let decoded = match process_predictions(predictions, original_width, original_height) {
        Ok(d) => d,
        Err(e) => {
            return Err(e);
        },
    };
    let boxes = cluster_boxes(&decoded);
    proof {
        let dec = decoded_seq(predictions@, ow, oh);
        assert(decoded@.len() == dec.len());
        assert forall|x: BBox| bboxes_of(decoded@).contains(x) implies bboxes_of(dec).contains(
            x,
        ) by {
            let idx = choose|idx: int|
                0 <= idx < bboxes_of(decoded@).len() && bboxes_of(decoded@)[idx] == x;
            assert(decoded@[idx].bbox == x);
            assert(decoded@.contains(decoded@[idx]));
            assert(decoded@.to_multiset().contains(decoded@[idx]));
            assert(dec.contains(decoded@[idx]));
            let idx2 = choose|idx2: int| 0 <= idx2 < dec.len() && dec[idx2] == decoded@[idx];
            assert(bboxes_of(dec)[idx2] == x);
        }
        assert forall|m: int| 0 <= m < boxes@.len() implies is_union_of_some(
            #[trigger] boxes@[m],
            decoded_bboxes(predictions@, ow, oh),
        ) by {
            lemma_union_from_superset(boxes@[m], bboxes_of(decoded@), bboxes_of(dec));
        }
    }
    Ok(boxes)
}

} // verus!
