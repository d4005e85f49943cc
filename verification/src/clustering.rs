//! Adaptive spatial clustering of detections.
//!
//! The raw decoder emits many overlapping boxes per physical face. This
//! module collapses them into one box per face: a density-based clustering
//! pass groups boxes that are close in 4-dimensional corner space, stray
//! boxes are attached to groups they overlap strongly with, and every group
//! is merged into its axis-aligned union box.
//!
//! All geometry is exact integer arithmetic on pixel corner coordinates.
//! Ratio thresholds are compared by cross-multiplication, and the clustering
//! radius `eps` is handled through its scaled square, so no square root is
//! ever taken.
//!
//! Boxes reach this stage in corner form, and the overlap check computes
//! intersection-over-union on those corners directly; it never
//! re-interprets an already-converted box as a center/size description.
//! `convert_to_corners` stands apart for callers whose boxes really are
//! in center/size form.

use vstd::prelude::*;

use crate::dbscan::{Classification, core_point};
use crate::types::{BBox, Detection, bbox_wf, detection_wf};
use crate::types::{DEFAULT_CLUSTER_SIZE, IOU_THRESHOLD_DEN, IOU_THRESHOLD_NUM, MAX_DIM};

verus! {

/// The square of an integer.
pub open spec fn sqi(x: int) -> int {
    x * x
}

/// Squared Euclidean distance between two boxes in the 4-dimensional
/// space of their corner coordinates.
pub open spec fn dist2(a: BBox, b: BBox) -> int {
    sqi(a.x1 - b.x1) + sqi(a.y1 - b.y1) + sqi(a.x2 - b.x2) + sqi(a.y2 - b.y2)
}

/// Area of a corner-form box.
pub open spec fn box_area(b: BBox) -> int {
    (b.x2 - b.x1) * (b.y2 - b.y1)
}

/// Area of the intersection of two corner-form boxes: clipped width times
/// clipped height, zero when they do not overlap on either axis.
pub open spec fn inter_area(a: BBox, b: BBox) -> int {
    let xl = if a.x1 >= b.x1 { a.x1 } else { b.x1 };
    let yt = if a.y1 >= b.y1 { a.y1 } else { b.y1 };
    let xr = if a.x2 <= b.x2 { a.x2 } else { b.x2 };
    let yb = if a.y2 <= b.y2 { a.y2 } else { b.y2 };
    if xr <= xl || yb <= yt {
        0
    } else {
        (xr - xl) * (yb - yt)
    }
}

/// Intersection-over-union of two corner-form boxes exceeds the merge
/// threshold. A union of zero area (the non-finite ratio case) never
/// matches.
pub open spec fn iou_match(a: BBox, b: BBox) -> bool {
    let i = inter_area(a, b);
    let u = box_area(a) + box_area(b) - i;
    u > 0 && IOU_THRESHOLD_DEN * i > IOU_THRESHOLD_NUM * u
}

/// The axis-aligned union of two corner-form boxes: element-wise minimum
/// of the top-left corners and maximum of the bottom-right ones.
pub open spec fn union2(a: BBox, b: BBox) -> BBox {
    BBox {
        x1: if a.x1 <= b.x1 { a.x1 } else { b.x1 },
        y1: if a.y1 <= b.y1 { a.y1 } else { b.y1 },
        x2: if a.x2 >= b.x2 { a.x2 } else { b.x2 },
        y2: if a.y2 >= b.y2 { a.y2 } else { b.y2 },
    }
}

/// The box returned for a group of member boxes: the axis-aligned union
/// of all of them, and the zero box for an empty group.
pub open spec fn merge_of(s: Seq<BBox>) -> BBox
    decreases s.len(),
{
    if s.len() == 0 {
        BBox { x1: 0, y1: 0, x2: 0, y2: 0 }
    } else if s.len() == 1 {
        s[0]
    } else {
        union2(merge_of(s.drop_last()), s.last())
    }
}

/// A box is the union of some non-empty selection of the boxes in `from`:
/// no clustering step ever invents coordinates.
pub open spec fn is_union_of_some(b: BBox, from: Seq<BBox>) -> bool {
    exists|g: Seq<BBox>|
        {
            &&& g.len() >= 1
            &&& (forall|m: int| 0 <= m < g.len() ==> from.contains(#[trigger] g[m]))
            &&& b == merge_of(g)
        }
}

/// The integer view of a sequence of 64-bit sizes.
pub open spec fn view64(s: Seq<i64>) -> Seq<int> {
    s.map_values(|x: i64| x as int)
}

/// The squared box sizes of a detection list, in input order. Box size
/// is `sqrt(width * height)`; ranking the squared sizes orders boxes
/// identically, so the median is taken over these and never leaves the
/// integers.
pub open spec fn sizes_of(dets: Seq<Detection>) -> Seq<int> {
    Seq::new(dets.len(), |i: int| box_area(dets[i].bbox))
}

/// Inserts `x` into an ascending sequence, before the first element
/// greater than or equal to it.
pub open spec fn insert_sorted(x: int, s: Seq<int>) -> Seq<int>
    decreases s.len(),
{
    if s.len() == 0 {
        seq![x]
    } else if x <= s[0] {
        seq![x] + s
    } else {
        seq![s[0]] + insert_sorted(x, s.drop_first())
    }
}

/// The ascending insertion sort of a sequence.
pub open spec fn sort_asc(s: Seq<int>) -> Seq<int>
    decreases s.len(),
{
    if s.len() == 0 {
        Seq::empty()
    } else {
        insert_sorted(s.last(), sort_asc(s.drop_last()))
    }
}

/// The median squared box size of a non-empty detection list: the middle
/// element (upper middle for even lengths) of the sorted squared sizes.
pub open spec fn median_size_sq(dets: Seq<Detection>) -> int {
    sort_asc(sizes_of(dets))[dets.len() as int / 2]
}

/// The scaled square of the clustering radius: `eps = max(median_size,
/// DEFAULT_CLUSTER_SIZE) * 0.5`, so `eps² == eps_base / 4` with
/// `eps_base == max(median_size², DEFAULT_CLUSTER_SIZE²)`.
pub open spec fn eps_base(dets: Seq<Detection>) -> int {
    let m = median_size_sq(dets);
    if m >= DEFAULT_CLUSTER_SIZE * DEFAULT_CLUSTER_SIZE {
        m
    } else {
        DEFAULT_CLUSTER_SIZE * DEFAULT_CLUSTER_SIZE
    }
}

/// Inserting grows the length by one.
proof fn lemma_insert_sorted_len(x: int, s: Seq<int>)
    ensures
        insert_sorted(x, s).len() == s.len() + 1,
    decreases s.len(),
{
    if s.len() != 0 && !(x <= s[0]) {
        lemma_insert_sorted_len(x, s.drop_first());
    }
}

/// Inserting before the first element that is not smaller than `x`
/// produces exactly the spec-level sorted insertion.
proof fn lemma_insert_sorted_split(x: int, s: Seq<int>, j: int)
    requires
        0 <= j <= s.len(),
        forall|k: int| 0 <= k < j ==> s[k] < x,
        j < s.len() ==> s[j] >= x,
    ensures
        insert_sorted(x, s) =~= s.take(j) + seq![x] + s.skip(j),
    decreases s.len(),
{
    if s.len() == 0 {
        assert(insert_sorted(x, s) =~= seq![x]);
    } else if x <= s[0] {
        assert(j == 0);
        assert(s.take(0) + seq![x] + s.skip(0) =~= seq![x] + s);
    } else {
        assert(s[0] < x);
        assert(j >= 1);
        lemma_insert_sorted_split(x, s.drop_first(), j - 1);
        assert(s.drop_first().take(j - 1) =~= s.take(j).drop_first());
        assert(s.drop_first().skip(j - 1) =~= s.skip(j));
        assert(seq![s[0]] + insert_sorted(x, s.drop_first()) =~= s.take(j) + seq![x] + s.skip(j));
    }
}

/// Inserting a value within bounds into a within-bounds sequence stays
/// within bounds.
proof fn lemma_insert_sorted_bounds(x: int, s: Seq<int>, lo: int, hi: int)
    requires
        lo <= x <= hi,
        forall|k: int| 0 <= k < s.len() ==> lo <= #[trigger] s[k] <= hi,
    ensures
        forall|k: int|
            0 <= k < insert_sorted(x, s).len() ==> lo <= #[trigger] insert_sorted(x, s)[k] <= hi,
    decreases s.len(),
{
    if s.len() != 0 && !(x <= s[0]) {
        assert(forall|k: int|
            0 <= k < s.drop_first().len() ==> lo <= #[trigger] s.drop_first()[k] <= hi);
        lemma_insert_sorted_bounds(x, s.drop_first(), lo, hi);
        let r = insert_sorted(x, s);
        let t = insert_sorted(x, s.drop_first());
        assert forall|k: int| 0 <= k < r.len() implies lo <= #[trigger] r[k] <= hi by {
            if k == 0 {
                assert(r[k] == s[0]);
            } else {
                assert(r[k] == t[k - 1]);
            }
        }
    }
}

/// Every element of the sort of a within-bounds sequence is within
/// bounds.
proof fn lemma_sort_asc_bounds(s: Seq<int>, lo: int, hi: int)
    requires
        forall|k: int| 0 <= k < s.len() ==> lo <= #[trigger] s[k] <= hi,
    ensures
        forall|k: int| 0 <= k < sort_asc(s).len() ==> lo <= #[trigger] sort_asc(s)[k] <= hi,
    decreases s.len(),
{
    if s.len() != 0 {
        assert(forall|k: int|
            0 <= k < s.drop_last().len() ==> lo <= #[trigger] s.drop_last()[k] <= hi);
        lemma_sort_asc_bounds(s.drop_last(), lo, hi);
        lemma_insert_sorted_bounds(s.last(), sort_asc(s.drop_last()), lo, hi);
    }
}

/// Sorting keeps the length.
proof fn lemma_sort_asc_len(s: Seq<int>)
    ensures
        sort_asc(s).len() == s.len(),
    decreases s.len(),
{
    if s.len() != 0 {
        lemma_sort_asc_len(s.drop_last());
        lemma_insert_sorted_len(s.last(), sort_asc(s.drop_last()));
    }
}

/// Computes the median squared box size of a non-empty detection list by
/// sorting the squared sizes ascending and taking the middle element.
pub fn calculate_median_size(detections: &Vec<Detection>) -> (m: i64)
    requires
        detections@.len() >= 1,
        forall|i: int| 0 <= i < detections@.len() ==> detection_wf(#[trigger] detections@[i]),
    ensures
        m as int == median_size_sq(detections@),
        0 <= m <= 1_000_000_000_000,
{
    let n = detections.len();
    let mut sizes: Vec<i64> = Vec::new();
    let mut i: usize = 0;
    while i < n
        invariant
            n == detections@.len(),
            forall|k: int| 0 <= k < n ==> detection_wf(#[trigger] detections@[k]),
            0 <= i <= n,
            sizes@.len() == i,
            forall|k: int|
                0 <= k < i ==> (#[trigger] sizes@[k]) as int == sizes_of(detections@)[k] && 0
                    <= sizes@[k] <= 1_000_000_000_000,
        decreases n - i,
    {
        let b = detections[i].bbox;
        let w: i64 = (b.x2 - b.x1) as i64;
        let h: i64 = (b.y2 - b.y1) as i64;
        proof {
            assert(0 <= w * h <= 1_000_000_000_000) by (nonlinear_arith)
                requires
                    0 <= w <= 1_000_000,
                    0 <= h <= 1_000_000,
            ;
        }
        sizes.push(w * h);
        i = i + 1;
    }
    proof {
        assert(view64(sizes@) =~= sizes_of(detections@));
    }
    let mut sorted: Vec<i64> = Vec::new();
    let mut i: usize = 0;
    while i < n
        invariant
            n == sizes@.len(),
            0 <= i <= n,
            view64(sorted@) =~= sort_asc(view64(sizes@).take(i as int)),
            sorted@.len() == i,
            forall|k: int| 0 <= k < n ==> 0 <= #[trigger] sizes@[k] <= 1_000_000_000_000,
            forall|k: int| 0 <= k < i ==> 0 <= #[trigger] sorted@[k] <= 1_000_000_000_000,
        decreases n - i,
    {
        let x = sizes[i];
        let mut j: usize = 0;
        while j < sorted.len() && sorted[j] < x
            invariant
                0 <= j <= sorted@.len(),
                forall|k: int| 0 <= k < j ==> #[trigger] sorted@[k] < x,
            decreases sorted@.len() - j,
        {
            j = j + 1;
        }
        let ghost pre = sorted@;
        sorted.insert(j, x);
        proof {
            lemma_insert_sorted_split(x as int, view64(pre), j as int);
            assert(view64(pre).take(i as int) == view64(pre)) by {
                assert(view64(pre).take(i as int) =~= view64(pre));
            }
            assert(view64(sorted@) =~= view64(pre).take(j as int) + seq![x as int] + view64(
                pre,
            ).skip(j as int));
            assert(view64(sizes@).take(i + 1).drop_last() =~= view64(sizes@).take(i as int));
            assert(view64(sizes@).take(i + 1).last() == x as int);
            assert(view64(sorted@) =~= insert_sorted(x as int, sort_asc(view64(sizes@).take(
                i as int,
            ))));
        }
        i = i + 1;
    }
    proof {
        assert(view64(sizes@).take(n as int) =~= view64(sizes@));
        assert(view64(sizes@) =~= sizes_of(detections@));
        lemma_sort_asc_len(sizes_of(detections@));
        lemma_sort_asc_bounds(sizes_of(detections@), 0, 1_000_000_000_000);
        assert(sorted@[n as int / 2] as int == median_size_sq(detections@));
    }
    sorted[n / 2]
}

/// Computes the intersection area and the union area of two corner-form
/// boxes, both taken in corner form. The intersection-over-union ratio
/// is exactly `r.0 / r.1`; callers compare it against thresholds by
/// cross-multiplication instead of dividing.
pub fn calculate_iou(box1: &BBox, box2: &BBox) -> (r: (i64, i64))
    requires
        bbox_wf(*box1),
        bbox_wf(*box2),
    ensures
        r.0 == inter_area(*box1, *box2),
        r.1 == box_area(*box1) + box_area(*box2) - inter_area(*box1, *box2),
        0 <= r.0 <= 1_000_000_000_000i64,
        0 <= r.1 <= 2_000_000_000_000i64,
{
    let xl: i64 = if box1.x1 >= box2.x1 { box1.x1 as i64 } else { box2.x1 as i64 };
    let yt: i64 = if box1.y1 >= box2.y1 { box1.y1 as i64 } else { box2.y1 as i64 };
    let xr: i64 = if box1.x2 <= box2.x2 { box1.x2 as i64 } else { box2.x2 as i64 };
    let yb: i64 = if box1.y2 <= box2.y2 { box1.y2 as i64 } else { box2.y2 as i64 };
    let inter: i64 = if xr <= xl || yb <= yt {
        0
    } else {
        proof {
            assert((xr - xl) * (yb - yt) <= 1_000_000_000_000 && (xr - xl) * (yb - yt) > 0)
                by (nonlinear_arith)
                requires
                    0 < xr - xl <= 1_000_000,
                    0 < yb - yt <= 1_000_000,
            ;
        }
        (xr - xl) * (yb - yt)
    };
    let w1: i64 = (box1.x2 - box1.x1) as i64;
    let h1: i64 = (box1.y2 - box1.y1) as i64;
    let w2: i64 = (box2.x2 - box2.x1) as i64;
    let h2: i64 = (box2.y2 - box2.y1) as i64;
    proof {
        assert(0 <= w1 * h1 <= 1_000_000_000_000 && 0 <= w2 * h2 <= 1_000_000_000_000)
            by (nonlinear_arith)
            requires
                0 <= w1 <= 1_000_000,
                0 <= h1 <= 1_000_000,
                0 <= w2 <= 1_000_000,
                0 <= h2 <= 1_000_000,
        ;
        assert(inter <= w1 * h1) by (nonlinear_arith)
            requires
                0 <= w1,
                0 <= h1,
                inter == inter_area(*box1, *box2),
                inter > 0 ==> inter == (xr - xl) * (yb - yt) && 0 < xr - xl <= w1 && 0 < yb - yt
                    <= h1,
        ;
    }
    let area1: i64 = w1 * h1;
    let area2: i64 = w2 * h2;
    (inter, area1 + area2 - inter)
}

/// Decides whether two corner-form boxes overlap strongly enough to be
/// merged: intersection-over-union strictly above the threshold, with a
/// degenerate (zero-area) union never matching.
pub fn iou_exceeds_threshold(box1: &BBox, box2: &BBox) -> (r: bool)
    requires
        bbox_wf(*box1),
        bbox_wf(*box2),
    ensures
        r == iou_match(*box1, *box2),
{
    let (inter, union_area) = calculate_iou(box1, box2);
    union_area > 0 && IOU_THRESHOLD_DEN * inter > IOU_THRESHOLD_NUM * union_area
}


/// Merges a group of member boxes into their axis-aligned union box: the
/// element-wise minimum of all `x1, y1` and maximum of all `x2, y2`.
/// An empty group gives the zero box.
pub fn merge_boxes(boxes: &Vec<BBox>) -> (m: BBox)
    ensures
        m == merge_of(boxes@),
{
    if boxes.len() == 0 {
        return BBox { x1: 0, y1: 0, x2: 0, y2: 0 };
    }
    let mut min_x: i32 = boxes[0].x1;
    let mut min_y: i32 = boxes[0].y1;
    let mut max_x: i32 = boxes[0].x2;
    let mut max_y: i32 = boxes[0].y2;
    let mut i: usize = 1;
    while i < boxes.len()
        invariant
            1 <= i <= boxes@.len(),
            (BBox { x1: min_x, y1: min_y, x2: max_x, y2: max_y }) == merge_of(boxes@.take(i as int)),
        decreases boxes@.len() - i,
    {
        proof {
            assert(boxes@.take(i + 1).drop_last() =~= boxes@.take(i as int));
            assert(boxes@.take(i + 1).last() == boxes@[i as int]);
        }
        let b = boxes[i];
        if b.x1 < min_x {
            min_x = b.x1;
        }
        if b.y1 < min_y {
            min_y = b.y1;
        }
        if b.x2 > max_x {
            max_x = b.x2;
        }
        if b.y2 > max_y {
            max_y = b.y2;
        }
        i = i + 1;
    }
    proof {
        assert(boxes@.take(boxes@.len() as int) =~= boxes@);
    }
    BBox { x1: min_x, y1: min_y, x2: max_x, y2: max_y }
}

/// The grouping state while classifications are folded into groups: one
/// member list per cluster id, plus the stray boxes already emitted
/// directly.
pub struct GroupState {
    pub groups: Seq<Seq<BBox>>,
    pub direct: Seq<BBox>,
}

/// The view of executable groups as a sequence of sequences.
pub open spec fn groups_view(g: Seq<Vec<BBox>>) -> Seq<Seq<BBox>> {
    g.map_values(|v: Vec<BBox>| v@)
}

/// The boxes of a detection list, in input order.
pub open spec fn bboxes_of(dets: Seq<Detection>) -> Seq<BBox> {
    Seq::new(dets.len(), |i: int| dets[i].bbox)
}

/// Some member of the group overlaps the box above the merge threshold.
pub open spec fn group_matches(g: Seq<BBox>, b: BBox) -> bool {
    exists|m: int| 0 <= m < g.len() && iou_match(b, #[trigger] g[m])
}

/// Index of the first group some member of which overlaps `b` above the
/// merge threshold, or `-1` when no group does.
pub open spec fn first_match(groups: Seq<Seq<BBox>>, b: BBox) -> int
    decreases groups.len(),
{
    if groups.len() == 0 {
        -1
    } else if group_matches(groups[0], b) {
        0
    } else {
        let r = first_match(groups.drop_first(), b);
        if r == -1 {
            -1
        } else {
            r + 1
        }
    }
}

/// When group `j` matches and no earlier group does, `j` is the first
/// match.
proof fn lemma_first_match_found(groups: Seq<Seq<BBox>>, b: BBox, j: int)
    requires
        0 <= j < groups.len(),
        group_matches(groups[j], b),
        forall|k: int| 0 <= k < j ==> !group_matches(#[trigger] groups[k], b),
    ensures
        first_match(groups, b) == j,
    decreases groups.len(),
{
    if j > 0 {
        assert(!group_matches(groups[0], b));
        assert(groups.drop_first()[j - 1] == groups[j]);
        assert(forall|k: int|
            0 <= k < j - 1 ==> !group_matches(#[trigger] groups.drop_first()[k], b));
        lemma_first_match_found(groups.drop_first(), b, j - 1);
    }
}

/// When no group matches, there is no first match.
proof fn lemma_first_match_none(groups: Seq<Seq<BBox>>, b: BBox)
    requires
        forall|k: int| 0 <= k < groups.len() ==> !group_matches(#[trigger] groups[k], b),
    ensures
        first_match(groups, b) == -1,
    decreases groups.len(),
{
    if groups.len() > 0 {
        assert(forall|k: int|
            0 <= k < groups.drop_first().len() ==> !group_matches(
                #[trigger] groups.drop_first()[k],
                b,
            ));
        lemma_first_match_none(groups.drop_first(), b);
    }
}

/// A first match is a real index of a matching group.
proof fn lemma_first_match_range(groups: Seq<Seq<BBox>>, b: BBox)
    ensures
        first_match(groups, b) == -1 || (0 <= first_match(groups, b) < groups.len()
            && group_matches(groups[first_match(groups, b)], b)),
    decreases groups.len(),
{
    if groups.len() > 0 && !group_matches(groups[0], b) {
        lemma_first_match_range(groups.drop_first(), b);
    }
}

/// `k` empty groups.
pub open spec fn empty_groups(k: nat) -> Seq<Seq<BBox>> {
    Seq::new(k, |c: int| Seq::<BBox>::empty())
}

/// Folds one classified detection into the grouping state: clustered
/// points join their cluster's group; a stray point joins the first group
/// it overlaps strongly with, or is emitted directly.
pub open spec fn grouping_step(st: GroupState, det: Detection, cl: Classification) -> GroupState {
    match cl {
        Classification::Core(c) => if c < st.groups.len() {
            GroupState {
                groups: st.groups.update(c as int, st.groups[c as int].push(det.bbox)),
                direct: st.direct,
            }
        } else {
            st
        },
        Classification::Edge(c) => if c < st.groups.len() {
            GroupState {
                groups: st.groups.update(c as int, st.groups[c as int].push(det.bbox)),
                direct: st.direct,
            }
        } else {
            st
        },
        Classification::Noise => {
            let f = first_match(st.groups, det.bbox);
            if f >= 0 {
                GroupState {
                    groups: st.groups.update(f, st.groups[f].push(det.bbox)),
                    direct: st.direct,
                }
            } else {
                GroupState { groups: st.groups, direct: st.direct.push(det.bbox) }
            }
        },
    }
}

/// The grouping state after folding the first `upto` detections.
pub open spec fn build_state(
    dets: Seq<Detection>,
    cls: Seq<Classification>,
    k: nat,
    upto: int,
) -> GroupState
    decreases upto,
{
    if upto <= 0 {
        GroupState { groups: empty_groups(k), direct: Seq::empty() }
    } else {
        grouping_step(build_state(dets, cls, k, upto - 1), dets[upto - 1], cls[upto - 1])
    }
}

/// The merged boxes of the non-empty groups, in cluster-id order.
pub open spec fn merged_groups(groups: Seq<Seq<BBox>>) -> Seq<BBox>
    decreases groups.len(),
{
    if groups.len() == 0 {
        Seq::empty()
    } else {
        let rest = merged_groups(groups.drop_last());
        if groups.last().len() > 0 {
            rest.push(merge_of(groups.last()))
        } else {
            rest
        }
    }
}

/// The first `upto` boxes with exact duplicates removed, keeping first
/// occurrences in order.
pub open spec fn dedup_first(s: Seq<BBox>, upto: int) -> Seq<BBox>
    decreases upto,
{
    if upto <= 0 {
        Seq::empty()
    } else {
        let d = dedup_first(s, upto - 1);
        if d.contains(s[upto - 1]) {
            d
        } else {
            d.push(s[upto - 1])
        }
    }
}

/// What clustering returns for a detection list with its classifications:
/// the directly emitted stray boxes, then the merged groups; and if that
/// is empty despite a non-empty input, the distinct input boxes as-is.
pub open spec fn final_boxes_of(dets: Seq<Detection>, cls: Seq<Classification>, k: nat) -> Seq<
    BBox,
> {
    let st = build_state(dets, cls, k, dets.len() as int);
    let out = st.direct + merged_groups(st.groups);
    if out.len() == 0 && dets.len() > 0 {
        dedup_first(bboxes_of(dets), dets.len() as int)
    } else {
        out
    }
}

/// Every box the grouping state holds comes from `from`.
pub open spec fn state_from(st: GroupState, from: Seq<BBox>) -> bool {
    &&& (forall|c: int, m: int|
        0 <= c < st.groups.len() && 0 <= m < st.groups[c].len() ==> from.contains(
            #[trigger] st.groups[c][m],
        ))
    &&& (forall|m: int| 0 <= m < st.direct.len() ==> from.contains(#[trigger] st.direct[m]))
}

/// Folding detections into the grouping state only ever stores input
/// boxes.
proof fn lemma_build_state_from(dets: Seq<Detection>, cls: Seq<Classification>, k: nat, upto: int)
    requires
        upto <= dets.len(),
    ensures
        state_from(build_state(dets, cls, k, upto), bboxes_of(dets)),
    decreases upto,
{
    if upto > 0 {
        lemma_build_state_from(dets, cls, k, upto - 1);
        let st = build_state(dets, cls, k, upto - 1);
        let st2 = build_state(dets, cls, k, upto);
        let d = dets[upto - 1];
        assert(bboxes_of(dets)[upto - 1] == d.bbox);
        assert(bboxes_of(dets).contains(d.bbox));
        lemma_first_match_range(st.groups, d.bbox);
        assert forall|c: int, m: int|
            0 <= c < st2.groups.len() && 0 <= m < st2.groups[c].len() implies bboxes_of(
            dets,
        ).contains(#[trigger] st2.groups[c][m]) by {
            if st2.groups[c] == st.groups[c] {
                assert(st2.groups[c][m] == st.groups[c][m]);
            } else {
                assert(st2.groups[c] == st.groups[c].push(d.bbox));
                if m < st.groups[c].len() {
                    assert(st2.groups[c][m] == st.groups[c][m]);
                } else {
                    assert(st2.groups[c][m] == d.bbox);
                }
            }
        }
        assert forall|m: int| 0 <= m < st2.direct.len() implies bboxes_of(dets).contains(
            #[trigger] st2.direct[m],
        ) by {
            if m < st.direct.len() {
                assert(st2.direct[m] == st.direct[m]);
            } else {
                assert(st2.direct[m] == d.bbox);
            }
        }
    }
}

/// Every merged box is the merge of some non-empty group.
proof fn lemma_merged_groups_src(groups: Seq<Seq<BBox>>, m: int)
    requires
        0 <= m < merged_groups(groups).len(),
    ensures
        exists|c: int|
            0 <= c < groups.len() && #[trigger] groups[c].len() > 0 && merged_groups(groups)[m]
                == merge_of(groups[c]),
    decreases groups.len(),
{
    if groups.len() > 0 {
        let rest = merged_groups(groups.drop_last());
        if groups.last().len() > 0 && m == rest.len() {
            assert(groups[groups.len() - 1].len() > 0 && merged_groups(groups)[m] == merge_of(
                groups[groups.len() - 1],
            ));
        } else {
            lemma_merged_groups_src(groups.drop_last(), m);
            let c = choose|c: int|
                0 <= c < groups.drop_last().len() && #[trigger] groups.drop_last()[c].len() > 0
                    && merged_groups(groups.drop_last())[m] == merge_of(groups.drop_last()[c]);
            assert(groups[c].len() > 0 && merged_groups(groups)[m] == merge_of(groups[c]));
        }
    }
}

/// Every deduplicated box is one of the originals.
proof fn lemma_dedup_first_from(s: Seq<BBox>, upto: int, m: int)
    requires
        upto <= s.len(),
        0 <= m < dedup_first(s, upto).len(),
    ensures
        s.contains(dedup_first(s, upto)[m]),
    decreases upto,
{
    if upto > 0 {
        let d = dedup_first(s, upto - 1);
        if m < d.len() {
            lemma_dedup_first_from(s, upto - 1, m);
        } else {
            assert(dedup_first(s, upto)[m] == s[upto - 1]);
        }
    }
}

/// Deduplicating a non-empty prefix leaves at least one box.
proof fn lemma_dedup_first_nonempty(s: Seq<BBox>, upto: int)
    requires
        1 <= upto <= s.len(),
    ensures
        dedup_first(s, upto).len() >= 1,
    decreases upto,
{
    if upto > 1 {
        lemma_dedup_first_nonempty(s, upto - 1);
    } else {
        assert(dedup_first(s, 0).len() == 0);
    }
}

/// A box of the input list is the union of the selection holding just
/// itself.
proof fn lemma_single_union(b: BBox, from: Seq<BBox>)
    requires
        from.contains(b),
    ensures
        is_union_of_some(b, from),
{
    let g: Seq<BBox> = seq![b];
    assert(merge_of(g) == b);
    assert(g.len() >= 1 && (forall|m: int| 0 <= m < g.len() ==> from.contains(#[trigger] g[m]))
        && b == merge_of(g));
}

/// Every box the finalization emits is a union of input boxes.
proof fn lemma_final_boxes_union(dets: Seq<Detection>, cls: Seq<Classification>, k: nat, m: int)
    requires
        cls.len() == dets.len(),
        0 <= m < final_boxes_of(dets, cls, k).len(),
    ensures
        is_union_of_some(final_boxes_of(dets, cls, k)[m], bboxes_of(dets)),
{
    let st = build_state(dets, cls, k, dets.len() as int);
    let out = st.direct + merged_groups(st.groups);
    lemma_build_state_from(dets, cls, k, dets.len() as int);
    if out.len() == 0 && dets.len() > 0 {
        lemma_dedup_first_from(bboxes_of(dets), dets.len() as int, m);
        lemma_single_union(final_boxes_of(dets, cls, k)[m], bboxes_of(dets));
    } else {
        if m < st.direct.len() {
            assert(out[m] == st.direct[m]);
            lemma_single_union(st.direct[m], bboxes_of(dets));
        } else {
            assert(out[m] == merged_groups(st.groups)[m - st.direct.len()]);
            lemma_merged_groups_src(st.groups, m - st.direct.len());
            let c = choose|c: int|
                0 <= c < st.groups.len() && #[trigger] st.groups[c].len() > 0 && merged_groups(
                    st.groups,
                )[m - st.direct.len()] == merge_of(st.groups[c]);
            assert(forall|mm: int|
                0 <= mm < st.groups[c].len() ==> bboxes_of(dets).contains(
                    #[trigger] st.groups[c][mm],
                ));
            assert(is_union_of_some(out[m], bboxes_of(dets)));
        }
    }
}

/// Whether the list holds a box equal to `b`.
fn contains_box(v: &Vec<BBox>, b: &BBox) -> (r: bool)
    ensures
        r == v@.contains(*b),
{
    let mut i: usize = 0;
    let mut found: bool = false;
    while i < v.len()
        invariant
            0 <= i <= v@.len(),
            found <==> exists|k: int| 0 <= k < i && v@[k] == *b,
        decreases v@.len() - i,
    {
        if v[i] == *b {
            found = true;
        }
        i = i + 1;
    }
    found
}

/// Whether some member of the group overlaps `b` above the merge
/// threshold.
fn group_has_match(g: &Vec<BBox>, b: &BBox) -> (r: bool)
    requires
        bbox_wf(*b),
        forall|m: int| 0 <= m < g@.len() ==> bbox_wf(#[trigger] g@[m]),
    ensures
        r == group_matches(g@, *b),
{
    let mut m: usize = 0;
    let mut found: bool = false;
    while m < g.len()
        invariant
            0 <= m <= g@.len(),
            bbox_wf(*b),
            forall|k: int| 0 <= k < g@.len() ==> bbox_wf(#[trigger] g@[k]),
            found <==> exists|k: int| 0 <= k < m && iou_match(*b, #[trigger] g@[k]),
        decreases g@.len() - m,
    {
        if iou_exceeds_threshold(b, &g[m]) {
            found = true;
        }
        m = m + 1;
    }
    found
}

/// Appends `b` to group `c`, leaving every other group alone.
fn push_to_group(cluster_groups: &mut Vec<Vec<BBox>>, c: usize, b: BBox)
    requires
        c < old(cluster_groups)@.len(),
    ensures
        final(cluster_groups)@.len() == old(cluster_groups)@.len(),
        groups_view(final(cluster_groups)@) == groups_view(old(cluster_groups)@).update(
            c as int,
            groups_view(old(cluster_groups)@)[c as int].push(b),
        ),
{
    let ghost pre = cluster_groups@;
    let g = cluster_groups.remove(c);
    let mut g2 = g;
    g2.push(b);
    cluster_groups.insert(c, g2);
    proof {
        assert(cluster_groups@ =~= pre.update(c as int, g2));
        assert(groups_view(cluster_groups@) =~= groups_view(pre).update(
            c as int,
            groups_view(pre)[c as int].push(b),
        ));
    }
}

/// Pushing a well-formed box into one group of a well-formed family
/// keeps every stored box well formed.
proof fn lemma_update_push_wf(gv: Seq<Seq<BBox>>, c: int, b: BBox)
    requires
        0 <= c < gv.len(),
        bbox_wf(b),
        forall|ci: int, m: int|
            0 <= ci < gv.len() && 0 <= m < gv[ci].len() ==> bbox_wf(#[trigger] gv[ci][m]),
    ensures
        forall|ci: int, m: int|
            0 <= ci < gv.update(c, gv[c].push(b)).len() && 0 <= m < gv.update(
                c,
                gv[c].push(b),
            )[ci].len() ==> bbox_wf(#[trigger] gv.update(c, gv[c].push(b))[ci][m]),
{
    let gv2 = gv.update(c, gv[c].push(b));
    assert forall|ci: int, m: int|
        0 <= ci < gv2.len() && 0 <= m < gv2[ci].len() implies bbox_wf(#[trigger] gv2[ci][m]) by {
        if ci == c {
            if m < gv[c].len() {
                assert(gv2[ci][m] == gv[c][m]);
            } else {
                assert(gv2[ci][m] == b);
            }
        } else {
            assert(gv2[ci][m] == gv[ci][m]);
        }
    }
}

/// Attaches a stray box to the first group it overlaps strongly with, or
/// emits it directly as a final box when no group matches.
pub fn handle_noise_point(
    final_boxes: &mut Vec<BBox>,
    cluster_groups: &mut Vec<Vec<BBox>>,
    bbox: BBox,
)
    requires
        bbox_wf(bbox),
        forall|c: int, m: int|
            0 <= c < groups_view(old(cluster_groups)@).len() && 0 <= m < groups_view(
                old(cluster_groups)@,
            )[c].len() ==> bbox_wf(#[trigger] groups_view(old(cluster_groups)@)[c][m]),
    ensures
        final(cluster_groups)@.len() == old(cluster_groups)@.len(),
        ({
            let f = first_match(groups_view(old(cluster_groups)@), bbox);
            if f >= 0 {
                final(final_boxes)@ == old(final_boxes)@ && groups_view(final(cluster_groups)@)
                    == groups_view(old(cluster_groups)@).update(
                    f,
                    groups_view(old(cluster_groups)@)[f].push(bbox),
                )
            } else {
                groups_view(final(cluster_groups)@) == groups_view(old(cluster_groups)@)
                    && final(final_boxes)@ == old(final_boxes)@.push(bbox)
            }
        }),
{
    let ghost pre = groups_view(cluster_groups@);
    let mut gi: usize = 0;
    #[verifier::loop_isolation(false)]
    while gi < cluster_groups.len()
        invariant
            pre == groups_view(cluster_groups@),
            0 <= gi <= cluster_groups@.len(),
            forall|k: int| 0 <= k < gi ==> !group_matches(#[trigger] pre[k], bbox),
        decreases cluster_groups@.len() - gi,
    {
        proof {
            assert(cluster_groups@[gi as int]@ == groups_view(cluster_groups@)[gi as int]);
        }
        let matched = group_has_match(&cluster_groups[gi], &bbox);
        if matched {
            proof {
                lemma_first_match_found(pre, bbox, gi as int);
            }
            push_to_group(cluster_groups, gi, bbox);
            return ;
        }
        gi = gi + 1;
    }
    proof {
        lemma_first_match_none(pre, bbox);
    }
    final_boxes.push(bbox);
}

/// Appends the merged box of every non-empty group to the directly
/// emitted boxes; if nothing at all was produced for a non-empty input,
/// falls back to the distinct input boxes in first-seen order.
pub fn finalize_clusters(
    final_boxes: Vec<BBox>,
    cluster_groups: &Vec<Vec<BBox>>,
    detections: &Vec<Detection>,
) -> (r: Vec<BBox>)
    ensures
        r@ == ({
            let out = final_boxes@ + merged_groups(groups_view(cluster_groups@));
            if out.len() == 0 && detections@.len() > 0 {
                dedup_first(bboxes_of(detections@), detections@.len() as int)
            } else {
                out
            }
        }),
{
    let mut acc = final_boxes;
    let ghost direct = acc@;
    let mut gi: usize = 0;
    while gi < cluster_groups.len()
        invariant
            0 <= gi <= cluster_groups@.len(),
            acc@ == direct + merged_groups(groups_view(cluster_groups@).take(gi as int)),
        decreases cluster_groups@.len() - gi,
    {
        proof {
            assert(groups_view(cluster_groups@).take(gi + 1).drop_last() =~= groups_view(
                cluster_groups@,
            ).take(gi as int));
            assert(groups_view(cluster_groups@).take(gi + 1).last() == cluster_groups@[gi as int]@);
        }
        let g = &cluster_groups[gi];
        if g.len() > 0 {
            let m = merge_boxes(g);
            acc.push(m);
        }
        gi = gi + 1;
    }
    proof {
        assert(groups_view(cluster_groups@).take(cluster_groups@.len() as int) =~= groups_view(
            cluster_groups@,
        ));
    }
    if acc.len() == 0 && detections.len() > 0 {
        let mut i: usize = 0;
        while i < detections.len()
            invariant
                0 <= i <= detections@.len(),
                acc@ == dedup_first(bboxes_of(detections@), i as int),
            decreases detections@.len() - i,
        {
            proof {
                assert(bboxes_of(detections@)[i as int] == detections@[i as int].bbox);
            }
            let b = detections[i].bbox;
            if !contains_box(&acc, &b) {
                acc.push(b);
            }
            i = i + 1;
        }
    }
    acc
}

/// Folds every classification into groups, attaching stray boxes by
/// overlap, and finalizes the result.
pub fn process_clusters(
    detections: &Vec<Detection>,
    classifications: &Vec<Classification>,
    num_clusters: usize,
) -> (r: Vec<BBox>)
    requires
        classifications@.len() == detections@.len(),
        forall|i: int| 0 <= i < detections@.len() ==> detection_wf(#[trigger] detections@[i]),
        forall|i: int|
            0 <= i < classifications@.len() ==> ((#[trigger] classifications@[i]) is Core
                ==> (classifications@[i]->Core_0 as int) < num_clusters)
                && (classifications@[i] is Edge ==> (classifications@[i]->Edge_0 as int)
                < num_clusters),
    ensures
        r@ == final_boxes_of(detections@, classifications@, num_clusters as nat),
        r@.len() <= detections@.len(),
{
    proof {
        lemma_final_boxes_len(detections@, classifications@, num_clusters as nat);
    }
    let ghost dets = detections@;
    let ghost cls = classifications@;
    let ghost k = num_clusters as nat;
    let mut cluster_groups: Vec<Vec<BBox>> = Vec::new();
    let mut c: usize = 0;
    while c < num_clusters
        invariant
            0 <= c <= num_clusters,
            cluster_groups@.len() == c,
            forall|m: int| 0 <= m < c ==> #[trigger] cluster_groups@[m]@ =~= Seq::<BBox>::empty(),
        decreases num_clusters - c,
    {
        cluster_groups.push(Vec::new());
        c = c + 1;
    }
    proof {
        assert(groups_view(cluster_groups@) =~= empty_groups(k));
    }
    let mut final_boxes: Vec<BBox> = Vec::new();
    let mut idx: usize = 0;
    while idx < detections.len()
        invariant
            dets == detections@,
            cls == classifications@,
            k == num_clusters as nat,
            classifications@.len() == detections@.len(),
            forall|i: int| 0 <= i < dets.len() ==> detection_wf(#[trigger] dets[i]),
            forall|i: int|
                0 <= i < cls.len() ==> ((#[trigger] cls[i]) is Core ==> (cls[i]->Core_0 as int)
                    < num_clusters) && (cls[i] is Edge ==> (cls[i]->Edge_0 as int) < num_clusters),
            0 <= idx <= dets.len(),
            cluster_groups@.len() == num_clusters,
            groups_view(cluster_groups@) == build_state(dets, cls, k, idx as int).groups,
            final_boxes@ == build_state(dets, cls, k, idx as int).direct,
            forall|ci: int, m: int|
                0 <= ci < groups_view(cluster_groups@).len() && 0 <= m < groups_view(
                    cluster_groups@,
                )[ci].len() ==> bbox_wf(#[trigger] groups_view(cluster_groups@)[ci][m]),
        decreases dets.len() - idx,
    {
        let ghost st = build_state(dets, cls, k, idx as int);
        let ghost gpre = groups_view(cluster_groups@);
        let d = detections[idx];
        let classification = classifications[idx];
        match classification {
            Classification::Core(cid) => {
                proof {
                    lemma_update_push_wf(gpre, cid as int, d.bbox);
                }
                push_to_group(&mut cluster_groups, cid, d.bbox);
            },
            Classification::Edge(cid) => {
                proof {
                    lemma_update_push_wf(gpre, cid as int, d.bbox);
                }
                push_to_group(&mut cluster_groups, cid, d.bbox);
            },
            Classification::Noise => {
                proof {
                    let f = first_match(gpre, d.bbox);
                    lemma_first_match_range(gpre, d.bbox);
                    if f >= 0 {
                        lemma_update_push_wf(gpre, f, d.bbox);
                    }
                }
                handle_noise_point(&mut final_boxes, &mut cluster_groups, d.bbox);
            },
        }
        proof {
            assert(build_state(dets, cls, k, idx + 1) == grouping_step(
                st,
                dets[idx as int],
                cls[idx as int],
            ));
            assert(groups_view(cluster_groups@) == build_state(dets, cls, k, idx + 1).groups);
            assert(final_boxes@ == build_state(dets, cls, k, idx + 1).direct);
        }
        idx = idx + 1;
    }
    finalize_clusters(final_boxes, &cluster_groups, detections)
}

/// Total number of boxes stored across all groups.
pub open spec fn total_members(groups: Seq<Seq<BBox>>) -> nat
    decreases groups.len(),
{
    if groups.len() == 0 {
        0
    } else {
        groups.last().len() + total_members(groups.drop_last())
    }
}

/// Pushing one box into one group grows the total by one.
proof fn lemma_total_members_update_push(gv: Seq<Seq<BBox>>, c: int, b: BBox)
    requires
        0 <= c < gv.len(),
    ensures
        total_members(gv.update(c, gv[c].push(b))) == total_members(gv) + 1,
    decreases gv.len(),
{
    let gv2 = gv.update(c, gv[c].push(b));
    if c == gv.len() - 1 {
        assert(gv2.drop_last() =~= gv.drop_last());
        assert(gv2.last() == gv[c].push(b));
    } else {
        assert(gv2.last() == gv.last());
        assert(gv2.drop_last() =~= gv.drop_last().update(c, gv.drop_last()[c].push(b)));
        lemma_total_members_update_push(gv.drop_last(), c, b);
    }
}

/// Every folded detection stores exactly one box: in a group or among
/// the directly emitted ones.
proof fn lemma_build_state_count(dets: Seq<Detection>, cls: Seq<Classification>, k: nat, upto: int)
    requires
        upto <= dets.len(),
        cls.len() == dets.len(),
        forall|i: int|
            0 <= i < cls.len() ==> ((#[trigger] cls[i]) is Core ==> (cls[i]->Core_0 as int) < k)
                && (cls[i] is Edge ==> (cls[i]->Edge_0 as int) < k),
    ensures
        upto >= 0 ==> total_members(build_state(dets, cls, k, upto).groups) + build_state(
            dets,
            cls,
            k,
            upto,
        ).direct.len() == upto,
    decreases upto,
{
    if upto > 0 {
        lemma_build_state_count(dets, cls, k, upto - 1);
        let st = build_state(dets, cls, k, upto - 1);
        let d = dets[upto - 1];
        let cl = cls[upto - 1];
        assert(st.groups.len() == k) by {
            lemma_build_state_groups_len(dets, cls, k, upto - 1);
        }
        match cl {
            Classification::Core(c) => {
                lemma_total_members_update_push(st.groups, c as int, d.bbox);
            },
            Classification::Edge(c) => {
                lemma_total_members_update_push(st.groups, c as int, d.bbox);
            },
            Classification::Noise => {
                let f = first_match(st.groups, d.bbox);
                lemma_first_match_range(st.groups, d.bbox);
                if f >= 0 {
                    lemma_total_members_update_push(st.groups, f, d.bbox);
                }
            },
        }
    } else if upto == 0 {
        lemma_total_members_all_empty(empty_groups(k));
    }
}

/// The grouping state always keeps one group slot per cluster id.
proof fn lemma_build_state_groups_len(dets: Seq<Detection>, cls: Seq<Classification>, k: nat, upto: int)
    ensures
        build_state(dets, cls, k, upto).groups.len() == k,
    decreases upto,
{
    if upto > 0 {
        lemma_build_state_groups_len(dets, cls, k, upto - 1);
        let st = build_state(dets, cls, k, upto - 1);
        lemma_first_match_range(st.groups, dets[upto - 1].bbox);
    }
}

/// A family of empty groups stores nothing.
proof fn lemma_total_members_all_empty(gv: Seq<Seq<BBox>>)
    requires
        forall|c: int| 0 <= c < gv.len() ==> (#[trigger] gv[c]).len() == 0,
    ensures
        total_members(gv) == 0,
    decreases gv.len(),
{
    if gv.len() > 0 {
        assert(forall|c: int|
            0 <= c < gv.drop_last().len() ==> (#[trigger] gv.drop_last()[c]).len() == 0);
        lemma_total_members_all_empty(gv.drop_last());
    }
}

/// At most one merged box comes out of the boxes stored in the groups.
proof fn lemma_merged_le_total(groups: Seq<Seq<BBox>>)
    ensures
        merged_groups(groups).len() <= total_members(groups),
    decreases groups.len(),
{
    if groups.len() > 0 {
        lemma_merged_le_total(groups.drop_last());
    }
}

/// Deduplication never grows a prefix.
proof fn lemma_dedup_le(s: Seq<BBox>, upto: int)
    requires
        upto >= 0,
    ensures
        dedup_first(s, upto).len() <= upto,
    decreases upto,
{
    if upto > 0 {
        lemma_dedup_le(s, upto - 1);
    }
}

/// The finalized output never holds more boxes than detections went in.
proof fn lemma_final_boxes_len(dets: Seq<Detection>, cls: Seq<Classification>, k: nat)
    requires
        cls.len() == dets.len(),
        forall|i: int|
            0 <= i < cls.len() ==> ((#[trigger] cls[i]) is Core ==> (cls[i]->Core_0 as int) < k)
                && (cls[i] is Edge ==> (cls[i]->Edge_0 as int) < k),
    ensures
        final_boxes_of(dets, cls, k).len() <= dets.len(),
{
    let st = build_state(dets, cls, k, dets.len() as int);
    lemma_build_state_count(dets, cls, k, dets.len() as int);
    lemma_merged_le_total(st.groups);
    lemma_dedup_le(bboxes_of(dets), dets.len() as int);
}

/// The merge of well-formed boxes is well formed.
proof fn lemma_merge_wf(g: Seq<BBox>)
    requires
        g.len() >= 1,
        forall|m: int| 0 <= m < g.len() ==> bbox_wf(#[trigger] g[m]),
    ensures
        bbox_wf(merge_of(g)),
    decreases g.len(),
{
    if g.len() > 1 {
        assert(forall|m: int| 0 <= m < g.drop_last().len() ==> bbox_wf(#[trigger] g.drop_last()[m]));
        lemma_merge_wf(g.drop_last());
    }
}

/// A union of well-formed boxes is well formed.
proof fn lemma_union_of_wf(b: BBox, from: Seq<BBox>)
    requires
        is_union_of_some(b, from),
        forall|x: BBox| from.contains(x) ==> bbox_wf(x),
    ensures
        bbox_wf(b),
{
    let g = choose|g: Seq<BBox>|
        {
            &&& g.len() >= 1
            &&& (forall|m: int| 0 <= m < g.len() ==> from.contains(#[trigger] g[m]))
            &&& b == merge_of(g)
        };
    assert(forall|m: int| 0 <= m < g.len() ==> bbox_wf(#[trigger] g[m]));
    lemma_merge_wf(g);
}

/// Merging a family of all-empty groups yields nothing.
proof fn lemma_merged_groups_all_empty(gv: Seq<Seq<BBox>>)
    requires
        forall|c: int| 0 <= c < gv.len() ==> (#[trigger] gv[c]).len() == 0,
    ensures
        merged_groups(gv) =~= Seq::<BBox>::empty(),
    decreases gv.len(),
{
    if gv.len() > 0 {
        assert(forall|c: int|
            0 <= c < gv.drop_last().len() ==> (#[trigger] gv.drop_last()[c]).len() == 0);
        lemma_merged_groups_all_empty(gv.drop_last());
    }
}

/// Merging a family with a single non-empty group yields just its merge.
proof fn lemma_merged_groups_single(gv: Seq<Seq<BBox>>, c: int)
    requires
        0 <= c < gv.len(),
        gv[c].len() > 0,
        forall|ci: int| 0 <= ci < gv.len() && ci != c ==> (#[trigger] gv[ci]).len() == 0,
    ensures
        merged_groups(gv) =~= seq![merge_of(gv[c])],
    decreases gv.len(),
{
    if c == gv.len() - 1 {
        assert(forall|ci: int|
            0 <= ci < gv.drop_last().len() ==> (#[trigger] gv.drop_last()[ci]).len() == 0);
        lemma_merged_groups_all_empty(gv.drop_last());
    } else {
        assert(gv.last().len() == 0);
        assert(gv.drop_last()[c] == gv[c]);
        assert(forall|ci: int|
            0 <= ci < gv.drop_last().len() && ci != c ==> (#[trigger] gv.drop_last()[ci]).len()
                == 0);
        lemma_merged_groups_single(gv.drop_last(), c);
    }
}

/// A single detection classified into cluster 0 comes back unchanged.
proof fn lemma_cluster_single(dets: Seq<Detection>, cls: Seq<Classification>, k: nat)
    requires
        dets.len() == 1,
        cls.len() == 1,
        cls[0] == Classification::Core(0usize),
        k >= 1,
    ensures
        final_boxes_of(dets, cls, k) =~= seq![dets[0].bbox],
{
    let b0 = dets[0].bbox;
    let st0 = build_state(dets, cls, k, 0);
    let st1 = build_state(dets, cls, k, 1);
    assert(st1 == grouping_step(st0, dets[0], cls[0]));
    let gv = st1.groups;
    assert(gv == empty_groups(k).update(0, empty_groups(k)[0].push(b0)));
    assert(gv[0] =~= seq![b0]);
    assert(forall|ci: int| 0 <= ci < gv.len() && ci != 0 ==> (#[trigger] gv[ci]).len() == 0);
    lemma_merged_groups_single(gv, 0);
    assert(merge_of(gv[0]) == b0);
    assert(st1.direct =~= Seq::<BBox>::empty());
    assert(st1.direct + merged_groups(gv) =~= seq![b0]);
}

/// Two detections classified into the same cluster come back as their
/// single union box.
proof fn lemma_cluster_pair_merged(dets: Seq<Detection>, cls: Seq<Classification>, k: nat)
    requires
        dets.len() == 2,
        cls.len() == 2,
        cls[0] == Classification::Core(0usize),
        cls[1] == Classification::Core(0usize),
        k >= 1,
    ensures
        final_boxes_of(dets, cls, k) =~= seq![union2(dets[0].bbox, dets[1].bbox)],
{
    let b0 = dets[0].bbox;
    let b1 = dets[1].bbox;
    let st1 = build_state(dets, cls, k, 1);
    let st2 = build_state(dets, cls, k, 2);
    assert(st1 == grouping_step(build_state(dets, cls, k, 0), dets[0], cls[0]));
    assert(st2 == grouping_step(st1, dets[1], cls[1]));
    let gv = st2.groups;
    assert(st1.groups[0] =~= seq![b0]);
    assert(gv[0] =~= seq![b0, b1]);
    assert(forall|ci: int| 0 <= ci < gv.len() && ci != 0 ==> (#[trigger] gv[ci]).len() == 0);
    lemma_merged_groups_single(gv, 0);
    assert(seq![b0, b1].drop_last() =~= seq![b0]);
    assert(seq![b0, b1].len() == 2 && seq![b0, b1].last() == b1);
    assert(merge_of(seq![b0]) == b0);
    assert(merge_of(seq![b0, b1]) == union2(merge_of(seq![b0, b1].drop_last()), b1));
    assert(merge_of(seq![b0, b1]) == union2(b0, b1));
    assert(merge_of(gv[0]) == union2(b0, b1)) by {
        assert(gv[0] =~= seq![b0, b1]);
    }
    assert(st2.direct =~= Seq::<BBox>::empty());
    assert(st2.direct + merged_groups(gv) =~= seq![union2(b0, b1)]);
}

/// Two detections classified into different clusters come back as two
/// separate boxes, in input order.
proof fn lemma_cluster_pair_split(dets: Seq<Detection>, cls: Seq<Classification>, k: nat)
    requires
        dets.len() == 2,
        cls.len() == 2,
        cls[0] == Classification::Core(0usize),
        cls[1] == Classification::Core(1usize),
        k == 2,
    ensures
        final_boxes_of(dets, cls, k) =~= seq![dets[0].bbox, dets[1].bbox],
{
    let b0 = dets[0].bbox;
    let b1 = dets[1].bbox;
    let st1 = build_state(dets, cls, k, 1);
    let st2 = build_state(dets, cls, k, 2);
    assert(st1 == grouping_step(build_state(dets, cls, k, 0), dets[0], cls[0]));
    assert(st2 == grouping_step(st1, dets[1], cls[1]));
    let gv = st2.groups;
    assert(gv.len() == 2);
    assert(gv[0] =~= seq![b0]);
    assert(gv[1] =~= seq![b1]);
    assert(gv.last() == gv[1]);
    assert(gv.drop_last()[0] == gv[0]);
    assert(forall|ci: int|
        0 <= ci < gv.drop_last().len() && ci != 0 ==> (#[trigger] gv.drop_last()[ci]).len() == 0);
    lemma_merged_groups_single(gv.drop_last(), 0);
    assert(merge_of(gv[0]) == b0) by {
        assert(gv[0] =~= seq![b0]);
    }
    assert(merge_of(gv[1]) == b1) by {
        assert(gv[1] =~= seq![b1]);
    }
    assert(merged_groups(gv) =~= seq![merge_of(gv[0])].push(merge_of(gv[1])));
    assert(st2.direct =~= Seq::<BBox>::empty());
    assert(st2.direct + merged_groups(gv) =~= seq![b0, b1]);
}

/// Collapses a list of detections into one box per physical face.
///
/// The clustering radius adapts to the data: `eps` is half the median
/// box size (but at least half of `DEFAULT_CLUSTER_SIZE`), measured in
/// 4-dimensional corner space. A density pass groups boxes within `eps`;
/// if everything comes back as noise the pass is retried once with the
/// radius widened by half. Stray boxes then join groups they overlap by
/// more than the merge threshold, or stand alone; every group is merged
/// into its axis-aligned union box; and if the grouping produced nothing
/// for a non-empty input, the distinct input boxes are returned as-is.
pub fn cluster_boxes(detections: &Vec<Detection>) -> (boxes: Vec<BBox>)
    requires
        forall|i: int| 0 <= i < detections@.len() ==> detection_wf(#[trigger] detections@[i]),
    ensures
        detections@.len() == 0 ==> boxes@.len() == 0,
        detections@.len() >= 1 ==> boxes@.len() >= 1,
        boxes@.len() <= detections@.len(),
        forall|m: int|
            0 <= m < boxes@.len() ==> is_union_of_some(#[trigger] boxes@[m], bboxes_of(detections@)),
        forall|m: int| 0 <= m < boxes@.len() ==> bbox_wf(#[trigger] boxes@[m]),
        detections@.len() == 1 ==> boxes@ == seq![detections@[0].bbox],
        detections@.len() == 2 && 4 * dist2(detections@[0].bbox, detections@[1].bbox) < eps_base(
            detections@,
        ) ==> boxes@ == seq![union2(detections@[0].bbox, detections@[1].bbox)],
        detections@.len() == 2 && 4 * dist2(detections@[0].bbox, detections@[1].bbox) >= eps_base(
            detections@,
        ) ==> boxes@ == seq![detections@[0].bbox, detections@[1].bbox],
{
    let ghost dets = detections@;
    let n = detections.len();
    if n == 0 {
        return Vec::new();
    }
    let med = calculate_median_size(detections);
    let floor_sq: i64 = DEFAULT_CLUSTER_SIZE * DEFAULT_CLUSTER_SIZE;
    let eps_b: i64 = if med >= floor_sq {
        med
    } else {
        floor_sq
    };
    proof {
        assert(eps_b as int == eps_base(dets));
        assert(0 < eps_b <= 1_000_000_000_000);
    }
    let min_points: usize = if n > 3 {
        2
    } else {
        1
    };
    let (classifications, num_clusters) = crate::dbscan::dbscan_classify(
        detections,
        eps_b,
        4,
        min_points,
    );
    let ghost cls = classifications@;
    let mut all_noise: bool = true;
    let mut i: usize = 0;
    while i < n
        invariant
            n == cls.len(),
            cls == classifications@,
            0 <= i <= n,
            all_noise <==> (forall|m: int| 0 <= m < i ==> (#[trigger] cls[m]) is Noise),
        decreases n - i,
    {
        let is_noise = matches!(classifications[i], Classification::Noise);
        if !is_noise {
            all_noise = false;
        }
        i = i + 1;
    }
    if !all_noise {
        let r = process_clusters(detections, &classifications, num_clusters);
        proof {
            assert forall|m: int| 0 <= m < r@.len() implies is_union_of_some(
                #[trigger] r@[m],
                bboxes_of(dets),
            ) by {
                lemma_final_boxes_union(dets, cls, num_clusters as nat, m);
            }
            assert forall|m: int| 0 <= m < r@.len() implies bbox_wf(#[trigger] r@[m]) by {
                assert forall|x: BBox| bboxes_of(dets).contains(x) implies bbox_wf(x) by {
                    let idx = choose|idx: int|
                        0 <= idx < bboxes_of(dets).len() && bboxes_of(dets)[idx] == x;
                    assert(dets[idx].bbox == x);
                }
                lemma_union_of_wf(r@[m], bboxes_of(dets));
            }
            let st = build_state(dets, cls, num_clusters as nat, dets.len() as int);
            let out = st.direct + merged_groups(st.groups);
            if out.len() == 0 {
                lemma_dedup_first_nonempty(bboxes_of(dets), dets.len() as int);
            }
            if n == 1 {
                assert(core_point(dets, eps_b as int, 4, min_points as int, 0));
                assert(cls[0] is Core && cls[0]->Core_0 == 0usize);
                assert(cls[0] == Classification::Core(0usize));
                assert((cls[0]->Core_0 as int) < num_clusters);
                lemma_cluster_single(dets, cls, num_clusters as nat);
            }
            if n == 2 {
                assert(core_point(dets, eps_b as int, 4, min_points as int, 0));
                assert(core_point(dets, eps_b as int, 4, min_points as int, 1));
                assert(cls[0] is Core && cls[1] is Core);
                assert(cls[0]->Core_0 == 0usize);
                assert(cls[0] == Classification::Core(0usize));
                if 4 * dist2(dets[0].bbox, dets[1].bbox) < eps_base(dets) {
                    assert(crate::dbscan::near(dets, eps_b as int, 4, 0, 1));
                    assert(cls[1]->Core_0 == cls[0]->Core_0);
                    assert(cls[1] == Classification::Core(0usize));
                    assert((cls[0]->Core_0 as int) < num_clusters);
                    lemma_cluster_pair_merged(dets, cls, num_clusters as nat);
                } else {
                    if cls[1]->Core_0 == cls[0]->Core_0 {
                        assert(crate::dbscan::connected(dets, eps_b as int, 4, 0, 1));
                        crate::dbscan::lemma_connected_nontrivial(dets, eps_b as int, 4, 0, 1);
                        let j = choose|j: int| crate::dbscan::near(dets, eps_b as int, 4, 0, j);
                        assert(j == 1);
                        assert(false);
                    }
                    assert((cls[1]->Core_0 as int) < num_clusters);
                    assert(num_clusters <= 2);
                    assert(cls[1]->Core_0 == 1usize);
                    assert(cls[1] == Classification::Core(1usize));
                    assert(num_clusters == 2);
                    lemma_cluster_pair_split(dets, cls, num_clusters as nat);
                }
            }
        }
        return r;
    }
    proof {
        assert(n > 3) by {
            if n <= 3 {
                assert(core_point(dets, eps_b as int, 4, min_points as int, 0));
                assert(cls[0] is Core);
                assert(cls[0] is Noise);
            }
        }
        assert(9 * eps_b <= 9_000_000_000_000);
    }
    let widened: i64 = 9 * eps_b;
    let (retry_cls, retry_clusters) = crate::dbscan::dbscan_classify(
        detections,
        widened,
        16,
        min_points,
    );
    let ghost cls2 = retry_cls@;
    let r = process_clusters(detections, &retry_cls, retry_clusters);
    proof {
        assert forall|m: int| 0 <= m < r@.len() implies is_union_of_some(
            #[trigger] r@[m],
            bboxes_of(dets),
        ) by {
            lemma_final_boxes_union(dets, cls2, retry_clusters as nat, m);
        }
        assert forall|m: int| 0 <= m < r@.len() implies bbox_wf(#[trigger] r@[m]) by {
            assert forall|x: BBox| bboxes_of(dets).contains(x) implies bbox_wf(x) by {
                let idx = choose|idx: int|
                    0 <= idx < bboxes_of(dets).len() && bboxes_of(dets)[idx] == x;
                assert(dets[idx].bbox == x);
            }
            lemma_union_of_wf(r@[m], bboxes_of(dets));
        }
        let st = build_state(dets, cls2, retry_clusters as nat, dets.len() as int);
        let out = st.direct + merged_groups(st.groups);
        if out.len() == 0 {
            lemma_dedup_first_nonempty(bboxes_of(dets), dets.len() as int);
        }
    }
    r
}

/// Reads a `(x_center, y_center, width, height)` description of a box and
/// returns its corner form, with sizes split in half towards each side.
/// Widths and heights are taken non-negative.
pub fn convert_to_corners(x_center: i32, y_center: i32, width: i32, height: i32) -> (r: BBox)
    requires
        -(MAX_DIM as int) <= x_center <= MAX_DIM,
        -(MAX_DIM as int) <= y_center <= MAX_DIM,
        0 <= width <= MAX_DIM,
        0 <= height <= MAX_DIM,
    ensures
        r.x1 == x_center - width / 2,
        r.y1 == y_center - height / 2,
        r.x2 == x_center + width / 2,
        r.y2 == y_center + height / 2,
{
    BBox {
        x1: x_center - width / 2,
        y1: y_center - height / 2,
        x2: x_center + width / 2,
        y2: y_center + height / 2,
    }
}

} // verus!
