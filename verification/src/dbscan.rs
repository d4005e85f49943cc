//! Density-based classification of detections (DBSCAN semantics).
//!
//! A point's neighborhood is every point at Euclidean distance strictly
//! below `eps` in 4-dimensional corner space, itself included. A point is a
//! *core* point when its neighborhood holds at least `min_points` points;
//! every other point is *noise*. Core points are grouped into clusters:
//! two core points share a cluster exactly when a chain of neighboring
//! points joins them. Cluster ids are dense and assigned in first-seen
//! index order.
//!
//! The clustering engine only ever asks for `min_points` of 1 or 2. With a
//! neighborhood that includes the point itself, a point is then core
//! exactly when `min_points == 1`, or when some *other* point lies
//! strictly within `eps`; and a point within `eps` of a core point is
//! itself core, so the *edge* class of the general algorithm is empty.
//! The contracts below state core-ness in that form.
//!
//! The radius is given as a ratio: `dist < eps` is decided exactly as
//! `eps_den * dist² < eps_num`, with `eps_num / eps_den == eps²`.

use vstd::prelude::*;

use crate::types::{BBox, Detection, bbox_wf, detection_wf};
use crate::clustering::{dist2, sqi};

verus! {

/// How one detection came out of the density pass.
#[derive(Clone, Copy, Debug, PartialEq, Eq, Structural)]
pub enum Classification {
    /// A clustered point with at least `min_points` neighbors, carrying
    /// its cluster id.
    Core(usize),
    /// A point within `eps` of a core point that is not core itself,
    /// carrying the core point's cluster id. Never produced for the
    /// `min_points` values the clustering engine uses; kept so group
    /// building treats it exactly as a core member.
    Edge(usize),
    /// A point belonging to no cluster.
    Noise,
}

/// Two distinct points of `s` lie strictly within `eps` of each other:
/// `den * dist² < num`.
pub open spec fn near(s: Seq<Detection>, num: int, den: int, i: int, j: int) -> bool {
    &&& 0 <= i < s.len()
    &&& 0 <= j < s.len()
    &&& i != j
    &&& den * dist2(s[i].bbox, s[j].bbox) < num
}

/// Some other point of `s` lies strictly within `eps` of point `i`.
pub open spec fn has_close_neighbor(s: Seq<Detection>, num: int, den: int, i: int) -> bool {
    exists|j: int| near(s, num, den, i, j)
}

/// Point `i` is a core point. For the `min_points` values the clustering
/// engine uses (1 or 2), a point is core exactly when `min_points == 1`
/// (its neighborhood always holds itself) or when some other point lies
/// strictly within `eps`.
pub open spec fn core_point(s: Seq<Detection>, num: int, den: int, min_points: int, i: int) -> bool {
    min_points <= 1 || has_close_neighbor(s, num, den, i)
}

/// `p` is a chain of indices of `s` from `i` to `j` whose consecutive
/// members are near one another.
pub open spec fn valid_path(s: Seq<Detection>, num: int, den: int, p: Seq<int>, i: int, j: int) -> bool {
    &&& p.len() >= 1
    &&& p[0] == i
    &&& p[p.len() - 1] == j
    &&& (forall|k: int| 0 <= k < p.len() ==> 0 <= #[trigger] p[k] < s.len())
    &&& (forall|k: int| 0 <= k < p.len() - 1 ==> near(s, num, den, #[trigger] p[k], p[k + 1]))
}

/// A chain of neighboring points joins `i` and `j`.
pub open spec fn connected(s: Seq<Detection>, num: int, den: int, i: int, j: int) -> bool {
    exists|p: Seq<int>| valid_path(s, num, den, p, i, j)
}

/// Squaring does not care about the sign of a difference.
pub proof fn lemma_sqi_sym(x: int, y: int)
    ensures
        sqi(x - y) == sqi(y - x),
{
    assert(sqi(x - y) == sqi(y - x)) by (nonlinear_arith);
}

/// The squared corner distance is symmetric.
pub proof fn lemma_dist2_sym(a: BBox, b: BBox)
    ensures
        dist2(a, b) == dist2(b, a),
{
    lemma_sqi_sym(a.x1 as int, b.x1 as int);
    lemma_sqi_sym(a.y1 as int, b.y1 as int);
    lemma_sqi_sym(a.x2 as int, b.x2 as int);
    lemma_sqi_sym(a.y2 as int, b.y2 as int);
}

/// Nearness is symmetric.
pub proof fn lemma_near_sym(s: Seq<Detection>, num: int, den: int, i: int, j: int)
    requires
        near(s, num, den, i, j),
    ensures
        near(s, num, den, j, i),
{
    lemma_dist2_sym(s[i].bbox, s[j].bbox);
}

/// Every point of `s` is connected to itself.
pub proof fn lemma_connected_refl(s: Seq<Detection>, num: int, den: int, i: int)
    requires
        0 <= i < s.len(),
    ensures
        connected(s, num, den, i, i),
{
    let p: Seq<int> = seq![i];
    assert(valid_path(s, num, den, p, i, i));
}

/// A connection extends across one more neighboring hop.
pub proof fn lemma_connected_extend(s: Seq<Detection>, num: int, den: int, i: int, j: int, k: int)
    requires
        connected(s, num, den, i, j),
        near(s, num, den, j, k),
    ensures
        connected(s, num, den, i, k),
{
    let p = choose|p: Seq<int>| valid_path(s, num, den, p, i, j);
    let q = p.push(k);
    assert(q[q.len() - 1] == k);
    assert forall|m: int| 0 <= m < q.len() - 1 implies near(s, num, den, #[trigger] q[m], q[m + 1]) by {
        if m < p.len() - 1 {
            assert(q[m] == p[m] && q[m + 1] == p[m + 1]);
        } else {
            assert(q[m] == p[p.len() - 1] && q[m + 1] == k);
        }
    }
    assert(valid_path(s, num, den, q, i, k));
}

/// Connectivity is symmetric: the reversed chain joins `j` to `i`.
pub proof fn lemma_connected_sym(s: Seq<Detection>, num: int, den: int, i: int, j: int)
    requires
        connected(s, num, den, i, j),
    ensures
        connected(s, num, den, j, i),
{
    let p = choose|p: Seq<int>| valid_path(s, num, den, p, i, j);
    let n = p.len() as int;
    let q = Seq::new(p.len(), |k: int| p[n - 1 - k]);
    assert(q[0] == j && q[q.len() - 1] == i);
    assert forall|m: int| 0 <= m < q.len() - 1 implies near(s, num, den, #[trigger] q[m], q[m + 1]) by {
        assert(q[m] == p[n - 1 - m] && q[m + 1] == p[n - 2 - m]);
        assert(near(s, num, den, p[n - 2 - m], p[n - 1 - m]));
        lemma_near_sym(s, num, den, p[n - 2 - m], p[n - 1 - m]);
    }
    assert(valid_path(s, num, den, q, j, i));
}

/// Connectivity is transitive: the two chains concatenate.
pub proof fn lemma_connected_trans(s: Seq<Detection>, num: int, den: int, i: int, j: int, k: int)
    requires
        connected(s, num, den, i, j),
        connected(s, num, den, j, k),
    ensures
        connected(s, num, den, i, k),
{
    let p = choose|p: Seq<int>| valid_path(s, num, den, p, i, j);
    let q = choose|q: Seq<int>| valid_path(s, num, den, q, j, k);
    let r = p + q.skip(1);
    if q.len() == 1 {
        assert(r =~= p);
        assert(valid_path(s, num, den, r, i, k));
    } else {
        assert(r[0] == p[0]);
        assert(r[r.len() - 1] == q[q.len() - 1]);
        assert forall|m: int| 0 <= m < r.len() - 1 implies near(s, num, den, #[trigger] r[m], r[m + 1]) by {
            if m < p.len() - 1 {
                assert(r[m] == p[m] && r[m + 1] == p[m + 1]);
            } else if m == p.len() - 1 {
                assert(r[m] == p[p.len() - 1]);
                assert(r[m + 1] == q[1]);
                assert(near(s, num, den, q[0], q[1]));
            } else {
                assert(r[m] == q[m - p.len() + 1]);
                assert(r[m + 1] == q[m - p.len() + 2]);
                assert(near(s, num, den, q[m - p.len() + 1], q[m - p.len() + 2]));
            }
        }
        assert(valid_path(s, num, den, r, i, k));
    }
}

/// A connection between two distinct points starts with a neighboring
/// hop out of the first one.
pub proof fn lemma_connected_nontrivial(s: Seq<Detection>, num: int, den: int, i: int, j: int)
    requires
        connected(s, num, den, i, j),
        i != j,
    ensures
        has_close_neighbor(s, num, den, i),
{
    let p = choose|p: Seq<int>| valid_path(s, num, den, p, i, j);
    assert(p.len() >= 2);
    assert(near(s, num, den, p[0], p[1]));
}

/// Number of still-unlabeled entries; the termination measure of the
/// cluster expansion loop.
pub open spec fn count_none(s: Seq<Option<usize>>) -> nat
    decreases s.len(),
{
    if s.len() == 0 {
        0
    } else {
        (if s.last() is None {
            1nat
        } else {
            0nat
        }) + count_none(s.drop_last())
    }
}

/// Decides `dist < eps` exactly on integers: `eps_den * dist² < eps_num`.
pub fn box_within_eps(a: &BBox, b: &BBox, eps_num: i64, eps_den: i64) -> (r: bool)
    requires
        bbox_wf(*a),
        bbox_wf(*b),
        0 < eps_num,
        0 < eps_den <= 16,
    ensures
        r == (eps_den * dist2(*a, *b) < eps_num),
{
    let dx1: i64 = a.x1 as i64 - b.x1 as i64;
    let dy1: i64 = a.y1 as i64 - b.y1 as i64;
    let dx2: i64 = a.x2 as i64 - b.x2 as i64;
    let dy2: i64 = a.y2 as i64 - b.y2 as i64;
    proof {
        assert(0 <= dx1 * dx1 <= 1_000_000_000_000 && 0 <= dy1 * dy1 <= 1_000_000_000_000 && 0
            <= dx2 * dx2 <= 1_000_000_000_000 && 0 <= dy2 * dy2 <= 1_000_000_000_000)
            by (nonlinear_arith)
            requires
                -1_000_000 <= dx1 <= 1_000_000,
                -1_000_000 <= dy1 <= 1_000_000,
                -1_000_000 <= dx2 <= 1_000_000,
                -1_000_000 <= dy2 <= 1_000_000,
        ;
    }
    let d2: i64 = dx1 * dx1 + dy1 * dy1 + dx2 * dx2 + dy2 * dy2;
    proof {
        assert(d2 == dist2(*a, *b));
        assert(0 <= eps_den * d2 <= 64_000_000_000_000) by (nonlinear_arith)
            requires
                0 <= d2 <= 4_000_000_000_000,
                0 < eps_den <= 16,
        ;
    }
    eps_den * d2 < eps_num
}

/// Computes, for every detection, whether it is a core point.
fn compute_core_flags(detections: &Vec<Detection>, eps_num: i64, eps_den: i64, min_points: usize)
    -> (flags: Vec<bool>)
    requires
        forall|i: int|
            0 <= i < detections@.len() ==> detection_wf(#[trigger] detections@[i]),
        0 < eps_num,
        0 < eps_den <= 16,
        1 <= min_points <= 2,
    ensures
        flags@.len() == detections@.len(),
        forall|i: int|
            0 <= i < detections@.len() ==> #[trigger] flags@[i] == core_point(
                detections@,
                eps_num as int,
                eps_den as int,
                min_points as int,
                i,
            ),
{
    let n = detections.len();
    let mut flags: Vec<bool> = Vec::new();
    let mut i: usize = 0;
    while i < n
        invariant
            n == detections@.len(),
            forall|k: int| 0 <= k < n ==> detection_wf(#[trigger] detections@[k]),
            0 < eps_num,
            0 < eps_den <= 16,
            1 <= min_points <= 2,
            0 <= i <= n,
            flags@.len() == i,
            forall|k: int|
                0 <= k < i ==> #[trigger] flags@[k] == core_point(
                    detections@,
                    eps_num as int,
                    eps_den as int,
                    min_points as int,
                    k,
                ),
        decreases n - i,
    {
        if min_points <= 1 {
            flags.push(true);
        } else {
            let mut found: bool = false;
            let mut j: usize = 0;
            while j < n
                invariant
                    n == detections@.len(),
                    forall|k: int| 0 <= k < n ==> detection_wf(#[trigger] detections@[k]),
                    0 < eps_num,
                    0 < eps_den <= 16,
                    0 <= i < n,
                    0 <= j <= n,
                    found <==> exists|jj: int|
                        jj < j && near(detections@, eps_num as int, eps_den as int, i as int, jj),
                decreases n - j,
            {
                if j != i {
                    if box_within_eps(
                        &detections[i].bbox,
                        &detections[j].bbox,
                        eps_num,
                        eps_den,
                    ) {
                        proof {
                            assert(near(
                                detections@,
                                eps_num as int,
                                eps_den as int,
                                i as int,
                                j as int,
                            ));
                        }
                        found = true;
                    }
                }
                j = j + 1;
            }
            proof {
                if found {
                    assert(has_close_neighbor(
                        detections@,
                        eps_num as int,
                        eps_den as int,
                        i as int,
                    ));
                }
            }
            flags.push(found);
        }
        i = i + 1;
    }
    flags
}

/// Labeling one unlabeled entry lowers the count by one.
pub proof fn lemma_count_none_set(s: Seq<Option<usize>>, j: int, v: usize)
    requires
        0 <= j < s.len(),
        s[j] is None,
    ensures
        count_none(s.update(j, Some(v))) == count_none(s) - 1,
    decreases s.len(),
{
    let t = s.update(j, Some(v));
    if j == s.len() - 1 {
        assert(t.drop_last() =~= s.drop_last());
    } else {
        assert(t.drop_last() =~= s.drop_last().update(j, Some(v)));
        assert(t.last() == s.last());
        lemma_count_none_set(s.drop_last(), j, v);
    }
}

/// No point before `i` is core: `i` would be the first seed of the pass.
pub open spec fn no_core_before(s: Seq<Detection>, num: int, den: int, mp: int, i: int) -> bool {
    forall|j: int| 0 <= j < i ==> !core_point(s, num, den, mp, j)
}

/// Index `i` occurs somewhere in the work stack.
pub open spec fn in_stack(stack: Seq<usize>, i: int) -> bool {
    exists|k: int| 0 <= k < stack.len() && stack[k] == i
}

/// Every detection is well formed.
pub open spec fn all_wf(s: Seq<Detection>) -> bool {
    forall|i: int| 0 <= i < s.len() ==> detection_wf(#[trigger] s[i])
}

/// The core flags agree with the `core_point` predicate.
pub open spec fn flags_ok(s: Seq<Detection>, num: int, den: int, mp: int, flags: Seq<bool>) -> bool {
    &&& flags.len() == s.len()
    &&& forall|i: int| 0 <= i < s.len() ==> #[trigger] flags[i] == core_point(s, num, den, mp, i)
}

/// Every assigned label belongs to a core point and stays below `bound`.
pub open spec fn labels_ok(
    s: Seq<Detection>,
    num: int,
    den: int,
    mp: int,
    labels: Seq<Option<usize>>,
    bound: int,
) -> bool {
    forall|i: int|
        #![trigger labels[i]]
        0 <= i < labels.len() && labels[i] is Some ==> core_point(s, num, den, mp, i) && (
        labels[i]->0 as int) < bound
}

/// Every label's seed is in range and connected to its point.
pub open spec fn seeds_ok(
    s: Seq<Detection>,
    num: int,
    den: int,
    labels: Seq<Option<usize>>,
    seeds: Seq<int>,
) -> bool {
    &&& (forall|c: int| 0 <= c < seeds.len() ==> 0 <= #[trigger] seeds[c] < s.len())
    &&& (forall|i: int|
        #![trigger labels[i]]
        0 <= i < labels.len() && labels[i] is Some ==> (labels[i]->0 as int) < seeds.len()
            && connected(s, num, den, seeds[labels[i]->0 as int], i))
}

/// Labeled points have every neighbor labeled with the same id, except
/// points still awaiting expansion on the stack, and the neighbors of
/// `cur` that the scan has not reached yet.
pub open spec fn closed_except(
    s: Seq<Detection>,
    num: int,
    den: int,
    labels: Seq<Option<usize>>,
    stack: Seq<usize>,
    cur: int,
    upto: int,
) -> bool {
    forall|i: int, j: int|
        #![trigger labels[i], near(s, num, den, i, j)]
        0 <= i < labels.len() && labels[i] is Some && near(s, num, den, i, j) && !in_stack(stack, i)
            && !(i == cur && j >= upto) ==> labels[j] is Some && labels[j]->0 == labels[i]->0
}

/// Pushing keeps every stacked index stacked.
proof fn lemma_in_stack_push(stack: Seq<usize>, x: usize, i: int)
    requires
        in_stack(stack, i),
    ensures
        in_stack(stack.push(x), i),
{
    let k = choose|k: int| 0 <= k < stack.len() && stack[k] == i;
    assert(stack.push(x)[k] == i);
}

/// Popping keeps every other stacked index stacked.
proof fn lemma_in_stack_pop(stack: Seq<usize>, i: int)
    requires
        in_stack(stack, i),
        stack.len() >= 1,
        i != stack[stack.len() - 1] as int,
    ensures
        in_stack(stack.drop_last(), i),
{
    let k = choose|k: int| 0 <= k < stack.len() && stack[k] == i;
    assert(k < stack.len() - 1);
    assert(stack.drop_last()[k] == i);
}

/// Runs the density pass over the detections: one classification per
/// detection, plus the number of cluster ids handed out.
///
/// Cluster ids are dense; the first core point in index order gets id 0;
/// neighboring clustered points share an id; and two points share an id
/// only when a chain of neighboring points joins them.
pub fn dbscan_classify(
    detections: &Vec<Detection>,
    eps_num: i64,
    eps_den: i64,
    min_points: usize,
) -> (r: (Vec<Classification>, usize))
    requires
        all_wf(detections@),
        0 < eps_num,
        0 < eps_den <= 16,
        1 <= min_points <= 2,
    ensures
        r.0@.len() == detections@.len(),
        r.1 <= detections@.len(),
        forall|i: int|
            #![trigger r.0@[i]]
            0 <= i < detections@.len() ==> (r.0@[i] is Core <==> core_point(
                detections@,
                eps_num as int,
                eps_den as int,
                min_points as int,
                i,
            )) && (r.0@[i] is Noise <==> !core_point(
                detections@,
                eps_num as int,
                eps_den as int,
                min_points as int,
                i,
            )) && (r.0@[i] is Core ==> (r.0@[i]->Core_0 as int) < r.1),
        forall|i: int, j: int|
            near(detections@, eps_num as int, eps_den as int, i, j) && #[trigger] r.0@[i] is Core
                && #[trigger] r.0@[j] is Core ==> r.0@[i]->Core_0 == r.0@[j]->Core_0,
        forall|i: int, j: int|
            0 <= i < detections@.len() && 0 <= j < detections@.len() && #[trigger] r.0@[i] is Core
                && #[trigger] r.0@[j] is Core && r.0@[i]->Core_0 == r.0@[j]->Core_0 ==> connected(
                detections@,
                eps_num as int,
                eps_den as int,
                i,
                j,
            ),
        forall|i: int|
            #![trigger r.0@[i]]
            0 <= i < detections@.len() && r.0@[i] is Core && no_core_before(
                detections@,
                eps_num as int,
                eps_den as int,
                min_points as int,
                i,
            ) ==> r.0@[i]->Core_0 == 0,
{
    let ghost s = detections@;
    let ghost num = eps_num as int;
    let ghost den = eps_den as int;
    let ghost mp = min_points as int;
    let n = detections.len();
    let flags = compute_core_flags(detections, eps_num, eps_den, min_points);
    let mut labels: Vec<Option<usize>> = Vec::new();
    let mut t: usize = 0;
    while t < n
        invariant
            0 <= t <= n,
            labels@.len() == t,
            forall|i: int| 0 <= i < t ==> #[trigger] labels@[i] is None,
        decreases n - t,
    {
        labels.push(None);
        t = t + 1;
    }
    let mut next_id: usize = 0;
    let ghost mut seeds: Seq<int> = Seq::empty();
    let mut seed: usize = 0;
    while seed < n
        invariant
            s == detections@,
            num == eps_num as int,
            den == eps_den as int,
            mp == min_points as int,
            n == s.len(),
            all_wf(s),
            0 < eps_num,
            0 < eps_den <= 16,
            1 <= min_points <= 2,
            flags_ok(s, num, den, mp, flags@),
            0 <= seed <= n,
            next_id <= seed,
            labels@.len() == n,
            labels_ok(s, num, den, mp, labels@, next_id as int),
            seeds.len() == next_id,
            seeds_ok(s, num, den, labels@, seeds),
            closed_except(s, num, den, labels@, Seq::<usize>::empty(), -1, 0),
            forall|i: int|
                #![trigger labels@[i]]
                0 <= i < seed && core_point(s, num, den, mp, i) ==> labels@[i] is Some,
            (forall|j: int| 0 <= j < seed ==> !core_point(s, num, den, mp, j)) ==> next_id == 0,
            forall|i: int|
                #![trigger labels@[i]]
                0 <= i < n && labels@[i] is Some && no_core_before(s, num, den, mp, i)
                    ==> labels@[i]->0 == 0,
        decreases n - seed,
    {
        let run_expansion = flags[seed] && labels[seed].is_none();
        if run_expansion {
            let id = next_id;
            proof {
                seeds = seeds.push(seed as int);
                lemma_connected_refl(s, num, den, seed as int);
            }
            let ghost labels_pre = labels@;
            labels.set(seed, Some(id));
            let mut stack: Vec<usize> = Vec::new();
            stack.push(seed);
            proof {
                assert(stack@[0] == seed);
                assert(in_stack(stack@, seed as int));
                assert forall|i: int, j: int|
                    #![trigger labels@[i], near(s, num, den, i, j)]
                    0 <= i < labels@.len() && labels@[i] is Some && near(s, num, den, i, j)
                        && !in_stack(stack@, i) && !(i == -1 && j >= 0) implies labels@[j] is Some
                    && labels@[j]->0 == labels@[i]->0 by {
                    assert(i != seed as int);
                    assert(labels_pre[i] == labels@[i]);
                    assert(!in_stack(Seq::<usize>::empty(), i));
                    assert(labels_pre[j] is Some && labels_pre[j]->0 == labels_pre[i]->0);
                    assert(j != seed as int);
                }
            }
            while stack.len() > 0
                invariant
                    s == detections@,
                    num == eps_num as int,
                    den == eps_den as int,
                    mp == min_points as int,
                    n == s.len(),
                    all_wf(s),
                    0 < eps_num,
                    0 < eps_den <= 16,
                    1 <= min_points <= 2,
                    flags_ok(s, num, den, mp, flags@),
                    0 <= seed < n,
                    core_point(s, num, den, mp, seed as int),
                    next_id == id,
                    id < n,
                    labels@.len() == n,
                    labels_ok(s, num, den, mp, labels@, id as int + 1),
                    seeds.len() == id + 1,
                    seeds[id as int] == seed as int,
                    seeds_ok(s, num, den, labels@, seeds),
                    labels@[seed as int] is Some,
                    forall|k: int|
                        0 <= k < stack@.len() ==> 0 <= #[trigger] stack@[k] < n && labels@[stack@[k] as int]
                            == Some(id),
                    closed_except(s, num, den, labels@, stack@, -1, 0),
                    forall|i: int|
                        #![trigger labels@[i]]
                        0 <= i < seed && core_point(s, num, den, mp, i) ==> labels@[i] is Some,
                    (forall|j: int| 0 <= j < seed ==> !core_point(s, num, den, mp, j)) ==> id == 0,
                    forall|i: int|
                        #![trigger labels@[i]]
                        0 <= i < n && labels@[i] is Some && no_core_before(s, num, den, mp, i)
                            ==> labels@[i]->0 == 0,
                decreases 2 * count_none(labels@) + stack@.len(),
            {
                let ghost stack_before = stack@;
                let popped = stack.pop();
                let cur = popped.unwrap();
                let ghost m0 = 2 * count_none(labels@) + stack@.len();
                proof {
                    assert(stack_before[stack_before.len() - 1] == cur);
                    assert forall|i: int, j: int|
                        #![trigger labels@[i], near(s, num, den, i, j)]
                        0 <= i < labels@.len() && labels@[i] is Some && near(s, num, den, i, j)
                            && !in_stack(stack@, i) && !(i == cur as int && j >= 0) implies labels@[j]
                        is Some && labels@[j]->0 == labels@[i]->0 by {
                        if in_stack(stack_before, i) {
                            lemma_in_stack_pop(stack_before, i);
                        }
                    }
                }
                let mut j: usize = 0;
                while j < n
                    invariant
                        s == detections@,
                        num == eps_num as int,
                        den == eps_den as int,
                        mp == min_points as int,
                        n == s.len(),
                        all_wf(s),
                        0 < eps_num,
                        0 < eps_den <= 16,
                        1 <= min_points <= 2,
                        flags_ok(s, num, den, mp, flags@),
                        0 <= seed < n,
                        core_point(s, num, den, mp, seed as int),
                        next_id == id,
                        id < n,
                        0 <= cur < n,
                        0 <= j <= n,
                        labels@.len() == n,
                        labels@[cur as int] == Some(id),
                        labels_ok(s, num, den, mp, labels@, id as int + 1),
                        seeds.len() == id + 1,
                        seeds[id as int] == seed as int,
                        seeds_ok(s, num, den, labels@, seeds),
                        labels@[seed as int] is Some,
                        forall|k: int|
                            0 <= k < stack@.len() ==> 0 <= #[trigger] stack@[k] < n && labels@[stack@[k] as int]
                                == Some(id),
                        closed_except(s, num, den, labels@, stack@, cur as int, j as int),
                        forall|i: int|
                            #![trigger labels@[i]]
                            0 <= i < seed && core_point(s, num, den, mp, i) ==> labels@[i] is Some,
                        (forall|jj: int| 0 <= jj < seed ==> !core_point(s, num, den, mp, jj)) ==> id
                            == 0,
                        forall|i: int|
                            #![trigger labels@[i]]
                            0 <= i < n && labels@[i] is Some && no_core_before(s, num, den, mp, i)
                                ==> labels@[i]->0 == 0,
                        2 * count_none(labels@) + stack@.len() <= m0,
                    decreases n - j,
                {
                    if j != cur {
                        let close = box_within_eps(
                            &detections[cur].bbox,
                            &detections[j].bbox,
                            eps_num,
                            eps_den,
                        );
                        if close {
                            proof {
                                assert(near(s, num, den, cur as int, j as int));
                                lemma_near_sym(s, num, den, cur as int, j as int);
                            }
                            if labels[j].is_none() {
                                proof {
                                    assert(has_close_neighbor(s, num, den, j as int)) by {
                                        assert(near(s, num, den, j as int, cur as int));
                                    }
                                    lemma_count_none_set(labels@, j as int, id);
                                    assert(connected(s, num, den, seed as int, cur as int));
                                    lemma_connected_extend(
                                        s,
                                        num,
                                        den,
                                        seed as int,
                                        cur as int,
                                        j as int,
                                    );
                                    // j cannot be the first core point: the seed or an
                                    // already-labeled earlier core would precede it.
                                    if no_core_before(s, num, den, mp, j as int) {
                                        if (seed as int) < j as int {
                                            assert(!core_point(s, num, den, mp, seed as int));
                                            assert(false);
                                        } else if (j as int) < seed as int {
                                            assert(labels@[j as int] is Some);
                                            assert(false);
                                        }
                                    }
                                }
                                let ghost labels_before = labels@;
                                let ghost stack_pre = stack@;
                                labels.set(j, Some(id));
                                stack.push(j);
                                proof {
                                    assert forall|i: int, jj: int|
                                        #![trigger labels@[i], near(s, num, den, i, jj)]
                                        0 <= i < labels@.len() && labels@[i] is Some && near(
                                            s,
                                            num,
                                            den,
                                            i,
                                            jj,
                                        ) && !in_stack(stack@, i) && !(i == cur as int && jj >= j
                                            + 1) implies labels@[jj] is Some && labels@[jj]->0
                                        == labels@[i]->0 by {
                                        if i == j as int {
                                            assert(stack@[stack@.len() - 1] == j);
                                            assert(in_stack(stack@, i));
                                        } else {
                                            assert(labels_before[i] == labels@[i]);
                                            if in_stack(stack_pre, i) {
                                                lemma_in_stack_push(stack_pre, j, i);
                                            } else {
                                                if jj == j as int {
                                                    if i == cur as int {
                                                    } else {
                                                        assert(labels_before[jj] is None);
                                                        assert(false);
                                                    }
                                                } else {
                                                    assert(labels_before[jj] is Some
                                                        && labels_before[jj]->0
                                                        == labels_before[i]->0);
                                                }
                                            }
                                        }
                                    }
                                }
                            } else {
                                proof {
                                    if in_stack(stack@, j as int) {
                                        assert(labels@[j as int] == Some(id));
                                    } else {
                                        assert(near(s, num, den, j as int, cur as int));
                                        assert(labels@[cur as int] is Some
                                            && labels@[cur as int]->0 == labels@[j as int]->0);
                                    }
                                    assert(labels@[j as int] == Some(id));
                                }
                            }
                        }
                    }
                    j = j + 1;
                }
            }
            next_id = next_id + 1;
        }
        seed = seed + 1;
    }
    let mut result: Vec<Classification> = Vec::new();
    let mut i: usize = 0;
    while i < n
        invariant
            s == detections@,
            num == eps_num as int,
            den == eps_den as int,
            mp == min_points as int,
            n == s.len(),
            flags_ok(s, num, den, mp, flags@),
            0 <= i <= n,
            labels@.len() == n,
            labels_ok(s, num, den, mp, labels@, next_id as int),
            seeds.len() == next_id,
            seeds_ok(s, num, den, labels@, seeds),
            closed_except(s, num, den, labels@, Seq::<usize>::empty(), -1, 0),
            forall|k: int|
                #![trigger labels@[k]]
                0 <= k < n && core_point(s, num, den, mp, k) ==> labels@[k] is Some,
            forall|k: int|
                #![trigger labels@[k]]
                0 <= k < n && labels@[k] is Some && no_core_before(s, num, den, mp, k)
                    ==> labels@[k]->0 == 0,
            result@.len() == i,
            forall|k: int|
                #![trigger result@[k]]
                0 <= k < i ==> result@[k] == (if core_point(s, num, den, mp, k) {
                    Classification::Core(labels@[k]->0)
                } else {
                    Classification::Noise
                }),
        decreases n - i,
    {
        if flags[i] {
            proof {
                assert(labels@[i as int] is Some);
            }
            let c = labels[i].unwrap();
            result.push(Classification::Core(c));
        } else {
            result.push(Classification::Noise);
        }
        i = i + 1;
    }
    proof {
        assert forall|a: int, b: int|
            near(s, num, den, a, b) && #[trigger] result@[a] is Core && #[trigger] result@[b]
                is Core implies result@[a]->Core_0 == result@[b]->Core_0 by {
            assert(labels@[a] is Some);
            assert(!in_stack(Seq::<usize>::empty(), a));
            assert(labels@[b] is Some && labels@[b]->0 == labels@[a]->0);
        }
        assert forall|a: int, b: int|
            0 <= a < n && 0 <= b < n && #[trigger] result@[a] is Core && #[trigger] result@[b]
                is Core && result@[a]->Core_0 == result@[b]->Core_0 implies connected(
            s,
            num,
            den,
            a,
            b,
        ) by {
            assert(labels@[a] is Some && labels@[b] is Some);
            let c = labels@[a]->0 as int;
            assert(connected(s, num, den, seeds[c], a));
            assert(connected(s, num, den, seeds[c], b));
            lemma_connected_sym(s, num, den, seeds[c], a);
            lemma_connected_trans(s, num, den, a, seeds[c], b);
        }
    }
    (result, next_id)
}

} // verus!
