//! Point cloud segmentation: Euclidean cluster extraction and RANSAC-style
//! plane fitting on a full scan.
//!
//! Plane fitting works on exact integer coordinates: the fitted plane keeps
//! its unnormalized normal, and the inlier test compares squared distances
//! cross-multiplied by the squared normal length, which is exact.

use vstd::prelude::*;
use crate::cloud::PointCloud;
use crate::error::{CloudError, CloudResult};
use crate::point::{dist_sq, distance_squared, in_range, lemma_dist_sq_symmetric, sq, Point,
    Position};

verus! {

/// Largest coordinate magnitude plane fitting accepts; keeps every product
/// in the exact inlier test representable.
pub const RANSAC_LIMIT: i64 = 0x80000;

/// Whether all coordinates of `p` are small enough for plane fitting.
pub open spec fn ransac_range(p: Position) -> bool {
    &&& -RANSAC_LIMIT <= p.x <= RANSAC_LIMIT
    &&& -RANSAC_LIMIT <= p.y <= RANSAC_LIMIT
    &&& -RANSAC_LIMIT <= p.z <= RANSAC_LIMIT
}

/// A plane `a*x + b*y + c*z + d == 0` with an unnormalized normal.
#[derive(Clone, Copy, Debug, PartialEq, Eq, Structural)]
pub struct Plane {
    pub a: i64,
    pub b: i64,
    pub c: i64,
    pub d: i64,
}

/// The x component of the cross product of the two edge vectors of the
/// triangle `p1 p2 p3`.
pub open spec fn plane_a(p1: Position, p2: Position, p3: Position) -> int {
    (p2.y - p1.y) * (p3.z - p1.z) - (p2.z - p1.z) * (p3.y - p1.y)
}

/// The y component of the triangle's normal.
pub open spec fn plane_b(p1: Position, p2: Position, p3: Position) -> int {
    (p2.z - p1.z) * (p3.x - p1.x) - (p2.x - p1.x) * (p3.z - p1.z)
}

/// The z component of the triangle's normal.
pub open spec fn plane_c(p1: Position, p2: Position, p3: Position) -> int {
    (p2.x - p1.x) * (p3.y - p1.y) - (p2.y - p1.y) * (p3.x - p1.x)
}

/// The plane offset placing the plane through `p1`.
pub open spec fn plane_d(p1: Position, p2: Position, p3: Position) -> int {
    -(plane_a(p1, p2, p3) * p1.x + plane_b(p1, p2, p3) * p1.y + plane_c(p1, p2, p3) * p1.z)
}

/// Bounds on a fitted plane's coefficients.
pub open spec fn plane_wf(pl: Plane) -> bool {
    &&& -0x20000000000 <= pl.a <= 0x20000000000
    &&& -0x20000000000 <= pl.b <= 0x20000000000
    &&& -0x20000000000 <= pl.c <= 0x20000000000
    &&& -0x3000000000000000 <= pl.d <= 0x3000000000000000
}

/// Whether `p` lies within distance `t` of the plane: the squared plane
/// evaluation compared against the squared threshold scaled by the squared
/// normal length, which is the exact form of `|eval| / |normal| <= t`.
pub open spec fn plane_inlier(pl: Plane, p: Position, t: int) -> bool {
    sq(pl.a * p.x + pl.b * p.y + pl.c * p.z + pl.d) <= sq(t) * (sq(pl.a as int) + sq(
        pl.b as int,
    ) + sq(pl.c as int))
}

/// Products of bounded factors are bounded.
proof fn lemma_mul_bound(u: int, v: int, a: int, b: int)
    requires
        -a <= u <= a,
        -b <= v <= b,
        0 <= a,
        0 <= b,
    ensures
        -(a * b) <= u * v <= a * b,
{
    assert(-(a * b) <= u * v <= a * b) by (nonlinear_arith)
        requires
            -a <= u <= a,
            -b <= v <= b,
            0 <= a,
            0 <= b,
    ;
}

/// The indices of the three points plane fitting samples: the start, one
/// third, and two thirds of the way through the cloud.
pub fn sample_three_points(cloud_size: usize) -> (r: [usize; 3])
    ensures
        r[0] == 0,
        r[1] == cloud_size as int / 3,
        r[2] == (2 * cloud_size as int) / 3,
        cloud_size > 0 ==> r[1] < cloud_size && r[2] < cloud_size,
{
    let second = cloud_size / 3;
    let third = ((2u128 * cloud_size as u128) / 3u128) as usize;
    proof {
        vstd::arithmetic::div_mod::lemma_fundamental_div_mod(2 * cloud_size as int, 3);
        vstd::arithmetic::div_mod::lemma_fundamental_div_mod(cloud_size as int, 3);
        if cloud_size > 0 {
            assert((2 * cloud_size as int) / 3 < cloud_size as int) by (nonlinear_arith)
                requires
                    2 * cloud_size as int == 3 * ((2 * cloud_size as int) / 3) + (2 * cloud_size
                        as int) % 3,
                    0 <= (2 * cloud_size as int) % 3 < 3,
                    cloud_size as int > 0,
            ;
        }
    }
    [0, second, third]
}

/// Fit a plane through three points: the cross product of the two edge
/// vectors, exactly; three collinear points have a zero normal and cannot
/// define a plane.
pub fn fit_plane_to_points(p1: Position, p2: Position, p3: Position) -> (r: Option<Plane>)
    requires
        ransac_range(p1),
        ransac_range(p2),
        ransac_range(p3),
    ensures
        match r {
            Some(pl) => {
                &&& pl.a == plane_a(p1, p2, p3)
                &&& pl.b == plane_b(p1, p2, p3)
                &&& pl.c == plane_c(p1, p2, p3)
                &&& pl.d == plane_d(p1, p2, p3)
                &&& plane_wf(pl)
                &&& !(pl.a == 0 && pl.b == 0 && pl.c == 0)
            },
            None => plane_a(p1, p2, p3) == 0 && plane_b(p1, p2, p3) == 0 && plane_c(p1, p2, p3)
                == 0,
        },
{
    proof {
        lemma_mul_bound(p2.y - p1.y, p3.z - p1.z, 0x100000, 0x100000);
        lemma_mul_bound(p2.z - p1.z, p3.y - p1.y, 0x100000, 0x100000);
        lemma_mul_bound(p2.z - p1.z, p3.x - p1.x, 0x100000, 0x100000);
        lemma_mul_bound(p2.x - p1.x, p3.z - p1.z, 0x100000, 0x100000);
        lemma_mul_bound(p2.x - p1.x, p3.y - p1.y, 0x100000, 0x100000);
        lemma_mul_bound(p2.y - p1.y, p3.x - p1.x, 0x100000, 0x100000);
        assert(0x100000int * 0x100000int == 0x10000000000int) by (nonlinear_arith);
    }
    let v1x = p2.x - p1.x;
    let v1y = p2.y - p1.y;
    let v1z = p2.z - p1.z;
    let v2x = p3.x - p1.x;
    let v2y = p3.y - p1.y;
    let v2z = p3.z - p1.z;
    let a = v1y * v2z - v1z * v2y;
    let b = v1z * v2x - v1x * v2z;
    let c = v1x * v2y - v1y * v2x;
    if a == 0 && b == 0 && c == 0 {
        return None;
    }
    proof {
        lemma_mul_bound(a as int, p1.x as int, 0x20000000000, 0x80000);
        lemma_mul_bound(b as int, p1.y as int, 0x20000000000, 0x80000);
        lemma_mul_bound(c as int, p1.z as int, 0x20000000000, 0x80000);
        assert(0x20000000000int * 0x80000int == 0x1000000000000000int) by (nonlinear_arith);
    }
    let d = -(a * p1.x + b * p1.y + c * p1.z);
    Some(Plane { a, b, c, d })
}

/// Exact inlier test for a fitted plane.
pub fn is_plane_inlier(pl: &Plane, p: Position, threshold: i64) -> (r: bool)
    requires
        plane_wf(*pl),
        ransac_range(p),
        0 <= threshold <= RANSAC_LIMIT,
    ensures
        r == plane_inlier(*pl, p, threshold as int),
{
    proof {
        lemma_mul_bound(pl.a as int, p.x as int, 0x20000000000, 0x80000);
        lemma_mul_bound(pl.b as int, p.y as int, 0x20000000000, 0x80000);
        lemma_mul_bound(pl.c as int, p.z as int, 0x20000000000, 0x80000);
        assert(0x20000000000int * 0x80000int == 0x1000000000000000int) by (nonlinear_arith);
    }
    let eval: i128 = pl.a as i128 * p.x as i128 + pl.b as i128 * p.y as i128 + pl.c as i128
        * p.z as i128 + pl.d as i128;
    proof {
        lemma_mul_bound(eval as int, eval as int, 0x6000000000000000, 0x6000000000000000);
        lemma_mul_bound(pl.a as int, pl.a as int, 0x20000000000, 0x20000000000);
        lemma_mul_bound(pl.b as int, pl.b as int, 0x20000000000, 0x20000000000);
        lemma_mul_bound(pl.c as int, pl.c as int, 0x20000000000, 0x20000000000);
        lemma_mul_bound(threshold as int, threshold as int, 0x80000, 0x80000);
        assert(0x6000000000000000int * 0x6000000000000000int
            == 0x24000000000000000000000000000000int) by (nonlinear_arith);
        assert(0x20000000000int * 0x20000000000int == 0x400000000000000000000int)
            by (nonlinear_arith);
        assert(0x80000int * 0x80000int == 0x4000000000int) by (nonlinear_arith);
        lemma_mul_bound(
            sq(threshold as int),
            sq(pl.a as int) + sq(pl.b as int) + sq(pl.c as int),
            0x4000000000,
            0xC00000000000000000000,
        );
        assert(0x4000000000int * 0xC00000000000000000000int
            == 0x3000000000000000000000000000000int) by (nonlinear_arith);
    }
    let lhs: i128 = eval * eval;
    let na: i128 = pl.a as i128 * pl.a as i128;
    let nb: i128 = pl.b as i128 * pl.b as i128;
    let nc: i128 = pl.c as i128 * pl.c as i128;
    let t2: i128 = threshold as i128 * threshold as i128;
    let rhs: i128 = t2 * (na + nb + nc);
    lhs <= rhs
}

/// The indices below `n` whose points lie within the plane threshold, in
/// ascending order.
pub open spec fn inlier_indices<P: Point>(s: Seq<P>, pl: Plane, t: int, n: int) -> Seq<usize>
    decreases n,
{
    if n <= 0 {
        Seq::empty()
    } else {
        inlier_indices(s, pl, t, n - 1) + if plane_inlier(pl, s[n - 1].spec_position(), t) {
            seq![(n - 1) as usize]
        } else {
            Seq::empty()
        }
    }
}

/// RANSAC plane segmentation. The sampling rule is deterministic, so every
/// iteration fits the same plane and a single scan computes the consensus
/// set; fewer than three points cannot define a plane and are rejected.
pub fn ransac_plane_segmentation<P: Point>(
    cloud: &PointCloud<P>,
    distance_threshold: i64,
    max_iterations: usize,
) -> (r: CloudResult<(Vec<usize>, Plane)>)
    requires
        0 <= distance_threshold <= RANSAC_LIMIT,
        forall|i: int|
            0 <= i < cloud.spec_points().len() ==> ransac_range(
                #[trigger] cloud.spec_points()[i].spec_position(),
            ),
    ensures
        match r {
            Err(e) => cloud.spec_points().len() < 3 && e matches CloudError::AlgorithmError(_),
            Ok((inliers, plane)) => {
                let s = cloud.spec_points();
                let n = s.len() as int;
                let q1 = s[0].spec_position();
                let q2 = s[n / 3].spec_position();
                let q3 = s[(2 * n) / 3].spec_position();
                let degenerate = plane_a(q1, q2, q3) == 0 && plane_b(q1, q2, q3) == 0 && plane_c(
                    q1,
                    q2,
                    q3,
                ) == 0;
                &&& n >= 3
                &&& (max_iterations == 0 || degenerate) ==> plane == (Plane {
                    a: 0i64,
                    b: 0i64,
                    c: 1i64,
                    d: 0i64,
                }) && inliers@ == Seq::<usize>::empty()
                &&& (max_iterations > 0 && !degenerate) ==> {
                    &&& plane.a == plane_a(q1, q2, q3)
                    &&& plane.b == plane_b(q1, q2, q3)
                    &&& plane.c == plane_c(q1, q2, q3)
                    &&& plane.d == plane_d(q1, q2, q3)
                    &&& inliers@ == inlier_indices(s, plane, distance_threshold as int, n)
                }
            },
        },
{
    let n = cloud.len();
    if n < 3 {
        return Err(
            CloudError::algorithm_error("need at least 3 points for plane fitting".to_owned()),
        );
    }
    let ghost s = cloud.spec_points();
    let indices = sample_three_points(n);
    let points = cloud.points();
    let q1 = points[indices[0]].position();
    let q2 = points[indices[1]].position();
    let q3 = points[indices[2]].position();
    proof {
        assert(s[0].spec_position() == q1);
        assert(s[n as int / 3].spec_position() == q2);
        assert(s[(2 * n as int) / 3].spec_position() == q3);
    }
    let fitted = fit_plane_to_points(q1, q2, q3);
    match fitted {
        None => Ok((Vec::new(), Plane { a: 0, b: 0, c: 1, d: 0 })),
        Some(plane) => {
            if max_iterations == 0 {
                return Ok((Vec::new(), Plane { a: 0, b: 0, c: 1, d: 0 }));
            }
            let mut inliers: Vec<usize> = Vec::new();
            let mut i: usize = 0;
            proof {
                assert(inliers@ =~= inlier_indices(s, plane, distance_threshold as int, 0));
            }
            while i < n
                invariant
                    0 <= i <= n,
                    n == s.len(),
                    s == cloud.spec_points(),
                    points@ == s,
                    plane_wf(plane),
                    0 <= distance_threshold <= RANSAC_LIMIT,
                    forall|t: int|
                        0 <= t < s.len() ==> ransac_range(#[trigger] s[t].spec_position()),
                    inliers@ == inlier_indices(s, plane, distance_threshold as int, i as int),
                decreases n - i,
            {
                let p = points[i].position();
                proof {
                    assert(s[i as int].spec_position() == p);
                }
                if is_plane_inlier(&plane, p, distance_threshold) {
                    inliers.push(i);
                    proof {
                        assert(inliers@ =~= inlier_indices(
                            s,
                            plane,
                            distance_threshold as int,
                            i as int,
                        ).push(i));
                    }
                }
                i = i + 1;
            }
            Ok((inliers, plane))
        },
    }
}

/// How many times index `v` occurs in a cluster.
pub open spec fn count_in(s: Seq<usize>, v: usize) -> int
    decreases s.len(),
{
    if s.len() == 0 {
        0
    } else {
        count_in(s.drop_last(), v) + if s.last() == v {
            1int
        } else {
            0int
        }
    }
}

/// How many times index `v` occurs over all clusters.
pub open spec fn count_in_all(cs: Seq<Vec<usize>>, v: usize) -> int
    decreases cs.len(),
{
    if cs.len() == 0 {
        0
    } else {
        count_in_all(cs.drop_last(), v) + count_in(cs.last()@, v)
    }
}

/// Occurrence counts are never negative.
proof fn lemma_count_in_nonneg(s: Seq<usize>, v: usize)
    ensures
        count_in(s, v) >= 0,
    decreases s.len(),
{
    if s.len() > 0 {
        lemma_count_in_nonneg(s.drop_last(), v);
    }
}

/// Occurrence counts over all clusters are never negative.
proof fn lemma_count_in_all_nonneg(cs: Seq<Vec<usize>>, v: usize)
    ensures
        count_in_all(cs, v) >= 0,
    decreases cs.len(),
{
    if cs.len() > 0 {
        lemma_count_in_all_nonneg(cs.drop_last(), v);
        lemma_count_in_nonneg(cs.last()@, v);
    }
}

/// An index present in a cluster has positive count.
proof fn lemma_count_in_present(s: Seq<usize>, j: int)
    requires
        0 <= j < s.len(),
    ensures
        count_in(s, s[j]) >= 1,
    decreases s.len(),
{
    lemma_count_in_nonneg(s.drop_last(), s[j]);
    if j == s.len() - 1 {
    } else {
        lemma_count_in_present(s.drop_last(), j);
    }
}

/// How many entries of a flag sequence are still false.
pub open spec fn count_false(s: Seq<bool>) -> int
    decreases s.len(),
{
    if s.len() == 0 {
        0
    } else {
        count_false(s.drop_last()) + if s.last() {
            0int
        } else {
            1int
        }
    }
}

/// How many times index `v` occurs over a sequence of index sequences.
spec fn count_in_seqs(cs: Seq<Seq<usize>>, v: usize) -> int
    decreases cs.len(),
{
    if cs.len() == 0 {
        0
    } else {
        count_in_seqs(cs.drop_last(), v) + count_in(cs.last(), v)
    }
}

/// Occurrence counts over index sequences are never negative.
proof fn lemma_count_in_seqs_nonneg(cs: Seq<Seq<usize>>, v: usize)
    ensures
        count_in_seqs(cs, v) >= 0,
    decreases cs.len(),
{
    if cs.len() > 0 {
        lemma_count_in_seqs_nonneg(cs.drop_last(), v);
        lemma_count_in_nonneg(cs.last(), v);
    }
}

/// An index absent from the whole collection is absent from each member.
proof fn lemma_count_in_seqs_zero(cs: Seq<Seq<usize>>, v: usize, ci: int)
    requires
        count_in_seqs(cs, v) == 0,
        0 <= ci < cs.len(),
    ensures
        count_in(cs[ci], v) == 0,
    decreases cs.len(),
{
    lemma_count_in_seqs_nonneg(cs.drop_last(), v);
    lemma_count_in_nonneg(cs.last(), v);
    if ci < cs.len() - 1 {
        lemma_count_in_seqs_zero(cs.drop_last(), v, ci);
        assert(cs.drop_last()[ci] == cs[ci]);
    }
}

/// An index present in the collection is present in some member.
proof fn lemma_count_in_seqs_extract(cs: Seq<Seq<usize>>, v: usize)
    requires
        count_in_seqs(cs, v) >= 1,
    ensures
        exists|ci: int| 0 <= ci < cs.len() && count_in(#[trigger] cs[ci], v) >= 1,
    decreases cs.len(),
{
    lemma_count_in_seqs_nonneg(cs.drop_last(), v);
    lemma_count_in_nonneg(cs.last(), v);
    if count_in(cs.last(), v) >= 1 {
        assert(cs[cs.len() - 1] == cs.last());
    } else {
        lemma_count_in_seqs_extract(cs.drop_last(), v);
        let ci = choose|ci: int|
            0 <= ci < cs.drop_last().len() && count_in(#[trigger] cs.drop_last()[ci], v) >= 1;
        assert(cs[ci] == cs.drop_last()[ci]);
    }
}

/// A positively counted index occurs at some position.
proof fn lemma_count_in_extract(cl: Seq<usize>, v: usize)
    requires
        count_in(cl, v) >= 1,
    ensures
        exists|j: int| 0 <= j < cl.len() && cl[j] == v,
    decreases cl.len(),
{
    lemma_count_in_nonneg(cl.drop_last(), v);
    if cl.last() == v {
        assert(cl[cl.len() - 1] == v);
    } else {
        lemma_count_in_extract(cl.drop_last(), v);
        let j = choose|j: int| 0 <= j < cl.drop_last().len() && cl.drop_last()[j] == v;
        assert(cl[j] == v);
    }
}

/// The whole collection counts at least as much as any one member.
proof fn lemma_count_in_all_component(cs: Seq<Vec<usize>>, v: usize, c: int)
    requires
        0 <= c < cs.len(),
    ensures
        count_in_all(cs, v) >= count_in(cs[c]@, v),
    decreases cs.len(),
{
    lemma_count_in_all_nonneg(cs.drop_last(), v);
    lemma_count_in_nonneg(cs.last()@, v);
    if c < cs.len() - 1 {
        lemma_count_in_all_component(cs.drop_last(), v, c);
        assert(cs.drop_last()[c] == cs[c]);
    } else {
        assert(cs[c] == cs.last());
    }
}

/// At most every entry of a flag sequence is false.
proof fn lemma_count_false_le_len(s: Seq<bool>)
    ensures
        count_false(s) <= s.len(),
    decreases s.len(),
{
    if s.len() > 0 {
        lemma_count_false_le_len(s.drop_last());
    }
}

/// Whether `v` occurs in the queue.
spec fn in_queue(queue: Seq<usize>, v: usize) -> bool {
    exists|u: int| 0 <= u < queue.len() && queue[u] == v
}

/// No point of `s` outside the component lies within the squared tolerance
/// of any of its members: the component is a maximal group.
spec fn comp_separated<P: Point>(s: Seq<P>, comp: Seq<usize>, tolsq: int) -> bool {
    forall|j: int, v: usize|
        #![trigger comp[j], count_in(comp, v)]
        0 <= j < comp.len() && (v as int) < s.len() && count_in(comp, v) == 0 ==> dist_sq(
            s[v as int].spec_position(),
            s[comp[j] as int].spec_position(),
        ) > tolsq
}

/// Every completed component is separated from the rest of the points.
spec fn comps_separated<P: Point>(s: Seq<P>, cs: Seq<Seq<usize>>, tolsq: int) -> bool {
    forall|ci: int| 0 <= ci < cs.len() ==> comp_separated(s, #[trigger] cs[ci], tolsq)
}

/// Separation of each component survives adding a separated component.
proof fn lemma_comps_separated_push<P: Point>(
    s: Seq<P>,
    cs: Seq<Seq<usize>>,
    comp: Seq<usize>,
    tolsq: int,
)
    requires
        comps_separated(s, cs, tolsq),
        comp_separated(s, comp, tolsq),
    ensures
        comps_separated(s, cs.push(comp), tolsq),
{
    let cs2 = cs.push(comp);
    assert forall|ci: int| 0 <= ci < cs2.len() implies comp_separated(
        s,
        #[trigger] cs2[ci],
        tolsq,
    ) by {
        if ci < cs.len() {
            assert(cs2[ci] == cs[ci]);
        } else {
            assert(cs2[ci] == comp);
        }
    }
}

/// Every unprocessed point within the squared tolerance of a cluster member
/// still waits in the queue.
spec fn queue_covers<P: Point>(
    s: Seq<P>,
    cluster: Seq<usize>,
    queue: Seq<usize>,
    processed: Seq<bool>,
    tolsq: int,
) -> bool {
    forall|j: int, v: usize|
        #![trigger cluster[j], processed[v as int]]
        0 <= j < cluster.len() && (v as int) < processed.len() && !processed[v as int]
            && dist_sq(
            s[v as int].spec_position(),
            s[cluster[j] as int].spec_position(),
        ) <= tolsq ==> in_queue(queue, v)
}

/// Coverage survives removing the queue's last entry when the index it
/// holds is already processed.
proof fn lemma_covers_pop_processed<P: Point>(
    s: Seq<P>,
    cluster: Seq<usize>,
    queue: Seq<usize>,
    processed: Seq<bool>,
    tolsq: int,
)
    requires
        queue.len() > 0,
        (queue.last() as int) < processed.len(),
        processed[queue.last() as int],
        queue_covers(s, cluster, queue, processed, tolsq),
    ensures
        queue_covers(s, cluster, queue.drop_last(), processed, tolsq),
{
    assert forall|j: int, v: usize|
        #![trigger cluster[j], processed[v as int]]
        0 <= j < cluster.len() && (v as int) < processed.len() && !processed[v as int]
            && dist_sq(
            s[v as int].spec_position(),
            s[cluster[j] as int].spec_position(),
        ) <= tolsq implies in_queue(queue.drop_last(), v) by {
        assert(in_queue(queue, v));
        let u = choose|u: int| 0 <= u < queue.len() && queue[u] == v;
        assert(u < queue.len() - 1);
        assert(queue.drop_last()[u] == v);
    }
}

/// Coverage survives growing the queue.
proof fn lemma_covers_queue_push<P: Point>(
    s: Seq<P>,
    cluster: Seq<usize>,
    queue: Seq<usize>,
    processed: Seq<bool>,
    tolsq: int,
    x: usize,
)
    requires
        queue_covers(s, cluster, queue, processed, tolsq),
    ensures
        queue_covers(s, cluster, queue.push(x), processed, tolsq),
{
    assert forall|j: int, v: usize|
        #![trigger cluster[j], processed[v as int]]
        0 <= j < cluster.len() && (v as int) < processed.len() && !processed[v as int]
            && dist_sq(
            s[v as int].spec_position(),
            s[cluster[j] as int].spec_position(),
        ) <= tolsq implies in_queue(queue.push(x), v) by {
        assert(in_queue(queue, v));
        let u = choose|u: int| 0 <= u < queue.len() && queue[u] == v;
        assert(queue.push(x)[u] == v);
    }
}

/// Coverage survives marking an index processed: the obligations only
/// shrink.
proof fn lemma_covers_mark<P: Point>(
    s: Seq<P>,
    cluster: Seq<usize>,
    queue: Seq<usize>,
    processed: Seq<bool>,
    tolsq: int,
    x: int,
)
    requires
        queue_covers(s, cluster, queue, processed, tolsq),
        0 <= x < processed.len(),
    ensures
        queue_covers(s, cluster, queue, processed.update(x, true), tolsq),
{
    let proc2 = processed.update(x, true);
    assert forall|j: int, v: usize|
        #![trigger cluster[j], proc2[v as int]]
        0 <= j < cluster.len() && (v as int) < proc2.len() && !proc2[v as int] && dist_sq(
            s[v as int].spec_position(),
            s[cluster[j] as int].spec_position(),
        ) <= tolsq implies in_queue(queue, v) by {
        assert(!processed[v as int]);
    }
}

/// False counts are never negative.
proof fn lemma_count_false_nonneg(s: Seq<bool>)
    ensures
        count_false(s) >= 0,
    decreases s.len(),
{
    if s.len() > 0 {
        lemma_count_false_nonneg(s.drop_last());
    }
}

/// Setting one false flag true lowers the false count by one.
proof fn lemma_count_false_update(s: Seq<bool>, i: int)
    requires
        0 <= i < s.len(),
        !s[i],
    ensures
        count_false(s.update(i, true)) == count_false(s) - 1,
    decreases s.len(),
{
    let u = s.update(i, true);
    if i == s.len() - 1 {
        assert(u.drop_last() =~= s.drop_last());
    } else {
        assert(u.drop_last() =~= s.drop_last().update(i, true));
        lemma_count_false_update(s.drop_last(), i);
    }
}

/// Some earlier member of `cl` lies within the squared tolerance of the
/// member at position `j`.
pub open spec fn has_link<P: Point>(s: Seq<P>, cl: Seq<usize>, j: int, tolsq: int) -> bool {
    exists|j2: int|
        0 <= j2 < j && dist_sq(
            s[cl[j] as int].spec_position(),
            s[(#[trigger] cl[j2]) as int].spec_position(),
        ) <= tolsq
}

/// Every cluster member after the first lies within the squared tolerance
/// of an earlier member of the same cluster.
pub open spec fn linked_seq<P: Point>(s: Seq<P>, cl: Seq<usize>, tolsq: int) -> bool {
    forall|j: int| 1 <= j < cl.len() ==> #[trigger] has_link(s, cl, j, tolsq)
}

/// `linked_seq` holds of every cluster in the collection.
pub open spec fn linked_clusters<P: Point>(s: Seq<P>, cs: Seq<Vec<usize>>, tolsq: int) -> bool {
    forall|c: int| 0 <= c < cs.len() ==> linked_seq(s, (#[trigger] cs[c])@, tolsq)
}

/// Appending a member within tolerance of an existing member keeps a cluster
/// linked; the first member needs no link.
proof fn lemma_linked_seq_push<P: Point>(s: Seq<P>, cl: Seq<usize>, v: usize, tolsq: int)
    requires
        linked_seq(s, cl, tolsq),
        cl.len() > 0 ==> exists|w: int|
            0 <= w < cl.len() && dist_sq(
                s[v as int].spec_position(),
                s[(#[trigger] cl[w]) as int].spec_position(),
            ) <= tolsq,
    ensures
        linked_seq(s, cl.push(v), tolsq),
{
    let cl2 = cl.push(v);
    assert forall|j: int| 1 <= j < cl2.len() implies #[trigger] has_link(s, cl2, j, tolsq) by {
        if j < cl.len() {
            assert(has_link(s, cl, j, tolsq));
            let w = choose|w: int|
                0 <= w < j && dist_sq(
                    s[cl[j] as int].spec_position(),
                    s[(cl[w]) as int].spec_position(),
                ) <= tolsq;
            assert(cl2[w] == cl[w]);
            assert(cl2[j] == cl[j]);
            assert(0 <= w < j && dist_sq(
                s[cl2[j] as int].spec_position(),
                s[(cl2[w]) as int].spec_position(),
            ) <= tolsq);
        } else {
            assert(cl2[j] == v);
            let w = choose|w: int|
                0 <= w < cl.len() && dist_sq(
                    s[v as int].spec_position(),
                    s[(cl[w]) as int].spec_position(),
                ) <= tolsq;
            assert(cl2[w] == cl[w]);
            assert(0 <= w < j && dist_sq(
                s[cl2[j] as int].spec_position(),
                s[(cl2[w]) as int].spec_position(),
            ) <= tolsq);
        }
    }
}

/// Committing a linked cluster keeps the collection linked.
proof fn lemma_linked_clusters_push<P: Point>(
    s: Seq<P>,
    cs: Seq<Vec<usize>>,
    cl: Vec<usize>,
    tolsq: int,
)
    requires
        linked_clusters(s, cs, tolsq),
        linked_seq(s, cl@, tolsq),
    ensures
        linked_clusters(s, cs.push(cl), tolsq),
{
    let cs2 = cs.push(cl);
    assert forall|c: int| 0 <= c < cs2.len() implies linked_seq(s, (#[trigger] cs2[c])@, tolsq)
        by {
        if c < cs.len() {
            assert(cs2[c] == cs[c]);
        } else {
            assert(cs2[c] == cl);
        }
    }
}

/// Euclidean cluster extraction by a full pairwise scan: grow a cluster from
/// each unvisited point by repeatedly absorbing points within `tolerance`
/// (inclusive) of a cluster member, then keep the clusters whose sizes fall
/// within the given bounds. Every returned index is a valid point index and
/// belongs to at most one cluster; within a cluster, every point after the
/// seed lies within the tolerance of an earlier member; every point in no
/// returned cluster lies strictly farther than the tolerance from every
/// returned point; and when the size bounds cannot drop a cluster, every
/// point lands in exactly one.
#[verifier::loop_isolation(false)]
#[verifier::rlimit(100)]
pub fn euclidean_clustering<P: Point>(
    cloud: &PointCloud<P>,
    tolerance: u64,
    min_cluster_size: usize,
    max_cluster_size: usize,
) -> (r: Vec<Vec<usize>>)
    requires
        forall|i: int|
            0 <= i < cloud.spec_points().len() ==> in_range(
                #[trigger] cloud.spec_points()[i].spec_position(),
            ),
    ensures
        forall|c: int|
            0 <= c < r@.len() ==> min_cluster_size <= (#[trigger] r@[c])@.len()
                <= max_cluster_size,
        forall|c: int, j: int|
            0 <= c < r@.len() && 0 <= j < r@[c]@.len() ==> (#[trigger] r@[c]@[j]) < cloud
                .spec_points().len(),
        forall|v: usize| #[trigger] count_in_all(r@, v) <= 1,
        linked_clusters(
            cloud.spec_points(),
            r@,
            (tolerance as int) * (tolerance as int),
        ),
        min_cluster_size <= 1 && max_cluster_size >= cloud.spec_points().len()
            ==> forall|v: usize|
            (v as int) < cloud.spec_points().len() ==> #[trigger] count_in_all(r@, v) == 1,
        forall|v: usize, c: int, j: int|
            #![trigger count_in_all(r@, v), r@[c]@[j]]
            (v as int) < cloud.spec_points().len() && count_in_all(r@, v) == 0 && 0 <= c
                < r@.len() && 0 <= j < r@[c]@.len() ==> dist_sq(
                cloud.spec_points()[v as int].spec_position(),
                cloud.spec_points()[r@[c]@[j] as int].spec_position(),
            ) > (tolerance as int) * (tolerance as int),
{
    let ghost s = cloud.spec_points();
    proof {
        crate::point::lemma_sq_bound(tolerance as int, 0xFFFF_FFFF_FFFF_FFFFint);
        assert(0xFFFF_FFFF_FFFF_FFFFint * 0xFFFF_FFFF_FFFF_FFFFint
            < 0x100000000000000000000000000000000int) by (nonlinear_arith);
    }
    let tolsq: u128 = (tolerance as u128) * (tolerance as u128);
    let n = cloud.len();
    let points = cloud.points();
    let mut clusters: Vec<Vec<usize>> = Vec::new();
    let mut processed: Vec<bool> = Vec::new();
    let ghost mut comps: Seq<Seq<usize>> = Seq::empty();
    let mut t: usize = 0;
    while t < n
        invariant
            processed@.len() == t <= n,
            forall|u: int| 0 <= u < t ==> !(#[trigger] processed@[u]),
        decreases n - t,
    {
        processed.push(false);
        t = t + 1;
    }
    let mut i: usize = 0;
    while i < n
        invariant
            0 <= i <= n,
            n == s.len(),
            points@ == s,
            processed@.len() == n,
            tolsq == (tolerance as int) * (tolerance as int),
            forall|u: int| 0 <= u < i ==> processed@[u],
            forall|c: int|
                0 <= c < clusters@.len() ==> min_cluster_size <= (#[trigger] clusters@[
                c])@.len() <= max_cluster_size,
            forall|c: int, j: int|
                0 <= c < clusters@.len() && 0 <= j < clusters@[c]@.len() ==> (
                #[trigger] clusters@[c]@[j]) < n,
            forall|v: usize| #[trigger] count_in_all(clusters@, v) <= 1,
            forall|v: usize|
                (v as int) < n && count_in_all(clusters@, v) >= 1 ==> processed@[v as int],
            linked_clusters(s, clusters@, tolsq as int),
            forall|v: usize|
                (v as int) < n ==> #[trigger] count_in_seqs(comps, v) == (
                if processed@[v as int] {
                    1int
                } else {
                    0int
                }),
            comps_separated(s, comps, tolsq as int),
            forall|c: int|
                0 <= c < clusters@.len() ==> exists|ci: int|
                    0 <= ci < comps.len() && comps[ci] == (#[trigger] clusters@[c])@,
            min_cluster_size <= 1 && max_cluster_size >= n ==> forall|v: usize|
                #[trigger] count_in_all(clusters@, v) == count_in_seqs(comps, v),
        decreases n - i,
    {
        if !processed[i] {
            let mut cluster: Vec<usize> = Vec::new();
            let mut queue: Vec<usize> = Vec::new();
            queue.push(i);
            let ghost proc_entry = processed@;
            proof {
                lemma_count_false_nonneg(processed@);
                assert(queue@ =~= seq![i]);
            }
            while queue.len() != 0
                invariant
                    processed@.len() == n,
                    forall|u: int| 0 <= u < queue@.len() ==> (#[trigger] queue@[u]) < n,
                    forall|j: int| 0 <= j < cluster@.len() ==> (#[trigger] cluster@[j]) < n,
                    forall|j: int|
                        0 <= j < cluster@.len() ==> processed@[(#[trigger] cluster@[j]) as int],
                    forall|j1: int, j2: int|
                        0 <= j1 < j2 < cluster@.len() ==> (#[trigger] cluster@[j1]) != (
                        #[trigger] cluster@[j2]),
                    cluster@.len() == 0 ==> queue@.len() == 1 && queue@[0] == i
                        && !processed@[i as int],
                    cluster@.len() > 0 ==> cluster@[0] == i,
                    cluster@.len() > 0 ==> forall|u: int|
                        0 <= u < queue@.len() ==> exists|j2: int|
                            0 <= j2 < cluster@.len() && dist_sq(
                                s[(#[trigger] queue@[u]) as int].spec_position(),
                                s[cluster@[j2] as int].spec_position(),
                            ) <= tolsq as int,
                    linked_seq(s, cluster@, tolsq as int),
                    forall|v: usize| #[trigger] count_in_all(clusters@, v) + count_in(
                        cluster@,
                        v,
                    ) <= 1,
                    forall|v: usize|
                        (v as int) < n && count_in_all(clusters@, v) + count_in(cluster@, v) >= 1
                            ==> processed@[v as int],
                    forall|u: int| 0 <= u < n && proc_entry[u] ==> processed@[u],
                    proc_entry.len() == n,
                    cluster@.len() + count_false(processed@) == count_false(proc_entry),
                    count_false(processed@) >= 0,
                    forall|v: usize|
                        (v as int) < n ==> #[trigger] count_in_seqs(comps, v) + count_in(
                            cluster@,
                            v,
                        ) == (
                        if processed@[v as int] {
                            1int
                        } else {
                            0int
                        }),
                    queue_covers(s, cluster@, queue@, processed@, tolsq as int),
                decreases count_false(processed@), queue@.len(),
            {
                let ghost q0 = queue@;
                let current_idx = queue.pop().unwrap();
                proof {
                    assert(q0.drop_last() =~= queue@);
                }
                if !processed[current_idx] {
                    let ghost proc0 = processed@;
                    let ghost cl0 = cluster@;
                    let val = true;
                    let _ = processed.remove(current_idx);
                    processed.insert(current_idx, val);
                    proof {
                        assert(processed@ =~= proc0.update(current_idx as int, true));
                        lemma_count_false_update(proc0, current_idx as int);
                        lemma_count_false_nonneg(processed@);
                        assert forall|v: usize| #[trigger] count_in_all(clusters@, v) + count_in(
                            cluster@.push(current_idx),
                            v,
                        ) <= 1 by {
                            assert(cluster@.push(current_idx).drop_last() =~= cluster@);
                            if v == current_idx {
                                lemma_count_in_all_nonneg(clusters@, v);
                                lemma_count_in_nonneg(cluster@, v);
                                if count_in_all(clusters@, v) + count_in(cluster@, v) >= 1 {
                                    assert(proc0[v as int]);
                                    assert(false);
                                }
                            }
                        }
                        assert forall|v: usize|
                            (v as int) < n && count_in_all(clusters@, v) + count_in(
                                cluster@.push(current_idx),
                                v,
                            ) >= 1 implies processed@[v as int] by {
                            assert(cluster@.push(current_idx).drop_last() =~= cluster@);
                            if v != current_idx {
                                assert(count_in(cluster@.push(current_idx), v) == count_in(
                                    cluster@,
                                    v,
                                ));
                                assert(proc0[v as int]);
                            }
                        }
                        assert forall|v: usize|
                            (v as int) < n implies #[trigger] count_in_seqs(comps, v) + count_in(
                            cluster@.push(current_idx),
                            v,
                        ) == (
                        if processed@[v as int] {
                            1int
                        } else {
                            0int
                        }) by {
                            assert(cluster@.push(current_idx).drop_last() =~= cluster@);
                            if v == current_idx {
                                lemma_count_in_seqs_nonneg(comps, v);
                                lemma_count_in_nonneg(cluster@, v);
                            }
                        }
                        assert forall|j1: int, j2: int|
                            0 <= j1 < j2 < cluster@.push(current_idx).len() implies (
                        #[trigger] cluster@.push(current_idx)[j1]) != (#[trigger] cluster@.push(
                            current_idx,
                        )[j2]) by {
                            if j2 == cluster@.len() {
                                if cluster@[j1] == current_idx {
                                    lemma_count_in_present(cluster@, j1);
                                    lemma_count_in_all_nonneg(clusters@, current_idx);
                                    assert(proc0[current_idx as int]);
                                    assert(false);
                                }
                            }
                        }
                        lemma_covers_mark(s, cl0, q0, proc0, tolsq as int, current_idx as int);
                        lemma_covers_pop_processed(s, cl0, q0, processed@, tolsq as int);
                    }
                    cluster.push(current_idx);
                    let current_point = points[current_idx].position();
                    proof {
                        assert(s[current_idx as int].spec_position() == current_point);
                        assert forall|u: int| 0 <= u < queue@.len() implies exists|j2: int|
                            0 <= j2 < cluster@.len() && dist_sq(
                                s[(#[trigger] queue@[u]) as int].spec_position(),
                                s[cluster@[j2] as int].spec_position(),
                            ) <= tolsq as int by {
                            if cl0.len() > 0 {
                                assert(q0[u] == queue@[u]);
                                let w = choose|w: int|
                                    0 <= w < cl0.len() && dist_sq(
                                        s[q0[u] as int].spec_position(),
                                        s[cl0[w] as int].spec_position(),
                                    ) <= tolsq as int;
                                assert(cluster@[w] == cl0[w]);
                            }
                        }
                        if cl0.len() > 0 {
                            assert(q0[q0.len() - 1] == current_idx);
                        }
                        lemma_linked_seq_push(s, cl0, current_idx, tolsq as int);
                        assert(cluster@ == cl0.push(current_idx));
                    }
                    let mut j: usize = 0;
                    while j < n
                        invariant
                            0 <= j <= n,
                            forall|u: int| 0 <= u < queue@.len() ==> (#[trigger] queue@[u]) < n,
                            cluster@.len() > 0,
                            cluster@[cluster@.len() - 1] == current_idx,
                            forall|u: int|
                                0 <= u < queue@.len() ==> exists|j2: int|
                                    0 <= j2 < cluster@.len() && dist_sq(
                                        s[(#[trigger] queue@[u]) as int].spec_position(),
                                        s[cluster@[j2] as int].spec_position(),
                                    ) <= tolsq as int,
                            queue_covers(s, cl0, queue@, processed@, tolsq as int),
                            forall|v: usize|
                                (v as int) < j && !processed@[v as int] && dist_sq(
                                    s[v as int].spec_position(),
                                    s[current_idx as int].spec_position(),
                                ) <= tolsq as int ==> #[trigger] in_queue(queue@, v),
                        decreases n - j,
                    {
                        if !processed[j] {
                            let q = points[j].position();
                            proof {
                                assert(s[j as int].spec_position() == q);
                                lemma_dist_sq_symmetric(q, current_point);
                            }
                            let d = distance_squared(current_point, q);
                            if d <= tolsq {
                                let ghost qb = queue@;
                                queue.push(j);
                                proof {
                                    assert(dist_sq(
                                        s[j as int].spec_position(),
                                        s[cluster@[cluster@.len() - 1] as int].spec_position(),
                                    ) <= tolsq as int);
                                    lemma_covers_queue_push(
                                        s,
                                        cl0,
                                        qb,
                                        processed@,
                                        tolsq as int,
                                        j,
                                    );
                                    assert(queue@[qb.len() as int] == j);
                                    assert(in_queue(queue@, j));
                                    assert forall|v: usize|
                                        (v as int) < j && !processed@[v as int] && dist_sq(
                                            s[v as int].spec_position(),
                                            s[current_idx as int].spec_position(),
                                        ) <= tolsq as int implies #[trigger] in_queue(
                                        queue@,
                                        v,
                                    ) by {
                                        assert(in_queue(qb, v));
                                        let u = choose|u: int|
                                            0 <= u < qb.len() && qb[u] == v;
                                        assert(queue@[u] == v);
                                    }
                                }
                            }
                        }
                        j = j + 1;
                    }
                    proof {
                        assert forall|jj: int, v: usize|
                            #![trigger cluster@[jj], processed@[v as int]]
                            0 <= jj < cluster@.len() && (v as int) < processed@.len()
                                && !processed@[v as int] && dist_sq(
                                s[v as int].spec_position(),
                                s[cluster@[jj] as int].spec_position(),
                            ) <= tolsq as int implies in_queue(queue@, v) by {
                            if jj < cl0.len() {
                                assert(cluster@[jj] == cl0[jj]);
                            } else {
                                assert(cluster@[jj] == current_idx);
                            }
                        }
                        assert(queue_covers(s, cluster@, queue@, processed@, tolsq as int));
                    }
                } else {
                    proof {
                        lemma_covers_pop_processed(s, cluster@, q0, processed@, tolsq as int);
                    }
                }
            }
            let ghost comps0 = comps;
            let ghost clf = cluster@;
            proof {
                assert forall|j: int, v: usize|
                    #![trigger clf[j], count_in(clf, v)]
                    0 <= j < clf.len() && (v as int) < s.len() && count_in(clf, v) == 0 implies
                    dist_sq(
                    s[v as int].spec_position(),
                    s[clf[j] as int].spec_position(),
                ) > tolsq as int by {
                    if !processed@[v as int] {
                        if dist_sq(
                            s[v as int].spec_position(),
                            s[clf[j] as int].spec_position(),
                        ) <= tolsq as int {
                            assert(in_queue(queue@, v));
                            assert(false);
                        }
                    } else {
                        assert(count_in_seqs(comps, v) + count_in(clf, v) == 1);
                        lemma_count_in_seqs_extract(comps, v);
                        let ci = choose|ci: int|
                            0 <= ci < comps.len() && count_in(#[trigger] comps[ci], v) >= 1;
                        lemma_count_in_extract(comps[ci], v);
                        let vj = choose|vj: int|
                            0 <= vj < comps[ci].len() && comps[ci][vj] == v;
                        let w = clf[j];
                        lemma_count_in_present(clf, j);
                        assert((w as int) < n);
                        lemma_count_in_seqs_nonneg(comps, w);
                        assert(count_in_seqs(comps, w) == 0);
                        lemma_count_in_seqs_zero(comps, w, ci);
                        assert(comp_separated(s, comps[ci], tolsq as int));
                        assert(dist_sq(
                            s[w as int].spec_position(),
                            s[comps[ci][vj] as int].spec_position(),
                        ) > tolsq as int);
                        lemma_dist_sq_symmetric(
                            s[v as int].spec_position(),
                            s[w as int].spec_position(),
                        );
                    }
                }
                assert(comp_separated(s, clf, tolsq as int));
                lemma_comps_separated_push(s, comps, clf, tolsq as int);
                comps = comps.push(clf);
                assert(comps.drop_last() =~= comps0);
                assert forall|v: usize| (v as int) < n implies #[trigger] count_in_seqs(comps, v)
                    == (
                if processed@[v as int] {
                    1int
                } else {
                    0int
                }) by {
                    assert(count_in_seqs(comps, v) == count_in_seqs(comps0, v) + count_in(
                        clf,
                        v,
                    ));
                }
                assert(cluster@.len() >= 1);
                assert(processed@[i as int]);
                lemma_count_false_le_len(proc_entry);
                lemma_count_false_nonneg(processed@);
                assert(cluster@.len() <= n);
            }
            if min_cluster_size <= cluster.len() && cluster.len() <= max_cluster_size {
                let ghost cs0 = clusters@;
                let ghost clg = cluster;
                clusters.push(cluster);
                proof {
                    assert(clusters@.drop_last() =~= cs0);
                    assert(clusters@.last() == clusters@[clusters@.len() - 1]);
                    assert forall|v: usize| #[trigger] count_in_all(clusters@, v) <= 1 by {
                        assert(count_in_all(clusters@, v) == count_in_all(cs0, v) + count_in(
                            clf,
                            v,
                        ));
                    }
                    assert forall|v: usize|
                        (v as int) < n && count_in_all(clusters@, v) >= 1 implies processed@[
                    v as int] by {
                        assert(count_in_all(clusters@, v) == count_in_all(cs0, v) + count_in(
                            clf,
                            v,
                        ));
                        lemma_count_in_all_nonneg(cs0, v);
                        lemma_count_in_nonneg(clf, v);
                    }
                    lemma_linked_clusters_push(s, cs0, clg, tolsq as int);
                    assert(clusters@ == cs0.push(clg));
                    assert forall|c: int| 0 <= c < clusters@.len() implies exists|ci: int|
                        0 <= ci < comps.len() && comps[ci] == (#[trigger] clusters@[c])@ by {
                        if c < cs0.len() {
                            assert(clusters@[c] == cs0[c]);
                            let ci = choose|ci: int|
                                0 <= ci < comps0.len() && comps0[ci] == cs0[c]@;
                            assert(comps[ci] == comps0[ci]);
                        } else {
                            assert(clusters@[c]@ == clf);
                            assert(comps[comps.len() - 1] == clf);
                        }
                    }
                    if min_cluster_size <= 1 && max_cluster_size >= n {
                        assert forall|v: usize| #[trigger] count_in_all(clusters@, v)
                            == count_in_seqs(comps, v) by {
                            assert(count_in_all(clusters@, v) == count_in_all(cs0, v) + count_in(
                                clf,
                                v,
                            ));
                            assert(count_in_seqs(comps, v) == count_in_seqs(comps0, v)
                                + count_in(clf, v));
                        }
                    }
                }
            } else {
                proof {
                    assert forall|v: usize| #[trigger] count_in_all(clusters@, v) <= 1 by {
                        lemma_count_in_nonneg(cluster@, v);
                    }
                    assert forall|v: usize|
                        (v as int) < n && count_in_all(clusters@, v) >= 1 implies processed@[
                    v as int] by {
                        lemma_count_in_nonneg(cluster@, v);
                    }
                    assert forall|c: int| 0 <= c < clusters@.len() implies exists|ci: int|
                        0 <= ci < comps.len() && comps[ci] == (#[trigger] clusters@[c])@ by {
                        let ci = choose|ci: int|
                            0 <= ci < comps0.len() && comps0[ci] == clusters@[c]@;
                        assert(comps[ci] == comps0[ci]);
                    }
                    assert(!(min_cluster_size <= 1 && max_cluster_size >= n));
                }
            }
            proof {
                assert forall|u: int| 0 <= u < i + 1 implies processed@[u] by {
                    if u < i {
                        assert(proc_entry[u]);
                    }
                }
            }
        }
        i = i + 1;
    }
    proof {
        if min_cluster_size <= 1 && max_cluster_size >= n {
            assert forall|v: usize| (v as int) < s.len() implies #[trigger] count_in_all(
                clusters@,
                v,
            ) == 1 by {
                assert(processed@[v as int]);
                assert(count_in_seqs(comps, v) == 1);
            }
        }
        assert forall|v: usize, c: int, j: int|
            #![trigger count_in_all(clusters@, v), clusters@[c]@[j]]
            (v as int) < s.len() && count_in_all(clusters@, v) == 0 && 0 <= c < clusters@.len()
                && 0 <= j < clusters@[c]@.len() implies dist_sq(
            s[v as int].spec_position(),
            s[clusters@[c]@[j] as int].spec_position(),
        ) > tolsq as int by {
            lemma_count_in_all_component(clusters@, v, c);
            lemma_count_in_nonneg(clusters@[c]@, v);
            assert(count_in(clusters@[c]@, v) == 0);
            let ci = choose|ci: int|
                0 <= ci < comps.len() && comps[ci] == (#[trigger] clusters@[c])@;
            assert(comp_separated(s, comps[ci], tolsq as int));
            assert(count_in(comps[ci], v) == 0);
            assert(comps[ci][j] == clusters@[c]@[j]);
        }
    }
    clusters
}

/// Segmentation methods on the point cloud container itself, mirroring the
/// free segmentation functions.
pub trait SegmentationExt<P: Point>: Sized {
    /// The points the implementing container holds.
    spec fn ext_points(&self) -> Seq<P>;

    /// Perform Euclidean clustering.
    fn euclidean_cluster(&self, tolerance: u64, min_size: usize, max_size: usize) -> (r: Vec<
        Vec<usize>,
    >)
        requires
            forall|i: int|
                0 <= i < self.ext_points().len() ==> in_range(
                    #[trigger] self.ext_points()[i].spec_position(),
                ),
        ensures
            forall|c: int|
                0 <= c < r@.len() ==> min_size <= (#[trigger] r@[c])@.len() <= max_size,
            forall|c: int, j: int|
                0 <= c < r@.len() && 0 <= j < r@[c]@.len() ==> (#[trigger] r@[c]@[j])
                    < self.ext_points().len(),
            forall|v: usize| #[trigger] count_in_all(r@, v) <= 1,
            linked_clusters(self.ext_points(), r@, (tolerance as int) * (tolerance as int)),
            min_size <= 1 && max_size >= self.ext_points().len() ==> forall|v: usize|
                (v as int) < self.ext_points().len() ==> #[trigger] count_in_all(r@, v) == 1,
            forall|v: usize, c: int, j: int|
                #![trigger count_in_all(r@, v), r@[c]@[j]]
                (v as int) < self.ext_points().len() && count_in_all(r@, v) == 0 && 0 <= c
                    < r@.len() && 0 <= j < r@[c]@.len() ==> dist_sq(
                    self.ext_points()[v as int].spec_position(),
                    self.ext_points()[r@[c]@[j] as int].spec_position(),
                ) > (tolerance as int) * (tolerance as int),
    ;

    /// Perform RANSAC plane segmentation.
    fn ransac_plane(&self, distance_threshold: i64, max_iterations: usize) -> (r: CloudResult<
        (Vec<usize>, Plane),
    >)
        requires
            0 <= distance_threshold <= RANSAC_LIMIT,
            forall|i: int|
                0 <= i < self.ext_points().len() ==> ransac_range(
                    #[trigger] self.ext_points()[i].spec_position(),
                ),
        ensures
            match r {
                Err(e) => self.ext_points().len() < 3 && e matches CloudError::AlgorithmError(
                    _,
                ),
                Ok((inliers, plane)) => {
                    let s = self.ext_points();
                    let n = s.len() as int;
                    let q1 = s[0].spec_position();
                    let q2 = s[n / 3].spec_position();
                    let q3 = s[(2 * n) / 3].spec_position();
                    let degenerate = plane_a(q1, q2, q3) == 0 && plane_b(q1, q2, q3) == 0
                        && plane_c(q1, q2, q3) == 0;
                    &&& n >= 3
                    &&& (max_iterations == 0 || degenerate) ==> plane == (Plane {
                        a: 0i64,
                        b: 0i64,
                        c: 1i64,
                        d: 0i64,
                    }) && inliers@ == Seq::<usize>::empty()
                    &&& (max_iterations > 0 && !degenerate) ==> {
                        &&& plane.a == plane_a(q1, q2, q3)
                        &&& plane.b == plane_b(q1, q2, q3)
                        &&& plane.c == plane_c(q1, q2, q3)
                        &&& plane.d == plane_d(q1, q2, q3)
                        &&& inliers@ == inlier_indices(s, plane, distance_threshold as int, n)
                    }
                },
            },
    ;
}

impl<P: Point> SegmentationExt<P> for PointCloud<P> {
    open spec fn ext_points(&self) -> Seq<P> {
        self.spec_points()
    }

    fn euclidean_cluster(&self, tolerance: u64, min_size: usize, max_size: usize) -> (r: Vec<
        Vec<usize>,
    >) {
        proof {
            assert(self.ext_points() == self.spec_points());
        }
        euclidean_clustering(self, tolerance, min_size, max_size)
    }

    fn ransac_plane(&self, distance_threshold: i64, max_iterations: usize) -> (r: CloudResult<
        (Vec<usize>, Plane),
    >) {
        ransac_plane_segmentation(self, distance_threshold, max_iterations)
    }
}

} // verus!
