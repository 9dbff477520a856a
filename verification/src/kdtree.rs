//! K-d tree for exact spatial queries over 3D points.
//!
//! The tree is built once from a copy of the input points (median split,
//! axis cycling x, y, z with depth) and is immutable afterwards. Queries are
//! proved to return exactly what an exhaustive linear scan would.

use vstd::prelude::*;
use vstd::multiset::Multiset;
use crate::point::{axis_gap_sq, axis_of, dist_sq, distance_squared, in_range, lemma_dist_sq_ge_axis,
    lemma_sq_bound, lemma_sq_monotone, lemma_sq_strict, lemma_sq_swap, sq, Point, Position, COORD_LIMIT};

verus! {

broadcast use vstd::seq_lib::group_to_multiset_ensures;

/// K-d tree for efficient spatial queries.
pub struct KdTree<P: Point> {
    root: Option<Box<KdNode<P>>>,
}

/// Node in the k-d tree: one point, a split axis, and up to two subtrees.
struct KdNode<P: Point> {
    point: P,
    axis: usize,
    left: Option<Box<KdNode<P>>>,
    right: Option<Box<KdNode<P>>>,
}

/// All points of an optional subtree, root first.
spec fn opt_points<P: Point>(o: Option<Box<KdNode<P>>>) -> Seq<P>
    decreases o,
{
    match o {
        None => Seq::empty(),
        Some(n) => n.points(),
    }
}

/// Well-formedness of an optional subtree whose split axis must be `axis`.
spec fn opt_wf<P: Point>(o: Option<Box<KdNode<P>>>, axis: int) -> bool
    decreases o,
{
    match o {
        None => true,
        Some(n) => n.wf() && n.axis == axis,
    }
}

/// Coordinate of `p` on the given axis.
fn pos_axis(p: Position, axis: usize) -> (r: i64)
    ensures
        r == axis_of(p, axis as int),
{
    if axis == 0 {
        p.x
    } else if axis == 1 {
        p.y
    } else {
        p.z
    }
}

/// Whether `s` is sorted by the coordinate on `axis`, ascending.
pub open spec fn sorted_by_axis<P: Point>(s: Seq<P>, axis: int) -> bool {
    forall|i: int, j: int|
        0 <= i < j < s.len() ==> axis_of(#[trigger] s[i].spec_position(), axis) <= axis_of(
            #[trigger] s[j].spec_position(),
            axis,
        )
}

impl<P: Point> KdNode<P> {
    /// All points in this subtree: the node's own point, then the left
    /// subtree's, then the right subtree's.
    spec fn points(self) -> Seq<P>
        decreases self,
    {
        seq![self.point] + opt_points(self.left) + opt_points(self.right)
    }

    /// The split invariant: every point in the left subtree lies at or below
    /// the node's point on the split axis, every point in the right subtree
    /// at or above; subtrees cycle to the next axis and are well-formed.
    spec fn wf(self) -> bool
        decreases self,
    {
        &&& self.axis < 3
        &&& in_range(self.point.spec_position())
        &&& (forall|p: P|
            opt_points(self.left).contains(p) ==> axis_of(p.spec_position(), self.axis as int)
                <= axis_of(self.point.spec_position(), self.axis as int))
        &&& (forall|p: P|
            opt_points(self.right).contains(p) ==> axis_of(p.spec_position(), self.axis as int)
                >= axis_of(self.point.spec_position(), self.axis as int))
        &&& opt_wf(self.left, ((self.axis as int) + 1) % 3)
        &&& opt_wf(self.right, ((self.axis as int) + 1) % 3)
    }

    /// How a subtree's point sequence decomposes into the node's own point
    /// and the two child sequences.
    proof fn lemma_points(self)
        ensures
            forall|p: P|
                #[trigger] self.points().contains(p) <==> (p == self.point || opt_points(
                    self.left,
                ).contains(p) || opt_points(self.right).contains(p)),
            self.points().len() == 1 + opt_points(self.left).len() + opt_points(self.right).len(),
            self.points()[0] == self.point,
    {
        let l = opt_points(self.left);
        let r = opt_points(self.right);
        let s = self.points();
        assert forall|p: P| #[trigger] s.contains(p) implies (p == self.point || l.contains(p)
            || r.contains(p)) by {
            let i = choose|i: int| 0 <= i < s.len() && s[i] == p;
            if i == 0 {
            } else if i < 1 + l.len() {
                assert(l[i - 1] == p);
            } else {
                assert(r[i - 1 - l.len()] == p);
            }
        };
        assert forall|p: P| (p == self.point || l.contains(p) || r.contains(p)) implies
            #[trigger] s.contains(p) by {
            if p == self.point {
                assert(s[0] == p);
            } else if l.contains(p) {
                let i = choose|i: int| 0 <= i < l.len() && l[i] == p;
                assert(s[1 + i] == p);
            } else {
                let i = choose|i: int| 0 <= i < r.len() && r[i] == p;
                assert(s[1 + l.len() + i] == p);
            }
        };
    }
}

/// The multiset of a one-element sequence is the singleton multiset.
proof fn lemma_singleton_multiset<T>(x: T)
    ensures
        seq![x].to_multiset() =~= Multiset::<T>::empty().insert(x),
{
    assert(seq![x] =~= Seq::<T>::empty().push(x));
    vstd::seq_lib::to_multiset_len(Seq::<T>::empty());
    vstd::multiset::lemma_multiset_empty_len(Seq::<T>::empty().to_multiset());
    assert(Seq::<T>::empty().to_multiset() =~= Multiset::<T>::empty());
}

/// Copy a slice of points into a vector.
fn slice_to_vec<P: Point>(points: &[P]) -> (r: Vec<P>)
    ensures
        r@ == points@,
{
    let mut v: Vec<P> = Vec::new();
    let n = points.len();
    let mut i: usize = 0;
    while i < n
        invariant
            0 <= i <= n,
            n == points@.len(),
            v@ == points@.take(i as int),
        decreases n - i,
    {
        v.push(points[i].cloned());
        proof {
            assert(points@.take(i as int + 1) =~= points@.take(i as int).push(points@[i as int]));
        }
        i = i + 1;
    }
    proof {
        assert(points@.take(n as int) =~= points@);
    }
    v
}

/// Copy the elements of `v` with indices in `[start, end)` into a new vector.
fn vec_range<P: Point>(v: &Vec<P>, start: usize, end: usize) -> (r: Vec<P>)
    requires
        0 <= start <= end <= v@.len(),
    ensures
        r@ == v@.subrange(start as int, end as int),
{
    let mut out: Vec<P> = Vec::new();
    let mut i: usize = start;
    while i < end
        invariant
            start <= i <= end <= v@.len(),
            out@ == v@.subrange(start as int, i as int),
        decreases end - i,
    {
        out.push(v[i].cloned());
        proof {
            assert(v@.subrange(start as int, i as int + 1) =~= v@.subrange(
                start as int,
                i as int,
            ).push(v@[i as int]));
        }
        i = i + 1;
    }
    out
}

/// Sort points ascending by their coordinate on `axis` (insertion sort),
/// keeping the multiset of points.
fn sort_by_axis<P: Point>(points: Vec<P>, axis: usize) -> (r: Vec<P>)
    ensures
        r@.len() == points@.len(),
        r@.to_multiset() == points@.to_multiset(),
        sorted_by_axis(r@, axis as int),
{
    let mut out: Vec<P> = Vec::new();
    let mut i: usize = 0;
    proof {
        assert(points@.take(0) =~= Seq::<P>::empty());
        assert(out@.to_multiset() =~= points@.take(0).to_multiset());
    }
    while i < points.len()
        invariant
            0 <= i <= points@.len(),
            out@.len() == i,
            out@.to_multiset() == points@.take(i as int).to_multiset(),
            sorted_by_axis(out@, axis as int),
        decreases points@.len() - i,
    {
        let p = points[i].cloned();
        let key = pos_axis(p.position(), axis);
        let mut j: usize = 0;
        while j < out.len() && pos_axis(out[j].position(), axis) <= key
            invariant
                0 <= j <= out@.len(),
                forall|t: int|
                    0 <= t < j ==> axis_of(#[trigger] out@[t].spec_position(), axis as int)
                        <= key,
                sorted_by_axis(out@, axis as int),
                key == axis_of(p.spec_position(), axis as int),
            decreases out@.len() - j,
        {
            j = j + 1;
        }
        let ghost out0 = out@;
        out.insert(j, p);
        proof {
            assert(out@ == out0.insert(j as int, p));
            assert forall|t1: int, t2: int| 0 <= t1 < t2 < out@.len() implies axis_of(
                #[trigger] out@[t1].spec_position(),
                axis as int,
            ) <= axis_of(#[trigger] out@[t2].spec_position(), axis as int) by {
                if t1 < j && t2 < j {
                    assert(out@[t1] == out0[t1] && out@[t2] == out0[t2]);
                } else if t1 < j && t2 == j {
                    assert(out@[t1] == out0[t1]);
                } else if t1 < j && t2 > j {
                    assert(out@[t1] == out0[t1] && out@[t2] == out0[t2 - 1]);
                    if t2 - 1 >= j {
                        assert(axis_of(out0[j as int].spec_position(), axis as int) <= axis_of(
                            out0[t2 - 1].spec_position(),
                            axis as int,
                        ));
                    }
                } else if t1 == j {
                    assert(out@[t2] == out0[t2 - 1] && t2 - 1 >= j);
                    assert(axis_of(out0[j as int].spec_position(), axis as int) > key);
                    assert(axis_of(out0[j as int].spec_position(), axis as int) <= axis_of(
                        out0[t2 - 1].spec_position(),
                        axis as int,
                    ));
                } else {
                    assert(out@[t1] == out0[t1 - 1] && out@[t2] == out0[t2 - 1]);
                }
            };
            vstd::seq_lib::to_multiset_insert(out0, j as int, p);
            assert(points@.take(i as int + 1) =~= points@.take(i as int).push(points@[i as int]));
        }
        i = i + 1;
    }
    proof {
        assert(points@.take(points@.len() as int) =~= points@);
    }
    out
}

impl<P: Point> KdTree<P> {
    /// All points the tree holds, in root-first visitation order.
    pub closed spec fn spec_points(self) -> Seq<P> {
        opt_points(self.root)
    }

    /// The structural invariant every built tree satisfies: the root splits
    /// on the x axis and each node's subtrees split on the next axis (so a
    /// node at depth d splits on axis d modulo 3); every point in a node's
    /// left subtree lies at or below the node's point on the node's split
    /// axis and every point in its right subtree at or above; and every
    /// stored position is within the coordinate range. `build` establishes
    /// this and every query requires it.
    pub closed spec fn wf(self) -> bool {
        opt_wf(self.root, 0)
    }

    /// Create a new empty k-d tree.
    pub fn new() -> (r: Self)
        ensures
            r.wf(),
            r.spec_points() == Seq::<P>::empty(),
    {
        Self { root: None }
    }

    /// Build a k-d tree from a slice of points: the tree holds a copy of
    /// exactly the input points (one node each) and satisfies the split
    /// invariant on every node.
    pub fn build(points: &[P]) -> (r: Self)
        requires
            forall|i: int|
                0 <= i < points@.len() ==> in_range(#[trigger] points@[i].spec_position()),
        ensures
            r.wf(),
            r.spec_points().to_multiset() == points@.to_multiset(),
            r.spec_points().len() == points@.len(),
    {
        let copy = slice_to_vec(points);
        let ghost s = points@;
        proof {
            assert forall|p: P| copy@.to_multiset().contains(p) implies in_range(
                p.spec_position(),
            ) by {
                let i = choose|i: int| 0 <= i < s.len() && s[i] == p;
            };
        }
        let root = Self::build_recursive(copy, 0);
        let r = Self { root };
        proof {
            vstd::seq_lib::to_multiset_len(r.spec_points());
            vstd::seq_lib::to_multiset_len(points@);
        }
        r
    }

    /// Recursively build a subtree splitting on `axis`: sort by the axis,
    /// take the lower middle element as the node, recurse on both halves.
    #[verifier::rlimit(60)]
    fn build_recursive(points: Vec<P>, axis: usize) -> (r: Option<Box<KdNode<P>>>)
        requires
            axis < 3,
            forall|p: P|
                points@.to_multiset().contains(p) ==> in_range(#[trigger] p.spec_position()),
        ensures
            opt_points(r).to_multiset() == points@.to_multiset(),
            opt_wf(r, axis as int),
        decreases points@.len(),
    {
        if points.len() == 0 {
            proof {
                assert(points@ =~= Seq::<P>::empty());
                assert(opt_points(None::<Box<KdNode<P>>>).to_multiset() =~= points@.to_multiset());
            }
            return None;
        }
        let sorted = sort_by_axis(points, axis);
        let ghost t = sorted@;
        proof {
            assert forall|p: P| t.to_multiset().contains(p) implies in_range(
                p.spec_position(),
            ) by {};
            assert forall|idx: int| 0 <= idx < t.len() implies in_range(
                #[trigger] t[idx].spec_position(),
            ) by {
                assert(t.contains(t[idx]));
            };
        }
        let median = sorted.len() / 2;
        let point = sorted[median].cloned();
        let left = vec_range(&sorted, 0, median);
        let right = vec_range(&sorted, median + 1, sorted.len());
        let ghost lseq = t.subrange(0, median as int);
        let ghost rseq = t.subrange(median as int + 1, t.len() as int);
        proof {
            assert forall|p: P| lseq.to_multiset().contains(p) implies in_range(
                #[trigger] p.spec_position(),
            ) by {
                let i = choose|i: int| 0 <= i < lseq.len() && lseq[i] == p;
                assert(t.contains(t[i]));
            };
            assert forall|p: P| rseq.to_multiset().contains(p) implies in_range(
                #[trigger] p.spec_position(),
            ) by {
                let i = choose|i: int| 0 <= i < rseq.len() && rseq[i] == p;
                assert(t.contains(t[median as int + 1 + i]));
            };
        }
        let child_axis = if axis == 2 {
            0
        } else {
            axis + 1
        };
        let left_node = Self::build_recursive(left, child_axis);
        let right_node = Self::build_recursive(right, child_axis);
        let node = KdNode { point, axis, left: left_node, right: right_node };
        proof {
            let l = opt_points(node.left);
            let rr = opt_points(node.right);
            let m = t[median as int];
            assert(node.points() == seq![node.point] + l + rr);
            assert(node.point == m);
            lemma_singleton_multiset(m);
            lemma_singleton_multiset(node.point);
            assert(t =~= (lseq + seq![m]) + rseq);
            vstd::seq_lib::lemma_multiset_commutative(lseq + seq![m], rseq);
            vstd::seq_lib::lemma_multiset_commutative(lseq, seq![m]);
            vstd::seq_lib::lemma_multiset_commutative(seq![node.point] + l, rr);
            vstd::seq_lib::lemma_multiset_commutative(seq![node.point], l);
            assert(node.points().to_multiset() =~= t.to_multiset());
            // split invariant: left at or below the median, right at or above
            let mval = axis_of(m.spec_position(), axis as int);
            assert forall|p: P| l.contains(p) implies axis_of(p.spec_position(), axis as int)
                <= mval by {
                assert(l.to_multiset().contains(p));
                assert(lseq.to_multiset().contains(p));
                assert(lseq.contains(p));
                let i = choose|i: int| 0 <= i < lseq.len() && lseq[i] == p;
                assert(t[i] == p);
            };
            assert forall|p: P| rr.contains(p) implies axis_of(p.spec_position(), axis as int)
                >= mval by {
                assert(rr.to_multiset().contains(p));
                assert(rseq.to_multiset().contains(p));
                assert(rseq.contains(p));
                let i = choose|i: int| 0 <= i < rseq.len() && rseq[i] == p;
                assert(t[median as int + 1 + i] == p);
            };
            assert(node.wf());
        }
        Some(Box::new(node))
    }

    /// Exact nearest neighbor: the returned point is one of the tree's points
    /// at minimal squared distance from the query, exactly as an exhaustive
    /// linear scan would find. Nothing for an empty tree.
    pub fn nearest_neighbor(&self, query: &P) -> (r: Option<P>)
        requires
            self.wf(),
            in_range(query.spec_position()),
        ensures
            match r {
                None => self.spec_points().len() == 0,
                Some(p) => {
                    &&& self.spec_points().contains(p)
                    &&& forall|q: P|
                        #[trigger] self.spec_points().contains(q) ==> dist_sq(
                            query.spec_position(),
                            p.spec_position(),
                        ) <= dist_sq(query.spec_position(), q.spec_position())
                },
            },
    {
        match &self.root {
            None => None,
            Some(root) => {
                let qp = query.position();
                let best = Self::nn_rec(root, qp, None);
                Some(best.0)
            },
        }
    }

    /// Recursive nearest-neighbor descent: evaluates the node's point, takes
    /// the query-side subtree first, and enters the other subtree only when
    /// the splitting plane is closer than the best squared distance so far.
    fn nn_rec(node: &KdNode<P>, query: Position, best: Option<(P, u128)>) -> (r: (P, u128))
        requires
            node.wf(),
            in_range(query),
            match best {
                Some(b) => b.1 == dist_sq(query, b.0.spec_position()),
                None => true,
            },
        ensures
            r.1 == dist_sq(query, r.0.spec_position()),
            node.points().contains(r.0) || (best matches Some(b) && r.0 == b.0),
            forall|q: P| #[trigger] node.points().contains(q) ==> r.1 <= dist_sq(
                query,
                q.spec_position(),
            ),
            match best {
                Some(b) => r.1 <= b.1,
                None => true,
            },
        decreases node,
    {
        proof {
            node.lemma_points();
        }
        let node_pos = node.point.position();
        let d = distance_squared(query, node_pos);
        let mut cur: (P, u128) = match best {
            Some(b) => {
                if d < b.1 {
                    (node.point.cloned(), d)
                } else {
                    b
                }
            },
            None => (node.point.cloned(), d),
        };
        let ghost cur0 = cur;
        let axis = node.axis;
        let qv = pos_axis(query, axis);
        let nv = pos_axis(node_pos, axis);
        let go_left_first = qv < nv;
        let primary = if go_left_first {
            &node.left
        } else {
            &node.right
        };
        let secondary = if go_left_first {
            &node.right
        } else {
            &node.left
        };
        if let Some(child) = primary {
            cur = Self::nn_rec(child, query, Some(cur));
        }
        let ghost cur1 = cur;
        let gap_sq = axis_gap_sq(qv, nv);
        if gap_sq < cur.1 {
            if let Some(child) = secondary {
                cur = Self::nn_rec(child, query, Some(cur));
            }
        } else {
            proof {
                let ghost sec = if go_left_first {
                    node.right
                } else {
                    node.left
                };
                let na = axis_of(node.point.spec_position(), axis as int);
                assert forall|q: P| #[trigger] opt_points(sec).contains(q) implies dist_sq(
                    query,
                    q.spec_position(),
                ) >= cur1.1 by {
                    let qa = axis_of(q.spec_position(), axis as int);
                    lemma_sq_monotone(na - (qv as int), qa - (qv as int));
                    lemma_sq_swap(qv as int, qa);
                    lemma_sq_swap(qv as int, na);
                    lemma_dist_sq_ge_axis(query, q.spec_position(), axis as int);
                };
            }
        }
        proof {
            assert forall|q: P| #[trigger] node.points().contains(q) implies cur.1 <= dist_sq(
                query,
                q.spec_position(),
            ) by {
                let l = opt_points(node.left);
                let rr = opt_points(node.right);
                if q == node.point {
                } else if go_left_first && l.contains(q) {
                } else if !go_left_first && rr.contains(q) {
                } else {
                }
            };
        }
        cur
    }

    /// All points of the tree within `radius` of the query (inclusive), as
    /// (point, squared distance) pairs in visitation order: exactly the
    /// points an exhaustive linear scan would keep, in tree order.
    pub fn radius_search(&self, query: &P, radius: u64) -> (r: Vec<(P, u128)>)
        requires
            self.wf(),
            in_range(query.spec_position()),
        ensures
            forall|i: int|
                0 <= i < r@.len() ==> (#[trigger] r@[i]).1 == dist_sq(
                    query.spec_position(),
                    r@[i].0.spec_position(),
                ),
            result_points(r@) == self.spec_points().filter(
                within_radius(query.spec_position(), (radius as int) * (radius as int)),
            ),
    {
        let mut results: Vec<(P, u128)> = Vec::new();
        let qp = query.position();
        proof {
            lemma_sq_bound(radius as int, 0xFFFF_FFFF_FFFF_FFFFint);
            assert(0xFFFF_FFFF_FFFF_FFFFint * 0xFFFF_FFFF_FFFF_FFFFint
                < 0x100000000000000000000000000000000int) by (nonlinear_arith);
        }
        let rsq: u128 = (radius as u128) * (radius as u128);
        match &self.root {
            None => {
                proof {
                    assert(result_points(results@) =~= Seq::<P>::empty());
                    lemma_filter_all_false(
                        Seq::<P>::empty(),
                        within_radius(query.spec_position(), rsq as int),
                    );
                }
            },
            Some(root) => {
                Self::rad_rec(root, qp, radius, rsq, &mut results);
                proof {
                    assert(result_points(results@) =~= Seq::<P>::empty() + result_points(
                        results@,
                    ).subrange(0, results@.len() as int));
                    assert(result_points(results@).subrange(0, results@.len() as int)
                        =~= result_points(results@));
                }
            },
        }
        results
    }

    /// Recursive radius search: keeps every node point within the radius and
    /// descends into a child only when the splitting plane allows a match.
    #[verifier::rlimit(100)]
    fn rad_rec(
        node: &KdNode<P>,
        query: Position,
        radius: u64,
        rsq: u128,
        results: &mut Vec<(P, u128)>,
    )
        requires
            node.wf(),
            in_range(query),
            rsq == (radius as int) * (radius as int),
            forall|i: int|
                0 <= i < old(results)@.len() ==> (#[trigger] old(results)@[i]).1 == dist_sq(
                    query,
                    old(results)@[i].0.spec_position(),
                ),
        ensures
            forall|i: int|
                0 <= i < final(results)@.len() ==> (#[trigger] final(results)@[i]).1 == dist_sq(
                    query,
                    final(results)@[i].0.spec_position(),
                ),
            result_points(final(results)@) == result_points(old(results)@) + node.points().filter(
                within_radius(query, rsq as int),
            ),
        decreases node,
    {
        proof {
            node.lemma_points();
        }
        let ghost pred = within_radius(query, rsq as int);
        let ghost res0 = results@;
        let node_pos = node.point.position();
        let d = distance_squared(query, node_pos);
        if d <= rsq {
            results.push((node.point.cloned(), d));
        }
        proof {
            lemma_result_points_push_or_same(res0, results@, node.point, d, pred(node.point));
            assert(seq![node.point].filter(pred) =~= if pred(node.point) {
                seq![node.point]
            } else {
                Seq::<P>::empty()
            }) by {
                reveal(Seq::filter);
                assert(seq![node.point].drop_last() =~= Seq::<P>::empty());
                assert(Seq::<P>::empty().filter(pred) =~= Seq::<P>::empty()) by {
                    reveal(Seq::filter);
                }
            }
            assert(result_points(results@) =~= result_points(res0) + seq![node.point].filter(
                pred,
            ));
        }
        let ghost res1 = results@;
        let axis = node.axis;
        let qv = pos_axis(query, axis);
        let nv = pos_axis(node_pos, axis);
        let ghost na = axis_of(node.point.spec_position(), axis as int);
        if let Some(left) = &node.left {
            if qv as i128 - radius as i128 <= nv as i128 {
                Self::rad_rec(left, query, radius, rsq, results);
            } else {
                proof {
                    let l = opt_points(node.left);
                    assert forall|t: int| 0 <= t < l.len() implies !pred(#[trigger] l[t]) by {
                        assert(l.contains(l[t]));
                        let qa = axis_of(l[t].spec_position(), axis as int);
                        lemma_sq_strict(radius as int, qv - qa);
                        lemma_dist_sq_ge_axis(query, l[t].spec_position(), axis as int);
                    };
                    lemma_filter_all_false(l, pred);
                    assert(results@ =~= res1);
                    assert(result_points(results@) =~= result_points(res1) + l.filter(pred));
                }
            }
        } else {
            proof {
                lemma_filter_all_false(opt_points(node.left), pred);
                assert(result_points(results@) =~= result_points(res1) + opt_points(
                    node.left,
                ).filter(pred));
            }
        }
        let ghost res2 = results@;
        if let Some(right) = &node.right {
            if qv as i128 + radius as i128 >= nv as i128 {
                Self::rad_rec(right, query, radius, rsq, results);
            } else {
                proof {
                    let rr = opt_points(node.right);
                    assert forall|t: int| 0 <= t < rr.len() implies !pred(#[trigger] rr[t]) by {
                        assert(rr.contains(rr[t]));
                        let qa = axis_of(rr[t].spec_position(), axis as int);
                        lemma_sq_strict(radius as int, qa - qv);
                        lemma_sq_swap(qv as int, qa);
                        lemma_dist_sq_ge_axis(query, rr[t].spec_position(), axis as int);
                    };
                    lemma_filter_all_false(rr, pred);
                    assert(results@ =~= res2);
                    assert(result_points(results@) =~= result_points(res2) + rr.filter(pred));
                }
            }
        } else {
            proof {
                lemma_filter_all_false(opt_points(node.right), pred);
                assert(result_points(results@) =~= result_points(res2) + opt_points(
                    node.right,
                ).filter(pred));
            }
        }
        proof {
            let l = opt_points(node.left);
            let rr = opt_points(node.right);
            Seq::filter_distributes_over_add(seq![node.point] + l, rr, pred);
            Seq::filter_distributes_over_add(seq![node.point], l, pred);
            assert(node.points().filter(pred) == (seq![node.point].filter(pred) + l.filter(pred))
                + rr.filter(pred));
            assert(result_points(results@) =~= result_points(res0) + node.points().filter(pred));
        }
    }

    /// The `min(k, n)` points of the tree closest to the query, as (point,
    /// squared distance) pairs sorted ascending by distance: every point of
    /// the tree left out lies at least as far from the query as every point
    /// returned, exactly as an exhaustive linear scan would select.
    pub fn k_nearest(&self, query: &P, k: usize) -> (r: Vec<(P, u128)>)
        requires
            self.wf(),
            in_range(query.spec_position()),
        ensures
            r@.len() == vstd::math::min(k as int, self.spec_points().len() as int),
            dist_ok(query.spec_position(), r@),
            sorted_pairs(r@),
            result_points(r@).to_multiset().subset_of(self.spec_points().to_multiset()),
            forall|p: P, i: int|
                #![trigger self.spec_points().to_multiset().count(p), r@[i]]
                self.spec_points().to_multiset().count(p) > result_points(
                    r@,
                ).to_multiset().count(p) && 0 <= i < r@.len() ==> r@[i].1 <= dist_sq(
                    query.spec_position(),
                    p.spec_position(),
                ),
    {
        broadcast use vstd::multiset::group_multiset_axioms;

        let mut results: Vec<(P, u128)> = Vec::new();
        proof {
            lemma_pairs_empty_multiset::<P>();
            vstd::seq_lib::to_multiset_len(self.spec_points());
            assert(result_points(results@) =~= Seq::<P>::empty());
        }
        if k == 0 {
            return results;
        }
        let qp = query.position();
        match &self.root {
            None => {
                proof {
                    assert(self.spec_points() =~= Seq::<P>::empty());
                }
            },
            Some(root) => {
                proof {
                    assert(self.spec_points() == root.points());
                    assert(sel_of(qp, k as int, Multiset::<P>::empty(), results@));
                }
                Self::knn_rec(root, qp, k, &mut results, Ghost(Multiset::empty()));
                proof {
                    assert(Multiset::<P>::empty().add(root.points().to_multiset())
                        =~= root.points().to_multiset());
                }
            },
        }
        let ghost pre = results@;
        sort_pairs(&mut results);
        proof {
            assert forall|i: int| 0 <= i < results@.len() implies (#[trigger] results@[i]).1
                == dist_sq(qp, results@[i].0.spec_position()) by {
                assert(results@.contains(results@[i]));
                assert(pre.to_multiset().count(results@[i]) > 0);
                assert(pre.contains(results@[i]));
                let j = choose|j: int| 0 <= j < pre.len() && pre[j] == results@[i];
            };
            assert forall|p: P, i: int|
                #![trigger self.spec_points().to_multiset().count(p), results@[i]]
                self.spec_points().to_multiset().count(p) > result_points(
                    results@,
                ).to_multiset().count(p) && 0 <= i < results@.len() implies results@[i].1
                <= dist_sq(qp, p.spec_position()) by {
                assert(results@.contains(results@[i]));
                assert(pre.to_multiset().count(results@[i]) > 0);
                assert(pre.contains(results@[i]));
                let j = choose|j: int| 0 <= j < pre.len() && pre[j] == results@[i];
                assert(pre[j].1 <= dist_sq(qp, p.spec_position()));
            };
        }
        results
    }

    /// Offer one point to the bounded candidate buffer: append it, and when
    /// the buffer exceeds `k`, sort by distance and drop the farthest.
    fn knn_offer(
        query: Position,
        k: usize,
        results: &mut Vec<(P, u128)>,
        p: P,
        d: u128,
        Ghost(all): Ghost<Multiset<P>>,
    )
        requires
            k >= 1,
            d == dist_sq(query, p.spec_position()),
            dist_ok(query, old(results)@),
            sel_of(query, k as int, all, old(results)@),
        ensures
            dist_ok(query, final(results)@),
            sel_of(query, k as int, all.insert(p), final(results)@),
    {
        broadcast use vstd::multiset::group_multiset_axioms;

        let ghost sel0 = results@;
        results.push((p, d));
        let ghost merged = results@;
        if results.len() > k {
            proof {
                vstd::seq_lib::to_multiset_len(result_points(sel0));
                assert(sel0.len() == k);
                assert(dist_ok(query, merged));
            }
            sort_pairs(results);
            let ghost sel1 = results@;
            proof {
                assert forall|i: int| 0 <= i < sel1.len() implies (#[trigger] sel1[i]).1
                    == dist_sq(query, sel1[i].0.spec_position()) by {
                    assert(sel1.contains(sel1[i]));
                    assert(merged.to_multiset().count(sel1[i]) > 0);
                    assert(merged.contains(sel1[i]));
                    let j = choose|j: int| 0 <= j < merged.len() && merged[j] == sel1[i];
                };
            }
            results.truncate(k);
            proof {
                lemma_knn_truncate(query, k as int, all, sel0, p, d, sel1);
            }
        } else {
            proof {
                lemma_knn_keep(query, k as int, all, sel0, p, d);
            }
        }
    }

    /// Recursive k-nearest descent: offer the node's point, take the
    /// query-side subtree first, and enter the other subtree only when fewer
    /// than `k` candidates are held or the splitting plane is closer than the
    /// farthest candidate.
    fn knn_rec(
        node: &KdNode<P>,
        query: Position,
        k: usize,
        results: &mut Vec<(P, u128)>,
        Ghost(seen): Ghost<Multiset<P>>,
    )
        requires
            node.wf(),
            in_range(query),
            k >= 1,
            dist_ok(query, old(results)@),
            sel_of(query, k as int, seen, old(results)@),
        ensures
            dist_ok(query, final(results)@),
            sel_of(query, k as int, seen.add(node.points().to_multiset()), final(results)@),
        decreases node,
    {
        broadcast use vstd::multiset::group_multiset_axioms;

        proof {
            node.lemma_points();
            lemma_pairs_empty_multiset::<P>();
        }
        let node_pos = node.point.position();
        let d = distance_squared(query, node_pos);
        Self::knn_offer(query, k, results, node.point.cloned(), d, Ghost(seen));
        let ghost seen1 = seen.insert(node.point);
        let axis = node.axis;
        let qv = pos_axis(query, axis);
        let nv = pos_axis(node_pos, axis);
        let go_left_first = qv < nv;
        let primary = if go_left_first {
            &node.left
        } else {
            &node.right
        };
        let secondary = if go_left_first {
            &node.right
        } else {
            &node.left
        };
        let ghost prim_ms = opt_points(
            if go_left_first {
                node.left
            } else {
                node.right
            },
        ).to_multiset();
        let ghost sec_seq = opt_points(
            if go_left_first {
                node.right
            } else {
                node.left
            },
        );
        if let Some(child) = primary {
            Self::knn_rec(child, query, k, results, Ghost(seen1));
        } else {
            proof {
                assert(seen1.add(prim_ms) =~= seen1);
            }
        }
        let ghost seen2 = seen1.add(prim_ms);
        let mut explore = true;
        if results.len() >= k {
            let mut worst: u128 = 0;
            let mut t: usize = 0;
            while t < results.len()
                invariant
                    0 <= t <= results@.len(),
                    forall|u: int| 0 <= u < t ==> (#[trigger] results@[u]).1 <= worst,
                decreases results@.len() - t,
            {
                if results[t].1 > worst {
                    worst = results[t].1;
                }
                t = t + 1;
            }
            let gap_sq = axis_gap_sq(qv, nv);
            if gap_sq >= worst {
                explore = false;
                proof {
                    let na = axis_of(node.point.spec_position(), axis as int);
                    assert forall|q2: P| #[trigger] sec_seq.to_multiset().count(q2) > 0 implies
                        dist_sq(query, q2.spec_position()) >= worst by {
                        assert(sec_seq.contains(q2));
                        let qa = axis_of(q2.spec_position(), axis as int);
                        lemma_sq_monotone(na - (qv as int), qa - (qv as int));
                        lemma_sq_swap(qv as int, qa);
                        lemma_sq_swap(qv as int, na);
                        lemma_dist_sq_ge_axis(query, q2.spec_position(), axis as int);
                    };
                    lemma_knn_prune(
                        query,
                        k as int,
                        seen2,
                        results@,
                        sec_seq.to_multiset(),
                        worst,
                    );
                }
            }
        }
        if explore {
            if let Some(child) = secondary {
                Self::knn_rec(child, query, k, results, Ghost(seen2));
            } else {
                proof {
                    assert(seen2.add(sec_seq.to_multiset()) =~= seen2);
                }
            }
        }
        proof {
            let l = opt_points(node.left);
            let rr = opt_points(node.right);
            assert(node.points() == seq![node.point] + l + rr);
            vstd::seq_lib::lemma_multiset_commutative(seq![node.point] + l, rr);
            vstd::seq_lib::lemma_multiset_commutative(seq![node.point], l);
            lemma_singleton_multiset(node.point);
            assert(seen2.add(sec_seq.to_multiset()) =~= seen.add(node.points().to_multiset()));
        }
    }
}

/// Keeping a buffer of fewer than `k` candidates after a new point arrives:
/// the buffer held everything seen, so appending the point keeps everything.
proof fn lemma_knn_keep<P: Point>(
    query: Position,
    k: int,
    all: Multiset<P>,
    sel: Seq<(P, u128)>,
    p: P,
    d: u128,
)
    requires
        k >= 1,
        sel_of(query, k, all, sel),
        sel.len() < k,
        d == dist_sq(query, p.spec_position()),
        dist_ok(query, sel),
    ensures
        sel_of(query, k, all.insert(p), sel.push((p, d))),
        dist_ok(query, sel.push((p, d))),
{
    broadcast use vstd::multiset::group_multiset_axioms;

    let rp = result_points(sel);
    let ms = rp.to_multiset();
    vstd::seq_lib::to_multiset_len(rp);
    assert(all.sub(ms).len() == 0);
    vstd::multiset::lemma_multiset_empty_len(all.sub(ms));
    assert forall|x: P| all.count(x) == ms.count(x) by {
        assert(all.sub(ms).count(x) == 0);
        assert(ms.count(x) <= all.count(x));
    };
    let sel2 = sel.push((p, d));
    assert(result_points(sel2) =~= rp.push(p));
    assert(result_points(sel2).to_multiset() =~= ms.insert(p));
    assert(result_points(sel2).to_multiset() =~= all.insert(p));
    vstd::seq_lib::to_multiset_len(result_points(sel2));
}

/// A full candidate buffer absorbs a batch of points that all lie at least
/// as far from the query as the farthest candidate: nothing changes.
proof fn lemma_knn_prune<P: Point>(
    query: Position,
    k: int,
    all: Multiset<P>,
    sel: Seq<(P, u128)>,
    extra: Multiset<P>,
    worst: u128,
)
    requires
        sel_of(query, k, all, sel),
        sel.len() == k,
        forall|i: int| 0 <= i < sel.len() ==> (#[trigger] sel[i]).1 <= worst,
        forall|p: P| #[trigger] extra.count(p) > 0 ==> dist_sq(query, p.spec_position()) >= worst,
    ensures
        sel_of(query, k, all.add(extra), sel),
{
    broadcast use vstd::multiset::group_multiset_axioms;

    let ms = result_points(sel).to_multiset();
    vstd::seq_lib::to_multiset_len(result_points(sel));
    assert(all.sub(ms).len() == all.len() - k);
    assert forall|p: P, i: int|
        #![trigger all.add(extra).count(p), sel[i]]
        all.add(extra).count(p) > ms.count(p) && 0 <= i < sel.len() implies sel[i].1 <= dist_sq(
        query,
        p.spec_position(),
    ) by {
        if extra.count(p) > 0 {
        } else {
            assert(all.count(p) > ms.count(p));
        }
    };
}

/// A full candidate buffer with one point too many, sorted by distance,
/// drops its farthest entry and still selects the `k` best of everything
/// seen so far.
proof fn lemma_knn_truncate<P: Point>(
    query: Position,
    k: int,
    all: Multiset<P>,
    sel0: Seq<(P, u128)>,
    p: P,
    d: u128,
    sel1: Seq<(P, u128)>,
)
    requires
        k >= 1,
        sel_of(query, k, all, sel0),
        dist_ok(query, sel0),
        sel0.len() == k,
        d == dist_sq(query, p.spec_position()),
        sel1.len() == k + 1,
        sel1.to_multiset() == sel0.push((p, d)).to_multiset(),
        result_points(sel1).to_multiset() == result_points(sel0.push((p, d))).to_multiset(),
        sorted_pairs(sel1),
        dist_ok(query, sel1),
    ensures
        sel_of(query, k, all.insert(p), sel1.take(k)),
        dist_ok(query, sel1.take(k)),
{
    broadcast use vstd::multiset::group_multiset_axioms;

    let sel2 = sel1.take(k);
    let w = sel1[k];
    let merged = sel0.push((p, d));
    let rp0 = result_points(sel0);
    let rp1 = result_points(sel1);
    let rp2 = result_points(sel2);
    let ms0 = rp0.to_multiset();
    let ms1 = rp1.to_multiset();
    let ms2 = rp2.to_multiset();
    assert(sel1 =~= sel2.push(w));
    assert(rp1 =~= rp2.push(w.0));
    assert(ms1 =~= ms2.insert(w.0));
    assert(result_points(merged) =~= rp0.push(p));
    assert(ms1 == ms0.insert(p));
    vstd::seq_lib::to_multiset_len(rp0);
    vstd::seq_lib::to_multiset_len(rp2);
    assert(ms0.subset_of(all));
    assert(all.sub(ms0).len() == all.len() - k);
    assert forall|x: P| ms2.count(x) <= all.insert(p).count(x) by {
        assert(ms2.count(x) <= ms1.count(x));
        assert(ms1.count(x) == ms0.insert(p).count(x));
        assert(ms0.count(x) <= all.count(x));
    };
    assert forall|q: P, i: int|
        #![trigger all.insert(p).count(q), sel2[i]]
        all.insert(p).count(q) > ms2.count(q) && 0 <= i < sel2.len() implies sel2[i].1 <= dist_sq(
        query,
        q.spec_position(),
    ) by {
        assert(sel2[i] == sel1[i]);
        assert(sel1[i].1 <= sel1[k].1);
        if q == w.0 {
            assert(w.1 == dist_sq(query, w.0.spec_position()));
        } else {
            assert(ms2.count(q) == ms1.count(q));
            assert(ms1.count(q) == ms0.insert(p).count(q));
            if q == p {
                assert(all.count(q) > ms0.count(q));
            } else {
                assert(all.count(q) > ms0.count(q));
            }
            assert(sel1.contains(sel1[i]));
            assert(merged.to_multiset().count(sel1[i]) > 0);
            assert(merged.contains(sel1[i]));
            let j = choose|j: int| 0 <= j < merged.len() && merged[j] == sel1[i];
            if j < k {
                assert(merged[j] == sel0[j]);
                assert(sel0[j].1 <= dist_sq(query, q.spec_position()));
            } else {
                assert(sel1[i] == (p, d));
                assert(sel1.contains(sel1[k]));
                assert(merged.to_multiset().count(w) > 0);
                assert(merged.contains(w));
                let jw = choose|jw: int| 0 <= jw < merged.len() && merged[jw] == w;
                if jw < k {
                    assert(merged[jw] == sel0[jw]);
                    assert(sel0[jw].1 <= dist_sq(query, q.spec_position()));
                    assert(sel1[i].1 <= w.1);
                } else {
                    assert(w == (p, d));
                    vstd::seq_lib::to_multiset_remove(sel1, k);
                    assert(sel1.remove(k)[i] == sel1[i]);
                    assert(sel1.remove(k).contains((p, d)));
                    assert(sel1.remove(k).to_multiset().count((p, d)) > 0);
                    assert(sel1.to_multiset().count((p, d)) >= 2);
                    assert(merged.to_multiset() =~= sel0.to_multiset().insert((p, d)));
                    assert(sel0.to_multiset().count((p, d)) >= 1);
                    assert(sel0.contains((p, d)));
                    let j0 = choose|j0: int| 0 <= j0 < sel0.len() && sel0[j0] == (p, d);
                    assert(sel0[j0].1 <= dist_sq(query, q.spec_position()));
                }
            }
        }
    };
}

/// Every pair records the squared distance from the query to its point.
pub open spec fn dist_ok<P: Point>(query: Position, s: Seq<(P, u128)>) -> bool {
    forall|i: int|
        0 <= i < s.len() ==> (#[trigger] s[i]).1 == dist_sq(query, s[i].0.spec_position())
}

/// Pairs sorted ascending by squared distance.
pub open spec fn sorted_pairs<P: Point>(s: Seq<(P, u128)>) -> bool {
    forall|i: int, j: int| 0 <= i < j < s.len() ==> (#[trigger] s[i]).1 <= (#[trigger] s[j]).1
}

/// `sel` holds `min(k, |all|)` of the points of `all`, and every point of
/// `all` left out lies at least as far from the query as every point kept:
/// exactly the k smallest-distance points of a linear scan, up to ties.
pub open spec fn sel_of<P: Point>(
    query: Position,
    k: int,
    all: Multiset<P>,
    sel: Seq<(P, u128)>,
) -> bool {
    &&& sel.len() == vstd::math::min(k, all.len() as int)
    &&& result_points(sel).to_multiset().subset_of(all)
    &&& forall|p: P, i: int|
        #![trigger all.count(p), sel[i]]
        all.count(p) > result_points(sel).to_multiset().count(p) && 0 <= i < sel.len()
            ==> sel[i].1 <= dist_sq(query, p.spec_position())
}

/// The first components of a sequence of (point, squared distance) pairs.
pub open spec fn result_points<P: Point>(s: Seq<(P, u128)>) -> Seq<P> {
    s.map_values(|pr: (P, u128)| pr.0)
}

/// The predicate a radius search keeps points by: squared distance from the
/// query at most the squared radius.
pub open spec fn within_radius<P: Point>(query: Position, rsq: int) -> spec_fn(P) -> bool {
    |p: P| dist_sq(query, p.spec_position()) <= rsq
}

/// Filtering a sequence where no element satisfies the predicate leaves
/// nothing.
pub(crate) proof fn lemma_filter_all_false<T>(s: Seq<T>, pred: spec_fn(T) -> bool)
    requires
        forall|i: int| 0 <= i < s.len() ==> !pred(#[trigger] s[i]),
    ensures
        s.filter(pred) == Seq::<T>::empty(),
    decreases s.len(),
{
    reveal(Seq::filter);
    if s.len() == 0 {
        assert(s.filter(pred) =~= Seq::<T>::empty());
    } else {
        lemma_filter_all_false(s.drop_last(), pred);
        assert(!pred(s.last()));
        assert(s.filter(pred) =~= Seq::<T>::empty());
    }
}

/// Sort (point, squared distance) pairs ascending by distance in place,
/// keeping the multiset of pairs and the multiset of points.
fn sort_pairs<P: Point>(v: &mut Vec<(P, u128)>)
    ensures
        final(v)@.len() == old(v)@.len(),
        final(v)@.to_multiset() == old(v)@.to_multiset(),
        result_points(final(v)@).to_multiset() == result_points(old(v)@).to_multiset(),
        sorted_pairs(final(v)@),
{
    let ghost orig = v@;
    let mut tmp: Vec<(P, u128)> = Vec::new();
    proof {
        assert(orig.to_multiset() =~= v@.to_multiset().add(tmp@.to_multiset()));
        assert(result_points(orig).to_multiset() =~= result_points(v@).to_multiset().add(
            result_points(tmp@).to_multiset(),
        ));
    }
    while v.len() != 0
        invariant
            orig.to_multiset() == v@.to_multiset().add(tmp@.to_multiset()),
            result_points(orig).to_multiset() == result_points(v@).to_multiset().add(
                result_points(tmp@).to_multiset(),
            ),
            orig.len() == v@.len() + tmp@.len(),
        decreases v@.len(),
    {
        let ghost v0 = v@;
        let ghost t0 = tmp@;
        match v.pop() {
            None => {},
            Some(x) => {
                let ghost xg = x;
                tmp.push(x);
                proof {
                    assert(v0 =~= v@.push(xg));
                    assert(v0.to_multiset() =~= v@.to_multiset().insert(xg));
                    assert(tmp@.to_multiset() =~= t0.to_multiset().insert(xg));
                    assert(result_points(v0) =~= result_points(v@).push(xg.0));
                    assert(result_points(tmp@) =~= result_points(t0).push(xg.0));
                    assert(result_points(v0).to_multiset() =~= result_points(
                        v@,
                    ).to_multiset().insert(xg.0));
                    assert(result_points(tmp@).to_multiset() =~= result_points(
                        t0,
                    ).to_multiset().insert(xg.0));
                    assert(orig.to_multiset() =~= v@.to_multiset().add(tmp@.to_multiset()));
                    assert(result_points(orig).to_multiset() =~= result_points(
                        v@,
                    ).to_multiset().add(result_points(tmp@).to_multiset()));
                }
            },
        }
    }
    proof {
        assert(v@ =~= Seq::<(P, u128)>::empty());
        assert(result_points(v@) =~= Seq::<P>::empty());
        lemma_pairs_empty_multiset::<P>();
        assert(orig.to_multiset() =~= tmp@.to_multiset());
        assert(result_points(orig).to_multiset() =~= result_points(tmp@).to_multiset());
    }
    let mut i: usize = 0;
    proof {
        assert(tmp@.take(0) =~= Seq::<(P, u128)>::empty());
        assert(result_points(tmp@.take(0)) =~= Seq::<P>::empty());
        lemma_pairs_empty_multiset::<P>();
        assert(v@.to_multiset() =~= tmp@.take(0).to_multiset());
        assert(result_points(v@).to_multiset() =~= result_points(tmp@.take(0)).to_multiset());
    }
    while i < tmp.len()
        invariant
            0 <= i <= tmp@.len(),
            v@.len() == i,
            v@.to_multiset() == tmp@.take(i as int).to_multiset(),
            result_points(v@).to_multiset() == result_points(tmp@.take(i as int)).to_multiset(),
            sorted_pairs(v@),
        decreases tmp@.len() - i,
    {
        let key = tmp[i].1;
        let p = tmp[i].0.cloned();
        let ghost pr = tmp@[i as int];
        let mut j: usize = 0;
        while j < v.len() && v[j].1 <= key
            invariant
                0 <= j <= v@.len(),
                forall|t: int| 0 <= t < j ==> (#[trigger] v@[t]).1 <= key,
                sorted_pairs(v@),
            decreases v@.len() - j,
        {
            j = j + 1;
        }
        let ghost v0 = v@;
        v.insert(j, (p, key));
        proof {
            assert((p, key) == pr);
            assert(v@ == v0.insert(j as int, pr));
            assert forall|t1: int, t2: int| 0 <= t1 < t2 < v@.len() implies (
            #[trigger] v@[t1]).1 <= (#[trigger] v@[t2]).1 by {
                if t1 < j && t2 < j {
                    assert(v@[t1] == v0[t1] && v@[t2] == v0[t2]);
                } else if t1 < j && t2 == j {
                    assert(v@[t1] == v0[t1]);
                } else if t1 < j && t2 > j {
                    assert(v@[t1] == v0[t1] && v@[t2] == v0[t2 - 1]);
                    if t2 - 1 >= j {
                        assert(v0[j as int].1 <= v0[t2 - 1].1);
                    }
                } else if t1 == j {
                    assert(v@[t2] == v0[t2 - 1] && t2 - 1 >= j);
                    assert(v0[j as int].1 > key);
                    assert(v0[j as int].1 <= v0[t2 - 1].1);
                } else {
                    assert(v@[t1] == v0[t1 - 1] && v@[t2] == v0[t2 - 1]);
                }
            };
            vstd::seq_lib::to_multiset_insert(v0, j as int, pr);
            assert(tmp@.take(i as int + 1) =~= tmp@.take(i as int).push(pr));
            assert(result_points(v@) =~= result_points(v0).insert(j as int, pr.0));
            vstd::seq_lib::to_multiset_insert(result_points(v0), j as int, pr.0);
            assert(result_points(tmp@.take(i as int + 1)) =~= result_points(
                tmp@.take(i as int),
            ).push(pr.0));
        }
        i = i + 1;
    }
    proof {
        assert(tmp@.take(tmp@.len() as int) =~= tmp@);
    }
}

/// An empty pair sequence projects to an empty point multiset.
proof fn lemma_pairs_empty_multiset<P: Point>()
    ensures
        Seq::<(P, u128)>::empty().to_multiset() =~= Multiset::<(P, u128)>::empty(),
        Seq::<P>::empty().to_multiset() =~= Multiset::<P>::empty(),
{
    vstd::seq_lib::to_multiset_len(Seq::<(P, u128)>::empty());
    vstd::multiset::lemma_multiset_empty_len(Seq::<(P, u128)>::empty().to_multiset());
    vstd::seq_lib::to_multiset_len(Seq::<P>::empty());
    vstd::multiset::lemma_multiset_empty_len(Seq::<P>::empty().to_multiset());
}

/// Pushing a kept pair extends the projected point sequence by one point;
/// pushing nothing leaves it unchanged.
proof fn lemma_result_points_push_or_same<P: Point>(
    before: Seq<(P, u128)>,
    after: Seq<(P, u128)>,
    p: P,
    d: u128,
    kept: bool,
)
    requires
        kept ==> after == before.push((p, d)),
        !kept ==> after == before,
    ensures
        kept ==> result_points(after) == result_points(before).push(p),
        !kept ==> result_points(after) == result_points(before),
{
    if kept {
        assert(result_points(after) =~= result_points(before).push(p));
    }
}

} // verus!
