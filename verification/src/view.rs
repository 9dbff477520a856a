//! Zero-copy view into a point cloud: read-only access to a borrowed slice
//! of points and its metadata, for processing pipelines that must not take
//! ownership.

use vstd::prelude::*;
use crate::cloud::{div_floor_i128, floor_div, in_box, lemma_sum_axis_total_bound,
    lemma_sum_step_bound, mask_filter, sum_axis};
use crate::metadata::Metadata;
use crate::point::{dist_sq, distance_squared, in_range, Point, Position, COORD_LIMIT};

verus! {

/// Read-only view of a point cloud's points and metadata.
pub struct PointCloudView<'a, P: Point> {
    points: &'a [P],
    metadata: &'a Metadata,
}

impl<'a, P: Point> PointCloudView<'a, P> {
    /// The points the view exposes.
    pub closed spec fn spec_points(self) -> Seq<P> {
        self.points@
    }

    /// The metadata the view exposes.
    pub closed spec fn spec_metadata(self) -> Metadata {
        *self.metadata
    }

    /// Create a new point cloud view.
    pub fn new(points: &'a [P], metadata: &'a Metadata) -> (r: Self)
        ensures
            r.spec_points() == points@,
            r.spec_metadata() == *metadata,
    {
        Self { points, metadata }
    }

    /// Get the number of points.
    pub fn len(&self) -> (r: usize)
        ensures
            r == self.spec_points().len(),
    {
        self.points.len()
    }

    /// Check whether the view is empty.
    pub fn is_empty(&self) -> (r: bool)
        ensures
            r == (self.spec_points().len() == 0),
    {
        self.points.len() == 0
    }

    /// Get the points slice.
    pub fn points(&self) -> (r: &'a [P])
        ensures
            r@ == self.spec_points(),
    {
        self.points
    }

    /// Get the metadata.
    pub fn metadata(&self) -> (r: &'a Metadata)
        ensures
            *r == self.spec_metadata(),
    {
        self.metadata
    }

    /// Get a point by index.
    pub fn get(&self, index: usize) -> (r: Option<&'a P>)
        ensures
            match r {
                Some(p) => index < self.spec_points().len() && *p == self.spec_points()[
                    index as int],
                None => index >= self.spec_points().len(),
            },
    {
        if index < self.points.len() {
            Some(&self.points[index])
        } else {
            None
        }
    }

    /// A subview over a window of the points; an inverted or out-of-range
    /// window yields nothing.
    pub fn slice(&self, range: std::ops::Range<usize>) -> (r: Option<PointCloudView<'a, P>>)
        ensures
            match r {
                Some(v) => {
                    &&& range.start <= range.end <= self.spec_points().len()
                    &&& v.spec_points() == self.spec_points().subrange(
                        range.start as int,
                        range.end as int,
                    )
                    &&& v.spec_metadata() == self.spec_metadata()
                },
                None => !(range.start <= range.end && range.end <= self.spec_points().len()),
            },
    {
        let start = range.start;
        let end = range.end;
        if start <= end && end <= self.points.len() {
            Some(Self { points: &self.points[start..end], metadata: self.metadata })
        } else {
            None
        }
    }

    /// Count the points satisfying a predicate: the length of the mask-kept
    /// subsequence, for a mask the predicate accepted pointwise.
    pub fn count_where<F: Fn(&P) -> bool>(&self, predicate: F) -> (r: usize)
        requires
            forall|i: int|
                0 <= i < self.spec_points().len() ==> call_requires(
                    predicate,
                    (&self.spec_points()[i],),
                ),
        ensures
            exists|keep: Seq<bool>|
                {
                    &&& keep.len() == self.spec_points().len()
                    &&& (forall|i: int|
                        0 <= i < keep.len() ==> call_ensures(
                            predicate,
                            (&self.spec_points()[i],),
                            keep[i],
                        ))
                    &&& r == mask_filter(self.spec_points(), keep).len()
                },
    {
        let mut count: usize = 0;
        let ghost mut keep: Seq<bool> = Seq::empty();
        let mut i: usize = 0;
        proof {
            assert(self.spec_points().take(0) =~= Seq::<P>::empty());
        }
        while i < self.points.len()
            invariant
                0 <= i <= self.spec_points().len(),
                keep.len() == i,
                count <= i,
                forall|j: int|
                    0 <= j < i ==> call_ensures(predicate, (&self.spec_points()[j],), keep[j]),
                count == mask_filter(self.spec_points().take(i as int), keep).len(),
                forall|j: int|
                    0 <= j < self.spec_points().len() ==> call_requires(
                        predicate,
                        (&self.spec_points()[j],),
                    ),
            decreases self.spec_points().len() - i,
        {
            let ghost keep0 = keep;
            let ghost s = self.spec_points();
            let b = predicate(&self.points[i]);
            if b {
                count = count + 1;
            }
            proof {
                keep = keep.push(b);
                assert(keep.drop_last() =~= keep0);
                assert(s.take(i as int + 1).drop_last() =~= s.take(i as int));
                assert(s.take(i as int + 1).last() == s[i as int]);
                assert(mask_filter(s.take(i as int + 1), keep) == mask_filter(
                    s.take(i as int),
                    keep0,
                ) + if b {
                    seq![s[i as int]]
                } else {
                    Seq::<P>::empty()
                });
            }
            i = i + 1;
        }
        proof {
            assert(self.spec_points().take(self.spec_points().len() as int)
                =~= self.spec_points());
        }
        count
    }

    /// Filter the viewed points with a predicate into a new vector: exactly
    /// the points a mask the predicate accepted keeps, in order.
    pub fn filter_collect<F: Fn(&P) -> bool>(&self, predicate: F) -> (r: Vec<P>)
        requires
            forall|i: int|
                0 <= i < self.spec_points().len() ==> call_requires(
                    predicate,
                    (&self.spec_points()[i],),
                ),
        ensures
            exists|keep: Seq<bool>|
                {
                    &&& keep.len() == self.spec_points().len()
                    &&& (forall|i: int|
                        0 <= i < keep.len() ==> call_ensures(
                            predicate,
                            (&self.spec_points()[i],),
                            keep[i],
                        ))
                    &&& r@ == mask_filter(self.spec_points(), keep)
                },
    {
        let mut result: Vec<P> = Vec::new();
        let ghost mut keep: Seq<bool> = Seq::empty();
        let mut i: usize = 0;
        proof {
            assert(self.spec_points().take(0) =~= Seq::<P>::empty());
        }
        while i < self.points.len()
            invariant
                0 <= i <= self.spec_points().len(),
                keep.len() == i,
                forall|j: int|
                    0 <= j < i ==> call_ensures(predicate, (&self.spec_points()[j],), keep[j]),
                result@ == mask_filter(self.spec_points().take(i as int), keep),
                forall|j: int|
                    0 <= j < self.spec_points().len() ==> call_requires(
                        predicate,
                        (&self.spec_points()[j],),
                    ),
            decreases self.spec_points().len() - i,
        {
            let ghost keep0 = keep;
            let ghost s = self.spec_points();
            let b = predicate(&self.points[i]);
            if b {
                result.push(self.points[i].cloned());
            }
            proof {
                keep = keep.push(b);
                assert(keep.drop_last() =~= keep0);
                assert(s.take(i as int + 1).drop_last() =~= s.take(i as int));
                assert(s.take(i as int + 1).last() == s[i as int]);
                assert(mask_filter(s.take(i as int + 1), keep) == mask_filter(
                    s.take(i as int),
                    keep0,
                ) + if b {
                    seq![s[i as int]]
                } else {
                    Seq::<P>::empty()
                });
                assert(result@ =~= mask_filter(s.take(i as int + 1), keep));
            }
            i = i + 1;
        }
        proof {
            assert(self.spec_points().take(self.spec_points().len() as int)
                =~= self.spec_points());
        }
        result
    }

    /// Map every viewed point into a new vector, one to one.
    pub fn map_collect<Q, F: Fn(&P) -> Q>(&self, mapper: F) -> (r: Vec<Q>)
        requires
            forall|i: int|
                0 <= i < self.spec_points().len() ==> call_requires(
                    mapper,
                    (&self.spec_points()[i],),
                ),
        ensures
            r@.len() == self.spec_points().len(),
            forall|i: int|
                0 <= i < self.spec_points().len() ==> call_ensures(
                    mapper,
                    (&self.spec_points()[i],),
                    #[trigger] r@[i],
                ),
    {
        let mut result: Vec<Q> = Vec::new();
        let mut i: usize = 0;
        while i < self.points.len()
            invariant
                0 <= i <= self.spec_points().len(),
                result@.len() == i,
                forall|j: int|
                    0 <= j < i ==> call_ensures(
                        mapper,
                        (&self.spec_points()[j],),
                        #[trigger] result@[j],
                    ),
                forall|j: int|
                    0 <= j < self.spec_points().len() ==> call_requires(
                        mapper,
                        (&self.spec_points()[j],),
                    ),
            decreases self.spec_points().len() - i,
        {
            result.push(mapper(&self.points[i]));
            i = i + 1;
        }
        result
    }

    /// Axis-aligned bounding box over the viewed points: the componentwise
    /// minimum and maximum, both attained. Nothing for an empty view.
    pub fn bounding_box(&self) -> (r: Option<(Position, Position)>)
        ensures
            match r {
                None => self.spec_points().len() == 0,
                Some((lo, hi)) => {
                    &&& self.spec_points().len() > 0
                    &&& (forall|i: int|
                        0 <= i < self.spec_points().len() ==> in_box(
                            lo,
                            hi,
                            #[trigger] self.spec_points()[i].spec_position(),
                        ))
                    &&& (exists|i: int|
                        0 <= i < self.spec_points().len() && (#[trigger] self.spec_points()[
                        i].spec_position()).x == lo.x)
                    &&& (exists|i: int|
                        0 <= i < self.spec_points().len() && (#[trigger] self.spec_points()[
                        i].spec_position()).y == lo.y)
                    &&& (exists|i: int|
                        0 <= i < self.spec_points().len() && (#[trigger] self.spec_points()[
                        i].spec_position()).z == lo.z)
                    &&& (exists|i: int|
                        0 <= i < self.spec_points().len() && (#[trigger] self.spec_points()[
                        i].spec_position()).x == hi.x)
                    &&& (exists|i: int|
                        0 <= i < self.spec_points().len() && (#[trigger] self.spec_points()[
                        i].spec_position()).y == hi.y)
                    &&& (exists|i: int|
                        0 <= i < self.spec_points().len() && (#[trigger] self.spec_points()[
                        i].spec_position()).z == hi.z)
                },
            },
    {
        if self.points.len() == 0 {
            return None;
        }
        let first = self.points[0].position();
        proof {
            assert(self.spec_points()[0].spec_position() == first);
        }
        let mut lo = first;
        let mut hi = first;
        let mut i: usize = 1;
        while i < self.points.len()
            invariant
                1 <= i <= self.spec_points().len(),
                forall|j: int|
                    0 <= j < i ==> in_box(lo, hi, #[trigger] self.spec_points()[j].spec_position()),
                exists|j: int|
                    0 <= j < i && (#[trigger] self.spec_points()[j].spec_position()).x == lo.x,
                exists|j: int|
                    0 <= j < i && (#[trigger] self.spec_points()[j].spec_position()).y == lo.y,
                exists|j: int|
                    0 <= j < i && (#[trigger] self.spec_points()[j].spec_position()).z == lo.z,
                exists|j: int|
                    0 <= j < i && (#[trigger] self.spec_points()[j].spec_position()).x == hi.x,
                exists|j: int|
                    0 <= j < i && (#[trigger] self.spec_points()[j].spec_position()).y == hi.y,
                exists|j: int|
                    0 <= j < i && (#[trigger] self.spec_points()[j].spec_position()).z == hi.z,
            decreases self.spec_points().len() - i,
        {
            let p = self.points[i].position();
            proof {
                assert(self.spec_points()[i as int].spec_position() == p);
            }
            if p.x < lo.x {
                lo.x = p.x;
            }
            if p.y < lo.y {
                lo.y = p.y;
            }
            if p.z < lo.z {
                lo.z = p.z;
            }
            if p.x > hi.x {
                hi.x = p.x;
            }
            if p.y > hi.y {
                hi.y = p.y;
            }
            if p.z > hi.z {
                hi.z = p.z;
            }
            i = i + 1;
        }
        Some((lo, hi))
    }

    /// Centroid of the viewed points: the componentwise floor of the average
    /// coordinate. Nothing for an empty view.
    pub fn centroid(&self) -> (r: Option<Position>)
        requires
            forall|i: int|
                0 <= i < self.spec_points().len() ==> in_range(
                    #[trigger] self.spec_points()[i].spec_position(),
                ),
        ensures
            match r {
                None => self.spec_points().len() == 0,
                Some(c) => {
                    &&& self.spec_points().len() > 0
                    &&& c.x == floor_div(
                        sum_axis(self.spec_points(), 0),
                        self.spec_points().len() as int,
                    )
                    &&& c.y == floor_div(
                        sum_axis(self.spec_points(), 1),
                        self.spec_points().len() as int,
                    )
                    &&& c.z == floor_div(
                        sum_axis(self.spec_points(), 2),
                        self.spec_points().len() as int,
                    )
                },
            },
    {
        let n = self.points.len();
        if n == 0 {
            return None;
        }
        let mut sx: i128 = 0;
        let mut sy: i128 = 0;
        let mut sz: i128 = 0;
        let mut i: usize = 0;
        proof {
            assert(self.spec_points().take(0) =~= Seq::<P>::empty());
        }
        while i < n
            invariant
                0 <= i <= n,
                n == self.spec_points().len(),
                forall|j: int|
                    0 <= j < self.spec_points().len() ==> in_range(
                        #[trigger] self.spec_points()[j].spec_position(),
                    ),
                sx == sum_axis(self.spec_points().take(i as int), 0),
                sy == sum_axis(self.spec_points().take(i as int), 1),
                sz == sum_axis(self.spec_points().take(i as int), 2),
                -(i as int) * COORD_LIMIT <= sx <= (i as int) * COORD_LIMIT,
                -(i as int) * COORD_LIMIT <= sy <= (i as int) * COORD_LIMIT,
                -(i as int) * COORD_LIMIT <= sz <= (i as int) * COORD_LIMIT,
            decreases n - i,
        {
            let ghost s = self.spec_points();
            let p = self.points[i].position();
            proof {
                assert(s[i as int].spec_position() == p);
                assert(s.take(i as int + 1).drop_last() =~= s.take(i as int));
                assert(s.take(i as int + 1).last() == s[i as int]);
                lemma_sum_step_bound(i as int, sx as int, p.x as int);
                lemma_sum_step_bound(i as int, sy as int, p.y as int);
                lemma_sum_step_bound(i as int, sz as int, p.z as int);
            }
            sx = sx + p.x as i128;
            sy = sy + p.y as i128;
            sz = sz + p.z as i128;
            i = i + 1;
        }
        proof {
            assert(self.spec_points().take(n as int) =~= self.spec_points());
            lemma_sum_axis_total_bound(i as int, sx as int);
            lemma_sum_axis_total_bound(i as int, sy as int);
            lemma_sum_axis_total_bound(i as int, sz as int);
        }
        let cx = div_floor_i128(sx, n);
        let cy = div_floor_i128(sy, n);
        let cz = div_floor_i128(sz, n);
        Some(Position { x: cx, y: cy, z: cz })
    }

    /// The index, point, and squared distance of a point closest to the
    /// query, exactly as a linear scan would find. Nothing for an empty view.
    pub fn find_closest(&self, query: &P) -> (r: Option<(usize, &'a P, u128)>)
        requires
            in_range(query.spec_position()),
            forall|i: int|
                0 <= i < self.spec_points().len() ==> in_range(
                    #[trigger] self.spec_points()[i].spec_position(),
                ),
        ensures
            match r {
                None => self.spec_points().len() == 0,
                Some((index, p, d)) => {
                    &&& index < self.spec_points().len()
                    &&& *p == self.spec_points()[index as int]
                    &&& d == dist_sq(query.spec_position(), p.spec_position())
                    &&& forall|i: int|
                        0 <= i < self.spec_points().len() ==> d <= dist_sq(
                            query.spec_position(),
                            #[trigger] self.spec_points()[i].spec_position(),
                        )
                },
            },
    {
        if self.points.len() == 0 {
            return None;
        }
        let qp = query.position();
        let mut best_index: usize = 0;
        proof {
            assert(in_range(self.spec_points()[0].spec_position()));
        }
        let mut best_dist = distance_squared(qp, self.points[0].position());
        let mut i: usize = 1;
        while i < self.points.len()
            invariant
                1 <= i <= self.spec_points().len(),
                in_range(qp),
                qp == query.spec_position(),
                forall|j: int|
                    0 <= j < self.spec_points().len() ==> in_range(
                        #[trigger] self.spec_points()[j].spec_position(),
                    ),
                best_index < i,
                best_dist == dist_sq(
                    qp,
                    self.spec_points()[best_index as int].spec_position(),
                ),
                forall|j: int|
                    0 <= j < i ==> best_dist <= dist_sq(
                        qp,
                        #[trigger] self.spec_points()[j].spec_position(),
                    ),
            decreases self.spec_points().len() - i,
        {
            proof {
                assert(in_range(self.spec_points()[i as int].spec_position()));
            }
            let d = distance_squared(qp, self.points[i].position());
            if d < best_dist {
                best_dist = d;
                best_index = i;
            }
            i = i + 1;
        }
        Some((best_index, &self.points[best_index], best_dist))
    }
}

impl<'a, P: Point> Clone for PointCloudView<'a, P> {
    fn clone(&self) -> (r: Self)
        ensures
            r.spec_points() == self.spec_points(),
            r.spec_metadata() == self.spec_metadata(),
    {
        Self { points: self.points, metadata: self.metadata }
    }
}

} // verus!
