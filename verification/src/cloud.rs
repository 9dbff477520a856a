//! Point cloud container.
//!
//! `PointCloud` owns a dense, insertion-ordered sequence of points of one
//! concrete point type plus its metadata; every mutating operation keeps
//! `metadata.width` consistent with the live point count.

use vstd::prelude::*;
use crate::error::{CloudError, CloudResult};
use crate::metadata::Metadata;
use crate::point::{axis_of, in_range, Point, Position, COORD_LIMIT};

verus! {

/// The elements of `s` kept by the boolean mask `keep`, in order.
pub open spec fn mask_filter<T>(s: Seq<T>, keep: Seq<bool>) -> Seq<T>
    recommends
        s.len() == keep.len(),
    decreases s.len(),
{
    if s.len() == 0 {
        Seq::empty()
    } else {
        mask_filter(s.drop_last(), keep.drop_last()) + if keep.len() == s.len() && keep.last() {
            seq![s.last()]
        } else {
            Seq::empty()
        }
    }
}

/// A mask of all-true entries keeps the whole sequence: filtering with a
/// predicate that accepts every point returns a cloud with the same points,
/// hence the same length and the same multiset.
pub proof fn lemma_mask_filter_all_true<T>(s: Seq<T>, keep: Seq<bool>)
    requires
        keep.len() == s.len(),
        forall|i: int| 0 <= i < keep.len() ==> keep[i],
    ensures
        mask_filter(s, keep) == s,
    decreases s.len(),
{
    if s.len() == 0 {
        assert(mask_filter(s, keep) =~= s);
    } else {
        lemma_mask_filter_all_true(s.drop_last(), keep.drop_last());
        assert(mask_filter(s, keep) =~= s);
    }
}

/// Every filtered sequence selects a subsequence: its multiset is contained
/// in the input's multiset, and its length never exceeds the input's.
pub proof fn lemma_mask_filter_submultiset<T>(s: Seq<T>, keep: Seq<bool>)
    requires
        keep.len() == s.len(),
    ensures
        mask_filter(s, keep).to_multiset().subset_of(s.to_multiset()),
        mask_filter(s, keep).len() <= s.len(),
    decreases s.len(),
{
    broadcast use vstd::seq_lib::group_to_multiset_ensures;

    if s.len() == 0 {
    } else {
        lemma_mask_filter_submultiset(s.drop_last(), keep.drop_last());
        assert(s =~= s.drop_last().push(s.last()));
        if keep.last() {
            assert(mask_filter(s, keep) =~= mask_filter(s.drop_last(), keep.drop_last()).push(
                s.last(),
            ));
        } else {
            assert(mask_filter(s, keep) =~= mask_filter(s.drop_last(), keep.drop_last()));
        }
        assert(s.to_multiset() =~= s.drop_last().to_multiset().insert(s.last()));
    }
}

/// Whether `p` lies within the inclusive axis-aligned box `[lo, hi]`.
pub open spec fn in_box(lo: Position, hi: Position, p: Position) -> bool {
    &&& lo.x <= p.x <= hi.x
    &&& lo.y <= p.y <= hi.y
    &&& lo.z <= p.z <= hi.z
}

/// Sum of the coordinates of all points in `s` on the given axis.
pub open spec fn sum_axis<P: Point>(s: Seq<P>, axis: int) -> int
    decreases s.len(),
{
    if s.len() == 0 {
        0
    } else {
        sum_axis(s.drop_last(), axis) + axis_of(s.last().spec_position(), axis)
    }
}

/// Floor division of `s` by a positive `n`.
pub open spec fn floor_div(s: int, n: int) -> int
    recommends
        n > 0,
{
    if s >= 0 {
        s / n
    } else {
        -((-s + n - 1) / n)
    }
}

/// Main point cloud container that owns point data.
#[derive(Clone, Debug)]
pub struct PointCloud<P: Point> {
    points: Vec<P>,
    metadata: Metadata,
}

impl<P: Point> PointCloud<P> {
    /// The points this cloud holds, in insertion order.
    pub closed spec fn spec_points(self) -> Seq<P> {
        self.points@
    }

    /// The metadata this cloud carries.
    pub closed spec fn spec_metadata(self) -> Metadata {
        self.metadata
    }

    /// Create a new empty point cloud.
    pub fn new() -> (r: Self)
        ensures
            r.spec_points() == Seq::<P>::empty(),
            r.spec_metadata().width == 0,
            r.spec_metadata().height == 1,
            !r.spec_metadata().is_organized,
            r.spec_metadata().sensor_origin == (Position { x: 0i64, y: 0i64, z: 0i64 }),
            r.spec_metadata().sensor_orientation@ == seq![1i64, 0i64, 0i64, 0i64],
            r.spec_metadata().custom_fields@ == Seq::<(String, String)>::empty(),
    {
        Self { points: Vec::new(), metadata: Metadata::default() }
    }

    /// Create a point cloud from a vector of points; unorganized metadata is
    /// derived from the length.
    pub fn from_points(points: Vec<P>) -> (r: Self)
        requires
            points@.len() <= u32::MAX,
        ensures
            r.spec_points() == points@,
            r.spec_metadata().width == points@.len(),
            r.spec_metadata().height == 1,
            !r.spec_metadata().is_organized,
            r.spec_metadata().sensor_origin == (Position { x: 0i64, y: 0i64, z: 0i64 }),
            r.spec_metadata().sensor_orientation@ == seq![1i64, 0i64, 0i64, 0i64],
            r.spec_metadata().custom_fields@ == Seq::<(String, String)>::empty(),
    {
        let metadata = Metadata::new_unorganized(points.len());
        Self { points, metadata }
    }

    /// Create an empty point cloud with reserved capacity.
    pub fn with_capacity(capacity: usize) -> (r: Self)
        ensures
            r.spec_points() == Seq::<P>::empty(),
            r.spec_metadata().width == 0,
            r.spec_metadata().height == 1,
            !r.spec_metadata().is_organized,
            r.spec_metadata().sensor_origin == (Position { x: 0i64, y: 0i64, z: 0i64 }),
            r.spec_metadata().sensor_orientation@ == seq![1i64, 0i64, 0i64, 0i64],
            r.spec_metadata().custom_fields@ == Seq::<(String, String)>::empty(),
    {
        Self { points: Vec::with_capacity(capacity), metadata: Metadata::new_unorganized(0) }
    }

    /// Create a point cloud from points and explicit metadata.
    pub fn from_points_and_metadata(points: Vec<P>, metadata: Metadata) -> (r: Self)
        ensures
            r.spec_points() == points@,
            r.spec_metadata() == metadata,
    {
        Self { points, metadata }
    }

    /// Get the number of points.
    pub fn len(&self) -> (r: usize)
        ensures
            r == self.spec_points().len(),
    {
        self.points.len()
    }

    /// Check whether the point cloud is empty.
    pub fn is_empty(&self) -> (r: bool)
        ensures
            r == (self.spec_points().len() == 0),
    {
        self.points.len() == 0
    }

    /// Get the points as a slice.
    pub fn points(&self) -> (r: &[P])
        ensures
            r@ == self.spec_points(),
    {
        self.points.as_slice()
    }

    /// Get the metadata.
    pub fn metadata(&self) -> (r: &Metadata)
        ensures
            *r == self.spec_metadata(),
    {
        &self.metadata
    }

    /// Replace the metadata.
    pub fn set_metadata(&mut self, metadata: Metadata)
        ensures
            final(self).spec_points() == old(self).spec_points(),
            final(self).spec_metadata() == metadata,
    {
        self.metadata = metadata;
    }

    /// Add a point to the cloud, keeping the width consistent.
    pub fn push(&mut self, point: P)
        requires
            old(self).spec_points().len() + 1 <= u32::MAX,
        ensures
            final(self).spec_points() == old(self).spec_points().push(point),
            final(self).spec_metadata().width == final(self).spec_points().len(),
            final(self).spec_metadata() == (Metadata {
                width: final(self).spec_metadata().width,
                ..old(self).spec_metadata()
            }),
    {
        self.points.push(point);
        self.metadata.width = self.points.len() as u32;
    }

    /// Append points to the cloud, keeping the width consistent.
    pub fn extend(&mut self, points: Vec<P>)
        requires
            old(self).spec_points().len() + points@.len() <= u32::MAX,
        ensures
            final(self).spec_points() == old(self).spec_points() + points@,
            final(self).spec_metadata().width == final(self).spec_points().len(),
            final(self).spec_metadata() == (Metadata {
                width: final(self).spec_metadata().width,
                ..old(self).spec_metadata()
            }),
    {
        let mut points = points;
        self.points.append(&mut points);
        self.metadata.width = self.points.len() as u32;
    }

    /// Get a point by index.
    pub fn get(&self, index: usize) -> (r: Option<&P>)
        ensures
            match r {
                Some(p) => index < self.spec_points().len() && *p == self.spec_points()[
                    index as int],
                None => index >= self.spec_points().len(),
            },
    {
        if index < self.points.len() {
            Some(&self.points[index])
        } else {
            None
        }
    }

    /// Remove a point by index; an index past the end is rejected.
    pub fn remove(&mut self, index: usize) -> (r: CloudResult<P>)
        requires
            old(self).spec_points().len() <= u32::MAX,
        ensures
            match r {
                Ok(p) => {
                    &&& index < old(self).spec_points().len()
                    &&& p == old(self).spec_points()[index as int]
                    &&& final(self).spec_points() == old(self).spec_points().remove(index as int)
                    &&& final(self).spec_metadata().width == final(self).spec_points().len()
                    &&& final(self).spec_metadata() == (Metadata {
                        width: final(self).spec_metadata().width,
                        ..old(self).spec_metadata()
                    })
                },
                Err(e) => {
                    &&& index >= old(self).spec_points().len()
                    &&& *final(self) == *old(self)
                    &&& e matches CloudError::InvalidParameter(_)
                },
            },
    {
        if index >= self.points.len() {
            return Err(CloudError::invalid_parameter("point index out of bounds".to_owned()));
        }
        let point = self.points.remove(index);
        self.metadata.width = self.points.len() as u32;
        Ok(point)
    }

    /// Clear all points.
    pub fn clear(&mut self)
        ensures
            final(self).spec_points() == Seq::<P>::empty(),
            final(self).spec_metadata().width == 0,
            final(self).spec_metadata() == (Metadata {
                width: 0,
                ..old(self).spec_metadata()
            }),
    {
        self.points.clear();
        self.metadata.width = 0;
    }

    /// Reserve capacity for additional points.
    pub fn reserve(&mut self, additional: usize)
        ensures
            final(self).spec_points() == old(self).spec_points(),
            final(self).spec_metadata() == old(self).spec_metadata(),
    {
        self.points.reserve(additional);
    }

    /// Filter points with a predicate, consuming the cloud. The result holds
    /// exactly the points the predicate kept, in order, and its width tracks
    /// the new length.
    pub fn filter<F: Fn(&P) -> bool>(self, predicate: F) -> (r: Self)
        requires
            self.spec_points().len() <= u32::MAX,
            forall|i: int|
                0 <= i < self.spec_points().len() ==> call_requires(
                    predicate,
                    (&self.spec_points()[i],),
                ),
        ensures
            exists|keep: Seq<bool>|
                {
                    &&& keep.len() == self.spec_points().len()
                    &&& (forall|i: int|
                        0 <= i < keep.len() ==> call_ensures(
                            predicate,
                            (&self.spec_points()[i],),
                            keep[i],
                        ))
                    &&& r.spec_points() == mask_filter(self.spec_points(), keep)
                },
            r.spec_metadata().width == r.spec_points().len(),
            r.spec_metadata() == (Metadata {
                width: r.spec_metadata().width,
                ..self.spec_metadata()
            }),
    {
        let mut result: Vec<P> = Vec::new();
        let ghost mut keep: Seq<bool> = Seq::empty();
        let mut i: usize = 0;
        proof {
            assert(self.spec_points().take(0) =~= Seq::<P>::empty());
        }
        while i < self.points.len()
            invariant
                0 <= i <= self.spec_points().len(),
                self.spec_points().len() <= u32::MAX,
                keep.len() == i,
                forall|j: int|
                    0 <= j < i ==> call_ensures(predicate, (&self.spec_points()[j],), keep[j]),
                result@ == mask_filter(self.spec_points().take(i as int), keep),
                forall|j: int|
                    0 <= j < self.spec_points().len() ==> call_requires(
                        predicate,
                        (&self.spec_points()[j],),
                    ),
            decreases self.spec_points().len() - i,
        {
            let ghost keep0 = keep;
            let ghost s = self.spec_points();
            let b = predicate(&self.points[i]);
            if b {
                result.push(self.points[i].cloned());
            }
            proof {
                keep = keep.push(b);
                assert(keep.drop_last() =~= keep0);
                assert(s.take(i as int + 1).drop_last() =~= s.take(i as int));
                assert(s.take(i as int + 1).last() == s[i as int]);
                assert(mask_filter(s.take(i as int + 1), keep) == mask_filter(
                    s.take(i as int),
                    keep0,
                ) + if b {
                    seq![s[i as int]]
                } else {
                    Seq::<P>::empty()
                });
                assert(result@ =~= mask_filter(s.take(i as int + 1), keep));
            }
            i = i + 1;
        }
        proof {
            assert(self.spec_points().take(self.spec_points().len() as int) =~= self.spec_points());
            lemma_mask_filter_submultiset(self.spec_points(), keep);
        }
        let mut metadata = self.metadata;
        metadata.width = result.len() as u32;
        Self { points: result, metadata }
    }

    /// Transform every point with a mapping function, consuming the cloud.
    /// Length and metadata are preserved one to one.
    pub fn map<Q: Point, F: Fn(P) -> Q>(self, mapper: F) -> (r: PointCloud<Q>)
        requires
            forall|i: int|
                0 <= i < self.spec_points().len() ==> call_requires(
                    mapper,
                    (self.spec_points()[i],),
                ),
        ensures
            r.spec_points().len() == self.spec_points().len(),
            forall|i: int|
                0 <= i < self.spec_points().len() ==> call_ensures(
                    mapper,
                    (self.spec_points()[i],),
                    #[trigger] r.spec_points()[i],
                ),
            r.spec_metadata() == self.spec_metadata(),
    {
        let mut result: Vec<Q> = Vec::new();
        let mut i: usize = 0;
        while i < self.points.len()
            invariant
                0 <= i <= self.spec_points().len(),
                result@.len() == i,
                forall|j: int|
                    0 <= j < i ==> call_ensures(
                        mapper,
                        (self.spec_points()[j],),
                        #[trigger] result@[j],
                    ),
                forall|j: int|
                    0 <= j < self.spec_points().len() ==> call_requires(
                        mapper,
                        (self.spec_points()[j],),
                    ),
            decreases self.spec_points().len() - i,
        {
            result.push(mapper(self.points[i].cloned()));
            i = i + 1;
        }
        PointCloud::<Q> { points: result, metadata: self.metadata }
    }

    /// Axis-aligned bounding box over all points: the componentwise minimum
    /// and maximum, both attained. Nothing for an empty cloud.
    pub fn bounding_box(&self) -> (r: Option<(Position, Position)>)
        ensures
            match r {
                None => self.spec_points().len() == 0,
                Some((lo, hi)) => {
                    &&& self.spec_points().len() > 0
                    &&& (forall|i: int|
                        0 <= i < self.spec_points().len() ==> in_box(
                            lo,
                            hi,
                            #[trigger] self.spec_points()[i].spec_position(),
                        ))
                    &&& (exists|i: int|
                        0 <= i < self.spec_points().len() && (#[trigger] self.spec_points()[
                            i].spec_position()).x == lo.x)
                    &&& (exists|i: int|
                        0 <= i < self.spec_points().len() && (#[trigger] self.spec_points()[
                            i].spec_position()).y == lo.y)
                    &&& (exists|i: int|
                        0 <= i < self.spec_points().len() && (#[trigger] self.spec_points()[
                            i].spec_position()).z == lo.z)
                    &&& (exists|i: int|
                        0 <= i < self.spec_points().len() && (#[trigger] self.spec_points()[
                            i].spec_position()).x == hi.x)
                    &&& (exists|i: int|
                        0 <= i < self.spec_points().len() && (#[trigger] self.spec_points()[
                            i].spec_position()).y == hi.y)
                    &&& (exists|i: int|
                        0 <= i < self.spec_points().len() && (#[trigger] self.spec_points()[
                            i].spec_position()).z == hi.z)
                },
            },
    {
        if self.points.len() == 0 {
            return None;
        }
        let first = self.points[0].position();
        proof {
            assert(self.spec_points()[0].spec_position() == first);
        }
        let mut lo = first;
        let mut hi = first;
        let mut i: usize = 1;
        while i < self.points.len()
            invariant
                1 <= i <= self.spec_points().len(),
                forall|j: int|
                    0 <= j < i ==> in_box(lo, hi, #[trigger] self.spec_points()[j].spec_position()),
                exists|j: int|
                    0 <= j < i && (#[trigger] self.spec_points()[j].spec_position()).x == lo.x,
                exists|j: int|
                    0 <= j < i && (#[trigger] self.spec_points()[j].spec_position()).y == lo.y,
                exists|j: int|
                    0 <= j < i && (#[trigger] self.spec_points()[j].spec_position()).z == lo.z,
                exists|j: int|
                    0 <= j < i && (#[trigger] self.spec_points()[j].spec_position()).x == hi.x,
                exists|j: int|
                    0 <= j < i && (#[trigger] self.spec_points()[j].spec_position()).y == hi.y,
                exists|j: int|
                    0 <= j < i && (#[trigger] self.spec_points()[j].spec_position()).z == hi.z,
            decreases self.spec_points().len() - i,
        {
            let p = self.points[i].position();
            proof {
                assert(self.spec_points()[i as int].spec_position() == p);
            }
            if p.x < lo.x {
                lo.x = p.x;
            }
            if p.y < lo.y {
                lo.y = p.y;
            }
            if p.z < lo.z {
                lo.z = p.z;
            }
            if p.x > hi.x {
                hi.x = p.x;
            }
            if p.y > hi.y {
                hi.y = p.y;
            }
            if p.z > hi.z {
                hi.z = p.z;
            }
            i = i + 1;
        }
        Some((lo, hi))
    }

    /// Centroid of the point cloud: the componentwise floor of the average
    /// coordinate. Nothing for an empty cloud.
    pub fn centroid(&self) -> (r: Option<Position>)
        requires
            forall|i: int|
                0 <= i < self.spec_points().len() ==> in_range(
                    #[trigger] self.spec_points()[i].spec_position(),
                ),
        ensures
            match r {
                None => self.spec_points().len() == 0,
                Some(c) => {
                    &&& self.spec_points().len() > 0
                    &&& c.x == floor_div(
                        sum_axis(self.spec_points(), 0),
                        self.spec_points().len() as int,
                    )
                    &&& c.y == floor_div(
                        sum_axis(self.spec_points(), 1),
                        self.spec_points().len() as int,
                    )
                    &&& c.z == floor_div(
                        sum_axis(self.spec_points(), 2),
                        self.spec_points().len() as int,
                    )
                },
            },
    {
        let n = self.points.len();
        if n == 0 {
            return None;
        }
        let mut sx: i128 = 0;
        let mut sy: i128 = 0;
        let mut sz: i128 = 0;
        let mut i: usize = 0;
        proof {
            assert(self.spec_points().take(0) =~= Seq::<P>::empty());
        }
        while i < n
            invariant
                0 <= i <= n,
                n == self.spec_points().len(),
                forall|j: int|
                    0 <= j < self.spec_points().len() ==> in_range(
                        #[trigger] self.spec_points()[j].spec_position(),
                    ),
                sx == sum_axis(self.spec_points().take(i as int), 0),
                sy == sum_axis(self.spec_points().take(i as int), 1),
                sz == sum_axis(self.spec_points().take(i as int), 2),
                -(i as int) * COORD_LIMIT <= sx <= (i as int) * COORD_LIMIT,
                -(i as int) * COORD_LIMIT <= sy <= (i as int) * COORD_LIMIT,
                -(i as int) * COORD_LIMIT <= sz <= (i as int) * COORD_LIMIT,
            decreases n - i,
        {
            let ghost s = self.spec_points();
            let p = self.points[i].position();
            proof {
                assert(s[i as int].spec_position() == p);
                assert(s.take(i as int + 1).drop_last() =~= s.take(i as int));
                assert(s.take(i as int + 1).last() == s[i as int]);
                lemma_sum_step_bound(i as int, sx as int, p.x as int);
                lemma_sum_step_bound(i as int, sy as int, p.y as int);
                lemma_sum_step_bound(i as int, sz as int, p.z as int);
            }
            sx = sx + p.x as i128;
            sy = sy + p.y as i128;
            sz = sz + p.z as i128;
            i = i + 1;
        }
        proof {
            assert(self.spec_points().take(n as int) =~= self.spec_points());
            lemma_sum_axis_total_bound(i as int, sx as int);
            lemma_sum_axis_total_bound(i as int, sy as int);
            lemma_sum_axis_total_bound(i as int, sz as int);
        }
        let cx = div_floor_i128(sx, n);
        let cy = div_floor_i128(sy, n);
        let cz = div_floor_i128(sz, n);
        Some(Position { x: cx, y: cy, z: cz })
    }

    /// Crop the point cloud to an inclusive axis-aligned box, consuming it.
    pub fn crop(self, min_bounds: Position, max_bounds: Position) -> (r: Self)
        requires
            self.spec_points().len() <= u32::MAX,
        ensures
            r.spec_points() == self.spec_points().filter(
                |p: P| in_box(min_bounds, max_bounds, p.spec_position()),
            ),
            r.spec_metadata().width == r.spec_points().len(),
            r.spec_metadata() == (Metadata {
                width: r.spec_metadata().width,
                ..self.spec_metadata()
            }),
    {
        let ghost pred = |p: P| in_box(min_bounds, max_bounds, p.spec_position());
        let mut result: Vec<P> = Vec::new();
        let mut i: usize = 0;
        proof {
            assert(self.spec_points().take(0) =~= Seq::<P>::empty());
            assert(self.spec_points().take(0).filter(pred) =~= Seq::<P>::empty());
        }
        while i < self.points.len()
            invariant
                0 <= i <= self.spec_points().len(),
                self.spec_points().len() <= u32::MAX,
                result@ == self.spec_points().take(i as int).filter(pred),
                pred == (|p: P| in_box(min_bounds, max_bounds, p.spec_position())),
            decreases self.spec_points().len() - i,
        {
            let ghost s = self.spec_points();
            let p = self.points[i].position();
            let keep = min_bounds.x <= p.x && p.x <= max_bounds.x && min_bounds.y <= p.y && p.y
                <= max_bounds.y && min_bounds.z <= p.z && p.z <= max_bounds.z;
            if keep {
                result.push(self.points[i].cloned());
            }
            proof {
                assert(s[i as int].spec_position() == p);
                assert(s.take(i as int + 1).drop_last() =~= s.take(i as int));
                assert(s.take(i as int + 1).last() == s[i as int]);
                reveal(Seq::filter);
            }
            i = i + 1;
        }
        proof {
            let ghost s = self.spec_points();
            assert(s.take(s.len() as int) =~= s);
            s.lemma_filter_len(pred);
        }
        let mut metadata = self.metadata;
        metadata.width = result.len() as u32;
        Self { points: result, metadata }
    }

    /// Split the cloud into its points and its metadata.
    pub fn into_parts(self) -> (r: (Vec<P>, Metadata))
        ensures
            r.0@ == self.spec_points(),
            r.1 == self.spec_metadata(),
    {
        let PointCloud { points, metadata } = self;
        (points, metadata)
    }

    /// Convert to shared ownership.
    pub fn into_shared(self) -> (r: std::sync::Arc<Self>)
        ensures
            *r == self,
    {
        std::sync::Arc::new(self)
    }
}

/// Adding one in-range coordinate moves a bounded partial sum by at most one
/// more step of the coordinate limit.
pub(crate) proof fn lemma_sum_step_bound(i: int, s: int, c: int)
    requires
        i >= 0,
        -i * COORD_LIMIT <= s <= i * COORD_LIMIT,
        -COORD_LIMIT <= c <= COORD_LIMIT,
    ensures
        -(i + 1) * COORD_LIMIT <= s + c <= (i + 1) * COORD_LIMIT,
{
    assert((i + 1) * COORD_LIMIT == i * COORD_LIMIT + COORD_LIMIT) by (nonlinear_arith);
    assert(-(i + 1) * COORD_LIMIT == -i * COORD_LIMIT - COORD_LIMIT) by (nonlinear_arith);
}

/// A partial sum of at most `usize::MAX` in-range coordinates stays well
/// within the 128-bit range.
pub(crate) proof fn lemma_sum_axis_total_bound(i: int, s: int)
    requires
        0 <= i <= 0xFFFF_FFFF_FFFF_FFFF,
        -i * COORD_LIMIT <= s <= i * COORD_LIMIT,
    ensures
        -0x4000_0000_0000_0000_0000_0000_0000_0000 < s
            < 0x4000_0000_0000_0000_0000_0000_0000_0000,
{
    assert(i * COORD_LIMIT < 0x4000_0000_0000_0000_0000_0000_0000_0000) by (nonlinear_arith)
        requires
            0 <= i <= 0xFFFF_FFFF_FFFF_FFFF,
    ;
    assert(-i * COORD_LIMIT > -0x4000_0000_0000_0000_0000_0000_0000_0000) by (nonlinear_arith)
        requires
            0 <= i <= 0xFFFF_FFFF_FFFF_FFFF,
    ;
}

/// Floor division of a bounded 128-bit value by a positive count, exact per
/// `floor_div`; the result of averaging in-range coordinates is in range.
pub(crate) fn div_floor_i128(s: i128, n: usize) -> (r: i64)
    requires
        n > 0,
        -(n as int) * COORD_LIMIT <= s <= (n as int) * COORD_LIMIT,
    ensures
        r == floor_div(s as int, n as int),
{
    proof {
        lemma_floor_div_in_range(s as int, n as int);
    }
    if s >= 0 {
        let q = (s as u128) / (n as u128);
        proof {
            assert(floor_div(s as int, n as int) == s as int / n as int);
        }
        q as i64
    } else {
        let m = (-s) as u128;
        let q = (m + (n as u128) - 1) / (n as u128);
        proof {
            assert(m == -(s as int));
            assert(floor_div(s as int, n as int) == -((m as int + n as int - 1) / n as int));
        }
        -(q as i64)
    }
}

/// The floor of an average of values bounded by the coordinate limit is
/// itself bounded by the coordinate limit.
proof fn lemma_floor_div_in_range(s: int, n: int)
    requires
        n > 0,
        -n * COORD_LIMIT <= s <= n * COORD_LIMIT,
    ensures
        -COORD_LIMIT <= floor_div(s, n) <= COORD_LIMIT,
        s >= 0 ==> 0 <= s / n <= COORD_LIMIT,
        s < 0 ==> 0 <= (-s + n - 1) / n <= COORD_LIMIT,
{
    if s >= 0 {
        assert(0 <= s / n <= COORD_LIMIT) by (nonlinear_arith)
            requires
                n > 0,
                0 <= s <= n * COORD_LIMIT,
        ;
    } else {
        let m = -s + n - 1;
        assert(m < n * (COORD_LIMIT + 1)) by (nonlinear_arith)
            requires
                n > 0,
                -n * COORD_LIMIT <= s < 0,
                m == -s + n - 1,
        ;
        assert(0 <= m / n <= COORD_LIMIT) by (nonlinear_arith)
            requires
                n > 0,
                0 <= m < n * (COORD_LIMIT + 1),
        ;
    }
}

} // verus!
