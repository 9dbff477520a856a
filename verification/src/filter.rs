//! Filtering algorithms for point clouds: pass-through range filtering,
//! voxel downsampling, and radius outlier removal.

use vstd::prelude::*;
use crate::cloud::{floor_div, PointCloud};
use crate::metadata::Metadata;
use crate::point::{axis_of, dist_sq, distance_squared, in_range, Point, Position};

verus! {

/// Coordinate axis selector.
#[derive(Clone, Copy, Debug, PartialEq, Eq, Structural)]
pub enum Axis {
    X,
    Y,
    Z,
}

/// The number of an axis: x is 0, y is 1, z is 2.
pub open spec fn axis_num(a: Axis) -> int {
    match a {
        Axis::X => 0,
        Axis::Y => 1,
        Axis::Z => 2,
    }
}

/// The voxel a position falls in: its coordinates divided by the voxel
/// size, rounding down.
pub open spec fn voxel_key(p: Position, vs: int) -> (int, int, int) {
    (floor_div(p.x as int, vs), floor_div(p.y as int, vs), floor_div(p.z as int, vs))
}

/// Whether some point of `s` falls in the given voxel.
pub open spec fn has_voxel<P: Point>(s: Seq<P>, key: (int, int, int), vs: int) -> bool {
    exists|j: int| 0 <= j < s.len() && voxel_key(#[trigger] s[j].spec_position(), vs) == key
}

/// One representative per occupied voxel: the first point of the sequence
/// that falls in each voxel, in input order.
pub open spec fn first_per_voxel<P: Point>(s: Seq<P>, vs: int) -> Seq<P>
    decreases s.len(),
{
    if s.len() == 0 {
        Seq::empty()
    } else {
        let rest = first_per_voxel(s.drop_last(), vs);
        if has_voxel(s.drop_last(), voxel_key(s.last().spec_position(), vs), vs) {
            rest
        } else {
            rest.push(s.last())
        }
    }
}

/// The representatives cover exactly the voxels the input occupies.
proof fn lemma_first_per_voxel_keys<P: Point>(s: Seq<P>, vs: int)
    ensures
        forall|key: (int, int, int)| #[trigger]
            has_voxel(first_per_voxel(s, vs), key, vs) <==> has_voxel(s, key, vs),
    decreases s.len(),
{
    if s.len() == 0 {
    } else {
        lemma_first_per_voxel_keys(s.drop_last(), vs);
        let rest = first_per_voxel(s.drop_last(), vs);
        let lastkey = voxel_key(s.last().spec_position(), vs);
        assert forall|key: (int, int, int)| #[trigger]
            has_voxel(first_per_voxel(s, vs), key, vs) implies has_voxel(s, key, vs) by {
            let out = first_per_voxel(s, vs);
            let j = choose|j: int|
                0 <= j < out.len() && voxel_key(out[j].spec_position(), vs) == key;
            if has_voxel(s.drop_last(), lastkey, vs) {
                assert(has_voxel(s.drop_last(), key, vs));
                let t = choose|t: int|
                    0 <= t < s.drop_last().len() && voxel_key(
                        s.drop_last()[t].spec_position(),
                        vs,
                    ) == key;
                assert(voxel_key(s[t].spec_position(), vs) == key);
            } else {
                if j < rest.len() {
                    assert(has_voxel(rest, key, vs));
                    let t = choose|t: int|
                        0 <= t < s.drop_last().len() && voxel_key(
                            s.drop_last()[t].spec_position(),
                            vs,
                        ) == key;
                    assert(voxel_key(s[t].spec_position(), vs) == key);
                } else {
                    assert(out[j] == s.last());
                    assert(voxel_key(s[s.len() - 1].spec_position(), vs) == key);
                }
            }
        };
        assert forall|key: (int, int, int)| #[trigger] has_voxel(s, key, vs) implies has_voxel(
            first_per_voxel(s, vs),
            key,
        vs) by {
            let out = first_per_voxel(s, vs);
            let j = choose|j: int| 0 <= j < s.len() && voxel_key(s[j].spec_position(), vs) == key;
            if j < s.len() - 1 {
                assert(s.drop_last()[j] == s[j]);
                assert(has_voxel(s.drop_last(), key, vs));
                assert(has_voxel(rest, key, vs));
                let t = choose|t: int|
                    0 <= t < rest.len() && voxel_key(rest[t].spec_position(), vs) == key;
                if has_voxel(s.drop_last(), lastkey, vs) {
                    assert(out[t] == rest[t]);
                } else {
                    assert(out[t] == rest[t]);
                }
            } else {
                if has_voxel(s.drop_last(), lastkey, vs) {
                    assert(has_voxel(rest, key, vs));
                    let t = choose|t: int|
                        0 <= t < rest.len() && voxel_key(rest[t].spec_position(), vs) == key;
                    assert(out[t] == rest[t]);
                } else {
                    assert(out[out.len() - 1] == s.last());
                }
            }
        };
    }
}

/// Floor division of a coordinate by a positive voxel size.
fn div_floor_i64(a: i64, b: i64) -> (r: i64)
    requires
        b > 0,
    ensures
        r == floor_div(a as int, b as int),
{
    if a >= 0 {
        proof {
            vstd::arithmetic::div_mod::lemma_div_pos_is_pos(a as int, b as int);
            vstd::arithmetic::div_mod::lemma_fundamental_div_mod(a as int, b as int);
            assert(a as int / b as int <= a as int) by (nonlinear_arith)
                requires
                    a as int == b as int * (a as int / b as int) + (a as int % b as int),
                    0 <= a as int % b as int,
                    b as int >= 1,
                    a as int / b as int >= 0,
            ;
            assert(floor_div(a as int, b as int) == a as int / b as int);
        }
        let q = (a as u64) / (b as u64);
        q as i64
    } else {
        let m: i128 = -(a as i128);
        let ghost x = m as int + b as int - 1;
        proof {
            vstd::arithmetic::div_mod::lemma_div_pos_is_pos(x, b as int);
            vstd::arithmetic::div_mod::lemma_fundamental_div_mod(x, b as int);
            assert(x / b as int <= m as int) by (nonlinear_arith)
                requires
                    x == b as int * (x / b as int) + (x % b as int),
                    0 <= x % (b as int),
                    (x % (b as int)) < (b as int),
                    x == m as int + b as int - 1,
                    m as int >= 1,
                    b as int >= 1,
                    x / b as int >= 0,
            ;
            assert(floor_div(a as int, b as int) == -(x / b as int));
        }
        let q: u128 = ((m as u128) + (b as u128) - 1) / (b as u128);
        (-(q as i128)) as i64
    }
}

/// The voxel a point falls in, as executable coordinates.
fn voxel_of(p: Position, voxel_size: i64) -> (r: (i64, i64, i64))
    requires
        voxel_size > 0,
    ensures
        (r.0 as int, r.1 as int, r.2 as int) == voxel_key(p, voxel_size as int),
{
    (
        div_floor_i64(p.x, voxel_size),
        div_floor_i64(p.y, voxel_size),
        div_floor_i64(p.z, voxel_size),
    )
}

/// Filter points whose coordinate on `axis` lies in `[min_value, max_value]`,
/// inclusive; metadata is kept with the width re-derived.
pub fn pass_through_filter<P: Point>(
    cloud: PointCloud<P>,
    axis: Axis,
    min_value: i64,
    max_value: i64,
) -> (r: PointCloud<P>)
    requires
        cloud.spec_points().len() <= u32::MAX,
    ensures
        r.spec_points() == cloud.spec_points().filter(
            |p: P| min_value <= axis_of(p.spec_position(), axis_num(axis)) <= max_value,
        ),
        r.spec_metadata().width == r.spec_points().len(),
        r.spec_metadata() == (Metadata {
            width: r.spec_metadata().width,
            ..cloud.spec_metadata()
        }),
{
    let ghost pred = |p: P| min_value <= axis_of(p.spec_position(), axis_num(axis)) <= max_value;
    let ghost s = cloud.spec_points();
    let (points, mut metadata) = cloud.into_parts();
    let mut result: Vec<P> = Vec::new();
    let mut i: usize = 0;
    proof {
        assert(s.take(0) =~= Seq::<P>::empty());
        assert(s.take(0).filter(pred) =~= Seq::<P>::empty());
    }
    while i < points.len()
        invariant
            0 <= i <= s.len(),
            s.len() <= u32::MAX,
            points@ == s,
            result@ == s.take(i as int).filter(pred),
            pred == (|p: P|
                min_value <= axis_of(p.spec_position(), axis_num(axis)) <= max_value),
        decreases s.len() - i,
    {
        let p = points[i].position();
        let v = match axis {
            Axis::X => p.x,
            Axis::Y => p.y,
            Axis::Z => p.z,
        };
        if min_value <= v && v <= max_value {
            result.push(points[i].cloned());
        }
        proof {
            assert(s[i as int].spec_position() == p);
            assert(s.take(i as int + 1).drop_last() =~= s.take(i as int));
            assert(s.take(i as int + 1).last() == s[i as int]);
            reveal(Seq::filter);
        }
        i = i + 1;
    }
    proof {
        assert(s.take(s.len() as int) =~= s);
        s.lemma_filter_len(pred);
    }
    metadata.width = result.len() as u32;
    PointCloud::from_points_and_metadata(result, metadata)
}

/// Voxel downsampling: keep one representative per occupied voxel, the first
/// point of each voxel in input order. A non-positive voxel size returns the
/// cloud unchanged.
#[verifier::loop_isolation(false)]
pub fn voxel_downsample<P: Point>(cloud: PointCloud<P>, voxel_size: i64) -> (r: PointCloud<P>)
    requires
        cloud.spec_points().len() <= u32::MAX,
    ensures
        voxel_size <= 0 ==> r.spec_points() == cloud.spec_points() && r.spec_metadata()
            == cloud.spec_metadata(),
        voxel_size > 0 ==> {
            &&& r.spec_points() == first_per_voxel(cloud.spec_points(), voxel_size as int)
            &&& r.spec_metadata().width == r.spec_points().len()
            &&& r.spec_metadata().height == 1
            &&& !r.spec_metadata().is_organized
        },
{
    if voxel_size <= 0 {
        return cloud;
    }
    let ghost s = cloud.spec_points();
    let ghost vs = voxel_size as int;
    let (points, metadata) = cloud.into_parts();
    let mut result: Vec<P> = Vec::new();
    let mut i: usize = 0;
    proof {
        assert(s.take(0) =~= Seq::<P>::empty());
        assert(result@ =~= first_per_voxel(s.take(0), vs));
    }
    while i < points.len()
        invariant
            0 <= i <= s.len(),
            s.len() <= u32::MAX,
            voxel_size > 0,
            vs == voxel_size as int,
            points@ == s,
            result@ == first_per_voxel(s.take(i as int), vs),
            result@.len() <= i,
        decreases s.len() - i,
    {
        let p = points[i].position();
        let key = voxel_of(p, voxel_size);
        let ghost prefix = s.take(i as int);
        proof {
            assert(s[i as int].spec_position() == p);
            lemma_first_per_voxel_keys(prefix, vs);
        }
        let mut seen = false;
        let mut j: usize = 0;
        while j < result.len()
            invariant
                0 <= j <= result@.len(),
                voxel_size > 0,
                vs == voxel_size as int,
                seen ==> has_voxel(result@, voxel_key(p, vs), vs),
                !seen ==> forall|t: int|
                    0 <= t < j ==> voxel_key(#[trigger] result@[t].spec_position(), vs)
                        != voxel_key(p, vs),
            decreases result@.len() - j,
        {
            if !seen {
                let q = result[j].position();
                let qkey = voxel_of(q, voxel_size);
                proof {
                    assert(result@[j as int].spec_position() == q);
                    assert(voxel_key(q, vs) == (qkey.0 as int, qkey.1 as int, qkey.2 as int));
                    assert(voxel_key(p, vs) == (key.0 as int, key.1 as int, key.2 as int));
                }
                if qkey.0 == key.0 && qkey.1 == key.1 && qkey.2 == key.2 {
                    seen = true;
                    proof {
                        assert(voxel_key(q, vs) == voxel_key(p, vs));
                    }
                } else {
                    proof {
                        assert(voxel_key(q, vs) != voxel_key(p, vs));
                    }
                }
            }
            j = j + 1;
        }
        proof {
            assert(seen == has_voxel(result@, voxel_key(p, vs), vs));
            assert(has_voxel(result@, voxel_key(p, vs), vs) == has_voxel(
                prefix,
                voxel_key(p, vs),
                vs,
            ));
            assert(s.take(i as int + 1).drop_last() =~= prefix);
            assert(s.take(i as int + 1).last() == s[i as int]);
        }
        if !seen {
            result.push(points[i].cloned());
        }
        i = i + 1;
    }
    proof {
        assert(s.take(s.len() as int) =~= s);
    }
    PointCloud::from_points(result)
}

/// How many points of `s` lie within the radius of `p`, itself and exact
/// duplicates excluded.
pub open spec fn neighbor_count<P: Point>(s: Seq<P>, p: Position, rsq: int) -> int
    decreases s.len(),
{
    if s.len() == 0 {
        0
    } else {
        neighbor_count(s.drop_last(), p, rsq) + if 0 < dist_sq(p, s.last().spec_position())
            <= rsq {
            1int
        } else {
            0int
        }
    }
}

/// Remove points with fewer than `min_neighbors` other points within
/// `radius` (inclusive): a full pairwise scan, keeping input order.
pub fn remove_radius_outliers<P: Point>(
    cloud: PointCloud<P>,
    radius: u64,
    min_neighbors: usize,
) -> (r: PointCloud<P>)
    requires
        cloud.spec_points().len() <= u32::MAX,
        forall|i: int|
            0 <= i < cloud.spec_points().len() ==> in_range(
                #[trigger] cloud.spec_points()[i].spec_position(),
            ),
    ensures
        r.spec_points() == cloud.spec_points().filter(
            |p: P|
                neighbor_count(
                    cloud.spec_points(),
                    p.spec_position(),
                    (radius as int) * (radius as int),
                ) >= min_neighbors,
        ),
        r.spec_metadata().width == r.spec_points().len(),
        r.spec_metadata().height == 1,
        !r.spec_metadata().is_organized,
{
    let ghost s = cloud.spec_points();
    proof {
        crate::point::lemma_sq_bound(radius as int, 0xFFFF_FFFF_FFFF_FFFFint);
        assert(0xFFFF_FFFF_FFFF_FFFFint * 0xFFFF_FFFF_FFFF_FFFFint
            < 0x100000000000000000000000000000000int) by (nonlinear_arith);
    }
    let rsq: u128 = (radius as u128) * (radius as u128);
    let ghost pred = |p: P| neighbor_count(s, p.spec_position(), rsq as int) >= min_neighbors;
    let (points, _metadata) = cloud.into_parts();
    let mut result: Vec<P> = Vec::new();
    let mut i: usize = 0;
    proof {
        assert(s.take(0) =~= Seq::<P>::empty());
        assert(s.take(0).filter(pred) =~= Seq::<P>::empty());
    }
    while i < points.len()
        invariant
            0 <= i <= s.len(),
            s.len() <= u32::MAX,
            points@ == s,
            rsq == (radius as int) * (radius as int),
            forall|t: int| 0 <= t < s.len() ==> in_range(#[trigger] s[t].spec_position()),
            result@ == s.take(i as int).filter(pred),
            pred == (|p: P|
                neighbor_count(s, p.spec_position(), rsq as int) >= min_neighbors),
        decreases s.len() - i,
    {
        let p = points[i].position();
        proof {
            assert(s[i as int].spec_position() == p);
        }
        let mut count: usize = 0;
        let mut j: usize = 0;
        proof {
            assert(s.take(0) =~= Seq::<P>::empty());
        }
        while j < points.len()
            invariant
                0 <= j <= s.len(),
                points@ == s,
                count <= j,
                rsq == (radius as int) * (radius as int),
                in_range(p),
                forall|t: int| 0 <= t < s.len() ==> in_range(#[trigger] s[t].spec_position()),
                count == neighbor_count(s.take(j as int), p, rsq as int),
            decreases s.len() - j,
        {
            let q = points[j].position();
            let d = distance_squared(p, q);
            proof {
                assert(s[j as int].spec_position() == q);
                assert(s.take(j as int + 1).drop_last() =~= s.take(j as int));
                assert(s.take(j as int + 1).last() == s[j as int]);
            }
            if 0 < d && d <= rsq {
                count = count + 1;
            }
            j = j + 1;
        }
        proof {
            assert(s.take(s.len() as int) =~= s);
            assert(count == neighbor_count(s, p, rsq as int));
            assert(s.take(i as int + 1).drop_last() =~= s.take(i as int));
            assert(s.take(i as int + 1).last() == s[i as int]);
            reveal(Seq::filter);
        }
        if count >= min_neighbors {
            result.push(points[i].cloned());
        }
        i = i + 1;
    }
    proof {
        assert(s.take(s.len() as int) =~= s);
        s.lemma_filter_len(pred);
    }
    PointCloud::from_points(result)
}

/// Filtering methods on the point cloud container itself, mirroring the
/// free filtering functions. Statistical outlier removal thresholds on
/// floating-point statistics and lives outside the verified library.
pub trait FilterExt<P: Point>: Sized {
    /// The points the implementing container holds.
    spec fn ext_points(&self) -> Seq<P>;

    /// The metadata the implementing container carries.
    spec fn ext_metadata(&self) -> Metadata;

    /// Apply voxel downsampling.
    fn voxel_downsample(self, voxel_size: i64) -> (r: PointCloud<P>)
        requires
            self.ext_points().len() <= u32::MAX,
        ensures
            voxel_size <= 0 ==> r.spec_points() == self.ext_points() && r.spec_metadata()
                == self.ext_metadata(),
            voxel_size > 0 ==> {
                &&& r.spec_points() == first_per_voxel(self.ext_points(), voxel_size as int)
                &&& r.spec_metadata().width == r.spec_points().len()
                &&& r.spec_metadata().height == 1
                &&& !r.spec_metadata().is_organized
            },
    ;

    /// Remove radius outliers.
    fn remove_radius_outliers(self, radius: u64, min_neighbors: usize) -> (r: PointCloud<P>)
        requires
            self.ext_points().len() <= u32::MAX,
            forall|i: int|
                0 <= i < self.ext_points().len() ==> in_range(
                    #[trigger] self.ext_points()[i].spec_position(),
                ),
        ensures
            r.spec_points() == self.ext_points().filter(
                |p: P|
                    neighbor_count(
                        self.ext_points(),
                        p.spec_position(),
                        (radius as int) * (radius as int),
                    ) >= min_neighbors,
            ),
            r.spec_metadata().width == r.spec_points().len(),
            r.spec_metadata().height == 1,
            !r.spec_metadata().is_organized,
    ;

    /// Apply a pass-through filter on one axis.
    fn pass_through(self, axis: Axis, min_value: i64, max_value: i64) -> (r: PointCloud<P>)
        requires
            self.ext_points().len() <= u32::MAX,
        ensures
            r.spec_points() == self.ext_points().filter(
                |p: P| min_value <= axis_of(p.spec_position(), axis_num(axis)) <= max_value,
            ),
            r.spec_metadata().width == r.spec_points().len(),
            r.spec_metadata() == (Metadata {
                width: r.spec_metadata().width,
                ..self.ext_metadata()
            }),
    ;
}

impl<P: Point> FilterExt<P> for PointCloud<P> {
    open spec fn ext_points(&self) -> Seq<P> {
        self.spec_points()
    }

    open spec fn ext_metadata(&self) -> Metadata {
        self.spec_metadata()
    }

    fn voxel_downsample(self, voxel_size: i64) -> (r: PointCloud<P>) {
        voxel_downsample(self, voxel_size)
    }

    fn remove_radius_outliers(self, radius: u64, min_neighbors: usize) -> (r: PointCloud<P>) {
        remove_radius_outliers(self, radius, min_neighbors)
    }

    fn pass_through(self, axis: Axis, min_value: i64, max_value: i64) -> (r: PointCloud<P>) {
        pass_through_filter(self, axis, min_value, max_value)
    }
}

} // verus!
