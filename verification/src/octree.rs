//! Octree for spatial partitioning of 3D points.
//!
//! The root covers a padded bounding box of the input; a leaf subdivides into
//! eight fixed octants once it holds more than `max_points_per_node` points
//! and its depth allows. Every stored point lies within the bounding box of
//! the node that holds it, and radius queries are proved to return exactly
//! the points an exhaustive linear scan would.

use vstd::prelude::*;
use vstd::multiset::Multiset;
use crate::point::{dist_sq, distance_squared, in_range, lemma_sq_bound, lemma_sq_monotone,
    lemma_sq_swap, sq, Point, Position, COORD_LIMIT};
use crate::kdtree::{result_points, within_radius};

verus! {

broadcast use vstd::seq_lib::group_to_multiset_ensures, vstd::multiset::group_multiset_axioms;

/// Axis-aligned bounding box, inclusive on every face.
#[derive(Clone, Copy, Debug, PartialEq, Eq, Structural)]
pub struct BoundingBox {
    pub min: Position,
    pub max: Position,
}

/// Whether `p` lies inside `b`, inclusive.
pub open spec fn spec_contains(b: BoundingBox, p: Position) -> bool {
    &&& b.min.x <= p.x <= b.max.x
    &&& b.min.y <= p.y <= b.max.y
    &&& b.min.z <= p.z <= b.max.z
}

/// A box is well-formed when each minimum is at most the matching maximum
/// and all corners stay within one unit of the coordinate range, leaving
/// room for the padding that `build` adds.
pub open spec fn box_wf(b: BoundingBox) -> bool {
    &&& b.min.x <= b.max.x
    &&& b.min.y <= b.max.y
    &&& b.min.z <= b.max.z
    &&& -(COORD_LIMIT + 1) <= b.min.x && b.max.x <= COORD_LIMIT + 1
    &&& -(COORD_LIMIT + 1) <= b.min.y && b.max.y <= COORD_LIMIT + 1
    &&& -(COORD_LIMIT + 1) <= b.min.z && b.max.z <= COORD_LIMIT + 1
}

/// Midpoint of a nonempty range, rounding down.
pub open spec fn mid(lo: int, hi: int) -> int {
    lo + (hi - lo) / 2
}

/// Center of a bounding box, componentwise midpoint rounding down.
pub open spec fn box_center(b: BoundingBox) -> Position {
    Position {
        x: mid(b.min.x as int, b.max.x as int) as i64,
        y: mid(b.min.y as int, b.max.y as int) as i64,
        z: mid(b.min.z as int, b.max.z as int) as i64,
    }
}

/// The midpoint of a nonempty range lies within it.
pub proof fn lemma_mid_bounds(lo: int, hi: int)
    requires
        lo <= hi,
    ensures
        lo <= mid(lo, hi) <= hi,
{
    vstd::arithmetic::div_mod::lemma_fundamental_div_mod(hi - lo, 2);
}

/// Octant `c` of box `b`: bit 0 picks the upper x half, bit 1 the upper y
/// half, bit 2 the upper z half, split at the box center.
pub open spec fn octant_box(b: BoundingBox, c: int) -> BoundingBox {
    let ctr = box_center(b);
    BoundingBox {
        min: Position {
            x: if c % 2 == 1 { ctr.x } else { b.min.x },
            y: if (c / 2) % 2 == 1 { ctr.y } else { b.min.y },
            z: if c >= 4 { ctr.z } else { b.min.z },
        },
        max: Position {
            x: if c % 2 == 1 { b.max.x } else { ctr.x },
            y: if (c / 2) % 2 == 1 { b.max.y } else { ctr.y },
            z: if c >= 4 { b.max.z } else { ctr.z },
        },
    }
}

/// The octant a position belongs to, comparing against the box center on
/// each axis independently.
pub open spec fn spec_octant(ctr: Position, p: Position) -> int {
    (if p.x >= ctr.x { 1int } else { 0int }) + (if p.y >= ctr.y { 2int } else { 0int }) + (
    if p.z >= ctr.z { 4int } else { 0int })
}

/// Octants are well-formed sub-boxes of their parent, and a contained point
/// falls inside the octant its index rule selects.
pub proof fn lemma_octant_facts(b: BoundingBox, c: int)
    requires
        box_wf(b),
        0 <= c < 8,
    ensures
        box_wf(octant_box(b, c)),
        forall|p: Position|
            spec_contains(#[trigger] octant_box(b, c), p) ==> spec_contains(b, p),
        forall|p: Position|
            spec_contains(b, p) && spec_octant(box_center(b), p) == c ==> spec_contains(
                octant_box(b, c),
                p,
            ),
{
    lemma_mid_bounds(b.min.x as int, b.max.x as int);
    lemma_mid_bounds(b.min.y as int, b.max.y as int);
    lemma_mid_bounds(b.min.z as int, b.max.z as int);
}

impl BoundingBox {
    /// Create a new bounding box.
    pub fn new(min: Position, max: Position) -> (r: Self)
        ensures
            r == (BoundingBox { min, max }),
    {
        Self { min, max }
    }

    /// Check whether a point is inside the box, inclusive.
    pub fn contains(&self, point: Position) -> (r: bool)
        ensures
            r == spec_contains(*self, point),
    {
        point.x >= self.min.x && point.x <= self.max.x && point.y >= self.min.y && point.y
            <= self.max.y && point.z >= self.min.z && point.z <= self.max.z
    }

    /// Get the center of the box, rounding down.
    pub fn center(&self) -> (r: Position)
        requires
            box_wf(*self),
        ensures
            r == box_center(*self),
    {
        proof {
            lemma_mid_bounds(self.min.x as int, self.max.x as int);
            lemma_mid_bounds(self.min.y as int, self.max.y as int);
            lemma_mid_bounds(self.min.z as int, self.max.z as int);
        }
        let x = self.min.x + (((self.max.x - self.min.x) as u64) / 2) as i64;
        let y = self.min.y + (((self.max.y - self.min.y) as u64) / 2) as i64;
        let z = self.min.z + (((self.max.z - self.min.z) as u64) / 2) as i64;
        Position { x, y, z }
    }

    /// Get the extent of the box on each axis.
    pub fn size(&self) -> (r: [i64; 3])
        requires
            box_wf(*self),
        ensures
            r[0] == self.max.x - self.min.x,
            r[1] == self.max.y - self.min.y,
            r[2] == self.max.z - self.min.z,
    {
        [self.max.x - self.min.x, self.max.y - self.min.y, self.max.z - self.min.z]
    }
}

/// Node in the octree: its box, a point buffer (leaves), and either zero
/// or eight children.
struct OctreeNode<P: Point> {
    bounds: BoundingBox,
    points: Vec<P>,
    children: Vec<OctreeNode<P>>,
    depth: usize,
}

impl<P: Point> OctreeNode<P> {
    /// All points stored in this subtree: the node's own buffer, then each
    /// octant's points in octant order.
    spec fn subtree_points(self) -> Seq<P>
        decreases self,
    {
        self.points@ + if self.children@.len() == 8 {
            self.children[0int].subtree_points() + self.children[1int].subtree_points()
                + self.children[2int].subtree_points() + self.children[3int].subtree_points()
                + self.children[4int].subtree_points() + self.children[5int].subtree_points()
                + self.children[6int].subtree_points() + self.children[7int].subtree_points()
        } else {
            Seq::empty()
        }
    }

    /// The structural invariant: buffered points lie inside the node's box;
    /// an internal node has an empty buffer, depth below the limit, and
    /// eight well-formed children on the octants of its box.
    spec fn node_wf(self, max_depth: int, max_points: int) -> bool
        decreases self,
    {
        &&& box_wf(self.bounds)
        &&& (forall|i: int|
            0 <= i < self.points@.len() ==> in_range(
                (#[trigger] self.points@[i]).spec_position(),
            ) && spec_contains(self.bounds, self.points@[i].spec_position()))
        &&& (self.children@.len() == 0 || self.children@.len() == 8)
        &&& (self.children@.len() == 8 ==> {
            &&& self.points@.len() == 0
            &&& self.depth < max_depth
            &&& (forall|c: int|
                0 <= c < 8 ==> {
                    &&& (#[trigger] self.children[c]).depth == self.depth + 1
                    &&& self.children[c].bounds == octant_box(self.bounds, c)
                    &&& self.children[c].node_wf(max_depth, max_points)
                })
        })
    }

    /// The multiset of a subtree's points: the buffer plus each octant.
    proof fn lemma_subtree_ms(self)
        ensures
            self.children@.len() == 8 ==> self.subtree_points().to_multiset()
                == self.points@.to_multiset().add(children_ms(self.children@)),
            self.children@.len() != 8 ==> self.subtree_points().to_multiset()
                == self.points@.to_multiset(),
    {
        if self.children@.len() == 8 {
            let s0 = self.children[0int].subtree_points();
            let s1 = self.children[1int].subtree_points();
            let s2 = self.children[2int].subtree_points();
            let s3 = self.children[3int].subtree_points();
            let s4 = self.children[4int].subtree_points();
            let s5 = self.children[5int].subtree_points();
            let s6 = self.children[6int].subtree_points();
            let s7 = self.children[7int].subtree_points();
            vstd::seq_lib::lemma_multiset_commutative(s0, s1);
            vstd::seq_lib::lemma_multiset_commutative(s0 + s1, s2);
            vstd::seq_lib::lemma_multiset_commutative(s0 + s1 + s2, s3);
            vstd::seq_lib::lemma_multiset_commutative(s0 + s1 + s2 + s3, s4);
            vstd::seq_lib::lemma_multiset_commutative(s0 + s1 + s2 + s3 + s4, s5);
            vstd::seq_lib::lemma_multiset_commutative(s0 + s1 + s2 + s3 + s4 + s5, s6);
            vstd::seq_lib::lemma_multiset_commutative(s0 + s1 + s2 + s3 + s4 + s5 + s6, s7);
            vstd::seq_lib::lemma_multiset_commutative(
                self.points@,
                s0 + s1 + s2 + s3 + s4 + s5 + s6 + s7,
            );
            assert(self.subtree_points().to_multiset() =~= self.points@.to_multiset().add(
                children_ms(self.children@),
            ));
        } else {
            assert(self.subtree_points() =~= self.points@);
        }
    }

    /// Every point of a well-formed subtree lies inside the subtree's box
    /// and within the coordinate range.
    proof fn lemma_subtree_in_bounds(self, max_depth: int, max_points: int)
        requires
            self.node_wf(max_depth, max_points),
        ensures
            forall|p: P|
                #[trigger] self.subtree_points().contains(p) ==> spec_contains(
                    self.bounds,
                    p.spec_position(),
                ) && in_range(p.spec_position()),
        decreases self,
    {
        self.lemma_subtree_ms();
        if self.children@.len() == 8 {
            assert forall|c: int| 0 <= c < 8 implies (#[trigger] self.children[c]).node_wf(
                max_depth,
                max_points,
            ) by {}
            self.children[0int].lemma_subtree_in_bounds(max_depth, max_points);
            self.children[1int].lemma_subtree_in_bounds(max_depth, max_points);
            self.children[2int].lemma_subtree_in_bounds(max_depth, max_points);
            self.children[3int].lemma_subtree_in_bounds(max_depth, max_points);
            self.children[4int].lemma_subtree_in_bounds(max_depth, max_points);
            self.children[5int].lemma_subtree_in_bounds(max_depth, max_points);
            self.children[6int].lemma_subtree_in_bounds(max_depth, max_points);
            self.children[7int].lemma_subtree_in_bounds(max_depth, max_points);
            assert forall|c: int| 0 <= c < 8 implies box_wf(
                #[trigger] octant_box(self.bounds, c),
            ) && (forall|p: Position|
                spec_contains(#[trigger] octant_box(self.bounds, c), p) ==> spec_contains(
                    self.bounds,
                    p,
                )) by {
                lemma_octant_facts(self.bounds, c);
            }
            assert forall|p: P| #[trigger] self.subtree_points().contains(p) implies
                spec_contains(self.bounds, p.spec_position()) && in_range(p.spec_position()) by {
                assert(self.subtree_points().to_multiset().count(p) > 0);
                assert(self.points@.to_multiset().count(p) + self.children[
                    0int].subtree_points().to_multiset().count(p) + self.children[
                    1int].subtree_points().to_multiset().count(p) + self.children[
                    2int].subtree_points().to_multiset().count(p) + self.children[
                    3int].subtree_points().to_multiset().count(p) + self.children[
                    4int].subtree_points().to_multiset().count(p) + self.children[
                    5int].subtree_points().to_multiset().count(p) + self.children[
                    6int].subtree_points().to_multiset().count(p) + self.children[
                    7int].subtree_points().to_multiset().count(p) > 0);
                if self.points@.to_multiset().count(p) > 0 {
                    assert(self.points@.contains(p));
                    let i = choose|i: int| 0 <= i < self.points@.len() && self.points@[i] == p;
                }
            }
        } else {
            assert forall|p: P| #[trigger] self.subtree_points().contains(p) implies
                spec_contains(self.bounds, p.spec_position()) && in_range(p.spec_position()) by {
                assert(self.subtree_points().to_multiset().count(p) > 0);
                assert(self.points@.contains(p));
                let i = choose|i: int| 0 <= i < self.points@.len() && self.points@[i] == p;
            }
        }
    }
}

/// The points of eight children as one multiset, octant by octant.
spec fn children_ms<P: Point>(ch: Seq<OctreeNode<P>>) -> Multiset<P>
    recommends
        ch.len() == 8,
{
    ch[0].subtree_points().to_multiset().add(ch[1].subtree_points().to_multiset()).add(
        ch[2].subtree_points().to_multiset(),
    ).add(ch[3].subtree_points().to_multiset()).add(ch[4].subtree_points().to_multiset()).add(
        ch[5].subtree_points().to_multiset(),
    ).add(ch[6].subtree_points().to_multiset()).add(ch[7].subtree_points().to_multiset())
}

/// The octant index of a position relative to a center.
fn octant_index(ctr: Position, p: Position) -> (r: usize)
    ensures
        r as int == spec_octant(ctr, p),
        r < 8,
{
    let xbit: usize = if p.x >= ctr.x {
        1
    } else {
        0
    };
    let ybit: usize = if p.y >= ctr.y {
        2
    } else {
        0
    };
    let zbit: usize = if p.z >= ctr.z {
        4
    } else {
        0
    };
    xbit + ybit + zbit
}

/// Eight fresh leaves, one per octant of `bounds`, one level deeper.
fn make_children<P: Point>(bounds: &BoundingBox, depth: usize) -> (r: Vec<OctreeNode<P>>)
    requires
        box_wf(*bounds),
        depth < usize::MAX,
    ensures
        r@.len() == 8,
        forall|c: int|
            0 <= c < 8 ==> {
                &&& (#[trigger] r@[c]).bounds == octant_box(*bounds, c)
                &&& r@[c].depth == depth + 1
                &&& r@[c].points@.len() == 0
                &&& r@[c].children@.len() == 0
            },
{
    let ctr = bounds.center();
    let lo = bounds.min;
    let hi = bounds.max;
    let mut v: Vec<OctreeNode<P>> = Vec::new();
    v.push(OctreeNode {
        bounds: BoundingBox {
            min: Position { x: lo.x, y: lo.y, z: lo.z },
            max: Position { x: ctr.x, y: ctr.y, z: ctr.z },
        },
        points: Vec::new(),
        children: Vec::new(),
        depth: depth + 1,
    });
    v.push(OctreeNode {
        bounds: BoundingBox {
            min: Position { x: ctr.x, y: lo.y, z: lo.z },
            max: Position { x: hi.x, y: ctr.y, z: ctr.z },
        },
        points: Vec::new(),
        children: Vec::new(),
        depth: depth + 1,
    });
    v.push(OctreeNode {
        bounds: BoundingBox {
            min: Position { x: lo.x, y: ctr.y, z: lo.z },
            max: Position { x: ctr.x, y: hi.y, z: ctr.z },
        },
        points: Vec::new(),
        children: Vec::new(),
        depth: depth + 1,
    });
    v.push(OctreeNode {
        bounds: BoundingBox {
            min: Position { x: ctr.x, y: ctr.y, z: lo.z },
            max: Position { x: hi.x, y: hi.y, z: ctr.z },
        },
        points: Vec::new(),
        children: Vec::new(),
        depth: depth + 1,
    });
    v.push(OctreeNode {
        bounds: BoundingBox {
            min: Position { x: lo.x, y: lo.y, z: ctr.z },
            max: Position { x: ctr.x, y: ctr.y, z: hi.z },
        },
        points: Vec::new(),
        children: Vec::new(),
        depth: depth + 1,
    });
    v.push(OctreeNode {
        bounds: BoundingBox {
            min: Position { x: ctr.x, y: lo.y, z: ctr.z },
            max: Position { x: hi.x, y: ctr.y, z: hi.z },
        },
        points: Vec::new(),
        children: Vec::new(),
        depth: depth + 1,
    });
    v.push(OctreeNode {
        bounds: BoundingBox {
            min: Position { x: lo.x, y: ctr.y, z: ctr.z },
            max: Position { x: ctr.x, y: hi.y, z: hi.z },
        },
        points: Vec::new(),
        children: Vec::new(),
        depth: depth + 1,
    });
    v.push(OctreeNode {
        bounds: BoundingBox {
            min: Position { x: ctr.x, y: ctr.y, z: ctr.z },
            max: Position { x: hi.x, y: hi.y, z: hi.z },
        },
        points: Vec::new(),
        children: Vec::new(),
        depth: depth + 1,
    });
    v
}

/// Octree over 3D points: a padded root box, a depth limit, and a leaf
/// capacity that triggers subdivision.
pub struct Octree<P: Point> {
    root: Option<Box<OctreeNode<P>>>,
    bounds: BoundingBox,
    max_depth: usize,
    max_points_per_node: usize,
}

/// Insert a point into a subtree, subdividing a full leaf into eight octants
/// and redistributing its buffer.
#[verifier::rlimit(100)]
#[verifier::loop_isolation(false)]
fn insert_rec<P: Point>(node: OctreeNode<P>, point: P, max_depth: usize, max_points: usize) -> (r:
    OctreeNode<P>)
    requires
        node.node_wf(max_depth as int, max_points as int),
        in_range(point.spec_position()),
        spec_contains(node.bounds, point.spec_position()),
    ensures
        r.node_wf(max_depth as int, max_points as int),
        r.bounds == node.bounds,
        r.depth == node.depth,
        r.subtree_points().to_multiset() == node.subtree_points().to_multiset().insert(point),
    decreases max_depth - node.depth,
{
    let ghost orig = node;
    let mut node = node;
    proof {
        orig.lemma_subtree_ms();
    }
    if node.children.len() == 0 {
        node.points.push(point);
        proof {
            node.lemma_subtree_ms();
        }
        if node.points.len() > max_points && node.depth < max_depth {
            let ctr = node.bounds.center();
            let kids = make_children(&node.bounds, node.depth);
            node.children = kids;
            let mut pts: Vec<P> = Vec::new();
            core::mem::swap(&mut node.points, &mut pts);
            let ghost total = pts@.to_multiset();
            proof {
                assert forall|c: int| 0 <= c < 8 implies (#[trigger] node.children[c]).node_wf(
                    max_depth as int,
                    max_points as int,
                ) by {
                    lemma_octant_facts(node.bounds, c);
                }
                assert forall|c: int| 0 <= c < 8 implies (#[trigger] node.children[
                    c]).subtree_points() =~= Seq::<P>::empty() by {}
                vstd::seq_lib::to_multiset_len(Seq::<P>::empty());
                vstd::multiset::lemma_multiset_empty_len(Seq::<P>::empty().to_multiset());
                assert(children_ms(node.children@).add(pts@.to_multiset()) =~= total);
            }
            while pts.len() != 0
                invariant
                    node.bounds == orig.bounds,
                    node.depth == orig.depth,
                    box_wf(node.bounds),
                    node.depth < max_depth,
                    node.points@.len() == 0,
                    node.children@.len() == 8,
                    ctr == box_center(node.bounds),
                    forall|c: int|
                        0 <= c < 8 ==> {
                            &&& (#[trigger] node.children[c]).depth == node.depth + 1
                            &&& node.children[c].bounds == octant_box(node.bounds, c)
                            &&& node.children[c].node_wf(max_depth as int, max_points as int)
                        },
                    forall|i: int|
                        0 <= i < pts@.len() ==> in_range(
                            (#[trigger] pts@[i]).spec_position(),
                        ) && spec_contains(node.bounds, pts@[i].spec_position()),
                    children_ms(node.children@).add(pts@.to_multiset()) == total,
                decreases pts@.len(),
            {
                let ghost pts0 = pts@;
                let p = pts.pop().unwrap();
                proof {
                    assert(pts0 =~= pts@.push(p));
                    assert(pts0.to_multiset() =~= pts@.to_multiset().insert(p));
                }
                let c = octant_index(ctr, p.position());
                proof {
                    lemma_octant_facts(node.bounds, c as int);
                }
                let ghost oldch = node.children@;
                let child = node.children.remove(c);
                proof {
                    assert(child == oldch[c as int]);
                    assert(child.depth == orig.depth + 1);
                    assert(orig.depth < max_depth);
                }
                let child2 = insert_rec(child, p, max_depth, max_points);
                node.children.insert(c, child2);
                proof {
                    assert(node.children@ =~= oldch.update(c as int, child2));
                    assert forall|c2: int| 0 <= c2 < 8 && c2 != c implies node.children@[c2]
                        == oldch[c2] by {}
                    assert(children_ms(node.children@).add(pts@.to_multiset()) =~= total);
                }
            }
            proof {
                vstd::seq_lib::to_multiset_len(Seq::<P>::empty());
                vstd::multiset::lemma_multiset_empty_len(Seq::<P>::empty().to_multiset());
                assert(pts@ =~= Seq::<P>::empty());
                node.lemma_subtree_ms();
                assert(node.subtree_points().to_multiset() =~= total);
                assert(total =~= orig.subtree_points().to_multiset().insert(point));
                assert(node.node_wf(max_depth as int, max_points as int));
            }
        }
    } else {
        let ctr = node.bounds.center();
        let c = octant_index(ctr, point.position());
        proof {
            lemma_octant_facts(node.bounds, c as int);
        }
        let ghost oldch = node.children@;
        let child = node.children.remove(c);
        proof {
            assert(child == oldch[c as int]);
            assert(child.depth == orig.depth + 1);
            assert(orig.depth < max_depth);
        }
        let child2 = insert_rec(child, point, max_depth, max_points);
        node.children.insert(c, child2);
        proof {
            assert(node.children@ =~= oldch.update(c as int, child2));
            assert forall|c2: int| 0 <= c2 < 8 && c2 != c implies node.children@[c2] == oldch[c2]
                by {}
            node.lemma_subtree_ms();
            assert(children_ms(node.children@) =~= children_ms(oldch).insert(point));
            assert(node.subtree_points().to_multiset() =~= orig.subtree_points().to_multiset()
                .insert(point));
            assert(node.node_wf(max_depth as int, max_points as int));
        }
    }
    node
}

impl<P: Point> Octree<P> {
    /// All points the tree holds, in visitation order.
    pub closed spec fn spec_points(self) -> Seq<P> {
        match self.root {
            None => Seq::empty(),
            Some(n) => n.subtree_points(),
        }
    }

    /// The box the root covers.
    pub closed spec fn spec_bounds(self) -> BoundingBox {
        self.bounds
    }

    /// The structural invariant every built tree satisfies: every point
    /// buffered in a node lies inside that node's box; an internal node has
    /// an empty buffer, eight children one level deeper whose boxes are
    /// exactly the octants of its own, and a depth below the limit, so every
    /// stored point lives in exactly one leaf whose box contains it.
    /// `new`, `build` and `insert` establish and keep this, and
    /// `lemma_points_within_bounds` exposes containment in the root box.
    pub closed spec fn wf(self) -> bool {
        &&& box_wf(self.bounds)
        &&& match self.root {
            None => true,
            Some(n) => n.node_wf(self.max_depth as int, self.max_points_per_node as int)
                && n.bounds == self.bounds && n.depth == 0,
        }
    }

    /// Create a new empty octree with the given bounds and parameters.
    pub fn new(bounds: BoundingBox, max_depth: usize, max_points_per_node: usize) -> (r: Self)
        requires
            box_wf(bounds),
        ensures
            r.wf(),
            r.spec_points() == Seq::<P>::empty(),
            r.spec_bounds() == bounds,
    {
        Self { root: None, bounds, max_depth, max_points_per_node }
    }

    /// Insert a point lying within the tree's bounds; the tree keeps every
    /// point ever inserted, each stored in a node whose box contains it.
    pub fn insert(&mut self, point: P)
        requires
            old(self).wf(),
            in_range(point.spec_position()),
            spec_contains(old(self).spec_bounds(), point.spec_position()),
        ensures
            final(self).wf(),
            final(self).spec_bounds() == old(self).spec_bounds(),
            final(self).spec_points().to_multiset() == old(
                self,
            ).spec_points().to_multiset().insert(point),
    {
        let mut taken: Option<Box<OctreeNode<P>>> = None;
        core::mem::swap(&mut self.root, &mut taken);
        match taken {
            None => {
                let node: OctreeNode<P> = OctreeNode {
                    bounds: self.bounds,
                    points: Vec::new(),
                    children: Vec::new(),
                    depth: 0,
                };
                proof {
                    vstd::seq_lib::to_multiset_len(Seq::<P>::empty());
                    vstd::multiset::lemma_multiset_empty_len(Seq::<P>::empty().to_multiset());
                    assert(node.subtree_points() =~= Seq::<P>::empty());
                }
                let node = insert_rec(node, point, self.max_depth, self.max_points_per_node);
                self.root = Some(Box::new(node));
            },
            Some(b) => {
                let node = *b;
                let node = insert_rec(node, point, self.max_depth, self.max_points_per_node);
                self.root = Some(Box::new(node));
            },
        }
    }

    /// Build an octree from a slice of points: its box is the componentwise
    /// bounding box of the inputs widened by one coordinate unit on every
    /// side, so every input lies strictly inside; then insert them all. The
    /// tree holds a copy of exactly the input points. An empty input gets the
    /// default unit box.
    pub fn build(points: &[P]) -> (r: Self)
        requires
            forall|i: int|
                0 <= i < points@.len() ==> in_range(#[trigger] points@[i].spec_position()),
        ensures
            r.wf(),
            r.spec_points().to_multiset() == points@.to_multiset(),
            r.spec_points().len() == points@.len(),
            points@.len() == 0 ==> r.spec_bounds() == (BoundingBox {
                min: Position { x: 0i64, y: 0i64, z: 0i64 },
                max: Position { x: 1i64, y: 1i64, z: 1i64 },
            }),
            points@.len() > 0 ==> {
                let b = r.spec_bounds();
                &&& (forall|i: int|
                    0 <= i < points@.len() ==> {
                        let q = (#[trigger] points@[i]).spec_position();
                        &&& b.min.x + 1 <= q.x <= b.max.x - 1
                        &&& b.min.y + 1 <= q.y <= b.max.y - 1
                        &&& b.min.z + 1 <= q.z <= b.max.z - 1
                    })
                &&& (exists|i: int|
                    0 <= i < points@.len() && (#[trigger] points@[i].spec_position()).x
                        == b.min.x + 1)
                &&& (exists|i: int|
                    0 <= i < points@.len() && (#[trigger] points@[i].spec_position()).y
                        == b.min.y + 1)
                &&& (exists|i: int|
                    0 <= i < points@.len() && (#[trigger] points@[i].spec_position()).z
                        == b.min.z + 1)
                &&& (exists|i: int|
                    0 <= i < points@.len() && (#[trigger] points@[i].spec_position()).x
                        == b.max.x - 1)
                &&& (exists|i: int|
                    0 <= i < points@.len() && (#[trigger] points@[i].spec_position()).y
                        == b.max.y - 1)
                &&& (exists|i: int|
                    0 <= i < points@.len() && (#[trigger] points@[i].spec_position()).z
                        == b.max.z - 1)
            },
    {
        proof {
            vstd::seq_lib::to_multiset_len(points@);
            vstd::seq_lib::to_multiset_len(Seq::<P>::empty());
            vstd::multiset::lemma_multiset_empty_len(Seq::<P>::empty().to_multiset());
        }
        if points.len() == 0 {
            let r = Self::new(
                BoundingBox::new(
                    Position { x: 0, y: 0, z: 0 },
                    Position { x: 1, y: 1, z: 1 },
                ),
                8,
                10,
            );
            proof {
                assert(points@ =~= Seq::<P>::empty());
                assert(r.spec_points().to_multiset() =~= points@.to_multiset());
            }
            return r;
        }
        let first = points[0].position();
        proof {
            assert(points@[0].spec_position() == first);
        }
        let mut lo = first;
        let mut hi = first;
        let mut i: usize = 1;
        while i < points.len()
            invariant
                1 <= i <= points@.len(),
                forall|j: int|
                    0 <= j < points@.len() ==> in_range(#[trigger] points@[j].spec_position()),
                in_range(lo),
                in_range(hi),
                forall|j: int|
                    0 <= j < i ==> {
                        let q = (#[trigger] points@[j]).spec_position();
                        lo.x <= q.x <= hi.x && lo.y <= q.y <= hi.y && lo.z <= q.z <= hi.z
                    },
                exists|j: int|
                    0 <= j < i && (#[trigger] points@[j].spec_position()).x == lo.x,
                exists|j: int|
                    0 <= j < i && (#[trigger] points@[j].spec_position()).y == lo.y,
                exists|j: int|
                    0 <= j < i && (#[trigger] points@[j].spec_position()).z == lo.z,
                exists|j: int|
                    0 <= j < i && (#[trigger] points@[j].spec_position()).x == hi.x,
                exists|j: int|
                    0 <= j < i && (#[trigger] points@[j].spec_position()).y == hi.y,
                exists|j: int|
                    0 <= j < i && (#[trigger] points@[j].spec_position()).z == hi.z,
            decreases points@.len() - i,
        {
            let p = points[i].position();
            proof {
                assert(points@[i as int].spec_position() == p);
            }
            if p.x < lo.x {
                lo.x = p.x;
            }
            if p.y < lo.y {
                lo.y = p.y;
            }
            if p.z < lo.z {
                lo.z = p.z;
            }
            if p.x > hi.x {
                hi.x = p.x;
            }
            if p.y > hi.y {
                hi.y = p.y;
            }
            if p.z > hi.z {
                hi.z = p.z;
            }
            i = i + 1;
        }
        let bounds = BoundingBox::new(
            Position { x: lo.x - 1, y: lo.y - 1, z: lo.z - 1 },
            Position { x: hi.x + 1, y: hi.y + 1, z: hi.z + 1 },
        );
        let mut tree = Self::new(bounds, 8, 10);
        let mut j: usize = 0;
        proof {
            assert(points@.take(0) =~= Seq::<P>::empty());
            assert(tree.spec_points().to_multiset() =~= points@.take(0).to_multiset());
        }
        while j < points.len()
            invariant
                0 <= j <= points@.len(),
                forall|t: int|
                    0 <= t < points@.len() ==> in_range(#[trigger] points@[t].spec_position()),
                forall|t: int|
                    0 <= t < points@.len() ==> {
                        let q = (#[trigger] points@[t]).spec_position();
                        spec_contains(bounds, q)
                    },
                tree.wf(),
                tree.spec_bounds() == bounds,
                tree.spec_points().to_multiset() == points@.take(j as int).to_multiset(),
            decreases points@.len() - j,
        {
            tree.insert(points[j].cloned());
            proof {
                assert(points@.take(j as int + 1) =~= points@.take(j as int).push(
                    points@[j as int],
                ));
            }
            j = j + 1;
        }
        proof {
            assert(points@.take(points@.len() as int) =~= points@);
            vstd::seq_lib::to_multiset_len(tree.spec_points());
        }
        tree
    }
}

/// Gap between a coordinate and an inclusive range: zero inside, else the
/// distance to the nearer end.
pub open spec fn axis_gap(q: int, lo: int, hi: int) -> int {
    if q < lo {
        lo - q
    } else if q > hi {
        q - hi
    } else {
        0
    }
}

/// Smallest possible squared distance from `q` to any position inside `b`.
pub open spec fn box_min_dist_sq(q: Position, b: BoundingBox) -> int {
    sq(axis_gap(q.x as int, b.min.x as int, b.max.x as int)) + sq(
        axis_gap(q.y as int, b.min.y as int, b.max.y as int),
    ) + sq(axis_gap(q.z as int, b.min.z as int, b.max.z as int))
}

/// No point inside a box is closer to the query than the box itself.
pub proof fn lemma_box_lower_bound(q: Position, b: BoundingBox, p: Position)
    requires
        spec_contains(b, p),
    ensures
        dist_sq(q, p) >= box_min_dist_sq(q, b),
{
    lemma_axis_gap_le(q.x as int, b.min.x as int, b.max.x as int, p.x as int);
    lemma_axis_gap_le(q.y as int, b.min.y as int, b.max.y as int, p.y as int);
    lemma_axis_gap_le(q.z as int, b.min.z as int, b.max.z as int, p.z as int);
}

/// Per axis: the squared gap to the range bounds the squared gap to any
/// value inside the range.
proof fn lemma_axis_gap_le(q: int, lo: int, hi: int, v: int)
    requires
        lo <= v <= hi,
    ensures
        sq(q - v) >= sq(axis_gap(q, lo, hi)),
{
    if q < lo {
        lemma_sq_monotone(lo - q, v - q);
        lemma_sq_swap(q, v);
        lemma_sq_swap(q, lo);
        assert(sq(axis_gap(q, lo, hi)) == sq(lo - q));
    } else if q > hi {
        lemma_sq_monotone(q - hi, q - v);
    } else {
        assert(sq(q - v) >= 0 && sq(axis_gap(q, lo, hi)) == 0) by {
            assert((q - v) * (q - v) >= 0) by (nonlinear_arith);
            assert(0int * 0int == 0) by (nonlinear_arith);
        }
    }
}

/// Exact squared lower bound from a query to a box.
fn compute_box_min_dist_sq(query: Position, b: &BoundingBox) -> (r: u128)
    requires
        in_range(query),
        box_wf(*b),
    ensures
        r == box_min_dist_sq(query, *b),
{
    let gx: i64 = if query.x < b.min.x {
        b.min.x - query.x
    } else if query.x > b.max.x {
        query.x - b.max.x
    } else {
        0
    };
    let gy: i64 = if query.y < b.min.y {
        b.min.y - query.y
    } else if query.y > b.max.y {
        query.y - b.max.y
    } else {
        0
    };
    let gz: i64 = if query.z < b.min.z {
        b.min.z - query.z
    } else if query.z > b.max.z {
        query.z - b.max.z
    } else {
        0
    };
    proof {
        lemma_sq_bound(gx as int, 3 * COORD_LIMIT);
        lemma_sq_bound(gy as int, 3 * COORD_LIMIT);
        lemma_sq_bound(gz as int, 3 * COORD_LIMIT);
        assert((3 * (COORD_LIMIT as int)) * (3 * (COORD_LIMIT as int))
            < 0x40000000000000000000000000000000int) by (nonlinear_arith);
    }
    let px: i128 = gx as i128;
    let py: i128 = gy as i128;
    let pz: i128 = gz as i128;
    proof {
        assert(px * px == sq(gx as int) && py * py == sq(gy as int) && pz * pz == sq(gz as int));
    }
    (px * px) as u128 + (py * py) as u128 + (pz * pz) as u128
}

impl<P: Point> Octree<P> {
    /// All points of the tree within `radius` of the query (inclusive), in
    /// visitation order: exactly the points an exhaustive linear scan would
    /// keep, pruning whole subtrees by their bounding boxes.
    pub fn radius_search(&self, query: &P, radius: u64) -> (r: Vec<P>)
        requires
            self.wf(),
            in_range(query.spec_position()),
        ensures
            r@ == self.spec_points().filter(
                within_radius(query.spec_position(), (radius as int) * (radius as int)),
            ),
    {
        let mut results: Vec<P> = Vec::new();
        let qp = query.position();
        proof {
            lemma_sq_bound(radius as int, 0xFFFF_FFFF_FFFF_FFFFint);
            assert(0xFFFF_FFFF_FFFF_FFFFint * 0xFFFF_FFFF_FFFF_FFFFint
                < 0x100000000000000000000000000000000int) by (nonlinear_arith);
        }
        let rsq: u128 = (radius as u128) * (radius as u128);
        let ghost pred = within_radius(qp, rsq as int);
        match &self.root {
            None => {
                proof {
                    crate::kdtree::lemma_filter_all_false(Seq::<P>::empty(), pred);
                    assert(results@ =~= self.spec_points().filter(pred));
                }
            },
            Some(root) => {
                Self::oct_rad_rec(
                    root,
                    qp,
                    rsq,
                    &mut results,
                    Ghost(self.max_depth as int),
                    Ghost(self.max_points_per_node as int),
                );
                proof {
                    assert(results@ =~= Seq::<P>::empty() + results@);
                }
            },
        }
        results
    }

    /// Recursive radius search: skip a subtree whose box is provably out of
    /// reach, otherwise test the buffer and visit every octant.
    #[verifier::rlimit(100)]
    #[verifier::loop_isolation(false)]
    fn oct_rad_rec(
        node: &OctreeNode<P>,
        query: Position,
        rsq: u128,
        results: &mut Vec<P>,
        Ghost(md): Ghost<int>,
        Ghost(mp): Ghost<int>,
    )
        requires
            node.node_wf(md, mp),
            in_range(query),
        ensures
            final(results)@ == old(results)@ + node.subtree_points().filter(
                within_radius(query, rsq as int),
            ),
        decreases *node,
    {
        let ghost pred = within_radius(query, rsq as int);
        let ghost res0 = results@;
        let mind = compute_box_min_dist_sq(query, &node.bounds);
        if mind > rsq {
            proof {
                node.lemma_subtree_in_bounds(md, mp);
                let s = node.subtree_points();
                assert forall|i: int| 0 <= i < s.len() implies !pred(#[trigger] s[i]) by {
                    assert(s.contains(s[i]));
                    lemma_box_lower_bound(query, node.bounds, s[i].spec_position());
                };
                crate::kdtree::lemma_filter_all_false(s, pred);
                assert(results@ =~= res0 + s.filter(pred));
            }
            return ;
        }
        let mut i: usize = 0;
        proof {
            assert(node.points@.take(0) =~= Seq::<P>::empty());
            assert(node.points@.take(0).filter(pred) =~= Seq::<P>::empty());
            assert(results@ =~= res0 + node.points@.take(0).filter(pred));
        }
        while i < node.points.len()
            invariant
                0 <= i <= node.points@.len(),
                results@ == res0 + node.points@.take(i as int).filter(pred),
            decreases node.points@.len() - i,
        {
            let p = node.points[i].position();
            proof {
                assert(node.points@[i as int].spec_position() == p);
            }
            let d = distance_squared(query, p);
            if d <= rsq {
                results.push(node.points[i].cloned());
            }
            proof {
                assert(node.points@.take(i as int + 1).drop_last() =~= node.points@.take(
                    i as int,
                ));
                assert(node.points@.take(i as int + 1).last() == node.points@[i as int]);
                reveal(Seq::filter);
                assert(results@ =~= res0 + node.points@.take(i as int + 1).filter(pred));
            }
            i = i + 1;
        }
        proof {
            assert(node.points@.take(node.points@.len() as int) =~= node.points@);
        }
        if node.children.len() == 8 {
            let ghost r1 = results@;
            Self::oct_rad_rec(&node.children[0], query, rsq, results, Ghost(md), Ghost(mp));
            Self::oct_rad_rec(&node.children[1], query, rsq, results, Ghost(md), Ghost(mp));
            Self::oct_rad_rec(&node.children[2], query, rsq, results, Ghost(md), Ghost(mp));
            Self::oct_rad_rec(&node.children[3], query, rsq, results, Ghost(md), Ghost(mp));
            Self::oct_rad_rec(&node.children[4], query, rsq, results, Ghost(md), Ghost(mp));
            Self::oct_rad_rec(&node.children[5], query, rsq, results, Ghost(md), Ghost(mp));
            Self::oct_rad_rec(&node.children[6], query, rsq, results, Ghost(md), Ghost(mp));
            Self::oct_rad_rec(&node.children[7], query, rsq, results, Ghost(md), Ghost(mp));
            proof {
                let s0 = node.children[0int].subtree_points();
                let s1 = node.children[1int].subtree_points();
                let s2 = node.children[2int].subtree_points();
                let s3 = node.children[3int].subtree_points();
                let s4 = node.children[4int].subtree_points();
                let s5 = node.children[5int].subtree_points();
                let s6 = node.children[6int].subtree_points();
                let s7 = node.children[7int].subtree_points();
                Seq::filter_distributes_over_add(s0, s1, pred);
                Seq::filter_distributes_over_add(s0 + s1, s2, pred);
                Seq::filter_distributes_over_add(s0 + s1 + s2, s3, pred);
                Seq::filter_distributes_over_add(s0 + s1 + s2 + s3, s4, pred);
                Seq::filter_distributes_over_add(s0 + s1 + s2 + s3 + s4, s5, pred);
                Seq::filter_distributes_over_add(s0 + s1 + s2 + s3 + s4 + s5, s6, pred);
                Seq::filter_distributes_over_add(s0 + s1 + s2 + s3 + s4 + s5 + s6, s7, pred);
                Seq::filter_distributes_over_add(
                    node.points@,
                    s0 + s1 + s2 + s3 + s4 + s5 + s6 + s7,
                    pred,
                );
                assert(results@ =~= res0 + node.subtree_points().filter(pred));
            }
        } else {
            proof {
                assert(node.subtree_points() =~= node.points@);
            }
        }
    }

    /// Every point the octree stores lies within the tree's bounding box; in
    /// particular every point in a node's buffer lies within that node's box.
    pub proof fn lemma_points_within_bounds(self)
        requires
            self.wf(),
        ensures
            forall|p: P|
                #[trigger] self.spec_points().contains(p) ==> spec_contains(
                    self.spec_bounds(),
                    p.spec_position(),
                ),
    {
        match self.root {
            None => {},
            Some(n) => {
                n.lemma_subtree_in_bounds(
                    self.max_depth as int,
                    self.max_points_per_node as int,
                );
            },
        }
    }
}

} // verus!
