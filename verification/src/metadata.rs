//! Metadata for point clouds: dimensions, organization, sensor pose, and an
//! open string-keyed collection of custom fields.

use vstd::prelude::*;
use crate::point::Position;

verus! {

/// Look up a key in an association list, last entry winning.
pub open spec fn spec_lookup(fields: Seq<(String, String)>, key: Seq<char>) -> Option<Seq<char>>
    decreases fields.len(),
{
    if fields.len() == 0 {
        None
    } else if fields.last().0@ == key {
        Some(fields.last().1@)
    } else {
        spec_lookup(fields.drop_last(), key)
    }
}

/// Metadata associated with a point cloud.
///
/// Sensor pose uses the same fixed-point convention as point coordinates.
/// Custom fields form an open string-keyed map; an entry added later shadows
/// an earlier entry with the same key.
#[derive(Clone, Debug, PartialEq)]
pub struct Metadata {
    /// Width of the point cloud (columns, for organized clouds).
    pub width: u32,
    /// Height of the point cloud (rows, for organized clouds).
    pub height: u32,
    /// Whether the point cloud is organized (structured) or unorganized.
    pub is_organized: bool,
    /// Sensor origin position.
    pub sensor_origin: Position,
    /// Sensor orientation quaternion, as [w, x, y, z] fixed-point components.
    pub sensor_orientation: [i64; 4],
    /// Additional custom fields, later entries shadowing earlier ones.
    pub custom_fields: Vec<(String, String)>,
}

impl Metadata {
    /// Create new metadata for an unorganized point cloud.
    pub fn new_unorganized(point_count: usize) -> (r: Self)
        requires
            point_count <= u32::MAX,
        ensures
            r.width == point_count,
            r.height == 1,
            !r.is_organized,
            r.sensor_origin == (Position { x: 0i64, y: 0i64, z: 0i64 }),
            r.sensor_orientation@ == seq![1i64, 0i64, 0i64, 0i64],
            r.custom_fields@ == Seq::<(String, String)>::empty(),
    {
        Self {
            width: point_count as u32,
            height: 1,
            is_organized: false,
            sensor_origin: Position { x: 0, y: 0, z: 0 },
            sensor_orientation: [1i64, 0i64, 0i64, 0i64],
            custom_fields: Vec::new(),
        }
    }

    /// Create new metadata for an organized point cloud.
    pub fn new_organized(width: u32, height: u32) -> (r: Self)
        ensures
            r.width == width,
            r.height == height,
            r.is_organized,
            r.sensor_origin == (Position { x: 0i64, y: 0i64, z: 0i64 }),
            r.sensor_orientation@ == seq![1i64, 0i64, 0i64, 0i64],
            r.custom_fields@ == Seq::<(String, String)>::empty(),
    {
        Self {
            width,
            height,
            is_organized: true,
            sensor_origin: Position { x: 0, y: 0, z: 0 },
            sensor_orientation: [1i64, 0i64, 0i64, 0i64],
            custom_fields: Vec::new(),
        }
    }

    /// Get the total number of points the grid describes.
    pub fn point_count(&self) -> (r: usize)
        requires
            self.width as int * self.height as int <= usize::MAX as int,
        ensures
            r == self.width as int * self.height as int,
    {
        self.width as usize * self.height as usize
    }

    /// Set the sensor origin.
    pub fn with_sensor_origin(self, origin: Position) -> (r: Self)
        ensures
            r == (Metadata { sensor_origin: origin, ..self }),
    {
        Self { sensor_origin: origin, ..self }
    }

    /// Set the sensor orientation.
    pub fn with_sensor_orientation(self, orientation: [i64; 4]) -> (r: Self)
        ensures
            r == (Metadata { sensor_orientation: orientation, ..self }),
    {
        Self { sensor_orientation: orientation, ..self }
    }

    /// Add a custom field, shadowing any earlier entry with the same key.
    pub fn with_custom_field(self, key: String, value: String) -> (r: Self)
        ensures
            spec_lookup(r.custom_fields@, key@) == Some(value@),
            forall|k: Seq<char>|
                k != key@ ==> spec_lookup(r.custom_fields@, k) == spec_lookup(
                    self.custom_fields@,
                    k,
                ),
            r.width == self.width,
            r.height == self.height,
            r.is_organized == self.is_organized,
            r.sensor_origin == self.sensor_origin,
            r.sensor_orientation == self.sensor_orientation,
    {
        let mut fields = self.custom_fields;
        fields.push((key, value));
        proof {
            assert(fields@.drop_last() == self.custom_fields@);
        }
        Self { custom_fields: fields, ..self }
    }

    /// Get a custom field value.
    pub fn get_custom_field(&self, key: &str) -> (r: Option<&String>)
        ensures
            match r {
                Some(v) => spec_lookup(self.custom_fields@, key@) == Some(v@),
                None => spec_lookup(self.custom_fields@, key@) is None,
            },
    {
        let owned: String = key.to_owned();
        let n = self.custom_fields.len();
        let mut i: usize = n;
        proof {
            assert(self.custom_fields@.take(n as int) =~= self.custom_fields@);
        }
        loop
            invariant
                0 <= i <= n,
                n == self.custom_fields@.len(),
                owned@ == key@,
                spec_lookup(self.custom_fields@.take(i as int), key@) == spec_lookup(
                    self.custom_fields@,
                    key@,
                ),
            decreases i,
        {
            if i == 0 {
                return None;
            }
            i = i - 1;
            proof {
                assert(self.custom_fields@.take(i as int + 1).drop_last() == self.custom_fields@
                    .take(i as int));
                assert(self.custom_fields@.take(i as int + 1).last() == self.custom_fields@[
                    i as int]);
            }
            if self.custom_fields[i].0 == owned {
                return Some(&self.custom_fields[i].1);
            }
        }
    }

    /// Check whether the point cloud is dense (no invalid points); clouds
    /// without the marker field count as dense.
    pub fn is_dense(&self) -> (r: bool)
        ensures
            r == match spec_lookup(self.custom_fields@, "dense"@) {
                Some(v) => v == "true"@,
                None => true,
            },
    {
        match self.get_custom_field("dense") {
            Some(v) => {
                let t: String = "true".to_owned();
                *v == t
            },
            None => true,
        }
    }

    /// Record whether the point cloud is dense.
    pub fn set_dense(&mut self, dense: bool)
        ensures
            spec_lookup(final(self).custom_fields@, "dense"@) == Some(
                if dense {
                    "true"@
                } else {
                    "false"@
                },
            ),
            forall|k: Seq<char>|
                k != "dense"@ ==> spec_lookup(final(self).custom_fields@, k) == spec_lookup(
                    old(self).custom_fields@,
                    k,
                ),
            final(self).width == old(self).width,
            final(self).height == old(self).height,
            final(self).is_organized == old(self).is_organized,
            final(self).sensor_origin == old(self).sensor_origin,
            final(self).sensor_orientation == old(self).sensor_orientation,
    {
        let key: String = "dense".to_owned();
        let value: String = if dense {
            "true".to_owned()
        } else {
            "false".to_owned()
        };
        let ghost before = self.custom_fields@;
        self.custom_fields.push((key, value));
        proof {
            assert(self.custom_fields@.drop_last() == before);
        }
    }
}

impl Default for Metadata {
    /// Metadata of an empty unorganized cloud.
    fn default() -> (r: Self)
        ensures
            r.width == 0,
            r.height == 1,
            !r.is_organized,
            r.sensor_origin == (Position { x: 0i64, y: 0i64, z: 0i64 }),
            r.sensor_orientation@ == seq![1i64, 0i64, 0i64, 0i64],
            r.custom_fields@ == Seq::<(String, String)>::empty(),
    {
        Self::new_unorganized(0)
    }
}

} // verus!
