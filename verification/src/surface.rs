//! Surface classification: mapping a track point to a named surface group.
//!
//! A `SurfaceMapping` resolves a point's surface type to a group label, either
//! directly or — when the surface type is the "unknown" sentinel — through an
//! ordered list of geographically scoped road-class fallback tables, first
//! match wins. Group labels are arbitrary strings compared by value; they only
//! serve to partition a track before simplification.

use crate::geometry::Point;
use std::collections::HashMap;
use vstd::prelude::*;

verus! {

pub type SurfaceTypeId = u64;

pub type RoadClassId = u64;

/// One geographic scope's fallback table: a bounding box plus a mapping from
/// road-class id to surface-type id. Consulted only for points whose surface
/// type is the "unknown" sentinel of the enclosing `SurfaceMapping`.
pub struct RoadClassMapping {
    pub min_y: i64,
    pub min_x: i64,
    pub max_y: i64,
    pub max_x: i64,
    pub map: HashMap<RoadClassId, SurfaceTypeId>,
}

/// The point lies strictly inside the scope's bounding box.
pub open spec fn bbox_contains(m: RoadClassMapping, p: Point) -> bool {
    &&& m.min_y < p.y < m.max_y
    &&& m.min_x < p.x < m.max_x
}

/// Surface type this scope assigns to the point: present exactly when the
/// point lies strictly inside the bounding box, carries a road class, and the
/// table has an entry for that road class.
pub open spec fn spec_scope_lookup(m: RoadClassMapping, p: Point) -> Option<SurfaceTypeId> {
    if bbox_contains(m, p) && p.r is Some && m.map@.contains_key(p.r->0) {
        Some(m.map@[p.r->0])
    } else {
        None
    }
}

impl RoadClassMapping {
    /// Fresh scope with the bounding box `[min_y, min_x, max_y, max_x]` and an
    /// empty road-class table.
    pub fn new(bbox: [i64; 4]) -> (m: RoadClassMapping)
        ensures
            m.min_y == bbox[0],
            m.min_x == bbox[1],
            m.max_y == bbox[2],
            m.max_x == bbox[3],
            m.map@ == Map::<RoadClassId, SurfaceTypeId>::empty(),
    {
        RoadClassMapping {
            min_y: bbox[0],
            min_x: bbox[1],
            max_y: bbox[2],
            max_x: bbox[3],
            map: HashMap::new(),
        }
    }

    /// Register (or overwrite) the surface type for one road class.
    pub fn add_road_class(&mut self, road_class_id: RoadClassId, surface_id: SurfaceTypeId)
        ensures
            final(self).map@ == old(self).map@.insert(road_class_id, surface_id),
            final(self).min_y == old(self).min_y,
            final(self).min_x == old(self).min_x,
            final(self).max_y == old(self).max_y,
            final(self).max_x == old(self).max_x,
    {
        self.map.insert(road_class_id, surface_id);
    }

    /// The point lies strictly inside this scope's bounding box.
    pub fn contains(&self, point: &Point) -> (r: bool)
        ensures
            r == bbox_contains(*self, *point),
    {
        self.min_y < point.y && self.min_x < point.x && self.max_y > point.y
            && self.max_x > point.x
    }

    /// Surface type this scope assigns to the point, if any
    /// (see `spec_scope_lookup`).
    pub fn lookup(&self, point: &Point) -> (r: Option<SurfaceTypeId>)
        ensures
            r == spec_scope_lookup(*self, *point),
    {
        if self.contains(point) {
            match point.r {
                Some(rc) => match self.map.get(&rc) {
                    Some(sid) => Some(*sid),
                    None => None,
                },
                None => None,
            }
        } else {
            None
        }
    }
}

/// Classification configuration: the "unknown surface" sentinel, the surface
/// type to group-label table, and the ordered road-class fallback scopes from
/// most to least specific.
pub struct SurfaceMapping {
    pub unknown_surface_id: SurfaceTypeId,
    pub groups: HashMap<SurfaceTypeId, String>,
    pub road_class_mappings: Vec<RoadClassMapping>,
}

/// Surface type assigned by the first scope, at or after position `i`, that
/// assigns one to the point (first match wins; later scopes are shadowed).
pub open spec fn first_scope_from(
    scopes: Seq<RoadClassMapping>,
    p: Point,
    i: int,
) -> Option<SurfaceTypeId>
    decreases scopes.len() - i,
{
    if i < 0 || i >= scopes.len() {
        None
    } else if spec_scope_lookup(scopes[i], p) is Some {
        spec_scope_lookup(scopes[i], p)
    } else {
        first_scope_from(scopes, p, i + 1)
    }
}

/// Group label of the point under mapping `m`:
/// `None` if the point has no surface type; otherwise, if the surface type is
/// the "unknown" sentinel, the label of the surface type assigned by the first
/// matching fallback scope (if any, and if that surface type has a label);
/// otherwise the label of the point's own surface type (if it has one).
pub open spec fn spec_group_of(m: SurfaceMapping, p: Point) -> Option<Seq<char>> {
    match p.s {
        None => None,
        Some(ps) => {
            if ps == m.unknown_surface_id {
                match first_scope_from(m.road_class_mappings@, p, 0) {
                    Some(sid) => if m.groups@.contains_key(sid) {
                        Some(m.groups@[sid]@)
                    } else {
                        None
                    },
                    None => None,
                }
            } else {
                if m.groups@.contains_key(ps) {
                    Some(m.groups@[ps]@)
                } else {
                    None
                }
            }
        },
    }
}

/// The label sequence a concrete `Option<String>` result stands for.
pub open spec fn view_opt_label(r: Option<String>) -> Option<Seq<char>> {
    match r {
        None => None,
        Some(s) => Some(s@),
    }
}

impl SurfaceMapping {
    /// Fresh mapping with the given "unknown surface" sentinel, no group
    /// labels, and no fallback scopes.
    pub fn new(unknown_surface_id: SurfaceTypeId) -> (m: SurfaceMapping)
        ensures
            m.unknown_surface_id == unknown_surface_id,
            m.groups@ == Map::<SurfaceTypeId, String>::empty(),
            m.road_class_mappings@ == Seq::<RoadClassMapping>::empty(),
    {
        SurfaceMapping {
            unknown_surface_id,
            groups: HashMap::new(),
            road_class_mappings: Vec::new(),
        }
    }

    /// Register (or overwrite) the group label of one surface type.
    pub fn add_surface(&mut self, surface_id: SurfaceTypeId, group: String)
        ensures
            final(self).groups@ == old(self).groups@.insert(surface_id, group),
            final(self).unknown_surface_id == old(self).unknown_surface_id,
            final(self).road_class_mappings@ == old(self).road_class_mappings@,
    {
        self.groups.insert(surface_id, group);
    }

    /// Append one fallback scope; scopes are consulted in registration order,
    /// so callers register from most to least specific.
    pub fn add_road_class_mapping(&mut self, road_class_mapping: RoadClassMapping)
        ensures
            final(self).road_class_mappings@ == old(self).road_class_mappings@.push(
                road_class_mapping,
            ),
            final(self).unknown_surface_id == old(self).unknown_surface_id,
            final(self).groups@ == old(self).groups@,
    {
        self.road_class_mappings.push(road_class_mapping);
    }

    /// Surface type assigned by the first fallback scope matching the point.
    fn first_scope_surface(&self, point: &Point) -> (r: Option<SurfaceTypeId>)
        ensures
            r == first_scope_from(self.road_class_mappings@, *point, 0),
    {
        let n = self.road_class_mappings.len();
        let mut i: usize = 0;
        while i < n
            invariant
                n == self.road_class_mappings@.len(),
                0 <= i <= n,
                first_scope_from(self.road_class_mappings@, *point, i as int)
                    == first_scope_from(self.road_class_mappings@, *point, 0),
            decreases n - i,
        {
            let hit = self.road_class_mappings[i].lookup(point);
            if hit.is_some() {
                return hit;
            }
            i = i + 1;
        }
        None
    }

    /// Group label of the point (see `spec_group_of`). `None` means the point
    /// is unclassifiable, which is not an error.
    pub fn get_surface_group(&self, point: &Point) -> (r: Option<String>)
        ensures
            view_opt_label(r) == spec_group_of(*self, *point),
    {
        match point.s {
            None => None,
            Some(point_surface) => {
                if point_surface == self.unknown_surface_id {
                    match self.first_scope_surface(point) {
                        Some(sid) => match self.groups.get(&sid) {
                            Some(g) => Some(g.clone()),
                            None => None,
                        },
                        None => None,
                    }
                } else {
                    match self.groups.get(&point_surface) {
                        Some(g) => Some(g.clone()),
                        None => None,
                    }
                }
            },
        }
    }
}

} // verus!
