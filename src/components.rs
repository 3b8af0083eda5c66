//! The components that decomposition emits, and the store they are inserted
//! into: one map from entity to component per component type.
use crate::map::{Aabb, Object, Property};
use std::collections::HashMap;
use vstd::prelude::*;

verus! {

/// An entity of the simulation: a plain identifier.
pub type Entity = u64;

/// A 2D point or offset, in pixels.
#[derive(Clone, Copy, Debug, PartialEq, Eq)]
pub struct V2 {
    pub x: i64,
    pub y: i64,
}

impl V2 {
    pub fn new(x: i64, y: i64) -> (r: V2)
        ensures
            r == (V2 { x, y }),
    {
        V2 { x, y }
    }

    pub fn origin() -> (r: V2)
        ensures
            r == (V2 { x: 0, y: 0 }),
    {
        V2 { x: 0, y: 0 }
    }
}

#[derive(Clone, Copy, Debug, PartialEq, Eq)]
pub struct Position(pub V2);

/// Draw order: the index of the flattened layer the entity came from.
#[derive(Clone, Copy, Debug, PartialEq, Eq)]
pub struct ZLevel(pub u64);

#[derive(Clone, Copy, Debug, PartialEq, Eq)]
pub struct OriginOffset(pub V2);

#[derive(Clone, Debug, PartialEq, Eq)]
pub struct Name(pub String);

/// Marks an entity that blocks movement.
#[derive(Clone, Copy, Debug, PartialEq, Eq)]
pub struct Barrier;

/// A region whose occupants are tracked by other systems.
#[derive(Clone, Debug, PartialEq, Eq)]
pub struct Zone {
    pub inside: Vec<Entity>,
}

/// A polyline boundary.
#[derive(Clone, Debug, PartialEq, Eq)]
pub struct Fence {
    pub points: Vec<V2>,
}

/// A fence that lets things across only up to a step threshold, kept as the
/// authored JSON number.
#[derive(Debug, PartialEq)]
pub struct StepFence {
    pub step: serde_json::Value,
    pub fence: Fence,
}

/// A collision shape, relative to the entity's position.
#[derive(Clone, Debug, PartialEq, Eq)]
pub enum Shape {
    Box { lower: V2, upper: V2 },
    Polygon { vertices: Vec<V2> },
}

/// An output size in pixels.
#[derive(Clone, Copy, Debug, PartialEq, Eq)]
pub struct Size {
    pub w: u32,
    pub h: u32,
}

/// One frame of a sprite sheet, with its output size and orientation.
#[derive(Clone, Debug, PartialEq, Eq)]
pub struct TextureFrame {
    pub sprite_sheet: String,
    pub source_aabb: Aabb,
    pub size: Size,
    pub is_flipped_horizontally: bool,
    pub is_flipped_vertically: bool,
    pub is_flipped_diagonally: bool,
}

#[derive(Clone, Debug, PartialEq, Eq)]
pub struct Rendering {
    pub frame: TextureFrame,
}

impl Rendering {
    pub fn from_frame(frame: TextureFrame) -> (r: Rendering)
        ensures
            r == (Rendering { frame }),
    {
        Rendering { frame }
    }
}

/// One animation frame, shown for `duration` milliseconds.
#[derive(Clone, Debug, PartialEq, Eq)]
pub struct Frame {
    pub rendering: Rendering,
    pub duration: u32,
}

/// Animation playback state; `current_frame_progress` is in milliseconds.
#[derive(Clone, Debug, PartialEq, Eq)]
pub struct Animation {
    pub is_playing: bool,
    pub frames: Vec<Frame>,
    pub current_frame_index: usize,
    pub current_frame_progress: u32,
    pub should_repeat: bool,
}

/// The debug renderings that an authored property can switch on.
#[derive(Clone, Copy, Debug, PartialEq, Eq, Hash)]
pub enum RenderingToggle {
    Barriers,
    Positions,
    Shapes,
    Zones,
    Fences,
    ZLevels,
}

/// The debug renderings switched on for one entity.
#[derive(Clone, Debug, PartialEq, Eq)]
pub struct ObjectRenderingToggles(pub Vec<RenderingToggle>);

/// Authored properties that no handler consumed, one per name.
#[derive(Debug, PartialEq)]
pub struct JSON(pub Vec<Property>);

/// The component stores that decomposition writes, and the next free entity.
pub struct InsertMapData {
    pub next_entity: Entity,
    pub animations: HashMap<Entity, Animation>,
    pub barriers: HashMap<Entity, Barrier>,
    pub fences: HashMap<Entity, Fence>,
    pub jsons: HashMap<Entity, JSON>,
    pub names: HashMap<Entity, Name>,
    pub objects: HashMap<Entity, Object>,
    pub object_toggles: HashMap<Entity, ObjectRenderingToggles>,
    pub offsets: HashMap<Entity, OriginOffset>,
    pub positions: HashMap<Entity, Position>,
    pub renderings: HashMap<Entity, Rendering>,
    pub shapes: HashMap<Entity, Shape>,
    pub step_fences: HashMap<Entity, StepFence>,
    pub zlevels: HashMap<Entity, ZLevel>,
    pub zones: HashMap<Entity, Zone>,
}

/// `a` and `b` agree on every entity outside `lo .. hi`.
pub open spec fn same_outside<C>(a: Map<Entity, C>, b: Map<Entity, C>, lo: int, hi: int) -> bool {
    forall|e: Entity|
        (e < lo || e >= hi) ==> (#[trigger] a.contains_key(e) == b.contains_key(e) && (
        a.contains_key(e) ==> a[e] == b[e]))
}

/// `m` holds no entity at or above `n`.
pub open spec fn none_from<C>(m: Map<Entity, C>, n: int) -> bool {
    forall|e: Entity| e >= n ==> !#[trigger] m.contains_key(e)
}

impl InsertMapData {
    /// An empty store whose first entity will be `first`.
    pub fn new(first: Entity) -> (r: InsertMapData)
        ensures
            r.next_entity == first,
            r.is_empty_store(),
            r.wf(),
    {
        InsertMapData {
            next_entity: first,
            animations: HashMap::new(),
            barriers: HashMap::new(),
            fences: HashMap::new(),
            jsons: HashMap::new(),
            names: HashMap::new(),
            objects: HashMap::new(),
            object_toggles: HashMap::new(),
            offsets: HashMap::new(),
            positions: HashMap::new(),
            renderings: HashMap::new(),
            shapes: HashMap::new(),
            step_fences: HashMap::new(),
            zlevels: HashMap::new(),
            zones: HashMap::new(),
        }
    }

    pub open spec fn is_empty_store(&self) -> bool {
        &&& self.animations@ == Map::<Entity, Animation>::empty()
        &&& self.barriers@ == Map::<Entity, Barrier>::empty()
        &&& self.fences@ == Map::<Entity, Fence>::empty()
        &&& self.jsons@ == Map::<Entity, JSON>::empty()
        &&& self.names@ == Map::<Entity, Name>::empty()
        &&& self.objects@ == Map::<Entity, Object>::empty()
        &&& self.object_toggles@ == Map::<Entity, ObjectRenderingToggles>::empty()
        &&& self.offsets@ == Map::<Entity, OriginOffset>::empty()
        &&& self.positions@ == Map::<Entity, Position>::empty()
        &&& self.renderings@ == Map::<Entity, Rendering>::empty()
        &&& self.shapes@ == Map::<Entity, Shape>::empty()
        &&& self.step_fences@ == Map::<Entity, StepFence>::empty()
        &&& self.zlevels@ == Map::<Entity, ZLevel>::empty()
        &&& self.zones@ == Map::<Entity, Zone>::empty()
    }

    /// Every store agrees between `self` and `other` outside `lo .. hi`.
    pub open spec fn same_outside(&self, other: &InsertMapData, lo: int, hi: int) -> bool {
        &&& same_outside(self.animations@, other.animations@, lo, hi)
        &&& same_outside(self.barriers@, other.barriers@, lo, hi)
        &&& same_outside(self.fences@, other.fences@, lo, hi)
        &&& same_outside(self.jsons@, other.jsons@, lo, hi)
        &&& same_outside(self.names@, other.names@, lo, hi)
        &&& same_outside(self.objects@, other.objects@, lo, hi)
        &&& same_outside(self.object_toggles@, other.object_toggles@, lo, hi)
        &&& same_outside(self.offsets@, other.offsets@, lo, hi)
        &&& same_outside(self.positions@, other.positions@, lo, hi)
        &&& same_outside(self.renderings@, other.renderings@, lo, hi)
        &&& same_outside(self.shapes@, other.shapes@, lo, hi)
        &&& same_outside(self.step_fences@, other.step_fences@, lo, hi)
        &&& same_outside(self.zlevels@, other.zlevels@, lo, hi)
        &&& same_outside(self.zones@, other.zones@, lo, hi)
    }

    /// No store holds an entity at or above `next_entity`.
    pub open spec fn wf(&self) -> bool {
        let n = self.next_entity as int;
        &&& none_from(self.animations@, n)
        &&& none_from(self.barriers@, n)
        &&& none_from(self.fences@, n)
        &&& none_from(self.jsons@, n)
        &&& none_from(self.names@, n)
        &&& none_from(self.objects@, n)
        &&& none_from(self.object_toggles@, n)
        &&& none_from(self.offsets@, n)
        &&& none_from(self.positions@, n)
        &&& none_from(self.renderings@, n)
        &&& none_from(self.shapes@, n)
        &&& none_from(self.step_fences@, n)
        &&& none_from(self.zlevels@, n)
        &&& none_from(self.zones@, n)
    }

    /// Allocates a fresh entity.
    pub fn create(&mut self) -> (e: Entity)
        requires
            old(self).next_entity < u64::MAX,
        ensures
            e == old(self).next_entity,
            final(self).next_entity == e + 1,
            final(self).animations == old(self).animations,
            final(self).barriers == old(self).barriers,
            final(self).fences == old(self).fences,
            final(self).jsons == old(self).jsons,
            final(self).names == old(self).names,
            final(self).objects == old(self).objects,
            final(self).object_toggles == old(self).object_toggles,
            final(self).offsets == old(self).offsets,
            final(self).positions == old(self).positions,
            final(self).renderings == old(self).renderings,
            final(self).shapes == old(self).shapes,
            final(self).step_fences == old(self).step_fences,
            final(self).zlevels == old(self).zlevels,
            final(self).zones == old(self).zones,
    {
        let e = self.next_entity;
        self.next_entity = e + 1;
        e
    }
}

} // verus!
