//! Decomposition of a parsed map into entities and components, and the
//! system that serves pending map loads.
use crate::components::{
    Animation, Barrier, Entity, Fence, Frame, InsertMapData, Name, ObjectRenderingToggles,
    OriginOffset, Position, Rendering, RenderingToggle, same_outside, Shape, Size, StepFence, TextureFrame, V2,
    ZLevel, Zone, JSON,
};
use crate::map::{
    aabb_local_spec, deep_type, lemma_mul_u32_fits, tile_of, tile_pos, tileset_pos, Aabb, AnimationFrame, GlobalTileIndex, Layer,
    LayerData, Object, ObjectLayerData, Point, Property, Tile, TileLayerData, Tiledmap, Tileset,
};
use crate::resources::{NotLoaded, ResourcesView, SharedResource, TiledmapResources};
use std::collections::HashMap;
use vstd::prelude::*;

verus! {

/// The Rendering of the tile `gid`, when a tileset holds it and it has a
/// source rectangle; `size` overrides the rectangle's own size.
pub open spec fn rendering_of(tm: Tiledmap, gid: GlobalTileIndex, size: Option<(u32, u32)>) -> Option<Rendering> {
    match tileset_pos(tm.tilesets@, gid.id) {
        Some(i) => {
            let ts = tm.tilesets@[i];
            match aabb_local_spec(ts, (gid.id - ts.firstgid) as u32) {
                Some(aabb) => Some(Rendering { frame: frame_of(ts, aabb, gid, size) }),
                None => None,
            }
        },
        None => None,
    }
}

/// A texture frame cut from `ts` at `aabb`, oriented as `gid`.
pub open spec fn frame_of(ts: Tileset, aabb: Aabb, gid: GlobalTileIndex, size: Option<(u32, u32)>) -> TextureFrame {
    TextureFrame {
        sprite_sheet: ts.image,
        source_aabb: aabb,
        size: match size {
            Some((w, h)) => Size { w, h },
            None => Size { w: aabb.w, h: aabb.h },
        },
        is_flipped_horizontally: gid.is_flipped_horizontally,
        is_flipped_vertically: gid.is_flipped_vertically,
        is_flipped_diagonally: gid.is_flipped_diagonally,
    }
}

/// The frames of an authored animation whose tiles have a source rectangle,
/// in order.
pub open spec fn frames_of(ts: Tileset, frames: Seq<AnimationFrame>, gid: GlobalTileIndex, size: Option<(u32, u32)>) -> Seq<Frame>
    decreases frames.len(),
{
    if frames.len() == 0 {
        seq![]
    } else {
        let rest = frames_of(ts, frames.drop_last(), gid, size);
        match aabb_local_spec(ts, frames.last().tileid) {
            Some(aabb) => rest.push(
                Frame { rendering: Rendering { frame: frame_of(ts, aabb, gid, size) }, duration: frames.last().duration },
            ),
            None => rest,
        }
    }
}

/// The frames of the tile `gid`'s animation, when a tileset holds it and its
/// metadata has animation frames.
pub open spec fn animation_of(tm: Tiledmap, gid: GlobalTileIndex, size: Option<(u32, u32)>) -> Option<Seq<Frame>> {
    match tileset_pos(tm.tilesets@, gid.id) {
        Some(i) => {
            let ts = tm.tilesets@[i];
            match tile_pos(ts.tiles@, (gid.id - ts.firstgid) as u32) {
                Some(j) => match ts.tiles@[j].animation {
                    Some(frames) => Some(frames_of(ts, frames@, gid, size)),
                    None => None,
                },
                None => None,
            }
        },
        None => None,
    }
}

/// `a` plays `frames` from the first one, repeating.
pub open spec fn plays(a: Animation, frames: Seq<Frame>) -> bool {
    &&& a.is_playing
    &&& a.frames@ == frames
    &&& a.current_frame_index == 0
    &&& a.current_frame_progress == 0
    &&& a.should_repeat
}

/// `r` is the animation that `frames` describes, if any.
pub open spec fn animation_matches(r: Option<Animation>, frames: Option<Seq<Frame>>) -> bool {
    match frames {
        Some(fs) => r matches Some(a) && plays(a, fs),
        None => r is None,
    }
}

/// Return a rendering for the tile with the given global index.
pub fn get_rendering(tm: &Tiledmap, gid: &GlobalTileIndex, size: Option<(u32, u32)>) -> (r: Option<Rendering>)
    ensures
        r == rendering_of(*tm, *gid, size),
{
    let (firstgid, tileset) = match tm.get_tileset_by_gid(gid.id) {
        Some(found) => found,
        None => return None,
    };
    let aabb = match tileset.aabb(firstgid, gid.id) {
        Some(aabb) => aabb,
        None => return None,
    };
    Some(Rendering::from_frame(make_frame(tileset, aabb, gid, size)))
}

fn make_frame(ts: &Tileset, aabb: Aabb, gid: &GlobalTileIndex, size: Option<(u32, u32)>) -> (r: TextureFrame)
    ensures
        r == frame_of(*ts, aabb, *gid, size),
{
    let size = match size {
        Some((w, h)) => Size { w, h },
        None => Size { w: aabb.w, h: aabb.h },
    };
    TextureFrame {
        sprite_sheet: ts.image.clone(),
        source_aabb: aabb,
        size,
        is_flipped_horizontally: gid.is_flipped_horizontally,
        is_flipped_vertically: gid.is_flipped_vertically,
        is_flipped_diagonally: gid.is_flipped_diagonally,
    }
}

/// Return the animation of the tile with the given global index, if its
/// metadata has animation frames. Frames whose tile has no source rectangle
/// are left out.
pub fn get_animation(tm: &Tiledmap, gid: &GlobalTileIndex, size: Option<(u32, u32)>) -> (r: Option<Animation>)
    ensures
        animation_matches(r, animation_of(*tm, *gid, size)),
{
    let (firstgid, tileset) = match tm.get_tileset_by_gid(gid.id) {
        Some(found) => found,
        None => return None,
    };
    let tile = match tileset.tile(firstgid, gid.id) {
        Some(tile) => tile,
        None => return None,
    };
    let authored = match &tile.animation {
        Some(frames) => frames,
        None => return None,
    };
    let mut frames: Vec<Frame> = Vec::new();
    let mut i: usize = 0;
    while i < authored.len()
        invariant
            0 <= i <= authored@.len(),
            frames@ == frames_of(*tileset, authored@.take(i as int), *gid, size),
        decreases authored@.len() - i,
    {
        assert(authored@.take(i as int + 1).drop_last() == authored@.take(i as int));
        let frame = authored[i];
        if let Some(aabb) = tileset.aabb_local(frame.tileid) {
            let rendering = Rendering::from_frame(make_frame(tileset, aabb, gid, size));
            frames.push(Frame { rendering, duration: frame.duration });
        }
        i += 1;
    }
    assert(authored@.take(i as int) == authored@);
    let r = Animation {
        is_playing: true,
        frames,
        current_frame_index: 0,
        current_frame_progress: 0,
        should_repeat: true,
    };
    Some(r)
}

/// Does `s` read `lit`?
fn is(s: &String, lit: &str) -> (r: bool)
    ensures
        r == (s@ == lit@),
{
    *s == lit.to_owned()
}

/// A layer that decomposition walks: a grid of tiles or a collection of
/// objects.
#[derive(Debug, PartialEq)]
pub enum FlatLayer {
    Tiles(TileLayerData),
    Objects(ObjectLayerData),
}

/// The grids and object collections of a layer tree, depth-first in document
/// order; groups are spliced in place and unsupported layers left out.
pub open spec fn flatten(layers: Seq<Layer>) -> Seq<FlatLayer>
    decreases layers,
{
    if layers.len() == 0 {
        seq![]
    } else {
        let rest = flatten(layers.drop_last());
        match layers.last().layer_data {
            LayerData::Tiles(t) => rest.push(FlatLayer::Tiles(t)),
            LayerData::Objects(o) => rest.push(FlatLayer::Objects(o)),
            LayerData::Layers(children) => rest + flatten(children@),
            LayerData::Unsupported => rest,
        }
    }
}

/// Reduces a layer tree to its grids and object collections, in draw order.
#[verifier::loop_isolation(false)]
pub fn flatten_layers(layers: Vec<Layer>) -> (r: Vec<FlatLayer>)
    ensures
        r@ == flatten(layers@),
    decreases layers,
{
    let ghost all = layers@;
    let ghost whole = layers;
    let n = layers.len();
    let mut rest = layers;
    let mut out: Vec<FlatLayer> = Vec::new();
    let mut i: usize = 0;
    while rest.len() > 0
        invariant
            0 <= i <= all.len(),
            i + rest@.len() == all.len(),
            all.len() == n,
            whole@ == all,
            rest@ == all.skip(i as int),
            out@ == flatten(all.take(i as int)),
        decreases rest@.len(),
    {
        let layer = rest.remove(0);
        assert(layer == all[i as int]);
        assert(all.take(i as int + 1).drop_last() == all.take(i as int));
        match layer.layer_data {
            LayerData::Tiles(t) => out.push(FlatLayer::Tiles(t)),
            LayerData::Objects(o) => out.push(FlatLayer::Objects(o)),
            LayerData::Layers(children) => {
                proof {
                    let l = all[i as int];
                    assert(decreases_to!(all => l));
                    assert(decreases_to!(l => l.layer_data));
                    assert(decreases_to!(l.layer_data => children));
                    assert(decreases_to!(children => children@));
                    assert(decreases_to!(whole => all));
                    assert(decreases_to!(whole => children));
                }
                let mut inner = flatten_layers(children);
                out.append(&mut inner);
            },
            LayerData::Unsupported => {},
        }
        assert(all.skip(i as int).drop_first() == all.skip(i as int + 1));
        i += 1;
    }
    assert(all.take(i as int) == all);
    out
}

/// What an object embedded in a tile contributes to the entity that
/// instantiates the tile.
#[derive(Clone, Copy, Debug, PartialEq, Eq)]
pub enum SubObjectKind {
    OriginOffset,
    Barrier,
    Shape,
    Unknown,
}

pub open spec fn sub_kind(t: Seq<char>) -> SubObjectKind {
    if t == "origin_offset"@ {
        SubObjectKind::OriginOffset
    } else if t == "barrier"@ {
        SubObjectKind::Barrier
    } else if t == "shape"@ {
        SubObjectKind::Shape
    } else {
        SubObjectKind::Unknown
    }
}

fn sub_object_kind(t: &String) -> (k: SubObjectKind)
    ensures
        k == sub_kind(t@),
{
    if is(t, "origin_offset") {
        SubObjectKind::OriginOffset
    } else if is(t, "barrier") {
        SubObjectKind::Barrier
    } else if is(t, "shape") {
        SubObjectKind::Shape
    } else {
        SubObjectKind::Unknown
    }
}

/// The box an object covers: from its corner to its corner plus its size.
pub open spec fn box_of(o: Object) -> Shape {
    Shape::Box {
        lower: V2 { x: o.x as i64, y: o.y as i64 },
        upper: V2 { x: (o.x + o.width) as i64, y: (o.y + o.height) as i64 },
    }
}

/// A box from the origin to `(w, h)`.
pub open spec fn sized_box(w: i32, h: i32) -> Shape {
    Shape::Box { lower: V2 { x: 0, y: 0 }, upper: V2 { x: w as i64, y: h as i64 } }
}

/// Every embedded object has a known kind.
pub open spec fn subs_ok(subs: Seq<Object>) -> bool {
    forall|i: int| 0 <= i < subs.len() ==> sub_kind((#[trigger] subs[i]).type_is@) != SubObjectKind::Unknown
}

/// The origin offset that the last `origin_offset` sub-object sets.
pub open spec fn subs_offset(subs: Seq<Object>) -> Option<OriginOffset>
    decreases subs.len(),
{
    if subs.len() == 0 {
        None
    } else if sub_kind(subs.last().type_is@) == SubObjectKind::OriginOffset {
        Some(OriginOffset(V2 { x: subs.last().x as i64, y: subs.last().y as i64 }))
    } else {
        subs_offset(subs.drop_last())
    }
}

/// The shape that the last `barrier` or `shape` sub-object sets.
pub open spec fn subs_shape(subs: Seq<Object>) -> Option<Shape>
    decreases subs.len(),
{
    if subs.len() == 0 {
        None
    } else if sub_kind(subs.last().type_is@) == SubObjectKind::Barrier || sub_kind(subs.last().type_is@)
        == SubObjectKind::Shape {
        Some(box_of(subs.last()))
    } else {
        subs_shape(subs.drop_last())
    }
}

/// Is one of the sub-objects a barrier?
pub open spec fn subs_barrier(subs: Seq<Object>) -> bool
    decreases subs.len(),
{
    if subs.len() == 0 {
        false
    } else {
        sub_kind(subs.last().type_is@) == SubObjectKind::Barrier || subs_barrier(subs.drop_last())
    }
}

/// `m` holds `v` at `e`, or nothing there when `v` is `None`.
pub open spec fn holds<C>(m: Map<Entity, C>, e: Entity, v: Option<C>) -> bool {
    match v {
        Some(c) => m.contains_key(e) && m[e] == c,
        None => !m.contains_key(e),
    }
}

/// `m` after setting `e` to `v`, when there is a `v`.
pub open spec fn set_opt<C>(m: Map<Entity, C>, e: Entity, v: Option<C>) -> Map<Entity, C> {
    match v {
        Some(c) => m.insert(e, c),
        None => m,
    }
}

/// Add an origin component to the entity.
fn add_origin(ent: Entity, x: i32, y: i32, offsets: &mut HashMap<Entity, OriginOffset>)
    ensures
        final(offsets)@ == old(offsets)@.insert(ent, OriginOffset(V2 { x: x as i64, y: y as i64 })),
{
    broadcast use vstd::std_specs::hash::group_hash_axioms;
    offsets.insert(ent, OriginOffset(V2::new(x as i64, y as i64)));
}

/// Mark the entity as a barrier covering the object's box.
pub fn add_barrier(
    ent: Entity,
    obj: &Object,
    barriers: &mut HashMap<Entity, Barrier>,
    shapes: &mut HashMap<Entity, Shape>,
)
    ensures
        final(barriers)@ == old(barriers)@.insert(ent, Barrier),
        final(shapes)@ == old(shapes)@.insert(ent, box_of(*obj)),
{
    broadcast use vstd::std_specs::hash::group_hash_axioms;
    barriers.insert(ent, Barrier);
    shapes.insert(ent, object_box(obj));
}

fn object_box(obj: &Object) -> (r: Shape)
    ensures
        r == box_of(*obj),
{
    let lower = V2::new(obj.x as i64, obj.y as i64);
    let upper = V2::new(obj.x as i64 + obj.width as i64, obj.y as i64 + obj.height as i64);
    Shape::Box { lower, upper }
}

/// Merges the sub-objects embedded in a tile onto the entity `ent`.
fn apply_sub_objects(
    ent: Entity,
    subs: &Vec<Object>,
    offsets: &mut HashMap<Entity, OriginOffset>,
    barriers: &mut HashMap<Entity, Barrier>,
    shapes: &mut HashMap<Entity, Shape>,
)
    requires
        subs_ok(subs@),
    ensures
        final(offsets)@ == set_opt(old(offsets)@, ent, subs_offset(subs@)),
        final(shapes)@ == set_opt(old(shapes)@, ent, subs_shape(subs@)),
        final(barriers)@ == set_opt(old(barriers)@, ent, if subs_barrier(subs@) {
            Some(Barrier)
        } else {
            None
        }),
{
    broadcast use vstd::std_specs::hash::group_hash_axioms;
    let mut i: usize = 0;
    while i < subs.len()
        invariant
            0 <= i <= subs@.len(),
            subs_ok(subs@),
            offsets@ == set_opt(old(offsets)@, ent, subs_offset(subs@.take(i as int))),
            shapes@ == set_opt(old(shapes)@, ent, subs_shape(subs@.take(i as int))),
            barriers@ == set_opt(old(barriers)@, ent, if subs_barrier(subs@.take(i as int)) {
                Some(Barrier)
            } else {
                None
            }),
        decreases subs@.len() - i,
    {
        let ghost pre = subs@.take(i as int);
        assert(subs@.take(i as int + 1).drop_last() == pre);
        let sub = &subs[i];
        assert(sub_kind(sub.type_is@) != SubObjectKind::Unknown);
        match sub_object_kind(&sub.type_is) {
            SubObjectKind::OriginOffset => {
                add_origin(ent, sub.x, sub.y, offsets);
                assert(offsets@ =~= set_opt(old(offsets)@, ent, subs_offset(subs@.take(i as int + 1))));
            },
            SubObjectKind::Barrier => {
                add_barrier(ent, sub, barriers, shapes);
                assert(shapes@ =~= set_opt(old(shapes)@, ent, subs_shape(subs@.take(i as int + 1))));
                assert(barriers@ =~= set_opt(old(barriers)@, ent, Some(Barrier)));
            },
            SubObjectKind::Shape => {
                shapes.insert(ent, object_box(sub));
                assert(shapes@ =~= set_opt(old(shapes)@, ent, subs_shape(subs@.take(i as int + 1))));
            },
            SubObjectKind::Unknown => {},
        }
        i += 1;
    }
    assert(subs@.take(i as int) == subs@);
}

/// The debug rendering that a property of this name switches on.
pub open spec fn toggle_named(n: Seq<char>) -> Option<RenderingToggle> {
    if n == "toggle_rendering_barriers"@ {
        Some(RenderingToggle::Barriers)
    } else if n == "toggle_rendering_positions"@ {
        Some(RenderingToggle::Positions)
    } else if n == "toggle_rendering_shapes"@ {
        Some(RenderingToggle::Shapes)
    } else if n == "toggle_rendering_zones"@ {
        Some(RenderingToggle::Zones)
    } else if n == "toggle_rendering_fences"@ {
        Some(RenderingToggle::Fences)
    } else if n == "toggle_rendering_zlevels"@ {
        Some(RenderingToggle::ZLevels)
    } else {
        None
    }
}

fn toggle_of(n: &String) -> (r: Option<RenderingToggle>)
    ensures
        r == toggle_named(n@),
{
    if is(n, "toggle_rendering_barriers") {
        Some(RenderingToggle::Barriers)
    } else if is(n, "toggle_rendering_positions") {
        Some(RenderingToggle::Positions)
    } else if is(n, "toggle_rendering_shapes") {
        Some(RenderingToggle::Shapes)
    } else if is(n, "toggle_rendering_zones") {
        Some(RenderingToggle::Zones)
    } else if is(n, "toggle_rendering_fences") {
        Some(RenderingToggle::Fences)
    } else if is(n, "toggle_rendering_zlevels") {
        Some(RenderingToggle::ZLevels)
    } else {
        None
    }
}

/// The debug renderings that the properties switch on, in order.
pub open spec fn toggles_of(props: Seq<Property>) -> Seq<RenderingToggle>
    decreases props.len(),
{
    if props.len() == 0 {
        seq![]
    } else {
        let rest = toggles_of(props.drop_last());
        match toggle_named(props.last().name@) {
            Some(t) => rest.push(t),
            None => rest,
        }
    }
}

/// The debug renderings that the properties switch on.
pub fn rendering_toggles(props: &Vec<Property>) -> (r: Vec<RenderingToggle>)
    ensures
        r@ == toggles_of(props@),
{
    let mut r: Vec<RenderingToggle> = Vec::new();
    let mut i: usize = 0;
    while i < props.len()
        invariant
            0 <= i <= props@.len(),
            r@ == toggles_of(props@.take(i as int)),
        decreases props@.len() - i,
    {
        assert(props@.take(i as int + 1).drop_last() == props@.take(i as int));
        if let Some(t) = toggle_of(&props[i].name) {
            r.push(t);
        }
        i += 1;
    }
    assert(props@.take(i as int) == props@);
    r
}

/// Is this property consumed by decomposition: a debug toggle, or the step
/// of a step fence when `step` is set?
pub open spec fn consumed(p: Property, step: bool) -> bool {
    toggle_named(p.name@) is Some || (step && p.name@ == "step"@)
}

/// A later property of `props` has the name of the one at `i`.
pub open spec fn shadowed(props: Seq<Property>, i: int) -> bool {
    exists|k: int| i < k < props.len() && (#[trigger] props[k]).name@ == props[i].name@
}

/// The unconsumed properties among the first `n`, of repeated names only the
/// last one, in order.
pub open spec fn leftover_upto(props: Seq<Property>, step: bool, n: int) -> Seq<Property>
    decreases n,
{
    if n <= 0 {
        seq![]
    } else {
        let rest = leftover_upto(props, step, n - 1);
        if !consumed(props[n - 1], step) && !shadowed(props, n - 1) {
            rest.push(props[n - 1])
        } else {
            rest
        }
    }
}

/// The properties left over once the consumed ones are taken out: a map from
/// name to value, of repeated names the last one counting, in order.
pub open spec fn leftover(props: Seq<Property>, step: bool) -> Seq<Property> {
    leftover_upto(props, step, props.len() as int)
}

/// For each property, whether a later one has its name.
fn shadowed_flags(props: &Vec<Property>) -> (r: Vec<bool>)
    ensures
        r@.len() == props@.len(),
        forall|i: int| 0 <= i < props@.len() ==> r@[i] == shadowed(props@, i),
{
    let mut r: Vec<bool> = Vec::new();
    let mut i: usize = 0;
    while i < props.len()
        invariant
            0 <= i <= props@.len(),
            r@.len() == i,
            forall|k: int| 0 <= k < i ==> r@[k] == shadowed(props@, k),
        decreases props@.len() - i,
    {
        let mut sh = false;
        let mut k: usize = i + 1;
        while k < props.len()
            invariant
                i < props@.len(),
                i + 1 <= k <= props@.len(),
                sh == exists|m: int| i < m < k && (#[trigger] props@[m]).name@ == props@[i as int].name@,
            decreases props@.len() - k,
        {
            if props[k].name == props[i].name {
                sh = true;
            }
            k += 1;
        }
        r.push(sh);
        i += 1;
    }
    r
}

/// The last property named `step`: of repeated names the last one counts.
pub open spec fn step_property(props: Seq<Property>) -> Option<Property>
    decreases props.len(),
{
    if props.len() == 0 {
        None
    } else if props.last().name@ == "step"@ {
        Some(props.last())
    } else {
        step_property(props.drop_last())
    }
}

/// The properties have a `step` whose value is a number.
pub open spec fn step_is_number(props: Seq<Property>) -> bool {
    match step_property(props) {
        Some(p) => p.is_number,
        None => false,
    }
}

/// Splits off the consumed properties, returning the value of the last
/// `step` when `step` is set, and the leftovers.
fn split_properties(props: Vec<Property>, step: bool) -> (r: (Option<serde_json::Value>, Vec<Property>))
    ensures
        r.1@ == leftover(props@, step),
        step ==> r.0 == (match step_property(props@) {
            Some(p) => Some(p.value),
            None => None,
        }),
{
    let ghost all = props@;
    let n = props.len();
    let flags = shadowed_flags(&props);
    let mut rest = props;
    let mut kept: Vec<Property> = Vec::new();
    let mut found: Option<serde_json::Value> = None;
    let mut i: usize = 0;
    while rest.len() > 0
        invariant
            0 <= i <= all.len(),
            all.len() == n,
            i + rest@.len() == all.len(),
            rest@ == all.skip(i as int),
            flags@.len() == all.len(),
            forall|k: int| 0 <= k < all.len() ==> flags@[k] == shadowed(all, k),
            kept@ == leftover_upto(all, step, i as int),
            step ==> found == (match step_property(all.take(i as int)) {
                Some(p) => Some(p.value),
                None => None,
            }),
        decreases rest@.len(),
    {
        let p = rest.remove(0);
        assert(p == all[i as int]);
        assert(all.take(i as int + 1).drop_last() == all.take(i as int));
        assert(all.skip(i as int).drop_first() == all.skip(i as int + 1));
        let is_toggle = toggle_of(&p.name).is_some();
        let is_step = step && is(&p.name, "step");
        if is_toggle || is_step {
            if is_step {
                found = Some(p.value);
            }
        } else if !flags[i] {
            kept.push(p);
        }
        i += 1;
    }
    assert(all.take(i as int) == all);
    (found, kept)
}

pub open spec fn v2_of(p: Point) -> V2 {
    V2 { x: p.x as i64, y: p.y as i64 }
}

/// The vertices of a polyline or polygon as points.
pub fn points(ps: &Vec<Point>) -> (r: Vec<V2>)
    ensures
        r@ == ps@.map_values(|p: Point| v2_of(p)),
{
    let mut r: Vec<V2> = Vec::new();
    let mut i: usize = 0;
    while i < ps.len()
        invariant
            0 <= i <= ps@.len(),
            r@ == ps@.take(i as int).map_values(|p: Point| v2_of(p)),
        decreases ps@.len() - i,
    {
        r.push(V2::new(ps[i].x as i64, ps[i].y as i64));
        i += 1;
        assert(r@ =~= ps@.take(i as int).map_values(|p: Point| v2_of(p)));
    }
    assert(ps@.take(i as int) == ps@);
    r
}

/// How decomposition treats an object of a given semantic type.
#[derive(Clone, Copy, Debug, PartialEq, Eq)]
pub enum ObjectKind {
    Zone,
    Fence,
    StepFence,
    Barrier,
    Other,
}

pub open spec fn kind_of(t: Seq<char>) -> ObjectKind {
    if t == "zone"@ {
        ObjectKind::Zone
    } else if t == "fence"@ {
        ObjectKind::Fence
    } else if t == "step_fence"@ {
        ObjectKind::StepFence
    } else if t == "barrier"@ {
        ObjectKind::Barrier
    } else {
        ObjectKind::Other
    }
}

fn object_kind(t: &String) -> (k: ObjectKind)
    ensures
        k == kind_of(t@),
{
    if is(t, "zone") {
        ObjectKind::Zone
    } else if is(t, "fence") {
        ObjectKind::Fence
    } else if is(t, "step_fence") {
        ObjectKind::StepFence
    } else if is(t, "barrier") {
        ObjectKind::Barrier
    } else {
        ObjectKind::Other
    }
}

/// The sub-objects embedded in the metadata of tile `id`.
pub open spec fn tile_subs(tm: Tiledmap, id: u32) -> Seq<Object> {
    match tile_of(tm, id) {
        Some(t) => match t.object_group {
            Some(g) => g.objects@,
            None => seq![],
        },
        None => seq![],
    }
}

/// The debug renderings that the properties of tile `id` switch on.
pub open spec fn tile_toggles(tm: Tiledmap, id: u32) -> Seq<RenderingToggle> {
    match tile_of(tm, id) {
        Some(t) => toggles_of(t.properties@),
        None => seq![],
    }
}

/// `m` holds the toggles `ts` at `e`, or nothing there when there are none.
pub open spec fn holds_toggles(m: Map<Entity, ObjectRenderingToggles>, e: Entity, ts: Seq<RenderingToggle>) -> bool {
    if ts.len() > 0 {
        m.contains_key(e) && m[e].0@ == ts
    } else {
        !m.contains_key(e)
    }
}

/// `m` holds at `e` an animation playing `frames`, or nothing when there are
/// none.
pub open spec fn holds_animation(m: Map<Entity, Animation>, e: Entity, frames: Option<Seq<Frame>>) -> bool {
    match frames {
        Some(fs) => m.contains_key(e) && plays(m[e], fs),
        None => !m.contains_key(e),
    }
}

/// The top-left pixel of cell `j` of a tile grid `w` cells wide.
pub open spec fn cell_position(tm: Tiledmap, w: u32, j: int) -> V2 {
    V2 { x: ((j % w as int) * tm.tilewidth) as i64, y: ((j / w as int) * tm.tileheight) as i64 }
}

/// The components of the entity `e` made from cell `j` (holding `gid`) of a
/// tile grid `w` cells wide at draw order `z`.
pub open spec fn tile_entity(d: InsertMapData, e: Entity, tm: Tiledmap, w: u32, j: int, gid: GlobalTileIndex, z: u64) -> bool {
    let subs = tile_subs(tm, gid.id);
    &&& holds(d.zlevels@, e, Some(ZLevel(z)))
    &&& holds(d.positions@, e, Some(Position(cell_position(tm, w, j))))
    &&& holds(d.renderings@, e, rendering_of(tm, gid, None))
    &&& holds_animation(d.animations@, e, animation_of(tm, gid, None))
    &&& holds_toggles(d.object_toggles@, e, tile_toggles(tm, gid.id))
    &&& holds(d.offsets@, e, subs_offset(subs))
    &&& holds(d.shapes@, e, subs_shape(subs))
    &&& holds(d.barriers@, e, if subs_barrier(subs) { Some(Barrier) } else { None })
    &&& !d.names@.contains_key(e)
    &&& !d.objects@.contains_key(e)
    &&& !d.jsons@.contains_key(e)
    &&& !d.zones@.contains_key(e)
    &&& !d.fences@.contains_key(e)
    &&& !d.step_fences@.contains_key(e)
}

/// The last row of a grid that fits `i64` positions bounds every row.
pub proof fn lemma_cell_fits(j: nat, len: nat, w: nat, tw: nat, th: nat)
    requires
        w > 0,
        j < len,
        ((len - 1) as nat / w) * th <= i64::MAX,
        w <= u32::MAX,
        tw <= u16::MAX,
    ensures
        (j % w) * tw <= i64::MAX,
        (j / w) * th <= i64::MAX,
{
    assert((j % w) * tw <= i64::MAX) by (nonlinear_arith)
        requires
            w > 0,
            w <= u32::MAX,
            tw <= u16::MAX,
    ;
    vstd::arithmetic::div_mod::lemma_div_is_ordered(j as int, (len - 1) as int, w as int);
    let (q, r) = (j / w, (len - 1) as nat / w);
    assert(q * th <= i64::MAX) by (nonlinear_arith)
        requires
            q <= r,
            r * th <= i64::MAX,
    ;
}

/// Creates the entity of cell `j` (holding `gid`) of a tile grid at draw
/// order `z`.
fn insert_tile_cell(tm: &Tiledmap, w: u32, gid: GlobalTileIndex, j: usize, z: u64, data: &mut InsertMapData)
    requires
        old(data).wf(),
        old(data).next_entity < u64::MAX,
        w > 0,
        (j as int % w as int) * tm.tilewidth <= i64::MAX,
        (j as int / w as int) * tm.tileheight <= i64::MAX,
        subs_ok(tile_subs(*tm, gid.id)),
    ensures
        final(data).next_entity == old(data).next_entity + 1,
        final(data).wf(),
        final(data).same_outside(old(data), old(data).next_entity as int, old(data).next_entity + 1),
        tile_entity(*final(data), old(data).next_entity, *tm, w, j as int, gid, z),
{
    broadcast use vstd::std_specs::hash::group_hash_axioms;
    let e = data.create();
    data.zlevels.insert(e, ZLevel(z));
    let col = j as u64 % w as u64;
    let row = j as u64 / w as u64;
    let x = (col * tm.tilewidth as u64) as i64;
    let y = (row * tm.tileheight as u64) as i64;
    data.positions.insert(e, Position(V2::new(x, y)));
    if let Some(rendering) = get_rendering(tm, &gid, None) {
        data.renderings.insert(e, rendering);
    }
    if let Some(anime) = get_animation(tm, &gid, None) {
        data.animations.insert(e, anime);
    }
    if let Some(tile) = tm.get_tile(gid.id) {
        let toggles = rendering_toggles(&tile.properties);
        if toggles.len() > 0 {
            data.object_toggles.insert(e, ObjectRenderingToggles(toggles));
        }
        if let Some(group) = &tile.object_group {
            apply_sub_objects(e, &group.objects, &mut data.offsets, &mut data.barriers, &mut data.shapes);
        }
    }
}

/// What decomposition needs of an object: known sub-objects in its tile, a
/// polyline for a fence, a polyline and a numeric step for a step fence.
pub open spec fn object_ok(tm: Tiledmap, obj: Object) -> bool {
    let kind = kind_of(deep_type(tm, obj));
    &&& obj.gid matches Some(g) ==> subs_ok(tile_subs(tm, g.id))
    &&& kind == ObjectKind::Fence ==> obj.polyline is Some
    &&& kind == ObjectKind::StepFence ==> obj.polyline is Some && step_is_number(obj.properties@)
}

/// The shape of the entity made from `obj`.
pub open spec fn object_shape(shapes: Map<Entity, Shape>, e: Entity, tm: Tiledmap, obj: Object) -> bool {
    match obj.gid {
        Some(g) => holds(shapes, e, Some(match subs_shape(tile_subs(tm, g.id)) {
            Some(s) => s,
            None => sized_box(obj.width, obj.height),
        })),
        None => match obj.polyline {
            Some(_) => !shapes.contains_key(e),
            None => match obj.polygon {
                Some(vs) => shapes.contains_key(e) && (shapes[e] matches Shape::Polygon { vertices }
                    && vertices@ == vs@.map_values(|p: Point| v2_of(p))),
                None => holds(shapes, e, Some(sized_box(obj.width, obj.height))),
            },
        },
    }
}

/// The components of the entity `e` made from `obj` at draw order `z`.
pub open spec fn object_entity(d: InsertMapData, e: Entity, tm: Tiledmap, obj: Object, z: u64) -> bool {
    let kind = kind_of(deep_type(tm, obj));
    let props = obj.properties@;
    let rest = leftover(props, kind == ObjectKind::StepFence);
    &&& holds(d.zlevels@, e, Some(ZLevel(z)))
    &&& holds(d.names@, e, if obj.name@ != Seq::<char>::empty() { Some(Name(obj.name)) } else { None })
    &&& holds(d.positions@, e, Some(Position(match obj.gid {
        Some(_) => V2 { x: obj.x as i64, y: (obj.y - obj.height) as i64 },
        None => V2 { x: obj.x as i64, y: obj.y as i64 },
    })))
    &&& object_shape(d.shapes@, e, tm, obj)
    &&& match obj.gid {
        Some(g) => {
            &&& holds(d.renderings@, e, rendering_of(tm, g, None))
            &&& holds_animation(d.animations@, e, animation_of(tm, g, None))
            &&& holds(d.offsets@, e, subs_offset(tile_subs(tm, g.id)))
        },
        None => !d.renderings@.contains_key(e) && !d.animations@.contains_key(e) && !d.offsets@.contains_key(e),
    }
    &&& holds(d.barriers@, e, if kind == ObjectKind::Barrier || (obj.gid matches Some(g) && subs_barrier(tile_subs(tm, g.id))) {
        Some(Barrier)
    } else {
        None
    })
    &&& holds_toggles(d.object_toggles@, e, toggles_of(props))
    &&& (d.zones@.contains_key(e) <==> kind == ObjectKind::Zone)
    &&& (d.zones@.contains_key(e) ==> d.zones@[e].inside@.len() == 0)
    &&& (d.fences@.contains_key(e) <==> kind == ObjectKind::Fence)
    &&& (d.fences@.contains_key(e) ==> d.fences@[e].points@ == obj.polyline->Some_0@.map_values(|p: Point| v2_of(p)))
    &&& (d.step_fences@.contains_key(e) <==> kind == ObjectKind::StepFence)
    &&& (d.step_fences@.contains_key(e) ==> {
        &&& d.step_fences@[e].fence.points@ == obj.polyline->Some_0@.map_values(|p: Point| v2_of(p))
        &&& d.step_fences@[e].step == step_property(props)->Some_0.value
    })
    &&& holds(d.objects@, e, if kind == ObjectKind::Other { Some(obj) } else { None })
    &&& (d.jsons@.contains_key(e) <==> kind != ObjectKind::Other && rest.len() > 0)
    &&& (d.jsons@.contains_key(e) ==> d.jsons@[e].0@ == rest)
}

/// The entity `e` does not hold a component in `m` yet.
pub open spec fn fresh<C>(m: Map<Entity, C>, e: Entity) -> bool {
    !m.contains_key(e)
}

/// Places the entity `e` of `obj`: its position, shape, and what its tile
/// brings.
fn place_object(
    tm: &Tiledmap,
    obj: &Object,
    e: Entity,
    positions: &mut HashMap<Entity, Position>,
    shapes: &mut HashMap<Entity, Shape>,
    renderings: &mut HashMap<Entity, Rendering>,
    animations: &mut HashMap<Entity, Animation>,
    offsets: &mut HashMap<Entity, OriginOffset>,
    barriers: &mut HashMap<Entity, Barrier>,
)
    requires
        fresh(old(positions)@, e),
        fresh(old(shapes)@, e),
        fresh(old(renderings)@, e),
        fresh(old(animations)@, e),
        fresh(old(offsets)@, e),
        fresh(old(barriers)@, e),
        obj.gid matches Some(g) ==> subs_ok(tile_subs(*tm, g.id)),
    ensures
        same_outside(final(positions)@, old(positions)@, e as int, e + 1),
        same_outside(final(shapes)@, old(shapes)@, e as int, e + 1),
        same_outside(final(renderings)@, old(renderings)@, e as int, e + 1),
        same_outside(final(animations)@, old(animations)@, e as int, e + 1),
        same_outside(final(offsets)@, old(offsets)@, e as int, e + 1),
        same_outside(final(barriers)@, old(barriers)@, e as int, e + 1),
        holds(final(positions)@, e, Some(Position(match obj.gid {
            Some(_) => V2 { x: obj.x as i64, y: (obj.y - obj.height) as i64 },
            None => V2 { x: obj.x as i64, y: obj.y as i64 },
        }))),
        object_shape(final(shapes)@, e, *tm, *obj),
        match obj.gid {
            Some(g) => {
                &&& holds(final(renderings)@, e, rendering_of(*tm, g, None))
                &&& holds_animation(final(animations)@, e, animation_of(*tm, g, None))
                &&& holds(final(offsets)@, e, subs_offset(tile_subs(*tm, g.id)))
                &&& holds(final(barriers)@, e, if subs_barrier(tile_subs(*tm, g.id)) { Some(Barrier) } else { None })
            },
            None => {
                &&& fresh(final(renderings)@, e)
                &&& fresh(final(animations)@, e)
                &&& fresh(final(offsets)@, e)
                &&& fresh(final(barriers)@, e)
            },
        },
{
    broadcast use vstd::std_specs::hash::group_hash_axioms;
    match obj.gid {
        Some(gid) => {
            let pos = V2::new(obj.x as i64, obj.y as i64 - obj.height as i64);
            positions.insert(e, Position(pos));
            shapes.insert(e, Shape::Box { lower: V2::origin(), upper: V2::new(obj.width as i64, obj.height as i64) });
            if let Some(rendering) = get_rendering(tm, &gid, None) {
                renderings.insert(e, rendering);
            }
            if let Some(anime) = get_animation(tm, &gid, None) {
                animations.insert(e, anime);
            }
            if let Some(tile) = tm.get_tile(gid.id) {
                if let Some(group) = &tile.object_group {
                    apply_sub_objects(e, &group.objects, offsets, barriers, shapes);
                }
            }
        },
        None => {
            positions.insert(e, Position(V2::new(obj.x as i64, obj.y as i64)));
            if obj.polyline.is_some() {
                // a fence, handled by its kind
            } else if let Some(polygon) = &obj.polygon {
                shapes.insert(e, Shape::Polygon { vertices: points(polygon) });
            } else {
                shapes.insert(e, Shape::Box { lower: V2::origin(), upper: V2::new(obj.width as i64, obj.height as i64) });
            }
        },
    }
}

/// Attaches to the entity `e` what the kind of `obj` calls for, and its
/// leftover properties.
fn attach_kind(
    obj: Object,
    kind: ObjectKind,
    e: Entity,
    zones: &mut HashMap<Entity, Zone>,
    fences: &mut HashMap<Entity, Fence>,
    step_fences: &mut HashMap<Entity, StepFence>,
    barriers: &mut HashMap<Entity, Barrier>,
    objects: &mut HashMap<Entity, Object>,
    jsons: &mut HashMap<Entity, JSON>,
)
    requires
        fresh(old(zones)@, e),
        fresh(old(fences)@, e),
        fresh(old(step_fences)@, e),
        fresh(old(objects)@, e),
        fresh(old(jsons)@, e),
        kind == ObjectKind::Fence ==> obj.polyline is Some,
        kind == ObjectKind::StepFence ==> obj.polyline is Some && step_is_number(obj.properties@),
    ensures
        same_outside(final(zones)@, old(zones)@, e as int, e + 1),
        same_outside(final(fences)@, old(fences)@, e as int, e + 1),
        same_outside(final(step_fences)@, old(step_fences)@, e as int, e + 1),
        same_outside(final(objects)@, old(objects)@, e as int, e + 1),
        same_outside(final(jsons)@, old(jsons)@, e as int, e + 1),
        final(barriers)@ == (if kind == ObjectKind::Barrier { old(barriers)@.insert(e, Barrier) } else { old(barriers)@ }),
        (final(zones)@.contains_key(e) <==> kind == ObjectKind::Zone),
        (final(zones)@.contains_key(e) ==> final(zones)@[e].inside@.len() == 0),
        (final(fences)@.contains_key(e) <==> kind == ObjectKind::Fence),
        (final(fences)@.contains_key(e) ==> final(fences)@[e].points@ == obj.polyline->Some_0@.map_values(|p: Point| v2_of(p))),
        (final(step_fences)@.contains_key(e) <==> kind == ObjectKind::StepFence),
        (final(step_fences)@.contains_key(e) ==> {
            &&& final(step_fences)@[e].fence.points@ == obj.polyline->Some_0@.map_values(|p: Point| v2_of(p))
            &&& final(step_fences)@[e].step == step_property(obj.properties@)->Some_0.value
        }),
        holds(final(objects)@, e, if kind == ObjectKind::Other { Some(obj) } else { None }),
        (final(jsons)@.contains_key(e) <==> kind != ObjectKind::Other && leftover(obj.properties@, kind == ObjectKind::StepFence).len() > 0),
        (final(jsons)@.contains_key(e) ==> final(jsons)@[e].0@ == leftover(obj.properties@, kind == ObjectKind::StepFence)),
{
    broadcast use vstd::std_specs::hash::group_hash_axioms;
    if let ObjectKind::Other = kind {
        objects.insert(e, obj);
        return;
    }
    let is_step = match kind {
        ObjectKind::StepFence => true,
        _ => false,
    };
    let polyline = match &obj.polyline {
        Some(line) => points(line),
        None => Vec::new(),
    };
    let (step, rest) = split_properties(obj.properties, is_step);
    match kind {
        ObjectKind::Zone => {
            zones.insert(e, Zone { inside: Vec::new() });
        },
        ObjectKind::Fence => {
            fences.insert(e, Fence { points: polyline });
        },
        ObjectKind::StepFence => {
            if let Some(step) = step {
                step_fences.insert(e, StepFence { step, fence: Fence { points: polyline } });
            }
        },
        _ => {
            barriers.insert(e, Barrier);
        },
    }
    if rest.len() > 0 {
        jsons.insert(e, JSON(rest));
    }
}

/// Creates the entity of `obj` at draw order `z`.
fn insert_object(tm: &Tiledmap, obj: Object, z: u64, data: &mut InsertMapData)
    requires
        old(data).wf(),
        old(data).next_entity < u64::MAX,
        object_ok(*tm, obj),
    ensures
        final(data).next_entity == old(data).next_entity + 1,
        final(data).wf(),
        final(data).same_outside(old(data), old(data).next_entity as int, old(data).next_entity + 1),
        object_entity(*final(data), old(data).next_entity, *tm, obj, z),
{
    broadcast use vstd::std_specs::hash::group_hash_axioms;
    let e = data.create();
    data.zlevels.insert(e, ZLevel(z));
    if !(obj.name == String::new()) {
        data.names.insert(e, Name(obj.name.clone()));
    }
    place_object(
        tm,
        &obj,
        e,
        &mut data.positions,
        &mut data.shapes,
        &mut data.renderings,
        &mut data.animations,
        &mut data.offsets,
        &mut data.barriers,
    );
    let toggles = rendering_toggles(&obj.properties);
    if toggles.len() > 0 {
        data.object_toggles.insert(e, ObjectRenderingToggles(toggles));
    }
    let kind = object_kind(&obj.get_deep_type(tm));
    attach_kind(
        obj,
        kind,
        e,
        &mut data.zones,
        &mut data.fences,
        &mut data.step_fences,
        &mut data.barriers,
        &mut data.objects,
        &mut data.jsons,
    );
}

/// Why a map cannot be decomposed.
#[derive(Clone, Debug, PartialEq, Eq)]
pub enum MapError {
    /// A tile embeds a sub-object of this unknown type.
    UnknownSubObject(String),
    /// The fence object with this id has no polyline.
    FenceWithoutPolyline(u32),
    /// The step fence object with this id has no polyline.
    StepFenceWithoutPolyline(u32),
    /// The step fence object with this id has no numeric `step` property.
    StepFenceWithoutStep(u32),
    /// A tile grid has cells but no width, or rows too far down for an
    /// `i64` position.
    GridOutOfRange,
    /// The entities to make would run out of identifiers.
    TooManyEntities,
}

/// The number of entities that a flattened layer makes.
pub open spec fn layer_size(l: FlatLayer) -> int {
    match l {
        FlatLayer::Tiles(t) => t.data@.len() as int,
        FlatLayer::Objects(o) => o.objects@.len() as int,
    }
}

/// The number of entities that the first `z` flattened layers make.
pub open spec fn count_before(fls: Seq<FlatLayer>, z: int) -> int
    decreases z,
{
    if z <= 0 {
        0
    } else {
        count_before(fls, z - 1) + layer_size(fls[z - 1])
    }
}

/// The number of entities that decomposing `tm` makes.
pub open spec fn entity_count(tm: Tiledmap) -> int {
    let fls = flatten(tm.layers@);
    count_before(fls, fls.len() as int)
}

proof fn lemma_count_before_mono(fls: Seq<FlatLayer>, a: int, b: int)
    requires
        0 <= a <= b <= fls.len(),
    ensures
        0 <= count_before(fls, a) <= count_before(fls, b),
    decreases b,
{
    if a < b {
        lemma_count_before_mono(fls, a, b - 1);
    } else {
        lemma_count_before_nonneg(fls, a);
    }
}

proof fn lemma_count_before_nonneg(fls: Seq<FlatLayer>, a: int)
    requires
        0 <= a <= fls.len(),
    ensures
        0 <= count_before(fls, a),
    decreases a,
{
    if a > 0 {
        lemma_count_before_nonneg(fls, a - 1);
    }
}

/// What decomposition needs of one flattened layer.
pub open spec fn layer_ok(tm: Tiledmap, l: FlatLayer) -> bool {
    match l {
        FlatLayer::Tiles(t) => tiles_ok(tm, t),
        FlatLayer::Objects(o) => objects_ok(tm, o),
    }
}

/// Every cell's tile embeds known sub-objects only.
pub open spec fn tiles_ok(tm: Tiledmap, t: TileLayerData) -> bool {
    forall|j: int| 0 <= j < t.data@.len() ==> subs_ok(tile_subs(tm, (#[trigger] t.data@[j]).id))
}

/// Every object has what decomposition needs.
pub open spec fn objects_ok(tm: Tiledmap, o: ObjectLayerData) -> bool {
    forall|j: int| 0 <= j < o.objects@.len() ==> object_ok(tm, #[trigger] o.objects@[j])
}

/// Can `tm` be decomposed: do its tile templates hold known sub-objects only,
/// and its fences what they need?
pub open spec fn decomposable(tm: Tiledmap) -> bool {
    let fls = flatten(tm.layers@);
    forall|z: int| 0 <= z < fls.len() ==> layer_ok(tm, #[trigger] fls[z])
}

/// Every tile grid of `tm` has positions that fit `i64`.
pub open spec fn grids_fit(tm: Tiledmap) -> bool {
    let fls = flatten(tm.layers@);
    forall|z: int| 0 <= z < fls.len() ==> layer_fits(tm, #[trigger] fls[z])
}

/// The cell positions of a tile grid fit `i64`.
pub open spec fn layer_fits(tm: Tiledmap, l: FlatLayer) -> bool {
    match l {
        FlatLayer::Tiles(t) => grid_fits(t, tm.tileheight),
        FlatLayer::Objects(_) => true,
    }
}

/// The grid has a width, when it has cells, and its last row's position fits
/// `i64` with cells `th` pixels high.
pub open spec fn grid_fits(t: TileLayerData, th: u16) -> bool {
    t.data@.len() == 0 || (t.width > 0 && ((t.data@.len() - 1) / t.width as int) * th <= i64::MAX)
}

fn check_subs(subs: &Vec<Object>) -> (r: Result<(), MapError>)
    ensures
        r is Ok <==> subs_ok(subs@),
{
    let mut i: usize = 0;
    while i < subs.len()
        invariant
            0 <= i <= subs@.len(),
            forall|k: int| 0 <= k < i ==> sub_kind((#[trigger] subs@[k]).type_is@) != SubObjectKind::Unknown,
        decreases subs@.len() - i,
    {
        if let SubObjectKind::Unknown = sub_object_kind(&subs[i].type_is) {
            return Err(MapError::UnknownSubObject(subs[i].type_is.clone()));
        }
        i += 1;
    }
    Ok(())
}

fn check_tile_subs(tm: &Tiledmap, id: u32) -> (r: Result<(), MapError>)
    ensures
        r is Ok <==> subs_ok(tile_subs(*tm, id)),
{
    match tm.get_tile(id) {
        Some(tile) => match &tile.object_group {
            Some(group) => check_subs(&group.objects),
            None => Ok(()),
        },
        None => Ok(()),
    }
}

/// Whether the value of the last property named `step` is a number.
fn numeric_step(props: &Vec<Property>) -> (r: bool)
    ensures
        r == step_is_number(props@),
{
    let mut last: Option<usize> = None;
    let mut i: usize = 0;
    while i < props.len()
        invariant
            0 <= i <= props@.len(),
            match step_property(props@.take(i as int)) {
                Some(p) => last matches Some(k) && k < i && p == props@[k as int],
                None => last is None,
            },
        decreases props@.len() - i,
    {
        assert(props@.take(i as int + 1).drop_last() == props@.take(i as int));
        if is(&props[i].name, "step") {
            last = Some(i);
        }
        i += 1;
    }
    assert(props@.take(i as int) == props@);
    match last {
        Some(k) => props[k].is_number,
        None => false,
    }
}

fn check_object(tm: &Tiledmap, obj: &Object) -> (r: Result<(), MapError>)
    ensures
        r is Ok <==> object_ok(*tm, *obj),
{
    if let Some(gid) = obj.gid {
        check_tile_subs(tm, gid.id)?;
    }
    match object_kind(&obj.get_deep_type(tm)) {
        ObjectKind::Fence => if obj.polyline.is_none() {
            return Err(MapError::FenceWithoutPolyline(obj.id));
        },
        ObjectKind::StepFence => {
            if obj.polyline.is_none() {
                return Err(MapError::StepFenceWithoutPolyline(obj.id));
            }
            if !numeric_step(&obj.properties) {
                return Err(MapError::StepFenceWithoutStep(obj.id));
            }
        },
        _ => {},
    }
    Ok(())
}

fn check_layer(tm: &Tiledmap, layer: &FlatLayer) -> (r: Result<(), MapError>)
    ensures
        r is Ok <==> layer_ok(*tm, *layer),
{
    match layer {
        FlatLayer::Tiles(t) => {
            let mut j: usize = 0;
            while j < t.data.len()
                invariant
                    0 <= j <= t.data@.len(),
                    *layer == FlatLayer::Tiles(*t),
                    forall|k: int| 0 <= k < j ==> subs_ok(tile_subs(*tm, (#[trigger] t.data@[k]).id)),
                decreases t.data@.len() - j,
            {
                if let Err(err) = check_tile_subs(tm, t.data[j].id) {
                    assert(!subs_ok(tile_subs(*tm, t.data@[j as int].id)));
                    return Err(err);
                }
                j += 1;
            }
            Ok(())
        },
        FlatLayer::Objects(o) => {
            let mut j: usize = 0;
            while j < o.objects.len()
                invariant
                    0 <= j <= o.objects@.len(),
                    *layer == FlatLayer::Objects(*o),
                    forall|k: int| 0 <= k < j ==> object_ok(*tm, #[trigger] o.objects@[k]),
                decreases o.objects@.len() - j,
            {
                if let Err(err) = check_object(tm, &o.objects[j]) {
                    assert(!object_ok(*tm, o.objects@[j as int]));
                    return Err(err);
                }
                j += 1;
            }
            Ok(())
        },
    }
}

fn check_layers(tm: &Tiledmap, fls: &Vec<FlatLayer>) -> (r: Result<(), MapError>)
    ensures
        r is Ok <==> forall|z: int| 0 <= z < fls@.len() ==> layer_ok(*tm, #[trigger] fls@[z]),
{
    let mut z: usize = 0;
    while z < fls.len()
        invariant
            0 <= z <= fls@.len(),
            forall|k: int| 0 <= k < z ==> layer_ok(*tm, #[trigger] fls@[k]),
        decreases fls@.len() - z,
    {
        if let Err(err) = check_layer(tm, &fls[z]) {
            assert(!layer_ok(*tm, fls@[z as int]));
            return Err(err);
        }
        z += 1;
    }
    Ok(())
}

/// Every entity of `lo .. lo + n` agrees with tile grid `t` at draw order `z`.
pub open spec fn tile_layer_entities(d: InsertMapData, lo: int, tm: Tiledmap, t: TileLayerData, z: u64, n: int) -> bool {
    forall|j: int| 0 <= j < n ==> #[trigger] tile_entity(d, (lo + j) as Entity, tm, t.width, j, t.data@[j], z)
}

/// Every entity of `lo .. lo + n` agrees with the objects `objs` at draw
/// order `z`.
pub open spec fn object_layer_entities(d: InsertMapData, lo: int, tm: Tiledmap, objs: Seq<Object>, z: u64, n: int) -> bool {
    forall|j: int| 0 <= j < n ==> #[trigger] object_entity(d, (lo + j) as Entity, tm, objs[j], z)
}

/// Creates the entities of tile grid `t` at draw order `z`, one per cell.
fn insert_tile_layer(tm: &Tiledmap, t: &TileLayerData, z: u64, data: &mut InsertMapData)
    requires
        old(data).wf(),
        old(data).next_entity + t.data@.len() <= u64::MAX,
        grid_fits(*t, tm.tileheight),
        tiles_ok(*tm, *t),
    ensures
        final(data).next_entity == old(data).next_entity + t.data@.len(),
        final(data).wf(),
        final(data).same_outside(old(data), old(data).next_entity as int, final(data).next_entity as int),
        tile_layer_entities(*final(data), old(data).next_entity as int, *tm, *t, z, t.data@.len() as int),
{
    let ghost lo = data.next_entity as int;
    let mut j: usize = 0;
    while j < t.data.len()
        invariant
            0 <= j <= t.data@.len(),
            data.wf(),
            data.next_entity == lo + j,
            lo + t.data@.len() <= u64::MAX,
            lo == old(data).next_entity,
            grid_fits(*t, tm.tileheight),
            tiles_ok(*tm, *t),
            data.same_outside(old(data), lo, data.next_entity as int),
            tile_layer_entities(*data, lo, *tm, *t, z, j as int),
        decreases t.data@.len() - j,
    {
        let ghost before = *data;
        assert(subs_ok(tile_subs(*tm, t.data@[j as int].id)));
        proof {
            lemma_cell_fits(j as nat, t.data@.len(), t.width as nat, tm.tilewidth as nat, tm.tileheight as nat);
        }
        insert_tile_cell(tm, t.width, t.data[j], j, z, data);
        proof {
            assert forall|k: int| 0 <= k < j + 1 implies #[trigger] tile_entity(*data, (lo + k) as Entity, *tm, t.width, k, t.data@[k], z) by {
                if k < j {
                    assert(tile_entity(before, (lo + k) as Entity, *tm, t.width, k, t.data@[k], z));
                    lemma_tile_entity_frame(before, *data, (lo + k) as Entity, lo + j, lo + j + 1, *tm, t.width, k, t.data@[k], z);
                }
            }
        }
        j += 1;
    }
}

proof fn lemma_tile_entity_frame(
    d1: InsertMapData,
    d2: InsertMapData,
    e: Entity,
    lo: int,
    hi: int,
    tm: Tiledmap,
    w: u32,
    j: int,
    gid: GlobalTileIndex,
    z: u64,
)
    requires
        d2.same_outside(&d1, lo, hi),
        e < lo || e >= hi,
        tile_entity(d1, e, tm, w, j, gid, z),
    ensures
        tile_entity(d2, e, tm, w, j, gid, z),
{
    lemma_agree_at(d1, d2, e, lo, hi);
}

proof fn lemma_object_entity_frame(d1: InsertMapData, d2: InsertMapData, e: Entity, lo: int, hi: int, tm: Tiledmap, obj: Object, z: u64)
    requires
        d2.same_outside(&d1, lo, hi),
        e < lo || e >= hi,
        object_entity(d1, e, tm, obj, z),
    ensures
        object_entity(d2, e, tm, obj, z),
{
    lemma_agree_at(d1, d2, e, lo, hi);
}

/// Creates the entities of the objects of `o` at draw order `z`, one per
/// object, in order.
fn insert_object_layer(tm: &Tiledmap, o: ObjectLayerData, z: u64, data: &mut InsertMapData)
    requires
        old(data).wf(),
        old(data).next_entity + o.objects@.len() <= u64::MAX,
        objects_ok(*tm, o),
    ensures
        final(data).next_entity == old(data).next_entity + o.objects@.len(),
        final(data).wf(),
        final(data).same_outside(old(data), old(data).next_entity as int, final(data).next_entity as int),
        object_layer_entities(*final(data), old(data).next_entity as int, *tm, o.objects@, z, o.objects@.len() as int),
{
    let ghost all = o.objects@;
    let ghost lo = data.next_entity as int;
    let n = o.objects.len();
    let mut rest = o.objects;
    let mut j: usize = 0;
    while rest.len() > 0
        invariant
            0 <= j <= all.len(),
            all.len() == n,
            j + rest@.len() == all.len(),
            rest@ == all.skip(j as int),
            data.wf(),
            data.next_entity == lo + j,
            lo + all.len() <= u64::MAX,
            lo == old(data).next_entity,
            forall|k: int| 0 <= k < all.len() ==> object_ok(*tm, #[trigger] all[k]),
            data.same_outside(old(data), lo, data.next_entity as int),
            object_layer_entities(*data, lo, *tm, all, z, j as int),
        decreases rest@.len(),
    {
        let ghost before = *data;
        let obj = rest.remove(0);
        assert(obj == all[j as int]);
        assert(all.skip(j as int).drop_first() == all.skip(j as int + 1));
        insert_object(tm, obj, z, data);
        proof {
            assert forall|k: int| 0 <= k < j + 1 implies #[trigger] object_entity(*data, (lo + k) as Entity, *tm, all[k], z) by {
                if k < j {
                    assert(object_entity(before, (lo + k) as Entity, *tm, all[k], z));
                    lemma_object_entity_frame(before, *data, (lo + k) as Entity, lo + j, lo + j + 1, *tm, all[k], z);
                }
            }
        }
        j += 1;
    }
}

fn grid_positions_fit(t: &TileLayerData, th: u16) -> (r: bool)
    ensures
        r == grid_fits(*t, th),
{
    if t.data.len() == 0 {
        return true;
    }
    if t.width == 0 {
        return false;
    }
    let rows = (t.data.len() - 1) as u64 / t.width as u64;
    if th == 0 {
        assert(rows * th == 0);
        return true;
    }
    let bound = (i64::MAX as u64) / th as u64;
    proof {
        let (q, m, d) = (rows as int, i64::MAX as int, th as int);
        vstd::arithmetic::div_mod::lemma_fundamental_div_mod(m, d);
        if q <= m / d {
            assert(q * d <= (m / d) * d) by (nonlinear_arith)
                requires
                    q <= m / d,
                    d > 0,
            ;
        } else {
            assert(q * d >= (m / d + 1) * d) by (nonlinear_arith)
                requires
                    q >= m / d + 1,
                    d > 0,
            ;
            assert((m / d + 1) * d == (m / d) * d + d) by (nonlinear_arith);
        }
    }
    rows <= bound
}

/// Checks that every grid fits the map and that the entities to make fit
/// after `next`.
fn check_sizes(tm: &Tiledmap, fls: &Vec<FlatLayer>, next: Entity) -> (r: Result<(), MapError>)
    ensures
        r is Ok <==> (forall|z: int| 0 <= z < fls@.len() ==> layer_fits(*tm, #[trigger] fls@[z])) && next
            + count_before(fls@, fls@.len() as int) <= u64::MAX,
{
    let mut total: u64 = next;
    let mut z: usize = 0;
    while z < fls.len()
        invariant
            0 <= z <= fls@.len(),
            total == next + count_before(fls@, z as int),
            forall|k: int| 0 <= k < z ==> layer_fits(*tm, #[trigger] fls@[k]),
        decreases fls@.len() - z,
    {
        let size = match &fls[z] {
            FlatLayer::Tiles(t) => {
                if !grid_positions_fit(t, tm.tileheight) {
                    assert(!layer_fits(*tm, fls@[z as int]));
                    return Err(MapError::GridOutOfRange);
                }
                t.data.len()
            },
            FlatLayer::Objects(o) => o.objects.len(),
        };
        if size as u64 > u64::MAX - total {
            proof {
                lemma_count_before_mono(fls@, z as int + 1, fls@.len() as int);
            }
            return Err(MapError::TooManyEntities);
        }
        total = total + size as u64;
        z += 1;
    }
    Ok(())
}

/// The components of entity `e` made from entry `j` of flattened layer `l` at
/// draw order `z`.
pub open spec fn layer_entity(d: InsertMapData, e: Entity, tm: Tiledmap, l: FlatLayer, j: int, z: u64) -> bool {
    match l {
        FlatLayer::Tiles(t) => tile_entity(d, e, tm, t.width, j, t.data@[j], z),
        FlatLayer::Objects(o) => object_entity(d, e, tm, o.objects@[j], z),
    }
}

/// Every entity made from the first `nz` flattened layers, starting at `lo`,
/// agrees with its layer entry.
pub open spec fn map_entities(d: InsertMapData, lo: int, tm: Tiledmap, fls: Seq<FlatLayer>, nz: int) -> bool {
    forall|z: int, j: int|
        0 <= z < nz && 0 <= j < layer_size(fls[z]) ==> #[trigger] layer_entity(
            d,
            (lo + count_before(fls, z) + j) as Entity,
            tm,
            fls[z],
            j,
            z as u64,
        )
}

/// Decomposes `map` into entities, one per tile-grid cell and one per object,
/// layer after flattened layer; the entities of flattened layer `z` get draw
/// order `z`. A map that is not decomposable leaves `data` as it was.
pub fn insert_map(map: Tiledmap, data: &mut InsertMapData) -> (r: Result<(), MapError>)
    requires
        old(data).wf(),
    ensures
        r is Ok <==> decomposable(map) && grids_fit(map) && old(data).next_entity + entity_count(map) <= u64::MAX,
        r is Err ==> *final(data) == *old(data),
        r is Ok ==> {
            &&& final(data).next_entity == old(data).next_entity + entity_count(map)
            &&& final(data).wf()
            &&& final(data).same_outside(old(data), old(data).next_entity as int, final(data).next_entity as int)
            &&& map_entities(*final(data), old(data).next_entity as int, map, flatten(map.layers@), flatten(map.layers@).len() as int)
        },
{
    let ghost m = map;
    let Tiledmap { width, height, tilewidth, tileheight, layers, tilesets } = map;
    let tm = Tiledmap { width, height, tilewidth, tileheight, layers: Vec::new(), tilesets };
    let fls = flatten_layers(layers);
    let ghost all = fls@;
    if let Err(err) = check_layers(&tm, &fls) {
        proof {
            let z = choose|z: int| 0 <= z < all.len() && !layer_ok(tm, #[trigger] all[z]);
            assert(!layer_ok(m, all[z]));
        }
        return Err(err);
    }
    assert forall|z: int| 0 <= z < all.len() implies layer_ok(m, #[trigger] all[z]) by {
        assert(layer_ok(tm, all[z]));
    }
    if let Err(err) = check_sizes(&tm, &fls, data.next_entity) {
        proof {
            if forall|z: int| 0 <= z < all.len() ==> layer_fits(tm, #[trigger] all[z]) {
                assert forall|z: int| 0 <= z < all.len() implies layer_fits(m, #[trigger] all[z]) by {
                    assert(layer_fits(tm, all[z]));
                }
            } else {
                let z = choose|z: int| 0 <= z < all.len() && !layer_fits(tm, #[trigger] all[z]);
                assert(!layer_fits(m, all[z]));
            }
        }
        return Err(err);
    }
    assert forall|z: int| 0 <= z < all.len() implies layer_fits(m, #[trigger] all[z]) by {
        assert(layer_fits(tm, all[z]));
    }
    let ghost lo = data.next_entity as int;
    let n = fls.len();
    let mut rest = fls;
    let mut z: usize = 0;
    proof {
        lemma_count_before_mono(all, 0, all.len() as int);
    }
    while rest.len() > 0
        invariant
            0 <= z <= all.len(),
            all.len() == n,
            all == flatten(m.layers@),
            z + rest@.len() == all.len(),
            rest@ == all.skip(z as int),
            tm.tilesets == m.tilesets,
            tm.width == m.width,
            tm.height == m.height,
            tm.tilewidth == m.tilewidth,
            tm.tileheight == m.tileheight,
            data.wf(),
            data.next_entity == lo + count_before(all, z as int),
            lo + count_before(all, all.len() as int) <= u64::MAX,
            lo == old(data).next_entity,
            forall|k: int| 0 <= k < all.len() ==> layer_ok(m, #[trigger] all[k]),
            forall|k: int| 0 <= k < all.len() ==> layer_fits(m, #[trigger] all[k]),
            data.same_outside(old(data), lo, data.next_entity as int),
            map_entities(*data, lo, m, all, z as int),
        decreases rest@.len(),
    {
        let ghost before = *data;
        let layer = rest.remove(0);
        assert(layer == all[z as int]);
        assert(all.skip(z as int).drop_first() == all.skip(z as int + 1));
        proof {
            lemma_count_before_mono(all, z as int + 1, all.len() as int);
            assert(layer_ok(m, all[z as int]));
            assert(layer_fits(m, all[z as int]));
        }
        match layer {
            FlatLayer::Tiles(t) => {
                insert_tile_layer(&tm, &t, z as u64, data);
            },
            FlatLayer::Objects(o) => {
                insert_object_layer(&tm, o, z as u64, data);
            },
        }
        proof {
            let c = count_before(all, z as int);
            lemma_count_before_nonneg(all, z as int);
            assert(count_before(all, z as int + 1) == c + layer_size(all[z as int]));
            lemma_store_trans(*old(data), before, *data, lo, lo + c, data.next_entity as int);
            assert forall|zz: int, j: int|
                0 <= zz < z + 1 && 0 <= j < layer_size(all[zz]) implies #[trigger] layer_entity(
                *data,
                (lo + count_before(all, zz) + j) as Entity,
                m,
                all[zz],
                j,
                zz as u64,
            ) by {
                let e = (lo + count_before(all, zz) + j) as Entity;
                if zz < z {
                    lemma_count_before_mono(all, zz + 1, z as int);
                    assert(layer_entity(before, e, m, all[zz], j, zz as u64));
                    match all[zz] {
                        FlatLayer::Tiles(t) => lemma_tile_entity_frame(before, *data, e, lo + c, data.next_entity as int, m, t.width, j, t.data@[j], zz as u64),
                        FlatLayer::Objects(o) => lemma_object_entity_frame(before, *data, e, lo + c, data.next_entity as int, m, o.objects@[j], zz as u64),
                    }
                } else {
                    match all[zz] {
                        FlatLayer::Tiles(t) => {
                            assert(tile_entity(*data, e, tm, t.width, j, t.data@[j], zz as u64));
                        },
                        FlatLayer::Objects(o) => {
                            assert(object_entity(*data, e, tm, o.objects@[j], zz as u64));
                        },
                    }
                }
            }
        }
        z += 1;
    }
    assert(all.skip(z as int).len() == 0);
    Ok(())
}

proof fn lemma_map_trans<C>(a: Map<Entity, C>, b: Map<Entity, C>, c: Map<Entity, C>, lo: int, mid: int, hi: int)
    requires
        lo <= mid <= hi,
        same_outside(b, a, lo, mid),
        same_outside(c, b, mid, hi),
    ensures
        same_outside(c, a, lo, hi),
{
    assert forall|e: Entity| (e < lo || e >= hi) implies (#[trigger] c.contains_key(e) == a.contains_key(e) && (
    c.contains_key(e) ==> c[e] == a[e])) by {
        assert(b.contains_key(e) == a.contains_key(e));
        assert(c.contains_key(e) == b.contains_key(e));
    }
}

proof fn lemma_store_trans(d1: InsertMapData, d2: InsertMapData, d3: InsertMapData, lo: int, mid: int, hi: int)
    requires
        lo <= mid <= hi,
        d2.same_outside(&d1, lo, mid),
        d3.same_outside(&d2, mid, hi),
    ensures
        d3.same_outside(&d1, lo, hi),
{
    lemma_map_trans(d1.animations@, d2.animations@, d3.animations@, lo, mid, hi);
    lemma_map_trans(d1.barriers@, d2.barriers@, d3.barriers@, lo, mid, hi);
    lemma_map_trans(d1.fences@, d2.fences@, d3.fences@, lo, mid, hi);
    lemma_map_trans(d1.jsons@, d2.jsons@, d3.jsons@, lo, mid, hi);
    lemma_map_trans(d1.names@, d2.names@, d3.names@, lo, mid, hi);
    lemma_map_trans(d1.objects@, d2.objects@, d3.objects@, lo, mid, hi);
    lemma_map_trans(d1.object_toggles@, d2.object_toggles@, d3.object_toggles@, lo, mid, hi);
    lemma_map_trans(d1.offsets@, d2.offsets@, d3.offsets@, lo, mid, hi);
    lemma_map_trans(d1.positions@, d2.positions@, d3.positions@, lo, mid, hi);
    lemma_map_trans(d1.renderings@, d2.renderings@, d3.renderings@, lo, mid, hi);
    lemma_map_trans(d1.shapes@, d2.shapes@, d3.shapes@, lo, mid, hi);
    lemma_map_trans(d1.step_fences@, d2.step_fences@, d3.step_fences@, lo, mid, hi);
    lemma_map_trans(d1.zlevels@, d2.zlevels@, d3.zlevels@, lo, mid, hi);
    lemma_map_trans(d1.zones@, d2.zones@, d3.zones@, lo, mid, hi);
}

/// A request, attached to an entity, to load the map at `file` and decompose
/// it.
#[derive(Clone, Debug, PartialEq, Eq)]
pub struct LoadMap {
    pub file: String,
}

/// Serves pending map loads: loads each requested map once and decomposes it
/// when it has arrived.
pub struct TiledmapSystem {
    pub resources: TiledmapResources,
}

/// Is the load of a path with this slot still to come?
pub open spec fn waits(slot: Option<SharedResource>) -> bool {
    slot is None || slot == Some(SharedResource::Loading)
}

/// The requests that stay pending: those whose path was not loaded yet, nor
/// failed, when the tick began.
pub open spec fn still_pending(reqs: Seq<(Entity, LoadMap)>, v: ResourcesView) -> Seq<(Entity, LoadMap)>
    decreases reqs.len(),
{
    if reqs.len() == 0 {
        seq![]
    } else {
        let rest = still_pending(reqs.drop_last(), v);
        if waits(v.slot(reqs.last().1.file@)) {
            rest.push(reqs.last())
        } else {
            rest
        }
    }
}

/// The maps that a tick serving `reqs` from the registry `v` decomposes, in
/// the order of each path's first request: those whose load had completed.
pub open spec fn served_maps(reqs: Seq<(Entity, LoadMap)>, v: ResourcesView) -> Seq<Tiledmap>
    decreases reqs.len(),
{
    if reqs.len() == 0 {
        seq![]
    } else {
        let rest = served_maps(reqs.drop_last(), v);
        match v.slot(reqs.last().1.file@) {
            Some(SharedResource::Complete(m)) => if requested(reqs.drop_last(), reqs.last().1.file@) {
                rest
            } else {
                rest.push(m)
            },
            _ => rest,
        }
    }
}

/// The number of entities that decomposing the first `k` maps makes.
pub open spec fn maps_count(maps: Seq<Tiledmap>, k: int) -> int
    decreases k,
{
    if k <= 0 {
        0
    } else {
        maps_count(maps, k - 1) + entity_count(maps[k - 1])
    }
}

/// Every map can be decomposed, its grids' positions fitting `i64`.
pub open spec fn maps_ok(maps: Seq<Tiledmap>) -> bool {
    forall|k: int| 0 <= k < maps.len() ==> decomposable(#[trigger] maps[k]) && grids_fit(maps[k])
}

/// The first `n` maps were decomposed one after the other from entity `lo`.
pub open spec fn decomposed_all(d: InsertMapData, lo: int, maps: Seq<Tiledmap>, n: int) -> bool {
    forall|k: int|
        0 <= k < n ==> #[trigger] map_entities(
            d,
            lo + maps_count(maps, k),
            maps[k],
            flatten(maps[k].layers@),
            flatten(maps[k].layers@).len() as int,
        )
}

proof fn lemma_maps_count_nonneg(maps: Seq<Tiledmap>, k: int)
    ensures
        0 <= maps_count(maps, k),
    decreases k,
{
    if k > 0 {
        lemma_maps_count_nonneg(maps, k - 1);
        let fls = flatten(maps[k - 1].layers@);
        lemma_count_before_nonneg(fls, fls.len() as int);
    }
}

proof fn lemma_maps_count_mono(maps: Seq<Tiledmap>, a: int, b: int)
    requires
        0 <= a <= b,
    ensures
        maps_count(maps, a) <= maps_count(maps, b),
    decreases b,
{
    if a < b {
        lemma_maps_count_mono(maps, a, b - 1);
        let fls = flatten(maps[b - 1].layers@);
        lemma_count_before_nonneg(fls, fls.len() as int);
    }
}

proof fn lemma_maps_count_prefix(a: Seq<Tiledmap>, b: Seq<Tiledmap>, k: int)
    requires
        0 <= k <= a.len(),
        k <= b.len(),
        forall|i: int| 0 <= i < k ==> a[i] == b[i],
    ensures
        maps_count(a, k) == maps_count(b, k),
    decreases k,
{
    if k > 0 {
        lemma_maps_count_prefix(a, b, k - 1);
    }
}

/// The maps served for a prefix of the requests lead those served for all.
proof fn lemma_served_prefix(reqs: Seq<(Entity, LoadMap)>, v: ResourcesView, j: int)
    requires
        0 <= j <= reqs.len(),
    ensures
        served_maps(reqs.take(j), v).len() <= served_maps(reqs, v).len(),
        forall|k: int|
            0 <= k < served_maps(reqs.take(j), v).len() ==> #[trigger] served_maps(reqs.take(j), v)[k]
                == served_maps(reqs, v)[k],
    decreases reqs.len(),
{
    if j == reqs.len() {
        assert(reqs.take(j) == reqs);
    } else {
        assert(reqs.drop_last().take(j) == reqs.take(j));
        lemma_served_prefix(reqs.drop_last(), v, j);
    }
}

/// Entities decomposed from a map stay as they were while only entities at
/// or after `a` change.
proof fn lemma_map_entities_frame(d1: InsertMapData, d2: InsertMapData, lo: int, tm: Tiledmap, a: int, b: int)
    requires
        map_entities(d1, lo, tm, flatten(tm.layers@), flatten(tm.layers@).len() as int),
        d2.same_outside(&d1, a, b),
        0 <= lo,
        lo + entity_count(tm) <= a,
    ensures
        map_entities(d2, lo, tm, flatten(tm.layers@), flatten(tm.layers@).len() as int),
{
    let fls = flatten(tm.layers@);
    assert forall|z: int, j: int| 0 <= z < fls.len() && 0 <= j < layer_size(fls[z]) implies #[trigger] layer_entity(
        d2,
        (lo + count_before(fls, z) + j) as Entity,
        tm,
        fls[z],
        j,
        z as u64,
    ) by {
        let e = (lo + count_before(fls, z) + j) as Entity;
        lemma_count_before_nonneg(fls, z);
        lemma_count_before_mono(fls, z + 1, fls.len() as int);
        assert(count_before(fls, z + 1) == count_before(fls, z) + layer_size(fls[z]));
        assert(layer_entity(d1, e, tm, fls[z], j, z as u64));
        match fls[z] {
            FlatLayer::Tiles(t) => lemma_tile_entity_frame(d1, d2, e, a, b, tm, t.width, j, t.data@[j], z as u64),
            FlatLayer::Objects(o) => lemma_object_entity_frame(d1, d2, e, a, b, tm, o.objects@[j], z as u64),
        }
    }
}

/// Does one of the requests ask for `p`?
pub open spec fn requested(reqs: Seq<(Entity, LoadMap)>, p: Seq<char>) -> bool {
    exists|i: int| 0 <= i < reqs.len() && reqs[i].1.file@ == p
}

/// No requested path had a completed load when the tick began.
pub open spec fn none_complete(reqs: Seq<(Entity, LoadMap)>, v: ResourcesView) -> bool {
    forall|p: Seq<char>| #[trigger] requested(reqs, p) ==> !(v.slot(p) matches Some(SharedResource::Complete(_)))
}

/// The slot of `p` after a tick that served `reqs`, from the registry `v`: a
/// requested path with no slot is loading, a completed one was consumed, and
/// every other slot stays.
pub open spec fn slot_after_tick(v: ResourcesView, reqs: Seq<(Entity, LoadMap)>, p: Seq<char>) -> Option<SharedResource> {
    if requested(reqs, p) {
        match v.slot(p) {
            None => Some(SharedResource::Loading),
            Some(SharedResource::Complete(_)) => None,
            s => s,
        }
    } else {
        v.slot(p)
    }
}

fn contains_path(paths: &Vec<String>, p: &String) -> (r: bool)
    ensures
        r == exists|i: int| 0 <= i < paths@.len() && (#[trigger] paths@[i])@ == p@,
{
    let mut i: usize = 0;
    while i < paths.len()
        invariant
            0 <= i <= paths@.len(),
            forall|k: int| 0 <= k < i ==> (#[trigger] paths@[k])@ != p@,
        decreases paths@.len() - i,
    {
        if paths[i] == *p {
            return true;
        }
        i += 1;
    }
    false
}

impl TiledmapSystem {
    pub fn new(base_url: &str) -> (r: TiledmapSystem)
        ensures
            r.resources.wf(),
            r.resources@.slots == Map::<Seq<char>, SharedResource>::empty(),
            r.resources@.fetches == Seq::<Seq<char>>::empty(),
            r.resources.base_url_spec() == base_url@,
    {
        TiledmapSystem { resources: TiledmapResources::new(base_url) }
    }

    /// One tick: asks for the map of every request, in order, and decomposes
    /// each map that has arrived, once per path. A request is dropped when its
    /// map was decomposed or failed to load, and stays otherwise (a first
    /// request starts its load). Requests for one path share one outcome. A
    /// map that cannot be decomposed ends the tick with its error, the requests
    /// left as they were.
    pub fn run(&mut self, reqs: &mut Vec<(Entity, LoadMap)>, data: &mut InsertMapData) -> (r: Result<(), MapError>)
        requires
            old(self).resources.wf(),
            old(data).wf(),
        ensures
            final(self).resources.wf(),
            final(data).wf(),
            final(data).next_entity >= old(data).next_entity,
            final(self).resources.base_url_spec() == old(self).resources.base_url_spec(),
            r is Err ==> final(reqs)@ == old(reqs)@,
            r is Ok ==> final(reqs)@ == still_pending(old(reqs)@, old(self).resources@),
            r is Ok ==> forall|p: Seq<char>| #[trigger] final(self).resources@.slot(p) == slot_after_tick(
                old(self).resources@,
                old(reqs)@,
                p,
            ),
            r is Ok && none_complete(old(reqs)@, old(self).resources@) ==> *final(data) == *old(data),
            ({
                let maps = served_maps(old(reqs)@, old(self).resources@);
                &&& r is Ok <==> maps_ok(maps) && old(data).next_entity + maps_count(maps, maps.len() as int) <= u64::MAX
                &&& r is Ok ==> {
                    &&& final(data).next_entity == old(data).next_entity + maps_count(maps, maps.len() as int)
                    &&& final(data).same_outside(old(data), old(data).next_entity as int, final(data).next_entity as int)
                    &&& decomposed_all(*final(data), old(data).next_entity as int, maps, maps.len() as int)
                }
            }),
    {
        let ghost start = self.resources@;
        let mut done: Vec<String> = Vec::new();
        let mut kept: Vec<(Entity, LoadMap)> = Vec::new();
        let mut i: usize = 0;
        while i < reqs.len()
            invariant
                0 <= i <= reqs@.len(),
                reqs@ == old(reqs)@,
                self.resources.wf(),
                self.resources.base_url_spec() == old(self).resources.base_url_spec(),
                start == old(self).resources@,
                data.wf(),
                data.next_entity >= old(data).next_entity,
                none_complete(reqs@.take(i as int), start) ==> *data == *old(data),
                maps_ok(served_maps(reqs@.take(i as int), start)),
                data.next_entity == old(data).next_entity + maps_count(
                    served_maps(reqs@.take(i as int), start),
                    served_maps(reqs@.take(i as int), start).len() as int,
                ),
                data.same_outside(old(data), old(data).next_entity as int, data.next_entity as int),
                decomposed_all(
                    *data,
                    old(data).next_entity as int,
                    served_maps(reqs@.take(i as int), start),
                    served_maps(reqs@.take(i as int), start).len() as int,
                ),
                kept@ == still_pending(reqs@.take(i as int), start),
                forall|k: int|
                    0 <= k < done@.len() ==> requested(reqs@.take(i as int), (#[trigger] done@[k])@) && !waits(
                        start.slot(done@[k]@),
                    ),
                forall|p: Seq<char>|
                    requested(reqs@.take(i as int), p) && !waits(start.slot(p)) ==> exists|k: int|
                        0 <= k < done@.len() && (#[trigger] done@[k])@ == p,
                forall|p: Seq<char>| #[trigger] self.resources@.slot(p) == slot_after_tick(start, reqs@.take(i as int), p),
            decreases reqs@.len() - i,
        {
            let ghost pre = reqs@.take(i as int);
            let ghost post = reqs@.take(i as int + 1);
            assert(post.drop_last() == pre);
            let ghost before = self.resources@;
            let ghost data_before = *data;
            let entity = reqs[i].0;
            let file = reqs[i].1.file.clone();
            let ghost p = file@;
            proof {
                assert(post[i as int] == reqs@[i as int]);
                assert forall|q: Seq<char>| #[trigger] requested(post, q) == (requested(pre, q) || q == p) by {
                    if requested(pre, q) {
                        let k = choose|k: int| 0 <= k < pre.len() && pre[k].1.file@ == q;
                        assert(post[k] == pre[k]);
                    }
                    if requested(post, q) && q != p {
                        let k = choose|k: int| 0 <= k < post.len() && post[k].1.file@ == q;
                        assert(pre[k] == post[k]);
                    }
                    if q == p {
                        assert(post[i as int].1.file@ == q);
                    }
                }
            }
            let ghost old_done = done@;
            let found = contains_path(&done, &file);
            if !found {
                match self.resources.when_loaded(file.as_str()) {
                    Ok(map) => {
                        proof {
                            lemma_count_before_nonneg(flatten(map.layers@), flatten(map.layers@).len() as int);
                        }
                        let ghost m = map;
                        let ghost sv = served_maps(pre, start);
                        proof {
                            lemma_maps_count_nonneg(sv, sv.len() as int);
                            assert(served_maps(post, start) == sv.push(m));
                        }
                        let res = insert_map(map, data);
                        if let Err(err) = res {
                            proof {
                                let full = served_maps(reqs@, start);
                                assert(reqs@.take(reqs@.len() as int) == reqs@);
                                lemma_served_prefix(reqs@, start, i as int + 1);
                                let n = sv.len() as int;
                                assert(served_maps(post, start)[n] == m);
                                assert(served_maps(reqs@.take(i as int + 1), start)[n] == full[n]);
                                assert(full[n] == m);
                                lemma_maps_count_prefix(full, sv.push(m), n + 1);
                                lemma_maps_count_mono(full, n + 1, full.len() as int);
                                assert(maps_count(sv.push(m), n + 1) == maps_count(sv, n) + entity_count(m)) by {
                                    lemma_maps_count_prefix(sv, sv.push(m), n);
                                }
                            }
                            return Err(err);
                        }
                        proof {
                            let sv2 = sv.push(m);
                            let n = sv.len() as int;
                            lemma_maps_count_prefix(sv, sv2, n);
                            lemma_store_trans(*old(data), data_before, *data, old(data).next_entity as int, data_before.next_entity as int, data.next_entity as int);
                            assert forall|k: int| 0 <= k < n + 1 implies #[trigger] map_entities(
                                *data,
                                old(data).next_entity + maps_count(sv2, k),
                                sv2[k],
                                flatten(sv2[k].layers@),
                                flatten(sv2[k].layers@).len() as int,
                            ) by {
                                if k < n {
                                    lemma_maps_count_prefix(sv, sv2, k);
                                    lemma_maps_count_mono(sv, k + 1, n);
                                    lemma_maps_count_nonneg(sv, k);
                                    assert(map_entities(
                                        data_before,
                                        old(data).next_entity + maps_count(sv, k),
                                        sv[k],
                                        flatten(sv[k].layers@),
                                        flatten(sv[k].layers@).len() as int,
                                    ));
                                    lemma_map_entities_frame(
                                        data_before,
                                        *data,
                                        old(data).next_entity + maps_count(sv, k),
                                        sv[k],
                                        data_before.next_entity as int,
                                        data.next_entity as int,
                                    );
                                }
                            }
                            assert(maps_ok(sv2));
                        }
                        done.push(file);
                    },
                    Err(NotLoaded::NotReady) => {
                        proof {
                            assert(served_maps(post, start) == served_maps(pre, start));
                        }
                        kept.push((entity, LoadMap { file }));
                    },
                    Err(NotLoaded::Failed(_)) => {
                        proof {
                            assert(served_maps(post, start) == served_maps(pre, start));
                        }
                        done.push(file);
                    },
                }
                proof {
                    assert forall|q: Seq<char>| q != p implies #[trigger] self.resources@.slot(q) == before.slot(q) by {
                        if before.slots.contains_key(q) {
                            assert(self.resources@.slots.contains_key(q));
                        }
                    }
                    if !waits(start.slot(p)) {
                        assert(done@[done@.len() - 1]@ == p);
                    }
                }
            } else {
                proof {
                    let k = choose|k: int| 0 <= k < old_done.len() && (#[trigger] old_done[k])@ == p;
                    assert(requested(pre, old_done[k]@));
                    assert(served_maps(post, start) == served_maps(pre, start));
                }
            }
            proof {
                assert forall|k: int| 0 <= k < done@.len() implies requested(post, (#[trigger] done@[k])@) && !waits(
                    start.slot(done@[k]@),
                ) by {
                    if k < old_done.len() {
                        assert(done@[k] == old_done[k]);
                    }
                }
                assert forall|q: Seq<char>| requested(post, q) && !waits(start.slot(q)) implies exists|k: int|
                    0 <= k < done@.len() && (#[trigger] done@[k])@ == q by {
                    if q == p {
                        if found {
                            let k = choose|k: int| 0 <= k < old_done.len() && (#[trigger] old_done[k])@ == p;
                            assert(done@[k] == old_done[k]);
                        } else {
                            assert(done@[done@.len() - 1]@ == q);
                        }
                    } else {
                        let k = choose|k: int| 0 <= k < old_done.len() && (#[trigger] old_done[k])@ == q;
                        assert(done@[k] == old_done[k]);
                    }
                }
                if none_complete(post, start) {
                    assert forall|q: Seq<char>| #[trigger] requested(pre, q) implies !(start.slot(q) matches Some(
                        SharedResource::Complete(_),
                    )) by {
                        assert(requested(post, q));
                    }
                    assert(requested(post, p));
                }
            }
            i += 1;
        }
        assert(reqs@.take(i as int) == reqs@);
        *reqs = kept;
        Ok(())
    }
}

/// Decomposing a tile grid `W` cells wide and `H` high, with `W × H` cells,
/// makes `W × H` entities, the entity of cell `j` at
/// `(col × tile_w, row × tile_h)` with `row = j / W` and `col = j % W`; with
/// non-zero tile sizes no two of them share a position.
pub proof fn lemma_grid_positions(d: InsertMapData, lo: int, tm: Tiledmap, z: int, j1: int, j2: int)
    requires
        map_entities(d, lo, tm, flatten(tm.layers@), flatten(tm.layers@).len() as int),
        grids_fit(tm),
        0 <= z < flatten(tm.layers@).len(),
        flatten(tm.layers@)[z] matches FlatLayer::Tiles(t) && t.data@.len() == t.width * t.height,
        tm.tilewidth > 0,
        tm.tileheight > 0,
        0 <= j1 < layer_size(flatten(tm.layers@)[z]),
        0 <= j2 < layer_size(flatten(tm.layers@)[z]),
    ensures
        ({
            let t = flatten(tm.layers@)[z]->Tiles_0;
            let e1 = (lo + count_before(flatten(tm.layers@), z) + j1) as Entity;
            let e2 = (lo + count_before(flatten(tm.layers@), z) + j2) as Entity;
            &&& layer_size(flatten(tm.layers@)[z]) == t.width * t.height
            &&& d.positions@.contains_key(e1)
            &&& d.positions@[e1] == Position(cell_position(tm, t.width, j1))
            &&& cell_position(tm, t.width, j1).x == (j1 % t.width as int) * tm.tilewidth
            &&& cell_position(tm, t.width, j1).y == (j1 / t.width as int) * tm.tileheight
            &&& (j1 != j2 ==> d.positions@[e1] != d.positions@[e2])
        }),
{
    let fls = flatten(tm.layers@);
    let t = fls[z]->Tiles_0;
    let w = t.width as int;
    assert(layer_fits(tm, fls[z]));
    assert(layer_entity(d, (lo + count_before(fls, z) + j1) as Entity, tm, fls[z], j1, z as u64));
    assert(layer_entity(d, (lo + count_before(fls, z) + j2) as Entity, tm, fls[z], j2, z as u64));
    lemma_cell_fits(j1 as nat, t.data@.len(), w as nat, tm.tilewidth as nat, tm.tileheight as nat);
    lemma_cell_fits(j2 as nat, t.data@.len(), w as nat, tm.tilewidth as nat, tm.tileheight as nat);
    if j1 != j2 {
        let (tw, th) = (tm.tilewidth as int, tm.tileheight as int);
        let (c1, r1, c2, r2) = (j1 % w, j1 / w, j2 % w, j2 / w);
        vstd::arithmetic::div_mod::lemma_fundamental_div_mod(j1, w);
        vstd::arithmetic::div_mod::lemma_fundamental_div_mod(j2, w);
        if c1 * tw == c2 * tw && r1 * th == r2 * th {
            assert(c1 == c2) by (nonlinear_arith)
                requires
                    c1 * tw == c2 * tw,
                    tw > 0,
            ;
            assert(r1 == r2) by (nonlinear_arith)
                requires
                    r1 * th == r2 * th,
                    th > 0,
            ;
        }
    }
}

/// Draw order follows creation order: an entity made earlier from the
/// flattened layers has a z-level no greater than one made later, and the
/// entities of one flattened layer share theirs.
pub proof fn lemma_zlevel_order(d: InsertMapData, lo: int, tm: Tiledmap, z1: int, j1: int, z2: int, j2: int)
    requires
        map_entities(d, lo, tm, flatten(tm.layers@), flatten(tm.layers@).len() as int),
        0 <= z1 < flatten(tm.layers@).len(),
        0 <= z2 < flatten(tm.layers@).len(),
        0 <= j1 < layer_size(flatten(tm.layers@)[z1]),
        0 <= j2 < layer_size(flatten(tm.layers@)[z2]),
        flatten(tm.layers@).len() <= u64::MAX,
    ensures
        ({
            let fls = flatten(tm.layers@);
            let e1 = (lo + count_before(fls, z1) + j1) as Entity;
            let e2 = (lo + count_before(fls, z2) + j2) as Entity;
            &&& d.zlevels@.contains_key(e1)
            &&& d.zlevels@[e1] == ZLevel(z1 as u64)
            &&& (lo + count_before(fls, z1) + j1 <= lo + count_before(fls, z2) + j2 ==> d.zlevels@[e1].0 <= d.zlevels@[e2].0)
            &&& (z1 == z2 ==> d.zlevels@[e1] == d.zlevels@[e2])
        }),
{
    let fls = flatten(tm.layers@);
    assert(layer_entity(d, (lo + count_before(fls, z1) + j1) as Entity, tm, fls[z1], j1, z1 as u64));
    assert(layer_entity(d, (lo + count_before(fls, z2) + j2) as Entity, tm, fls[z2], j2, z2 as u64));
    if z1 > z2 {
        lemma_count_before_mono(fls, z2 + 1, z1);
        assert(count_before(fls, z2 + 1) == count_before(fls, z2) + layer_size(fls[z2]));
    }
}

/// A freestanding object with a polygon never gets a box shape; one with
/// neither polygon nor polyline gets the box of its size.
pub proof fn lemma_freestanding_shape(d: InsertMapData, e: Entity, tm: Tiledmap, obj: Object, z: u64)
    requires
        object_entity(d, e, tm, obj, z),
        obj.gid is None,
    ensures
        obj.polygon is Some ==> !(d.shapes@.contains_key(e) && d.shapes@[e] is Box),
        obj.polygon is None && obj.polyline is None ==> d.shapes@.contains_key(e) && d.shapes@[e] == sized_box(
            obj.width,
            obj.height,
        ),
{
}

/// A fence object without a polyline makes the whole map undecomposable, so
/// `insert_map` fails on it.
pub proof fn lemma_fence_needs_polyline(tm: Tiledmap, z: int, j: int)
    requires
        0 <= z < flatten(tm.layers@).len(),
        flatten(tm.layers@)[z] matches FlatLayer::Objects(o) && 0 <= j < o.objects@.len() && kind_of(
            deep_type(tm, o.objects@[j]),
        ) == ObjectKind::Fence && o.objects@[j].polyline is None,
    ensures
        !decomposable(tm),
{
    let fls = flatten(tm.layers@);
    let o = fls[z]->Objects_0;
    assert(!object_ok(tm, o.objects@[j]));
    assert(!layer_ok(tm, fls[z]));
}

/// Two requests for one path whose load has completed make one decomposition
/// of its map, and neither stays pending.
pub proof fn lemma_two_requests_one_map(r1: (Entity, LoadMap), r2: (Entity, LoadMap), v: ResourcesView, m: Tiledmap)
    requires
        r1.1.file@ == r2.1.file@,
        v.slot(r1.1.file@) == Some(SharedResource::Complete(m)),
    ensures
        served_maps(seq![r1, r2], v) == seq![m],
        still_pending(seq![r1, r2], v).len() == 0,
{
    let reqs = seq![r1, r2];
    assert(reqs.drop_last() == seq![r1]);
    assert(seq![r1].drop_last() == Seq::<(Entity, LoadMap)>::empty());
    assert(requested(seq![r1], r2.1.file@)) by {
        assert(seq![r1][0].1.file@ == r2.1.file@);
    }
    let e = Seq::<(Entity, LoadMap)>::empty();
    assert(!requested(e, r1.1.file@));
    assert(served_maps(e, v) == Seq::<Tiledmap>::empty());
    assert(still_pending(e, v) == Seq::<(Entity, LoadMap)>::empty());
    assert(seq![r1].last() == r1);
    assert(reqs.last() == r2);
    assert(!waits(v.slot(r1.1.file@)));
    assert(still_pending(seq![r1], v) == still_pending(e, v));
    assert(served_maps(seq![r1], v) == served_maps(e, v).push(m));
    assert(served_maps(seq![r1], v) =~= seq![m]);
}

/// A map whose only flattened layer holds one object, of unknown type,
/// decomposes into exactly one entity, which keeps the object whole and has
/// no leftover properties.
pub proof fn lemma_single_unknown_object(d: InsertMapData, lo: int, tm: Tiledmap)
    requires
        map_entities(d, lo, tm, flatten(tm.layers@), flatten(tm.layers@).len() as int),
        0 <= lo < u64::MAX,
        flatten(tm.layers@).len() == 1,
        flatten(tm.layers@)[0] matches FlatLayer::Objects(o) && o.objects@.len() == 1 && kind_of(
            deep_type(tm, o.objects@[0]),
        ) == ObjectKind::Other,
    ensures
        entity_count(tm) == 1,
        d.objects@.contains_key(lo as Entity),
        d.objects@[lo as Entity] == (flatten(tm.layers@)[0]->Objects_0).objects@[0],
        !d.jsons@.contains_key(lo as Entity),
{
    let fls = flatten(tm.layers@);
    assert(count_before(fls, 1) == count_before(fls, 0) + layer_size(fls[0]));
    let (z, j) = (0int, 0int);
    assert(count_before(fls, z) == 0);
    assert(layer_entity(d, (lo + count_before(fls, z) + j) as Entity, tm, fls[z], j, z as u64));
}

/// An object of unknown type is kept whole, with its type and properties,
/// and its properties are not stored a second time as leftovers.
pub proof fn lemma_unknown_object_kept(d: InsertMapData, e: Entity, tm: Tiledmap, obj: Object, z: u64)
    requires
        object_entity(d, e, tm, obj, z),
        kind_of(deep_type(tm, obj)) == ObjectKind::Other,
    ensures
        d.objects@.contains_key(e),
        d.objects@[e] == obj,
        d.objects@[e].type_is == obj.type_is,
        d.objects@[e].properties == obj.properties,
        !d.jsons@.contains_key(e),
{
}

/// Two stores that agree outside `lo .. hi` agree at an entity outside it.
proof fn lemma_agree_at(d1: InsertMapData, d2: InsertMapData, e: Entity, lo: int, hi: int)
    requires
        d2.same_outside(&d1, lo, hi),
        e < lo || e >= hi,
    ensures
        d2.animations@.contains_key(e) == d1.animations@.contains_key(e),
        d1.animations@.contains_key(e) ==> d2.animations@[e] == d1.animations@[e],
        d2.barriers@.contains_key(e) == d1.barriers@.contains_key(e),
        d1.barriers@.contains_key(e) ==> d2.barriers@[e] == d1.barriers@[e],
        d2.fences@.contains_key(e) == d1.fences@.contains_key(e),
        d1.fences@.contains_key(e) ==> d2.fences@[e] == d1.fences@[e],
        d2.jsons@.contains_key(e) == d1.jsons@.contains_key(e),
        d1.jsons@.contains_key(e) ==> d2.jsons@[e] == d1.jsons@[e],
        d2.names@.contains_key(e) == d1.names@.contains_key(e),
        d1.names@.contains_key(e) ==> d2.names@[e] == d1.names@[e],
        d2.objects@.contains_key(e) == d1.objects@.contains_key(e),
        d1.objects@.contains_key(e) ==> d2.objects@[e] == d1.objects@[e],
        d2.object_toggles@.contains_key(e) == d1.object_toggles@.contains_key(e),
        d1.object_toggles@.contains_key(e) ==> d2.object_toggles@[e] == d1.object_toggles@[e],
        d2.offsets@.contains_key(e) == d1.offsets@.contains_key(e),
        d1.offsets@.contains_key(e) ==> d2.offsets@[e] == d1.offsets@[e],
        d2.positions@.contains_key(e) == d1.positions@.contains_key(e),
        d1.positions@.contains_key(e) ==> d2.positions@[e] == d1.positions@[e],
        d2.renderings@.contains_key(e) == d1.renderings@.contains_key(e),
        d1.renderings@.contains_key(e) ==> d2.renderings@[e] == d1.renderings@[e],
        d2.shapes@.contains_key(e) == d1.shapes@.contains_key(e),
        d1.shapes@.contains_key(e) ==> d2.shapes@[e] == d1.shapes@[e],
        d2.step_fences@.contains_key(e) == d1.step_fences@.contains_key(e),
        d1.step_fences@.contains_key(e) ==> d2.step_fences@[e] == d1.step_fences@[e],
        d2.zlevels@.contains_key(e) == d1.zlevels@.contains_key(e),
        d1.zlevels@.contains_key(e) ==> d2.zlevels@[e] == d1.zlevels@[e],
        d2.zones@.contains_key(e) == d1.zones@.contains_key(e),
        d1.zones@.contains_key(e) ==> d2.zones@[e] == d1.zones@[e],
{
    assert(d2.animations@.contains_key(e) == d1.animations@.contains_key(e));
    if d1.animations@.contains_key(e) {
        assert(d2.animations@[e] == d1.animations@[e]);
    }
    assert(d2.barriers@.contains_key(e) == d1.barriers@.contains_key(e));
    if d1.barriers@.contains_key(e) {
        assert(d2.barriers@[e] == d1.barriers@[e]);
    }
    assert(d2.fences@.contains_key(e) == d1.fences@.contains_key(e));
    if d1.fences@.contains_key(e) {
        assert(d2.fences@[e] == d1.fences@[e]);
    }
    assert(d2.jsons@.contains_key(e) == d1.jsons@.contains_key(e));
    if d1.jsons@.contains_key(e) {
        assert(d2.jsons@[e] == d1.jsons@[e]);
    }
    assert(d2.names@.contains_key(e) == d1.names@.contains_key(e));
    if d1.names@.contains_key(e) {
        assert(d2.names@[e] == d1.names@[e]);
    }
    assert(d2.objects@.contains_key(e) == d1.objects@.contains_key(e));
    if d1.objects@.contains_key(e) {
        assert(d2.objects@[e] == d1.objects@[e]);
    }
    assert(d2.object_toggles@.contains_key(e) == d1.object_toggles@.contains_key(e));
    if d1.object_toggles@.contains_key(e) {
        assert(d2.object_toggles@[e] == d1.object_toggles@[e]);
    }
    assert(d2.offsets@.contains_key(e) == d1.offsets@.contains_key(e));
    if d1.offsets@.contains_key(e) {
        assert(d2.offsets@[e] == d1.offsets@[e]);
    }
    assert(d2.positions@.contains_key(e) == d1.positions@.contains_key(e));
    if d1.positions@.contains_key(e) {
        assert(d2.positions@[e] == d1.positions@[e]);
    }
    assert(d2.renderings@.contains_key(e) == d1.renderings@.contains_key(e));
    if d1.renderings@.contains_key(e) {
        assert(d2.renderings@[e] == d1.renderings@[e]);
    }
    assert(d2.shapes@.contains_key(e) == d1.shapes@.contains_key(e));
    if d1.shapes@.contains_key(e) {
        assert(d2.shapes@[e] == d1.shapes@[e]);
    }
    assert(d2.step_fences@.contains_key(e) == d1.step_fences@.contains_key(e));
    if d1.step_fences@.contains_key(e) {
        assert(d2.step_fences@[e] == d1.step_fences@[e]);
    }
    assert(d2.zlevels@.contains_key(e) == d1.zlevels@.contains_key(e));
    if d1.zlevels@.contains_key(e) {
        assert(d2.zlevels@[e] == d1.zlevels@[e]);
    }
    assert(d2.zones@.contains_key(e) == d1.zones@.contains_key(e));
    if d1.zones@.contains_key(e) {
        assert(d2.zones@[e] == d1.zones@[e]);
    }
}

} // verus!
