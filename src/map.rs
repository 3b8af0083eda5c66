//! The in-memory map model consumed by decomposition: layers, objects,
//! tilesets, and lookups from global tile indices to tileset tiles.
use vstd::prelude::*;

verus! {

/// The JSON value of an authored custom property, carried through untouched.
#[verifier::external_type_specification]
#[verifier::external_body]
pub struct ExValue(serde_json::Value);

/// A reference to a tile of some tileset, with its orientation bits.
#[derive(Clone, Copy, Debug, PartialEq, Eq)]
pub struct GlobalTileIndex {
    pub id: u32,
    pub is_flipped_horizontally: bool,
    pub is_flipped_vertically: bool,
    pub is_flipped_diagonally: bool,
}

/// An axis-aligned rectangle inside a sprite sheet, in pixels.
#[derive(Clone, Copy, Debug, PartialEq, Eq)]
pub struct Aabb {
    pub x: u64,
    pub y: u64,
    pub w: u32,
    pub h: u32,
}

/// One authored animation frame: a tile of the same tileset, shown for
/// `duration` milliseconds.
#[derive(Clone, Copy, Debug, PartialEq, Eq)]
pub struct AnimationFrame {
    pub tileid: u32,
    pub duration: u32,
}

/// A typed custom property (`type_is` is the declared type: "bool", "int",
/// "float", "string", ...). `is_number` tells whether `value` is a JSON
/// number; whoever builds the property from its JSON sets it.
#[derive(Debug, PartialEq)]
pub struct Property {
    pub name: String,
    pub type_is: String,
    pub value: serde_json::Value,
    pub is_number: bool,
}

/// A vertex of a polyline or polygon, relative to its object.
#[derive(Clone, Copy, Debug, PartialEq, Eq)]
pub struct Point {
    pub x: i32,
    pub y: i32,
}

/// An authored object, freestanding or referencing a tile through `gid`.
#[derive(Debug, PartialEq)]
pub struct Object {
    pub id: u32,
    pub name: String,
    pub type_is: String,
    pub x: i32,
    pub y: i32,
    pub width: i32,
    pub height: i32,
    pub gid: Option<GlobalTileIndex>,
    pub polyline: Option<Vec<Point>>,
    pub polygon: Option<Vec<Point>>,
    pub properties: Vec<Property>,
}

/// The sub-objects embedded in a tile's metadata.
#[derive(Debug, PartialEq)]
pub struct ObjectGroup {
    pub objects: Vec<Object>,
}

/// Per-tile metadata of a tileset.
#[derive(Debug, PartialEq)]
pub struct Tile {
    pub id: u32,
    pub type_is: String,
    pub animation: Option<Vec<AnimationFrame>>,
    pub object_group: Option<ObjectGroup>,
    pub properties: Vec<Property>,
}

/// A sprite sheet cut into a grid of `columns` columns, addressed by the
/// global indices `firstgid .. firstgid + tilecount`.
#[derive(Debug, PartialEq)]
pub struct Tileset {
    pub firstgid: u32,
    pub name: String,
    pub image: String,
    pub tilecount: u32,
    pub columns: u32,
    pub tilewidth: u32,
    pub tileheight: u32,
    pub tiles: Vec<Tile>,
}

/// A grid of tile references, row-major.
#[derive(Debug, PartialEq)]
pub struct TileLayerData {
    pub width: u32,
    pub height: u32,
    pub data: Vec<GlobalTileIndex>,
}

/// A collection of freely placed objects.
#[derive(Debug, PartialEq)]
pub struct ObjectLayerData {
    pub objects: Vec<Object>,
}

/// What a layer holds. `Unsupported` stands for a kind that decomposition
/// skips (an image layer, for one).
#[derive(Debug, PartialEq)]
pub enum LayerData {
    Tiles(TileLayerData),
    Objects(ObjectLayerData),
    Layers(Vec<Layer>),
    Unsupported,
}

#[derive(Debug, PartialEq)]
pub struct Layer {
    pub name: String,
    pub type_is: String,
    pub layer_data: LayerData,
}

/// A parsed map. `tilewidth` and `tileheight` are the grid's cell size in
/// pixels.
#[derive(Debug, PartialEq)]
pub struct Tiledmap {
    pub width: u32,
    pub height: u32,
    pub tilewidth: u16,
    pub tileheight: u16,
    pub layers: Vec<Layer>,
    pub tilesets: Vec<Tileset>,
}

/// Does the tileset `ts` hold the global index `id`?
pub open spec fn tileset_holds(ts: Tileset, id: u32) -> bool {
    ts.firstgid <= id && id < ts.firstgid + ts.tilecount
}

/// The position of the first tileset in `tss` that holds `id`.
pub open spec fn tileset_pos(tss: Seq<Tileset>, id: u32) -> Option<int>
    decreases tss.len(),
{
    if tss.len() == 0 {
        None
    } else {
        match tileset_pos(tss.drop_last(), id) {
            Some(i) => Some(i),
            None => if tileset_holds(tss.last(), id) {
                Some(tss.len() - 1)
            } else {
                None
            },
        }
    }
}

/// The source rectangle of the tileset's local tile `local`, if it has one.
pub open spec fn aabb_local_spec(ts: Tileset, local: u32) -> Option<Aabb> {
    if local < ts.tilecount && ts.columns > 0 {
        Some(
            Aabb {
                x: ((local % ts.columns) * ts.tilewidth) as u64,
                y: ((local / ts.columns) * ts.tileheight) as u64,
                w: ts.tilewidth,
                h: ts.tileheight,
            },
        )
    } else {
        None
    }
}

/// The position of the first tile metadata entry whose id is `local`.
pub open spec fn tile_pos(tiles: Seq<Tile>, local: u32) -> Option<int>
    decreases tiles.len(),
{
    if tiles.len() == 0 {
        None
    } else {
        match tile_pos(tiles.drop_last(), local) {
            Some(i) => Some(i),
            None => if tiles.last().id == local {
                Some(tiles.len() - 1)
            } else {
                None
            },
        }
    }
}

/// The metadata of the tile with global index `id`, if any.
pub open spec fn tile_of(tm: Tiledmap, id: u32) -> Option<Tile> {
    match tileset_pos(tm.tilesets@, id) {
        Some(i) => {
            let ts = tm.tilesets@[i];
            match tile_pos(ts.tiles@, (id - ts.firstgid) as u32) {
                Some(j) => Some(ts.tiles@[j]),
                None => None,
            }
        },
        None => None,
    }
}

pub proof fn lemma_mul_u32_fits(a: nat, b: nat)
    requires
        a <= u32::MAX,
        b <= u32::MAX,
    ensures
        a * b <= u64::MAX,
{
    assert(a * b <= u32::MAX * u32::MAX) by (nonlinear_arith)
        requires
            a <= u32::MAX,
            b <= u32::MAX,
    ;
}

impl Tileset {
    /// The source rectangle of local tile `local`.
    pub fn aabb_local(&self, local: u32) -> (r: Option<Aabb>)
        ensures
            r == aabb_local_spec(*self, local),
    {
        if local < self.tilecount && self.columns > 0 {
            proof {
                lemma_mul_u32_fits((local % self.columns) as nat, self.tilewidth as nat);
                lemma_mul_u32_fits((local / self.columns) as nat, self.tileheight as nat);
            }
            let x = (local % self.columns) as u64 * self.tilewidth as u64;
            let y = (local / self.columns) as u64 * self.tileheight as u64;
            Some(Aabb { x, y, w: self.tilewidth, h: self.tileheight })
        } else {
            None
        }
    }

    /// The source rectangle of the tile with global index `id`, this tileset
    /// starting at `firstgid`.
    pub fn aabb(&self, firstgid: u32, id: u32) -> (r: Option<Aabb>)
        requires
            firstgid <= id,
        ensures
            r == aabb_local_spec(*self, (id - firstgid) as u32),
    {
        self.aabb_local(id - firstgid)
    }

    /// The metadata of the tile with global index `id`, this tileset starting
    /// at `firstgid`.
    pub fn tile(&self, firstgid: u32, id: u32) -> (r: Option<&Tile>)
        requires
            firstgid <= id,
        ensures
            match tile_pos(self.tiles@, (id - firstgid) as u32) {
                Some(j) => r matches Some(t) && *t == self.tiles@[j],
                None => r is None,
            },
    {
        let local = id - firstgid;
        let mut i: usize = 0;
        while i < self.tiles.len()
            invariant
                0 <= i <= self.tiles@.len(),
                tile_pos(self.tiles@.take(i as int), local) == None::<int>,
                firstgid <= id,
                local == id - firstgid,
            decreases self.tiles@.len() - i,
        {
            assert(self.tiles@.take(i as int + 1).drop_last() == self.tiles@.take(i as int));
            if self.tiles[i].id == local {
                proof {
                    lemma_tile_prefix(self.tiles@, local, i as int);
                }
                let t = &self.tiles[i];
                assert(*t == self.tiles@[i as int]);
                return Some(t);
            }
            i += 1;
        }
        assert(self.tiles@.take(i as int) == self.tiles@);
        None
    }
}

/// The first match in a prefix is the first match in the whole sequence.
proof fn lemma_tile_prefix(tiles: Seq<Tile>, local: u32, i: int)
    requires
        0 <= i < tiles.len(),
        tile_pos(tiles.take(i), local) == None::<int>,
        tiles[i].id == local,
    ensures
        tile_pos(tiles, local) == Some(i),
    decreases tiles.len(),
{
    if i < tiles.len() - 1 {
        assert(tiles.drop_last().take(i) == tiles.take(i));
        lemma_tile_prefix(tiles.drop_last(), local, i);
    } else {
        assert(tiles.drop_last() == tiles.take(i));
    }
}

/// The first match in a prefix is the first match in the whole sequence.
proof fn lemma_tileset_prefix(tss: Seq<Tileset>, id: u32, i: int)
    requires
        0 <= i < tss.len(),
        tileset_pos(tss.take(i), id) == None::<int>,
        tileset_holds(tss[i], id),
    ensures
        tileset_pos(tss, id) == Some(i),
    decreases tss.len(),
{
    if i < tss.len() - 1 {
        assert(tss.drop_last().take(i) == tss.take(i));
        lemma_tileset_prefix(tss.drop_last(), id, i);
    } else {
        assert(tss.drop_last() == tss.take(i));
    }
}

impl Tiledmap {
    /// The first tileset holding global index `id`, with its first index.
    pub fn get_tileset_by_gid(&self, id: u32) -> (r: Option<(u32, &Tileset)>)
        ensures
            match tileset_pos(self.tilesets@, id) {
                Some(i) => r matches Some((f, ts)) && *ts == self.tilesets@[i],
                None => r is None,
            },
            r matches Some((f, ts)) ==> f == ts.firstgid && tileset_holds(*ts, id),
    {
        let mut i: usize = 0;
        while i < self.tilesets.len()
            invariant
                0 <= i <= self.tilesets@.len(),
                tileset_pos(self.tilesets@.take(i as int), id) == None::<int>,
            decreases self.tilesets@.len() - i,
        {
            assert(self.tilesets@.take(i as int + 1).drop_last() == self.tilesets@.take(i as int));
            let ts = &self.tilesets[i];
            if ts.firstgid <= id && (id as u64) < ts.firstgid as u64 + ts.tilecount as u64 {
                proof {
                    lemma_tileset_prefix(self.tilesets@, id, i as int);
                }
                return Some((ts.firstgid, ts));
            }
            i += 1;
        }
        assert(self.tilesets@.take(i as int) == self.tilesets@);
        None
    }

    /// The metadata of the tile with global index `id`, if its tileset has any.
    pub fn get_tile(&self, id: u32) -> (r: Option<&Tile>)
        ensures
            match tile_of(*self, id) {
                Some(t) => r matches Some(u) && *u == t,
                None => r is None,
            },
    {
        match self.get_tileset_by_gid(id) {
            Some((firstgid, ts)) => ts.tile(firstgid, id),
            None => None,
        }
    }
}

/// The semantic type of an object: its own, or else that of the tile it
/// references.
pub open spec fn deep_type(tm: Tiledmap, obj: Object) -> Seq<char> {
    if obj.type_is@ != Seq::<char>::empty() {
        obj.type_is@
    } else {
        match obj.gid {
            Some(g) => match tile_of(tm, g.id) {
                Some(t) => t.type_is@,
                None => obj.type_is@,
            },
            None => obj.type_is@,
        }
    }
}

impl Object {
    /// The object's semantic type, inherited from its tile when it has none.
    pub fn get_deep_type(&self, tm: &Tiledmap) -> (r: String)
        ensures
            r@ == deep_type(*tm, *self),
    {
        if !(self.type_is == String::new()) {
            return self.type_is.clone();
        }
        match self.gid {
            Some(g) => match tm.get_tile(g.id) {
                Some(t) => t.type_is.clone(),
                None => self.type_is.clone(),
            },
            None => self.type_is.clone(),
        }
    }
}

} // verus!
