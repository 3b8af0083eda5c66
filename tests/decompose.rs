use old_gods::components::{InsertMapData, Position, Shape, Size, ZLevel, V2};
use old_gods::map::{
    AnimationFrame, GlobalTileIndex, Layer, LayerData, Object, ObjectGroup, ObjectLayerData, Point,
    Property, Tile, TileLayerData, Tiledmap, Tileset,
};
use old_gods::tiled::{
    add_barrier, flatten_layers, get_animation, get_rendering, insert_map, FlatLayer, MapError,
};
use serde_json::Value;
use std::collections::HashMap;

fn gid(id: u32) -> GlobalTileIndex {
    GlobalTileIndex {
        id,
        is_flipped_horizontally: false,
        is_flipped_vertically: false,
        is_flipped_diagonally: false,
    }
}

fn prop(name: &str, type_is: &str, value: Value) -> Property {
    let is_number = value.is_number();
    Property { name: name.to_string(), type_is: type_is.to_string(), value, is_number }
}

fn object(id: u32, type_is: &str) -> Object {
    Object {
        id,
        name: String::new(),
        type_is: type_is.to_string(),
        x: 10,
        y: 20,
        width: 30,
        height: 40,
        gid: None,
        polyline: None,
        polygon: None,
        properties: vec![],
    }
}

fn tileset(tiles: Vec<Tile>) -> Tileset {
    Tileset {
        firstgid: 1,
        name: "sheet".to_string(),
        image: "sheet.png".to_string(),
        tilecount: 8,
        columns: 4,
        tilewidth: 16,
        tileheight: 16,
        tiles,
    }
}

fn tile_layer(width: u32, height: u32, cells: Vec<u32>) -> Layer {
    Layer {
        name: "ground".to_string(),
        type_is: "tilelayer".to_string(),
        layer_data: LayerData::Tiles(TileLayerData {
            width,
            height,
            data: cells.into_iter().map(gid).collect(),
        }),
    }
}

fn object_layer(objects: Vec<Object>) -> Layer {
    Layer {
        name: "things".to_string(),
        type_is: "objectgroup".to_string(),
        layer_data: LayerData::Objects(ObjectLayerData { objects }),
    }
}

fn map(width: u32, height: u32, layers: Vec<Layer>, tiles: Vec<Tile>) -> Tiledmap {
    Tiledmap { width, height, tilewidth: 16, tileheight: 16, layers, tilesets: vec![tileset(tiles)] }
}

#[test]
fn grid_with_empty_cell() {
    let m = map(2, 1, vec![tile_layer(2, 1, vec![5, 0])], vec![]);
    let mut data = InsertMapData::new(0);
    assert_eq!(insert_map(m, &mut data), Ok(()));
    assert_eq!(data.next_entity, 2);
    assert_eq!(data.positions.get(&0), Some(&Position(V2 { x: 0, y: 0 })));
    assert_eq!(data.positions.get(&1), Some(&Position(V2 { x: 16, y: 0 })));
    let r = data.renderings.get(&0).expect("tile 5 resolves");
    assert_eq!(r.frame.sprite_sheet, "sheet.png");
    assert_eq!((r.frame.source_aabb.x, r.frame.source_aabb.y), (0, 16));
    assert_eq!(r.frame.size, Size { w: 16, h: 16 });
    assert!(data.renderings.get(&1).is_none());
    assert!(data.animations.is_empty());
    assert_eq!(data.zlevels.get(&1), Some(&ZLevel(0)));
}

#[test]
fn grid_positions_row_major() {
    let m = map(3, 2, vec![tile_layer(3, 2, vec![1, 2, 3, 4, 5, 6])], vec![]);
    let mut data = InsertMapData::new(100);
    assert_eq!(insert_map(m, &mut data), Ok(()));
    assert_eq!(data.next_entity, 106);
    let mut seen = std::collections::HashSet::new();
    for j in 0..6u64 {
        let p = data.positions.get(&(100 + j)).unwrap().0;
        assert_eq!(p, V2 { x: (j % 3) as i64 * 16, y: (j / 3) as i64 * 16 });
        assert!(seen.insert((p.x, p.y)));
    }
}

#[test]
fn zlevels_follow_flattened_layers() {
    let group = Layer {
        name: "group".to_string(),
        type_is: "group".to_string(),
        layer_data: LayerData::Layers(vec![
            object_layer(vec![object(1, "zone"), object(2, "zone")]),
            Layer { name: "img".to_string(), type_is: "imagelayer".to_string(), layer_data: LayerData::Unsupported },
        ]),
    };
    let m = map(1, 1, vec![tile_layer(1, 1, vec![1]), group, object_layer(vec![object(3, "zone")])], vec![]);
    let mut data = InsertMapData::new(0);
    assert_eq!(insert_map(m, &mut data), Ok(()));
    let z: Vec<u64> = (0..4u64).map(|e| data.zlevels.get(&e).unwrap().0).collect();
    assert_eq!(z, vec![0, 1, 1, 2]);
    assert_eq!(data.zones.len(), 3);
}

#[test]
fn flatten_splices_groups_in_order() {
    let inner = Layer {
        name: "g".to_string(),
        type_is: "group".to_string(),
        layer_data: LayerData::Layers(vec![tile_layer(1, 1, vec![2]), object_layer(vec![])]),
    };
    let layers = vec![
        object_layer(vec![object(1, "a")]),
        Layer { name: "img".to_string(), type_is: "imagelayer".to_string(), layer_data: LayerData::Unsupported },
        inner,
        tile_layer(1, 1, vec![3]),
    ];
    let flat = flatten_layers(layers);
    assert_eq!(flat.len(), 4);
    assert!(matches!(&flat[0], FlatLayer::Objects(o) if o.objects.len() == 1));
    assert!(matches!(&flat[1], FlatLayer::Tiles(t) if t.data[0].id == 2));
    assert!(matches!(&flat[2], FlatLayer::Objects(o) if o.objects.is_empty()));
    assert!(matches!(&flat[3], FlatLayer::Tiles(t) if t.data[0].id == 3));
}

#[test]
fn freestanding_shapes() {
    let mut poly = object(1, "");
    poly.polygon = Some(vec![Point { x: 0, y: 0 }, Point { x: 5, y: 0 }, Point { x: 0, y: 5 }]);
    let plain = object(2, "");
    let mut line = object(3, "fence");
    line.polyline = Some(vec![Point { x: 1, y: 2 }, Point { x: 3, y: 4 }]);
    let m = map(1, 1, vec![object_layer(vec![poly, plain, line])], vec![]);
    let mut data = InsertMapData::new(0);
    assert_eq!(insert_map(m, &mut data), Ok(()));
    match data.shapes.get(&0) {
        Some(Shape::Polygon { vertices }) => {
            assert_eq!(vertices, &vec![V2 { x: 0, y: 0 }, V2 { x: 5, y: 0 }, V2 { x: 0, y: 5 }])
        }
        other => panic!("expected a polygon, got {:?}", other),
    }
    assert_eq!(
        data.shapes.get(&1),
        Some(&Shape::Box { lower: V2 { x: 0, y: 0 }, upper: V2 { x: 30, y: 40 } })
    );
    assert!(data.shapes.get(&2).is_none());
    assert_eq!(data.positions.get(&1), Some(&Position(V2 { x: 10, y: 20 })));
    assert_eq!(data.fences.get(&2).unwrap().points, vec![V2 { x: 1, y: 2 }, V2 { x: 3, y: 4 }]);
}

#[test]
fn fence_without_polyline_aborts() {
    let m = map(1, 1, vec![object_layer(vec![object(1, "zone"), object(7, "fence")])], vec![]);
    let mut data = InsertMapData::new(0);
    assert_eq!(insert_map(m, &mut data), Err(MapError::FenceWithoutPolyline(7)));
    assert_eq!(data.next_entity, 0);
    assert!(data.zones.is_empty());
}

#[test]
fn unknown_object_kept_whole() {
    let mut obj = object(4, "treasure");
    obj.properties = vec![prop("a", "int", Value::from(1)), prop("b", "string", Value::from("x"))];
    let m = map(1, 1, vec![object_layer(vec![obj])], vec![]);
    let mut data = InsertMapData::new(0);
    assert_eq!(insert_map(m, &mut data), Ok(()));
    assert_eq!(data.next_entity, 1);
    let kept = data.objects.get(&0).expect("raw object");
    assert_eq!(kept.type_is, "treasure");
    assert_eq!(kept.properties.len(), 2);
    assert_eq!(kept.properties[0].value, Value::from(1));
    assert_eq!(kept.properties[1].value, Value::from("x"));
    assert!(data.jsons.is_empty());
}

#[test]
fn known_object_leftovers_and_toggles() {
    let mut obj = object(5, "zone");
    obj.name = "pond".to_string();
    obj.properties = vec![
        prop("toggle_rendering_zones", "bool", Value::from(true)),
        prop("depth", "int", Value::from(3)),
    ];
    let m = map(1, 1, vec![object_layer(vec![obj])], vec![]);
    let mut data = InsertMapData::new(0);
    assert_eq!(insert_map(m, &mut data), Ok(()));
    assert_eq!(data.names.get(&0).unwrap().0, "pond");
    assert!(data.zones.get(&0).unwrap().inside.is_empty());
    let json = data.jsons.get(&0).expect("leftovers");
    assert_eq!(json.0.len(), 1);
    assert_eq!(json.0[0].name, "depth");
    assert_eq!(data.object_toggles.get(&0).unwrap().0.len(), 1);
    assert!(data.objects.is_empty());
}

#[test]
fn step_fence_consumes_step() {
    let mut obj = object(6, "step_fence");
    obj.polyline = Some(vec![Point { x: 0, y: 0 }, Point { x: 8, y: 0 }]);
    obj.properties = vec![prop("step", "float", Value::from(2.5))];
    let m = map(1, 1, vec![object_layer(vec![obj])], vec![]);
    let mut data = InsertMapData::new(0);
    assert_eq!(insert_map(m, &mut data), Ok(()));
    let sf = data.step_fences.get(&0).unwrap();
    assert_eq!(sf.step, Value::from(2.5));
    assert_eq!(sf.fence.points.len(), 2);
    assert!(data.jsons.is_empty());
}

#[test]
fn step_fence_errors() {
    let mut no_step = object(8, "step_fence");
    no_step.polyline = Some(vec![Point { x: 0, y: 0 }]);
    let m = map(1, 1, vec![object_layer(vec![no_step])], vec![]);
    assert_eq!(insert_map(m, &mut InsertMapData::new(0)), Err(MapError::StepFenceWithoutStep(8)));
    let mut no_line = object(9, "step_fence");
    no_line.properties = vec![prop("step", "int", Value::from(1))];
    let m = map(1, 1, vec![object_layer(vec![no_line])], vec![]);
    assert_eq!(insert_map(m, &mut InsertMapData::new(0)), Err(MapError::StepFenceWithoutPolyline(9)));
    let mut text_step = object(10, "step_fence");
    text_step.polyline = Some(vec![Point { x: 0, y: 0 }]);
    text_step.properties = vec![prop("step", "float", Value::from("steep"))];
    let m = map(1, 1, vec![object_layer(vec![text_step])], vec![]);
    assert_eq!(insert_map(m, &mut InsertMapData::new(0)), Err(MapError::StepFenceWithoutStep(10)));
}

#[test]
fn grid_out_of_range_and_entity_overflow() {
    let m = map(1, 1, vec![tile_layer(0, 1, vec![1])], vec![]);
    assert_eq!(insert_map(m, &mut InsertMapData::new(0)), Err(MapError::GridOutOfRange));
    let m = map(2, 1, vec![tile_layer(2, 1, vec![1, 2])], vec![]);
    assert_eq!(insert_map(m, &mut InsertMapData::new(u64::MAX - 1)), Err(MapError::TooManyEntities));
}

#[test]
fn grid_uses_its_own_width() {
    let m = map(1, 1, vec![tile_layer(2, 2, vec![1, 2, 3, 4])], vec![]);
    let mut data = InsertMapData::new(0);
    assert_eq!(insert_map(m, &mut data), Ok(()));
    assert_eq!(data.next_entity, 4);
    assert_eq!(data.positions.get(&1), Some(&Position(V2 { x: 16, y: 0 })));
    assert_eq!(data.positions.get(&3), Some(&Position(V2 { x: 16, y: 16 })));
}

#[test]
fn last_step_property_counts() {
    let mut obj = object(6, "step_fence");
    obj.polyline = Some(vec![Point { x: 0, y: 0 }]);
    obj.properties = vec![
        prop("step", "int", Value::from("high")),
        prop("step", "int", Value::from(4)),
    ];
    let m = map(1, 1, vec![object_layer(vec![obj])], vec![]);
    let mut data = InsertMapData::new(0);
    assert_eq!(insert_map(m, &mut data), Ok(()));
    assert_eq!(data.step_fences.get(&0).unwrap().step, Value::from(4));
}

fn templated_tile(subs: Vec<Object>) -> Tile {
    Tile {
        id: 2,
        type_is: "chest".to_string(),
        animation: Some(vec![
            AnimationFrame { tileid: 2, duration: 100 },
            AnimationFrame { tileid: 99, duration: 50 },
            AnimationFrame { tileid: 3, duration: 250 },
        ]),
        object_group: Some(ObjectGroup { objects: subs }),
        properties: vec![prop("toggle_rendering_barriers", "bool", Value::from(true))],
    }
}

#[test]
fn tile_sub_objects_merge_onto_entity() {
    let mut origin = object(1, "origin_offset");
    origin.x = 4;
    origin.y = 6;
    let mut barrier = object(2, "barrier");
    barrier.x = 1;
    barrier.y = 2;
    barrier.width = 3;
    barrier.height = 4;
    let m = map(1, 1, vec![tile_layer(1, 1, vec![3])], vec![templated_tile(vec![origin, barrier])]);
    let mut data = InsertMapData::new(0);
    assert_eq!(insert_map(m, &mut data), Ok(()));
    assert_eq!(data.next_entity, 1);
    assert_eq!(data.offsets.get(&0).unwrap().0, V2 { x: 4, y: 6 });
    assert!(data.barriers.contains_key(&0));
    assert_eq!(data.shapes.get(&0), Some(&Shape::Box { lower: V2 { x: 1, y: 2 }, upper: V2 { x: 4, y: 6 } }));
    assert_eq!(data.object_toggles.get(&0).unwrap().0.len(), 1);
    let anim = data.animations.get(&0).unwrap();
    assert_eq!(anim.frames.len(), 2);
    assert_eq!(anim.frames[0].duration, 100);
    assert_eq!(anim.frames[1].duration, 250);
    assert!(anim.is_playing && anim.should_repeat);
}

#[test]
fn unknown_tile_sub_object_aborts() {
    let m = map(1, 1, vec![tile_layer(1, 1, vec![3])], vec![templated_tile(vec![object(1, "lamp")])]);
    let mut data = InsertMapData::new(0);
    assert_eq!(insert_map(m, &mut data), Err(MapError::UnknownSubObject("lamp".to_string())));
}

#[test]
fn tile_object_inherits_type_and_anchor() {
    let mut obj = object(1, "");
    obj.gid = Some(gid(3));
    let m = map(1, 1, vec![object_layer(vec![obj])], vec![templated_tile(vec![])]);
    let mut data = InsertMapData::new(0);
    assert_eq!(insert_map(m, &mut data), Ok(()));
    assert_eq!(data.positions.get(&0), Some(&Position(V2 { x: 10, y: -20 })));
    assert_eq!(data.shapes.get(&0), Some(&Shape::Box { lower: V2 { x: 0, y: 0 }, upper: V2 { x: 30, y: 40 } }));
    assert_eq!(data.objects.get(&0).unwrap().id, 1);
    assert!(data.renderings.contains_key(&0));
}

#[test]
fn rendering_and_animation_lookups() {
    let m = map(1, 1, vec![], vec![templated_tile(vec![])]);
    let mut g = gid(3);
    g.is_flipped_horizontally = true;
    let r = get_rendering(&m, &g, Some((32, 8))).unwrap();
    assert_eq!((r.frame.source_aabb.x, r.frame.source_aabb.y), (32, 0));
    assert_eq!(r.frame.size, Size { w: 32, h: 8 });
    assert!(r.frame.is_flipped_horizontally);
    assert!(get_rendering(&m, &gid(9), None).is_none());
    assert!(get_rendering(&m, &gid(0), None).is_none());
    let a = get_animation(&m, &g, None).unwrap();
    assert_eq!(a.frames[1].rendering.frame.source_aabb.x, 48);
    assert!(get_animation(&m, &gid(2), None).is_none());
}

#[test]
fn barrier_covers_object_box() {
    let mut barriers = HashMap::new();
    let mut shapes = HashMap::new();
    add_barrier(7, &object(1, "barrier"), &mut barriers, &mut shapes);
    assert!(barriers.contains_key(&7));
    assert_eq!(shapes.get(&7), Some(&Shape::Box { lower: V2 { x: 10, y: 20 }, upper: V2 { x: 40, y: 60 } }));
}

#[test]
fn leftovers_keep_last_of_a_name() {
    let mut obj = object(5, "barrier");
    obj.properties = vec![
        prop("depth", "int", Value::from(1)),
        prop("color", "string", Value::from("red")),
        prop("depth", "int", Value::from(2)),
    ];
    let m = map(1, 1, vec![object_layer(vec![obj])], vec![]);
    let mut data = InsertMapData::new(0);
    assert_eq!(insert_map(m, &mut data), Ok(()));
    let json = &data.jsons.get(&0).unwrap().0;
    assert_eq!(json.len(), 2);
    assert_eq!(json[0].name, "color");
    assert_eq!(json[1].name, "depth");
    assert_eq!(json[1].value, Value::from(2));
    assert!(data.barriers.contains_key(&0));
}
