use old_gods::map::{Layer, LayerData, Object, ObjectLayerData, Tiledmap};
use old_gods::components::InsertMapData;
use old_gods::resources::{LoadStatus, NotLoaded, SharedResource, TiledmapResources};
use old_gods::tiled::{LoadMap, TiledmapSystem};

fn one_object_map() -> Tiledmap {
    let obj = Object {
        id: 1,
        name: "door".to_string(),
        type_is: "zone".to_string(),
        x: 0,
        y: 0,
        width: 8,
        height: 8,
        gid: None,
        polyline: None,
        polygon: None,
        properties: vec![],
    };
    Tiledmap {
        width: 1,
        height: 1,
        tilewidth: 16,
        tileheight: 16,
        layers: vec![Layer {
            name: "things".to_string(),
            type_is: "objectgroup".to_string(),
            layer_data: LayerData::Objects(ObjectLayerData { objects: vec![obj] }),
        }],
        tilesets: vec![],
    }
}

#[test]
fn load_twice_starts_one_fetch() {
    let mut r = TiledmapResources::new("http://host/");
    assert_eq!(r.status_of("a.json"), LoadStatus::Idle);
    assert!(r.load("a.json"));
    assert!(!r.load("a.json"));
    assert_eq!(r.status_of("a.json"), LoadStatus::Loading);
    assert_eq!(r.take_fetch_requests(), vec!["a.json".to_string()]);
    assert!(r.take_fetch_requests().is_empty());
    assert_eq!(r.base_url(), "http://host/");
}

#[test]
fn take_hands_out_once() {
    let mut r = TiledmapResources::new("");
    r.load("a.json");
    assert!(r.take("a.json").is_none());
    r.finish_load("a.json", Ok(one_object_map()));
    assert_eq!(r.status_of("a.json"), LoadStatus::Complete);
    let slot = r.take("a.json");
    assert!(matches!(slot, Some(SharedResource::Complete(_))));
    assert!(r.take("a.json").is_none());
    assert_eq!(r.status_of("a.json"), LoadStatus::Idle);
    r.put("a.json", slot.unwrap());
    assert_eq!(r.status_of("a.json"), LoadStatus::Complete);
    assert!(r.take("a.json").is_some());
}

#[test]
fn finished_status_never_goes_back() {
    let mut r = TiledmapResources::new("");
    r.load("bad.json");
    r.finish_load("bad.json", Err("404".to_string()));
    assert_eq!(r.status_of("bad.json"), LoadStatus::Error("404".to_string()));
    r.finish_load("bad.json", Ok(one_object_map()));
    assert_eq!(r.status_of("bad.json"), LoadStatus::Error("404".to_string()));
    r.finish_load("never.json", Err("x".to_string()));
    assert_eq!(r.status_of("never.json"), LoadStatus::Idle);
}

#[test]
fn when_loaded_outcomes() {
    let mut r = TiledmapResources::new("");
    assert_eq!(r.when_loaded("m.json").err(), Some(NotLoaded::NotReady));
    assert_eq!(r.status_of("m.json"), LoadStatus::Loading);
    assert_eq!(r.when_loaded("m.json").err(), Some(NotLoaded::NotReady));
    assert_eq!(r.take_fetch_requests().len(), 1);
    r.finish_load("m.json", Ok(one_object_map()));
    assert!(r.when_loaded("m.json").is_ok());
    assert_eq!(r.status_of("m.json"), LoadStatus::Idle);
    r.load("e.json");
    r.finish_load("e.json", Err("parse".to_string()));
    assert_eq!(r.when_loaded("e.json").err(), Some(NotLoaded::Failed("parse".to_string())));
    assert_eq!(r.status_of("e.json"), LoadStatus::Error("parse".to_string()));
}

#[test]
fn two_requests_one_decomposition() {
    let mut sys = TiledmapSystem::new("");
    let mut data = InsertMapData::new(10);
    let mut reqs = vec![
        (1u64, LoadMap { file: "level1.json".to_string() }),
        (2u64, LoadMap { file: "level1.json".to_string() }),
    ];
    assert_eq!(sys.run(&mut reqs, &mut data), Ok(()));
    assert_eq!(reqs.len(), 2);
    assert_eq!(sys.resources.take_fetch_requests(), vec!["level1.json".to_string()]);
    sys.resources.finish_load("level1.json", Ok(one_object_map()));
    assert_eq!(sys.run(&mut reqs, &mut data), Ok(()));
    assert!(reqs.is_empty());
    assert_eq!(data.next_entity, 11);
    assert_eq!(data.zones.len(), 1);
    assert!(sys.resources.take_fetch_requests().is_empty());
}

#[test]
fn failed_load_drops_request() {
    let mut sys = TiledmapSystem::new("");
    let mut data = InsertMapData::new(0);
    let mut reqs = vec![(1u64, LoadMap { file: "x.json".to_string() })];
    assert_eq!(sys.run(&mut reqs, &mut data), Ok(()));
    sys.resources.finish_load("x.json", Err("offline".to_string()));
    assert_eq!(sys.run(&mut reqs, &mut data), Ok(()));
    assert!(reqs.is_empty());
    assert_eq!(data.next_entity, 0);
}

#[test]
fn default_registry_is_empty() {
    let mut r = TiledmapResources::default();
    assert_eq!(r.base_url(), "");
    assert_eq!(r.status_of("a.json"), LoadStatus::Idle);
    assert!(r.take_fetch_requests().is_empty());
}

#[test]
fn error_slot_survives_failed_requests() {
    let mut sys = TiledmapSystem::new("/maps/");
    let mut data = InsertMapData::new(0);
    sys.resources.load("e.json");
    sys.resources.finish_load("e.json", Err("gone".to_string()));
    let mut reqs = vec![
        (1u64, LoadMap { file: "e.json".to_string() }),
        (2u64, LoadMap { file: "other.json".to_string() }),
        (3u64, LoadMap { file: "e.json".to_string() }),
    ];
    assert_eq!(sys.run(&mut reqs, &mut data), Ok(()));
    assert_eq!(reqs, vec![(2u64, LoadMap { file: "other.json".to_string() })]);
    assert_eq!(sys.resources.status_of("e.json"), LoadStatus::Error("gone".to_string()));
    assert_eq!(sys.resources.status_of("other.json"), LoadStatus::Loading);
    assert_eq!(data.next_entity, 0);
}
