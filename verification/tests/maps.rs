//! Reading, editing and saving a map.

use ss13_map_mcp::constants::{json_to_constant, ConstantTree};
use ss13_map_mcp::dmm::DmmMap;
use ss13_map_mcp::index::SpatialIndex;
use ss13_map_mcp::json::{JsonNumber, JsonValue};
use ss13_map_mcp::layers::{find_layer_position, fingerprint_prefabs, layer_priority};
use ss13_map_mcp::names::NameTable;
use ss13_map_mcp::objtree::{ObjectTree, TypeNode};
use ss13_map_mcp::prefab::{Constant, ConstantKind, DmNumber, Prefab};
use ss13_map_mcp::saving::{save_error, KeyGen, SaveAction};
use ss13_map_mcp::state::{build_prefab, BatchPlacement, MapData, MapFormatSnapshot};

fn prefab(path: &str) -> Prefab {
    Prefab::from_path(path.to_string())
}

fn text(s: &str) -> Constant {
    Constant {
        kind: ConstantKind::Str(s.to_string()),
        text: format!("\"{}\"", s),
        detail: format!("String(\"{}\")", s),
    }
}

fn with_var(path: &str, name: &str, value: &str) -> Prefab {
    Prefab { path: path.to_string(), vars: vec![(name.to_string(), text(value))] }
}

fn empty_tree() -> ObjectTree {
    ObjectTree {
        types: vec![TypeNode {
            path: String::new(),
            parent: None,
            level: 0,
            children: Vec::new(),
            vars: Vec::new(),
            procs: Vec::new(),
        }],
    }
}

/// Two by two tiles of plating, with a table on (2,2,1).
fn tiny_map() -> DmmMap {
    let mut map = DmmMap::blank(2, 2, 1);
    map.put_entry(0, vec![prefab("/turf/open/floor/plating"), prefab("/area/space")]);
    map.put_entry(
        1,
        vec![prefab("/obj/structure/table"), prefab("/turf/open/floor/plating"), prefab("/area/space")],
    );
    for y in 0..2 {
        for x in 0..2 {
            map.set_key((0, y, x), 0);
        }
    }
    map.set_key((0, 0, 1), 1);
    map
}

fn tiny() -> MapData {
    MapData::open(tiny_map(), "tiny.dmm".to_string(), Some(MapFormatSnapshot { original_bytes: vec![1, 2, 3] }))
}

fn paths_at(data: &MapData, x: i32, y: i32, z: i32) -> Vec<String> {
    let (_, dim_y, _) = data.map.dim_xyz();
    let raw = (z as usize - 1, dim_y - y as usize, x as usize - 1);
    match data.map.lookup(data.map.key(raw)) {
        Some(list) => list.iter().map(|p| p.path.clone()).collect(),
        None => Vec::new(),
    }
}

fn keys(map: &DmmMap) -> Vec<u16> {
    (0..map.entry_count()).map(|i| map.entry_at(i).0).collect()
}

fn referenced(map: &DmmMap) -> Vec<u16> {
    let (dx, dy, dz) = map.dim_xyz();
    let mut out = Vec::new();
    for z in 0..dz {
        for y in 0..dy {
            for x in 0..dx {
                out.push(map.key((z, y, x)));
            }
        }
    }
    out
}

fn save_in_place(data: &mut MapData) {
    assert!(matches!(data.plan_save(false), SaveAction::Preserve));
    data.finish_save(Some(MapFormatSnapshot { original_bytes: vec![9] }));
}

#[test]
fn preserving_save_repoints_the_grid() {
    let mut data = tiny();
    data.place_prefab(2, 2, 1, prefab("/obj/structure/chair")).expect("place");
    save_in_place(&mut data);
    let paths = paths_at(&data, 2, 2, 1);
    assert!(paths.iter().any(|p| p == "/obj/structure/chair"), "tile (2,2,1) came back as {:?}", paths);
}

#[test]
fn replacing_an_object_survives_a_preserving_save() {
    let mut data = tiny();
    assert!(data.remove_prefab(2, 2, 1, "/obj/structure/table").expect("remove"));
    data.place_prefab(2, 2, 1, prefab("/obj/structure/chair")).expect("place");
    save_in_place(&mut data);
    assert_eq!(
        paths_at(&data, 2, 2, 1),
        vec![
            "/obj/structure/chair".to_string(),
            "/turf/open/floor/plating".to_string(),
            "/area/space".to_string(),
        ]
    );
}

#[test]
fn allocating_a_key_skips_orphaned_dictionary_entries() {
    let mut data = tiny();
    let table_key = data.map.key((0, 0, 1));
    assert!(data.remove_prefab(2, 2, 1, "/obj/structure/table").expect("remove"));
    assert!(
        !referenced(&data.map).contains(&table_key),
        "the fixture only works if the removal leaves the table's key unreferenced"
    );
    let before: Vec<String> = data.map.lookup(table_key).unwrap().iter().map(|p| p.notation()).collect();
    data.place_prefab(2, 2, 1, prefab("/obj/structure/chair")).expect("place");
    let after: Vec<String> = data.map.lookup(table_key).unwrap().iter().map(|p| p.notation()).collect();
    assert_eq!(after, before, "the placement reused the orphaned key and overwrote its entry");
}

#[test]
fn preserving_save_writes_no_orphan_entries() {
    let mut data = tiny();
    assert!(data.remove_prefab(2, 2, 1, "/obj/structure/table").expect("remove"));
    data.place_prefab(2, 2, 1, prefab("/obj/structure/chair")).expect("place");
    save_in_place(&mut data);
    let used = referenced(&data.map);
    let orphans: Vec<u16> = keys(&data.map).into_iter().filter(|k| !used.contains(k)).collect();
    assert!(orphans.is_empty(), "entries no tile references: {:?}", orphans);
    assert!(
        data.map.entry_count() < 3,
        "the table's entry should be gone, leaving only the plating tile and the chair tile"
    );
}

#[test]
fn preserving_save_leaves_other_tiles_alone() {
    let mut data = tiny();
    data.place_prefab(2, 2, 1, prefab("/obj/structure/chair")).expect("place");
    save_in_place(&mut data);
    for (x, y) in [(1, 1), (1, 2), (2, 1)] {
        assert_eq!(
            paths_at(&data, x, y, 1),
            vec!["/turf/open/floor/plating".to_string(), "/area/space".to_string()]
        );
    }
}

#[test]
fn write_and_read_agree_on_y() {
    let mut map = DmmMap::blank(60, 60, 1);
    map.put_entry(0, vec![prefab("/turf/open/space"), prefab("/area/space")]);
    for y in 0..60 {
        for x in 0..60 {
            map.set_key((0, y, x), 0);
        }
    }
    let mut data = MapData::open(map, "map.dmm".to_string(), None);
    let dim_y = data.map.dim_xyz().1 as i32;
    let (x, y, z) = (5, 6, 1);
    assert_ne!(y, dim_y - y + 1, "test coordinate must not sit on the mirror line");
    data.place_prefab(x, y, z, prefab("/obj/effect/landmark/start")).expect("place");
    let rebuilt = SpatialIndex::build(&data.map);
    let found = rebuilt.instances_of("/obj/effect/landmark/start");
    assert_eq!(found.len(), 1, "expected exactly one marker");
    assert_eq!((found[0].x, found[0].y, found[0].z), (x, y, z));
    assert_eq!(
        data.map.lookup(data.map.key((0, 54, 4))).unwrap()[0].path,
        "/obj/effect/landmark/start",
        "row 6 from the bottom is raw row 54"
    );
}

#[test]
fn positions_off_the_map_are_refused() {
    let mut data = tiny();
    for (x, y, z) in [(0, 1, 1), (3, 1, 1), (1, 0, 1), (1, 3, 1), (1, 1, 0), (1, 1, 2), (-1, 1, 1)] {
        assert!(data.grid_index(x, y, z).is_err());
        assert!(data.place_prefab(x, y, z, prefab("/obj/a")).is_err());
        assert!(data.remove_prefab(x, y, z, "/obj/a").is_err());
        assert!(data.replace_prefab(x, y, z, "/obj/a", prefab("/obj/b")).is_err());
    }
    assert!(!data.dirty);
    assert_eq!(data.grid_index(2, 2, 1), Ok((0, 0, 1)));
    assert_eq!(data.grid_index(1, 1, 1), Ok((0, 1, 0)));
}

#[test]
fn a_tile_has_one_turf_and_one_area() {
    let mut data = tiny();
    data.place_prefab(1, 1, 1, prefab("/turf/open/floor/iron")).expect("place");
    data.place_prefab(1, 1, 1, prefab("/area/station")).expect("place");
    assert_eq!(paths_at(&data, 1, 1, 1), vec!["/turf/open/floor/iron".to_string(), "/area/station".to_string()]);
    assert_eq!(data.index.area_of(1, 1, 1), Some("/area/station"));
    assert_eq!(data.index.area_tiles("/area/space").len(), 3);
    assert!(data.dirty);
}

#[test]
fn what_was_placed_can_be_taken_away_again() {
    let mut data = tiny();
    let before = paths_at(&data, 1, 2, 1);
    data.place_prefab(1, 2, 1, prefab("/obj/item/pen")).expect("place");
    assert_eq!(paths_at(&data, 1, 2, 1)[0], "/obj/item/pen");
    assert_eq!(data.index.at(1, 2, 1).len(), 3);
    assert_eq!(data.remove_prefab(1, 2, 1, "/obj/item/pen"), Ok(true));
    assert_eq!(paths_at(&data, 1, 2, 1), before);
    assert_eq!(data.index.instances_of("/obj/item/pen").len(), 0);
    assert_eq!(data.remove_prefab(1, 2, 1, "/obj/item/pen"), Ok(false));
}

#[test]
fn replacing_keeps_the_place_in_the_list() {
    let mut data = tiny();
    assert_eq!(data.replace_prefab(2, 2, 1, "/obj/structure/table", prefab("/obj/structure/rack")), Ok(true));
    assert_eq!(
        paths_at(&data, 2, 2, 1),
        vec![
            "/obj/structure/rack".to_string(),
            "/turf/open/floor/plating".to_string(),
            "/area/space".to_string(),
        ]
    );
    assert_eq!(data.replace_prefab(2, 2, 1, "/obj/structure/table", prefab("/obj/x")), Ok(false));
    assert_eq!(data.index.instances_of("/obj/structure/table").len(), 0);
    assert_eq!(data.index.instances_of("/obj/structure/rack").len(), 1);
}

#[test]
fn equal_contents_share_a_key() {
    let mut data = tiny();
    data.place_prefab(1, 1, 1, prefab("/obj/structure/table")).expect("place");
    assert_eq!(data.map.key((0, 1, 0)), 1, "the contents of (1,1,1) now match the entry of the table");
    assert_eq!(data.map.entry_count(), 2);
}

#[test]
fn only_turfs_can_be_set_as_turf() {
    let mut data = tiny();
    let tree = empty_tree();
    assert_eq!(
        data.set_turf(1, 1, 1, "/obj/structure/table", None, &tree),
        Err("'/obj/structure/table' is not a turf path (must start with /turf/)".to_string())
    );
    assert_eq!(data.set_turf(1, 1, 1, "/turf/closed/wall", None, &tree), Ok(()));
    assert_eq!(paths_at(&data, 1, 1, 1), vec!["/turf/closed/wall".to_string(), "/area/space".to_string()]);
}

#[test]
fn a_batch_reports_each_placement() {
    let mut data = tiny();
    let tree = empty_tree();
    let mut vars: NameTable<Constant> = NameTable::new();
    vars.insert("name".to_string(), text("odd"));
    let results = data.place_batch(
        vec![
            BatchPlacement {
                x: 2,
                y: 2,
                z: 1,
                type_path: "/obj/structure/chair".to_string(),
                vars: None,
                replace: Some("/obj/structure/table".to_string()),
            },
            BatchPlacement { x: 9, y: 9, z: 1, type_path: "/obj/a".to_string(), vars: None, replace: None },
            BatchPlacement { x: 1, y: 1, z: 1, type_path: "/obj/b".to_string(), vars: Some(vars), replace: None },
        ],
        &tree,
    );
    assert_eq!(results.len(), 3);
    assert!(results[0].ok && results[0].error.is_none());
    assert!(!results[1].ok && results[1].error.is_some());
    assert_eq!(results[1].type_path, "/obj/a");
    assert!(results[2].ok);
    assert_eq!(
        paths_at(&data, 2, 2, 1),
        vec![
            "/obj/structure/chair".to_string(),
            "/turf/open/floor/plating".to_string(),
            "/area/space".to_string(),
        ]
    );
}

#[test]
fn preserving_save_keeps_dead_keys_it_did_not_create() {
    let mut map = tiny_map();
    map.put_entry(
        2,
        vec![prefab("/obj/structure/rack"), prefab("/turf/open/floor/plating"), prefab("/area/space")],
    );
    let mut data = MapData::open(map, "dead.dmm".to_string(), Some(MapFormatSnapshot { original_bytes: vec![1] }));
    data.place_prefab(1, 1, 1, prefab("/obj/structure/chair")).expect("place");
    assert!(matches!(data.plan_save(false), SaveAction::Preserve));
    assert_eq!(
        data.map.lookup(2).expect("entry")[0].path,
        "/obj/structure/rack",
        "a dead key the edit did not strand was removed anyway"
    );
    assert!(!referenced(&data.map).contains(&2));
}

#[test]
fn a_batch_takes_one_key_for_each_new_content() {
    let mut data = tiny();
    let turfs = ["/turf/closed/wall", "/turf/open/floor/plating"];
    let placements = (0..70000)
        .map(|i| BatchPlacement {
            x: 1,
            y: 1,
            z: 1,
            type_path: turfs[i % 2].to_string(),
            vars: None,
            replace: None,
        })
        .collect();
    let results = data.place_batch(placements, &empty_tree());
    assert_eq!(results.len(), 70000);
    assert!(results.iter().all(|r| r.ok));
    assert_eq!(keys(&data.map), vec![0, 1, 2]);
    assert_eq!(paths_at(&data, 1, 1, 1), vec!["/turf/open/floor/plating".to_string(), "/area/space".to_string()]);
}

#[test]
fn removing_what_was_placed_restores_the_index() {
    let mut data = tiny();
    let before: Vec<String> = data.index.at(2, 2, 1).iter().map(|p| p.path.clone()).collect();
    data.place_prefab(2, 2, 1, prefab("/obj/structure/chair")).expect("place");
    assert_eq!(data.index.instances_of("/obj/structure").len(), 2);
    assert_eq!(data.remove_prefab(2, 2, 1, "/obj/structure/chair"), Ok(true));
    let after: Vec<String> = data.index.at(2, 2, 1).iter().map(|p| p.path.clone()).collect();
    assert_eq!(after, before);
    assert_eq!(data.index.instances_of("/obj/structure").len(), 1);
    assert_eq!(data.index.all_areas(), vec!["/area/space"]);
}

#[test]
fn what_was_placed_is_removed_without_a_free_key() {
    let mut map = DmmMap::blank(1, 1, 1);
    for key in 0..65535 {
        map.put_entry(key, vec![with_var("/obj/a", "n", &key.to_string())]);
    }
    map.set_key((0, 0, 0), 7);
    let mut data = MapData::open(map, "full.dmm".to_string(), None);
    data.place_prefab(1, 1, 1, prefab("/obj/b")).expect("place");
    assert_eq!(data.map.entry_count(), 65536);
    assert_eq!(data.remove_prefab(1, 1, 1, "/obj/b"), Ok(true));
    assert_eq!(data.map.key((0, 0, 0)), 7);
    assert_eq!(data.index.at(1, 1, 1).len(), 1);
}

#[test]
fn saving_keeps_paths_at_their_positions() {
    let mut data = tiny();
    data.place_prefab(1, 2, 1, prefab("/obj/a")).expect("place");
    let map = data.compacted().expect("compacted");
    let read = SpatialIndex::build(&map);
    let paths: Vec<&str> = read.at(1, 2, 1).iter().map(|p| p.path.as_str()).collect();
    assert_eq!(paths, vec!["/obj/a", "/turf/open/floor/plating", "/area/space"]);
    assert_eq!(read.at(1, 1, 1).len(), 2);
}

#[test]
fn unchanged_maps_are_written_back_as_they_were() {
    let mut data = tiny();
    match data.plan_save(false) {
        SaveAction::Write(bytes) => assert_eq!(bytes, vec![1, 2, 3]),
        _ => panic!("expected the original bytes"),
    }
    assert!(matches!(data.plan_save(true), SaveAction::Compact));
    data.place_prefab(1, 1, 1, prefab("/obj/a")).expect("place");
    assert!(matches!(data.plan_save(false), SaveAction::Preserve));
    data.activate_new(tiny_map(), "new.dmm".to_string());
    assert!(matches!(data.plan_save(false), SaveAction::Plain));
    assert_eq!(data.path, "new.dmm");
    assert_eq!(save_error("disk full"), "Failed to save map: disk full");
}

#[test]
fn switching_maps_drops_staged_edits() {
    let mut data = tiny();
    data.place_prefab(1, 1, 1, prefab("/obj/a")).expect("place");
    assert!(data.dirty);
    data.activate(tiny_map(), "other.dmm".to_string(), None);
    assert!(!data.dirty);
    assert_eq!(data.index.instances_of("/obj/a").len(), 0);
    assert_eq!(paths_at(&data, 1, 1, 1).len(), 2);
}

#[test]
fn compacting_keeps_every_tile_and_merges_equal_entries() {
    let mut map = tiny_map();
    map.put_entry(7, vec![prefab("/turf/open/floor/plating"), prefab("/area/space")]);
    map.set_key((0, 1, 1), 7);
    map.put_entry(9, vec![prefab("/obj/unused")]);
    let mut data = MapData::open(map, "m.dmm".to_string(), None);
    let before: Vec<Vec<String>> = vec![
        paths_at(&data, 1, 1, 1),
        paths_at(&data, 2, 1, 1),
        paths_at(&data, 1, 2, 1),
        paths_at(&data, 2, 2, 1),
    ];
    let compact = data.compacted().expect("two entries fit");
    assert_eq!(compact.entry_count(), 2);
    data.rebuild(compact);
    data.finish_compact(None);
    let after: Vec<Vec<String>> = vec![
        paths_at(&data, 1, 1, 1),
        paths_at(&data, 2, 1, 1),
        paths_at(&data, 1, 2, 1),
        paths_at(&data, 2, 2, 1),
    ];
    assert_eq!(before, after);
    assert_eq!(data.index.instances_of("/obj/structure/table").len(), 1);
}

#[test]
fn keys_are_handed_out_in_order() {
    let mut gen = KeyGen::new();
    let a = gen.take();
    let b = gen.take();
    assert!(b == a + 1);
}

#[test]
fn allocation_takes_the_least_free_key() {
    let mut map = DmmMap::blank(1, 1, 1);
    map.put_entry(0, Vec::new());
    map.put_entry(2, Vec::new());
    map.set_key((0, 0, 0), 1);
    assert_eq!(map.allocate_unused_key(), 3);
}

#[test]
fn the_grid_keeps_what_it_is_given() {
    let mut map = DmmMap::blank(3, 2, 4);
    assert_eq!(map.dim_xyz(), (3, 2, 4));
    assert_eq!(map.key((3, 1, 2)), 0);
    map.set_key((3, 1, 2), 65535);
    map.set_key((0, 0, 0), 12);
    assert_eq!(map.key((3, 1, 2)), 65535);
    assert_eq!(map.key((0, 0, 0)), 12);
    assert_eq!(map.key((3, 1, 1)), 0);
}

#[test]
fn layers_are_ordered() {
    assert!(layer_priority("/obj/a") < layer_priority("/turf/a"));
    assert!(layer_priority("/turf/a") < layer_priority("/area/a"));
    let tile = vec![prefab("/obj/a"), prefab("/turf/a"), prefab("/area/a")];
    assert_eq!(find_layer_position(&tile, "/area/b"), 3);
    assert_eq!(find_layer_position(&tile, "/turf/b"), 2);
    assert_eq!(find_layer_position(&Vec::new(), "/obj/b"), 0);
}

#[test]
fn variable_order_does_not_change_the_fingerprint() {
    let a = Prefab {
        path: "/obj/a".to_string(),
        vars: vec![("x".to_string(), text("1")), ("y".to_string(), text("2"))],
    };
    let b = Prefab {
        path: "/obj/a".to_string(),
        vars: vec![("y".to_string(), text("2")), ("x".to_string(), text("1"))],
    };
    let c = with_var("/obj/a", "x", "1");
    assert_eq!(fingerprint_prefabs(&vec![a]), fingerprint_prefabs(&vec![b.clone()]));
    assert_ne!(fingerprint_prefabs(&vec![b]), fingerprint_prefabs(&vec![c]));
}

#[test]
fn prefabs_are_compared_with_their_variables() {
    let a = with_var("/obj/a", "x", "1");
    let b = with_var("/obj/a", "x", "2");
    assert!(a.same(&a.clone()));
    assert!(!a.same(&b));
    assert!(!a.same(&prefab("/obj/a")));
    assert_eq!(a.notation(), "/obj/a{x = \"1\"}");
    assert_eq!(prefab("/obj/a").notation(), "/obj/a");
}

#[test]
fn a_prefab_takes_the_variables_it_is_given() {
    let mut vars: NameTable<Constant> = NameTable::new();
    vars.insert("name".to_string(), text("odd"));
    let p = build_prefab("/obj/a", &vars, &empty_tree());
    assert_eq!(p.path, "/obj/a");
    assert_eq!(p.vars.len(), 1);
    assert_eq!(p.vars[0].0, "name");
}

#[test]
fn json_values_become_constants() {
    let one = DmNumber { bits: 0x3f80_0000, shown: "1".to_string(), json: Some("1.0".to_string()) };
    let number = JsonValue::Number(JsonNumber { text: "1".to_string(), dm: Some(one) });
    assert!(matches!(json_to_constant(&JsonValue::Null), ConstantTree::Null));
    assert!(matches!(json_to_constant(&number), ConstantTree::Float(_)));
    match json_to_constant(&JsonValue::Str("plain".to_string())) {
        ConstantTree::Str(s) => assert_eq!(s, "plain"),
        _ => panic!("expected a text"),
    }
    match json_to_constant(&JsonValue::Array(vec![JsonValue::Null, JsonValue::Null])) {
        ConstantTree::List(items) => assert_eq!(items.len(), 2),
        _ => panic!("expected a list"),
    }
}
