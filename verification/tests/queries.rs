//! The spatial index and the tools that ask it.

use ss13_map_mcp::dmm::DmmMap;
use ss13_map_mcp::index::{cells_around, SpatialIndex};
use ss13_map_mcp::prefab::Prefab;
use ss13_map_mcp::tools::{
    list_areas, query_adjacent, query_area, query_nearby, query_object_type, query_tile, search_objects, trace_network,
    ListAreasParams, QueryAdjacentParams, QueryAreaParams, QueryNearbyParams, QueryTileParams, QueryTypeParams,
    SearchObjectsParams, TraceNetworkParams,
};

fn prefab(path: &str) -> Prefab {
    Prefab::from_path(path.to_string())
}

/// Three by two tiles. Cables run along the bottom row; one APC stands at the top left.
fn index() -> SpatialIndex {
    let mut map = DmmMap::blank(3, 2, 1);
    map.put_entry(0, vec![prefab("/turf/open/floor"), prefab("/area/a")]);
    map.put_entry(1, vec![prefab("/obj/structure/cable"), prefab("/turf/open/floor"), prefab("/area/a")]);
    map.put_entry(2, vec![prefab("/obj/structure/cable"), prefab("/turf/open/floor"), prefab("/area/b")]);
    map.put_entry(3, vec![prefab("/obj/machinery/power/apc"), prefab("/turf/open/floor"), prefab("/area/a")]);
    map.set_key((0, 0, 0), 3);
    map.set_key((0, 0, 1), 0);
    map.set_key((0, 0, 2), 0);
    map.set_key((0, 1, 0), 1);
    map.set_key((0, 1, 1), 1);
    map.set_key((0, 1, 2), 2);
    SpatialIndex::build(&map)
}

#[test]
fn tiles_are_told_with_their_objects() {
    let ix = index();
    assert_eq!(
        query_tile(&ix, &QueryTileParams { x: 1, y: 2, z: None }),
        "Objects at (1, 2, 1):\n  /obj/machinery/power/apc\n  /turf/open/floor\n  /area/a\n"
    );
    assert_eq!(query_tile(&ix, &QueryTileParams { x: 9, y: 9, z: Some(2) }), "No objects at (9, 9, 2)");
}

#[test]
fn areas_are_listed_in_order() {
    let ix = index();
    assert_eq!(
        list_areas(&ix, &ListAreasParams { prefix: None }),
        "2 areas found:\n  /area/a (5 tiles)\n  /area/b (1 tiles)\n"
    );
    assert_eq!(
        list_areas(&ix, &ListAreasParams { prefix: Some("/area/b".to_string()) }),
        "1 areas found:\n  /area/b (1 tiles)\n"
    );
    assert_eq!(ix.all_areas().len(), 2);
    assert_eq!(ix.area_of(3, 1, 1), Some("/area/b"));
    assert_eq!(ix.area_of(4, 1, 1), None);
}

#[test]
fn areas_are_summed_up_by_type() {
    let ix = index();
    assert_eq!(
        query_area(&ix, &QueryAreaParams { area_path: "/area/a".to_string() }),
        "Area '/area/a': 5 tiles, 13 objects\n\nObject types:\n  /area/a ×5\n  /obj/machinery/power/apc ×1\n  \
         /obj/structure/cable ×2\n  /turf/open/floor ×5\n"
    );
    assert_eq!(
        query_area(&ix, &QueryAreaParams { area_path: "/area/z".to_string() }),
        "No objects in area '/area/z' (area may not exist)"
    );
}

#[test]
fn instances_hold_subtypes_too() {
    let ix = index();
    assert_eq!(
        query_object_type(&ix, &QueryTypeParams { type_path: "/obj/machinery".to_string(), limit: None }),
        "1 instances of '/obj/machinery' found:\n  (1,2,1) /obj/machinery/power/apc\n"
    );
    let many = query_object_type(&ix, &QueryTypeParams { type_path: "/obj/structure/cable".to_string(), limit: Some(2) });
    assert!(many.starts_with("3 instances of '/obj/structure/cable' found (showing first 2):\n"));
    assert_eq!(many.lines().count(), 3);
    assert_eq!(
        query_object_type(&ix, &QueryTypeParams { type_path: "/mob".to_string(), limit: None }),
        "No instances of '/mob' on the map"
    );
}

#[test]
fn neighbours_are_told_by_direction() {
    let ix = index();
    assert_eq!(
        query_adjacent(&ix, &QueryAdjacentParams { x: 1, y: 1, z: None }),
        "Adjacent to (1, 1, 1):\n  North (1,2):\n    /obj/machinery/power/apc\n    /turf/open/floor\n    /area/a\n  \
         East (2,1):\n    /obj/structure/cable\n    /turf/open/floor\n    /area/a\n"
    );
    assert_eq!(ix.adjacent(1, 1, 1).len(), 6);
}

#[test]
fn nearby_leaves_out_the_middle() {
    let ix = index();
    assert_eq!(
        query_nearby(&ix, &QueryNearbyParams { x: 3, y: 2, z: None, radius: Some(1) }),
        "8 objects within 1 tiles of (3, 2, 1):\n  (2,1): /obj/structure/cable, /turf/open/floor, /area/a\n  \
         (2,2): /turf/open/floor, /area/a\n  (3,1): /obj/structure/cable, /turf/open/floor, /area/b\n"
    );
    assert_eq!(cells_around(0, 0, 1, 1).len(), 8);
    assert_eq!(cells_around(0, 0, 1, 0).len(), 0);
    assert!(!cells_around(5, 5, 1, 2).contains(&(5, 5, 1)));
    assert!(cells_around(5, 5, 1, 2).contains(&(7, 3, 1)));
}

#[test]
fn networks_are_traced_from_either_end() {
    let ix = index();
    let params = |x: i32| TraceNetworkParams { x, y: 1, z: None, network_type: "/obj/structure/cable".to_string() };
    assert_eq!(
        trace_network(&ix, &params(1)),
        "Network '/obj/structure/cable' from (1,1,1): 3 connected tiles\nAreas spanned:\n  /area/a (2 tiles)\n  \
         /area/b (1 tiles)\n"
    );
    let mut a = ix.trace_network(1, 1, 1, "/obj/structure/cable");
    let mut b = ix.trace_network(3, 1, 1, "/obj/structure/cable");
    a.sort();
    b.sort();
    assert_eq!(a, b);
    assert_eq!(
        trace_network(&ix, &TraceNetworkParams { x: 1, y: 2, z: None, network_type: "/obj/structure/cable".to_string() }),
        "No '/obj/structure/cable' network found at (1, 2, 1)"
    );
}

#[test]
fn types_are_searched_without_regard_to_case() {
    let ix = index();
    assert_eq!(
        search_objects(&ix, &SearchObjectsParams { query: "FLOOR".to_string(), limit: None }),
        "Types matching 'FLOOR':\n  /turf/open/floor (×6)\n"
    );
    assert_eq!(
        search_objects(&ix, &SearchObjectsParams { query: "/".to_string(), limit: Some(2) }),
        "Types matching '/':\n  /area/a (×5)\n  /area/b (×1)\n  ... and 3 more\n"
    );
    assert_eq!(
        search_objects(&ix, &SearchObjectsParams { query: "zzz".to_string(), limit: None }),
        "Types matching 'zzz':\n"
    );
}

#[test]
fn taking_out_undoes_putting_in() {
    let mut ix = index();
    ix.add_object(2, 2, 1, prefab("/obj/item/pen"));
    assert_eq!(ix.at(2, 2, 1).len(), 3);
    assert_eq!(ix.instances_of("/obj/item").len(), 1);
    ix.remove_object(2, 2, 1, &prefab("/obj/item/pen"));
    assert_eq!(ix.at(2, 2, 1).len(), 2);
    assert_eq!(ix.instances_of("/obj/item").len(), 0);
    assert_eq!(ix.objects_in_area("/area/a").len(), 13);
    assert_eq!(ix.area_tiles("/area/a").len(), 5);
    assert_eq!(ix.dim_xyz(), (3, 2, 1));
}

#[test]
fn an_area_without_tiles_is_not_listed() {
    let mut map = DmmMap::blank(1, 1, 1);
    map.put_entry(0, vec![prefab("/turf/t"), prefab("/area/a")]);
    map.set_key((0, 0, 0), 0);
    let mut idx = SpatialIndex::build(&map);
    assert_eq!(idx.all_areas(), vec!["/area/a"]);
    idx.remove_object(1, 1, 1, &prefab("/area/a"));
    assert_eq!(idx.all_areas(), Vec::<&str>::new());
    idx.add_object(1, 1, 1, prefab("/area/b"));
    idx.add_object(1, 1, 1, prefab("/area/a"));
    idx.remove_object(1, 1, 1, &prefab("/area/b"));
    assert_eq!(idx.all_areas(), vec!["/area/a"]);
    assert_eq!(idx.area_tiles("/area/a").len(), 1);
}

#[test]
fn networks_end_where_coordinates_do() {
    let mut idx = index();
    idx.add_object(i32::MAX, i32::MIN, 1, prefab("/obj/wire"));
    assert_eq!(idx.trace_network(i32::MAX, i32::MIN, 1, "/obj/wire"), vec![(i32::MAX, i32::MIN, 1)]);
}
