//! What a rendering covers, and how it is reported.

use ss13_map_mcp::cli::{has_values, parse_args, Command};
use ss13_map_mcp::dmm::DmmMap;
use ss13_map_mcp::index::SpatialIndex;
use ss13_map_mcp::prefab::Prefab;
use ss13_map_mcp::render::{choose_passes, render_area, render_region, report_render, RenderResult};
use ss13_map_mcp::tools::{
    area_report, refuse_region, region_report, render_failed_text, RenderAreaParams, RenderRegionParams,
};

fn region(x1: usize, y1: usize, x2: usize, y2: usize) -> RenderRegionParams {
    RenderRegionParams { x1, y1, x2, y2, z: None, filter: None }
}

#[test]
fn filters_stand_for_passes() {
    assert_eq!(choose_passes(None), (String::new(), String::new()));
    assert_eq!(choose_passes(Some("pipes")), ("only-pipenet".to_string(), "all".to_string()));
    assert_eq!(choose_passes(Some("wires")), ("only-powernet".to_string(), "all".to_string()));
    assert_eq!(choose_passes(Some("pipes-and-cables")), ("only-wires-and-pipes".to_string(), "all".to_string()));
    assert_eq!(choose_passes(Some("a,b")), ("a,b".to_string(), String::new()));
}

#[test]
fn regions_are_brought_onto_the_map() {
    let plan = render_region((10, 20, 2), 3, 4, 99, 6, 2, None).ok().unwrap();
    assert_eq!((plan.width_tiles, plan.height_tiles), (8, 3));
    assert!(render_region((10, 20, 2), 1, 1, 2, 2, 3, None).is_err());
    assert!(render_region((10, 20, 2), 1, 1, 2, 2, 0, None).is_err());
}

#[test]
fn areas_are_bounded_with_a_margin() {
    let mut map = DmmMap::blank(9, 9, 1);
    map.put_entry(0, vec![Prefab::from_path("/area/space".to_string())]);
    map.put_entry(1, vec![Prefab::from_path("/area/a".to_string())]);
    for y in 0..9 {
        for x in 0..9 {
            map.set_key((0, y, x), 0);
        }
    }
    map.set_key((0, 4, 3), 1);
    map.set_key((0, 2, 5), 1);
    let ix = SpatialIndex::build(&map);
    assert_eq!(render_area(&ix, "/area/a"), Some((3, 4, 7, 8, 1)));
    assert_eq!(render_area(&ix, "/area/b"), None);
}

#[test]
fn large_regions_are_refused() {
    assert_eq!(refuse_region(&region(1, 1, 64, 64)), None);
    assert_eq!(
        refuse_region(&region(1, 1, 65, 2)),
        Some(
            "Region too large: 65x2 tiles (max 64x64). Use smaller bounds or render_area for auto-bounded areas."
                .to_string()
        )
    );
    assert_eq!(refuse_region(&region(9, 9, 1, 1)), None, "a reversed region counts as one tile");
}

#[test]
fn images_are_encoded() {
    let plan = render_region((10, 20, 1), 1, 1, 2, 3, 1, None).ok().unwrap();
    let result = report_render(&plan, &vec![77, 97, 110, 77], 64, 96, vec!["missing".to_string()]);
    assert_eq!(result.base64_png, "TWFuTQ==");
    assert_eq!((result.width_px, result.height_px), (64, 96));
    assert_eq!(
        region_report(&region(1, 1, 2, 3), &result),
        "Rendered region (1,1) to (2,3) z=1: 64x96 px (2x3 tiles)\n\n⚠ 1 icon errors (missing sprites):\n  missing\n\n\
         [IMAGE:base64]\nTWFuTQ=="
    );
}

#[test]
fn area_reports_tell_what_was_drawn() {
    let params = RenderAreaParams { area_path: "/area/a".to_string(), filter: None };
    let result = RenderResult {
        base64_png: "AA==".to_string(),
        width_px: 32,
        height_px: 32,
        width_tiles: 1,
        height_tiles: 1,
        icon_errors: (0..12).map(|i| i.to_string()).collect(),
    };
    let shown = area_report(&params, Some(&result));
    assert!(shown.starts_with("Rendered area '/area/a': 32x32 px (1x1 tiles)\n\n⚠ 12 icon errors"));
    assert!(shown.contains("  9\n  ... and 2 more\n"));
    assert_eq!(area_report(&params, None), "Area '/area/a' not found on the map");
    assert_eq!(render_failed_text("why"), "Render failed: why");
}

fn line(args: Vec<&str>) -> Vec<String> {
    args.into_iter().map(|a| a.to_string()).collect()
}

#[test]
fn the_command_line_names_both_files() {
    match parse_args(&line(vec!["prog", "--dmm", "m.dmm", "--dme", "e.dme", "--dmm", "n.dmm"])) {
        Ok(Command::Serve { dme_path, dmm_path }) => {
            assert_eq!(dme_path, "e.dme");
            assert_eq!(dmm_path, "n.dmm", "the last value counts");
        }
        _ => panic!("expected to serve"),
    }
    assert!(matches!(parse_args(&line(vec!["prog", "--help"])), Ok(Command::Help)));
    assert!(matches!(parse_args(&line(vec!["prog", "--dme", "e", "-h", "--dmm"])), Ok(Command::Help)));
    assert_eq!(parse_args(&line(vec!["prog"])).err(), Some("Missing --dme argument".to_string()));
    assert_eq!(parse_args(&line(vec!["prog", "--dme", "e"])).err(), Some("Missing --dmm argument".to_string()));
    assert_eq!(
        parse_args(&line(vec!["prog", "--rules"])).err(),
        Some("Unknown argument: --rules. Use --help for usage.".to_string())
    );
    assert!(!has_values(&line(vec!["prog", "--dme", "e", "--dmm"])));
    assert!(has_values(&line(vec!["prog", "--dme", "e", "--dmm", "m"])));
    assert!(has_values(&line(vec!["prog", "--help", "--dmm"])));
}
