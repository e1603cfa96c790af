//! Rules: their scripts, their evaluation, and the report on it.

use ss13_map_mcp::dmm::DmmMap;
use ss13_map_mcp::engine::{
    event_of_check, event_of_load, event_of_rule, rule_fields, CheckOutcome, LoadOutcome, Member, RuleOutcome, RuleSource,
};
use ss13_map_mcp::evaluate::{accept_rule, find_subjects, Action, DirEntry, Evaluation, Event, RuleFields, RuleFile};
use ss13_map_mcp::index::SpatialIndex;
use ss13_map_mcp::json::{JsonNumber, JsonValue};
use ss13_map_mcp::prefab::{Constant, ConstantKind, DmNumber, Prefab};
use ss13_map_mcp::rules::{
    area_centre, describe_area, describe_instance, interpret_check_result, prefab_vars_to_json, JsResult, RuleEngine,
    ValidationResult, Violation,
};
use ss13_map_mcp::scripts::{install_globals, json_to_js, wrap_rules};
use ss13_map_mcp::tools::{
    evaluation_failed_text, list_rules, no_rules_text, scan_failed_text, validate_rules, ListRulesParams, RuleFileSize,
    ValidateRulesParams,
};

fn prefab(path: &str) -> Prefab {
    Prefab::from_path(path.to_string())
}

fn text(s: &str) -> Constant {
    Constant { kind: ConstantKind::Str(s.to_string()), text: format!("\"{}\"", s), detail: String::new() }
}

/// Three tiles in a row: an APC, a terminal beside it, and a lone APC. The last is another area.
fn index() -> SpatialIndex {
    let mut map = DmmMap::blank(3, 1, 1);
    let mut apc = prefab("/obj/machinery/power/apc");
    apc.vars.push(("name".to_string(), text("it's \"one\"")));
    map.put_entry(0, vec![apc, prefab("/turf/open/floor"), prefab("/area/station/a")]);
    map.put_entry(1, vec![prefab("/obj/machinery/power/terminal"), prefab("/turf/open/floor"), prefab("/area/station/a")]);
    map.put_entry(2, vec![prefab("/turf/open/floor"), prefab("/area/station/b")]);
    map.set_key((0, 0, 0), 0);
    map.set_key((0, 0, 1), 1);
    map.set_key((0, 0, 2), 2);
    SpatialIndex::build(&map)
}

fn source(name: &str, text: &str) -> RuleSource {
    RuleSource { path: format!("rules/{}", name), name: name.to_string(), text: Ok(text.to_string()) }
}

fn engine() -> RuleEngine {
    RuleEngine::new("rules".to_string())
}

#[test]
fn rules_are_run_on_every_instance() {
    let rule = "rule('apc-needs-terminal', { anchor: '/obj/machinery/power/apc', severity: 'error', \
        message: 'no terminal by {x},{y},{z}', check(obj, ctx) { \
        return ctx.adjacent(obj.x, obj.y).some(o => o.path.startsWith('/obj/machinery/power/cell')); } });";
    let r = engine().evaluate(&index(), &vec![source("power.js", rule)]).expect("evaluate");
    assert_eq!(r.rules_evaluated, 1);
    assert_eq!(r.anchors_checked, 1);
    assert_eq!(r.errors.len(), 0, "{:?}", r.errors);
    assert_eq!(r.violations.len(), 1);
    let v = &r.violations[0];
    assert_eq!(v.rule_id, "apc-needs-terminal");
    assert_eq!(v.severity, "error");
    assert_eq!(v.message, "no terminal by 1,1,1");
    assert_eq!((v.x, v.y, v.z), (1, 1, 1));
    assert_eq!(v.anchor_path, "/obj/machinery/power/apc");
}

#[test]
fn the_context_answers_spatial_questions() {
    let rule = "rule('q', { anchor: '/obj/machinery/power/apc', check(obj, ctx) { return [ \
        ctx.at(2, 1).length, ctx.adjacent(1, 1).length, ctx.nearby(1, 1, 1, 1).length, ctx.areaOf(3, 1), \
        ctx.areaTiles('/area/station/a').length, ctx.objectsInArea('/area/station/b').length, \
        ctx.isType(obj, '/obj/machinery'), ctx.varOf(obj, 'name'), ctx.varOf(obj, 'none', 7), \
        ctx.inferDir({path: '/obj/x/directional/east'}), ctx.dirToDelta(1).dy, ctx.wallBehind(obj) === null, \
        ctx.inferDir({path: '/obj', vars: {}}), ctx.inferDir({path: '/obj/x/west'}) \
        ].join('|'); } });";
    let r = engine().evaluate(&index(), &vec![source("q.js", rule)]).expect("evaluate");
    assert_eq!(r.errors.len(), 0, "{:?}", r.errors);
    assert_eq!(r.violations[0].message, "3|3|3|/area/station/b|2|2|true|it's \"one\"|7|4|1|true|2|8");
    assert_eq!(r.violations[0].severity, "warning");
}

#[test]
fn rules_on_areas_see_each_area() {
    let rule = "rule('areas', { anchor: '/area/station', message: '{area} has few tiles', \
        check(area) { return area.tile_count > 1; } });";
    let r = engine().evaluate(&index(), &vec![source("areas.js", rule)]).expect("evaluate");
    assert_eq!(r.errors.len(), 0, "{:?}", r.errors);
    assert_eq!(r.anchors_checked, 2);
    assert_eq!(r.violations.len(), 1);
    assert_eq!(r.violations[0].message, "/area/station/b has few tiles");
    assert_eq!((r.violations[0].x, r.violations[0].y, r.violations[0].z), (3, 1, 1));
}

#[test]
fn what_goes_wrong_is_reported_and_the_rest_goes_on() {
    let sources = vec![
        RuleSource { path: "rules/a.js".to_string(), name: "a.js".to_string(), text: Err("gone".to_string()) },
        source("b.js", "this is no script"),
        source("c.js", "return 5"),
        source("d.js", "__rules.push(3); rule('no-anchor', { check() {} }); rule('no-check', { anchor: '/obj' })"),
        source("e.js", "rule('throws', { anchor: '/obj/machinery/power/apc', check() { throw 1; } })"),
        source("f.js", "rule('fine', { anchor: '/obj/machinery', check() {} }); rule('none', { anchor: '/mob', check() { return false; } })"),
    ];
    let r = engine().evaluate(&index(), &sources).expect("evaluate");
    assert_eq!(r.errors[0], "Failed to read rules/a.js: gone");
    assert_eq!(r.errors[1], "Error loading b.js: Exception generated by QuickJS");
    assert_eq!(r.errors[2], "c.js: rules did not return an array");
    assert_eq!(r.errors[3], "d.js: rule 0 is not an object");
    assert!(r.errors[4].starts_with("Rule 'no-anchor': missing anchor: "));
    assert!(r.errors[5].starts_with("Rule 'no-check': missing check function: "));
    assert_eq!(r.errors[6], "Rule 'throws' threw at (1,1,1): Exception generated by QuickJS");
    assert_eq!(r.errors.len(), 7);
    assert_eq!(r.rules_evaluated, 3);
    assert_eq!(r.anchors_checked, 3);
    assert_eq!(r.violations.len(), 0);
}

#[test]
fn without_rule_files_the_result_says_so() {
    let r = engine().evaluate(&index(), &Vec::new()).expect("evaluate");
    assert_eq!(r.rules_evaluated, 0);
    assert_eq!(r.errors, vec!["No rule files found".to_string()]);
}

#[test]
fn an_evaluation_asks_step_by_step() {
    let ix = index();
    let mut e = Evaluation::start(vec![RuleFile { path: "p/a.js".to_string(), name: "a.js".to_string() }]);
    assert!(matches!(e.action(), Action::Read(0)));
    e = e.step(&ix, Event::ReadDone("code".to_string()));
    match e.action() {
        Action::Load(script) => assert_eq!(script, wrap_rules("a.js", "code")),
        _ => panic!("expected to load"),
    }
    e = e.step(&ix, Event::Loaded(1));
    assert!(matches!(e.action(), Action::Rule(0)));
    e = e.step(
        &ix,
        Event::RuleFound(RuleFields {
            id: None,
            anchor: Ok("/obj/machinery/power/apc".to_string()),
            severity: None,
            message: None,
            check_error: None,
        }),
    );
    match e.action() {
        Action::Check(script) => assert!(script.starts_with("JSON.parse('")),
        _ => panic!("expected to check"),
    }
    let before = e.result.errors.len();
    e = e.step(&ix, Event::NotArray);
    assert!(matches!(e.action(), Action::Check(_)), "an event out of place changes nothing");
    assert_eq!(e.result.errors.len(), before);
    e = e.step(&ix, Event::Returned(JsResult::Bool(false)));
    assert!(matches!(e.action(), Action::Done));
    assert_eq!(e.result.violations[0].message, "Rule 'a.js-rule-0' failed");
}

#[test]
fn rule_definitions_have_defaults() {
    let fields = |anchor: Result<String, String>, check: Option<String>| RuleFields {
        id: None,
        anchor,
        severity: None,
        message: None,
        check_error: check,
    };
    let d = accept_rule("f.js", 2, fields(Ok("/obj".to_string()), None)).ok().unwrap();
    assert_eq!((d.id.as_str(), d.severity.as_str()), ("f.js-rule-2", "warning"));
    assert_eq!(d.message, "Rule 'f.js-rule-2' failed");
    assert_eq!(
        accept_rule("f.js", 2, fields(Err("why".to_string()), None)).err(),
        Some("Rule 'f.js-rule-2': missing anchor: why".to_string())
    );
    assert_eq!(
        accept_rule("f.js", 2, fields(Ok("/obj".to_string()), Some("how".to_string()))).err(),
        Some("Rule 'f.js-rule-2': missing check function: how".to_string())
    );
}

#[test]
fn check_results_are_read_as_verdicts() {
    assert_eq!(interpret_check_result(&JsResult::Bool(true), "d"), None);
    assert_eq!(interpret_check_result(&JsResult::Bool(false), "d"), Some("d".to_string()));
    assert_eq!(interpret_check_result(&JsResult::Undefined, "d"), None);
    assert_eq!(interpret_check_result(&JsResult::Null, "d"), None);
    assert_eq!(interpret_check_result(&JsResult::Str("why".to_string()), "d"), Some("why".to_string()));
    assert_eq!(interpret_check_result(&JsResult::Str(String::new()), "d"), None);
    assert_eq!(interpret_check_result(&JsResult::Other, "d"), None);
}

#[test]
fn rule_files_are_found_by_extension_in_order() {
    let entry = |name: &str, ext: Option<&str>| DirEntry {
        path: format!("r/{}", name),
        name: name.to_string(),
        extension: ext.map(|e| e.to_string()),
    };
    let found = engine().discover_rule_files(&vec![
        entry("z.js", Some("js")),
        entry("readme.md", Some("md")),
        entry("js", None),
        entry("a.js", Some("js")),
    ]);
    let names: Vec<&str> = found.iter().map(|f| f.name.as_str()).collect();
    assert_eq!(names, vec!["a.js", "z.js"]);
    assert_eq!(found[0].path, "r/a.js");
}

#[test]
fn file_names_are_escaped_in_scripts() {
    let script = wrap_rules("a\"b\\c.js", "code()");
    assert!(script.contains("source_file: \"a\\\"b\\\\c.js\","));
    assert!(script.contains("code();\n"));
}

#[test]
fn json_is_handed_over_as_a_quoted_text() {
    let v = JsonValue::Object(vec![("a'b".to_string(), JsonValue::Str("c\\d".to_string()))]);
    assert_eq!(json_to_js(&v), "JSON.parse('{\"a\\'b\":\"c\\\\\\\\d\"}')");
    assert_eq!(json_to_js(&JsonValue::Null), "JSON.parse('null')");
    let n = JsonValue::Number(JsonNumber { text: "12".to_string(), dm: None });
    assert_eq!(json_to_js(&JsonValue::Array(vec![n, JsonValue::Bool(true)])), "JSON.parse('[12,true]')");
}

#[test]
fn setup_scripts_hold_the_map() {
    let s = install_globals(&index());
    assert!(s.contains("\"3,1,1\":\"/area/station/b\""));
    assert!(s.contains("\"/area/station/a\":[\"1,1,1\",\"2,1,1\"]"));
    assert!(s.contains("/obj/machinery/power/terminal"));
}

#[test]
fn variables_become_json() {
    let mut p = prefab("/obj/a");
    let number = |json: Option<&str>| Constant {
        kind: ConstantKind::Float(DmNumber { bits: 0, shown: "s".to_string(), json: json.map(|j| j.to_string()) }),
        text: String::new(),
        detail: String::new(),
    };
    p.vars.push(("n".to_string(), number(Some("4"))));
    p.vars.push(("bad".to_string(), number(None)));
    p.vars.push(("t".to_string(), text("x")));
    match prefab_vars_to_json(&p) {
        JsonValue::Object(o) => {
            let get = |name: &str| &o.iter().find(|e| e.0 == name).unwrap().1;
            assert!(matches!(get("n"), JsonValue::Number(n) if n.text == "4"));
            assert!(matches!(get("bad"), JsonValue::Null));
            assert!(matches!(get("t"), JsonValue::Str(s) if s == "x"));
        }
        _ => panic!("expected an object"),
    }
}

#[test]
fn areas_are_described_by_their_middle() {
    assert_eq!(area_centre(&[(1, 1, 1), (2, 1, 1)]), (2, 1, 1), "halves are rounded away from zero");
    assert_eq!(area_centre(&[(-1, 0, 3), (-2, 0, 3)]), (-2, 0, 3));
    assert_eq!(area_centre(&[(1, 5, 2), (1, 6, 2), (1, 6, 4)]), (1, 6, 4));
    let shown = json_to_js(&describe_area("/area/a", &[(1, 1, 1), (2, 3, 1)]));
    assert!(shown.contains("\"tile_count\":2"));
    assert!(shown.contains("\"bbox\":{\"x1\":1,\"x2\":2,\"y1\":1,\"y2\":3}"));
    assert!(shown.contains("\"centroid\":{\"x\":2,\"y\":2,\"z\":1}"));
    let ix = index();
    let l = &ix.instances_of("/obj/machinery/power/apc")[0];
    assert!(json_to_js(&describe_instance(l)).contains("\"path\":\"/obj/machinery/power/apc\""));
    let (subjects, count) = find_subjects(&ix, "/area");
    assert_eq!((subjects.len(), count), (2, 2));
}

fn violation(id: &str, severity: &str) -> Violation {
    Violation {
        rule_id: id.to_string(),
        severity: severity.to_string(),
        message: "m".to_string(),
        x: 1,
        y: 2,
        z: 3,
        anchor_path: "/obj/a".to_string(),
    }
}

#[test]
fn reports_group_by_severity() {
    let result = ValidationResult {
        rules_evaluated: 3,
        anchors_checked: 9,
        violations: vec![
            violation("b-1", "warning"),
            violation("a-1", "error"),
            violation("a-2", "error"),
            violation("a-3", "info"),
        ],
        errors: vec!["oops".to_string()],
    };
    let all = validate_rules(&result, &ValidateRulesParams { filter: None, limit: Some(1) });
    assert_eq!(
        all,
        "Validation complete: 3 rules evaluated, 9 anchors checked, 4 violations\n\
         \n1 errors during evaluation:\n  ⚠ oops\n\
         \n❌ 2 errors:\n  (1,2,3) [a-1] /obj/a: m\n  ... and 1 more\n\
         \n⚠️ 1 warnings:\n  ... and 1 more\n\
         \nℹ️ 1 info:\n  ... and 1 more\n"
    );
    let three = validate_rules(&result, &ValidateRulesParams { filter: None, limit: Some(3) });
    assert!(three.ends_with(
        "\n❌ 2 errors:\n  (1,2,3) [a-1] /obj/a: m\n  (1,2,3) [a-2] /obj/a: m\n\
         \n⚠️ 1 warnings:\n  (1,2,3) [b-1] /obj/a: m\n\
         \nℹ️ 1 info:\n  ... and 1 more\n"
    ));
    let none = validate_rules(&result, &ValidateRulesParams { filter: Some("c-".to_string()), limit: None });
    assert!(none.ends_with("0 violations\n\n1 errors during evaluation:\n  ⚠ oops\n\n✅ No violations found.\n"));
    assert_eq!(evaluation_failed_text("e"), "Rule evaluation failed: e");
    assert_eq!(scan_failed_text("e"), "Failed to scan rules directory: e");
    assert!(no_rules_text().starts_with("No rules directory configured."));
}

#[test]
fn rule_files_are_listed_with_their_size() {
    let files = vec![RuleFileSize { name: "a.js".to_string(), bytes: 12 }];
    assert_eq!(list_rules(&files, &ListRulesParams {}), "1 rule files found:\n  a.js (12 bytes)\n");
    assert_eq!(list_rules(&Vec::new(), &ListRulesParams {}), "No .js rule files found in rules directory.");
}

#[test]
fn only_what_a_check_did_is_an_event() {
    let failed = |o: CheckOutcome| event_of_check(o).err();
    assert_eq!(failed(CheckOutcome::NoSubject("e".to_string())), Some("JSON parse error: e".to_string()));
    assert_eq!(failed(CheckOutcome::NoContext("e".to_string())), Some("e".to_string()));
    assert_eq!(failed(CheckOutcome::NoResult("e".to_string())), Some("e".to_string()));
    assert!(matches!(event_of_check(CheckOutcome::Threw("e".to_string())), Ok(Event::Threw(t)) if t == "e"));
    let returned = event_of_check(CheckOutcome::Returned(JsResult::Bool(false)));
    assert!(matches!(returned, Ok(Event::Returned(JsResult::Bool(false)))));
}

#[test]
fn what_loading_came_to_is_an_event() {
    assert!(matches!(event_of_load(LoadOutcome::Failed("e".to_string())), Event::LoadFailed(t) if t == "e"));
    assert!(matches!(event_of_load(LoadOutcome::NoArray), Event::NotArray));
    assert!(matches!(event_of_load(LoadOutcome::Array(3)), Event::Loaded(3)));
}

#[test]
fn a_rule_is_put_together_from_its_members() {
    let member = |name: &str, text: &str| Member { name: name.to_string(), text: Ok(text.to_string()) };
    let members = vec![
        Member { name: "id".to_string(), text: Err("none".to_string()) },
        member("anchor", "/obj/a"),
        member("severity", "error"),
        member("message", "m"),
    ];
    let fields = rule_fields(&members, Some("no check".to_string()));
    assert_eq!(fields.id, None);
    assert_eq!(fields.anchor, Ok("/obj/a".to_string()));
    assert_eq!(fields.severity, Some("error".to_string()));
    assert_eq!(fields.message, Some("m".to_string()));
    assert_eq!(fields.check_error, Some("no check".to_string()));
    assert!(matches!(event_of_rule(RuleOutcome::Failed("e".to_string())), Event::RuleFailed(t) if t == "e"));
    assert!(matches!(event_of_rule(RuleOutcome::NoObject), Event::NotObject));
    let found = event_of_rule(RuleOutcome::Object(rule_fields(&members, None)));
    assert!(matches!(found, Event::RuleFound(f) if f.check_error.is_none() && f.severity == Some("error".to_string())));
}
