//! The prefab builder: its scopes, its replies and its tools.

use ss13_map_mcp::builder::{handle_builder_call, BuilderScopeStack};
use ss13_map_mcp::builder_tools::{builder_init_tool, list_tools, route, Route, ToolDef};
use ss13_map_mcp::display::{compute_overrides, format_constant, infer_type_from_constant, json_to_dm_value, short_name, truncate};
use ss13_map_mcp::json::{JsonNumber, JsonValue};
use ss13_map_mcp::names::NameTable;
use ss13_map_mcp::objtree::{ObjectTree, TypeNode, TypeVar};
use ss13_map_mcp::prefab::{Constant, ConstantKind, DmNumber};

fn text(s: &str) -> Constant {
    Constant { kind: ConstantKind::Str(s.to_string()), text: format!("\"{}\"", s), detail: String::new() }
}

fn number(n: i32) -> Constant {
    Constant {
        kind: ConstantKind::Float(DmNumber { bits: (n as f32).to_bits(), shown: n.to_string(), json: Some(n.to_string()) }),
        text: n.to_string(),
        detail: String::new(),
    }
}

fn node(path: &str, parent: Option<usize>, level: usize, children: Vec<(&str, usize)>, vars: Vec<TypeVar>) -> TypeNode {
    TypeNode {
        path: path.to_string(),
        parent,
        level,
        children: children.into_iter().map(|c| (c.0.to_string(), c.1)).collect(),
        vars,
        procs: Vec::new(),
    }
}

fn var(name: &str, constant: Option<Constant>, declared: Option<Vec<&str>>) -> TypeVar {
    TypeVar {
        name: name.to_string(),
        constant,
        declared: declared.map(|d| d.into_iter().map(|s| s.to_string()).collect()),
    }
}

/// `/obj` with a name and a tag; `/obj/door` with a lock, which is an `/obj/lock`.
fn tree() -> ObjectTree {
    ObjectTree {
        types: vec![
            node("", None, 0, vec![("obj", 1)], Vec::new()),
            node(
                "/obj",
                Some(0),
                1,
                vec![("door", 2), ("lock", 3)],
                vec![
                    var("name", Some(text("thing")), Some(vec![])),
                    var("tag", None, Some(vec![])),
                    var("layer", Some(number(3)), Some(vec![])),
                ],
            ),
            node(
                "/obj/door",
                Some(1),
                2,
                Vec::new(),
                vec![
                    var("name", Some(text("door")), None),
                    var("lock", None, Some(vec!["obj", "lock"])),
                    var("lost", None, Some(vec!["obj", "nowhere"])),
                ],
            ),
            node("/obj/lock", Some(1), 2, Vec::new(), vec![var("strength", Some(number(5)), Some(vec![]))]),
        ],
    }
}

fn args(list: Vec<(&str, &str)>) -> Vec<(String, JsonValue)> {
    list.into_iter().map(|a| (a.0.to_string(), JsonValue::Str(a.1.to_string()))).collect()
}

fn call(stack: &mut BuilderScopeStack, tool: &str, list: Vec<(&str, &str)>) -> Result<String, String> {
    let depth = stack.depth();
    let r = handle_builder_call(&tree(), stack, tool, &args(list));
    if let Ok(response) = &r {
        assert_eq!(response.scope_changed, stack.depth() != depth, "the scope is said to change when it does");
    } else if tool != "commit" {
        assert_eq!(stack.depth(), depth, "a refused call changes nothing");
    }
    r.map(|response| response.text)
}

#[test]
fn a_builder_starts_on_a_known_type() {
    let mut s = BuilderScopeStack::new();
    assert!(!s.is_active());
    assert_eq!(call(&mut s, "builder_init", vec![]), Err("Missing required parameter: type_path".to_string()));
    assert_eq!(
        call(&mut s, "builder_init", vec![("type_path", "/obj/chair")]),
        Err("Type '/obj/chair' not found in the object tree".to_string())
    );
    assert_eq!(
        call(&mut s, "builder_init", vec![("type_path", "/obj/door")]),
        Ok("Builder initialized for: /obj/door\n4 settable variables available.\n\n\
            Tool surface has been REPLACED with builder tools.\n\
            Use `list_vars` to see available properties, `set_var` to set them.\n\
            Use `commit()` when done, `discard()` to cancel."
            .to_string())
    );
    assert_eq!(s.depth(), 1);
    assert_eq!(
        call(&mut s, "builder_init", vec![("type_path", "/obj/door")]),
        Err("Builder already active. Use commit() or discard() to finish the current scope first.".to_string())
    );
    assert_eq!(call(&mut s, "paint", vec![]), Err("Unknown builder tool: paint".to_string()));
}

#[test]
fn without_a_builder_there_is_no_scope() {
    let mut s = BuilderScopeStack::new();
    for tool in ["list_vars", "var_info", "set_var", "validate", "where_am_i"] {
        assert_eq!(call(&mut s, tool, vec![]), Err("No active builder scope".to_string()));
    }
    assert_eq!(call(&mut s, "edit", vec![]), Err("Missing required parameter: var_name".to_string()));
    assert_eq!(call(&mut s, "commit", vec![]), Err("No active builder scope to commit".to_string()));
    assert_eq!(call(&mut s, "discard", vec![]), Err("No active builder scope to discard".to_string()));
}

#[test]
fn variables_are_listed_with_their_defaults() {
    let mut s = BuilderScopeStack::new();
    call(&mut s, "builder_init", vec![("type_path", "/obj/door")]).expect("init");
    call(&mut s, "set_var", vec![("name", "name"), ("value", "gate")]).expect("set");
    assert_eq!(
        call(&mut s, "list_vars", vec![]),
        Ok("Variables for /obj/door:\n\n  layer = 3 (from obj)\n  lock = null\n  lost = null\n  name ✓ = \"door\"\n\n\
            4 variables, 1 set"
            .to_string())
    );
    assert_eq!(
        call(&mut s, "list_vars", vec![("filter", "LO")]),
        Ok("Variables for /obj/door:\n\n  lock = null\n  lost = null\n\n2 variables (filtered), 1 set".to_string())
    );
}

#[test]
fn variables_are_shown_in_detail() {
    let mut s = BuilderScopeStack::new();
    call(&mut s, "builder_init", vec![("type_path", "/obj/door")]).expect("init");
    assert_eq!(call(&mut s, "var_info", vec![]), Err("Missing required parameter: name".to_string()));
    assert_eq!(
        call(&mut s, "var_info", vec![("name", "layer")]),
        Ok("Variable: door.layer\n\nDefault: 3\nType: number (default: 3)\n".to_string())
    );
    assert_eq!(
        call(&mut s, "var_info", vec![("name", "lock")]),
        Ok("Variable: door.lock\n\nDefault: null\nType: /obj/lock\n\n\
            This is a datum-typed variable. Use `edit(var_name)` to configure it as a sub-assembly.\n"
            .to_string())
    );
}

#[test]
fn variables_are_set_only_where_declared() {
    let mut s = BuilderScopeStack::new();
    call(&mut s, "builder_init", vec![("type_path", "/obj/door")]).expect("init");
    assert_eq!(
        call(&mut s, "set_var", vec![("name", "colour"), ("value", "red")]),
        Err("Variable 'colour' is not declared on /obj/door or any parent type.\n\
             Use `list_vars` to see available variables."
            .to_string())
    );
    assert_eq!(
        call(&mut s, "set_var", vec![("name", "name")]),
        Err("Missing required parameter: value".to_string())
    );
    assert_eq!(
        call(&mut s, "set_var", vec![("name", "name"), ("value", "gate")]),
        Ok("Set door.name = \"gate\"\nDefault: \"door\"\n\n1 variables set in this scope.".to_string())
    );
    assert_eq!(
        call(&mut s, "set_var", vec![("name", "name"), ("value", "arch")]),
        Ok("Set door.name = \"arch\"\nPrevious: \"gate\"\nDefault: \"door\"\n\n1 variables set in this scope.".to_string())
    );
}

#[test]
fn committing_gives_the_prefab() {
    let mut s = BuilderScopeStack::new();
    call(&mut s, "builder_init", vec![("type_path", "/obj/door")]).expect("init");
    call(&mut s, "set_var", vec![("name", "name"), ("value", "door")]).expect("set");
    assert_eq!(
        call(&mut s, "validate", vec![]),
        Ok("Validation for /obj/door (scope: door)\n\nSet variables:\n  name = \"door\" (same as default — will be omitted)\n\n\
            Prefab preview: /obj/door\n\nReady to commit. Use `commit()` to finalize or continue editing."
            .to_string())
    );
    call(&mut s, "edit", vec![("var_name", "lock")]).expect("edit");
    assert_eq!(
        call(&mut s, "where_am_i", vec![]),
        Ok("Current scope: door > lock\nType: /obj/lock\nDepth: 2\nNo variables set yet.\n".to_string())
    );
    call(&mut s, "set_var", vec![("name", "name"), ("value", "bolt")]).expect("set");
    assert_eq!(
        call(&mut s, "commit", vec![]),
        Ok("Sub-datum 'lock' committed with 1 overrides.\nReturned to scope: door".to_string())
    );
    assert_eq!(
        call(&mut s, "commit", vec![]),
        Ok("Prefab committed:\n  /obj/door{lock = /obj/lock{name = \"bolt\"}}\n\n\
            Tool surface restored to base map tools."
            .to_string())
    );
    assert!(!s.is_active());
}

#[test]
fn editing_finds_the_type_of_the_variable() {
    let mut s = BuilderScopeStack::new();
    call(&mut s, "builder_init", vec![("type_path", "/obj/door")]).expect("init");
    assert_eq!(
        call(&mut s, "edit", vec![("var_name", "lock")]),
        Ok("Editing sub-datum: /obj/lock (for var 'lock')\nScope: door > lock\n3 settable variables available.\n\n\
            Tool surface REPLACED with lock's tools.\nUse `commit()` to return to parent, `discard()` to cancel."
            .to_string())
    );
    assert_eq!(
        call(&mut s, "discard", vec![]),
        Ok("Discarded sub-datum for 'lock'.\nReturned to scope: door".to_string())
    );
    assert_eq!(
        call(&mut s, "edit", vec![("var_name", "lost")]),
        Err("Inferred type '/obj/nowhere' not found".to_string())
    );
    assert_eq!(
        call(&mut s, "edit", vec![("var_name", "name")]),
        Err("Cannot infer datum type for 'name'. Provide type_path explicitly.\n\
             Example: edit(var_name=\"name\", type_path=\"/obj/item/...\")"
            .to_string())
    );
    assert_eq!(
        call(&mut s, "edit", vec![("var_name", "name"), ("type_path", "/obj/x")]),
        Err("Type '/obj/x' not found in the object tree".to_string())
    );
    assert!(call(&mut s, "edit", vec![("var_name", "name"), ("type_path", "/obj/lock")]).is_ok());
    assert_eq!(s.depth(), 2);
}

#[test]
fn discarding_undoes_what_was_begun() {
    let mut s = BuilderScopeStack::new();
    call(&mut s, "builder_init", vec![("type_path", "/obj/door")]).expect("init");
    assert_eq!(
        call(&mut s, "discard", vec![]),
        Ok("Discarded /obj/door builder.\nTool surface restored to base map tools.".to_string())
    );
    assert_eq!(s.depth(), 0);
}

#[test]
fn a_builder_replaces_the_tools() {
    let base = || {
        vec![ToolDef { name: "query_tile".to_string(), description: String::new(), schema: JsonValue::Null }]
    };
    let names = |tools: Vec<ToolDef>| tools.into_iter().map(|t| t.name).collect::<Vec<String>>();
    let mut s = BuilderScopeStack::new();
    assert_eq!(names(list_tools(&s, base())), vec!["query_tile".to_string(), "builder_init".to_string()]);
    assert!(route(&s, "query_tile") == Route::Base);
    assert!(route(&s, "builder_init") == Route::Builder);
    call(&mut s, "builder_init", vec![("type_path", "/obj/door")]).expect("init");
    let offered = names(list_tools(&s, base()));
    assert!(!offered.contains(&"query_tile".to_string()));
    for tool in ["list_vars", "var_info", "set_var", "edit", "validate", "commit", "discard", "where_am_i"] {
        assert!(offered.contains(&tool.to_string()), "{} is missing", tool);
    }
    assert!(route(&s, "query_tile") == Route::Builder);
    assert_eq!(builder_init_tool().name, "builder_init");
}

#[test]
fn values_are_written_as_the_map_has_them() {
    let n = JsonValue::Number(JsonNumber { text: "2.5".to_string(), dm: None });
    assert_eq!(json_to_dm_value(&JsonValue::Str("a\"b".to_string())), "\"a\\\"b\"");
    assert_eq!(json_to_dm_value(&n), "2.5");
    assert_eq!(json_to_dm_value(&JsonValue::Bool(true)), "1");
    assert_eq!(json_to_dm_value(&JsonValue::Bool(false)), "0");
    assert_eq!(json_to_dm_value(&JsonValue::Null), "null");
    assert_eq!(json_to_dm_value(&JsonValue::Array(vec![JsonValue::Null, n])), "list(null, 2.5)");
    let plain = JsonValue::Object(vec![("a".to_string(), JsonValue::Bool(true))]);
    assert_eq!(json_to_dm_value(&plain), "{\"a\":true}");
    let bare = JsonValue::Object(vec![("_type".to_string(), JsonValue::Str("/obj/x".to_string()))]);
    assert_eq!(json_to_dm_value(&bare), "/obj/x");
}

#[test]
fn constants_are_shown_short() {
    assert_eq!(format_constant(&text("é")), "\"é\"");
    let long = "x".repeat(70);
    assert_eq!(format_constant(&text(&long)), format!("\"{}\"", "x".repeat(60)));
    assert_eq!(infer_type_from_constant(Some(&text(&long))), format!("string (default: \"{}\")", "x".repeat(40)));
    assert_eq!(infer_type_from_constant(None), "unknown");
    assert_eq!(infer_type_from_constant(Some(&number(7))), "number (default: 7)");
    let path = Constant {
        kind: ConstantKind::Prefab(vec!["obj".to_string(), "door".to_string()]),
        text: String::new(),
        detail: String::new(),
    };
    assert_eq!(format_constant(&path), "/obj/door");
    assert_eq!(infer_type_from_constant(Some(&path)), "prefab (default: /obj/door)");
    let null = Constant { kind: ConstantKind::Null, text: String::new(), detail: String::new() };
    assert_eq!(format_constant(&null), "null");
    assert_eq!(infer_type_from_constant(Some(&null)), "null");
    let other = Constant { kind: ConstantKind::Other, text: String::new(), detail: "List([])".to_string() };
    assert_eq!(format_constant(&other), "List([])");
    assert_eq!(infer_type_from_constant(Some(&other)), "complex");
    assert_eq!(short_name("/obj/door"), "door");
    assert_eq!(short_name("door"), "door");
    assert_eq!(truncate("héllo", 3), "hé");
    assert_eq!(truncate("abc", 5), "abc");
}

#[test]
fn types_are_found_by_their_path() {
    let t = tree();
    assert_eq!(t.find_type("/obj/door"), Some(2));
    assert_eq!(t.find_type("obj//door/"), Some(2));
    assert_eq!(t.find_type("/"), None);
    assert_eq!(t.find_type("/obj/door/x"), None);
    assert!(t.type_hierarchy_has_var(2, "layer"));
    assert!(!t.type_hierarchy_has_var(1, "lock"));
    assert_eq!(t.count_settable_vars(1), 2, "the tag is not settable");
    assert_eq!(t.resolve_var_string(3, "name"), Some("thing".to_string()));
    assert_eq!(t.resolve_var_string(2, "name"), Some("door".to_string()));
    assert_eq!(t.resolve_var_string(2, "layer"), None);
}

#[test]
fn only_what_differs_from_the_whole_default_is_an_override() {
    let long = "a".repeat(61);
    let tree = ObjectTree {
        types: vec![node("", None, 0, Vec::new(), vec![var("desc", Some(text(&long)), None)])],
    };
    let mut vars: NameTable<JsonValue> = NameTable::new();
    vars.insert("desc".to_string(), JsonValue::Str(long.clone()));
    assert_eq!(compute_overrides(&tree, 0, &vars), Vec::new());
    vars.insert("desc".to_string(), JsonValue::Str("a".repeat(60)));
    assert_eq!(compute_overrides(&tree, 0, &vars).len(), 1);
}
