//! The tools that a builder scope offers.

use crate::builder::{BuilderScope, BuilderScopeStack, ScopeView};
use crate::json::{array_view, json_views, member_views, object_view, JsonValue, JsonView};
use vstd::prelude::*;

verus! {

/// A tool: its name, what it does, and the JSON schema of its arguments.
pub struct ToolDef {
    pub name: String,
    pub description: String,
    pub schema: JsonValue,
}

/// What a [`ToolDef`] holds.
#[verifier::ext_equal]
pub struct ToolView {
    pub name: Seq<char>,
    pub description: Seq<char>,
    pub schema: JsonView,
}

impl View for ToolDef {
    type V = ToolView;

    open spec fn view(&self) -> ToolView {
        ToolView { name: self.name@, description: self.description@, schema: self.schema@ }
    }
}

/// The views of a list of tools.
pub open spec fn tool_views(v: Seq<ToolDef>) -> Seq<ToolView> {
    v.map_values(|t: ToolDef| t@)
}

// ── Schemas ──────────────────────────────────────────────────────────

/// The schema of a text argument.
pub open spec fn text_property(description: Seq<char>) -> JsonView {
    JsonView::Object(
        seq![("type"@, JsonView::Str("string"@)), ("description"@, JsonView::Str(description))],
    )
}

/// The schema of an argument of any type.
pub open spec fn any_property(description: Seq<char>) -> JsonView {
    JsonView::Object(seq![("description"@, JsonView::Str(description))])
}

/// The schema of arguments, some of which are required.
pub open spec fn schema(properties: Seq<(Seq<char>, JsonView)>, required: Seq<JsonView>) -> JsonView {
    let base = seq![("type"@, JsonView::Str("object"@)), ("properties"@, JsonView::Object(properties))];
    if required.len() == 0 {
        JsonView::Object(base)
    } else {
        JsonView::Object(base.push(("required"@, JsonView::Array(required))))
    }
}

fn text(s: &str) -> (r: JsonValue)
    ensures
        r@ == JsonView::Str(s@),
{
    JsonValue::Str(s.to_string())
}

fn make_text_property(description: &str) -> (r: JsonValue)
    ensures
        r@ == text_property(description@),
{
    broadcast use object_view;

    let kind = text("string");
    let about = text(description);
    let members: Vec<(String, JsonValue)> = vec![("type".to_string(), kind), ("description".to_string(), about)];
    assert(member_views(members@) =~= seq![
        ("type"@, JsonView::Str("string"@)),
        ("description"@, JsonView::Str(description@)),
    ]);
    JsonValue::Object(members)
}

fn make_any_property(description: &str) -> (r: JsonValue)
    ensures
        r@ == any_property(description@),
{
    broadcast use object_view;

    let about = text(description);
    let members: Vec<(String, JsonValue)> = vec![("description".to_string(), about)];
    assert(member_views(members@) =~= seq![("description"@, JsonView::Str(description@))]);
    JsonValue::Object(members)
}

fn make_schema(properties: Vec<(String, JsonValue)>, required: Vec<JsonValue>) -> (r: JsonValue)
    ensures
        r@ == schema(member_views(properties@), json_views(required@)),
{
    broadcast use {array_view, object_view};

    let kind = text("object");
    let ghost pv = member_views(properties@);
    let ghost rv = json_views(required@);
    let inner = JsonValue::Object(properties);
    let mut members: Vec<(String, JsonValue)> = vec![("type".to_string(), kind), ("properties".to_string(), inner)];
    let ghost base = seq![("type"@, JsonView::Str("object"@)), ("properties"@, JsonView::Object(pv))];
    assert(member_views(members@) =~= base);
    if required.len() > 0 {
        let list = JsonValue::Array(required);
        let ghost before = members@;
        members.push(("required".to_string(), list));
        assert(member_views(members@) =~= base.push(("required"@, JsonView::Array(rv))));
    }
    JsonValue::Object(members)
}

fn no_arguments() -> (r: JsonValue)
    ensures
        r@ == schema(Seq::empty(), Seq::empty()),
{
    let properties: Vec<(String, JsonValue)> = Vec::new();
    let required: Vec<JsonValue> = Vec::new();
    assert(member_views(properties@) =~= Seq::empty());
    assert(json_views(required@) =~= Seq::empty());
    make_schema(properties, required)
}

// ── The tools ────────────────────────────────────────────────────────

/// The tool that starts a builder.
pub open spec fn init_tool() -> ToolView {
    ToolView {
        name: "builder_init"@,
        description: "Start assembling a new prefab. REPLACES the entire tool surface with builder tools. Use list_vars, set_var, validate, commit to build incrementally."@,
        schema: schema(
            seq![
                (
                    "type_path"@,
                    text_property("DM type path to build (e.g. \"/obj/machinery/door/airlock/engineering\")"@),
                ),
            ],
            seq![JsonView::Str("type_path"@)],
        ),
    }
}

/// Makes the tool that starts a builder.
pub fn builder_init_tool() -> (r: ToolDef)
    ensures
        r@ == init_tool(),
{
    let p = make_text_property("DM type path to build (e.g. \"/obj/machinery/door/airlock/engineering\")");
    let properties: Vec<(String, JsonValue)> = vec![("type_path".to_string(), p)];
    let required: Vec<JsonValue> = vec![text("type_path")];
    assert(member_views(properties@) =~= seq![("type_path"@, p@)]);
    assert(json_views(required@) =~= seq![JsonView::Str("type_path"@)]);
    ToolDef {
        name: "builder_init".to_string(),
        description: "Start assembling a new prefab. REPLACES the entire tool surface with builder tools. Use list_vars, set_var, validate, commit to build incrementally.".to_string(),
        schema: make_schema(properties, required),
    }
}

/// The tools of a scope.
pub open spec fn scope_tools(scope: ScopeView) -> Seq<ToolView> {
    seq![
        ToolView {
            name: "list_vars"@,
            description: "List available properties on "@ + scope.type_path + " with their types and defaults. Scope: "@
                + scope.breadcrumb,
            schema: schema(
                seq![("filter"@, text_property("Optional substring filter for var names"@))],
                Seq::empty(),
            ),
        },
        ToolView {
            name: "var_info"@,
            description: "Get detailed info on a specific variable of "@ + scope.type_path
                + ". Shows type, default, valid values."@,
            schema: schema(
                seq![("name"@, text_property("Variable name to inspect"@))],
                seq![JsonView::Str("name"@)],
            ),
        },
        ToolView {
            name: "set_var"@,
            description: "Set a variable on the "@ + scope.type_path + " being built. Validates against the objtree."@,
            schema: schema(
                seq![
                    ("name"@, text_property("Variable name to set"@)),
                    ("value"@, any_property("Value to set (string, number, null, or path)"@)),
                ],
                seq![JsonView::Str("name"@), JsonView::Str("value"@)],
            ),
        },
        ToolView {
            name: "edit"@,
            description: "Push a sub-scope to edit a datum-typed property. REPLACES the tool surface with that datum's tools. Use commit() to return."@,
            schema: schema(
                seq![
                    ("var_name"@, text_property("Name of the datum-typed variable to edit"@)),
                    (
                        "type_path"@,
                        text_property("Type path for the sub-datum (required if var has no default type)"@),
                    ),
                ],
                seq![JsonView::Str("var_name"@)],
            ),
        },
        ToolView {
            name: "validate"@,
            description: "Check if the "@ + scope.type_path
                + " prefab is ready. Reports missing required vars and current state."@,
            schema: schema(Seq::empty(), Seq::empty()),
        },
        ToolView {
            name: "commit"@,
            description: "Finalize this scope and return to the parent. If root scope, produces the final prefab."@,
            schema: schema(Seq::empty(), Seq::empty()),
        },
        ToolView {
            name: "discard"@,
            description: "Discard this scope's changes and return to the parent without saving."@,
            schema: schema(Seq::empty(), Seq::empty()),
        },
        ToolView {
            name: "where_am_i"@,
            description: "Show the current scope path (breadcrumb) and what vars have been set."@,
            schema: schema(Seq::empty(), Seq::empty()),
        },
    ]
}

fn list_vars_tool(scope: &BuilderScope) -> (r: ToolDef)
    ensures
        r@ == scope_tools(scope@)[0],
{
    let mut description = "List available properties on ".to_string();
    description.append(scope.type_path.as_str());
    description.append(" with their types and defaults. Scope: ");
    description.append(scope.breadcrumb.as_str());
    let p = make_text_property("Optional substring filter for var names");
    let properties: Vec<(String, JsonValue)> = vec![("filter".to_string(), p)];
    let required: Vec<JsonValue> = Vec::new();
    assert(member_views(properties@) =~= seq![("filter"@, p@)]);
    assert(json_views(required@) =~= Seq::empty());
    ToolDef { name: "list_vars".to_string(), description, schema: make_schema(properties, required) }
}

fn var_info_tool(scope: &BuilderScope) -> (r: ToolDef)
    ensures
        r@ == scope_tools(scope@)[1],
{
    let mut description = "Get detailed info on a specific variable of ".to_string();
    description.append(scope.type_path.as_str());
    description.append(". Shows type, default, valid values.");
    let p = make_text_property("Variable name to inspect");
    let properties: Vec<(String, JsonValue)> = vec![("name".to_string(), p)];
    let required: Vec<JsonValue> = vec![text("name")];
    assert(member_views(properties@) =~= seq![("name"@, p@)]);
    assert(json_views(required@) =~= seq![JsonView::Str("name"@)]);
    ToolDef { name: "var_info".to_string(), description, schema: make_schema(properties, required) }
}

fn set_var_tool(scope: &BuilderScope) -> (r: ToolDef)
    ensures
        r@ == scope_tools(scope@)[2],
{
    let mut description = "Set a variable on the ".to_string();
    description.append(scope.type_path.as_str());
    description.append(" being built. Validates against the objtree.");
    let p = make_text_property("Variable name to set");
    let q = make_any_property("Value to set (string, number, null, or path)");
    let properties: Vec<(String, JsonValue)> = vec![("name".to_string(), p), ("value".to_string(), q)];
    let required: Vec<JsonValue> = vec![text("name"), text("value")];
    assert(member_views(properties@) =~= seq![("name"@, p@), ("value"@, q@)]);
    assert(json_views(required@) =~= seq![JsonView::Str("name"@), JsonView::Str("value"@)]);
    ToolDef { name: "set_var".to_string(), description, schema: make_schema(properties, required) }
}

fn edit_tool(scope: &BuilderScope) -> (r: ToolDef)
    ensures
        r@ == scope_tools(scope@)[3],
{
    let p = make_text_property("Name of the datum-typed variable to edit");
    let q = make_text_property("Type path for the sub-datum (required if var has no default type)");
    let properties: Vec<(String, JsonValue)> = vec![("var_name".to_string(), p), ("type_path".to_string(), q)];
    let required: Vec<JsonValue> = vec![text("var_name")];
    assert(member_views(properties@) =~= seq![("var_name"@, p@), ("type_path"@, q@)]);
    assert(json_views(required@) =~= seq![JsonView::Str("var_name"@)]);
    ToolDef {
        name: "edit".to_string(),
        description: "Push a sub-scope to edit a datum-typed property. REPLACES the tool surface with that datum's tools. Use commit() to return.".to_string(),
        schema: make_schema(properties, required),
    }
}

fn validate_tool(scope: &BuilderScope) -> (r: ToolDef)
    ensures
        r@ == scope_tools(scope@)[4],
{
    let mut description = "Check if the ".to_string();
    description.append(scope.type_path.as_str());
    description.append(" prefab is ready. Reports missing required vars and current state.");
    ToolDef { name: "validate".to_string(), description, schema: no_arguments() }
}

fn plain_tool(name: &str, description: &str) -> (r: ToolDef)
    ensures
        r@ == (ToolView { name: name@, description: description@, schema: schema(Seq::empty(), Seq::empty()) }),
{
    ToolDef { name: name.to_string(), description: description.to_string(), schema: no_arguments() }
}

impl BuilderScope {
    /// The tools that replace all others while this scope is current.
    pub fn tools(&self) -> (r: Vec<ToolDef>)
        ensures
            tool_views(r@) == scope_tools(self@),
    {
        let tools: Vec<ToolDef> = vec![
            list_vars_tool(self),
            var_info_tool(self),
            set_var_tool(self),
            edit_tool(self),
            validate_tool(self),
            plain_tool("commit", "Finalize this scope and return to the parent. If root scope, produces the final prefab."),
            plain_tool("discard", "Discard this scope's changes and return to the parent without saving."),
            plain_tool("where_am_i", "Show the current scope path (breadcrumb) and what vars have been set."),
        ];
        assert(tool_views(tools@) =~= scope_tools(self@));
        tools
    }
}

// ── Which tools are served ───────────────────────────────────────────

/// Who answers a call.
#[derive(Clone, Copy, PartialEq, Eq, Structural)]
pub enum Route {
    /// The builder.
    Builder,
    /// The tools that are always there.
    Base,
}

/// Who answers a call: the builder while one is at work, and for the call that starts one.
pub open spec fn answered_by(depth: nat, tool_name: Seq<char>) -> Route {
    if depth > 0 || tool_name == "builder_init"@ {
        Route::Builder
    } else {
        Route::Base
    }
}

/// The tools that are offered: those of the innermost scope while a builder is at work, or else
/// the base tools and the one that starts a builder.
pub open spec fn offered(scopes: Seq<ScopeView>, base: Seq<ToolView>) -> Seq<ToolView> {
    if scopes.len() > 0 {
        scope_tools(scopes.last())
    } else {
        base.push(init_tool())
    }
}

/// Routes a call.
pub fn route(stack: &BuilderScopeStack, tool_name: &str) -> (r: Route)
    ensures
        r == answered_by(stack@.len(), tool_name@),
{
    if stack.is_active() || crate::text::same_text(tool_name, "builder_init") {
        Route::Builder
    } else {
        Route::Base
    }
}

/// Lists the tools that are offered.
pub fn list_tools(stack: &BuilderScopeStack, base: Vec<ToolDef>) -> (r: Vec<ToolDef>)
    requires
        stack.wf(),
    ensures
        tool_views(r@) == offered(stack@, tool_views(base@)),
{
    match stack.current() {
        Some(scope) => scope.tools(),
        None => {
            let mut tools = base;
            let ghost before = tool_views(tools@);
            let init = builder_init_tool();
            let ghost iv = init@;
            tools.push(init);
            assert(tool_views(tools@) =~= before.push(iv));
            tools
        },
    }
}

/// While a builder is at work its tools replace all others: what is offered does not depend on
/// the base tools, and every call goes to the builder.
pub proof fn a_builder_replaces_all_tools(
    scopes: Seq<ScopeView>,
    base: Seq<ToolView>,
    other: Seq<ToolView>,
    tool_name: Seq<char>,
)
    requires
        scopes.len() > 0,
    ensures
        offered(scopes, base) == offered(scopes, other),
        answered_by(scopes.len(), tool_name) == Route::Builder,
{
}

} // verus!
