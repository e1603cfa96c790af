//! What holds of the scripts and of what the engine is asked: rules see the whole map, and are read
//! by the names of their members.

use crate::builder::ScopeView;
use crate::builder_tools::{answered_by, init_tool, offered, scope_tools, Route, ToolView};
use crate::engine::{check_told, member_told, members_told, needed_told, CheckLog, MembersLog, TextReport};
use crate::evaluate::{EventView, FieldsView};
use crate::index::SpatialIndex;
use crate::js::{Kept, KeptFunction};
use crate::json::{json_text, member, JsonView};
use crate::prefab::{ConstantKindView, ConstantView, PrefabView};
use crate::rules::{constant_json, vars_json};
use crate::scripts::{
    area_table, entry_of_tile, level_entries, object_json, objects_json, row_entries, setup_script, table_entries,
    tile_table, SETUP_AREAS, SETUP_HEAD, SETUP_TAIL, SETUP_TILE_AREAS,
};
use crate::tables::Cell;
use crate::text::dec;
use vstd::prelude::*;

verus! {

// ── Objects ──────────────────────────────────────────────────────────

/// A constant as rules see it: null as null, a string and a file as their text, a number as that
/// number where JSON has it, and the rest in full detail.
pub proof fn rules_see_constants_by_kind(c: ConstantView)
    ensures
        match c.kind {
            ConstantKindView::Null => constant_json(c) == JsonView::Null,
            ConstantKindView::Str(s) => constant_json(c) == JsonView::Str(s),
            ConstantKindView::Resource(s) => constant_json(c) == JsonView::Str(s),
            ConstantKindView::Float(n) => match n.json {
                Some(t) => constant_json(c) is Number && constant_json(c)->Number_0.text == t,
                None => constant_json(c) == JsonView::Null,
            },
            _ => constant_json(c) == JsonView::Str(c.detail),
        },
{
}

/// The variables of a prefab as rules see them: each under its own name, in order.
pub proof fn rules_see_variables_by_name(p: PrefabView, i: int)
    requires
        0 <= i < p.vars.len(),
    ensures
        vars_json(p) is Object,
        vars_json(p)->Object_0.len() == p.vars.len(),
        vars_json(p)->Object_0[i].0 == p.vars[i].0,
        vars_json(p)->Object_0[i].1 == constant_json(p.vars[i].1),
{
}

/// The objects of a tile as rules see them: all of them, in order, each with its path and its
/// variables.
pub proof fn rules_see_every_object(list: Seq<PrefabView>, i: int)
    requires
        0 <= i < list.len(),
    ensures
        objects_json(list) is Array,
        objects_json(list)->Array_0.len() == list.len(),
        objects_json(list)->Array_0[i] is Object,
        member(objects_json(list)->Array_0[i]->Object_0, "path"@) == Some(JsonView::Str(list[i].path)),
        member(objects_json(list)->Array_0[i]->Object_0, "vars"@) == Some(vars_json(list[i])),
{
    reveal_strlit("path");
    reveal_strlit("vars");
    assert("path"@[0] == 'p' && "vars"@[0] == 'v');
    let o = object_json(list[i])->Object_0;
    reveal_with_fuel(member, 3);
    assert(o.skip(1)[0] == o[1]);
}

// ── Tables ───────────────────────────────────────────────────────────

proof fn lemma_added<T>(a: Seq<T>, b: Seq<T>, x: T)
    ensures
        (a + b).contains(x) <==> a.contains(x) || b.contains(x),
{
    if a.contains(x) {
        let i = choose|i: int| 0 <= i < a.len() && a[i] == x;
        assert((a + b)[i] == x);
    }
    if b.contains(x) {
        let i = choose|i: int| 0 <= i < b.len() && b[i] == x;
        assert((a + b)[a.len() + i] == x);
    }
    if (a + b).contains(x) {
        let i = choose|i: int| 0 <= i < (a + b).len() && (a + b)[i] == x;
        if i < a.len() {
            assert(a[i] == x);
        } else {
            assert(b[i - a.len()] == x);
        }
    }
}

/// Whether a table holds an entry for one of its tiles.
spec fn held_at(index: &SpatialIndex, areas: bool, x: int, y: int, z: int, e: (Seq<char>, JsonView)) -> bool {
    entry_of_tile(index, areas, (x as i32, y as i32, z as i32)).contains(e)
}

proof fn lemma_row(index: &SpatialIndex, areas: bool, z: int, y: int, n: nat, e: (Seq<char>, JsonView))
    ensures
        row_entries(index, areas, z, y, n).contains(e) <==> exists|x: int|
            1 <= x <= n && #[trigger] held_at(index, areas, x, y, z, e),
    decreases n,
{
    if n > 0 {
        lemma_row(index, areas, z, y, (n - 1) as nat, e);
        let before = row_entries(index, areas, z, y, (n - 1) as nat);
        let more = entry_of_tile(index, areas, (n as i32, y as i32, z as i32));
        lemma_added(before, more, e);
        assert(held_at(index, areas, n as int, y, z, e) == more.contains(e));
        if before.contains(e) {
            let x = choose|x: int| 1 <= x <= n - 1 && #[trigger] held_at(index, areas, x, y, z, e);
            assert(held_at(index, areas, x, y, z, e));
        }
    }
}

proof fn lemma_level(index: &SpatialIndex, areas: bool, z: int, n: nat, e: (Seq<char>, JsonView))
    ensures
        level_entries(index, areas, z, n).contains(e) <==> exists|x: int, y: int|
            1 <= x <= index.dims().2 && 1 <= y <= n && #[trigger] held_at(index, areas, x, y, z, e),
    decreases n,
{
    if n > 0 {
        let before = level_entries(index, areas, z, (n - 1) as nat);
        let more = row_entries(index, areas, z, n as int, index.dims().2 as nat);
        lemma_level(index, areas, z, (n - 1) as nat, e);
        lemma_row(index, areas, z, n as int, index.dims().2 as nat, e);
        lemma_added(before, more, e);
        if before.contains(e) {
            let (x, y) = choose|x: int, y: int|
                1 <= x <= index.dims().2 && 1 <= y <= n - 1 && #[trigger] held_at(index, areas, x, y, z, e);
            assert(held_at(index, areas, x, y, z, e));
        }
        if more.contains(e) {
            let x = choose|x: int| 1 <= x <= index.dims().2 && #[trigger] held_at(index, areas, x, n as int, z, e);
            assert(held_at(index, areas, x, n as int, z, e));
        }
    }
}

proof fn lemma_table(index: &SpatialIndex, areas: bool, n: nat, e: (Seq<char>, JsonView))
    ensures
        table_entries(index, areas, n).contains(e) <==> exists|x: int, y: int, z: int|
            1 <= x <= index.dims().2 && 1 <= y <= index.dims().1 && 1 <= z <= n && #[trigger] held_at(index, areas, x, y, z, e),
    decreases n,
{
    if n > 0 {
        let before = table_entries(index, areas, (n - 1) as nat);
        let more = level_entries(index, areas, n as int, index.dims().1 as nat);
        lemma_table(index, areas, (n - 1) as nat, e);
        lemma_level(index, areas, n as int, index.dims().1 as nat, e);
        lemma_added(before, more, e);
        if before.contains(e) {
            let (x, y, z) = choose|x: int, y: int, z: int|
                1 <= x <= index.dims().2 && 1 <= y <= index.dims().1 && 1 <= z <= n - 1 && #[trigger] held_at(
                    index,
                    areas,
                    x,
                    y,
                    z,
                    e,
                );
            assert(held_at(index, areas, x, y, z, e));
        }
        if more.contains(e) {
            let (x, y) = choose|x: int, y: int|
                1 <= x <= index.dims().2 && 1 <= y <= index.dims().1 && #[trigger] held_at(index, areas, x, y, n as int, e);
            assert(held_at(index, areas, x, y, n as int, e));
        }
    }
}

/// The name of a tile is its three coordinates, in order.
pub open spec fn tile_name(c: Cell) -> Seq<char> {
    dec(c.0 as int) + ","@ + dec(c.1 as int) + ","@ + dec(c.2 as int)
}

/// Rules see each tile of the map that holds something, under its name, with all that it holds;
/// and each tile that belongs to an area, under its name, with that area.
pub proof fn rules_see_every_tile(index: &SpatialIndex, c: Cell)
    requires
        1 <= c.0 <= index.dims().2,
        1 <= c.1 <= index.dims().1,
        1 <= c.2 <= index.dims().0,
    ensures
        tile_table(index, false) is Object,
        tile_table(index, true) is Object,
        index.tile(c).len() > 0 ==> tile_table(index, false)->Object_0.contains(
            (tile_name(c), objects_json(index.tile(c))),
        ),
        index.area_at(c) is Some ==> tile_table(index, true)->Object_0.contains(
            (tile_name(c), JsonView::Str(index.area_at(c).unwrap())),
        ),
{
    let z = c.2 as int;
    if index.tile(c).len() > 0 {
        let e = (tile_name(c), objects_json(index.tile(c)));
        let one = entry_of_tile(index, false, c);
        assert(one[0] == e);
        assert(held_at(index, false, c.0 as int, c.1 as int, z, e));
        lemma_table(index, false, index.dims().0 as nat, e);
    }
    if index.area_at(c) is Some {
        let e = (tile_name(c), JsonView::Str(index.area_at(c).unwrap()));
        let one = entry_of_tile(index, true, c);
        assert(one[0] == e);
        assert(held_at(index, true, c.0 as int, c.1 as int, z, e));
        lemma_table(index, true, index.dims().0 as nat, e);
    }
}

/// What rules see of tiles is on the map: every entry of the two tables is of a tile within its
/// extent, under that tile's name.
pub proof fn rules_see_only_the_map(index: &SpatialIndex, areas: bool, e: (Seq<char>, JsonView)) -> (c: Cell)
    requires
        index.wf(),
        tile_table(index, areas)->Object_0.contains(e),
    ensures
        1 <= c.0 <= index.dims().2,
        1 <= c.1 <= index.dims().1,
        1 <= c.2 <= index.dims().0,
        e.0 == tile_name(c),
        !areas ==> index.tile(c).len() > 0 && e.1 == objects_json(index.tile(c)),
        areas ==> index.area_at(c) is Some && e.1 == JsonView::Str(index.area_at(c).unwrap()),
{
    index.wf_facts();
    lemma_table(index, areas, index.dims().0 as nat, e);
    let (x, y, z) = choose|x: int, y: int, z: int|
        1 <= x <= index.dims().2 && 1 <= y <= index.dims().1 && 1 <= z <= index.dims().0 && #[trigger] held_at(
            index,
            areas,
            x,
            y,
            z,
            e,
        );
    (x as i32, y as i32, z as i32)
}

/// Rules see each area under its path, with the names of its tiles, in order.
pub proof fn rules_see_every_area(index: &SpatialIndex, i: int, k: int)
    requires
        0 <= i < index.area_paths().len(),
        0 <= k < index.area_positions(index.area_paths()[i]).len(),
    ensures
        area_table(index) is Object,
        area_table(index)->Object_0.len() == index.area_paths().len(),
        area_table(index)->Object_0[i].0 == index.area_paths()[i],
        area_table(index)->Object_0[i].1 is Array,
        area_table(index)->Object_0[i].1->Array_0.len() == index.area_positions(index.area_paths()[i]).len(),
        area_table(index)->Object_0[i].1->Array_0[k] == JsonView::Str(
            tile_name(index.area_positions(index.area_paths()[i])[k]),
        ),
{
}

/// The context is installed with the tiles first, then the areas, then the areas of the tiles.
pub proof fn the_context_holds_the_tables(index: &SpatialIndex)
    ensures
        setup_script(index) == SETUP_HEAD@ + json_text(tile_table(index, false)) + SETUP_AREAS@ + json_text(area_table(index))
            + SETUP_TILE_AREAS@ + json_text(tile_table(index, true)) + SETUP_TAIL@,
{
}

// ── Rules ────────────────────────────────────────────────────────────

/// Whether the engine was asked for the member of a name of a rule.
pub open spec fn asked_for(m: TextReport, rule: Kept, name: Seq<char>) -> bool {
    m.asked().value == rule && m.asked().name@ == name
}

/// The definition of a rule is read from its members `id`, `anchor`, `severity` and `message`, each
/// for what it is called, and its check function from `check`.
pub proof fn a_rule_is_read_by_its_members(log: MembersLog, rule: Kept, f: FieldsView)
    requires
        members_told(log, rule, f),
    ensures
        exists|m: TextReport| #[trigger] asked_for(m, rule, "id"@) && member_told(m, f.id),
        exists|m: TextReport| #[trigger] asked_for(m, rule, "anchor"@) && needed_told(m, f.anchor),
        exists|m: TextReport| #[trigger] asked_for(m, rule, "severity"@) && member_told(m, f.severity),
        exists|m: TextReport| #[trigger] asked_for(m, rule, "message"@) && member_told(m, f.message),
        log.check.asked().value == rule && log.check.asked().name@ == "check"@,
        f.check_error is None <==> log.check.answer() is Ok,
{
    assert(asked_for(log.id, rule, "id"@));
    assert(asked_for(log.anchor, rule, "anchor"@));
    assert(asked_for(log.severity, rule, "severity"@));
    assert(asked_for(log.message, rule, "message"@));
}

/// A check is made by calling the rule's own check function, with the subject first and the context
/// of the map second; what the call returns is what the check returned.
pub proof fn a_check_calls_its_function(log: CheckLog, check: KeptFunction, script: Seq<char>, ev: EventView)
    requires
        check_told(log, check, script, ev),
    ensures
        log.call.asked().function == check,
        log.subject.asked().script@ == script,
        log.subject.answer() matches Ok(v) && v == log.call.asked().first,
        log.map.asked()@ == "__ctx"@,
        log.map.answer() matches Ok(v) && v == log.call.asked().second,
        log.call.answer() is Err <==> ev is Threw,
        log.call.answer() is Ok <==> ev is Returned,
{
}

// ── Tools ────────────────────────────────────────────────────────────

/// While a builder is at work, its eight tools are offered; otherwise the base tools are, and with
/// them the one that starts a builder. A call goes to the builder while it is at work, and so does
/// the one that starts it; any other goes to the base tools.
pub proof fn tools_are_offered_by_name(scopes: Seq<ScopeView>, base: Seq<ToolView>, name: Seq<char>, i: int)
    ensures
        scopes.len() > 0 ==> offered(scopes, base).map_values(|t: ToolView| t.name) == seq![
            "list_vars"@,
            "var_info"@,
            "set_var"@,
            "edit"@,
            "validate"@,
            "commit"@,
            "discard"@,
            "where_am_i"@,
        ],
        scopes.len() == 0 ==> offered(scopes, base).len() == base.len() + 1,
        scopes.len() == 0 && 0 <= i < base.len() ==> offered(scopes, base)[i] == base[i],
        scopes.len() == 0 ==> offered(scopes, base).last().name == "builder_init"@,
        scopes.len() > 0 ==> answered_by(scopes.len(), name) == Route::Builder,
        answered_by(0, "builder_init"@) == Route::Builder,
        name != "builder_init"@ ==> answered_by(0, name) == Route::Base,
{
    if scopes.len() > 0 {
        assert(offered(scopes, base).map_values(|t: ToolView| t.name) =~= seq![
            "list_vars"@,
            "var_info"@,
            "set_var"@,
            "edit"@,
            "validate"@,
            "commit"@,
            "discard"@,
            "where_am_i"@,
        ]);
    }
}

/// Whether the schema of a tool asks for exactly the given arguments.
pub open spec fn asks_for(t: ToolView, required: Seq<Seq<char>>) -> bool {
    match t.schema {
        JsonView::Object(o) => match member(o, "required"@) {
            Some(JsonView::Array(a)) => required.len() > 0 && a == required.map_values(|n: Seq<char>| JsonView::Str(n)),
            None => required.len() == 0,
            _ => false,
        },
        _ => false,
    }
}

/// Each tool asks for the arguments without which its call is refused.
pub proof fn tools_ask_for_what_they_need(scope: ScopeView)
    ensures
        asks_for(init_tool(), seq!["type_path"@]),
        asks_for(scope_tools(scope)[0], Seq::empty()),
        asks_for(scope_tools(scope)[1], seq!["name"@]),
        asks_for(scope_tools(scope)[2], seq!["name"@, "value"@]),
        asks_for(scope_tools(scope)[3], seq!["var_name"@]),
        asks_for(scope_tools(scope)[4], Seq::empty()),
        asks_for(scope_tools(scope)[5], Seq::empty()),
        asks_for(scope_tools(scope)[6], Seq::empty()),
        asks_for(scope_tools(scope)[7], Seq::empty()),
{
    lemma_schema(init_tool(), seq!["type_path"@]);
    lemma_schema(scope_tools(scope)[0], Seq::empty());
    lemma_schema(scope_tools(scope)[1], seq!["name"@]);
    lemma_schema(scope_tools(scope)[2], seq!["name"@, "value"@]);
    lemma_schema(scope_tools(scope)[3], seq!["var_name"@]);
    lemma_schema(scope_tools(scope)[4], Seq::empty());
    lemma_schema(scope_tools(scope)[5], Seq::empty());
    lemma_schema(scope_tools(scope)[6], Seq::empty());
    lemma_schema(scope_tools(scope)[7], Seq::empty());
}

proof fn lemma_schema(t: ToolView, required: Seq<Seq<char>>)
    ensures
        (exists|properties: Seq<(Seq<char>, JsonView)>, names: Seq<JsonView>|
            t.schema == #[trigger] crate::builder_tools::schema(properties, names) && names =~= required.map_values(
                |n: Seq<char>| JsonView::Str(n),
            )) ==> asks_for(t, required),
{
    reveal_strlit("required");
    reveal_strlit("type");
    reveal_strlit("properties");
    assert("required"@.len() == 8 && "type"@.len() == 4 && "properties"@.len() == 10);
    if exists|properties: Seq<(Seq<char>, JsonView)>, names: Seq<JsonView>|
        t.schema == #[trigger] crate::builder_tools::schema(properties, names) && names =~= required.map_values(
            |n: Seq<char>| JsonView::Str(n),
        ) {
        let o = t.schema->Object_0;
        reveal_with_fuel(member, 4);
        assert(o.skip(1)[0] == o[1]);
        if required.len() > 0 {
            assert(o.skip(1).skip(1)[0] == o[2]);
        }
    }
}

} // verus!
