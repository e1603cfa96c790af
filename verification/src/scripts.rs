//! The scripts that rule evaluation runs.

use crate::index::SpatialIndex;
use crate::json::{array_view, json_display, json_text, json_views, member_views, object_view, JsonValue, JsonView};
use crate::prefab::{prefab_views, Prefab, PrefabView};
use crate::rules::{prefab_vars_to_json, vars_json};
use crate::tables::Cell;
use crate::text::{dec, i32_text, replace_text, replaced};
use vstd::prelude::*;

verus! {

/// The script around a rule file, up to the name of the file.
pub const RULE_HEAD: &'static str = r#"
                    (function() {
                        const __rules = [];
                        function rule(id, def) {
                            __rules.push({
                                id: id,
                                anchor: def.anchor,
                                severity: def.severity || "warning",
                                message: def.message || ("Rule " + id + " failed"),
                                check: def.check,
                                source_file: ""#;

/// The script around a rule file, from its name to its text.
pub const RULE_MIDDLE: &'static str = r#"",
                            });
                        }
                        "#;

/// The script around a rule file, after its text.
pub const RULE_TAIL: &'static str = r#";
                        return __rules;
                    })()
                    "#;

/// The script that installs the context, up to the tiles.
pub const SETUP_HEAD: &'static str = r#"
        (function() {
            const __tiles = "#;

/// The script that installs the context, from the tiles to the areas.
pub const SETUP_AREAS: &'static str = r#";
            const __areas = "#;

/// The script that installs the context, from the areas to the areas of the tiles.
pub const SETUP_TILE_AREAS: &'static str = r#";
            const __tileAreas = "#;

/// The script that installs the context, after its data.
pub const SETUP_TAIL: &'static str = r#";

            function objectsAt(x, y, z) {
                z = z || 1;
                return __tiles[x + "," + y + "," + z] || [];
            }

            globalThis.__ctx = {
                // Get all objects at a tile
                at: function(x, y, z) {
                    return objectsAt(x, y, z);
                },

                // Get objects on adjacent tiles (4-directional)
                adjacent: function(x, y, z) {
                    z = z || 1;
                    var results = [];
                    var dirs = [[0,1],[0,-1],[1,0],[-1,0]];
                    for (var i = 0; i < dirs.length; i++) {
                        var nx = x + dirs[i][0];
                        var ny = y + dirs[i][1];
                        var objs = objectsAt(nx, ny, z);
                        for (var j = 0; j < objs.length; j++) {
                            results.push(Object.assign({x: nx, y: ny, z: z}, objs[j]));
                        }
                    }
                    return results;
                },

                // Get objects within radius
                nearby: function(x, y, z, radius) {
                    z = z || 1;
                    radius = radius || 3;
                    var results = [];
                    for (var dx = -radius; dx <= radius; dx++) {
                        for (var dy = -radius; dy <= radius; dy++) {
                            if (dx === 0 && dy === 0) continue;
                            var nx = x + dx;
                            var ny = y + dy;
                            var objs = objectsAt(nx, ny, z);
                            for (var j = 0; j < objs.length; j++) {
                                results.push(Object.assign({x: nx, y: ny, z: z}, objs[j]));
                            }
                        }
                    }
                    return results;
                },

                // Get the area path for a tile
                areaOf: function(x, y, z) {
                    z = z || 1;
                    return __tileAreas[x + "," + y + "," + z] || null;
                },

                // Get all tile keys in an area
                areaTiles: function(areaPath) {
                    return __areas[areaPath] || [];
                },

                // Get all objects in an area
                objectsInArea: function(areaPath) {
                    var tiles = __areas[areaPath] || [];
                    var results = [];
                    for (var i = 0; i < tiles.length; i++) {
                        var objs = __tiles[tiles[i]] || [];
                        for (var j = 0; j < objs.length; j++) {
                            var parts = tiles[i].split(",");
                            results.push(Object.assign({
                                x: parseInt(parts[0]),
                                y: parseInt(parts[1]),
                                z: parseInt(parts[2])
                            }, objs[j]));
                        }
                    }
                    return results;
                },

                // Check if a type path matches (prefix match for subtypes)
                isType: function(obj, typePath) {
                    return obj.path && obj.path.indexOf(typePath) === 0;
                },

                // Get variable from object (with default)
                varOf: function(obj, name, defaultVal) {
                    if (obj.vars && obj.vars[name] !== undefined) return obj.vars[name];
                    return defaultVal !== undefined ? defaultVal : null;
                },

                // Get dir value and convert to dx,dy
                dirToDelta: function(dir) {
                    // BYOND dir constants
                    var NORTH = 1, SOUTH = 2, EAST = 4, WEST = 8;
                    var dx = 0, dy = 0;
                    if (dir & NORTH) dy = 1;
                    if (dir & SOUTH) dy = -1;
                    if (dir & EAST) dx = 1;
                    if (dir & WEST) dx = -1;
                    return {dx: dx, dy: dy};
                },

                // Infer BYOND dir from type path (e.g. /directional/north → 1)
                inferDir: function(obj) {
                    // Check explicit var first
                    if (obj.vars && obj.vars.dir !== undefined) return parseInt(obj.vars.dir);
                    // Infer from path suffix (common in tgstation derivatives)
                    var p = obj.path;
                    if (p.endsWith("/north") || p.indexOf("/directional/north") !== -1) return 1;
                    if (p.endsWith("/south") || p.indexOf("/directional/south") !== -1) return 2;
                    if (p.endsWith("/east") || p.indexOf("/directional/east") !== -1) return 4;
                    if (p.endsWith("/west") || p.indexOf("/directional/west") !== -1) return 8;
                    return 2; // default south
                },

                // Get the wall behind an object (using its dir or inferred from path)
                wallBehind: function(obj) {
                    var dir = this.inferDir(obj);
                    var delta = this.dirToDelta(dir);
                    // The wall is in the direction the object faces
                    var wx = obj.x + delta.dx;
                    var wy = obj.y + delta.dy;
                    var z = obj.z || 1;
                    var objs = objectsAt(wx, wy, z);
                    for (var i = 0; i < objs.length; i++) {
                        if (objs[i].path.indexOf("/turf/closed/wall") === 0) {
                            return Object.assign({x: wx, y: wy, z: z}, objs[i]);
                        }
                    }
                    return null;
                },
            };
        })();
        "#;

/// A text escaped for a JavaScript string in double quotes.
pub open spec fn js_quoted(s: Seq<char>) -> Seq<char> {
    replaced(replaced(s, "\\"@, "\\\\"@), "\""@, "\\\""@)
}

/// The script that loads a rule file: calls of `rule` register into the array that it returns.
pub open spec fn rule_script(filename: Seq<char>, source: Seq<char>) -> Seq<char> {
    RULE_HEAD@ + js_quoted(filename) + RULE_MIDDLE@ + source + RULE_TAIL@
}

/// Wraps the text of a rule file into the script that loads it.
pub fn wrap_rules(filename: &str, source: &str) -> (r: String)
    ensures
        r@ == rule_script(filename@, source@),
{
    proof {
        reveal_strlit("\\");
        reveal_strlit("\"");
    }
    let once = replace_text(filename, "\\", "\\\\");
    let quoted = replace_text(once.as_str(), "\"", "\\\"");
    let mut out = RULE_HEAD.to_string();
    out.append(quoted.as_str());
    out.append(RULE_MIDDLE);
    out.append(source);
    out.append(RULE_TAIL);
    out
}

/// The script that makes a JavaScript value of a JSON value.
pub open spec fn parse_script(v: JsonView) -> Seq<char> {
    "JSON.parse('"@ + replaced(replaced(json_text(v), "\\"@, "\\\\"@), "'"@, "\\'"@) + "')"@
}

/// Writes the script that makes a JavaScript value of a JSON value.
pub fn json_to_js(v: &JsonValue) -> (r: String)
    ensures
        r@ == parse_script(v@),
{
    proof {
        reveal_strlit("\\");
        reveal_strlit("'");
    }
    let text = json_display(v);
    let once = replace_text(text.as_str(), "\\", "\\\\");
    let twice = replace_text(once.as_str(), "'", "\\'");
    let mut out = "JSON.parse('".to_string();
    out.append(twice.as_str());
    out.append("')");
    out
}

// ── The context ──────────────────────────────────────────────────────

/// The name of a tile in the tables of the context: `x,y,z`.
pub open spec fn cell_key(c: Cell) -> Seq<char> {
    dec(c.0 as int) + ","@ + dec(c.1 as int) + ","@ + dec(c.2 as int)
}

fn write_key(c: Cell) -> (r: String)
    ensures
        r@ == cell_key(c),
{
    let mut out = i32_text(c.0);
    out.append(",");
    out.append(i32_text(c.1).as_str());
    out.append(",");
    out.append(i32_text(c.2).as_str());
    out
}

/// A prefab as the context has it.
pub open spec fn object_json(p: PrefabView) -> JsonView {
    JsonView::Object(seq![("path"@, JsonView::Str(p.path)), ("vars"@, vars_json(p))])
}

/// The prefabs of a tile as the context has them.
pub open spec fn objects_json(list: Seq<PrefabView>) -> JsonView {
    JsonView::Array(list.map_values(|p: PrefabView| object_json(p)))
}

fn object_value(p: &Prefab) -> (r: JsonValue)
    ensures
        r@ == object_json(p@),
{
    broadcast use object_view;

    let vars = prefab_vars_to_json(p);
    let members: Vec<(String, JsonValue)> = vec![
        ("path".to_string(), JsonValue::Str(p.path.clone())),
        ("vars".to_string(), vars),
    ];
    assert(member_views(members@) =~= object_json(p@)->Object_0);
    JsonValue::Object(members)
}

fn objects_value(list: &[Prefab]) -> (r: JsonValue)
    ensures
        r@ == objects_json(prefab_views(list@)),
{
    broadcast use array_view;

    let ghost want = prefab_views(list@).map_values(|p: PrefabView| object_json(p));
    let mut items: Vec<JsonValue> = Vec::new();
    let mut i: usize = 0;
    while i < list.len()
        invariant
            i <= list@.len(),
            want == prefab_views(list@).map_values(|p: PrefabView| object_json(p)),
            json_views(items@) == want.take(i as int),
        decreases list@.len() - i,
    {
        let ghost before = json_views(items@);
        let item = object_value(&list[i]);
        items.push(item);
        assert(json_views(items@) =~= before.push(item@));
        i = i + 1;
        assert(json_views(items@) =~= want.take(i as int));
    }
    assert(want.take(i as int) =~= want);
    JsonValue::Array(items)
}

/// What the table of tiles has of one tile: its prefabs, if there are any.
pub open spec fn tile_entry(index: &SpatialIndex, c: Cell) -> Seq<(Seq<char>, JsonView)> {
    if index.tile(c).len() > 0 {
        seq![(cell_key(c), objects_json(index.tile(c)))]
    } else {
        Seq::empty()
    }
}

/// What the table of the areas of the tiles has of one tile.
pub open spec fn area_entry(index: &SpatialIndex, c: Cell) -> Seq<(Seq<char>, JsonView)> {
    match index.area_at(c) {
        Some(a) => seq![(cell_key(c), JsonView::Str(a))],
        None => Seq::empty(),
    }
}

/// One of the two tables by tile.
pub open spec fn entry_of_tile(index: &SpatialIndex, areas: bool, c: Cell) -> Seq<(Seq<char>, JsonView)> {
    if areas {
        area_entry(index, c)
    } else {
        tile_entry(index, c)
    }
}

/// The part of a table for the first `n` columns of a row.
pub open spec fn row_entries(index: &SpatialIndex, areas: bool, z: int, y: int, n: nat) -> Seq<(Seq<char>, JsonView)>
    decreases n,
{
    if n == 0 {
        Seq::empty()
    } else {
        row_entries(index, areas, z, y, (n - 1) as nat) + entry_of_tile(index, areas, (n as i32, y as i32, z as i32))
    }
}

/// The part of a table for the first `n` rows of a level.
pub open spec fn level_entries(index: &SpatialIndex, areas: bool, z: int, n: nat) -> Seq<(Seq<char>, JsonView)>
    decreases n,
{
    if n == 0 {
        Seq::empty()
    } else {
        level_entries(index, areas, z, (n - 1) as nat) + row_entries(index, areas, z, n as int, index.dims().2 as nat)
    }
}

/// The part of a table for the first `n` levels.
pub open spec fn table_entries(index: &SpatialIndex, areas: bool, n: nat) -> Seq<(Seq<char>, JsonView)>
    decreases n,
{
    if n == 0 {
        Seq::empty()
    } else {
        table_entries(index, areas, (n - 1) as nat) + level_entries(index, areas, n as int, index.dims().1 as nat)
    }
}

/// A table by tile.
pub open spec fn tile_table(index: &SpatialIndex, areas: bool) -> JsonView {
    JsonView::Object(table_entries(index, areas, index.dims().0 as nat))
}

/// Adds what a table has of one tile.
fn push_entry(index: &SpatialIndex, areas: bool, c: Cell, out: &mut Vec<(String, JsonValue)>)
    requires
        index.wf(),
    ensures
        member_views(final(out)@) == member_views(old(out)@) + entry_of_tile(index, areas, c),
{
    let ghost before = member_views(out@);
    if areas {
        match index.area_of(c.0, c.1, c.2) {
            Some(a) => {
                let key = write_key(c);
                let value = JsonValue::Str(a.to_string());
                out.push((key, value));
                assert(member_views(out@) =~= before + entry_of_tile(index, areas, c));
            },
            None => {
                assert(member_views(out@) =~= before + entry_of_tile(index, areas, c));
            },
        }
    } else {
        let list = index.at(c.0, c.1, c.2);
        assert(prefab_views(list@).len() == list@.len());
        if list.len() > 0 {
            let key = write_key(c);
            let value = objects_value(list);
            out.push((key, value));
        }
        assert(member_views(out@) =~= before + entry_of_tile(index, areas, c));
    }
}

/// Adds what a table has of one level.
fn push_level(index: &SpatialIndex, areas: bool, z: usize, out: &mut Vec<(String, JsonValue)>)
    requires
        index.wf(),
        z < i32::MAX,
    ensures
        member_views(final(out)@) == member_views(old(out)@) + level_entries(index, areas, z as int, index.dims().1 as nat),
{
    let (dim_x, dim_y, _) = index.dim_xyz();
    proof {
        index.wf_facts();
    }
    let ghost before = member_views(out@);
    assert(before + level_entries(index, areas, z as int, 0) =~= before);
    let mut y: usize = 0;
    while y < dim_y
        invariant
            y <= dim_y < i32::MAX,
            dim_x < i32::MAX,
            z < i32::MAX,
            index.wf(),
            index.dims().1 == dim_y,
            index.dims().2 == dim_x,
            member_views(out@) == before + level_entries(index, areas, z as int, y as nat),
        decreases dim_y - y,
    {
        let ghost rows = member_views(out@);
        assert(rows + row_entries(index, areas, z as int, y + 1, 0) =~= rows);
        let mut x: usize = 0;
        while x < dim_x
            invariant
                x <= dim_x < i32::MAX,
                y < i32::MAX - 1,
                z < i32::MAX,
                index.wf(),
                member_views(out@) == rows + row_entries(index, areas, z as int, y + 1, x as nat),
            decreases dim_x - x,
        {
            let ghost now = member_views(out@);
            push_entry(index, areas, ((x + 1) as i32, (y + 1) as i32, z as i32), out);
            assert(member_views(out@) =~= rows + row_entries(index, areas, z as int, y + 1, (x + 1) as nat));
            x = x + 1;
        }
        assert(member_views(out@) =~= before + level_entries(index, areas, z as int, (y + 1) as nat));
        y = y + 1;
    }
}

/// Makes a table by tile.
fn make_table(index: &SpatialIndex, areas: bool) -> (r: JsonValue)
    requires
        index.wf(),
    ensures
        r@ == tile_table(index, areas),
{
    broadcast use object_view;

    proof {
        index.wf_facts();
    }
    let (_, _, dim_z) = index.dim_xyz();
    let mut out: Vec<(String, JsonValue)> = Vec::new();
    assert(member_views(out@) =~= Seq::empty());
    let mut z: usize = 0;
    while z < dim_z
        invariant
            z <= dim_z < i32::MAX,
            index.wf(),
            member_views(out@) == table_entries(index, areas, z as nat),
        decreases dim_z - z,
    {
        push_level(index, areas, z + 1, &mut out);
        z = z + 1;
    }
    JsonValue::Object(out)
}

/// The names of the tiles of an area.
pub open spec fn keys_json(tiles: Seq<Cell>) -> JsonView {
    JsonView::Array(tiles.map_values(|c: Cell| JsonView::Str(cell_key(c))))
}

/// The table of areas.
pub open spec fn area_table(index: &SpatialIndex) -> JsonView {
    JsonView::Object(
        index.area_paths().map_values(|a: Seq<char>| (a, keys_json(index.area_positions(a)))),
    )
}

fn keys_value(tiles: &[Cell]) -> (r: JsonValue)
    ensures
        r@ == keys_json(tiles@),
{
    broadcast use array_view;

    let ghost want = tiles@.map_values(|c: Cell| JsonView::Str(cell_key(c)));
    let mut items: Vec<JsonValue> = Vec::new();
    let mut i: usize = 0;
    while i < tiles.len()
        invariant
            i <= tiles@.len(),
            want == tiles@.map_values(|c: Cell| JsonView::Str(cell_key(c))),
            json_views(items@) == want.take(i as int),
        decreases tiles@.len() - i,
    {
        let ghost before = json_views(items@);
        let item = JsonValue::Str(write_key(tiles[i]));
        items.push(item);
        assert(json_views(items@) =~= before.push(item@));
        i = i + 1;
        assert(json_views(items@) =~= want.take(i as int));
    }
    assert(want.take(i as int) =~= want);
    JsonValue::Array(items)
}

fn make_area_table(index: &SpatialIndex) -> (r: JsonValue)
    requires
        index.wf(),
    ensures
        r@ == area_table(index),
{
    broadcast use object_view;

    let areas = index.all_areas();
    let ghost paths = index.area_paths();
    let ghost want = paths.map_values(|a: Seq<char>| (a, keys_json(index.area_positions(a))));
    let mut out: Vec<(String, JsonValue)> = Vec::new();
    let mut i: usize = 0;
    assert(areas@.map_values(|s: &str| s@).len() == areas@.len());
    while i < areas.len()
        invariant
            i <= areas@.len(),
            index.wf(),
            paths == index.area_paths(),
            areas@.map_values(|s: &str| s@) == paths,
            areas@.len() == paths.len(),
            want == paths.map_values(|a: Seq<char>| (a, keys_json(index.area_positions(a)))),
            member_views(out@) == want.take(i as int),
        decreases areas@.len() - i,
    {
        let ghost before = member_views(out@);
        let area = areas[i];
        assert(areas@.map_values(|s: &str| s@)[i as int] == area@);
        let value = keys_value(index.area_tiles(area));
        out.push((area.to_string(), value));
        assert(member_views(out@) =~= before.push(want[i as int]));
        i = i + 1;
        assert(member_views(out@) =~= want.take(i as int));
    }
    assert(want.take(i as int) =~= want);
    JsonValue::Object(out)
}

/// The script that installs the context which rules query: the tiles with their prefabs, the
/// areas with their tiles, and the area of each tile.
pub open spec fn setup_script(index: &SpatialIndex) -> Seq<char> {
    SETUP_HEAD@ + json_text(tile_table(index, false)) + SETUP_AREAS@ + json_text(area_table(index)) + SETUP_TILE_AREAS@
        + json_text(tile_table(index, true)) + SETUP_TAIL@
}

/// Writes the script that installs the context which rules query.
pub fn install_globals(index: &SpatialIndex) -> (r: String)
    requires
        index.wf(),
    ensures
        r@ == setup_script(index),
{
    let tiles = make_table(index, false);
    let areas = make_area_table(index);
    let tile_areas = make_table(index, true);
    let mut out = SETUP_HEAD.to_string();
    out.append(json_display(&tiles).as_str());
    out.append(SETUP_AREAS);
    out.append(json_display(&areas).as_str());
    out.append(SETUP_TILE_AREAS);
    out.append(json_display(&tile_areas).as_str());
    out.append(SETUP_TAIL);
    out
}

// ── Quoting ──────────────────────────────────────────────────────────

/// What a quoted JavaScript text stands for, as far as a backslash stands for the character
/// after it.
pub open spec fn unquoted(t: Seq<char>) -> Seq<char>
    decreases t.len(),
{
    if t.len() == 0 {
        Seq::empty()
    } else if t[0] == '\\' && t.len() >= 2 {
        seq![t[1]] + unquoted(t.skip(2))
    } else {
        seq![t[0]] + unquoted(t.skip(1))
    }
}

/// Whether a quoted text would end before its last character.
pub open spec fn ends_early(t: Seq<char>, quote: char) -> bool
    decreases t.len(),
{
    if t.len() == 0 {
        false
    } else if t[0] == '\\' {
        t.len() == 1 || ends_early(t.skip(2), quote)
    } else {
        t[0] == quote || ends_early(t.skip(1), quote)
    }
}

/// A text with a backslash before each backslash, and then before each quote.
pub open spec fn quoted_for(s: Seq<char>, quote: char) -> Seq<char> {
    replaced(replaced(s, seq!['\\'], seq!['\\', '\\']), seq![quote], seq!['\\', quote])
}

proof fn lemma_replaced_front(s: Seq<char>, c: char, to: Seq<char>)
    requires
        s.len() > 0,
    ensures
        replaced(s, seq![c], to) == (if s[0] == c {
            to
        } else {
            seq![s[0]]
        }) + replaced(s.skip(1), seq![c], to),
{
    assert(s.subrange(0, 1) =~= seq![s[0]]);
    assert(seq![s[0]] =~= seq![c] <==> s[0] == c) by {
        assert(seq![s[0]][0] == s[0]);
        assert(seq![c][0] == c);
    }
}

proof fn lemma_quoted_front(s: Seq<char>, quote: char)
    requires
        s.len() > 0,
        quote != '\\',
    ensures
        quoted_for(s, quote) == (if s[0] == '\\' || s[0] == quote {
            seq!['\\', s[0]]
        } else {
            seq![s[0]]
        }) + quoted_for(s.skip(1), quote),
{
    let rest = s.skip(1);
    let inner = replaced(rest, seq!['\\'], seq!['\\', '\\']);
    let once = replaced(s, seq!['\\'], seq!['\\', '\\']);
    let twice = seq!['\\', quote];
    lemma_replaced_front(s, '\\', seq!['\\', '\\']);
    lemma_replaced_front(once, quote, twice);
    if s[0] == '\\' {
        let tail = once.skip(1);
        assert(tail =~= seq!['\\'] + inner);
        lemma_replaced_front(tail, quote, twice);
        assert(tail.skip(1) =~= inner);
        assert(quoted_for(s, quote) =~= seq!['\\', s[0]] + quoted_for(rest, quote));
    } else {
        assert(once.skip(1) =~= inner);
    }
}

/// Quoting loses nothing and hides nothing: a quoted text stands for the text itself, and does
/// not end before its last character.
pub proof fn quoting_keeps_the_text(s: Seq<char>, quote: char)
    requires
        quote != '\\',
    ensures
        unquoted(quoted_for(s, quote)) == s,
        !ends_early(quoted_for(s, quote), quote),
    decreases s.len(),
{
    if s.len() == 0 {
        assert(quoted_for(s, quote) =~= Seq::empty());
        assert(unquoted(quoted_for(s, quote)) =~= s);
    } else {
        let rest = s.skip(1);
        lemma_quoted_front(s, quote);
        quoting_keeps_the_text(rest, quote);
        let q = quoted_for(s, quote);
        if s[0] == '\\' || s[0] == quote {
            assert(q.skip(2) =~= quoted_for(rest, quote));
        } else {
            assert(q.skip(1) =~= quoted_for(rest, quote));
        }
        assert(unquoted(q) =~= s);
    }
}

/// The scripts quote by the same rule: the JSON text in single quotes, the name of a rule file in
/// double quotes.
pub proof fn scripts_quote_alike(v: JsonView, filename: Seq<char>)
    ensures
        parse_script(v) == "JSON.parse('"@ + quoted_for(json_text(v), '\'') + "')"@,
        js_quoted(filename) == quoted_for(filename, '"'),
{
    reveal_strlit("\\");
    reveal_strlit("\\\\");
    reveal_strlit("'");
    reveal_strlit("\\'");
    reveal_strlit("\"");
    reveal_strlit("\\\"");
    assert("\\"@ =~= seq!['\\']);
    assert("\\\\"@ =~= seq!['\\', '\\']);
    assert("'"@ =~= seq!['\'']);
    assert("\\'"@ =~= seq!['\\', '\'']);
    assert("\""@ =~= seq!['"']);
    assert("\\\""@ =~= seq!['\\', '"']);
}

} // verus!
