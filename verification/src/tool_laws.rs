//! What holds of the answers of the query tools: what they list, where, and how often.

use crate::index::{next_to, square_around, Located, SpatialIndex};
use crate::names::{in_order, names_can_be_sorted, sorted_names};
use crate::prefab::{prefab_notation, PrefabView};
use crate::render::RenderResult;
use crate::rules::{ResultView, ViolationView};
use crate::tables::Cell;
use crate::text::{contains_text, dec, joined, lowercase, stands_at, starts_with, texts};
use crate::tools::{
    adjacent_text, area_lines, area_text, areas_of, areas_text, areas_with, at_most, count_lines, counts_text,
    error_lines, file_lines, files_text, holds_path, icon_lines, icons_text, image_text, instance_lines, instances_asked,
    instances_text, level_asked, level_rendered, matching_paths, more_text, nearby_lines, nearby_text, network_text,
    occurrences, on_grid, paths_of, prefab_lines, radius_asked, region_refusal, region_size, report_text, search_text,
    severity_text, tile_paths, tile_text, type_lines, types_asked, violation_lines, violations_asked, RuleFileSize,
};
use vstd::prelude::*;

verus! {

// ── Lines ────────────────────────────────────────────────────────────

proof fn lemma_mapped<T, U>(s: Seq<T>, f: spec_fn(T) -> Seq<U>)
    requires
        s.len() > 0,
    ensures
        s.map_values(f).flatten() == s.drop_last().map_values(f).flatten() + f(s.last()),
{
    let front = s.drop_last().map_values(f);
    assert(s.map_values(f) =~= front.push(f(s.last())));
    front.lemma_flatten_push(f(s.last()));
}

proof fn lemma_holds(a: Seq<char>, b: Seq<char>, c: Seq<char>)
    ensures
        contains_text(a + b + c, b),
        contains_text(a + b, b),
{
    assert((a + b + c).subrange(a.len() as int, (a.len() + b.len()) as int) =~= b);
    assert(stands_at(a + b + c, b, a.len() as int));
    assert((a + b).subrange(a.len() as int, (a.len() + b.len()) as int) =~= b);
    assert(stands_at(a + b, b, a.len() as int));
}

proof fn lemma_begins_with(a: Seq<char>, head: Seq<char>, rest: Seq<char>)
    ensures
        contains_text(a + (head + rest), head),
{
    lemma_holds(a, head, rest);
    assert(a + (head + rest) =~= a + head + rest);
}

proof fn lemma_still_holds(a: Seq<char>, b: Seq<char>, p: Seq<char>)
    requires
        contains_text(a, p),
    ensures
        contains_text(a + b, p),
{
    let at = choose|at: int| stands_at(a, p, at);
    assert((a + b).subrange(at, at + p.len()) =~= a.subrange(at, at + p.len()));
    assert(stands_at(a + b, p, at));
}

/// Prefabs are listed in their order, each on a line of its own behind the indent.
pub proof fn prefabs_are_listed_in_order(list: Seq<PrefabView>, indent: Seq<char>)
    ensures
        prefab_lines(list, indent) == list.map_values(|p: PrefabView| indent + prefab_notation(p) + "\n"@).flatten(),
    decreases list.len(),
{
    if list.len() > 0 {
        prefabs_are_listed_in_order(list.drop_last(), indent);
        let f = |p: PrefabView| indent + prefab_notation(p) + "\n"@;
        lemma_mapped(list, f);
        assert(prefab_lines(list, indent) =~= prefab_lines(list.drop_last(), indent) + f(list.last()));
    }
}

/// A position reads as its three coordinates, in order.
pub open spec fn coordinates(c: Cell) -> Seq<char> {
    "("@ + dec(c.0 as int) + ", "@ + dec(c.1 as int) + ", "@ + dec(c.2 as int) + ")"@
}

/// The lesser of two numbers.
pub open spec fn the_lesser(a: int, b: int) -> int {
    if a <= b {
        a
    } else {
        b
    }
}

// ── Tiles ────────────────────────────────────────────────────────────

/// The answer on a tile names the tile and lists everything on it, in order, and nothing else.
pub proof fn a_tile_is_listed_whole(index: &SpatialIndex, c: Cell)
    ensures
        index.tile(c).len() == 0 ==> tile_text(index, c.0, c.1, c.2) == "No objects at "@ + coordinates(c),
        index.tile(c).len() > 0 ==> tile_text(index, c.0, c.1, c.2) == "Objects at "@ + coordinates(c) + ":\n"@ + index.tile(
            c,
        ).map_values(|p: PrefabView| "  "@ + prefab_notation(p) + "\n"@).flatten(),
{
    prefabs_are_listed_in_order(index.tile(c), "  "@);
    let f = |p: PrefabView| "  "@ + prefab_notation(p) + "\n"@;
    assert(index.tile(c).map_values(|p: PrefabView| "  "@ + prefab_notation(p) + "\n"@) =~= index.tile(c).map_values(f));
}

// ── Sides ────────────────────────────────────────────────────────────

/// The tile one step away: north is a row up, south a row down, east a column to the right and
/// west a column to the left.
pub open spec fn towards(c: Cell, side: Seq<char>) -> Cell {
    if side == "North"@ {
        (c.0, (c.1 + 1) as i32, c.2)
    } else if side == "South"@ {
        (c.0, (c.1 - 1) as i32, c.2)
    } else if side == "East"@ {
        ((c.0 + 1) as i32, c.1, c.2)
    } else {
        ((c.0 - 1) as i32, c.1, c.2)
    }
}

proof fn lemma_sides_differ()
    ensures
        "North"@ != "South"@,
        "North"@ != "East"@,
        "North"@ != "West"@,
        "South"@ != "East"@,
        "South"@ != "West"@,
        "East"@ != "West"@,
{
    reveal_strlit("North");
    reveal_strlit("South");
    reveal_strlit("East");
    reveal_strlit("West");
    assert("North"@[0] == 'N' && "South"@[0] == 'S' && "East"@[0] == 'E' && "West"@[0] == 'W');
}

/// Opposite sides are opposite steps: the way there and back ends where it began. The four sides
/// are four tiles, and they are exactly the tiles next to the one in the middle.
pub proof fn opposite_sides_lead_back(c: Cell, d: Cell)
    requires
        i32::MIN < c.0 < i32::MAX,
        i32::MIN < c.1 < i32::MAX,
    ensures
        towards(towards(c, "South"@), "North"@) == c,
        towards(towards(c, "North"@), "South"@) == c,
        towards(towards(c, "West"@), "East"@) == c,
        towards(towards(c, "East"@), "West"@) == c,
        towards(c, "North"@).1 == c.1 + 1,
        towards(c, "South"@).1 == c.1 - 1,
        towards(c, "East"@).0 == c.0 + 1,
        towards(c, "West"@).0 == c.0 - 1,
        next_to(c, d) <==> d == towards(c, "North"@) || d == towards(c, "South"@) || d == towards(c, "East"@) || d == towards(
            c,
            "West"@,
        ),
{
    lemma_sides_differ();
}

/// What an answer says of one side: nothing where the tile is empty, else the side, the tile that
/// lies there, and everything on it.
pub open spec fn side_section(index: &SpatialIndex, c: Cell, side: Seq<char>) -> Seq<char> {
    let d = towards(c, side);
    let lines = index.tile(d).map_values(|p: PrefabView| "    "@ + prefab_notation(p) + "\n"@).flatten();
    if index.tile(d).len() == 0 {
        Seq::empty()
    } else {
        "  "@ + side + " ("@ + dec(d.0 as int) + ","@ + dec(d.1 as int) + "):\n"@ + lines
    }
}

proof fn lemma_empty()
    ensures
        ""@ == Seq::<char>::empty(),
{
    reveal_strlit("");
    assert(""@ =~= Seq::<char>::empty());
}

/// Under the heading of each side the answer lists exactly the tile one step that way, in the
/// order north, south, east, west.
pub proof fn each_side_lists_the_tile_that_way(index: &SpatialIndex, c: Cell)
    ensures
        adjacent_text(index, c.0, c.1, c.2) == "Adjacent to "@ + coordinates(c) + ":\n"@ + side_section(index, c, "North"@)
            + side_section(index, c, "South"@) + side_section(index, c, "East"@) + side_section(index, c, "West"@),
{
    lemma_sides_differ();
    lemma_empty();
    prefabs_are_listed_in_order(index.tile(towards(c, "North"@)), "    "@);
    prefabs_are_listed_in_order(index.tile(towards(c, "South"@)), "    "@);
    prefabs_are_listed_in_order(index.tile(towards(c, "East"@)), "    "@);
    prefabs_are_listed_in_order(index.tile(towards(c, "West"@)), "    "@);
    lemma_same_lines(index.tile(towards(c, "North"@)));
    lemma_same_lines(index.tile(towards(c, "South"@)));
    lemma_same_lines(index.tile(towards(c, "East"@)));
    lemma_same_lines(index.tile(towards(c, "West"@)));
}

proof fn lemma_same_lines(list: Seq<PrefabView>)
    ensures
        prefab_lines(list, "    "@) == list.map_values(|p: PrefabView| "    "@ + prefab_notation(p) + "\n"@).flatten(),
{
    prefabs_are_listed_in_order(list, "    "@);
    let indent = "    "@;
    let f = |p: PrefabView| indent + prefab_notation(p) + "\n"@;
    assert(list.map_values(|p: PrefabView| "    "@ + prefab_notation(p) + "\n"@) =~= list.map_values(f));
}

/// A tile that holds something is listed by each tile next to it under the opposite side: the
/// tile to its south lists it as north, the one to its north as south, the one to its west as
/// east and the one to its east as west.
pub proof fn neighbours_list_each_other(index: &SpatialIndex, c: Cell)
    requires
        i32::MIN < c.0 < i32::MAX,
        i32::MIN < c.1 < i32::MAX,
        index.tile(c).len() > 0,
    ensures
        ({
            let south = towards(c, "South"@);
            let north = towards(c, "North"@);
            let west = towards(c, "West"@);
            let east = towards(c, "East"@);
            let at = " ("@ + dec(c.0 as int) + ","@ + dec(c.1 as int) + "):\n"@;
            &&& contains_text(adjacent_text(index, south.0, south.1, south.2), "  "@ + "North"@ + at)
            &&& contains_text(adjacent_text(index, north.0, north.1, north.2), "  "@ + "South"@ + at)
            &&& contains_text(adjacent_text(index, west.0, west.1, west.2), "  "@ + "East"@ + at)
            &&& contains_text(adjacent_text(index, east.0, east.1, east.2), "  "@ + "West"@ + at)
        }),
{
    let south = towards(c, "South"@);
    let north = towards(c, "North"@);
    let west = towards(c, "West"@);
    let east = towards(c, "East"@);
    opposite_sides_lead_back(c, c);
    lemma_side_is_held(index, south, "North"@);
    lemma_side_is_held(index, north, "South"@);
    lemma_side_is_held(index, west, "East"@);
    lemma_side_is_held(index, east, "West"@);
}

proof fn lemma_side_is_held(index: &SpatialIndex, c: Cell, side: Seq<char>)
    requires
        side == "North"@ || side == "South"@ || side == "East"@ || side == "West"@,
        index.tile(towards(c, side)).len() > 0,
    ensures
        ({
            let d = towards(c, side);
            contains_text(
                adjacent_text(index, c.0, c.1, c.2),
                "  "@ + side + (" ("@ + dec(d.0 as int) + ","@ + dec(d.1 as int) + "):\n"@),
            )
        }),
{
    each_side_lists_the_tile_that_way(index, c);
    let d = towards(c, side);
    let lines = index.tile(d).map_values(|p: PrefabView| "    "@ + prefab_notation(p) + "\n"@).flatten();
    let head = "  "@ + side + (" ("@ + dec(d.0 as int) + ","@ + dec(d.1 as int) + "):\n"@);
    let section = side_section(index, c, side);
    assert(section =~= head + lines);
    let start = "Adjacent to "@ + coordinates(c) + ":\n"@;
    let n = side_section(index, c, "North"@);
    let s = side_section(index, c, "South"@);
    let e = side_section(index, c, "East"@);
    let w = side_section(index, c, "West"@);
    if side == "North"@ {
        lemma_begins_with(start, head, lines);
        lemma_still_holds(start + n, s, head);
        lemma_still_holds(start + n + s, e, head);
        lemma_still_holds(start + n + s + e, w, head);
    } else if side == "South"@ {
        lemma_begins_with(start + n, head, lines);
        lemma_still_holds(start + n + s, e, head);
        lemma_still_holds(start + n + s + e, w, head);
    } else if side == "East"@ {
        lemma_begins_with(start + n + s, head, lines);
        lemma_still_holds(start + n + s + e, w, head);
    } else {
        lemma_begins_with(start + n + s + e, head, lines);
    }
}

// ── Areas and counts ─────────────────────────────────────────────────

proof fn lemma_areas_finite(index: &SpatialIndex, prefix: Option<Seq<char>>)
    ensures
        areas_with(index, prefix).finite(),
{
    let all = index.area_paths().to_set();
    vstd::seq_lib::seq_to_set_is_finite(index.area_paths());
    assert(areas_with(index, prefix).subset_of(all));
    vstd::set_lib::lemma_len_subset(areas_with(index, prefix), all);
}

proof fn lemma_area_lines(index: &SpatialIndex, names: Seq<Seq<char>>)
    ensures
        area_lines(index, names) == names.map_values(
            |a: Seq<char>| "  "@ + a + " ("@ + dec(index.area_positions(a).len() as int) + " tiles)\n"@,
        ).flatten(),
    decreases names.len(),
{
    if names.len() > 0 {
        lemma_area_lines(index, names.drop_last());
        let f = |a: Seq<char>| "  "@ + a + " ("@ + dec(index.area_positions(a).len() as int) + " tiles)\n"@;
        lemma_mapped(names, f);
        assert(area_lines(index, names) =~= area_lines(index, names.drop_last()) + f(names.last()));
    }
}

/// The list of areas holds each area of the map whose path begins with the prefix, once, in the
/// order of the paths, with the number of its tiles; in front stands how many there are.
pub proof fn areas_are_listed_once_in_order(index: &SpatialIndex, prefix: Option<Seq<char>>) -> (names: Seq<Seq<char>>)
    ensures
        in_order(names),
        forall|a: Seq<char>| #[trigger]
            names.contains(a) <==> index.area_paths().contains(a) && (prefix is Some ==> starts_with(a, prefix.unwrap())),
        areas_text(index, prefix) == dec(names.len() as int) + " areas found:\n"@ + names.map_values(
            |a: Seq<char>| "  "@ + a + " ("@ + dec(index.area_positions(a).len() as int) + " tiles)\n"@,
        ).flatten(),
{
    let set = areas_with(index, prefix);
    let names = sorted_names(set);
    lemma_areas_finite(index, prefix);
    names_can_be_sorted(set);
    lemma_area_lines(index, names);
    assert forall|a: Seq<char>| #[trigger]
        names.contains(a) <==> index.area_paths().contains(a) && (prefix is Some ==> starts_with(a, prefix.unwrap())) by {
        assert(names.to_set().contains(a) <==> names.contains(a));
        assert(set.contains(a) <==> names.contains(a));
    }
    names
}

/// How often a text occurs in a list.
pub open spec fn times(list: Seq<Seq<char>>, a: Seq<char>) -> nat {
    list.filter(|b: Seq<char>| b == a).len()
}

proof fn lemma_times(list: Seq<Seq<char>>, a: Seq<char>)
    ensures
        occurrences(list, a) == times(list, a),
    decreases list.len(),
{
    reveal(Seq::filter);
    if list.len() > 0 {
        lemma_times(list.drop_last(), a);
    }
}

proof fn lemma_count_lines(all: Seq<Seq<char>>, names: Seq<Seq<char>>, open: Seq<char>, close: Seq<char>)
    ensures
        count_lines(all, names, open, close) == names.map_values(
            |a: Seq<char>| "  "@ + a + open + dec(times(all, a) as int) + close,
        ).flatten(),
    decreases names.len(),
{
    if names.len() > 0 {
        lemma_count_lines(all, names.drop_last(), open, close);
        let f = |a: Seq<char>| "  "@ + a + open + dec(times(all, a) as int) + close;
        lemma_mapped(names, f);
        let last = names.last();
        lemma_times(all, last);
        assert(count_lines(all, names, open, close) =~= count_lines(all, names.drop_last(), open, close) + f(last));
    }
}

/// Counting texts gives each text that occurs one line, in order, with the number of times that
/// it occurs.
pub proof fn counts_are_listed_once_in_order(all: Seq<Seq<char>>, open: Seq<char>, close: Seq<char>) -> (names: Seq<Seq<char>>)
    ensures
        in_order(names),
        forall|a: Seq<char>| #[trigger] names.contains(a) <==> all.contains(a),
        counts_text(all, open, close) == names.map_values(
            |a: Seq<char>| "  "@ + a + open + dec(times(all, a) as int) + close,
        ).flatten(),
{
    let set = all.to_set();
    let names = sorted_names(set);
    vstd::seq_lib::seq_to_set_is_finite(all);
    names_can_be_sorted(set);
    lemma_count_lines(all, names, open, close);
    assert forall|a: Seq<char>| #[trigger] names.contains(a) <==> all.contains(a) by {
        assert(names.to_set().contains(a) <==> names.contains(a));
        assert(set.contains(a) <==> all.contains(a));
    }
    names
}

/// The answer on an area gives the number of its tiles and of the objects on them, and lists each
/// type among those objects once, in order, with how many there are of it.
pub proof fn an_area_is_counted_by_type(index: &SpatialIndex, path: Seq<char>) -> (names: Seq<Seq<char>>)
    ensures
        ({
            let tiles = index.area_positions(path);
            let objects = index.objects_on(tiles);
            &&& in_order(names)
            &&& forall|a: Seq<char>| #[trigger]
                names.contains(a) <==> exists|i: int| 0 <= i < objects.len() && (#[trigger] objects[i]).prefab.path == a
            &&& objects.len() == 0 ==> area_text(index, path) == "No objects in area '"@ + path + "' (area may not exist)"@
            &&& objects.len() > 0 ==> area_text(index, path) == "Area '"@ + path + "': "@ + dec(tiles.len() as int) + " tiles, "@
                + dec(objects.len() as int) + " objects\n\nObject types:\n"@ + names.map_values(
                |a: Seq<char>|
                    "  "@ + a + " ×"@ + dec(
                        times(objects.map_values(|l: Located| l.prefab.path), a) as int,
                    ) + "\n"@,
            ).flatten()
        }),
{
    let objects = index.objects_on(index.area_positions(path));
    let paths = objects.map_values(|l: Located| l.prefab.path);
    assert(paths_of(objects) =~= paths);
    let names = counts_are_listed_once_in_order(paths, " ×"@, "\n"@);
    let open = " ×"@;
    let close = "\n"@;
    let f = |a: Seq<char>| "  "@ + a + open + dec(times(paths, a) as int) + close;
    let g = |a: Seq<char>|
        "  "@ + a + " ×"@ + dec(times(objects.map_values(|l: Located| l.prefab.path), a) as int) + "\n"@;
    assert(names.map_values(f) =~= names.map_values(g));
    assert forall|a: Seq<char>| #[trigger]
        names.contains(a) <==> exists|i: int| 0 <= i < objects.len() && (#[trigger] objects[i]).prefab.path == a by {
        if paths.contains(a) {
            let i = choose|i: int| 0 <= i < paths.len() && paths[i] == a;
            assert(objects[i].prefab.path == a);
        }
        if exists|i: int| 0 <= i < objects.len() && (#[trigger] objects[i]).prefab.path == a {
            let i = choose|i: int| 0 <= i < objects.len() && (#[trigger] objects[i]).prefab.path == a;
            assert(paths[i] == a);
        }
    }
    names
}

// ── Instances ────────────────────────────────────────────────────────

/// The line of an instance: its position, coordinate by coordinate, and what it is.
pub open spec fn instance_line(l: Located) -> Seq<char> {
    "  ("@ + dec(l.pos.0 as int) + ","@ + dec(l.pos.1 as int) + ","@ + dec(l.pos.2 as int) + ") "@ + prefab_notation(l.prefab)
        + "\n"@
}

proof fn lemma_instance_lines(list: Seq<Located>)
    ensures
        instance_lines(list) == list.map_values(|l: Located| instance_line(l)).flatten(),
    decreases list.len(),
{
    if list.len() > 0 {
        lemma_instance_lines(list.drop_last());
        let f = |l: Located| instance_line(l);
        lemma_mapped(list, f);
        assert(instance_lines(list) =~= instance_lines(list.drop_last()) + f(list.last()));
    }
}

/// The answer on a type gives the number of all its instances and lists them in order, from the
/// first on and no more than the limit; where some are left out it says how many are shown.
pub proof fn instances_are_listed_up_to_the_limit(index: &SpatialIndex, path: Seq<char>, limit: int)
    requires
        limit >= 0,
    ensures
        ({
            let list = index.instances(path);
            let shown = the_lesser(list.len() as int, limit);
            let lines = Seq::new(shown as nat, |i: int| instance_line(list[i])).flatten();
            let head = dec(list.len() as int) + " instances of '"@ + path + "' found"@;
            &&& list.len() == 0 ==> instances_text(index, path, limit) == "No instances of '"@ + path + "' on the map"@
            &&& 0 < list.len() <= limit ==> instances_text(index, path, limit) == head + ":\n"@ + lines
            &&& list.len() > limit ==> instances_text(index, path, limit) == head + (" (showing first "@ + dec(limit) + "):\n"@)
                + lines
        }),
{
    let list = index.instances(path);
    let shown = the_lesser(list.len() as int, limit);
    let some = at_most(list, limit);
    lemma_instance_lines(some);
    assert(some.map_values(|l: Located| instance_line(l)) =~= Seq::new(shown as nat, |i: int| instance_line(list[i])));
}

// ── What is nearby ───────────────────────────────────────────────────

/// The line of a tile: its position on the level and the paths of what stands on it, in order.
pub open spec fn near_line(index: &SpatialIndex, c: Cell) -> Seq<char> {
    "  ("@ + dec(c.0 as int) + ","@ + dec(c.1 as int) + "): "@ + joined(
        index.tile(c).map_values(|p: PrefabView| p.path),
        ", "@,
    ) + "\n"@
}

proof fn lemma_nearby_lines(index: &SpatialIndex, cells: Seq<Cell>)
    ensures
        nearby_lines(index, cells) == cells.filter(|c: Cell| index.tile(c).len() > 0).map_values(
            |c: Cell| near_line(index, c),
        ).flatten(),
    decreases cells.len(),
{
    reveal(Seq::filter);
    let p = |c: Cell| index.tile(c).len() > 0;
    let f = |c: Cell| near_line(index, c);
    if cells.len() > 0 {
        let front = cells.drop_last();
        let c = cells.last();
        lemma_nearby_lines(index, front);
        assert(tile_paths(index.tile(c)) =~= index.tile(c).map_values(|p: PrefabView| p.path));
        if p(c) {
            let all = cells.filter(p);
            assert(all == front.filter(p).push(c));
            assert(all.drop_last() =~= front.filter(p));
            lemma_mapped(all, f);
            assert(nearby_lines(index, cells) =~= nearby_lines(index, front) + f(c));
        }
    }
}

/// The answer on what is nearby gives the number of objects, and lists each tile around that
/// holds something with the paths of what stands on it.
pub proof fn tiles_nearby_are_listed(index: &SpatialIndex, c: Cell, radius: int)
    ensures
        ({
            let cells = square_around(c.0 as int, c.1 as int, c.2, radius);
            nearby_text(index, c.0, c.1, c.2, radius) == dec(index.objects_on(cells).len() as int) + " objects within "@ + dec(
                radius,
            ) + " tiles of "@ + coordinates(c) + ":\n"@ + cells.filter(|d: Cell| index.tile(d).len() > 0).map_values(
                |d: Cell| near_line(index, d),
            ).flatten()
        }),
{
    let cells = square_around(c.0 as int, c.1 as int, c.2, radius);
    lemma_nearby_lines(index, cells);
}

// ── Networks ─────────────────────────────────────────────────────────

proof fn lemma_areas_of(index: &SpatialIndex, cells: Seq<Cell>)
    ensures
        areas_of(index, cells) == cells.filter(|c: Cell| index.area_at(c) is Some).map_values(
            |c: Cell| index.area_at(c).unwrap(),
        ),
    decreases cells.len(),
{
    reveal(Seq::filter);
    let p = |c: Cell| index.area_at(c) is Some;
    let f = |c: Cell| index.area_at(c).unwrap();
    if cells.len() > 0 {
        let front = cells.drop_last();
        lemma_areas_of(index, front);
        if p(cells.last()) {
            assert(cells.filter(p) == front.filter(p).push(cells.last()));
            assert(cells.filter(p).map_values(f) =~= front.filter(p).map_values(f).push(f(cells.last())));
        }
    }
}

/// The answer on a network names it and where it was entered, gives the number of its tiles, and
/// lists each area that one of them belongs to once, in order, with how many do.
pub proof fn a_network_is_counted_by_area(index: &SpatialIndex, network: Seq<char>, c: Cell, cells: Seq<Cell>) -> (names: Seq<
    Seq<char>,
>)
    ensures
        ({
            let areas = cells.filter(|d: Cell| index.area_at(d) is Some).map_values(|d: Cell| index.area_at(d).unwrap());
            &&& in_order(names)
            &&& forall|a: Seq<char>| #[trigger] names.contains(a) <==> areas.contains(a)
            &&& cells.len() == 0 ==> network_text(index, network, c.0, c.1, c.2, cells) == "No '"@ + network
                + "' network found at "@ + coordinates(c)
            &&& cells.len() > 0 ==> network_text(index, network, c.0, c.1, c.2, cells) == "Network '"@ + network + "' from ("@
                + dec(c.0 as int) + ","@ + dec(c.1 as int) + ","@ + dec(c.2 as int) + "): "@ + dec(cells.len() as int)
                + " connected tiles\n"@ + "Areas spanned:\n"@ + names.map_values(
                |a: Seq<char>| "  "@ + a + " ("@ + dec(times(areas, a) as int) + " tiles)\n"@,
            ).flatten()
        }),
{
    lemma_areas_of(index, cells);
    let areas = areas_of(index, cells);
    let names = counts_are_listed_once_in_order(areas, " ("@, " tiles)\n"@);
    let open = " ("@;
    let close = " tiles)\n"@;
    let f = |a: Seq<char>| "  "@ + a + open + dec(times(areas, a) as int) + close;
    let g = |a: Seq<char>| "  "@ + a + " ("@ + dec(times(areas, a) as int) + " tiles)\n"@;
    assert(names.map_values(f) =~= names.map_values(g));
    names
}

// ── Searches ─────────────────────────────────────────────────────────

proof fn lemma_type_lines(index: &SpatialIndex, names: Seq<Seq<char>>)
    ensures
        type_lines(index, names) == names.map_values(
            |a: Seq<char>| "  "@ + a + " (×"@ + dec(index.instances(a).len() as int) + ")\n"@,
        ).flatten(),
    decreases names.len(),
{
    if names.len() > 0 {
        lemma_type_lines(index, names.drop_last());
        let f = |a: Seq<char>| "  "@ + a + " (×"@ + dec(index.instances(a).len() as int) + ")\n"@;
        lemma_mapped(names, f);
        assert(type_lines(index, names) =~= type_lines(index, names.drop_last()) + f(names.last()));
    }
}

/// What is left out beyond a limit is counted.
pub open spec fn rest_line(total: int, limit: int) -> Seq<char> {
    if total <= limit {
        Seq::empty()
    } else {
        "  ... and "@ + dec(total - limit) + " more\n"@
    }
}

spec fn paths_in(index: &SpatialIndex, z: int, y: int, x: int) -> Set<Seq<char>> {
    Set::new(
        |p: Seq<char>|
            exists|c: Cell|
                {
                    &&& 1 <= c.0 <= index.dims().2 && 1 <= c.1 <= index.dims().1 && 1 <= c.2 <= index.dims().0
                    &&& c.2 < z || (c.2 == z && (c.1 < y || (c.1 == y && c.0 <= x)))
                    &&& #[trigger] holds_path(index.tile(c), p)
                },
    )
}

proof fn lemma_paths_finite(index: &SpatialIndex, z: int, y: int, x: int)
    requires
        index.dims().0 < i32::MAX,
        index.dims().1 < i32::MAX,
        index.dims().2 < i32::MAX,
        0 <= z <= index.dims().0,
        0 <= y <= index.dims().1,
        0 <= x <= index.dims().2,
    ensures
        paths_in(index, z, y, x).finite(),
    decreases z, y, x,
{
    let set = paths_in(index, z, y, x);
    if z == 0 {
        assert(set =~= Set::empty());
    } else if y == 0 {
        let before = paths_in(index, z - 1, index.dims().1 as int, index.dims().2 as int);
        lemma_paths_finite(index, z - 1, index.dims().1 as int, index.dims().2 as int);
        assert(set =~= before);
    } else if x == 0 {
        let before = paths_in(index, z, y - 1, index.dims().2 as int);
        lemma_paths_finite(index, z, y - 1, index.dims().2 as int);
        assert(set =~= before);
    } else {
        let before = paths_in(index, z, y, x - 1);
        lemma_paths_finite(index, z, y, x - 1);
        let c = (x as i32, y as i32, z as i32);
        let here = tile_paths(index.tile(c));
        vstd::seq_lib::seq_to_set_is_finite(here);
        let both = before.union(here.to_set());
        assert forall|p: Seq<char>| set.contains(p) implies both.contains(p) by {
            let d = choose|d: Cell|
                {
                    &&& 1 <= d.0 <= index.dims().2 && 1 <= d.1 <= index.dims().1 && 1 <= d.2 <= index.dims().0
                    &&& d.2 < z || (d.2 == z && (d.1 < y || (d.1 == y && d.0 <= x)))
                    &&& #[trigger] holds_path(index.tile(d), p)
                };
            if d == c {
                let i = choose|i: int| 0 <= i < index.tile(c).len() && (#[trigger] index.tile(c)[i]).path == p;
                assert(here[i] == p);
            } else {
                assert(before.contains(p));
            }
        }
        vstd::set_lib::lemma_len_subset(set, both);
    }
}

proof fn lemma_matches_finite(index: &SpatialIndex, query: Seq<char>)
    requires
        index.wf(),
    ensures
        matching_paths(index, query).finite(),
{
    index.wf_facts();
    let d = index.dims();
    let all = paths_in(index, d.0 as int, d.1 as int, d.2 as int);
    lemma_paths_finite(index, d.0 as int, d.1 as int, d.2 as int);
    assert forall|p: Seq<char>| matching_paths(index, query).contains(p) implies all.contains(p) by {
        let c = choose|c: Cell| on_grid(c, index.dims()) && #[trigger] holds_path(index.tile(c), p);
        assert(holds_path(index.tile(c), p));
    }
    vstd::set_lib::lemma_len_subset(matching_paths(index, query), all);
}

/// A search lists the types on the map whose path holds the text, whatever the case: each once,
/// in order, from the first on and no more than the limit, with the number of its instances, and
/// then how many are left out.
pub proof fn a_search_lists_matching_types(index: &SpatialIndex, query: Seq<char>, limit: int) -> (names: Seq<
    Seq<char>,
>)
    requires
        index.wf(),
        limit >= 0,
    ensures
        in_order(names),
        forall|a: Seq<char>| #[trigger]
            names.contains(a) <==> {
                &&& contains_text(lowercase(a), lowercase(query))
                &&& exists|c: Cell|
                    #![trigger index.tile(c)]
                    {
                        &&& 1 <= c.0 <= index.dims().2 && 1 <= c.1 <= index.dims().1 && 1 <= c.2 <= index.dims().0
                        &&& exists|i: int| 0 <= i < index.tile(c).len() && (#[trigger] index.tile(c)[i]).path == a
                    }
            },
        search_text(index, query, limit) == "Types matching '"@ + query + "':\n"@ + Seq::new(
            the_lesser(names.len() as int, limit) as nat,
            |i: int| "  "@ + names[i] + " (×"@ + dec(index.instances(names[i]).len() as int) + ")\n"@,
        ).flatten() + rest_line(names.len() as int, limit),
{
    let set = matching_paths(index, query);
    let names = sorted_names(set);
    lemma_matches_finite(index, query);
    names_can_be_sorted(set);
    lemma_empty();
    let some = at_most(names, limit);
    lemma_type_lines(index, some);
    let f = |a: Seq<char>| "  "@ + a + " (×"@ + dec(index.instances(a).len() as int) + ")\n"@;
    assert(some.map_values(f) =~= Seq::new(
        the_lesser(names.len() as int, limit) as nat,
        |i: int| "  "@ + names[i] + " (×"@ + dec(index.instances(names[i]).len() as int) + ")\n"@,
    ));
    assert forall|a: Seq<char>| #[trigger]
        names.contains(a) <==> {
            &&& contains_text(lowercase(a), lowercase(query))
            &&& exists|c: Cell|
                #![trigger index.tile(c)]
                {
                    &&& 1 <= c.0 <= index.dims().2 && 1 <= c.1 <= index.dims().1 && 1 <= c.2 <= index.dims().0
                    &&& exists|i: int| 0 <= i < index.tile(c).len() && (#[trigger] index.tile(c)[i]).path == a
                }
        } by {
        assert(names.to_set().contains(a) <==> names.contains(a));
        assert(set.contains(a) <==> names.contains(a));
        if set.contains(a) {
            let c = choose|c: Cell| on_grid(c, index.dims()) && #[trigger] holds_path(index.tile(c), a);
            assert(index.tile(c) == index.tile(c));
        }
        if exists|c: Cell|
            #![trigger index.tile(c)]
            {
                &&& 1 <= c.0 <= index.dims().2 && 1 <= c.1 <= index.dims().1 && 1 <= c.2 <= index.dims().0
                &&& exists|i: int| 0 <= i < index.tile(c).len() && (#[trigger] index.tile(c)[i]).path == a
            } {
            let c = choose|c: Cell|
                #![trigger index.tile(c)]
                {
                    &&& 1 <= c.0 <= index.dims().2 && 1 <= c.1 <= index.dims().1 && 1 <= c.2 <= index.dims().0
                    &&& exists|i: int| 0 <= i < index.tile(c).len() && (#[trigger] index.tile(c)[i]).path == a
                };
            assert(holds_path(index.tile(c), a));
            assert(on_grid(c, index.dims()));
        }
    }
    names
}

// ── Reports ──────────────────────────────────────────────────────────

/// The line of a violation: where it is, coordinate by coordinate, the rule, the path and the
/// message.
pub open spec fn violation_line(v: ViolationView) -> Seq<char> {
    "  ("@ + dec(v.pos.0 as int) + ","@ + dec(v.pos.1 as int) + ","@ + dec(v.pos.2 as int) + ") ["@ + v.rule_id + "] "@
        + v.anchor_path + ": "@ + v.message + "\n"@
}

proof fn lemma_behind(a: Seq<char>, l: Seq<char>, x: Seq<char>)
    ensures
        a + l + x == a + (l + x),
{
    assert(a + l + x =~= a + (l + x));
}

proof fn lemma_violation_behind(a: Seq<char>, v: ViolationView)
    ensures
        a + "  ("@ + dec(v.pos.0 as int) + ","@ + dec(v.pos.1 as int) + ","@ + dec(v.pos.2 as int) + ") ["@ + v.rule_id
            + "] "@ + v.anchor_path + ": "@ + v.message + "\n"@ == a + violation_line(v),
{
    let l1 = "  ("@;
    lemma_behind(a, l1, dec(v.pos.0 as int));
    let l2 = l1 + dec(v.pos.0 as int);
    lemma_behind(a, l2, ","@);
    let l3 = l2 + ","@;
    lemma_behind(a, l3, dec(v.pos.1 as int));
    let l4 = l3 + dec(v.pos.1 as int);
    lemma_behind(a, l4, ","@);
    let l5 = l4 + ","@;
    lemma_behind(a, l5, dec(v.pos.2 as int));
    let l6 = l5 + dec(v.pos.2 as int);
    lemma_behind(a, l6, ") ["@);
    let l7 = l6 + ") ["@;
    lemma_behind(a, l7, v.rule_id);
    let l8 = l7 + v.rule_id;
    lemma_behind(a, l8, "] "@);
    let l9 = l8 + "] "@;
    lemma_behind(a, l9, v.anchor_path);
    let l10 = l9 + v.anchor_path;
    lemma_behind(a, l10, ": "@);
    let l11 = l10 + ": "@;
    lemma_behind(a, l11, v.message);
    let l12 = l11 + v.message;
    lemma_behind(a, l12, "\n"@);
}

proof fn lemma_violation_lines(list: Seq<ViolationView>)
    ensures
        violation_lines(list) == list.map_values(|v: ViolationView| violation_line(v)).flatten(),
    decreases list.len(),
{
    if list.len() > 0 {
        lemma_violation_lines(list.drop_last());
        let f = |v: ViolationView| violation_line(v);
        lemma_mapped(list, f);
        lemma_violation_behind(violation_lines(list.drop_last()), list.last());
    }
}

/// The violations of one severity as a report gives them: how many there are, the first of them
/// up to what the limit leaves, and how many are left out.
pub open spec fn severity_section(some: Seq<ViolationView>, mark: Seq<char>, noun: Seq<char>, shown: int) -> Seq<char> {
    if some.len() == 0 {
        Seq::empty()
    } else {
        "\n"@ + mark + " "@ + dec(some.len() as int) + noun + Seq::new(shown as nat, |i: int| violation_line(some[i])).flatten()
            + rest_line(some.len() as int, shown)
    }
}

proof fn lemma_severity(list: Seq<ViolationView>, severity: Seq<char>, mark: Seq<char>, noun: Seq<char>, limit: int)
    requires
        limit >= 0,
    ensures
        ({
            let some = list.filter(|v: ViolationView| v.severity == severity);
            severity_text(list, severity, mark, noun, limit) == severity_section(
                some,
                mark,
                noun,
                the_lesser(some.len() as int, limit),
            )
        }),
{
    let p = |v: ViolationView| v.severity == severity;
    let q = crate::tools::of_severity(severity);
    lemma_same_filter(list, p, q);
    let some = list.filter(p);
    let shown = the_lesser(some.len() as int, limit);
    let first = at_most(some, limit);
    lemma_empty();
    lemma_violation_lines(first);
    let f = |v: ViolationView| violation_line(v);
    assert(first.map_values(f) =~= Seq::new(shown as nat, |i: int| violation_line(some[i])));
    assert(more_text(some.len() as int, limit) == rest_line(some.len() as int, shown));
}

proof fn lemma_same_filter<T>(list: Seq<T>, p: spec_fn(T) -> bool, q: spec_fn(T) -> bool)
    requires
        forall|x: T| #[trigger] p(x) == q(x),
    ensures
        list.filter(p) == list.filter(q),
    decreases list.len(),
{
    reveal(Seq::filter);
    if list.len() > 0 {
        lemma_same_filter(list.drop_last(), p, q);
        assert(p(list.last()) == q(list.last()));
    }
}

proof fn lemma_error_lines(list: Seq<Seq<char>>)
    ensures
        error_lines(list) == list.map_values(|e: Seq<char>| "  ⚠ "@ + e + "\n"@).flatten(),
    decreases list.len(),
{
    if list.len() > 0 {
        lemma_error_lines(list.drop_last());
        let f = |e: Seq<char>| "  ⚠ "@ + e + "\n"@;
        lemma_mapped(list, f);
        assert(error_lines(list) =~= error_lines(list.drop_last()) + f(list.last()));
    }
}

/// The errors of an evaluation as a report gives them: how many, and each on a line.
pub open spec fn errors_section(list: Seq<Seq<char>>) -> Seq<char> {
    if list.len() == 0 {
        Seq::empty()
    } else {
        "\n"@ + dec(list.len() as int) + " errors during evaluation:\n"@ + list.map_values(
            |e: Seq<char>| "  ⚠ "@ + e + "\n"@,
        ).flatten()
    }
}

/// A report counts the violations of the rules whose id begins with the filter, and says so
/// where there are none. Otherwise it lists errors first, then warnings, then the rest that is
/// for information, and all of them together no more than the limit: each severity takes what
/// those before it left.
pub proof fn a_report_lists_by_severity(result: ResultView, filter: Option<Seq<char>>, limit: int)
    requires
        limit >= 0,
    ensures
        ({
            let all = result.violations.filter(
                |v: ViolationView| filter is None || starts_with(v.rule_id, filter.unwrap()),
            );
            let errors = all.filter(|v: ViolationView| v.severity == "error"@);
            let warnings = all.filter(|v: ViolationView| v.severity == "warning"@);
            let infos = all.filter(|v: ViolationView| v.severity == "info"@);
            let e = the_lesser(errors.len() as int, limit);
            let w = the_lesser(warnings.len() as int, limit - e);
            let i = the_lesser(infos.len() as int, limit - e - w);
            let head = "Validation complete: "@ + dec(result.rules_evaluated) + " rules evaluated, "@ + dec(
                result.anchors_checked,
            ) + " anchors checked, "@ + dec(all.len() as int) + " violations\n"@ + errors_section(result.errors);
            &&& e + w + i <= limit
            &&& all.len() == 0 ==> report_text(result, filter, limit) == head + "\n✅ No violations found.\n"@
            &&& all.len() > 0 ==> report_text(result, filter, limit) == head + (severity_section(errors, "❌"@, " errors:\n"@, e)
                + severity_section(warnings, "⚠️"@, " warnings:\n"@, w) + severity_section(infos, "ℹ️"@, " info:\n"@, i))
        }),
{
    let p = |v: ViolationView| filter is None || starts_with(v.rule_id, filter.unwrap());
    lemma_same_filter(result.violations, p, crate::tools::by_rule(filter));
    let all = result.violations.filter(p);
    lemma_empty();
    lemma_error_lines(result.errors);
    let pe = |v: ViolationView| v.severity == "error"@;
    let pw = |v: ViolationView| v.severity == "warning"@;
    let pi = |v: ViolationView| v.severity == "info"@;
    lemma_same_filter(all, pe, crate::tools::of_severity("error"@));
    lemma_same_filter(all, pw, crate::tools::of_severity("warning"@));
    lemma_same_filter(all, pi, crate::tools::of_severity("info"@));
    let e = the_lesser(all.filter(pe).len() as int, limit);
    let w = the_lesser(all.filter(pw).len() as int, limit - e);
    lemma_severity(all, "error"@, "❌"@, " errors:\n"@, limit);
    lemma_severity(all, "warning"@, "⚠️"@, " warnings:\n"@, limit - e);
    lemma_severity(all, "info"@, "ℹ️"@, " info:\n"@, limit - e - w);
    let re = "error"@;
    let rw = "warning"@;
    let ri = "info"@;
    lemma_same_filter(all, |v: ViolationView| v.severity == re, pe);
    lemma_same_filter(all, |v: ViolationView| v.severity == rw, pw);
    lemma_same_filter(all, |v: ViolationView| v.severity == ri, pi);
}

proof fn lemma_file_lines(files: Seq<RuleFileSize>)
    ensures
        file_lines(files) == files.map_values(
            |f: RuleFileSize| "  "@ + f.name@ + " ("@ + dec(f.bytes as int) + " bytes)\n"@,
        ).flatten(),
    decreases files.len(),
{
    if files.len() > 0 {
        lemma_file_lines(files.drop_last());
        let f = |f: RuleFileSize| "  "@ + f.name@ + " ("@ + dec(f.bytes as int) + " bytes)\n"@;
        lemma_mapped(files, f);
        assert(file_lines(files) =~= file_lines(files.drop_last()) + f(files.last()));
    }
}

/// The list of rule files counts them and gives each with its size, in order.
pub proof fn rule_files_are_listed(files: Seq<RuleFileSize>)
    ensures
        files.len() == 0 ==> files_text(files) == "No .js rule files found in rules directory."@,
        files.len() > 0 ==> files_text(files) == dec(files.len() as int) + " rule files found:\n"@ + files.map_values(
            |f: RuleFileSize| "  "@ + f.name@ + " ("@ + dec(f.bytes as int) + " bytes)\n"@,
        ).flatten(),
{
    lemma_file_lines(files);
}

proof fn lemma_icon_lines(list: Seq<Seq<char>>)
    ensures
        icon_lines(list) == list.map_values(|e: Seq<char>| "  "@ + e + "\n"@).flatten(),
    decreases list.len(),
{
    if list.len() > 0 {
        lemma_icon_lines(list.drop_last());
        let f = |e: Seq<char>| "  "@ + e + "\n"@;
        lemma_mapped(list, f);
        assert(icon_lines(list) =~= icon_lines(list.drop_last()) + f(list.last()));
    }
}

/// Icons that could not be loaded are counted; the first ten are listed, and then how many more
/// there are.
pub proof fn icon_errors_are_listed_up_to_ten(list: Seq<Seq<char>>)
    ensures
        list.len() == 0 ==> icons_text(list).len() == 0,
        list.len() > 0 ==> icons_text(list) == "\n⚠ "@ + dec(list.len() as int) + " icon errors (missing sprites):\n"@ + Seq::new(
            the_lesser(list.len() as int, 10) as nat,
            |i: int| "  "@ + list[i] + "\n"@,
        ).flatten() + rest_line(list.len() as int, 10),
{
    lemma_empty();
    let first = at_most(list, 10);
    lemma_icon_lines(first);
    let f = |e: Seq<char>| "  "@ + e + "\n"@;
    assert(first.map_values(f) =~= Seq::new(
        the_lesser(list.len() as int, 10) as nat,
        |i: int| "  "@ + list[i] + "\n"@,
    ));
}

/// The size of a region counts both of its ends and is never less than one tile.
pub proof fn a_region_counts_both_ends(a: int, b: int)
    ensures
        region_size(a, a) == 1,
        b >= a ==> region_size(a, b + 1) == region_size(a, b) + 1,
        b < a ==> region_size(a, b) == 1,
{
}

/// A region is refused where it is wider or higher than 64 tiles, and nowhere else; the refusal
/// gives its width and then its height.
pub proof fn regions_are_refused_beyond_their_limit(width: int, height: int)
    ensures
        region_refusal(width, height) is None <==> width <= 64 && height <= 64,
        region_refusal(width, height) is Some ==> starts_with(
            region_refusal(width, height).unwrap(),
            "Region too large: "@ + dec(width) + "x"@ + dec(height),
        ),
{
    if region_refusal(width, height) is Some {
        let head = "Region too large: "@ + dec(width) + "x"@ + dec(height);
        assert(region_refusal(width, height).unwrap().take(head.len() as int) =~= head);
    }
}

/// What is named counts, and where nothing is: the first level, three tiles around, fifty instances,
/// twenty types, a hundred violations.
pub proof fn what_is_not_named_has_a_default(n: i32, m: usize)
    ensures
        level_asked(None) == 1 && level_asked(Some(n)) == n,
        level_rendered(None) == 1 && level_rendered(Some(m)) == m,
        radius_asked(None) == 3 && radius_asked(Some(n)) == n,
        instances_asked(None) == 50 && instances_asked(Some(m)) == m,
        types_asked(None) == 20 && types_asked(Some(m)) == m,
        violations_asked(None) == 100 && violations_asked(Some(m)) == m,
{
}

/// An image is reported by its size in pixels, width first, then by its size in tiles, width first;
/// the image itself comes last.
pub proof fn an_image_is_reported_by_its_size(r: &RenderResult) -> (icons: Seq<char>)
    ensures
        ({
            let pixels = dec(r.width_px as int) + "x"@ + dec(r.height_px as int) + " px ("@;
            let tiles = dec(r.width_tiles as int) + "x"@ + dec(r.height_tiles as int) + " tiles)\n"@;
            image_text(r) == pixels + tiles + icons + "\n[IMAGE:base64]\n"@ + r.base64_png@
        }),
        icons == icons_text(texts(r.icon_errors@)),
        r.icon_errors@.len() == 0 ==> icons.len() == 0,
{
    reveal_strlit("");
    let pixels = dec(r.width_px as int) + "x"@ + dec(r.height_px as int) + " px ("@;
    let tiles = dec(r.width_tiles as int) + "x"@ + dec(r.height_tiles as int) + " tiles)\n"@;
    let icons = icons_text(texts(r.icon_errors@));
    lemma_behind(pixels, dec(r.width_tiles as int), "x"@);
    lemma_behind(pixels, dec(r.width_tiles as int) + "x"@, dec(r.height_tiles as int));
    lemma_behind(pixels, dec(r.width_tiles as int) + "x"@ + dec(r.height_tiles as int), " tiles)\n"@);
    icons
}

} // verus!
