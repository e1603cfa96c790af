//! The query tools: what they ask of the map, and the text that they answer.

use crate::builder::opt_str;
use crate::counting::{tally, tally_push};
use crate::dmm::on_map;
use crate::index::{cells_around, located_views, square_around, Located, LocatedPrefab, SpatialIndex};
use crate::names::{sorted_names, NameTable};
use crate::prefab::{opt_text, prefab_notation, prefab_views, Prefab, PrefabView};
use crate::render::RenderResult;
use crate::rules::{violation_views, ValidationResult, Violation, ViolationView};
use crate::tables::Cell;
use crate::text::{
    contains_text, dec, has_prefix, has_text, i32_text, join_texts, joined, lowercase, same_text, starts_with, texts,
    to_lowercase, u64_text, usize_text,
};
use vstd::prelude::*;

verus! {

// ── Parameters ───────────────────────────────────────────────────────

pub struct QueryTileParams {
    pub x: i32,
    pub y: i32,
    /// Z level (default 1)
    pub z: Option<i32>,
}

pub struct QueryAreaParams {
    /// Area type path, such as `/area/station/engineering/main`
    pub area_path: String,
}

pub struct QueryTypeParams {
    /// Object type path; subtypes match
    pub type_path: String,
    /// Maximum results to return (default 50)
    pub limit: Option<usize>,
}

pub struct QueryAdjacentParams {
    pub x: i32,
    pub y: i32,
    /// Z level (default 1)
    pub z: Option<i32>,
}

pub struct QueryNearbyParams {
    pub x: i32,
    pub y: i32,
    /// Z level (default 1)
    pub z: Option<i32>,
    /// Search radius in tiles (default 3)
    pub radius: Option<i32>,
}

pub struct TraceNetworkParams {
    pub x: i32,
    pub y: i32,
    /// Z level (default 1)
    pub z: Option<i32>,
    /// Network type path prefix, such as `/obj/structure/cable`
    pub network_type: String,
}

pub struct SearchObjectsParams {
    /// Matched against object type paths
    pub query: String,
    /// Maximum results to return (default 20)
    pub limit: Option<usize>,
}

pub struct ListAreasParams {
    /// Only return areas with this prefix
    pub prefix: Option<String>,
}

pub struct ValidateRulesParams {
    /// Only report rules whose ID has this prefix
    pub filter: Option<String>,
    /// Maximum violations to return (default 100)
    pub limit: Option<usize>,
}

pub struct ListRulesParams {}

pub struct RenderRegionParams {
    /// Left column, from 1
    pub x1: usize,
    /// Bottom row, from 1
    pub y1: usize,
    /// Right column
    pub x2: usize,
    /// Top row
    pub y2: usize,
    /// Z level (default 1)
    pub z: Option<usize>,
    /// `pipes`, `cables`, `pipes-and-cables`, or names of render passes
    pub filter: Option<String>,
}

pub struct RenderAreaParams {
    /// Area type path, such as `/area/station/engineering/main`
    pub area_path: String,
    /// `pipes`, `cables`, `pipes-and-cables`, or names of render passes
    pub filter: Option<String>,
}

/// An optional number, or a default.
pub open spec fn number_or(v: Option<i32>, d: int) -> int {
    match v {
        Some(n) => n as int,
        None => d,
    }
}

/// An optional size, or a default.
pub open spec fn size_or(v: Option<usize>, d: int) -> int {
    match v {
        Some(n) => n as int,
        None => d,
    }
}

/// The level that is asked about: the first where none is named.
pub open spec fn level_asked(z: Option<i32>) -> i32 {
    number_or(z, 1) as i32
}

/// The level that is rendered: the first where none is named.
pub open spec fn level_rendered(z: Option<usize>) -> int {
    size_or(z, 1)
}

/// The radius that is asked about: three tiles where none is named.
pub open spec fn radius_asked(radius: Option<i32>) -> int {
    number_or(radius, 3)
}

/// How many instances are asked for.
pub open spec fn instances_asked(limit: Option<usize>) -> int {
    size_or(limit, 50)
}

/// How many types are asked for.
pub open spec fn types_asked(limit: Option<usize>) -> int {
    size_or(limit, 20)
}

/// How many violations are asked for.
pub open spec fn violations_asked(limit: Option<usize>) -> int {
    size_or(limit, 100)
}

fn pick(v: Option<i32>, d: i32) -> (r: i32)
    ensures
        r == number_or(v, d as int),
{
    match v {
        Some(n) => n,
        None => d,
    }
}

fn pick_size(v: Option<usize>, d: usize) -> (r: usize)
    ensures
        r == size_or(v, d as int),
{
    match v {
        Some(n) => n,
        None => d,
    }
}

// ── query_tile ───────────────────────────────────────────────────────

/// Prefabs, one to a line.
pub open spec fn prefab_lines(list: Seq<PrefabView>, indent: Seq<char>) -> Seq<char>
    decreases list.len(),
{
    if list.len() == 0 {
        Seq::empty()
    } else {
        prefab_lines(list.drop_last(), indent) + indent + prefab_notation(list.last()) + "\n"@
    }
}

fn write_prefabs(list: &[Prefab], indent: &str) -> (r: String)
    ensures
        r@ == prefab_lines(prefab_views(list@), indent@),
{
    let ghost all = prefab_views(list@);
    let mut out = String::new();
    let mut i: usize = 0;
    while i < list.len()
        invariant
            i <= list@.len(),
            all == prefab_views(list@),
            out@ == prefab_lines(all.take(i as int), indent@),
        decreases list@.len() - i,
    {
        assert(all.take(i + 1).drop_last() =~= all.take(i as int));
        out.append(indent);
        out.append(list[i].notation().as_str());
        out.append("\n");
        i = i + 1;
    }
    assert(all.take(i as int) =~= all);
    out
}

/// A position as text: `(x, y, z)`.
pub open spec fn place_text(x: int, y: int, z: int) -> Seq<char> {
    "("@ + dec(x) + ", "@ + dec(y) + ", "@ + dec(z) + ")"@
}

fn write_place(x: i32, y: i32, z: i32) -> (r: String)
    ensures
        r@ == place_text(x as int, y as int, z as int),
{
    let mut out = "(".to_string();
    out.append(i32_text(x).as_str());
    out.append(", ");
    out.append(i32_text(y).as_str());
    out.append(", ");
    out.append(i32_text(z).as_str());
    out.append(")");
    out
}

/// What a tile holds, as text.
pub open spec fn tile_text(index: &SpatialIndex, x: i32, y: i32, z: i32) -> Seq<char> {
    let list = index.tile((x, y, z));
    if list.len() == 0 {
        "No objects at "@ + place_text(x as int, y as int, z as int)
    } else {
        "Objects at "@ + place_text(x as int, y as int, z as int) + ":\n"@ + prefab_lines(list, "  "@)
    }
}

/// Everything on a tile.
pub fn query_tile(index: &SpatialIndex, params: &QueryTileParams) -> (r: String)
    requires
        index.wf(),
    ensures
        r@ == tile_text(index, params.x, params.y, level_asked(params.z)),
{
    let z: i32 = pick(params.z, 1);
    let objects = index.at(params.x, params.y, z);
    assert(prefab_views(objects@).len() == objects@.len());
    if objects.len() == 0 {
        let mut out = "No objects at ".to_string();
        out.append(write_place(params.x, params.y, z).as_str());
        return out;
    }
    let mut out = "Objects at ".to_string();
    out.append(write_place(params.x, params.y, z).as_str());
    out.append(":\n");
    out.append(write_prefabs(objects, "  ").as_str());
    out
}

// ── list_areas ───────────────────────────────────────────────────────

/// Areas with the number of their tiles, one to a line.
pub open spec fn area_lines(index: &SpatialIndex, names: Seq<Seq<char>>) -> Seq<char>
    decreases names.len(),
{
    if names.len() == 0 {
        Seq::empty()
    } else {
        area_lines(index, names.drop_last()) + "  "@ + names.last() + " ("@ + dec(
            index.area_positions(names.last()).len() as int,
        ) + " tiles)\n"@
    }
}

/// The areas of a map whose path begins with a prefix.
pub open spec fn areas_with(index: &SpatialIndex, prefix: Option<Seq<char>>) -> Set<Seq<char>> {
    Set::new(
        |a: Seq<char>|
            index.area_paths().contains(a) && match prefix {
                Some(p) => starts_with(a, p),
                None => true,
            },
    )
}

/// The list of areas, in the order of their paths.
pub open spec fn areas_text(index: &SpatialIndex, prefix: Option<Seq<char>>) -> Seq<char> {
    let names = sorted_names(areas_with(index, prefix));
    dec(names.len() as int) + " areas found:\n"@ + area_lines(index, names)
}

/// Lists the areas of a map.
pub fn list_areas(index: &SpatialIndex, params: &ListAreasParams) -> (r: String)
    requires
        index.wf(),
    ensures
        r@ == areas_text(index, opt_text(params.prefix)),
{
    let areas = index.all_areas();
    let ghost paths = index.area_paths();
    let ghost prefix = opt_text(params.prefix);
    let mut table: NameTable<bool> = NameTable::new();
    let mut i: usize = 0;
    assert(areas@.map_values(|s: &str| s@).len() == areas@.len());
    while i < areas.len()
        invariant
            i <= areas@.len(),
            areas@.map_values(|s: &str| s@) == paths,
            areas@.len() == paths.len(),
            prefix == opt_text(params.prefix),
            table.wf(),
            forall|a: Seq<char>| #[trigger] table@.contains_key(a) <==> paths.take(i as int).contains(a) && match prefix {
                Some(p) => starts_with(a, p),
                None => true,
            },
        decreases areas@.len() - i,
    {
        let area = areas[i];
        let ghost before = table@;
        assert(areas@.map_values(|s: &str| s@)[i as int] == area@);
        let keep = match &params.prefix {
            Some(p) => has_prefix(area, p.as_str()),
            None => true,
        };
        if keep {
            table.insert(area.to_string(), true);
        }
        assert forall|a: Seq<char>| #[trigger] table@.contains_key(a) <==> paths.take(i + 1).contains(a) && match prefix {
            Some(p) => starts_with(a, p),
            None => true,
        } by {
            lemma_take_contains(paths, i as int, a);
            assert(before.contains_key(a) <==> paths.take(i as int).contains(a) && match prefix {
                Some(p) => starts_with(a, p),
                None => true,
            });
        }
        i = i + 1;
    }
    assert(paths.take(i as int) =~= paths);
    let ghost names = table.names();
    proof {
        table.names_hold();
        assert(table@.dom() =~= areas_with(index, prefix));
    }
    let mut lines = String::new();
    let mut k: usize = 0;
    while k < table.len()
        invariant
            k <= names.len(),
            index.wf(),
            table.wf(),
            names == table.names(),
            lines@ == area_lines(index, names.take(k as int)),
        decreases names.len() - k,
    {
        assert(names.take(k + 1).drop_last() =~= names.take(k as int));
        let area = table.name_at(k);
        lines.append("  ");
        lines.append(area);
        lines.append(" (");
        lines.append(usize_text(index.area_tiles(area).len()).as_str());
        lines.append(" tiles)\n");
        k = k + 1;
    }
    assert(names.take(k as int) =~= names);
    let mut out = usize_text(table.len());
    out.append(" areas found:\n");
    out.append(lines.as_str());
    out
}

proof fn lemma_take_contains<T>(s: Seq<T>, i: int, a: T)
    requires
        0 <= i < s.len(),
    ensures
        s.take(i + 1).contains(a) <==> s.take(i).contains(a) || a == s[i],
{
    if s.take(i).contains(a) {
        let k = choose|k: int| 0 <= k < s.take(i).len() && s.take(i)[k] == a;
        assert(s.take(i + 1)[k] == a);
    }
    if a == s[i] {
        assert(s.take(i + 1)[i] == a);
    }
    let longer = s.take(i + 1);
    if longer.contains(a) {
        let k = choose|k: int| 0 <= k < longer.len() && longer[k] == a;
        if k < i {
            assert(s.take(i)[k] == a);
        }
    }
}

// ── Counting by name ─────────────────────────────────────────────────

/// Whether a text is the given one.
pub open spec fn is_text(a: Seq<char>) -> spec_fn(Seq<char>) -> bool {
    |b: Seq<char>| b == a
}

/// How often a text occurs.
pub open spec fn occurrences(all: Seq<Seq<char>>, a: Seq<char>) -> nat {
    tally(all, is_text(a))
}

/// Texts with how often they occur, one to a line.
pub open spec fn count_lines(all: Seq<Seq<char>>, names: Seq<Seq<char>>, open: Seq<char>, close: Seq<char>) -> Seq<char>
    decreases names.len(),
{
    if names.len() == 0 {
        Seq::empty()
    } else {
        count_lines(all, names.drop_last(), open, close) + "  "@ + names.last() + open + dec(
            occurrences(all, names.last()) as int,
        ) + close
    }
}

/// Texts with how often they occur, in order, one to a line.
pub open spec fn counts_text(all: Seq<Seq<char>>, open: Seq<char>, close: Seq<char>) -> Seq<char> {
    count_lines(all, sorted_names(all.to_set()), open, close)
}

proof fn lemma_tally_bound<T>(s: Seq<T>, p: spec_fn(T) -> bool)
    ensures
        tally(s, p) <= s.len(),
    decreases s.len(),
{
    if s.len() > 0 {
        lemma_tally_bound(s.drop_last(), p);
    }
}

fn write_counts(all: &Vec<String>, open: &str, close: &str) -> (r: String)
    ensures
        r@ == counts_text(texts(all@), open@, close@),
{
    let ghost list = texts(all@);
    let mut table: NameTable<usize> = NameTable::new();
    let mut i: usize = 0;
    while i < all.len()
        invariant
            i <= all@.len(),
            list == texts(all@),
            table.wf(),
            forall|a: Seq<char>| #[trigger] table@.contains_key(a) <==> list.take(i as int).contains(a),
            forall|a: Seq<char>| #[trigger] table@.contains_key(a) ==> table@[a] == occurrences(list.take(i as int), a),
            forall|a: Seq<char>| !(#[trigger] table@.contains_key(a)) ==> occurrences(list.take(i as int), a) == 0,
        decreases all@.len() - i,
    {
        let name = &all[i];
        let ghost before = table@;
        let ghost front = list.take(i as int);
        proof {
            assert(list.take(i + 1) =~= front.push(name@));
            lemma_tally_bound(front, is_text(name@));
        }
        let count: usize = match table.get(name.as_str()) {
            Some(n) => *n,
            None => 0,
        };
        table.insert(name.clone(), count + 1);
        proof {
            assert forall|a: Seq<char>| #[trigger] table@.contains_key(a) <==> list.take(i + 1).contains(a) by {
                lemma_take_contains(list, i as int, a);
                assert(before.contains_key(a) <==> front.contains(a));
            }
            assert forall|a: Seq<char>| #[trigger] table@.contains_key(a) implies table@[a] == occurrences(list.take(i + 1), a) by {
                tally_push(front, name@, is_text(a));
                assert(before.contains_key(a) || a == name@);
            }
            assert forall|a: Seq<char>| !(#[trigger] table@.contains_key(a)) implies occurrences(list.take(i + 1), a) == 0 by {
                tally_push(front, name@, is_text(a));
                assert(!before.contains_key(a));
            }
        }
        i = i + 1;
    }
    assert(list.take(i as int) =~= list);
    let ghost names = table.names();
    proof {
        table.names_hold();
        assert(table@.dom() =~= list.to_set());
    }
    let mut out = String::new();
    let mut k: usize = 0;
    while k < table.len()
        invariant
            k <= names.len(),
            table.wf(),
            names == table.names(),
            forall|a: Seq<char>| #[trigger] table@.contains_key(a) ==> table@[a] == occurrences(list, a),
            out@ == count_lines(list, names.take(k as int), open@, close@),
        decreases names.len() - k,
    {
        assert(names.take(k + 1).drop_last() =~= names.take(k as int));
        let n: usize = *table.value_at(k);
        out.append("  ");
        out.append(table.name_at(k));
        out.append(open);
        out.append(usize_text(n).as_str());
        out.append(close);
        k = k + 1;
    }
    assert(names.take(k as int) =~= names);
    out
}

/// The paths of located prefabs.
pub open spec fn paths_of(list: Seq<Located>) -> Seq<Seq<char>> {
    list.map_values(|l: Located| l.prefab.path)
}

fn collect_paths(list: &Vec<LocatedPrefab>) -> (r: Vec<String>)
    ensures
        texts(r@) == paths_of(located_views(list@)),
{
    let ghost want = paths_of(located_views(list@));
    let mut out: Vec<String> = Vec::new();
    let mut i: usize = 0;
    while i < list.len()
        invariant
            i <= list@.len(),
            want == paths_of(located_views(list@)),
            texts(out@) == want.take(i as int),
        decreases list@.len() - i,
    {
        let ghost before = texts(out@);
        out.push(list[i].prefab.path.clone());
        assert(texts(out@) =~= before.push(want[i as int]));
        i = i + 1;
        assert(texts(out@) =~= want.take(i as int));
    }
    assert(want.take(i as int) =~= want);
    out
}

// ── query_area ───────────────────────────────────────────────────────

/// What an area holds, by type, as text.
pub open spec fn area_text(index: &SpatialIndex, path: Seq<char>) -> Seq<char> {
    let objects = index.objects_on(index.area_positions(path));
    if objects.len() == 0 {
        "No objects in area '"@ + path + "' (area may not exist)"@
    } else {
        "Area '"@ + path + "': "@ + dec(index.area_positions(path).len() as int) + " tiles, "@ + dec(objects.len() as int)
            + " objects\n\nObject types:\n"@ + counts_text(paths_of(objects), " ×"@, "\n"@)
    }
}

/// Everything in an area, by type.
pub fn query_area(index: &SpatialIndex, params: &QueryAreaParams) -> (r: String)
    requires
        index.wf(),
    ensures
        r@ == area_text(index, params.area_path@),
{
    let objects = index.objects_in_area(params.area_path.as_str());
    assert(located_views(objects@).len() == objects@.len());
    if objects.len() == 0 {
        let mut out = "No objects in area '".to_string();
        out.append(params.area_path.as_str());
        out.append("' (area may not exist)");
        return out;
    }
    let tiles = index.area_tiles(params.area_path.as_str());
    let mut out = "Area '".to_string();
    out.append(params.area_path.as_str());
    out.append("': ");
    out.append(usize_text(tiles.len()).as_str());
    out.append(" tiles, ");
    out.append(usize_text(objects.len()).as_str());
    out.append(" objects\n\nObject types:\n");
    let paths = collect_paths(&objects);
    out.append(write_counts(&paths, " ×", "\n").as_str());
    out
}

// ── query_object_type ────────────────────────────────────────────────

/// Instances with their positions, one to a line.
pub open spec fn instance_lines(list: Seq<Located>) -> Seq<char>
    decreases list.len(),
{
    if list.len() == 0 {
        Seq::empty()
    } else {
        let l = list.last();
        instance_lines(list.drop_last()) + "  ("@ + dec(l.pos.0 as int) + ","@ + dec(l.pos.1 as int) + ","@ + dec(
            l.pos.2 as int,
        ) + ") "@ + prefab_notation(l.prefab) + "\n"@
    }
}

/// The first items of a list.
pub open spec fn at_most<T>(list: Seq<T>, limit: int) -> Seq<T> {
    if list.len() <= limit {
        list
    } else {
        list.take(limit)
    }
}

/// The instances of a type, as text.
pub open spec fn instances_text(index: &SpatialIndex, path: Seq<char>, limit: int) -> Seq<char> {
    let list = index.instances(path);
    if list.len() == 0 {
        "No instances of '"@ + path + "' on the map"@
    } else {
        dec(list.len() as int) + " instances of '"@ + path + "' found"@ + (if list.len() > limit {
            " (showing first "@ + dec(limit) + "):\n"@
        } else {
            ":\n"@
        }) + instance_lines(at_most(list, limit))
    }
}

/// The instances of a type, subtypes included.
pub fn query_object_type(index: &SpatialIndex, params: &QueryTypeParams) -> (r: String)
    requires
        index.wf(),
    ensures
        r@ == instances_text(index, params.type_path@, instances_asked(params.limit)),
{
    let limit: usize = pick_size(params.limit, 50);
    let instances = index.instances_of(params.type_path.as_str());
    let ghost list = located_views(instances@);
    assert(list.len() == instances@.len());
    let total: usize = instances.len();
    if total == 0 {
        let mut out = "No instances of '".to_string();
        out.append(params.type_path.as_str());
        out.append("' on the map");
        return out;
    }
    let mut out = usize_text(total);
    out.append(" instances of '");
    out.append(params.type_path.as_str());
    out.append("' found");
    if total > limit {
        let mut part = " (showing first ".to_string();
        part.append(usize_text(limit).as_str());
        part.append("):\n");
        out.append(part.as_str());
    } else {
        out.append(":\n");
    }
    let shown: usize = if total > limit { limit } else { total };
    let mut lines = String::new();
    let mut i: usize = 0;
    while i < shown
        invariant
            i <= shown <= instances@.len(),
            list == located_views(instances@),
            lines@ == instance_lines(list.take(i as int)),
        decreases shown - i,
    {
        assert(list.take(i + 1).drop_last() =~= list.take(i as int));
        let l = &instances[i];
        lines.append("  (");
        lines.append(i32_text(l.x).as_str());
        lines.append(",");
        lines.append(i32_text(l.y).as_str());
        lines.append(",");
        lines.append(i32_text(l.z).as_str());
        lines.append(") ");
        lines.append(l.prefab.notation().as_str());
        lines.append("\n");
        i = i + 1;
    }
    assert(list.take(shown as int) =~= at_most(list, limit as int));
    out.append(lines.as_str());
    out
}

// ── query_adjacent ───────────────────────────────────────────────────

/// What stands to one side of a tile.
pub open spec fn side_text(index: &SpatialIndex, x: i32, y: i32, z: i32, side: Seq<char>) -> Seq<char> {
    let list = index.tile((x, y, z));
    if list.len() == 0 {
        ""@
    } else {
        "  "@ + side + " ("@ + dec(x as int) + ","@ + dec(y as int) + "):\n"@ + prefab_lines(list, "    "@)
    }
}

/// What stands on the four tiles next to a tile.
pub open spec fn adjacent_text(index: &SpatialIndex, x: i32, y: i32, z: i32) -> Seq<char> {
    "Adjacent to "@ + place_text(x as int, y as int, z as int) + ":\n"@ + side_text(index, x, (y + 1) as i32, z, "North"@)
        + side_text(index, x, (y - 1) as i32, z, "South"@) + side_text(index, (x + 1) as i32, y, z, "East"@) + side_text(
        index,
        (x - 1) as i32,
        y,
        z,
        "West"@,
    )
}

fn write_side(index: &SpatialIndex, x: i32, y: i32, z: i32, side: &str) -> (r: String)
    requires
        index.wf(),
    ensures
        r@ == side_text(index, x, y, z, side@),
{
    let objects = index.at(x, y, z);
    assert(prefab_views(objects@).len() == objects@.len());
    if objects.len() == 0 {
        return "".to_string();
    }
    let mut out = "  ".to_string();
    out.append(side);
    out.append(" (");
    out.append(i32_text(x).as_str());
    out.append(",");
    out.append(i32_text(y).as_str());
    out.append("):\n");
    out.append(write_prefabs(objects, "    ").as_str());
    out
}

/// Everything on the tiles next to a tile.
pub fn query_adjacent(index: &SpatialIndex, params: &QueryAdjacentParams) -> (r: String)
    requires
        index.wf(),
        i32::MIN < params.x < i32::MAX,
        i32::MIN < params.y < i32::MAX,
    ensures
        r@ == adjacent_text(index, params.x, params.y, level_asked(params.z)),
{
    let z: i32 = pick(params.z, 1);
    let mut out = "Adjacent to ".to_string();
    out.append(write_place(params.x, params.y, z).as_str());
    out.append(":\n");
    out.append(write_side(index, params.x, params.y + 1, z, "North").as_str());
    out.append(write_side(index, params.x, params.y - 1, z, "South").as_str());
    out.append(write_side(index, params.x + 1, params.y, z, "East").as_str());
    out.append(write_side(index, params.x - 1, params.y, z, "West").as_str());
    out
}

// ── query_nearby ─────────────────────────────────────────────────────

/// The paths of the prefabs on a tile.
pub open spec fn tile_paths(list: Seq<PrefabView>) -> Seq<Seq<char>> {
    list.map_values(|p: PrefabView| p.path)
}

/// The tiles that hold something, one to a line.
pub open spec fn nearby_lines(index: &SpatialIndex, cells: Seq<Cell>) -> Seq<char>
    decreases cells.len(),
{
    if cells.len() == 0 {
        Seq::empty()
    } else {
        let c = cells.last();
        let front = nearby_lines(index, cells.drop_last());
        if index.tile(c).len() == 0 {
            front
        } else {
            front + "  ("@ + dec(c.0 as int) + ","@ + dec(c.1 as int) + "): "@ + joined(tile_paths(index.tile(c)), ", "@)
                + "\n"@
        }
    }
}

/// What stands within a radius of a tile, by position, as text.
pub open spec fn nearby_text(index: &SpatialIndex, x: i32, y: i32, z: i32, radius: int) -> Seq<char> {
    let cells = square_around(x as int, y as int, z, radius);
    dec(index.objects_on(cells).len() as int) + " objects within "@ + dec(radius) + " tiles of "@ + place_text(
        x as int,
        y as int,
        z as int,
    ) + ":\n"@ + nearby_lines(index, cells)
}

fn write_paths(list: &[Prefab]) -> (r: String)
    ensures
        r@ == joined(tile_paths(prefab_views(list@)), ", "@),
{
    let ghost want = tile_paths(prefab_views(list@));
    let mut paths: Vec<String> = Vec::new();
    let mut i: usize = 0;
    while i < list.len()
        invariant
            i <= list@.len(),
            want == tile_paths(prefab_views(list@)),
            texts(paths@) == want.take(i as int),
        decreases list@.len() - i,
    {
        let ghost before = texts(paths@);
        paths.push(list[i].path.clone());
        assert(texts(paths@) =~= before.push(want[i as int]));
        i = i + 1;
        assert(texts(paths@) =~= want.take(i as int));
    }
    assert(want.take(i as int) =~= want);
    join_texts(&paths, ", ")
}

/// Everything within a radius of a tile.
pub fn query_nearby(index: &SpatialIndex, params: &QueryNearbyParams) -> (r: String)
    requires
        index.wf(),
        radius_asked(params.radius) > i32::MIN,
        radius_asked(params.radius) >= 0 ==> i32::MIN <= params.x - radius_asked(params.radius) && params.x + radius_asked(params.radius) <= i32::MAX,
        radius_asked(params.radius) >= 0 ==> i32::MIN <= params.y - radius_asked(params.radius) && params.y + radius_asked(params.radius) <= i32::MAX,
    ensures
        r@ == nearby_text(
            index,
            params.x,
            params.y,
            level_asked(params.z),
            radius_asked(params.radius),
        ),
{
    let z: i32 = pick(params.z, 1);
    let radius: i32 = pick(params.radius, 3);
    let nearby = index.nearby(params.x, params.y, z, radius);
    assert(located_views(nearby@).len() == nearby@.len());
    let cells = cells_around(params.x, params.y, z, radius);
    let mut lines = String::new();
    let mut i: usize = 0;
    while i < cells.len()
        invariant
            i <= cells@.len(),
            index.wf(),
            lines@ == nearby_lines(index, cells@.take(i as int)),
        decreases cells@.len() - i,
    {
        assert(cells@.take(i + 1).drop_last() =~= cells@.take(i as int));
        let c = cells[i];
        let list = index.at(c.0, c.1, c.2);
        assert(prefab_views(list@).len() == list@.len());
        if list.len() > 0 {
            lines.append("  (");
            lines.append(i32_text(c.0).as_str());
            lines.append(",");
            lines.append(i32_text(c.1).as_str());
            lines.append("): ");
            lines.append(write_paths(list).as_str());
            lines.append("\n");
        }
        i = i + 1;
    }
    assert(cells@.take(i as int) =~= cells@);
    let mut out = usize_text(nearby.len());
    out.append(" objects within ");
    out.append(i32_text(radius).as_str());
    out.append(" tiles of ");
    out.append(write_place(params.x, params.y, z).as_str());
    out.append(":\n");
    out.append(lines.as_str());
    out
}

// ── trace_network ────────────────────────────────────────────────────

/// The areas of tiles, for those that have one.
pub open spec fn areas_of(index: &SpatialIndex, cells: Seq<Cell>) -> Seq<Seq<char>>
    decreases cells.len(),
{
    if cells.len() == 0 {
        Seq::empty()
    } else {
        let front = areas_of(index, cells.drop_last());
        match index.area_at(cells.last()) {
            Some(a) => front.push(a),
            None => front,
        }
    }
}

/// A network with its size and the areas that it spans, as text.
pub open spec fn network_text(index: &SpatialIndex, network: Seq<char>, x: i32, y: i32, z: i32, cells: Seq<Cell>) -> Seq<char> {
    if cells.len() == 0 {
        "No '"@ + network + "' network found at "@ + place_text(x as int, y as int, z as int)
    } else {
        "Network '"@ + network + "' from ("@ + dec(x as int) + ","@ + dec(y as int) + ","@ + dec(z as int) + "): "@ + dec(
            cells.len() as int,
        ) + " connected tiles\n"@ + "Areas spanned:\n"@ + counts_text(areas_of(index, cells), " ("@, " tiles)\n"@)
    }
}

/// Whether tiles are those of a network, each once.
pub open spec fn is_network(index: &SpatialIndex, start: Cell, network: Seq<char>, cells: Seq<Cell>) -> bool {
    &&& cells.no_duplicates()
    &&& forall|c: Cell| #[trigger] cells.contains(c) <==> index.linked(start, c, network)
}

/// Traces a network from a tile.
pub fn trace_network(index: &SpatialIndex, params: &TraceNetworkParams) -> (r: String)
    requires
        index.wf(),
    ensures
        exists|cells: Seq<Cell>|
            {
                &&& #[trigger] is_network(
                    index,
                    (params.x, params.y, level_asked(params.z)),
                    params.network_type@,
                    cells,
                )
                &&& r@ == network_text(
                    index,
                    params.network_type@,
                    params.x,
                    params.y,
                    level_asked(params.z),
                    cells,
                )
            },
{
    let z: i32 = pick(params.z, 1);
    let network = index.trace_network(params.x, params.y, z, params.network_type.as_str());
    let ghost cells = network@;
    assert(is_network(index, (params.x, params.y, z), params.network_type@, cells));
    if network.len() == 0 {
        let mut out = "No '".to_string();
        out.append(params.network_type.as_str());
        out.append("' network found at ");
        out.append(write_place(params.x, params.y, z).as_str());
        return out;
    }
    let mut areas: Vec<String> = Vec::new();
    let mut i: usize = 0;
    assert(texts(areas@) =~= Seq::empty());
    while i < network.len()
        invariant
            i <= network@.len(),
            texts(areas@) == areas_of(index, network@.take(i as int)),
        decreases network@.len() - i,
    {
        assert(network@.take(i + 1).drop_last() =~= network@.take(i as int));
        let c = network[i];
        let ghost before = texts(areas@);
        if let Some(a) = index.area_of(c.0, c.1, c.2) {
            areas.push(a.to_string());
            assert(texts(areas@) =~= before.push(a@));
        }
        i = i + 1;
    }
    assert(network@.take(i as int) =~= network@);
    let mut out = "Network '".to_string();
    out.append(params.network_type.as_str());
    out.append("' from (");
    out.append(i32_text(params.x).as_str());
    out.append(",");
    out.append(i32_text(params.y).as_str());
    out.append(",");
    out.append(i32_text(z).as_str());
    out.append("): ");
    out.append(usize_text(network.len()).as_str());
    out.append(" connected tiles\n");
    out.append("Areas spanned:\n");
    out.append(write_counts(&areas, " (", " tiles)\n").as_str());
    out
}

// ── search_objects ───────────────────────────────────────────────────

/// Whether a cell lies within an extent.
pub open spec fn on_grid(c: Cell, dims: (usize, usize, usize)) -> bool {
    on_map(c.0 as int, c.1 as int, c.2 as int, dims)
}

spec fn cell_before(c: Cell, z: int, y: int, x: int) -> bool {
    c.2 < z || (c.2 == z && (c.1 < y || (c.1 == y && c.0 < x)))
}

proof fn lemma_pushed(s: Seq<Cell>, x: Cell, c: Cell)
    ensures
        s.push(x).contains(c) <==> s.contains(c) || c == x,
{
    if s.contains(c) {
        let i = choose|i: int| 0 <= i < s.len() && s[i] == c;
        assert(s.push(x)[i] == c);
    }
    if c == x {
        assert(s.push(x)[s.len() as int] == c);
    }
}

/// All tiles of a map.
fn all_cells(dims: (usize, usize, usize)) -> (r: Vec<Cell>)
    requires
        dims.0 < i32::MAX,
        dims.1 < i32::MAX,
        dims.2 < i32::MAX,
    ensures
        forall|c: Cell| #[trigger] r@.contains(c) <==> on_grid(c, dims),
{
    let dim_z: i32 = dims.0 as i32;
    let dim_y: i32 = dims.1 as i32;
    let dim_x: i32 = dims.2 as i32;
    let mut out: Vec<Cell> = Vec::new();
    let mut z: i32 = 1;
    while z <= dim_z
        invariant
            1 <= z <= dim_z + 1,
            dims == (dim_z as usize, dim_y as usize, dim_x as usize),
            0 <= dim_z < i32::MAX,
            0 <= dim_y < i32::MAX,
            0 <= dim_x < i32::MAX,
            forall|c: Cell| #[trigger] out@.contains(c) <==> on_grid(c, dims) && cell_before(c, z as int, 1, 1),
        decreases dim_z + 1 - z,
    {
        let mut y: i32 = 1;
        while y <= dim_y
            invariant
                1 <= z <= dim_z,
                1 <= y <= dim_y + 1,
                dims == (dim_z as usize, dim_y as usize, dim_x as usize),
                0 <= dim_z < i32::MAX,
                0 <= dim_y < i32::MAX,
                0 <= dim_x < i32::MAX,
                forall|c: Cell| #[trigger] out@.contains(c) <==> on_grid(c, dims) && cell_before(c, z as int, y as int, 1),
            decreases dim_y + 1 - y,
        {
            let mut x: i32 = 1;
            while x <= dim_x
                invariant
                    1 <= z <= dim_z,
                    1 <= y <= dim_y,
                    1 <= x <= dim_x + 1,
                    dims == (dim_z as usize, dim_y as usize, dim_x as usize),
                    0 <= dim_z < i32::MAX,
                    0 <= dim_y < i32::MAX,
                    0 <= dim_x < i32::MAX,
                    forall|c: Cell| #[trigger] out@.contains(c) <==> on_grid(c, dims) && cell_before(
                        c,
                        z as int,
                        y as int,
                        x as int,
                    ),
                decreases dim_x + 1 - x,
            {
                let ghost before = out@;
                out.push((x, y, z));
                assert forall|c: Cell| #[trigger] out@.contains(c) <==> on_grid(c, dims) && cell_before(
                    c,
                    z as int,
                    y as int,
                    x + 1,
                ) by {
                    lemma_pushed(before, (x, y, z), c);
                    assert(before.contains(c) <==> on_grid(c, dims) && cell_before(c, z as int, y as int, x as int));
                }
                x = x + 1;
            }
            y = y + 1;
        }
        z = z + 1;
    }
    out
}

/// Whether a tile holds a prefab with the given path.
pub open spec fn holds_path(list: Seq<PrefabView>, path: Seq<char>) -> bool {
    exists|i: int| 0 <= i < list.len() && (#[trigger] list[i]).path == path
}

/// Whether a path holds a text, whatever the case.
pub open spec fn path_matches(path: Seq<char>, query: Seq<char>) -> bool {
    contains_text(lowercase(path), lowercase(query))
}

/// The paths on the map that hold a text.
pub open spec fn matching_paths(index: &SpatialIndex, query: Seq<char>) -> Set<Seq<char>> {
    Set::new(
        |p: Seq<char>|
            path_matches(p, query) && exists|c: Cell| on_grid(c, index.dims()) && #[trigger] holds_path(index.tile(c), p),
    )
}

/// Types with the number of their instances, one to a line.
pub open spec fn type_lines(index: &SpatialIndex, names: Seq<Seq<char>>) -> Seq<char>
    decreases names.len(),
{
    if names.len() == 0 {
        Seq::empty()
    } else {
        type_lines(index, names.drop_last()) + "  "@ + names.last() + " (×"@ + dec(
            index.instances(names.last()).len() as int,
        ) + ")\n"@
    }
}

/// What is said of the items beyond a limit.
pub open spec fn more_text(total: int, limit: int) -> Seq<char> {
    if total > limit {
        "  ... and "@ + dec(total - limit) + " more\n"@
    } else {
        ""@
    }
}

fn write_more(total: usize, limit: usize) -> (r: String)
    ensures
        r@ == more_text(total as int, limit as int),
{
    if total > limit {
        let mut out = "  ... and ".to_string();
        out.append(usize_text(total - limit).as_str());
        out.append(" more\n");
        out
    } else {
        "".to_string()
    }
}

/// The types on the map whose path holds a text, in order, as text.
pub open spec fn search_text(index: &SpatialIndex, query: Seq<char>, limit: int) -> Seq<char> {
    let names = sorted_names(matching_paths(index, query));
    "Types matching '"@ + query + "':\n"@ + type_lines(index, at_most(names, limit)) + more_text(names.len() as int, limit)
}

/// Searches the types on the map.
pub fn search_objects(index: &SpatialIndex, params: &SearchObjectsParams) -> (r: String)
    requires
        index.wf(),
    ensures
        r@ == search_text(index, params.query@, types_asked(params.limit)),
{
    let limit: usize = pick_size(params.limit, 20);
    let query_lower = to_lowercase(params.query.as_str());
    proof {
        index.wf_facts();
    }
    let (dim_x, dim_y, dim_z) = index.dim_xyz();
    let cells = all_cells((dim_z, dim_y, dim_x));
    let ghost query = params.query@;
    let mut table: NameTable<bool> = NameTable::new();
    let mut i: usize = 0;
    while i < cells.len()
        invariant
            i <= cells@.len(),
            index.wf(),
            query == params.query@,
            query_lower@ == lowercase(query),
            table.wf(),
            forall|p: Seq<char>| #[trigger] table@.contains_key(p) <==> path_matches(p, query) && exists|k: int|
                0 <= k < i && holds_path(index.tile(#[trigger] cells@[k]), p),
        decreases cells@.len() - i,
    {
        let c = cells[i];
        let list = index.at(c.0, c.1, c.2);
        let ghost tile = prefab_views(list@);
        let ghost start = table@;
        let mut j: usize = 0;
        while j < list.len()
            invariant
                j <= list@.len(),
                tile == prefab_views(list@),
                query_lower@ == lowercase(query),
                table.wf(),
                forall|p: Seq<char>| #[trigger] table@.contains_key(p) <==> start.contains_key(p) || (path_matches(p, query)
                    && exists|k: int| 0 <= k < j && (#[trigger] tile[k]).path == p),
            decreases list@.len() - j,
        {
            let path = &list[j].path;
            let ghost before = table@;
            assert(tile[j as int].path == path@);
            let hit = has_text(to_lowercase(path.as_str()).as_str(), query_lower.as_str());
            if hit {
                table.insert(path.clone(), true);
            }
            assert forall|p: Seq<char>| #[trigger] table@.contains_key(p) <==> start.contains_key(p) || (path_matches(p, query)
                && exists|k: int| 0 <= k < j + 1 && (#[trigger] tile[k]).path == p) by {
                assert(before.contains_key(p) <==> start.contains_key(p) || (path_matches(p, query) && exists|k: int|
                    0 <= k < j && (#[trigger] tile[k]).path == p));
                if p == path@ {
                    assert(tile[j as int].path == p);
                }
            }
            j = j + 1;
        }
        assert forall|p: Seq<char>| #[trigger] table@.contains_key(p) <==> path_matches(p, query) && exists|k: int|
            0 <= k < i + 1 && holds_path(index.tile(#[trigger] cells@[k]), p) by {
            assert(start.contains_key(p) <==> path_matches(p, query) && exists|k: int|
                0 <= k < i && holds_path(index.tile(#[trigger] cells@[k]), p));
            assert(holds_path(tile, p) <==> exists|k: int| 0 <= k < j && (#[trigger] tile[k]).path == p);
            assert(index.tile(cells@[i as int]) == tile);
        }
        i = i + 1;
    }
    let ghost names = table.names();
    proof {
        table.names_hold();
        assert forall|p: Seq<char>| #[trigger] table@.contains_key(p) <==> matching_paths(index, query).contains(p) by {
            if table@.contains_key(p) {
                let k = choose|k: int| 0 <= k < i && holds_path(index.tile(#[trigger] cells@[k]), p);
                assert(cells@.contains(cells@[k]));
                assert(on_grid(cells@[k], index.dims()));
            }
            if matching_paths(index, query).contains(p) {
                let c = choose|c: Cell| on_grid(c, index.dims()) && #[trigger] holds_path(index.tile(c), p);
                assert(cells@.contains(c));
                let k = choose|k: int| 0 <= k < cells@.len() && cells@[k] == c;
                assert(holds_path(index.tile(cells@[k]), p));
            }
        }
        assert(table@.dom() =~= matching_paths(index, query));
    }
    let total: usize = table.len();
    let shown: usize = if total > limit { limit } else { total };
    let mut lines = String::new();
    let mut k: usize = 0;
    while k < shown
        invariant
            k <= shown <= names.len(),
            index.wf(),
            table.wf(),
            names == table.names(),
            lines@ == type_lines(index, names.take(k as int)),
        decreases shown - k,
    {
        assert(names.take(k + 1).drop_last() =~= names.take(k as int));
        let path = table.name_at(k);
        let instances = index.instances_of(path);
        assert(located_views(instances@).len() == instances@.len());
        lines.append("  ");
        lines.append(path);
        lines.append(" (×");
        lines.append(usize_text(instances.len()).as_str());
        lines.append(")\n");
        k = k + 1;
    }
    assert(names.take(shown as int) =~= at_most(names, limit as int));
    let mut out = "Types matching '".to_string();
    out.append(params.query.as_str());
    out.append("':\n");
    out.append(lines.as_str());
    out.append(write_more(total, limit).as_str());
    out
}

// ── validate_rules ───────────────────────────────────────────────────

/// What is said where no rules are configured.
pub open spec fn no_rules() -> Seq<char> {
    "No rules directory configured. Use --rules <dir> to specify a rules directory."@
}

/// The message where no rules are configured.
pub fn no_rules_text() -> (r: String)
    ensures
        r@ == no_rules(),
{
    "No rules directory configured. Use --rules <dir> to specify a rules directory.".to_string()
}

/// The message of an evaluation that failed as a whole.
pub fn evaluation_failed_text(e: &str) -> (r: String)
    ensures
        r@ == "Rule evaluation failed: "@ + e@,
{
    let mut out = "Rule evaluation failed: ".to_string();
    out.append(e);
    out
}

/// Whether a violation is by a rule whose ID begins with the filter.
pub open spec fn by_rule(filter: Option<Seq<char>>) -> spec_fn(ViolationView) -> bool {
    |v: ViolationView|
        match filter {
            Some(f) => starts_with(v.rule_id, f),
            None => true,
        }
}

/// Whether a violation is of a severity.
pub open spec fn of_severity(s: Seq<char>) -> spec_fn(ViolationView) -> bool {
    |v: ViolationView| v.severity == s
}

/// Violations, one to a line.
pub open spec fn violation_lines(list: Seq<ViolationView>) -> Seq<char>
    decreases list.len(),
{
    if list.len() == 0 {
        Seq::empty()
    } else {
        let v = list.last();
        violation_lines(list.drop_last()) + "  ("@ + dec(v.pos.0 as int) + ","@ + dec(v.pos.1 as int) + ","@ + dec(
            v.pos.2 as int,
        ) + ") ["@ + v.rule_id + "] "@ + v.anchor_path + ": "@ + v.message + "\n"@
    }
}

/// The violations of one severity, under a heading, up to a limit.
pub open spec fn severity_text(
    list: Seq<ViolationView>,
    severity: Seq<char>,
    open: Seq<char>,
    close: Seq<char>,
    limit: int,
) -> Seq<char> {
    let some = list.filter(of_severity(severity));
    if some.len() == 0 {
        ""@
    } else {
        "\n"@ + open + " "@ + dec(some.len() as int) + close + violation_lines(at_most(some, limit)) + more_text(
            some.len() as int,
            limit,
        )
    }
}

/// How much of a limit is left once the violations of a severity are listed.
pub open spec fn left_after(list: Seq<ViolationView>, severity: Seq<char>, limit: int) -> int {
    limit - at_most(list.filter(of_severity(severity)), limit).len()
}

/// The violations that a report lists: errors, then warnings, then the rest, up to one limit for
/// all of them.
pub open spec fn listed(list: Seq<ViolationView>, limit: int) -> Seq<ViolationView> {
    let warnings_limit = left_after(list, "error"@, limit);
    let info_limit = left_after(list, "warning"@, warnings_limit);
    at_most(list.filter(of_severity("error"@)), limit) + at_most(list.filter(of_severity("warning"@)), warnings_limit)
        + at_most(list.filter(of_severity("info"@)), info_limit)
}

/// A report lists no more violations than its limit.
pub proof fn a_report_keeps_its_limit(list: Seq<ViolationView>, limit: int)
    requires
        limit >= 0,
    ensures
        listed(list, limit).len() <= limit,
{
}

/// Errors, one to a line.
pub open spec fn error_lines(list: Seq<Seq<char>>) -> Seq<char>
    decreases list.len(),
{
    if list.len() == 0 {
        Seq::empty()
    } else {
        error_lines(list.drop_last()) + "  ⚠ "@ + list.last() + "\n"@
    }
}

/// The errors of an evaluation, under a heading.
pub open spec fn errors_text(list: Seq<Seq<char>>) -> Seq<char> {
    if list.len() == 0 {
        ""@
    } else {
        "\n"@ + dec(list.len() as int) + " errors during evaluation:\n"@ + error_lines(list)
    }
}

/// The report on an evaluation. It lists [`listed`] violations, by severity.
pub open spec fn report_text(result: crate::rules::ResultView, filter: Option<Seq<char>>, limit: int) -> Seq<char> {
    let list = result.violations.filter(by_rule(filter));
    "Validation complete: "@ + dec(result.rules_evaluated) + " rules evaluated, "@ + dec(result.anchors_checked)
        + " anchors checked, "@ + dec(list.len() as int) + " violations\n"@ + errors_text(result.errors) + (if list.len() == 0 {
        "\n✅ No violations found.\n"@
    } else {
        let warnings_limit = left_after(list, "error"@, limit);
        let info_limit = left_after(list, "warning"@, warnings_limit);
        severity_text(list, "error"@, "❌"@, " errors:\n"@, limit) + severity_text(
            list,
            "warning"@,
            "⚠️"@,
            " warnings:\n"@,
            warnings_limit,
        ) + severity_text(list, "info"@, "ℹ️"@, " info:\n"@, info_limit)
    })
}

fn copy_violation(v: &Violation) -> (r: Violation)
    ensures
        r@ == v@,
{
    Violation {
        rule_id: v.rule_id.clone(),
        severity: v.severity.clone(),
        message: v.message.clone(),
        x: v.x,
        y: v.y,
        z: v.z,
        anchor_path: v.anchor_path.clone(),
    }
}

fn keep_by_rule(list: &Vec<Violation>, filter: Option<&str>) -> (r: Vec<Violation>)
    ensures
        violation_views(r@) == violation_views(list@).filter(by_rule(opt_str(filter))),
{
    let ghost all = violation_views(list@);
    let ghost pred = by_rule(opt_str(filter));
    let mut out: Vec<Violation> = Vec::new();
    let mut i: usize = 0;
    proof {
        reveal(Seq::filter);
        assert(violation_views(out@) =~= all.take(0).filter(pred));
    }
    while i < list.len()
        invariant
            i <= list@.len(),
            all == violation_views(list@),
            pred == by_rule(opt_str(filter)),
            violation_views(out@) == all.take(i as int).filter(pred),
        decreases list@.len() - i,
    {
        proof {
            reveal(Seq::filter);
            assert(all.take(i + 1).drop_last() =~= all.take(i as int));
            assert(all.take(i + 1).last() == list@[i as int]@);
        }
        let ghost before = violation_views(out@);
        let keep = match filter {
            Some(f) => has_prefix(list[i].rule_id.as_str(), f),
            None => true,
        };
        if keep {
            out.push(copy_violation(&list[i]));
            assert(violation_views(out@) =~= before.push(list@[i as int]@));
        }
        i = i + 1;
    }
    assert(all.take(i as int) =~= all);
    out
}

fn keep_severity(list: &Vec<Violation>, severity: &str) -> (r: Vec<Violation>)
    ensures
        violation_views(r@) == violation_views(list@).filter(of_severity(severity@)),
{
    let ghost all = violation_views(list@);
    let ghost pred = of_severity(severity@);
    let mut out: Vec<Violation> = Vec::new();
    let mut i: usize = 0;
    proof {
        reveal(Seq::filter);
        assert(violation_views(out@) =~= all.take(0).filter(pred));
    }
    while i < list.len()
        invariant
            i <= list@.len(),
            all == violation_views(list@),
            pred == of_severity(severity@),
            violation_views(out@) == all.take(i as int).filter(pred),
        decreases list@.len() - i,
    {
        proof {
            reveal(Seq::filter);
            assert(all.take(i + 1).drop_last() =~= all.take(i as int));
            assert(all.take(i + 1).last() == list@[i as int]@);
        }
        let ghost before = violation_views(out@);
        if same_text(list[i].severity.as_str(), severity) {
            out.push(copy_violation(&list[i]));
            assert(violation_views(out@) =~= before.push(list@[i as int]@));
        }
        i = i + 1;
    }
    assert(all.take(i as int) =~= all);
    out
}

fn write_severity(list: &Vec<Violation>, severity: &str, open: &str, close: &str, limit: usize) -> (r: (String, usize))
    ensures
        r.0@ == severity_text(violation_views(list@), severity@, open@, close@, limit as int),
        r.1 == left_after(violation_views(list@), severity@, limit as int),
{
    let some = keep_severity(list, severity);
    let ghost all = violation_views(some@);
    assert(all.len() == some@.len());
    let total: usize = some.len();
    if total == 0 {
        return ("".to_string(), limit);
    }
    let shown: usize = if total > limit { limit } else { total };
    let mut lines = String::new();
    let mut i: usize = 0;
    while i < shown
        invariant
            i <= shown <= some@.len(),
            all == violation_views(some@),
            lines@ == violation_lines(all.take(i as int)),
        decreases shown - i,
    {
        assert(all.take(i + 1).drop_last() =~= all.take(i as int));
        let v = &some[i];
        assert(all[i as int] == v@);
        lines.append("  (");
        lines.append(i32_text(v.x).as_str());
        lines.append(",");
        lines.append(i32_text(v.y).as_str());
        lines.append(",");
        lines.append(i32_text(v.z).as_str());
        lines.append(") [");
        lines.append(v.rule_id.as_str());
        lines.append("] ");
        lines.append(v.anchor_path.as_str());
        lines.append(": ");
        lines.append(v.message.as_str());
        lines.append("\n");
        i = i + 1;
    }
    assert(all.take(shown as int) =~= at_most(all, limit as int));
    let mut out = "\n".to_string();
    out.append(open);
    out.append(" ");
    out.append(usize_text(total).as_str());
    out.append(close);
    out.append(lines.as_str());
    out.append(write_more(total, limit).as_str());
    (out, limit - shown)
}

fn write_errors(list: &Vec<String>) -> (r: String)
    ensures
        r@ == errors_text(texts(list@)),
{
    let ghost all = texts(list@);
    assert(all.len() == list@.len());
    if list.len() == 0 {
        return "".to_string();
    }
    let mut lines = String::new();
    let mut i: usize = 0;
    while i < list.len()
        invariant
            i <= list@.len(),
            all == texts(list@),
            lines@ == error_lines(all.take(i as int)),
        decreases list@.len() - i,
    {
        assert(all.take(i + 1).drop_last() =~= all.take(i as int));
        lines.append("  ⚠ ");
        lines.append(list[i].as_str());
        lines.append("\n");
        i = i + 1;
    }
    assert(all.take(i as int) =~= all);
    let mut out = "\n".to_string();
    out.append(usize_text(list.len()).as_str());
    out.append(" errors during evaluation:\n");
    out.append(lines.as_str());
    out
}

/// The view of an optional string as an optional slice has it.
fn slice_of(s: &Option<String>) -> (r: Option<&str>)
    ensures
        opt_str(r) == opt_text(*s),
{
    match s {
        Some(t) => Some(t.as_str()),
        None => None,
    }
}

/// Reports on an evaluation, by severity.
pub fn validate_rules(result: &ValidationResult, params: &ValidateRulesParams) -> (r: String)
    ensures
        r@ == report_text(result@, opt_text(params.filter), violations_asked(params.limit)),
{
    let limit: usize = pick_size(params.limit, 100);
    let list = keep_by_rule(&result.violations, slice_of(&params.filter));
    assert(violation_views(list@).len() == list@.len());
    let mut out = "Validation complete: ".to_string();
    out.append(usize_text(result.rules_evaluated).as_str());
    out.append(" rules evaluated, ");
    out.append(usize_text(result.anchors_checked).as_str());
    out.append(" anchors checked, ");
    out.append(usize_text(list.len()).as_str());
    out.append(" violations\n");
    out.append(write_errors(&result.errors).as_str());
    if list.len() == 0 {
        out.append("\n✅ No violations found.\n");
        return out;
    }
    let (mut part, warnings_limit) = write_severity(&list, "error", "❌", " errors:\n", limit);
    let (warnings, info_limit) = write_severity(&list, "warning", "⚠️", " warnings:\n", warnings_limit);
    part.append(warnings.as_str());
    let (info, _) = write_severity(&list, "info", "ℹ️", " info:\n", info_limit);
    part.append(info.as_str());
    out.append(part.as_str());
    out
}

// ── list_rules ───────────────────────────────────────────────────────

/// A rule file with its size.
pub struct RuleFileSize {
    pub name: String,
    pub bytes: u64,
}

/// Rule files with their sizes, one to a line.
pub open spec fn file_lines(files: Seq<RuleFileSize>) -> Seq<char>
    decreases files.len(),
{
    if files.len() == 0 {
        Seq::empty()
    } else {
        file_lines(files.drop_last()) + "  "@ + files.last().name@ + " ("@ + dec(files.last().bytes as int) + " bytes)\n"@
    }
}

/// The list of rule files.
pub open spec fn files_text(files: Seq<RuleFileSize>) -> Seq<char> {
    if files.len() == 0 {
        "No .js rule files found in rules directory."@
    } else {
        dec(files.len() as int) + " rule files found:\n"@ + file_lines(files)
    }
}

/// Lists the rule files.
pub fn list_rules(files: &Vec<RuleFileSize>, _params: &ListRulesParams) -> (r: String)
    ensures
        r@ == files_text(files@),
{
    if files.len() == 0 {
        return "No .js rule files found in rules directory.".to_string();
    }
    let mut lines = String::new();
    let mut i: usize = 0;
    while i < files.len()
        invariant
            i <= files@.len(),
            lines@ == file_lines(files@.take(i as int)),
        decreases files@.len() - i,
    {
        assert(files@.take(i + 1).drop_last() =~= files@.take(i as int));
        lines.append("  ");
        lines.append(files[i].name.as_str());
        lines.append(" (");
        lines.append(u64_text(files[i].bytes).as_str());
        lines.append(" bytes)\n");
        i = i + 1;
    }
    assert(files@.take(i as int) =~= files@);
    let mut out = usize_text(files.len());
    out.append(" rule files found:\n");
    out.append(lines.as_str());
    out
}

/// The message of a rules directory that could not be read.
pub fn scan_failed_text(e: &str) -> (r: String)
    ensures
        r@ == "Failed to scan rules directory: "@ + e@,
{
    let mut out = "Failed to scan rules directory: ".to_string();
    out.append(e);
    out
}

// ── render_region, render_area ───────────────────────────────────────

/// The extent of a region in one direction.
pub open spec fn region_size(a: int, b: int) -> int {
    if b > a {
        b - a + 1
    } else {
        1
    }
}

/// What is said of a region that is too large.
pub open spec fn too_large(width: int, height: int) -> Seq<char> {
    "Region too large: "@ + dec(width) + "x"@ + dec(height)
        + " tiles (max 64x64). Use smaller bounds or render_area for auto-bounded areas."@
}

/// What is said of a region of that size, where it is refused.
pub open spec fn region_refusal(width: int, height: int) -> Option<Seq<char>> {
    if width > 64 || height > 64 {
        Some(too_large(width, height))
    } else {
        None
    }
}

/// Refuses a region of more than 64 tiles in either direction.
pub fn refuse_region(params: &RenderRegionParams) -> (r: Option<String>)
    requires
        params.x2 - params.x1 < usize::MAX,
        params.y2 - params.y1 < usize::MAX,
    ensures
        ({
            let width = region_size(params.x1 as int, params.x2 as int);
            let height = region_size(params.y1 as int, params.y2 as int);
            opt_text(r) == region_refusal(width, height)
        }),
{
    let width: usize = if params.x2 > params.x1 { params.x2 - params.x1 + 1 } else { 1 };
    let height: usize = if params.y2 > params.y1 { params.y2 - params.y1 + 1 } else { 1 };
    if width > 64 || height > 64 {
        let mut e = "Region too large: ".to_string();
        e.append(usize_text(width).as_str());
        e.append("x");
        e.append(usize_text(height).as_str());
        e.append(" tiles (max 64x64). Use smaller bounds or render_area for auto-bounded areas.");
        return Some(e);
    }
    None
}

/// Icon errors, one to a line.
pub open spec fn icon_lines(list: Seq<Seq<char>>) -> Seq<char>
    decreases list.len(),
{
    if list.len() == 0 {
        Seq::empty()
    } else {
        icon_lines(list.drop_last()) + "  "@ + list.last() + "\n"@
    }
}

/// The icon errors of a rendering, under a heading, up to ten.
pub open spec fn icons_text(list: Seq<Seq<char>>) -> Seq<char> {
    if list.len() == 0 {
        ""@
    } else {
        "\n⚠ "@ + dec(list.len() as int) + " icon errors (missing sprites):\n"@ + icon_lines(at_most(list, 10)) + more_text(
            list.len() as int,
            10,
        )
    }
}

/// The size of a rendering, its icon errors and the image.
pub open spec fn image_text(r: &RenderResult) -> Seq<char> {
    dec(r.width_px as int) + "x"@ + dec(r.height_px as int) + " px ("@ + dec(r.width_tiles as int) + "x"@ + dec(
        r.height_tiles as int,
    ) + " tiles)\n"@ + icons_text(texts(r.icon_errors@)) + "\n[IMAGE:base64]\n"@ + r.base64_png@
}

fn write_icons(list: &Vec<String>) -> (r: String)
    ensures
        r@ == icons_text(texts(list@)),
{
    let ghost all = texts(list@);
    assert(all.len() == list@.len());
    let total: usize = list.len();
    if total == 0 {
        return "".to_string();
    }
    let shown: usize = if total > 10 { 10 } else { total };
    let mut lines = String::new();
    let mut i: usize = 0;
    while i < shown
        invariant
            i <= shown <= list@.len(),
            all == texts(list@),
            lines@ == icon_lines(all.take(i as int)),
        decreases shown - i,
    {
        assert(all.take(i + 1).drop_last() =~= all.take(i as int));
        lines.append("  ");
        lines.append(list[i].as_str());
        lines.append("\n");
        i = i + 1;
    }
    assert(all.take(shown as int) =~= at_most(all, 10));
    let mut out = "\n⚠ ".to_string();
    out.append(usize_text(total).as_str());
    out.append(" icon errors (missing sprites):\n");
    out.append(lines.as_str());
    out.append(write_more(total, 10).as_str());
    out
}

fn write_image(r: &RenderResult) -> (s: String)
    ensures
        s@ == image_text(r),
{
    let mut out = u64_text(r.width_px as u64);
    out.append("x");
    out.append(u64_text(r.height_px as u64).as_str());
    out.append(" px (");
    out.append(u64_text(r.width_tiles as u64).as_str());
    out.append("x");
    out.append(u64_text(r.height_tiles as u64).as_str());
    out.append(" tiles)\n");
    out.append(write_icons(&r.icon_errors).as_str());
    out.append("\n[IMAGE:base64]\n");
    out.append(r.base64_png.as_str());
    out
}

/// Reports the rendering of a region.
pub fn region_report(params: &RenderRegionParams, result: &RenderResult) -> (r: String)
    ensures
        r@ == "Rendered region ("@ + dec(params.x1 as int) + ","@ + dec(params.y1 as int) + ") to ("@ + dec(params.x2 as int)
            + ","@ + dec(params.y2 as int) + ") z="@ + dec(level_rendered(params.z)) + ": "@ + image_text(result),
{
    let z: usize = pick_size(params.z, 1);
    let mut out = "Rendered region (".to_string();
    out.append(usize_text(params.x1).as_str());
    out.append(",");
    out.append(usize_text(params.y1).as_str());
    out.append(") to (");
    out.append(usize_text(params.x2).as_str());
    out.append(",");
    out.append(usize_text(params.y2).as_str());
    out.append(") z=");
    out.append(usize_text(z).as_str());
    out.append(": ");
    out.append(write_image(result).as_str());
    out
}

/// Reports the rendering of an area; `None` stands for an area that is not on the map.
pub fn area_report(params: &RenderAreaParams, result: Option<&RenderResult>) -> (r: String)
    ensures
        r@ == (match result {
            Some(i) => "Rendered area '"@ + params.area_path@ + "': "@ + image_text(i),
            None => "Area '"@ + params.area_path@ + "' not found on the map"@,
        }),
{
    match result {
        Some(i) => {
            let mut out = "Rendered area '".to_string();
            out.append(params.area_path.as_str());
            out.append("': ");
            out.append(write_image(i).as_str());
            out
        },
        None => {
            let mut out = "Area '".to_string();
            out.append(params.area_path.as_str());
            out.append("' not found on the map");
            out
        },
    }
}

/// The message of a rendering that failed.
pub fn render_failed_text(e: &str) -> (r: String)
    ensures
        r@ == "Render failed: "@ + e@,
{
    let mut out = "Render failed: ".to_string();
    out.append(e);
    out
}

} // verus!
