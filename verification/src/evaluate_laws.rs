//! What holds of an evaluation as a whole: where violations lie, what they say, and that
//! nothing is passed over.

use crate::counting::{tally, tally_positive};
use crate::evaluate::{
    area_subjects, begun, is_rule_file, matching_areas, names_rule_file, stepped, stepped_through, subjects_of, DirEntry, EvalView,
    EventView, FieldsView, FileView, RunView, StageView,
};
use crate::index::{is_same, stands, under, Located, SpatialIndex};
use crate::index_laws::coherent;
use crate::json::{json_int, member, JsonView};
use crate::prefab::PrefabView;
use crate::rules::{area_json, bounds, centre, rounded, sum_x, sum_y, JsView, RuleView, ViolationView};
use crate::tables::Cell;
use crate::text::{dec, replaced, starts_with};
use vstd::prelude::*;

verus! {

// ── Subjects ─────────────────────────────────────────────────────────

/// A rule whose anchor is no area is checked on every instance of the anchor and on nothing
/// else, in the order of the instances: each subject has the path of its instance and its
/// position, coordinate by coordinate.
pub proof fn subjects_stand_where_the_anchor_does(index: &SpatialIndex, anchor: Seq<char>)
    requires
        !starts_with(anchor, "/area"@),
    ensures
        subjects_of(index, anchor).len() == index.instances(anchor).len(),
        forall|i: int|
            0 <= i < index.instances(anchor).len() ==> {
                let s = #[trigger] subjects_of(index, anchor)[i];
                let l = index.instances(anchor)[i];
                &&& s.pos.0 == l.pos.0
                &&& s.pos.1 == l.pos.1
                &&& s.pos.2 == l.pos.2
                &&& s.path == l.prefab.path
                &&& !s.area
            },
{
}

/// What a check function gets of an instance: its path, its three coordinates, each under its
/// own name, and its variables.
pub proof fn a_check_gets_the_instance(index: &SpatialIndex, anchor: Seq<char>, i: int)
    requires
        !starts_with(anchor, "/area"@),
        0 <= i < index.instances(anchor).len(),
    ensures
        ({
            let l = index.instances(anchor)[i];
            let d = subjects_of(index, anchor)[i].descriptor;
            &&& d is Object
            &&& member(d->Object_0, "path"@) == Some(JsonView::Str(l.prefab.path))
            &&& member(d->Object_0, "x"@) == Some(json_int(l.pos.0 as int))
            &&& member(d->Object_0, "y"@) == Some(json_int(l.pos.1 as int))
            &&& member(d->Object_0, "z"@) == Some(json_int(l.pos.2 as int))
            &&& member(d->Object_0, "vars"@) is Some
        }),
{
    reveal_strlit("path");
    reveal_strlit("x");
    reveal_strlit("y");
    reveal_strlit("z");
    reveal_strlit("vars");
    let d = subjects_of(index, anchor)[i].descriptor;
    let o = d->Object_0;
    assert("x"@[0] != "y"@[0] && "y"@[0] != "z"@[0] && "x"@[0] != "z"@[0]);
    reveal_with_fuel(member, 6);
    assert(o.skip(1)[0] == o[1]);
    assert(o.skip(1).skip(1)[0] == o[2]);
    assert(o.skip(1).skip(1).skip(1)[0] == o[3]);
    assert(o.skip(1).skip(1).skip(1).skip(1)[0] == o[4]);
}

/// The areas that an anchor picks are those among the given ones whose path begins with it.
pub proof fn areas_match_by_prefix(paths: Seq<Seq<char>>, anchor: Seq<char>, path: Seq<char>)
    ensures
        matching_areas(paths, anchor).contains(path) <==> paths.contains(path) && starts_with(path, anchor),
    decreases paths.len(),
{
    if paths.len() > 0 {
        let front = matching_areas(paths.drop_last(), anchor);
        areas_match_by_prefix(paths.drop_last(), anchor, path);
        if paths.contains(path) && path != paths.last() {
            let i = choose|i: int| 0 <= i < paths.len() && paths[i] == path;
            assert(paths.drop_last()[i] == path);
        }
        if starts_with(paths.last(), anchor) {
            let all = front.push(paths.last());
            if all.contains(path) && path != paths.last() {
                let i = choose|i: int| 0 <= i < all.len() && all[i] == path;
                assert(front[i] == path);
            }
            if front.contains(path) {
                let i = choose|i: int| 0 <= i < front.len() && front[i] == path;
                assert(all[i] == path);
            }
            assert(all[front.len() as int] == paths.last());
        }
        if paths.drop_last().contains(path) {
            let i = choose|i: int| 0 <= i < paths.drop_last().len() && paths.drop_last()[i] == path;
            assert(paths[i] == path);
        }
        assert(paths[paths.len() - 1] == paths.last());
    }
}

/// A subject among areas is one of them that covers tiles: it has that area's path, and the
/// centre of its tiles for a position.
proof fn lemma_area_subject(index: &SpatialIndex, paths: Seq<Seq<char>>, i: int)
    requires
        0 <= i < area_subjects(index, paths).len(),
    ensures
        ({
            let s = area_subjects(index, paths)[i];
            &&& paths.contains(s.path)
            &&& index.area_positions(s.path).len() > 0
            &&& s.pos == centre(index.area_positions(s.path))
            &&& s.area
            &&& s.descriptor == area_json(s.path, index.area_positions(s.path))
        }),
    decreases paths.len(),
{
    let front = area_subjects(index, paths.drop_last());
    if i < front.len() {
        lemma_area_subject(index, paths.drop_last(), i);
        let p = front[i].path;
        let k = choose|k: int| 0 <= k < paths.drop_last().len() && paths.drop_last()[k] == p;
        assert(paths[k] == p);
    } else {
        assert(paths[paths.len() - 1] == paths.last());
    }
}

/// A rule whose anchor is an area is checked on areas of the map whose path begins with the
/// anchor; each subject lies at the centre of the tiles of its area.
pub proof fn area_subjects_lie_at_their_centres(index: &SpatialIndex, anchor: Seq<char>, i: int)
    requires
        starts_with(anchor, "/area"@),
        0 <= i < subjects_of(index, anchor).len(),
    ensures
        ({
            let s = subjects_of(index, anchor)[i];
            &&& index.area_paths().contains(s.path)
            &&& starts_with(s.path, anchor)
            &&& index.area_positions(s.path).len() > 0
            &&& s.pos == centre(index.area_positions(s.path))
            &&& s.area
        }),
{
    let paths = matching_areas(index.area_paths(), anchor);
    lemma_area_subject(index, paths, i);
    areas_match_by_prefix(index.area_paths(), anchor, subjects_of(index, anchor)[i].path);
}

proof fn lemma_named(o: Seq<(Seq<char>, JsonView)>, i: int)
    requires
        0 <= i < o.len(),
        forall|k: int| 0 <= k < i ==> (#[trigger] o[k]).0 != o[i].0,
    ensures
        member(o, o[i].0) == Some(o[i].1),
    decreases i,
{
    if i > 0 {
        assert(o[0].0 != o[i].0);
        let rest = o.skip(1);
        assert forall|k: int| 0 <= k < i - 1 implies (#[trigger] rest[k]).0 != rest[i - 1].0 by {
            assert(rest[k] == o[k + 1]);
        }
        assert(rest[i - 1] == o[i]);
        lemma_named(rest, i - 1);
    }
}

/// What a check function gets of an area: its path, all its tiles in order, each by its three
/// coordinates, and how many they are; the centre, by itself and under its own name; and the
/// corners of the smallest rectangle around the tiles.
pub proof fn a_check_gets_the_area(index: &SpatialIndex, anchor: Seq<char>, i: int)
    requires
        starts_with(anchor, "/area"@),
        0 <= i < subjects_of(index, anchor).len(),
    ensures
        ({
            let s = subjects_of(index, anchor)[i];
            let tiles = index.area_positions(s.path);
            let o = s.descriptor->Object_0;
            let c = centre(tiles);
            let b = bounds(tiles);
            &&& s.descriptor is Object
            &&& member(o, "path"@) == Some(JsonView::Str(s.path))
            &&& member(o, "tile_count"@) == Some(json_int(tiles.len() as int))
            &&& member(o, "x"@) == Some(json_int(c.0 as int))
            &&& member(o, "y"@) == Some(json_int(c.1 as int))
            &&& member(o, "z"@) == Some(json_int(c.2 as int))
            &&& member(o, "tiles"@) matches Some(JsonView::Array(list)) && list.len() == tiles.len() && forall|k: int|
                0 <= k < tiles.len() ==> (#[trigger] list[k] matches JsonView::Array(t) && t.len() == 3 && t[0] == json_int(
                    tiles[k].0 as int,
                ) && t[1] == json_int(tiles[k].1 as int) && t[2] == json_int(tiles[k].2 as int))
            &&& member(o, "centroid"@) matches Some(JsonView::Object(m)) && member(m, "x"@) == Some(json_int(c.0 as int))
                && member(m, "y"@) == Some(json_int(c.1 as int)) && member(m, "z"@) == Some(json_int(c.2 as int))
            &&& member(o, "bbox"@) matches Some(JsonView::Object(m)) && member(m, "x1"@) == Some(json_int(b.0 as int))
                && member(m, "y1"@) == Some(json_int(b.1 as int)) && member(m, "x2"@) == Some(json_int(b.2 as int))
                && member(m, "y2"@) == Some(json_int(b.3 as int))
        }),
{
    reveal_strlit("path");
    reveal_strlit("tiles");
    reveal_strlit("tile_count");
    reveal_strlit("centroid");
    reveal_strlit("bbox");
    reveal_strlit("x");
    reveal_strlit("y");
    reveal_strlit("z");
    reveal_strlit("x1");
    reveal_strlit("y1");
    reveal_strlit("x2");
    reveal_strlit("y2");
    lemma_area_subject(index, matching_areas(index.area_paths(), anchor), i);
    let s = subjects_of(index, anchor)[i];
    let o = s.descriptor->Object_0;
    assert("path"@[0] == 'p' && "bbox"@[0] == 'b' && "x"@[0] == 'x' && "y"@[0] == 'y' && "z"@[0] == 'z');
    assert("x1"@[0] == 'x' && "x1"@[1] == '1' && "x2"@[0] == 'x' && "x2"@[1] == '2');
    assert("y1"@[0] == 'y' && "y1"@[1] == '1' && "y2"@[0] == 'y' && "y2"@[1] == '2');
    assert("tiles"@.len() == 5 && "tile_count"@.len() == 10 && "centroid"@.len() == 8);
    assert(o.len() == 8);
    lemma_named(o, 0);
    lemma_named(o, 1);
    lemma_named(o, 2);
    lemma_named(o, 3);
    lemma_named(o, 4);
    lemma_named(o, 5);
    lemma_named(o, 6);
    lemma_named(o, 7);
    let m = o[3].1->Object_0;
    lemma_named(m, 0);
    lemma_named(m, 1);
    lemma_named(m, 2);
    let r = o[4].1->Object_0;
    lemma_named(r, 0);
    lemma_named(r, 1);
    lemma_named(r, 2);
    lemma_named(r, 3);
}

/// Whether a rule file comes out of a directory is told by its extension alone, and nothing else
/// comes out of it.
pub proof fn rule_files_have_their_extension(entries: Seq<DirEntry>, k: int, name: Seq<char>)
    ensures
        0 <= k < entries.len() && entries[k].extension is Some && entries[k].extension.unwrap()@ == "js"@
            ==> names_rule_file(entries, entries.len() as int, entries[k].name@),
        (forall|i: int|
            0 <= i < entries.len() && (#[trigger] entries[i]).name@ == name ==> entries[i].extension is None
                || entries[i].extension.unwrap()@ != "js"@) ==> !names_rule_file(entries, entries.len() as int, name),
{
    if 0 <= k < entries.len() && entries[k].extension is Some && entries[k].extension.unwrap()@ == "js"@ {
        assert(is_rule_file(entries[k]));
    }
}

proof fn lemma_bounds(tiles: Seq<Cell>)
    requires
        tiles.len() > 0,
    ensures
        ({
            let b = bounds(tiles);
            &&& forall|i: int| 0 <= i < tiles.len() ==> b.0 <= (#[trigger] tiles[i]).0 <= b.2 && b.1 <= tiles[i].1 <= b.3
            &&& exists|i: int| 0 <= i < tiles.len() && (#[trigger] tiles[i]).0 == b.0
            &&& exists|i: int| 0 <= i < tiles.len() && (#[trigger] tiles[i]).1 == b.1
            &&& exists|i: int| 0 <= i < tiles.len() && (#[trigger] tiles[i]).0 == b.2
            &&& exists|i: int| 0 <= i < tiles.len() && (#[trigger] tiles[i]).1 == b.3
        }),
    decreases tiles.len(),
{
    let b = bounds(tiles);
    let front = tiles.drop_last();
    let f = bounds(front);
    let n = tiles.len() - 1;
    assert(tiles[n] == tiles.last());
    if front.len() > 0 {
        lemma_bounds(front);
        assert forall|i: int| 0 <= i < tiles.len() implies b.0 <= (#[trigger] tiles[i]).0 <= b.2 && b.1 <= tiles[i].1
            <= b.3 by {
            if i < n {
                assert(front[i] == tiles[i]);
            }
        }
        let i0 = choose|i: int| 0 <= i < front.len() && (#[trigger] front[i]).0 == f.0;
        let i1 = choose|i: int| 0 <= i < front.len() && (#[trigger] front[i]).1 == f.1;
        let i2 = choose|i: int| 0 <= i < front.len() && (#[trigger] front[i]).0 == f.2;
        let i3 = choose|i: int| 0 <= i < front.len() && (#[trigger] front[i]).1 == f.3;
        assert(tiles[i0] == front[i0] && tiles[i1] == front[i1] && tiles[i2] == front[i2] && tiles[i3] == front[i3]);
    } else {
        assert(front =~= Seq::empty());
        assert(f == (i32::MAX, i32::MAX, i32::MIN, i32::MIN));
        assert(b == (tiles[0].0, tiles[0].1, tiles[0].0, tiles[0].1));
    }
}

proof fn lemma_sums(tiles: Seq<Cell>, lo_x: int, hi_x: int, lo_y: int, hi_y: int)
    requires
        forall|i: int|
            0 <= i < tiles.len() ==> lo_x <= (#[trigger] tiles[i]).0 <= hi_x && lo_y <= tiles[i].1 <= hi_y,
    ensures
        lo_x * tiles.len() <= sum_x(tiles) <= hi_x * tiles.len(),
        lo_y * tiles.len() <= sum_y(tiles) <= hi_y * tiles.len(),
    decreases tiles.len(),
{
    let n = tiles.len() as int;
    if n > 0 {
        let front = tiles.drop_last();
        assert forall|i: int| 0 <= i < front.len() implies lo_x <= (#[trigger] front[i]).0 <= hi_x && lo_y <= front[i].1
            <= hi_y by {
            assert(front[i] == tiles[i]);
        }
        lemma_sums(front, lo_x, hi_x, lo_y, hi_y);
        assert(tiles[n - 1] == tiles.last());
        assert(lo_x * n == lo_x * (n - 1) + lo_x) by (nonlinear_arith);
        assert(hi_x * n == hi_x * (n - 1) + hi_x) by (nonlinear_arith);
        assert(lo_y * n == lo_y * (n - 1) + lo_y) by (nonlinear_arith);
        assert(hi_y * n == hi_y * (n - 1) + hi_y) by (nonlinear_arith);
    } else {
        assert(lo_x * 0 == 0 && hi_x * 0 == 0 && lo_y * 0 == 0 && hi_y * 0 == 0);
    }
}

proof fn lemma_rounded(sum: int, n: int, lo: int, hi: int)
    requires
        n > 0,
        lo * n <= sum <= hi * n,
    ensures
        lo <= rounded(sum, n) <= hi,
        -n <= 2 * (rounded(sum, n) * n - sum) <= n,
        sum >= 0 ==> -n < 2 * (rounded(sum, n) * n - sum),
        sum < 0 ==> 2 * (rounded(sum, n) * n - sum) < n,
{
    let a = if sum >= 0 { sum } else { -sum };
    let q = (2 * a + n) / (2 * n);
    vstd::arithmetic::div_mod::lemma_fundamental_div_mod(2 * a + n, 2 * n);
    let m = (2 * a + n) % (2 * n);
    assert(0 <= m < 2 * n);
    assert(2 * a + n == 2 * (q * n) + m) by (nonlinear_arith)
        requires
            2 * a + n == (2 * n) * q + m,
    ;
    assert((-q) * n == -(q * n)) by (nonlinear_arith);
    let r = rounded(sum, n);
    assert(-n <= 2 * (r * n - sum) <= n);
    assert(r >= lo) by (nonlinear_arith)
        requires
            n > 0,
            lo * n <= sum,
            -n <= 2 * (r * n - sum),
    ;
    assert(r <= hi) by (nonlinear_arith)
        requires
            n > 0,
            sum <= hi * n,
            2 * (r * n - sum) <= n,
    ;
}

/// The bounds of tiles are the least and greatest coordinates that occur among them, and the
/// centre lies within: its first two coordinates are no further than half a tile from the mean
/// of those of the tiles, and where it is half a tile exactly, away from zero. It is on the level
/// of the last tile.
pub proof fn a_centre_lies_within_the_bounds(tiles: Seq<Cell>)
    requires
        tiles.len() > 0,
    ensures
        ({
            let b = bounds(tiles);
            &&& forall|i: int| 0 <= i < tiles.len() ==> b.0 <= (#[trigger] tiles[i]).0 <= b.2 && b.1 <= tiles[i].1 <= b.3
            &&& exists|i: int| 0 <= i < tiles.len() && (#[trigger] tiles[i]).0 == b.0
            &&& exists|i: int| 0 <= i < tiles.len() && (#[trigger] tiles[i]).1 == b.1
            &&& exists|i: int| 0 <= i < tiles.len() && (#[trigger] tiles[i]).0 == b.2
            &&& exists|i: int| 0 <= i < tiles.len() && (#[trigger] tiles[i]).1 == b.3
        }),
        ({
            let b = bounds(tiles);
            let c = centre(tiles);
            let n = tiles.len() as int;
            &&& b.0 <= c.0 <= b.2
            &&& b.1 <= c.1 <= b.3
            &&& -n <= 2 * (c.0 * n - sum_x(tiles)) <= n
            &&& -n <= 2 * (c.1 * n - sum_y(tiles)) <= n
            &&& sum_x(tiles) >= 0 ==> -n < 2 * (c.0 * n - sum_x(tiles))
            &&& sum_x(tiles) < 0 ==> 2 * (c.0 * n - sum_x(tiles)) < n
            &&& sum_y(tiles) >= 0 ==> -n < 2 * (c.1 * n - sum_y(tiles))
            &&& sum_y(tiles) < 0 ==> 2 * (c.1 * n - sum_y(tiles)) < n
            &&& c.2 == tiles[tiles.len() - 1].2
        }),
{
    lemma_bounds(tiles);
    let b = bounds(tiles);
    let n = tiles.len() as int;
    lemma_sums(tiles, b.0 as int, b.2 as int, b.1 as int, b.3 as int);
    lemma_rounded(sum_x(tiles), n, b.0 as int, b.2 as int);
    lemma_rounded(sum_y(tiles), n, b.1 as int, b.3 as int);
    assert(tiles[n - 1].2 == centre(tiles).2);
}

// ── Violations ───────────────────────────────────────────────────────

/// Whether a text is another with the coordinates of a position put in: the first for `{x}`, the
/// second for `{y}`, the third for `{z}`.
pub open spec fn with_position(given: Seq<char>, x: int, y: int, z: int, text: Seq<char>) -> bool {
    text == replaced(replaced(replaced(given, "{x}"@, dec(x)), "{y}"@, dec(y)), "{z}"@, dec(z))
}

/// Whether a violation tells of an instance: it has the instance's position and path, and its
/// message is the given one with that position put in.
pub open spec fn tells_of(v: ViolationView, l: Located, given: Seq<char>) -> bool {
    &&& v.pos == l.pos
    &&& v.anchor_path == l.prefab.path
    &&& with_position(given, l.pos.0 as int, l.pos.1 as int, l.pos.2 as int, v.message)
}

/// Whether a violation tells of an area: it has the area's path and the centre of its tiles, and
/// its message is the given one with both put in.
pub open spec fn tells_of_area(v: ViolationView, path: Seq<char>, tiles: Seq<Cell>, given: Seq<char>) -> bool {
    let c = centre(tiles);
    &&& tiles.len() > 0
    &&& v.pos == c
    &&& v.anchor_path == path
    &&& v.message == replaced(
        replaced(replaced(replaced(given, "{x}"@, dec(c.0 as int)), "{y}"@, dec(c.1 as int)), "{z}"@, dec(c.2 as int)),
        "{area}"@,
        path,
    )
}

/// Whether a rule is what a definition says: its anchor, and its id, severity and message where
/// it gives them, which by default are made of the file and the number, `warning`, and a
/// sentence that names the rule.
pub open spec fn defines(f: FieldsView, file: Seq<char>, i: int, rule: RuleView) -> bool {
    &&& f.anchor == Ok::<Seq<char>, Seq<char>>(rule.anchor)
    &&& f.check_error is None
    &&& rule.source_file == file
    &&& match f.id {
        Some(id) => rule.id == id,
        None => rule.id == file + "-rule-"@ + dec(i),
    }
    &&& match f.severity {
        Some(t) => rule.severity == t,
        None => rule.severity == "warning"@,
    }
    &&& match f.message {
        Some(m) => rule.message == m,
        None => rule.message == "Rule '"@ + rule.id + "' failed"@,
    }
}

/// Whether one of the events brought the definition of a rule.
pub open spec fn was_defined(files: Seq<FileView>, events: Seq<EventView>, rule: RuleView) -> bool {
    exists|k: int, n: int, i: int|
        #![trigger events[k], files[n], dec(i)]
        0 <= k < events.len() && 0 <= n < files.len() && (match events[k] {
            EventView::RuleFound(f) => defines(f, files[n].name, i, rule),
            _ => false,
        })
}

/// What is known of the stage of an evaluation: a rule under way was defined, and its subjects
/// are those of its anchor.
spec fn on_course(index: &SpatialIndex, files: Seq<FileView>, events: Seq<EventView>, s: EvalView) -> bool {
    &&& s.files == files
    &&& match s.stage {
        StageView::Read(n) => 0 <= n < files.len(),
        StageView::Load(n, _) => 0 <= n < files.len(),
        StageView::Rule(n, count, i) => 0 <= n < files.len() && 0 <= i < count,
        StageView::Check(run) => {
            &&& 0 <= run.file < files.len()
            &&& 0 <= run.number < run.count
            &&& 0 <= run.at < run.subjects.len()
            &&& run.subjects == subjects_of(index, run.rule.anchor)
            &&& was_defined(files, events, run.rule)
        },
        StageView::Done => true,
    }
}

proof fn lemma_defined_before(files: Seq<FileView>, events: Seq<EventView>, rule: RuleView)
    requires
        events.len() > 0,
        was_defined(files, events.drop_last(), rule),
    ensures
        was_defined(files, events, rule),
{
    let front = events.drop_last();
    let (k, n, i) = choose|k: int, n: int, i: int|
        #![trigger front[k], files[n], dec(i)]
        0 <= k < front.len() && 0 <= n < files.len() && (match front[k] {
            EventView::RuleFound(f) => defines(f, files[n].name, i, rule),
            _ => false,
        });
    assert(events[k] == front[k]);
    let d = dec(i);
    let name = files[n];
}

proof fn lemma_on_course(index: &SpatialIndex, files: Seq<FileView>, events: Seq<EventView>)
    ensures
        on_course(index, files, events, stepped_through(index, begun(files), events)),
    decreases events.len(),
{
    if events.len() > 0 {
        let front = events.drop_last();
        lemma_on_course(index, files, front);
        let s = stepped_through(index, begun(files), front);
        let t = stepped(index, s, events.last());
        match (s.stage, events.last()) {
            (StageView::Rule(n, count, i), EventView::RuleFound(f)) => {
                if let StageView::Check(run) = t.stage {
                    assert(defines(f, files[n].name, i, run.rule));
                    assert(events[events.len() - 1] == events.last());
                    let d = dec(i);
                    let name = files[n];
                    assert(was_defined(files, events, run.rule));
                }
            },
            (StageView::Check(run), _) => {
                lemma_defined_before(files, events, run.rule);
            },
            _ => {},
        }
    }
}

/// Whether a check answered with the message of a violation: with `false`, which leaves it to
/// the rule, or with a text of its own, which is not empty.
pub open spec fn answered_with(events: Seq<EventView>, rule: RuleView, given: Seq<char>) -> bool {
    ||| given == rule.message && events.contains(EventView::Returned(JsView::Bool(false)))
    ||| given.len() > 0 && events.contains(EventView::Returned(JsView::Str(given)))
}

proof fn lemma_answered_before(events: Seq<EventView>, rule: RuleView, given: Seq<char>)
    requires
        events.len() > 0,
        answered_with(events.drop_last(), rule, given),
    ensures
        answered_with(events, rule, given),
{
    let front = events.drop_last();
    let ev = if given == rule.message && front.contains(EventView::Returned(JsView::Bool(false))) {
        EventView::Returned(JsView::Bool(false))
    } else {
        EventView::Returned(JsView::Str(given))
    };
    let i = choose|i: int| 0 <= i < front.len() && front[i] == ev;
    assert(events[i] == ev);
}

/// Every violation is of a rule that was defined, with that rule's id and severity, and answers
/// to a check that failed. If the rule's anchor is no area, the violation is at the position of
/// an instance of the anchor and has its path, and `{x}`, `{y}`, `{z}` in its message stand for
/// that instance's coordinates; otherwise it is at the centre of an area of the map whose path
/// begins with the anchor.
pub proof fn every_violation_is_of_an_anchor(
    index: &SpatialIndex,
    files: Seq<FileView>,
    events: Seq<EventView>,
    k: int,
) -> (r: (RuleView, Located, Seq<char>))
    requires
        0 <= k < stepped_through(index, begun(files), events).result.violations.len(),
    ensures
        ({
            let v = stepped_through(index, begun(files), events).result.violations[k];
            let (rule, l, given) = r;
            &&& was_defined(files, events, rule)
            &&& answered_with(events, rule, given)
            &&& v.rule_id == rule.id
            &&& v.severity == rule.severity
            &&& if starts_with(rule.anchor, "/area"@) {
                &&& index.area_paths().contains(v.anchor_path)
                &&& starts_with(v.anchor_path, rule.anchor)
                &&& tells_of_area(v, v.anchor_path, index.area_positions(v.anchor_path), given)
            } else {
                &&& index.instances(rule.anchor).contains(l)
                &&& tells_of(v, l, given)
            }
        }),
    decreases events.len(),
{
    let front = events.drop_last();
    let s = stepped_through(index, begun(files), front);
    let ev = events.last();
    let v = stepped_through(index, begun(files), events).result.violations[k];
    if k < s.result.violations.len() {
        let r = every_violation_is_of_an_anchor(index, files, front, k);
        lemma_defined_before(files, events, r.0);
        lemma_answered_before(events, r.0, r.2);
        r
    } else {
        lemma_on_course(index, files, front);
        match (s.stage, ev) {
            (StageView::Check(run), EventView::Returned(value)) => {
                let rule = run.rule;
                let given = match value {
                    JsView::Str(t) => t,
                    _ => rule.message,
                };
                lemma_defined_before(files, events, rule);
                assert(events[events.len() - 1] == ev);
                if starts_with(rule.anchor, "/area"@) {
                    area_subjects_lie_at_their_centres(index, rule.anchor, run.at);
                    (rule, Located { pos: v.pos, prefab: PrefabView { path: v.anchor_path, vars: Seq::empty() } }, given)
                } else {
                    subjects_stand_where_the_anchor_does(index, rule.anchor);
                    (rule, index.instances(rule.anchor)[run.at], given)
                }
            },
            _ => {
                assert(false);
                (
                    RuleView {
                        id: v.rule_id,
                        anchor: v.anchor_path,
                        severity: v.severity,
                        message: v.message,
                        source_file: v.rule_id,
                    },
                    Located { pos: v.pos, prefab: PrefabView { path: v.anchor_path, vars: Seq::empty() } },
                    v.message,
                )
            },
        }
    }
}

/// In a coherent index the tile at the position of an instance holds that instance, and its path
/// is the one asked for or lies below it. So what a violation tells of stands where it says.
pub proof fn an_instance_stands_on_its_tile(index: &SpatialIndex, anchor: Seq<char>, l: Located)
    requires
        coherent(index),
        index.instances(anchor).contains(l),
    ensures
        under(anchor, l.prefab.path),
        exists|p: PrefabView| #[trigger] index.tile(l.pos).contains(p) && p.ident() == l.prefab.ident(),
{
    let list = index.instances(anchor);
    let i = choose|i: int| 0 <= i < list.len() && list[i] == l;
    let p = stands(l.pos, l.prefab);
    tally_positive(list, p);
    assert(p(list[i]));
    assert(tally(list, p) > 0);
    let t = index.tile(l.pos);
    tally_positive(t, is_same(l.prefab));
    let j = choose|j: int| 0 <= j < t.len() && is_same(l.prefab)(#[trigger] t[j]);
    assert(t.contains(t[j]));
}

// ── What a step does ─────────────────────────────────────────────────

/// A check that returns `false` is reported with the message of its rule and one that returns a
/// text that is not empty with that text, both of the subject that was checked; a check that
/// returns anything else has passed. Either way the errors stay.
pub proof fn a_failed_check_is_reported(index: &SpatialIndex, s: EvalView, run: RunView, value: JsView, l: Located)
    requires
        s.stage == StageView::Check(run),
        !starts_with(run.rule.anchor, "/area"@),
        run.subjects == subjects_of(index, run.rule.anchor),
        0 <= run.at < run.subjects.len(),
        l == index.instances(run.rule.anchor)[run.at],
    ensures
        ({
            let before = s.result;
            let after = stepped(index, s, EventView::Returned(value)).result;
            let n = before.violations.len();
            let failed = value == JsView::Bool(false) || (value is Str && value->Str_0.len() > 0);
            &&& after.errors == before.errors
            &&& after.violations.take(n as int) == before.violations
            &&& after.violations.len() == n + if failed { 1nat } else { 0 }
            &&& failed ==> after.violations[n as int].rule_id == run.rule.id && after.violations[n as int].severity
                == run.rule.severity
            &&& value == JsView::Bool(false) ==> tells_of(after.violations[n as int], l, run.rule.message)
            &&& value is Str && value->Str_0.len() > 0 ==> tells_of(after.violations[n as int], l, value->Str_0)
        }),
{
    subjects_stand_where_the_anchor_does(index, run.rule.anchor);
    let after = stepped(index, s, EventView::Returned(value)).result;
    assert(after.violations.take(s.result.violations.len() as int) =~= s.result.violations);
}

/// A check that throws is no violation: the error names the rule and the position of the
/// instance, its coordinates in order.
pub proof fn a_throwing_check_is_an_error(index: &SpatialIndex, s: EvalView, run: RunView, e: Seq<char>, l: Located)
    requires
        s.stage == StageView::Check(run),
        !starts_with(run.rule.anchor, "/area"@),
        run.subjects == subjects_of(index, run.rule.anchor),
        0 <= run.at < run.subjects.len(),
        l == index.instances(run.rule.anchor)[run.at],
    ensures
        ({
            let after = stepped(index, s, EventView::Threw(e)).result;
            &&& after.violations == s.result.violations
            &&& after.errors == s.result.errors.push(
                "Rule '"@ + run.rule.id + "' threw at ("@ + dec(l.pos.0 as int) + ","@ + dec(l.pos.1 as int) + ","@ + dec(
                    l.pos.2 as int,
                ) + "): "@ + e,
            )
        }),
{
    subjects_stand_where_the_anchor_does(index, run.rule.anchor);
}

/// A definition with an anchor and a check function counts as one rule, and its anchors are
/// those on the map: the instances, or every area whose path begins with the anchor. One without
/// counts for nothing and is an error that names the rule and what is missing, the anchor first.
pub proof fn a_rule_counts_its_anchors(index: &SpatialIndex, s: EvalView, n: int, count: int, i: int, f: FieldsView)
    requires
        s.stage == StageView::Rule(n, count, i),
    ensures
        ({
            let after = stepped(index, s, EventView::RuleFound(f)).result;
            let id = match f.id {
                Some(id) => id,
                None => s.files[n].name + "-rule-"@ + dec(i),
            };
            &&& after.violations == s.result.violations
            &&& match (f.anchor, f.check_error) {
                (Ok(anchor), None) => {
                    &&& after.errors == s.result.errors
                    &&& after.rules_evaluated == s.result.rules_evaluated + 1
                    &&& !starts_with(anchor, "/area"@) ==> after.anchors_checked == s.result.anchors_checked
                        + index.instances(anchor).len()
                    &&& starts_with(anchor, "/area"@) ==> after.anchors_checked == s.result.anchors_checked + matching_areas(
                        index.area_paths(),
                        anchor,
                    ).len()
                },
                (Ok(_), Some(e)) => {
                    &&& after.errors == s.result.errors.push("Rule '"@ + id + "': missing check function: "@ + e)
                    &&& after.rules_evaluated == s.result.rules_evaluated
                    &&& after.anchors_checked == s.result.anchors_checked
                },
                (Err(e), _) => {
                    &&& after.errors == s.result.errors.push("Rule '"@ + id + "': missing anchor: "@ + e)
                    &&& after.rules_evaluated == s.result.rules_evaluated
                    &&& after.anchors_checked == s.result.anchors_checked
                },
            }
        }),
{
}

/// A rule that was found and has subjects is checked on the first of them, and the rule that is
/// checked is the one that its definition says.
pub proof fn a_found_rule_is_checked_from_its_first_subject(
    index: &SpatialIndex,
    s: EvalView,
    n: int,
    count: int,
    i: int,
    f: FieldsView,
    anchor: Seq<char>,
)
    requires
        s.stage == StageView::Rule(n, count, i),
        f.anchor == Ok::<Seq<char>, Seq<char>>(anchor),
        f.check_error is None,
        subjects_of(index, anchor).len() > 0,
    ensures
        match stepped(index, s, EventView::RuleFound(f)).stage {
            StageView::Check(run) => {
                &&& defines(f, s.files[n].name, i, run.rule)
                &&& run.file == n && run.count == count && run.number == i
                &&& run.subjects == subjects_of(index, anchor)
                &&& run.at == 0
            },
            _ => false,
        },
{
}

/// What a check function gets is made of the subject that is due, and the next one is due after
/// it; after the last the next rule is, and after the last rule the next file.
pub proof fn subjects_are_taken_in_turn(index: &SpatialIndex, s: EvalView, run: RunView, ev: EventView)
    requires
        s.stage == StageView::Check(run),
        ev is Returned || ev is Threw,
    ensures
        crate::evaluate::subject_script(run) == crate::scripts::parse_script(run.subjects[run.at].descriptor),
        stepped(index, s, ev).stage == (if run.at + 1 < run.subjects.len() {
            StageView::Check(RunView { at: run.at + 1, ..run })
        } else if run.number + 1 < run.count {
            StageView::Rule(run.file, run.count, run.number + 1)
        } else if run.file + 1 < s.files.len() {
            StageView::Read(run.file + 1)
        } else {
            StageView::Done
        }),
{
}

/// A file that was read is loaded by the script that holds its text, under its name.
pub proof fn a_file_that_was_read_is_loaded(index: &SpatialIndex, s: EvalView, n: int, source: Seq<char>)
    requires
        s.stage == StageView::Read(n),
    ensures
        ({
            let t = stepped(index, s, EventView::ReadDone(source));
            &&& t.stage == StageView::Load(
                n,
                crate::scripts::RULE_HEAD@ + crate::scripts::quoted_for(s.files[n].name, '"') + crate::scripts::RULE_MIDDLE@
                    + source + crate::scripts::RULE_TAIL@,
            )
            &&& t.result == s.result
            &&& t.files == s.files
        }),
{
    crate::scripts::scripts_quote_alike(JsonView::Null, s.files[n].name);
}

/// Files are taken in order and none is passed over: if none of them can be read, each is an
/// error that names it, and the evaluation is done.
pub proof fn every_file_is_tried(index: &SpatialIndex, files: Seq<FileView>, reasons: Seq<Seq<char>>)
    requires
        files.len() > 0,
        reasons.len() <= files.len(),
    ensures
        ({
            let s = stepped_through(index, begun(files), reasons.map_values(|e: Seq<char>| EventView::ReadFailed(e)));
            &&& s.files == files
            &&& s.result.errors.len() == reasons.len()
            &&& forall|i: int|
                0 <= i < reasons.len() ==> #[trigger] s.result.errors[i] == "Failed to read "@ + files[i].path + ": "@ + reasons[i]
            &&& s.stage == (if reasons.len() < files.len() {
                StageView::Read(reasons.len() as int)
            } else {
                StageView::Done
            })
            &&& s.result.violations.len() == 0
            &&& s.result.rules_evaluated == 0
        }),
    decreases reasons.len(),
{
    let events = reasons.map_values(|e: Seq<char>| EventView::ReadFailed(e));
    if reasons.len() > 0 {
        let front = reasons.drop_last();
        every_file_is_tried(index, files, front);
        assert(events.drop_last() =~= front.map_values(|e: Seq<char>| EventView::ReadFailed(e)));
    }
}

/// The rules of a file are taken in order and none is passed over: if none of the first can be
/// had, each is an error that gives its number, and the next one is due, or the next file.
pub proof fn every_rule_is_tried(index: &SpatialIndex, s: EvalView, n: int, count: int, reasons: Seq<Seq<char>>)
    requires
        s.stage == StageView::Rule(n, count, 0),
        0 <= n < s.files.len(),
        0 < count,
        reasons.len() <= count,
    ensures
        ({
            let t = stepped_through(index, s, reasons.map_values(|e: Seq<char>| EventView::RuleFailed(e)));
            let m = s.result.errors.len();
            &&& t.files == s.files
            &&& t.result.errors.len() == m + reasons.len()
            &&& forall|i: int|
                0 <= i < reasons.len() ==> #[trigger] t.result.errors[m + i] == s.files[n].name + ": failed to get rule "@ + dec(
                    i,
                ) + ": "@ + reasons[i]
            &&& t.stage == (if reasons.len() < count {
                StageView::Rule(n, count, reasons.len() as int)
            } else if n + 1 < s.files.len() {
                StageView::Read(n + 1)
            } else {
                StageView::Done
            })
        }),
    decreases reasons.len(),
{
    let events = reasons.map_values(|e: Seq<char>| EventView::RuleFailed(e));
    if reasons.len() > 0 {
        let front = reasons.drop_last();
        every_rule_is_tried(index, s, n, count, front);
        assert(events.drop_last() =~= front.map_values(|e: Seq<char>| EventView::RuleFailed(e)));
    }
}

/// What a file gives decides what comes next: a source is loaded, an array of rules is looked
/// through from its first, an empty one and anything else end the file.
pub proof fn loading_leads_on(index: &SpatialIndex, s: EvalView, n: int, script: Seq<char>, count: int, e: Seq<char>)
    requires
        s.stage == StageView::Load(n, script),
    ensures
        ({
            let next = if n + 1 < s.files.len() { StageView::Read(n + 1) } else { StageView::Done };
            let loaded = stepped(index, s, EventView::Loaded(count));
            let broken = stepped(index, s, EventView::LoadFailed(e));
            let other = stepped(index, s, EventView::NotArray);
            &&& loaded.stage == (if count > 0 { StageView::Rule(n, count, 0) } else { next })
            &&& loaded.result == s.result
            &&& broken.stage == next
            &&& broken.result.errors == s.result.errors.push("Error loading "@ + s.files[n].name + ": "@ + e)
            &&& other.stage == next
            &&& other.result.errors == s.result.errors.push(s.files[n].name + ": rules did not return an array"@)
        }),
{
}

} // verus!
