//! What holds of the spatial index as a whole.

use crate::counting::{
    first_place, first_place_is_first, first_place_unique, tally, tally_agrees, tally_positive, tally_push, tally_without_first,
    without_first,
};
use crate::index::{
    at_cell, column_around, columns_around, is_area, is_cell, is_same, last_area, located_all, next_to,
    of_area, of_type, positions, square_around, stands, under, unlocated, Located, SpatialIndex,
};
use crate::prefab::PrefabView;
use crate::tables::{is_name, Cell};
use vstd::prelude::*;

verus! {

/// Whether a prefab has the given path.
pub open spec fn has_path(a: Seq<char>) -> spec_fn(PrefabView) -> bool {
    |q: PrefabView| q.path == a
}

/// Whether the area of a tile is the given one.
pub open spec fn stands_in(index: &SpatialIndex, pos: Cell, a: Seq<char>) -> bool {
    index.area_at(pos) == Some(a)
}

/// The parts of an index agree: each list holds a prefab at a position as often as the tile
/// does, an area covers a tile as often as it stands on it, and the area of a tile stands on
/// it.
pub open spec fn coherent(index: &SpatialIndex) -> bool {
    &&& forall|q: Seq<char>, pos: Cell, p: PrefabView| #[trigger]
        tally(index.instances(q), stands(pos, p)) == (if under(q, p.path) {
            tally(index.tile(pos), is_same(p))
        } else {
            0
        })
    &&& forall|a: Seq<char>, pos: Cell| #[trigger]
        tally(index.area_positions(a), is_cell(pos)) == (if is_area(a) {
            tally(index.tile(pos), has_path(a))
        } else {
            0
        })
    &&& forall|pos: Cell, a: Seq<char>| #[trigger]
        stands_in(index, pos, a) ==> is_area(a) && tally(index.tile(pos), has_path(a)) > 0
}

proof fn lemma_tally_filter<T>(s: Seq<T>, f: spec_fn(T) -> bool, g: spec_fn(T) -> bool)
    ensures
        tally(s.filter(f), g) == tally(s, |x: T| f(x) && g(x)),
    decreases s.len(),
{
    reveal(Seq::filter);
    if s.len() > 0 {
        lemma_tally_filter(s.drop_last(), f, g);
        if f(s.last()) {
            tally_push(s.drop_last().filter(f), s.last(), g);
        }
    }
}

proof fn lemma_tally_map<T, U>(s: Seq<T>, h: spec_fn(T) -> U, g: spec_fn(U) -> bool)
    ensures
        tally(s.map_values(h), g) == tally(s, |x: T| g(h(x))),
    decreases s.len(),
{
    if s.len() > 0 {
        lemma_tally_map(s.drop_last(), h, g);
        assert(s.map_values(h).drop_last() =~= s.drop_last().map_values(h));
    }
}

proof fn lemma_tally_never<T>(s: Seq<T>, p: spec_fn(T) -> bool)
    requires
        forall|i: int| 0 <= i < s.len() ==> !p(#[trigger] s[i]),
    ensures
        tally(s, p) == 0,
{
    tally_positive(s, p);
}

/// An index built from a map is coherent.
pub proof fn built_index_is_coherent(index: &SpatialIndex, done: Seq<Located>)
    requires
        index.files(done),
    ensures
        coherent(index),
{
    assert forall|q: Seq<char>, pos: Cell, p: PrefabView| #[trigger]
        tally(index.instances(q), stands(pos, p)) == (if under(q, p.path) {
            tally(index.tile(pos), is_same(p))
        } else {
            0
        }) by {
        let f = of_type(q);
        let g = stands(pos, p);
        lemma_tally_filter(done, f, g);
        let both = |l: Located| f(l) && g(l);
        let here = at_cell(pos);
        let h = |l: Located| l.prefab;
        let same = is_same(p);
        lemma_tally_map(done.filter(here), h, same);
        let via = |l: Located| same(h(l));
        lemma_tally_filter(done, here, via);
        let other = |l: Located| here(l) && via(l);
        assert(index.tile(pos) == unlocated(done.filter(here)));
        if under(q, p.path) {
            tally_agrees(done, both, other);
        } else {
            lemma_tally_never(done, both);
        }
    }
    assert forall|a: Seq<char>, pos: Cell| #[trigger]
        tally(index.area_positions(a), is_cell(pos)) == (if is_area(a) {
            tally(index.tile(pos), has_path(a))
        } else {
            0
        }) by {
        let f = of_area(a);
        let h = |l: Located| l.pos;
        let g = is_cell(pos);
        lemma_tally_map(done.filter(f), h, g);
        let via = |l: Located| g(h(l));
        lemma_tally_filter(done, f, via);
        let both = |l: Located| f(l) && via(l);
        let here = at_cell(pos);
        let h2 = |l: Located| l.prefab;
        let named = has_path(a);
        lemma_tally_map(done.filter(here), h2, named);
        let via2 = |l: Located| named(h2(l));
        lemma_tally_filter(done, here, via2);
        let other = |l: Located| here(l) && via2(l);
        assert(index.tile(pos) == unlocated(done.filter(here)));
        assert(index.area_positions(a) == positions(done.filter(f)));
        if is_area(a) {
            tally_agrees(done, both, other);
        } else {
            lemma_tally_never(done, both);
        }
    }
    assert forall|pos: Cell, a: Seq<char>| #[trigger] stands_in(index, pos, a) implies is_area(a) && tally(
        index.tile(pos),
        has_path(a),
    ) > 0 by {
        let i = lemma_last_area(done, pos);
        let here = at_cell(pos);
        let h2 = |l: Located| l.prefab;
        let named = has_path(a);
        lemma_tally_map(done.filter(here), h2, named);
        let via2 = |l: Located| named(h2(l));
        lemma_tally_filter(done, here, via2);
        let other = |l: Located| here(l) && via2(l);
        assert(index.tile(pos) == unlocated(done.filter(here)));
        tally_positive(done, other);
        assert(other(done[i]));
    }
}

proof fn lemma_last_area(s: Seq<Located>, c: Cell) -> (i: int)
    requires
        last_area(s, c) is Some,
    ensures
        0 <= i < s.len(),
        s[i].pos == c,
        is_area(s[i].prefab.path),
        last_area(s, c) == Some(s[i].prefab.path),
    decreases s.len(),
{
    if s.last().pos == c && is_area(s.last().prefab.path) {
        s.len() - 1
    } else {
        let i = lemma_last_area(s.drop_last(), c);
        assert(s.drop_last()[i] == s[i]);
        i
    }
}

/// Adding an object keeps an index coherent.
pub proof fn adding_keeps_coherence(before: &SpatialIndex, after: &SpatialIndex, pos: Cell, p: PrefabView)
    requires
        coherent(before),
        after.holds_added(before, pos, p),
    ensures
        coherent(after),
{
    assert forall|q: Seq<char>, c: Cell, r: PrefabView| #[trigger]
        tally(after.instances(q), stands(c, r)) == (if under(q, r.path) {
            tally(after.tile(c), is_same(r))
        } else {
            0
        }) by {
        assert(tally(before.instances(q), stands(c, r)) == (if under(q, r.path) {
            tally(before.tile(c), is_same(r))
        } else {
            0
        }));
        tally_push(before.instances(q), Located { pos, prefab: p }, stands(c, r));
        tally_push(before.tile(pos), p, is_same(r));
        assert(after.tile(c) == (if c == pos { before.tile(c).push(p) } else { before.tile(c) }));
        assert(p.ident() == r.ident() ==> p.path == r.path);
    }
    assert forall|a: Seq<char>, c: Cell| #[trigger]
        tally(after.area_positions(a), is_cell(c)) == (if is_area(a) {
            tally(after.tile(c), has_path(a))
        } else {
            0
        }) by {
        assert(tally(before.area_positions(a), is_cell(c)) == (if is_area(a) {
            tally(before.tile(c), has_path(a))
        } else {
            0
        }));
        tally_push(before.area_positions(a), pos, is_cell(c));
        tally_push(before.tile(pos), p, has_path(a));
        assert(after.tile(c) == (if c == pos { before.tile(c).push(p) } else { before.tile(c) }));
    }
    assert forall|c: Cell, a: Seq<char>| #[trigger] stands_in(after, c, a) implies is_area(a) && tally(
        after.tile(c),
        has_path(a),
    ) > 0 by {
        assert(before.area_at(c) == Some(a) ==> stands_in(before, c, a));
        tally_push(before.tile(pos), p, has_path(a));
        assert(after.tile(c) == (if c == pos { before.tile(c).push(p) } else { before.tile(c) }));
    }
}

/// Removing an object that stands on its tile keeps an index coherent.
pub proof fn removing_keeps_coherence(before: &SpatialIndex, after: &SpatialIndex, pos: Cell, p: PrefabView)
    requires
        coherent(before),
        after.holds_removed(before, pos, p),
        tally(before.tile(pos), is_same(p)) > 0,
    ensures
        coherent(after),
{
    let gone = before.tile(pos)[first_place(before.tile(pos), is_same(p))];
    first_place_is_first(before.tile(pos), is_same(p));
    tally_without_first(before.tile(pos), is_same(p), is_same(p));
    assert(gone.ident() == p.ident());
    assert(gone.path == p.path);
    assert forall|q: Seq<char>, c: Cell, r: PrefabView| #[trigger]
        tally(after.instances(q), stands(c, r)) == (if under(q, r.path) {
            tally(after.tile(c), is_same(r))
        } else {
            0
        }) by {
        assert(tally(before.instances(q), stands(c, r)) == (if under(q, r.path) {
            tally(before.tile(c), is_same(r))
        } else {
            0
        }));
        assert(after.tile(c) == (if c == pos { without_first(before.tile(c), is_same(p)) } else { before.tile(c) }));
        tally_without_first(before.tile(pos), is_same(p), is_same(r));
        if under(q, p.path) {
            assert(tally(before.instances(q), stands(pos, p)) == tally(before.tile(pos), is_same(p)));
            tally_without_first(before.instances(q), stands(pos, p), stands(c, r));
            first_place_is_first(before.instances(q), stands(pos, p));
        }
        assert(p.ident() == r.ident() ==> p.path == r.path);
    }
    assert forall|a: Seq<char>, c: Cell| #[trigger]
        tally(after.area_positions(a), is_cell(c)) == (if is_area(a) {
            tally(after.tile(c), has_path(a))
        } else {
            0
        }) by {
        assert(tally(before.area_positions(a), is_cell(c)) == (if is_area(a) {
            tally(before.tile(c), has_path(a))
        } else {
            0
        }));
        assert(after.tile(c) == (if c == pos { without_first(before.tile(c), is_same(p)) } else { before.tile(c) }));
        tally_without_first(before.tile(pos), is_same(p), has_path(a));
        if is_area(p.path) && a == p.path {
            assert(tally(before.area_positions(a), is_cell(pos)) == tally(before.tile(pos), has_path(a)));
            tally_without_first(before.area_positions(a), is_cell(pos), is_cell(c));
            first_place_is_first(before.area_positions(a), is_cell(pos));
        }
    }
    assert forall|c: Cell, a: Seq<char>| #[trigger] stands_in(after, c, a) implies is_area(a) && tally(
        after.tile(c),
        has_path(a),
    ) > 0 by {
        assert(stands_in(before, c, a));
        tally_without_first(before.tile(pos), is_same(p), has_path(a));
        assert(after.tile(c) == (if c == pos { without_first(before.tile(c), is_same(p)) } else { before.tile(c) }));
    }
}

/// Removing an object that was just added leaves every tile and every list with what it held,
/// the order within one list aside, and leaves the tiles of every area as they were.
pub proof fn removal_undoes_addition(
    before: &SpatialIndex,
    added: &SpatialIndex,
    after: &SpatialIndex,
    pos: Cell,
    p: PrefabView,
)
    requires
        added.holds_added(before, pos, p),
        after.holds_removed(added, pos, p),
    ensures
        forall|c: Cell, r: PrefabView| #[trigger] tally(after.tile(c), is_same(r)) == tally(before.tile(c), is_same(r)),
        forall|q: Seq<char>, c: Cell, r: PrefabView| #[trigger]
            tally(after.instances(q), stands(c, r)) == tally(before.instances(q), stands(c, r)),
        forall|a: Seq<char>, c: Cell| #[trigger]
            tally(after.area_positions(a), is_cell(c)) == tally(before.area_positions(a), is_cell(c)),
{
    assert forall|c: Cell, r: PrefabView| #[trigger] tally(after.tile(c), is_same(r)) == tally(before.tile(c), is_same(r)) by {
        assert(added.tile(c) == (if c == pos { before.tile(c).push(p) } else { before.tile(c) }));
        assert(after.tile(c) == (if c == pos { without_first(added.tile(c), is_same(p)) } else { added.tile(c) }));
        tally_push(before.tile(pos), p, is_same(r));
        tally_push(before.tile(pos), p, is_same(p));
        tally_without_first(added.tile(pos), is_same(p), is_same(r));
        first_place_is_first(added.tile(pos), is_same(p));
    }
    assert forall|q: Seq<char>, c: Cell, r: PrefabView| #[trigger]
        tally(after.instances(q), stands(c, r)) == tally(before.instances(q), stands(c, r)) by {
        assert(added.instances(q) == added.instances(q));
        let l = Located { pos, prefab: p };
        tally_push(before.instances(q), l, stands(c, r));
        tally_push(before.instances(q), l, stands(pos, p));
        tally_without_first(added.instances(q), stands(pos, p), stands(c, r));
        first_place_is_first(added.instances(q), stands(pos, p));
    }
    assert forall|a: Seq<char>, c: Cell| #[trigger]
        tally(after.area_positions(a), is_cell(c)) == tally(before.area_positions(a), is_cell(c)) by {
        assert(added.area_positions(a) == added.area_positions(a));
        tally_push(before.area_positions(a), pos, is_cell(c));
        tally_push(before.area_positions(a), pos, is_cell(pos));
        tally_without_first(added.area_positions(a), is_cell(pos), is_cell(c));
        first_place_is_first(added.area_positions(a), is_cell(pos));
    }
}

proof fn lemma_last_comes_off<T>(s: Seq<T>, x: T, p: spec_fn(T) -> bool)
    requires
        tally(s, p) == 0,
        p(x),
    ensures
        without_first(s.push(x), p) == s,
{
    let more = s.push(x);
    tally_positive(s, p);
    assert forall|j: int| 0 <= j < s.len() implies !p(#[trigger] more[j]) by {
        assert(more[j] == s[j]);
    }
    first_place_unique(more, p, s.len() as int);
    assert(more.remove(s.len() as int) =~= s);
}

/// Removing an object that was just added leaves every tile and every list as it was, in its
/// order, where no equal object stood on the tile before. What is known of areas is as it was
/// too: the tiles of each where none of that path stood on the tile, and the area of each tile
/// where the object is no area.
pub proof fn removal_restores_the_index(
    before: &SpatialIndex,
    added: &SpatialIndex,
    after: &SpatialIndex,
    pos: Cell,
    p: PrefabView,
)
    requires
        before.wf(),
        coherent(before),
        added.holds_added(before, pos, p),
        after.holds_removed(added, pos, p),
        tally(before.tile(pos), is_same(p)) == 0,
    ensures
        forall|c: Cell| #[trigger] after.tile(c) == before.tile(c),
        forall|q: Seq<char>| #[trigger] after.instances(q) == before.instances(q),
        tally(before.tile(pos), has_path(p.path)) == 0 ==> {
            &&& forall|a: Seq<char>| #[trigger] after.area_positions(a) == before.area_positions(a)
            &&& after.area_paths() == before.area_paths()
        },
        !is_area(p.path) ==> forall|c: Cell| #[trigger] after.area_at(c) == before.area_at(c),
        !is_area(p.path) ==> forall|a: Seq<char>| #[trigger] after.area_positions(a) == before.area_positions(a),
        !is_area(p.path) ==> after.area_paths() == before.area_paths(),
{
    lemma_last_comes_off(before.tile(pos), p, is_same(p));
    assert forall|c: Cell| #[trigger] after.tile(c) == before.tile(c) by {
        assert(added.tile(c) == added.tile(c));
    }
    assert forall|q: Seq<char>| #[trigger] after.instances(q) == before.instances(q) by {
        assert(added.instances(q) == added.instances(q));
        if under(q, p.path) {
            assert(tally(before.instances(q), stands(pos, p)) == tally(before.tile(pos), is_same(p)));
            lemma_last_comes_off(before.instances(q), Located { pos, prefab: p }, stands(pos, p));
        }
    }
    assert forall|a: Seq<char>| (!is_area(p.path) || tally(before.tile(pos), has_path(p.path)) == 0) implies #[trigger]
        after.area_positions(a) == before.area_positions(a) by {
        assert(added.area_positions(a) == added.area_positions(a));
        if is_area(p.path) && a == p.path {
            assert(tally(before.area_positions(a), is_cell(pos)) == tally(before.tile(pos), has_path(a)));
            lemma_last_comes_off(before.area_positions(a), pos, is_cell(pos));
        }
    }
    assert forall|c: Cell| !is_area(p.path) implies #[trigger] after.area_at(c) == before.area_at(c) by {
        assert(added.area_at(c) == added.area_at(c));
    }
    if is_area(p.path) && tally(before.tile(pos), has_path(p.path)) == 0 {
        before.wf_facts();
        let path = p.path;
        assert(after.area_positions(path) == before.area_positions(path));
        if before.area_positions(path).len() == 0 {
            assert(!before.area_paths().contains(path));
            let names = before.area_paths();
            assert(added.area_paths() == names.push(path));
            assert forall|j: int| 0 <= j < names.len() implies !is_name(path)(#[trigger] names[j]) by {
                assert(names.contains(names[j]));
            }
            tally_positive(names, is_name(path));
            lemma_last_comes_off(names, path, is_name(path));
        } else {
            assert(before.area_paths().contains(path));
        }
    }
}

/// A type that lies below another lies below everything that the other lies below.
pub proof fn under_is_transitive(a: Seq<char>, b: Seq<char>, c: Seq<char>)
    requires
        under(a, b),
        under(b, c),
    ensures
        under(a, c),
{
    if a != b && b != c {
        assert(c.take(a.len() as int) =~= b.take(a.len() as int)) by {
            assert(c.take(b.len() as int) == b);
        }
        assert(c.take(b.len() as int)[a.len() as int] == c[a.len() as int]);
    }
}

/// An instance of a type is an instance of every type above it.
pub proof fn subtypes_are_instances(index: &SpatialIndex, done: Seq<Located>, above: Seq<char>, below: Seq<char>, l: Located)
    requires
        index.files(done),
        under(above, below),
        index.instances(below).contains(l),
    ensures
        index.instances(above).contains(l),
{
    broadcast use vstd::seq_lib::group_filter_ensures;

    let found = done.filter(of_type(below));
    assert(index.instances(below) == found);
    let i = choose|i: int| 0 <= i < found.len() && found[i] == l;
    assert(of_type(below)(found[i]));
    let k = lemma_filter_source(done, of_type(below), i);
    under_is_transitive(above, below, l.prefab.path);
    assert(of_type(above)(done[k]));
    assert(index.instances(above) == done.filter(of_type(above)));
    assert(done.filter(of_type(above)).contains(done[k]));
}

proof fn lemma_filter_source(s: Seq<Located>, p: spec_fn(Located) -> bool, i: int) -> (k: int)
    requires
        0 <= i < s.filter(p).len(),
    ensures
        0 <= k < s.len(),
        s[k] == s.filter(p)[i],
    decreases s.len(),
{
    reveal(Seq::filter);
    if i < s.drop_last().filter(p).len() {
        let k = lemma_filter_source(s.drop_last(), p, i);
        assert(s.drop_last()[k] == s[k]);
        k
    } else {
        s.len() - 1
    }
}

// ── Surroundings ─────────────────────────────────────────────────────

proof fn lemma_column(x: int, y: int, z: i32, dx: int, radius: int, n: nat, c: Cell)
    requires
        n <= 2 * radius + 1,
        -radius <= dx <= radius,
        i32::MIN <= x - radius,
        x + radius <= i32::MAX,
        i32::MIN <= y - radius,
        y + radius <= i32::MAX,
    ensures
        column_around(x, y, z, dx, radius, n).contains(c) <==> c.2 == z && c.0 == x + dx && y - radius <= c.1 < y - radius + n
            && !(c.0 == x && c.1 == y),
    decreases n,
{
    if n > 0 {
        lemma_column(x, y, z, dx, radius, (n - 1) as nat, c);
        let before = column_around(x, y, z, dx, radius, (n - 1) as nat);
        let dy = n - 1 - radius;
        let cell = ((x + dx) as i32, (y + dy) as i32, z);
        lemma_push_contains(before, cell, c);
    }
}

proof fn lemma_push_contains(s: Seq<Cell>, x: Cell, c: Cell)
    ensures
        s.push(x).contains(c) <==> s.contains(c) || c == x,
{
    if s.contains(c) {
        let i = choose|i: int| 0 <= i < s.len() && s[i] == c;
        assert(s.push(x)[i] == c);
    }
    if c == x {
        assert(s.push(x)[s.len() as int] == c);
    }
}

proof fn lemma_columns(x: int, y: int, z: i32, radius: int, n: nat, c: Cell)
    requires
        n <= 2 * radius + 1,
        i32::MIN <= x - radius,
        x + radius <= i32::MAX,
        i32::MIN <= y - radius,
        y + radius <= i32::MAX,
    ensures
        columns_around(x, y, z, radius, n).contains(c) <==> c.2 == z && x - radius <= c.0 < x - radius + n && y - radius
            <= c.1 <= y + radius && !(c.0 == x && c.1 == y),
    decreases n,
{
    if n > 0 {
        lemma_columns(x, y, z, radius, (n - 1) as nat, c);
        let a = columns_around(x, y, z, radius, (n - 1) as nat);
        let b = column_around(x, y, z, n - 1 - radius, radius, (2 * radius + 1) as nat);
        lemma_column(x, y, z, n - 1 - radius, radius, (2 * radius + 1) as nat, c);
        lemma_add_contains(a, b, c);
    }
}

proof fn lemma_add_contains<T>(a: Seq<T>, b: Seq<T>, c: T)
    ensures
        (a + b).contains(c) <==> a.contains(c) || b.contains(c),
{
    if a.contains(c) {
        let i = choose|i: int| 0 <= i < a.len() && a[i] == c;
        assert((a + b)[i] == c);
    }
    if b.contains(c) {
        let i = choose|i: int| 0 <= i < b.len() && b[i] == c;
        assert((a + b)[a.len() + i] == c);
    }
    if (a + b).contains(c) {
        let i = choose|i: int| 0 <= i < (a + b).len() && (a + b)[i] == c;
        if i < a.len() {
            assert(a[i] == c);
        } else {
            assert(b[i - a.len()] == c);
        }
    }
}

proof fn lemma_objects_on(index: &SpatialIndex, cells: Seq<Cell>, l: Located)
    ensures
        index.objects_on(cells).contains(l) <==> cells.contains(l.pos) && index.tile(l.pos).contains(l.prefab),
    decreases cells.len(),
{
    if cells.len() > 0 {
        let front = cells.drop_last();
        let c = cells.last();
        lemma_objects_on(index, front, l);
        let here = located_all(c, index.tile(c));
        lemma_add_contains(index.objects_on(front), here, l);
        lemma_push_contains(front, c, l.pos);
        assert(front.push(c) =~= cells);
        assert(here.contains(l) <==> l.pos == c && index.tile(c).contains(l.prefab)) by {
            if here.contains(l) {
                let i = choose|i: int| 0 <= i < here.len() && here[i] == l;
                assert(index.tile(c)[i] == l.prefab);
            }
            if l.pos == c && index.tile(c).contains(l.prefab) {
                let i = choose|i: int| 0 <= i < index.tile(c).len() && index.tile(c)[i] == l.prefab;
                assert(here[i] == l);
            }
        }
    }
}

/// What is nearby is what stands on the same level, within the radius in both directions, and
/// not on the tile itself.
pub proof fn nearby_is_the_square(index: &SpatialIndex, x: i32, y: i32, z: i32, radius: i32, l: Located)
    requires
        radius >= 0,
        i32::MIN <= x - radius,
        x + radius <= i32::MAX,
        i32::MIN <= y - radius,
        y + radius <= i32::MAX,
    ensures
        index.objects_on(square_around(x as int, y as int, z, radius as int)).contains(l) <==> {
            &&& l.pos.2 == z
            &&& x - radius <= l.pos.0 <= x + radius
            &&& y - radius <= l.pos.1 <= y + radius
            &&& l.pos != (x, y, z)
            &&& index.tile(l.pos).contains(l.prefab)
        },
{
    lemma_columns(x as int, y as int, z, radius as int, (2 * radius + 1) as nat, l.pos);
    lemma_objects_on(index, square_around(x as int, y as int, z, radius as int), l);
}

/// What is in an area is what stands on one of its tiles.
pub proof fn area_objects_stand_on_its_tiles(index: &SpatialIndex, area: Seq<char>, l: Located)
    ensures
        index.objects_on(index.area_positions(area)).contains(l) <==> index.area_positions(area).contains(l.pos)
            && index.tile(l.pos).contains(l.prefab),
{
    lemma_objects_on(index, index.area_positions(area), l);
}

// ── Networks ─────────────────────────────────────────────────────────

proof fn lemma_reversed(index: &SpatialIndex, walk: Seq<Cell>, network: Seq<char>)
    requires
        index.runs_along(walk, network),
    ensures
        index.runs_along(walk.reverse(), network),
{
    let back = walk.reverse();
    assert forall|i: int| 0 <= i < back.len() implies index.carries(#[trigger] back[i], network) by {
        assert(back[i] == walk[walk.len() - 1 - i]);
    }
    assert forall|i: int| 0 < i < back.len() implies next_to(back[i - 1], #[trigger] back[i]) by {
        let j = walk.len() - i;
        assert(back[i] == walk[j - 1]);
        assert(back[i - 1] == walk[j]);
        assert(next_to(walk[j - 1], walk[j]));
    }
}

/// Reaching along a network goes both ways.
pub proof fn links_go_both_ways(index: &SpatialIndex, a: Cell, b: Cell, network: Seq<char>)
    requires
        index.linked(a, b, network),
    ensures
        index.linked(b, a, network),
{
    let walk = choose|walk: Seq<Cell>|
        #![trigger index.runs_along(walk, network)]
        walk.len() > 0 && walk[0] == a && walk.last() == b && index.runs_along(walk, network);
    lemma_reversed(index, walk, network);
    assert(walk.reverse()[0] == b);
    assert(walk.reverse().last() == a);
}

/// Tracing a network from any tile that a trace found finds the same tiles.
pub proof fn trace_does_not_depend_on_the_start(
    index: &SpatialIndex,
    network: Seq<char>,
    a: Cell,
    from_a: Seq<Cell>,
    b: Cell,
    from_b: Seq<Cell>,
)
    requires
        index.is_trace(a, network, from_a),
        from_a.contains(b),
        index.is_trace(b, network, from_b),
    ensures
        from_b.to_set() == from_a.to_set(),
        from_b.len() == from_a.len(),
{
    links_go_both_ways(index, a, b, network);
    assert forall|c: Cell| from_a.to_set().contains(c) <==> from_b.to_set().contains(c) by {
        if index.linked(a, c, network) {
            lemma_chained(index, b, a, c, network);
        }
        if index.linked(b, c, network) {
            lemma_chained(index, a, b, c, network);
        }
        assert(from_a.contains(c) <==> from_b.contains(c));
    }
    assert(from_b.to_set() =~= from_a.to_set());
    from_a.unique_seq_to_set();
    from_b.unique_seq_to_set();
}

/// A trace finds nothing exactly where nothing of the network stands on the tile that it starts
/// from, and otherwise it finds that tile too.
pub proof fn a_trace_holds_its_start(index: &SpatialIndex, network: Seq<char>, start: Cell, found: Seq<Cell>)
    requires
        index.is_trace(start, network, found),
    ensures
        found.len() == 0 <==> !index.carries(start, network),
        found.contains(start) <==> index.carries(start, network),
{
    if index.carries(start, network) {
        let walk = seq![start];
        assert(index.runs_along(walk, network));
        assert(index.linked(start, start, network));
        assert(found.contains(start));
    }
    if found.len() > 0 {
        assert(found.contains(found[0]));
        let walk = choose|walk: Seq<Cell>|
            #![trigger index.runs_along(walk, network)]
            walk.len() > 0 && walk[0] == start && walk.last() == found[0] && index.runs_along(walk, network);
        assert(index.carries(walk[0], network));
    }
}

proof fn lemma_chained(index: &SpatialIndex, a: Cell, b: Cell, c: Cell, network: Seq<char>)
    requires
        index.linked(a, b, network),
        index.linked(b, c, network),
    ensures
        index.linked(a, c, network),
{
    let w1 = choose|walk: Seq<Cell>|
        #![trigger index.runs_along(walk, network)]
        walk.len() > 0 && walk[0] == a && walk.last() == b && index.runs_along(walk, network);
    let w2 = choose|walk: Seq<Cell>|
        #![trigger index.runs_along(walk, network)]
        walk.len() > 0 && walk[0] == b && walk.last() == c && index.runs_along(walk, network);
    let w = w1 + w2.skip(1);
    assert forall|i: int| 0 <= i < w.len() implies index.carries(#[trigger] w[i], network) by {
        if i < w1.len() {
            assert(w[i] == w1[i]);
        } else {
            assert(w[i] == w2[i - w1.len() + 1]);
        }
    }
    assert forall|i: int| 0 < i < w.len() implies next_to(w[i - 1], #[trigger] w[i]) by {
        if i < w1.len() {
            assert(next_to(w1[i - 1], w1[i]));
        } else {
            let j = i - w1.len() + 1;
            assert(next_to(w2[j - 1], w2[j]));
            if i == w1.len() {
                assert(w[i - 1] == w2[0]);
            } else {
                assert(w[i - 1] == w2[j - 1]);
            }
        }
    }
    assert(index.runs_along(w, network));
    assert(w.last() == c) by {
        if w2.len() == 1 {
            assert(w =~= w1);
        }
    }
}

// ── Paths and neighbours ─────────────────────────────────────────────

/// A type is below another where its path goes on from the other's with a slash, and nowhere else:
/// a longer last component does not count.
pub proof fn below_means_behind_a_slash(above: Seq<char>, path: Seq<char>, rest: Seq<char>)
    ensures
        under(path, path),
        above.len() > 0 ==> under(above, above + seq!['/'] + rest),
        under(above, path) && above != path ==> path == above + seq!['/'] + path.skip(above.len() as int + 1),
        rest.len() > 0 && rest[0] != '/' ==> !under(above, above + rest),
{
    let p = above + seq!['/'] + rest;
    assert(p[above.len() as int] == '/');
    assert(p.take(above.len() as int) =~= above);
    if under(above, path) && above != path {
        assert(path =~= above + seq!['/'] + path.skip(above.len() as int + 1)) by {
            assert forall|i: int| 0 <= i < above.len() implies path[i] == above[i] by {
                assert(path.take(above.len() as int)[i] == path[i]);
            }
        }
    }
    if rest.len() > 0 && rest[0] != '/' {
        assert((above + rest)[above.len() as int] == rest[0]);
    }
}

/// An area is what lies below `/area`, not `/area` itself.
pub proof fn areas_lie_below_area(rest: Seq<char>, path: Seq<char>)
    ensures
        is_area("/area/"@ + rest),
        !is_area("/area"@),
        is_area(path) ==> path.len() >= 6 && path.take(6) == "/area/"@,
{
    reveal_strlit("/area/");
    reveal_strlit("/area");
    assert(("/area/"@ + rest).take(6) =~= "/area/"@);
}

/// The distance between two numbers.
pub open spec fn apart(a: int, b: int) -> int {
    if a < b {
        b - a
    } else {
        a - b
    }
}

/// Two tiles are next to each other where they are one step apart along one axis of one level:
/// never along a diagonal, never across levels, and no tile is next to itself.
pub proof fn neighbours_are_one_step_apart(a: Cell, b: Cell)
    ensures
        next_to(a, b) <==> a.2 == b.2 && apart(a.0 as int, b.0 as int) + apart(a.1 as int, b.1 as int) == 1,
        next_to(a, b) == next_to(b, a),
        !next_to(a, a),
{
}

/// What is adjacent to a tile is what stands on the tiles next to it.
pub proof fn adjacent_is_next_to(index: &SpatialIndex, x: i32, y: i32, z: i32, l: Located)
    requires
        i32::MIN < x < i32::MAX,
        i32::MIN < y < i32::MAX,
    ensures
        index.objects_on(crate::index::neighbours(x, y, z)).contains(l) <==> {
            &&& l.pos.2 == z
            &&& apart(l.pos.0 as int, x as int) + apart(l.pos.1 as int, y as int) == 1
            &&& index.tile(l.pos).contains(l.prefab)
        },
        crate::index::neighbours(x, y, z).no_duplicates(),
{
    let cells = crate::index::neighbours(x, y, z);
    lemma_objects_on(index, cells, l);
    if l.pos.2 == z && apart(l.pos.0 as int, x as int) + apart(l.pos.1 as int, y as int) == 1 {
        assert(l.pos == cells[0] || l.pos == cells[1] || l.pos == cells[2] || l.pos == cells[3]);
    }
}

proof fn lemma_column_once(x: int, y: int, z: i32, dx: int, radius: int, n: nat)
    requires
        radius >= 0,
        n <= 2 * radius + 1,
        i32::MIN <= x - radius,
        x + radius <= i32::MAX,
        i32::MIN <= y - radius,
        y + radius <= i32::MAX,
        -radius <= dx <= radius,
    ensures
        column_around(x, y, z, dx, radius, n).no_duplicates(),
        forall|i: int|
            0 <= i < column_around(x, y, z, dx, radius, n).len() ==> {
                let c = #[trigger] column_around(x, y, z, dx, radius, n)[i];
                c.0 == x + dx && y - radius <= c.1 < y - radius + n && c.2 == z
            },
        dx != 0 ==> column_around(x, y, z, dx, radius, n).len() == n,
        dx == 0 ==> column_around(x, y, z, dx, radius, n).len() == (if n > radius {
            n - 1
        } else {
            n as int
        }),
    decreases n,
{
    if n > 0 {
        lemma_column_once(x, y, z, dx, radius, (n - 1) as nat);
    }
}

proof fn lemma_columns_once(x: int, y: int, z: i32, radius: int, n: nat)
    requires
        radius >= 0,
        n <= 2 * radius + 1,
        i32::MIN <= x - radius,
        x + radius <= i32::MAX,
        i32::MIN <= y - radius,
        y + radius <= i32::MAX,
    ensures
        columns_around(x, y, z, radius, n).no_duplicates(),
        forall|i: int|
            0 <= i < columns_around(x, y, z, radius, n).len() ==> (#[trigger] columns_around(x, y, z, radius, n)[i]).0 < x
                - radius + n,
        columns_around(x, y, z, radius, n).len() == n * (2 * radius + 1) - (if n > radius {
            1int
        } else {
            0
        }),
    decreases n,
{
    let w = 2 * radius + 1;
    if n > 0 {
        let before = columns_around(x, y, z, radius, (n - 1) as nat);
        let more = column_around(x, y, z, n - 1 - radius, radius, w as nat);
        lemma_columns_once(x, y, z, radius, (n - 1) as nat);
        lemma_column_once(x, y, z, n - 1 - radius, radius, w as nat);
        let all = before + more;
        assert forall|i: int, j: int| 0 <= i < all.len() && 0 <= j < all.len() && i != j implies all[i] != all[j] by {
            let m = before.len();
            if i < m && j >= m {
                assert(all[i] == before[i] && all[j] == more[j - m]);
            } else if j < m && i >= m {
                assert(all[j] == before[j] && all[i] == more[i - m]);
            } else if i < m {
                assert(all[i] == before[i] && all[j] == before[j]);
            } else {
                assert(all[i] == more[i - m] && all[j] == more[j - m]);
            }
        }
        assert forall|i: int| 0 <= i < all.len() implies (#[trigger] all[i]).0 < x - radius + n by {
            let m = before.len();
            if i < m {
                assert(all[i] == before[i]);
            } else {
                assert(all[i] == more[i - m]);
            }
        }
        assert((n - 1) * w + w == n * w) by (nonlinear_arith);
    } else {
        assert(0 * w == 0);
    }
}

/// The tiles around a tile are each taken once: as many as the square has, but for the one in the
/// middle.
pub proof fn a_square_holds_each_tile_once(x: i32, y: i32, z: i32, radius: i32)
    requires
        radius >= 0,
        i32::MIN <= x - radius,
        x + radius <= i32::MAX,
        i32::MIN <= y - radius,
        y + radius <= i32::MAX,
    ensures
        square_around(x as int, y as int, z, radius as int).no_duplicates(),
        square_around(x as int, y as int, z, radius as int).len() == (2 * radius + 1) * (2 * radius + 1) - 1,
{
    lemma_columns_once(x as int, y as int, z, radius as int, (2 * radius + 1) as nat);
}

/// A tile carries a network where something on it has a path that begins with the network's, and a
/// tile that does not is reached by no walk along it.
pub proof fn a_network_runs_over_what_carries_it(index: &SpatialIndex, c: Cell, network: Seq<char>, from: Cell)
    ensures
        index.carries(c, network) <==> exists|p: PrefabView| #[trigger] index.tile(c).contains(p) && crate::text::starts_with(
            p.path,
            network,
        ),
        index.linked(from, c, network) ==> index.carries(c, network) && index.carries(from, network),
        index.carries(c, network) ==> index.linked(c, c, network),
{
    if index.carries(c, network) {
        let i = choose|i: int|
            0 <= i < index.tile(c).len() && crate::text::starts_with(#[trigger] index.tile(c)[i].path, network);
        assert(index.tile(c).contains(index.tile(c)[i]));
        let walk = seq![c];
        assert(index.runs_along(walk, network));
        assert(walk.last() == c);
    }
    if exists|p: PrefabView| #[trigger] index.tile(c).contains(p) && crate::text::starts_with(p.path, network) {
        let p = choose|p: PrefabView| #[trigger] index.tile(c).contains(p) && crate::text::starts_with(p.path, network);
        let i = choose|i: int| 0 <= i < index.tile(c).len() && index.tile(c)[i] == p;
        assert(index.tile(c)[i].path == p.path);
    }
    if index.linked(from, c, network) {
        let walk = choose|walk: Seq<Cell>|
            #![trigger index.runs_along(walk, network)]
            walk.len() > 0 && walk[0] == from && walk.last() == c && index.runs_along(walk, network);
        assert(index.carries(walk[0], network));
        assert(index.carries(walk[walk.len() - 1], network));
    }
}

} // verus!
