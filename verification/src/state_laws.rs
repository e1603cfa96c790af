//! What holds of the map being worked on, whatever is done to it.

use crate::counting::{
    first_place_is_first, first_place_unique, tally, tally_insert, tally_push, tally_remove, tally_without_first,
};
use crate::dmm::{on_map, positions_agree, raw_of, within, DmmMap, Key};
use crate::index::{index_agrees_with_map, is_area, is_same, placed, SpatialIndex};
use crate::index_laws::{
    adding_keeps_coherence, built_index_is_coherent, coherent, has_path, removal_restores_the_index,
    removing_keeps_coherence,
};
use crate::layers::{
    all_plain, displaced, fingerprint, fingerprints_tell_paths, kept, layer, layer_place, layer_place_is_first, off_layer,
    on_layer, paths, single, with_placed,
};
use crate::objtree::ObjectTree;
use crate::prefab::PrefabView;
use crate::saving::{
    all_contents, contents_are_of_tiles, first_with, first_with_is_one, prints_are_distinct, prints_of, rebuilt,
};
use crate::state::{
    batch_outcome, built_or_plain, clear_outcome, exchanged, has_print, path_place, place_outcome, remove_outcome,
    replace_outcome, room_to_remove, step_outcome, synced, taken_off, BatchPlacement, BatchResult, MapData,
};
use crate::tables::Cell;
use vstd::prelude::*;

verus! {

/// Whether a cell lies on the map.
pub open spec fn inside(c: Cell, dims: (usize, usize, usize)) -> bool {
    on_map(c.0 as int, c.1 as int, c.2 as int, dims)
}

/// The index is in step with the map: its parts agree with each other, and a tile of the index
/// holds each prefab as often as the tile of the map does.
pub open spec fn in_step(data: &MapData) -> bool {
    &&& coherent(&data.index)
    &&& forall|c: Cell, p: PrefabView| #[trigger]
        tally(data.index.tile(c), is_same(p)) == (if inside(c, data.map.extent()) {
            tally(data.contents_at(c.0 as int, c.1 as int, c.2 as int), is_same(p))
        } else {
            0
        })
}

/// Every staged tile is mirrored in the map, under an entry with the same fingerprint.
pub open spec fn mirrored(data: &MapData) -> bool {
    forall|raw: (int, int, int)|
        within(raw, data.map.extent()) && (#[trigger] data.staged(raw)) is Some ==> fingerprint(data.map.contents(raw))
            == fingerprint(data.current(raw))
}

/// A map that work has just started on is in step with its index, and nothing is staged.
pub proof fn a_fresh_map_is_in_step(data: &MapData)
    requires
        data.wf(),
        data.tile_overrides@ == Map::<Cell, Vec<crate::prefab::Prefab>>::empty(),
        data.index.files(placed(&data.map)),
    ensures
        in_step(data),
        mirrored(data),
{
    built_index_is_coherent(&data.index, placed(&data.map));
    assert forall|c: Cell, p: PrefabView| #[trigger]
        tally(data.index.tile(c), is_same(p)) == (if inside(c, data.map.extent()) {
            tally(data.contents_at(c.0 as int, c.1 as int, c.2 as int), is_same(p))
        } else {
            0
        }) by {
        index_agrees_with_map(&data.index, &data.map, c);
    }
}

/// Dictionary entries are never changed by giving a tile new contents.
pub proof fn entries_are_never_changed(before: &DmmMap, after: &DmmMap, raw: (int, int, int), list: Seq<PrefabView>, k: Key)
    requires
        synced(before, after, raw, list),
        before.entry(k) is Some,
    ensures
        after.entry(k) == before.entry(k),
{
}

/// Giving a tile new contents leaves every other tile as it was, in the map and with the staged
/// edits considered.
pub proof fn other_tiles_keep_their_contents(before: &MapData, after: &MapData, raw: (int, int, int), list: Seq<PrefabView>, other: (int, int, int))
    requires
        before.wf(),
        within(raw, before.map.extent()),
        after.restaged(before, raw, list),
        within(other, before.map.extent()),
        other != raw,
    ensures
        after.map.contents(other) == before.map.contents(other),
        after.current(other) == before.current(other),
{
    let k = before.map.key_at(other);
    assert(before.map.in_use(k));
    assert(after.map.key_at(other) == k);
    assert(after.staged(other) == before.staged(other));
}

/// Giving a tile new contents mirrors them in the map, and keeps what was mirrored before.
pub proof fn staging_keeps_the_mirror(before: &MapData, after: &MapData, raw: (int, int, int), list: Seq<PrefabView>)
    requires
        before.wf(),
        within(raw, before.map.extent()),
        after.restaged(before, raw, list),
        mirrored(before),
    ensures
        mirrored(after),
        after.current(raw) == list,
        fingerprint(after.map.contents(raw)) == fingerprint(list),
{
    assert forall|r: (int, int, int)|
        within(r, after.map.extent()) && (#[trigger] after.staged(r)) is Some implies fingerprint(after.map.contents(r))
        == fingerprint(after.current(r)) by {
        if r != raw {
            other_tiles_keep_their_contents(before, after, raw, list, r);
            assert(before.staged(r) is Some);
        }
    }
}

// ── The index follows the edits ──────────────────────────────────────

proof fn lemma_filter_parts(list: Seq<PrefabView>, l: u8, q: spec_fn(PrefabView) -> bool)
    ensures
        tally(list, q) == tally(list.filter(off_layer(l)), q) + tally(list.filter(on_layer(l)), q),
    decreases list.len(),
{
    reveal(Seq::filter);
    if list.len() > 0 {
        lemma_filter_parts(list.drop_last(), l, q);
        if on_layer(l)(list.last()) {
            tally_push(list.drop_last().filter(on_layer(l)), list.last(), q);
        } else {
            tally_push(list.drop_last().filter(off_layer(l)), list.last(), q);
        }
    }
}

proof fn lemma_placed_tally(list: Seq<PrefabView>, p: PrefabView, q: spec_fn(PrefabView) -> bool)
    ensures
        tally(with_placed(list, p), q) + tally(displaced(list, p.path), q) == tally(list, q) + (if q(p) {
            1nat
        } else {
            0nat
        }),
{
    let base = kept(list, p.path);
    layer_place_is_first(base, p.path);
    tally_insert(base, layer_place(base, p.path), p, q);
    if single(p.path) {
        lemma_filter_parts(list, layer(p.path), q);
    }
}

proof fn lemma_taken_off(before: SpatialIndex, after: SpatialIndex, pos: Cell, gone: Seq<PrefabView>)
    requires
        coherent(&before),
        taken_off(before, after, pos, gone),
        forall|p: PrefabView| #[trigger] tally(gone, is_same(p)) <= tally(before.tile(pos), is_same(p)),
    ensures
        coherent(&after),
        forall|c: Cell| c != pos ==> #[trigger] after.tile(c) == before.tile(c),
        forall|p: PrefabView| #[trigger]
            tally(after.tile(pos), is_same(p)) + tally(gone, is_same(p)) == tally(before.tile(pos), is_same(p)),
    decreases gone.len(),
{
    if gone.len() > 0 {
        let front = gone.drop_last();
        let g = gone.last();
        let mid = choose|mid: SpatialIndex|
            taken_off(before, mid, pos, gone.drop_last()) && #[trigger] after.holds_removed(&mid, pos, gone.last());
        assert(front.push(g) =~= gone);
        assert forall|p: PrefabView| #[trigger] tally(front, is_same(p)) <= tally(before.tile(pos), is_same(p)) by {
            tally_push(front, g, is_same(p));
            assert(tally(gone, is_same(p)) <= tally(before.tile(pos), is_same(p)));
        }
        lemma_taken_off(before, mid, pos, front);
        assert(tally(mid.tile(pos), is_same(g)) + tally(front, is_same(g)) == tally(before.tile(pos), is_same(g)));
        tally_push(front, g, is_same(g));
        assert(tally(gone, is_same(g)) <= tally(before.tile(pos), is_same(g)));
        removing_keeps_coherence(&mid, &after, pos, g);
        assert forall|c: Cell| c != pos implies #[trigger] after.tile(c) == before.tile(c) by {
            assert(mid.tile(c) == before.tile(c));
        }
        assert forall|p: PrefabView| #[trigger]
            tally(after.tile(pos), is_same(p)) + tally(gone, is_same(p)) == tally(before.tile(pos), is_same(p)) by {
            assert(tally(mid.tile(pos), is_same(p)) + tally(front, is_same(p)) == tally(before.tile(pos), is_same(p)));
            tally_push(front, g, is_same(p));
            tally_without_first(mid.tile(pos), is_same(g), is_same(p));
            first_place_is_first(mid.tile(pos), is_same(g));
        }
    }
}

proof fn lemma_exchanged(before: SpatialIndex, after: SpatialIndex, pos: Cell, gone: Seq<PrefabView>, p: PrefabView)
    requires
        coherent(&before),
        exchanged(before, after, pos, gone, p),
        forall|q: PrefabView| #[trigger] tally(gone, is_same(q)) <= tally(before.tile(pos), is_same(q)),
    ensures
        coherent(&after),
        forall|c: Cell| c != pos ==> #[trigger] after.tile(c) == before.tile(c),
        forall|q: PrefabView| #[trigger]
            tally(after.tile(pos), is_same(q)) + tally(gone, is_same(q)) == tally(before.tile(pos), is_same(q)) + (if is_same(
                q,
            )(p) {
                1nat
            } else {
                0nat
            }),
{
    let mid = choose|mid: SpatialIndex| #[trigger] taken_off(before, mid, pos, gone) && after.holds_added(&mid, pos, p);
    lemma_taken_off(before, mid, pos, gone);
    adding_keeps_coherence(&mid, &after, pos, p);
    assert forall|c: Cell| c != pos implies #[trigger] after.tile(c) == before.tile(c) by {
        assert(mid.tile(c) == before.tile(c));
    }
    assert forall|q: PrefabView| #[trigger]
        tally(after.tile(pos), is_same(q)) + tally(gone, is_same(q)) == tally(before.tile(pos), is_same(q)) + (if is_same(
            q,
        )(p) {
            1nat
        } else {
            0nat
        }) by {
        assert(tally(mid.tile(pos), is_same(q)) + tally(gone, is_same(q)) == tally(before.tile(pos), is_same(q)));
        tally_push(mid.tile(pos), p, is_same(q));
    }
}

proof fn lemma_in_step(before: &MapData, after: &MapData, pos: Cell, list: Seq<PrefabView>)
    requires
        before.wf(),
        in_step(before),
        inside(pos, before.map.extent()),
        after.restaged(before, before.cell(pos.0, pos.1, pos.2), list),
        coherent(&after.index),
        forall|c: Cell| c != pos ==> #[trigger] after.index.tile(c) == before.index.tile(c),
        forall|q: PrefabView| #[trigger] tally(after.index.tile(pos), is_same(q)) == tally(list, is_same(q)),
    ensures
        in_step(after),
{
    let raw = before.cell(pos.0, pos.1, pos.2);
    positions_agree(pos.0 as int, pos.1 as int, pos.2 as int, raw, before.map.extent());
    assert forall|c: Cell, p: PrefabView| #[trigger]
        tally(after.index.tile(c), is_same(p)) == (if inside(c, after.map.extent()) {
            tally(after.contents_at(c.0 as int, c.1 as int, c.2 as int), is_same(p))
        } else {
            0
        }) by {
        if c != pos {
            assert(after.index.tile(c) == before.index.tile(c));
            assert(tally(before.index.tile(c), is_same(p)) == (if inside(c, before.map.extent()) {
                tally(before.contents_at(c.0 as int, c.1 as int, c.2 as int), is_same(p))
            } else {
                0
            }));
            if inside(c, before.map.extent()) {
                let other = raw_of(c.0 as int, c.1 as int, c.2 as int, before.map.extent().1 as int);
                positions_agree(c.0 as int, c.1 as int, c.2 as int, other, before.map.extent());
                other_tiles_keep_their_contents(before, after, raw, list, other);
            }
        }
    }
}

/// Placing a prefab keeps the index in step with the map.
pub proof fn placing_keeps_step(before: &MapData, after: &MapData, x: i32, y: i32, z: i32, p: PrefabView, e: Option<Seq<char>>)
    requires
        before.wf(),
        in_step(before),
        place_outcome(before, after, x, y, z, p, e),
    ensures
        in_step(after),
{
    let pos = (x, y, z);
    if inside(pos, before.map.extent()) {
        let raw = before.cell(x, y, z);
        let list = before.current(raw);
        let gone = displaced(list, p.path);
        assert forall|q: PrefabView| #[trigger] tally(gone, is_same(q)) <= tally(before.index.tile(pos), is_same(q)) by {
            assert(tally(before.index.tile(pos), is_same(q)) == tally(list, is_same(q)));
            if single(p.path) {
                lemma_filter_parts(list, layer(p.path), is_same(q));
            }
        }
        lemma_exchanged(before.index, after.index, pos, gone, p);
        assert forall|q: PrefabView| #[trigger] tally(after.index.tile(pos), is_same(q)) == tally(
            with_placed(list, p),
            is_same(q),
        ) by {
            assert(tally(before.index.tile(pos), is_same(q)) == tally(list, is_same(q)));
            assert(tally(after.index.tile(pos), is_same(q)) + tally(gone, is_same(q)) == tally(
                before.index.tile(pos),
                is_same(q),
            ) + (if is_same(q)(p) {
                1nat
            } else {
                0nat
            }));
            lemma_placed_tally(list, p, is_same(q));
        }
        lemma_in_step(before, after, pos, with_placed(list, p));
    }
}

/// Removing a prefab keeps the index in step with the map.
pub proof fn removing_keeps_step(
    before: &MapData,
    after: &MapData,
    x: i32,
    y: i32,
    z: i32,
    path: Seq<char>,
    r: Result<bool, Seq<char>>,
)
    requires
        before.wf(),
        in_step(before),
        remove_outcome(before, after, x, y, z, path, r),
    ensures
        in_step(after),
{
    let pos = (x, y, z);
    if inside(pos, before.map.extent()) {
        let raw = before.cell(x, y, z);
        let list = before.current(raw);
        let i = path_place(list, path);
        first_place_is_first(list, has_path(path));
        if i < list.len() {
            let g = list[i];
            assert(tally(before.index.tile(pos), is_same(g)) == tally(list, is_same(g)));
            tally_remove(list, i, is_same(g));
            removing_keeps_coherence(&before.index, &after.index, pos, g);
            assert forall|q: PrefabView| #[trigger] tally(after.index.tile(pos), is_same(q)) == tally(
                list.remove(i),
                is_same(q),
            ) by {
                assert(tally(before.index.tile(pos), is_same(q)) == tally(list, is_same(q)));
                tally_remove(list, i, is_same(q));
                tally_without_first(before.index.tile(pos), is_same(g), is_same(q));
                first_place_is_first(before.index.tile(pos), is_same(g));
            }
            lemma_in_step(before, after, pos, list.remove(i));
        }
    }
}

/// Replacing a prefab keeps the index in step with the map.
pub proof fn replacing_keeps_step(
    before: &MapData,
    after: &MapData,
    x: i32,
    y: i32,
    z: i32,
    path: Seq<char>,
    p: PrefabView,
    r: Result<bool, Seq<char>>,
)
    requires
        before.wf(),
        in_step(before),
        replace_outcome(before, after, x, y, z, path, p, r),
    ensures
        in_step(after),
{
    let pos = (x, y, z);
    if inside(pos, before.map.extent()) {
        let raw = before.cell(x, y, z);
        let list = before.current(raw);
        let i = path_place(list, path);
        first_place_is_first(list, has_path(path));
        if i < list.len() {
            let g = list[i];
            let gone = seq![g];
            assert(Seq::<PrefabView>::empty().push(g) =~= gone);
            assert forall|q: PrefabView| #[trigger] tally(gone, is_same(q)) <= tally(before.index.tile(pos), is_same(q)) by {
                assert(tally(before.index.tile(pos), is_same(q)) == tally(list, is_same(q)));
                tally_remove(list, i, is_same(q));
                tally_push(Seq::<PrefabView>::empty(), g, is_same(q));
            }
            lemma_exchanged(before.index, after.index, pos, gone, p);
            assert forall|q: PrefabView| #[trigger] tally(after.index.tile(pos), is_same(q)) == tally(
                list.update(i, p),
                is_same(q),
            ) by {
                assert(tally(before.index.tile(pos), is_same(q)) == tally(list, is_same(q)));
                assert(tally(after.index.tile(pos), is_same(q)) + tally(gone, is_same(q)) == tally(
                    before.index.tile(pos),
                    is_same(q),
                ) + (if is_same(q)(p) {
                    1nat
                } else {
                    0nat
                }));
                tally_push(Seq::<PrefabView>::empty(), g, is_same(q));
                tally_remove(list, i, is_same(q));
                tally_insert(list.remove(i), i, p, is_same(q));
                assert(list.remove(i).insert(i, p) =~= list.update(i, p));
            }
            lemma_in_step(before, after, pos, list.update(i, p));
        }
    }
}

/// A batch keeps the index in step with the map, and the data consistent.
pub proof fn a_batch_keeps_step(before: MapData, after: MapData, tree: &ObjectTree, ps: Seq<BatchPlacement>, rs: Seq<BatchResult>)
    requires
        before.wf(),
        in_step(&before),
        batch_outcome(before, after, tree, ps, rs),
    ensures
        after.wf(),
        in_step(&after),
    decreases ps.len(),
{
    if ps.len() > 0 {
        let mid = choose|mid: MapData|
            batch_outcome(before, mid, tree, ps.drop_last(), rs.drop_last()) && #[trigger] step_outcome(
                &mid,
                &after,
                tree,
                ps.last(),
                rs.last(),
            );
        a_batch_keeps_step(before, mid, tree, ps.drop_last(), rs.drop_last());
        let p = ps.last();
        let cleared = choose|cleared: MapData| #[trigger]
            clear_outcome(&mid, &cleared, p) && place_outcome(
                &cleared,
                &after,
                p.x,
                p.y,
                p.z,
                built_or_plain(tree, p.type_path@, p.vars),
                crate::prefab::opt_text(rs.last().error),
            );
        if let Some(path) = p.replace {
            let v = choose|v: Result<bool, Seq<char>>| #[trigger]
                remove_outcome(&mid, &cleared, p.x, p.y, p.z, path@, v);
            removing_keeps_step(&mid, &cleared, p.x, p.y, p.z, path@, v);
        }
        placing_keeps_step(
            &cleared,
            &after,
            p.x,
            p.y,
            p.z,
            built_or_plain(tree, p.type_path@, p.vars),
            crate::prefab::opt_text(rs.last().error),
        );
    }
}

/// A batch reports each placement: the result repeats the request, and the placement succeeds
/// exactly where its position lies on the map. Otherwise the result says why, and the data are as
/// they were before the placement.
pub proof fn a_batch_reports_each_placement(
    before: MapData,
    after: MapData,
    tree: &ObjectTree,
    ps: Seq<BatchPlacement>,
    rs: Seq<BatchResult>,
    i: int,
)
    requires
        batch_outcome(before, after, tree, ps, rs),
    ensures
        rs.len() == ps.len(),
        after.map.extent() == before.map.extent(),
        0 <= i < ps.len() ==> {
            &&& rs[i].x == ps[i].x && rs[i].y == ps[i].y && rs[i].z == ps[i].z
            &&& rs[i].type_path@ == ps[i].type_path@
            &&& rs[i].ok <==> inside((ps[i].x, ps[i].y, ps[i].z), before.map.extent())
            &&& rs[i].error is Some <==> !rs[i].ok
        },
    decreases ps.len(),
{
    if ps.len() > 0 {
        let mid = choose|mid: MapData|
            batch_outcome(before, mid, tree, ps.drop_last(), rs.drop_last()) && #[trigger] step_outcome(
                &mid,
                &after,
                tree,
                ps.last(),
                rs.last(),
            );
        a_batch_reports_each_placement(before, mid, tree, ps.drop_last(), rs.drop_last(), i);
        a_step_off_the_map_changes_nothing(&mid, &after, tree, ps.last(), rs.last());
        if 0 <= i < ps.len() - 1 {
            assert(ps.drop_last()[i] == ps[i]);
            assert(rs.drop_last()[i] == rs[i]);
        }
    }
}

/// A placement of a batch that lies off the map changes nothing. Whether it does decides how it
/// goes.
pub proof fn a_step_off_the_map_changes_nothing(
    before: &MapData,
    after: &MapData,
    tree: &ObjectTree,
    p: BatchPlacement,
    r: BatchResult,
)
    requires
        step_outcome(before, after, tree, p, r),
    ensures
        r.ok <==> inside((p.x, p.y, p.z), before.map.extent()),
        !inside((p.x, p.y, p.z), before.map.extent()) ==> *after == *before,
        after.map.extent() == before.map.extent(),
{
    let cleared = choose|cleared: MapData| #[trigger]
        clear_outcome(before, &cleared, p) && place_outcome(
            &cleared,
            after,
            p.x,
            p.y,
            p.z,
            built_or_plain(tree, p.type_path@, p.vars),
            crate::prefab::opt_text(r.error),
        );
    if let Some(path) = p.replace {
        let v = choose|v: Result<bool, Seq<char>>| #[trigger]
            remove_outcome(before, &cleared, p.x, p.y, p.z, path@, v);
        assert(cleared.map.extent() == before.map.extent());
    }
}

// ── Writing and reading ──────────────────────────────────────────────

/// What was placed is read back where it was placed: from the tile's contents, from the tile in
/// the index, and among the instances of its type.
pub proof fn what_was_placed_is_read_back(before: &MapData, after: &MapData, x: i32, y: i32, z: i32, p: PrefabView)
    requires
        before.wf(),
        place_outcome(before, after, x, y, z, p, None),
    ensures
        after.contents_at(x as int, y as int, z as int).contains(p),
        after.index.tile((x, y, z)).contains(p),
        after.index.instances(p.path).contains(crate::index::Located { pos: (x, y, z), prefab: p }),
{
    let raw = before.cell(x, y, z);
    let list = before.current(raw);
    let base = kept(list, p.path);
    layer_place_is_first(base, p.path);
    assert(with_placed(list, p)[layer_place(base, p.path)] == p);
    let pos = (x, y, z);
    let gone = displaced(list, p.path);
    let mid = choose|mid: SpatialIndex| #[trigger]
        taken_off(before.index, mid, pos, gone) && after.index.holds_added(&mid, pos, p);
    assert(after.index.tile(pos)[mid.tile(pos).len() as int] == p);
    let l = crate::index::Located { pos, prefab: p };
    assert(crate::index::under(p.path, p.path));
    assert(after.index.instances(p.path) == mid.instances(p.path).push(l));
    assert(after.index.instances(p.path)[mid.instances(p.path).len() as int] == l);
}

proof fn lemma_placed_comes_off(list: Seq<PrefabView>, p: PrefabView)
    requires
        !single(p.path),
        tally(list, has_path(p.path)) == 0,
    ensures
        ({
            let placed = with_placed(list, p);
            let i = path_place(placed, p.path);
            i < placed.len() && placed[i] == p && placed.remove(i) == list
        }),
{
    layer_place_is_first(list, p.path);
    let at = layer_place(list, p.path);
    let placed = with_placed(list, p);
    crate::counting::tally_positive(list, has_path(p.path));
    assert forall|j: int| 0 <= j < at implies !has_path(p.path)(#[trigger] placed[j]) by {
        assert(placed[j] == list[j]);
    }
    first_place_unique(placed, has_path(p.path), at);
    assert(placed.remove(at) =~= list);
}

/// What was just placed can be removed again whether or not a key is free: the map still has an
/// entry for what stood there before.
pub proof fn removal_of_what_was_placed_takes_no_key(
    before: &MapData,
    mid: &MapData,
    x: i32,
    y: i32,
    z: i32,
    p: PrefabView,
)
    requires
        before.wf(),
        mirrored(before),
        inside((x, y, z), before.map.extent()),
        before.map.entry(before.map.key_at(before.cell(x, y, z))) is Some,
        !single(p.path),
        tally(before.contents_at(x as int, y as int, z as int), has_path(p.path)) == 0,
        place_outcome(before, mid, x, y, z, p, None),
    ensures
        has_print(&mid.map, fingerprint(before.contents_at(x as int, y as int, z as int))),
        room_to_remove(mid, x, y, z, p.path),
{
    let raw = before.cell(x, y, z);
    let list = before.current(raw);
    let key = before.map.key_at(raw);
    positions_agree(x as int, y as int, z as int, raw, before.map.extent());
    assert(fingerprint(before.map.contents(raw)) == fingerprint(list)) by {
        if before.staged(raw) is Some {
            assert(within(raw, before.map.extent()));
        }
    }
    entries_are_never_changed(&before.map, &mid.map, raw, with_placed(list, p), key);
    assert(mid.map.entry(key) is Some && fingerprint(mid.map.entry(key).unwrap()) == fingerprint(list));
    lemma_placed_comes_off(list, p);
    assert(mid.current(raw) == with_placed(list, p));
}

/// Removing an object or a mob that was just placed, and that was the only one with its path,
/// takes the placing back: every tile has its contents again, in their order, and the index
/// answers every question as it did before.
pub proof fn removal_undoes_placing(
    before: &MapData,
    mid: &MapData,
    after: &MapData,
    x: i32,
    y: i32,
    z: i32,
    p: PrefabView,
    r: Result<bool, Seq<char>>,
)
    requires
        before.wf(),
        in_step(before),
        inside((x, y, z), before.map.extent()),
        !single(p.path),
        tally(before.contents_at(x as int, y as int, z as int), has_path(p.path)) == 0,
        place_outcome(before, mid, x, y, z, p, None),
        remove_outcome(mid, after, x, y, z, p.path, r),
    ensures
        r == Ok::<bool, Seq<char>>(true),
        forall|raw: (int, int, int)| within(raw, before.map.extent()) ==> #[trigger] after.current(raw) == before.current(raw),
        forall|c: Cell| #[trigger] after.index.tile(c) == before.index.tile(c),
        forall|q: Seq<char>| #[trigger] after.index.instances(q) == before.index.instances(q),
        forall|a: Seq<char>| #[trigger] after.index.area_positions(a) == before.index.area_positions(a),
        forall|c: Cell| #[trigger] after.index.area_at(c) == before.index.area_at(c),
        after.index.area_paths() == before.index.area_paths(),
{
    let pos = (x, y, z);
    let raw = before.cell(x, y, z);
    let list = before.current(raw);
    positions_agree(x as int, y as int, z as int, raw, before.map.extent());
    lemma_placed_comes_off(list, p);
    assert(mid.current(raw) == with_placed(list, p));
    assert forall|other: (int, int, int)| within(other, before.map.extent()) implies #[trigger] after.current(other)
        == before.current(other) by {
        if other != raw {
            other_tiles_keep_their_contents(before, mid, raw, with_placed(list, p), other);
            other_tiles_keep_their_contents(mid, after, raw, list, other);
        }
    }
    let same = choose|same: SpatialIndex| #[trigger]
        taken_off(before.index, same, pos, displaced(list, p.path)) && mid.index.holds_added(&same, pos, p);
    assert(same == before.index);
    crate::counting::tally_positive(list, has_path(p.path));
    crate::counting::tally_positive(list, is_same(p));
    assert(tally(list, is_same(p)) == 0) by {
        if tally(list, is_same(p)) > 0 {
            let j = choose|j: int| 0 <= j < list.len() && is_same(p)(#[trigger] list[j]);
            assert(has_path(p.path)(list[j]));
        }
    }
    assert(tally(before.index.tile(pos), is_same(p)) == 0);
    assert(!is_area(p.path)) by {
        reveal_strlit("/area/");
        reveal_strlit("/area");
        if is_area(p.path) {
            assert(p.path.take(5) =~= p.path.take(6).take(5));
            assert("/area"@ =~= "/area/"@.take(5));
        }
    }
    removal_restores_the_index(&before.index, &mid.index, &after.index, pos, p);
}

// ── Saving ───────────────────────────────────────────────────────────

/// Saving forgets nothing that a tile shows: every tile keeps its fingerprint when the edits
/// are no longer staged, and every entry that is left is named by a tile.
pub proof fn saving_keeps_every_tile(before: &MapData, after: &MapData, raw: (int, int, int), k: Key)
    requires
        before.wf(),
        mirrored(before),
        within(raw, before.map.extent()),
        after.map.extent() == before.map.extent(),
        forall|r: (int, int, int)| #[trigger] after.map.key_at(r) == before.map.key_at(r),
        forall|j: Key| #[trigger] after.map.entry(j) == (if before.map.named(j) {
            before.map.entry(j)
        } else {
            None
        }),
        after.tile_overrides@ == Map::<Cell, Vec<crate::prefab::Prefab>>::empty(),
    ensures
        fingerprint(after.current(raw)) == fingerprint(before.current(raw)),
        after.map.entry(k) is Some ==> after.map.named(k),
{
    let key = before.map.key_at(raw);
    assert(before.map.named(key));
    assert(after.map.key_at(raw) == key);
    assert(after.map.entry(key) == before.map.entry(key));
    assert(after.map.contents(raw) == before.map.contents(raw));
    assert(after.staged(raw) is None);
    if after.map.entry(k) is Some {
        let r = choose|r: (int, int, int)| within(r, before.map.extent()) && #[trigger] before.map.key_at(r) == k;
        assert(after.map.key_at(r) == k);
    }
}

/// Rebuilding the dictionary keeps the fingerprint of every tile, and two tiles share a key
/// exactly when their fingerprints are the same.
pub proof fn rebuilding_keeps_every_tile(data: &MapData, map: &DmmMap, a: (int, int, int), b: (int, int, int))
    requires
        data.wf(),
        rebuilt(data, map),
        within(a, data.map.extent()),
        within(b, data.map.extent()),
    ensures
        fingerprint(map.contents(a)) == fingerprint(data.current(a)),
        map.key_at(a) == map.key_at(b) <==> fingerprint(data.current(a)) == fingerprint(data.current(b)),
{
    let all = all_contents(data);
    let prints = prints_of(all);
    prints_are_distinct(all);
    assert(map.key_at(a) < prints.len());
    assert(map.key_at(b) < prints.len());
    let ka = map.key_at(a);
    assert(prints.contains(prints[ka as int]));
    assert(map.entry(ka) == Some(first_with(all, prints[ka as int])));
}

/// The data of which a fingerprint tells the paths: every prefab of the map and of the staged
/// edits is plain.
pub open spec fn tells_paths(data: &MapData) -> bool {
    forall|raw: (int, int, int)|
        within(raw, data.map.extent()) ==> all_plain(#[trigger] data.current(raw)) && all_plain(data.map.contents(raw))
}

/// Saving keeps the prefab paths of every tile, in their order, and keeps what is not staged
/// altogether.
pub proof fn saving_keeps_every_path(before: &MapData, after: &MapData, raw: (int, int, int))
    requires
        before.wf(),
        mirrored(before),
        tells_paths(before),
        within(raw, before.map.extent()),
        after.map.extent() == before.map.extent(),
        forall|r: (int, int, int)| #[trigger] after.map.key_at(r) == before.map.key_at(r),
        forall|j: Key| #[trigger] after.map.entry(j) == (if before.map.named(j) {
            before.map.entry(j)
        } else {
            None
        }),
        after.tile_overrides@ == Map::<Cell, Vec<crate::prefab::Prefab>>::empty(),
    ensures
        paths(after.map.contents(raw)) == paths(before.current(raw)),
        after.current(raw) == after.map.contents(raw),
        before.staged(raw) is None ==> after.current(raw) == before.current(raw),
{
    saving_keeps_every_tile(before, after, raw, 0);
    assert(before.map.named(before.map.key_at(raw)));
    assert(after.map.contents(raw) == before.map.contents(raw));
    assert(after.staged(raw) is None);
    assert(all_plain(before.current(raw)));
    fingerprints_tell_paths(after.map.contents(raw), before.current(raw));
}

/// Rebuilding the dictionary keeps the prefab paths of every tile, in their order.
pub proof fn rebuilding_keeps_every_path(data: &MapData, map: &DmmMap, raw: (int, int, int))
    requires
        data.wf(),
        rebuilt(data, map),
        tells_paths(data),
        within(raw, data.map.extent()),
    ensures
        paths(map.contents(raw)) == paths(data.current(raw)),
{
    rebuilding_keeps_every_tile(data, map, raw, raw);
    let all = all_contents(data);
    let prints = prints_of(all);
    let k = map.key_at(raw);
    let print = prints[k as int];
    assert(prints.contains(print));
    first_with_is_one(all, print);
    let i = choose|i: int| 0 <= i < all.len() && all[i] == first_with(all, print);
    let r = contents_are_of_tiles(data, i);
    assert(map.entry(k) == Some(first_with(all, print)));
    assert(all_plain(data.current(r)));
    assert(all_plain(data.current(raw)));
    fingerprints_tell_paths(map.contents(raw), data.current(raw));
}

/// What is written and what is read agree on positions: an index built of a map that keeps the
/// paths of every tile finds the paths of each position at that position.
pub proof fn a_saved_map_reads_alike(before: &MapData, map: &DmmMap, index: &SpatialIndex, x: i32, y: i32, z: i32)
    requires
        map.wf(),
        map.extent() == before.map.extent(),
        inside((x, y, z), before.map.extent()),
        forall|raw: (int, int, int)|
            within(raw, before.map.extent()) ==> paths(#[trigger] map.contents(raw)) == paths(before.current(raw)),
        index.files(placed(map)),
    ensures
        paths(index.tile((x, y, z))) == paths(before.contents_at(x as int, y as int, z as int)),
{
    let raw = before.cell(x, y, z);
    positions_agree(x as int, y as int, z as int, raw, before.map.extent());
    index_agrees_with_map(index, map, (x, y, z));
    assert(paths(map.contents(raw)) == paths(before.current(raw)));
}

} // verus!
