//! The map being worked on: its tiles, the edits staged on them, and how they are saved.

use crate::counting::first_place;
use crate::dmm::{at, on_map, positions_agree, raw_of, within, DmmMap, Key, Raw};
use crate::index::{placed, SpatialIndex};
use crate::layers::{
    displaced, find_layer_position, fingerprint, fingerprint_prefabs, kept, layer_priority, off_layer, on_layer,
    with_placed,
};
use crate::names::NameTable;
use crate::objtree::ObjectTree;
use crate::prefab::{
    copy_prefabs, opt_text, prefab_views, var_views, Constant, ConstantKind, ConstantView, Prefab, PrefabView,
};
use crate::state_laws::other_tiles_keep_their_contents;
use crate::tables::{Cell, CellTable};
use crate::text::{dec, has_prefix, i32_text, same_text, starts_with, usize_text};
use vstd::prelude::*;

verus! {

/// The layout of a map file as it was read.
pub struct MapFormatSnapshot {
    pub original_bytes: Vec<u8>,
}

/// Mutable map data: the map, the edits staged on it, and the index over it.
///
/// Dictionary entries are never changed. An edit goes into `tile_overrides`, which holds the
/// whole contents of an edited tile, and is mirrored into the map under a key of its own.
pub struct MapData {
    pub map: DmmMap,
    /// The file that the map was read from.
    pub path: String,
    /// The contents of the edited tiles, by level, row from the top and column.
    pub tile_overrides: CellTable<Vec<Prefab>>,
    pub index: SpatialIndex,
    /// Whether there are unsaved changes.
    pub dirty: bool,
    /// The layout of the file, where the map came from one.
    pub format_snapshot: Option<MapFormatSnapshot>,
}

/// The cell under which the edit of a tile is filed.
pub open spec fn override_cell(raw: (int, int, int)) -> Cell {
    (raw.0 as i32, raw.1 as i32, raw.2 as i32)
}

/// What a failed lookup of a position says.
pub open spec fn out_of_bounds(x: i32, y: i32, z: i32, dims: (usize, usize, usize)) -> Seq<char> {
    "Coordinates ("@ + dec(x as int) + ","@ + dec(y as int) + ","@ + dec(z as int) + ") out of bounds ("@ + dec(
        dims.2 as int,
    ) + "x"@ + dec(dims.1 as int) + "x"@ + dec(dims.0 as int) + ")"@
}

/// Whether a map has an entry with the given fingerprint.
pub open spec fn has_print(map: &DmmMap, print: Seq<char>) -> bool {
    exists|k: Key| (#[trigger] map.entry(k)) is Some && fingerprint(map.entry(k).unwrap()) == print
}

/// Whether a key is the least whose entry has the given fingerprint.
pub open spec fn is_first_with(map: &DmmMap, k: Key, print: Seq<char>) -> bool {
    &&& map.entry(k) is Some
    &&& fingerprint(map.entry(k).unwrap()) == print
    &&& forall|j: Key| j < k && (#[trigger] map.entry(j)) is Some ==> fingerprint(map.entry(j).unwrap()) != print
}

/// Whether a map can take in the contents of a tile: an entry has their fingerprint already, or a
/// key is free.
pub open spec fn has_room(map: &DmmMap, list: Seq<PrefabView>) -> bool {
    has_print(map, fingerprint(list)) || map.free_keys().len() > 0
}

/// Whether a map has room for what removing by path leaves on a tile.
pub open spec fn room_to_remove(data: &MapData, x: i32, y: i32, z: i32, path: Seq<char>) -> bool {
    let list = data.contents_at(x as int, y as int, z as int);
    let i = path_place(list, path);
    on_map(x as int, y as int, z as int, data.map.extent()) && i < list.len() ==> has_room(&data.map, list.remove(i))
}

/// A map after a tile was given new contents: the tile names the first entry with the same
/// fingerprint or, if there is none, the least unused key, which then has the contents.
/// Everything else is as it was.
pub open spec fn synced(before: &DmmMap, after: &DmmMap, raw: (int, int, int), list: Seq<PrefabView>) -> bool {
    let key = after.key_at(raw);
    &&& after.wf()
    &&& after.extent() == before.extent()
    &&& forall|r: (int, int, int)| r != raw ==> #[trigger] after.key_at(r) == before.key_at(r)
    &&& if has_print(before, fingerprint(list)) {
        &&& is_first_with(before, key, fingerprint(list))
        &&& forall|k: Key| #[trigger] after.entry(k) == before.entry(k)
    } else {
        &&& !before.in_use(key)
        &&& forall|k: Key| k < key ==> #[trigger] before.in_use(k)
        &&& after.entry(key) == Some(list)
        &&& forall|k: Key| k != key ==> #[trigger] after.entry(k) == before.entry(k)
    }
}

/// An index after prefabs were taken off a tile, one after the other.
pub open spec fn taken_off(before: SpatialIndex, after: SpatialIndex, pos: Cell, gone: Seq<PrefabView>) -> bool
    decreases gone.len(),
{
    if gone.len() == 0 {
        after == before
    } else {
        exists|mid: SpatialIndex|
            taken_off(before, mid, pos, gone.drop_last()) && #[trigger] after.holds_removed(&mid, pos, gone.last())
    }
}

/// An index after prefabs were taken off a tile and one was put on it.
pub open spec fn exchanged(before: SpatialIndex, after: SpatialIndex, pos: Cell, gone: Seq<PrefabView>, p: PrefabView) -> bool {
    exists|mid: SpatialIndex| #[trigger] taken_off(before, mid, pos, gone) && after.holds_added(&mid, pos, p)
}

/// The place of the first prefab with a path, or the length if there is none.
pub open spec fn path_place(list: Seq<PrefabView>, path: Seq<char>) -> int {
    first_place(list, crate::index_laws::has_path(path))
}

/// The message of a failed operation.
pub open spec fn failure(r: Result<(), String>) -> Option<Seq<char>> {
    match r {
        Ok(_) => None,
        Err(e) => Some(e@),
    }
}

/// What placing a prefab does: nothing but a message off the map; on it, the tile gets its new
/// contents, and the index loses what was displaced and gains the prefab.
pub open spec fn place_outcome(
    before: &MapData,
    after: &MapData,
    x: i32,
    y: i32,
    z: i32,
    p: PrefabView,
    e: Option<Seq<char>>,
) -> bool {
    if on_map(x as int, y as int, z as int, before.map.extent()) {
        let raw = before.cell(x, y, z);
        let list = before.current(raw);
        &&& e is None
        &&& after.restaged(before, raw, with_placed(list, p))
        &&& exchanged(before.index, after.index, (x, y, z), displaced(list, p.path), p)
    } else {
        &&& e == Some(out_of_bounds(x, y, z, before.map.extent()))
        &&& *after == *before
    }
}

/// The outcome of an operation that may find nothing to do.
pub open spec fn verdict(r: Result<bool, String>) -> Result<bool, Seq<char>> {
    match r {
        Ok(b) => Ok(b),
        Err(e) => Err(e@),
    }
}

/// What removing by path does: the first prefab with the path leaves the tile and the index. If
/// there is none, or the position is off the map, nothing changes.
pub open spec fn remove_outcome(
    before: &MapData,
    after: &MapData,
    x: i32,
    y: i32,
    z: i32,
    path: Seq<char>,
    r: Result<bool, Seq<char>>,
) -> bool {
    if on_map(x as int, y as int, z as int, before.map.extent()) {
        let raw = before.cell(x, y, z);
        let list = before.current(raw);
        let i = path_place(list, path);
        if i < list.len() {
            &&& r == Ok::<bool, Seq<char>>(true)
            &&& after.restaged(before, raw, list.remove(i))
            &&& after.index.holds_removed(&before.index, (x, y, z), list[i])
        } else {
            &&& r == Ok::<bool, Seq<char>>(false)
            &&& *after == *before
        }
    } else {
        &&& r == Err::<bool, Seq<char>>(out_of_bounds(x, y, z, before.map.extent()))
        &&& *after == *before
    }
}

/// What replacing by path does: the first prefab with the path gives way to another in its
/// place.
pub open spec fn replace_outcome(
    before: &MapData,
    after: &MapData,
    x: i32,
    y: i32,
    z: i32,
    path: Seq<char>,
    p: PrefabView,
    r: Result<bool, Seq<char>>,
) -> bool {
    if on_map(x as int, y as int, z as int, before.map.extent()) {
        let raw = before.cell(x, y, z);
        let list = before.current(raw);
        let i = path_place(list, path);
        if i < list.len() {
            &&& r == Ok::<bool, Seq<char>>(true)
            &&& after.restaged(before, raw, list.update(i, p))
            &&& exchanged(before.index, after.index, (x, y, z), seq![list[i]], p)
        } else {
            &&& r == Ok::<bool, Seq<char>>(false)
            &&& *after == *before
        }
    } else {
        &&& r == Err::<bool, Seq<char>>(out_of_bounds(x, y, z, before.map.extent()))
        &&& *after == *before
    }
}

impl MapData {
    /// The data are consistent: the index is over this map, and only its tiles are edited.
    pub open spec fn wf(&self) -> bool {
        &&& self.map.wf()
        &&& self.index.wf()
        &&& self.index.dims() == self.map.extent()
        &&& forall|c: Cell| #[trigger] self.tile_overrides@.contains_key(c) ==> within(
            (c.0 as int, c.1 as int, c.2 as int),
            self.map.extent(),
        )
    }

    /// The staged contents of a tile.
    pub open spec fn staged(&self, raw: (int, int, int)) -> Option<Seq<PrefabView>> {
        if self.tile_overrides@.contains_key(override_cell(raw)) {
            Some(prefab_views(self.tile_overrides@[override_cell(raw)]@))
        } else {
            None
        }
    }

    /// The contents of a tile: staged, or else as the map has them.
    pub open spec fn current(&self, raw: (int, int, int)) -> Seq<PrefabView> {
        match self.staged(raw) {
            Some(list) => list,
            None => self.map.contents(raw),
        }
    }

    /// The contents of a tile at a position.
    pub open spec fn contents_at(&self, x: int, y: int, z: int) -> Seq<PrefabView> {
        self.current(raw_of(x, y, z, self.map.extent().1 as int))
    }

    /// The grid cell of a position.
    pub open spec fn cell(&self, x: i32, y: i32, z: i32) -> (int, int, int) {
        raw_of(x as int, y as int, z as int, self.map.extent().1 as int)
    }

    /// These data are others with one tile given new contents, apart from the index.
    pub open spec fn restaged(&self, before: &MapData, raw: (int, int, int), list: Seq<PrefabView>) -> bool {
        &&& self.wf()
        &&& synced(&before.map, &self.map, raw, list)
        &&& self.staged(raw) == Some(list)
        &&& forall|r: (int, int, int)| r != raw && within(r, before.map.extent()) ==> #[trigger] self.staged(r)
            == before.staged(r)
        &&& self.path == before.path
        &&& self.format_snapshot == before.format_snapshot
        &&& self.dirty
    }

    /// Starts work on a map.
    pub fn open(map: DmmMap, path: String, snapshot: Option<MapFormatSnapshot>) -> (r: MapData)
        requires
            map.wf(),
        ensures
            r.wf(),
            r.map == map,
            r.path == path,
            r.format_snapshot == snapshot,
            !r.dirty,
            r.tile_overrides@ == Map::<Cell, Vec<Prefab>>::empty(),
            r.index.files(placed(&map)),
    {
        let index = SpatialIndex::build(&map);
        MapData { map, path, tile_overrides: CellTable::new(), index, dirty: false, format_snapshot: snapshot }
    }

    /// Makes a different map the one that is worked on. Staged edits are dropped: they belong to
    /// the map that they were made on.
    pub fn activate(&mut self, map: DmmMap, path: String, snapshot: Option<MapFormatSnapshot>)
        requires
            map.wf(),
        ensures
            final(self).wf(),
            final(self).map == map,
            final(self).path == path,
            final(self).format_snapshot == snapshot,
            !final(self).dirty,
            final(self).tile_overrides@ == Map::<Cell, Vec<Prefab>>::empty(),
            final(self).index.files(placed(&map)),
    {
        self.index = SpatialIndex::build(&map);
        self.map = map;
        self.tile_overrides.clear();
        self.path = path;
        self.format_snapshot = snapshot;
        self.dirty = false;
    }

    /// Activates a freshly created map, which has no file layout yet.
    pub fn activate_new(&mut self, map: DmmMap, path: String)
        requires
            map.wf(),
        ensures
            final(self).wf(),
            final(self).map == map,
            final(self).path == path,
            final(self).format_snapshot is None,
            !final(self).dirty,
            final(self).tile_overrides@ == Map::<Cell, Vec<Prefab>>::empty(),
            final(self).index.files(placed(&map)),
    {
        self.activate(map, path, None);
    }

    /// The contents of a tile, staged edits considered.
    pub fn prefabs_at_raw(&self, raw: Raw) -> (r: Vec<Prefab>)
        requires
            self.wf(),
            within(at(raw), self.map.extent()),
        ensures
            prefab_views(r@) == self.current(at(raw)),
    {
        proof {
            self.map.wf_facts();
        }
        if let Some(list) = self.tile_overrides.get((raw.0 as i32, raw.1 as i32, raw.2 as i32)) {
            return copy_prefabs(list);
        }
        let key: Key = self.map.key(raw);
        match self.map.lookup(key) {
            Some(list) => copy_prefabs(list),
            None => {
                let none: Vec<Prefab> = Vec::new();
                assert(prefab_views(none@) =~= Seq::empty());
                none
            },
        }
    }

    /// Turns a position into a grid index. Columns and levels count from 1; rows count from the
    /// bottom, while the grid keeps the top row first.
    pub fn grid_index(&self, x: i32, y: i32, z: i32) -> (r: Result<Raw, String>)
        requires
            self.map.wf(),
        ensures
            match r {
                Ok(raw) => on_map(x as int, y as int, z as int, self.map.extent()) && at(raw) == self.cell(x, y, z)
                    && within(at(raw), self.map.extent()),
                Err(e) => !on_map(x as int, y as int, z as int, self.map.extent()) && e@ == out_of_bounds(
                    x,
                    y,
                    z,
                    self.map.extent(),
                ),
            },
    {
        proof {
            self.map.wf_facts();
        }
        let (dim_x, dim_y, dim_z) = self.map.dim_xyz();
        if x < 1 || x > dim_x as i32 || y < 1 || y > dim_y as i32 || z < 1 || z > dim_z as i32 {
            let mut e = "Coordinates (".to_string();
            e.append(i32_text(x).as_str());
            e.append(",");
            e.append(i32_text(y).as_str());
            e.append(",");
            e.append(i32_text(z).as_str());
            e.append(") out of bounds (");
            e.append(usize_text(dim_x).as_str());
            e.append("x");
            e.append(usize_text(dim_y).as_str());
            e.append("x");
            e.append(usize_text(dim_z).as_str());
            e.append(")");
            return Err(e);
        }
        Ok((z as usize - 1, dim_y - y as usize, x as usize - 1))
    }

    /// The least key whose entry has the given fingerprint.
    fn find_print(map: &DmmMap, print: &str) -> (r: Option<Key>)
        requires
            map.wf(),
        ensures
            match r {
                Some(k) => is_first_with(map, k, print@),
                None => !has_print(map, print@),
            },
    {
        proof {
            map.wf_facts();
        }
        let count: usize = map.entry_count();
        let mut i: usize = 0;
        while i < count
            invariant
                i <= count,
                count == map.entry_keys().len(),
                map.wf(),
                forall|a: int, b: int| 0 <= a < b < map.entry_keys().len() ==> map.entry_keys()[a] < map.entry_keys()[b],
                forall|k: Key| #[trigger] map.entry(k) is Some <==> map.entry_keys().contains(k),
                forall|j: int| 0 <= j < i ==> fingerprint(map.entry(#[trigger] map.entry_keys()[j]).unwrap()) != print@,
            decreases count - i,
        {
            let (key, list) = map.entry_at(i);
            if same_text(fingerprint_prefabs(list).as_str(), print) {
                proof {
                    assert forall|j: Key| j < key && (#[trigger] map.entry(j)) is Some implies fingerprint(
                        map.entry(j).unwrap(),
                    ) != print@ by {
                        let n = choose|n: int| 0 <= n < map.entry_keys().len() && map.entry_keys()[n] == j;
                        if n >= i {
                            assert(n != i);
                            assert(map.entry_keys()[i as int] < map.entry_keys()[n]);
                        }
                    }
                }
                return Some(key);
            }
            i = i + 1;
        }
        assert forall|k: Key| (#[trigger] map.entry(k)) is Some implies fingerprint(map.entry(k).unwrap()) != print@ by {
            let n = choose|n: int| 0 <= n < map.entry_keys().len() && map.entry_keys()[n] == k;
            assert(map.entry_keys()[n] == k);
        }
        None
    }

    /// Mirrors the contents of a tile into the map: under the key of an entry with the same
    /// fingerprint, or under an unused key. No other entry is touched.
    pub fn sync_tile_to_map(&mut self, raw: Raw, prefabs: Vec<Prefab>)
        requires
            old(self).map.wf(),
            within(at(raw), old(self).map.extent()),
            has_room(&old(self).map, prefab_views(prefabs@)),
        ensures
            synced(&old(self).map, &final(self).map, at(raw), prefab_views(prefabs@)),
            final(self).path == old(self).path,
            final(self).tile_overrides == old(self).tile_overrides,
            final(self).index == old(self).index,
            final(self).dirty == old(self).dirty,
            final(self).format_snapshot == old(self).format_snapshot,
    {
        let print = fingerprint_prefabs(&prefabs);
        let ghost list = prefab_views(prefabs@);
        match MapData::find_print(&self.map, print.as_str()) {
            Some(key) => {
                self.map.set_key(raw, key);
                assert(has_print(&old(self).map, fingerprint(list)));
            },
            None => {
                let next_key: Key = self.map.allocate_unused_key();
                self.map.put_entry(next_key, prefabs);
                self.map.set_key(raw, next_key);
            },
        }
    }

    /// Stages new contents for a tile and mirrors them into the map.
    fn stage(&mut self, raw: Raw, prefabs: Vec<Prefab>)
        requires
            old(self).wf(),
            within(at(raw), old(self).map.extent()),
            has_room(&old(self).map, prefab_views(prefabs@)),
        ensures
            final(self).restaged(old(self), at(raw), prefab_views(prefabs@)),
            final(self).index == old(self).index,
    {
        proof {
            self.map.wf_facts();
        }
        let copy = copy_prefabs(&prefabs);
        self.tile_overrides.insert((raw.0 as i32, raw.1 as i32, raw.2 as i32), copy);
        self.sync_tile_to_map(raw, prefabs);
        self.dirty = true;
        proof {
            assert forall|r: (int, int, int)| r != at(raw) && within(r, old(self).map.extent()) implies #[trigger] self.staged(r)
                == old(self).staged(r) by {
                assert(override_cell(r) != override_cell(at(raw)));
            }
        }
    }

    /// Places a prefab on a tile. A turf or an area takes the place of the one that is there;
    /// anything else is added. The tile stays in layer order.
    pub fn place_prefab(&mut self, x: i32, y: i32, z: i32, prefab: Prefab) -> (r: Result<(), String>)
        requires
            old(self).wf(),
            on_map(x as int, y as int, z as int, old(self).map.extent()) ==> has_room(
                &old(self).map,
                with_placed(old(self).contents_at(x as int, y as int, z as int), prefab@),
            ),
        ensures
            place_outcome(old(self), final(self), x, y, z, prefab@, failure(r)),
    {
        let raw = match self.grid_index(x, y, z) {
            Ok(raw) => raw,
            Err(e) => {
                return Err(e);
            },
        };
        let ghost start = *self;
        let existing = self.prefabs_at_raw(raw);
        let ghost before = prefab_views(existing@);
        let mut base: Vec<Prefab> = existing;
        let new_layer: u8 = layer_priority(prefab.path.as_str());
        if has_prefix(prefab.path.as_str(), "/turf") || has_prefix(prefab.path.as_str(), "/area") {
            let (stay, gone) = split_layer(&base, new_layer);
            base = stay;
            self.take_off((x, y, z), &gone);
        } else {
            assert(taken_off(start.index, self.index, (x, y, z), Seq::empty()));
        }
        assert(prefab_views(base@) == kept(before, prefab@.path));
        let insert_pos: usize = find_layer_position(&base, prefab.path.as_str());
        let ghost base_views = prefab_views(base@);
        base.insert(insert_pos, prefab.clone());
        assert(prefab_views(base@) =~= base_views.insert(insert_pos as int, prefab@));
        let ghost mid = *self;
        self.stage(raw, base);
        let ghost staged = *self;
        self.index.add_object(x, y, z, prefab);
        proof {
            assert(taken_off(start.index, mid.index, (x, y, z), displaced(before, prefab@.path)));
            assert forall|r: (int, int, int)| #[trigger] self.staged(r) == staged.staged(r) by {}
        }
        Ok(())
    }

    /// Takes prefabs off a tile in the index.
    fn take_off(&mut self, pos: Cell, gone: &Vec<Prefab>)
        requires
            old(self).wf(),
        ensures
            final(self).wf(),
            final(self).map == old(self).map,
            final(self).path == old(self).path,
            final(self).tile_overrides == old(self).tile_overrides,
            final(self).dirty == old(self).dirty,
            final(self).format_snapshot == old(self).format_snapshot,
            taken_off(old(self).index, final(self).index, pos, prefab_views(gone@)),
    {
        let ghost list = prefab_views(gone@);
        let mut i: usize = 0;
        assert(list.take(0) =~= Seq::empty());
        while i < gone.len()
            invariant
                i <= gone@.len(),
                list == prefab_views(gone@),
                self.wf(),
                self.map == old(self).map,
                self.path == old(self).path,
                self.tile_overrides == old(self).tile_overrides,
                self.dirty == old(self).dirty,
                self.format_snapshot == old(self).format_snapshot,
                taken_off(old(self).index, self.index, pos, list.take(i as int)),
            decreases gone@.len() - i,
        {
            let ghost mid = self.index;
            self.index.remove_object(pos.0, pos.1, pos.2, &gone[i]);
            proof {
                let more = list.take(i + 1);
                assert(more.drop_last() =~= list.take(i as int));
                assert(more.last() == gone@[i as int]@);
                assert(taken_off(old(self).index, mid, pos, more.drop_last()) && self.index.holds_removed(
                    &mid,
                    pos,
                    more.last(),
                ));
            }
            i = i + 1;
        }
        assert(list.take(i as int) =~= list);
    }
}

/// Parts a list into the prefabs off a layer and those on it.
fn split_layer(list: &Vec<Prefab>, layer_number: u8) -> (r: (Vec<Prefab>, Vec<Prefab>))
    ensures
        prefab_views(r.0@) == prefab_views(list@).filter(off_layer(layer_number)),
        prefab_views(r.1@) == prefab_views(list@).filter(on_layer(layer_number)),
{
    let ghost all = prefab_views(list@);
    let mut stay: Vec<Prefab> = Vec::new();
    let mut gone: Vec<Prefab> = Vec::new();
    let mut i: usize = 0;
    proof {
        reveal(Seq::filter);
        assert(all.take(0) =~= Seq::empty());
        assert(prefab_views(stay@) =~= all.take(0).filter(off_layer(layer_number)));
        assert(prefab_views(gone@) =~= all.take(0).filter(on_layer(layer_number)));
    }
    while i < list.len()
        invariant
            i <= list@.len(),
            all == prefab_views(list@),
            prefab_views(stay@) == all.take(i as int).filter(off_layer(layer_number)),
            prefab_views(gone@) == all.take(i as int).filter(on_layer(layer_number)),
        decreases list@.len() - i,
    {
        proof {
            reveal(Seq::filter);
            assert(all.take(i + 1).drop_last() =~= all.take(i as int));
            assert(all.take(i + 1).last() == list@[i as int]@);
        }
        let ghost s0 = prefab_views(stay@);
        let ghost g0 = prefab_views(gone@);
        if layer_priority(list[i].path.as_str()) == layer_number {
            gone.push(list[i].clone());
            assert(prefab_views(gone@) =~= g0.push(list@[i as int]@));
        } else {
            stay.push(list[i].clone());
            assert(prefab_views(stay@) =~= s0.push(list@[i as int]@));
        }
        i = i + 1;
    }
    assert(all.take(i as int) =~= all);
    (stay, gone)
}

/// Finds the first prefab with a path; the length stands for none.
fn find_path(list: &Vec<Prefab>, path: &str) -> (r: usize)
    ensures
        r == path_place(prefab_views(list@), path@),
        r <= list@.len(),
{
    let ghost all = prefab_views(list@);
    let ghost pred = crate::index_laws::has_path(path@);
    let mut i: usize = 0;
    while i < list.len() && !same_text(list[i].path.as_str(), path)
        invariant
            i <= list@.len(),
            all == prefab_views(list@),
            pred == crate::index_laws::has_path(path@),
            forall|j: int| 0 <= j < i ==> !pred(#[trigger] all[j]),
        decreases list@.len() - i,
    {
        assert(all[i as int] == list@[i as int]@);
        i = i + 1;
    }
    proof {
        if i < list@.len() {
            assert(all[i as int] == list@[i as int]@);
        }
        crate::counting::first_place_unique(all, pred, i as int);
    }
    i
}

impl MapData {
    /// Removes the first prefab with a path from a tile; `true` if there was one.
    pub fn remove_prefab(&mut self, x: i32, y: i32, z: i32, type_path: &str) -> (r: Result<bool, String>)
        requires
            old(self).wf(),
            room_to_remove(old(self), x, y, z, type_path@),
        ensures
            remove_outcome(old(self), final(self), x, y, z, type_path@, verdict(r)),
    {
        let raw = match self.grid_index(x, y, z) {
            Ok(raw) => raw,
            Err(e) => {
                return Err(e);
            },
        };
        let ghost start = *self;
        let mut prefabs = self.prefabs_at_raw(raw);
        let ghost list = prefab_views(prefabs@);
        let idx: usize = find_path(&prefabs, type_path);
        if idx < prefabs.len() {
            let removed = prefabs.remove(idx);
            assert(prefab_views(prefabs@) =~= list.remove(idx as int));
            assert(removed@ == list[idx as int]);
            self.stage(raw, prefabs);
            let ghost staged = *self;
            self.index.remove_object(x, y, z, &removed);
            assert forall|r: (int, int, int)| #[trigger] self.staged(r) == staged.staged(r) by {}
            Ok(true)
        } else {
            Ok(false)
        }
    }

    /// Replaces the first prefab with a path on a tile by another; `true` if there was one.
    pub fn replace_prefab(&mut self, x: i32, y: i32, z: i32, old_path: &str, new_prefab: Prefab) -> (r: Result<bool, String>)
        requires
            old(self).wf(),
            ({
                let list = old(self).contents_at(x as int, y as int, z as int);
                let i = path_place(list, old_path@);
                on_map(x as int, y as int, z as int, old(self).map.extent()) && i < list.len() ==> has_room(
                    &old(self).map,
                    list.update(i, new_prefab@),
                )
            }),
        ensures
            replace_outcome(old(self), final(self), x, y, z, old_path@, new_prefab@, verdict(r)),
    {
        let raw = match self.grid_index(x, y, z) {
            Ok(raw) => raw,
            Err(e) => {
                return Err(e);
            },
        };
        let ghost start = *self;
        let mut prefabs = self.prefabs_at_raw(raw);
        let ghost list = prefab_views(prefabs@);
        let idx: usize = find_path(&prefabs, old_path);
        if idx < prefabs.len() {
            let gone = prefabs.remove(idx);
            assert(gone@ == list[idx as int]);
            prefabs.insert(idx, new_prefab.clone());
            assert(prefab_views(prefabs@) =~= list.update(idx as int, new_prefab@));
            self.stage(raw, prefabs);
            let ghost staged = *self;
            self.index.remove_object(x, y, z, &gone);
            let ghost mid = self.index;
            self.index.add_object(x, y, z, new_prefab);
            proof {
                assert forall|r: (int, int, int)| #[trigger] self.staged(r) == staged.staged(r) by {}
                let one = seq![list[idx as int]];
                assert(one.drop_last() =~= Seq::empty());
                assert(taken_off(start.index, start.index, (x, y, z), one.drop_last()));
                assert(mid.holds_removed(&start.index, (x, y, z), one.last()));
                assert(taken_off(start.index, mid, (x, y, z), one));
            }
            Ok(true)
        } else {
            Ok(false)
        }
    }
}

// ── Free keys ────────────────────────────────────────────────────────

/// Giving a tile new contents takes at most one free key, and none where an entry has their
/// fingerprint already.
pub proof fn syncing_takes_one_key(before: &DmmMap, after: &DmmMap, raw: (int, int, int), list: Seq<PrefabView>)
    requires
        before.wf(),
        within(raw, before.extent()),
        synced(before, after, raw, list),
    ensures
        after.free_keys().len() + 1 >= before.free_keys().len(),
        has_print(before, fingerprint(list)) ==> after.free_keys().len() >= before.free_keys().len(),
{
    let key = after.key_at(raw);
    vstd::set_lib::lemma_int_range(0, 65536);
    vstd::set_lib::set_int_range(0, 65536).lemma_len_filter(|k: int| !before.in_use(k as u16));
    vstd::set_lib::set_int_range(0, 65536).lemma_len_filter(|k: int| !after.in_use(k as u16));
    let rest = before.free_keys().remove(key as int);
    assert forall|k: int| rest.contains(k) implies after.free_keys().contains(k) by {
        let u = k as u16;
        if after.in_use(u) {
            if after.entry(u) is Some {
                assert(before.entry(u) is Some);
            } else {
                let r = choose|r: (int, int, int)| within(r, after.extent()) && #[trigger] after.key_at(r) == u;
                assert(r != raw);
                assert(before.key_at(r) == u);
            }
        }
    }
    vstd::set_lib::lemma_len_subset(rest, after.free_keys());
    if has_print(before, fingerprint(list)) {
        assert(!before.free_keys().contains(key as int));
        assert(rest =~= before.free_keys());
    }
}

// ── Prefabs from variables ───────────────────────────────────────────

/// Whether an override says nothing new: it reads like the default, or is `null` where there is
/// no default.
pub open spec fn dominated(c: ConstantView, default: Option<ConstantView>) -> bool {
    match default {
        Some(d) => c.text == d.text,
        None => c.kind is Null,
    }
}

/// Whether an override of a variable is kept. Where the type is not known every override is.
pub open spec fn kept_override(tree: &ObjectTree, t: Option<int>, name: Seq<char>, c: ConstantView) -> bool {
    match t {
        Some(t) => !dominated(c, tree.default_value(t, name)),
        None => true,
    }
}

/// The overrides that are kept, in the order of their names.
pub open spec fn kept_overrides(
    tree: &ObjectTree,
    t: Option<int>,
    names: Seq<Seq<char>>,
    vars: Map<Seq<char>, Constant>,
) -> Seq<(Seq<char>, ConstantView)>
    decreases names.len(),
{
    if names.len() == 0 {
        Seq::empty()
    } else {
        let front = kept_overrides(tree, t, names.drop_last(), vars);
        let name = names.last();
        if kept_override(tree, t, name, vars[name]@) {
            front.push((name, vars[name]@))
        } else {
            front
        }
    }
}

/// The prefab that a type and overrides make.
pub open spec fn built(tree: &ObjectTree, type_path: Seq<char>, vars: &NameTable<Constant>) -> PrefabView {
    PrefabView {
        path: type_path,
        vars: kept_overrides(tree, tree.type_at(type_path), vars.names(), vars@),
    }
}

/// Builds a prefab from a type and overrides, leaving out the overrides that say nothing new.
pub fn build_prefab(type_path: &str, vars: &NameTable<Constant>, objtree: &ObjectTree) -> (r: Prefab)
    requires
        objtree.wf(),
        vars.wf(),
    ensures
        r@ == built(objtree, type_path@, vars),
{
    let t = objtree.find_type(type_path);
    let ghost tv = objtree.type_at(type_path@);
    let mut out: Vec<(String, Constant)> = Vec::new();
    let mut i: usize = 0;
    assert(var_views(out@) =~= Seq::empty());
    while i < vars.len()
        invariant
            i <= vars.names().len(),
            objtree.wf(),
            vars.wf(),
            match t {
                Some(n) => tv == Some(n as int) && n < objtree.types@.len(),
                None => tv is None,
            },
            var_views(out@) == kept_overrides(objtree, tv, vars.names().take(i as int), vars@),
        decreases vars.names().len() - i,
    {
        let name = vars.name_at(i);
        let c = vars.value_at(i);
        let ghost before = var_views(out@);
        let ghost names = vars.names();
        assert(names.take(i + 1).drop_last() =~= names.take(i as int));
        let keep = match t {
            Some(n) => match objtree.default_of(n, name) {
                Some(d) => !same_text(c.text.as_str(), d.text.as_str()),
                None => match &c.kind {
                    ConstantKind::Null => false,
                    _ => true,
                },
            },
            None => true,
        };
        if keep {
            out.push((name.to_string(), c.clone()));
            assert(var_views(out@) =~= before.push((name@, c@)));
        }
        i = i + 1;
    }
    assert(vars.names().take(i as int) =~= vars.names());
    Prefab { path: type_path.to_string(), vars: out }
}

/// The prefab that a type and optional overrides make.
pub open spec fn built_or_plain(tree: &ObjectTree, type_path: Seq<char>, vars: Option<NameTable<Constant>>) -> PrefabView {
    match vars {
        Some(v) => built(tree, type_path, &v),
        None => PrefabView { path: type_path, vars: Seq::empty() },
    }
}

/// Optional overrides without the reference.
pub open spec fn referred(vars: Option<&NameTable<Constant>>) -> Option<NameTable<Constant>> {
    match vars {
        Some(v) => Some(*v),
        None => None,
    }
}

fn build_or_plain(type_path: &str, vars: Option<&NameTable<Constant>>, objtree: &ObjectTree) -> (r: Prefab)
    requires
        objtree.wf(),
        vars matches Some(v) ==> v.wf(),
    ensures
        r@ == built_or_plain(objtree, type_path@, referred(vars)),
{
    match vars {
        Some(v) => build_prefab(type_path, v, objtree),
        None => Prefab::from_path(type_path.to_string()),
    }
}

/// Whether a path is that of a turf: it lies below `/turf`.
pub open spec fn is_turf(path: Seq<char>) -> bool {
    starts_with(path, "/turf/"@)
}

impl MapData {
    /// Replaces the turf on a tile. Only a path below `/turf/` is a turf.
    pub fn set_turf(
        &mut self,
        x: i32,
        y: i32,
        z: i32,
        type_path: &str,
        vars: Option<&NameTable<Constant>>,
        objtree: &ObjectTree,
    ) -> (r: Result<(), String>)
        requires
            old(self).wf(),
            is_turf(type_path@) && on_map(x as int, y as int, z as int, old(self).map.extent())
                ==> has_room(
                &old(self).map,
                with_placed(
                    old(self).contents_at(x as int, y as int, z as int),
                    built_or_plain(objtree, type_path@, referred(vars)),
                ),
            ),
            objtree.wf(),
            vars matches Some(v) ==> v.wf(),
        ensures
            if is_turf(type_path@) {
                place_outcome(old(self), final(self), x, y, z, built_or_plain(objtree, type_path@, referred(vars)), failure(r))
            } else {
                &&& failure(r) == Some("'"@ + type_path@ + "' is not a turf path (must start with /turf/)"@)
                &&& *final(self) == *old(self)
            },
    {
        if !has_prefix(type_path, "/turf/") {
            let mut e = "'".to_string();
            e.append(type_path);
            e.append("' is not a turf path (must start with /turf/)");
            return Err(e);
        }
        let prefab = build_or_plain(type_path, vars, objtree);
        self.place_prefab(x, y, z, prefab)
    }
}

// ── Batches ──────────────────────────────────────────────────────────

/// One placement of a batch.
pub struct BatchPlacement {
    pub x: i32,
    pub y: i32,
    pub z: i32,
    pub type_path: String,
    pub vars: Option<NameTable<Constant>>,
    /// The path of a prefab that is removed first.
    pub replace: Option<String>,
}

/// The outcome of one placement of a batch.
pub struct BatchResult {
    pub x: i32,
    pub y: i32,
    pub z: i32,
    pub type_path: String,
    pub ok: bool,
    pub error: Option<String>,
}

/// What clearing the way for a placement does: the prefab that it is to replace, if any, is
/// removed, and whether that worked does not matter.
pub open spec fn clear_outcome(before: &MapData, after: &MapData, p: BatchPlacement) -> bool {
    match p.replace {
        Some(path) => exists|v: Result<bool, Seq<char>>| #[trigger] remove_outcome(before, after, p.x, p.y, p.z, path@, v),
        None => *after == *before,
    }
}

/// What one placement of a batch does: the way is cleared, and the prefab is placed. The result
/// repeats the request and says how the placing went.
pub open spec fn step_outcome(before: &MapData, after: &MapData, tree: &ObjectTree, p: BatchPlacement, r: BatchResult) -> bool {
    &&& r.x == p.x && r.y == p.y && r.z == p.z
    &&& r.type_path@ == p.type_path@
    &&& r.ok == (r.error is None)
    &&& exists|mid: MapData| #[trigger]
        clear_outcome(before, &mid, p) && place_outcome(
            &mid,
            after,
            p.x,
            p.y,
            p.z,
            built_or_plain(tree, p.type_path@, p.vars),
            opt_text(r.error),
        )
}

/// What a batch does: its placements happen one after the other, each with its result.
pub open spec fn batch_outcome(
    before: MapData,
    after: MapData,
    tree: &ObjectTree,
    ps: Seq<BatchPlacement>,
    rs: Seq<BatchResult>,
) -> bool
    decreases ps.len(),
{
    &&& ps.len() == rs.len()
    &&& if ps.len() == 0 {
        after == before
    } else {
        exists|mid: MapData|
            batch_outcome(before, mid, tree, ps.drop_last(), rs.drop_last()) && #[trigger] step_outcome(
                &mid,
                &after,
                tree,
                ps.last(),
                rs.last(),
            )
    }
}

/// Contents after the way was cleared for a placement.
pub open spec fn cleared(list: Seq<PrefabView>, replace: Option<String>) -> Seq<PrefabView> {
    match replace {
        Some(path) => if path_place(list, path@) < list.len() {
            list.remove(path_place(list, path@))
        } else {
            list
        },
        None => list,
    }
}

/// Whether there is something to clear away for a placement.
pub open spec fn clears(list: Seq<PrefabView>, replace: Option<String>) -> bool {
    replace matches Some(path) && path_place(list, path@) < list.len()
}

/// The contents of a tile after the placements of a batch.
pub open spec fn tile_after(data: &MapData, tree: &ObjectTree, ps: Seq<BatchPlacement>, raw: (int, int, int)) -> Seq<PrefabView>
    decreases ps.len(),
{
    if ps.len() == 0 {
        data.current(raw)
    } else {
        let list = tile_after(data, tree, ps.drop_last(), raw);
        let p = ps.last();
        if on_map(p.x as int, p.y as int, p.z as int, data.map.extent()) && data.cell(p.x, p.y, p.z) == raw {
            with_placed(cleared(list, p.replace), built_or_plain(tree, p.type_path@, p.vars))
        } else {
            list
        }
    }
}

/// Fingerprints, and that of further contents unless the map has an entry with it.
pub open spec fn with_print(data: &MapData, prints: Set<Seq<char>>, list: Seq<PrefabView>) -> Set<Seq<char>> {
    if has_print(&data.map, fingerprint(list)) {
        prints
    } else {
        prints.insert(fingerprint(list))
    }
}

/// The fingerprints after the way was cleared for one more placement.
pub open spec fn prints_cleared(
    data: &MapData,
    prints: Set<Seq<char>>,
    list: Seq<PrefabView>,
    replace: Option<String>,
) -> Set<Seq<char>> {
    if clears(list, replace) {
        with_print(data, prints, cleared(list, replace))
    } else {
        prints
    }
}

/// The fingerprints that a batch gives to tiles and that no entry of the map has. Each takes a key.
pub open spec fn fresh_prints(data: &MapData, tree: &ObjectTree, ps: Seq<BatchPlacement>) -> Set<Seq<char>>
    decreases ps.len(),
{
    if ps.len() == 0 {
        Set::empty()
    } else {
        let front = fresh_prints(data, tree, ps.drop_last());
        let p = ps.last();
        if on_map(p.x as int, p.y as int, p.z as int, data.map.extent()) {
            let list = tile_after(data, tree, ps.drop_last(), data.cell(p.x, p.y, p.z));
            with_print(
                data,
                prints_cleared(data, front, list, p.replace),
                with_placed(cleared(list, p.replace), built_or_plain(tree, p.type_path@, p.vars)),
            )
        } else {
            front
        }
    }
}

proof fn lemma_fresh_prints(data: &MapData, tree: &ObjectTree, ps: Seq<BatchPlacement>, i: int)
    requires
        0 <= i <= ps.len(),
    ensures
        fresh_prints(data, tree, ps).finite(),
        fresh_prints(data, tree, ps.take(i)).subset_of(fresh_prints(data, tree, ps)),
    decreases ps.len(),
{
    if i == ps.len() {
        assert(ps.take(i) =~= ps);
    }
    if ps.len() > 0 {
        lemma_fresh_prints(data, tree, ps.drop_last(), if i < ps.len() { i } else { i - 1 });
        if i < ps.len() {
            assert(ps.drop_last().take(i) =~= ps.take(i));
        }
    }
}

/// How far a map has come in a batch: of the keys that were free it has taken no more than there
/// are new fingerprints, and it has an entry for each fingerprint, old or new.
spec fn keeps_up(start: &MapData, now: &MapData, prints: Set<Seq<char>>) -> bool {
    &&& prints.finite()
    &&& now.map.free_keys().len() + prints.len() >= start.map.free_keys().len()
    &&& forall|print: Seq<char>|
        (#[trigger] has_print(&start.map, print)) || prints.contains(print) ==> has_print(&now.map, print)
}

proof fn lemma_keeps_up(
    start: &MapData,
    now: &MapData,
    after: &MapData,
    raw: (int, int, int),
    list: Seq<PrefabView>,
    prints: Set<Seq<char>>,
)
    requires
        now.map.wf(),
        within(raw, now.map.extent()),
        keeps_up(start, now, prints),
        synced(&now.map, &after.map, raw, list),
    ensures
        keeps_up(start, after, with_print(start, prints, list)),
{
    syncing_takes_one_key(&now.map, &after.map, raw, list);
    let fp = fingerprint(list);
    let more = with_print(start, prints, list);
    assert forall|print: Seq<char>| has_print(&now.map, print) implies has_print(&after.map, print) by {
        let k = choose|k: Key| (#[trigger] now.map.entry(k)) is Some && fingerprint(now.map.entry(k).unwrap()) == print;
        assert(after.map.entry(k) == now.map.entry(k));
    }
    assert(has_print(&after.map, fp)) by {
        if !has_print(&now.map, fp) {
            assert(after.map.entry(after.map.key_at(raw)) == Some(list));
        }
    }
    assert forall|print: Seq<char>| (#[trigger] has_print(&start.map, print)) || more.contains(print) implies has_print(
        &after.map,
        print,
    ) by {
        assert(has_print(&start.map, print) || prints.contains(print) ==> has_print(&now.map, print));
    }
    if !has_print(&now.map, fp) {
        assert(!has_print(&start.map, fp) && !prints.contains(fp));
    }
}

proof fn lemma_room(start: &MapData, now: &MapData, list: Seq<PrefabView>, prints: Set<Seq<char>>, all: Set<Seq<char>>)
    requires
        keeps_up(start, now, prints),
        with_print(start, prints, list).subset_of(all),
        all.finite(),
        all.len() <= start.map.free_keys().len(),
    ensures
        has_room(&now.map, list),
{
    let fp = fingerprint(list);
    if !has_print(&now.map, fp) {
        assert(!has_print(&start.map, fp) && !prints.contains(fp));
        vstd::set_lib::lemma_len_subset(prints.insert(fp), all);
    }
}

/// Whether every tile of a map has come as far as the placements of a batch say.
spec fn tiles_keep_up(start: &MapData, now: &MapData, tree: &ObjectTree, ps: Seq<BatchPlacement>) -> bool {
    forall|raw: (int, int, int)|
        within(raw, start.map.extent()) ==> #[trigger] now.current(raw) == tile_after(start, tree, ps, raw)
}

impl MapData {
    /// Places several prefabs, one after the other.
    pub fn place_batch(&mut self, placements: Vec<BatchPlacement>, objtree: &ObjectTree) -> (r: Vec<BatchResult>)
        requires
            old(self).wf(),
            objtree.wf(),
            fresh_prints(old(self), objtree, placements@).len() <= old(self).map.free_keys().len(),
            forall|i: int| 0 <= i < placements@.len() ==> ((#[trigger] placements@[i]).vars matches Some(v) ==> v.wf()),
        ensures
            final(self).wf(),
            batch_outcome(*old(self), *final(self), objtree, placements@, r@),
    {
        let mut results: Vec<BatchResult> = Vec::new();
        let ghost start = *self;
        let ghost all = fresh_prints(&start, objtree, placements@);
        let mut i: usize = 0;
        proof {
            assert(placements@.take(0).len() == 0);
            lemma_fresh_prints(&start, objtree, placements@, 0);
        }
        while i < placements.len()
            invariant
                i <= placements@.len(),
                results@.len() == i,
                self.wf(),
                objtree.wf(),
                self.map.extent() == start.map.extent(),
                all == fresh_prints(&start, objtree, placements@),
                all.finite(),
                all.len() <= start.map.free_keys().len(),
                keeps_up(&start, self, fresh_prints(&start, objtree, placements@.take(i as int))),
                tiles_keep_up(&start, self, objtree, placements@.take(i as int)),
                forall|j: int| 0 <= j < placements@.len() ==> ((#[trigger] placements@[j]).vars matches Some(v) ==> v.wf()),
                batch_outcome(start, *self, objtree, placements@.take(i as int), results@),
            decreases placements@.len() - i,
        {
            let p = &placements[i];
            let ghost before = *self;
            let ghost results_before = results@;
            let ghost here = on_map(p.x as int, p.y as int, p.z as int, start.map.extent());
            let ghost raw = start.cell(p.x, p.y, p.z);
            let ghost list = before.current(raw);
            let ghost made = built_or_plain(objtree, p.type_path@, p.vars);
            let ghost prints = fresh_prints(&start, objtree, placements@.take(i as int));
            let ghost half = prints_cleared(&start, prints, list, p.replace);
            let ghost full = with_print(&start, half, with_placed(cleared(list, p.replace), made));
            proof {
                let ps = placements@.take(i + 1);
                assert(ps.drop_last() =~= placements@.take(i as int));
                lemma_fresh_prints(&start, objtree, placements@, i + 1);
                if here {
                    positions_agree(p.x as int, p.y as int, p.z as int, raw, start.map.extent());
                    assert(within(raw, start.map.extent()));
                    assert(list == tile_after(&start, objtree, placements@.take(i as int), raw));
                    assert(fresh_prints(&start, objtree, ps) == full);
                    if clears(list, p.replace) {
                        lemma_room(&start, self, cleared(list, p.replace), prints, all);
                    }
                }
            }
            if let Some(path) = &p.replace {
                let v = self.remove_prefab(p.x, p.y, p.z, path.as_str());
                proof {
                    assert(remove_outcome(&before, self, p.x, p.y, p.z, path@, verdict(v)));
                    if here && clears(list, p.replace) {
                        lemma_keeps_up(&start, &before, self, raw, cleared(list, p.replace), prints);
                    }
                }
            }
            let ghost mid = *self;
            proof {
                assert(clear_outcome(&before, &mid, *p));
                assert(mid.map.extent() == start.map.extent());
                if here {
                    assert(keeps_up(&start, &mid, half));
                    assert(mid.current(raw) == cleared(list, p.replace));
                    lemma_room(&start, &mid, with_placed(cleared(list, p.replace), made), half, all);
                }
            }
            let vars: Option<&NameTable<Constant>> = match &p.vars {
                Some(v) => Some(v),
                None => None,
            };
            let prefab = build_or_plain(p.type_path.as_str(), vars, objtree);
            let placed = self.place_prefab(p.x, p.y, p.z, prefab);
            proof {
                let ps = placements@.take(i + 1);
                assert(ps.drop_last() =~= placements@.take(i as int));
                if here {
                    lemma_keeps_up(&start, &mid, self, raw, with_placed(cleared(list, p.replace), made), half);
                }
                assert forall|other: (int, int, int)| within(other, start.map.extent()) implies #[trigger]
                    self.current(other) == tile_after(&start, objtree, ps, other) by {
                    assert(before.current(other) == tile_after(&start, objtree, placements@.take(i as int), other));
                    if here && other != raw {
                        if clears(list, p.replace) {
                            other_tiles_keep_their_contents(&before, &mid, raw, cleared(list, p.replace), other);
                        }
                        other_tiles_keep_their_contents(
                            &mid,
                            self,
                            raw,
                            with_placed(cleared(list, p.replace), made),
                            other,
                        );
                    }
                }
            }
            let one = match placed {
                Ok(_) => BatchResult { x: p.x, y: p.y, z: p.z, type_path: p.type_path.clone(), ok: true, error: None },
                Err(e) => BatchResult {
                    x: p.x,
                    y: p.y,
                    z: p.z,
                    type_path: p.type_path.clone(),
                    ok: false,
                    error: Some(e),
                },
            };
            assert(step_outcome(&before, self, objtree, *p, one));
            results.push(one);
            proof {
                let ps = placements@.take(i + 1);
                assert(ps.drop_last() =~= placements@.take(i as int));
                assert(results@.drop_last() =~= results_before);
                assert(ps.last() == *p);
                assert(batch_outcome(start, before, objtree, ps.drop_last(), results@.drop_last()));
                assert(step_outcome(&before, self, objtree, ps.last(), results@.last()));
            }
            i = i + 1;
        }
        assert(placements@.take(i as int) =~= placements@);
        results
    }
}

} // verus!
