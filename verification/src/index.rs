//! Spatial index over a map: what stands on a tile, where a type occurs, which tiles an area
//! covers.

use crate::counting::{first_place, first_place_is_first, first_place_unique, without_first};
use crate::dmm::{at, on_map, position_of, raw_of, within, DmmMap, Key};
use crate::prefab::{copy_prefabs, prefab_views, Prefab, PrefabView};
use crate::tables::{is_name, Cell, CellTable, PathTable};
use crate::text::{chars_of, has_prefix, same_text, starts_with, text_between};
use vstd::prelude::*;

verus! {

/// A located prefab: an object instance at a position on the map.
pub struct LocatedPrefab {
    pub x: i32,
    pub y: i32,
    pub z: i32,
    pub prefab: Prefab,
}

/// What a [`LocatedPrefab`] holds.
#[verifier::ext_equal]
pub struct Located {
    pub pos: Cell,
    pub prefab: PrefabView,
}

impl View for LocatedPrefab {
    type V = Located;

    open spec fn view(&self) -> Located {
        Located { pos: (self.x, self.y, self.z), prefab: self.prefab@ }
    }
}

impl Clone for LocatedPrefab {
    fn clone(&self) -> (r: Self)
        ensures
            r@ == self@,
    {
        LocatedPrefab { x: self.x, y: self.y, z: self.z, prefab: self.prefab.clone() }
    }
}

/// The views of a list of located prefabs.
pub open spec fn located_views(v: Seq<LocatedPrefab>) -> Seq<Located> {
    v.map_values(|l: LocatedPrefab| l@)
}

/// Whether a type path is the given path or lies below it.
pub open spec fn under(ancestor: Seq<char>, path: Seq<char>) -> bool {
    ||| ancestor == path
    ||| 0 < ancestor.len() < path.len() && path[ancestor.len() as int] == '/' && path.take(ancestor.len() as int) == ancestor
}

/// Whether a type path names an area.
pub open spec fn is_area(path: Seq<char>) -> bool {
    starts_with(path, "/area/"@)
}

/// The spatial index over a map.
pub struct SpatialIndex {
    grid: CellTable<Vec<Prefab>>,
    anchors: PathTable<LocatedPrefab>,
    areas: PathTable<Cell>,
    tile_area: CellTable<String>,
    nothing: Vec<Prefab>,
    pub dim_x: usize,
    pub dim_y: usize,
    pub dim_z: usize,
}

/// Whether an item stands at a position and is the given prefab, the order of variables aside.
pub open spec fn stands(pos: Cell, p: PrefabView) -> spec_fn(Located) -> bool {
    |l: Located| l.pos == pos && l.prefab.ident() == p.ident()
}

/// Whether a prefab is the given one, the order of variables aside.
pub open spec fn is_same(p: PrefabView) -> spec_fn(PrefabView) -> bool {
    |q: PrefabView| q.ident() == p.ident()
}

/// Whether a position is the given one.
pub open spec fn is_cell(pos: Cell) -> spec_fn(Cell) -> bool {
    |c: Cell| c == pos
}

impl SpatialIndex {
    /// The index is consistent.
    pub closed spec fn wf(&self) -> bool {
        &&& self.anchors.wf()
        &&& self.areas.wf()
        &&& forall|q: Seq<char>| #[trigger] self.areas.keys().contains(q) ==> self.areas.list(q).len() > 0
        &&& self.nothing@.len() == 0
        &&& self.dim_x < i32::MAX
        &&& self.dim_y < i32::MAX
        &&& self.dim_z < i32::MAX
    }

    /// What well-formedness says, for use from elsewhere.
    pub proof fn wf_facts(&self)
        requires
            self.wf(),
        ensures
            self.dims().0 < i32::MAX,
            self.dims().1 < i32::MAX,
            self.dims().2 < i32::MAX,
            self.area_paths().no_duplicates(),
            forall|q: Seq<char>| #[trigger] self.area_paths().contains(q) <==> self.area_positions(q).len() > 0,
    {
        self.areas.keys_hold();
    }

    /// The prefabs on a tile.
    pub closed spec fn tile(&self, pos: Cell) -> Seq<PrefabView> {
        if self.grid@.contains_key(pos) {
            prefab_views(self.grid@[pos]@)
        } else {
            Seq::empty()
        }
    }

    /// The instances of a type and of the types below it.
    pub closed spec fn instances(&self, path: Seq<char>) -> Seq<Located> {
        located_views(self.anchors.list(path))
    }

    /// The tiles that an area covers.
    pub closed spec fn area_positions(&self, path: Seq<char>) -> Seq<Cell> {
        self.areas.list(path)
    }

    /// The area that a tile belongs to.
    pub closed spec fn area_at(&self, pos: Cell) -> Option<Seq<char>> {
        if self.tile_area@.contains_key(pos) {
            Some(self.tile_area@[pos]@)
        } else {
            None
        }
    }

    /// The areas that cover a tile, in the order in which they came.
    pub closed spec fn area_paths(&self) -> Seq<Seq<char>> {
        self.areas.keys()
    }

    /// The extent of the map.
    pub closed spec fn dims(&self) -> (usize, usize, usize) {
        (self.dim_z, self.dim_y, self.dim_x)
    }

    /// This index is another one with an object added at a position.
    pub open spec fn holds_added(&self, before: &SpatialIndex, pos: Cell, p: PrefabView) -> bool {
        let path = p.path;
        &&& self.tile(pos) == before.tile(pos).push(p)
        &&& forall|c: Cell| c != pos ==> #[trigger] self.tile(c) == before.tile(c)
        &&& forall|q: Seq<char>| #[trigger] self.instances(q) == (if under(q, path) {
            before.instances(q).push(Located { pos, prefab: p })
        } else {
            before.instances(q)
        })
        &&& forall|q: Seq<char>| #[trigger] self.area_positions(q) == (if is_area(path) && q == path {
            before.area_positions(q).push(pos)
        } else {
            before.area_positions(q)
        })
        &&& forall|c: Cell| #[trigger] self.area_at(c) == (if is_area(path) && c == pos {
            Some(path)
        } else {
            before.area_at(c)
        })
        &&& self.area_paths() == (if is_area(path) && !before.area_paths().contains(path) {
            before.area_paths().push(path)
        } else {
            before.area_paths()
        })
    }

    /// This index is another one with the first object that is the given prefab taken away from
    /// a position.
    pub open spec fn holds_removed(&self, before: &SpatialIndex, pos: Cell, p: PrefabView) -> bool {
        let path = p.path;
        &&& self.tile(pos) == without_first(before.tile(pos), is_same(p))
        &&& forall|c: Cell| c != pos ==> #[trigger] self.tile(c) == before.tile(c)
        &&& forall|q: Seq<char>| #[trigger] self.instances(q) == (if under(q, path) {
            without_first(before.instances(q), stands(pos, p))
        } else {
            before.instances(q)
        })
        &&& forall|q: Seq<char>| #[trigger] self.area_positions(q) == (if is_area(path) && q == path {
            without_first(before.area_positions(q), is_cell(pos))
        } else {
            before.area_positions(q)
        })
        &&& forall|c: Cell| #[trigger] self.area_at(c) == (if is_area(path) && c == pos && before.area_at(c) == Some(path) {
            None
        } else {
            before.area_at(c)
        })
        &&& self.area_paths() == (if is_area(path) && self.area_positions(path).len() == 0 {
            without_first(before.area_paths(), is_name(path))
        } else {
            before.area_paths()
        })
    }

    /// An index over a map of the given extent with nothing on it.
    fn empty(dim_x: usize, dim_y: usize, dim_z: usize) -> (r: SpatialIndex)
        requires
            dim_x < i32::MAX,
            dim_y < i32::MAX,
            dim_z < i32::MAX,
        ensures
            r.wf(),
            r.dims() == (dim_z, dim_y, dim_x),
            forall|p: Seq<char>| #[trigger] r.instances(p) == Seq::<Located>::empty(),
            forall|p: Seq<char>| #[trigger] r.area_positions(p) == Seq::<Cell>::empty(),
            forall|c: Cell| #[trigger] r.area_at(c) is None,
            forall|c: Cell| #[trigger] r.tile(c) == Seq::<PrefabView>::empty(),
            r.area_paths() == Seq::<Seq<char>>::empty(),
    {
        let r = SpatialIndex {
            grid: CellTable::new(),
            anchors: PathTable::new(),
            areas: PathTable::new(),
            tile_area: CellTable::new(),
            nothing: Vec::new(),
            dim_x,
            dim_y,
            dim_z,
        };
        assert forall|p: Seq<char>| #[trigger] r.instances(p) == Seq::<Located>::empty() by {
            assert(r.instances(p) =~= Seq::empty());
        }
        r
    }

    /// Files an object under its path and each path above it.
    fn anchor(&mut self, located: LocatedPrefab)
        requires
            old(self).wf(),
        ensures
            final(self).wf(),
            final(self).dims() == old(self).dims(),
            final(self).grid == old(self).grid,
            final(self).areas == old(self).areas,
            final(self).tile_area == old(self).tile_area,
            forall|q: Seq<char>| #[trigger] final(self).instances(q) == (if under(q, located@.prefab.path) {
                old(self).instances(q).push(located@)
            } else {
                old(self).instances(q)
            }),
    {
        let ghost start = *self;
        let ghost path = located@.prefab.path;
        self.anchors.push(located.prefab.path.as_str(), located.clone());
        proof {
            assert forall|q: Seq<char>| #[trigger] self.instances(q) == (if q == path {
                start.instances(q).push(located@)
            } else {
                start.instances(q)
            }) by {
                if q == path {
                    assert(self.instances(q) =~= start.instances(q).push(located@));
                }
            }
        }
        let chars = chars_of(located.prefab.path.as_str());
        let mut i: usize = 0;
        while i < chars.len()
            invariant
                i <= chars@.len(),
                chars@ == path,
                path == located@.prefab.path,
                self.wf(),
                self.dims() == start.dims(),
                self.grid == start.grid,
                self.areas == start.areas,
                self.tile_area == start.tile_area,
                forall|q: Seq<char>| #[trigger] self.instances(q) == (if q == path || (q.len() < i && under(q, path)) {
                    start.instances(q).push(located@)
                } else {
                    start.instances(q)
                }),
            decreases chars@.len() - i,
        {
            let ghost before = *self;
            if chars[i] == '/' && i > 0 {
                let prefix = text_between(&chars, 0, i);
                assert(prefix@ =~= path.take(i as int));
                self.anchors.push(prefix.as_str(), located.clone());
                assert forall|q: Seq<char>| #[trigger] self.instances(q) == (if q == path || (q.len() < i + 1 && under(
                    q,
                    path,
                )) {
                    start.instances(q).push(located@)
                } else {
                    start.instances(q)
                }) by {
                    assert(before.instances(q) == before.instances(q));
                    if q == prefix@ {
                        assert(self.instances(q) =~= before.instances(q).push(located@));
                    } else if q.len() == i && under(q, path) && q != path {
                        assert(q == path.take(i as int));
                    }
                }
            } else {
                assert forall|q: Seq<char>| #[trigger] self.instances(q) == (if q == path || (q.len() < i + 1 && under(
                    q,
                    path,
                )) {
                    start.instances(q).push(located@)
                } else {
                    start.instances(q)
                }) by {}
            }
            i = i + 1;
        }
    }

    /// Adds an object to the index at a position.
    pub fn add_object(&mut self, x: i32, y: i32, z: i32, prefab: Prefab)
        requires
            old(self).wf(),
        ensures
            final(self).wf(),
            final(self).dims() == old(self).dims(),
            final(self).holds_added(old(self), (x, y, z), prefab@),
    {
        let ghost start = *self;
        let pos: Cell = (x, y, z);
        let mut list: Vec<Prefab> = match self.grid.get(pos) {
            Some(l) => copy_prefabs(l),
            None => Vec::new(),
        };
        assert(prefab_views(list@) =~= start.tile(pos));
        let ghost before_list = list@;
        list.push(prefab.clone());
        assert(prefab_views(list@) =~= start.tile(pos).push(prefab@));
        self.grid.insert(pos, list);
        let area = has_prefix(prefab.path.as_str(), "/area/");
        if area {
            self.areas.push(prefab.path.as_str(), pos);
            self.tile_area.insert(pos, prefab.path.clone());
            assert forall|q: Seq<char>| #[trigger] self.areas.keys().contains(q) implies self.areas.list(q).len() > 0 by {
                if q != prefab@.path {
                    let k = choose|k: int| 0 <= k < self.areas.keys().len() && self.areas.keys()[k] == q;
                    assert(start.areas.keys()[k] == q);
                    assert(start.areas.keys().contains(q));
                }
            }
        }
        let ghost mid = *self;
        assert forall|q: Seq<char>| #[trigger] mid.instances(q) == start.instances(q) by {}
        self.anchor(LocatedPrefab { x, y, z, prefab });
        assert(self.tile(pos) == start.tile(pos).push(prefab@));
        assert forall|c: Cell| c != pos implies #[trigger] self.tile(c) == start.tile(c) by {
            assert(mid.grid@.contains_key(c) == start.grid@.contains_key(c));
        }
    }

    /// Takes the first instance at a position that is the given prefab out of one anchor list.
    fn unanchor(&mut self, key: &str, pos: Cell, prefab: &Prefab)
        requires
            old(self).wf(),
        ensures
            final(self).wf(),
            final(self).dims() == old(self).dims(),
            final(self).grid == old(self).grid,
            final(self).areas == old(self).areas,
            final(self).tile_area == old(self).tile_area,
            final(self).instances(key@) == without_first(old(self).instances(key@), stands(pos, prefab@)),
            forall|q: Seq<char>| q != key@ ==> #[trigger] final(self).instances(q) == old(self).instances(q),
    {
        let ghost start = *self;
        let ghost pred = stands(pos, prefab@);
        let list = self.anchors.get(key);
        let ghost items = located_views(list@);
        assert(items == start.instances(key@));
        let mut i: usize = 0;
        while i < list.len() && !(list[i].x == pos.0 && list[i].y == pos.1 && list[i].z == pos.2
            && list[i].prefab.same(prefab))
            invariant
                i <= list@.len(),
                items == located_views(list@),
                pred == stands(pos, prefab@),
                forall|j: int| 0 <= j < i ==> !pred(#[trigger] items[j]),
            decreases list@.len() - i,
        {
            assert(items[i as int] == list@[i as int]@);
            i = i + 1;
        }
        let found = i < list.len();
        proof {
            if found {
                assert(items[i as int] == list@[i as int]@);
            }
            first_place_unique(items, pred, i as int);
        }
        if found {
            self.anchors.remove_at(key, i);
            assert(self.instances(key@) =~= items.remove(i as int));
        }
    }

    /// Takes an object out of the index at a position: from the tile, and from each list it is
    /// filed under, the first that is the same prefab.
    pub fn remove_object(&mut self, x: i32, y: i32, z: i32, prefab: &Prefab)
        requires
            old(self).wf(),
        ensures
            final(self).wf(),
            final(self).dims() == old(self).dims(),
            final(self).holds_removed(old(self), (x, y, z), prefab@),
    {
        let ghost start = *self;
        let pos: Cell = (x, y, z);
        let ghost path = prefab@.path;
        self.untile(pos, prefab);
        let ghost tiled = *self;
        self.unanchor(prefab.path.as_str(), pos, prefab);
        let chars = chars_of(prefab.path.as_str());
        let mut i: usize = 0;
        while i < chars.len()
            invariant
                i <= chars@.len(),
                chars@ == path,
                path == prefab@.path,
                self.wf(),
                self.dims() == start.dims(),
                self.grid == tiled.grid,
                self.areas == tiled.areas,
                self.tile_area == tiled.tile_area,
                forall|q: Seq<char>| #[trigger] self.instances(q) == (if q == path || (q.len() < i && under(q, path)) {
                    without_first(start.instances(q), stands(pos, prefab@))
                } else {
                    start.instances(q)
                }),
            decreases chars@.len() - i,
        {
            let ghost before = *self;
            if chars[i] == '/' && i > 0 {
                let prefix = text_between(&chars, 0, i);
                assert(prefix@ =~= path.take(i as int));
                self.unanchor(prefix.as_str(), pos, prefab);
                assert forall|q: Seq<char>| #[trigger] self.instances(q) == (if q == path || (q.len() < i + 1 && under(
                    q,
                    path,
                )) {
                    without_first(start.instances(q), stands(pos, prefab@))
                } else {
                    start.instances(q)
                }) by {
                    assert(before.instances(q) == before.instances(q));
                    if q.len() == i && under(q, path) && q != path {
                        assert(q == path.take(i as int));
                    }
                }
            } else {
                assert forall|q: Seq<char>| #[trigger] self.instances(q) == (if q == path || (q.len() < i + 1 && under(
                    q,
                    path,
                )) {
                    without_first(start.instances(q), stands(pos, prefab@))
                } else {
                    start.instances(q)
                }) by {}
            }
            i = i + 1;
        }
        let ghost unanchored = *self;
        if has_prefix(prefab.path.as_str(), "/area/") {
            self.unarea(prefab.path.as_str(), pos);
        }
        assert forall|c: Cell| #[trigger] self.tile(c) == tiled.tile(c) by {}
        assert forall|q: Seq<char>| #[trigger] self.instances(q) == unanchored.instances(q) by {}
    }

    /// Takes the first prefab that is the given one off a tile.
    fn untile(&mut self, pos: Cell, prefab: &Prefab)
        requires
            old(self).wf(),
        ensures
            final(self).wf(),
            final(self).dims() == old(self).dims(),
            final(self).anchors == old(self).anchors,
            final(self).areas == old(self).areas,
            final(self).tile_area == old(self).tile_area,
            final(self).tile(pos) == without_first(old(self).tile(pos), is_same(prefab@)),
            forall|c: Cell| c != pos ==> #[trigger] final(self).tile(c) == old(self).tile(c),
    {
        let ghost start = *self;
        let ghost pred = is_same(prefab@);
        let mut list: Vec<Prefab> = match self.grid.get(pos) {
            Some(l) => copy_prefabs(l),
            None => Vec::new(),
        };
        let ghost items = prefab_views(list@);
        assert(items =~= start.tile(pos));
        let mut i: usize = 0;
        while i < list.len() && !list[i].same(prefab)
            invariant
                i <= list@.len(),
                items == prefab_views(list@),
                pred == is_same(prefab@),
                forall|j: int| 0 <= j < i ==> !pred(#[trigger] items[j]),
            decreases list@.len() - i,
        {
            assert(items[i as int] == list@[i as int]@);
            i = i + 1;
        }
        let found = i < list.len();
        proof {
            if found {
                assert(items[i as int] == list@[i as int]@);
            }
            first_place_unique(items, pred, i as int);
        }
        if found {
            list.remove(i);
            assert(prefab_views(list@) =~= items.remove(i as int));
            self.grid.insert(pos, list);
        }
        assert forall|c: Cell| c != pos implies #[trigger] self.tile(c) == start.tile(c) by {
            assert(self.grid@.contains_key(c) == start.grid@.contains_key(c));
        }
    }

    /// Takes a tile out of an area.
    fn unarea(&mut self, path: &str, pos: Cell)
        requires
            old(self).wf(),
        ensures
            final(self).wf(),
            final(self).dims() == old(self).dims(),
            final(self).anchors == old(self).anchors,
            final(self).grid == old(self).grid,
            forall|q: Seq<char>| #[trigger] final(self).area_positions(q) == (if q == path@ {
                without_first(old(self).area_positions(q), is_cell(pos))
            } else {
                old(self).area_positions(q)
            }),
            forall|c: Cell| #[trigger] final(self).area_at(c) == (if c == pos && old(self).area_at(c) == Some(path@) {
                None
            } else {
                old(self).area_at(c)
            }),
            final(self).area_paths() == (if final(self).area_positions(path@).len() == 0 {
                without_first(old(self).area_paths(), is_name(path@))
            } else {
                old(self).area_paths()
            }),
    {
        let ghost start = *self;
        let ghost pred = is_cell(pos);
        let list = self.areas.get(path);
        let mut i: usize = 0;
        while i < list.len() && !(list[i].0 == pos.0 && list[i].1 == pos.1 && list[i].2 == pos.2)
            invariant
                i <= list@.len(),
                pred == is_cell(pos),
                forall|j: int| 0 <= j < i ==> !pred(#[trigger] list@[j]),
            decreases list@.len() - i,
        {
            i = i + 1;
        }
        let found = i < list.len();
        proof {
            first_place_unique(list@, pred, i as int);
        }
        if found {
            self.areas.remove_at(path, i);
        }
        let ghost taken = *self;
        if self.areas.get(path).len() == 0 {
            self.areas.drop_key(path);
        }
        proof {
            start.areas.keys_hold();
            taken.areas.keys_hold();
            self.areas.keys_hold();
            assert forall|q: Seq<char>| #[trigger] self.areas.keys().contains(q) implies self.areas.list(q).len() > 0 by {
                lemma_without_name(taken.areas.keys(), path@, q);
                if taken.areas.list(path@).len() == 0 && q == path@ {
                    assert(false);
                }
                assert(start.areas.keys().contains(q));
                assert(start.areas.list(q).len() > 0);
            }
        }
        let here = match self.tile_area.get(pos) {
            Some(a) => same_text(a.as_str(), path),
            None => false,
        };
        if here {
            self.tile_area.remove(pos);
        }
    }
}

/// Leaving out the first place of a name that comes once leaves out that name and no other.
proof fn lemma_without_name(names: Seq<Seq<char>>, n: Seq<char>, q: Seq<char>)
    requires
        names.no_duplicates(),
    ensures
        without_first(names, is_name(n)).contains(q) <==> names.contains(q) && q != n,
{
    first_place_is_first(names, is_name(n));
    let f = first_place(names, is_name(n));
    let rest = without_first(names, is_name(n));
    if rest.contains(q) {
        let k = choose|k: int| 0 <= k < rest.len() && rest[k] == q;
        let o = if k < f { k } else { k + 1 };
        if f < names.len() {
            assert(names[o] == q);
        } else {
            assert(names[k] == q);
        }
    }
    if names.contains(q) && q != n {
        let k = choose|k: int| 0 <= k < names.len() && names[k] == q;
        if f < names.len() {
            assert(rest[if k < f { k } else { k - 1 }] == q);
        }
    }
}

// ── Building ─────────────────────────────────────────────────────────

/// Prefabs located at one position.
pub open spec fn located_all(pos: Cell, ps: Seq<PrefabView>) -> Seq<Located> {
    ps.map_values(|p: PrefabView| Located { pos, prefab: p })
}

/// The position of a grid cell as coordinates.
pub open spec fn cell_of(raw: (int, int, int), dim_y: int) -> Cell {
    let p = position_of(raw, dim_y);
    (p.0 as i32, p.1 as i32, p.2 as i32)
}

/// What stands on a grid cell.
pub open spec fn placed_on(map: &DmmMap, raw: (int, int, int)) -> Seq<Located> {
    located_all(cell_of(raw, map.extent().1 as int), map.contents(raw))
}

/// What stands on the first `n` columns of a row.
pub open spec fn placed_in_row(map: &DmmMap, z: int, y: int, n: nat) -> Seq<Located>
    decreases n,
{
    if n == 0 {
        Seq::empty()
    } else {
        placed_in_row(map, z, y, (n - 1) as nat) + placed_on(map, (z, y, n - 1))
    }
}

/// What stands on the first `n` rows of a level, from the top.
pub open spec fn placed_in_level(map: &DmmMap, z: int, n: nat) -> Seq<Located>
    decreases n,
{
    if n == 0 {
        Seq::empty()
    } else {
        placed_in_level(map, z, (n - 1) as nat) + placed_in_row(map, z, n - 1, map.extent().2 as nat)
    }
}

/// What stands on the first `n` levels of a map.
pub open spec fn placed_in(map: &DmmMap, n: nat) -> Seq<Located>
    decreases n,
{
    if n == 0 {
        Seq::empty()
    } else {
        placed_in(map, (n - 1) as nat) + placed_in_level(map, n - 1, map.extent().1 as nat)
    }
}

/// Everything on a map, level by level, row by row from the top, column by column.
pub open spec fn placed(map: &DmmMap) -> Seq<Located> {
    placed_in(map, map.extent().0 as nat)
}

/// The objects under a path.
pub open spec fn of_type(q: Seq<char>) -> spec_fn(Located) -> bool {
    |l: Located| under(q, l.prefab.path)
}

/// The objects that are the given area.
pub open spec fn of_area(q: Seq<char>) -> spec_fn(Located) -> bool {
    |l: Located| is_area(l.prefab.path) && l.prefab.path == q
}

/// The objects at a position.
pub open spec fn at_cell(c: Cell) -> spec_fn(Located) -> bool {
    |l: Located| l.pos == c
}

/// The last area that is placed at a position.
pub open spec fn last_area(s: Seq<Located>, c: Cell) -> Option<Seq<char>>
    decreases s.len(),
{
    if s.len() == 0 {
        None
    } else if s.last().pos == c && is_area(s.last().prefab.path) {
        Some(s.last().prefab.path)
    } else {
        last_area(s.drop_last(), c)
    }
}

/// The positions of located prefabs.
pub open spec fn positions(s: Seq<Located>) -> Seq<Cell> {
    s.map_values(|l: Located| l.pos)
}

/// Located prefabs without their positions.
pub open spec fn unlocated(s: Seq<Located>) -> Seq<PrefabView> {
    s.map_values(|l: Located| l.prefab)
}

impl SpatialIndex {
    /// The index files exactly the given objects, in the given order.
    pub open spec fn files(&self, done: Seq<Located>) -> bool {
        &&& forall|q: Seq<char>| #[trigger] self.instances(q) == done.filter(of_type(q))
        &&& forall|q: Seq<char>| #[trigger] self.area_positions(q) == positions(done.filter(of_area(q)))
        &&& forall|c: Cell| #[trigger] self.area_at(c) == last_area(done, c)
        &&& forall|c: Cell| #[trigger] self.tile(c) == unlocated(done.filter(at_cell(c)))
        &&& self.area_paths().no_duplicates()
        &&& forall|q: Seq<char>| #[trigger] self.area_paths().contains(q) <==> self.area_positions(q).len() > 0
    }
}

proof fn lemma_files_push(before: &SpatialIndex, after: &SpatialIndex, done: Seq<Located>, l: Located)
    requires
        before.files(done),
        after.holds_added(before, l.pos, l.prefab),
    ensures
        after.files(done.push(l)),
{
    let more = done.push(l);
    assert(more.drop_last() =~= done);
    reveal(Seq::filter);
    assert forall|q: Seq<char>| #[trigger] after.instances(q) == more.filter(of_type(q)) by {
        assert(before.instances(q) == done.filter(of_type(q)));
    }
    assert forall|q: Seq<char>| #[trigger] after.area_positions(q) == positions(more.filter(of_area(q))) by {
        assert(before.area_positions(q) == positions(done.filter(of_area(q))));
        assert(after.area_positions(q) =~= positions(more.filter(of_area(q))));
    }
    assert forall|c: Cell| #[trigger] after.area_at(c) == last_area(more, c) by {
        assert(before.area_at(c) == last_area(done, c));
    }
    assert forall|c: Cell| #[trigger] after.tile(c) == unlocated(more.filter(at_cell(c))) by {
        assert(before.tile(c) == unlocated(done.filter(at_cell(c))));
        assert(after.tile(c) =~= unlocated(more.filter(at_cell(c))));
    }
    assert forall|q: Seq<char>| #[trigger] after.area_paths().contains(q) <==> after.area_positions(q).len() > 0 by {
        let path = l.prefab.path;
        assert(before.area_paths().contains(q) <==> before.area_positions(q).len() > 0);
        if is_area(path) && !before.area_paths().contains(path) {
            if q == path {
                assert(after.area_paths()[before.area_paths().len() as int] == path);
            } else if before.area_paths().contains(q) {
                let i = choose|i: int| 0 <= i < before.area_paths().len() && before.area_paths()[i] == q;
                assert(after.area_paths()[i] == q);
            }
        }
    }
}

proof fn lemma_none_here(map: &DmmMap, raw: (int, int, int), c: Cell)
    requires
        map.wf(),
        within(raw, map.extent()),
        c != cell_of(raw, map.extent().1 as int),
    ensures
        placed_on(map, raw).filter(at_cell(c)) == Seq::<Located>::empty(),
{
    lemma_filter_none(placed_on(map, raw), at_cell(c));
}

proof fn lemma_filter_none(s: Seq<Located>, p: spec_fn(Located) -> bool)
    requires
        forall|i: int| 0 <= i < s.len() ==> !p(#[trigger] s[i]),
    ensures
        s.filter(p) == Seq::<Located>::empty(),
    decreases s.len(),
{
    reveal(Seq::filter);
    if s.len() > 0 {
        assert forall|i: int| 0 <= i < s.drop_last().len() implies !p(#[trigger] s.drop_last()[i]) by {
            assert(s.drop_last()[i] == s[i]);
        }
        lemma_filter_none(s.drop_last(), p);
        assert(!p(s[s.len() - 1]));
    } else {
        assert(s.filter(p) =~= Seq::empty());
    }
}

proof fn lemma_filter_all(s: Seq<Located>, p: spec_fn(Located) -> bool)
    requires
        forall|i: int| 0 <= i < s.len() ==> p(#[trigger] s[i]),
    ensures
        s.filter(p) == s,
    decreases s.len(),
{
    reveal(Seq::filter);
    if s.len() > 0 {
        assert forall|i: int| 0 <= i < s.drop_last().len() implies p(#[trigger] s.drop_last()[i]) by {
            assert(s.drop_last()[i] == s[i]);
        }
        lemma_filter_all(s.drop_last(), p);
        assert(p(s[s.len() - 1]));
        assert(s.drop_last().push(s.last()) =~= s);
    }
}

proof fn lemma_row_at(map: &DmmMap, z: int, y: int, n: nat, c: Cell)
    requires
        map.wf(),
        0 <= z < map.extent().0,
        0 <= y < map.extent().1,
        n <= map.extent().2,
    ensures
        placed_in_row(map, z, y, n).filter(at_cell(c)) == (if c.2 == z + 1 && c.1 == map.extent().1 - y && 1 <= c.0 <= n {
            placed_on(map, (z, y, c.0 - 1))
        } else {
            Seq::empty()
        }),
    decreases n,
{
    map.wf_facts();
    if n == 0 {
        reveal(Seq::filter);
        assert(placed_in_row(map, z, y, n).filter(at_cell(c)) =~= Seq::empty());
    } else {
        lemma_row_at(map, z, y, (n - 1) as nat, c);
        let raw = (z, y, n - 1);
        Seq::filter_distributes_over_add(placed_in_row(map, z, y, (n - 1) as nat), placed_on(map, raw), at_cell(c));
        if c == cell_of(raw, map.extent().1 as int) {
            lemma_filter_all(placed_on(map, raw), at_cell(c));
            assert(Seq::<Located>::empty() + placed_on(map, raw) =~= placed_on(map, raw));
        } else {
            lemma_none_here(map, raw, c);
            let rest = placed_in_row(map, z, y, (n - 1) as nat).filter(at_cell(c));
            assert(rest + Seq::<Located>::empty() =~= rest);
        }
    }
}

proof fn lemma_level_at(map: &DmmMap, z: int, n: nat, c: Cell)
    requires
        map.wf(),
        0 <= z < map.extent().0,
        n <= map.extent().1,
    ensures
        placed_in_level(map, z, n).filter(at_cell(c)) == (if c.2 == z + 1 && 0 <= map.extent().1 - c.1 < n && 1 <= c.0
            <= map.extent().2 {
            placed_on(map, (z, map.extent().1 - c.1, c.0 - 1))
        } else {
            Seq::empty()
        }),
    decreases n,
{
    map.wf_facts();
    if n == 0 {
        reveal(Seq::filter);
        assert(placed_in_level(map, z, n).filter(at_cell(c)) =~= Seq::empty());
    } else {
        lemma_level_at(map, z, (n - 1) as nat, c);
        let w = map.extent().2 as nat;
        lemma_row_at(map, z, n - 1, w, c);
        let a = placed_in_level(map, z, (n - 1) as nat);
        let b = placed_in_row(map, z, n - 1, w);
        Seq::filter_distributes_over_add(a, b, at_cell(c));
        assert(a.filter(at_cell(c)) + Seq::<Located>::empty() =~= a.filter(at_cell(c)));
        assert(Seq::<Located>::empty() + b.filter(at_cell(c)) =~= b.filter(at_cell(c)));
    }
}

proof fn lemma_levels_at(map: &DmmMap, n: nat, c: Cell)
    requires
        map.wf(),
        n <= map.extent().0,
    ensures
        placed_in(map, n).filter(at_cell(c)) == (if 1 <= c.2 <= n && 1 <= c.1 <= map.extent().1 && 1 <= c.0
            <= map.extent().2 {
            placed_on(map, raw_of(c.0 as int, c.1 as int, c.2 as int, map.extent().1 as int))
        } else {
            Seq::empty()
        }),
    decreases n,
{
    map.wf_facts();
    if n == 0 {
        reveal(Seq::filter);
        assert(placed_in(map, n).filter(at_cell(c)) =~= Seq::empty());
    } else {
        lemma_levels_at(map, (n - 1) as nat, c);
        let h = map.extent().1 as nat;
        lemma_level_at(map, n - 1, h, c);
        let a = placed_in(map, (n - 1) as nat);
        let b = placed_in_level(map, n - 1, h);
        Seq::filter_distributes_over_add(a, b, at_cell(c));
        assert(a.filter(at_cell(c)) + Seq::<Located>::empty() =~= a.filter(at_cell(c)));
        assert(Seq::<Located>::empty() + b.filter(at_cell(c)) =~= b.filter(at_cell(c)));
    }
}

/// An index that files what a map holds agrees with the map on every tile: the index reads a
/// tile from where the map keeps it, and there is nothing beyond the edges.
pub proof fn index_agrees_with_map(index: &SpatialIndex, map: &DmmMap, c: Cell)
    requires
        map.wf(),
        index.files(placed(map)),
    ensures
        index.tile(c) == (if on_map(c.0 as int, c.1 as int, c.2 as int, map.extent()) {
            map.contents(raw_of(c.0 as int, c.1 as int, c.2 as int, map.extent().1 as int))
        } else {
            Seq::empty()
        }),
{
    lemma_levels_at(map, map.extent().0 as nat, c);
    let raw = raw_of(c.0 as int, c.1 as int, c.2 as int, map.extent().1 as int);
    if on_map(c.0 as int, c.1 as int, c.2 as int, map.extent()) {
        assert(unlocated(placed_on(map, raw)) =~= map.contents(raw));
    } else {
        assert(unlocated(Seq::empty()) =~= Seq::<PrefabView>::empty());
    }
}

impl SpatialIndex {
    /// Adds the prefabs of one tile.
    fn add_tile(&mut self, pos: Cell, prefabs: &Vec<Prefab>, done: Ghost<Seq<Located>>)
        requires
            old(self).wf(),
            old(self).files(done@),
        ensures
            final(self).wf(),
            final(self).dims() == old(self).dims(),
            final(self).files(done@ + located_all(pos, prefab_views(prefabs@))),
    {
        let ghost all = located_all(pos, prefab_views(prefabs@));
        let ghost start = done@;
        let mut i: usize = 0;
        assert(start + all.take(0) =~= start);
        while i < prefabs.len()
            invariant
                i <= prefabs@.len(),
                all == located_all(pos, prefab_views(prefabs@)),
                self.wf(),
                self.dims() == old(self).dims(),
                self.files(start + all.take(i as int)),
            decreases prefabs@.len() - i,
        {
            let ghost before = *self;
            self.add_object(pos.0, pos.1, pos.2, prefabs[i].clone());
            proof {
                lemma_files_push(&before, self, start + all.take(i as int), all[i as int]);
                assert((start + all.take(i as int)).push(all[i as int]) =~= start + all.take(i + 1));
            }
            i = i + 1;
        }
        assert(all.take(i as int) =~= all);
    }

    /// Builds the index of a map in a single pass over its tiles.
    pub fn build(map: &DmmMap) -> (r: SpatialIndex)
        requires
            map.wf(),
        ensures
            r.wf(),
            r.dims() == map.extent(),
            r.files(placed(map)),
    {
        proof {
            map.wf_facts();
        }
        let (dim_x, dim_y, dim_z) = map.dim_xyz();
        let mut index = SpatialIndex::empty(dim_x, dim_y, dim_z);
        proof {
            reveal(Seq::filter);
            let none = Seq::<Located>::empty();
            assert forall|q: Seq<char>| #[trigger] index.instances(q) == none.filter(of_type(q)) by {}
            assert forall|q: Seq<char>| #[trigger] index.area_positions(q) == positions(none.filter(of_area(q))) by {
                assert(positions(none.filter(of_area(q))) =~= Seq::empty());
            }
            assert forall|c: Cell| #[trigger] index.tile(c) == unlocated(none.filter(at_cell(c))) by {
                assert(unlocated(none.filter(at_cell(c))) =~= Seq::empty());
            }
            assert(index.files(none));
        }
        let mut z: usize = 0;
        while z < dim_z
            invariant
                z <= dim_z,
                map.wf(),
                map.extent() == (dim_z, dim_y, dim_x),
                dim_x < i32::MAX,
                dim_y < i32::MAX,
                dim_z < i32::MAX,
                index.wf(),
                index.dims() == map.extent(),
                index.files(placed_in(map, z as nat)),
            decreases dim_z - z,
        {
            let ghost levels = placed_in(map, z as nat);
            assert(levels + placed_in_level(map, z as int, 0) =~= levels);
            let mut y: usize = 0;
            while y < dim_y
                invariant
                    y <= dim_y,
                    z < dim_z,
                    map.wf(),
                    map.extent() == (dim_z, dim_y, dim_x),
                    dim_x < i32::MAX,
                    dim_y < i32::MAX,
                    dim_z < i32::MAX,
                    index.wf(),
                    index.dims() == map.extent(),
                    index.files(levels + placed_in_level(map, z as int, y as nat)),
                decreases dim_y - y,
            {
                let ghost rows = levels + placed_in_level(map, z as int, y as nat);
                assert(rows + placed_in_row(map, z as int, y as int, 0) =~= rows);
                let mut x: usize = 0;
                while x < dim_x
                    invariant
                        x <= dim_x,
                        y < dim_y,
                        z < dim_z,
                        map.wf(),
                        map.extent() == (dim_z, dim_y, dim_x),
                        dim_x < i32::MAX,
                        dim_y < i32::MAX,
                        dim_z < i32::MAX,
                        index.wf(),
                        index.dims() == map.extent(),
                        index.files(rows + placed_in_row(map, z as int, y as int, x as nat)),
                    decreases dim_x - x,
                {
                    let ghost tiles = rows + placed_in_row(map, z as int, y as int, x as nat);
                    let ghost here = placed_on(map, (z as int, y as int, x as int));
                    let key: Key = map.key((z, y, x));
                    let pos: Cell = ((x + 1) as i32, (dim_y - y) as i32, (z + 1) as i32);
                    match map.lookup(key) {
                        Some(prefabs) => {
                            index.add_tile(pos, prefabs, Ghost(tiles));
                        },
                        None => {
                            assert(tiles + here =~= tiles);
                        },
                    }
                    assert(tiles + here =~= rows + placed_in_row(map, z as int, y as int, (x + 1) as nat));
                    x = x + 1;
                }
                assert(rows + placed_in_row(map, z as int, y as int, dim_x as nat) =~= levels + placed_in_level(
                    map,
                    z as int,
                    (y + 1) as nat,
                ));
                y = y + 1;
            }
            z = z + 1;
        }
        index
    }
}

// ── Queries ──────────────────────────────────────────────────────────

/// The four neighbours of a tile, in the order in which they are visited.
pub open spec fn neighbours(x: i32, y: i32, z: i32) -> Seq<Cell> {
    seq![
        (x, (y - 1) as i32, z),
        (x, (y + 1) as i32, z),
        ((x - 1) as i32, y, z),
        ((x + 1) as i32, y, z),
    ]
}

/// The cells of the first `n` rows of a column of a square, without the centre.
pub open spec fn column_around(x: int, y: int, z: i32, dx: int, radius: int, n: nat) -> Seq<Cell>
    decreases n,
{
    if n == 0 {
        Seq::empty()
    } else {
        let dy = n - 1 - radius;
        let before = column_around(x, y, z, dx, radius, (n - 1) as nat);
        if dx == 0 && dy == 0 {
            before
        } else {
            before.push(((x + dx) as i32, (y + dy) as i32, z))
        }
    }
}

/// The cells of the first `n` columns of the square around a tile, without the centre.
pub open spec fn columns_around(x: int, y: int, z: i32, radius: int, n: nat) -> Seq<Cell>
    decreases n,
{
    if n == 0 {
        Seq::empty()
    } else {
        columns_around(x, y, z, radius, (n - 1) as nat) + column_around(
            x,
            y,
            z,
            n - 1 - radius,
            radius,
            (2 * radius + 1) as nat,
        )
    }
}

/// The cells within `radius` of a tile, without the tile itself.
pub open spec fn square_around(x: int, y: int, z: i32, radius: int) -> Seq<Cell> {
    if radius < 0 {
        Seq::empty()
    } else {
        columns_around(x, y, z, radius, (2 * radius + 1) as nat)
    }
}

/// The cells within `radius` of a tile, without the tile itself, column by column.
pub fn cells_around(x: i32, y: i32, z: i32, radius: i32) -> (r: Vec<Cell>)
    requires
        radius > i32::MIN,
        radius >= 0 ==> i32::MIN <= x - radius && x + radius <= i32::MAX,
        radius >= 0 ==> i32::MIN <= y - radius && y + radius <= i32::MAX,
    ensures
        r@ == square_around(x as int, y as int, z, radius as int),
{
    let mut cells: Vec<Cell> = Vec::new();
    if radius >= 0 {
        let rad: i64 = radius as i64;
        let side: i64 = 2 * rad + 1;
        let mut a: i64 = 0;
        while a < side
            invariant
                0 <= a <= side,
                side == 2 * rad + 1,
                rad == radius,
                radius >= 0,
                i32::MIN <= x - radius,
                x + radius <= i32::MAX,
                i32::MIN <= y - radius,
                y + radius <= i32::MAX,
                cells@ == columns_around(x as int, y as int, z, radius as int, a as nat),
            decreases side - a,
        {
            let dx: i64 = a - rad;
            let ghost columns = cells@;
            assert(cells@ =~= columns + column_around(x as int, y as int, z, dx as int, radius as int, 0));
            let mut b: i64 = 0;
            while b < side
                invariant
                    0 <= b <= side,
                    side == 2 * rad + 1,
                    rad == radius,
                    radius >= 0,
                    -rad <= dx <= rad,
                    i32::MIN <= x - radius,
                    x + radius <= i32::MAX,
                    i32::MIN <= y - radius,
                    y + radius <= i32::MAX,
                    cells@ == columns + column_around(x as int, y as int, z, dx as int, radius as int, b as nat),
                decreases side - b,
            {
                let dy: i64 = b - rad;
                if dx != 0 || dy != 0 {
                    cells.push(((x as i64 + dx) as i32, (y as i64 + dy) as i32, z));
                }
                b = b + 1;
                assert(cells@ =~= columns + column_around(x as int, y as int, z, dx as int, radius as int, b as nat));
            }
            a = a + 1;
        }
    }
    cells
}

impl SpatialIndex {
    /// Everything on the given tiles, tile by tile.
    pub open spec fn objects_on(&self, cells: Seq<Cell>) -> Seq<Located>
        decreases cells.len(),
    {
        if cells.len() == 0 {
            Seq::empty()
        } else {
            self.objects_on(cells.drop_last()) + located_all(cells.last(), self.tile(cells.last()))
        }
    }

    /// The prefabs at a position.
    pub fn at(&self, x: i32, y: i32, z: i32) -> (r: &[Prefab])
        requires
            self.wf(),
        ensures
            prefab_views(r@) == self.tile((x, y, z)),
    {
        match self.grid.get((x, y, z)) {
            Some(list) => list.as_slice(),
            None => {
                assert(prefab_views(self.nothing@) =~= Seq::empty());
                self.nothing.as_slice()
            },
        }
    }

    /// The instances of a type, subtypes included.
    pub fn instances_of(&self, type_path: &str) -> (r: &[LocatedPrefab])
        requires
            self.wf(),
        ensures
            located_views(r@) == self.instances(type_path@),
    {
        self.anchors.get(type_path).as_slice()
    }

    /// The positions that belong to an area.
    pub fn area_tiles(&self, area_path: &str) -> (r: &[Cell])
        requires
            self.wf(),
        ensures
            r@ == self.area_positions(area_path@),
    {
        self.areas.get(area_path).as_slice()
    }

    /// The area path of a tile.
    pub fn area_of(&self, x: i32, y: i32, z: i32) -> (r: Option<&str>)
        ensures
            match r {
                Some(a) => self.area_at((x, y, z)) == Some(a@),
                None => self.area_at((x, y, z)) is None,
            },
    {
        match self.tile_area.get((x, y, z)) {
            Some(a) => Some(a.as_str()),
            None => None,
        }
    }

    /// The extent of the map: columns, rows, levels.
    pub fn dim_xyz(&self) -> (r: (usize, usize, usize))
        ensures
            r == (self.dims().2, self.dims().1, self.dims().0),
    {
        (self.dim_x, self.dim_y, self.dim_z)
    }

    /// Appends everything on one tile.
    fn collect_tile(&self, pos: Cell, out: &mut Vec<LocatedPrefab>)
        ensures
            located_views(final(out)@) == located_views(old(out)@) + located_all(pos, self.tile(pos)),
    {
        let ghost start = out@;
        match self.grid.get(pos) {
            Some(list) => {
                let ghost all = located_all(pos, prefab_views(list@));
                let mut i: usize = 0;
                assert(located_views(out@) =~= located_views(start) + all.take(0));
                while i < list.len()
                    invariant
                        i <= list@.len(),
                        all == located_all(pos, prefab_views(list@)),
                        located_views(out@) == located_views(start) + all.take(i as int),
                    decreases list@.len() - i,
                {
                    let ghost before = out@;
                    out.push(LocatedPrefab { x: pos.0, y: pos.1, z: pos.2, prefab: list[i].clone() });
                    assert(located_views(out@) =~= located_views(before).push(all[i as int]));
                    i = i + 1;
                    assert(located_views(out@) =~= located_views(start) + all.take(i as int));
                }
                assert(all.take(i as int) =~= all);
            },
            None => {
                assert(located_views(out@) =~= located_views(start) + located_all(pos, self.tile(pos)));
            },
        }
    }

    /// Everything on the four tiles next to a tile.
    pub fn adjacent(&self, x: i32, y: i32, z: i32) -> (r: Vec<LocatedPrefab>)
        requires
            i32::MIN < x < i32::MAX,
            i32::MIN < y < i32::MAX,
        ensures
            located_views(r@) == self.objects_on(neighbours(x, y, z)),
    {
        let cells: Vec<Cell> = vec![(x, y - 1, z), (x, y + 1, z), (x - 1, y, z), (x + 1, y, z)];
        assert(cells@ =~= neighbours(x, y, z));
        self.collect(&cells)
    }

    /// Everything on the given tiles, in their order.
    fn collect(&self, cells: &Vec<Cell>) -> (r: Vec<LocatedPrefab>)
        ensures
            located_views(r@) == self.objects_on(cells@),
    {
        let mut out: Vec<LocatedPrefab> = Vec::new();
        let mut i: usize = 0;
        assert(located_views(out@) =~= Seq::empty());
        while i < cells.len()
            invariant
                i <= cells@.len(),
                located_views(out@) == self.objects_on(cells@.take(i as int)),
            decreases cells@.len() - i,
        {
            assert(cells@.take(i + 1).drop_last() =~= cells@.take(i as int));
            self.collect_tile(cells[i], &mut out);
            i = i + 1;
        }
        assert(cells@.take(i as int) =~= cells@);
        out
    }

    /// Everything within `radius` tiles of a tile, the tile itself left out.
    pub fn nearby(&self, x: i32, y: i32, z: i32, radius: i32) -> (r: Vec<LocatedPrefab>)
        requires
            radius > i32::MIN,
            radius >= 0 ==> i32::MIN <= x - radius && x + radius <= i32::MAX,
            radius >= 0 ==> i32::MIN <= y - radius && y + radius <= i32::MAX,
        ensures
            located_views(r@) == self.objects_on(square_around(x as int, y as int, z, radius as int)),
    {
        let cells = cells_around(x, y, z, radius);
        self.collect(&cells)
    }

    /// Everything on the tiles of an area.
    pub fn objects_in_area(&self, area_path: &str) -> (r: Vec<LocatedPrefab>)
        requires
            self.wf(),
        ensures
            located_views(r@) == self.objects_on(self.area_positions(area_path@)),
    {
        self.collect(self.areas.get(area_path))
    }

    /// The paths of all areas on the map.
    pub fn all_areas(&self) -> (r: Vec<&str>)
        requires
            self.wf(),
        ensures
            r@.map_values(|s: &str| s@) == self.area_paths(),
    {
        let mut out: Vec<&str> = Vec::new();
        let mut i: usize = 0;
        let count: usize = self.areas.count();
        while i < count
            invariant
                i <= count,
                self.wf(),
                count == self.area_paths().len(),
                out@.map_values(|s: &str| s@) == self.area_paths().take(i as int),
            decreases count - i,
        {
            let ghost before = out@;
            let name = self.areas.key(i);
            out.push(name);
            assert(out@.map_values(|s: &str| s@) =~= before.map_values(|s: &str| s@).push(name@));
            i = i + 1;
            assert(out@.map_values(|s: &str| s@) =~= self.area_paths().take(i as int));
        }
        assert(self.area_paths().take(i as int) =~= self.area_paths());
        out
    }
}

// ── Networks ─────────────────────────────────────────────────────────

/// Whether two tiles are next to each other on one level.
pub open spec fn next_to(a: Cell, b: Cell) -> bool {
    a.2 == b.2 && ((a.0 == b.0 && (a.1 == b.1 + 1 || a.1 + 1 == b.1)) || (a.1 == b.1 && (a.0 == b.0 + 1 || a.0 + 1
        == b.0)))
}

/// The tiles next to a tile on its level, as far as there are coordinates for them.
fn neighbours_of(c: Cell) -> (r: Vec<Cell>)
    ensures
        forall|n: Cell| #[trigger] r@.contains(n) <==> next_to(c, n),
        forall|j: int| 0 <= j < r@.len() ==> next_to(c, #[trigger] r@[j]),
{
    let mut cells: Vec<Cell> = Vec::new();
    if c.1 > i32::MIN {
        cells.push((c.0, c.1 - 1, c.2));
    }
    let ghost one = cells@;
    if c.1 < i32::MAX {
        cells.push((c.0, c.1 + 1, c.2));
    }
    let ghost two = cells@;
    if c.0 > i32::MIN {
        cells.push((c.0 - 1, c.1, c.2));
    }
    let ghost three = cells@;
    if c.0 < i32::MAX {
        cells.push((c.0 + 1, c.1, c.2));
    }
    assert forall|n: Cell| next_to(c, n) implies #[trigger] cells@.contains(n) by {
        if n.1 + 1 == c.1 {
            assert(cells@[0] == n);
        } else if n.1 == c.1 + 1 {
            assert(cells@[one.len() as int] == n);
        } else if n.0 + 1 == c.0 {
            assert(cells@[two.len() as int] == n);
        } else {
            assert(cells@[three.len() as int] == n);
        }
    }
    cells
}

impl SpatialIndex {
    /// Whether an object on a tile belongs to a network: its path begins with the given text.
    pub open spec fn carries(&self, c: Cell, network: Seq<char>) -> bool {
        exists|i: int| 0 <= i < self.tile(c).len() && starts_with(#[trigger] self.tile(c)[i].path, network)
    }

    /// Whether a sequence of tiles runs along a network, each next to the one before.
    pub open spec fn runs_along(&self, walk: Seq<Cell>, network: Seq<char>) -> bool {
        &&& forall|i: int| 0 <= i < walk.len() ==> self.carries(#[trigger] walk[i], network)
        &&& forall|i: int| 0 < i < walk.len() ==> next_to(walk[i - 1], #[trigger] walk[i])
    }

    /// Whether a tile can be reached from another along a network.
    pub open spec fn linked(&self, from: Cell, to: Cell, network: Seq<char>) -> bool {
        exists|walk: Seq<Cell>|
            #![trigger self.runs_along(walk, network)]
            walk.len() > 0 && walk[0] == from && walk.last() == to && self.runs_along(walk, network)
    }

    /// Whether tiles are a trace of a network from a tile: each tile that can be reached along
    /// the network, once.
    pub open spec fn is_trace(&self, start: Cell, network: Seq<char>, found: Seq<Cell>) -> bool {
        &&& found.no_duplicates()
        &&& forall|c: Cell| #[trigger] found.contains(c) <==> self.linked(start, c, network)
    }

    fn carries_network(&self, c: Cell, network: &str) -> (r: bool)
        requires
            self.wf(),
        ensures
            r == self.carries(c, network@),
    {
        let list = self.at(c.0, c.1, c.2);
        let ghost tile = self.tile(c);
        let mut i: usize = 0;
        while i < list.len()
            invariant
                i <= list@.len(),
                tile == prefab_views(list@),
                tile == self.tile(c),
                forall|j: int| 0 <= j < i ==> !starts_with(#[trigger] tile[j].path, network@),
            decreases list@.len() - i,
        {
            assert(tile[i as int] == list@[i as int]@);
            if has_prefix(list[i].path.as_str(), network) {
                assert(starts_with(self.tile(c)[i as int].path, network@));
                return true;
            }
            i = i + 1;
        }
        false
    }

    /// Traces a cable or pipe network breadth first from a tile. The result holds each tile that
    /// can be reached along the network once.
    pub fn trace_network(&self, start_x: i32, start_y: i32, start_z: i32, network_type: &str) -> (r: Vec<Cell>)
        requires
            self.wf(),
        ensures
            self.is_trace((start_x, start_y, start_z), network_type@, r@),
    {
        let start: Cell = (start_x, start_y, start_z);
        let mut found: Vec<Cell> = Vec::new();
        let mut seen: CellTable<bool> = CellTable::new();
        if !self.carries_network(start, network_type) {
            assert forall|c: Cell| !self.linked(start, c, network_type@) by {
                if self.linked(start, c, network_type@) {
                    let walk = choose|walk: Seq<Cell>|
                        #![trigger self.runs_along(walk, network_type@)]
                        walk.len() > 0 && walk[0] == start && walk.last() == c && self.runs_along(walk, network_type@);
                    assert(self.carries(walk[0], network_type@));
                }
            }
            return found;
        }
        found.push(start);
        seen.insert(start, true);
        let ghost network = network_type@;
        let ghost all = self.grid@.dom();
        proof {
            self.grid.is_finite();
            let walk = seq![start];
            assert(self.runs_along(walk, network));
            assert(self.linked(start, start, network));
            self.lemma_traced_push(start, network, Seq::empty(), start);
            assert(found@ =~= Seq::empty().push(start));
        }
        let mut head: usize = 0;
        while head < found.len()
            invariant
                head <= found@.len(),
                self.wf(),
                network == network_type@,
                all == self.grid@.dom(),
                all.finite(),
                self.traced(start, network, found@, seen@),
                found@.contains(start),
                forall|i: int, n: Cell|
                    0 <= i < head && next_to(#[trigger] found@[i], n) && self.carries(n, network) ==> #[trigger] found@.contains(n),
            decreases all.len() - head,
        {
            let here = found[head];
            proof {
                assert(self.linked(start, here, network));
                self.lemma_linked_carries(start, here, network);
                self.lemma_found_bounded(start, found@, network, all);
            }
            let cells = neighbours_of(here);
            let ghost outer = found@;
            let mut d: usize = 0;
            while d < cells.len()
                invariant
                    d <= cells@.len(),
                    head < outer.len() <= found@.len(),
                    found@.take(outer.len() as int) == outer,
                    here == outer[head as int],
                    forall|j: int| 0 <= j < cells@.len() ==> next_to(here, #[trigger] cells@[j]),
                    self.wf(),
                    network == network_type@,
                    self.linked(start, here, network),
                    self.traced(start, network, found@, seen@),
                    forall|j: int| 0 <= j < d && self.carries(#[trigger] cells@[j], network) ==> found@.contains(cells@[j]),
                decreases cells@.len() - d,
            {
                let next = cells[d];
                let ghost before = found@;
                let known = match seen.get(next) {
                    Some(_) => true,
                    None => false,
                };
                if !known {
                    if self.carries_network(next, network_type) {
                        proof {
                            self.lemma_linked_step(start, here, next, network);
                        }
                        seen.insert(next, true);
                        found.push(next);
                        proof {
                            self.lemma_traced_push(start, network, before, next);
                            assert(found@.take(outer.len() as int) =~= outer);
                            assert(found@[before.len() as int] == next);
                            assert forall|j: int| 0 <= j < d + 1 && self.carries(#[trigger] cells@[j], network) implies found@.contains(cells@[j]) by {
                                if j < d {
                                    let i = choose|i: int| 0 <= i < before.len() && before[i] == cells@[j];
                                    assert(found@[i] == cells@[j]);
                                }
                            }
                        }
                    }
                }
                d = d + 1;
            }
            proof {
                assert forall|i: int, n: Cell|
                    0 <= i < head + 1 && next_to(#[trigger] found@[i], n) && self.carries(n, network) implies #[trigger] found@.contains(n) by {
                    assert(found@[i] == outer[i]);
                    if i == head {
                        assert(cells@.contains(n));
                        let j = choose|j: int| 0 <= j < cells@.len() && cells@[j] == n;
                        assert(n == cells@[j]);
                    } else {
                        assert(outer.contains(n));
                        let k = choose|k: int| 0 <= k < outer.len() && outer[k] == n;
                        assert(found@.take(outer.len() as int)[k] == n);
                        assert(found@[k] == n);
                    }
                }
                assert(found@.take(outer.len() as int)[0] == outer[0]);
                let k = choose|k: int| 0 <= k < outer.len() && outer[k] == start;
                assert(found@.take(outer.len() as int)[k] == start);
                assert(found@[k] == start);
            }
            head = head + 1;
        }
        proof {
            assert forall|c: Cell| #[trigger] found@.contains(c) <==> self.linked(start, c, network) by {
                if self.linked(start, c, network) {
                    let walk = choose|walk: Seq<Cell>|
                        #![trigger self.runs_along(walk, network)]
                        walk.len() > 0 && walk[0] == start && walk.last() == c && self.runs_along(walk, network);
                    self.lemma_walk_found(walk, network, found@, walk.len() - 1);
                }
            }
        }
        found
    }

    spec fn traced(&self, start: Cell, network: Seq<char>, found: Seq<Cell>, seen: Map<Cell, bool>) -> bool {
        &&& found.no_duplicates()
        &&& forall|c: Cell| #[trigger] found.contains(c) <==> seen.contains_key(c)
        &&& forall|i: int| 0 <= i < found.len() ==> self.linked(start, #[trigger] found[i], network)
    }

    proof fn lemma_traced_push(&self, start: Cell, network: Seq<char>, found: Seq<Cell>, next: Cell)
        requires
            found.no_duplicates(),
            !found.contains(next),
        ensures
            found.push(next).no_duplicates(),
            forall|c: Cell| #[trigger] found.push(next).contains(c) <==> found.contains(c) || c == next,
    {
        assert forall|c: Cell| #[trigger] found.push(next).contains(c) <==> found.contains(c) || c == next by {
            if found.contains(c) {
                let i = choose|i: int| 0 <= i < found.len() && found[i] == c;
                assert(found.push(next)[i] == c);
            }
            if c == next {
                assert(found.push(next)[found.len() as int] == c);
            }
        }
    }

    proof fn lemma_linked_carries(&self, from: Cell, to: Cell, network: Seq<char>)
        requires
            self.linked(from, to, network),
        ensures
            self.carries(to, network),
            self.tile(to).len() > 0,
    {
        let walk = choose|walk: Seq<Cell>|
            #![trigger self.runs_along(walk, network)]
            walk.len() > 0 && walk[0] == from && walk.last() == to && self.runs_along(walk, network);
        assert(self.carries(walk[walk.len() - 1], network));
    }

    proof fn lemma_linked_step(&self, from: Cell, to: Cell, next: Cell, network: Seq<char>)
        requires
            self.linked(from, to, network),
            next_to(to, next),
            self.carries(next, network),
        ensures
            self.linked(from, next, network),
    {
        let walk = choose|walk: Seq<Cell>|
            #![trigger self.runs_along(walk, network)]
            walk.len() > 0 && walk[0] == from && walk.last() == to && self.runs_along(walk, network);
        let longer = walk.push(next);
        assert forall|i: int| 0 <= i < longer.len() implies self.carries(#[trigger] longer[i], network) by {
            if i < walk.len() {
                assert(longer[i] == walk[i]);
            }
        }
        assert forall|i: int| 0 < i < longer.len() implies next_to(longer[i - 1], #[trigger] longer[i]) by {
            if i < walk.len() {
                assert(longer[i] == walk[i]);
                assert(next_to(walk[i - 1], walk[i]));
            }
        }
        assert(self.runs_along(longer, network));
    }

    proof fn lemma_found_bounded(&self, start: Cell, found: Seq<Cell>, network: Seq<char>, all: Set<Cell>)
        requires
            found.no_duplicates(),
            all == self.grid@.dom(),
            all.finite(),
            forall|i: int| 0 <= i < found.len() ==> self.linked(start, #[trigger] found[i], network),
        ensures
            found.len() <= all.len(),
    {
        assert forall|c: Cell| found.to_set().contains(c) implies all.contains(c) by {
            let i = choose|i: int| 0 <= i < found.len() && found[i] == c;
            self.lemma_linked_carries(start, found[i], network);
        }
        found.unique_seq_to_set();
        vstd::set_lib::lemma_len_subset(found.to_set(), all);
    }

    proof fn lemma_walk_found(&self, walk: Seq<Cell>, network: Seq<char>, found: Seq<Cell>, i: int)
        requires
            0 <= i < walk.len(),
            self.runs_along(walk, network),
            found.contains(walk[0]),
            forall|i: int, n: Cell|
                0 <= i < found.len() && next_to(#[trigger] found[i], n) && self.carries(n, network) ==> #[trigger] found.contains(n),
        ensures
            found.contains(walk[i]),
        decreases i,
    {
        if i > 0 {
            self.lemma_walk_found(walk, network, found, i - 1);
            let k = choose|k: int| 0 <= k < found.len() && found[k] == walk[i - 1];
            assert(next_to(walk[i - 1], walk[i]));
            assert(self.carries(walk[i], network));
            assert(next_to(found[k], walk[i]));
            assert(found.contains(walk[i]));
        }
    }
}

} // verus!
