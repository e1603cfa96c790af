//! The map: a grid of keys and a dictionary from keys to tile contents.

use crate::prefab::{copy_prefabs, prefab_views, Prefab, PrefabView};
use vstd::prelude::*;

verus! {

/// A dictionary key.
pub type Key = u16;

/// An index into the grid: level, row from the top, column, each from 0.
pub type Raw = (usize, usize, usize);

/// A raw index as mathematical integers.
pub open spec fn at(raw: Raw) -> (int, int, int) {
    (raw.0 as int, raw.1 as int, raw.2 as int)
}

/// The keys of a map, by level, row and column: an `ndarray::Array3`.
#[verifier::external_body]
pub struct TileGrid {
    keys: ndarray::Array3<u16>,
}

/// The extent of a grid: levels, rows, columns.
pub uninterp spec fn grid_dims(g: TileGrid) -> (usize, usize, usize);

/// The keys that a grid holds.
pub uninterp spec fn grid_cells(g: TileGrid) -> Map<(int, int, int), u16>;

/// Whether an index lies within an extent.
pub open spec fn within(raw: (int, int, int), dims: (usize, usize, usize)) -> bool {
    0 <= raw.0 < dims.0 && 0 <= raw.1 < dims.1 && 0 <= raw.2 < dims.2
}

/// The number of cells along the axes that are not empty.
pub open spec fn extent_product(z: nat, y: nat, x: nat) -> nat {
    let z1: nat = if z == 0 { 1 } else { z };
    let y1: nat = if y == 0 { 1 } else { y };
    let x1: nat = if x == 0 { 1 } else { x };
    z1 * y1 * x1
}

impl TileGrid {
    /// Calls `ndarray::Array3::default`, which makes an array of the given shape whose every
    /// element is the default, here 0. It panics when the product of the non-empty axes
    /// overflows `isize`; half of that keeps the bytes of two-byte elements in range too.
    #[verifier::external_body]
    fn filled(z: usize, y: usize, x: usize) -> (r: TileGrid)
        requires
            2 * extent_product(z as nat, y as nat, x as nat) <= isize::MAX,
        ensures
            grid_dims(r) == (z, y, x),
            forall|c: (int, int, int)| within(c, (z, y, x)) ==> #[trigger] grid_cells(r)[c] == 0,
    {
        TileGrid { keys: ndarray::Array3::default((z, y, x)) }
    }

    /// Calls `ndarray::Array3::dim`, which gives the lengths of the three axes.
    #[verifier::external_body]
    fn dims(&self) -> (r: (usize, usize, usize))
        ensures
            r == grid_dims(*self),
    {
        self.keys.dim()
    }

    /// Reads an element by the index operator of `ndarray::Array3`, which panics outside of the
    /// array.
    #[verifier::external_body]
    fn get(&self, raw: Raw) -> (r: Key)
        requires
            within(at(raw), grid_dims(*self)),
        ensures
            r == grid_cells(*self)[at(raw)],
    {
        self.keys[raw]
    }

    /// Writes an element by the mutable index operator of `ndarray::Array3`, which panics
    /// outside of the array and touches no other element.
    #[verifier::external_body]
    fn set(&mut self, raw: Raw, key: Key)
        requires
            within(at(raw), grid_dims(*old(self))),
        ensures
            grid_dims(*final(self)) == grid_dims(*old(self)),
            grid_cells(*final(self)) == grid_cells(*old(self)).insert(at(raw), key),
    {
        self.keys[raw] = key;
    }
}

/// A parsed map.
pub struct DmmMap {
    grid: TileGrid,
    dictionary: Vec<(Key, Vec<Prefab>)>,
}

/// The keys of a dictionary rise strictly.
pub open spec fn keys_rise(d: Seq<(Key, Vec<Prefab>)>) -> bool {
    forall|i: int, j: int| 0 <= i < j < d.len() ==> d[i].0 < d[j].0
}

/// The contents that a dictionary gives to a key.
pub open spec fn entry_of(d: Seq<(Key, Vec<Prefab>)>, k: Key) -> Option<Seq<PrefabView>>
    decreases d.len(),
{
    if d.len() == 0 {
        None
    } else if d.last().0 == k {
        Some(prefab_views(d.last().1@))
    } else {
        entry_of(d.drop_last(), k)
    }
}

/// A dictionary entry with a key of its own is what the key stands for.
pub proof fn entry_of_finds(d: Seq<(Key, Vec<Prefab>)>, i: int)
    requires
        keys_rise(d),
        0 <= i < d.len(),
    ensures
        entry_of(d, d[i].0) == Some(prefab_views(d[i].1@)),
    decreases d.len(),
{
    if i < d.len() - 1 {
        assert(d.drop_last()[i] == d[i]);
        entry_of_finds(d.drop_last(), i);
    }
}

/// A key that no entry carries stands for nothing.
pub proof fn entry_of_misses(d: Seq<(Key, Vec<Prefab>)>, k: Key)
    requires
        forall|i: int| 0 <= i < d.len() ==> (#[trigger] d[i]).0 != k,
    ensures
        entry_of(d, k) is None,
    decreases d.len(),
{
    if d.len() > 0 {
        assert forall|i: int| 0 <= i < d.drop_last().len() implies (#[trigger] d.drop_last()[i]).0 != k by {
            assert(d.drop_last()[i] == d[i]);
        }
        entry_of_misses(d.drop_last(), k);
    }
}

/// A key that stands for something is carried by an entry.
pub proof fn entry_of_has(d: Seq<(Key, Vec<Prefab>)>, k: Key) -> (i: int)
    requires
        entry_of(d, k) is Some,
    ensures
        0 <= i < d.len(),
        d[i].0 == k,
        entry_of(d, k) == Some(prefab_views(d[i].1@)),
    decreases d.len(),
{
    if d.last().0 == k {
        d.len() - 1
    } else {
        let i = entry_of_has(d.drop_last(), k);
        assert(d.drop_last()[i] == d[i]);
        i
    }
}

impl DmmMap {
    /// The extent of the map: levels, rows, columns.
    pub closed spec fn extent(&self) -> (usize, usize, usize) {
        grid_dims(self.grid)
    }

    /// The key at an index.
    pub closed spec fn key_at(&self, raw: (int, int, int)) -> Key {
        grid_cells(self.grid)[raw]
    }

    /// What the dictionary has under a key.
    pub closed spec fn entry(&self, k: Key) -> Option<Seq<PrefabView>> {
        entry_of(self.dictionary@, k)
    }

    /// The dictionary keys, from the least.
    pub closed spec fn entry_keys(&self) -> Seq<Key> {
        self.dictionary@.map_values(|e: (Key, Vec<Prefab>)| e.0)
    }

    /// The map is well formed: the dictionary is in key order, and every position and its
    /// neighbours fit the coordinate type.
    pub closed spec fn wf(&self) -> bool {
        &&& keys_rise(self.dictionary@)
        &&& self.extent().0 < i32::MAX
        &&& self.extent().1 < i32::MAX
        &&& self.extent().2 < i32::MAX
        &&& 2 * extent_product(self.extent().0 as nat, self.extent().1 as nat, self.extent().2 as nat) <= isize::MAX
    }

    /// The contents of a tile: what its key stands for, or nothing for a key without an entry.
    pub open spec fn contents(&self, raw: (int, int, int)) -> Seq<PrefabView> {
        match self.entry(self.key_at(raw)) {
            Some(p) => p,
            None => Seq::empty(),
        }
    }

    /// Whether a key is named by a tile or has an entry.
    pub open spec fn in_use(&self, k: Key) -> bool {
        ||| self.entry(k) is Some
        ||| exists|raw: (int, int, int)| within(raw, self.extent()) && #[trigger] self.key_at(raw) == k
    }

    /// What well-formedness says, for use from elsewhere.
    pub proof fn wf_facts(&self)
        requires
            self.wf(),
        ensures
            self.extent().0 < i32::MAX,
            self.extent().1 < i32::MAX,
            self.extent().2 < i32::MAX,
            2 * extent_product(self.extent().0 as nat, self.extent().1 as nat, self.extent().2 as nat) <= isize::MAX,
            forall|i: int, j: int| 0 <= i < j < self.entry_keys().len()
                ==> self.entry_keys()[i] < self.entry_keys()[j],
            forall|k: Key| #[trigger] self.entry(k) is Some <==> self.entry_keys().contains(k),
    {
        assert forall|k: Key| #[trigger] self.entry(k) is Some <==> self.entry_keys().contains(k) by {
            if self.entry(k) is Some {
                let i = entry_of_has(self.dictionary@, k);
                assert(self.entry_keys()[i] == k);
            }
            if self.entry_keys().contains(k) {
                let i = choose|i: int| 0 <= i < self.entry_keys().len() && self.entry_keys()[i] == k;
                entry_of_finds(self.dictionary@, i);
            }
        }
    }

    /// A map of the given extent with an empty dictionary, every tile naming key 0.
    pub fn blank(dim_x: usize, dim_y: usize, dim_z: usize) -> (r: DmmMap)
        requires
            dim_x < i32::MAX,
            dim_y < i32::MAX,
            dim_z < i32::MAX,
            2 * extent_product(dim_z as nat, dim_y as nat, dim_x as nat) <= isize::MAX,
        ensures
            r.wf(),
            r.extent() == (dim_z, dim_y, dim_x),
            forall|raw: (int, int, int)| within(raw, r.extent()) ==> #[trigger] r.key_at(raw) == 0,
            r.entry_keys() == Seq::<Key>::empty(),
            forall|k: Key| #[trigger] r.entry(k) is None,
    {
        let r = DmmMap { grid: TileGrid::filled(dim_z, dim_y, dim_x), dictionary: Vec::new() };
        assert(r.entry_keys() =~= Seq::empty());
        r
    }

    /// The extent of the map: columns, rows, levels.
    pub fn dim_xyz(&self) -> (r: (usize, usize, usize))
        ensures
            r == (self.extent().2, self.extent().1, self.extent().0),
    {
        let d = self.grid.dims();
        (d.2, d.1, d.0)
    }

    /// The key at an index.
    pub fn key(&self, raw: Raw) -> (r: Key)
        requires
            within(at(raw), self.extent()),
        ensures
            r == self.key_at(at(raw)),
    {
        self.grid.get(raw)
    }

    /// Points a tile at a key.
    pub fn set_key(&mut self, raw: Raw, key: Key)
        requires
            old(self).wf(),
            within(at(raw), old(self).extent()),
        ensures
            final(self).wf(),
            final(self).extent() == old(self).extent(),
            final(self).entry_keys() == old(self).entry_keys(),
            forall|k: Key| #[trigger] final(self).entry(k) == old(self).entry(k),
            final(self).key_at(at(raw)) == key,
            forall|r: (int, int, int)| r != at(raw) ==> #[trigger] final(self).key_at(r) == old(self).key_at(r),
    {
        self.grid.set(raw, key);
    }

    /// The place of a key in the dictionary, or where it would go.
    fn place_of(&self, k: Key) -> (r: usize)
        requires
            self.wf(),
        ensures
            r <= self.dictionary@.len(),
            forall|i: int| 0 <= i < r ==> (#[trigger] self.dictionary@[i]).0 < k,
            forall|i: int| r <= i < self.dictionary@.len() ==> (#[trigger] self.dictionary@[i]).0 >= k,
    {
        let mut lo: usize = 0;
        let mut hi: usize = self.dictionary.len();
        while lo < hi
            invariant
                lo <= hi <= self.dictionary@.len(),
                keys_rise(self.dictionary@),
                forall|i: int| 0 <= i < lo ==> (#[trigger] self.dictionary@[i]).0 < k,
                forall|i: int| hi <= i < self.dictionary@.len() ==> (#[trigger] self.dictionary@[i]).0 >= k,
            decreases hi - lo,
        {
            let mid: usize = lo + (hi - lo) / 2;
            if self.dictionary[mid].0 < k {
                lo = mid + 1;
            } else {
                hi = mid;
            }
        }
        lo
    }

    /// Looks a key up in the dictionary.
    pub fn lookup(&self, k: Key) -> (r: Option<&Vec<Prefab>>)
        requires
            self.wf(),
        ensures
            match r {
                Some(p) => self.entry(k) == Some(prefab_views(p@)),
                None => self.entry(k) is None,
            },
    {
        let i: usize = self.place_of(k);
        if i < self.dictionary.len() && self.dictionary[i].0 == k {
            proof {
                entry_of_finds(self.dictionary@, i as int);
            }
            Some(&self.dictionary[i].1)
        } else {
            proof {
                assert forall|j: int| 0 <= j < self.dictionary@.len() implies (#[trigger] self.dictionary@[j]).0 != k by {
                    if i < j {
                        assert(self.dictionary@[i as int].0 < self.dictionary@[j].0);
                    }
                }
                entry_of_misses(self.dictionary@, k);
            }
            None
        }
    }

    /// The number of dictionary entries.
    pub fn entry_count(&self) -> (r: usize)
        ensures
            r == self.entry_keys().len(),
    {
        self.dictionary.len()
    }

    /// The dictionary entry at the given place, from the least key.
    pub fn entry_at(&self, i: usize) -> (r: (Key, &Vec<Prefab>))
        requires
            self.wf(),
            i < self.entry_keys().len(),
        ensures
            r.0 == self.entry_keys()[i as int],
            self.entry(r.0) == Some(prefab_views(r.1@)),
    {
        proof {
            entry_of_finds(self.dictionary@, i as int);
        }
        let e = &self.dictionary[i];
        (e.0, &e.1)
    }

    /// Gives a key its contents, in place of any that it had.
    pub fn put_entry(&mut self, k: Key, prefabs: Vec<Prefab>)
        requires
            old(self).wf(),
        ensures
            final(self).wf(),
            final(self).extent() == old(self).extent(),
            forall|r: (int, int, int)| #[trigger] final(self).key_at(r) == old(self).key_at(r),
            final(self).entry(k) == Some(prefab_views(prefabs@)),
            forall|j: Key| j != k ==> #[trigger] final(self).entry(j) == old(self).entry(j),
    {
        let i: usize = self.place_of(k);
        let ghost before = self.dictionary@;
        if i < self.dictionary.len() && self.dictionary[i].0 == k {
            self.dictionary.remove(i);
        }
        self.dictionary.insert(i, (k, prefabs));
        proof {
            if i < before.len() && before[i as int].0 == k {
                assert(self.dictionary@ =~= before.update(i as int, self.dictionary@[i as int]));
            }
            lemma_put(before, self.dictionary@, i as int, k);
        }
    }

    /// Drops every entry whose key is not marked.
    pub fn keep_marked(&mut self, marked: &Vec<bool>)
        requires
            old(self).wf(),
            marked@.len() == 65536,
        ensures
            final(self).wf(),
            final(self).extent() == old(self).extent(),
            forall|r: (int, int, int)| #[trigger] final(self).key_at(r) == old(self).key_at(r),
            forall|k: Key| #[trigger] final(self).entry(k) == (if marked@[k as int] {
                old(self).entry(k)
            } else {
                None
            }),
    {
        let ghost before = self.dictionary@;
        let mut kept: Vec<(Key, Vec<Prefab>)> = Vec::new();
        let mut i: usize = 0;
        while i < self.dictionary.len()
            invariant
                i <= self.dictionary@.len(),
                self.dictionary@ == before,
                keys_rise(before),
                marked@.len() == 65536,
                keys_rise(kept@),
                i < before.len() ==> forall|j: int| 0 <= j < kept@.len() ==> (#[trigger] kept@[j]).0 < before[i as int].0,
                forall|k: Key| #[trigger] entry_of(kept@, k) == (if marked@[k as int] {
                    entry_of(before.take(i as int), k)
                } else {
                    None
                }),
            decreases self.dictionary@.len() - i,
        {
            let e = &self.dictionary[i];
            let ghost old_kept = kept@;
            assert(before.take(i + 1).drop_last() =~= before.take(i as int));
            if marked[e.0 as usize] {
                kept.push((e.0, copy_prefabs(&e.1)));
                assert(kept@.drop_last() =~= old_kept);
                assert forall|k: Key| #[trigger] entry_of(kept@, k) == (if marked@[k as int] {
                    entry_of(before.take(i + 1), k)
                } else {
                    None
                }) by {
                    assert(entry_of(old_kept, k) == entry_of(kept@.drop_last(), k));
                }
            }
            proof {
                assert forall|k: Key| #[trigger] entry_of(kept@, k) == (if marked@[k as int] {
                    entry_of(before.take(i + 1), k)
                } else {
                    None
                }) by {
                    assert(entry_of(old_kept, k) == entry_of(old_kept, k));
                }
            }
            i = i + 1;
        }
        assert(before.take(i as int) =~= before);
        self.dictionary = kept;
    }
}

proof fn lemma_put(before: Seq<(Key, Vec<Prefab>)>, after: Seq<(Key, Vec<Prefab>)>, i: int, k: Key)
    requires
        keys_rise(before),
        0 <= i <= before.len(),
        forall|j: int| 0 <= j < i ==> (#[trigger] before[j]).0 < k,
        forall|j: int| i <= j < before.len() ==> (#[trigger] before[j]).0 >= k,
        i < after.len(),
        after[i].0 == k,
        after == (if i < before.len() && before[i].0 == k {
            before.update(i, after[i])
        } else {
            before.insert(i, after[i])
        }),
    ensures
        keys_rise(after),
        entry_of(after, k) == Some(prefab_views(after[i].1@)),
        forall|j: Key| j != k ==> #[trigger] entry_of(after, j) == entry_of(before, j),
{
    let replaces = i < before.len() && before[i].0 == k;
    let shift = if replaces { 0int } else { 1int };
    assert(forall|b: int| 0 <= b < i ==> #[trigger] after[b] == before[b]);
    assert(forall|b: int| i < b < after.len() ==> #[trigger] after[b] == before[b - shift]);
    assert forall|a: int, b: int| 0 <= a < b < after.len() implies after[a].0 < after[b].0 by {
        if b > i && replaces {
            assert(before[i].0 < before[b].0);
        }
        if a == i {
            assert(after[b] == before[b - shift]);
        }
    }
    entry_of_finds(after, i);
    assert forall|j: Key| j != k implies #[trigger] entry_of(after, j) == entry_of(before, j) by {
        assert forall|a: int| 0 <= a < before.len() && (#[trigger] before[a]).0 == j implies exists|b: int|
            0 <= b < after.len() && #[trigger] after[b] == before[a] by {
            let b = if a < i { a } else { a + shift };
            assert(after[b] == before[a]);
        }
        assert forall|b: int| 0 <= b < after.len() && b != i implies exists|a: int|
            0 <= a < before.len() && #[trigger] before[a] == #[trigger] after[b] by {
            let a = if b < i { b } else { b - shift };
            assert(before[a] == after[b]);
        }
        lemma_same_entry(before, after, i, j);
    }
}

proof fn lemma_same_entry(before: Seq<(Key, Vec<Prefab>)>, after: Seq<(Key, Vec<Prefab>)>, i: int, j: Key)
    requires
        keys_rise(before),
        keys_rise(after),
        0 <= i < after.len(),
        after[i].0 != j,
        forall|a: int| 0 <= a < before.len() && (#[trigger] before[a]).0 == j ==> exists|b: int|
            0 <= b < after.len() && #[trigger] after[b] == before[a],
        forall|b: int| 0 <= b < after.len() && b != i ==> exists|a: int|
            0 <= a < before.len() && #[trigger] before[a] == #[trigger] after[b],
    ensures
        entry_of(after, j) == entry_of(before, j),
{
    if entry_of(before, j) is Some {
        let a = entry_of_has(before, j);
        let b = choose|b: int| 0 <= b < after.len() && #[trigger] after[b] == before[a];
        entry_of_finds(after, b);
    } else if entry_of(after, j) is Some {
        let b = entry_of_has(after, j);
        let a = choose|a: int| 0 <= a < before.len() && #[trigger] before[a] == after[b];
        entry_of_finds(before, a);
    }
}

// ── Keys in use ──────────────────────────────────────────────────────

/// Whether a cell comes before another in the order in which a grid is walked.
pub open spec fn earlier(a: (int, int, int), b: (int, int, int)) -> bool {
    a.0 < b.0 || (a.0 == b.0 && (a.1 < b.1 || (a.1 == b.1 && a.2 < b.2)))
}

impl DmmMap {
    /// Whether a tile names a key.
    pub open spec fn named(&self, k: Key) -> bool {
        exists|raw: (int, int, int)| within(raw, self.extent()) && #[trigger] self.key_at(raw) == k
    }

    spec fn named_before(&self, k: int, end: (int, int, int)) -> bool {
        exists|raw: (int, int, int)|
            within(raw, self.extent()) && earlier(raw, end) && #[trigger] self.key_at(raw) == k
    }

    proof fn lemma_named_step(&self, k: int, z: int, y: int, x: int)
        requires
            within((z, y, x), self.extent()),
        ensures
            self.named_before(k, (z, y, x + 1)) <==> self.named_before(k, (z, y, x)) || self.key_at((z, y, x)) == k,
    {
        if self.named_before(k, (z, y, x + 1)) {
            let raw = choose|raw: (int, int, int)|
                within(raw, self.extent()) && earlier(raw, (z, y, x + 1)) && #[trigger] self.key_at(raw) == k;
            if raw != (z, y, x) {
                assert(earlier(raw, (z, y, x)));
            }
        }
        if self.named_before(k, (z, y, x)) {
            let raw = choose|raw: (int, int, int)|
                within(raw, self.extent()) && earlier(raw, (z, y, x)) && #[trigger] self.key_at(raw) == k;
            assert(earlier(raw, (z, y, x + 1)));
        }
    }

    proof fn lemma_named_row(&self, k: int, z: int, y: int)
        ensures
            self.named_before(k, (z, y, self.extent().2 as int)) <==> self.named_before(k, (z, y + 1, 0)),
    {
        if self.named_before(k, (z, y, self.extent().2 as int)) {
            let raw = choose|raw: (int, int, int)|
                within(raw, self.extent()) && earlier(raw, (z, y, self.extent().2 as int)) && #[trigger] self.key_at(raw)
                    == k;
            assert(earlier(raw, (z, y + 1, 0)));
        }
        if self.named_before(k, (z, y + 1, 0)) {
            let raw = choose|raw: (int, int, int)|
                within(raw, self.extent()) && earlier(raw, (z, y + 1, 0)) && #[trigger] self.key_at(raw) == k;
            assert(earlier(raw, (z, y, self.extent().2 as int)));
        }
    }

    proof fn lemma_named_level(&self, k: int, z: int)
        ensures
            self.named_before(k, (z, self.extent().1 as int, 0)) <==> self.named_before(k, (z + 1, 0, 0)),
    {
        if self.named_before(k, (z, self.extent().1 as int, 0)) {
            let raw = choose|raw: (int, int, int)|
                within(raw, self.extent()) && earlier(raw, (z, self.extent().1 as int, 0)) && #[trigger] self.key_at(raw)
                    == k;
            assert(earlier(raw, (z + 1, 0, 0)));
        }
        if self.named_before(k, (z + 1, 0, 0)) {
            let raw = choose|raw: (int, int, int)|
                within(raw, self.extent()) && earlier(raw, (z + 1, 0, 0)) && #[trigger] self.key_at(raw) == k;
            assert(earlier(raw, (z, self.extent().1 as int, 0)));
        }
    }

    /// Marks the keys that tiles name.
    pub fn referenced(&self) -> (r: Vec<bool>)
        ensures
            r@.len() == 65536,
            forall|k: Key| #[trigger] r@[k as int] == self.named(k),
    {
        let (dim_x, dim_y, dim_z) = self.dim_xyz();
        let mut marks: Vec<bool> = Vec::new();
        let mut n: usize = 0;
        while n < 65536
            invariant
                n <= 65536,
                marks@.len() == n,
                forall|k: int| 0 <= k < n ==> !#[trigger] marks@[k],
            decreases 65536 - n,
        {
            marks.push(false);
            n = n + 1;
        }
        let mut z: usize = 0;
        while z < dim_z
            invariant
                z <= dim_z,
                self.extent() == (dim_z, dim_y, dim_x),
                marks@.len() == 65536,
                forall|k: int| 0 <= k < 65536 ==> #[trigger] marks@[k] == self.named_before(k, (z as int, 0, 0)),
            decreases dim_z - z,
        {
            let mut y: usize = 0;
            while y < dim_y
                invariant
                    y <= dim_y,
                    z < dim_z,
                    self.extent() == (dim_z, dim_y, dim_x),
                    marks@.len() == 65536,
                    forall|k: int| 0 <= k < 65536 ==> #[trigger] marks@[k] == self.named_before(k, (z as int, y as int, 0)),
                decreases dim_y - y,
            {
                let mut x: usize = 0;
                while x < dim_x
                    invariant
                        x <= dim_x,
                        y < dim_y,
                        z < dim_z,
                        self.extent() == (dim_z, dim_y, dim_x),
                        marks@.len() == 65536,
                        forall|k: int| 0 <= k < 65536 ==> #[trigger] marks@[k] == self.named_before(
                            k,
                            (z as int, y as int, x as int),
                        ),
                    decreases dim_x - x,
                {
                    let key: Key = self.key((z, y, x));
                    let ghost before = marks@;
                    marks.set(key as usize, true);
                    assert forall|k: int| 0 <= k < 65536 implies #[trigger] marks@[k] == self.named_before(
                        k,
                        (z as int, y as int, x + 1),
                    ) by {
                        assert(before[k] == self.named_before(k, (z as int, y as int, x as int)));
                        self.lemma_named_step(k, z as int, y as int, x as int);
                    }
                    x = x + 1;
                }
                assert forall|k: int| 0 <= k < 65536 implies #[trigger] marks@[k] == self.named_before(
                    k,
                    (z as int, y + 1, 0),
                ) by {
                    self.lemma_named_row(k, z as int, y as int);
                }
                y = y + 1;
            }
            assert forall|k: int| 0 <= k < 65536 implies #[trigger] marks@[k] == self.named_before(k, (z + 1, 0, 0)) by {
                self.lemma_named_level(k, z as int);
            }
            z = z + 1;
        }
        assert forall|k: Key| #[trigger] marks@[k as int] == self.named(k) by {
            if self.named(k) {
                let raw = choose|raw: (int, int, int)| within(raw, self.extent()) && #[trigger] self.key_at(raw) == k;
                assert(earlier(raw, (dim_z as int, 0, 0)));
            }
        }
        marks
    }

    /// The keys that are neither named by a tile nor have an entry.
    pub open spec fn free_keys(&self) -> Set<int> {
        vstd::set_lib::set_int_range(0, 65536).filter(|k: int| !self.in_use(k as u16))
    }

    /// The least key that is neither named by a tile nor has an entry.
    pub fn allocate_unused_key(&self) -> (r: Key)
        requires
            self.wf(),
            self.free_keys().len() > 0,
        ensures
            !self.in_use(r),
            forall|k: Key| k < r ==> #[trigger] self.in_use(k),
    {
        let mut marks = self.referenced();
        let ghost named = marks@;
        let mut i: usize = 0;
        while i < self.dictionary.len()
            invariant
                i <= self.dictionary@.len(),
                named.len() == 65536,
                marks@.len() == 65536,
                forall|k: int| 0 <= k < 65536 ==> #[trigger] marks@[k] == (named[k] || exists|j: int|
                    0 <= j < i && (#[trigger] self.dictionary@[j]).0 == k),
            decreases self.dictionary@.len() - i,
        {
            let key: Key = self.dictionary[i].0;
            let ghost before = marks@;
            marks.set(key as usize, true);
            assert forall|k: int| 0 <= k < 65536 implies #[trigger] marks@[k] == (named[k] || exists|j: int|
                0 <= j < i + 1 && (#[trigger] self.dictionary@[j]).0 == k) by {
                assert(before[k] == (named[k] || exists|j: int| 0 <= j < i && (#[trigger] self.dictionary@[j]).0 == k));
                if k == key {
                    assert(self.dictionary@[i as int].0 == k);
                }
            }
            i = i + 1;
        }
        assert forall|k: Key| #[trigger] marks@[k as int] == self.in_use(k) by {
            if self.entry(k) is Some {
                let j = entry_of_has(self.dictionary@, k);
                assert(self.dictionary@[j].0 == k);
            }
            if exists|j: int| 0 <= j < i && (#[trigger] self.dictionary@[j]).0 == k {
                let j = choose|j: int| 0 <= j < i && (#[trigger] self.dictionary@[j]).0 == k;
                entry_of_finds(self.dictionary@, j);
            }
            assert(named[k as int] == self.named(k));
        }
        let mut k: usize = 0;
        while k < 65536 && marks[k]
            invariant
                k <= 65536,
                marks@.len() == 65536,
                forall|j: Key| #[trigger] marks@[j as int] == self.in_use(j),
                forall|j: int| 0 <= j < k ==> #[trigger] marks@[j],
            decreases 65536 - k,
        {
            k = k + 1;
        }
        proof {
            if k == 65536 {
                assert(self.free_keys() =~= Set::empty()) by {
                    assert forall|j: int| !self.free_keys().contains(j) by {
                        if self.free_keys().contains(j) {
                            assert(marks@[j as u16 as int] == self.in_use(j as u16));
                        }
                    }
                }
                assert(false);
            }
            assert(marks@[k as u16 as int] == self.in_use(k as u16));
            assert forall|j: Key| j < k implies #[trigger] self.in_use(j) by {
                assert(marks@[j as int]);
            }
        }
        k as u16
    }
}

// ── Positions ────────────────────────────────────────────────────────

/// The position of a grid cell: column and level from 1, and rows counted from the bottom.
pub open spec fn position_of(raw: (int, int, int), dim_y: int) -> (int, int, int) {
    (raw.2 + 1, dim_y - raw.1, raw.0 + 1)
}

/// The grid cell of a position.
pub open spec fn raw_of(x: int, y: int, z: int, dim_y: int) -> (int, int, int) {
    (z - 1, dim_y - y, x - 1)
}

/// Whether a position lies on a map of the given extent.
pub open spec fn on_map(x: int, y: int, z: int, dims: (usize, usize, usize)) -> bool {
    1 <= x <= dims.2 && 1 <= y <= dims.1 && 1 <= z <= dims.0
}

/// Reading and writing agree on where a tile is: the position of a grid cell leads back to
/// the cell, and the cell of a position leads back to the position.
pub proof fn positions_agree(x: int, y: int, z: int, raw: (int, int, int), dims: (usize, usize, usize))
    ensures
        on_map(x, y, z, dims) ==> within(raw_of(x, y, z, dims.1 as int), dims) && position_of(
            raw_of(x, y, z, dims.1 as int),
            dims.1 as int,
        ) == (x, y, z),
        within(raw, dims) ==> ({
            let p = position_of(raw, dims.1 as int);
            on_map(p.0, p.1, p.2, dims) && raw_of(p.0, p.1, p.2, dims.1 as int) == raw
        }),
{
}

} // verus!
