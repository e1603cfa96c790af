//! How a map is saved: which way, and what becomes of the data in memory.

use crate::dmm::{at, earlier, within, DmmMap, Key, Raw};
use crate::layers::{fingerprint, fingerprint_prefabs};
use crate::prefab::{Prefab, PrefabView};
use crate::state::{MapData, MapFormatSnapshot};
use crate::tables::Cell;
use vstd::hash_map::StringHashMap;
use vstd::prelude::*;

verus! {

/// A way to write a map file.
pub enum SaveAction {
    /// Write these bytes: nothing has changed since the file was read.
    Write(Vec<u8>),
    /// Write the map in the layout in which it was read.
    Preserve,
    /// Write the map in the plain layout.
    Plain,
    /// Rebuild the dictionary, then write the map in the canonical layout.
    Compact,
}

/// What a failed save says.
pub open spec fn save_failure(e: Seq<char>) -> Seq<char> {
    "Failed to save map: "@ + e
}

/// The message of a failed save.
pub fn save_error(e: &str) -> (r: String)
    ensures
        r@ == save_failure(e@),
{
    let mut out = "Failed to save map: ".to_string();
    out.append(e);
    out
}

fn copy_bytes(v: &Vec<u8>) -> (r: Vec<u8>)
    ensures
        r@ == v@,
{
    let mut out: Vec<u8> = Vec::new();
    let mut i: usize = 0;
    while i < v.len()
        invariant
            i <= v@.len(),
            out@ == v@.take(i as int),
        decreases v@.len() - i,
    {
        out.push(v[i]);
        i = i + 1;
        assert(out@ =~= v@.take(i as int));
    }
    assert(v@.take(i as int) =~= v@);
    out
}

// ── Contents in the order of the grid ────────────────────────────────

/// The contents of the first `n` tiles of a row.
pub open spec fn row_contents(data: &MapData, z: int, y: int, n: nat) -> Seq<Seq<PrefabView>>
    decreases n,
{
    if n == 0 {
        Seq::empty()
    } else {
        row_contents(data, z, y, (n - 1) as nat).push(data.current((z, y, n - 1)))
    }
}

/// The contents of the first `n` rows of a level.
pub open spec fn level_contents(data: &MapData, z: int, n: nat) -> Seq<Seq<PrefabView>>
    decreases n,
{
    if n == 0 {
        Seq::empty()
    } else {
        level_contents(data, z, (n - 1) as nat) + row_contents(data, z, n - 1, data.map.extent().2 as nat)
    }
}

/// The contents of the first `n` levels.
pub open spec fn levels_contents(data: &MapData, n: nat) -> Seq<Seq<PrefabView>>
    decreases n,
{
    if n == 0 {
        Seq::empty()
    } else {
        levels_contents(data, (n - 1) as nat) + level_contents(data, n - 1, data.map.extent().1 as nat)
    }
}

/// The contents of all tiles, level by level, row by row from the top, column by column.
pub open spec fn all_contents(data: &MapData) -> Seq<Seq<PrefabView>> {
    levels_contents(data, data.map.extent().0 as nat)
}

/// The different fingerprints of contents, in the order in which they first occur.
pub open spec fn prints_of(contents: Seq<Seq<PrefabView>>) -> Seq<Seq<char>>
    decreases contents.len(),
{
    if contents.len() == 0 {
        Seq::empty()
    } else {
        let front = prints_of(contents.drop_last());
        let print = fingerprint(contents.last());
        if front.contains(print) {
            front
        } else {
            front.push(print)
        }
    }
}

/// The first contents with the given fingerprint.
pub open spec fn first_with(contents: Seq<Seq<PrefabView>>, print: Seq<char>) -> Seq<PrefabView>
    decreases contents.len(),
{
    if contents.len() == 0 {
        Seq::empty()
    } else if prints_of(contents.drop_last()).contains(print) {
        first_with(contents.drop_last(), print)
    } else {
        contents.last()
    }
}

/// The fingerprints are different from each other, and each is that of some contents.
pub proof fn prints_are_distinct(contents: Seq<Seq<PrefabView>>)
    ensures
        prints_of(contents).no_duplicates(),
        prints_of(contents).len() <= contents.len(),
        forall|print: Seq<char>| #[trigger] prints_of(contents).contains(print) ==> fingerprint(first_with(contents, print)) == print,
    decreases contents.len(),
{
    if contents.len() > 0 {
        let front = contents.drop_last();
        prints_are_distinct(front);
        let print = fingerprint(contents.last());
        assert forall|p: Seq<char>| #[trigger] prints_of(contents).contains(p) implies fingerprint(first_with(contents, p)) == p by {
            if !prints_of(front).contains(p) {
                let i = choose|i: int| 0 <= i < prints_of(contents).len() && prints_of(contents)[i] == p;
                if i < prints_of(front).len() {
                    assert(prints_of(front)[i] == p);
                }
            }
        }
    }
}

/// The first contents with a fingerprint are among the contents.
pub proof fn first_with_is_one(contents: Seq<Seq<PrefabView>>, print: Seq<char>)
    requires
        prints_of(contents).contains(print),
    ensures
        contents.contains(first_with(contents, print)),
    decreases contents.len(),
{
    if contents.len() > 0 {
        let front = contents.drop_last();
        if prints_of(front).contains(print) {
            first_with_is_one(front, print);
            let i = choose|i: int| 0 <= i < front.len() && front[i] == first_with(front, print);
            assert(contents[i] == front[i]);
        } else {
            assert(contents[contents.len() - 1] == contents.last());
        }
    }
}

/// What is among the contents of all tiles is on a tile.
pub proof fn contents_are_of_tiles(data: &MapData, i: int) -> (raw: (int, int, int))
    requires
        0 <= i < all_contents(data).len(),
    ensures
        within(raw, data.map.extent()),
        all_contents(data)[i] == data.current(raw),
{
    lemma_levels_of_tiles(data, data.map.extent().0 as nat, i)
}

proof fn lemma_row_of_tiles(data: &MapData, z: int, y: int, n: nat, i: int) -> (x: int)
    requires
        0 <= i < row_contents(data, z, y, n).len(),
    ensures
        0 <= x < n,
        row_contents(data, z, y, n)[i] == data.current((z, y, x)),
    decreases n,
{
    if i < row_contents(data, z, y, (n - 1) as nat).len() {
        lemma_row_of_tiles(data, z, y, (n - 1) as nat, i)
    } else {
        n - 1
    }
}

proof fn lemma_level_of_tiles(data: &MapData, z: int, n: nat, i: int) -> (r: (int, int))
    requires
        0 <= i < level_contents(data, z, n).len(),
    ensures
        0 <= r.0 < n,
        0 <= r.1 < data.map.extent().2,
        level_contents(data, z, n)[i] == data.current((z, r.0, r.1)),
    decreases n,
{
    let front = level_contents(data, z, (n - 1) as nat);
    if i < front.len() {
        lemma_level_of_tiles(data, z, (n - 1) as nat, i)
    } else {
        (n - 1, lemma_row_of_tiles(data, z, n - 1, data.map.extent().2 as nat, i - front.len()))
    }
}

proof fn lemma_levels_of_tiles(data: &MapData, n: nat, i: int) -> (r: (int, int, int))
    requires
        0 <= i < levels_contents(data, n).len(),
        n <= data.map.extent().0,
    ensures
        within(r, data.map.extent()),
        levels_contents(data, n)[i] == data.current(r),
    decreases n,
{
    let front = levels_contents(data, (n - 1) as nat);
    if i < front.len() {
        lemma_levels_of_tiles(data, (n - 1) as nat, i)
    } else {
        let r = lemma_level_of_tiles(data, n - 1, data.map.extent().1 as nat, i - front.len());
        (n - 1, r.0, r.1)
    }
}

/// A dictionary key generator: 0, 1, 2 and so on.
pub struct KeyGen {
    next: Key,
}

impl KeyGen {
    /// The key that comes next.
    pub closed spec fn upcoming(&self) -> Key {
        self.next
    }

    /// A generator at the start.
    pub fn new() -> (r: KeyGen)
        ensures
            r.upcoming() == 0,
    {
        KeyGen { next: 0 }
    }

    /// Hands out the next key.
    pub fn take(&mut self) -> (r: Key)
        requires
            old(self).upcoming() < 65535,
        ensures
            r == old(self).upcoming(),
            final(self).upcoming() == old(self).upcoming() + 1,
    {
        let k: Key = self.next;
        self.next = k + 1;
        k
    }
}

/// A dictionary under construction.
struct Rebuild {
    map: DmmMap,
    keys: StringHashMap<Key>,
    keygen: KeyGen,
}

impl Rebuild {
    /// The construction holds the given contents, and every cell before `end` names its own.
    spec fn holds(&self, data: &MapData, done: Seq<Seq<PrefabView>>, end: (int, int, int)) -> bool {
        let prints = prints_of(done);
        &&& self.map.wf()
        &&& self.map.extent() == data.map.extent()
        &&& prints.len() <= 65535
        &&& self.keygen.upcoming() == prints.len()
        &&& forall|p: Seq<char>| #[trigger] self.keys@.contains_key(p) <==> prints.contains(p)
        &&& forall|p: Seq<char>| #[trigger] self.keys@.contains_key(p) ==> self.keys@[p] < prints.len() && prints[self.keys@[p] as int] == p
        &&& forall|k: Key| #[trigger] self.map.entry(k) == (if k < prints.len() {
            Some(first_with(done, prints[k as int]))
        } else {
            None
        })
        &&& forall|raw: (int, int, int)|
            within(raw, data.map.extent()) && earlier(raw, end) ==> (#[trigger] self.map.key_at(raw)) < prints.len()
                && prints[self.map.key_at(raw) as int] == fingerprint(data.current(raw))
    }

    /// Takes in the contents of one tile; `false` if there are more different contents than keys.
    fn take_in(&mut self, data: &MapData, raw: Raw, done: Ghost<Seq<Seq<PrefabView>>>) -> (r: bool)
        requires
            data.wf(),
            within(at(raw), data.map.extent()),
            old(self).holds(data, done@, at(raw)),
        ensures
            r ==> final(self).holds(data, done@.push(data.current(at(raw))), (raw.0 as int, raw.1 as int, raw.2 + 1)),
            r == (prints_of(done@.push(data.current(at(raw)))).len() <= 65535),
    {
        let prefabs = data.prefabs_at_raw(raw);
        let ghost here = data.current(at(raw));
        let ghost before = done@;
        let ghost after = before.push(here);
        let ghost end: (int, int, int) = (raw.0 as int, raw.1 as int, raw.2 + 1);
        let print = fingerprint_prefabs(&prefabs);
        let ghost prints = prints_of(before);
        assert(after.drop_last() =~= before);
        let ghost map0 = self.map;
        match self.keys.get(print.as_str()) {
            Some(k) => {
                let key: Key = *k;
                self.map.set_key(raw, key);
                proof {
                    assert(prints_of(after) == prints);
                    assert forall|k: Key| #[trigger] self.map.entry(k) == (if k < prints.len() {
                        Some(first_with(after, prints[k as int]))
                    } else {
                        None
                    }) by {
                        if k < prints.len() {
                            assert(prints.contains(prints[k as int]));
                        }
                    }
                    assert forall|r: (int, int, int)|
                        within(r, data.map.extent()) && earlier(r, end) implies (#[trigger] self.map.key_at(r)) < prints.len()
                        && prints[self.map.key_at(r) as int] == fingerprint(data.current(r)) by {
                        if r != at(raw) {
                            assert(earlier(r, at(raw)));
                            assert(map0.key_at(r) < prints.len());
                        }
                    }
                }
                true
            },
            None => {
                if self.keygen.upcoming_is_last() {
                    return false;
                }
                let key: Key = self.keygen.take();
                self.keys.insert(print, key);
                self.map.put_entry(key, prefabs);
                self.map.set_key(raw, key);
                proof {
                    let more = prints.push(print@);
                    assert(prints_of(after) == more);
                    assert forall|p: Seq<char>| #[trigger] self.keys@.contains_key(p) <==> more.contains(p) by {
                        if prints.contains(p) {
                            let i = choose|i: int| 0 <= i < prints.len() && prints[i] == p;
                            assert(more[i] == p);
                        }
                        if p == print@ {
                            assert(more[prints.len() as int] == p);
                        }
                        if more.contains(p) {
                            let i = choose|i: int| 0 <= i < more.len() && more[i] == p;
                            if i < prints.len() {
                                assert(prints[i] == p);
                            }
                        }
                    }
                    assert forall|k: Key| #[trigger] self.map.entry(k) == (if k < more.len() {
                        Some(first_with(after, more[k as int]))
                    } else {
                        None
                    }) by {
                        assert(map0.entry(k) == (if k < prints.len() {
                            Some(first_with(before, prints[k as int]))
                        } else {
                            None
                        }));
                        if k < prints.len() {
                            assert(prints.contains(prints[k as int]));
                        }
                    }
                    assert forall|r: (int, int, int)|
                        within(r, data.map.extent()) && earlier(r, end) implies (#[trigger] self.map.key_at(r)) < more.len()
                        && more[self.map.key_at(r) as int] == fingerprint(data.current(r)) by {
                        if r != at(raw) {
                            assert(earlier(r, at(raw)));
                            assert(map0.key_at(r) < prints.len());
                        }
                    }
                }
                true
            },
        }
    }
}

impl KeyGen {
    fn upcoming_is_last(&self) -> (r: bool)
        ensures
            r == (self.upcoming() >= 65535),
    {
        self.next >= 65535
    }
}

proof fn lemma_prints_grow(a: Seq<Seq<PrefabView>>, b: Seq<Seq<PrefabView>>)
    ensures
        prints_of(a).len() <= prints_of(a + b).len(),
    decreases b.len(),
{
    if b.len() == 0 {
        assert(a + b =~= a);
    } else {
        lemma_prints_grow(a, b.drop_last());
        assert((a + b).drop_last() =~= a + b.drop_last());
    }
}

/// A map rebuilt from contents: one entry for each different fingerprint, numbered in the order
/// in which they first occur, and every tile naming the entry with its fingerprint.
pub open spec fn rebuilt(data: &MapData, map: &DmmMap) -> bool {
    let all = all_contents(data);
    let prints = prints_of(all);
    &&& map.wf()
    &&& map.extent() == data.map.extent()
    &&& prints.len() <= 65535
    &&& forall|k: Key| #[trigger] map.entry(k) == (if k < prints.len() {
        Some(first_with(all, prints[k as int]))
    } else {
        None
    })
    &&& forall|raw: (int, int, int)|
        within(raw, data.map.extent()) ==> (#[trigger] map.key_at(raw)) < prints.len() && prints[map.key_at(raw) as int]
            == fingerprint(data.current(raw))
}

impl MapData {
    /// Rebuilds the dictionary from the contents of the tiles. `None` if there are more
    /// different contents than can be numbered.
    pub fn compacted(&self) -> (r: Option<DmmMap>)
        requires
            self.wf(),
        ensures
            match r {
                Some(map) => rebuilt(self, &map),
                None => prints_of(all_contents(self)).len() > 65535,
            },
    {
        proof {
            self.map.wf_facts();
        }
        let (dim_x, dim_y, dim_z) = self.map.dim_xyz();
        let ghost all = all_contents(self);
        let mut work = Rebuild {
            map: DmmMap::blank(dim_x, dim_y, dim_z),
            keys: StringHashMap::new(),
            keygen: KeyGen::new(),
        };
        let mut z: usize = 0;
        while z < dim_z
            invariant
                z <= dim_z,
                self.wf(),
                self.map.extent() == (dim_z, dim_y, dim_x),
                all == all_contents(self),
                work.holds(self, levels_contents(self, z as nat), (z as int, 0, 0)),
            decreases dim_z - z,
        {
            let ghost levels = levels_contents(self, z as nat);
            assert(levels + level_contents(self, z as int, 0) =~= levels);
            let mut y: usize = 0;
            while y < dim_y
                invariant
                    y <= dim_y,
                    z < dim_z,
                    self.wf(),
                    self.map.extent() == (dim_z, dim_y, dim_x),
                    all == all_contents(self),
                    levels == levels_contents(self, z as nat),
                    work.holds(self, levels + level_contents(self, z as int, y as nat), (z as int, y as int, 0)),
                decreases dim_y - y,
            {
                let ghost rows = levels + level_contents(self, z as int, y as nat);
                assert(rows + row_contents(self, z as int, y as int, 0) =~= rows);
                let mut x: usize = 0;
                while x < dim_x
                    invariant
                        x <= dim_x,
                        y < dim_y,
                        z < dim_z,
                        self.wf(),
                        self.map.extent() == (dim_z, dim_y, dim_x),
                        all == all_contents(self),
                        levels == levels_contents(self, z as nat),
                        rows == levels + level_contents(self, z as int, y as nat),
                        work.holds(
                            self,
                            rows + row_contents(self, z as int, y as int, x as nat),
                            (z as int, y as int, x as int),
                        ),
                    decreases dim_x - x,
                {
                    let ghost tiles = rows + row_contents(self, z as int, y as int, x as nat);
                    let ghost here = self.current((z as int, y as int, x as int));
                    let ok = work.take_in(self, (z, y, x), Ghost(tiles));
                    assert(tiles.push(here) =~= rows + row_contents(self, z as int, y as int, (x + 1) as nat));
                    if !ok {
                        proof {
                            lemma_prefix(self, z as int, y as int, (x + 1) as int, tiles.push(here));
                            let rest = choose|rest: Seq<Seq<PrefabView>>| all == #[trigger] (tiles.push(here) + rest);
                            lemma_prints_grow(tiles.push(here), rest);
                        }
                        return None;
                    }
                    x = x + 1;
                }
                assert(rows + row_contents(self, z as int, y as int, dim_x as nat) =~= levels + level_contents(
                    self,
                    z as int,
                    (y + 1) as nat,
                ));
                assert(work.holds(self, levels + level_contents(self, z as int, (y + 1) as nat), (z as int, y + 1, 0))) by {
                    assert forall|raw: (int, int, int)|
                        within(raw, self.map.extent()) && earlier(raw, (z as int, y + 1, 0)) implies earlier(
                        raw,
                        (z as int, y as int, dim_x as int),
                    ) by {}
                }
                y = y + 1;
            }
            assert(work.holds(self, levels_contents(self, (z + 1) as nat), (z + 1, 0, 0))) by {
                assert forall|raw: (int, int, int)|
                    within(raw, self.map.extent()) && earlier(raw, (z + 1, 0, 0)) implies earlier(
                    raw,
                    (z as int, dim_y as int, 0),
                ) by {}
            }
            z = z + 1;
        }
        assert forall|raw: (int, int, int)| within(raw, self.map.extent()) implies earlier(raw, (dim_z as int, 0, 0)) by {}
        Some(work.map)
    }

    /// Puts a rebuilt dictionary in place of the present one, with the grid that goes with it.
    pub fn rebuild(&mut self, map: DmmMap)
        requires
            old(self).wf(),
            rebuilt(old(self), &map),
        ensures
            final(self).wf(),
            final(self).map == map,
            final(self).path == old(self).path,
            final(self).tile_overrides == old(self).tile_overrides,
            final(self).index == old(self).index,
            final(self).dirty == old(self).dirty,
            final(self).format_snapshot == old(self).format_snapshot,
    {
        self.map = map;
    }

    /// Chooses how to save.
    pub fn plan_save(&self, compact: bool) -> (r: SaveAction)
        ensures
            if compact {
                r is Compact
            } else {
                match self.format_snapshot {
                    Some(s) => if self.dirty {
                        r is Preserve
                    } else {
                        r matches SaveAction::Write(b) && b@ == s.original_bytes@
                    },
                    None => r is Plain,
                }
            },
    {
        if compact {
            return SaveAction::Compact;
        }
        match &self.format_snapshot {
            Some(s) => {
                if !self.dirty {
                    SaveAction::Write(copy_bytes(&s.original_bytes))
                } else {
                    SaveAction::Preserve
                }
            },
            None => SaveAction::Plain,
        }
    }

    /// Forgets the dictionary entries that no tile names.
    pub fn drop_unreferenced_entries(&mut self)
        requires
            old(self).wf(),
        ensures
            final(self).wf(),
            final(self).map.extent() == old(self).map.extent(),
            forall|raw: (int, int, int)| #[trigger] final(self).map.key_at(raw) == old(self).map.key_at(raw),
            forall|k: Key| #[trigger] final(self).map.entry(k) == (if old(self).map.named(k) {
                old(self).map.entry(k)
            } else {
                None
            }),
            final(self).path == old(self).path,
            final(self).tile_overrides == old(self).tile_overrides,
            final(self).index == old(self).index,
            final(self).dirty == old(self).dirty,
            final(self).format_snapshot == old(self).format_snapshot,
    {
        let referenced = self.map.referenced();
        self.map.keep_marked(&referenced);
        assert forall|k: Key| #[trigger] self.map.entry(k) == (if old(self).map.named(k) {
            old(self).map.entry(k)
        } else {
            None
        }) by {
            assert(referenced@[k as int] == old(self).map.named(k));
        }
    }

    /// Records that the map was written with its layout kept or in the plain layout: what no
    /// tile names is forgotten, the edits are no longer staged, and nothing is unsaved.
    pub fn finish_save(&mut self, snapshot: Option<MapFormatSnapshot>)
        requires
            old(self).wf(),
        ensures
            final(self).wf(),
            final(self).map.extent() == old(self).map.extent(),
            forall|raw: (int, int, int)| #[trigger] final(self).map.key_at(raw) == old(self).map.key_at(raw),
            forall|k: Key| #[trigger] final(self).map.entry(k) == (if old(self).map.named(k) {
                old(self).map.entry(k)
            } else {
                None
            }),
            final(self).path == old(self).path,
            final(self).tile_overrides@ == Map::<Cell, Vec<Prefab>>::empty(),
            final(self).index == old(self).index,
            !final(self).dirty,
            final(self).format_snapshot == snapshot,
    {
        self.drop_unreferenced_entries();
        self.tile_overrides.clear();
        self.format_snapshot = snapshot;
        self.dirty = false;
    }

    /// Records that a rebuilt map was written: the edits are no longer staged, and nothing is
    /// unsaved.
    pub fn finish_compact(&mut self, snapshot: Option<MapFormatSnapshot>)
        requires
            old(self).wf(),
        ensures
            final(self).wf(),
            final(self).map == old(self).map,
            final(self).path == old(self).path,
            final(self).tile_overrides@ == Map::<Cell, Vec<Prefab>>::empty(),
            final(self).index == old(self).index,
            !final(self).dirty,
            final(self).format_snapshot == snapshot,
    {
        self.tile_overrides.clear();
        self.format_snapshot = snapshot;
        self.dirty = false;
    }
}

proof fn lemma_row_prefix(data: &MapData, z: int, y: int, n: nat, m: nat) -> (rest: Seq<Seq<PrefabView>>)
    requires
        n <= m,
    ensures
        row_contents(data, z, y, m) == row_contents(data, z, y, n) + rest,
    decreases m - n,
{
    if n == m {
        assert(row_contents(data, z, y, m) =~= row_contents(data, z, y, n) + Seq::empty());
        Seq::empty()
    } else {
        let rest = lemma_row_prefix(data, z, y, n, (m - 1) as nat);
        let last = data.current((z, y, m - 1));
        assert(row_contents(data, z, y, m) =~= row_contents(data, z, y, n) + rest.push(last));
        rest.push(last)
    }
}

proof fn lemma_level_prefix(data: &MapData, z: int, n: nat, m: nat) -> (rest: Seq<Seq<PrefabView>>)
    requires
        n <= m,
    ensures
        level_contents(data, z, m) == level_contents(data, z, n) + rest,
    decreases m - n,
{
    if n == m {
        assert(level_contents(data, z, m) =~= level_contents(data, z, n) + Seq::empty());
        Seq::empty()
    } else {
        let rest = lemma_level_prefix(data, z, n, (m - 1) as nat);
        let last = row_contents(data, z, m - 1, data.map.extent().2 as nat);
        assert(level_contents(data, z, m) =~= level_contents(data, z, n) + (rest + last));
        rest + last
    }
}

proof fn lemma_levels_prefix(data: &MapData, n: nat, m: nat) -> (rest: Seq<Seq<PrefabView>>)
    requires
        n <= m,
    ensures
        levels_contents(data, m) == levels_contents(data, n) + rest,
    decreases m - n,
{
    if n == m {
        assert(levels_contents(data, m) =~= levels_contents(data, n) + Seq::empty());
        Seq::empty()
    } else {
        let rest = lemma_levels_prefix(data, n, (m - 1) as nat);
        let last = level_contents(data, m - 1, data.map.extent().1 as nat);
        assert(levels_contents(data, m) =~= levels_contents(data, n) + (rest + last));
        rest + last
    }
}

proof fn lemma_prefix(data: &MapData, z: int, y: int, n: int, done: Seq<Seq<PrefabView>>)
    requires
        0 <= z < data.map.extent().0,
        0 <= y < data.map.extent().1,
        0 <= n <= data.map.extent().2,
        done == levels_contents(data, z as nat) + level_contents(data, z, y as nat) + row_contents(data, z, y, n as nat),
    ensures
        exists|rest: Seq<Seq<PrefabView>>| all_contents(data) == #[trigger] (done + rest),
{
    let w = data.map.extent().2 as nat;
    let h = data.map.extent().1 as nat;
    let a = lemma_row_prefix(data, z, y, n as nat, w);
    let b = lemma_level_prefix(data, z, (y + 1) as nat, h);
    let c = lemma_levels_prefix(data, (z + 1) as nat, data.map.extent().0 as nat);
    let rest = a + b + c;
    assert(all_contents(data) =~= done + rest);
}

} // verus!
