//! Lookup tables: by map position, and by path.

use crate::counting::{first_place_unique, without_first};
use std::collections::HashMap;
use vstd::hash_map::StringHashMap;
use vstd::prelude::*;

verus! {

broadcast use vstd::std_specs::hash::group_hash_axioms;

/// A position on the map, or an index into its grid.
pub type Cell = (i32, i32, i32);

/// The number under which a cell is filed.
pub open spec fn cell_number(c: Cell) -> int {
    ((c.0 + 0x8000_0000) * 0x1_0000_0000 + (c.1 + 0x8000_0000)) * 0x1_0000_0000 + (c.2 + 0x8000_0000)
}

/// Different cells have different numbers.
pub proof fn cell_number_injective(a: Cell, b: Cell)
    ensures
        cell_number(a) == cell_number(b) ==> a == b,
        0 <= cell_number(a) <= u128::MAX,
{
}

fn number_of(c: Cell) -> (r: u128)
    ensures
        r == cell_number(c),
{
    let x: u128 = (c.0 as i64 + 0x8000_0000) as u128;
    let y: u128 = (c.1 as i64 + 0x8000_0000) as u128;
    let z: u128 = (c.2 as i64 + 0x8000_0000) as u128;
    (x * 0x1_0000_0000 + y) * 0x1_0000_0000 + z
}

/// A table from cells to values.
pub struct CellTable<V> {
    cells: HashMap<u128, V>,
}

impl<V> View for CellTable<V> {
    type V = Map<Cell, V>;

    closed spec fn view(&self) -> Map<Cell, V> {
        Map::new(
            |c: Cell| self.cells@.contains_key(cell_number(c) as u128),
            |c: Cell| self.cells@[cell_number(c) as u128],
        )
    }
}

proof fn lemma_insert<V>(before: Map<u128, V>, c: Cell, v: V, after: Map<u128, V>)
    requires
        after == before.insert(cell_number(c) as u128, v),
    ensures
        forall|d: Cell| #[trigger] after.contains_key(cell_number(d) as u128)
            == (d == c || before.contains_key(cell_number(d) as u128)),
        forall|d: Cell| d != c ==> #[trigger] after[cell_number(d) as u128] == before[cell_number(d) as u128],
        after[cell_number(c) as u128] == v,
{
    assert forall|d: Cell| d != c implies cell_number(d) as u128 != cell_number(c) as u128 by {
        cell_number_injective(c, d);
        cell_number_injective(d, c);
    }
}

impl<V> CellTable<V> {
    /// A table with no entries.
    pub fn new() -> (r: Self)
        ensures
            r@ == Map::<Cell, V>::empty(),
    {
        let r = CellTable { cells: HashMap::new() };
        assert(r@ =~= Map::empty());
        r
    }

    /// The value filed under a cell.
    pub fn get(&self, c: Cell) -> (r: Option<&V>)
        ensures
            match r {
                Some(v) => self@.contains_key(c) && *v == self@[c],
                None => !self@.contains_key(c),
            },
    {
        self.cells.get(&number_of(c))
    }

    /// Files a value under a cell.
    pub fn insert(&mut self, c: Cell, v: V)
        ensures
            final(self)@ == old(self)@.insert(c, v),
    {
        let ghost before = self.cells@;
        self.cells.insert(number_of(c), v);
        proof {
            lemma_insert(before, c, v, self.cells@);
            assert(self@ =~= old(self)@.insert(c, v));
        }
    }

    /// Takes out what is filed under a cell.
    pub fn remove(&mut self, c: Cell) -> (r: Option<V>)
        ensures
            final(self)@ == old(self)@.remove(c),
            match r {
                Some(v) => old(self)@.contains_key(c) && v == old(self)@[c],
                None => !old(self)@.contains_key(c),
            },
    {
        let r = self.cells.remove(&number_of(c));
        proof {
            assert forall|d: Cell| d != c implies cell_number(d) as u128 != cell_number(c) as u128 by {
                cell_number_injective(c, d);
                cell_number_injective(d, c);
            }
            assert(self@ =~= old(self)@.remove(c));
        }
        r
    }

    /// Takes everything out.
    pub fn clear(&mut self)
        ensures
            final(self)@ == Map::<Cell, V>::empty(),
    {
        self.cells.clear();
        assert(self@ =~= Map::empty());
    }

    /// Only finitely many cells have a value.
    pub proof fn is_finite(&self)
        ensures
            self@.dom().finite(),
    {
        let numbers = self.cells@.dom();
        let cells = self@.dom();
        assert(numbers.finite());
        lemma_numbered_cells_finite(cells, numbers);
    }
}

/// A set of cells whose numbers all lie in a finite set is finite.
proof fn lemma_numbered_cells_finite(cells: Set<Cell>, numbers: Set<u128>)
    requires
        numbers.finite(),
        forall|c: Cell| cells.contains(c) ==> #[trigger] numbers.contains(cell_number(c) as u128),
    ensures
        cells.finite(),
    decreases numbers.len(),
{
    if cells =~= Set::empty() {
    } else {
        let c = cells.choose();
        let rest = cells.remove(c);
        let fewer = numbers.remove(cell_number(c) as u128);
        assert forall|d: Cell| rest.contains(d) implies #[trigger] fewer.contains(cell_number(d) as u128) by {
            cell_number_injective(c, d);
            cell_number_injective(d, c);
        }
        lemma_numbered_cells_finite(rest, fewer);
        assert(cells =~= rest.insert(c));
    }
}

/// Whether a name is the given one.
pub open spec fn is_name(n: Seq<char>) -> spec_fn(Seq<char>) -> bool {
    |m: Seq<char>| m == n
}

/// A table from paths to lists. A path that was given an item stays in the table until it is
/// dropped.
pub struct PathTable<T> {
    slots: StringHashMap<usize>,
    names: Vec<String>,
    lists: Vec<Vec<T>>,
    nothing: Vec<T>,
}

impl<T> PathTable<T> {
    /// The table is consistent: each name has its own slot, and each slot its list.
    pub closed spec fn wf(&self) -> bool {
        &&& self.names@.len() == self.lists@.len()
        &&& self.nothing@.len() == 0
        &&& forall|n: Seq<char>| #[trigger] self.slots@.contains_key(n) ==> {
            &&& self.slots@[n] < self.names@.len()
            &&& self.names@[self.slots@[n] as int]@ == n
        }
        &&& forall|i: int| #![trigger self.names@[i]] 0 <= i < self.names@.len() ==> {
            &&& self.slots@.contains_key(self.names@[i]@)
            &&& self.slots@[self.names@[i]@] == i
        }
    }

    /// The list under a path; empty for a path that is not in the table.
    pub closed spec fn list(&self, n: Seq<char>) -> Seq<T> {
        if self.slots@.contains_key(n) {
            self.lists@[self.slots@[n] as int]@
        } else {
            Seq::empty()
        }
    }

    /// The paths in the table, in the order in which they came.
    pub closed spec fn keys(&self) -> Seq<Seq<char>> {
        crate::text::texts(self.names@)
    }

    /// A path with a non-empty list is among the keys, and no key comes twice.
    pub proof fn keys_hold(&self)
        requires
            self.wf(),
        ensures
            self.keys().no_duplicates(),
            forall|n: Seq<char>| #[trigger] self.list(n).len() > 0 ==> self.keys().contains(n),
    {
        assert forall|i: int, j: int| 0 <= i < self.keys().len() && 0 <= j < self.keys().len() && i != j
            implies self.keys()[i] != self.keys()[j] by {
            assert(self.slots@[self.names@[i]@] == i);
            assert(self.slots@[self.names@[j]@] == j);
        }
        assert forall|n: Seq<char>| #[trigger] self.list(n).len() > 0 implies self.keys().contains(n) by {
            assert(self.slots@.contains_key(n));
            assert(self.keys()[self.slots@[n] as int] == n);
        }
    }

    /// A table with no paths.
    pub fn new() -> (r: Self)
        ensures
            r.wf(),
            r.keys() == Seq::<Seq<char>>::empty(),
            forall|n: Seq<char>| #[trigger] r.list(n) == Seq::<T>::empty(),
    {
        let r = PathTable {
            slots: StringHashMap::new(),
            names: Vec::new(),
            lists: Vec::new(),
            nothing: Vec::new(),
        };
        assert(r.keys() =~= Seq::empty());
        r
    }

    /// The list under a path.
    pub fn get(&self, n: &str) -> (r: &Vec<T>)
        requires
            self.wf(),
        ensures
            r@ == self.list(n@),
    {
        match self.slots.get(n) {
            Some(slot) => &self.lists[*slot],
            None => {
                assert(self.nothing@ =~= Seq::empty());
                &self.nothing
            },
        }
    }

    /// The number of paths in the table.
    pub fn count(&self) -> (r: usize)
        requires
            self.wf(),
        ensures
            r == self.keys().len(),
    {
        self.names.len()
    }

    /// The path that came in at the given place.
    pub fn key(&self, i: usize) -> (r: &str)
        requires
            self.wf(),
            i < self.keys().len(),
        ensures
            r@ == self.keys()[i as int],
    {
        self.names[i].as_str()
    }

    /// Appends an item to the list under a path, which enters the table if it is new.
    pub fn push(&mut self, n: &str, item: T)
        requires
            old(self).wf(),
        ensures
            final(self).wf(),
            final(self).list(n@) == old(self).list(n@).push(item),
            forall|m: Seq<char>| m != n@ ==> #[trigger] final(self).list(m) == old(self).list(m),
            final(self).keys() == (if old(self).keys().contains(n@) {
                old(self).keys()
            } else {
                old(self).keys().push(n@)
            }),
    {
        let slot: usize = match self.slots.get(n) {
            Some(s) => *s,
            None => {
                proof {
                    assert(!self.keys().contains(n@)) by {
                        if self.keys().contains(n@) {
                            let i = choose|i: int| 0 <= i < self.keys().len() && self.keys()[i] == n@;
                            assert(self.names@[i]@ == n@);
                        }
                    }
                }
                let s: usize = self.names.len();
                let ghost before = *self;
                self.slots.insert(n.to_string(), s);
                self.names.push(n.to_string());
                self.lists.push(Vec::new());
                assert(self.keys() =~= before.keys().push(n@));
                assert(self.list(n@) =~= Seq::<T>::empty());
                assert forall|m: Seq<char>| m != n@ implies #[trigger] self.list(m) == before.list(m) by {}
                s
            },
        };
        proof {
            if old(self).slots@.contains_key(n@) {
                assert(old(self).keys()[slot as int] == n@);
            }
        }
        let ghost mid = *self;
        assert(mid.wf());
        self.lists[slot].push(item);
        assert(self.keys() =~= mid.keys());
        assert(self.list(n@) == mid.list(n@).push(item));
        assert forall|m: Seq<char>| m != n@ implies #[trigger] self.list(m) == mid.list(m) by {
            if self.slots@.contains_key(m) {
                assert(self.names@[self.slots@[m] as int]@ == m);
                assert(self.slots@[m] != slot);
            }
        }
    }

    /// Takes the item at the given place out of the list under a path.
    pub fn remove_at(&mut self, n: &str, at: usize)
        requires
            old(self).wf(),
            at < old(self).list(n@).len(),
        ensures
            final(self).wf(),
            final(self).list(n@) == old(self).list(n@).remove(at as int),
            forall|m: Seq<char>| m != n@ ==> #[trigger] final(self).list(m) == old(self).list(m),
            final(self).keys() == old(self).keys(),
    {
        if let Some(s) = self.slots.get(n) {
            let slot: usize = *s;
            let ghost mid = *self;
            self.lists[slot].remove(at);
            assert(self.keys() =~= mid.keys());
            assert forall|m: Seq<char>| m != n@ implies #[trigger] self.list(m) == mid.list(m) by {
                if self.slots@.contains_key(m) {
                    assert(self.names@[self.slots@[m] as int]@ == m);
                    assert(self.slots@[m] != slot);
                }
            }
        }
    }

    /// Drops a path with its list.
    pub fn drop_key(&mut self, n: &str)
        requires
            old(self).wf(),
        ensures
            final(self).wf(),
            final(self).list(n@) == Seq::<T>::empty(),
            forall|m: Seq<char>| m != n@ ==> #[trigger] final(self).list(m) == old(self).list(m),
            final(self).keys() == without_first(old(self).keys(), is_name(n@)),
    {
        let ghost pred = is_name(n@);
        let slot: usize = match self.slots.get(n) {
            Some(s) => *s,
            None => {
                proof {
                    assert forall|j: int| 0 <= j < self.keys().len() implies !pred(#[trigger] self.keys()[j]) by {
                        assert(self.slots@.contains_key(self.names@[j]@));
                    }
                    first_place_unique(self.keys(), pred, self.keys().len() as int);
                }
                return;
            },
        };
        proof {
            let keys = self.keys();
            assert(keys[slot as int] == n@);
            assert forall|j: int| 0 <= j < slot implies !pred(#[trigger] keys[j]) by {
                assert(self.slots@[self.names@[j]@] == j);
            }
            first_place_unique(keys, pred, slot as int);
        }
        self.names.remove(slot);
        self.lists.remove(slot);
        self.slots.remove(n);
        let mut i: usize = slot;
        let ghost start = *old(self);
        assert forall|k: int| 0 <= k < self.names@.len() implies self.slots@.contains_key((#[trigger] self.names@[k])@)
            && self.slots@[self.names@[k]@] == (if k < slot { k } else { k + 1 }) by {
            let o = if k < slot { k } else { k + 1 };
            assert(self.names@[k] == start.names@[o]);
            assert(start.slots@[start.names@[o]@] == o);
        }
        assert forall|m: Seq<char>| #[trigger] self.slots@.contains_key(m) implies self.names_hold(m) by {
            let o = start.slots@[m] as int;
            assert(start.names@[o]@ == m);
            assert(o != slot);
            let k = if o < slot { o } else { o - 1 };
            assert(self.names@[k]@ == m);
        }
        while i < self.names.len()
            invariant
                slot <= i <= self.names@.len(),
                self.names@ == start.names@.remove(slot as int),
                self.lists@ == start.lists@.remove(slot as int),
                self.nothing@.len() == 0,
                start.wf(),
                start.names@.len() == start.lists@.len(),
                slot < start.names@.len(),
                start.names@[slot as int]@ == n@,
                forall|m: Seq<char>| #[trigger] self.slots@.contains_key(m) <==> start.slots@.contains_key(m) && m != n@,
                forall|m: Seq<char>| #[trigger] self.slots@.contains_key(m) ==> self.names_hold(m),
                forall|k: int|
                    0 <= k < self.names@.len() ==> self.slots@.contains_key((#[trigger] self.names@[k])@)
                        && self.slots@[self.names@[k]@] == (if k < i { k } else { k + 1 }),
            decreases self.names@.len() - i,
        {
            let ghost before = *self;
            let name = self.names[i].clone();
            self.slots.insert(name, i);
            assert forall|k: int| 0 <= k < self.names@.len() implies self.slots@.contains_key((#[trigger] self.names@[k])@)
                && self.slots@[self.names@[k]@] == (if k < i + 1 { k } else { k + 1 }) by {
                assert(before.slots@.contains_key(before.names@[k]@));
                if k != i {
                    assert(before.slots@[before.names@[k]@] != before.slots@[before.names@[i as int]@]);
                }
            }
            assert forall|m: Seq<char>| #[trigger] self.slots@.contains_key(m) implies self.names_hold(m) by {
                assert(before.slots@.contains_key(m));
                assert(before.names_hold(m));
                let k = choose|k: int| 0 <= k < before.names@.len() && (#[trigger] before.names@[k])@ == m;
                assert(self.names@[k]@ == m);
            }
            i = i + 1;
        }
        assert forall|m: Seq<char>| #[trigger] self.slots@.contains_key(m) implies self.slots@[m] < self.names@.len()
            && self.names@[self.slots@[m] as int]@ == m by {
            assert(self.names_hold(m));
            let k = choose|k: int| 0 <= k < self.names@.len() && (#[trigger] self.names@[k])@ == m;
            assert(self.slots@[self.names@[k]@] == k);
        }
        assert(self.keys() =~= start.keys().remove(slot as int));
        assert forall|m: Seq<char>| m != n@ implies #[trigger] self.list(m) == start.list(m) by {
            if self.slots@.contains_key(m) {
                let k = self.slots@[m] as int;
                let o = if k < slot { k } else { k + 1 };
                assert(self.names@[k] == start.names@[o]);
                assert(start.slots@[start.names@[o]@] == o);
            }
        }
    }

    spec fn names_hold(&self, m: Seq<char>) -> bool {
        exists|k: int| 0 <= k < self.names@.len() && (#[trigger] self.names@[k])@ == m
    }
}

} // verus!
