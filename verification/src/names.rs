//! A table from names to values that is walked in the order of the names.

use crate::text::{
    comes_before, same_text, text_less, text_less_irreflexive, text_less_total, text_less_transitive,
};
use vstd::prelude::*;

verus! {

/// Names come in strictly rising order.
pub open spec fn in_order(names: Seq<Seq<char>>) -> bool {
    forall|i: int, j: int| 0 <= i < j < names.len() ==> text_less(#[trigger] names[i], #[trigger] names[j])
}

/// The names of a set, in order.
pub open spec fn sorted_names(s: Set<Seq<char>>) -> Seq<Seq<char>> {
    choose|names: Seq<Seq<char>>| in_order(names) && #[trigger] names.to_set() == s
}

proof fn lemma_firsts_agree(a: Seq<Seq<char>>, b: Seq<Seq<char>>)
    requires
        in_order(a),
        in_order(b),
        a.to_set() == b.to_set(),
        a.len() > 0,
    ensures
        b.len() > 0,
        a[0] == b[0],
{
    assert(a.to_set().contains(a[0]));
    assert(b.to_set().contains(a[0]));
    let j = choose|j: int| 0 <= j < b.len() && b[j] == a[0];
    assert(b.to_set().contains(b[0]));
    assert(a.to_set().contains(b[0]));
    let i = choose|i: int| 0 <= i < a.len() && a[i] == b[0];
    if j > 0 && i > 0 {
        assert(text_less(b[0], b[j]));
        assert(text_less(a[0], a[i]));
        text_less_total(a[0], b[0]);
    }
}

/// There is only one way to put the names of a set in order.
pub proof fn order_is_unique(a: Seq<Seq<char>>, b: Seq<Seq<char>>)
    requires
        in_order(a),
        in_order(b),
        a.to_set() == b.to_set(),
    ensures
        a == b,
    decreases a.len(),
{
    if a.len() == 0 {
        if b.len() > 0 {
            assert(b.to_set().contains(b[0]));
            assert(a.to_set().contains(b[0]));
        }
        assert(a =~= b);
    } else {
        lemma_firsts_agree(a, b);
        let ra = a.skip(1);
        let rb = b.skip(1);
        assert forall|i: int, j: int| 0 <= i < j < ra.len() implies text_less(#[trigger] ra[i], #[trigger] ra[j]) by {
            assert(text_less(a[i + 1], a[j + 1]));
        }
        assert forall|i: int, j: int| 0 <= i < j < rb.len() implies text_less(#[trigger] rb[i], #[trigger] rb[j]) by {
            assert(text_less(b[i + 1], b[j + 1]));
        }
        lemma_rest_set(a);
        lemma_rest_set(b);
        assert(ra.to_set() =~= rb.to_set());
        order_is_unique(ra, rb);
        assert(a =~= seq![a[0]] + ra);
        assert(b =~= seq![b[0]] + rb);
    }
}

proof fn lemma_rest_set(a: Seq<Seq<char>>)
    requires
        in_order(a),
        a.len() > 0,
    ensures
        forall|n: Seq<char>| #[trigger] a.skip(1).to_set().contains(n) <==> a.to_set().contains(n) && n != a[0],
{
    let r = a.skip(1);
    assert forall|n: Seq<char>| #[trigger] r.to_set().contains(n) <==> a.to_set().contains(n) && n != a[0] by {
        if r.contains(n) {
            let i = choose|i: int| 0 <= i < r.len() && r[i] == n;
            assert(a[i + 1] == n);
            assert(text_less(a[0], a[i + 1]));
            text_less_irreflexive(a[0]);
        }
        if a.contains(n) && n != a[0] {
            let i = choose|i: int| 0 <= i < a.len() && a[i] == n;
            assert(r[i - 1] == n);
        }
    }
}

proof fn lemma_insert_in_order(names: Seq<Seq<char>>, name: Seq<char>) -> (r: Seq<Seq<char>>)
    requires
        in_order(names),
        !names.contains(name),
    ensures
        in_order(r),
        r.to_set() == names.to_set().insert(name),
    decreases names.len(),
{
    if names.len() == 0 {
        let r = seq![name];
        assert(r[0] == name);
        assert(r.to_set() =~= names.to_set().insert(name));
        r
    } else {
        let last = names.last();
        let front = names.drop_last();
        assert(names.contains(last)) by {
            assert(names[names.len() - 1] == last);
        }
        text_less_total(last, name);
        if text_less(last, name) {
            let r = names.push(name);
            assert forall|i: int, j: int| 0 <= i < j < r.len() implies text_less(#[trigger] r[i], #[trigger] r[j]) by {
                if j == names.len() && i < names.len() - 1 {
                    assert(text_less(names[i], last));
                    text_less_transitive(names[i], last, name);
                } else if j < names.len() {
                    assert(text_less(names[i], names[j]));
                }
            }
            assert forall|n: Seq<char>| #[trigger] r.to_set().contains(n) <==> names.to_set().insert(name).contains(n) by {
                if names.contains(n) {
                    let i = choose|i: int| 0 <= i < names.len() && names[i] == n;
                    assert(r[i] == n);
                }
                assert(r[names.len() as int] == name);
            }
            assert(r.to_set() =~= names.to_set().insert(name));
            r
        } else {
            assert(!front.contains(name)) by {
                if front.contains(name) {
                    let i = choose|i: int| 0 <= i < front.len() && front[i] == name;
                    assert(names[i] == name);
                }
            }
            assert forall|i: int, j: int| 0 <= i < j < front.len() implies text_less(#[trigger] front[i], #[trigger] front[j]) by {
                assert(text_less(names[i], names[j]));
            }
            let f = lemma_insert_in_order(front, name);
            let r = f.push(last);
            assert forall|i: int| 0 <= i < f.len() implies text_less(#[trigger] f[i], last) by {
                assert(f.to_set().contains(f[i]));
                if f[i] != name {
                    assert(front.contains(f[i]));
                    let k = choose|k: int| 0 <= k < front.len() && front[k] == f[i];
                    assert(text_less(names[k], names[names.len() - 1]));
                }
            }
            assert forall|i: int, j: int| 0 <= i < j < r.len() implies text_less(#[trigger] r[i], #[trigger] r[j]) by {
                if j < f.len() {
                    assert(text_less(f[i], f[j]));
                } else {
                    assert(text_less(f[i], last));
                }
            }
            assert forall|n: Seq<char>| #[trigger] r.to_set().contains(n) <==> names.to_set().insert(name).contains(n) by {
                if r.contains(n) {
                    let i = choose|i: int| 0 <= i < r.len() && r[i] == n;
                    if i < f.len() {
                        assert(f.to_set().contains(f[i]));
                        if n != name {
                            assert(front.contains(n));
                            let k = choose|k: int| 0 <= k < front.len() && front[k] == n;
                            assert(names[k] == n);
                        }
                    }
                }
                if names.to_set().insert(name).contains(n) {
                    if n == last {
                        assert(r[f.len() as int] == n);
                    } else {
                        if n != name {
                            let k = choose|k: int| 0 <= k < names.len() && names[k] == n;
                            assert(front[k] == n);
                            assert(front.to_set().contains(n));
                        }
                        assert(f.to_set().contains(n));
                        let i = choose|i: int| 0 <= i < f.len() && f[i] == n;
                        assert(r[i] == n);
                    }
                }
            }
            assert(r.to_set() =~= names.to_set().insert(name));
            r
        }
    }
}

proof fn lemma_some_order(s: Set<Seq<char>>) -> (r: Seq<Seq<char>>)
    requires
        s.finite(),
    ensures
        in_order(r),
        r.to_set() == s,
    decreases s.len(),
{
    if s =~= Set::empty() {
        let r = Seq::<Seq<char>>::empty();
        assert(r.to_set() =~= s);
        r
    } else {
        let name = s.choose();
        let rest = lemma_some_order(s.remove(name));
        assert(!rest.contains(name)) by {
            if rest.contains(name) {
                assert(rest.to_set().contains(name));
            }
        }
        let r = lemma_insert_in_order(rest, name);
        assert(r.to_set() =~= s);
        r
    }
}

/// The names of a finite set can be put in order.
pub proof fn names_can_be_sorted(s: Set<Seq<char>>)
    requires
        s.finite(),
    ensures
        in_order(sorted_names(s)),
        sorted_names(s).to_set() == s,
{
    let r = lemma_some_order(s);
    assert(in_order(r) && r.to_set() == s);
}

/// A table from names to values.
pub struct NameTable<T> {
    entries: Vec<(String, T)>,
}

impl<T> NameTable<T> {
    /// The names, in order.
    pub closed spec fn names(&self) -> Seq<Seq<char>> {
        self.entries@.map_values(|e: (String, T)| e.0@)
    }

    /// The values, in the order of the names.
    pub closed spec fn values(&self) -> Seq<T> {
        self.entries@.map_values(|e: (String, T)| e.1)
    }

    /// The table is consistent: its names come in order.
    pub open spec fn wf(&self) -> bool {
        in_order(self.names()) && self.names().len() == self.values().len()
    }

    /// The place of a name in the order.
    pub open spec fn place(&self, name: Seq<char>) -> int {
        choose|i: int| 0 <= i < self.names().len() && self.names()[i] == name
    }

    /// An empty table.
    pub fn new() -> (r: Self)
        ensures
            r.wf(),
            r@ == Map::<Seq<char>, T>::empty(),
            r.names() == Seq::<Seq<char>>::empty(),
    {
        let r = NameTable { entries: Vec::new() };
        assert(r.names() =~= Seq::empty());
        assert(r@ =~= Map::empty());
        r
    }

    /// The number of names.
    pub fn len(&self) -> (r: usize)
        ensures
            r == self.names().len(),
    {
        self.entries.len()
    }

    /// The name at a place in the order.
    pub fn name_at(&self, i: usize) -> (r: &str)
        requires
            i < self.names().len(),
        ensures
            r@ == self.names()[i as int],
    {
        self.entries[i].0.as_str()
    }

    /// The value at a place in the order.
    pub fn value_at(&self, i: usize) -> (r: &T)
        requires
            self.wf(),
            i < self.names().len(),
        ensures
            *r == self.values()[i as int],
            *r == self@[self.names()[i as int]],
            self@.contains_key(self.names()[i as int]),
    {
        proof {
            self.entries_hold(i as int);
        }
        &self.entries[i].1
    }

    /// An entry of the table is what its name stands for.
    pub proof fn entries_hold(&self, i: int)
        requires
            self.wf(),
            0 <= i < self.names().len(),
        ensures
            self@.contains_key(self.names()[i]),
            self@[self.names()[i]] == self.values()[i],
    {
        assert(self.names().contains(self.names()[i]));
        let j = self.place(self.names()[i]);
        if i < j {
            assert(text_less(self.names()[i], self.names()[j]));
            text_less_irreflexive(self.names()[i]);
        } else if j < i {
            assert(text_less(self.names()[j], self.names()[i]));
            text_less_irreflexive(self.names()[i]);
        }
    }

    /// The names are those that have a value, in order.
    pub proof fn names_hold(&self)
        requires
            self.wf(),
        ensures
            self.names().to_set() == self@.dom(),
            self.names() == sorted_names(self@.dom()),
            self.names().no_duplicates(),
    {
        assert(self.names().to_set() =~= self@.dom());
        let other = sorted_names(self@.dom());
        assert(in_order(self.names()) && self.names().to_set() == self@.dom());
        order_is_unique(self.names(), other);
        assert forall|i: int, j: int| 0 <= i < self.names().len() && 0 <= j < self.names().len() && i != j
            implies self.names()[i] != self.names()[j] by {
            text_less_irreflexive(self.names()[i]);
            if i < j {
                assert(text_less(self.names()[i], self.names()[j]));
            } else {
                assert(text_less(self.names()[j], self.names()[i]));
            }
        }
    }

    /// The first place whose name does not come before the given one.
    fn find(&self, name: &str) -> (r: usize)
        requires
            self.wf(),
        ensures
            r <= self.names().len(),
            forall|i: int| 0 <= i < r ==> text_less(#[trigger] self.names()[i], name@),
            r < self.names().len() ==> !text_less(self.names()[r as int], name@),
    {
        let mut i: usize = 0;
        while i < self.entries.len() && comes_before(self.entries[i].0.as_str(), name)
            invariant
                i <= self.entries@.len(),
                forall|j: int| 0 <= j < i ==> text_less(#[trigger] self.names()[j], name@),
            decreases self.entries@.len() - i,
        {
            i = i + 1;
        }
        i
    }

    /// The value under a name.
    pub fn get(&self, name: &str) -> (r: Option<&T>)
        requires
            self.wf(),
        ensures
            match r {
                Some(v) => self@.contains_key(name@) && *v == self@[name@],
                None => !self@.contains_key(name@),
            },
    {
        let i: usize = self.find(name);
        if i < self.entries.len() && same_text(self.entries[i].0.as_str(), name) {
            proof {
                self.entries_hold(i as int);
            }
            Some(&self.entries[i].1)
        } else {
            proof {
                self.lemma_missing(name@, i as int);
            }
            None
        }
    }

    proof fn lemma_missing(&self, name: Seq<char>, i: int)
        requires
            self.wf(),
            0 <= i <= self.names().len(),
            forall|j: int| 0 <= j < i ==> text_less(#[trigger] self.names()[j], name),
            i < self.names().len() ==> !text_less(self.names()[i], name) && self.names()[i] != name,
        ensures
            !self@.contains_key(name),
            forall|j: int| i <= j < self.names().len() ==> text_less(name, #[trigger] self.names()[j]),
    {
        assert forall|j: int| i <= j < self.names().len() implies text_less(name, #[trigger] self.names()[j]) by {
            text_less_total(self.names()[i], name);
            if i < j {
                assert(text_less(self.names()[i], self.names()[j]));
                text_less_transitive(name, self.names()[i], self.names()[j]);
            }
        }
        if self@.contains_key(name) {
            let k = self.place(name);
            text_less_irreflexive(name);
            if k < i {
                assert(text_less(self.names()[k], name));
            } else {
                assert(text_less(name, self.names()[k]));
            }
        }
    }

    /// Files a value under a name, in place of any that was there.
    pub fn insert(&mut self, name: String, value: T)
        requires
            old(self).wf(),
        ensures
            final(self).wf(),
            final(self)@ == old(self)@.insert(name@, value),
    {
        let ghost before = *self;
        let i: usize = self.find(name.as_str());
        if i < self.entries.len() && same_text(self.entries[i].0.as_str(), name.as_str()) {
            self.entries.remove(i);
            self.entries.insert(i, (name, value));
            assert(self.names() =~= before.names());
            assert(self.values() =~= before.values().update(i as int, value));
            proof {
                assert(before@.contains_key(name@)) by {
                    before.entries_hold(i as int);
                }
                assert forall|n: Seq<char>| self@.contains_key(n) implies self@[n] == before@.insert(name@, value)[n] by {
                    let k = self.place(n);
                    self.entries_hold(k);
                    before.entries_hold(k);
                    if n == name@ {
                        self.entries_hold(i as int);
                    }
                }
                assert(self@ =~= before@.insert(name@, value));
            }
        } else {
            proof {
                before.lemma_missing(name@, i as int);
            }
            self.entries.insert(i, (name, value));
            assert(self.names() =~= before.names().insert(i as int, name@));
            assert(self.values() =~= before.values().insert(i as int, value));
            proof {
                let names = self.names();
                assert forall|a: int, b: int| 0 <= a < b < names.len() implies text_less(#[trigger] names[a], #[trigger] names[b]) by {
                    if a < i && b < i {
                        assert(text_less(before.names()[a], before.names()[b]));
                    } else if a < i && b > i {
                        assert(text_less(before.names()[a], before.names()[b - 1]));
                    } else if a > i {
                        assert(text_less(before.names()[a - 1], before.names()[b - 1]));
                    } else if a == i {
                        assert(text_less(name@, before.names()[b - 1]));
                    } else {
                        assert(text_less(before.names()[a], name@));
                    }
                }
                assert(self.wf());
                assert forall|n: Seq<char>| self@.contains_key(n) <==> before@.contains_key(n) || n == name@ by {
                    if self@.contains_key(n) {
                        let k = self.place(n);
                        if k < i {
                            assert(before.names()[k] == n);
                        } else if k > i {
                            assert(before.names()[k - 1] == n);
                        }
                    }
                    if before@.contains_key(n) {
                        let k = before.place(n);
                        if k < i {
                            assert(self.names()[k] == n);
                        } else {
                            assert(self.names()[k + 1] == n);
                        }
                    }
                    if n == name@ {
                        assert(self.names()[i as int] == n);
                    }
                }
                assert forall|n: Seq<char>| self@.contains_key(n) implies self@[n] == before@.insert(name@, value)[n] by {
                    let k = self.place(n);
                    self.entries_hold(k);
                    if n == name@ {
                        self.entries_hold(i as int);
                    } else if k < i {
                        before.entries_hold(k);
                    } else {
                        before.entries_hold(k - 1);
                    }
                }
                assert(self@ =~= before@.insert(name@, value));
            }
        }
    }
}

impl<T> View for NameTable<T> {
    type V = Map<Seq<char>, T>;

    open spec fn view(&self) -> Map<Seq<char>, T> {
        Map::new(|n: Seq<char>| self.names().contains(n), |n: Seq<char>| self.values()[self.place(n)])
    }
}

} // verus!
