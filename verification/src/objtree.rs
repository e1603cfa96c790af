//! The object tree: the types of a code base, their variables, and how they inherit.

use crate::names::NameTable;
use crate::prefab::{Constant, ConstantKind, ConstantKindView, ConstantView};
use crate::text::{has_prefix, same_text, split_on, split_text, starts_with, texts};
use crate::syntax::Statement;
use vstd::prelude::*;

verus! {

/// A variable as one type gives it.
pub struct TypeVar {
    pub name: String,
    /// The value, where it is a constant.
    pub constant: Option<Constant>,
    /// The components of the declared type, where this type declares the variable.
    pub declared: Option<Vec<String>>,
}

/// What a [`TypeVar`] holds.
#[verifier::ext_equal]
pub struct TypeVarView {
    pub name: Seq<char>,
    pub constant: Option<ConstantView>,
    pub declared: Option<Seq<Seq<char>>>,
}

impl View for TypeVar {
    type V = TypeVarView;

    open spec fn view(&self) -> TypeVarView {
        TypeVarView {
            name: self.name@,
            constant: match self.constant {
                Some(c) => Some(c@),
                None => None,
            },
            declared: match self.declared {
                Some(d) => Some(texts(d@)),
                None => None,
            },
        }
    }
}

/// A proc as one type defines it.
pub struct TypeProc {
    pub name: String,
    /// The definitions in order, each with its code where it has any.
    pub bodies: Vec<Option<Vec<Statement>>>,
}

/// A type.
pub struct TypeNode {
    /// The full path; empty for the root.
    pub path: String,
    /// The type that this one inherits from.
    pub parent: Option<usize>,
    /// How many types this one inherits from, directly or not.
    pub level: usize,
    /// The types directly below this one in the path hierarchy, by last component.
    pub children: Vec<(String, usize)>,
    /// The variables that this type declares or gives a value to.
    pub vars: Vec<TypeVar>,
    /// The procs that this type defines.
    pub procs: Vec<TypeProc>,
}

/// The types of a code base. The root comes first.
pub struct ObjectTree {
    pub types: Vec<TypeNode>,
}

/// The views of a list of variables.
pub open spec fn type_vars(v: Seq<TypeVar>) -> Seq<TypeVarView> {
    v.map_values(|e: TypeVar| e@)
}

/// The variable of a list that has the given name: the first.
pub open spec fn own_var(vars: Seq<TypeVarView>, name: Seq<char>) -> Option<TypeVarView>
    decreases vars.len(),
{
    if vars.len() == 0 {
        None
    } else if vars[0].name == name {
        Some(vars[0])
    } else {
        own_var(vars.skip(1), name)
    }
}

/// The child of that name: the first.
pub open spec fn own_child(children: Seq<(String, usize)>, name: Seq<char>) -> Option<int>
    decreases children.len(),
{
    if children.len() == 0 {
        None
    } else if children[0].0@ == name {
        Some(children[0].1 as int)
    } else {
        own_child(children.skip(1), name)
    }
}

/// The code of the last definition of a proc, where it has any.
pub open spec fn own_code(procs: Seq<TypeProc>, name: Seq<char>) -> Option<Vec<Statement>>
    decreases procs.len(),
{
    if procs.len() == 0 {
        None
    } else if procs[0].name@ == name {
        if procs[0].bodies@.len() == 0 {
            None
        } else {
            procs[0].bodies@.last()
        }
    } else {
        own_code(procs.skip(1), name)
    }
}

/// Finds the code of the last definition of a proc.
pub fn find_code<'a>(procs: &'a Vec<TypeProc>, name: &str) -> (r: Option<&'a Vec<Statement>>)
    ensures
        match r {
            Some(code) => own_code(procs@, name@) == Some(*code),
            None => own_code(procs@, name@) is None,
        },
{
    let mut i: usize = 0;
    assert(procs@.skip(0) =~= procs@);
    while i < procs.len()
        invariant
            i <= procs@.len(),
            own_code(procs@.skip(i as int), name@) == own_code(procs@, name@),
        decreases procs@.len() - i,
    {
        assert(procs@.skip(i as int).skip(1) =~= procs@.skip(i + 1));
        if same_text(procs[i].name.as_str(), name) {
            let n: usize = procs[i].bodies.len();
            if n == 0 {
                return None;
            }
            return match &procs[i].bodies[n - 1] {
                Some(code) => Some(code),
                None => None,
            };
        }
        i = i + 1;
    }
    None
}

impl ObjectTree {
    /// The tree is consistent: there is a root, every link leads to a type, a type inherits only
    /// from types of a lower level, and a type below another in the path hierarchy comes after
    /// it.
    pub open spec fn wf(&self) -> bool {
        &&& self.types@.len() > 0
        &&& forall|t: int| #![trigger self.types@[t]] 0 <= t < self.types@.len() ==> {
            &&& self.types@[t].parent matches Some(p) ==> p < self.types@.len() && self.types@[p as int].level
                < self.types@[t].level
            &&& forall|i: int| 0 <= i < self.types@[t].children@.len() ==> t < (#[trigger] self.types@[t].children@[i]).1
                < self.types@.len()
        }
    }

    /// The path of a type.
    pub open spec fn path(&self, t: int) -> Seq<char> {
        self.types@[t].path@
    }

    /// A type followed by those that it inherits from, nearest first.
    pub open spec fn lineage(&self, t: int) -> Seq<int>
        decreases self.types@[t].level,
    {
        match self.types@[t].parent {
            Some(p) => if self.types@[p as int].level < self.types@[t].level {
                seq![t] + self.lineage(p as int)
            } else {
                seq![t]
            },
            None => seq![t],
        }
    }

    /// The variables that a type gives itself.
    pub open spec fn own(&self, t: int) -> Seq<TypeVarView> {
        type_vars(self.types@[t].vars@)
    }

    /// The variable of that name as the first type of a line gives it, with that type.
    pub open spec fn first_in(&self, line: Seq<int>, name: Seq<char>) -> Option<(int, TypeVarView)>
        decreases line.len(),
    {
        if line.len() == 0 {
            None
        } else {
            match own_var(self.own(line[0]), name) {
                Some(v) => Some((line[0], v)),
                None => self.first_in(line.skip(1), name),
            }
        }
    }

    /// The variable of that name as a type has it: its own, or else the nearest that it inherits.
    pub open spec fn nearest(&self, t: int, name: Seq<char>) -> Option<(int, TypeVarView)> {
        self.first_in(self.lineage(t), name)
    }

    /// The constant that a variable of a type has.
    pub open spec fn default_value(&self, t: int, name: Seq<char>) -> Option<ConstantView> {
        match self.nearest(t, name) {
            Some(v) => v.1.constant,
            None => None,
        }
    }

    /// The declared type of a variable as the first type of a line declares it.
    pub open spec fn first_declared_in(&self, line: Seq<int>, name: Seq<char>) -> Option<Seq<Seq<char>>>
        decreases line.len(),
    {
        if line.len() == 0 {
            None
        } else {
            match own_var(self.own(line[0]), name) {
                Some(v) => match v.declared {
                    Some(d) => Some(d),
                    None => self.first_declared_in(line.skip(1), name),
                },
                None => self.first_declared_in(line.skip(1), name),
            }
        }
    }

    /// The declared type of a variable of a type.
    pub open spec fn declared_type(&self, t: int, name: Seq<char>) -> Option<Seq<Seq<char>>> {
        self.first_declared_in(self.lineage(t), name)
    }

    /// The type reached from a type by path components; empty components do not count.
    pub open spec fn descend(&self, t: int, parts: Seq<Seq<char>>) -> Option<int>
        decreases parts.len(),
    {
        if parts.len() == 0 {
            Some(t)
        } else if parts[0].len() == 0 {
            self.descend(t, parts.skip(1))
        } else {
            match own_child(self.types@[t].children@, parts[0]) {
                Some(c) => self.descend(c, parts.skip(1)),
                None => None,
            }
        }
    }

    /// The type of a path. A path without components names no type.
    pub open spec fn type_at(&self, path: Seq<char>) -> Option<int> {
        let parts = split_on(path, '/');
        if forall|i: int| 0 <= i < parts.len() ==> (#[trigger] parts[i]).len() == 0 {
            None
        } else {
            self.descend(0, parts)
        }
    }
}

/// Finds the variable of a list that has the given name.
pub fn find_own<'a>(vars: &'a Vec<TypeVar>, name: &str) -> (r: Option<&'a TypeVar>)
    ensures
        match r {
            Some(v) => own_var(type_vars(vars@), name@) == Some(v@),
            None => own_var(type_vars(vars@), name@) is None,
        },
{
    let ghost all = type_vars(vars@);
    let mut i: usize = 0;
    assert(all.skip(0) =~= all);
    while i < vars.len()
        invariant
            i <= vars@.len(),
            all == type_vars(vars@),
            own_var(all.skip(i as int), name@) == own_var(all, name@),
        decreases vars@.len() - i,
    {
        assert(all.skip(i as int).skip(1) =~= all.skip(i + 1));
        if same_text(vars[i].name.as_str(), name) {
            return Some(&vars[i]);
        }
        i = i + 1;
    }
    None
}

fn find_child(children: &Vec<(String, usize)>, name: &str) -> (r: Option<usize>)
    ensures
        match r {
            Some(c) => own_child(children@, name@) == Some(c as int) && exists|i: int|
                0 <= i < children@.len() && (#[trigger] children@[i]).1 == c,
            None => own_child(children@, name@) is None,
        },
{
    let mut i: usize = 0;
    assert(children@.skip(0) =~= children@);
    while i < children.len()
        invariant
            i <= children@.len(),
            own_child(children@.skip(i as int), name@) == own_child(children@, name@),
        decreases children@.len() - i,
    {
        assert(children@.skip(i as int).skip(1) =~= children@.skip(i + 1));
        if same_text(children[i].0.as_str(), name) {
            assert(children@[i as int].1 == children@.skip(i as int)[0].1);
            return Some(children[i].1);
        }
        i = i + 1;
    }
    None
}

/// Whether a builder may set a variable of that name.
pub open spec fn settable(name: Seq<char>) -> bool {
    !starts_with(name, "__"@) && name != "type"@ && name != "parent_type"@ && name != "tag"@
}

fn is_settable(name: &str) -> (r: bool)
    ensures
        r == settable(name@),
{
    !has_prefix(name, "__") && !same_text(name, "type") && !same_text(name, "parent_type") && !same_text(name, "tag")
}

/// A variable that a builder may set: its default, and the type that gives it.
pub struct SettableVar {
    pub default: Option<Constant>,
    pub declared_on: String,
}

/// What a [`SettableVar`] holds.
#[verifier::ext_equal]
pub struct SettableView {
    pub default: Option<ConstantView>,
    pub declared_on: Seq<char>,
}

impl View for SettableVar {
    type V = SettableView;

    open spec fn view(&self) -> SettableView {
        SettableView {
            default: match self.default {
                Some(c) => Some(c@),
                None => None,
            },
            declared_on: self.declared_on@,
        }
    }
}

impl ObjectTree {
    /// Finds a type by its full path.
    pub fn find_type(&self, path: &str) -> (r: Option<usize>)
        requires
            self.wf(),
        ensures
            match r {
                Some(t) => self.type_at(path@) == Some(t as int) && t < self.types@.len(),
                None => self.type_at(path@) is None,
            },
    {
        let parts = split_text(path, '/');
        let ghost pv = texts(parts@);
        let mut current: usize = 0;
        let mut moved = false;
        let mut i: usize = 0;
        assert(pv.skip(0) =~= pv);
        while i < parts.len()
            invariant
                i <= parts@.len(),
                pv == texts(parts@),
                pv == split_on(path@, '/'),
                self.wf(),
                current < self.types@.len(),
                self.descend(current as int, pv.skip(i as int)) == self.descend(0, pv),
                moved == exists|j: int| 0 <= j < i && (#[trigger] pv[j]).len() > 0,
            decreases parts@.len() - i,
        {
            assert(pv.skip(i as int).skip(1) =~= pv.skip(i + 1));
            assert(pv.skip(i as int)[0] == parts@[i as int]@);
            assert(pv[i as int] == parts@[i as int]@);
            if !same_text(parts[i].as_str(), "") {
                proof {
                    reveal_strlit("");
                    if pv[i as int].len() == 0 {
                        assert(pv[i as int] =~= ""@);
                    }
                }
                match find_child(&self.types[current].children, parts[i].as_str()) {
                    Some(c) => {
                        current = c;
                    },
                    None => {
                        return None;
                    },
                }
                moved = true;
            } else {
                proof {
                    reveal_strlit("");
                }
            }
            i = i + 1;
        }
        assert(pv.skip(i as int).len() == 0);
        if moved {
            Some(current)
        } else {
            None
        }
    }

    /// The variable of that name as a type has it: its own, or else the nearest that it inherits.
    pub fn get_value(&self, t: usize, name: &str) -> (r: Option<&TypeVar>)
        requires
            self.wf(),
            t < self.types@.len(),
        ensures
            match r {
                Some(v) => self.nearest(t as int, name@) matches Some(n) && n.1 == v@,
                None => self.nearest(t as int, name@) is None,
            },
    {
        let mut current: usize = t;
        loop
            invariant
                self.wf(),
                current < self.types@.len(),
                self.first_in(self.lineage(current as int), name@) == self.nearest(t as int, name@),
            decreases self.types@[current as int].level,
        {
            let ghost line = self.lineage(current as int);
            if let Some(v) = find_own(&self.types[current].vars, name) {
                return Some(v);
            }
            match self.types[current].parent {
                Some(p) => {
                    assert(line.skip(1) =~= self.lineage(p as int));
                    current = p;
                },
                None => {
                    assert(self.first_in(line.skip(1), name@) is None);
                    return None;
                },
            }
        }
    }

    /// The constant that a variable of a type has.
    pub fn default_of(&self, t: usize, name: &str) -> (r: Option<&Constant>)
        requires
            self.wf(),
            t < self.types@.len(),
        ensures
            match r {
                Some(c) => self.default_value(t as int, name@) == Some(c@),
                None => self.default_value(t as int, name@) is None,
            },
    {
        match self.get_value(t, name) {
            Some(v) => match &v.constant {
                Some(c) => Some(c),
                None => None,
            },
            None => None,
        }
    }

    /// The declared type of a variable of a type, by its components.
    pub fn get_var_declaration(&self, t: usize, name: &str) -> (r: Option<&Vec<String>>)
        requires
            self.wf(),
            t < self.types@.len(),
        ensures
            match r {
                Some(d) => self.declared_type(t as int, name@) == Some(texts(d@)),
                None => self.declared_type(t as int, name@) is None,
            },
    {
        let mut current: usize = t;
        loop
            invariant
                self.wf(),
                current < self.types@.len(),
                self.first_declared_in(self.lineage(current as int), name@) == self.declared_type(t as int, name@),
            decreases self.types@[current as int].level,
        {
            let ghost line = self.lineage(current as int);
            if let Some(v) = find_own(&self.types[current].vars, name) {
                if let Some(d) = &v.declared {
                    return Some(d);
                }
            }
            match self.types[current].parent {
                Some(p) => {
                    assert(line.skip(1) =~= self.lineage(p as int));
                    current = p;
                },
                None => {
                    assert(self.first_declared_in(line.skip(1), name@) is None);
                    return None;
                },
            }
        }
    }

    /// Tests whether a type or one that it inherits from has a variable of that name.
    pub fn type_hierarchy_has_var(&self, t: usize, var_name: &str) -> (r: bool)
        requires
            self.wf(),
            t < self.types@.len(),
        ensures
            r == self.nearest(t as int, var_name@) is Some,
    {
        match self.get_value(t, var_name) {
            Some(_) => true,
            None => false,
        }
    }

    /// What a builder sees of a variable of a type.
    pub open spec fn settable_view(&self, t: int, name: Seq<char>) -> Option<SettableView> {
        if settable(name) {
            match self.nearest(t, name) {
                Some(n) => Some(SettableView { default: n.1.constant, declared_on: self.path(n.0) }),
                None => None,
            }
        } else {
            None
        }
    }

    /// Collects the variables of a type that a builder may set, with their defaults and the
    /// types that give them.
    pub fn collect_vars(&self, t: usize) -> (r: NameTable<SettableVar>)
        requires
            self.wf(),
            t < self.types@.len(),
        ensures
            r.wf(),
            forall|n: Seq<char>| #[trigger] r@.contains_key(n) <==> self.settable_view(t as int, n) is Some,
            forall|n: Seq<char>| r@.contains_key(n) ==> #[trigger] r@[n]@ == self.settable_view(t as int, n).unwrap(),
    {
        let mut out: NameTable<SettableVar> = NameTable::new();
        let mut current: usize = t;
        let ghost whole = self.lineage(t as int);
        let ghost mut at: int = 0;
        assert(whole.skip(0) =~= whole);
        assert(whole.take(0) =~= Seq::empty());
        loop
            invariant
                self.wf(),
                current < self.types@.len(),
                out.wf(),
                whole == self.lineage(t as int),
                0 <= at < whole.len(),
                whole.skip(at) == self.lineage(current as int),
                self.holds(out@, whole.take(at)),
            decreases self.types@[current as int].level,
        {
            let ghost line = self.lineage(current as int);
            assert(whole[at] == whole.skip(at)[0]);
            assert(whole[at] == current);
            let vars = &self.types[current].vars;
            let ghost own = self.own(current as int);
            let ghost front = whole.take(at);
            let mut i: usize = 0;
            assert(own.take(0) =~= Seq::empty());
            assert forall|n: Seq<char>| #[trigger] own_var(own.take(0), n) is None by {}
            while i < vars.len()
                invariant
                    i <= vars@.len(),
                    current < self.types@.len(),
                    vars == self.types@[current as int].vars,
                    own == type_vars(vars@),
                    own == self.own(current as int),
                    out.wf(),
                    self.holds_part(out@, front, current as int, own.take(i as int)),
                decreases vars@.len() - i,
            {
                let v = &vars[i];
                let ghost name = v.name@;
                let ghost before = out@;
                proof {
                    assert forall|n: Seq<char>| #[trigger] own_var(own.take(i + 1), n) == (match own_var(own.take(i as int), n) {
                        Some(w) => Some(w),
                        None => if n == name { Some(own[i as int]) } else { None },
                    }) by {
                        lemma_own_push(own.take(i as int), own[i as int], n);
                        assert(own.take(i as int).push(own[i as int]) =~= own.take(i + 1));
                    }
                }
                if is_settable(v.name.as_str()) {
                    let known = match out.get(v.name.as_str()) {
                        Some(_) => true,
                        None => false,
                    };
                    if !known {
                        let entry = SettableVar {
                            default: match &v.constant {
                                Some(c) => Some(c.clone()),
                                None => None,
                            },
                            declared_on: self.types[current].path.clone(),
                        };
                        out.insert(v.name.clone(), entry);
                    }
                }
                i = i + 1;
            }
            proof {
                assert(own.take(i as int) =~= own);
                let next = whole.take(at + 1);
                assert(next =~= front.push(current as int));
                assert forall|n: Seq<char>| #[trigger] self.first_in(next, n) == (match self.first_in(front, n) {
                    Some(w) => Some(w),
                    None => match own_var(own, n) {
                        Some(v) => Some((current as int, v)),
                        None => None,
                    },
                }) by {
                    self.lemma_first_push(front, current as int, n);
                }
                assert(self.holds(out@, next));
            }
            match self.types[current].parent {
                Some(p) => {
                    proof {
                        assert(line.skip(1) =~= self.lineage(p as int));
                        assert(whole.skip(at + 1) =~= whole.skip(at).skip(1));
                        lemma_lineage_nonempty(self, p as int);
                        at = at + 1;
                    }
                    current = p;
                },
                None => {
                    proof {
                        assert(whole.take(at + 1) =~= whole) by {
                            assert(whole.skip(at).len() == 1);
                        }
                    }
                    return out;
                },
            }
        }
    }

    spec fn holds(&self, out: Map<Seq<char>, SettableVar>, line: Seq<int>) -> bool {
        forall|n: Seq<char>|
            #![trigger out.contains_key(n)]
            #![trigger self.first_in(line, n)]
            if settable(n) && self.first_in(line, n) is Some {
                let w = self.first_in(line, n).unwrap();
                out.contains_key(n) && out[n]@ == (SettableView { default: w.1.constant, declared_on: self.path(w.0) })
            } else {
                !out.contains_key(n)
            }
    }

    spec fn holds_part(&self, out: Map<Seq<char>, SettableVar>, line: Seq<int>, t: int, own: Seq<TypeVarView>) -> bool {
        forall|n: Seq<char>|
            #![trigger out.contains_key(n)]
            #![trigger self.first_in(line, n)]
            #![trigger own_var(own, n)]
            if settable(n) && self.first_in(line, n) is Some {
                let w = self.first_in(line, n).unwrap();
                out.contains_key(n) && out[n]@ == (SettableView { default: w.1.constant, declared_on: self.path(w.0) })
            } else if settable(n) && own_var(own, n) is Some {
                out.contains_key(n) && out[n]@ == (SettableView {
                    default: own_var(own, n).unwrap().constant,
                    declared_on: self.path(t),
                })
            } else {
                !out.contains_key(n)
            }
    }

    proof fn lemma_first_push(&self, line: Seq<int>, t: int, n: Seq<char>)
        ensures
            self.first_in(line.push(t), n) == (match self.first_in(line, n) {
                Some(w) => Some(w),
                None => match own_var(self.own(t), n) {
                    Some(v) => Some((t, v)),
                    None => None,
                },
            }),
        decreases line.len(),
    {
        if line.len() > 0 {
            self.lemma_first_push(line.skip(1), t, n);
            assert(line.push(t).skip(1) =~= line.skip(1).push(t));
        } else {
            assert(line.push(t).skip(1) =~= Seq::empty());
            assert(self.first_in(Seq::empty(), n) is None);
        }
    }

    /// Counts the variables of a type that a builder may set.
    pub fn count_settable_vars(&self, t: usize) -> (r: usize)
        requires
            self.wf(),
            t < self.types@.len(),
        ensures
            r == self.settable_names(t as int).len(),
    {
        let vars = self.collect_vars(t);
        proof {
            vars.names_hold();
            assert(vars@.dom() =~= Set::new(|n: Seq<char>| self.settable_view(t as int, n) is Some));
        }
        vars.len()
    }

    /// The names of the variables of a type that a builder may set, in order.
    pub open spec fn settable_names(&self, t: int) -> Seq<Seq<char>> {
        crate::names::sorted_names(Set::new(|n: Seq<char>| self.settable_view(t, n) is Some))
    }

    /// The text of a variable through a line of types: the first type that gives it a string or
    /// a file decides; a `null` ends the search.
    pub open spec fn text_in(&self, line: Seq<int>, name: Seq<char>) -> Option<Seq<char>>
        decreases line.len(),
    {
        if line.len() == 0 {
            None
        } else {
            match own_var(self.own(line[0]), name) {
                Some(v) => match v.constant {
                    Some(c) => match c.kind {
                        ConstantKindView::Str(s) => Some(s),
                        ConstantKindView::Resource(s) => Some(s),
                        ConstantKindView::Null => None,
                        _ => self.text_in(line.skip(1), name),
                    },
                    None => self.text_in(line.skip(1), name),
                },
                None => self.text_in(line.skip(1), name),
            }
        }
    }

    /// The text of a variable of a type.
    pub open spec fn text_var(&self, t: int, name: Seq<char>) -> Option<Seq<char>> {
        self.text_in(self.lineage(t), name)
    }

    /// Resolves a string variable of a type through the types that it inherits from.
    pub fn resolve_var_string(&self, t: usize, var_name: &str) -> (r: Option<String>)
        requires
            self.wf(),
            t < self.types@.len(),
        ensures
            crate::prefab::opt_text(r) == self.text_var(t as int, var_name@),
    {
        let mut current: usize = t;
        loop
            invariant
                self.wf(),
                current < self.types@.len(),
                self.text_in(self.lineage(current as int), var_name@) == self.text_var(t as int, var_name@),
            decreases self.types@[current as int].level,
        {
            let ghost line = self.lineage(current as int);
            if let Some(v) = find_own(&self.types[current].vars, var_name) {
                if let Some(c) = &v.constant {
                    match &c.kind {
                        ConstantKind::Str(s) => {
                            return Some(s.clone());
                        },
                        ConstantKind::Resource(s) => {
                            return Some(s.clone());
                        },
                        ConstantKind::Null => {
                            return None;
                        },
                        _ => {},
                    }
                }
            }
            match self.types[current].parent {
                Some(p) => {
                    assert(line.skip(1) =~= self.lineage(p as int));
                    current = p;
                },
                None => {
                    assert(self.text_in(line.skip(1), var_name@) is None);
                    return None;
                },
            }
        }
    }
}

proof fn lemma_lineage_nonempty(tree: &ObjectTree, t: int)
    ensures
        tree.lineage(t).len() > 0,
{
}

proof fn lemma_own_push(vars: Seq<TypeVarView>, v: TypeVarView, n: Seq<char>)
    ensures
        own_var(vars.push(v), n) == (match own_var(vars, n) {
            Some(w) => Some(w),
            None => if n == v.name { Some(v) } else { None },
        }),
    decreases vars.len(),
{
    if vars.len() > 0 {
        lemma_own_push(vars.skip(1), v, n);
        assert(vars.push(v).skip(1) =~= vars.skip(1).push(v));
    } else {
        assert(vars.push(v).skip(1) =~= Seq::empty());
        assert(own_var(Seq::<TypeVarView>::empty(), n) is None);
    }
}

} // verus!
