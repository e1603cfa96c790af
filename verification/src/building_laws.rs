//! What holds of prefabs that are built: what their variables read as, and where the defaults
//! come from.

use crate::names::NameTable;
use crate::objtree::{own_child, own_var, settable, ObjectTree, TypeVarView};
use crate::prefab::{var_of, var_of_finds, var_of_misses, Constant, ConstantView, PrefabView};
use crate::state::{built_or_plain, kept_overrides};
use crate::text::starts_with;
use vstd::prelude::*;

verus! {

// ── Inheritance ──────────────────────────────────────────────────────

/// A variable that a type gives itself is its own, whatever it inherits; one that it does not
/// give itself is that of the type it inherits from; a type that inherits from none has no
/// other.
pub proof fn own_variables_come_first(tree: &ObjectTree, t: int, name: Seq<char>)
    requires
        tree.wf(),
        0 <= t < tree.types@.len(),
    ensures
        match own_var(tree.own(t), name) {
            Some(v) => tree.nearest(t, name) == Some((t, v)) && tree.default_value(t, name) == v.constant,
            None => match tree.types@[t].parent {
                Some(p) => tree.nearest(t, name) == tree.nearest(p as int, name) && tree.default_value(t, name)
                    == tree.default_value(p as int, name),
                None => tree.nearest(t, name) is None && tree.default_value(t, name) is None,
            },
        },
{
    let line = tree.lineage(t);
    match tree.types@[t].parent {
        Some(p) => {
            assert(line.skip(1) =~= tree.lineage(p as int));
        },
        None => {
            assert(tree.first_in(line.skip(1), name) is None);
        },
    }
}

/// The declared type of a variable is that of the nearest type that declares it: an assignment
/// alone does not change it.
pub proof fn declarations_are_inherited(tree: &ObjectTree, t: int, name: Seq<char>)
    requires
        tree.wf(),
        0 <= t < tree.types@.len(),
    ensures
        match own_var(tree.own(t), name) {
            Some(v) if v.declared is Some => tree.declared_type(t, name) == v.declared,
            _ => match tree.types@[t].parent {
                Some(p) => tree.declared_type(t, name) == tree.declared_type(p as int, name),
                None => tree.declared_type(t, name) is None,
            },
        },
{
    let line = tree.lineage(t);
    match tree.types@[t].parent {
        Some(p) => {
            assert(line.skip(1) =~= tree.lineage(p as int));
        },
        None => {
            assert(tree.first_declared_in(line.skip(1), name) is None);
        },
    }
}

/// The variable of a name is one with that name, and there is one exactly where some variable of
/// the list has the name.
pub proof fn a_variable_has_its_name(vars: Seq<TypeVarView>, name: Seq<char>)
    ensures
        match own_var(vars, name) {
            Some(v) => v.name == name && vars.contains(v),
            None => forall|i: int| 0 <= i < vars.len() ==> (#[trigger] vars[i]).name != name,
        },
    decreases vars.len(),
{
    if vars.len() > 0 {
        let rest = vars.skip(1);
        a_variable_has_its_name(rest, name);
        if vars[0].name != name {
            match own_var(rest, name) {
                Some(v) => {
                    let i = choose|i: int| 0 <= i < rest.len() && rest[i] == v;
                    assert(vars[i + 1] == v);
                },
                None => {
                    assert forall|i: int| 0 <= i < vars.len() implies (#[trigger] vars[i]).name != name by {
                        if i > 0 {
                            assert(rest[i - 1] == vars[i]);
                        }
                    }
                },
            }
        }
    }
}

/// A path leads from a type to its child of the name of the first component, and on from there;
/// components without characters lead nowhere else.
pub proof fn a_path_goes_down_child_by_child(tree: &ObjectTree, t: int, part: Seq<char>, rest: Seq<Seq<char>>)
    ensures
        part.len() == 0 ==> tree.descend(t, seq![part] + rest) == tree.descend(t, rest),
        part.len() > 0 ==> tree.descend(t, seq![part] + rest) == (match own_child(tree.types@[t].children@, part) {
            Some(c) => tree.descend(c, rest),
            None => None,
        }),
        tree.descend(t, Seq::empty()) == Some(t),
{
    assert((seq![part] + rest).skip(1) =~= rest);
    assert((seq![part] + rest)[0] == part);
}

/// A builder may set any variable but `type`, `parent_type`, `tag` and those whose name begins
/// with two underscores; it sees the default that the type has, and the type that gives it.
pub proof fn inner_variables_are_not_settable(tree: &ObjectTree, t: int, name: Seq<char>)
    ensures
        !settable("type"@),
        !settable("parent_type"@),
        !settable("tag"@),
        starts_with(name, "__"@) ==> !settable(name),
        name != "type"@ && name != "parent_type"@ && name != "tag"@ && !starts_with(name, "__"@) ==> settable(name),
        !settable(name) ==> tree.settable_view(t, name) is None,
        settable(name) ==> (tree.settable_view(t, name) is Some <==> tree.nearest(t, name) is Some),
        match tree.settable_view(t, name) {
            Some(v) => {
                &&& v.default == tree.default_value(t, name)
                &&& v.declared_on == tree.types@[tree.nearest(t, name).unwrap().0].path@
            },
            None => true,
        },
{
}

// ── Prefabs ──────────────────────────────────────────────────────────

proof fn lemma_kept(tree: &ObjectTree, t: Option<int>, names: Seq<Seq<char>>, vars: Map<Seq<char>, Constant>)
    ensures
        ({
            let kept = kept_overrides(tree, t, names, vars);
            &&& forall|i: int|
                0 <= i < kept.len() ==> {
                    let e = #[trigger] kept[i];
                    &&& names.contains(e.0)
                    &&& e.1 == vars[e.0]@
                    &&& match t {
                        Some(t) => match tree.default_value(t, e.0) {
                            Some(d) => e.1.text != d.text,
                            None => !(e.1.kind is Null),
                        },
                        None => true,
                    }
                }
            &&& forall|i: int|
                0 <= i < names.len() && (match t {
                    Some(t) => match tree.default_value(t, #[trigger] names[i]) {
                        Some(d) => vars[names[i]]@.text != d.text,
                        None => !(vars[names[i]]@.kind is Null),
                    },
                    None => true,
                }) ==> kept.contains((names[i], vars[names[i]]@))
        }),
    decreases names.len(),
{
    let kept = kept_overrides(tree, t, names, vars);
    if names.len() > 0 {
        let front = names.drop_last();
        let before = kept_overrides(tree, t, front, vars);
        lemma_kept(tree, t, front, vars);
        assert(names[names.len() - 1] == names.last());
        assert forall|i: int| 0 <= i < kept.len() implies {
            let e = #[trigger] kept[i];
            &&& names.contains(e.0)
            &&& e.1 == vars[e.0]@
            &&& match t {
                Some(t) => match tree.default_value(t, e.0) {
                    Some(d) => e.1.text != d.text,
                    None => !(e.1.kind is Null),
                },
                None => true,
            }
        } by {
            if i < before.len() {
                let e = before[i];
                assert(kept[i] == e);
                let j = choose|j: int| 0 <= j < front.len() && front[j] == e.0;
                assert(names[j] == e.0);
            }
        }
        assert forall|i: int|
            0 <= i < names.len() && (match t {
                Some(t) => match tree.default_value(t, #[trigger] names[i]) {
                    Some(d) => vars[names[i]]@.text != d.text,
                    None => !(vars[names[i]]@.kind is Null),
                },
                None => true,
            }) implies kept.contains((names[i], vars[names[i]]@)) by {
            let e = (names[i], vars[names[i]]@);
            if i < front.len() {
                assert(front[i] == names[i]);
                let j = choose|j: int| 0 <= j < before.len() && before[j] == e;
                assert(kept[j] == e);
            } else {
                assert(kept[before.len() as int] == e);
            }
        }
    }
}

/// What a variable of a prefab reads as: the override, or else the default of the type.
pub open spec fn reads_as(tree: &ObjectTree, p: PrefabView, name: Seq<char>) -> Option<ConstantView> {
    match var_of(p.vars, name) {
        Some(c) => Some(c),
        None => match tree.type_at(p.path) {
            Some(t) => tree.default_value(t, name),
            None => None,
        },
    }
}

/// The variables of a built prefab read as they were given. An override whose text differs from
/// the default is among them with exactly the value given, one that reads like the default is
/// not, and where there is no default all but `null` are; a variable that was not given is not
/// overridden. The prefab has the path that was asked for.
pub proof fn a_built_prefab_reads_as_given(tree: &ObjectTree, type_path: Seq<char>, vars: NameTable<Constant>, name: Seq<char>)
    requires
        vars.wf(),
    ensures
        ({
            let p = built_or_plain(tree, type_path, Some(vars));
            let c = vars@[name]@;
            &&& p.path == type_path
            &&& !vars@.contains_key(name) ==> var_of(p.vars, name) is None
            &&& vars@.contains_key(name) ==> {
                &&& match tree.type_at(type_path) {
                    Some(t) => match tree.default_value(t, name) {
                        Some(d) => {
                            &&& c.text != d.text ==> var_of(p.vars, name) == Some(c)
                            &&& c.text == d.text ==> var_of(p.vars, name) is None
                        },
                        None => {
                            &&& !(c.kind is Null) ==> var_of(p.vars, name) == Some(c)
                            &&& c.kind is Null ==> var_of(p.vars, name) is None
                        },
                    },
                    None => var_of(p.vars, name) == Some(c),
                }
                &&& match reads_as(tree, p, name) {
                    Some(v) => v.text == c.text,
                    None => c.kind is Null,
                }
            }
        }),
{
    let p = built_or_plain(tree, type_path, Some(vars));
    let t = tree.type_at(type_path);
    let names = vars.names();
    let kept = p.vars;
    vars.names_hold();
    lemma_kept(tree, t, names, vars@);
    let c = vars@[name]@;
    if exists|i: int| 0 <= i < kept.len() && (#[trigger] kept[i]).0 == name {
        let i = choose|i: int| 0 <= i < kept.len() && (#[trigger] kept[i]).0 == name;
        assert(names.contains(kept[i].0));
        assert(names.to_set().contains(name));
        lemma_first_of(kept, name, i);
        assert(var_of(kept, name) == Some(c));
    } else {
        var_of_misses(kept, name);
        if vars@.contains_key(name) {
            assert(names.to_set().contains(name));
            let i = choose|i: int| 0 <= i < names.len() && names[i] == name;
            assert(names[i] == name);
            if kept.contains((name, c)) {
                let j = choose|j: int| 0 <= j < kept.len() && kept[j] == (name, c);
                assert(kept[j].0 == name);
            }
        }
    }
}

proof fn lemma_first_of(kept: Seq<(Seq<char>, ConstantView)>, name: Seq<char>, i: int)
    requires
        0 <= i < kept.len(),
        kept[i].0 == name,
        forall|j: int| 0 <= j < kept.len() && (#[trigger] kept[j]).0 == name ==> kept[j].1 == kept[i].1,
    ensures
        var_of(kept, name) == Some(kept[i].1),
    decreases i,
{
    if forall|j: int| 0 <= j < i ==> (#[trigger] kept[j]).0 != name {
        var_of_finds(kept, name, i);
    } else {
        let j = choose|j: int| 0 <= j < i && (#[trigger] kept[j]).0 == name;
        lemma_first_of(kept, name, j);
    }
}

/// Without overrides a built prefab has none.
pub proof fn a_plain_prefab_overrides_nothing(tree: &ObjectTree, type_path: Seq<char>, name: Seq<char>)
    ensures
        ({
            let p = built_or_plain(tree, type_path, None);
            &&& p.path == type_path
            &&& p.vars.len() == 0
            &&& var_of(p.vars, name) is None
        }),
{
}

} // verus!
