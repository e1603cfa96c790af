//! The order of the prefabs on a tile, and the text by which tile contents are told apart.

use crate::counting::tally;
use crate::names::{sorted_names, NameTable};
use crate::prefab::{
    prefab_views, var_of, var_of_has_entry, var_of_finds, var_views, Constant, ConstantView, Prefab, PrefabIdent,
    PrefabView,
};
use crate::text::{has_prefix, starts_with};
use vstd::prelude::*;

verus! {

// ── Layers ───────────────────────────────────────────────────────────

/// The layer of a path in the order of a map file: objects, mobs, the turf, the area, then
/// anything else.
pub open spec fn layer(path: Seq<char>) -> u8 {
    if starts_with(path, "/obj"@) {
        0
    } else if starts_with(path, "/mob"@) {
        1
    } else if starts_with(path, "/turf"@) {
        2
    } else if starts_with(path, "/area"@) {
        3
    } else {
        4
    }
}

/// The layer of a path in the order of a map file. A lower number comes earlier.
pub fn layer_priority(path: &str) -> (r: u8)
    ensures
        r == layer(path@),
{
    if has_prefix(path, "/obj") {
        0
    } else if has_prefix(path, "/mob") {
        1
    } else if has_prefix(path, "/turf") {
        2
    } else if has_prefix(path, "/area") {
        3
    } else {
        4
    }
}

/// Whether a tile holds only one of a kind: turfs and areas.
pub open spec fn single(path: Seq<char>) -> bool {
    starts_with(path, "/turf"@) || starts_with(path, "/area"@)
}

/// The place of a new prefab in a list: before the first of a later layer.
pub open spec fn layer_place(list: Seq<PrefabView>, path: Seq<char>) -> int
    decreases list.len(),
{
    if list.len() == 0 {
        0
    } else if layer(path) < layer(list[0].path) {
        0
    } else {
        1 + layer_place(list.skip(1), path)
    }
}

/// The prefabs of a list that are not of the given layer.
pub open spec fn off_layer(l: u8) -> spec_fn(PrefabView) -> bool {
    |p: PrefabView| layer(p.path) != l
}

/// The prefabs of a list that are of the given layer.
pub open spec fn on_layer(l: u8) -> spec_fn(PrefabView) -> bool {
    |p: PrefabView| layer(p.path) == l
}

/// What has to make way for a prefab: the turf for a turf, the area for an area.
pub open spec fn displaced(list: Seq<PrefabView>, path: Seq<char>) -> Seq<PrefabView> {
    if single(path) {
        list.filter(on_layer(layer(path)))
    } else {
        Seq::empty()
    }
}

/// What stays when a prefab is placed.
pub open spec fn kept(list: Seq<PrefabView>, path: Seq<char>) -> Seq<PrefabView> {
    if single(path) {
        list.filter(off_layer(layer(path)))
    } else {
        list
    }
}

/// A tile's prefabs after placing one more.
pub open spec fn with_placed(list: Seq<PrefabView>, p: PrefabView) -> Seq<PrefabView> {
    let base = kept(list, p.path);
    base.insert(layer_place(base, p.path), p)
}

/// A list is in layer order.
pub open spec fn layered(list: Seq<PrefabView>) -> bool {
    forall|i: int, j: int| 0 <= i < j < list.len() ==> layer((#[trigger] list[i]).path) <= layer((#[trigger] list[j]).path)
}

/// `layer_place` is the first place whose prefab is of a later layer.
pub proof fn layer_place_is_first(list: Seq<PrefabView>, path: Seq<char>)
    ensures
        0 <= layer_place(list, path) <= list.len(),
        forall|i: int| 0 <= i < layer_place(list, path) ==> layer((#[trigger] list[i]).path) <= layer(path),
        layer_place(list, path) < list.len() ==> layer(path) < layer(list[layer_place(list, path)].path),
    decreases list.len(),
{
    if list.len() > 0 && layer(path) >= layer(list[0].path) {
        let rest = list.skip(1);
        layer_place_is_first(rest, path);
        assert forall|i: int| 0 <= i < layer_place(list, path) implies layer((#[trigger] list[i]).path) <= layer(path) by {
            if i > 0 {
                assert(rest[i - 1] == list[i]);
            }
        }
    }
}

/// Finds the place of a new prefab that keeps a list in layer order.
pub fn find_layer_position(prefabs: &Vec<Prefab>, path: &str) -> (r: usize)
    ensures
        r == layer_place(prefab_views(prefabs@), path@),
        r <= prefabs@.len(),
{
    let new_priority: u8 = layer_priority(path);
    let ghost list = prefab_views(prefabs@);
    let mut i: usize = 0;
    assert(list.skip(0) =~= list);
    while i < prefabs.len()
        invariant
            i <= prefabs@.len(),
            list == prefab_views(prefabs@),
            new_priority == layer(path@),
            layer_place(list, path@) == i + layer_place(list.skip(i as int), path@),
        decreases prefabs@.len() - i,
    {
        assert(list.skip(i as int)[0] == prefabs@[i as int]@);
        if new_priority < layer_priority(prefabs[i].path.as_str()) {
            return i;
        }
        assert(list.skip(i as int).skip(1) =~= list.skip(i + 1));
        i = i + 1;
    }
    i
}

/// Placing a prefab on a tile in layer order leaves the tile in layer order.
pub proof fn placing_keeps_layer_order(list: Seq<PrefabView>, p: PrefabView)
    requires
        layered(list),
    ensures
        layered(with_placed(list, p)),
{
    let base = kept(list, p.path);
    if single(p.path) {
        lemma_filter_layered(list, off_layer(layer(p.path)));
    }
    layer_place_is_first(base, p.path);
    let at = layer_place(base, p.path);
    let out = with_placed(list, p);
    assert forall|i: int, j: int| 0 <= i < j < out.len() implies layer((#[trigger] out[i]).path) <= layer((#[trigger] out[j]).path) by {
        let bi = if i < at { i } else { i - 1 };
        let bj = if j < at { j } else { j - 1 };
        if i == at {
            assert(layer(base[at].path) > layer(p.path));
            if bj > at {
                assert(layer(base[at].path) <= layer(base[bj].path));
            }
        } else if j == at {
            assert(layer(base[bi].path) <= layer(p.path));
        } else {
            assert(layer(base[bi].path) <= layer(base[bj].path));
        }
    }
}

proof fn lemma_filter_layered(list: Seq<PrefabView>, f: spec_fn(PrefabView) -> bool)
    requires
        layered(list),
    ensures
        layered(list.filter(f)),
        list.len() > 0 ==> forall|i: int| 0 <= i < list.filter(f).len() ==> layer((#[trigger] list.filter(f)[i]).path)
            <= layer(list.last().path),
    decreases list.len(),
{
    reveal(Seq::filter);
    if list.len() > 0 {
        let front = list.drop_last();
        assert forall|i: int, j: int| 0 <= i < j < front.len() implies layer((#[trigger] front[i]).path) <= layer(
            (#[trigger] front[j]).path,
        ) by {
            assert(front[i] == list[i] && front[j] == list[j]);
        }
        lemma_filter_layered(front, f);
        if front.len() > 0 {
            assert(layer(front.last().path) <= layer(list.last().path)) by {
                assert(front.last() == list[list.len() - 2]);
                assert(layer(list[list.len() - 2].path) <= layer(list[list.len() - 1].path));
            }
        } else {
            assert(front.filter(f).len() == 0);
        }
    }
}

/// After a turf is placed the tile holds exactly one turf, and after an area is placed exactly
/// one area: the one that was placed.
pub proof fn placing_leaves_one_of_the_layer(list: Seq<PrefabView>, p: PrefabView)
    requires
        single(p.path),
    ensures
        tally(with_placed(list, p), on_layer(layer(p.path))) == 1,
        with_placed(list, p).contains(p),
{
    let l = layer(p.path);
    let base = kept(list, p.path);
    lemma_filter_complement(list, l);
    layer_place_is_first(base, p.path);
    let at = layer_place(base, p.path);
    crate::counting::tally_insert(base, at, p, on_layer(l));
    assert(with_placed(list, p)[at] == p);
}

proof fn lemma_filter_complement(list: Seq<PrefabView>, l: u8)
    ensures
        tally(list.filter(off_layer(l)), on_layer(l)) == 0,
    decreases list.len(),
{
    reveal(Seq::filter);
    if list.len() > 0 {
        lemma_filter_complement(list.drop_last(), l);
        if off_layer(l)(list.last()) {
            crate::counting::tally_push(list.drop_last().filter(off_layer(l)), list.last(), on_layer(l));
        }
    }
}

// ── Fingerprints ─────────────────────────────────────────────────────

/// The variables of a prefab as its fingerprint lists them.
pub open spec fn vars_print(names: Seq<Seq<char>>, vars: Map<Seq<char>, ConstantView>) -> Seq<char>
    decreases names.len(),
{
    if names.len() == 0 {
        Seq::empty()
    } else {
        vars_print(names.drop_last(), vars) + names.last() + "="@ + vars[names.last()].text + ";"@
    }
}

/// One prefab in a fingerprint: the path, the variables by name in braces if there are any, and
/// a unit separator.
pub open spec fn prefab_print(p: PrefabIdent) -> Seq<char> {
    let names = sorted_names(p.vars.dom());
    if names.len() == 0 {
        p.path + "\u{1F}"@
    } else {
        p.path + "{"@ + vars_print(names, p.vars) + "}"@ + "\u{1F}"@
    }
}

/// The fingerprint of a list of prefabs. Tiles with the same fingerprint share a key.
pub open spec fn fingerprint(list: Seq<PrefabView>) -> Seq<char>
    decreases list.len(),
{
    if list.len() == 0 {
        Seq::empty()
    } else {
        fingerprint(list.drop_last()) + prefab_print(list.last().ident())
    }
}

/// The variables of a prefab by name.
fn vars_by_name(vars: &Vec<(String, Constant)>) -> (r: NameTable<Constant>)
    ensures
        r.wf(),
        forall|n: Seq<char>| #[trigger] r@.contains_key(n) <==> var_of(var_views(vars@), n) is Some,
        forall|n: Seq<char>| r@.contains_key(n) ==> #[trigger] r@[n]@ == var_of(var_views(vars@), n).unwrap(),
{
    let ghost all = var_views(vars@);
    let mut out: NameTable<Constant> = NameTable::new();
    let mut i: usize = 0;
    while i < vars.len()
        invariant
            i <= vars@.len(),
            all == var_views(vars@),
            out.wf(),
            forall|n: Seq<char>| #[trigger] out@.contains_key(n) <==> exists|j: int| 0 <= j < i && (#[trigger] all[j]).0 == n,
            forall|n: Seq<char>| #[trigger] out@.contains_key(n) ==> var_of(all, n) == Some(out@[n]@),
        decreases vars@.len() - i,
    {
        let e = &vars[i];
        let ghost before = out@;
        let ghost name = e.0@;
        assert(all[i as int].0 == name);
        let known = match out.get(e.0.as_str()) {
            Some(_) => true,
            None => false,
        };
        if !known {
            proof {
                assert forall|j: int| 0 <= j < i implies all[j].0 != name by {
                    if all[j].0 == name {
                        assert(before.contains_key(name));
                    }
                }
                var_of_finds(all, name, i as int);
            }
            let c = e.1.clone();
            out.insert(e.0.clone(), c);
            assert(out@[name] == c);
            assert(all[i as int].1 == c@);
        }
        assert forall|n: Seq<char>| #[trigger] out@.contains_key(n) implies var_of(all, n) == Some(out@[n]@) by {
            assert(before.contains_key(n) || n == name);
        }
        assert forall|n: Seq<char>| #[trigger] out@.contains_key(n) <==> exists|j: int| 0 <= j < i + 1 && (#[trigger] all[j]).0 == n by {
            assert(before.contains_key(n) == (exists|j: int| 0 <= j < i && (#[trigger] all[j]).0 == n));
            if n == name {
                assert(all[i as int].0 == n);
            }
        }
        i = i + 1;
    }
    assert forall|n: Seq<char>| #[trigger] out@.contains_key(n) <==> var_of(all, n) is Some by {
        if var_of(all, n) is Some {
            let k = var_of_has_entry(all, n);
            assert(all[k].0 == n);
        }
    }
    out
}

/// Writes one prefab as a fingerprint has it.
fn print_prefab(p: &Prefab) -> (r: String)
    ensures
        r@ == prefab_print(p@.ident()),
{
    let table = vars_by_name(&p.vars);
    let ghost id = p@.ident();
    let ghost names = sorted_names(id.vars.dom());
    proof {
        assert(table@.dom() =~= id.vars.dom());
        table.names_hold();
        assert(table.names() == names);
    }
    let mut out = p.path.clone();
    if table.len() == 0 {
        out.append("\u{1F}");
        return out;
    }
    let mut inner = String::new();
    let mut i: usize = 0;
    while i < table.len()
        invariant
            i <= names.len(),
            table.wf(),
            table.names() == names,
            id == p@.ident(),
            forall|n: Seq<char>| table@.contains_key(n) ==> #[trigger] table@[n]@ == var_of(p@.vars, n).unwrap(),
            forall|n: Seq<char>| #[trigger] table@.contains_key(n) <==> var_of(p@.vars, n) is Some,
            inner@ == vars_print(names.take(i as int), id.vars),
        decreases names.len() - i,
    {
        let c = table.value_at(i);
        assert(names.take(i + 1).drop_last() =~= names.take(i as int));
        assert(id.vars[names[i as int]] == c@);
        inner.append(table.name_at(i));
        inner.append("=");
        inner.append(c.text.as_str());
        inner.append(";");
        i = i + 1;
    }
    assert(names.take(i as int) =~= names);
    out.append("{");
    out.append(inner.as_str());
    out.append("}");
    out.append("\u{1F}");
    out
}

/// Builds the fingerprint of a list of prefabs.
pub fn fingerprint_prefabs(prefabs: &Vec<Prefab>) -> (r: String)
    ensures
        r@ == fingerprint(prefab_views(prefabs@)),
{
    let ghost list = prefab_views(prefabs@);
    let mut out = String::new();
    let mut i: usize = 0;
    while i < prefabs.len()
        invariant
            i <= prefabs@.len(),
            list == prefab_views(prefabs@),
            out@ == fingerprint(list.take(i as int)),
        decreases prefabs@.len() - i,
    {
        let one = print_prefab(&prefabs[i]);
        assert(list.take(i + 1).drop_last() =~= list.take(i as int));
        out.append(one.as_str());
        i = i + 1;
    }
    assert(list.take(i as int) =~= list);
    out
}

/// The order in which a prefab's variables were written does not show in the fingerprint.
pub proof fn variable_order_does_not_matter(a: Seq<PrefabView>, b: Seq<PrefabView>)
    requires
        crate::prefab::idents(a) == crate::prefab::idents(b),
    ensures
        fingerprint(a) == fingerprint(b),
    decreases a.len(),
{
    let ia = crate::prefab::idents(a);
    let ib = crate::prefab::idents(b);
    assert(ia.len() == a.len() && ib.len() == b.len());
    if a.len() > 0 {
        assert(ia.last() == a.last().ident());
        assert(ib.last() == b.last().ident());
        assert(crate::prefab::idents(a.drop_last()) =~= ia.drop_last());
        assert(crate::prefab::idents(b.drop_last()) =~= ib.drop_last());
        variable_order_does_not_matter(a.drop_last(), b.drop_last());
    }
}

/// Whether a prefab can be told from its neighbours in a fingerprint: what is written between
/// prefabs and before variables does not occur where it would be mistaken for that.
pub open spec fn plain(p: PrefabView) -> bool {
    let vars = p.ident().vars;
    &&& !p.path.contains('{')
    &&& !p.path.contains('\u{1F}')
    &&& !vars_print(sorted_names(vars.dom()), vars).contains('\u{1F}')
}

/// Whether all prefabs of a list are plain.
pub open spec fn all_plain(list: Seq<PrefabView>) -> bool {
    forall|i: int| 0 <= i < list.len() ==> plain(#[trigger] list[i])
}

/// The paths of a list of prefabs, in their order.
pub open spec fn paths(list: Seq<PrefabView>) -> Seq<Seq<char>> {
    list.map_values(|p: PrefabView| p.path)
}

spec fn print_body(p: PrefabIdent) -> Seq<char> {
    let names = sorted_names(p.vars.dom());
    if names.len() == 0 {
        p.path
    } else {
        p.path + "{"@ + vars_print(names, p.vars) + "}"@
    }
}

proof fn lemma_print_body(p: PrefabView)
    requires
        plain(p),
    ensures
        prefab_print(p.ident()) == print_body(p.ident()).push('\u{1F}'),
        !print_body(p.ident()).contains('\u{1F}'),
{
    reveal_strlit("\u{1F}");
    reveal_strlit("{");
    reveal_strlit("}");
    let id = p.ident();
    let body = print_body(id);
    assert(prefab_print(id) =~= body.push('\u{1F}'));
    let names = sorted_names(id.vars.dom());
    if body.contains('\u{1F}') {
        let k = choose|k: int| 0 <= k < body.len() && body[k] == '\u{1F}';
        if k < p.path.len() {
            assert(p.path[k] == '\u{1F}');
        } else {
            let inner = vars_print(names, id.vars);
            if p.path.len() < k < body.len() - 1 {
                assert(inner[k - p.path.len() - 1] == '\u{1F}');
            }
        }
    }
}

proof fn lemma_body_tells_path(a: PrefabView, b: PrefabView)
    requires
        plain(a),
        plain(b),
        print_body(a.ident()) == print_body(b.ident()),
    ensures
        a.path == b.path,
{
    reveal_strlit("{");
    reveal_strlit("}");
    let x = print_body(a.ident());
    let na = sorted_names(a.ident().vars.dom()).len();
    let nb = sorted_names(b.ident().vars.dom()).len();
    assert(na > 0 ==> x[a.path.len() as int] == '{' && x.len() > a.path.len());
    assert(nb > 0 ==> x[b.path.len() as int] == '{' && x.len() > b.path.len());
    assert(na > 0 && a.path.len() < b.path.len() ==> b.path[a.path.len() as int] == '{');
    assert(nb > 0 && b.path.len() < a.path.len() ==> a.path[b.path.len() as int] == '{');
    assert(a.path =~= x.take(a.path.len() as int));
    assert(b.path =~= x.take(b.path.len() as int));
    assert(a.path.len() == b.path.len());
}

proof fn lemma_ends_in_separator(list: Seq<PrefabView>)
    requires
        list.len() > 0,
    ensures
        fingerprint(list).len() > 0,
        fingerprint(list).last() == '\u{1F}',
{
    reveal_strlit("\u{1F}");
}

/// Lists with the same fingerprint hold the same paths in the same order.
pub proof fn fingerprints_tell_paths(a: Seq<PrefabView>, b: Seq<PrefabView>)
    requires
        all_plain(a),
        all_plain(b),
        fingerprint(a) == fingerprint(b),
    ensures
        paths(a) == paths(b),
    decreases a.len(),
{
    if a.len() == 0 {
        if b.len() > 0 {
            lemma_ends_in_separator(b);
        }
    } else if b.len() == 0 {
        lemma_ends_in_separator(a);
    } else {
        let f = fingerprint(a);
        let (fa, fb) = (fingerprint(a.drop_last()), fingerprint(b.drop_last()));
        assert(plain(a[a.len() - 1]) && plain(b[b.len() - 1]));
        lemma_print_body(a.last());
        lemma_print_body(b.last());
        let (ba, bb) = (print_body(a.last().ident()), print_body(b.last().ident()));
        assert(f =~= fa + ba.push('\u{1F}'));
        assert(f =~= fb + bb.push('\u{1F}'));
        if fa.len() < fb.len() {
            if b.drop_last().len() > 0 {
                lemma_ends_in_separator(b.drop_last());
            }
            assert(f[fb.len() - 1] == '\u{1F}');
            assert(ba[fb.len() - 1 - fa.len()] == '\u{1F}');
            assert(ba.contains('\u{1F}'));
        }
        if fb.len() < fa.len() {
            if a.drop_last().len() > 0 {
                lemma_ends_in_separator(a.drop_last());
            }
            assert(f[fa.len() - 1] == '\u{1F}');
            assert(bb[fa.len() - 1 - fb.len()] == '\u{1F}');
            assert(bb.contains('\u{1F}'));
        }
        assert(fa =~= f.take(fa.len() as int));
        assert(fb =~= f.take(fb.len() as int));
        assert(ba =~= f.subrange(fa.len() as int, f.len() - 1));
        assert(bb =~= f.subrange(fb.len() as int, f.len() - 1));
        lemma_body_tells_path(a.last(), b.last());
        fingerprints_tell_paths(a.drop_last(), b.drop_last());
        assert(paths(a) =~= paths(a.drop_last()).push(a.last().path));
        assert(paths(b) =~= paths(b.drop_last()).push(b.last().path));
    }
    assert(paths(a) =~= paths(b));
}

} // verus!
