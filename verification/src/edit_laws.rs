//! What holds of editing: where tiles are, in which order a tile holds its prefabs, what makes way
//! for what, and what tells the contents of tiles apart.

use crate::dmm::{on_map, position_of, raw_of};
use crate::index_laws::has_path;
use crate::layers::{
    displaced, fingerprint, kept, layer, layer_place, layer_place_is_first, plain, prefab_print, single, vars_print,
    with_placed,
};
use crate::names::{names_can_be_sorted, sorted_names};
use crate::prefab::{var_of, ConstantView, PrefabView};
use crate::state::{cleared, is_turf, out_of_bounds, path_place};
use crate::text::{dec, starts_with};
use vstd::prelude::*;

verus! {

// ── Positions ────────────────────────────────────────────────────────

/// A step east is one column on, a step north is one row up, which counts backwards in the grid,
/// and a step up is one level on. The first position of a map is in the last row of its first
/// level.
pub proof fn steps_on_the_grid(x: int, y: int, z: int, dim_y: int)
    ensures
        raw_of(1, 1, 1, dim_y) == (0int, dim_y - 1, 0int),
        raw_of(1, dim_y, 1, dim_y) == (0int, 0int, 0int),
        ({
            let here = raw_of(x, y, z, dim_y);
            &&& raw_of(x + 1, y, z, dim_y) == (here.0, here.1, here.2 + 1)
            &&& raw_of(x, y + 1, z, dim_y) == (here.0, here.1 - 1, here.2)
            &&& raw_of(x, y, z + 1, dim_y) == (here.0 + 1, here.1, here.2)
            &&& position_of(here, dim_y) == (x, y, z)
        }),
{
}

/// A position that is off the map is refused with the position and the extent, both as columns,
/// rows and levels.
pub proof fn a_refusal_names_the_position(x: i32, y: i32, z: i32, columns: usize, rows: usize, levels: usize)
    ensures
        out_of_bounds(x, y, z, (levels, rows, columns)) == "Coordinates ("@ + dec(x as int) + ","@ + dec(y as int) + ","@ + dec(
            z as int,
        ) + ") out of bounds ("@ + dec(columns as int) + "x"@ + dec(rows as int) + "x"@ + dec(levels as int) + ")"@,
        on_map(x as int, y as int, z as int, (levels, rows, columns)) <==> 1 <= x <= columns && 1 <= y <= rows && 1 <= z
            <= levels,
{
}

// ── Layers ───────────────────────────────────────────────────────────

proof fn lemma_heads_differ(path: Seq<char>)
    ensures
        starts_with(path, "/obj"@) ==> path.len() >= 4 && path[1] == 'o',
        starts_with(path, "/mob"@) ==> path.len() >= 4 && path[1] == 'm',
        starts_with(path, "/turf"@) ==> path.len() >= 5 && path[1] == 't',
        starts_with(path, "/area"@) ==> path.len() >= 5 && path[1] == 'a',
{
    reveal_strlit("/obj");
    reveal_strlit("/mob");
    reveal_strlit("/turf");
    reveal_strlit("/area");
    if starts_with(path, "/obj"@) {
        assert(path.take(4)[1] == path[1]);
    }
    if starts_with(path, "/mob"@) {
        assert(path.take(4)[1] == path[1]);
    }
    if starts_with(path, "/turf"@) {
        assert(path.take(5)[1] == path[1]);
    }
    if starts_with(path, "/area"@) {
        assert(path.take(5)[1] == path[1]);
    }
}

/// Objects come before mobs, mobs before turfs, turfs before areas, and areas before anything
/// else; paths of one of these sorts are of one layer. Only turfs and areas stand alone on a tile.
pub proof fn layers_come_in_order(a: Seq<char>, b: Seq<char>)
    ensures
        starts_with(a, "/obj"@) && starts_with(b, "/mob"@) ==> layer(a) < layer(b),
        starts_with(a, "/mob"@) && starts_with(b, "/turf"@) ==> layer(a) < layer(b),
        starts_with(a, "/turf"@) && starts_with(b, "/area"@) ==> layer(a) < layer(b),
        starts_with(a, "/area"@) && !starts_with(b, "/obj"@) && !starts_with(b, "/mob"@) && !starts_with(b, "/turf"@)
            && !starts_with(b, "/area"@) ==> layer(a) < layer(b),
        starts_with(a, "/obj"@) && starts_with(b, "/obj"@) ==> layer(a) == layer(b),
        starts_with(a, "/mob"@) && starts_with(b, "/mob"@) ==> layer(a) == layer(b),
        starts_with(a, "/turf"@) ==> (layer(a) == layer(b) <==> starts_with(b, "/turf"@)),
        starts_with(a, "/area"@) ==> (layer(a) == layer(b) <==> starts_with(b, "/area"@)),
        single(a) <==> starts_with(a, "/turf"@) || starts_with(a, "/area"@),
{
    lemma_heads_differ(a);
    lemma_heads_differ(b);
}

proof fn lemma_filters_agree<T>(s: Seq<T>, p: spec_fn(T) -> bool, q: spec_fn(T) -> bool)
    requires
        forall|x: T| #[trigger] p(x) == q(x),
    ensures
        s.filter(p) == s.filter(q),
    decreases s.len(),
{
    reveal(Seq::filter);
    if s.len() > 0 {
        lemma_filters_agree(s.drop_last(), p, q);
        assert(p(s.last()) == q(s.last()));
    }
}

/// Only what lies below `/turf` can be set as a turf, and whatever does is of the layer of turfs.
pub proof fn turfs_lie_below_turf(rest: Seq<char>, path: Seq<char>)
    ensures
        is_turf("/turf/"@ + rest),
        !is_turf("/turf"@),
        is_turf(path) ==> path.len() >= 6 && path.take(6) == "/turf/"@ && single(path),
{
    reveal_strlit("/turf/");
    reveal_strlit("/turf");
    assert(("/turf/"@ + rest).take(6) =~= "/turf/"@);
    if is_turf(path) {
        assert(path.take(5) =~= "/turf"@) by {
            assert forall|i: int| 0 <= i < 5 implies path[i] == "/turf"@[i] by {
                assert(path.take(6)[i] == path[i]);
            }
        }
    }
}

/// Placing a prefab puts it on the tile once, in front of everything of a later layer and behind
/// everything else, and leaves the rest of the tile as it was and in its order: but a turf takes
/// the place of the turfs, and an area that of the areas.
pub proof fn placing_leaves_the_rest(list: Seq<PrefabView>, p: PrefabView) -> (i: int)
    ensures
        0 <= i < with_placed(list, p).len(),
        with_placed(list, p)[i] == p,
        with_placed(list, p).remove(i) == (if starts_with(p.path, "/turf"@) {
            list.filter(|q: PrefabView| !starts_with(q.path, "/turf"@))
        } else if starts_with(p.path, "/area"@) {
            list.filter(|q: PrefabView| !starts_with(q.path, "/area"@))
        } else {
            list
        }),
        forall|k: int| 0 <= k < i ==> layer((#[trigger] with_placed(list, p)[k]).path) <= layer(p.path),
        i + 1 < with_placed(list, p).len() ==> layer(p.path) < layer(with_placed(list, p)[i + 1].path),
        displaced(list, p.path) == (if starts_with(p.path, "/turf"@) {
            list.filter(|q: PrefabView| starts_with(q.path, "/turf"@))
        } else if starts_with(p.path, "/area"@) {
            list.filter(|q: PrefabView| starts_with(q.path, "/area"@))
        } else {
            Seq::empty()
        }),
{
    let base = kept(list, p.path);
    let i = layer_place(base, p.path);
    layer_place_is_first(base, p.path);
    let all = with_placed(list, p);
    assert(all == base.insert(i, p));
    assert(all.remove(i) =~= base);
    assert forall|q: PrefabView| starts_with(p.path, "/turf"@) implies (layer(q.path) == layer(p.path) <==> starts_with(
        #[trigger] q.path,
        "/turf"@,
    )) by {
        layers_come_in_order(p.path, q.path);
    }
    assert forall|q: PrefabView| starts_with(p.path, "/area"@) implies (layer(q.path) == layer(p.path) <==> starts_with(
        #[trigger] q.path,
        "/area"@,
    )) by {
        layers_come_in_order(p.path, q.path);
    }
    lemma_heads_differ(p.path);
    let on = crate::layers::on_layer(layer(p.path));
    let off = crate::layers::off_layer(layer(p.path));
    if starts_with(p.path, "/turf"@) {
        lemma_filters_agree(list, off, |q: PrefabView| !starts_with(q.path, "/turf"@));
        lemma_filters_agree(list, on, |q: PrefabView| starts_with(q.path, "/turf"@));
    } else if starts_with(p.path, "/area"@) {
        lemma_filters_agree(list, off, |q: PrefabView| !starts_with(q.path, "/area"@));
        lemma_filters_agree(list, on, |q: PrefabView| starts_with(q.path, "/area"@));
    }
    assert forall|k: int| 0 <= k < i implies layer((#[trigger] all[k]).path) <= layer(p.path) by {
        assert(all[k] == base[k]);
    }
    if i + 1 < all.len() {
        assert(all[i + 1] == base[i]);
    }
    i
}

/// What is removed or replaced by path is the first prefab with exactly that path, and nothing is
/// where no prefab has it; clearing the way for a placement takes that prefab and no other.
pub proof fn the_first_of_a_path_is_meant(list: Seq<PrefabView>, path: Seq<char>, replace: String)
    requires
        replace@ == path,
    ensures
        ({
            let i = path_place(list, path);
            &&& 0 <= i <= list.len()
            &&& i < list.len() ==> list[i].path == path
            &&& forall|k: int| 0 <= k < i ==> (#[trigger] list[k]).path != path
            &&& i < list.len() ==> cleared(list, Some(replace)) == list.take(i) + list.skip(i + 1)
            &&& i == list.len() ==> cleared(list, Some(replace)) == list
        }),
        cleared(list, None) == list,
{
    crate::counting::first_place_is_first(list, has_path(path));
    let i = path_place(list, path);
    assert forall|k: int| 0 <= k < i implies (#[trigger] list[k]).path != path by {
        assert(!has_path(path)(list[k]));
    }
    if i < list.len() {
        assert(has_path(path)(list[i]));
        assert(list.remove(i) =~= list.take(i) + list.skip(i + 1));
    }
}

// ── Fingerprints ─────────────────────────────────────────────────────

/// A variable as a fingerprint has it: its name, an equals sign, its text and a semicolon.
pub open spec fn var_print(name: Seq<char>, text: Seq<char>) -> Seq<char> {
    name + seq!['='] + text + seq![';']
}

proof fn lemma_vars_print_first(names: Seq<Seq<char>>, vars: Map<Seq<char>, ConstantView>)
    requires
        names.len() > 0,
    ensures
        vars_print(names, vars) == var_print(names[0], vars[names[0]].text) + vars_print(names.skip(1), vars),
    decreases names.len(),
{
    reveal_strlit("=");
    reveal_strlit(";");
    assert("="@ =~= seq!['=']);
    assert(";"@ =~= seq![';']);
    let front = names.drop_last();
    let rest = names.skip(1);
    if names.len() == 1 {
        assert(vars_print(front, vars) =~= Seq::empty());
        assert(vars_print(rest, vars) =~= Seq::empty());
        assert(vars_print(names, vars) =~= var_print(names[0], vars[names[0]].text) + vars_print(rest, vars));
    } else {
        lemma_vars_print_first(front, vars);
        assert(front.skip(1) =~= rest.drop_last());
        assert(rest.last() == names.last());
        assert(front[0] == names[0]);
        assert(vars_print(names, vars) =~= var_print(names[0], vars[names[0]].text) + vars_print(rest, vars));
    }
}

proof fn lemma_up_to(a: Seq<char>, x: Seq<char>, b: Seq<char>, y: Seq<char>, c: char)
    requires
        a + seq![c] + x == b + seq![c] + y,
        !a.contains(c),
        !b.contains(c),
    ensures
        a == b,
        x == y,
{
    let s = a + seq![c] + x;
    let r = b + seq![c] + y;
    assert(s[a.len() as int] == c);
    assert(r[b.len() as int] == c);
    if a.len() < b.len() {
        assert(r[a.len() as int] == b[a.len() as int]);
        assert(b.contains(c));
    }
    if b.len() < a.len() {
        assert(s[b.len() as int] == a[b.len() as int]);
        assert(a.contains(c));
    }
    let n = a.len() as int;
    assert(a =~= s.take(n));
    assert(b =~= r.take(n));
    assert(x =~= s.skip(n + 1));
    assert(y =~= r.skip(n + 1));
}

/// Whether the names and texts of variables can be told apart where they are written one after the
/// other: no name holds an equals sign, and no text a semicolon.
pub open spec fn tellable(vars: Map<Seq<char>, ConstantView>) -> bool {
    forall|n: Seq<char>| #[trigger] vars.contains_key(n) ==> !n.contains('=') && !vars[n].text.contains(';')
}

proof fn lemma_vars_told(a: Seq<Seq<char>>, va: Map<Seq<char>, ConstantView>, b: Seq<Seq<char>>, vb: Map<Seq<char>, ConstantView>)
    requires
        vars_print(a, va) == vars_print(b, vb),
        forall|i: int| 0 <= i < a.len() ==> !(#[trigger] a[i]).contains('=') && !va[a[i]].text.contains(';'),
        forall|i: int| 0 <= i < b.len() ==> !(#[trigger] b[i]).contains('=') && !vb[b[i]].text.contains(';'),
    ensures
        a == b,
        forall|i: int| 0 <= i < a.len() ==> va[#[trigger] a[i]].text == vb[a[i]].text,
    decreases a.len(),
{
    if a.len() > 0 {
        lemma_vars_print_first(a, va);
    }
    if b.len() > 0 {
        lemma_vars_print_first(b, vb);
    }
    if a.len() == 0 {
        assert(vars_print(a, va).len() == 0);
        assert(b.len() == 0);
        assert(a =~= b);
    } else if b.len() == 0 {
        assert(vars_print(b, vb).len() == 0);
        assert(false);
    } else {
        let (ra, rb) = (vars_print(a.skip(1), va), vars_print(b.skip(1), vb));
        let (ta, tb) = (va[a[0]].text, vb[b[0]].text);
        let (xa, xb) = (ta + seq![';'] + ra, tb + seq![';'] + rb);
        assert(var_print(a[0], ta) + ra =~= a[0] + seq!['='] + xa);
        assert(var_print(b[0], tb) + rb =~= b[0] + seq!['='] + xb);
        lemma_up_to(a[0], xa, b[0], xb, '=');
        lemma_up_to(ta, ra, tb, rb, ';');
        let (sa, sb) = (a.skip(1), b.skip(1));
        assert forall|i: int| 0 <= i < sa.len() implies !(#[trigger] sa[i]).contains('=') && !va[sa[i]].text.contains(';') by {
            assert(sa[i] == a[i + 1]);
        }
        assert forall|i: int| 0 <= i < sb.len() implies !(#[trigger] sb[i]).contains('=') && !vb[sb[i]].text.contains(';') by {
            assert(sb[i] == b[i + 1]);
        }
        lemma_vars_told(sa, va, sb, vb);
        assert(a =~= seq![a[0]] + sa);
        assert(b =~= seq![b[0]] + sb);
        assert forall|i: int| 0 <= i < a.len() implies va[#[trigger] a[i]].text == vb[a[i]].text by {
            if i > 0 {
                assert(sa[i - 1] == a[i]);
            }
        }
    }
}

proof fn lemma_few_variables(p: PrefabView)
    ensures
        p.ident().vars.dom().finite(),
{
    let names = p.vars.map_values(|e: (Seq<char>, ConstantView)| e.0);
    let dom = p.ident().vars.dom();
    vstd::seq_lib::seq_to_set_is_finite(names);
    assert forall|n: Seq<char>| dom.contains(n) implies names.to_set().contains(n) by {
        let i = crate::prefab::var_of_has_entry(p.vars, n);
        assert(names[i] == n);
    }
    vstd::set_lib::lemma_len_subset(dom, names.to_set());
}

/// Two prefabs that print alike are of one type and override the same variables with the same
/// texts: tiles that differ in any of this never share an entry.
pub proof fn fingerprints_tell_variables(a: PrefabView, b: PrefabView, name: Seq<char>)
    requires
        plain(a),
        plain(b),
        tellable(a.ident().vars),
        tellable(b.ident().vars),
        fingerprint(seq![a]) == fingerprint(seq![b]),
    ensures
        a.path == b.path,
        var_of(a.vars, name) is Some <==> var_of(b.vars, name) is Some,
        var_of(a.vars, name) is Some ==> var_of(a.vars, name).unwrap().text == var_of(b.vars, name).unwrap().text,
{
    reveal_strlit("{");
    reveal_strlit("}");
    reveal_strlit("\u{1F}");
    let (ia, ib) = (a.ident(), b.ident());
    let (na, nb) = (sorted_names(ia.vars.dom()), sorted_names(ib.vars.dom()));
    lemma_few_variables(a);
    lemma_few_variables(b);
    names_can_be_sorted(ia.vars.dom());
    names_can_be_sorted(ib.vars.dom());
    assert(seq![a].drop_last() =~= Seq::empty());
    assert(seq![b].drop_last() =~= Seq::empty());
    assert(fingerprint(seq![a].drop_last()) =~= Seq::<char>::empty());
    assert(fingerprint(seq![b].drop_last()) =~= Seq::<char>::empty());
    assert(fingerprint(seq![a]) =~= prefab_print(ia));
    assert(fingerprint(seq![b]) =~= prefab_print(ib));
    crate::layers::fingerprints_tell_paths(seq![a], seq![b]);
    assert(crate::layers::paths(seq![a])[0] == a.path);
    assert(crate::layers::paths(seq![b])[0] == b.path);
    let (pa, pb) = (prefab_print(ia), prefab_print(ib));
    let n = a.path.len() as int;
    if na.len() > 0 {
        assert(pa[n] == '{');
    } else {
        assert(pa[n] == '\u{1F}');
    }
    if nb.len() > 0 {
        assert(pb[n] == '{');
    } else {
        assert(pb[n] == '\u{1F}');
    }
    assert(na.len() > 0 <==> nb.len() > 0);
    if na.len() > 0 {
        let (xa, xb) = (vars_print(na, ia.vars), vars_print(nb, ib.vars));
        assert(pa.subrange(n + 1, pa.len() - 2) =~= xa);
        assert(pb.subrange(n + 1, pb.len() - 2) =~= xb);
        assert forall|i: int| 0 <= i < na.len() implies !(#[trigger] na[i]).contains('=') && !ia.vars[na[i]].text.contains(';') by {
            assert(na.to_set().contains(na[i]));
            assert(ia.vars.contains_key(na[i]));
        }
        assert forall|i: int| 0 <= i < nb.len() implies !(#[trigger] nb[i]).contains('=') && !ib.vars[nb[i]].text.contains(';') by {
            assert(nb.to_set().contains(nb[i]));
            assert(ib.vars.contains_key(nb[i]));
        }
        lemma_vars_told(na, ia.vars, nb, ib.vars);
    } else {
        assert(na =~= nb);
    }
    assert(ia.vars.dom() =~= ib.vars.dom());
    assert(ia.vars.contains_key(name) <==> var_of(a.vars, name) is Some);
    assert(ib.vars.contains_key(name) <==> var_of(b.vars, name) is Some);
    if var_of(a.vars, name) is Some {
        assert(na.to_set().contains(name));
        let i = choose|i: int| 0 <= i < na.len() && na[i] == name;
        assert(ia.vars[na[i]].text == ib.vars[na[i]].text);
    }
}

} // verus!
