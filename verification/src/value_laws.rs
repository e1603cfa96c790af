//! What holds of values: which constants JSON stands for, and how values are written.

use crate::constants::{constant_of, TreeView};
use crate::display::{
    braces, can_cut, constant_text, cut, default_text, dm_text, inferred_type, last_part, overrides, whole_default, whole_text,
};
use crate::json::{as_text, json_text, member, JsonNumberView, JsonView};
use crate::objtree::ObjectTree;
use crate::prefab::{prefab_notation, vars_notation, ConstantKindView, ConstantView, DmNumberView, PrefabView};
use crate::text::{debug_text, joined};
use vstd::prelude::*;
use vstd::utf8::{encode_utf8, is_char_boundary};

verus! {

// ── Constants ────────────────────────────────────────────────────────

/// What each sort of JSON value stands for: `null` for null, a truth value for 1 or 0, a number
/// for itself, an array for the list of what its items stand for, and an object for what its
/// members stand for, unless it names a type.
pub proof fn values_stand_for_constants(b: bool, n: JsonNumberView, d: DmNumberView, items: Seq<JsonView>, o: Seq<(Seq<char>, JsonView)>)
    ensures
        constant_of(JsonView::Null) == TreeView::Null,
        constant_of(JsonView::Bool(true)) is Float && constant_of(JsonView::Bool(true))->Float_0.shown == "1"@,
        constant_of(JsonView::Bool(false)) is Float && constant_of(JsonView::Bool(false))->Float_0.shown == "0"@,
        constant_of(JsonView::Bool(true))->Float_0.bits == 0x3f80_0000,
        constant_of(JsonView::Bool(false))->Float_0.bits == 0,
        n.dm == Some(d) ==> constant_of(JsonView::Number(n)) == TreeView::Float(d),
        n.dm is None ==> constant_of(JsonView::Number(n)) == constant_of(JsonView::Bool(false)),
        constant_of(JsonView::Array(items)) is List,
        constant_of(JsonView::Array(items))->List_0.len() == items.len(),
        forall|i: int|
            0 <= i < items.len() ==> #[trigger] constant_of(JsonView::Array(items))->List_0[i] == constant_of(items[i]),
        match member(o, "_type"@) {
            Some(JsonView::Str(path)) => constant_of(JsonView::Object(o)) == TreeView::Prefab(path),
            _ => {
                let c = constant_of(JsonView::Object(o));
                &&& c is Assoc
                &&& c->Assoc_0.len() == o.len()
                &&& forall|i: int|
                    0 <= i < o.len() ==> (#[trigger] c->Assoc_0[i]).0 == o[i].0 && c->Assoc_0[i].1 == constant_of(o[i].1)
            },
        },
{
}

/// A JSON string stands for a type path where it begins with a slash, for a file where it is in
/// single quotes with something between them, and for itself otherwise.
pub proof fn strings_stand_for_constants(s: Seq<char>, inner: Seq<char>)
    ensures
        constant_of(JsonView::Str(seq!['/'] + s)) == TreeView::Prefab(seq!['/'] + s),
        inner.len() > 0 ==> constant_of(JsonView::Str(seq!['\''] + inner + seq!['\''])) == TreeView::Resource(inner),
        constant_of(JsonView::Str(seq!['\'', '\''])) == TreeView::Str(seq!['\'', '\'']),
        s.len() == 0 ==> constant_of(JsonView::Str(s)) == TreeView::Str(s),
        s.len() > 0 && s[0] != '/' && s[0] != '\'' ==> constant_of(JsonView::Str(s)) == TreeView::Str(s),
        s.len() > 0 && s[0] != '/' && s.last() != '\'' ==> constant_of(JsonView::Str(s)) == TreeView::Str(s),
{
    let quoted = seq!['\''] + inner + seq!['\''];
    assert(quoted.subrange(1, quoted.len() - 1) =~= inner);
}

// ── Shown values ─────────────────────────────────────────────────────

/// A text that is cut begins like the whole; it is whole where it fits, and otherwise has as many
/// bytes as it may.
pub proof fn a_cut_text_is_a_beginning(s: Seq<char>, max: int)
    requires
        max >= 0,
        can_cut(s, max),
    ensures
        encode_utf8(s).len() <= max ==> cut(s, max) == s,
        encode_utf8(s).len() > max ==> encode_utf8(cut(s, max)).len() == max,
        cut(s, max).len() <= s.len(),
        s.take(cut(s, max).len() as int) == cut(s, max),
{
    let bytes = encode_utf8(s);
    if bytes.len() > max {
        vstd::utf8::encode_utf8_valid_utf8(s);
        vstd::utf8::encode_utf8_decode_utf8(s);
        vstd::utf8::valid_utf8_split(bytes, max);
        vstd::utf8::decode_utf8_split(bytes, max);
        vstd::utf8::decode_utf8_encode_utf8(bytes.subrange(0, max));
        let a = vstd::utf8::decode_utf8(bytes.subrange(0, max));
        let b = vstd::utf8::decode_utf8(bytes.subrange(max, bytes.len() as int));
        assert(s =~= a + b);
        assert(s.take(a.len() as int) =~= a);
    } else {
        assert(s.take(s.len() as int) =~= s);
    }
}

/// How constants are shown: a string in quotes, whole up to 60 bytes and cut there beyond, a
/// number as it is written, a type as its path, null as `null`, and the rest in full detail.
pub proof fn constants_are_shown_by_kind(c: ConstantView)
    ensures
        match c.kind {
            ConstantKindView::Null => constant_text(c) == "null"@,
            ConstantKindView::Str(s) => {
                &&& encode_utf8(s).len() <= 60 ==> constant_text(c) == debug_text(s)
                &&& constant_text(c) == debug_text(cut(s, 60))
                &&& whole_text(c) == debug_text(s)
            },
            ConstantKindView::Float(n) => constant_text(c) == n.shown,
            ConstantKindView::Prefab(p) => constant_text(c) == "/"@ + joined(p, "/"@),
            _ => constant_text(c) == c.detail,
        },
        !(c.kind is Str) ==> whole_text(c) == constant_text(c),
{
}

/// What a default suggests of the type of a variable: the sort of constant with the constant
/// itself, a string cut at 40 bytes.
pub proof fn defaults_suggest_types(c: ConstantView)
    ensures
        inferred_type(None) == "unknown"@,
        match c.kind {
            ConstantKindView::Null => inferred_type(Some(c)) == "null"@,
            ConstantKindView::Str(s) => {
                &&& encode_utf8(s).len() <= 40 ==> inferred_type(Some(c)) == "string (default: "@ + debug_text(s) + ")"@
                &&& inferred_type(Some(c)) == "string (default: "@ + debug_text(cut(s, 40)) + ")"@
            },
            ConstantKindView::Float(n) => inferred_type(Some(c)) == "number (default: "@ + n.shown + ")"@,
            ConstantKindView::Prefab(p) => inferred_type(Some(c)) == "prefab (default: /"@ + joined(p, "/"@) + ")"@,
            _ => inferred_type(Some(c)) == "complex"@,
        },
{
}

/// The default of a variable is shown as its constant, and as `null` where it has none.
pub proof fn defaults_are_shown(tree: &ObjectTree, t: int, name: Seq<char>)
    ensures
        match tree.default_value(t, name) {
            Some(c) => default_text(tree, t, name) == constant_text(c) && whole_default(tree, t, name) == whole_text(c),
            None => default_text(tree, t, name) == "null"@ && whole_default(tree, t, name) == "null"@,
        },
{
}

/// The short name of a path is what follows its last slash.
pub proof fn a_short_name_follows_the_last_slash(above: Seq<char>, name: Seq<char>)
    requires
        !name.contains('/'),
    ensures
        last_part(above + seq!['/'] + name) == name,
        last_part(name) == name,
{
    crate::text_laws::the_last_piece_follows_the_last_separator(above, '/', name);
}

// ── Map notation ─────────────────────────────────────────────────────

/// How JSON values are written in a map: a string in quotes, a number as it stands, truth values
/// as 1 and 0, null as `null`, an array as a list of its items, and an object that names a type as
/// that type with its variables.
pub proof fn values_are_written_by_kind(s: Seq<char>, n: JsonNumberView, a: Seq<JsonView>, o: Seq<(Seq<char>, JsonView)>)
    ensures
        dm_text(JsonView::Str(s)) == debug_text(s),
        dm_text(JsonView::Number(n)) == n.text,
        dm_text(JsonView::Bool(true)) == "1"@,
        dm_text(JsonView::Bool(false)) == "0"@,
        dm_text(JsonView::Null) == "null"@,
        dm_text(JsonView::Array(a)) == "list("@ + joined(Seq::new(a.len(), |i: int| dm_text(a[i])), ", "@) + ")"@,
        as_text(member(o, "_type"@)) is None ==> dm_text(JsonView::Object(o)) == json_text(JsonView::Object(o)),
{
    assert(crate::display::dm_items(a) =~= Seq::new(a.len(), |i: int| dm_text(a[i])));
}

proof fn lemma_member_at(o: Seq<(Seq<char>, JsonView)>, name: Seq<char>)
    ensures
        0 <= crate::display::member_place(o, name) <= o.len(),
        member(o, name) == (if crate::display::member_place(o, name) < o.len() {
            Some(o[crate::display::member_place(o, name)].1)
        } else {
            None
        }),
    decreases o.len(),
{
    if o.len() > 0 && o[0].0 != name {
        lemma_member_at(o.skip(1), name);
    }
}

/// An object that names a type is written as the path of the type, and behind it in braces the
/// variables that it gives, in order, each as its name, an equals sign and its value.
pub proof fn a_datum_is_written_with_its_variables(o: Seq<(Seq<char>, JsonView)>, path: Seq<char>)
    requires
        member(o, "_type"@) == Some(JsonView::Str(path)),
    ensures
        match member(o, "_vars"@) {
            Some(JsonView::Object(vars)) => if vars.len() > 0 {
                dm_text(JsonView::Object(o)) == path + "{"@ + joined(
                    Seq::new(vars.len(), |i: int| vars[i].0 + " = "@ + dm_text(vars[i].1)),
                    "; "@,
                ) + "}"@
            } else {
                dm_text(JsonView::Object(o)) == path
            },
            _ => dm_text(JsonView::Object(o)) == path,
        },
{
    lemma_member_at(o, "_vars"@);
    if let Some(JsonView::Object(vars)) = member(o, "_vars"@) {
        assert(crate::display::dm_pairs(vars) =~= Seq::new(vars.len(), |i: int| vars[i].0 + " = "@ + dm_text(vars[i].1)));
    }
}

proof fn lemma_vars_notation(vars: Seq<(Seq<char>, ConstantView)>)
    ensures
        vars_notation(vars) == joined(
            vars.map_values(|e: (Seq<char>, ConstantView)| e.0 + " = "@ + e.1.text),
            "; "@,
        ),
    decreases vars.len(),
{
    let f = |e: (Seq<char>, ConstantView)| e.0 + " = "@ + e.1.text;
    if vars.len() > 1 {
        lemma_vars_notation(vars.drop_last());
        assert(vars.map_values(f).drop_last() =~= vars.drop_last().map_values(f));
    }
}

/// A prefab is written as its path, and behind it in braces its variables, in order, each as its
/// name, an equals sign and its text.
pub proof fn a_prefab_is_written_with_its_variables(p: PrefabView)
    ensures
        p.vars.len() == 0 ==> prefab_notation(p) == p.path,
        p.vars.len() > 0 ==> prefab_notation(p) == p.path + "{"@ + joined(
            p.vars.map_values(|e: (Seq<char>, ConstantView)| e.0 + " = "@ + e.1.text),
            "; "@,
        ) + "}"@,
{
    lemma_vars_notation(p.vars);
}

/// Overrides are written in braces, in order; where there are none, nothing is.
pub proof fn overrides_are_written_in_braces(pairs: Seq<(Seq<char>, Seq<char>)>)
    ensures
        pairs.len() == 0 ==> braces(pairs).len() == 0,
        pairs.len() > 0 ==> braces(pairs) == "{"@ + joined(
            Seq::new(pairs.len(), |i: int| pairs[i].0 + " = "@ + pairs[i].1),
            "; "@,
        ) + "}"@,
{
    assert(pairs.map_values(|e: (Seq<char>, Seq<char>)| e.0 + " = "@ + e.1) =~= Seq::new(
        pairs.len(),
        |i: int| pairs[i].0 + " = "@ + pairs[i].1,
    ));
}

/// The variables that count as overridden are those among the given ones, in their order, whose
/// written value is not that of the default; each comes with its written value.
pub proof fn overrides_differ_from_defaults(
    tree: &ObjectTree,
    t: int,
    names: Seq<Seq<char>>,
    vars: Map<Seq<char>, JsonView>,
)
    ensures
        overrides(tree, t, names, vars) == names.filter(
            |n: Seq<char>|
                dm_text(vars[n]) != (match tree.default_value(t, n) {
                    Some(c) => whole_text(c),
                    None => "null"@,
                }),
        ).map_values(|n: Seq<char>| (n, dm_text(vars[n]))),
    decreases names.len(),
{
    reveal(Seq::filter);
    let p = |n: Seq<char>|
        dm_text(vars[n]) != (match tree.default_value(t, n) {
            Some(c) => whole_text(c),
            None => "null"@,
        });
    let f = |n: Seq<char>| (n, dm_text(vars[n]));
    if names.len() > 0 {
        let front = names.drop_last();
        overrides_differ_from_defaults(tree, t, front, vars);
        if p(names.last()) {
            assert(names.filter(p) == front.filter(p).push(names.last()));
            assert(names.filter(p).map_values(f) =~= front.filter(p).map_values(f).push(f(names.last())));
        }
    }
}

} // verus!
