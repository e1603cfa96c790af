//! How values are shown to a user of the builder.

use crate::json::{
    array_view, as_text, json_display, json_text, json_views, member, member_views, object_view, text_member, JsonValue,
    JsonView,
};
use crate::names::NameTable;
use crate::objtree::ObjectTree;
use crate::prefab::{Constant, ConstantKind, ConstantKindView, ConstantView};
use crate::text::{debug_quote, debug_text, join_texts, joined, same_text, split_on, split_text, texts};
use vstd::prelude::*;
use vstd::utf8::{decode_utf8, encode_utf8, is_char_boundary};

verus! {

// ── Names and cuts ───────────────────────────────────────────────────

/// The last component of a path.
pub open spec fn last_part(path: Seq<char>) -> Seq<char> {
    split_on(path, '/').last()
}

proof fn lemma_split_nonempty(s: Seq<char>, c: char)
    ensures
        split_on(s, c).len() > 0,
{
}

/// The short name of a type path: its last component.
pub fn short_name(path: &str) -> (r: String)
    ensures
        r@ == last_part(path@),
{
    let parts = split_text(path, '/');
    proof {
        lemma_split_nonempty(path@, '/');
    }
    assert(texts(parts@).len() == parts@.len());
    parts[parts.len() - 1].clone()
}

/// Whether a text can be cut to a number of bytes: it is no longer, or a character ends there.
pub open spec fn can_cut(s: Seq<char>, max: int) -> bool {
    encode_utf8(s).len() <= max || is_char_boundary(encode_utf8(s), max)
}

/// A text cut to a number of bytes.
pub open spec fn cut(s: Seq<char>, max: int) -> Seq<char> {
    if encode_utf8(s).len() <= max {
        s
    } else {
        decode_utf8(encode_utf8(s).subrange(0, max))
    }
}

/// Truncates a text for display.
pub fn truncate(s: &str, max: usize) -> (r: &str)
    requires
        can_cut(s@, max as int),
    ensures
        r@ == cut(s@, max as int),
{
    if s.as_bytes().len() <= max {
        s
    } else {
        let r = s.split_at(max).0;
        proof {
            vstd::utf8::encode_utf8_decode_utf8(r@);
            assert(encode_utf8(r@) == encode_utf8(s@).subrange(0, max as int));
        }
        r
    }
}

// ── Constants ────────────────────────────────────────────────────────

/// Whether a constant can be shown: a string in it can be cut to 60 bytes.
pub open spec fn can_show(c: ConstantView) -> bool {
    c.kind matches ConstantKindView::Str(s) ==> can_cut(s, 60)
}

/// A constant as it is shown.
pub open spec fn constant_text(c: ConstantView) -> Seq<char> {
    match c.kind {
        ConstantKindView::Null => "null"@,
        ConstantKindView::Str(s) => debug_text(cut(s, 60)),
        ConstantKindView::Float(n) => n.shown,
        ConstantKindView::Prefab(p) => "/"@ + joined(p, "/"@),
        _ => c.detail,
    }
}

/// Formats a constant for display.
pub fn format_constant(c: &Constant) -> (r: String)
    requires
        can_show(c@),
    ensures
        r@ == constant_text(c@),
{
    match &c.kind {
        ConstantKind::Null => "null".to_string(),
        ConstantKind::Str(s) => debug_quote(truncate(s.as_str(), 60)),
        ConstantKind::Float(n) => n.shown.clone(),
        ConstantKind::Prefab(p) => {
            let path = join_texts(p, "/");
            let mut out = "/".to_string();
            out.append(path.as_str());
            out
        },
        _ => c.detail.clone(),
    }
}

/// Whether a type can be inferred from a constant: a string in it can be cut to 40 bytes.
pub open spec fn can_infer(c: Option<ConstantView>) -> bool {
    match c {
        Some(c) => c.kind matches ConstantKindView::Str(s) ==> can_cut(s, 40),
        None => true,
    }
}

/// The type that a constant suggests.
pub open spec fn inferred_type(c: Option<ConstantView>) -> Seq<char> {
    match c {
        None => "unknown"@,
        Some(c) => match c.kind {
            ConstantKindView::Null => "null"@,
            ConstantKindView::Str(s) => "string (default: "@ + debug_text(cut(s, 40)) + ")"@,
            ConstantKindView::Float(n) => "number (default: "@ + n.shown + ")"@,
            ConstantKindView::Prefab(p) => "prefab (default: /"@ + joined(p, "/"@) + ")"@,
            _ => "complex"@,
        },
    }
}

/// The view of an optional constant.
pub open spec fn opt_constant(c: Option<&Constant>) -> Option<ConstantView> {
    match c {
        Some(c) => Some(c@),
        None => None,
    }
}

/// Infers the type of a variable from its constant value.
pub fn infer_type_from_constant(constant: Option<&Constant>) -> (r: String)
    requires
        can_infer(opt_constant(constant)),
    ensures
        r@ == inferred_type(opt_constant(constant)),
{
    match constant {
        None => "unknown".to_string(),
        Some(c) => match &c.kind {
            ConstantKind::Null => "null".to_string(),
            ConstantKind::Str(s) => {
                let mut out = "string (default: ".to_string();
                out.append(debug_quote(truncate(s.as_str(), 40)).as_str());
                out.append(")");
                out
            },
            ConstantKind::Float(n) => {
                let mut out = "number (default: ".to_string();
                out.append(n.shown.as_str());
                out.append(")");
                out
            },
            ConstantKind::Prefab(p) => {
                let mut out = "prefab (default: /".to_string();
                out.append(join_texts(p, "/").as_str());
                out.append(")");
                out
            },
            _ => "complex".to_string(),
        },
    }
}

// ── JSON in DM notation ──────────────────────────────────────────────

/// The place of the first member with a name, or the length if there is none.
pub open spec fn member_place(o: Seq<(Seq<char>, JsonView)>, name: Seq<char>) -> int
    decreases o.len(),
{
    if o.len() == 0 {
        0
    } else if o[0].0 == name {
        0
    } else {
        1 + member_place(o.skip(1), name)
    }
}

proof fn lemma_member_place(o: Seq<(Seq<char>, JsonView)>, name: Seq<char>)
    ensures
        0 <= member_place(o, name) <= o.len(),
        member(o, name) == (if member_place(o, name) < o.len() {
            Some(o[member_place(o, name)].1)
        } else {
            None
        }),
    decreases o.len(),
{
    if o.len() > 0 && o[0].0 != name {
        lemma_member_place(o.skip(1), name);
    }
}

/// A JSON value as a DM value: a sub-datum as its path with its variables in braces, an array as
/// a `list(...)`.
pub open spec fn dm_text(v: JsonView) -> Seq<char>
    decreases v,
{
    match v {
        JsonView::Str(s) => debug_text(s),
        JsonView::Number(n) => n.text,
        JsonView::Bool(b) => if b { "1"@ } else { "0"@ },
        JsonView::Null => "null"@,
        JsonView::Object(o) => match as_text(member(o, "_type"@)) {
            Some(path) => {
                let k = member_place(o, "_vars"@);
                if 0 <= k < o.len() {
                    match o[k].1 {
                        JsonView::Object(vars) => if vars.len() > 0 {
                            path + "{"@ + joined(dm_pairs(vars), "; "@) + "}"@
                        } else {
                            path
                        },
                        _ => path,
                    }
                } else {
                    path
                }
            },
            None => json_text(v),
        },
        JsonView::Array(a) => "list("@ + joined(dm_items(a), ", "@) + ")"@,
    }
}

/// The items of a `list(...)`.
pub open spec fn dm_items(a: Seq<JsonView>) -> Seq<Seq<char>>
    decreases a,
{
    Seq::new(
        a.len(),
        |i: int|
            if 0 <= i < a.len() {
                dm_text(a[i])
            } else {
                Seq::empty()
            },
    )
}

/// The variables of a sub-datum.
pub open spec fn dm_pairs(vars: Seq<(Seq<char>, JsonView)>) -> Seq<Seq<char>>
    decreases vars,
{
    Seq::new(
        vars.len(),
        |i: int|
            if 0 <= i < vars.len() {
                vars[i].0 + " = "@ + dm_text(vars[i].1)
            } else {
                Seq::empty()
            },
    )
}

/// Converts a JSON value to a DM value as a map file has it.
pub fn json_to_dm_value(value: &JsonValue) -> (r: String)
    ensures
        r@ == dm_text(value@),
    decreases value,
{
    broadcast use {array_view, object_view};

    match value {
        JsonValue::Str(s) => debug_quote(s.as_str()),
        JsonValue::Number(n) => n.text.clone(),
        JsonValue::Bool(b) => if *b {
            "1".to_string()
        } else {
            "0".to_string()
        },
        JsonValue::Null => "null".to_string(),
        JsonValue::Object(o) => {
            let path = match text_member(o, "_type") {
                Some(p) => p,
                None => {
                    return json_display(value);
                },
            };
            let ghost ov = member_views(o@);
            proof {
                lemma_member_place(ov, "_vars"@);
            }
            let mut k: usize = 0;
            assert(ov.skip(0) =~= ov);
            while k < o.len() && !same_text(o[k].0.as_str(), "_vars")
                invariant
                    k <= o@.len(),
                    ov == member_views(o@),
                    member_place(ov, "_vars"@) == k + member_place(ov.skip(k as int), "_vars"@),
                decreases o@.len() - k,
            {
                assert(ov.skip(k as int).skip(1) =~= ov.skip(k + 1));
                assert(ov.skip(k as int)[0] == ov[k as int]);
                k = k + 1;
            }
            assert(k == member_place(ov, "_vars"@)) by {
                if k < o@.len() {
                    assert(ov.skip(k as int)[0] == ov[k as int]);
                }
            }
            let mut s = path.to_string();
            if k < o.len() {
                assert(ov[k as int].1 == o@[k as int].1@);
                if let JsonValue::Object(vars) = &o[k].1 {
                    if vars.len() > 0 {
                        let ghost vv = member_views(vars@);
                        let mut items: Vec<String> = Vec::new();
                        let mut i: usize = 0;
                        while i < vars.len()
                            invariant
                                i <= vars@.len(),
                                k < o@.len(),
                                value matches JsonValue::Object(b) && b == o,
                                o@[k as int].1 matches JsonValue::Object(w) && w == vars,
                                vv == member_views(vars@),
                                items@.len() == i,
                                forall|j: int| 0 <= j < i ==> (#[trigger] items@[j])@ == vv[j].0 + " = "@ + dm_text(vv[j].1),
                            decreases vars@.len() - i,
                        {
                            assert(decreases_to!(*value => o@[k as int].1));
                            assert(decreases_to!(o@[k as int].1 => vars@[i as int].1));
                            let inner = json_to_dm_value(&vars[i].1);
                            let mut item = vars[i].0.clone();
                            item.append(" = ");
                            item.append(inner.as_str());
                            items.push(item);
                            i = i + 1;
                        }
                        s.append("{");
                        s.append(join_texts(&items, "; ").as_str());
                        s.append("}");
                        proof {
                            assert(texts(items@) =~= dm_pairs(vv));
                            assert(ov[k as int].1 == JsonView::Object(vv));
                        }
                        return s;
                    } else {
                        assert(ov[k as int].1 == JsonView::Object(member_views(vars@)));
                        return s;
                    }
                }
            }
            s
        },
        JsonValue::Array(a) => {
            let ghost av = json_views(a@);
            let mut items: Vec<String> = Vec::new();
            let mut i: usize = 0;
            while i < a.len()
                invariant
                    i <= a@.len(),
                    value matches JsonValue::Array(b) && b == a,
                    av == json_views(a@),
                    items@.len() == i,
                    forall|j: int| 0 <= j < i ==> (#[trigger] items@[j])@ == dm_text(av[j]),
                decreases a@.len() - i,
            {
                assert(decreases_to!(*value => a@[i as int]));
                let item = json_to_dm_value(&a[i]);
                items.push(item);
                i = i + 1;
            }
            proof {
                assert(texts(items@) =~= dm_items(av));
            }
            let mut out = "list(".to_string();
            out.append(join_texts(&items, ", ").as_str());
            out.append(")");
            out
        },
    }
}

// ── Overrides ────────────────────────────────────────────────────────

/// Whether the default of a variable can be shown.
pub open spec fn default_shows(tree: &ObjectTree, t: int, name: Seq<char>) -> bool {
    tree.default_value(t, name) matches Some(c) ==> can_show(c)
}

/// The default of a variable as it is shown.
pub open spec fn default_text(tree: &ObjectTree, t: int, name: Seq<char>) -> Seq<char> {
    match tree.default_value(t, name) {
        Some(c) => constant_text(c),
        None => "null"@,
    }
}

/// A constant in the notation in which values are compared, with no string cut.
pub open spec fn whole_text(c: ConstantView) -> Seq<char> {
    match c.kind {
        ConstantKindView::Str(s) => debug_text(s),
        _ => constant_text(c),
    }
}

/// The whole default of a variable.
pub open spec fn whole_default(tree: &ObjectTree, t: int, name: Seq<char>) -> Seq<char> {
    match tree.default_value(t, name) {
        Some(c) => whole_text(c),
        None => "null"@,
    }
}

/// Writes the whole default of a variable.
pub fn write_default(objtree: &ObjectTree, t: usize, name: &str) -> (r: String)
    requires
        objtree.wf(),
        t < objtree.types@.len(),
    ensures
        r@ == whole_default(objtree, t as int, name@),
{
    match objtree.default_of(t, name) {
        Some(c) => match &c.kind {
            ConstantKind::Str(s) => debug_quote(s.as_str()),
            _ => format_constant(c),
        },
        None => "null".to_string(),
    }
}

/// Writes the default of a variable.
pub fn show_default(objtree: &ObjectTree, t: usize, name: &str) -> (r: String)
    requires
        objtree.wf(),
        t < objtree.types@.len(),
        default_shows(objtree, t as int, name@),
    ensures
        r@ == default_text(objtree, t as int, name@),
{
    match objtree.default_of(t, name) {
        Some(c) => format_constant(c),
        None => "null".to_string(),
    }
}

/// The values of a table as views.
pub open spec fn var_map(vars: Map<Seq<char>, JsonValue>) -> Map<Seq<char>, JsonView> {
    vars.map_values(|v: JsonValue| v@)
}

/// The variables that differ from their defaults, by name, as a map file has them.
pub open spec fn overrides(tree: &ObjectTree, t: int, names: Seq<Seq<char>>, vars: Map<Seq<char>, JsonView>) -> Seq<
    (Seq<char>, Seq<char>),
>
    decreases names.len(),
{
    if names.len() == 0 {
        Seq::empty()
    } else {
        let front = overrides(tree, t, names.drop_last(), vars);
        let name = names.last();
        let value = dm_text(vars[name]);
        if value != whole_default(tree, t, name) {
            front.push((name, value))
        } else {
            front
        }
    }
}

/// The views of name and text pairs.
pub open spec fn pair_views(v: Seq<(String, String)>) -> Seq<(Seq<char>, Seq<char>)> {
    v.map_values(|e: (String, String)| (e.0@, e.1@))
}

/// Computes which variables differ from their defaults.
pub fn compute_overrides(objtree: &ObjectTree, t: usize, vars: &NameTable<JsonValue>) -> (r: Vec<(String, String)>)
    requires
        objtree.wf(),
        t < objtree.types@.len(),
        vars.wf(),
    ensures
        pair_views(r@) == overrides(objtree, t as int, vars.names(), var_map(vars@)),
{
    let ghost map = var_map(vars@);
    let mut out: Vec<(String, String)> = Vec::new();
    let mut i: usize = 0;
    assert(pair_views(out@) =~= Seq::empty());
    while i < vars.len()
        invariant
            i <= vars.names().len(),
            objtree.wf(),
            t < objtree.types@.len(),
            vars.wf(),
            map == var_map(vars@),
            pair_views(out@) == overrides(objtree, t as int, vars.names().take(i as int), map),
        decreases vars.names().len() - i,
    {
        let name = vars.name_at(i);
        let value = vars.value_at(i);
        let ghost before = pair_views(out@);
        assert(vars.names().take(i + 1).drop_last() =~= vars.names().take(i as int));
        assert(map[name@] == value@);
        let default_str = write_default(objtree, t, name);
        let value_str = json_to_dm_value(value);
        if !same_text(value_str.as_str(), default_str.as_str()) {
            out.push((name.to_string(), value_str));
            assert(pair_views(out@) =~= before.push((name@, value_str@)));
        }
        i = i + 1;
    }
    assert(vars.names().take(i as int) =~= vars.names());
    out
}

/// Overrides in map notation: `{a = b; c = d}`, or nothing if there are none.
pub open spec fn braces(pairs: Seq<(Seq<char>, Seq<char>)>) -> Seq<char> {
    if pairs.len() == 0 {
        Seq::empty()
    } else {
        "{"@ + joined(pairs.map_values(|e: (Seq<char>, Seq<char>)| e.0 + " = "@ + e.1), "; "@) + "}"@
    }
}

/// Writes overrides in map notation.
pub fn write_braces(pairs: &Vec<(String, String)>) -> (r: String)
    ensures
        r@ == braces(pair_views(pairs@)),
{
    if pairs.len() == 0 {
        let out = String::new();
        return out;
    }
    let ghost want = pair_views(pairs@).map_values(|e: (Seq<char>, Seq<char>)| e.0 + " = "@ + e.1);
    let mut items: Vec<String> = Vec::new();
    let mut i: usize = 0;
    while i < pairs.len()
        invariant
            i <= pairs@.len(),
            items@.len() == i,
            forall|j: int| 0 <= j < i ==> (#[trigger] items@[j])@ == pairs@[j].0@ + " = "@ + pairs@[j].1@,
        decreases pairs@.len() - i,
    {
        let mut item = pairs[i].0.clone();
        item.append(" = ");
        item.append(pairs[i].1.as_str());
        items.push(item);
        i = i + 1;
    }
    assert(texts(items@) =~= want);
    let mut out = "{".to_string();
    out.append(join_texts(&items, "; ").as_str());
    out.append("}");
    out
}

} // verus!
