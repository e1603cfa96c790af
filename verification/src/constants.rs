//! DM constants that JSON values stand for.

use crate::json::{array_view, as_text, json_views, member, member_views, object_view, text_member, JsonValue, JsonView};
use crate::prefab::{DmNumber, DmNumberView};
use crate::text::{chars_of, text_between};
use vstd::prelude::*;

verus! {

/// A DM constant, as far as a JSON value determines it.
pub enum ConstantTree {
    Null,
    Float(DmNumber),
    /// A type path.
    Prefab(String),
    /// A file, without the quotes.
    Resource(String),
    Str(String),
    /// `list(a, b, ...)`
    List(Vec<ConstantTree>),
    /// `list("a" = b, ...)`
    Assoc(Vec<(String, ConstantTree)>),
}

/// What a [`ConstantTree`] holds.
#[verifier::ext_equal]
pub enum TreeView {
    Null,
    Float(DmNumberView),
    Prefab(Seq<char>),
    Resource(Seq<char>),
    Str(Seq<char>),
    List(Seq<TreeView>),
    Assoc(Seq<(Seq<char>, TreeView)>),
}

impl ConstantTree {
    /// What the constant holds, to any depth.
    pub open spec fn shown(&self) -> TreeView
        decreases self,
    {
        match self {
            ConstantTree::Null => TreeView::Null,
            ConstantTree::Float(n) => TreeView::Float(n@),
            ConstantTree::Prefab(s) => TreeView::Prefab(s@),
            ConstantTree::Resource(s) => TreeView::Resource(s@),
            ConstantTree::Str(s) => TreeView::Str(s@),
            ConstantTree::List(a) => TreeView::List(
                Seq::new(
                    a@.len(),
                    |i: int|
                        if 0 <= i < a@.len() {
                            a@[i].shown()
                        } else {
                            TreeView::Null
                        },
                ),
            ),
            ConstantTree::Assoc(o) => TreeView::Assoc(
                Seq::new(
                    o@.len(),
                    |i: int|
                        if 0 <= i < o@.len() {
                            (o@[i].0@, o@[i].1.shown())
                        } else {
                            (Seq::empty(), TreeView::Null)
                        },
                ),
            ),
        }
    }
}

impl View for ConstantTree {
    type V = TreeView;

    open spec fn view(&self) -> TreeView {
        self.shown()
    }
}

/// The number 0.
pub open spec fn zero() -> DmNumberView {
    DmNumberView { bits: 0, shown: "0"@, json: Some("0"@) }
}

/// The number 1.
pub open spec fn one() -> DmNumberView {
    DmNumberView { bits: 0x3f80_0000, shown: "1"@, json: Some("1"@) }
}

/// The constant that a JSON string stands for: a path if it begins with `/`, a file if it is in
/// single quotes, else a string.
pub open spec fn text_constant(s: Seq<char>) -> TreeView {
    if s.len() > 0 && s[0] == '/' {
        TreeView::Prefab(s)
    } else if s.len() > 2 && s[0] == '\'' && s.last() == '\'' {
        TreeView::Resource(s.subrange(1, s.len() - 1))
    } else {
        TreeView::Str(s)
    }
}

/// The constant that a JSON value stands for.
pub open spec fn constant_of(v: JsonView) -> TreeView
    decreases v,
{
    match v {
        JsonView::Null => TreeView::Null,
        JsonView::Bool(b) => TreeView::Float(if b { one() } else { zero() }),
        JsonView::Number(n) => TreeView::Float(match n.dm {
            Some(d) => d,
            None => zero(),
        }),
        JsonView::Str(s) => text_constant(s),
        JsonView::Array(a) => TreeView::List(
            Seq::new(
                a.len(),
                |i: int|
                    if 0 <= i < a.len() {
                        constant_of(a[i])
                    } else {
                        TreeView::Null
                    },
            ),
        ),
        JsonView::Object(o) => match as_text(member(o, "_type"@)) {
            Some(path) => TreeView::Prefab(path),
            None => TreeView::Assoc(
                Seq::new(
                    o.len(),
                    |i: int|
                        if 0 <= i < o.len() {
                            (o[i].0, constant_of(o[i].1))
                        } else {
                            (Seq::empty(), TreeView::Null)
                        },
                ),
            ),
        },
    }
}

fn zero_number() -> (r: DmNumber)
    ensures
        r@ == zero(),
{
    DmNumber { bits: 0, shown: "0".to_string(), json: Some("0".to_string()) }
}

fn one_number() -> (r: DmNumber)
    ensures
        r@ == one(),
{
    DmNumber { bits: 0x3f80_0000, shown: "1".to_string(), json: Some("1".to_string()) }
}

/// The constant that a JSON string stands for.
fn text_to_constant(s: &String) -> (r: ConstantTree)
    ensures
        r@ == text_constant(s@),
{
    let chars = chars_of(s.as_str());
    let n: usize = chars.len();
    if n > 0 && chars[0] == '/' {
        ConstantTree::Prefab(s.clone())
    } else if n > 2 && chars[0] == '\'' && chars[n - 1] == '\'' {
        ConstantTree::Resource(text_between(&chars, 1, n - 1))
    } else {
        ConstantTree::Str(s.clone())
    }
}

/// Converts a JSON value to a DM constant.
pub fn json_to_constant(value: &JsonValue) -> (r: ConstantTree)
    ensures
        r@ == constant_of(value@),
    decreases value,
{
    broadcast use {array_view, object_view};

    match value {
        JsonValue::Null => ConstantTree::Null,
        JsonValue::Bool(b) => ConstantTree::Float(if *b { one_number() } else { zero_number() }),
        JsonValue::Number(n) => ConstantTree::Float(match &n.dm {
            Some(d) => d.clone(),
            None => zero_number(),
        }),
        JsonValue::Str(s) => text_to_constant(s),
        JsonValue::Array(a) => {
            let mut out: Vec<ConstantTree> = Vec::new();
            let mut i: usize = 0;
            while i < a.len()
                invariant
                    i <= a@.len(),
                    value matches JsonValue::Array(b) && b == a,
                    out@.len() == i,
                    forall|j: int| 0 <= j < i ==> (#[trigger] out@[j])@ == constant_of(a@[j]@),
                decreases a@.len() - i,
            {
                assert(decreases_to!(*value => a@[i as int]));
                let item = json_to_constant(&a[i]);
                out.push(item);
                i = i + 1;
            }
            let r = ConstantTree::List(out);
            assert(value@->Array_0 == json_views(a@));
            assert(r@->List_0 =~= constant_of(value@)->List_0);
            r
        },
        JsonValue::Object(o) => {
            if let Some(path) = text_member(o, "_type") {
                return ConstantTree::Prefab(path.to_string());
            }
            let mut out: Vec<(String, ConstantTree)> = Vec::new();
            let mut i: usize = 0;
            while i < o.len()
                invariant
                    i <= o@.len(),
                    value matches JsonValue::Object(b) && b == o,
                    out@.len() == i,
                    forall|j: int| 0 <= j < i ==> (#[trigger] out@[j]).0@ == o@[j].0@ && out@[j].1@ == constant_of(o@[j].1@),
                decreases o@.len() - i,
            {
                assert(decreases_to!(*value => o@[i as int].1));
                let item = json_to_constant(&o[i].1);
                out.push((o[i].0.clone(), item));
                i = i + 1;
            }
            let r = ConstantTree::Assoc(out);
            assert(value@->Object_0 == member_views(o@));
            assert(r@->Assoc_0 =~= constant_of(value@)->Assoc_0);
            r
        },
    }
}

} // verus!
