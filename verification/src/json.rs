//! JSON values as the library holds them.

use crate::prefab::{DmNumber, DmNumberView};
use crate::text::{i32_text, same_text, usize_text};
use vstd::prelude::*;

verus! {

/// A JSON number: its text, and the DM number it stands for where one was read from it.
pub struct JsonNumber {
    pub text: String,
    pub dm: Option<DmNumber>,
}

/// What a [`JsonNumber`] holds.
#[verifier::ext_equal]
pub struct JsonNumberView {
    pub text: Seq<char>,
    pub dm: Option<DmNumberView>,
}

impl View for JsonNumber {
    type V = JsonNumberView;

    open spec fn view(&self) -> JsonNumberView {
        JsonNumberView {
            text: self.text@,
            dm: match self.dm {
                Some(n) => Some(n@),
                None => None,
            },
        }
    }
}

impl Clone for JsonNumber {
    fn clone(&self) -> (r: Self)
        ensures
            r@ == self@,
    {
        JsonNumber {
            text: self.text.clone(),
            dm: match &self.dm {
                Some(n) => Some(n.clone()),
                None => None,
            },
        }
    }
}

/// A JSON value. An object keeps its members in the order in which it was given them.
pub enum JsonValue {
    Null,
    Bool(bool),
    Number(JsonNumber),
    Str(String),
    Array(Vec<JsonValue>),
    Object(Vec<(String, JsonValue)>),
}

/// What a [`JsonValue`] holds.
#[verifier::ext_equal]
pub enum JsonView {
    Null,
    Bool(bool),
    Number(JsonNumberView),
    Str(Seq<char>),
    Array(Seq<JsonView>),
    Object(Seq<(Seq<char>, JsonView)>),
}

impl JsonValue {
    /// What the value holds, to any depth.
    pub open spec fn shown(&self) -> JsonView
        decreases self,
    {
        match self {
            JsonValue::Null => JsonView::Null,
            JsonValue::Bool(b) => JsonView::Bool(*b),
            JsonValue::Number(n) => JsonView::Number(n@),
            JsonValue::Str(s) => JsonView::Str(s@),
            JsonValue::Array(a) => JsonView::Array(
                Seq::new(
                    a@.len(),
                    |i: int|
                        if 0 <= i < a@.len() {
                            a@[i].shown()
                        } else {
                            JsonView::Null
                        },
                ),
            ),
            JsonValue::Object(o) => JsonView::Object(
                Seq::new(
                    o@.len(),
                    |i: int|
                        if 0 <= i < o@.len() {
                            (o@[i].0@, o@[i].1.shown())
                        } else {
                            (Seq::empty(), JsonView::Null)
                        },
                ),
            ),
        }
    }
}

impl View for JsonValue {
    type V = JsonView;

    open spec fn view(&self) -> JsonView {
        self.shown()
    }
}

/// The views of a list of values.
pub open spec fn json_views(v: Seq<JsonValue>) -> Seq<JsonView> {
    v.map_values(|e: JsonValue| e@)
}

/// The views of a list of named values.
pub open spec fn member_views(v: Seq<(String, JsonValue)>) -> Seq<(Seq<char>, JsonView)> {
    v.map_values(|e: (String, JsonValue)| (e.0@, e.1@))
}

/// An array's view is made of the views of its items.
pub broadcast proof fn array_view(a: Vec<JsonValue>)
    ensures
        #[trigger] JsonValue::Array(a)@ == JsonView::Array(json_views(a@)),
{
    assert(JsonValue::Array(a)@->Array_0 =~= json_views(a@));
}

/// An object's view is made of the views of its members.
pub broadcast proof fn object_view(o: Vec<(String, JsonValue)>)
    ensures
        #[trigger] JsonValue::Object(o)@ == JsonView::Object(member_views(o@)),
{
    assert(JsonValue::Object(o)@->Object_0 =~= member_views(o@));
}

/// The member of an object by name: the first that carries it.
pub open spec fn member(o: Seq<(Seq<char>, JsonView)>, name: Seq<char>) -> Option<JsonView>
    decreases o.len(),
{
    if o.len() == 0 {
        None
    } else if o[0].0 == name {
        Some(o[0].1)
    } else {
        member(o.skip(1), name)
    }
}

/// The text in a string value.
pub open spec fn as_text(v: Option<JsonView>) -> Option<Seq<char>> {
    match v {
        Some(JsonView::Str(s)) => Some(s),
        _ => None,
    }
}

/// Finds a member of an object.
pub fn find_member<'a>(o: &'a Vec<(String, JsonValue)>, name: &str) -> (r: Option<&'a JsonValue>)
    ensures
        match r {
            Some(v) => member(member_views(o@), name@) == Some(v@),
            None => member(member_views(o@), name@) is None,
        },
{
    let ghost all = member_views(o@);
    let mut i: usize = 0;
    assert(all.skip(0) =~= all);
    while i < o.len()
        invariant
            i <= o@.len(),
            all == member_views(o@),
            member(all.skip(i as int), name@) == member(all, name@),
        decreases o@.len() - i,
    {
        assert(all.skip(i as int).skip(1) =~= all.skip(i + 1));
        if same_text(o[i].0.as_str(), name) {
            return Some(&o[i].1);
        }
        i = i + 1;
    }
    None
}

/// The text of a member that is a string.
pub fn text_member<'a>(o: &'a Vec<(String, JsonValue)>, name: &str) -> (r: Option<&'a str>)
    ensures
        match r {
            Some(t) => as_text(member(member_views(o@), name@)) == Some(t@),
            None => as_text(member(member_views(o@), name@)) is None,
        },
{
    match find_member(o, name) {
        Some(v) => match v {
            JsonValue::Str(s) => Some(s.as_str()),
            _ => None,
        },
        None => None,
    }
}

impl Clone for JsonValue {
    fn clone(&self) -> (r: Self)
        ensures
            r@ == self@,
        decreases self,
    {
        broadcast use {array_view, object_view};

        match self {
            JsonValue::Null => JsonValue::Null,
            JsonValue::Bool(b) => JsonValue::Bool(*b),
            JsonValue::Number(n) => JsonValue::Number(n.clone()),
            JsonValue::Str(s) => JsonValue::Str(s.clone()),
            JsonValue::Array(a) => {
                let mut out: Vec<JsonValue> = Vec::new();
                let mut i: usize = 0;
                while i < a.len()
                    invariant
                        i <= a@.len(),
                        self matches JsonValue::Array(b) && b == a,
                        json_views(out@) == json_views(a@).take(i as int),
                    decreases a@.len() - i,
                {
                    let ghost before = out@;
                    assert(decreases_to!(*self => a@[i as int]));
                    let item = a[i].clone();
                    out.push(item);
                    assert(json_views(out@) =~= json_views(before).push(item@));
                    i = i + 1;
                    assert(json_views(out@) =~= json_views(a@).take(i as int));
                }
                assert(json_views(a@).take(i as int) =~= json_views(a@));
                JsonValue::Array(out)
            },
            JsonValue::Object(o) => {
                let mut out: Vec<(String, JsonValue)> = Vec::new();
                let mut i: usize = 0;
                while i < o.len()
                    invariant
                        i <= o@.len(),
                        self matches JsonValue::Object(b) && b == o,
                        member_views(out@) == member_views(o@).take(i as int),
                    decreases o@.len() - i,
                {
                    let ghost before = out@;
                    assert(decreases_to!(*self => o@[i as int].1));
                    let value = o[i].1.clone();
                    out.push((o[i].0.clone(), value));
                    assert(member_views(out@) =~= member_views(before).push(member_views(o@)[i as int]));
                    i = i + 1;
                    assert(member_views(out@) =~= member_views(o@).take(i as int));
                }
                assert(member_views(o@).take(i as int) =~= member_views(o@));
                JsonValue::Object(out)
            },
        }
    }
}

// ── Numbers that the library makes ───────────────────────────────────

/// An integer as a JSON number.
pub open spec fn json_int(n: int) -> JsonView {
    JsonView::Number(JsonNumberView { text: crate::text::dec(n), dm: None })
}

/// Makes a JSON number of an integer.
pub fn int_value(n: i32) -> (r: JsonValue)
    ensures
        r@ == json_int(n as int),
{
    JsonValue::Number(JsonNumber { text: i32_text(n), dm: None })
}

/// Makes a JSON number of a size.
pub fn size_value(n: usize) -> (r: JsonValue)
    ensures
        r@ == json_int(n as int),
{
    JsonValue::Number(JsonNumber { text: usize_text(n), dm: None })
}

// ── Writing ──────────────────────────────────────────────────────────

/// A JSON value as `serde_json` holds it.
#[verifier::external_type_specification]
#[verifier::external_body]
pub struct ExValue(serde_json::Value);

/// A value in compact JSON, as `serde_json` writes it.
pub uninterp spec fn json_text(v: JsonView) -> Seq<char>;

/// Converts a value to `serde_json::Value`, variant by variant. A number whose text is no JSON
/// number becomes `null`. Nothing is claimed of the result.
#[verifier::external_body]
fn to_serde(v: &JsonValue) -> serde_json::Value {
    match v {
        JsonValue::Null => serde_json::Value::Null,
        JsonValue::Bool(b) => serde_json::Value::Bool(*b),
        JsonValue::Number(n) => n.text.parse().map(serde_json::Value::Number).unwrap_or(serde_json::Value::Null),
        JsonValue::Str(s) => serde_json::Value::String(s.clone()),
        JsonValue::Array(a) => serde_json::Value::Array(a.iter().map(to_serde).collect()),
        JsonValue::Object(o) => {
            serde_json::Value::Object(o.iter().map(|e| (e.0.clone(), to_serde(&e.1))).collect())
        },
    }
}

/// Calls the `Display` formatting of `serde_json::Value`, which writes compact JSON with the
/// members of an object in the order of their names. The result is named, not spelled out.
#[verifier::external_body]
pub(crate) fn json_display(v: &JsonValue) -> (r: String)
    ensures
        r@ == json_text(v@),
{
    to_serde(v).to_string()
}

/// Writes a value as compact JSON.
pub fn write_json(v: &JsonValue) -> (r: String)
    ensures
        r@ == json_text(v@),
{
    json_display(v)
}

} // verus!
