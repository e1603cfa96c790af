//! Rule validation.
//!
//! Rules are JavaScript: each has an anchor type and a check function. Only the positions of the
//! anchor type are visited. The engine decides what to run and what to make of the replies; the
//! JavaScript itself runs elsewhere.

use crate::index::{Located, LocatedPrefab};
use crate::json::{array_view, int_value, json_int, json_views, member_views, object_view, size_value, JsonNumber, JsonNumberView, JsonValue, JsonView};
use crate::prefab::{ConstantKind, ConstantKindView, ConstantView, Prefab, PrefabView};
use crate::tables::Cell;
use vstd::prelude::*;

verus! {

// ── Types ────────────────────────────────────────────────────────────

/// A violation found by a rule.
pub struct Violation {
    /// The rule.
    pub rule_id: String,
    pub severity: String,
    /// The message for a reader.
    pub message: String,
    /// The position of the object that failed.
    pub x: i32,
    pub y: i32,
    pub z: i32,
    /// The type path of the object that failed.
    pub anchor_path: String,
}

/// What a [`Violation`] holds.
#[verifier::ext_equal]
pub struct ViolationView {
    pub rule_id: Seq<char>,
    pub severity: Seq<char>,
    pub message: Seq<char>,
    pub pos: Cell,
    pub anchor_path: Seq<char>,
}

impl View for Violation {
    type V = ViolationView;

    open spec fn view(&self) -> ViolationView {
        ViolationView {
            rule_id: self.rule_id@,
            severity: self.severity@,
            message: self.message@,
            pos: (self.x, self.y, self.z),
            anchor_path: self.anchor_path@,
        }
    }
}

/// The views of a list of violations.
pub open spec fn violation_views(v: Seq<Violation>) -> Seq<ViolationView> {
    v.map_values(|e: Violation| e@)
}

/// A rule as its file defines it.
pub struct RuleDef {
    pub id: String,
    /// The type whose positions are visited.
    pub anchor: String,
    /// `error`, `warning` or `info`.
    pub severity: String,
    /// The message where a check gives none of its own.
    pub message: String,
    /// The file that the rule was loaded from.
    pub source_file: String,
}

/// What a [`RuleDef`] holds.
#[verifier::ext_equal]
pub struct RuleView {
    pub id: Seq<char>,
    pub anchor: Seq<char>,
    pub severity: Seq<char>,
    pub message: Seq<char>,
    pub source_file: Seq<char>,
}

impl View for RuleDef {
    type V = RuleView;

    open spec fn view(&self) -> RuleView {
        RuleView {
            id: self.id@,
            anchor: self.anchor@,
            severity: self.severity@,
            message: self.message@,
            source_file: self.source_file@,
        }
    }
}

/// The result of evaluating rules against a map.
pub struct ValidationResult {
    pub rules_evaluated: usize,
    pub anchors_checked: usize,
    pub violations: Vec<Violation>,
    pub errors: Vec<String>,
}

/// What a [`ValidationResult`] holds.
#[verifier::ext_equal]
pub struct ResultView {
    pub rules_evaluated: int,
    pub anchors_checked: int,
    pub violations: Seq<ViolationView>,
    pub errors: Seq<Seq<char>>,
}

impl View for ValidationResult {
    type V = ResultView;

    open spec fn view(&self) -> ResultView {
        ResultView {
            rules_evaluated: self.rules_evaluated as int,
            anchors_checked: self.anchors_checked as int,
            violations: violation_views(self.violations@),
            errors: crate::text::texts(self.errors@),
        }
    }
}

/// The rule engine: where the rules are.
pub struct RuleEngine {
    pub rules_dir: String,
}

impl RuleEngine {
    /// An engine for the rules in a directory.
    pub fn new(rules_dir: String) -> (r: Self)
        ensures
            r.rules_dir == rules_dir,
    {
        Self { rules_dir }
    }
}

// ── Check results ────────────────────────────────────────────────────

/// What a check function returned.
pub enum JsResult {
    Bool(bool),
    Undefined,
    Null,
    Str(String),
    /// A number, an object or anything else, a string that is no text included.
    Other,
}

/// What a [`JsResult`] holds.
#[verifier::ext_equal]
pub enum JsView {
    Bool(bool),
    Undefined,
    Null,
    Str(Seq<char>),
    Other,
}

impl View for JsResult {
    type V = JsView;

    open spec fn view(&self) -> JsView {
        match self {
            JsResult::Bool(b) => JsView::Bool(*b),
            JsResult::Undefined => JsView::Undefined,
            JsResult::Null => JsView::Null,
            JsResult::Str(s) => JsView::Str(s@),
            JsResult::Other => JsView::Other,
        }
    }
}

/// The message of a failed check: the default for `false`, its own for a non-empty string.
/// Anything else passes.
pub open spec fn check_message(result: JsView, default_message: Seq<char>) -> Option<Seq<char>> {
    match result {
        JsView::Bool(b) => if b { None } else { Some(default_message) },
        JsView::Str(s) => if s.len() == 0 { None } else { Some(s) },
        _ => None,
    }
}

/// Interprets what a check function returned: `None` if it passed, else the message.
pub fn interpret_check_result(result: &JsResult, default_message: &str) -> (r: Option<String>)
    ensures
        crate::prefab::opt_text(r) == check_message(result@, default_message@),
{
    match result {
        JsResult::Bool(b) => if *b {
            None
        } else {
            Some(default_message.to_string())
        },
        JsResult::Str(s) => if s.as_str().is_empty() {
            None
        } else {
            Some(s.clone())
        },
        _ => None,
    }
}

// ── Descriptors ──────────────────────────────────────────────────────

/// A constant as JSON.
pub open spec fn constant_json(c: ConstantView) -> JsonView {
    match c.kind {
        ConstantKindView::Null => JsonView::Null,
        ConstantKindView::Float(n) => match n.json {
            Some(t) => JsonView::Number(JsonNumberView { text: t, dm: None }),
            None => JsonView::Null,
        },
        ConstantKindView::Str(s) => JsonView::Str(s),
        ConstantKindView::Resource(s) => JsonView::Str(s),
        _ => JsonView::Str(c.detail),
    }
}

/// The variables of a prefab as JSON.
pub open spec fn vars_json(p: PrefabView) -> JsonView {
    JsonView::Object(p.vars.map_values(|e: (Seq<char>, ConstantView)| (e.0, constant_json(e.1))))
}

/// Converts the variables of a prefab to a JSON object.
pub fn prefab_vars_to_json(prefab: &Prefab) -> (r: JsonValue)
    ensures
        r@ == vars_json(prefab@),
{
    broadcast use object_view;

    let ghost want = prefab@.vars.map_values(|e: (Seq<char>, ConstantView)| (e.0, constant_json(e.1)));
    let mut members: Vec<(String, JsonValue)> = Vec::new();
    let mut i: usize = 0;
    while i < prefab.vars.len()
        invariant
            i <= prefab.vars@.len(),
            want == prefab@.vars.map_values(|e: (Seq<char>, ConstantView)| (e.0, constant_json(e.1))),
            member_views(members@) == want.take(i as int),
        decreases prefab.vars@.len() - i,
    {
        let e = &prefab.vars[i];
        let ghost before = member_views(members@);
        let value = match &e.1.kind {
            ConstantKind::Null => JsonValue::Null,
            ConstantKind::Float(n) => match &n.json {
                Some(t) => JsonValue::Number(JsonNumber { text: t.clone(), dm: None }),
                None => JsonValue::Null,
            },
            ConstantKind::Str(s) => JsonValue::Str(s.clone()),
            ConstantKind::Resource(s) => JsonValue::Str(s.clone()),
            _ => JsonValue::Str(e.1.detail.clone()),
        };
        assert(value@ == constant_json(e.1@));
        members.push((e.0.clone(), value));
        assert(member_views(members@) =~= before.push(want[i as int]));
        i = i + 1;
        assert(member_views(members@) =~= want.take(i as int));
    }
    assert(want.take(i as int) =~= want);
    JsonValue::Object(members)
}

/// An object as a check function gets it.
pub open spec fn instance_json(l: Located) -> JsonView {
    JsonView::Object(
        seq![
            ("path"@, JsonView::Str(l.prefab.path)),
            ("x"@, json_int(l.pos.0 as int)),
            ("y"@, json_int(l.pos.1 as int)),
            ("z"@, json_int(l.pos.2 as int)),
            ("vars"@, vars_json(l.prefab)),
        ],
    )
}

/// Describes an object for a check function.
pub fn describe_instance(l: &LocatedPrefab) -> (r: JsonValue)
    ensures
        r@ == instance_json(l@),
{
    broadcast use object_view;

    let vars = prefab_vars_to_json(&l.prefab);
    let members: Vec<(String, JsonValue)> = vec![
        ("path".to_string(), JsonValue::Str(l.prefab.path.clone())),
        ("x".to_string(), int_value(l.x)),
        ("y".to_string(), int_value(l.y)),
        ("z".to_string(), int_value(l.z)),
        ("vars".to_string(), vars),
    ];
    assert(member_views(members@) =~= instance_json(l@)->Object_0);
    JsonValue::Object(members)
}

/// The sum of the first coordinates.
pub open spec fn sum_x(tiles: Seq<Cell>) -> int
    decreases tiles.len(),
{
    if tiles.len() == 0 {
        0
    } else {
        sum_x(tiles.drop_last()) + tiles.last().0
    }
}

/// The sum of the second coordinates.
pub open spec fn sum_y(tiles: Seq<Cell>) -> int
    decreases tiles.len(),
{
    if tiles.len() == 0 {
        0
    } else {
        sum_y(tiles.drop_last()) + tiles.last().1
    }
}

/// The quotient rounded to the nearest integer, halves away from zero.
pub open spec fn rounded(sum: int, n: int) -> int {
    if sum >= 0 {
        (2 * sum + n) / (2 * n)
    } else {
        -((2 * (-sum) + n) / (2 * n))
    }
}

/// The lesser of two coordinates.
pub open spec fn lesser(a: i32, b: i32) -> i32 {
    if b < a { b } else { a }
}

/// The greater of two coordinates.
pub open spec fn greater(a: i32, b: i32) -> i32 {
    if b > a { b } else { a }
}

/// The smallest rectangle around tiles: least and greatest coordinates.
pub open spec fn bounds(tiles: Seq<Cell>) -> (i32, i32, i32, i32)
    decreases tiles.len(),
{
    if tiles.len() == 0 {
        (i32::MAX, i32::MAX, i32::MIN, i32::MIN)
    } else {
        let b = bounds(tiles.drop_last());
        let t = tiles.last();
        (lesser(b.0, t.0), lesser(b.1, t.1), greater(b.2, t.0), greater(b.3, t.1))
    }
}

/// The centre of an area: the rounded mean of its tiles, on the level of its last tile.
pub open spec fn centre(tiles: Seq<Cell>) -> Cell {
    (
        rounded(sum_x(tiles), tiles.len() as int) as i32,
        rounded(sum_y(tiles), tiles.len() as int) as i32,
        tiles.last().2,
    )
}

/// A position as JSON: `[x,y,z]`.
pub open spec fn cell_json(c: Cell) -> JsonView {
    JsonView::Array(seq![json_int(c.0 as int), json_int(c.1 as int), json_int(c.2 as int)])
}

/// An area as a check function gets it.
pub open spec fn area_json(path: Seq<char>, tiles: Seq<Cell>) -> JsonView {
    let c = centre(tiles);
    let b = bounds(tiles);
    JsonView::Object(
        seq![
            ("path"@, JsonView::Str(path)),
            ("tiles"@, JsonView::Array(tiles.map_values(|t: Cell| cell_json(t)))),
            ("tile_count"@, json_int(tiles.len() as int)),
            (
                "centroid"@,
                JsonView::Object(
                    seq![("x"@, json_int(c.0 as int)), ("y"@, json_int(c.1 as int)), ("z"@, json_int(c.2 as int))],
                ),
            ),
            (
                "bbox"@,
                JsonView::Object(
                    seq![
                        ("x1"@, json_int(b.0 as int)),
                        ("y1"@, json_int(b.1 as int)),
                        ("x2"@, json_int(b.2 as int)),
                        ("y2"@, json_int(b.3 as int)),
                    ],
                ),
            ),
            ("z"@, json_int(c.2 as int)),
            ("x"@, json_int(c.0 as int)),
            ("y"@, json_int(c.1 as int)),
        ],
    )
}

fn round_mean(sum: i128, n: i128) -> (r: i32)
    requires
        0 < n < 0x1_0000_0000_0000_0000,
        -0x8000_0000_0000_0000_0000_0000 <= sum <= 0x8000_0000_0000_0000_0000_0000,
    ensures
        r == rounded(sum as int, n as int) as i32,
{
    if sum >= 0 {
        ((2 * sum + n) / (2 * n)) as i32
    } else {
        let q: i128 = (2 * (-sum) + n) / (2 * n);
        assert(0 <= q <= 2 * (-sum) + n) by (nonlinear_arith)
            requires
                q == (2 * (-sum) + n) / (2 * n),
                n > 0,
                sum < 0,
        ;
        (-q) as i32
    }
}

/// The centre and the bounds of an area.
fn measure(tiles: &[Cell]) -> (r: (Cell, (i32, i32, i32, i32)))
    requires
        tiles@.len() > 0,
    ensures
        r.0 == centre(tiles@),
        r.1 == bounds(tiles@),
{
    let n: usize = tiles.len();
    let mut sx: i128 = 0;
    let mut sy: i128 = 0;
    let mut min_x: i32 = i32::MAX;
    let mut min_y: i32 = i32::MAX;
    let mut max_x: i32 = i32::MIN;
    let mut max_y: i32 = i32::MIN;
    let mut i: usize = 0;
    while i < n
        invariant
            i <= n == tiles@.len(),
            sx == sum_x(tiles@.take(i as int)),
            sy == sum_y(tiles@.take(i as int)),
            -0x8000_0000 * i <= sx <= 0x8000_0000 * i,
            -0x8000_0000 * i <= sy <= 0x8000_0000 * i,
            (min_x, min_y, max_x, max_y) == bounds(tiles@.take(i as int)),
        decreases n - i,
    {
        let t = tiles[i];
        assert(tiles@.take(i + 1).drop_last() =~= tiles@.take(i as int));
        sx = sx + t.0 as i128;
        sy = sy + t.1 as i128;
        if t.0 < min_x {
            min_x = t.0;
        }
        if t.0 > max_x {
            max_x = t.0;
        }
        if t.1 < min_y {
            min_y = t.1;
        }
        if t.1 > max_y {
            max_y = t.1;
        }
        i = i + 1;
    }
    assert(tiles@.take(i as int) =~= tiles@);
    let cx: i32 = round_mean(sx, n as i128);
    let cy: i32 = round_mean(sy, n as i128);
    ((cx, cy, tiles[n - 1].2), (min_x, min_y, max_x, max_y))
}

/// The centre of an area.
pub fn area_centre(tiles: &[Cell]) -> (r: Cell)
    requires
        tiles@.len() > 0,
    ensures
        r == centre(tiles@),
{
    measure(tiles).0
}

fn cell_value(c: Cell) -> (r: JsonValue)
    ensures
        r@ == cell_json(c),
{
    broadcast use array_view;

    let items: Vec<JsonValue> = vec![int_value(c.0), int_value(c.1), int_value(c.2)];
    assert(json_views(items@) =~= cell_json(c)->Array_0);
    JsonValue::Array(items)
}

/// Describes an area for a check function.
pub fn describe_area(path: &str, tiles: &[Cell]) -> (r: JsonValue)
    requires
        tiles@.len() > 0,
    ensures
        r@ == area_json(path@, tiles@),
{
    broadcast use {array_view, object_view};

    let (c, b) = measure(tiles);
    let ghost want = area_json(path@, tiles@)->Object_0;
    let mut items: Vec<JsonValue> = Vec::new();
    let ghost want_tiles = tiles@.map_values(|t: Cell| cell_json(t));
    let mut i: usize = 0;
    while i < tiles.len()
        invariant
            i <= tiles@.len(),
            want_tiles == tiles@.map_values(|t: Cell| cell_json(t)),
            json_views(items@) == want_tiles.take(i as int),
        decreases tiles@.len() - i,
    {
        let ghost before = json_views(items@);
        let item = cell_value(tiles[i]);
        items.push(item);
        assert(json_views(items@) =~= before.push(item@));
        i = i + 1;
        assert(json_views(items@) =~= want_tiles.take(i as int));
    }
    assert(want_tiles.take(i as int) =~= want_tiles);
    let centroid: Vec<(String, JsonValue)> = vec![
        ("x".to_string(), int_value(c.0)),
        ("y".to_string(), int_value(c.1)),
        ("z".to_string(), int_value(c.2)),
    ];
    assert(member_views(centroid@) =~= want[3].1->Object_0);
    let bbox: Vec<(String, JsonValue)> = vec![
        ("x1".to_string(), int_value(b.0)),
        ("y1".to_string(), int_value(b.1)),
        ("x2".to_string(), int_value(b.2)),
        ("y2".to_string(), int_value(b.3)),
    ];
    assert(member_views(bbox@) =~= want[4].1->Object_0);
    let members: Vec<(String, JsonValue)> = vec![
        ("path".to_string(), JsonValue::Str(path.to_string())),
        ("tiles".to_string(), JsonValue::Array(items)),
        ("tile_count".to_string(), size_value(tiles.len())),
        ("centroid".to_string(), JsonValue::Object(centroid)),
        ("bbox".to_string(), JsonValue::Object(bbox)),
        ("z".to_string(), int_value(c.2)),
        ("x".to_string(), int_value(c.0)),
        ("y".to_string(), int_value(c.1)),
    ];
    assert(member_views(members@) =~= want);
    JsonValue::Object(members)
}

} // verus!
