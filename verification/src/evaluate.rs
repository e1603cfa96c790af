//! The evaluation of rules, one reply at a time.
//!
//! An [`Evaluation`] says what is to be done next and takes in how it went: reading a rule file,
//! loading it, looking at a rule, running a check. The order of things, which objects a rule
//! visits, and what the replies amount to are decided here.

use crate::index::{located_views, Located, LocatedPrefab, SpatialIndex};
use crate::json::{JsonValue, JsonView};
use crate::names::{sorted_names, NameTable};
use crate::prefab::opt_text;
use crate::rules::{
    area_json, centre, check_message, describe_area, describe_instance, instance_json, interpret_check_result,
    violation_views, JsResult, JsView, ResultView, RuleDef, RuleEngine, RuleView, ValidationResult, Violation, ViolationView,
};
use crate::scripts::{json_to_js, parse_script, rule_script, wrap_rules};
use crate::tables::Cell;
use crate::text::{dec, has_prefix, i32_text, replace_text, replaced, same_text, starts_with, texts, usize_text};
use vstd::prelude::*;

verus! {

// ── What a rule visits ───────────────────────────────────────────────

/// Something that a rule is checked on: an object, or an area.
pub struct Subject {
    /// What the check function gets.
    pub descriptor: JsonValue,
    pub path: String,
    pub x: i32,
    pub y: i32,
    pub z: i32,
    pub area: bool,
}

/// What a [`Subject`] holds.
#[verifier::ext_equal]
pub struct SubjectView {
    pub descriptor: JsonView,
    pub path: Seq<char>,
    pub pos: Cell,
    pub area: bool,
}

impl View for Subject {
    type V = SubjectView;

    open spec fn view(&self) -> SubjectView {
        SubjectView {
            descriptor: self.descriptor@,
            path: self.path@,
            pos: (self.x, self.y, self.z),
            area: self.area,
        }
    }
}

/// The views of a list of subjects.
pub open spec fn subject_views(v: Seq<Subject>) -> Seq<SubjectView> {
    v.map_values(|s: Subject| s@)
}

/// An object as a subject.
pub open spec fn instance_subject(l: Located) -> SubjectView {
    SubjectView { descriptor: instance_json(l), path: l.prefab.path, pos: l.pos, area: false }
}

/// An area as a subject.
pub open spec fn area_subject(path: Seq<char>, tiles: Seq<Cell>) -> SubjectView {
    SubjectView { descriptor: area_json(path, tiles), path, pos: centre(tiles), area: true }
}

/// Whether an anchor is about areas.
pub open spec fn on_areas(anchor: Seq<char>) -> bool {
    starts_with(anchor, "/area"@)
}

/// The areas whose path begins with the anchor.
pub open spec fn matching_areas(paths: Seq<Seq<char>>, anchor: Seq<char>) -> Seq<Seq<char>>
    decreases paths.len(),
{
    if paths.len() == 0 {
        Seq::empty()
    } else {
        let front = matching_areas(paths.drop_last(), anchor);
        if starts_with(paths.last(), anchor) {
            front.push(paths.last())
        } else {
            front
        }
    }
}

/// The areas that have tiles, as subjects.
pub open spec fn area_subjects(index: &SpatialIndex, paths: Seq<Seq<char>>) -> Seq<SubjectView>
    decreases paths.len(),
{
    if paths.len() == 0 {
        Seq::empty()
    } else {
        let front = area_subjects(index, paths.drop_last());
        let tiles = index.area_positions(paths.last());
        if tiles.len() > 0 {
            front.push(area_subject(paths.last(), tiles))
        } else {
            front
        }
    }
}

/// What a rule with the given anchor is checked on.
pub open spec fn subjects_of(index: &SpatialIndex, anchor: Seq<char>) -> Seq<SubjectView> {
    if on_areas(anchor) {
        area_subjects(index, matching_areas(index.area_paths(), anchor))
    } else {
        index.instances(anchor).map_values(|l: Located| instance_subject(l))
    }
}

/// How many anchors a rule counts: every matching area, tiles or not, or every instance.
pub open spec fn anchor_count(index: &SpatialIndex, anchor: Seq<char>) -> nat {
    if on_areas(anchor) {
        matching_areas(index.area_paths(), anchor).len()
    } else {
        index.instances(anchor).len()
    }
}

fn make_instance(l: &LocatedPrefab) -> (r: Subject)
    ensures
        r@ == instance_subject(l@),
{
    Subject { descriptor: describe_instance(l), path: l.prefab.path.clone(), x: l.x, y: l.y, z: l.z, area: false }
}

fn make_area(path: &str, tiles: &[Cell]) -> (r: Subject)
    requires
        tiles@.len() > 0,
    ensures
        r@ == area_subject(path@, tiles@),
{
    let c = crate::rules::area_centre(tiles);
    Subject { descriptor: describe_area(path, tiles), path: path.to_string(), x: c.0, y: c.1, z: c.2, area: true }
}

/// Finds what a rule is checked on, and how many anchors that counts for.
pub fn find_subjects(index: &SpatialIndex, anchor: &str) -> (r: (Vec<Subject>, usize))
    requires
        index.wf(),
    ensures
        subject_views(r.0@) == subjects_of(index, anchor@),
        r.1 == anchor_count(index, anchor@),
{
    let mut out: Vec<Subject> = Vec::new();
    if has_prefix(anchor, "/area") {
        let areas = index.all_areas();
        let ghost paths = index.area_paths();
        assert(areas@.map_values(|s: &str| s@).len() == areas@.len());
        let mut count: usize = 0;
        let mut i: usize = 0;
        assert(subject_views(out@) =~= Seq::empty());
        while i < areas.len()
            invariant
                i <= areas@.len(),
                count <= i,
                index.wf(),
                paths == index.area_paths(),
                areas@.map_values(|s: &str| s@) == paths,
                areas@.len() == paths.len(),
                count == matching_areas(paths.take(i as int), anchor@).len(),
                subject_views(out@) == area_subjects(index, matching_areas(paths.take(i as int), anchor@)),
            decreases areas@.len() - i,
        {
            let path = areas[i];
            assert(areas@.map_values(|s: &str| s@)[i as int] == path@);
            assert(paths.take(i + 1).drop_last() =~= paths.take(i as int));
            let ghost before = subject_views(out@);
            let ghost matched = matching_areas(paths.take(i as int), anchor@);
            if has_prefix(path, anchor) {
                count = count + 1;
                let tiles = index.area_tiles(path);
                assert(matched.push(path@).drop_last() =~= matched);
                if tiles.len() > 0 {
                    let s = make_area(path, tiles);
                    out.push(s);
                    assert(subject_views(out@) =~= before.push(s@));
                }
            }
            i = i + 1;
        }
        assert(paths.take(i as int) =~= paths);
        (out, count)
    } else {
        let instances = index.instances_of(anchor);
        let ghost want = index.instances(anchor@).map_values(|l: Located| instance_subject(l));
        let ghost list = located_views(instances@);
        let mut i: usize = 0;
        assert(subject_views(out@) =~= want.take(0));
        while i < instances.len()
            invariant
                i <= instances@.len(),
                list == located_views(instances@),
                want == list.map_values(|l: Located| instance_subject(l)),
                subject_views(out@) == want.take(i as int),
            decreases instances@.len() - i,
        {
            let ghost before = subject_views(out@);
            let s = make_instance(&instances[i]);
            out.push(s);
            assert(subject_views(out@) =~= before.push(s@));
            i = i + 1;
            assert(subject_views(out@) =~= want.take(i as int));
        }
        assert(want.take(i as int) =~= want);
        (out, instances.len())
    }
}

// ── Rules ────────────────────────────────────────────────────────────

/// What a rule file defines as a rule.
pub struct RuleFields {
    pub id: Option<String>,
    /// The anchor, or why there is none.
    pub anchor: Result<String, String>,
    pub severity: Option<String>,
    pub message: Option<String>,
    /// Why there is no check function, where there is none.
    pub check_error: Option<String>,
}

/// What [`RuleFields`] hold.
#[verifier::ext_equal]
pub struct FieldsView {
    pub id: Option<Seq<char>>,
    pub anchor: Result<Seq<char>, Seq<char>>,
    pub severity: Option<Seq<char>>,
    pub message: Option<Seq<char>>,
    pub check_error: Option<Seq<char>>,
}

impl View for RuleFields {
    type V = FieldsView;

    open spec fn view(&self) -> FieldsView {
        FieldsView {
            id: opt_text(self.id),
            anchor: match self.anchor {
                Ok(a) => Ok(a@),
                Err(e) => Err(e@),
            },
            severity: opt_text(self.severity),
            message: opt_text(self.message),
            check_error: opt_text(self.check_error),
        }
    }
}

/// An optional text, or another.
pub open spec fn or_else(t: Option<Seq<char>>, d: Seq<char>) -> Seq<char> {
    match t {
        Some(s) => s,
        None => d,
    }
}

/// The rule that a definition amounts to, or what is wrong with it.
pub open spec fn rule_of(file: Seq<char>, i: int, f: FieldsView) -> Result<RuleView, Seq<char>> {
    let id = or_else(f.id, file + "-rule-"@ + dec(i));
    match f.anchor {
        Err(e) => Err("Rule '"@ + id + "': missing anchor: "@ + e),
        Ok(anchor) => match f.check_error {
            Some(e) => Err("Rule '"@ + id + "': missing check function: "@ + e),
            None => Ok(
                RuleView {
                    id,
                    anchor,
                    severity: or_else(f.severity, "warning"@),
                    message: or_else(f.message, "Rule '"@ + id + "' failed"@),
                    source_file: file,
                },
            ),
        },
    }
}

/// The view of a rule or of what is wrong with it.
pub open spec fn rule_result(r: Result<RuleDef, String>) -> Result<RuleView, Seq<char>> {
    match r {
        Ok(d) => Ok(d@),
        Err(e) => Err(e@),
    }
}

/// Reads a rule definition.
pub fn accept_rule(file: &str, i: usize, f: RuleFields) -> (r: Result<RuleDef, String>)
    ensures
        rule_result(r) == rule_of(file@, i as int, f@),
{
    let id = match f.id {
        Some(id) => id,
        None => {
            let mut id = file.to_string();
            id.append("-rule-");
            id.append(usize_text(i).as_str());
            id
        },
    };
    let anchor = match f.anchor {
        Ok(a) => a,
        Err(e) => {
            let mut text = "Rule '".to_string();
            text.append(id.as_str());
            text.append("': missing anchor: ");
            text.append(e.as_str());
            return Err(text);
        },
    };
    let severity = match f.severity {
        Some(s) => s,
        None => "warning".to_string(),
    };
    let message = match f.message {
        Some(m) => m,
        None => {
            let mut m = "Rule '".to_string();
            m.append(id.as_str());
            m.append("' failed");
            m
        },
    };
    if let Some(e) = f.check_error {
        let mut text = "Rule '".to_string();
        text.append(id.as_str());
        text.append("': missing check function: ");
        text.append(e.as_str());
        return Err(text);
    }
    Ok(RuleDef { id, anchor, severity, message, source_file: file.to_string() })
}

// ── Verdicts ─────────────────────────────────────────────────────────

/// A message with the position, and for an area its path, put in for the placeholders.
pub open spec fn filled_in(message: Seq<char>, s: SubjectView) -> Seq<char> {
    let placed = replaced(
        replaced(replaced(message, "{x}"@, dec(s.pos.0 as int)), "{y}"@, dec(s.pos.1 as int)),
        "{z}"@,
        dec(s.pos.2 as int),
    );
    if s.area {
        replaced(placed, "{area}"@, s.path)
    } else {
        placed
    }
}

/// The violation that a failed check amounts to.
pub open spec fn violation_of(rule: RuleView, s: SubjectView, message: Seq<char>) -> ViolationView {
    ViolationView {
        rule_id: rule.id,
        severity: rule.severity,
        message: filled_in(message, s),
        pos: s.pos,
        anchor_path: s.path,
    }
}

/// What is said of a check that threw.
pub open spec fn threw_text(rule: RuleView, s: SubjectView, e: Seq<char>) -> Seq<char> {
    if s.area {
        "Rule '"@ + rule.id + "' threw on area '"@ + s.path + "': "@ + e
    } else {
        "Rule '"@ + rule.id + "' threw at ("@ + dec(s.pos.0 as int) + ","@ + dec(s.pos.1 as int) + ","@ + dec(
            s.pos.2 as int,
        ) + "): "@ + e
    }
}

fn fill_in(message: &str, s: &Subject) -> (r: String)
    ensures
        r@ == filled_in(message@, s@),
{
    proof {
        reveal_strlit("{x}");
        reveal_strlit("{y}");
        reveal_strlit("{z}");
        reveal_strlit("{area}");
    }
    let a = replace_text(message, "{x}", i32_text(s.x).as_str());
    let b = replace_text(a.as_str(), "{y}", i32_text(s.y).as_str());
    let c = replace_text(b.as_str(), "{z}", i32_text(s.z).as_str());
    if s.area {
        replace_text(c.as_str(), "{area}", s.path.as_str())
    } else {
        c
    }
}

fn make_violation(rule: &RuleDef, s: &Subject, message: &str) -> (r: Violation)
    ensures
        r@ == violation_of(rule@, s@, message@),
{
    Violation {
        rule_id: rule.id.clone(),
        severity: rule.severity.clone(),
        message: fill_in(message, s),
        x: s.x,
        y: s.y,
        z: s.z,
        anchor_path: s.path.clone(),
    }
}

fn write_threw(rule: &RuleDef, s: &Subject, e: &str) -> (r: String)
    ensures
        r@ == threw_text(rule@, s@, e@),
{
    let mut out = "Rule '".to_string();
    out.append(rule.id.as_str());
    if s.area {
        out.append("' threw on area '");
        out.append(s.path.as_str());
        out.append("': ");
    } else {
        out.append("' threw at (");
        out.append(i32_text(s.x).as_str());
        out.append(",");
        out.append(i32_text(s.y).as_str());
        out.append(",");
        out.append(i32_text(s.z).as_str());
        out.append("): ");
    }
    out.append(e);
    out
}

// ── The evaluation ───────────────────────────────────────────────────

/// A rule file: where it is, and what it is called.
pub struct RuleFile {
    pub path: String,
    pub name: String,
}

/// What a [`RuleFile`] holds.
#[verifier::ext_equal]
pub struct FileView {
    pub path: Seq<char>,
    pub name: Seq<char>,
}

/// The views of a list of files.
pub open spec fn file_views(v: Seq<RuleFile>) -> Seq<FileView> {
    v.map_values(|f: RuleFile| FileView { path: f.path@, name: f.name@ })
}

/// How far an evaluation has come.
pub enum Stage {
    /// A file is to be read.
    Read(usize),
    /// A file was read, and this script loads it.
    Load(usize, String),
    /// A loaded file has so many rules, and this one is to be looked at.
    Rule(usize, usize, usize),
    /// A rule is being checked on its subjects.
    Check(RuleRun),
    Done,
}

/// A rule being checked on its subjects.
pub struct RuleRun {
    pub file: usize,
    pub count: usize,
    pub number: usize,
    pub rule: RuleDef,
    pub subjects: Vec<Subject>,
    pub at: usize,
}

/// What a [`RuleRun`] holds.
#[verifier::ext_equal]
pub struct RunView {
    pub file: int,
    pub count: int,
    pub number: int,
    pub rule: RuleView,
    pub subjects: Seq<SubjectView>,
    pub at: int,
}

impl View for RuleRun {
    type V = RunView;

    open spec fn view(&self) -> RunView {
        RunView {
            file: self.file as int,
            count: self.count as int,
            number: self.number as int,
            rule: self.rule@,
            subjects: subject_views(self.subjects@),
            at: self.at as int,
        }
    }
}

/// What a [`Stage`] holds.
#[verifier::ext_equal]
pub enum StageView {
    Read(int),
    Load(int, Seq<char>),
    Rule(int, int, int),
    Check(RunView),
    Done,
}

impl View for Stage {
    type V = StageView;

    open spec fn view(&self) -> StageView {
        match self {
            Stage::Read(n) => StageView::Read(*n as int),
            Stage::Load(n, s) => StageView::Load(*n as int, s@),
            Stage::Rule(n, c, i) => StageView::Rule(*n as int, *c as int, *i as int),
            Stage::Check(run) => StageView::Check(run@),
            Stage::Done => StageView::Done,
        }
    }
}

/// How something that was to be done went.
pub enum Event {
    ReadFailed(String),
    ReadDone(String),
    LoadFailed(String),
    /// The script did not give an array.
    NotArray,
    /// The script gave so many rules.
    Loaded(usize),
    RuleFailed(String),
    /// The rule is no object.
    NotObject,
    RuleFound(RuleFields),
    /// The check function threw.
    Threw(String),
    /// The check function returned.
    Returned(JsResult),
}

/// What an [`Event`] holds.
#[verifier::ext_equal]
pub enum EventView {
    ReadFailed(Seq<char>),
    ReadDone(Seq<char>),
    LoadFailed(Seq<char>),
    NotArray,
    Loaded(int),
    RuleFailed(Seq<char>),
    NotObject,
    RuleFound(FieldsView),
    Threw(Seq<char>),
    Returned(JsView),
}

impl View for Event {
    type V = EventView;

    open spec fn view(&self) -> EventView {
        match self {
            Event::ReadFailed(e) => EventView::ReadFailed(e@),
            Event::ReadDone(s) => EventView::ReadDone(s@),
            Event::LoadFailed(e) => EventView::LoadFailed(e@),
            Event::NotArray => EventView::NotArray,
            Event::Loaded(n) => EventView::Loaded(*n as int),
            Event::RuleFailed(e) => EventView::RuleFailed(e@),
            Event::NotObject => EventView::NotObject,
            Event::RuleFound(f) => EventView::RuleFound(f@),
            Event::Threw(e) => EventView::Threw(e@),
            Event::Returned(v) => EventView::Returned(v@),
        }
    }
}

/// An evaluation of rules against a map.
pub struct Evaluation {
    pub files: Vec<RuleFile>,
    pub stage: Stage,
    pub result: ValidationResult,
}

/// What an [`Evaluation`] holds.
#[verifier::ext_equal]
pub struct EvalView {
    pub files: Seq<FileView>,
    pub stage: StageView,
    pub result: ResultView,
}

impl View for Evaluation {
    type V = EvalView;

    open spec fn view(&self) -> EvalView {
        EvalView { files: file_views(self.files@), stage: self.stage@, result: self.result@ }
    }
}

/// An evaluation of files at its beginning. Without any there is nothing to do, and the result
/// says so.
pub open spec fn begun(files: Seq<FileView>) -> EvalView {
    EvalView {
        files,
        stage: if files.len() == 0 {
            StageView::Done
        } else {
            StageView::Read(0)
        },
        result: ResultView {
            rules_evaluated: 0,
            anchors_checked: 0,
            violations: Seq::empty(),
            errors: if files.len() == 0 {
                seq!["No rule files found"@]
            } else {
                Seq::empty()
            },
        },
    }
}

/// The stage after a file.
pub open spec fn next_file(files: Seq<FileView>, n: int) -> StageView {
    if n + 1 < files.len() {
        StageView::Read(n + 1)
    } else {
        StageView::Done
    }
}

/// The stage after a rule.
pub open spec fn next_rule(files: Seq<FileView>, n: int, count: int, i: int) -> StageView {
    if i + 1 < count {
        StageView::Rule(n, count, i + 1)
    } else {
        next_file(files, n)
    }
}

/// The stage after a check.
pub open spec fn next_check(files: Seq<FileView>, run: RunView) -> StageView {
    if run.at + 1 < run.subjects.len() {
        StageView::Check(RunView { at: run.at + 1, ..run })
    } else {
        next_rule(files, run.file, run.count, run.number)
    }
}

/// A result with one more error.
pub open spec fn with_error(r: ResultView, e: Seq<char>) -> ResultView {
    ResultView { errors: r.errors.push(e), ..r }
}

/// A result after a check returned.
pub open spec fn with_verdict(r: ResultView, rule: RuleView, s: SubjectView, v: JsView) -> ResultView {
    match check_message(v, rule.message) {
        Some(m) => ResultView { violations: r.violations.push(violation_of(rule, s, m)), ..r },
        None => r,
    }
}

/// The stage and the result after a rule was found.
pub open spec fn rule_found(index: &SpatialIndex, s: EvalView, n: int, count: int, i: int, f: FieldsView) -> EvalView {
    match rule_of(s.files[n].name, i, f) {
        Err(e) => EvalView { stage: next_rule(s.files, n, count, i), result: with_error(s.result, e), ..s },
        Ok(rule) => {
            let subjects = subjects_of(index, rule.anchor);
            EvalView {
                stage: if subjects.len() > 0 {
                    StageView::Check(RunView { file: n, count, number: i, rule, subjects, at: 0 })
                } else {
                    next_rule(s.files, n, count, i)
                },
                result: ResultView {
                    rules_evaluated: s.result.rules_evaluated + 1,
                    anchors_checked: s.result.anchors_checked + anchor_count(index, rule.anchor),
                    ..s.result
                },
                ..s
            }
        },
    }
}

/// An evaluation after one more event. An event that does not belong to the stage changes
/// nothing.
pub open spec fn stepped(index: &SpatialIndex, s: EvalView, ev: EventView) -> EvalView {
    match (s.stage, ev) {
        (StageView::Read(n), EventView::ReadFailed(e)) => EvalView {
            stage: next_file(s.files, n),
            result: with_error(s.result, "Failed to read "@ + s.files[n].path + ": "@ + e),
            ..s
        },
        (StageView::Read(n), EventView::ReadDone(source)) => EvalView {
            stage: StageView::Load(n, rule_script(s.files[n].name, source)),
            ..s
        },
        (StageView::Load(n, _), EventView::LoadFailed(e)) => EvalView {
            stage: next_file(s.files, n),
            result: with_error(s.result, "Error loading "@ + s.files[n].name + ": "@ + e),
            ..s
        },
        (StageView::Load(n, _), EventView::NotArray) => EvalView {
            stage: next_file(s.files, n),
            result: with_error(s.result, s.files[n].name + ": rules did not return an array"@),
            ..s
        },
        (StageView::Load(n, _), EventView::Loaded(count)) => EvalView {
            stage: if count > 0 {
                StageView::Rule(n, count, 0)
            } else {
                next_file(s.files, n)
            },
            ..s
        },
        (StageView::Rule(n, count, i), EventView::RuleFailed(e)) => EvalView {
            stage: next_rule(s.files, n, count, i),
            result: with_error(s.result, s.files[n].name + ": failed to get rule "@ + dec(i) + ": "@ + e),
            ..s
        },
        (StageView::Rule(n, count, i), EventView::NotObject) => EvalView {
            stage: next_rule(s.files, n, count, i),
            result: with_error(s.result, s.files[n].name + ": rule "@ + dec(i) + " is not an object"@),
            ..s
        },
        (StageView::Rule(n, count, i), EventView::RuleFound(f)) => rule_found(index, s, n, count, i, f),
        (StageView::Check(run), EventView::Threw(e)) => EvalView {
            stage: next_check(s.files, run),
            result: with_error(s.result, threw_text(run.rule, run.subjects[run.at], e)),
            ..s
        },
        (StageView::Check(run), EventView::Returned(v)) => EvalView {
            stage: next_check(s.files, run),
            result: with_verdict(s.result, run.rule, run.subjects[run.at], v),
            ..s
        },
        _ => s,
    }
}

/// The stage of an evaluation is within its files, rules and subjects.
pub open spec fn sound(s: EvalView) -> bool {
    match s.stage {
        StageView::Read(n) => 0 <= n < s.files.len(),
        StageView::Load(n, _) => 0 <= n < s.files.len(),
        StageView::Rule(n, count, i) => 0 <= n < s.files.len() && 0 <= i < count,
        StageView::Check(run) => {
            &&& 0 <= run.file < s.files.len()
            &&& 0 <= run.number < run.count
            &&& 0 <= run.at < run.subjects.len()
        },
        StageView::Done => true,
    }
}

/// Whether the counters of a result can take in an event.
pub open spec fn counts_fit(index: &SpatialIndex, s: EvalView, ev: EventView) -> bool {
    match (s.stage, ev) {
        (StageView::Rule(n, count, i), EventView::RuleFound(f)) => match rule_of(s.files[n].name, i, f) {
            Ok(rule) => {
                &&& s.result.rules_evaluated < usize::MAX
                &&& s.result.anchors_checked + anchor_count(index, rule.anchor) <= usize::MAX
            },
            Err(_) => true,
        },
        _ => true,
    }
}

/// What is to be done next.
pub enum Action {
    /// Read this file.
    Read(usize),
    /// Evaluate this script, which should give an array of rules.
    Load(String),
    /// Look at this rule of the array.
    Rule(usize),
    /// Call the check function of the rule with the value of this script.
    Check(String),
    Done,
}

/// The script that gives the subject which a rule is to be checked on.
pub open spec fn subject_script(run: RunView) -> Seq<char> {
    parse_script(run.subjects[run.at].descriptor)
}

/// What an evaluation asks for.
pub open spec fn asks(s: EvalView, a: Action) -> bool {
    match s.stage {
        StageView::Read(n) => a matches Action::Read(m) && m == n,
        StageView::Load(_, script) => a matches Action::Load(t) && t@ == script,
        StageView::Rule(_, _, i) => a matches Action::Rule(j) && j == i,
        StageView::Check(run) => a matches Action::Check(t) && t@ == subject_script(run),
        StageView::Done => a is Done,
    }
}

fn push_error(result: ValidationResult, e: String) -> (r: ValidationResult)
    ensures
        r@ == with_error(result@, e@),
{
    let mut errors = result.errors;
    let ghost before = errors@;
    errors.push(e);
    assert(texts(errors@) =~= texts(before).push(e@));
    ValidationResult { errors, ..result }
}

fn push_violation(result: ValidationResult, v: Violation) -> (r: ValidationResult)
    ensures
        r@ == (ResultView { violations: result@.violations.push(v@), ..result@ }),
{
    let mut violations = result.violations;
    let ghost before = violations@;
    violations.push(v);
    assert(violation_views(violations@) =~= violation_views(before).push(v@));
    ValidationResult { violations, ..result }
}

fn after_file(count: usize, n: usize) -> (r: Stage)
    requires
        n < count,
    ensures
        forall|files: Seq<FileView>| files.len() == count ==> r@ == #[trigger] next_file(files, n as int),
{
    if n + 1 < count {
        Stage::Read(n + 1)
    } else {
        Stage::Done
    }
}

fn after_rule(file_count: usize, n: usize, count: usize, i: usize) -> (r: Stage)
    requires
        n < file_count,
        i < count,
    ensures
        forall|files: Seq<FileView>| files.len() == file_count ==> r@ == #[trigger] next_rule(
            files,
            n as int,
            count as int,
            i as int,
        ),
{
    if i + 1 < count {
        Stage::Rule(n, count, i + 1)
    } else {
        after_file(file_count, n)
    }
}

fn after_check(file_count: usize, run: RuleRun) -> (r: Stage)
    requires
        run.file < file_count,
        run.number < run.count,
        run.at < run.subjects@.len(),
    ensures
        forall|files: Seq<FileView>| files.len() == file_count ==> r@ == #[trigger] next_check(files, run@),
{
    assert(subject_views(run.subjects@).len() == run.subjects@.len());
    let left: usize = run.subjects.len() - run.at;
    if left > 1 {
        let at: usize = run.at + 1;
        Stage::Check(RuleRun { at, ..run })
    } else {
        after_rule(file_count, run.file, run.count, run.number)
    }
}

fn read_error(path: &str, e: &str) -> (r: String)
    ensures
        r@ == "Failed to read "@ + path@ + ": "@ + e@,
{
    let mut out = "Failed to read ".to_string();
    out.append(path);
    out.append(": ");
    out.append(e);
    out
}

fn load_error(name: &str, e: &str) -> (r: String)
    ensures
        r@ == "Error loading "@ + name@ + ": "@ + e@,
{
    let mut out = "Error loading ".to_string();
    out.append(name);
    out.append(": ");
    out.append(e);
    out
}

fn array_error(name: &str) -> (r: String)
    ensures
        r@ == name@ + ": rules did not return an array"@,
{
    let mut out = name.to_string();
    out.append(": rules did not return an array");
    out
}

fn get_error(name: &str, i: usize, e: &str) -> (r: String)
    ensures
        r@ == name@ + ": failed to get rule "@ + dec(i as int) + ": "@ + e@,
{
    let mut out = name.to_string();
    out.append(": failed to get rule ");
    out.append(usize_text(i).as_str());
    out.append(": ");
    out.append(e);
    out
}

fn object_error(name: &str, i: usize) -> (r: String)
    ensures
        r@ == name@ + ": rule "@ + dec(i as int) + " is not an object"@,
{
    let mut out = name.to_string();
    out.append(": rule ");
    out.append(usize_text(i).as_str());
    out.append(" is not an object");
    out
}

impl Evaluation {
    /// Starts an evaluation of rule files.
    pub fn start(files: Vec<RuleFile>) -> (r: Evaluation)
        ensures
            r@ == begun(file_views(files@)),
            sound(r@),
    {
        let mut errors: Vec<String> = Vec::new();
        let stage = if files.len() == 0 {
            errors.push("No rule files found".to_string());
            assert(texts(errors@) =~= seq!["No rule files found"@]);
            Stage::Done
        } else {
            assert(texts(errors@) =~= Seq::empty());
            Stage::Read(0)
        };
        let violations: Vec<Violation> = Vec::new();
        assert(violation_views(violations@) =~= Seq::empty());
        assert(file_views(files@).len() == files@.len());
        Evaluation { files, stage, result: ValidationResult { rules_evaluated: 0, anchors_checked: 0, violations, errors } }
    }

    /// What is to be done next.
    pub fn action(&self) -> (r: Action)
        requires
            sound(self@),
        ensures
            asks(self@, r),
    {
        match &self.stage {
            Stage::Read(n) => Action::Read(*n),
            Stage::Load(_, script) => Action::Load(script.clone()),
            Stage::Rule(_, _, i) => Action::Rule(*i),
            Stage::Check(run) => {
                assert(subject_views(run.subjects@)[run.at as int] == run.subjects@[run.at as int]@);
                Action::Check(json_to_js(&run.subjects[run.at].descriptor))
            },
            Stage::Done => Action::Done,
        }
    }

    /// Takes in how it went.
    pub fn step(self, index: &SpatialIndex, event: Event) -> (r: Evaluation)
        requires
            index.wf(),
            sound(self@),
            counts_fit(index, self@, event@),
        ensures
            r@ == stepped(index, self@, event@),
            sound(r@),
    {
        let ghost before = self@;
        let Evaluation { files, stage, result } = self;
        let total: usize = files.len();
        assert(before.files.len() == total);
        match (stage, event) {
            (Stage::Read(n), Event::ReadFailed(e)) => {
                assert(before.files[n as int].path == files@[n as int].path@);
                let text = read_error(files[n].path.as_str(), e.as_str());
                Evaluation { stage: after_file(total, n), result: push_error(result, text), files }
            },
            (Stage::Read(n), Event::ReadDone(source)) => {
                assert(before.files[n as int].name == files@[n as int].name@);
                let script = wrap_rules(files[n].name.as_str(), source.as_str());
                Evaluation { stage: Stage::Load(n, script), result, files }
            },
            (Stage::Load(n, _), Event::LoadFailed(e)) => {
                assert(before.files[n as int].name == files@[n as int].name@);
                let text = load_error(files[n].name.as_str(), e.as_str());
                Evaluation { stage: after_file(total, n), result: push_error(result, text), files }
            },
            (Stage::Load(n, _), Event::NotArray) => {
                assert(before.files[n as int].name == files@[n as int].name@);
                let text = array_error(files[n].name.as_str());
                Evaluation { stage: after_file(total, n), result: push_error(result, text), files }
            },
            (Stage::Load(n, _), Event::Loaded(count)) => {
                let stage = if count > 0 {
                    Stage::Rule(n, count, 0)
                } else {
                    after_file(total, n)
                };
                Evaluation { stage, result, files }
            },
            (Stage::Rule(n, count, i), Event::RuleFailed(e)) => {
                assert(before.files[n as int].name == files@[n as int].name@);
                let text = get_error(files[n].name.as_str(), i, e.as_str());
                Evaluation { stage: after_rule(total, n, count, i), result: push_error(result, text), files }
            },
            (Stage::Rule(n, count, i), Event::NotObject) => {
                assert(before.files[n as int].name == files@[n as int].name@);
                let text = object_error(files[n].name.as_str(), i);
                Evaluation { stage: after_rule(total, n, count, i), result: push_error(result, text), files }
            },
            (Stage::Rule(n, count, i), Event::RuleFound(f)) => {
                assert(before.files[n as int].name == files@[n as int].name@);
                match accept_rule(files[n].name.as_str(), i, f) {
                    Err(e) => {
                        Evaluation { stage: after_rule(total, n, count, i), result: push_error(result, e), files }
                    },
                    Ok(rule) => {
                        let (subjects, anchors) = find_subjects(index, rule.anchor.as_str());
                        let rules_evaluated: usize = result.rules_evaluated + 1;
                        let anchors_checked: usize = result.anchors_checked + anchors;
                        assert(subject_views(subjects@).len() == subjects@.len());
                        let stage = if subjects.len() > 0 {
                            Stage::Check(RuleRun { file: n, count, number: i, rule, subjects, at: 0 })
                        } else {
                            after_rule(total, n, count, i)
                        };
                        Evaluation { stage, result: ValidationResult { rules_evaluated, anchors_checked, ..result }, files }
                    },
                }
            },
            (Stage::Check(run), Event::Threw(e)) => {
                assert(subject_views(run.subjects@)[run.at as int] == run.subjects@[run.at as int]@);
                let text = write_threw(&run.rule, &run.subjects[run.at], e.as_str());
                Evaluation { stage: after_check(total, run), result: push_error(result, text), files }
            },
            (Stage::Check(run), Event::Returned(v)) => {
                assert(subject_views(run.subjects@)[run.at as int] == run.subjects@[run.at as int]@);
                let result = match interpret_check_result(&v, run.rule.message.as_str()) {
                    Some(m) => {
                        let violation = make_violation(&run.rule, &run.subjects[run.at], m.as_str());
                        push_violation(result, violation)
                    },
                    None => result,
                };
                Evaluation { stage: after_check(total, run), result, files }
            },
            (stage, _) => Evaluation { stage, result, files },
        }
    }
}

// ── The engine ───────────────────────────────────────────────────────

/// A file in the directory of the rules.
pub struct DirEntry {
    pub path: String,
    pub name: String,
    pub extension: Option<String>,
}

/// Whether a file is a rule file: its extension is `js`.
pub open spec fn is_rule_file(e: DirEntry) -> bool {
    opt_text(e.extension) == Some("js"@)
}

/// Whether one of the first `n` files is a rule file of that name.
pub open spec fn names_rule_file(entries: Seq<DirEntry>, n: int, name: Seq<char>) -> bool {
    exists|i: int| 0 <= i < n && is_rule_file(#[trigger] entries[i]) && entries[i].name@ == name
}

/// Whether a rule file is one of the files.
pub open spec fn comes_from(entries: Seq<DirEntry>, f: RuleFile) -> bool {
    exists|i: int|
        0 <= i < entries.len() && is_rule_file(#[trigger] entries[i]) && entries[i].name@ == f.name@ && entries[i].path@
            == f.path@
}

impl RuleEngine {
    /// Picks the rule files out of a directory, in the order of their names.
    pub fn discover_rule_files(&self, entries: &Vec<DirEntry>) -> (r: Vec<RuleFile>)
        ensures
            file_views(r@).map_values(|f: FileView| f.name) == sorted_names(
                Set::new(|n: Seq<char>| names_rule_file(entries@, entries@.len() as int, n)),
            ),
            forall|k: int| 0 <= k < r@.len() ==> comes_from(entries@, #[trigger] r@[k]),
    {
        let mut table: NameTable<String> = NameTable::new();
        let mut i: usize = 0;
        while i < entries.len()
            invariant
                i <= entries@.len(),
                table.wf(),
                forall|n: Seq<char>| #[trigger] table@.contains_key(n) <==> names_rule_file(entries@, i as int, n),
                forall|n: Seq<char>| #[trigger] table@.contains_key(n) ==> exists|j: int|
                    0 <= j < entries@.len() && is_rule_file(#[trigger] entries@[j]) && entries@[j].name@ == n && entries@[j].path@
                        == table@[n]@,
            decreases entries@.len() - i,
        {
            let e = &entries[i];
            let ghost before = table@;
            let js = match &e.extension {
                Some(x) => same_text(x.as_str(), "js"),
                None => false,
            };
            assert(js == is_rule_file(entries@[i as int]));
            if js {
                let path = e.path.clone();
                table.insert(e.name.clone(), path);
                assert(table@[e.name@] == path);
            }
            proof {
                assert forall|n: Seq<char>| #[trigger] table@.contains_key(n) <==> names_rule_file(entries@, i + 1, n) by {
                    assert(before.contains_key(n) <==> names_rule_file(entries@, i as int, n));
                    if names_rule_file(entries@, i as int, n) {
                        let j = choose|j: int|
                            0 <= j < i && is_rule_file(#[trigger] entries@[j]) && entries@[j].name@ == n;
                        assert(is_rule_file(entries@[j]));
                    }
                    if js && n == e.name@ {
                        assert(is_rule_file(entries@[i as int]));
                    }
                }
                assert forall|n: Seq<char>| #[trigger] table@.contains_key(n) implies exists|j: int|
                    0 <= j < entries@.len() && is_rule_file(#[trigger] entries@[j]) && entries@[j].name@ == n && entries@[j].path@
                        == table@[n]@ by {
                    if js && n == e.name@ {
                        assert(is_rule_file(entries@[i as int]));
                    } else {
                        assert(before.contains_key(n));
                    }
                }
            }
            i = i + 1;
        }
        let mut out: Vec<RuleFile> = Vec::new();
        let mut k: usize = 0;
        let ghost names = table.names();
        while k < table.len()
            invariant
                k <= names.len(),
                table.wf(),
                names == table.names(),
                out@.len() == k,
                forall|j: int| 0 <= j < k ==> (#[trigger] out@[j]).name@ == names[j] && out@[j].path@ == table@[names[j]]@,
            decreases names.len() - k,
        {
            let path = table.value_at(k).clone();
            out.push(RuleFile { path, name: table.name_at(k).to_string() });
            k = k + 1;
        }
        proof {
            table.names_hold();
            assert(table@.dom() =~= Set::new(|n: Seq<char>| names_rule_file(entries@, entries@.len() as int, n)));
            assert(file_views(out@).map_values(|f: FileView| f.name) =~= names);
            assert forall|k: int| 0 <= k < out@.len() implies comes_from(entries@, #[trigger] out@[k]) by {
                table.entries_hold(k);
                assert(table@.contains_key(names[k]));
            }
        }
        out
    }
}

// ── Laws ─────────────────────────────────────────────────────────────

/// An evaluation after a series of events.
pub open spec fn stepped_through(index: &SpatialIndex, s: EvalView, events: Seq<EventView>) -> EvalView
    decreases events.len(),
{
    if events.len() == 0 {
        s
    } else {
        stepped(index, stepped_through(index, s, events.drop_last()), events.last())
    }
}

/// What is reported is never taken back: a step leaves the errors and violations that there are
/// and adds at most one of either.
pub proof fn reports_only_grow(index: &SpatialIndex, s: EvalView, ev: EventView)
    ensures
        ({
            let t = stepped(index, s, ev).result;
            &&& s.result.errors.is_prefix_of(t.errors)
            &&& s.result.violations.is_prefix_of(t.violations)
            &&& t.errors.len() + t.violations.len() <= s.result.errors.len() + s.result.violations.len() + 1
            &&& s.result.rules_evaluated <= t.rules_evaluated <= s.result.rules_evaluated + 1
        }),
{
}

/// A result after checks returned, one for each of the first subjects.
pub open spec fn judged(r: ResultView, rule: RuleView, subjects: Seq<SubjectView>, values: Seq<JsView>) -> ResultView
    decreases values.len(),
{
    if values.len() == 0 {
        r
    } else {
        with_verdict(
            judged(r, rule, subjects, values.drop_last()),
            rule,
            subjects[values.len() - 1],
            values.last(),
        )
    }
}

/// A rule visits each of its subjects once and in order: after as many returns as there are
/// subjects the next rule is due, and the result has the verdict on every subject.
pub proof fn a_rule_visits_every_subject(index: &SpatialIndex, s: EvalView, run: RunView, values: Seq<JsView>)
    requires
        s.stage == StageView::Check(run),
        run.at == 0,
        0 < values.len() <= run.subjects.len(),
    ensures
        ({
            let t = stepped_through(index, s, values.map_values(|v: JsView| EventView::Returned(v)));
            &&& t.result == judged(s.result, run.rule, run.subjects, values)
            &&& t.stage == (if values.len() < run.subjects.len() {
                StageView::Check(RunView { at: values.len() as int, ..run })
            } else {
                next_rule(s.files, run.file, run.count, run.number)
            })
            &&& t.files == s.files
        }),
    decreases values.len(),
{
    let events = values.map_values(|v: JsView| EventView::Returned(v));
    let front = values.drop_last();
    assert(events.drop_last() =~= front.map_values(|v: JsView| EventView::Returned(v)));
    if front.len() > 0 {
        a_rule_visits_every_subject(index, s, run, front);
    } else {
        assert(front =~= Seq::empty());
        assert(stepped_through(index, s, events.drop_last()) == s);
        assert(judged(s.result, run.rule, run.subjects, front) == s.result);
    }
}

} // verus!
