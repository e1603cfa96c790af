//! The evaluation of rules in the JavaScript engine.

use crate::evaluate::{
    asks, begun, counts_fit, file_views, find_subjects, sound, stepped, stepped_through, subject_script, Action, EvalView,
    Evaluation, Event, EventView, FieldsView, FileView, RuleFields, RuleFile, Stage, StageView,
};
use crate::index::SpatialIndex;
use crate::js::{
    array_item, array_length, call_function, check_result, error_text, eval_script, full_context, function_member,
    global_member, is_object, new_runtime, same_function, same_value, text_member, CallOf, ItemOf, Kept, KeptFunction,
    MemberOf, Report, ScriptRun,
};
use crate::prefab::opt_text;
use crate::rules::{JsResult, ResultView, RuleEngine, ValidationResult};
use crate::scripts::{install_globals, setup_script};
use crate::text::same_text;
use rquickjs::{Context, Error, Runtime};
use vstd::prelude::*;

verus! {

/// A rule file with its text, or with what went wrong when it was read.
pub struct RuleSource {
    pub path: String,
    pub name: String,
    pub text: Result<String, String>,
}

/// The files of a list of sources.
pub open spec fn source_files(v: Seq<RuleSource>) -> Seq<FileView> {
    v.map_values(|s: RuleSource| FileView { path: s.path@, name: s.name@ })
}

/// Whether an event answers what an evaluation asks for: the sources tell how reading went, and
/// the engine how the rest did.
pub open spec fn answers(s: EvalView, sources: Seq<RuleSource>, ev: EventView) -> bool {
    match (s.stage, ev) {
        (StageView::Read(n), EventView::ReadFailed(e)) => sources[n].text matches Err(t) && t@ == e,
        (StageView::Read(n), EventView::ReadDone(t)) => sources[n].text matches Ok(u) && u@ == t,
        (StageView::Load(_, _), EventView::LoadFailed(_)) => true,
        (StageView::Load(_, _), EventView::NotArray) => true,
        (StageView::Load(_, _), EventView::Loaded(count)) => count >= 0,
        (StageView::Rule(_, _, _), EventView::RuleFailed(_)) => true,
        (StageView::Rule(_, _, _), EventView::NotObject) => true,
        (StageView::Rule(_, _, _), EventView::RuleFound(_)) => true,
        (StageView::Check(_), EventView::Threw(_)) => true,
        (StageView::Check(_), EventView::Returned(_)) => true,
        _ => false,
    }
}

/// Whether events lead an evaluation of sources on, each answering what is asked for.
pub open spec fn leads_on(index: &SpatialIndex, sources: Seq<RuleSource>, events: Seq<EventView>) -> bool {
    forall|i: int|
        0 <= i < events.len() ==> answers(
            stepped_through(index, begun(source_files(sources)), events.take(i)),
            sources,
            #[trigger] events[i],
        )
}

/// The evaluation of sources after events.
#[verifier::opaque]
pub open spec fn evaluated(index: &SpatialIndex, sources: Seq<RuleSource>, events: Seq<EventView>) -> EvalView {
    stepped_through(index, begun(source_files(sources)), events)
}

/// Whether events are a whole evaluation of sources.
pub open spec fn runs_through(index: &SpatialIndex, sources: Seq<RuleSource>, events: Seq<EventView>) -> bool {
    leads_on(index, sources, events) && evaluated(index, sources, events).stage is Done
}

// ── What the engine was asked ────────────────────────────────────────

/// A text of a member, as the engine told it.
pub type TextReport = Report<MemberOf, Result<String, Error>>;

/// A script that was run.
pub type RunReport = Report<ScriptRun, Result<Kept, Error>>;

/// How a rule file was loaded: its script was run, and the value measured where there was one.
pub struct LoadLog {
    pub ran: RunReport,
    pub length: Option<Report<Kept, Result<Option<usize>, Error>>>,
}

/// The members of a rule that were read.
pub struct MembersLog {
    pub id: TextReport,
    pub anchor: TextReport,
    pub severity: TextReport,
    pub message: TextReport,
    pub check: Report<MemberOf, Result<KeptFunction, Error>>,
}

/// How a rule was looked at: it was taken out of the array, told from what is no object, and its
/// members read.
pub struct RuleLog {
    pub item: Report<ItemOf, Result<Kept, Error>>,
    pub kind: Option<Report<Kept, Result<bool, Error>>>,
    pub members: Option<MembersLog>,
}

/// How a rule was checked on a subject: the subject was made, the context of the map fetched, the
/// check function called, and what it returned read.
pub struct CheckLog {
    pub subject: RunReport,
    pub map: Report<String, Result<Kept, Error>>,
    pub call: Report<CallOf, Result<Kept, Error>>,
    pub result: Option<Report<Kept, Result<JsResult, Error>>>,
}

/// How one event of an evaluation came about.
pub enum Told {
    Read,
    Load(LoadLog),
    Rule(RuleLog),
    Check(CheckLog),
}

/// What went wrong, in words.
pub type Wording = Report<&'static Error, String>;

/// Whether words are on an error.
pub open spec fn words_it(w: Wording, e: Error) -> bool {
    *w.asked() == e
}

/// Whether a text is what an error was put in words as.
pub open spec fn says(text: Seq<char>, e: Error) -> bool {
    exists|w: Wording| #[trigger] words_it(w, e) && text == w.answer()@
}

/// Whether a text is what an error was put in words as, behind a prefix.
pub open spec fn says_behind(prefix: Seq<char>, text: Seq<char>, e: Error) -> bool {
    exists|words: Seq<char>| #[trigger] says(words, e) && text == prefix + words
}

/// Whether a script is run as given.
pub open spec fn runs(asked: ScriptRun, script: Seq<char>, strict: bool, barrier: bool) -> bool {
    asked.script@ == script && asked.strict == strict && asked.barrier == barrier
}

/// Whether an event is what loading a script came to.
pub open spec fn load_told(log: LoadLog, script: Seq<char>, ev: EventView) -> bool {
    &&& runs(log.ran.asked(), script, true, true)
    &&& match log.ran.answer() {
        Err(e) => ev matches EventView::LoadFailed(t) && says(t, e),
        Ok(value) => log.length matches Some(length) && length.asked() == value && match length.answer() {
            Err(e) => (ev matches EventView::LoadFailed(t) && says(t, e)),
            Ok(None) => ev == EventView::NotArray,
            Ok(Some(n)) => ev == EventView::Loaded(n as int),
        },
    }
}

/// Whether a report is on the member of a name of a value.
pub open spec fn is_on(m: TextReport, value: Kept, name: Seq<char>) -> bool {
    m.asked().value == value && m.asked().name@ == name
}

/// Whether a text is what a member was told to be; `None` where it is no text.
pub open spec fn member_told(m: TextReport, text: Option<Seq<char>>) -> bool {
    match m.answer() {
        Ok(t) => text == Some(t@),
        Err(_) => text is None,
    }
}

/// Whether a text is what a member was told to be, or says why it is none.
pub open spec fn needed_told(m: TextReport, text: Result<Seq<char>, Seq<char>>) -> bool {
    match m.answer() {
        Ok(t) => text == Ok::<Seq<char>, Seq<char>>(t@),
        Err(e) => text matches Err(t) && says(t, e),
    }
}

/// Whether the definition of a rule is what its members were told to be.
pub open spec fn members_told(log: MembersLog, rule: Kept, f: FieldsView) -> bool {
    &&& is_on(log.id, rule, "id"@) && member_told(log.id, f.id)
    &&& is_on(log.anchor, rule, "anchor"@) && needed_told(log.anchor, f.anchor)
    &&& is_on(log.severity, rule, "severity"@) && member_told(log.severity, f.severity)
    &&& is_on(log.message, rule, "message"@) && member_told(log.message, f.message)
    &&& log.check.asked().value == rule
    &&& log.check.asked().name@ == "check"@
    &&& match log.check.answer() {
        Ok(_) => f.check_error is None,
        Err(e) => f.check_error matches Some(t) && says(t, e),
    }
}

/// Whether an event is what looking at a rule of an array came to.
pub open spec fn rule_told(log: RuleLog, rules: Kept, i: int, ev: EventView) -> bool {
    &&& log.item.asked().array == rules
    &&& log.item.asked().index == i
    &&& match log.item.answer() {
        Err(e) => ev matches EventView::RuleFailed(t) && says(t, e),
        Ok(rule) => log.kind matches Some(kind) && kind.asked() == rule && match kind.answer() {
            Err(e) => (ev matches EventView::RuleFailed(t) && says(t, e)),
            Ok(false) => ev == EventView::NotObject,
            Ok(true) => match (log.members, ev) {
                (Some(members), EventView::RuleFound(f)) => members_told(members, rule, f),
                _ => false,
            },
        },
    }
}

/// Whether an event is what checking a rule came to: its check function was called with the
/// subject first and the context of the map second.
pub open spec fn check_told(log: CheckLog, check: KeptFunction, script: Seq<char>, ev: EventView) -> bool {
    &&& runs(log.subject.asked(), script, true, false)
    &&& log.map.asked()@ == "__ctx"@
    &&& log.call.asked().function == check
    &&& log.subject.answer() == Ok::<Kept, Error>(log.call.asked().first)
    &&& log.map.answer() == Ok::<Kept, Error>(log.call.asked().second)
    &&& match log.call.answer() {
        Err(e) => ev matches EventView::Threw(t) && says(t, e),
        Ok(value) => match log.result {
            Some(result) => result.asked() == value && match result.answer() {
                Ok(v) => ev == EventView::Returned(v@),
                Err(_) => false,
            },
            None => false,
        },
    }
}

/// The rules that were loaded last.
pub open spec fn loaded(log: Seq<Told>) -> Option<Kept>
    decreases log.len(),
{
    if log.len() == 0 {
        None
    } else {
        match log.last() {
            Told::Load(l) => match l.ran.answer() {
                Ok(value) => Some(value),
                Err(_) => None,
            },
            _ => loaded(log.drop_last()),
        }
    }
}

/// The check function of the rule that was looked at last.
pub open spec fn to_call(log: Seq<Told>) -> Option<KeptFunction>
    decreases log.len(),
{
    if log.len() == 0 {
        None
    } else {
        match log.last() {
            Told::Rule(l) => match l.members {
                Some(m) => match m.check.answer() {
                    Ok(f) => Some(f),
                    Err(_) => None,
                },
                None => None,
            },
            _ => to_call(log.drop_last()),
        }
    }
}

/// Whether an event came about as the evaluation asks for it.
#[verifier::opaque]
pub open spec fn came_about(s: EvalView, before: Seq<Told>, now: Told, ev: EventView) -> bool {
    match (s.stage, now) {
        (StageView::Read(_), Told::Read) => true,
        (StageView::Load(_, script), Told::Load(l)) => load_told(l, script, ev),
        (StageView::Rule(_, _, i), Told::Rule(l)) => loaded(before) matches Some(rules) && rule_told(l, rules, i, ev),
        (StageView::Check(run), Told::Check(l)) => to_call(before) matches Some(check) && check_told(
            l,
            check,
            subject_script(run),
            ev,
        ),
        _ => false,
    }
}

/// Whether each event of an evaluation came about as the evaluation asks for it.
#[verifier::opaque]
pub open spec fn all_came_about(
    index: &SpatialIndex,
    sources: Seq<RuleSource>,
    log: Seq<Told>,
    events: Seq<EventView>,
) -> bool {
    &&& log.len() == events.len()
    &&& forall|i: int|
        0 <= i < events.len() ==> came_about(
            evaluated(index, sources, events.take(i)),
            log.take(i),
            log[i],
            #[trigger] events[i],
        )
}

/// Whether the engine ran a whole evaluation of sources: the script that installs the context of
/// the map was run first, and everything that the evaluation asked for after it.
pub open spec fn engine_ran(
    index: &SpatialIndex,
    sources: Seq<RuleSource>,
    setup: RunReport,
    log: Seq<Told>,
    events: Seq<EventView>,
) -> bool {
    &&& runs(setup.asked(), setup_script(index), false, true)
    &&& setup.answer() is Ok
    &&& runs_through(index, sources, events)
    &&& all_came_about(index, sources, log, events)
}

/// How far a check came that ended the evaluation.
pub struct FailedCheck {
    pub subject: RunReport,
    pub map: Option<Report<String, Result<Kept, Error>>>,
    pub call: Option<Report<CallOf, Result<Kept, Error>>>,
    pub result: Option<Report<Kept, Result<JsResult, Error>>>,
}

/// Whether a text says why a check could not be made: the descriptor of the subject was refused,
/// the context of the map could not be had, or what the check returned could not be read.
pub open spec fn check_failed(log: FailedCheck, check: KeptFunction, script: Seq<char>, text: Seq<char>) -> bool {
    &&& runs(log.subject.asked(), script, true, false)
    &&& match log.subject.answer() {
        Err(e) => says_behind("JSON parse error: "@, text, e),
        Ok(subject) => log.map matches Some(map) && map.asked()@ == "__ctx"@ && match map.answer() {
            Err(e) => says(text, e),
            Ok(context) => match (log.call, log.result) {
                (Some(call), Some(result)) => {
                    &&& call.asked().function == check
                    &&& call.asked().first == subject
                    &&& call.asked().second == context
                    &&& call.answer() == Ok::<Kept, Error>(result.asked())
                    &&& result.answer() matches Err(e) && says(text, e)
                },
                _ => false,
            },
        },
    }
}

/// What an evaluation has gone through when it fails: the events, how they came about, and the
/// setup before them.
pub struct Trail {
    pub setup: RunReport,
    pub log: Seq<Told>,
    pub events: Seq<EventView>,
}

/// Whether an evaluation of sources has gone through something.
pub open spec fn went_through(index: &SpatialIndex, sources: Seq<RuleSource>, trail: Trail) -> bool {
    &&& runs(trail.setup.asked(), setup_script(index), false, true)
    &&& trail.setup.answer() is Ok
    &&& leads_on(index, sources, trail.events)
    &&& all_came_about(index, sources, trail.log, trail.events)
}

/// What made an evaluation fail.
pub enum Failure {
    /// There is no engine.
    Runtime(Report<(), Result<Runtime, Error>>),
    /// There is no global environment.
    Environment(Report<Runtime, Result<Context, Error>>),
    /// The context of the map could not be installed.
    Setup(RunReport),
    /// A check could not be made.
    Check(Trail, FailedCheck),
    /// An event came that the counters cannot take in.
    Counting(Trail, Told, EventView),
}

/// Whether a text says why a check ended an evaluation of sources.
#[verifier::opaque]
pub open spec fn ended_in_check(
    index: &SpatialIndex,
    sources: Seq<RuleSource>,
    trail: Trail,
    check: FailedCheck,
    text: Seq<char>,
) -> bool {
    &&& went_through(index, sources, trail)
    &&& match (evaluated(index, sources, trail.events).stage, to_call(trail.log)) {
        (StageView::Check(run), Some(f)) => check_failed(check, f, subject_script(run), text),
        _ => false,
    }
}

/// Whether an event came that ended an evaluation of sources, since its counters cannot take it in.
#[verifier::opaque]
pub open spec fn ended_in_counting(
    index: &SpatialIndex,
    sources: Seq<RuleSource>,
    trail: Trail,
    now: Told,
    ev: EventView,
) -> bool {
    let s = evaluated(index, sources, trail.events);
    &&& went_through(index, sources, trail)
    &&& answers(s, sources, ev)
    &&& came_about(s, trail.log, now, ev)
    &&& !counts_fit(index, s, ev)
}

/// Whether a text says that an evaluation of sources failed for a reason.
#[verifier::opaque]
pub open spec fn failed_for(index: &SpatialIndex, sources: Seq<RuleSource>, why: Failure, text: Seq<char>) -> bool {
    match why {
        Failure::Runtime(report) => report.answer() matches Err(e) && says(text, e),
        Failure::Environment(report) => report.answer() matches Err(e) && says(text, e),
        Failure::Setup(report) => runs(report.asked(), setup_script(index), false, true) && (report.answer() matches Err(e)
            && says_behind("Failed to install context API: "@, text, e)),
        Failure::Check(trail, check) => ended_in_check(index, sources, trail, check, text),
        Failure::Counting(trail, now, ev) => {
            &&& ended_in_counting(index, sources, trail, now, ev)
            &&& text == "too many rules or anchors to count"@
        },
    }
}

/// Whether a text says why an evaluation of sources failed.
#[verifier::opaque]
pub open spec fn failed(index: &SpatialIndex, sources: Seq<RuleSource>, text: Seq<char>) -> bool {
    exists|why: Failure| #[trigger] failed_for(index, sources, why, text)
}

/// Whether a result is that of a whole evaluation of sources.
#[verifier::opaque]
pub open spec fn succeeded(index: &SpatialIndex, sources: Seq<RuleSource>, result: ResultView) -> bool {
    exists|setup: RunReport, log: Seq<Told>, events: Seq<EventView>| #[trigger]
        engine_ran(index, sources, setup, log, events) && result == evaluated(index, sources, events).result
}

proof fn lemma_failed(index: &SpatialIndex, sources: Seq<RuleSource>, why: Failure, text: Seq<char>)
    requires
        failed_for(index, sources, why, text),
    ensures
        failed(index, sources, text),
{
    reveal(failed);
}

proof fn lemma_failed_check(
    index: &SpatialIndex,
    sources: Seq<RuleSource>,
    trail: Trail,
    s: EvalView,
    refused: FailedCheck,
    text: Seq<char>,
)
    requires
        went_through(index, sources, trail),
        s == evaluated(index, sources, trail.events),
        match (s.stage, to_call(trail.log)) {
            (StageView::Check(run), Some(f)) => check_failed(refused, f, subject_script(run), text),
            _ => false,
        },
    ensures
        failed(index, sources, text),
{
    assert(ended_in_check(index, sources, trail, refused, text)) by {
        reveal(ended_in_check);
    }
    reveal(failed_for);
    lemma_failed(index, sources, Failure::Check(trail, refused), text);
}

proof fn lemma_failed_counting(
    index: &SpatialIndex,
    sources: Seq<RuleSource>,
    trail: Trail,
    s: EvalView,
    now: Told,
    ev: EventView,
)
    requires
        went_through(index, sources, trail),
        s == evaluated(index, sources, trail.events),
        answers(s, sources, ev),
        came_about(s, trail.log, now, ev),
        !counts_fit(index, s, ev),
    ensures
        failed(index, sources, "too many rules or anchors to count"@),
{
    assert(ended_in_counting(index, sources, trail, now, ev)) by {
        reveal(ended_in_counting);
    }
    reveal(failed_for);
    lemma_failed(index, sources, Failure::Counting(trail, now, ev), "too many rules or anchors to count"@);
}

proof fn lemma_succeeded(
    index: &SpatialIndex,
    sources: Seq<RuleSource>,
    setup: RunReport,
    log: Seq<Told>,
    events: Seq<EventView>,
)
    requires
        engine_ran(index, sources, setup, log, events),
    ensures
        succeeded(index, sources, evaluated(index, sources, events).result),
{
    reveal(succeeded);
}

// ── How far an evaluation still has to go ────────────────────────────

spec fn files_left(s: EvalView) -> int {
    match s.stage {
        StageView::Read(n) => s.files.len() - n,
        StageView::Load(n, _) => s.files.len() - n,
        StageView::Rule(n, _, _) => s.files.len() - n,
        StageView::Check(run) => s.files.len() - run.file,
        StageView::Done => 0,
    }
}

spec fn phases_left(s: EvalView) -> int {
    match s.stage {
        StageView::Read(_) => 3,
        StageView::Load(_, _) => 2,
        StageView::Rule(_, _, _) => 1,
        StageView::Check(_) => 1,
        StageView::Done => 0,
    }
}

spec fn rules_left(s: EvalView) -> int {
    match s.stage {
        StageView::Rule(_, count, i) => count - i,
        StageView::Check(run) => run.count - run.number,
        _ => 0,
    }
}

spec fn to_look_at(s: EvalView) -> int {
    match s.stage {
        StageView::Rule(_, _, _) => 1,
        _ => 0,
    }
}

spec fn subjects_left(s: EvalView) -> int {
    match s.stage {
        StageView::Check(run) => run.subjects.len() - run.at,
        _ => 0,
    }
}

proof fn lemma_every_answer_counts(index: &SpatialIndex, s: EvalView, sources: Seq<RuleSource>, ev: EventView)
    requires
        sound(s),
        answers(s, sources, ev),
    ensures
        ({
            let t = stepped(index, s, ev);
            decreases_to!(files_left(s), phases_left(s), rules_left(s), to_look_at(s), subjects_left(s)
                => files_left(t), phases_left(t), rules_left(t), to_look_at(t), subjects_left(t))
        }),
{
}

proof fn lemma_one_more(index: &SpatialIndex, sources: Seq<RuleSource>, events: Seq<EventView>, ev: EventView)
    requires
        leads_on(index, sources, events),
        answers(evaluated(index, sources, events), sources, ev),
    ensures
        leads_on(index, sources, events.push(ev)),
        evaluated(index, sources, events.push(ev)) == stepped(index, evaluated(index, sources, events), ev),
{
    reveal(evaluated);
    let more = events.push(ev);
    assert(more.drop_last() =~= events);
    assert forall|i: int| 0 <= i < more.len() implies answers(
        stepped_through(index, begun(source_files(sources)), more.take(i)),
        sources,
        #[trigger] more[i],
    ) by {
        if i < events.len() {
            assert(more.take(i) =~= events.take(i));
            assert(more[i] == events[i]);
        } else {
            assert(more.take(i) =~= events);
        }
    }
}

proof fn lemma_one_more_told(
    index: &SpatialIndex,
    sources: Seq<RuleSource>,
    log: Seq<Told>,
    events: Seq<EventView>,
    now: Told,
    ev: EventView,
)
    requires
        all_came_about(index, sources, log, events),
        came_about(evaluated(index, sources, events), log, now, ev),
    ensures
        all_came_about(index, sources, log.push(now), events.push(ev)),
{
    reveal(all_came_about);
    let more = events.push(ev);
    let longer = log.push(now);
    assert forall|i: int| 0 <= i < more.len() implies came_about(
        evaluated(index, sources, more.take(i)),
        longer.take(i),
        longer[i],
        #[trigger] more[i],
    ) by {
        if i < events.len() {
            assert(more.take(i) =~= events.take(i));
            assert(longer.take(i) =~= log.take(i));
            assert(more[i] == events[i]);
            assert(longer[i] == log[i]);
        } else {
            assert(more.take(i) =~= events);
            assert(longer.take(i) =~= log);
        }
    }
}

// ── What the answers come to ─────────────────────────────────────────

/// A text behind a prefix.
fn with_prefix(prefix: &str, text: &str) -> (r: String)
    ensures
        r@ == prefix@ + text@,
{
    let mut out = prefix.to_string();
    out.append(text);
    out
}

/// Puts an error in words.
fn words(e: &Error) -> (r: String)
    ensures
        says(r@, *e),
{
    let w = error_text(e);
    assert(words_it(w, *e));
    w.reply().clone()
}

/// How the engine fared with the script of a rule file. A text tells what went wrong.
pub enum LoadOutcome {
    Failed(String),
    /// The script did not give an array.
    NoArray,
    /// The script gave an array with so many items.
    Array(usize),
}

/// Says what the outcome of loading a rule file comes to.
pub fn event_of_load(outcome: LoadOutcome) -> (r: Event)
    ensures
        r@ == (match outcome {
            LoadOutcome::Failed(t) => EventView::LoadFailed(t@),
            LoadOutcome::NoArray => EventView::NotArray,
            LoadOutcome::Array(n) => EventView::Loaded(n as int),
        }),
{
    match outcome {
        LoadOutcome::Failed(t) => Event::LoadFailed(t),
        LoadOutcome::NoArray => Event::NotArray,
        LoadOutcome::Array(n) => Event::Loaded(n),
    }
}

/// A member of a rule that should be a text: the text, or what went wrong.
pub struct Member {
    pub name: String,
    pub text: Result<String, String>,
}

/// What the first member of a name holds; `None` where there is none.
pub open spec fn member_of(members: Seq<Member>, name: Seq<char>) -> Option<Result<Seq<char>, Seq<char>>>
    decreases members.len(),
{
    if members.len() == 0 {
        None
    } else if members[0].name@ == name {
        Some(
            match members[0].text {
                Ok(t) => Ok(t@),
                Err(e) => Err(e@),
            },
        )
    } else {
        member_of(members.skip(1), name)
    }
}

/// The text of the first member of a name; `None` where it is no text.
pub open spec fn text_of(members: Seq<Member>, name: Seq<char>) -> Option<Seq<char>> {
    match member_of(members, name) {
        Some(Ok(t)) => Some(t),
        _ => None,
    }
}

fn find_member(members: &Vec<Member>, name: &str) -> (r: Option<usize>)
    ensures
        match r {
            Some(i) => i < members@.len() && member_of(members@, name@) == Some(
                match members@[i as int].text {
                    Ok(t) => Ok::<Seq<char>, Seq<char>>(t@),
                    Err(e) => Err(e@),
                },
            ),
            None => member_of(members@, name@) is None,
        },
{
    let mut i: usize = 0;
    assert(members@.skip(0) =~= members@);
    while i < members.len()
        invariant
            i <= members@.len(),
            member_of(members@.skip(i as int), name@) == member_of(members@, name@),
        decreases members@.len() - i,
    {
        assert(members@.skip(i as int)[0] == members@[i as int]);
        assert(members@.skip(i as int).skip(1) =~= members@.skip(i + 1));
        if same_text(members[i].name.as_str(), name) {
            return Some(i);
        }
        i = i + 1;
    }
    None
}

fn find_text(members: &Vec<Member>, name: &str) -> (r: Option<String>)
    ensures
        opt_text(r) == text_of(members@, name@),
{
    match find_member(members, name) {
        Some(i) => match &members[i].text {
            Ok(t) => Some(t.clone()),
            Err(_) => None,
        },
        None => None,
    }
}

/// Puts the definition of a rule together from its members, and from why it has no check function
/// where it has none.
pub fn rule_fields(members: &Vec<Member>, check_error: Option<String>) -> (r: RuleFields)
    ensures
        r@.id == text_of(members@, "id"@),
        r@.anchor == (match member_of(members@, "anchor"@) {
            Some(a) => a,
            None => Err("no anchor"@),
        }),
        r@.severity == text_of(members@, "severity"@),
        r@.message == text_of(members@, "message"@),
        r@.check_error == opt_text(check_error),
{
    let anchor: Result<String, String> = match find_member(members, "anchor") {
        Some(i) => match &members[i].text {
            Ok(t) => Ok(t.clone()),
            Err(e) => Err(e.clone()),
        },
        None => Err("no anchor".to_string()),
    };
    RuleFields {
        id: find_text(members, "id"),
        anchor,
        severity: find_text(members, "severity"),
        message: find_text(members, "message"),
        check_error,
    }
}

/// How the engine fared with a rule of an array. A text tells what went wrong.
pub enum RuleOutcome {
    Failed(String),
    /// The rule is no object.
    NoObject,
    Object(RuleFields),
}

/// Says what the outcome of looking at a rule comes to.
pub fn event_of_rule(outcome: RuleOutcome) -> (r: Event)
    ensures
        r@ == (match outcome {
            RuleOutcome::Failed(t) => EventView::RuleFailed(t@),
            RuleOutcome::NoObject => EventView::NotObject,
            RuleOutcome::Object(f) => EventView::RuleFound(f@),
        }),
{
    match outcome {
        RuleOutcome::Failed(t) => Event::RuleFailed(t),
        RuleOutcome::NoObject => Event::NotObject,
        RuleOutcome::Object(f) => Event::RuleFound(f),
    }
}

/// How the engine fared with one call of a check function. A text tells what went wrong.
pub enum CheckOutcome {
    /// The descriptor of the subject was refused.
    NoSubject(String),
    /// The context of the map could not be had.
    NoContext(String),
    /// The check function threw.
    Threw(String),
    /// What the check function returned could not be read.
    NoResult(String),
    Returned(JsResult),
}

/// Says what the outcome of a check comes to: what a check function did is an event, and
/// anything else ends the evaluation with an error.
pub fn event_of_check(outcome: CheckOutcome) -> (r: Result<Event, String>)
    ensures
        match outcome {
            CheckOutcome::NoSubject(t) => r matches Err(e) && e@ == "JSON parse error: "@ + t@,
            CheckOutcome::NoContext(t) => r matches Err(e) && e@ == t@,
            CheckOutcome::Threw(t) => r matches Ok(ev) && ev@ == EventView::Threw(t@),
            CheckOutcome::NoResult(t) => r matches Err(e) && e@ == t@,
            CheckOutcome::Returned(v) => r matches Ok(ev) && ev@ == EventView::Returned(v@),
        },
{
    match outcome {
        CheckOutcome::NoSubject(t) => Err(with_prefix("JSON parse error: ", t.as_str())),
        CheckOutcome::NoContext(t) => Err(t),
        CheckOutcome::Threw(t) => Ok(Event::Threw(t)),
        CheckOutcome::NoResult(t) => Err(t),
        CheckOutcome::Returned(v) => Ok(Event::Returned(v)),
    }
}

fn copy_result(v: &JsResult) -> (r: JsResult)
    ensures
        r@ == v@,
{
    match v {
        JsResult::Bool(b) => JsResult::Bool(*b),
        JsResult::Undefined => JsResult::Undefined,
        JsResult::Null => JsResult::Null,
        JsResult::Str(s) => JsResult::Str(s.clone()),
        JsResult::Other => JsResult::Other,
    }
}

// ── Asking the engine ────────────────────────────────────────────────

/// Runs the script of a rule file, which should give an array of rules. Which outcome
/// [`event_of_load`] is given is up to the engine.
fn load_event(context: &Context, script: String) -> (r: (Event, LoadLog))
    ensures
        load_told(r.1, script@, r.0@),
{
    let ran = eval_script(context, ScriptRun { script, strict: true, barrier: true });
    match ran.reply() {
        Err(e) => {
            let event = event_of_load(LoadOutcome::Failed(words(e)));
            (event, LoadLog { ran, length: None })
        },
        Ok(value) => {
            let length = array_length(context, same_value(value));
            let outcome = match length.reply() {
                Err(e) => LoadOutcome::Failed(words(e)),
                Ok(None) => LoadOutcome::NoArray,
                Ok(Some(n)) => LoadOutcome::Array(*n),
            };
            (event_of_load(outcome), LoadLog { ran, length: Some(length) })
        },
    }
}

fn read_text(context: &Context, rule: &Kept, name: &str) -> (r: (Member, TextReport))
    ensures
        r.1.asked().value == *rule,
        r.1.asked().name@ == name@,
        r.0.name@ == name@,
        match r.1.answer() {
            Ok(t) => r.0.text matches Ok(u) && u@ == t@,
            Err(e) => r.0.text matches Err(u) && says(u@, e),
        },
{
    let report = text_member(context, MemberOf { value: same_value(rule), name: name.to_string() });
    let text: Result<String, String> = match report.reply() {
        Ok(t) => Ok(t.clone()),
        Err(e) => Err(words(e)),
    };
    (Member { name: report.request().name.clone(), text }, report)
}

/// Reads the members of a rule.
fn read_members(context: &Context, rule: &Kept) -> (r: (RuleFields, MembersLog))
    ensures
        members_told(r.1, *rule, r.0@),
{
    let (id_member, id) = read_text(context, rule, "id");
    let (anchor_member, anchor) = read_text(context, rule, "anchor");
    let (severity_member, severity) = read_text(context, rule, "severity");
    let (message_member, message) = read_text(context, rule, "message");
    let check = function_member(context, MemberOf { value: same_value(rule), name: "check".to_string() });
    let check_error: Option<String> = match check.reply() {
        Ok(_) => None,
        Err(e) => Some(words(e)),
    };
    let mut members: Vec<Member> = Vec::new();
    members.push(id_member);
    members.push(anchor_member);
    members.push(severity_member);
    members.push(message_member);
    proof {
        reveal_strlit("id");
        reveal_strlit("anchor");
        reveal_strlit("severity");
        reveal_strlit("message");
        reveal_with_fuel(member_of, 5);
        assert("anchor"@[0] == 'a' && "severity"@[0] == 's' && "message"@[0] == 'm' && "id"@[0] == 'i');
        let one = members@.skip(1);
        let two = one.skip(1);
        let three = two.skip(1);
        assert(one[0] == members@[1] && two[0] == members@[2] && three[0] == members@[3]);
    }
    let fields = rule_fields(&members, check_error);
    (fields, MembersLog { id, anchor, severity, message, check })
}

/// Looks at a rule of an array. Which outcome [`event_of_rule`] is given is up to the engine.
fn rule_event(context: &Context, rules: &Kept, i: usize) -> (r: (Event, RuleLog))
    ensures
        rule_told(r.1, *rules, i as int, r.0@),
{
    let item = array_item(context, ItemOf { array: same_value(rules), index: i });
    let rule = match item.reply() {
        Err(e) => {
            let event = event_of_rule(RuleOutcome::Failed(words(e)));
            return (event, RuleLog { item, kind: None, members: None });
        },
        Ok(v) => same_value(v),
    };
    let kind = is_object(context, same_value(&rule));
    match kind.reply() {
        Err(e) => {
            let event = event_of_rule(RuleOutcome::Failed(words(e)));
            return (event, RuleLog { item, kind: Some(kind), members: None });
        },
        Ok(o) => {
            if !*o {
                return (event_of_rule(RuleOutcome::NoObject), RuleLog { item, kind: Some(kind), members: None });
            }
        },
    }
    let (fields, members) = read_members(context, &rule);
    let ghost fv = fields@;
    let event = event_of_rule(RuleOutcome::Object(fields));
    assert(event@ == EventView::RuleFound(fv));
    (event, RuleLog { item, kind: Some(kind), members: Some(members) })
}

/// The error of an outcome that is no event.
fn refusal(outcome: CheckOutcome) -> (r: String)
    requires
        !(outcome is Threw),
        !(outcome is Returned),
    ensures
        match outcome {
            CheckOutcome::NoSubject(t) => r@ == "JSON parse error: "@ + t@,
            CheckOutcome::NoContext(t) => r@ == t@,
            CheckOutcome::NoResult(t) => r@ == t@,
            _ => false,
        },
{
    match event_of_check(outcome) {
        Err(e) => e,
        Ok(_) => vstd::pervasive::unreached(),
    }
}

/// Calls the check function of a rule with the value of a script and the context of the map.
/// Which outcome [`event_of_check`] is given is up to the engine.
fn check_event(context: &Context, check: &KeptFunction, script: String) -> (r: Result<
    (Event, CheckLog),
    (String, FailedCheck),
>)
    ensures
        match r {
            Ok(told) => check_told(told.1, *check, script@, told.0@),
            Err(failed) => check_failed(failed.1, *check, script@, failed.0@),
        },
{
    let subject = eval_script(context, ScriptRun { script, strict: true, barrier: false });
    let first = match subject.reply() {
        Ok(v) => same_value(v),
        Err(e) => {
            let said = words(e);
            assert(says(said@, *e));
            let text = refusal(CheckOutcome::NoSubject(said));
            return Err((text, FailedCheck { subject, map: None, call: None, result: None }));
        },
    };
    let map = global_member(context, "__ctx".to_string());
    let second = match map.reply() {
        Ok(v) => same_value(v),
        Err(e) => {
            let text = refusal(CheckOutcome::NoContext(words(e)));
            return Err((text, FailedCheck { subject, map: Some(map), call: None, result: None }));
        },
    };
    let call = call_function(context, CallOf { function: same_function(check), first, second });
    let (value, threw): (Option<Kept>, Option<String>) = match call.reply() {
        Err(e) => (None, Some(words(e))),
        Ok(v) => (Some(same_value(v)), None),
    };
    match (value, threw) {
        (Some(v), _) => {
            let result = check_result(context, v);
            let outcome = match result.reply() {
                Err(e) => CheckOutcome::NoResult(words(e)),
                Ok(v) => CheckOutcome::Returned(copy_result(v)),
            };
            match event_of_check(outcome) {
                Ok(event) => Ok((event, CheckLog { subject, map, call, result: Some(result) })),
                Err(text) => Err((text, FailedCheck { subject, map: Some(map), call: Some(call), result: Some(result) })),
            }
        },
        (None, Some(text)) => match event_of_check(CheckOutcome::Threw(text)) {
            Ok(event) => Ok((event, CheckLog { subject, map, call, result: None })),
            Err(_) => vstd::pervasive::unreached(),
        },
        (None, None) => vstd::pervasive::unreached(),
    }
}

// ── The whole evaluation ─────────────────────────────────────────────

fn list_files(sources: &Vec<RuleSource>) -> (r: Vec<RuleFile>)
    ensures
        file_views(r@) == source_files(sources@),
{
    let mut out: Vec<RuleFile> = Vec::new();
    let mut i: usize = 0;
    while i < sources.len()
        invariant
            i <= sources@.len(),
            out@.len() == i,
            forall|k: int|
                0 <= k < i ==> (#[trigger] out@[k]).path@ == sources@[k].path@ && out@[k].name@ == sources@[k].name@,
        decreases sources@.len() - i,
    {
        out.push(RuleFile { path: sources[i].path.clone(), name: sources[i].name.clone() });
        i = i + 1;
    }
    assert(file_views(out@) =~= source_files(sources@));
    out
}

/// What is known once an event has come about: a rule is looked at only where rules were loaded,
/// and checked only where it has a check function.
proof fn lemma_known_after(
    index: &SpatialIndex,
    sources: Seq<RuleSource>,
    s: EvalView,
    log: Seq<Told>,
    now: Told,
    ev: EventView,
)
    requires
        sound(s),
        answers(s, sources, ev),
        came_about(s, log, now, ev),
        (s.stage is Rule || s.stage is Check) ==> loaded(log) is Some,
        s.stage is Check ==> to_call(log) is Some,
    ensures
        ({
            let more = log.push(now);
            let t = stepped(index, s, ev);
            &&& (t.stage is Rule || t.stage is Check) ==> loaded(more) is Some
            &&& t.stage is Check ==> to_call(more) is Some
            &&& loaded(more) == (match now {
                Told::Load(l) => match l.ran.answer() {
                    Ok(v) => Some(v),
                    Err(_) => None,
                },
                _ => loaded(log),
            })
            &&& to_call(more) == (match now {
                Told::Rule(l) => match l.members {
                    Some(m) => match m.check.answer() {
                        Ok(f) => Some(f),
                        Err(_) => None,
                    },
                    None => None,
                },
                _ => to_call(log),
            })
        }),
{
    reveal(came_about);
    assert(log.push(now).drop_last() =~= log);
}

/// Does what an evaluation asks for next: reads a source, or asks the engine.
fn ask(
    context: &Context,
    sources: &Vec<RuleSource>,
    action: Action,
    rules: &Option<Kept>,
    check: &Option<KeptFunction>,
    state: Ghost<EvalView>,
) -> (r: Result<(Event, Told), (String, FailedCheck)>)
    requires
        sound(state@),
        state@.files == source_files(sources@),
        asks(state@, action),
        !(action is Done),
        (state@.stage is Rule || state@.stage is Check) ==> rules is Some,
        state@.stage is Check ==> check is Some,
    ensures
        match r {
            Ok(step) => answers(state@, sources@, step.0@) && (forall|log: Seq<Told>|
                #![trigger loaded(log)]
                loaded(log) == *rules && to_call(log) == *check ==> came_about(state@, log, step.1, step.0@)),
            Err(failed) => match (state@.stage, *check) {
                (StageView::Check(run), Some(f)) => check_failed(failed.1, f, subject_script(run), failed.0@),
                _ => false,
            },
        },
{
    proof {
        reveal(came_about);
    }
    match action {
        Action::Read(n) => match &sources[n].text {
            Ok(t) => Ok((Event::ReadDone(t.clone()), Told::Read)),
            Err(e) => Ok((Event::ReadFailed(e.clone()), Told::Read)),
        },
        Action::Load(script) => {
            let (event, told) = load_event(context, script);
            Ok((event, Told::Load(told)))
        },
        Action::Rule(i) => match rules {
            Some(v) => {
                let (event, told) = rule_event(context, v, i);
                Ok((event, Told::Rule(told)))
            },
            None => vstd::pervasive::unreached(),
        },
        Action::Check(script) => match check {
            Some(f) => match check_event(context, f, script) {
                Ok((event, told)) => Ok((event, Told::Check(told))),
                Err(failed) => Err(failed),
            },
            None => vstd::pervasive::unreached(),
        },
        Action::Done => vstd::pervasive::unreached(),
    }
}

/// Tests whether the counters of a result can take in an event.
fn can_count(index: &SpatialIndex, evaluation: &Evaluation, event: &Event) -> (r: bool)
    requires
        index.wf(),
        sound(evaluation@),
    ensures
        r == counts_fit(index, evaluation@, event@),
{
    if let Stage::Rule(_, _, _) = &evaluation.stage {
        if let Event::RuleFound(f) = event {
            if let (Ok(anchor), None) = (&f.anchor, &f.check_error) {
                let (_, count) = find_subjects(index, anchor.as_str());
                return evaluation.result.rules_evaluated < usize::MAX
                    && evaluation.result.anchors_checked <= usize::MAX - count;
            }
        }
    }
    true
}

/// Installs the context of the map and evaluates rules in a global environment.
#[verifier::rlimit(40)]
fn run(context: &Context, index: &SpatialIndex, sources: &Vec<RuleSource>) -> (r: Result<ValidationResult, String>)
    requires
        index.wf(),
        sources@.len() > 0,
    ensures
        match r {
            Ok(v) => succeeded(index, sources@, v@),
            Err(e) => failed(index, sources@, e@),
        },
{
    let setup = eval_script(context, ScriptRun { script: install_globals(index), strict: false, barrier: true });
    match setup.reply() {
        Ok(_) => {},
        Err(e) => {
            let said = words(e);
            let text = with_prefix("Failed to install context API: ", said.as_str());
            proof {
                assert(says(said@, *e));
                reveal(failed_for);
                lemma_failed(index, sources@, Failure::Setup(setup), text@);
            }
            return Err(text);
        },
    }
    let mut evaluation = Evaluation::start(list_files(sources));
    let ghost mut events: Seq<EventView> = Seq::empty();
    let ghost mut log: Seq<Told> = Seq::empty();
    assert(source_files(sources@).len() == sources@.len());
    let mut rules: Option<Kept> = None;
    let mut check: Option<KeptFunction> = None;
    proof {
        reveal(all_came_about);
        reveal(evaluated);
    }
    loop
        invariant
            index.wf(),
            sound(evaluation@),
            evaluation@.files == source_files(sources@),
            leads_on(index, sources@, events),
            evaluation@ == evaluated(index, sources@, events),
            all_came_about(index, sources@, log, events),
            runs(setup.asked(), setup_script(index), false, true),
            setup.answer() is Ok,
            rules == loaded(log),
            check == to_call(log),
            (evaluation@.stage is Rule || evaluation@.stage is Check) ==> rules is Some,
            evaluation@.stage is Check ==> check is Some,
            sources@.len() > 0,
        decreases
                files_left(evaluation@),
                phases_left(evaluation@),
                rules_left(evaluation@),
                to_look_at(evaluation@),
                subjects_left(evaluation@),
    {
        let step = match evaluation.action() {
            Action::Done => {
                proof {
                    lemma_succeeded(index, sources@, setup, log, events);
                }
                return Ok(evaluation.result);
            },
            action => ask(context, sources, action, &rules, &check, Ghost(evaluation@)),
        };
        let (event, told) = match step {
            Ok(s) => s,
            Err((text, refused)) => {
                proof {
                    lemma_failed_check(
                        index,
                        sources@,
                        Trail { setup, log, events },
                        evaluation@,
                        refused,
                        text@,
                    );
                }
                return Err(text);
            },
        };
        if !can_count(index, &evaluation, &event) {
            let text = "too many rules or anchors to count".to_string();
            proof {
                lemma_failed_counting(
                    index,
                    sources@,
                    Trail { setup, log, events },
                    evaluation@,
                    told,
                    event@,
                );
            }
            return Err(text);
        }
        match &told {
            Told::Load(l) => {
                rules = match l.ran.reply() {
                    Ok(v) => Some(same_value(v)),
                    Err(_) => None,
                };
            },
            Told::Rule(l) => {
                check = match &l.members {
                    Some(m) => match m.check.reply() {
                        Ok(f) => Some(same_function(f)),
                        Err(_) => None,
                    },
                    None => None,
                };
            },
            _ => {},
        }
        proof {
            lemma_every_answer_counts(index, evaluation@, sources@, event@);
            lemma_one_more(index, sources@, events, event@);
            lemma_one_more_told(index, sources@, log, events, told, event@);
            lemma_known_after(index, sources@, evaluation@, log, told, event@);
            log = log.push(told);
            events = events.push(event@);
        }
        evaluation = evaluation.step(index, event);
    }
}

impl RuleEngine {
    /// Loads and evaluates rules against the map. The result is that of a whole evaluation in
    /// which the sources tell how reading went and the engine the rest, whatever the rules do. It
    /// fails where the engine cannot be set up, where a check cannot be made, or where the counters
    /// run over, and the error says which.
    pub fn evaluate(&self, index: &SpatialIndex, sources: &Vec<RuleSource>) -> (r: Result<ValidationResult, String>)
        requires
            index.wf(),
        ensures
            sources@.len() == 0 ==> (r matches Ok(v) && v@ == begun(Seq::empty()).result),
            sources@.len() > 0 ==> match r {
                Ok(v) => succeeded(index, sources@, v@),
                Err(e) => failed(index, sources@, e@),
            },
    {
        if sources.len() == 0 {
            let evaluation = Evaluation::start(list_files(sources));
            assert(source_files(sources@) =~= Seq::empty());
            return Ok(evaluation.result);
        }
        let started = new_runtime();
        let ghost start = started;
        let runtime = match started.into_reply() {
            Ok(r) => r,
            Err(e) => {
                let text = words(&e);
                proof {
                    reveal(failed_for);
                lemma_failed(index, sources@, Failure::Runtime(start), text@);
                }
                return Err(text);
            },
        };
        let environment = full_context(runtime);
        match environment.reply() {
            Ok(context) => run(context, index, sources),
            Err(e) => {
                let text = words(e);
                proof {
                    reveal(failed_for);
                lemma_failed(index, sources@, Failure::Environment(environment), text@);
                }
                Err(text)
            },
        }
    }
}

} // verus!
