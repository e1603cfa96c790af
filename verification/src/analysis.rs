//! The walk over an `update_overlays` proc: which overlays it may add, in which branches, and
//! which local variables take which texts.

use crate::objtree::ObjectTree;
use crate::overlay_laws::walking_only_adds;
use crate::prefab::{copy_opt, opt_text};
use crate::syntax::{
    cases_text, extract_ident, extract_resource_from_expr, extract_string_from_expr, ident, is_dot, is_dot_expr,
    literal, resource, summarize_cases, summarize_condition, summarize_expr, summary, AssignKind, Expression, Follow,
    Statement, Term,
};
use crate::text::same_text;
use vstd::prelude::*;

verus! {

// ── Overlays ─────────────────────────────────────────────────────────

/// A state that may be overlaid on a type's sprite.
pub struct OverlaySpec {
    /// The name of the state; it may be a pattern with placeholders.
    pub state_name: String,
    /// The icon file, where it is not the type's own.
    pub icon_override: Option<String>,
    /// Whether the overlay is added inside a branch.
    pub conditional: bool,
    /// The condition of that branch, in words.
    pub condition_desc: Option<String>,
}

/// What an [`OverlaySpec`] holds.
#[verifier::ext_equal]
pub struct OverlayView {
    pub state_name: Seq<char>,
    pub icon_override: Option<Seq<char>>,
    pub conditional: bool,
    pub condition_desc: Option<Seq<char>>,
}

impl View for OverlaySpec {
    type V = OverlayView;

    open spec fn view(&self) -> OverlayView {
        OverlayView {
            state_name: self.state_name@,
            icon_override: opt_text(self.icon_override),
            conditional: self.conditional,
            condition_desc: opt_text(self.condition_desc),
        }
    }
}

/// The views of a list of overlays.
pub open spec fn overlay_views(v: Seq<OverlaySpec>) -> Seq<OverlayView> {
    v.map_values(|o: OverlaySpec| o@)
}

/// A step into a branch: the place of the branching statement in its block, and which of its arms
/// is taken. What comes where no arm does, as in `else`, is the arm after the others.
#[derive(Clone, Copy)]
pub struct Step {
    pub at: usize,
    pub arm: usize,
}

/// An overlay that the walk has found, with the branch in which it is added: the steps into it
/// from the outermost inwards.
pub struct Found {
    pub overlay: OverlaySpec,
    pub path: Vec<Step>,
}

/// What a [`Found`] holds.
#[verifier::ext_equal]
pub struct FoundView {
    pub overlay: OverlayView,
    pub path: Seq<Step>,
}

impl View for Found {
    type V = FoundView;

    open spec fn view(&self) -> FoundView {
        FoundView { overlay: self.overlay@, path: self.path@ }
    }
}

/// The views of a list of found overlays.
pub open spec fn found_views(v: Seq<Found>) -> Seq<FoundView> {
    v.map_values(|f: Found| f@)
}

// ── What the walk gathers ────────────────────────────────────────────

/// A text that a local variable is given inside a branch.
pub struct Assigned {
    pub name: String,
    pub value: String,
    /// The steps into the branch.
    pub path: Vec<Step>,
    pub condition_desc: Option<String>,
}

/// What an [`Assigned`] holds.
#[verifier::ext_equal]
pub struct AssignedView {
    pub name: Seq<char>,
    pub value: Seq<char>,
    pub path: Seq<Step>,
    pub condition_desc: Option<Seq<char>>,
}

impl View for Assigned {
    type V = AssignedView;

    open spec fn view(&self) -> AssignedView {
        AssignedView {
            name: self.name@,
            value: self.value@,
            path: self.path@,
            condition_desc: opt_text(self.condition_desc),
        }
    }
}

/// The views of a list of assignments.
pub open spec fn assigned_views(v: Seq<Assigned>) -> Seq<AssignedView> {
    v.map_values(|a: Assigned| a@)
}

/// The views of a list of pairs of texts.
pub open spec fn pair_views(v: Seq<(String, String)>) -> Seq<(Seq<char>, Seq<char>)> {
    v.map_values(|e: (String, String)| (e.0@, e.1@))
}

/// What a walk over a proc has gathered.
pub struct AnalysisContext {
    /// The overlays, in the order in which they are added.
    pub overlays: Vec<Found>,
    /// Whether every addition was understood.
    pub complete: bool,
    /// The texts given to local variables, in order.
    pub local_vars: Vec<(String, String)>,
    /// The texts given to local variables inside branches, in order.
    pub branched_vars: Vec<Assigned>,
}

/// What an [`AnalysisContext`] holds.
#[verifier::ext_equal]
pub struct AnalysisView {
    pub overlays: Seq<FoundView>,
    pub complete: bool,
    pub local_vars: Seq<(Seq<char>, Seq<char>)>,
    pub branched_vars: Seq<AssignedView>,
}

impl View for AnalysisContext {
    type V = AnalysisView;

    open spec fn view(&self) -> AnalysisView {
        AnalysisView {
            overlays: found_views(self.overlays@),
            complete: self.complete,
            local_vars: pair_views(self.local_vars@),
            branched_vars: assigned_views(self.branched_vars@),
        }
    }
}

/// The branch of the code that is being walked.
pub struct Branch {
    /// The steps into it, from the outermost inwards.
    pub steps: Vec<Step>,
    /// The condition of the innermost, in words.
    pub condition: Option<String>,
}

/// What a [`Branch`] holds.
#[verifier::ext_equal]
pub struct BranchView {
    pub steps: Seq<Step>,
    pub condition: Option<Seq<char>>,
}

impl View for Branch {
    type V = BranchView;

    open spec fn view(&self) -> BranchView {
        BranchView { steps: self.steps@, condition: opt_text(self.condition) }
    }
}

/// A branch inside another.
pub open spec fn inner_branch(b: BranchView, at: int, arm: int, condition: Seq<char>) -> BranchView {
    BranchView { steps: b.steps.push(Step { at: at as usize, arm: arm as usize }), condition: Some(condition) }
}

/// Copies the steps into a branch.
pub fn copy_steps(v: &Vec<Step>) -> (r: Vec<Step>)
    ensures
        r@ == v@,
{
    let mut out: Vec<Step> = Vec::new();
    let mut i: usize = 0;
    while i < v.len()
        invariant
            i <= v@.len(),
            out@ == v@.take(i as int),
        decreases v@.len() - i,
    {
        out.push(v[i]);
        assert(v@.take(i + 1) =~= v@.take(i as int).push(v@[i as int]));
        i = i + 1;
    }
    assert(v@.take(i as int) =~= v@);
    out
}

fn enter(b: &Branch, at: usize, arm: usize, condition: String) -> (r: Branch)
    ensures
        r@ == inner_branch(b@, at as int, arm as int, condition@),
{
    let mut steps = copy_steps(&b.steps);
    steps.push(Step { at, arm });
    Branch { steps, condition: Some(condition) }
}

/// A walk that has found nothing yet.
pub open spec fn nothing_found() -> AnalysisView {
    AnalysisView { overlays: Seq::empty(), complete: true, local_vars: Seq::empty(), branched_vars: Seq::empty() }
}

/// A walk that has an addition it did not understand.
pub open spec fn incomplete(a: AnalysisView) -> AnalysisView {
    AnalysisView { complete: false, ..a }
}

/// A walk that has found one more overlay.
pub open spec fn with_overlay(a: AnalysisView, b: BranchView, state: Seq<char>, icon: Option<Seq<char>>) -> AnalysisView {
    AnalysisView {
        overlays: a.overlays.push(
            FoundView {
                overlay: OverlayView {
                    state_name: state,
                    icon_override: icon,
                    conditional: b.steps.len() > 0,
                    condition_desc: b.condition,
                },
                path: b.steps,
            },
        ),
        ..a
    }
}

/// A walk that has seen a local variable declared with a text.
pub open spec fn with_local(a: AnalysisView, name: Seq<char>, value: Seq<char>) -> AnalysisView {
    AnalysisView { local_vars: a.local_vars.push((name, value)), ..a }
}

/// A walk that has seen a local variable assigned a text.
pub open spec fn with_assignment(a: AnalysisView, b: BranchView, name: Seq<char>, value: Seq<char>) -> AnalysisView {
    let noted = if b.steps.len() > 0 {
        AnalysisView {
            branched_vars: a.branched_vars.push(AssignedView { name, value, path: b.steps, condition_desc: b.condition }),
            ..a
        }
    } else {
        a
    };
    with_local(noted, name, value)
}

/// The value that was given to a name last.
pub open spec fn latest(log: Seq<(Seq<char>, Seq<char>)>, name: Seq<char>) -> Option<Seq<char>>
    decreases log.len(),
{
    if log.len() == 0 {
        None
    } else if log.last().0 == name {
        Some(log.last().1)
    } else {
        latest(log.drop_last(), name)
    }
}

/// Whether branches give a variable at least two different values.
pub open spec fn branches_differ(log: Seq<AssignedView>, name: Seq<char>) -> bool {
    exists|i: int, j: int|
        0 <= i < log.len() && 0 <= j < log.len() && (#[trigger] log[i]).name == name && (#[trigger] log[j]).name == name
            && log[i].value != log[j].value
}

/// Whether the last assignment of a name in a branch was in one that the walk is still inside.
pub open spec fn given_here(log: Seq<AssignedView>, here: Seq<Step>, name: Seq<char>) -> bool
    decreases log.len(),
{
    if log.len() == 0 {
        false
    } else if log.last().name == name {
        log.last().path.is_prefix_of(here)
    } else {
        given_here(log.drop_last(), here, name)
    }
}

/// A placeholder for a name.
pub open spec fn placeholder(name: Seq<char>) -> Seq<char> {
    "["@ + name + "]"@
}

/// Writes a placeholder for a name.
pub fn write_placeholder(name: &str) -> (r: String)
    ensures
        r@ == placeholder(name@),
{
    let mut out = "[".to_string();
    out.append(name);
    out.append("]");
    out
}

impl ObjectTree {
    /// The text that a variable stands for in a branch: a placeholder where branches give it
    /// different values and the walk is outside the last of them; or else the value it was last
    /// given, or that of the type's variable.
    pub open spec fn value_in(&self, t: int, a: AnalysisView, b: BranchView, name: Seq<char>) -> Option<Seq<char>> {
        if branches_differ(a.branched_vars, name) && !given_here(a.branched_vars, b.steps, name) {
            Some(placeholder(name))
        } else {
            match latest(a.local_vars, name) {
                Some(v) => Some(v),
                None => self.text_var(t, name),
            }
        }
    }

    /// The text that an expression stands for, as far as it can be told.
    pub open spec fn string_or_var(&self, t: int, a: AnalysisView, b: BranchView, e: Expression) -> Option<Seq<char>>
        decreases e, 0int,
    {
        match e {
            Expression::Base { term, follow } => if follow@.len() == 0 {
                match *term {
                    Term::Str(s) => Some(s@),
                    Term::Ident(name) => self.value_in(t, a, b, name@),
                    Term::InterpString(prefix, parts) => Some(self.interp_text(t, a, b, prefix@, parts@)),
                    _ => None,
                }
            } else if follow@.len() == 1 {
                match (*term, follow@[0]) {
                    (Term::Ident(base), Follow::Field(field)) => if base@ == "src"@ {
                        self.value_in(t, a, b, field@)
                    } else {
                        None
                    },
                    _ => None,
                }
            } else {
                None
            },
            _ => None,
        }
    }

    /// What an expression inside a text puts there: its text, or a placeholder.
    pub open spec fn interp_value(&self, t: int, a: AnalysisView, b: BranchView, e: Expression) -> Seq<char>
        decreases e, 1int,
    {
        match self.string_or_var(t, a, b, e) {
            Some(v) => v,
            None => placeholder(summary(e)),
        }
    }

    /// A text with expressions in it, with their values in place.
    pub open spec fn interp_text(
        &self,
        t: int,
        a: AnalysisView,
        b: BranchView,
        prefix: Seq<char>,
        parts: Seq<(Option<Expression>, String)>,
    ) -> Seq<char>
        decreases parts, 0int,
    {
        if parts.len() == 0 {
            prefix
        } else {
            self.interp_text(t, a, b, prefix, parts.drop_last()) + (match parts[parts.len() - 1].0 {
                Some(e) => self.interp_value(t, a, b, e),
                None => ""@,
            }) + parts[parts.len() - 1].1@
        }
    }

    /// The walk after `mutable_appearance(icon, state, ..)` is added.
    pub open spec fn after_appearance(&self, t: int, a: AnalysisView, b: BranchView, args: Seq<Expression>) -> AnalysisView {
        if args.len() < 2 {
            incomplete(a)
        } else {
            match self.string_or_var(t, a, b, args[1]) {
                Some(s) => with_overlay(a, b, s, resource(args[0])),
                None => incomplete(a),
            }
        }
    }

    /// The walk after `get_airlock_overlay(state, ..)` is added.
    pub open spec fn after_airlock(&self, t: int, a: AnalysisView, b: BranchView, args: Seq<Expression>) -> AnalysisView {
        if args.len() == 0 {
            incomplete(a)
        } else {
            match self.string_or_var(t, a, b, args[0]) {
                Some(s) => with_overlay(a, b, s, None),
                None => incomplete(a),
            }
        }
    }

    /// The walk after `image(icon, loc, state, ..)` or `image(icon, state)` is added.
    pub open spec fn after_image(&self, t: int, a: AnalysisView, b: BranchView, args: Seq<Expression>) -> AnalysisView {
        if args.len() >= 3 && self.string_or_var(t, a, b, args[2]) is Some {
            with_overlay(a, b, self.string_or_var(t, a, b, args[2])->0, resource(args[0]))
        } else if args.len() >= 2 && self.string_or_var(t, a, b, args[1]) is Some {
            with_overlay(a, b, self.string_or_var(t, a, b, args[1])->0, resource(args[0]))
        } else {
            incomplete(a)
        }
    }

    /// The walk after the result of a call is added.
    pub open spec fn after_call(
        &self,
        t: int,
        a: AnalysisView,
        b: BranchView,
        name: Seq<char>,
        args: Seq<Expression>,
        alone: bool,
    ) -> AnalysisView {
        if name == "mutable_appearance"@ {
            self.after_appearance(t, a, b, args)
        } else if name == "emissive_appearance"@ && alone {
            a
        } else if name == "get_airlock_overlay"@ {
            self.after_airlock(t, a, b, args)
        } else if name == "image"@ {
            self.after_image(t, a, b, args)
        } else {
            incomplete(a)
        }
    }

    /// The walk after an expression is added to the overlays.
    pub open spec fn after_addition(&self, t: int, a: AnalysisView, b: BranchView, e: Expression) -> AnalysisView {
        match e {
            Expression::Base { term, follow } => match *term {
                Term::Call(name, args) => self.after_call(t, a, b, name@, args@, follow@.len() == 0),
                Term::Str(s) => if follow@.len() == 0 {
                    with_overlay(a, b, s@, None)
                } else {
                    incomplete(a)
                },
                Term::InterpString(prefix, parts) => if follow@.len() == 0 {
                    with_overlay(a, b, self.interp_text(t, a, b, prefix@, parts@), None)
                } else {
                    incomplete(a)
                },
                Term::Ident(name) => if follow@.len() == 0 {
                    match self.value_in(t, a, b, name@) {
                        Some(v) => with_overlay(a, b, v, None),
                        None => incomplete(with_overlay(a, b, placeholder(name@), None)),
                    }
                } else {
                    incomplete(a)
                },
                _ => incomplete(a),
            },
            _ => incomplete(a),
        }
    }

    /// The walk after a statement at a place in its block. What a statement of another kind adds is
    /// not followed: it makes the walk incomplete.
    pub open spec fn after_statement(&self, t: int, s: Statement, at: int, a: AnalysisView, b: BranchView) -> AnalysisView
        decreases s, 0int,
    {
        match s {
            Statement::Expr(e) => match e {
                Expression::AssignOp { kind, lhs, rhs } => match kind {
                    AssignKind::AddAssign => if is_dot(*lhs) {
                        self.after_addition(t, a, b, *rhs)
                    } else {
                        a
                    },
                    AssignKind::Assign => match (ident(*lhs), literal(*rhs)) {
                        (Some(name), Some(value)) => with_assignment(a, b, name, value),
                        _ => a,
                    },
                    AssignKind::Other => a,
                },
                _ => a,
            },
            Statement::Var { name, value } => match value {
                Some(e) => match literal(e) {
                    Some(v) => with_local(a, name@, v),
                    None => a,
                },
                None => a,
            },
            Statement::If { arms, else_arm } => {
                let x = self.after_arms(t, arms@, at, a, b);
                match else_arm {
                    Some(block) => self.after_block(
                        t,
                        block@,
                        x,
                        inner_branch(b, at, arms@.len() as int, "else"@),
                    ),
                    None => x,
                }
            },
            Statement::Switch { input, cases, default } => {
                let x = self.after_cases(t, summary(input), cases@, at, a, b);
                match default {
                    Some(block) => self.after_block(
                        t,
                        block@,
                        x,
                        inner_branch(b, at, cases@.len() as int, summary(input) + " (default)"@),
                    ),
                    None => x,
                }
            },
            Statement::ForList(block) => self.after_block(
                t,
                block@,
                a,
                inner_branch(b, at, 0, "for loop iteration"@),
            ),
            Statement::Other(inside) => {
                let x = self.after_block(t, inside@, a, b);
                if x.overlays.len() == a.overlays.len() && x.complete {
                    a
                } else {
                    incomplete(a)
                }
            },
        }
    }

    /// The walk after the statements of a block.
    pub open spec fn after_block(&self, t: int, block: Seq<Statement>, a: AnalysisView, b: BranchView) -> AnalysisView
        decreases block, 0int,
    {
        if block.len() == 0 {
            a
        } else {
            self.after_statement(
                t,
                block[block.len() - 1],
                block.len() - 1,
                self.after_block(t, block.drop_last(), a, b),
                b,
            )
        }
    }

    /// The walk after the arms of an `if`.
    pub open spec fn after_arms(
        &self,
        t: int,
        arms: Seq<(Expression, Vec<Statement>)>,
        at: int,
        a: AnalysisView,
        b: BranchView,
    ) -> AnalysisView
        decreases arms, 0int,
    {
        if arms.len() == 0 {
            a
        } else {
            self.after_block(
                t,
                arms[arms.len() - 1].1@,
                self.after_arms(t, arms.drop_last(), at, a, b),
                inner_branch(b, at, arms.len() - 1, summary(arms[arms.len() - 1].0)),
            )
        }
    }

    /// The walk after the cases of a `switch`.
    pub open spec fn after_cases(
        &self,
        t: int,
        input: Seq<char>,
        cases: Seq<(Vec<crate::syntax::Case>, Vec<Statement>)>,
        at: int,
        a: AnalysisView,
        b: BranchView,
    ) -> AnalysisView
        decreases cases, 0int,
    {
        if cases.len() == 0 {
            a
        } else {
            self.after_block(
                t,
                cases[cases.len() - 1].1@,
                self.after_cases(t, input, cases.drop_last(), at, a, b),
                inner_branch(b, at, cases.len() - 1, input + "="@ + cases_text(cases[cases.len() - 1].0@)),
            )
        }
    }
}

// ── The walk ─────────────────────────────────────────────────────────

fn latest_value(log: &Vec<(String, String)>, name: &str) -> (r: Option<String>)
    ensures
        opt_text(r) == latest(pair_views(log@), name@),
{
    let ghost all = pair_views(log@);
    let mut i: usize = log.len();
    assert(all.take(i as int) =~= all);
    while i > 0
        invariant
            i <= log@.len(),
            all == pair_views(log@),
            latest(all.take(i as int), name@) == latest(all, name@),
        decreases i,
    {
        assert(all.take(i as int).drop_last() =~= all.take(i - 1));
        assert(all.take(i as int).last() == (log@[i - 1].0@, log@[i - 1].1@));
        if same_text(log[i - 1].0.as_str(), name) {
            return Some(log[i - 1].1.clone());
        }
        i = i - 1;
    }
    None
}

/// Tests whether steps lead into a branch or around it.
pub fn leads_to(path: &Vec<Step>, here: &Vec<Step>) -> (r: bool)
    ensures
        r == path@.is_prefix_of(here@),
{
    if path.len() > here.len() {
        return false;
    }
    let mut i: usize = 0;
    while i < path.len()
        invariant
            i <= path@.len() <= here@.len(),
            forall|k: int| 0 <= k < i ==> path@[k] == here@[k],
        decreases path@.len() - i,
    {
        if path[i].at != here[i].at || path[i].arm != here[i].arm {
            assert(path@[i as int] != here@.subrange(0, path@.len() as int)[i as int]);
            return false;
        }
        i = i + 1;
    }
    assert(path@ =~= here@.subrange(0, path@.len() as int));
    true
}

fn is_given_here(log: &Vec<Assigned>, here: &Vec<Step>, name: &str) -> (r: bool)
    ensures
        r == given_here(assigned_views(log@), here@, name@),
{
    let ghost all = assigned_views(log@);
    let mut i: usize = log.len();
    assert(all.take(i as int) =~= all);
    while i > 0
        invariant
            i <= log@.len(),
            all == assigned_views(log@),
            given_here(all.take(i as int), here@, name@) == given_here(all, here@, name@),
        decreases i,
    {
        assert(all.take(i as int).drop_last() =~= all.take(i - 1));
        assert(all.take(i as int).last() == log@[i - 1]@);
        if same_text(log[i - 1].name.as_str(), name) {
            return leads_to(&log[i - 1].path, here);
        }
        i = i - 1;
    }
    false
}

/// Tests whether branches give a variable at least two different values.
pub fn differs(log: &Vec<Assigned>, name: &str) -> (r: bool)
    ensures
        r == branches_differ(assigned_views(log@), name@),
{
    let ghost all = assigned_views(log@);
    let mut first: Option<usize> = None;
    let mut i: usize = 0;
    while i < log.len()
        invariant
            i <= log@.len(),
            all == assigned_views(log@),
            match first {
                Some(f) => f < i && all[f as int].name == name@ && forall|k: int|
                    0 <= k < i && (#[trigger] all[k]).name == name@ ==> all[k].value == all[f as int].value,
                None => forall|k: int| 0 <= k < i ==> (#[trigger] all[k]).name != name@,
            },
        decreases log@.len() - i,
    {
        assert(all[i as int] == log@[i as int]@);
        if same_text(log[i].name.as_str(), name) {
            match first {
                Some(f) => {
                    assert(all[f as int] == log@[f as int]@);
                    if !same_text(log[i].value.as_str(), log[f].value.as_str()) {
                        assert(all[i as int].value != all[f as int].value);
                        return true;
                    }
                },
                None => {
                    first = Some(i);
                },
            }
        }
        i = i + 1;
    }
    false
}

impl AnalysisContext {
    /// A walk that has found nothing yet.
    pub fn new() -> (r: Self)
        ensures
            r@ == nothing_found(),
    {
        let r = AnalysisContext {
            overlays: Vec::new(),
            complete: true,
            local_vars: Vec::new(),
            branched_vars: Vec::new(),
        };
        assert(r@.overlays =~= Seq::empty());
        assert(r@.local_vars =~= Seq::empty());
        assert(r@.branched_vars =~= Seq::empty());
        r
    }

    /// Notes an overlay.
    pub fn add_overlay(&mut self, b: &Branch, state: String, icon_override: Option<String>)
        ensures
            final(self)@ == with_overlay(old(self)@, b@, state@, opt_text(icon_override)),
    {
        let ghost before = self@;
        let overlay = OverlaySpec {
            state_name: state,
            icon_override,
            conditional: b.steps.len() > 0,
            condition_desc: copy_opt(&b.condition),
        };
        let found = Found { overlay, path: copy_steps(&b.steps) };
        let ghost fv = found@;
        self.overlays.push(found);
        assert(self@.overlays =~= before.overlays.push(fv));
    }

    fn set_local(&mut self, name: String, value: String)
        ensures
            final(self)@ == with_local(old(self)@, name@, value@),
    {
        let ghost before = self@;
        self.local_vars.push((name, value));
        assert(self@.local_vars =~= before.local_vars.push((name@, value@)));
    }

    fn assign(&mut self, b: &Branch, name: String, value: String)
        ensures
            final(self)@ == with_assignment(old(self)@, b@, name@, value@),
    {
        if b.steps.len() > 0 {
            let ghost before = self@;
            let note = Assigned {
                name: name.clone(),
                value: value.clone(),
                path: copy_steps(&b.steps),
                condition_desc: copy_opt(&b.condition),
            };
            let ghost nv = note@;
            self.branched_vars.push(note);
            assert(self@.branched_vars =~= before.branched_vars.push(nv));
        }
        self.set_local(name, value);
    }

    /// Resolves a variable to a text, as it is used in a branch.
    pub fn resolve_var(&self, tree: &ObjectTree, t: usize, b: &Branch, name: &str) -> (r: Option<String>)
        requires
            tree.wf(),
            t < tree.types@.len(),
        ensures
            opt_text(r) == tree.value_in(t as int, self@, b@, name@),
    {
        if differs(&self.branched_vars, name) && !is_given_here(&self.branched_vars, &b.steps, name) {
            return Some(write_placeholder(name));
        }
        match latest_value(&self.local_vars, name) {
            Some(v) => Some(v),
            None => tree.resolve_var_string(t, name),
        }
    }

    /// Resolves an expression to a text.
    pub fn extract_string_or_var(&self, tree: &ObjectTree, t: usize, b: &Branch, e: &Expression) -> (r: Option<String>)
        requires
            tree.wf(),
            t < tree.types@.len(),
        ensures
            opt_text(r) == tree.string_or_var(t as int, self@, b@, *e),
        decreases e, 0int,
    {
        match e {
            Expression::Base { term, follow } => {
                if follow.len() == 0 {
                    match &**term {
                        Term::Str(s) => Some(s.clone()),
                        Term::Ident(name) => self.resolve_var(tree, t, b, name.as_str()),
                        Term::InterpString(prefix, parts) => Some(
                            self.resolve_interp_string(tree, t, b, prefix.as_str(), parts),
                        ),
                        _ => None,
                    }
                } else if follow.len() == 1 {
                    match (&**term, &follow[0]) {
                        (Term::Ident(base), Follow::Field(field)) => {
                            if same_text(base.as_str(), "src") {
                                self.resolve_var(tree, t, b, field.as_str())
                            } else {
                                None
                            }
                        },
                        _ => None,
                    }
                } else {
                    None
                }
            },
            _ => None,
        }
    }

    /// Puts the values of expressions in place in a text, or placeholders where they have none.
    pub fn resolve_interp_string(
        &self,
        tree: &ObjectTree,
        t: usize,
        b: &Branch,
        prefix: &str,
        parts: &Vec<(Option<Expression>, String)>,
    ) -> (r: String)
        requires
            tree.wf(),
            t < tree.types@.len(),
        ensures
            r@ == tree.interp_text(t as int, self@, b@, prefix@, parts@),
        decreases parts, 0int,
    {
        let mut out = prefix.to_string();
        let mut i: usize = 0;
        assert(parts@.take(0) =~= Seq::empty());
        while i < parts.len()
            invariant
                i <= parts@.len(),
                tree.wf(),
                t < tree.types@.len(),
                out@ == tree.interp_text(t as int, self@, b@, prefix@, parts@.take(i as int)),
            decreases parts@.len() - i,
        {
            let ghost upto = parts@.take(i + 1);
            assert(upto.drop_last() =~= parts@.take(i as int));
            assert(upto[upto.len() - 1] == parts@[i as int]);
            match &parts[i].0 {
                Some(e) => {
                    assert(decreases_to!(*parts => parts@[i as int].0->0));
                    match self.extract_string_or_var(tree, t, b, e) {
                        Some(v) => {
                            assert(v@ == tree.interp_value(t as int, self@, b@, *e));
                            out.append(v.as_str());
                        },
                        None => {
                            assert(placeholder(summary(*e)) == tree.interp_value(t as int, self@, b@, *e));
                            let words = summarize_expr(e);
                            out.append(write_placeholder(words.as_str()).as_str());
                        },
                    }
                },
                None => {
                    out.append("");
                },
            }
            out.append(parts[i].1.as_str());
            i = i + 1;
        }
        assert(parts@.take(i as int) =~= parts@);
        out
    }

    fn extract_mutable_appearance(&mut self, tree: &ObjectTree, t: usize, b: &Branch, args: &Vec<Expression>)
        requires
            tree.wf(),
            t < tree.types@.len(),
        ensures
            final(self)@ == tree.after_appearance(t as int, old(self)@, b@, args@),
    {
        if args.len() < 2 {
            self.complete = false;
            return;
        }
        let icon = extract_resource_from_expr(&args[0]);
        match self.extract_string_or_var(tree, t, b, &args[1]) {
            Some(state) => {
                self.add_overlay(b, state, icon);
            },
            None => {
                self.complete = false;
            },
        }
    }

    fn extract_airlock(&mut self, tree: &ObjectTree, t: usize, b: &Branch, args: &Vec<Expression>)
        requires
            tree.wf(),
            t < tree.types@.len(),
        ensures
            final(self)@ == tree.after_airlock(t as int, old(self)@, b@, args@),
    {
        if args.len() == 0 {
            self.complete = false;
            return;
        }
        match self.extract_string_or_var(tree, t, b, &args[0]) {
            Some(state) => {
                self.add_overlay(b, state, None);
            },
            None => {
                self.complete = false;
            },
        }
    }

    fn extract_image_call(&mut self, tree: &ObjectTree, t: usize, b: &Branch, args: &Vec<Expression>)
        requires
            tree.wf(),
            t < tree.types@.len(),
        ensures
            final(self)@ == tree.after_image(t as int, old(self)@, b@, args@),
    {
        if args.len() >= 3 {
            if let Some(state) = self.extract_string_or_var(tree, t, b, &args[2]) {
                let icon = extract_resource_from_expr(&args[0]);
                self.add_overlay(b, state, icon);
                return;
            }
        }
        if args.len() >= 2 {
            if let Some(state) = self.extract_string_or_var(tree, t, b, &args[1]) {
                let icon = extract_resource_from_expr(&args[0]);
                self.add_overlay(b, state, icon);
                return;
            }
        }
        self.complete = false;
    }

    fn extract_call(&mut self, tree: &ObjectTree, t: usize, b: &Branch, name: &str, args: &Vec<Expression>, alone: bool)
        requires
            tree.wf(),
            t < tree.types@.len(),
        ensures
            final(self)@ == tree.after_call(t as int, old(self)@, b@, name@, args@, alone),
    {
        if same_text(name, "mutable_appearance") {
            self.extract_mutable_appearance(tree, t, b, args);
        } else if same_text(name, "emissive_appearance") && alone {
        } else if same_text(name, "get_airlock_overlay") {
            self.extract_airlock(tree, t, b, args);
        } else if same_text(name, "image") {
            self.extract_image_call(tree, t, b, args);
        } else {
            self.complete = false;
        }
    }

    /// Notes what an expression adds to the overlays.
    pub fn extract_overlay_from_expr(&mut self, tree: &ObjectTree, t: usize, b: &Branch, e: &Expression)
        requires
            tree.wf(),
            t < tree.types@.len(),
        ensures
            final(self)@ == tree.after_addition(t as int, old(self)@, b@, *e),
    {
        match e {
            Expression::Base { term, follow } => {
                let alone = follow.len() == 0;
                match &**term {
                    Term::Call(name, args) => {
                        self.extract_call(tree, t, b, name.as_str(), args, alone);
                    },
                    Term::Str(s) => {
                        if alone {
                            self.add_overlay(b, s.clone(), None);
                        } else {
                            self.complete = false;
                        }
                    },
                    Term::InterpString(prefix, parts) => {
                        if alone {
                            let pattern = self.resolve_interp_string(tree, t, b, prefix.as_str(), parts);
                            self.add_overlay(b, pattern, None);
                        } else {
                            self.complete = false;
                        }
                    },
                    Term::Ident(name) => {
                        if alone {
                            match self.resolve_var(tree, t, b, name.as_str()) {
                                Some(v) => {
                                    self.add_overlay(b, v, None);
                                },
                                None => {
                                    self.add_overlay(b, write_placeholder(name.as_str()), None);
                                    self.complete = false;
                                },
                            }
                        } else {
                            self.complete = false;
                        }
                    },
                    _ => {
                        self.complete = false;
                    },
                }
            },
            _ => {
                self.complete = false;
            },
        }
    }

    /// Walks a block.
    pub fn walk_block(&mut self, tree: &ObjectTree, t: usize, block: &Vec<Statement>, b: &Branch)
        requires
            tree.wf(),
            t < tree.types@.len(),
        ensures
            final(self)@ == tree.after_block(t as int, block@, old(self)@, b@),
        decreases block, 0int,
    {
        let mut i: usize = 0;
        assert(block@.take(0) =~= Seq::empty());
        while i < block.len()
            invariant
                i <= block@.len(),
                tree.wf(),
                t < tree.types@.len(),
                self@ == tree.after_block(t as int, block@.take(i as int), old(self)@, b@),
            decreases block@.len() - i,
        {
            let ghost upto = block@.take(i + 1);
            assert(upto.drop_last() =~= block@.take(i as int));
            assert(upto[upto.len() - 1] == block@[i as int]);
            assert(decreases_to!(*block => block@[i as int]));
            self.walk_statement(tree, t, &block[i], i, b);
            i = i + 1;
        }
        assert(block@.take(i as int) =~= block@);
    }

    fn walk_arms(
        &mut self,
        tree: &ObjectTree,
        t: usize,
        arms: &Vec<(Expression, Vec<Statement>)>,
        at: usize,
        b: &Branch,
    )
        requires
            tree.wf(),
            t < tree.types@.len(),
        ensures
            final(self)@ == tree.after_arms(t as int, arms@, at as int, old(self)@, b@),
        decreases arms, 0int,
    {
        let mut i: usize = 0;
        assert(arms@.take(0) =~= Seq::empty());
        while i < arms.len()
            invariant
                i <= arms@.len(),
                tree.wf(),
                t < tree.types@.len(),
                self@ == tree.after_arms(t as int, arms@.take(i as int), at as int, old(self)@, b@),
            decreases arms@.len() - i,
        {
            let ghost upto = arms@.take(i + 1);
            assert(upto.drop_last() =~= arms@.take(i as int));
            assert(upto[upto.len() - 1] == arms@[i as int]);
            assert(decreases_to!(*arms => arms@[i as int].1));
            let inside = enter(b, at, i, summarize_condition(&arms[i].0));
            self.walk_block(tree, t, &arms[i].1, &inside);
            i = i + 1;
        }
        assert(arms@.take(i as int) =~= arms@);
    }

    fn walk_cases(
        &mut self,
        tree: &ObjectTree,
        t: usize,
        input: &str,
        cases: &Vec<(Vec<crate::syntax::Case>, Vec<Statement>)>,
        at: usize,
        b: &Branch,
    )
        requires
            tree.wf(),
            t < tree.types@.len(),
        ensures
            final(self)@ == tree.after_cases(t as int, input@, cases@, at as int, old(self)@, b@),
        decreases cases, 0int,
    {
        let mut i: usize = 0;
        assert(cases@.take(0) =~= Seq::empty());
        while i < cases.len()
            invariant
                i <= cases@.len(),
                tree.wf(),
                t < tree.types@.len(),
                self@ == tree.after_cases(t as int, input@, cases@.take(i as int), at as int, old(self)@, b@),
            decreases cases@.len() - i,
        {
            let ghost upto = cases@.take(i + 1);
            assert(upto.drop_last() =~= cases@.take(i as int));
            assert(upto[upto.len() - 1] == cases@[i as int]);
            assert(decreases_to!(*cases => cases@[i as int].1));
            let mut words = input.to_string();
            words.append("=");
            words.append(summarize_cases(&cases[i].0).as_str());
            let inside = enter(b, at, i, words);
            self.walk_block(tree, t, &cases[i].1, &inside);
            i = i + 1;
        }
        assert(cases@.take(i as int) =~= cases@);
    }

    /// Walks the statement at a place in its block.
    pub fn walk_statement(&mut self, tree: &ObjectTree, t: usize, s: &Statement, at: usize, b: &Branch)
        requires
            tree.wf(),
            t < tree.types@.len(),
        ensures
            final(self)@ == tree.after_statement(t as int, *s, at as int, old(self)@, b@),
        decreases s, 0int,
    {
        match s {
            Statement::Expr(e) => {
                if let Expression::AssignOp { kind, lhs, rhs } = e {
                    match *kind {
                        AssignKind::AddAssign => {
                            if is_dot_expr(lhs) {
                                self.extract_overlay_from_expr(tree, t, b, rhs);
                            }
                        },
                        AssignKind::Assign => {
                            if let Some(name) = extract_ident(lhs) {
                                if let Some(value) = extract_string_from_expr(rhs) {
                                    self.assign(b, name, value);
                                }
                            }
                        },
                        AssignKind::Other => {},
                    }
                }
            },
            Statement::Var { name, value } => {
                if let Some(e) = value {
                    if let Some(v) = extract_string_from_expr(e) {
                        self.set_local(name.clone(), v);
                    }
                }
            },
            Statement::If { arms, else_arm } => {
                self.walk_arms(tree, t, arms, at, b);
                if let Some(block) = else_arm {
                    let inside = enter(b, at, arms.len(), "else".to_string());
                    self.walk_block(tree, t, block, &inside);
                }
            },
            Statement::Switch { input, cases, default } => {
                let words = summarize_expr(input);
                self.walk_cases(tree, t, words.as_str(), cases, at, b);
                if let Some(block) = default {
                    let mut desc = words.clone();
                    desc.append(" (default)");
                    let inside = enter(b, at, cases.len(), desc);
                    self.walk_block(tree, t, block, &inside);
                }
            },
            Statement::ForList(block) => {
                let inside = enter(b, at, 0, "for loop iteration".to_string());
                self.walk_block(tree, t, block, &inside);
            },
            Statement::Other(inside) => {
                let ghost before = self@;
                let overlays: usize = self.overlays.len();
                let local_vars: usize = self.local_vars.len();
                let branched_vars: usize = self.branched_vars.len();
                self.walk_block(tree, t, inside, b);
                let ghost after = self@;
                proof {
                    walking_only_adds(tree, t as int, inside@, before, b@);
                    assert(before.overlays.len() == overlays && after.overlays.len() == self.overlays@.len());
                    assert(before.local_vars.len() == local_vars && before.branched_vars.len() == branched_vars);
                    assert(after.local_vars.len() == self.local_vars@.len());
                    assert(after.branched_vars.len() == self.branched_vars@.len());
                }
                let understood = self.overlays.len() == overlays && self.complete;
                self.overlays.truncate(overlays);
                self.local_vars.truncate(local_vars);
                self.branched_vars.truncate(branched_vars);
                self.complete = understood;
                proof {
                    assert(self@.overlays =~= after.overlays.subrange(0, overlays as int));
                    assert(self@.local_vars =~= after.local_vars.subrange(0, local_vars as int));
                    assert(self@.branched_vars =~= after.branched_vars.subrange(0, branched_vars as int));
                }
            },
        }
    }
}

} // verus!
