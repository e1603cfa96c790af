//! What holds of branches: what is added in one arm of a statement is never combined with what
//! is added in another, and what different statements add is.

use crate::analysis::{inner_branch, AnalysisView, BranchView, FoundView, Step};
use crate::objtree::ObjectTree;
use crate::overlay_laws::{
    added_by, every_combination_is_of_a_run, goes_on, goes_through, lemma_branches_known, lemma_none_picked, lemma_picked,
    lemma_singles, lemma_singles_come_first, lemma_statement_adds, walking_only_adds,
};
use crate::overlays::{
    branches, choices, choices_of, choices_up_to, combos, extended, extensions, in_choice, independent, joins, names_where,
    steady, with_choice,
};
use crate::syntax::{cases_text, is_dot, literal, summary, AssignKind, Case, Expression, Statement};
use vstd::prelude::*;

verus! {

// ── Where overlays lie ───────────────────────────────────────────────

/// Whether everything that a walk found after another one lies inside a branch.
pub open spec fn found_inside(a: AnalysisView, x: AnalysisView, steps: Seq<Step>) -> bool {
    &&& forall|k: int|
        a.overlays.len() <= k < x.overlays.len() ==> {
            let f = #[trigger] x.overlays[k];
            &&& steps.is_prefix_of(f.path)
            &&& f.overlay.conditional <==> f.path.len() > 0
        }
    &&& forall|k: int|
        a.branched_vars.len() <= k < x.branched_vars.len() ==> steps.is_prefix_of((#[trigger] x.branched_vars[k]).path)
}

/// Whether everything that a walk found after another one lies in a branch itself or in an arm
/// of the statement at the given place of it.
pub open spec fn found_at(a: AnalysisView, x: AnalysisView, steps: Seq<Step>, at: int) -> bool {
    &&& found_inside(a, x, steps)
    &&& forall|k: int|
        a.overlays.len() <= k < x.overlays.len() ==> {
            let f = #[trigger] x.overlays[k];
            f.path.len() > steps.len() ==> f.path[steps.len() as int].at == at
        }
}

proof fn lemma_inside_inner(a: AnalysisView, x: AnalysisView, b: BranchView, at: int, arm: int, words: Seq<char>)
    requires
        0 <= at <= usize::MAX,
        found_inside(a, x, inner_branch(b, at, arm, words).steps),
    ensures
        found_at(a, x, b.steps, at),
{
    let inner = inner_branch(b, at, arm, words).steps;
    assert(inner.take(b.steps.len() as int) =~= b.steps);
    assert forall|k: int| a.overlays.len() <= k < x.overlays.len() implies {
        let f = #[trigger] x.overlays[k];
        &&& b.steps.is_prefix_of(f.path)
        &&& f.overlay.conditional <==> f.path.len() > 0
        &&& f.path.len() > b.steps.len() ==> f.path[b.steps.len() as int].at == at
    } by {
        let f = x.overlays[k];
        assert(inner.is_prefix_of(f.path));
        assert(f.path.subrange(0, inner.len() as int)[b.steps.len() as int] == f.path[b.steps.len() as int]);
        lemma_shorter_prefix(b.steps, inner, f.path);
    }
    assert forall|k: int| a.branched_vars.len() <= k < x.branched_vars.len() implies b.steps.is_prefix_of(
        (#[trigger] x.branched_vars[k]).path,
    ) by {
        lemma_shorter_prefix(b.steps, inner, x.branched_vars[k].path);
    }
}

proof fn lemma_shorter_prefix(p: Seq<Step>, q: Seq<Step>, r: Seq<Step>)
    requires
        p.len() < q.len(),
        q.take(p.len() as int) == p,
        q.is_prefix_of(r),
    ensures
        p.is_prefix_of(r),
{
    assert(r.subrange(0, p.len() as int) =~= p) by {
        assert forall|i: int| 0 <= i < p.len() implies r[i] == p[i] by {
            assert(r.subrange(0, q.len() as int)[i] == q[i]);
            assert(q.take(p.len() as int)[i] == q[i]);
        }
    }
}

proof fn lemma_inside_twice(a: AnalysisView, x: AnalysisView, y: AnalysisView, steps: Seq<Step>, at: int)
    requires
        goes_on(x, y),
        found_at(a, x, steps, at),
        found_at(x, y, steps, at),
    ensures
        found_at(a, y, steps, at),
{
    assert forall|k: int| a.overlays.len() <= k < y.overlays.len() implies {
        let f = #[trigger] y.overlays[k];
        &&& steps.is_prefix_of(f.path)
        &&& f.overlay.conditional <==> f.path.len() > 0
        &&& f.path.len() > steps.len() ==> f.path[steps.len() as int].at == at
    } by {
        if k < x.overlays.len() {
            assert(y.overlays.subrange(0, x.overlays.len() as int)[k] == y.overlays[k]);
        }
    }
    assert forall|k: int| a.branched_vars.len() <= k < y.branched_vars.len() implies steps.is_prefix_of(
        (#[trigger] y.branched_vars[k]).path,
    ) by {
        if k < x.branched_vars.len() {
            assert(y.branched_vars.subrange(0, x.branched_vars.len() as int)[k] == y.branched_vars[k]);
        }
    }
}

proof fn lemma_statement_inside(tree: &ObjectTree, t: int, s: Statement, at: int, a: AnalysisView, b: BranchView)
    requires
        0 <= at <= usize::MAX,
    ensures
        found_at(a, tree.after_statement(t, s, at, a, b), b.steps, at),
    decreases s, 0int,
{
    assert(b.steps.subrange(0, b.steps.len() as int) =~= b.steps);
    match s {
        Statement::If { arms, else_arm } => {
            lemma_arms_inside(tree, t, arms@, at, a, b);
            let x = tree.after_arms(t, arms@, at, a, b);
            if let Some(block) = else_arm {
                assert(block.len() == block@.len());
                let inner = inner_branch(b, at, arms@.len() as int, "else"@);
                what_a_block_adds_lies_inside(tree, t, block@, x, inner);
                let y = tree.after_block(t, block@, x, inner);
                lemma_inside_inner(x, y, b, at, arms@.len() as int, "else"@);
                walking_only_adds(tree, t, block@, x, inner);
                lemma_inside_twice(a, x, y, b.steps, at);
            }
        },
        Statement::Switch { input, cases, default } => {
            let words = summary(input);
            lemma_cases_inside(tree, t, words, cases@, at, a, b);
            let x = tree.after_cases(t, words, cases@, at, a, b);
            if let Some(block) = default {
                assert(block.len() == block@.len());
                let inner = inner_branch(b, at, cases@.len() as int, words + " (default)"@);
                what_a_block_adds_lies_inside(tree, t, block@, x, inner);
                let y = tree.after_block(t, block@, x, inner);
                lemma_inside_inner(x, y, b, at, cases@.len() as int, words + " (default)"@);
                walking_only_adds(tree, t, block@, x, inner);
                lemma_inside_twice(a, x, y, b.steps, at);
            }
        },
        Statement::ForList(block) => {
            assert(block.len() == block@.len());
            let inner = inner_branch(b, at, 0, "for loop iteration"@);
            what_a_block_adds_lies_inside(tree, t, block@, a, inner);
            lemma_inside_inner(a, tree.after_block(t, block@, a, inner), b, at, 0, "for loop iteration"@);
        },
        _ => {},
    }
}

proof fn lemma_arms_inside(
    tree: &ObjectTree,
    t: int,
    arms: Seq<(Expression, Vec<Statement>)>,
    at: int,
    a: AnalysisView,
    b: BranchView,
)
    requires
        0 <= at <= usize::MAX,
    ensures
        found_at(a, tree.after_arms(t, arms, at, a, b), b.steps, at),
    decreases arms, 0int,
{
    if arms.len() > 0 {
        lemma_arms_inside(tree, t, arms.drop_last(), at, a, b);
        let x = tree.after_arms(t, arms.drop_last(), at, a, b);
        let words = summary(arms[arms.len() - 1].0);
        let inner = inner_branch(b, at, arms.len() - 1, words);
        let block = arms[arms.len() - 1].1@;
        assert(arms[arms.len() - 1].1.len() == block.len());
        what_a_block_adds_lies_inside(tree, t, block, x, inner);
        let y = tree.after_block(t, block, x, inner);
        lemma_inside_inner(x, y, b, at, arms.len() - 1, words);
        walking_only_adds(tree, t, block, x, inner);
        lemma_inside_twice(a, x, y, b.steps, at);
    }
}

proof fn lemma_cases_inside(
    tree: &ObjectTree,
    t: int,
    input: Seq<char>,
    cases: Seq<(Vec<Case>, Vec<Statement>)>,
    at: int,
    a: AnalysisView,
    b: BranchView,
)
    requires
        0 <= at <= usize::MAX,
    ensures
        found_at(a, tree.after_cases(t, input, cases, at, a, b), b.steps, at),
    decreases cases, 0int,
{
    if cases.len() > 0 {
        lemma_cases_inside(tree, t, input, cases.drop_last(), at, a, b);
        let x = tree.after_cases(t, input, cases.drop_last(), at, a, b);
        let words = input + "="@ + cases_text(cases[cases.len() - 1].0@);
        let inner = inner_branch(b, at, cases.len() - 1, words);
        let block = cases[cases.len() - 1].1@;
        assert(cases[cases.len() - 1].1.len() == block.len());
        what_a_block_adds_lies_inside(tree, t, block, x, inner);
        let y = tree.after_block(t, block, x, inner);
        lemma_inside_inner(x, y, b, at, cases.len() - 1, words);
        walking_only_adds(tree, t, block, x, inner);
        lemma_inside_twice(a, x, y, b.steps, at);
    }
}

/// What a block adds lies inside the branch that the block belongs to: the path of every overlay
/// that it adds begins with the steps into that branch, and so does that of every assignment; and
/// an overlay depends on a condition exactly where it lies in some branch.
pub proof fn what_a_block_adds_lies_inside(tree: &ObjectTree, t: int, block: Seq<Statement>, a: AnalysisView, b: BranchView)
    ensures
        block.len() <= usize::MAX ==> found_inside(a, tree.after_block(t, block, a, b), b.steps),
    decreases block, 0int,
{
    if block.len() > 0 && block.len() <= usize::MAX {
        let at = block.len() - 1;
        what_a_block_adds_lies_inside(tree, t, block.drop_last(), a, b);
        let x = tree.after_block(t, block.drop_last(), a, b);
        let s = block[at];
        lemma_statement_inside(tree, t, s, at, x, b);
        lemma_statement_adds(tree, t, s, at, x, b);
        let y = tree.after_statement(t, s, at, x, b);
        assert forall|k: int| a.overlays.len() <= k < y.overlays.len() implies {
            let f = #[trigger] y.overlays[k];
            &&& b.steps.is_prefix_of(f.path)
            &&& f.overlay.conditional <==> f.path.len() > 0
        } by {
            if k < x.overlays.len() {
                assert(y.overlays.subrange(0, x.overlays.len() as int)[k] == y.overlays[k]);
            }
        }
        assert forall|k: int| a.branched_vars.len() <= k < y.branched_vars.len() implies b.steps.is_prefix_of(
            (#[trigger] y.branched_vars[k]).path,
        ) by {
            if k < x.branched_vars.len() {
                assert(y.branched_vars.subrange(0, x.branched_vars.len() as int)[k] == y.branched_vars[k]);
            }
        }
    }
}

// ── Exclusive branches ───────────────────────────────────────────────

/// Whether two paths part at an arm: up to a step they agree, and there they take different arms
/// of the same statement.
pub open spec fn part_at_an_arm(p: Seq<Step>, q: Seq<Step>, n: int) -> bool {
    &&& 0 <= n < p.len()
    &&& n < q.len()
    &&& p.take(n) == q.take(n)
    &&& p[n].at == q[n].at
    &&& p[n].arm != q[n].arm
}

/// No run goes through two branches that part at an arm; they are not independent, and neither
/// lies inside the other.
pub proof fn parted_branches_exclude_each_other(
    p: Seq<Step>,
    q: Seq<Step>,
    n: int,
    run: spec_fn(Seq<Step>, usize) -> Option<usize>,
)
    requires
        part_at_an_arm(p, q, n),
    ensures
        !(goes_through(run, p) && goes_through(run, q)),
        !independent(p, q),
        !independent(q, p),
        !p.is_prefix_of(q),
        !q.is_prefix_of(p),
{
    if goes_through(run, p) && goes_through(run, q) {
        assert(run(p.take(n), p[n].at) == Some(p[n].arm));
        assert(run(q.take(n), q[n].at) == Some(q[n].arm));
    }
    assert forall|i: int| 0 <= i < p.len() && i < q.len() && #[trigger] p.take(i) == q.take(i) implies p[i].at == q[i].at by {
        if i < n {
            assert(p.take(n)[i] == q.take(n)[i]);
        } else if i > n {
            assert(p.take(i)[n] == q.take(i)[n]);
        }
    }
    assert forall|i: int| 0 <= i < q.len() && i < p.len() && #[trigger] q.take(i) == p.take(i) implies q[i].at == p[i].at by {
        assert(p.take(i) == q.take(i));
    }
    if p.is_prefix_of(q) {
        assert(q.subrange(0, p.len() as int)[n] == q[n]);
    }
    if q.is_prefix_of(p) {
        assert(p.subrange(0, q.len() as int)[n] == p[n]);
    }
}

proof fn lemma_first_step(steps: Seq<Step>, step: Step, path: Seq<Step>)
    requires
        steps.push(step).is_prefix_of(path),
    ensures
        path.len() > steps.len(),
        path.take(steps.len() as int) == steps,
        path[steps.len() as int] == step,
{
    let inner = steps.push(step);
    assert(path.subrange(0, inner.len() as int)[steps.len() as int] == path[steps.len() as int]);
    assert(path.take(steps.len() as int) =~= steps) by {
        assert forall|i: int| 0 <= i < steps.len() implies path[i] == steps[i] by {
            assert(path.subrange(0, inner.len() as int)[i] == inner[i]);
        }
    }
}

proof fn lemma_cases_go_on(
    tree: &ObjectTree,
    t: int,
    input: Seq<char>,
    cases: Seq<(Vec<Case>, Vec<Statement>)>,
    at: int,
    a: AnalysisView,
    b: BranchView,
    m: int,
)
    requires
        0 <= m <= cases.len(),
    ensures
        goes_on(tree.after_cases(t, input, cases.take(m), at, a, b), tree.after_cases(t, input, cases, at, a, b)),
    decreases cases.len(),
{
    if m == cases.len() {
        assert(cases.take(m) =~= cases);
    } else {
        let i = cases.len() - 1;
        let front = cases.drop_last();
        assert(front.take(m) =~= cases.take(m));
        lemma_cases_go_on(tree, t, input, front, at, a, b, m);
        let x = tree.after_cases(t, input, front, at, a, b);
        walking_only_adds(tree, t, cases[i].1@, x, inner_branch(b, at, i, input + "="@ + cases_text(cases[i].0@)));
    }
}

proof fn lemma_case_path(
    tree: &ObjectTree,
    t: int,
    input: Seq<char>,
    cases: Seq<(Vec<Case>, Vec<Statement>)>,
    at: int,
    a: AnalysisView,
    b: BranchView,
    i: int,
    k: int,
)
    requires
        0 <= at <= usize::MAX,
        0 <= i < cases.len() <= usize::MAX,
        tree.after_cases(t, input, cases.take(i), at, a, b).overlays.len() <= k < tree.after_cases(
            t,
            input, cases.take(i + 1),
            at,
            a,
            b,
        ).overlays.len(),
    ensures
        ({
            let y = tree.after_cases(t, input, cases, at, a, b);
            let path = y.overlays[k].path;
            &&& k < y.overlays.len()
            &&& y.overlays[k].overlay.conditional
            &&& path.len() > b.steps.len()
            &&& path.take(b.steps.len() as int) == b.steps
            &&& path[b.steps.len() as int].at == at
            &&& path[b.steps.len() as int].arm == i
        }),
{
    let some = cases.take(i + 1);
    assert(some.drop_last() =~= cases.take(i));
    assert(some[i] == cases[i]);
    let x = tree.after_cases(t, input, cases.take(i), at, a, b);
    let inner = inner_branch(b, at, i, input + "="@ + cases_text(cases[i].0@));
    let z = tree.after_cases(t, input, some, at, a, b);
    assert(z == tree.after_block(t, cases[i].1@, x, inner));
    assert(cases[i].1.len() == cases[i].1@.len());
    what_a_block_adds_lies_inside(tree, t, cases[i].1@, x, inner);
    lemma_first_step(b.steps, Step { at: at as usize, arm: i as usize }, z.overlays[k].path);
    lemma_cases_go_on(tree, t, input, cases, at, a, b, i + 1);
    let y = tree.after_cases(t, input, cases, at, a, b);
    assert(y.overlays.subrange(0, z.overlays.len() as int)[k] == y.overlays[k]);
}

proof fn lemma_arms_go_on(
    tree: &ObjectTree,
    t: int,
    arms: Seq<(Expression, Vec<Statement>)>,
    at: int,
    a: AnalysisView,
    b: BranchView,
    m: int,
)
    requires
        0 <= m <= arms.len(),
    ensures
        goes_on(tree.after_arms(t, arms.take(m), at, a, b), tree.after_arms(t, arms, at, a, b)),
    decreases arms.len(),
{
    if m == arms.len() {
        assert(arms.take(m) =~= arms);
    } else {
        let i = arms.len() - 1;
        let front = arms.drop_last();
        assert(front.take(m) =~= arms.take(m));
        lemma_arms_go_on(tree, t, front, at, a, b, m);
        let x = tree.after_arms(t, front, at, a, b);
        walking_only_adds(tree, t, arms[i].1@, x, inner_branch(b, at, i, summary(arms[i].0)));
    }
}

proof fn lemma_arm_path(
    tree: &ObjectTree,
    t: int,
    arms: Seq<(Expression, Vec<Statement>)>,
    at: int,
    a: AnalysisView,
    b: BranchView,
    i: int,
    k: int,
)
    requires
        0 <= at <= usize::MAX,
        0 <= i < arms.len() <= usize::MAX,
        tree.after_arms(t, arms.take(i), at, a, b).overlays.len() <= k < tree.after_arms(
            t,
            arms.take(i + 1),
            at,
            a,
            b,
        ).overlays.len(),
    ensures
        ({
            let y = tree.after_arms(t, arms, at, a, b);
            let path = y.overlays[k].path;
            &&& k < y.overlays.len()
            &&& y.overlays[k].overlay.conditional
            &&& path.len() > b.steps.len()
            &&& path.take(b.steps.len() as int) == b.steps
            &&& path[b.steps.len() as int].at == at
            &&& path[b.steps.len() as int].arm == i
        }),
{
    let some = arms.take(i + 1);
    assert(some.drop_last() =~= arms.take(i));
    assert(some[i] == arms[i]);
    let x = tree.after_arms(t, arms.take(i), at, a, b);
    let inner = inner_branch(b, at, i, summary(arms[i].0));
    let z = tree.after_arms(t, some, at, a, b);
    assert(z == tree.after_block(t, arms[i].1@, x, inner));
    assert(arms[i].1.len() == arms[i].1@.len());
    what_a_block_adds_lies_inside(tree, t, arms[i].1@, x, inner);
    lemma_first_step(b.steps, Step { at: at as usize, arm: i as usize }, z.overlays[k].path);
    lemma_arms_go_on(tree, t, arms, at, a, b, i + 1);
    let y = tree.after_arms(t, arms, at, a, b);
    assert(y.overlays.subrange(0, z.overlays.len() as int)[k] == y.overlays[k]);
}

/// Whether an overlay is one that the given case of a `switch` adds; the default comes after the
/// cases.
pub open spec fn added_in_case(
    tree: &ObjectTree,
    t: int,
    input: Expression,
    cases: Vec<(Vec<Case>, Vec<Statement>)>,
    default: Option<Vec<Statement>>,
    at: int,
    a: AnalysisView,
    b: BranchView,
    i: int,
    k: int,
) -> bool {
    let words = summary(input);
    let from = tree.after_cases(t, words, cases@.take(i), at, a, b).overlays.len();
    let to = if i < cases@.len() {
        tree.after_cases(t, words, cases@.take(i + 1), at, a, b).overlays.len()
    } else {
        tree.after_statement(t, Statement::Switch { input, cases, default }, at, a, b).overlays.len()
    };
    0 <= i <= cases@.len() && from <= k < to
}

/// Whether an overlay is one that the given arm of an `if` adds; what comes with `else` comes
/// after the arms.
pub open spec fn added_in_arm(
    tree: &ObjectTree,
    t: int,
    arms: Vec<(Expression, Vec<Statement>)>,
    else_arm: Option<Vec<Statement>>,
    at: int,
    a: AnalysisView,
    b: BranchView,
    i: int,
    k: int,
) -> bool {
    let from = tree.after_arms(t, arms@.take(i), at, a, b).overlays.len();
    let to = if i < arms@.len() {
        tree.after_arms(t, arms@.take(i + 1), at, a, b).overlays.len()
    } else {
        tree.after_statement(t, Statement::If { arms, else_arm }, at, a, b).overlays.len()
    };
    0 <= i <= arms@.len() && from <= k < to
}

proof fn lemma_any_case_path(
    tree: &ObjectTree,
    t: int,
    input: Expression,
    cases: Vec<(Vec<Case>, Vec<Statement>)>,
    default: Option<Vec<Statement>>,
    at: int,
    a: AnalysisView,
    b: BranchView,
    i: int,
    k: int,
)
    requires
        0 <= at <= usize::MAX,
        added_in_case(tree, t, input, cases, default, at, a, b, i, k),
    ensures
        ({
            let x = tree.after_statement(t, Statement::Switch { input, cases, default }, at, a, b);
            let path = x.overlays[k].path;
            &&& k < x.overlays.len()
            &&& x.overlays[k].overlay.conditional
            &&& path.len() > b.steps.len()
            &&& path.take(b.steps.len() as int) == b.steps
            &&& path[b.steps.len() as int].at == at
            &&& path[b.steps.len() as int].arm == i
        }),
{
    let words = summary(input);
    let n = cases@.len() as int;
    assert(cases.len() == cases@.len());
    let y = tree.after_cases(t, words, cases@, at, a, b);
    let x = tree.after_statement(t, Statement::Switch { input, cases, default }, at, a, b);
    if i < n {
        lemma_case_path(tree, t, words, cases@, at, a, b, i, k);
        if let Some(block) = default {
            walking_only_adds(tree, t, block@, y, inner_branch(b, at, n, words + " (default)"@));
            assert(x.overlays.subrange(0, y.overlays.len() as int)[k] == x.overlays[k]);
        }
    } else {
        assert(cases@.take(i) =~= cases@);
        if let Some(block) = default {
            let inner = inner_branch(b, at, n, words + " (default)"@);
            assert(block.len() == block@.len());
            what_a_block_adds_lies_inside(tree, t, block@, y, inner);
            lemma_first_step(b.steps, Step { at: at as usize, arm: n as usize }, x.overlays[k].path);
        }
    }
}

/// What different cases of one `switch` add lies in different branches, and so does what its
/// default adds: the paths agree up to the step into the `switch` and part there, so that no run
/// goes through both.
pub proof fn cases_exclude_each_other(
    tree: &ObjectTree,
    t: int,
    input: Expression,
    cases: Vec<(Vec<Case>, Vec<Statement>)>,
    default: Option<Vec<Statement>>,
    at: int,
    a: AnalysisView,
    b: BranchView,
    i: int,
    j: int,
    p: int,
    q: int,
    run: spec_fn(Seq<Step>, usize) -> Option<usize>,
)
    requires
        0 <= at <= usize::MAX,
        i != j,
        added_in_case(tree, t, input, cases, default, at, a, b, i, p),
        added_in_case(tree, t, input, cases, default, at, a, b, j, q),
    ensures
        ({
            let x = tree.after_statement(t, Statement::Switch { input, cases, default }, at, a, b);
            let n = b.steps.len() as int;
            &&& p < x.overlays.len() && q < x.overlays.len()
            &&& b.steps.is_prefix_of(x.overlays[p].path) && b.steps.is_prefix_of(x.overlays[q].path)
            &&& part_at_an_arm(x.overlays[p].path, x.overlays[q].path, n)
            &&& x.overlays[p].path[n].at == at
            &&& !(goes_through(run, x.overlays[p].path) && goes_through(run, x.overlays[q].path))
        }),
{
    lemma_any_case_path(tree, t, input, cases, default, at, a, b, i, p);
    lemma_any_case_path(tree, t, input, cases, default, at, a, b, j, q);
    let x = tree.after_statement(t, Statement::Switch { input, cases, default }, at, a, b);
    let n = b.steps.len() as int;
    parted_branches_exclude_each_other(x.overlays[p].path, x.overlays[q].path, n, run);
    assert(x.overlays[p].path.subrange(0, n) =~= b.steps);
    assert(x.overlays[q].path.subrange(0, n) =~= b.steps);
}

proof fn lemma_any_arm_path(
    tree: &ObjectTree,
    t: int,
    arms: Vec<(Expression, Vec<Statement>)>,
    else_arm: Option<Vec<Statement>>,
    at: int,
    a: AnalysisView,
    b: BranchView,
    i: int,
    k: int,
)
    requires
        0 <= at <= usize::MAX,
        added_in_arm(tree, t, arms, else_arm, at, a, b, i, k),
    ensures
        ({
            let x = tree.after_statement(t, Statement::If { arms, else_arm }, at, a, b);
            let path = x.overlays[k].path;
            &&& k < x.overlays.len()
            &&& x.overlays[k].overlay.conditional
            &&& path.len() > b.steps.len()
            &&& path.take(b.steps.len() as int) == b.steps
            &&& path[b.steps.len() as int].at == at
            &&& path[b.steps.len() as int].arm == i
        }),
{
    let n = arms@.len() as int;
    assert(arms.len() == arms@.len());
    let y = tree.after_arms(t, arms@, at, a, b);
    let x = tree.after_statement(t, Statement::If { arms, else_arm }, at, a, b);
    if i < n {
        lemma_arm_path(tree, t, arms@, at, a, b, i, k);
        if let Some(block) = else_arm {
            walking_only_adds(tree, t, block@, y, inner_branch(b, at, n, "else"@));
            assert(x.overlays.subrange(0, y.overlays.len() as int)[k] == x.overlays[k]);
        }
    } else {
        assert(arms@.take(i) =~= arms@);
        if let Some(block) = else_arm {
            let inner = inner_branch(b, at, n, "else"@);
            assert(block.len() == block@.len());
            what_a_block_adds_lies_inside(tree, t, block@, y, inner);
            lemma_first_step(b.steps, Step { at: at as usize, arm: n as usize }, x.overlays[k].path);
        }
    }
}

/// What different arms of one `if` add lies in different branches, and so does what comes with
/// `else`: the paths agree up to the step into the `if` and part there, so that no run goes
/// through both.
pub proof fn arms_exclude_each_other(
    tree: &ObjectTree,
    t: int,
    arms: Vec<(Expression, Vec<Statement>)>,
    else_arm: Option<Vec<Statement>>,
    at: int,
    a: AnalysisView,
    b: BranchView,
    i: int,
    j: int,
    p: int,
    q: int,
    run: spec_fn(Seq<Step>, usize) -> Option<usize>,
)
    requires
        0 <= at <= usize::MAX,
        i != j,
        added_in_arm(tree, t, arms, else_arm, at, a, b, i, p),
        added_in_arm(tree, t, arms, else_arm, at, a, b, j, q),
    ensures
        ({
            let x = tree.after_statement(t, Statement::If { arms, else_arm }, at, a, b);
            let n = b.steps.len() as int;
            &&& p < x.overlays.len() && q < x.overlays.len()
            &&& b.steps.is_prefix_of(x.overlays[p].path) && b.steps.is_prefix_of(x.overlays[q].path)
            &&& part_at_an_arm(x.overlays[p].path, x.overlays[q].path, n)
            &&& x.overlays[p].path[n].at == at
            &&& !(goes_through(run, x.overlays[p].path) && goes_through(run, x.overlays[q].path))
        }),
{
    lemma_any_arm_path(tree, t, arms, else_arm, at, a, b, i, p);
    lemma_any_arm_path(tree, t, arms, else_arm, at, a, b, j, q);
    let x = tree.after_statement(t, Statement::If { arms, else_arm }, at, a, b);
    let n = b.steps.len() as int;
    parted_branches_exclude_each_other(x.overlays[p].path, x.overlays[q].path, n, run);
    assert(x.overlays[p].path.subrange(0, n) =~= b.steps);
    assert(x.overlays[q].path.subrange(0, n) =~= b.steps);
}

// ── Combinations ─────────────────────────────────────────────────────

/// Whether a name is that of one overlay only.
pub open spec fn named_once(found: Seq<FoundView>, p: int) -> bool {
    forall|k: int|
        0 <= k < found.len() && k != p ==> (#[trigger] found[k]).overlay.state_name != found[p].overlay.state_name
}

proof fn lemma_name_is_of(found: Seq<FoundView>, pick: spec_fn(FoundView) -> bool, name: Seq<char>) -> (k: int)
    requires
        names_where(found, pick).contains(name),
    ensures
        0 <= k < found.len(),
        pick(found[k]),
        found[k].overlay.state_name == name,
    decreases found.len(),
{
    let all = names_where(found, pick);
    let before = names_where(found.drop_last(), pick);
    let j = choose|j: int| 0 <= j < all.len() && all[j] == name;
    if j < before.len() {
        assert(before[j] == name);
        let k = lemma_name_is_of(found.drop_last(), pick, name);
        assert(found.drop_last()[k] == found[k]);
        k
    } else {
        assert(found[found.len() - 1] == found.last());
        found.len() - 1
    }
}

proof fn lemma_either<T>(a: Seq<T>, b: Seq<T>, x: T)
    requires
        (a + b).contains(x),
    ensures
        a.contains(x) || b.contains(x),
{
    let j = choose|j: int| 0 <= j < (a + b).len() && (a + b)[j] == x;
    if j < a.len() {
        assert(a[j] == x);
    } else {
        assert(b[j - a.len()] == x);
    }
}

/// No combination holds two overlays whose branches part at an arm, unless one of their names is
/// added elsewhere too.
pub proof fn no_combination_takes_two_arms(found: Seq<FoundView>, p: int, q: int, n: int, i: int)
    requires
        branches(found).len() <= usize::MAX,
        forall|k: int| 0 <= k < found.len() ==> ((#[trigger] found[k]).overlay.conditional <==> found[k].path.len() > 0),
        0 <= p < found.len(),
        0 <= q < found.len(),
        part_at_an_arm(found[p].path, found[q].path, n),
        named_once(found, p),
        named_once(found, q),
        0 <= i < combos(found).len(),
    ensures
        !(combos(found)[i].contains(found[p].overlay.state_name) && combos(found)[i].contains(found[q].overlay.state_name)),
{
    let run = every_combination_is_of_a_run(found, i);
    let base = names_where(found, steady());
    let more = names_where(found, added_by(run));
    let one = found[p].overlay.state_name;
    let other = found[q].overlay.state_name;
    if combos(found)[i].contains(one) && combos(found)[i].contains(other) {
        lemma_either(base, more, one);
        lemma_either(base, more, other);
        if base.contains(one) {
            let k = lemma_name_is_of(found, steady(), one);
            assert(k == p);
        } else {
            let k = lemma_name_is_of(found, added_by(run), one);
            assert(k == p);
        }
        if base.contains(other) {
            let k = lemma_name_is_of(found, steady(), other);
            assert(k == q);
        } else {
            let k = lemma_name_is_of(found, added_by(run), other);
            assert(k == q);
        }
        parted_branches_exclude_each_other(found[p].path, found[q].path, n, run);
    }
}

/// As long as there are fewer than 64 branches, each overlay of a branch stands in a combination
/// without any of those whose branches part from its own at an arm and whose names are added
/// nowhere else.
pub proof fn each_arm_has_a_combination_of_its_own(found: Seq<FoundView>, p: int) -> (i: int)
    requires
        branches(found).len() < 64,
        forall|k: int| 0 <= k < found.len() ==> ((#[trigger] found[k]).overlay.conditional <==> found[k].path.len() > 0),
        0 <= p < found.len(),
        found[p].path.len() > 0,
    ensures
        0 <= i < combos(found).len(),
        combos(found)[i].contains(found[p].overlay.state_name),
        forall|q: int, n: int|
            #![trigger part_at_an_arm(found[p].path, found[q].path, n)]
            0 <= q < found.len() && part_at_an_arm(found[p].path, found[q].path, n) && named_once(found, q)
                ==> !combos(found)[i].contains(found[q].overlay.state_name),
{
    let name = found[p].overlay.state_name;
    let base = names_where(found, steady());
    let groups = branches(found);
    let off = if base.len() == 0 {
        1int
    } else {
        0
    };
    lemma_branches_known(found, p);
    let g = choose|g: int| 0 <= g < groups.len() && groups[g] == found[p].path;
    lemma_singles_come_first(groups, g);
    let chosen = seq![g as usize];
    let pick = in_choice(groups, chosen);
    assert(found[p].path.subrange(0, found[p].path.len() as int) =~= found[p].path);
    assert(pick(found[p])) by {
        assert(chosen[0] == g);
        assert(found[p].path.is_prefix_of(groups[chosen[0] as int]));
    }
    lemma_picked(found, pick, p);
    let group = names_where(found, pick);
    let j = choose|j: int| 0 <= j < group.len() && group[j] == name;
    let i = g + 1 - off;
    assert(combos(found)[i] == with_choice(found)(chosen));
    assert(combos(found)[i] == base + group);
    assert((base + group)[base.len() + j] == name);
    assert forall|q: int, n: int|
        #![trigger part_at_an_arm(found[p].path, found[q].path, n)]
        0 <= q < found.len() && part_at_an_arm(found[p].path, found[q].path, n) && named_once(found, q) implies !combos(
        found,
    )[i].contains(found[q].overlay.state_name) by {
        let other = found[q].overlay.state_name;
        if combos(found)[i].contains(other) {
            lemma_either(base, group, other);
            if base.contains(other) {
                let k = lemma_name_is_of(found, steady(), other);
                assert(k == q);
            } else {
                let k = lemma_name_is_of(found, pick, other);
                assert(k == q);
                let m = choose|m: int| 0 <= m < chosen.len() && found[q].path.is_prefix_of(
                    groups[(#[trigger] chosen[m]) as int],
                );
                assert(chosen[m] == g);
                parted_branches_exclude_each_other(found[p].path, found[q].path, n, |s: Seq<Step>, x: usize| None);
            }
        }
    }
    i
}

/// What statements at different places of one block add in their branches is independent: one
/// run may go through both.
pub proof fn different_statements_are_independent(
    tree: &ObjectTree,
    t: int,
    block: Seq<Statement>,
    a: AnalysisView,
    b: BranchView,
    i: int,
    j: int,
    p: int,
    q: int,
)
    requires
        block.len() <= usize::MAX,
        0 <= i < block.len(),
        0 <= j < block.len(),
        i != j,
        tree.after_block(t, block.take(i), a, b).overlays.len() <= p < tree.after_block(t, block.take(i + 1), a, b).overlays.len(),
        tree.after_block(t, block.take(j), a, b).overlays.len() <= q < tree.after_block(t, block.take(j + 1), a, b).overlays.len(),
    ensures
        ({
            let x = tree.after_block(t, block, a, b).overlays;
            let n = b.steps.len();
            &&& p < x.len() && q < x.len()
            &&& b.steps.is_prefix_of(x[p].path) && b.steps.is_prefix_of(x[q].path)
            &&& x[p].path.len() > n && x[q].path.len() > n ==> independent(x[p].path, x[q].path) && independent(
                x[q].path,
                x[p].path,
            )
        }),
{
    lemma_place(tree, t, block, a, b, i, p);
    lemma_place(tree, t, block, a, b, j, q);
    let x = tree.after_block(t, block, a, b).overlays;
    let n = b.steps.len() as int;
    if x[p].path.len() > n && x[q].path.len() > n {
        assert(x[p].path.take(n) =~= b.steps);
        assert(x[q].path.take(n) =~= b.steps);
        assert(x[p].path.take(n) == x[q].path.take(n) && x[p].path[n].at != x[q].path[n].at);
        assert(x[q].path.take(n) == x[p].path.take(n));
    }
}

proof fn lemma_place(tree: &ObjectTree, t: int, block: Seq<Statement>, a: AnalysisView, b: BranchView, i: int, k: int)
    requires
        block.len() <= usize::MAX,
        0 <= i < block.len(),
        tree.after_block(t, block.take(i), a, b).overlays.len() <= k < tree.after_block(t, block.take(i + 1), a, b).overlays.len(),
    ensures
        ({
            let x = tree.after_block(t, block, a, b).overlays;
            &&& k < x.len()
            &&& b.steps.is_prefix_of(x[k].path)
            &&& x[k].path.len() > b.steps.len() ==> x[k].path[b.steps.len() as int].at == i
        }),
    decreases block.len(),
{
    let last = block.len() - 1;
    if i == last {
        assert(block.take(i + 1) =~= block);
        assert(block.take(i) =~= block.drop_last());
        let x = tree.after_block(t, block.drop_last(), a, b);
        lemma_statement_inside(tree, t, block[last], last, x, b);
    } else {
        let front = block.drop_last();
        assert(front.take(i) =~= block.take(i));
        assert(front.take(i + 1) =~= block.take(i + 1));
        lemma_place(tree, t, front, a, b, i, k);
        let x = tree.after_block(t, front, a, b);
        lemma_statement_adds(tree, t, block[last], last, x, b);
        let y = tree.after_block(t, block, a, b);
        assert(y.overlays.subrange(0, x.overlays.len() as int)[k] == y.overlays[k]);
    }
}

// ── Whole statements ─────────────────────────────────────────────────

proof fn lemma_branches_are_paths(found: Seq<FoundView>)
    requires
        forall|k: int| 0 <= k < found.len() ==> (#[trigger] found[k]).overlay.conditional,
        forall|i: int, j: int| 0 <= i < j < found.len() ==> (#[trigger] found[i]).path != (#[trigger] found[j]).path,
    ensures
        branches(found) == found.map_values(|f: FoundView| f.path),
    decreases found.len(),
{
    let paths = found.map_values(|f: FoundView| f.path);
    if found.len() > 0 {
        let front = found.drop_last();
        assert forall|k: int| 0 <= k < front.len() implies (#[trigger] front[k]).overlay.conditional by {
            assert(front[k] == found[k]);
        }
        assert forall|i: int, j: int| 0 <= i < j < front.len() implies (#[trigger] front[i]).path != (#[trigger] front[j]).path by {
            assert(front[i] == found[i] && front[j] == found[j]);
        }
        lemma_branches_are_paths(front);
        let before = front.map_values(|f: FoundView| f.path);
        assert(!before.contains(found.last().path)) by {
            if before.contains(found.last().path) {
                let i = choose|i: int| 0 <= i < before.len() && before[i] == found.last().path;
                assert(found[i].path == found[found.len() - 1].path);
            }
        }
        assert(found[found.len() - 1].overlay.conditional);
        assert(paths =~= before.push(found.last().path));
    } else {
        assert(paths =~= Seq::empty());
    }
}

proof fn lemma_no_extension(groups: Seq<Seq<Step>>, i: int, n: nat)
    requires
        0 <= i < groups.len() <= usize::MAX,
        n <= groups.len(),
        forall|i: int, j: int| 0 <= i < j < groups.len() ==> !independent(#[trigger] groups[i], #[trigger] groups[j]),
    ensures
        extensions(groups, seq![i as usize], n).len() == 0,
    decreases n,
{
    if n > 0 {
        lemma_no_extension(groups, i, (n - 1) as nat);
        let chosen = seq![i as usize];
        if joins(groups, chosen, n - 1) {
            assert(chosen.last() == i);
            assert(independent(groups[chosen[0] as int], groups[n - 1]));
            assert(!independent(groups[i], groups[n - 1]));
        }
    }
}

proof fn lemma_none_extended(groups: Seq<Seq<Step>>, level: Seq<Seq<usize>>)
    requires
        groups.len() <= usize::MAX,
        forall|i: int, j: int| 0 <= i < j < groups.len() ==> !independent(#[trigger] groups[i], #[trigger] groups[j]),
        forall|m: int| 0 <= m < level.len() ==> (#[trigger] level[m]).len() == 1 && level[m][0] < groups.len(),
    ensures
        extended(groups, level).len() == 0,
    decreases level.len(),
{
    if level.len() > 0 {
        let front = level.drop_last();
        assert forall|m: int| 0 <= m < front.len() implies (#[trigger] front[m]).len() == 1 && front[m][0] < groups.len() by {
            assert(front[m] == level[m]);
        }
        lemma_none_extended(groups, front);
        assert(level[level.len() - 1] == level.last());
        let i = level.last()[0] as int;
        assert(level.last() =~= seq![i as usize]);
        lemma_no_extension(groups, i, groups.len());
    }
}

proof fn lemma_only_singles(groups: Seq<Seq<Step>>, k: nat)
    requires
        groups.len() <= usize::MAX,
        forall|i: int, j: int| 0 <= i < j < groups.len() ==> !independent(#[trigger] groups[i], #[trigger] groups[j]),
        k >= 1,
    ensures
        choices_up_to(groups, k) == seq![Seq::<usize>::empty()] + Seq::new(groups.len(), |i: int| seq![i as usize]),
        k >= 2 ==> choices_of(groups, k).len() == 0,
    decreases k,
{
    let ones = Seq::new(groups.len(), |i: int| seq![i as usize]);
    let level = choices_of(groups, 0);
    assert(level.drop_last() =~= Seq::empty());
    assert(extended(groups, level.drop_last()) =~= Seq::empty());
    lemma_singles(groups, groups.len());
    assert(choices_of(groups, 1) == extended(groups, choices_of(groups, 0)));
    assert(choices_of(groups, 1) =~= extensions(groups, Seq::empty(), groups.len()));
    assert(choices_of(groups, 1) =~= ones);
    if k == 1 {
        assert(choices_up_to(groups, 1) == choices_up_to(groups, 0) + choices_of(groups, 1));
    } else {
        lemma_only_singles(groups, (k - 1) as nat);
        if k == 2 {
            assert forall|m: int| 0 <= m < ones.len() implies (#[trigger] ones[m]).len() == 1 && ones[m][0] < groups.len() by {
                assert(ones[m] == seq![m as usize]);
            }
            lemma_none_extended(groups, ones);
        } else {
            assert(choices_of(groups, (k - 1) as nat).len() == 0);
        }
        assert(choices_of(groups, k).len() == 0);
        assert(choices_up_to(groups, k) =~= choices_up_to(groups, (k - 1) as nat));
    }
}

proof fn lemma_one_name(found: Seq<FoundView>, pick: spec_fn(FoundView) -> bool, p: int)
    requires
        0 <= p < found.len(),
        forall|k: int| 0 <= k < found.len() ==> pick(#[trigger] found[k]) == (k == p),
    ensures
        names_where(found, pick) == seq![found[p].overlay.state_name],
    decreases found.len(),
{
    let front = found.drop_last();
    assert(pick(found[found.len() - 1]) == (found.len() - 1 == p));
    if p == found.len() - 1 {
        assert forall|k: int| 0 <= k < front.len() implies !pick(#[trigger] front[k]) by {
            assert(front[k] == found[k]);
        }
        lemma_none_picked(front, pick);
        assert(names_where(found, pick) =~= seq![found[p].overlay.state_name]);
    } else {
        assert forall|k: int| 0 <= k < front.len() implies pick(#[trigger] front[k]) == (k == p) by {
            assert(front[k] == found[k]);
        }
        lemma_one_name(front, pick, p);
    }
}

/// Overlays that each lie alone in a branch, with any two branches parting at an arm, never
/// appear together: there is one combination for each of them, in order.
pub proof fn exclusive_overlays_come_one_by_one(found: Seq<FoundView>, n: int)
    requires
        0 < found.len() <= 64,
        forall|k: int| 0 <= k < found.len() ==> (#[trigger] found[k]).overlay.conditional,
        forall|i: int, j: int|
            0 <= i < j < found.len() ==> part_at_an_arm((#[trigger] found[i]).path, (#[trigger] found[j]).path, n),
    ensures
        combos(found) == Seq::new(found.len(), |i: int| seq![found[i].overlay.state_name]),
{
    let never = |s: Seq<Step>, x: usize| None::<usize>;
    assert forall|i: int, j: int| 0 <= i < j < found.len() implies (#[trigger] found[i]).path != (#[trigger] found[j]).path by {
        assert(part_at_an_arm(found[i].path, found[j].path, n));
    }
    lemma_branches_are_paths(found);
    let groups = branches(found);
    assert forall|i: int, j: int| 0 <= i < j < groups.len() implies !independent(#[trigger] groups[i], #[trigger] groups[j]) by {
        assert(part_at_an_arm(found[i].path, found[j].path, n));
        parted_branches_exclude_each_other(found[i].path, found[j].path, n, never);
    }
    lemma_only_singles(groups, groups.len());
    let all = choices(groups);
    let ones = Seq::new(groups.len(), |i: int| seq![i as usize]);
    assert(all =~= seq![Seq::<usize>::empty()] + ones);
    assert(all.skip(1) =~= ones);
    lemma_none_picked(found, steady());
    let base = names_where(found, steady());
    assert(base =~= Seq::empty());
    let want = Seq::new(found.len(), |i: int| seq![found[i].overlay.state_name]);
    assert forall|i: int| 0 <= i < found.len() implies with_choice(found)(ones[i]) == #[trigger] want[i] by {
        let chosen = ones[i];
        let pick = in_choice(groups, chosen);
        assert(chosen[0] == i);
        assert forall|k: int| 0 <= k < found.len() implies pick(#[trigger] found[k]) == (k == i) by {
            assert(groups[i] == found[i].path);
            if k == i {
                assert(found[k].path.subrange(0, found[k].path.len() as int) =~= found[k].path);
                assert(found[k].path.is_prefix_of(groups[chosen[0] as int]));
            } else if pick(found[k]) {
                let m = choose|m: int| 0 <= m < chosen.len() && found[k].path.is_prefix_of(
                    groups[(#[trigger] chosen[m]) as int],
                );
                assert(chosen[m] == i);
                if k < i {
                    assert(part_at_an_arm(found[k].path, found[i].path, n));
                    parted_branches_exclude_each_other(found[k].path, found[i].path, n, never);
                } else {
                    assert(part_at_an_arm(found[i].path, found[k].path, n));
                    parted_branches_exclude_each_other(found[i].path, found[k].path, n, never);
                }
            }
        }
        lemma_one_name(found, pick, i);
        assert(base + names_where(found, pick) =~= seq![found[i].overlay.state_name]);
    }
    assert(combos(found) =~= want);
}

/// Whether a block does nothing but add a text to the overlays: `. += "text"`.
pub open spec fn only_adds(block: Seq<Statement>, text: Seq<char>) -> bool {
    &&& block.len() == 1
    &&& match block[0] {
        Statement::Expr(Expression::AssignOp { kind: AssignKind::AddAssign, lhs, rhs }) => is_dot(*lhs) && literal(*rhs) == Some(
            text,
        ),
        _ => false,
    }
}

proof fn lemma_only_adds(tree: &ObjectTree, t: int, block: Seq<Statement>, text: Seq<char>, a: AnalysisView, b: BranchView)
    requires
        only_adds(block, text),
    ensures
        ({
            let x = tree.after_block(t, block, a, b);
            let n = a.overlays.len() as int;
            &&& x.overlays.len() == n + 1
            &&& x.overlays.take(n) == a.overlays
            &&& x.overlays[n].overlay.state_name == text
            &&& x.overlays[n].overlay.icon_override is None
            &&& x.overlays[n].overlay.condition_desc == b.condition
            &&& x.overlays[n].path == b.steps
            &&& x.complete == a.complete
        }),
{
    assert(block.drop_last() =~= Seq::empty());
    assert(tree.after_block(t, block.drop_last(), a, b) == a);
    let x = tree.after_block(t, block, a, b);
    assert(x == tree.after_statement(t, block[0], 0, a, b));
    assert(x.overlays.take(a.overlays.len() as int) =~= a.overlays);
}

proof fn lemma_cases_of_texts(
    tree: &ObjectTree,
    t: int,
    input: Seq<char>,
    cases: Seq<(Vec<Case>, Vec<Statement>)>,
    at: int,
    a: AnalysisView,
    b: BranchView,
    names: Seq<Seq<char>>,
)
    requires
        0 <= at <= usize::MAX,
        cases.len() <= usize::MAX,
        names.len() >= cases.len(),
        forall|i: int| 0 <= i < cases.len() ==> only_adds((#[trigger] cases[i]).1@, names[i]),
        a.overlays.len() == 0,
    ensures
        ({
            let x = tree.after_cases(t, input, cases, at, a, b);
            &&& x.overlays.len() == cases.len()
            &&& x.complete == a.complete
            &&& forall|i: int|
                0 <= i < cases.len() ==> (#[trigger] x.overlays[i]).overlay.state_name == names[i] && x.overlays[i].overlay.conditional
                    && x.overlays[i].path.len() > b.steps.len() && x.overlays[i].path.take(b.steps.len() as int) == b.steps
                    && x.overlays[i].path[b.steps.len() as int].at == at && x.overlays[i].path[b.steps.len() as int].arm == i
        }),
    decreases cases.len(),
{
    if cases.len() > 0 {
        let i = cases.len() - 1;
        let front = cases.drop_last();
        assert forall|j: int| 0 <= j < front.len() implies only_adds((#[trigger] front[j]).1@, names[j]) by {
            assert(front[j] == cases[j]);
        }
        lemma_cases_of_texts(tree, t, input, front, at, a, b, names);
        let x = tree.after_cases(t, input, front, at, a, b);
        let inner = inner_branch(b, at, i, input + "="@ + cases_text(cases[i].0@));
        assert(only_adds(cases[i].1@, names[i]));
        lemma_only_adds(tree, t, cases[i].1@, names[i], x, inner);
        let y = tree.after_cases(t, input, cases, at, a, b);
        assert(y.overlays.take(i) == x.overlays);
        assert(inner.steps.take(b.steps.len() as int) =~= b.steps);
        assert(cases[i].1.len() == cases[i].1@.len());
        what_a_block_adds_lies_inside(tree, t, cases[i].1@, x, inner);
        assert forall|j: int| 0 <= j < cases.len() implies (#[trigger] y.overlays[j]).overlay.state_name == names[j]
            && y.overlays[j].overlay.conditional && y.overlays[j].path.len() > b.steps.len() && y.overlays[j].path.take(
            b.steps.len() as int,
        ) == b.steps && y.overlays[j].path[b.steps.len() as int].at == at && y.overlays[j].path[b.steps.len() as int].arm
            == j by {
            if j < i {
                assert(y.overlays.take(i)[j] == y.overlays[j]);
            }
        }
    }
}

proof fn lemma_arms_of_texts(
    tree: &ObjectTree,
    t: int,
    arms: Seq<(Expression, Vec<Statement>)>,
    at: int,
    a: AnalysisView,
    b: BranchView,
    names: Seq<Seq<char>>,
)
    requires
        0 <= at <= usize::MAX,
        arms.len() <= usize::MAX,
        names.len() >= arms.len(),
        forall|i: int| 0 <= i < arms.len() ==> only_adds((#[trigger] arms[i]).1@, names[i]),
        a.overlays.len() == 0,
    ensures
        ({
            let x = tree.after_arms(t, arms, at, a, b);
            &&& x.overlays.len() == arms.len()
            &&& x.complete == a.complete
            &&& forall|i: int|
                0 <= i < arms.len() ==> (#[trigger] x.overlays[i]).overlay.state_name == names[i] && x.overlays[i].overlay.conditional
                    && x.overlays[i].path.len() > b.steps.len() && x.overlays[i].path.take(b.steps.len() as int) == b.steps
                    && x.overlays[i].path[b.steps.len() as int].at == at && x.overlays[i].path[b.steps.len() as int].arm == i
        }),
    decreases arms.len(),
{
    if arms.len() > 0 {
        let i = arms.len() - 1;
        let front = arms.drop_last();
        assert forall|j: int| 0 <= j < front.len() implies only_adds((#[trigger] front[j]).1@, names[j]) by {
            assert(front[j] == arms[j]);
        }
        lemma_arms_of_texts(tree, t, front, at, a, b, names);
        let x = tree.after_arms(t, front, at, a, b);
        let inner = inner_branch(b, at, i, summary(arms[i].0));
        assert(only_adds(arms[i].1@, names[i]));
        lemma_only_adds(tree, t, arms[i].1@, names[i], x, inner);
        let y = tree.after_arms(t, arms, at, a, b);
        assert(y.overlays.take(i) == x.overlays);
        assert(inner.steps.take(b.steps.len() as int) =~= b.steps);
        assert(arms[i].1.len() == arms[i].1@.len());
        what_a_block_adds_lies_inside(tree, t, arms[i].1@, x, inner);
        assert forall|j: int| 0 <= j < arms.len() implies (#[trigger] y.overlays[j]).overlay.state_name == names[j]
            && y.overlays[j].overlay.conditional && y.overlays[j].path.len() > b.steps.len() && y.overlays[j].path.take(
            b.steps.len() as int,
        ) == b.steps && y.overlays[j].path[b.steps.len() as int].at == at && y.overlays[j].path[b.steps.len() as int].arm
            == j by {
            if j < i {
                assert(y.overlays.take(i)[j] == y.overlays[j]);
            }
        }
    }
}

/// A `switch` each of whose cases adds one text gives one combination for each case, in the order
/// of the cases: `switch(state) { if(1) . += "a"; if(2) . += "b" }` shows `a` or `b`, never both.
pub proof fn a_switch_shows_one_case_at_a_time(
    tree: &ObjectTree,
    t: int,
    input: Expression,
    cases: Vec<(Vec<Case>, Vec<Statement>)>,
    b: BranchView,
    at: int,
    a: AnalysisView,
    names: Seq<Seq<char>>,
)
    requires
        0 <= at <= usize::MAX,
        0 < cases@.len() <= 64,
        names.len() == cases@.len(),
        forall|i: int| 0 <= i < cases@.len() ==> only_adds((#[trigger] cases@[i]).1@, names[i]),
        a.overlays.len() == 0,
    ensures
        ({
            let x = tree.after_statement(t, Statement::Switch { input, cases, default: None }, at, a, b);
            &&& combos(x.overlays) == names.map_values(|name: Seq<char>| seq![name])
            &&& x.complete == a.complete
        }),
{
    lemma_cases_of_texts(tree, t, summary(input), cases@, at, a, b, names);
    let x = tree.after_statement(t, Statement::Switch { input, cases, default: None }, at, a, b);
    let n = b.steps.len() as int;
    assert forall|i: int, j: int| 0 <= i < j < x.overlays.len() implies part_at_an_arm(
        (#[trigger] x.overlays[i]).path,
        (#[trigger] x.overlays[j]).path,
        n,
    ) by {}
    exclusive_overlays_come_one_by_one(x.overlays, n);
    assert(combos(x.overlays) =~= names.map_values(|name: Seq<char>| seq![name]));
}

/// An `if` each of whose arms adds one text, `else` included, gives one combination for each arm,
/// in the order of the arms.
pub proof fn an_if_shows_one_arm_at_a_time(
    tree: &ObjectTree,
    t: int,
    arms: Vec<(Expression, Vec<Statement>)>,
    last: Vec<Statement>,
    b: BranchView,
    at: int,
    a: AnalysisView,
    names: Seq<Seq<char>>,
)
    requires
        0 <= at <= usize::MAX,
        arms@.len() < 64,
        names.len() == arms@.len() + 1,
        forall|i: int| 0 <= i < arms@.len() ==> only_adds((#[trigger] arms@[i]).1@, names[i]),
        only_adds(last@, names[arms@.len() as int]),
        a.overlays.len() == 0,
    ensures
        ({
            let x = tree.after_statement(t, Statement::If { arms, else_arm: Some(last) }, at, a, b);
            &&& combos(x.overlays) == names.map_values(|name: Seq<char>| seq![name])
            &&& x.complete == a.complete
        }),
{
    let m = arms@.len() as int;
    lemma_arms_of_texts(tree, t, arms@, at, a, b, names);
    let y = tree.after_arms(t, arms@, at, a, b);
    let inner = inner_branch(b, at, m, "else"@);
    lemma_only_adds(tree, t, last@, names[m], y, inner);
    let x = tree.after_statement(t, Statement::If { arms, else_arm: Some(last) }, at, a, b);
    assert(x == tree.after_block(t, last@, y, inner));
    what_a_block_adds_lies_inside(tree, t, last@, y, inner);
    let n = b.steps.len() as int;
    assert(inner.steps.take(n) =~= b.steps);
    assert forall|j: int| 0 <= j <= m implies (#[trigger] x.overlays[j]).overlay.state_name == names[j]
        && x.overlays[j].overlay.conditional && x.overlays[j].path.len() > n && x.overlays[j].path.take(n) == b.steps
        && x.overlays[j].path[n].at == at && x.overlays[j].path[n].arm == j by {
        if j < m {
            assert(x.overlays.take(m)[j] == x.overlays[j]);
        }
    }
    assert forall|i: int, j: int| 0 <= i < j < x.overlays.len() implies part_at_an_arm(
        (#[trigger] x.overlays[i]).path,
        (#[trigger] x.overlays[j]).path,
        n,
    ) by {}
    exclusive_overlays_come_one_by_one(x.overlays, n);
    assert(combos(x.overlays) =~= names.map_values(|name: Seq<char>| seq![name]));
}

} // verus!
