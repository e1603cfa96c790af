//! What holds of every overlay analysis.

use crate::analysis::{branches_differ, with_assignment, with_local, AnalysisView, AssignedView, BranchView, FoundView, Step};
use crate::brackets::uses_var;
use crate::names::{in_order, names_can_be_sorted, sorted_names};
use crate::objtree::ObjectTree;
use crate::overlays::{
    branches, choices, choices_of, choices_up_to, combos, extended, extensions, in_choice, independent, joins,
    lemma_choices_begin, most_referenced, names_where, state_vars, steady, tells_apart, values_given, with_choice, InfoView,
    VisualView,
};
use crate::syntax::{Case, Expression, Statement};
use vstd::prelude::*;

verus! {

// ── The walk ─────────────────────────────────────────────────────────

/// Whether one walk goes on from another: what was found stays, and what was not understood
/// stays so.
pub open spec fn goes_on(a: AnalysisView, b: AnalysisView) -> bool {
    &&& a.overlays.is_prefix_of(b.overlays)
    &&& a.local_vars.is_prefix_of(b.local_vars)
    &&& a.branched_vars.is_prefix_of(b.branched_vars)
    &&& b.complete ==> a.complete
}

proof fn lemma_goes_on_twice(a: AnalysisView, b: AnalysisView, c: AnalysisView)
    requires
        goes_on(a, b),
        goes_on(b, c),
    ensures
        goes_on(a, c),
{
}

pub(crate) proof fn lemma_statement_adds(tree: &ObjectTree, t: int, s: Statement, at: int, a: AnalysisView, b: BranchView)
    ensures
        goes_on(a, tree.after_statement(t, s, at, a, b)),
    decreases s, 0int,
{
    match s {
        Statement::If { arms, else_arm } => {
            lemma_arms_add(tree, t, arms@, at, a, b);
            let x = tree.after_arms(t, arms@, at, a, b);
            if let Some(block) = else_arm {
                walking_only_adds(
                    tree,
                    t,
                    block@,
                    x,
                    crate::analysis::inner_branch(b, at, arms@.len() as int, "else"@),
                );
            }
        },
        Statement::Switch { input, cases, default } => {
            let words = crate::syntax::summary(input);
            lemma_cases_add(tree, t, words, cases@, at, a, b);
            let x = tree.after_cases(t, words, cases@, at, a, b);
            if let Some(block) = default {
                walking_only_adds(
                    tree,
                    t,
                    block@,
                    x,
                    crate::analysis::inner_branch(b, at, cases@.len() as int, words + " (default)"@),
                );
            }
        },
        Statement::ForList(block) => {
            walking_only_adds(
                tree,
                t,
                block@,
                a,
                crate::analysis::inner_branch(b, at, 0, "for loop iteration"@),
            );
        },
        _ => {},
    }
}

proof fn lemma_arms_add(
    tree: &ObjectTree,
    t: int,
    arms: Seq<(Expression, Vec<Statement>)>,
    at: int,
    a: AnalysisView,
    b: BranchView,
)
    ensures
        goes_on(a, tree.after_arms(t, arms, at, a, b)),
    decreases arms, 0int,
{
    if arms.len() > 0 {
        lemma_arms_add(tree, t, arms.drop_last(), at, a, b);
        let x = tree.after_arms(t, arms.drop_last(), at, a, b);
        let inside = crate::analysis::inner_branch(
            b,
            at,
            arms.len() - 1,
            crate::syntax::summary(arms[arms.len() - 1].0),
        );
        walking_only_adds(tree, t, arms[arms.len() - 1].1@, x, inside);
    }
}

proof fn lemma_cases_add(
    tree: &ObjectTree,
    t: int,
    input: Seq<char>,
    cases: Seq<(Vec<Case>, Vec<Statement>)>,
    at: int,
    a: AnalysisView,
    b: BranchView,
)
    ensures
        goes_on(a, tree.after_cases(t, input, cases, at, a, b)),
    decreases cases, 0int,
{
    if cases.len() > 0 {
        lemma_cases_add(tree, t, input, cases.drop_last(), at, a, b);
        let x = tree.after_cases(t, input, cases.drop_last(), at, a, b);
        let inside = crate::analysis::inner_branch(
            b,
            at,
            cases.len() - 1,
            input + "="@ + crate::syntax::cases_text(cases[cases.len() - 1].0@),
        );
        walking_only_adds(tree, t, cases[cases.len() - 1].1@, x, inside);
    }
}

/// Walking a block only adds to what was found: no overlay and no assignment is forgotten, and an
/// addition that was not understood is never taken for understood.
pub proof fn walking_only_adds(tree: &ObjectTree, t: int, block: Seq<Statement>, a: AnalysisView, b: BranchView)
    ensures
        goes_on(a, tree.after_block(t, block, a, b)),
    decreases block, 0int,
{
    if block.len() > 0 {
        walking_only_adds(tree, t, block.drop_last(), a, b);
        let x = tree.after_block(t, block.drop_last(), a, b);
        lemma_statement_adds(tree, t, block[block.len() - 1], block.len() - 1, x, b);
        lemma_goes_on_twice(a, x, tree.after_statement(t, block[block.len() - 1], block.len() - 1, x, b));
    }
}

// ── Combinations ─────────────────────────────────────────────────────

/// There are never more than 64 combinations, and each holds the overlays that are always there,
/// before any others.
pub proof fn combinations_are_few_and_hold_the_base(found: Seq<FoundView>)
    ensures
        combos(found).len() <= 64,
        forall|i: int| 0 <= i < combos(found).len() ==> names_where(found, steady()).is_prefix_of(#[trigger] combos(found)[i]),
{
    let base = names_where(found, steady());
    let all = choices(branches(found));
    let off = if base.len() == 0 {
        1int
    } else {
        0
    };
    lemma_choices_begin(branches(found), 0, branches(found).len());
    assert(choices_up_to(branches(found), 0).len() == 1);
    assert forall|i: int| 0 <= i < combos(found).len() implies base.is_prefix_of(#[trigger] combos(found)[i]) by {
        let chosen = all[i + off];
        assert(combos(found)[i] == with_choice(found)(chosen));
        assert(base =~= combos(found)[i].subrange(0, base.len() as int));
    }
}

pub(crate) proof fn lemma_branches_known(found: Seq<FoundView>, k: int)
    requires
        0 <= k < found.len(),
        found[k].overlay.conditional,
    ensures
        branches(found).contains(found[k].path),
    decreases found.len(),
{
    let before = branches(found.drop_last());
    if k < found.len() - 1 {
        assert(found.drop_last()[k] == found[k]);
        lemma_branches_known(found.drop_last(), k);
        let i = choose|i: int| 0 <= i < before.len() && before[i] == found[k].path;
        assert(branches(found)[i] == found[k].path);
    } else if before.contains(found[k].path) {
    } else {
        assert(branches(found)[before.len() as int] == found[k].path);
    }
}

proof fn lemma_branches_differ(found: Seq<FoundView>)
    ensures
        branches(found).no_duplicates(),
    decreases found.len(),
{
    if found.len() > 0 {
        lemma_branches_differ(found.drop_last());
    }
}

pub(crate) proof fn lemma_picked(found: Seq<FoundView>, pick: spec_fn(FoundView) -> bool, k: int)
    requires
        0 <= k < found.len(),
        pick(found[k]),
    ensures
        names_where(found, pick).contains(found[k].overlay.state_name),
    decreases found.len(),
{
    let before = names_where(found.drop_last(), pick);
    if k < found.len() - 1 {
        assert(found.drop_last()[k] == found[k]);
        lemma_picked(found.drop_last(), pick, k);
        let i = choose|i: int| 0 <= i < before.len() && before[i] == found[k].overlay.state_name;
        assert(names_where(found, pick)[i] == found[k].overlay.state_name);
    } else {
        assert(names_where(found, pick)[before.len() as int] == found[k].overlay.state_name);
    }
}

proof fn lemma_picked_alike(found: Seq<FoundView>, p: spec_fn(FoundView) -> bool, q: spec_fn(FoundView) -> bool)
    requires
        forall|i: int| 0 <= i < found.len() ==> p(#[trigger] found[i]) == q(found[i]),
    ensures
        names_where(found, p) == names_where(found, q),
    decreases found.len(),
{
    if found.len() > 0 {
        assert(p(found[found.len() - 1]) == q(found[found.len() - 1]));
        assert forall|i: int| 0 <= i < found.drop_last().len() implies p(#[trigger] found.drop_last()[i]) == q(
            found.drop_last()[i],
        ) by {
            assert(found.drop_last()[i] == found[i]);
        }
        lemma_picked_alike(found.drop_last(), p, q);
    }
}

proof fn lemma_extension_known(groups: Seq<Seq<Step>>, chosen: Seq<usize>, n: int, m: nat)
    requires
        0 <= n < m,
        joins(groups, chosen, n),
    ensures
        extensions(groups, chosen, m).contains(chosen.push(n as usize)),
    decreases m,
{
    let before = extensions(groups, chosen, (m - 1) as nat);
    let now = extensions(groups, chosen, m);
    if n < m - 1 {
        lemma_extension_known(groups, chosen, n, (m - 1) as nat);
        let i = choose|i: int| 0 <= i < before.len() && before[i] == chosen.push(n as usize);
        assert(now[i] == before[i]);
    } else {
        assert(now[before.len() as int] == chosen.push(n as usize));
    }
}

proof fn lemma_extended_known(groups: Seq<Seq<Step>>, level: Seq<Seq<usize>>, chosen: Seq<usize>, n: int)
    requires
        level.contains(chosen),
        0 <= n < groups.len(),
        joins(groups, chosen, n),
    ensures
        extended(groups, level).contains(chosen.push(n as usize)),
    decreases level.len(),
{
    let i = choose|i: int| 0 <= i < level.len() && level[i] == chosen;
    let before = extended(groups, level.drop_last());
    let now = extended(groups, level);
    let more = extensions(groups, level.last(), groups.len());
    if i < level.len() - 1 {
        assert(level.drop_last()[i] == chosen);
        assert(level.drop_last().contains(chosen));
        lemma_extended_known(groups, level.drop_last(), chosen, n);
        let j = choose|j: int| 0 <= j < before.len() && before[j] == chosen.push(n as usize);
        assert(now[j] == before[j]);
    } else {
        lemma_extension_known(groups, chosen, n, groups.len());
        let j = choose|j: int| 0 <= j < more.len() && more[j] == chosen.push(n as usize);
        assert(now[before.len() + j] == more[j]);
    }
}

proof fn lemma_level_known(groups: Seq<Seq<Step>>, k: nat, m: nat, chosen: Seq<usize>)
    requires
        choices_of(groups, k).contains(chosen),
        k <= m,
    ensures
        choices_up_to(groups, m).contains(chosen),
    decreases m,
{
    let now = choices_up_to(groups, m);
    if m > 0 {
        let before = choices_up_to(groups, (m - 1) as nat);
        if k < m {
            lemma_level_known(groups, k, (m - 1) as nat, chosen);
            let i = choose|i: int| 0 <= i < before.len() && before[i] == chosen;
            assert(now[i] == chosen);
        } else {
            let level = choices_of(groups, k);
            let i = choose|i: int| 0 <= i < level.len() && level[i] == chosen;
            assert(now[before.len() + i] == chosen);
        }
    }
}

pub(crate) proof fn lemma_singles(groups: Seq<Seq<Step>>, n: nat)
    requires
        n <= groups.len(),
    ensures
        extensions(groups, Seq::empty(), n).len() == n,
        forall|i: int| 0 <= i < n ==> #[trigger] extensions(groups, Seq::empty(), n)[i] == seq![i as usize],
    decreases n,
{
    if n > 0 {
        lemma_singles(groups, (n - 1) as nat);
        assert(joins(groups, Seq::empty(), n - 1));
        assert(Seq::<usize>::empty().push((n - 1) as usize) =~= seq![(n - 1) as usize]);
    }
}

pub(crate) proof fn lemma_singles_come_first(groups: Seq<Seq<Step>>, p: int)
    requires
        0 <= p < groups.len(),
    ensures
        choices(groups).len() > p + 1,
        choices(groups)[0] == Seq::<usize>::empty(),
        choices(groups)[p + 1] == seq![p as usize],
{
    lemma_singles(groups, groups.len());
    let level = choices_of(groups, 0);
    assert(level.drop_last() =~= Seq::empty());
    assert(extended(groups, level.drop_last()) =~= Seq::empty());
    let ones = extensions(groups, Seq::empty(), groups.len());
    assert(choices_of(groups, 1) == extended(groups, choices_of(groups, 0)));
    assert(choices_of(groups, 1) =~= ones);
    let two = choices_up_to(groups, 1);
    assert(two == choices_up_to(groups, 0) + choices_of(groups, 1));
    assert(two[p + 1] == ones[p]);
    lemma_choices_begin(groups, 1, groups.len());
    assert(choices(groups).subrange(0, two.len() as int)[p + 1] == two[p + 1]);
    assert(choices(groups).subrange(0, two.len() as int)[0] == two[0]);
}

/// As long as there are fewer than 64 branches, every overlay stands in some combination.
pub proof fn every_overlay_is_combined(found: Seq<FoundView>, k: int)
    requires
        0 <= k < found.len(),
        branches(found).len() < 64,
    ensures
        exists|i: int|
            0 <= i < combos(found).len() && (#[trigger] combos(found)[i]).contains(found[k].overlay.state_name),
{
    let name = found[k].overlay.state_name;
    let base = names_where(found, steady());
    let groups = branches(found);
    let all = choices(groups);
    let off = if base.len() == 0 {
        1int
    } else {
        0
    };
    if found[k].overlay.conditional {
        lemma_branches_known(found, k);
        let p = choose|p: int| 0 <= p < groups.len() && groups[p] == found[k].path;
        lemma_singles_come_first(groups, p);
        let chosen = seq![p as usize];
        let pick = in_choice(groups, chosen);
        assert(pick(found[k])) by {
            assert(chosen[0] == p);
            assert(found[k].path.is_prefix_of(groups[chosen[0] as int]));
        }
        lemma_picked(found, pick, k);
        let group = names_where(found, pick);
        let j = choose|j: int| 0 <= j < group.len() && group[j] == name;
        let i = p + 1 - off;
        assert(combos(found)[i] == with_choice(found)(chosen));
        assert(combos(found)[i][base.len() + j] == name);
        assert(combos(found)[i].contains(name));
    } else {
        lemma_picked(found, steady(), k);
        lemma_choices_begin(groups, 0, groups.len());
        assert(choices_up_to(groups, 0).len() == 1);
        assert(all.len() >= 1);
        let j = choose|j: int| 0 <= j < base.len() && base[j] == name;
        assert(combos(found)[0] == with_choice(found)(all[0]));
        assert(combos(found)[0][j] == name);
        assert(combos(found)[0].contains(name));
    }
}

// ── Runs ─────────────────────────────────────────────────────────────

/// Whether a run goes through a branch. A run tells, of the branching statement at a place of a
/// branch, which arm it takes, if any.
pub open spec fn goes_through(run: spec_fn(Seq<Step>, usize) -> Option<usize>, path: Seq<Step>) -> bool {
    forall|i: int| 0 <= i < path.len() ==> run(path.take(i), (#[trigger] path[i]).at) == Some(path[i].arm)
}

/// Whether a run adds an overlay of a branch.
pub open spec fn added_by(run: spec_fn(Seq<Step>, usize) -> Option<usize>) -> spec_fn(FoundView) -> bool {
    |f: FoundView| f.overlay.conditional && goes_through(run, f.path)
}

/// The branches among the first `n` that a run goes through and that hold no other such branch.
spec fn innermost(groups: Seq<Seq<Step>>, run: spec_fn(Seq<Step>, usize) -> Option<usize>, n: nat) -> Seq<usize>
    decreases n,
{
    if n == 0 {
        Seq::empty()
    } else {
        let before = innermost(groups, run, (n - 1) as nat);
        if is_innermost(groups, run, n - 1) {
            before.push((n - 1) as usize)
        } else {
            before
        }
    }
}

spec fn is_innermost(groups: Seq<Seq<Step>>, run: spec_fn(Seq<Step>, usize) -> Option<usize>, g: int) -> bool {
    &&& goes_through(run, groups[g])
    &&& forall|h: int|
        0 <= h < groups.len() && h != g && goes_through(run, #[trigger] groups[h]) ==> !groups[g].is_prefix_of(groups[h])
}

proof fn lemma_part(p: Seq<Step>, q: Seq<Step>, i: int) -> (j: int)
    requires
        0 <= i <= p.len(),
        i <= q.len(),
        p.take(i) == q.take(i),
        !p.is_prefix_of(q),
        !q.is_prefix_of(p),
    ensures
        0 <= j < p.len(),
        j < q.len(),
        p.take(j) == q.take(j),
        p[j] != q[j],
    decreases p.len() - i,
{
    if i == p.len() {
        assert(p =~= q.subrange(0, p.len() as int)) by {
            assert(p.take(i) =~= p);
        }
        i
    } else if i == q.len() {
        assert(q =~= p.subrange(0, q.len() as int)) by {
            assert(q.take(i) =~= q);
        }
        i
    } else if p[i] != q[i] {
        i
    } else {
        assert(p.take(i + 1) =~= p.take(i).push(p[i]));
        assert(q.take(i + 1) =~= q.take(i).push(q[i]));
        lemma_part(p, q, i + 1)
    }
}

proof fn lemma_runs_part(run: spec_fn(Seq<Step>, usize) -> Option<usize>, p: Seq<Step>, q: Seq<Step>)
    requires
        goes_through(run, p),
        goes_through(run, q),
        !p.is_prefix_of(q),
        !q.is_prefix_of(p),
    ensures
        independent(p, q),
{
    assert(p.take(0) =~= q.take(0));
    let j = lemma_part(p, q, 0);
    assert(run(p.take(j), p[j].at) == Some(p[j].arm));
    assert(run(q.take(j), q[j].at) == Some(q[j].arm));
    assert(p[j].at != q[j].at) by {
        if p[j].at == q[j].at {
            assert(p[j].arm == q[j].arm);
            assert(p[j] == q[j]);
        }
    }
}

proof fn lemma_innermost(groups: Seq<Seq<Step>>, run: spec_fn(Seq<Step>, usize) -> Option<usize>, n: nat)
    requires
        n <= groups.len() <= usize::MAX,
        groups.no_duplicates(),
    ensures
        forall|k: int|
            0 <= k < innermost(groups, run, n).len() ==> (#[trigger] innermost(groups, run, n)[k]) < n && is_innermost(
                groups,
                run,
                innermost(groups, run, n)[k] as int,
            ),
        innermost(groups, run, n).len() <= n,
        choices_of(groups, innermost(groups, run, n).len()).contains(innermost(groups, run, n)),
        forall|g: int| 0 <= g < n && #[trigger] is_innermost(groups, run, g) ==> innermost(groups, run, n).contains(g as usize),
    decreases n,
{
    if n == 0 {
        assert(choices_of(groups, 0)[0] == innermost(groups, run, 0));
    } else {
        let before = innermost(groups, run, (n - 1) as nat);
        let now = innermost(groups, run, n);
        lemma_innermost(groups, run, (n - 1) as nat);
        let g = n - 1;
        if is_innermost(groups, run, g) {
            assert(joins(groups, before, g)) by {
                assert forall|k: int| 0 <= k < before.len() implies independent(
                    groups[(#[trigger] before[k]) as int],
                    groups[g],
                ) by {
                    let h = before[k] as int;
                    assert(is_innermost(groups, run, h));
                    assert(goes_through(run, groups[h]));
                    assert(goes_through(run, groups[g]));
                    lemma_runs_part(run, groups[h], groups[g]);
                }
                if before.len() > 0 {
                    assert(before[before.len() - 1] < n - 1);
                }
            }
            lemma_extended_known(groups, choices_of(groups, before.len()), before, g);
            assert(now[before.len() as int] == g as usize);
            assert(choices_of(groups, now.len()) == extended(groups, choices_of(groups, before.len())));
        }
        assert forall|h: int| 0 <= h < n && #[trigger] is_innermost(groups, run, h) implies now.contains(h as usize) by {
            if h < n - 1 {
                assert(before.contains(h as usize));
                let i = choose|i: int| 0 <= i < before.len() && before[i] == h as usize;
                assert(now[i] == h as usize);
            } else {
                assert(now[before.len() as int] == h as usize);
            }
        }
    }
}

spec fn length_of(groups: Seq<Seq<Step>>) -> nat
    decreases groups.len(),
{
    if groups.len() == 0 {
        0
    } else {
        length_of(groups.drop_last()) + groups.last().len()
    }
}

proof fn lemma_length_of(groups: Seq<Seq<Step>>, g: int)
    requires
        0 <= g < groups.len(),
    ensures
        groups[g].len() <= length_of(groups),
    decreases groups.len(),
{
    if g < groups.len() - 1 {
        lemma_length_of(groups.drop_last(), g);
        assert(groups.drop_last()[g] == groups[g]);
    }
}

proof fn lemma_held(groups: Seq<Seq<Step>>, run: spec_fn(Seq<Step>, usize) -> Option<usize>, g: int) -> (h: int)
    requires
        0 <= g < groups.len(),
        groups.no_duplicates(),
        goes_through(run, groups[g]),
    ensures
        0 <= h < groups.len(),
        is_innermost(groups, run, h),
        groups[g].is_prefix_of(groups[h]),
    decreases length_of(groups) - groups[g].len(),
{
    if is_innermost(groups, run, g) {
        assert(groups[g] =~= groups[g].subrange(0, groups[g].len() as int));
        g
    } else {
        let m = choose|m: int|
            0 <= m < groups.len() && m != g && goes_through(run, #[trigger] groups[m]) && groups[g].is_prefix_of(groups[m]);
        lemma_length_of(groups, m);
        assert(groups[m].len() > groups[g].len()) by {
            if groups[m].len() == groups[g].len() {
                assert(groups[m].subrange(0, groups[m].len() as int) =~= groups[m]);
            }
        }
        let h = lemma_held(groups, run, m);
        assert(groups[g] =~= groups[h].subrange(0, groups[g].len() as int)) by {
            assert forall|i: int| 0 <= i < groups[g].len() implies groups[g][i] == groups[h][i] by {
                assert(groups[m].subrange(0, groups[g].len() as int)[i] == groups[m][i]);
                assert(groups[h].subrange(0, groups[m].len() as int)[i] == groups[h][i]);
            }
        }
        h
    }
}

proof fn lemma_goes_through_around(run: spec_fn(Seq<Step>, usize) -> Option<usize>, p: Seq<Step>, q: Seq<Step>)
    requires
        goes_through(run, q),
        p.is_prefix_of(q),
    ensures
        goes_through(run, p),
{
    assert forall|i: int| 0 <= i < p.len() implies run(p.take(i), (#[trigger] p[i]).at) == Some(p[i].arm) by {
        assert(q.subrange(0, p.len() as int)[i] == q[i]);
        assert(p.take(i) =~= q.take(i));
    }
}

/// Every run is combined: whichever arms are taken, what is then added is one of the
/// combinations, as long as there are no more than 64 and anything is added at all.
pub proof fn every_run_is_combined(found: Seq<FoundView>, run: spec_fn(Seq<Step>, usize) -> Option<usize>)
    requires
        branches(found).len() <= usize::MAX,
        choices(branches(found)).len() <= 64,
    ensures
        ({
            let together = names_where(found, steady()) + names_where(found, added_by(run));
            together.len() > 0 ==> combos(found).contains(together)
        }),
{
    let base = names_where(found, steady());
    let groups = branches(found);
    let all = choices(groups);
    lemma_branches_differ(found);
    lemma_innermost(groups, run, groups.len());
    let chosen = innermost(groups, run, groups.len());
    lemma_level_known(groups, chosen.len(), groups.len(), chosen);
    let j = choose|j: int| 0 <= j < all.len() && all[j] == chosen;
    assert forall|k: int| 0 <= k < found.len() implies added_by(run)(#[trigger] found[k]) == in_choice(groups, chosen)(
        found[k],
    ) by {
        let f = found[k];
        if added_by(run)(f) {
            lemma_branches_known(found, k);
            let g = choose|g: int| 0 <= g < groups.len() && groups[g] == f.path;
            let h = lemma_held(groups, run, g);
            assert(chosen.contains(h as usize));
            let m = choose|m: int| 0 <= m < chosen.len() && chosen[m] == h as usize;
            assert(f.path.is_prefix_of(groups[chosen[m] as int]));
        }
        if in_choice(groups, chosen)(f) {
            let m = choose|m: int|
                0 <= m < chosen.len() && f.path.is_prefix_of(groups[(#[trigger] chosen[m]) as int]);
            assert(is_innermost(groups, run, chosen[m] as int));
            lemma_goes_through_around(run, f.path, groups[chosen[m] as int]);
        }
    }
    lemma_picked_alike(found, added_by(run), in_choice(groups, chosen));
    let together = base + names_where(found, added_by(run));
    if together.len() > 0 {
        let off = if base.len() == 0 {
            1int
        } else {
            0
        };
        if j == 0 && base.len() == 0 {
            lemma_choices_begin(groups, 0, groups.len());
            assert(choices_up_to(groups, 0)[0] == Seq::<usize>::empty());
            assert(all.subrange(0, 1)[0] == all[0]);
            assert(chosen.len() == 0);
            lemma_none_picked(found, in_choice(groups, chosen));
        }
        assert(combos(found)[j - off] == with_choice(found)(chosen));
        assert(combos(found)[j - off] == together);
    }
}

/// Whether branches may be chosen together: each is known, and any two are independent.
pub open spec fn together(groups: Seq<Seq<Step>>, chosen: Seq<usize>) -> bool {
    &&& forall|k: int| 0 <= k < chosen.len() ==> (#[trigger] chosen[k]) < groups.len()
    &&& forall|k: int, m: int|
        0 <= k < m < chosen.len() ==> independent(groups[(#[trigger] chosen[k]) as int], groups[(#[trigger] chosen[m]) as int])
}

proof fn lemma_extensions_together(groups: Seq<Seq<Step>>, chosen: Seq<usize>, n: nat, i: int)
    requires
        together(groups, chosen),
        n <= groups.len() <= usize::MAX,
        0 <= i < extensions(groups, chosen, n).len(),
    ensures
        together(groups, extensions(groups, chosen, n)[i]),
    decreases n,
{
    if i < extensions(groups, chosen, (n - 1) as nat).len() {
        lemma_extensions_together(groups, chosen, (n - 1) as nat, i);
    } else {
        let more = chosen.push((n - 1) as usize);
        assert forall|k: int, m: int| 0 <= k < m < more.len() implies independent(
            groups[(#[trigger] more[k]) as int],
            groups[(#[trigger] more[m]) as int],
        ) by {
            assert(more[k] == chosen[k]);
            if m < chosen.len() {
                assert(more[m] == chosen[m]);
            }
        }
    }
}

proof fn lemma_extended_together(groups: Seq<Seq<Step>>, level: Seq<Seq<usize>>, i: int)
    requires
        forall|j: int| 0 <= j < level.len() ==> together(groups, #[trigger] level[j]),
        groups.len() <= usize::MAX,
        0 <= i < extended(groups, level).len(),
    ensures
        together(groups, extended(groups, level)[i]),
    decreases level.len(),
{
    let before = extended(groups, level.drop_last());
    if i < before.len() {
        assert forall|j: int| 0 <= j < level.drop_last().len() implies together(groups, #[trigger] level.drop_last()[j]) by {
            assert(level.drop_last()[j] == level[j]);
        }
        lemma_extended_together(groups, level.drop_last(), i);
    } else {
        assert(together(groups, level[level.len() - 1]));
        lemma_extensions_together(groups, level.last(), groups.len(), i - before.len());
    }
}

proof fn lemma_level_together(groups: Seq<Seq<Step>>, k: nat, i: int)
    requires
        groups.len() <= usize::MAX,
        0 <= i < choices_of(groups, k).len(),
    ensures
        together(groups, choices_of(groups, k)[i]),
    decreases k,
{
    if k > 0 {
        let level = choices_of(groups, (k - 1) as nat);
        assert forall|j: int| 0 <= j < level.len() implies together(groups, #[trigger] level[j]) by {
            lemma_level_together(groups, (k - 1) as nat, j);
        }
        lemma_extended_together(groups, level, i);
    }
}

proof fn lemma_choices_together(groups: Seq<Seq<Step>>, k: nat, i: int)
    requires
        groups.len() <= usize::MAX,
        0 <= i < choices_up_to(groups, k).len(),
    ensures
        together(groups, choices_up_to(groups, k)[i]),
    decreases k,
{
    if k == 0 {
        lemma_level_together(groups, 0, i);
    } else {
        let before = choices_up_to(groups, (k - 1) as nat);
        if i < before.len() {
            lemma_choices_together(groups, (k - 1) as nat, i);
        } else {
            lemma_level_together(groups, k, i - before.len());
        }
    }
}

/// Whether a chosen branch takes a step at a place of a branch.
spec fn steps_there(groups: Seq<Seq<Step>>, chosen: Seq<usize>, around: Seq<Step>, at: usize, arm: usize) -> bool {
    exists|k: int|
        #![trigger chosen[k]]
        0 <= k < chosen.len() && around.push(Step { at, arm }).is_prefix_of(groups[chosen[k] as int])
}

/// The run that goes through chosen branches and through nothing else.
spec fn run_of(groups: Seq<Seq<Step>>, chosen: Seq<usize>) -> spec_fn(Seq<Step>, usize) -> Option<usize> {
    |around: Seq<Step>, at: usize|
        if exists|arm: usize| steps_there(groups, chosen, around, at, arm) {
            Some(choose|arm: usize| steps_there(groups, chosen, around, at, arm))
        } else {
            None
        }
}

proof fn lemma_one_arm(groups: Seq<Seq<Step>>, chosen: Seq<usize>, around: Seq<Step>, at: usize, a: usize, b: usize)
    requires
        together(groups, chosen),
        steps_there(groups, chosen, around, at, a),
        steps_there(groups, chosen, around, at, b),
    ensures
        a == b,
{
    let x = around.push(Step { at, arm: a });
    let y = around.push(Step { at, arm: b });
    let k = choose|k: int| #![trigger chosen[k]] 0 <= k < chosen.len() && x.is_prefix_of(groups[chosen[k] as int]);
    let m = choose|m: int| #![trigger chosen[m]] 0 <= m < chosen.len() && y.is_prefix_of(groups[chosen[m] as int]);
    let p = groups[chosen[k] as int];
    let q = groups[chosen[m] as int];
    let n = around.len() as int;
    assert(p.subrange(0, x.len() as int)[n] == p[n]);
    assert(q.subrange(0, y.len() as int)[n] == q[n]);
    assert forall|i: int| 0 <= i < n implies p[i] == q[i] by {
        assert(p.subrange(0, x.len() as int)[i] == p[i]);
        assert(q.subrange(0, y.len() as int)[i] == q[i]);
    }
    if k != m {
        assert(independent(p, q) || independent(q, p)) by {
            if k < m {
                assert(independent(groups[chosen[k] as int], groups[chosen[m] as int]));
            } else {
                assert(independent(groups[chosen[m] as int], groups[chosen[k] as int]));
            }
        }
        if independent(p, q) {
            let j = choose|j: int| 0 <= j < p.len() && j < q.len() && #[trigger] p.take(j) == q.take(j) && p[j].at != q[j].at;
            if j > n {
                assert(p.take(j)[n] == q.take(j)[n]);
            }
        } else {
            let j = choose|j: int| 0 <= j < q.len() && j < p.len() && #[trigger] q.take(j) == p.take(j) && q[j].at != p[j].at;
            if j > n {
                assert(p.take(j)[n] == q.take(j)[n]);
            }
        }
    }
}

proof fn lemma_run_of(groups: Seq<Seq<Step>>, chosen: Seq<usize>, p: Seq<Step>)
    requires
        together(groups, chosen),
        p.len() > 0,
    ensures
        goes_through(run_of(groups, chosen), p) <==> exists|k: int|
            0 <= k < chosen.len() && p.is_prefix_of(groups[(#[trigger] chosen[k]) as int]),
{
    let run = run_of(groups, chosen);
    if goes_through(run, p) {
        let n = p.len() - 1;
        assert(run(p.take(n), p[n].at) == Some(p[n].arm));
        assert(steps_there(groups, chosen, p.take(n), p[n].at, p[n].arm));
        assert(p.take(n).push(Step { at: p[n].at, arm: p[n].arm }) =~= p);
    }
    if exists|k: int| 0 <= k < chosen.len() && p.is_prefix_of(groups[(#[trigger] chosen[k]) as int]) {
        let k = choose|k: int| 0 <= k < chosen.len() && p.is_prefix_of(groups[(#[trigger] chosen[k]) as int]);
        let q = groups[chosen[k] as int];
        assert forall|i: int| 0 <= i < p.len() implies run(p.take(i), (#[trigger] p[i]).at) == Some(p[i].arm) by {
            let x = p.take(i).push(Step { at: p[i].at, arm: p[i].arm });
            assert(x =~= q.subrange(0, x.len() as int)) by {
                assert forall|j: int| 0 <= j < x.len() implies x[j] == q[j] by {
                    assert(q.subrange(0, p.len() as int)[j] == q[j]);
                    if j < i {
                        assert(x[j] == p[j]);
                    }
                }
            }
            assert(x.is_prefix_of(groups[chosen[k] as int]));
            assert(steps_there(groups, chosen, p.take(i), p[i].at, p[i].arm));
            let arm = choose|arm: usize| steps_there(groups, chosen, p.take(i), p[i].at, arm);
            lemma_one_arm(groups, chosen, p.take(i), p[i].at, p[i].arm, arm);
        }
    }
}

/// Every combination is of a run: it holds what is always added and what some run adds.
pub proof fn every_combination_is_of_a_run(found: Seq<FoundView>, i: int) -> (run: spec_fn(Seq<Step>, usize) -> Option<usize>)
    requires
        branches(found).len() <= usize::MAX,
        forall|k: int| 0 <= k < found.len() ==> ((#[trigger] found[k]).overlay.conditional ==> found[k].path.len() > 0),
        0 <= i < combos(found).len(),
    ensures
        combos(found)[i] == names_where(found, steady()) + names_where(found, added_by(run)),
{
    let base = names_where(found, steady());
    let groups = branches(found);
    let all = choices(groups);
    lemma_choices_begin(groups, 0, groups.len());
    assert(choices_up_to(groups, 0).len() == 1);
    let off = if base.len() == 0 {
        1int
    } else {
        0
    };
    let chosen = all[i + off];
    lemma_choices_together(groups, groups.len(), i + off);
    let run = run_of(groups, chosen);
    assert forall|k: int| 0 <= k < found.len() implies in_choice(groups, chosen)(#[trigger] found[k]) == added_by(run)(
        found[k],
    ) by {
        if found[k].overlay.conditional {
            lemma_run_of(groups, chosen, found[k].path);
        }
    }
    lemma_picked_alike(found, in_choice(groups, chosen), added_by(run));
    assert(combos(found)[i] == with_choice(found)(chosen));
    run
}

/// Inside a branch, and inside what it holds, a variable that was last given a value there stands
/// for that value, whatever it is given elsewhere; and where it is declared anew after that, for
/// the value that it is declared with.
pub proof fn a_branch_sees_its_own_value(
    tree: &ObjectTree,
    t: int,
    a: AnalysisView,
    b: BranchView,
    inside: BranchView,
    name: Seq<char>,
    value: Seq<char>,
    declared: Seq<char>,
)
    requires
        b.steps.len() > 0,
        b.steps.is_prefix_of(inside.steps),
    ensures
        ({
            let given = with_assignment(a, b, name, value);
            &&& tree.value_in(t, given, inside, name) == Some(value)
            &&& tree.value_in(t, with_local(given, name, declared), inside, name) == Some(declared)
        }),
{
}

pub(crate) proof fn lemma_none_picked(found: Seq<FoundView>, pick: spec_fn(FoundView) -> bool)
    requires
        forall|i: int| 0 <= i < found.len() ==> !pick(#[trigger] found[i]),
    ensures
        names_where(found, pick).len() == 0,
    decreases found.len(),
{
    if found.len() > 0 {
        assert(!pick(found[found.len() - 1]));
        assert forall|i: int| 0 <= i < found.drop_last().len() implies !pick(#[trigger] found.drop_last()[i]) by {
            assert(found.drop_last()[i] == found[i]);
        }
        lemma_none_picked(found.drop_last(), pick);
    }
}

// ── Looks ────────────────────────────────────────────────────────────

pub(crate) proof fn lemma_values_finite(log: Seq<AssignedView>, var: Seq<char>)
    ensures
        values_given(log, var).finite(),
    decreases log.len(),
{
    let s = values_given(log, var);
    if log.len() == 0 {
        assert(s =~= Set::empty());
    } else {
        lemma_values_finite(log.drop_last(), var);
        let before = values_given(log.drop_last(), var);
        if log.last().name == var {
            assert(s =~= before.insert(log.last().value));
        } else {
            assert(s =~= before);
        }
    }
}

proof fn lemma_value_given(log: Seq<AssignedView>, var: Seq<char>, k: int)
    requires
        0 <= k < log.len(),
        log[k].name == var,
    ensures
        values_given(log, var).contains(log[k].value),
    decreases log.len(),
{
    if k < log.len() - 1 {
        assert(log.drop_last()[k] == log[k]);
        lemma_value_given(log.drop_last(), var, k);
    }
}

proof fn lemma_most_referenced_is_one(a: AnalysisView, vars: Seq<Seq<char>>)
    requires
        vars.len() > 0,
    ensures
        vars.contains(most_referenced(a, vars)),
    decreases vars.len(),
{
    if vars.len() == 1 {
        assert(vars[0] == most_referenced(a, vars));
    } else {
        lemma_most_referenced_is_one(a, vars.drop_last());
        let best = most_referenced(a, vars.drop_last());
        let i = choose|i: int| 0 <= i < vars.drop_last().len() && vars.drop_last()[i] == best;
        assert(vars[i] == best);
        assert(vars[vars.len() - 1] == vars.last());
    }
}

/// Looks come in the order of their names, no two of the same name, and where there are any
/// there are at least two.
pub proof fn looks_come_in_order(tree: &ObjectTree, t: int, a: AnalysisView)
    ensures
        in_order(tree.looks(t, a).map_values(|v: VisualView| v.name)),
        tree.looks(t, a).len() > 0 ==> tree.looks(t, a).len() >= 2,
{
    let vars = state_vars(a);
    let names = tree.looks(t, a).map_values(|v: VisualView| v.name);
    if vars.len() > 0 {
        let var = most_referenced(a, vars);
        let log = a.branched_vars;
        let values = values_given(log, var);
        lemma_values_finite(log, var);
        names_can_be_sorted(values);
        assert(names =~= sorted_names(values));
        lemma_most_referenced_is_one(a, vars);
        assert(branches_differ(log, var)) by {
            let i = choose|i: int| 0 <= i < vars.len() && vars[i] == var;
            crate::overlays::assigned_names(log).lemma_filter_pred(tells_apart(a), i);
        }
        let (i, j) = choose|i: int, j: int|
            0 <= i < log.len() && 0 <= j < log.len() && (#[trigger] log[i]).name == var && (#[trigger] log[j]).name == var
                && log[i].value != log[j].value;
        lemma_value_given(log, var, i);
        lemma_value_given(log, var, j);
        let sorted = sorted_names(values);
        assert(sorted.to_set().contains(log[i].value));
        assert(sorted.to_set().contains(log[j].value));
        let p = choose|p: int| 0 <= p < sorted.len() && sorted[p] == log[i].value;
        let q = choose|q: int| 0 <= q < sorted.len() && sorted[q] == log[j].value;
        assert(p != q);
    }
}

/// An overlay is resolved for a look exactly when it depends on the variable that tells looks
/// apart.
pub proof fn only_dependent_overlays_are_resolved(
    tree: &ObjectTree,
    t: int,
    pattern: Seq<char>,
    var: Seq<char>,
    value: Seq<char>,
)
    ensures
        tree.pattern_for(t, pattern, var, value) is Some <==> uses_var(pattern, var),
{
}

// ── Inheritance ──────────────────────────────────────────────────────

/// What a type takes over has as many overlays, combinations and looks as what it is taken from,
/// and a name without placeholders stays as it is.
pub proof fn inheriting_keeps_the_shape(tree: &ObjectTree, t: int, parent: InfoView)
    ensures
        tree.taken_over(t, parent).overlays.len() == parent.overlays.len(),
        tree.taken_over(t, parent).combos.len() == parent.combos.len(),
        tree.taken_over(t, parent).visual_states.len() == parent.visual_states.len(),
        forall|i: int|
            0 <= i < parent.overlays.len() && !(#[trigger] parent.overlays[i]).state_name.contains('[')
                ==> tree.taken_over(t, parent).overlays[i] == parent.overlays[i],
{
    assert forall|i: int|
        0 <= i < parent.overlays.len() && !(#[trigger] parent.overlays[i]).state_name.contains('[') implies tree.taken_over(
        t,
        parent,
    ).overlays[i] == parent.overlays[i] by {
        assert(tree.own_overlay(t)(parent.overlays[i]) == parent.overlays[i]);
    }
}

} // verus!
