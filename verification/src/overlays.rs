//! The overlays that a type's sprite may carry: which can appear together, and which visual
//! states an object can be in.

use crate::analysis::{
    assigned_views, branches_differ, copy_steps, differs, found_views, leads_to, nothing_found, overlay_views,
    placeholder, write_placeholder, AnalysisContext, AnalysisView, Assigned, AssignedView, Branch, BranchView, Found,
    FoundView, OverlaySpec, OverlayView, Step,
};
use crate::brackets::{depends_on, uses_var};
use crate::names::{sorted_names, NameTable};
use crate::objtree::{find_code, own_code, ObjectTree};
use crate::prefab::{copy_opt, copy_texts, opt_text};
use crate::text::{contains_text, has_char, has_text, same_text, texts};
use crate::tools::at_most;
use vstd::prelude::*;

verus! {

/// One of the looks that an object can have at run time.
pub struct VisualState {
    /// The name, such as `closed` or `open`.
    pub name: String,
    /// The state of the base sprite, where it is not the type's own.
    pub base_icon_state: Option<String>,
    /// The states to overlay.
    pub overlays: Vec<String>,
    /// The condition that leads to this look, in words.
    pub condition_desc: Option<String>,
}

/// What a [`VisualState`] holds.
#[verifier::ext_equal]
pub struct VisualView {
    pub name: Seq<char>,
    pub base_icon_state: Option<Seq<char>>,
    pub overlays: Seq<Seq<char>>,
    pub condition_desc: Option<Seq<char>>,
}

impl View for VisualState {
    type V = VisualView;

    open spec fn view(&self) -> VisualView {
        VisualView {
            name: self.name@,
            base_icon_state: opt_text(self.base_icon_state),
            overlays: texts(self.overlays@),
            condition_desc: opt_text(self.condition_desc),
        }
    }
}

/// The views of a list of visual states.
pub open spec fn visual_views(v: Seq<VisualState>) -> Seq<VisualView> {
    v.map_values(|s: VisualState| s@)
}

/// The views of a list of lists of texts.
pub open spec fn text_lists(v: Seq<Vec<String>>) -> Seq<Seq<Seq<char>>> {
    v.map_values(|l: Vec<String>| texts(l@))
}

/// What is known of the overlays of a type.
pub struct OverlayInfo {
    pub type_path: String,
    /// The overlays, one by one.
    pub overlays: Vec<OverlaySpec>,
    /// The overlays that can appear together.
    pub combos: Vec<Vec<String>>,
    /// The looks of the object; where there are any, they are used in place of the combos.
    pub visual_states: Vec<VisualState>,
    /// Whether every addition was understood.
    pub complete: bool,
    /// Whether this comes from a type that the type inherits from.
    pub inherited: bool,
}

/// What an [`OverlayInfo`] holds.
#[verifier::ext_equal]
pub struct InfoView {
    pub type_path: Seq<char>,
    pub overlays: Seq<OverlayView>,
    pub combos: Seq<Seq<Seq<char>>>,
    pub visual_states: Seq<VisualView>,
    pub complete: bool,
    pub inherited: bool,
}

impl View for OverlayInfo {
    type V = InfoView;

    open spec fn view(&self) -> InfoView {
        InfoView {
            type_path: self.type_path@,
            overlays: overlay_views(self.overlays@),
            combos: text_lists(self.combos@),
            visual_states: visual_views(self.visual_states@),
            complete: self.complete,
            inherited: self.inherited,
        }
    }
}

// ── Combinations ─────────────────────────────────────────────────────

/// The names of the overlays of a list that meet a condition.
pub open spec fn names_where(found: Seq<FoundView>, pick: spec_fn(FoundView) -> bool) -> Seq<Seq<char>>
    decreases found.len(),
{
    if found.len() == 0 {
        Seq::empty()
    } else {
        let before = names_where(found.drop_last(), pick);
        if pick(found.last()) {
            before.push(found.last().overlay.state_name)
        } else {
            before
        }
    }
}

/// Whether an overlay is added whatever the branch.
pub open spec fn steady() -> spec_fn(FoundView) -> bool {
    |f: FoundView| !f.overlay.conditional
}

/// The branches in which overlays are added, each once, in the order of the first overlay.
pub open spec fn branches(found: Seq<FoundView>) -> Seq<Seq<Step>>
    decreases found.len(),
{
    if found.len() == 0 {
        Seq::empty()
    } else {
        let before = branches(found.drop_last());
        if found.last().overlay.conditional && !before.contains(found.last().path) {
            before.push(found.last().path)
        } else {
            before
        }
    }
}

/// Whether two branches part at different statements, so that one run may go through both.
pub open spec fn independent(p: Seq<Step>, q: Seq<Step>) -> bool {
    exists|i: int| 0 <= i < p.len() && i < q.len() && #[trigger] p.take(i) == q.take(i) && p[i].at != q[i].at
}

/// Whether a branch can be added to a choice of branches: it comes after them in the list, and a
/// run may go through all of them.
pub open spec fn joins(groups: Seq<Seq<Step>>, chosen: Seq<usize>, n: int) -> bool {
    &&& chosen.len() > 0 ==> chosen.last() < n
    &&& forall|k: int| 0 <= k < chosen.len() ==> independent(groups[(#[trigger] chosen[k]) as int], groups[n])
}

/// A choice with one more of the first `n` branches.
pub open spec fn extensions(groups: Seq<Seq<Step>>, chosen: Seq<usize>, n: nat) -> Seq<Seq<usize>>
    decreases n,
{
    if n == 0 {
        Seq::empty()
    } else {
        let before = extensions(groups, chosen, (n - 1) as nat);
        if joins(groups, chosen, n - 1) {
            before.push(chosen.push((n - 1) as usize))
        } else {
            before
        }
    }
}

/// Choices with one more branch.
pub open spec fn extended(groups: Seq<Seq<Step>>, level: Seq<Seq<usize>>) -> Seq<Seq<usize>>
    decreases level.len(),
{
    if level.len() == 0 {
        Seq::empty()
    } else {
        extended(groups, level.drop_last()) + extensions(groups, level.last(), groups.len())
    }
}

/// The choices of `k` branches that one run may go through.
pub open spec fn choices_of(groups: Seq<Seq<Step>>, k: nat) -> Seq<Seq<usize>>
    decreases k,
{
    if k == 0 {
        seq![Seq::empty()]
    } else {
        extended(groups, choices_of(groups, (k - 1) as nat))
    }
}

/// The choices of up to `k` branches, the smaller ones first.
pub open spec fn choices_up_to(groups: Seq<Seq<Step>>, k: nat) -> Seq<Seq<usize>>
    decreases k,
{
    if k == 0 {
        choices_of(groups, 0)
    } else {
        choices_up_to(groups, (k - 1) as nat) + choices_of(groups, k)
    }
}

/// All choices of branches that one run may go through, the smaller ones first.
pub open spec fn choices(groups: Seq<Seq<Step>>) -> Seq<Seq<usize>> {
    choices_up_to(groups, groups.len())
}

/// Whether an overlay is added in a chosen branch, or in one around it.
pub open spec fn in_choice(groups: Seq<Seq<Step>>, chosen: Seq<usize>) -> spec_fn(FoundView) -> bool {
    |f: FoundView|
        f.overlay.conditional && exists|k: int|
            0 <= k < chosen.len() && f.path.is_prefix_of(groups[(#[trigger] chosen[k]) as int])
}

/// The overlays that come with a choice of branches.
pub open spec fn with_choice(found: Seq<FoundView>) -> spec_fn(Seq<usize>) -> Seq<Seq<char>> {
    |chosen: Seq<usize>| names_where(found, steady()) + names_where(found, in_choice(branches(found), chosen))
}

/// The overlays that can appear together: those that always do, with those of each choice of
/// branches that one run may go through; no more than 64 combinations, and none that is empty.
pub open spec fn combos(found: Seq<FoundView>) -> Seq<Seq<Seq<char>>> {
    let all = choices(branches(found));
    at_most(
        (if names_where(found, steady()).len() == 0 {
            all.skip(1)
        } else {
            all
        }).map_values(with_choice(found)),
        64,
    )
}

fn steady_names(found: &Vec<Found>) -> (r: Vec<String>)
    ensures
        texts(r@) == names_where(found_views(found@), steady()),
{
    let ghost all = found_views(found@);
    let mut out: Vec<String> = Vec::new();
    let mut i: usize = 0;
    assert(texts(out@) =~= names_where(all.take(0), steady()));
    while i < found.len()
        invariant
            i <= found@.len(),
            all == found_views(found@),
            texts(out@) == names_where(all.take(i as int), steady()),
        decreases found@.len() - i,
    {
        assert(all.take(i + 1).drop_last() =~= all.take(i as int));
        assert(all.take(i + 1).last() == found@[i as int]@);
        let ghost before = texts(out@);
        if !found[i].overlay.conditional {
            out.push(found[i].overlay.state_name.clone());
            assert(texts(out@) =~= before.push(found@[i as int].overlay.state_name@));
        }
        i = i + 1;
    }
    assert(all.take(i as int) =~= all);
    out
}

/// The views of a list of branches.
pub open spec fn path_views(v: Seq<Vec<Step>>) -> Seq<Seq<Step>> {
    v.map_values(|p: Vec<Step>| p@)
}

/// The views of a list of choices.
pub open spec fn choice_views(v: Seq<Vec<usize>>) -> Seq<Seq<usize>> {
    v.map_values(|c: Vec<usize>| c@)
}

fn is_chosen(groups: &Vec<Vec<Step>>, chosen: &Vec<usize>, path: &Vec<Step>) -> (r: bool)
    requires
        forall|k: int| 0 <= k < chosen@.len() ==> (#[trigger] chosen@[k]) < groups@.len(),
    ensures
        r == exists|k: int|
            0 <= k < chosen@.len() && path@.is_prefix_of(path_views(groups@)[(#[trigger] chosen@[k]) as int]),
{
    let mut i: usize = 0;
    while i < chosen.len()
        invariant
            i <= chosen@.len(),
            forall|k: int| 0 <= k < chosen@.len() ==> (#[trigger] chosen@[k]) < groups@.len(),
            forall|k: int|
                0 <= k < i ==> !path@.is_prefix_of(path_views(groups@)[(#[trigger] chosen@[k]) as int]),
        decreases chosen@.len() - i,
    {
        assert(path_views(groups@)[chosen@[i as int] as int] == groups@[chosen@[i as int] as int]@);
        if leads_to(path, &groups[chosen[i]]) {
            return true;
        }
        i = i + 1;
    }
    false
}

fn choice_names(found: &Vec<Found>, groups: &Vec<Vec<Step>>, chosen: &Vec<usize>) -> (r: Vec<String>)
    requires
        forall|k: int| 0 <= k < chosen@.len() ==> (#[trigger] chosen@[k]) < groups@.len(),
    ensures
        texts(r@) == names_where(found_views(found@), in_choice(path_views(groups@), chosen@)),
{
    let ghost all = found_views(found@);
    let ghost pick = in_choice(path_views(groups@), chosen@);
    let mut out: Vec<String> = Vec::new();
    let mut i: usize = 0;
    assert(texts(out@) =~= names_where(all.take(0), pick));
    while i < found.len()
        invariant
            i <= found@.len(),
            all == found_views(found@),
            pick == in_choice(path_views(groups@), chosen@),
            forall|k: int| 0 <= k < chosen@.len() ==> (#[trigger] chosen@[k]) < groups@.len(),
            texts(out@) == names_where(all.take(i as int), pick),
        decreases found@.len() - i,
    {
        assert(all.take(i + 1).drop_last() =~= all.take(i as int));
        assert(all.take(i + 1).last() == found@[i as int]@);
        let ghost before = texts(out@);
        if found[i].overlay.conditional && is_chosen(groups, chosen, &found[i].path) {
            out.push(found[i].overlay.state_name.clone());
            assert(texts(out@) =~= before.push(found@[i as int].overlay.state_name@));
        }
        i = i + 1;
    }
    assert(all.take(i as int) =~= all);
    out
}

/// Tests whether a text stands in a list.
pub fn lists(v: &Vec<String>, s: &str) -> (r: bool)
    ensures
        r == texts(v@).contains(s@),
{
    let mut i: usize = 0;
    while i < v.len()
        invariant
            i <= v@.len(),
            forall|k: int| 0 <= k < i ==> texts(v@)[k] != s@,
        decreases v@.len() - i,
    {
        if same_text(v[i].as_str(), s) {
            assert(texts(v@)[i as int] == s@);
            return true;
        }
        assert(texts(v@)[i as int] == v@[i as int]@);
        i = i + 1;
    }
    false
}

fn same_steps(a: &Vec<Step>, b: &Vec<Step>) -> (r: bool)
    ensures
        r == (a@ == b@),
{
    if a.len() != b.len() {
        return false;
    }
    let r = leads_to(a, b);
    assert(b@.subrange(0, b@.len() as int) =~= b@);
    r
}

fn list_branches(found: &Vec<Found>) -> (r: Vec<Vec<Step>>)
    ensures
        path_views(r@) == branches(found_views(found@)),
{
    let ghost all = found_views(found@);
    let mut out: Vec<Vec<Step>> = Vec::new();
    let mut i: usize = 0;
    assert(path_views(out@) =~= branches(all.take(0)));
    while i < found.len()
        invariant
            i <= found@.len(),
            all == found_views(found@),
            path_views(out@) == branches(all.take(i as int)),
        decreases found@.len() - i,
    {
        assert(all.take(i + 1).drop_last() =~= all.take(i as int));
        assert(all.take(i + 1).last() == found@[i as int]@);
        let ghost before = path_views(out@);
        let mut known = false;
        let mut j: usize = 0;
        while j < out.len() && !known
            invariant
                i < found@.len(),
                j <= out@.len(),
                before == path_views(out@),
                known ==> before.contains(found@[i as int].path@),
                !known ==> forall|k: int| 0 <= k < j ==> before[k] != found@[i as int].path@,
            decreases out@.len() - j + (if known { 0int } else { 1int }),
        {
            assert(before[j as int] == out@[j as int]@);
            if same_steps(&out[j], &found[i].path) {
                known = true;
            } else {
                j = j + 1;
            }
        }
        assert(known == before.contains(found@[i as int].path@));
        if found[i].overlay.conditional && !known {
            out.push(copy_steps(&found[i].path));
            assert(path_views(out@) =~= before.push(found@[i as int].path@));
        }
        i = i + 1;
    }
    assert(all.take(i as int) =~= all);
    out
}

fn are_independent(p: &Vec<Step>, q: &Vec<Step>) -> (r: bool)
    ensures
        r == independent(p@, q@),
{
    let mut i: usize = 0;
    while i < p.len() && i < q.len() && p[i].at == q[i].at && p[i].arm == q[i].arm
        invariant
            i <= p@.len(),
            i <= q@.len(),
            forall|k: int| 0 <= k < i ==> p@[k] == q@[k],
        decreases p@.len() - i,
    {
        i = i + 1;
    }
    proof {
        assert(p@.take(i as int) =~= q@.take(i as int));
        if independent(p@, q@) {
            let j = choose|j: int|
                0 <= j < p@.len() && j < q@.len() && #[trigger] p@.take(j) == q@.take(j) && p@[j].at != q@[j].at;
            if j > i {
                assert(p@.take(j)[i as int] == q@.take(j)[i as int]);
            }
        }
    }
    i < p.len() && i < q.len() && p[i].at != q[i].at
}

fn can_join(groups: &Vec<Vec<Step>>, chosen: &Vec<usize>, n: usize) -> (r: bool)
    requires
        n < groups@.len(),
        forall|k: int| 0 <= k < chosen@.len() ==> (#[trigger] chosen@[k]) < groups@.len(),
    ensures
        r == joins(path_views(groups@), chosen@, n as int),
{
    if chosen.len() > 0 && chosen[chosen.len() - 1] >= n {
        return false;
    }
    let ghost gv = path_views(groups@);
    let mut i: usize = 0;
    while i < chosen.len()
        invariant
            i <= chosen@.len(),
            n < groups@.len(),
            gv == path_views(groups@),
            forall|k: int| 0 <= k < chosen@.len() ==> (#[trigger] chosen@[k]) < groups@.len(),
            forall|k: int| 0 <= k < i ==> independent(gv[(#[trigger] chosen@[k]) as int], gv[n as int]),
        decreases chosen@.len() - i,
    {
        assert(gv[chosen@[i as int] as int] == groups@[chosen@[i as int] as int]@);
        assert(gv[n as int] == groups@[n as int]@);
        if !are_independent(&groups[chosen[i]], &groups[n]) {
            return false;
        }
        i = i + 1;
    }
    true
}

proof fn lemma_extensions_begin(groups: Seq<Seq<Step>>, chosen: Seq<usize>, n: nat, m: nat)
    requires
        n <= m,
    ensures
        extensions(groups, chosen, n).is_prefix_of(extensions(groups, chosen, m)),
    decreases m,
{
    if n < m {
        lemma_extensions_begin(groups, chosen, n, (m - 1) as nat);
    }
}

proof fn lemma_extended_begin(groups: Seq<Seq<Step>>, level: Seq<Seq<usize>>, i: int)
    requires
        0 <= i <= level.len(),
    ensures
        extended(groups, level.take(i)).is_prefix_of(extended(groups, level)),
    decreases level.len(),
{
    if i < level.len() {
        lemma_extended_begin(groups, level.drop_last(), i);
        assert(level.drop_last().take(i) =~= level.take(i));
    } else {
        assert(level.take(i) =~= level);
    }
}

/// The smaller choices come first.
pub proof fn lemma_choices_begin(groups: Seq<Seq<Step>>, k: nat, m: nat)
    requires
        k <= m,
    ensures
        choices_up_to(groups, k).is_prefix_of(choices_up_to(groups, m)),
    decreases m,
{
    if k < m {
        lemma_choices_begin(groups, k, (m - 1) as nat);
    }
}

proof fn lemma_stopped(groups: Seq<Seq<Step>>, k: nat, done: Seq<Seq<usize>>, i: int, n: nat, cap: int)
    requires
        k < groups.len(),
        n < groups.len(),
        0 <= i < choices_of(groups, k).len(),
        joins(groups, choices_of(groups, k)[i], n as int),
        done == choices_up_to(groups, k) + (extended(groups, choices_of(groups, k).take(i)) + extensions(
            groups,
            choices_of(groups, k)[i],
            n,
        )),
        done.len() == cap,
    ensures
        done == at_most(choices(groups), cap),
{
    let level = choices_of(groups, k);
    let one = extensions(groups, level[i], n + 1);
    lemma_extensions_begin(groups, level[i], n + 1, groups.len());
    lemma_extended_begin(groups, level, i + 1);
    assert(level.take(i + 1).drop_last() =~= level.take(i));
    lemma_choices_begin(groups, k + 1, groups.len());
    let next = extended(groups, level);
    let more = extended(groups, level.take(i)) + one;
    assert(more.is_prefix_of(extended(groups, level.take(i + 1))));
    assert(more.is_prefix_of(next));
    let longer = choices_up_to(groups, k) + more;
    assert(choices_up_to(groups, k + 1) == choices_up_to(groups, k) + next);
    assert(longer =~= (choices_up_to(groups, k) + next).subrange(0, longer.len() as int));
    assert(longer.is_prefix_of(choices(groups)));
    assert(longer.take(cap) =~= done);
    assert(done =~= choices(groups).take(cap));
}

/// Lists choices of branches that one run may go through, the smaller ones first, up to a number.
fn list_choices(groups: &Vec<Vec<Step>>, cap: usize) -> (r: Vec<Vec<usize>>)
    requires
        cap > 0,
    ensures
        choice_views(r@) == at_most(choices(path_views(groups@)), cap as int),
        forall|i: int, k: int|
            0 <= i < r@.len() && 0 <= k < r@[i]@.len() ==> (#[trigger] r@[i]@[k]) < groups@.len(),
{
    let ghost gv = path_views(groups@);
    let mut all: Vec<Vec<usize>> = Vec::new();
    let none: Vec<usize> = Vec::new();
    all.push(none);
    let mut start: usize = 0;
    let mut k: usize = 0;
    assert(choice_views(all@) =~= choices_up_to(gv, 0));
    assert(choice_views(all@).skip(0) =~= choices_of(gv, 0));
    while k < groups.len()
        invariant
            k <= groups@.len(),
            gv == path_views(groups@),
            gv.len() == groups@.len(),
            start <= all@.len() <= cap,
            choice_views(all@) == choices_up_to(gv, k as nat),
            choice_views(all@).skip(start as int) == choices_of(gv, k as nat),
            forall|i: int, j: int| 0 <= i < all@.len() && 0 <= j < all@[i]@.len() ==> (#[trigger] all@[i]@[j]) < groups@.len(),
        decreases groups@.len() - k,
    {
        let end: usize = all.len();
        let ghost done = choice_views(all@);
        let ghost level = choices_of(gv, k as nat);
        let mut i: usize = start;
        assert(level.take(0) =~= Seq::empty());
        assert(choice_views(all@) =~= done + extended(gv, level.take(0)));
        while i < end
            invariant
                start <= i <= end <= all@.len() <= cap,
                k < groups@.len(),
                gv == path_views(groups@),
                gv.len() == groups@.len(),
                level == choices_of(gv, k as nat),
                done == choices_up_to(gv, k as nat),
                done.len() == end,
                done.skip(start as int) == level,
                choice_views(all@) == done + extended(gv, level.take(i - start)),
                forall|i: int, j: int|
                    0 <= i < all@.len() && 0 <= j < all@[i]@.len() ==> (#[trigger] all@[i]@[j]) < groups@.len(),
            decreases end - i,
        {
            let chosen = copy_choice(&all[i]);
            let ghost before = choice_views(all@);
            assert(before[i as int] == chosen@);
            assert(before[i as int] == done[i as int]);
            assert(done.skip(start as int)[i - start] == done[i as int]);
            assert(level[i - start] == chosen@);
            assert(forall|j: int| 0 <= j < chosen@.len() ==> (#[trigger] chosen@[j]) < groups@.len()) by {
                assert forall|j: int| 0 <= j < chosen@.len() implies (#[trigger] chosen@[j]) < groups@.len() by {
                    assert(all@[i as int]@[j] < groups@.len());
                }
            }
            let mut n: usize = 0;
            assert(before =~= before + extensions(gv, chosen@, 0));
            while n < groups.len()
                invariant
                    n <= groups@.len(),
                    start <= i < end <= all@.len() <= cap,
                    k < groups@.len(),
                    gv == path_views(groups@),
                    gv.len() == groups@.len(),
                    level == choices_of(gv, k as nat),
                    done == choices_up_to(gv, k as nat),
                    level[i - start] == chosen@,
                    i - start < level.len(),
                    before == done + extended(gv, level.take(i - start)),
                    choice_views(all@) == before + extensions(gv, chosen@, n as nat),
                    forall|j: int| 0 <= j < chosen@.len() ==> (#[trigger] chosen@[j]) < groups@.len(),
                    forall|i: int, j: int|
                        0 <= i < all@.len() && 0 <= j < all@[i]@.len() ==> (#[trigger] all@[i]@[j]) < groups@.len(),
                decreases groups@.len() - n,
            {
                let ghost now = choice_views(all@);
                if can_join(groups, &chosen, n) {
                    if all.len() == cap {
                        proof {
                            assert(now =~= done + (extended(gv, level.take(i - start)) + extensions(gv, chosen@, n as nat)));
                            lemma_stopped(gv, k as nat, now, i - start, n as nat, cap as int);
                        }
                        return all;
                    }
                    let mut more = copy_choice(&chosen);
                    more.push(n);
                    let ghost mv = more@;
                    all.push(more);
                    assert(choice_views(all@) =~= now.push(mv));
                    assert(choice_views(all@) =~= before + extensions(gv, chosen@, (n + 1) as nat));
                }
                n = n + 1;
            }
            assert(level.take(i - start + 1).drop_last() =~= level.take(i - start));
            assert(level.take(i - start + 1).last() == chosen@);
            assert(choice_views(all@) =~= done + extended(gv, level.take(i - start + 1)));
            i = i + 1;
        }
        assert(level.take(end - start) =~= level);
        start = end;
        k = k + 1;
        assert(choice_views(all@).skip(start as int) =~= choices_of(gv, k as nat));
    }
    all
}

fn copy_choice(v: &Vec<usize>) -> (r: Vec<usize>)
    ensures
        r@ == v@,
{
    let mut out: Vec<usize> = Vec::new();
    let mut i: usize = 0;
    while i < v.len()
        invariant
            i <= v@.len(),
            out@ == v@.take(i as int),
        decreases v@.len() - i,
    {
        out.push(v[i]);
        assert(v@.take(i + 1) =~= v@.take(i as int).push(v@[i as int]));
        i = i + 1;
    }
    assert(v@.take(i as int) =~= v@);
    out
}

fn joined_lists(a: &Vec<String>, b: &Vec<String>) -> (r: Vec<String>)
    ensures
        texts(r@) == texts(a@) + texts(b@),
{
    let mut out = copy_texts(a);
    let mut i: usize = 0;
    assert(texts(b@).take(0) =~= Seq::empty());
    assert(texts(out@) =~= texts(a@) + texts(b@).take(0));
    while i < b.len()
        invariant
            i <= b@.len(),
            texts(out@) == texts(a@) + texts(b@).take(i as int),
        decreases b@.len() - i,
    {
        let ghost before = texts(out@);
        out.push(b[i].clone());
        assert(texts(out@) =~= before.push(b@[i as int]@));
        assert(texts(b@).take(i + 1) =~= texts(b@).take(i as int).push(b@[i as int]@));
        assert(texts(out@) =~= texts(a@) + texts(b@).take(i + 1));
        i = i + 1;
    }
    assert(texts(b@).take(i as int) =~= texts(b@));
    out
}

impl AnalysisContext {
    /// Lists the overlays that can appear together.
    pub fn enumerate_combos(&self) -> (r: Vec<Vec<String>>)
        ensures
            text_lists(r@) == combos(self@.overlays),
    {
        let ghost found = self@.overlays;
        let base = steady_names(&self.overlays);
        assert(texts(base@).len() == base@.len());
        let groups = list_branches(&self.overlays);
        let ghost all = choices(branches(found));
        let first: usize = if base.len() == 0 {
            1
        } else {
            0
        };
        let picked = list_choices(&groups, 64 + first);
        let ghost pv = choice_views(picked@);
        assert(pv.len() == picked@.len());
        let ghost f = with_choice(found);
        let mut out: Vec<Vec<String>> = Vec::new();
        let mut i: usize = first;
        proof {
            lemma_choices_begin(branches(found), 0, branches(found).len());
            assert(all.len() >= 1);
            assert(text_lists(out@) =~= pv.subrange(first as int, first as int).map_values(f));
        }
        while i < picked.len()
            invariant
                first <= i <= picked@.len(),
                found == self@.overlays,
                found == found_views(self.overlays@),
                f == with_choice(found),
                pv == choice_views(picked@),
                path_views(groups@) == branches(found),
                texts(base@) == names_where(found, steady()),
                forall|i: int, k: int|
                    0 <= i < picked@.len() && 0 <= k < picked@[i]@.len() ==> (#[trigger] picked@[i]@[k]) < groups@.len(),
                text_lists(out@) == pv.subrange(first as int, i as int).map_values(f),
            decreases picked@.len() - i,
        {
            let ghost before = text_lists(out@);
            assert forall|k: int| 0 <= k < picked@[i as int]@.len() implies (#[trigger] picked@[i as int]@[k]) < groups@.len() by {}
            let names = choice_names(&self.overlays, &groups, &picked[i]);
            let combo = joined_lists(&base, &names);
            let ghost cv = texts(combo@);
            out.push(combo);
            proof {
                assert(pv[i as int] == picked@[i as int]@);
                assert(text_lists(out@) =~= before.push(cv));
                assert(pv.subrange(first as int, i + 1) =~= pv.subrange(first as int, i as int).push(pv[i as int]));
                assert(text_lists(out@) =~= pv.subrange(first as int, i + 1).map_values(f));
            }
            i = i + 1;
        }
        assert(text_lists(out@) =~= combos(found));
        out
    }
}

// ── Visual states ────────────────────────────────────────────────────

/// The variables that are assigned in branches, each once, in the order of the first assignment.
pub open spec fn assigned_names(log: Seq<AssignedView>) -> Seq<Seq<char>>
    decreases log.len(),
{
    if log.len() == 0 {
        Seq::empty()
    } else {
        let before = assigned_names(log.drop_last());
        if before.contains(log.last().name) {
            before
        } else {
            before.push(log.last().name)
        }
    }
}

/// Whether an overlay depends on a variable.
pub open spec fn needs(var: Seq<char>) -> spec_fn(FoundView) -> bool {
    |f: FoundView| uses_var(f.overlay.state_name, var)
}

/// Whether an overlay holds the placeholder of a variable.
pub open spec fn holds_placeholder(var: Seq<char>) -> spec_fn(FoundView) -> bool {
    |f: FoundView| contains_text(f.overlay.state_name, placeholder(var))
}

/// Whether an overlay is added whatever the branch, and does not depend on a variable.
pub open spec fn steady_without(var: Seq<char>) -> spec_fn(FoundView) -> bool {
    |f: FoundView| !f.overlay.conditional && !uses_var(f.overlay.state_name, var)
}

/// Whether a variable tells looks apart: branches give it different values, and some overlay
/// depends on it.
pub open spec fn tells_apart(a: AnalysisView) -> spec_fn(Seq<char>) -> bool {
    |var: Seq<char>| branches_differ(a.branched_vars, var) && names_where(a.overlays, needs(var)).len() > 0
}

/// The variables that tell looks apart.
pub open spec fn state_vars(a: AnalysisView) -> Seq<Seq<char>> {
    assigned_names(a.branched_vars).filter(tells_apart(a))
}

/// How many overlays hold the placeholder of a variable.
pub open spec fn references(a: AnalysisView, var: Seq<char>) -> nat {
    names_where(a.overlays, holds_placeholder(var)).len()
}

/// The variable with the most references: the first of them.
pub open spec fn most_referenced(a: AnalysisView, vars: Seq<Seq<char>>) -> Seq<char>
    decreases vars.len(),
{
    if vars.len() <= 1 {
        vars[0]
    } else {
        let best = most_referenced(a, vars.drop_last());
        if references(a, vars.last()) > references(a, best) {
            vars.last()
        } else {
            best
        }
    }
}

/// The condition under which a variable is first given a value, if it ever is.
pub open spec fn first_condition(log: Seq<AssignedView>, var: Seq<char>, value: Seq<char>) -> Option<Option<Seq<char>>>
    decreases log.len(),
{
    if log.len() == 0 {
        None
    } else {
        match first_condition(log.drop_last(), var, value) {
            Some(c) => Some(c),
            None => if log.last().name == var && log.last().value == value {
                Some(log.last().condition_desc)
            } else {
                None
            },
        }
    }
}

/// The values that a variable is given in branches.
pub open spec fn values_given(log: Seq<AssignedView>, var: Seq<char>) -> Set<Seq<char>> {
    Set::new(|value: Seq<char>| first_condition(log, var, value) is Some)
}

impl ObjectTree {
    /// The overlays that depend on a variable, where it has a value.
    pub open spec fn overlays_for(
        &self,
        t: int,
        found: Seq<FoundView>,
        var: Seq<char>,
        value: Seq<char>,
    ) -> Seq<Seq<char>>
        decreases found.len(),
    {
        if found.len() == 0 {
            Seq::empty()
        } else {
            let before = self.overlays_for(t, found.drop_last(), var, value);
            match self.pattern_for(t, found.last().overlay.state_name, var, value) {
                Some(name) => before.push(name),
                None => before,
            }
        }
    }

    /// The look of an object where a variable has a value.
    pub open spec fn look(&self, t: int, a: AnalysisView, var: Seq<char>) -> spec_fn(Seq<char>) -> VisualView {
        |value: Seq<char>|
            VisualView {
                name: value,
                base_icon_state: Some(value),
                overlays: self.overlays_for(t, a.overlays, var, value) + names_where(a.overlays, steady_without(var)),
                condition_desc: match first_condition(a.branched_vars, var, value) {
                    Some(c) => c,
                    None => None,
                },
            }
    }

    /// The looks of an object, by name: one for each value of the most referenced variable that
    /// tells looks apart.
    pub open spec fn looks(&self, t: int, a: AnalysisView) -> Seq<VisualView> {
        let vars = state_vars(a);
        if vars.len() == 0 {
            Seq::empty()
        } else {
            let var = most_referenced(a, vars);
            sorted_names(values_given(a.branched_vars, var)).map_values(self.look(t, a, var))
        }
    }
}

fn list_assigned(log: &Vec<Assigned>) -> (r: Vec<String>)
    ensures
        texts(r@) == assigned_names(assigned_views(log@)),
{
    let ghost all = assigned_views(log@);
    let mut out: Vec<String> = Vec::new();
    let mut i: usize = 0;
    assert(texts(out@) =~= assigned_names(all.take(0)));
    while i < log.len()
        invariant
            i <= log@.len(),
            all == assigned_views(log@),
            texts(out@) == assigned_names(all.take(i as int)),
        decreases log@.len() - i,
    {
        assert(all.take(i + 1).drop_last() =~= all.take(i as int));
        assert(all.take(i + 1).last() == log@[i as int]@);
        let ghost before = texts(out@);
        if !lists(&out, log[i].name.as_str()) {
            out.push(log[i].name.clone());
            assert(texts(out@) =~= before.push(log@[i as int].name@));
        }
        i = i + 1;
    }
    assert(all.take(i as int) =~= all);
    out
}

fn list_steady_without(found: &Vec<Found>, var: &str) -> (r: Vec<String>)
    ensures
        texts(r@) == names_where(found_views(found@), steady_without(var@)),
{
    let ghost all = found_views(found@);
    let mut out: Vec<String> = Vec::new();
    let mut i: usize = 0;
    assert(texts(out@) =~= names_where(all.take(0), steady_without(var@)));
    while i < found.len()
        invariant
            i <= found@.len(),
            all == found_views(found@),
            texts(out@) == names_where(all.take(i as int), steady_without(var@)),
        decreases found@.len() - i,
    {
        assert(all.take(i + 1).drop_last() =~= all.take(i as int));
        assert(all.take(i + 1).last() == found@[i as int]@);
        let ghost before = texts(out@);
        if !found[i].overlay.conditional && !depends_on(found[i].overlay.state_name.as_str(), var) {
            out.push(found[i].overlay.state_name.clone());
            assert(texts(out@) =~= before.push(found@[i as int].overlay.state_name@));
        }
        i = i + 1;
    }
    assert(all.take(i as int) =~= all);
    out
}

fn is_needed(found: &Vec<Found>, var: &str) -> (r: bool)
    ensures
        r == (names_where(found_views(found@), needs(var@)).len() > 0),
{
    let ghost all = found_views(found@);
    let mut r = false;
    let mut i: usize = 0;
    while i < found.len()
        invariant
            i <= found@.len(),
            all == found_views(found@),
            r == (names_where(all.take(i as int), needs(var@)).len() > 0),
        decreases found@.len() - i,
    {
        assert(all.take(i + 1).drop_last() =~= all.take(i as int));
        assert(all.take(i + 1).last() == found@[i as int]@);
        if depends_on(found[i].overlay.state_name.as_str(), var) {
            r = true;
        }
        i = i + 1;
    }
    assert(all.take(i as int) =~= all);
    r
}

fn count_references(found: &Vec<Found>, var: &str) -> (r: usize)
    ensures
        r == names_where(found_views(found@), holds_placeholder(var@)).len(),
{
    let ghost all = found_views(found@);
    let hole = write_placeholder(var);
    let mut count: usize = 0;
    let mut i: usize = 0;
    while i < found.len()
        invariant
            i <= found@.len(),
            count <= i,
            all == found_views(found@),
            hole@ == placeholder(var@),
            count == names_where(all.take(i as int), holds_placeholder(var@)).len(),
        decreases found@.len() - i,
    {
        assert(all.take(i + 1).drop_last() =~= all.take(i as int));
        assert(all.take(i + 1).last() == found@[i as int]@);
        if has_text(found[i].overlay.state_name.as_str(), hole.as_str()) {
            count = count + 1;
        }
        i = i + 1;
    }
    assert(all.take(i as int) =~= all);
    count
}

fn note_values(log: &Vec<Assigned>, var: &str) -> (r: NameTable<Option<String>>)
    ensures
        r.wf(),
        forall|v: Seq<char>| #[trigger] r@.contains_key(v) <==> values_given(assigned_views(log@), var@).contains(v),
        forall|v: Seq<char>| #[trigger] r@.contains_key(v) ==> first_condition(assigned_views(log@), var@, v) == Some(
            opt_text(r@[v]),
        ),
{
    let ghost all = assigned_views(log@);
    let mut out: NameTable<Option<String>> = NameTable::new();
    let mut i: usize = 0;
    while i < log.len()
        invariant
            i <= log@.len(),
            all == assigned_views(log@),
            out.wf(),
            forall|v: Seq<char>| #[trigger] out@.contains_key(v) <==> first_condition(all.take(i as int), var@, v) is Some,
            forall|v: Seq<char>| #[trigger] out@.contains_key(v) ==> first_condition(all.take(i as int), var@, v) == Some(
                opt_text(out@[v]),
            ),
        decreases log@.len() - i,
    {
        assert(all.take(i + 1).drop_last() =~= all.take(i as int));
        assert(all.take(i + 1).last() == log@[i as int]@);
        let ghost before = out@;
        assert(forall|v: Seq<char>| #[trigger] before.contains_key(v) <==> first_condition(all.take(i as int), var@, v) is Some);
        if same_text(log[i].name.as_str(), var) && out.get(log[i].value.as_str()).is_none() {
            let c = copy_opt(&log[i].condition_desc);
            out.insert(log[i].value.clone(), c);
        }
        assert forall|v: Seq<char>| #[trigger] out@.contains_key(v) <==> first_condition(all.take(i + 1), var@, v) is Some by {
            assert(before.contains_key(v) <==> first_condition(all.take(i as int), var@, v) is Some);
        }
        assert forall|v: Seq<char>| #[trigger] out@.contains_key(v) implies first_condition(all.take(i + 1), var@, v) == Some(
            opt_text(out@[v]),
        ) by {
            assert(before.contains_key(v) <==> first_condition(all.take(i as int), var@, v) is Some);
        }
        i = i + 1;
    }
    assert(all.take(i as int) =~= all);
    out
}

impl AnalysisContext {
    fn list_state_vars(&self) -> (r: Vec<String>)
        ensures
            texts(r@) == state_vars(self@),
    {
        let names = list_assigned(&self.branched_vars);
        let ghost nv = texts(names@);
        let ghost pred = tells_apart(self@);
        let mut out: Vec<String> = Vec::new();
        let mut i: usize = 0;
        proof {
            reveal(Seq::filter);
            assert(texts(out@) =~= nv.take(0).filter(pred));
        }
        while i < names.len()
            invariant
                i <= names@.len(),
                nv == texts(names@),
                pred == tells_apart(self@),
                texts(out@) == nv.take(i as int).filter(pred),
            decreases names@.len() - i,
        {
            proof {
                reveal(Seq::filter);
                assert(nv.take(i + 1).drop_last() =~= nv.take(i as int));
                assert(nv.take(i + 1).last() == names@[i as int]@);
            }
            let ghost before = texts(out@);
            if differs(&self.branched_vars, names[i].as_str()) && is_needed(&self.overlays, names[i].as_str()) {
                out.push(names[i].clone());
                assert(texts(out@) =~= before.push(names@[i as int]@));
            }
            i = i + 1;
        }
        assert(nv.take(i as int) =~= nv);
        out
    }

    fn pick_state_var(&self, vars: &Vec<String>) -> (r: String)
        requires
            vars@.len() > 0,
        ensures
            r@ == most_referenced(self@, texts(vars@)),
    {
        let ghost vv = texts(vars@);
        let mut best: usize = 0;
        let mut most: usize = count_references(&self.overlays, vars[0].as_str());
        let mut i: usize = 1;
        assert(vv.take(1)[0] == vv[0]);
        while i < vars.len()
            invariant
                1 <= i <= vars@.len(),
                best < vars@.len(),
                vv == texts(vars@),
                vv[best as int] == most_referenced(self@, vv.take(i as int)),
                most == references(self@, vv[best as int]),
            decreases vars@.len() - i,
        {
            assert(vv.take(i + 1).drop_last() =~= vv.take(i as int));
            assert(vv.take(i + 1).last() == vars@[i as int]@);
            let n: usize = count_references(&self.overlays, vars[i].as_str());
            if n > most {
                best = i;
                most = n;
            }
            i = i + 1;
        }
        assert(vv.take(i as int) =~= vv);
        vars[best].clone()
    }

    fn list_overlays_for(&self, tree: &ObjectTree, t: usize, var: &str, value: &str) -> (r: Vec<String>)
        requires
            tree.wf(),
            t < tree.types@.len(),
        ensures
            texts(r@) == tree.overlays_for(t as int, self@.overlays, var@, value@),
    {
        let ghost all = found_views(self.overlays@);
        let mut out: Vec<String> = Vec::new();
        let mut i: usize = 0;
        assert(texts(out@) =~= tree.overlays_for(t as int, all.take(0), var@, value@));
        while i < self.overlays.len()
            invariant
                i <= self.overlays@.len(),
                tree.wf(),
                t < tree.types@.len(),
                all == found_views(self.overlays@),
                texts(out@) == tree.overlays_for(t as int, all.take(i as int), var@, value@),
            decreases self.overlays@.len() - i,
        {
            assert(all.take(i + 1).drop_last() =~= all.take(i as int));
            assert(all.take(i + 1).last() == self.overlays@[i as int]@);
            let ghost before = texts(out@);
            let name = self.overlays[i].overlay.state_name.as_str();
            if let Some(s) = tree.resolve_state_var_in_overlay(t, name, var, value) {
                out.push(s);
                assert(texts(out@) =~= before.push(s@));
            }
            i = i + 1;
        }
        assert(all.take(i as int) =~= all);
        out
    }

    /// Lists the looks of the object.
    pub fn enumerate_visual_states(&self, tree: &ObjectTree, t: usize) -> (r: Vec<VisualState>)
        requires
            tree.wf(),
            t < tree.types@.len(),
        ensures
            visual_views(r@) == tree.looks(t as int, self@),
    {
        let mut out: Vec<VisualState> = Vec::new();
        let vars = self.list_state_vars();
        assert(texts(vars@).len() == vars@.len());
        assert(visual_views(out@) =~= Seq::empty());
        if vars.len() == 0 {
            return out;
        }
        let var = self.pick_state_var(&vars);
        let table = note_values(&self.branched_vars, var.as_str());
        let ghost names = table.names();
        let ghost f = tree.look(t as int, self@, var@);
        proof {
            table.names_hold();
            assert(table@.dom() =~= values_given(self@.branched_vars, var@));
            assert(names.take(0).map_values(f) =~= Seq::empty());
        }
        let mut i: usize = 0;
        while i < table.len()
            invariant
                i <= names.len(),
                tree.wf(),
                t < tree.types@.len(),
                table.wf(),
                names == table.names(),
                f == tree.look(t as int, self@, var@),
                forall|v: Seq<char>| #[trigger] table@.contains_key(v) ==> first_condition(
                    self@.branched_vars,
                    var@,
                    v,
                ) == Some(opt_text(table@[v])),
                visual_views(out@) == names.take(i as int).map_values(f),
            decreases names.len() - i,
        {
            let value = table.name_at(i);
            let condition = table.value_at(i);
            let own = self.list_overlays_for(tree, t, var.as_str(), value);
            let rest = list_steady_without(&self.overlays, var.as_str());
            let all = joined_lists(&own, &rest);
            let state = VisualState {
                name: value.to_string(),
                base_icon_state: Some(value.to_string()),
                overlays: all,
                condition_desc: copy_opt(condition),
            };
            let ghost before = visual_views(out@);
            let ghost sv = state@;
            assert(sv == f(names[i as int]));
            out.push(state);
            assert(visual_views(out@) =~= before.push(sv));
            assert(names.take(i + 1).map_values(f) =~= names.take(i as int).map_values(f).push(f(names[i as int])));
            i = i + 1;
        }
        assert(names.take(i as int) =~= names);
        out
    }
}

// ── Analysis of a type ───────────────────────────────────────────────

/// The overlays alone, without the branches in which they were found.
pub open spec fn overlays_of(found: Seq<FoundView>) -> Seq<OverlayView> {
    found.map_values(|f: FoundView| f.overlay)
}

/// No branch at all.
pub open spec fn outside() -> BranchView {
    BranchView { steps: Seq::empty(), condition: None }
}

impl ObjectTree {
    /// What the `update_overlays` proc of a type says of its overlays: `None` if the type has no
    /// such proc with code, or if nothing is added there.
    pub open spec fn analysis(&self, t: int) -> Option<InfoView> {
        match own_code(self.types@[t].procs@, "update_overlays"@) {
            None => None,
            Some(code) => {
                let a = self.after_block(t, code@, nothing_found(), outside());
                if a.overlays.len() == 0 {
                    None
                } else {
                    Some(
                        InfoView {
                            type_path: self.path(t),
                            overlays: overlays_of(a.overlays),
                            combos: combos(a.overlays),
                            visual_states: self.looks(t, a),
                            complete: a.complete,
                            inherited: false,
                        },
                    )
                }
            },
        }
    }
}

/// The view of what may be known of overlays.
pub open spec fn info_view(i: Option<OverlayInfo>) -> Option<InfoView> {
    match i {
        Some(i) => Some(i@),
        None => None,
    }
}

fn copy_overlay(o: &OverlaySpec) -> (r: OverlaySpec)
    ensures
        r@ == o@,
{
    OverlaySpec {
        state_name: o.state_name.clone(),
        icon_override: copy_opt(&o.icon_override),
        conditional: o.conditional,
        condition_desc: copy_opt(&o.condition_desc),
    }
}

fn plain_overlays(found: &Vec<Found>) -> (r: Vec<OverlaySpec>)
    ensures
        overlay_views(r@) == overlays_of(found_views(found@)),
{
    let ghost all = found_views(found@);
    let mut out: Vec<OverlaySpec> = Vec::new();
    let mut i: usize = 0;
    assert(overlay_views(out@) =~= overlays_of(all.take(0)));
    while i < found.len()
        invariant
            i <= found@.len(),
            all == found_views(found@),
            overlay_views(out@) == overlays_of(all.take(i as int)),
        decreases found@.len() - i,
    {
        let ghost before = overlay_views(out@);
        let o = copy_overlay(&found[i].overlay);
        let ghost ov = o@;
        out.push(o);
        assert(overlay_views(out@) =~= before.push(ov));
        assert(overlays_of(all.take(i + 1)) =~= overlays_of(all.take(i as int)).push(all[i as int].overlay));
        i = i + 1;
    }
    assert(all.take(i as int) =~= all);
    out
}

/// Analyses the `update_overlays` proc of a type.
pub fn analyze_overlays(tree: &ObjectTree, t: usize) -> (r: Option<OverlayInfo>)
    requires
        tree.wf(),
        t < tree.types@.len(),
    ensures
        info_view(r) == tree.analysis(t as int),
{
    let code = match find_code(&tree.types[t].procs, "update_overlays") {
        Some(code) => code,
        None => {
            return None;
        },
    };
    let mut ctx = AnalysisContext::new();
    let top = Branch { steps: Vec::new(), condition: None };
    assert(top@.steps =~= Seq::empty());
    ctx.walk_block(tree, t, code, &top);
    assert(ctx@.overlays.len() == ctx.overlays@.len());
    if ctx.overlays.len() == 0 {
        return None;
    }
    let combos = ctx.enumerate_combos();
    let visual_states = ctx.enumerate_visual_states(tree, t);
    Some(
        OverlayInfo {
            type_path: tree.types[t].path.clone(),
            overlays: plain_overlays(&ctx.overlays),
            combos,
            visual_states,
            complete: ctx.complete,
            inherited: false,
        },
    )
}

// ── Inheritance ──────────────────────────────────────────────────────

impl ObjectTree {
    /// A state name as a type sees it: with its own values in place of placeholders.
    pub open spec fn own_name(&self, t: int) -> spec_fn(Seq<char>) -> Seq<char> {
        |name: Seq<char>|
            if name.contains('[') {
                match self.pattern_by(t, name) {
                    Some(s) => s,
                    None => name,
                }
            } else {
                name
            }
    }

    /// An overlay as a type sees it.
    pub open spec fn own_overlay(&self, t: int) -> spec_fn(OverlayView) -> OverlayView {
        |o: OverlayView| OverlayView { state_name: self.own_name(t)(o.state_name), ..o }
    }

    /// A list of state names as a type sees it.
    pub open spec fn own_names(&self, t: int) -> spec_fn(Seq<Seq<char>>) -> Seq<Seq<char>> {
        |names: Seq<Seq<char>>| names.map_values(self.own_name(t))
    }

    /// A look as a type sees it.
    pub open spec fn own_look(&self, t: int) -> spec_fn(VisualView) -> VisualView {
        |v: VisualView| VisualView { overlays: v.overlays.map_values(self.own_name(t)), ..v }
    }

    /// What a type takes over of the overlays of a type that it inherits from.
    pub open spec fn taken_over(&self, t: int, parent: InfoView) -> InfoView {
        InfoView {
            type_path: self.path(t),
            overlays: parent.overlays.map_values(self.own_overlay(t)),
            combos: parent.combos.map_values(self.own_names(t)),
            visual_states: parent.visual_states.map_values(self.own_look(t)),
            complete: parent.complete,
            inherited: true,
        }
    }

    fn resolve_name(&self, t: usize, name: &str) -> (r: String)
        requires
            self.wf(),
            t < self.types@.len(),
        ensures
            r@ == self.own_name(t as int)(name@),
    {
        if has_char(name, '[') {
            match self.try_resolve_pattern_with_vars(t, name) {
                Some(s) => s,
                None => name.to_string(),
            }
        } else {
            name.to_string()
        }
    }

    fn resolve_names(&self, t: usize, names: &Vec<String>) -> (r: Vec<String>)
        requires
            self.wf(),
            t < self.types@.len(),
        ensures
            texts(r@) == texts(names@).map_values(self.own_name(t as int)),
    {
        let ghost all = texts(names@);
        let ghost f = self.own_name(t as int);
        let mut out: Vec<String> = Vec::new();
        let mut i: usize = 0;
        assert(texts(out@) =~= all.take(0).map_values(f));
        while i < names.len()
            invariant
                i <= names@.len(),
                self.wf(),
                t < self.types@.len(),
                all == texts(names@),
                f == self.own_name(t as int),
                texts(out@) == all.take(i as int).map_values(f),
            decreases names@.len() - i,
        {
            let ghost before = texts(out@);
            let s = self.resolve_name(t, names[i].as_str());
            out.push(s);
            assert(texts(out@) =~= before.push(s@));
            assert(all.take(i + 1).map_values(f) =~= all.take(i as int).map_values(f).push(f(all[i as int])));
            i = i + 1;
        }
        assert(all.take(i as int) =~= all);
        out
    }
}

/// Gives a type that has no `update_overlays` proc of its own the overlays of one that it
/// inherits from, with its own values in place of placeholders.
pub fn inherit_overlays(tree: &ObjectTree, t: usize, parent_info: &OverlayInfo) -> (r: Option<OverlayInfo>)
    requires
        tree.wf(),
        t < tree.types@.len(),
    ensures
        info_view(r) == Some(tree.taken_over(t as int, parent_info@)),
{
    let ghost pv = parent_info@;
    let mut overlays: Vec<OverlaySpec> = Vec::new();
    let ghost fo = tree.own_overlay(t as int);
    let mut i: usize = 0;
    assert(overlay_views(overlays@) =~= pv.overlays.take(0).map_values(fo));
    while i < parent_info.overlays.len()
        invariant
            i <= parent_info.overlays@.len(),
            tree.wf(),
            t < tree.types@.len(),
            pv == parent_info@,
            fo == tree.own_overlay(t as int),
            overlay_views(overlays@) == pv.overlays.take(i as int).map_values(fo),
        decreases parent_info.overlays@.len() - i,
    {
        let ghost before = overlay_views(overlays@);
        let mut o = copy_overlay(&parent_info.overlays[i]);
        let name = tree.resolve_name(t, o.state_name.as_str());
        o.state_name = name;
        let ghost ov = o@;
        assert(ov == fo(pv.overlays[i as int]));
        overlays.push(o);
        assert(overlay_views(overlays@) =~= before.push(ov));
        assert(pv.overlays.take(i + 1).map_values(fo) =~= pv.overlays.take(i as int).map_values(fo).push(
            fo(pv.overlays[i as int]),
        ));
        i = i + 1;
    }
    assert(pv.overlays.take(i as int) =~= pv.overlays);
    let mut combos: Vec<Vec<String>> = Vec::new();
    let ghost fc = tree.own_names(t as int);
    let mut j: usize = 0;
    assert(text_lists(combos@) =~= pv.combos.take(0).map_values(fc));
    while j < parent_info.combos.len()
        invariant
            j <= parent_info.combos@.len(),
            tree.wf(),
            t < tree.types@.len(),
            pv == parent_info@,
            fc == tree.own_names(t as int),
            text_lists(combos@) == pv.combos.take(j as int).map_values(fc),
        decreases parent_info.combos@.len() - j,
    {
        let ghost before = text_lists(combos@);
        let c = tree.resolve_names(t, &parent_info.combos[j]);
        let ghost cv = texts(c@);
        assert(cv == fc(pv.combos[j as int]));
        combos.push(c);
        assert(text_lists(combos@) =~= before.push(cv));
        assert(pv.combos.take(j + 1).map_values(fc) =~= pv.combos.take(j as int).map_values(fc).push(
            fc(pv.combos[j as int]),
        ));
        j = j + 1;
    }
    assert(pv.combos.take(j as int) =~= pv.combos);
    let mut visual_states: Vec<VisualState> = Vec::new();
    let ghost fv = tree.own_look(t as int);
    let mut k: usize = 0;
    assert(visual_views(visual_states@) =~= pv.visual_states.take(0).map_values(fv));
    while k < parent_info.visual_states.len()
        invariant
            k <= parent_info.visual_states@.len(),
            tree.wf(),
            t < tree.types@.len(),
            pv == parent_info@,
            fv == tree.own_look(t as int),
            visual_views(visual_states@) == pv.visual_states.take(k as int).map_values(fv),
        decreases parent_info.visual_states@.len() - k,
    {
        let ghost before = visual_views(visual_states@);
        let v = &parent_info.visual_states[k];
        let state = VisualState {
            name: v.name.clone(),
            base_icon_state: copy_opt(&v.base_icon_state),
            overlays: tree.resolve_names(t, &v.overlays),
            condition_desc: copy_opt(&v.condition_desc),
        };
        let ghost sv = state@;
        assert(sv == fv(pv.visual_states[k as int]));
        visual_states.push(state);
        assert(visual_views(visual_states@) =~= before.push(sv));
        assert(pv.visual_states.take(k + 1).map_values(fv) =~= pv.visual_states.take(k as int).map_values(fv).push(
            fv(pv.visual_states[k as int]),
        ));
        k = k + 1;
    }
    assert(pv.visual_states.take(k as int) =~= pv.visual_states);
    Some(
        OverlayInfo {
            type_path: tree.types[t].path.clone(),
            overlays,
            combos,
            visual_states,
            complete: parent_info.complete,
            inherited: true,
        },
    )
}

} // verus!
