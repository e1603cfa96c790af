//! What holds of the reading of code: how expressions sound in words, what each way of adding an
//! overlay adds, what variables stand for, and how looks come about.

use crate::analysis::{branches_differ, placeholder, with_assignment, with_local, AnalysisView, BranchView, FoundView};
use crate::brackets::{text_place, uses_var, word_in};
use crate::objtree::{own_code, own_var, ObjectTree, TypeProc};
use crate::overlays::{
    assigned_names, first_condition, most_referenced, names_where, state_vars, steady_without, values_given, InfoView,
};
use crate::patterns::{parsed, parts_text};
use crate::prefab::ConstantKindView;
use crate::syntax::{
    bare, case_text, cases_text, follows_text, ident, literal, resource, summary, AssignKind, Case, Expression, Follow,
    Statement, Term,
};
use crate::text::{
    contains_text, debug_text, dec, joined, next_char, next_char_is_first, replaced, stands_at, starts_with, trimmed,
};
use vstd::prelude::*;

verus! {

// ── Words ────────────────────────────────────────────────────────────

/// How an expression sounds that is nothing but a term: a name and a number as they stand, a text
/// in double quotes, and null as `null`.
pub proof fn plain_terms_in_words(e: Expression)
    requires
        bare(e) is Some,
    ensures
        match bare(e) {
            Some(Term::Ident(s)) => summary(e) == s@,
            Some(Term::Str(s)) => summary(e) == "\""@ + s@ + "\""@,
            Some(Term::Int(i)) => summary(e) == dec(i as int),
            Some(Term::Float(s)) => summary(e) == s@,
            Some(Term::Null) => summary(e) == "null"@,
            _ => summary(e) == "..."@,
        },
{
    if let Expression::Base { term, follow } = e {
        assert(follows_text(follow@) =~= Seq::<char>::empty());
        assert(summary(e) =~= crate::syntax::term_text(*term));
    }
}

/// What follows a term is said behind it, in order: a field after a dot, a call with empty round
/// brackets, an index in square brackets, a static field after two colons.
pub proof fn what_follows_is_said_behind(list: Seq<Follow>, last: Follow)
    ensures
        follows_text(Seq::empty()).len() == 0,
        follows_text(list.push(last)) == follows_text(list) + (match last {
            Follow::Field(name) => "."@ + name@,
            Follow::Call(name) => "."@ + name@ + "()"@,
            Follow::Index => "[...]"@,
            Follow::StaticField(name) => "::"@ + name@,
            Follow::ProcReference(name) => "::proc/"@ + name@,
            Follow::Unary(name) => name@,
        }),
{
    assert(list.push(last).drop_last() =~= list);
}

/// An operation is said as its left side, its operator and its right side, with spaces between
/// them.
pub proof fn operations_in_words(e: Expression)
    ensures
        match e {
            Expression::BinaryOp { op, lhs, rhs } => summary(e) == summary(*lhs) + " "@ + op@ + " "@ + summary(*rhs),
            Expression::AssignOp { kind, lhs, rhs } => summary(e) == "..."@,
            Expression::Other => summary(e) == "..."@,
            _ => true,
        },
{
}

/// A case is said as its value, or as the two ends of its range from the first to the last; the
/// cases of an arm are said in order, each in quotes.
pub proof fn cases_in_words(e: Expression, from: Expression, to: Expression, list: Seq<Case>)
    ensures
        case_text(Case::Exact(e)) == summary(e),
        case_text(Case::Range(from, to)) == summary(from) + " to "@ + summary(to),
        cases_text(list) == "["@ + joined(Seq::new(list.len(), |i: int| debug_text(case_text(list[i]))), ", "@) + "]"@,
{
    assert(crate::syntax::quoted_cases(list) =~= Seq::new(list.len(), |i: int| debug_text(case_text(list[i]))));
}

// ── Additions ────────────────────────────────────────────────────────

/// Whether a walk went on from another by one overlay of the given name and icon, added in the
/// branch that the walk is in, and by nothing else.
pub open spec fn one_more(a: AnalysisView, x: AnalysisView, b: BranchView, state: Seq<char>, icon: Option<Seq<char>>) -> bool {
    let n = a.overlays.len() as int;
    &&& x.overlays.len() == n + 1
    &&& x.overlays.take(n) == a.overlays
    &&& x.overlays[n].path == b.steps
    &&& x.overlays[n].overlay.state_name == state
    &&& x.overlays[n].overlay.icon_override == icon
    &&& x.overlays[n].overlay.conditional <==> b.steps.len() > 0
    &&& x.overlays[n].overlay.condition_desc == b.condition
    &&& x.complete == a.complete
    &&& x.local_vars == a.local_vars
    &&& x.branched_vars == a.branched_vars
}

/// Whether a walk met an addition that it did not understand, and found nothing.
pub open spec fn not_understood(a: AnalysisView, x: AnalysisView) -> bool {
    &&& x.overlays == a.overlays
    &&& !x.complete
    &&& x.local_vars == a.local_vars
    &&& x.branched_vars == a.branched_vars
}

proof fn lemma_literal_is_itself(tree: &ObjectTree, t: int, a: AnalysisView, b: BranchView, e: Expression)
    requires
        literal(e) is Some,
    ensures
        tree.string_or_var(t, a, b, e) == literal(e),
{
}

/// A plain text that is added is an overlay of that name.
pub proof fn a_plain_text_is_an_overlay(tree: &ObjectTree, t: int, a: AnalysisView, b: BranchView, e: Expression, s: Seq<char>)
    requires
        literal(e) == Some(s),
    ensures
        one_more(a, tree.after_addition(t, a, b, e), b, s, None),
{
    let x = tree.after_addition(t, a, b, e);
    assert(x.overlays.take(a.overlays.len() as int) =~= a.overlays);
}

/// What adding the result of a call adds: `mutable_appearance(icon, state)` and
/// `image(icon, place, state)` the state from the icon, `image(icon, state)` too,
/// `get_airlock_overlay(state)` the state from the type's own icon, `emissive_appearance` alone
/// nothing; any other call is not understood.
pub proof fn calls_add_their_state(
    tree: &ObjectTree,
    t: int,
    a: AnalysisView,
    b: BranchView,
    e: Expression,
    name: Seq<char>,
    args: Seq<Expression>,
    s: Seq<char>,
)
    requires
        (match bare(e) {
            Some(Term::Call(n, v)) => n@ == name && v@ == args,
            _ => false,
        }),
    ensures
        ({
            let x = tree.after_addition(t, a, b, e);
            &&& name == "mutable_appearance"@ && args.len() >= 2 && literal(args[1]) == Some(s) ==> one_more(
                a,
                x,
                b,
                s,
                resource(args[0]),
            )
            &&& name == "mutable_appearance"@ && args.len() < 2 ==> not_understood(a, x)
            &&& name == "image"@ && args.len() >= 3 && literal(args[2]) == Some(s) ==> one_more(a, x, b, s, resource(args[0]))
            &&& name == "image"@ && args.len() == 2 && literal(args[1]) == Some(s) ==> one_more(a, x, b, s, resource(args[0]))
            &&& name == "image"@ && args.len() < 2 ==> not_understood(a, x)
            &&& name == "get_airlock_overlay"@ && args.len() >= 1 && literal(args[0]) == Some(s) ==> one_more(a, x, b, s, None)
            &&& name == "get_airlock_overlay"@ && args.len() == 0 ==> not_understood(a, x)
            &&& name == "emissive_appearance"@ ==> x == a
            &&& name != "mutable_appearance"@ && name != "image"@ && name != "get_airlock_overlay"@ && name
                != "emissive_appearance"@ ==> not_understood(a, x)
        }),
{
    reveal_strlit("mutable_appearance");
    reveal_strlit("image");
    reveal_strlit("get_airlock_overlay");
    reveal_strlit("emissive_appearance");
    assert("mutable_appearance"@.len() == 18 && "image"@.len() == 5 && "get_airlock_overlay"@[0] == 'g'
        && "emissive_appearance"@[0] == 'e');
    assert("get_airlock_overlay"@.len() == 19 && "emissive_appearance"@.len() == 19);
    let x = tree.after_addition(t, a, b, e);
    assert(x == tree.after_call(t, a, b, name, args, true));
    if args.len() >= 1 && literal(args[0]) is Some {
        lemma_literal_is_itself(tree, t, a, b, args[0]);
    }
    if args.len() >= 2 && literal(args[1]) is Some {
        lemma_literal_is_itself(tree, t, a, b, args[1]);
    }
    if args.len() >= 3 && literal(args[2]) is Some {
        lemma_literal_is_itself(tree, t, a, b, args[2]);
    }
    assert(x.overlays.len() > a.overlays.len() ==> x.overlays.take(a.overlays.len() as int) =~= a.overlays);
}

/// A name that is added is an overlay of the text that it stands for; where it stands for none,
/// a placeholder takes its place and the walk is not complete.
pub proof fn a_name_adds_what_it_stands_for(tree: &ObjectTree, t: int, a: AnalysisView, b: BranchView, e: Expression, name: Seq<char>)
    requires
        (match bare(e) {
            Some(Term::Ident(n)) => n@ == name,
            _ => false,
        }),
    ensures
        ({
            let x = tree.after_addition(t, a, b, e);
            match tree.value_in(t, a, b, name) {
                Some(v) => one_more(a, x, b, v, None),
                None => {
                    &&& one_more(AnalysisView { complete: false, ..a }, x, b, "["@ + name + "]"@, None)
                },
            }
        }),
{
    let x = tree.after_addition(t, a, b, e);
    assert(x.overlays.take(a.overlays.len() as int) =~= a.overlays);
}

// ── Variables ────────────────────────────────────────────────────────

/// Outside branches a variable stands for the text that it was given last, and one that was never
/// given any for the text that the type gives it.
pub proof fn a_variable_stands_for_what_it_was_given_last(
    tree: &ObjectTree,
    t: int,
    a: AnalysisView,
    b: BranchView,
    name: Seq<char>,
    value: Seq<char>,
    other: Seq<char>,
)
    requires
        a.branched_vars.len() == 0,
        b.steps.len() == 0,
        other != name,
    ensures
        tree.value_in(t, with_local(a, name, value), b, name) == Some(value),
        tree.value_in(t, with_assignment(a, b, name, value), b, name) == Some(value),
        tree.value_in(t, with_local(a, other, value), b, name) == tree.value_in(t, a, b, name),
        a.local_vars.len() == 0 ==> tree.value_in(t, a, b, name) == tree.text_var(t, name),
{
    let x = with_local(a, other, value);
    assert(x.local_vars.drop_last() =~= a.local_vars);
}

/// After branches that give a variable different texts it stands, outside them, for a placeholder
/// with its name; after branches that give it the same text, for that text.
pub proof fn branches_leave_a_placeholder(
    tree: &ObjectTree,
    t: int,
    a: AnalysisView,
    one: BranchView,
    two: BranchView,
    name: Seq<char>,
    first: Seq<char>,
    second: Seq<char>,
)
    requires
        a.branched_vars.len() == 0,
        one.steps.len() > 0,
        two.steps.len() > 0,
    ensures
        ({
            let x = with_assignment(with_assignment(a, one, name, first), two, name, second);
            let after = BranchView { steps: Seq::empty(), condition: None };
            &&& first != second ==> tree.value_in(t, x, after, name) == Some("["@ + name + "]"@)
            &&& first == second ==> tree.value_in(t, x, after, name) == Some(first)
        }),
{
    let x = with_assignment(with_assignment(a, one, name, first), two, name, second);
    let log = x.branched_vars;
    assert(log.len() == 2);
    assert(log[0].name == name && log[1].name == name && log[0].value == first && log[1].value == second);
    assert(!two.steps.is_prefix_of(Seq::<crate::analysis::Step>::empty()));
    if first != second {
        assert(branches_differ(log, name));
    }
}

/// A type's text for a variable is the string or file that it gives itself; `null` gives none, and
/// anything else leaves it to the type that it inherits from.
pub proof fn texts_are_inherited(tree: &ObjectTree, t: int, name: Seq<char>)
    requires
        tree.wf(),
        0 <= t < tree.types@.len(),
    ensures
        ({
            let above = match tree.types@[t].parent {
                Some(p) => tree.text_var(p as int, name),
                None => None,
            };
            match own_var(tree.own(t), name) {
                Some(v) => match v.constant {
                    Some(c) => match c.kind {
                        ConstantKindView::Str(s) => tree.text_var(t, name) == Some(s),
                        ConstantKindView::Resource(s) => tree.text_var(t, name) == Some(s),
                        ConstantKindView::Null => tree.text_var(t, name) is None,
                        _ => tree.text_var(t, name) == above,
                    },
                    None => tree.text_var(t, name) == above,
                },
                None => tree.text_var(t, name) == above,
            }
        }),
{
    let line = tree.lineage(t);
    match tree.types@[t].parent {
        Some(p) => {
            assert(line.skip(1) =~= tree.lineage(p as int));
        },
        None => {
            assert(tree.text_in(line.skip(1), name) is None);
        },
    }
}

// ── Placeholders ─────────────────────────────────────────────────────

/// A placeholder with the name of a variable alone stands for its value; one that adds another
/// variable to it, for the value followed by the text of that one, or preceded by it where it
/// comes first.
pub proof fn placeholders_take_the_value(
    tree: &ObjectTree,
    t: int,
    var: Seq<char>,
    other: Seq<char>,
    value: Seq<char>,
)
    requires
        other.len() > 0,
        !crate::text::is_space(other[0]),
        !crate::text::is_space(other.last()),
    ensures
        tree.bracket_value(t, var, var, value) == Some(value),
        tree.bracket_value(t, var + " Add "@ + other, var, value) == Some(
            value + (match tree.text_var(t, other) {
                Some(s) => s,
                None => ""@,
            }),
        ),
{
    reveal_strlit(" Add ");
    reveal_strlit("Add ");
    let expr = var + " Add "@ + other;
    assert(expr.take(var.len() as int) =~= var);
    let tail = expr.skip(var.len() as int);
    assert(tail =~= " Add "@ + other);
    let after = "Add "@ + other;
    assert(tail.skip(1) =~= after);
    assert(crate::text::is_space(tail[0]));
    assert(after[0] == 'A');
    assert(after.last() == other.last());
    assert(trimmed(after) == after);
    assert(trimmed(tail) == after);
    assert(after.take(4) =~= "Add "@);
    assert(after.skip(4) =~= other);
    assert(trimmed(other) == other);
    assert(expr.len() > var.len());
}

/// A placeholder that adds a variable to another one stands for the text of the other followed by
/// the value.
pub proof fn placeholders_take_the_value_behind(
    tree: &ObjectTree,
    t: int,
    var: Seq<char>,
    other: Seq<char>,
    value: Seq<char>,
)
    requires
        other.len() > 0,
        !crate::text::is_space(other[0]),
        !crate::text::is_space(other.last()),
        var.len() > 0,
        !crate::text::is_space(var[0]),
        !crate::text::is_space(var.last()),
        !starts_with(other + " Add "@ + var, var),
        forall|at: int| 0 <= at < other.len() ==> !stands_at(other + " Add "@ + var, " Add "@, at),
    ensures
        tree.bracket_value(t, other + " Add "@ + var, var, value) == Some(
            (match tree.text_var(t, other) {
                Some(s) => s,
                None => ""@,
            }) + value,
        ),
{
    reveal_strlit(" Add ");
    reveal_strlit("Add ");
    let expr = other + " Add "@ + var;
    let n = other.len() as int;
    assert(expr.subrange(n, n + 5) =~= " Add "@);
    assert(stands_at(expr, " Add "@, n));
    lemma_first_place(expr, " Add "@, 0, n);
    assert(expr.take(n) =~= other);
    assert(expr.skip(n + 5) =~= var);
    assert(trimmed(other) == other);
    assert(trimmed(var) == var);
    assert(expr.subrange(n + 1, n + 1 + ("Add "@ + var).len()) =~= "Add "@ + var);
    assert(stands_at(expr, "Add "@ + var, n + 1));
    assert(expr.len() != var.len());
}

proof fn lemma_first_place(s: Seq<char>, p: Seq<char>, from: int, at: int)
    requires
        0 <= from <= at,
        stands_at(s, p, at),
        forall|i: int| from <= i < at ==> !stands_at(s, p, i),
    ensures
        text_place(s, p, from) == at,
    decreases at - from,
{
    if from < at {
        lemma_first_place(s, p, from + 1, at);
    }
}

/// A pattern that holds the placeholder of a variable is, where the variable has a value, the
/// pattern with the value in its place.
pub proof fn a_pattern_takes_the_value(tree: &ObjectTree, t: int, before: Seq<char>, var: Seq<char>, after: Seq<char>, value: Seq<char>)
    requires
        !before.contains('['),
    ensures
        tree.pattern_for(t, before + ("["@ + var + "]"@) + after, var, value) == Some(
            before + value + replaced(after, "["@ + var + "]"@, value),
        ),
{
    reveal_strlit("[");
    reveal_strlit("]");
    let hole = "["@ + var + "]"@;
    let s = before + hole + after;
    assert(s.subrange(before.len() as int, (before.len() + hole.len()) as int) =~= hole);
    assert(stands_at(s, hole, before.len() as int));
    assert forall|at: int| 0 <= at < before.len() implies !stands_at(s, hole, at) by {
        if stands_at(s, hole, at) {
            assert(s.subrange(at, at + hole.len())[0] == s[at]);
            assert(before.contains(before[at]));
        }
    }
    crate::text_laws::the_first_occurrence_is_replaced(before, hole, after, value);
}

proof fn lemma_parts_end(parts: Seq<(Seq<char>, Seq<char>)>)
    requires
        parts.len() > 0,
    ensures
        parts_text(parts) == parts_text(parts.drop_last()) + parts.last().0 + seq!['['] + parts.last().1 + seq![']'],
    decreases parts.len(),
{
    let rest = parts.skip(1);
    if rest.len() > 0 {
        lemma_parts_end(rest);
        assert(rest.drop_last() =~= parts.drop_last().skip(1));
        assert(rest.last() == parts.last());
        assert(parts_text(parts) =~= parts_text(parts.drop_last()) + parts.last().0 + seq!['['] + parts.last().1 + seq![']']);
    } else {
        assert(parts.drop_last().len() == 0);
        assert(parts_text(rest) =~= Seq::<char>::empty());
        assert(parts_text(parts) =~= parts_text(parts.drop_last()) + parts.last().0 + seq!['['] + parts.last().1 + seq![']']);
    }
}

/// Placeholders that no value is known for stay in the text as they are.
pub proof fn unknown_placeholders_stay(
    tree: &ObjectTree,
    t: int,
    parts: Seq<(Seq<char>, Seq<char>)>,
    var: Seq<char>,
    value: Seq<char>,
)
    requires
        forall|k: int| 0 <= k < parts.len() ==> tree.bracket_value(t, (#[trigger] parts[k]).1, var, value) is None,
    ensures
        tree.filled_for(t, parts, var, value) == parts_text(parts),
    decreases parts.len(),
{
    if parts.len() > 0 {
        reveal_strlit("[");
        reveal_strlit("]");
        let front = parts.drop_last();
        assert forall|k: int| 0 <= k < front.len() implies tree.bracket_value(t, (#[trigger] front[k]).1, var, value)
            is None by {
            assert(front[k] == parts[k]);
        }
        unknown_placeholders_stay(tree, t, front, var, value);
        lemma_parts_end(parts);
        assert(parts.last() == parts[parts.len() - 1]);
        assert("["@ =~= seq!['[']);
        assert("]"@ =~= seq![']']);
        assert(tree.filled_for(t, parts, var, value) =~= parts_text(parts));
    }
}

/// A pattern with a placeholder that depends on a variable is, where the variable has a value,
/// the pattern with what the placeholder then stands for in its place; what stands before and
/// behind it stays.
pub proof fn a_placeholder_is_filled_in(
    tree: &ObjectTree,
    t: int,
    before: Seq<char>,
    expr: Seq<char>,
    after: Seq<char>,
    var: Seq<char>,
    value: Seq<char>,
)
    requires
        !before.contains('['),
        !expr.contains(']'),
        !after.contains('['),
        word_in(expr, var),
        !contains_text(before + ("["@ + expr + "]"@) + after, "["@ + var + "]"@),
        tree.bracket_value(t, expr, var, value) is Some,
    ensures
        tree.pattern_for(t, before + ("["@ + expr + "]"@) + after, var, value) == Some(
            before + tree.bracket_value(t, expr, var, value)->0 + after,
        ),
{
    reveal_strlit("[");
    reveal_strlit("]");
    reveal_strlit("");
    let s = before + ("["@ + expr + "]"@) + after;
    let open = before.len() as int;
    let close = open + 1 + expr.len();
    next_char_is_first(s, '[', 0);
    assert(s[open] == '[');
    assert forall|i: int| 0 <= i < open implies s[i] != '[' by {
        assert(before.contains(before[i]));
    }
    assert(next_char(s, '[', 0) == open);
    next_char_is_first(s, ']', open);
    assert(s[close] == ']');
    assert forall|i: int| open <= i < close implies s[i] != ']' by {
        if i > open {
            assert(expr.contains(expr[i - open - 1]));
        }
    }
    assert(next_char(s, ']', open) == close);
    assert(s.skip(close + 1) =~= after);
    assert(s.take(open) =~= before);
    assert(s.subrange(open + 1, close) =~= expr);
    next_char_is_first(after, '[', 0);
    if next_char(after, '[', 0) < after.len() {
        assert(after.contains(after[next_char(after, '[', 0)]));
    }
    let tail = parsed(after);
    assert(tail.parts.len() == 0 && tail.rest == after && tail.closed);
    let p = parsed(s);
    assert(p.parts =~= seq![(before, expr)]);
    assert(p.rest == after && p.closed);
    assert(word_in(p.parts[0].1, var));
    assert(p.parts.drop_last() =~= Seq::empty());
    assert(tree.filled_for(t, p.parts.drop_last(), var, value) =~= Seq::<char>::empty());
    let v = tree.bracket_value(t, expr, var, value)->0;
    assert(tree.filled_for(t, p.parts, var, value) =~= before + v);
    assert(before + v + ""@ + after =~= before + v + after);
}

/// A placeholder names a variable of the type by what follows its last dot.
pub proof fn a_placeholder_may_name_its_owner(tree: &ObjectTree, t: int, owner: Seq<char>, name: Seq<char>)
    requires
        !name.contains('.'),
    ensures
        tree.field_value(t, name) == tree.text_var(t, name),
        tree.field_value(t, owner + seq!['.'] + name) == tree.text_var(t, name),
{
    crate::text_laws::the_last_piece_follows_the_last_separator(owner, '.', name);
}

// ── Looks ────────────────────────────────────────────────────────────

/// Each look is of a value that some branch gives the variable that tells looks apart: it is
/// named after the value, has it for a base state, and holds under the condition of the first
/// branch that gives it.
pub proof fn a_look_is_of_a_value(tree: &ObjectTree, t: int, a: AnalysisView, i: int) -> (k: int)
    requires
        0 <= i < tree.looks(t, a).len(),
    ensures
        ({
            let var = most_referenced(a, state_vars(a));
            let v = tree.looks(t, a)[i];
            let log = a.branched_vars;
            &&& 0 <= k < log.len()
            &&& log[k].name == var
            &&& log[k].value == v.name
            &&& v.base_icon_state == Some(v.name)
            &&& v.condition_desc == log[k].condition_desc
            &&& forall|j: int| 0 <= j < k ==> (#[trigger] log[j]).name != var || log[j].value != v.name
        }),
{
    let var = most_referenced(a, state_vars(a));
    let log = a.branched_vars;
    crate::overlay_laws::looks_come_in_order(tree, t, a);
    let values = values_given(log, var);
    let names = crate::names::sorted_names(values);
    crate::overlay_laws::lemma_values_finite(log, var);
    crate::names::names_can_be_sorted(values);
    assert(names.to_set().contains(names[i]));
    lemma_first_condition(log, var, names[i])
}

proof fn lemma_first_condition(log: Seq<crate::analysis::AssignedView>, var: Seq<char>, value: Seq<char>) -> (k: int)
    requires
        first_condition(log, var, value) is Some,
    ensures
        0 <= k < log.len(),
        log[k].name == var,
        log[k].value == value,
        first_condition(log, var, value) == Some(log[k].condition_desc),
        forall|j: int| 0 <= j < k ==> (#[trigger] log[j]).name != var || log[j].value != value,
    decreases log.len(),
{
    let front = log.drop_last();
    if first_condition(front, var, value) is Some {
        let k = lemma_first_condition(front, var, value);
        assert(log[k] == front[k]);
        assert forall|j: int| 0 <= j < k implies (#[trigger] log[j]).name != var || log[j].value != value by {
            assert(log[j] == front[j]);
        }
        k
    } else {
        lemma_not_given(front, var, value);
        assert forall|j: int| 0 <= j < log.len() - 1 implies (#[trigger] log[j]).name != var || log[j].value != value by {
            assert(log[j] == front[j]);
        }
        log.len() - 1
    }
}

proof fn lemma_not_given(log: Seq<crate::analysis::AssignedView>, var: Seq<char>, value: Seq<char>)
    requires
        first_condition(log, var, value) is None,
    ensures
        forall|j: int| 0 <= j < log.len() ==> (#[trigger] log[j]).name != var || log[j].value != value,
    decreases log.len(),
{
    if log.len() > 0 {
        lemma_not_given(log.drop_last(), var, value);
        assert forall|j: int| 0 <= j < log.len() implies (#[trigger] log[j]).name != var || log[j].value != value by {
            if j < log.len() - 1 {
                assert(log.drop_last()[j] == log[j]);
            }
        }
    }
}

/// The overlays of a look are those that depend on the variable, with its value put in, and then
/// those that are always added and do not depend on it, each in the order in which they were
/// found.
pub proof fn a_look_has_the_overlays_of_its_value(tree: &ObjectTree, t: int, a: AnalysisView, i: int)
    requires
        0 <= i < tree.looks(t, a).len(),
    ensures
        ({
            let var = most_referenced(a, state_vars(a));
            let v = tree.looks(t, a)[i];
            v.overlays == a.overlays.filter(|f: FoundView| uses_var(f.overlay.state_name, var)).map_values(
                |f: FoundView| tree.pattern_for(t, f.overlay.state_name, var, v.name).unwrap(),
            ) + a.overlays.filter(|f: FoundView| !f.overlay.conditional && !uses_var(f.overlay.state_name, var)).map_values(
                |f: FoundView| f.overlay.state_name,
            )
        }),
{
    let var = most_referenced(a, state_vars(a));
    let v = tree.looks(t, a)[i];
    lemma_overlays_for(tree, t, a.overlays, var, v.name);
    lemma_names_filtered(
        a.overlays,
        steady_without(var),
        |f: FoundView| !f.overlay.conditional && !uses_var(f.overlay.state_name, var),
    );
}

proof fn lemma_overlays_for(tree: &ObjectTree, t: int, found: Seq<FoundView>, var: Seq<char>, value: Seq<char>)
    ensures
        tree.overlays_for(t, found, var, value) == found.filter(
            |f: FoundView| uses_var(f.overlay.state_name, var),
        ).map_values(|f: FoundView| tree.pattern_for(t, f.overlay.state_name, var, value).unwrap()),
    decreases found.len(),
{
    reveal(Seq::filter);
    let p = |f: FoundView| uses_var(f.overlay.state_name, var);
    let g = |f: FoundView| tree.pattern_for(t, f.overlay.state_name, var, value).unwrap();
    if found.len() > 0 {
        let front = found.drop_last();
        lemma_overlays_for(tree, t, front, var, value);
        crate::overlay_laws::only_dependent_overlays_are_resolved(tree, t, found.last().overlay.state_name, var, value);
        if p(found.last()) {
            assert(found.filter(p) == front.filter(p).push(found.last()));
            assert(found.filter(p).map_values(g) =~= front.filter(p).map_values(g).push(g(found.last())));
        }
    }
}

proof fn lemma_names_filtered(found: Seq<FoundView>, pick: spec_fn(FoundView) -> bool, p: spec_fn(FoundView) -> bool)
    requires
        forall|f: FoundView| #[trigger] pick(f) == p(f),
    ensures
        names_where(found, pick) == found.filter(p).map_values(|f: FoundView| f.overlay.state_name),
    decreases found.len(),
{
    reveal(Seq::filter);
    let g = |f: FoundView| f.overlay.state_name;
    if found.len() > 0 {
        let front = found.drop_last();
        lemma_names_filtered(front, pick, p);
        assert(pick(found.last()) == p(found.last()));
        if p(found.last()) {
            assert(found.filter(p) == front.filter(p).push(found.last()));
            assert(found.filter(p).map_values(g) =~= front.filter(p).map_values(g).push(g(found.last())));
        }
    }
}

// ── Types ────────────────────────────────────────────────────────────

/// What is known of the overlays of a type is known under its own path, and is its own; what it
/// takes over from another type is known under its own path too, and is marked as inherited, with
/// the names resolved by its own variables and everything else as it was.
pub proof fn overlays_are_known_under_their_type(tree: &ObjectTree, t: int, parent: InfoView, i: int)
    ensures
        match tree.analysis(t) {
            Some(info) => info.type_path == tree.path(t) && !info.inherited && info.overlays.len() > 0,
            None => true,
        },
        ({
            let info = tree.taken_over(t, parent);
            &&& info.type_path == tree.path(t)
            &&& info.inherited
            &&& info.complete == parent.complete
            &&& 0 <= i < parent.overlays.len() ==> {
                &&& info.overlays[i].icon_override == parent.overlays[i].icon_override
                &&& info.overlays[i].conditional == parent.overlays[i].conditional
                &&& info.overlays[i].condition_desc == parent.overlays[i].condition_desc
                &&& info.overlays[i].state_name == (match tree.pattern_by(t, parent.overlays[i].state_name) {
                    Some(s) if parent.overlays[i].state_name.contains('[') => s,
                    _ => parent.overlays[i].state_name,
                })
            }
            &&& 0 <= i < parent.visual_states.len() ==> {
                &&& info.visual_states[i].name == parent.visual_states[i].name
                &&& info.visual_states[i].base_icon_state == parent.visual_states[i].base_icon_state
                &&& info.visual_states[i].condition_desc == parent.visual_states[i].condition_desc
                &&& info.visual_states[i].overlays.len() == parent.visual_states[i].overlays.len()
            }
            &&& 0 <= i < parent.combos.len() ==> info.combos[i].len() == parent.combos[i].len()
        }),
{
}

// ── Statements ───────────────────────────────────────────────────────

/// An assignment of a text to a name is remembered in the branch where it stands, and adds no
/// overlay; so is a declaration with a text.
pub proof fn assignments_are_remembered(
    tree: &ObjectTree,
    t: int,
    s: Statement,
    at: int,
    a: AnalysisView,
    b: BranchView,
    name: Seq<char>,
    value: Seq<char>,
)
    requires
        (match s {
            Statement::Expr(Expression::AssignOp { kind: AssignKind::Assign, lhs, rhs }) => ident(*lhs) == Some(name) && literal(
                *rhs,
            ) == Some(value),
            _ => false,
        }),
    ensures
        ({
            let x = tree.after_statement(t, s, at, a, b);
            &&& x.overlays == a.overlays
            &&& x.complete == a.complete
            &&& x.local_vars == a.local_vars.push((name, value))
            &&& b.steps.len() > 0 ==> {
                &&& x.branched_vars.len() == a.branched_vars.len() + 1
                &&& x.branched_vars.take(a.branched_vars.len() as int) == a.branched_vars
                &&& x.branched_vars.last().name == name
                &&& x.branched_vars.last().value == value
                &&& x.branched_vars.last().path == b.steps
                &&& x.branched_vars.last().condition_desc == b.condition
                &&& tree.value_in(t, x, b, name) == Some(value)
            }
            &&& b.steps.len() == 0 ==> x.branched_vars == a.branched_vars
        }),
{
    let x = tree.after_statement(t, s, at, a, b);
    assert(x.branched_vars.len() > a.branched_vars.len() ==> x.branched_vars.take(a.branched_vars.len() as int)
        =~= a.branched_vars);
    assert(b.steps.subrange(0, b.steps.len() as int) =~= b.steps);
}

/// A declaration with a text is remembered, and one without changes nothing.
pub proof fn declarations_are_remembered(tree: &ObjectTree, t: int, s: Statement, at: int, a: AnalysisView, b: BranchView)
    ensures
        match s {
            Statement::Var { name, value } => {
                let x = tree.after_statement(t, s, at, a, b);
                &&& x.overlays == a.overlays && x.complete == a.complete && x.branched_vars == a.branched_vars
                &&& value is Some && literal(value.unwrap()) is Some ==> x.local_vars == a.local_vars.push(
                    (name@, literal(value.unwrap()).unwrap()),
                )
                &&& value is None || literal(value.unwrap()) is None ==> x.local_vars == a.local_vars
            },
            _ => true,
        },
{
}

/// An addition counts only where it is to what the proc returns; a statement of another kind adds
/// nothing, but where something inside it does, the walk is not complete.
pub proof fn other_statements_are_not_followed(tree: &ObjectTree, t: int, s: Statement, at: int, a: AnalysisView, b: BranchView)
    ensures
        match s {
            Statement::Other(inside) => {
                let x = tree.after_statement(t, s, at, a, b);
                let y = tree.after_block(t, inside@, a, b);
                &&& x.overlays == a.overlays && x.local_vars == a.local_vars && x.branched_vars == a.branched_vars
                &&& y.overlays.len() > a.overlays.len() ==> !x.complete
                &&& !y.complete ==> !x.complete
                &&& y.overlays.len() == a.overlays.len() && y.complete ==> x == a
            },
            Statement::Expr(Expression::AssignOp { kind: AssignKind::AddAssign, lhs, rhs }) => {
                &&& ident(*lhs) != Some("."@) ==> tree.after_statement(t, s, at, a, b) == a
                &&& ident(*lhs) == Some("."@) ==> tree.after_statement(t, s, at, a, b) == tree.after_addition(t, a, b, *rhs)
            },
            _ => true,
        },
{
}

/// What a loop over a list adds is added in a branch of its own, the first arm of the loop.
pub proof fn a_loop_is_a_branch(tree: &ObjectTree, t: int, s: Statement, at: int, a: AnalysisView, b: BranchView, k: int)
    requires
        s is ForList,
        0 <= at <= usize::MAX,
        a.overlays.len() <= k < tree.after_statement(t, s, at, a, b).overlays.len(),
    ensures
        ({
            let f = tree.after_statement(t, s, at, a, b).overlays[k];
            &&& f.overlay.conditional
            &&& f.path.len() > b.steps.len()
            &&& f.path.take(b.steps.len() as int) == b.steps
            &&& f.path[b.steps.len() as int].at == at
            &&& f.path[b.steps.len() as int].arm == 0
        }),
{
    if let Statement::ForList(block) = s {
        let inner = crate::analysis::inner_branch(b, at, 0, "for loop iteration"@);
        assert(block.len() == block@.len());
        crate::branch_laws::what_a_block_adds_lies_inside(tree, t, block@, a, inner);
        let f = tree.after_statement(t, s, at, a, b).overlays[k];
        assert(inner.steps.is_prefix_of(f.path));
        let n = b.steps.len() as int;
        assert(f.path.subrange(0, inner.steps.len() as int)[n] == f.path[n]);
        assert(f.path.take(n) =~= b.steps) by {
            assert forall|i: int| 0 <= i < n implies f.path[i] == b.steps[i] by {
                assert(f.path.subrange(0, inner.steps.len() as int)[i] == inner.steps[i]);
            }
        }
    }
}

/// A name stands for its value, and so does a field of `src`; a plain text for itself.
pub proof fn names_and_fields_stand_for_values(tree: &ObjectTree, t: int, a: AnalysisView, b: BranchView, e: Expression)
    ensures
        match e {
            Expression::Base { term, follow } => {
                &&& follow@.len() == 0 && *term is Str ==> tree.string_or_var(t, a, b, e) == Some(term->Str_0@)
                &&& follow@.len() == 0 && *term is Ident ==> tree.string_or_var(t, a, b, e) == tree.value_in(
                    t,
                    a,
                    b,
                    term->Ident_0@,
                )
                &&& follow@.len() == 1 && *term is Ident && follow@[0] is Field && term->Ident_0@ == "src"@
                    ==> tree.string_or_var(t, a, b, e) == tree.value_in(t, a, b, follow@[0]->Field_0@)
                &&& follow@.len() == 1 && *term is Ident && term->Ident_0@ != "src"@ ==> tree.string_or_var(t, a, b, e) is None
                &&& follow@.len() > 1 ==> tree.string_or_var(t, a, b, e) is None
            },
            _ => tree.string_or_var(t, a, b, e) is None,
        },
{
}

/// A text with expressions in it is its parts in order: what stands before the first, and then of
/// each the text that it stands for, or a placeholder with the expression in words, and what
/// follows it.
pub proof fn a_text_takes_its_expressions_in_order(
    tree: &ObjectTree,
    t: int,
    a: AnalysisView,
    b: BranchView,
    prefix: Seq<char>,
    parts: Seq<(Option<Expression>, String)>,
    e: Option<Expression>,
    tail: String,
)
    ensures
        tree.interp_text(t, a, b, prefix, Seq::empty()) == prefix,
        tree.interp_text(t, a, b, prefix, parts.push((e, tail))) == tree.interp_text(t, a, b, prefix, parts) + (match e {
            Some(e) => match tree.string_or_var(t, a, b, e) {
                Some(s) => s,
                None => "["@ + summary(e) + "]"@,
            },
            None => ""@,
        }) + tail@,
{
    let all = parts.push((e, tail));
    assert(all.drop_last() =~= parts);
    assert(all[all.len() - 1] == (e, tail));
    let value = match e {
        Some(e) => tree.interp_value(t, a, b, e),
        None => ""@,
    };
    assert(tree.interp_text(t, a, b, prefix, all) == tree.interp_text(t, a, b, prefix, all.drop_last()) + value + tail@);
    if let Some(e) = e {
        assert(tree.interp_value(t, a, b, e) == (match tree.string_or_var(t, a, b, e) {
            Some(s) => s,
            None => placeholder(summary(e)),
        }));
    }
}

/// The code of a proc is that of the last definition which its type has, where that has any.
pub proof fn the_last_definition_counts(procs: Seq<TypeProc>, i: int, name: Seq<char>)
    requires
        0 <= i < procs.len(),
        procs[i].name@ == name,
        forall|j: int| 0 <= j < i ==> (#[trigger] procs[j]).name@ != name,
    ensures
        procs[i].bodies@.len() > 0 ==> own_code(procs, name) == procs[i].bodies@[procs[i].bodies@.len() - 1],
        procs[i].bodies@.len() == 0 ==> own_code(procs, name) is None,
    decreases i,
{
    if i > 0 {
        let rest = procs.skip(1);
        assert(procs[0].name@ != name);
        assert(rest[i - 1] == procs[i]);
        assert forall|j: int| 0 <= j < i - 1 implies (#[trigger] rest[j]).name@ != name by {
            assert(rest[j] == procs[j + 1]);
        }
        the_last_definition_counts(rest, i - 1, name);
    }
}

// ── What tells looks apart ───────────────────────────────────────────

proof fn lemma_assigned(log: Seq<crate::analysis::AssignedView>, var: Seq<char>)
    ensures
        assigned_names(log).contains(var) <==> exists|i: int| 0 <= i < log.len() && (#[trigger] log[i]).name == var,
        assigned_names(log).no_duplicates(),
    decreases log.len(),
{
    if log.len() > 0 {
        let front = log.drop_last();
        let before = assigned_names(front);
        let all = assigned_names(log);
        lemma_assigned(front, var);
        assert(log[log.len() - 1] == log.last());
        if before.contains(var) {
            let i = choose|i: int| 0 <= i < front.len() && (#[trigger] front[i]).name == var;
            assert(log[i] == front[i]);
            let k = choose|k: int| 0 <= k < before.len() && before[k] == var;
            assert(all[k] == var);
        }
        if exists|i: int| 0 <= i < log.len() && (#[trigger] log[i]).name == var {
            let i = choose|i: int| 0 <= i < log.len() && (#[trigger] log[i]).name == var;
            if i < front.len() {
                assert(front[i] == log[i]);
            } else if !before.contains(var) {
                assert(all[before.len() as int] == var);
            }
        }
        if all.contains(var) && !before.contains(var) {
            let k = choose|k: int| 0 <= k < all.len() && all[k] == var;
            if k < before.len() {
                assert(before[k] == var);
            }
        }
    }
}

proof fn lemma_some_name(found: Seq<FoundView>, pick: spec_fn(FoundView) -> bool)
    ensures
        names_where(found, pick).len() > 0 <==> exists|k: int| 0 <= k < found.len() && pick(#[trigger] found[k]),
    decreases found.len(),
{
    if found.len() > 0 {
        let front = found.drop_last();
        lemma_some_name(front, pick);
        assert(found[found.len() - 1] == found.last());
        if names_where(front, pick).len() > 0 {
            let k = choose|k: int| 0 <= k < front.len() && pick(#[trigger] front[k]);
            assert(found[k] == front[k]);
        }
        if exists|k: int| 0 <= k < found.len() && pick(#[trigger] found[k]) {
            let k = choose|k: int| 0 <= k < found.len() && pick(#[trigger] found[k]);
            if k < front.len() {
                assert(front[k] == found[k]);
            }
        }
    }
}

/// A variable tells looks apart where branches give it at least two different texts and some
/// overlay depends on it.
pub proof fn variables_tell_looks_apart(a: AnalysisView, var: Seq<char>)
    ensures
        state_vars(a).contains(var) <==> {
            &&& exists|i: int, j: int|
                0 <= i < a.branched_vars.len() && 0 <= j < a.branched_vars.len() && (#[trigger] a.branched_vars[i]).name == var
                    && (#[trigger] a.branched_vars[j]).name == var && a.branched_vars[i].value != a.branched_vars[j].value
            &&& exists|k: int| 0 <= k < a.overlays.len() && uses_var((#[trigger] a.overlays[k]).overlay.state_name, var)
        },
{
    let log = a.branched_vars;
    let p = crate::overlays::tells_apart(a);
    let needs = crate::overlays::needs(var);
    lemma_assigned(log, var);
    crate::extraction_laws::lemma_filtered(assigned_names(log), p, var);
    lemma_some_name(a.overlays, needs);
    if exists|k: int| 0 <= k < a.overlays.len() && needs(#[trigger] a.overlays[k]) {
        let k = choose|k: int| 0 <= k < a.overlays.len() && needs(#[trigger] a.overlays[k]);
        assert(uses_var(a.overlays[k].overlay.state_name, var));
    }
    if exists|k: int| 0 <= k < a.overlays.len() && uses_var((#[trigger] a.overlays[k]).overlay.state_name, var) {
        let k = choose|k: int| 0 <= k < a.overlays.len() && uses_var((#[trigger] a.overlays[k]).overlay.state_name, var);
        assert(needs(a.overlays[k]));
    }
    if branches_differ(log, var) {
        let (i, j) = choose|i: int, j: int|
            0 <= i < log.len() && 0 <= j < log.len() && (#[trigger] log[i]).name == var && (#[trigger] log[j]).name == var
                && log[i].value != log[j].value;
        assert(log[i].name == var);
    }
}

/// Of several variables the one counts whose placeholder the most overlays hold.
pub proof fn the_most_referenced_counts(a: AnalysisView, vars: Seq<Seq<char>>, i: int)
    requires
        0 <= i < vars.len(),
    ensures
        ({
            let best = most_referenced(a, vars);
            &&& vars.contains(best)
            &&& a.overlays.filter(
                |f: FoundView| contains_text(f.overlay.state_name, "["@ + vars[i] + "]"@),
            ).len() <= a.overlays.filter(|f: FoundView| contains_text(f.overlay.state_name, "["@ + best + "]"@)).len()
        }),
    decreases vars.len(),
{
    let best = most_referenced(a, vars);
    lemma_references(a, vars[i]);
    lemma_references(a, best);
    if vars.len() == 1 {
        assert(vars[0] == best);
    } else {
        let front = vars.drop_last();
        let before = most_referenced(a, front);
        let k = if i < front.len() { i } else { 0 };
        the_most_referenced_counts(a, front, k);
        lemma_references(a, front[k]);
        lemma_references(a, before);
        lemma_references(a, vars.last());
        let m = choose|m: int| 0 <= m < front.len() && front[m] == before;
        assert(vars[m] == before);
        assert(vars[vars.len() - 1] == vars.last());
        assert(i < front.len() ==> vars[i] == front[i]);
    }
}

proof fn lemma_references(a: AnalysisView, var: Seq<char>)
    ensures
        crate::overlays::references(a, var) == a.overlays.filter(
            |f: FoundView| contains_text(f.overlay.state_name, "["@ + var + "]"@),
        ).len(),
{
    lemma_names_filtered(
        a.overlays,
        crate::overlays::holds_placeholder(var),
        |f: FoundView| contains_text(f.overlay.state_name, "["@ + var + "]"@),
    );
}

/// A placeholder names a variable where it is the variable alone, or begins or ends with it or
/// holds it as a word of its own; a longer word does not count.
pub proof fn a_variable_is_named_as_a_word(var: Seq<char>, rest: Seq<char>)
    ensures
        word_in(var, var),
        word_in(var + " "@ + rest, var),
        word_in(rest + (" "@ + var), var),
        var.len() > 0 && rest.len() > 0 && !rest.contains(' ') && !var.contains(' ') ==> !word_in(var + rest, var) && !word_in(
            rest + var,
            var,
        ),
{
    reveal_strlit(" ");
    let first = var + " "@ + rest;
    assert(first.take((var + " "@).len() as int) =~= var + " "@);
    let last = rest + (" "@ + var);
    assert(last.skip(last.len() - (" "@ + var).len()) =~= " "@ + var);
    if rest.len() > 0 && !rest.contains(' ') && !var.contains(' ') {
        lemma_one_word(var + rest, var);
        lemma_one_word(rest + var, var);
        assert forall|i: int| 0 <= i < (var + rest).len() implies (var + rest)[i] != ' ' by {
            if i < var.len() {
                assert(var.contains(var[i]));
            } else {
                assert(rest.contains(rest[i - var.len()]));
            }
        }
        assert forall|i: int| 0 <= i < (rest + var).len() implies (rest + var)[i] != ' ' by {
            if i < rest.len() {
                assert(rest.contains(rest[i]));
            } else {
                assert(var.contains(var[i - rest.len()]));
            }
        }
    }
}

proof fn lemma_one_word(inner: Seq<char>, var: Seq<char>)
    ensures
        (forall|i: int| 0 <= i < inner.len() ==> inner[i] != ' ') && inner != var ==> !word_in(inner, var),
{
    reveal_strlit(" ");
    if (forall|i: int| 0 <= i < inner.len() ==> inner[i] != ' ') && inner != var {
        let head = var + " "@;
        if starts_with(inner, head) {
            assert(inner.take(head.len() as int)[var.len() as int] == inner[var.len() as int]);
        }
        let middle = " "@ + var + " "@;
        if contains_text(inner, middle) {
            let at = choose|at: int| stands_at(inner, middle, at);
            assert(inner.subrange(at, at + middle.len())[0] == inner[at]);
        }
        let tail = " "@ + var;
        if crate::text::ends_with(inner, tail) {
            assert(inner.skip(inner.len() - tail.len())[0] == inner[inner.len() - tail.len()]);
        }
    }
}

/// A name with one placeholder that a type gives a text for is, for that type, the name with the
/// text in its place; where the type gives none, it stays as it is.
pub proof fn a_name_takes_the_types_own_text(
    tree: &ObjectTree,
    t: int,
    before: Seq<char>,
    inner: Seq<char>,
    after: Seq<char>,
)
    requires
        !before.contains('['),
        !inner.contains(']'),
        !inner.contains('.'),
        !after.contains('['),
    ensures
        ({
            let name = before + seq!['['] + inner + seq![']'] + after;
            match tree.text_var(t, inner) {
                Some(s) => tree.pattern_by(t, name) == Some(before + s + after),
                None => tree.pattern_by(t, name) is None,
            }
        }),
{
    let name = before + seq!['['] + inner + seq![']'] + after;
    crate::extraction_laws::lemma_one_placeholder(before, inner, after);
    a_placeholder_may_name_its_owner(tree, t, Seq::empty(), inner);
    let p = crate::patterns::parsed(name);
    assert(p.parts =~= seq![(before, inner)]);
    assert(p.parts.drop_last() =~= Seq::empty());
    assert(tree.filled_by(t, p.parts.drop_last()) =~= Seq::<char>::empty());
    assert(p.parts.last() == (before, inner));
    match tree.text_var(t, inner) {
        Some(s) => {
            assert(tree.field_value(t, p.parts[0].1) is Some);
            assert(tree.filled_by(t, p.parts) + p.rest =~= before + s + after);
        },
        None => {
            assert forall|k: int| 0 <= k < p.parts.len() implies tree.field_value(t, (#[trigger] p.parts[k]).1) is None by {
                assert(k == 0);
            }
        },
    }
}

} // verus!
