//! What holds of the builder: what each tool does to the scopes, and what it answers.

use crate::builder::{
    call_outcome, commit_outcome, discard_outcome, edit_outcome, info_outcome, init_outcome, list_outcome, passes, passing,
    plain_lines, scope_prefab, scope_value, set_line, set_lines, set_outcome, shown_type, sub_type, validate_outcome, var_line,
    var_lines, where_outcome, Reply, ScopeView,
};
use crate::display::{default_text, dm_text, inferred_type, last_part, whole_text};
use crate::json::{json_text, member, JsonView};
use crate::names::{in_order, names_can_be_sorted};
use crate::objtree::ObjectTree;
use crate::text::{contains_text, dec, joined, lowercase, starts_with};
use vstd::prelude::*;

verus! {

// ── Tools ────────────────────────────────────────────────────────────

/// Each tool goes by its own name, and a name that is none of theirs is refused.
pub proof fn tools_go_by_their_names(
    tree: &ObjectTree,
    stack: Seq<ScopeView>,
    args: Seq<(Seq<char>, JsonView)>,
    other: Seq<char>,
)
    requires
        !seq![
            "builder_init"@,
            "list_vars"@,
            "var_info"@,
            "set_var"@,
            "edit"@,
            "validate"@,
            "commit"@,
            "discard"@,
            "where_am_i"@,
        ].contains(other),
    ensures
        call_outcome(tree, stack, "builder_init"@, args) == init_outcome(tree, stack, args),
        call_outcome(tree, stack, "list_vars"@, args) == list_outcome(tree, stack, args),
        call_outcome(tree, stack, "var_info"@, args) == info_outcome(tree, stack, args),
        call_outcome(tree, stack, "set_var"@, args) == set_outcome(tree, stack, args),
        call_outcome(tree, stack, "edit"@, args) == edit_outcome(tree, stack, args),
        call_outcome(tree, stack, "validate"@, args) == validate_outcome(tree, stack),
        call_outcome(tree, stack, "commit"@, args) == commit_outcome(tree, stack),
        call_outcome(tree, stack, "discard"@, args) == discard_outcome(stack),
        call_outcome(tree, stack, "where_am_i"@, args) == where_outcome(stack),
        call_outcome(tree, stack, other, args) == (Err::<Reply, Seq<char>>("Unknown builder tool: "@ + other), stack),
{
    reveal_strlit("builder_init");
    reveal_strlit("list_vars");
    reveal_strlit("var_info");
    reveal_strlit("set_var");
    reveal_strlit("edit");
    reveal_strlit("validate");
    reveal_strlit("commit");
    reveal_strlit("discard");
    reveal_strlit("where_am_i");
    assert("builder_init"@.len() == 12 && "list_vars"@.len() == 9 && "var_info"@.len() == 8 && "set_var"@.len() == 7);
    assert("edit"@.len() == 4 && "validate"@.len() == 8 && "commit"@.len() == 6 && "discard"@.len() == 7);
    assert("where_am_i"@.len() == 10);
    assert("var_info"@[3] == '_' && "validate"@[3] == 'i' && "set_var"@[0] == 's' && "discard"@[0] == 'd');
    let names = seq![
        "builder_init"@,
        "list_vars"@,
        "var_info"@,
        "set_var"@,
        "edit"@,
        "validate"@,
        "commit"@,
        "discard"@,
        "where_am_i"@,
    ];
    assert(names[0] == "builder_init"@ && names[1] == "list_vars"@ && names[2] == "var_info"@);
    assert(names[3] == "set_var"@ && names[4] == "edit"@ && names[5] == "validate"@);
    assert(names[6] == "commit"@ && names[7] == "discard"@ && names[8] == "where_am_i"@);
}

// ── Scopes ───────────────────────────────────────────────────────────

/// A builder starts with one scope for the type that is named, with nothing set in it, and says so;
/// one that is under way, a missing type and a type that is not in the tree are refused.
pub proof fn a_builder_starts_empty(tree: &ObjectTree, stack: Seq<ScopeView>, args: Seq<(Seq<char>, JsonView)>, path: Seq<char>)
    requires
        member(args, "type_path"@) == Some(JsonView::Str(path)),
    ensures
        ({
            let (reply, after) = init_outcome(tree, stack, args);
            &&& reply is Ok <==> stack.len() == 0 && tree.type_at(path) is Some
            &&& reply is Err ==> after == stack
            &&& reply is Ok ==> {
                &&& after.len() == 1
                &&& after[0].type_path == path
                &&& after[0].vars == Map::<Seq<char>, JsonView>::empty()
                &&& after[0].parent_var is None
                &&& after[0].breadcrumb == last_part(path)
                &&& reply->Ok_0.scope_changed
                &&& starts_with(
                    reply->Ok_0.text,
                    "Builder initialized for: "@ + path + "\n"@ + dec(
                        tree.settable_names(tree.type_at(path).unwrap()).len() as int,
                    ),
                )
            }
            &&& stack.len() == 0 && tree.type_at(path) is None ==> reply == Err::<Reply, Seq<char>>(
                "Type '"@ + path + "' not found in the object tree"@,
            )
        }),
{
    if stack.len() == 0 && tree.type_at(path) is Some {
        let head = "Builder initialized for: "@ + path + "\n"@ + dec(
            tree.settable_names(tree.type_at(path).unwrap()).len() as int,
        );
        let text = init_outcome(tree, stack, args).0->Ok_0.text;
        assert(text.take(head.len() as int) =~= head);
    }
}

/// Setting a variable gives it the value in the current scope and changes nothing else there, nor
/// in any other scope. It is refused where the type has no such variable, and where the name or
/// the value is missing.
pub proof fn setting_changes_one_variable(
    tree: &ObjectTree,
    stack: Seq<ScopeView>,
    args: Seq<(Seq<char>, JsonView)>,
    name: Seq<char>,
    value: JsonView,
    other: Seq<char>,
    i: int,
)
    requires
        stack.len() > 0,
        member(args, "name"@) == Some(JsonView::Str(name)),
        member(args, "value"@) == Some(value),
        other != name,
    ensures
        ({
            let (reply, after) = set_outcome(tree, stack, args);
            let t = tree.type_at(stack.last().type_path);
            &&& reply is Ok <==> t is Some && tree.nearest(t.unwrap(), name) is Some
            &&& reply is Err ==> after == stack
            &&& after.len() == stack.len()
            &&& 0 <= i < stack.len() - 1 ==> after[i] == stack[i]
            &&& reply is Ok ==> {
                let scope = after.last();
                &&& scope.vars.contains_key(name) && scope.vars[name] == value
                &&& scope.vars.contains_key(other) == stack.last().vars.contains_key(other)
                &&& stack.last().vars.contains_key(other) ==> scope.vars[other] == stack.last().vars[other]
                &&& scope.type_path == stack.last().type_path
                &&& scope.parent_var == stack.last().parent_var
                &&& scope.breadcrumb == stack.last().breadcrumb
                &&& !reply->Ok_0.scope_changed
                &&& starts_with(
                    reply->Ok_0.text,
                    "Set "@ + last_part(scope.type_path) + "."@ + name + " = "@ + json_text(value) + "\n"@,
                )
            }
        }),
{
    let t = tree.type_at(stack.last().type_path);
    if t is Some && tree.nearest(t.unwrap(), name) is Some {
        let head = "Set "@ + last_part(stack.last().type_path) + "."@ + name + " = "@ + json_text(value) + "\n"@;
        let text = set_outcome(tree, stack, args).0->Ok_0.text;
        assert(text.take(head.len() as int) =~= head);
    }
}

/// The type of a sub-datum is the one that is given, whatever is declared; where none is given, the
/// declared one; and where there is neither, it is refused, as is a type that is not in the tree.
pub proof fn a_given_type_comes_first(tree: &ObjectTree, t: int, name: Seq<char>, given: Seq<char>)
    ensures
        tree.type_at(given) is Some ==> sub_type(tree, t, name, Some(given)) == Ok::<Seq<char>, Seq<char>>(given),
        tree.type_at(given) is None ==> sub_type(tree, t, name, Some(given)) is Err,
        match tree.declared_type(t, name) {
            Some(d) if d.len() > 0 => {
                let path = "/"@ + joined(d, "/"@);
                &&& tree.type_at(path) is Some ==> sub_type(tree, t, name, None) == Ok::<Seq<char>, Seq<char>>(path)
                &&& tree.type_at(path) is None ==> sub_type(tree, t, name, None) is Err
            },
            _ => sub_type(tree, t, name, None) is Err,
        },
{
}

/// Editing a variable opens a scope above the current one, for the type of the sub-datum, with
/// nothing set in it, which knows the variable that it is for and the way to it; the scopes below
/// stay as they are.
pub proof fn editing_opens_a_scope(
    tree: &ObjectTree,
    stack: Seq<ScopeView>,
    args: Seq<(Seq<char>, JsonView)>,
    name: Seq<char>,
    path: Seq<char>,
    i: int,
)
    requires
        stack.len() > 0,
        tree.type_at(stack.last().type_path) is Some,
        member(args, "var_name"@) == Some(JsonView::Str(name)),
        member(args, "type_path"@) == Some(JsonView::Str(path)),
        tree.type_at(path) is Some,
        0 <= i < stack.len(),
    ensures
        ({
            let (reply, after) = edit_outcome(tree, stack, args);
            &&& reply is Ok && reply->Ok_0.scope_changed
            &&& after.len() == stack.len() + 1
            &&& after[i] == stack[i]
            &&& after.last().type_path == path
            &&& after.last().vars == Map::<Seq<char>, JsonView>::empty()
            &&& after.last().parent_var == Some(name)
            &&& after.last().breadcrumb == stack.last().breadcrumb + " > "@ + name
        }),
{
    a_given_type_comes_first(tree, tree.type_at(stack.last().type_path).unwrap(), name, path);
}

proof fn lemma_members(scope: ScopeView, names: Seq<Seq<char>>, i: int)
    requires
        names.no_duplicates(),
        0 <= i < names.len(),
    ensures
        member(names.map_values(|n: Seq<char>| (n, scope.vars[n])), names[i]) == Some(scope.vars[names[i]]),
    decreases i,
{
    let f = |n: Seq<char>| (n, scope.vars[n]);
    let o = names.map_values(f);
    if i > 0 {
        let rest = names.skip(1);
        assert(o.skip(1) =~= rest.map_values(f));
        assert(rest[i - 1] == names[i]);
        assert(names[0] != names[i]);
        lemma_members(scope, rest, i - 1);
    }
}

proof fn lemma_order_is_distinct(names: Seq<Seq<char>>)
    requires
        in_order(names),
    ensures
        names.no_duplicates(),
{
    assert forall|i: int, j: int| 0 <= i < names.len() && 0 <= j < names.len() && i != j implies names[i] != names[j] by {
        crate::text::text_less_irreflexive(names[i]);
        if i < j {
            assert(crate::text::text_less(names[i], names[j]));
        } else {
            assert(crate::text::text_less(names[j], names[i]));
        }
    }
}

/// A scope that is committed becomes a value that names its type and holds each variable that was
/// set, under its name and with its value, in the order of the names.
pub proof fn a_committed_scope_keeps_its_variables(scope: ScopeView, name: Seq<char>)
    requires
        scope.vars.dom().finite(),
    ensures
        ({
            let v = scope_value(scope);
            &&& v is Object
            &&& member(v->Object_0, "_type"@) == Some(JsonView::Str(scope.type_path))
            &&& match member(v->Object_0, "_vars"@) {
                Some(JsonView::Object(vars)) => {
                    &&& scope.vars.contains_key(name) ==> member(vars, name) == Some(scope.vars[name])
                    &&& !scope.vars.contains_key(name) ==> member(vars, name) is None
                    &&& in_order(vars.map_values(|e: (Seq<char>, JsonView)| e.0))
                },
                _ => false,
            }
        }),
{
    reveal_strlit("_type");
    reveal_strlit("_vars");
    assert("_type"@[1] == 't' && "_vars"@[1] == 'v');
    let o = scope_value(scope)->Object_0;
    reveal_with_fuel(member, 3);
    assert(o.skip(1)[0] == o[1]);
    names_can_be_sorted(scope.vars.dom());
    let names = scope.names();
    let vars = scope.members();
    lemma_order_is_distinct(names);
    assert(vars.map_values(|e: (Seq<char>, JsonView)| e.0) =~= names);
    if scope.vars.contains_key(name) {
        assert(names.to_set().contains(name));
        let i = choose|i: int| 0 <= i < names.len() && names[i] == name;
        lemma_members(scope, names, i);
    } else {
        assert forall|i: int| 0 <= i < vars.len() implies (#[trigger] vars[i]).0 != name by {
            assert(names.to_set().contains(names[i]));
        }
        lemma_no_member(vars, name);
    }
}

proof fn lemma_no_member(o: Seq<(Seq<char>, JsonView)>, name: Seq<char>)
    requires
        forall|i: int| 0 <= i < o.len() ==> (#[trigger] o[i]).0 != name,
    ensures
        member(o, name) is None,
    decreases o.len(),
{
    if o.len() > 0 {
        let rest = o.skip(1);
        assert forall|i: int| 0 <= i < rest.len() implies (#[trigger] rest[i]).0 != name by {
            assert(rest[i] == o[i + 1]);
        }
        lemma_no_member(rest, name);
    }
}

/// Committing closes the current scope. The last one gives the prefab that was built; any other
/// gives its value to the variable of the scope below that it was opened for, where nothing else
/// changes, and the scopes further down stay as they are.
pub proof fn committing_closes_one_scope(tree: &ObjectTree, stack: Seq<ScopeView>, other: Seq<char>, i: int)
    requires
        stack.len() > 0,
    ensures
        ({
            let (reply, after) = commit_outcome(tree, stack);
            let scope = stack.last();
            &&& after.len() == stack.len() - 1
            &&& 0 <= i < stack.len() - 2 ==> after[i] == stack[i]
            &&& stack.len() == 1 && tree.type_at(scope.type_path) is Some ==> {
                &&& reply is Ok && reply->Ok_0.scope_changed
                &&& starts_with(
                    reply->Ok_0.text,
                    "Prefab committed:\n  "@ + scope_prefab(tree, tree.type_at(scope.type_path).unwrap(), scope),
                )
            }
            &&& stack.len() > 1 && scope.parent_var is Some ==> {
                let var = scope.parent_var.unwrap();
                let below = stack[stack.len() - 2];
                &&& reply is Ok && reply->Ok_0.scope_changed
                &&& after.last().vars.contains_key(var) && after.last().vars[var] == scope_value(scope)
                &&& other != var ==> after.last().vars.contains_key(other) == below.vars.contains_key(other)
                &&& other != var && below.vars.contains_key(other) ==> after.last().vars[other] == below.vars[other]
                &&& after.last().type_path == below.type_path
                &&& after.last().breadcrumb == below.breadcrumb
                &&& after.last().parent_var == below.parent_var
            }
        }),
{
    let scope = stack.last();
    if stack.len() == 1 && tree.type_at(scope.type_path) is Some {
        let head = "Prefab committed:\n  "@ + scope_prefab(tree, tree.type_at(scope.type_path).unwrap(), scope);
        let text = commit_outcome(tree, stack).0->Ok_0.text;
        assert(text.take(head.len() as int) =~= head);
    }
}

/// Discarding closes the current scope and leaves the others, their variables included, as they
/// are.
pub proof fn discarding_closes_one_scope(stack: Seq<ScopeView>, i: int)
    requires
        stack.len() > 0,
    ensures
        ({
            let (reply, after) = discard_outcome(stack);
            &&& reply is Ok && reply->Ok_0.scope_changed
            &&& after.len() == stack.len() - 1
            &&& 0 <= i < stack.len() - 1 ==> after[i] == stack[i]
        }),
        discard_outcome(Seq::empty()).0 is Err,
{
}

/// A scope is written as its type, with the variables in braces whose written value is not that of
/// the default, in the order of their names; where there are none, without braces.
pub proof fn a_scope_is_written_with_what_differs(tree: &ObjectTree, t: int, scope: ScopeView)
    ensures
        ({
            let names = scope.names().filter(
                |n: Seq<char>|
                    dm_text(scope.vars[n]) != (match tree.default_value(t, n) {
                        Some(c) => whole_text(c),
                        None => "null"@,
                    }),
            );
            &&& names.len() == 0 ==> scope_prefab(tree, t, scope) == scope.type_path
            &&& names.len() > 0 ==> scope_prefab(tree, t, scope) == scope.type_path + ("{"@ + joined(
                Seq::new(names.len(), |i: int| names[i] + " = "@ + dm_text(scope.vars[names[i]])),
                "; "@,
            ) + "}"@)
        }),
{
    let p = |n: Seq<char>|
        dm_text(scope.vars[n]) != (match tree.default_value(t, n) {
            Some(c) => whole_text(c),
            None => "null"@,
        });
    let names = scope.names().filter(p);
    crate::value_laws::overrides_differ_from_defaults(tree, t, scope.names(), scope.vars);
    let pairs = names.map_values(|n: Seq<char>| (n, dm_text(scope.vars[n])));
    crate::value_laws::overrides_are_written_in_braces(pairs);
    assert(Seq::new(pairs.len(), |i: int| pairs[i].0 + " = "@ + pairs[i].1) =~= Seq::new(
        names.len(),
        |i: int| names[i] + " = "@ + dm_text(scope.vars[names[i]]),
    ));
    if names.len() == 0 {
        assert(scope_prefab(tree, t, scope) =~= scope.type_path);
    }
}

// ── Answers ──────────────────────────────────────────────────────────

proof fn lemma_mapped(s: Seq<Seq<char>>, f: spec_fn(Seq<char>) -> Seq<char>)
    requires
        s.len() > 0,
    ensures
        s.map_values(f).flatten() == s.drop_last().map_values(f).flatten() + f(s.last()),
{
    let front = s.drop_last().map_values(f);
    assert(s.map_values(f) =~= front.push(f(s.last())));
    front.lemma_flatten_push(f(s.last()));
}

/// The list of variables has a line for each variable whose name holds the filter, whatever the
/// case, in order, and counts them.
pub proof fn listed_variables_pass_the_filter(
    tree: &ObjectTree,
    t: int,
    scope: ScopeView,
    filter: Option<Seq<char>>,
    names: Seq<Seq<char>>,
)
    ensures
        ({
            let some = names.filter(
                |n: Seq<char>| filter is None || contains_text(lowercase(n), lowercase(filter.unwrap())),
            );
            &&& passing(filter, names) == some.len()
            &&& var_lines(tree, t, scope, filter, names) == some.map_values(|n: Seq<char>| var_line(tree, t, scope, n)).flatten()
        }),
    decreases names.len(),
{
    reveal(Seq::filter);
    let p = |n: Seq<char>| filter is None || contains_text(lowercase(n), lowercase(filter.unwrap()));
    let f = |n: Seq<char>| var_line(tree, t, scope, n);
    if names.len() > 0 {
        let front = names.drop_last();
        listed_variables_pass_the_filter(tree, t, scope, filter, front);
        assert(p(names.last()) == passes(names.last(), filter));
        if p(names.last()) {
            let some = names.filter(p);
            assert(some == front.filter(p).push(names.last()));
            assert(some.drop_last() =~= front.filter(p));
            lemma_mapped(some, f);
        }
    }
}

/// The line of a variable: its name, a mark where it is set in the scope, its default, and the type
/// that gives it where that is not the scope's own.
pub proof fn a_variable_has_its_line(tree: &ObjectTree, t: int, scope: ScopeView, name: Seq<char>)
    requires
        tree.settable_view(t, name) is Some,
    ensures
        ({
            let mark = if scope.vars.contains_key(name) { " ✓"@ } else { ""@ };
            let owner = tree.types@[tree.nearest(t, name).unwrap().0].path@;
            let from = if owner == scope.type_path { ""@ } else { " (from "@ + last_part(owner) + ")"@ };
            var_line(tree, t, scope, name) == "  "@ + name + mark + " = "@ + default_text(tree, t, name) + from + "\n"@
        }),
{
}

/// The type of a variable is shown as it is declared, and where it is not, as its default suggests.
pub proof fn a_declared_type_is_shown_first(tree: &ObjectTree, t: int, name: Seq<char>)
    ensures
        match tree.declared_type(t, name) {
            Some(d) if d.len() > 0 => shown_type(tree, t, name) == "/"@ + joined(d, "/"@),
            _ => shown_type(tree, t, name) == inferred_type(tree.default_value(t, name)),
        },
{
}

/// A variable is shown with its default, with its value where it is set in the scope, and with its
/// type.
pub proof fn a_variable_is_shown(
    tree: &ObjectTree,
    stack: Seq<ScopeView>,
    args: Seq<(Seq<char>, JsonView)>,
    name: Seq<char>,
    t: int,
)
    requires
        stack.len() > 0,
        member(args, "name"@) == Some(JsonView::Str(name)),
        tree.type_at(stack.last().type_path) == Some(t),
    ensures
        ({
            let (reply, after) = info_outcome(tree, stack, args);
            let scope = stack.last();
            let head = "Variable: "@ + last_part(scope.type_path) + "."@ + name + "\n\n"@ + "Default: "@ + default_text(
                tree,
                t,
                name,
            ) + "\n"@;
            let kind = "Type: "@ + shown_type(tree, t, name) + "\n"@;
            &&& after == stack
            &&& reply is Ok && !reply->Ok_0.scope_changed
            &&& scope.vars.contains_key(name) ==> starts_with(
                reply->Ok_0.text,
                head + ("Current: "@ + json_text(scope.vars[name]) + " (set in this scope)\n"@) + kind,
            )
            &&& !scope.vars.contains_key(name) ==> starts_with(reply->Ok_0.text, head + kind)
        }),
{
    let scope = stack.last();
    let head = "Variable: "@ + last_part(scope.type_path) + "."@ + name + "\n\n"@ + "Default: "@ + default_text(tree, t, name)
        + "\n"@;
    let kind = "Type: "@ + shown_type(tree, t, name) + "\n"@;
    let text = info_outcome(tree, stack, args).0->Ok_0.text;
    reveal_strlit("");
    if scope.vars.contains_key(name) {
        let all = head + ("Current: "@ + json_text(scope.vars[name]) + " (set in this scope)\n"@) + kind;
        assert(text.take(all.len() as int) =~= all);
    } else {
        let all = head + kind;
        assert(text.take(all.len() as int) =~= all);
    }
}

/// The variables that were set are listed by name, each with its value.
pub proof fn set_variables_are_listed(names: Seq<Seq<char>>, vars: Map<Seq<char>, JsonView>)
    ensures
        plain_lines(names, vars) == names.map_values(
            |n: Seq<char>| "  "@ + n + " = "@ + json_text(vars[n]) + "\n"@,
        ).flatten(),
    decreases names.len(),
{
    let f = |n: Seq<char>| "  "@ + n + " = "@ + json_text(vars[n]) + "\n"@;
    if names.len() > 0 {
        set_variables_are_listed(names.drop_last(), vars);
        lemma_mapped(names, f);
        assert(plain_lines(names, vars) =~= plain_lines(names.drop_last(), vars) + f(names.last()));
    }
}

/// Validation lists the variables that were set, by name, each with its value and whether that is
/// other than the default.
pub proof fn validation_tells_what_overrides(tree: &ObjectTree, t: int, names: Seq<Seq<char>>, vars: Map<Seq<char>, JsonView>)
    ensures
        set_lines(tree, t, names, vars) == names.map_values(
            |n: Seq<char>|
                "  "@ + n + " = "@ + json_text(vars[n]) + " "@ + (if json_text(vars[n]) == (match tree.default_value(t, n) {
                    Some(c) => whole_text(c),
                    None => "null"@,
                }) {
                    "(same as default — will be omitted)"@
                } else {
                    "(overrides default)"@
                }) + "\n"@,
        ).flatten(),
    decreases names.len(),
{
    let f = |n: Seq<char>|
        "  "@ + n + " = "@ + json_text(vars[n]) + " "@ + (if json_text(vars[n]) == (match tree.default_value(t, n) {
            Some(c) => whole_text(c),
            None => "null"@,
        }) {
            "(same as default — will be omitted)"@
        } else {
            "(overrides default)"@
        }) + "\n"@;
    if names.len() > 0 {
        validation_tells_what_overrides(tree, t, names.drop_last(), vars);
        lemma_mapped(names, f);
        assert(set_line(tree, t, names.last(), vars[names.last()]) == f(names.last()));
    }
}

/// The place is told by the way to it, its type, and how many scopes are open.
pub proof fn the_place_is_told(stack: Seq<ScopeView>)
    requires
        stack.len() > 0,
    ensures
        ({
            let (reply, after) = where_outcome(stack);
            &&& after == stack
            &&& reply is Ok && !reply->Ok_0.scope_changed
            &&& starts_with(
                reply->Ok_0.text,
                "Current scope: "@ + stack.last().breadcrumb + "\n"@ + "Type: "@ + stack.last().type_path + "\n"@ + "Depth: "@
                    + dec(stack.len() as int) + "\n"@,
            )
        }),
{
    let head = "Current scope: "@ + stack.last().breadcrumb + "\n"@ + "Type: "@ + stack.last().type_path + "\n"@ + "Depth: "@
        + dec(stack.len() as int) + "\n"@;
    let text = where_outcome(stack).0->Ok_0.text;
    assert(text.take(head.len() as int) =~= head);
}

} // verus!
