//! Prefab builder with scope-stack semantics.
//!
//! - `builder_init(type_path)` pushes the root scope for a new prefab.
//! - `list_vars` and `var_info` show the variables.
//! - `set_var(name, value)` sets one.
//! - `edit(var_name)` pushes a scope for a datum-typed variable.
//! - `validate()` shows what would be committed.
//! - `commit()` pops the scope and folds it into its parent.
//! - `discard()` pops the scope.

use crate::display::{
    braces, can_infer, can_show, compute_overrides, constant_text, default_shows, default_text, format_constant,
    infer_type_from_constant, inferred_type, last_part, overrides, short_name, show_default, var_map, whole_default,
    write_braces, write_default,
};
use crate::json::{
    as_text, find_member, json_display, json_text, member, member_views, object_view, text_member, JsonValue, JsonView,
};
use crate::names::{sorted_names, NameTable};
use crate::objtree::{settable, ObjectTree, SettableVar};
use crate::prefab::opt_text;
use crate::text::{
    contains_text, dec, has_prefix, has_text, join_texts, joined, lowercase, same_text, starts_with, to_lowercase,
    usize_text,
};
use vstd::prelude::*;

verus! {

// ── Types ────────────────────────────────────────────────────────────

/// Result of a builder tool call.
pub struct BuilderResponse {
    /// The text for the client.
    pub text: String,
    /// Whether the call changed the scope, and with it the tool list.
    pub scope_changed: bool,
}

/// What a [`BuilderResponse`] holds.
#[verifier::ext_equal]
pub struct Reply {
    pub text: Seq<char>,
    pub scope_changed: bool,
}

/// What a builder tool call answers.
pub open spec fn answer(r: Result<BuilderResponse, String>) -> Result<Reply, Seq<char>> {
    match r {
        Ok(b) => Ok(Reply { text: b.text@, scope_changed: b.scope_changed }),
        Err(e) => Err(e@),
    }
}

/// One level of the builder stack.
pub struct BuilderScope {
    /// The type being built.
    pub type_path: String,
    /// The variables that were set.
    pub vars: NameTable<JsonValue>,
    /// The parent's variable that is being edited, for a sub-scope.
    pub parent_var: Option<String>,
    /// Where we are, such as `airlock > electronics`.
    pub breadcrumb: String,
}

/// What a [`BuilderScope`] holds.
#[verifier::ext_equal]
pub struct ScopeView {
    pub type_path: Seq<char>,
    pub vars: Map<Seq<char>, JsonView>,
    pub parent_var: Option<Seq<char>>,
    pub breadcrumb: Seq<char>,
}

impl View for BuilderScope {
    type V = ScopeView;

    open spec fn view(&self) -> ScopeView {
        ScopeView {
            type_path: self.type_path@,
            vars: var_map(self.vars@),
            parent_var: opt_text(self.parent_var),
            breadcrumb: self.breadcrumb@,
        }
    }
}

impl ScopeView {
    /// The names of the variables that were set, in order.
    pub open spec fn names(self) -> Seq<Seq<char>> {
        sorted_names(self.vars.dom())
    }

    /// The members of the scope as a JSON object has them.
    pub open spec fn members(self) -> Seq<(Seq<char>, JsonView)> {
        self.names().map_values(|n: Seq<char>| (n, self.vars[n]))
    }
}

impl BuilderScope {
    /// The table of a scope lists the names of the scope.
    proof fn names_agree(&self)
        requires
            self.vars.wf(),
        ensures
            self.vars.names() == self@.names(),
            forall|n: Seq<char>| #[trigger] self.vars@.contains_key(n) <==> self@.vars.contains_key(n),
            forall|n: Seq<char>| self.vars@.contains_key(n) ==> #[trigger] self@.vars[n] == self.vars@[n]@,
            self@.vars.dom() == self.vars@.dom(),
    {
        self.vars.names_hold();
        assert(self@.vars.dom() =~= self.vars@.dom());
    }
}

/// The scope stack.
pub struct BuilderScopeStack {
    stack: Vec<BuilderScope>,
}

impl View for BuilderScopeStack {
    type V = Seq<ScopeView>;

    closed spec fn view(&self) -> Seq<ScopeView> {
        self.stack@.map_values(|s: BuilderScope| s@)
    }
}

impl BuilderScopeStack {
    /// The tables of all scopes are consistent.
    pub closed spec fn wf(&self) -> bool {
        forall|i: int| 0 <= i < self.stack@.len() ==> (#[trigger] self.stack@[i]).vars.wf()
    }

    /// An empty stack: no builder is active.
    pub fn new() -> (r: Self)
        ensures
            r.wf(),
            r@ == Seq::<ScopeView>::empty(),
    {
        let r = BuilderScopeStack { stack: Vec::new() };
        assert(r@ =~= Seq::empty());
        r
    }

    /// The current scope, on top of the stack.
    pub fn current(&self) -> (r: Option<&BuilderScope>)
        requires
            self.wf(),
        ensures
            match r {
                Some(s) => self@.len() > 0 && s@ == self@.last() && s.vars.wf(),
                None => self@.len() == 0,
            },
    {
        if self.stack.len() == 0 {
            None
        } else {
            Some(&self.stack[self.stack.len() - 1])
        }
    }

    /// The current scope, for changing it.
    pub fn current_mut(&mut self) -> (r: Option<&mut BuilderScope>)
        requires
            old(self).wf(),
        ensures
            match r {
                Some(s) => {
                    &&& old(self)@.len() > 0
                    &&& (*s)@ == old(self)@.last()
                    &&& (*s).vars.wf()
                    &&& final(self)@ == old(self)@.drop_last().push((*final(s))@)
                    &&& (*final(s)).vars.wf() ==> final(self).wf()
                },
                None => old(self)@.len() == 0 && *final(self) == *old(self),
            },
    {
        let n: usize = self.stack.len();
        if n == 0 {
            None
        } else {
            Some(&mut self.stack[n - 1])
        }
    }

    /// Pushes a scope.
    pub fn push(&mut self, scope: BuilderScope)
        requires
            old(self).wf(),
            scope.vars.wf(),
        ensures
            final(self).wf(),
            final(self)@ == old(self)@.push(scope@),
    {
        let ghost before = self@;
        self.stack.push(scope);
        assert(self@ =~= before.push(scope@));
    }

    /// Pops the current scope.
    pub fn pop(&mut self) -> (r: Option<BuilderScope>)
        requires
            old(self).wf(),
        ensures
            final(self).wf(),
            match r {
                Some(s) => old(self)@.len() > 0 && s@ == old(self)@.last() && s.vars.wf() && final(self)@
                    == old(self)@.drop_last(),
                None => old(self)@.len() == 0 && final(self)@ == old(self)@,
            },
    {
        let ghost before = *self;
        let r = self.stack.pop();
        proof {
            if r is Some {
                assert(self@ =~= before@.drop_last());
            } else {
                assert(self@ =~= before@);
            }
        }
        r
    }

    /// Tests whether a builder is active.
    pub fn is_active(&self) -> (r: bool)
        ensures
            r == (self@.len() > 0),
    {
        self.stack.len() > 0
    }

    /// The depth: 0 without a builder, 1 in the root scope, and so on.
    pub fn depth(&self) -> (r: usize)
        ensures
            r == self@.len(),
    {
        self.stack.len()
    }
}

/// The arguments of a tool call.
pub type Args = Vec<(String, JsonValue)>;

/// The answer to a call and the stack after it.
pub type Outcome = (Result<Reply, Seq<char>>, Seq<ScopeView>);

/// A call that is refused without touching the stack.
pub open spec fn refused(stack: Seq<ScopeView>, e: Seq<char>) -> Outcome {
    (Err(e), stack)
}

/// A call that answers without touching the stack.
pub open spec fn told(stack: Seq<ScopeView>, text: Seq<char>) -> Outcome {
    (Ok(Reply { text, scope_changed: false }), stack)
}

/// A call that changes the stack.
pub open spec fn moved(stack: Seq<ScopeView>, text: Seq<char>) -> Outcome {
    (Ok(Reply { text, scope_changed: true }), stack)
}

/// A text argument.
pub open spec fn text_arg(args: Seq<(Seq<char>, JsonView)>, name: Seq<char>) -> Option<Seq<char>> {
    as_text(member(args, name))
}

fn fail(text: &str) -> (r: Result<BuilderResponse, String>)
    ensures
        answer(r) == Err::<Reply, Seq<char>>(text@),
{
    Err(text.to_string())
}

fn tell(text: String) -> (r: Result<BuilderResponse, String>)
    ensures
        answer(r) == Ok::<Reply, Seq<char>>(Reply { text: text@, scope_changed: false }),
{
    Ok(BuilderResponse { text, scope_changed: false })
}

fn change(text: String) -> (r: Result<BuilderResponse, String>)
    ensures
        answer(r) == Ok::<Reply, Seq<char>>(Reply { text: text@, scope_changed: true }),
{
    Ok(BuilderResponse { text, scope_changed: true })
}

/// A message about a type that is not in the tree.
pub open spec fn type_missing(path: Seq<char>, rest: Seq<char>) -> Seq<char> {
    "Type '"@ + path + rest
}

fn missing_type(path: &str, rest: &str) -> (r: String)
    ensures
        r@ == type_missing(path@, rest@),
{
    let mut e = "Type '".to_string();
    e.append(path);
    e.append(rest);
    e
}

// ── builder_init ─────────────────────────────────────────────────────

/// What starting a builder does.
pub open spec fn init_outcome(tree: &ObjectTree, stack: Seq<ScopeView>, args: Seq<(Seq<char>, JsonView)>) -> Outcome {
    if stack.len() > 0 {
        refused(stack, "Builder already active. Use commit() or discard() to finish the current scope first."@)
    } else {
        match text_arg(args, "type_path"@) {
            None => refused(stack, "Missing required parameter: type_path"@),
            Some(path) => match tree.type_at(path) {
                None => refused(stack, type_missing(path, "' not found in the object tree"@)),
                Some(t) => moved(
                    stack.push(
                        ScopeView {
                            type_path: path,
                            vars: Map::empty(),
                            parent_var: None,
                            breadcrumb: last_part(path),
                        },
                    ),
                    "Builder initialized for: "@ + path + "\n"@ + dec(tree.settable_names(t).len() as int)
                        + " settable variables available.\n\nTool surface has been REPLACED with builder tools.\nUse `list_vars` to see available properties, `set_var` to set them.\nUse `commit()` when done, `discard()` to cancel."@,
                ),
            },
        }
    }
}

fn new_scope(type_path: &str, parent_var: Option<String>, breadcrumb: String) -> (r: BuilderScope)
    ensures
        r.vars.wf(),
        r@ == (ScopeView {
            type_path: type_path@,
            vars: Map::empty(),
            parent_var: opt_text(parent_var),
            breadcrumb: breadcrumb@,
        }),
{
    let r = BuilderScope { type_path: type_path.to_string(), vars: NameTable::new(), parent_var, breadcrumb };
    assert(r@.vars =~= Map::empty());
    r
}

/// Starts a builder for a type.
pub fn handle_init(objtree: &ObjectTree, stack: &mut BuilderScopeStack, args: &Args) -> (r: Result<BuilderResponse, String>)
    requires
        objtree.wf(),
        old(stack).wf(),
    ensures
        final(stack).wf(),
        (answer(r), final(stack)@) == init_outcome(objtree, old(stack)@, member_views(args@)),
{
    if stack.is_active() {
        return fail("Builder already active. Use commit() or discard() to finish the current scope first.");
    }
    let type_path = match text_member(args, "type_path") {
        Some(p) => p,
        None => {
            return fail("Missing required parameter: type_path");
        },
    };
    let t: usize = match objtree.find_type(type_path) {
        Some(t) => t,
        None => {
            return Err(missing_type(type_path, "' not found in the object tree"));
        },
    };
    let var_count: usize = objtree.count_settable_vars(t);
    stack.push(new_scope(type_path, None, short_name(type_path)));
    let mut text = "Builder initialized for: ".to_string();
    text.append(type_path);
    text.append("\n");
    text.append(usize_text(var_count).as_str());
    text.append(
        " settable variables available.\n\nTool surface has been REPLACED with builder tools.\nUse `list_vars` to see available properties, `set_var` to set them.\nUse `commit()` when done, `discard()` to cancel.",
    );
    change(text)
}

// ── list_vars ────────────────────────────────────────────────────────

/// Whether a variable passes the filter: the filter stands in its name, whatever the case.
pub open spec fn passes(name: Seq<char>, filter: Option<Seq<char>>) -> bool {
    match filter {
        Some(f) => contains_text(lowercase(name), lowercase(f)),
        None => true,
    }
}

/// One line of the list of variables.
pub open spec fn var_line(tree: &ObjectTree, t: int, scope: ScopeView, name: Seq<char>) -> Seq<char> {
    let v = tree.settable_view(t, name).unwrap();
    "  "@ + name + (if scope.vars.contains_key(name) {
        " ✓"@
    } else {
        ""@
    }) + " = "@ + (match v.default {
        Some(c) => constant_text(c),
        None => "null"@,
    }) + (if v.declared_on != scope.type_path {
        " (from "@ + last_part(v.declared_on) + ")"@
    } else {
        ""@
    }) + "\n"@
}

/// The lines of the list of variables.
pub open spec fn var_lines(
    tree: &ObjectTree,
    t: int,
    scope: ScopeView,
    filter: Option<Seq<char>>,
    names: Seq<Seq<char>>,
) -> Seq<char>
    decreases names.len(),
{
    if names.len() == 0 {
        Seq::empty()
    } else {
        let front = var_lines(tree, t, scope, filter, names.drop_last());
        if passes(names.last(), filter) {
            front + var_line(tree, t, scope, names.last())
        } else {
            front
        }
    }
}

/// How many names pass the filter.
pub open spec fn passing(filter: Option<Seq<char>>, names: Seq<Seq<char>>) -> nat
    decreases names.len(),
{
    if names.len() == 0 {
        0
    } else {
        passing(filter, names.drop_last()) + (if passes(names.last(), filter) {
            1nat
        } else {
            0nat
        })
    }
}

/// What listing the variables does.
pub open spec fn list_outcome(tree: &ObjectTree, stack: Seq<ScopeView>, args: Seq<(Seq<char>, JsonView)>) -> Outcome {
    if stack.len() == 0 {
        refused(stack, "No active builder scope"@)
    } else {
        let scope = stack.last();
        let filter = text_arg(args, "filter"@);
        match tree.type_at(scope.type_path) {
            None => refused(stack, type_missing(scope.type_path, "' not found"@)),
            Some(t) => {
                let names = tree.settable_names(t);
                told(
                    stack,
                    "Variables for "@ + scope.type_path + ":\n\n"@ + var_lines(tree, t, scope, filter, names) + "\n"@ + dec(
                        passing(filter, names) as int,
                    ) + " variables"@ + (if filter is Some {
                        " (filtered)"@
                    } else {
                        ""@
                    }) + (if scope.names().len() > 0 {
                        ", "@ + dec(scope.names().len() as int) + " set"@
                    } else {
                        ""@
                    }),
                )
            },
        }
    }
}

/// Whether the defaults that a listing shows can be shown.
pub open spec fn list_shows(tree: &ObjectTree, stack: Seq<ScopeView>, args: Seq<(Seq<char>, JsonView)>) -> bool {
    stack.len() > 0 ==> (tree.type_at(stack.last().type_path) matches Some(t) ==> forall|n: Seq<char>|
        (#[trigger] tree.settable_view(t, n)) is Some && passes(n, text_arg(args, "filter"@)) ==> default_shows(tree, t, n))
}

fn write_var_line(objtree: &ObjectTree, t: Ghost<int>, scope: &BuilderScope, name: &str, v: &SettableVar) -> (r: String)
    requires
        scope.vars.wf(),
        objtree.settable_view(t@, name@) == Some(v@),
        v@.default matches Some(c) ==> can_show(c),
    ensures
        r@ == var_line(objtree, t@, scope@, name@),
{
    proof {
        scope.names_agree();
    }
    let mut out = "  ".to_string();
    out.append(name);
    let set = match scope.vars.get(name) {
        Some(_) => true,
        None => false,
    };
    if set {
        out.append(" ✓");
    } else {
        out.append("");
    }
    out.append(" = ");
    match &v.default {
        Some(c) => {
            let shown = format_constant(c);
            out.append(shown.as_str());
        },
        None => {
            out.append("null");
        },
    }
    if !same_text(v.declared_on.as_str(), scope.type_path.as_str()) {
        let mut from = " (from ".to_string();
        from.append(short_name(v.declared_on.as_str()).as_str());
        from.append(")");
        out.append(from.as_str());
    } else {
        out.append("");
    }
    out.append("\n");
    out
}

fn name_passes(name: &str, filter: Option<&str>) -> (r: bool)
    ensures
        r == passes(name@, opt_str(filter)),
{
    match filter {
        Some(f) => has_text(to_lowercase(name).as_str(), to_lowercase(f).as_str()),
        None => true,
    }
}

/// The text of an optional string slice.
pub open spec fn opt_str(s: Option<&str>) -> Option<Seq<char>> {
    match s {
        Some(t) => Some(t@),
        None => None,
    }
}

/// Lists the variables of the type being built.
pub fn handle_list_vars(objtree: &ObjectTree, stack: &BuilderScopeStack, args: &Args) -> (r: Result<BuilderResponse, String>)
    requires
        objtree.wf(),
        stack.wf(),
        list_shows(objtree, stack@, member_views(args@)),
    ensures
        (answer(r), stack@) == list_outcome(objtree, stack@, member_views(args@)),
{
    let scope = match stack.current() {
        Some(s) => s,
        None => {
            return fail("No active builder scope");
        },
    };
    let filter = text_member(args, "filter");
    let t: usize = match objtree.find_type(scope.type_path.as_str()) {
        Some(t) => t,
        None => {
            return Err(missing_type(scope.type_path.as_str(), "' not found"));
        },
    };
    let vars = objtree.collect_vars(t);
    let ghost names = objtree.settable_names(t as int);
    let ghost fv = opt_str(filter);
    proof {
        vars.names_hold();
        assert(vars@.dom() =~= Set::new(|n: Seq<char>| objtree.settable_view(t as int, n) is Some));
        assert(vars.names() == names);
    }
    let mut lines = String::new();
    let mut count: usize = 0;
    let mut i: usize = 0;
    while i < vars.len()
        invariant
            i <= names.len(),
            vars.wf(),
            vars.names() == names,
            scope.vars.wf(),
            fv == opt_str(filter),
            count <= i,
            forall|n: Seq<char>| #[trigger] vars@.contains_key(n) <==> objtree.settable_view(t as int, n) is Some,
            forall|n: Seq<char>| vars@.contains_key(n) ==> #[trigger] vars@[n]@ == objtree.settable_view(t as int, n).unwrap(),
            forall|n: Seq<char>|
                (#[trigger] objtree.settable_view(t as int, n)) is Some && passes(n, fv) ==> default_shows(objtree, t as int, n),
            lines@ == var_lines(objtree, t as int, scope@, fv, names.take(i as int)),
            count == passing(fv, names.take(i as int)),
        decreases names.len() - i,
    {
        let name = vars.name_at(i);
        let v = vars.value_at(i);
        assert(names.take(i + 1).drop_last() =~= names.take(i as int));
        assert(vars@[name@]@ == objtree.settable_view(t as int, name@).unwrap());
        if name_passes(name, filter) {
            count = count + 1;
            assert(default_shows(objtree, t as int, name@));
            let line = write_var_line(objtree, Ghost(t as int), scope, name, v);
            lines.append(line.as_str());
        }
        i = i + 1;
    }
    assert(names.take(i as int) =~= names);
    let mut output = "Variables for ".to_string();
    output.append(scope.type_path.as_str());
    output.append(":\n\n");
    output.append(lines.as_str());
    output.append("\n");
    output.append(usize_text(count).as_str());
    output.append(" variables");
    match filter {
        Some(_) => {
            output.append(" (filtered)");
        },
        None => {
            output.append("");
        },
    }
    let set_count: usize = scope.vars.len();
    proof {
        scope.names_agree();
    }
    if set_count > 0 {
        let mut more = ", ".to_string();
        more.append(usize_text(set_count).as_str());
        more.append(" set");
        output.append(more.as_str());
    } else {
        output.append("");
    }
    tell(output)
}

// ── var_info ─────────────────────────────────────────────────────────

/// The type of a variable: as declared, or else as its constant suggests.
pub open spec fn shown_type(tree: &ObjectTree, t: int, name: Seq<char>) -> Seq<char> {
    match tree.declared_type(t, name) {
        Some(d) => if d.len() > 0 {
            "/"@ + joined(d, "/"@)
        } else {
            inferred_type(tree.default_value(t, name))
        },
        None => inferred_type(tree.default_value(t, name)),
    }
}

/// What showing a variable does.
pub open spec fn info_outcome(tree: &ObjectTree, stack: Seq<ScopeView>, args: Seq<(Seq<char>, JsonView)>) -> Outcome {
    if stack.len() == 0 {
        refused(stack, "No active builder scope"@)
    } else {
        let scope = stack.last();
        match text_arg(args, "name"@) {
            None => refused(stack, "Missing required parameter: name"@),
            Some(name) => match tree.type_at(scope.type_path) {
                None => refused(stack, type_missing(scope.type_path, "' not found"@)),
                Some(t) => told(
                    stack,
                    "Variable: "@ + last_part(scope.type_path) + "."@ + name + "\n\n"@ + "Default: "@ + default_text(
                        tree,
                        t,
                        name,
                    ) + "\n"@ + (if scope.vars.contains_key(name) {
                        "Current: "@ + json_text(scope.vars[name]) + " (set in this scope)\n"@
                    } else {
                        ""@
                    }) + "Type: "@ + shown_type(tree, t, name) + "\n"@ + (if starts_with(shown_type(tree, t, name), "/"@) {
                        "\nThis is a datum-typed variable. Use `edit(var_name)` to configure it as a sub-assembly.\n"@
                    } else {
                        ""@
                    }),
                ),
            },
        }
    }
}

/// Whether what is shown of a variable can be shown.
pub open spec fn info_shows(tree: &ObjectTree, stack: Seq<ScopeView>, args: Seq<(Seq<char>, JsonView)>) -> bool {
    stack.len() > 0 ==> (text_arg(args, "name"@) matches Some(name) ==> (tree.type_at(stack.last().type_path) matches Some(t)
        ==> {
        &&& default_shows(tree, t, name)
        &&& (tree.declared_type(t, name) is None || tree.declared_type(t, name).unwrap().len() == 0) ==> can_infer(
            tree.default_value(t, name),
        )
    }))
}

/// Shows one variable in detail.
pub fn handle_var_info(objtree: &ObjectTree, stack: &BuilderScopeStack, args: &Args) -> (r: Result<BuilderResponse, String>)
    requires
        objtree.wf(),
        stack.wf(),
        info_shows(objtree, stack@, member_views(args@)),
    ensures
        (answer(r), stack@) == info_outcome(objtree, stack@, member_views(args@)),
{
    let scope = match stack.current() {
        Some(s) => s,
        None => {
            return fail("No active builder scope");
        },
    };
    let name = match text_member(args, "name") {
        Some(n) => n,
        None => {
            return fail("Missing required parameter: name");
        },
    };
    let t: usize = match objtree.find_type(scope.type_path.as_str()) {
        Some(t) => t,
        None => {
            return Err(missing_type(scope.type_path.as_str(), "' not found"));
        },
    };
    proof {
        scope.names_agree();
    }
    let mut output = "Variable: ".to_string();
    output.append(short_name(scope.type_path.as_str()).as_str());
    output.append(".");
    output.append(name);
    output.append("\n\n");
    output.append("Default: ");
    output.append(show_default(objtree, t, name).as_str());
    output.append("\n");
    match scope.vars.get(name) {
        Some(current) => {
            let mut line = "Current: ".to_string();
            line.append(json_display(current).as_str());
            line.append(" (set in this scope)\n");
            output.append(line.as_str());
        },
        None => {
            output.append("");
        },
    }
    let type_info = match objtree.get_var_declaration(t, name) {
        Some(d) => {
            assert(crate::text::texts(d@).len() == d@.len());
            if d.len() > 0 {
                let mut path = "/".to_string();
                path.append(join_texts(d, "/").as_str());
                path
            } else {
                infer_type_from_constant(objtree.default_of(t, name))
            }
        },
        None => infer_type_from_constant(objtree.default_of(t, name)),
    };
    output.append("Type: ");
    output.append(type_info.as_str());
    output.append("\n");
    if has_prefix(type_info.as_str(), "/") {
        output.append("\nThis is a datum-typed variable. Use `edit(var_name)` to configure it as a sub-assembly.\n");
    } else {
        output.append("");
    }
    tell(output)
}

// ── set_var ──────────────────────────────────────────────────────────

/// A scope with a variable set.
pub open spec fn with_var(scope: ScopeView, name: Seq<char>, value: JsonView) -> ScopeView {
    ScopeView { vars: scope.vars.insert(name, value), ..scope }
}

/// What setting a variable does.
pub open spec fn set_outcome(tree: &ObjectTree, stack: Seq<ScopeView>, args: Seq<(Seq<char>, JsonView)>) -> Outcome {
    if stack.len() == 0 {
        refused(stack, "No active builder scope"@)
    } else {
        let scope = stack.last();
        match text_arg(args, "name"@) {
            None => refused(stack, "Missing required parameter: name"@),
            Some(name) => match member(args, "value"@) {
                None => refused(stack, "Missing required parameter: value"@),
                Some(value) => match tree.type_at(scope.type_path) {
                    None => refused(stack, type_missing(scope.type_path, "' not found"@)),
                    Some(t) => if tree.nearest(t, name) is None {
                        refused(
                            stack,
                            "Variable '"@ + name + "' is not declared on "@ + scope.type_path
                                + " or any parent type.\nUse `list_vars` to see available variables."@,
                        )
                    } else {
                        let after = with_var(scope, name, value);
                        (
                            Ok(
                                Reply {
                                    text: "Set "@ + last_part(scope.type_path) + "."@ + name + " = "@ + json_text(value) + "\n"@
                                        + (if scope.vars.contains_key(name) {
                                        "Previous: "@ + json_text(scope.vars[name]) + "\n"@
                                    } else {
                                        ""@
                                    }) + "Default: "@ + default_text(tree, t, name) + "\n"@ + "\n"@ + dec(
                                        after.names().len() as int,
                                    ) + " variables set in this scope."@,
                                    scope_changed: false,
                                },
                            ),
                            stack.drop_last().push(after),
                        )
                    },
                },
            },
        }
    }
}

/// Whether the default of the variable to be set can be shown.
pub open spec fn set_shows(tree: &ObjectTree, stack: Seq<ScopeView>, args: Seq<(Seq<char>, JsonView)>) -> bool {
    stack.len() > 0 ==> (text_arg(args, "name"@) matches Some(name) ==> (member(args, "value"@) is Some ==> (tree.type_at(
        stack.last().type_path,
    ) matches Some(t) ==> (tree.nearest(t, name) is Some ==> default_shows(tree, t, name)))))
}

/// Sets a variable of the type being built.
pub fn handle_set_var(objtree: &ObjectTree, stack: &mut BuilderScopeStack, args: &Args) -> (r: Result<
    BuilderResponse,
    String,
>)
    requires
        objtree.wf(),
        old(stack).wf(),
        set_shows(objtree, old(stack)@, member_views(args@)),
    ensures
        final(stack).wf(),
        (answer(r), final(stack)@) == set_outcome(objtree, old(stack)@, member_views(args@)),
{
    let (type_path, previous) = match stack.current() {
        Some(s) => {
            proof {
                s.names_agree();
            }
            match text_member(args, "name") {
                Some(name) => match s.vars.get(name) {
                    Some(v) => (s.type_path.clone(), Some(v.clone())),
                    None => (s.type_path.clone(), None),
                },
                None => (s.type_path.clone(), None),
            }
        },
        None => {
            return fail("No active builder scope");
        },
    };
    let name = match text_member(args, "name") {
        Some(n) => n,
        None => {
            return fail("Missing required parameter: name");
        },
    };
    let value = match find_member(args, "value") {
        Some(v) => v,
        None => {
            return fail("Missing required parameter: value");
        },
    };
    let t: usize = match objtree.find_type(type_path.as_str()) {
        Some(t) => t,
        None => {
            return Err(missing_type(type_path.as_str(), "' not found"));
        },
    };
    if !objtree.type_hierarchy_has_var(t, name) {
        let mut e = "Variable '".to_string();
        e.append(name);
        e.append("' is not declared on ");
        e.append(type_path.as_str());
        e.append(" or any parent type.\nUse `list_vars` to see available variables.");
        return Err(e);
    }
    let default_str = show_default(objtree, t, name);
    let ghost before = stack@;
    let set_count: usize = stack.set_top(name, value.clone());
    let mut output = "Set ".to_string();
    output.append(short_name(type_path.as_str()).as_str());
    output.append(".");
    output.append(name);
    output.append(" = ");
    output.append(json_display(value).as_str());
    output.append("\n");
    match &previous {
        Some(v) => {
            let mut line = "Previous: ".to_string();
            line.append(json_display(v).as_str());
            line.append("\n");
            output.append(line.as_str());
        },
        None => {
            output.append("");
        },
    }
    output.append("Default: ");
    output.append(default_str.as_str());
    output.append("\n");
    output.append("\n");
    output.append(usize_text(set_count).as_str());
    output.append(" variables set in this scope.");
    tell(output)
}

impl BuilderScopeStack {
    /// Sets a variable of the current scope, and gives the number of variables set in it.
    fn set_top(&mut self, name: &str, value: JsonValue) -> (r: usize)
        requires
            old(self).wf(),
            old(self)@.len() > 0,
        ensures
            final(self).wf(),
            final(self)@ == old(self)@.drop_last().push(with_var(old(self)@.last(), name@, value@)),
            r == with_var(old(self)@.last(), name@, value@).names().len(),
    {
        let ghost before = *self;
        let mut scope = match self.pop() {
            Some(s) => s,
            None => {
                return 0;
            },
        };
        let ghost was = scope@;
        scope.vars.insert(name.to_string(), value);
        assert(scope@ == with_var(was, name@, value@)) by {
            assert(scope@.vars =~= was.vars.insert(name@, value@));
        }
        proof {
            scope.names_agree();
        }
        let n: usize = scope.vars.len();
        self.push(scope);
        n
    }
}

// ── edit ─────────────────────────────────────────────────────────────

/// What is said when the type of a sub-datum cannot be told.
pub open spec fn cannot_infer(name: Seq<char>) -> Seq<char> {
    "Cannot infer datum type for '"@ + name + "'. Provide type_path explicitly.\nExample: edit(var_name=\""@ + name
        + "\", type_path=\"/obj/item/...\")"@
}

/// The type that a sub-scope is for: given, or else declared for the variable.
pub open spec fn sub_type(tree: &ObjectTree, t: int, name: Seq<char>, given: Option<Seq<char>>) -> Result<Seq<char>, Seq<char>> {
    match given {
        Some(path) => if tree.type_at(path) is Some {
            Ok(path)
        } else {
            Err(type_missing(path, "' not found in the object tree"@))
        },
        None => match tree.declared_type(t, name) {
            Some(d) => if d.len() > 0 {
                let path = "/"@ + joined(d, "/"@);
                if tree.type_at(path) is Some {
                    Ok(path)
                } else {
                    Err("Inferred type '"@ + path + "' not found"@)
                }
            } else {
                Err(cannot_infer(name))
            },
            None => Err(cannot_infer(name)),
        },
    }
}

/// What editing a datum-typed variable does.
pub open spec fn edit_outcome(tree: &ObjectTree, stack: Seq<ScopeView>, args: Seq<(Seq<char>, JsonView)>) -> Outcome {
    match text_arg(args, "var_name"@) {
        None => refused(stack, "Missing required parameter: var_name"@),
        Some(name) => if stack.len() == 0 {
            refused(stack, "No active builder scope"@)
        } else {
            let parent = stack.last();
            match tree.type_at(parent.type_path) {
                None => refused(stack, type_missing(parent.type_path, "' not found"@)),
                Some(t) => match sub_type(tree, t, name, text_arg(args, "type_path"@)) {
                    Err(e) => refused(stack, e),
                    Ok(path) => {
                        let breadcrumb = parent.breadcrumb + " > "@ + name;
                        moved(
                            stack.push(ScopeView { type_path: path, vars: Map::empty(), parent_var: Some(name), breadcrumb }),
                            "Editing sub-datum: "@ + path + " (for var '"@ + name + "')\nScope: "@ + breadcrumb + "\n"@ + dec(
                                tree.settable_names(tree.type_at(path).unwrap()).len() as int,
                            ) + " settable variables available.\n\nTool surface REPLACED with "@ + last_part(path)
                                + "'s tools.\nUse `commit()` to return to parent, `discard()` to cancel."@,
                        )
                    },
                },
            }
        },
    }
}

fn cannot_infer_type(name: &str) -> (r: String)
    ensures
        r@ == cannot_infer(name@),
{
    let mut e = "Cannot infer datum type for '".to_string();
    e.append(name);
    e.append("'. Provide type_path explicitly.\nExample: edit(var_name=\"");
    e.append(name);
    e.append("\", type_path=\"/obj/item/...\")");
    e
}

/// The outcome of a search for a text.
pub open spec fn text_result(r: Result<String, String>) -> Result<Seq<char>, Seq<char>> {
    match r {
        Ok(s) => Ok(s@),
        Err(e) => Err(e@),
    }
}

fn find_sub_type(objtree: &ObjectTree, t: usize, name: &str, given: Option<&str>) -> (r: Result<String, String>)
    requires
        objtree.wf(),
        t < objtree.types@.len(),
    ensures
        text_result(r) == sub_type(objtree, t as int, name@, opt_str(given)),
{
    match given {
        Some(path) => match objtree.find_type(path) {
            Some(_) => Ok(path.to_string()),
            None => Err(missing_type(path, "' not found in the object tree")),
        },
        None => match objtree.get_var_declaration(t, name) {
            Some(d) => {
                assert(crate::text::texts(d@).len() == d@.len());
                if d.len() > 0 {
                    let mut path = "/".to_string();
                    path.append(join_texts(d, "/").as_str());
                    match objtree.find_type(path.as_str()) {
                        Some(_) => Ok(path),
                        None => {
                            let mut e = "Inferred type '".to_string();
                            e.append(path.as_str());
                            e.append("' not found");
                            Err(e)
                        },
                    }
                } else {
                    Err(cannot_infer_type(name))
                }
            },
            None => Err(cannot_infer_type(name)),
        },
    }
}

/// Pushes a scope for a datum-typed variable.
pub fn handle_edit(objtree: &ObjectTree, stack: &mut BuilderScopeStack, args: &Args) -> (r: Result<BuilderResponse, String>)
    requires
        objtree.wf(),
        old(stack).wf(),
    ensures
        final(stack).wf(),
        (answer(r), final(stack)@) == edit_outcome(objtree, old(stack)@, member_views(args@)),
{
    let name = match text_member(args, "var_name") {
        Some(n) => n,
        None => {
            return fail("Missing required parameter: var_name");
        },
    };
    let given = text_member(args, "type_path");
    let (parent_type, parent_breadcrumb) = match stack.current() {
        Some(s) => (s.type_path.clone(), s.breadcrumb.clone()),
        None => {
            return fail("No active builder scope");
        },
    };
    let t: usize = match objtree.find_type(parent_type.as_str()) {
        Some(t) => t,
        None => {
            return Err(missing_type(parent_type.as_str(), "' not found"));
        },
    };
    let path = match find_sub_type(objtree, t, name, given) {
        Ok(p) => p,
        Err(e) => {
            return Err(e);
        },
    };
    let mut breadcrumb = parent_breadcrumb;
    breadcrumb.append(" > ");
    breadcrumb.append(name);
    let var_count: usize = match objtree.find_type(path.as_str()) {
        Some(n) => objtree.count_settable_vars(n),
        None => 0,
    };
    stack.push(new_scope(path.as_str(), Some(name.to_string()), breadcrumb.clone()));
    let mut text = "Editing sub-datum: ".to_string();
    text.append(path.as_str());
    text.append(" (for var '");
    text.append(name);
    text.append("')\nScope: ");
    text.append(breadcrumb.as_str());
    text.append("\n");
    text.append(usize_text(var_count).as_str());
    text.append(" settable variables available.\n\nTool surface REPLACED with ");
    text.append(short_name(path.as_str()).as_str());
    text.append("'s tools.\nUse `commit()` to return to parent, `discard()` to cancel.");
    change(text)
}

// ── validate ─────────────────────────────────────────────────────────

/// One line of the variables that were set.
pub open spec fn set_line(tree: &ObjectTree, t: int, name: Seq<char>, value: JsonView) -> Seq<char> {
    "  "@ + name + " = "@ + json_text(value) + " "@ + (if json_text(value) != whole_default(tree, t, name) {
        "(overrides default)"@
    } else {
        "(same as default — will be omitted)"@
    }) + "\n"@
}

/// The lines of the variables that were set.
pub open spec fn set_lines(tree: &ObjectTree, t: int, names: Seq<Seq<char>>, vars: Map<Seq<char>, JsonView>) -> Seq<char>
    decreases names.len(),
{
    if names.len() == 0 {
        Seq::empty()
    } else {
        set_lines(tree, t, names.drop_last(), vars) + set_line(tree, t, names.last(), vars[names.last()])
    }
}

/// The prefab of a scope as a map file has it.
pub open spec fn scope_prefab(tree: &ObjectTree, t: int, scope: ScopeView) -> Seq<char> {
    scope.type_path + braces(overrides(tree, t, scope.names(), scope.vars))
}

/// What validating does.
pub open spec fn validate_outcome(tree: &ObjectTree, stack: Seq<ScopeView>) -> Outcome {
    if stack.len() == 0 {
        refused(stack, "No active builder scope"@)
    } else {
        let scope = stack.last();
        match tree.type_at(scope.type_path) {
            None => refused(stack, type_missing(scope.type_path, "' not found"@)),
            Some(t) => told(
                stack,
                "Validation for "@ + scope.type_path + " (scope: "@ + scope.breadcrumb + ")\n\n"@ + (if scope.names().len()
                    == 0 {
                    "No variables set.\n"@
                } else {
                    "Set variables:\n"@ + set_lines(tree, t, scope.names(), scope.vars)
                }) + "\nPrefab preview: "@ + scope_prefab(tree, t, scope) + "\n"@
                    + "\nReady to commit. Use `commit()` to finalize or continue editing."@,
            ),
        }
    }
}

fn write_set_line(objtree: &ObjectTree, t: usize, name: &str, value: &JsonValue) -> (r: String)
    requires
        objtree.wf(),
        t < objtree.types@.len(),
    ensures
        r@ == set_line(objtree, t as int, name@, value@),
{
    let default_str = write_default(objtree, t, name);
    let shown = json_display(value);
    let mut out = "  ".to_string();
    out.append(name);
    out.append(" = ");
    out.append(shown.as_str());
    out.append(" ");
    if !same_text(shown.as_str(), default_str.as_str()) {
        out.append("(overrides default)");
    } else {
        out.append("(same as default — will be omitted)");
    }
    out.append("\n");
    out
}

fn write_prefab(objtree: &ObjectTree, t: usize, scope: &BuilderScope) -> (r: String)
    requires
        objtree.wf(),
        t < objtree.types@.len(),
        scope.vars.wf(),
    ensures
        r@ == scope_prefab(objtree, t as int, scope@),
{
    proof {
        scope.names_agree();
    }
    let pairs = compute_overrides(objtree, t, &scope.vars);
    let mut out = scope.type_path.clone();
    out.append(write_braces(&pairs).as_str());
    out
}

/// Shows what would be committed.
pub fn handle_validate(objtree: &ObjectTree, stack: &BuilderScopeStack) -> (r: Result<BuilderResponse, String>)
    requires
        objtree.wf(),
        stack.wf(),
    ensures
        (answer(r), stack@) == validate_outcome(objtree, stack@),
{
    let scope = match stack.current() {
        Some(s) => s,
        None => {
            return fail("No active builder scope");
        },
    };
    let t: usize = match objtree.find_type(scope.type_path.as_str()) {
        Some(t) => t,
        None => {
            return Err(missing_type(scope.type_path.as_str(), "' not found"));
        },
    };
    let ghost names = scope@.names();
    let ghost vars = scope@.vars;
    proof {
        scope.names_agree();
    }
    let mut output = "Validation for ".to_string();
    output.append(scope.type_path.as_str());
    output.append(" (scope: ");
    output.append(scope.breadcrumb.as_str());
    output.append(")\n\n");
    if scope.vars.len() == 0 {
        output.append("No variables set.\n");
    } else {
        let mut lines = String::new();
        let mut i: usize = 0;
        while i < scope.vars.len()
            invariant
                i <= names.len(),
                objtree.wf(),
                t < objtree.types@.len(),
                scope.vars.wf(),
                names == scope.vars.names(),
                vars == scope@.vars,
                forall|n: Seq<char>| #[trigger] scope.vars@.contains_key(n) <==> vars.contains_key(n),
                forall|n: Seq<char>| scope.vars@.contains_key(n) ==> #[trigger] vars[n] == scope.vars@[n]@,
                lines@ == set_lines(objtree, t as int, names.take(i as int), vars),
            decreases names.len() - i,
        {
            let name = scope.vars.name_at(i);
            let value = scope.vars.value_at(i);
            assert(names.take(i + 1).drop_last() =~= names.take(i as int));
            assert(vars.contains_key(name@));
            assert(vars[name@] == value@);
            lines.append(write_set_line(objtree, t, name, value).as_str());
            i = i + 1;
        }
        assert(names.take(i as int) =~= names);
        let mut part = "Set variables:\n".to_string();
        part.append(lines.as_str());
        output.append(part.as_str());
    }
    output.append("\nPrefab preview: ");
    output.append(write_prefab(objtree, t, scope).as_str());
    output.append("\n");
    output.append("\nReady to commit. Use `commit()` to finalize or continue editing.");
    tell(output)
}

// ── commit ───────────────────────────────────────────────────────────

/// A scope as the value of its parent's variable.
pub open spec fn scope_value(scope: ScopeView) -> JsonView {
    JsonView::Object(
        seq![("_type"@, JsonView::Str(scope.type_path)), ("_vars"@, JsonView::Object(scope.members()))],
    )
}

/// What committing does. The scope is popped first, whatever comes after.
pub open spec fn commit_outcome(tree: &ObjectTree, stack: Seq<ScopeView>) -> Outcome {
    if stack.len() == 0 {
        refused(stack, "No active builder scope to commit"@)
    } else {
        let scope = stack.last();
        let rest = stack.drop_last();
        if rest.len() == 0 {
            match tree.type_at(scope.type_path) {
                None => refused(rest, type_missing(scope.type_path, "' not found"@)),
                Some(t) => moved(
                    rest,
                    "Prefab committed:\n  "@ + scope_prefab(tree, t, scope)
                        + "\n\nTool surface restored to base map tools."@,
                ),
            }
        } else {
            match scope.parent_var {
                None => refused(rest, "Sub-scope has no parent var"@),
                Some(var) => moved(
                    rest.drop_last().push(with_var(rest.last(), var, scope_value(scope))),
                    "Sub-datum '"@ + var + "' committed with "@ + dec(scope.names().len() as int)
                        + " overrides.\nReturned to scope: "@ + rest.last().breadcrumb,
                ),
            }
        }
    }
}

/// The scope as a JSON value.
fn scope_to_value(scope: &BuilderScope) -> (r: JsonValue)
    requires
        scope.vars.wf(),
    ensures
        r@ == scope_value(scope@),
{
    broadcast use object_view;

    proof {
        scope.names_agree();
    }
    let ghost want = scope@.members();
    let mut members: Vec<(String, JsonValue)> = Vec::new();
    let mut i: usize = 0;
    while i < scope.vars.len()
        invariant
            i <= scope.vars.names().len(),
            scope.vars.wf(),
            scope.vars.names() == scope@.names(),
            want == scope@.members(),
            forall|n: Seq<char>| scope.vars@.contains_key(n) ==> #[trigger] scope@.vars[n] == scope.vars@[n]@,
            member_views(members@) == want.take(i as int),
        decreases scope.vars.names().len() - i,
    {
        let ghost before = member_views(members@);
        let value = scope.vars.value_at(i).clone();
        members.push((scope.vars.name_at(i).to_string(), value));
        assert(scope@.vars[scope.vars.names()[i as int]] == value@);
        assert(member_views(members@) =~= before.push(want[i as int]));
        i = i + 1;
        assert(member_views(members@) =~= want.take(i as int));
    }
    assert(want.take(i as int) =~= want);
    let mut object: Vec<(String, JsonValue)> = Vec::new();
    let inner = JsonValue::Object(members);
    object.push(("_type".to_string(), JsonValue::Str(scope.type_path.clone())));
    object.push(("_vars".to_string(), inner));
    assert(member_views(object@) =~= seq![
        ("_type"@, JsonView::Str(scope@.type_path)),
        ("_vars"@, JsonView::Object(scope@.members())),
    ]);
    JsonValue::Object(object)
}

/// Commits the current scope.
pub fn handle_commit(objtree: &ObjectTree, stack: &mut BuilderScopeStack) -> (r: Result<BuilderResponse, String>)
    requires
        objtree.wf(),
        old(stack).wf(),
    ensures
        final(stack).wf(),
        (answer(r), final(stack)@) == commit_outcome(objtree, old(stack)@),
{
    let scope = match stack.pop() {
        Some(s) => s,
        None => {
            return fail("No active builder scope to commit");
        },
    };
    let ghost rest = stack@;
    if !stack.is_active() {
        let t: usize = match objtree.find_type(scope.type_path.as_str()) {
            Some(t) => t,
            None => {
                return Err(missing_type(scope.type_path.as_str(), "' not found"));
            },
        };
        let mut text = "Prefab committed:\n  ".to_string();
        text.append(write_prefab(objtree, t, &scope).as_str());
        text.append("\n\nTool surface restored to base map tools.");
        change(text)
    } else {
        let var = match &scope.parent_var {
            Some(v) => v,
            None => {
                return fail("Sub-scope has no parent var");
            },
        };
        let value = scope_to_value(&scope);
        stack.set_top(var.as_str(), value);
        let mut text = "Sub-datum '".to_string();
        text.append(var.as_str());
        text.append("' committed with ");
        proof {
            scope.names_agree();
        }
        text.append(usize_text(scope.vars.len()).as_str());
        text.append(" overrides.\nReturned to scope: ");
        if let Some(parent) = stack.current() {
            text.append(parent.breadcrumb.as_str());
        }
        change(text)
    }
}

// ── discard ──────────────────────────────────────────────────────────

/// What discarding does.
pub open spec fn discard_outcome(stack: Seq<ScopeView>) -> Outcome {
    if stack.len() == 0 {
        refused(stack, "No active builder scope to discard"@)
    } else {
        let scope = stack.last();
        let rest = stack.drop_last();
        if rest.len() == 0 {
            moved(
                rest,
                "Discarded "@ + scope.type_path + " builder.\nTool surface restored to base map tools."@,
            )
        } else {
            moved(
                rest,
                "Discarded sub-datum for '"@ + (match scope.parent_var {
                    Some(v) => v,
                    None => ""@,
                }) + "'.\nReturned to scope: "@ + rest.last().breadcrumb,
            )
        }
    }
}

/// Discards the current scope.
pub fn handle_discard(stack: &mut BuilderScopeStack) -> (r: Result<BuilderResponse, String>)
    requires
        old(stack).wf(),
    ensures
        final(stack).wf(),
        (answer(r), final(stack)@) == discard_outcome(old(stack)@),
{
    let scope = match stack.pop() {
        Some(s) => s,
        None => {
            return fail("No active builder scope to discard");
        },
    };
    match stack.current() {
        None => {
            let mut text = "Discarded ".to_string();
            text.append(scope.type_path.as_str());
            text.append(" builder.\nTool surface restored to base map tools.");
            change(text)
        },
        Some(parent) => {
            let mut text = "Discarded sub-datum for '".to_string();
            match &scope.parent_var {
                Some(v) => {
                    text.append(v.as_str());
                },
                None => {
                    text.append("");
                },
            }
            text.append("'.\nReturned to scope: ");
            text.append(parent.breadcrumb.as_str());
            change(text)
        },
    }
}

// ── where_am_i ───────────────────────────────────────────────────────

/// The lines of the variables that were set, without their defaults.
pub open spec fn plain_lines(names: Seq<Seq<char>>, vars: Map<Seq<char>, JsonView>) -> Seq<char>
    decreases names.len(),
{
    if names.len() == 0 {
        Seq::empty()
    } else {
        plain_lines(names.drop_last(), vars) + "  "@ + names.last() + " = "@ + json_text(vars[names.last()]) + "\n"@
    }
}

/// What asking for the place does.
pub open spec fn where_outcome(stack: Seq<ScopeView>) -> Outcome {
    if stack.len() == 0 {
        refused(stack, "No active builder scope"@)
    } else {
        let scope = stack.last();
        told(
            stack,
            "Current scope: "@ + scope.breadcrumb + "\n"@ + "Type: "@ + scope.type_path + "\n"@ + "Depth: "@ + dec(
                stack.len() as int,
            ) + "\n"@ + (if scope.names().len() == 0 {
                "No variables set yet.\n"@
            } else {
                dec(scope.names().len() as int) + " variables set:\n"@ + plain_lines(scope.names(), scope.vars)
            }),
        )
    }
}

/// Shows the current scope and what was set in it.
pub fn handle_where_am_i(stack: &BuilderScopeStack) -> (r: Result<BuilderResponse, String>)
    requires
        stack.wf(),
    ensures
        (answer(r), stack@) == where_outcome(stack@),
{
    let scope = match stack.current() {
        Some(s) => s,
        None => {
            return fail("No active builder scope");
        },
    };
    let ghost names = scope@.names();
    let ghost vars = scope@.vars;
    proof {
        scope.names_agree();
    }
    let mut output = "Current scope: ".to_string();
    output.append(scope.breadcrumb.as_str());
    output.append("\n");
    output.append("Type: ");
    output.append(scope.type_path.as_str());
    output.append("\n");
    output.append("Depth: ");
    output.append(usize_text(stack.depth()).as_str());
    output.append("\n");
    if scope.vars.len() == 0 {
        output.append("No variables set yet.\n");
    } else {
        let mut lines = String::new();
        let mut i: usize = 0;
        while i < scope.vars.len()
            invariant
                i <= names.len(),
                scope.vars.wf(),
                names == scope.vars.names(),
                vars == scope@.vars,
                forall|n: Seq<char>| scope.vars@.contains_key(n) ==> #[trigger] vars[n] == scope.vars@[n]@,
                lines@ == plain_lines(names.take(i as int), vars),
            decreases names.len() - i,
        {
            let name = scope.vars.name_at(i);
            let value = scope.vars.value_at(i);
            assert(names.take(i + 1).drop_last() =~= names.take(i as int));
            assert(vars[name@] == value@);
            lines.append("  ");
            lines.append(name);
            lines.append(" = ");
            lines.append(json_display(value).as_str());
            lines.append("\n");
            i = i + 1;
        }
        assert(names.take(i as int) =~= names);
        let mut part = usize_text(scope.vars.len());
        part.append(" variables set:\n");
        part.append(lines.as_str());
        output.append(part.as_str());
    }
    tell(output)
}

// ── Dispatch ─────────────────────────────────────────────────────────

/// What a builder tool call does.
pub open spec fn call_outcome(tree: &ObjectTree, stack: Seq<ScopeView>, tool: Seq<char>, args: Seq<(Seq<char>, JsonView)>) -> Outcome {
    if tool == "builder_init"@ {
        init_outcome(tree, stack, args)
    } else if tool == "list_vars"@ {
        list_outcome(tree, stack, args)
    } else if tool == "var_info"@ {
        info_outcome(tree, stack, args)
    } else if tool == "set_var"@ {
        set_outcome(tree, stack, args)
    } else if tool == "edit"@ {
        edit_outcome(tree, stack, args)
    } else if tool == "validate"@ {
        validate_outcome(tree, stack)
    } else if tool == "commit"@ {
        commit_outcome(tree, stack)
    } else if tool == "discard"@ {
        discard_outcome(stack)
    } else if tool == "where_am_i"@ {
        where_outcome(stack)
    } else {
        refused(stack, "Unknown builder tool: "@ + tool)
    }
}

/// Whether everything that a call has to show can be shown: no string default has to be cut in
/// the middle of a character.
pub open spec fn call_shows(tree: &ObjectTree, stack: Seq<ScopeView>, tool: Seq<char>, args: Seq<(Seq<char>, JsonView)>) -> bool {
    &&& tool == "list_vars"@ ==> list_shows(tree, stack, args)
    &&& tool == "var_info"@ ==> info_shows(tree, stack, args)
    &&& tool == "set_var"@ ==> set_shows(tree, stack, args)
}

/// Handles a builder tool call.
pub fn handle_builder_call(
    objtree: &ObjectTree,
    stack: &mut BuilderScopeStack,
    tool_name: &str,
    args: &Args,
) -> (r: Result<BuilderResponse, String>)
    requires
        objtree.wf(),
        old(stack).wf(),
        call_shows(objtree, old(stack)@, tool_name@, member_views(args@)),
    ensures
        final(stack).wf(),
        (answer(r), final(stack)@) == call_outcome(objtree, old(stack)@, tool_name@, member_views(args@)),
{
    if same_text(tool_name, "builder_init") {
        handle_init(objtree, stack, args)
    } else if same_text(tool_name, "list_vars") {
        handle_list_vars(objtree, stack, args)
    } else if same_text(tool_name, "var_info") {
        handle_var_info(objtree, stack, args)
    } else if same_text(tool_name, "set_var") {
        handle_set_var(objtree, stack, args)
    } else if same_text(tool_name, "edit") {
        handle_edit(objtree, stack, args)
    } else if same_text(tool_name, "validate") {
        handle_validate(objtree, stack)
    } else if same_text(tool_name, "commit") {
        handle_commit(objtree, stack)
    } else if same_text(tool_name, "discard") {
        handle_discard(stack)
    } else if same_text(tool_name, "where_am_i") {
        handle_where_am_i(stack)
    } else {
        let mut e = "Unknown builder tool: ".to_string();
        e.append(tool_name);
        Err(e)
    }
}

// ── Laws ─────────────────────────────────────────────────────────────

/// A call says that the scope changed exactly when it succeeded and the depth of the stack is
/// another than before.
pub proof fn scope_changed_means_depth_changed(
    tree: &ObjectTree,
    stack: Seq<ScopeView>,
    tool: Seq<char>,
    args: Seq<(Seq<char>, JsonView)>,
)
    ensures
        ({
            let (reply, after) = call_outcome(tree, stack, tool, args);
            reply matches Ok(r) ==> (r.scope_changed <==> after.len() != stack.len())
        }),
{
}

/// A call that is refused leaves the stack as it was, but for a commit, which has popped its
/// scope before it finds out.
pub proof fn refused_calls_change_nothing(
    tree: &ObjectTree,
    stack: Seq<ScopeView>,
    tool: Seq<char>,
    args: Seq<(Seq<char>, JsonView)>,
)
    requires
        call_outcome(tree, stack, tool, args).0 is Err,
    ensures
        tool != "commit"@ ==> call_outcome(tree, stack, tool, args).1 == stack,
        tool == "commit"@ ==> call_outcome(tree, stack, tool, args).1 == (if stack.len() == 0 {
            stack
        } else {
            stack.drop_last()
        }),
{
    reveal_strlit("commit");
    reveal_strlit("builder_init");
    reveal_strlit("list_vars");
    reveal_strlit("var_info");
    reveal_strlit("set_var");
    reveal_strlit("edit");
    reveal_strlit("validate");
    assert("commit"@.len() == 6);
    assert("builder_init"@.len() == 12);
    assert("list_vars"@.len() == 9);
    assert("var_info"@.len() == 8);
    assert("set_var"@.len() == 7);
    assert("edit"@.len() == 4);
    assert("validate"@.len() == 8);
}

/// Discarding the scope that an edit pushed gives the stack back as it was before the edit.
pub proof fn discard_undoes_edit(tree: &ObjectTree, stack: Seq<ScopeView>, args: Seq<(Seq<char>, JsonView)>)
    requires
        edit_outcome(tree, stack, args).0 is Ok,
    ensures
        discard_outcome(edit_outcome(tree, stack, args).1).1 == stack,
{
    let after = edit_outcome(tree, stack, args).1;
    assert(after.drop_last() =~= stack);
}

/// Discarding a builder that was just started leaves no builder.
pub proof fn discard_undoes_init(tree: &ObjectTree, stack: Seq<ScopeView>, args: Seq<(Seq<char>, JsonView)>)
    requires
        init_outcome(tree, stack, args).0 is Ok,
    ensures
        discard_outcome(init_outcome(tree, stack, args).1).1 == stack,
{
    let after = init_outcome(tree, stack, args).1;
    assert(after.drop_last() =~= stack);
}

/// Committing the scope that an edit pushed sets the edited variable of the parent, and nothing
/// else, to the sub-datum.
pub proof fn commit_folds_into_the_parent(tree: &ObjectTree, stack: Seq<ScopeView>, sub: ScopeView, name: Seq<char>)
    requires
        stack.len() > 0,
        sub.parent_var == Some(name),
    ensures
        commit_outcome(tree, stack.push(sub)).0 is Ok,
        commit_outcome(tree, stack.push(sub)).1 == stack.drop_last().push(with_var(stack.last(), name, scope_value(sub))),
{
    assert(stack.push(sub).drop_last() =~= stack);
}

/// Only the current scope of a stack ever changes.
pub proof fn scopes_below_stay(tree: &ObjectTree, stack: Seq<ScopeView>, tool: Seq<char>, args: Seq<(Seq<char>, JsonView)>, i: int)
    requires
        0 <= i < stack.len() - 2 || (0 <= i < stack.len() - 1 && tool != "commit"@),
    ensures
        i < call_outcome(tree, stack, tool, args).1.len(),
        call_outcome(tree, stack, tool, args).1[i] == stack[i],
{
}

} // verus!
