//! DM values and prefabs: what a map tile is made of.

use crate::text::{same_text, texts};
use vstd::prelude::*;

verus! {

/// A DM number. `bits` tells one value from another; the texts are the renderings that the
/// library puts into its own output.
pub struct DmNumber {
    /// The bit pattern of the single-precision value.
    pub bits: u32,
    /// The number as it is shown to a reader: without a fraction when it has none.
    pub shown: String,
    /// The number as JSON writes it; absent for a value that JSON has no number for.
    pub json: Option<String>,
}

/// What a [`DmNumber`] holds.
#[verifier::ext_equal]
pub struct DmNumberView {
    pub bits: u32,
    pub shown: Seq<char>,
    pub json: Option<Seq<char>>,
}

/// The text inside an optional string.
pub open spec fn opt_text(s: Option<String>) -> Option<Seq<char>> {
    match s {
        Some(t) => Some(t@),
        None => None,
    }
}

/// Copies an optional string.
pub fn copy_opt(s: &Option<String>) -> (r: Option<String>)
    ensures
        opt_text(r) == opt_text(*s),
{
    match s {
        Some(t) => Some(t.clone()),
        None => None,
    }
}

impl View for DmNumber {
    type V = DmNumberView;

    open spec fn view(&self) -> DmNumberView {
        DmNumberView { bits: self.bits, shown: self.shown@, json: opt_text(self.json) }
    }
}

impl Clone for DmNumber {
    fn clone(&self) -> (r: Self)
        ensures
            r@ == self@,
    {
        DmNumber { bits: self.bits, shown: self.shown.clone(), json: copy_opt(&self.json) }
    }
}

/// The sorts of DM constants that the library tells apart.
pub enum ConstantKind {
    /// `null`
    Null,
    /// A string literal.
    Str(String),
    /// A file in single quotes.
    Resource(String),
    /// A number.
    Float(DmNumber),
    /// A type path, by its components.
    Prefab(Vec<String>),
    /// A list, a call or a `new`.
    Other,
}

/// What a [`ConstantKind`] holds.
#[verifier::ext_equal]
pub enum ConstantKindView {
    Null,
    Str(Seq<char>),
    Resource(Seq<char>),
    Float(DmNumberView),
    Prefab(Seq<Seq<char>>),
    Other,
}

impl View for ConstantKind {
    type V = ConstantKindView;

    open spec fn view(&self) -> ConstantKindView {
        match self {
            ConstantKind::Null => ConstantKindView::Null,
            ConstantKind::Str(s) => ConstantKindView::Str(s@),
            ConstantKind::Resource(s) => ConstantKindView::Resource(s@),
            ConstantKind::Float(n) => ConstantKindView::Float(n@),
            ConstantKind::Prefab(p) => ConstantKindView::Prefab(texts(p@)),
            ConstantKind::Other => ConstantKindView::Other,
        }
    }
}

/// Copies a list of texts.
pub fn copy_texts(v: &Vec<String>) -> (r: Vec<String>)
    ensures
        texts(r@) == texts(v@),
{
    let mut out: Vec<String> = Vec::new();
    let mut i: usize = 0;
    while i < v.len()
        invariant
            i <= v@.len(),
            texts(out@) == texts(v@).take(i as int),
        decreases v@.len() - i,
    {
        let ghost before = out@;
        out.push(v[i].clone());
        assert(texts(out@) =~= texts(before).push(v@[i as int]@));
        i = i + 1;
        assert(texts(out@) =~= texts(v@).take(i as int));
    }
    assert(texts(v@).take(i as int) =~= texts(v@));
    out
}

/// Tests two lists of texts for equality.
pub fn same_texts(a: &Vec<String>, b: &Vec<String>) -> (r: bool)
    ensures
        r == (texts(a@) == texts(b@)),
{
    if a.len() != b.len() {
        assert(texts(a@).len() != texts(b@).len());
        return false;
    }
    let mut i: usize = 0;
    while i < a.len()
        invariant
            i <= a@.len() == b@.len(),
            forall|j: int| 0 <= j < i ==> a@[j]@ == b@[j]@,
        decreases a@.len() - i,
    {
        if !same_text(a[i].as_str(), b[i].as_str()) {
            assert(texts(a@)[i as int] != texts(b@)[i as int]);
            return false;
        }
        i = i + 1;
    }
    assert(texts(a@) =~= texts(b@));
    true
}

/// Tests two optional texts for equality.
pub fn same_opt(a: &Option<String>, b: &Option<String>) -> (r: bool)
    ensures
        r == (opt_text(*a) == opt_text(*b)),
{
    match (a, b) {
        (Some(s), Some(t)) => same_text(s.as_str(), t.as_str()),
        (None, None) => true,
        _ => false,
    }
}

impl DmNumber {
    /// Tests two numbers for equality.
    pub fn same(&self, other: &DmNumber) -> (r: bool)
        ensures
            r == (self@ == other@),
    {
        self.bits == other.bits && same_text(self.shown.as_str(), other.shown.as_str())
            && same_opt(&self.json, &other.json)
    }
}

impl Clone for ConstantKind {
    fn clone(&self) -> (r: Self)
        ensures
            r@ == self@,
    {
        match self {
            ConstantKind::Null => ConstantKind::Null,
            ConstantKind::Str(s) => ConstantKind::Str(s.clone()),
            ConstantKind::Resource(s) => ConstantKind::Resource(s.clone()),
            ConstantKind::Float(n) => ConstantKind::Float(n.clone()),
            ConstantKind::Prefab(p) => ConstantKind::Prefab(copy_texts(p)),
            ConstantKind::Other => ConstantKind::Other,
        }
    }
}

impl ConstantKind {
    /// Tests two constants for equality.
    pub fn same(&self, other: &ConstantKind) -> (r: bool)
        ensures
            r == (self@ == other@),
    {
        match (self, other) {
            (ConstantKind::Null, ConstantKind::Null) => true,
            (ConstantKind::Str(a), ConstantKind::Str(b)) => same_text(a.as_str(), b.as_str()),
            (ConstantKind::Resource(a), ConstantKind::Resource(b)) => same_text(a.as_str(), b.as_str()),
            (ConstantKind::Float(a), ConstantKind::Float(b)) => a.same(b),
            (ConstantKind::Prefab(a), ConstantKind::Prefab(b)) => same_texts(a, b),
            (ConstantKind::Other, ConstantKind::Other) => true,
            _ => false,
        }
    }
}

/// A constant value of a DM variable.
pub struct Constant {
    pub kind: ConstantKind,
    /// The constant in DM notation, as a map file holds it.
    pub text: String,
    /// The constant in full detail; constants that differ have different details.
    pub detail: String,
}

/// What a [`Constant`] holds.
#[verifier::ext_equal]
pub struct ConstantView {
    pub kind: ConstantKindView,
    pub text: Seq<char>,
    pub detail: Seq<char>,
}

impl View for Constant {
    type V = ConstantView;

    open spec fn view(&self) -> ConstantView {
        ConstantView { kind: self.kind@, text: self.text@, detail: self.detail@ }
    }
}

impl Clone for Constant {
    fn clone(&self) -> (r: Self)
        ensures
            r@ == self@,
    {
        Constant { kind: self.kind.clone(), text: self.text.clone(), detail: self.detail.clone() }
    }
}

impl Constant {
    /// Tests two constants for equality.
    pub fn same(&self, other: &Constant) -> (r: bool)
        ensures
            r == (self@ == other@),
    {
        self.kind.same(&other.kind) && same_text(self.text.as_str(), other.text.as_str())
            && same_text(self.detail.as_str(), other.detail.as_str())
    }
}

/// An object type with the variables that an instance of it overrides.
pub struct Prefab {
    /// The type path, such as `/obj/structure/table`.
    pub path: String,
    /// The overridden variables, in the order in which they were given.
    pub vars: Vec<(String, Constant)>,
}

/// What a [`Prefab`] holds.
#[verifier::ext_equal]
pub struct PrefabView {
    pub path: Seq<char>,
    pub vars: Seq<(Seq<char>, ConstantView)>,
}

/// A prefab without the order of its variables: what makes two prefabs the same.
#[verifier::ext_equal]
pub struct PrefabIdent {
    pub path: Seq<char>,
    pub vars: Map<Seq<char>, ConstantView>,
}

/// The views of a list of named constants.
pub open spec fn var_views(v: Seq<(String, Constant)>) -> Seq<(Seq<char>, ConstantView)> {
    v.map_values(|e: (String, Constant)| (e.0@, e.1@))
}

/// The constant that a list of variables gives to a name.
pub open spec fn var_of(vars: Seq<(Seq<char>, ConstantView)>, name: Seq<char>) -> Option<ConstantView>
    decreases vars.len(),
{
    if vars.len() == 0 {
        None
    } else if vars[0].0 == name {
        Some(vars[0].1)
    } else {
        var_of(vars.skip(1), name)
    }
}

impl PrefabView {
    /// The prefab without the order of its variables.
    pub open spec fn ident(self) -> PrefabIdent {
        PrefabIdent {
            path: self.path,
            vars: Map::new(
                |n: Seq<char>| var_of(self.vars, n) is Some,
                |n: Seq<char>| var_of(self.vars, n).unwrap(),
            ),
        }
    }
}

impl View for Prefab {
    type V = PrefabView;

    open spec fn view(&self) -> PrefabView {
        PrefabView { path: self.path@, vars: var_views(self.vars@) }
    }
}

/// The views of a list of prefabs.
pub open spec fn prefab_views(v: Seq<Prefab>) -> Seq<PrefabView> {
    v.map_values(|p: Prefab| p@)
}

/// The prefabs of a list without the order of their variables.
pub open spec fn idents(v: Seq<PrefabView>) -> Seq<PrefabIdent> {
    v.map_values(|p: PrefabView| p.ident())
}

/// Copies a list of named constants.
pub fn copy_vars(v: &Vec<(String, Constant)>) -> (r: Vec<(String, Constant)>)
    ensures
        var_views(r@) == var_views(v@),
{
    let mut out: Vec<(String, Constant)> = Vec::new();
    let mut i: usize = 0;
    while i < v.len()
        invariant
            i <= v@.len(),
            var_views(out@) == var_views(v@).take(i as int),
        decreases v@.len() - i,
    {
        let ghost before = out@;
        let e = &v[i];
        out.push((e.0.clone(), e.1.clone()));
        assert(var_views(out@) =~= var_views(before).push(var_views(v@)[i as int]));
        i = i + 1;
        assert(var_views(out@) =~= var_views(v@).take(i as int));
    }
    assert(var_views(v@).take(i as int) =~= var_views(v@));
    out
}

/// A name is bound exactly when some entry carries it, and an entry that is the first with its
/// name gives its constant.
pub proof fn var_of_finds(vars: Seq<(Seq<char>, ConstantView)>, name: Seq<char>, i: int)
    requires
        0 <= i < vars.len(),
        vars[i].0 == name,
        forall|j: int| 0 <= j < i ==> vars[j].0 != name,
    ensures
        var_of(vars, name) == Some(vars[i].1),
    decreases i,
{
    if i > 0 {
        let rest = vars.skip(1);
        assert(rest[i - 1] == vars[i]);
        assert forall|j: int| 0 <= j < i - 1 implies rest[j].0 != name by {
            assert(rest[j] == vars[j + 1]);
        }
        var_of_finds(rest, name, i - 1);
    }
}

/// A name that no entry carries is not bound.
pub proof fn var_of_misses(vars: Seq<(Seq<char>, ConstantView)>, name: Seq<char>)
    requires
        forall|j: int| 0 <= j < vars.len() ==> vars[j].0 != name,
    ensures
        var_of(vars, name) is None,
    decreases vars.len(),
{
    if vars.len() > 0 {
        assert forall|j: int| 0 <= j < vars.skip(1).len() implies vars.skip(1)[j].0 != name by {
            assert(vars.skip(1)[j] == vars[j + 1]);
        }
        var_of_misses(vars.skip(1), name);
    }
}

/// A bound name is carried by some entry.
pub proof fn var_of_has_entry(vars: Seq<(Seq<char>, ConstantView)>, name: Seq<char>) -> (i: int)
    requires
        var_of(vars, name) is Some,
    ensures
        0 <= i < vars.len(),
        vars[i].0 == name,
        forall|j: int| 0 <= j < i ==> vars[j].0 != name,
        var_of(vars, name) == Some(vars[i].1),
    decreases vars.len(),
{
    if vars[0].0 == name {
        0
    } else {
        let k = var_of_has_entry(vars.skip(1), name);
        assert(vars.skip(1)[k] == vars[k + 1]);
        assert forall|j: int| 0 <= j < k + 1 implies vars[j].0 != name by {
            if j > 0 {
                assert(vars.skip(1)[j - 1] == vars[j]);
            }
        }
        k + 1
    }
}

/// Finds the constant that a list of variables gives to a name.
pub fn find_var<'a>(vars: &'a Vec<(String, Constant)>, name: &str) -> (r: Option<&'a Constant>)
    ensures
        match r {
            Some(c) => var_of(var_views(vars@), name@) == Some(c@),
            None => var_of(var_views(vars@), name@) is None,
        },
{
    let mut i: usize = 0;
    while i < vars.len()
        invariant
            i <= vars@.len(),
            forall|j: int| 0 <= j < i ==> var_views(vars@)[j].0 != name@,
        decreases vars@.len() - i,
    {
        if same_text(vars[i].0.as_str(), name) {
            proof {
                var_of_finds(var_views(vars@), name@, i as int);
            }
            return Some(&vars[i].1);
        }
        i = i + 1;
    }
    proof {
        var_of_misses(var_views(vars@), name@);
    }
    None
}

/// Whether every variable of `a` is bound to the same constant in `b`.
pub open spec fn vars_within(
    a: Seq<(Seq<char>, ConstantView)>,
    b: Seq<(Seq<char>, ConstantView)>,
) -> bool {
    forall|n: Seq<char>| #[trigger] var_of(a, n) is Some ==> var_of(b, n) == var_of(a, n)
}

fn bound_within(a: &Vec<(String, Constant)>, b: &Vec<(String, Constant)>) -> (r: bool)
    ensures
        r == vars_within(var_views(a@), var_views(b@)),
{
    let ghost av = var_views(a@);
    let ghost bv = var_views(b@);
    let mut i: usize = 0;
    while i < a.len()
        invariant
            i <= a@.len(),
            av == var_views(a@),
            bv == var_views(b@),
            forall|j: int| 0 <= j < i ==> var_of(bv, (#[trigger] av[j]).0) == var_of(av, av[j].0),
        decreases a@.len() - i,
    {
        let name = a[i].0.as_str();
        let mine = find_var(a, name);
        let theirs = find_var(b, name);
        assert(var_of(av, av[i as int].0) is Some) by {
            if var_of(av, av[i as int].0) is None {
                lemma_entry_is_bound(av, i as int);
            }
        }
        let equal = match (mine, theirs) {
            (Some(c), Some(d)) => c.same(d),
            _ => false,
        };
        if !equal {
            assert(var_of(bv, av[i as int].0) != var_of(av, av[i as int].0));
            return false;
        }
        i = i + 1;
    }
    assert forall|n: Seq<char>| #[trigger] var_of(av, n) is Some implies var_of(bv, n) == var_of(av, n) by {
        let k = var_of_has_entry(av, n);
        assert(av[k].0 == n);
    }
    true
}

proof fn lemma_entry_is_bound(vars: Seq<(Seq<char>, ConstantView)>, i: int)
    requires
        0 <= i < vars.len(),
    ensures
        var_of(vars, vars[i].0) is Some,
    decreases vars.len(),
{
    if vars[0].0 != vars[i].0 {
        assert(vars.skip(1)[i - 1] == vars[i]);
        lemma_entry_is_bound(vars.skip(1), i - 1);
    }
}

impl Clone for Prefab {
    fn clone(&self) -> (r: Self)
        ensures
            r@ == self@,
    {
        Prefab { path: self.path.clone(), vars: copy_vars(&self.vars) }
    }
}

impl Prefab {
    /// A prefab of the given type with no overrides.
    pub fn from_path(path: String) -> (r: Prefab)
        ensures
            r@ == (PrefabView { path: path@, vars: Seq::empty() }),
    {
        let r = Prefab { path, vars: Vec::new() };
        assert(var_views(r.vars@) =~= Seq::empty());
        r
    }

    /// Tests whether two prefabs are the same but for the order of their variables.
    pub fn same(&self, other: &Prefab) -> (r: bool)
        ensures
            r == (self@.ident() == other@.ident()),
    {
        if !same_text(self.path.as_str(), other.path.as_str()) {
            return false;
        }
        let forth = bound_within(&self.vars, &other.vars);
        let back = bound_within(&other.vars, &self.vars);
        let ghost a = self@;
        let ghost b = other@;
        proof {
            if forth && back {
                assert forall|n: Seq<char>| var_of(a.vars, n) == var_of(b.vars, n) by {
                    if var_of(a.vars, n) is None && var_of(b.vars, n) is Some {
                        assert(var_of(b.vars, n) is Some);
                    }
                }
                assert(a.ident().vars =~= b.ident().vars);
            }
            if a.ident() == b.ident() {
                assert forall|n: Seq<char>| #[trigger] var_of(a.vars, n) == var_of(b.vars, n) by {
                    assert(a.ident().vars.dom().contains(n) == b.ident().vars.dom().contains(n));
                    if var_of(a.vars, n) is Some {
                        assert(a.ident().vars[n] == b.ident().vars[n]);
                    }
                }
            }
        }
        forth && back
    }
}

/// One overridden variable in DMM notation.
pub open spec fn var_notation(e: (Seq<char>, ConstantView)) -> Seq<char> {
    e.0 + " = "@ + e.1.text
}

/// A list of overridden variables in DMM notation, `; ` between each two.
pub open spec fn vars_notation(vars: Seq<(Seq<char>, ConstantView)>) -> Seq<char>
    decreases vars.len(),
{
    if vars.len() == 0 {
        Seq::empty()
    } else if vars.len() == 1 {
        var_notation(vars[0])
    } else {
        vars_notation(vars.drop_last()) + "; "@ + var_notation(vars.last())
    }
}

/// A prefab in DMM notation: the path, then the overrides in braces if there are any.
pub open spec fn prefab_notation(p: PrefabView) -> Seq<char> {
    if p.vars.len() == 0 {
        p.path
    } else {
        p.path + "{"@ + vars_notation(p.vars) + "}"@
    }
}

impl Prefab {
    /// Writes the prefab in DMM notation, such as `/obj/item{name = "box"; dir = 2}`.
    pub fn notation(&self) -> (r: String)
        ensures
            r@ == prefab_notation(self@),
    {
        if self.vars.len() == 0 {
            return self.path.clone();
        }
        let ghost vars = var_views(self.vars@);
        let mut inner = String::new();
        let mut i: usize = 0;
        while i < self.vars.len()
            invariant
                i <= self.vars@.len(),
                vars == var_views(self.vars@),
                inner@ == vars_notation(vars.take(i as int)),
            decreases self.vars@.len() - i,
        {
            let e = &self.vars[i];
            let mut one = e.0.clone();
            one.append(" = ");
            one.append(e.1.text.as_str());
            if i > 0 {
                inner.append("; ");
            }
            inner.append(one.as_str());
            assert(vars.take(i + 1).drop_last() =~= vars.take(i as int));
            assert(inner@ =~= vars_notation(vars.take(i + 1)));
            i = i + 1;
        }
        assert(vars.take(i as int) =~= vars);
        let mut out = self.path.clone();
        out.append("{");
        out.append(inner.as_str());
        out.append("}");
        out
    }
}

/// Copies a list of prefabs.
pub fn copy_prefabs(v: &Vec<Prefab>) -> (r: Vec<Prefab>)
    ensures
        prefab_views(r@) == prefab_views(v@),
{
    let mut out: Vec<Prefab> = Vec::new();
    let mut i: usize = 0;
    while i < v.len()
        invariant
            i <= v@.len(),
            prefab_views(out@) == prefab_views(v@).take(i as int),
        decreases v@.len() - i,
    {
        let ghost before = out@;
        out.push(v[i].clone());
        assert(prefab_views(out@) =~= prefab_views(before).push(v@[i as int]@));
        i = i + 1;
        assert(prefab_views(out@) =~= prefab_views(v@).take(i as int));
    }
    assert(prefab_views(v@).take(i as int) =~= prefab_views(v@));
    out
}

} // verus!
