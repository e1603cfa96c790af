//! The plan of an extraction: what is recorded of each type, which sprites are cut out of an icon
//! file, and which composites are drawn.

use crate::objtree::ObjectTree;
use crate::overlays::{analyze_overlays, info_view, inherit_overlays, lists, InfoView, OverlayInfo};
use crate::prefab::opt_text;
use crate::text::{same_text, texts};
use vstd::prelude::*;

verus! {

// ── Icons ────────────────────────────────────────────────────────────

/// A direction that a sprite faces.
#[derive(Clone, Copy, PartialEq, Eq, Structural)]
pub enum Dir {
    North,
    South,
    East,
    West,
    Northeast,
    Northwest,
    Southeast,
    Southwest,
}

/// How many directions a state has.
#[derive(Clone, Copy, PartialEq, Eq, Structural)]
pub enum Dirs {
    One,
    Four,
    Eight,
}

/// The directions in the order in which an icon file has them.
pub struct Compass {
    pub cardinals: Vec<Dir>,
    pub all: Vec<Dir>,
}

/// How many frames a state has.
#[derive(Clone, Copy, PartialEq, Eq, Structural)]
pub enum Frames {
    One,
    Count(usize),
    /// As many as there are delays.
    Delays(usize),
}

/// A state of an icon.
pub struct IconState {
    pub name: String,
    pub dirs: Dirs,
    pub frames: Frames,
}

/// The states of an icon file, and the size of its sprites.
pub struct Icon {
    pub states: Vec<IconState>,
    pub width: u32,
    pub height: u32,
}

/// The name of a direction.
pub open spec fn dir_name(d: Dir) -> Seq<char> {
    match d {
        Dir::North => "north"@,
        Dir::South => "south"@,
        Dir::East => "east"@,
        Dir::West => "west"@,
        Dir::Northeast => "northeast"@,
        Dir::Northwest => "northwest"@,
        Dir::Southeast => "southeast"@,
        Dir::Southwest => "southwest"@,
    }
}

/// Names a direction.
pub fn dir_to_string(dir: Dir) -> (r: &'static str)
    ensures
        r@ == dir_name(dir),
{
    match dir {
        Dir::North => "north",
        Dir::South => "south",
        Dir::East => "east",
        Dir::West => "west",
        Dir::Northeast => "northeast",
        Dir::Northwest => "northwest",
        Dir::Southeast => "southeast",
        Dir::Southwest => "southwest",
    }
}

/// The directions of a state.
pub open spec fn directions(dirs: Dirs, compass: &Compass) -> Seq<Dir> {
    match dirs {
        Dirs::One => seq![Dir::South],
        Dirs::Four => compass.cardinals@,
        Dirs::Eight => compass.all@,
    }
}

/// The number of frames of a state.
pub open spec fn frame_count(f: Frames) -> nat {
    match f {
        Frames::One => 1,
        Frames::Count(n) => n as nat,
        Frames::Delays(n) => n as nat,
    }
}

fn copy_dirs(v: &Vec<Dir>) -> (r: Vec<Dir>)
    ensures
        r@ == v@,
{
    let mut out: Vec<Dir> = Vec::new();
    let mut i: usize = 0;
    while i < v.len()
        invariant
            i <= v@.len(),
            out@ == v@.take(i as int),
        decreases v@.len() - i,
    {
        out.push(v[i]);
        assert(v@.take(i + 1) =~= v@.take(i as int).push(v@[i as int]));
        i = i + 1;
    }
    assert(v@.take(i as int) =~= v@);
    out
}

/// Lists the directions of a state.
pub fn list_directions(dirs: Dirs, compass: &Compass) -> (r: Vec<Dir>)
    ensures
        r@ == directions(dirs, compass),
{
    match dirs {
        Dirs::One => {
            let mut out: Vec<Dir> = Vec::new();
            out.push(Dir::South);
            assert(out@ =~= seq![Dir::South]);
            out
        },
        Dirs::Four => copy_dirs(&compass.cardinals),
        Dirs::Eight => copy_dirs(&compass.all),
    }
}

/// Counts the frames of a state.
pub fn count_frames(f: Frames) -> (r: usize)
    ensures
        r == frame_count(f),
{
    match f {
        Frames::One => 1,
        Frames::Count(n) => n,
        Frames::Delays(n) => n,
    }
}

/// The names of the states of an icon.
pub open spec fn state_names(states: Seq<IconState>) -> Seq<Seq<char>> {
    states.map_values(|s: IconState| s.name@)
}

/// The state of that name: the first.
pub open spec fn state_named(states: Seq<IconState>, name: Seq<char>) -> Option<IconState>
    decreases states.len(),
{
    if states.len() == 0 {
        None
    } else if states[0].name@ == name {
        Some(states[0])
    } else {
        state_named(states.skip(1), name)
    }
}

/// Finds the state of that name.
pub fn find_state<'a>(states: &'a Vec<IconState>, name: &str) -> (r: Option<&'a IconState>)
    ensures
        match r {
            Some(s) => state_named(states@, name@) == Some(*s),
            None => state_named(states@, name@) is None,
        },
{
    let mut i: usize = 0;
    assert(states@.skip(0) =~= states@);
    while i < states.len()
        invariant
            i <= states@.len(),
            state_named(states@.skip(i as int), name@) == state_named(states@, name@),
        decreases states@.len() - i,
    {
        assert(states@.skip(i as int).skip(1) =~= states@.skip(i + 1));
        if same_text(states[i].name.as_str(), name) {
            return Some(&states[i]);
        }
        i = i + 1;
    }
    None
}

/// Lists the names of the states of an icon.
pub fn list_names(states: &Vec<IconState>) -> (r: Vec<String>)
    ensures
        texts(r@) == state_names(states@),
{
    let mut out: Vec<String> = Vec::new();
    let mut i: usize = 0;
    assert(texts(out@) =~= state_names(states@.take(0)));
    while i < states.len()
        invariant
            i <= states@.len(),
            texts(out@) == state_names(states@.take(i as int)),
        decreases states@.len() - i,
    {
        let ghost before = texts(out@);
        out.push(states[i].name.clone());
        assert(texts(out@) =~= before.push(states@[i as int].name@));
        assert(state_names(states@.take(i + 1)) =~= state_names(states@.take(i as int)).push(states@[i as int].name@));
        i = i + 1;
    }
    assert(states@.take(i as int) =~= states@);
    out
}

// ── Types ────────────────────────────────────────────────────────────

/// What is recorded of a type.
pub struct TypeMeta {
    pub type_path: String,
    pub name: Option<String>,
    pub desc: Option<String>,
    pub parent_path: String,
    pub parent_chain: Vec<String>,
    pub icon_file: Option<String>,
    pub icon_state: Option<String>,
    pub overlay_info: Option<OverlayInfo>,
}

/// What a [`TypeMeta`] holds.
#[verifier::ext_equal]
pub struct MetaView {
    pub type_path: Seq<char>,
    pub name: Option<Seq<char>>,
    pub desc: Option<Seq<char>>,
    pub parent_path: Seq<char>,
    pub parent_chain: Seq<Seq<char>>,
    pub icon_file: Option<Seq<char>>,
    pub icon_state: Option<Seq<char>>,
    pub overlay_info: Option<InfoView>,
}

impl View for TypeMeta {
    type V = MetaView;

    open spec fn view(&self) -> MetaView {
        MetaView {
            type_path: self.type_path@,
            name: opt_text(self.name),
            desc: opt_text(self.desc),
            parent_path: self.parent_path@,
            parent_chain: texts(self.parent_chain@),
            icon_file: opt_text(self.icon_file),
            icon_state: opt_text(self.icon_state),
            overlay_info: info_view(self.overlay_info),
        }
    }
}

/// The views of what is recorded of types.
pub open spec fn meta_views(v: Seq<TypeMeta>) -> Seq<MetaView> {
    v.map_values(|m: TypeMeta| m@)
}

impl ObjectTree {
    /// The paths of the types of a line up to one without a path.
    pub open spec fn paths_of(&self, line: Seq<int>) -> Seq<Seq<char>>
        decreases line.len(),
    {
        if line.len() == 0 || self.path(line[0]).len() == 0 {
            Seq::empty()
        } else {
            seq![self.path(line[0])] + self.paths_of(line.skip(1))
        }
    }

    /// The paths of the types that a type inherits from, nearest first.
    pub open spec fn parent_chain(&self, t: int) -> Seq<Seq<char>> {
        self.paths_of(self.lineage(t).skip(1))
    }

    /// The path of the type that a type inherits from directly; empty if there is none.
    pub open spec fn parent_path(&self, t: int) -> Seq<char> {
        match self.types@[t].parent {
            Some(p) => self.path(p as int),
            None => ""@,
        }
    }

    /// Lists the paths of the types that a type inherits from, nearest first.
    pub fn build_parent_chain(&self, t: usize) -> (r: Vec<String>)
        requires
            self.wf(),
            t < self.types@.len(),
        ensures
            texts(r@) == self.parent_chain(t as int),
    {
        let mut chain: Vec<String> = Vec::new();
        let mut current: Option<usize> = self.types[t].parent;
        let ghost mut line = self.lineage(t as int).skip(1);
        proof {
            match current {
                Some(p) => {
                    assert(line =~= self.lineage(p as int));
                },
                None => {
                    assert(line =~= Seq::empty());
                },
            }
            assert(texts(chain@) + self.paths_of(line) =~= self.parent_chain(t as int));
        }
        loop
            invariant
                self.wf(),
                t < self.types@.len(),
                current matches Some(q) ==> q < self.types@.len() && line == self.lineage(q as int),
                current is None ==> line.len() == 0,
                texts(chain@) + self.paths_of(line) == self.parent_chain(t as int),
            decreases line.len(),
        {
            let p: usize = match current {
                Some(p) => p,
                None => {
                    assert(texts(chain@) =~= self.parent_chain(t as int));
                    return chain;
                },
            };
            let node = &self.types[p];
            assert(line[0] == p as int);
            if node.path.as_str().is_empty() {
                assert(texts(chain@) =~= self.parent_chain(t as int));
                return chain;
            }
            let ghost before = texts(chain@);
            let ghost rest = line.skip(1);
            chain.push(node.path.clone());
            current = node.parent;
            proof {
                assert(texts(chain@) =~= before.push(self.path(p as int)));
                assert(texts(chain@) + self.paths_of(rest) =~= before + self.paths_of(line));
                match node.parent {
                    Some(q) => {
                        assert(rest =~= self.lineage(q as int));
                    },
                    None => {
                        assert(rest =~= Seq::empty());
                    },
                }
                line = rest;
            }
        }
    }

    /// What is recorded of a type on its own account.
    pub open spec fn described(&self, t: int) -> MetaView {
        MetaView {
            type_path: self.path(t),
            name: self.text_var(t, "name"@),
            desc: self.text_var(t, "desc"@),
            parent_path: self.parent_path(t),
            parent_chain: self.parent_chain(t),
            icon_file: self.text_var(t, "icon"@),
            icon_state: self.text_var(t, "icon_state"@),
            overlay_info: self.analysis(t),
        }
    }

    /// Records a type.
    pub fn describe_type(&self, t: usize) -> (r: TypeMeta)
        requires
            self.wf(),
            t < self.types@.len(),
        ensures
            r@ == self.described(t as int),
    {
        let parent_path = match self.types[t].parent {
            Some(p) => self.types[p].path.clone(),
            None => "".to_string(),
        };
        TypeMeta {
            type_path: self.types[t].path.clone(),
            name: self.resolve_var_string(t, "name"),
            desc: self.resolve_var_string(t, "desc"),
            parent_path,
            parent_chain: self.build_parent_chain(t),
            icon_file: self.resolve_var_string(t, "icon"),
            icon_state: self.resolve_var_string(t, "icon_state"),
            overlay_info: analyze_overlays(self, t),
        }
    }
}

/// The icon files that types use, each once, in the order of the first type.
pub open spec fn icons_of(metas: Seq<MetaView>) -> Seq<Seq<char>>
    decreases metas.len(),
{
    if metas.len() == 0 {
        Seq::empty()
    } else {
        let before = icons_of(metas.drop_last());
        match metas.last().icon_file {
            Some(icon) => if before.contains(icon) {
                before
            } else {
                before.push(icon)
            },
            None => before,
        }
    }
}

/// Tells whether a type is written out. Types without an icon can be skipped.
pub fn is_written(meta: &TypeMeta, skip_no_icon: bool) -> (r: bool)
    ensures
        r == (meta@.icon_file is Some || !skip_no_icon),
{
    meta.icon_file.is_some() || !skip_no_icon
}

/// Lists the icon files that types use.
pub fn icon_files(metas: &Vec<TypeMeta>) -> (r: Vec<String>)
    ensures
        texts(r@) == icons_of(meta_views(metas@)),
{
    let ghost all = meta_views(metas@);
    let mut out: Vec<String> = Vec::new();
    let mut i: usize = 0;
    assert(texts(out@) =~= icons_of(all.take(0)));
    while i < metas.len()
        invariant
            i <= metas@.len(),
            all == meta_views(metas@),
            texts(out@) == icons_of(all.take(i as int)),
        decreases metas@.len() - i,
    {
        assert(all.take(i + 1).drop_last() =~= all.take(i as int));
        assert(all.take(i + 1).last() == metas@[i as int]@);
        let ghost before = texts(out@);
        if let Some(icon) = &metas[i].icon_file {
            if !lists(&out, icon.as_str()) {
                out.push(icon.clone());
                assert(texts(out@) =~= before.push(icon@));
            }
        }
        i = i + 1;
    }
    assert(all.take(i as int) =~= all);
    out
}

/// What is known of the overlays of the type with that path: the last record counts.
pub open spec fn info_at(metas: Seq<MetaView>, path: Seq<char>) -> Option<InfoView>
    decreases metas.len(),
{
    if metas.len() == 0 {
        None
    } else if metas.last().type_path == path && metas.last().overlay_info is Some {
        metas.last().overlay_info
    } else {
        info_at(metas.drop_last(), path)
    }
}

/// What is known of the overlays of the first type of a chain of which anything is.
pub open spec fn nearest_info(metas: Seq<MetaView>, chain: Seq<Seq<char>>) -> Option<InfoView>
    decreases chain.len(),
{
    if chain.len() == 0 {
        None
    } else {
        match info_at(metas, chain[0]) {
            Some(i) => Some(i),
            None => nearest_info(metas, chain.skip(1)),
        }
    }
}

fn find_info<'a>(metas: &'a Vec<TypeMeta>, path: &str) -> (r: Option<&'a OverlayInfo>)
    ensures
        match r {
            Some(i) => info_at(meta_views(metas@), path@) == Some(i@),
            None => info_at(meta_views(metas@), path@) is None,
        },
{
    let ghost all = meta_views(metas@);
    let mut i: usize = metas.len();
    assert(all.take(i as int) =~= all);
    while i > 0
        invariant
            i <= metas@.len(),
            all == meta_views(metas@),
            info_at(all.take(i as int), path@) == info_at(all, path@),
        decreases i,
    {
        assert(all.take(i as int).drop_last() =~= all.take(i - 1));
        assert(all.take(i as int).last() == metas@[i - 1]@);
        if same_text(metas[i - 1].type_path.as_str(), path) {
            if let Some(info) = &metas[i - 1].overlay_info {
                return Some(info);
            }
        }
        i = i - 1;
    }
    None
}

fn find_nearest<'a>(metas: &'a Vec<TypeMeta>, chain: &Vec<String>) -> (r: Option<&'a OverlayInfo>)
    ensures
        match r {
            Some(i) => nearest_info(meta_views(metas@), texts(chain@)) == Some(i@),
            None => nearest_info(meta_views(metas@), texts(chain@)) is None,
        },
{
    let ghost all = meta_views(metas@);
    let ghost cv = texts(chain@);
    let mut i: usize = 0;
    assert(cv.skip(0) =~= cv);
    while i < chain.len()
        invariant
            i <= chain@.len(),
            all == meta_views(metas@),
            cv == texts(chain@),
            nearest_info(all, cv.skip(i as int)) == nearest_info(all, cv),
        decreases chain@.len() - i,
    {
        assert(cv.skip(i as int).skip(1) =~= cv.skip(i + 1));
        assert(cv.skip(i as int)[0] == chain@[i as int]@);
        if let Some(info) = find_info(metas, chain[i].as_str()) {
            return Some(info);
        }
        i = i + 1;
    }
    None
}

impl ObjectTree {
    /// What is recorded of a type once overlays are inherited.
    pub open spec fn with_inherited(&self, t: int, meta: MetaView, metas: Seq<MetaView>) -> MetaView {
        if meta.overlay_info is Some {
            meta
        } else {
            match nearest_info(metas, meta.parent_chain) {
                Some(i) => MetaView { overlay_info: Some(self.taken_over(t, i)), ..meta },
                None => meta,
            }
        }
    }

    /// What is recorded of types once overlays are inherited. Only overlays that a type has on
    /// its own account are handed down.
    pub open spec fn all_inherited(&self, types: Seq<int>, metas: Seq<MetaView>) -> Seq<MetaView> {
        Seq::new(metas.len(), |i: int| self.with_inherited(types[i], metas[i], metas))
    }

    /// What the extraction records of types.
    pub open spec fn recorded(&self, types: Seq<int>) -> Seq<MetaView> {
        self.all_inherited(types, types.map_values(|t: int| self.described(t)))
    }

    /// Records types, and hands down what is known of overlays to those that have none of their
    /// own.
    pub fn record_types(&self, types: &Vec<usize>) -> (r: Vec<TypeMeta>)
        requires
            self.wf(),
            forall|i: int| 0 <= i < types@.len() ==> #[trigger] types@[i] < self.types@.len(),
        ensures
            meta_views(r@) == self.recorded(crate::walker::places(types@)),
    {
        let ghost tv = crate::walker::places(types@);
        let ghost own = tv.map_values(|t: int| self.described(t));
        let mut metas: Vec<TypeMeta> = Vec::new();
        let mut i: usize = 0;
        while i < types.len()
            invariant
                i <= types@.len(),
                self.wf(),
                forall|k: int| 0 <= k < types@.len() ==> #[trigger] types@[k] < self.types@.len(),
                tv == crate::walker::places(types@),
                own == tv.map_values(|t: int| self.described(t)),
                metas@.len() == i,
                forall|k: int| 0 <= k < i ==> (#[trigger] metas@[k])@ == own[k],
            decreases types@.len() - i,
        {
            metas.push(self.describe_type(types[i]));
            assert(own[i as int] == self.described(tv[i as int]));
            i = i + 1;
        }
        assert(meta_views(metas@) =~= own);
        let mut handed: Vec<Option<OverlayInfo>> = Vec::new();
        let mut j: usize = 0;
        while j < types.len()
            invariant
                j <= types@.len(),
                self.wf(),
                forall|k: int| 0 <= k < types@.len() ==> #[trigger] types@[k] < self.types@.len(),
                tv == crate::walker::places(types@),
                metas@.len() == types@.len(),
                own.len() == types@.len(),
                meta_views(metas@) == own,
                handed@.len() == j,
                forall|k: int| 0 <= k < j ==> self.handed_down(tv[k], own[k], own, #[trigger] handed@[k]),
            decreases types@.len() - j,
        {
            assert(own[j as int] == metas@[j as int]@);
            assert(tv[j as int] == types@[j as int]);
            if metas[j].overlay_info.is_some() {
                handed.push(None);
            } else {
                match find_nearest(&metas, &metas[j].parent_chain) {
                    Some(info) => {
                        handed.push(inherit_overlays(self, types[j], info));
                    },
                    None => {
                        handed.push(None);
                    },
                }
            }
            j = j + 1;
        }
        let ghost all = self.recorded(tv);
        while handed.len() > 0
            invariant
                handed@.len() <= metas@.len() == own.len() == all.len(),
                all == self.all_inherited(tv, own),
                forall|k: int| 0 <= k < handed@.len() ==> (#[trigger] metas@[k])@ == own[k],
                forall|k: int| handed@.len() <= k < metas@.len() ==> (#[trigger] metas@[k])@ == all[k],
                forall|k: int| 0 <= k < handed@.len() ==> self.handed_down(tv[k], own[k], own, #[trigger] handed@[k]),
            decreases handed@.len(),
        {
            let last: usize = handed.len() - 1;
            assert(metas@[last as int]@ == own[last as int]);
            assert(self.handed_down(tv[last as int], own[last as int], own, handed@[last as int]));
            if let Some(h) = handed.pop() {
                if h.is_some() {
                    metas[last].overlay_info = h;
                }
            }
            assert(metas@[last as int]@ == self.with_inherited(tv[last as int], own[last as int], own));
        }
        assert(meta_views(metas@) =~= all);
        metas
    }

    spec fn handed_down(&self, t: int, meta: MetaView, metas: Seq<MetaView>, h: Option<OverlayInfo>) -> bool {
        if meta.overlay_info is Some {
            h is None
        } else {
            match nearest_info(metas, meta.parent_chain) {
                Some(i) => info_view(h) == Some(self.taken_over(t, i)),
                None => h is None,
            }
        }
    }
}

} // verus!
