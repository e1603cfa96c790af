//! Which sprites are cut out of an icon file, which composites are drawn, and what they are called.

use crate::overlays::{text_lists, visual_views, OverlayInfo, VisualState, VisualView};
use crate::patterns::{
    resolve_overlay_pattern, safe_dir, safe_name, sanitize_dmi_path, sanitize_filename, states_of_pattern,
    trim_leading, without_leading,
};
use crate::prefab::opt_text;
use crate::sprites::{
    count_frames, dir_name, dir_to_string, directions, find_state, frame_count, list_directions, list_names,
    state_named, state_names, Compass, Dir, Dirs, Frames, Icon, IconState,
};
use crate::text::{dec, join_texts, joined, texts, usize_text};
use vstd::prelude::*;

verus! {

/// What is recorded of an icon file.
pub struct DmiMeta {
    pub path: String,
    pub width: u32,
    pub height: u32,
    pub state_count: usize,
    pub states: Vec<String>,
    pub sprite_dir: String,
}

/// Records an icon file.
pub fn describe_dmi(path: &str, icon: &Icon) -> (r: DmiMeta)
    ensures
        r.path@ == path@,
        r.width == icon.width,
        r.height == icon.height,
        r.state_count == icon.states@.len(),
        texts(r.states@) == state_names(icon.states@),
        r.sprite_dir@ == "sprites/"@ + safe_dir(path@),
{
    let mut sprite_dir = "sprites/".to_string();
    sprite_dir.append(sanitize_dmi_path(path).as_str());
    DmiMeta {
        path: path.to_string(),
        width: icon.width,
        height: icon.height,
        state_count: icon.states.len(),
        states: list_names(&icon.states),
        sprite_dir,
    }
}

/// A sprite that was written.
pub struct SpriteEntry {
    /// The file, within the output directory.
    pub file: String,
    /// The icon file it comes from.
    pub dmi_source: String,
    /// What it shows.
    pub state_name: String,
    pub direction: String,
    pub frame: usize,
    pub width: u32,
    pub height: u32,
}

/// What a [`SpriteEntry`] holds.
#[verifier::ext_equal]
pub struct EntryView {
    pub file: Seq<char>,
    pub dmi_source: Seq<char>,
    pub state_name: Seq<char>,
    pub direction: Seq<char>,
    pub frame: int,
    pub width: int,
    pub height: int,
}

impl View for SpriteEntry {
    type V = EntryView;

    open spec fn view(&self) -> EntryView {
        EntryView {
            file: self.file@,
            dmi_source: self.dmi_source@,
            state_name: self.state_name@,
            direction: self.direction@,
            frame: self.frame as int,
            width: self.width as int,
            height: self.height as int,
        }
    }
}

/// The name of the file for a frame; the frame is told only where there are several.
pub open spec fn frame_file(name: Seq<char>, dir: Dir, frame: int, frames: int) -> Seq<char> {
    safe_name(name) + "_"@ + dir_name(dir) + (if frames > 1 {
        "_f"@ + dec(frame) + ".png"@
    } else {
        ".png"@
    })
}

fn write_frame_file(name: &str, dir: Dir, frame: usize, frames: usize) -> (r: String)
    ensures
        r@ == frame_file(name@, dir, frame as int, frames as int),
{
    let mut out = sanitize_filename(name);
    out.append("_");
    out.append(dir_to_string(dir));
    if frames > 1 {
        let mut tail = "_f".to_string();
        tail.append(usize_text(frame).as_str());
        tail.append(".png");
        out.append(tail.as_str());
    } else {
        out.append(".png");
    }
    out
}

// ── Sprites ──────────────────────────────────────────────────────────

/// A sprite to cut out of an icon file.
pub struct SpriteJob {
    pub state: String,
    pub dir: Dir,
    pub frame: usize,
    pub file_name: String,
}

/// What a [`SpriteJob`] holds.
#[verifier::ext_equal]
pub struct SpriteView {
    pub state: Seq<char>,
    pub dir: Dir,
    pub frame: int,
    pub file_name: Seq<char>,
}

impl View for SpriteJob {
    type V = SpriteView;

    open spec fn view(&self) -> SpriteView {
        SpriteView { state: self.state@, dir: self.dir, frame: self.frame as int, file_name: self.file_name@ }
    }
}

/// The views of a list of sprites.
pub open spec fn sprite_views(v: Seq<SpriteJob>) -> Seq<SpriteView> {
    v.map_values(|j: SpriteJob| j@)
}

/// How many frames of a state are extracted.
pub open spec fn frames_taken(f: Frames, first_frame_only: bool) -> nat {
    if first_frame_only {
        1
    } else {
        frame_count(f)
    }
}

/// The first frames of a state in one direction.
pub open spec fn frame_jobs(state: Seq<char>, dir: Dir, upto: nat, frames: nat) -> Seq<SpriteView> {
    Seq::new(
        upto,
        |f: int| SpriteView { state, dir, frame: f, file_name: frame_file(state, dir, f, frames as int) },
    )
}

/// The frames of a state in each direction.
pub open spec fn dir_jobs(state: Seq<char>, dirs: Seq<Dir>, frames: nat) -> Seq<SpriteView>
    decreases dirs.len(),
{
    if dirs.len() == 0 {
        Seq::empty()
    } else {
        dir_jobs(state, dirs.drop_last(), frames) + frame_jobs(state, dirs.last(), frames, frames)
    }
}

/// The sprites of an icon: every extracted frame of every state, in every direction.
pub open spec fn icon_jobs(states: Seq<IconState>, compass: &Compass, first_frame_only: bool) -> Seq<SpriteView>
    decreases states.len(),
{
    if states.len() == 0 {
        Seq::empty()
    } else {
        let s = states.last();
        icon_jobs(states.drop_last(), compass, first_frame_only) + dir_jobs(
            s.name@,
            directions(s.dirs, compass),
            frames_taken(s.frames, first_frame_only),
        )
    }
}

fn add_frames(out: &mut Vec<SpriteJob>, state: &str, dir: Dir, frames: usize)
    ensures
        sprite_views(final(out)@) == sprite_views(old(out)@) + frame_jobs(state@, dir, frames as nat, frames as nat),
{
    let ghost start = sprite_views(out@);
    let mut f: usize = 0;
    assert(sprite_views(out@) =~= start + frame_jobs(state@, dir, 0, frames as nat));
    while f < frames
        invariant
            f <= frames,
            sprite_views(out@) == start + frame_jobs(state@, dir, f as nat, frames as nat),
        decreases frames - f,
    {
        let ghost before = sprite_views(out@);
        let job = SpriteJob {
            state: state.to_string(),
            dir,
            frame: f,
            file_name: write_frame_file(state, dir, f, frames),
        };
        let ghost jv = job@;
        out.push(job);
        assert(sprite_views(out@) =~= before.push(jv));
        assert(frame_jobs(state@, dir, (f + 1) as nat, frames as nat) =~= frame_jobs(
            state@,
            dir,
            f as nat,
            frames as nat,
        ).push(jv));
        assert(sprite_views(out@) =~= start + frame_jobs(state@, dir, (f + 1) as nat, frames as nat));
        f = f + 1;
    }
}

fn add_dirs(out: &mut Vec<SpriteJob>, state: &str, dirs: &Vec<Dir>, frames: usize)
    ensures
        sprite_views(final(out)@) == sprite_views(old(out)@) + dir_jobs(state@, dirs@, frames as nat),
{
    let ghost start = sprite_views(out@);
    let mut i: usize = 0;
    assert(dirs@.take(0) =~= Seq::empty());
    assert(sprite_views(out@) =~= start + dir_jobs(state@, dirs@.take(0), frames as nat));
    while i < dirs.len()
        invariant
            i <= dirs@.len(),
            sprite_views(out@) == start + dir_jobs(state@, dirs@.take(i as int), frames as nat),
        decreases dirs@.len() - i,
    {
        assert(dirs@.take(i + 1).drop_last() =~= dirs@.take(i as int));
        assert(dirs@.take(i + 1).last() == dirs@[i as int]);
        add_frames(out, state, dirs[i], frames);
        assert(sprite_views(out@) =~= start + dir_jobs(state@, dirs@.take(i + 1), frames as nat));
        i = i + 1;
    }
    assert(dirs@.take(i as int) =~= dirs@);
}

/// Plans the sprites of an icon.
pub fn plan_sprites(icon: &Icon, compass: &Compass, first_frame_only: bool) -> (r: Vec<SpriteJob>)
    ensures
        sprite_views(r@) == icon_jobs(icon.states@, compass, first_frame_only),
{
    let ghost states = icon.states@;
    let mut out: Vec<SpriteJob> = Vec::new();
    let mut i: usize = 0;
    assert(sprite_views(out@) =~= icon_jobs(states.take(0), compass, first_frame_only));
    while i < icon.states.len()
        invariant
            i <= states.len(),
            states == icon.states@,
            sprite_views(out@) == icon_jobs(states.take(i as int), compass, first_frame_only),
        decreases states.len() - i,
    {
        assert(states.take(i + 1).drop_last() =~= states.take(i as int));
        assert(states.take(i + 1).last() == states[i as int]);
        let s = &icon.states[i];
        let dirs = list_directions(s.dirs, compass);
        let frames: usize = if first_frame_only { 1 } else { count_frames(s.frames) };
        add_dirs(&mut out, s.name.as_str(), &dirs, frames);
        i = i + 1;
    }
    assert(states.take(i as int) =~= states);
    out
}

/// Records a sprite that was cut out of an icon file.
pub fn sprite_entry(dmi_path: &str, icon: &Icon, job: &SpriteJob) -> (r: SpriteEntry)
    ensures
        r@ == (EntryView {
            file: "sprites/"@ + safe_dir(dmi_path@) + "/"@ + job.file_name@,
            dmi_source: dmi_path@,
            state_name: job.state@,
            direction: dir_name(job.dir),
            frame: job.frame as int,
            width: icon.width as int,
            height: icon.height as int,
        }),
{
    let mut file = "sprites/".to_string();
    file.append(sanitize_dmi_path(dmi_path).as_str());
    file.append("/");
    file.append(job.file_name.as_str());
    SpriteEntry {
        file,
        dmi_source: dmi_path.to_string(),
        state_name: job.state.clone(),
        direction: dir_to_string(job.dir).to_string(),
        frame: job.frame,
        width: icon.width,
        height: icon.height,
    }
}

// ── Composites ───────────────────────────────────────────────────────

/// What a composite shows.
pub enum Showing {
    /// A look of the object, with the number of frames of its base, and whether the icon has
    /// that base at all.
    Look { name: String, frames: usize, has_base: bool },
    /// A combination of overlays, by its place among the combinations.
    Combo(usize),
}

/// What a [`Showing`] holds.
#[verifier::ext_equal]
pub enum ShowingView {
    Look { name: Seq<char>, frames: int, has_base: bool },
    Combo(int),
}

impl View for Showing {
    type V = ShowingView;

    open spec fn view(&self) -> ShowingView {
        match self {
            Showing::Look { name, frames, has_base } => ShowingView::Look {
                name: name@,
                frames: *frames as int,
                has_base: *has_base,
            },
            Showing::Combo(n) => ShowingView::Combo(*n as int),
        }
    }
}

/// A composite to draw: a base state, and the states to lay over it, each with its frame.
pub struct CompositeJob {
    pub showing: Showing,
    pub base: String,
    pub dir: Dir,
    pub frame: usize,
    pub overlays: Vec<(String, usize)>,
}

/// What a [`CompositeJob`] holds.
#[verifier::ext_equal]
pub struct CompositeView {
    pub showing: ShowingView,
    pub base: Seq<char>,
    pub dir: Dir,
    pub frame: int,
    pub overlays: Seq<(Seq<char>, int)>,
}

/// The views of a list of states with their frames.
pub open spec fn layer_views(v: Seq<(String, usize)>) -> Seq<(Seq<char>, int)> {
    v.map_values(|e: (String, usize)| (e.0@, e.1 as int))
}

impl View for CompositeJob {
    type V = CompositeView;

    open spec fn view(&self) -> CompositeView {
        CompositeView {
            showing: self.showing@,
            base: self.base@,
            dir: self.dir,
            frame: self.frame as int,
            overlays: layer_views(self.overlays@),
        }
    }
}

/// The views of a list of composites.
pub open spec fn composite_views(v: Seq<CompositeJob>) -> Seq<CompositeView> {
    v.map_values(|j: CompositeJob| j@)
}

/// The states of an icon that patterns stand for, one pattern after the other.
pub open spec fn states_of_patterns(patterns: Seq<Seq<char>>, names: Seq<Seq<char>>) -> Seq<Seq<char>>
    decreases patterns.len(),
{
    if patterns.len() == 0 {
        Seq::empty()
    } else {
        states_of_patterns(patterns.drop_last(), names) + states_of_pattern(patterns.last(), names)
    }
}

fn list_states(patterns: &Vec<String>, names: &Vec<String>) -> (r: Vec<String>)
    ensures
        texts(r@) == states_of_patterns(texts(patterns@), texts(names@)),
{
    let ghost pv = texts(patterns@);
    let ghost nv = texts(names@);
    let mut out: Vec<String> = Vec::new();
    let mut i: usize = 0;
    assert(texts(out@) =~= states_of_patterns(pv.take(0), nv));
    while i < patterns.len()
        invariant
            i <= patterns@.len(),
            pv == texts(patterns@),
            nv == texts(names@),
            texts(out@) == states_of_patterns(pv.take(i as int), nv),
        decreases patterns@.len() - i,
    {
        assert(pv.take(i + 1).drop_last() =~= pv.take(i as int));
        assert(pv.take(i + 1).last() == patterns@[i as int]@);
        let ghost start = texts(out@);
        let found = resolve_overlay_pattern(patterns[i].as_str(), names);
        let ghost fv = texts(found@);
        let mut j: usize = 0;
        assert(texts(out@) =~= start + fv.take(0));
        while j < found.len()
            invariant
                j <= found@.len(),
                fv == texts(found@),
                texts(out@) == start + fv.take(j as int),
            decreases found@.len() - j,
        {
            let ghost before = texts(out@);
            out.push(found[j].clone());
            assert(texts(out@) =~= before.push(found@[j as int]@));
            assert(fv.take(j + 1) =~= fv.take(j as int).push(fv[j as int]));
            assert(texts(out@) =~= start + fv.take(j + 1));
            j = j + 1;
        }
        assert(fv.take(j as int) =~= fv);
        i = i + 1;
    }
    assert(pv.take(i as int) =~= pv);
    out
}

/// The directions of a state; one that the icon does not have faces south.
pub open spec fn directions_of(state: Option<IconState>, compass: &Compass) -> Seq<Dir> {
    match state {
        Some(s) => directions(s.dirs, compass),
        None => directions(Dirs::One, compass),
    }
}

/// The number of frames of a state; one that the icon does not have counts as having one.
pub open spec fn frames_of(state: Option<IconState>) -> nat {
    match state {
        Some(s) => frame_count(s.frames),
        None => 1,
    }
}

fn find_frames(states: &Vec<IconState>, name: &str) -> (r: usize)
    ensures
        r == frames_of(state_named(states@, name@)),
{
    match find_state(states, name) {
        Some(s) => count_frames(s.frames),
        None => 1,
    }
}

fn find_directions(states: &Vec<IconState>, name: &str, compass: &Compass) -> (r: Vec<Dir>)
    ensures
        r@ == directions_of(state_named(states@, name@), compass),
{
    match find_state(states, name) {
        Some(s) => list_directions(s.dirs, compass),
        None => list_directions(Dirs::One, compass),
    }
}

/// The frame of an overlay that goes with a frame of the base: the same one where both have as
/// many frames, or else the first.
pub open spec fn layer_frame(states: Seq<IconState>, frame: int, frames: int) -> spec_fn(Seq<char>) -> (Seq<char>, int) {
    |name: Seq<char>|
        (
            name,
            if frames_of(state_named(states, name)) == frames {
                frame
            } else {
                0
            },
        )
}

fn pair_frames(states: &Vec<IconState>, names: &Vec<String>, frame: usize, frames: usize) -> (r: Vec<(String, usize)>)
    ensures
        layer_views(r@) == texts(names@).map_values(layer_frame(states@, frame as int, frames as int)),
{
    let ghost nv = texts(names@);
    let ghost f = layer_frame(states@, frame as int, frames as int);
    let mut out: Vec<(String, usize)> = Vec::new();
    let mut i: usize = 0;
    assert(layer_views(out@) =~= nv.take(0).map_values(f));
    while i < names.len()
        invariant
            i <= names@.len(),
            nv == texts(names@),
            f == layer_frame(states@, frame as int, frames as int),
            layer_views(out@) == nv.take(i as int).map_values(f),
        decreases names@.len() - i,
    {
        let ghost before = layer_views(out@);
        let n: usize = if find_frames(states, names[i].as_str()) == frames { frame } else { 0 };
        out.push((names[i].clone(), n));
        assert(layer_views(out@) =~= before.push(f(nv[i as int])));
        assert(nv.take(i + 1).map_values(f) =~= nv.take(i as int).map_values(f).push(f(nv[i as int])));
        i = i + 1;
    }
    assert(nv.take(i as int) =~= nv);
    out
}

/// The state that a look is drawn over.
pub open spec fn look_base(v: VisualView, icon_state: Option<Seq<char>>) -> Seq<char> {
    match v.base_icon_state {
        Some(b) => b,
        None => match icon_state {
            Some(b) => b,
            None => ""@,
        },
    }
}

/// One frame of a look, in one direction.
pub open spec fn look_frame(
    v: VisualView,
    icon_state: Option<Seq<char>>,
    states: Seq<IconState>,
    dir: Dir,
) -> spec_fn(int) -> CompositeView {
    let base = look_base(v, icon_state);
    let state = state_named(states, base);
    let frames = frames_of(state) as int;
    |f: int|
        CompositeView {
            showing: ShowingView::Look { name: v.name, frames, has_base: state is Some },
            base,
            dir,
            frame: f,
            overlays: states_of_patterns(v.overlays, state_names(states)).map_values(layer_frame(states, f, frames)),
        }
}

/// The frames of a look in each direction.
pub open spec fn look_in_dirs(
    v: VisualView,
    icon_state: Option<Seq<char>>,
    states: Seq<IconState>,
    dirs: Seq<Dir>,
) -> Seq<CompositeView>
    decreases dirs.len(),
{
    if dirs.len() == 0 {
        Seq::empty()
    } else {
        look_in_dirs(v, icon_state, states, dirs.drop_last()) + Seq::new(
            frames_of(state_named(states, look_base(v, icon_state))),
            look_frame(v, icon_state, states, dirs.last()),
        )
    }
}

/// The composites of the looks of an object.
pub open spec fn look_jobs(
    looks: Seq<VisualView>,
    icon_state: Option<Seq<char>>,
    states: Seq<IconState>,
    compass: &Compass,
) -> Seq<CompositeView>
    decreases looks.len(),
{
    if looks.len() == 0 {
        Seq::empty()
    } else {
        let v = looks.last();
        look_jobs(looks.drop_last(), icon_state, states, compass) + look_in_dirs(
            v,
            icon_state,
            states,
            directions_of(state_named(states, look_base(v, icon_state)), compass),
        )
    }
}

/// A combination in one direction.
pub open spec fn combo_job(
    combo: Seq<Seq<char>>,
    index: int,
    base: Seq<char>,
    states: Seq<IconState>,
    dir: Dir,
) -> CompositeView {
    CompositeView {
        showing: ShowingView::Combo(index),
        base,
        dir,
        frame: 0,
        overlays: states_of_patterns(combo, state_names(states)).map_values(first_frames()),
    }
}

/// The first frame of an overlay.
pub open spec fn first_frames() -> spec_fn(Seq<char>) -> (Seq<char>, int) {
    |name: Seq<char>| (name, 0int)
}

/// A combination in each direction.
pub open spec fn combo_in_dirs(
    combo: Seq<Seq<char>>,
    index: int,
    base: Seq<char>,
    states: Seq<IconState>,
    dirs: Seq<Dir>,
) -> Seq<CompositeView> {
    dirs.map_values(|d: Dir| combo_job(combo, index, base, states, d))
}

/// The composites of combinations of overlays.
pub open spec fn combo_jobs(
    combos: Seq<Seq<Seq<char>>>,
    base: Seq<char>,
    states: Seq<IconState>,
    compass: &Compass,
) -> Seq<CompositeView>
    decreases combos.len(),
{
    if combos.len() == 0 {
        Seq::empty()
    } else {
        combo_jobs(combos.drop_last(), base, states, compass) + combo_in_dirs(
            combos.last(),
            combos.len() - 1,
            base,
            states,
            directions_of(state_named(states, base), compass),
        )
    }
}

/// The composites of a type: those of its looks where it has any, or else those of the
/// combinations of its overlays.
pub open spec fn composite_jobs(
    info: crate::overlays::InfoView,
    icon_state: Option<Seq<char>>,
    states: Seq<IconState>,
    compass: &Compass,
) -> Seq<CompositeView> {
    if info.visual_states.len() > 0 {
        look_jobs(info.visual_states, icon_state, states, compass)
    } else {
        combo_jobs(
            info.combos,
            match icon_state {
                Some(b) => b,
                None => ""@,
            },
            states,
            compass,
        )
    }
}

fn add_look_frames(
    out: &mut Vec<CompositeJob>,
    look: &VisualState,
    icon_state: &Option<String>,
    icon: &Icon,
    dir: Dir,
    base: &str,
    names: &Vec<String>,
)
    requires
        base@ == look_base(look@, opt_text(*icon_state)),
        texts(names@) == states_of_patterns(texts(look.overlays@), state_names(icon.states@)),
    ensures
        composite_views(final(out)@) == composite_views(old(out)@) + Seq::new(
            frames_of(state_named(icon.states@, base@)),
            look_frame(look@, opt_text(*icon_state), icon.states@, dir),
        ),
{
    let ghost start = composite_views(out@);
    let ghost make = look_frame(look@, opt_text(*icon_state), icon.states@, dir);
    let has_base = find_state(&icon.states, base).is_some();
    let frames: usize = find_frames(&icon.states, base);
    let mut f: usize = 0;
    assert(composite_views(out@) =~= start + Seq::new(0, make));
    while f < frames
        invariant
            f <= frames,
            base@ == look_base(look@, opt_text(*icon_state)),
            texts(names@) == states_of_patterns(texts(look.overlays@), state_names(icon.states@)),
            has_base == (state_named(icon.states@, base@) is Some),
            frames == frames_of(state_named(icon.states@, base@)),
            make == look_frame(look@, opt_text(*icon_state), icon.states@, dir),
            composite_views(out@) == start + Seq::new(f as nat, make),
        decreases frames - f,
    {
        let ghost before = composite_views(out@);
        let job = CompositeJob {
            showing: Showing::Look { name: look.name.clone(), frames, has_base },
            base: base.to_string(),
            dir,
            frame: f,
            overlays: pair_frames(&icon.states, names, f, frames),
        };
        let ghost jv = job@;
        assert(jv == make(f as int));
        out.push(job);
        assert(composite_views(out@) =~= before.push(jv));
        assert(Seq::new((f + 1) as nat, make) =~= Seq::new(f as nat, make).push(make(f as int)));
        assert(composite_views(out@) =~= start + Seq::new((f + 1) as nat, make));
        f = f + 1;
    }
}

fn add_look(out: &mut Vec<CompositeJob>, look: &VisualState, icon_state: &Option<String>, icon: &Icon, compass: &Compass)
    ensures
        composite_views(final(out)@) == composite_views(old(out)@) + look_in_dirs(
            look@,
            opt_text(*icon_state),
            icon.states@,
            directions_of(state_named(icon.states@, look_base(look@, opt_text(*icon_state))), compass),
        ),
{
    let ghost start = composite_views(out@);
    let ghost lv = look@;
    let ghost sv = opt_text(*icon_state);
    let ghost states = icon.states@;
    let base: String = match &look.base_icon_state {
        Some(b) => b.clone(),
        None => match icon_state {
            Some(b) => b.clone(),
            None => "".to_string(),
        },
    };
    let dirs = find_directions(&icon.states, base.as_str(), compass);
    let known = list_names(&icon.states);
    let names = list_states(&look.overlays, &known);
    let mut i: usize = 0;
    assert(composite_views(out@) =~= start + look_in_dirs(lv, sv, states, dirs@.take(0)));
    while i < dirs.len()
        invariant
            i <= dirs@.len(),
            lv == look@,
            sv == opt_text(*icon_state),
            states == icon.states@,
            base@ == look_base(look@, opt_text(*icon_state)),
            texts(names@) == states_of_patterns(texts(look.overlays@), state_names(icon.states@)),
            composite_views(out@) == start + look_in_dirs(lv, sv, states, dirs@.take(i as int)),
        decreases dirs@.len() - i,
    {
        assert(dirs@.take(i + 1).drop_last() =~= dirs@.take(i as int));
        assert(dirs@.take(i + 1).last() == dirs@[i as int]);
        add_look_frames(out, look, icon_state, icon, dirs[i], base.as_str(), &names);
        assert(composite_views(out@) =~= start + look_in_dirs(lv, sv, states, dirs@.take(i + 1)));
        i = i + 1;
    }
    assert(dirs@.take(i as int) =~= dirs@);
}

fn pair_first(names: &Vec<String>) -> (r: Vec<(String, usize)>)
    ensures
        layer_views(r@) == texts(names@).map_values(first_frames()),
{
    let ghost nv = texts(names@);
    let mut out: Vec<(String, usize)> = Vec::new();
    let mut i: usize = 0;
    assert(layer_views(out@) =~= nv.take(0).map_values(first_frames()));
    while i < names.len()
        invariant
            i <= names@.len(),
            nv == texts(names@),
            layer_views(out@) == nv.take(i as int).map_values(first_frames()),
        decreases names@.len() - i,
    {
        let ghost before = layer_views(out@);
        out.push((names[i].clone(), 0));
        assert(layer_views(out@) =~= before.push((nv[i as int], 0int)));
        assert(nv.take(i + 1).map_values(first_frames()) =~= nv.take(i as int).map_values(first_frames()).push(
            (nv[i as int], 0int),
        ));
        i = i + 1;
    }
    assert(nv.take(i as int) =~= nv);
    out
}

fn add_combo(
    out: &mut Vec<CompositeJob>,
    combo: &Vec<String>,
    index: usize,
    base: &str,
    icon: &Icon,
    dirs: &Vec<Dir>,
)
    ensures
        composite_views(final(out)@) == composite_views(old(out)@) + combo_in_dirs(
            texts(combo@),
            index as int,
            base@,
            icon.states@,
            dirs@,
        ),
{
    let ghost start = composite_views(out@);
    let ghost cv = texts(combo@);
    let ghost states = icon.states@;
    let known = list_names(&icon.states);
    let names = list_states(combo, &known);
    let mut i: usize = 0;
    assert(composite_views(out@) =~= start + combo_in_dirs(cv, index as int, base@, states, dirs@.take(0)));
    while i < dirs.len()
        invariant
            i <= dirs@.len(),
            cv == texts(combo@),
            states == icon.states@,
            texts(names@) == states_of_patterns(cv, state_names(states)),
            composite_views(out@) == start + combo_in_dirs(cv, index as int, base@, states, dirs@.take(i as int)),
        decreases dirs@.len() - i,
    {
        let ghost before = composite_views(out@);
        let job = CompositeJob {
            showing: Showing::Combo(index),
            base: base.to_string(),
            dir: dirs[i],
            frame: 0,
            overlays: pair_first(&names),
        };
        let ghost jv = job@;
        assert(jv == combo_job(cv, index as int, base@, states, dirs@[i as int]));
        out.push(job);
        assert(composite_views(out@) =~= before.push(jv));
        assert(combo_in_dirs(cv, index as int, base@, states, dirs@.take(i + 1)) =~= combo_in_dirs(
            cv,
            index as int,
            base@,
            states,
            dirs@.take(i as int),
        ).push(jv));
        assert(composite_views(out@) =~= start + combo_in_dirs(cv, index as int, base@, states, dirs@.take(i + 1)));
        i = i + 1;
    }
    assert(dirs@.take(i as int) =~= dirs@);
}

/// Plans the composites of a type.
pub fn plan_composites(info: &OverlayInfo, icon_state: &Option<String>, icon: &Icon, compass: &Compass) -> (r: Vec<
    CompositeJob,
>)
    ensures
        composite_views(r@) == composite_jobs(info@, opt_text(*icon_state), icon.states@, compass),
{
    let ghost sv = opt_text(*icon_state);
    let ghost states = icon.states@;
    let mut out: Vec<CompositeJob> = Vec::new();
    assert(visual_views(info.visual_states@).len() == info.visual_states@.len());
    if info.visual_states.len() > 0 {
        let ghost looks = visual_views(info.visual_states@);
        let mut i: usize = 0;
        assert(composite_views(out@) =~= look_jobs(looks.take(0), sv, states, compass));
        while i < info.visual_states.len()
            invariant
                i <= info.visual_states@.len(),
                looks == visual_views(info.visual_states@),
                sv == opt_text(*icon_state),
                states == icon.states@,
                composite_views(out@) == look_jobs(looks.take(i as int), sv, states, compass),
            decreases info.visual_states@.len() - i,
        {
            assert(looks.take(i + 1).drop_last() =~= looks.take(i as int));
            assert(looks.take(i + 1).last() == info.visual_states@[i as int]@);
            add_look(&mut out, &info.visual_states[i], icon_state, icon, compass);
            i = i + 1;
        }
        assert(looks.take(i as int) =~= looks);
        return out;
    }
    let base: String = match icon_state {
        Some(b) => b.clone(),
        None => "".to_string(),
    };
    let dirs = find_directions(&icon.states, base.as_str(), compass);
    let ghost combos = text_lists(info.combos@);
    let mut i: usize = 0;
    assert(composite_views(out@) =~= combo_jobs(combos.take(0), base@, states, compass));
    while i < info.combos.len()
        invariant
            i <= info.combos@.len(),
            combos == text_lists(info.combos@),
            states == icon.states@,
            dirs@ == directions_of(state_named(states, base@), compass),
            composite_views(out@) == combo_jobs(combos.take(i as int), base@, states, compass),
        decreases info.combos@.len() - i,
    {
        assert(combos.take(i + 1).drop_last() =~= combos.take(i as int));
        assert(combos.take(i + 1).last() == texts(info.combos@[i as int]@));
        add_combo(&mut out, &info.combos[i], i, base.as_str(), icon, &dirs);
        i = i + 1;
    }
    assert(combos.take(i as int) =~= combos);
    out
}

/// The directory for the composites of a type, within that for all composites.
pub open spec fn type_dir(type_path: Seq<char>) -> Seq<char> {
    without_leading(type_path, '/')
}

/// Names the directory for the composites of a type.
pub fn composite_dir(type_path: &str) -> (r: String)
    ensures
        r@ == type_dir(type_path@),
{
    trim_leading(type_path, '/')
}

/// The overlays of a combination, for a file name: by name where there are few.
pub open spec fn combo_desc(drawn: Seq<Seq<char>>, index: int) -> Seq<char> {
    if drawn.len() <= 3 {
        joined(drawn.map_values(|s: Seq<char>| safe_name(s)), "+"@)
    } else {
        "combo"@ + dec(index)
    }
}

/// The file name of a composite, and what it shows in words, once it is known which overlays
/// were drawn. A composite without any is dropped, but for a look whose base the icon has.
pub open spec fn composite_name(job: CompositeView, drawn: Seq<Seq<char>>) -> Option<(Seq<char>, Seq<char>)> {
    match job.showing {
        ShowingView::Look { name, frames, has_base } => if drawn.len() == 0 && !has_base {
            None
        } else {
            Some(
                (
                    frame_file(name, job.dir, job.frame, frames),
                    if drawn.len() == 0 {
                        name
                    } else {
                        name + "+"@ + joined(drawn, "+"@)
                    },
                ),
            )
        },
        ShowingView::Combo(index) => if drawn.len() == 0 {
            None
        } else {
            Some(
                (
                    safe_name(job.base) + "_"@ + combo_desc(drawn, index) + "_"@ + dir_name(job.dir) + ".png"@,
                    job.base + "+"@ + combo_desc(drawn, index),
                ),
            )
        },
    }
}

fn sanitize_all(names: &Vec<String>) -> (r: Vec<String>)
    ensures
        texts(r@) == texts(names@).map_values(|s: Seq<char>| safe_name(s)),
{
    let ghost nv = texts(names@);
    let mut out: Vec<String> = Vec::new();
    let mut i: usize = 0;
    while i < names.len()
        invariant
            i <= names@.len(),
            nv == texts(names@),
            out@.len() == i,
            forall|k: int| 0 <= k < i ==> (#[trigger] out@[k])@ == safe_name(nv[k]),
        decreases names@.len() - i,
    {
        out.push(sanitize_filename(names[i].as_str()));
        i = i + 1;
    }
    assert(texts(out@) =~= nv.map_values(|s: Seq<char>| safe_name(s)));
    out
}

fn write_combo_desc(drawn: &Vec<String>, index: usize) -> (r: String)
    ensures
        r@ == combo_desc(texts(drawn@), index as int),
{
    assert(texts(drawn@).len() == drawn@.len());
    if drawn.len() <= 3 {
        join_texts(&sanitize_all(drawn), "+")
    } else {
        let mut out = "combo".to_string();
        out.append(usize_text(index).as_str());
        out
    }
}

/// The view of a file name with what the file shows.
pub open spec fn named(r: Option<(String, String)>) -> Option<(Seq<char>, Seq<char>)> {
    match r {
        Some(p) => Some((p.0@, p.1@)),
        None => None,
    }
}

/// Names a composite by the overlays that were drawn, or drops it.
pub fn name_composite(job: &CompositeJob, drawn: &Vec<String>) -> (r: Option<(String, String)>)
    ensures
        named(r) == composite_name(job@, texts(drawn@)),
{
    assert(texts(drawn@).len() == drawn@.len());
    match &job.showing {
        Showing::Look { name, frames, has_base } => {
            if drawn.len() == 0 && !*has_base {
                return None;
            }
            let file = write_frame_file(name.as_str(), job.dir, job.frame, *frames);
            let mut shown = name.clone();
            if drawn.len() > 0 {
                shown.append("+");
                shown.append(join_texts(drawn, "+").as_str());
            }
            Some((file, shown))
        },
        Showing::Combo(index) => {
            if drawn.len() == 0 {
                return None;
            }
            let desc = write_combo_desc(drawn, *index);
            let mut file = sanitize_filename(job.base.as_str());
            file.append("_");
            file.append(desc.as_str());
            file.append("_");
            file.append(dir_to_string(job.dir));
            file.append(".png");
            let mut shown = job.base.clone();
            shown.append("+");
            shown.append(desc.as_str());
            Some((file, shown))
        },
    }
}

/// Records a composite that was drawn.
pub fn composite_entry(
    type_path: &str,
    dmi_path: &str,
    icon: &Icon,
    job: &CompositeJob,
    file_name: &str,
    shown: &str,
) -> (r: SpriteEntry)
    ensures
        r@ == (EntryView {
            file: "composites/"@ + type_dir(type_path@) + "/"@ + file_name@,
            dmi_source: dmi_path@,
            state_name: shown@,
            direction: dir_name(job.dir),
            frame: job.frame as int,
            width: icon.width as int,
            height: icon.height as int,
        }),
{
    let mut file = "composites/".to_string();
    file.append(composite_dir(type_path).as_str());
    file.append("/");
    file.append(file_name);
    SpriteEntry {
        file,
        dmi_source: dmi_path.to_string(),
        state_name: shown.to_string(),
        direction: dir_to_string(job.dir).to_string(),
        frame: job.frame,
        width: icon.width,
        height: icon.height,
    }
}

} // verus!
