//! What holds of an extraction: which sprites and composites there are, what their files are
//! called, and what is recorded of types.

use crate::extraction::{
    combo_in_dirs, combo_job, combo_jobs, composite_jobs, composite_name, dir_jobs, directions_of, frame_file,
    frame_jobs, frames_of, frames_taken, icon_jobs, look_base, look_frame, look_in_dirs, look_jobs, states_of_patterns,
    type_dir, CompositeView, ShowingView, SpriteView,
};
use crate::objtree::ObjectTree;
use crate::overlays::{InfoView, VisualView};
use crate::patterns::{fits, parsed, safe_dir, safe_name, states_of_pattern, without_suffix};
use crate::sprites::{
    dir_name, directions, frame_count, icons_of, info_at, nearest_info, state_named, state_names, Compass, Dir, Dirs, Frames,
    IconState, MetaView,
};
use crate::text::{dec, ends_with, joined, next_char, next_char_is_first, replaced, stands_at, starts_with};
use vstd::prelude::*;

verus! {

// ── Directions and frames ────────────────────────────────────────────

/// Each direction has its own name.
pub proof fn directions_have_their_names(a: Dir, b: Dir)
    ensures
        dir_name(Dir::North) == "north"@,
        dir_name(Dir::South) == "south"@,
        dir_name(Dir::East) == "east"@,
        dir_name(Dir::West) == "west"@,
        dir_name(Dir::Northeast) == "northeast"@,
        dir_name(Dir::Northwest) == "northwest"@,
        dir_name(Dir::Southeast) == "southeast"@,
        dir_name(Dir::Southwest) == "southwest"@,
        dir_name(a) == dir_name(b) <==> a == b,
        forall|i: int| 0 <= i < dir_name(a).len() ==> 'a' <= #[trigger] dir_name(a)[i] <= 'z',
{
    reveal_strlit("north");
    reveal_strlit("south");
    reveal_strlit("east");
    reveal_strlit("west");
    reveal_strlit("northeast");
    reveal_strlit("northwest");
    reveal_strlit("southeast");
    reveal_strlit("southwest");
    assert("north"@.len() == 5 && "south"@.len() == 5 && "east"@.len() == 4 && "west"@.len() == 4);
    assert("northeast"@.len() == 9 && "northwest"@.len() == 9 && "southeast"@.len() == 9 && "southwest"@.len() == 9);
    assert("north"@[0] == 'n' && "south"@[0] == 's' && "east"@[0] == 'e' && "west"@[0] == 'w');
    assert("northeast"@[0] == 'n' && "northwest"@[0] == 'n' && "southeast"@[0] == 's' && "southwest"@[0] == 's');
    assert("northeast"@[5] == 'e' && "northwest"@[5] == 'w' && "southeast"@[5] == 'e' && "southwest"@[5] == 'w');
}

/// A state with one direction faces south, one with four the cardinals and one with eight all of
/// them; a state without animation has one frame, another as many as it says, and where only the
/// first is wanted one is taken.
pub proof fn states_have_their_directions_and_frames(compass: &Compass, n: usize, f: Frames)
    ensures
        directions(Dirs::One, compass) == seq![Dir::South],
        directions(Dirs::Four, compass) == compass.cardinals@,
        directions(Dirs::Eight, compass) == compass.all@,
        frame_count(Frames::One) == 1,
        frame_count(Frames::Count(n)) == n,
        frame_count(Frames::Delays(n)) == n,
        frames_taken(f, true) == 1,
        frames_taken(f, false) == frame_count(f),
{
}

/// The state of a name is the first of that name, and there is none only where no state has it.
pub proof fn the_first_state_of_a_name_counts(states: Seq<IconState>, name: Seq<char>)
    ensures
        match state_named(states, name) {
            Some(s) => exists|i: int|
                #![trigger states[i]]
                0 <= i < states.len() && states[i] == s && s.name@ == name && forall|j: int|
                    0 <= j < i ==> (#[trigger] states[j]).name@ != name,
            None => forall|i: int| 0 <= i < states.len() ==> (#[trigger] states[i]).name@ != name,
        },
    decreases states.len(),
{
    if states.len() > 0 {
        let rest = states.skip(1);
        the_first_state_of_a_name_counts(rest, name);
        if states[0].name@ != name {
            match state_named(rest, name) {
                Some(s) => {
                    let i = choose|i: int|
                        #![trigger rest[i]]
                        0 <= i < rest.len() && rest[i] == s && s.name@ == name && forall|j: int|
                            0 <= j < i ==> (#[trigger] rest[j]).name@ != name;
                    assert(states[i + 1] == s);
                    assert forall|j: int| 0 <= j < i + 1 implies (#[trigger] states[j]).name@ != name by {
                        if j > 0 {
                            assert(rest[j - 1] == states[j]);
                        }
                    }
                },
                None => {
                    assert forall|i: int| 0 <= i < states.len() implies (#[trigger] states[i]).name@ != name by {
                        if i > 0 {
                            assert(rest[i - 1] == states[i]);
                        }
                    }
                },
            }
        } else {
            assert(states[0] == states[0]);
        }
    }
}

// ── File names ───────────────────────────────────────────────────────

proof fn lemma_letters_first(a: Seq<char>, x: Seq<char>, b: Seq<char>, y: Seq<char>)
    requires
        a + x == b + y,
        forall|i: int| 0 <= i < a.len() ==> 'a' <= #[trigger] a[i] <= 'z',
        forall|i: int| 0 <= i < b.len() ==> 'a' <= #[trigger] b[i] <= 'z',
        x.len() > 0,
        y.len() > 0,
        !('a' <= x[0] <= 'z'),
        !('a' <= y[0] <= 'z'),
    ensures
        a == b,
        x == y,
{
    let s = a + x;
    if a.len() < b.len() {
        assert(s[a.len() as int] == x[0]);
        assert((b + y)[a.len() as int] == b[a.len() as int]);
    } else if b.len() < a.len() {
        assert((b + y)[b.len() as int] == y[0]);
        assert(s[b.len() as int] == a[b.len() as int]);
    }
    assert(a =~= b) by {
        assert forall|i: int| 0 <= i < a.len() implies a[i] == b[i] by {
            assert(s[i] == (b + y)[i]);
        }
    }
    let n = a.len() as int;
    assert((a + x).skip(n) =~= x);
    assert((b + y).skip(n) =~= y);
}

/// The file of a frame is named after its state, made fit for a file name, its direction, and,
/// where there are several frames, its number; no two frames of a state share a file.
pub proof fn frames_have_files_of_their_own(name: Seq<char>, a: Dir, f: int, b: Dir, g: int, frames: int)
    ensures
        frames <= 1 ==> frame_file(name, a, f, frames) == safe_name(name) + "_"@ + dir_name(a) + ".png"@,
        frames > 1 ==> frame_file(name, a, f, frames) == safe_name(name) + "_"@ + dir_name(a) + ("_f"@ + dec(f) + ".png"@),
        frame_file(name, a, f, frames) == frame_file(name, b, g, frames) ==> a == b && (frames > 1 ==> f == g),
{
    if frame_file(name, a, f, frames) == frame_file(name, b, g, frames) {
        reveal_strlit("_f");
        reveal_strlit(".png");
        directions_have_their_names(a, b);
        directions_have_their_names(b, a);
        let head = safe_name(name) + "_"@;
        let x = if frames > 1 { "_f"@ + dec(f) + ".png"@ } else { ".png"@ };
        let y = if frames > 1 { "_f"@ + dec(g) + ".png"@ } else { ".png"@ };
        let n = head.len() as int;
        assert((head + dir_name(a) + x).skip(n) =~= dir_name(a) + x);
        assert((head + dir_name(b) + y).skip(n) =~= dir_name(b) + y);
        lemma_letters_first(dir_name(a), x, dir_name(b), y);
        if frames > 1 {
            assert(x.skip(2).take(x.len() - 6) =~= dec(f));
            assert(y.skip(2).take(y.len() - 6) =~= dec(g));
            crate::text_laws::numbers_read_as_themselves(f, g);
        }
    }
}

/// The directory of a type's composites is its path without the slashes in front.
pub proof fn a_type_has_its_directory(path: Seq<char>)
    ensures
        path.len() > 0 && path[0] == '/' ==> type_dir(path) == type_dir(path.skip(1)),
        path.len() == 0 || path[0] != '/' ==> type_dir(path) == path,
        type_dir(path).len() > 0 ==> type_dir(path)[0] != '/',
    decreases path.len(),
{
    if path.len() > 0 && path[0] == '/' {
        a_type_has_its_directory(path.skip(1));
    }
}

proof fn lemma_separators_replaced(parts: Seq<Seq<char>>, c: char, to: Seq<char>)
    requires
        parts.len() > 0,
        forall|i: int| 0 <= i < parts.len() ==> !(#[trigger] parts[i]).contains(c),
    ensures
        replaced(joined(parts, seq![c]), seq![c], to) == joined(parts, to),
    decreases parts.len(),
{
    let first = parts[0];
    assert forall|at: int| !stands_at(first, seq![c], at) by {
        if stands_at(first, seq![c], at) {
            assert(first.subrange(at, at + 1)[0] == first[at]);
            assert(first.contains(c));
        }
    }
    if parts.len() == 1 {
        crate::text_laws::nothing_to_replace(first, seq![c], to);
    } else {
        let rest = parts.skip(1);
        crate::text_laws::lemma_joined_first(parts, seq![c]);
        crate::text_laws::lemma_joined_first(parts, to);
        assert forall|i: int| 0 <= i < rest.len() implies !(#[trigger] rest[i]).contains(c) by {
            assert(rest[i] == parts[i + 1]);
        }
        lemma_separators_replaced(rest, c, to);
        let s = first + seq![c] + joined(rest, seq![c]);
        assert forall|at: int| 0 <= at < first.len() implies !stands_at(s, seq![c], at) by {
            if stands_at(s, seq![c], at) {
                assert(s.subrange(at, at + 1)[0] == s[at]);
                assert(first.contains(first[at]));
            }
        }
        crate::text_laws::the_first_occurrence_is_replaced(first, seq![c], joined(rest, seq![c]), to);
    }
}

/// The directory of an icon file is its path without `.dmi` at the end, with two underscores in
/// place of each slash: `icons/obj/power.dmi` goes to `icons__obj__power`.
pub proof fn an_icon_has_its_directory(parts: Seq<Seq<char>>)
    requires
        parts.len() > 0,
        forall|i: int| 0 <= i < parts.len() ==> !(#[trigger] parts[i]).contains('/') && !parts[i].contains('\\'),
        !ends_with(joined(parts, "/"@), ".dmi"@),
    ensures
        safe_dir(joined(parts, "/"@) + ".dmi"@) == joined(parts, "__"@),
        safe_dir(joined(parts, "/"@)) == joined(parts, "__"@),
{
    reveal_strlit(".dmi");
    reveal_strlit("/");
    reveal_strlit("\\");
    reveal_strlit("__");
    assert("/"@ =~= seq!['/']);
    assert("\\"@ =~= seq!['\\']);
    let plain = joined(parts, "/"@);
    let s = plain + ".dmi"@;
    assert(s.skip(s.len() - 4) =~= ".dmi"@);
    assert(s.take(s.len() - 4) =~= plain);
    assert(without_suffix(s, ".dmi"@) == without_suffix(plain, ".dmi"@));
    lemma_separators_replaced(parts, '/', "__"@);
    let flat = joined(parts, "__"@);
    lemma_no_char(parts, "__"@, '\\');
    assert forall|at: int| !stands_at(flat, "\\"@, at) by {
        if stands_at(flat, "\\"@, at) {
            assert(flat.subrange(at, at + 1)[0] == flat[at]);
            assert(flat.contains('\\'));
        }
    }
    crate::text_laws::nothing_to_replace(flat, "\\"@, "__"@);
}

proof fn lemma_no_char(parts: Seq<Seq<char>>, sep: Seq<char>, c: char)
    requires
        forall|i: int| 0 <= i < parts.len() ==> !(#[trigger] parts[i]).contains(c),
        !sep.contains(c),
    ensures
        !joined(parts, sep).contains(c),
    decreases parts.len(),
{
    if parts.len() > 1 {
        let front = parts.drop_last();
        assert forall|i: int| 0 <= i < front.len() implies !(#[trigger] front[i]).contains(c) by {
            assert(front[i] == parts[i]);
        }
        lemma_no_char(front, sep, c);
        let a = joined(front, sep);
        let last = parts[parts.len() - 1];
        assert(!last.contains(c));
        let s = a + sep + parts.last();
        if s.contains(c) {
            let i = choose|i: int| 0 <= i < s.len() && s[i] == c;
            if i < a.len() {
                assert(a[i] == c);
            } else if i < a.len() + sep.len() {
                assert(sep[i - a.len()] == c);
            } else {
                assert(last[i - a.len() - sep.len()] == c);
            }
        }
    }
}

// ── Sprites ──────────────────────────────────────────────────────────

proof fn lemma_added<T>(a: Seq<T>, b: Seq<T>, x: T)
    ensures
        (a + b).contains(x) <==> a.contains(x) || b.contains(x),
{
    if a.contains(x) {
        let i = choose|i: int| 0 <= i < a.len() && a[i] == x;
        assert((a + b)[i] == x);
    }
    if b.contains(x) {
        let i = choose|i: int| 0 <= i < b.len() && b[i] == x;
        assert((a + b)[a.len() + i] == x);
    }
    if (a + b).contains(x) {
        let i = choose|i: int| 0 <= i < (a + b).len() && (a + b)[i] == x;
        if i < a.len() {
            assert(a[i] == x);
        } else {
            assert(b[i - a.len()] == x);
        }
    }
}

proof fn lemma_last_or_before<T>(s: Seq<T>, x: T)
    requires
        s.len() > 0,
    ensures
        s.contains(x) <==> s.drop_last().contains(x) || x == s.last(),
{
    lemma_added(s.drop_last(), seq![s.last()], x);
    assert(s =~= s.drop_last() + seq![s.last()]);
    assert(seq![s.last()][0] == s.last());
}

proof fn lemma_dir_jobs(state: Seq<char>, dirs: Seq<Dir>, frames: nat, j: SpriteView)
    ensures
        dir_jobs(state, dirs, frames).contains(j) <==> {
            &&& j.state == state
            &&& dirs.contains(j.dir)
            &&& 0 <= j.frame < frames
            &&& j.file_name == frame_file(state, j.dir, j.frame, frames as int)
        },
    decreases dirs.len(),
{
    if dirs.len() > 0 {
        let before = dir_jobs(state, dirs.drop_last(), frames);
        let more = frame_jobs(state, dirs.last(), frames, frames);
        lemma_dir_jobs(state, dirs.drop_last(), frames, j);
        lemma_added(before, more, j);
        lemma_last_or_before(dirs, j.dir);
        if more.contains(j) {
            let f = choose|f: int| 0 <= f < more.len() && more[f] == j;
            assert(more[f].frame == f);
        }
        if j.state == state && j.dir == dirs.last() && 0 <= j.frame < frames && j.file_name == frame_file(
            state,
            j.dir,
            j.frame,
            frames as int,
        ) {
            assert(more[j.frame] == j);
        }
    }
}

/// The sprites of an icon are the frames of its states, in each direction that a state has: all of
/// them, or only the first where no more are wanted; each with the file of that frame.
pub proof fn every_frame_is_a_sprite(states: Seq<IconState>, compass: &Compass, first_frame_only: bool, j: SpriteView)
    ensures
        icon_jobs(states, compass, first_frame_only).contains(j) <==> exists|i: int|
            {
                let frames = if first_frame_only { 1 } else { frame_count((#[trigger] states[i]).frames) };
                &&& 0 <= i < states.len()
                &&& j.state == states[i].name@
                &&& directions(states[i].dirs, compass).contains(j.dir)
                &&& 0 <= j.frame < frames
                &&& j.file_name == frame_file(states[i].name@, j.dir, j.frame, frames as int)
            },
    decreases states.len(),
{
    let all = icon_jobs(states, compass, first_frame_only);
    if states.len() > 0 {
        let front = states.drop_last();
        let s = states.last();
        let frames = frames_taken(s.frames, first_frame_only);
        let before = icon_jobs(front, compass, first_frame_only);
        let more = dir_jobs(s.name@, directions(s.dirs, compass), frames);
        every_frame_is_a_sprite(front, compass, first_frame_only, j);
        lemma_dir_jobs(s.name@, directions(s.dirs, compass), frames, j);
        lemma_added(before, more, j);
        if before.contains(j) {
            let i = choose|i: int|
                {
                    let frames = if first_frame_only { 1 } else { frame_count((#[trigger] front[i]).frames) };
                    &&& 0 <= i < front.len()
                    &&& j.state == front[i].name@
                    &&& directions(front[i].dirs, compass).contains(j.dir)
                    &&& 0 <= j.frame < frames
                    &&& j.file_name == frame_file(front[i].name@, j.dir, j.frame, frames as int)
                };
            assert(states[i] == front[i]);
        }
        if more.contains(j) {
            assert(states[states.len() - 1] == s);
        }
        if exists|i: int|
            {
                let frames = if first_frame_only { 1 } else { frame_count((#[trigger] states[i]).frames) };
                &&& 0 <= i < states.len()
                &&& j.state == states[i].name@
                &&& directions(states[i].dirs, compass).contains(j.dir)
                &&& 0 <= j.frame < frames
                &&& j.file_name == frame_file(states[i].name@, j.dir, j.frame, frames as int)
            } {
            let i = choose|i: int|
                {
                    let frames = if first_frame_only { 1 } else { frame_count((#[trigger] states[i]).frames) };
                    &&& 0 <= i < states.len()
                    &&& j.state == states[i].name@
                    &&& directions(states[i].dirs, compass).contains(j.dir)
                    &&& 0 <= j.frame < frames
                    &&& j.file_name == frame_file(states[i].name@, j.dir, j.frame, frames as int)
                };
            if i < front.len() {
                assert(front[i] == states[i]);
                assert(before.contains(j));
            } else {
                assert(states[i] == s);
                assert(more.contains(j));
            }
        }
    } else {
        assert(!all.contains(j));
    }
}

// ── Patterns ─────────────────────────────────────────────────────────

/// A pattern without placeholders stands for the state of that name, where there is one. One with
/// a placeholder between two texts stands for the states whose name begins with the first, ends
/// with the second, and has something in between; they come in the order of the icon.
pub proof fn patterns_stand_for_states(
    before: Seq<char>,
    inner: Seq<char>,
    after: Seq<char>,
    names: Seq<Seq<char>>,
    name: Seq<char>,
)
    requires
        !before.contains('['),
        !inner.contains(']'),
        !after.contains('['),
    ensures
        states_of_pattern(before, names) == (if names.contains(before) {
            seq![before]
        } else {
            Seq::empty()
        }),
        ({
            let pattern = before + seq!['['] + inner + seq![']'] + after;
            states_of_pattern(pattern, names).contains(name) <==> {
                &&& names.contains(name)
                &&& name.len() > before.len() + after.len()
                &&& starts_with(name, before)
                &&& ends_with(name, after)
            }
        }),
{
    let pattern = before + seq!['['] + inner + seq![']'] + after;
    lemma_one_placeholder(before, inner, after);
    let p = parsed(pattern);
    assert(pattern[before.len() as int] == '[');
    assert(pattern.contains('['));
    let regex = crate::patterns::pattern_regex(p);
    let m = crate::patterns::matching(regex);
    crate::patterns::placeholders_stand_for_characters(pattern, name);
    assert(m(name) == fits(p.parts, p.rest, name));
    lemma_fits_one(before, inner, after, name);
    lemma_filtered(names, m, name);
}

pub(crate) proof fn lemma_one_placeholder(before: Seq<char>, inner: Seq<char>, after: Seq<char>)
    requires
        !before.contains('['),
        !inner.contains(']'),
        !after.contains('['),
    ensures
        ({
            let p = parsed(before + seq!['['] + inner + seq![']'] + after);
            p.parts == seq![(before, inner)] && p.rest == after && p.closed
        }),
{
    let pattern = before + seq!['['] + inner + seq![']'] + after;
    let open = before.len() as int;
    let close = open + 1 + inner.len() as int;
    assert(pattern[open] == '[');
    assert(pattern[close] == ']');
    assert(pattern.contains('['));
    next_char_is_first(pattern, '[', 0);
    let o = next_char(pattern, '[', 0);
    if o < open {
        assert(before.contains(before[o]));
    }
    assert(o == open);
    next_char_is_first(pattern, ']', open);
    let c = next_char(pattern, ']', open);
    if c < close {
        if c > open {
            assert(inner.contains(inner[c - open - 1]));
        }
    }
    assert(c == close);
    assert(pattern.take(open) =~= before);
    assert(pattern.subrange(open + 1, close) =~= inner);
    assert(pattern.skip(close + 1) =~= after);
    next_char_is_first(after, '[', 0);
    let rest = next_char(after, '[', 0);
    if rest < after.len() {
        assert(after.contains(after[rest]));
    }
    let p = parsed(pattern);
    let tail = parsed(after);
    assert(tail.parts =~= Seq::empty() && tail.rest == after && tail.closed);
    assert(p.parts =~= seq![(before, inner)]);
    assert(p.rest == after && p.closed);
}

proof fn lemma_fits_one(before: Seq<char>, inner: Seq<char>, after: Seq<char>, t: Seq<char>)
    ensures
        fits(seq![(before, inner)], after, t) <==> t.len() > before.len() + after.len() && starts_with(t, before) && ends_with(
            t,
            after,
        ),
{
    let parts = seq![(before, inner)];
    assert(parts.skip(1) =~= Seq::empty());
    let n = before.len() as int;
    if fits(parts, after, t) {
        let i = choose|i: int| 1 <= i <= t.len() - n && fits(parts.skip(1), after, #[trigger] t.skip(n).skip(i));
        assert(t.skip(n).skip(i) == after);
        assert(t.skip(t.len() - after.len()) =~= t.skip(n).skip(i));
    }
    if t.len() > n + after.len() && starts_with(t, before) && ends_with(t, after) {
        let i = t.len() - after.len() - n;
        assert(t.skip(n).skip(i) =~= t.skip(t.len() - after.len()));
        assert(fits(parts.skip(1), after, t.skip(n).skip(i)));
    }
}

pub(crate) proof fn lemma_filtered<T>(s: Seq<T>, p: spec_fn(T) -> bool, x: T)
    ensures
        s.filter(p).contains(x) <==> s.contains(x) && p(x),
    decreases s.len(),
{
    reveal(Seq::filter);
    if s.len() > 0 {
        lemma_filtered(s.drop_last(), p, x);
        lemma_last_or_before(s, x);
        if p(s.last()) {
            let all = s.drop_last().filter(p).push(s.last());
            assert(all.drop_last() =~= s.drop_last().filter(p));
            lemma_last_or_before(all, x);
        }
    }
}

/// A list of patterns stands for what each of them stands for, one after the other.
pub proof fn lists_of_patterns_stand_for_states(patterns: Seq<Seq<char>>, names: Seq<Seq<char>>)
    ensures
        states_of_patterns(patterns, names) == patterns.map_values(|p: Seq<char>| states_of_pattern(p, names)).flatten(),
    decreases patterns.len(),
{
    let f = |p: Seq<char>| states_of_pattern(p, names);
    if patterns.len() > 0 {
        let front = patterns.drop_last();
        lists_of_patterns_stand_for_states(front, names);
        assert(patterns.map_values(f) =~= front.map_values(f).push(f(patterns.last())));
        front.map_values(f).lemma_flatten_push(f(patterns.last()));
    }
}

// ── Composites ───────────────────────────────────────────────────────

/// Whether a composite is a frame of a look: it is drawn over the look's base, or else the type's
/// own state; it faces a direction that this state has; and each state that the look's overlays
/// stand for is laid over it, in the same frame where it has as many and else in its first.
pub open spec fn is_frame_of(
    j: CompositeView,
    v: VisualView,
    icon_state: Option<Seq<char>>,
    states: Seq<IconState>,
    compass: &Compass,
) -> bool {
    let base = match (v.base_icon_state, icon_state) {
        (Some(b), _) => b,
        (None, Some(b)) => b,
        (None, None) => ""@,
    };
    let state = state_named(states, base);
    let frames = match state {
        Some(s) => frame_count(s.frames) as int,
        None => 1,
    };
    let dirs = match state {
        Some(s) => directions(s.dirs, compass),
        None => seq![Dir::South],
    };
    let names = states_of_patterns(v.overlays, states.map_values(|s: IconState| s.name@));
    &&& j.showing == ShowingView::Look { name: v.name, frames, has_base: state is Some }
    &&& j.base == base
    &&& dirs.contains(j.dir)
    &&& 0 <= j.frame < frames
    &&& j.overlays.len() == names.len()
    &&& forall|k: int|
        0 <= k < names.len() ==> (#[trigger] j.overlays[k]).0 == names[k] && j.overlays[k].1 == (if (match state_named(
            states,
            names[k],
        ) {
            Some(s) => frame_count(s.frames) as int,
            None => 1,
        }) == frames {
            j.frame
        } else {
            0
        })
}

proof fn lemma_look_in_dirs(
    v: VisualView,
    icon_state: Option<Seq<char>>,
    states: Seq<IconState>,
    dirs: Seq<Dir>,
    j: CompositeView,
)
    ensures
        look_in_dirs(v, icon_state, states, dirs).contains(j) <==> {
            &&& dirs.contains(j.dir)
            &&& 0 <= j.frame < frames_of(state_named(states, look_base(v, icon_state)))
            &&& j == look_frame(v, icon_state, states, j.dir)(j.frame)
        },
    decreases dirs.len(),
{
    if dirs.len() > 0 {
        let before = look_in_dirs(v, icon_state, states, dirs.drop_last());
        let n = frames_of(state_named(states, look_base(v, icon_state)));
        let f = look_frame(v, icon_state, states, dirs.last());
        let more = Seq::new(n, f);
        lemma_look_in_dirs(v, icon_state, states, dirs.drop_last(), j);
        lemma_added(before, more, j);
        lemma_last_or_before(dirs, j.dir);
        if more.contains(j) {
            let i = choose|i: int| 0 <= i < more.len() && more[i] == j;
            assert(f(i).frame == i);
        }
        if j.dir == dirs.last() && 0 <= j.frame < n && j == f(j.frame) {
            assert(more[j.frame] == j);
        }
    }
}

proof fn lemma_one_look(
    v: VisualView,
    icon_state: Option<Seq<char>>,
    states: Seq<IconState>,
    compass: &Compass,
    j: CompositeView,
)
    ensures
        look_in_dirs(v, icon_state, states, directions_of(state_named(states, look_base(v, icon_state)), compass)).contains(j)
            <==> is_frame_of(j, v, icon_state, states, compass),
{
    let dirs = directions_of(state_named(states, look_base(v, icon_state)), compass);
    lemma_look_in_dirs(v, icon_state, states, dirs, j);
    let w = look_frame(v, icon_state, states, j.dir)(j.frame);
    assert(state_names(states) =~= states.map_values(|s: IconState| s.name@));
    if is_frame_of(j, v, icon_state, states, compass) {
        assert(j.overlays =~= w.overlays);
        assert(j =~= w);
    }
}

proof fn lemma_look_jobs(
    looks: Seq<VisualView>,
    icon_state: Option<Seq<char>>,
    states: Seq<IconState>,
    compass: &Compass,
    j: CompositeView,
)
    ensures
        look_jobs(looks, icon_state, states, compass).contains(j) <==> exists|i: int|
            0 <= i < looks.len() && is_frame_of(j, #[trigger] looks[i], icon_state, states, compass),
    decreases looks.len(),
{
    if looks.len() > 0 {
        let front = looks.drop_last();
        let v = looks.last();
        let before = look_jobs(front, icon_state, states, compass);
        let more = look_in_dirs(
            v,
            icon_state,
            states,
            directions_of(state_named(states, look_base(v, icon_state)), compass),
        );
        lemma_look_jobs(front, icon_state, states, compass, j);
        lemma_one_look(v, icon_state, states, compass, j);
        lemma_added(before, more, j);
        if before.contains(j) {
            let i = choose|i: int| 0 <= i < front.len() && is_frame_of(j, #[trigger] front[i], icon_state, states, compass);
            assert(looks[i] == front[i]);
        }
        if more.contains(j) {
            assert(looks[looks.len() - 1] == v);
        }
        if exists|i: int| 0 <= i < looks.len() && is_frame_of(j, #[trigger] looks[i], icon_state, states, compass) {
            let i = choose|i: int| 0 <= i < looks.len() && is_frame_of(j, #[trigger] looks[i], icon_state, states, compass);
            if i < front.len() {
                assert(front[i] == looks[i]);
            }
        }
    }
}

/// Whether a composite is of a combination: it is numbered as the combination is, drawn over the
/// type's own state in its first frame, in a direction that this state has, and each state that
/// the combination stands for is laid over it in its first frame.
pub open spec fn is_of_combo(
    j: CompositeView,
    combos: Seq<Seq<Seq<char>>>,
    i: int,
    base: Seq<char>,
    states: Seq<IconState>,
    compass: &Compass,
) -> bool {
    let dirs = match state_named(states, base) {
        Some(s) => directions(s.dirs, compass),
        None => seq![Dir::South],
    };
    let names = states_of_patterns(combos[i], states.map_values(|s: IconState| s.name@));
    &&& 0 <= i < combos.len()
    &&& j.showing == ShowingView::Combo(i)
    &&& j.base == base
    &&& dirs.contains(j.dir)
    &&& j.frame == 0
    &&& j.overlays.len() == names.len()
    &&& forall|k: int| 0 <= k < names.len() ==> (#[trigger] j.overlays[k]).0 == names[k] && j.overlays[k].1 == 0
}

proof fn lemma_combo_jobs(
    combos: Seq<Seq<Seq<char>>>,
    base: Seq<char>,
    states: Seq<IconState>,
    compass: &Compass,
    j: CompositeView,
)
    ensures
        combo_jobs(combos, base, states, compass).contains(j) <==> (j.showing is Combo && is_of_combo(
            j,
            combos,
            j.showing->Combo_0,
            base,
            states,
            compass,
        )),
    decreases combos.len(),
{
    assert(state_names(states) =~= states.map_values(|s: IconState| s.name@));
    if combos.len() > 0 {
        let front = combos.drop_last();
        let n = combos.len() - 1;
        let before = combo_jobs(front, base, states, compass);
        let dirs = directions_of(state_named(states, base), compass);
        let more = combo_in_dirs(combos.last(), n, base, states, dirs);
        lemma_combo_jobs(front, base, states, compass, j);
        lemma_added(before, more, j);
        if more.contains(j) {
            let k = choose|k: int| 0 <= k < more.len() && more[k] == j;
            assert(j == combo_job(combos.last(), n, base, states, dirs[k]));
            assert(dirs.contains(dirs[k]));
            assert(is_of_combo(j, combos, n, base, states, compass));
        }
        if j.showing is Combo {
            let i = j.showing->Combo_0;
            if i < n && i >= 0 {
                assert(front[i] == combos[i]);
            } else if i == n && is_of_combo(j, combos, i, base, states, compass) {
                let k = choose|k: int| 0 <= k < dirs.len() && dirs[k] == j.dir;
                let w = combo_job(combos.last(), n, base, states, dirs[k]);
                assert(j.overlays =~= w.overlays);
                assert(j =~= w);
                assert(more[k] == j);
            }
        }
    }
}

/// The composites of a type are the frames of its looks, every one of them and nothing else; of a
/// type without looks they are its combinations, every one of them in every direction.
pub proof fn every_look_is_composed(
    info: InfoView,
    icon_state: Option<Seq<char>>,
    states: Seq<IconState>,
    compass: &Compass,
    j: CompositeView,
)
    ensures
        info.visual_states.len() > 0 ==> (composite_jobs(info, icon_state, states, compass).contains(j) <==> exists|i: int|
            0 <= i < info.visual_states.len() && is_frame_of(
                j,
                #[trigger] info.visual_states[i],
                icon_state,
                states,
                compass,
            )),
        info.visual_states.len() == 0 ==> (composite_jobs(info, icon_state, states, compass).contains(j) <==> (j.showing is Combo
            && is_of_combo(
            j,
            info.combos,
            j.showing->Combo_0,
            match icon_state {
                Some(b) => b,
                None => ""@,
            },
            states,
            compass,
        ))),
{
    lemma_look_jobs(info.visual_states, icon_state, states, compass, j);
    lemma_combo_jobs(
        info.combos,
        match icon_state {
            Some(b) => b,
            None => ""@,
        },
        states,
        compass,
        j,
    );
}

/// A composite is dropped where nothing was laid over its base, but for a look whose base the icon
/// has. The file of a look is that of its frame, and what it shows is the look and what was drawn;
/// a combination is told by what was drawn where that is three states or fewer, and else by its
/// number.
pub proof fn composites_are_named_after_what_they_show(job: CompositeView, drawn: Seq<Seq<char>>)
    ensures
        match job.showing {
            ShowingView::Look { name, frames, has_base } => {
                &&& drawn.len() == 0 && !has_base ==> composite_name(job, drawn) is None
                &&& drawn.len() == 0 && has_base ==> composite_name(job, drawn) == Some(
                    (frame_file(name, job.dir, job.frame, frames), name),
                )
                &&& drawn.len() > 0 ==> composite_name(job, drawn) == Some(
                    (frame_file(name, job.dir, job.frame, frames), name + "+"@ + joined(drawn, "+"@)),
                )
            },
            ShowingView::Combo(index) => {
                let told = if drawn.len() <= 3 {
                    joined(Seq::new(drawn.len(), |i: int| safe_name(drawn[i])), "+"@)
                } else {
                    "combo"@ + dec(index)
                };
                &&& drawn.len() == 0 ==> composite_name(job, drawn) is None
                &&& drawn.len() > 0 ==> composite_name(job, drawn) == Some(
                    (
                        safe_name(job.base) + "_"@ + told + "_"@ + dir_name(job.dir) + ".png"@,
                        job.base + "+"@ + told,
                    ),
                )
            },
        },
{
    assert(drawn.map_values(|s: Seq<char>| safe_name(s)) =~= Seq::new(drawn.len(), |i: int| safe_name(drawn[i])));
}

// ── Records ──────────────────────────────────────────────────────────

/// What is recorded of a type: its path, what its variables `name`, `desc`, `icon` and
/// `icon_state` read as texts, and the type that it inherits from.
pub proof fn a_type_is_recorded_by_its_variables(tree: &ObjectTree, t: int)
    requires
        tree.wf(),
        0 <= t < tree.types@.len(),
    ensures
        ({
            let m = tree.described(t);
            &&& m.type_path == tree.types@[t].path@
            &&& m.name == tree.text_var(t, "name"@)
            &&& m.desc == tree.text_var(t, "desc"@)
            &&& m.icon_file == tree.text_var(t, "icon"@)
            &&& m.icon_state == tree.text_var(t, "icon_state"@)
            &&& m.overlay_info == tree.analysis(t)
            &&& match tree.types@[t].parent {
                Some(p) => {
                    &&& m.parent_path == tree.types@[p as int].path@
                    &&& tree.types@[p as int].path@.len() > 0 ==> m.parent_chain == seq![tree.types@[p as int].path@]
                        + tree.described(p as int).parent_chain
                    &&& tree.types@[p as int].path@.len() == 0 ==> m.parent_chain.len() == 0
                },
                None => m.parent_path.len() == 0 && m.parent_chain.len() == 0,
            }
        }),
{
    reveal_strlit("");
    let line = tree.lineage(t);
    match tree.types@[t].parent {
        Some(p) => {
            assert(line.skip(1) =~= tree.lineage(p as int));
        },
        None => {
            assert(line.skip(1) =~= Seq::empty());
        },
    }
}

proof fn lemma_info_at(metas: Seq<MetaView>, path: Seq<char>)
    ensures
        match info_at(metas, path) {
            Some(info) => exists|i: int|
                0 <= i < metas.len() && (#[trigger] metas[i]).type_path == path && metas[i].overlay_info == Some(info),
            None => forall|i: int|
                0 <= i < metas.len() && (#[trigger] metas[i]).type_path == path ==> metas[i].overlay_info is None,
        },
    decreases metas.len(),
{
    if metas.len() > 0 {
        let front = metas.drop_last();
        lemma_info_at(front, path);
        assert(metas[metas.len() - 1] == metas.last());
        match info_at(front, path) {
            Some(info) => {
                let i = choose|i: int|
                    0 <= i < front.len() && (#[trigger] front[i]).type_path == path && front[i].overlay_info == Some(info);
                assert(metas[i] == front[i]);
            },
            None => {
                assert forall|i: int|
                    0 <= i < metas.len() - 1 && (#[trigger] metas[i]).type_path == path implies metas[i].overlay_info is None by {
                    assert(front[i] == metas[i]);
                }
            },
        }
    }
}

/// A type with overlays of its own keeps them. One without takes over those of the nearest type
/// that it inherits from and that has any; where there is none, it has none. Nothing else of its
/// record changes.
pub proof fn overlays_are_handed_down_from_the_nearest(tree: &ObjectTree, t: int, meta: MetaView, metas: Seq<MetaView>)
    ensures
        ({
            let m = tree.with_inherited(t, meta, metas);
            &&& m == MetaView { overlay_info: m.overlay_info, ..meta }
            &&& meta.overlay_info is Some ==> m.overlay_info == meta.overlay_info
            &&& meta.overlay_info is None && m.overlay_info is Some ==> exists|n: int, i: int|
                #![trigger meta.parent_chain[n], metas[i]]
                {
                    &&& 0 <= n < meta.parent_chain.len() && 0 <= i < metas.len()
                    &&& metas[i].type_path == meta.parent_chain[n]
                    &&& metas[i].overlay_info is Some
                    &&& m.overlay_info == Some(tree.taken_over(t, metas[i].overlay_info.unwrap()))
                    &&& forall|k: int, j: int|
                        #![trigger meta.parent_chain[k], metas[j]]
                        0 <= k < n && 0 <= j < metas.len() && metas[j].type_path == meta.parent_chain[k]
                            ==> metas[j].overlay_info is None
                }
            &&& meta.overlay_info is None && m.overlay_info is None ==> forall|k: int, j: int|
                #![trigger meta.parent_chain[k], metas[j]]
                0 <= k < meta.parent_chain.len() && 0 <= j < metas.len() && metas[j].type_path == meta.parent_chain[k]
                    ==> metas[j].overlay_info is None
        }),
{
    if meta.overlay_info is None {
        lemma_nearest(metas, meta.parent_chain);
        match nearest_info(metas, meta.parent_chain) {
            Some(info) => {
                let n = lemma_nearest_place(metas, meta.parent_chain);
                lemma_info_at(metas, meta.parent_chain[n]);
                let i = choose|i: int|
                    0 <= i < metas.len() && (#[trigger] metas[i]).type_path == meta.parent_chain[n] && metas[i].overlay_info
                        == Some(info);
                assert forall|k: int, j: int|
                    #![trigger meta.parent_chain[k], metas[j]]
                    0 <= k < n && 0 <= j < metas.len() && metas[j].type_path == meta.parent_chain[k] implies metas[j].overlay_info is None by {
                    lemma_info_at(metas, meta.parent_chain[k]);
                    assert(info_at(metas, meta.parent_chain[k]) is None);
                }
                assert(metas[i].type_path == meta.parent_chain[n]);
            },
            None => {
                assert forall|k: int, j: int|
                    #![trigger meta.parent_chain[k], metas[j]]
                    0 <= k < meta.parent_chain.len() && 0 <= j < metas.len() && metas[j].type_path
                        == meta.parent_chain[k] implies metas[j].overlay_info is None by {
                    lemma_info_at(metas, meta.parent_chain[k]);
                    assert(info_at(metas, meta.parent_chain[k]) is None);
                }
            },
        }
    }
}

proof fn lemma_nearest(metas: Seq<MetaView>, chain: Seq<Seq<char>>)
    ensures
        nearest_info(metas, chain) is None ==> forall|k: int|
            0 <= k < chain.len() ==> info_at(metas, #[trigger] chain[k]) is None,
    decreases chain.len(),
{
    if chain.len() > 0 && info_at(metas, chain[0]) is None {
        let rest = chain.skip(1);
        lemma_nearest(metas, rest);
        if nearest_info(metas, chain) is None {
            assert forall|k: int| 0 <= k < chain.len() implies info_at(metas, #[trigger] chain[k]) is None by {
                if k > 0 {
                    assert(rest[k - 1] == chain[k]);
                }
            }
        }
    }
}

proof fn lemma_nearest_place(metas: Seq<MetaView>, chain: Seq<Seq<char>>) -> (n: int)
    requires
        nearest_info(metas, chain) is Some,
    ensures
        0 <= n < chain.len(),
        info_at(metas, chain[n]) == nearest_info(metas, chain),
        forall|k: int| 0 <= k < n ==> info_at(metas, #[trigger] chain[k]) is None,
    decreases chain.len(),
{
    if info_at(metas, chain[0]) is Some {
        0
    } else {
        let rest = chain.skip(1);
        let n = lemma_nearest_place(metas, rest);
        assert(rest[n] == chain[n + 1]);
        assert forall|k: int| 0 <= k < n + 1 implies info_at(metas, #[trigger] chain[k]) is None by {
            if k > 0 {
                assert(rest[k - 1] == chain[k]);
            }
        }
        n + 1
    }
}

/// The icon files are those that some recorded type has, each once.
pub proof fn icon_files_are_listed_once(metas: Seq<MetaView>, icon: Seq<char>)
    ensures
        icons_of(metas).no_duplicates(),
        icons_of(metas).contains(icon) <==> exists|i: int| 0 <= i < metas.len() && (#[trigger] metas[i]).icon_file == Some(icon),
    decreases metas.len(),
{
    let all = icons_of(metas);
    if metas.len() > 0 {
        let front = metas.drop_last();
        let before = icons_of(front);
        icon_files_are_listed_once(front, icon);
        assert(metas[metas.len() - 1] == metas.last());
        if before.contains(icon) {
            let i = choose|i: int| 0 <= i < front.len() && (#[trigger] front[i]).icon_file == Some(icon);
            assert(metas[i] == front[i]);
        }
        if exists|i: int| 0 <= i < metas.len() && (#[trigger] metas[i]).icon_file == Some(icon) {
            let i = choose|i: int| 0 <= i < metas.len() && (#[trigger] metas[i]).icon_file == Some(icon);
            if i < front.len() {
                assert(front[i] == metas[i]);
            }
        }
        if let Some(last) = metas.last().icon_file {
            if !before.contains(last) {
                assert(all.drop_last() =~= before);
                lemma_last_or_before(all, icon);
                assert(all.no_duplicates());
            }
        }
    }
}

} // verus!
