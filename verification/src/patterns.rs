//! State name patterns: names with `[expression]` placeholders, how they are taken apart, and how
//! they are matched against the states of an icon.

use crate::text::{
    chars_of, find_char, has_char, has_suffix, next_char, next_char_is_first, next_char_shift, replace_text, replaced,
    same_text, text_between, texts,
};
use vstd::prelude::*;

verus! {

// ── Patterns ─────────────────────────────────────────────────────────

/// A pattern in its parts: each placeholder with the text before it, and what follows the last.
pub struct Pattern {
    /// The text before a placeholder, and what stands between its brackets.
    pub parts: Vec<(String, String)>,
    /// What follows the last placeholder.
    pub rest: String,
    /// Whether every opening bracket has a closing one. If not, `rest` holds the open bracket.
    pub closed: bool,
}

/// What a [`Pattern`] holds.
#[verifier::ext_equal]
pub struct PatternView {
    pub parts: Seq<(Seq<char>, Seq<char>)>,
    pub rest: Seq<char>,
    pub closed: bool,
}

/// The views of the parts of a pattern.
pub open spec fn part_views(v: Seq<(String, String)>) -> Seq<(Seq<char>, Seq<char>)> {
    v.map_values(|e: (String, String)| (e.0@, e.1@))
}

impl View for Pattern {
    type V = PatternView;

    open spec fn view(&self) -> PatternView {
        PatternView { parts: part_views(self.parts@), rest: self.rest@, closed: self.closed }
    }
}

/// The parts of a pattern.
pub open spec fn parsed(s: Seq<char>) -> PatternView
    decreases s.len(),
{
    let open = next_char(s, '[', 0);
    let close = next_char(s, ']', open);
    if !(0 <= open < s.len()) {
        PatternView { parts: Seq::empty(), rest: s, closed: true }
    } else if !(open < close < s.len()) {
        PatternView { parts: Seq::empty(), rest: s, closed: false }
    } else {
        let tail = parsed(s.skip(close + 1));
        PatternView {
            parts: seq![(s.take(open), s.subrange(open + 1, close))] + tail.parts,
            rest: tail.rest,
            closed: tail.closed,
        }
    }
}

/// The text of placeholders with what stands before them.
pub open spec fn parts_text(parts: Seq<(Seq<char>, Seq<char>)>) -> Seq<char>
    decreases parts.len(),
{
    if parts.len() == 0 {
        Seq::empty()
    } else {
        parts[0].0 + seq!['['] + parts[0].1 + seq![']'] + parts_text(parts.skip(1))
    }
}

/// Taking a pattern apart loses nothing: its parts, put together again, are the pattern.
pub proof fn parts_make_up_the_pattern(s: Seq<char>)
    ensures
        parts_text(parsed(s).parts) + parsed(s).rest == s,
    decreases s.len(),
{
    let open = next_char(s, '[', 0);
    next_char_is_first(s, '[', 0);
    if open < s.len() {
        let close = next_char(s, ']', open);
        next_char_is_first(s, ']', open);
        if close < s.len() {
            let tail = parsed(s.skip(close + 1));
            parts_make_up_the_pattern(s.skip(close + 1));
            assert(parsed(s).parts.skip(1) =~= tail.parts);
            assert(s =~= s.take(open) + seq!['['] + s.subrange(open + 1, close) + seq![']'] + s.skip(close + 1));
            assert(parts_text(parsed(s).parts) + parsed(s).rest =~= s);
        } else {
            assert(parts_text(parsed(s).parts) + parsed(s).rest =~= s);
        }
    } else {
        assert(parts_text(parsed(s).parts) + parsed(s).rest =~= s);
    }
}

/// Takes a pattern apart.
pub fn parse_pattern(s: &str) -> (r: Pattern)
    ensures
        r@ == parsed(s@),
{
    let sc = chars_of(s);
    let mut parts: Vec<(String, String)> = Vec::new();
    let mut from: usize = 0;
    assert(s@.skip(0) =~= s@);
    assert(part_views(parts@) + parsed(s@.skip(0)).parts =~= parsed(s@).parts);
    loop
        invariant
            from <= sc@.len(),
            sc@ == s@,
            part_views(parts@) + parsed(s@.skip(from as int)).parts == parsed(s@).parts,
            parsed(s@.skip(from as int)).rest == parsed(s@).rest,
            parsed(s@.skip(from as int)).closed == parsed(s@).closed,
        decreases sc@.len() - from,
    {
        let ghost rest = s@.skip(from as int);
        let open: usize = find_char(&sc, '[', from);
        proof {
            next_char_shift(s@, '[', from as int);
        }
        if open == sc.len() {
            let tail = text_between(&sc, from, open);
            assert(tail@ =~= rest);
            assert(part_views(parts@) =~= parsed(s@).parts);
            return Pattern { parts, rest: tail, closed: true };
        }
        let close: usize = find_char(&sc, ']', open);
        proof {
            next_char_is_first(s@, ']', open as int);
            next_char_is_first(rest, ']', open - from);
            let a = next_char(rest, ']', open - from);
            if a < close - from {
                assert(rest[a] == s@[from + a]);
            } else if close - from < a {
                assert(rest[close - from] == s@[close as int]);
            }
        }
        if close == sc.len() {
            let tail = text_between(&sc, from, close);
            assert(tail@ =~= rest);
            assert(part_views(parts@) =~= parsed(s@).parts);
            return Pattern { parts, rest: tail, closed: false };
        }
        let before_it = text_between(&sc, from, open);
        let inner = text_between(&sc, open + 1, close);
        let ghost before = parts@;
        parts.push((before_it, inner));
        proof {
            assert(part_views(parts@) =~= part_views(before).push((before_it@, inner@)));
            assert(rest.take(open - from) =~= before_it@);
            assert(rest.subrange(open - from + 1, close - from) =~= inner@);
            assert(rest.skip(close - from + 1) =~= s@.skip(close + 1));
            assert(part_views(parts@) + parsed(s@.skip(close + 1)).parts =~= part_views(before) + parsed(rest).parts);
        }
        from = close + 1;
    }
}

// ── File names ───────────────────────────────────────────────────────

/// Whether a character is kept out of file names.
pub open spec fn unsafe_char(c: char) -> bool {
    c == '/' || c == '\\' || c == ':' || c == '*' || c == '?' || c == '"' || c == '<' || c == '>' || c == '|' || c == ' '
}

/// What stands for a character in a file name.
pub open spec fn safe_char() -> spec_fn(char) -> char {
    |c: char|
        if unsafe_char(c) {
            '_'
        } else {
            c
        }
}

/// The file name for a state name.
pub open spec fn safe_name(s: Seq<char>) -> Seq<char> {
    if s.len() == 0 {
        "default"@
    } else {
        s.map_values(safe_char())
    }
}

/// Makes a state name fit for a file name.
pub fn sanitize_filename(s: &str) -> (r: String)
    ensures
        r@ == safe_name(s@),
{
    let sc = chars_of(s);
    if sc.len() == 0 {
        return "default".to_string();
    }
    let mut out = String::new();
    let mut i: usize = 0;
    while i < sc.len()
        invariant
            i <= sc@.len(),
            sc@ == s@,
            out@ == s@.take(i as int).map_values(safe_char()),
        decreases sc@.len() - i,
    {
        let c = sc[i];
        let bad = c == '/' || c == '\\' || c == ':' || c == '*' || c == '?' || c == '"' || c == '<' || c == '>' || c == '|'
            || c == ' ';
        let ghost before = out@;
        out.push(if bad { '_' } else { c });
        assert(s@.take(i + 1).map_values(safe_char()) =~= before.push(safe_char()(c)));
        i = i + 1;
    }
    assert(s@.take(i as int) =~= s@);
    out
}

/// A file name holds no character that is kept out, and is never empty.
pub proof fn file_names_are_safe(s: Seq<char>)
    ensures
        safe_name(s).len() > 0,
        forall|i: int| 0 <= i < safe_name(s).len() ==> !unsafe_char(#[trigger] safe_name(s)[i]),
{
    reveal_strlit("default");
}

/// A file name stands for itself.
pub proof fn file_names_stay(s: Seq<char>)
    ensures
        safe_name(safe_name(s)) == safe_name(s),
{
    file_names_are_safe(s);
    assert(safe_name(s).map_values(safe_char()) =~= safe_name(s));
}

/// A text without any `p` at its end.
pub open spec fn without_suffix(s: Seq<char>, p: Seq<char>) -> Seq<char>
    decreases s.len(),
{
    if p.len() > 0 && crate::text::ends_with(s, p) {
        without_suffix(s.take(s.len() - p.len()), p)
    } else {
        s
    }
}

fn strip_suffixes(s: &str, p: &str) -> (r: String)
    requires
        p@.len() > 0,
    ensures
        r@ == without_suffix(s@, p@),
{
    let pc = chars_of(p);
    let mut out = s.to_string();
    while has_suffix(out.as_str(), p)
        invariant
            pc@ == p@,
            p@.len() > 0,
            without_suffix(out@, p@) == without_suffix(s@, p@),
        decreases out@.len(),
    {
        let oc = chars_of(out.as_str());
        let cut = text_between(&oc, 0, oc.len() - pc.len());
        assert(cut@ =~= out@.take(out@.len() - p@.len()));
        out = cut;
    }
    out
}

/// The directory name for an icon file.
pub open spec fn safe_dir(s: Seq<char>) -> Seq<char> {
    replaced(replaced(without_suffix(s, ".dmi"@), "/"@, "__"@), "\\"@, "__"@)
}

/// Makes the path of an icon file, like `icons/obj/power.dmi`, fit for a directory name.
pub fn sanitize_dmi_path(s: &str) -> (r: String)
    ensures
        r@ == safe_dir(s@),
{
    proof {
        reveal_strlit(".dmi");
        reveal_strlit("/");
        reveal_strlit("\\");
    }
    let base = strip_suffixes(s, ".dmi");
    let flat = replace_text(base.as_str(), "/", "__");
    replace_text(flat.as_str(), "\\", "__")
}

proof fn lemma_replaced_chars(s: Seq<char>, from: Seq<char>, to: Seq<char>)
    requires
        from.len() == 1,
        !to.contains(from[0]),
    ensures
        !replaced(s, from, to).contains(from[0]),
        forall|c: char| !s.contains(c) && !to.contains(c) ==> !#[trigger] replaced(s, from, to).contains(c),
    decreases s.len(),
{
    let r = replaced(s, from, to);
    if s.len() > 0 {
        let c0 = s[0];
        let rest = s.skip(1);
        assert(s.subrange(0, 1) =~= seq![c0]);
        if from =~= seq![c0] {
            lemma_replaced_chars(rest, from, to);
            assert(r == to + replaced(rest, from, to));
        } else {
            lemma_replaced_chars(rest, from, to);
            assert(r == seq![c0] + replaced(rest, from, to));
        }
        let head = if from =~= seq![c0] { to } else { seq![c0] };
        assert(r == head + replaced(rest, from, to));
        assert forall|c: char| r.contains(c) implies head.contains(c) || replaced(rest, from, to).contains(c) by {
            let i = choose|i: int| 0 <= i < r.len() && r[i] == c;
            if i < head.len() {
                assert(head[i] == c);
            } else {
                assert(replaced(rest, from, to)[i - head.len()] == c);
            }
        }
        assert forall|c: char| !s.contains(c) implies !rest.contains(c) by {
            if rest.contains(c) {
                let i = choose|i: int| 0 <= i < rest.len() && rest[i] == c;
                assert(s[i + 1] == c);
            }
        }
        assert(s.contains(c0)) by {
            assert(s[0] == c0);
        }
    }
}

/// A directory name holds no separator of either kind.
pub proof fn directory_names_are_flat(s: Seq<char>)
    ensures
        !safe_dir(s).contains('/'),
        !safe_dir(s).contains('\\'),
{
    reveal_strlit("/");
    reveal_strlit("\\");
    reveal_strlit("__");
    let base = without_suffix(s, ".dmi"@);
    let flat = replaced(base, "/"@, "__"@);
    lemma_replaced_chars(base, "/"@, "__"@);
    lemma_replaced_chars(flat, "\\"@, "__"@);
}

// ── Matching ─────────────────────────────────────────────────────────

/// Whether a character means something in an expression to match.
pub open spec fn special(c: char) -> bool {
    ".*+?()[]{}^$|\\"@.contains(c)
}

/// A text with a backslash before each special character.
pub open spec fn escaped(s: Seq<char>) -> Seq<char>
    decreases s.len(),
{
    if s.len() == 0 {
        Seq::empty()
    } else if special(s[0]) {
        seq!['\\', s[0]] + escaped(s.skip(1))
    } else {
        seq![s[0]] + escaped(s.skip(1))
    }
}

/// Escapes the special characters of a text.
pub fn regex_escape(s: &str) -> (r: String)
    ensures
        r@ == escaped(s@),
{
    let sc = chars_of(s);
    let mut out = String::new();
    let mut i: usize = 0;
    assert(s@.skip(0) =~= s@);
    assert(out@ + escaped(s@) =~= escaped(s@));
    while i < sc.len()
        invariant
            i <= sc@.len(),
            sc@ == s@,
            out@ + escaped(s@.skip(i as int)) == escaped(s@),
        decreases sc@.len() - i,
    {
        let c = sc[i];
        let ghost before = out@;
        let ghost rest = s@.skip(i as int);
        if has_char(".*+?()[]{}^$|\\", c) {
            out.push('\\');
        }
        out.push(c);
        proof {
            assert(rest[0] == c);
            assert(rest.skip(1) =~= s@.skip(i + 1));
            assert(out@ + escaped(s@.skip(i + 1)) =~= before + escaped(rest));
        }
        i = i + 1;
    }
    assert(s@.skip(i as int) =~= Seq::empty());
    assert(out@ =~= out@ + escaped(s@.skip(i as int)));
    out
}

/// Whether an expression begins with the wildcard `.+`.
pub open spec fn wild(p: Seq<char>) -> bool {
    p.len() >= 2 && p[0] == '.' && p[1] == '+'
}

/// Whether a text matches an expression: `.+` stands for one or more characters, a backslash
/// for the character after it, and any other character for itself.
pub open spec fn regex_matches(p: Seq<char>, t: Seq<char>) -> bool
    decreases p.len(),
{
    if p.len() == 0 {
        t.len() == 0
    } else if wild(p) {
        exists|i: int| 1 <= i <= t.len() && regex_matches(p.skip(2), #[trigger] t.skip(i))
    } else if p.len() >= 2 && p[0] == '\\' {
        t.len() > 0 && t[0] == p[1] && regex_matches(p.skip(2), t.skip(1))
    } else {
        t.len() > 0 && t[0] == p[0] && regex_matches(p.skip(1), t.skip(1))
    }
}

fn match_from(p: &Vec<char>, i: usize, t: &Vec<char>, j: usize) -> (r: bool)
    requires
        i <= p@.len(),
        j <= t@.len(),
    ensures
        r == regex_matches(p@.skip(i as int), t@.skip(j as int)),
    decreases p@.len() - i,
{
    let ghost pv = p@.skip(i as int);
    let ghost tv = t@.skip(j as int);
    if i == p.len() {
        return j == t.len();
    }
    if p.len() - i >= 2 && p[i] == '.' && p[i + 1] == '+' {
        assert(pv.skip(2) =~= p@.skip(i + 2));
        let mut k: usize = j;
        while k < t.len()
            invariant
                j <= k <= t@.len(),
                i + 2 <= p.len(),
                pv == p@.skip(i as int),
                pv.skip(2) == p@.skip(i + 2),
                wild(pv),
                tv == t@.skip(j as int),
                forall|m: int| 1 <= m <= k - j ==> !regex_matches(pv.skip(2), #[trigger] tv.skip(m)),
            decreases t@.len() - k,
        {
            k = k + 1;
            assert(tv.skip(k - j) =~= t@.skip(k as int));
            if match_from(p, i + 2, t, k) {
                return true;
            }
        }
        return false;
    }
    if p.len() - i >= 2 && p[i] == '\\' {
        assert(pv.skip(2) =~= p@.skip(i + 2));
        if j < t.len() && t[j] == p[i + 1] {
            assert(tv.skip(1) =~= t@.skip(j + 1));
            return match_from(p, i + 2, t, j + 1);
        }
        return false;
    }
    assert(pv.skip(1) =~= p@.skip(i + 1));
    if j < t.len() && t[j] == p[i] {
        assert(tv.skip(1) =~= t@.skip(j + 1));
        return match_from(p, i + 1, t, j + 1);
    }
    false
}

/// Matches a whole text against an expression.
pub fn match_recursive(pattern: &str, text: &str) -> (r: bool)
    ensures
        r == regex_matches(pattern@, text@),
{
    let pc = chars_of(pattern);
    let tc = chars_of(text);
    assert(pattern@.skip(0) =~= pattern@);
    assert(text@.skip(0) =~= text@);
    match_from(&pc, 0, &tc, 0)
}

/// A text without any `c` at its start.
pub open spec fn without_leading(s: Seq<char>, c: char) -> Seq<char>
    decreases s.len(),
{
    if s.len() > 0 && s[0] == c {
        without_leading(s.skip(1), c)
    } else {
        s
    }
}

/// Removes every `c` at the start of a text.
pub fn trim_leading(s: &str, c: char) -> (r: String)
    ensures
        r@ == without_leading(s@, c),
{
    let sc = chars_of(s);
    let mut i: usize = 0;
    assert(s@.skip(0) =~= s@);
    while i < sc.len() && sc[i] == c
        invariant
            i <= sc@.len(),
            sc@ == s@,
            without_leading(s@.skip(i as int), c) == without_leading(s@, c),
        decreases sc@.len() - i,
    {
        assert(s@.skip(i as int).skip(1) =~= s@.skip(i + 1));
        i = i + 1;
    }
    let r = text_between(&sc, i, sc.len());
    assert(r@ =~= s@.skip(i as int));
    r
}

/// How many backslashes a text ends in.
pub open spec fn slashes(s: Seq<char>) -> nat
    decreases s.len(),
{
    if s.len() > 0 && s.last() == '\\' {
        slashes(s.drop_last()) + 1
    } else {
        0
    }
}

/// Whether an expression ends in a dollar sign that no backslash escapes.
pub open spec fn closes(s: Seq<char>) -> bool {
    s.len() > 0 && s.last() == '$' && slashes(s.drop_last()) % 2 == 0
}

/// An expression without the `^` and the `$` that frame it.
pub open spec fn unframed(p: Seq<char>) -> Seq<char> {
    let opened = if p.len() > 0 && p[0] == '^' {
        p.skip(1)
    } else {
        p
    };
    if closes(opened) {
        opened.drop_last()
    } else {
        opened
    }
}

/// Whether a text matches an expression that may be framed in `^` and `$`.
pub open spec fn simple_match(p: Seq<char>, t: Seq<char>) -> bool {
    regex_matches(unframed(p), t)
}

fn is_closed(sc: &Vec<char>, from: usize) -> (r: bool)
    requires
        from <= sc@.len(),
    ensures
        r == closes(sc@.skip(from as int)),
{
    let ghost s = sc@.skip(from as int);
    if from == sc.len() || sc[sc.len() - 1] != '$' {
        return false;
    }
    let ghost body = s.drop_last();
    let mut i: usize = sc.len() - 1;
    let mut even = true;
    assert(body.take(body.len() as int) =~= body);
    while i > from && sc[i - 1] == '\\'
        invariant
            from <= i < sc@.len(),
            body == sc@.skip(from as int).drop_last(),
            slashes(body.take(i - from)) % 2 == slashes(body) % 2 <==> even,
        decreases i,
    {
        assert(body.take(i - from).drop_last() =~= body.take(i - from - 1));
        assert(body.take(i - from).last() == sc@[i - 1]);
        i = i - 1;
        even = !even;
    }
    proof {
        if i > from {
            assert(body.take(i - from).last() == sc@[i - 1]);
        }
        assert(slashes(body.take(i - from)) == 0);
    }
    even
}

/// Matches a text against an expression that may be framed in `^` and `$`.
pub fn simple_regex_match(pattern: &str, text: &str) -> (r: bool)
    ensures
        r == simple_match(pattern@, text@),
{
    let sc = chars_of(pattern);
    let from: usize = if sc.len() > 0 && sc[0] == '^' {
        1
    } else {
        0
    };
    let ghost opened = pattern@.skip(from as int);
    assert(pattern@.skip(0) =~= pattern@);
    let to: usize = if is_closed(&sc, from) {
        sc.len() - 1
    } else {
        sc.len()
    };
    let bare = text_between(&sc, from, to);
    assert(bare@ =~= unframed(pattern@));
    match_recursive(bare.as_str(), text)
}

/// The expression for a pattern, without its frame: placeholders become wildcards.
pub open spec fn pattern_body(parts: Seq<(Seq<char>, Seq<char>)>, rest: Seq<char>) -> Seq<char>
    decreases parts.len(),
{
    if parts.len() == 0 {
        escaped(rest)
    } else {
        escaped(parts[0].0) + seq!['.', '+'] + pattern_body(parts.skip(1), rest)
    }
}

/// The expression for a pattern.
pub open spec fn pattern_regex(p: PatternView) -> Seq<char> {
    seq!['^'] + pattern_body(p.parts, p.rest) + seq!['$']
}

fn write_regex(p: &Pattern) -> (r: String)
    ensures
        r@ == pattern_regex(p@),
{
    let ghost parts = p@.parts;
    let ghost rest = p@.rest;
    let mut out = String::new();
    out.push('^');
    let mut i: usize = 0;
    assert(parts.skip(0) =~= parts);
    while i < p.parts.len()
        invariant
            i <= p.parts@.len(),
            parts == part_views(p.parts@),
            out@ + pattern_body(parts.skip(i as int), rest) == seq!['^'] + pattern_body(parts, rest),
        decreases p.parts@.len() - i,
    {
        let ghost before = out@;
        let ghost left = parts.skip(i as int);
        let lit = regex_escape(p.parts[i].0.as_str());
        out.append(lit.as_str());
        out.push('.');
        out.push('+');
        proof {
            assert(left[0] == (p.parts@[i as int].0@, p.parts@[i as int].1@));
            assert(left.skip(1) =~= parts.skip(i + 1));
            assert(out@ + pattern_body(parts.skip(i + 1), rest) =~= before + pattern_body(left, rest));
        }
        i = i + 1;
    }
    let tail = regex_escape(p.rest.as_str());
    out.append(tail.as_str());
    out.push('$');
    assert(out@ =~= pattern_regex(p@));
    out
}

/// Whether a state name matches an expression.
pub open spec fn matching(regex: Seq<char>) -> spec_fn(Seq<char>) -> bool {
    |name: Seq<char>| simple_match(regex, name)
}

/// The states, among those of the given names, that a pattern stands for. A pattern without
/// placeholders stands for the state of that name; a pattern with an open bracket for none.
pub open spec fn states_of_pattern(pattern: Seq<char>, names: Seq<Seq<char>>) -> Seq<Seq<char>> {
    if !pattern.contains('[') {
        if names.contains(pattern) {
            seq![pattern]
        } else {
            Seq::empty()
        }
    } else if !parsed(pattern).closed {
        Seq::empty()
    } else {
        names.filter(matching(pattern_regex(parsed(pattern))))
    }
}

/// Finds the states of an icon that a pattern like `apcox-[locked]` stands for.
pub fn resolve_overlay_pattern(pattern: &str, names: &Vec<String>) -> (r: Vec<String>)
    ensures
        texts(r@) == states_of_pattern(pattern@, texts(names@)),
{
    let ghost all = texts(names@);
    let mut out: Vec<String> = Vec::new();
    if !has_char(pattern, '[') {
        let mut i: usize = 0;
        while i < names.len()
            invariant
                i <= names@.len(),
                all == texts(names@),
                !pattern@.contains('['),
                forall|k: int| 0 <= k < i ==> all[k] != pattern@,
            decreases names@.len() - i,
        {
            if same_text(names[i].as_str(), pattern) {
                assert(all[i as int] == pattern@);
                let mut only: Vec<String> = Vec::new();
                only.push(pattern.to_string());
                assert(texts(only@) =~= seq![pattern@]);
                return only;
            }
            assert(all[i as int] == names@[i as int]@);
            i = i + 1;
        }
        assert(texts(out@) =~= Seq::<Seq<char>>::empty());
        return out;
    }
    let p = parse_pattern(pattern);
    if !p.closed {
        assert(texts(out@) =~= Seq::<Seq<char>>::empty());
        return out;
    }
    let regex = write_regex(&p);
    let ghost pred = matching(regex@);
    let mut i: usize = 0;
    proof {
        reveal(Seq::filter);
        assert(texts(out@) =~= all.take(0).filter(pred));
    }
    while i < names.len()
        invariant
            i <= names@.len(),
            all == texts(names@),
            pred == matching(regex@),
            texts(out@) == all.take(i as int).filter(pred),
        decreases names@.len() - i,
    {
        proof {
            reveal(Seq::filter);
            assert(all.take(i + 1).drop_last() =~= all.take(i as int));
            assert(all.take(i + 1).last() == names@[i as int]@);
        }
        let ghost before = texts(out@);
        if simple_regex_match(regex.as_str(), names[i].as_str()) {
            out.push(names[i].clone());
            assert(texts(out@) =~= before.push(names@[i as int]@));
        }
        i = i + 1;
    }
    assert(all.take(i as int) =~= all);
    out
}

// ── What matching means ──────────────────────────────────────────────

/// Whether a text is a pattern with one or more characters in place of each placeholder.
pub open spec fn fits(parts: Seq<(Seq<char>, Seq<char>)>, rest: Seq<char>, t: Seq<char>) -> bool
    decreases parts.len(),
{
    if parts.len() == 0 {
        t == rest
    } else {
        crate::text::starts_with(t, parts[0].0) && exists|i: int|
            1 <= i <= t.len() - parts[0].0.len() && fits(parts.skip(1), rest, #[trigger] t.skip(parts[0].0.len() as int).skip(i))
    }
}

proof fn lemma_escaped_prefix(lit: Seq<char>, p: Seq<char>, t: Seq<char>)
    ensures
        regex_matches(escaped(lit) + p, t) == (crate::text::starts_with(t, lit) && regex_matches(
            p,
            t.skip(lit.len() as int),
        )),
    decreases lit.len(),
{
    let whole = escaped(lit) + p;
    if lit.len() == 0 {
        assert(whole =~= p);
        assert(t.skip(0) =~= t);
        assert(t.take(0) =~= lit);
        assert(t.subrange(0, 0) =~= lit);
    } else {
        let c = lit[0];
        let rest = lit.skip(1);
        lemma_escaped_prefix(rest, p, t.skip(1));
        reveal_strlit(".*+?()[]{}^$|\\");
        if special(c) {
            assert(whole[0] == '\\' && whole[1] == c);
            assert(whole.skip(2) =~= escaped(rest) + p);
        } else {
            assert(whole[0] == c);
            assert(whole.skip(1) =~= escaped(rest) + p);
            assert(c != '.') by {
                assert(".*+?()[]{}^$|\\"@[0] == '.');
            }
            assert(c != '\\') by {
                assert(".*+?()[]{}^$|\\"@[13] == '\\');
            }
        }
        if t.len() > 0 {
            if t.len() >= lit.len() {
                assert(t.skip(1).skip(rest.len() as int) =~= t.skip(lit.len() as int));
            }
            if crate::text::starts_with(t, lit) {
                assert(t.subrange(0, lit.len() as int)[0] == lit[0]);
                assert(t.skip(1).subrange(0, rest.len() as int) =~= rest) by {
                    assert forall|k: int| 0 <= k < rest.len() implies t.skip(1).subrange(0, rest.len() as int)[k] == rest[k] by {
                        assert(t.subrange(0, lit.len() as int)[k + 1] == lit[k + 1]);
                    }
                }
            }
            if t[0] == c && crate::text::starts_with(t.skip(1), rest) {
                assert forall|k: int| 0 <= k < lit.len() implies t.subrange(0, lit.len() as int)[k] == lit[k] by {
                    if k > 0 {
                        assert(t.skip(1).subrange(0, rest.len() as int)[k - 1] == rest[k - 1]);
                    }
                }
                assert(t.subrange(0, lit.len() as int) =~= lit);
            }
        }
    }
}

proof fn lemma_body_matches(parts: Seq<(Seq<char>, Seq<char>)>, rest: Seq<char>, t: Seq<char>)
    ensures
        regex_matches(pattern_body(parts, rest), t) == fits(parts, rest, t),
    decreases parts.len(),
{
    if parts.len() == 0 {
        lemma_escaped_prefix(rest, Seq::empty(), t);
        assert(escaped(rest) + Seq::<char>::empty() =~= escaped(rest));
        if crate::text::starts_with(t, rest) && t.skip(rest.len() as int).len() == 0 {
            assert(t =~= t.subrange(0, rest.len() as int));
        }
        if t == rest {
            assert(t.subrange(0, rest.len() as int) =~= rest);
        }
    } else {
        let lit = parts[0].0;
        let tail = pattern_body(parts.skip(1), rest);
        let p = seq!['.', '+'] + tail;
        assert(pattern_body(parts, rest) =~= escaped(lit) + p);
        lemma_escaped_prefix(lit, p, t);
        assert(wild(p));
        assert(p.skip(2) =~= tail);
        let u = t.skip(lit.len() as int);
        assert forall|i: int| 1 <= i <= u.len() implies regex_matches(tail, #[trigger] u.skip(i)) == fits(
            parts.skip(1),
            rest,
            u.skip(i),
        ) by {
            lemma_body_matches(parts.skip(1), rest, u.skip(i));
        }
    }
}

proof fn lemma_escapes_are_even(a: Seq<char>, s: Seq<char>)
    requires
        slashes(a) % 2 == 0,
    ensures
        slashes(a + escaped(s)) % 2 == 0,
    decreases s.len(),
{
    if s.len() == 0 {
        assert(a + escaped(s) =~= a);
    } else {
        let c = s[0];
        let more = if special(c) {
            a.push('\\').push(c)
        } else {
            a.push(c)
        };
        assert(more.drop_last() =~= (if special(c) { a.push('\\') } else { a }));
        assert(a.push('\\').drop_last() =~= a);
        assert(special('\\')) by {
            reveal_strlit(".*+?()[]{}^$|\\");
            assert(".*+?()[]{}^$|\\"@[13] == '\\');
        }
        assert(slashes(a.push('\\')) == slashes(a) + 1);
        lemma_escapes_are_even(more, s.skip(1));
        assert(a + escaped(s) =~= more + escaped(s.skip(1)));
    }
}

proof fn lemma_body_is_even(a: Seq<char>, parts: Seq<(Seq<char>, Seq<char>)>, rest: Seq<char>)
    requires
        slashes(a) % 2 == 0,
    ensures
        slashes(a + pattern_body(parts, rest)) % 2 == 0,
    decreases parts.len(),
{
    if parts.len() == 0 {
        lemma_escapes_are_even(a, rest);
    } else {
        let more = a + escaped(parts[0].0) + seq!['.', '+'];
        assert(more.last() == '+');
        lemma_body_is_even(more, parts.skip(1), rest);
        assert(a + pattern_body(parts, rest) =~= more + pattern_body(parts.skip(1), rest));
    }
}

/// Matching a state name against the expression for a pattern asks whether the name is the
/// pattern with one or more characters in place of each placeholder.
pub proof fn placeholders_stand_for_characters(pattern: Seq<char>, name: Seq<char>)
    ensures
        simple_match(pattern_regex(parsed(pattern)), name) == fits(parsed(pattern).parts, parsed(pattern).rest, name),
{
    let parts = parsed(pattern).parts;
    let rest = parsed(pattern).rest;
    let body = pattern_body(parts, rest);
    let regex = pattern_regex(parsed(pattern));
    lemma_body_is_even(Seq::empty(), parts, rest);
    assert(Seq::<char>::empty() + body =~= body);
    let inner = body + seq!['$'];
    assert(regex.skip(1) =~= inner);
    assert(regex[0] == '^');
    assert(inner.drop_last() =~= body);
    assert(unframed(regex) == body);
    lemma_body_matches(parts, rest, name);
}

} // verus!
