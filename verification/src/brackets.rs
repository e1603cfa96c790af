//! Variables inside the placeholders of a pattern, and the values put in their place.

use crate::analysis::{placeholder, write_placeholder};
use crate::objtree::ObjectTree;
use crate::patterns::{parse_pattern, parsed, part_views};
use crate::prefab::opt_text;
use crate::text::{
    chars_of, chars_stand_at, contains_text, ends_with, find_char, has_prefix, has_suffix, has_text, next_char,
    replace_text, replaced, same_text, split_on, split_text, stands_at, starts_with, text_between, texts, trim_text,
    trimmed,
};
use vstd::prelude::*;

verus! {

// ── Naming a variable ────────────────────────────────────────────────

/// Whether a variable stands in a placeholder as a word.
pub open spec fn word_in(inner: Seq<char>, var: Seq<char>) -> bool {
    inner == var || starts_with(inner, var + " "@) || contains_text(inner, " "@ + var + " "@) || ends_with(
        inner,
        " "@ + var,
    )
}

/// Whether some placeholder of a pattern names a variable.
pub open spec fn names_var(pattern: Seq<char>, var: Seq<char>) -> bool {
    exists|k: int| 0 <= k < parsed(pattern).parts.len() && word_in((#[trigger] parsed(pattern).parts[k]).1, var)
}

/// Whether a pattern depends on a variable.
pub open spec fn uses_var(pattern: Seq<char>, var: Seq<char>) -> bool {
    contains_text(pattern, placeholder(var)) || names_var(pattern, var)
}

fn has_word(inner: &str, var: &str) -> (r: bool)
    ensures
        r == word_in(inner@, var@),
{
    let mut first = var.to_string();
    first.append(" ");
    let mut middle = " ".to_string();
    middle.append(var);
    middle.append(" ");
    let mut last = " ".to_string();
    last.append(var);
    same_text(inner, var) || has_prefix(inner, first.as_str()) || has_text(inner, middle.as_str()) || has_suffix(
        inner,
        last.as_str(),
    )
}

/// Tests whether some placeholder of a pattern names a variable, alone or as a word.
pub fn contains_var_in_bracket(overlay_name: &str, var_name: &str) -> (r: bool)
    ensures
        r == names_var(overlay_name@, var_name@),
{
    let p = parse_pattern(overlay_name);
    let ghost parts = parsed(overlay_name@).parts;
    let mut i: usize = 0;
    while i < p.parts.len()
        invariant
            i <= p.parts@.len(),
            parts == part_views(p.parts@),
            parts == parsed(overlay_name@).parts,
            forall|k: int| 0 <= k < i ==> !word_in((#[trigger] parts[k]).1, var_name@),
        decreases p.parts@.len() - i,
    {
        assert(parts[i as int] == (p.parts@[i as int].0@, p.parts@[i as int].1@));
        if has_word(p.parts[i].1.as_str(), var_name) {
            return true;
        }
        i = i + 1;
    }
    false
}

/// Tests whether a pattern depends on a variable.
pub fn depends_on(pattern: &str, var: &str) -> (r: bool)
    ensures
        r == uses_var(pattern@, var@),
{
    let hole = write_placeholder(var);
    has_text(pattern, hole.as_str()) || contains_var_in_bracket(pattern, var)
}

// ── Values in place ──────────────────────────────────────────────────

/// The first place at or after `from` where `p` stands in `s`; -1 if there is none.
pub open spec fn text_place(s: Seq<char>, p: Seq<char>, from: int) -> int
    decreases s.len() + 1 - from,
{
    if from < 0 || from + p.len() > s.len() {
        -1
    } else if stands_at(s, p, from) {
        from
    } else {
        text_place(s, p, from + 1)
    }
}

fn find_text(s: &Vec<char>, p: &Vec<char>) -> (r: Option<usize>)
    ensures
        match r {
            Some(at) => at == text_place(s@, p@, 0) && at + p@.len() <= s@.len(),
            None => text_place(s@, p@, 0) == -1,
        },
{
    let mut i: usize = 0;
    while i <= s.len() && p.len() <= s.len() - i
        invariant
            i <= s.len() + 1,
            text_place(s@, p@, i as int) == text_place(s@, p@, 0),
        decreases s@.len() + 1 - i,
    {
        if chars_stand_at(s, p, i) {
            return Some(i);
        }
        if i == s.len() {
            assert(text_place(s@, p@, i + 1) == -1);
            return None;
        }
        i = i + 1;
    }
    None
}

/// A text, or nothing where there is none.
pub open spec fn or_empty(s: Option<Seq<char>>) -> Seq<char> {
    match s {
        Some(v) => v,
        None => ""@,
    }
}

impl ObjectTree {
    /// What a placeholder stands for where a variable has a value: the value itself, or the
    /// value joined with that of another variable.
    pub open spec fn bracket_value(
        &self,
        t: int,
        expr: Seq<char>,
        var: Seq<char>,
        value: Seq<char>,
    ) -> Option<Seq<char>> {
        let after = trimmed(expr.skip(var.len() as int));
        let at = text_place(expr, " Add "@, 0);
        if expr == var {
            Some(value)
        } else if starts_with(expr, var) && starts_with(after, "Add "@) {
            Some(value + or_empty(self.text_var(t, trimmed(after.skip(4)))))
        } else if contains_text(expr, "Add "@ + var) && at >= 0 && trimmed(expr.skip(at + 5)) == var {
            Some(or_empty(self.text_var(t, trimmed(expr.take(at)))) + value)
        } else {
            None
        }
    }

    /// Placeholders with what stands before them, with a value put in place where one is known.
    pub open spec fn filled_for(
        &self,
        t: int,
        parts: Seq<(Seq<char>, Seq<char>)>,
        var: Seq<char>,
        value: Seq<char>,
    ) -> Seq<char>
        decreases parts.len(),
    {
        if parts.len() == 0 {
            Seq::empty()
        } else {
            self.filled_for(t, parts.drop_last(), var, value) + parts.last().0 + (match self.bracket_value(
                t,
                parts.last().1,
                var,
                value,
            ) {
                Some(v) => v,
                None => placeholder(parts.last().1),
            })
        }
    }

    /// A pattern where a variable has a value; `None` if the pattern does not depend on it.
    /// Where a bracket stays open, the text before it comes twice.
    pub open spec fn pattern_for(
        &self,
        t: int,
        pattern: Seq<char>,
        var: Seq<char>,
        value: Seq<char>,
    ) -> Option<Seq<char>> {
        let p = parsed(pattern);
        if contains_text(pattern, placeholder(var)) {
            Some(replaced(pattern, placeholder(var), value))
        } else if !names_var(pattern, var) {
            None
        } else {
            Some(
                self.filled_for(t, p.parts, var, value) + (if p.closed {
                    ""@
                } else {
                    p.rest.take(next_char(p.rest, '[', 0))
                }) + p.rest,
            )
        }
    }

    /// Resolves a placeholder where a variable has a value.
    pub fn resolve_bracket_expr(&self, t: usize, expr: &str, state_var_name: &str, value: &str) -> (r: Option<String>)
        requires
            self.wf(),
            t < self.types@.len(),
        ensures
            opt_text(r) == self.bracket_value(t as int, expr@, state_var_name@, value@),
    {
        if same_text(expr, state_var_name) {
            return Some(value.to_string());
        }
        let ec = chars_of(expr);
        let vc = chars_of(state_var_name);
        if has_prefix(expr, state_var_name) {
            let tail = text_between(&ec, vc.len(), ec.len());
            assert(tail@ =~= expr@.skip(state_var_name@.len() as int));
            let after = trim_text(tail.as_str());
            if has_prefix(after.as_str(), "Add ") {
                proof {
                    reveal_strlit("Add ");
                }
                let ac = chars_of(after.as_str());
                let other = text_between(&ac, 4, ac.len());
                assert(other@ =~= after@.skip(4));
                let name = trim_text(other.as_str());
                let mut out = value.to_string();
                match self.resolve_var_string(t, name.as_str()) {
                    Some(v) => {
                        out.append(v.as_str());
                    },
                    None => {
                        out.append("");
                    },
                }
                return Some(out);
            }
        }
        let mut added = "Add ".to_string();
        added.append(state_var_name);
        if has_text(expr, added.as_str()) {
            let sep = chars_of(" Add ");
            proof {
                reveal_strlit(" Add ");
            }
            if let Some(at) = find_text(&ec, &sep) {
                let right = text_between(&ec, at + 5, ec.len());
                assert(right@ =~= expr@.skip(at + 5));
                if same_text(trim_text(right.as_str()).as_str(), state_var_name) {
                    let left = text_between(&ec, 0, at);
                    assert(left@ =~= expr@.take(at as int));
                    let name = trim_text(left.as_str());
                    let mut out = match self.resolve_var_string(t, name.as_str()) {
                        Some(v) => v,
                        None => "".to_string(),
                    };
                    out.append(value);
                    return Some(out);
                }
            }
        }
        None
    }

    /// Resolves a pattern where a variable has a value.
    pub fn resolve_state_var_in_overlay(
        &self,
        t: usize,
        overlay_name: &str,
        state_var_name: &str,
        value: &str,
    ) -> (r: Option<String>)
        requires
            self.wf(),
            t < self.types@.len(),
        ensures
            opt_text(r) == self.pattern_for(t as int, overlay_name@, state_var_name@, value@),
    {
        let hole = write_placeholder(state_var_name);
        if has_text(overlay_name, hole.as_str()) {
            proof {
                reveal_strlit("[");
            }
            return Some(replace_text(overlay_name, hole.as_str(), value));
        }
        if !contains_var_in_bracket(overlay_name, state_var_name) {
            return None;
        }
        let p = parse_pattern(overlay_name);
        let ghost parts = p@.parts;
        let mut out = String::new();
        let mut i: usize = 0;
        while i < p.parts.len()
            invariant
                i <= p.parts@.len(),
                self.wf(),
                t < self.types@.len(),
                parts == part_views(p.parts@),
                out@ == self.filled_for(t as int, parts.take(i as int), state_var_name@, value@),
            decreases p.parts@.len() - i,
        {
            assert(parts.take(i + 1).drop_last() =~= parts.take(i as int));
            assert(parts.take(i + 1).last() == (p.parts@[i as int].0@, p.parts@[i as int].1@));
            out.append(p.parts[i].0.as_str());
            match self.resolve_bracket_expr(t, p.parts[i].1.as_str(), state_var_name, value) {
                Some(v) => {
                    out.append(v.as_str());
                },
                None => {
                    out.append(write_placeholder(p.parts[i].1.as_str()).as_str());
                },
            }
            i = i + 1;
        }
        assert(parts.take(i as int) =~= parts);
        if p.closed {
            out.append("");
        } else {
            let rc = chars_of(p.rest.as_str());
            let open: usize = find_char(&rc, '[', 0);
            let lead = text_between(&rc, 0, open);
            assert(lead@ =~= p.rest@.take(open as int));
            out.append(lead.as_str());
        }
        out.append(p.rest.as_str());
        Some(out)
    }

    /// What a type gives the variable that a placeholder names; a leading `src.` does not count.
    pub open spec fn field_value(&self, t: int, inner: Seq<char>) -> Option<Seq<char>> {
        self.text_var(t, split_on(inner, '.').last())
    }

    /// Placeholders with what stands before them, with the type's own values put in place.
    pub open spec fn filled_by(&self, t: int, parts: Seq<(Seq<char>, Seq<char>)>) -> Seq<char>
        decreases parts.len(),
    {
        if parts.len() == 0 {
            Seq::empty()
        } else {
            self.filled_by(t, parts.drop_last()) + parts.last().0 + (match self.field_value(t, parts.last().1) {
                Some(v) => v,
                None => placeholder(parts.last().1),
            })
        }
    }

    /// A pattern with the type's own values put in place; `None` if there is no value for any
    /// of its placeholders, or a bracket stays open.
    pub open spec fn pattern_by(&self, t: int, pattern: Seq<char>) -> Option<Seq<char>> {
        let p = parsed(pattern);
        if p.closed && exists|k: int| 0 <= k < p.parts.len() && self.field_value(t, (#[trigger] p.parts[k]).1) is Some {
            Some(self.filled_by(t, p.parts) + p.rest)
        } else {
            None
        }
    }

    /// Resolves a pattern like `[icon_keyboard]_off` with the variables of a type.
    pub fn try_resolve_pattern_with_vars(&self, t: usize, pattern: &str) -> (r: Option<String>)
        requires
            self.wf(),
            t < self.types@.len(),
        ensures
            opt_text(r) == self.pattern_by(t as int, pattern@),
    {
        let p = parse_pattern(pattern);
        if !p.closed {
            return None;
        }
        let ghost parts = p@.parts;
        let mut out = String::new();
        let mut any = false;
        let mut i: usize = 0;
        while i < p.parts.len()
            invariant
                i <= p.parts@.len(),
                self.wf(),
                t < self.types@.len(),
                parts == part_views(p.parts@),
                out@ == self.filled_by(t as int, parts.take(i as int)),
                any == exists|k: int| 0 <= k < i && self.field_value(t as int, (#[trigger] parts[k]).1) is Some,
            decreases p.parts@.len() - i,
        {
            assert(parts.take(i + 1).drop_last() =~= parts.take(i as int));
            assert(parts.take(i + 1).last() == (p.parts@[i as int].0@, p.parts@[i as int].1@));
            assert(parts[i as int] == (p.parts@[i as int].0@, p.parts@[i as int].1@));
            out.append(p.parts[i].0.as_str());
            let fields = split_text(p.parts[i].1.as_str(), '.');
            assert(texts(fields@).len() > 0);
            assert(texts(fields@).last() == fields@[fields@.len() - 1]@);
            match self.resolve_var_string(t, fields[fields.len() - 1].as_str()) {
                Some(v) => {
                    out.append(v.as_str());
                    any = true;
                },
                None => {
                    out.append(write_placeholder(p.parts[i].1.as_str()).as_str());
                },
            }
            i = i + 1;
        }
        assert(parts.take(i as int) =~= parts);
        out.append(p.rest.as_str());
        if any {
            Some(out)
        } else {
            None
        }
    }
}

} // verus!
