//! What holds of the operations on texts.

use crate::text::{
    contains_text, dec, dec_nat, is_space, joined, next_char, next_char_is_first, replaced, split_on, stands_at, starts_with,
    text_less, trimmed,
};
use vstd::prelude::*;

verus! {

// ── Decimal numbers ──────────────────────────────────────────────────

/// The number that decimal digits stand for.
pub open spec fn digits_value(s: Seq<char>) -> int
    decreases s.len(),
{
    if s.len() == 0 {
        0
    } else {
        10 * digits_value(s.drop_last()) + (s.last() as int - '0' as int)
    }
}

/// The decimal digits of a number are digits that stand for it, without a zero in front unless
/// the number is zero.
pub proof fn digits_stand_for_their_number(n: nat)
    ensures
        digits_value(dec_nat(n)) == n,
        dec_nat(n).len() > 0,
        forall|i: int| 0 <= i < dec_nat(n).len() ==> '0' <= #[trigger] dec_nat(n)[i] <= '9',
        n > 0 ==> dec_nat(n)[0] != '0',
        n == 0 ==> dec_nat(n) == seq!['0'],
    decreases n,
{
    let s = dec_nat(n);
    if n < 10 {
        assert(s.drop_last() =~= Seq::empty());
        assert(digits_value(s.drop_last()) == 0);
        assert(s.last() as int == 48 + n);
    } else {
        digits_stand_for_their_number(n / 10);
        let front = dec_nat(n / 10);
        assert(s.drop_last() =~= front);
        assert(s.last() as int == 48 + n % 10);
        assert forall|i: int| 0 <= i < s.len() implies '0' <= #[trigger] s[i] <= '9' by {
            if i < front.len() {
                assert(s[i] == front[i]);
            }
        }
        assert(s[0] == front[0]);
    }
}

/// A number in decimal is its digits, after a minus sign where it is below zero; different
/// numbers read differently.
pub proof fn numbers_read_as_themselves(n: int, m: int)
    ensures
        n >= 0 ==> digits_value(dec(n)) == n,
        n < 0 ==> dec(n).len() > 1 && dec(n)[0] == '-' && digits_value(dec(n).skip(1)) == -n,
        dec(n) == dec(m) <==> n == m,
{
    reveal_strlit("-");
    let a = if n < 0 { (-n) as nat } else { n as nat };
    let b = if m < 0 { (-m) as nat } else { m as nat };
    digits_stand_for_their_number(a);
    digits_stand_for_their_number(b);
    if n < 0 {
        assert(dec(n).skip(1) =~= dec_nat(a));
    }
    if m < 0 {
        assert(dec(m).skip(1) =~= dec_nat(b));
    }
    assert('0' <= dec_nat(a)[0]);
    assert('0' <= dec_nat(b)[0]);
}

// ── Replacing ────────────────────────────────────────────────────────

/// A text that does not hold what is to be replaced stays as it is.
pub proof fn nothing_to_replace(s: Seq<char>, from: Seq<char>, to: Seq<char>)
    requires
        !contains_text(s, from),
    ensures
        replaced(s, from, to) == s,
    decreases s.len(),
{
    if from.len() > 0 && s.len() >= from.len() {
        if starts_with(s, from) {
            assert(s.subrange(0, from.len() as int) =~= s.take(from.len() as int));
            assert(stands_at(s, from, 0));
        } else {
            let rest = s.skip(1);
            assert forall|at: int| !stands_at(rest, from, at) by {
                if stands_at(rest, from, at) {
                    assert(s.subrange(at + 1, at + 1 + from.len()) =~= rest.subrange(at, at + from.len()));
                    assert(stands_at(s, from, at + 1));
                }
            }
            nothing_to_replace(rest, from, to);
            assert(seq![s[0]] + rest =~= s);
        }
    }
}

/// The first occurrence of what is to be replaced gives way to the replacement, what stands before
/// it stays, and the same goes for what comes after.
pub proof fn the_first_occurrence_is_replaced(before: Seq<char>, from: Seq<char>, after: Seq<char>, to: Seq<char>)
    requires
        from.len() > 0,
        forall|at: int| 0 <= at < before.len() ==> !stands_at(before + from + after, from, at),
    ensures
        replaced(before + from + after, from, to) == before + to + replaced(after, from, to),
    decreases before.len(),
{
    let s = before + from + after;
    if before.len() == 0 {
        assert(s.take(from.len() as int) =~= from);
        assert(s.skip(from.len() as int) =~= after);
        assert(replaced(s, from, to) =~= before + to + replaced(after, from, to));
    } else {
        if starts_with(s, from) {
            assert(s.subrange(0, from.len() as int) =~= s.take(from.len() as int));
            assert(stands_at(s, from, 0));
        }
        let rest = before.skip(1);
        assert(s.skip(1) =~= rest + from + after);
        assert forall|at: int| 0 <= at < rest.len() implies !stands_at(rest + from + after, from, at) by {
            if stands_at(rest + from + after, from, at) {
                assert(s.subrange(at + 1, at + 1 + from.len()) =~= (rest + from + after).subrange(at, at + from.len()));
                assert(stands_at(s, from, at + 1));
            }
        }
        the_first_occurrence_is_replaced(rest, from, after, to);
        assert(replaced(s, from, to) =~= before + to + replaced(after, from, to));
    }
}

// ── Splitting, joining, trimming ─────────────────────────────────────

pub(crate) proof fn lemma_joined_first(parts: Seq<Seq<char>>, sep: Seq<char>)
    requires
        parts.len() > 1,
    ensures
        joined(parts, sep) == parts[0] + sep + joined(parts.skip(1), sep),
    decreases parts.len(),
{
    let front = parts.drop_last();
    let rest = parts.skip(1);
    if parts.len() == 2 {
        assert(joined(front, sep) == parts[0]);
        assert(joined(rest, sep) == parts[1]);
    } else {
        lemma_joined_first(front, sep);
        assert(front.skip(1) =~= rest.drop_last());
        assert(rest.last() == parts.last());
        assert(joined(parts, sep) =~= parts[0] + sep + joined(rest, sep));
    }
}

/// Splitting a text at a character and joining the pieces with it gives the text back, and no
/// piece holds the character.
pub proof fn joining_undoes_splitting(s: Seq<char>, c: char)
    ensures
        joined(split_on(s, c), seq![c]) == s,
        split_on(s, c).len() > 0,
        forall|i: int| 0 <= i < split_on(s, c).len() ==> !(#[trigger] split_on(s, c)[i]).contains(c),
    decreases s.len(),
{
    next_char_is_first(s, c, 0);
    let at = next_char(s, c, 0);
    let all = split_on(s, c);
    if at < s.len() {
        let rest = split_on(s.skip(at + 1), c);
        joining_undoes_splitting(s.skip(at + 1), c);
        assert(all.skip(1) =~= rest);
        lemma_joined_first(all, seq![c]);
        assert(s =~= s.take(at) + seq![c] + s.skip(at + 1));
        assert forall|i: int| 0 <= i < all.len() implies !(#[trigger] all[i]).contains(c) by {
            if i > 0 {
                assert(all[i] == rest[i - 1]);
            } else {
                assert(all[0] == s.take(at));
            }
        }
    }
}

/// Pieces without a character, joined with it, are what splitting there gives.
pub proof fn splitting_undoes_joining(parts: Seq<Seq<char>>, c: char)
    requires
        parts.len() > 0,
        forall|i: int| 0 <= i < parts.len() ==> !(#[trigger] parts[i]).contains(c),
    ensures
        split_on(joined(parts, seq![c]), c) == parts,
    decreases parts.len(),
{
    let s = joined(parts, seq![c]);
    next_char_is_first(s, c, 0);
    let at = next_char(s, c, 0);
    let first = parts[0];
    if parts.len() == 1 {
        if at < s.len() {
            assert(first.contains(s[at]));
        }
        assert(split_on(s, c) =~= parts);
    } else {
        let rest = parts.skip(1);
        lemma_joined_first(parts, seq![c]);
        assert(s[first.len() as int] == c);
        if at < first.len() {
            assert(s[at] == first[at]);
            assert(first.contains(c));
        }
        assert(at == first.len());
        assert(s.take(at) =~= first);
        assert(s.skip(at + 1) =~= joined(rest, seq![c]));
        assert forall|i: int| 0 <= i < rest.len() implies !(#[trigger] rest[i]).contains(c) by {
            assert(rest[i] == parts[i + 1]);
        }
        splitting_undoes_joining(rest, c);
        assert(split_on(s, c) =~= parts);
    }
}

/// The last piece of a text is what follows the last separator, and a text without separators is
/// one piece.
pub proof fn the_last_piece_follows_the_last_separator(above: Seq<char>, c: char, name: Seq<char>)
    requires
        !name.contains(c),
    ensures
        split_on(above + seq![c] + name, c).last() == name,
        split_on(name, c) == seq![name],
    decreases above.len(),
{
    let s = above + seq![c] + name;
    next_char_is_first(s, c, 0);
    next_char_is_first(name, c, 0);
    let at = next_char(s, c, 0);
    let plain = next_char(name, c, 0);
    if plain < name.len() {
        assert(name.contains(name[plain]));
    }
    assert(split_on(name, c) =~= seq![name]);
    assert(s[above.len() as int] == c);
    assert(at <= above.len());
    if at == above.len() {
        assert(s.skip(at + 1) =~= name);
        assert(split_on(s, c) =~= seq![s.take(at), name]);
    } else {
        let rest = above.skip(at + 1);
        assert(s.skip(at + 1) =~= rest + seq![c] + name);
        the_last_piece_follows_the_last_separator(rest, c, name);
        joining_undoes_splitting(rest + seq![c] + name, c);
        let more = split_on(rest + seq![c] + name, c);
        assert(split_on(s, c) == seq![s.take(at)] + more);
        assert((seq![s.take(at)] + more).last() == more.last());
    }
}

/// Trimming takes white space off both ends of a text and nothing else: what is left begins and
/// ends with something else, and what was taken off is white space.
pub proof fn trimming_takes_only_white_space(s: Seq<char>) -> (r: (Seq<char>, Seq<char>))
    ensures
        s == r.0 + trimmed(s) + r.1,
        forall|i: int| 0 <= i < r.0.len() ==> is_space(#[trigger] r.0[i]),
        forall|i: int| 0 <= i < r.1.len() ==> is_space(#[trigger] r.1[i]),
        trimmed(s).len() > 0 ==> !is_space(trimmed(s)[0]) && !is_space(trimmed(s).last()),
    decreases s.len(),
{
    let none = Seq::<char>::empty();
    if s.len() == 0 {
        assert(s =~= none + trimmed(s) + none);
        (none, none)
    } else if is_space(s[0]) {
        let (a, b) = trimming_takes_only_white_space(s.skip(1));
        let more = seq![s[0]] + a;
        assert(s =~= seq![s[0]] + s.skip(1));
        assert(s =~= more + trimmed(s) + b);
        (more, b)
    } else if is_space(s.last()) {
        let (a, b) = trimming_takes_only_white_space(s.drop_last());
        let more = b.push(s.last());
        assert(s =~= s.drop_last().push(s.last()));
        assert(s =~= a + trimmed(s) + more);
        (a, more)
    } else {
        assert(s =~= none + s + none);
        (none, none)
    }
}

// ── Order ────────────────────────────────────────────────────────────

/// Texts are ordered by the first character in which they differ, and a text comes before those
/// that go on from it.
pub proof fn the_first_difference_decides(same: Seq<char>, a: char, b: char, x: Seq<char>, y: Seq<char>)
    ensures
        a < b ==> text_less(same + seq![a] + x, same + seq![b] + y),
        a > b ==> !text_less(same + seq![a] + x, same + seq![b] + y),
        text_less(same, same + seq![a] + x),
        !text_less(same + seq![a] + x, same),
    decreases same.len(),
{
    let left = same + seq![a] + x;
    let right = same + seq![b] + y;
    if same.len() > 0 {
        let rest = same.skip(1);
        the_first_difference_decides(rest, a, b, x, y);
        assert(left.skip(1) =~= rest + seq![a] + x);
        assert(right.skip(1) =~= rest + seq![b] + y);
    }
}

} // verus!
