//! What taking texts apart and putting them together comes to.

use crate::text::{
    decimal,
    decimal_signed,
    digits_value,
    is_digit,
    is_space,
    joined,
    lemma_decimal_digits,
    split,
    split_from,
    trimmed,
    trimmed_end,
    trimmed_start,
};
use vstd::prelude::*;

verus! {

/// Whether a character stands anywhere in a text.
pub open spec fn holds_char(s: Seq<char>, c: char) -> bool {
    exists|i: int| 0 <= i < s.len() && #[trigger] s[i] == c
}

proof fn lemma_split_from(a: Seq<char>, b: Seq<char>, sep: char, i: int)
    requires
        !holds_char(a, sep),
        0 <= i <= a.len(),
    ensures
        split_from(a.push(sep) + b, sep, 0, i) == seq![a] + split(b, sep),
    decreases a.len() - i,
{
    let s = a.push(sep) + b;
    if i < a.len() {
        assert(s[i] == a[i]);
        lemma_split_from(a, b, sep, i + 1);
    } else {
        assert(s[i] == sep);
        assert(s.subrange(0, i) =~= a);
        assert(s.skip(s.len() - b.len()) =~= b);
        lemma_split_shift(s, b, sep, 0, 0);
    }
}

proof fn lemma_split_shift(s: Seq<char>, b: Seq<char>, sep: char, from: int, i: int)
    requires
        s.len() >= b.len(),
        s.skip(s.len() - b.len()) == b,
        0 <= from <= i <= b.len(),
    ensures
        split_from(s, sep, s.len() - b.len() + from, s.len() - b.len() + i) == split_from(
            b,
            sep,
            from,
            i,
        ),
    decreases b.len() - i,
{
    let d = s.len() - b.len();
    assert forall|k: int| 0 <= k < b.len() implies s[d + k] == b[k] by {
        assert(s.skip(d)[k] == b[k]);
    }
    if i >= b.len() {
        assert(s.subrange(d + from, s.len() as int) =~= b.subrange(from, b.len() as int));
    } else if b[i] == sep {
        assert(s.subrange(d + from, d + i) =~= b.subrange(from, i));
        lemma_split_shift(s, b, sep, i + 1, i + 1);
    } else {
        lemma_split_shift(s, b, sep, from, i + 1);
    }
}

proof fn lemma_split_none(a: Seq<char>, sep: char, i: int)
    requires
        !holds_char(a, sep),
        0 <= i <= a.len(),
    ensures
        split_from(a, sep, 0, i) == seq![a],
    decreases a.len() - i,
{
    if i < a.len() {
        assert(a[i] != sep);
        lemma_split_none(a, sep, i + 1);
    } else {
        assert(a.subrange(0, a.len() as int) =~= a);
    }
}

/// A text without the separator is its only part, and one more in front of a separator is one more
/// part in front of the others.
pub proof fn law_parts_are_set_apart(a: Seq<char>, b: Seq<char>, sep: char)
    requires
        !holds_char(a, sep),
    ensures
        split(a, sep) == seq![a],
        split(a.push(sep) + b, sep) == seq![a] + split(b, sep),
{
    lemma_split_none(a, sep, 0);
    lemma_split_from(a, b, sep, 0);
}

/// Nothing joined is empty, one text joined is the text, and one more text comes behind a separator.
pub proof fn law_texts_are_joined_in_order(parts: Seq<Seq<char>>, last: Seq<char>, sep: Seq<char>)
    ensures
        joined(Seq::empty(), sep) == Seq::<char>::empty(),
        joined(seq![last], sep) == last,
        parts.len() > 0 ==> joined(parts.push(last), sep) == joined(parts, sep) + sep + last,
{
    assert(parts.push(last).drop_last() =~= parts);
}

/// What is left of a text without the white space around it has none at either end, and what went
/// was all white space.
pub proof fn law_white_space_around_goes(s: Seq<char>) -> (r: (int, int))
    ensures
        0 <= r.0 <= r.1 <= s.len(),
        trimmed(s) == s.subrange(r.0, r.1),
        forall|i: int| 0 <= i < r.0 ==> is_space(#[trigger] s[i]),
        forall|i: int| r.1 <= i < s.len() ==> is_space(#[trigger] s[i]),
        trimmed(s).len() > 0 ==> !is_space(trimmed(s)[0]) && !is_space(trimmed(s).last()),
{
    let a = lemma_start(s);
    let rest = trimmed_start(s);
    let b = lemma_end(rest);
    assert(rest.take(b) =~= s.subrange(a, a + b));
    assert forall|i: int| a + b <= i < s.len() implies is_space(#[trigger] s[i]) by {
        assert(rest[i - a] == s[i]);
    }
    if b > 0 {
        assert(trimmed(s)[0] == rest[0]);
    }
    (a, a + b)
}

proof fn lemma_start(s: Seq<char>) -> (a: int)
    ensures
        0 <= a <= s.len(),
        trimmed_start(s) == s.skip(a),
        forall|i: int| 0 <= i < a ==> is_space(#[trigger] s[i]),
        a < s.len() ==> !is_space(s[a]),
    decreases s.len(),
{
    if s.len() > 0 && is_space(s[0]) {
        let a = lemma_start(s.skip(1));
        assert(s.skip(1).skip(a) =~= s.skip(a + 1));
        assert forall|i: int| 0 <= i < a + 1 implies is_space(#[trigger] s[i]) by {
            if i > 0 {
                assert(s.skip(1)[i - 1] == s[i]);
            }
        }
        a + 1
    } else {
        assert(s.skip(0) =~= s);
        0
    }
}

proof fn lemma_end(s: Seq<char>) -> (b: int)
    ensures
        0 <= b <= s.len(),
        trimmed_end(s) == s.take(b),
        forall|i: int| b <= i < s.len() ==> is_space(#[trigger] s[i]),
        b > 0 ==> !is_space(s[b - 1]),
    decreases s.len(),
{
    if s.len() > 0 && is_space(s.last()) {
        let b = lemma_end(s.take(s.len() - 1));
        assert(s.take(s.len() - 1).take(b) =~= s.take(b));
        assert forall|i: int| b <= i < s.len() implies is_space(#[trigger] s[i]) by {
            if i < s.len() - 1 {
                assert(s.take(s.len() - 1)[i] == s[i]);
            }
        }
        b
    } else {
        assert(s.take(s.len() as int) =~= s);
        s.len() as int
    }
}

/// A number in decimal notation has digits only, and they are worth the number. One below zero has a
/// minus sign before them.
pub proof fn law_decimal_notation_is_read_back(n: nat)
    ensures
        forall|i: int| 0 <= i < decimal(n).len() ==> is_digit(#[trigger] decimal(n)[i]),
        digits_value(decimal(n)) == n,
        decimal_signed(n as int) == decimal(n),
        n > 0 ==> decimal_signed(-(n as int)) == seq!['-'] + decimal(n),
{
    lemma_decimal_digits(n);
}

} // verus!
