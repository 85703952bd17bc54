//! Text as sequences of characters: conversion between strings and
//! character vectors, and trimming.

use vstd::prelude::*;

verus! {

/// `String::push` appends one character to the end of the string.
pub assume_specification[ String::push ](text: &mut String, c: char)
    ensures
        final(text)@ == old(text)@.push(c),
;

/// The characters of `text`, in order.
pub fn to_chars(text: &str) -> (chars: Vec<char>)
    ensures
        chars@ == text@,
{
    let mut chars: Vec<char> = Vec::new();
    for c in it: text.chars()
        invariant
            it.seq() == text@,
            chars@ == it.seq().take(it.index() as int),
    {
        chars.push(c);
    }
    chars
}

/// The string made of the characters `chars[from..to]`.
pub fn to_text(chars: &Vec<char>, from: usize, to: usize) -> (text: String)
    requires
        from <= to <= chars.len(),
    ensures
        text@ == chars@.subrange(from as int, to as int),
{
    let mut text = String::new();
    let mut i: usize = from;
    while i < to
        invariant
            from <= i <= to <= chars.len(),
            text@ == chars@.subrange(from as int, i as int),
        decreases to - i,
    {
        text.push(chars[i]);
        i += 1;
    }
    text
}

/// The white space of Unicode: the characters with the property
/// `White_Space`.
pub open spec fn is_white_space(c: char) -> bool {
    ||| '\u{9}' <= c <= '\u{d}'
    ||| c == ' '
    ||| c == '\u{85}'
    ||| c == '\u{a0}'
    ||| c == '\u{1680}'
    ||| '\u{2000}' <= c <= '\u{200a}'
    ||| c == '\u{2028}'
    ||| c == '\u{2029}'
    ||| c == '\u{202f}'
    ||| c == '\u{205f}'
    ||| c == '\u{3000}'
}

/// The characters that end a line: line feed and carriage return.
pub open spec fn is_line_ending(c: char) -> bool {
    c == '\n' || c == '\r'
}

/// What a trim takes away: the line endings, or all white space.
pub open spec fn is_stripped(c: char, line_endings_only: bool) -> bool {
    if line_endings_only {
        is_line_ending(c)
    } else {
        is_white_space(c)
    }
}

/// `text` without the stripped characters at its start.
pub open spec fn strip_start(text: Seq<char>, line_endings_only: bool) -> Seq<char>
    decreases text.len(),
{
    if text.len() > 0 && is_stripped(text.first(), line_endings_only) {
        strip_start(text.drop_first(), line_endings_only)
    } else {
        text
    }
}

/// `text` without the stripped characters at its end.
pub open spec fn strip_end(text: Seq<char>, line_endings_only: bool) -> Seq<char>
    decreases text.len(),
{
    if text.len() > 0 && is_stripped(text.last(), line_endings_only) {
        strip_end(text.drop_last(), line_endings_only)
    } else {
        text
    }
}

/// `text` without the white space at its start and at its end.
pub open spec fn trimmed(text: Seq<char>) -> Seq<char> {
    strip_end(strip_start(text, false), false)
}

/// `text` without the line endings at its start and at its end.
pub open spec fn without_line_endings(text: Seq<char>) -> Seq<char> {
    strip_end(strip_start(text, true), true)
}

/// Whether a trim takes `c` away.
fn strips(c: char, line_endings_only: bool) -> (stripped: bool)
    ensures
        stripped == is_stripped(c, line_endings_only),
{
    if line_endings_only {
        c == '\n' || c == '\r'
    } else {
        ('\u{9}' <= c && c <= '\u{d}') || c == ' ' || c == '\u{85}' || c == '\u{a0}' || c
            == '\u{1680}' || ('\u{2000}' <= c && c <= '\u{200a}') || c == '\u{2028}' || c
            == '\u{2029}' || c == '\u{202f}' || c == '\u{205f}' || c == '\u{3000}'
    }
}

/// Where the rest of `chars` begins and ends once the stripped characters
/// are taken from both ends.
pub(crate) fn strip_bounds(chars: &Vec<char>, line_endings_only: bool) -> (bounds: (usize, usize))
    ensures
        bounds.0 <= bounds.1 <= chars.len(),
        chars@.subrange(bounds.0 as int, bounds.1 as int) == strip_end(
            strip_start(chars@, line_endings_only),
            line_endings_only,
        ),
{
    let mut from: usize = 0;
    assert(chars@.subrange(0, chars.len() as int) =~= chars@);
    while from < chars.len() && strips(chars[from], line_endings_only)
        invariant
            from <= chars.len(),
            strip_start(chars@, line_endings_only) == strip_start(
                chars@.subrange(from as int, chars.len() as int),
                line_endings_only,
            ),
        decreases chars.len() - from,
    {
        assert(chars@.subrange(from as int, chars.len() as int).drop_first() =~= chars@.subrange(
            from + 1,
            chars.len() as int,
        ));
        from += 1;
    }
    let mut to: usize = chars.len();
    while to > from && strips(chars[to - 1], line_endings_only)
        invariant
            from <= to <= chars.len(),
            strip_end(strip_start(chars@, line_endings_only), line_endings_only) == strip_end(
                chars@.subrange(from as int, to as int),
                line_endings_only,
            ),
        decreases to,
    {
        assert(chars@.subrange(from as int, to as int).drop_last() =~= chars@.subrange(
            from as int,
            to - 1,
        ));
        to -= 1;
    }
    (from, to)
}

/// `text` without the white space at its start and at its end.
pub fn trim(text: &str) -> (rest: String)
    ensures
        rest@ == trimmed(text@),
{
    let chars = to_chars(text);
    let (from, to) = strip_bounds(&chars, false);
    to_text(&chars, from, to)
}

/// `text` without the line feeds and carriage returns at its start and at
/// its end.
pub fn strip_line_endings(text: &str) -> (rest: String)
    ensures
        rest@ == without_line_endings(text@),
{
    let chars = to_chars(text);
    let (from, to) = strip_bounds(&chars, true);
    to_text(&chars, from, to)
}

/// The number of characters of `text`.
pub fn unit_count(text: &str) -> (count: usize)
    ensures
        count == text@.len(),
{
    to_chars(text).len()
}

} // verus!
