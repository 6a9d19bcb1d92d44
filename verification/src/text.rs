//! Sequences of characters: conversion from strings, search, and folding of
//! ASCII case.

use vstd::prelude::*;

verus! {

/// `pattern` stands in `s` at position `at`.
pub open spec fn occurs_at(s: Seq<char>, pattern: Seq<char>, at: int) -> bool {
    &&& 0 <= at
    &&& at + pattern.len() <= s.len()
    &&& s.subrange(at, at + pattern.len()) == pattern
}

/// `pattern` stands somewhere in `s`.
pub open spec fn has_substring(s: Seq<char>, pattern: Seq<char>) -> bool {
    exists|at: int| occurs_at(s, pattern, at)
}

/// The first position at or after `from` at which `pattern` stands in `s`.
pub open spec fn first_at(s: Seq<char>, pattern: Seq<char>, from: int) -> Option<int>
    decreases s.len() - from,
{
    if from < 0 || from + pattern.len() > s.len() {
        None
    } else if occurs_at(s, pattern, from) {
        Some(from)
    } else if from < s.len() {
        first_at(s, pattern, from + 1)
    } else {
        None
    }
}

/// What `first_at` finds: a place where the pattern stands, with none
/// between `from` and it; and nothing only where the pattern stands nowhere
/// from `from` on.
pub proof fn lemma_first_at(s: Seq<char>, pattern: Seq<char>, from: int)
    requires
        0 <= from,
    ensures
        match first_at(s, pattern, from) {
            Some(at) => from <= at && occurs_at(s, pattern, at) && forall|k: int|
                from <= k < at ==> !occurs_at(s, pattern, k),
            None => forall|k: int| from <= k ==> !occurs_at(s, pattern, k),
        },
    decreases s.len() - from,
{
    if from + pattern.len() <= s.len() && !occurs_at(s, pattern, from) && from < s.len() {
        lemma_first_at(s, pattern, from + 1);
    }
}

/// What stands in a part of a text stands in the text.
pub proof fn lemma_substring_of_part(
    s: Seq<char>,
    part: Seq<char>,
    from: int,
    pattern: Seq<char>,
)
    requires
        occurs_at(s, part, from),
        has_substring(part, pattern),
    ensures
        has_substring(s, pattern),
{
    let at = choose|at: int| occurs_at(part, pattern, at);
    let there = s.subrange(from, from + part.len());
    assert(s.subrange(from + at, from + at + pattern.len()) =~= there.subrange(
        at,
        at + pattern.len(),
    ));
    assert(occurs_at(s, pattern, from + at));
}

/// The lower-case form of an ASCII capital; any other character unchanged.
pub open spec fn fold(c: char) -> char {
    if 'A' <= c && c <= 'Z' {
        ((c as u8) + 32) as char
    } else {
        c
    }
}

/// `s` with every ASCII capital replaced by its lower-case form.
pub open spec fn folded(s: Seq<char>) -> Seq<char> {
    Seq::new(s.len(), |i: int| fold(s[i]))
}

/// The parts one after the other.
pub open spec fn flat(parts: Seq<Seq<char>>) -> Seq<char>
    decreases parts.len(),
{
    if parts.len() == 0 {
        Seq::empty()
    } else {
        parts[0] + flat(parts.drop_first())
    }
}

/// The parts one after the other, with `between` between each two of them.
pub open spec fn joined(parts: Seq<Seq<char>>, between: Seq<char>) -> Seq<char>
    decreases parts.len(),
{
    if parts.len() == 0 {
        Seq::empty()
    } else if parts.len() == 1 {
        parts[0]
    } else {
        parts[0] + between + joined(parts.drop_first(), between)
    }
}

/// Joining one more part: `between` and the part follow what was joined
/// before, unless the part is the first.
pub proof fn lemma_joined_push(parts: Seq<Seq<char>>, part: Seq<char>, between: Seq<char>)
    ensures
        joined(parts.push(part), between) == if parts.len() == 0 {
            part
        } else {
            joined(parts, between) + between + part
        },
    decreases parts.len(),
{
    let longer = parts.push(part);
    if parts.len() == 0 {
    } else {
        let rest = parts.drop_first();
        assert(longer.drop_first() =~= rest.push(part));
        lemma_joined_push(rest, part, between);
        if rest.len() == 0 {
        } else {
            assert(parts[0] + between + (joined(rest, between) + between + part) =~= (parts[0]
                + between + joined(rest, between)) + between + part);
        }
    }
}

/// What a sequence of strings stands for: the texts of the strings.
pub open spec fn text_views(strings: Seq<String>) -> Seq<Seq<char>> {
    Seq::new(strings.len(), |i: int| strings[i]@)
}

/// The characters of `s`, in order.
pub fn chars_of(s: &str) -> (r: Vec<char>)
    ensures
        r@ == s@,
{
    let mut chars: Vec<char> = Vec::new();
    for c in it: s.chars()
        invariant
            chars@ == it.seq().take(it.index()),
            it.seq() == s@,
    {
        chars.push(c);
    }
    chars
}

/// Folds the ASCII case of one character.
pub fn fold_char(c: char) -> (r: char)
    ensures
        r == fold(c),
{
    if c >= 'A' && c <= 'Z' {
        let upper: u8 = c as u8;
        let lower: u8 = upper + 32;
        lower as char
    } else {
        c
    }
}

/// Tells whether `pattern` stands in `s` at position `at`.
pub fn starts_at(s: &[char], at: usize, pattern: &[char]) -> (r: bool)
    ensures
        r == occurs_at(s@, pattern@, at as int),
{
    if at > s.len() || pattern.len() > s.len() - at {
        return false;
    }
    let mut i: usize = 0;
    while i < pattern.len()
        invariant
            at + pattern.len() <= s.len(),
            i <= pattern.len(),
            forall|j: int| 0 <= j < i ==> s@[at + j] == pattern@[j],
        decreases pattern.len() - i,
    {
        if s[at + i] != pattern[i] {
            assert(s@.subrange(at as int, at + pattern.len())[i as int] != pattern@[i as int]);
            return false;
        }
        i += 1;
    }
    assert(s@.subrange(at as int, at + pattern.len()) =~= pattern@);
    true
}

/// Finds the first position at which `pattern` stands in `s`.
pub fn find_first(s: &[char], pattern: &[char]) -> (r: Option<usize>)
    ensures
        match r {
            Some(at) => first_at(s@, pattern@, 0) == Some(at as int) && at + pattern.len()
                <= s.len(),
            None => first_at(s@, pattern@, 0) is None,
        },
{
    if pattern.len() > s.len() {
        return None;
    }
    let last: usize = s.len() - pattern.len();
    let mut at: usize = 0;
    loop
        invariant
            last == s.len() - pattern.len(),
            at <= last,
            first_at(s@, pattern@, 0) == first_at(s@, pattern@, at as int),
        decreases last - at,
    {
        if starts_at(s, at, pattern) {
            return Some(at);
        }
        if at == last {
            assert(first_at(s@, pattern@, at + 1) is None);
            return None;
        }
        at += 1;
    }
}

/// Tells whether `pattern` stands somewhere in `s`.
pub fn contains_chars(s: &[char], pattern: &[char]) -> (r: bool)
    ensures
        r == has_substring(s@, pattern@),
{
    proof {
        lemma_first_at(s@, pattern@, 0);
    }
    find_first(s, pattern).is_some()
}

/// Tells whether the string `pattern` stands somewhere in the string `s`.
pub fn str_contains(s: &str, pattern: &str) -> (r: bool)
    ensures
        r == has_substring(s@, pattern@),
{
    let chars = chars_of(s);
    let wanted = chars_of(pattern);
    contains_chars(chars.as_slice(), wanted.as_slice())
}

/// `a` comes before `b` in the order of strings, judged from position `from`
/// on: at the first position where the two differ `a` holds the smaller
/// character, or `a` ends there and `b` goes on.
pub open spec fn lt_from(a: Seq<char>, b: Seq<char>, from: int) -> bool
    decreases a.len() - from,
{
    if from < 0 || from >= b.len() {
        false
    } else if from >= a.len() {
        true
    } else if a[from] != b[from] {
        a[from] < b[from]
    } else {
        lt_from(a, b, from + 1)
    }
}

/// `a` comes before `b` in the order of strings: character by character, by
/// code point.
pub open spec fn text_lt(a: Seq<char>, b: Seq<char>) -> bool {
    lt_from(a, b, 0)
}

/// Tells whether `a` comes before `b` in the order of strings.
pub fn chars_lt(a: &[char], b: &[char]) -> (r: bool)
    ensures
        r == text_lt(a@, b@),
{
    let mut i: usize = 0;
    while i < a.len() && i < b.len()
        invariant
            i <= a.len(),
            i <= b.len(),
            text_lt(a@, b@) == lt_from(a@, b@, i as int),
        decreases a.len() - i,
    {
        if a[i] != b[i] {
            return a[i] < b[i];
        }
        i += 1;
    }
    i < b.len()
}

/// Tells whether the string `a` comes before the string `b`.
pub fn str_lt(a: &str, b: &str) -> (r: bool)
    ensures
        r == text_lt(a@, b@),
{
    let left = chars_of(a);
    let right = chars_of(b);
    chars_lt(left.as_slice(), right.as_slice())
}

/// No text comes before itself.
pub proof fn lemma_text_lt_irreflexive(a: Seq<char>)
    ensures
        !text_lt(a, a),
{
    lemma_lt_from_irreflexive(a, 0);
}

proof fn lemma_lt_from_irreflexive(a: Seq<char>, from: int)
    requires
        0 <= from,
    ensures
        !lt_from(a, a, from),
    decreases a.len() - from,
{
    if from < a.len() {
        lemma_lt_from_irreflexive(a, from + 1);
    }
}

/// The order of strings is transitive.
pub proof fn lemma_text_lt_transitive(a: Seq<char>, b: Seq<char>, c: Seq<char>)
    requires
        text_lt(a, b),
        text_lt(b, c),
    ensures
        text_lt(a, c),
{
    lemma_lt_from_transitive(a, b, c, 0);
}

proof fn lemma_lt_from_transitive(a: Seq<char>, b: Seq<char>, c: Seq<char>, from: int)
    requires
        0 <= from,
        lt_from(a, b, from),
        lt_from(b, c, from),
    ensures
        lt_from(a, c, from),
    decreases a.len() - from,
{
    if from < a.len() && a[from] == b[from] && b[from] == c[from] {
        lemma_lt_from_transitive(a, b, c, from + 1);
    }
}

/// Of two different texts one comes before the other.
pub proof fn lemma_text_lt_total(a: Seq<char>, b: Seq<char>)
    ensures
        a == b || text_lt(a, b) || text_lt(b, a),
{
    lemma_lt_from_total(a, b, 0);
}

proof fn lemma_lt_from_total(a: Seq<char>, b: Seq<char>, from: int)
    requires
        0 <= from <= a.len(),
        from <= b.len(),
        forall|j: int| 0 <= j < from ==> a[j] == b[j],
    ensures
        a == b || lt_from(a, b, from) || lt_from(b, a, from),
    decreases a.len() - from,
{
    if from < a.len() && from < b.len() {
        if a[from] == b[from] {
            lemma_lt_from_total(a, b, from + 1);
        }
    } else if from == a.len() && from == b.len() {
        assert(a =~= b);
    }
}

} // verus!
