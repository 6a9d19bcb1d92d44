//! The clean-up of a row before it is read: line breaks that the source
//! embeds in cells are taken out.

use vstd::prelude::*;
use crate::text::{chars_of, flat, has_substring, joined, occurs_at, starts_at};

verus! {

/// `s` with every occurrence of `pattern` replaced by `with`. Occurrences
/// are found from the left and do not overlap.
pub open spec fn replaced(s: Seq<char>, pattern: Seq<char>, with: Seq<char>) -> Seq<char>
    decreases s.len(),
{
    if pattern.len() == 0 || s.len() < pattern.len() {
        s
    } else if occurs_at(s, pattern, 0) {
        with + replaced(s.skip(pattern.len() as int), pattern, with)
    } else {
        seq![s[0]] + replaced(s.skip(1), pattern, with)
    }
}

/// The line break that is taken out of a row.
pub open spec fn line_break() -> Seq<char> {
    "<br>"@
}

/// `s` without line breaks.
pub open spec fn without_breaks(s: Seq<char>) -> Seq<char> {
    replaced(s, line_break(), Seq::empty())
}

/// Replaces every occurrence of `pattern` in `text` by `with`. Occurrences
/// are found from the left and do not overlap; what was put in is not
/// searched again. An empty pattern occurs nowhere.
pub fn replace_all(text: &str, pattern: &str, with: &str) -> (r: String)
    ensures
        r@ == replaced(text@, pattern@, with@),
{
    let chars = chars_of(text);
    let wanted = chars_of(pattern);
    if wanted.len() == 0 || wanted.len() > chars.len() {
        return text.to_owned();
    }
    let ghost whole = text@;
    let last: usize = chars.len() - wanted.len();
    let mut out = String::new();
    let mut kept: usize = 0;
    let mut at: usize = 0;
    proof {
        assert(whole.skip(0) =~= whole);
        assert(out@ + whole.subrange(0, 0) + replaced(whole, pattern@, with@) =~= replaced(
            whole,
            pattern@,
            with@,
        ));
    }
    while at <= last
        invariant
            chars@ == whole,
            whole == text@,
            wanted@ == pattern@,
            0 < wanted.len() <= chars.len(),
            last == chars.len() - wanted.len(),
            kept <= at <= chars.len(),
            replaced(whole, pattern@, with@) == out@ + whole.subrange(kept as int, at as int)
                + replaced(whole.skip(at as int), pattern@, with@),
        decreases chars.len() - at,
    {
        let ghost before = out@ + whole.subrange(kept as int, at as int);
        let ghost rest = whole.skip(at as int);
        proof {
            assert(rest.subrange(0, wanted.len() as int) =~= whole.subrange(
                at as int,
                at + wanted.len(),
            ));
        }
        if starts_at(chars.as_slice(), at, wanted.as_slice()) {
            out.append(text.substring_char(kept, at));
            out.append(with);
            at += wanted.len();
            kept = at;
            proof {
                assert(rest.skip(wanted.len() as int) =~= whole.skip(at as int));
                assert(out@ + whole.subrange(kept as int, at as int) =~= before + with@);
                assert(before + (with@ + replaced(whole.skip(at as int), pattern@, with@))
                    =~= before + with@ + replaced(whole.skip(at as int), pattern@, with@));
            }
        } else {
            at += 1;
            proof {
                assert(rest.skip(1) =~= whole.skip(at as int));
                assert(out@ + whole.subrange(kept as int, at as int) =~= before + seq![rest[0]]);
                assert(before + (seq![rest[0]] + replaced(whole.skip(at as int), pattern@, with@))
                    =~= before + seq![rest[0]] + replaced(whole.skip(at as int), pattern@, with@));
            }
        }
    }
    out.append(text.substring_char(kept, chars.len()));
    proof {
        assert(whole.subrange(kept as int, at as int) + whole.skip(at as int) =~= whole.subrange(
            kept as int,
            whole.len() as int,
        ));
    }
    out
}

/// Takes the line breaks out of the markup of a row.
pub fn strip_breaks(markup: &str) -> (r: String)
    ensures
        r@ == without_breaks(markup@),
{
    proof {
        reveal_strlit("");
        assert(""@ =~= Seq::<char>::empty());
    }
    replace_all(markup, "<br>", "")
}

/// Text that does not hold the pattern is left as it is.
pub proof fn lemma_replaced_same(s: Seq<char>, pattern: Seq<char>, with: Seq<char>)
    requires
        !has_substring(s, pattern),
    ensures
        replaced(s, pattern, with) == s,
    decreases s.len(),
{
    if pattern.len() == 0 || s.len() < pattern.len() {
    } else {
        assert(!occurs_at(s, pattern, 0));
        let rest = s.skip(1);
        assert forall|at: int| !occurs_at(rest, pattern, at) by {
            if occurs_at(rest, pattern, at) {
                assert(s.subrange(at + 1, at + 1 + pattern.len()) =~= rest.subrange(
                    at,
                    at + pattern.len(),
                ));
                assert(occurs_at(s, pattern, at + 1));
            }
        }
        lemma_replaced_same(rest, pattern, with);
        assert(seq![s[0]] + rest =~= s);
    }
}

/// Where the first occurrence of the pattern stands right after `before`,
/// the text up to it is kept, the occurrence is replaced, and the rest is
/// treated on its own.
pub proof fn lemma_replaced_first(
    before: Seq<char>,
    after: Seq<char>,
    pattern: Seq<char>,
    with: Seq<char>,
)
    requires
        pattern.len() > 0,
        forall|at: int|
            0 <= at < before.len() ==> !occurs_at(before + pattern + after, pattern, at),
    ensures
        replaced(before + pattern + after, pattern, with) == before + with + replaced(
            after,
            pattern,
            with,
        ),
    decreases before.len(),
{
    let s = before + pattern + after;
    if before.len() == 0 {
        assert(s.subrange(0, pattern.len() as int) =~= pattern);
        assert(s.skip(pattern.len() as int) =~= after);
        assert(before + with + replaced(after, pattern, with) =~= with + replaced(
            after,
            pattern,
            with,
        ));
    } else {
        assert(!occurs_at(s, pattern, 0));
        let shorter = before.skip(1);
        assert(s.skip(1) =~= shorter + pattern + after);
        assert forall|at: int| 0 <= at < shorter.len() implies !occurs_at(
            shorter + pattern + after,
            pattern,
            at,
        ) by {
            if occurs_at(shorter + pattern + after, pattern, at) {
                assert(s.subrange(at + 1, at + 1 + pattern.len()) =~= (shorter + pattern
                    + after).subrange(at, at + pattern.len()));
                assert(occurs_at(s, pattern, at + 1));
            }
        }
        lemma_replaced_first(shorter, after, pattern, with);
        assert(seq![s[0]] + (shorter + with + replaced(after, pattern, with)) =~= before + with
            + replaced(after, pattern, with));
    }
}

/// A line break that follows text without line breaks is the first one: no
/// line break begins in that text and ends in the line break.
pub proof fn lemma_break_is_first(before: Seq<char>, after: Seq<char>)
    requires
        !has_substring(before, line_break()),
    ensures
        forall|at: int|
            0 <= at < before.len() ==> !occurs_at(
                before + line_break() + after,
                line_break(),
                at,
            ),
{
    reveal_strlit("<br>");
    let mark = line_break();
    let s = before + mark + after;
    assert forall|at: int| 0 <= at < before.len() implies !occurs_at(s, mark, at) by {
        if occurs_at(s, mark, at) {
            let found = s.subrange(at, at + 4);
            assert(found == mark);
            if at + 4 <= before.len() {
                assert(before.subrange(at, at + 4) =~= found);
                assert(occurs_at(before, mark, at));
            } else {
                // The occurrence would reach into the line break, whose first
                // character stands nowhere else in it.
                let inside = before.len() - at;
                assert(found[inside] == s[before.len() as int]);
                assert(s[before.len() as int] == mark[0]);
                assert(mark[0] == '<');
                assert(mark[inside] != '<');
            }
        }
    }
}

/// Taking out line breaks undoes their insertion: where the parts of a text
/// hold no line break, also not across their borders, the parts joined by
/// line breaks come back as the text.
pub proof fn lemma_inserted_breaks_vanish(parts: Seq<Seq<char>>)
    requires
        !has_substring(flat(parts), line_break()),
    ensures
        without_breaks(joined(parts, line_break())) == flat(parts),
    decreases parts.len(),
{
    reveal_strlit("<br>");
    let mark = line_break();
    if parts.len() == 0 {
    } else if parts.len() == 1 {
        assert(flat(parts.drop_first()) =~= Seq::<char>::empty());
        assert(flat(parts) =~= parts[0]);
        lemma_replaced_same(parts[0], mark, Seq::empty());
    } else {
        let first = parts[0];
        let rest = parts.drop_first();
        let whole = flat(parts);
        assert(whole == first + flat(rest));
        assert forall|at: int| !occurs_at(first, mark, at) by {
            if occurs_at(first, mark, at) {
                assert(whole.subrange(at, at + mark.len()) =~= first.subrange(
                    at,
                    at + mark.len(),
                ));
                assert(occurs_at(whole, mark, at));
            }
        }
        assert forall|at: int| !occurs_at(flat(rest), mark, at) by {
            if occurs_at(flat(rest), mark, at) {
                assert(whole.subrange(first.len() + at, first.len() + at + mark.len()) =~= flat(
                    rest,
                ).subrange(at, at + mark.len()));
                assert(occurs_at(whole, mark, first.len() + at));
            }
        }
        lemma_inserted_breaks_vanish(rest);
        lemma_break_is_first(first, joined(rest, mark));
        lemma_replaced_first(first, joined(rest, mark), mark, Seq::empty());
        assert(first + Seq::<char>::empty() + flat(rest) =~= whole);
    }
}

} // verus!
