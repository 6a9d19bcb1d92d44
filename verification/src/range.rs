//! The two ends of a range of codes, read from its text as numbers.

use vstd::prelude::*;
use crate::sac::{hex_digit, hex_padded, hex_text, range_mark, Code, SAC};
use crate::text::{chars_of, find_first, first_at, occurs_at};

verus! {

/// The value of a hexadecimal digit, in either case.
pub open spec fn digit_value(c: char) -> Option<nat> {
    if '0' <= c && c <= '9' {
        Some((c as int - 48) as nat)
    } else if 'A' <= c && c <= 'F' {
        Some((c as int - 55) as nat)
    } else if 'a' <= c && c <= 'f' {
        Some((c as int - 87) as nat)
    } else {
        None
    }
}

/// The number that hexadecimal digits stand for. No digits, or anything
/// that is no digit among them, stand for no number.
pub open spec fn hex_value(digits: Seq<char>) -> Option<nat>
    decreases digits.len(),
{
    if digits.len() == 0 {
        None
    } else if digits.len() == 1 {
        digit_value(digits[0])
    } else {
        match (hex_value(digits.drop_last()), digit_value(digits.last())) {
            (Some(high), Some(low)) => Some(high * 16 + low),
            _ => None,
        }
    }
}

/// The two ends of a range written as hexadecimal digits around the first
/// `...` of the text.
pub open spec fn range_ends(text: Seq<char>) -> Option<(nat, nat)> {
    match first_at(text, range_mark(), 0) {
        Some(at) => match (
            hex_value(text.subrange(0, at)),
            hex_value(text.subrange(at + range_mark().len(), text.len() as int)),
        ) {
            (Some(low), Some(high)) => Some((low, high)),
            _ => None,
        },
        None => None,
    }
}

/// The ends of a code as machine integers: those of a range whose text
/// gives them and in which both fit.
pub open spec fn code_bounds(code: Code) -> Option<(usize, usize)> {
    match code {
        Code::Range(text) => match range_ends(text) {
            Some((low, high)) => if low <= usize::MAX && high <= usize::MAX {
                Some((low as usize, high as usize))
            } else {
                None
            },
            None => None,
        },
        _ => None,
    }
}

/// The value of digits is at least the value of the digits without the last.
pub proof fn lemma_hex_value_grows(digits: Seq<char>, upto: int)
    requires
        1 <= upto <= digits.len(),
        hex_value(digits) is Some,
    ensures
        hex_value(digits.take(upto)) matches Some(value) && value <= hex_value(digits)->0,
    decreases digits.len() - upto,
{
    if upto == digits.len() {
        assert(digits.take(upto) =~= digits);
    } else {
        assert(digits.take(upto + 1).drop_last() =~= digits.take(upto));
        lemma_hex_value_grows(digits, upto + 1);
    }
}

fn digit_of(c: char) -> (r: Option<usize>)
    ensures
        match r {
            Some(d) => digit_value(c) == Some(d as nat) && d < 16,
            None => digit_value(c) is None,
        },
{
    if c >= '0' && c <= '9' {
        Some((c as usize) - 48)
    } else if c >= 'A' && c <= 'F' {
        Some((c as usize) - 55)
    } else if c >= 'a' && c <= 'f' {
        Some((c as usize) - 87)
    } else {
        None
    }
}

/// Reads hexadecimal digits as a number. `None` where they stand for no
/// number, or for one that does not fit.
pub fn parse_hex(digits: &[char]) -> (r: Option<usize>)
    ensures
        r == match hex_value(digits@) {
            Some(value) => if value <= usize::MAX {
                Some(value as usize)
            } else {
                None
            },
            None => None,
        },
{
    if digits.len() == 0 {
        return None;
    }
    let mut value: usize = 0;
    let mut i: usize = 0;
    while i < digits.len()
        invariant
            i <= digits.len(),
            i > 0 ==> hex_value(digits@.take(i as int)) == Some(value as nat),
            i == 0 ==> value == 0,
        decreases digits.len() - i,
    {
        let ghost longer = digits@.take(i + 1);
        proof {
            assert(longer.drop_last() =~= digits@.take(i as int));
            assert(longer.last() == digits@[i as int]);
        }
        let digit = match digit_of(digits[i]) {
            Some(digit) => digit,
            None => {
                proof {
                    if hex_value(digits@) is Some {
                        lemma_hex_value_grows(digits@, i + 1);
                    }
                }
                return None;
            },
        };
        let next = match value.checked_mul(16) {
            Some(scaled) => scaled.checked_add(digit),
            None => None,
        };
        match next {
            Some(next) => {
                value = next;
            },
            None => {
                proof {
                    if hex_value(digits@) is Some {
                        lemma_hex_value_grows(digits@, i + 1);
                    }
                }
                return None;
            },
        }
        i += 1;
    }
    proof {
        assert(digits@.take(i as int) =~= digits@);
    }
    Some(value)
}

impl SAC {
    /// The two ends of a range as numbers, where the text of the range is
    /// made of two runs of hexadecimal digits around `...` and both numbers
    /// fit. A single code and the empty code have no ends.
    pub fn bounds(&self) -> (r: Option<(usize, usize)>)
        ensures
            r == code_bounds(self@),
    {
        let text = match self {
            SAC::Range(text) => chars_of(text.as_str()),
            _ => { return None; },
        };
        let mark = chars_of("...");
        let at = match find_first(text.as_slice(), mark.as_slice()) {
            Some(at) => at,
            None => { return None; },
        };
        let ghost whole = text@;
        let (head, tail) = text.as_slice().split_at(at);
        let (_, tail) = tail.split_at(mark.len());
        proof {
            assert(head@ =~= whole.subrange(0, at as int));
            assert(tail@ =~= whole.subrange(at + range_mark().len(), whole.len() as int));
        }
        match parse_hex(head) {
            Some(low) => match parse_hex(tail) {
                Some(high) => Some((low, high)),
                None => None,
            },
            None => None,
        }
    }
}

/// A digit written by `hex_digit` has the value it was written for.
pub proof fn lemma_digit_reads_back(d: int)
    requires
        0 <= d < 16,
    ensures
        digit_value(hex_digit(d)) == Some(d as nat),
        hex_digit(d) != '.',
{
}

/// A number written in hexadecimal digits is read back as the number.
pub proof fn lemma_hex_reads_back(n: nat)
    ensures
        hex_value(hex_text(n)) == Some(n),
        hex_text(n).len() >= 1,
        forall|i: int| 0 <= i < hex_text(n).len() ==> #[trigger] hex_text(n)[i] != '.',
    decreases n,
{
    if n < 16 {
        lemma_digit_reads_back(n as int);
    } else {
        lemma_hex_reads_back(n / 16);
        lemma_digit_reads_back((n % 16) as int);
        let digits = hex_text(n);
        assert(digits.drop_last() =~= hex_text(n / 16));
        assert(digits.last() == hex_digit((n % 16) as int));
    }
}

/// A number written in at least two hexadecimal digits is read back as the
/// number.
pub proof fn lemma_padded_reads_back(n: nat)
    ensures
        hex_value(hex_padded(n)) == Some(n),
        hex_padded(n).len() >= 2,
        forall|i: int| 0 <= i < hex_padded(n).len() ==> #[trigger] hex_padded(n)[i] != '.',
{
    if n < 16 {
        lemma_digit_reads_back(n as int);
        lemma_digit_reads_back(0);
        let digits = hex_padded(n);
        assert(digits.drop_last() =~= seq!['0']);
        assert(hex_value(seq!['0']) == Some(0nat));
    } else {
        lemma_hex_reads_back(n);
        lemma_hex_reads_back(n / 16);
    }
}

/// Where no dot stands before `at` and the mark stands at `at`, the mark
/// is first found there.
pub proof fn lemma_first_mark(s: Seq<char>, at: int, from: int)
    requires
        0 <= from <= at,
        occurs_at(s, range_mark(), at),
        forall|i: int| 0 <= i < at ==> #[trigger] s[i] != '.',
    ensures
        first_at(s, range_mark(), from) == Some(at),
    decreases at - from,
{
    reveal_strlit("...");
    if from < at {
        if occurs_at(s, range_mark(), from) {
            assert(s.subrange(from, from + 3)[0] == '.');
        }
        lemma_first_mark(s, at, from + 1);
    }
}

/// A range written as its two ends in hexadecimal digits, at least two
/// each and in upper case, around `...`, is read back as the two ends.
pub proof fn lemma_range_reads_back(low: nat, high: nat)
    ensures
        range_ends(hex_padded(low) + range_mark() + hex_padded(high)) == Some((low, high)),
{
    reveal_strlit("...");
    let head = hex_padded(low);
    let tail = hex_padded(high);
    let text = head + range_mark() + tail;
    let at = head.len() as int;
    lemma_padded_reads_back(low);
    lemma_padded_reads_back(high);
    assert(text.subrange(at, at + 3) =~= range_mark());
    assert forall|i: int| 0 <= i < at implies #[trigger] text[i] != '.' by {
        assert(text[i] == head[i]);
    }
    lemma_first_mark(text, at, 0);
    assert(text.subrange(0, at) =~= head);
    assert(text.subrange(at + 3, text.len() as int) =~= tail);
}

} // verus!
