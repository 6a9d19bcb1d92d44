//! The code of a system area: a single code, a range of codes, or none.

use vstd::prelude::*;
use vstd::std_specs::cmp::PartialEqSpecImpl;
use vstd::std_specs::convert::FromSpecImpl;
use crate::text::{
    has_substring, lemma_text_lt_irreflexive, lemma_text_lt_total, lemma_text_lt_transitive,
    str_contains, str_lt, text_lt,
};

verus! {

/// What a `SAC` stands for: the kind of code and its text.
pub enum Code {
    /// A single code, as written in the source.
    Hex(Seq<char>),
    /// A range of codes, as written in the source: its two ends around `...`.
    Range(Seq<char>),
    /// No code.
    Empty,
}

impl Code {
    /// The place of the kind among the kinds: single codes first, ranges
    /// next, the empty code last.
    pub open spec fn rank(self) -> int {
        match self {
            Code::Hex(_) => 0,
            Code::Range(_) => 1,
            Code::Empty => 2,
        }
    }

    /// The code as text. The empty code has no text.
    pub open spec fn text(self) -> Seq<char> {
        match self {
            Code::Hex(text) => text,
            Code::Range(text) => text,
            Code::Empty => Seq::empty(),
        }
    }

    /// The order of codes: by kind, and within a kind by text.
    pub open spec fn lt(self, other: Code) -> bool {
        self.rank() < other.rank() || (self.rank() == other.rank() && text_lt(
            self.text(),
            other.text(),
        ))
    }
}

/// The mark that makes a text a range.
pub open spec fn range_mark() -> Seq<char> {
    "..."@
}

/// The code that a text read from a cell stands for: a range where the text
/// holds `...`, else a single code. The text is kept as it is.
pub open spec fn lift(text: Seq<char>) -> Code {
    if has_substring(text, range_mark()) {
        Code::Range(text)
    } else {
        Code::Hex(text)
    }
}

/// The upper-case hexadecimal digit of value `d`.
pub open spec fn hex_digit(d: int) -> char {
    if d < 10 {
        (48 + d) as char
    } else {
        (55 + d) as char
    }
}

/// `n` in upper-case hexadecimal digits, without leading zeros.
pub open spec fn hex_text(n: nat) -> Seq<char>
    decreases n,
{
    if n < 16 {
        seq![hex_digit(n as int)]
    } else {
        hex_text(n / 16).push(hex_digit((n % 16) as int))
    }
}

/// `n` in upper-case hexadecimal digits, at least two of them.
pub open spec fn hex_padded(n: nat) -> Seq<char> {
    if n < 16 {
        seq!['0', hex_digit(n as int)]
    } else {
        hex_text(n)
    }
}

/// Either a single code or a range of codes, or no code at all.
#[derive(Debug, Hash, Ord)]
pub enum SAC {
    /// A single code, in hexadecimal digits as a rule.
    Hex(String),
    /// A range of codes.
    Range(String),
    /// No code.
    Empty,
}

impl View for SAC {
    type V = Code;

    open spec fn view(&self) -> Code {
        match self {
            SAC::Hex(text) => Code::Hex(text@),
            SAC::Range(text) => Code::Range(text@),
            SAC::Empty => Code::Empty,
        }
    }
}

impl SAC {
    /// The empty code.
    pub fn new() -> (r: SAC)
        ensures
            r@ == Code::Empty,
    {
        SAC::Empty
    }

    /// The code as text: what was read for a single code or a range, nothing
    /// for the empty code.
    pub fn to_string(&self) -> (r: String)
        ensures
            r@ == self@.text(),
    {
        match self {
            SAC::Hex(text) => text.clone(),
            SAC::Range(text) => text.clone(),
            SAC::Empty => String::new(),
        }
    }

    /// Tells whether this code comes before `other` in the order of codes.
    pub fn precedes(&self, other: &SAC) -> (r: bool)
        ensures
            r == self@.lt(other@),
    {
        match self {
            SAC::Hex(a) => match other {
                SAC::Hex(b) => str_lt(a.as_str(), b.as_str()),
                _ => true,
            },
            SAC::Range(a) => match other {
                SAC::Hex(_) => false,
                SAC::Range(b) => str_lt(a.as_str(), b.as_str()),
                SAC::Empty => true,
            },
            SAC::Empty => {
                proof {
                    lemma_text_lt_irreflexive(Seq::<char>::empty());
                }
                false
            },
        }
    }
}

impl Default for SAC {
    fn default() -> (r: SAC)
        ensures
            r@ == Code::Empty,
    {
        SAC::new()
    }
}

impl Clone for SAC {
    fn clone(&self) -> (r: SAC)
        ensures
            r@ == self@,
    {
        match self {
            SAC::Hex(text) => SAC::Hex(text.clone()),
            SAC::Range(text) => SAC::Range(text.clone()),
            SAC::Empty => SAC::Empty,
        }
    }
}

impl PartialEq for SAC {
    fn eq(&self, other: &SAC) -> (r: bool) {
        match self {
            SAC::Hex(a) => match other {
                SAC::Hex(b) => *a == *b,
                _ => false,
            },
            SAC::Range(a) => match other {
                SAC::Range(b) => *a == *b,
                _ => false,
            },
            SAC::Empty => match other {
                SAC::Empty => true,
                _ => false,
            },
        }
    }
}

/// Two codes are equal where they stand for the same: the same kind and the
/// same text.
impl PartialEqSpecImpl for SAC {
    open spec fn obeys_eq_spec() -> bool {
        true
    }

    open spec fn eq_spec(&self, other: &SAC) -> bool {
        self@ == other@
    }
}

impl Eq for SAC {

}

impl<'a> From<&'a str> for SAC {
    /// Lifts the text of a cell into a code.
    fn from(value: &'a str) -> (r: SAC)
        ensures
            r@ == lift(value@),
    {
        if str_contains(value, "...") {
            SAC::Range(value.to_owned())
        } else {
            SAC::Hex(value.to_owned())
        }
    }
}

/// The conversion is stated by the view of its result, in the `ensures` of
/// `from`: to the verifier two strings of the same characters are not one
/// value, so no spec function can name the result itself.
impl<'a> FromSpecImpl<&'a str> for SAC {
    open spec fn obeys_from_spec() -> bool {
        false
    }

    open spec fn from_spec(v: &'a str) -> SAC {
        arbitrary()
    }
}

fn digit_text(d: usize) -> (r: &'static str)
    requires
        d < 16,
    ensures
        r@ == seq![hex_digit(d as int)],
{
    let r = match d {
        0 => "0",
        1 => "1",
        2 => "2",
        3 => "3",
        4 => "4",
        5 => "5",
        6 => "6",
        7 => "7",
        8 => "8",
        9 => "9",
        10 => "A",
        11 => "B",
        12 => "C",
        13 => "D",
        14 => "E",
        _ => "F",
    };
    proof {
        reveal_strlit("0");
        reveal_strlit("1");
        reveal_strlit("2");
        reveal_strlit("3");
        reveal_strlit("4");
        reveal_strlit("5");
        reveal_strlit("6");
        reveal_strlit("7");
        reveal_strlit("8");
        reveal_strlit("9");
        reveal_strlit("A");
        reveal_strlit("B");
        reveal_strlit("C");
        reveal_strlit("D");
        reveal_strlit("E");
        reveal_strlit("F");
        assert(r@ =~= seq![hex_digit(d as int)]);
    }
    r
}

fn hex_string(n: usize) -> (r: String)
    ensures
        r@ == hex_text(n as nat),
    decreases n,
{
    if n < 16 {
        String::from_str(digit_text(n))
    } else {
        let mut digits = hex_string(n / 16);
        digits.append(digit_text(n % 16));
        assert(digits@ =~= hex_text(n as nat));
        digits
    }
}

impl From<usize> for SAC {
    /// The single code of a number: its upper-case hexadecimal digits, at
    /// least two of them.
    fn from(value: usize) -> (r: SAC)
        ensures
            r@ == Code::Hex(hex_padded(value as nat)),
    {
        if value < 16 {
            let mut digits = String::from_str("0");
            digits.append(digit_text(value));
            proof {
                reveal_strlit("0");
                assert(digits@ =~= hex_padded(value as nat));
            }
            SAC::Hex(digits)
        } else {
            SAC::Hex(hex_string(value))
        }
    }
}

/// As for texts: the conversion is stated in the `ensures` of `from`.
impl FromSpecImpl<usize> for SAC {
    open spec fn obeys_from_spec() -> bool {
        false
    }

    open spec fn from_spec(v: usize) -> SAC {
        arbitrary()
    }
}

/// No code comes before itself.
pub proof fn lemma_code_lt_irreflexive(a: Code)
    ensures
        !a.lt(a),
{
    lemma_text_lt_irreflexive(a.text());
}

/// The order of codes is transitive.
pub proof fn lemma_code_lt_transitive(a: Code, b: Code, c: Code)
    requires
        a.lt(b),
        b.lt(c),
    ensures
        a.lt(c),
{
    if a.rank() == b.rank() && b.rank() == c.rank() {
        lemma_text_lt_transitive(a.text(), b.text(), c.text());
    }
}

/// The order of codes is total: of two different codes one comes before the
/// other.
pub proof fn lemma_code_lt_total(a: Code, b: Code)
    ensures
        a == b || a.lt(b) || b.lt(a),
{
    if a.rank() == b.rank() {
        lemma_text_lt_total(a.text(), b.text());
    }
}

/// The text of a lifted code is the text that was lifted, and no text is
/// lifted into the empty code.
pub proof fn lemma_lift_keeps_text(text: Seq<char>)
    ensures
        lift(text).text() == text,
        lift(text) !is Empty,
{
}

/// A single code without the range mark, and a range with it, come back
/// from their text unchanged.
pub proof fn lemma_text_reads_back(code: Code)
    requires
        code is Hex ==> !has_substring(code.text(), range_mark()),
        code is Range ==> has_substring(code.text(), range_mark()),
        code !is Empty,
    ensures
        lift(code.text()) == code,
{
}

} // verus!
