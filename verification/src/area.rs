//! An area: a named group of codes, each with its label, kept in the order
//! of the codes.

use vstd::prelude::*;
use crate::text::text_views;
use crate::sac::{
    lemma_code_lt_irreflexive, lemma_code_lt_total, lemma_code_lt_transitive, Code, SAC,
};

verus! {

/// One code of an area and its label.
pub type Entry = (Code, Seq<char>);

/// What an `Area` stands for: its name, and its codes with their labels in
/// the order of the codes.
pub struct AreaView {
    pub label: Seq<char>,
    pub entries: Seq<Entry>,
}

/// The codes of `entries` go strictly upwards, so that none occurs twice.
pub open spec fn ordered(entries: Seq<Entry>) -> bool {
    forall|i: int, j: int| 0 <= i < j < entries.len() ==> (#[trigger] entries[i]).0.lt(
        (#[trigger] entries[j]).0,
    )
}

/// The first position at or after `from` whose code does not come before `code`.
pub open spec fn slot_from(entries: Seq<Entry>, code: Code, from: int) -> int
    decreases entries.len() - from,
{
    if 0 <= from < entries.len() && entries[from].0.lt(code) {
        slot_from(entries, code, from + 1)
    } else {
        from
    }
}

/// The place of `code` in `entries`: the first position whose code does not
/// come before it.
pub open spec fn slot(entries: Seq<Entry>, code: Code) -> int {
    slot_from(entries, code, 0)
}

/// `code` is among the codes of `entries`.
pub open spec fn holds(entries: Seq<Entry>, code: Code) -> bool {
    slot(entries, code) < entries.len() && entries[slot(entries, code)].0 == code
}

/// The label of `code` in `entries`, where it has one.
pub open spec fn lookup(entries: Seq<Entry>, code: Code) -> Option<Seq<char>> {
    if holds(entries, code) {
        Some(entries[slot(entries, code)].1)
    } else {
        None
    }
}

/// `entries` with `code` labelled `label`: in place of its former label
/// where it had one, else at its place in the order.
pub open spec fn put(entries: Seq<Entry>, code: Code, label: Seq<char>) -> Seq<Entry> {
    if holds(entries, code) {
        entries.update(slot(entries, code), (code, label))
    } else {
        entries.insert(slot(entries, code), (code, label))
    }
}

/// The codes of `entries`, in order.
pub open spec fn codes(entries: Seq<Entry>) -> Seq<Code> {
    entries.map_values(|e: Entry| e.0)
}

/// The labels of `entries`, in the order of their codes.
pub open spec fn labels(entries: Seq<Entry>) -> Seq<Seq<char>> {
    entries.map_values(|e: Entry| e.1)
}

/// The line of one entry in the text of an area.
pub open spec fn line(entry: Entry) -> Seq<char> {
    "  "@ + entry.0.text() + " = "@ + entry.1
}

/// The lines of `entries`, one below the other.
pub open spec fn lines(entries: Seq<Entry>) -> Seq<char>
    decreases entries.len(),
{
    if entries.len() == 0 {
        Seq::empty()
    } else if entries.len() == 1 {
        line(entries[0])
    } else {
        lines(entries.drop_last()) + "\n"@ + line(entries.last())
    }
}

/// An area as text: its name on a line of its own, and its entries below.
pub open spec fn area_text(area: AreaView) -> Seq<char> {
    area.label + "\n"@ + lines(area.entries)
}

/// What borrowed codes stand for.
pub open spec fn code_views(codes: Seq<&SAC>) -> Seq<Code> {
    Seq::new(codes.len(), |i: int| codes[i]@)
}

/// What borrowed labels stand for.
pub open spec fn label_views(labels: Seq<&String>) -> Seq<Seq<char>> {
    Seq::new(labels.len(), |i: int| labels[i]@)
}

/// What borrowed codes and labels stand for.
pub open spec fn entry_views(entries: Seq<(&SAC, &String)>) -> Seq<Entry> {
    Seq::new(entries.len(), |i: int| (entries[i].0@, entries[i].1@))
}

/// The entries that stored codes and labels stand for, pair by pair.
pub open spec fn entries_of(codes: Seq<SAC>, labels: Seq<String>) -> Seq<Entry> {
    Seq::new(codes.len(), |i: int| (codes[i]@, labels[i]@))
}

/// One area: a group of countries, a continent and the like.
#[derive(Debug)]
pub struct Area {
    label: String,
    codes: Vec<SAC>,
    labels: Vec<String>,
}

impl View for Area {
    type V = AreaView;

    closed spec fn view(&self) -> AreaView {
        AreaView { label: self.label@, entries: entries_of(self.codes@, self.labels@) }
    }
}

/// What `slot_from` finds: every code from `from` up to it comes before
/// `code`, and the code at it does not.
pub proof fn lemma_slot_from(entries: Seq<Entry>, code: Code, from: int)
    requires
        0 <= from <= entries.len(),
    ensures
        from <= slot_from(entries, code, from) <= entries.len(),
        forall|i: int|
            from <= i < slot_from(entries, code, from) ==> (#[trigger] entries[i]).0.lt(code),
        slot_from(entries, code, from) < entries.len() ==> !entries[slot_from(
            entries,
            code,
            from,
        )].0.lt(code),
    decreases entries.len() - from,
{
    if from < entries.len() && entries[from].0.lt(code) {
        lemma_slot_from(entries, code, from + 1);
    }
}

/// In ordered entries the place of a code parts the codes before it from
/// the codes after it.
pub proof fn lemma_slot(entries: Seq<Entry>, code: Code)
    requires
        ordered(entries),
    ensures
        0 <= slot(entries, code) <= entries.len(),
        forall|i: int| 0 <= i < slot(entries, code) ==> (#[trigger] entries[i]).0.lt(code),
        forall|i: int|
            slot(entries, code) <= i < entries.len() ==> !(#[trigger] entries[i]).0.lt(code),
        forall|i: int|
            slot(entries, code) <= i < entries.len() && (#[trigger] entries[i]).0 != code
                ==> code.lt(entries[i].0),
        forall|i: int|
            0 <= i < entries.len() && (#[trigger] entries[i]).0 == code ==> i == slot(
                entries,
                code,
            ),
{
    let at = slot(entries, code);
    lemma_slot_from(entries, code, 0);
    assert forall|i: int| at <= i < entries.len() implies !(#[trigger] entries[i]).0.lt(code) by {
        if i > at && entries[i].0.lt(code) {
            assert(entries[at].0.lt(entries[i].0));
            lemma_code_lt_transitive(entries[at].0, entries[i].0, code);
        }
    }
    assert forall|i: int|
        at <= i < entries.len() && (#[trigger] entries[i]).0 != code implies code.lt(
        entries[i].0,
    ) by {
        lemma_code_lt_total(entries[i].0, code);
    }
    assert forall|i: int| 0 <= i < entries.len() && (#[trigger] entries[i]).0 == code implies i
        == at by {
        lemma_code_lt_irreflexive(code);
        if i > at {
            assert(entries[at].0.lt(entries[i].0));
            lemma_code_lt_total(entries[at].0, code);
            if code.lt(entries[at].0) {
                lemma_code_lt_transitive(code, entries[at].0, entries[i].0);
            }
        }
    }
}

/// No code occurs twice in ordered entries.
pub proof fn lemma_codes_differ(entries: Seq<Entry>, i: int, j: int)
    requires
        ordered(entries),
        0 <= i < entries.len(),
        0 <= j < entries.len(),
        i != j,
    ensures
        entries[i].0 != entries[j].0,
{
    lemma_code_lt_irreflexive(entries[i].0);
    if i < j {
        assert(entries[i].0.lt(entries[j].0));
    } else {
        assert(entries[j].0.lt(entries[i].0));
    }
}

/// Ordered entries without the first are ordered.
pub proof fn lemma_rest_ordered(entries: Seq<Entry>)
    requires
        ordered(entries),
        entries.len() > 0,
    ensures
        ordered(entries.drop_first()),
{
    let rest = entries.drop_first();
    assert forall|i: int, j: int| 0 <= i < j < rest.len() implies (#[trigger] rest[i]).0.lt(
        (#[trigger] rest[j]).0,
    ) by {
        assert(rest[i] == entries[i + 1]);
        assert(rest[j] == entries[j + 1]);
    }
}

/// What `lookup` finds in ordered entries: the label of the one entry that
/// has the code, and nothing where no entry has it.
pub proof fn lemma_lookup(entries: Seq<Entry>, code: Code)
    requires
        ordered(entries),
    ensures
        forall|i: int|
            0 <= i < entries.len() && (#[trigger] entries[i]).0 == code ==> lookup(entries, code)
                == Some(entries[i].1),
        lookup(entries, code) is None <==> forall|i: int|
            0 <= i < entries.len() ==> (#[trigger] entries[i]).0 != code,
{
    lemma_slot(entries, code);
}

/// Putting a code into ordered entries leaves them ordered.
pub proof fn lemma_put_ordered(entries: Seq<Entry>, code: Code, label: Seq<char>)
    requires
        ordered(entries),
    ensures
        ordered(put(entries, code, label)),
{
    let at = slot(entries, code);
    let after = put(entries, code, label);
    lemma_slot(entries, code);
    assert forall|i: int, j: int| 0 <= i < j < after.len() implies (#[trigger] after[i]).0.lt(
        (#[trigger] after[j]).0,
    ) by {
        if holds(entries, code) {
            assert(after[i].0 == entries[i].0);
            assert(after[j].0 == entries[j].0);
        } else {
            let from_i = if i < at { i } else { i - 1 };
            let from_j = if j < at { j } else { j - 1 };
            if i != at && j != at {
                assert(after[i] == entries[from_i]);
                assert(after[j] == entries[from_j]);
            } else if i == at {
                assert(after[j] == entries[from_j]);
            } else {
                assert(after[i] == entries[from_i]);
            }
        }
    }
}

/// Putting a code labels it, and leaves every other code as it was.
pub proof fn lemma_put_lookup(entries: Seq<Entry>, code: Code, label: Seq<char>, other: Code)
    requires
        ordered(entries),
    ensures
        lookup(put(entries, code, label), other) == if other == code {
            Some(label)
        } else {
            lookup(entries, other)
        },
{
    let at = slot(entries, code);
    let after = put(entries, code, label);
    lemma_put_ordered(entries, code, label);
    lemma_slot(entries, code);
    lemma_slot(entries, other);
    lemma_slot(after, other);
    let was = slot(entries, other);
    let now = slot(after, other);
    if other == code {
        assert(after[at].0 == code);
    } else if holds(entries, code) {
        assert(forall|i: int| 0 <= i < after.len() ==> (#[trigger] after[i]).0 == entries[i].0);
        if holds(entries, other) {
            assert(after[was].0 == other);
        }
        if holds(after, other) {
            assert(entries[now].0 == other);
        }
    } else {
        if holds(entries, other) {
            let moved = if was < at { was } else { was + 1 };
            assert(after[moved] == entries[was]);
        }
        if holds(after, other) {
            let from = if now < at { now } else { now - 1 };
            assert(after[now] == entries[from]);
        }
    }
}

/// Ordered entries are settled by what they hold: two ordered sequences of
/// entries that hold the same codes with the same labels are equal.
pub proof fn lemma_ordered_unique(a: Seq<Entry>, b: Seq<Entry>)
    requires
        ordered(a),
        ordered(b),
        forall|code: Code| lookup(a, code) == lookup(b, code),
    ensures
        a == b,
    decreases a.len(),
{
    if a.len() == 0 {
        if b.len() > 0 {
            lemma_slot(b, b[0].0);
            assert(lookup(b, b[0].0) is Some);
            assert(lookup(a, b[0].0) is None);
        }
        assert(a =~= b);
    } else {
        lemma_slot(a, a[0].0);
        lemma_slot(b, a[0].0);
        assert(lookup(a, a[0].0) == Some(a[0].1));
        assert(b.len() > 0);
        lemma_slot(b, b[0].0);
        lemma_slot(a, b[0].0);
        assert(lookup(b, b[0].0) == Some(b[0].1));
        // Each first code is among the other's codes, so neither comes before the other.
        let at = slot(b, a[0].0);
        let back = slot(a, b[0].0);
        assert(b[at].0 == a[0].0);
        assert(a[back].0 == b[0].0);
        if at > 0 {
            assert(b[0].0.lt(b[at].0));
            if back > 0 {
                assert(a[0].0.lt(a[back].0));
                lemma_code_lt_transitive(a[0].0, b[0].0, a[0].0);
            }
            lemma_code_lt_irreflexive(a[0].0);
        }
        assert(a[0] == b[0]);
        let rest_a = a.drop_first();
        let rest_b = b.drop_first();
        lemma_rest_ordered(a);
        lemma_rest_ordered(b);
        assert forall|code: Code| lookup(rest_a, code) == lookup(rest_b, code) by {
            lemma_drop_first_lookup(a, code);
            lemma_drop_first_lookup(b, code);
        }
        lemma_ordered_unique(rest_a, rest_b);
        assert(a =~= seq![a[0]] + rest_a);
        assert(b =~= seq![b[0]] + rest_b);
    }
}

/// The order in which two different codes are put does not show in the
/// entries.
pub proof fn lemma_put_commutes(
    entries: Seq<Entry>,
    first: Code,
    first_label: Seq<char>,
    second: Code,
    second_label: Seq<char>,
)
    requires
        ordered(entries),
        first != second,
    ensures
        put(put(entries, first, first_label), second, second_label) == put(
            put(entries, second, second_label),
            first,
            first_label,
        ),
{
    let one = put(entries, first, first_label);
    let other = put(entries, second, second_label);
    let left = put(one, second, second_label);
    let right = put(other, first, first_label);
    lemma_put_ordered(entries, first, first_label);
    lemma_put_ordered(entries, second, second_label);
    lemma_put_ordered(one, second, second_label);
    lemma_put_ordered(other, first, first_label);
    assert forall|code: Code| lookup(left, code) == lookup(right, code) by {
        lemma_put_lookup(entries, first, first_label, code);
        lemma_put_lookup(entries, second, second_label, code);
        lemma_put_lookup(one, second, second_label, code);
        lemma_put_lookup(other, first, first_label, code);
    }
    lemma_ordered_unique(left, right);
}

proof fn lemma_drop_first_lookup(entries: Seq<Entry>, code: Code)
    requires
        ordered(entries),
        entries.len() > 0,
    ensures
        lookup(entries.drop_first(), code) == if code == entries[0].0 {
            None
        } else {
            lookup(entries, code)
        },
{
    let rest = entries.drop_first();
    lemma_rest_ordered(entries);
    lemma_slot(entries, code);
    lemma_slot(rest, code);
    let was = slot(entries, code);
    let now = slot(rest, code);
    if holds(rest, code) {
        assert(rest[now] == entries[now + 1]);
        lemma_code_lt_irreflexive(code);
        assert(entries[0].0.lt(entries[now + 1].0));
    }
    if holds(entries, code) && was > 0 {
        assert(rest[was - 1] == entries[was]);
    }
}

/// The order of stored entries goes by the codes alone: other labels for
/// the same codes leave it as it is.
proof fn lemma_labels_are_free(codes: Seq<SAC>, labels: Seq<String>, other: Seq<String>)
    requires
        ordered(entries_of(codes, labels)),
    ensures
        ordered(entries_of(codes, other)),
{
    let before = entries_of(codes, labels);
    let after = entries_of(codes, other);
    assert forall|i: int, j: int| 0 <= i < j < after.len() implies (#[trigger] after[i]).0.lt(
        (#[trigger] after[j]).0,
    ) by {
        assert(before[i].0 == after[i].0);
        assert(before[j].0 == after[j].0);
    }
}

impl Clone for Area {
    fn clone(&self) -> (r: Area)
        ensures
            r@ == self@,
    {
        proof {
            use_type_invariant(self);
        }
        let mut codes: Vec<SAC> = Vec::new();
        let mut labels: Vec<String> = Vec::new();
        let mut i: usize = 0;
        while i < self.codes.len()
            invariant
                i <= self.codes.len(),
                self.codes.len() == self.labels.len(),
                codes.len() == i,
                labels.len() == i,
                forall|j: int| 0 <= j < i ==> (#[trigger] codes@[j])@ == self.codes@[j]@,
                forall|j: int| 0 <= j < i ==> (#[trigger] labels@[j])@ == self.labels@[j]@,
            decreases self.codes.len() - i,
        {
            codes.push(self.codes[i].clone());
            labels.push(self.labels[i].clone());
            i += 1;
        }
        assert(entries_of(codes@, labels@) =~= entries_of(self.codes@, self.labels@));
        Area { label: self.label.clone(), codes, labels }
    }
}

impl core::ops::Index<&SAC> for Area {
    type Output = String;

    /// The label of a code that the area holds.
    fn index(&self, s: &SAC) -> (r: &String)
        ensures
            lookup(self@.entries, s@) == Some(r@),
    {
        let at = self.position(s);
        &self.labels[at]
    }
}

impl vstd::std_specs::core::IndexSpecImpl<&SAC> for Area {
    open spec fn index_req(&self, index: &&SAC) -> bool {
        holds(self@.entries, index@)
    }
}

/// `code` is what `name` converts into.
pub open spec fn converts<T: Into<SAC>>(name: T, code: SAC) -> bool {
    call_ensures(<T as Into<SAC>>::into, (name,), code)
}

impl Area {
    #[verifier::type_invariant]
    spec fn well_formed(&self) -> bool {
        &&& self.codes@.len() == self.labels@.len()
        &&& ordered(entries_of(self.codes@, self.labels@))
    }

    /// An area of the given name, without codes.
    pub fn new(s: &str) -> (r: Area)
        ensures
            r@.label == s@,
            r@.entries == Seq::<Entry>::empty(),
    {
        let r = Area { label: s.to_owned(), codes: Vec::new(), labels: Vec::new() };
        assert(r@.entries =~= Seq::<Entry>::empty());
        r
    }

    /// The name of the area.
    pub fn name(&self) -> (r: String)
        ensures
            r@ == self@.label,
    {
        self.label.clone()
    }

    fn position(&self, code: &SAC) -> (r: usize)
        ensures
            r == slot(self@.entries, code@),
            r <= self.codes.len(),
            self.codes.len() == self.labels.len(),
            ordered(self@.entries),
    {
        proof {
            use_type_invariant(self);
        }
        let mut at: usize = 0;
        while at < self.codes.len() && self.codes[at].precedes(code)
            invariant
                at <= self.codes.len(),
                self.codes.len() == self.labels.len(),
                slot(self@.entries, code@) == slot_from(self@.entries, code@, at as int),
            decreases self.codes.len() - at,
        {
            at += 1;
        }
        at
    }

    /// The label of a code, where the area holds the code.
    pub fn get<T: Into<SAC>>(&self, name: T) -> (r: Option<&String>)
        ensures
            exists|c: SAC| #[trigger]
                converts(name, c) && match r {
                    Some(label) => lookup(self@.entries, c@) == Some(label@),
                    None => lookup(self@.entries, c@) is None,
                },
    {
        let key: SAC = name.into();
        assert(converts(name, key));
        self.label_of(&key)
    }

    /// The label of a code, where the area holds the code.
    pub fn label_of(&self, code: &SAC) -> (r: Option<&String>)
        ensures
            match r {
                Some(label) => lookup(self@.entries, code@) == Some(label@),
                None => lookup(self@.entries, code@) is None,
            },
    {
        let at = self.position(code);
        if at < self.codes.len() && self.codes[at] == *code {
            Some(&self.labels[at])
        } else {
            None
        }
    }

    /// Tells whether the area holds no code.
    pub fn is_empty(&self) -> (r: bool)
        ensures
            r == (self@.entries.len() == 0),
    {
        self.codes.len() == 0
    }

    /// The number of codes in the area.
    pub fn len(&self) -> (r: usize)
        ensures
            r == self@.entries.len(),
    {
        self.codes.len()
    }

    /// The codes of the area, in their order.
    pub fn keys(&self) -> (r: Vec<&SAC>)
        ensures
            code_views(r@) == codes(self@.entries),
    {
        let mut r: Vec<&SAC> = Vec::new();
        let mut i: usize = 0;
        while i < self.codes.len()
            invariant
                i <= self.codes.len(),
                r.len() == i,
                forall|j: int| 0 <= j < i ==> (#[trigger] r@[j])@ == self@.entries[j].0,
            decreases self.codes.len() - i,
        {
            r.push(&self.codes[i]);
            i += 1;
        }
        assert(code_views(r@) =~= codes(self@.entries));
        r
    }

    /// The label of a code, where the area holds the code.
    pub fn index_mut<T: Into<SAC>>(&mut self, s: T) -> (r: Option<&String>)
        ensures
            exists|c: SAC| #[trigger]
                converts(s, c) && match r {
                    Some(label) => lookup(old(self)@.entries, c@) == Some(label@),
                    None => lookup(old(self)@.entries, c@) is None,
                },
            *final(self) == *old(self),
    {
        let key: SAC = s.into();
        assert(converts(s, key));
        self.label_of(&key)
    }

    /// The labels of the area, in the order of their codes.
    pub fn values(&self) -> (r: Vec<&String>)
        ensures
            label_views(r@) == labels(self@.entries),
    {
        proof {
            use_type_invariant(self);
        }
        let mut r: Vec<&String> = Vec::new();
        let mut i: usize = 0;
        while i < self.labels.len()
            invariant
                i <= self.labels.len(),
                self.codes.len() == self.labels.len(),
                r.len() == i,
                forall|j: int| 0 <= j < i ==> (#[trigger] r@[j])@ == self@.entries[j].1,
            decreases self.labels.len() - i,
        {
            r.push(&self.labels[i]);
            i += 1;
        }
        assert(label_views(r@) =~= labels(self@.entries));
        r
    }

    /// The label at a position in the order of the codes, to be changed in
    /// place; nothing where the area has no such position.
    pub fn values_mut(&mut self, index: usize) -> (r: Option<&mut String>)
        ensures
            final(self)@.label == old(self)@.label,
            match r {
                Some(label) => {
                    &&& index < old(self)@.entries.len()
                    &&& label@ == old(self)@.entries[index as int].1
                    &&& final(self)@.entries == old(self)@.entries.update(
                        index as int,
                        (old(self)@.entries[index as int].0, final(label)@),
                    )
                },
                None => index >= old(self)@.entries.len() && final(self)@.entries == old(
                    self,
                )@.entries,
            },
    {
        proof {
            use_type_invariant(&*self);
        }
        if index < self.labels.len() {
            let ghost codes = self.codes@;
            let ghost before = self.labels@;
            assert forall|after: Seq<String>| #[trigger]
                after.len() == before.len() implies ordered(entries_of(codes, after)) by {
                lemma_labels_are_free(codes, before, after);
            }
            let label = &mut self.labels[index];
            assert(entries_of(codes, before.update(index as int, *final(label))) =~= entries_of(
                codes,
                before,
            ).update(index as int, (codes[index as int]@, final(label)@)));
            Some(label)
        } else {
            None
        }
    }

    /// The labels of the area, in the order of their codes; the area is used up.
    pub fn into_values(self) -> (r: Vec<String>)
        ensures
            text_views(r@) == labels(self@.entries),
    {
        proof {
            use_type_invariant(&self);
        }
        assert(text_views(self.labels@) =~= labels(self@.entries));
        self.labels
    }

    /// Tells whether the area holds a code.
    pub fn contains_key<T: Into<SAC>>(&self, s: T) -> (r: bool)
        ensures
            exists|c: SAC| #[trigger] converts(s, c) && r == holds(self@.entries, c@),
    {
        let key: SAC = s.into();
        assert(converts(s, key));
        let at = self.position(&key);
        at < self.codes.len() && self.codes[at] == key
    }

    /// The codes of the area with their labels, in the order of the codes.
    pub fn iter(&self) -> (r: Vec<(&SAC, &String)>)
        ensures
            entry_views(r@) == self@.entries,
            ordered(self@.entries),
    {
        proof {
            use_type_invariant(self);
        }
        let mut r: Vec<(&SAC, &String)> = Vec::new();
        let mut i: usize = 0;
        while i < self.codes.len()
            invariant
                i <= self.codes.len(),
                self.codes.len() == self.labels.len(),
                r.len() == i,
                forall|j: int|
                    0 <= j < i ==> ((#[trigger] r@[j]).0@, r@[j].1@) == self@.entries[j],
            decreases self.codes.len() - i,
        {
            r.push((&self.codes[i], &self.labels[i]));
            i += 1;
        }
        assert(entry_views(r@) =~= self@.entries);
        r
    }

    /// The area as text: its name on a line of its own, and below it one
    /// line for each code, the code and its label around ` = `.
    pub fn to_string(&self) -> (r: String)
        ensures
            r@ == area_text(self@),
    {
        proof {
            use_type_invariant(self);
        }
        let mut text = self.label.clone();
        text.append("\n");
        let ghost head = text@;
        let mut i: usize = 0;
        while i < self.codes.len()
            invariant
                i <= self.codes.len(),
                self.codes.len() == self.labels.len(),
                head == self@.label + "\n"@,
                text@ == head + lines(self@.entries.take(i as int)),
            decreases self.codes.len() - i,
        {
            let ghost before = text@;
            if i > 0 {
                text.append("\n");
            }
            text.append("  ");
            let code = self.codes[i].to_string();
            text.append(code.as_str());
            text.append(" = ");
            text.append(self.labels[i].as_str());
            proof {
                let upto = self@.entries.take(i + 1);
                assert(upto.drop_last() =~= self@.entries.take(i as int));
                assert(upto.last() == self@.entries[i as int]);
                assert(text@ =~= head + lines(upto));
            }
            i += 1;
        }
        assert(self@.entries.take(i as int) =~= self@.entries);
        text
    }

    /// The label of a code, to be changed in place. A code that the area
    /// does not hold yet is put first, with an empty label.
    pub fn entry(&mut self, s: &SAC) -> (r: &mut String)
        ensures
            r@ == match lookup(old(self)@.entries, s@) {
                Some(label) => label,
                None => Seq::<char>::empty(),
            },
            final(self)@.label == old(self)@.label,
            final(self)@.entries == put(old(self)@.entries, s@, final(r)@),
    {
        proof {
            use_type_invariant(&*self);
        }
        let ghost before = self@.entries;
        if self.label_of(s).is_none() {
            self.put(s.clone(), String::new());
        }
        let at = self.position(s);
        let ghost codes = self.codes@;
        let ghost labels = self.labels@;
        proof {
            let now = entries_of(codes, labels);
            let place = slot(before, s@);
            lemma_slot(before, s@);
            lemma_put_ordered(before, s@, Seq::<char>::empty());
            if !holds(before, s@) {
                assert(now == before.insert(place, (s@, Seq::<char>::empty())));
                assert(now[place].0 == s@);
            } else {
                assert(now == before);
            }
            lemma_slot(now, s@);
            assert(at == place);
            assert(now[at as int].0 == s@);
            assert forall|after: Seq<String>| #[trigger]
                after.len() == labels.len() implies ordered(entries_of(codes, after)) by {
                lemma_labels_are_free(codes, labels, after);
            }
        }
        let label = &mut self.labels[at];
        proof {
            let now = entries_of(codes, labels);
            let then = entries_of(codes, labels.update(at as int, *final(label)));
            assert(then =~= now.update(at as int, (s@, final(label)@)));
            if holds(before, s@) {
                assert(then =~= before.update(at as int, (s@, final(label)@)));
            } else {
                assert(then =~= before.insert(at as int, (s@, final(label)@)));
            }
        }
        label
    }

    /// Adds a code with its label. A code that the area holds already gets
    /// the new label.
    pub fn add<T: Into<SAC>>(&mut self, code: T, label: &str) -> (r: &mut Self)
        ensures
            exists|c: SAC| #[trigger]
                converts(code, c) && r@.entries == put(old(self)@.entries, c@, label@),
            r@.label == old(self)@.label,
            *final(self) == *final(r),
    {
        let key: SAC = code.into();
        assert(converts(code, key));
        self.put(key, label.to_owned());
        self
    }

    /// Labels `code` with `label`: in place of its former label where the
    /// area holds it already, else at its place in the order.
    pub fn put(&mut self, code: SAC, label: String)
        ensures
            final(self)@.entries == put(old(self)@.entries, code@, label@),
            final(self)@.label == old(self)@.label,
    {
        let at = self.position(&code);
        let ghost wanted = put(self@.entries, code@, label@);
        proof {
            lemma_put_ordered(self@.entries, code@, label@);
        }
        let mut taken = Area { label: String::new(), codes: Vec::new(), labels: Vec::new() };
        core::mem::swap(self, &mut taken);
        let Area { label: name, mut codes, mut labels } = taken;
        if at < codes.len() && codes[at] == code {
            labels[at] = label;
        } else {
            codes.insert(at, code);
            labels.insert(at, label);
        }
        assert(entries_of(codes@, labels@) =~= wanted);
        *self = Area { label: name, codes, labels };
    }
}

} // verus!
