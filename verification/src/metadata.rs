//! The fields of a build-metadata file.
//!
//! A metadata file is plain text in the style of shell assignments. Five
//! fields are read from it, each found on its own, wherever it stands:
//!
//! - `EAPI=`, then quotes or none, then a number;
//! - `SLOT="slot"` or `SLOT="slot/subslot"`, slot and subslot of word characters;
//! - `KEYWORDS="..."`, `IUSE="..."`: everything up to the next quote;
//! - `DEPEND="..."` at the start of a line: everything up to the next quote.
//!
//! A field is declared at the first position at which it stands in this form.

use crate::error::Failure;
use crate::lexer::{package_names, position, tokens};
use crate::text::{has_at, run_end, scan_run, starts_at, to_chars, words, CharClass};
use vstd::prelude::*;

verus! {

/// The fields that are read from a metadata file.
#[derive(Debug, Clone, Copy, PartialEq, Eq)]
pub enum Field {
    Eapi,
    Slot,
    Keywords,
    Depend,
    Iuse,
}

/// The stretch of characters from `start` up to, not including, `end`.
pub struct Stretch {
    pub start: int,
    pub end: int,
}

/// The slot and the subslot that a `SLOT` declaration holds.
pub struct SlotValue {
    pub slot: Stretch,
    pub subslot: Option<Stretch>,
}

impl Field {
    /// The characters with which a declaration of the field begins.
    pub open spec fn key(self) -> Seq<char> {
        match self {
            Field::Eapi => "EAPI="@,
            Field::Slot => "SLOT=\""@,
            Field::Keywords => "KEYWORDS=\""@,
            Field::Depend => "DEPEND=\""@,
            Field::Iuse => "IUSE=\""@,
        }
    }

    /// Whether a declaration of the field stands at `i`.
    pub open spec fn stands_at(self, s: Seq<char>, i: int) -> bool {
        let value = i + self.key().len();
        has_at(s, i, self.key()) && match self {
            Field::Eapi => true,
            Field::Slot => slot_value(s, value) is Some,
            Field::Keywords | Field::Iuse => run_end(s, value, CharClass::Except('"')) < s.len(),
            Field::Depend => (i == 0 || s[i - 1] == '\n') && run_end(
                s,
                value,
                CharClass::Except('"'),
            ) < s.len(),
        }
    }

    /// The first position from `i` on at which a declaration of the field stands.
    pub open spec fn declared_from(self, s: Seq<char>, i: int) -> Option<int>
        decreases s.len() - i,
    {
        if !(0 <= i < s.len()) {
            None
        } else if self.stands_at(s, i) {
            Some(i)
        } else {
            self.declared_from(s, i + 1)
        }
    }

    /// Where the field is declared.
    pub open spec fn declared(self, s: Seq<char>) -> Option<int> {
        self.declared_from(s, 0)
    }

    /// What stands between the quotes of the field's declaration.
    pub open spec fn quoted(self, s: Seq<char>) -> Option<Seq<char>> {
        match self.declared(s) {
            Some(at) => {
                let value = at + self.key().len();
                Some(s.subrange(value, run_end(s, value, CharClass::Except('"'))))
            },
            None => None,
        }
    }
}

/// A field is declared at the first position at which a declaration of it
/// stands, and not at all where none stands anywhere.
pub proof fn lemma_declared_first(field: Field, s: Seq<char>, i: int)
    requires
        0 <= i,
    ensures
        match field.declared_from(s, i) {
            Some(at) => {
                &&& i <= at < s.len()
                &&& field.stands_at(s, at)
                &&& forall|k: int| i <= k < at ==> !field.stands_at(s, k)
            },
            None => forall|k: int| i <= k < s.len() ==> !field.stands_at(s, k),
        },
    decreases s.len() - i,
{
    if i < s.len() && !field.stands_at(s, i) {
        lemma_declared_first(field, s, i + 1);
    }
}

/// The slot, and the subslot if there is one, of a value that starts at
/// `value` and ends with a quote.
pub open spec fn slot_value(s: Seq<char>, value: int) -> Option<SlotValue> {
    let slot = run_end(s, value, CharClass::Word);
    let sub = run_end(s, slot + 1, CharClass::Word);
    if !(0 <= value <= slot < s.len()) {
        None
    } else if s[slot] == '"' {
        Some(SlotValue { slot: Stretch { start: value, end: slot }, subslot: None })
    } else if s[slot] == '/' && sub < s.len() && s[sub] == '"' {
        Some(
            SlotValue {
                slot: Stretch { start: value, end: slot },
                subslot: Some(Stretch { start: slot + 1, end: sub }),
            },
        )
    } else {
        None
    }
}

/// The number that a sequence of digits writes.
pub open spec fn decimal(digits: Seq<char>) -> nat
    decreases digits.len(),
{
    if digits.len() == 0 {
        0
    } else {
        decimal(digits.drop_last()) * 10 + (digits.last() as nat - '0' as nat) as nat
    }
}

/// The digits of an `EAPI` declaration at `at`: those behind the key and any quotes.
pub open spec fn eapi_digits(s: Seq<char>, at: int) -> Seq<char> {
    let open = run_end(s, at + Field::Eapi.key().len(), CharClass::Only('"'));
    s.subrange(open, run_end(s, open, CharClass::Digit))
}

/// What is wrong with a metadata file.
pub enum Fault {
    /// No `EAPI` is declared.
    MissingEapi,
    /// The declared `EAPI` is no number, or none from 5 to 7.
    UnsupportedEapi,
    /// The dependency expression fails to lex at this position of it.
    Depend(int),
}

impl Fault {
    /// The failure that the fault is, for the file `file`.
    pub open spec fn failure(self, file: Seq<char>) -> Failure {
        match self {
            Fault::MissingEapi => Failure::MissingEapi(file),
            Fault::UnsupportedEapi => Failure::UnsupportedEapi(file),
            Fault::Depend(at) => Failure::LexError(at),
        }
    }
}

/// The fields of a metadata file, as texts.
pub struct Metadata {
    pub eapi: nat,
    pub slot: Seq<char>,
    pub subslot: Option<Seq<char>>,
    pub keywords: Seq<Seq<char>>,
    pub depends: Seq<Seq<char>>,
    pub iuse: Seq<Seq<char>>,
}

/// The slot that a file declares: `0` where it declares none.
pub open spec fn declared_slot(s: Seq<char>) -> Seq<char> {
    match Field::Slot.declared(s) {
        Some(at) => {
            let v = slot_value(s, at + Field::Slot.key().len())->Some_0;
            s.subrange(v.slot.start, v.slot.end)
        },
        None => "0"@,
    }
}

/// The subslot that a file declares.
pub open spec fn declared_subslot(s: Seq<char>) -> Option<Seq<char>> {
    match Field::Slot.declared(s) {
        Some(at) => match slot_value(s, at + Field::Slot.key().len())->Some_0.subslot {
            Some(sub) => Some(s.subrange(sub.start, sub.end)),
            None => None,
        },
        None => None,
    }
}

/// The words of a quoted field; none where the field is not declared.
pub open spec fn declared_words(s: Seq<char>, field: Field) -> Seq<Seq<char>> {
    match field.quoted(s) {
        Some(value) => words(value),
        None => Seq::empty(),
    }
}

/// What a metadata file declares, or what is wrong with it.
///
/// The `EAPI` decides first. A dependency expression that does not lex fails
/// the file; the other fields cannot fail.
pub open spec fn metadata(s: Seq<char>) -> Result<Metadata, Fault> {
    match Field::Eapi.declared(s) {
        None => Err(Fault::MissingEapi),
        Some(at) => {
            let digits = eapi_digits(s, at);
            if digits.len() == 0 || !(5 <= decimal(digits) <= 7) {
                Err(Fault::UnsupportedEapi)
            } else {
                let depends = match Field::Depend.quoted(s) {
                    Some(value) => match tokens(value) {
                        Ok(spans) => Ok(package_names(value, spans)),
                        Err(at) => Err(Fault::Depend(at)),
                    },
                    None => Ok(Seq::empty()),
                };
                match depends {
                    Ok(names) => Ok(
                        Metadata {
                            eapi: decimal(digits),
                            slot: declared_slot(s),
                            subslot: declared_subslot(s),
                            keywords: declared_words(s, Field::Keywords),
                            depends: names,
                            iuse: declared_words(s, Field::Iuse),
                        },
                    ),
                    Err(fault) => Err(fault),
                }
            }
        },
    }
}

/// A stretch as the reader holds it at run time.
#[derive(Debug, Clone, Copy)]
pub struct Piece {
    pub start: usize,
    pub end: usize,
}

impl View for Piece {
    type V = Stretch;

    open spec fn view(&self) -> Stretch {
        Stretch { start: self.start as int, end: self.end as int }
    }
}

/// A slot value as the reader holds it at run time.
#[derive(Debug, Clone, Copy)]
pub struct SlotPieces {
    pub slot: Piece,
    pub subslot: Option<Piece>,
}

impl View for SlotPieces {
    type V = SlotValue;

    open spec fn view(&self) -> SlotValue {
        SlotValue {
            slot: self.slot@,
            subslot: match self.subslot {
                Some(p) => Some(p@),
                None => None,
            },
        }
    }
}

/// A slot value as its model, where there is one.
pub open spec fn slot_view(v: Option<SlotPieces>) -> Option<SlotValue> {
    match v {
        Some(p) => Some(p@),
        None => None,
    }
}

/// A piece as its stretch, where there is one.
pub open spec fn piece_view(v: Option<Piece>) -> Option<Stretch> {
    match v {
        Some(p) => Some(p@),
        None => None,
    }
}

impl Field {
    /// The characters with which a declaration of the field begins.
    pub(crate) fn key_chars(self) -> (key: Vec<char>)
        ensures
            key@ == self.key(),
    {
        match self {
            Field::Eapi => to_chars("EAPI="),
            Field::Slot => to_chars("SLOT=\""),
            Field::Keywords => to_chars("KEYWORDS=\""),
            Field::Depend => to_chars("DEPEND=\""),
            Field::Iuse => to_chars("IUSE=\""),
        }
    }

    /// Where between the quotes of the field's declaration its value lies.
    pub open spec fn quoted_at(self, s: Seq<char>) -> Option<Stretch> {
        match self.declared(s) {
            Some(at) => {
                let value = at + self.key().len();
                Some(Stretch { start: value, end: run_end(s, value, CharClass::Except('"')) })
            },
            None => None,
        }
    }
}

/// Reads the slot value that starts at `value`.
pub(crate) fn read_slot(s: &[char], value: usize) -> (r: Option<SlotPieces>)
    requires
        value <= s.len(),
    ensures
        slot_view(r) == slot_value(s@, value as int),
{
    let slot = scan_run(s, value, CharClass::Word);
    if !(slot < s.len()) {
        None
    } else if s[slot] == '"' {
        Some(SlotPieces { slot: Piece { start: value, end: slot }, subslot: None })
    } else if s[slot] == '/' {
        let sub = scan_run(s, slot + 1, CharClass::Word);
        if sub < s.len() && s[sub] == '"' {
            Some(
                SlotPieces {
                    slot: Piece { start: value, end: slot },
                    subslot: Some(Piece { start: slot + 1, end: sub }),
                },
            )
        } else {
            None
        }
    } else {
        None
    }
}

/// Tests whether a declaration of `field` stands at `i`.
pub(crate) fn stands(s: &[char], i: usize, field: Field, key: &[char]) -> (r: bool)
    requires
        i <= s.len(),
        key@ == field.key(),
    ensures
        r == field.stands_at(s@, i as int),
{
    if !starts_at(s, i, key) {
        return false;
    }
    let value = i + key.len();
    match field {
        Field::Eapi => true,
        Field::Slot => read_slot(s, value).is_some(),
        Field::Keywords | Field::Iuse => scan_run(s, value, CharClass::Except('"')) < s.len(),
        Field::Depend => (i == 0 || s[i - 1] == '\n') && scan_run(
            s,
            value,
            CharClass::Except('"'),
        ) < s.len(),
    }
}

/// Finds the declaration of `field`.
pub(crate) fn locate(s: &[char], field: Field) -> (r: Option<usize>)
    ensures
        position(r) == field.declared(s@),
        r matches Some(at) ==> field.stands_at(s@, at as int),
{
    let key = field.key_chars();
    let mut i: usize = 0;
    while i < s.len()
        invariant
            i <= s.len(),
            key@ == field.key(),
            field.declared(s@) == field.declared_from(s@, i as int),
        decreases s.len() - i,
    {
        if stands(s, i, field, key.as_slice()) {
            return Some(i);
        }
        i = i + 1;
    }
    None
}

/// Finds what stands between the quotes of the declaration of `field`.
pub(crate) fn locate_quoted(s: &[char], field: Field) -> (r: Option<Piece>)
    requires
        field != Field::Eapi,
    ensures
        piece_view(r) == field.quoted_at(s@),
        r matches Some(p) ==> p.start <= p.end <= s.len(),
{
    match locate(s, field) {
        Some(at) => {
            let key = field.key_chars();
            assert(has_at(s@, at as int, field.key()));
            assert(at + key@.len() <= s.len());
            let value = at + key.len();
            let end = scan_run(s, value, CharClass::Except('"'));
            Some(Piece { start: value, end })
        },
        None => None,
    }
}

/// `n`, or `cap` where `n` is larger.
pub open spec fn at_most(n: nat, cap: nat) -> nat {
    if n <= cap {
        n
    } else {
        cap
    }
}

/// The number that the digits from `start` to `end` write, or 8 where that
/// number is larger than 8.
pub(crate) fn small_decimal(s: &[char], start: usize, end: usize) -> (n: u8)
    requires
        start <= end <= s.len(),
        forall|k: int| start <= k < end ==> CharClass::Digit.contains(#[trigger] s@[k]),
    ensures
        n == at_most(decimal(s@.subrange(start as int, end as int)), 8),
{
    let mut n: u8 = 0;
    let mut i: usize = start;
    proof {
        assert(s@.subrange(start as int, start as int) =~= Seq::<char>::empty());
    }
    while i < end
        invariant
            start <= i <= end <= s.len(),
            forall|k: int| start <= k < end ==> CharClass::Digit.contains(#[trigger] s@[k]),
            n == at_most(decimal(s@.subrange(start as int, i as int)), 8),
        decreases end - i,
    {
        let c = s[i];
        assert(CharClass::Digit.contains(s@[i as int]));
        let digit: u8 = (c as u32 - '0' as u32) as u8;
        proof {
            let next = s@.subrange(start as int, i + 1);
            assert(next.drop_last() =~= s@.subrange(start as int, i as int));
            assert(next.last() == c);
        }
        let wide: u8 = n * 10 + digit;
        n = if wide > 8 {
            8
        } else {
            wide
        };
        i = i + 1;
    }
    n
}

} // verus!
