//! The grammar of package atoms.
//!
//! An atom names a package: `category/name-version-rN:slot`, of which only
//! the name must be there.
//!
//! - The category is what stands before the first slash, the slot what stands
//!   behind the first colon after it, the body what lies between.
//! - Category and name begin with a word character and go on with word
//!   characters, `+`, `.` and `-`. A slot may begin with `+` as well.
//! - A version is `\d+(\.\d+)*[a-z]?(_(pre|p|beta|alpha|rc)\d*)*`, a revision
//!   `r\d+`.
//! - The body is a name, then a hyphen and a version or nothing, then a hyphen
//!   and a revision or nothing. A name may itself hold what looks like a
//!   version, so the body is cut at the first place that leaves a name before
//!   it and a version, with or without revision, behind it: the name is as
//!   short as it can be.

use crate::lexer::position;
use crate::metadata::{piece_view, Piece, Stretch};
use crate::text::{
    lemma_run_covers, lemma_run_end, lemma_run_stops, run_end, scan_run, CharClass,
};
use vstd::prelude::*;

verus! {

/// Whether the character `c` stands in `s` at position `i`.
pub open spec fn at(s: Seq<char>, i: int, c: char) -> bool {
    0 <= i < s.len() && s[i] == c
}

/// How far `s` reads as a word that begins with a character of `head` and
/// goes on with characters of `tail`: 0 where it does not begin with one.
pub open spec fn leading(s: Seq<char>, head: CharClass, tail: CharClass) -> int {
    if s.len() > 0 && head.contains(s[0]) {
        run_end(s, 1, tail)
    } else {
        0
    }
}

/// Whether `s` is a category or a name.
pub open spec fn is_identifier(s: Seq<char>) -> bool {
    s.len() > 0 && leading(s, CharClass::Word, CharClass::AtomTail) == s.len()
}

/// Whether `s` is a slot.
pub open spec fn is_slot(s: Seq<char>) -> bool {
    s.len() > 0 && leading(s, CharClass::WordPlus, CharClass::AtomTail) == s.len()
}

/// Where the numbers that follow the first one of a version end: each a dot
/// and one or more digits.
pub open spec fn dotted_end(s: Seq<char>, i: int) -> int
    decreases s.len() - i,
{
    let e = run_end(s, i + 1, CharClass::Digit);
    if at(s, i, '.') && i + 1 < e {
        proof {
            lemma_run_end(s, i + 1, CharClass::Digit);
        }
        dotted_end(s, e)
    } else {
        i
    }
}

/// The length of the suffix word at `i`: `pre`, `p`, `beta`, `alpha` or `rc`;
/// 0 where none of them stands there.
pub open spec fn suffix_word(s: Seq<char>, i: int) -> int {
    if at(s, i, 'p') && at(s, i + 1, 'r') && at(s, i + 2, 'e') {
        3
    } else if at(s, i, 'p') {
        1
    } else if at(s, i, 'b') && at(s, i + 1, 'e') && at(s, i + 2, 't') && at(s, i + 3, 'a') {
        4
    } else if at(s, i, 'a') && at(s, i + 1, 'l') && at(s, i + 2, 'p') && at(s, i + 3, 'h') && at(
        s,
        i + 4,
        'a',
    ) {
        5
    } else if at(s, i, 'r') && at(s, i + 1, 'c') {
        2
    } else {
        0
    }
}

/// Where the suffixes of a version end: each an underscore, a suffix word and
/// digits or none.
pub open spec fn suffixes_end(s: Seq<char>, i: int) -> int
    decreases s.len() - i,
{
    let word = suffix_word(s, i + 1);
    let e = run_end(s, i + 1 + word, CharClass::Digit);
    if at(s, i, '_') && word > 0 {
        proof {
            lemma_run_end(s, i + 1 + word, CharClass::Digit);
        }
        suffixes_end(s, e)
    } else {
        i
    }
}

/// Where the longest version that starts at `i` ends; `None` where no digit stands at `i`.
pub open spec fn version_end(s: Seq<char>, i: int) -> Option<int> {
    let first = run_end(s, i, CharClass::Digit);
    let numbers = dotted_end(s, first);
    let letter = if 0 <= numbers < s.len() && CharClass::Lower.contains(s[numbers]) {
        numbers + 1
    } else {
        numbers
    };
    if i < first {
        Some(suffixes_end(s, letter))
    } else {
        None
    }
}

/// A body, cut: the name is what stands before `name_end`.
pub struct Body {
    pub name_end: int,
    pub version: Option<Stretch>,
    pub revision: Option<Stretch>,
}

/// The body `s` cut at `k`, if what stands from `k` on is nothing, or a hyphen
/// and a version, or those and a hyphen and a revision.
pub open spec fn cut_at(s: Seq<char>, k: int) -> Option<Body> {
    if k == s.len() {
        Some(Body { name_end: k, version: None, revision: None })
    } else if !at(s, k, '-') {
        None
    } else {
        match version_end(s, k + 1) {
            None => None,
            Some(v) => {
                let version = Some(Stretch { start: k + 1, end: v });
                if v == s.len() {
                    Some(Body { name_end: k, version, revision: None })
                } else if at(s, v, '-') && at(s, v + 1, 'r') && v + 2 < s.len() && run_end(
                    s,
                    v + 2,
                    CharClass::Digit,
                ) == s.len() {
                    Some(
                        Body {
                            name_end: k,
                            version,
                            revision: Some(Stretch { start: v + 2, end: s.len() as int }),
                        },
                    )
                } else {
                    None
                }
            },
        }
    }
}

/// The first cut of the body `s` at `k` or later that leaves a name before it.
pub open spec fn body_from(s: Seq<char>, k: int) -> Option<Body>
    decreases s.len() - k,
{
    if !(1 <= k <= leading(s, CharClass::Word, CharClass::AtomTail)) {
        None
    } else if cut_at(s, k) is Some {
        cut_at(s, k)
    } else {
        proof {
            lemma_run_end(s, 1, CharClass::AtomTail);
        }
        body_from(s, k + 1)
    }
}

/// The body `s`, cut so that its name is as short as it can be.
pub open spec fn body(s: Seq<char>) -> Option<Body> {
    body_from(s, 1)
}

/// An atom, as texts. The slot is `0` where the atom names none.
pub struct Atom {
    pub category: Option<Seq<char>>,
    pub name: Seq<char>,
    pub version: Option<Seq<char>>,
    pub revision: Option<Seq<char>>,
    pub slot: Seq<char>,
}

/// The characters of `s` in the stretch `t`, where there is one.
pub open spec fn stretch_text(s: Seq<char>, t: Option<Stretch>) -> Option<Seq<char>> {
    match t {
        Some(t) => Some(s.subrange(t.start, t.end)),
        None => None,
    }
}

/// Where the category of `s` ends: at its first slash. It has none where this is its length.
pub open spec fn category_end(s: Seq<char>) -> int {
    run_end(s, 0, CharClass::Except('/'))
}

/// Where the body of `s` starts: behind the first slash.
pub open spec fn body_start(s: Seq<char>) -> int {
    if category_end(s) < s.len() {
        category_end(s) + 1
    } else {
        0
    }
}

/// Where the body of `s` ends: at the first colon in or behind it.
pub open spec fn body_end(s: Seq<char>) -> int {
    run_end(s, body_start(s), CharClass::Except(':'))
}

/// The parts that `s` writes; `None` where it writes no atom.
pub open spec fn parts(s: Seq<char>) -> Option<Parts> {
    let inner = s.subrange(body_start(s), body_end(s));
    let category = s.subrange(0, category_end(s));
    let slot = s.subrange(body_end(s) + 1, s.len() as int);
    if category_end(s) < s.len() && !is_identifier(category) {
        None
    } else if body_end(s) < s.len() && !is_slot(slot) {
        None
    } else {
        match body(inner) {
            None => None,
            Some(b) => Some(
                Parts {
                    category: if category_end(s) < s.len() {
                        Some(category)
                    } else {
                        None
                    },
                    name: inner.subrange(0, b.name_end),
                    version: stretch_text(inner, b.version),
                    revision: stretch_text(inner, b.revision),
                    slot: if body_end(s) < s.len() {
                        Some(slot)
                    } else {
                        None
                    },
                },
            ),
        }
    }
}

/// The atom that `s` writes; `None` where it writes none.
pub open spec fn atom(s: Seq<char>) -> Option<Atom> {
    match parts(s) {
        Some(p) => Some(p.atom()),
        None => None,
    }
}

/// A cut body as the parser holds it at run time.
#[derive(Debug, Clone, Copy)]
pub struct BodyPieces {
    pub name_end: usize,
    pub version: Option<Piece>,
    pub revision: Option<Piece>,
}

impl View for BodyPieces {
    type V = Body;

    open spec fn view(&self) -> Body {
        Body {
            name_end: self.name_end as int,
            version: piece_view(self.version),
            revision: piece_view(self.revision),
        }
    }
}

impl BodyPieces {
    /// Whether the pieces lie, in their order, in a body of `len` characters.
    pub open spec fn lies_in(&self, len: nat) -> bool {
        &&& self.name_end <= len
        &&& self.version matches Some(v) ==> self.name_end < v.start <= v.end <= len
        &&& self.revision matches Some(r) ==> self.name_end < r.start <= r.end <= len
    }
}

/// A cut body as its model, where there is one.
pub open spec fn body_view(b: Option<BodyPieces>) -> Option<Body> {
    match b {
        Some(b) => Some(b@),
        None => None,
    }
}

/// How far `s` reads as a word of the classes `head` and `tail`.
pub(crate) fn scan_leading(s: &[char], head: CharClass, tail: CharClass) -> (e: usize)
    ensures
        e == leading(s@, head, tail),
        e <= s.len(),
{
    if s.len() > 0 && head.has(s[0]) {
        scan_run(s, 1, tail)
    } else {
        0
    }
}

fn scan_dotted(s: &[char], start: usize) -> (e: usize)
    requires
        start <= s.len(),
    ensures
        e == dotted_end(s@, start as int),
        start <= e <= s.len(),
{
    let mut i = start;
    loop
        invariant
            start <= i <= s.len(),
            dotted_end(s@, start as int) == dotted_end(s@, i as int),
        decreases s.len() - i,
    {
        if !(i < s.len() && s[i] == '.') {
            return i;
        }
        let e = scan_run(s, i + 1, CharClass::Digit);
        if !(i + 1 < e) {
            return i;
        }
        i = e;
    }
}

fn scan_suffix_word(s: &[char], i: usize) -> (n: usize)
    requires
        i <= s.len(),
    ensures
        n == suffix_word(s@, i as int),
        i + n <= s.len(),
{
    let left = s.len() - i;
    if left >= 3 && s[i] == 'p' && s[i + 1] == 'r' && s[i + 2] == 'e' {
        3
    } else if left >= 1 && s[i] == 'p' {
        1
    } else if left >= 4 && s[i] == 'b' && s[i + 1] == 'e' && s[i + 2] == 't' && s[i + 3] == 'a' {
        4
    } else if left >= 5 && s[i] == 'a' && s[i + 1] == 'l' && s[i + 2] == 'p' && s[i + 3] == 'h'
        && s[i + 4] == 'a' {
        5
    } else if left >= 2 && s[i] == 'r' && s[i + 1] == 'c' {
        2
    } else {
        0
    }
}

fn scan_suffixes(s: &[char], start: usize) -> (e: usize)
    requires
        start <= s.len(),
    ensures
        e == suffixes_end(s@, start as int),
        start <= e <= s.len(),
{
    let mut i = start;
    loop
        invariant
            start <= i <= s.len(),
            suffixes_end(s@, start as int) == suffixes_end(s@, i as int),
        decreases s.len() - i,
    {
        if !(i < s.len() && s[i] == '_') {
            return i;
        }
        let word = scan_suffix_word(s, i + 1);
        if word == 0 {
            return i;
        }
        i = scan_run(s, i + 1 + word, CharClass::Digit);
    }
}

/// Where the longest version that starts at `i` ends.
pub(crate) fn scan_version(s: &[char], i: usize) -> (r: Option<usize>)
    requires
        i <= s.len(),
    ensures
        position(r) == version_end(s@, i as int),
        r matches Some(e) ==> i < e <= s.len(),
{
    let first = scan_run(s, i, CharClass::Digit);
    if !(i < first) {
        return None;
    }
    let numbers = scan_dotted(s, first);
    let letter = if numbers < s.len() && CharClass::Lower.has(s[numbers]) {
        numbers + 1
    } else {
        numbers
    };
    Some(scan_suffixes(s, letter))
}

/// Cuts the body `s` at `k`, if a version, with or without revision, or
/// nothing stands from there on.
pub(crate) fn try_cut(s: &[char], k: usize) -> (r: Option<BodyPieces>)
    requires
        k <= s.len(),
    ensures
        body_view(r) == cut_at(s@, k as int),
        r matches Some(b) ==> b.lies_in(s@.len()),
{
    if k == s.len() {
        return Some(BodyPieces { name_end: k, version: None, revision: None });
    }
    if s[k] != '-' {
        return None;
    }
    let v = match scan_version(s, k + 1) {
        Some(v) => v,
        None => {
            return None;
        },
    };
    let version = Some(Piece { start: k + 1, end: v });
    if v == s.len() {
        Some(BodyPieces { name_end: k, version, revision: None })
    } else if s[v] == '-' && s.len() - v > 2 && s[v + 1] == 'r' && scan_run(
        s,
        v + 2,
        CharClass::Digit,
    ) == s.len() {
        Some(
            BodyPieces { name_end: k, version, revision: Some(Piece { start: v + 2, end: s.len() }) },
        )
    } else {
        None
    }
}

/// Cuts the body `s` so that its name is as short as it can be.
pub(crate) fn split_body(s: &[char]) -> (r: Option<BodyPieces>)
    ensures
        body_view(r) == body(s@),
        r matches Some(b) ==> 1 <= b.name_end && b.lies_in(s@.len()),
{
    let limit = scan_leading(s, CharClass::Word, CharClass::AtomTail);
    let mut k: usize = 1;
    while k <= limit
        invariant
            1 <= k,
            limit == leading(s@, CharClass::Word, CharClass::AtomTail),
            limit <= s.len(),
            body(s@) == body_from(s@, k as int),
        decreases limit + 1 - k,
    {
        let cut = try_cut(s, k);
        if cut.is_some() {
            return cut;
        }
        k = k + 1;
    }
    None
}

/// The parts of an atom as they are written: a slot only where one is written.
pub struct Parts {
    pub category: Option<Seq<char>>,
    pub name: Seq<char>,
    pub version: Option<Seq<char>>,
    pub revision: Option<Seq<char>>,
    pub slot: Option<Seq<char>>,
}

/// Whether `s` is a version: the longest version that it starts with is all of it.
pub open spec fn is_version(s: Seq<char>) -> bool {
    version_end(s, 0) == Some(s.len() as int)
}

/// Whether `s` is the number of a revision: one or more digits.
pub open spec fn is_number(s: Seq<char>) -> bool {
    s.len() > 0 && run_end(s, 0, CharClass::Digit) == s.len()
}

/// A version and a revision as they are written behind a name.
pub open spec fn written_tail(version: Option<Seq<char>>, revision: Option<Seq<char>>) -> Seq<
    char,
> {
    match version {
        None => Seq::empty(),
        Some(version) => seq!['-'] + version + match revision {
            None => Seq::empty(),
            Some(revision) => seq!['-', 'r'] + revision,
        },
    }
}

impl Parts {
    /// Whether each part is what it is meant to be, and there is a revision
    /// only where there is a version.
    pub open spec fn well_formed(self) -> bool {
        &&& self.category matches Some(category) ==> is_identifier(category)
        &&& is_identifier(self.name)
        &&& self.version matches Some(version) ==> is_version(version)
        &&& self.revision matches Some(revision) ==> self.version is Some && is_number(revision)
        &&& self.slot matches Some(slot) ==> is_slot(slot)
    }

    /// What is written behind the name in the body.
    pub open spec fn tail(self) -> Seq<char> {
        written_tail(self.version, self.revision)
    }

    /// The atom as a text.
    pub open spec fn written(self) -> Seq<char> {
        let category = match self.category {
            None => Seq::empty(),
            Some(category) => category + seq!['/'],
        };
        let slot = match self.slot {
            None => Seq::empty(),
            Some(slot) => seq![':'] + slot,
        };
        category + self.name + self.tail() + slot
    }

    /// The atom that the parts make up: with slot `0` where none is written.
    pub open spec fn atom(self) -> Atom {
        Atom {
            category: self.category,
            name: self.name,
            version: self.version,
            revision: self.revision,
            slot: match self.slot {
                Some(slot) => slot,
                None => "0"@,
            },
        }
    }
}

/// `a`, or `b` where `b` is smaller.
pub open spec fn smaller(a: int, b: int) -> int {
    if a <= b {
        a
    } else {
        b
    }
}

/// A run in a piece of a text is the run in the text, as far as the piece goes.
pub proof fn lemma_run_in_piece(s: Seq<char>, from: int, to: int, i: int, class: CharClass)
    requires
        0 <= from <= i <= to <= s.len(),
    ensures
        run_end(s.subrange(from, to), i - from, class) == smaller(run_end(s, i, class), to) - from,
    decreases to - i,
{
    let piece = s.subrange(from, to);
    if i < to {
        assert(piece[i - from] == s[i]);
        if class.contains(s[i]) {
            lemma_run_in_piece(s, from, to, i + 1, class);
            lemma_run_end(s, i + 1, class);
        }
    } else {
        lemma_run_end(s, i, class);
    }
}

/// The numbers of a version end behind where they start, inside the text.
pub proof fn lemma_dotted_end(s: Seq<char>, i: int)
    requires
        0 <= i <= s.len(),
    ensures
        i <= dotted_end(s, i) <= s.len(),
    decreases s.len() - i,
{
    let e = run_end(s, i + 1, CharClass::Digit);
    if at(s, i, '.') && i + 1 < e {
        lemma_run_end(s, i + 1, CharClass::Digit);
        lemma_dotted_end(s, e);
    }
}

/// The suffixes of a version end behind where they start, inside the text.
pub proof fn lemma_suffixes_end(s: Seq<char>, i: int)
    requires
        0 <= i <= s.len(),
    ensures
        i <= suffixes_end(s, i) <= s.len(),
    decreases s.len() - i,
{
    let word = suffix_word(s, i + 1);
    let e = run_end(s, i + 1 + word, CharClass::Digit);
    if at(s, i, '_') && word > 0 {
        lemma_run_end(s, i + 1 + word, CharClass::Digit);
        lemma_suffixes_end(s, e);
    }
}

/// The numbers of a version that end inside a piece of the text are the same in the piece.
pub proof fn lemma_dotted_in_piece(s: Seq<char>, from: int, to: int, i: int)
    requires
        0 <= from <= i <= to <= s.len(),
        dotted_end(s, i) <= to,
    ensures
        dotted_end(s.subrange(from, to), i - from) == dotted_end(s, i) - from,
    decreases to - i,
{
    let piece = s.subrange(from, to);
    let e = run_end(s, i + 1, CharClass::Digit);
    lemma_dotted_end(s, i);
    if i < to {
        assert(piece[i - from] == s[i]);
        lemma_run_in_piece(s, from, to, i + 1, CharClass::Digit);
        if at(s, i, '.') && i + 1 < e {
            lemma_run_end(s, i + 1, CharClass::Digit);
            lemma_dotted_end(s, e);
            lemma_dotted_in_piece(s, from, to, e);
        }
    }
}

/// A suffix word that ends inside a piece of the text is the same in the
/// piece, and where the text has none, the piece has none.
pub proof fn lemma_word_in_piece(s: Seq<char>, from: int, to: int, i: int)
    requires
        0 <= from <= i <= to <= s.len(),
    ensures
        suffix_word(s, i) == 0 ==> suffix_word(s.subrange(from, to), i - from) == 0,
        i + suffix_word(s, i) <= to ==> suffix_word(s.subrange(from, to), i - from) == suffix_word(
            s,
            i,
        ),
{
    let piece = s.subrange(from, to);
    assert forall|k: int, c: char| from <= k implies (at(piece, k - from, c) <==> at(s, k, c) && k
        < to) by {
        if from <= k < to {
            assert(piece[k - from] == s[k]);
        }
    }
    assert(at(piece, i - from, 'p') <==> at(s, i, 'p') && i < to);
    assert(at(piece, i + 1 - from, 'r') <==> at(s, i + 1, 'r') && i + 1 < to);
    assert(at(piece, i + 2 - from, 'e') <==> at(s, i + 2, 'e') && i + 2 < to);
    assert(at(piece, i - from, 'b') <==> at(s, i, 'b') && i < to);
    assert(at(piece, i + 1 - from, 'e') <==> at(s, i + 1, 'e') && i + 1 < to);
    assert(at(piece, i + 2 - from, 't') <==> at(s, i + 2, 't') && i + 2 < to);
    assert(at(piece, i + 3 - from, 'a') <==> at(s, i + 3, 'a') && i + 3 < to);
    assert(at(piece, i - from, 'a') <==> at(s, i, 'a') && i < to);
    assert(at(piece, i + 1 - from, 'l') <==> at(s, i + 1, 'l') && i + 1 < to);
    assert(at(piece, i + 2 - from, 'p') <==> at(s, i + 2, 'p') && i + 2 < to);
    assert(at(piece, i + 3 - from, 'h') <==> at(s, i + 3, 'h') && i + 3 < to);
    assert(at(piece, i + 4 - from, 'a') <==> at(s, i + 4, 'a') && i + 4 < to);
    assert(at(piece, i - from, 'r') <==> at(s, i, 'r') && i < to);
    assert(at(piece, i + 1 - from, 'c') <==> at(s, i + 1, 'c') && i + 1 < to);
}

/// The suffixes of a version that end inside a piece of the text are the same in the piece.
pub proof fn lemma_suffixes_in_piece(s: Seq<char>, from: int, to: int, i: int)
    requires
        0 <= from <= i <= to <= s.len(),
        suffixes_end(s, i) <= to,
    ensures
        suffixes_end(s.subrange(from, to), i - from) == suffixes_end(s, i) - from,
    decreases to - i,
{
    let piece = s.subrange(from, to);
    let word = suffix_word(s, i + 1);
    let e = run_end(s, i + 1 + word, CharClass::Digit);
    lemma_suffixes_end(s, i);
    if i < to {
        assert(piece[i - from] == s[i]);
        lemma_word_in_piece(s, from, to, i + 1);
        if at(s, i, '_') && word > 0 {
            lemma_run_end(s, i + 1 + word, CharClass::Digit);
            lemma_suffixes_end(s, e);
            lemma_run_in_piece(s, from, to, i + 1 + word, CharClass::Digit);
            lemma_suffixes_in_piece(s, from, to, e);
        }
    }
}

/// What the longest version at `i` is made of, one part behind the other.
pub proof fn lemma_version_end(s: Seq<char>, i: int)
    requires
        0 <= i <= s.len(),
    ensures
        version_end(s, i) matches Some(end) ==> i < end <= s.len(),
{
    lemma_run_end(s, i, CharClass::Digit);
    let first = run_end(s, i, CharClass::Digit);
    lemma_dotted_end(s, first);
    let numbers = dotted_end(s, first);
    if numbers < s.len() {
        lemma_suffixes_end(s, numbers + 1);
    }
    lemma_suffixes_end(s, numbers);
}

/// The longest version at `i` is the longest version of any piece of the
/// text that starts at `i` and holds it.
pub proof fn lemma_version_in_piece(s: Seq<char>, i: int, to: int)
    requires
        0 <= i <= to <= s.len(),
        version_end(s, i) matches Some(end) ==> end <= to,
    ensures
        version_end(s, i) matches Some(end) ==> version_end(s.subrange(i, to), 0) == Some(
            end - i,
        ),
{
    match version_end(s, i) {
        Some(end) => {
            lemma_version_end(s, i);
            let piece = s.subrange(i, to);
            lemma_run_end(s, i, CharClass::Digit);
            let first = run_end(s, i, CharClass::Digit);
            lemma_dotted_end(s, first);
            let numbers = dotted_end(s, first);
            let letter = if 0 <= numbers < s.len() && CharClass::Lower.contains(s[numbers]) {
                numbers + 1
            } else {
                numbers
            };
            lemma_suffixes_end(s, letter);
            lemma_run_in_piece(s, i, to, i, CharClass::Digit);
            lemma_dotted_in_piece(s, i, to, first);
            if numbers < to {
                assert(piece[numbers - i] == s[numbers]);
            }
            lemma_suffixes_in_piece(s, i, to, letter);
        },
        None => {},
    }
}

/// Whether `c` can stand in a version: a digit, a dot, a small letter or an underscore.
pub open spec fn is_version_char(c: char) -> bool {
    CharClass::Digit.contains(c) || c == '.' || CharClass::Lower.contains(c) || c == '_'
}

/// The numbers of a version hold dots and digits only.
pub proof fn lemma_dotted_chars(s: Seq<char>, i: int)
    requires
        0 <= i <= s.len(),
    ensures
        forall|j: int| i <= j < dotted_end(s, i) ==> is_version_char(#[trigger] s[j]),
    decreases s.len() - i,
{
    let e = run_end(s, i + 1, CharClass::Digit);
    if at(s, i, '.') && i + 1 < e {
        lemma_run_end(s, i + 1, CharClass::Digit);
        lemma_dotted_chars(s, e);
    }
}

/// The suffixes of a version hold underscores, small letters and digits only.
pub proof fn lemma_suffixes_chars(s: Seq<char>, i: int)
    requires
        0 <= i <= s.len(),
    ensures
        forall|j: int| i <= j < suffixes_end(s, i) ==> is_version_char(#[trigger] s[j]),
    decreases s.len() - i,
{
    let word = suffix_word(s, i + 1);
    let e = run_end(s, i + 1 + word, CharClass::Digit);
    if at(s, i, '_') && word > 0 {
        lemma_run_end(s, i + 1 + word, CharClass::Digit);
        lemma_suffixes_chars(s, e);
        assert forall|j: int| i <= j < e implies is_version_char(#[trigger] s[j]) by {
            if i < j < i + 1 + word {
                assert(CharClass::Lower.contains(s[j]));
            }
        }
    }
}

/// A version holds digits, dots, small letters and underscores only.
pub proof fn lemma_version_chars(s: Seq<char>, i: int)
    requires
        0 <= i <= s.len(),
    ensures
        version_end(s, i) matches Some(end) ==> forall|j: int|
            i <= j < end ==> is_version_char(#[trigger] s[j]),
{
    lemma_run_end(s, i, CharClass::Digit);
    let first = run_end(s, i, CharClass::Digit);
    lemma_dotted_end(s, first);
    lemma_dotted_chars(s, first);
    let numbers = dotted_end(s, first);
    let letter = if 0 <= numbers < s.len() && CharClass::Lower.contains(s[numbers]) {
        numbers + 1
    } else {
        numbers
    };
    lemma_suffixes_chars(s, letter);
}

/// A body is cut where a name ends and what follows is a version, with or
/// without revision, or nothing.
pub proof fn lemma_body(s: Seq<char>, k: int)
    requires
        1 <= k,
    ensures
        body_from(s, k) matches Some(b) ==> {
            &&& k <= b.name_end <= leading(s, CharClass::Word, CharClass::AtomTail)
            &&& cut_at(s, b.name_end) == Some(b)
        },
    decreases s.len() - k,
{
    if 1 <= k <= leading(s, CharClass::Word, CharClass::AtomTail) {
        lemma_run_end(s, 1, CharClass::AtomTail);
        if cut_at(s, k) is None {
            lemma_body(s, k + 1);
        }
    }
}

/// The parts of a cut body are a name, a version and the number of a
/// revision, and written one behind the other they are the body.
pub proof fn lemma_body_written(s: Seq<char>)
    ensures
        body(s) matches Some(b) ==> {
            let name = s.subrange(0, b.name_end);
            let version = stretch_text(s, b.version);
            let revision = stretch_text(s, b.revision);
            &&& is_identifier(name)
            &&& version matches Some(v) ==> is_version(v)
            &&& revision matches Some(r) ==> version is Some && is_number(r)
            &&& name + written_tail(version, revision) == s
        },
{
    match body(s) {
        Some(b) => {
            lemma_body(s, 1);
            let k = b.name_end;
            let name = s.subrange(0, k);
            let version = stretch_text(s, b.version);
            let revision = stretch_text(s, b.revision);
            lemma_run_end(s, 1, CharClass::AtomTail);
            lemma_run_in_piece(s, 0, k, 1, CharClass::AtomTail);
            assert(name[0] == s[0]);
            assert(is_identifier(name));
            if k < s.len() {
                lemma_version_end(s, k + 1);
                let v = version_end(s, k + 1)->Some_0;
                lemma_version_in_piece(s, k + 1, v);
                if v < s.len() {
                    lemma_run_in_piece(s, v + 2, s.len() as int, v + 2, CharClass::Digit);
                }
            }
            assert(name + written_tail(version, revision) =~= s);
        },
        None => {},
    }
}

/// What the parser makes of a text is that text: the parts that it finds are
/// each what they are meant to be, and written one behind the other, with
/// `/`, `-`, `-r` and `:` in their places, they are the text again.
pub proof fn lemma_parts_written(s: Seq<char>)
    ensures
        parts(s) matches Some(p) ==> p.well_formed() && p.written() == s,
{
    match parts(s) {
        Some(p) => {
            lemma_run_end(s, 0, CharClass::Except('/'));
            let start = body_start(s);
            lemma_run_end(s, start, CharClass::Except(':'));
            let inner = s.subrange(start, body_end(s));
            lemma_body_written(inner);
            assert(p.name + p.tail() == inner);
            let category = match p.category {
                None => Seq::empty(),
                Some(category) => category + seq!['/'],
            };
            let slot = match p.slot {
                None => Seq::empty(),
                Some(slot) => seq![':'] + slot,
            };
            assert(category =~= s.subrange(0, start));
            assert(slot =~= s.subrange(body_end(s), s.len() as int));
            assert(category + p.name + p.tail() =~= category + inner);
            assert(category + inner + slot =~= s);
        },
        None => {},
    }
}

/// A version that stands in a text, with nothing behind it that could make
/// it longer, is the longest version where it starts.
pub proof fn lemma_version_in_text(s: Seq<char>, i: int, e: int)
    requires
        0 <= i <= e <= s.len(),
        is_version(s.subrange(i, e)),
        e < s.len() ==> !is_version_char(s[e]),
    ensures
        version_end(s, i) == Some(e),
{
    let piece = s.subrange(i, e);
    lemma_run_end(piece, 0, CharClass::Digit);
    assert(piece[0] == s[i]);
    lemma_run_end(s, i + 1, CharClass::Digit);
    lemma_version_end(s, i);
    lemma_version_chars(s, i);
    let end = version_end(s, i)->Some_0;
    if e < end {
        assert(is_version_char(s[e]));
    }
    lemma_version_in_piece(s, i, e);
}

/// The first cut of a body is no later than any place at which it can be cut.
pub proof fn lemma_body_found(s: Seq<char>, k: int, target: int)
    requires
        1 <= k <= target <= leading(s, CharClass::Word, CharClass::AtomTail),
        cut_at(s, target) is Some,
    ensures
        body_from(s, k) matches Some(b) && b.name_end <= target,
    decreases target - k,
{
    if cut_at(s, k) is None {
        lemma_body_found(s, k + 1, target);
    }
}

/// A name with a version and a revision written behind it is a body, and
/// the parser cuts it at the end of that name or before.
pub proof fn lemma_written_body(
    name: Seq<char>,
    version: Option<Seq<char>>,
    revision: Option<Seq<char>>,
)
    requires
        is_identifier(name),
        version matches Some(v) ==> is_version(v),
        revision matches Some(r) ==> version is Some && is_number(r),
    ensures
        body(name + written_tail(version, revision)) matches Some(b) && b.name_end <= name.len(),
{
    let s = name + written_tail(version, revision);
    let k = name.len() as int;
    lemma_run_end(name, 1, CharClass::AtomTail);
    assert(s[0] == name[0]);
    assert forall|j: int| 1 <= j < k implies CharClass::AtomTail.contains(#[trigger] s[j]) by {
        assert(s[j] == name[j]);
    }
    lemma_run_covers(s, 1, k, CharClass::AtomTail);
    match version {
        None => {
            assert(s =~= name);
        },
        Some(v) => {
            let e = k + 1 + v.len();
            assert(s.subrange(k + 1, e) =~= v);
            assert(s[k] == '-');
            match revision {
                None => {
                    assert(e == s.len());
                    lemma_version_in_text(s, k + 1, e);
                },
                Some(r) => {
                    assert(s[e] == '-');
                    assert(s[e + 1] == 'r');
                    lemma_version_in_text(s, k + 1, e);
                    lemma_run_end(r, 0, CharClass::Digit);
                    assert forall|j: int| e + 2 <= j < s.len() implies CharClass::Digit.contains(
                        #[trigger] s[j],
                    ) by {
                        assert(s[j] == r[j - e - 2]);
                    }
                    lemma_run_stops(s, e + 2, s.len() as int, CharClass::Digit);
                },
            }
        },
    }
    lemma_body_found(s, 1, k);
}

/// Neither a slash nor a colon stands in a name, a version or a revision.
pub proof fn lemma_body_chars(
    name: Seq<char>,
    version: Option<Seq<char>>,
    revision: Option<Seq<char>>,
)
    requires
        is_identifier(name),
        version matches Some(v) ==> is_version(v),
        revision matches Some(r) ==> version is Some && is_number(r),
    ensures
        forall|j: int|
            0 <= j < (name + written_tail(version, revision)).len() ==> {
                let c = #[trigger] (name + written_tail(version, revision))[j];
                c != '/' && c != ':'
            },
{
    let s = name + written_tail(version, revision);
    let k = name.len() as int;
    lemma_run_end(name, 1, CharClass::AtomTail);
    assert forall|j: int| 0 <= j < s.len() implies {
        let c = #[trigger] s[j];
        c != '/' && c != ':'
    } by {
        if j < k {
            assert(s[j] == name[j]);
            if j > 0 {
                assert(CharClass::AtomTail.contains(name[j]));
            }
        } else {
            let v = version->Some_0;
            lemma_version_chars(v, 0);
            if j == k {
            } else if j < k + 1 + v.len() {
                assert(s[j] == v[j - k - 1]);
                assert(is_version_char(v[j - k - 1]));
            } else {
                let r = revision->Some_0;
                lemma_run_end(r, 0, CharClass::Digit);
                let e = k + 1 + v.len();
                if j >= e + 2 {
                    assert(s[j] == r[j - e - 2]);
                    assert(CharClass::Digit.contains(r[j - e - 2]));
                }
            }
        }
    }
}

/// Every atom that is written out of well-formed parts is read again: with
/// the category and the slot that were written, and with a body that is cut
/// at the end of the name that was written or before it. The parser takes
/// the shortest name.
pub proof fn lemma_written_parts(p: Parts)
    requires
        p.well_formed(),
    ensures
        parts(p.written()) matches Some(q) && {
            &&& q.category == p.category
            &&& q.slot == p.slot
            &&& q.name.len() <= p.name.len()
            &&& q.name + q.tail() == p.name + p.tail()
            &&& q.well_formed()
        },
{
    let s = p.written();
    let inner = p.name + p.tail();
    let category = match p.category {
        None => Seq::empty(),
        Some(category) => category + seq!['/'],
    };
    let slot = match p.slot {
        None => Seq::empty(),
        Some(slot) => seq![':'] + slot,
    };
    assert(s =~= category + inner + slot);
    lemma_body_chars(p.name, p.version, p.revision);
    lemma_written_body(p.name, p.version, p.revision);
    let start = category.len() as int;
    let colon = start + inner.len();
    assert forall|j: int| start <= j < colon implies s[j] != '/' && s[j] != ':' by {
        assert(s[j] == inner[j - start]);
    }
    match p.slot {
        Some(x) => {
            lemma_run_end(x, 1, CharClass::AtomTail);
            assert forall|j: int| colon <= j < s.len() implies s[j] != '/' by {
                if j > colon {
                    assert(s[j] == x[j - colon - 1]);
                    if j > colon + 1 {
                        assert(CharClass::AtomTail.contains(x[j - colon - 1]));
                    }
                }
            }
            assert(s[colon] == ':');
            assert(s.subrange(colon + 1, s.len() as int) =~= x);
        },
        None => {},
    }
    match p.category {
        Some(c) => {
            lemma_run_end(c, 1, CharClass::AtomTail);
            assert forall|j: int| 0 <= j < start - 1 implies CharClass::Except('/').contains(
                #[trigger] s[j],
            ) by {
                assert(s[j] == c[j]);
                if j > 0 {
                    assert(CharClass::AtomTail.contains(c[j]));
                }
            }
            assert(s[start - 1] == '/');
            lemma_run_stops(s, 0, start - 1, CharClass::Except('/'));
            assert(s.subrange(0, start - 1) =~= c);
        },
        None => {
            lemma_run_stops(s, 0, s.len() as int, CharClass::Except('/'));
        },
    }
    lemma_run_stops(s, start, colon, CharClass::Except(':'));
    assert(s.subrange(start, colon) =~= inner);
    lemma_parts_written(s);
    lemma_body_written(inner);
    lemma_body(inner, 1);
}

} // verus!
