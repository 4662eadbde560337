//! Character classes and scanning helpers on character sequences.
//!
//! Every grammar of this crate is built from three things: a run of characters
//! of one class, a literal, and a cut of the text at given positions. This
//! module states them over `Seq<char>` and implements them on `&[char]`.

use vstd::prelude::*;

verus! {

/// The classes of characters that the grammars of this crate speak of.
#[derive(Clone, Copy, Debug)]
pub enum CharClass {
    /// `[A-Za-z0-9_]`
    Word,
    /// `[0-9]`
    Digit,
    /// `[a-z]`
    Lower,
    /// `[A-Za-z0-9_-]`: the category of a package reference.
    WordDash,
    /// `[A-Za-z0-9_+,.-]`: the name of a package reference.
    PackageTail,
    /// `[A-Za-z0-9_.]`: a slot or subslot in a slot selector.
    WordDot,
    /// `[A-Za-z0-9_+.-]`: what follows the first character of a category, name or slot.
    AtomTail,
    /// `[A-Za-z0-9_+]`: the first character of a slot.
    WordPlus,
    /// Word characters, the characters from `+` to `=`, and `!`, `?`, `(`, `)`, space:
    /// the inside of a USE group.
    UseGroup,
    /// Space, tab, newline, form feed: what separates tokens.
    Blank,
    /// Space, tab, newline, form feed, carriage return.
    Space,
    /// Everything but the characters of `Space`.
    NonSpace,
    /// Everything but the given character.
    Except(char),
    /// The given character alone.
    Only(char),
}

/// Whether `c` is a letter, a digit or the underscore of ASCII.
pub open spec fn is_word(c: char) -> bool {
    ('a' <= c && c <= 'z') || ('A' <= c && c <= 'Z') || ('0' <= c && c <= '9') || c == '_'
}

/// Whether `c` is a digit of ASCII.
pub open spec fn is_digit(c: char) -> bool {
    '0' <= c && c <= '9'
}

/// Whether `c` is white space of ASCII.
pub open spec fn is_space(c: char) -> bool {
    c == ' ' || c == '\t' || c == '\n' || c == '\x0C' || c == '\r'
}

impl CharClass {
    /// Whether `c` belongs to the class.
    pub open spec fn contains(self, c: char) -> bool {
        match self {
            CharClass::Word => is_word(c),
            CharClass::Digit => is_digit(c),
            CharClass::Lower => 'a' <= c && c <= 'z',
            CharClass::WordDash => is_word(c) || c == '-',
            CharClass::PackageTail => is_word(c) || c == '+' || c == ',' || c == '-' || c == '.',
            CharClass::WordDot => is_word(c) || c == '.',
            CharClass::AtomTail => is_word(c) || c == '+' || c == '.' || c == '-',
            CharClass::WordPlus => is_word(c) || c == '+',
            CharClass::UseGroup => is_word(c) || ('+' <= c && c <= '=') || c == '!' || c == '?'
                || c == '(' || c == ')' || c == ' ',
            CharClass::Blank => c == ' ' || c == '\t' || c == '\n' || c == '\x0C',
            CharClass::Space => is_space(c),
            CharClass::NonSpace => !is_space(c),
            CharClass::Except(x) => c != x,
            CharClass::Only(x) => c == x,
        }
    }

    pub fn has(self, c: char) -> (r: bool)
        ensures
            r == self.contains(c),
    {
        let word = ('a' <= c && c <= 'z') || ('A' <= c && c <= 'Z') || ('0' <= c && c <= '9') || c
            == '_';
        let space = c == ' ' || c == '\t' || c == '\n' || c == '\x0C' || c == '\r';
        match self {
            CharClass::Word => word,
            CharClass::Digit => '0' <= c && c <= '9',
            CharClass::Lower => 'a' <= c && c <= 'z',
            CharClass::WordDash => word || c == '-',
            CharClass::PackageTail => word || c == '+' || c == ',' || c == '-' || c == '.',
            CharClass::WordDot => word || c == '.',
            CharClass::AtomTail => word || c == '+' || c == '.' || c == '-',
            CharClass::WordPlus => word || c == '+',
            CharClass::UseGroup => word || ('+' <= c && c <= '=') || c == '!' || c == '?' || c
                == '(' || c == ')' || c == ' ',
            CharClass::Blank => c == ' ' || c == '\t' || c == '\n' || c == '\x0C',
            CharClass::Space => space,
            CharClass::NonSpace => !space,
            CharClass::Except(x) => c != x,
            CharClass::Only(x) => c == x,
        }
    }
}

/// Where the longest run of `class` characters that starts at `i` ends.
/// It is `i` itself when `s[i]` is not of the class or `i` is not a position of `s`.
pub open spec fn run_end(s: Seq<char>, i: int, class: CharClass) -> int
    decreases s.len() - i,
{
    if 0 <= i < s.len() && class.contains(s[i]) {
        run_end(s, i + 1, class)
    } else {
        i
    }
}

/// A run ends inside the text, holds only characters of its class, and cannot be made longer.
pub proof fn lemma_run_end(s: Seq<char>, i: int, class: CharClass)
    requires
        0 <= i <= s.len(),
    ensures
        i <= run_end(s, i, class) <= s.len(),
        forall|k: int| i <= k < run_end(s, i, class) ==> class.contains(#[trigger] s[k]),
        run_end(s, i, class) < s.len() ==> !class.contains(s[run_end(s, i, class)]),
    decreases s.len() - i,
{
    if i < s.len() && class.contains(s[i]) {
        lemma_run_end(s, i + 1, class);
    }
}

/// A run reaches at least as far as characters of its class go on.
pub proof fn lemma_run_covers(s: Seq<char>, i: int, e: int, class: CharClass)
    requires
        0 <= i <= e <= s.len(),
        forall|k: int| i <= k < e ==> class.contains(#[trigger] s[k]),
    ensures
        e <= run_end(s, i, class),
    decreases e - i,
{
    if i < e {
        assert(class.contains(s[i]));
        lemma_run_covers(s, i + 1, e, class);
    } else {
        lemma_run_end(s, i, class);
    }
}

/// A run ends where its class ends: at the first position whose character is
/// not of the class, or at the end of the text.
pub proof fn lemma_run_stops(s: Seq<char>, i: int, e: int, class: CharClass)
    requires
        0 <= i <= e <= s.len(),
        forall|k: int| i <= k < e ==> class.contains(#[trigger] s[k]),
        e < s.len() ==> !class.contains(s[e]),
    ensures
        run_end(s, i, class) == e,
{
    lemma_run_covers(s, i, e, class);
    lemma_run_end(s, i, class);
}

/// Scans the run of `class` characters that starts at `i`.
pub(crate) fn scan_run(s: &[char], i: usize, class: CharClass) -> (e: usize)
    requires
        i <= s.len(),
    ensures
        e == run_end(s@, i as int, class),
        i <= e <= s.len(),
{
    let mut e = i;
    while e < s.len() && class.has(s[e])
        invariant
            i <= e <= s.len(),
            run_end(s@, i as int, class) == run_end(s@, e as int, class),
        decreases s.len() - e,
    {
        e = e + 1;
    }
    e
}

/// Whether `lit` stands in `s` at position `i`.
pub open spec fn has_at(s: Seq<char>, i: int, lit: Seq<char>) -> bool {
    0 <= i && i + lit.len() <= s.len() && s.subrange(i, i + lit.len()) == lit
}

/// Tests whether `lit` stands in `s` at position `i`.
pub(crate) fn starts_at(s: &[char], i: usize, lit: &[char]) -> (r: bool)
    requires
        i <= s.len(),
    ensures
        r == has_at(s@, i as int, lit@),
{
    if lit.len() > s.len() - i {
        return false;
    }
    let mut k: usize = 0;
    while k < lit.len()
        invariant
            i + lit.len() <= s.len(),
            k <= lit.len(),
            forall|j: int| 0 <= j < k ==> s@[i + j] == lit@[j],
        decreases lit.len() - k,
    {
        if s[i + k] != lit[k] {
            proof {
                assert(s@.subrange(i as int, i + lit.len())[k as int] == s@[i + k]);
            }
            return false;
        }
        k = k + 1;
    }
    proof {
        assert(s@.subrange(i as int, i + lit.len()) =~= lit@);
    }
    true
}

/// The text of an optional string.
pub open spec fn opt_text(o: Option<String>) -> Option<Seq<char>> {
    match o {
        Some(s) => Some(s@),
        None => None,
    }
}

/// The texts of a list of strings.
pub open spec fn texts(v: Seq<String>) -> Seq<Seq<char>> {
    Seq::new(v.len(), |i: int| v[i]@)
}

/// The pieces of `s` from position `i` on that `sep` separates. A separator at
/// the very end leaves an empty last piece, and two in a row an empty piece
/// between them.
pub open spec fn split_from(s: Seq<char>, i: int, sep: char) -> Seq<Seq<char>>
    decreases s.len() - i,
{
    let k = run_end(s, i, CharClass::Except(sep));
    if 0 <= i <= k < s.len() {
        seq![s.subrange(i, k)] + split_from(s, k + 1, sep)
    } else {
        seq![s.subrange(i, s.len() as int)]
    }
}

/// The pieces of `s` that `sep` separates.
pub open spec fn split(s: Seq<char>, sep: char) -> Seq<Seq<char>> {
    split_from(s, 0, sep)
}

/// The words of `s` from position `i` on: the longest stretches without a
/// space character.
pub open spec fn words_from(s: Seq<char>, i: int) -> Seq<Seq<char>>
    decreases s.len() - i,
{
    let a = run_end(s, i, CharClass::Space);
    let e = run_end(s, a, CharClass::NonSpace);
    if 0 <= i <= a < s.len() {
        proof {
            lemma_run_end(s, i, CharClass::Space);
            lemma_run_end(s, a + 1, CharClass::NonSpace);
        }
        seq![s.subrange(a, e)] + words_from(s, e)
    } else {
        Seq::empty()
    }
}

/// The words of `s`: what is left when it is cut at its space characters and
/// the empty pieces are dropped.
pub open spec fn words(s: Seq<char>) -> Seq<Seq<char>> {
    words_from(s, 0)
}

/// The characters of `s`, in order.
pub fn to_chars(s: &str) -> (v: Vec<char>)
    ensures
        v@ == s@,
{
    let mut v: Vec<char> = Vec::new();
    for c in it: s.chars()
        invariant
            v@ == it.seq().take(it.index()),
            it.seq() == s@,
    {
        v.push(c);
    }
    v
}

/// The piece of `s` from position `from` up to, not including, position `to`.
pub(crate) fn cut(s: &str, from: usize, to: usize) -> (r: String)
    requires
        from <= to <= s@.len(),
    ensures
        r@ == s@.subrange(from as int, to as int),
{
    s.substring_char(from, to).to_owned()
}

/// Cuts `s` at each `sep`.
pub fn split_text(s: &str, sep: char) -> (r: Vec<String>)
    ensures
        texts(r@) == split(s@, sep),
{
    let chars = to_chars(s);
    let mut r: Vec<String> = Vec::new();
    let mut i: usize = 0;
    loop
        invariant
            chars@ == s@,
            i <= chars.len(),
            split(s@, sep) == texts(r@) + split_from(s@, i as int, sep),
        decreases chars.len() - i,
    {
        let k = scan_run(chars.as_slice(), i, CharClass::Except(sep));
        let ghost before = texts(r@);
        if k < chars.len() {
            r.push(cut(s, i, k));
            proof {
                assert(texts(r@) =~= before + seq![s@.subrange(i as int, k as int)]);
                assert(split(s@, sep) =~= texts(r@) + split_from(s@, k + 1, sep));
            }
            i = k + 1;
        } else {
            r.push(cut(s, i, chars.len()));
            proof {
                assert(texts(r@) =~= before + seq![
                    s@.subrange(i as int, s@.len() as int),
                ]);
            }
            return r;
        }
    }
}

/// The words of `s`.
pub fn split_words(s: &str) -> (r: Vec<String>)
    ensures
        texts(r@) == words(s@),
{
    let chars = to_chars(s);
    let mut r: Vec<String> = Vec::new();
    let mut i: usize = 0;
    loop
        invariant
            chars@ == s@,
            i <= chars.len(),
            words(s@) == texts(r@) + words_from(s@, i as int),
        decreases chars.len() - i,
    {
        let a = scan_run(chars.as_slice(), i, CharClass::Space);
        if a >= chars.len() {
            proof {
                assert(words(s@) =~= texts(r@));
            }
            return r;
        }
        let e = scan_run(chars.as_slice(), a, CharClass::NonSpace);
        let ghost before = texts(r@);
        r.push(cut(s, a, e));
        proof {
            assert(texts(r@) =~= before + seq![s@.subrange(a as int, e as int)]);
            assert(words(s@) =~= texts(r@) + words_from(s@, e as int));
        }
        i = e;
    }
}

/// Whether `lit` occurs in `s`.
pub open spec fn occurs(s: Seq<char>, lit: Seq<char>) -> bool {
    exists|i: int| has_at(s, i, lit)
}

/// Tests whether `lit` occurs in `s`.
pub(crate) fn find_text(s: &[char], lit: &[char]) -> (r: bool)
    ensures
        r == occurs(s@, lit@),
{
    let mut i: usize = 0;
    loop
        invariant
            i <= s.len(),
            forall|j: int| 0 <= j < i ==> !has_at(s@, j, lit@),
        decreases s.len() - i,
    {
        if starts_at(s, i, lit) {
            return true;
        }
        if i == s.len() {
            return false;
        }
        i = i + 1;
    }
}

/// The position of the last `c` in the first `i` characters of `s`; -1 where there is none.
pub open spec fn last_before(s: Seq<char>, c: char, i: int) -> int
    decreases i,
{
    if i <= 0 || i > s.len() {
        -1
    } else if s[i - 1] == c {
        i - 1
    } else {
        last_before(s, c, i - 1)
    }
}

/// The position of the last `c` in `s`.
pub(crate) fn find_last(s: &[char], c: char) -> (r: Option<usize>)
    ensures
        match r {
            Some(at) => at == last_before(s@, c, s@.len() as int) && at < s@.len(),
            None => last_before(s@, c, s@.len() as int) == -1,
        },
{
    let mut i: usize = s.len();
    while i > 0
        invariant
            i <= s.len(),
            last_before(s@, c, s@.len() as int) == last_before(s@, c, i as int),
        decreases i,
    {
        if s[i - 1] == c {
            return Some(i - 1);
        }
        i = i - 1;
    }
    None
}

} // verus!
