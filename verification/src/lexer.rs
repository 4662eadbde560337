//! The lexer of dependency expressions.
//!
//! A dependency expression is cut into tokens from left to right. Blanks
//! between tokens are skipped. At each position every token pattern is tried,
//! and the longest match wins; where two are equally long, the one that
//! stands earlier in this list does:
//!
//! 1. a package reference, `category/name`: `[\w-]+/[\w+,.-]+`
//! 2. a slot selector, `:slot`, `:slot/subslot`, each with `=` or `*` behind it or not:
//!    `:[\w.]+(/[\w.]+)?[=*]?`
//! 3. a USE group in square brackets
//! 4. a bare USE flag: `\w+`
//! 5. an operator: `!!`, `!<`, `!>`, `=<`, `=>`, `||`, `!`, `<`, `=`, `>`, `?`
//! 6. a bracket: `(` or `)`
//!
//! `\w` is a letter, a digit or the underscore of ASCII.

use crate::data::{Brackets, Conditional};
use crate::error::{Error, Failure};
use crate::text::{
    cut, lemma_run_covers, lemma_run_end, run_end, scan_run, split, split_text, texts, to_chars,
    CharClass,
};
use vstd::prelude::*;

verus! {

/// What a token is, apart from its text.
#[derive(Debug, Clone, Copy, PartialEq, Eq)]
pub enum TokenKind {
    PackageName,
    PackageSlot,
    PackageUseGroup,
    UseFlag,
    Conditional(Conditional),
    Bracket(Brackets),
}

/// A token as a stretch of the source: its characters are those from `start`
/// up to, not including, `end`.
pub struct Span {
    pub kind: TokenKind,
    pub start: int,
    pub end: int,
}

/// A span as the lexer holds it at run time.
#[derive(Debug, Clone, Copy)]
pub struct Lexeme {
    pub kind: TokenKind,
    pub start: usize,
    pub end: usize,
}

impl View for Lexeme {
    type V = Span;

    open spec fn view(&self) -> Span {
        Span { kind: self.kind, start: self.start as int, end: self.end as int }
    }
}

/// A match of `kind` that ends at `end`, if `end` is given.
pub open spec fn found(kind: TokenKind, start: int, end: Option<int>) -> Option<Span> {
    match end {
        Some(e) => Some(Span { kind, start, end: e }),
        None => None,
    }
}

/// The longest package reference at `i`: a category, a slash, a name.
pub open spec fn package_name_end(s: Seq<char>, i: int) -> Option<int> {
    let slash = run_end(s, i, CharClass::WordDash);
    let end = run_end(s, slash + 1, CharClass::PackageTail);
    if i < slash < s.len() && s[slash] == '/' && slash + 1 < end {
        Some(end)
    } else {
        None
    }
}

/// The longest slot selector at `i`: a colon and a slot; then, if they are
/// there, a slash with a subslot, and one of `=` and `*`.
pub open spec fn slot_end(s: Seq<char>, i: int) -> Option<int> {
    let slot = run_end(s, i + 1, CharClass::WordDot);
    let sub = run_end(s, slot + 1, CharClass::WordDot);
    let named = if slot < s.len() && s[slot] == '/' && slot + 1 < sub {
        sub
    } else {
        slot
    };
    if 0 <= i < s.len() && s[i] == ':' && i + 1 < slot {
        if named < s.len() && (s[named] == '=' || s[named] == '*') {
            Some(named + 1)
        } else {
            Some(named)
        }
    } else {
        None
    }
}

/// The USE group at `i`: `[`, one or more characters of the group class, `]`.
pub open spec fn use_group_end(s: Seq<char>, i: int) -> Option<int> {
    let close = run_end(s, i + 1, CharClass::UseGroup);
    if 0 <= i < s.len() && s[i] == '[' && i + 1 < close < s.len() && s[close] == ']' {
        Some(close + 1)
    } else {
        None
    }
}

/// The longest bare word at `i`.
pub open spec fn use_flag_end(s: Seq<char>, i: int) -> Option<int> {
    let end = run_end(s, i, CharClass::Word);
    if i < end {
        Some(end)
    } else {
        None
    }
}

/// Whether the two characters `a`, `b` stand at `i`.
pub open spec fn pair_at(s: Seq<char>, i: int, a: char, b: char) -> bool {
    0 <= i && i + 1 < s.len() && s[i] == a && s[i + 1] == b
}

/// The longest operator at `i`.
pub open spec fn operator_at(s: Seq<char>, i: int) -> Option<Span> {
    let two = |c: Conditional| Some(Span { kind: TokenKind::Conditional(c), start: i, end: i + 2 });
    let one = |c: Conditional| Some(Span { kind: TokenKind::Conditional(c), start: i, end: i + 1 });
    if pair_at(s, i, '!', '!') {
        two(Conditional::StrongBlocker)
    } else if pair_at(s, i, '!', '<') {
        two(Conditional::BlockLess)
    } else if pair_at(s, i, '!', '>') {
        two(Conditional::BlockGreater)
    } else if pair_at(s, i, '=', '<') {
        two(Conditional::LessOrEqual)
    } else if pair_at(s, i, '=', '>') {
        two(Conditional::GreaterOrEqual)
    } else if pair_at(s, i, '|', '|') {
        two(Conditional::Or)
    } else if !(0 <= i < s.len()) {
        None
    } else if s[i] == '!' {
        one(Conditional::WeakBlocker)
    } else if s[i] == '<' {
        one(Conditional::Less)
    } else if s[i] == '=' {
        one(Conditional::Equal)
    } else if s[i] == '>' {
        one(Conditional::Greater)
    } else if s[i] == '?' {
        one(Conditional::If)
    } else {
        None
    }
}

/// The bracket at `i`.
pub open spec fn bracket_at(s: Seq<char>, i: int) -> Option<Span> {
    if !(0 <= i < s.len()) {
        None
    } else if s[i] == '(' {
        Some(Span { kind: TokenKind::Bracket(Brackets::Open), start: i, end: i + 1 })
    } else if s[i] == ')' {
        Some(Span { kind: TokenKind::Bracket(Brackets::Close), start: i, end: i + 1 })
    } else {
        None
    }
}

/// Of two matches at one position the longer; `first` where they are equally long.
pub open spec fn longer(first: Option<Span>, second: Option<Span>) -> Option<Span> {
    match (first, second) {
        (Some(a), Some(b)) => if b.end > a.end {
            second
        } else {
            first
        },
        (Some(_), None) => first,
        (None, _) => second,
    }
}

/// The token that starts at `i`: the longest match of the six patterns.
pub open spec fn token_at(s: Seq<char>, i: int) -> Option<Span> {
    longer(
        found(TokenKind::PackageName, i, package_name_end(s, i)),
        longer(
            found(TokenKind::PackageSlot, i, slot_end(s, i)),
            longer(
                found(TokenKind::PackageUseGroup, i, use_group_end(s, i)),
                longer(
                    found(TokenKind::UseFlag, i, use_flag_end(s, i)),
                    longer(operator_at(s, i), bracket_at(s, i)),
                ),
            ),
        ),
    )
}

/// Where the pattern of the given place in the list matches from `i`: 0 for
/// the package reference, 5 for the bracket.
pub open spec fn pattern_match(s: Seq<char>, i: int, pattern: int) -> Option<Span> {
    if pattern == 0 {
        found(TokenKind::PackageName, i, package_name_end(s, i))
    } else if pattern == 1 {
        found(TokenKind::PackageSlot, i, slot_end(s, i))
    } else if pattern == 2 {
        found(TokenKind::PackageUseGroup, i, use_group_end(s, i))
    } else if pattern == 3 {
        found(TokenKind::UseFlag, i, use_flag_end(s, i))
    } else if pattern == 4 {
        operator_at(s, i)
    } else {
        bracket_at(s, i)
    }
}

/// The token at `i` is the longest match of the six patterns, and of those
/// that are as long, the one whose pattern comes first. There is a token
/// where any pattern matches.
pub proof fn lemma_longest_match(s: Seq<char>, i: int)
    ensures
        match token_at(s, i) {
            Some(t) => exists|winner: int|
                {
                    &&& 0 <= winner < 6
                    &&& #[trigger] pattern_match(s, i, winner) == Some(t)
                    &&& forall|other: int|
                        0 <= other < 6 ==> match #[trigger] pattern_match(s, i, other) {
                            Some(m) => m.end < t.end || (m.end == t.end && winner <= other),
                            None => true,
                        }
                },
            None => forall|other: int| 0 <= other < 6 ==> #[trigger] pattern_match(s, i, other) is None,
        },
{
    match token_at(s, i) {
        Some(t) => {
            let winner = if pattern_match(s, i, 0) == Some(t) {
                0int
            } else if pattern_match(s, i, 1) == Some(t) {
                1
            } else if pattern_match(s, i, 2) == Some(t) {
                2
            } else if pattern_match(s, i, 3) == Some(t) {
                3
            } else if pattern_match(s, i, 4) == Some(t) {
                4
            } else {
                5
            };
            assert(pattern_match(s, i, winner) == Some(t));
            assert forall|other: int| 0 <= other < 6 implies match #[trigger] pattern_match(
                s,
                i,
                other,
            ) {
                Some(m) => m.end < t.end || (m.end == t.end && winner <= other),
                None => true,
            } by {
                assert(other == 0 || other == 1 || other == 2 || other == 3 || other == 4 || other
                    == 5);
            }
        },
        None => {
            assert forall|other: int| 0 <= other < 6 implies #[trigger] pattern_match(s, i, other)
                is None by {
                assert(other == 0 || other == 1 || other == 2 || other == 3 || other == 4 || other
                    == 5);
            }
        },
    }
}

/// A token starts where it was looked for, is not empty, and ends inside the text.
pub proof fn lemma_token_at(s: Seq<char>, i: int)
    requires
        0 <= i <= s.len(),
    ensures
        token_at(s, i) matches Some(t) ==> t.start == i && i < t.end <= s.len(),
{
    lemma_run_end(s, i, CharClass::WordDash);
    lemma_run_end(s, i, CharClass::Word);
    if i < s.len() {
        lemma_run_end(s, i + 1, CharClass::WordDot);
        lemma_run_end(s, i + 1, CharClass::UseGroup);
        let slash = run_end(s, i, CharClass::WordDash);
        if slash < s.len() {
            lemma_run_end(s, slash + 1, CharClass::PackageTail);
        }
        let slot = run_end(s, i + 1, CharClass::WordDot);
        if slot < s.len() {
            lemma_run_end(s, slot + 1, CharClass::WordDot);
        }
    }
}

/// The tokens of `s` from position `i` on, or the position of the first
/// character that is no blank and begins no token.
pub open spec fn tokens_from(s: Seq<char>, i: int) -> Result<Seq<Span>, int>
    decreases s.len() - i,
{
    let start = run_end(s, i, CharClass::Blank);
    if 0 <= i <= start < s.len() {
        match token_at(s, start) {
            Some(t) => {
                proof {
                    lemma_token_at(s, start);
                }
                match tokens_from(s, t.end) {
                    Ok(rest) => Ok(seq![t] + rest),
                    Err(at) => Err(at),
                }
            },
            None => Err(start),
        }
    } else {
        Ok(Seq::empty())
    }
}

/// The tokens of a dependency expression.
pub open spec fn tokens(s: Seq<char>) -> Result<Seq<Span>, int> {
    tokens_from(s, 0)
}

/// A token of a dependency expression.
#[derive(Debug, Clone, PartialEq, Eq)]
pub enum Token {
    /// A package reference, `category/name`, as written.
    PackageName(String),
    /// A slot selector, without its colon.
    PackageSlot(String),
    /// A USE group: what stands between its brackets, cut at the commas.
    PackageUseGroup(Vec<String>),
    /// A bare USE flag.
    UseFlag(String),
    Conditional(Conditional),
    Bracket(Brackets),
}

/// A token, with its texts as sequences of characters.
pub enum TokenView {
    PackageName(Seq<char>),
    PackageSlot(Seq<char>),
    PackageUseGroup(Seq<Seq<char>>),
    UseFlag(Seq<char>),
    Conditional(Conditional),
    Bracket(Brackets),
}

impl View for Token {
    type V = TokenView;

    open spec fn view(&self) -> TokenView {
        match self {
            Token::PackageName(t) => TokenView::PackageName(t@),
            Token::PackageSlot(t) => TokenView::PackageSlot(t@),
            Token::PackageUseGroup(flags) => TokenView::PackageUseGroup(texts(flags@)),
            Token::UseFlag(t) => TokenView::UseFlag(t@),
            Token::Conditional(c) => TokenView::Conditional(*c),
            Token::Bracket(b) => TokenView::Bracket(*b),
        }
    }
}

/// The token that the span `t` of `s` stands for.
pub open spec fn token_of(s: Seq<char>, t: Span) -> TokenView {
    match t.kind {
        TokenKind::PackageName => TokenView::PackageName(s.subrange(t.start, t.end)),
        TokenKind::PackageSlot => TokenView::PackageSlot(s.subrange(t.start + 1, t.end)),
        TokenKind::PackageUseGroup => TokenView::PackageUseGroup(
            split(s.subrange(t.start + 1, t.end - 1), ','),
        ),
        TokenKind::UseFlag => TokenView::UseFlag(s.subrange(t.start, t.end)),
        TokenKind::Conditional(c) => TokenView::Conditional(c),
        TokenKind::Bracket(b) => TokenView::Bracket(b),
    }
}

/// The tokens that the spans `spans` of `s` stand for.
pub open spec fn tokens_of(s: Seq<char>, spans: Seq<Span>) -> Seq<TokenView> {
    Seq::new(spans.len(), |i: int| token_of(s, spans[i]))
}

/// The views of a list of tokens.
pub open spec fn token_views(tokens: Seq<Token>) -> Seq<TokenView> {
    Seq::new(tokens.len(), |i: int| tokens[i]@)
}

/// Whether a span is a package reference.
pub open spec fn is_reference() -> spec_fn(Span) -> bool {
    |t: Span| t.kind == TokenKind::PackageName
}

/// The characters of a span.
pub open spec fn text_of(s: Seq<char>) -> spec_fn(Span) -> Seq<char> {
    |t: Span| s.subrange(t.start, t.end)
}

/// The texts of the package references among `spans`, in their order.
pub open spec fn package_names(s: Seq<char>, spans: Seq<Span>) -> Seq<Seq<char>> {
    spans.filter(is_reference()).map_values(text_of(s))
}

/// One more span adds its text to the package references if it is one, and
/// nothing if it is not.
pub proof fn lemma_package_names_push(s: Seq<char>, spans: Seq<Span>, t: Span)
    ensures
        package_names(s, spans.push(t)) == if t.kind == TokenKind::PackageName {
            package_names(s, spans).push(s.subrange(t.start, t.end))
        } else {
            package_names(s, spans)
        },
{
    reveal(Seq::filter);
    assert(spans.push(t).drop_last() =~= spans);
    if t.kind == TokenKind::PackageName {
        assert(spans.push(t).filter(is_reference()) == spans.filter(is_reference()).push(t));
        assert(package_names(s, spans.push(t)) =~= package_names(s, spans).push(
            s.subrange(t.start, t.end),
        ));
    }
}

/// A package reference: one or more characters of a category, a slash, one
/// or more characters of a name.
pub open spec fn is_package_reference(t: Seq<char>) -> bool {
    exists|slash: int|
        {
            &&& 0 < slash < t.len() - 1
            &&& #[trigger] t[slash] == '/'
            &&& forall|j: int| 0 <= j < slash ==> CharClass::WordDash.contains(#[trigger] t[j])
            &&& forall|j: int|
                slash < j < t.len() ==> CharClass::PackageTail.contains(#[trigger] t[j])
        }
}

/// What the package references of a dependency expression are, said of the
/// source text: they come in source order and none overlaps another; each is
/// a piece of the source that has the shape of a package reference, and the
/// longest such piece that starts where it starts; and they are the tokens of
/// that kind, all of them and nothing else.
pub proof fn lemma_package_names(s: Seq<char>)
    ensures
        tokens(s) matches Ok(spans) ==> {
            let refs = spans.filter(is_reference());
            &&& package_names(s, spans).len() == refs.len()
            &&& forall|k: int|
                0 <= k < refs.len() ==> {
                    let t = #[trigger] refs[k];
                    &&& spans.contains(t)
                    &&& 0 <= t.start < t.end <= s.len()
                    &&& package_names(s, spans)[k] == s.subrange(t.start, t.end)
                    &&& is_package_reference(s.subrange(t.start, t.end))
                    &&& forall|e: int|
                        t.start <= e <= s.len() && is_package_reference(
                            #[trigger] s.subrange(t.start, e),
                        ) ==> e <= t.end
                }
            &&& forall|j: int, k: int|
                0 <= j < k < refs.len() ==> (#[trigger] refs[j]).end <= (#[trigger] refs[k]).start
            &&& forall|k: int|
                0 <= k < spans.len() && spans[k].kind == TokenKind::PackageName
                    ==> refs.contains(#[trigger] spans[k])
        },
{
    match tokens(s) {
        Ok(spans) => {
            lemma_tokens_in_order(s, 0);
            lemma_filter_keeps_order(spans);
            let refs = spans.filter(is_reference());
            broadcast use vstd::seq_lib::group_filter_ensures;
            assert forall|k: int| 0 <= k < refs.len() implies {
                let t = #[trigger] refs[k];
                &&& spans.contains(t)
                &&& 0 <= t.start < t.end <= s.len()
                &&& package_names(s, spans)[k] == s.subrange(t.start, t.end)
                &&& is_package_reference(s.subrange(t.start, t.end))
                &&& forall|e: int|
                    t.start <= e <= s.len() && is_package_reference(
                        #[trigger] s.subrange(t.start, e),
                    ) ==> e <= t.end
            } by {
                let t = refs[k];
                assert(spans.contains(t));
                let at = choose|at: int| 0 <= at < spans.len() && spans[at] == t;
                assert(token_at(s, spans[at].start) == Some(spans[at]));
                lemma_reference_shape(s, t.start);
            }
        },
        Err(_) => {},
    }
}

/// The spans that a filter keeps are spans of the list, in the order of the list.
pub proof fn lemma_filter_keeps_order(spans: Seq<Span>)
    requires
        forall|j: int, k: int|
            0 <= j < k < spans.len() ==> (#[trigger] spans[j]).end <= (#[trigger] spans[k]).start,
    ensures
        forall|k: int|
            0 <= k < spans.filter(is_reference()).len() ==> spans.contains(
                #[trigger] spans.filter(is_reference())[k],
            ),
        forall|j: int, k: int|
            0 <= j < k < spans.filter(is_reference()).len() ==> (#[trigger] spans.filter(
                is_reference(),
            )[j]).end <= (#[trigger] spans.filter(is_reference())[k]).start,
    decreases spans.len(),
{
    reveal(Seq::filter);
    if spans.len() > 0 {
        let front = spans.drop_last();
        lemma_filter_keeps_order(front);
        let kept = front.filter(is_reference());
        let all = spans.filter(is_reference());
        assert forall|k: int| 0 <= k < all.len() implies spans.contains(#[trigger] all[k]) by {
            if k < kept.len() {
                assert(all[k] == kept[k]);
                assert(front.contains(kept[k]));
                let at = choose|at: int| 0 <= at < front.len() && front[at] == kept[k];
                assert(spans[at] == all[k]);
            } else {
                assert(all[k] == spans[spans.len() - 1]);
            }
        }
        assert forall|j: int, k: int| 0 <= j < k < all.len() implies (#[trigger] all[j]).end <= (
        #[trigger] all[k]).start by {
            if k < kept.len() {
                assert(all[j] == kept[j] && all[k] == kept[k]);
            } else {
                assert(all[j] == kept[j]);
                assert(front.contains(kept[j]));
                let at = choose|at: int| 0 <= at < front.len() && front[at] == kept[j];
                assert(spans[at] == all[j]);
                assert(all[k] == spans[spans.len() - 1]);
            }
        }
    }
}

/// No package reference at `i` is longer than the one that the lexer finds there.
pub proof fn lemma_longest_reference(s: Seq<char>, i: int, e: int)
    requires
        0 <= i <= e <= s.len(),
        is_package_reference(s.subrange(i, e)),
    ensures
        package_name_end(s, i) matches Some(end) && e <= end,
{
    let piece = s.subrange(i, e);
    let at = choose|at: int|
        {
            &&& 0 < at < piece.len() - 1
            &&& #[trigger] piece[at] == '/'
            &&& forall|j: int| 0 <= j < at ==> CharClass::WordDash.contains(#[trigger] piece[j])
            &&& forall|j: int|
                at < j < piece.len() ==> CharClass::PackageTail.contains(#[trigger] piece[j])
        };
    assert forall|k: int| i <= k < i + at implies CharClass::WordDash.contains(
        #[trigger] s[k],
    ) by {
        assert(piece[k - i] == s[k]);
    }
    assert(piece[at] == s[i + at]);
    lemma_run_covers(s, i, i + at, CharClass::WordDash);
    lemma_run_end(s, i, CharClass::WordDash);
    let slash = run_end(s, i, CharClass::WordDash);
    if slash > i + at {
        assert(CharClass::WordDash.contains(s[i + at]));
    }
    assert(slash == i + at);
    assert forall|k: int| slash + 1 <= k < e implies CharClass::PackageTail.contains(
        #[trigger] s[k],
    ) by {
        assert(piece[k - i] == s[k]);
    }
    lemma_run_covers(s, slash + 1, e, CharClass::PackageTail);
}

/// A token that is a package reference has the shape of one, and no package
/// reference that starts where it starts is longer.
pub proof fn lemma_reference_shape(s: Seq<char>, i: int)
    requires
        0 <= i <= s.len(),
    ensures
        token_at(s, i) matches Some(t) ==> t.kind == TokenKind::PackageName ==> {
            &&& is_package_reference(s.subrange(i, t.end))
            &&& forall|e: int|
                i <= e <= s.len() && is_package_reference(#[trigger] s.subrange(i, e)) ==> e
                    <= t.end
        },
{
    lemma_token_at(s, i);
    match token_at(s, i) {
        Some(t) => {
            if t.kind == TokenKind::PackageName {
                let slash = run_end(s, i, CharClass::WordDash);
                lemma_run_end(s, i, CharClass::WordDash);
                lemma_run_end(s, slash + 1, CharClass::PackageTail);
                let piece = s.subrange(i, t.end);
                assert(t.end == run_end(s, slash + 1, CharClass::PackageTail));
                assert(piece[slash - i] == '/');
                assert forall|j: int| 0 <= j < slash - i implies CharClass::WordDash.contains(
                    #[trigger] piece[j],
                ) by {
                    assert(piece[j] == s[i + j]);
                }
                assert forall|j: int| slash - i < j < piece.len() implies CharClass::PackageTail.contains(
                #[trigger] piece[j]) by {
                    assert(piece[j] == s[i + j]);
                }
                assert forall|e: int|
                    i <= e <= s.len() && is_package_reference(
                        #[trigger] s.subrange(i, e),
                    ) implies e <= t.end by {
                    lemma_longest_reference(s, i, e);
                }
            }
        },
        None => {},
    }
}

/// A position as an integer, where there is one.
pub open spec fn position(p: Option<usize>) -> Option<int> {
    match p {
        Some(e) => Some(e as int),
        None => None,
    }
}

/// A lexeme as a span, where there is one.
pub open spec fn span_of(l: Option<Lexeme>) -> Option<Span> {
    match l {
        Some(t) => Some(t@),
        None => None,
    }
}

/// The spans of a list of lexemes.
pub open spec fn spans_of(lexemes: Seq<Lexeme>) -> Seq<Span> {
    Seq::new(lexemes.len(), |i: int| lexemes[i]@)
}

fn match_package_name(s: &[char], i: usize) -> (r: Option<usize>)
    requires
        i <= s.len(),
    ensures
        position(r) == package_name_end(s@, i as int),
{
    let slash = scan_run(s, i, CharClass::WordDash);
    if i < slash && slash < s.len() && s[slash] == '/' {
        let end = scan_run(s, slash + 1, CharClass::PackageTail);
        if slash + 1 < end {
            return Some(end);
        }
    }
    None
}

fn match_slot(s: &[char], i: usize) -> (r: Option<usize>)
    requires
        i <= s.len(),
    ensures
        position(r) == slot_end(s@, i as int),
{
    if !(i < s.len() && s[i] == ':') {
        return None;
    }
    let slot = scan_run(s, i + 1, CharClass::WordDot);
    if !(i + 1 < slot) {
        return None;
    }
    let mut named = slot;
    if slot < s.len() && s[slot] == '/' {
        let sub = scan_run(s, slot + 1, CharClass::WordDot);
        if slot + 1 < sub {
            named = sub;
        }
    }
    if named < s.len() && (s[named] == '=' || s[named] == '*') {
        Some(named + 1)
    } else {
        Some(named)
    }
}

fn match_use_group(s: &[char], i: usize) -> (r: Option<usize>)
    requires
        i <= s.len(),
    ensures
        position(r) == use_group_end(s@, i as int),
{
    if !(i < s.len() && s[i] == '[') {
        return None;
    }
    let close = scan_run(s, i + 1, CharClass::UseGroup);
    if i + 1 < close && close < s.len() && s[close] == ']' {
        Some(close + 1)
    } else {
        None
    }
}

fn match_use_flag(s: &[char], i: usize) -> (r: Option<usize>)
    requires
        i <= s.len(),
    ensures
        position(r) == use_flag_end(s@, i as int),
{
    let end = scan_run(s, i, CharClass::Word);
    if i < end {
        Some(end)
    } else {
        None
    }
}

fn match_operator(s: &[char], i: usize) -> (r: Option<Lexeme>)
    requires
        i <= s.len(),
    ensures
        span_of(r) == operator_at(s@, i as int),
{
    if !(i < s.len()) {
        return None;
    }
    let a = s[i];
    if i + 1 < s.len() {
        let b = s[i + 1];
        let two = if a == '!' && b == '!' {
            Some(Conditional::StrongBlocker)
        } else if a == '!' && b == '<' {
            Some(Conditional::BlockLess)
        } else if a == '!' && b == '>' {
            Some(Conditional::BlockGreater)
        } else if a == '=' && b == '<' {
            Some(Conditional::LessOrEqual)
        } else if a == '=' && b == '>' {
            Some(Conditional::GreaterOrEqual)
        } else if a == '|' && b == '|' {
            Some(Conditional::Or)
        } else {
            None
        };
        if let Some(c) = two {
            return Some(Lexeme { kind: TokenKind::Conditional(c), start: i, end: i + 2 });
        }
    }
    let one = if a == '!' {
        Some(Conditional::WeakBlocker)
    } else if a == '<' {
        Some(Conditional::Less)
    } else if a == '=' {
        Some(Conditional::Equal)
    } else if a == '>' {
        Some(Conditional::Greater)
    } else if a == '?' {
        Some(Conditional::If)
    } else {
        None
    };
    match one {
        Some(c) => Some(Lexeme { kind: TokenKind::Conditional(c), start: i, end: i + 1 }),
        None => None,
    }
}

fn match_bracket(s: &[char], i: usize) -> (r: Option<Lexeme>)
    requires
        i <= s.len(),
    ensures
        span_of(r) == bracket_at(s@, i as int),
{
    if !(i < s.len()) {
        None
    } else if s[i] == '(' {
        Some(Lexeme { kind: TokenKind::Bracket(Brackets::Open), start: i, end: i + 1 })
    } else if s[i] == ')' {
        Some(Lexeme { kind: TokenKind::Bracket(Brackets::Close), start: i, end: i + 1 })
    } else {
        None
    }
}

fn lexeme(kind: TokenKind, start: usize, end: Option<usize>) -> (r: Option<Lexeme>)
    ensures
        span_of(r) == found(kind, start as int, position(end)),
{
    match end {
        Some(e) => Some(Lexeme { kind, start, end: e }),
        None => None,
    }
}

fn pick_longer(first: Option<Lexeme>, second: Option<Lexeme>) -> (r: Option<Lexeme>)
    ensures
        span_of(r) == longer(span_of(first), span_of(second)),
{
    match (first, second) {
        (Some(a), Some(b)) => if b.end > a.end {
            second
        } else {
            first
        },
        (Some(_), None) => first,
        (None, _) => second,
    }
}

/// The token that starts at `i`.
pub(crate) fn next_token(s: &[char], i: usize) -> (r: Option<Lexeme>)
    requires
        i <= s.len(),
    ensures
        span_of(r) == token_at(s@, i as int),
{
    let name = lexeme(TokenKind::PackageName, i, match_package_name(s, i));
    let slot = lexeme(TokenKind::PackageSlot, i, match_slot(s, i));
    let group = lexeme(TokenKind::PackageUseGroup, i, match_use_group(s, i));
    let flag = lexeme(TokenKind::UseFlag, i, match_use_flag(s, i));
    let operator = match_operator(s, i);
    let bracket = match_bracket(s, i);
    pick_longer(
        name,
        pick_longer(slot, pick_longer(group, pick_longer(flag, pick_longer(operator, bracket)))),
    )
}

/// `spans`, then what `rest` holds; the failure of `rest`, if it is one.
pub open spec fn followed_by(spans: Seq<Span>, rest: Result<Seq<Span>, int>) -> Result<
    Seq<Span>,
    int,
> {
    match rest {
        Ok(more) => Ok(spans + more),
        Err(at) => Err(at),
    }
}

/// The spans of the tokens of `s`, or the position at which lexing fails.
pub(crate) fn scan(s: &[char]) -> (r: Result<Vec<Lexeme>, usize>)
    ensures
        match r {
            Ok(lexemes) => tokens(s@) == Ok::<Seq<Span>, int>(spans_of(lexemes@)),
            Err(at) => tokens(s@) == Err::<Seq<Span>, int>(at as int),
        },
{
    let mut lexemes: Vec<Lexeme> = Vec::new();
    let mut i: usize = 0;
    loop
        invariant
            i <= s.len(),
            tokens(s@) == followed_by(spans_of(lexemes@), tokens_from(s@, i as int)),
        decreases s.len() - i,
    {
        let start = scan_run(s, i, CharClass::Blank);
        if start >= s.len() {
            proof {
                assert(spans_of(lexemes@) + Seq::<Span>::empty() =~= spans_of(lexemes@));
            }
            return Ok(lexemes);
        }
        match next_token(s, start) {
            None => {
                return Err(start);
            },
            Some(t) => {
                let ghost before = spans_of(lexemes@);
                proof {
                    lemma_token_at(s@, start as int);
                }
                lexemes.push(t);
                proof {
                    assert(spans_of(lexemes@) =~= before + seq![t@]);
                    match tokens_from(s@, t.end as int) {
                        Ok(rest) => {
                            assert(before + (seq![t@] + rest) =~= spans_of(lexemes@) + rest);
                        },
                        Err(_) => {},
                    }
                }
                i = t.end;
            },
        }
    }
}

/// Every token lies inside the text and is not empty, and each starts where
/// the one before it has ended, or later.
pub proof fn lemma_tokens_in_order(s: Seq<char>, i: int)
    requires
        0 <= i <= s.len(),
    ensures
        tokens_from(s, i) matches Ok(spans) ==> {
            &&& forall|k: int|
                0 <= k < spans.len() ==> i <= (#[trigger] spans[k]).start < spans[k].end
                    <= s.len()
            &&& forall|j: int, k: int|
                0 <= j < k < spans.len() ==> (#[trigger] spans[j]).end <= (
                #[trigger] spans[k]).start
            &&& forall|k: int|
                0 <= k < spans.len() ==> token_at(s, (#[trigger] spans[k]).start) == Some(
                    spans[k],
                )
        },
    decreases s.len() - i,
{
    lemma_run_end(s, i, CharClass::Blank);
    let start = run_end(s, i, CharClass::Blank);
    if start < s.len() {
        lemma_token_at(s, start);
        match token_at(s, start) {
            Some(t) => {
                lemma_tokens_in_order(s, t.end);
                match tokens_from(s, t.end) {
                    Ok(rest) => {
                        let spans = seq![t] + rest;
                        assert forall|k: int| 0 <= k < spans.len() implies i <= (
                        #[trigger] spans[k]).start < spans[k].end <= s.len() && token_at(
                            s,
                            spans[k].start,
                        ) == Some(spans[k]) by {
                            if k > 0 {
                                assert(spans[k] == rest[k - 1]);
                            }
                        }
                        assert forall|j: int, k: int| 0 <= j < k < spans.len() implies (
                        #[trigger] spans[j]).end <= (#[trigger] spans[k]).start by {
                            assert(spans[k] == rest[k - 1]);
                            if j > 0 {
                                assert(spans[j] == rest[j - 1]);
                            }
                        }
                    },
                    Err(_) => {},
                }
            },
            None => {},
        }
    }
}

/// Cuts a dependency expression into its tokens.
///
/// Fails with `LexError` at the first character that is no blank and with
/// which no token begins.
pub fn tokenize(text: &str) -> (r: Result<Vec<Token>, Error>)
    ensures
        match tokens(text@) {
            Ok(spans) => r matches Ok(list) && token_views(list@) == tokens_of(text@, spans),
            Err(at) => r matches Err(e) && e@ == Failure::LexError(at),
        },
{
    let chars = to_chars(text);
    let lexemes = match scan(chars.as_slice()) {
        Ok(lexemes) => lexemes,
        Err(at) => {
            return Err(Error::LexError(at));
        },
    };
    proof {
        lemma_tokens_in_order(text@, 0);
    }
    let ghost spans = spans_of(lexemes@);
    let mut list: Vec<Token> = Vec::new();
    let mut k: usize = 0;
    while k < lexemes.len()
        invariant
            chars@ == text@,
            k <= lexemes.len(),
            spans == spans_of(lexemes@),
            forall|j: int|
                0 <= j < spans.len() ==> 0 <= (#[trigger] spans[j]).start < spans[j].end
                    <= text@.len(),
            forall|j: int|
                0 <= j < spans.len() ==> token_at(text@, (#[trigger] spans[j]).start) == Some(
                    spans[j],
                ),
            list.len() == k,
            forall|j: int| 0 <= j < k ==> (#[trigger] list[j])@ == token_of(text@, spans[j]),
        decreases lexemes.len() - k,
    {
        let t = lexemes[k];
        assert(t@ == spans[k as int]);
        let token = match t.kind {
            TokenKind::PackageName => Token::PackageName(cut(text, t.start, t.end)),
            TokenKind::PackageSlot => {
                proof {
                    lemma_slot_shape(text@, t.start as int);
                }
                Token::PackageSlot(cut(text, t.start + 1, t.end))
            },
            TokenKind::PackageUseGroup => {
                proof {
                    lemma_use_group_shape(text@, t.start as int);
                }
                let inside = cut(text, t.start + 1, t.end - 1);
                Token::PackageUseGroup(split_text(inside.as_str(), ','))
            },
            TokenKind::UseFlag => Token::UseFlag(cut(text, t.start, t.end)),
            TokenKind::Conditional(c) => Token::Conditional(c),
            TokenKind::Bracket(b) => Token::Bracket(b),
        };
        list.push(token);
        k = k + 1;
    }
    proof {
        assert(token_views(list@) =~= tokens_of(text@, spans));
    }
    Ok(list)
}

/// A token that is a slot selector is at least two characters long.
pub proof fn lemma_slot_shape(s: Seq<char>, i: int)
    requires
        0 <= i <= s.len(),
    ensures
        token_at(s, i) matches Some(t) ==> t.kind == TokenKind::PackageSlot ==> i + 2 <= t.end,
{
    lemma_token_at(s, i);
    if i < s.len() {
        lemma_run_end(s, i + 1, CharClass::WordDot);
        let slot = run_end(s, i + 1, CharClass::WordDot);
        if slot < s.len() {
            lemma_run_end(s, slot + 1, CharClass::WordDot);
        }
    }
}

/// A token that is a USE group is at least three characters long.
pub proof fn lemma_use_group_shape(s: Seq<char>, i: int)
    requires
        0 <= i <= s.len(),
    ensures
        token_at(s, i) matches Some(t) ==> t.kind == TokenKind::PackageUseGroup ==> i + 3
            <= t.end,
{
    lemma_token_at(s, i);
    if i < s.len() {
        lemma_run_end(s, i + 1, CharClass::UseGroup);
    }
}

} // verus!
