use emerge::data::{Brackets, Conditional};
use emerge::ebuild_utils::parse_depends;
use emerge::error::Error;
use emerge::lexer::{tokenize, Token};

fn s(text: &str) -> String {
    String::from(text)
}

#[test]
fn package_names_come_in_source_order() {
    let names = parse_depends("dev-libs/b  sys-apps/a\n\tapp/c").unwrap();
    assert_eq!(names, vec![s("dev-libs/b"), s("sys-apps/a"), s("app/c")]);
}

#[test]
fn empty_expression_has_no_names() {
    assert_eq!(parse_depends("").unwrap(), Vec::<String>::new());
    assert_eq!(parse_depends(" \t\n\x0C").unwrap(), Vec::<String>::new());
}

#[test]
fn every_kind_of_token_is_recognised() {
    let tokens = tokenize("!!<app/foo-1.2:0/1= ssl? ( || ( lib/a[x,-y] lib/b ) )").unwrap();
    assert_eq!(
        tokens,
        vec![
            Token::Conditional(Conditional::StrongBlocker),
            Token::Conditional(Conditional::Less),
            Token::PackageName(s("app/foo-1.2")),
            Token::PackageSlot(s("0/1=")),
            Token::UseFlag(s("ssl")),
            Token::Conditional(Conditional::If),
            Token::Bracket(Brackets::Open),
            Token::Conditional(Conditional::Or),
            Token::Bracket(Brackets::Open),
            Token::PackageName(s("lib/a")),
            Token::PackageUseGroup(vec![s("x"), s("-y")]),
            Token::PackageName(s("lib/b")),
            Token::Bracket(Brackets::Close),
            Token::Bracket(Brackets::Close),
        ]
    );
}

#[test]
fn each_operator_maps_to_its_kind() {
    let cases = [
        ("!", Conditional::WeakBlocker),
        ("!!", Conditional::StrongBlocker),
        ("!<", Conditional::BlockLess),
        ("!>", Conditional::BlockGreater),
        ("<", Conditional::Less),
        ("=", Conditional::Equal),
        (">", Conditional::Greater),
        ("=<", Conditional::LessOrEqual),
        ("=>", Conditional::GreaterOrEqual),
        ("||", Conditional::Or),
        ("?", Conditional::If),
    ];
    for (text, kind) in cases {
        assert_eq!(tokenize(text).unwrap(), vec![Token::Conditional(kind)]);
    }
}

#[test]
fn the_longest_operator_wins() {
    assert_eq!(
        tokenize(">=").unwrap(),
        vec![Token::Conditional(Conditional::Greater), Token::Conditional(Conditional::Equal)]
    );
    assert_eq!(
        tokenize("!!!").unwrap(),
        vec![Token::Conditional(Conditional::StrongBlocker), Token::Conditional(Conditional::WeakBlocker)]
    );
}

#[test]
fn a_word_before_a_slash_is_a_package_name() {
    assert_eq!(tokenize("foo").unwrap(), vec![Token::UseFlag(s("foo"))]);
    assert_eq!(tokenize("foo/bar").unwrap(), vec![Token::PackageName(s("foo/bar"))]);
    assert_eq!(
        tokenize("a/b,c+d.e").unwrap(),
        vec![Token::PackageName(s("a/b,c+d.e"))]
    );
}

#[test]
fn slot_selector_takes_one_subslot_and_one_operator() {
    assert_eq!(tokenize(":1.2").unwrap(), vec![Token::PackageSlot(s("1.2"))]);
    assert_eq!(tokenize(":1/2*").unwrap(), vec![Token::PackageSlot(s("1/2*"))]);
    assert_eq!(
        tokenize(":1==").unwrap(),
        vec![Token::PackageSlot(s("1=")), Token::Conditional(Conditional::Equal)]
    );
}

#[test]
fn use_group_keeps_empty_pieces() {
    assert_eq!(
        tokenize("[a,,b]").unwrap(),
        vec![Token::PackageUseGroup(vec![s("a"), s(""), s("b")])]
    );
    assert_eq!(tokenize("[a]").unwrap(), vec![Token::PackageUseGroup(vec![s("a")])]);
}

#[test]
fn unknown_character_fails_at_its_position() {
    assert_eq!(tokenize("a/b ~ c/d"), Err(Error::LexError(4)));
    assert_eq!(parse_depends("a/b ~ c/d"), Err(Error::LexError(4)));
    assert_eq!(tokenize("foo-bar"), Err(Error::LexError(3)));
    assert_eq!(tokenize("|"), Err(Error::LexError(0)));
    assert_eq!(tokenize("[]"), Err(Error::LexError(0)));
    assert_eq!(tokenize("a/b \u{e9}"), Err(Error::LexError(4)));
}
