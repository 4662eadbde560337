use emerge::text::{split_text, split_words, to_chars, CharClass};

fn s(text: &str) -> String {
    String::from(text)
}

#[test]
fn characters_come_in_order() {
    assert_eq!(to_chars(""), Vec::<char>::new());
    assert_eq!(to_chars("a\u{e9}b"), vec!['a', '\u{e9}', 'b']);
}

#[test]
fn separators_cut_the_text() {
    assert_eq!(split_text("a,b", ','), vec![s("a"), s("b")]);
    assert_eq!(split_text("", ','), vec![s("")]);
    assert_eq!(split_text(",", ','), vec![s(""), s("")]);
    assert_eq!(split_text("a,,b,", ','), vec![s("a"), s(""), s("b"), s("")]);
    assert_eq!(split_text("a b", ','), vec![s("a b")]);
    for text in ["", ",", "a,b", ",,x,", "abc", "\u{e9},\u{e9}"] {
        let expected: Vec<String> = text.split(',').map(String::from).collect();
        assert_eq!(split_text(text, ','), expected, "{:?}", text);
    }
}

#[test]
fn words_are_what_white_space_leaves() {
    assert_eq!(split_words("amd64 ~x86"), vec![s("amd64"), s("~x86")]);
    assert_eq!(split_words(""), Vec::<String>::new());
    assert_eq!(split_words(" \t\r\n\x0C"), Vec::<String>::new());
    for text in ["a", " a", "a ", "  a \t b\nc\r\nd\x0Ce  ", "\u{a0}x y", "x\u{b}y"] {
        let expected: Vec<String> = text.split_ascii_whitespace().map(String::from).collect();
        assert_eq!(split_words(text), expected, "{:?}", text);
    }
}

#[test]
fn classes_hold_their_characters() {
    let members = |class: CharClass| -> String {
        (0u8..128).map(char::from).filter(|c| class.has(*c)).collect()
    };
    let word = "0123456789ABCDEFGHIJKLMNOPQRSTUVWXYZ_abcdefghijklmnopqrstuvwxyz";
    assert_eq!(members(CharClass::Word), word);
    assert_eq!(members(CharClass::Digit), "0123456789");
    assert_eq!(members(CharClass::Lower), "abcdefghijklmnopqrstuvwxyz");
    assert_eq!(members(CharClass::WordDash), format!("-{}", word));
    assert_eq!(members(CharClass::PackageTail), format!("+,-.{}", word));
    assert_eq!(members(CharClass::WordDot), format!(".{}", word));
    assert_eq!(members(CharClass::AtomTail), format!("+-.{}", word));
    assert_eq!(members(CharClass::WordPlus), format!("+{}", word));
    assert_eq!(
        members(CharClass::UseGroup),
        " !()+,-./0123456789:;<=?ABCDEFGHIJKLMNOPQRSTUVWXYZ_abcdefghijklmnopqrstuvwxyz"
    );
    assert_eq!(members(CharClass::Blank), "\t\n\x0C ");
    assert_eq!(members(CharClass::Space), "\t\n\x0C\r ");
    assert_eq!(members(CharClass::Only('x')), "x");
    assert!(!CharClass::Except('x').has('x'));
    assert!(CharClass::Except('x').has('y'));
    assert!(CharClass::NonSpace.has('x'));
    assert!(!CharClass::NonSpace.has(' '));
    assert!(!CharClass::Word.has('\u{e9}'));
}
