use emerge::data::{Brackets, Conditional};
use emerge::data::EbuildInfo;
use emerge::ebuild_utils::{get_package_name_re, load_ebuild, parse_depends, parse_package_name};
use emerge::error::Error;
use emerge::lexer::{tokenize, Token};
use regex::Regex;

/// Every text over `alphabet` of at most `length` characters.
fn texts_up_to(alphabet: &[char], length: usize) -> Vec<String> {
    let mut all = vec![String::new()];
    let mut last = vec![String::new()];
    for _ in 0..length {
        let mut next = Vec::new();
        for text in &last {
            for c in alphabet {
                let mut longer = text.clone();
                longer.push(*c);
                next.push(longer);
            }
        }
        all.extend(next.iter().cloned());
        last = next;
    }
    all
}

/// `count` texts over `alphabet` of at most `length` characters, always the same ones.
fn sample_texts(alphabet: &[char], length: usize, count: usize) -> Vec<String> {
    let mut state: u64 = 0x2545_f491_4f6c_dd1d;
    let mut step = move || {
        state ^= state << 13;
        state ^= state >> 7;
        state ^= state << 17;
        state
    };
    let mut all = Vec::new();
    for _ in 0..count {
        let n = (step() % (length as u64 + 1)) as usize;
        let mut text = String::new();
        for _ in 0..n {
            text.push(alphabet[(step() % alphabet.len() as u64) as usize]);
        }
        all.push(text);
    }
    all
}

fn same_as_pattern(pattern: &Regex, text: &str) {
    let parsed = parse_package_name(text);
    match pattern.captures(text) {
        None => assert_eq!(parsed, Err(Error::InvalidAtomSyntax(String::from(text))), "{:?}", text),
        Some(found) => {
            let part = |name: &str| found.name(name).map(|m| String::from(m.as_str()));
            let info = parsed.unwrap();
            assert_eq!(info.category, part("cat"), "{:?}", text);
            assert_eq!(info.name, part("name"), "{:?}", text);
            assert_eq!(info.version, part("ver"), "{:?}", text);
            assert_eq!(info.revision, part("rev"), "{:?}", text);
            assert_eq!(info.slot, part("slot").or(Some(String::from("0"))), "{:?}", text);
        }
    }
}

const ATOM_ALPHABET: [char; 11] = ['a', 'r', 'p', '1', '.', '-', '_', '/', ':', '+', 'e'];

#[test]
fn atom_parser_agrees_with_its_pattern_on_short_texts() {
    let pattern = Regex::new(&get_package_name_re()).unwrap();
    for text in texts_up_to(&ATOM_ALPHABET, 4) {
        same_as_pattern(&pattern, &text);
    }
}

#[test]
fn atom_parser_agrees_with_its_pattern_on_longer_texts() {
    let pattern = Regex::new(&get_package_name_re()).unwrap();
    for text in sample_texts(&ATOM_ALPHABET, 14, 4000) {
        same_as_pattern(&pattern, &text);
    }
    for text in sample_texts(&['a', '1', '.', '-', 'r', '_', 'p'], 12, 4000) {
        same_as_pattern(&pattern, &text);
        same_as_pattern(&pattern, &format!("c/{}:s", text));
    }
}

#[test]
fn atom_parser_agrees_with_its_pattern_on_atoms() {
    let pattern = Regex::new(&get_package_name_re()).unwrap();
    for text in [
        "cat/name-1.2.3-r4:slot1",
        "name",
        "sys-devel/gcc-9.3.0-r1:9.3.0",
        "dev-lang/python-3.8.5_rc1_p2:3.8",
        "x11-libs/gtk+-2.24.32-r1:2",
        "dev-libs/libxml2-2.9.10-r3",
        "app-misc/foo-1a_alpha_beta1_pre_p_rc10",
        "foo-1-r1-r2",
        "foo-1.2.3_",
        "foo-1.2.3_prex",
        "foo-r1",
        "FOO_bar.baz+x-0.1",
        "\u{e9}t\u{e9}/name",
        "cat/n\u{e4}me-1",
    ] {
        same_as_pattern(&pattern, text);
    }
}

/// A lexer made of one pattern per kind of token: the longest match wins,
/// the earlier pattern where two are equally long.
struct Reference {
    blank: Regex,
    patterns: Vec<Regex>,
}

impl Reference {
    fn new() -> Reference {
        let word = "A-Za-z0-9_";
        let sources = [
            format!("^[{word}-]+/[{word}+,.-]+"),
            format!("^:[{word}.]+(/[{word}.]+)?[=*]?"),
            format!(r"^\[[{word},+-=!?() ]+\]"),
            format!("^[{word}]+"),
            String::from(r"^(!!|!<|!>|=<|=>|\|\||!|<|=|>|\?)"),
            String::from(r"^[()]"),
        ];
        Reference {
            blank: Regex::new("^[ \t\n\x0C]+").unwrap(),
            patterns: sources.iter().map(|s| Regex::new(s).unwrap()).collect(),
        }
    }

    fn token(kind: usize, text: &str) -> Token {
        let owned = String::from(text);
        match kind {
            0 => Token::PackageName(owned),
            1 => Token::PackageSlot(String::from(&text[1..])),
            2 => Token::PackageUseGroup(
                text[1..text.len() - 1].split(',').map(String::from).collect(),
            ),
            3 => Token::UseFlag(owned),
            4 => Token::Conditional(match text {
                "!" => Conditional::WeakBlocker,
                "!!" => Conditional::StrongBlocker,
                "!<" => Conditional::BlockLess,
                "!>" => Conditional::BlockGreater,
                "<" => Conditional::Less,
                "=" => Conditional::Equal,
                ">" => Conditional::Greater,
                "=<" => Conditional::LessOrEqual,
                "=>" => Conditional::GreaterOrEqual,
                "||" => Conditional::Or,
                _ => Conditional::If,
            }),
            _ => Token::Bracket(if text == "(" { Brackets::Open } else { Brackets::Close }),
        }
    }

    fn tokenize(&self, text: &str) -> Result<Vec<Token>, Error> {
        let mut tokens = Vec::new();
        let mut at = 0;
        loop {
            if let Some(blank) = self.blank.find(&text[at..]) {
                at += blank.end();
            }
            if at == text.len() {
                return Ok(tokens);
            }
            let mut best: Option<(usize, usize)> = None;
            for (kind, pattern) in self.patterns.iter().enumerate() {
                if let Some(found) = pattern.find(&text[at..]) {
                    if best.map_or(true, |(_, end)| found.end() > end) {
                        best = Some((kind, found.end()));
                    }
                }
            }
            match best {
                None => return Err(Error::LexError(at)),
                Some((kind, end)) => {
                    tokens.push(Reference::token(kind, &text[at..at + end]));
                    at += end;
                }
            }
        }
    }
}

const LEXER_ALPHABET: [char; 24] = [
    'a', '1', '_', '-', '/', ':', '.', '[', ']', ',', '=', '*', '!', '<', '>', '|', '?', '(', ')',
    ' ', '+', '~', '\n', ';',
];

#[test]
fn lexer_agrees_with_its_patterns_on_short_texts() {
    let reference = Reference::new();
    for text in texts_up_to(&LEXER_ALPHABET, 3) {
        assert_eq!(tokenize(&text), reference.tokenize(&text), "{:?}", text);
    }
}

#[test]
fn lexer_agrees_with_its_patterns_on_longer_texts() {
    let reference = Reference::new();
    for text in sample_texts(&LEXER_ALPHABET, 16, 4000) {
        assert_eq!(tokenize(&text), reference.tokenize(&text), "{:?}", text);
    }
    let friendly = ['a', 'b', '/', '-', ' ', ':', '1', '[', ']', ',', '(', ')', '?', '!', '='];
    for text in sample_texts(&friendly, 24, 4000) {
        assert_eq!(tokenize(&text), reference.tokenize(&text), "{:?}", text);
    }
}

#[test]
fn lexer_agrees_with_its_patterns_on_expressions() {
    let reference = Reference::new();
    for text in [
        "dev-libs/openssl:0= ssl? ( !dev-libs/libressl ) || ( sys-libs/zlib[static-libs(+)] x11/y )",
        ">=sys-apps/portage-2.3.103 <dev-lang/python-3.9:3.8/3.8m*",
        "a/b:1/2/3 c/d:== [a][b] e",
        "!!<a/b-1 !>c/d =<e/f =>g/h",
    ] {
        assert_eq!(tokenize(text), reference.tokenize(text), "{:?}", text);
    }
}

/// A reader of metadata files made of one pattern per field.
struct Fields {
    eapi: Regex,
    slot: Regex,
    keywords: Regex,
    depend: Regex,
    iuse: Regex,
}

impl Fields {
    fn new() -> Fields {
        Fields {
            eapi: Regex::new("EAPI=\"*([0-9]*)").unwrap(),
            slot: Regex::new("SLOT=\"([A-Za-z0-9_]*)(/([A-Za-z0-9_]*))?\"").unwrap(),
            keywords: Regex::new("KEYWORDS=\"([^\"]*)\"").unwrap(),
            depend: Regex::new("(?m)^DEPEND=\"([^\"]*)\"").unwrap(),
            iuse: Regex::new("IUSE=\"([^\"]*)\"").unwrap(),
        }
    }

    fn words(pattern: &Regex, text: &str) -> Vec<String> {
        match pattern.captures(text) {
            Some(found) => found[1].split_ascii_whitespace().map(String::from).collect(),
            None => Vec::new(),
        }
    }

    fn read(&self, name: &str, text: &str) -> Result<EbuildInfo, Error> {
        let eapi = match self.eapi.captures(text) {
            None => return Err(Error::MissingEapi(String::from(name))),
            Some(found) => match found[1].trim_start_matches('0').parse::<u8>() {
                Ok(eapi) if (5..=7).contains(&eapi) => eapi,
                _ => return Err(Error::UnsupportedEapi(String::from(name))),
            },
        };
        let depends = match self.depend.captures(text) {
            Some(found) => parse_depends(&found[1])?,
            None => Vec::new(),
        };
        let (slot, subslot) = match self.slot.captures(text) {
            Some(found) => (String::from(&found[1]), found.get(3).map(|m| String::from(m.as_str()))),
            None => (String::from("0"), None),
        };
        Ok(EbuildInfo {
            eapi,
            slot: Some(slot),
            subslot,
            keywords: Fields::words(&self.keywords, text),
            depends,
            ises: Fields::words(&self.iuse, text),
        })
    }
}

/// `count` texts made of at most `length` of the `pieces`, always the same ones.
fn sample_pieces(pieces: &[&str], length: usize, count: usize) -> Vec<String> {
    let alphabet: Vec<char> = (0..pieces.len() as u32).map(|i| char::from_u32(0x100 + i).unwrap()).collect();
    sample_texts(&alphabet, length, count)
        .iter()
        .map(|text| text.chars().map(|c| pieces[c as usize - 0x100]).collect())
        .collect()
}

#[test]
fn metadata_reader_agrees_with_its_patterns() {
    let fields = Fields::new();
    let pieces = [
        "EAPI=", "EAPI=\"", "SLOT=\"", "KEYWORDS=\"", "DEPEND=\"", "IUSE=\"", "\"", "\n", " ",
        "\t", "/", "5", "6", "7", "0", "1", "a", "b/c", "x11/y-1.0", "~", "R", "_", ".", "amd64",
        "\r", ">=",
    ];
    for text in sample_pieces(&pieces, 12, 20000) {
        assert_eq!(load_ebuild("f", &text), fields.read("f", &text), "{:?}", text);
    }
}

#[test]
fn metadata_reader_agrees_with_its_patterns_on_files() {
    let fields = Fields::new();
    for text in [
        "# Copyright\nEAPI=7\n\nDESCRIPTION=\"x\"\nSLOT=\"0/2\"\nKEYWORDS=\"~amd64 x86\"\nIUSE=\"+a -b c\"\n\nRDEPEND=\"q/r\"\nDEPEND=\"a/b\n\tc/d:2\n\tssl? ( e/f )\"\n",
        "EAPI=\"6\"\r\nSLOT=\"1\"\r\nKEYWORDS=\"a\r\nb\"\r\n",
        "BDEPEND=\"a/b\"\nDEPEND=\"c/d\"\nEAPI=5",
        "SLOT=\"a.b\"SLOT=\"c/d\"SLOT=\"e\"EAPI=\"\"\"5",
        "EAPI=5 EAPI=9",
        "EAPI=9 EAPI=5",
        "XEAPI=00000000000000000000007x",
        "EAPI=256",
        "EAPI=7\nDEPEND=\"a/b",
        "EAPI=7\nDEPEND=\"a/b ~\"",
    ] {
        assert_eq!(load_ebuild("f", text), fields.read("f", text), "{:?}", text);
    }
}
