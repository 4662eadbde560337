//! From the text of atoms, dependency expressions and metadata files to the
//! records of a package.

use crate::atom::{atom, scan_leading, split_body, stretch_text};
use crate::data::{
    file_views, EbuildFile, EbuildFileView, EbuildInfo, PackageInfo, PackageNameInfo,
    PackageVersion, PackageView, VersionStatus, VersionType, VersionView,
};
use crate::error::{Error, Failure};
use crate::lexer::{
    lemma_package_names_push, lemma_tokens_in_order, package_names, scan, spans_of, tokens,
    TokenKind,
};
use crate::metadata::{
    declared_words, locate, locate_quoted, metadata, piece_view, read_slot, small_decimal, Field,
    Piece,
};
use crate::text::{
    cut, find_last, find_text, has_at, last_before, lemma_run_end, occurs, opt_text, run_end,
    scan_run, split_words, texts, to_chars, CharClass,
};
use vstd::prelude::*;
use vstd::slice::slice_subrange;
use vstd::string::StringExecFns;

verus! {

/// The package references of a dependency expression, in source order.
///
/// The expression is lexed as a whole: a character with which no token begins
/// fails the call with `LexError`, wherever it stands.
pub fn parse_depends(depends: &str) -> (r: Result<Vec<String>, Error>)
    ensures
        match tokens(depends@) {
            Ok(spans) => r matches Ok(names) && texts(names@) == package_names(depends@, spans),
            Err(at) => r matches Err(e) && e@ == Failure::LexError(at),
        },
{
    let chars = to_chars(depends);
    let lexemes = match scan(chars.as_slice()) {
        Ok(lexemes) => lexemes,
        Err(at) => {
            return Err(Error::LexError(at));
        },
    };
    proof {
        lemma_tokens_in_order(depends@, 0);
    }
    let ghost spans = spans_of(lexemes@);
    let mut names: Vec<String> = Vec::new();
    let mut k: usize = 0;
    proof {
        assert(spans.take(0) =~= Seq::empty());
        reveal(Seq::filter);
        assert(package_names(depends@, spans.take(0)) =~= Seq::<Seq<char>>::empty());
    }
    while k < lexemes.len()
        invariant
            k <= lexemes.len(),
            spans == spans_of(lexemes@),
            forall|j: int|
                0 <= j < spans.len() ==> 0 <= (#[trigger] spans[j]).start < spans[j].end
                    <= depends@.len(),
            texts(names@) == package_names(depends@, spans.take(k as int)),
        decreases lexemes.len() - k,
    {
        let t = lexemes[k];
        let ghost before = texts(names@);
        proof {
            assert(t@ == spans[k as int]);
            assert(spans.take(k + 1) =~= spans.take(k as int).push(t@));
            lemma_package_names_push(depends@, spans.take(k as int), t@);
        }
        match t.kind {
            TokenKind::PackageName => {
                names.push(cut(depends, t.start, t.end));
                proof {
                    assert(texts(names@) =~= before.push(
                        depends@.subrange(t.start as int, t.end as int),
                    ));
                }
            },
            _ => {},
        }
        k = k + 1;
    }
    proof {
        assert(spans.take(lexemes.len() as int) =~= spans);
    }
    Ok(names)
}

/// The words of a quoted field of `content`; none where it is not declared.
fn field_words(content: &str, chars: &[char], field: Field) -> (r: Vec<String>)
    requires
        chars@ == content@,
        field == Field::Keywords || field == Field::Iuse,
    ensures
        texts(r@) == declared_words(content@, field),
{
    match locate_quoted(chars, field) {
        Some(piece) => {
            let value = cut(content, piece.start, piece.end);
            split_words(value.as_str())
        },
        None => {
            let r: Vec<String> = Vec::new();
            proof {
                assert(texts(r@) =~= Seq::<Seq<char>>::empty());
            }
            r
        },
    }
}

/// Reads the fields of the metadata file `ebuild_name`, whose text is `content`.
///
/// The `EAPI` must be declared, as a number from 5 to 7. The other fields may
/// be missing: the slot is then `0`, the subslot absent, the lists empty.
pub fn load_ebuild(ebuild_name: &str, content: &str) -> (r: Result<EbuildInfo, Error>)
    ensures
        match metadata(content@) {
            Ok(m) => r matches Ok(info) && info.holds(m),
            Err(fault) => r matches Err(e) && e@ == fault.failure(ebuild_name@),
        },
{
    let chars = to_chars(content);
    let s = chars.as_slice();
    let at = match locate(s, Field::Eapi) {
        Some(at) => at,
        None => {
            return Err(Error::MissingEapi(String::from_str(ebuild_name)));
        },
    };
    let key = Field::Eapi.key_chars();
    assert(has_at(s@, at as int, Field::Eapi.key()));
    assert(at + key@.len() <= s.len());
    let open = scan_run(s, at + key.len(), CharClass::Only('"'));
    let close = scan_run(s, open, CharClass::Digit);
    proof {
        lemma_run_end(s@, open as int, CharClass::Digit);
    }
    if close == open {
        return Err(Error::UnsupportedEapi(String::from_str(ebuild_name)));
    }
    let eapi = small_decimal(s, open, close);
    if eapi < 5 || eapi > 7 {
        return Err(Error::UnsupportedEapi(String::from_str(ebuild_name)));
    }
    let depends = match locate_quoted(s, Field::Depend) {
        Some(piece) => {
            let value = cut(content, piece.start, piece.end);
            match parse_depends(value.as_str()) {
                Ok(names) => names,
                Err(e) => {
                    return Err(e);
                },
            }
        },
        None => {
            let names: Vec<String> = Vec::new();
            proof {
                assert(texts(names@) =~= Seq::<Seq<char>>::empty());
            }
            names
        },
    };
    let mut slot = String::from_str("0");
    let mut subslot: Option<String> = None;
    match locate(s, Field::Slot) {
        Some(at) => {
            let key = Field::Slot.key_chars();
            assert(has_at(s@, at as int, Field::Slot.key()));
            assert(at + key@.len() <= s.len());
            proof {
                lemma_run_end(s@, at + key@.len(), CharClass::Word);
                let inner = run_end(s@, at + key@.len(), CharClass::Word);
                if inner < s.len() {
                    lemma_run_end(s@, inner + 1, CharClass::Word);
                }
            }
            match read_slot(s, at + key.len()) {
                Some(pieces) => {
                    slot = cut(content, pieces.slot.start, pieces.slot.end);
                    match pieces.subslot {
                        Some(sub) => {
                            subslot = Some(cut(content, sub.start, sub.end));
                        },
                        None => {},
                    }
                },
                None => {},
            }
        },
        None => {},
    }
    let keywords = field_words(content, s, Field::Keywords);
    let ises = field_words(content, s, Field::Iuse);
    Ok(EbuildInfo { eapi, slot: Some(slot), subslot, keywords, depends, ises })
}

/// The grammar of atoms as a regular expression, for those who match with an
/// engine of their own. Its groups `cat`, `name`, `ver`, `rev` and `slot` are
/// the parts that `parse_package_name` hands out; the name is matched lazily.
pub open spec fn package_name_re() -> Seq<char> {
    let word = "[A-Za-z0-9_][A-Za-z0-9_+.-]*"@;
    let slot = "[A-Za-z0-9_+][A-Za-z0-9_+.-]*"@;
    let version = "[0-9]+(\\.[0-9]+)*[a-z]?(_(pre|p|beta|alpha|rc)[0-9]*)*"@;
    "^((?P<cat>"@ + word + ")/)?(?P<name>"@ + word + "?)(-(?P<ver>"@ + version
        + ")(-r(?P<rev>[0-9]+))?)?(:(?P<slot>"@ + slot + "))?$"@
}

/// Writes the grammar of atoms as a regular expression.
pub fn get_package_name_re() -> (r: String)
    ensures
        r@ == package_name_re(),
{
    let word = "[A-Za-z0-9_][A-Za-z0-9_+.-]*";
    let slot = "[A-Za-z0-9_+][A-Za-z0-9_+.-]*";
    let version = "[0-9]+(\\.[0-9]+)*[a-z]?(_(pre|p|beta|alpha|rc)[0-9]*)*";
    String::from_str("^((?P<cat>").concat(word).concat(")/)?(?P<name>").concat(word).concat(
        "?)(-(?P<ver>",
    ).concat(version).concat(")(-r(?P<rev>[0-9]+))?)?(:(?P<slot>").concat(slot).concat("))?$")
}

/// The characters of the piece `p` of a part of `text` that starts at `offset`.
fn cut_piece(text: &str, offset: usize, p: Option<Piece>, end: usize) -> (r: Option<String>)
    requires
        offset <= end <= text@.len(),
        p matches Some(p) ==> p.start <= p.end <= end - offset,
    ensures
        opt_text(r) == stretch_text(
            text@.subrange(offset as int, end as int),
            piece_view(p),
        ),
{
    match p {
        Some(p) => {
            proof {
                assert(text@.subrange(offset as int, end as int).subrange(
                    p.start as int,
                    p.end as int,
                )
                    =~= text@.subrange(offset + p.start, offset + p.end));
            }
            Some(cut(text, offset + p.start, offset + p.end))
        },
        None => None,
    }
}

/// Takes a package atom apart.
///
/// Fails with `InvalidAtomSyntax` where the text is no atom. The slot of an
/// atom that names none is `0`.
pub fn parse_package_name(package_name: &str) -> (r: Result<PackageNameInfo, Error>)
    ensures
        match atom(package_name@) {
            Some(a) => r matches Ok(info) && info.holds(a),
            None => r matches Err(e) && e@ == Failure::InvalidAtomSyntax(package_name@),
        },
{
    let chars = to_chars(package_name);
    let s = chars.as_slice();
    let slash = scan_run(s, 0, CharClass::Except('/'));
    let start = if slash < s.len() {
        slash + 1
    } else {
        0
    };
    let colon = scan_run(s, start, CharClass::Except(':'));
    if slash < s.len() {
        let category = slice_subrange(s, 0, slash);
        if !(slash > 0 && scan_leading(category, CharClass::Word, CharClass::AtomTail) == slash) {
            return Err(Error::InvalidAtomSyntax(String::from_str(package_name)));
        }
    }
    if colon < s.len() {
        let slot = slice_subrange(s, colon + 1, s.len());
        if !(slot.len() > 0 && scan_leading(slot, CharClass::WordPlus, CharClass::AtomTail)
            == slot.len()) {
            return Err(Error::InvalidAtomSyntax(String::from_str(package_name)));
        }
    }
    let inner = slice_subrange(s, start, colon);
    let b = match split_body(inner) {
        Some(b) => b,
        None => {
            return Err(Error::InvalidAtomSyntax(String::from_str(package_name)));
        },
    };
    proof {
        assert(inner@.subrange(0, b.name_end as int) =~= package_name@.subrange(
            start as int,
            start + b.name_end,
        ));
    }
    let category = if slash < s.len() {
        Some(cut(package_name, 0, slash))
    } else {
        None
    };
    let slot = if colon < s.len() {
        cut(package_name, colon + 1, s.len())
    } else {
        String::from_str("0")
    };
    Ok(
        PackageNameInfo {
            category,
            name: Some(cut(package_name, start, start + b.name_end)),
            slot: Some(slot),
            version: cut_piece(package_name, start, b.version, colon),
            revision: cut_piece(package_name, start, b.revision, colon),
        },
    )
}

/// Decides the category of the short name `package_name` from the
/// categories that hold a package of that name.
///
/// Exactly one candidate is the category. None fails with
/// `NoMatchingEbuild`, more than one with `AmbiguousShortName`.
pub fn get_category(package_name: &str, candidates: Vec<String>) -> (r: Result<
    Option<String>,
    Error,
>)
    ensures
        match r {
            Ok(found) => {
                &&& candidates@.len() == 1
                &&& found matches Some(category)
                &&& category@ == candidates@[0]@
            },
            Err(e) => if candidates@.len() == 0 {
                e@ == Failure::NoMatchingEbuild(package_name@)
            } else {
                candidates@.len() > 1 && e@ == Failure::AmbiguousShortName(package_name@)
            },
        },
{
    let mut category_list = candidates;
    if category_list.len() == 0 {
        return Err(Error::NoMatchingEbuild(String::from_str(package_name)));
    } else if category_list.len() > 1 {
        return Err(Error::AmbiguousShortName(String::from_str(package_name)));
    }
    Ok(category_list.pop())
}

/// Whether a file of this name is a metadata file: `.ebuild` occurs in it.
pub open spec fn is_ebuild_name() -> spec_fn(Seq<char>) -> bool {
    |name: Seq<char>| occurs(name, ".ebuild"@)
}

/// Picks the metadata files among the files of a package's directory.
///
/// The atom must be resolved: it names its category and its name. Fails with
/// `NoMatchingEbuild` where no file is a metadata file.
pub fn get_ebuild_list(package_name_info: &PackageNameInfo, file_names: Vec<String>) -> (r: Result<
    Vec<String>,
    Error,
>)
    requires
        package_name_info.category is Some,
        package_name_info.name is Some,
    ensures
        match r {
            Ok(list) => texts(list@) == texts(file_names@).filter(is_ebuild_name())
                && list@.len() > 0,
            Err(e) => texts(file_names@).filter(is_ebuild_name()).len() == 0 && e@
                == Failure::NoMatchingEbuild(package_name_info.name->Some_0@),
        },
{
    let marker = to_chars(".ebuild");
    let mut ebuild_list: Vec<String> = Vec::new();
    let mut i: usize = 0;
    proof {
        reveal(Seq::filter);
        assert(texts(file_names@).take(0) =~= Seq::<Seq<char>>::empty());
        assert(texts(ebuild_list@) =~= Seq::<Seq<char>>::empty());
    }
    while i < file_names.len()
        invariant
            i <= file_names.len(),
            marker@ == ".ebuild"@,
            texts(ebuild_list@) == texts(file_names@).take(i as int).filter(is_ebuild_name()),
        decreases file_names.len() - i,
    {
        let file_name = &file_names[i];
        let chars = to_chars(file_name.as_str());
        let ghost before = texts(ebuild_list@);
        proof {
            reveal(Seq::filter);
            let front = texts(file_names@).take(i + 1);
            assert(front.drop_last() =~= texts(file_names@).take(i as int));
            assert(front.last() == file_name@);
        }
        if find_text(chars.as_slice(), marker.as_slice()) {
            ebuild_list.push(file_name.clone());
            proof {
                assert(texts(ebuild_list@) =~= before.push(file_name@));
            }
        }
        i = i + 1;
    }
    proof {
        assert(texts(file_names@).take(file_names.len() as int) =~= texts(file_names@));
    }
    if ebuild_list.len() == 0 {
        match &package_name_info.name {
            Some(name) => Err(Error::NoMatchingEbuild(name.clone())),
            None => Err(Error::NoMatchingEbuild(String::new())),
        }
    } else {
        Ok(ebuild_list)
    }
}

/// The name of a file without its extension: what stands before its last
/// dot, unless that dot is its first character.
pub open spec fn file_stem(name: Seq<char>) -> Seq<char> {
    let dot = last_before(name, '.', name.len() as int);
    if dot > 0 {
        name.subrange(0, dot)
    } else {
        name
    }
}

/// What the metadata file `file` says of its version.
///
/// A file that could not be read fails with the reader's message behind the
/// file's name. The version is the one that the file's name carries: a name
/// that is no atom, or an atom without version, fails with
/// `InvalidAtomSyntax`.
pub open spec fn version_of(file: EbuildFileView) -> Result<VersionView, Failure> {
    match file.content {
        Err(cause) => Err(Failure::Io("'"@ + file.name + "' - "@ + cause)),
        Ok(text) => match metadata(text) {
            Err(fault) => Err(fault.failure(file.name)),
            Ok(m) => match atom(file_stem(file.name)) {
                Some(a) => match a.version {
                    Some(version) => Ok(
                        VersionView { version, use_list: m.iuse, depends_list: m.depends },
                    ),
                    None => Err(Failure::InvalidAtomSyntax(file_stem(file.name))),
                },
                None => Err(Failure::InvalidAtomSyntax(file_stem(file.name))),
            },
        },
    }
}

/// The versions of the first `n` files, or the failure of the first file among them that fails.
pub open spec fn versions_of(files: Seq<EbuildFileView>, n: int) -> Result<
    Seq<VersionView>,
    Failure,
>
    decreases n,
{
    if n <= 0 || n > files.len() {
        Ok(Seq::empty())
    } else {
        match versions_of(files, n - 1) {
            Err(failure) => Err(failure),
            Ok(versions) => match version_of(files[n - 1]) {
                Err(failure) => Err(failure),
                Ok(version) => Ok(versions.push(version)),
            },
        }
    }
}

/// What the atom `package_name` and the metadata files `files` say of a package.
///
/// The atom gives name and slot, each file one version, in the order of the
/// files. The first thing that fails decides: the atom, then that there is no
/// file, then the files in their order.
pub open spec fn package_of(package_name: Seq<char>, files: Seq<EbuildFileView>) -> Result<
    PackageView,
    Failure,
> {
    match atom(package_name) {
        None => Err(Failure::InvalidAtomSyntax(package_name)),
        Some(a) => if files.len() == 0 {
            Err(Failure::NoMatchingEbuild(a.name))
        } else {
            match versions_of(files, files.len() as int) {
                Err(failure) => Err(failure),
                Ok(versions) => Ok(PackageView { name: a.name, slot: a.slot, versions }),
            }
        },
    }
}

/// Reads the version that one metadata file declares.
pub fn load_package_version(file: &EbuildFile) -> (r: Result<PackageVersion, Error>)
    ensures
        match version_of(file@) {
            Ok(v) => r matches Ok(version) && version.holds(v),
            Err(failure) => r matches Err(e) && e@ == failure,
        },
{
    let content = match &file.content {
        Ok(content) => content,
        Err(cause) => {
            let message = String::from_str("'").concat(file.name.as_str()).concat("' - ").concat(
                cause.as_str(),
            );
            return Err(Error::Io(message));
        },
    };
    let ebuild_info = match load_ebuild(file.name.as_str(), content.as_str()) {
        Ok(info) => info,
        Err(e) => {
            return Err(e);
        },
    };
    let chars = to_chars(file.name.as_str());
    let stem = match find_last(chars.as_slice(), '.') {
        Some(dot) => if dot > 0 {
            cut(file.name.as_str(), 0, dot)
        } else {
            file.name.clone()
        },
        None => file.name.clone(),
    };
    let ebuild_name_info = match parse_package_name(stem.as_str()) {
        Ok(info) => info,
        Err(e) => {
            return Err(e);
        },
    };
    match ebuild_name_info.version {
        Some(version) => Ok(
            PackageVersion {
                version,
                version_type: VersionType::Stable,
                version_status: VersionStatus::Unchanged,
                use_list: ebuild_info.ises,
                use_set_list: Vec::new(),
                depends_list: ebuild_info.depends,
            },
        ),
        None => Err(Error::InvalidAtomSyntax(stem)),
    }
}

/// Assembles what is known of the package `package_name` from its metadata
/// files, which the caller has listed and read.
pub fn load_package_info(package_name: &str, ebuilds: &Vec<EbuildFile>) -> (r: Result<
    PackageInfo,
    Error,
>)
    ensures
        match package_of(package_name@, file_views(ebuilds@)) {
            Ok(p) => r matches Ok(info) && info.holds(p),
            Err(failure) => r matches Err(e) && e@ == failure,
        },
{
    let package_name_info = match parse_package_name(package_name) {
        Ok(info) => info,
        Err(e) => {
            return Err(e);
        },
    };
    let name = match package_name_info.name {
        Some(name) => name,
        None => String::new(),
    };
    let slot = match package_name_info.slot {
        Some(slot) => slot,
        None => String::new(),
    };
    if ebuilds.len() == 0 {
        return Err(Error::NoMatchingEbuild(name));
    }
    let ghost files = file_views(ebuilds@);
    let mut version_list: Vec<PackageVersion> = Vec::new();
    let mut i: usize = 0;
    while i < ebuilds.len()
        invariant
            0 < ebuilds.len(),
            i <= ebuilds.len(),
            atom(package_name@) is Some,
            files == file_views(ebuilds@),
            versions_of(files, i as int) matches Ok(versions) && versions.len()
                == version_list@.len() && forall|k: int|
                0 <= k < versions.len() ==> (#[trigger] version_list@[k]).holds(versions[k]),
        decreases ebuilds.len() - i,
    {
        assert(files[i as int] == ebuilds@[i as int]@);
        match load_package_version(&ebuilds[i]) {
            Ok(version) => {
                version_list.push(version);
            },
            Err(e) => {
                proof {
                    assert(version_of(files[i as int]) == Err::<VersionView, Failure>(e@));
                    assert(versions_of(files, i + 1) == Err::<Seq<VersionView>, Failure>(e@));
                    lemma_first_failure(files, i + 1, files.len() as int);
                }
                return Err(e);
            },
        }
        i = i + 1;
    }
    Ok(
        PackageInfo {
            name,
            slot,
            subslot: None,
            installed_version: None,
            version_list,
            version_need_list: Vec::new(),
            use_need_list: Vec::new(),
        },
    )
}

/// A failure among the first `n` files is the failure of any longer list.
pub proof fn lemma_first_failure(files: Seq<EbuildFileView>, n: int, m: int)
    requires
        0 <= n <= m <= files.len(),
        versions_of(files, n) is Err,
    ensures
        versions_of(files, m) == versions_of(files, n),
    decreases m - n,
{
    if n < m {
        lemma_first_failure(files, n, m - 1);
    }
}

} // verus!
