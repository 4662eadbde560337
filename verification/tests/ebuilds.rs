use emerge::data::{EbuildFile, PackageNameInfo, VersionStatus, VersionType};
use emerge::ebuild_utils::{
    get_category, get_ebuild_list, load_ebuild, load_package_info, load_package_version,
};
use emerge::error::Error;

fn s(text: &str) -> String {
    String::from(text)
}

#[test]
fn all_fields_are_read() {
    let text = "# comment\nEAPI=\"7\"\nSLOT=\"2/3\"\nKEYWORDS=\"amd64 ~x86\n\tarm\"\nIUSE=\"ssl +zlib\"\nRDEPEND=\"x/y\"\nDEPEND=\"lib/bar\n\t>=lib/baz-1.0:2\"\n";
    let info = load_ebuild("foo-1.ebuild", text).unwrap();
    assert_eq!(info.eapi, 7);
    assert_eq!(info.slot, Some(s("2")));
    assert_eq!(info.subslot, Some(s("3")));
    assert_eq!(info.keywords, vec![s("amd64"), s("~x86"), s("arm")]);
    assert_eq!(info.ises, vec![s("ssl"), s("+zlib")]);
    assert_eq!(info.depends, vec![s("lib/bar"), s("lib/baz-1.0")]);
}

#[test]
fn missing_fields_take_their_defaults() {
    let info = load_ebuild("foo-1.ebuild", "EAPI=5").unwrap();
    assert_eq!(info.eapi, 5);
    assert_eq!(info.slot, Some(s("0")));
    assert_eq!(info.subslot, None);
    assert!(info.keywords.is_empty());
    assert!(info.depends.is_empty());
    assert!(info.ises.is_empty());
}

#[test]
fn eapi_must_be_declared() {
    assert_eq!(
        load_ebuild("foo-1.ebuild", "SLOT=\"0\"\n"),
        Err(Error::MissingEapi(s("foo-1.ebuild")))
    );
    assert_eq!(load_ebuild("f", ""), Err(Error::MissingEapi(s("f"))));
}

#[test]
fn eapi_outside_five_to_seven_is_unsupported() {
    for text in ["EAPI=\"9\"", "EAPI=4", "EAPI=8", "EAPI=\"70\"", "EAPI=\"abc\"", "EAPI=", "EAPI=99999999999999999999999", "EAPI=0"] {
        assert_eq!(load_ebuild("f", text), Err(Error::UnsupportedEapi(s("f"))), "{}", text);
    }
    for (text, eapi) in [("EAPI=5", 5), ("EAPI=\"6\"", 6), ("EAPI=\"\"7\"", 7), ("EAPI=007", 7)] {
        assert_eq!(load_ebuild("f", text).unwrap().eapi, eapi, "{}", text);
    }
}

#[test]
fn the_first_eapi_declaration_decides() {
    assert_eq!(
        load_ebuild("f", "# EAPI=x\nEAPI=7\n"),
        Err(Error::UnsupportedEapi(s("f")))
    );
}

#[test]
fn depend_is_read_at_the_start_of_a_line_only() {
    let info = load_ebuild("f", "EAPI=7\nRDEPEND=\"a/b\"\n").unwrap();
    assert!(info.depends.is_empty());
    let info = load_ebuild("f", "DEPEND=\"a/b\"\nEAPI=7\n").unwrap();
    assert_eq!(info.depends, vec![s("a/b")]);
    let info = load_ebuild("f", "EAPI=7\nDEPEND=\"\"\n").unwrap();
    assert!(info.depends.is_empty());
}

#[test]
fn depend_that_does_not_lex_fails_the_file() {
    assert_eq!(
        load_ebuild("f", "EAPI=7\nDEPEND=\"a/b ~c/d\"\n"),
        Err(Error::LexError(4))
    );
}

#[test]
fn slot_of_another_form_is_not_a_declaration() {
    let info = load_ebuild("f", "EAPI=7\nSLOT=\"0/1.2\"\n").unwrap();
    assert_eq!(info.slot, Some(s("0")));
    assert_eq!(info.subslot, None);
    let info = load_ebuild("f", "EAPI=7\nSLOT=\"a.b\"\nSLOT=\"5\"\n").unwrap();
    assert_eq!(info.slot, Some(s("5")));
    let info = load_ebuild("f", "EAPI=7\nSLOT=\"\"\n").unwrap();
    assert_eq!(info.slot, Some(s("")));
}

#[test]
fn unclosed_quote_is_no_declaration() {
    let info = load_ebuild("f", "EAPI=7\nIUSE=\"a b").unwrap();
    assert!(info.ises.is_empty());
}

#[test]
fn short_name_in_two_categories_is_ambiguous() {
    assert_eq!(
        get_category("foo", vec![s("app-a"), s("app-b")]),
        Err(Error::AmbiguousShortName(s("foo")))
    );
}

#[test]
fn short_name_in_no_category_has_no_ebuild() {
    assert_eq!(get_category("foo", vec![]), Err(Error::NoMatchingEbuild(s("foo"))));
}

#[test]
fn short_name_in_one_category_resolves() {
    assert_eq!(get_category("foo", vec![s("app-a")]), Ok(Some(s("app-a"))));
}

fn resolved(category: &str, name: &str) -> PackageNameInfo {
    PackageNameInfo {
        category: Some(s(category)),
        name: Some(s(name)),
        slot: Some(s("0")),
        version: None,
        revision: None,
    }
}

#[test]
fn only_ebuild_files_are_candidates() {
    let files = vec![s("ChangeLog"), s("foo-1.0.ebuild"), s("metadata.xml"), s("foo-1.1.ebuild.bak")];
    assert_eq!(
        get_ebuild_list(&resolved("app", "foo"), files),
        Ok(vec![s("foo-1.0.ebuild"), s("foo-1.1.ebuild.bak")])
    );
}

#[test]
fn directory_without_ebuilds_has_no_candidate() {
    assert_eq!(
        get_ebuild_list(&resolved("app", "foo"), vec![s("ChangeLog"), s("ebuild")]),
        Err(Error::NoMatchingEbuild(s("foo")))
    );
    assert_eq!(
        get_ebuild_list(&resolved("app", "foo"), vec![]),
        Err(Error::NoMatchingEbuild(s("foo")))
    );
}

fn file(name: &str, content: &str) -> EbuildFile {
    EbuildFile { name: s(name), content: Ok(s(content)) }
}

#[test]
fn version_comes_from_the_file_name() {
    let v = load_package_version(&file("foo-1.2.3-r1.ebuild", "EAPI=7\nIUSE=\"a\"\nDEPEND=\"x/y\"\n")).unwrap();
    assert_eq!(v.version, "1.2.3");
    assert_eq!(v.version_type, VersionType::Stable);
    assert_eq!(v.version_status, VersionStatus::Unchanged);
    assert_eq!(v.use_list, vec![s("a")]);
    assert!(v.use_set_list.is_empty());
    assert_eq!(v.depends_list, vec![s("x/y")]);
}

#[test]
fn file_name_without_version_is_refused() {
    assert_eq!(
        load_package_version(&file("foo.ebuild", "EAPI=7\n")),
        Err(Error::InvalidAtomSyntax(s("foo")))
    );
    assert_eq!(
        load_package_version(&file("fo o-1.ebuild", "EAPI=7\n")),
        Err(Error::InvalidAtomSyntax(s("fo o-1")))
    );
}

#[test]
fn unreadable_file_passes_the_cause_on() {
    let unreadable = EbuildFile { name: s("foo-1.ebuild"), content: Err(s("permission denied")) };
    assert_eq!(
        load_package_version(&unreadable),
        Err(Error::Io(s("'foo-1.ebuild' - permission denied")))
    );
}

#[test]
fn package_info_lists_one_version_per_file() {
    let files = vec![
        file("foo-1.0.ebuild", "EAPI=6\nDEPEND=\"lib/a\"\n"),
        file("foo-2.0.ebuild", "EAPI=7\nDEPEND=\"lib/a lib/b\"\nIUSE=\"x\"\n"),
    ];
    let info = load_package_info("app/foo:3", &files).unwrap();
    assert_eq!(info.name, "foo");
    assert_eq!(info.slot, "3");
    assert_eq!(info.subslot, None);
    assert_eq!(info.installed_version, None);
    assert_eq!(info.version_list.len(), 2);
    assert_eq!(info.version_list[0].version, "1.0");
    assert_eq!(info.version_list[0].depends_list, vec![s("lib/a")]);
    assert_eq!(info.version_list[1].version, "2.0");
    assert_eq!(info.version_list[1].depends_list, vec![s("lib/a"), s("lib/b")]);
    assert_eq!(info.version_list[1].use_list, vec![s("x")]);
    assert!(info.version_need_list.is_empty());
    assert!(info.use_need_list.is_empty());
}

#[test]
fn package_info_fails_with_the_first_failure() {
    let files = vec![
        file("foo-1.0.ebuild", "EAPI=6\n"),
        file("foo-2.0.ebuild", "EAPI=9\n"),
        file("foo-3.0.ebuild", ""),
    ];
    assert_eq!(
        load_package_info("app/foo", &files),
        Err(Error::UnsupportedEapi(s("foo-2.0.ebuild")))
    );
    assert_eq!(
        load_package_info("app/foo bar", &files),
        Err(Error::InvalidAtomSyntax(s("app/foo bar")))
    );
    assert_eq!(load_package_info("app/foo", &vec![]), Err(Error::NoMatchingEbuild(s("foo"))));
}

#[test]
fn messages_name_what_failed() {
    assert_eq!(
        Error::InvalidAtomSyntax(s("a b")).message(),
        "'a b' is not a valid package atom."
    );
    assert_eq!(
        Error::AmbiguousShortName(s("foo")).message(),
        "The short ebuild name 'foo' is ambiguous."
    );
    assert_eq!(
        Error::NoMatchingEbuild(s("foo")).message(),
        "there are no ebuilds to satisfy 'foo'."
    );
    assert_eq!(Error::MissingEapi(s("f")).message(), "EAPI must be defined. 'f'");
    assert_eq!(Error::UnsupportedEapi(s("f")).message(), "unsupported EAPI. 'f'");
    assert_eq!(Error::NodeNotFound(s("n")).message(), "'n' node don't exists");
    assert_eq!(Error::CycleDetected.message(), "directed graph contains a cycle");
    assert_eq!(Error::Io(s("gone")).message(), "gone");
}
