use emerge::ebuild_utils::parse_package_name;
use emerge::error::Error;

fn some(text: &str) -> Option<String> {
    Some(String::from(text))
}

#[test]
fn full_atom_is_taken_apart() {
    let info = parse_package_name("cat/name-1.2.3-r4:slot1").unwrap();
    assert_eq!(info.category, some("cat"));
    assert_eq!(info.name, some("name"));
    assert_eq!(info.version, some("1.2.3"));
    assert_eq!(info.revision, some("4"));
    assert_eq!(info.slot, some("slot1"));
}

#[test]
fn bare_name_gets_slot_zero() {
    let info = parse_package_name("name").unwrap();
    assert_eq!(info.category, None);
    assert_eq!(info.name, some("name"));
    assert_eq!(info.version, None);
    assert_eq!(info.revision, None);
    assert_eq!(info.slot, some("0"));
}

#[test]
fn name_may_hold_hyphens_and_digits() {
    let info = parse_package_name("dev-libs/libxml2-utils").unwrap();
    assert_eq!(info.category, some("dev-libs"));
    assert_eq!(info.name, some("libxml2-utils"));
    assert_eq!(info.version, None);

    let info = parse_package_name("a-1-2").unwrap();
    assert_eq!(info.name, some("a-1"));
    assert_eq!(info.version, some("2"));
}

#[test]
fn version_suffixes_are_read() {
    let info = parse_package_name("sys-apps/portage-2.3.103_rc1_p20200101-r12").unwrap();
    assert_eq!(info.name, some("portage"));
    assert_eq!(info.version, some("2.3.103_rc1_p20200101"));
    assert_eq!(info.revision, some("12"));

    let info = parse_package_name("foo-1.0b_alpha_beta2_pre").unwrap();
    assert_eq!(info.name, some("foo"));
    assert_eq!(info.version, some("1.0b_alpha_beta2_pre"));
}

#[test]
fn what_is_no_version_stays_in_the_name() {
    let info = parse_package_name("foo-1.").unwrap();
    assert_eq!(info.name, some("foo-1."));
    assert_eq!(info.version, None);

    let info = parse_package_name("foo-1.2-r").unwrap();
    assert_eq!(info.name, some("foo-1.2-r"));
    assert_eq!(info.version, None);
    assert_eq!(info.revision, None);
}

#[test]
fn invalid_atoms_are_refused() {
    for text in ["", "/name", "cat/", "cat//name", "-name", "na me", "cat/name:", "a:b:c", "a/b/c", ".x"] {
        match parse_package_name(text) {
            Err(Error::InvalidAtomSyntax(t)) => assert_eq!(t, text),
            other => panic!("{:?} gave {:?}", text, other),
        }
    }
}

#[test]
fn slot_may_begin_with_plus() {
    let info = parse_package_name("x:+y.z-1").unwrap();
    assert_eq!(info.name, some("x"));
    assert_eq!(info.slot, some("+y.z-1"));
}
