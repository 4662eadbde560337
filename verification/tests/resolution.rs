use emerge::builder::DagBuilder;
use emerge::data::{EbuildFile, PackageInfo};
use emerge::depgraph::{DepGraph, GraphData};
use emerge::ebuild_utils::load_package_info;
use emerge::error::Error;

fn s(text: &str) -> String {
    String::from(text)
}

/// A repository in memory: for each atom the name and the text of its metadata file.
type Repository = [(&'static str, &'static str, &'static str)];

fn lookup(repository: &Repository, atom: &str) -> Result<PackageInfo, Error> {
    let files: Vec<EbuildFile> = repository
        .iter()
        .filter(|(name, _, _)| *name == atom)
        .map(|(_, file, text)| EbuildFile { name: s(file), content: Ok(s(text)) })
        .collect();
    load_package_info(atom, &files)
}

fn build(requested: &[&str], repository: &Repository) -> Result<GraphData, Error> {
    let requested: Vec<String> = requested.iter().map(|atom| s(atom)).collect();
    let mut builder: DagBuilder = GraphData::build_dag_from(&requested);
    while let Some(atom) = builder.next_atom() {
        let info = lookup(repository, &atom)?;
        builder.add_package(&atom, &info)?;
    }
    builder.finish()
}

fn position(order: &[String], name: &str) -> usize {
    order.iter().position(|n| n == name).unwrap()
}

#[test]
fn one_package_with_one_dependency() {
    let repository = [
        ("app/foo", "foo-1.0.ebuild", "EAPI=\"7\"\nDEPEND=\"lib/bar\"\n"),
        ("lib/bar", "bar-2.1.ebuild", "EAPI=\"7\"\nDEPEND=\"\"\n"),
    ];
    let g = build(&["app/foo"], &repository).unwrap();
    assert_eq!(g.node_count(), 4);
    for name in ["s", "t", "app/foo", "lib/bar"] {
        assert!(g.node_index(name).is_some(), "{}", name);
    }
    let names = ["s", "t", "app/foo", "lib/bar"];
    let edges = [("s", "lib/bar"), ("lib/bar", "app/foo"), ("app/foo", "t")];
    for a in names {
        for b in names {
            assert_eq!(g.contains_edge(a, b), Ok(edges.contains(&(a, b))), "{} -> {}", a, b);
        }
    }
    assert_eq!(g.toposort(), vec![s("s"), s("lib/bar"), s("app/foo"), s("t")]);
}

#[test]
fn circular_dependencies_fail_the_build() {
    let repository = [
        ("cat/a", "a-1.ebuild", "EAPI=7\nDEPEND=\"cat/b\"\n"),
        ("cat/b", "b-1.ebuild", "EAPI=7\nDEPEND=\"cat/a\"\n"),
    ];
    assert!(matches!(build(&["cat/a"], &repository), Err(Error::CycleDetected)));
    assert!(matches!(build(&["cat/a", "cat/b"], &repository), Err(Error::CycleDetected)));
    assert!(matches!(build(&["cat/b"], &repository), Err(Error::CycleDetected)));
}

#[test]
fn package_that_depends_on_itself_fails_the_build() {
    let repository = [("cat/a", "a-1.ebuild", "EAPI=7\nDEPEND=\"cat/a\"\n")];
    assert!(matches!(build(&["cat/a"], &repository), Err(Error::CycleDetected)));
}

#[test]
fn nothing_requested_gives_the_two_frame_nodes() {
    let g = build(&[], &[]).unwrap();
    assert_eq!(g.node_count(), 2);
    assert_eq!(g.node_index("s"), Some(0));
    assert_eq!(g.node_index("t"), Some(1));
    assert_eq!(g.contains_edge("s", "t"), Ok(false));
}

#[test]
fn shared_dependency_is_expanded_once() {
    let repository = [
        ("app/a", "a-1.ebuild", "EAPI=7\nDEPEND=\"lib/x lib/y\"\n"),
        ("app/b", "b-1.ebuild", "EAPI=7\nDEPEND=\"lib/x\"\n"),
        ("lib/x", "x-1.ebuild", "EAPI=7\nDEPEND=\"lib/y\"\n"),
        ("lib/y", "y-1.ebuild", "EAPI=7\n"),
    ];
    let requested: Vec<String> = vec![s("app/a"), s("app/b")];
    let mut builder = GraphData::build_dag_from(&requested);
    let mut handed_out = Vec::new();
    while let Some(atom) = builder.next_atom() {
        let info = lookup(&repository, &atom).unwrap();
        builder.add_package(&atom, &info).unwrap();
        handed_out.push(atom);
    }
    assert_eq!(handed_out, vec![s("app/b"), s("lib/x"), s("lib/y"), s("app/a")]);
    let g = builder.finish().unwrap();
    assert_eq!(g.node_count(), 6);
    let edges = [
        ("lib/x", "app/a"),
        ("lib/y", "app/a"),
        ("lib/x", "app/b"),
        ("lib/y", "lib/x"),
        ("s", "lib/y"),
        ("app/a", "t"),
        ("app/b", "t"),
    ];
    let names = ["s", "t", "app/a", "app/b", "lib/x", "lib/y"];
    for a in names {
        for b in names {
            assert_eq!(g.contains_edge(a, b), Ok(edges.contains(&(a, b))), "{} -> {}", a, b);
        }
    }
    let order = g.toposort();
    for (from, to) in edges {
        assert!(position(&order, from) < position(&order, to), "{} -> {}", from, to);
    }
}

#[test]
fn requested_atom_that_is_needed_gets_no_edge_to_the_sink() {
    let repository = [
        ("app/a", "a-1.ebuild", "EAPI=7\nDEPEND=\"lib/x\"\n"),
        ("lib/x", "x-1.ebuild", "EAPI=7\n"),
    ];
    let g = build(&["app/a", "lib/x"], &repository).unwrap();
    assert_eq!(g.contains_edge("app/a", "t"), Ok(true));
    assert_eq!(g.contains_edge("lib/x", "t"), Ok(false));
    assert_eq!(g.contains_edge("lib/x", "app/a"), Ok(true));
    assert_eq!(g.contains_edge("s", "lib/x"), Ok(true));
}

#[test]
fn first_version_decides_the_dependencies() {
    let repository = [
        ("app/a", "a-1.ebuild", "EAPI=7\nDEPEND=\"lib/x\"\n"),
        ("app/a", "a-2.ebuild", "EAPI=7\nDEPEND=\"lib/y\"\n"),
        ("lib/x", "x-1.ebuild", "EAPI=7\n"),
    ];
    let g = build(&["app/a"], &repository).unwrap();
    assert_eq!(g.node_index("lib/y"), None);
    assert_eq!(g.contains_edge("lib/x", "app/a"), Ok(true));
}

#[test]
fn failures_of_the_lookup_end_the_build() {
    let repository = [("app/a", "a-1.ebuild", "EAPI=7\nDEPEND=\"lib/missing\"\n")];
    assert!(matches!(
        build(&["app/a"], &repository),
        Err(Error::NoMatchingEbuild(name)) if name == "missing"
    ));
    assert!(matches!(
        build(&["app/a b"], &repository),
        Err(Error::InvalidAtomSyntax(text)) if text == "app/a b"
    ));
    let repository = [("app/a", "a-1.ebuild", "EAPI=\"9\"\n")];
    assert!(matches!(
        build(&["app/a"], &repository),
        Err(Error::UnsupportedEapi(file)) if file == "a-1.ebuild"
    ));
    let repository = [("app/a", "a-1.ebuild", "SLOT=\"0\"\n")];
    assert!(matches!(
        build(&["app/a"], &repository),
        Err(Error::MissingEapi(file)) if file == "a-1.ebuild"
    ));
}

#[test]
fn package_of_an_unknown_atom_is_refused() {
    let repository = [("app/a", "a-1.ebuild", "EAPI=7\n")];
    let info = lookup(&repository, "app/a").unwrap();
    let mut builder = GraphData::build_dag_from(&[s("app/a")]);
    assert_eq!(
        builder.add_package("app/b", &info),
        Err(Error::NodeNotFound(s("app/b")))
    );
    let mut empty = info.clone();
    empty.version_list.clear();
    assert_eq!(
        builder.add_package("app/a", &empty),
        Err(Error::NoMatchingEbuild(s("app/a")))
    );
    assert_eq!(builder.next_atom(), Some(s("app/a")));
    assert_eq!(builder.add_package("app/a", &info), Ok(()));
    assert_eq!(builder.next_atom(), None);
    let g = builder.finish().unwrap();
    assert_eq!(g.toposort(), vec![s("s"), s("app/a"), s("t")]);
}

#[test]
fn caller_may_choose_the_version() {
    let repository = [
        ("app/a", "a-1.ebuild", "EAPI=7\nDEPEND=\"lib/x\"\n"),
        ("app/a", "a-2.ebuild", "EAPI=7\nDEPEND=\"lib/y\"\n"),
        ("lib/y", "y-1.ebuild", "EAPI=7\n"),
    ];
    let mut builder = GraphData::build_dag_from(&[s("app/a")]);
    while let Some(atom) = builder.next_atom() {
        let info = lookup(&repository, &atom).unwrap();
        let newest = info.version_list.last().unwrap();
        builder.add_version(&atom, newest).unwrap();
    }
    let g = builder.finish().unwrap();
    assert_eq!(g.node_index("lib/x"), None);
    assert_eq!(g.toposort(), vec![s("s"), s("lib/y"), s("app/a"), s("t")]);
    let info = lookup(&repository, "app/a").unwrap();
    let mut builder = GraphData::build_dag_from(&[]);
    assert_eq!(
        builder.add_version("app/a", &info.version_list[0]),
        Err(Error::NodeNotFound(s("app/a")))
    );
}
