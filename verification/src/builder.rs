//! Building the dependency graph of a set of requested packages.
//!
//! The graph grows from the requested atoms by expansion: an atom is handed
//! out, its package is looked up by the caller, who alone can read the
//! repository, and handed back; its dependencies become nodes, with an edge
//! to the atom each, and wait for their own expansion. An atom is expanded
//! once: when it comes up again it is passed over, so the expansion ends on
//! circular dependencies too, and the cycle is found when the graph is
//! finished.
//!
//! Two nodes frame the graph: `s`, from which an edge leads to each package
//! without dependencies, and `t`, to which an edge leads from each requested
//! atom that nothing else needs.

use crate::data::{PackageInfo, PackageVersion};
use crate::depgraph::{
    has_outgoing, id_of, lemma_names_with, names_with, DepGraph, GraphData,
};
use crate::error::{Error, Failure};
use crate::graphmap::has_cycle;
use crate::text::texts;
use vstd::hash_set::StringHashSet;
use vstd::prelude::*;
use vstd::string::StringExecFns;

verus! {

/// The name of the node from which an edge leads to each package without dependencies.
pub open spec fn source_name() -> Seq<char> {
    "s"@
}

/// The name of the node to which an edge leads from each requested atom that has none.
pub open spec fn sink_name() -> Seq<char> {
    "t"@
}

/// The names after each of `more` was added, in their order.
pub open spec fn names_with_all(names: Seq<Seq<char>>, more: Seq<Seq<char>>) -> Seq<Seq<char>>
    decreases more.len(),
{
    if more.len() == 0 {
        names
    } else {
        names_with(names_with_all(names, more.drop_last()), more.last())
    }
}

/// One edge from each of `dependencies` to `package`.
pub open spec fn edges_from(
    names: Seq<Seq<char>>,
    dependencies: Seq<Seq<char>>,
    package: Seq<char>,
) -> Set<(usize, usize)> {
    Set::new(
        |e: (usize, usize)|
            e.1 == id_of(names, package) && exists|k: int|
                0 <= k < dependencies.len() && e.0 == id_of(names, #[trigger] dependencies[k]),
    )
}

/// The edges that the expansion of `package` adds: one from each of its
/// dependencies to it; one from `s` to it where it has none.
pub open spec fn dependency_edges(
    names: Seq<Seq<char>>,
    dependencies: Seq<Seq<char>>,
    package: Seq<char>,
) -> Set<(usize, usize)> {
    if dependencies.len() == 0 {
        set![(id_of(names, source_name()), id_of(names, package))]
    } else {
        edges_from(names, dependencies, package)
    }
}

/// The edges that finishing adds: one to `t` from each root that no edge leaves.
pub open spec fn sink_edges(
    names: Seq<Seq<char>>,
    edges: Set<(usize, usize)>,
    roots: Seq<Seq<char>>,
) -> Set<(usize, usize)> {
    Set::new(
        |e: (usize, usize)|
            e.1 == id_of(names, sink_name()) && !has_outgoing(edges, e.0) && exists|k: int|
                0 <= k < roots.len() && e.0 == id_of(names, #[trigger] roots[k]),
    )
}

/// The position of the atom that is expanded next: the last of the waiting
/// atoms that has not been expanded; -1 where all of them have.
pub open spec fn next_pending(pending: Seq<Seq<char>>, expanded: Set<Seq<char>>) -> int
    decreases pending.len(),
{
    if pending.len() == 0 {
        -1
    } else if !expanded.contains(pending.last()) {
        pending.len() - 1
    } else {
        next_pending(pending.drop_last(), expanded)
    }
}

/// Adding names keeps the names that were there at their positions, adds
/// each new name once, and leaves no name twice.
pub proof fn lemma_names_with_all(names: Seq<Seq<char>>, more: Seq<Seq<char>>)
    requires
        names.no_duplicates(),
    ensures
        names_with_all(names, more).no_duplicates(),
        names.len() <= names_with_all(names, more).len(),
        forall|i: int| 0 <= i < names.len() ==> names_with_all(names, more)[i] == names[i],
        forall|name: Seq<char>|
            names.contains(name) ==> #[trigger] names_with_all(names, more).contains(name)
                && id_of(names_with_all(names, more), name) == id_of(names, name),
        forall|k: int|
            0 <= k < more.len() ==> names_with_all(names, more).contains(#[trigger] more[k]),
    decreases more.len(),
{
    if more.len() > 0 {
        let front = more.drop_last();
        lemma_names_with_all(names, front);
        let before = names_with_all(names, front);
        let after = names_with_all(names, more);
        lemma_names_with(before, more.last());
        assert forall|name: Seq<char>| names.contains(name) implies #[trigger] after.contains(
            name,
        ) && id_of(after, name) == id_of(names, name) by {
            assert(before.contains(name));
        }
        assert forall|k: int| 0 <= k < more.len() implies after.contains(#[trigger] more[k]) by {
            if k < front.len() {
                assert(front[k] == more[k]);
                assert(before.contains(more[k]));
            }
        }
    }
}

/// A graph under construction.
pub struct DagBuilder {
    graph: GraphData,
    roots: Vec<String>,
    pending: Vec<String>,
    expanded: StringHashSet,
}

impl DagBuilder {
    /// Whether the builder is in order: its graph is, the graph holds `s`
    /// and `t`, and every root and every waiting atom is a node.
    pub closed spec fn wf(&self) -> bool {
        &&& self.graph.wf()
        &&& self.graph.names().no_duplicates()
        &&& self.graph.names().contains(source_name())
        &&& self.graph.names().contains(sink_name())
        &&& forall|k: int|
            0 <= k < self.roots@.len() ==> self.graph.names().contains(#[trigger] self.roots@[k]@)
        &&& forall|k: int|
            0 <= k < self.pending@.len() ==> self.graph.names().contains(
                #[trigger] self.pending@[k]@,
            )
    }

    /// The names of the nodes so far; the position of a name is its identifier.
    pub closed spec fn names(&self) -> Seq<Seq<char>> {
        self.graph.names()
    }

    /// The edges so far.
    pub closed spec fn edges(&self) -> Set<(usize, usize)> {
        self.graph.edges()
    }

    /// The requested atoms.
    pub closed spec fn roots(&self) -> Seq<Seq<char>> {
        texts(self.roots@)
    }

    /// The atoms that wait for expansion; the last one is next.
    pub closed spec fn pending(&self) -> Seq<Seq<char>> {
        texts(self.pending@)
    }

    /// The atoms that have been expanded.
    pub closed spec fn expanded(&self) -> Set<Seq<char>> {
        self.expanded@
    }

    /// Whether the builder is `before` after the atom `package` was expanded
    /// by `dependencies`: they are nodes and wait, their edges lead to the
    /// atom, and the atom counts as expanded.
    pub open spec fn expanded_by(
        &self,
        before: DagBuilder,
        package: Seq<char>,
        dependencies: Seq<Seq<char>>,
    ) -> bool {
        &&& before.names().contains(package)
        &&& self.names() == names_with_all(before.names(), dependencies)
        &&& self.edges() == before.edges().union(
            dependency_edges(self.names(), dependencies, package),
        )
        &&& self.pending() == before.pending() + dependencies
        &&& self.expanded() == before.expanded().insert(package)
    }

    /// Whether the builder has the nodes, the edges and the atoms, waiting
    /// and expanded, that `before` has.
    pub open spec fn same_as(&self, before: DagBuilder) -> bool {
        &&& self.names() == before.names()
        &&& self.edges() == before.edges()
        &&& self.pending() == before.pending()
        &&& self.expanded() == before.expanded()
    }

    /// What being in order means for the names.
    pub proof fn lemma_wf(&self)
        requires
            self.wf(),
        ensures
            self.names().no_duplicates(),
            self.names().contains(source_name()),
            self.names().contains(sink_name()),
            forall|k: int|
                0 <= k < self.roots().len() ==> self.names().contains(#[trigger] self.roots()[k]),
            forall|k: int|
                0 <= k < self.pending().len() ==> self.names().contains(
                    #[trigger] self.pending()[k],
                ),
    {
        assert forall|k: int| 0 <= k < self.roots().len() implies self.names().contains(
            #[trigger] self.roots()[k],
        ) by {
            assert(self.roots()[k] == self.roots@[k]@);
        }
        assert forall|k: int| 0 <= k < self.pending().len() implies self.names().contains(
            #[trigger] self.pending()[k],
        ) by {
            assert(self.pending()[k] == self.pending@[k]@);
        }
    }
}

impl GraphData {
    /// Starts the graph of the requested atoms: `s`, `t` and one node for
    /// each atom, no edge, and every atom waiting for its expansion.
    pub fn build_dag_from(org_package_name_list: &[String]) -> (b: DagBuilder)
        ensures
            b.wf(),
            b.names() == names_with_all(
                seq![source_name(), sink_name()],
                texts(org_package_name_list@),
            ),
            b.edges() == Set::<(usize, usize)>::empty(),
            b.roots() == texts(org_package_name_list@),
            b.pending() == texts(org_package_name_list@),
            b.expanded() == Set::<Seq<char>>::empty(),
    {
        let mut graph = GraphData::new();
        let _ = graph.add_node("s");
        let _ = graph.add_node("t");
        let ghost frame = seq![source_name(), sink_name()];
        let ghost requested = texts(org_package_name_list@);
        proof {
            reveal_strlit("s");
            reveal_strlit("t");
            assert("s"@[0] != "t"@[0]);
            assert(Seq::<Seq<char>>::empty().push(source_name()) =~= seq![source_name()]);
            assert(!seq![source_name()].contains(sink_name()));
            assert(graph.names() =~= frame);
            assert(requested.take(0) =~= Seq::<Seq<char>>::empty());
            assert(frame[0] == source_name() && frame[1] == sink_name());
        }
        let mut roots: Vec<String> = Vec::new();
        let mut pending: Vec<String> = Vec::new();
        let mut i: usize = 0;
        while i < org_package_name_list.len()
            invariant
                i <= org_package_name_list.len(),
                requested == texts(org_package_name_list@),
                frame == seq![source_name(), sink_name()],
                frame.no_duplicates(),
                graph.wf(),
                graph.names() == names_with_all(frame, requested.take(i as int)),
                graph.edges() == Set::<(usize, usize)>::empty(),
                texts(roots@) == requested.take(i as int),
                texts(pending@) == requested.take(i as int),
            decreases org_package_name_list.len() - i,
        {
            let package_name = &org_package_name_list[i];
            let ghost roots_before = texts(roots@);
            let ghost pending_before = texts(pending@);
            let _ = graph.add_node(package_name.as_str());
            roots.push(package_name.clone());
            pending.push(package_name.clone());
            proof {
                assert(requested.take(i + 1).drop_last() =~= requested.take(i as int));
                assert(requested.take(i + 1).last() == package_name@);
                assert(texts(roots@) =~= roots_before.push(package_name@));
                assert(texts(pending@) =~= pending_before.push(package_name@));
                assert(requested.take(i + 1) =~= requested.take(i as int).push(package_name@));
            }
            i = i + 1;
        }
        proof {
            assert(requested.take(org_package_name_list.len() as int) =~= requested);
            lemma_names_with_all(frame, requested);
            assert(frame.contains(source_name()));
            assert(frame.contains(sink_name()));
        }
        let b = DagBuilder { graph, roots, pending, expanded: StringHashSet::new() };
        proof {
            assert forall|k: int| 0 <= k < b.roots@.len() implies b.graph.names().contains(
                #[trigger] b.roots@[k]@,
            ) by {
                assert(texts(b.roots@)[k] == requested[k]);
            }
            assert forall|k: int| 0 <= k < b.pending@.len() implies b.graph.names().contains(
                #[trigger] b.pending@[k]@,
            ) by {
                assert(texts(b.pending@)[k] == requested[k]);
            }
        }
        b
    }
}

/// One more dependency adds one edge.
pub proof fn lemma_edges_from_push(
    names: Seq<Seq<char>>,
    dependencies: Seq<Seq<char>>,
    dependency: Seq<char>,
    package: Seq<char>,
)
    ensures
        edges_from(names, dependencies.push(dependency), package) == edges_from(
            names,
            dependencies,
            package,
        ).insert((id_of(names, dependency), id_of(names, package))),
{
    let more = dependencies.push(dependency);
    let small = edges_from(names, dependencies, package);
    let large = edges_from(names, more, package);
    let edge = (id_of(names, dependency), id_of(names, package));
    assert forall|e: (usize, usize)| large.contains(e) implies small.insert(edge).contains(e) by {
        let k = choose|k: int| 0 <= k < more.len() && e.0 == id_of(names, #[trigger] more[k]);
        if k < dependencies.len() {
            assert(more[k] == dependencies[k]);
        }
    }
    assert forall|e: (usize, usize)| small.insert(edge).contains(e) implies large.contains(e) by {
        if e == edge {
            assert(more[dependencies.len() as int] == dependency);
        } else {
            let k = choose|k: int|
                0 <= k < dependencies.len() && e.0 == id_of(names, #[trigger] dependencies[k]);
            assert(more[k] == dependencies[k]);
        }
    }
    assert(large =~= small.insert(edge));
}

/// Names that come later do not change the edges of names that were there.
pub proof fn lemma_edges_from_stable(
    names: Seq<Seq<char>>,
    later: Seq<Seq<char>>,
    dependencies: Seq<Seq<char>>,
    package: Seq<char>,
)
    requires
        names.contains(package),
        forall|k: int| 0 <= k < dependencies.len() ==> names.contains(#[trigger] dependencies[k]),
        forall|name: Seq<char>|
            names.contains(name) ==> #[trigger] later.contains(name) && id_of(later, name)
                == id_of(names, name),
    ensures
        edges_from(later, dependencies, package) == edges_from(names, dependencies, package),
{
    let a = edges_from(later, dependencies, package);
    let b = edges_from(names, dependencies, package);
    assert(later.contains(package));
    assert forall|e: (usize, usize)| a.contains(e) implies b.contains(e) by {
        let k = choose|k: int|
            0 <= k < dependencies.len() && e.0 == id_of(later, #[trigger] dependencies[k]);
        assert(later.contains(dependencies[k]));
    }
    assert forall|e: (usize, usize)| b.contains(e) implies a.contains(e) by {
        let k = choose|k: int|
            0 <= k < dependencies.len() && e.0 == id_of(names, #[trigger] dependencies[k]);
        assert(later.contains(dependencies[k]));
    }
    assert(a =~= b);
}

impl DagBuilder {
    /// Hands out the atom to expand next: the last of the waiting atoms that
    /// has not been expanded. It and what waited behind it wait no longer.
    /// `None` says that nothing is left to expand.
    pub fn next_atom(&mut self) -> (r: Option<String>)
        requires
            old(self).wf(),
        ensures
            final(self).wf(),
            final(self).names() == old(self).names(),
            final(self).edges() == old(self).edges(),
            final(self).roots() == old(self).roots(),
            final(self).expanded() == old(self).expanded(),
            ({
                let at = next_pending(old(self).pending(), old(self).expanded());
                if at < 0 {
                    r is None && final(self).pending() == Seq::<Seq<char>>::empty()
                } else {
                    &&& at < old(self).pending().len()
                    &&& r matches Some(atom)
                    &&& atom@ == old(self).pending()[at]
                    &&& final(self).pending() == old(self).pending().take(at)
                }
            }),
    {
        let ghost waiting = self.pending();
        let ghost expanded = self.expanded();
        proof {
            assert(waiting.take(waiting.len() as int) =~= waiting);
        }
        loop
            invariant
                self.wf(),
                self.names() == old(self).names(),
                self.edges() == old(self).edges(),
                self.roots() == old(self).roots(),
                self.expanded() == expanded,
                expanded == old(self).expanded(),
                waiting == old(self).pending(),
                self.pending().len() <= waiting.len(),
                self.pending() == waiting.take(self.pending().len() as int),
                next_pending(waiting, expanded) == next_pending(self.pending(), expanded),
            decreases self.pending().len(),
        {
            let ghost before = self.pending();
            match self.pending.pop() {
                None => {
                    proof {
                        assert(self.pending() =~= Seq::<Seq<char>>::empty());
                    }
                    return None;
                },
                Some(atom) => {
                    proof {
                        assert(before.last() == atom@);
                        assert(self.pending() =~= before.drop_last());
                        assert(self.pending() =~= waiting.take(self.pending().len() as int));
                        assert forall|k: int| 0 <= k < self.pending@.len() implies self.graph.names().contains(
                        #[trigger] self.pending@[k]@) by {
                            assert(self.pending@[k]@ == before[k]);
                            assert(before[k] == old(self).pending@[k]@);
                        }
                    }
                    if !self.expanded.contains(atom.as_str()) {
                        proof {
                            assert(before[before.len() - 1] == waiting[before.len() - 1]);
                        }
                        return Some(atom);
                    }
                },
            }
        }
    }

    /// Takes in the package of the atom `package_name`, which `next_atom`
    /// has handed out, and expands the atom by the dependencies of the
    /// package's first version, as `add_version` does.
    ///
    /// Fails, and changes nothing, where the atom is no node
    /// (`NodeNotFound`) or the package has no version (`NoMatchingEbuild`).
    pub fn add_package(&mut self, package_name: &str, package_info: &PackageInfo) -> (r: Result<
        (),
        Error,
    >)
        requires
            old(self).wf(),
        ensures
            final(self).wf(),
            final(self).roots() == old(self).roots(),
            match r {
                Ok(_) => {
                    &&& package_info.version_list@.len() > 0
                    &&& final(self).expanded_by(
                        *old(self),
                        package_name@,
                        texts(package_info.version_list@[0].depends_list@),
                    )
                },
                Err(e) => {
                    &&& final(self).same_as(*old(self))
                    &&& if !old(self).names().contains(package_name@) {
                        e@ == Failure::NodeNotFound(package_name@)
                    } else {
                        package_info.version_list@.len() == 0 && e@ == Failure::NoMatchingEbuild(
                            package_name@,
                        )
                    }
                },
            },
    {
        if self.graph.node_index(package_name).is_none() {
            return Err(Error::NodeNotFound(String::from_str(package_name)));
        }
        if package_info.version_list.len() == 0 {
            return Err(Error::NoMatchingEbuild(String::from_str(package_name)));
        }
        self.add_version(package_name, &package_info.version_list[0])
    }

    /// Expands the atom `package_name`, which `next_atom` has handed out, by
    /// the dependencies of the version that the caller has chosen for it:
    /// each becomes a node and waits for its own expansion, and an edge
    /// leads from it to the atom. Where there is no dependency, an edge
    /// leads from `s` to the atom.
    ///
    /// Fails with `NodeNotFound`, and changes nothing, where the atom is no node.
    pub fn add_version(&mut self, package_name: &str, package_version: &PackageVersion) -> (r:
        Result<(), Error>)
        requires
            old(self).wf(),
        ensures
            final(self).wf(),
            final(self).roots() == old(self).roots(),
            match r {
                Ok(_) => final(self).expanded_by(
                    *old(self),
                    package_name@,
                    texts(package_version.depends_list@),
                ),
                Err(e) => {
                    &&& final(self).same_as(*old(self))
                    &&& !old(self).names().contains(package_name@)
                    &&& e@ == Failure::NodeNotFound(package_name@)
                },
            },
    {
        if self.graph.node_index(package_name).is_none() {
            return Err(Error::NodeNotFound(String::from_str(package_name)));
        }
        let ghost dependencies = texts(package_version.depends_list@);
        let ghost names = self.names();
        let ghost edges = self.edges();
        let ghost waiting = self.pending();
        if package_version.depends_list.len() == 0 {
            let _ = self.graph.add_edge("s", package_name);
            proof {
                assert(self.edges() =~= edges.union(
                    dependency_edges(names, dependencies, package_name@),
                ));
            }
        }
        proof {
            assert(dependencies.take(0) =~= Seq::<Seq<char>>::empty());
            assert(waiting + dependencies.take(0) =~= waiting);
            if dependencies.len() > 0 {
                assert(edges_from(names, dependencies.take(0), package_name@) =~= Set::<
                    (usize, usize),
                >::empty());
                assert(self.edges() =~= edges.union(
                    edges_from(names, dependencies.take(0), package_name@),
                ));
            }
        }
        let mut i: usize = 0;
        while i < package_version.depends_list.len()
            invariant
                i <= package_version.depends_list.len(),
                dependencies == texts(package_version.depends_list@),
                self.wf(),
                self.roots() == old(self).roots(),
                self.expanded() == old(self).expanded(),
                names == old(self).names(),
                names.no_duplicates(),
                names.contains(package_name@),
                self.names() == names_with_all(names, dependencies.take(i as int)),
                self.pending() == waiting + dependencies.take(i as int),
                dependencies.len() == 0 ==> self.edges() == edges.union(
                    dependency_edges(names, dependencies, package_name@),
                ),
                dependencies.len() > 0 ==> self.edges() == edges.union(
                    edges_from(self.names(), dependencies.take(i as int), package_name@),
                ),
            decreases package_version.depends_list.len() - i,
        {
            let depend_name = &package_version.depends_list[i];
            let ghost done = dependencies.take(i as int);
            let ghost names_before = self.names();
            let ghost edges_before = self.edges();
            let ghost pending_before = self.pending();
            proof {
                assert(dependencies[i as int] == depend_name@);
                assert(dependencies.take(i + 1) =~= done.push(depend_name@));
                assert(dependencies.take(i + 1).drop_last() =~= done);
                lemma_names_with_all(names, done);
                lemma_names_with(names_before, depend_name@);
                self.lemma_wf();
            }
            let _ = self.graph.add_node(depend_name.as_str());
            let ghost names_after = self.names();
            proof {
                assert(names_after == names_with_all(names, dependencies.take(i + 1)));
                assert(names_after.contains(package_name@));
                lemma_edges_from_stable(names_before, names_after, done, package_name@);
            }
            let _ = self.graph.add_edge(depend_name.as_str(), package_name);
            self.pending.push(depend_name.clone());
            proof {
                lemma_edges_from_push(names_after, done, depend_name@, package_name@);
                assert(self.edges() =~= edges.union(
                    edges_from(names_after, dependencies.take(i + 1), package_name@),
                ));
                assert(self.pending() =~= pending_before.push(depend_name@));
                assert(self.pending() =~= waiting + dependencies.take(i + 1));
                assert forall|k: int| 0 <= k < self.roots@.len() implies self.graph.names().contains(
                #[trigger] self.roots@[k]@) by {
                    assert(self.roots@[k]@ == self.roots()[k]);
                    assert(names_before.contains(self.roots()[k]));
                }
                assert forall|k: int| 0 <= k < self.pending@.len() implies self.graph.names().contains(
                #[trigger] self.pending@[k]@) by {
                    if k < pending_before.len() {
                        assert(self.pending@[k]@ == pending_before[k]);
                        assert(names_before.contains(pending_before[k]));
                    }
                }
            }
            i = i + 1;
        }
        self.expanded.insert(String::from_str(package_name));
        proof {
            assert(dependencies.take(dependencies.len() as int) =~= dependencies);
            if dependencies.len() == 0 {
                assert(self.names() == names);
            }
        }
        Ok(())
    }
}

/// One more root adds its edge to `t`, if no edge leaves it.
pub proof fn lemma_sink_edges_push(
    names: Seq<Seq<char>>,
    edges: Set<(usize, usize)>,
    roots: Seq<Seq<char>>,
    root: Seq<char>,
)
    ensures
        sink_edges(names, edges, roots.push(root)) == if has_outgoing(edges, id_of(names, root)) {
            sink_edges(names, edges, roots)
        } else {
            sink_edges(names, edges, roots).insert((id_of(names, root), id_of(names, sink_name())))
        },
{
    let more = roots.push(root);
    let small = sink_edges(names, edges, roots);
    let large = sink_edges(names, edges, more);
    let edge = (id_of(names, root), id_of(names, sink_name()));
    assert forall|e: (usize, usize)| large.contains(e) implies small.contains(e) || e == edge by {
        let k = choose|k: int| 0 <= k < more.len() && e.0 == id_of(names, #[trigger] more[k]);
        if k < roots.len() {
            assert(more[k] == roots[k]);
        }
    }
    assert forall|e: (usize, usize)| small.contains(e) implies large.contains(e) by {
        let k = choose|k: int| 0 <= k < roots.len() && e.0 == id_of(names, #[trigger] roots[k]);
        assert(more[k] == roots[k]);
    }
    if has_outgoing(edges, id_of(names, root)) {
        assert(large =~= small);
    } else {
        assert(more[roots.len() as int] == root);
        assert(large.contains(edge));
        assert(large =~= small.insert(edge));
    }
}

impl DagBuilder {
    /// Finishes the graph: from each requested atom that no edge leaves, an
    /// edge leads to `t`. Fails with `CycleDetected` where the graph then
    /// holds a cycle; the graph that comes back holds none.
    pub fn finish(self) -> (r: Result<GraphData, Error>)
        requires
            self.wf(),
        ensures
            ({
                let closed = self.edges().union(
                    sink_edges(self.names(), self.edges(), self.roots()),
                );
                match r {
                    Ok(g) => g.wf() && g.names() == self.names() && g.edges() == closed
                        && !has_cycle(closed),
                    Err(e) => e@ == Failure::CycleDetected && has_cycle(closed),
                }
            }),
    {
        let ghost names = self.names();
        let ghost edges = self.edges();
        let ghost roots = self.roots();
        let mut graph = self.graph;
        let requested = self.roots;
        proof {
            assert(roots.take(0) =~= Seq::<Seq<char>>::empty());
            assert(sink_edges(names, edges, roots.take(0)) =~= Set::<(usize, usize)>::empty());
            assert(graph.edges() =~= edges.union(sink_edges(names, edges, roots.take(0))));
        }
        let mut i: usize = 0;
        while i < requested.len()
            invariant
                i <= requested.len(),
                roots == texts(requested@),
                graph.wf(),
                graph.names() == names,
                names.contains(sink_name()),
                forall|k: int| 0 <= k < requested@.len() ==> names.contains(#[trigger] requested@[k]@),
                graph.edges() == edges.union(sink_edges(names, edges, roots.take(i as int))),
            decreases requested.len() - i,
        {
            let package_name = &requested[i];
            let ghost done = roots.take(i as int);
            let ghost id = id_of(names, package_name@);
            proof {
                assert(roots[i as int] == package_name@);
                assert(roots.take(i + 1) =~= done.push(package_name@));
                lemma_sink_edges_push(names, edges, done, package_name@);
            }
            match graph.is_outgoing_neighbors_exists(package_name.as_str()) {
                Ok(false) => {
                    let _ = graph.add_edge(package_name.as_str(), "t");
                    proof {
                        if has_outgoing(edges, id) {
                            let to = choose|to: usize| edges.contains((id, to));
                            assert(edges.union(sink_edges(names, edges, done)).contains((id, to)));
                        }
                        assert(graph.edges() =~= edges.union(
                            sink_edges(names, edges, roots.take(i + 1)),
                        ));
                    }
                },
                _ => {
                    proof {
                        let now = edges.union(sink_edges(names, edges, done));
                        assert(has_outgoing(now, id));
                        if !has_outgoing(edges, id) {
                            let to = choose|to: usize| now.contains((id, to));
                            assert(sink_edges(names, edges, done).contains((id, to)));
                            assert(to == id_of(names, sink_name()));
                            assert(sink_edges(names, edges, done).insert(
                                (id, id_of(names, sink_name())),
                            ) =~= sink_edges(names, edges, done));
                        }
                    }
                },
            }
            i = i + 1;
        }
        proof {
            assert(roots.take(requested.len() as int) =~= roots);
        }
        if graph.is_cyclic_directed() {
            return Err(Error::CycleDetected);
        }
        Ok(graph)
    }
}

} // verus!
