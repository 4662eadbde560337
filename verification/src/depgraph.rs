//! The dependency graph: named nodes over a directed graph of identifiers.
//!
//! Each node has a name and an identifier. The identifiers are the numbers
//! from 0 on, given out in the order in which the names were added, so a
//! graph is described by two things: the sequence of its names, in which the
//! position of a name is its identifier, and the set of its edges, each a
//! pair of identifiers (source, target). An edge leads from what must be
//! built first to what needs it.

use crate::error::{Error, Failure};
use crate::graphmap::{
    graph_add_edge, graph_add_node, graph_contains_edge, graph_edges, graph_new,
    graph_node_count, graph_nodes, graph_successors, graph_toposort, has_cycle, is_topological,
    is_walk,
};
use crate::text::texts;
use petgraph::graphmap::DiGraphMap;
use std::collections::HashMap;
use vstd::hash_map::StringHashMap;
use vstd::pervasive::unreached;
use vstd::prelude::*;
use vstd::string::StringExecFns;

verus! {

/// The identifiers below `n`.
pub open spec fn below(n: nat) -> Set<usize> {
    Set::new(|i: usize| i < n)
}

/// The identifiers below `n` are finitely many: `n` of them.
pub proof fn lemma_below_len(n: nat)
    requires
        n <= usize::MAX + 1,
    ensures
        below(n).finite(),
        below(n).len() == n,
    decreases n,
{
    if n == 0 {
        assert(below(n) =~= Set::<usize>::empty());
    } else {
        lemma_below_len((n - 1) as nat);
        assert(below(n) =~= below((n - 1) as nat).insert((n - 1) as usize));
    }
}

/// The names after `name` was added: it comes last, unless it was there already.
pub open spec fn names_with(names: Seq<Seq<char>>, name: Seq<char>) -> Seq<Seq<char>> {
    if names.contains(name) {
        names
    } else {
        names.push(name)
    }
}

/// Adding a name keeps the names that were there at their positions, and
/// leaves no name twice.
pub proof fn lemma_names_with(names: Seq<Seq<char>>, name: Seq<char>)
    requires
        names.no_duplicates(),
    ensures
        names_with(names, name).no_duplicates(),
        names_with(names, name).contains(name),
        names.len() <= names_with(names, name).len(),
        forall|i: int| 0 <= i < names.len() ==> names_with(names, name)[i] == names[i],
        forall|other: Seq<char>|
            names.contains(other) ==> #[trigger] names_with(names, name).contains(other) && id_of(
                names_with(names, name),
                other,
            ) == id_of(names, other),
{
    let grown = names_with(names, name);
    if !names.contains(name) {
        assert(grown[names.len() as int] == name);
    }
    assert forall|other: Seq<char>| names.contains(other) implies #[trigger] grown.contains(
        other,
    ) && id_of(grown, other) == id_of(names, other) by {
        let k = names.index_of(other);
        assert(grown[k] == other);
        assert(grown.contains(other));
        let j = grown.index_of(other);
        assert(0 <= j < grown.len() && grown[j] == other);
    }
}


/// Adding a node of a name a second time changes nothing: the names are as
/// many as after the first time, and the name has the identifier that it got
/// then. No node that was there changes its identifier when another is added.
pub proof fn lemma_add_node_twice(names: Seq<Seq<char>>, name: Seq<char>, other: Seq<char>)
    requires
        names.no_duplicates(),
    ensures
        names_with(names, name).no_duplicates(),
        names_with(names, name).contains(name),
        names_with(names_with(names, name), name) == names_with(names, name),
        names_with(names_with(names, name), name).len() == names_with(names, name).len(),
        id_of(names_with(names_with(names, name), name), name) == id_of(
            names_with(names, name),
            name,
        ),
        names.contains(other) ==> names_with(names, name).contains(other) && id_of(
            names_with(names, name),
            other,
        ) == id_of(names, other),
{
    lemma_names_with(names, name);
}

/// The identifier of the node `name`: its position among the names.
pub open spec fn id_of(names: Seq<Seq<char>>, name: Seq<char>) -> usize {
    names.index_of(name) as usize
}

/// Whether an edge leaves the node `id`.
pub open spec fn has_outgoing(edges: Set<(usize, usize)>, id: usize) -> bool {
    exists|to: usize| edges.contains((id, to))
}

/// Whether `order` is a build order: it holds each name once, and for every
/// edge the name of its source before the name of its target.
pub open spec fn is_build_order(
    order: Seq<Seq<char>>,
    names: Seq<Seq<char>>,
    edges: Set<(usize, usize)>,
) -> bool {
    &&& order.no_duplicates()
    &&& order.len() == names.len()
    &&& forall|name: Seq<char>| order.contains(name) <==> names.contains(name)
    &&& forall|from: usize, to: usize| #[trigger]
        edges.contains((from, to)) ==> order.index_of(names[from as int]) < order.index_of(
            names[to as int],
        )
}

/// Along a walk the places in a build order grow.
pub proof fn lemma_walk_in_order(
    order: Seq<Seq<char>>,
    names: Seq<Seq<char>>,
    edges: Set<(usize, usize)>,
    walk: Seq<usize>,
    k: int,
)
    requires
        is_build_order(order, names, edges),
        is_walk(edges, walk),
        1 <= k < walk.len(),
    ensures
        order.index_of(names[walk[0] as int]) < order.index_of(names[walk[k] as int]),
    decreases k,
{
    assert(edges.contains((walk[k - 1], walk[k - 1 + 1])));
    if k > 1 {
        lemma_walk_in_order(order, names, edges, walk, k - 1);
    }
}

/// Where there is a build order there is no cycle: only a graph without
/// cycles can be sorted.
pub proof fn lemma_order_excludes_cycle(
    order: Seq<Seq<char>>,
    names: Seq<Seq<char>>,
    edges: Set<(usize, usize)>,
)
    requires
        is_build_order(order, names, edges),
    ensures
        !has_cycle(edges),
{
    if has_cycle(edges) {
        let walk = choose|walk: Seq<usize>| #[trigger]
            is_walk(edges, walk) && walk.first() == walk.last();
        lemma_walk_in_order(order, names, edges, walk, walk.len() - 1);
    }
}

/// A dependency graph.
pub struct GraphData {
    graph: DiGraphMap<usize, i8>,
    index_to_name: HashMap<usize, String>,
    name_to_index: StringHashMap<usize>,
    node_names: Ghost<Seq<Seq<char>>>,
}

/// What a dependency graph offers.
pub trait DepGraph {
    /// Whether the graph is in order: names and identifiers match one to
    /// one, and every edge joins two nodes of the graph.
    spec fn wf(&self) -> bool;

    /// The names of the nodes; the position of a name is its identifier.
    spec fn names(&self) -> Seq<Seq<char>>;

    /// The edges, each as (source, target).
    spec fn edges(&self) -> Set<(usize, usize)>;

    /// Adds a node of this name, unless there is one. A new node gets the
    /// next identifier. Nothing else changes, and the call never fails.
    fn add_node(&mut self, node_name: &str) -> (r: Result<(), Error>)
        requires
            old(self).wf(),
        ensures
            final(self).wf(),
            r is Ok,
            final(self).names() == names_with(old(self).names(), node_name@),
            final(self).edges() == old(self).edges(),
    ;

    /// Adds the edge from the node `node_name_a` to the node `node_name_b`,
    /// unless it is there. Fails with `NodeNotFound`, and changes nothing,
    /// where one of the two is no node: the first of them that is none is
    /// named.
    fn add_edge(&mut self, node_name_a: &str, node_name_b: &str) -> (r: Result<(), Error>)
        requires
            old(self).wf(),
        ensures
            final(self).wf(),
            final(self).names() == old(self).names(),
            match r {
                Ok(_) => {
                    &&& old(self).names().contains(node_name_a@)
                    &&& old(self).names().contains(node_name_b@)
                    &&& final(self).edges() == old(self).edges().insert(
                        (
                            id_of(old(self).names(), node_name_a@),
                            id_of(old(self).names(), node_name_b@),
                        ),
                    )
                },
                Err(e) => {
                    &&& final(self).edges() == old(self).edges()
                    &&& if !old(self).names().contains(node_name_a@) {
                        e@ == Failure::NodeNotFound(node_name_a@)
                    } else {
                        !old(self).names().contains(node_name_b@) && e@ == Failure::NodeNotFound(
                            node_name_b@,
                        )
                    }
                },
            },
    ;

    /// Whether an edge leaves the node `node_name`. Fails with
    /// `NodeNotFound` where there is no such node.
    fn is_outgoing_neighbors_exists(&self, node_name: &str) -> (r: Result<bool, Error>)
        requires
            self.wf(),
        ensures
            match r {
                Ok(found) => self.names().contains(node_name@) && found == has_outgoing(
                    self.edges(),
                    id_of(self.names(), node_name@),
                ),
                Err(e) => !self.names().contains(node_name@) && e@ == Failure::NodeNotFound(
                    node_name@,
                ),
            },
    ;

    /// Whether the edges hold a cycle.
    fn is_cyclic_directed(&self) -> (r: bool)
        requires
            self.wf(),
        ensures
            r == has_cycle(self.edges()),
    ;

    /// The names of the nodes in a build order. The graph must hold no cycle.
    fn toposort(&self) -> (r: Vec<String>)
        requires
            self.wf(),
            !has_cycle(self.edges()),
        ensures
            is_build_order(texts(r@), self.names(), self.edges()),
    ;
}

impl GraphData {
    /// A graph without nodes.
    pub fn new() -> (g: GraphData)
        ensures
            g.wf(),
            g.names() == Seq::<Seq<char>>::empty(),
            g.edges() == Set::<(usize, usize)>::empty(),
    {
        let g = GraphData {
            graph: graph_new(),
            index_to_name: HashMap::new(),
            name_to_index: StringHashMap::new(),
            node_names: Ghost(Seq::empty()),
        };
        proof {
            assert(g.index_to_name@.dom() =~= below(0));
            assert(g.name_to_index@.dom() =~= Seq::<Seq<char>>::empty().to_set());
            assert(graph_nodes(g.graph) =~= below(0));
        }
        g
    }

    /// The number of nodes.
    pub fn node_count(&self) -> (n: usize)
        requires
            self.wf(),
        ensures
            n == self.names().len(),
    {
        proof {
            lemma_below_len(self.names().len());
        }
        graph_node_count(&self.graph)
    }

    /// The identifier of the node `node_name`, if there is such a node.
    pub fn node_index(&self, node_name: &str) -> (r: Option<usize>)
        requires
            self.wf(),
        ensures
            match r {
                Some(id) => self.names().contains(node_name@) && id == id_of(
                    self.names(),
                    node_name@,
                ),
                None => !self.names().contains(node_name@),
            },
    {
        match self.name_to_index.get(node_name) {
            Some(index) => {
                proof {
                    assert(self.names().to_set().contains(node_name@));
                    self.lemma_ids(node_name@);
                }
                Some(*index)
            },
            None => {
                proof {
                    if self.names().contains(node_name@) {
                        assert(self.names().to_set().contains(node_name@));
                    }
                }
                None
            },
        }
    }

    /// Whether the graph holds the edge from the node `node_name_a` to the
    /// node `node_name_b`. Fails with `NodeNotFound` where one of the two is
    /// no node: the first of them that is none is named.
    pub fn contains_edge(&self, node_name_a: &str, node_name_b: &str) -> (r: Result<bool, Error>)
        requires
            self.wf(),
        ensures
            match r {
                Ok(found) => {
                    &&& self.names().contains(node_name_a@)
                    &&& self.names().contains(node_name_b@)
                    &&& found == self.edges().contains(
                        (id_of(self.names(), node_name_a@), id_of(self.names(), node_name_b@)),
                    )
                },
                Err(e) => if !self.names().contains(node_name_a@) {
                    e@ == Failure::NodeNotFound(node_name_a@)
                } else {
                    !self.names().contains(node_name_b@) && e@ == Failure::NodeNotFound(
                        node_name_b@,
                    )
                },
            },
    {
        let index_a = match self.node_index(node_name_a) {
            Some(index) => index,
            None => {
                return Err(Error::NodeNotFound(String::from_str(node_name_a)));
            },
        };
        let index_b = match self.node_index(node_name_b) {
            Some(index) => index,
            None => {
                return Err(Error::NodeNotFound(String::from_str(node_name_b)));
            },
        };
        Ok(graph_contains_edge(&self.graph, index_a, index_b))
    }

    /// What being in order means for names and edges: no name stands twice,
    /// and every edge joins two nodes.
    pub proof fn lemma_wf(&self)
        requires
            self.wf(),
        ensures
            self.names().no_duplicates(),
            self.names().len() <= usize::MAX,
            forall|from: usize, to: usize| #[trigger]
                self.edges().contains((from, to)) ==> from < self.names().len() && to
                    < self.names().len(),
    {
    }

    /// The name that stands at each identifier, and the identifier that
    /// stands at each name.
    proof fn lemma_ids(&self, name: Seq<char>)
        requires
            self.wf(),
            self.names().contains(name),
        ensures
            0 <= self.names().index_of(name) < self.names().len(),
            self.names()[self.names().index_of(name)] == name,
            self.name_to_index@.contains_key(name),
            self.name_to_index@[name] == id_of(self.names(), name),
    {
        let names = self.names();
        let i = choose|i: int| 0 <= i < names.len() && names[i] == name;
        assert(names[i] == name);
        let k = names.index_of(name);
        assert(0 <= k < names.len() && names[k] == name);
        assert(self.name_to_index@[names[k]] == k);
        assert(names.to_set().contains(name));
    }
}

impl DepGraph for GraphData {
    closed spec fn wf(&self) -> bool {
        let names = self.node_names@;
        &&& names.len() <= usize::MAX
        &&& names.no_duplicates()
        &&& self.index_to_name@.dom() =~= below(names.len())
        &&& forall|i: usize|
            i < names.len() ==> (#[trigger] self.index_to_name@[i])@ == names[i as int]
        &&& self.name_to_index@.dom() =~= names.to_set()
        &&& forall|i: int|
            0 <= i < names.len() ==> #[trigger] self.name_to_index@[names[i]] == i
        &&& graph_nodes(self.graph) =~= below(names.len())
        &&& forall|a: usize, b: usize| #[trigger]
            graph_edges(self.graph).contains((a, b)) ==> a < names.len() && b < names.len()
    }

    closed spec fn names(&self) -> Seq<Seq<char>> {
        self.node_names@
    }

    closed spec fn edges(&self) -> Set<(usize, usize)> {
        graph_edges(self.graph)
    }

    fn add_node(&mut self, node_name: &str) -> (r: Result<(), Error>) {
        broadcast use vstd::std_specs::hash::group_hash_axioms;

        let ghost names = self.node_names@;
        proof {
            lemma_below_len(names.len());
        }
        let count = graph_node_count(&self.graph);
        if !self.name_to_index.contains_key(node_name) {
            assert(!names.contains(node_name@)) by {
                if names.contains(node_name@) {
                    assert(names.to_set().contains(node_name@));
                }
            }
            self.name_to_index.insert(node_name.to_owned(), count);
            self.index_to_name.insert(count, node_name.to_owned());
            graph_add_node(&mut self.graph, count);
            proof {
                let grown = names.push(node_name@);
                self.node_names@ = grown;
                lemma_below_len(grown.len());
                assert(below(grown.len()) =~= below(names.len()).insert(count));
                assert(self.index_to_name@.dom() =~= below(grown.len()));
                assert(self.index_to_name@.len() == grown.len());
                assert(vstd::std_specs::hash::spec_hash_map_len(&self.index_to_name)
                    == grown.len());
                assert(grown.to_set() =~= names.to_set().insert(node_name@)) by {
                    assert forall|t: Seq<char>| grown.to_set().contains(t) implies names.to_set().insert(
                    node_name@).contains(t) by {
                        let k = choose|k: int| 0 <= k < grown.len() && grown[k] == t;
                        if k < names.len() {
                            assert(names[k] == t);
                        }
                    }
                    assert forall|t: Seq<char>|
                        names.to_set().insert(node_name@).contains(t) implies grown.to_set().contains(
                        t,
                    ) by {
                        if t == node_name@ {
                            assert(grown[names.len() as int] == t);
                        } else {
                            let k = choose|k: int| 0 <= k < names.len() && names[k] == t;
                            assert(grown[k] == t);
                        }
                    }
                }
                assert forall|i: int| 0 <= i < grown.len() implies #[trigger] self.name_to_index@[grown[i]]
                    == i by {
                    if i < names.len() {
                        assert(grown[i] == names[i]);
                        assert(names.contains(names[i]));
                    }
                }
                assert forall|i: usize| i < grown.len() implies (
                #[trigger] self.index_to_name@[i])@ == grown[i as int] by {
                    if i < names.len() {
                        assert(grown[i as int] == names[i as int]);
                    }
                }
            }
        }
        Ok(())
    }

    fn add_edge(&mut self, node_name_a: &str, node_name_b: &str) -> (r: Result<(), Error>) {
        let ghost names = self.node_names@;
        if !self.name_to_index.contains_key(node_name_a) {
            proof {
                if names.contains(node_name_a@) {
                    assert(names.to_set().contains(node_name_a@));
                }
            }
            return Err(Error::NodeNotFound(String::from_str(node_name_a)));
        }
        if !self.name_to_index.contains_key(node_name_b) {
            proof {
                if names.contains(node_name_b@) {
                    assert(names.to_set().contains(node_name_b@));
                }
            }
            return Err(Error::NodeNotFound(String::from_str(node_name_b)));
        }
        proof {
            assert(names.to_set().contains(node_name_a@));
            assert(names.to_set().contains(node_name_b@));
            self.lemma_ids(node_name_a@);
            self.lemma_ids(node_name_b@);
        }
        let index_a = *self.name_to_index.get(node_name_a).unwrap();
        let index_b = *self.name_to_index.get(node_name_b).unwrap();
        if !graph_contains_edge(&self.graph, index_a, index_b) {
            graph_add_edge(&mut self.graph, index_a, index_b, 1);
            proof {
                assert(graph_nodes(self.graph) =~= below(names.len()));
            }
        } else {
            proof {
                assert(graph_edges(self.graph) =~= graph_edges(self.graph).insert(
                    (index_a, index_b),
                ));
            }
        }
        Ok(())
    }

    fn is_outgoing_neighbors_exists(&self, node_name: &str) -> (r: Result<bool, Error>) {
        let ghost names = self.node_names@;
        if !self.name_to_index.contains_key(node_name) {
            proof {
                if names.contains(node_name@) {
                    assert(names.to_set().contains(node_name@));
                }
            }
            return Err(Error::NodeNotFound(String::from_str(node_name)));
        }
        proof {
            assert(names.to_set().contains(node_name@));
            self.lemma_ids(node_name@);
        }
        let index = *self.name_to_index.get(node_name).unwrap();
        let neighbors = graph_successors(&self.graph, index);
        proof {
            if neighbors.len() > 0 {
                assert(neighbors@.contains(neighbors@[0]));
            }
            if has_outgoing(self.edges(), index) {
                let to = choose|to: usize| self.edges().contains((index, to));
                assert(neighbors@.contains(to));
            }
        }
        Ok(neighbors.len() > 0)
    }

    fn is_cyclic_directed(&self) -> (r: bool) {
        // The sort walks the graph with a stack of its own, so a long chain
        // of dependencies cannot exhaust the call stack.
        match graph_toposort(&self.graph) {
            Ok(_) => false,
            Err(_) => true,
        }
    }

    fn toposort(&self) -> (r: Vec<String>) {
        broadcast use vstd::std_specs::hash::group_hash_axioms;

        let ghost names = self.node_names@;
        let order = match graph_toposort(&self.graph) {
            Ok(order) => order,
            Err(_) => unreached(),
        };
        proof {
            lemma_below_len(names.len());
            order@.unique_seq_to_set();
        }
        let mut result: Vec<String> = Vec::new();
        let mut k: usize = 0;
        while k < order.len()
            invariant
                self.wf(),
                names == self.node_names@,
                k <= order.len(),
                order@.len() == names.len(),
                is_topological(order@, graph_nodes(self.graph), graph_edges(self.graph)),
                result@.len() == k,
                forall|j: int| 0 <= j < k ==> (#[trigger] result@[j])@ == names[order@[j] as int],
            decreases order.len() - k,
        {
            let index = order[k];
            assert(order@.to_set().contains(order@[k as int]));
            assert(below(names.len()).contains(index));
            let name = self.index_to_name.get(&index).unwrap().clone();
            result.push(name);
            k = k + 1;
        }
        proof {
            let sorted = texts(result@);
            assert forall|j: int| 0 <= j < sorted.len() implies 0 <= #[trigger] order@[j]
                < names.len() && sorted[j] == names[order@[j] as int] by {
                assert(order@.to_set().contains(order@[j]));
                assert(below(names.len()).contains(order@[j]));
            }
            assert forall|i: int, j: int|
                0 <= i < sorted.len() && 0 <= j < sorted.len() && i != j implies sorted[i]
                != sorted[j] by {
                assert(order@[i] != order@[j]);
            }
            assert forall|name: Seq<char>| sorted.contains(name) <==> names.contains(name) by {
                if sorted.contains(name) {
                    let j = choose|j: int| 0 <= j < sorted.len() && sorted[j] == name;
                    assert(names[order@[j] as int] == name);
                }
                if names.contains(name) {
                    let i = choose|i: int| 0 <= i < names.len() && names[i] == name;
                    assert(below(names.len()).contains(i as usize));
                    assert(order@.to_set().contains(i as usize));
                    let j = choose|j: int| 0 <= j < order@.len() && order@[j] == i as usize;
                    assert(sorted[j] == name);
                }
            }
            assert forall|from: usize, to: usize| #[trigger]
                self.edges().contains((from, to)) implies sorted.index_of(names[from as int])
                < sorted.index_of(names[to as int]) by {
                assert(from < names.len() && to < names.len());
                assert(order@.to_set().contains(from));
                assert(order@.to_set().contains(to));
                let i = choose|i: int| 0 <= i < order@.len() && order@[i] == from;
                let j = choose|j: int| 0 <= j < order@.len() && order@[j] == to;
                assert(sorted[i] == names[from as int]);
                assert(sorted[j] == names[to as int]);
                assert(sorted.contains(names[from as int]));
                assert(sorted.contains(names[to as int]));
                let a = sorted.index_of(names[from as int]);
                let b = sorted.index_of(names[to as int]);
                assert(0 <= a < sorted.len() && sorted[a] == names[from as int]);
                assert(0 <= b < sorted.len() && sorted[b] == names[to as int]);
                assert(a == i);
                assert(b == j);
            }
        }
        result
    }
}

} // verus!
