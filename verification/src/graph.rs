//! The dependency graph built from package records.
use crate::parser::Package;
use petgraph::graph::{Graph, NodeIndex};
use vstd::hash_map::StringHashMap;
use vstd::prelude::*;
use vstd::string::StringExecFns;

verus! {

/// `petgraph::graph::Graph`, carried as an opaque value.
#[verifier::external_type_specification]
#[verifier::external_body]
#[verifier::reject_recursive_types(N)]
#[verifier::reject_recursive_types(E)]
#[verifier::reject_recursive_types(Ty)]
#[verifier::reject_recursive_types(Ix)]
pub struct ExGraph<N, E, Ty, Ix>(Graph<N, E, Ty, Ix>);

/// `petgraph::Directed`, the marker of graphs with directed edges.
#[verifier::external_type_specification]
#[verifier::external_body]
pub struct ExDirected(petgraph::Directed);

/// The node weights of a package graph, in node-index order.
pub uninterp spec fn graph_nodes(graph: Graph<Package, ()>) -> Seq<Package>;

/// The edges of a package graph as (source, target) node indices, in
/// edge-index order.
pub uninterp spec fn graph_edges(graph: Graph<Package, ()>) -> Seq<(usize, usize)>;

/// `Graph::new`: a directed graph without nodes or edges.
#[verifier::external_body]
fn new_graph() -> (graph: Graph<Package, ()>)
    ensures
        graph_nodes(graph) == Seq::<Package>::empty(),
        graph_edges(graph) == Seq::<(usize, usize)>::empty(),
{
    Graph::new()
}

/// `Graph::add_node`: appends `package` as a new node, whose index is the
/// number of nodes before the call, and leaves the edges alone. With 32-bit
/// indices the call panics once `u32::MAX` nodes exist.
#[verifier::external_body]
fn add_node(graph: &mut Graph<Package, ()>, package: Package) -> (index: usize)
    requires
        graph_nodes(*old(graph)).len() < u32::MAX,
    ensures
        graph_nodes(*final(graph)) == graph_nodes(*old(graph)).push(package),
        graph_edges(*final(graph)) == graph_edges(*old(graph)),
        index == graph_nodes(*old(graph)).len(),
{
    graph.add_node(package).index()
}

/// `Graph::add_edge`: appends an edge from node `from` to node `to` and
/// leaves the nodes alone. The call panics if either node does not exist or
/// once `u32::MAX` edges exist.
#[verifier::external_body]
fn add_edge(graph: &mut Graph<Package, ()>, from: usize, to: usize)
    requires
        graph_nodes(*old(graph)).len() <= u32::MAX,
        from < graph_nodes(*old(graph)).len(),
        to < graph_nodes(*old(graph)).len(),
        graph_edges(*old(graph)).len() < u32::MAX,
    ensures
        graph_nodes(*final(graph)) == graph_nodes(*old(graph)),
        graph_edges(*final(graph)) == graph_edges(*old(graph)).push((from, to)),
{
    graph.add_edge(NodeIndex::new(from), NodeIndex::new(to), ());
}

/// `Graph::node_count`: the number of nodes.
#[verifier::external_body]
pub(crate) fn node_count(graph: &Graph<Package, ()>) -> (count: usize)
    ensures
        count == graph_nodes(*graph).len(),
{
    graph.node_count()
}

/// `Graph::raw_nodes`, indexed: the weight of node `index`.
#[verifier::external_body]
pub(crate) fn node_weight(graph: &Graph<Package, ()>, index: usize) -> (package: &Package)
    requires
        index < graph_nodes(*graph).len(),
    ensures
        *package == graph_nodes(*graph)[index as int],
{
    &graph.raw_nodes()[index].weight
}

/// A directed graph of packages with an index from `"name version"` keys to
/// node indices.
pub struct DependencyGraph {
    pub graph: Graph<Package, ()>,
    /// Maps the key of a package to the index of its node.
    pub index_map: StringHashMap<usize>,
}

/// The index built by inserting the nodes in order under their keys: of
/// several nodes with one key the last one is kept.
pub open spec fn index_of(nodes: Seq<Package>) -> Map<Seq<char>, usize>
    decreases nodes.len(),
{
    if nodes.len() == 0 {
        Map::empty()
    } else {
        index_of(nodes.drop_last()).insert(nodes.last().key(), (nodes.len() - 1) as usize)
    }
}

/// The edges that the dependency keys `keys` of node `from` give rise to: one
/// edge for every key found in `index`, in key order, and none for the others.
pub open spec fn edges_from(index: Map<Seq<char>, usize>, from: usize, keys: Seq<Seq<char>>) -> Seq<
    (usize, usize),
>
    decreases keys.len(),
{
    if keys.len() == 0 {
        Seq::empty()
    } else {
        let earlier = edges_from(index, from, keys.drop_last());
        if index.contains_key(keys.last()) {
            earlier.push((from, index[keys.last()]))
        } else {
            earlier
        }
    }
}

/// The edges of the first `count` nodes, node by node.
pub open spec fn edges_upto(index: Map<Seq<char>, usize>, nodes: Seq<Package>, count: nat) -> Seq<
    (usize, usize),
>
    decreases count,
{
    if count == 0 {
        Seq::empty()
    } else {
        edges_upto(index, nodes, (count - 1) as nat) + edges_from(
            index,
            (count - 1) as usize,
            nodes[count - 1].dependency_keys(),
        )
    }
}

/// All edges of the graph over `nodes`: every dependency key of every node,
/// looked up in the index of all nodes.
pub open spec fn resolved_edges(nodes: Seq<Package>) -> Seq<(usize, usize)> {
    edges_upto(index_of(nodes), nodes, nodes.len())
}

/// The number of dependency keys that the first `count` nodes list.
pub open spec fn key_count(nodes: Seq<Package>, count: nat) -> nat
    decreases count,
{
    if count == 0 {
        0
    } else {
        key_count(nodes, (count - 1) as nat) + nodes[count - 1].dependency_keys().len()
    }
}

/// `key` is the key of one of the nodes.
pub open spec fn is_node_key(nodes: Seq<Package>, key: Seq<char>) -> bool {
    exists|i: int| 0 <= i < nodes.len() && (#[trigger] nodes[i]).key() == key
}

/// The number of dependency keys, among those that the first `count` nodes
/// list, that are keys of nodes.
pub open spec fn resolved_key_count(nodes: Seq<Package>, count: nat) -> nat
    decreases count,
{
    if count == 0 {
        0
    } else {
        resolved_key_count(nodes, (count - 1) as nat) + nodes[count - 1].dependency_keys().filter(
            |key: Seq<char>| is_node_key(nodes, key),
        ).len()
    }
}

/// Where among all edges the edge stands that the dependency key at
/// `position` of node `from` gives rise to: after the edges of the nodes
/// before `from` and those of the keys before `position`.
pub open spec fn edge_position(nodes: Seq<Package>, from: int, position: int) -> int {
    (edges_upto(index_of(nodes), nodes, from as nat).len() + edges_from(
        index_of(nodes),
        from as usize,
        nodes[from].dependency_keys().take(position),
    ).len()) as int
}

impl DependencyGraph {
    /// The packages of the graph, in node order.
    pub open spec fn nodes(&self) -> Seq<Package> {
        graph_nodes(self.graph)
    }

    /// The edges of the graph as (dependent, dependency) node indices.
    pub open spec fn edges(&self) -> Seq<(usize, usize)> {
        graph_edges(self.graph)
    }

    /// The index from package keys to node indices.
    pub open spec fn index(&self) -> Map<Seq<char>, usize> {
        self.index_map@
    }

    /// The index covers exactly the nodes and the edges are the resolved
    /// dependencies of the nodes.
    pub open spec fn wf(&self) -> bool {
        &&& self.nodes().len() <= u32::MAX
        &&& self.index() == index_of(self.nodes())
        &&& self.edges() == resolved_edges(self.nodes())
    }
}

/// Every key in the index of `nodes` leads to a node with that key, and to the
/// last such node; every node's key is in the index.
pub proof fn lemma_index_of(nodes: Seq<Package>)
    requires
        nodes.len() <= usize::MAX,
    ensures
        forall|key: Seq<char>| #[trigger]
            index_of(nodes).contains_key(key) ==> {
                &&& index_of(nodes)[key] < nodes.len()
                &&& nodes[index_of(nodes)[key] as int].key() == key
                &&& forall|later: int|
                    index_of(nodes)[key] < later < nodes.len() ==> (#[trigger] nodes[later]).key()
                        != key
            },
        forall|i: int|
            0 <= i < nodes.len() ==> index_of(nodes).contains_key((#[trigger] nodes[i]).key()),
    decreases nodes.len(),
{
    if nodes.len() > 0 {
        lemma_index_of(nodes.drop_last());
        let earlier = nodes.drop_last();
        assert forall|i: int| 0 <= i < nodes.len() implies index_of(nodes).contains_key(
            (#[trigger] nodes[i]).key(),
        ) by {
            if i < nodes.len() - 1 {
                assert(earlier[i] == nodes[i]);
            }
        }
        assert forall|key: Seq<char>| #[trigger]
            index_of(nodes).contains_key(key) implies {
            &&& index_of(nodes)[key] < nodes.len()
            &&& nodes[index_of(nodes)[key] as int].key() == key
            &&& forall|later: int|
                index_of(nodes)[key] < later < nodes.len() ==> (#[trigger] nodes[later]).key()
                    != key
        } by {
            if key != nodes.last().key() {
                let at = index_of(earlier)[key];
                assert forall|later: int| at < later < nodes.len() implies (
                #[trigger] nodes[later]).key() != key by {
                    if later < nodes.len() - 1 {
                        assert(earlier[later] == nodes[later]);
                    }
                }
            }
        }
    }
}

/// The edges of the first dependency keys of a node are the first edges of
/// all its keys.
proof fn lemma_edges_from_prefix(
    index: Map<Seq<char>, usize>,
    from: usize,
    keys: Seq<Seq<char>>,
    taken: int,
)
    requires
        0 <= taken <= keys.len(),
    ensures
        edges_from(index, from, keys.take(taken)).is_prefix_of(edges_from(index, from, keys)),
    decreases keys.len(),
{
    if taken == keys.len() {
        assert(keys.take(taken) == keys);
    } else {
        assert(keys.drop_last().take(taken) == keys.take(taken));
        lemma_edges_from_prefix(index, from, keys.drop_last(), taken);
    }
}

/// The edges of the first nodes are the first edges of all nodes.
proof fn lemma_edges_upto_grows(
    index: Map<Seq<char>, usize>,
    nodes: Seq<Package>,
    fewer: nat,
    more: nat,
)
    requires
        fewer <= more,
    ensures
        edges_upto(index, nodes, fewer).is_prefix_of(edges_upto(index, nodes, more)),
    decreases more,
{
    if fewer < more {
        lemma_edges_upto_grows(index, nodes, fewer, (more - 1) as nat);
    }
}

/// The dependency keys of one node give rise to exactly one edge for every
/// key that the index holds and to none for the others. Every such edge leaves
/// the node and enters the node that the index names for its key.
pub proof fn lemma_edges_from(index: Map<Seq<char>, usize>, from: usize, keys: Seq<Seq<char>>)
    ensures
        edges_from(index, from, keys).len() == keys.filter(
            |key: Seq<char>| index.contains_key(key),
        ).len(),
        forall|e: int|
            0 <= e < edges_from(index, from, keys).len() ==> {
                let edge = #[trigger] edges_from(index, from, keys)[e];
                &&& edge.0 == from
                &&& exists|k: int|
                    0 <= k < keys.len() && index.contains_key(#[trigger] keys[k]) && index[keys[k]]
                        == edge.1
            },
    decreases keys.len(),
{
    reveal(Seq::filter);
    if keys.len() > 0 {
        let earlier = keys.drop_last();
        lemma_edges_from(index, from, earlier);
        assert forall|e: int| 0 <= e < edges_from(index, from, keys).len() implies {
            let edge = #[trigger] edges_from(index, from, keys)[e];
            &&& edge.0 == from
            &&& exists|k: int|
                0 <= k < keys.len() && index.contains_key(#[trigger] keys[k]) && index[keys[k]]
                    == edge.1
        } by {
            let edge = edges_from(index, from, keys)[e];
            if e < edges_from(index, from, earlier).len() {
                let k = choose|k: int|
                    0 <= k < earlier.len() && index.contains_key(#[trigger] earlier[k])
                        && index[earlier[k]] == edge.1;
                assert(keys[k] == earlier[k]);
            } else {
                assert(index.contains_key(keys[keys.len() - 1]));
            }
        }
    }
}

/// Every edge of the graph over `nodes` joins two of its nodes, and the
/// key of the node it enters is among the dependency keys of the node it
/// leaves.
pub proof fn lemma_resolved_edges(nodes: Seq<Package>)
    requires
        nodes.len() <= usize::MAX,
    ensures
        forall|e: int|
            0 <= e < resolved_edges(nodes).len() ==> {
                let edge = #[trigger] resolved_edges(nodes)[e];
                &&& edge.0 < nodes.len()
                &&& edge.1 < nodes.len()
                &&& nodes[edge.0 as int].dependency_keys().contains(nodes[edge.1 as int].key())
            },
{
    lemma_edges_upto(nodes, nodes.len());
}

/// What `lemma_resolved_edges` says, of the edges of the first `count` nodes.
proof fn lemma_edges_upto(nodes: Seq<Package>, count: nat)
    requires
        count <= nodes.len() <= usize::MAX,
    ensures
        forall|e: int|
            0 <= e < edges_upto(index_of(nodes), nodes, count).len() ==> {
                let edge = #[trigger] edges_upto(index_of(nodes), nodes, count)[e];
                &&& edge.0 < count
                &&& edge.1 < nodes.len()
                &&& nodes[edge.0 as int].dependency_keys().contains(nodes[edge.1 as int].key())
            },
    decreases count,
{
    if count > 0 {
        let index = index_of(nodes);
        let from = (count - 1) as usize;
        let keys = nodes[count - 1].dependency_keys();
        let earlier = edges_upto(index, nodes, (count - 1) as nat);
        lemma_edges_upto(nodes, (count - 1) as nat);
        lemma_edges_from(index, from, keys);
        lemma_index_of(nodes);
        assert forall|e: int| 0 <= e < edges_upto(index, nodes, count).len() implies {
            let edge = #[trigger] edges_upto(index, nodes, count)[e];
            &&& edge.0 < count
            &&& edge.1 < nodes.len()
            &&& nodes[edge.0 as int].dependency_keys().contains(nodes[edge.1 as int].key())
        } by {
            let edge = edges_upto(index, nodes, count)[e];
            if e >= earlier.len() {
                let k = choose|k: int|
                    0 <= k < keys.len() && index.contains_key(#[trigger] keys[k]) && index[keys[k]]
                        == edge.1;
                assert(nodes[edge.1 as int].key() == keys[k]);
            }
        }
    }
}

/// There are exactly as many edges as there are dependency keys that are
/// the key of a node.
pub proof fn lemma_edge_count(nodes: Seq<Package>)
    requires
        nodes.len() <= usize::MAX,
    ensures
        resolved_edges(nodes).len() == resolved_key_count(nodes, nodes.len()),
{
    lemma_edge_count_upto(nodes, nodes.len());
}

/// What `lemma_edge_count` says, of the first `count` nodes.
proof fn lemma_edge_count_upto(nodes: Seq<Package>, count: nat)
    requires
        count <= nodes.len() <= usize::MAX,
    ensures
        edges_upto(index_of(nodes), nodes, count).len() == resolved_key_count(nodes, count),
    decreases count,
{
    if count > 0 {
        let index = index_of(nodes);
        lemma_edge_count_upto(nodes, (count - 1) as nat);
        lemma_edges_from(index, (count - 1) as usize, nodes[count - 1].dependency_keys());
        lemma_index_is_node_keys(nodes);
    }
}

/// The index of `nodes` holds exactly the keys of the nodes.
pub proof fn lemma_index_is_node_keys(nodes: Seq<Package>)
    requires
        nodes.len() <= usize::MAX,
    ensures
        forall|key: Seq<char>| #[trigger]
            index_of(nodes).contains_key(key) <==> is_node_key(nodes, key),
        (|key: Seq<char>| index_of(nodes).contains_key(key)) == (|key: Seq<char>|
            is_node_key(nodes, key)),
{
    lemma_index_of(nodes);
    assert forall|key: Seq<char>| #[trigger]
        index_of(nodes).contains_key(key) <==> is_node_key(nodes, key) by {
        if index_of(nodes).contains_key(key) {
            assert(nodes[index_of(nodes)[key] as int].key() == key);
        }
    }
    assert((|key: Seq<char>| index_of(nodes).contains_key(key)) =~= (|key: Seq<char>|
        is_node_key(nodes, key)));
}

/// Every dependency key that is the key of a node gives rise to an edge of
/// its own, which leaves the node that lists the key and enters the node
/// that the index names for it, a node with that key.
pub proof fn lemma_edge_for_key(nodes: Seq<Package>, from: int, position: int)
    requires
        nodes.len() <= usize::MAX,
        0 <= from < nodes.len(),
        0 <= position < nodes[from].dependency_keys().len(),
        is_node_key(nodes, nodes[from].dependency_keys()[position]),
    ensures
        ({
            let key = nodes[from].dependency_keys()[position];
            let at = edge_position(nodes, from, position);
            &&& 0 <= at < resolved_edges(nodes).len()
            &&& resolved_edges(nodes)[at] == (from as usize, index_of(nodes)[key])
            &&& index_of(nodes)[key] < nodes.len()
            &&& nodes[index_of(nodes)[key] as int].key() == key
        }),
{
    let index = index_of(nodes);
    let keys = nodes[from].dependency_keys();
    let longer = keys.take(position + 1);
    let at = edge_position(nodes, from, position);
    lemma_index_is_node_keys(nodes);
    lemma_index_of(nodes);
    assert(longer.drop_last() == keys.take(position));
    assert(longer.last() == keys[position]);
    let here = edges_from(index, from as usize, longer);
    assert(here[here.len() - 1] == (from as usize, index[keys[position]]));
    lemma_edges_from_prefix(index, from as usize, keys, position + 1);
    let of_node = edges_from(index, from as usize, keys);
    assert(of_node[here.len() - 1] == here[here.len() - 1]);
    let through = edges_upto(index, nodes, (from + 1) as nat);
    assert(through[at] == of_node[here.len() - 1]);
    lemma_edges_upto_grows(index, nodes, (from + 1) as nat, nodes.len());
    assert(resolved_edges(nodes)[at] == through[at]);
}

/// Two different dependency keys that are keys of nodes give rise to
/// different edges: the one that is listed first has the earlier edge.
pub proof fn lemma_edge_positions_grow(
    nodes: Seq<Package>,
    from: int,
    position: int,
    later_from: int,
    later_position: int,
)
    requires
        nodes.len() <= usize::MAX,
        0 <= from <= later_from < nodes.len(),
        0 <= position < nodes[from].dependency_keys().len(),
        0 <= later_position < nodes[later_from].dependency_keys().len(),
        from < later_from || position < later_position,
        is_node_key(nodes, nodes[from].dependency_keys()[position]),
    ensures
        edge_position(nodes, from, position) < edge_position(nodes, later_from, later_position),
{
    let index = index_of(nodes);
    let keys = nodes[from].dependency_keys();
    let longer = keys.take(position + 1);
    lemma_index_is_node_keys(nodes);
    assert(longer.drop_last() == keys.take(position));
    assert(longer.last() == keys[position]);
    if from == later_from {
        assert(keys.take(later_position).take(position + 1) == longer);
        lemma_edges_from_prefix(index, from as usize, keys.take(later_position), position + 1);
    } else {
        lemma_edges_from_prefix(index, from as usize, keys, position + 1);
        lemma_edges_upto_grows(index, nodes, (from + 1) as nat, later_from as nat);
    }
}

/// There are no more edges than dependency keys.
pub proof fn lemma_edges_bounded(index: Map<Seq<char>, usize>, nodes: Seq<Package>, count: nat)
    ensures
        edges_upto(index, nodes, count).len() <= key_count(nodes, count),
    decreases count,
{
    if count > 0 {
        lemma_edges_bounded(index, nodes, (count - 1) as nat);
        lemma_edges_from(index, (count - 1) as usize, nodes[count - 1].dependency_keys());
        nodes[count - 1].dependency_keys().lemma_filter_len(
            |key: Seq<char>| index.contains_key(key),
        );
    }
}

/// The first nodes list no more dependency keys than all of them.
proof fn lemma_key_count_grows(nodes: Seq<Package>, fewer: nat, more: nat)
    requires
        fewer <= more,
    ensures
        key_count(nodes, fewer) <= key_count(nodes, more),
    decreases more,
{
    if fewer < more {
        lemma_key_count_grows(nodes, fewer, (more - 1) as nat);
    }
}

/// The number of dependency keys of `package`.
fn dependency_count(package: &Package) -> (count: usize)
    ensures
        count == package.dependency_keys().len(),
{
    match &package.dependencies {
        Some(deps) => deps.len(),
        None => 0,
    }
}

/// Looks up the dependency key at `position` of `package` in the index.
fn resolve_dependency(
    package: &Package,
    position: usize,
    index_map: &StringHashMap<usize>,
) -> (target: Option<usize>)
    requires
        position < package.dependency_keys().len(),
    ensures
        target == if index_map@.contains_key(package.dependency_keys()[position as int]) {
            Some(index_map@[package.dependency_keys()[position as int]])
        } else {
            None
        },
{
    match &package.dependencies {
        Some(deps) => {
            match index_map.get(deps[position].as_str()) {
                Some(target) => Some(*target),
                None => None,
            }
        },
        None => None,
    }
}

impl DependencyGraph {
    /// Builds the graph of `packages`: one node per package, in order, each
    /// indexed under its key (of several packages with one key the last one
    /// is found by the index), and one edge for every dependency key that the
    /// index holds, from the dependent to the dependency; other keys are
    /// passed over.
    ///
    /// Nodes and edges carry 32-bit indices, hence the two limits.
    pub fn from_lockfile(packages: Vec<Package>) -> (built: Self)
        requires
            packages@.len() <= u32::MAX,
            resolved_edges(packages@).len() <= u32::MAX,
        ensures
            built.nodes() == packages@,
            built.nodes().len() == packages@.len(),
            built.index() == index_of(packages@),
            built.edges() == resolved_edges(packages@),
            built.wf(),
    {
        let ghost all = packages@;
        let mut graph = new_graph();
        let mut index_map: StringHashMap<usize> = StringHashMap::new();
        for package in iter: packages
            invariant
                iter.seq() == all,
                all.len() <= u32::MAX,
                graph_nodes(graph) == all.take(iter.index() as int),
                graph_edges(graph) == Seq::<(usize, usize)>::empty(),
                index_map@ == index_of(all.take(iter.index() as int)),
        {
            let mut key = package.name.clone();
            key.append(" ");
            key.append(package.version.as_str());
            proof {
                reveal_strlit(" ");
                assert(key@ == package.key());
                let done = all.take(iter.index() as int);
                let next = all.take(iter.index() + 1);
                assert(next.drop_last() == done);
            }
            let at = add_node(&mut graph, package);
            index_map.insert(key, at);
        }

        let count = node_count(&graph);
        let mut from: usize = 0;
        while from < count
            invariant
                from <= count == all.len() <= u32::MAX,
                graph_nodes(graph) == all,
                index_map@ == index_of(all),
                graph_edges(graph) == edges_upto(index_of(all), all, from as nat),
                resolved_edges(all).len() <= u32::MAX,
            decreases count - from,
        {
            let key_count = dependency_count(node_weight(&graph, from));
            let ghost keys = all[from as int].dependency_keys();
            let ghost before = edges_upto(index_of(all), all, from as nat);
            let mut position: usize = 0;
            while position < key_count
                invariant
                    from < count == all.len() <= u32::MAX,
                    position <= key_count == keys.len(),
                    keys == all[from as int].dependency_keys(),
                    before == edges_upto(index_of(all), all, from as nat),
                    graph_nodes(graph) == all,
                    index_map@ == index_of(all),
                    graph_edges(graph) == before + edges_from(
                        index_of(all),
                        from,
                        keys.take(position as int),
                    ),
                    resolved_edges(all).len() <= u32::MAX,
                decreases key_count - position,
            {
                let target = resolve_dependency(node_weight(&graph, from), position, &index_map);
                proof {
                    let longer = keys.take(position + 1);
                    assert(longer.drop_last() == keys.take(position as int));
                    lemma_index_of(all);
                    lemma_edges_from_prefix(index_of(all), from, keys, position + 1);
                    lemma_edges_upto_grows(index_of(all), all, (from + 1) as nat, all.len());
                }
                match target {
                    Some(to) => {
                        add_edge(&mut graph, from, to);
                        assert(graph_edges(graph) == before + edges_from(
                            index_of(all),
                            from,
                            keys.take(position + 1),
                        ));
                    },
                    None => {},
                }
                position += 1;
            }
            assert(keys.take(key_count as int) == keys);
            from += 1;
        }
        DependencyGraph { graph, index_map }
    }

    /// Builds the graph of `packages` as [`DependencyGraph::from_lockfile`]
    /// does, provided that neither the packages nor the dependency keys they
    /// list outnumber the 32-bit indices of the graph.
    pub fn try_from_lockfile(packages: Vec<Package>) -> (built: Option<Self>)
        ensures
            built is Some <==> packages@.len() <= u32::MAX && key_count(
                packages@,
                packages@.len(),
            ) <= u32::MAX,
            built matches Some(graph) ==> {
                &&& graph.nodes() == packages@
                &&& graph.nodes().len() == packages@.len()
                &&& graph.index() == index_of(packages@)
                &&& graph.edges() == resolved_edges(packages@)
                &&& graph.wf()
            },
    {
        let limit: usize = 0xffff_ffff;
        if packages.len() > limit {
            return None;
        }
        let mut keys: usize = 0;
        let mut i: usize = 0;
        while i < packages.len()
            invariant
                i <= packages@.len(),
                limit == u32::MAX,
                keys == key_count(packages@, i as nat) <= limit,
            decreases packages@.len() - i,
        {
            let listed = dependency_count(&packages[i]);
            if listed > limit - keys {
                proof {
                    lemma_key_count_grows(packages@, (i + 1) as nat, packages@.len());
                }
                return None;
            }
            keys += listed;
            i += 1;
        }
        proof {
            lemma_edges_bounded(index_of(packages@), packages@, packages@.len());
        }
        Some(Self::from_lockfile(packages))
    }
}

} // verus!
