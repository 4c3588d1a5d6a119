//! The order of the layers.
//!
//! A layer comes after those that it copies from. The layers make a graph of
//! the crate `petgraph`, which is visited in topological order.

use crate::names::{lemma_sorted_exists, sorted};
use crate::plan::{Layer, LayerView, Layers, Source, SourceView};
use crate::text::{texts, Text};
use petgraph::graphmap::GraphMap;
use petgraph::visit::{Topo, Walker};
use petgraph::Directed;
use std::hash::BuildHasher;
use vstd::prelude::*;

verus! {

/// The mark of `petgraph` for graphs with directed edges.
#[verifier::external_type_specification]
#[verifier::external_body]
pub struct ExDirected(Directed);

/// A graph of `petgraph` whose nodes are the keys of a map.
#[verifier::external_type_specification]
#[verifier::external_body]
#[verifier::reject_recursive_types(N)]
#[verifier::reject_recursive_types(E)]
#[verifier::reject_recursive_types(Ty)]
#[verifier::reject_recursive_types(S)]
pub struct ExGraphMap<N, E, Ty, S: BuildHasher>(GraphMap<N, E, Ty, S>);

/// The nodes of a graph, in the order in which they came into it.
pub uninterp spec fn graph_nodes(graph: GraphMap<&str, (), Directed>) -> Seq<Text>;

/// The edges of a graph, each from its first node to its second, in the order in
/// which they came into it.
pub uninterp spec fn graph_edges(graph: GraphMap<&str, (), Directed>) -> Seq<(Text, Text)>;

/// What a graph holds.
pub struct GraphView {
    pub nodes: Seq<Text>,
    pub edges: Seq<(Text, Text)>,
}

impl GraphView {
    /// The graph without nodes and edges.
    pub open spec fn empty() -> GraphView {
        GraphView { nodes: Seq::empty(), edges: Seq::empty() }
    }

    /// The graph with one more node, unless it has the node.
    pub open spec fn with_node(self, node: Text) -> GraphView {
        if self.nodes.contains(node) {
            self
        } else {
            GraphView { nodes: self.nodes.push(node), ..self }
        }
    }

    /// The graph with one more edge and its nodes, unless it has the edge.
    pub open spec fn with_edge(self, from: Text, to: Text) -> GraphView {
        if self.edges.contains((from, to)) {
            self
        } else {
            GraphView {
                edges: self.edges.push((from, to)),
                ..self.with_node(from).with_node(to)
            }
        }
    }
}

/// What `graph` holds.
pub open spec fn graph_view(graph: GraphMap<&str, (), Directed>) -> GraphView {
    GraphView { nodes: graph_nodes(graph), edges: graph_edges(graph) }
}

/// `GraphMap::new` makes a graph without nodes and edges.
#[verifier::external_body]
fn new_graph<'a>() -> (graph: GraphMap<&'a str, (), Directed>)
    ensures
        graph_nodes(graph) == Seq::<Text>::empty(),
        graph_edges(graph) == Seq::<(Text, Text)>::empty(),
{
    GraphMap::new()
}

/// `GraphMap::add_node` adds a node, unless the graph has it.
#[verifier::external_body]
fn add_node<'a>(graph: &mut GraphMap<&'a str, (), Directed>, node: &'a str)
    ensures
        graph_view(*final(graph)) == graph_view(*old(graph)).with_node(node@),
{
    graph.add_node(node);
}

/// `GraphMap::add_edge` adds an edge from `from` to `to`, and before it those of
/// the two nodes that the graph does not have. Where the graph has the edge, it
/// stays as it is.
#[verifier::external_body]
fn add_edge<'a>(graph: &mut GraphMap<&'a str, (), Directed>, from: &'a str, to: &'a str)
    ensures
        graph_view(*final(graph)) == graph_view(*old(graph)).with_edge(from@, to@),
{
    graph.add_edge(from, to, ());
}

/// The order in which `Topo` visits a graph to which these nodes and edges were
/// added, in this order.
pub uninterp spec fn visit_order(nodes: Seq<Text>, edges: Seq<(Text, Text)>) -> Seq<Text>;

/// Whether `order` visits nodes of the graph, none twice, each after all nodes
/// with an edge to it, and leaves out no node of which it visits all those.
pub open spec fn topological(order: Seq<Text>, graph: GraphView) -> bool {
    &&& order.no_duplicates()
    &&& forall|i: int| 0 <= i < order.len() ==> graph.nodes.contains(#[trigger] order[i])
    &&& forall|i: int, from: Text| #![trigger order[i], graph.edges.contains((from, order[i]))]
        0 <= i < order.len() && graph.edges.contains((from, order[i])) ==> order.take(i).contains(
            from,
        )
    &&& forall|node: Text| #[trigger]
        graph.nodes.contains(node) && (forall|from: Text| #[trigger]
            graph.edges.contains((from, node)) ==> order.contains(from)) ==> order.contains(node)
}

/// `Topo` visits a graph in topological order: first nodes without an edge to
/// them, then each node as soon as all with an edge to it were visited. It
/// leaves out the nodes of a cycle and those that come after them. Which of the
/// nodes that may come next comes next goes by the order in which nodes and edges
/// came into the graph.
#[verifier::external_body]
fn topological_order(graph: &GraphMap<&str, (), Directed>) -> (order: Vec<String>)
    ensures
        texts(order@) == visit_order(graph_nodes(*graph), graph_edges(*graph)),
        topological(texts(order@), graph_view(*graph)),
{
    Topo::new(graph).iter(graph).map(|node| node.to_string()).collect()
}

/// The graph with an edge from each of `locals` to the layer `name`.
pub open spec fn with_local_edges(graph: GraphView, locals: Seq<Text>, name: Text) -> GraphView
    decreases locals.len(),
{
    if locals.len() == 0 {
        graph
    } else {
        with_local_edges(graph, locals.drop_last(), name).with_edge(locals.last(), name)
    }
}

/// The graph with the layer and an edge from each layer that it copies from.
pub open spec fn with_layer(graph: GraphView, layer: LayerView) -> GraphView {
    let copied = with_local_edges(graph, sorted(layer.local), layer.name);
    let sourced = match layer.source {
        SourceView::Path(_) => copied,
        SourceView::LayerName(source) => copied.with_edge(source, layer.name),
    };
    sourced.with_node(layer.name)
}

/// The graph with all of `layers`, one after the other.
pub open spec fn with_layers(graph: GraphView, layers: Seq<LayerView>) -> GraphView
    decreases layers.len(),
{
    if layers.len() == 0 {
        graph
    } else {
        with_layer(with_layers(graph, layers.drop_last()), layers.last())
    }
}

/// The layers in ascending order of the names that they are under.
pub open spec fn layer_list(layers: Map<Text, LayerView>) -> Seq<LayerView> {
    sorted(layers.dom()).map_values(|name: Text| layers[name])
}

/// The graph of the build layers and the run-time layers.
pub open spec fn layer_graph(build: Map<Text, LayerView>, run: Map<Text, LayerView>) -> GraphView {
    with_layers(with_layers(GraphView::empty(), layer_list(build)), layer_list(run))
}

/// Adds a layer and an edge from each layer that it copies from.
fn add_layer<'a>(graph: &mut GraphMap<&'a str, (), Directed>, layer: &'a Layer)
    ensures
        graph_view(*final(graph)) == with_layer(graph_view(*old(graph)), layer@),
{
    let ghost before = graph_view(*graph);
    let locals = layer.local_dependencies.names();
    let ghost all = texts(locals@);
    let mut i: usize = 0;
    while i < locals.len()
        invariant
            i <= locals.len(),
            all == texts(locals@),
            graph_view(*graph) == with_local_edges(before, all.take(i as int), layer.name@),
        decreases locals.len() - i,
    {
        proof {
            assert(all.take(i + 1).drop_last() == all.take(i as int));
            assert(all.take(i + 1).last() == locals[i as int]@);
        }
        add_edge(graph, locals[i].as_str(), layer.name.as_str());
        i += 1;
    }
    assert(all.take(locals.len() as int) == all);
    if let Source::LayerName(source) = &layer.source {
        add_edge(graph, source.as_str(), layer.name.as_str());
    }
    add_node(graph, layer.name.as_str());
}

/// Adds all of `layers`, in ascending order of the names that they are under.
fn add_layers<'a>(graph: &mut GraphMap<&'a str, (), Directed>, layers: &'a Layers)
    ensures
        graph_view(*final(graph)) == with_layers(graph_view(*old(graph)), layer_list(layers@)),
{
    let ghost before = graph_view(*graph);
    let ghost all = layer_list(layers@);
    let names = layers.names();
    assert(all.len() == names.len());
    let mut i: usize = 0;
    while i < names.len()
        invariant
            i <= names.len(),
            texts(names@) == sorted(layers@.dom()),
            all == layer_list(layers@),
            all.len() == names.len(),
            graph_view(*graph) == with_layers(before, all.take(i as int)),
        decreases names.len() - i,
    {
        let layer = layers.value_at(i);
        proof {
            assert(all.take(i + 1).drop_last() == all.take(i as int));
            assert(all.take(i + 1).last() == layer@);
        }
        add_layer(graph, layer);
        i += 1;
    }
    assert(all.take(names.len() as int) == all);
}

/// The names of the layers, each after those of the layers that it copies from.
pub fn layer_order(build_layers: &Layers, exec_layers: &Layers) -> (order: Vec<String>)
    ensures
        texts(order@) == visit_order(
            layer_graph(build_layers@, exec_layers@).nodes,
            layer_graph(build_layers@, exec_layers@).edges,
        ),
        topological(texts(order@), layer_graph(build_layers@, exec_layers@)),
{
    let mut graph = new_graph();
    add_layers(&mut graph, build_layers);
    add_layers(&mut graph, exec_layers);
    topological_order(&graph)
}

/// Whether the layer copies from the layer `from`.
pub open spec fn copies_from(layer: LayerView, from: Text) -> bool {
    layer.local.contains(from) || layer.source == SourceView::LayerName(from)
}

/// Whether there are finitely many layers and each copies from finitely many.
pub open spec fn finite_layers(layers: Map<Text, LayerView>) -> bool {
    layers.dom().finite() && forall|name: Text| #[trigger]
        layers.contains_key(name) ==> layers[name].local.finite()
}

/// Whether `layers` has a layer `name` that copies from `from`.
pub open spec fn has_copy(layers: Map<Text, LayerView>, from: Text, name: Text) -> bool {
    exists|key: Text| #[trigger]
        layers.contains_key(key) && layers[key].name == name && copies_from(layers[key], from)
}

/// Whether `layers` has a layer `name`.
pub open spec fn has_layer(layers: Map<Text, LayerView>, name: Text) -> bool {
    exists|key: Text| #[trigger] layers.contains_key(key) && layers[key].name == name
}

/// Whether both nodes of each edge are nodes of the graph.
spec fn closed_graph(graph: GraphView) -> bool {
    forall|from: Text, to: Text| #[trigger]
        graph.edges.contains((from, to)) ==> graph.nodes.contains(from) && graph.nodes.contains(to)
}

proof fn lemma_contains_push<A>(list: Seq<A>, item: A, other: A)
    ensures
        list.push(item).contains(other) <==> list.contains(other) || other == item,
{
    let longer = list.push(item);
    assert(longer[list.len() as int] == item);
    if list.contains(other) {
        let k = choose|k: int| 0 <= k < list.len() && list[k] == other;
        assert(longer[k] == other);
    }
    if longer.contains(other) && other != item {
        let k = choose|k: int| 0 <= k < longer.len() && longer[k] == other;
        assert(list[k] == other);
    }
}

proof fn lemma_with_node(graph: GraphView, node: Text)
    requires
        closed_graph(graph),
    ensures
        closed_graph(graph.with_node(node)),
        graph.with_node(node).edges == graph.edges,
        forall|n: Text| #[trigger]
            graph.with_node(node).nodes.contains(n) <==> graph.nodes.contains(n) || n == node,
{
    assert forall|n: Text| #[trigger]
        graph.with_node(node).nodes.contains(n) <==> graph.nodes.contains(n) || n == node by {
        lemma_contains_push(graph.nodes, node, n);
    }
}

proof fn lemma_with_edge(graph: GraphView, from: Text, to: Text)
    requires
        closed_graph(graph),
    ensures
        closed_graph(graph.with_edge(from, to)),
        forall|a: Text, b: Text| #[trigger]
            graph.with_edge(from, to).edges.contains((a, b)) <==> graph.edges.contains((a, b)) || (a
                == from && b == to),
        forall|n: Text| #[trigger]
            graph.with_edge(from, to).nodes.contains(n) <==> graph.nodes.contains(n) || n == from
                || n == to,
{
    let after = graph.with_edge(from, to);
    lemma_with_node(graph, from);
    lemma_with_node(graph.with_node(from), to);
    assert forall|a: Text, b: Text| #[trigger]
        after.edges.contains((a, b)) <==> graph.edges.contains((a, b)) || (a == from && b == to) by {
        lemma_contains_push(graph.edges, (from, to), (a, b));
    }
}

proof fn lemma_with_local_edges(graph: GraphView, locals: Seq<Text>, name: Text)
    requires
        closed_graph(graph),
    ensures
        closed_graph(with_local_edges(graph, locals, name)),
        forall|a: Text, b: Text| #[trigger]
            with_local_edges(graph, locals, name).edges.contains((a, b)) <==> graph.edges.contains(
                (a, b),
            ) || (locals.contains(a) && b == name),
        forall|n: Text| #[trigger]
            with_local_edges(graph, locals, name).nodes.contains(n) <==> graph.nodes.contains(n)
                || locals.contains(n) || (locals.len() > 0 && n == name),
    decreases locals.len(),
{
    if locals.len() > 0 {
        let front = locals.drop_last();
        let last = locals.last();
        let before = with_local_edges(graph, front, name);
        lemma_with_local_edges(graph, front, name);
        lemma_with_edge(before, last, name);
        assert(front.push(last) == locals);
        assert forall|n: Text| #[trigger] locals.contains(n) <==> front.contains(n) || n == last by {
            lemma_contains_push(front, last, n);
        }
    }
}

proof fn lemma_with_layer(graph: GraphView, layer: LayerView)
    requires
        closed_graph(graph),
        layer.local.finite(),
    ensures
        closed_graph(with_layer(graph, layer)),
        forall|a: Text, b: Text| #[trigger]
            with_layer(graph, layer).edges.contains((a, b)) <==> graph.edges.contains((a, b)) || (b
                == layer.name && copies_from(layer, a)),
        forall|n: Text| #[trigger]
            with_layer(graph, layer).nodes.contains(n) <==> graph.nodes.contains(n) || n
                == layer.name || copies_from(layer, n),
{
    let locals = sorted(layer.local);
    lemma_sorted_exists(layer.local);
    assert forall|n: Text| #[trigger] locals.contains(n) <==> layer.local.contains(n) by {
        assert(locals.to_set().contains(n) <==> layer.local.contains(n));
    }
    let copied = with_local_edges(graph, locals, layer.name);
    lemma_with_local_edges(graph, locals, layer.name);
    match layer.source {
        SourceView::Path(_) => {
            lemma_with_node(copied, layer.name);
        },
        SourceView::LayerName(source) => {
            lemma_with_edge(copied, source, layer.name);
            lemma_with_node(copied.with_edge(source, layer.name), layer.name);
        },
    }
}

proof fn lemma_with_layers(graph: GraphView, layers: Seq<LayerView>)
    requires
        closed_graph(graph),
        forall|k: int| 0 <= k < layers.len() ==> (#[trigger] layers[k]).local.finite(),
    ensures
        closed_graph(with_layers(graph, layers)),
        forall|a: Text, b: Text| #[trigger]
            with_layers(graph, layers).edges.contains((a, b)) <==> graph.edges.contains((a, b)) || (
            exists|k: int|
                0 <= k < layers.len() && (#[trigger] layers[k]).name == b && copies_from(
                    layers[k],
                    a,
                )),
        forall|n: Text| #[trigger]
            with_layers(graph, layers).nodes.contains(n) <==> graph.nodes.contains(n) || (exists|
                k: int,
            |
                0 <= k < layers.len() && ((#[trigger] layers[k]).name == n || copies_from(
                    layers[k],
                    n,
                ))),
    decreases layers.len(),
{
    if layers.len() > 0 {
        let front = layers.drop_last();
        let last = layers.last();
        let before = with_layers(graph, front);
        let after = with_layers(graph, layers);
        assert forall|k: int| 0 <= k < front.len() implies (#[trigger] front[k]).local.finite() by {
            assert(front[k] == layers[k]);
        }
        assert(layers[layers.len() - 1] == last);
        lemma_with_layers(graph, front);
        lemma_with_layer(before, last);
        assert forall|a: Text, b: Text| #[trigger]
            after.edges.contains((a, b)) <==> graph.edges.contains((a, b)) || (exists|k: int|
                0 <= k < layers.len() && (#[trigger] layers[k]).name == b && copies_from(
                    layers[k],
                    a,
                )) by {
            assert(before.edges.contains((a, b)) <==> graph.edges.contains((a, b)) || (exists|k: int|
                0 <= k < front.len() && (#[trigger] front[k]).name == b && copies_from(front[k], a)));
            if exists|k: int|
                0 <= k < front.len() && (#[trigger] front[k]).name == b && copies_from(front[k], a) {
                let k = choose|k: int|
                    0 <= k < front.len() && (#[trigger] front[k]).name == b && copies_from(
                        front[k],
                        a,
                    );
                assert(layers[k] == front[k]);
            }
            if exists|k: int|
                0 <= k < layers.len() && (#[trigger] layers[k]).name == b && copies_from(
                    layers[k],
                    a,
                ) {
                let k = choose|k: int|
                    0 <= k < layers.len() && (#[trigger] layers[k]).name == b && copies_from(
                        layers[k],
                        a,
                    );
                if k < front.len() {
                    assert(front[k] == layers[k]);
                }
            }
        }
        assert forall|n: Text| #[trigger]
            after.nodes.contains(n) <==> graph.nodes.contains(n) || (exists|k: int|
                0 <= k < layers.len() && ((#[trigger] layers[k]).name == n || copies_from(
                    layers[k],
                    n,
                ))) by {
            assert(before.nodes.contains(n) <==> graph.nodes.contains(n) || (exists|k: int|
                0 <= k < front.len() && ((#[trigger] front[k]).name == n || copies_from(
                    front[k],
                    n,
                ))));
            if exists|k: int|
                0 <= k < front.len() && ((#[trigger] front[k]).name == n || copies_from(front[k], n)) {
                let k = choose|k: int|
                    0 <= k < front.len() && ((#[trigger] front[k]).name == n || copies_from(
                        front[k],
                        n,
                    ));
                assert(layers[k] == front[k]);
            }
            if exists|k: int|
                0 <= k < layers.len() && ((#[trigger] layers[k]).name == n || copies_from(
                    layers[k],
                    n,
                )) {
                let k = choose|k: int|
                    0 <= k < layers.len() && ((#[trigger] layers[k]).name == n || copies_from(
                        layers[k],
                        n,
                    ));
                if k < front.len() {
                    assert(front[k] == layers[k]);
                }
            }
        }
    }
}

/// The layers in the list of a map are those of the map.
proof fn lemma_layer_list(layers: Map<Text, LayerView>)
    requires
        finite_layers(layers),
    ensures
        forall|k: int|
            0 <= k < layer_list(layers).len() ==> (#[trigger] layer_list(layers)[k]).local.finite(),
        forall|k: int| #![trigger layer_list(layers)[k]]
            0 <= k < layer_list(layers).len() ==> layers.contains_key(sorted(layers.dom())[k])
                && layer_list(layers)[k] == layers[sorted(layers.dom())[k]],
        forall|key: Text| #[trigger]
            layers.contains_key(key) ==> exists|k: int|
                0 <= k < layer_list(layers).len() && #[trigger] layer_list(layers)[k] == layers[key],
{
    let names = sorted(layers.dom());
    let list = layer_list(layers);
    lemma_sorted_exists(layers.dom());
    assert forall|k: int| #![trigger list[k]] 0 <= k < list.len() implies layers.contains_key(
        names[k],
    ) && list[k] == layers[names[k]] by {
        assert(names.contains(names[k]));
        assert(names.to_set().contains(names[k]));
    }
    assert forall|key: Text| #[trigger] layers.contains_key(key) implies exists|k: int|
        0 <= k < list.len() && #[trigger] list[k] == layers[key] by {
        assert(names.to_set().contains(key));
        let k = choose|k: int| 0 <= k < names.len() && names[k] == key;
        assert(list[k] == layers[key]);
    }
}

/// Law: in the graph of the layers an edge goes from one name to another exactly
/// where a layer of the second name copies from the first, and the nodes are
/// the names of the layers and the names that they copy from.
pub proof fn law_edges_are_copies(build: Map<Text, LayerView>, run: Map<Text, LayerView>)
    requires
        finite_layers(build),
        finite_layers(run),
    ensures
        forall|from: Text, to: Text| #[trigger]
            layer_graph(build, run).edges.contains((from, to)) <==> has_copy(build, from, to)
                || has_copy(run, from, to),
        forall|name: Text| #[trigger]
            layer_graph(build, run).nodes.contains(name) <==> has_layer(build, name) || has_layer(
                run,
                name,
            ) || (exists|to: Text| has_copy(build, name, to) || has_copy(run, name, to)),
{
    let build_list = layer_list(build);
    let run_list = layer_list(run);
    let middle = with_layers(GraphView::empty(), build_list);
    let graph = layer_graph(build, run);
    lemma_layer_list(build);
    lemma_layer_list(run);
    assert(closed_graph(GraphView::empty()));
    lemma_with_layers(GraphView::empty(), build_list);
    lemma_with_layers(middle, run_list);
    assert forall|from: Text, to: Text| #[trigger]
        graph.edges.contains((from, to)) <==> has_copy(build, from, to) || has_copy(
            run,
            from,
            to,
        ) by {
        assert(graph.edges.contains((from, to)) <==> middle.edges.contains((from, to)) || (exists|
            k: int,
        |
            0 <= k < run_list.len() && (#[trigger] run_list[k]).name == to && copies_from(
                run_list[k],
                from,
            )));
        assert(middle.edges.contains((from, to)) <==> (exists|k: int|
            0 <= k < build_list.len() && (#[trigger] build_list[k]).name == to && copies_from(
                build_list[k],
                from,
            )));
        lemma_has_copy_by_list(build, from, to);
        lemma_has_copy_by_list(run, from, to);
    }
    assert forall|name: Text| #[trigger]
        graph.nodes.contains(name) <==> has_layer(build, name) || has_layer(run, name) || (exists|
            to: Text,
        | has_copy(build, name, to) || has_copy(run, name, to)) by {
        assert(graph.nodes.contains(name) <==> middle.nodes.contains(name) || (exists|k: int|
            0 <= k < run_list.len() && ((#[trigger] run_list[k]).name == name || copies_from(
                run_list[k],
                name,
            ))));
        assert(middle.nodes.contains(name) <==> (exists|k: int|
            0 <= k < build_list.len() && ((#[trigger] build_list[k]).name == name || copies_from(
                build_list[k],
                name,
            ))));
        lemma_node_by_list(build, name);
        lemma_node_by_list(run, name);
    }
}

proof fn lemma_has_copy_by_list(layers: Map<Text, LayerView>, from: Text, to: Text)
    requires
        finite_layers(layers),
    ensures
        has_copy(layers, from, to) <==> (exists|k: int|
            0 <= k < layer_list(layers).len() && (#[trigger] layer_list(layers)[k]).name == to
                && copies_from(layer_list(layers)[k], from)),
{
    let list = layer_list(layers);
    lemma_layer_list(layers);
    if has_copy(layers, from, to) {
        let key = choose|key: Text| #[trigger]
            layers.contains_key(key) && layers[key].name == to && copies_from(layers[key], from);
        let k = choose|k: int| 0 <= k < list.len() && #[trigger] list[k] == layers[key];
        assert(list[k].name == to && copies_from(list[k], from));
    }
    if exists|k: int|
        0 <= k < list.len() && (#[trigger] list[k]).name == to && copies_from(list[k], from) {
        let k = choose|k: int|
            0 <= k < list.len() && (#[trigger] list[k]).name == to && copies_from(list[k], from);
        let key = sorted(layers.dom())[k];
        assert(layers.contains_key(key));
    }
}

proof fn lemma_node_by_list(layers: Map<Text, LayerView>, name: Text)
    requires
        finite_layers(layers),
    ensures
        (has_layer(layers, name) || (exists|to: Text| has_copy(layers, name, to))) <==> (exists|
            k: int,
        |
            0 <= k < layer_list(layers).len() && ((#[trigger] layer_list(layers)[k]).name == name
                || copies_from(layer_list(layers)[k], name))),
{
    let list = layer_list(layers);
    lemma_layer_list(layers);
    if has_layer(layers, name) {
        let key = choose|key: Text| #[trigger]
            layers.contains_key(key) && layers[key].name == name;
        let k = choose|k: int| 0 <= k < list.len() && #[trigger] list[k] == layers[key];
        assert(list[k].name == name);
    }
    if exists|to: Text| has_copy(layers, name, to) {
        let to = choose|to: Text| has_copy(layers, name, to);
        lemma_has_copy_by_list(layers, name, to);
    }
    if exists|k: int|
        0 <= k < list.len() && ((#[trigger] list[k]).name == name || copies_from(list[k], name)) {
        let k = choose|k: int|
            0 <= k < list.len() && ((#[trigger] list[k]).name == name || copies_from(
                list[k],
                name,
            ));
        let key = sorted(layers.dom())[k];
        assert(layers.contains_key(key));
        if copies_from(list[k], name) {
            assert(has_copy(layers, name, list[k].name));
        }
    }
}

/// Law: each layer comes after all layers that it copies from.
pub proof fn law_layers_follow_what_they_copy(
    build: Map<Text, LayerView>,
    run: Map<Text, LayerView>,
    order: Seq<Text>,
    i: int,
    from: Text,
)
    requires
        finite_layers(build),
        finite_layers(run),
        topological(order, layer_graph(build, run)),
        0 <= i < order.len(),
        has_copy(build, from, order[i]) || has_copy(run, from, order[i]),
    ensures
        order.take(i).contains(from),
{
    law_edges_are_copies(build, run);
    assert(layer_graph(build, run).edges.contains((from, order[i])));
}

/// Law: where the layers can be ranked so that each ranks above those that it
/// copies from, none of them is left out.
pub proof fn law_no_layer_is_left_out(
    build: Map<Text, LayerView>,
    run: Map<Text, LayerView>,
    order: Seq<Text>,
    rank: spec_fn(Text) -> nat,
    name: Text,
)
    requires
        finite_layers(build),
        finite_layers(run),
        topological(order, layer_graph(build, run)),
        forall|from: Text, to: Text|
            has_copy(build, from, to) || has_copy(run, from, to) ==> rank(from) < rank(to),
        layer_graph(build, run).nodes.contains(name),
    ensures
        order.contains(name),
    decreases rank(name),
{
    let graph = layer_graph(build, run);
    law_edges_are_copies(build, run);
    assert forall|from: Text| #[trigger] graph.edges.contains((from, name)) implies order.contains(
        from,
    ) by {
        assert(has_copy(build, from, name) || has_copy(run, from, name));
        assert(graph.nodes.contains(from));
        law_no_layer_is_left_out(build, run, order, rank, from);
    }
}

} // verus!
