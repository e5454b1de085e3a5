use osm_graph::connectivity::ConnectivityReport;
use osm_graph::graph::Graph;
use osm_graph::loader::load;
use osm_graph::model::{AdjacencyModel, Node, NodeInfo, Primitive, Way};
use osm_graph::tags::Filter;
use osmpbfreader::Tags;
use std::collections::HashMap;

fn node(id: i64) -> Primitive {
    Primitive::Node(Node { id, tags: Tags::new(), decimicro_lat: 0, decimicro_lon: 0 })
}

fn way(id: i64, nodes: Vec<i64>) -> Primitive {
    Primitive::Way(Way { id, tags: Tags::new(), nodes })
}

fn graph_of(ways: Vec<Vec<i64>>, model: AdjacencyModel) -> Graph {
    let mut records = Vec::new();
    for path in ways.iter() {
        for id in path.iter() {
            records.push(node(*id));
        }
    }
    for (k, path) in ways.iter().enumerate() {
        records.push(way(1000 + k as i64, path.clone()));
    }
    load(&records, Filter::AcceptAll, model).unwrap()
}

fn chain(first: i64, len: i64) -> Vec<i64> {
    (first..first + len).collect()
}

#[test]
fn two_ways_sharing_a_node_are_one_component() {
    for model in [AdjacencyModel::EdgeIndexed, AdjacencyModel::WayIndexed] {
        let graph = graph_of(vec![vec![1, 2, 3], vec![3, 4, 5]], model);
        let report = graph.check_connectivity();
        assert_eq!(report, ConnectivityReport { components: 1, oversized: vec![] });
    }
}

#[test]
fn two_disjoint_ways_are_two_components() {
    for model in [AdjacencyModel::EdgeIndexed, AdjacencyModel::WayIndexed] {
        let graph = graph_of(vec![vec![1, 2, 3], vec![4, 5, 6]], model);
        let report = graph.check_connectivity();
        assert_eq!(report, ConnectivityReport { components: 2, oversized: vec![] });
    }
}

#[test]
fn nodes_of_one_way_are_mutually_connected_in_the_way_indexed_model() {
    let graph = graph_of(vec![vec![1, 2, 3]], AdjacencyModel::WayIndexed);
    for id in [1, 2, 3] {
        assert_eq!(graph.node(id).unwrap().reachable_nodes, vec![1000]);
    }
    assert_eq!(graph.way(1000).unwrap().nodes, vec![1, 2, 3]);
    for start in [1, 2, 3] {
        let report = graph.check_connectivity_in(&[start]);
        assert_eq!(report.components, 1);
        // every other node has been reached from `start`: offered next, none starts a component
        let again = graph.check_connectivity_in(&[start, 1, 2, 3]);
        assert_eq!(again.components, 1);
    }
}

#[test]
fn one_long_way_is_one_component_of_all_its_nodes_in_the_way_indexed_model() {
    let graph = graph_of(vec![chain(1, 600)], AdjacencyModel::WayIndexed);
    let report = graph.check_connectivity();
    assert_eq!(report, ConnectivityReport { components: 1, oversized: vec![600] });
}

#[test]
fn a_component_of_500_nodes_is_not_reported() {
    for model in [AdjacencyModel::EdgeIndexed, AdjacencyModel::WayIndexed] {
        let graph = graph_of(vec![chain(1, 500)], model);
        let report = graph.check_connectivity();
        assert_eq!(report, ConnectivityReport { components: 1, oversized: vec![] });
    }
}

#[test]
fn a_component_of_501_nodes_is_reported() {
    for model in [AdjacencyModel::EdgeIndexed, AdjacencyModel::WayIndexed] {
        let graph = graph_of(vec![chain(1, 501)], model);
        let report = graph.check_connectivity();
        assert_eq!(report, ConnectivityReport { components: 1, oversized: vec![501] });
    }
}

#[test]
fn the_count_does_not_depend_on_the_order_of_the_roots() {
    let graph = graph_of(
        vec![vec![1, 2, 3], vec![3, 4], vec![10, 11], vec![20, 21, 22], vec![22, 20]],
        AdjacencyModel::EdgeIndexed,
    );
    let forward = graph.check_connectivity_in(&[1, 2, 3, 4, 10, 11, 20, 21, 22]);
    let backward = graph.check_connectivity_in(&[22, 21, 20, 11, 10, 4, 3, 2, 1]);
    let mixed = graph.check_connectivity_in(&[10, 3, 21, 1, 22, 4, 11, 2, 20]);
    assert_eq!(forward.components, 3);
    assert_eq!(backward.components, 3);
    assert_eq!(mixed.components, 3);
    assert_eq!(graph.check_connectivity().components, 3);
}

#[test]
fn the_sizes_add_up_to_the_nodes_with_neighbors() {
    let mut records = Vec::new();
    for id in 1..=1200 {
        records.push(node(id));
    }
    records.push(way(1, chain(1, 501)));
    records.push(way(2, chain(502, 600)));
    // the nodes 1102..=1200 lie on a way of one node each, or on none
    records.push(way(3, vec![1150]));
    let graph = load(&records, Filter::AcceptAll, AdjacencyModel::EdgeIndexed).unwrap();
    let order: Vec<i64> = (1..=1200).collect();
    let report = graph.check_connectivity_in(&order);
    assert_eq!(report.components, 2);
    assert_eq!(report.oversized, vec![501, 600]);
    let with_neighbors =
        graph.nodes().values().filter(|info| !info.reachable_nodes.is_empty()).count();
    assert_eq!(with_neighbors, 1101);
    assert_eq!(report.oversized.iter().sum::<usize>(), with_neighbors);
    let reversed: Vec<i64> = (1..=1200).rev().collect();
    assert_eq!(graph.check_connectivity_in(&reversed).oversized, vec![600, 501]);
}

#[test]
fn oversized_components_are_reported_in_the_order_of_discovery() {
    let graph = graph_of(
        vec![chain(1, 501), chain(1000, 3), chain(2000, 700)],
        AdjacencyModel::EdgeIndexed,
    );
    let report = graph.check_connectivity_in(&[2000, 1000, 1]);
    assert_eq!(report, ConnectivityReport { components: 3, oversized: vec![700, 501] });
    let report = graph.check_connectivity_in(&[1, 1001, 2500]);
    assert_eq!(report, ConnectivityReport { components: 3, oversized: vec![501, 700] });
}

#[test]
fn a_node_without_neighbors_is_no_component() {
    let graph = graph_of(vec![vec![7]], AdjacencyModel::EdgeIndexed);
    assert_eq!(graph.nodes().len(), 1);
    assert!(graph.node(7).unwrap().reachable_nodes.is_empty());
    assert_eq!(graph.check_connectivity().components, 0);
}

#[test]
fn a_way_of_one_node_is_a_component_in_the_way_indexed_model() {
    let graph = graph_of(vec![vec![7]], AdjacencyModel::WayIndexed);
    assert_eq!(graph.node(7).unwrap().reachable_nodes, vec![1000]);
    assert_eq!(graph.check_connectivity().components, 1);
}

#[test]
fn an_empty_graph_has_no_component() {
    let graph = load(&[], Filter::AcceptAll, AdjacencyModel::EdgeIndexed).unwrap();
    assert_eq!(
        graph.check_connectivity(),
        ConnectivityReport { components: 0, oversized: vec![] }
    );
}

#[test]
fn ids_that_name_no_node_are_passed_over() {
    let graph = graph_of(vec![vec![1, 2]], AdjacencyModel::EdgeIndexed);
    let report = graph.check_connectivity_in(&[99, 1, -5, 2, 1]);
    assert_eq!(report.components, 1);
    assert_eq!(graph.check_connectivity_in(&[99, -5]).components, 0);
    assert_eq!(graph.check_connectivity_in(&[]).components, 0);
}

#[test]
fn a_search_follows_links_in_their_direction() {
    // 1 lists 2, but 2 lists nothing: a graph that no load gives
    let mut nodes = HashMap::new();
    let plain = |links: Vec<i64>| NodeInfo {
        tags: Tags::new(),
        decimicro_lat: 0,
        decimicro_lon: 0,
        reachable_nodes: links,
    };
    nodes.insert(1, plain(vec![2]));
    nodes.insert(2, plain(vec![]));
    nodes.insert(3, plain(vec![1]));
    let graph = Graph::new(nodes, HashMap::new(), AdjacencyModel::EdgeIndexed).unwrap();
    assert_eq!(graph.check_connectivity_in(&[1, 2, 3]).components, 2);
    assert_eq!(graph.check_connectivity_in(&[3, 2, 1]).components, 1);
}
