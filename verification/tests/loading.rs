use osm_graph::error::LoadError;
use osm_graph::graph::Graph;
use osm_graph::loader::{load, UsedIdCollector};
use osm_graph::model::{AdjacencyModel, Node, NodeInfo, Primitive, Way, WayInfo};
use osm_graph::tags::{is_highway, Filter};
use osmpbfreader::Tags;
use std::collections::HashMap;

fn tags(pairs: &[(&str, &str)]) -> Tags {
    let mut tags = Tags::new();
    for (key, value) in pairs {
        tags.insert((*key).into(), (*value).into());
    }
    tags
}

fn node_at(id: i64, lat: i32, lon: i32) -> Primitive {
    Primitive::Node(Node { id, tags: Tags::new(), decimicro_lat: lat, decimicro_lon: lon })
}

fn plain_way(id: i64, nodes: Vec<i64>) -> Primitive {
    Primitive::Way(Way { id, tags: Tags::new(), nodes })
}

fn tagged_way(id: i64, pairs: &[(&str, &str)], nodes: Vec<i64>) -> Primitive {
    Primitive::Way(Way { id, tags: tags(pairs), nodes })
}

fn sorted_ids(graph: &Graph) -> Vec<i64> {
    let mut ids: Vec<i64> = graph.nodes().keys().copied().collect();
    ids.sort();
    ids
}

fn links(graph: &Graph, id: i64) -> Vec<i64> {
    graph.node(id).unwrap().reachable_nodes.clone()
}

fn stream(records: &[Primitive]) -> Vec<Result<Primitive, osmpbfreader::Error>> {
    records.iter().map(|p| Ok(p.clone())).collect()
}

#[test]
fn every_step_of_a_way_is_an_edge_in_both_directions() {
    let records = vec![
        node_at(1, 0, 0),
        node_at(2, 0, 0),
        node_at(3, 0, 0),
        node_at(4, 0, 0),
        plain_way(10, vec![1, 2, 3, 4]),
    ];
    let graph = load(&records, Filter::AcceptAll, AdjacencyModel::EdgeIndexed).unwrap();
    assert_eq!(links(&graph, 1), vec![2]);
    assert_eq!(links(&graph, 2), vec![1, 3]);
    assert_eq!(links(&graph, 3), vec![2, 4]);
    assert_eq!(links(&graph, 4), vec![3]);
    assert_eq!(graph.way(10).unwrap().nodes, vec![1, 2, 3, 4]);
    assert_eq!(graph.model(), AdjacencyModel::EdgeIndexed);
}

#[test]
fn edges_are_added_in_the_order_of_the_ways_and_not_made_unique() {
    let records = vec![
        node_at(1, 0, 0),
        node_at(2, 0, 0),
        node_at(3, 0, 0),
        plain_way(10, vec![1, 2, 1]),
        plain_way(11, vec![3, 1]),
        plain_way(12, vec![2, 2]),
    ];
    let graph = load(&records, Filter::AcceptAll, AdjacencyModel::EdgeIndexed).unwrap();
    assert_eq!(links(&graph, 1), vec![2, 2, 3]);
    assert_eq!(links(&graph, 2), vec![1, 1, 2, 2]);
    assert_eq!(links(&graph, 3), vec![1]);
}

#[test]
fn the_way_indexed_model_lists_ways_once_for_each_visit() {
    let records = vec![
        node_at(1, 0, 0),
        node_at(2, 0, 0),
        node_at(3, 0, 0),
        plain_way(10, vec![1, 2, 1]),
        plain_way(11, vec![2, 3]),
    ];
    let graph = load(&records, Filter::AcceptAll, AdjacencyModel::WayIndexed).unwrap();
    assert_eq!(links(&graph, 1), vec![10, 10]);
    assert_eq!(links(&graph, 2), vec![10, 11]);
    assert_eq!(links(&graph, 3), vec![11]);
    assert_eq!(graph.model(), AdjacencyModel::WayIndexed);
    assert_eq!(graph.check_connectivity().components, 1);
}

#[test]
fn the_nodes_kept_are_those_that_accepted_ways_use() {
    let records = vec![
        node_at(1, 10, 11),
        node_at(2, 20, 21),
        node_at(3, 30, 31),
        node_at(4, 40, 41),
        node_at(5, 50, 51),
        node_at(6, 60, 61),
        tagged_way(100, &[("highway", "residential")], vec![1, 2]),
        tagged_way(101, &[("building", "yes")], vec![3, 4]),
        tagged_way(102, &[("name", "Main"), ("highway", "primary")], vec![2, 5]),
        Primitive::Other,
    ];
    let graph = load(&records, Filter::highway(), AdjacencyModel::EdgeIndexed).unwrap();
    assert_eq!(sorted_ids(&graph), vec![1, 2, 5]);
    assert!(graph.node(3).is_none());
    assert!(graph.node(6).is_none());
    let mut ways: Vec<i64> = graph.ways().keys().copied().collect();
    ways.sort();
    assert_eq!(ways, vec![100, 102]);
    assert!(graph.way(101).is_none());
    let five = graph.node(5).unwrap();
    assert_eq!((five.decimicro_lat, five.decimicro_lon), (50, 51));
    assert_eq!(five.reachable_nodes, vec![2]);

    let all = load(&records, Filter::AcceptAll, AdjacencyModel::EdgeIndexed).unwrap();
    assert_eq!(sorted_ids(&all), vec![1, 2, 3, 4, 5]);
    assert_eq!(all.check_connectivity().components, 2);
    assert_eq!(graph.check_connectivity().components, 1);
}

#[test]
fn a_filter_on_another_key_keeps_other_ways() {
    let records = vec![
        node_at(1, 0, 0),
        node_at(2, 0, 0),
        node_at(3, 0, 0),
        node_at(4, 0, 0),
        tagged_way(100, &[("highway", "residential")], vec![1, 2]),
        tagged_way(101, &[("railway", "rail")], vec![3, 4]),
    ];
    let filter = Filter::HasKey("railway".to_string());
    let graph = load(&records, filter, AdjacencyModel::EdgeIndexed).unwrap();
    assert_eq!(sorted_ids(&graph), vec![3, 4]);
}

#[test]
fn a_filter_matches_on_the_key_alone() {
    let with = tags(&[("highway", "")]);
    let without = tags(&[("highways", "x"), ("name", "highway")]);
    assert!(Filter::highway().matches(&with));
    assert!(!Filter::highway().matches(&without));
    assert!(!Filter::highway().matches(&Tags::new()));
    assert!(Filter::AcceptAll.matches(&without));
    assert!(Filter::AcceptAll.matches(&Tags::new()));
    assert_eq!(Filter::highway(), Filter::HasKey("highway".to_string()));
    assert!(Filter::HasKey("name".to_string()).matches(&without));
}

#[test]
fn a_highway_is_a_way_with_that_key() {
    let road = Way { id: 1, tags: tags(&[("highway", "track")]), nodes: vec![] };
    let house = Way { id: 2, tags: tags(&[("building", "highway")]), nodes: vec![] };
    assert!(is_highway(&road));
    assert!(!is_highway(&house));
}

#[test]
fn a_node_record_copies_tags_and_coordinates() {
    let node = Node {
        id: 9,
        tags: tags(&[("amenity", "bench"), ("backrest", "yes")]),
        decimicro_lat: 481_486_000,
        decimicro_lon: -171_077_000,
    };
    let info = NodeInfo::from(&node);
    assert_eq!(info.tags, node.tags);
    assert!(info.tags.contains("amenity", "bench"));
    assert_eq!(info.tags.len(), 2);
    assert_eq!(info.decimicro_lat, 481_486_000);
    assert_eq!(info.decimicro_lon, -171_077_000);
    assert!(info.reachable_nodes.is_empty());
}

#[test]
fn a_way_record_copies_tags_and_nodes() {
    let way = Way { id: 4, tags: tags(&[("highway", "path")]), nodes: vec![3, 1, 2, 3] };
    let info = WayInfo::from(&way);
    assert_eq!(info.tags, way.tags);
    assert!(info.tags.contains("highway", "path"));
    assert_eq!(info.nodes, vec![3, 1, 2, 3]);
}

#[test]
fn a_later_node_with_the_same_id_takes_the_place_of_the_earlier() {
    let records =
        vec![node_at(1, 5, 6), node_at(2, 0, 0), node_at(1, 7, 8), plain_way(10, vec![1, 2])];
    let graph = load(&records, Filter::AcceptAll, AdjacencyModel::EdgeIndexed).unwrap();
    let one = graph.node(1).unwrap();
    assert_eq!((one.decimicro_lat, one.decimicro_lon), (7, 8));
    assert_eq!(one.reachable_nodes, vec![2]);
}

#[test]
fn a_way_through_a_missing_node_fails_the_load() {
    let records = vec![node_at(1, 0, 0), node_at(2, 0, 0), plain_way(10, vec![1, 2, 3])];
    for model in [AdjacencyModel::EdgeIndexed, AdjacencyModel::WayIndexed] {
        let res = load(&records, Filter::AcceptAll, model);
        assert_eq!(res.err(), Some(LoadError::DanglingReference));
    }
    // a rejected way may name what it likes
    let tagged = vec![
        node_at(1, 0, 0),
        node_at(2, 0, 0),
        tagged_way(10, &[("highway", "x")], vec![1, 2]),
        plain_way(11, vec![1, 2, 3]),
    ];
    assert!(load(&tagged, Filter::highway(), AdjacencyModel::EdgeIndexed).is_ok());
}

#[test]
fn a_way_of_one_missing_node_fails_the_load() {
    let records = vec![node_at(1, 0, 0), plain_way(10, vec![3])];
    let res = load(&records, Filter::AcceptAll, AdjacencyModel::EdgeIndexed);
    assert_eq!(res.err(), Some(LoadError::DanglingReference));
}

#[test]
fn a_way_without_nodes_is_kept_and_links_nothing() {
    let records = vec![node_at(1, 0, 0), plain_way(10, vec![])];
    for model in [AdjacencyModel::EdgeIndexed, AdjacencyModel::WayIndexed] {
        let graph = load(&records, Filter::AcceptAll, model).unwrap();
        assert!(graph.nodes().is_empty());
        assert!(graph.way(10).unwrap().nodes.is_empty());
        assert_eq!(graph.check_connectivity().components, 0);
    }
}

#[test]
fn the_passes_give_what_a_load_gives() {
    let records = vec![
        node_at(1, 1, 1),
        node_at(2, 2, 2),
        node_at(3, 3, 3),
        tagged_way(7, &[("highway", "x")], vec![1, 2]),
        plain_way(8, vec![2, 3]),
    ];
    let source = stream(&records);
    let mut first = UsedIdCollector::new(Filter::highway(), AdjacencyModel::EdgeIndexed);
    for record in source.iter() {
        first = first.visit(record).unwrap();
    }
    let mut second = first.rewound(Ok(())).unwrap();
    for record in source.iter() {
        second = second.visit(record).unwrap();
    }
    let mut third = second.rewound(Ok(())).unwrap();
    for record in source.iter() {
        third = third.visit(record).unwrap();
    }
    let graph = third.finish();
    let direct = load(&records, Filter::highway(), AdjacencyModel::EdgeIndexed).unwrap();
    assert_eq!(graph.nodes(), direct.nodes());
    assert_eq!(graph.ways(), direct.ways());
    assert_eq!(sorted_ids(&graph), vec![1, 2]);
    assert_eq!(links(&graph, 1), vec![2]);
    assert_eq!(links(&graph, 2), vec![1]);
}

#[test]
fn the_passes_take_primitives_as_they_are() {
    let records = vec![node_at(1, 1, 1), node_at(2, 2, 2), plain_way(8, vec![1, 2])];
    let mut first = UsedIdCollector::new(Filter::AcceptAll, AdjacencyModel::WayIndexed);
    for p in records.iter() {
        first = first.accept(p);
    }
    let mut second = first.rewound(Ok(())).unwrap();
    for p in records.iter() {
        second = second.accept(p);
    }
    let mut third = second.rewound(Ok(())).unwrap();
    for p in records.iter() {
        third = third.accept(p).unwrap();
    }
    let graph = third.finish();
    assert_eq!(links(&graph, 1), vec![8]);
    assert_eq!(links(&graph, 2), vec![8]);
}

#[test]
fn an_object_that_does_not_decode_fails_every_pass() {
    let bad: Result<Primitive, osmpbfreader::Error> = Err(osmpbfreader::Error::InvalidData);
    let first = UsedIdCollector::new(Filter::AcceptAll, AdjacencyModel::EdgeIndexed);
    assert_eq!(first.visit(&bad).err(), Some(LoadError::Decode));

    let first = UsedIdCollector::new(Filter::AcceptAll, AdjacencyModel::EdgeIndexed);
    let second = first.rewound(Ok(())).unwrap();
    assert_eq!(second.visit(&bad).err(), Some(LoadError::Decode));

    let first = UsedIdCollector::new(Filter::AcceptAll, AdjacencyModel::EdgeIndexed);
    let third = first.rewound(Ok(())).unwrap().rewound(Ok(())).unwrap();
    assert_eq!(third.visit(&bad).err(), Some(LoadError::Decode));
}

#[test]
fn a_source_that_does_not_rewind_fails_the_load() {
    let first = UsedIdCollector::new(Filter::AcceptAll, AdjacencyModel::EdgeIndexed);
    let res = first.rewound(Err(osmpbfreader::Error::UnsupportedData));
    assert_eq!(res.err(), Some(LoadError::Rewind));

    let first = UsedIdCollector::new(Filter::AcceptAll, AdjacencyModel::EdgeIndexed);
    let second = first.rewound(Ok(())).unwrap();
    let res = second.rewound(Err(osmpbfreader::Error::InvalidData));
    assert_eq!(res.err(), Some(LoadError::Rewind));
}

#[test]
fn a_source_that_changes_between_passes_is_found_out() {
    let with_way: Result<Primitive, osmpbfreader::Error> = Ok(plain_way(8, vec![1, 2]));
    let one: Result<Primitive, osmpbfreader::Error> = Ok(node_at(1, 0, 0));
    // the first pass sees no way, the third does
    let first = UsedIdCollector::new(Filter::AcceptAll, AdjacencyModel::EdgeIndexed);
    let first = first.visit(&one).unwrap();
    let second = first.rewound(Ok(())).unwrap().visit(&one).unwrap();
    let third = second.rewound(Ok(())).unwrap();
    assert_eq!(third.visit(&with_way).err(), Some(LoadError::DanglingReference));
}

#[test]
fn each_error_has_its_text() {
    assert_eq!(LoadError::Decode.describe(), "an object of the source could not be decoded");
    assert_eq!(LoadError::Rewind.describe(), "the source could not be rewound");
    assert_eq!(
        LoadError::DanglingReference.describe(),
        "a way refers to a node that was not loaded"
    );
}

#[test]
fn a_graph_is_taken_from_maps_without_dangling_references() {
    let info = |links: Vec<i64>| NodeInfo {
        tags: Tags::new(),
        decimicro_lat: 0,
        decimicro_lon: 0,
        reachable_nodes: links,
    };
    let way = |nodes: Vec<i64>| WayInfo { tags: Tags::new(), nodes };

    let mut nodes = HashMap::new();
    nodes.insert(1, info(vec![2]));
    nodes.insert(2, info(vec![1]));
    let mut ways = HashMap::new();
    ways.insert(5, way(vec![1, 2]));
    let graph = Graph::new(nodes.clone(), ways.clone(), AdjacencyModel::EdgeIndexed).unwrap();
    assert_eq!(graph.nodes(), &nodes);
    assert_eq!(graph.ways(), &ways);
    assert_eq!(graph.clone().check_connectivity().components, 1);

    // in the way-indexed model the same lists name ways that are not there
    let res = Graph::new(nodes.clone(), ways.clone(), AdjacencyModel::WayIndexed);
    assert_eq!(res.err(), Some(LoadError::DanglingReference));

    // a way through a node that is not there
    let mut broken = ways.clone();
    broken.insert(6, way(vec![2, 3]));
    let res = Graph::new(nodes.clone(), broken, AdjacencyModel::EdgeIndexed);
    assert_eq!(res.err(), Some(LoadError::DanglingReference));

    // a link to a node that is not there
    let mut broken = nodes.clone();
    broken.insert(4, info(vec![9]));
    let res = Graph::new(broken, ways.clone(), AdjacencyModel::EdgeIndexed);
    assert_eq!(res.err(), Some(LoadError::DanglingReference));

    let mut listed = HashMap::new();
    listed.insert(1, info(vec![5, 5]));
    listed.insert(2, info(vec![5]));
    let graph = Graph::new(listed, ways, AdjacencyModel::WayIndexed).unwrap();
    assert_eq!(graph.check_connectivity().components, 1);
}

#[test]
fn the_first_pass_collects_the_ids_of_accepted_ways() {
    let mut first = UsedIdCollector::new(Filter::highway(), AdjacencyModel::EdgeIndexed);
    assert!(first.used_ids().is_empty());
    let records = vec![
        node_at(1, 0, 0),
        tagged_way(100, &[("highway", "residential")], vec![4, 2, 4]),
        tagged_way(101, &[("building", "yes")], vec![3, 4]),
        Primitive::Other,
        tagged_way(102, &[("highway", "primary")], vec![2, 5]),
        tagged_way(103, &[("highway", "primary")], vec![]),
    ];
    for p in records.iter() {
        first = first.accept(p);
    }
    let mut used: Vec<i64> = first.used_ids().iter().copied().collect();
    used.sort();
    assert_eq!(used, vec![2, 4, 5]);
}

#[test]
fn the_second_pass_keeps_no_node_that_is_not_used() {
    let records = vec![
        node_at(1, 10, 11),
        node_at(2, 20, 21),
        node_at(3, 30, 31),
        plain_way(100, vec![3, 9, 1]),
    ];
    let mut first = UsedIdCollector::new(Filter::AcceptAll, AdjacencyModel::EdgeIndexed);
    for p in records.iter() {
        first = first.accept(p);
    }
    let mut second = first.rewound(Ok(())).unwrap();
    assert!(second.kept().is_empty());
    for p in records.iter() {
        second = second.accept(p);
    }
    let mut kept: Vec<i64> = second.kept().keys().copied().collect();
    kept.sort();
    assert_eq!(kept, vec![1, 3]);
    let three = &second.kept()[&3];
    assert_eq!((three.decimicro_lat, three.decimicro_lon), (30, 31));
    assert!(three.reachable_nodes.is_empty());
    // the node 9 is used, and no primitive brings it
    let third = second.rewound(Ok(())).unwrap();
    let res = third.accept(&records[3]);
    assert_eq!(res.err(), Some(LoadError::DanglingReference));
}

#[test]
fn a_way_id_used_twice_keeps_the_later_way() {
    let records = vec![
        node_at(1, 0, 0),
        node_at(2, 0, 0),
        node_at(3, 0, 0),
        node_at(4, 0, 0),
        plain_way(10, vec![1, 2]),
        plain_way(10, vec![3, 4]),
    ];
    let graph = load(&records, Filter::AcceptAll, AdjacencyModel::EdgeIndexed).unwrap();
    assert_eq!(graph.ways().len(), 1);
    assert_eq!(graph.way(10).unwrap().nodes, vec![3, 4]);
    assert_eq!(links(&graph, 1), vec![2]);
    assert_eq!(links(&graph, 4), vec![3]);
    assert_eq!(graph.check_connectivity().components, 2);

    // in the way-indexed model the nodes of the earlier way are led to the later one
    let graph = load(&records, Filter::AcceptAll, AdjacencyModel::WayIndexed).unwrap();
    assert_eq!(links(&graph, 1), vec![10]);
    assert_eq!(graph.check_connectivity_in(&[3, 4, 1, 2]).components, 3);
    assert_eq!(graph.check_connectivity_in(&[1, 2, 3, 4]).components, 2);
}
