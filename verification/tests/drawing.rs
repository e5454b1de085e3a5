use osm_graph::drawing::{Frame, Line, MapDrawing, HEIGHT, MAX_LINE_COUNT, WIDTH};
use osm_graph::loader::load;
use osm_graph::model::{AdjacencyModel, Node, Primitive, Way};
use osm_graph::tags::Filter;
use osmpbfreader::Tags;

fn node_at(id: i64, lat: i32, lon: i32) -> Primitive {
    Primitive::Node(Node { id, tags: Tags::new(), decimicro_lat: lat, decimicro_lon: lon })
}

fn plain_way(id: i64, nodes: Vec<i64>) -> Primitive {
    Primitive::Way(Way { id, tags: Tags::new(), nodes })
}

#[test]
fn a_picture_has_a_line_for_each_step_of_a_way() {
    let records = vec![
        node_at(1, 100, 200),
        node_at(2, 300, 50),
        node_at(3, 250, 400),
        plain_way(10, vec![1, 2, 3, 1]),
    ];
    let graph = load(&records, Filter::AcceptAll, AdjacencyModel::EdgeIndexed).unwrap();
    let scene = MapDrawing::new().draw(&graph);
    assert_eq!(
        scene.lines,
        vec![
            Line { from_lat: 100, from_lon: 200, to_lat: 300, to_lon: 50 },
            Line { from_lat: 300, from_lon: 50, to_lat: 250, to_lon: 400 },
            Line { from_lat: 250, from_lon: 400, to_lat: 100, to_lon: 200 },
        ]
    );
    assert_eq!(scene.frame, Frame { min_lat: 100, max_lat: 300, min_lon: 50, max_lon: 400 });
}

#[test]
fn a_picture_shows_all_ways_in_some_order() {
    let records = vec![
        node_at(1, 1, 1),
        node_at(2, 2, 2),
        node_at(3, 3, 3),
        node_at(4, 4, 4),
        node_at(5, 5, 5),
        plain_way(10, vec![1, 2]),
        plain_way(11, vec![3, 4, 5]),
        plain_way(12, vec![5]),
        plain_way(13, vec![]),
    ];
    for model in [AdjacencyModel::EdgeIndexed, AdjacencyModel::WayIndexed] {
        let graph = load(&records, Filter::AcceptAll, model).unwrap();
        let scene = MapDrawing::new().draw(&graph);
        let mut lines = scene.lines.clone();
        lines.sort_by_key(|l| l.from_lat);
        assert_eq!(
            lines,
            vec![
                Line { from_lat: 1, from_lon: 1, to_lat: 2, to_lon: 2 },
                Line { from_lat: 3, from_lon: 3, to_lat: 4, to_lon: 4 },
                Line { from_lat: 4, from_lon: 4, to_lat: 5, to_lon: 5 },
            ]
        );
        let at = |lat: i32| scene.lines.iter().position(|l| l.from_lat == lat).unwrap();
        assert_eq!(at(4), at(3) + 1);
        assert_eq!(scene.frame, Frame { min_lat: 1, max_lat: 5, min_lon: 1, max_lon: 5 });
    }
}

#[test]
fn the_box_of_an_empty_picture_is_the_one_it_starts_from() {
    let graph = load(&[], Filter::AcceptAll, AdjacencyModel::EdgeIndexed).unwrap();
    let scene = MapDrawing::new().draw(&graph);
    assert!(scene.lines.is_empty());
    assert_eq!(
        scene.frame,
        Frame { min_lat: 1_000_000_000, max_lat: 0, min_lon: 1_000_000_000, max_lon: 0 }
    );
}

#[test]
fn the_box_starts_from_zero_above_and_a_billion_below() {
    let records = vec![
        node_at(1, -500, 1_500_000_000),
        node_at(2, -100, 1_700_000_000),
        plain_way(10, vec![1, 2]),
    ];
    let graph = load(&records, Filter::AcceptAll, AdjacencyModel::EdgeIndexed).unwrap();
    let scene = MapDrawing::new().draw(&graph);
    assert_eq!(
        scene.frame,
        Frame { min_lat: -500, max_lat: 0, min_lon: 1_000_000_000, max_lon: 1_700_000_000 }
    );
}

#[test]
fn the_picture_has_its_measures() {
    assert_eq!((WIDTH, HEIGHT, MAX_LINE_COUNT), (1600, 800, 500_000));
    assert_eq!(MapDrawing::new(), MapDrawing {});
}
