//! What a picture of the graph shows: the lines to draw, and the box of
//! coordinates that they are fitted into. Putting the lines on a screen is
//! the caller's part.

use crate::graph::Graph;
use crate::graph::way_views;
use crate::linking::steps;
use crate::network::GraphView;
use vstd::prelude::*;
use vstd::std_specs::hash::spec_keys_iter;
use vstd::std_specs::iter::IteratorSpec;

verus! {

/// The width of the picture in pixels.
pub const WIDTH: u32 = 1600;

/// The height of the picture in pixels.
pub const HEIGHT: u32 = 800;

/// One more than the number of ways that a picture shows at most.
pub const MAX_LINE_COUNT: u32 = 500_000;

/// A line between two nodes, in decimicro degrees.
#[derive(Debug, Clone, Copy, PartialEq, Eq, Structural)]
pub struct Line {
    /// The latitude of the first end.
    pub from_lat: i32,
    /// The longitude of the first end.
    pub from_lon: i32,
    /// The latitude of the second end.
    pub to_lat: i32,
    /// The longitude of the second end.
    pub to_lon: i32,
}

/// A box of coordinates, in decimicro degrees.
#[derive(Debug, Clone, Copy, PartialEq, Eq, Structural)]
pub struct Frame {
    /// The least latitude.
    pub min_lat: i32,
    /// The greatest latitude.
    pub max_lat: i32,
    /// The least longitude.
    pub min_lon: i32,
    /// The greatest longitude.
    pub max_lon: i32,
}

/// The lines of a picture and the box around them.
#[derive(Debug, Clone, PartialEq, Eq)]
pub struct Scene {
    /// The lines to draw, in the order in which they are drawn.
    pub lines: Vec<Line>,
    /// The box that the lines are fitted into.
    pub frame: Frame,
}

/// The line from the node `a` to the node `b`.
pub open spec fn line_between(g: GraphView, a: i64, b: i64) -> Line {
    Line {
        from_lat: g.nodes[a].lat,
        from_lon: g.nodes[a].lon,
        to_lat: g.nodes[b].lat,
        to_lon: g.nodes[b].lon,
    }
}

/// The lines along a path, one for each step.
pub open spec fn lines_along(g: GraphView, path: Seq<i64>) -> Seq<Line> {
    Seq::new(steps(path), |i: int| line_between(g, path[i], path[i + 1]))
}

/// The lines of the ways in `order`, way after way.
pub open spec fn lines_of(g: GraphView, order: Seq<i64>) -> Seq<Line>
    decreases order.len(),
{
    if order.len() == 0 {
        Seq::empty()
    } else {
        lines_of(g, order.drop_last()) + lines_along(g, g.ways[order.last()].nodes)
    }
}

/// The box before any line is in it: it reaches up to zero and down to a
/// billion, so that lines above zero and below a billion make it what
/// surrounds them.
pub open spec fn empty_frame() -> Frame {
    Frame { min_lat: 1_000_000_000, max_lat: 0, min_lon: 1_000_000_000, max_lon: 0 }
}

/// The box made wide enough for one more point.
pub open spec fn widen(f: Frame, lat: i32, lon: i32) -> Frame {
    Frame {
        min_lat: if lat < f.min_lat {
            lat
        } else {
            f.min_lat
        },
        max_lat: if lat > f.max_lat {
            lat
        } else {
            f.max_lat
        },
        min_lon: if lon < f.min_lon {
            lon
        } else {
            f.min_lon
        },
        max_lon: if lon > f.max_lon {
            lon
        } else {
            f.max_lon
        },
    }
}

/// The box around `lines`.
pub open spec fn frame_of(lines: Seq<Line>) -> Frame
    decreases lines.len(),
{
    if lines.len() == 0 {
        empty_frame()
    } else {
        let line = lines.last();
        widen(
            widen(frame_of(lines.drop_last()), line.from_lat, line.from_lon),
            line.to_lat,
            line.to_lon,
        )
    }
}

/// `order` lists every way once, and nothing else.
pub open spec fn lists_ways(g: GraphView, order: Seq<i64>) -> bool {
    order.no_duplicates() && order.to_set() == g.ways.dom()
}

/// The number of ways shown, of `n` that there are.
pub open spec fn shown(n: nat) -> nat {
    if n < MAX_LINE_COUNT {
        n
    } else {
        (MAX_LINE_COUNT - 1) as nat
    }
}

/// The lines along `path`, appended to `lines`.
fn draw_way(map: &Graph, path: &Vec<i64>, lines: &mut Vec<Line>)
    requires
        map@.wf(),
        forall|k: int| 0 <= k < path@.len() ==> map@.nodes.contains_key(#[trigger] path@[k]),
    ensures
        final(lines)@ == old(lines)@ + lines_along(map@, path@),
{
    let n = path.len();
    if n == 0 {
        return ;
    }
    let mut i: usize = 0;
    while i < n - 1
        invariant
            n == path@.len(),
            n > 0,
            i <= n - 1,
            forall|k: int| 0 <= k < path@.len() ==> map@.nodes.contains_key(#[trigger] path@[k]),
            lines@ == old(lines)@ + lines_along(map@, path@).take(i as int),
        decreases n - i,
    {
        match (map.node(path[i]), map.node(path[i + 1])) {
            (Some(from), Some(to)) => {
                lines.push(
                    Line {
                        from_lat: from.decimicro_lat,
                        from_lon: from.decimicro_lon,
                        to_lat: to.decimicro_lat,
                        to_lon: to.decimicro_lon,
                    },
                );
            },
            _ => {},
        }
        proof {
            let along = lines_along(map@, path@);
            assert(along.take(i + 1) =~= along.take(i as int).push(along[i as int]));
        }
        i += 1;
    }
    proof {
        let along = lines_along(map@, path@);
        assert(along.take(along.len() as int) =~= along);
    }
}

/// The box around `lines`.
fn frame(lines: &Vec<Line>) -> (f: Frame)
    ensures
        f == frame_of(lines@),
{
    let mut min_lat: i32 = 1_000_000_000;
    let mut max_lat: i32 = 0;
    let mut min_lon: i32 = 1_000_000_000;
    let mut max_lon: i32 = 0;
    let mut i: usize = 0;
    while i < lines.len()
        invariant
            i <= lines@.len(),
            (Frame { min_lat, max_lat, min_lon, max_lon }) == frame_of(lines@.take(i as int)),
        decreases lines@.len() - i,
    {
        proof {
            assert(lines@.take(i + 1).drop_last() =~= lines@.take(i as int));
        }
        let line = lines[i];
        if line.from_lat < min_lat {
            min_lat = line.from_lat;
        }
        if line.from_lon < min_lon {
            min_lon = line.from_lon;
        }
        if line.from_lat > max_lat {
            max_lat = line.from_lat;
        }
        if line.from_lon > max_lon {
            max_lon = line.from_lon;
        }
        if line.to_lat < min_lat {
            min_lat = line.to_lat;
        }
        if line.to_lon < min_lon {
            min_lon = line.to_lon;
        }
        if line.to_lat > max_lat {
            max_lat = line.to_lat;
        }
        if line.to_lon > max_lon {
            max_lon = line.to_lon;
        }
        i += 1;
    }
    proof {
        assert(lines@.take(lines@.len() as int) =~= lines@);
    }
    Frame { min_lat, max_lat, min_lon, max_lon }
}

/// Lays out pictures of a graph.
#[derive(Debug, Clone, Copy, PartialEq, Eq, Structural)]
pub struct MapDrawing {}

impl MapDrawing {
    /// Makes ready to lay out pictures.
    pub fn new() -> (drawing: MapDrawing)
        ensures
            drawing == (MapDrawing {  }),
    {
        MapDrawing {  }
    }

    /// Lays out a picture of `map`: a line for every step of every way, the
    /// ways in the order in which the map yields them and no more of them
    /// than a picture shows; and the box around the lines. The ways beyond
    /// that number are passed over.
    pub fn draw(&self, map: &Graph) -> (scene: Scene)
        ensures
            exists|order: Seq<i64>| #[trigger]
                lists_ways(map@, order) && scene.lines@ == lines_of(
                    map@,
                    order.take(shown(order.len()) as int),
                ),
            scene.frame == frame_of(scene.lines@),
    {
        let ways = map.ways();
        let ghost keys = spec_keys_iter(ways).remaining().unref();
        let mut lines: Vec<Line> = Vec::new();
        let mut draw_counter: u32 = 0;
        for id in it: ways.keys()
            invariant
                it.seq() == spec_keys_iter(ways).remaining(),
                keys == it.seq().unref(),
                map@.wf(),
                way_views(ways@) == map@.ways,
                draw_counter == shown(it.index() as nat),
                lines@ == lines_of(map@, keys.take(draw_counter as int)),
        {
            if draw_counter < MAX_LINE_COUNT - 1 {
                proof {
                    assert(it.seq().unref().to_set().contains(*id));
                }
                match map.way(*id) {
                    Some(way) => {
                        proof {
                            let i = it.index();
                            assert(keys.take(i + 1).drop_last() =~= keys.take(i));
                            assert forall|k: int|
                                0 <= k < way.nodes@.len() implies map@.nodes.contains_key(
                                #[trigger] way.nodes@[k],
                            ) by {
                                assert(map@.nodes.contains_key(map@.ways[*id].nodes[k]));
                            }
                        }
                        draw_way(map, &way.nodes, &mut lines);
                    },
                    None => {},
                }
                draw_counter += 1;
            }
        }
        proof {
            let refs = spec_keys_iter(ways).remaining();
            assert forall|i: int, j: int|
                0 <= i < keys.len() && 0 <= j < keys.len() && i != j implies keys[i] != keys[j] by {
                assert(refs[i] != refs[j]);
            }
            assert(ways@.dom() =~= map@.ways.dom());
            assert(lists_ways(map@, keys));
        }
        let frame = frame(&lines);
        Scene { lines, frame }
    }
}

} // verus!
