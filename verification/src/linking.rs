//! How a way is written into the adjacency lists of its nodes.

use crate::graph::node_views;
use crate::model::AdjacencyModel;
use crate::model::NodeInfo;
use crate::model::NodeView;
use crate::model::WayView;
use crate::network::GraphView;
use std::collections::hash_map::Entry;
use std::collections::HashMap;
use vstd::prelude::*;

verus! {

/// `m` with `x` appended to the adjacency list of `a`.
pub open spec fn with_link(m: Map<i64, NodeView>, a: i64, x: i64) -> Map<i64, NodeView> {
    if m.contains_key(a) {
        m.insert(
            a,
            NodeView { tags: m[a].tags, lat: m[a].lat, lon: m[a].lon, links: m[a].links.push(x) },
        )
    } else {
        m
    }
}

/// `m` with the first `k` steps of `path` written in as edges, each in both
/// directions.
pub open spec fn with_edges(m: Map<i64, NodeView>, path: Seq<i64>, k: nat) -> Map<i64, NodeView>
    decreases k,
{
    if k == 0 {
        m
    } else {
        let earlier = with_edges(m, path, (k - 1) as nat);
        with_link(with_link(earlier, path[k - 1], path[k as int]), path[k as int], path[k - 1])
    }
}

/// `m` with `way` appended to the adjacency list of each of the first `k`
/// entries of `path`.
pub open spec fn with_membership(
    m: Map<i64, NodeView>,
    path: Seq<i64>,
    way: i64,
    k: nat,
) -> Map<i64, NodeView>
    decreases k,
{
    if k == 0 {
        m
    } else {
        with_link(with_membership(m, path, way, (k - 1) as nat), path[k - 1], way)
    }
}

/// The number of steps that `path` takes.
pub open spec fn steps(path: Seq<i64>) -> nat {
    if path.len() == 0 {
        0
    } else {
        (path.len() - 1) as nat
    }
}

/// `m` with the way `way` along `path` written in, as `model` has it.
pub open spec fn linked(
    m: Map<i64, NodeView>,
    path: Seq<i64>,
    way: i64,
    model: AdjacencyModel,
) -> Map<i64, NodeView> {
    match model {
        AdjacencyModel::EdgeIndexed => with_edges(m, path, steps(path)),
        AdjacencyModel::WayIndexed => with_membership(m, path, way, path.len()),
    }
}

/// Every entry of `path` is a key of `m`.
pub open spec fn all_known<V>(m: Map<i64, V>, path: Seq<i64>) -> bool {
    forall|k: int| 0 <= k < path.len() ==> m.contains_key(#[trigger] path[k])
}

/// `path` takes a step from `c` to `y` or from `y` to `c` among its first `k`.
pub open spec fn steps_between(path: Seq<i64>, k: nat, c: i64, y: i64) -> bool {
    exists|i: int|
        0 <= i < k && ((#[trigger] path[i] == c && path[i + 1] == y) || (path[i] == y && path[i + 1]
            == c))
}

/// `c` is among the first `k` entries of `path`.
pub open spec fn among(path: Seq<i64>, k: nat, c: i64) -> bool {
    exists|i: int| 0 <= i < k && #[trigger] path[i] == c
}

/// What appending a link changes, and what it leaves.
pub proof fn lemma_with_link(m: Map<i64, NodeView>, a: i64, x: i64)
    requires
        m.contains_key(a),
    ensures
        with_link(m, a, x).dom() == m.dom(),
        forall|c: i64, y: i64|
            #![trigger with_link(m, a, x)[c].links.contains(y)]
            with_link(m, a, x)[c].links.contains(y) <==> m[c].links.contains(y) || (c == a && y
                == x),
        forall|c: i64| c != a ==> #[trigger] with_link(m, a, x)[c] == m[c],
        with_link(m, a, x)[a].links == m[a].links.push(x),
        with_link(m, a, x)[a].tags == m[a].tags,
        with_link(m, a, x)[a].lat == m[a].lat,
        with_link(m, a, x)[a].lon == m[a].lon,
{
    let n = with_link(m, a, x);
    assert forall|c: i64, y: i64|
        #![trigger n[c].links.contains(y)]
        n[c].links.contains(y) <==> m[c].links.contains(y) || (c == a && y == x) by {
        if c == a {
            let old_links = m[a].links;
            let new_links = old_links.push(x);
            if old_links.contains(y) {
                let i = choose|i: int| 0 <= i < old_links.len() && old_links[i] == y;
                assert(new_links[i] == y);
            }
            assert(new_links[old_links.len() as int] == x);
        }
    }
}

/// What the edges of a path add to the adjacency lists: for each step, each
/// end in the list of the other; and nothing else.
pub proof fn lemma_with_edges(m: Map<i64, NodeView>, path: Seq<i64>, k: nat)
    requires
        all_known(m, path),
        k <= steps(path),
    ensures
        with_edges(m, path, k).dom() == m.dom(),
        forall|c: i64, y: i64|
            #![trigger with_edges(m, path, k)[c].links.contains(y)]
            with_edges(m, path, k)[c].links.contains(y) <==> m[c].links.contains(y)
                || steps_between(path, k, c, y),
        forall|c: i64|
            #![trigger with_edges(m, path, k)[c]]
            with_edges(m, path, k)[c].tags == m[c].tags && with_edges(m, path, k)[c].lat
                == m[c].lat && with_edges(m, path, k)[c].lon == m[c].lon && m[c].links.len()
                <= with_edges(m, path, k)[c].links.len(),
    decreases k,
{
    if k > 0 {
        let j = (k - 1) as nat;
        let e = with_edges(m, path, j);
        lemma_with_edges(m, path, j);
        let a = path[k - 1];
        let b = path[k as int];
        let f = with_link(e, a, b);
        lemma_with_link(e, a, b);
        lemma_with_link(f, b, a);
        let n = with_edges(m, path, k);
        assert forall|c: i64, y: i64|
            #![trigger n[c].links.contains(y)]
            n[c].links.contains(y) <==> m[c].links.contains(y) || steps_between(path, k, c, y) by {
            assert(e[c].links.contains(y) <==> m[c].links.contains(y) || steps_between(
                path,
                j,
                c,
                y,
            ));
            if steps_between(path, j, c, y) {
                let i = choose|i: int|
                    0 <= i < j && ((#[trigger] path[i] == c && path[i + 1] == y) || (path[i] == y
                        && path[i + 1] == c));
                assert(0 <= i < k && ((path[i] == c && path[i + 1] == y) || (path[i] == y
                    && path[i + 1] == c)));
            }
            if (c == a && y == b) || (c == b && y == a) {
                assert((path[k - 1] == c && path[(k - 1) + 1] == y) || (path[k - 1] == y && path[(k
                    - 1) + 1] == c));
            }
        }
        assert forall|c: i64|
            #![trigger n[c]]
            n[c].tags == m[c].tags && n[c].lat == m[c].lat && n[c].lon == m[c].lon
                && m[c].links.len() <= n[c].links.len() by {
        }
    }
}

/// What membership in a way adds to the adjacency lists: the way, in the
/// list of each node of the path; and nothing else.
pub proof fn lemma_with_membership(m: Map<i64, NodeView>, path: Seq<i64>, way: i64, k: nat)
    requires
        all_known(m, path),
        k <= path.len(),
    ensures
        with_membership(m, path, way, k).dom() == m.dom(),
        forall|c: i64, y: i64|
            #![trigger with_membership(m, path, way, k)[c].links.contains(y)]
            with_membership(m, path, way, k)[c].links.contains(y) <==> m[c].links.contains(y) || (y
                == way && among(path, k, c)),
        forall|c: i64|
            #![trigger with_membership(m, path, way, k)[c]]
            with_membership(m, path, way, k)[c].tags == m[c].tags && with_membership(
                m,
                path,
                way,
                k,
            )[c].lat == m[c].lat && with_membership(m, path, way, k)[c].lon == m[c].lon
                && m[c].links.len() <= with_membership(m, path, way, k)[c].links.len(),
    decreases k,
{
    if k > 0 {
        let j = (k - 1) as nat;
        let e = with_membership(m, path, way, j);
        lemma_with_membership(m, path, way, j);
        let a = path[k - 1];
        lemma_with_link(e, a, way);
        let n = with_membership(m, path, way, k);
        assert forall|c: i64, y: i64|
            #![trigger n[c].links.contains(y)]
            n[c].links.contains(y) <==> m[c].links.contains(y) || (y == way && among(
                path,
                k,
                c,
            )) by {
            assert(e[c].links.contains(y) <==> m[c].links.contains(y) || (y == way && among(
                path,
                j,
                c,
            )));
        }
        assert forall|c: i64|
            #![trigger n[c]]
            n[c].tags == m[c].tags && n[c].lat == m[c].lat && n[c].lon == m[c].lon
                && m[c].links.len() <= n[c].links.len() by {
        }
    }
}

/// Writing in a way whose nodes are all there leaves no reference dangling.
pub proof fn lemma_with_way_wf(g: GraphView, id: i64, way: WayView)
    requires
        g.wf(),
        all_known(g.nodes, way.nodes),
    ensures
        g.with_way(id, way).wf(),
        g.with_way(id, way).nodes.dom() == g.nodes.dom(),
{
    let h = g.with_way(id, way);
    let path = way.nodes;
    match g.model {
        AdjacencyModel::EdgeIndexed => {
            lemma_with_edges(g.nodes, path, steps(path));
        },
        AdjacencyModel::WayIndexed => {
            lemma_with_membership(g.nodes, path, id, path.len());
        },
    }
    assert forall|w: i64, k: int|
        #![trigger h.ways[w].nodes[k]]
        h.ways.contains_key(w) && 0 <= k < h.ways[w].nodes.len() implies h.nodes.contains_key(
        h.ways[w].nodes[k],
    ) by {
    }
    assert forall|a: i64, j: int|
        #![trigger h.nodes[a].links[j]]
        h.nodes.contains_key(a) && 0 <= j < h.nodes[a].links.len() implies h.link_known(
        h.nodes[a].links[j],
    ) by {
        assert(h.nodes[a].links.contains(h.nodes[a].links[j]));
    }
}

/// Writing in a way keeps every entry answered, if in the way-indexed model
/// the id of the way is new.
pub proof fn lemma_with_way_mutual(g: GraphView, id: i64, way: WayView)
    requires
        g.wf(),
        g.mutual(),
        all_known(g.nodes, way.nodes),
        g.model == AdjacencyModel::WayIndexed ==> !g.ways.contains_key(id),
    ensures
        g.with_way(id, way).mutual(),
{
    let h = g.with_way(id, way);
    let path = way.nodes;
    match g.model {
        AdjacencyModel::EdgeIndexed => {
            lemma_with_edges(g.nodes, path, steps(path));
            assert forall|a: i64, b: i64|
                #![trigger h.nodes[a].links.contains(b)]
                h.nodes.contains_key(a) && h.nodes[a].links.contains(b)
                    implies h.nodes.contains_key(b) && h.nodes[b].links.contains(a) by {
                if !g.nodes[a].links.contains(b) {
                    let i = choose|i: int|
                        0 <= i < steps(path) && ((#[trigger] path[i] == a && path[i + 1] == b) || (
                        path[i] == b && path[i + 1] == a));
                    assert((path[i] == b && path[i + 1] == a) || (path[i] == a && path[i + 1]
                        == b));
                }
            }
        },
        AdjacencyModel::WayIndexed => {
            lemma_with_membership(g.nodes, path, id, path.len());
            assert forall|a: i64, w: i64|
                #![trigger h.nodes[a].links.contains(w)]
                h.nodes.contains_key(a) && h.nodes[a].links.contains(w) implies h.ways.contains_key(
                w,
            ) && h.ways[w].nodes.contains(a) by {
            }
            assert forall|w: i64, b: i64|
                #![trigger h.ways[w].nodes.contains(b)]
                h.ways.contains_key(w) && h.ways[w].nodes.contains(b) implies h.nodes.contains_key(
                b,
            ) && h.nodes[b].links.contains(w) by {
            }
        },
    }
}

/// Appends `x` to the adjacency list of `a`.
pub(crate) fn push_link(nodes: &mut HashMap<i64, NodeInfo>, a: i64, x: i64)
    requires
        old(nodes)@.contains_key(a),
    ensures
        node_views(final(nodes)@) == with_link(node_views(old(nodes)@), a, x),
        final(nodes)@.dom() == old(nodes)@.dom(),
{
    match nodes.entry(a) {
        Entry::Occupied(mut found) => {
            found.get_mut().reachable_nodes.push(x);
        },
        Entry::Vacant(_) => {},
    }
}

/// Writes the steps of `path` into the adjacency lists, each in both
/// directions.
pub(crate) fn link_edges(nodes: &mut HashMap<i64, NodeInfo>, path: &Vec<i64>)
    requires
        all_known(old(nodes)@, path@),
    ensures
        node_views(final(nodes)@) == with_edges(node_views(old(nodes)@), path@, steps(path@)),
        final(nodes)@.dom() == old(nodes)@.dom(),
{
    let ghost before = node_views(nodes@);
    let n = path.len();
    if n == 0 {
        return ;
    }
    let mut i: usize = 0;
    while i < n - 1
        invariant
            n == path@.len(),
            n > 0,
            i <= steps(path@),
            nodes@.dom() == old(nodes)@.dom(),
            all_known(nodes@, path@),
            node_views(nodes@) == with_edges(before, path@, i as nat),
        decreases path@.len() - i,
    {
        let a = path[i];
        let b = path[i + 1];
        push_link(nodes, a, b);
        push_link(nodes, b, a);
        i += 1;
    }
}

/// Writes `way` into the adjacency list of every node of `path`.
pub(crate) fn link_members(nodes: &mut HashMap<i64, NodeInfo>, path: &Vec<i64>, way: i64)
    requires
        all_known(old(nodes)@, path@),
    ensures
        node_views(final(nodes)@) == with_membership(
            node_views(old(nodes)@),
            path@,
            way,
            path@.len(),
        ),
        final(nodes)@.dom() == old(nodes)@.dom(),
{
    let ghost before = node_views(nodes@);
    let mut i: usize = 0;
    while i < path.len()
        invariant
            i <= path@.len(),
            nodes@.dom() == old(nodes)@.dom(),
            all_known(nodes@, path@),
            node_views(nodes@) == with_membership(before, path@, way, i as nat),
        decreases path@.len() - i,
    {
        let a = path[i];
        push_link(nodes, a, way);
        i += 1;
    }
}

} // verus!
