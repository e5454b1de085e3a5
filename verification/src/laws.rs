//! What holds of every traversal and of every load.

use crate::linking::all_known;
use crate::linking::lemma_with_edges;
use crate::linking::lemma_with_membership;
use crate::linking::lemma_with_way_mutual;
use crate::linking::lemma_with_way_wf;
use crate::linking::steps;
use crate::linking::steps_between;
use crate::loader::accepted;
use crate::loader::built;
use crate::loader::link;
use crate::loader::loaded;
use crate::loader::stored;
use crate::loader::unlinked_graph;
use crate::loader::used_ids;
use crate::loader::uses;
use crate::loader::way_ids_distinct;
use crate::loader::way_of;
use crate::model::AdjacencyModel;
use crate::model::Primitive;
use crate::model::WayInfo;
use crate::network::GraphView;
use crate::network::lemma_covered_in_nodes;
use crate::network::lemma_covered_push;
use crate::network::lemma_mutual_symmetric;
use crate::network::lemma_reach_set_in_nodes;
use crate::network::lemma_reaches_self;
use crate::network::lemma_reaches_trans;
use crate::network::lemma_sizes_push;
use crate::network::total;
use crate::tags::Filter;
use vstd::prelude::*;
use vstd::relations::injective_on;
use vstd::set_lib::lemma_len_subset;
use vstd::set_lib::lemma_map_size;

verus! {

/// The roots of a traversal are distinct nodes of the order, each with a
/// nonempty adjacency list, none reached by an earlier one; and what they
/// cover holds every such node of the order.
pub proof fn lemma_roots(g: GraphView, order: Seq<i64>)
    ensures
        g.roots(order).no_duplicates(),
        forall|i: int|
            0 <= i < g.roots(order).len() ==> g.active(#[trigger] g.roots(order)[i])
                && order.contains(g.roots(order)[i]),
        forall|i: int, j: int|
            0 <= i < j < g.roots(order).len() ==> !g.reaches(
                #[trigger] g.roots(order)[i],
                #[trigger] g.roots(order)[j],
            ),
        forall|k: int|
            0 <= k < order.len() && g.active(#[trigger] order[k]) ==> g.covered(
                g.roots(order),
            ).contains(order[k]),
    decreases order.len(),
{
    if order.len() > 0 {
        let shorter = order.drop_last();
        let x = order.last();
        let earlier = g.roots(shorter);
        let roots = g.roots(order);
        lemma_roots(g, shorter);
        lemma_covered_push(g, earlier, x);
        assert forall|i: int| 0 <= i < roots.len() implies g.active(#[trigger] roots[i])
            && order.contains(roots[i]) by {
            if i < earlier.len() {
                assert(shorter.contains(earlier[i]));
                let k = choose|k: int| 0 <= k < shorter.len() && shorter[k] == earlier[i];
                assert(order[k] == earlier[i]);
            } else {
                assert(order[order.len() - 1] == x);
            }
        }
        assert forall|i: int, j: int| 0 <= i < j < roots.len() implies !g.reaches(
            #[trigger] roots[i],
            #[trigger] roots[j],
        ) by {
            if j == earlier.len() {
                if g.reaches(earlier[i], x) {
                    assert(g.covered(earlier).contains(x));
                }
            }
        }
        assert forall|i: int, j: int|
            0 <= i < roots.len() && 0 <= j < roots.len() && i != j implies roots[i] != roots[j] by {
            let lo = if i < j {
                i
            } else {
                j
            };
            let hi = if i < j {
                j
            } else {
                i
            };
            lemma_reaches_self(g, roots[lo]);
            assert(!g.reaches(roots[lo], roots[hi]));
        }
        assert forall|k: int| 0 <= k < order.len() && g.active(#[trigger] order[k])
            implies g.covered(roots).contains(order[k]) by {
            if k < shorter.len() {
                assert(shorter[k] == order[k]);
                assert(g.covered(earlier).contains(shorter[k]));
                if roots != earlier {
                    assert(g.covered(roots) == g.covered(earlier).union(g.reach_set(x)));
                }
            } else {
                if roots == earlier {
                    assert(g.covered(earlier).contains(x));
                } else {
                    lemma_reaches_self(g, x);
                    assert(g.covered(roots) == g.covered(earlier).union(g.reach_set(x)));
                }
            }
        }
    }
}

/// Two nodes that reach each other reach the same.
pub proof fn lemma_same_component(g: GraphView, a: i64, b: i64)
    requires
        g.reaches(a, b),
        g.reaches(b, a),
    ensures
        g.reach_set(a) == g.reach_set(b),
{
    assert forall|x: i64| g.reach_set(a).contains(x) <==> g.reach_set(b).contains(x) by {
        if g.reaches(a, x) {
            lemma_reaches_trans(g, b, a, x);
        }
        if g.reaches(b, x) {
            lemma_reaches_trans(g, a, b, x);
        }
    }
}

/// Where reaching goes both ways, a traversal that is offered every node
/// with a nonempty adjacency list starts as many components as the graph
/// has, whatever the order of the offers.
pub proof fn law_count_is_components(g: GraphView, order: Seq<i64>)
    requires
        g.two_way(),
        g.active_set().subset_of(order.to_set()),
    ensures
        g.roots(order).len() == g.components().len(),
        g.components().finite(),
{
    let roots = g.roots(order);
    let f = g.reach_fn();
    lemma_roots(g, order);
    assert(injective_on(f, roots.to_set())) by {
        assert forall|r1: i64, r2: i64|
            roots.to_set().contains(r1) && roots.to_set().contains(r2) && #[trigger] f(r1)
                == #[trigger] f(r2) implies r1 == r2 by {
            let i = choose|i: int| 0 <= i < roots.len() && roots[i] == r1;
            let j = choose|j: int| 0 <= j < roots.len() && roots[j] == r2;
            lemma_reaches_self(g, r1);
            lemma_reaches_self(g, r2);
            assert(g.reach_set(r1).contains(r2));
            assert(g.reach_set(r2).contains(r1));
            if i < j {
                assert(!g.reaches(roots[i], roots[j]));
            } else if j < i {
                assert(!g.reaches(roots[j], roots[i]));
            }
        }
    }
    assert forall|c: Set<i64>| roots.to_set().map(f).contains(c) <==> g.components().contains(
        c,
    ) by {
        if roots.to_set().map(f).contains(c) {
            let r = choose|r: i64| roots.to_set().contains(r) && f(r) == c;
            let i = choose|i: int| 0 <= i < roots.len() && roots[i] == r;
            assert(g.active(roots[i]));
            assert(g.active_set().contains(r));
        }
        if g.components().contains(c) {
            let a = choose|a: i64| g.active_set().contains(a) && f(a) == c;
            assert(order.to_set().contains(a));
            let k = choose|k: int| 0 <= k < order.len() && order[k] == a;
            assert(g.active(order[k]));
            assert(g.covered(roots).contains(a));
            let i = choose|i: int| 0 <= i < roots.len() && #[trigger] g.reaches(roots[i], a);
            assert(g.active(roots[i]));
            lemma_same_component(g, roots[i], a);
            assert(roots.to_set().contains(roots[i]));
            assert(f(roots[i]) == c);
        }
    }
    assert(roots.to_set().map(f) =~= g.components());
    roots.unique_seq_to_set();
    vstd::seq_lib::seq_to_set_is_finite(roots);
    lemma_map_size(roots.to_set(), g.components(), f);
}

/// Where reaching goes both ways, the count of components does not depend
/// on the order in which a traversal is offered the nodes.
pub proof fn law_count_order_independent(g: GraphView, first: Seq<i64>, second: Seq<i64>)
    requires
        g.two_way(),
        g.enumerates(first),
        g.enumerates(second),
    ensures
        g.roots(first).len() == g.roots(second).len(),
{
    law_count_is_components(g, first);
    law_count_is_components(g, second);
}

/// Where reaching goes both ways and no step ends at a node with an empty
/// adjacency list, each component that a traversal finds is one of the
/// components of the graph: all that its root reaches.
pub proof fn law_found_are_components(g: GraphView, order: Seq<i64>, i: int)
    requires
        g.two_way(),
        g.no_dead_end(),
        0 <= i < g.roots(order).len(),
    ensures
        g.component(g.roots(order), i) == g.reach_set(g.roots(order)[i]),
        g.components().contains(g.component(g.roots(order), i)),
{
    let roots = g.roots(order);
    lemma_roots(g, order);
    assert forall|x: i64| g.reaches(roots[i], x) implies !g.covered(roots.take(i)).contains(x) by {
        if g.covered(roots.take(i)).contains(x) {
            let j = choose|j: int|
                0 <= j < roots.take(i).len() && #[trigger] g.reaches(roots.take(i)[j], x);
            lemma_reached_is_active(g, roots[i], x);
            lemma_reaches_trans(g, roots[j], x, roots[i]);
            assert(!g.reaches(roots[j], roots[i]));
        }
    }
    assert(g.component(roots, i) =~= g.reach_set(roots[i]));
    assert(g.active_set().contains(roots[i]));
}

/// No node is counted in two components.
pub proof fn law_components_disjoint(g: GraphView, roots: Seq<i64>, i: int, j: int)
    requires
        0 <= i < j < roots.len(),
    ensures
        g.component(roots, i).disjoint(g.component(roots, j)),
{
    assert forall|x: i64| g.component(roots, i).contains(x) implies !g.component(
        roots,
        j,
    ).contains(x) by {
        assert(g.reaches(roots.take(j)[i], x));
    }
}

/// The sizes of the components add up to the number of nodes that the roots
/// cover.
pub proof fn lemma_total_is_covered(g: GraphView, roots: Seq<i64>)
    requires
        g.wf(),
        forall|i: int| 0 <= i < roots.len() ==> g.nodes.contains_key(#[trigger] roots[i]),
    ensures
        total(g.sizes(roots)) == g.covered(roots).len(),
    decreases roots.len(),
{
    if roots.len() == 0 {
        assert(g.covered(roots) =~= Set::empty());
    } else {
        let earlier = roots.drop_last();
        let x = roots.last();
        assert(roots =~= earlier.push(x));
        lemma_total_is_covered(g, earlier);
        lemma_sizes_push(g, earlier, x);
        lemma_covered_push(g, earlier, x);
        lemma_covered_in_nodes(g, earlier);
        lemma_reach_set_in_nodes(g, x);
        let part = g.reach_set(x).difference(g.covered(earlier));
        assert(g.sizes(roots).drop_last() =~= g.sizes(earlier));
        assert(g.covered(earlier).union(g.reach_set(x)) =~= g.covered(earlier).union(part));
        lemma_len_subset(part, g.reach_set(x));
        vstd::set_lib::lemma_set_disjoint_lens(g.covered(earlier), part);
    }
}

/// Where no step ends at a node with an empty adjacency list, what a node
/// with a nonempty list reaches has a nonempty list.
pub proof fn lemma_reached_is_active(g: GraphView, a: i64, b: i64)
    requires
        g.no_dead_end(),
        g.active(a),
        g.reaches(a, b),
    ensures
        g.active(b),
{
    if a != b {
        let p = choose|p: Seq<i64>| #[trigger] g.path(p, a, b);
        assert(g.hop(p, p.len() - 2));
    }
}

/// Where no step ends at a node with an empty adjacency list, the sizes of
/// the components that a traversal finds add up to the number of nodes with
/// a nonempty adjacency list, if it is offered every such node.
pub proof fn law_sizes_add_up(g: GraphView, order: Seq<i64>)
    requires
        g.wf(),
        g.no_dead_end(),
        g.active_set().subset_of(order.to_set()),
    ensures
        total(g.sizes(g.roots(order))) == g.active_set().len(),
{
    let roots = g.roots(order);
    lemma_roots(g, order);
    lemma_total_is_covered(g, roots);
    assert forall|y: i64| g.covered(roots).contains(y) <==> g.active_set().contains(y) by {
        if g.covered(roots).contains(y) {
            let i = choose|i: int| 0 <= i < roots.len() && #[trigger] g.reaches(roots[i], y);
            lemma_reached_is_active(g, roots[i], y);
        }
        if g.active(y) {
            assert(order.to_set().contains(y));
            let k = choose|k: int| 0 <= k < order.len() && order[k] == y;
            assert(g.active(order[k]));
        }
    }
    assert(g.covered(roots) =~= g.active_set());
}

/// `a` and `b` are nodes, and each is in the adjacency list of the other.
pub open spec fn joined(g: GraphView, a: i64, b: i64) -> bool {
    &&& g.nodes.contains_key(a)
    &&& g.nodes.contains_key(b)
    &&& g.nodes[a].links.contains(b)
    &&& g.nodes[b].links.contains(a)
}

/// `h` has the nodes of `g`, and in their adjacency lists all that `g` has.
pub open spec fn grown(g: GraphView, h: GraphView) -> bool {
    &&& h.model == g.model
    &&& h.nodes.dom() == g.nodes.dom()
    &&& forall|c: i64, y: i64|
        #![trigger h.nodes[c].links.contains(y)]
        g.nodes[c].links.contains(y) ==> h.nodes[c].links.contains(y)
}

/// Some accepted way among `records` has the id `id`.
pub open spec fn kept(records: Seq<Primitive>, filter: Filter, id: i64) -> bool {
    exists|r: int|
        0 <= r < records.len() && #[trigger] accepted(records[r], filter) && way_of(records[r]).id
            == id
}

/// The second pass keeps no node whose id is not used, and links none.
pub proof fn law_no_unused_node(records: Seq<Primitive>, used: Set<i64>)
    ensures
        stored(records, used).dom().subset_of(used),
        stored(records, used).dom().finite(),
        forall|id: i64| #[trigger]
            stored(records, used).contains_key(id) ==> stored(records, used)[id].links.len() == 0,
    decreases records.len(),
{
    if records.len() > 0 {
        law_no_unused_node(records.drop_last(), used);
    }
}

/// What writing in one primitive does to a graph in which no reference
/// dangles.
pub proof fn lemma_link(g: GraphView, p: Primitive, filter: Filter)
    requires
        g.wf(),
        link(g, p, filter) is Ok,
    ensures
        ({
            let h = link(g, p, filter)->Ok_0;
            &&& h.wf()
            &&& grown(g, h)
            &&& forall|id: i64|
                #![trigger h.ways.contains_key(id)]
                h.ways.contains_key(id) <==> g.ways.contains_key(id) || (accepted(p, filter)
                    && way_of(p).id == id)
            &&& accepted(p, filter) ==> all_known(g.nodes, way_of(p).nodes@)
            &&& accepted(p, filter) && g.model == AdjacencyModel::EdgeIndexed ==> forall|i: int|
                #![trigger way_of(p).nodes@[i]]
                0 <= i < way_of(p).nodes@.len() - 1 ==> joined(
                    h,
                    way_of(p).nodes@[i],
                    way_of(p).nodes@[i + 1],
                )
        }),
{
    if accepted(p, filter) {
        let w = way_of(p);
        let path = w.nodes@;
        let h = link(g, p, filter)->Ok_0;
        lemma_with_way_wf(g, w.id, WayInfo::record(w));
        match g.model {
            AdjacencyModel::EdgeIndexed => {
                lemma_with_edges(g.nodes, path, steps(path));
                assert forall|i: int|
                    #![trigger path[i]]
                    0 <= i < path.len() - 1 implies joined(h, path[i], path[i + 1]) by {
                }
            },
            AdjacencyModel::WayIndexed => {
                lemma_with_membership(g.nodes, path, w.id, path.len());
            },
        }
    }
}

/// What writing in primitives does to a graph in which no reference dangles.
pub proof fn lemma_built(g: GraphView, records: Seq<Primitive>, filter: Filter)
    requires
        g.wf(),
        built(g, records, filter) is Ok,
    ensures
        ({
            let h = built(g, records, filter)->Ok_0;
            &&& h.wf()
            &&& grown(g, h)
            &&& forall|id: i64|
                #![trigger h.ways.contains_key(id)]
                #![trigger kept(records, filter, id)]
                h.ways.contains_key(id) <==> g.ways.contains_key(id) || kept(records, filter, id)
            &&& forall|r: int|
                0 <= r < records.len() && #[trigger] accepted(records[r], filter) ==> all_known(
                    g.nodes,
                    way_of(records[r]).nodes@,
                )
            &&& g.model == AdjacencyModel::EdgeIndexed ==> forall|r: int, i: int|
                #![trigger way_of(records[r]).nodes@[i]]
                0 <= r < records.len() && accepted(records[r], filter) && 0 <= i < way_of(
                    records[r],
                ).nodes@.len() - 1 ==> joined(
                    h,
                    way_of(records[r]).nodes@[i],
                    way_of(records[r]).nodes@[i + 1],
                )
        }),
    decreases records.len(),
{
    if records.len() > 0 {
        let shorter = records.drop_last();
        let p = records.last();
        let mid = built(g, shorter, filter)->Ok_0;
        let h = built(g, records, filter)->Ok_0;
        lemma_built(g, shorter, filter);
        lemma_link(mid, p, filter);
        assert(grown(g, h)) by {
            assert forall|c: i64, y: i64|
                #![trigger h.nodes[c].links.contains(y)]
                g.nodes[c].links.contains(y) implies h.nodes[c].links.contains(y) by {
                assert(mid.nodes[c].links.contains(y));
            }
        }
        assert forall|id: i64|
            #![trigger h.ways.contains_key(id)]
            #![trigger kept(records, filter, id)]
            h.ways.contains_key(id) <==> g.ways.contains_key(id) || kept(records, filter, id) by {
            assert(mid.ways.contains_key(id) <==> g.ways.contains_key(id) || kept(
                shorter,
                filter,
                id,
            ));
            assert(h.ways.contains_key(id) <==> mid.ways.contains_key(id) || (accepted(p, filter)
                && way_of(p).id == id));
            if kept(shorter, filter, id) {
                let r = choose|r: int|
                    0 <= r < shorter.len() && #[trigger] accepted(shorter[r], filter) && way_of(
                        shorter[r],
                    ).id == id;
                assert(accepted(records[r], filter));
            }
            if accepted(p, filter) && way_of(p).id == id {
                assert(accepted(records[records.len() - 1], filter));
            }
            if kept(records, filter, id) {
                let r = choose|r: int|
                    0 <= r < records.len() && #[trigger] accepted(records[r], filter) && way_of(
                        records[r],
                    ).id == id;
                if r < shorter.len() {
                    assert(accepted(shorter[r], filter));
                }
            }
        }
        assert forall|r: int|
            0 <= r < records.len() && #[trigger] accepted(records[r], filter) implies all_known(
            g.nodes,
            way_of(records[r]).nodes@,
        ) by {
            if r < shorter.len() {
                assert(accepted(shorter[r], filter));
            }
        }
        if g.model == AdjacencyModel::EdgeIndexed {
            assert forall|r: int, i: int|
                #![trigger way_of(records[r]).nodes@[i]]
                0 <= r < records.len() && accepted(records[r], filter) && 0 <= i < way_of(
                    records[r],
                ).nodes@.len() - 1 implies joined(
                h,
                way_of(records[r]).nodes@[i],
                way_of(records[r]).nodes@[i + 1],
            ) by {
                if r < shorter.len() {
                    assert(joined(
                        mid,
                        way_of(shorter[r]).nodes@[i],
                        way_of(shorter[r]).nodes@[i + 1],
                    ));
                }
            }
        }
    }
}

/// Writing in primitives keeps every entry answered, if in the way-indexed
/// model the accepted ways have ids that differ from each other and from
/// those of the ways that are there.
pub proof fn lemma_built_mutual(g: GraphView, records: Seq<Primitive>, filter: Filter)
    requires
        g.wf(),
        g.mutual(),
        built(g, records, filter) is Ok,
        g.model == AdjacencyModel::WayIndexed ==> way_ids_distinct(records, filter) && forall|
            id: i64,
        |
            g.ways.contains_key(id) ==> !kept(records, filter, id),
    ensures
        built(g, records, filter)->Ok_0.mutual(),
    decreases records.len(),
{
    if records.len() > 0 {
        let shorter = records.drop_last();
        let p = records.last();
        let mid = built(g, shorter, filter)->Ok_0;
        if g.model == AdjacencyModel::WayIndexed {
            assert forall|r: int, s: int|
                0 <= r < s < shorter.len() && #[trigger] accepted(shorter[r], filter)
                    && #[trigger] accepted(shorter[s], filter) implies way_of(shorter[r]).id
                != way_of(shorter[s]).id by {
                assert(accepted(records[r], filter) && accepted(records[s], filter));
            }
            assert forall|id: i64| g.ways.contains_key(id) implies !kept(shorter, filter, id) by {
                if kept(shorter, filter, id) {
                    let r = choose|r: int|
                        0 <= r < shorter.len() && #[trigger] accepted(shorter[r], filter)
                            && way_of(shorter[r]).id == id;
                    assert(accepted(records[r], filter));
                    assert(kept(records, filter, id));
                }
            }
        }
        lemma_built_mutual(g, shorter, filter);
        lemma_built(g, shorter, filter);
        if accepted(p, filter) {
            let w = way_of(p);
            if g.model == AdjacencyModel::WayIndexed {
                assert(accepted(records[records.len() - 1], filter));
                if mid.ways.contains_key(w.id) {
                    assert(mid.ways.contains_key(w.id) <==> g.ways.contains_key(w.id) || kept(
                        shorter,
                        filter,
                        w.id,
                    ));
                    if g.ways.contains_key(w.id) {
                        assert(kept(records, filter, w.id));
                    } else {
                        let r = choose|r: int|
                            0 <= r < shorter.len() && #[trigger] accepted(shorter[r], filter)
                                && way_of(shorter[r]).id == w.id;
                        assert(accepted(records[r], filter));
                    }
                }
            }
            lemma_with_way_mutual(mid, w.id, WayInfo::record(w));
        }
    }
}

/// The graph before any way is written in has no dangling reference, and
/// every entry in it is answered, there being none.
pub proof fn lemma_unlinked_graph(records: Seq<Primitive>, used: Set<i64>, model: AdjacencyModel)
    ensures
        unlinked_graph(stored(records, used), model).wf(),
        unlinked_graph(stored(records, used), model).mutual(),
{
    law_no_unused_node(records, used);
    let g = unlinked_graph(stored(records, used), model);
    assert forall|a: i64, b: i64| g.nodes.contains_key(a) implies !g.nodes[a].links.contains(b) by {
    }
}

/// After a load the graph holds a node for each id that an accepted way
/// uses, and no other.
pub proof fn law_nodes_are_the_used(records: Seq<Primitive>, filter: Filter, model: AdjacencyModel)
    requires
        loaded(records, filter, model) is Ok,
    ensures
        loaded(records, filter, model)->Ok_0.nodes.dom() == used_ids(records, filter),
        loaded(records, filter, model)->Ok_0.wf(),
{
    let used = used_ids(records, filter);
    let start = unlinked_graph(stored(records, used), model);
    let g = loaded(records, filter, model)->Ok_0;
    lemma_unlinked_graph(records, used, model);
    law_no_unused_node(records, used);
    lemma_built(start, records, filter);
    assert forall|id: i64| used.contains(id) implies g.nodes.dom().contains(id) by {
        let r = choose|r: int| 0 <= r < records.len() && #[trigger] uses(records[r], filter, id);
        assert(accepted(records[r], filter));
        let path = way_of(records[r]).nodes@;
        let k = choose|k: int| 0 <= k < path.len() && path[k] == id;
        assert(start.nodes.contains_key(path[k]));
    }
    assert(g.nodes.dom() =~= used);
}

/// After a load in the edge-indexed model, the two ends of every step of
/// every accepted way are in the adjacency list of each other.
pub proof fn law_steps_are_edges(records: Seq<Primitive>, filter: Filter, r: int, i: int)
    requires
        loaded(records, filter, AdjacencyModel::EdgeIndexed) is Ok,
        0 <= r < records.len(),
        accepted(records[r], filter),
        0 <= i < way_of(records[r]).nodes@.len() - 1,
    ensures
        joined(
            loaded(records, filter, AdjacencyModel::EdgeIndexed)->Ok_0,
            way_of(records[r]).nodes@[i],
            way_of(records[r]).nodes@[i + 1],
        ),
{
    let used = used_ids(records, filter);
    let start = unlinked_graph(stored(records, used), AdjacencyModel::EdgeIndexed);
    lemma_unlinked_graph(records, used, AdjacencyModel::EdgeIndexed);
    lemma_built(start, records, filter);
    let g = loaded(records, filter, AdjacencyModel::EdgeIndexed)->Ok_0;
    let w = way_of(records[r]);
    assert(joined(g, w.nodes@[i], w.nodes@[i + 1]));
}

/// After a load adjacency is symmetric, if in the way-indexed model no two
/// accepted ways have the same id.
pub proof fn law_loaded_symmetric(records: Seq<Primitive>, filter: Filter, model: AdjacencyModel)
    requires
        loaded(records, filter, model) is Ok,
        model == AdjacencyModel::WayIndexed ==> way_ids_distinct(records, filter),
    ensures
        loaded(records, filter, model)->Ok_0.mutual(),
        loaded(records, filter, model)->Ok_0.symmetric(),
{
    let used = used_ids(records, filter);
    let start = unlinked_graph(stored(records, used), model);
    lemma_unlinked_graph(records, used, model);
    lemma_built_mutual(start, records, filter);
    lemma_mutual_symmetric(loaded(records, filter, model)->Ok_0);
}

} // verus!
