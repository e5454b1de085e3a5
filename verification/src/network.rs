//! The graph as a mathematical object: adjacency, reachability and the
//! components that a traversal discovers.

use crate::linking::linked;
use crate::model::AdjacencyModel;
use crate::model::NodeView;
use crate::model::WayView;
use vstd::prelude::*;

verus! {

/// What a [`crate::graph::Graph`] stands for.
pub ghost struct GraphView {
    /// The nodes by id.
    pub nodes: Map<i64, NodeView>,
    /// The ways by id.
    pub ways: Map<i64, WayView>,
    /// How the adjacency lists of the nodes are to be read.
    pub model: AdjacencyModel,
}

impl GraphView {
    /// `a` is a node with a nonempty adjacency list.
    pub open spec fn active(self, a: i64) -> bool {
        self.nodes.contains_key(a) && self.nodes[a].links.len() > 0
    }

    /// The nodes with a nonempty adjacency list.
    pub open spec fn active_set(self) -> Set<i64> {
        Set::new(|a: i64| self.active(a))
    }

    /// An entry `x` of an adjacency list names something the graph holds.
    pub open spec fn link_known(self, x: i64) -> bool {
        match self.model {
            AdjacencyModel::EdgeIndexed => self.nodes.contains_key(x),
            AdjacencyModel::WayIndexed => self.ways.contains_key(x),
        }
    }

    /// Every node of every way is a node of the graph.
    pub open spec fn ways_resolved(self) -> bool {
        forall|w: i64, k: int|
            #![trigger self.ways[w].nodes[k]]
            self.ways.contains_key(w) && 0 <= k < self.ways[w].nodes.len()
                ==> self.nodes.contains_key(self.ways[w].nodes[k])
    }

    /// Every entry of every adjacency list names something the graph holds.
    pub open spec fn links_resolved(self) -> bool {
        forall|a: i64, j: int|
            #![trigger self.nodes[a].links[j]]
            self.nodes.contains_key(a) && 0 <= j < self.nodes[a].links.len()
                ==> self.link_known(self.nodes[a].links[j])
    }

    /// No reference dangles, and the graph is finite.
    pub open spec fn wf(self) -> bool {
        &&& self.nodes.dom().finite()
        &&& self.ways.dom().finite()
        &&& self.ways_resolved()
        &&& self.links_resolved()
    }

    /// `a` lists the way `w`, and `b` is a node of `w`.
    pub open spec fn via_way(self, a: i64, w: i64, b: i64) -> bool {
        &&& self.nodes[a].links.contains(w)
        &&& self.ways.contains_key(w)
        &&& self.ways[w].nodes.contains(b)
    }

    /// A traversal that stands at `a` goes on to `b`.
    pub open spec fn adjacent(self, a: i64, b: i64) -> bool {
        &&& self.nodes.contains_key(a)
        &&& match self.model {
            AdjacencyModel::EdgeIndexed => self.nodes[a].links.contains(b),
            AdjacencyModel::WayIndexed => exists|w: i64| #[trigger] self.via_way(a, w, b),
        }
    }

    /// Adjacency goes both ways.
    pub open spec fn symmetric(self) -> bool {
        forall|a: i64, b: i64| #[trigger] self.adjacent(a, b) ==> self.adjacent(b, a)
    }

    /// No step of adjacency ends at a node with an empty adjacency list.
    pub open spec fn no_dead_end(self) -> bool {
        forall|a: i64, b: i64| #[trigger] self.adjacent(a, b) ==> self.active(b)
    }

    /// `p` takes a step of adjacency from its entry `i` to the next.
    pub open spec fn hop(self, p: Seq<i64>, i: int) -> bool {
        self.adjacent(p[i], p[i + 1])
    }

    /// `p` leads from `a` to `b` by steps of adjacency.
    pub open spec fn path(self, p: Seq<i64>, a: i64, b: i64) -> bool {
        &&& p.len() > 0
        &&& p.first() == a
        &&& p.last() == b
        &&& forall|i: int| 0 <= i < p.len() - 1 ==> #[trigger] self.hop(p, i)
    }

    /// `b` is `a` itself or some steps of adjacency away from it.
    pub open spec fn reaches(self, a: i64, b: i64) -> bool {
        exists|p: Seq<i64>| #[trigger] self.path(p, a, b)
    }

    /// Among the nodes with a nonempty adjacency list, what a node reaches
    /// reaches the node.
    pub open spec fn two_way(self) -> bool {
        forall|a: i64, b: i64|
            self.active(a) && self.active(b) && #[trigger] self.reaches(a, b) ==> self.reaches(b, a)
    }

    /// All that `a` reaches.
    pub open spec fn reach_set(self, a: i64) -> Set<i64> {
        Set::new(|b: i64| self.reaches(a, b))
    }

    /// No step of adjacency leads out of `s`.
    pub open spec fn closed(self, s: Set<i64>) -> bool {
        forall|a: i64, b: i64| s.contains(a) && #[trigger] self.adjacent(a, b) ==> s.contains(b)
    }

    /// All that some element of `roots` reaches.
    pub open spec fn covered(self, roots: Seq<i64>) -> Set<i64> {
        Set::new(
            |x: i64| exists|i: int| 0 <= i < roots.len() && #[trigger] self.reaches(roots[i], x),
        )
    }

    /// `order` lists every node once, and nothing else.
    pub open spec fn enumerates(self, order: Seq<i64>) -> bool {
        order.no_duplicates() && order.to_set() == self.nodes.dom()
    }

    /// The roots of a traversal once it has been offered `x`: `x` starts a
    /// component if its adjacency list is nonempty and no root reaches it.
    pub open spec fn offer(self, roots: Seq<i64>, x: i64) -> Seq<i64> {
        if self.active(x) && !self.covered(roots).contains(x) {
            roots.push(x)
        } else {
            roots
        }
    }

    /// The nodes at which a traversal that is offered the candidates of
    /// `order` one by one starts a component.
    pub open spec fn roots(self, order: Seq<i64>) -> Seq<i64>
        decreases order.len(),
    {
        if order.len() == 0 {
            Seq::empty()
        } else {
            self.offer(self.roots(order.drop_last()), order.last())
        }
    }

    /// The component found from `roots[i]`: what it reaches and no earlier
    /// root does.
    pub open spec fn component(self, roots: Seq<i64>, i: int) -> Set<i64> {
        self.reach_set(roots[i]).difference(self.covered(roots.take(i)))
    }

    /// The sizes of the components found from `roots`, in that order.
    pub open spec fn sizes(self, roots: Seq<i64>) -> Seq<nat> {
        Seq::new(roots.len(), |i: int| self.component(roots, i).len())
    }

    /// Every entry of an adjacency list is answered: in the edge-indexed
    /// model by an entry in the list of the neighbor, in the way-indexed
    /// model by an entry in the node list of the way; and every entry of a
    /// way's node list by an entry in the adjacency list of the node.
    pub open spec fn mutual(self) -> bool {
        match self.model {
            AdjacencyModel::EdgeIndexed => forall|a: i64, b: i64|
                #![trigger self.nodes[a].links.contains(b)]
                self.nodes.contains_key(a) && self.nodes[a].links.contains(b)
                    ==> self.nodes.contains_key(b) && self.nodes[b].links.contains(a),
            AdjacencyModel::WayIndexed => {
                &&& forall|a: i64, w: i64|
                    #![trigger self.nodes[a].links.contains(w)]
                    self.nodes.contains_key(a) && self.nodes[a].links.contains(w)
                        ==> self.ways.contains_key(w) && self.ways[w].nodes.contains(a)
                &&& forall|w: i64, b: i64|
                    #![trigger self.ways[w].nodes.contains(b)]
                    self.ways.contains_key(w) && self.ways[w].nodes.contains(b)
                        ==> self.nodes.contains_key(b) && self.nodes[b].links.contains(w)
            },
        }
    }

    /// The graph with one more way written in.
    pub open spec fn with_way(self, id: i64, way: WayView) -> GraphView {
        GraphView {
            nodes: linked(self.nodes, way.nodes, id, self.model),
            ways: self.ways.insert(id, way),
            model: self.model,
        }
    }

    /// Takes a node to what it reaches.
    pub open spec fn reach_fn(self) -> spec_fn(i64) -> Set<i64> {
        |a: i64| self.reach_set(a)
    }

    /// The components of a graph in which reaching goes both ways: the sets
    /// that its nodes with a nonempty adjacency list reach.
    pub open spec fn components(self) -> Set<Set<i64>> {
        self.active_set().map(self.reach_fn())
    }
}

/// A size above which a component is reported.
pub const OVERSIZED: usize = 500;

/// The sum of `sizes`.
pub open spec fn total(sizes: Seq<nat>) -> nat
    decreases sizes.len(),
{
    if sizes.len() == 0 {
        0
    } else {
        total(sizes.drop_last()) + sizes.last()
    }
}

/// The sizes in `sizes` that are reported, in their order.
pub open spec fn oversized(sizes: Seq<nat>) -> Seq<nat> {
    sizes.filter(|s: nat| s > OVERSIZED)
}

/// Every node reaches itself.
pub proof fn lemma_reaches_self(g: GraphView, a: i64)
    ensures
        g.reaches(a, a),
{
    assert(g.path(seq![a], a, a));
}

/// A path may be extended by one step.
pub proof fn lemma_reaches_step(g: GraphView, a: i64, c: i64, b: i64)
    requires
        g.reaches(a, c),
        g.adjacent(c, b),
    ensures
        g.reaches(a, b),
{
    let p = choose|p: Seq<i64>| #[trigger] g.path(p, a, c);
    let q = p.push(b);
    assert forall|i: int| 0 <= i < q.len() - 1 implies #[trigger] g.hop(q, i) by {
        if i < p.len() - 1 {
            assert(g.hop(p, i));
        }
    }
    assert(g.path(q, a, b));
}

proof fn lemma_closed_holds_path(g: GraphView, s: Set<i64>, p: Seq<i64>, i: int)
    requires
        g.closed(s),
        p.len() > 0,
        s.contains(p[0]),
        forall|k: int| 0 <= k < p.len() - 1 ==> #[trigger] g.hop(p, k),
        0 <= i < p.len(),
    ensures
        s.contains(p[i]),
    decreases i,
{
    if i > 0 {
        lemma_closed_holds_path(g, s, p, i - 1);
        assert(g.hop(p, i - 1));
    }
}

/// A closed set holds all that its elements reach.
pub proof fn lemma_closed_holds_reach(g: GraphView, s: Set<i64>, a: i64, b: i64)
    requires
        g.closed(s),
        s.contains(a),
        g.reaches(a, b),
    ensures
        s.contains(b),
{
    let p = choose|p: Seq<i64>| #[trigger] g.path(p, a, b);
    lemma_closed_holds_path(g, s, p, p.len() - 1);
}

/// What a node reaches is closed.
pub proof fn lemma_reach_set_closed(g: GraphView, a: i64)
    ensures
        g.closed(g.reach_set(a)),
{
    assert forall|x: i64, y: i64| g.reach_set(a).contains(x) && #[trigger] g.adjacent(x, y)
        implies g.reach_set(a).contains(y) by {
        lemma_reaches_step(g, a, x, y);
    }
}

/// Reachability is transitive.
pub proof fn lemma_reaches_trans(g: GraphView, a: i64, b: i64, c: i64)
    requires
        g.reaches(a, b),
        g.reaches(b, c),
    ensures
        g.reaches(a, c),
{
    lemma_reach_set_closed(g, a);
    lemma_closed_holds_reach(g, g.reach_set(a), b, c);
}

/// The nodes that reach `a`.
pub open spec fn reaching(g: GraphView, a: i64) -> Set<i64> {
    Set::new(|x: i64| g.reaches(x, a))
}

/// Where adjacency is symmetric, so is reachability.
pub proof fn lemma_reaches_sym(g: GraphView, a: i64, b: i64)
    requires
        g.symmetric(),
        g.reaches(a, b),
    ensures
        g.reaches(b, a),
{
    let s = reaching(g, a);
    assert forall|x: i64, y: i64| s.contains(x) && #[trigger] g.adjacent(x, y) implies s.contains(
        y,
    ) by {
        lemma_reaches_self(g, y);
        lemma_reaches_step(g, y, y, x);
        lemma_reaches_trans(g, y, x, a);
    }
    lemma_reaches_self(g, a);
    lemma_closed_holds_reach(g, s, a, b);
}

/// Where adjacency is symmetric, reaching goes both ways, and no step ends
/// at a node with an empty adjacency list.
pub proof fn lemma_symmetric(g: GraphView)
    requires
        g.symmetric(),
    ensures
        g.two_way(),
        g.no_dead_end(),
{
    assert forall|a: i64, b: i64|
        g.active(a) && g.active(b) && #[trigger] g.reaches(a, b) implies g.reaches(b, a) by {
        lemma_reaches_sym(g, a, b);
    }
    assert forall|a: i64, b: i64| #[trigger] g.adjacent(a, b) implies g.active(b) by {
        assert(g.adjacent(b, a));
    }
}

/// In a well-formed graph a step of adjacency ends at a node.
pub proof fn lemma_adjacent_is_node(g: GraphView, a: i64, b: i64)
    requires
        g.wf(),
        g.adjacent(a, b),
    ensures
        g.nodes.contains_key(b),
{
}

/// In a well-formed graph a node reaches nodes only.
pub proof fn lemma_reach_set_in_nodes(g: GraphView, a: i64)
    requires
        g.wf(),
        g.nodes.contains_key(a),
    ensures
        g.reach_set(a).subset_of(g.nodes.dom()),
        g.reach_set(a).finite(),
{
    assert forall|x: i64, y: i64| g.nodes.dom().contains(x) && #[trigger] g.adjacent(x, y)
        implies g.nodes.dom().contains(y) by {
        lemma_adjacent_is_node(g, x, y);
    }
    assert forall|b: i64| g.reach_set(a).contains(b) implies g.nodes.dom().contains(b) by {
        lemma_closed_holds_reach(g, g.nodes.dom(), a, b);
    }
    vstd::set_lib::lemma_len_subset(g.reach_set(a), g.nodes.dom());
}

/// One more root covers what it reaches besides.
pub proof fn lemma_covered_push(g: GraphView, roots: Seq<i64>, x: i64)
    ensures
        g.covered(roots.push(x)) == g.covered(roots).union(g.reach_set(x)),
{
    let more = roots.push(x);
    assert forall|y: i64| g.covered(more).contains(y) <==> g.covered(roots).union(
        g.reach_set(x),
    ).contains(y) by {
        if g.covered(roots).contains(y) {
            let i = choose|i: int| 0 <= i < roots.len() && #[trigger] g.reaches(roots[i], y);
            assert(g.reaches(more[i], y));
        }
        if g.reaches(x, y) {
            assert(g.reaches(more[roots.len() as int], y));
        }
    }
}

/// What roots cover is closed.
pub proof fn lemma_covered_closed(g: GraphView, roots: Seq<i64>)
    ensures
        g.closed(g.covered(roots)),
{
    assert forall|a: i64, b: i64| g.covered(roots).contains(a) && #[trigger] g.adjacent(a, b)
        implies g.covered(roots).contains(b) by {
        let i = choose|i: int| 0 <= i < roots.len() && #[trigger] g.reaches(roots[i], a);
        lemma_reaches_step(g, roots[i], a, b);
    }
}

/// In a well-formed graph, roots that are nodes cover nodes only.
pub proof fn lemma_covered_in_nodes(g: GraphView, roots: Seq<i64>)
    requires
        g.wf(),
        forall|i: int| 0 <= i < roots.len() ==> g.nodes.contains_key(#[trigger] roots[i]),
    ensures
        g.covered(roots).subset_of(g.nodes.dom()),
        g.covered(roots).finite(),
{
    assert forall|y: i64| g.covered(roots).contains(y) implies g.nodes.dom().contains(y) by {
        let i = choose|i: int| 0 <= i < roots.len() && #[trigger] g.reaches(roots[i], y);
        lemma_reach_set_in_nodes(g, roots[i]);
    }
    vstd::set_lib::lemma_len_subset(g.covered(roots), g.nodes.dom());
}

/// One more root adds one component and leaves the earlier ones as they are.
pub proof fn lemma_sizes_push(g: GraphView, roots: Seq<i64>, x: i64)
    ensures
        g.sizes(roots.push(x)) == g.sizes(roots).push(
            g.reach_set(x).difference(g.covered(roots)).len(),
        ),
{
    let more = roots.push(x);
    assert(more.take(roots.len() as int) =~= roots);
    assert forall|i: int| 0 <= i < roots.len() implies g.component(more, i) == g.component(
        roots,
        i,
    ) by {
        assert(more.take(i) =~= roots.take(i));
    }
    assert(g.sizes(more) =~= g.sizes(roots).push(
        g.reach_set(x).difference(g.covered(roots)).len(),
    ));
}

/// A further size is reported if and only if it is oversized.
pub proof fn lemma_oversized_push(sizes: Seq<nat>, v: nat)
    ensures
        oversized(sizes.push(v)) == if v > OVERSIZED {
            oversized(sizes).push(v)
        } else {
            oversized(sizes)
        },
{
    reveal(Seq::filter);
    assert(sizes.push(v).drop_last() =~= sizes);
}

/// The roots of a longer order are those of the shorter, offered one more
/// candidate.
pub proof fn lemma_roots_push(g: GraphView, order: Seq<i64>, x: i64)
    ensures
        g.roots(order.push(x)) == g.offer(g.roots(order), x),
{
    assert(order.push(x).drop_last() =~= order);
}

/// Where every entry is answered, adjacency is symmetric.
pub proof fn lemma_mutual_symmetric(g: GraphView)
    requires
        g.mutual(),
    ensures
        g.symmetric(),
{
    assert forall|a: i64, b: i64| #[trigger] g.adjacent(a, b) implies g.adjacent(b, a) by {
        if g.model == AdjacencyModel::WayIndexed {
            let w = choose|w: i64| #[trigger] g.via_way(a, w, b);
            assert(g.via_way(b, w, a));
        }
    }
}

} // verus!
