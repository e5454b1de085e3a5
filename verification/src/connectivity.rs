//! Breadth-first search for the connected components of a graph.

use crate::graph::Graph;
use crate::laws::law_count_is_components;
use crate::model::AdjacencyModel;
use crate::network::GraphView;
use crate::network::lemma_adjacent_is_node;
use crate::network::lemma_closed_holds_reach;
use crate::network::lemma_covered_closed;
use crate::network::lemma_covered_in_nodes;
use crate::network::lemma_covered_push;
use crate::network::lemma_oversized_push;
use crate::network::lemma_reaches_self;
use crate::network::lemma_reaches_step;
use crate::network::lemma_roots_push;
use crate::network::lemma_sizes_push;
use crate::network::OVERSIZED;
use crate::network::oversized;
use std::collections::HashSet;
use std::collections::VecDeque;
use vstd::prelude::*;
use vstd::set_lib::lemma_len_subset;
use vstd::std_specs::hash::spec_keys_iter;
use vstd::std_specs::iter::IteratorSpec;

verus! {

/// What an analysis found: how many components there are, and the sizes of
/// those with more than [`OVERSIZED`] nodes, in the order of their discovery.
/// A size is the number of nodes of the component: each is counted once, when
/// it is queued, the node at which the search started among them.
#[derive(Debug, Clone, PartialEq, Eq)]
pub struct ConnectivityReport {
    /// The number of connected components.
    pub components: usize,
    /// The sizes of the oversized components.
    pub oversized: Vec<usize>,
}

impl ConnectivityReport {
    /// The reported sizes as numbers.
    pub open spec fn reported(self) -> Seq<nat> {
        self.oversized@.map_values(|s: usize| s as nat)
    }

    /// The report is that of a traversal of `g` that started its components
    /// at `roots`.
    pub open spec fn describes(self, g: GraphView, roots: Seq<i64>) -> bool {
        &&& self.components == roots.len()
        &&& self.reported() == oversized(g.sizes(roots))
    }
}

/// `x` was seen in the search that is under way, not before it.
spec fn fresh(before: Set<i64>, seen: Set<i64>, x: i64) -> bool {
    seen.contains(x) && !before.contains(x)
}

/// Every neighbor of `x` has been seen.
spec fn expanded(g: GraphView, seen: Set<i64>, x: i64) -> bool {
    forall|y: i64| #[trigger] g.adjacent(x, y) ==> seen.contains(y)
}

/// The state of a search from `root` that found `before` already seen: `seen`
/// is what has been seen by now, `queue` waits to be expanded, `cur` is being
/// expanded, `size` nodes are new and `done` of them have left the queue.
spec fn searching(
    g: GraphView,
    before: Set<i64>,
    root: i64,
    seen: Set<i64>,
    queue: Seq<i64>,
    size: nat,
    done: nat,
    cur: Option<i64>,
) -> bool {
    &&& g.wf()
    &&& g.nodes.dom().len() <= usize::MAX
    &&& g.closed(before)
    &&& before.subset_of(seen)
    &&& seen.subset_of(g.nodes.dom())
    &&& fresh(before, seen, root)
    &&& forall|x: i64| #[trigger]
        fresh(before, seen, x) ==> g.reaches(root, x) && (queue.contains(x) || cur == Some(x)
            || expanded(g, seen, x))
    &&& forall|i: int| 0 <= i < queue.len() ==> fresh(before, seen, #[trigger] queue[i])
    &&& (cur matches Some(c) ==> fresh(before, seen, c))
    &&& size == seen.difference(before).len()
    &&& done + queue.len() == size
}

/// Marks the unseen ones among `candidates`, all neighbors of `cur`, and
/// queues them.
fn visit_all(
    g: &Graph,
    candidates: &Vec<i64>,
    visited: &mut HashSet<i64>,
    queue: &mut VecDeque<i64>,
    size: &mut usize,
    Ghost(before): Ghost<Set<i64>>,
    Ghost(root): Ghost<i64>,
    Ghost(done): Ghost<nat>,
    Ghost(cur): Ghost<i64>,
)
    requires
        searching(
            g@,
            before,
            root,
            old(visited)@,
            old(queue)@,
            *old(size) as nat,
            done,
            Some(cur),
        ),
        forall|j: int| 0 <= j < candidates@.len() ==> g@.adjacent(cur, #[trigger] candidates@[j]),
    ensures
        searching(
            g@,
            before,
            root,
            final(visited)@,
            final(queue)@,
            *final(size) as nat,
            done,
            Some(cur),
        ),
        old(visited)@.subset_of(final(visited)@),
        forall|j: int|
            0 <= j < candidates@.len() ==> final(visited)@.contains(#[trigger] candidates@[j]),
{
    let mut j: usize = 0;
    while j < candidates.len()
        invariant
            j <= candidates@.len(),
            searching(g@, before, root, visited@, queue@, *size as nat, done, Some(cur)),
            forall|i: int|
                0 <= i < candidates@.len() ==> g@.adjacent(cur, #[trigger] candidates@[i]),
            old(visited)@.subset_of(visited@),
            forall|i: int| 0 <= i < j ==> visited@.contains(#[trigger] candidates@[i]),
        decreases candidates@.len() - j,
    {
        let c = candidates[j];
        let ghost seen = visited@;
        let ghost waiting = queue@;
        if !visited.contains(&c) {
            proof {
                lemma_adjacent_is_node(g@, cur, c);
                lemma_reaches_step(g@, root, cur, c);
                let grown = seen.insert(c);
                assert(grown.difference(before) =~= seen.difference(before).insert(c));
                lemma_len_subset(seen.difference(before), g@.nodes.dom());
                lemma_len_subset(grown.difference(before), g@.nodes.dom());
            }
            visited.insert(c);
            queue.push_back(c);
            *size = *size + 1;
            proof {
                let grown = visited@;
                let longer = queue@;
                assert(longer[waiting.len() as int] == c);
                assert forall|x: i64| #[trigger] fresh(before, grown, x) implies g@.reaches(root, x)
                    && (longer.contains(x) || Some(cur) == Some(x) || expanded(g@, grown, x)) by {
                    if x != c {
                        assert(fresh(before, seen, x));
                        if waiting.contains(x) {
                            let i = choose|i: int| 0 <= i < waiting.len() && waiting[i] == x;
                            assert(longer[i] == x);
                        }
                    }
                }
                assert forall|i: int| 0 <= i < longer.len() implies fresh(
                    before,
                    grown,
                    #[trigger] longer[i],
                ) by {
                }
            }
        }
        j += 1;
    }
}

/// Searches breadth first from `root` and marks all that it reaches. Returns
/// the number of nodes that were not seen before.
fn explore(g: &Graph, root: i64, visited: &mut HashSet<i64>, queue: &mut VecDeque<i64>) -> (size:
    usize)
    requires
        g@.wf(),
        g@.nodes.dom().len() <= usize::MAX,
        g@.nodes.contains_key(root),
        !old(visited)@.contains(root),
        g@.closed(old(visited)@),
        old(visited)@.subset_of(g@.nodes.dom()),
        old(queue)@.len() == 0,
    ensures
        final(visited)@ == old(visited)@.union(g@.reach_set(root)),
        size == g@.reach_set(root).difference(old(visited)@).len(),
        final(queue)@.len() == 0,
{
    let ghost before = visited@;
    proof {
        lemma_reaches_self(g@, root);
        assert(before.insert(root).difference(before) =~= set![root]);
    }
    visited.insert(root);
    queue.push_back(root);
    let mut size: usize = 1;
    let ghost mut done: nat = 0;
    proof {
        assert(queue@[0] == root);
    }
    while queue.len() > 0
        invariant
            searching(g@, before, root, visited@, queue@, size as nat, done, None),
        decreases g@.nodes.dom().len() - done,
    {
        let ghost seen = visited@;
        let ghost waiting = queue@;
        let cur = queue.pop_front().unwrap();
        proof {
            lemma_len_subset(seen.difference(before), g@.nodes.dom());
            done = done + 1;
            assert forall|x: i64| #[trigger] fresh(before, seen, x) implies g@.reaches(root, x) && (
            queue@.contains(x) || Some(cur) == Some(x) || expanded(g@, seen, x)) by {
                if waiting.contains(x) && x != cur {
                    let i = choose|i: int| 0 <= i < waiting.len() && waiting[i] == x;
                    assert(queue@[i - 1] == x);
                }
            }
            assert forall|i: int| 0 <= i < queue@.len() implies fresh(
                before,
                seen,
                #[trigger] queue@[i],
            ) by {
            }
        }
        match g.node(cur) {
            Some(info) => {
                match g.model() {
                    AdjacencyModel::EdgeIndexed => {
                        visit_all(
                            g,
                            &info.reachable_nodes,
                            visited,
                            queue,
                            &mut size,
                            Ghost(before),
                            Ghost(root),
                            Ghost(done),
                            Ghost(cur),
                        );
                        proof {
                            assert forall|y: i64| #[trigger]
                                g@.adjacent(cur, y) implies visited@.contains(y) by {
                                let i = choose|i: int|
                                    0 <= i < info.reachable_nodes@.len()
                                        && info.reachable_nodes@[i] == y;
                                assert(visited@.contains(info.reachable_nodes@[i]));
                            }
                        }
                    },
                    AdjacencyModel::WayIndexed => {
                        let mut k: usize = 0;
                        while k < info.reachable_nodes.len()
                            invariant
                                k <= info.reachable_nodes@.len(),
                                info@ == g@.nodes[cur],
                                g@.model == AdjacencyModel::WayIndexed,
                                searching(
                                    g@,
                                    before,
                                    root,
                                    visited@,
                                    queue@,
                                    size as nat,
                                    done,
                                    Some(cur),
                                ),
                                forall|i: int, y: i64|
                                    0 <= i < k && #[trigger] g@.via_way(
                                        cur,
                                        info.reachable_nodes@[i],
                                        y,
                                    ) ==> visited@.contains(y),
                            decreases info.reachable_nodes@.len() - k,
                        {
                            let w = info.reachable_nodes[k];
                            match g.way(w) {
                                Some(way) => {
                                    proof {
                                        assert forall|j: int|
                                            0 <= j < way.nodes@.len() implies g@.adjacent(
                                            cur,
                                            #[trigger] way.nodes@[j],
                                        ) by {
                                            assert(g@.via_way(cur, w, way.nodes@[j]));
                                        }
                                    }
                                    visit_all(
                                        g,
                                        &way.nodes,
                                        visited,
                                        queue,
                                        &mut size,
                                        Ghost(before),
                                        Ghost(root),
                                        Ghost(done),
                                        Ghost(cur),
                                    );
                                    proof {
                                        assert forall|y: i64| #[trigger]
                                            g@.via_way(cur, w, y) implies visited@.contains(y) by {
                                        }
                                    }
                                },
                                None => {},
                            }
                            k += 1;
                        }
                        proof {
                            assert forall|y: i64| #[trigger]
                                g@.adjacent(cur, y) implies visited@.contains(y) by {
                            }
                        }
                    },
                }
            },
            None => {},
        }
    }
    proof {
        let seen = visited@;
        assert forall|x: i64, y: i64| seen.contains(x) && #[trigger] g@.adjacent(x, y)
            implies seen.contains(y) by {
            if !before.contains(x) {
                assert(fresh(before, seen, x));
            }
        }
        assert forall|x: i64| g@.reach_set(root).contains(x) implies seen.contains(x) by {
            lemma_closed_holds_reach(g@, seen, root, x);
        }
        assert forall|x: i64| seen.contains(x) implies before.union(g@.reach_set(root)).contains(
            x,
        ) by {
            if !before.contains(x) {
                assert(fresh(before, seen, x));
            }
        }
        assert(seen.difference(before) =~= g@.reach_set(root).difference(before));
    }
    size
}

/// A traversal under way: what has been seen, and what has been found of
/// components so far.
struct Traversal {
    visited: HashSet<i64>,
    queue: VecDeque<i64>,
    components: usize,
    oversized: Vec<usize>,
    roots: Ghost<Seq<i64>>,
}

impl Traversal {
    /// The report that the traversal has come to.
    spec fn report(self) -> ConnectivityReport {
        ConnectivityReport { components: self.components, oversized: self.oversized }
    }

    /// The traversal has been through the components of `g` that start at
    /// its roots, and through nothing else.
    spec fn inv(self, g: GraphView) -> bool {
        &&& g.wf()
        &&& g.nodes.dom().len() <= usize::MAX
        &&& self.visited@ == g.covered(self.roots@)
        &&& self.queue@.len() == 0
        &&& self.report().describes(g, self.roots@)
        &&& self.roots@.no_duplicates()
        &&& forall|i: int|
            0 <= i < self.roots@.len() ==> g.nodes.contains_key(#[trigger] self.roots@[i])
    }

    fn new(g: &Graph) -> (t: Traversal)
        ensures
            t.inv(g@),
            t.roots@ == Seq::<i64>::empty(),
    {
        let nodes = g.nodes();
        proof {
            assert(nodes@.len() == nodes.len());
            assert(nodes@.dom() =~= g@.nodes.dom());
            assert(g@.covered(Seq::empty()) =~= Set::empty());
            assert(g@.sizes(Seq::empty()) =~= Seq::empty());
            reveal(Seq::filter);
        }
        let t = Traversal {
            visited: HashSet::new(),
            queue: VecDeque::new(),
            components: 0,
            oversized: Vec::new(),
            roots: Ghost(Seq::empty()),
        };
        proof {
            assert(t.report().reported() =~= Seq::empty());
        }
        t
    }

    /// Takes `x` as a candidate: if it has neighbors and has not been seen,
    /// searches its component.
    fn offer(&mut self, g: &Graph, x: i64)
        requires
            old(self).inv(g@),
        ensures
            final(self).inv(g@),
            final(self).roots@ == g@.offer(old(self).roots@, x),
    {
        if self.visited.contains(&x) {
            return ;
        }
        let links = match g.node(x) {
            Some(info) => info.reachable_nodes.len(),
            None => 0,
        };
        if links == 0 {
            return ;
        }
        let ghost roots = self.roots@;
        let ghost more = roots.push(x);
        proof {
            lemma_covered_closed(g@, roots);
            lemma_covered_in_nodes(g@, roots);
        }
        let size = explore(g, x, &mut self.visited, &mut self.queue);
        proof {
            lemma_covered_push(g@, roots, x);
            lemma_sizes_push(g@, roots, x);
            lemma_oversized_push(g@.sizes(roots), size as nat);
            assert forall|i: int, j: int|
                0 <= i < more.len() && 0 <= j < more.len() && i != j implies more[i] != more[j] by {
                if i < roots.len() && j == roots.len() {
                    lemma_reaches_self(g@, roots[i]);
                }
                if j < roots.len() && i == roots.len() {
                    lemma_reaches_self(g@, roots[j]);
                }
            }
            more.unique_seq_to_set();
            lemma_len_subset(more.to_set(), g@.nodes.dom());
        }
        self.components = self.components + 1;
        let ghost reported = self.report().reported();
        if size > OVERSIZED {
            self.oversized.push(size);
            proof {
                assert(self.report().reported() =~= reported.push(size as nat));
            }
        }
        self.roots = Ghost(more);
    }

    fn finish(self) -> (report: ConnectivityReport)
        ensures
            report == self.report(),
    {
        ConnectivityReport { components: self.components, oversized: self.oversized }
    }
}

impl Graph {
    /// Counts the connected components among the nodes with a nonempty
    /// adjacency list, taking `order` as the candidates at which a component
    /// may start. Ids that name no node are passed over.
    pub fn check_connectivity_in(&self, order: &[i64]) -> (report: ConnectivityReport)
        ensures
            report.describes(self@, self@.roots(order@)),
            self@.two_way() && self@.active_set().subset_of(order@.to_set())
                ==> report.components == self@.components().len(),
    {
        let mut t = Traversal::new(self);
        let mut i: usize = 0;
        while i < order.len()
            invariant
                i <= order@.len(),
                t.inv(self@),
                t.roots@ == self@.roots(order@.take(i as int)),
            decreases order@.len() - i,
        {
            proof {
                lemma_roots_push(self@, order@.take(i as int), order@[i as int]);
                assert(order@.take(i as int).push(order@[i as int]) =~= order@.take(i + 1));
            }
            t.offer(self, order[i]);
            i += 1;
        }
        proof {
            assert(order@.take(order@.len() as int) =~= order@);
            if self@.two_way() && self@.active_set().subset_of(order@.to_set()) {
                law_count_is_components(self@, order@);
            }
        }
        t.finish()
    }

    /// Counts the connected components among the nodes with a nonempty
    /// adjacency list, taking the nodes as candidates in the order in which
    /// the map yields them.
    pub fn check_connectivity(&self) -> (report: ConnectivityReport)
        ensures
            exists|order: Seq<i64>| #[trigger]
                self@.enumerates(order) && report.describes(self@, self@.roots(order)),
            self@.two_way() ==> report.components == self@.components().len(),
    {
        let mut t = Traversal::new(self);
        let nodes = self.nodes();
        let ghost keys = spec_keys_iter(nodes).remaining().unref();
        for k in it: nodes.keys()
            invariant
                it.seq() == spec_keys_iter(nodes).remaining(),
                keys == it.seq().unref(),
                t.inv(self@),
                t.roots@ == self@.roots(keys.take(it.index())),
        {
            proof {
                let i = it.index();
                lemma_roots_push(self@, keys.take(i), keys[i]);
                assert(keys.take(i).push(keys[i]) =~= keys.take(i + 1));
            }
            t.offer(self, *k);
        }
        proof {
            let refs = spec_keys_iter(nodes).remaining();
            assert(keys.take(keys.len() as int) =~= keys);
            assert forall|i: int, j: int|
                0 <= i < keys.len() && 0 <= j < keys.len() && i != j implies keys[i] != keys[j] by {
                assert(refs[i] != refs[j]);
            }
            assert(nodes@.dom() =~= self@.nodes.dom());
            assert(self@.enumerates(keys));
            if self@.two_way() {
                law_count_is_components(self@, keys);
            }
        }
        t.finish()
    }
}

} // verus!
