//! The three passes that build a graph from a stream of primitives.
//!
//! The first pass collects the ids of the nodes that accepted ways use, the
//! second keeps the nodes with such an id, the third writes the accepted ways
//! into the adjacency lists. Between two passes the source is set back to
//! its start. Reading and rewinding are the caller's part; each pass here
//! takes what the source yielded.

use crate::error::LoadError;
use crate::graph::all_keys;
use crate::graph::Graph;
use crate::graph::graph_view;
use crate::graph::node_views;
use crate::graph::way_views;
use crate::laws::law_loaded_symmetric;
use crate::laws::law_nodes_are_the_used;
use crate::linking::all_known;
use crate::linking::lemma_with_way_wf;
use crate::linking::link_edges;
use crate::linking::link_members;
use crate::model::AdjacencyModel;
use crate::model::NodeInfo;
use crate::model::NodeView;
use crate::model::Primitive;
use crate::model::Way;
use crate::model::WayInfo;
use crate::network::GraphView;
use crate::network::lemma_symmetric;
use crate::tags::Filter;
use osmpbfreader::Error;
use std::collections::HashMap;
use std::collections::HashSet;
use vstd::prelude::*;

verus! {

/// `osmpbfreader::Error`, what the reader gives in place of an object that
/// it cannot decode, and when it cannot rewind. Nothing is said of what is in
/// it.
#[verifier::external_type_specification]
#[verifier::external_body]
pub struct ExError(Error);

/// `HashSet::shrink_to_fit`: gives back the memory that the set does not
/// need. What the set holds stays.
#[verifier::external_body]
fn shrink_set(set: &mut HashSet<i64>)
    ensures
        final(set)@ == old(set)@,
{
    set.shrink_to_fit()
}

/// `HashMap::shrink_to_fit`: gives back the memory that the map does not
/// need. What the map holds stays.
#[verifier::external_body]
fn shrink_map<V>(map: &mut HashMap<i64, V>)
    ensures
        final(map)@ == old(map)@,
{
    map.shrink_to_fit()
}

/// `p` is a way that `filter` accepts and that goes through `id`.
pub open spec fn uses(p: Primitive, filter: Filter, id: i64) -> bool {
    p matches Primitive::Way(w) && filter.accepts(w.tags) && w.nodes@.contains(id)
}

/// `p` is a way that `filter` accepts.
pub open spec fn accepted(p: Primitive, filter: Filter) -> bool {
    p matches Primitive::Way(w) && filter.accepts(w.tags)
}

/// The way that `p` is, if it is one.
pub open spec fn way_of(p: Primitive) -> Way {
    p->Way_0
}

/// No two accepted ways among `records` have the same id.
pub open spec fn way_ids_distinct(records: Seq<Primitive>, filter: Filter) -> bool {
    forall|r: int, s: int|
        0 <= r < s < records.len() && #[trigger] accepted(records[r], filter)
            && #[trigger] accepted(records[s], filter) ==> way_of(records[r]).id != way_of(
            records[s],
        ).id
}

/// The ids of the nodes that some accepted way among `records` goes through.
pub open spec fn used_ids(records: Seq<Primitive>, filter: Filter) -> Set<i64> {
    Set::new(
        |id: i64| exists|r: int| 0 <= r < records.len() && #[trigger] uses(records[r], filter, id),
    )
}

/// The ids that one primitive adds to the used ids.
pub open spec fn ids_of(p: Primitive, filter: Filter) -> Set<i64> {
    Set::new(|id: i64| uses(p, filter, id))
}

/// The nodes kept of one more primitive: a node whose id is used is put
/// under its id, in place of what was there.
pub open spec fn store(nodes: Map<i64, NodeView>, p: Primitive, used: Set<i64>) -> Map<
    i64,
    NodeView,
> {
    match p {
        Primitive::Node(n) => if used.contains(n.id) {
            nodes.insert(n.id, NodeInfo::unlinked(n))
        } else {
            nodes
        },
        _ => nodes,
    }
}

/// The nodes kept of `records`.
pub open spec fn stored(records: Seq<Primitive>, used: Set<i64>) -> Map<i64, NodeView>
    decreases records.len(),
{
    if records.len() == 0 {
        Map::empty()
    } else {
        store(stored(records.drop_last(), used), records.last(), used)
    }
}

/// The graph with one more primitive written in: an accepted way is linked
/// to its nodes and kept, unless it names a node that is not there.
pub open spec fn link(g: GraphView, p: Primitive, filter: Filter) -> Result<GraphView, LoadError> {
    match p {
        Primitive::Way(w) => if !filter.accepts(w.tags) {
            Ok(g)
        } else if all_known(g.nodes, w.nodes@) {
            Ok(g.with_way(w.id, WayInfo::record(w)))
        } else {
            Err(LoadError::DanglingReference)
        },
        _ => Ok(g),
    }
}

/// The graph with `records` written in, up to the first that fails.
pub open spec fn built(g: GraphView, records: Seq<Primitive>, filter: Filter) -> Result<
    GraphView,
    LoadError,
>
    decreases records.len(),
{
    if records.len() == 0 {
        Ok(g)
    } else {
        match built(g, records.drop_last(), filter) {
            Ok(h) => link(h, records.last(), filter),
            Err(e) => Err(e),
        }
    }
}

/// The graph before any way is written in.
pub open spec fn unlinked_graph(nodes: Map<i64, NodeView>, model: AdjacencyModel) -> GraphView {
    GraphView { nodes, ways: Map::empty(), model }
}

/// The graph that three passes over `records` give.
pub open spec fn loaded(records: Seq<Primitive>, filter: Filter, model: AdjacencyModel) -> Result<
    GraphView,
    LoadError,
> {
    built(unlinked_graph(stored(records, used_ids(records, filter)), model), records, filter)
}

/// One more primitive adds its ids to the used ids.
pub proof fn lemma_used_ids_push(records: Seq<Primitive>, p: Primitive, filter: Filter)
    ensures
        used_ids(records.push(p), filter) == used_ids(records, filter).union(ids_of(p, filter)),
{
    let more = records.push(p);
    assert forall|id: i64|
        used_ids(more, filter).contains(id) <==> used_ids(records, filter).union(
            ids_of(p, filter),
        ).contains(id) by {
        if used_ids(more, filter).contains(id) {
            let r = choose|r: int| 0 <= r < more.len() && #[trigger] uses(more[r], filter, id);
            if r < records.len() {
                assert(uses(records[r], filter, id));
            }
        }
        if used_ids(records, filter).contains(id) {
            let r = choose|r: int|
                0 <= r < records.len() && #[trigger] uses(records[r], filter, id);
            assert(uses(more[r], filter, id));
        }
        if uses(p, filter, id) {
            assert(uses(more[records.len() as int], filter, id));
        }
    }
    assert(used_ids(more, filter) =~= used_ids(records, filter).union(ids_of(p, filter)));
}

/// The first pass: collects the ids of the nodes that accepted ways use.
#[derive(Debug)]
pub struct UsedIdCollector {
    filter: Filter,
    model: AdjacencyModel,
    used: HashSet<i64>,
}

impl UsedIdCollector {
    /// The filter that decides which ways take part.
    pub closed spec fn filter(&self) -> Filter {
        self.filter
    }

    /// The adjacency model that the graph is built for.
    pub closed spec fn model(&self) -> AdjacencyModel {
        self.model
    }

    /// The ids collected so far.
    pub closed spec fn used(&self) -> Set<i64> {
        self.used@
    }

    /// Starts a load.
    pub fn new(filter: Filter, model: AdjacencyModel) -> (pass: UsedIdCollector)
        ensures
            pass.filter() == filter,
            pass.model() == model,
            pass.used() == Set::<i64>::empty(),
    {
        UsedIdCollector { filter, model, used: HashSet::new() }
    }

    /// The ids collected so far.
    pub fn used_ids(&self) -> (used: &HashSet<i64>)
        ensures
            used@ == self.used(),
    {
        &self.used
    }

    /// Takes one primitive: the ids of the nodes of an accepted way are
    /// added to the used ids.
    pub fn accept(self, p: &Primitive) -> (next: UsedIdCollector)
        ensures
            next.filter() == self.filter(),
            next.model() == self.model(),
            next.used() == self.used().union(ids_of(*p, self.filter())),
    {
        let mut used = self.used;
        match p {
            Primitive::Way(w) => {
                if self.filter.matches(&w.tags) {
                    let mut k: usize = 0;
                    while k < w.nodes.len()
                        invariant
                            k <= w.nodes@.len(),
                            used@ == self.used@.union(w.nodes@.take(k as int).to_set()),
                        decreases w.nodes@.len() - k,
                    {
                        used.insert(w.nodes[k]);
                        proof {
                            assert(w.nodes@.take(k + 1) =~= w.nodes@.take(k as int).push(
                                w.nodes@[k as int],
                            ));
                            w.nodes@.take(k as int).lemma_push_to_set_commute(w.nodes@[k as int]);
                        }
                        k += 1;
                    }
                    proof {
                        assert(w.nodes@.take(w.nodes@.len() as int) =~= w.nodes@);
                    }
                }
            },
            _ => {},
        }
        UsedIdCollector { filter: self.filter, model: self.model, used }
    }

    /// Takes what the source yielded: a primitive is accepted, a failure to
    /// decode ends the load.
    pub fn visit(self, record: &Result<Primitive, Error>) -> (res: Result<
        UsedIdCollector,
        LoadError,
    >)
        ensures
            match res {
                Ok(next) => *record matches Ok(p) && next.filter() == self.filter() && next.model()
                    == self.model() && next.used() == self.used().union(ids_of(p, self.filter())),
                Err(e) => *record is Err && e == LoadError::Decode,
            },
    {
        match record {
            Ok(p) => Ok(self.accept(p)),
            Err(_) => Err(LoadError::Decode),
        }
    }

    /// Ends the first pass with the outcome of rewinding the source. Where
    /// that failed, so does the load.
    pub fn rewound(self, outcome: Result<(), Error>) -> (res: Result<PointStoreBuilder, LoadError>)
        ensures
            match res {
                Ok(next) => outcome is Ok && next.filter() == self.filter() && next.model()
                    == self.model() && next.used() == self.used() && next.nodes() == Map::<
                    i64,
                    NodeView,
                >::empty(),
                Err(e) => outcome is Err && e == LoadError::Rewind,
            },
    {
        match outcome {
            Ok(_) => {
                let mut used = self.used;
                shrink_set(&mut used);
                let next = PointStoreBuilder {
                    filter: self.filter,
                    model: self.model,
                    used,
                    nodes: HashMap::new(),
                };
                Ok(next)
            },
            Err(_) => Err(LoadError::Rewind),
        }
    }
}

/// The second pass: keeps the nodes whose id is used, and drops the others.
#[derive(Debug)]
pub struct PointStoreBuilder {
    filter: Filter,
    model: AdjacencyModel,
    used: HashSet<i64>,
    nodes: HashMap<i64, NodeInfo>,
}

impl PointStoreBuilder {
    #[verifier::type_invariant]
    spec fn inv(self) -> bool {
        forall|id: i64| #[trigger]
            self.nodes@.contains_key(id) ==> self.used@.contains(id)
                && self.nodes@[id].reachable_nodes@.len() == 0
    }

    /// The filter that decides which ways take part.
    pub closed spec fn filter(&self) -> Filter {
        self.filter
    }

    /// The adjacency model that the graph is built for.
    pub closed spec fn model(&self) -> AdjacencyModel {
        self.model
    }

    /// The ids that the first pass collected.
    pub closed spec fn used(&self) -> Set<i64> {
        self.used@
    }

    /// The nodes kept so far.
    pub closed spec fn nodes(&self) -> Map<i64, NodeView> {
        node_views(self.nodes@)
    }

    /// The nodes kept so far.
    pub fn kept(&self) -> (nodes: &HashMap<i64, NodeInfo>)
        ensures
            node_views(nodes@) == self.nodes(),
            self.nodes().dom().subset_of(self.used()),
    {
        proof {
            use_type_invariant(self);
        }
        &self.nodes
    }

    /// Takes one primitive: a node whose id is used is kept.
    pub fn accept(self, p: &Primitive) -> (next: PointStoreBuilder)
        ensures
            next.filter() == self.filter(),
            next.model() == self.model(),
            next.used() == self.used(),
            next.nodes() == store(self.nodes(), *p, self.used()),
            next.nodes().dom().subset_of(next.used()),
    {
        proof {
            use_type_invariant(&self);
        }
        let mut nodes = self.nodes;
        match p {
            Primitive::Node(n) => {
                if self.used.contains(&n.id) {
                    let info = NodeInfo::from(n);
                    nodes.insert(n.id, info);
                }
            },
            _ => {},
        }
        PointStoreBuilder { filter: self.filter, model: self.model, used: self.used, nodes }
    }

    /// Takes what the source yielded: a primitive is accepted, a failure to
    /// decode ends the load.
    pub fn visit(self, record: &Result<Primitive, Error>) -> (res: Result<
        PointStoreBuilder,
        LoadError,
    >)
        ensures
            match res {
                Ok(next) => *record matches Ok(p) && next.filter() == self.filter() && next.model()
                    == self.model() && next.used() == self.used() && next.nodes() == store(
                    self.nodes(),
                    p,
                    self.used(),
                ),
                Err(e) => *record is Err && e == LoadError::Decode,
            },
    {
        match record {
            Ok(p) => Ok(self.accept(p)),
            Err(_) => Err(LoadError::Decode),
        }
    }

    /// Ends the second pass with the outcome of rewinding the source. Where
    /// that failed, so does the load. The used ids are let go.
    pub fn rewound(self, outcome: Result<(), Error>) -> (res: Result<GraphBuilder, LoadError>)
        ensures
            match res {
                Ok(next) => outcome is Ok && next.filter() == self.filter() && next@
                    == unlinked_graph(self.nodes(), self.model()) && next@.nodes.dom().subset_of(
                    self.used(),
                ) && next@.wf() && next@.mutual(),
                Err(e) => outcome is Err && e == LoadError::Rewind,
            },
    {
        proof {
            use_type_invariant(&self);
        }
        match outcome {
            Ok(_) => {
                let ghost g = unlinked_graph(node_views(self.nodes@), self.model);
                proof {
                    assert(way_views(Map::<i64, WayInfo>::empty()) =~= Map::empty());
                    assert(g.nodes.dom() =~= self.nodes@.dom());
                }
                Ok(
                    GraphBuilder {
                        filter: self.filter,
                        model: self.model,
                        nodes: self.nodes,
                        ways: HashMap::new(),
                    },
                )
            },
            Err(_) => Err(LoadError::Rewind),
        }
    }
}

/// The third pass: writes the accepted ways into the adjacency lists of
/// their nodes, and keeps the ways.
#[derive(Debug)]
pub struct GraphBuilder {
    filter: Filter,
    model: AdjacencyModel,
    nodes: HashMap<i64, NodeInfo>,
    ways: HashMap<i64, WayInfo>,
}

impl View for GraphBuilder {
    type V = GraphView;

    closed spec fn view(&self) -> GraphView {
        graph_view(self.nodes@, self.ways@, self.model)
    }
}

impl GraphBuilder {
    #[verifier::type_invariant]
    spec fn inv(self) -> bool {
        self@.wf()
    }

    /// The filter that decides which ways take part.
    pub closed spec fn filter(&self) -> Filter {
        self.filter
    }

    /// Takes one primitive: an accepted way is written into the adjacency
    /// lists and kept. A way that names a node that is not there ends the
    /// load.
    pub fn accept(self, p: &Primitive) -> (res: Result<GraphBuilder, LoadError>)
        ensures
            match res {
                Ok(next) => link(self@, *p, self.filter()) == Ok::<GraphView, LoadError>(next@)
                    && next.filter() == self.filter() && next@.wf(),
                Err(e) => link(self@, *p, self.filter()) == Err::<GraphView, LoadError>(e),
            },
    {
        proof {
            use_type_invariant(&self);
        }
        let ghost g = self@;
        let mut nodes = self.nodes;
        let mut ways = self.ways;
        match p {
            Primitive::Way(w) => {
                if self.filter.matches(&w.tags) {
                    if !all_keys(&w.nodes, &nodes) {
                        proof {
                            if all_known(g.nodes, w.nodes@) {
                                assert forall|k: int|
                                    0 <= k < w.nodes@.len() implies nodes@.contains_key(
                                    #[trigger] w.nodes@[k],
                                ) by {
                                }
                            }
                        }
                        return Err(LoadError::DanglingReference);
                    }
                    let info = WayInfo::from(w);
                    proof {
                        lemma_with_way_wf(g, w.id, info@);
                        assert(way_views(ways@.insert(w.id, info)) =~= g.ways.insert(w.id, info@));
                    }
                    match self.model {
                        AdjacencyModel::EdgeIndexed => {
                            link_edges(&mut nodes, &w.nodes);
                        },
                        AdjacencyModel::WayIndexed => {
                            link_members(&mut nodes, &w.nodes, w.id);
                        },
                    }
                    ways.insert(w.id, info);
                }
            },
            _ => {},
        }
        Ok(GraphBuilder { filter: self.filter, model: self.model, nodes, ways })
    }

    /// Takes what the source yielded: a primitive is accepted, a failure to
    /// decode ends the load.
    pub fn visit(self, record: &Result<Primitive, Error>) -> (res: Result<GraphBuilder, LoadError>)
        ensures
            match res {
                Ok(next) => *record matches Ok(p) && link(self@, p, self.filter()) == Ok::<
                    GraphView,
                    LoadError,
                >(next@) && next.filter() == self.filter() && next@.wf(),
                Err(e) => match *record {
                    Ok(p) => link(self@, p, self.filter()) == Err::<GraphView, LoadError>(e),
                    Err(_) => e == LoadError::Decode,
                },
            },
    {
        match record {
            Ok(p) => self.accept(p),
            Err(_) => Err(LoadError::Decode),
        }
    }

    /// Ends the load and hands over the graph.
    pub fn finish(self) -> (graph: Graph)
        ensures
            graph@ == self@,
            graph@.wf(),
    {
        proof {
            use_type_invariant(&self);
        }
        let mut nodes = self.nodes;
        let mut ways = self.ways;
        shrink_map(&mut nodes);
        shrink_map(&mut ways);
        Graph::assemble(nodes, ways, self.model)
    }
}

/// Loads a graph from primitives that are all at hand: three passes over
/// `records`, as over a source that decodes and rewinds without fail. The
/// graph holds the nodes that accepted ways use. Its adjacency is symmetric,
/// unless in the way-indexed model two accepted ways have the same id.
pub fn load(records: &[Primitive], filter: Filter, model: AdjacencyModel) -> (res: Result<
    Graph,
    LoadError,
>)
    ensures
        match res {
            Ok(graph) => loaded(records@, filter, model) == Ok::<GraphView, LoadError>(graph@)
                && graph@.wf() && graph@.nodes.dom() == used_ids(records@, filter) && (model
                == AdjacencyModel::EdgeIndexed || way_ids_distinct(records@, filter)
                ==> graph@.symmetric() && graph@.two_way() && graph@.no_dead_end()),
            Err(e) => e == LoadError::DanglingReference && loaded(records@, filter, model) == Err::<
                GraphView,
                LoadError,
            >(e),
        },
{
    let n = records.len();
    let mut first = UsedIdCollector::new(filter, model);
    let mut i: usize = 0;
    while i < n
        invariant
            n == records@.len(),
            i <= n,
            first.filter() == filter,
            first.model() == model,
            first.used() == used_ids(records@.take(i as int), filter),
        decreases n - i,
    {
        proof {
            lemma_used_ids_push(records@.take(i as int), records@[i as int], filter);
            assert(records@.take(i as int).push(records@[i as int]) =~= records@.take(i + 1));
        }
        first = first.accept(&records[i]);
        i += 1;
    }
    proof {
        assert(records@.take(n as int) =~= records@);
    }
    let ghost used = used_ids(records@, filter);
    let mut second = match first.rewound(Ok(())) {
        Ok(next) => next,
        Err(e) => {
            return Err(e);
        },
    };
    i = 0;
    while i < n
        invariant
            n == records@.len(),
            i <= n,
            second.filter() == filter,
            second.model() == model,
            second.used() == used,
            second.nodes() == stored(records@.take(i as int), used),
        decreases n - i,
    {
        proof {
            assert(records@.take(i + 1).drop_last() =~= records@.take(i as int));
        }
        second = second.accept(&records[i]);
        i += 1;
    }
    let ghost start = unlinked_graph(stored(records@, used), model);
    let mut third = match second.rewound(Ok(())) {
        Ok(next) => next,
        Err(e) => {
            return Err(e);
        },
    };
    i = 0;
    while i < n
        invariant
            n == records@.len(),
            i <= n,
            third.filter() == filter,
            third@.wf(),
            start == unlinked_graph(stored(records@, used_ids(records@, filter)), model),
            built(start, records@.take(i as int), filter) == Ok::<GraphView, LoadError>(third@),
        decreases n - i,
    {
        proof {
            assert(records@.take(i + 1).drop_last() =~= records@.take(i as int));
        }
        third = match third.accept(&records[i]) {
            Ok(next) => next,
            Err(e) => {
                proof {
                    assert(built(start, records@.take(i + 1), filter) == Err::<
                        GraphView,
                        LoadError,
                    >(e));
                    lemma_built_fails(start, records@, filter, i + 1);
                }
                return Err(e);
            },
        };
        i += 1;
    }
    proof {
        law_nodes_are_the_used(records@, filter, model);
        if model == AdjacencyModel::EdgeIndexed || way_ids_distinct(records@, filter) {
            law_loaded_symmetric(records@, filter, model);
            lemma_symmetric(third@);
        }
    }
    Ok(third.finish())
}

/// A failure among the first `k` primitives is the failure of them all.
pub proof fn lemma_built_fails(g: GraphView, records: Seq<Primitive>, filter: Filter, k: int)
    requires
        0 <= k <= records.len(),
        built(g, records.take(k), filter) is Err,
    ensures
        built(g, records, filter) == built(g, records.take(k), filter),
    decreases records.len() - k,
{
    if k == records.len() {
        assert(records.take(k) =~= records);
    } else {
        assert(records.drop_last().take(k) =~= records.take(k));
        lemma_built_fails(g, records.drop_last(), filter, k);
    }
}

} // verus!
