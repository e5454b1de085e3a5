//! The loaded graph: nodes and ways by id, read-only once built.

use crate::error::LoadError;
use crate::model::AdjacencyModel;
use crate::model::NodeInfo;
use crate::model::NodeView;
use crate::model::WayInfo;
use crate::model::WayView;
use crate::network::GraphView;
use std::collections::HashMap;
use vstd::prelude::*;
use vstd::std_specs::hash::spec_keys_iter;
use vstd::std_specs::iter::IteratorSpec;

verus! {

/// What a map of nodes stands for.
pub open spec fn node_views(nodes: Map<i64, NodeInfo>) -> Map<i64, NodeView> {
    nodes.map_values(|n: NodeInfo| n@)
}

/// What a map of ways stands for.
pub open spec fn way_views(ways: Map<i64, WayInfo>) -> Map<i64, WayView> {
    ways.map_values(|w: WayInfo| w@)
}

/// The mathematical graph that two maps and a model stand for.
pub open spec fn graph_view(
    nodes: Map<i64, NodeInfo>,
    ways: Map<i64, WayInfo>,
    model: AdjacencyModel,
) -> GraphView {
    GraphView { nodes: node_views(nodes), ways: way_views(ways), model }
}

/// Nodes and ways by id. Every id in a way or in an adjacency list names
/// something the graph holds.
#[derive(Debug)]
pub struct Graph {
    nodes: HashMap<i64, NodeInfo>,
    ways: HashMap<i64, WayInfo>,
    model: AdjacencyModel,
}

impl View for Graph {
    type V = GraphView;

    closed spec fn view(&self) -> GraphView {
        graph_view(self.nodes@, self.ways@, self.model)
    }
}

impl Clone for Graph {
    fn clone(&self) -> (copy: Graph)
        ensures
            copy@ == self@,
    {
        proof {
            use_type_invariant(self);
        }
        Graph { nodes: self.nodes.clone(), ways: self.ways.clone(), model: self.model }
    }
}

/// Whether every id in `ids` is a key of `m`.
pub(crate) fn all_keys<V>(ids: &Vec<i64>, m: &HashMap<i64, V>) -> (ok: bool)
    ensures
        ok == (forall|k: int| 0 <= k < ids@.len() ==> m@.contains_key(#[trigger] ids@[k])),
{
    let mut k: usize = 0;
    while k < ids.len()
        invariant
            k <= ids@.len(),
            forall|j: int| 0 <= j < k ==> m@.contains_key(#[trigger] ids@[j]),
        decreases ids@.len() - k,
    {
        if !m.contains_key(&ids[k]) {
            return false;
        }
        k += 1;
    }
    true
}

impl Graph {
    #[verifier::type_invariant]
    spec fn inv(self) -> bool {
        self@.wf()
    }

    /// Takes the maps as the graph, where it is known that no reference
    /// dangles.
    pub(crate) fn assemble(
        nodes: HashMap<i64, NodeInfo>,
        ways: HashMap<i64, WayInfo>,
        model: AdjacencyModel,
    ) -> (graph: Graph)
        requires
            graph_view(nodes@, ways@, model).wf(),
        ensures
            graph@ == graph_view(nodes@, ways@, model),
    {
        Graph { nodes, ways, model }
    }

    /// Takes the maps as the graph, after checking that no reference dangles.
    pub fn new(
        nodes: HashMap<i64, NodeInfo>,
        ways: HashMap<i64, WayInfo>,
        model: AdjacencyModel,
    ) -> (res: Result<Graph, LoadError>)
        ensures
            match res {
                Ok(g) => g@ == graph_view(nodes@, ways@, model) && g@.wf(),
                Err(e) => e == LoadError::DanglingReference && !graph_view(
                    nodes@,
                    ways@,
                    model,
                ).wf(),
            },
    {
        let ghost g = graph_view(nodes@, ways@, model);
        for w in it: ways.keys()
            invariant
                it.seq() == spec_keys_iter(&ways).remaining(),
                g == graph_view(nodes@, ways@, model),
                forall|i: int, k: int|
                    #![trigger g.ways[*it.seq()[i]].nodes[k]]
                    0 <= i < it.index() && 0 <= k < g.ways[*it.seq()[i]].nodes.len()
                        ==> g.nodes.contains_key(g.ways[*it.seq()[i]].nodes[k]),
        {
            proof {
                assert(it.seq().unref().to_set().contains(*w));
            }
            match ways.get(w) {
                Some(info) => {
                    if !all_keys(&info.nodes, &nodes) {
                        proof {
                            let k = choose|k: int|
                                0 <= k < info.nodes@.len() && !nodes@.contains_key(
                                    #[trigger] info.nodes@[k],
                                );
                            assert(!g.nodes.contains_key(g.ways[*w].nodes[k]));
                        }
                        return Err(LoadError::DanglingReference);
                    }
                },
                None => {},
            }
        }
        proof {
            assert forall|w: i64, k: int|
                #![trigger g.ways[w].nodes[k]]
                g.ways.contains_key(w) && 0 <= k < g.ways[w].nodes.len()
                    implies g.nodes.contains_key(g.ways[w].nodes[k]) by {
                let keys = spec_keys_iter(&ways).remaining();
                let i = choose|i: int| 0 <= i < keys.len() && *keys[i] == w;
                assert(keys.unref()[i] == w);
            }
        }
        for a in it: nodes.keys()
            invariant
                it.seq() == spec_keys_iter(&nodes).remaining(),
                g == graph_view(nodes@, ways@, model),
                g.ways_resolved(),
                forall|i: int, j: int|
                    #![trigger g.nodes[*it.seq()[i]].links[j]]
                    0 <= i < it.index() && 0 <= j < g.nodes[*it.seq()[i]].links.len()
                        ==> g.link_known(g.nodes[*it.seq()[i]].links[j]),
        {
            proof {
                assert(it.seq().unref().to_set().contains(*a));
            }
            match nodes.get(a) {
                Some(info) => {
                    let known = match model {
                        AdjacencyModel::EdgeIndexed => all_keys(&info.reachable_nodes, &nodes),
                        AdjacencyModel::WayIndexed => all_keys(&info.reachable_nodes, &ways),
                    };
                    if !known {
                        proof {
                            let j = choose|j: int|
                                0 <= j < g.nodes[*a].links.len() && !g.link_known(
                                    #[trigger] g.nodes[*a].links[j],
                                );
                            assert(!g.link_known(g.nodes[*a].links[j]));
                        }
                        return Err(LoadError::DanglingReference);
                    }
                },
                None => {},
            }
        }
        proof {
            assert forall|a: i64, j: int|
                #![trigger g.nodes[a].links[j]]
                g.nodes.contains_key(a) && 0 <= j < g.nodes[a].links.len() implies g.link_known(
                g.nodes[a].links[j],
            ) by {
                let keys = spec_keys_iter(&nodes).remaining();
                let i = choose|i: int| 0 <= i < keys.len() && *keys[i] == a;
                assert(keys.unref()[i] == a);
            }
            assert(g.nodes.dom() =~= nodes@.dom());
            assert(g.ways.dom() =~= ways@.dom());
        }
        Ok(Graph { nodes, ways, model })
    }

    /// The adjacency model that the graph was built for.
    pub fn model(&self) -> (model: AdjacencyModel)
        ensures
            model == self@.model,
            self@.wf(),
    {
        proof {
            use_type_invariant(self);
        }
        self.model
    }

    /// The nodes by id.
    pub fn nodes(&self) -> (nodes: &HashMap<i64, NodeInfo>)
        ensures
            node_views(nodes@) == self@.nodes,
            self@.wf(),
    {
        proof {
            use_type_invariant(self);
        }
        &self.nodes
    }

    /// The ways by id.
    pub fn ways(&self) -> (ways: &HashMap<i64, WayInfo>)
        ensures
            way_views(ways@) == self@.ways,
            self@.wf(),
    {
        proof {
            use_type_invariant(self);
        }
        &self.ways
    }

    /// The node with the given id, if the graph holds one.
    pub fn node(&self, id: i64) -> (found: Option<&NodeInfo>)
        ensures
            match found {
                Some(info) => self@.nodes.contains_key(id) && info@ == self@.nodes[id],
                None => !self@.nodes.contains_key(id),
            },
    {
        self.nodes.get(&id)
    }

    /// The way with the given id, if the graph holds one.
    pub fn way(&self, id: i64) -> (found: Option<&WayInfo>)
        ensures
            match found {
                Some(info) => self@.ways.contains_key(id) && info@ == self@.ways[id],
                None => !self@.ways.contains_key(id),
            },
    {
        self.ways.get(&id)
    }
}

} // verus!
