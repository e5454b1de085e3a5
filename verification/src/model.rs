//! The primitives that a source yields, the records that the graph keeps of
//! them, and the mathematical view of each.

use crate::tags::tags_map;
use osmpbfreader::Tags;
use vstd::prelude::*;

verus! {

/// How a node's adjacency list is to be read.
#[derive(Debug, Clone, Copy, PartialEq, Eq, Structural)]
pub enum AdjacencyModel {
    /// The list holds the ids of the ways through the node. Every node of
    /// such a way counts as a neighbor.
    WayIndexed,
    /// The list holds the ids of the neighboring nodes themselves.
    EdgeIndexed,
}

/// A node as the source yields it.
#[derive(Debug, Clone, PartialEq, Eq)]
pub struct Node {
    /// The id of the node.
    pub id: i64,
    /// The tags of the node.
    pub tags: Tags,
    /// The latitude in decimicro degrees (10⁻⁷ degrees).
    pub decimicro_lat: i32,
    /// The longitude in decimicro degrees (10⁻⁷ degrees).
    pub decimicro_lon: i32,
}

/// A way as the source yields it.
#[derive(Debug, Clone, PartialEq, Eq)]
pub struct Way {
    /// The id of the way.
    pub id: i64,
    /// The tags of the way.
    pub tags: Tags,
    /// The ordered list of nodes as id.
    pub nodes: Vec<i64>,
}

/// One object of the source.
#[derive(Debug, Clone, PartialEq, Eq)]
pub enum Primitive {
    /// A node.
    Node(Node),
    /// A way.
    Way(Way),
    /// Anything else; the graph takes nothing from it.
    Other,
}

/// What a [`NodeInfo`] stands for.
pub ghost struct NodeView {
    /// The tags, key by key.
    pub tags: Map<Seq<char>, Seq<char>>,
    /// The latitude in decimicro degrees.
    pub lat: i32,
    /// The longitude in decimicro degrees.
    pub lon: i32,
    /// The adjacency list.
    pub links: Seq<i64>,
}

/// What a [`WayInfo`] stands for.
pub ghost struct WayView {
    /// The tags, key by key.
    pub tags: Map<Seq<char>, Seq<char>>,
    /// The ids of the nodes, in the order of the way.
    pub nodes: Seq<i64>,
}

/// A node of the graph.
#[derive(Debug, PartialEq, Eq, PartialOrd, Ord, Clone, Hash)]
pub struct NodeInfo {
    /// The tags of the node.
    pub tags: Tags,
    /// The latitude in decimicro degrees (10⁻⁷ degrees).
    pub decimicro_lat: i32,
    /// The longitude in decimicro degrees (10⁻⁷ degrees).
    pub decimicro_lon: i32,
    /// The adjacency list: ids of nodes in the edge-indexed model, ids of
    /// ways in the way-indexed model.
    pub reachable_nodes: Vec<i64>,
}

impl View for NodeInfo {
    type V = NodeView;

    open spec fn view(&self) -> NodeView {
        NodeView {
            tags: tags_map(self.tags),
            lat: self.decimicro_lat,
            lon: self.decimicro_lon,
            links: self.reachable_nodes@,
        }
    }
}

impl NodeInfo {
    /// The record of `n` before any way has been linked to it.
    pub open spec fn unlinked(n: Node) -> NodeView {
        NodeView {
            tags: tags_map(n.tags),
            lat: n.decimicro_lat,
            lon: n.decimicro_lon,
            links: Seq::empty(),
        }
    }

    /// Copies tags and coordinates of a node; the adjacency list starts empty.
    pub fn from(n: &Node) -> (info: NodeInfo)
        ensures
            info@ == Self::unlinked(*n),
    {
        NodeInfo {
            tags: n.tags.clone(),
            decimicro_lat: n.decimicro_lat,
            decimicro_lon: n.decimicro_lon,
            reachable_nodes: Vec::new(),
        }
    }
}

/// A way of the graph.
#[derive(Debug, PartialEq, Eq, PartialOrd, Ord, Clone, Hash)]
pub struct WayInfo {
    /// The tags of the way.
    pub tags: Tags,
    /// The ordered list of nodes as id.
    pub nodes: Vec<i64>,
}

impl View for WayInfo {
    type V = WayView;

    open spec fn view(&self) -> WayView {
        WayView { tags: tags_map(self.tags), nodes: self.nodes@ }
    }
}

impl WayInfo {
    /// The record of `w`.
    pub open spec fn record(w: Way) -> WayView {
        WayView { tags: tags_map(w.tags), nodes: w.nodes@ }
    }

    /// Copies tags and node list of a way.
    pub fn from(w: &Way) -> (info: WayInfo)
        ensures
            info@ == Self::record(*w),
    {
        WayInfo { tags: w.tags.clone(), nodes: w.nodes.clone() }
    }
}

} // verus!
