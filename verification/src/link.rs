//! The graph projections handed to a visualisation: nodes, edges and the
//! mathematical values they stand for.

use vstd::prelude::*;

verus! {

/// A directed link between two notes.
#[derive(Debug, Clone)]
pub struct NoteLink {
    pub source: String,
    pub target: String,
}

/// A node of the link graph.
#[derive(Debug, Clone)]
pub struct GraphNode {
    pub id: String,
    pub label: String,
    pub path: String,
    /// Number of links pointing to this note.
    pub backlink_count: usize,
}

/// An edge of the link graph, from the name of a note to a link target.
#[derive(Debug, Clone)]
pub struct GraphEdge {
    pub source: String,
    pub target: String,
}

/// Nodes and edges of a graph or of a neighbourhood in it.
#[derive(Debug, Clone)]
pub struct GraphData {
    pub nodes: Vec<GraphNode>,
    pub edges: Vec<GraphEdge>,
}

/// What a `GraphNode` stands for.
pub struct NodeView {
    pub id: Seq<char>,
    pub label: Seq<char>,
    pub path: Seq<char>,
    pub backlink_count: nat,
}

/// What a `GraphData` stands for.
pub struct GraphView {
    pub nodes: Seq<NodeView>,
    pub edges: Seq<(Seq<char>, Seq<char>)>,
}

impl View for NoteLink {
    type V = (Seq<char>, Seq<char>);

    open spec fn view(&self) -> Self::V {
        (self.source@, self.target@)
    }
}

impl View for GraphNode {
    type V = NodeView;

    open spec fn view(&self) -> Self::V {
        NodeView {
            id: self.id@,
            label: self.label@,
            path: self.path@,
            backlink_count: self.backlink_count as nat,
        }
    }
}

impl View for GraphEdge {
    type V = (Seq<char>, Seq<char>);

    open spec fn view(&self) -> Self::V {
        (self.source@, self.target@)
    }
}

/// The views of a sequence of nodes.
pub open spec fn node_views(nodes: Seq<GraphNode>) -> Seq<NodeView> {
    Seq::new(nodes.len(), |i: int| nodes[i]@)
}

/// The views of a sequence of edges.
pub open spec fn edge_views(edges: Seq<GraphEdge>) -> Seq<(Seq<char>, Seq<char>)> {
    Seq::new(edges.len(), |i: int| edges[i]@)
}

impl View for GraphData {
    type V = GraphView;

    open spec fn view(&self) -> Self::V {
        GraphView { nodes: node_views(self.nodes@), edges: edge_views(self.edges@) }
    }
}

} // verus!
