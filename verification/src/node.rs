//! Nodes, edges and search results.
use vstd::prelude::*;

use crate::json::{Json, JsonView};

verus! {

/// Identifier of a node: the one key of its vector, its payload and its edges.
pub type NodeId = u64;

/// An outgoing edge. The weight is a single precision bit pattern, the metadata an encoded
/// JSON value.
#[derive(Debug)]
pub struct Edge {
    pub target_id: NodeId,
    pub label: String,
    pub weight: u32,
    pub metadata: String,
}

/// An edge seen from its target.
#[derive(Debug)]
pub struct IncomingEdge {
    pub source_id: NodeId,
    pub label: String,
    pub weight: u32,
    pub metadata: String,
}

/// What an edge holds, besides the node at its other end, as mathematical values.
pub struct EdgeView {
    pub target: NodeId,
    pub label: Seq<char>,
    pub weight: u32,
    pub metadata: Seq<char>,
}

/// An incoming edge as mathematical values.
pub struct IncomingView {
    pub source: NodeId,
    pub label: Seq<char>,
    pub weight: u32,
    pub metadata: Seq<char>,
}

impl View for Edge {
    type V = EdgeView;

    open spec fn view(&self) -> EdgeView {
        EdgeView {
            target: self.target_id,
            label: self.label@,
            weight: self.weight,
            metadata: self.metadata@,
        }
    }
}

impl View for IncomingEdge {
    type V = IncomingView;

    open spec fn view(&self) -> IncomingView {
        IncomingView {
            source: self.source_id,
            label: self.label@,
            weight: self.weight,
            metadata: self.metadata@,
        }
    }
}

/// The views of a sequence of edges.
pub open spec fn edge_views(edges: Seq<Edge>) -> Seq<EdgeView> {
    edges.map_values(|edge: Edge| edge@)
}

impl Edge {
    /// An edge with the same contents.
    pub fn duplicate(&self) -> (result: Edge)
        ensures
            result == *self,
    {
        Edge {
            target_id: self.target_id,
            label: self.label.clone(),
            weight: self.weight,
            metadata: self.metadata.clone(),
        }
    }
}

/// Edges with the same contents, in the same order.
pub fn duplicate_edges(edges: &Vec<Edge>) -> (result: Vec<Edge>)
    ensures
        result@ == edges@,
{
    let mut result: Vec<Edge> = Vec::new();
    let mut i: usize = 0;
    while i < edges.len()
        invariant
            i <= edges@.len(),
            result@ == edges@.subrange(0, i as int),
        decreases edges@.len() - i,
    {
        result.push(edges[i].duplicate());
        proof {
            assert(edges@.subrange(0, i + 1) =~= edges@.subrange(0, i as int).push(
                edges@[i as int],
            ));
        }
        i += 1;
    }
    assert(edges@.subrange(0, i as int) =~= edges@);
    result
}

/// The payload of a node: a JSON value together with its encoding.
#[derive(Debug)]
pub struct Payload {
    pub text: String,
    pub value: Json,
}

/// A payload as mathematical values.
pub struct PayloadView {
    pub text: Seq<char>,
    pub value: JsonView,
}

impl View for Payload {
    type V = PayloadView;

    open spec fn view(&self) -> PayloadView {
        PayloadView { text: self.text@, value: self.value@ }
    }
}

impl Payload {
    /// The payload `null` as mathematical values.
    pub open spec fn spec_null() -> PayloadView {
        PayloadView { text: "null"@, value: JsonView::Null }
    }

    /// The payload `null`.
    pub fn null() -> (result: Payload)
        ensures
            result@ == Payload::spec_null(),
    {
        Payload { text: "null".to_owned(), value: Json::Null }
    }

    /// A payload with the same contents.
    pub fn duplicate(&self) -> (result: Payload)
        ensures
            result@ == self@,
    {
        Payload { text: self.text.clone(), value: self.value.duplicate() }
    }
}

/// A node that a search returned. The score is a single precision bit pattern.
#[derive(Debug)]
pub struct SearchHit {
    pub id: NodeId,
    pub score: u32,
    pub payload: Payload,
}

/// Everything stored under one identifier.
#[derive(Debug)]
pub struct NodeView<T> {
    pub id: NodeId,
    pub vector: Vec<T>,
    pub payload: Payload,
    pub edges: Vec<Edge>,
}

} // verus!
