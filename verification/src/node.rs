use vstd::prelude::*;
use crate::property::PropertyMap;

verus! {

/// A node of the graph.
#[derive(Debug)]
pub struct Node {
    pub id: String,
    pub labels: Vec<usize>,
    pub edges: Vec<usize>,
    pub properties: PropertyMap,
    pub deleted: bool,
    pub created_by: u64,
    pub deleted_by: Option<u64>,
}

impl Node {
    /// A live node created by transaction `created_by`.
    pub fn new(
        id: String,
        labels: Vec<usize>,
        edges: Vec<usize>,
        properties: PropertyMap,
        created_by: u64,
    ) -> (r: Self)
        ensures
            r.id@ == id@,
            r.labels@ == labels@,
            r.edges@ == edges@,
            r.properties@ == properties@,
            r.properties.ordered() == properties.ordered(),
            r.properties.wf() == properties.wf(),
            !r.deleted,
            r.created_by == created_by,
            r.deleted_by is None,
    {
        Node { id, labels, edges, properties, deleted: false, created_by, deleted_by: None }
    }
}

/// The mathematical form of a node.
pub struct NodeV {
    pub id: Seq<char>,
    pub labels: Seq<usize>,
    pub edges: Seq<usize>,
    pub properties: Map<Seq<char>, crate::property::PropV>,
    pub deleted: bool,
    pub created_by: u64,
    pub deleted_by: Option<u64>,
}

impl View for Node {
    type V = NodeV;

    open spec fn view(&self) -> NodeV {
        NodeV {
            id: self.id@,
            labels: self.labels@,
            edges: self.edges@,
            properties: self.properties@,
            deleted: self.deleted,
            created_by: self.created_by,
            deleted_by: self.deleted_by,
        }
    }
}

impl Node {
    /// A copy of the node.
    pub fn copy(&self) -> (r: Node)
        requires
            self.properties.wf(),
        ensures
            r@ == self@,
            r.properties.wf(),
    {
        Node {
            id: crate::text::copy_string(&self.id),
            labels: crate::graph::copy_ids(&self.labels),
            edges: crate::graph::copy_ids(&self.edges),
            properties: self.properties.copy(),
            deleted: self.deleted,
            created_by: self.created_by,
            deleted_by: self.deleted_by,
        }
    }
}

} // verus!
