use vstd::prelude::*;
use crate::property::PropertyMap;

verus! {

/// A directed edge of the graph, from `start` to `end`.
#[derive(Debug)]
pub struct Edge {
    pub id: String,
    pub labels: Vec<usize>,
    pub start: usize,
    pub end: usize,
    pub properties: PropertyMap,
    pub deleted: bool,
    pub created_by: u64,
    pub deleted_by: Option<u64>,
}

impl Edge {
    /// A live edge created by transaction `created_by`.
    pub fn new(
        id: String,
        labels: Vec<usize>,
        start: usize,
        end: usize,
        properties: PropertyMap,
        created_by: u64,
    ) -> (r: Self)
        ensures
            r.id@ == id@,
            r.labels@ == labels@,
            r.start == start,
            r.end == end,
            r.properties@ == properties@,
            r.properties.ordered() == properties.ordered(),
            r.properties.wf() == properties.wf(),
            !r.deleted,
            r.created_by == created_by,
            r.deleted_by is None,
    {
        Edge { id, labels, start, end, properties, deleted: false, created_by, deleted_by: None }
    }
}

/// The mathematical form of an edge.
pub struct EdgeV {
    pub id: Seq<char>,
    pub labels: Seq<usize>,
    pub start: usize,
    pub end: usize,
    pub properties: Map<Seq<char>, crate::property::PropV>,
    pub deleted: bool,
    pub created_by: u64,
    pub deleted_by: Option<u64>,
}

impl View for Edge {
    type V = EdgeV;

    open spec fn view(&self) -> EdgeV {
        EdgeV {
            id: self.id@,
            labels: self.labels@,
            start: self.start,
            end: self.end,
            properties: self.properties@,
            deleted: self.deleted,
            created_by: self.created_by,
            deleted_by: self.deleted_by,
        }
    }
}

impl Edge {
    /// A copy of the edge.
    pub fn copy(&self) -> (r: Edge)
        requires
            self.properties.wf(),
        ensures
            r@ == self@,
            r.properties.wf(),
    {
        Edge {
            id: crate::text::copy_string(&self.id),
            labels: crate::graph::copy_ids(&self.labels),
            start: self.start,
            end: self.end,
            properties: self.properties.copy(),
            deleted: self.deleted,
            created_by: self.created_by,
            deleted_by: self.deleted_by,
        }
    }
}

} // verus!
