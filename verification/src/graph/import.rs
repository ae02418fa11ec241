use vstd::prelude::*;
use crate::edge::{Edge, EdgeV};
use crate::graph::model::{wal_replay, GraphV};
use crate::graph::types::{IndexType, WalEntryV};
use crate::graph::{lemma_logged_redoes, lemma_logged_since_push, lemma_logged_since_refl, lemma_redoes_refl,
    lemma_redoes_trans, logged_since, redoes, Graph};
use crate::node::{Node, NodeV};
use crate::property::{PropV, PropertyMap};
use crate::string_pool::{intern, StringPool};

verus! {

// ---------------------------------------------------------------------------------------------
// Records placed by their ids.

/// Some record has id `i`.
pub open spec fn has_slot<T>(recs: Seq<(usize, T)>, i: int) -> bool {
    exists|j: int| 0 <= j < recs.len() && #[trigger] recs[j].0 == i
}

/// The record with id `i` (meaningful when there is one).
pub open spec fn slot_record<T>(recs: Seq<(usize, T)>, i: int) -> T {
    recs[choose|j: int| 0 <= j < recs.len() && #[trigger] recs[j].0 == i].1
}

/// No two records have the same id.
pub open spec fn ids_unique<T>(recs: Seq<(usize, T)>) -> bool {
    forall|j: int, k: int| 0 <= j < recs.len() && 0 <= k < recs.len() && j != k ==> #[trigger] recs[j].0 != #[trigger] recs[k].0
}

/// One more than the largest id, or zero when there are no records: the number of places the
/// records are laid out in.
pub open spec fn slot_count<T>(recs: Seq<(usize, T)>) -> nat
    decreases recs.len(),
{
    if recs.len() == 0 {
        0
    } else {
        let m = slot_count(recs.drop_last());
        if recs.last().0 + 1 > m { (recs.last().0 + 1) as nat } else { m }
    }
}

/// Every record's id is below the number of places.
proof fn lemma_slot_count<T>(recs: Seq<(usize, T)>)
    ensures
        forall|j: int| 0 <= j < recs.len() ==> #[trigger] recs[j].0 < slot_count(recs),
    decreases recs.len(),
{
    if recs.len() > 0 {
        lemma_slot_count(recs.drop_last());
        assert forall|j: int| 0 <= j < recs.len() implies #[trigger] recs[j].0 < slot_count(recs) by {
            if j < recs.len() - 1 {
                assert(recs.drop_last()[j] == recs[j]);
            }
        }
    }
}

/// With unique ids, the record at `j` is the record with its id.
proof fn lemma_slot_record<T>(recs: Seq<(usize, T)>, j: int)
    requires
        ids_unique(recs),
        0 <= j < recs.len(),
    ensures
        has_slot(recs, recs[j].0 as int),
        slot_record(recs, recs[j].0 as int) == recs[j].1,
{
    let i = recs[j].0 as int;
    assert(recs[j].0 == i);
    let k = choose|k: int| 0 <= k < recs.len() && #[trigger] recs[k].0 == i;
    assert(recs[k].0 == recs[j].0);
}

/// Records with unique ids: a prefix extended by one record places the same records as the
/// prefix, and the new one at its id.
proof fn lemma_slot_extend<T>(recs: Seq<(usize, T)>, j: int, i: int)
    requires
        ids_unique(recs.take(j + 1)),
        0 <= j < recs.len(),
    ensures
        has_slot(recs.take(j + 1), i) <==> (has_slot(recs.take(j), i) || recs[j].0 == i),
        has_slot(recs.take(j), i) ==> slot_record(recs.take(j + 1), i) == slot_record(recs.take(j), i),
        recs[j].0 == i ==> slot_record(recs.take(j + 1), i) == recs[j].1,
{
    let a = recs.take(j);
    let b = recs.take(j + 1);
    if has_slot(a, i) {
        let k = choose|k: int| 0 <= k < a.len() && #[trigger] a[k].0 == i;
        assert(b[k].0 == i);
        let kb = choose|k: int| 0 <= k < b.len() && #[trigger] b[k].0 == i;
        assert(b[kb].0 == b[k].0);
        assert(kb == k);
    }
    if has_slot(b, i) {
        let k = choose|k: int| 0 <= k < b.len() && #[trigger] b[k].0 == i;
        if k < j {
            assert(a[k].0 == i);
        }
    }
    if recs[j].0 == i {
        assert(b[j].0 == i);
        lemma_slot_record(b, j);
    }
}

/// The records' items laid out by id, with `filler` in the places no record has.
pub open spec fn placed<T>(recs: Seq<(usize, T)>, filler: T) -> Seq<T> {
    Seq::new(slot_count(recs), |i: int| if has_slot(recs, i) { slot_record(recs, i) } else { filler })
}

/// The mathematical form of node records.
pub open spec fn node_records(recs: Seq<(usize, Node)>) -> Seq<(usize, NodeV)> {
    recs.map_values(|r: (usize, Node)| (r.0, r.1@))
}

/// The mathematical form of edge records.
pub open spec fn edge_records(recs: Seq<(usize, Edge)>) -> Seq<(usize, EdgeV)> {
    recs.map_values(|r: (usize, Edge)| (r.0, r.1@))
}

/// The mathematical form of label records.
pub open spec fn label_records(recs: Seq<(usize, String)>) -> Seq<(usize, Seq<char>)> {
    recs.map_values(|r: (usize, String)| (r.0, r.1@))
}

/// What fills a place no node record has: a deleted node with nothing in it, whose transaction
/// ids are the largest `u64`.
pub open spec fn filler_node() -> NodeV {
    NodeV {
        id: Seq::empty(),
        labels: Seq::empty(),
        edges: Seq::empty(),
        properties: Map::empty(),
        deleted: true,
        created_by: u64::MAX,
        deleted_by: Some(u64::MAX),
    }
}

/// What fills a place no edge record has: a deleted edge from and to node 0 with nothing in it,
/// whose transaction ids are the largest `u64`.
pub open spec fn filler_edge() -> EdgeV {
    EdgeV {
        id: Seq::empty(),
        labels: Seq::empty(),
        start: 0,
        end: 0,
        properties: Map::empty(),
        deleted: true,
        created_by: u64::MAX,
        deleted_by: Some(u64::MAX),
    }
}

// ---------------------------------------------------------------------------------------------
// What an import accepts.

/// Label records name the ids `0 .. n` (for `n` records) each once, with distinct names.
pub open spec fn labels_ok(recs: Seq<(usize, Seq<char>)>) -> bool {
    &&& forall|j: int| 0 <= j < recs.len() ==> #[trigger] recs[j].0 < recs.len()
    &&& ids_unique(recs)
    &&& placed(recs, Seq::empty()).no_duplicates()
}

/// Record ids are unique and below the largest `usize`.
pub open spec fn record_ids_ok<T>(recs: Seq<(usize, T)>) -> bool {
    &&& ids_unique(recs)
    &&& forall|j: int| 0 <= j < recs.len() ==> #[trigger] recs[j].0 < usize::MAX
}

/// Edges start and end at nodes that exist, nodes list only edges that exist, and no node has a
/// label twice.
pub open spec fn structure_ok(nodes: Seq<NodeV>, edges: Seq<EdgeV>) -> bool {
    &&& forall|e: int| 0 <= e < edges.len() ==> #[trigger] edges[e].start < nodes.len() && edges[e].end < nodes.len()
    &&& forall|n: int, j: int| 0 <= n < nodes.len() && 0 <= j < nodes[n].edges.len() ==> #[trigger] nodes[n].edges[j] < edges.len()
    &&& forall|n: int| 0 <= n < nodes.len() ==> (#[trigger] nodes[n]).labels.no_duplicates()
}

/// The entries that create the indices, in order.
pub open spec fn index_entries(defs: Seq<(usize, String, IndexType)>) -> Seq<WalEntryV> {
    defs.map_values(|d: (usize, String, IndexType)| WalEntryV::CreateIndex { label: d.0, property: d.1@, index_type: d.2 })
}

/// The graph of the records before any index is built.
pub open spec fn imported_base(labels: Seq<(usize, String)>, nodes: Seq<(usize, Node)>, edges: Seq<(usize, Edge)>) -> GraphV {
    GraphV {
        nodes: placed(node_records(nodes), filler_node()),
        edges: placed(edge_records(edges), filler_edge()),
        labels: placed(label_records(labels), Seq::empty()),
        indices: Seq::empty(),
        tx: None,
        next_txid: 1,
    }
}

/// Why a set of records is not a graph.
#[derive(Debug, Clone, Copy, PartialEq, Eq)]
pub enum ImportError {
    /// The label ids are not `0 .. n` each once, or two labels have one name.
    Labels,
    /// A property map is not in normal form.
    Properties,
    /// Two node records, or two edge records, have one id, or an id is the largest `usize`.
    RecordIds,
    /// An edge names a node that does not exist, a node an edge that does not exist, or a node
    /// has a label twice.
    Dangling,
}

// ---------------------------------------------------------------------------------------------
// Laying records out.

/// The number of places the records need, or `None` when an id is the largest `usize`.
fn slot_count_exec<T>(recs: &Vec<(usize, T)>) -> (r: Option<usize>)
    ensures
        match r {
            Some(n) => n == slot_count(recs@) && forall|j: int| 0 <= j < recs@.len() ==> #[trigger] recs@[j].0 < usize::MAX,
            None => exists|j: int| 0 <= j < recs@.len() && #[trigger] recs@[j].0 == usize::MAX,
        },
{
    let mut m: usize = 0;
    let mut j: usize = 0;
    proof { assert(recs@.take(0) =~= Seq::<(usize, T)>::empty()); }
    while j < recs.len()
        invariant
            j <= recs@.len(),
            m == slot_count(recs@.take(j as int)),
            forall|k: int| 0 <= k < j ==> #[trigger] recs@[k].0 < usize::MAX,
        decreases recs@.len() - j,
    {
        let id = recs[j].0;
        if id == usize::MAX {
            assert(recs@[j as int].0 == usize::MAX);
            return None;
        }
        assert(recs@.take(j as int + 1).drop_last() =~= recs@.take(j as int));
        if id + 1 > m {
            m = id + 1;
        }
        j = j + 1;
    }
    assert(recs@.take(recs@.len() as int) =~= recs@);
    Some(m)
}

/// The node records laid out by id (see `placed`), or `None` when two have one id.
fn place_nodes(recs: &Vec<(usize, Node)>, size: usize) -> (r: Option<Vec<Node>>)
    requires
        size == slot_count(node_records(recs@)),
        forall|j: int| 0 <= j < recs@.len() ==> (#[trigger] recs@[j]).1.properties.wf(),
    ensures
        match r {
            Some(v) => ids_unique(node_records(recs@))
                && v@.map_values(|n: Node| n@) == placed(node_records(recs@), filler_node())
                && forall|i: int| 0 <= i < v@.len() ==> (#[trigger] v@[i]).properties.wf(),
            None => !ids_unique(node_records(recs@)),
        },
{
    let ghost rv = node_records(recs@);
    proof { lemma_slot_count(rv); }
    let mut slots: Vec<Option<Node>> = Vec::new();
    let mut i: usize = 0;
    while i < size
        invariant
            i <= size,
            slots@.len() == i,
            forall|k: int| 0 <= k < i ==> (#[trigger] slots@[k]) is None,
        decreases size - i,
    {
        slots.push(None);
        i = i + 1;
    }
    let mut j: usize = 0;
    proof { assert(rv.take(0) =~= Seq::<(usize, NodeV)>::empty()); }
    while j < recs.len()
        invariant
            rv == node_records(recs@),
            size == slot_count(rv),
            forall|k: int| 0 <= k < rv.len() ==> #[trigger] rv[k].0 < slot_count(rv),
            forall|k: int| 0 <= k < recs@.len() ==> (#[trigger] recs@[k]).1.properties.wf(),
            j <= recs@.len(),
            slots@.len() == size,
            ids_unique(rv.take(j as int)),
            forall|k: int| 0 <= k < size ==> ((#[trigger] slots@[k]) is Some <==> has_slot(rv.take(j as int), k)),
            forall|k: int| 0 <= k < size && (#[trigger] slots@[k]) is Some ==>
                slots@[k]->0@ == slot_record(rv.take(j as int), k) && slots@[k]->0.properties.wf(),
        decreases recs@.len() - j,
    {
        let id = recs[j].0;
        assert(rv[j as int].0 == id);
        assert(id < size);
        if slots[id].is_some() {
            proof {
                assert(has_slot(rv.take(j as int), id as int));
                let k = choose|k: int| 0 <= k < j && #[trigger] rv.take(j as int)[k].0 == id as int;
                assert(rv[k].0 == rv[j as int].0);
                assert(rv.take(j as int)[k] == rv[k]);
            }
            return None;
        }
        proof {
            assert forall|a: int, b: int| 0 <= a < j + 1 && 0 <= b < j + 1 && a != b
                implies #[trigger] rv.take(j as int + 1)[a].0 != #[trigger] rv.take(j as int + 1)[b].0 by {
                if a == j {
                    assert(!has_slot(rv.take(j as int), id as int));
                    assert(rv.take(j as int)[b].0 == rv.take(j as int + 1)[b].0);
                } else if b == j {
                    assert(!has_slot(rv.take(j as int), id as int));
                    assert(rv.take(j as int)[a].0 == rv.take(j as int + 1)[a].0);
                } else {
                    assert(rv.take(j as int)[a] == rv.take(j as int + 1)[a]);
                    assert(rv.take(j as int)[b] == rv.take(j as int + 1)[b]);
                }
            }
        }
        let nd = recs[j].1.copy();
        let ghost s0 = slots@;
        slots.set(id, Some(nd));
        proof {
            assert forall|k: int| 0 <= k < size implies ((#[trigger] slots@[k]) is Some <==> has_slot(rv.take(j as int + 1), k)) by {
                lemma_slot_extend(rv, j as int, k);
            }
            assert forall|k: int| 0 <= k < size && (#[trigger] slots@[k]) is Some implies
                slots@[k]->0@ == slot_record(rv.take(j as int + 1), k) && slots@[k]->0.properties.wf() by {
                lemma_slot_extend(rv, j as int, k);
                if k != id {
                    assert(s0[k] == slots@[k]);
                }
            }
        }
        j = j + 1;
    }
    proof { assert(rv.take(recs@.len() as int) =~= rv); }
    let mut out: Vec<Node> = Vec::new();
    let mut i: usize = 0;
    while i < size
        invariant
            rv == node_records(recs@),
            size == slot_count(rv),
            slots@.len() == size,
            i <= size,
            out@.len() == i,
            forall|k: int| 0 <= k < size ==> ((#[trigger] slots@[k]) is Some <==> has_slot(rv, k)),
            forall|k: int| 0 <= k < size && (#[trigger] slots@[k]) is Some ==>
                slots@[k]->0@ == slot_record(rv, k) && slots@[k]->0.properties.wf(),
            forall|k: int| 0 <= k < i ==> (#[trigger] out@[k])@ == placed(rv, filler_node())[k]
                && out@[k].properties.wf(),
        decreases size - i,
    {
        let item = match &slots[i] {
            Some(nd) => nd.copy(),
            None => {
                let r = Node {
                    id: String::new(),
                    labels: Vec::new(),
                    edges: Vec::new(),
                    properties: PropertyMap::new(),
                    deleted: true,
                    created_by: u64::MAX,
                    deleted_by: Some(u64::MAX),
                };
                assert(r@ == filler_node());
                r
            },
        };
        out.push(item);
        i = i + 1;
    }
    assert(out@.map_values(|n: Node| n@) =~= placed(rv, filler_node()));
    Some(out)
}

/// The edge records laid out by id (see `placed`), or `None` when two have one id.
fn place_edges(recs: &Vec<(usize, Edge)>, size: usize) -> (r: Option<Vec<Edge>>)
    requires
        size == slot_count(edge_records(recs@)),
        forall|j: int| 0 <= j < recs@.len() ==> (#[trigger] recs@[j]).1.properties.wf(),
    ensures
        match r {
            Some(v) => ids_unique(edge_records(recs@))
                && v@.map_values(|e: Edge| e@) == placed(edge_records(recs@), filler_edge())
                && forall|i: int| 0 <= i < v@.len() ==> (#[trigger] v@[i]).properties.wf(),
            None => !ids_unique(edge_records(recs@)),
        },
{
    let ghost rv = edge_records(recs@);
    proof { lemma_slot_count(rv); }
    let mut slots: Vec<Option<Edge>> = Vec::new();
    let mut i: usize = 0;
    while i < size
        invariant
            i <= size,
            slots@.len() == i,
            forall|k: int| 0 <= k < i ==> (#[trigger] slots@[k]) is None,
        decreases size - i,
    {
        slots.push(None);
        i = i + 1;
    }
    let mut j: usize = 0;
    proof { assert(rv.take(0) =~= Seq::<(usize, EdgeV)>::empty()); }
    while j < recs.len()
        invariant
            rv == edge_records(recs@),
            size == slot_count(rv),
            forall|k: int| 0 <= k < rv.len() ==> #[trigger] rv[k].0 < slot_count(rv),
            forall|k: int| 0 <= k < recs@.len() ==> (#[trigger] recs@[k]).1.properties.wf(),
            j <= recs@.len(),
            slots@.len() == size,
            ids_unique(rv.take(j as int)),
            forall|k: int| 0 <= k < size ==> ((#[trigger] slots@[k]) is Some <==> has_slot(rv.take(j as int), k)),
            forall|k: int| 0 <= k < size && (#[trigger] slots@[k]) is Some ==>
                slots@[k]->0@ == slot_record(rv.take(j as int), k) && slots@[k]->0.properties.wf(),
        decreases recs@.len() - j,
    {
        let id = recs[j].0;
        assert(rv[j as int].0 == id);
        assert(id < size);
        if slots[id].is_some() {
            proof {
                assert(has_slot(rv.take(j as int), id as int));
                let k = choose|k: int| 0 <= k < j && #[trigger] rv.take(j as int)[k].0 == id as int;
                assert(rv[k].0 == rv[j as int].0);
                assert(rv.take(j as int)[k] == rv[k]);
            }
            return None;
        }
        proof {
            assert forall|a: int, b: int| 0 <= a < j + 1 && 0 <= b < j + 1 && a != b
                implies #[trigger] rv.take(j as int + 1)[a].0 != #[trigger] rv.take(j as int + 1)[b].0 by {
                if a == j {
                    assert(!has_slot(rv.take(j as int), id as int));
                    assert(rv.take(j as int)[b].0 == rv.take(j as int + 1)[b].0);
                } else if b == j {
                    assert(!has_slot(rv.take(j as int), id as int));
                    assert(rv.take(j as int)[a].0 == rv.take(j as int + 1)[a].0);
                } else {
                    assert(rv.take(j as int)[a] == rv.take(j as int + 1)[a]);
                    assert(rv.take(j as int)[b] == rv.take(j as int + 1)[b]);
                }
            }
        }
        let ed = recs[j].1.copy();
        let ghost s0 = slots@;
        slots.set(id, Some(ed));
        proof {
            assert forall|k: int| 0 <= k < size implies ((#[trigger] slots@[k]) is Some <==> has_slot(rv.take(j as int + 1), k)) by {
                lemma_slot_extend(rv, j as int, k);
            }
            assert forall|k: int| 0 <= k < size && (#[trigger] slots@[k]) is Some implies
                slots@[k]->0@ == slot_record(rv.take(j as int + 1), k) && slots@[k]->0.properties.wf() by {
                lemma_slot_extend(rv, j as int, k);
                if k != id {
                    assert(s0[k] == slots@[k]);
                }
            }
        }
        j = j + 1;
    }
    proof { assert(rv.take(recs@.len() as int) =~= rv); }
    let mut out: Vec<Edge> = Vec::new();
    let mut i: usize = 0;
    while i < size
        invariant
            rv == edge_records(recs@),
            size == slot_count(rv),
            slots@.len() == size,
            i <= size,
            out@.len() == i,
            forall|k: int| 0 <= k < size ==> ((#[trigger] slots@[k]) is Some <==> has_slot(rv, k)),
            forall|k: int| 0 <= k < size && (#[trigger] slots@[k]) is Some ==>
                slots@[k]->0@ == slot_record(rv, k) && slots@[k]->0.properties.wf(),
            forall|k: int| 0 <= k < i ==> (#[trigger] out@[k])@ == placed(rv, filler_edge())[k]
                && out@[k].properties.wf(),
        decreases size - i,
    {
        let item = match &slots[i] {
            Some(ed) => ed.copy(),
            None => {
                let r = Edge {
                    id: String::new(),
                    labels: Vec::new(),
                    start: 0,
                    end: 0,
                    properties: PropertyMap::new(),
                    deleted: true,
                    created_by: u64::MAX,
                    deleted_by: Some(u64::MAX),
                };
                assert(r@ == filler_edge());
                r
            },
        };
        out.push(item);
        i = i + 1;
    }
    assert(out@.map_values(|e: Edge| e@) =~= placed(rv, filler_edge()));
    Some(out)
}

/// The label names laid out by id (see `placed`, with an empty name where no record is) as a
/// pool, or `None` when the records are not `labels_ok`.
fn place_labels(recs: &Vec<(usize, String)>) -> (r: Option<StringPool>)
    ensures
        match r {
            Some(p) => labels_ok(label_records(recs@)) && p.wf() && p@ == placed(label_records(recs@), Seq::empty()),
            None => !labels_ok(label_records(recs@)),
        },
{
    let ghost rv = label_records(recs@);
    let n = recs.len();
    let mut j: usize = 0;
    while j < n
        invariant
            rv == label_records(recs@),
            n == rv.len(),
            j <= n,
            forall|k: int| 0 <= k < j ==> #[trigger] rv[k].0 < n,
        decreases n - j,
    {
        if recs[j].0 >= n {
            assert(rv[j as int].0 >= n);
            return None;
        }
        j = j + 1;
    }
    proof { lemma_slot_count(rv); }
    let size = match slot_count_exec(recs) {
        Some(m) => m,
        None => {
            proof {
                let k = choose|k: int| 0 <= k < recs@.len() && #[trigger] recs@[k].0 == usize::MAX;
                assert(rv[k].0 < n);
            }
            return None;
        },
    };
    assert(size == slot_count(rv)) by {
        assert forall|k: int| 0 <= k < rv.len() implies rv[k].0 == (#[trigger] recs@[k]).0 by {}
        lemma_slot_count_same(recs@, rv);
    }
    let mut slots: Vec<Option<String>> = Vec::new();
    let mut i: usize = 0;
    while i < size
        invariant
            i <= size,
            slots@.len() == i,
            forall|k: int| 0 <= k < i ==> (#[trigger] slots@[k]) is None,
        decreases size - i,
    {
        slots.push(None);
        i = i + 1;
    }
    let mut j: usize = 0;
    proof { assert(rv.take(0) =~= Seq::<(usize, Seq<char>)>::empty()); }
    while j < n
        invariant
            rv == label_records(recs@),
            n == rv.len(),
            size == slot_count(rv),
            forall|k: int| 0 <= k < rv.len() ==> #[trigger] rv[k].0 < slot_count(rv),
            forall|k: int| 0 <= k < n ==> #[trigger] rv[k].0 < n,
            j <= n,
            slots@.len() == size,
            ids_unique(rv.take(j as int)),
            forall|k: int| 0 <= k < size ==> ((#[trigger] slots@[k]) is Some <==> has_slot(rv.take(j as int), k)),
            forall|k: int| 0 <= k < size && (#[trigger] slots@[k]) is Some ==>
                slots@[k]->0@ == slot_record(rv.take(j as int), k),
        decreases n - j,
    {
        let id = recs[j].0;
        assert(rv[j as int].0 == id);
        assert(id < size);
        if slots[id].is_some() {
            proof {
                assert(has_slot(rv.take(j as int), id as int));
                let k = choose|k: int| 0 <= k < j && #[trigger] rv.take(j as int)[k].0 == id as int;
                assert(rv[k].0 == rv[j as int].0);
                assert(rv.take(j as int)[k] == rv[k]);
            }
            return None;
        }
        proof {
            assert forall|a: int, b: int| 0 <= a < j + 1 && 0 <= b < j + 1 && a != b
                implies #[trigger] rv.take(j as int + 1)[a].0 != #[trigger] rv.take(j as int + 1)[b].0 by {
                if a == j {
                    assert(!has_slot(rv.take(j as int), id as int));
                    assert(rv.take(j as int)[b].0 == rv.take(j as int + 1)[b].0);
                } else if b == j {
                    assert(!has_slot(rv.take(j as int), id as int));
                    assert(rv.take(j as int)[a].0 == rv.take(j as int + 1)[a].0);
                } else {
                    assert(rv.take(j as int)[a] == rv.take(j as int + 1)[a]);
                    assert(rv.take(j as int)[b] == rv.take(j as int + 1)[b]);
                }
            }
        }
        let name = crate::text::copy_string(&recs[j].1);
        let ghost s0 = slots@;
        slots.set(id, Some(name));
        proof {
            assert forall|k: int| 0 <= k < size implies ((#[trigger] slots@[k]) is Some <==> has_slot(rv.take(j as int + 1), k)) by {
                lemma_slot_extend(rv, j as int, k);
            }
            assert forall|k: int| 0 <= k < size && (#[trigger] slots@[k]) is Some implies
                slots@[k]->0@ == slot_record(rv.take(j as int + 1), k) by {
                lemma_slot_extend(rv, j as int, k);
                if k != id {
                    assert(s0[k] == slots@[k]);
                }
            }
        }
        j = j + 1;
    }
    proof { assert(rv.take(n as int) =~= rv); }
    let ghost names = placed(rv, Seq::<char>::empty());
    let mut pool = StringPool::new();
    let mut i: usize = 0;
    proof { assert(names.take(0) =~= Seq::<Seq<char>>::empty()); }
    while i < size
        invariant
            rv == label_records(recs@),
            size == slot_count(rv),
            names == placed(rv, Seq::<char>::empty()),
            slots@.len() == size,
            i <= size,
            forall|k: int| 0 <= k < size ==> ((#[trigger] slots@[k]) is Some <==> has_slot(rv, k)),
            forall|k: int| 0 <= k < size && (#[trigger] slots@[k]) is Some ==> slots@[k]->0@ == slot_record(rv, k),
            pool.wf(),
            pool@ == names.take(i as int),
            names.take(i as int).no_duplicates(),
        decreases size - i,
    {
        let ghost t = names.take(i as int);
        let got = match &slots[i] {
            Some(name) => {
                assert(name@ == names[i as int]);
                pool.get_or_intern(name.as_str())
            },
            None => {
                proof { reveal_strlit(""); }
                assert(""@ == names[i as int]);
                pool.get_or_intern("")
            },
        };
        assert((pool@, got as int) == intern(t, names[i as int]));
        proof {
            if t.contains(names[i as int]) {
                let k = choose|k: int| 0 <= k < t.len() && t[k] == names[i as int];
                assert(crate::string_pool::interned_at(t, names[i as int], k));
                assert(crate::string_pool::interned_at(t, names[i as int], crate::string_pool::position_of(t, names[i as int])));
            }
        }
        if got != i {
            proof {
                let t = names.take(i as int);
                assert(t.contains(names[i as int]));
                let k = choose|k: int| 0 <= k < t.len() && t[k] == names[i as int];
                assert(names[k] == names[i as int]);
            }
            return None;
        }
        proof {
            let t = names.take(i as int);
            assert(!t.contains(names[i as int]));
            assert(names.take(i as int + 1) =~= t.push(names[i as int]));
            assert forall|a: int, b: int| 0 <= a < i + 1 && 0 <= b < i + 1 && a != b
                implies #[trigger] names.take(i as int + 1)[a] != #[trigger] names.take(i as int + 1)[b] by {
                if a == i {
                    assert(t[b] == names.take(i as int + 1)[b]);
                } else if b == i {
                    assert(t[a] == names.take(i as int + 1)[a]);
                } else {
                    assert(t[a] == names.take(i as int + 1)[a]);
                    assert(t[b] == names.take(i as int + 1)[b]);
                }
            }
        }
        i = i + 1;
    }
    proof { assert(names.take(size as int) =~= names); }
    Some(pool)
}

/// Ids read the same from records and from their mathematical form.
proof fn lemma_slot_count_same<T, U>(a: Seq<(usize, T)>, b: Seq<(usize, U)>)
    requires
        a.len() == b.len(),
        forall|k: int| 0 <= k < a.len() ==> b[k].0 == (#[trigger] a[k]).0,
    ensures
        slot_count(a) == slot_count(b),
    decreases a.len(),
{
    if a.len() > 0 {
        assert forall|k: int| 0 <= k < a.drop_last().len() implies b.drop_last()[k].0 == (#[trigger] a.drop_last()[k]).0 by {
            assert(a.drop_last()[k] == a[k]);
            assert(b.drop_last()[k] == b[k]);
        }
        lemma_slot_count_same(a.drop_last(), b.drop_last());
    }
}

/// The labels hold no id twice.
fn labels_distinct(ls: &Vec<usize>) -> (r: bool)
    ensures
        r == ls@.no_duplicates(),
{
    let n = ls.len();
    let mut a: usize = 0;
    while a < n
        invariant
            n == ls@.len(),
            a <= n,
            forall|x: int, y: int| 0 <= x < a && 0 <= y < n && x != y ==> #[trigger] ls@[x] != #[trigger] ls@[y],
        decreases n - a,
    {
        let mut b: usize = 0;
        while b < n
            invariant
                n == ls@.len(),
                a < n,
                b <= n,
                forall|x: int, y: int| 0 <= x < a && 0 <= y < n && x != y ==> #[trigger] ls@[x] != #[trigger] ls@[y],
                forall|y: int| 0 <= y < b && y != a ==> ls@[a as int] != #[trigger] ls@[y],
            decreases n - b,
        {
            if b != a && ls[a] == ls[b] {
                return false;
            }
            b = b + 1;
        }
        a = a + 1;
    }
    true
}

/// The nodes and edges refer to each other by existing ids (see `structure_ok`).
fn check_structure(nodes: &Vec<Node>, edges: &Vec<Edge>) -> (r: bool)
    ensures
        r == structure_ok(nodes@.map_values(|n: Node| n@), edges@.map_values(|e: Edge| e@)),
{
    let ghost nv = nodes@.map_values(|n: Node| n@);
    let ghost ev = edges@.map_values(|e: Edge| e@);
    let mut e: usize = 0;
    while e < edges.len()
        invariant
            nv == nodes@.map_values(|n: Node| n@),
            ev == edges@.map_values(|e: Edge| e@),
            e <= ev.len(),
            forall|k: int| 0 <= k < e ==> #[trigger] ev[k].start < nv.len() && ev[k].end < nv.len(),
        decreases ev.len() - e,
    {
        if edges[e].start >= nodes.len() || edges[e].end >= nodes.len() {
            assert(ev[e as int].start == edges@[e as int].start);
            return false;
        }
        e = e + 1;
    }
    let mut n: usize = 0;
    while n < nodes.len()
        invariant
            nv == nodes@.map_values(|n: Node| n@),
            ev == edges@.map_values(|e: Edge| e@),
            forall|k: int| 0 <= k < ev.len() ==> #[trigger] ev[k].start < nv.len() && ev[k].end < nv.len(),
            n <= nv.len(),
            forall|k: int, j: int| 0 <= k < n && 0 <= j < nv[k].edges.len() ==> #[trigger] nv[k].edges[j] < ev.len(),
            forall|k: int| 0 <= k < n ==> (#[trigger] nv[k]).labels.no_duplicates(),
        decreases nv.len() - n,
    {
        let es = &nodes[n].edges;
        assert(nv[n as int].edges == es@);
        let mut j: usize = 0;
        while j < es.len()
            invariant
                j <= es@.len(),
                forall|q: int| 0 <= q < j ==> #[trigger] es@[q] < ev.len(),
                ev.len() == edges@.len(),
                n < nv.len(),
                nv[n as int].edges == es@,
                nv == nodes@.map_values(|n: Node| n@),
                ev == edges@.map_values(|e: Edge| e@),
            decreases es@.len() - j,
        {
            if es[j] >= edges.len() {
                assert(nv[n as int].edges[j as int] >= ev.len());
                assert(0 <= j < nv[n as int].edges.len());
                assert(!structure_ok(nv, ev));
                return false;
            }
            j = j + 1;
        }
        if !labels_distinct(&nodes[n].labels) {
            assert(nv[n as int].labels == nodes@[n as int].labels@);
            return false;
        }
        assert(nv[n as int].labels == nodes@[n as int].labels@);
        n = n + 1;
    }
    true
}

/// Every property map of the records is in normal form.
pub open spec fn properties_ok(nodes: Seq<(usize, Node)>, edges: Seq<(usize, Edge)>) -> bool {
    &&& forall|j: int| 0 <= j < nodes.len() ==> (#[trigger] nodes[j]).1.properties.wf()
    &&& forall|j: int| 0 <= j < edges.len() ==> (#[trigger] edges[j]).1.properties.wf()
}

/// The first reason, if any, why the records are not a graph: the labels, then the property
/// maps, then the record ids, then the references between nodes and edges.
pub open spec fn import_problem(labels: Seq<(usize, String)>, nodes: Seq<(usize, Node)>, edges: Seq<(usize, Edge)>) -> Option<ImportError> {
    if !labels_ok(label_records(labels)) {
        Some(ImportError::Labels)
    } else if !properties_ok(nodes, edges) {
        Some(ImportError::Properties)
    } else if !record_ids_ok(node_records(nodes)) || !record_ids_ok(edge_records(edges)) {
        Some(ImportError::RecordIds)
    } else {
        let base = imported_base(labels, nodes, edges);
        if !structure_ok(base.nodes, base.edges) { Some(ImportError::Dangling) } else { None }
    }
}

/// The records' property maps are all in normal form.
fn check_properties(nodes: &Vec<(usize, Node)>, edges: &Vec<(usize, Edge)>) -> (r: bool)
    ensures
        r == properties_ok(nodes@, edges@),
{
    let mut j: usize = 0;
    while j < nodes.len()
        invariant
            j <= nodes@.len(),
            forall|k: int| 0 <= k < j ==> (#[trigger] nodes@[k]).1.properties.wf(),
        decreases nodes@.len() - j,
    {
        if !nodes[j].1.properties.check_wf() {
            return false;
        }
        j = j + 1;
    }
    let mut j: usize = 0;
    while j < edges.len()
        invariant
            j <= edges@.len(),
            forall|k: int| 0 <= k < j ==> (#[trigger] edges@[k]).1.properties.wf(),
        decreases edges@.len() - j,
    {
        if !edges[j].1.properties.check_wf() {
            return false;
        }
        j = j + 1;
    }
    true
}

/// The ids of the records, with a view of each record's item.
proof fn lemma_record_ids<T, U>(recs: Seq<(usize, T)>, rv: Seq<(usize, U)>)
    requires
        recs.len() == rv.len(),
        forall|k: int| 0 <= k < recs.len() ==> rv[k].0 == (#[trigger] recs[k]).0,
    ensures
        slot_count(recs) == slot_count(rv),
        (forall|k: int| 0 <= k < recs.len() ==> #[trigger] recs[k].0 < usize::MAX)
            <==> (forall|k: int| 0 <= k < rv.len() ==> #[trigger] rv[k].0 < usize::MAX),
{
    lemma_slot_count_same(recs, rv);
    if forall|k: int| 0 <= k < recs.len() ==> #[trigger] recs[k].0 < usize::MAX {
        assert forall|k: int| 0 <= k < rv.len() implies #[trigger] rv[k].0 < usize::MAX by {
            assert(rv[k].0 == recs[k].0);
        }
    }
    if forall|k: int| 0 <= k < rv.len() ==> #[trigger] rv[k].0 < usize::MAX {
        assert forall|k: int| 0 <= k < recs.len() implies #[trigger] recs[k].0 < usize::MAX by {
            assert(rv[k].0 == recs[k].0);
        }
    }
}

impl Graph {
    /// A graph from records (as an export writes them): the labels by id, the nodes and the
    /// edges each laid out by id with a deleted filler where no record is (see `placed`), then
    /// the indices built in order. It fails, with the first problem, exactly when the records
    /// are not a graph (see `import_problem`). The log of the new graph is empty.
    pub fn import_records(labels: &Vec<(usize, String)>, nodes: &Vec<(usize, Node)>, edges: &Vec<(usize, Edge)>,
        indices: &Vec<(usize, String, IndexType)>) -> (r: Result<Graph, ImportError>)
        ensures
            match r {
                Ok(g) => import_problem(labels@, nodes@, edges@) is None
                    && g.wf()
                    && g.wal@.len() == 0
                    && g@ == wal_replay(imported_base(labels@, nodes@, edges@), index_entries(indices@)),
                Err(e) => import_problem(labels@, nodes@, edges@) == Some(e),
            },
    {
        let pool = match place_labels(labels) {
            Some(p) => p,
            None => return Err(ImportError::Labels),
        };
        if !check_properties(nodes, edges) {
            return Err(ImportError::Properties);
        }
        let ghost nrv = node_records(nodes@);
        let ghost erv = edge_records(edges@);
        proof {
            lemma_record_ids(nodes@, nrv);
            lemma_record_ids(edges@, erv);
        }
        let nsize = match slot_count_exec(nodes) {
            Some(m) => m,
            None => {
                proof {
                    let k = choose|k: int| 0 <= k < nodes@.len() && #[trigger] nodes@[k].0 == usize::MAX;
                    assert(nrv[k].0 == usize::MAX);
                }
                return Err(ImportError::RecordIds);
            },
        };
        let esize = match slot_count_exec(edges) {
            Some(m) => m,
            None => {
                proof {
                    let k = choose|k: int| 0 <= k < edges@.len() && #[trigger] edges@[k].0 == usize::MAX;
                    assert(erv[k].0 == usize::MAX);
                }
                return Err(ImportError::RecordIds);
            },
        };
        let nvec = match place_nodes(nodes, nsize) {
            Some(v) => v,
            None => return Err(ImportError::RecordIds),
        };
        let evec = match place_edges(edges, esize) {
            Some(v) => v,
            None => return Err(ImportError::RecordIds),
        };
        if !check_structure(&nvec, &evec) {
            return Err(ImportError::Dangling);
        }
        let mut g = Graph { nodes: nvec, edges: evec, labels: pool, indices: Vec::new(), wal: Vec::new(), tx: None, next_txid: 1 };
        proof {
            let b = imported_base(labels@, nodes@, edges@);
            assert(g@.nodes =~= b.nodes);
            assert(g@.edges =~= b.edges);
            assert(g@.labels =~= b.labels);
            assert(g@.indices =~= b.indices);
        }
        assert(g@ =~= imported_base(labels@, nodes@, edges@));
        proof {
            let gv = g@;
            assert(structure_ok(gv.nodes, gv.edges));
            assert(gv.indices.len() == 0);
            assert(crate::graph::model::gv_wf(gv));
            assert(forall|i: int| 0 <= i < g.nodes@.len() ==> (#[trigger] g.nodes@[i]).properties.wf());
            assert(forall|i: int| 0 <= i < g.edges@.len() ==> (#[trigger] g.edges@[i]).properties.wf());
            assert(g.wf());
        }
        let ghost g0 = g;
        proof {
            lemma_redoes_refl(g);
            lemma_logged_since_refl(g);
            assert(index_entries(indices@).take(0) =~= Seq::<WalEntryV>::empty());
        }
        let mut k: usize = 0;
        while k < indices.len()
            invariant
                g.wf(),
                redoes(g0, g),
                g0@ == imported_base(labels@, nodes@, edges@),
                k <= indices@.len(),
                logged_since(g0, g) == index_entries(indices@).take(k as int),
            decreases indices@.len() - k,
        {
            let ghost g1 = g;
            g.create_index(indices[k].0, crate::text::copy_string(&indices[k].1), indices[k].2);
            proof {
                let en = WalEntryV::CreateIndex { label: indices@[k as int].0, property: indices@[k as int].1@,
                    index_type: indices@[k as int].2 };
                lemma_logged_redoes(g1, g, en);
                lemma_logged_since_push(g0, g1, g, en);
                lemma_redoes_trans(g0, g1, g);
                assert(index_entries(indices@).take(k as int + 1) =~= index_entries(indices@).take(k as int).push(en));
            }
            k = k + 1;
        }
        proof {
            assert(index_entries(indices@).take(indices@.len() as int) =~= index_entries(indices@));
            assert(g@ == wal_replay(g0@, logged_since(g0, g)));
        }
        g.wal = Vec::new();
        Ok(g)
    }
}

// ---------------------------------------------------------------------------------------------
// Exporting.

/// The label records of a graph: each label with its id.
pub open spec fn exported_labels(g: GraphV) -> Seq<(usize, Seq<char>)> {
    Seq::new(g.labels.len(), |i: int| (i as usize, g.labels[i]))
}

/// The node records of a graph: each node with its id.
pub open spec fn exported_nodes(g: GraphV) -> Seq<(usize, NodeV)> {
    Seq::new(g.nodes.len(), |i: int| (i as usize, g.nodes[i]))
}

/// The edge records of a graph: each edge with its id.
pub open spec fn exported_edges(g: GraphV) -> Seq<(usize, EdgeV)> {
    Seq::new(g.edges.len(), |i: int| (i as usize, g.edges[i]))
}

/// The index definitions of a graph: label, property and kind of each index, in order.
pub open spec fn exported_indices(g: GraphV) -> Seq<(usize, Seq<char>, IndexType)> {
    g.indices.map_values(|ix: crate::graph::model::IndexV| (ix.label, ix.property, ix.kind))
}

/// The mathematical form of index definitions.
pub open spec fn index_defs_view(defs: Seq<(usize, String, IndexType)>) -> Seq<(usize, Seq<char>, IndexType)> {
    defs.map_values(|d: (usize, String, IndexType)| (d.0, d.1@, d.2))
}

/// What an export of a graph holds.
pub struct Exported {
    pub labels: Vec<(usize, String)>,
    pub nodes: Vec<(usize, Node)>,
    pub edges: Vec<(usize, Edge)>,
    pub indices: Vec<(usize, String, IndexType)>,
}

impl Graph {
    /// The graph as records: every label, node and edge with its id, and the definition of every
    /// index (see `exported_labels`, `exported_nodes`, `exported_edges`, `exported_indices`).
    pub fn export_records(&self) -> (r: Exported)
        requires
            self.wf(),
        ensures
            label_records(r.labels@) == exported_labels(self@),
            node_records(r.nodes@) == exported_nodes(self@),
            edge_records(r.edges@) == exported_edges(self@),
            index_defs_view(r.indices@) == exported_indices(self@),
            properties_ok(r.nodes@, r.edges@),
    {
        let mut labels: Vec<(usize, String)> = Vec::new();
        let n = self.labels.len();
        let mut i: usize = 0;
        while i < n
            invariant
                n == self@.labels.len(),
                i <= n,
                labels@.len() == i,
                forall|k: int| 0 <= k < i ==> label_records(labels@)[k] == exported_labels(self@)[k],
            decreases n - i,
        {
            match self.labels.resolve(i) {
                Some(name) => labels.push((i, crate::text::own(name))),
                None => {
                    proof { assert(false); }
                },
            }
            i = i + 1;
        }
        assert(label_records(labels@) =~= exported_labels(self@));
        let mut nodes: Vec<(usize, Node)> = Vec::new();
        let mut i: usize = 0;
        while i < self.nodes.len()
            invariant
                self.wf(),
                i <= self.nodes@.len(),
                nodes@.len() == i,
                forall|k: int| 0 <= k < i ==> node_records(nodes@)[k] == exported_nodes(self@)[k],
                forall|k: int| 0 <= k < i ==> (#[trigger] nodes@[k]).1.properties.wf(),
            decreases self.nodes@.len() - i,
        {
            nodes.push((i, self.nodes[i].copy()));
            i = i + 1;
        }
        assert(node_records(nodes@) =~= exported_nodes(self@));
        let mut edges: Vec<(usize, Edge)> = Vec::new();
        let mut i: usize = 0;
        while i < self.edges.len()
            invariant
                self.wf(),
                i <= self.edges@.len(),
                edges@.len() == i,
                forall|k: int| 0 <= k < i ==> edge_records(edges@)[k] == exported_edges(self@)[k],
                forall|k: int| 0 <= k < i ==> (#[trigger] edges@[k]).1.properties.wf(),
            decreases self.edges@.len() - i,
        {
            edges.push((i, self.edges[i].copy()));
            i = i + 1;
        }
        assert(edge_records(edges@) =~= exported_edges(self@));
        let mut indices: Vec<(usize, String, IndexType)> = Vec::new();
        let mut i: usize = 0;
        while i < self.indices.len()
            invariant
                i <= self.indices@.len(),
                indices@.len() == i,
                forall|k: int| 0 <= k < i ==> index_defs_view(indices@)[k] == exported_indices(self@)[k],
            decreases self.indices@.len() - i,
        {
            let ix = &self.indices[i];
            let kind = match &ix.map {
                crate::graph::types::IndexMap::Hash(_) => IndexType::Hash,
                crate::graph::types::IndexMap::BTree(_) => IndexType::BTree,
            };
            indices.push((ix.label, crate::text::copy_string(&ix.property), kind));
            i = i + 1;
        }
        assert(index_defs_view(indices@) =~= exported_indices(self@));
        Exported { labels, nodes, edges, indices }
    }
}

/// Records with ids `0 .. n` in order lay out as their items.
proof fn lemma_placed_in_order<T>(recs: Seq<(usize, T)>, items: Seq<T>, filler: T)
    requires
        recs.len() == items.len(),
        forall|k: int| 0 <= k < recs.len() ==> #[trigger] recs[k] == (k as usize, items[k]),
        items.len() < usize::MAX,
    ensures
        ids_unique(recs),
        forall|k: int| 0 <= k < recs.len() ==> #[trigger] recs[k].0 < recs.len(),
        slot_count(recs) == recs.len(),
        placed(recs, filler) == items,
    decreases recs.len(),
{
    if recs.len() > 0 {
        let r0 = recs.drop_last();
        assert forall|k: int| 0 <= k < r0.len() implies #[trigger] r0[k] == (k as usize, items.drop_last()[k]) by {
            assert(r0[k] == recs[k]);
        }
        lemma_placed_in_order(r0, items.drop_last(), filler);
        assert(recs.last() == ((recs.len() - 1) as usize, items.last()));
    }
    assert forall|k: int| 0 <= k < recs.len() implies has_slot(recs, k) && slot_record(recs, k) == items[k] by {
        assert(recs[k].0 == k);
        let j = choose|j: int| 0 <= j < recs.len() && #[trigger] recs[j].0 == k;
        assert(recs[j] == (j as usize, items[j]));
    }
    assert(placed(recs, filler) =~= items);
}

/// Importing what an export of a well-formed graph holds succeeds and gives back its labels,
/// nodes and edges (the indices are then built again from their definitions).
pub proof fn law_export_import(g: Graph, labels: Seq<(usize, String)>, nodes: Seq<(usize, Node)>, edges: Seq<(usize, Edge)>)
    requires
        g.wf(),
        label_records(labels) == exported_labels(g@),
        node_records(nodes) == exported_nodes(g@),
        edge_records(edges) == exported_edges(g@),
        properties_ok(nodes, edges),
        g@.labels.len() < usize::MAX,
        g@.nodes.len() < usize::MAX,
        g@.edges.len() < usize::MAX,
    ensures
        (import_problem(labels, nodes, edges) is None),
        imported_base(labels, nodes, edges) == (GraphV { indices: Seq::empty(), tx: None, next_txid: 1, ..g@ }),
{
    let gv = g@;
    g.labels.lemma_unique();
    lemma_placed_in_order(label_records(labels), gv.labels, Seq::<char>::empty());
    lemma_placed_in_order(node_records(nodes), gv.nodes, filler_node());
    lemma_placed_in_order(edge_records(edges), gv.edges, filler_edge());
    let b = imported_base(labels, nodes, edges);
    assert(b =~= GraphV { indices: Seq::empty(), tx: None, next_txid: 1, ..gv });
}

} // verus!
