use vstd::prelude::*;
use crate::edge::EdgeV;
use crate::graph::types::{
    index_add, index_add_once, index_remove, index_remove_all, EntriesV, IndexType, WalEntryV,
    entries_unique, ids_distinct, ids_for, other_than, has_entry, entry_pos, entry_at, lemma_index_ops_unique,
    lemma_ids_after_add, lemma_ids_after_remove, lemma_ids_after_remove_all, lemma_entry_unique,
};
use crate::node::NodeV;
use crate::property::PropV;

verus! {

/// The mathematical form of a property index.
pub struct IndexV {
    pub label: usize,
    pub property: Seq<char>,
    pub kind: IndexType,
    pub entries: EntriesV,
}

/// The mathematical form of a graph: its nodes and edges by id, its label names by id, its
/// indices, the transaction running on it (if any) and the id the next transaction gets.
pub struct GraphV {
    pub nodes: Seq<NodeV>,
    pub edges: Seq<EdgeV>,
    pub labels: Seq<Seq<char>>,
    pub indices: Seq<IndexV>,
    pub tx: Option<u64>,
    pub next_txid: u64,
}

/// The transaction id a change made now records: that of the running transaction, or 0 when
/// none runs (as when a log is redone).
pub open spec fn stamp(tx: Option<u64>) -> u64 {
    match tx {
        Some(t) => t,
        None => 0,
    }
}

/// The transaction id a lookup reads at: that of the running transaction, or the largest one
/// when none runs.
pub open spec fn reader(tx: Option<u64>) -> u64 {
    match tx {
        Some(t) => t,
        None => u64::MAX,
    }
}

/// The id the transaction after `t` gets: the next one, wrapping past the largest `u64`.
pub open spec fn after_txid(t: u64) -> u64 {
    if t == u64::MAX { 0 } else { (t + 1) as u64 }
}

/// An element created by `created_by` and deleted by `deleted_by` is seen by transaction `t`:
/// it was created at or before `t` and not deleted at or before `t`.
pub open spec fn seen_at(created_by: u64, deleted_by: Option<u64>, t: u64) -> bool {
    created_by <= t && !(deleted_by matches Some(d) && d <= t)
}

// ---------------------------------------------------------------------------------------------
// The changes a log entry makes.

/// Adds a label name unless it is known.
pub open spec fn g_add_label(g: GraphV, name: Seq<char>) -> GraphV {
    if g.labels.contains(name) {
        g
    } else {
        GraphV { labels: g.labels.push(name), ..g }
    }
}

/// An index after node `n` with `label` and `props` was added.
pub open spec fn index_new_node(ix: IndexV, label: usize, props: Map<Seq<char>, PropV>, n: usize) -> IndexV {
    if ix.label == label && props.contains_key(ix.property) {
        IndexV { entries: index_add(ix.entries, props[ix.property], n), ..ix }
    } else {
        ix
    }
}

/// Adds a live node with one label, no edges and the given properties, created by the running
/// transaction (0 when none runs); the indices of its label list it under its values.
pub open spec fn g_add_node(g: GraphV, id: Seq<char>, label: usize, props: Map<Seq<char>, PropV>) -> GraphV {
    let n = g.nodes.len() as usize;
    GraphV {
        nodes: g.nodes.push(NodeV {
            id: id,
            labels: seq![label],
            edges: Seq::empty(),
            properties: props,
            deleted: false,
            created_by: stamp(g.tx),
            deleted_by: None,
        }),
        indices: g.indices.map_values(|ix: IndexV| index_new_node(ix, label, props, n)),
        ..g
    }
}

/// `nd` with edge `e` added to its list.
pub open spec fn with_edge(nd: NodeV, e: usize) -> NodeV {
    NodeV { edges: nd.edges.push(e), ..nd }
}

/// Adds a live edge from `start` to `end`, created by the running transaction (0 when none
/// runs); both end nodes list it.
pub open spec fn g_add_edge(
    g: GraphV,
    id: Seq<char>,
    start: usize,
    end: usize,
    labels: Seq<usize>,
    props: Map<Seq<char>, PropV>,
) -> GraphV {
    let e = g.edges.len() as usize;
    let n1 = g.nodes.update(start as int, with_edge(g.nodes[start as int], e));
    let n2 = n1.update(end as int, with_edge(n1[end as int], e));
    GraphV {
        nodes: n2,
        edges: g.edges.push(EdgeV {
            id: id,
            labels: labels,
            start: start,
            end: end,
            properties: props,
            deleted: false,
            created_by: stamp(g.tx),
            deleted_by: None,
        }),
        ..g
    }
}

/// The index entries after listing every node among the first `k` that has the label and
/// the property.
pub open spec fn populate(es: EntriesV, nodes: Seq<NodeV>, label: usize, prop: Seq<char>, k: nat) -> EntriesV
    decreases k,
{
    if k == 0 {
        es
    } else {
        let prev = populate(es, nodes, label, prop, (k - 1) as nat);
        let nd = nodes[k - 1];
        if nd.labels.contains(label) && nd.properties.contains_key(prop) {
            index_add(prev, nd.properties[prop], (k - 1) as usize)
        } else {
            prev
        }
    }
}

/// Index `i` is the one for `label` and `prop`.
pub open spec fn index_at(ixs: Seq<IndexV>, label: usize, prop: Seq<char>, i: int) -> bool {
    0 <= i < ixs.len() && ixs[i].label == label && ixs[i].property == prop
}

pub open spec fn has_index(ixs: Seq<IndexV>, label: usize, prop: Seq<char>) -> bool {
    exists|i: int| #[trigger] index_at(ixs, label, prop, i)
}

pub open spec fn index_pos(ixs: Seq<IndexV>, label: usize, prop: Seq<char>) -> int {
    choose|i: int| #[trigger] index_at(ixs, label, prop, i)
}

/// Creates the index for `label` and `prop` and lists in it every node that has the label and
/// the property; where the index exists already, the graph stays as it is.
pub open spec fn g_create_index(g: GraphV, label: usize, prop: Seq<char>, kind: IndexType) -> GraphV {
    let k = g.nodes.len();
    if has_index(g.indices, label, prop) {
        g
    } else {
        GraphV {
            indices: g.indices.push(IndexV { label: label, property: prop, kind: kind, entries: populate(Seq::empty(), g.nodes, label, prop, k) }),
            ..g
        }
    }
}

/// Removes the index for `label` and `prop`, if there is one.
pub open spec fn g_drop_index(g: GraphV, label: usize, prop: Seq<char>) -> GraphV {
    if has_index(g.indices, label, prop) {
        GraphV { indices: g.indices.remove(index_pos(g.indices, label, prop)), ..g }
    } else {
        g
    }
}

/// An index after node `n` (as it was before) got `value` under `key`.
pub open spec fn index_set(ix: IndexV, nd: NodeV, key: Seq<char>, value: PropV, n: usize) -> IndexV {
    if nd.labels.contains(ix.label) && ix.property == key {
        let cleared = if nd.properties.contains_key(key) { index_remove(ix.entries, nd.properties[key], n) } else { ix.entries };
        IndexV { entries: index_add_once(cleared, value, n), ..ix }
    } else {
        ix
    }
}

/// Sets a property of node `n`; the indices of its labels for that property follow.
pub open spec fn g_set_node_property(g: GraphV, n: usize, key: Seq<char>, value: PropV) -> GraphV {
    let nd = g.nodes[n as int];
    GraphV {
        nodes: g.nodes.update(n as int, NodeV { properties: nd.properties.insert(key, value), ..nd }),
        indices: g.indices.map_values(|ix: IndexV| index_set(ix, nd, key, value, n)),
        ..g
    }
}

/// An index after node `n` (as it was before) was deleted.
pub open spec fn index_delete(ix: IndexV, nd: NodeV, n: usize) -> IndexV {
    if nd.labels.contains(ix.label) {
        IndexV { entries: index_remove_all(ix.entries, n), ..ix }
    } else {
        ix
    }
}

/// What a deletion records as deleting transaction: the running one, if any; else the record
/// stays as it was.
pub open spec fn deleted_stamp(tx: Option<u64>, before: Option<u64>) -> Option<u64> {
    match tx {
        Some(t) => Some(t),
        None => before,
    }
}

/// Marks node `n` deleted (recording the running transaction, if any, as deleting it) and takes
/// it out of the indices of its labels.
pub open spec fn g_delete_node(g: GraphV, n: usize) -> GraphV {
    let nd = g.nodes[n as int];
    GraphV {
        nodes: g.nodes.update(n as int, NodeV { deleted: true, deleted_by: deleted_stamp(g.tx, nd.deleted_by), ..nd }),
        indices: g.indices.map_values(|ix: IndexV| index_delete(ix, nd, n)),
        ..g
    }
}

/// Marks edge `e` deleted, recording the running transaction, if any, as deleting it.
pub open spec fn g_delete_edge(g: GraphV, e: usize) -> GraphV {
    let ed = g.edges[e as int];
    GraphV { edges: g.edges.update(e as int, EdgeV { deleted: true, deleted_by: deleted_stamp(g.tx, ed.deleted_by), ..ed }), ..g }
}

/// An index after node `n` (as it was before) lost its property `key`.
pub open spec fn index_unset(ix: IndexV, nd: NodeV, key: Seq<char>, n: usize) -> IndexV {
    if nd.labels.contains(ix.label) && ix.property == key && nd.properties.contains_key(key) {
        IndexV { entries: index_remove(ix.entries, nd.properties[key], n), ..ix }
    } else {
        ix
    }
}

/// Removes a property of node `n`; the indices of its labels for that property follow.
pub open spec fn g_remove_node_property(g: GraphV, n: usize, key: Seq<char>) -> GraphV {
    let nd = g.nodes[n as int];
    GraphV {
        nodes: g.nodes.update(n as int, NodeV { properties: nd.properties.remove(key), ..nd }),
        indices: g.indices.map_values(|ix: IndexV| index_unset(ix, nd, key, n)),
        ..g
    }
}

/// `s` without the first occurrence of `x`.
pub open spec fn without_first(s: Seq<usize>, x: usize) -> Seq<usize> {
    match s.index_of_first(x) {
        Some(i) => s.remove(i),
        None => s,
    }
}

/// An index after node `n` (as it was before) lost the label `label`.
pub open spec fn index_unlabel(ix: IndexV, nd: NodeV, label: usize, n: usize) -> IndexV {
    if ix.label == label && nd.properties.contains_key(ix.property) {
        IndexV { entries: index_remove(ix.entries, nd.properties[ix.property], n), ..ix }
    } else {
        ix
    }
}

/// Removes a label from node `n`; the indices of that label stop listing it.
pub open spec fn g_remove_node_label(g: GraphV, n: usize, label: usize) -> GraphV {
    let nd = g.nodes[n as int];
    GraphV {
        nodes: g.nodes.update(n as int, NodeV { labels: without_first(nd.labels, label), ..nd }),
        indices: g.indices.map_values(|ix: IndexV| index_unlabel(ix, nd, label, n)),
        ..g
    }
}

/// A log entry can be redone on `g`: the ids it names exist.
pub open spec fn wal_applicable(g: GraphV, e: WalEntryV) -> bool {
    match e {
        WalEntryV::AddEdge { start, end, .. } => start < g.nodes.len() && end < g.nodes.len(),
        WalEntryV::SetNodeProperty { node_id, .. } => node_id < g.nodes.len(),
        WalEntryV::DeleteNode { node_id } => node_id < g.nodes.len(),
        WalEntryV::DeleteEdge { edge_id } => edge_id < g.edges.len(),
        WalEntryV::RemoveNodeProperty { node_id, .. } => node_id < g.nodes.len(),
        WalEntryV::RemoveNodeLabel { node_id, .. } => node_id < g.nodes.len(),
        _ => true,
    }
}

/// The graph after redoing a log entry.
pub open spec fn wal_apply(g: GraphV, e: WalEntryV) -> GraphV {
    match e {
        WalEntryV::AddLabel { label } => g_add_label(g, label),
        WalEntryV::AddNode { id, label, properties } => g_add_node(g, id, label, properties),
        WalEntryV::AddEdge { id, start, end, labels, properties } => g_add_edge(g, id, start, end, labels, properties),
        WalEntryV::CreateIndex { label, property, index_type } => g_create_index(g, label, property, index_type),
        WalEntryV::SetNodeProperty { node_id, key, value } => g_set_node_property(g, node_id, key, value),
        WalEntryV::DeleteNode { node_id } => g_delete_node(g, node_id),
        WalEntryV::DeleteEdge { edge_id } => g_delete_edge(g, edge_id),
        WalEntryV::RemoveNodeProperty { node_id, key } => g_remove_node_property(g, node_id, key),
        WalEntryV::RemoveNodeLabel { node_id, label_id } => g_remove_node_label(g, node_id, label_id),
        WalEntryV::DropIndex { label, property } => g_drop_index(g, label, property),
    }
}

/// The graph after redoing the entries in order.
pub open spec fn wal_replay(g: GraphV, es: Seq<WalEntryV>) -> GraphV
    decreases es.len(),
{
    if es.len() == 0 {
        g
    } else {
        wal_apply(wal_replay(g, es.drop_last()), es.last())
    }
}

/// Redoing two pieces of a log one after the other is redoing the whole log.
pub proof fn law_replay_concat(g: GraphV, a: Seq<WalEntryV>, b: Seq<WalEntryV>)
    ensures
        wal_replay(g, a + b) == wal_replay(wal_replay(g, a), b),
    decreases b.len(),
{
    if b.len() == 0 {
        assert(a + b =~= a);
    } else {
        law_replay_concat(g, a, b.drop_last());
        assert((a + b).drop_last() =~= a + b.drop_last());
        assert((a + b).last() == b.last());
    }
}

/// Redoing a log leaves the transaction ids of the graph as they are.
pub proof fn lemma_replay_keeps_tx(g: GraphV, es: Seq<WalEntryV>)
    ensures
        wal_replay(g, es).tx == g.tx,
        wal_replay(g, es).next_txid == g.next_txid,
    decreases es.len(),
{
    if es.len() > 0 {
        lemma_replay_keeps_tx(g, es.drop_last());
    }
}

/// Redoing one more entry.
pub proof fn lemma_replay_push(g: GraphV, a: Seq<WalEntryV>, e: WalEntryV)
    ensures
        wal_replay(g, a.push(e)) == wal_apply(wal_replay(g, a), e),
{
    assert(a.push(e).drop_last() =~= a);
}

// ---------------------------------------------------------------------------------------------
// Well-formed graphs.

/// If node `n` is live and has the label and the property of the index, the index lists it
/// under its value.
pub open spec fn node_indexed(g: GraphV, ix: IndexV, n: int) -> bool {
    let nd = g.nodes[n];
    (!nd.deleted && nd.labels.contains(ix.label) && nd.properties.contains_key(ix.property))
        ==> ids_for(ix.entries, nd.properties[ix.property]).contains(n as usize)
}

/// Node `y` exists, has the index's label and holds `v` under the index's property.
pub open spec fn node_listed(g: GraphV, ix: IndexV, v: PropV, y: usize) -> bool {
    &&& y < g.nodes.len()
    &&& g.nodes[y as int].labels.contains(ix.label)
    &&& g.nodes[y as int].properties.contains_key(ix.property)
    &&& g.nodes[y as int].properties[ix.property] == v
}

/// An index lists each value once and each node at most once under it, lists a node under a
/// value only where the node has the label and holds the value, and misses no live node it
/// covers.
pub open spec fn index_ok(g: GraphV, ix: IndexV) -> bool {
    &&& entries_unique(ix.entries)
    &&& ids_distinct(ix.entries)
    &&& forall|v: PropV, y: usize| #[trigger] ids_for(ix.entries, v).contains(y) ==> node_listed(g, ix, v, y)
    &&& forall|n: int| 0 <= n < g.nodes.len() ==> #[trigger] node_indexed(g, ix, n)
}

/// Indices are sound and complete, there is one per label and property, and edges and nodes
/// refer to each other by existing ids.
pub open spec fn gv_wf(g: GraphV) -> bool {
    &&& forall|i: int| 0 <= i < g.indices.len() ==> #[trigger] index_ok(g, g.indices[i])
    &&& forall|i: int, j: int| 0 <= i < g.indices.len() && 0 <= j < g.indices.len() && i != j ==>
        !(#[trigger] g.indices[i].label == #[trigger] g.indices[j].label && g.indices[i].property == g.indices[j].property)
    &&& forall|e: int| 0 <= e < g.edges.len() ==> #[trigger] g.edges[e].start < g.nodes.len() && g.edges[e].end < g.nodes.len()
    &&& forall|n: int, j: int| 0 <= n < g.nodes.len() && 0 <= j < g.nodes[n].edges.len() ==> #[trigger] g.nodes[n].edges[j] < g.edges.len()
    &&& forall|n: int| 0 <= n < g.nodes.len() ==> (#[trigger] g.nodes[n]).labels.no_duplicates()
}

pub proof fn lemma_push_contains(s: Seq<usize>, x: usize, y: usize)
    ensures
        s.push(x).contains(y) <==> (s.contains(y) || x == y),
{
    if s.contains(y) {
        let q = choose|q: int| 0 <= q < s.len() && s[q] == y;
        assert(s.push(x)[q] == y);
    }
    if x == y {
        assert(s.push(x)[s.len() as int] == y);
    }
    if s.push(x).contains(y) {
        let q = choose|q: int| 0 <= q < s.len() + 1 && s.push(x)[q] == y;
        if q < s.len() {
            assert(s[q] == y);
        }
    }
}

pub proof fn lemma_filter_contains(s: Seq<usize>, id: usize, y: usize)
    ensures
        s.filter(other_than(id)).contains(y) <==> (s.contains(y) && y != id),
{
    #[allow(deprecated)]
    s.filter_lemma(other_than(id));
    let f = s.filter(other_than(id));
    if f.contains(y) {
        s.lemma_filter_contains_rev(other_than(id), y);
        let q = choose|q: int| 0 <= q < f.len() && f[q] == y;
        assert(other_than(id)(f[q]));
    }
    if s.contains(y) && y != id {
        let q = choose|q: int| 0 <= q < s.len() && s[q] == y;
        assert(other_than(id)(s[q]));
    }
}

/// What `index_add` lists, by membership.
pub proof fn lemma_contains_after_add(es: EntriesV, v: PropV, id: usize, w: PropV, y: usize)
    requires
        entries_unique(es),
    ensures
        ids_for(index_add(es, v, id), w).contains(y) <==> (ids_for(es, w).contains(y) || (w == v && y == id)),
{
    lemma_ids_after_add(es, v, id, w);
    lemma_push_contains(ids_for(es, v), id, y);
}

/// What `index_add_once` lists, by membership.
pub proof fn lemma_contains_after_add_once(es: EntriesV, v: PropV, id: usize, w: PropV, y: usize)
    requires
        entries_unique(es),
    ensures
        ids_for(index_add_once(es, v, id), w).contains(y) <==> (ids_for(es, w).contains(y) || (w == v && y == id)),
{
    lemma_contains_after_add(es, v, id, w, y);
    if has_entry(es, v) && es[entry_pos(es, v)].1.contains(id) {
        assert(ids_for(es, v) == es[entry_pos(es, v)].1);
    }
}

/// What `index_remove` lists, by membership.
pub proof fn lemma_contains_after_remove(es: EntriesV, v: PropV, id: usize, w: PropV, y: usize)
    requires
        entries_unique(es),
    ensures
        ids_for(index_remove(es, v, id), w).contains(y) <==> (ids_for(es, w).contains(y) && !(w == v && y == id)),
{
    lemma_ids_after_remove(es, v, id, w);
    lemma_filter_contains(ids_for(es, v), id, y);
}

/// What `index_remove_all` lists, by membership.
pub proof fn lemma_contains_after_remove_all(es: EntriesV, id: usize, w: PropV, y: usize)
    requires
        entries_unique(es),
    ensures
        ids_for(index_remove_all(es, id), w).contains(y) <==> (ids_for(es, w).contains(y) && y != id),
{
    lemma_ids_after_remove_all(es, id, w);
    lemma_filter_contains(ids_for(es, w), id, y);
}

/// A list that names no node twice still does so with a new node after it.
pub proof fn lemma_push_distinct(s: Seq<usize>, x: usize)
    requires
        s.no_duplicates(),
        !s.contains(x),
    ensures
        s.push(x).no_duplicates(),
{
    let t = s.push(x);
    assert forall|i: int, j: int| 0 <= i < t.len() && 0 <= j < t.len() && i != j implies t[i] != t[j] by {
        if i == s.len() {
            assert(t[j] == s[j]);
        } else if j == s.len() {
            assert(t[i] == s[i]);
        } else {
            assert(t[i] == s[i] && t[j] == s[j]);
        }
    }
}

/// Keeping some ids of a list that names no node twice gives such a list.
pub proof fn lemma_filter_distinct(s: Seq<usize>, f: spec_fn(usize) -> bool)
    requires
        s.no_duplicates(),
    ensures
        s.filter(f).no_duplicates(),
    decreases s.len(),
{
    reveal(Seq::filter);
    if s.len() > 0 {
        let r = s.drop_last();
        assert forall|i: int, j: int| 0 <= i < r.len() && 0 <= j < r.len() && i != j implies r[i] != r[j] by {
            assert(r[i] == s[i] && r[j] == s[j]);
        }
        lemma_filter_distinct(r, f);
        if f(s.last()) {
            let q = r.filter(f);
            if q.contains(s.last()) {
                r.lemma_filter_contains_rev(f, s.last());
                let i = choose|i: int| 0 <= i < r.len() && r[i] == s.last();
                assert(s[i] == s[s.len() - 1]);
            }
            lemma_push_distinct(q, s.last());
        }
    }
}

/// Listing a node that is not listed under `v` keeps every list free of repeats.
pub proof fn lemma_distinct_after_add(es: EntriesV, v: PropV, id: usize)
    requires
        entries_unique(es),
        ids_distinct(es),
        !ids_for(es, v).contains(id),
    ensures
        ids_distinct(index_add(es, v, id)),
{
    assert forall|w: PropV| #[trigger] ids_for(index_add(es, v, id), w).no_duplicates() by {
        lemma_ids_after_add(es, v, id, w);
        assert(ids_for(es, w).no_duplicates());
        if w == v {
            lemma_push_distinct(ids_for(es, v), id);
        }
    }
}

/// `index_add_once` keeps every list free of repeats.
pub proof fn lemma_distinct_after_add_once(es: EntriesV, v: PropV, id: usize)
    requires
        entries_unique(es),
        ids_distinct(es),
    ensures
        ids_distinct(index_add_once(es, v, id)),
{
    if !(has_entry(es, v) && es[entry_pos(es, v)].1.contains(id)) {
        assert(!ids_for(es, v).contains(id));
        lemma_distinct_after_add(es, v, id);
    }
}

/// `index_remove` keeps every list free of repeats.
pub proof fn lemma_distinct_after_remove(es: EntriesV, v: PropV, id: usize)
    requires
        entries_unique(es),
        ids_distinct(es),
    ensures
        ids_distinct(index_remove(es, v, id)),
{
    assert forall|w: PropV| #[trigger] ids_for(index_remove(es, v, id), w).no_duplicates() by {
        lemma_ids_after_remove(es, v, id, w);
        assert(ids_for(es, w).no_duplicates());
        if w == v {
            lemma_filter_distinct(ids_for(es, v), other_than(id));
        }
    }
}

/// `index_remove_all` keeps every list free of repeats.
pub proof fn lemma_distinct_after_remove_all(es: EntriesV, id: usize)
    requires
        entries_unique(es),
        ids_distinct(es),
    ensures
        ids_distinct(index_remove_all(es, id)),
{
    assert forall|w: PropV| #[trigger] ids_for(index_remove_all(es, id), w).no_duplicates() by {
        lemma_ids_after_remove_all(es, id, w);
        assert(ids_for(es, w).no_duplicates());
        lemma_filter_distinct(ids_for(es, w), other_than(id));
    }
}

/// Whether a graph is well formed does not depend on its transaction ids.
pub proof fn lemma_wf_any_tx(g: GraphV, tx: Option<u64>, next: u64)
    requires
        gv_wf(g),
    ensures
        gv_wf(GraphV { tx: tx, next_txid: next, ..g }),
{
    let h = GraphV { tx: tx, next_txid: next, ..g };
    assert forall|i: int| 0 <= i < h.indices.len() implies #[trigger] index_ok(h, h.indices[i]) by {
        assert(index_ok(g, g.indices[i]));
        assert forall|m: int| 0 <= m < h.nodes.len() implies #[trigger] node_indexed(h, h.indices[i], m) by {
            assert(node_indexed(g, g.indices[i], m));
        }
        assert forall|v: PropV, y: usize| #[trigger] ids_for(h.indices[i].entries, v).contains(y) implies node_listed(h, h.indices[i], v, y) by {
            assert(node_listed(g, g.indices[i], v, y));
        }
    }
}

/// Adding a label keeps a graph well formed.
pub proof fn lemma_wf_add_label(g: GraphV, name: Seq<char>)
    requires
        gv_wf(g),
    ensures
        gv_wf(g_add_label(g, name)),
{
    let h = g_add_label(g, name);
    assert forall|i: int| 0 <= i < h.indices.len() implies #[trigger] index_ok(h, h.indices[i]) by {
        assert(index_ok(g, g.indices[i]));
        assert forall|n: int| 0 <= n < h.nodes.len() implies #[trigger] node_indexed(h, h.indices[i], n) by {
            assert(node_indexed(g, g.indices[i], n));
        }
    }
}

/// Adding a node keeps a graph well formed.
pub proof fn lemma_wf_add_node(g: GraphV, id: Seq<char>, label: usize, props: Map<Seq<char>, PropV>)
    requires
        gv_wf(g),
        g.nodes.len() <= usize::MAX,
    ensures
        gv_wf(g_add_node(g, id, label, props)),
{
    let h = g_add_node(g, id, label, props);
    let n = g.nodes.len() as usize;
    assert forall|i: int| 0 <= i < h.indices.len() implies #[trigger] index_ok(h, h.indices[i]) by {
        let ix = g.indices[i];
        let jx = h.indices[i];
        assert(index_ok(g, ix));
        assert(jx == index_new_node(ix, label, props, n));
        lemma_index_ops_unique(ix.entries, if props.contains_key(ix.property) { props[ix.property] } else { PropV::Boolean(false) }, n);
        let changed = ix.label == label && props.contains_key(ix.property);
        if changed {
            assert(!ids_for(ix.entries, props[ix.property]).contains(n));
            lemma_distinct_after_add(ix.entries, props[ix.property], n);
        }
        assert forall|v: PropV, y: usize| #[trigger] ids_for(jx.entries, v).contains(y) implies node_listed(h, jx, v, y) by {
            if changed {
                lemma_contains_after_add(ix.entries, props[ix.property], n, v, y);
            }
            if ids_for(ix.entries, v).contains(y) {
                assert(node_listed(g, ix, v, y));
                assert(h.nodes[y as int] == g.nodes[y as int]);
            } else {
                assert(h.nodes[n as int].labels == seq![label]);
                assert(h.nodes[n as int].labels[0] == label);
            }
        }
        assert forall|m: int| 0 <= m < h.nodes.len() implies #[trigger] node_indexed(h, jx, m) by {
            if m < n {
                assert(node_indexed(g, ix, m));
                assert(h.nodes[m] == g.nodes[m]);
                let nd = g.nodes[m];
                if !nd.deleted && nd.labels.contains(ix.label) && nd.properties.contains_key(ix.property) && changed {
                    lemma_contains_after_add(ix.entries, props[ix.property], n, nd.properties[ix.property], m as usize);
                }
            } else {
                assert(h.nodes[m].labels == seq![label]);
                if changed {
                    lemma_contains_after_add(ix.entries, props[ix.property], n, props[ix.property], n);
                } else if h.nodes[m].labels.contains(ix.label) {
                    assert(h.nodes[m].labels[0] == label);
                }
            }
        }
    }
    assert forall|m: int| 0 <= m < h.nodes.len() implies (#[trigger] h.nodes[m]).labels.no_duplicates() by {
        if m < n {
            assert(h.nodes[m] == g.nodes[m]);
        }
    }
    assert forall|m: int, j: int| 0 <= m < h.nodes.len() && 0 <= j < h.nodes[m].edges.len() implies #[trigger] h.nodes[m].edges[j] < h.edges.len() by {
        assert(h.nodes[m] == g.nodes[m]);
    }
}

/// Adding an edge between existing nodes keeps a graph well formed.
pub proof fn lemma_wf_add_edge(g: GraphV, id: Seq<char>, start: usize, end: usize, labels: Seq<usize>, props: Map<Seq<char>, PropV>)
    requires
        gv_wf(g),
        start < g.nodes.len(),
        end < g.nodes.len(),
        g.edges.len() <= usize::MAX,
    ensures
        gv_wf(g_add_edge(g, id, start, end, labels, props)),
{
    let h = g_add_edge(g, id, start, end, labels, props);
    assert forall|m: int| 0 <= m < h.nodes.len() implies
        (#[trigger] h.nodes[m]).labels == g.nodes[m].labels && h.nodes[m].properties == g.nodes[m].properties
            && h.nodes[m].deleted == g.nodes[m].deleted by {
    }
    assert forall|i: int| 0 <= i < h.indices.len() implies #[trigger] index_ok(h, h.indices[i]) by {
        assert(index_ok(g, g.indices[i]));
        assert forall|m: int| 0 <= m < h.nodes.len() implies #[trigger] node_indexed(h, h.indices[i], m) by {
            assert(node_indexed(g, g.indices[i], m));
        }
    }
    assert forall|m: int| 0 <= m < h.nodes.len() implies (#[trigger] h.nodes[m]).labels.no_duplicates() by {
        assert(g.nodes[m].labels.no_duplicates());
    }
    let e = g.edges.len() as usize;
    assert forall|m: int, j: int| 0 <= m < h.nodes.len() && 0 <= j < h.nodes[m].edges.len() implies
        #[trigger] h.nodes[m].edges[j] < h.edges.len() by {
        let n1 = g.nodes.update(start as int, with_edge(g.nodes[start as int], e));
        if m == end as int {
            if j < n1[m].edges.len() {
                if m == start as int {
                    if j < g.nodes[m].edges.len() {
                        assert(h.nodes[m].edges[j] == g.nodes[m].edges[j]);
                    }
                } else {
                    assert(h.nodes[m].edges[j] == g.nodes[m].edges[j]);
                }
            }
        } else if m == start as int {
            if j < g.nodes[m].edges.len() {
                assert(h.nodes[m].edges[j] == g.nodes[m].edges[j]);
            }
        } else {
            assert(h.nodes[m].edges[j] == g.nodes[m].edges[j]);
        }
    }
}

/// What `populate` lists, by membership.
pub proof fn lemma_populate(es: EntriesV, nodes: Seq<NodeV>, label: usize, prop: Seq<char>, k: nat, w: PropV, y: usize)
    requires
        entries_unique(es),
        k <= nodes.len(),
        k <= usize::MAX + 1,
    ensures
        entries_unique(populate(es, nodes, label, prop, k)),
        ids_for(populate(es, nodes, label, prop, k), w).contains(y) <==> (ids_for(es, w).contains(y) || (
            y < k && nodes[y as int].labels.contains(label) && nodes[y as int].properties.contains_key(prop)
                && nodes[y as int].properties[prop] == w)),
    decreases k,
{
    if k > 0 {
        let k1 = (k - 1) as nat;
        lemma_populate(es, nodes, label, prop, k1, w, y);
        let prev = populate(es, nodes, label, prop, k1);
        let nd = nodes[k1 as int];
        if nd.labels.contains(label) && nd.properties.contains_key(prop) {
            lemma_index_ops_unique(prev, nd.properties[prop], k1 as usize);
            lemma_contains_after_add(prev, nd.properties[prop], k1 as usize, w, y);
        }
    }
}

/// A new index lists every node at most once under each value.
pub proof fn lemma_populate_distinct(nodes: Seq<NodeV>, label: usize, prop: Seq<char>, k: nat)
    requires
        k <= nodes.len(),
        k <= usize::MAX + 1,
    ensures
        ids_distinct(populate(Seq::empty(), nodes, label, prop, k)),
    decreases k,
{
    let empty = Seq::<(PropV, Seq<usize>)>::empty();
    if k == 0 {
        assert forall|w: PropV| #[trigger] ids_for(empty, w).no_duplicates() by {
            assert(!has_entry(empty, w));
        }
    } else {
        let j = (k - 1) as nat;
        lemma_populate_distinct(nodes, label, prop, j);
        let prev = populate(empty, nodes, label, prop, j);
        let nd = nodes[j as int];
        if nd.labels.contains(label) && nd.properties.contains_key(prop) {
            assert(entries_unique(empty));
            assert(!ids_for(empty, nd.properties[prop]).contains(j as usize)) by {
                assert(!has_entry(empty, nd.properties[prop]));
            }
            lemma_populate(empty, nodes, label, prop, j, nd.properties[prop], j as usize);
            lemma_distinct_after_add(prev, nd.properties[prop], j as usize);
        }
    }
}

/// Creating an index keeps a graph well formed.
pub proof fn lemma_wf_create_index(g: GraphV, label: usize, prop: Seq<char>, kind: IndexType)
    requires
        gv_wf(g),
        g.nodes.len() <= usize::MAX,
    ensures
        gv_wf(g_create_index(g, label, prop, kind)),
{
    if !has_index(g.indices, label, prop) {
        let h = g_create_index(g, label, prop, kind);
        let k = g.nodes.len();
        let old_entries = Seq::<(PropV, Seq<usize>)>::empty();
        let p = g.indices.len() as int;
        assert(entries_unique(old_entries));
        lemma_populate_distinct(g.nodes, label, prop, k);
        lemma_populate(old_entries, g.nodes, label, prop, k, PropV::Boolean(false), 0);
        assert(h.indices[p].entries == populate(old_entries, g.nodes, label, prop, k));
        assert(h.indices[p].label == label && h.indices[p].property == prop);
        assert forall|i: int| 0 <= i < h.indices.len() implies #[trigger] index_ok(h, h.indices[i]) by {
            if i == p {
                let jx = h.indices[p];
                assert forall|v: PropV, y: usize| #[trigger] ids_for(jx.entries, v).contains(y) implies node_listed(h, jx, v, y) by {
                    lemma_populate(old_entries, g.nodes, label, prop, k, v, y);
                    assert(!has_entry(old_entries, v));
                }
                assert forall|m: int| 0 <= m < h.nodes.len() implies #[trigger] node_indexed(h, jx, m) by {
                    let nd = g.nodes[m];
                    if nd.labels.contains(label) && nd.properties.contains_key(prop) {
                        lemma_populate(old_entries, g.nodes, label, prop, k, nd.properties[prop], m as usize);
                    }
                }
            } else {
                assert(h.indices[i] == g.indices[i]);
                assert(index_ok(g, g.indices[i]));
                assert forall|m: int| 0 <= m < h.nodes.len() implies #[trigger] node_indexed(h, h.indices[i], m) by {
                    assert(node_indexed(g, g.indices[i], m));
                }
            }
        }
        assert forall|i: int, j: int| 0 <= i < h.indices.len() && 0 <= j < h.indices.len() && i != j implies
            !(#[trigger] h.indices[i].label == #[trigger] h.indices[j].label && h.indices[i].property == h.indices[j].property) by {
            if i == p && j != p && h.indices[j].label == label && h.indices[j].property == prop {
                assert(index_at(g.indices, label, prop, j));
            }
            if j == p && i != p && h.indices[i].label == label && h.indices[i].property == prop {
                assert(index_at(g.indices, label, prop, i));
            }
        }
    }
}

/// Setting a property of an existing node keeps a graph well formed.
pub proof fn lemma_wf_set_node_property(g: GraphV, n: usize, key: Seq<char>, value: PropV)
    requires
        gv_wf(g),
        n < g.nodes.len(),
        g.nodes.len() <= usize::MAX,
    ensures
        gv_wf(g_set_node_property(g, n, key, value)),
{
    let h = g_set_node_property(g, n, key, value);
    let nd = g.nodes[n as int];
    assert forall|i: int| 0 <= i < h.indices.len() implies #[trigger] index_ok(h, h.indices[i]) by {
        let ix = g.indices[i];
        let jx = h.indices[i];
        assert(index_ok(g, ix));
        assert(jx == index_set(ix, nd, key, value, n));
        let changed = nd.labels.contains(ix.label) && ix.property == key;
        let had = nd.properties.contains_key(key);
        let cleared = if had { index_remove(ix.entries, nd.properties[key], n) } else { ix.entries };
        if changed {
            if had {
                lemma_index_ops_unique(ix.entries, nd.properties[key], n);
                lemma_distinct_after_remove(ix.entries, nd.properties[key], n);
            }
            lemma_index_ops_unique(cleared, value, n);
            lemma_distinct_after_add_once(cleared, value, n);
        }
        assert forall|v: PropV, y: usize| #[trigger] ids_for(jx.entries, v).contains(y) implies node_listed(h, jx, v, y) by {
            if changed {
                lemma_contains_after_add_once(cleared, value, n, v, y);
                if had {
                    lemma_contains_after_remove(ix.entries, nd.properties[key], n, v, y);
                }
            }
            if ids_for(ix.entries, v).contains(y) {
                assert(node_listed(g, ix, v, y));
            }
            if y != n {
                assert(h.nodes[y as int] == g.nodes[y as int]);
            } else {
                assert(h.nodes[y as int].labels == nd.labels);
                assert(h.nodes[y as int].properties == nd.properties.insert(key, value));
            }
        }
        assert forall|m: int| 0 <= m < h.nodes.len() implies #[trigger] node_indexed(h, jx, m) by {
            assert(node_indexed(g, ix, m));
            let md = h.nodes[m];
            if m != n as int {
                assert(md == g.nodes[m]);
                if changed && !md.deleted && md.labels.contains(ix.label) && md.properties.contains_key(ix.property) {
                    let w = md.properties[ix.property];
                    lemma_contains_after_add_once(cleared, value, n, w, m as usize);
                    if had {
                        lemma_contains_after_remove(ix.entries, nd.properties[key], n, w, m as usize);
                    }
                }
            } else {
                if changed {
                    lemma_contains_after_add_once(cleared, value, n, value, n);
                } else if ix.property != key {
                    assert(md.properties.contains_key(ix.property) == nd.properties.contains_key(ix.property));
                }
            }
        }
    }
    assert forall|m: int| 0 <= m < h.nodes.len() implies (#[trigger] h.nodes[m]).labels.no_duplicates() by {
        assert(g.nodes[m].labels.no_duplicates());
    }
    assert forall|m: int, j: int| 0 <= m < h.nodes.len() && 0 <= j < h.nodes[m].edges.len() implies
        #[trigger] h.nodes[m].edges[j] < h.edges.len() by {
        assert(h.nodes[m].edges == g.nodes[m].edges);
    }
}

/// Deleting an existing node keeps a graph well formed.
pub proof fn lemma_wf_delete_node(g: GraphV, n: usize)
    requires
        gv_wf(g),
        n < g.nodes.len(),
        g.nodes.len() <= usize::MAX,
    ensures
        gv_wf(g_delete_node(g, n)),
{
    let h = g_delete_node(g, n);
    let nd = g.nodes[n as int];
    assert forall|i: int| 0 <= i < h.indices.len() implies #[trigger] index_ok(h, h.indices[i]) by {
        let ix = g.indices[i];
        let jx = h.indices[i];
        assert(index_ok(g, ix));
        assert(jx == index_delete(ix, nd, n));
        let changed = nd.labels.contains(ix.label);
        lemma_index_ops_unique(ix.entries, PropV::Boolean(false), n);
        lemma_distinct_after_remove_all(ix.entries, n);
        assert forall|v: PropV, y: usize| #[trigger] ids_for(jx.entries, v).contains(y) implies node_listed(h, jx, v, y) by {
            if changed {
                lemma_contains_after_remove_all(ix.entries, n, v, y);
            }
            assert(node_listed(g, ix, v, y));
            assert(h.nodes[y as int].labels == g.nodes[y as int].labels);
            assert(h.nodes[y as int].properties == g.nodes[y as int].properties);
        }
        assert forall|m: int| 0 <= m < h.nodes.len() implies #[trigger] node_indexed(h, jx, m) by {
            assert(node_indexed(g, ix, m));
            if m != n as int {
                let md = g.nodes[m];
                if changed && !md.deleted && md.labels.contains(ix.label) && md.properties.contains_key(ix.property) {
                    lemma_contains_after_remove_all(ix.entries, n, md.properties[ix.property], m as usize);
                }
            }
        }
    }
    assert forall|m: int| 0 <= m < h.nodes.len() implies (#[trigger] h.nodes[m]).labels.no_duplicates() by {
        assert(g.nodes[m].labels.no_duplicates());
    }
    assert forall|m: int, j: int| 0 <= m < h.nodes.len() && 0 <= j < h.nodes[m].edges.len() implies
        #[trigger] h.nodes[m].edges[j] < h.edges.len() by {
        assert(h.nodes[m].edges == g.nodes[m].edges);
    }
}

/// Deleting an existing edge keeps a graph well formed.
pub proof fn lemma_wf_delete_edge(g: GraphV, e: usize)
    requires
        gv_wf(g),
        e < g.edges.len(),
    ensures
        gv_wf(g_delete_edge(g, e)),
{
    let h = g_delete_edge(g, e);
    assert forall|i: int| 0 <= i < h.indices.len() implies #[trigger] index_ok(h, h.indices[i]) by {
        assert(index_ok(g, g.indices[i]));
        assert forall|m: int| 0 <= m < h.nodes.len() implies #[trigger] node_indexed(h, h.indices[i], m) by {
            assert(node_indexed(g, g.indices[i], m));
        }
    }
    assert forall|x: int| 0 <= x < h.edges.len() implies #[trigger] h.edges[x].start < h.nodes.len() && h.edges[x].end < h.nodes.len() by {
        assert(g.edges[x].start < g.nodes.len());
    }
}

/// Removing a property of an existing node keeps a graph well formed.
pub proof fn lemma_wf_remove_node_property(g: GraphV, n: usize, key: Seq<char>)
    requires
        gv_wf(g),
        n < g.nodes.len(),
        g.nodes.len() <= usize::MAX,
    ensures
        gv_wf(g_remove_node_property(g, n, key)),
{
    let h = g_remove_node_property(g, n, key);
    let nd = g.nodes[n as int];
    assert forall|i: int| 0 <= i < h.indices.len() implies #[trigger] index_ok(h, h.indices[i]) by {
        let ix = g.indices[i];
        let jx = h.indices[i];
        assert(index_ok(g, ix));
        assert(jx == index_unset(ix, nd, key, n));
        let changed = nd.labels.contains(ix.label) && ix.property == key && nd.properties.contains_key(key);
        if changed {
            lemma_index_ops_unique(ix.entries, nd.properties[key], n);
            lemma_distinct_after_remove(ix.entries, nd.properties[key], n);
        }
        assert forall|v: PropV, y: usize| #[trigger] ids_for(jx.entries, v).contains(y) implies node_listed(h, jx, v, y) by {
            if changed {
                lemma_contains_after_remove(ix.entries, nd.properties[key], n, v, y);
            }
            assert(node_listed(g, ix, v, y));
            if y != n {
                assert(h.nodes[y as int] == g.nodes[y as int]);
            } else {
                assert(h.nodes[y as int].labels == nd.labels);
                assert(h.nodes[y as int].properties == nd.properties.remove(key));
            }
        }
        assert forall|m: int| 0 <= m < h.nodes.len() implies #[trigger] node_indexed(h, jx, m) by {
            assert(node_indexed(g, ix, m));
            if m != n as int {
                let md = g.nodes[m];
                if changed && !md.deleted && md.labels.contains(ix.label) && md.properties.contains_key(ix.property) {
                    lemma_contains_after_remove(ix.entries, nd.properties[key], n, md.properties[ix.property], m as usize);
                }
            } else if ix.property != key {
                assert(h.nodes[m].properties.contains_key(ix.property) == nd.properties.contains_key(ix.property));
            }
        }
    }
    assert forall|m: int| 0 <= m < h.nodes.len() implies (#[trigger] h.nodes[m]).labels.no_duplicates() by {
        assert(g.nodes[m].labels.no_duplicates());
    }
    assert forall|m: int, j: int| 0 <= m < h.nodes.len() && 0 <= j < h.nodes[m].edges.len() implies
        #[trigger] h.nodes[m].edges[j] < h.edges.len() by {
        assert(h.nodes[m].edges == g.nodes[m].edges);
    }
}

/// Removing the first occurrence of a label from a list without repetitions.
pub proof fn lemma_without_first(s: Seq<usize>, x: usize)
    requires
        s.no_duplicates(),
    ensures
        without_first(s, x).no_duplicates(),
        !without_first(s, x).contains(x),
        forall|y: usize| y != x ==> (#[trigger] without_first(s, x).contains(y) <==> s.contains(y)),
{
    s.index_of_first_ensures(x);
    match s.index_of_first(x) {
        Some(i) => {
            let t = s.remove(i);
            assert forall|a: int, b: int| 0 <= a < t.len() && 0 <= b < t.len() && a != b implies t[a] != t[b] by {
                let a2 = if a < i { a } else { a + 1 };
                let b2 = if b < i { b } else { b + 1 };
                assert(t[a] == s[a2]);
                assert(t[b] == s[b2]);
            }
            assert forall|y: usize| y != x implies (#[trigger] t.contains(y) <==> s.contains(y)) by {
                if s.contains(y) {
                    let q = choose|q: int| 0 <= q < s.len() && s[q] == y;
                    if q < i { assert(t[q] == y); } else { assert(q != i); assert(t[q - 1] == y); }
                }
                if t.contains(y) {
                    let q = choose|q: int| 0 <= q < t.len() && t[q] == y;
                    if q < i { assert(s[q] == y); } else { assert(s[q + 1] == y); }
                }
            }
            if t.contains(x) {
                let q = choose|q: int| 0 <= q < t.len() && t[q] == x;
                if q < i { assert(s[q] == x); } else { assert(s[q + 1] == x); }
            }
        },
        None => {},
    }
}

/// Removing a label from an existing node keeps a graph well formed.
#[verifier::spinoff_prover]
pub proof fn lemma_wf_remove_node_label(g: GraphV, n: usize, label: usize)
    requires
        gv_wf(g),
        n < g.nodes.len(),
        g.nodes.len() <= usize::MAX,
    ensures
        gv_wf(g_remove_node_label(g, n, label)),
{
    let h = g_remove_node_label(g, n, label);
    let nd = g.nodes[n as int];
    assert(nd.labels.no_duplicates());
    lemma_without_first(nd.labels, label);
    assert forall|i: int| 0 <= i < h.indices.len() implies #[trigger] index_ok(h, h.indices[i]) by {
        let ix = g.indices[i];
        let jx = h.indices[i];
        assert(index_ok(g, ix));
        assert(jx == index_unlabel(ix, nd, label, n));
        let changed = ix.label == label && nd.properties.contains_key(ix.property);
        if changed {
            lemma_index_ops_unique(ix.entries, nd.properties[ix.property], n);
            lemma_distinct_after_remove(ix.entries, nd.properties[ix.property], n);
        }
        assert forall|v: PropV, y: usize| #[trigger] ids_for(jx.entries, v).contains(y) implies node_listed(h, jx, v, y) by {
            if changed {
                lemma_contains_after_remove(ix.entries, nd.properties[ix.property], n, v, y);
            }
            assert(node_listed(g, ix, v, y));
            if y != n {
                assert(h.nodes[y as int] == g.nodes[y as int]);
            } else {
                assert(h.nodes[y as int].labels == without_first(nd.labels, label));
                assert(h.nodes[y as int].properties == nd.properties);
            }
        }
        assert forall|m: int| 0 <= m < h.nodes.len() implies #[trigger] node_indexed(h, jx, m) by {
            assert(node_indexed(g, ix, m));
            if m != n as int {
                let md = g.nodes[m];
                if changed && !md.deleted && md.labels.contains(ix.label) && md.properties.contains_key(ix.property) {
                    lemma_contains_after_remove(ix.entries, nd.properties[ix.property], n, md.properties[ix.property], m as usize);
                }
            } else if ix.label != label {
                assert(h.nodes[m].labels.contains(ix.label) ==> nd.labels.contains(ix.label));
            }
        }
    }
    assert forall|m: int| 0 <= m < h.nodes.len() implies (#[trigger] h.nodes[m]).labels.no_duplicates() by {
        assert(g.nodes[m].labels.no_duplicates());
    }
    assert forall|m: int, j: int| 0 <= m < h.nodes.len() && 0 <= j < h.nodes[m].edges.len() implies
        #[trigger] h.nodes[m].edges[j] < h.edges.len() by {
        assert(h.nodes[m].edges == g.nodes[m].edges);
    }
    assert forall|i: int, j: int| 0 <= i < h.indices.len() && 0 <= j < h.indices.len() && i != j implies
        !(#[trigger] h.indices[i].label == #[trigger] h.indices[j].label && h.indices[i].property == h.indices[j].property) by {
        assert(h.indices[i].label == g.indices[i].label && h.indices[i].property == g.indices[i].property);
        assert(h.indices[j].label == g.indices[j].label && h.indices[j].property == g.indices[j].property);
    }
}

/// Dropping an index keeps a graph well formed.
pub proof fn lemma_wf_drop_index(g: GraphV, label: usize, prop: Seq<char>)
    requires
        gv_wf(g),
    ensures
        gv_wf(g_drop_index(g, label, prop)),
{
    let h = g_drop_index(g, label, prop);
    if has_index(g.indices, label, prop) {
        let p = index_pos(g.indices, label, prop);
        assert(index_at(g.indices, label, prop, p));
        assert forall|i: int| 0 <= i < h.indices.len() implies #[trigger] index_ok(h, h.indices[i]) by {
            let i2 = if i < p { i } else { i + 1 };
            assert(h.indices[i] == g.indices[i2]);
            assert(index_ok(g, g.indices[i2]));
            assert forall|m: int| 0 <= m < h.nodes.len() implies #[trigger] node_indexed(h, h.indices[i], m) by {
                assert(node_indexed(g, g.indices[i2], m));
            }
        }
        assert forall|i: int, j: int| 0 <= i < h.indices.len() && 0 <= j < h.indices.len() && i != j implies
            !(#[trigger] h.indices[i].label == #[trigger] h.indices[j].label && h.indices[i].property == h.indices[j].property) by {
            let i2 = if i < p { i } else { i + 1 };
            let j2 = if j < p { j } else { j + 1 };
            assert(h.indices[i] == g.indices[i2]);
            assert(h.indices[j] == g.indices[j2]);
        }
    }
}

/// Redoing an applicable log entry keeps a graph well formed.
pub proof fn lemma_wf_apply(g: GraphV, e: WalEntryV)
    requires
        gv_wf(g),
        wal_applicable(g, e),
        g.nodes.len() <= usize::MAX,
        g.edges.len() <= usize::MAX,
    ensures
        gv_wf(wal_apply(g, e)),
{
    match e {
        WalEntryV::AddLabel { label } => lemma_wf_add_label(g, label),
        WalEntryV::AddNode { id, label, properties } => lemma_wf_add_node(g, id, label, properties),
        WalEntryV::AddEdge { id, start, end, labels, properties } => lemma_wf_add_edge(g, id, start, end, labels, properties),
        WalEntryV::CreateIndex { label, property, index_type } => lemma_wf_create_index(g, label, property, index_type),
        WalEntryV::SetNodeProperty { node_id, key, value } => lemma_wf_set_node_property(g, node_id, key, value),
        WalEntryV::DeleteNode { node_id } => lemma_wf_delete_node(g, node_id),
        WalEntryV::DeleteEdge { edge_id } => lemma_wf_delete_edge(g, edge_id),
        WalEntryV::RemoveNodeProperty { node_id, key } => lemma_wf_remove_node_property(g, node_id, key),
        WalEntryV::RemoveNodeLabel { node_id, label_id } => lemma_wf_remove_node_label(g, node_id, label_id),
        WalEntryV::DropIndex { label, property } => lemma_wf_drop_index(g, label, property),
    }
}

} // verus!
